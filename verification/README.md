# queensgame

The rules and game logic behind a small collection of web puzzle games, written in Verus
and checked against their contracts: 9x9 Queens (puzzles, validation, the client's game
state with undo and automatic marks), Minesweeper (boards, seeded mine placement, reveal and
chord, a deduction solver whose every answer of "no guess needed" comes with a run of moves
that only open cells safe in every layout consistent with what is shown, and whose every
refusal on a real board comes with such a run that reaches a point where neither the
single-constraint nor the subset rules decide anything), nonograms (clues,
a line-by-line solver, seeded generation, the painting input), and multiplayer rooms
(lobbies, races, medals, recordings and the snapshots sent to each player).

- `src/` is the verified library. Each module states its behaviour in `requires` and
  `ensures` over spec functions of its own; the public proof functions state laws that span
  several operations (undo and redo, drags, solver uniqueness, race starts).
- `tests/` holds the tests, run against the compiled library.
- `app/` is the server program around it: the line protocol, timers and clock, random room
  names, JSON with serde, and the floating-point pointer helpers.

Outside crates: `rand` (called from `src/` through one trusted wrapper), `serde` and
`serde_json` (used in `app/` only).
