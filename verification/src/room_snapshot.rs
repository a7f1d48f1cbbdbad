//! What the players see of a room: its snapshot, the shared Minesweeper board with the
//! owner of every claimed cell, and the snapshot each player gets (other players' flags
//! hidden).

use vstd::prelude::*;
use std::collections::BTreeSet;
use vstd::std_specs::iter::IteratorSpec;
use vstd::std_specs::cmp::OrdSpec;
use crate::grid::count_true;
use crate::minesweeper::{MinesweeperCell, MinesweeperCellState, MinesweeperMineCellState};
use crate::nonogram::NonogramPuzzle;
use crate::queens::{texts, Puzzle};
use crate::room::{
    RoomMinesweeperCellSnapshot, RoomMinesweeperSnapshot, RoomNonogramSnapshot, RoomPlayerSnapshot, RoomRecording,
    RoomRecordingFrame,
};
use crate::medals::{minesweeper_entries, minesweeper_ranked_player_ids, ranked_ids, ranking_of, RankEntry};
use crate::race_minesweeper::minesweeper_ok;
use crate::room::{RoomBootstrap, RoomGameKind, RoomPuzzleChoice, RoomSnapshot};
use crate::room_service::{active_puzzle, copy_mouse_recording, find_active_puzzle};
use crate::rooms::{same_text, snapshot_phase_spec, Room, RoomPlayer, ServerMinesweeperGame, ServerNonogramGame, ServerRoomPhase};

verus! {

broadcast use vstd::std_specs::btree::group_btree_axioms, vstd::laws_cmp::group_laws_cmp;

/// The members of a set in increasing order.
pub open spec fn in_order(s: Seq<usize>) -> bool {
    forall|i: int, j: int| 0 <= i < j < s.len() ==> s[i] < s[j]
}

/// The members of a set, in increasing order.
pub fn sorted_members(set: &BTreeSet<usize>) -> (v: Vec<usize>)
    ensures
        v@.to_set() == set@,
        in_order(v@),
        v@.no_duplicates(),
{
    let ghost keys = vstd::std_specs::btree::spec_btree_keys_iter(set).remaining();
    let mut v: Vec<usize> = Vec::new();
    for x in it: set.iter()
        invariant
            v.len() == it.index(),
            it.seq() == keys,
            forall|i: int| 0 <= i < v.len() ==> v@[i] == *keys[i],
        ensures
            v.len() == keys.len(),
            forall|i: int| 0 <= i < v.len() ==> v@[i] == *keys[i],
    {
        v.push(*x);
    }
    proof {
        assert(v@ == keys.unref());
        assert(vstd::laws_cmp::obeys_cmp::<&usize>());
        assert(vstd::std_specs::btree::increasing_seq(keys));
        vstd::std_specs::btree::axiom_increasing_seq_meaning(keys);
        assert forall|i: int, j: int| 0 <= i < j < v@.len() implies v@[i] < v@[j] by {
            let a: &usize = keys[i];
            let b: &usize = keys[j];
            assert(OrdSpec::cmp_spec(&a, &b) is Less);
        }
    }
    v
}

/// Two recordings hold the same frames.
pub open spec fn same_recording(a: RoomRecording, b: RoomRecording) -> bool {
    &&& a.frames.len() == b.frames.len()
    &&& forall|k: int|
        0 <= k < a.frames.len() ==> (#[trigger] a.frames@[k]).elapsed_ms == b.frames@[k].elapsed_ms
            && a.frames@[k].states@ == b.frames@[k].states@
}

/// A copy of a recording.
pub fn copy_recording(r: &RoomRecording) -> (c: RoomRecording)
    ensures
        same_recording(c, *r),
{
    let mut frames: Vec<RoomRecordingFrame> = Vec::new();
    let mut k: usize = 0;
    while k < r.frames.len()
        invariant
            k <= r.frames.len(),
            frames.len() == k,
            forall|j: int|
                0 <= j < k ==> (#[trigger] frames@[j]).elapsed_ms == r.frames@[j].elapsed_ms && frames@[j].states@
                    == r.frames@[j].states@,
        decreases r.frames.len() - k,
    {
        let f = &r.frames[k];
        let mut states: Vec<u8> = Vec::new();
        let mut i: usize = 0;
        while i < f.states.len()
            invariant
                i <= f.states.len(),
                states@ == f.states@.take(i as int),
            decreases f.states.len() - i,
        {
            states.push(f.states[i]);
            proof {
                assert(f.states@.take(i + 1) == f.states@.take(i as int).push(f.states@[i as int]));
            }
            i = i + 1;
        }
        proof {
            assert(f.states@.take(i as int) == f.states@);
        }
        frames.push(RoomRecordingFrame { elapsed_ms: f.elapsed_ms, states });
        k = k + 1;
    }
    RoomRecording { frames }
}

/// A copy of a list of numbers.
pub fn copy_numbers(v: &Vec<usize>) -> (c: Vec<usize>)
    ensures
        c@ == v@,
{
    let mut c: Vec<usize> = Vec::new();
    let mut i: usize = 0;
    while i < v.len()
        invariant
            i <= v.len(),
            c@ == v@.take(i as int),
        decreases v.len() - i,
    {
        c.push(v[i]);
        proof {
            assert(v@.take(i + 1) == v@.take(i as int).push(v@[i as int]));
        }
        i = i + 1;
    }
    proof {
        assert(v@.take(i as int) == v@);
    }
    c
}

/// A copy of a list of lists of numbers.
fn copy_number_lists(v: &Vec<Vec<usize>>) -> (c: Vec<Vec<usize>>)
    ensures
        c.len() == v.len(),
        forall|k: int| 0 <= k < v.len() ==> (#[trigger] c@[k])@ == v@[k]@,
{
    let mut c: Vec<Vec<usize>> = Vec::new();
    let mut i: usize = 0;
    while i < v.len()
        invariant
            i <= v.len(),
            c.len() == i,
            forall|k: int| 0 <= k < i ==> (#[trigger] c@[k])@ == v@[k]@,
        decreases v.len() - i,
    {
        c.push(copy_numbers(&v[i]));
        i = i + 1;
    }
    c
}

/// Two Queens puzzles are the same.
pub open spec fn same_puzzle(a: Puzzle, b: Puzzle) -> bool {
    &&& a.id == b.id
    &&& a.size == b.size
    &&& texts(a.colors@) == texts(b.colors@)
    &&& a.regions.len() == b.regions.len()
    &&& forall|k: int| 0 <= k < a.regions.len() ==> (#[trigger] a.regions@[k])@ == b.regions@[k]@
}

/// A copy of a Queens puzzle.
pub fn copy_puzzle(p: &Puzzle) -> (c: Puzzle)
    ensures
        same_puzzle(c, *p),
{
    let mut colors: Vec<String> = Vec::new();
    let mut i: usize = 0;
    while i < p.colors.len()
        invariant
            i <= p.colors.len(),
            texts(colors@) == texts(p.colors@.take(i as int)),
        decreases p.colors.len() - i,
    {
        let ghost before = colors@;
        colors.push(p.colors[i].clone());
        proof {
            assert(p.colors@.take(i + 1) == p.colors@.take(i as int).push(p.colors@[i as int]));
            assert(texts(colors@) == texts(before).push(p.colors@[i as int]@));
        }
        i = i + 1;
    }
    proof {
        assert(p.colors@.take(i as int) == p.colors@);
    }
    Puzzle { id: p.id, size: p.size, colors, regions: copy_number_lists(&p.regions) }
}

/// Two nonogram puzzles are the same.
pub open spec fn same_nonogram(a: NonogramPuzzle, b: NonogramPuzzle) -> bool {
    &&& a.width == b.width
    &&& a.height == b.height
    &&& a.seed == b.seed
    &&& a.solution@ == b.solution@
    &&& a.row_clues.len() == b.row_clues.len()
    &&& forall|k: int| 0 <= k < a.row_clues.len() ==> (#[trigger] a.row_clues@[k])@ == b.row_clues@[k]@
    &&& a.col_clues.len() == b.col_clues.len()
    &&& forall|k: int| 0 <= k < a.col_clues.len() ==> (#[trigger] a.col_clues@[k])@ == b.col_clues@[k]@
}

/// A copy of a nonogram puzzle.
pub fn copy_nonogram(p: &NonogramPuzzle) -> (c: NonogramPuzzle)
    ensures
        same_nonogram(c, *p),
{
    let mut solution: Vec<bool> = Vec::new();
    let mut i: usize = 0;
    while i < p.solution.len()
        invariant
            i <= p.solution.len(),
            solution@ == p.solution@.take(i as int),
        decreases p.solution.len() - i,
    {
        solution.push(p.solution[i]);
        proof {
            assert(p.solution@.take(i + 1) == p.solution@.take(i as int).push(p.solution@[i as int]));
        }
        i = i + 1;
    }
    proof {
        assert(p.solution@.take(i as int) == p.solution@);
    }
    NonogramPuzzle {
        width: p.width,
        height: p.height,
        seed: p.seed,
        row_clues: copy_number_lists(&p.row_clues),
        col_clues: copy_number_lists(&p.col_clues),
        solution,
    }
}

/// What a room shows of its nonogram.
pub fn room_nonogram_snapshot(game: &ServerNonogramGame) -> (s: RoomNonogramSnapshot)
    ensures
        same_nonogram(s.puzzle, game.puzzle),
{
    RoomNonogramSnapshot { puzzle: copy_nonogram(&game.puzzle) }
}

/// What a room shows of a player: everything but the room's own bookkeeping, with their
/// flags listed in increasing order.
pub open spec fn player_snapshot_ok(s: RoomPlayerSnapshot, p: RoomPlayer) -> bool {
    &&& s.id@ == p.id@
    &&& s.name@ == p.name@
    &&& s.ready == p.ready
    &&& s.connected == p.connected
    &&& s.finish_ms == p.finish_ms
    &&& s.gave_up == p.gave_up
    &&& s.medals == p.medals
    &&& (s.recording is Some <==> p.recording is Some)
    &&& (p.recording matches Some(r) ==> same_recording(s.recording->0, r))
    &&& (s.mouse_recording is Some <==> p.mouse_recording is Some)
    &&& (p.mouse_recording matches Some(m) ==> s.mouse_recording->0.samples@ == m.samples@
        && s.mouse_recording->0.events@ == m.events@)
    &&& s.minesweeper_score == p.minesweeper_score
    &&& s.minesweeper_eliminated == p.minesweeper_eliminated
    &&& s.minesweeper_last_score_ms == p.minesweeper_last_score_ms
    &&& s.minesweeper_flags@.to_set() == p.minesweeper_flags@
    &&& in_order(s.minesweeper_flags@)
    &&& s.pointer == p.pointer
}

/// What a room shows of a player.
pub fn player_snapshot(p: &RoomPlayer) -> (s: RoomPlayerSnapshot)
    ensures
        player_snapshot_ok(s, *p),
{
    let recording = match &p.recording {
        Some(r) => Some(copy_recording(r)),
        None => None,
    };
    let mouse_recording = match &p.mouse_recording {
        Some(m) => Some(copy_mouse_recording(m)),
        None => None,
    };
    RoomPlayerSnapshot {
        id: p.id.clone(),
        name: p.name.clone(),
        ready: p.ready,
        connected: p.connected,
        finish_ms: p.finish_ms,
        gave_up: p.gave_up,
        medals: p.medals,
        recording,
        mouse_recording,
        minesweeper_score: p.minesweeper_score,
        minesweeper_eliminated: p.minesweeper_eliminated,
        minesweeper_last_score_ms: p.minesweeper_last_score_ms,
        minesweeper_flags: sorted_members(&p.minesweeper_flags),
        pointer: p.pointer,
    }
}

/// What a room shows of cell `i` of its Minesweeper board.
pub open spec fn cell_snapshot_ok(s: RoomMinesweeperCellSnapshot, game: ServerMinesweeperGame, i: int) -> bool {
    let cell = game.board.cell_spec(i);
    &&& s.revealed == (cell.state_spec() == MinesweeperCellState::Revealed)
    &&& s.mine == (cell is Mine)
    &&& s.detonated == (cell == MinesweeperCell::Mine { state: MinesweeperMineCellState::Detonated })
    &&& s.start == game.starting_cells@.contains(i as usize)
    &&& s.adjacent_mines == Some(cell.adjacent_mines_spec())
    &&& (s.owner_id is Some <==> game.cell_owners@.contains_key(i as usize))
    &&& (s.owner_id matches Some(o) ==> o@ == game.cell_owners@[i as usize]@)
}

/// Whether a list holds a number.
fn list_contains(v: &Vec<usize>, x: usize) -> (b: bool)
    ensures
        b == v@.contains(x),
{
    let mut k: usize = 0;
    while k < v.len()
        invariant
            k <= v.len(),
            forall|j: int| 0 <= j < k ==> v@[j] != x,
        decreases v.len() - k,
    {
        if v[k] == x {
            proof {
                assert(v@[k as int] == x);
            }
            return true;
        }
        k = k + 1;
    }
    false
}

/// What a room shows of its Minesweeper board: every cell in full (mines too, so that
/// players can play ahead of the server), the starting cells, and who owns each cell.
pub fn room_minesweeper_snapshot(game: &ServerMinesweeperGame) -> (s: RoomMinesweeperSnapshot)
    requires
        game.board.wf(),
    ensures
        s.width == game.board.w(),
        s.height == game.board.h(),
        s.mines == if game.board.placed() {
            count_true(game.board.mine_map())
        } else {
            game.board.pending_mine_count()
        },
        s.starting_cells@ == game.starting_cells@,
        s.cells.len() == game.board.n(),
        forall|i: int| 0 <= i < s.cells.len() ==> cell_snapshot_ok(#[trigger] s.cells@[i], *game, i),
{
    let board_cells = game.board.cells();
    let mut cells: Vec<RoomMinesweeperCellSnapshot> = Vec::new();
    let mut k: usize = 0;
    while k < board_cells.len()
        invariant
            game.board.wf(),
            board_cells@ == Seq::new(game.board.n(), |i: int| game.board.cell_spec(i)),
            k <= board_cells.len(),
            cells.len() == k,
            forall|i: int| 0 <= i < k ==> cell_snapshot_ok(#[trigger] cells@[i], *game, i),
        decreases board_cells.len() - k,
    {
        let c = board_cells[k];
        let owner_id = match game.cell_owners.get(&k) {
            Some(o) => Some(o.clone()),
            None => None,
        };
        cells.push(
            RoomMinesweeperCellSnapshot {
                revealed: c.state() == MinesweeperCellState::Revealed,
                mine: c.mine(),
                detonated: c.detonated(),
                start: list_contains(&game.starting_cells, k),
                adjacent_mines: Some(c.adjacent_mines()),
                owner_id,
            },
        );
        k = k + 1;
    }
    RoomMinesweeperSnapshot {
        width: game.board.width(),
        height: game.board.height(),
        mines: game.board.mine_count(),
        starting_cells: copy_numbers(&game.starting_cells),
        cells,
    }
}

/// Player `a` finished no later than `b` (ties go to the earlier joiner).
pub open spec fn finished_no_later(a: RoomPlayer, b: RoomPlayer) -> bool {
    a.finish_ms->0 < b.finish_ms->0 || (a.finish_ms->0 == b.finish_ms->0 && a.joined_order <= b.joined_order)
}

/// Player `w` is the first of the fastest finishers.
pub open spec fn first_finisher(players: Seq<RoomPlayer>, w: int) -> bool {
    &&& 0 <= w < players.len()
    &&& players[w].finish_ms is Some
    &&& forall|k: int| 0 <= k < players.len() && (#[trigger] players[k]).finish_ms is Some ==> finished_no_later(players[w], players[k])
    &&& forall|k: int| 0 <= k < w && (#[trigger] players[k]).finish_ms is Some ==> !finished_no_later(players[k], players[w])
}

/// Somebody finished.
pub open spec fn someone_finished(players: Seq<RoomPlayer>) -> bool {
    exists|k: int| 0 <= k < players.len() && (#[trigger] players[k]).finish_ms is Some
}

/// The first of the fastest finishers, if anybody finished.
fn fastest_finisher(players: &Vec<RoomPlayer>) -> (w: Option<usize>)
    ensures
        w is None <==> !someone_finished(players@),
        w matches Some(i) ==> first_finisher(players@, i as int),
{
    let mut best: Option<usize> = None;
    let mut k: usize = 0;
    while k < players.len()
        invariant
            k <= players.len(),
            best is None <==> !exists|j: int| 0 <= j < k && (#[trigger] players@[j]).finish_ms is Some,
            best matches Some(b) ==> b < k && first_finisher(players@.take(k as int), b as int),
        decreases players.len() - k,
    {
        let ghost prefix = players@.take(k as int);
        let ghost next = players@.take(k + 1);
        proof {
            assert forall|j: int| 0 <= j < k implies next[j] == prefix[j] by {}
        }
        match players[k].finish_ms {
            Some(f) => {
                let better = match best {
                    None => true,
                    Some(b) => {
                        let bf = match players[b].finish_ms {
                            Some(x) => x,
                            None => 0,
                        };
                        f < bf || (f == bf && players[k].joined_order < players[b].joined_order)
                    },
                };
                if better {
                    proof {
                        if best is Some {
                            let b = best->0;
                            assert(first_finisher(prefix, b as int));
                        }
                        assert forall|j: int| 0 <= j < next.len() && (#[trigger] next[j]).finish_ms is Some implies finished_no_later(
                            next[k as int],
                            next[j],
                        ) by {
                            if j < k {
                                assert(prefix[j] == next[j]);
                                if best is Some {
                                    assert(finished_no_later(prefix[best->0 as int], prefix[j]));
                                }
                            }
                        }
                        assert forall|j: int| 0 <= j < k && (#[trigger] next[j]).finish_ms is Some implies !finished_no_later(
                            next[j],
                            next[k as int],
                        ) by {
                            assert(prefix[j] == next[j]);
                            if best is Some {
                                assert(finished_no_later(prefix[best->0 as int], prefix[j]));
                            }
                        }
                    }
                    best = Some(k);
                } else {
                    proof {
                        let b = best->0;
                        assert(first_finisher(prefix, b as int));
                        assert forall|j: int| 0 <= j < next.len() && (#[trigger] next[j]).finish_ms is Some implies finished_no_later(
                            next[b as int],
                            next[j],
                        ) by {
                            if j < k {
                                assert(prefix[j] == next[j]);
                            }
                        }
                        assert forall|j: int| 0 <= j < b && (#[trigger] next[j]).finish_ms is Some implies !finished_no_later(
                            next[j],
                            next[b as int],
                        ) by {
                            assert(prefix[j] == next[j]);
                        }
                    }
                }
            },
            None => {
                proof {
                    if best is Some {
                        let b = best->0;
                        assert(first_finisher(prefix, b as int));
                        assert forall|j: int| 0 <= j < next.len() && (#[trigger] next[j]).finish_ms is Some implies finished_no_later(
                            next[b as int],
                            next[j],
                        ) by {
                            if j < k {
                                assert(prefix[j] == next[j]);
                            }
                        }
                        assert forall|j: int| 0 <= j < b && (#[trigger] next[j]).finish_ms is Some implies !finished_no_later(
                            next[j],
                            next[b as int],
                        ) by {
                            assert(prefix[j] == next[j]);
                        }
                    }
                }
            },
        }
        k = k + 1;
    }
    proof {
        assert(players@.take(k as int) == players@);
    }
    best
}

/// The id of a room's winner as text, if any.
pub open spec fn winner_text(w: Option<String>) -> Option<Seq<char>> {
    match w {
        Some(id) => Some(id@),
        None => None,
    }
}

/// Who won the race of a room that shows its results: the first of the fastest finishers
/// (Queens and nonograms), or the top of the Minesweeper ranking; nobody while a race is
/// not over.
pub open spec fn winner_ok(room: &Room, w: Option<String>) -> bool {
    if !(room.phase is Complete) {
        w is None
    } else if room.game_kind == RoomGameKind::Minesweeper {
        exists|order: Seq<RankEntry>|
            #[trigger] ranking_of(order, minesweeper_entries(room.players@, room.race_player_ids@)) && winner_text(w) == if ranked_ids(
                room.players@,
                order,
            ).len() > 0 {
                Some(ranked_ids(room.players@, order)[0])
            } else {
                None
            }
    } else {
        &&& w is None <==> !someone_finished(room.players@)
        &&& w matches Some(id) ==> exists|k: int| #[trigger] first_finisher(room.players@, k) && id@ == room.players@[k].id@
    }
}

/// The room's winner.
fn room_winner(room: &Room) -> (w: Option<String>)
    ensures
        winner_ok(room, w),
{
    match room.phase {
        ServerRoomPhase::Complete { .. } => {},
        _ => {
            return None;
        },
    }
    if room.game_kind == RoomGameKind::Minesweeper {
        let ids = minesweeper_ranked_player_ids(room);
        if ids.len() > 0 {
            Some(ids[0].clone())
        } else {
            None
        }
    } else {
        match fastest_finisher(&room.players) {
            Some(k) => Some(room.players[k].id.clone()),
            None => None,
        }
    }
}

/// Everything a player sees of a room (before their own view hides other players' flags):
/// its setup, phase and players, the Queens puzzle once the race is on, the shared
/// Minesweeper board or the nonogram of the game it plays, and the winner once it is over.
pub open spec fn snapshot_ok(s: RoomSnapshot, room: &Room, puzzles: Seq<Puzzle>) -> bool {
    &&& s.slug@ == room.slug@
    &&& s.game_kind == room.game_kind
    &&& s.phase == snapshot_phase_spec(room.phase)
    &&& s.puzzle_choice == room.puzzle_choice
    &&& s.minesweeper_time_limit_seconds == room.minesweeper_time_limit_seconds
    &&& s.minesweeper_tile_rows == room.minesweeper_tile_rows
    &&& s.minesweeper_tile_cols == room.minesweeper_tile_cols
    &&& s.played_puzzle_ids@.to_set() == room.played_puzzle_ids@
    &&& in_order(s.played_puzzle_ids@)
    &&& s.players.len() == room.players.len()
    &&& forall|k: int| 0 <= k < s.players.len() ==> player_snapshot_ok(#[trigger] s.players@[k], room.players@[k])
    &&& {
        let shown = room.game_kind == RoomGameKind::Queens && (room.phase is Racing || room.phase is Complete)
            && active_puzzle(room, puzzles) is Some;
        &&& shown ==> s.puzzle is Some && same_puzzle(s.puzzle->0, active_puzzle(room, puzzles)->0)
        &&& !shown ==> s.puzzle is None
    }
    &&& {
        let shown = room.game_kind == RoomGameKind::Minesweeper && room.minesweeper is Some;
        &&& !shown ==> s.minesweeper is None
        &&& shown ==> (s.minesweeper matches Some(m) && {
            let g = room.minesweeper->0;
            &&& m.width == g.board.w()
            &&& m.height == g.board.h()
            &&& m.starting_cells@ == g.starting_cells@
            &&& m.cells.len() == g.board.n()
            &&& forall|i: int| 0 <= i < m.cells.len() ==> cell_snapshot_ok(#[trigger] m.cells@[i], g, i)
        })
    }
    &&& {
        let shown = room.game_kind == RoomGameKind::Nonogram && room.nonogram is Some;
        &&& !shown ==> s.nonogram is None
        &&& shown ==> (s.nonogram matches Some(n) && same_nonogram(n.puzzle, room.nonogram->0.puzzle))
    }
    &&& winner_ok(room, s.winner_id)
}

/// Everything a player sees of a room.
pub fn snapshot_room(room: &Room, puzzles: &Vec<Puzzle>) -> (s: RoomSnapshot)
    requires
        minesweeper_ok(room),
    ensures
        snapshot_ok(s, room, puzzles@),
{
    let racing_or_over = match room.phase {
        ServerRoomPhase::Racing { .. } => true,
        ServerRoomPhase::Complete { .. } => true,
        _ => false,
    };
    let puzzle = if room.game_kind == RoomGameKind::Queens && racing_or_over {
        match find_active_puzzle(room, puzzles) {
            Some(p) => Some(copy_puzzle(p)),
            None => None,
        }
    } else {
        None
    };
    let minesweeper = if room.game_kind == RoomGameKind::Minesweeper {
        match &room.minesweeper {
            Some(g) => Some(room_minesweeper_snapshot(g)),
            None => None,
        }
    } else {
        None
    };
    let nonogram = if room.game_kind == RoomGameKind::Nonogram {
        match &room.nonogram {
            Some(g) => Some(room_nonogram_snapshot(g)),
            None => None,
        }
    } else {
        None
    };
    let mut players: Vec<RoomPlayerSnapshot> = Vec::new();
    let mut k: usize = 0;
    while k < room.players.len()
        invariant
            k <= room.players.len(),
            players.len() == k,
            forall|j: int| 0 <= j < k ==> player_snapshot_ok(#[trigger] players@[j], room.players@[j]),
        decreases room.players.len() - k,
    {
        players.push(player_snapshot(&room.players[k]));
        k = k + 1;
    }
    RoomSnapshot {
        slug: room.slug.clone(),
        game_kind: room.game_kind,
        phase: room.phase.as_snapshot_phase(),
        puzzle_choice: match room.puzzle_choice {
            RoomPuzzleChoice::Puzzle { id } => RoomPuzzleChoice::Puzzle { id },
            RoomPuzzleChoice::Random => RoomPuzzleChoice::Random,
        },
        minesweeper_time_limit_seconds: room.minesweeper_time_limit_seconds,
        minesweeper_tile_rows: room.minesweeper_tile_rows,
        minesweeper_tile_cols: room.minesweeper_tile_cols,
        played_puzzle_ids: sorted_members(&room.played_puzzle_ids),
        players,
        puzzle,
        minesweeper,
        nonogram,
        winner_id: room_winner(room),
    }
}

/// The snapshot a player gets: the same, but with every other player's flags hidden.
pub fn hide_other_players_flags(snapshot: &mut RoomSnapshot, player_id: &str)
    ensures
        *final(snapshot) == (RoomSnapshot { players: final(snapshot).players, ..*old(snapshot) }),
        final(snapshot).players.len() == old(snapshot).players.len(),
        forall|k: int|
            0 <= k < final(snapshot).players.len() ==> {
                let p = #[trigger] final(snapshot).players@[k];
                let q = old(snapshot).players@[k];
                &&& p == (RoomPlayerSnapshot { minesweeper_flags: p.minesweeper_flags, ..q })
                &&& q.id@ == player_id@ ==> p.minesweeper_flags@ == q.minesweeper_flags@
                &&& q.id@ != player_id@ ==> p.minesweeper_flags@.len() == 0
            },
{
    let mut k: usize = 0;
    while k < snapshot.players.len()
        invariant
            k <= snapshot.players.len(),
            snapshot.players.len() == old(snapshot).players.len(),
            *snapshot == (RoomSnapshot { players: snapshot.players, ..*old(snapshot) }),
            forall|j: int|
                0 <= j < snapshot.players.len() ==> {
                    let p = #[trigger] snapshot.players@[j];
                    let q = old(snapshot).players@[j];
                    &&& p == (RoomPlayerSnapshot { minesweeper_flags: p.minesweeper_flags, ..q })
                    &&& (j >= k || q.id@ == player_id@) ==> p.minesweeper_flags@ == q.minesweeper_flags@
                    &&& (j < k && q.id@ != player_id@) ==> p.minesweeper_flags@.len() == 0
                },
        decreases snapshot.players.len() - k,
    {
        if !same_text(&snapshot.players[k].id, player_id) {
            let ghost before = snapshot.players@;
            let mut player = snapshot.players.remove(k);
            player.minesweeper_flags.clear();
            snapshot.players.insert(k, player);
            proof {
                assert(snapshot.players@ == before.update(k as int, player));
            }
        }
        k = k + 1;
    }
}

/// What a room page starts with: the room's snapshot and how many puzzles there are.
pub fn room_bootstrap(room: &Room, puzzles: &Vec<Puzzle>) -> (b: RoomBootstrap)
    requires
        minesweeper_ok(room),
    ensures
        b.slug@ == room.slug@,
        b.total_puzzles == puzzles.len(),
        snapshot_ok(b.snapshot, room, puzzles@),
{
    RoomBootstrap { slug: room.slug.clone(), total_puzzles: puzzles.len(), snapshot: snapshot_room(room, puzzles) }
}

} // verus!
