//! A single-player Minesweeper game on the player's side: the board, the clock and the
//! face button, and the cells a chord presses. The page keeps the clock and the random
//! source: it hands these rules the time in ms and a seed.

use vstd::prelude::*;
use std::collections::BTreeSet;
use crate::grid::neighbor_seq;
use crate::minesweeper::{
    accepts_moves, chord_allowed, chord_outcome, reveal_outcome, MinesweeperActionResult, MinesweeperBoard,
    MinesweeperBootstrap, MinesweeperCellState, MinesweeperStatus,
};

verus! {

broadcast use vstd::std_specs::btree::group_btree_axioms, vstd::laws_cmp::group_laws_cmp;

/// The cell a chord on `index` would act on: an opened number (none otherwise).
pub open spec fn chord_target_spec(board: MinesweeperBoard, index: usize) -> Option<usize> {
    if index < board.n() && board.cell_spec(index as int).state_spec() == MinesweeperCellState::Revealed
        && board.cell_spec(index as int).adjacent_mines_spec() > 0 {
        Some(index)
    } else {
        None
    }
}

/// The cell a chord on `index` would act on.
pub fn minesweeper_chord_target(board: &MinesweeperBoard, index: usize) -> (t: Option<usize>)
    requires
        board.wf(),
    ensures
        t == chord_target_spec(*board, index),
{
    match board.cell(index) {
        Some(cell) => if cell.state() == MinesweeperCellState::Revealed && cell.adjacent_mines() > 0 {
            Some(index)
        } else {
            None
        },
        None => None,
    }
}

/// The cells a chord on `index` presses down while the button is held: its unopened,
/// unflagged neighbours (none when it is no opened number).
pub open spec fn pressed_spec(board: MinesweeperBoard, index: usize) -> Set<usize> {
    if chord_target_spec(board, index) is None {
        Set::empty()
    } else {
        Set::new(
            |k: usize|
                neighbor_seq(board.w() as int, board.h() as int, index as int).contains(k) && (
                board.cell_states()[k as int] == MinesweeperCellState::Hidden || board.cell_states()[k as int]
                    == MinesweeperCellState::Question),
        )
    }
}

/// The cells a chord on `index` presses down.
pub fn minesweeper_pressed_neighbors(board: &MinesweeperBoard, index: usize) -> (pressed: BTreeSet<usize>)
    requires
        board.wf(),
    ensures
        pressed@ == pressed_spec(*board, index),
{
    let mut pressed: BTreeSet<usize> = BTreeSet::new();
    if minesweeper_chord_target(board, index).is_none() {
        proof {
            assert(pressed@ =~= pressed_spec(*board, index));
        }
        return pressed;
    }
    let neighbors = board.neighbors(index);
    let mut k: usize = 0;
    while k < neighbors.len()
        invariant
            board.wf(),
            neighbors@ == neighbor_seq(board.w() as int, board.h() as int, index as int),
            forall|j: int| 0 <= j < neighbors.len() ==> (#[trigger] neighbors@[j]) < board.n(),
            k <= neighbors.len(),
            pressed@ == Set::new(
                |c: usize|
                    neighbors@.take(k as int).contains(c) && (board.cell_states()[c as int]
                        == MinesweeperCellState::Hidden || board.cell_states()[c as int]
                        == MinesweeperCellState::Question),
            ),
        decreases neighbors.len() - k,
    {
        let c = neighbors[k];
        let state = board.cell_state(c);
        let ghost before = pressed@;
        if state == Some(MinesweeperCellState::Hidden) || state == Some(MinesweeperCellState::Question) {
            pressed.insert(c);
        }
        proof {
            let t = neighbors@.take(k as int);
            let t2 = neighbors@.take(k + 1);
            assert(t2 == t.push(c));
            assert forall|x: usize| pressed@.contains(x) == (t2.contains(x) && (board.cell_states()[x as int]
                == MinesweeperCellState::Hidden || board.cell_states()[x as int] == MinesweeperCellState::Question)) by {
                if t2.contains(x) && x != c {
                    let j = choose|j: int| 0 <= j < t2.len() && t2[j] == x;
                    assert(t[j] == x);
                }
                if t.contains(x) {
                    let j = choose|j: int| 0 <= j < t.len() && t[j] == x;
                    assert(t2[j] == x);
                }
                if x == c {
                    assert(t2[k as int] == c);
                }
            }
            assert(pressed@ =~= Set::new(
                |x: usize|
                    t2.contains(x) && (board.cell_states()[x as int] == MinesweeperCellState::Hidden
                        || board.cell_states()[x as int] == MinesweeperCellState::Question),
            ));
        }
        k = k + 1;
    }
    proof {
        assert(neighbors@.take(k as int) == neighbors@);
        assert(pressed@ =~= pressed_spec(*board, index));
    }
    pressed
}

/// A single-player Minesweeper game: the board, when the clock started, the time shown,
/// and whether the face shows the pressed look.
pub struct MinesweeperGameState {
    pub board: MinesweeperBoard,
    pub started_at_ms: Option<u64>,
    pub elapsed_ms: u64,
    pub face_down: bool,
}

/// The board after a reveal of `index` that gave `result`.
pub open spec fn reveal_step(old: MinesweeperBoard, new: MinesweeperBoard, index: usize, result: MinesweeperActionResult) -> bool {
    &&& !(accepts_moves(old) && index < old.n()) ==> !result.changed && !result.started && new == old
    &&& accepts_moves(old) && index < old.n() ==> reveal_outcome(old, new, index as int, result)
}

/// The board after a chord on `index` that gave `result`.
pub open spec fn chord_step(old: MinesweeperBoard, new: MinesweeperBoard, index: usize, result: MinesweeperActionResult) -> bool {
    &&& !chord_allowed(old, index as int) ==> !result.changed && !result.started && new == old
    &&& chord_allowed(old, index as int) ==> chord_outcome(old, new, index as int, result)
}

/// The clock after a tick at `now_ms`: while playing, the time since the start.
pub open spec fn ticked(g: MinesweeperGameState, now_ms: u64) -> MinesweeperGameState {
    if g.board.status_spec() == MinesweeperStatus::Playing && g.started_at_ms is Some {
        MinesweeperGameState {
            elapsed_ms: if now_ms > g.started_at_ms->0 {
                (now_ms - g.started_at_ms->0) as u64
            } else {
                0
            },
            ..g
        }
    } else {
        g
    }
}

impl MinesweeperGameState {
    /// A new game of the page's size, with mines placed (on the first reveal) so that it can
    /// be solved without guessing, from `seed`.
    pub fn new(bootstrap: &MinesweeperBootstrap, seed: u64) -> (g: Self)
        ensures
            g.board.wf(),
            !g.board.placed(),
            g.board.pending_no_guess(),
            g.started_at_ms is None,
            g.elapsed_ms == 0,
            !g.face_down,
    {
        MinesweeperGameState {
            board: MinesweeperBoard::new_no_guess(bootstrap.width, bootstrap.height, bootstrap.mines, seed),
            started_at_ms: None,
            elapsed_ms: 0,
            face_down: false,
        }
    }

    /// Starts a new game of the same size and mine count from `seed`.
    pub fn reset(&mut self, seed: u64)
        requires
            old(self).board.wf(),
        ensures
            final(self).board.wf(),
            !final(self).board.placed(),
            final(self).board.pending_no_guess(),
            final(self).board.w() == old(self).board.w(),
            final(self).board.h() == old(self).board.h(),
            final(self).started_at_ms is None,
            final(self).elapsed_ms == 0,
            !final(self).face_down,
    {
        let width = self.board.width();
        let height = self.board.height();
        let mines = self.board.mine_count();
        proof {
            self.board.lemma_consistent();
        }
        *self = MinesweeperGameState {
            board: MinesweeperBoard::new_no_guess(width, height, mines, seed),
            started_at_ms: None,
            elapsed_ms: 0,
            face_down: false,
        };
    }

    /// Brings the time shown up to `now_ms` while playing.
    pub fn tick(&mut self, now_ms: u64)
        requires
            old(self).board.wf(),
        ensures
            *final(self) == ticked(*old(self), now_ms),
    {
        if self.board.status() == MinesweeperStatus::Playing {
            match self.started_at_ms {
                Some(start) => {
                    self.elapsed_ms = if now_ms > start {
                        now_ms - start
                    } else {
                        0
                    };
                },
                None => {},
            }
        }
    }

    /// Opens cell `index` at `now_ms`: the first move starts the clock, and a change brings
    /// the time shown up to date.
    pub fn reveal_cell(&mut self, index: usize, now_ms: u64)
        requires
            old(self).board.wf(),
        ensures
            final(self).board.wf(),
            exists|result: MinesweeperActionResult, opened: MinesweeperBoard|
                #[trigger] reveal_step(old(self).board, opened, index, result) && {
                    let started = MinesweeperGameState {
                        board: opened,
                        started_at_ms: if result.started {
                            Some(now_ms)
                        } else {
                            old(self).started_at_ms
                        },
                        ..*old(self)
                    };
                    *final(self) == if result.changed {
                        ticked(started, now_ms)
                    } else {
                        started
                    }
                },
    {
        let ghost before = *self;
        let result = self.board.reveal_cell(index);
        let ghost opened = self.board;
        assert(reveal_step(before.board, opened, index, result));
        if result.started {
            self.started_at_ms = Some(now_ms);
        }
        let ghost started = *self;
        assert(started == MinesweeperGameState {
            board: opened,
            started_at_ms: if result.started { Some(now_ms) } else { before.started_at_ms },
            ..before
        });
        if result.changed {
            self.tick(now_ms);
        }
    }

    /// Flags, questions or clears cell `index`.
    pub fn toggle_mark(&mut self, index: usize)
        requires
            old(self).board.wf(),
        ensures
            final(self).board.wf(),
            *final(self) == (MinesweeperGameState { board: final(self).board, ..*old(self) }),
    {
        let _ = self.board.toggle_mark(index);
    }

    /// Chords on cell `index` at `now_ms`; a change brings the time shown up to date.
    pub fn chord(&mut self, index: usize, now_ms: u64)
        requires
            old(self).board.wf(),
        ensures
            final(self).board.wf(),
            exists|result: MinesweeperActionResult, opened: MinesweeperBoard|
                #[trigger] chord_step(old(self).board, opened, index, result) && {
                    let moved = MinesweeperGameState { board: opened, ..*old(self) };
                    *final(self) == if result.changed {
                        ticked(moved, now_ms)
                    } else {
                        moved
                    }
                },
    {
        let ghost before = *self;
        let result = self.board.chord(index);
        let ghost opened = self.board;
        assert(chord_step(before.board, opened, index, result));
        assert(*self == MinesweeperGameState { board: opened, ..before });
        if result.changed {
            self.tick(now_ms);
        }
    }

    /// Shows the pressed face while a button is held, during a game.
    pub fn set_face_down(&mut self, face_down: bool)
        requires
            old(self).board.wf(),
        ensures
            *final(self) == if accepts_moves(old(self).board) {
                MinesweeperGameState { face_down, ..*old(self) }
            } else {
                *old(self)
            },
    {
        let status = self.board.status();
        if status == MinesweeperStatus::Ready || status == MinesweeperStatus::Playing {
            self.face_down = face_down;
        }
    }

    /// The whole seconds shown on the timer, at most 999.
    pub fn timer_seconds(&self) -> (s: u64)
        ensures
            s == if self.elapsed_ms / 1000 < 999 {
                self.elapsed_ms / 1000
            } else {
                999
            },
    {
        let s = self.elapsed_ms / 1000;
        if s < 999 {
            s
        } else {
            999
        }
    }
}

} // verus!
