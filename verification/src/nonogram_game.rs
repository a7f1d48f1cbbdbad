//! A single-player nonogram game: the player's grid, painting by click and by drag, the
//! check against the picture, the clock, and undo and redo. The page keeps the clock and
//! the random source: it hands these rules the time in ms and a seed.

use vstd::prelude::*;
use crate::grid::count_true;
use crate::nonogram::{
    all_indices, clamp_axis_spec, filled_map, generate_nonogram_puzzle, generated_ok, mismatches,
    validate_nonogram_solution, NonogramBootstrap, NonogramCellState, NonogramPuzzle, NonogramValidation,
};
use crate::nonogram_input::{
    drag_applied, drag_reaches, idle, nonogram_cross_paint_action, nonogram_fill_paint_action,
    next_cell_spec, primary_paint_action_spec, NonogramDragState, NonogramInputShape, NonogramPaintAction,
};
use crate::room_view::{duration_text, format_duration_ms};

verus! {

/// A nonogram game in progress.
pub struct NonogramGameState {
    pub puzzle: NonogramPuzzle,
    pub cells: Vec<NonogramCellState>,
    pub shape: NonogramInputShape,
    pub drag: NonogramDragState,
    pub drag_checkpoint: Option<Vec<NonogramCellState>>,
    pub undo_stack: Vec<Vec<NonogramCellState>>,
    pub redo_stack: Vec<Vec<NonogramCellState>>,
    pub started_at_ms: u64,
    pub elapsed_ms: u64,
    pub completed: bool,
    pub validation: NonogramValidation,
}

/// The number of cells of the game's board.
pub open spec fn board_len(g: &NonogramGameState) -> int {
    g.puzzle.width * g.puzzle.height
}

/// `v` is the verdict on grid `cells` for `puzzle`, as the checker gives it.
pub open spec fn validation_of(puzzle: &NonogramPuzzle, cells: Seq<NonogramCellState>, v: &NonogramValidation) -> bool {
    &&& v.expected_filled == count_true(puzzle.solution@)
    &&& v.filled_count == count_true(filled_map(cells))
    &&& cells.len() != puzzle.width * puzzle.height ==> !v.complete && v.incorrect_cells@ == all_indices(
        (puzzle.width * puzzle.height) as nat,
    )
    &&& cells.len() == puzzle.width * puzzle.height ==> {
        let m: int = if puzzle.solution.len() < cells.len() {
            puzzle.solution.len() as int
        } else {
            cells.len() as int
        };
        &&& v.incorrect_cells@ == mismatches(cells, puzzle.solution@, m)
        &&& v.complete == (v.incorrect_cells.len() == 0)
    }
}

/// The grids a history holds.
pub open spec fn grids(stack: Seq<Vec<NonogramCellState>>) -> Seq<Seq<NonogramCellState>> {
    Seq::new(stack.len(), |k: int| stack[k]@)
}

/// A well-kept game: the board fits in memory, every grid (the current one, the one saved
/// at the start of a drag, and those of the history) has one state per cell, the verdict
/// is that of the current grid, and the drag has painted only cells of the grid.
pub open spec fn game_ok(g: &NonogramGameState) -> bool {
    &&& g.puzzle.width * g.puzzle.height <= usize::MAX
    &&& g.cells.len() == board_len(g)
    &&& g.drag.wf()
    &&& forall|i: usize| g.drag.touched_cells().contains(i) ==> i < g.cells.len()
    &&& g.drag_checkpoint matches Some(c) ==> c.len() == board_len(g)
    &&& forall|k: int| 0 <= k < g.undo_stack.len() ==> (#[trigger] g.undo_stack@[k]).len() == board_len(g)
    &&& forall|k: int| 0 <= k < g.redo_stack.len() ==> (#[trigger] g.redo_stack@[k]).len() == board_len(g)
    &&& validation_of(&g.puzzle, g.cells@, &g.validation)
}

/// Time since `start`, or nothing when `now` is earlier.
pub open spec fn since(now: u64, start: u64) -> u64 {
    if now > start {
        (now - start) as u64
    } else {
        0
    }
}

/// The game after a clock tick at `now_ms`: the time shown catches up unless solved.
pub open spec fn ticked(g: &NonogramGameState, now_ms: u64) -> NonogramGameState {
    if g.completed {
        *g
    } else {
        NonogramGameState { elapsed_ms: since(now_ms, g.started_at_ms), ..*g }
    }
}

/// The game once it has checked for a solve at `now_ms`: a complete grid stops the clock.
pub open spec fn completion_checked(g: &NonogramGameState, now_ms: u64) -> NonogramGameState {
    if g.validation.complete {
        NonogramGameState { completed: true, elapsed_ms: since(now_ms, g.started_at_ms), ..*g }
    } else {
        *g
    }
}

/// `after` is `before` once its grid changed at `now_ms`: the clock catches up, the verdict
/// is redone, and (unless a drag is under way) a complete grid counts as solved.
pub open spec fn edited(before: &NonogramGameState, after: &NonogramGameState, now_ms: u64) -> bool {
    let t = ticked(before, now_ms);
    &&& validation_of(&before.puzzle, before.cells@, &after.validation)
    &&& {
        let v = NonogramGameState { validation: after.validation, ..t };
        *after == if before.drag.paint() is None {
            completion_checked(&v, now_ms)
        } else {
            v
        }
    }
}

/// `after` is `before` with cell `index` set to `state` at `now_ms` (when a solved game,
/// a cell off the board or the same state leave it as it is).
pub open spec fn cell_set(before: &NonogramGameState, after: &NonogramGameState, index: usize, state: NonogramCellState, now_ms: u64) -> bool {
    if before.completed || index >= before.cells.len() || before.cells@[index as int] == state {
        *after == *before
    } else {
        exists|mid: NonogramGameState|
            #[trigger] edited(&mid, after, now_ms) && mid.cells@ == before.cells@.update(index as int, state)
                && grids(mid.undo_stack@) == grids(before.undo_stack@).push(before.cells@) && mid.redo_stack.len()
                == 0 && mid == (NonogramGameState {
                cells: mid.cells,
                undo_stack: mid.undo_stack,
                redo_stack: mid.redo_stack,
                ..*before
            })
    }
}

/// `after` is `before` with the grid `restored` brought back at `now_ms` by undo or redo:
/// no drag, the verdict redone, and solved exactly when the grid is complete.
pub open spec fn restored(before: &NonogramGameState, after: &NonogramGameState, cells: Seq<NonogramCellState>, now_ms: u64) -> bool {
    &&& after.cells@ == cells
    &&& after.puzzle == before.puzzle
    &&& after.shape == before.shape
    &&& idle(after.drag)
    &&& after.drag.wf()
    &&& after.drag_checkpoint is None
    &&& validation_of(&before.puzzle, cells, &after.validation)
    &&& after.completed == after.validation.complete
    &&& after.started_at_ms == before.started_at_ms
    &&& after.elapsed_ms == since(now_ms, before.started_at_ms)
}

/// `after` is `before` undone at `now_ms`: the last grid of the undo history comes back and
/// the current one goes on the redo history; with no history nothing changes.
pub open spec fn undid(before: &NonogramGameState, after: &NonogramGameState, now_ms: u64) -> bool {
    &&& before.undo_stack.len() == 0 ==> *after == *before
    &&& before.undo_stack.len() > 0 ==> {
        &&& restored(before, after, before.undo_stack@.last()@, now_ms)
        &&& grids(after.undo_stack@) == grids(before.undo_stack@).drop_last()
        &&& grids(after.redo_stack@) == grids(before.redo_stack@).push(before.cells@)
    }
}

/// `after` is `before` redone at `now_ms`: the last grid of the redo history comes back and
/// the current one goes on the undo history; with no redo history nothing changes.
pub open spec fn redid(before: &NonogramGameState, after: &NonogramGameState, now_ms: u64) -> bool {
    &&& before.redo_stack.len() == 0 ==> *after == *before
    &&& before.redo_stack.len() > 0 ==> {
        &&& restored(before, after, before.redo_stack@.last()@, now_ms)
        &&& grids(after.redo_stack@) == grids(before.redo_stack@).drop_last()
        &&& grids(after.undo_stack@) == grids(before.undo_stack@).push(before.cells@)
    }
}

/// The state of cell `index`, or empty off the board.
pub open spec fn cell_or_hidden(g: &NonogramGameState, index: usize) -> NonogramCellState {
    if index < g.cells.len() {
        g.cells@[index as int]
    } else {
        NonogramCellState::Hidden
    }
}

/// `after` is `before` once stroke `action` was applied to cell `index` alone at `now_ms`:
/// the cell is set when the stroke changes it.
pub open spec fn paint_applied(before: &NonogramGameState, after: &NonogramGameState, index: usize, action: NonogramPaintAction, now_ms: u64) -> bool {
    if index >= before.cells.len() {
        *after == *before
    } else {
        match next_cell_spec(action, before.cells@[index as int]) {
            Some(next) => cell_set(before, after, index, next, now_ms),
            None => *after == *before,
        }
    }
}

/// `after` is `before` with its drag moved onto cell `index` at `now_ms` (a solved game
/// ignores it); a change of the grid counts as an edit.
pub open spec fn dragged(before: &NonogramGameState, after: &NonogramGameState, index: usize, now_ms: u64) -> bool {
    if before.completed {
        *after == *before
    } else {
        exists|moved: NonogramGameState|
            #[trigger] drag_applied(
                before.drag,
                moved.drag,
                before.cells@,
                moved.cells@,
                before.puzzle.width,
                before.puzzle.height,
                before.shape,
                index,
            ) && moved == (NonogramGameState { cells: moved.cells, drag: moved.drag, ..*before }) && if moved.cells@
                != before.cells@ {
                edited(&moved, after, now_ms)
            } else {
                *after == moved
            }
    }
}

/// `after` is `before` with a drag begun on cell `index` with stroke `action` at `now_ms`:
/// the grid is saved, the drag starts from it, and it paints its first cell. A solved game
/// or a cell off the board leave the game as it is.
pub open spec fn drag_started(before: &NonogramGameState, after: &NonogramGameState, index: usize, action: NonogramPaintAction, now_ms: u64) -> bool {
    if before.completed || index >= before.cells.len() {
        *after == *before
    } else {
        exists|mid: NonogramGameState|
            #[trigger] dragged(&mid, after, index, now_ms) && mid == (NonogramGameState {
                drag: mid.drag,
                drag_checkpoint: mid.drag_checkpoint,
                ..*before
            }) && mid.drag_checkpoint is Some && mid.drag_checkpoint->0@ == before.cells@ && mid.drag.wf()
                && mid.drag.paint() == Some(action) && mid.drag.anchor() == Some(index) && mid.drag.originals()
                == before.cells@ && mid.drag.touched_cells() == Set::<usize>::empty() && mid.drag.pointer() is None
    }
}

/// `after` is `before` with its drag ended at `now_ms`: the grid saved when it began goes
/// on the undo history (if the drag changed the grid), and a drag that was under way checks
/// for a solve.
pub open spec fn drag_finished(before: &NonogramGameState, after: &NonogramGameState, now_ms: u64) -> bool {
    exists|mid: NonogramGameState|
        #[trigger] idle(mid.drag) && mid.drag.wf() && mid == (NonogramGameState {
            drag: mid.drag,
            drag_checkpoint: None,
            undo_stack: mid.undo_stack,
            redo_stack: mid.redo_stack,
            ..*before
        }) && (if before.drag_checkpoint is Some && before.drag_checkpoint->0@ != before.cells@ {
            &&& grids(mid.undo_stack@) == grids(before.undo_stack@).push(before.drag_checkpoint->0@)
            &&& mid.redo_stack.len() == 0
        } else {
            &&& mid.undo_stack == before.undo_stack
            &&& mid.redo_stack == before.redo_stack
        }) && *after == if before.drag.paint() is Some {
            completion_checked(&mid, now_ms)
        } else {
            mid
        }
}

/// A copy of a grid.
fn copy_cells(cells: &Vec<NonogramCellState>) -> (c: Vec<NonogramCellState>)
    ensures
        c@ == cells@,
{
    let mut c: Vec<NonogramCellState> = Vec::new();
    let mut i: usize = 0;
    while i < cells.len()
        invariant
            i <= cells.len(),
            c@ == cells@.take(i as int),
        decreases cells.len() - i,
    {
        c.push(cells[i]);
        proof {
            assert(cells@.take(i + 1) == cells@.take(i as int).push(cells@[i as int]));
        }
        i = i + 1;
    }
    proof {
        assert(cells@.take(i as int) == cells@);
    }
    c
}

/// Whether two grids hold the same states.
fn same_cells(a: &Vec<NonogramCellState>, b: &Vec<NonogramCellState>) -> (same: bool)
    ensures
        same == (a@ == b@),
{
    if a.len() != b.len() {
        return false;
    }
    let mut i: usize = 0;
    while i < a.len()
        invariant
            i <= a.len(),
            a.len() == b.len(),
            forall|j: int| 0 <= j < i ==> a@[j] == b@[j],
        decreases a.len() - i,
    {
        if a[i] != b[i] {
            return false;
        }
        i = i + 1;
    }
    proof {
        assert(a@ =~= b@);
    }
    true
}

/// The line under the board: the solve time once solved.
pub open spec fn status_spec(completed: bool, elapsed_ms: u64) -> Seq<char> {
    if completed {
        "Solved in "@ + duration_text(elapsed_ms) + "."@
    } else {
        "Find every filled square."@
    }
}

/// The line under the board.
pub fn nonogram_status(game: &NonogramGameState) -> (s: String)
    ensures
        s@ == status_spec(game.completed, game.elapsed_ms),
{
    if game.completed {
        let mut s = String::from_str("Solved in ");
        let t = format_duration_ms(game.elapsed_ms);
        s.append(t.as_str());
        s.append(".");
        proof {
            reveal_strlit("Solved in ");
            reveal_strlit(".");
        }
        s
    } else {
        let s = String::from_str("Find every filled square.");
        proof {
            reveal_strlit("Find every filled square.");
        }
        s
    }
}

impl NonogramGameState {
    /// A new game of the page's size, its puzzle generated from `seed`, started at `now_ms`:
    /// an empty grid, free drags, no history.
    pub fn new(bootstrap: &NonogramBootstrap, seed: u64, now_ms: u64) -> (g: Self)
        ensures
            game_ok(&g),
            generated_ok(&g.puzzle, clamp_axis_spec(bootstrap.width), clamp_axis_spec(bootstrap.height)),
            g.cells@ == Seq::new(board_len(&g) as nat, |i: int| NonogramCellState::Hidden),
            g.shape == NonogramInputShape::Free,
            idle(g.drag),
            g.drag_checkpoint is None,
            g.undo_stack.len() == 0,
            g.redo_stack.len() == 0,
            g.started_at_ms == now_ms,
            g.elapsed_ms == 0,
            !g.completed,
    {
        let puzzle = generate_nonogram_puzzle(bootstrap.width, bootstrap.height, seed);
        proof {
            assert(puzzle.width * puzzle.height <= 225) by (nonlinear_arith)
                requires
                    puzzle.width <= 15,
                    puzzle.height <= 15,
            ;
        }
        let n = puzzle.cell_count();
        let mut cells: Vec<NonogramCellState> = Vec::new();
        let mut i: usize = 0;
        while i < n
            invariant
                i <= n,
                cells@ == Seq::new(i as nat, |j: int| NonogramCellState::Hidden),
            decreases n - i,
        {
            cells.push(NonogramCellState::Hidden);
            proof {
                assert(cells@ =~= Seq::new((i + 1) as nat, |j: int| NonogramCellState::Hidden));
            }
            i = i + 1;
        }
        let validation = validate_nonogram_solution(&puzzle, &cells);
        NonogramGameState {
            puzzle,
            cells,
            shape: NonogramInputShape::Free,
            drag: NonogramDragState::default(),
            drag_checkpoint: None,
            undo_stack: Vec::new(),
            redo_stack: Vec::new(),
            started_at_ms: now_ms,
            elapsed_ms: 0,
            completed: false,
            validation,
        }
    }

    /// Starts over with a new puzzle from `seed` at `now_ms`.
    pub fn reset(&mut self, bootstrap: &NonogramBootstrap, seed: u64, now_ms: u64)
        ensures
            game_ok(final(self)),
            generated_ok(
                &final(self).puzzle,
                clamp_axis_spec(bootstrap.width),
                clamp_axis_spec(bootstrap.height),
            ),
            final(self).cells@ == Seq::new(board_len(final(self)) as nat, |i: int| NonogramCellState::Hidden),
            idle(final(self).drag),
            final(self).undo_stack.len() == 0,
            final(self).redo_stack.len() == 0,
            final(self).started_at_ms == now_ms,
            final(self).elapsed_ms == 0,
            !final(self).completed,
    {
        *self = NonogramGameState::new(bootstrap, seed, now_ms);
    }

    /// Brings the time shown up to `now_ms` unless the game is solved.
    pub fn tick(&mut self, now_ms: u64)
        ensures
            *final(self) == ticked(old(self), now_ms),
    {
        if !self.completed {
            self.elapsed_ms = if now_ms > self.started_at_ms {
                now_ms - self.started_at_ms
            } else {
                0
            };
        }
    }

    /// Stops the clock at `now_ms` if the grid is complete.
    pub fn mark_complete_if_ready(&mut self, now_ms: u64)
        ensures
            *final(self) == completion_checked(old(self), now_ms),
    {
        if self.validation.complete {
            self.completed = true;
            self.elapsed_ms = if now_ms > self.started_at_ms {
                now_ms - self.started_at_ms
            } else {
                0
            };
        }
    }

    /// After the grid changed: the clock, the verdict, and (unless dragging) a solve.
    fn after_cell_edit(&mut self, now_ms: u64)
        requires
            old(self).puzzle.width * old(self).puzzle.height <= usize::MAX,
        ensures
            edited(old(self), final(self), now_ms),
    {
        self.tick(now_ms);
        self.validation = validate_nonogram_solution(&self.puzzle, &self.cells);
        if !self.drag.is_active() {
            self.mark_complete_if_ready(now_ms);
        }
    }

    /// Pushes the grid before a change on the undo history, if the grid changed, and then
    /// clears the redo history.
    fn commit_history(&mut self, previous_cells: Vec<NonogramCellState>)
        ensures
            previous_cells@ != old(self).cells@ ==> *final(self) == (NonogramGameState {
                undo_stack: final(self).undo_stack,
                redo_stack: final(self).redo_stack,
                ..*old(self)
            }) && final(self).undo_stack@ == old(self).undo_stack@.push(previous_cells)
                && final(self).redo_stack@ == Seq::<Vec<NonogramCellState>>::empty(),
            previous_cells@ == old(self).cells@ ==> *final(self) == *old(self),
    {
        if !same_cells(&previous_cells, &self.cells) {
            self.undo_stack.push(previous_cells);
            self.redo_stack.clear();
        }
    }

    /// Sets cell `index` to `state` (no history), and says whether it changed.
    fn set_cell_without_history(&mut self, index: usize, state: NonogramCellState) -> (changed: bool)
        ensures
            changed == (index < old(self).cells.len() && old(self).cells@[index as int] != state),
            changed ==> *final(self) == (NonogramGameState { cells: final(self).cells, ..*old(self) })
                && final(self).cells@ == old(self).cells@.update(index as int, state),
            !changed ==> *final(self) == *old(self),
    {
        if index >= self.cells.len() {
            return false;
        }
        if self.cells[index] == state {
            return false;
        }
        self.cells.set(index, state);
        true
    }

    /// Sets cell `index` to `state` at `now_ms` as one step of the history.
    pub fn set_cell(&mut self, index: usize, state: NonogramCellState, now_ms: u64)
        requires
            game_ok(old(self)),
        ensures
            game_ok(final(self)),
            cell_set(old(self), final(self), index, state, now_ms),
    {
        if self.completed || index >= self.cells.len() {
            return;
        }
        let previous_cells = copy_cells(&self.cells);
        let ghost before = *self;
        if self.set_cell_without_history(index, state) {
            let ghost pushed = previous_cells;
            self.commit_history(previous_cells);
            let ghost mid = *self;
            proof {
                assert(pushed@ != old(self).cells@.update(index as int, state));
                assert(grids(mid.undo_stack@) =~= grids(before.undo_stack@).push(before.cells@));
            }
            self.after_cell_edit(now_ms);
            proof {
                assert(edited(&mid, self, now_ms));
                assert forall|k: int| 0 <= k < self.undo_stack.len() implies (#[trigger] self.undo_stack@[k]).len()
                    == board_len(self) by {
                    if k < before.undo_stack.len() {
                        assert(self.undo_stack@[k] == before.undo_stack@[k]);
                    }
                }
            }
        }
    }

    /// The stroke of the main button on cell `index`: fill, or clear a filled cell.
    fn primary_action(&self, index: usize) -> (a: NonogramPaintAction)
        ensures
            a == primary_paint_action_spec(NonogramCellState::Filled, cell_or_hidden(self, index)),
    {
        let current = if index < self.cells.len() {
            self.cells[index]
        } else {
            NonogramCellState::Hidden
        };
        nonogram_fill_paint_action(current)
    }

    /// The stroke of the second button on cell `index`: cross, or clear a crossed cell.
    fn cross_action(&self, index: usize) -> (a: NonogramPaintAction)
        ensures
            a == if cell_or_hidden(self, index) == NonogramCellState::Crossed {
                NonogramPaintAction::ClearMatching(NonogramCellState::Crossed)
            } else {
                NonogramPaintAction::SetState(NonogramCellState::Crossed)
            },
    {
        let current = if index < self.cells.len() {
            self.cells[index]
        } else {
            NonogramCellState::Hidden
        };
        nonogram_cross_paint_action(current)
    }

    /// Applies stroke `action` to cell `index` alone at `now_ms`.
    pub fn apply_paint_action(&mut self, index: usize, action: NonogramPaintAction, now_ms: u64)
        requires
            game_ok(old(self)),
        ensures
            game_ok(final(self)),
            paint_applied(old(self), final(self), index, action, now_ms),
    {
        if index >= self.cells.len() {
            return;
        }
        let current = self.cells[index];
        match action.next_cell(current) {
            Some(next) => self.set_cell(index, next, now_ms),
            None => {},
        }
    }

    /// A tap or key press that fills cell `index` (or clears it when filled) at `now_ms`.
    pub fn apply_fill(&mut self, index: usize, now_ms: u64)
        requires
            game_ok(old(self)),
        ensures
            game_ok(final(self)),
            paint_applied(
                old(self),
                final(self),
                index,
                primary_paint_action_spec(NonogramCellState::Filled, cell_or_hidden(old(self), index)),
                now_ms,
            ),
    {
        let action = self.primary_action(index);
        self.apply_paint_action(index, action, now_ms);
    }

    /// A key press that crosses out cell `index` (or clears its cross) at `now_ms`.
    pub fn apply_cross(&mut self, index: usize, now_ms: u64)
        requires
            game_ok(old(self)),
        ensures
            game_ok(final(self)),
            paint_applied(
                old(self),
                final(self),
                index,
                if cell_or_hidden(old(self), index) == NonogramCellState::Crossed {
                    NonogramPaintAction::ClearMatching(NonogramCellState::Crossed)
                } else {
                    NonogramPaintAction::SetState(NonogramCellState::Crossed)
                },
                now_ms,
            ),
    {
        let action = self.cross_action(index);
        self.apply_paint_action(index, action, now_ms);
    }

    /// Moves the drag onto cell `index` at `now_ms`.
    pub fn drag_cell(&mut self, index: usize, now_ms: u64)
        requires
            game_ok(old(self)),
        ensures
            game_ok(final(self)),
            dragged(old(self), final(self), index, now_ms),
    {
        if self.completed {
            return;
        }
        let ghost before = *self;
        let width = self.puzzle.width;
        let height = self.puzzle.height;
        let shape = self.shape;
        let changed = self.drag.apply(width, height, shape, &mut self.cells, index);
        let ghost moved = *self;
        proof {
            assert(moved == (NonogramGameState { cells: moved.cells, drag: moved.drag, ..before }));
            assert(moved.cells.len() == before.cells.len());
        }
        if changed {
            self.after_cell_edit(now_ms);
        }
        proof {
            assert(drag_applied(
                before.drag,
                moved.drag,
                before.cells@,
                moved.cells@,
                before.puzzle.width,
                before.puzzle.height,
                before.shape,
                index,
            ));
            if drag_reaches(before.drag, width, height, shape, before.cells@.len(), index) {
                if shape != NonogramInputShape::Free {
                    assert forall|i: usize| moved.drag.touched_cells().contains(i) implies i < moved.cells.len() by {
                    }
                }
            }
        }
    }

    fn start_drag(&mut self, index: usize, action: NonogramPaintAction, now_ms: u64)
        requires
            game_ok(old(self)),
        ensures
            game_ok(final(self)),
            drag_started(old(self), final(self), index, action, now_ms),
    {
        if self.completed || index >= self.cells.len() {
            return;
        }
        let ghost before = *self;
        self.drag_checkpoint = Some(copy_cells(&self.cells));
        self.drag.start(index, action, self.cells.as_slice());
        let ghost mid = *self;
        self.drag_cell(index, now_ms);
        proof {
            assert(dragged(&mid, self, index, now_ms));
        }
    }

    /// Begins a drag of the main button on cell `index` at `now_ms`.
    pub fn start_primary_drag(&mut self, index: usize, now_ms: u64)
        requires
            game_ok(old(self)),
        ensures
            game_ok(final(self)),
            drag_started(
                old(self),
                final(self),
                index,
                primary_paint_action_spec(NonogramCellState::Filled, cell_or_hidden(old(self), index)),
                now_ms,
            ),
    {
        let action = self.primary_action(index);
        self.start_drag(index, action, now_ms);
    }

    /// Begins a drag of the second button on cell `index` at `now_ms`.
    pub fn start_cross_drag(&mut self, index: usize, now_ms: u64)
        requires
            game_ok(old(self)),
        ensures
            game_ok(final(self)),
            drag_started(
                old(self),
                final(self),
                index,
                if cell_or_hidden(old(self), index) == NonogramCellState::Crossed {
                    NonogramPaintAction::ClearMatching(NonogramCellState::Crossed)
                } else {
                    NonogramPaintAction::SetState(NonogramCellState::Crossed)
                },
                now_ms,
            ),
    {
        let action = self.cross_action(index);
        self.start_drag(index, action, now_ms);
    }

    /// Ends the drag at `now_ms`.
    pub fn finish_drag(&mut self, now_ms: u64)
        requires
            game_ok(old(self)),
        ensures
            game_ok(final(self)),
            drag_finished(old(self), final(self), now_ms),
    {
        let was_active = self.drag.is_active();
        let checkpoint = self.drag_checkpoint.take();
        self.drag.finish();
        let ghost cleared = *self;
        match checkpoint {
            Some(previous_cells) => {
                let ghost saved = previous_cells;
                self.commit_history(previous_cells);
                proof {
                    if saved@ != old(self).cells@ {
                        assert(grids(self.undo_stack@) =~= grids(old(self).undo_stack@).push(saved@));
                        assert forall|k: int| 0 <= k < self.undo_stack.len() implies (#[trigger] self.undo_stack@[k]).len()
                            == board_len(self) by {
                            if k < old(self).undo_stack.len() {
                                assert(self.undo_stack@[k] == old(self).undo_stack@[k]);
                            }
                        }
                    }
                }
            },
            None => {},
        }
        let ghost mid = *self;
        if was_active {
            self.mark_complete_if_ready(now_ms);
        }
        proof {
            assert(idle(mid.drag));
        }
    }

    /// Chooses the shape that drags paint.
    pub fn set_shape(&mut self, shape: NonogramInputShape)
        ensures
            *final(self) == (NonogramGameState { shape, ..*old(self) }),
    {
        self.shape = shape;
    }

    /// Records the pointer's position (in whole pixels) during a drag.
    pub fn update_drag_pointer(&mut self, x: i32, y: i32)
        requires
            game_ok(old(self)),
        ensures
            game_ok(final(self)),
            *final(self) == (NonogramGameState { drag: final(self).drag, ..*old(self) }),
            final(self).drag.paint() == old(self).drag.paint(),
            final(self).drag.anchor() == old(self).drag.anchor(),
            final(self).drag.originals() == old(self).drag.originals(),
            final(self).drag.touched_cells() == old(self).drag.touched_cells(),
            final(self).drag.pointer() == if old(self).drag.paint() is Some {
                Some((x, y))
            } else {
                old(self).drag.pointer()
            },
    {
        self.drag.set_pointer_position(x, y);
    }

    /// Brings back grid `cells` at `now_ms`: no drag, a fresh verdict, solved exactly when
    /// complete.
    fn restore_cells(&mut self, cells: Vec<NonogramCellState>, now_ms: u64)
        requires
            old(self).puzzle.width * old(self).puzzle.height <= usize::MAX,
        ensures
            restored(old(self), final(self), cells@, now_ms),
            final(self).undo_stack == old(self).undo_stack,
            final(self).redo_stack == old(self).redo_stack,
    {
        self.drag.finish();
        self.drag_checkpoint = None;
        self.cells = cells;
        self.validation = validate_nonogram_solution(&self.puzzle, &self.cells);
        self.completed = false;
        self.tick(now_ms);
        self.mark_complete_if_ready(now_ms);
    }

    /// Takes back the last change at `now_ms`.
    pub fn undo(&mut self, now_ms: u64)
        requires
            game_ok(old(self)),
        ensures
            game_ok(final(self)),
            undid(old(self), final(self), now_ms),
    {
        if self.undo_stack.len() == 0 {
            return;
        }
        let previous_cells = match self.undo_stack.pop() {
            Some(p) => p,
            None => {
                return;
            },
        };
        let current = copy_cells(&self.cells);
        self.redo_stack.push(current);
        proof {
            assert(previous_cells == old(self).undo_stack@.last());
            assert(grids(self.undo_stack@) =~= grids(old(self).undo_stack@).drop_last());
            assert(grids(self.redo_stack@) =~= grids(old(self).redo_stack@).push(old(self).cells@));
        }
        self.restore_cells(previous_cells, now_ms);
        proof {
            assert forall|k: int| 0 <= k < self.redo_stack.len() implies (#[trigger] self.redo_stack@[k]).len()
                == board_len(self) by {
                if k < old(self).redo_stack.len() {
                    assert(self.redo_stack@[k] == old(self).redo_stack@[k]);
                }
            }
            assert forall|k: int| 0 <= k < self.undo_stack.len() implies (#[trigger] self.undo_stack@[k]).len()
                == board_len(self) by {
                assert(self.undo_stack@[k] == old(self).undo_stack@[k]);
            }
        }
    }

    /// Brings back the last change taken back at `now_ms`.
    pub fn redo(&mut self, now_ms: u64)
        requires
            game_ok(old(self)),
        ensures
            game_ok(final(self)),
            redid(old(self), final(self), now_ms),
    {
        if self.redo_stack.len() == 0 {
            return;
        }
        let next_cells = match self.redo_stack.pop() {
            Some(n) => n,
            None => {
                return;
            },
        };
        let current = copy_cells(&self.cells);
        self.undo_stack.push(current);
        proof {
            assert(next_cells == old(self).redo_stack@.last());
            assert(grids(self.redo_stack@) =~= grids(old(self).redo_stack@).drop_last());
            assert(grids(self.undo_stack@) =~= grids(old(self).undo_stack@).push(old(self).cells@));
        }
        self.restore_cells(next_cells, now_ms);
        proof {
            assert forall|k: int| 0 <= k < self.undo_stack.len() implies (#[trigger] self.undo_stack@[k]).len()
                == board_len(self) by {
                if k < old(self).undo_stack.len() {
                    assert(self.undo_stack@[k] == old(self).undo_stack@[k]);
                }
            }
            assert forall|k: int| 0 <= k < self.redo_stack.len() implies (#[trigger] self.redo_stack@[k]).len()
                == board_len(self) by {
                assert(self.redo_stack@[k] == old(self).redo_stack@[k]);
            }
        }
    }

    /// Whether there is a change to take back.
    pub fn can_undo(&self) -> (b: bool)
        ensures
            b == (self.undo_stack.len() > 0),
    {
        self.undo_stack.len() > 0
    }

    /// Whether there is a change to bring back.
    pub fn can_redo(&self) -> (b: bool)
        ensures
            b == (self.redo_stack.len() > 0),
    {
        self.redo_stack.len() > 0
    }
}

/// The grids of a history with its last grid taken off and put back.
proof fn lemma_grids_pop_push(stack: Seq<Vec<NonogramCellState>>)
    requires
        stack.len() > 0,
    ensures
        grids(stack).drop_last().push(stack.last()@) == grids(stack),
        grids(stack).last() == stack.last()@,
{
    assert(grids(stack).drop_last().push(stack.last()@) =~= grids(stack));
}

/// Undo takes back a change: after a cell of an unsolved game changed, undoing brings the
/// grid back as it was and the undo history back to what it held, and the changed grid is
/// all that redo can bring back.
pub proof fn lemma_undo_takes_back_a_change(
    before: &NonogramGameState,
    changed: &NonogramGameState,
    undone: &NonogramGameState,
    index: usize,
    state: NonogramCellState,
    change_ms: u64,
    undo_ms: u64,
)
    requires
        !before.completed,
        index < before.cells.len(),
        before.cells@[index as int] != state,
        cell_set(before, changed, index, state, change_ms),
        undid(changed, undone, undo_ms),
    ensures
        undone.cells@ == before.cells@,
        grids(undone.undo_stack@) == grids(before.undo_stack@),
        grids(undone.redo_stack@) == seq![before.cells@.update(index as int, state)],
{
    let mid = choose|mid: NonogramGameState|
        #[trigger] edited(&mid, changed, change_ms) && mid.cells@ == before.cells@.update(index as int, state)
            && grids(mid.undo_stack@) == grids(before.undo_stack@).push(before.cells@) && mid.redo_stack.len() == 0
            && mid == (NonogramGameState {
            cells: mid.cells,
            undo_stack: mid.undo_stack,
            redo_stack: mid.redo_stack,
            ..*before
        });
    assert(changed.undo_stack == mid.undo_stack);
    assert(changed.redo_stack == mid.redo_stack);
    assert(changed.cells == mid.cells);
    assert(grids(changed.undo_stack@).len() == changed.undo_stack.len());
    lemma_grids_pop_push(changed.undo_stack@);
    assert(grids(before.undo_stack@).push(before.cells@).drop_last() == grids(before.undo_stack@));
    assert(grids(changed.redo_stack@) =~= Seq::<Seq<NonogramCellState>>::empty());
    assert(grids(undone.redo_stack@) =~= seq![before.cells@.update(index as int, state)]);
}

/// Redo takes back an undo: undoing and then redoing brings back the grid and both
/// histories as they were.
pub proof fn lemma_redo_takes_back_an_undo(
    before: &NonogramGameState,
    undone: &NonogramGameState,
    redone: &NonogramGameState,
    undo_ms: u64,
    redo_ms: u64,
)
    requires
        before.undo_stack.len() > 0,
        undid(before, undone, undo_ms),
        redid(undone, redone, redo_ms),
    ensures
        redone.cells@ == before.cells@,
        grids(redone.undo_stack@) == grids(before.undo_stack@),
        grids(redone.redo_stack@) == grids(before.redo_stack@),
{
    lemma_grids_pop_push(before.undo_stack@);
    assert(grids(undone.redo_stack@).len() == undone.redo_stack.len());
    lemma_grids_pop_push(undone.redo_stack@);
    assert(grids(before.redo_stack@).push(before.cells@).drop_last() == grids(before.redo_stack@));
}

/// Undo takes back a redo: redoing and then undoing brings back the grid and both histories
/// as they were.
pub proof fn lemma_undo_takes_back_a_redo(
    before: &NonogramGameState,
    redone: &NonogramGameState,
    undone: &NonogramGameState,
    redo_ms: u64,
    undo_ms: u64,
)
    requires
        before.redo_stack.len() > 0,
        redid(before, redone, redo_ms),
        undid(redone, undone, undo_ms),
    ensures
        undone.cells@ == before.cells@,
        grids(undone.undo_stack@) == grids(before.undo_stack@),
        grids(undone.redo_stack@) == grids(before.redo_stack@),
{
    lemma_grids_pop_push(before.redo_stack@);
    assert(grids(redone.undo_stack@).len() == redone.undo_stack.len());
    lemma_grids_pop_push(redone.undo_stack@);
    assert(grids(before.undo_stack@).push(before.cells@).drop_last() == grids(before.undo_stack@));
}

/// Moving a drag keeps the grid saved when it began and leaves the histories alone.
pub proof fn lemma_drag_keeps_its_start(before: &NonogramGameState, after: &NonogramGameState, index: usize, now_ms: u64)
    requires
        dragged(before, after, index, now_ms),
    ensures
        after.drag_checkpoint == before.drag_checkpoint,
        after.undo_stack == before.undo_stack,
        after.redo_stack == before.redo_stack,
{
    if !before.completed {
        let moved = choose|moved: NonogramGameState|
            #[trigger] drag_applied(
                before.drag,
                moved.drag,
                before.cells@,
                moved.cells@,
                before.puzzle.width,
                before.puzzle.height,
                before.shape,
                index,
            ) && moved == (NonogramGameState { cells: moved.cells, drag: moved.drag, ..*before }) && if moved.cells@
                != before.cells@ {
                edited(&moved, after, now_ms)
            } else {
                *after == moved
            };
    }
}

/// A drag is one step of the history: once a drag that changed the grid has ended, undo
/// brings back the grid saved when it began, and the undo history as it was.
pub proof fn lemma_undo_takes_back_a_drag(
    before: &NonogramGameState,
    finished: &NonogramGameState,
    undone: &NonogramGameState,
    finish_ms: u64,
    undo_ms: u64,
)
    requires
        before.drag_checkpoint is Some,
        before.drag_checkpoint->0@ != before.cells@,
        drag_finished(before, finished, finish_ms),
        undid(finished, undone, undo_ms),
    ensures
        undone.cells@ == before.drag_checkpoint->0@,
        grids(undone.undo_stack@) == grids(before.undo_stack@),
        grids(undone.redo_stack@) == seq![before.cells@],
{
    let mid = choose|mid: NonogramGameState|
        #[trigger] idle(mid.drag) && mid.drag.wf() && mid == (NonogramGameState {
            drag: mid.drag,
            drag_checkpoint: None,
            undo_stack: mid.undo_stack,
            redo_stack: mid.redo_stack,
            ..*before
        }) && (if before.drag_checkpoint is Some && before.drag_checkpoint->0@ != before.cells@ {
            &&& grids(mid.undo_stack@) == grids(before.undo_stack@).push(before.drag_checkpoint->0@)
            &&& mid.redo_stack.len() == 0
        } else {
            &&& mid.undo_stack == before.undo_stack
            &&& mid.redo_stack == before.redo_stack
        }) && *finished == if before.drag.paint() is Some {
            completion_checked(&mid, finish_ms)
        } else {
            mid
        };
    assert(finished.undo_stack == mid.undo_stack);
    assert(finished.redo_stack == mid.redo_stack);
    assert(finished.cells == before.cells);
    assert(grids(finished.undo_stack@).len() == finished.undo_stack.len());
    lemma_grids_pop_push(finished.undo_stack@);
    assert(grids(before.undo_stack@).push(before.drag_checkpoint->0@).drop_last() == grids(before.undo_stack@));
    assert(grids(finished.redo_stack@) =~= Seq::<Seq<NonogramCellState>>::empty());
    assert(grids(undone.redo_stack@) =~= seq![before.cells@]);
}

} // verus!
