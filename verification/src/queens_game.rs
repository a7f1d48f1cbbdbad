//! A Queens game in progress on the player's side: the cells' states, the undo history,
//! the automatic marks of ruled-out cells, the validation of the board, and dragging marks
//! across cells. The page keeps the clock and the browser storage: it hands these rules the
//! time in ms where they need it, and saves what `saved_game` gives after each change.

use vstd::prelude::*;
use crate::queens::{
    append_decimal, decimal_text, storage_code_spec, invalidated_by_queen, invalidated_spec, puzzle_ok, region_at, validate_solution, validation_spec, CellState,
    CellView, GameBootstrap, Puzzle, PuzzleNav, ValidateResponse,
};
use crate::queens_view::Mode;

verus! {

/// How many board states the undo history keeps.
pub const HISTORY_LIMIT: usize = 100;

/// What a mark drag does to the cells it passes.
#[derive(Debug, Clone, Copy, PartialEq, Eq, Structural)]
pub enum MarkDragAction {
    Add,
    Remove,
}

/// A drag of marks across cells, from the cell where it started.
#[derive(Debug, Clone, Copy, PartialEq, Eq, Structural)]
pub struct MarkDrag {
    pub start_index: usize,
    pub action: MarkDragAction,
    pub moved: bool,
    pub changed: bool,
    pub history_started: bool,
    pub needs_auto_refresh: bool,
}

/// What is saved of a game in the browser: the cells by storage code, when it started (none
/// when the stored time was not a positive number), and whether and when it was solved.
#[derive(Debug, Clone, PartialEq, Eq)]
pub struct SavedGame {
    pub states: Vec<u8>,
    pub started_at_ms: Option<u64>,
    pub completed: bool,
    pub completed_seconds: u64,
}

/// A Queens game in progress.
pub struct GameState {
    pub puzzle: Puzzle,
    pub cells: Vec<CellView>,
    pub puzzle_nav: Vec<PuzzleNav>,
    pub total: usize,
    pub mode: Mode,
    pub states: Vec<CellState>,
    pub storage_key: Option<String>,
    pub history: Vec<Vec<CellState>>,
    pub started_at_ms: u64,
    pub completed: bool,
    pub completed_seconds: u64,
    pub validation: ValidateResponse,
    pub finish_notified: bool,
    pub mark_drag: Option<MarkDrag>,
    pub win_visible: bool,
}

/// The number of cells of the game's board.
pub open spec fn cell_total(g: &GameState) -> int {
    g.puzzle.size * g.puzzle.size
}

/// The states of the history's boards.
pub open spec fn history_views(h: Seq<Vec<CellState>>) -> Seq<Seq<CellState>> {
    h.map_values(|v: Vec<CellState>| v@)
}

/// A game is well formed: a well-formed puzzle, one state per cell, a bounded history of
/// whole boards, and a drag that started on the board.
pub open spec fn game_ok(g: &GameState) -> bool {
    &&& puzzle_ok(&g.puzzle)
    &&& g.states.len() == cell_total(g)
    &&& g.history.len() <= HISTORY_LIMIT
    &&& forall|k: int| 0 <= k < g.history.len() ==> (#[trigger] g.history@[k]).len() == cell_total(g)
    &&& g.mark_drag matches Some(d) ==> d.start_index < cell_total(g)
}

/// The queens on the board, as `[row, col]`, row by row (cells below `end`).
pub open spec fn queen_cells(states: Seq<CellState>, size: usize, end: int) -> Seq<[usize; 2]>
    decreases end,
{
    if end <= 0 {
        seq![]
    } else {
        queen_cells(states, size, end - 1) + if states[end - 1] == CellState::Queen {
            seq![[((end - 1) / size as int) as usize, ((end - 1) % size as int) as usize]]
        } else {
            Seq::empty()
        }
    }
}

/// The queens of the whole board.
pub open spec fn board_queens(states: Seq<CellState>, size: usize) -> Seq<[usize; 2]> {
    queen_cells(states, size, states.len() as int)
}

/// Some queen on the board rules out cell `i`.
pub open spec fn ruled_out(puzzle: &Puzzle, states: Seq<CellState>, i: int) -> bool {
    let size = puzzle.size as int;
    exists|q: int|
        0 <= q < states.len() && states[q] == CellState::Queen && #[trigger] invalidated_spec(
            puzzle.regions@,
            q / size,
            q % size,
            i / size,
            i % size,
        )
}

/// The board with fresh automatic marks: marks and queens stay, and every other cell is
/// marked automatically exactly when a queen rules it out.
pub open spec fn with_auto_marks(puzzle: &Puzzle, states: Seq<CellState>) -> Seq<CellState> {
    Seq::new(
        states.len(),
        |i: int|
            if states[i] == CellState::Mark || states[i] == CellState::Queen {
                states[i]
            } else if ruled_out(puzzle, states, i) {
                CellState::AutoMark
            } else {
                CellState::Empty
            },
    )
}

/// The whole seconds since `started_at_ms` (none before it), or the solving time once solved.
pub open spec fn elapsed_seconds_spec(g: &GameState, now_ms: u64) -> u64 {
    if g.completed {
        g.completed_seconds
    } else if now_ms >= g.started_at_ms {
        ((now_ms - g.started_at_ms) / 1000) as u64
    } else {
        0
    }
}

/// The game after its board was checked again: the validation of its queens, and the
/// solved state with it. A newly solved game keeps its time and shows the win when asked
/// to; an unsolved one forgets its time and its win.
pub open spec fn revalidated(before: &GameState, after: &GameState, show_win: bool, now_ms: u64) -> bool {
    let complete = after.validation.complete;
    &&& validation_spec(&before.puzzle, board_queens(before.states@, before.puzzle.size), &after.validation)
    &&& *after == (GameState {
        validation: after.validation,
        completed: after.completed,
        completed_seconds: after.completed_seconds,
        win_visible: after.win_visible,
        finish_notified: after.finish_notified,
        ..*before
    })
    &&& complete && !before.completed ==> after.completed && after.completed_seconds == elapsed_seconds_spec(
        before,
        now_ms,
    ) && after.win_visible == show_win && after.finish_notified == before.finish_notified
    &&& complete && before.completed ==> after.completed && after.completed_seconds == before.completed_seconds
        && after.win_visible == before.win_visible && after.finish_notified == before.finish_notified
    &&& !complete ==> !after.completed && after.completed_seconds == 0 && !after.finish_notified && !after.win_visible
}

proof fn lemma_queen_cells_bounds(states: Seq<CellState>, size: usize, end: int)
    requires
        size > 0,
        0 <= end <= states.len(),
        states.len() == size * size,
    ensures
        forall|k: int|
            0 <= k < queen_cells(states, size, end).len() ==> (#[trigger] queen_cells(states, size, end)[k])[0] < size
                && queen_cells(states, size, end)[k][1] < size,
    decreases end,
{
    if end > 0 {
        lemma_queen_cells_bounds(states, size, end - 1);
        let x = end - 1;
        assert(x / (size as int) < size && x % (size as int) < size && x / (size as int) >= 0 && x % (size as int) >= 0)
            by (nonlinear_arith)
            requires
                0 <= x < size * size,
                size > 0,
        ;
        let p = queen_cells(states, size, end - 1);
        let c = queen_cells(states, size, end);
        assert forall|k: int| 0 <= k < c.len() implies (#[trigger] c[k])[0] < size && c[k][1] < size by {
            if k < p.len() {
                assert(c[k] == p[k]);
            }
        }
    }
}

impl GameState {
    /// The index of cell `(row, col)`.
    pub fn index_for(&self, row: usize, col: usize) -> (i: usize)
        requires
            row * self.puzzle.size + col <= usize::MAX,
        ensures
            i == row * self.puzzle.size + col,
    {
        row * self.puzzle.size + col
    }

    /// The queens on the board, row by row.
    pub fn queens(&self) -> (q: Vec<[usize; 2]>)
        requires
            self.puzzle.size > 0 || self.states.len() == 0,
        ensures
            q@ == board_queens(self.states@, self.puzzle.size),
    {
        let size = self.puzzle.size;
        let mut q: Vec<[usize; 2]> = Vec::new();
        let mut i: usize = 0;
        while i < self.states.len()
            invariant
                size == self.puzzle.size,
                size > 0 || self.states.len() == 0,
                i <= self.states.len(),
                q@ == queen_cells(self.states@, size, i as int),
            decreases self.states.len() - i,
        {
            if self.states[i] == CellState::Queen {
                q.push([i / size, i % size]);
            }
            i = i + 1;
        }
        q
    }

    /// The whole seconds the game has run at `now_ms`, or its solving time once solved.
    pub fn elapsed_seconds(&self, now_ms: u64) -> (s: u64)
        ensures
            s == elapsed_seconds_spec(self, now_ms),
    {
        if self.completed {
            self.completed_seconds
        } else if now_ms >= self.started_at_ms {
            (now_ms - self.started_at_ms) / 1000
        } else {
            0
        }
    }

    /// Chooses what a click on a cell does.
    pub fn set_mode(&mut self, mode: Mode)
        ensures
            *final(self) == (GameState { mode, ..*old(self) }),
    {
        self.mode = mode;
    }

    /// Hides the win message.
    pub fn close_win(&mut self)
        ensures
            *final(self) == (GameState { win_visible: false, ..*old(self) }),
    {
        self.win_visible = false;
    }

    /// Renews the automatic marks: every cell a queen rules out, and nothing else, is marked
    /// automatically (marks and queens stay).
    pub fn refresh_auto_marks(&mut self)
        requires
            game_ok(old(self)),
        ensures
            *final(self) == (GameState { states: final(self).states, ..*old(self) }),
            final(self).states@ == with_auto_marks(&old(self).puzzle, old(self).states@),
    {
        let size = self.puzzle.size;
        let n = self.states.len();
        let ghost before = self.states@;
        if size == 0 {
            proof {
                assert(size * size == 0) by (nonlinear_arith)
                    requires
                        size == 0,
                ;
                assert(with_auto_marks(&self.puzzle, before) =~= before);
            }
            return;
        }
        proof {
            lemma_queen_cells_bounds(before, size, n as int);
        }
        let queens = self.queens();
        let mut i: usize = 0;
        while i < n
            invariant
                n == self.states.len(),
                n == size * size,
                size == self.puzzle.size,
                puzzle_ok(&self.puzzle),
                queens@ == board_queens(before, size),
                forall|k: int| 0 <= k < queens.len() ==> (#[trigger] queens@[k])[0] < size && queens@[k][1] < size,
                *self == (GameState { states: self.states, ..*old(self) }),
                before == old(self).states@,
                before.len() == n,
                size > 0,
                i <= n,
                forall|k: int|
                    0 <= k < n ==> #[trigger] self.states@[k] == if k < i {
                        with_auto_marks(&old(self).puzzle, before)[k]
                    } else {
                        before[k]
                    },
            decreases n - i,
        {
            let state = self.states[i];
            if state == CellState::Empty || state == CellState::AutoMark {
                let row = i / size;
                let col = i % size;
                proof {
                    assert(row < size && col < size && row * size + col == i) by (nonlinear_arith)
                        requires
                            i < size * size,
                            row == i / size,
                            col == i % size,
                            size > 0,
                    ;
                }
                let mut hit = false;
                let mut k: usize = 0;
                while k < queens.len() && !hit
                    invariant
                        size == self.puzzle.size,
                        puzzle_ok(&self.puzzle),
                        forall|j: int| 0 <= j < queens.len() ==> (#[trigger] queens@[j])[0] < size && queens@[j][1] < size,
                        row < size,
                        col < size,
                        k <= queens.len(),
                        hit == exists|j: int|
                            0 <= j < k && #[trigger] invalidated_spec(
                                self.puzzle.regions@,
                                queens@[j][0] as int,
                                queens@[j][1] as int,
                                row as int,
                                col as int,
                            ),
                    decreases queens.len() - k,
                {
                    let q = queens[k];
                    if invalidated_by_queen(&self.puzzle, q[0], q[1], row, col) {
                        hit = true;
                    }
                    k = k + 1;
                }
                proof {
                    lemma_ruled_out_by_listed_queen(&old(self).puzzle, before, queens@, i as int, row as int, col as int, hit);
                }
                let next = if hit {
                    CellState::AutoMark
                } else {
                    CellState::Empty
                };
                self.states.set(i, next);
            }
            i = i + 1;
        }
    }
}

/// The state a stored code stands for.
pub open spec fn state_of_code(code: u8) -> CellState {
    if code == 1 {
        CellState::Mark
    } else if code == 2 {
        CellState::Queen
    } else if code == 3 {
        CellState::AutoMark
    } else {
        CellState::Empty
    }
}

/// The history after the board `states` was pushed: the oldest board goes once there are
/// more than `HISTORY_LIMIT`.
pub open spec fn pushed_history(h: Seq<Seq<CellState>>, states: Seq<CellState>) -> Seq<Seq<CellState>> {
    if h.len() + 1 > HISTORY_LIMIT {
        h.push(states).drop_first()
    } else {
        h.push(states)
    }
}

/// A change of the board that needs checking again: the board as it was joins the history,
/// cell `index` takes `next` (and the automatic marks are renewed when asked), and the game
/// is no longer solved until checked.
pub open spec fn changed_board(before: &GameState, mid: &GameState, index: int, next: CellState, refresh: bool) -> bool {
    let placed = before.states@.update(index, next);
    &&& *mid == (GameState {
        states: mid.states,
        history: mid.history,
        completed: false,
        completed_seconds: 0,
        win_visible: false,
        ..*before
    })
    &&& history_views(mid.history@) == pushed_history(history_views(before.history@), before.states@)
    &&& mid.states@ == if refresh {
        with_auto_marks(&before.puzzle, placed)
    } else {
        placed
    }
}

/// What setting cell `index` to `next` did: nothing when it already was, otherwise the
/// change and a fresh check that shows a win.
pub open spec fn committed(
    before: &GameState,
    after: &GameState,
    index: int,
    next: CellState,
    refresh: bool,
    now_ms: u64,
) -> bool {
    &&& before.states@[index] == next ==> *after == *before
    &&& before.states@[index] != next ==> exists|mid: GameState|
        #[trigger] changed_board(before, &mid, index, next, refresh) && revalidated(&mid, after, true, now_ms)
}

/// What a mark toggle puts in a cell: a marked cell is cleared, anything else is marked.
pub open spec fn toggled_mark(s: CellState) -> CellState {
    if s == CellState::Mark || s == CellState::AutoMark {
        CellState::Empty
    } else {
        CellState::Mark
    }
}

/// What a queen toggle puts in a cell: a queen is removed, anything else becomes a queen.
pub open spec fn toggled_queen(s: CellState) -> CellState {
    if s == CellState::Queen {
        CellState::Empty
    } else {
        CellState::Queen
    }
}

/// What a click in `mode` puts in a cell.
pub open spec fn mode_result(mode: Mode, s: CellState) -> CellState {
    match mode {
        Mode::Clear => CellState::Empty,
        Mode::Mark => toggled_mark(s),
        Mode::Queen => toggled_queen(s),
    }
}

/// What a drag puts in a cell it passes, if it changes it: `Add` marks any cell that is
/// not marked by hand, `Remove` clears any marked cell.
pub open spec fn drag_result(action: MarkDragAction, s: CellState) -> Option<CellState> {
    match action {
        MarkDragAction::Add => if s == CellState::Mark {
            None
        } else {
            Some(CellState::Mark)
        },
        MarkDragAction::Remove => if s == CellState::Mark || s == CellState::AutoMark {
            Some(CellState::Empty)
        } else {
            None
        },
    }
}

/// What a drag over cell `index` did: nothing without a drag or when the cell keeps its
/// state; otherwise the cell changes, the first change of the drag pushes the board to the
/// history, and a queen swept away asks for fresh automatic marks when the drag ends.
pub open spec fn dragged_over(before: &GameState, after: &GameState, index: int) -> bool {
    match before.mark_drag {
        None => *after == *before,
        Some(d) => match drag_result(d.action, before.states@[index]) {
            None => *after == *before,
            Some(next) => {
                &&& *after == (GameState {
                    states: after.states,
                    history: after.history,
                    mark_drag: after.mark_drag,
                    ..*before
                })
                &&& after.states@ == before.states@.update(index, next)
                &&& history_views(after.history@) == if d.history_started {
                    history_views(before.history@)
                } else {
                    pushed_history(history_views(before.history@), before.states@)
                }
                &&& after.mark_drag == Some(
                    MarkDrag {
                        history_started: true,
                        changed: true,
                        needs_auto_refresh: d.needs_auto_refresh || before.states@[index] == CellState::Queen,
                        ..d
                    },
                )
            },
        },
    }
}

impl GameState {
    /// Checks the board again: the validation of its queens, and the solved state with it.
    pub fn revalidate(&mut self, show_win: bool, now_ms: u64)
        requires
            game_ok(old(self)),
        ensures
            revalidated(old(self), final(self), show_win, now_ms),
    {
        let size = self.puzzle.size;
        proof {
            if size > 0 {
                lemma_queen_cells_bounds(self.states@, size, self.states.len() as int);
            } else {
                assert(size * size == 0) by (nonlinear_arith)
                    requires
                        size == 0,
                ;
            }
        }
        let queens = self.queens();
        let validation = validate_solution(&self.puzzle, &queens);
        if validation.complete && !self.completed {
            let seconds = self.elapsed_seconds(now_ms);
            self.completed_seconds = seconds;
            self.completed = true;
            self.win_visible = show_win;
        } else if !validation.complete {
            self.completed = false;
            self.completed_seconds = 0;
            self.finish_notified = false;
            self.win_visible = false;
        }
        self.validation = validation;
    }

    /// Pushes the board to the undo history (which keeps the last `HISTORY_LIMIT`).
    pub fn push_history(&mut self)
        ensures
            *final(self) == (GameState { history: final(self).history, ..*old(self) }),
            history_views(final(self).history@) == pushed_history(history_views(old(self).history@), old(self).states@),
            old(self).history.len() <= HISTORY_LIMIT ==> final(self).history.len() <= HISTORY_LIMIT,
            forall|k: int| 0 <= k < final(self).history.len() ==> (#[trigger] final(self).history@[k]).len()
                == old(self).states.len() || exists|j: int| 0 <= j < old(self).history.len() && final(self).history@[k]
                == old(self).history@[j],
    {
        let mut copy: Vec<CellState> = Vec::new();
        let mut i: usize = 0;
        while i < self.states.len()
            invariant
                i <= self.states.len(),
                copy@ == self.states@.take(i as int),
            decreases self.states.len() - i,
        {
            copy.push(self.states[i]);
            proof {
                assert(self.states@.take(i + 1) == self.states@.take(i as int).push(self.states@[i as int]));
            }
            i = i + 1;
        }
        proof {
            assert(self.states@.take(i as int) == self.states@);
        }
        let ghost h0 = self.history@;
        self.history.push(copy);
        proof {
            assert(history_views(self.history@) == history_views(h0).push(old(self).states@));
        }
        if self.history.len() > HISTORY_LIMIT {
            let ghost h1 = self.history@;
            self.history.remove(0);
            proof {
                assert(self.history@ == h1.drop_first());
                assert(history_views(self.history@) == history_views(h1).drop_first());
                assert forall|k: int| 0 <= k < self.history.len() implies (#[trigger] self.history@[k]).len()
                    == old(self).states.len() || exists|j: int| 0 <= j < old(self).history.len() && self.history@[k]
                    == old(self).history@[j] by {
                    if k + 1 < h0.len() + 1 && k + 1 < h1.len() - 1 {
                        assert(self.history@[k] == h0[k + 1]);
                    } else {
                        assert(self.history@[k] == h1[k + 1]);
                        if k + 1 < h0.len() {
                            assert(h1[k + 1] == h0[k + 1]);
                        }
                    }
                }
            }
        } else {
            proof {
                assert forall|k: int| 0 <= k < self.history.len() implies (#[trigger] self.history@[k]).len()
                    == old(self).states.len() || exists|j: int| 0 <= j < old(self).history.len() && self.history@[k]
                    == old(self).history@[j] by {
                    if k < h0.len() {
                        assert(self.history@[k] == h0[k]);
                    }
                }
            }
        }
    }

}

/// What undoing did: nothing without history; otherwise the last board of the history is
/// back (and leaves the history), and it is checked again without a win message.
pub open spec fn undid(before: &GameState, after: &GameState, now_ms: u64) -> bool {
    &&& before.history.len() == 0 ==> *after == *before
    &&& before.history.len() > 0 ==> exists|mid: GameState|
        #[trigger] mid.states@ == before.history@.last()@ && mid == (GameState {
            states: mid.states,
            history: mid.history,
            completed: false,
            completed_seconds: 0,
            finish_notified: false,
            win_visible: false,
            ..*before
        }) && mid.history@ == before.history@.drop_last() && revalidated(&mid, after, false, now_ms)
}

/// Undo takes back a change: after a cell of the board changed, undoing brings the board
/// back as it was, and the history back to what it held (less its oldest board when it was
/// full).
pub proof fn lemma_undo_takes_back_a_change(
    before: &GameState,
    changed: &GameState,
    undone: &GameState,
    index: int,
    next: CellState,
    refresh: bool,
    change_ms: u64,
    undo_ms: u64,
)
    requires
        game_ok(before),
        0 <= index < before.states.len(),
        before.states@[index] != next,
        committed(before, changed, index, next, refresh, change_ms),
        undid(changed, undone, undo_ms),
    ensures
        undone.states@ == before.states@,
        history_views(undone.history@) == if before.history.len() + 1 > HISTORY_LIMIT {
            history_views(before.history@).drop_first()
        } else {
            history_views(before.history@)
        },
{
    let mid = choose|mid: GameState|
        #[trigger] changed_board(before, &mid, index, next, refresh) && revalidated(&mid, changed, true, change_ms);
    let h = history_views(before.history@);
    let hp = pushed_history(h, before.states@);
    assert(history_views(changed.history@) == hp);
    assert(changed.history.len() > 0);
    assert(changed.history@.last()@ == hp.last());
    assert(hp.last() == before.states@);
    let mid2 = choose|mid2: GameState|
        #[trigger] mid2.states@ == changed.history@.last()@ && mid2 == (GameState {
            states: mid2.states,
            history: mid2.history,
            completed: false,
            completed_seconds: 0,
            finish_notified: false,
            win_visible: false,
            ..*changed
        }) && mid2.history@ == changed.history@.drop_last() && revalidated(&mid2, undone, false, undo_ms);
    assert(history_views(mid2.history@) == hp.drop_last());
    if h.len() + 1 > HISTORY_LIMIT {
        assert(hp.drop_last() =~= h.drop_first());
    } else {
        assert(hp.drop_last() =~= h);
    }
}

impl GameState {
    /// After a change of the board: it is no longer solved until checked, and it is checked
    /// again, showing a win.
    pub fn after_change(&mut self, now_ms: u64)
        requires
            game_ok(old(self)),
        ensures
            game_ok(final(self)),
            revalidated(
                &GameState { completed: false, completed_seconds: 0, win_visible: false, ..*old(self) },
                final(self),
                true,
                now_ms,
            ),
    {
        self.completed = false;
        self.completed_seconds = 0;
        self.win_visible = false;
        self.revalidate(true, now_ms);
    }

    /// Sets cell `index` to `next_state` (renewing the automatic marks when asked): nothing
    /// happens when it already has that state; otherwise the board joins the history and is
    /// checked again.
    pub fn commit_state(&mut self, index: usize, next_state: CellState, refresh_auto_marks: bool, now_ms: u64)
        requires
            game_ok(old(self)),
            index < old(self).states.len(),
        ensures
            game_ok(final(self)),
            committed(old(self), final(self), index as int, next_state, refresh_auto_marks, now_ms),
    {
        if self.states[index] == next_state {
            return;
        }
        self.push_history();
        self.states.set(index, next_state);
        if refresh_auto_marks {
            self.refresh_auto_marks();
        }
        self.completed = false;
        self.completed_seconds = 0;
        self.win_visible = false;
        let ghost mid = *self;
        proof {
            assert(changed_board(old(self), &mid, index as int, next_state, refresh_auto_marks));
        }
        self.revalidate(true, now_ms);
    }

    /// Marks cell `index`, or clears it when it is marked (renewing the automatic marks when
    /// a queen goes).
    pub fn toggle_mark(&mut self, index: usize, now_ms: u64)
        requires
            game_ok(old(self)),
            index < old(self).states.len(),
        ensures
            game_ok(final(self)),
            committed(
                old(self),
                final(self),
                index as int,
                toggled_mark(old(self).states@[index as int]),
                old(self).states@[index as int] == CellState::Queen,
                now_ms,
            ),
    {
        let current = self.states[index];
        let next = if current.is_marked() {
            CellState::Empty
        } else {
            CellState::Mark
        };
        self.commit_state(index, next, current == CellState::Queen, now_ms);
    }

    /// Puts a queen on cell `index`, or removes the queen there.
    pub fn toggle_queen(&mut self, index: usize, now_ms: u64)
        requires
            game_ok(old(self)),
            index < old(self).states.len(),
        ensures
            game_ok(final(self)),
            committed(old(self), final(self), index as int, toggled_queen(old(self).states@[index as int]), true, now_ms),
    {
        let next = if self.states[index] == CellState::Queen {
            CellState::Empty
        } else {
            CellState::Queen
        };
        self.commit_state(index, next, true, now_ms);
    }

    /// A click on cell `index` in the current mode (renewing the automatic marks when a queen
    /// comes or goes).
    pub fn apply_mode_action(&mut self, index: usize, now_ms: u64)
        requires
            game_ok(old(self)),
            index < old(self).states.len(),
        ensures
            game_ok(final(self)),
            ({
                let current = old(self).states@[index as int];
                let next = mode_result(old(self).mode, current);
                committed(
                    old(self),
                    final(self),
                    index as int,
                    next,
                    current == CellState::Queen || next == CellState::Queen,
                    now_ms,
                )
            }),
    {
        let current = self.states[index];
        let next = match self.mode {
            Mode::Clear => CellState::Empty,
            Mode::Mark => if current.is_marked() {
                CellState::Empty
            } else {
                CellState::Mark
            },
            Mode::Queen => if current == CellState::Queen {
                CellState::Empty
            } else {
                CellState::Queen
            },
        };
        self.commit_state(index, next, current == CellState::Queen || next == CellState::Queen, now_ms);
    }

    /// Starts a drag of marks on cell `index`: it removes marks when it starts on a marked
    /// cell, and adds them otherwise.
    pub fn start_mark_drag(&mut self, index: usize)
        requires
            index < old(self).states.len(),
        ensures
            *final(self) == (GameState {
                mark_drag: Some(
                    MarkDrag {
                        start_index: index,
                        action: if old(self).states@[index as int] == CellState::Mark || old(self).states@[index as int]
                            == CellState::AutoMark {
                            MarkDragAction::Remove
                        } else {
                            MarkDragAction::Add
                        },
                        moved: false,
                        changed: false,
                        history_started: false,
                        needs_auto_refresh: false,
                    },
                ),
                ..*old(self)
            }),
    {
        let action = if self.states[index].is_marked() {
            MarkDragAction::Remove
        } else {
            MarkDragAction::Add
        };
        self.mark_drag = Some(
            MarkDrag {
                start_index: index,
                action,
                moved: false,
                changed: false,
                history_started: false,
                needs_auto_refresh: false,
            },
        );
    }

    /// The drag passes cell `index`.
    pub fn apply_drag_mark(&mut self, index: usize)
        requires
            game_ok(old(self)),
            index < old(self).states.len(),
        ensures
            game_ok(final(self)),
            dragged_over(old(self), final(self), index as int),
    {
        let mut drag = match self.mark_drag {
            Some(d) => d,
            None => {
                return;
            },
        };
        let current = self.states[index];
        let next = match drag.action {
            MarkDragAction::Add => {
                if current == CellState::Mark {
                    return;
                }
                CellState::Mark
            },
            MarkDragAction::Remove => {
                if !current.is_marked() {
                    return;
                }
                CellState::Empty
            },
        };
        if !drag.history_started {
            self.push_history();
            drag.history_started = true;
        }
        if current == CellState::Queen {
            drag.needs_auto_refresh = true;
        }
        self.states.set(index, next);
        drag.changed = true;
        self.mark_drag = Some(drag);
    }

    /// The drag moves onto cell `index`: on its first move it also takes the cell it started
    /// on.
    pub fn drag_mark_cell(&mut self, index: usize)
        requires
            game_ok(old(self)),
            index < old(self).states.len(),
        ensures
            game_ok(final(self)),
            old(self).mark_drag is None ==> *final(self) == *old(self),
            old(self).mark_drag is Some && old(self).mark_drag->0.moved ==> dragged_over(old(self), final(self), index as int),
            old(self).mark_drag is Some && !old(self).mark_drag->0.moved ==> exists|first: GameState, second: GameState|
                first == (GameState { mark_drag: Some(MarkDrag { moved: true, ..old(self).mark_drag->0 }), ..*old(self) })
                    && #[trigger] dragged_over(&first, &second, old(self).mark_drag->0.start_index as int) && dragged_over(
                    &second,
                    final(self),
                    index as int,
                ),
    {
        let mut drag = match self.mark_drag {
            Some(d) => d,
            None => {
                return;
            },
        };
        if !drag.moved {
            drag.moved = true;
            let start_index = drag.start_index;
            self.mark_drag = Some(drag);
            let ghost first = *self;
            self.apply_drag_mark(start_index);
            let ghost second = *self;
            self.apply_drag_mark(index);
            proof {
                assert(dragged_over(&first, &second, start_index as int));
            }
            return;
        }
        self.apply_drag_mark(index);
    }

    /// Ends the drag on cell `index` (or where the pointer left the board): a drag that never
    /// moved is a click that toggles a mark; one that changed cells renews the automatic marks
    /// if a queen went, and has the board checked again.
    pub fn finish_mark_drag(&mut self, index: Option<usize>, now_ms: u64)
        requires
            game_ok(old(self)),
            index matches Some(i) ==> i < old(self).states.len(),
        ensures
            game_ok(final(self)),
            old(self).mark_drag is None ==> *final(self) == *old(self),
            old(self).mark_drag is Some && !old(self).mark_drag->0.moved ==> {
                let d = old(self).mark_drag->0;
                let cell = match index {
                    Some(i) => i,
                    None => d.start_index,
                };
                let cleared = GameState { mark_drag: None, ..*old(self) };
                committed(
                    &cleared,
                    final(self),
                    cell as int,
                    toggled_mark(old(self).states@[cell as int]),
                    old(self).states@[cell as int] == CellState::Queen,
                    now_ms,
                )
            },
            old(self).mark_drag is Some && old(self).mark_drag->0.moved && !old(self).mark_drag->0.changed ==> *final(self) == (GameState {
                mark_drag: None,
                ..*old(self)
            }),
            old(self).mark_drag is Some && old(self).mark_drag->0.moved && old(self).mark_drag->0.changed ==> {
                let d = old(self).mark_drag->0;
                let marked = if d.needs_auto_refresh {
                    with_auto_marks(&old(self).puzzle, old(self).states@)
                } else {
                    old(self).states@
                };
                exists|mid: GameState|
                    #[trigger] mid.states@ == marked && mid == (GameState {
                        states: mid.states,
                        mark_drag: None,
                        completed: false,
                        completed_seconds: 0,
                        win_visible: false,
                        ..*old(self)
                    }) && revalidated(&mid, final(self), true, now_ms)
            },
    {
        let drag = match self.mark_drag {
            Some(d) => d,
            None => {
                return;
            },
        };
        self.mark_drag = None;
        if !drag.moved {
            let cell = match index {
                Some(i) => i,
                None => drag.start_index,
            };
            self.toggle_mark(cell, now_ms);
            return;
        }
        if !drag.changed {
            return;
        }
        if drag.needs_auto_refresh {
            self.refresh_auto_marks();
        }
        self.completed = false;
        self.completed_seconds = 0;
        self.win_visible = false;
        let ghost mid = *self;
        self.revalidate(true, now_ms);
        proof {
            assert(mid.states@ == mid.states@);
        }
    }

    /// Takes back the last change: the previous board returns and is checked again (without
    /// a win message).
    pub fn undo(&mut self, now_ms: u64)
        requires
            game_ok(old(self)),
        ensures
            game_ok(final(self)),
            undid(old(self), final(self), now_ms),
    {
        if self.history.len() == 0 {
            return;
        }
        let previous = match self.history.pop() {
            Some(p) => p,
            None => {
                return;
            },
        };
        proof {
            assert(previous == old(self).history@.last());
            assert(previous.len() == cell_total(old(self)));
        }
        self.states = previous;
        self.completed = false;
        self.completed_seconds = 0;
        self.finish_notified = false;
        self.win_visible = false;
        let ghost mid = *self;
        self.revalidate(false, now_ms);
        proof {
            assert(mid.states@ == old(self).history@.last()@);
        }
    }

    /// Clears the board and restarts the clock at `now_ms`; the old board joins the history.
    pub fn reset(&mut self, now_ms: u64)
        requires
            game_ok(old(self)),
        ensures
            game_ok(final(self)),
            exists|mid: GameState|
                #[trigger] history_views(mid.history@) == pushed_history(history_views(old(self).history@), old(self).states@)
                    && mid == (GameState {
                    states: mid.states,
                    history: mid.history,
                    started_at_ms: now_ms,
                    completed: false,
                    completed_seconds: 0,
                    finish_notified: false,
                    win_visible: false,
                    mark_drag: None,
                    ..*old(self)
                }) && mid.states@ == Seq::new(cell_total(old(self)) as nat, |i: int| CellState::Empty) && revalidated(
                    &mid,
                    final(self),
                    false,
                    now_ms,
                ),
    {
        self.push_history();
        self.states = empty_states(self.puzzle.size * self.puzzle.size);
        self.started_at_ms = now_ms;
        self.completed = false;
        self.completed_seconds = 0;
        self.finish_notified = false;
        self.win_visible = false;
        self.mark_drag = None;
        let ghost mid = *self;
        self.revalidate(false, now_ms);
        proof {
            assert(history_views(mid.history@) == pushed_history(history_views(old(self).history@), old(self).states@));
        }
    }

    /// What is saved of the game.
    pub fn saved_game(&self) -> (saved: SavedGame)
        ensures
            saved.states@ == self.states@.map_values(|s: CellState| storage_code_spec(s)),
            saved.started_at_ms == Some(self.started_at_ms),
            saved.completed == self.completed,
            saved.completed_seconds == self.completed_seconds,
    {
        let mut codes: Vec<u8> = Vec::new();
        let mut i: usize = 0;
        while i < self.states.len()
            invariant
                i <= self.states.len(),
                codes@ == self.states@.take(i as int).map_values(|s: CellState| storage_code_spec(s)),
            decreases self.states.len() - i,
        {
            codes.push(self.states[i].storage_code());
            proof {
                assert(self.states@.take(i + 1) == self.states@.take(i as int).push(self.states@[i as int]));
            }
            i = i + 1;
        }
        proof {
            assert(self.states@.take(i as int) == self.states@);
        }
        SavedGame {
            states: codes,
            started_at_ms: Some(self.started_at_ms),
            completed: self.completed,
            completed_seconds: self.completed_seconds,
        }
    }

    /// Takes a saved game back: one saved for a board of another size is ignored; otherwise
    /// its cells, start (now, when it has none) and solved state replace the game's.
    pub fn load_saved(&mut self, saved: &SavedGame, now_ms: u64)
        requires
            game_ok(old(self)),
        ensures
            game_ok(final(self)),
            saved.states.len() != old(self).states.len() ==> *final(self) == *old(self),
            saved.states.len() == old(self).states.len() ==> *final(self) == (GameState {
                states: final(self).states,
                started_at_ms: match saved.started_at_ms {
                    Some(t) => t,
                    None => now_ms,
                },
                completed: saved.completed,
                completed_seconds: saved.completed_seconds,
                ..*old(self)
            }) && final(self).states@ == saved.states@.map_values(|c: u8| state_of_code(c)),
    {
        if saved.states.len() != self.states.len() {
            return;
        }
        let mut states: Vec<CellState> = Vec::new();
        let mut i: usize = 0;
        while i < saved.states.len()
            invariant
                i <= saved.states.len(),
                states@ == saved.states@.take(i as int).map_values(|c: u8| state_of_code(c)),
            decreases saved.states.len() - i,
        {
            let s = CellState::from_storage_code(saved.states[i]);
            proof {
                assert(saved.states@.take(i + 1) == saved.states@.take(i as int).push(saved.states@[i as int]));
                assert(s == state_of_code(saved.states@[i as int]));
            }
            states.push(s);
            i = i + 1;
        }
        proof {
            assert(saved.states@.take(i as int) == saved.states@);
        }
        self.states = states;
        self.started_at_ms = match saved.started_at_ms {
            Some(t) => t,
            None => now_ms,
        };
        self.completed = saved.completed;
        self.completed_seconds = saved.completed_seconds;
    }
}

/// The board a saved game gives a board of `n` cells: its cells when it has `n` of them,
/// an empty board otherwise.
pub open spec fn loaded_states(saved: Option<SavedGame>, n: nat) -> Seq<CellState> {
    match saved {
        Some(sv) => if sv.states.len() == n {
            sv.states@.map_values(|c: u8| state_of_code(c))
        } else {
            Seq::new(n, |i: int| CellState::Empty)
        },
        None => Seq::new(n, |i: int| CellState::Empty),
    }
}

/// The saved game applies to a board of `n` cells.
pub open spec fn saved_fits(saved: Option<SavedGame>, n: nat) -> bool {
    saved matches Some(sv) && sv.states.len() == n
}

/// A game as it opens: its board (saved or empty) with fresh automatic marks, checked, its
/// clock from the saved start (or `now_ms`), no history, no drag, no win shown.
pub open spec fn opened(g: &GameState, puzzle: Puzzle, saved: Option<SavedGame>, now_ms: u64) -> bool {
    let n = (puzzle.size * puzzle.size) as nat;
    let fits = saved_fits(saved, n);
    let started = if fits && saved->0.started_at_ms is Some {
        saved->0.started_at_ms->0
    } else {
        now_ms
    };
    let was_completed = fits && saved->0.completed;
    let complete = g.validation.complete;
    &&& g.puzzle == puzzle
    &&& g.states@ == with_auto_marks(&puzzle, loaded_states(saved, n))
    &&& validation_spec(&puzzle, board_queens(g.states@, puzzle.size), &g.validation)
    &&& g.started_at_ms == started
    &&& g.completed == complete
    &&& g.completed_seconds == if !complete {
        0
    } else if was_completed {
        saved->0.completed_seconds
    } else if now_ms >= started {
        ((now_ms - started) / 1000) as u64
    } else {
        0
    }
    &&& !g.win_visible
    &&& !g.finish_notified
    &&& g.history.len() == 0
    &&& g.mark_drag is None
    &&& g.mode == Mode::Queen
    &&& g.cells.len() == n
    &&& forall|r: int, c: int|
        0 <= r < puzzle.size && 0 <= c < puzzle.size ==> crate::queens::cell_view_ok(
            &puzzle,
            #[trigger] g.cells@[r * puzzle.size + c],
            r,
            c,
        )
}

impl GameState {
    /// The game of a puzzle page at `now_ms`, resumed from what was saved for it.
    pub fn new(bootstrap: GameBootstrap, saved: Option<SavedGame>, now_ms: u64) -> (g: GameState)
        requires
            puzzle_ok(&bootstrap.puzzle),
        ensures
            game_ok(&g),
            opened(&g, bootstrap.puzzle, saved, now_ms),
            g.puzzle_nav == bootstrap.puzzle_nav,
            g.total == bootstrap.total,
            g.storage_key matches Some(k) && k@ == "queensgame:9x9:"@ + decimal_text(bootstrap.puzzle.id as nat),
    {
        let mut key = String::from_str("queensgame:9x9:");
        append_decimal(&mut key, bootstrap.puzzle.id);
        let GameBootstrap { puzzle, puzzle_nav, total } = bootstrap;
        let mut g = GameState::fresh(puzzle, puzzle_nav, total, Some(key), now_ms);
        match &saved {
            Some(sv) => g.load_saved(sv, now_ms),
            None => {},
        }
        g.refresh_auto_marks();
        g.revalidate(false, now_ms);
        g
    }

    /// The game of a room's race at `now_ms` (nothing is saved for it).
    pub fn new_room(puzzle: Puzzle, now_ms: u64) -> (g: GameState)
        requires
            puzzle_ok(&puzzle),
        ensures
            game_ok(&g),
            opened(&g, puzzle, None, now_ms),
            g.puzzle_nav.len() == 0,
            g.total == 0,
            g.storage_key is None,
    {
        let mut g = GameState::fresh(puzzle, Vec::new(), 0, None, now_ms);
        g.refresh_auto_marks();
        g.revalidate(false, now_ms);
        g
    }

    /// An empty board for the puzzle, not yet checked.
    fn fresh(puzzle: Puzzle, puzzle_nav: Vec<PuzzleNav>, total: usize, storage_key: Option<String>, now_ms: u64) -> (g:
        GameState)
        requires
            puzzle_ok(&puzzle),
        ensures
            game_ok(&g),
            g.puzzle == puzzle,
            g.puzzle_nav == puzzle_nav,
            g.total == total,
            g.storage_key == storage_key,
            g.states@ == Seq::new((puzzle.size * puzzle.size) as nat, |i: int| CellState::Empty),
            g.started_at_ms == now_ms,
            !g.completed,
            g.completed_seconds == 0,
            !g.win_visible,
            !g.finish_notified,
            g.history.len() == 0,
            g.mark_drag is None,
            g.mode == Mode::Queen,
            g.cells.len() == puzzle.size * puzzle.size,
            forall|r: int, c: int|
                0 <= r < puzzle.size && 0 <= c < puzzle.size ==> crate::queens::cell_view_ok(
                    &puzzle,
                    #[trigger] g.cells@[r * puzzle.size + c],
                    r,
                    c,
                ),
    {
        let validation = validate_solution(&puzzle, &Vec::new());
        let cells = crate::queens::build_cells(&puzzle);
        let states = empty_states(puzzle.size * puzzle.size);
        GameState {
            puzzle,
            cells,
            puzzle_nav,
            total,
            mode: Mode::Queen,
            states,
            storage_key,
            history: Vec::new(),
            started_at_ms: now_ms,
            completed: false,
            completed_seconds: 0,
            validation,
            finish_notified: false,
            mark_drag: None,
            win_visible: false,
        }
    }
}

/// A board of `n` empty cells.
fn empty_states(n: usize) -> (v: Vec<CellState>)
    ensures
        v@ == Seq::new(n as nat, |i: int| CellState::Empty),
{
    let mut v: Vec<CellState> = Vec::new();
    let mut i: usize = 0;
    while i < n
        invariant
            i <= n,
            v@ == Seq::new(i as nat, |k: int| CellState::Empty),
        decreases n - i,
    {
        v.push(CellState::Empty);
        i = i + 1;
    }
    v
}

/// Cell `(row, col)` is ruled out by a queen of the board exactly when one of the listed
/// queens (the board's queens, row by row) rules it out.
proof fn lemma_ruled_out_by_listed_queen(
    puzzle: &Puzzle,
    states: Seq<CellState>,
    queens: Seq<[usize; 2]>,
    i: int,
    row: int,
    col: int,
    hit: bool,
)
    requires
        puzzle.size > 0,
        puzzle.size * puzzle.size <= usize::MAX,
        states.len() == puzzle.size * puzzle.size,
        queens == board_queens(states, puzzle.size),
        0 <= i < states.len(),
        row == i / (puzzle.size as int),
        col == i % (puzzle.size as int),
        hit == exists|j: int|
            0 <= j < queens.len() && #[trigger] invalidated_spec(
                puzzle.regions@,
                queens[j][0] as int,
                queens[j][1] as int,
                row,
                col,
            ),
    ensures
        hit == ruled_out(puzzle, states, i),
{
    assert(states.len() <= usize::MAX) by (nonlinear_arith)
        requires
            states.len() == puzzle.size * puzzle.size,
            puzzle.size * puzzle.size <= usize::MAX,
    ;
    lemma_queen_cells_listing(states, puzzle.size, states.len() as int);
    let size = puzzle.size as int;
    if hit {
        let j = choose|j: int|
            0 <= j < queens.len() && #[trigger] invalidated_spec(
                puzzle.regions@,
                queens[j][0] as int,
                queens[j][1] as int,
                row,
                col,
            );
        assert(listed_queen(states, puzzle.size, states.len() as int, queens[j]));
        let q = choose|q: int|
            0 <= q < states.len() && states[q] == CellState::Queen && queens[j][0] == q / size && queens[j][1] == q
                % size;
        assert(invalidated_spec(puzzle.regions@, q / size, q % size, i / size, i % size));
    }
    if ruled_out(puzzle, states, i) {
        let q = choose|q: int|
            0 <= q < states.len() && states[q] == CellState::Queen && #[trigger] invalidated_spec(
                puzzle.regions@,
                q / size,
                q % size,
                i / size,
                i % size,
            );
        let j = choose|j: int| 0 <= j < queens.len() && queens[j][0] == q / size && queens[j][1] == q % size;
        assert(invalidated_spec(puzzle.regions@, queens[j][0] as int, queens[j][1] as int, row, col));
    }
}

/// A queen of the board, below cell `end`, stands at `cell`.
pub open spec fn listed_queen(states: Seq<CellState>, size: usize, end: int, cell: [usize; 2]) -> bool {
    exists|q: int|
        0 <= q < end && states[q] == CellState::Queen && cell[0] == q / (size as int) && cell[1] == q % (size as int)
}

/// The listed queens are exactly the board's queens.
proof fn lemma_queen_cells_listing(states: Seq<CellState>, size: usize, end: int)
    requires
        size > 0,
        0 <= end <= states.len(),
        states.len() <= usize::MAX,
    ensures
        forall|j: int|
            0 <= j < queen_cells(states, size, end).len() ==> #[trigger] listed_queen(
                states,
                size,
                end,
                queen_cells(states, size, end)[j],
            ),
        forall|q: int|
            0 <= q < end && #[trigger] states[q] == CellState::Queen ==> exists|j: int|
                0 <= j < queen_cells(states, size, end).len() && queen_cells(states, size, end)[j][0] == q / (
                size as int) && queen_cells(states, size, end)[j][1] == q % (size as int),
    decreases end,
{
    if end > 0 {
        lemma_queen_cells_listing(states, size, end - 1);
        let p = queen_cells(states, size, end - 1);
        let c = queen_cells(states, size, end);
        let x = end - 1;
        assert(0 <= x / (size as int) && 0 <= x % (size as int) < size && x / (size as int) <= x) by (nonlinear_arith)
            requires
                x >= 0,
                size > 0,
        ;
        assert forall|j: int| 0 <= j < c.len() implies #[trigger] listed_queen(states, size, end, c[j]) by {
            if j < p.len() {
                assert(c[j] == p[j]);
                assert(listed_queen(states, size, end - 1, p[j]));
                let q = choose|q: int| 0 <= q < end - 1 && states[q] == CellState::Queen && p[j][0] == q / (size as int)
                    && p[j][1] == q % (size as int);
                assert(0 <= q < end);
            } else {
                assert(states[x] == CellState::Queen);
                assert(c[j][0] == x / (size as int) && c[j][1] == x % (size as int));
            }
        }
        assert forall|q: int| 0 <= q < end && #[trigger] states[q] == CellState::Queen implies exists|j: int|
            0 <= j < c.len() && c[j][0] == q / (size as int) && c[j][1] == q % (size as int) by {
            if q < x {
                let j = choose|j: int| 0 <= j < p.len() && p[j][0] == q / (size as int) && p[j][1] == q % (size as int);
                assert(c[j] == p[j]);
            } else {
                let j = p.len() as int;
                assert(c[j][0] == x / (size as int) && c[j][1] == x % (size as int));
            }
        }
    }
}

} // verus!
