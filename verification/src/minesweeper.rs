//! Single-player Minesweeper: board geometry, mine layouts, and the rules for
//! revealing, flagging and chording cells.

use vstd::prelude::*;
use std::collections::BTreeSet;
use crate::grid::{
    block_more, count_flagged, count_true, covered, derived, expanded, flood_fill_ok,
    grid_neighbor_list, has_parent, lemma_cell_index, lemma_count_true_bound,
    lemma_count_flagged_none, lemma_count_true_clear, lemma_flood_fill_compose, lemma_neighbor_seq_bound, lemma_neighbor_seq_contains, lemma_neighbor_seq_sorted, lemma_row_col,
    neighbor_seq,
};
use crate::solver;
use crate::mine_rng::{lemma_shuffle_from_distinct, lemma_shuffle_from_keeps, next_seed, random_tile_start_axis, shuffle_indexes, shuffle_spec};

verus! {

broadcast use vstd::std_specs::btree::group_btree_axioms, vstd::laws_cmp::group_laws_cmp;

/// Width of the classic expert board.
pub const MINESWEEPER_EXPERT_WIDTH: usize = 30;

/// Height of the classic expert board.
pub const MINESWEEPER_EXPERT_HEIGHT: usize = 16;

/// Number of mines on the classic expert board.
pub const MINESWEEPER_EXPERT_MINES: usize = 99;

/// Default time limit of a multiplayer Minesweeper race, in seconds.
pub const ROOM_MINESWEEPER_DEFAULT_SECONDS: u32 = 60;

/// Shortest time limit a room may choose, in seconds.
pub const ROOM_MINESWEEPER_MIN_SECONDS: u32 = 30;

/// Longest time limit a room may choose, in seconds.
pub const ROOM_MINESWEEPER_MAX_SECONDS: u32 = 3600;

/// Default number of expert tiles stacked vertically in a room board.
pub const ROOM_MINESWEEPER_DEFAULT_TILE_ROWS: usize = 1;

/// Default number of expert tiles placed side by side in a room board.
pub const ROOM_MINESWEEPER_DEFAULT_TILE_COLS: usize = 1;

/// Fewest tiles along either axis of a room board.
pub const ROOM_MINESWEEPER_MIN_TILE_AXIS: usize = 1;

/// Most tiles along either axis of a room board.
pub const ROOM_MINESWEEPER_MAX_TILE_AXIS: usize = 3;

/// The dimensions a Minesweeper page starts a new game with.
#[derive(Debug, Clone, PartialEq, Eq)]
pub struct MinesweeperBootstrap {
    pub width: usize,
    pub height: usize,
    pub mines: usize,
}

impl Default for MinesweeperBootstrap {
    fn default() -> (b: Self)
        ensures
            b.width == MINESWEEPER_EXPERT_WIDTH,
            b.height == MINESWEEPER_EXPERT_HEIGHT,
            b.mines == MINESWEEPER_EXPERT_MINES,
    {
        MinesweeperBootstrap {
            width: MINESWEEPER_EXPERT_WIDTH,
            height: MINESWEEPER_EXPERT_HEIGHT,
            mines: MINESWEEPER_EXPERT_MINES,
        }
    }
}

/// What a player has done to a cell.
#[derive(Debug, Clone, Copy, PartialEq, Eq, Structural)]
pub enum MinesweeperCellState {
    Hidden,
    Flagged,
    Question,
    Revealed,
}

/// How a mine cell is shown.
#[derive(Debug, Clone, Copy, PartialEq, Eq, Structural)]
pub enum MinesweeperMineCellState {
    Hidden,
    Flagged,
    Revealed,
    Detonated,
}

/// The progress of a game.
#[derive(Debug, Clone, Copy, PartialEq, Eq, Structural)]
pub enum MinesweeperStatus {
    Ready,
    Playing,
    Won,
    Lost,
}

/// A cell as the player sees it: either a safe cell with its mine count, or a mine.
#[derive(Debug, Clone, Copy, PartialEq, Eq, Structural)]
pub enum MinesweeperCell {
    Safe { adjacent_mines: u8, state: MinesweeperCellState },
    Mine { state: MinesweeperMineCellState },
}

/// Whether an action changed the board, and whether it started the game clock.
#[derive(Debug, Clone, Copy, PartialEq, Eq, Structural)]
pub struct MinesweeperActionResult {
    pub changed: bool,
    pub started: bool,
}

impl Default for MinesweeperActionResult {
    fn default() -> (r: Self)
        ensures
            !r.changed,
            !r.started,
    {
        MinesweeperActionResult { changed: false, started: false }
    }
}

impl MinesweeperMineCellState {
    /// The player-facing state of a mine cell.
    pub open spec fn as_cell_state_spec(self) -> MinesweeperCellState {
        match self {
            MinesweeperMineCellState::Hidden => MinesweeperCellState::Hidden,
            MinesweeperMineCellState::Flagged => MinesweeperCellState::Flagged,
            MinesweeperMineCellState::Revealed | MinesweeperMineCellState::Detonated => MinesweeperCellState::Revealed,
        }
    }

    pub fn as_cell_state(self) -> (s: MinesweeperCellState)
        ensures
            s == self.as_cell_state_spec(),
    {
        match self {
            MinesweeperMineCellState::Hidden => MinesweeperCellState::Hidden,
            MinesweeperMineCellState::Flagged => MinesweeperCellState::Flagged,
            MinesweeperMineCellState::Revealed | MinesweeperMineCellState::Detonated => MinesweeperCellState::Revealed,
        }
    }
}

impl MinesweeperCell {
    pub fn safe(adjacent_mines: u8, state: MinesweeperCellState) -> (c: Self)
        ensures
            c == (MinesweeperCell::Safe { adjacent_mines, state }),
    {
        MinesweeperCell::Safe { adjacent_mines, state }
    }

    pub fn mine_cell(state: MinesweeperMineCellState) -> (c: Self)
        ensures
            c == (MinesweeperCell::Mine { state }),
    {
        MinesweeperCell::Mine { state }
    }

    pub fn mine(self) -> (b: bool)
        ensures
            b == self is Mine,
    {
        matches!(self, MinesweeperCell::Mine { .. })
    }

    pub open spec fn adjacent_mines_spec(self) -> u8 {
        match self {
            MinesweeperCell::Safe { adjacent_mines, .. } => adjacent_mines,
            MinesweeperCell::Mine { .. } => 0,
        }
    }

    pub fn adjacent_mines(self) -> (n: u8)
        ensures
            n == self.adjacent_mines_spec(),
    {
        match self {
            MinesweeperCell::Safe { adjacent_mines, .. } => adjacent_mines,
            MinesweeperCell::Mine { .. } => 0,
        }
    }

    pub open spec fn state_spec(self) -> MinesweeperCellState {
        match self {
            MinesweeperCell::Safe { state, .. } => state,
            MinesweeperCell::Mine { state } => state.as_cell_state_spec(),
        }
    }

    pub fn state(self) -> (s: MinesweeperCellState)
        ensures
            s == self.state_spec(),
    {
        match self {
            MinesweeperCell::Safe { state, .. } => state,
            MinesweeperCell::Mine { state } => state.as_cell_state(),
        }
    }

    pub fn detonated(self) -> (b: bool)
        ensures
            b == (self == MinesweeperCell::Mine { state: MinesweeperMineCellState::Detonated }),
    {
        matches!(self, MinesweeperCell::Mine { state: MinesweeperMineCellState::Detonated })
    }
}

impl Default for MinesweeperCell {
    fn default() -> (c: Self)
        ensures
            c == (MinesweeperCell::Safe {
                adjacent_mines: 0,
                state: MinesweeperCellState::Hidden,
            }),
    {
        MinesweeperCell::safe(0, MinesweeperCellState::Hidden)
    }
}

/// The dimensions of a board: both sides are positive and the cell count fits in `usize`.
#[derive(Debug, Clone, Copy, PartialEq, Eq)]
pub struct MinesweeperBoardSize {
    width: usize,
    height: usize,
}

impl MinesweeperBoardSize {
    #[verifier::type_invariant]
    spec fn size_inv(self) -> bool {
        self.width > 0 && self.height > 0 && self.width * self.height <= usize::MAX
    }

    pub closed spec fn w(self) -> nat {
        self.width as nat
    }

    pub closed spec fn h(self) -> nat {
        self.height as nat
    }

    pub fn new(width: usize, height: usize) -> (res: Option<Self>)
        ensures
            res is Some <==> (width > 0 && height > 0 && width * height <= usize::MAX),
            res matches Some(s) ==> s.w() == width && s.h() == height,
    {
        if width == 0 || height == 0 || width > usize::MAX / height {
            proof {
                if width > 0 && height > 0 {
                    assert(width * height > usize::MAX) by (nonlinear_arith)
                        requires
                            width > usize::MAX / height,
                            height > 0,
                    ;
                }
            }
            None
        } else {
            proof {
                assert(width * height <= usize::MAX) by (nonlinear_arith)
                    requires
                        width <= usize::MAX / height,
                        height > 0,
                ;
            }
            Some(MinesweeperBoardSize { width, height })
        }
    }

    pub fn width(self) -> (w: usize)
        ensures
            w == self.w(),
            w > 0,
    {
        proof {
            use_type_invariant(&self);
        }
        self.width
    }

    pub fn height(self) -> (h: usize)
        ensures
            h == self.h(),
            h > 0,
    {
        proof {
            use_type_invariant(&self);
        }
        self.height
    }

    pub fn cell_count(self) -> (n: usize)
        ensures
            n == self.w() * self.h(),
            n > 0,
    {
        proof {
            use_type_invariant(&self);
            assert(self.width * self.height > 0) by (nonlinear_arith)
                requires
                    self.width > 0,
                    self.height > 0,
            ;
        }
        self.width * self.height
    }

    pub fn contains_index(self, index: usize) -> (b: bool)
        ensures
            b == (index < self.w() * self.h()),
    {
        index < self.cell_count()
    }

    pub fn index(self, row: usize, col: usize) -> (res: Option<usize>)
        ensures
            res is Some <==> (row < self.h() && col < self.w()),
            res matches Some(i) ==> i == row * self.w() + col && i < self.w() * self.h(),
    {
        proof {
            use_type_invariant(&self);
        }
        if row < self.height && col < self.width {
            proof {
                lemma_cell_index(self.width as int, self.height as int, row as int, col as int);
            }
            Some(row * self.width + col)
        } else {
            None
        }
    }

    pub fn row_col(self, index: usize) -> (res: Option<(usize, usize)>)
        ensures
            res is Some <==> index < self.w() * self.h(),
            res matches Some(rc) ==> rc.0 == (index as nat) / self.w() && rc.1 == (index as nat) % self.w()
                && rc.0 < self.h() && rc.1 < self.w(),
    {
        proof {
            use_type_invariant(&self);
        }
        if self.contains_index(index) {
            proof {
                lemma_row_col(self.width as int, self.height as int, index as int);
            }
            Some((index / self.width, index % self.width))
        } else {
            None
        }
    }
}

/// The number a safe cell shows: its neighbouring mines, saturating at `u8::MAX`; mines show 0.
pub open spec fn adjacent_spec(w: int, h: int, mines: Seq<bool>, i: int) -> u8 {
    if mines[i] {
        0
    } else {
        let c = count_flagged(mines, neighbor_seq(w, h, i));
        if c <= 255 {
            c as u8
        } else {
            255
        }
    }
}

/// A placement of mines on a board, with each cell's neighbouring-mine count.
#[derive(Debug, PartialEq, Eq)]
pub struct MinesweeperLayout {
    size: MinesweeperBoardSize,
    mines: Vec<bool>,
    adjacent_mines: Vec<u8>,
    mine_total: usize,
}

/// The listed indices below `n`.
pub open spec fn indices_below(s: Set<usize>, n: nat) -> Set<usize> {
    Set::new(|m: usize| m < n && s.contains(m))
}

/// Flagging each cell below `n` that the set lists flags as many cells as the set lists
/// below `n`.
pub proof fn lemma_count_indices_below(s: Set<usize>, n: nat)
    requires
        n <= usize::MAX,
    ensures
        indices_below(s, n).finite(),
        count_true(Seq::new(n, |i: int| s.contains(i as usize))) == indices_below(s, n).len(),
    decreases n,
{
    broadcast use vstd::set::group_set_axioms;

    if n == 0 {
        assert(indices_below(s, n) =~= Set::empty());
    } else {
        let k = (n - 1) as nat;
        lemma_count_indices_below(s, k);
        assert(Seq::new(n, |i: int| s.contains(i as usize)).drop_last() =~= Seq::new(k, |i: int| s.contains(i as usize)));
        if s.contains(k as usize) {
            assert(indices_below(s, n) =~= indices_below(s, k).insert(k as usize));
        } else {
            assert(indices_below(s, n) =~= indices_below(s, k));
        }
    }
}

impl MinesweeperLayout {
    #[verifier::type_invariant]
    spec fn layout_inv(self) -> bool {
        let n = self.size.w() * self.size.h();
        &&& self.mines.len() == n
        &&& self.adjacent_mines.len() == n
        &&& self.mine_total == count_true(self.mines@)
        &&& forall|i: int|
            0 <= i < n ==> #[trigger] self.adjacent_mines@[i] == adjacent_spec(
                self.size.w() as int,
                self.size.h() as int,
                self.mines@,
                i,
            )
    }

    pub closed spec fn size_spec(self) -> MinesweeperBoardSize {
        self.size
    }

    /// Which cells hold a mine, indexed by cell.
    pub closed spec fn mine_flags(self) -> Seq<bool> {
        self.mines@
    }

    /// Each cell's neighbouring-mine count, indexed by cell.
    pub closed spec fn adjacency(self) -> Seq<u8> {
        self.adjacent_mines@
    }

    /// Builds a layout from one flag per cell, counting mines and neighbours.
    fn from_flags(size: MinesweeperBoardSize, mines: Vec<bool>) -> (layout: Self)
        requires
            mines.len() == size.w() * size.h(),
        ensures
            layout.size_spec() == size,
            layout.mine_flags() == mines@,
    {
        proof {
            use_type_invariant(&size);
        }
        let n = size.cell_count();
        let width = size.width();
        let height = size.height();
        let mut adjacent: Vec<u8> = Vec::new();
        let mut total: usize = 0;
        let mut index: usize = 0;
        while index < n
            invariant
                n == mines.len(),
                n == width * height,
                width == size.w(),
                height == size.h(),
                width > 0,
                height > 0,
                index <= n,
                adjacent.len() == index,
                total == count_true(mines@.take(index as int)),
                forall|i: int|
                    0 <= i < index ==> #[trigger] adjacent@[i] == adjacent_spec(
                        width as int,
                        height as int,
                        mines@,
                        i,
                    ),
            decreases n - index,
        {
            proof {
                assert(mines@.take(index + 1).drop_last() == mines@.take(index as int));
                lemma_count_true_bound(mines@.take(index as int));
            }
            if mines[index] {
                total = total + 1;
                adjacent.push(0);
            } else {
                let neighbors = grid_neighbor_list(width, height, index);
                let mut count: usize = 0;
                let mut k: usize = 0;
                while k < neighbors.len()
                    invariant
                        k <= neighbors.len(),
                        n == mines.len(),
                        n == width * height,
                        forall|j: int|
                            0 <= j < neighbors.len() ==> (#[trigger] neighbors@[j]) < n,
                        count == count_flagged(mines@, neighbors@.take(k as int)),
                        count <= k,
                    decreases neighbors.len() - k,
                {
                    proof {
                        assert(neighbors@.take(k + 1).drop_last() == neighbors@.take(k as int));
                    }
                    if mines[neighbors[k]] {
                        count = count + 1;
                    }
                    k = k + 1;
                }
                proof {
                    assert(neighbors@.take(k as int) == neighbors@);
                }
                let c: u8 = if count <= 255 {
                    count as u8
                } else {
                    255
                };
                adjacent.push(c);
            }
            index = index + 1;
        }
        proof {
            assert(mines@.take(n as int) == mines@);
        }
        MinesweeperLayout { size, mines, adjacent_mines: adjacent, mine_total: total }
    }

    /// Lays out the given mines on a board of the given size; indices off the board are ignored.
    pub fn from_mines(size: MinesweeperBoardSize, mines: BTreeSet<usize>) -> (layout: Self)
        ensures
            layout.size_spec() == size,
            layout.mine_flags() == Seq::new(
                size.w() * size.h(),
                |i: int| mines@.contains(i as usize),
            ),
            count_true(layout.mine_flags()) == indices_below(mines@, size.w() * size.h()).len(),
            layout.adjacency().len() == size.w() * size.h(),
            forall|i: int|
                0 <= i < size.w() * size.h() ==> #[trigger] layout.adjacency()[i] == adjacent_spec(
                    size.w() as int,
                    size.h() as int,
                    layout.mine_flags(),
                    i,
                ),
    {
        let n = size.cell_count();
        let mut flags: Vec<bool> = Vec::new();
        let mut index: usize = 0;
        while index < n
            invariant
                index <= n,
                n == size.w() * size.h(),
                flags.len() == index,
                forall|i: int| 0 <= i < index ==> #[trigger] flags@[i] == mines@.contains(i as usize),
            decreases n - index,
        {
            flags.push(mines.contains(&index));
            index = index + 1;
        }
        proof {
            assert(flags@ == Seq::new(size.w() * size.h(), |i: int| mines@.contains(i as usize)));
            lemma_count_indices_below(mines@, size.w() * size.h());
        }
        let layout = Self::from_flags(size, flags);
        proof {
            use_type_invariant(&layout);
        }
        layout
    }


    pub fn mine_count(&self) -> (n: usize)
        ensures
            n == count_true(self.mine_flags()),
    {
        proof {
            use_type_invariant(self);
        }
        self.mine_total
    }

    pub fn is_mine(&self, index: usize) -> (b: bool)
        ensures
            b == (index < self.mine_flags().len() && self.mine_flags()[index as int]),
    {
        index < self.mines.len() && self.mines[index]
    }

    pub fn adjacent_mines(&self, index: usize) -> (n: u8)
        ensures
            n == if index < self.adjacency().len() {
                self.adjacency()[index as int]
            } else {
                0
            },
    {
        if index < self.adjacent_mines.len() {
            self.adjacent_mines[index]
        } else {
            0
        }
    }

    /// The mine cells in increasing order.
    pub fn mine_indices(&self) -> (v: Vec<usize>)
        ensures
            mine_list_spec(self.mine_flags(), v@),
    {
        let mut v: Vec<usize> = Vec::new();
        let mut index: usize = 0;
        while index < self.mines.len()
            invariant
                index <= self.mines.len(),
                forall|a: int, b: int| 0 <= a < b < v.len() ==> v@[a] < v@[b],
                forall|k: int| 0 <= k < v.len() ==> #[trigger] v@[k] < index,
                forall|i: int|
                    0 <= i < index ==> (self.mines@[i] <==> v@.contains(i as usize)),
                forall|k: int| 0 <= k < v.len() ==> self.mines@[#[trigger] v@[k] as int],
            decreases self.mines.len() - index,
        {
            let ghost old_v = v@;
            if self.mines[index] {
                v.push(index);
            }
            proof {
                assert forall|i: int| 0 <= i < index + 1 implies (self.mines@[i] <==> v@.contains(
                    i as usize,
                )) by {
                    if i < index {
                        if v@.contains(i as usize) {
                            let k = choose|k: int| 0 <= k < v.len() && v@[k] == i as usize;
                            if k < old_v.len() {
                                assert(old_v[k] == i as usize);
                            }
                        }
                        if old_v.contains(i as usize) {
                            let k = choose|k: int| 0 <= k < old_v.len() && old_v[k] == i as usize;
                            assert(v@[k] == i as usize);
                        }
                    } else if self.mines@[i] {
                        assert(v@[v.len() - 1] == i as usize);
                    } else {
                        if v@.contains(i as usize) {
                            let k = choose|k: int| 0 <= k < v.len() && v@[k] == i as usize;
                            assert(old_v[k] < index);
                        }
                    }
                }
            }
            index = index + 1;
        }
        v
    }
}

/// `list` names exactly the flagged cells of `flags`, in increasing order.
pub open spec fn mine_list_spec(flags: Seq<bool>, list: Seq<usize>) -> bool {
    &&& forall|a: int, b: int| 0 <= a < b < list.len() ==> list[a] < list[b]
    &&& forall|k: int| 0 <= k < list.len() ==> #[trigger] list[k] < flags.len()
    &&& forall|k: int| 0 <= k < list.len() ==> flags[#[trigger] list[k] as int]
    &&& forall|i: int| 0 <= i < flags.len() && flags[i] ==> list.contains(i as usize)
}


#[derive(Debug, PartialEq, Eq)]
enum MinePlacement {
    Pending { mines: usize, seed: u64, no_guess: bool },
    Placed(MinesweeperLayout),
}

#[derive(Debug, Clone, Copy, PartialEq, Eq, Structural)]
enum MinesweeperPhase {
    Ready,
    Playing,
    Won,
    Lost { detonated_mine: usize },
}

/// A Minesweeper game. Mines are placed lazily, on the first reveal, so that the first
/// opening is safe.
#[derive(Debug, PartialEq, Eq)]
pub struct MinesweeperBoard {
    size: MinesweeperBoardSize,
    placement: MinePlacement,
    cells: Vec<MinesweeperCellState>,
    phase: MinesweeperPhase,
    detonated_mines: Vec<bool>,
}

/// Whether a player may no longer uncover this cell: it is flagged or already open.
pub open spec fn blocked_state(s: MinesweeperCellState) -> bool {
    s == MinesweeperCellState::Flagged || s == MinesweeperCellState::Revealed
}

/// The cells a flood fill may not enter, one flag per cell.
pub open spec fn blocked_cells(cells: Seq<MinesweeperCellState>) -> Seq<bool> {
    Seq::new(cells.len(), |i: int| blocked_state(cells[i]))
}

/// `cells` with every listed cell opened.
pub open spec fn reveal_all(cells: Seq<MinesweeperCellState>, revealed: Seq<usize>) -> Seq<
    MinesweeperCellState,
> {
    Seq::new(
        cells.len(),
        |i: int|
            if revealed.contains(i as usize) {
                MinesweeperCellState::Revealed
            } else {
                cells[i]
            },
    )
}

/// After a loss every mine that was not flagged is shown.
pub open spec fn lose_cells(cells: Seq<MinesweeperCellState>, mines: Seq<bool>) -> Seq<
    MinesweeperCellState,
> {
    Seq::new(
        cells.len(),
        |i: int|
            if mines[i] && cells[i] != MinesweeperCellState::Flagged {
                MinesweeperCellState::Revealed
            } else {
                cells[i]
            },
    )
}

/// After a win every still-hidden mine is flagged.
pub open spec fn win_cells(cells: Seq<MinesweeperCellState>, mines: Seq<bool>) -> Seq<
    MinesweeperCellState,
> {
    Seq::new(
        cells.len(),
        |i: int|
            if mines[i] && cells[i] == MinesweeperCellState::Hidden {
                MinesweeperCellState::Flagged
            } else {
                cells[i]
            },
    )
}

/// Every cell without a mine is open.
pub open spec fn all_safe_open(cells: Seq<MinesweeperCellState>, mines: Seq<bool>) -> bool {
    forall|i: int| 0 <= i < cells.len() ==> mines[i] || cells[i] == MinesweeperCellState::Revealed
}

/// How many cells are flagged.
pub open spec fn flagged_count_spec(cells: Seq<MinesweeperCellState>) -> nat {
    count_true(Seq::new(cells.len(), |i: int| cells[i] == MinesweeperCellState::Flagged))
}

/// How many cells are not open yet.
pub open spec fn closed_count(cells: Seq<MinesweeperCellState>) -> nat {
    count_true(Seq::new(cells.len(), |i: int| cells[i] != MinesweeperCellState::Revealed))
}

impl MinesweeperBoard {
    /// The board's internal invariant.
    pub closed spec fn wf(self) -> bool {
        let n = self.size.w() * self.size.h();
        &&& self.size.size_inv()
        &&& self.cells.len() == n
        &&& self.detonated_mines.len() == n
        &&& match self.placement {
            MinePlacement::Pending { mines, .. } => mines < n,
            MinePlacement::Placed(layout) => layout.size_spec() == self.size && layout.layout_inv(),
        }
        &&& match self.phase {
            MinesweeperPhase::Lost { detonated_mine } => detonated_mine < n,
            _ => true,
        }
    }

    /// Board width.
    pub closed spec fn w(self) -> nat {
        self.size.w()
    }

    /// Board height.
    pub closed spec fn h(self) -> nat {
        self.size.h()
    }

    /// Number of cells.
    pub open spec fn n(self) -> nat {
        self.w() * self.h()
    }

    /// Whether the mines have been placed.
    pub closed spec fn placed(self) -> bool {
        self.placement is Placed
    }

    /// Which cells hold a mine; no cell does before placement.
    pub closed spec fn mine_map(self) -> Seq<bool> {
        match self.placement {
            MinePlacement::Placed(layout) => layout.mine_flags(),
            MinePlacement::Pending { .. } => Seq::new(self.n(), |i: int| false),
        }
    }

    /// Each cell's neighbouring-mine count; 0 everywhere before placement.
    pub closed spec fn adjacency(self) -> Seq<u8> {
        match self.placement {
            MinePlacement::Placed(layout) => layout.adjacency(),
            MinePlacement::Pending { .. } => Seq::new(self.n(), |i: int| 0u8),
        }
    }

    /// Before placement no cell holds a mine and every neighbour count is 0.
    pub proof fn lemma_unplaced_board(self)
        requires
            !self.placed(),
        ensures
            self.mine_map().len() == self.n(),
            self.adjacency().len() == self.n(),
            forall|i: int| 0 <= i < self.n() ==> !(#[trigger] self.mine_map()[i]) && self.adjacency()[i] == 0,
    {
    }

    /// The number of mines still to place (meaningful before placement).
    pub closed spec fn pending_mine_count(self) -> nat {
        match self.placement {
            MinePlacement::Pending { mines, .. } => mines as nat,
            MinePlacement::Placed(_) => 0,
        }
    }

    /// The seed mines will be placed with (meaningful before placement).
    pub closed spec fn pending_seed(self) -> u64 {
        match self.placement {
            MinePlacement::Pending { seed, .. } => seed,
            MinePlacement::Placed(_) => 0,
        }
    }

    /// Whether mines will be placed so that the game needs no guess.
    pub closed spec fn pending_no_guess(self) -> bool {
        match self.placement {
            MinePlacement::Pending { no_guess, .. } => no_guess,
            MinePlacement::Placed(_) => false,
        }
    }

    /// The player's marks on each cell.
    pub closed spec fn cell_states(self) -> Seq<MinesweeperCellState> {
        self.cells@
    }

    /// The game's status.
    pub closed spec fn status_spec(self) -> MinesweeperStatus {
        match self.phase {
            MinesweeperPhase::Ready => MinesweeperStatus::Ready,
            MinesweeperPhase::Playing => MinesweeperStatus::Playing,
            MinesweeperPhase::Won => MinesweeperStatus::Won,
            MinesweeperPhase::Lost { .. } => MinesweeperStatus::Lost,
        }
    }

    /// The mine that ended a lost game.
    pub closed spec fn lost_mine(self) -> Option<nat> {
        match self.phase {
            MinesweeperPhase::Lost { detonated_mine } => Some(detonated_mine as nat),
            _ => None,
        }
    }

    /// Mines set off in a multiplayer race without ending the game.
    pub closed spec fn detonated_map(self) -> Seq<bool> {
        self.detonated_mines@
    }

    /// The board's geometry and counts agree with each other.
    pub open spec fn consistent(self) -> bool {
        &&& self.w() > 0
        &&& self.h() > 0
        &&& self.n() <= usize::MAX
        &&& self.mine_map().len() == self.n()
        &&& self.adjacency().len() == self.n()
        &&& self.cell_states().len() == self.n()
        &&& self.detonated_map().len() == self.n()
        &&& !self.placed() ==> self.pending_mine_count() < self.n()
        &&& self.lost_mine() is Some ==> self.status_spec() == MinesweeperStatus::Lost
            && self.lost_mine().unwrap() < self.n()
        &&& forall|i: int|
            0 <= i < self.n() ==> #[trigger] self.adjacency()[i] == adjacent_spec(
                self.w() as int,
                self.h() as int,
                self.mine_map(),
                i,
            )
    }

    /// The mines, their counts and the game's progress are the same on both boards.
    pub open spec fn same_game(self, other: Self) -> bool {
        &&& self.w() == other.w()
        &&& self.h() == other.h()
        &&& self.placed() == other.placed()
        &&& self.mine_map() == other.mine_map()
        &&& self.adjacency() == other.adjacency()
        &&& self.pending_mine_count() == other.pending_mine_count()
        &&& self.pending_seed() == other.pending_seed()
        &&& self.pending_no_guess() == other.pending_no_guess()
        &&& self.status_spec() == other.status_spec()
        &&& self.lost_mine() == other.lost_mine()
        &&& self.detonated_map() == other.detonated_map()
    }

    /// What the player sees of a mine cell.
    pub open spec fn mine_state_spec(self, i: int) -> MinesweeperMineCellState {
        if self.detonated_map()[i] || self.lost_mine() == Some(i as nat) {
            MinesweeperMineCellState::Detonated
        } else {
            match self.cell_states()[i] {
                MinesweeperCellState::Hidden => MinesweeperMineCellState::Hidden,
                MinesweeperCellState::Question => MinesweeperMineCellState::Hidden,
                MinesweeperCellState::Flagged => MinesweeperMineCellState::Flagged,
                MinesweeperCellState::Revealed => MinesweeperMineCellState::Revealed,
            }
        }
    }

    /// What the player sees of cell `i`.
    pub open spec fn cell_spec(self, i: int) -> MinesweeperCell {
        if self.mine_map()[i] {
            MinesweeperCell::Mine { state: self.mine_state_spec(i) }
        } else {
            MinesweeperCell::Safe {
                adjacent_mines: self.adjacency()[i],
                state: self.cell_states()[i],
            }
        }
    }

    /// A well-formed board is consistent.
    pub proof fn lemma_consistent(self)
        requires
            self.wf(),
        ensures
            self.consistent(),
    {
        assert(self.w() * self.h() > 0) by (nonlinear_arith)
            requires
                self.w() > 0,
                self.h() > 0,
        ;
        if !self.placed() {
            assert forall|i: int| 0 <= i < self.n() implies #[trigger] self.adjacency()[i]
                == adjacent_spec(self.w() as int, self.h() as int, self.mine_map(), i) by {
                let nb = neighbor_seq(self.w() as int, self.h() as int, i);
                lemma_neighbor_seq_bound(self.w() as int, self.h() as int, i);
                lemma_count_flagged_none(self.mine_map(), nb);
            }
        }
    }

    fn from_parts(size: MinesweeperBoardSize, placement: MinePlacement) -> (board: Self)
        requires
            match placement {
                MinePlacement::Pending { mines, .. } => mines < size.w() * size.h(),
                MinePlacement::Placed(layout) => layout.size_spec() == size,
            },
        ensures
            board.wf(),
            board.w() == size.w(),
            board.h() == size.h(),
            board.placement == placement,
            board.cell_states() == Seq::new(board.n(), |i: int| MinesweeperCellState::Hidden),
            board.status_spec() == MinesweeperStatus::Ready,
            board.lost_mine() is None,
            board.detonated_map() == Seq::new(board.n(), |i: int| false),
    {
        proof {
            use_type_invariant(&size);
        }
        match &placement {
            MinePlacement::Placed(layout) => {
                proof {
                    use_type_invariant(layout);
                }
            },
            MinePlacement::Pending { .. } => {},
        }
        let n = size.cell_count();
        let mut cells: Vec<MinesweeperCellState> = Vec::new();
        let mut detonated: Vec<bool> = Vec::new();
        let mut i: usize = 0;
        while i < n
            invariant
                i <= n,
                cells.len() == i,
                detonated.len() == i,
                forall|k: int| 0 <= k < i ==> cells@[k] == MinesweeperCellState::Hidden,
                forall|k: int| 0 <= k < i ==> !detonated@[k],
            decreases n - i,
        {
            cells.push(MinesweeperCellState::Hidden);
            detonated.push(false);
            i = i + 1;
        }
        let board = MinesweeperBoard {
            size,
            placement,
            cells,
            phase: MinesweeperPhase::Ready,
            detonated_mines: detonated,
        };
        proof {
            assert(board.cell_states() == Seq::new(board.n(), |i: int| MinesweeperCellState::Hidden));
            assert(board.detonated_map() == Seq::new(board.n(), |i: int| false));
        }
        board
    }

    fn new_with_generation(
        width: usize,
        height: usize,
        mines: usize,
        seed: u64,
        no_guess: bool,
    ) -> (board: Self)
        ensures
            board.wf(),
            board.consistent(),
            sanitized_dims(board, width, height),
            !board.placed(),
            board.pending_mine_count() == if mines < board.n() {
                mines as nat
            } else {
                (board.n() - 1) as nat
            },
            board.pending_seed() == if seed == 0 {
                1
            } else {
                seed
            },
            board.pending_no_guess() == no_guess,
            fresh_game(board),
    {
        let size = sanitized_minesweeper_size(width, height);
        let n = size.cell_count();
        let limit = n - 1;
        let mines = if mines < limit {
            mines
        } else {
            limit
        };
        let seed = if seed == 0 {
            1
        } else {
            seed
        };
        let board = Self::from_parts(size, MinePlacement::Pending { mines, seed, no_guess });
        proof {
            board.lemma_consistent();
        }
        board
    }

    /// A classic 30 by 16 board with 99 mines, placed on the first reveal.
    pub fn new_expert(seed: u64) -> (board: Self)
        ensures
            board.wf(),
            board.consistent(),
            board.w() == MINESWEEPER_EXPERT_WIDTH,
            board.h() == MINESWEEPER_EXPERT_HEIGHT,
            !board.placed(),
            board.pending_mine_count() == MINESWEEPER_EXPERT_MINES,
            board.pending_seed() == if seed == 0 {
                1
            } else {
                seed
            },
            !board.pending_no_guess(),
            fresh_game(board),
    {
        Self::new(MINESWEEPER_EXPERT_WIDTH, MINESWEEPER_EXPERT_HEIGHT, MINESWEEPER_EXPERT_MINES, seed)
    }

    /// A classic expert board whose mines will be placed so that it can be solved without guessing.
    pub fn new_no_guess_expert(seed: u64) -> (board: Self)
        ensures
            board.wf(),
            board.consistent(),
            board.w() == MINESWEEPER_EXPERT_WIDTH,
            board.h() == MINESWEEPER_EXPERT_HEIGHT,
            !board.placed(),
            board.pending_mine_count() == MINESWEEPER_EXPERT_MINES,
            board.pending_seed() == if seed == 0 {
                1
            } else {
                seed
            },
            board.pending_no_guess(),
            fresh_game(board),
    {
        Self::new_no_guess(
            MINESWEEPER_EXPERT_WIDTH,
            MINESWEEPER_EXPERT_HEIGHT,
            MINESWEEPER_EXPERT_MINES,
            seed,
        )
    }

    /// A board of the given size (1 by 1 when the size is unusable) with at most
    /// `cells - 1` mines, placed on the first reveal.
    pub fn new(width: usize, height: usize, mines: usize, seed: u64) -> (board: Self)
        ensures
            board.wf(),
            board.consistent(),
            sanitized_dims(board, width, height),
            !board.placed(),
            board.pending_mine_count() == if mines < board.n() {
                mines as nat
            } else {
                (board.n() - 1) as nat
            },
            board.pending_seed() == if seed == 0 {
                1
            } else {
                seed
            },
            !board.pending_no_guess(),
            fresh_game(board),
    {
        Self::new_with_generation(width, height, mines, seed, false)
    }

    /// Like `new`, but the mines will be placed so that the game needs no guess.
    pub fn new_no_guess(width: usize, height: usize, mines: usize, seed: u64) -> (board: Self)
        ensures
            board.wf(),
            board.consistent(),
            sanitized_dims(board, width, height),
            !board.placed(),
            board.pending_mine_count() == if mines < board.n() {
                mines as nat
            } else {
                (board.n() - 1) as nat
            },
            board.pending_seed() == if seed == 0 {
                1
            } else {
                seed
            },
            board.pending_no_guess(),
            fresh_game(board),
    {
        Self::new_with_generation(width, height, mines, seed, true)
    }

    /// A board with the given mines already placed; indices off the board are ignored.
    pub fn from_mines(width: usize, height: usize, mines: BTreeSet<usize>, seed: u64) -> (board: Self)
        ensures
            board.wf(),
            board.consistent(),
            sanitized_dims(board, width, height),
            board.placed(),
            board.mine_map() == Seq::new(board.n(), |i: int| mines@.contains(i as usize)),
            count_true(board.mine_map()) == indices_below(mines@, board.n()).len(),
            fresh_game(board),
    {
        let size = sanitized_minesweeper_size(width, height);
        let layout = MinesweeperLayout::from_mines(size, mines);
        let board = Self::from_parts(size, MinePlacement::Placed(layout));
        proof {
            board.lemma_consistent();
        }
        board
    }

    pub fn width(&self) -> (w: usize)
        requires
            self.wf(),
        ensures
            w == self.w(),
    {
        self.size.width()
    }

    pub fn height(&self) -> (h: usize)
        requires
            self.wf(),
        ensures
            h == self.h(),
    {
        self.size.height()
    }

    /// The number of mines: those placed, or those still to place.
    pub fn mine_count(&self) -> (n: usize)
        requires
            self.wf(),
        ensures
            n == if self.placed() {
                count_true(self.mine_map())
            } else {
                self.pending_mine_count()
            },
    {
        match &self.placement {
            MinePlacement::Pending { mines, .. } => *mines,
            MinePlacement::Placed(layout) => layout.mine_count(),
        }
    }

    pub fn cell_count(&self) -> (n: usize)
        requires
            self.wf(),
        ensures
            n == self.n(),
    {
        self.size.cell_count()
    }

    pub fn status(&self) -> (s: MinesweeperStatus)
        requires
            self.wf(),
        ensures
            s == self.status_spec(),
    {
        match self.phase {
            MinesweeperPhase::Ready => MinesweeperStatus::Ready,
            MinesweeperPhase::Playing => MinesweeperStatus::Playing,
            MinesweeperPhase::Won => MinesweeperStatus::Won,
            MinesweeperPhase::Lost { .. } => MinesweeperStatus::Lost,
        }
    }

    /// Whether the mines are still to be placed so that no guess is needed.
    pub fn is_no_guess(&self) -> (b: bool)
        requires
            self.wf(),
        ensures
            b == (!self.placed() && self.pending_no_guess()),
    {
        matches!(self.placement, MinePlacement::Pending { no_guess: true, .. })
    }

    pub fn mines_placed(&self) -> (b: bool)
        requires
            self.wf(),
        ensures
            b == self.placed(),
    {
        matches!(self.placement, MinePlacement::Placed(_))
    }

    /// Starts the clock of a game that has not started yet.
    pub fn set_playing(&mut self)
        requires
            old(self).wf(),
        ensures
            final(self).wf(),
            final(self).status_spec() == if old(self).status_spec() == MinesweeperStatus::Ready {
                MinesweeperStatus::Playing
            } else {
                old(self).status_spec()
            },
            final(self).cell_states() == old(self).cell_states(),
            final(self).mine_map() == old(self).mine_map(),
            final(self).adjacency() == old(self).adjacency(),
            final(self).placed() == old(self).placed(),
            final(self).lost_mine() == old(self).lost_mine(),
            final(self).detonated_map() == old(self).detonated_map(),
            final(self).w() == old(self).w(),
            final(self).h() == old(self).h(),
    {
        if matches!(self.phase, MinesweeperPhase::Ready) {
            self.phase = MinesweeperPhase::Playing;
        }
    }

    pub fn is_mine(&self, index: usize) -> (b: bool)
        requires
            self.wf(),
        ensures
            b == (index < self.n() && self.mine_map()[index as int]),
    {
        proof {
            self.lemma_consistent();
        }
        match &self.placement {
            MinePlacement::Pending { .. } => false,
            MinePlacement::Placed(layout) => layout.is_mine(index),
        }
    }

    pub fn adjacent_mines(&self, index: usize) -> (c: u8)
        requires
            self.wf(),
        ensures
            c == if index < self.n() {
                self.adjacency()[index as int]
            } else {
                0
            },
    {
        proof {
            self.lemma_consistent();
        }
        match &self.placement {
            MinePlacement::Pending { .. } => 0,
            MinePlacement::Placed(layout) => layout.adjacent_mines(index),
        }
    }

    fn mine_cell_state(&self, index: usize) -> (s: MinesweeperMineCellState)
        requires
            self.wf(),
            index < self.n(),
        ensures
            s == self.mine_state_spec(index as int),
    {
        proof {
            self.lemma_consistent();
        }
        let lost_here = match self.phase {
            MinesweeperPhase::Lost { detonated_mine } => detonated_mine == index,
            _ => false,
        };
        if self.detonated_mines[index] || lost_here {
            return MinesweeperMineCellState::Detonated;
        }
        match self.cells[index] {
            MinesweeperCellState::Hidden => MinesweeperMineCellState::Hidden,
            MinesweeperCellState::Question => MinesweeperMineCellState::Hidden,
            MinesweeperCellState::Flagged => MinesweeperMineCellState::Flagged,
            MinesweeperCellState::Revealed => MinesweeperMineCellState::Revealed,
        }
    }

    /// What the player sees of a cell, or `None` off the board.
    pub fn cell(&self, index: usize) -> (c: Option<MinesweeperCell>)
        requires
            self.wf(),
        ensures
            c is Some <==> index < self.n(),
            c matches Some(cell) ==> cell == self.cell_spec(index as int),
    {
        proof {
            self.lemma_consistent();
        }
        if index >= self.cells.len() {
            return None;
        }
        let state = self.cells[index];
        if self.is_mine(index) {
            Some(MinesweeperCell::mine_cell(self.mine_cell_state(index)))
        } else {
            Some(MinesweeperCell::safe(self.adjacent_mines(index), state))
        }
    }

    /// Every cell as the player sees it, in index order.
    pub fn cells(&self) -> (v: Vec<MinesweeperCell>)
        requires
            self.wf(),
        ensures
            v@ == Seq::new(self.n(), |i: int| self.cell_spec(i)),
    {
        proof {
            self.lemma_consistent();
        }
        let n = self.cell_count();
        let mut v: Vec<MinesweeperCell> = Vec::new();
        let mut i: usize = 0;
        while i < n
            invariant
                self.wf(),
                i <= n,
                n == self.n(),
                v.len() == i,
                forall|k: int| 0 <= k < i ==> v@[k] == self.cell_spec(k),
            decreases n - i,
        {
            match self.cell(i) {
                Some(c) => v.push(c),
                None => {},
            }
            i = i + 1;
        }
        proof {
            assert(v@ == Seq::new(self.n(), |i: int| self.cell_spec(i)));
        }
        v
    }

    /// The player's mark on a cell, or `None` off the board.
    pub fn cell_state(&self, index: usize) -> (s: Option<MinesweeperCellState>)
        requires
            self.wf(),
        ensures
            s is Some <==> index < self.n(),
            s matches Some(st) ==> st == self.cell_states()[index as int],
    {
        proof {
            self.lemma_consistent();
        }
        if index < self.cells.len() {
            Some(self.cells[index])
        } else {
            None
        }
    }

    /// Sets off a mine without ending the game (used by multiplayer races); returns whether
    /// the cell was a mine.
    pub fn detonate_mine(&mut self, index: usize) -> (b: bool)
        requires
            old(self).wf(),
        ensures
            final(self).wf(),
            b == (index < old(self).n() && old(self).mine_map()[index as int]),
            !old(self).placed() ==> !b,
            b ==> final(self).cell_states() == old(self).cell_states().update(
                index as int,
                MinesweeperCellState::Revealed,
            ) && final(self).detonated_map() == old(self).detonated_map().update(
                index as int,
                true,
            ),
            !b ==> final(self).cell_states() == old(self).cell_states()
                && final(self).detonated_map() == old(self).detonated_map(),
            final(self).w() == old(self).w(),
            final(self).h() == old(self).h(),
            final(self).placed() == old(self).placed(),
            final(self).mine_map() == old(self).mine_map(),
            final(self).adjacency() == old(self).adjacency(),
            final(self).pending_mine_count() == old(self).pending_mine_count(),
            final(self).pending_seed() == old(self).pending_seed(),
            final(self).pending_no_guess() == old(self).pending_no_guess(),
            final(self).status_spec() == old(self).status_spec(),
            final(self).lost_mine() == old(self).lost_mine(),
    {
        proof {
            self.lemma_consistent();
        }
        if !self.is_mine(index) {
            return false;
        }
        self.cells.set(index, MinesweeperCellState::Revealed);
        self.detonated_mines.set(index, true);
        true
    }

    /// The mine cells in increasing order; none before placement.
    pub fn mine_indices(&self) -> (v: Vec<usize>)
        requires
            self.wf(),
        ensures
            mine_list_spec(self.mine_map(), v@),
    {
        proof {
            self.lemma_consistent();
        }
        match &self.placement {
            MinePlacement::Pending { .. } => Vec::new(),
            MinePlacement::Placed(layout) => layout.mine_indices(),
        }
    }

    pub fn index(&self, row: usize, col: usize) -> (res: Option<usize>)
        requires
            self.wf(),
        ensures
            res is Some <==> (row < self.h() && col < self.w()),
            res matches Some(i) ==> i == row * self.w() + col && i < self.n(),
    {
        self.size.index(row, col)
    }

    pub fn row_col(&self, index: usize) -> (res: Option<(usize, usize)>)
        requires
            self.wf(),
        ensures
            res is Some <==> index < self.n(),
            res matches Some(rc) ==> rc.0 == (index as nat) / self.w() && rc.1 == (index as nat)
                % self.w(),
    {
        self.size.row_col(index)
    }

    /// The number of flagged cells.
    pub fn flagged_count(&self) -> (c: usize)
        requires
            self.wf(),
        ensures
            c == flagged_count_spec(self.cell_states()),
    {
        let ghost flags = Seq::new(
            self.cells@.len(),
            |i: int| self.cells@[i] == MinesweeperCellState::Flagged,
        );
        let mut count: usize = 0;
        let mut i: usize = 0;
        while i < self.cells.len()
            invariant
                i <= self.cells.len(),
                flags == Seq::new(
                    self.cells@.len(),
                    |i: int| self.cells@[i] == MinesweeperCellState::Flagged,
                ),
                count == count_true(flags.take(i as int)),
                count <= i,
            decreases self.cells.len() - i,
        {
            proof {
                assert(flags.take(i + 1).drop_last() == flags.take(i as int));
            }
            if self.cells[i] == MinesweeperCellState::Flagged {
                count = count + 1;
            }
            i = i + 1;
        }
        proof {
            assert(flags.take(i as int) == flags);
        }
        count
    }

    /// Mines minus flags, each first capped at `i32::MAX`; may go negative.
    pub fn remaining_mines(&self) -> (r: i32)
        requires
            self.wf(),
        ensures
            r == {
                let mines = if self.placed() {
                    count_true(self.mine_map())
                } else {
                    self.pending_mine_count()
                };
                let m = if mines <= i32::MAX {
                    mines as int
                } else {
                    i32::MAX as int
                };
                let f = if flagged_count_spec(self.cell_states()) <= i32::MAX {
                    flagged_count_spec(self.cell_states()) as int
                } else {
                    i32::MAX as int
                };
                m - f
            },
    {
        let mine_total = self.mine_count();
        let flagged_total = self.flagged_count();
        let mines: i32 = if mine_total <= 2147483647 {
            mine_total as i32
        } else {
            2147483647
        };
        let flagged: i32 = if flagged_total <= 2147483647 {
            flagged_total as i32
        } else {
            2147483647
        };
        mines - flagged
    }

    /// The neighbours of a cell in row-major order; none off the board.
    pub fn neighbors(&self, index: usize) -> (v: Vec<usize>)
        requires
            self.wf(),
        ensures
            v@ == neighbor_seq(self.w() as int, self.h() as int, index as int),
            forall|k: int| 0 <= k < v.len() ==> (#[trigger] v@[k]) < self.n(),
            forall|a: int, b: int| 0 <= a < b < v.len() ==> v@[a] < v@[b],
            index >= self.n() ==> v.len() == 0,
            index < self.n() ==> forall|j: usize|
                #[trigger] v@.contains(j) <==> (j < self.n() && j != index && -1 <= j as int / self.w() as int - index as int
                    / self.w() as int <= 1 && -1 <= j as int % self.w() as int - index as int % self.w() as int <= 1),
    {
        proof {
            self.lemma_consistent();
            lemma_neighbor_seq_sorted(self.w() as int, self.h() as int, index as int);
            if index < self.n() {
                assert forall|j: usize| #[trigger] neighbor_seq(self.w() as int, self.h() as int, index as int).contains(j)
                    <==> (j < self.n() && j != index && -1 <= j as int / self.w() as int - index as int / self.w() as int
                    <= 1 && -1 <= j as int % self.w() as int - index as int % self.w() as int <= 1) by {
                    lemma_neighbor_seq_contains(self.w() as int, self.h() as int, index as int, j as int);
                }
            }
        }
        let width = self.size.width();
        let height = self.size.height();
        if index >= self.size.cell_count() {
            return Vec::new();
        }
        grid_neighbor_list(width, height, index)
    }

    fn accepts_action(&self) -> (b: bool)
        requires
            self.wf(),
        ensures
            b == (self.status_spec() == MinesweeperStatus::Ready || self.status_spec()
                == MinesweeperStatus::Playing),
    {
        matches!(self.phase, MinesweeperPhase::Ready | MinesweeperPhase::Playing)
    }
}

impl MinesweeperBoard {
    /// Uncovers `start` and, breadth first, every safe neighbour of an uncovered cell that
    /// shows no neighbouring mines; returns the uncovered cells in order.
    #[verifier::rlimit(40)]
    fn flood_reveal(&mut self, start: usize) -> (revealed: Vec<usize>)
        requires
            old(self).wf(),
            start < old(self).n(),
            !old(self).mine_map()[start as int],
            !blocked_state(old(self).cell_states()[start as int]),
        ensures
            final(self).wf(),
            final(self).same_game(*old(self)),
            flood_fill_ok(
                old(self).w() as int,
                old(self).h() as int,
                old(self).mine_map(),
                old(self).adjacency(),
                blocked_cells(old(self).cell_states()),
                seq![start],
                revealed@,
            ),
            final(self).cell_states() == reveal_all(old(self).cell_states(), revealed@),
    {
        proof {
            self.lemma_consistent();
        }
        let ghost w = self.w() as int;
        let ghost h = self.h() as int;
        let ghost m = self.mine_map();
        let ghost a = self.adjacency();
        let ghost c0 = self.cell_states();
        let ghost b0 = blocked_cells(c0);
        let ghost starts = seq![start];
        let width = self.size.width();
        let height = self.size.height();
        let mut revealed: Vec<usize> = Vec::new();
        let mut queue: Vec<usize> = Vec::new();
        queue.push(start);
        let mut head: usize = 0;
        proof {
            assert(c0 == reveal_all(c0, revealed@));
        }
        while head < queue.len()
            invariant
                self.wf(),
                self.same_game(*old(self)),
                self.consistent(),
                w == self.w(),
                h == self.h(),
                width == w,
                height == h,
                m == self.mine_map(),
                a == self.adjacency(),
                c0 == old(self).cell_states(),
                b0 == blocked_cells(c0),
                starts == seq![start],
                start < self.n(),
                !m[start as int],
                !blocked_state(c0[start as int]),
                self.cell_states() == reveal_all(c0, revealed@),
                queue.len() >= 1,
                queue@[0] == start,
                head <= queue.len(),
                forall|t: int| 0 <= t < queue.len() ==> (#[trigger] queue@[t]) < self.n(),
                forall|t: int|
                    1 <= t < queue.len() ==> has_parent(w, h, a, revealed@, #[trigger] queue@[t]),
                head == 0 ==> revealed.len() == 0,
                head > 0 ==> revealed.len() > 0 && revealed@[0] == start,
                revealed@.no_duplicates(),
                forall|k: int|
                    0 <= k < revealed.len() ==> #[trigger] revealed@[k] < w * h && !m[revealed@[k] as int]
                        && !b0[revealed@[k] as int],
                forall|k: int| 0 <= k < revealed.len() ==> #[trigger] derived(w, h, a, starts, revealed@, k),
                forall|k: int|
                    0 <= k < revealed.len() ==> #[trigger] expanded(
                        w,
                        h,
                        m,
                        a,
                        b0,
                        revealed@,
                        queue@.subrange(head as int, queue.len() as int),
                        k,
                    ),
            decreases closed_count(self.cell_states()), queue.len() - head,
        {
            let next = queue[head];
            let ghost old_head = head as int;
            let ghost old_queue = queue@;
            let ghost old_rev = revealed@;
            let ghost old_cells = self.cell_states();
            head = head + 1;
            let blocked_now = self.is_mine(next) || self.cells[next] == MinesweeperCellState::Flagged
                || self.cells[next] == MinesweeperCellState::Revealed;
            if blocked_now {
                proof {
                    if old_head == 0 {
                        assert(next == start);
                        assert(old_rev.len() == 0);
                        assert(!old_rev.contains(next));
                        assert(old_cells[next as int] == c0[next as int]);
                    }
                    let pend_old = old_queue.subrange(old_head, old_queue.len() as int);
                    let pend_new = queue@.subrange(head as int, queue.len() as int);
                    assert forall|k: int| 0 <= k < revealed.len() implies #[trigger] expanded(
                        w,
                        h,
                        m,
                        a,
                        b0,
                        revealed@,
                        pend_new,
                        k,
                    ) by {
                        assert(expanded(w, h, m, a, b0, revealed@, pend_old, k));
                        let nbs = neighbor_seq(w, h, revealed@[k] as int);
                        if a[revealed@[k] as int] == 0 {
                            assert forall|t: int| 0 <= t < nbs.len() implies covered(
                                m,
                                b0,
                                revealed@,
                                pend_new,
                                #[trigger] nbs[t],
                            ) by {
                                let nb = nbs[t];
                                assert(covered(m, b0, revealed@, pend_old, nb));
                                lemma_neighbor_seq_bound(w, h, revealed@[k] as int);
                                if pend_old.contains(nb) && !m[nb as int] && !b0[nb as int]
                                    && !revealed@.contains(nb) {
                                    let p = choose|p: int| 0 <= p < pend_old.len() && pend_old[p] == nb;
                                    if p == 0 {
                                        assert(nb == next);
                                        assert(old_cells[next as int] == c0[next as int]);
                                    } else {
                                        assert(pend_new[p - 1] == nb);
                                    }
                                }
                            }
                        }
                    }
                }
            } else {
                proof {
                    assert(!old_rev.contains(next));
                    assert(old_cells[next as int] == c0[next as int]);
                    let cm = Seq::new(old_cells.len(), |i: int| old_cells[i] != MinesweeperCellState::Revealed);
                    lemma_count_true_clear(cm, next as int);
                }
                self.cells.set(next, MinesweeperCellState::Revealed);
                revealed.push(next);
                proof {
                    let cm = Seq::new(old_cells.len(), |i: int| old_cells[i] != MinesweeperCellState::Revealed);
                    assert(Seq::new(self.cell_states().len(), |i: int| self.cell_states()[i] != MinesweeperCellState::Revealed) == cm.update(next as int, false));
                    assert(self.cell_states() == reveal_all(c0, revealed@)) by {
                        assert forall|i: int| 0 <= i < c0.len() implies self.cell_states()[i] == reveal_all(c0, revealed@)[i] by {
                            if i == next as int {
                                assert(revealed@[revealed.len() - 1] == next);
                            } else {
                                if revealed@.contains(i as usize) {
                                    let k = choose|k: int| 0 <= k < revealed.len() && revealed@[k] == i as usize;
                                    assert(old_rev[k] == i as usize);
                                }
                                if old_rev.contains(i as usize) {
                                    let k = choose|k: int| 0 <= k < old_rev.len() && old_rev[k] == i as usize;
                                    assert(revealed@[k] == i as usize);
                                }
                            }
                        }
                    }
                    assert forall|x: usize| #[trigger] has_parent(w, h, a, old_rev, x) implies has_parent(
                        w,
                        h,
                        a,
                        revealed@,
                        x,
                    ) by {
                        let j = choose|j: int|
                            0 <= j < old_rev.len() && a[old_rev[j] as int] == 0 && #[trigger] neighbor_seq(
                                w,
                                h,
                                old_rev[j] as int,
                            ).contains(x);
                        assert(revealed@[j] == old_rev[j]);
                    }
                    assert(revealed@.take(old_rev.len() as int) == old_rev);
                    assert forall|k: int| 0 <= k < revealed.len() implies #[trigger] derived(
                        w,
                        h,
                        a,
                        starts,
                        revealed@,
                        k,
                    ) by {
                        if k < old_rev.len() {
                            assert(derived(w, h, a, starts, old_rev, k));
                            assert(revealed@.take(k) == old_rev.take(k));
                        } else if old_head == 0 {
                            assert(starts[0] == next);
                        } else {
                            assert(has_parent(w, h, a, old_rev, old_queue[old_head]));
                        }
                    }
                }
                if self.adjacent_mines(next) == 0 {
                    let neighbors = grid_neighbor_list(width, height, next);
                    let ghost q1 = queue@;
                    let mut t: usize = 0;
                    while t < neighbors.len()
                        invariant
                            self.wf(),
                            self.same_game(*old(self)),
                            self.consistent(),
                            w == self.w(),
                            h == self.h(),
                            m == self.mine_map(),
                            a == self.adjacency(),
                            self.cell_states() == reveal_all(c0, revealed@),
                            c0.len() == self.n(),
                            b0 == blocked_cells(c0),
                            neighbors@ == neighbor_seq(w, h, next as int),
                            forall|k: int| 0 <= k < neighbors.len() ==> (#[trigger] neighbors@[k]) < self.n(),
                            revealed.len() > 0,
                            revealed@[revealed.len() - 1] == next,
                            a[next as int] == 0,
                            t <= neighbors.len(),
                            head <= q1.len(),
                            queue.len() >= q1.len(),
                            queue@.subrange(0, q1.len() as int) == q1,
                            forall|i: int| 0 <= i < queue.len() ==> (#[trigger] queue@[i]) < self.n(),
                            forall|i: int|
                                q1.len() <= i < queue.len() ==> neighbor_seq(w, h, next as int).contains(
                                    #[trigger] queue@[i],
                                ),
                            forall|j: int|
                                0 <= j < t ==> covered(
                                    m,
                                    b0,
                                    revealed@,
                                    queue@.subrange(head as int, queue.len() as int),
                                    #[trigger] neighbors@[j],
                                ),
                        decreases neighbors.len() - t,
                    {
                        let nb = neighbors[t];
                        let ghost qb = queue@;
                        if !self.is_mine(nb) && !(self.cells[nb] == MinesweeperCellState::Flagged
                            || self.cells[nb] == MinesweeperCellState::Revealed) {
                            queue.push(nb);
                            proof {
                                assert(neighbors@.contains(nb));
                            }
                        } else {
                            proof {
                                if !m[nb as int] {
                                    if !revealed@.contains(nb) {
                                        assert(self.cell_states()[nb as int] == c0[nb as int]);
                                        assert(b0[nb as int]);
                                    }
                                }
                                assert(covered(
                                    m,
                                    b0,
                                    revealed@,
                                    qb.subrange(head as int, qb.len() as int),
                                    nb,
                                ));
                            }
                        }
                        proof {
                            let pend = queue@.subrange(head as int, queue.len() as int);
                            let pend_b = qb.subrange(head as int, qb.len() as int);
                            assert forall|j: int| 0 <= j < t + 1 implies covered(
                                m,
                                b0,
                                revealed@,
                                pend,
                                #[trigger] neighbors@[j],
                            ) by {
                                if j < t {
                                    assert(covered(m, b0, revealed@, pend_b, neighbors@[j]));
                                    if pend_b.contains(neighbors@[j]) {
                                        let p = choose|p: int| 0 <= p < pend_b.len() && pend_b[p] == neighbors@[j];
                                        assert(pend[p] == neighbors@[j]);
                                    }
                                } else if queue.len() > qb.len() {
                                    assert(pend[pend.len() - 1] == nb);
                                }
                            }
                            assert(queue@.subrange(0, q1.len() as int) == q1);
                        }
                        t = t + 1;
                    }
                }
                proof {
                    let k_new = revealed.len() - 1;
                    let pend_old = old_queue.subrange(old_head, old_queue.len() as int);
                    let pend_new = queue@.subrange(head as int, queue.len() as int);
                    // every pending cell of the old queue other than `next` is still pending
                    assert forall|x: usize| pend_old.contains(x) && x != next implies pend_new.contains(x) by {
                        let p = choose|p: int| 0 <= p < pend_old.len() && pend_old[p] == x;
                        assert(p != 0);
                        assert(queue@[old_head + p] == old_queue[old_head + p]);
                        assert(pend_new[p - 1] == x);
                    }
                    assert forall|k: int| 0 <= k < revealed.len() implies #[trigger] expanded(
                        w,
                        h,
                        m,
                        a,
                        b0,
                        revealed@,
                        pend_new,
                        k,
                    ) by {
                        let nbs = neighbor_seq(w, h, revealed@[k] as int);
                        if k < old_rev.len() {
                            assert(revealed@[k] == old_rev[k]);
                            assert(expanded(w, h, m, a, b0, old_rev, pend_old, k));
                            if a[revealed@[k] as int] == 0 {
                                assert forall|t: int| 0 <= t < nbs.len() implies covered(
                                    m,
                                    b0,
                                    revealed@,
                                    pend_new,
                                    #[trigger] nbs[t],
                                ) by {
                                    let nb = nbs[t];
                                    assert(covered(m, b0, old_rev, pend_old, nb));
                                    if old_rev.contains(nb) {
                                        let i = choose|i: int| 0 <= i < old_rev.len() && old_rev[i] == nb;
                                        assert(revealed@[i] == nb);
                                    } else if nb == next {
                                        assert(revealed@[k_new] == nb);
                                    }
                                }
                            }
                        } else {
                            if a[next as int] == 0 {
                                assert forall|t: int| 0 <= t < nbs.len() implies covered(
                                    m,
                                    b0,
                                    revealed@,
                                    pend_new,
                                    #[trigger] nbs[t],
                                ) by {
                                }
                            }
                        }
                    }
                    assert forall|t: int| 1 <= t < queue.len() implies has_parent(
                        w,
                        h,
                        a,
                        revealed@,
                        #[trigger] queue@[t],
                    ) by {
                        if t < old_queue.len() {
                            assert(queue@[t] == old_queue[t]);
                            assert(has_parent(w, h, a, old_rev, old_queue[t]));
                        } else {
                            assert(neighbor_seq(w, h, revealed@[k_new] as int).contains(queue@[t]));
                        }
                    }
                }
            }
        }
        proof {
            assert(queue@.subrange(head as int, queue.len() as int) =~= Seq::<usize>::empty());
            assert(revealed@.contains(start)) by {
                assert(revealed@[0] == start);
            }
        }
        revealed
    }
}


/// Cell `i` is the first reveal or one of its neighbours.
pub open spec fn opening_excluded(w: int, h: int, first: int, i: int) -> bool {
    i == first || neighbor_seq(w, h, first).contains(i as usize)
}

/// The cells below `k` outside the first reveal's opening, in increasing order.
pub open spec fn opening_candidates(w: int, h: int, first: int, k: int) -> Seq<usize>
    decreases k,
{
    if k <= 0 {
        seq![]
    } else {
        opening_candidates(w, h, first, k - 1) + if opening_excluded(w, h, first, k - 1) {
            Seq::<usize>::empty()
        } else {
            seq![(k - 1) as usize]
        }
    }
}

/// The cells below `k` other than the first reveal, in increasing order.
pub open spec fn fallback_candidates(first: int, k: int) -> Seq<usize>
    decreases k,
{
    if k <= 0 {
        seq![]
    } else {
        fallback_candidates(first, k - 1) + if k - 1 == first {
            Seq::<usize>::empty()
        } else {
            seq![(k - 1) as usize]
        }
    }
}

/// The cells mines are drawn from: those outside the opening, or, when they are too few,
/// every cell but the first reveal.
pub open spec fn layout_candidates(w: int, h: int, mines: int, first: int) -> Seq<usize> {
    let c = opening_candidates(w, h, first, w * h);
    if c.len() < mines {
        fallback_candidates(first, w * h)
    } else {
        c
    }
}

/// The mines of a layout drawn with `seed`: the first `mines` candidates after shuffling.
pub open spec fn plain_layout_flags(w: int, h: int, mines: int, first: int, seed: u64) -> Seq<bool> {
    let order = shuffle_spec(layout_candidates(w, h, mines, first), seed).0;
    Seq::new((w * h) as nat, |i: int| order.take(mines).contains(i as usize))
}

/// The seed after drawing a layout.
pub open spec fn plain_layout_seed(w: int, h: int, mines: int, first: int, seed: u64) -> u64 {
    shuffle_spec(layout_candidates(w, h, mines, first), seed).1
}

pub proof fn lemma_opening_candidates(w: int, h: int, first: int, k: int)
    requires
        k <= usize::MAX,
    ensures
        opening_candidates(w, h, first, k).len() <= if k > 0 {
            k
        } else {
            0
        },
        forall|j: int|
            0 <= j < opening_candidates(w, h, first, k).len() ==> {
                let x = #[trigger] opening_candidates(w, h, first, k)[j];
                &&& x < k
                &&& !opening_excluded(w, h, first, x as int)
            },
    decreases k,
{
    if k > 0 {
        lemma_opening_candidates(w, h, first, k - 1);
        let p = opening_candidates(w, h, first, k - 1);
        let c = opening_candidates(w, h, first, k);
        assert forall|j: int| 0 <= j < c.len() implies {
            let x = #[trigger] c[j];
            &&& x < k
            &&& !opening_excluded(w, h, first, x as int)
        } by {
            if j < p.len() {
                assert(c[j] == p[j]);
            } else {
                assert(c[j] == (k - 1) as usize);
            }
        }
    }
}

pub proof fn lemma_fallback_candidates(first: int, k: int)
    requires
        0 <= first,
        k <= usize::MAX,
    ensures
        fallback_candidates(first, k).len() == if k <= 0 {
            0
        } else if first < k {
            k - 1
        } else {
            k
        },
        forall|j: int|
            0 <= j < fallback_candidates(first, k).len() ==> {
                let x = #[trigger] fallback_candidates(first, k)[j];
                &&& x < k
                &&& x != first
            },
    decreases k,
{
    if k > 0 {
        lemma_fallback_candidates(first, k - 1);
        let p = fallback_candidates(first, k - 1);
        let c = fallback_candidates(first, k);
        assert forall|j: int| 0 <= j < c.len() implies {
            let x = #[trigger] c[j];
            &&& x < k
            &&& x != first
        } by {
            if j < p.len() {
                assert(c[j] == p[j]);
            } else {
                assert(c[j] == (k - 1) as usize);
            }
        }
    }
}

/// Every cell a layout draws from is on the board, and there are enough of them.
pub proof fn lemma_layout_candidates(w: int, h: int, mines: int, first: int)
    requires
        0 <= first < w * h,
        0 <= mines < w * h,
        w * h <= usize::MAX,
    ensures
        layout_candidates(w, h, mines, first).len() >= mines,
        forall|j: int|
            0 <= j < layout_candidates(w, h, mines, first).len() ==> (#[trigger] layout_candidates(
                w,
                h,
                mines,
                first,
            )[j]) < w * h,
{
    lemma_opening_candidates(w, h, first, w * h);
    lemma_fallback_candidates(first, w * h);
}

/// A layout drawn for a first reveal never puts a mine on that cell, and leaves its
/// neighbours free of mines too whenever enough other cells remain to hold the mines.
pub proof fn lemma_layout_keeps_opening_safe(w: int, h: int, mines: int, first: int, seed: u64)
    requires
        0 < w,
        0 < h,
        w * h <= usize::MAX,
        0 <= first < w * h,
        0 <= mines < w * h,
    ensures
        !plain_layout_flags(w, h, mines, first, seed)[first],
        opening_candidates(w, h, first, w * h).len() >= mines ==> forall|i: int|
            0 <= i < w * h && opening_excluded(w, h, first, i) ==> !(#[trigger] plain_layout_flags(
                w,
                h,
                mines,
                first,
                seed,
            )[i]),
{
    let cands = layout_candidates(w, h, mines, first);
    let order = shuffle_spec(cands, seed).0;
    let flags = plain_layout_flags(w, h, mines, first, seed);
    lemma_opening_candidates(w, h, first, w * h);
    lemma_fallback_candidates(first, w * h);
    lemma_layout_candidates(w, h, mines, first);
    lemma_shuffle_from_keeps(cands, seed, cands.len() - 1);
    assert forall|i: int| 0 <= i < w * h && #[trigger] flags[i] implies cands.contains(i as usize) by {
        assert(order.take(mines).contains(i as usize));
        let k = choose|k: int| 0 <= k < order.take(mines).len() && order.take(mines)[k] == i as usize;
        assert(order[k] == i as usize);
        assert(order.contains(i as usize));
    }
    if flags[first] {
        assert(cands.contains(first as usize));
        let k = choose|k: int| 0 <= k < cands.len() && cands[k] == first as usize;
        if opening_candidates(w, h, first, w * h).len() < mines {
            assert(fallback_candidates(first, w * h)[k] != first);
        } else {
            assert(!opening_excluded(w, h, first, opening_candidates(w, h, first, w * h)[k] as int));
        }
    }
    if opening_candidates(w, h, first, w * h).len() >= mines {
        assert forall|i: int|
            0 <= i < w * h && opening_excluded(w, h, first, i) implies !(#[trigger] flags[i]) by {
            if flags[i] {
                assert(cands.contains(i as usize));
                let k = choose|k: int| 0 <= k < cands.len() && cands[k] == i as usize;
                assert(!opening_excluded(w, h, first, opening_candidates(w, h, first, w * h)[k] as int));
            }
        }
    }
}

/// The first reveal of a game never loses: placing the mines around cell `i` leaves `i`
/// free, and its neighbours too whenever enough other cells remain to hold the mines.
pub proof fn lemma_first_reveal_is_safe(before: MinesweeperBoard, after: MinesweeperBoard, i: int)
    requires
        before.wf(),
        !before.placed(),
        0 <= i < before.n(),
        placement_step(before, after, i),
    ensures
        !after.mine_map()[i],
        opening_candidates(before.w() as int, before.h() as int, i, before.n() as int).len()
            >= before.pending_mine_count() ==> forall|j: int|
            0 <= j < before.n() && opening_excluded(before.w() as int, before.h() as int, i, j)
                ==> !(#[trigger] after.mine_map()[j]),
{
    before.lemma_consistent();
    let w = before.w() as int;
    let h = before.h() as int;
    let m = before.pending_mine_count() as int;
    if before.pending_no_guess() {
        let s = choose|s: u64| after.mine_map() == plain_layout_flags(w, h, m, i, s);
        lemma_layout_keeps_opening_safe(w, h, m, i, s);
    } else {
        lemma_layout_keeps_opening_safe(w, h, m, i, before.pending_seed());
    }
}

proof fn lemma_opening_candidates_distinct(w: int, h: int, first: int, k: int)
    requires
        k <= usize::MAX,
    ensures
        opening_candidates(w, h, first, k).no_duplicates(),
    decreases k,
{
    if k > 0 {
        lemma_opening_candidates_distinct(w, h, first, k - 1);
        lemma_opening_candidates(w, h, first, k - 1);
        let p = opening_candidates(w, h, first, k - 1);
        let c = opening_candidates(w, h, first, k);
        assert forall|a: int, b: int| 0 <= a < c.len() && 0 <= b < c.len() && a != b implies c[a] != c[b] by {
            if a >= p.len() {
                assert(c[b] == p[b]);
            } else if b >= p.len() {
                assert(c[a] == p[a]);
            } else {
                assert(c[a] == p[a] && c[b] == p[b]);
            }
        }
    }
}

proof fn lemma_fallback_candidates_distinct(first: int, k: int)
    requires
        0 <= first,
        k <= usize::MAX,
    ensures
        fallback_candidates(first, k).no_duplicates(),
    decreases k,
{
    if k > 0 {
        lemma_fallback_candidates_distinct(first, k - 1);
        lemma_fallback_candidates(first, k - 1);
        let p = fallback_candidates(first, k - 1);
        let c = fallback_candidates(first, k);
        assert forall|a: int, b: int| 0 <= a < c.len() && 0 <= b < c.len() && a != b implies c[a] != c[b] by {
            if a >= p.len() {
                assert(c[b] == p[b]);
            } else if b >= p.len() {
                assert(c[a] == p[a]);
            } else {
                assert(c[a] == p[a] && c[b] == p[b]);
            }
        }
    }
}

/// A layout drawn for `mines` mines holds exactly that many.
pub proof fn lemma_layout_mine_count(w: int, h: int, mines: int, first: int, seed: u64)
    requires
        0 < w,
        0 < h,
        w * h <= usize::MAX,
        0 <= first < w * h,
        0 <= mines < w * h,
    ensures
        count_true(plain_layout_flags(w, h, mines, first, seed)) == mines,
{
    let cands = layout_candidates(w, h, mines, first);
    lemma_layout_candidates(w, h, mines, first);
    lemma_opening_candidates_distinct(w, h, first, w * h);
    lemma_fallback_candidates_distinct(first, w * h);
    assert(cands.no_duplicates());
    lemma_shuffle_from_keeps(cands, seed, cands.len() - 1);
    lemma_shuffle_from_distinct(cands, seed, cands.len() - 1);
    let order = shuffle_spec(cands, seed).0;
    let t = order.take(mines);
    assert(t.no_duplicates()) by {
        assert forall|a: int, b: int| 0 <= a < t.len() && 0 <= b < t.len() && a != b implies t[a] != t[b] by {
            assert(t[a] == order[a] && t[b] == order[b]);
        }
    }
    let n = (w * h) as nat;
    let s = t.to_set();
    assert forall|x: usize| s.contains(x) implies x < n by {
        let k = choose|k: int| 0 <= k < t.len() && t[k] == x;
        assert(order[k] == x);
        assert(order.contains(x));
        let j = choose|j: int| 0 <= j < cands.len() && cands[j] == x;
    }
    lemma_count_indices_below(s, n);
    assert(indices_below(s, n) =~= s);
    t.unique_seq_to_set();
    assert(Seq::new(n, |i: int| s.contains(i as usize)) =~= plain_layout_flags(w, h, mines, first, seed));
}

/// A list of the flagged cells is as long as there are flags.
pub proof fn lemma_mine_list_len(flags: Seq<bool>, list: Seq<usize>)
    requires
        mine_list_spec(flags, list),
        flags.len() <= usize::MAX,
    ensures
        list.len() == count_true(flags),
{
    let s = list.to_set();
    assert(list.no_duplicates()) by {
        assert forall|a: int, b: int| 0 <= a < list.len() && 0 <= b < list.len() && a != b implies list[a]
            != list[b] by {
            if a < b {
                assert(list[a] < list[b]);
            } else {
                assert(list[b] < list[a]);
            }
        }
    }
    list.unique_seq_to_set();
    lemma_count_indices_below(s, flags.len());
    assert forall|x: usize| s.contains(x) implies x < flags.len() by {
        let k = choose|k: int| 0 <= k < list.len() && list[k] == x;
    }
    assert(indices_below(s, flags.len()) =~= s);
    assert forall|i: int| 0 <= i < flags.len() implies #[trigger] flags[i] == s.contains(i as usize) by {
        if s.contains(i as usize) {
            let k = choose|k: int| 0 <= k < list.len() && list[k] == i as usize;
        }
    }
    assert(Seq::new(flags.len(), |i: int| s.contains(i as usize)) =~= flags);
}

/// Placing the mines of a game puts down exactly as many as it was set up with.
pub proof fn lemma_placed_mine_count(before: MinesweeperBoard, after: MinesweeperBoard, i: int)
    requires
        before.wf(),
        !before.placed(),
        0 <= i < before.n(),
        placement_step(before, after, i),
    ensures
        count_true(after.mine_map()) == before.pending_mine_count(),
{
    before.lemma_consistent();
    let w = before.w() as int;
    let h = before.h() as int;
    let m = before.pending_mine_count() as int;
    if before.pending_no_guess() {
        let s = choose|s: u64| after.mine_map() == plain_layout_flags(w, h, m, i, s);
        lemma_layout_mine_count(w, h, m, i, s);
    } else {
        lemma_layout_mine_count(w, h, m, i, before.pending_seed());
    }
}

impl MinesweeperBoard {
    /// Draws a layout with `seed`, keeping the first reveal (and, when there is room, its
    /// neighbours) free of mines.
    fn layout_for_seed(size: MinesweeperBoardSize, mines: usize, first_reveal: usize, seed: &mut u64) -> (layout: MinesweeperLayout)
        requires
            first_reveal < size.w() * size.h(),
            mines < size.w() * size.h(),
        ensures
            layout.size_spec() == size,
            layout.mine_flags() == plain_layout_flags(
                size.w() as int,
                size.h() as int,
                mines as int,
                first_reveal as int,
                *old(seed),
            ),
            *final(seed) == plain_layout_seed(
                size.w() as int,
                size.h() as int,
                mines as int,
                first_reveal as int,
                *old(seed),
            ),
    {
        proof {
            use_type_invariant(&size);
        }
        let n = size.cell_count();
        let width = size.width();
        let height = size.height();
        let ghost w = width as int;
        let ghost h = height as int;
        let ghost first = first_reveal as int;
        let neighbors = grid_neighbor_list(width, height, first_reveal);
        let mut excluded: Vec<bool> = Vec::new();
        let mut i: usize = 0;
        while i < n
            invariant
                i <= n,
                excluded.len() == i,
                forall|k: int| 0 <= k < i ==> !excluded@[k],
            decreases n - i,
        {
            excluded.push(false);
            i = i + 1;
        }
        excluded.set(first_reveal, true);
        let mut k: usize = 0;
        while k < neighbors.len()
            invariant
                k <= neighbors.len(),
                excluded.len() == n,
                first_reveal < n,
                forall|j: int| 0 <= j < neighbors.len() ==> (#[trigger] neighbors@[j]) < n,
                forall|x: int|
                    0 <= x < n ==> (excluded@[x] <==> (x == first_reveal || neighbors@.take(
                        k as int,
                    ).contains(x as usize))),
            decreases neighbors.len() - k,
        {
            let ghost before = excluded@;
            excluded.set(neighbors[k], true);
            proof {
                assert forall|x: int| 0 <= x < n implies (excluded@[x] <==> (x == first_reveal
                    || neighbors@.take(k + 1).contains(x as usize))) by {
                    let t0 = neighbors@.take(k as int);
                    let t1 = neighbors@.take(k + 1);
                    assert(t1 == t0.push(neighbors@[k as int]));
                    if t0.contains(x as usize) {
                        let j = choose|j: int| 0 <= j < t0.len() && t0[j] == x as usize;
                        assert(t1[j] == x as usize);
                    }
                    if x as usize == neighbors@[k as int] {
                        assert(t1[k as int] == x as usize);
                    }
                    if t1.contains(x as usize) && x as usize != neighbors@[k as int] {
                        let j = choose|j: int| 0 <= j < t1.len() && t1[j] == x as usize;
                        assert(t0[j] == x as usize);
                    }
                }
            }
            k = k + 1;
        }
        proof {
            assert(neighbors@.take(k as int) == neighbors@);
        }
        let mut candidates: Vec<usize> = Vec::new();
        let mut index: usize = 0;
        while index < n
            invariant
                index <= n,
                n == w * h,
                excluded.len() == n,
                neighbors@ == neighbor_seq(w, h, first),
                first == first_reveal,
                forall|x: int|
                    0 <= x < n ==> (excluded@[x] <==> (x == first_reveal || neighbors@.contains(
                        x as usize,
                    ))),
                candidates@ == opening_candidates(w, h, first, index as int),
            decreases n - index,
        {
            if !excluded[index] {
                candidates.push(index);
            }
            index = index + 1;
        }
        if candidates.len() < mines {
            let mut fallback: Vec<usize> = Vec::new();
            let mut index: usize = 0;
            while index < n
                invariant
                    index <= n,
                    first == first_reveal,
                    fallback@ == fallback_candidates(first, index as int),
                decreases n - index,
            {
                if index != first_reveal {
                    fallback.push(index);
                }
                index = index + 1;
            }
            candidates = fallback;
        }
        proof {
            assert(candidates@ == layout_candidates(w, h, mines as int, first));
            lemma_layout_candidates(w, h, mines as int, first);
        }
        let ghost before_shuffle = candidates@;
        shuffle_indexes(&mut candidates, seed);
        proof {
            if before_shuffle.len() > 0 {
                lemma_shuffle_from_keeps(before_shuffle, *old(seed), before_shuffle.len() - 1);
            }
            assert forall|j: int| 0 <= j < candidates.len() implies (#[trigger] candidates@[j]) < n by {
                assert(candidates@.contains(candidates@[j]));
                assert(before_shuffle.contains(candidates@[j]));
            }
        }
        let mut flags: Vec<bool> = Vec::new();
        let mut i: usize = 0;
        while i < n
            invariant
                i <= n,
                flags.len() == i,
                forall|k: int| 0 <= k < i ==> !flags@[k],
            decreases n - i,
        {
            flags.push(false);
            i = i + 1;
        }
        let mut k: usize = 0;
        while k < mines
            invariant
                k <= mines,
                mines <= candidates.len(),
                flags.len() == n,
                forall|j: int| 0 <= j < candidates.len() ==> (#[trigger] candidates@[j]) < n,
                forall|x: int| 0 <= x < n ==> (flags@[x] <==> candidates@.take(k as int).contains(x as usize)),
            decreases mines - k,
        {
            flags.set(candidates[k], true);
            proof {
                assert forall|x: int| 0 <= x < n implies (flags@[x] <==> candidates@.take(k + 1).contains(
                    x as usize,
                )) by {
                    let t0 = candidates@.take(k as int);
                    let t1 = candidates@.take(k + 1);
                    assert(t1 == t0.push(candidates@[k as int]));
                    if t0.contains(x as usize) {
                        let j = choose|j: int| 0 <= j < t0.len() && t0[j] == x as usize;
                        assert(t1[j] == x as usize);
                    }
                    if x as usize == candidates@[k as int] {
                        assert(t1[k as int] == x as usize);
                    }
                    if t1.contains(x as usize) && x as usize != candidates@[k as int] {
                        let j = choose|j: int| 0 <= j < t1.len() && t1[j] == x as usize;
                        assert(t0[j] == x as usize);
                    }
                }
            }
            k = k + 1;
        }
        proof {
            assert(flags@ == plain_layout_flags(w, h, mines as int, first, *old(seed)));
        }
        MinesweeperLayout::from_flags(size, flags)
    }

    /// Whether a player who opens `first_reveal` can clear this board by deduction alone.
    pub fn can_solve_without_guessing_from(&self, first_reveal: usize) -> (b: bool)
        requires
            self.wf(),
        ensures
            b ==> first_reveal < self.n() && !self.mine_map()[first_reveal as int],
            solver::clears_by_opening(self.w() as int, self.h() as int, self.mine_map(), self.adjacency(), first_reveal as int)
                ==> b,
            b ==> solver::solvable_without_guessing_on(
                self.w() as usize,
                self.h() as usize,
                self.mine_map(),
                self.adjacency(),
                (if self.placed() {
                    count_true(self.mine_map())
                } else {
                    self.pending_mine_count() as nat
                }) as usize,
                first_reveal,
            ),
            self.placed() && self.n() < usize::MAX && first_reveal < self.n() && !self.mine_map()[first_reveal as int]
                && !b ==> solver::stuck_on_simple_rules_on(
                self.w() as usize,
                self.h() as usize,
                self.mine_map(),
                self.adjacency(),
                count_true(self.mine_map()) as usize,
                first_reveal,
            ),
    {
        solver::can_solve_without_guessing_from(self, first_reveal)
    }

    /// Draws layouts with successive seeds until the solver clears one from the first reveal.
    fn no_guess_layout(size: MinesweeperBoardSize, first_reveal: usize, mines: usize, seed: &mut u64) -> (layout: MinesweeperLayout)
        requires
            first_reveal < size.w() * size.h(),
            mines < size.w() * size.h(),
        ensures
            layout.size_spec() == size,
            exists|k: nat|
                {
                    &&& k <= u64::MAX
                    &&& layout.mine_flags() == plain_layout_flags(
                        size.w() as int,
                        size.h() as int,
                        mines as int,
                        first_reveal as int,
                        #[trigger] nth_draw_seed(size.w() as int, size.h() as int, mines as int, first_reveal as int, *old(seed), k),
                    )
                    &&& (solver::solvable_without_guessing_on(
                        size.w() as usize,
                        size.h() as usize,
                        layout.mine_flags(),
                        layout.adjacency(),
                        count_true(layout.mine_flags()) as usize,
                        first_reveal,
                    ) || k == u64::MAX)
                },
    {
        proof {
            use_type_invariant(&size);
        }
        let ghost seed0 = *seed;
        let ghost w = size.w() as int;
        let ghost h = size.h() as int;
        let mut attempts: u64 = 0;
        while attempts < u64::MAX
            invariant
                first_reveal < size.w() * size.h(),
                mines < size.w() * size.h(),
                size.size_inv(),
                w == size.w() as int,
                h == size.h() as int,
                *seed == nth_draw_seed(w, h, mines as int, first_reveal as int, seed0, attempts as nat),
                seed0 == *old(seed),
            decreases u64::MAX - attempts,
        {
            let ghost s = *seed;
            let layout = Self::layout_for_seed(size, mines, first_reveal, seed);
            proof {
                use_type_invariant(&layout);
                use_type_invariant(&size);
                assert(*seed == nth_draw_seed(w, h, mines as int, first_reveal as int, seed0, (attempts + 1) as nat));
            }
            if solver::can_solve_without_guessing(
                size.width(),
                size.height(),
                &layout.mines,
                &layout.adjacent_mines,
                layout.mine_total,
                first_reveal,
            ) {
                proof {
                    assert(layout.mine_flags() == layout.mines@);
                    assert(layout.adjacency() == layout.adjacent_mines@);
                }
                return layout;
            }
            attempts = attempts + 1;
        }
        let ghost s = *seed;
        let layout = Self::layout_for_seed(size, mines, first_reveal, seed);
        proof {
            assert(s == nth_draw_seed(w, h, mines as int, first_reveal as int, seed0, u64::MAX as nat));
            assert(layout.mine_flags() == plain_layout_flags(w, h, mines as int, first_reveal as int, nth_draw_seed(w, h, mines as int, first_reveal as int, seed0, u64::MAX as nat)));
        }
        layout
    }
}

/// The seed after `k` draws of a layout, starting from `seed`.
pub open spec fn nth_draw_seed(w: int, h: int, mines: int, first: int, seed: u64, k: nat) -> u64
    decreases k,
{
    if k == 0 {
        seed
    } else {
        plain_layout_seed(w, h, mines, first, nth_draw_seed(w, h, mines, first, seed, (k - 1) as nat))
    }
}

/// `new` is `old` with its mines placed around `first`: unchanged if they were placed,
/// drawn from the pending seed for an ordinary board, and, for a board that must need no
/// guess, one of the successive draws from the pending seed that is solvable without
/// guessing, unless it is the last draw of the bounded search.
pub open spec fn placement_step(old: MinesweeperBoard, new: MinesweeperBoard, first: int) -> bool {
    &&& new.w() == old.w()
    &&& new.h() == old.h()
    &&& new.placed()
    &&& old.placed() ==> new.mine_map() == old.mine_map() && new.adjacency() == old.adjacency()
    &&& !old.placed() && !old.pending_no_guess() ==> new.mine_map() == plain_layout_flags(
        old.w() as int,
        old.h() as int,
        old.pending_mine_count() as int,
        first,
        old.pending_seed(),
    )
    &&& !old.placed() && old.pending_no_guess() ==> exists|k: nat|
        {
            &&& k <= u64::MAX
            &&& new.mine_map() == plain_layout_flags(
                old.w() as int,
                old.h() as int,
                old.pending_mine_count() as int,
                first,
                #[trigger] nth_draw_seed(
                    old.w() as int,
                    old.h() as int,
                    old.pending_mine_count() as int,
                    first,
                    old.pending_seed(),
                    k,
                ),
            )
            &&& (solver::solvable_without_guessing_on(
                new.w() as usize,
                new.h() as usize,
                new.mine_map(),
                new.adjacency(),
                count_true(new.mine_map()) as usize,
                first as usize,
            ) || k == u64::MAX)
        }
}

impl MinesweeperBoard {
    fn place_mines(&mut self, first_reveal: usize)
        requires
            old(self).wf(),
            first_reveal < old(self).n(),
        ensures
            final(self).wf(),
            placement_step(*old(self), *final(self), first_reveal as int),
            final(self).cell_states() == old(self).cell_states(),
            final(self).status_spec() == old(self).status_spec(),
            final(self).lost_mine() == old(self).lost_mine(),
            final(self).detonated_map() == old(self).detonated_map(),
    {
        let (mines, seed, no_guess) = match &self.placement {
            MinePlacement::Pending { mines, seed, no_guess } => (*mines, *seed, *no_guess),
            MinePlacement::Placed(_) => {
                return;
            },
        };
        let mut seed = seed;
        let ghost seed_before = seed;
        let layout = if no_guess {
            Self::no_guess_layout(self.size, first_reveal, mines, &mut seed)
        } else {
            Self::layout_for_seed(self.size, mines, first_reveal, &mut seed)
        };
        proof {
            use_type_invariant(&layout);
            use_type_invariant(&self.size);
        }
        let ghost old_self = *self;
        self.placement = MinePlacement::Placed(layout);
        proof {
            assert(self.mine_map() == layout.mine_flags());
            assert(old_self.pending_mine_count() == mines);
            assert(old_self.pending_seed() == seed_before);
            assert(old_self.pending_no_guess() == no_guess);
        }
    }

    /// Uncovers the safe area around a cell (placing mines first if needed) without checking
    /// whether the game accepts moves; returns the uncovered cells, none when the cell is off
    /// the board, a mine, flagged, or already open.
    pub fn reveal_safe_cells(&mut self, index: usize) -> (revealed: Vec<usize>)
        requires
            old(self).wf(),
        ensures
            final(self).wf(),
            index >= old(self).n() ==> revealed@.len() == 0 && *final(self) == *old(self),
            index < old(self).n() ==> {
                &&& placement_step(*old(self), *final(self), index as int)
                &&& flood_fill_ok(
                    final(self).w() as int,
                    final(self).h() as int,
                    final(self).mine_map(),
                    final(self).adjacency(),
                    blocked_cells(old(self).cell_states()),
                    seq![index],
                    revealed@,
                )
                &&& final(self).cell_states() == reveal_all(old(self).cell_states(), revealed@)
                &&& final(self).status_spec() == old(self).status_spec()
                &&& final(self).lost_mine() == old(self).lost_mine()
                &&& final(self).detonated_map() == old(self).detonated_map()
            },
    {
        proof {
            self.lemma_consistent();
        }
        if index >= self.size.cell_count() {
            return Vec::new();
        }
        if !self.mines_placed() {
            self.place_mines(index);
        }
        proof {
            self.lemma_consistent();
        }
        if self.is_mine(index) || self.cells[index] == MinesweeperCellState::Flagged
            || self.cells[index] == MinesweeperCellState::Revealed {
            proof {
                let ghost none: Seq<usize> = seq![];
                assert(none.no_duplicates());
            }
            return Vec::new();
        }
        self.flood_reveal(index)
    }

    fn reveal_safe_area(&mut self, index: usize) -> (changed: bool)
        requires
            old(self).wf(),
        ensures
            final(self).wf(),
            index >= old(self).n() ==> !changed && *final(self) == *old(self),
            index < old(self).n() ==> exists|revealed: Seq<usize>| {
                &&& placement_step(*old(self), *final(self), index as int)
                &&& flood_fill_ok(
                    final(self).w() as int,
                    final(self).h() as int,
                    final(self).mine_map(),
                    final(self).adjacency(),
                    blocked_cells(old(self).cell_states()),
                    seq![index],
                    revealed,
                )
                &&& final(self).cell_states() == reveal_all(old(self).cell_states(), revealed)
                &&& changed == (revealed.len() > 0)
            },
            final(self).status_spec() == old(self).status_spec(),
            final(self).lost_mine() == old(self).lost_mine(),
            final(self).detonated_map() == old(self).detonated_map(),
    {
        let revealed = self.reveal_safe_cells(index);
        revealed.len() > 0
    }

    /// Whether every cell without a mine is open.
    pub fn all_safe_cells_revealed(&self) -> (b: bool)
        requires
            self.wf(),
        ensures
            b == all_safe_open(self.cell_states(), self.mine_map()),
    {
        proof {
            self.lemma_consistent();
        }
        let mut i: usize = 0;
        while i < self.cells.len()
            invariant
                self.wf(),
                self.consistent(),
                i <= self.cells.len(),
                forall|k: int|
                    0 <= k < i ==> self.mine_map()[k] || self.cell_states()[k]
                        == MinesweeperCellState::Revealed,
            decreases self.cells.len() - i,
        {
            if !self.is_mine(i) && self.cells[i] != MinesweeperCellState::Revealed {
                return false;
            }
            i = i + 1;
        }
        true
    }

    /// Ends a game in which every safe cell is open: flags the hidden mines and declares the win.
    fn update_win_status(&mut self)
        requires
            old(self).wf(),
        ensures
            final(self).wf(),
            final(self).w() == old(self).w(),
            final(self).h() == old(self).h(),
            final(self).placed() == old(self).placed(),
            final(self).mine_map() == old(self).mine_map(),
            final(self).adjacency() == old(self).adjacency(),
            final(self).detonated_map() == old(self).detonated_map(),
            final(self).lost_mine() == old(self).lost_mine(),
            if old(self).status_spec() != MinesweeperStatus::Lost && all_safe_open(
                old(self).cell_states(),
                old(self).mine_map(),
            ) {
                &&& final(self).cell_states() == win_cells(
                    old(self).cell_states(),
                    old(self).mine_map(),
                )
                &&& final(self).status_spec() == MinesweeperStatus::Won
            } else {
                &&& final(self).cell_states() == old(self).cell_states()
                &&& final(self).status_spec() == old(self).status_spec()
            },
    {
        proof {
            self.lemma_consistent();
        }
        if matches!(self.phase, MinesweeperPhase::Lost { .. }) {
            return;
        }
        if self.all_safe_cells_revealed() {
            let mines = self.mine_indices();
            let ghost c0 = self.cell_states();
            let ghost m = self.mine_map();
            let mut k: usize = 0;
            while k < mines.len()
                invariant
                    self.wf(),
                    self.consistent(),
                    self.w() == old(self).w(),
                    self.h() == old(self).h(),
                    self.placed() == old(self).placed(),
                    m == self.mine_map(),
                    self.adjacency() == old(self).adjacency(),
                    self.detonated_map() == old(self).detonated_map(),
                    self.phase == old(self).phase,
                    k <= mines.len(),
                    mine_list_spec(m, mines@),
                    c0.len() == self.n(),
                    forall|i: int|
                        0 <= i < c0.len() ==> #[trigger] self.cell_states()[i] == if mines@.take(
                            k as int,
                        ).contains(i as usize) {
                            win_cells(c0, m)[i]
                        } else {
                            c0[i]
                        },
                decreases mines.len() - k,
            {
                let index = mines[k];
                if self.cells[index] == MinesweeperCellState::Hidden {
                    self.cells.set(index, MinesweeperCellState::Flagged);
                }
                proof {
                    let t0 = mines@.take(k as int);
                    let t1 = mines@.take(k + 1);
                    assert(t1 == t0.push(index));
                    assert(!t0.contains(index)) by {
                        if t0.contains(index) {
                            let j = choose|j: int| 0 <= j < t0.len() && t0[j] == index;
                            assert(mines@[j] < mines@[k as int]);
                        }
                    }
                    assert forall|i: int| 0 <= i < c0.len() implies #[trigger] self.cell_states()[i]
                        == if t1.contains(i as usize) {
                        win_cells(c0, m)[i]
                    } else {
                        c0[i]
                    } by {
                        if t0.contains(i as usize) {
                            let j = choose|j: int| 0 <= j < t0.len() && t0[j] == i as usize;
                            assert(t1[j] == i as usize);
                        }
                        if t1.contains(i as usize) && i as usize != index {
                            let j = choose|j: int| 0 <= j < t1.len() && t1[j] == i as usize;
                            assert(t0[j] == i as usize);
                        }
                        if i as usize == index {
                            assert(t1[k as int] == index);
                            assert(m[i]);
                        }
                    }
                }
                k = k + 1;
            }
            proof {
                assert(mines@.take(k as int) == mines@);
                assert(self.cell_states() == win_cells(c0, m)) by {
                    assert forall|i: int| 0 <= i < c0.len() implies self.cell_states()[i] == win_cells(c0, m)[i] by {
                        if !mines@.contains(i as usize) {
                            assert(!m[i]);
                        }
                    }
                }
            }
            self.phase = MinesweeperPhase::Won;
        }
    }

    /// Ends the game at a mine: shows every mine that was not flagged.
    fn lose(&mut self, detonated_mine: usize)
        requires
            old(self).wf(),
            detonated_mine < old(self).n(),
        ensures
            final(self).wf(),
            final(self).w() == old(self).w(),
            final(self).h() == old(self).h(),
            final(self).placed() == old(self).placed(),
            final(self).mine_map() == old(self).mine_map(),
            final(self).adjacency() == old(self).adjacency(),
            final(self).detonated_map() == old(self).detonated_map(),
            final(self).cell_states() == lose_cells(old(self).cell_states(), old(self).mine_map()),
            final(self).status_spec() == MinesweeperStatus::Lost,
            final(self).lost_mine() == Some(detonated_mine as nat),
    {
        proof {
            self.lemma_consistent();
        }
        let mines = self.mine_indices();
        let ghost c0 = self.cell_states();
        let ghost m = self.mine_map();
        let mut k: usize = 0;
        while k < mines.len()
            invariant
                self.wf(),
                self.consistent(),
                self.w() == old(self).w(),
                self.h() == old(self).h(),
                self.placed() == old(self).placed(),
                m == self.mine_map(),
                self.adjacency() == old(self).adjacency(),
                self.detonated_map() == old(self).detonated_map(),
                detonated_mine < self.n(),
                k <= mines.len(),
                mine_list_spec(m, mines@),
                c0.len() == self.n(),
                forall|i: int|
                    0 <= i < c0.len() ==> #[trigger] self.cell_states()[i] == if mines@.take(
                        k as int,
                    ).contains(i as usize) {
                        lose_cells(c0, m)[i]
                    } else {
                        c0[i]
                    },
            decreases mines.len() - k,
        {
            let index = mines[k];
            if self.cells[index] != MinesweeperCellState::Flagged {
                self.cells.set(index, MinesweeperCellState::Revealed);
            }
            proof {
                let t0 = mines@.take(k as int);
                let t1 = mines@.take(k + 1);
                assert(t1 == t0.push(index));
                assert(!t0.contains(index)) by {
                    if t0.contains(index) {
                        let j = choose|j: int| 0 <= j < t0.len() && t0[j] == index;
                        assert(mines@[j] < mines@[k as int]);
                    }
                }
                assert forall|i: int| 0 <= i < c0.len() implies #[trigger] self.cell_states()[i]
                    == if t1.contains(i as usize) {
                    lose_cells(c0, m)[i]
                } else {
                    c0[i]
                } by {
                    if t0.contains(i as usize) {
                        let j = choose|j: int| 0 <= j < t0.len() && t0[j] == i as usize;
                        assert(t1[j] == i as usize);
                    }
                    if t1.contains(i as usize) && i as usize != index {
                        let j = choose|j: int| 0 <= j < t1.len() && t1[j] == i as usize;
                        assert(t0[j] == i as usize);
                    }
                    if i as usize == index {
                        assert(t1[k as int] == index);
                        assert(m[i]);
                    }
                }
            }
            k = k + 1;
        }
        proof {
            assert(mines@.take(k as int) == mines@);
            assert(self.cell_states() == lose_cells(c0, m)) by {
                assert forall|i: int| 0 <= i < c0.len() implies self.cell_states()[i] == lose_cells(c0, m)[i] by {
                    if !mines@.contains(i as usize) {
                        assert(!m[i]);
                    }
                }
            }
        }
        self.phase = MinesweeperPhase::Lost { detonated_mine };
    }
}


/// The game still takes moves.
pub open spec fn accepts_moves(board: MinesweeperBoard) -> bool {
    board.status_spec() == MinesweeperStatus::Ready || board.status_spec() == MinesweeperStatus::Playing
}

/// A flag per cell: is it flagged?
pub open spec fn flag_map(cells: Seq<MinesweeperCellState>) -> Seq<bool> {
    Seq::new(cells.len(), |i: int| cells[i] == MinesweeperCellState::Flagged)
}

/// The listed cells that are not flagged, in order.
pub open spec fn unflagged(cells: Seq<MinesweeperCellState>, idxs: Seq<usize>) -> Seq<usize>
    decreases idxs.len(),
{
    if idxs.len() == 0 {
        seq![]
    } else {
        unflagged(cells, idxs.drop_last()) + if cells[idxs.last() as int]
            == MinesweeperCellState::Flagged {
            Seq::<usize>::empty()
        } else {
            seq![idxs.last()]
        }
    }
}

/// How the cells and status end after a safe area has been opened: a win flags the hidden
/// mines, otherwise the status is `otherwise`.
pub open spec fn settle(
    new: MinesweeperBoard,
    opened: Seq<MinesweeperCellState>,
    mines: Seq<bool>,
    otherwise: MinesweeperStatus,
) -> bool {
    if all_safe_open(opened, mines) {
        &&& new.cell_states() == win_cells(opened, mines)
        &&& new.status_spec() == MinesweeperStatus::Won
    } else {
        &&& new.cell_states() == opened
        &&& new.status_spec() == otherwise
    }
}

/// The outcome of revealing cell `i` in a game that takes moves.
pub open spec fn reveal_outcome(
    old: MinesweeperBoard,
    new: MinesweeperBoard,
    i: int,
    result: MinesweeperActionResult,
) -> bool {
    let c0 = old.cell_states();
    let m = new.mine_map();
    &&& placement_step(old, new, i)
    &&& new.detonated_map() == old.detonated_map()
    &&& if c0[i] == MinesweeperCellState::Flagged {
        &&& !result.changed
        &&& result.started == (old.status_spec() == MinesweeperStatus::Playing)
        &&& new.cell_states() == c0
        &&& new.status_spec() == old.status_spec()
        &&& new.lost_mine() == old.lost_mine()
    } else if m[i] {
        &&& result.changed
        &&& result.started == (old.status_spec() == MinesweeperStatus::Ready)
        &&& new.cell_states() == lose_cells(c0.update(i, MinesweeperCellState::Revealed), m)
        &&& new.status_spec() == MinesweeperStatus::Lost
        &&& new.lost_mine() == Some(i as nat)
    } else {
        &&& result.started == (old.status_spec() == MinesweeperStatus::Ready)
        &&& new.lost_mine() is None
        &&& exists|revealed: Seq<usize>|
            {
                &&& flood_fill_ok(
                    new.w() as int,
                    new.h() as int,
                    m,
                    new.adjacency(),
                    blocked_cells(c0),
                    seq![i as usize],
                    revealed,
                )
                &&& result.changed == (revealed.len() > 0)
                &&& settle(new, reveal_all(c0, revealed), m, MinesweeperStatus::Playing)
            }
    }
}

/// What toggling a mark does to a cell that is not open.
pub open spec fn toggled(s: MinesweeperCellState) -> MinesweeperCellState {
    if s == MinesweeperCellState::Hidden {
        MinesweeperCellState::Flagged
    } else {
        MinesweeperCellState::Hidden
    }
}

/// Chording cell `i` is allowed: the game takes moves, the cell is open, shows a number,
/// and exactly that many of its neighbours are flagged.
pub open spec fn chord_allowed(old: MinesweeperBoard, i: int) -> bool {
    &&& accepts_moves(old)
    &&& 0 <= i < old.n()
    &&& old.cell_states()[i] == MinesweeperCellState::Revealed
    &&& old.adjacency()[i] != 0
    &&& count_flagged(
        flag_map(old.cell_states()),
        neighbor_seq(old.w() as int, old.h() as int, i),
    ) == old.adjacency()[i]
}

/// The outcome of an allowed chord on cell `i`: the unflagged neighbours are opened in
/// order, each with its safe area, until one of them is a mine, which loses the game.
pub open spec fn chord_outcome(
    old: MinesweeperBoard,
    new: MinesweeperBoard,
    i: int,
    result: MinesweeperActionResult,
) -> bool {
    let c0 = old.cell_states();
    let m = old.mine_map();
    let nbrs = neighbor_seq(old.w() as int, old.h() as int, i);
    &&& new.w() == old.w()
    &&& new.h() == old.h()
    &&& new.placed() == old.placed()
    &&& new.mine_map() == m
    &&& new.adjacency() == old.adjacency()
    &&& new.detonated_map() == old.detonated_map()
    &&& !result.started
    &&& exists|p: int, revealed: Seq<usize>| #[trigger] chord_run(old, new, i, result, p, revealed)
}

/// One way an allowed chord can end: the first `p` neighbours were handled (`revealed` is
/// their combined safe area) and, if `p` is not past the end, neighbour `p` was a mine.
pub open spec fn chord_run(
    old: MinesweeperBoard,
    new: MinesweeperBoard,
    i: int,
    result: MinesweeperActionResult,
    p: int,
    revealed: Seq<usize>,
) -> bool {
    let c0 = old.cell_states();
    let m = old.mine_map();
    let nbrs = neighbor_seq(old.w() as int, old.h() as int, i);
    let done = unflagged(c0, nbrs.take(p));
    &&& 0 <= p <= nbrs.len()
    &&& forall|t: int| 0 <= t < done.len() ==> !m[#[trigger] done[t] as int]
    &&& flood_fill_ok(
        old.w() as int,
        old.h() as int,
        m,
        old.adjacency(),
        blocked_cells(c0),
        done,
        revealed,
    )
    &&& if p < nbrs.len() {
        let t = nbrs[p];
        &&& c0[t as int] != MinesweeperCellState::Flagged
        &&& m[t as int]
        &&& result.changed
        &&& new.cell_states() == lose_cells(
            reveal_all(c0, revealed).update(t as int, MinesweeperCellState::Revealed),
            m,
        )
        &&& new.status_spec() == MinesweeperStatus::Lost
        &&& new.lost_mine() == Some(t as nat)
    } else {
        &&& result.changed == (revealed.len() > 0)
        &&& new.lost_mine() == old.lost_mine()
        &&& settle(new, reveal_all(c0, revealed), m, old.status_spec())
    }
}

pub proof fn lemma_reveal_all_blocked(c0: Seq<MinesweeperCellState>, r: Seq<usize>)
    ensures
        blocked_cells(reveal_all(c0, r)) == block_more(blocked_cells(c0), r),
{
    assert(blocked_cells(reveal_all(c0, r)) =~= block_more(blocked_cells(c0), r));
}

pub proof fn lemma_reveal_all_concat(c0: Seq<MinesweeperCellState>, r1: Seq<usize>, r2: Seq<usize>)
    ensures
        reveal_all(reveal_all(c0, r1), r2) == reveal_all(c0, r1 + r2),
{
    let a = reveal_all(reveal_all(c0, r1), r2);
    let b = reveal_all(c0, r1 + r2);
    assert forall|i: int| 0 <= i < c0.len() implies a[i] == b[i] by {
        let x = i as usize;
        if r1.contains(x) {
            let k = choose|k: int| 0 <= k < r1.len() && r1[k] == x;
            assert((r1 + r2)[k] == x);
        }
        if r2.contains(x) {
            let k = choose|k: int| 0 <= k < r2.len() && r2[k] == x;
            assert((r1 + r2)[k + r1.len()] == x);
        }
        if (r1 + r2).contains(x) {
            let k = choose|k: int| 0 <= k < (r1 + r2).len() && (r1 + r2)[k] == x;
            if k < r1.len() {
                assert(r1[k] == x);
            } else {
                assert(r2[k - r1.len()] == x);
            }
        }
    }
    assert(a =~= b);
}

impl MinesweeperBoard {
    /// Reveals a cell: places the mines on the first reveal, loses on a mine, otherwise opens
    /// the cell's safe area and wins when every safe cell is open. Flagged cells are left alone.
    pub fn reveal_cell(&mut self, index: usize) -> (result: MinesweeperActionResult)
        requires
            old(self).wf(),
        ensures
            final(self).wf(),
            !(accepts_moves(*old(self)) && index < old(self).n()) ==> !result.changed
                && !result.started && *final(self) == *old(self),
            accepts_moves(*old(self)) && index < old(self).n() ==> reveal_outcome(
                *old(self),
                *final(self),
                index as int,
                result,
            ),
    {
        proof {
            self.lemma_consistent();
        }
        if !self.accepts_action() || index >= self.size.cell_count() {
            return MinesweeperActionResult::default();
        }
        let ghost b0 = *self;
        if !self.mines_placed() {
            self.place_mines(index);
        }
        proof {
            self.lemma_consistent();
        }
        let ghost b1 = *self;
        if self.cells[index] == MinesweeperCellState::Flagged {
            return MinesweeperActionResult {
                changed: false,
                started: matches!(self.phase, MinesweeperPhase::Playing),
            };
        }
        let started = matches!(self.phase, MinesweeperPhase::Ready);
        self.phase = MinesweeperPhase::Playing;
        if self.is_mine(index) {
            self.cells.set(index, MinesweeperCellState::Revealed);
            self.lose(index);
            return MinesweeperActionResult { changed: true, started };
        }
        let ghost b2 = *self;
        let revealed = self.reveal_safe_cells(index);
        let changed = revealed.len() > 0;
        proof {
            self.lemma_consistent();
        }
        let ghost b3 = *self;
        self.update_win_status();
        proof {
            assert(flood_fill_ok(
                b3.w() as int,
                b3.h() as int,
                b3.mine_map(),
                b3.adjacency(),
                blocked_cells(b0.cell_states()),
                seq![index],
                revealed@,
            ));
        }
        MinesweeperActionResult { changed, started }
    }

    /// Flags a hidden cell, or clears a flag or question mark; open cells and finished games
    /// are left alone. Returns whether the cell changed.
    pub fn toggle_mark(&mut self, index: usize) -> (changed: bool)
        requires
            old(self).wf(),
        ensures
            final(self).wf(),
            changed == (accepts_moves(*old(self)) && index < old(self).n()
                && old(self).cell_states()[index as int] != MinesweeperCellState::Revealed),
            changed ==> final(self).cell_states() == old(self).cell_states().update(
                index as int,
                toggled(old(self).cell_states()[index as int]),
            ),
            !changed ==> final(self).cell_states() == old(self).cell_states(),
            final(self).same_game(*old(self)),
    {
        proof {
            self.lemma_consistent();
        }
        if !self.accepts_action() || index >= self.size.cell_count() {
            return false;
        }
        let next = match self.cells[index] {
            MinesweeperCellState::Hidden => MinesweeperCellState::Flagged,
            MinesweeperCellState::Flagged => MinesweeperCellState::Hidden,
            MinesweeperCellState::Question => MinesweeperCellState::Hidden,
            MinesweeperCellState::Revealed => {
                return false;
            },
        };
        self.cells.set(index, next);
        true
    }

    /// Chords an open numbered cell whose flagged neighbours match its number: opens every
    /// unflagged neighbour, losing on the first mine among them.
    #[verifier::rlimit(40)]
    pub fn chord(&mut self, index: usize) -> (result: MinesweeperActionResult)
        requires
            old(self).wf(),
        ensures
            final(self).wf(),
            !chord_allowed(*old(self), index as int) ==> !result.changed && !result.started
                && *final(self) == *old(self),
            chord_allowed(*old(self), index as int) ==> chord_outcome(
                *old(self),
                *final(self),
                index as int,
                result,
            ),
    {
        proof {
            self.lemma_consistent();
        }
        let ghost old_board = *self;
        let ghost c0 = self.cell_states();
        let ghost m = self.mine_map();
        let ghost a = self.adjacency();
        let ghost w = self.w() as int;
        let ghost h = self.h() as int;
        if !self.accepts_action() || index >= self.size.cell_count()
            || self.cells[index] != MinesweeperCellState::Revealed || self.adjacent_mines(index) == 0 {
            return MinesweeperActionResult::default();
        }
        let nbrs = self.neighbors(index);
        let ghost fm = flag_map(c0);
        let mut flagged: usize = 0;
        let mut k: usize = 0;
        while k < nbrs.len()
            invariant
                self.wf(),
                *self == old_board,
                fm == flag_map(self.cell_states()),
                k <= nbrs.len(),
                forall|j: int| 0 <= j < nbrs.len() ==> (#[trigger] nbrs@[j]) < self.n(),
                self.cell_states().len() == self.n(),
                flagged == count_flagged(fm, nbrs@.take(k as int)),
                flagged <= k,
            decreases nbrs.len() - k,
        {
            proof {
                assert(nbrs@.take(k + 1).drop_last() == nbrs@.take(k as int));
            }
            if self.cells[nbrs[k]] == MinesweeperCellState::Flagged {
                flagged = flagged + 1;
            }
            k = k + 1;
        }
        proof {
            assert(nbrs@.take(k as int) == nbrs@);
        }
        if flagged != self.adjacent_mines(index) as usize {
            return MinesweeperActionResult::default();
        }
        proof {
            assert(self.placed()) by {
                if !self.placed() {
                    assert(a[index as int] == 0);
                }
            }
        }
        proof {
            assert(chord_allowed(old_board, index as int));
        }
        let mut changed = false;
        let ghost mut acc: Seq<usize> = seq![];
        proof {
            assert(unflagged(c0, nbrs@.take(0)) == Seq::<usize>::empty());
            assert(reveal_all(c0, acc) =~= c0);
            assert(acc.no_duplicates());
        }
        let mut k: usize = 0;
        while k < nbrs.len()
            invariant
                self.wf(),
                self.consistent(),
                self.placed(),
                self.w() == old_board.w(),
                self.h() == old_board.h(),
                w == self.w(),
                h == self.h(),
                m == self.mine_map(),
                a == self.adjacency(),
                c0 == old_board.cell_states(),
                c0.len() == self.n(),
                chord_allowed(old_board, index as int),
                old_board == *old(self),
                old_board.placed(),
                m == old_board.mine_map(),
                a == old_board.adjacency(),
                w == old_board.w(),
                h == old_board.h(),
                self.status_spec() == old_board.status_spec(),
                accepts_moves(*self),
                self.lost_mine() == old_board.lost_mine(),
                self.detonated_map() == old_board.detonated_map(),
                nbrs@ == neighbor_seq(w, h, index as int),
                forall|j: int| 0 <= j < nbrs.len() ==> (#[trigger] nbrs@[j]) < self.n(),
                k <= nbrs.len(),
                forall|t: int|
                    0 <= t < unflagged(c0, nbrs@.take(k as int)).len() ==> !m[#[trigger] unflagged(
                        c0,
                        nbrs@.take(k as int),
                    )[t] as int],
                flood_fill_ok(w, h, m, a, blocked_cells(c0), unflagged(c0, nbrs@.take(k as int)), acc),
                self.cell_states() == reveal_all(c0, acc),
                changed == (acc.len() > 0),
            decreases nbrs.len() - k,
        {
            let nb = nbrs[k];
            proof {
                assert(nbrs@.take(k + 1).drop_last() == nbrs@.take(k as int));
                assert(nbrs@.take(k + 1).last() == nb);
                // a cell is flagged now exactly when it was flagged at the start
                if acc.contains(nb) {
                    let j = choose|j: int| 0 <= j < acc.len() && acc[j] == nb;
                    assert(!blocked_cells(c0)[acc[j] as int]);
                }
            }
            if self.cells[nb] == MinesweeperCellState::Flagged {
                proof {
                    assert(unflagged(c0, nbrs@.take(k + 1)) == unflagged(c0, nbrs@.take(k as int)));
                }
            } else {
                if self.is_mine(nb) {
                    let ghost before_lose = self.cell_states();
                    proof {
                        if !acc.contains(nb) {
                            assert(before_lose[nb as int] == c0[nb as int]);
                        }
                        assert(c0[nb as int] != MinesweeperCellState::Flagged);
                    }
                    self.cells.set(nb, MinesweeperCellState::Revealed);
                    self.lose(nb);
                    proof {
                        let p = k as int;
                        assert(nbrs@[p] == nb);
                        assert(chord_run(old_board, *self, index as int, MinesweeperActionResult {
                            changed: true,
                            started: false,
                        }, p, acc));
                    }
                    return MinesweeperActionResult { changed: true, started: false };
                }
                let ghost before = self.cell_states();
                let ghost done = unflagged(c0, nbrs@.take(k as int));
                let revealed = self.reveal_safe_cells(nb);
                proof {
                    lemma_reveal_all_blocked(c0, acc);
                    lemma_flood_fill_compose(w, h, m, a, blocked_cells(c0), done, acc, seq![nb], revealed@);
                    lemma_reveal_all_concat(c0, acc, revealed@);
                    assert(unflagged(c0, nbrs@.take(k + 1)) == done + seq![nb]);
                    acc = acc + revealed@;
                }
                changed = changed || revealed.len() > 0;
            }
            k = k + 1;
        }
        proof {
            assert(nbrs@.take(k as int) == nbrs@);
        }
        let ghost before_win = self.cell_states();
        self.update_win_status();
        proof {
            let p = nbrs.len() as int;
            assert(nbrs@.take(p) == nbrs@);
            assert(chord_run(old_board, *self, index as int, MinesweeperActionResult {
                changed,
                started: false,
            }, p, acc));
            assert(chord_outcome(old_board, *self, index as int, MinesweeperActionResult {
                changed,
                started: false,
            }));
        }
        MinesweeperActionResult { changed, started: false }
    }
}

/// The board has the requested size, or is 1 by 1 when that size is unusable.
pub open spec fn sanitized_dims(board: MinesweeperBoard, width: usize, height: usize) -> bool {
    if width > 0 && height > 0 && width * height <= usize::MAX {
        board.w() == width && board.h() == height
    } else {
        board.w() == 1 && board.h() == 1
    }
}

/// A game that has not been played: every cell hidden, nothing set off, not started.
pub open spec fn fresh_game(board: MinesweeperBoard) -> bool {
    &&& board.cell_states() == Seq::new(board.n(), |i: int| MinesweeperCellState::Hidden)
    &&& board.status_spec() == MinesweeperStatus::Ready
    &&& board.lost_mine() is None
    &&& board.detonated_map() == Seq::new(board.n(), |i: int| false)
}

fn sanitized_minesweeper_size(width: usize, height: usize) -> (size: MinesweeperBoardSize)
    ensures
        if width > 0 && height > 0 && width * height <= usize::MAX {
            size.w() == width && size.h() == height
        } else {
            size.w() == 1 && size.h() == 1
        },
{
    match MinesweeperBoardSize::new(width, height) {
        Some(size) => size,
        None => MinesweeperBoardSize { width: 1, height: 1 },
    }
}


/// A multiplayer board made of expert tiles, each generated to need no guess from its own
/// starting cell, stitched together without checking the whole board.
pub struct RoomMinesweeperBoard {
    pub board: MinesweeperBoard,
    pub starting_cells: Vec<usize>,
    pub tile_rows: usize,
    pub tile_cols: usize,
}

/// A tile count along one axis of a room board, kept between 1 and 3.
pub open spec fn clamp_tile_axis_spec(value: usize) -> usize {
    if value < ROOM_MINESWEEPER_MIN_TILE_AXIS {
        ROOM_MINESWEEPER_MIN_TILE_AXIS
    } else if value > ROOM_MINESWEEPER_MAX_TILE_AXIS {
        ROOM_MINESWEEPER_MAX_TILE_AXIS
    } else {
        value
    }
}

/// The room-board cell at row `r` and column `c` of tile `t`, tiles numbered row by row
/// over `tile_cols` columns.
pub open spec fn tile_cell(tile_cols: int, t: int, r: int, c: int) -> int {
    ((t / tile_cols) * MINESWEEPER_EXPERT_HEIGHT + r) * (tile_cols * MINESWEEPER_EXPERT_WIDTH) + (t
        % tile_cols) * MINESWEEPER_EXPERT_WIDTH + c
}

/// `start` lies in tile `t`, at least four cells away from each edge of the tile.
pub open spec fn tile_start_ok(tile_cols: int, t: int, start: int) -> bool {
    exists|r: int, c: int|
        4 <= r < MINESWEEPER_EXPERT_HEIGHT - 4 && 4 <= c < MINESWEEPER_EXPERT_WIDTH - 4 && start
            == #[trigger] tile_cell(tile_cols, t, r, c)
}

/// Distinct tiles, or distinct cells of one tile, are distinct cells of the room board.
proof fn lemma_tile_cell_unique(tc: int, t1: int, r1: int, c1: int, t2: int, r2: int, c2: int)
    requires
        1 <= tc,
        0 <= t1,
        0 <= t2,
        0 <= r1 < MINESWEEPER_EXPERT_HEIGHT,
        0 <= r2 < MINESWEEPER_EXPERT_HEIGHT,
        0 <= c1 < MINESWEEPER_EXPERT_WIDTH,
        0 <= c2 < MINESWEEPER_EXPERT_WIDTH,
        tile_cell(tc, t1, r1, c1) == tile_cell(tc, t2, r2, c2),
    ensures
        t1 == t2,
        r1 == r2,
        c1 == c2,
{
    let w = MINESWEEPER_EXPERT_WIDTH as int;
    let h = MINESWEEPER_EXPERT_HEIGHT as int;
    let width = tc * w;
    let gr1 = (t1 / tc) * h + r1;
    let gr2 = (t2 / tc) * h + r2;
    let gc1 = (t1 % tc) * w + c1;
    let gc2 = (t2 % tc) * w + c2;
    assert(0 <= t1 / tc && 0 <= t2 / tc) by (nonlinear_arith)
        requires
            0 <= t1,
            0 <= t2,
            1 <= tc,
    ;
    assert(gc1 < width && gc2 < width && 0 <= gc1 && 0 <= gc2) by (nonlinear_arith)
        requires
            0 <= t1 % tc < tc,
            0 <= t2 % tc < tc,
            gc1 == (t1 % tc) * w + c1,
            gc2 == (t2 % tc) * w + c2,
            0 <= c1 < w,
            0 <= c2 < w,
            width == tc * w,
            w == 30,
    ;
    assert(0 <= gr1 && 0 <= gr2) by (nonlinear_arith)
        requires
            0 <= t1 / tc,
            0 <= t2 / tc,
            gr1 == (t1 / tc) * h + r1,
            gr2 == (t2 / tc) * h + r2,
            0 <= r1,
            0 <= r2,
            h == 16,
    ;
    assert(tile_cell(tc, t1, r1, c1) == gr1 * width + gc1);
    assert(tile_cell(tc, t2, r2, c2) == gr2 * width + gc2);
    lemma_cell_index(width, gr1 + 1, gr1, gc1);
    lemma_cell_index(width, gr2 + 1, gr2, gc2);
    assert(gr1 == gr2 && gc1 == gc2);
    lemma_cell_index(h, t1 / tc + 1, t1 / tc, r1);
    lemma_cell_index(h, t2 / tc + 1, t2 / tc, r2);
    lemma_cell_index(w, t1 % tc + 1, t1 % tc, c1);
    lemma_cell_index(w, t2 % tc + 1, t2 % tc, c2);
    vstd::arithmetic::div_mod::lemma_fundamental_div_mod(t1, tc);
    vstd::arithmetic::div_mod::lemma_fundamental_div_mod(t2, tc);
}

/// A cell of a tile lies on the room board that the tiles make up.
proof fn lemma_tile_cell_in_room(tc: int, tr: int, t: int, r: int, c: int)
    requires
        1 <= tc,
        1 <= tr,
        0 <= t < tr * tc,
        0 <= r < MINESWEEPER_EXPERT_HEIGHT,
        0 <= c < MINESWEEPER_EXPERT_WIDTH,
    ensures
        0 <= tile_cell(tc, t, r, c) < (tr * MINESWEEPER_EXPERT_HEIGHT) * (tc * MINESWEEPER_EXPERT_WIDTH),
{
    let q = t / tc;
    let rem = t % tc;
    vstd::arithmetic::div_mod::lemma_fundamental_div_mod(t, tc);
    assert(q < tr) by (nonlinear_arith)
        requires
            t == tc * q + rem,
            0 <= rem < tc,
            t < tr * tc,
            1 <= tc,
    ;
    assert(0 <= q) by (nonlinear_arith)
        requires
            t == tc * q + rem,
            0 <= rem < tc,
            0 <= t,
            1 <= tc,
    ;
    let gr = q * 16 + r;
    let gc = rem * 30 + c;
    assert(gc < tc * 30) by (nonlinear_arith)
        requires
            gc == rem * 30 + c,
            0 <= rem < tc,
            c < 30,
    ;
    assert(0 <= gc) by (nonlinear_arith)
        requires
            gc == rem * 30 + c,
            0 <= rem,
            0 <= c,
    ;
    assert(gr < tr * 16) by (nonlinear_arith)
        requires
            gr == q * 16 + r,
            q < tr,
            r < 16,
    ;
    assert(0 <= gr) by (nonlinear_arith)
        requires
            gr == q * 16 + r,
            0 <= q,
            0 <= r,
    ;
    assert(tile_cell(tc, t, r, c) == gr * (tc * 30) + gc);
    lemma_cell_index(tc * 30, tr * 16, gr, gc);
}

/// The flags of the cells below `n`, set where `s` holds the cell.
pub open spec fn set_flags(s: Set<usize>, n: nat) -> Seq<bool> {
    Seq::new(n, |i: int| s.contains(i as usize))
}

/// Tile `t` of a room board, opened at `start`, holds on `map` the expert layout drawn
/// around that start from some seed.
pub open spec fn tile_holds_layout(map: Seq<bool>, tile_cols: int, t: int, start: int) -> bool {
    exists|r0: int, c0: int, s: u64|
        {
            &&& 0 <= r0 < MINESWEEPER_EXPERT_HEIGHT
            &&& 0 <= c0 < MINESWEEPER_EXPERT_WIDTH
            &&& start == tile_cell(tile_cols, t, r0, c0)
            &&& #[trigger] tile_layout_from(map, tile_cols, t, r0 * MINESWEEPER_EXPERT_WIDTH + c0, s)
        }
}

/// The cells of tile `t` on `map` are the expert layout drawn around `first` with `seed`.
pub open spec fn tile_layout_from(map: Seq<bool>, tile_cols: int, t: int, first: int, seed: u64) -> bool {
    let flags = plain_layout_flags(
        MINESWEEPER_EXPERT_WIDTH as int,
        MINESWEEPER_EXPERT_HEIGHT as int,
        MINESWEEPER_EXPERT_MINES as int,
        first,
        seed,
    );
    forall|r: int, c: int|
        0 <= r < MINESWEEPER_EXPERT_HEIGHT && 0 <= c < MINESWEEPER_EXPERT_WIDTH ==> #[trigger] map[tile_cell(tile_cols, t, r, c)]
            == flags[r * MINESWEEPER_EXPERT_WIDTH + c]
}

/// Copying the mines of tile `ti` onto the room keeps the layouts of the earlier tiles and
/// lays out tile `ti` as the tile board drew it.
proof fn lemma_tile_copied(
    mines: Set<usize>,
    before: Set<usize>,
    n: nat,
    tc: int,
    tr: int,
    ti: int,
    starts: Seq<usize>,
    local_mines: Seq<usize>,
    tile_map: Seq<bool>,
    start_row: int,
    start_col: int,
    seed: u64,
)
    requires
        1 <= tc,
        1 <= tr,
        n == (tr * MINESWEEPER_EXPERT_HEIGHT) * (tc * MINESWEEPER_EXPERT_WIDTH),
        n <= usize::MAX,
        0 <= ti < tr * tc,
        starts.len() == ti + 1,
        forall|t: int| 0 <= t < ti ==> #[trigger] tile_holds_layout(set_flags(before, n), tc, t, starts[t] as int),
        forall|m: usize|
            #[trigger] before.contains(m) ==> exists|t: int, r: int, c: int|
                0 <= t < ti && 0 <= r < MINESWEEPER_EXPERT_HEIGHT && 0 <= c < MINESWEEPER_EXPERT_WIDTH && m
                    == tile_cell(tc, t, r, c),
        forall|m: usize|
            #[trigger] mines.contains(m) <==> before.contains(m) || exists|j: int|
                0 <= j < local_mines.len() && m as int == tile_cell(
                    tc,
                    ti,
                    local_mines[j] as int / MINESWEEPER_EXPERT_WIDTH as int,
                    local_mines[j] as int % MINESWEEPER_EXPERT_WIDTH as int,
                ),
        tile_map.len() == MINESWEEPER_EXPERT_WIDTH * MINESWEEPER_EXPERT_HEIGHT,
        mine_list_spec(tile_map, local_mines),
        tile_map == plain_layout_flags(
            MINESWEEPER_EXPERT_WIDTH as int,
            MINESWEEPER_EXPERT_HEIGHT as int,
            MINESWEEPER_EXPERT_MINES as int,
            start_row * MINESWEEPER_EXPERT_WIDTH + start_col,
            seed,
        ),
        0 <= start_row < MINESWEEPER_EXPERT_HEIGHT,
        0 <= start_col < MINESWEEPER_EXPERT_WIDTH,
        starts[ti] as int == tile_cell(tc, ti, start_row, start_col),
    ensures
        forall|t: int| 0 <= t < ti + 1 ==> #[trigger] tile_holds_layout(set_flags(mines, n), tc, t, starts[t] as int),
{
    let w = MINESWEEPER_EXPERT_WIDTH as int;
    let h = MINESWEEPER_EXPERT_HEIGHT as int;
    let after = set_flags(mines, n);
    let prior = set_flags(before, n);
    assert forall|j: int| 0 <= j < local_mines.len() implies {
        &&& 0 <= #[trigger] local_mines[j] as int / w < h
        &&& 0 <= local_mines[j] as int % w < w
        &&& local_mines[j] as int == (local_mines[j] as int / w) * w + local_mines[j] as int % w
    } by {
        lemma_row_col(w, h, local_mines[j] as int);
    }
    assert forall|t: int| 0 <= t < ti + 1 implies #[trigger] tile_holds_layout(after, tc, t, starts[t] as int) by {
        if t < ti {
            assert(tile_holds_layout(prior, tc, t, starts[t] as int));
            let (r0, c0, s0) = choose|r0: int, c0: int, s0: u64|
                {
                    &&& 0 <= r0 < h
                    &&& 0 <= c0 < w
                    &&& starts[t] as int == tile_cell(tc, t, r0, c0)
                    &&& #[trigger] tile_layout_from(prior, tc, t, r0 * w + c0, s0)
                };
            assert forall|r: int, c: int| 0 <= r < h && 0 <= c < w implies #[trigger] after[tile_cell(tc, t, r, c)]
                == prior[tile_cell(tc, t, r, c)] by {
                let x = tile_cell(tc, t, r, c);
                lemma_tile_cell_in_room(tc, tr, t, r, c);
                if exists|j: int|
                    0 <= j < local_mines.len() && x == tile_cell(
                        tc,
                        ti,
                        local_mines[j] as int / w,
                        local_mines[j] as int % w,
                    ) {
                    let j = choose|j: int|
                        0 <= j < local_mines.len() && x == tile_cell(
                            tc,
                            ti,
                            local_mines[j] as int / w,
                            local_mines[j] as int % w,
                        );
                    assert(0 <= local_mines[j] as int / w < h);
                    lemma_tile_cell_unique(tc, t, r, c, ti, local_mines[j] as int / w, local_mines[j] as int % w);
                }
                assert(mines.contains(x as usize) == before.contains(x as usize));
            }
            assert(tile_layout_from(after, tc, t, r0 * w + c0, s0));
        } else {
            assert forall|r: int, c: int| 0 <= r < h && 0 <= c < w implies #[trigger] after[tile_cell(tc, t, r, c)]
                == tile_map[r * w + c] by {
                let x = tile_cell(tc, t, r, c);
                lemma_tile_cell_in_room(tc, tr, t, r, c);
                lemma_cell_index(w, h, r, c);
                if before.contains(x as usize) {
                    let (t2, r2, c2) = choose|t2: int, r2: int, c2: int|
                        0 <= t2 < ti && 0 <= r2 < h && 0 <= c2 < w && x as usize == tile_cell(tc, t2, r2, c2);
                    lemma_tile_cell_unique(tc, t, r, c, t2, r2, c2);
                }
                if tile_map[r * w + c] {
                    assert(local_mines.contains((r * w + c) as usize));
                    let j = choose|j: int| 0 <= j < local_mines.len() && local_mines[j] == (r * w + c) as usize;
                    assert(x == tile_cell(tc, ti, local_mines[j] as int / w, local_mines[j] as int % w));
                    assert(mines.contains(x as usize));
                }
                if mines.contains(x as usize) {
                    let j = choose|j: int|
                        0 <= j < local_mines.len() && x == tile_cell(
                            tc,
                            ti,
                            local_mines[j] as int / w,
                            local_mines[j] as int % w,
                        );
                    assert(0 <= local_mines[j] as int / w < h);
                    lemma_tile_cell_unique(tc, t, r, c, ti, local_mines[j] as int / w, local_mines[j] as int % w);
                    assert(local_mines[j] as int == r * w + c);
                    assert(tile_map[local_mines[j] as int]);
                }
            }
            assert(tile_layout_from(after, tc, t, start_row * w + start_col, seed));
        }
    }
}

/// Builds a room board of `tile_rows` by `tile_cols` expert tiles (each count clamped to
/// 1..=3). Every tile is a no-guess expert layout opened at a random start at least four
/// cells from its edges; those starts, in room coordinates, are the starting cells.
pub fn build_room_minesweeper_board(tile_rows: usize, tile_cols: usize, seed: u64) -> (room: RoomMinesweeperBoard)
    ensures
        room.tile_rows == clamp_tile_axis_spec(tile_rows),
        room.tile_cols == clamp_tile_axis_spec(tile_cols),
        room.board.wf(),
        room.board.placed(),
        room.board.w() == room.tile_cols * MINESWEEPER_EXPERT_WIDTH,
        room.board.h() == room.tile_rows * MINESWEEPER_EXPERT_HEIGHT,
        room.starting_cells.len() == room.tile_rows * room.tile_cols,
        forall|t: int|
            0 <= t < room.starting_cells.len() ==> tile_start_ok(
                room.tile_cols as int,
                t,
                #[trigger] room.starting_cells@[t] as int,
            ),
        fresh_game(room.board),
        forall|t: int| 0 <= t < room.starting_cells.len() ==> !room.board.mine_map()[#[trigger] room.starting_cells@[t] as int],
        forall|t: int| 0 <= t < room.starting_cells.len() ==> (#[trigger] room.starting_cells@[t]) < room.board.n(),
        forall|t: int|
            0 <= t < room.starting_cells.len() ==> #[trigger] tile_holds_layout(
                room.board.mine_map(),
                room.tile_cols as int,
                t,
                room.starting_cells@[t] as int,
            ),
        count_true(room.board.mine_map()) == room.starting_cells.len() * MINESWEEPER_EXPERT_MINES,
{
    let tile_rows = clamp_room_minesweeper_tile_axis(tile_rows);
    let tile_cols = clamp_room_minesweeper_tile_axis(tile_cols);
    assert(tile_rows * tile_cols <= 9) by (nonlinear_arith)
        requires
            1 <= tile_rows <= 3,
            1 <= tile_cols <= 3,
    ;
    let tile_count = tile_rows * tile_cols;
    let width = tile_cols * MINESWEEPER_EXPERT_WIDTH;
    let height = tile_rows * MINESWEEPER_EXPERT_HEIGHT;
    assert(width * height <= 90 * 48) by (nonlinear_arith)
        requires
            1 <= width <= 90,
            1 <= height <= 48,
    ;
    let mut seed = if seed == 0 {
        1u64
    } else {
        seed
    };
    let mut mines: BTreeSet<usize> = BTreeSet::new();
    let mut starting_cells: Vec<usize> = Vec::new();
    let mut tile_index: usize = 0;
    while tile_index < tile_count
        invariant
            height == tile_rows * MINESWEEPER_EXPERT_HEIGHT,
            width * height <= 90 * 48,
            1 <= tile_rows <= 3,
            1 <= tile_cols <= 3,
            tile_count == tile_rows * tile_cols,
            width == tile_cols * MINESWEEPER_EXPERT_WIDTH,
            tile_index <= tile_count,
            starting_cells.len() == tile_index,
            forall|t: int|
                0 <= t < tile_index ==> tile_start_ok(
                    tile_cols as int,
                    t,
                    #[trigger] starting_cells@[t] as int,
                ),
            forall|m: usize|
                #[trigger] mines@.contains(m) ==> exists|t: int, r: int, c: int|
                    0 <= t < tile_index && 0 <= r < MINESWEEPER_EXPERT_HEIGHT && 0 <= c < MINESWEEPER_EXPERT_WIDTH && m
                        == tile_cell(tile_cols as int, t, r, c),
            forall|t: int| 0 <= t < tile_index ==> !mines@.contains(#[trigger] starting_cells@[t]),
            forall|t: int|
                0 <= t < tile_index ==> #[trigger] tile_holds_layout(
                    set_flags(mines@, (width * height) as nat),
                    tile_cols as int,
                    t,
                    starting_cells@[t] as int,
                ),
            mines@.finite(),
            mines@.len() == tile_index * MINESWEEPER_EXPERT_MINES,
        decreases tile_count - tile_index,
    {
        assert(tile_count <= 9) by (nonlinear_arith)
            requires
                1 <= tile_rows <= 3,
                1 <= tile_cols <= 3,
                tile_count == tile_rows * tile_cols,
        ;
        let tile_row = tile_index / tile_cols;
        let tile_col = tile_index % tile_cols;
        assert(tile_row < 3) by (nonlinear_arith)
            requires
                tile_row == tile_index / tile_cols,
                tile_index < tile_rows * tile_cols,
                1 <= tile_rows <= 3,
                1 <= tile_cols <= 3,
        ;
        let start_row = random_tile_start_axis(&mut seed, MINESWEEPER_EXPERT_HEIGHT);
        let start_col = random_tile_start_axis(&mut seed, MINESWEEPER_EXPERT_WIDTH);
        let tile_start = start_row * MINESWEEPER_EXPERT_WIDTH + start_col;
        let tile_seed = next_seed(&mut seed) ^ (tile_index as u64);
        let mut tile = MinesweeperBoard::new_no_guess_expert(tile_seed);
        let ghost fresh_tile = tile;
        assert(tile_start < MINESWEEPER_EXPERT_WIDTH * MINESWEEPER_EXPERT_HEIGHT);
        let _ = tile.reveal_cell(tile_start);
        proof {
            tile.lemma_consistent();
            lemma_first_reveal_is_safe(fresh_tile, tile, tile_start as int);
        }
        let global_start_row = tile_row * MINESWEEPER_EXPERT_HEIGHT + start_row;
        let global_start_col = tile_col * MINESWEEPER_EXPERT_WIDTH + start_col;
        assert(global_start_row * width + global_start_col < 90 * 48) by (nonlinear_arith)
            requires
                global_start_row < 48,
                global_start_col < width,
                width <= 90,
        ;
        let start = global_start_row * width + global_start_col;
        proof {
            assert(start == tile_cell(tile_cols as int, tile_index as int, start_row as int, start_col as int));
        }
        let ghost before_mines = mines@;
        let ghost prev_starts = starting_cells@;
        starting_cells.push(start);
        let local_mines = tile.mine_indices();
        let mut k: usize = 0;
        while k < local_mines.len()
            invariant
                1 <= tile_cols <= 3,
                width == tile_cols * MINESWEEPER_EXPERT_WIDTH,
                tile_row < 3,
                tile_col < tile_cols,
                tile_row == tile_index / tile_cols,
                tile_col == tile_index % tile_cols,
                tile.wf(),
                tile.n() == MINESWEEPER_EXPERT_WIDTH * MINESWEEPER_EXPERT_HEIGHT,
                mine_list_spec(tile.mine_map(), local_mines@),
                tile.mine_map().len() == tile.n(),
                !tile.mine_map()[tile_start as int],
                tile_start == start_row * MINESWEEPER_EXPERT_WIDTH + start_col,
                start_row < MINESWEEPER_EXPERT_HEIGHT,
                start_col < MINESWEEPER_EXPERT_WIDTH,
                k <= local_mines.len(),
                forall|m: usize|
                    #[trigger] mines@.contains(m) ==> before_mines.contains(m) || exists|r: int, c: int|
                        0 <= r < MINESWEEPER_EXPERT_HEIGHT && 0 <= c < MINESWEEPER_EXPERT_WIDTH && m == tile_cell(
                            tile_cols as int,
                            tile_index as int,
                            r,
                            c,
                        ) && !(r == start_row && c == start_col),
                forall|m: usize|
                    #[trigger] mines@.contains(m) <==> before_mines.contains(m) || exists|j: int|
                        0 <= j < k && m as int == tile_cell(
                            tile_cols as int,
                            tile_index as int,
                            local_mines@[j] as int / MINESWEEPER_EXPERT_WIDTH as int,
                            local_mines@[j] as int % MINESWEEPER_EXPERT_WIDTH as int,
                        ),
                mines@.finite(),
                mines@.len() == before_mines.len() + k,
                forall|m: usize|
                    #[trigger] before_mines.contains(m) ==> exists|t: int, r: int, c: int|
                        0 <= t < tile_index && 0 <= r < MINESWEEPER_EXPERT_HEIGHT && 0 <= c < MINESWEEPER_EXPERT_WIDTH
                            && m == tile_cell(tile_cols as int, t, r, c),
            decreases local_mines.len() - k,
        {
            let local_index = local_mines[k];
            let local_row = local_index / MINESWEEPER_EXPERT_WIDTH;
            let local_col = local_index % MINESWEEPER_EXPERT_WIDTH;
            let global_row = tile_row * MINESWEEPER_EXPERT_HEIGHT + local_row;
            let global_col = tile_col * MINESWEEPER_EXPERT_WIDTH + local_col;
            assert(global_row * width + global_col < 90 * 48) by (nonlinear_arith)
                requires
                    global_row < 48,
                    global_col < width,
                    width <= 90,
            ;
            proof {
                lemma_cell_index(
                    MINESWEEPER_EXPERT_WIDTH as int,
                    MINESWEEPER_EXPERT_HEIGHT as int,
                    local_row as int,
                    local_col as int,
                );
                vstd::arithmetic::div_mod::lemma_fundamental_div_mod(local_index as int, MINESWEEPER_EXPERT_WIDTH as int);
                assert(local_row < MINESWEEPER_EXPERT_HEIGHT) by (nonlinear_arith)
                    requires
                        local_index < 30 * 16,
                        local_row == local_index / 30,
                ;
                assert(local_index == local_row * 30 + local_col);
                assert(tile.mine_map()[local_index as int]);
                assert(local_index != tile_start);
                assert(global_row * width + global_col == tile_cell(
                    tile_cols as int,
                    tile_index as int,
                    local_row as int,
                    local_col as int,
                ));
            }
            let ghost pre = mines@;
            let cell = global_row * width + global_col;
            proof {
                let tc = tile_cols as int;
                let ti = tile_index as int;
                assert(local_mines@[k as int] == local_index);
                if pre.contains(cell) {
                    if before_mines.contains(cell) {
                        let (t2, r2, c2) = choose|t2: int, r2: int, c2: int|
                            0 <= t2 < tile_index && 0 <= r2 < MINESWEEPER_EXPERT_HEIGHT && 0 <= c2
                                < MINESWEEPER_EXPERT_WIDTH && cell == tile_cell(tc, t2, r2, c2);
                        lemma_tile_cell_unique(tc, ti, local_row as int, local_col as int, t2, r2, c2);
                    } else {
                        let j = choose|j: int|
                            0 <= j < k && cell as int == tile_cell(
                                tc,
                                ti,
                                local_mines@[j] as int / MINESWEEPER_EXPERT_WIDTH as int,
                                local_mines@[j] as int % MINESWEEPER_EXPERT_WIDTH as int,
                            );
                        lemma_row_col(
                            MINESWEEPER_EXPERT_WIDTH as int,
                            MINESWEEPER_EXPERT_HEIGHT as int,
                            local_mines@[j] as int,
                        );
                        lemma_tile_cell_unique(
                            tc,
                            ti,
                            local_row as int,
                            local_col as int,
                            ti,
                            local_mines@[j] as int / MINESWEEPER_EXPERT_WIDTH as int,
                            local_mines@[j] as int % MINESWEEPER_EXPERT_WIDTH as int,
                        );
                        assert(local_mines@[j] < local_mines@[k as int]);
                    }
                }
            }
            mines.insert(cell);
            proof {
                assert(local_mines@[k as int] == local_index);
                assert forall|m: usize| #[trigger] mines@.contains(m) <==> before_mines.contains(m) || exists|j: int|
                    0 <= j < k + 1 && m as int == tile_cell(
                        tile_cols as int,
                        tile_index as int,
                        local_mines@[j] as int / MINESWEEPER_EXPERT_WIDTH as int,
                        local_mines@[j] as int % MINESWEEPER_EXPERT_WIDTH as int,
                    ) by {
                    if m == cell {
                        assert(m as int == tile_cell(
                            tile_cols as int,
                            tile_index as int,
                            local_mines@[k as int] as int / MINESWEEPER_EXPERT_WIDTH as int,
                            local_mines@[k as int] as int % MINESWEEPER_EXPERT_WIDTH as int,
                        ));
                    } else {
                        assert(mines@.contains(m) == pre.contains(m));
                        if exists|j: int|
                            0 <= j < k + 1 && m as int == tile_cell(
                                tile_cols as int,
                                tile_index as int,
                                local_mines@[j] as int / MINESWEEPER_EXPERT_WIDTH as int,
                                local_mines@[j] as int % MINESWEEPER_EXPERT_WIDTH as int,
                            ) {
                            let j = choose|j: int|
                                0 <= j < k + 1 && m as int == tile_cell(
                                    tile_cols as int,
                                    tile_index as int,
                                    local_mines@[j] as int / MINESWEEPER_EXPERT_WIDTH as int,
                                    local_mines@[j] as int % MINESWEEPER_EXPERT_WIDTH as int,
                                );
                            assert(j != k);
                        }
                    }
                }
            }
            k = k + 1;
        }
        proof {
            let ti = tile_index as int;
            let tc = tile_cols as int;
            let n = (width * height) as nat;
            assert(placement_step(fresh_tile, tile, tile_start as int));
            let s = choose|s: u64|
                tile.mine_map() == plain_layout_flags(
                    MINESWEEPER_EXPERT_WIDTH as int,
                    MINESWEEPER_EXPERT_HEIGHT as int,
                    MINESWEEPER_EXPERT_MINES as int,
                    tile_start as int,
                    s,
                );
            assert(width * height == (tile_rows * MINESWEEPER_EXPERT_HEIGHT) * (tile_cols * MINESWEEPER_EXPERT_WIDTH))
                by (nonlinear_arith)
                requires
                    width == tile_cols * MINESWEEPER_EXPERT_WIDTH,
                    height == tile_rows * MINESWEEPER_EXPERT_HEIGHT,
            ;
            assert forall|t: int| 0 <= t < ti implies #[trigger] tile_holds_layout(
                set_flags(before_mines, n),
                tc,
                t,
                starting_cells@[t] as int,
            ) by {
                assert(starting_cells@[t] == prev_starts[t]);
            }
            lemma_placed_mine_count(fresh_tile, tile, tile_start as int);
            lemma_mine_list_len(tile.mine_map(), local_mines@);
            assert(mines@.len() == (tile_index + 1) * MINESWEEPER_EXPERT_MINES) by (nonlinear_arith)
                requires
                    mines@.len() == before_mines.len() + local_mines.len(),
                    before_mines.len() == tile_index * MINESWEEPER_EXPERT_MINES,
                    local_mines.len() == MINESWEEPER_EXPERT_MINES,
            ;
            lemma_tile_copied(
                mines@,
                before_mines,
                n,
                tc,
                tile_rows as int,
                ti,
                starting_cells@,
                local_mines@,
                tile.mine_map(),
                start_row as int,
                start_col as int,
                s,
            );
            let (sr, sc) = choose|r: int, c: int|
                4 <= r < MINESWEEPER_EXPERT_HEIGHT - 4 && 4 <= c < MINESWEEPER_EXPERT_WIDTH - 4 && start
                    == #[trigger] tile_cell(tc, ti, r, c);
            assert(start == tile_cell(tc, ti, start_row as int, start_col as int));
            lemma_tile_cell_unique(tc, ti, sr, sc, ti, start_row as int, start_col as int);
            assert forall|m: usize| #[trigger] mines@.contains(m) implies exists|t: int, r: int, c: int|
                0 <= t < tile_index + 1 && 0 <= r < MINESWEEPER_EXPERT_HEIGHT && 0 <= c < MINESWEEPER_EXPERT_WIDTH && m
                    == tile_cell(tc, t, r, c) by {
                if before_mines.contains(m) {
                    let (t, r, c) = choose|t: int, r: int, c: int|
                        0 <= t < tile_index && 0 <= r < MINESWEEPER_EXPERT_HEIGHT && 0 <= c < MINESWEEPER_EXPERT_WIDTH && m
                            == tile_cell(tc, t, r, c);
                } else {
                    let (r, c) = choose|r: int, c: int|
                        0 <= r < MINESWEEPER_EXPERT_HEIGHT && 0 <= c < MINESWEEPER_EXPERT_WIDTH && m == tile_cell(
                            tc,
                            ti,
                            r,
                            c,
                        ) && !(r == start_row && c == start_col);
                    assert(m == tile_cell(tc, ti, r, c));
                }
            }
            assert forall|t: int| 0 <= t < tile_index + 1 implies !mines@.contains(#[trigger] starting_cells@[t]) by {
                let st = starting_cells@[t];
                let (tr, tcc) = choose|r: int, c: int|
                    4 <= r < MINESWEEPER_EXPERT_HEIGHT - 4 && 4 <= c < MINESWEEPER_EXPERT_WIDTH - 4 && st as int
                        == #[trigger] tile_cell(tc, t, r, c);
                if mines@.contains(st) {
                    if before_mines.contains(st) {
                        let (t2, r2, c2) = choose|t2: int, r2: int, c2: int|
                            0 <= t2 < tile_index && 0 <= r2 < MINESWEEPER_EXPERT_HEIGHT && 0 <= c2
                                < MINESWEEPER_EXPERT_WIDTH && st == tile_cell(tc, t2, r2, c2);
                        lemma_tile_cell_unique(tc, t, tr, tcc, t2, r2, c2);
                        assert(t < tile_index);
                        assert(starting_cells@[t] == prev_starts[t]);
                    } else {
                        let (r2, c2) = choose|r2: int, c2: int|
                            0 <= r2 < MINESWEEPER_EXPERT_HEIGHT && 0 <= c2 < MINESWEEPER_EXPERT_WIDTH && st == tile_cell(
                                tc,
                                ti,
                                r2,
                                c2,
                            ) && !(r2 == start_row && c2 == start_col);
                        lemma_tile_cell_unique(tc, t, tr, tcc, ti, r2, c2);
                        assert(t == ti);
                        assert(st == start);
                        lemma_tile_cell_unique(tc, ti, start_row as int, start_col as int, ti, r2, c2);
                    }
                }
            }
        }
        tile_index = tile_index + 1;
    }
    let ghost mine_set = mines@;
    let board = MinesweeperBoard::from_mines(width, height, mines, seed);
    proof {
        assert forall|t: int| 0 <= t < starting_cells.len() implies !board.mine_map()[#[trigger] starting_cells@[t] as int]
            && starting_cells@[t] < board.n() by {
            let st = starting_cells@[t];
            let (r, c) = choose|r: int, c: int|
                4 <= r < MINESWEEPER_EXPERT_HEIGHT - 4 && 4 <= c < MINESWEEPER_EXPERT_WIDTH - 4 && st as int
                    == #[trigger] tile_cell(tile_cols as int, t, r, c);
            assert(!mine_set.contains(st));
            assert(board.mine_map()[st as int] == mine_set.contains(st) && (st as int) < board.n()) by {
                let tc = tile_cols as int;
                let q = t / tc;
                let rem = t % tc;
                vstd::arithmetic::div_mod::lemma_fundamental_div_mod(t, tc);
                assert(q < tile_rows) by (nonlinear_arith)
                    requires
                        t == tc * q + rem,
                        0 <= rem < tc,
                        t < tile_rows * tc,
                        1 <= tc,
                ;
                assert(0 <= q) by (nonlinear_arith)
                    requires
                        t == tc * q + rem,
                        0 <= rem < tc,
                        0 <= t,
                        1 <= tc,
                ;
                let gr = q * 16 + r;
                let gc = rem * 30 + c;
                assert(gc < tc * 30) by (nonlinear_arith)
                    requires
                        gc == rem * 30 + c,
                        0 <= rem < tc,
                        c < 30,
                ;
                assert(0 <= gc) by (nonlinear_arith)
                    requires
                        gc == rem * 30 + c,
                        0 <= rem,
                        0 <= c,
                ;
                assert(gr < tile_rows * 16) by (nonlinear_arith)
                    requires
                        gr == q * 16 + r,
                        q < tile_rows,
                        r < 16,
                ;
                assert(0 <= gr) by (nonlinear_arith)
                    requires
                        gr == q * 16 + r,
                        0 <= q,
                        0 <= r,
                ;
                assert(st as int == gr * (tc * 30) + gc);
                lemma_cell_index(tc * 30, tile_rows * 16, gr, gc);
                assert((st as int) < board.n());
            }
        }
    }
    proof {
        assert(board.n() == width * height);
        assert(board.mine_map() =~= set_flags(mine_set, (width * height) as nat));
        assert forall|m: usize| mine_set.contains(m) implies m < board.n() by {
            let (t, r, c) = choose|t: int, r: int, c: int|
                0 <= t < tile_count && 0 <= r < MINESWEEPER_EXPERT_HEIGHT && 0 <= c < MINESWEEPER_EXPERT_WIDTH && m
                    == tile_cell(tile_cols as int, t, r, c);
            lemma_tile_cell_in_room(tile_cols as int, tile_rows as int, t, r, c);
            assert(width * height == (tile_rows * MINESWEEPER_EXPERT_HEIGHT) * (tile_cols * MINESWEEPER_EXPERT_WIDTH))
                by (nonlinear_arith)
                requires
                    width == tile_cols * MINESWEEPER_EXPERT_WIDTH,
                    height == tile_rows * MINESWEEPER_EXPERT_HEIGHT,
            ;
        }
        assert(indices_below(mine_set, board.n()) =~= mine_set);
    }
    RoomMinesweeperBoard { board, starting_cells, tile_rows, tile_cols }
}

/// The time limit a room starts with, in seconds.
pub fn default_room_minesweeper_time_limit_seconds() -> (s: u32)
    ensures
        s == ROOM_MINESWEEPER_DEFAULT_SECONDS,
{
    ROOM_MINESWEEPER_DEFAULT_SECONDS
}

/// A requested time limit kept between the shortest and the longest allowed.
pub fn clamp_room_minesweeper_time_limit_seconds(seconds: u32) -> (s: u32)
    ensures
        s == if seconds < ROOM_MINESWEEPER_MIN_SECONDS {
            ROOM_MINESWEEPER_MIN_SECONDS
        } else if seconds > ROOM_MINESWEEPER_MAX_SECONDS {
            ROOM_MINESWEEPER_MAX_SECONDS
        } else {
            seconds
        },
{
    if seconds < ROOM_MINESWEEPER_MIN_SECONDS {
        ROOM_MINESWEEPER_MIN_SECONDS
    } else if seconds > ROOM_MINESWEEPER_MAX_SECONDS {
        ROOM_MINESWEEPER_MAX_SECONDS
    } else {
        seconds
    }
}

/// The number of tile rows a room starts with.
pub fn default_room_minesweeper_tile_rows() -> (r: usize)
    ensures
        r == ROOM_MINESWEEPER_DEFAULT_TILE_ROWS,
{
    ROOM_MINESWEEPER_DEFAULT_TILE_ROWS
}

/// The number of tile columns a room starts with.
pub fn default_room_minesweeper_tile_cols() -> (c: usize)
    ensures
        c == ROOM_MINESWEEPER_DEFAULT_TILE_COLS,
{
    ROOM_MINESWEEPER_DEFAULT_TILE_COLS
}

/// A tile count along one axis kept between 1 and 3.
pub fn clamp_room_minesweeper_tile_axis(value: usize) -> (r: usize)
    ensures
        r == clamp_tile_axis_spec(value),
{
    if value < ROOM_MINESWEEPER_MIN_TILE_AXIS {
        ROOM_MINESWEEPER_MIN_TILE_AXIS
    } else if value > ROOM_MINESWEEPER_MAX_TILE_AXIS {
        ROOM_MINESWEEPER_MAX_TILE_AXIS
    } else {
        value
    }
}

} // verus!
