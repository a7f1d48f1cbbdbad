//! How a player paints a nonogram: what a click or a drag does to a cell, the cells a
//! free, line or rectangle drag covers, and the drag in progress with its cell counter.

use vstd::prelude::*;
use std::collections::BTreeSet;
use vstd::relations::injective_on;
use vstd::arithmetic::div_mod::{lemma_div_is_ordered, lemma_fundamental_div_mod};
use vstd::set_lib::{lemma_int_range, lemma_len_subset, lemma_map_size, set_int_range};
use crate::grid::lemma_cell_index;
use crate::nonogram::{NonogramCellState, NonogramValidation};
use crate::queens::{append_decimal, decimal_text};
use crate::room_snapshot::{in_order, sorted_members};
use crate::room_view::append_decimal_u64;

verus! {

broadcast use vstd::std_specs::btree::group_btree_axioms, vstd::laws_cmp::group_laws_cmp, vstd::set::group_set_axioms;

/// What a stroke does to each cell it covers: put a mark, or clear one kind of mark.
#[derive(Debug, Clone, Copy, PartialEq, Eq, Structural)]
pub enum NonogramPaintAction {
    SetState(NonogramCellState),
    ClearMatching(NonogramCellState),
}

/// The new state of a cell under a stroke, if the stroke changes it.
pub open spec fn next_cell_spec(action: NonogramPaintAction, current: NonogramCellState) -> Option<
    NonogramCellState,
> {
    match action {
        NonogramPaintAction::SetState(state) => if current == state {
            None
        } else {
            Some(state)
        },
        NonogramPaintAction::ClearMatching(state) => if current == state {
            Some(NonogramCellState::Hidden)
        } else {
            None
        },
    }
}

/// The state of a cell once a stroke has passed over it.
pub open spec fn painted(action: NonogramPaintAction, current: NonogramCellState) -> NonogramCellState {
    match next_cell_spec(action, current) {
        Some(next) => next,
        None => current,
    }
}

impl NonogramPaintAction {
    /// The new state of a cell in state `current`, or `None` when the stroke leaves it.
    pub fn next_cell(self, current: NonogramCellState) -> (next: Option<NonogramCellState>)
        ensures
            next == next_cell_spec(self, current),
    {
        match self {
            NonogramPaintAction::SetState(state) => {
                if current == state {
                    None
                } else {
                    Some(state)
                }
            },
            NonogramPaintAction::ClearMatching(state) => {
                if current == state {
                    Some(NonogramCellState::Hidden)
                } else {
                    None
                }
            },
        }
    }
}

/// The shape a drag paints: every cell passed over, a straight line from the first cell, or
/// the rectangle between the first cell and the current one.
#[derive(Debug, Clone, Copy, PartialEq, Eq, Structural)]
pub enum NonogramInputShape {
    Free,
    Line,
    Rect,
}

/// The stroke of the main button with mark `selected` chosen, starting on a cell in state
/// `current`: on a cell that already holds that mark it clears the mark, elsewhere it sets it.
pub open spec fn primary_paint_action_spec(selected: NonogramCellState, current: NonogramCellState) -> NonogramPaintAction {
    if selected == current && selected != NonogramCellState::Hidden {
        NonogramPaintAction::ClearMatching(selected)
    } else {
        NonogramPaintAction::SetState(selected)
    }
}

/// The stroke of the main button with mark `selected` chosen, starting on a cell in state
/// `current`.
pub fn nonogram_primary_paint_action(selected: NonogramCellState, current: NonogramCellState) -> (a:
    NonogramPaintAction)
    ensures
        a == primary_paint_action_spec(selected, current),
{
    match (selected, current) {
        (NonogramCellState::Filled, NonogramCellState::Filled) => NonogramPaintAction::ClearMatching(
            NonogramCellState::Filled,
        ),
        (NonogramCellState::Crossed, NonogramCellState::Crossed) => NonogramPaintAction::ClearMatching(
            NonogramCellState::Crossed,
        ),
        _ => NonogramPaintAction::SetState(selected),
    }
}

/// The filling stroke that starts on a cell in state `current`.
pub fn nonogram_fill_paint_action(current: NonogramCellState) -> (a: NonogramPaintAction)
    ensures
        a == primary_paint_action_spec(NonogramCellState::Filled, current),
{
    nonogram_primary_paint_action(NonogramCellState::Filled, current)
}

/// The crossing stroke that starts on a cell in state `current`: it clears crosses from a
/// crossed cell and crosses out anything else.
pub fn nonogram_cross_paint_action(current: NonogramCellState) -> (a: NonogramPaintAction)
    ensures
        a == if current == NonogramCellState::Crossed {
            NonogramPaintAction::ClearMatching(NonogramCellState::Crossed)
        } else {
            NonogramPaintAction::SetState(NonogramCellState::Crossed)
        },
{
    match current {
        NonogramCellState::Crossed => NonogramPaintAction::ClearMatching(NonogramCellState::Crossed),
        NonogramCellState::Hidden | NonogramCellState::Filled => NonogramPaintAction::SetState(
            NonogramCellState::Crossed,
        ),
    }
}

/// The smaller and the larger of two numbers.
pub open spec fn low(a: int, b: int) -> int {
    if a <= b {
        a
    } else {
        b
    }
}

pub open spec fn high(a: int, b: int) -> int {
    if a <= b {
        b
    } else {
        a
    }
}

/// The cells of row `row` from column `first` to column `last`, left to right.
pub open spec fn row_span(width: int, row: int, first: int, last: int) -> Seq<usize> {
    Seq::new((last - first + 1) as nat, |k: int| (row * width + first + k) as usize)
}

/// The cells of column `col` from row `first` to row `last`, top to bottom.
pub open spec fn col_span(width: int, col: int, first: int, last: int) -> Seq<usize> {
    Seq::new((last - first + 1) as nat, |k: int| ((first + k) * width + col) as usize)
}

/// The first `rows` rows of a rectangle whose top row is `top`, each from column `first` to
/// column `last`, row by row.
pub open spec fn rect_rows(width: int, top: int, rows: nat, first: int, last: int) -> Seq<usize>
    decreases rows,
{
    if rows == 0 {
        seq![]
    } else {
        rect_rows(width, top, (rows - 1) as nat, first, last) + row_span(width, top + rows - 1, first, last)
    }
}

/// Whether a line between two cells runs along the row: when they share a row, or when
/// they lie in different columns at least as far apart as their rows.
pub open spec fn line_is_horizontal(start_row: int, start_col: int, end_row: int, end_col: int) -> bool {
    start_row == end_row || (start_col != end_col && high(start_col, end_col) - low(start_col, end_col)
        >= high(start_row, end_row) - low(start_row, end_row))
}

/// The cells a drag from `start` to `end` paints on a `width` by `height` board: nothing
/// when either cell is off the board (or the board is empty), the end cell alone for a
/// free drag, the straight line from the start cell along its row or column for a line,
/// and the rectangle between them, row by row, for a rectangle.
pub open spec fn shape_indexes_spec(width: usize, height: usize, start: usize, end: usize, shape: NonogramInputShape) -> Seq<usize> {
    if width == 0 || height == 0 || width * height > usize::MAX || start >= width * height || end >= width
        * height {
        seq![]
    } else {
        let sr = start / width;
        let sc = start % width;
        let er = end / width;
        let ec = end % width;
        match shape {
            NonogramInputShape::Free => seq![end],
            NonogramInputShape::Line => if line_is_horizontal(sr as int, sc as int, er as int, ec as int) {
                row_span(width as int, sr as int, low(sc as int, ec as int), high(sc as int, ec as int))
            } else {
                col_span(width as int, sc as int, low(sr as int, er as int), high(sr as int, er as int))
            },
            NonogramInputShape::Rect => rect_rows(
                width as int,
                low(sr as int, er as int),
                (high(sr as int, er as int) - low(sr as int, er as int) + 1) as nat,
                low(sc as int, ec as int),
                high(sc as int, ec as int),
            ),
        }
    }
}

/// The smaller and the larger of two numbers.
fn sorted_pair(left: usize, right: usize) -> (p: (usize, usize))
    ensures
        p.0 == low(left as int, right as int),
        p.1 == high(left as int, right as int),
{
    if left <= right {
        (left, right)
    } else {
        (right, left)
    }
}

/// Pushes the cells of row `row` from column `first` to column `last`.
fn push_row_span(indexes: &mut Vec<usize>, width: usize, height: usize, row: usize, first: usize, last: usize)
    requires
        first <= last < width,
        row < height,
        width * height <= usize::MAX,
    ensures
        final(indexes)@ == old(indexes)@ + row_span(width as int, row as int, first as int, last as int),
{
    let ghost start = indexes@;
    let mut col = first;
    while col <= last
        invariant
            first <= col <= last + 1,
            last < width,
            row < height,
            width * height <= usize::MAX,
            indexes@ == start + row_span(width as int, row as int, first as int, col - 1),
        decreases last + 1 - col,
    {
        proof {
            lemma_cell_index(width as int, height as int, row as int, col as int);
            assert(row_span(width as int, row as int, first as int, col as int) == row_span(
                width as int,
                row as int,
                first as int,
                col - 1,
            ).push((row * width + col) as usize));
        }
        indexes.push(row * width + col);
        col = col + 1;
    }
}

/// The cells a drag from `start` to `end` paints.
pub fn nonogram_shape_indexes(width: usize, height: usize, start: usize, end: usize, shape: NonogramInputShape) -> (v:
    Vec<usize>)
    ensures
        v@ == shape_indexes_spec(width, height, start, end, shape),
        forall|k: int| 0 <= k < v.len() ==> (#[trigger] v@[k]) < width * height,
{
    if width == 0 || height == 0 {
        return Vec::new();
    }
    let cell_count = match width.checked_mul(height) {
        Some(c) => c,
        None => {
            return Vec::new();
        },
    };
    if start >= cell_count || end >= cell_count {
        return Vec::new();
    }
    let start_row = start / width;
    let start_col = start % width;
    let end_row = end / width;
    let end_col = end % width;
    proof {
        vstd::arithmetic::div_mod::lemma_fundamental_div_mod(start as int, width as int);
        vstd::arithmetic::div_mod::lemma_fundamental_div_mod(end as int, width as int);
        assert(start_row < height) by (nonlinear_arith)
            requires
                start_row == start / width,
                start < width * height,
                width > 0,
                start == width * (start / width) + start % width,
                start % width >= 0,
        ;
        assert(end_row < height) by (nonlinear_arith)
            requires
                end_row == end / width,
                end < width * height,
                width > 0,
                end == width * (end / width) + end % width,
                end % width >= 0,
        ;
    }
    let mut indexes: Vec<usize> = Vec::new();
    match shape {
        NonogramInputShape::Free => {
            indexes.push(end);
            proof {
                assert(indexes@ == seq![end]);
            }
        },
        NonogramInputShape::Line => {
            let col_distance = if start_col <= end_col {
                end_col - start_col
            } else {
                start_col - end_col
            };
            let row_distance = if start_row <= end_row {
                end_row - start_row
            } else {
                start_row - end_row
            };
            let horizontal = start_row == end_row || (start_col != end_col && col_distance >= row_distance);
            if horizontal {
                let (first_col, last_col) = sorted_pair(start_col, end_col);
                push_row_span(&mut indexes, width, height, start_row, first_col, last_col);
                proof {
                    assert(indexes@ == row_span(width as int, start_row as int, first_col as int, last_col as int));
                }
            } else {
                let (first_row, last_row) = sorted_pair(start_row, end_row);
                let mut row = first_row;
                while row <= last_row
                    invariant
                        first_row <= row <= last_row + 1,
                        last_row < height,
                        start_col < width,
                        width * height <= usize::MAX,
                        indexes@ == col_span(width as int, start_col as int, first_row as int, row - 1),
                    decreases last_row + 1 - row,
                {
                    proof {
                        lemma_cell_index(width as int, height as int, row as int, start_col as int);
                        assert(col_span(width as int, start_col as int, first_row as int, row as int) == col_span(
                            width as int,
                            start_col as int,
                            first_row as int,
                            row - 1,
                        ).push((row * width + start_col) as usize));
                    }
                    indexes.push(row * width + start_col);
                    row = row + 1;
                }
            }
        },
        NonogramInputShape::Rect => {
            let (first_row, last_row) = sorted_pair(start_row, end_row);
            let (first_col, last_col) = sorted_pair(start_col, end_col);
            let mut row = first_row;
            while row <= last_row
                invariant
                    first_row <= row <= last_row + 1,
                    last_row < height,
                    first_col <= last_col < width,
                    width * height <= usize::MAX,
                    indexes@ == rect_rows(
                        width as int,
                        first_row as int,
                        (row - first_row) as nat,
                        first_col as int,
                        last_col as int,
                    ),
                decreases last_row + 1 - row,
            {
                push_row_span(&mut indexes, width, height, row, first_col, last_col);
                row = row + 1;
            }
        },
    }
    proof {
        assert forall|k: int| 0 <= k < indexes.len() implies (#[trigger] indexes@[k]) < width * height by {
            lemma_shape_indexes_on_board(width, height, start, end, shape, k);
        }
    }
    indexes
}

/// Every cell a drag paints lies on the board.
proof fn lemma_shape_indexes_on_board(width: usize, height: usize, start: usize, end: usize, shape: NonogramInputShape, k: int)
    requires
        0 <= k < shape_indexes_spec(width, height, start, end, shape).len(),
    ensures
        shape_indexes_spec(width, height, start, end, shape)[k] < width * height,
{
    let sr = start / width;
    let sc = start % width;
    let er = end / width;
    let ec = end % width;
    vstd::arithmetic::div_mod::lemma_fundamental_div_mod(start as int, width as int);
    vstd::arithmetic::div_mod::lemma_fundamental_div_mod(end as int, width as int);
    assert(sr < height) by (nonlinear_arith)
        requires
            sr == start / width,
            start < width * height,
            width > 0,
            start == width * (start / width) + start % width,
            start % width >= 0,
    ;
    assert(er < height) by (nonlinear_arith)
        requires
            er == end / width,
            end < width * height,
            width > 0,
            end == width * (end / width) + end % width,
            end % width >= 0,
    ;
    match shape {
        NonogramInputShape::Free => {},
        NonogramInputShape::Line => {
            if line_is_horizontal(sr as int, sc as int, er as int, ec as int) {
                lemma_cell_index(width as int, height as int, sr as int, low(sc as int, ec as int) + k);
            } else {
                lemma_cell_index(width as int, height as int, low(sr as int, er as int) + k, sc as int);
            }
        },
        NonogramInputShape::Rect => {
            lemma_rect_rows_on_board(
                width as int,
                height as int,
                low(sr as int, er as int),
                (high(sr as int, er as int) - low(sr as int, er as int) + 1) as nat,
                low(sc as int, ec as int),
                high(sc as int, ec as int),
                k,
            );
        },
    }
}

proof fn lemma_rect_rows_on_board(width: int, height: int, top: int, rows: nat, first: int, last: int, k: int)
    requires
        0 <= top,
        top + rows <= height,
        0 <= first <= last < width,
        0 <= k < rect_rows(width, top, rows, first, last).len(),
    ensures
        0 <= rect_rows(width, top, rows, first, last)[k] < width * height,
        rect_rows(width, top, rows, first, last).len() == rows * (last - first + 1),
    decreases rows,
{
    if rows > 0 {
        let prev = rect_rows(width, top, (rows - 1) as nat, first, last);
        if k < prev.len() {
            lemma_rect_rows_on_board(width, height, top, (rows - 1) as nat, first, last, k);
        } else {
            lemma_rect_rows_len(width, top, (rows - 1) as nat, first, last);
            lemma_cell_index(width, height, top + rows - 1, first + (k - prev.len()));
        }
        lemma_rect_rows_len(width, top, rows, first, last);
    }
}

proof fn lemma_rect_rows_len(width: int, top: int, rows: nat, first: int, last: int)
    requires
        first <= last,
    ensures
        rect_rows(width, top, rows, first, last).len() == rows * (last - first + 1),
    decreases rows,
{
    let l = last - first + 1;
    if rows > 0 {
        lemma_rect_rows_len(width, top, (rows - 1) as nat, first, last);
        assert(row_span(width, top + rows - 1, first, last).len() == l);
        assert(rows * l == (rows - 1) * l + l) by (nonlinear_arith);
    } else {
        assert(rows * l == 0) by (nonlinear_arith)
            requires
                rows == 0,
        ;
    }
}

/// A player's cell before a drag began: the saved state where there is one, `fallback`
/// past the end of the saved grid.
pub open spec fn original_at(originals: Seq<NonogramCellState>, index: int, fallback: NonogramCellState) -> NonogramCellState {
    if 0 <= index < originals.len() {
        originals[index]
    } else {
        fallback
    }
}

/// A drag in progress: its stroke and first cell, the grid as it was when it began, the
/// cells it has painted, where the pointer is, and how many cells it covers.
pub struct NonogramDragState {
    action: Option<NonogramPaintAction>,
    start: Option<usize>,
    original_cells: Vec<NonogramCellState>,
    touched: BTreeSet<usize>,
    pointer_position: Option<(i32, i32)>,
    count: usize,
}

impl NonogramDragState {
    /// The stroke of the drag; `None` when no drag is under way.
    pub closed spec fn paint(&self) -> Option<NonogramPaintAction> {
        self.action
    }

    /// The cell the drag began on.
    pub closed spec fn anchor(&self) -> Option<usize> {
        self.start
    }

    /// The grid as it was when the drag began.
    pub closed spec fn originals(&self) -> Seq<NonogramCellState> {
        self.original_cells@
    }

    /// The cells the drag has painted.
    pub closed spec fn touched_cells(&self) -> Set<usize> {
        self.touched@
    }

    /// The pointer's position on the page, in whole pixels.
    pub closed spec fn pointer(&self) -> Option<(i32, i32)> {
        self.pointer_position
    }

    /// How many cells the drag covers.
    pub closed spec fn counted(&self) -> usize {
        self.count
    }

    /// The count is the number of painted cells, and each painted cell is an index into a
    /// grid.
    pub open spec fn wf(&self) -> bool {
        &&& self.touched_cells().finite()
        &&& self.counted() == self.touched_cells().len()
        &&& forall|i: usize| self.touched_cells().contains(i) ==> i < usize::MAX
    }
}

/// A drag at rest: no stroke, nothing saved or painted.
pub open spec fn idle(d: NonogramDragState) -> bool {
    &&& d.paint() is None
    &&& d.anchor() is None
    &&& d.originals() == Seq::<NonogramCellState>::empty()
    &&& d.touched_cells() == Set::<usize>::empty()
    &&& d.pointer() is None
    &&& d.counted() == 0
}

impl Default for NonogramDragState {
    fn default() -> (d: Self)
        ensures
            d.wf(),
            idle(d),
    {
        NonogramDragState {
            action: None,
            start: None,
            original_cells: Vec::new(),
            touched: BTreeSet::new(),
            pointer_position: None,
            count: 0,
        }
    }
}

/// Whether a drag reaches cell `index` of a grid of `len` cells: the cell is on the grid,
/// a drag is under way, and the shape from its first cell covers something.
pub open spec fn drag_reaches(d: NonogramDragState, width: usize, height: usize, shape: NonogramInputShape, len: nat, index: usize) -> bool {
    &&& index < len
    &&& d.anchor() is Some
    &&& d.paint() is Some
    &&& shape_indexes_spec(width, height, d.anchor()->0, index, shape).len() > 0
}

/// The cells of a shape that lie on a grid of `len` cells.
pub open spec fn active_cells(indexes: Seq<usize>, len: nat) -> Set<usize> {
    Set::new(|i: usize| indexes.contains(i) && i < len)
}

/// The grid after a line or rectangle drag moved to cover `active`: each covered cell is
/// its original state under the stroke, each cell painted before but no longer covered is
/// back to its original state, and the rest stay as they are.
pub open spec fn reshaped_cells(
    cells: Seq<NonogramCellState>,
    originals: Seq<NonogramCellState>,
    touched: Set<usize>,
    active: Set<usize>,
    action: NonogramPaintAction,
) -> Seq<NonogramCellState> {
    Seq::new(
        cells.len(),
        |i: int|
            if active.contains(i as usize) {
                painted(action, original_at(originals, i, cells[i]))
            } else if touched.contains(i as usize) {
                original_at(originals, i, cells[i])
            } else {
                cells[i]
            },
    )
}

/// A drag moved onto cell `index`. Where it does not reach, nothing changes. A free drag
/// paints the cell (from its original state) and adds it to the painted cells. A line or
/// rectangle drag repaints the grid to cover exactly its shape from the first cell, and its
/// painted cells become that shape.
pub open spec fn drag_applied(
    before: NonogramDragState,
    after: NonogramDragState,
    cells: Seq<NonogramCellState>,
    new_cells: Seq<NonogramCellState>,
    width: usize,
    height: usize,
    shape: NonogramInputShape,
    index: usize,
) -> bool {
    if !drag_reaches(before, width, height, shape, cells.len(), index) {
        after == before && new_cells == cells
    } else {
        let action = before.paint()->0;
        &&& after.paint() == before.paint()
        &&& after.anchor() == before.anchor()
        &&& after.originals() == before.originals()
        &&& after.pointer() == before.pointer()
        &&& if shape == NonogramInputShape::Free {
            &&& new_cells == cells.update(
                index as int,
                painted(action, original_at(before.originals(), index as int, cells[index as int])),
            )
            &&& after.touched_cells() == before.touched_cells().insert(index)
        } else {
            let active = active_cells(
                shape_indexes_spec(width, height, before.anchor()->0, index, shape),
                cells.len(),
            );
            &&& new_cells == reshaped_cells(cells, before.originals(), before.touched_cells(), active, action)
            &&& after.touched_cells() == active
        }
    }
}

impl NonogramDragState {
    /// Begins a drag on cell `index` with stroke `action`, saving the grid as it is.
    pub fn start(&mut self, index: usize, action: NonogramPaintAction, cells: &[NonogramCellState])
        ensures
            final(self).wf(),
            final(self).paint() == Some(action),
            final(self).anchor() == Some(index),
            final(self).originals() == cells@,
            final(self).touched_cells() == Set::<usize>::empty(),
            final(self).pointer() is None,
    {
        self.original_cells.clear();
        let mut k: usize = 0;
        while k < cells.len()
            invariant
                k <= cells.len(),
                self.original_cells@ == cells@.take(k as int),
            decreases cells.len() - k,
        {
            self.original_cells.push(cells[k]);
            proof {
                assert(cells@.take(k + 1) == cells@.take(k as int).push(cells@[k as int]));
            }
            k = k + 1;
        }
        proof {
            assert(cells@.take(k as int) == cells@);
        }
        self.action = Some(action);
        self.start = Some(index);
        self.touched.clear();
        self.pointer_position = None;
        self.count = 0;
    }

    /// A cell's state before the drag began, or `fallback` past the saved grid.
    fn original_cell(&self, index: usize, fallback: NonogramCellState) -> (c: NonogramCellState)
        ensures
            c == original_at(self.originals(), index as int, fallback),
    {
        if index < self.original_cells.len() {
            self.original_cells[index]
        } else {
            fallback
        }
    }

    /// Moves the drag onto cell `index` of a `width` by `height` grid painted with `shape`,
    /// and says whether any cell changed.
    pub fn apply(
        &mut self,
        width: usize,
        height: usize,
        shape: NonogramInputShape,
        cells: &mut Vec<NonogramCellState>,
        index: usize,
    ) -> (changed: bool)
        requires
            old(self).wf(),
            drag_reaches(*old(self), width, height, shape, old(cells)@.len(), index) && shape
                != NonogramInputShape::Free ==> forall|i: usize|
                old(self).touched_cells().contains(i) ==> i < old(cells)@.len(),
        ensures
            final(self).wf(),
            drag_applied(*old(self), *final(self), old(cells)@, final(cells)@, width, height, shape, index),
            changed == (final(cells)@ != old(cells)@),
    {
        if index >= cells.len() {
            return false;
        }
        let (start, action) = match (self.start, self.action) {
            (Some(start), Some(action)) => (start, action),
            _ => {
                return false;
            },
        };
        let indexes = nonogram_shape_indexes(width, height, start, index, shape);
        if indexes.len() == 0 {
            return false;
        }
        match shape {
            NonogramInputShape::Free => self.apply_free(action, cells, index),
            _ => self.apply_shaped(action, cells, &indexes),
        }
    }

    fn apply_free(&mut self, action: NonogramPaintAction, cells: &mut Vec<NonogramCellState>, index: usize) -> (changed: bool)
        requires
            old(self).wf(),
            index < old(cells).len(),
        ensures
            final(self).wf(),
            final(self).paint() == old(self).paint(),
            final(self).anchor() == old(self).anchor(),
            final(self).originals() == old(self).originals(),
            final(self).pointer() == old(self).pointer(),
            final(cells)@ == old(cells)@.update(
                index as int,
                painted(action, original_at(old(self).originals(), index as int, old(cells)@[index as int])),
            ),
            final(self).touched_cells() == old(self).touched_cells().insert(index),
            changed == (final(cells)@ != old(cells)@),
    {
        let original = self.original_cell(index, cells[index]);
        let next = match action.next_cell(original) {
            Some(n) => n,
            None => original,
        };
        let mut changed = false;
        if cells[index] != next {
            cells.set(index, next);
            changed = true;
        } else {
            proof {
                assert(cells@ == old(cells)@.update(index as int, next));
            }
        }
        self.touched.insert(index);
        self.count = self.touched.len();
        proof {
            if !changed {
                assert(cells@ == old(cells)@);
            } else {
                assert(cells@[index as int] != old(cells)@[index as int]);
            }
        }
        changed
    }

    fn apply_shaped(&mut self, action: NonogramPaintAction, cells: &mut Vec<NonogramCellState>, indexes: &Vec<usize>) -> (changed: bool)
        requires
            old(self).wf(),
            forall|i: usize| old(self).touched_cells().contains(i) ==> i < old(cells)@.len(),
        ensures
            final(self).wf(),
            final(self).paint() == old(self).paint(),
            final(self).anchor() == old(self).anchor(),
            final(self).originals() == old(self).originals(),
            final(self).pointer() == old(self).pointer(),
            final(cells)@ == reshaped_cells(
                old(cells)@,
                old(self).originals(),
                old(self).touched_cells(),
                active_cells(indexes@, old(cells)@.len()),
                action,
            ),
            final(self).touched_cells() == active_cells(indexes@, old(cells)@.len()),
            changed == (final(cells)@ != old(cells)@),
    {
        let len = cells.len();
        let mut active: BTreeSet<usize> = BTreeSet::new();
        let mut k: usize = 0;
        while k < indexes.len()
            invariant
                k <= indexes.len(),
                len == cells.len(),
                active@.finite(),
                active@ == Set::new(|i: usize| indexes@.take(k as int).contains(i) && i < len),
            decreases indexes.len() - k,
        {
            let i = indexes[k];
            if i < len {
                active.insert(i);
            }
            proof {
                let t = indexes@.take(k as int);
                let t2 = indexes@.take(k + 1);
                assert(t2 == t.push(i));
                assert forall|x: usize| active@.contains(x) == (t2.contains(x) && x < len) by {
                    if t2.contains(x) && x != i {
                        let j = choose|j: int| 0 <= j < t2.len() && t2[j] == x;
                        assert(t[j] == x);
                    }
                    if t.contains(x) {
                        let j = choose|j: int| 0 <= j < t.len() && t[j] == x;
                        assert(t2[j] == x);
                    }
                    if x == i {
                        assert(t2[k as int] == i);
                    }
                }
                assert(active@ =~= Set::new(|x: usize| t2.contains(x) && x < len));
            }
            k = k + 1;
        }
        proof {
            assert(indexes@.take(k as int) == indexes@);
            assert(active@ =~= active_cells(indexes@, len as nat));
        }
        let ghost target = reshaped_cells(old(cells)@, self.originals(), self.touched_cells(), active@, action);
        let mut changed = false;
        let mut i: usize = 0;
        while i < len
            invariant
                i <= len,
                len == cells.len(),
                len == old(cells).len(),
                target == reshaped_cells(old(cells)@, self.originals(), self.touched_cells(), active@, action),
                forall|j: int| 0 <= j < i ==> cells@[j] == target[j],
                forall|j: int| i <= j < len ==> cells@[j] == old(cells)@[j],
                changed == exists|j: int| 0 <= j < i && target[j] != old(cells)@[j],
            decreases len - i,
        {
            let current = cells[i];
            let original = self.original_cell(i, current);
            let next = if active.contains(&i) {
                match action.next_cell(original) {
                    Some(n) => n,
                    None => original,
                }
            } else if self.touched.contains(&i) {
                original
            } else {
                current
            };
            proof {
                assert(next == target[i as int]);
            }
            if current != next {
                cells.set(i, next);
                changed = true;
            }
            i = i + 1;
        }
        proof {
            assert(cells@ =~= target);
            if changed {
                let j = choose|j: int| 0 <= j < len && target[j] != old(cells)@[j];
                assert(cells@[j] != old(cells)@[j]);
            } else {
                assert(cells@ =~= old(cells)@);
            }
        }
        self.count = active.len();
        self.touched = active;
        changed
    }

    /// Ends the drag.
    pub fn finish(&mut self)
        ensures
            final(self).wf(),
            idle(*final(self)),
    {
        self.action = None;
        self.start = None;
        self.original_cells.clear();
        self.touched.clear();
        self.pointer_position = None;
        self.count = 0;
    }

    /// Whether a drag is under way.
    pub fn is_active(&self) -> (b: bool)
        ensures
            b == self.paint() is Some,
    {
        self.action.is_some()
    }

    /// How many cells the drag covers.
    pub fn count(&self) -> (n: usize)
        ensures
            n == self.counted(),
    {
        self.count
    }

    /// Records the pointer's position (in whole pixels) while a drag is under way.
    pub fn set_pointer_position(&mut self, x: i32, y: i32)
        ensures
            final(self).paint() == old(self).paint(),
            final(self).anchor() == old(self).anchor(),
            final(self).originals() == old(self).originals(),
            final(self).touched_cells() == old(self).touched_cells(),
            final(self).counted() == old(self).counted(),
            final(self).pointer() == if old(self).paint() is Some {
                Some((x, y))
            } else {
                old(self).pointer()
            },
    {
        if self.is_active() {
            self.pointer_position = Some((x, y));
        }
    }

    /// The pointer's last recorded position.
    pub fn pointer_position(&self) -> (p: Option<(i32, i32)>)
        ensures
            p == self.pointer(),
    {
        self.pointer_position
    }
}

/// The smallest member of a set.
pub open spec fn set_min(s: Set<usize>) -> usize {
    choose|m: usize| s.contains(m) && forall|x: usize| s.contains(x) ==> m <= x
}

/// The largest member of a set.
pub open spec fn set_max(s: Set<usize>) -> usize {
    choose|m: usize| s.contains(m) && forall|x: usize| s.contains(x) ==> x <= m
}

/// Whether a cell was filled before the drag began (nothing past the saved grid is).
pub open spec fn was_filled(originals: Seq<NonogramCellState>, index: int) -> bool {
    original_at(originals, index, NonogramCellState::Hidden) == NonogramCellState::Filled
}

/// How many cells right before column `col` of row `row` were filled in a run.
pub open spec fn run_left(originals: Seq<NonogramCellState>, width: int, row: int, col: int) -> nat
    decreases col,
{
    if col <= 0 {
        0
    } else if was_filled(originals, row * width + col - 1) {
        1 + run_left(originals, width, row, col - 1)
    } else {
        0
    }
}

/// How many cells right after column `col` of row `row` were filled in a run.
pub open spec fn run_right(originals: Seq<NonogramCellState>, width: int, row: int, col: int) -> nat
    decreases width - col,
{
    if col + 1 >= width {
        0
    } else if was_filled(originals, row * width + col + 1) {
        1 + run_right(originals, width, row, col + 1)
    } else {
        0
    }
}

/// How many cells right above row `row` of column `col` were filled in a run.
pub open spec fn run_up(originals: Seq<NonogramCellState>, width: int, col: int, row: int) -> nat
    decreases row,
{
    if row <= 0 {
        0
    } else if was_filled(originals, (row - 1) * width + col) {
        1 + run_up(originals, width, col, row - 1)
    } else {
        0
    }
}

/// How many cells right below row `row` of column `col` were filled in a run.
pub open spec fn run_down(originals: Seq<NonogramCellState>, width: int, height: int, col: int, row: int) -> nat
    decreases height - row,
{
    if row + 1 >= height {
        0
    } else if was_filled(originals, (row + 1) * width + col) {
        1 + run_down(originals, width, height, col, row + 1)
    } else {
        0
    }
}

/// The cells a filling line drag would join up to: the cells it covers, and the runs of
/// already filled cells that touch its two ends. Only a filling line drag that stays in
/// one row or one column has such a count.
pub open spec fn extended_fill_count(d: NonogramDragState, width: usize, height: usize, shape: NonogramInputShape) -> Option<int> {
    let t = d.touched_cells();
    if shape != NonogramInputShape::Line || d.paint() != Some(NonogramPaintAction::SetState(NonogramCellState::Filled))
        || width == 0 || height == 0 || t.is_empty() {
        None
    } else {
        let first = set_min(t);
        let last = set_max(t);
        let row = first / width;
        let col = first % width;
        if forall|x: usize| t.contains(x) ==> x / width == row {
            Some(
                d.counted() + run_left(d.originals(), width as int, row as int, col as int) + run_right(
                    d.originals(),
                    width as int,
                    row as int,
                    (last % width) as int,
                ),
            )
        } else if forall|x: usize| t.contains(x) ==> x % width == col {
            Some(
                d.counted() + run_up(d.originals(), width as int, col as int, row as int) + run_down(
                    d.originals(),
                    width as int,
                    height as int,
                    col as int,
                    (last / width) as int,
                ),
            )
        } else {
            None
        }
    }
}

/// The counter shown beside the pointer during a drag: the cells it covers, and in
/// brackets the longer run it joins up to when there is one.
pub open spec fn counter_label_spec(d: NonogramDragState, width: usize, height: usize, shape: NonogramInputShape) -> Option<
    Seq<char>,
> {
    if d.paint() is None || d.counted() == 0 || d.pointer() is None {
        None
    } else {
        let count = decimal_text(d.counted() as nat);
        let total = extended_fill_count(d, width, height, shape);
        if total is Some && total->0 > d.counted() {
            Some(count + " ("@ + decimal_text(total->0 as nat) + ")"@)
        } else {
            Some(count)
        }
    }
}

proof fn lemma_run_left_bound(o: Seq<NonogramCellState>, width: int, row: int, col: int)
    requires
        col >= 0,
    ensures
        run_left(o, width, row, col) <= col,
    decreases col,
{
    if col > 0 {
        lemma_run_left_bound(o, width, row, col - 1);
    }
}

proof fn lemma_run_right_bound(o: Seq<NonogramCellState>, width: int, row: int, col: int)
    requires
        col < width,
    ensures
        run_right(o, width, row, col) <= width - 1 - col,
    decreases width - col,
{
    if col + 1 < width {
        lemma_run_right_bound(o, width, row, col + 1);
    }
}

proof fn lemma_run_up_bound(o: Seq<NonogramCellState>, width: int, col: int, row: int)
    requires
        row >= 0,
    ensures
        run_up(o, width, col, row) <= row,
    decreases row,
{
    if row > 0 {
        lemma_run_up_bound(o, width, col, row - 1);
    }
}

proof fn lemma_run_down_bound(o: Seq<NonogramCellState>, width: int, height: int, col: int, row: int)
    ensures
        row + 1 < height ==> run_down(o, width, height, col, row) <= height - 1 - row,
        row + 1 >= height ==> run_down(o, width, height, col, row) == 0,
    decreases height - row,
{
    if row + 1 < height {
        lemma_run_down_bound(o, width, height, col, row + 1);
    }
}

/// A set whose members have distinct keys between `lo` and `hi` has at most
/// `hi - lo + 1` members.
proof fn lemma_keyed_len(t: Set<usize>, key: spec_fn(usize) -> int, lo: int, hi: int)
    requires
        t.finite(),
        lo <= hi + 1,
        injective_on(key, t),
        forall|x: usize| t.contains(x) ==> lo <= #[trigger] key(x) <= hi,
    ensures
        t.len() <= hi - lo + 1,
{
    let y = t.map(key);
    lemma_map_size(t, y, key);
    lemma_int_range(lo, hi + 1);
    assert forall|v: int| y.contains(v) implies set_int_range(lo, hi + 1).contains(v) by {
        let x = choose|x: usize| t.contains(x) && v == key(x);
    }
    lemma_len_subset(y, set_int_range(lo, hi + 1));
}

impl NonogramDragState {
    /// Whether the cell at `(row, col)` of a `width`-wide grid was filled before the drag.
    fn filled_before(&self, row: usize, width: usize, col: usize) -> (b: bool)
        ensures
            b == was_filled(self.originals(), row * width + col),
    {
        let saved = self.original_cells.len();
        match row.checked_mul(width) {
            None => false,
            Some(base) => match base.checked_add(col) {
                None => false,
                Some(index) => self.original_cell(index, NonogramCellState::Hidden).is_filled(),
            },
        }
    }

    /// The filled run right before column `col` of row `row`.
    fn run_left_from(&self, width: usize, row: usize, col: usize) -> (n: usize)
        ensures
            n == run_left(self.originals(), width as int, row as int, col as int),
    {
        proof {
            lemma_run_left_bound(self.originals(), width as int, row as int, col as int);
        }
        let mut n: usize = 0;
        let mut c: usize = col;
        loop
            invariant
                c <= col,
                n == col - c,
                run_left(self.originals(), width as int, row as int, col as int) == n + run_left(
                    self.originals(),
                    width as int,
                    row as int,
                    c as int,
                ),
            ensures
                n == run_left(self.originals(), width as int, row as int, col as int),
            decreases c,
        {
            if c == 0 {
                break;
            }
            if !self.filled_before(row, width, c - 1) {
                break;
            }
            n = n + 1;
            c = c - 1;
        }
        n
    }

    /// The filled run right after column `col` of row `row`.
    fn run_right_from(&self, width: usize, row: usize, col: usize) -> (n: usize)
        requires
            col < width,
        ensures
            n == run_right(self.originals(), width as int, row as int, col as int),
    {
        let mut n: usize = 0;
        let mut c: usize = col;
        loop
            invariant
                col <= c < width,
                n == c - col,
                run_right(self.originals(), width as int, row as int, col as int) == n + run_right(
                    self.originals(),
                    width as int,
                    row as int,
                    c as int,
                ),
            ensures
                n == run_right(self.originals(), width as int, row as int, col as int),
            decreases width - c,
        {
            if c + 1 >= width {
                break;
            }
            if !self.filled_before(row, width, c + 1) {
                break;
            }
            n = n + 1;
            c = c + 1;
        }
        n
    }

    /// The filled run right above row `row` of column `col`.
    fn run_up_from(&self, width: usize, col: usize, row: usize) -> (n: usize)
        ensures
            n == run_up(self.originals(), width as int, col as int, row as int),
    {
        let mut n: usize = 0;
        let mut r: usize = row;
        loop
            invariant
                r <= row,
                n == row - r,
                run_up(self.originals(), width as int, col as int, row as int) == n + run_up(
                    self.originals(),
                    width as int,
                    col as int,
                    r as int,
                ),
            ensures
                n == run_up(self.originals(), width as int, col as int, row as int),
            decreases r,
        {
            if r == 0 {
                break;
            }
            if !self.filled_before(r - 1, width, col) {
                break;
            }
            n = n + 1;
            r = r - 1;
        }
        n
    }

    /// The filled run right below row `row` of column `col`.
    fn run_down_from(&self, width: usize, height: usize, col: usize, row: usize) -> (n: usize)
        ensures
            n == run_down(self.originals(), width as int, height as int, col as int, row as int),
    {
        if row >= height {
            return 0;
        }
        let mut n: usize = 0;
        let mut r: usize = row;
        loop
            invariant
                row <= r < height,
                n == r - row,
                run_down(self.originals(), width as int, height as int, col as int, row as int) == n + run_down(
                    self.originals(),
                    width as int,
                    height as int,
                    col as int,
                    r as int,
                ),
            ensures
                n == run_down(self.originals(), width as int, height as int, col as int, row as int),
            decreases height - r,
        {
            if r + 1 >= height {
                break;
            }
            if !self.filled_before(r + 1, width, col) {
                break;
            }
            n = n + 1;
            r = r + 1;
        }
        n
    }
}

/// The first and last members of a set listed in increasing order are its least and
/// greatest members.
proof fn lemma_sorted_ends(members: Seq<usize>, t: Set<usize>)
    requires
        members.to_set() == t,
        in_order(members),
        members.len() > 0,
    ensures
        !t.is_empty(),
        t.contains(members[0]),
        t.contains(members.last()),
        set_min(t) == members[0],
        set_max(t) == members.last(),
        forall|x: usize| t.contains(x) ==> members[0] <= x && x <= members.last(),
{
    let first = members[0];
    let last = members.last();
    assert(members.to_set().contains(first));
    assert(members.to_set().contains(last));
    assert forall|x: usize| t.contains(x) implies first <= x && x <= last by {
        assert(members.to_set().contains(x));
        let j = choose|j: int| 0 <= j < members.len() && members[j] == x;
    }
    let m = set_min(t);
    assert(t.contains(first) && forall|x: usize| t.contains(x) ==> first <= x);
    assert(t.contains(m) && m <= first && first <= m);
    let mx = set_max(t);
    assert(t.contains(last) && forall|x: usize| t.contains(x) ==> x <= last);
    assert(t.contains(mx) && mx <= last && last <= mx);
}

/// A drag that stays in one row covers at most the cells between its ends, so with the
/// runs past its ends it counts at most a row.
proof fn lemma_row_total(d: NonogramDragState, width: usize, first: usize, last: usize)
    requires
        d.wf(),
        width > 0,
        d.touched_cells().contains(first),
        d.touched_cells().contains(last),
        forall|x: usize| d.touched_cells().contains(x) ==> first <= x && x <= last,
        forall|x: usize| d.touched_cells().contains(x) ==> x / width == first / width,
    ensures
        d.counted() + run_left(d.originals(), width as int, (first / width) as int, (first % width) as int)
            + run_right(d.originals(), width as int, (first / width) as int, (last % width) as int) <= width,
{
    let t = d.touched_cells();
    let w = width as int;
    let col = first % width;
    let last_col = last % width;
    lemma_fundamental_div_mod(first as int, w);
    lemma_fundamental_div_mod(last as int, w);
    assert forall|x: usize| t.contains(x) implies col <= #[trigger] ((x % width) as int) <= last_col by {
        lemma_fundamental_div_mod(x as int, w);
    }
    let key = |x: usize| (x % width) as int;
    assert forall|x1: usize, x2: usize|
        t.contains(x1) && t.contains(x2) && #[trigger] key(x1) == #[trigger] key(x2) implies x1 == x2 by {
        lemma_fundamental_div_mod(x1 as int, w);
        lemma_fundamental_div_mod(x2 as int, w);
    }
    lemma_keyed_len(t, key, col as int, last_col as int);
    lemma_run_left_bound(d.originals(), w, (first / width) as int, col as int);
    lemma_run_right_bound(d.originals(), w, (first / width) as int, last_col as int);
}

/// A drag that stays in one column covers at most the rows between its ends, so with the
/// runs past its ends it counts no more than fits in a `usize`.
proof fn lemma_column_total(d: NonogramDragState, width: usize, height: usize, first: usize, last: usize)
    requires
        d.wf(),
        width > 0,
        d.touched_cells().contains(first),
        d.touched_cells().contains(last),
        forall|x: usize| d.touched_cells().contains(x) ==> first <= x && x <= last,
        forall|x: usize| d.touched_cells().contains(x) ==> x % width == first % width,
    ensures
        d.counted() + run_up(d.originals(), width as int, (first % width) as int, (first / width) as int) + run_down(
            d.originals(),
            width as int,
            height as int,
            (first % width) as int,
            (last / width) as int,
        ) <= usize::MAX,
{
    let t = d.touched_cells();
    let w = width as int;
    let row = first / width;
    let last_row = last / width;
    lemma_div_is_ordered(first as int, last as int, w);
    assert forall|x: usize| t.contains(x) implies row <= #[trigger] ((x / width) as int) <= last_row by {
        lemma_div_is_ordered(first as int, x as int, w);
        lemma_div_is_ordered(x as int, last as int, w);
    }
    let key = |x: usize| (x / width) as int;
    assert forall|x1: usize, x2: usize|
        t.contains(x1) && t.contains(x2) && #[trigger] key(x1) == #[trigger] key(x2) implies x1 == x2 by {
        lemma_fundamental_div_mod(x1 as int, w);
        lemma_fundamental_div_mod(x2 as int, w);
    }
    lemma_keyed_len(t, key, row as int, last_row as int);
    lemma_run_up_bound(d.originals(), w, (first % width) as int, row as int);
    lemma_run_down_bound(d.originals(), w, height as int, (first % width) as int, last_row as int);
    lemma_div_is_ordered_by_one(last as int, w);
}

/// The run a filling line drag joins up to, if it has one.
fn nonogram_extended_line_fill_count(drag: &NonogramDragState, width: usize, height: usize, shape: NonogramInputShape) -> (r:
    Option<usize>)
    requires
        drag.wf(),
    ensures
        match r {
            Some(v) => extended_fill_count(*drag, width, height, shape) == Some(v as int),
            None => extended_fill_count(*drag, width, height, shape) is None,
        },
{
    let fills = match drag.action {
        Some(NonogramPaintAction::SetState(NonogramCellState::Filled)) => true,
        _ => false,
    };
    if shape != NonogramInputShape::Line || !fills || width == 0 || height == 0 {
        return None;
    }
    let members = sorted_members(&drag.touched);
    let ghost t = drag.touched_cells();
    if members.len() == 0 {
        proof {
            assert(t =~= Set::<usize>::empty()) by {
                if exists|x: usize| t.contains(x) {
                    let x = choose|x: usize| t.contains(x);
                    assert(members@.to_set().contains(x));
                }
            }
        }
        return None;
    }
    let first = members[0];
    let last = members[members.len() - 1];
    proof {
        lemma_sorted_ends(members@, t);
    }
    let row = first / width;
    let col = first % width;
    let mut horizontal = true;
    let mut vertical = true;
    let mut k: usize = 0;
    while k < members.len()
        invariant
            k <= members.len(),
            width > 0,
            horizontal == forall|j: int| 0 <= j < k ==> (#[trigger] members@[j]) / width == row,
            vertical == forall|j: int| 0 <= j < k ==> (#[trigger] members@[j]) % width == col,
        decreases members.len() - k,
    {
        let x = members[k];
        if x / width != row {
            horizontal = false;
        }
        if x % width != col {
            vertical = false;
        }
        k = k + 1;
    }
    proof {
        assert(horizontal == forall|x: usize| t.contains(x) ==> x / width == row) by {
            if horizontal {
                assert forall|x: usize| t.contains(x) implies x / width == row by {
                    assert(members@.to_set().contains(x));
                    let j = choose|j: int| 0 <= j < members.len() && members@[j] == x;
                }
            } else {
                let j = choose|j: int| 0 <= j < members.len() && (#[trigger] members@[j]) / width != row;
                assert(members@.to_set().contains(members@[j]));
            }
        }
        assert(vertical == forall|x: usize| t.contains(x) ==> x % width == col) by {
            if vertical {
                assert forall|x: usize| t.contains(x) implies x % width == col by {
                    assert(members@.to_set().contains(x));
                    let j = choose|j: int| 0 <= j < members.len() && members@[j] == x;
                }
            } else {
                let j = choose|j: int| 0 <= j < members.len() && (#[trigger] members@[j]) % width != col;
                assert(members@.to_set().contains(members@[j]));
            }
        }
    }
    if horizontal {
        let last_col = last % width;
        let left = drag.run_left_from(width, row, col);
        let right = drag.run_right_from(width, row, last_col);
        proof {
            lemma_row_total(*drag, width, first, last);
        }
        return Some(drag.count + left + right);
    }
    if vertical {
        let last_row = last / width;
        let up = drag.run_up_from(width, col, row);
        let down = drag.run_down_from(width, height, col, last_row);
        proof {
            lemma_column_total(*drag, width, height, first, last);
        }
        return Some(drag.count + up + down);
    }
    None
}

/// `x / w <= x` for a positive `w`.
proof fn lemma_div_is_ordered_by_one(x: int, w: int)
    requires
        0 <= x,
        1 <= w,
    ensures
        x / w <= x,
{
    vstd::arithmetic::div_mod::lemma_div_is_ordered_by_denominator(x, 1, w);
}

/// The counter shown beside the pointer during a drag, if any.
pub fn nonogram_drag_counter_label(drag: &NonogramDragState, width: usize, height: usize, shape: NonogramInputShape) -> (l:
    Option<String>)
    requires
        drag.wf(),
    ensures
        match l {
            Some(text) => counter_label_spec(*drag, width, height, shape) == Some(text@),
            None => counter_label_spec(*drag, width, height, shape) is None,
        },
{
    if !drag.is_active() || drag.count() == 0 || drag.pointer_position().is_none() {
        return None;
    }
    let count = drag.count();
    let mut text = String::new();
    append_decimal(&mut text, count);
    match nonogram_extended_line_fill_count(drag, width, height, shape) {
        Some(total) => {
            if total > count {
                text.append(" (");
                append_decimal(&mut text, total);
                text.append(")");
            }
        },
        None => {},
    }
    proof {
        reveal_strlit(" (");
        reveal_strlit(")");
    }
    Some(text)
}

/// A whole number as text, with a minus sign when it is negative.
pub open spec fn signed_text(v: int) -> Seq<char> {
    if v < 0 {
        "-"@ + decimal_text((-v) as nat)
    } else {
        decimal_text(v as nat)
    }
}

fn append_signed(s: &mut String, v: i32)
    ensures
        final(s)@ == old(s)@ + signed_text(v as int),
{
    if v < 0 {
        s.append("-");
        let magnitude: i64 = -(v as i64);
        append_decimal_u64(s, magnitude as u64);
        proof {
            reveal_strlit("-");
            assert(old(s)@ + "-"@ + decimal_text(magnitude as nat) == old(s)@ + ("-"@ + decimal_text(magnitude as nat)));
        }
    } else {
        append_decimal_u64(s, v as u64);
    }
}

/// Where the counter stands: at the pointer, while a drag covers cells.
pub open spec fn counter_style_spec(d: NonogramDragState) -> Option<Seq<char>> {
    match d.pointer() {
        Some((x, y)) => if d.paint() is Some && d.counted() > 0 {
            Some("left: "@ + signed_text(x as int) + "px; top: "@ + signed_text(y as int) + "px"@)
        } else {
            None
        },
        None => None,
    }
}

/// The style that puts the counter at the pointer, if it shows.
pub fn nonogram_drag_counter_style(drag: &NonogramDragState) -> (st: Option<String>)
    ensures
        match st {
            Some(text) => counter_style_spec(*drag) == Some(text@),
            None => counter_style_spec(*drag) is None,
        },
{
    match drag.pointer_position() {
        Some((x, y)) => {
            if drag.is_active() && drag.count() > 0 {
                let mut text = String::from_str("left: ");
                append_signed(&mut text, x);
                text.append("px; top: ");
                append_signed(&mut text, y);
                text.append("px");
                proof {
                    reveal_strlit("left: ");
                    reveal_strlit("px; top: ");
                    reveal_strlit("px");
                }
                Some(text)
            } else {
                None
            }
        },
        None => None,
    }
}

/// The wrong cells a check shows: those the checker found wrong that the player has
/// marked (a wrong cell left empty is not shown).
pub open spec fn marked_errors_spec(incorrect: Seq<usize>, cells: Seq<NonogramCellState>) -> Set<usize> {
    Set::new(|i: usize| incorrect.contains(i) && i < cells.len() && cells[i as int] != NonogramCellState::Hidden)
}

/// The wrong cells a check shows.
pub fn nonogram_marked_error_cells(validation: &NonogramValidation, cells: &[NonogramCellState]) -> (marked:
    BTreeSet<usize>)
    ensures
        marked@ == marked_errors_spec(validation.incorrect_cells@, cells@),
{
    let wrong = &validation.incorrect_cells;
    let mut marked: BTreeSet<usize> = BTreeSet::new();
    let mut k: usize = 0;
    while k < wrong.len()
        invariant
            k <= wrong.len(),
            marked@ == Set::new(
                |i: usize|
                    wrong@.take(k as int).contains(i) && i < cells@.len() && cells@[i as int]
                        != NonogramCellState::Hidden,
            ),
        decreases wrong.len() - k,
    {
        let i = wrong[k];
        if i < cells.len() && cells[i] != NonogramCellState::Hidden {
            marked.insert(i);
        }
        proof {
            let t = wrong@.take(k as int);
            let t2 = wrong@.take(k + 1);
            assert(t2 == t.push(i));
            assert forall|x: usize|
                marked@.contains(x) == (t2.contains(x) && x < cells@.len() && cells@[x as int]
                    != NonogramCellState::Hidden) by {
                if t2.contains(x) && x != i {
                    let j = choose|j: int| 0 <= j < t2.len() && t2[j] == x;
                    assert(t[j] == x);
                }
                if t.contains(x) {
                    let j = choose|j: int| 0 <= j < t.len() && t[j] == x;
                    assert(t2[j] == x);
                }
                if x == i {
                    assert(t2[k as int] == i);
                }
            }
            assert(marked@ =~= Set::new(
                |x: usize| t2.contains(x) && x < cells@.len() && cells@[x as int] != NonogramCellState::Hidden,
            ));
        }
        k = k + 1;
    }
    proof {
        assert(wrong@.take(k as int) == wrong@);
        assert(marked@ =~= marked_errors_spec(validation.incorrect_cells@, cells@));
    }
    marked
}

/// The class of a shape button: `active` for the shape in use.
pub fn nonogram_shape_button_class(active: NonogramInputShape, shape: NonogramInputShape) -> (c: &'static str)
    ensures
        c@ == if active == shape {
            "mode-button active"@
        } else {
            "mode-button"@
        },
{
    if active == shape {
        "mode-button active"
    } else {
        "mode-button"
    }
}

/// How a line's clues are shown: each run length, or a single `0` for an empty line.
pub open spec fn clue_text(clues: Seq<usize>, k: int) -> Seq<char> {
    if clues.len() == 0 {
        "0"@
    } else {
        decimal_text(clues[k] as nat)
    }
}

/// How a line's clues are shown.
pub fn display_clues(clues: &[usize]) -> (shown: Vec<String>)
    ensures
        shown.len() == if clues.len() == 0 {
            1
        } else {
            clues.len()
        },
        forall|k: int| 0 <= k < shown.len() ==> (#[trigger] shown@[k])@ == clue_text(clues@, k),
{
    let mut shown: Vec<String> = Vec::new();
    if clues.len() == 0 {
        shown.push(String::from_str("0"));
        proof {
            reveal_strlit("0");
        }
        return shown;
    }
    let mut k: usize = 0;
    while k < clues.len()
        invariant
            k <= clues.len(),
            clues.len() > 0,
            shown.len() == k,
            forall|j: int| 0 <= j < k ==> (#[trigger] shown@[j])@ == clue_text(clues@, j),
        decreases clues.len() - k,
    {
        let mut text = String::new();
        append_decimal(&mut text, clues[k]);
        shown.push(text);
        k = k + 1;
    }
    shown
}

/// The classes of a nonogram cell: its mark, a heavier line after every fifth column and
/// row (but not on the board's edge), and `conflict` when a check marked it wrong.
pub open spec fn cell_class_at_spec(
    state: NonogramCellState,
    incorrect: bool,
    row: usize,
    col: usize,
    width: usize,
    height: usize,
) -> Seq<char> {
    "nonogram-cell"@ + match state {
        NonogramCellState::Hidden => ""@,
        NonogramCellState::Filled => " filled"@,
        NonogramCellState::Crossed => " crossed"@,
    } + if (col + 1) % 5 == 0 && col + 1 < width {
        " major-right"@
    } else {
        ""@
    } + if (row + 1) % 5 == 0 && row + 1 < height {
        " major-bottom"@
    } else {
        ""@
    } + if incorrect {
        " conflict"@
    } else {
        ""@
    }
}

/// The classes of the nonogram cell at `(row, col)` of a `width` by `height` board.
pub fn nonogram_cell_class_at(
    state: NonogramCellState,
    incorrect: bool,
    row: usize,
    col: usize,
    width: usize,
    height: usize,
) -> (c: String)
    requires
        row < usize::MAX,
        col < usize::MAX,
    ensures
        c@ == cell_class_at_spec(state, incorrect, row, col, width, height),
{
    let mut class_name = String::from_str("nonogram-cell");
    match state {
        NonogramCellState::Hidden => class_name.append(""),
        NonogramCellState::Filled => class_name.append(" filled"),
        NonogramCellState::Crossed => class_name.append(" crossed"),
    }
    if (col + 1) % 5 == 0 && col + 1 < width {
        class_name.append(" major-right");
    } else {
        class_name.append("");
    }
    if (row + 1) % 5 == 0 && row + 1 < height {
        class_name.append(" major-bottom");
    } else {
        class_name.append("");
    }
    if incorrect {
        class_name.append(" conflict");
    } else {
        class_name.append("");
    }
    class_name
}

/// The classes of a lone nonogram cell, with no guide lines.
pub fn nonogram_cell_class(state: NonogramCellState, incorrect: bool) -> (c: String)
    ensures
        c@ == cell_class_at_spec(state, incorrect, 0, 0, 1, 1),
{
    nonogram_cell_class_at(state, incorrect, 0, 0, 1, 1)
}

/// The label a screen reader reads for a cell (rows and columns counted from 1).
pub open spec fn cell_aria_spec(row: usize, col: usize, state: NonogramCellState) -> Seq<char> {
    "Row "@ + decimal_text((row + 1) as nat) + ", column "@ + decimal_text((col + 1) as nat) + ", "@ + match state {
        NonogramCellState::Hidden => "empty"@,
        NonogramCellState::Filled => "filled"@,
        NonogramCellState::Crossed => "crossed"@,
    }
}

/// The label a screen reader reads for a cell.
pub fn nonogram_cell_aria(row: usize, col: usize, state: NonogramCellState) -> (a: String)
    requires
        row < usize::MAX,
        col < usize::MAX,
    ensures
        a@ == cell_aria_spec(row, col, state),
{
    let mut a = String::from_str("Row ");
    append_decimal(&mut a, row + 1);
    a.append(", column ");
    append_decimal(&mut a, col + 1);
    a.append(", ");
    match state {
        NonogramCellState::Hidden => a.append("empty"),
        NonogramCellState::Filled => a.append("filled"),
        NonogramCellState::Crossed => a.append("crossed"),
    }
    a
}

} // verus!
