//! Queens: a square board split into coloured regions, on which one queen must stand in
//! every row, column and region, with no two queens touching, even diagonally.

use vstd::prelude::*;
use std::collections::BTreeSet;
use rand::Rng;
use crate::grid::count_true;

verus! {

broadcast use vstd::std_specs::btree::group_btree_axioms, vstd::laws_cmp::group_laws_cmp;

/// The bundled puzzles.
#[derive(Debug, Clone, PartialEq, Eq)]
pub struct PuzzleFile {
    pub puzzles: Vec<Puzzle>,
}

/// A Queens puzzle: `regions[row][col]` names the region of each cell, and `colors[region]`
/// its colour.
#[derive(Debug, Clone, PartialEq, Eq)]
pub struct Puzzle {
    pub id: usize,
    pub size: usize,
    pub colors: Vec<String>,
    pub regions: Vec<Vec<usize>>,
}

/// One entry of the puzzle picker.
#[derive(Debug, Clone, PartialEq, Eq)]
pub struct PuzzleNav {
    pub id: usize,
    pub active: bool,
}

/// What a Queens page starts with.
#[derive(Debug, Clone, PartialEq, Eq)]
pub struct GameBootstrap {
    pub puzzle: Puzzle,
    pub puzzle_nav: Vec<PuzzleNav>,
    pub total: usize,
}

/// How a board cell is drawn: its region and colour, and on which sides it has a thick
/// border (the board's edge, or a region boundary above or to the left).
#[derive(Debug, Clone, PartialEq, Eq)]
pub struct CellView {
    pub row: usize,
    pub col: usize,
    pub region: usize,
    pub color: String,
    pub border_top: bool,
    pub border_right: bool,
    pub border_bottom: bool,
    pub border_left: bool,
}

/// The CSS classes of a cell with the given borders.
pub open spec fn cell_class_spec(top: bool, right: bool, bottom: bool, left: bool) -> Seq<char> {
    "cell"@ + (if top {
        " border-top"@
    } else {
        Seq::empty()
    }) + (if right {
        " border-right"@
    } else {
        Seq::empty()
    }) + (if bottom {
        " border-bottom"@
    } else {
        Seq::empty()
    }) + (if left {
        " border-left"@
    } else {
        Seq::empty()
    })
}

impl CellView {
    /// The cell's CSS classes: `cell`, then one class per thick border.
    pub fn class_name(&self) -> (class_name: String)
        ensures
            class_name@ == cell_class_spec(
                self.border_top,
                self.border_right,
                self.border_bottom,
                self.border_left,
            ),
    {
        let mut class_name = String::from_str("cell");
        if self.border_top {
            class_name.append(" border-top");
        }
        if self.border_right {
            class_name.append(" border-right");
        }
        if self.border_bottom {
            class_name.append(" border-bottom");
        }
        if self.border_left {
            class_name.append(" border-left");
        }
        class_name
    }
}

/// What a player has put on a cell; an automatic mark is one the game placed.
#[derive(Debug, Clone, Copy, PartialEq, Eq, Structural)]
pub enum CellState {
    Empty,
    Mark,
    Queen,
    AutoMark,
}

/// The storage code of a cell state.
pub open spec fn storage_code_spec(s: CellState) -> u8 {
    match s {
        CellState::Empty => 0,
        CellState::Mark => 1,
        CellState::Queen => 2,
        CellState::AutoMark => 3,
    }
}

impl CellState {
    pub fn is_marked(self) -> (b: bool)
        ensures
            b == (self == CellState::Mark || self == CellState::AutoMark),
    {
        match self {
            CellState::Mark | CellState::AutoMark => true,
            _ => false,
        }
    }

    /// The state stored under `value`; unknown codes read as empty.
    pub fn from_storage_code(value: u8) -> (s: Self)
        ensures
            value <= 3 ==> storage_code_spec(s) == value,
            value > 3 ==> s == CellState::Empty,
    {
        match value {
            1 => CellState::Mark,
            2 => CellState::Queen,
            3 => CellState::AutoMark,
            _ => CellState::Empty,
        }
    }

    pub fn storage_code(self) -> (code: u8)
        ensures
            code == storage_code_spec(self),
    {
        match self {
            CellState::Empty => 0,
            CellState::Mark => 1,
            CellState::Queen => 2,
            CellState::AutoMark => 3,
        }
    }
}

/// A request to check a set of queens, each given as `[row, col]`.
#[derive(Debug, Clone, PartialEq, Eq)]
pub struct ValidateRequest {
    pub id: usize,
    pub queens: Vec<[usize; 2]>,
}

/// The verdict on a set of queens.
#[derive(Debug, Clone, PartialEq, Eq)]
pub struct ValidateResponse {
    pub complete: bool,
    pub queen_count: usize,
    pub expected_queens: usize,
    pub satisfied_rows: usize,
    pub satisfied_columns: usize,
    pub satisfied_regions: usize,
    pub conflict_cells: Vec<[usize; 2]>,
    pub messages: Vec<String>,
}

/// The region of cell `(row, col)`.
pub open spec fn region_at(regions: Seq<Vec<usize>>, row: int, col: int) -> usize {
    regions[row]@[col]
}

/// A puzzle whose region grid covers the board, names only existing regions, and has a
/// colour for each.
pub open spec fn puzzle_ok(puzzle: &Puzzle) -> bool {
    &&& regions_ok(puzzle)
    &&& puzzle.colors.len() >= puzzle.size
}

/// The region grid covers the board and every region id is below the size.
pub open spec fn regions_ok(puzzle: &Puzzle) -> bool {
    &&& puzzle.size * puzzle.size <= usize::MAX
    &&& puzzle.regions.len() >= puzzle.size
    &&& forall|r: int| 0 <= r < puzzle.size ==> (#[trigger] puzzle.regions@[r]).len() >= puzzle.size
    &&& forall|r: int, c: int|
        0 <= r < puzzle.size && 0 <= c < puzzle.size ==> #[trigger] region_at(puzzle.regions@, r, c)
            < puzzle.size
}

/// The region grid covers the board and every region id names a colour.
pub open spec fn colored_regions_ok(puzzle: &Puzzle) -> bool {
    &&& puzzle.size * puzzle.size <= usize::MAX
    &&& puzzle.regions.len() >= puzzle.size
    &&& forall|r: int| 0 <= r < puzzle.size ==> (#[trigger] puzzle.regions@[r]).len() >= puzzle.size
    &&& forall|r: int, c: int|
        0 <= r < puzzle.size && 0 <= c < puzzle.size ==> #[trigger] region_at(puzzle.regions@, r, c)
            < puzzle.colors.len()
}

/// Whether a puzzle is well formed (`puzzle_ok`), checked before the puzzle is used.
pub fn puzzle_is_ok(puzzle: &Puzzle) -> (b: bool)
    ensures
        b == puzzle_ok(puzzle),
{
    let size = puzzle.size;
    if size.checked_mul(size).is_none() {
        return false;
    }
    if puzzle.regions.len() < size || puzzle.colors.len() < size {
        return false;
    }
    let mut r: usize = 0;
    while r < size
        invariant
            r <= size,
            size == puzzle.size,
            puzzle.regions.len() >= size,
            forall|rr: int| 0 <= rr < r ==> (#[trigger] puzzle.regions@[rr]).len() >= size,
            forall|rr: int, c: int| 0 <= rr < r && 0 <= c < size ==> #[trigger] region_at(puzzle.regions@, rr, c) < size,
        decreases size - r,
    {
        let row = &puzzle.regions[r];
        if row.len() < size {
            return false;
        }
        let mut c: usize = 0;
        while c < size
            invariant
                c <= size,
                r < size,
                size == puzzle.size,
                row.len() >= size,
                *row == puzzle.regions@[r as int],
                forall|cc: int| 0 <= cc < c ==> #[trigger] region_at(puzzle.regions@, r as int, cc) < size,
            decreases size - c,
        {
            if row[c] >= size {
                proof {
                    assert(region_at(puzzle.regions@, r as int, c as int) >= size);
                }
                return false;
            }
            c = c + 1;
        }
        r = r + 1;
    }
    true
}

/// The view of cell `(row, col)` of a puzzle.
pub open spec fn cell_view_ok(puzzle: &Puzzle, v: CellView, row: int, col: int) -> bool {
    let region = region_at(puzzle.regions@, row, col);
    &&& v.row == row
    &&& v.col == col
    &&& v.region == region
    &&& v.color@ == puzzle.colors@[region as int]@
    &&& v.border_top == (row == 0 || region_at(puzzle.regions@, row - 1, col) != region)
    &&& v.border_right == (col + 1 == puzzle.size)
    &&& v.border_bottom == (row + 1 == puzzle.size)
    &&& v.border_left == (col == 0 || region_at(puzzle.regions@, row, col - 1) != region)
}

/// The views of every cell, row by row.
pub fn build_cells(puzzle: &Puzzle) -> (cells: Vec<CellView>)
    requires
        colored_regions_ok(puzzle),
    ensures
        cells.len() == puzzle.size * puzzle.size,
        forall|r: int, c: int|
            0 <= r < puzzle.size && 0 <= c < puzzle.size ==> cell_view_ok(
                puzzle,
                #[trigger] cells@[r * puzzle.size + c],
                r,
                c,
            ),
{
    let size = puzzle.size;
    let mut cells: Vec<CellView> = Vec::new();
    let mut row: usize = 0;
    while row < size
        invariant
            colored_regions_ok(puzzle),
            size == puzzle.size,
            row <= size,
            cells.len() == row * size,
            forall|r: int, c: int|
                0 <= r < row && 0 <= c < size ==> cell_view_ok(puzzle, #[trigger] cells@[r * size + c], r, c),
        decreases size - row,
    {
        let mut col: usize = 0;
        while col < size
            invariant
                colored_regions_ok(puzzle),
                size == puzzle.size,
                row < size,
                col <= size,
                cells.len() == row * size + col,
                forall|r: int, c: int|
                    0 <= r < row && 0 <= c < size ==> cell_view_ok(puzzle, #[trigger] cells@[r * size + c], r, c),
                forall|c: int| 0 <= c < col ==> cell_view_ok(puzzle, #[trigger] cells@[row * size + c], row as int, c),
            decreases size - col,
        {
            proof {
                assert(puzzle.regions@[row as int].len() >= size);
                assert(region_at(puzzle.regions@, row as int, col as int) < puzzle.colors.len());
                if row > 0 {
                    assert(puzzle.regions@[row - 1].len() >= size);
                }
            }
            let region = puzzle.regions[row][col];
            let border_top = row == 0 || puzzle.regions[row - 1][col] != region;
            let border_left = col == 0 || puzzle.regions[row][col - 1] != region;
            let view = CellView {
                row,
                col,
                region,
                color: puzzle.colors[region].clone(),
                border_top,
                border_right: col + 1 == size,
                border_bottom: row + 1 == size,
                border_left,
            };
            assert(row * size + col < size * size) by (nonlinear_arith)
                requires
                    row < size,
                    col < size,
            ;
            let ghost before = cells@;
            cells.push(view);
            proof {
                assert forall|r: int, c: int| 0 <= r < row && 0 <= c < size implies cell_view_ok(
                    puzzle,
                    #[trigger] cells@[r * size + c],
                    r,
                    c,
                ) by {
                    assert(r * size + c < row * size) by (nonlinear_arith)
                        requires
                            0 <= r < row,
                            0 <= c < size,
                    ;
                    assert(cells@[r * size + c] == before[r * size + c]);
                }
                assert forall|c: int| 0 <= c < col + 1 implies cell_view_ok(
                    puzzle,
                    #[trigger] cells@[row * size + c],
                    row as int,
                    c,
                ) by {
                    if c < col {
                        assert(cells@[row * size + c] == before[row * size + c]);
                    }
                }
            }
            col = col + 1;
        }
        assert((row + 1) * size == row * size + size) by (nonlinear_arith);
        row = row + 1;
    }
    cells
}

/// The difference of two numbers, whichever is larger.
pub open spec fn abs_diff(a: int, b: int) -> int {
    if a >= b {
        a - b
    } else {
        b - a
    }
}

/// A queen at `(queen_row, queen_col)` rules out cell `(row, col)`: another cell in its row,
/// column or region, or one touching it diagonally.
pub open spec fn invalidated_spec(regions: Seq<Vec<usize>>, queen_row: int, queen_col: int, row: int, col: int) -> bool {
    !(queen_row == row && queen_col == col) && (queen_row == row || queen_col == col || region_at(
        regions,
        queen_row,
        queen_col,
    ) == region_at(regions, row, col) || (abs_diff(queen_row, row) == 1 && abs_diff(queen_col, col)
        == 1))
}

/// A queen rules out exactly the other cells of its row, its column and its region, and the
/// cells touching it diagonally.
pub proof fn lemma_queen_rules_out(regions: Seq<Vec<usize>>, queen_row: int, queen_col: int, row: int, col: int)
    ensures
        invalidated_spec(regions, queen_row, queen_col, row, col) <==> !(queen_row == row && queen_col == col) && (
        queen_row == row || queen_col == col || regions[queen_row]@[queen_col] == regions[row]@[col] || ((queen_row
            - row == 1 || row - queen_row == 1) && (queen_col - col == 1 || col - queen_col == 1))),
        !(queen_row == row && queen_col == col) && regions[queen_row]@[queen_col] == regions[row]@[col]
            ==> invalidated_spec(regions, queen_row, queen_col, row, col),
        queen_row == row && queen_col == col ==> !invalidated_spec(regions, queen_row, queen_col, row, col),
{
}

/// Ruling out is mutual: a queen on one cell rules out another exactly when a queen on the
/// other would rule out the first.
pub proof fn lemma_queen_rules_out_symmetric(
    regions: Seq<Vec<usize>>,
    queen_row: int,
    queen_col: int,
    row: int,
    col: int,
)
    ensures
        invalidated_spec(regions, queen_row, queen_col, row, col) == invalidated_spec(
            regions,
            row,
            col,
            queen_row,
            queen_col,
        ),
{
}

pub fn invalidated_by_queen(puzzle: &Puzzle, queen_row: usize, queen_col: usize, row: usize, col: usize) -> (b: bool)
    requires
        queen_row < puzzle.regions.len(),
        row < puzzle.regions.len(),
        queen_col < puzzle.regions@[queen_row as int].len(),
        col < puzzle.regions@[row as int].len(),
    ensures
        b == invalidated_spec(puzzle.regions@, queen_row as int, queen_col as int, row as int, col as int),
        !(queen_row == row && queen_col == col) && puzzle.regions@[queen_row as int]@[queen_col as int]
            == puzzle.regions@[row as int]@[col as int] ==> b,
        b <==> !(queen_row == row && queen_col == col) && (queen_row == row || queen_col == col
            || puzzle.regions@[queen_row as int]@[queen_col as int] == puzzle.regions@[row as int]@[col as int] || ((
        queen_row - row == 1 || row - queen_row == 1) && (queen_col - col == 1 || col - queen_col == 1))),
{
    proof {
        lemma_queen_rules_out(puzzle.regions@, queen_row as int, queen_col as int, row as int, col as int);
    }
    if queen_row == row && queen_col == col {
        return false;
    }
    let row_delta = if queen_row >= row {
        queen_row - row
    } else {
        row - queen_row
    };
    let col_delta = if queen_col >= col {
        queen_col - col
    } else {
        col - queen_col
    };
    queen_row == row || queen_col == col || puzzle.regions[queen_row][queen_col] == puzzle.regions[row][col]
        || (row_delta == 1 && col_delta == 1)
}


/// The text of a decimal digit.
pub open spec fn digit_text(d: nat) -> Seq<char> {
    if d == 0 {
        "0"@
    } else if d == 1 {
        "1"@
    } else if d == 2 {
        "2"@
    } else if d == 3 {
        "3"@
    } else if d == 4 {
        "4"@
    } else if d == 5 {
        "5"@
    } else if d == 6 {
        "6"@
    } else if d == 7 {
        "7"@
    } else if d == 8 {
        "8"@
    } else {
        "9"@
    }
}

/// The decimal text of a number, without leading zeros.
pub open spec fn decimal_text(n: nat) -> Seq<char>
    decreases n,
{
    if n < 10 {
        digit_text(n)
    } else {
        decimal_text(n / 10) + digit_text(n % 10)
    }
}

/// Appends the decimal text of `n`.
pub fn append_decimal(s: &mut String, n: usize)
    ensures
        final(s)@ == old(s)@ + decimal_text(n as nat),
    decreases n,
{
    if n >= 10 {
        append_decimal(s, n / 10);
    }
    let d = n % 10;
    let digit = if d == 0 {
        "0"
    } else if d == 1 {
        "1"
    } else if d == 2 {
        "2"
    } else if d == 3 {
        "3"
    } else if d == 4 {
        "4"
    } else if d == 5 {
        "5"
    } else if d == 6 {
        "6"
    } else if d == 7 {
        "7"
    } else if d == 8 {
        "8"
    } else {
        "9"
    };
    s.append(digit);
}

/// The queen stands on the board.
pub open spec fn in_bounds(q: [usize; 2], size: usize) -> bool {
    q[0] < size && q[1] < size
}

/// The queens that stand on the board, in the order given.
pub open spec fn valid_queens(qs: Seq<[usize; 2]>, size: usize) -> Seq<[usize; 2]>
    decreases qs.len(),
{
    if qs.len() == 0 {
        seq![]
    } else {
        valid_queens(qs.drop_last(), size) + if in_bounds(qs.last(), size) {
            seq![qs.last()]
        } else {
            Seq::empty()
        }
    }
}

/// How many of the queens stand in row `r`.
pub open spec fn count_row(vq: Seq<[usize; 2]>, r: int) -> nat
    decreases vq.len(),
{
    if vq.len() == 0 {
        0
    } else {
        count_row(vq.drop_last(), r) + if vq.last()[0] == r {
            1nat
        } else {
            0nat
        }
    }
}

/// How many of the queens stand in column `c`.
pub open spec fn count_col(vq: Seq<[usize; 2]>, c: int) -> nat
    decreases vq.len(),
{
    if vq.len() == 0 {
        0
    } else {
        count_col(vq.drop_last(), c) + if vq.last()[1] == c {
            1nat
        } else {
            0nat
        }
    }
}

/// How many of the queens stand in region `g`.
pub open spec fn count_region(vq: Seq<[usize; 2]>, regions: Seq<Vec<usize>>, g: int) -> nat
    decreases vq.len(),
{
    if vq.len() == 0 {
        0
    } else {
        count_region(vq.drop_last(), regions, g) + if region_at(
            regions,
            vq.last()[0] as int,
            vq.last()[1] as int,
        ) == g {
            1nat
        } else {
            0nat
        }
    }
}

/// The queen shares its row, column or region with another queen.
pub open spec fn crowded(vq: Seq<[usize; 2]>, regions: Seq<Vec<usize>>, q: [usize; 2]) -> bool {
    count_row(vq, q[0] as int) > 1 || count_col(vq, q[1] as int) > 1 || count_region(
        vq,
        regions,
        region_at(regions, q[0] as int, q[1] as int) as int,
    ) > 1
}

/// The two queens touch diagonally.
pub open spec fn touching(a: [usize; 2], b: [usize; 2]) -> bool {
    abs_diff(a[0] as int, b[0] as int) == 1 && abs_diff(a[1] as int, b[1] as int) == 1
}

/// The board cell of a queen, numbered row by row.
pub open spec fn cell_of(q: [usize; 2], size: usize) -> int {
    q[0] * size + q[1]
}

/// One of the first `upto` queens stands on cell `x` and is crowded.
pub open spec fn crowded_at(vq: Seq<[usize; 2]>, regions: Seq<Vec<usize>>, size: usize, x: int, upto: int) -> bool {
    exists|k: int| 0 <= k < upto && #[trigger] cell_of(vq[k], size) == x && crowded(vq, regions, vq[k])
}

/// Cell `x` holds one of a pair of touching queens, the first of which is among the first
/// `upto` queens.
pub open spec fn touching_at(vq: Seq<[usize; 2]>, size: usize, x: int, upto: int) -> bool {
    exists|i: int, j: int|
        0 <= i < upto && i < j < vq.len() && #[trigger] touching(vq[i], vq[j]) && (cell_of(vq[i], size)
            == x || cell_of(vq[j], size) == x)
}

/// Cell `x` holds a queen in conflict with another.
pub open spec fn in_conflict(vq: Seq<[usize; 2]>, regions: Seq<Vec<usize>>, size: usize, x: int) -> bool {
    crowded_at(vq, regions, size, x, vq.len() as int) || touching_at(vq, size, x, vq.len() as int)
}

/// The conflicting cells below `end`, as `(row, col)`, row by row.
pub open spec fn conflict_list(vq: Seq<[usize; 2]>, regions: Seq<Vec<usize>>, size: usize, end: int) -> Seq<(usize, usize)>
    decreases end,
{
    if end <= 0 {
        seq![]
    } else {
        conflict_list(vq, regions, size, end - 1) + if in_conflict(vq, regions, size, end - 1) {
            seq![(((end - 1) / size as int) as usize, ((end - 1) % size as int) as usize)]
        } else {
            Seq::empty()
        }
    }
}

/// The texts of a list of strings.
pub open spec fn texts(v: Seq<String>) -> Seq<Seq<char>> {
    v.map_values(|m: String| m@)
}

/// The cells of a list of `[row, col]` pairs.
pub open spec fn pairs(v: Seq<[usize; 2]>) -> Seq<(usize, usize)> {
    v.map_values(|a: [usize; 2]| (a[0], a[1]))
}

/// The message about an ignored queen (rows and columns counted from 1).
pub open spec fn out_of_bounds_message(q: [usize; 2]) -> Seq<char> {
    "Ignored out-of-bounds queen at "@ + decimal_text((q[0] + 1) as nat) + ","@ + decimal_text(
        (q[1] + 1) as nat,
    ) + "."@
}

/// One message per queen off the board, in the order given.
pub open spec fn out_of_bounds_messages(qs: Seq<[usize; 2]>, size: usize) -> Seq<Seq<char>>
    decreases qs.len(),
{
    if qs.len() == 0 {
        seq![]
    } else {
        out_of_bounds_messages(qs.drop_last(), size) + if in_bounds(qs.last(), size) {
            Seq::empty()
        } else {
            seq![out_of_bounds_message(qs.last())]
        }
    }
}

/// How many rows hold exactly one queen.
pub open spec fn rows_satisfied(vq: Seq<[usize; 2]>, size: usize) -> nat {
    count_true(Seq::new(size as nat, |i: int| count_row(vq, i) == 1))
}

/// How many columns hold exactly one queen.
pub open spec fn cols_satisfied(vq: Seq<[usize; 2]>, size: usize) -> nat {
    count_true(Seq::new(size as nat, |i: int| count_col(vq, i) == 1))
}

/// How many regions hold exactly one queen.
pub open spec fn regions_satisfied(vq: Seq<[usize; 2]>, regions: Seq<Vec<usize>>, size: usize) -> nat {
    count_true(Seq::new(size as nat, |i: int| count_region(vq, regions, i) == 1))
}

/// `m` if `cond` holds, else nothing.
pub open spec fn message_if(cond: bool, m: Seq<char>) -> Seq<Seq<char>> {
    if cond {
        seq![m]
    } else {
        Seq::empty()
    }
}

/// The full verdict on `queens`.
pub open spec fn validation_spec(puzzle: &Puzzle, queens: Seq<[usize; 2]>, v: &ValidateResponse) -> bool {
    let size = puzzle.size;
    let regions = puzzle.regions@;
    let vq = valid_queens(queens, size);
    let rows = rows_satisfied(vq, size);
    let cols = cols_satisfied(vq, size);
    let regs = regions_satisfied(vq, regions, size);
    let conflicts = conflict_list(vq, regions, size, size * size);
    &&& v.queen_count == vq.len()
    &&& v.expected_queens == size
    &&& v.satisfied_rows == rows
    &&& v.satisfied_columns == cols
    &&& v.satisfied_regions == regs
    &&& pairs(v.conflict_cells@) == conflicts
    &&& v.complete == (vq.len() == size && rows == size && cols == size && regs == size
        && conflicts.len() == 0)
    &&& texts(v.messages@) == out_of_bounds_messages(queens, size) + message_if(
        vq.len() != size,
        "Place exactly "@ + decimal_text(size as nat) + " queens."@,
    ) + message_if(rows != size, "Each row needs one queen."@) + message_if(
        cols != size,
        "Each column needs one queen."@,
    ) + message_if(regs != size, "Each colored region needs one queen."@) + message_if(
        conflicts.len() != 0,
        "Queens cannot share a row, column, region, or touch diagonally."@,
    )
}

proof fn lemma_counts_bound(vq: Seq<[usize; 2]>, regions: Seq<Vec<usize>>, r: int)
    ensures
        count_row(vq, r) <= vq.len(),
        count_col(vq, r) <= vq.len(),
        count_region(vq, regions, r) <= vq.len(),
    decreases vq.len(),
{
    if vq.len() > 0 {
        lemma_counts_bound(vq.drop_last(), regions, r);
    }
}

proof fn lemma_valid_queens_bound(qs: Seq<[usize; 2]>, size: usize)
    ensures
        valid_queens(qs, size).len() <= qs.len(),
        forall|k: int| 0 <= k < valid_queens(qs, size).len() ==> in_bounds(#[trigger] valid_queens(qs, size)[k], size),
    decreases qs.len(),
{
    if qs.len() > 0 {
        lemma_valid_queens_bound(qs.drop_last(), size);
    }
}

/// A list of `n` zeros.
fn zeros(n: usize) -> (v: Vec<usize>)
    ensures
        v.len() == n,
        forall|i: int| 0 <= i < n ==> #[trigger] v@[i] == 0,
{
    let mut v: Vec<usize> = Vec::new();
    let mut i: usize = 0;
    while i < n
        invariant
            i <= n,
            v.len() == i,
            forall|k: int| 0 <= k < i ==> #[trigger] v@[k] == 0,
        decreases n - i,
    {
        v.push(0);
        i = i + 1;
    }
    v
}

/// How many counts are exactly one.
fn count_ones(counts: &Vec<usize>) -> (c: usize)
    ensures
        c == count_true(Seq::new(counts.len() as nat, |i: int| counts@[i] == 1)),
{
    let mut c: usize = 0;
    let mut i: usize = 0;
    while i < counts.len()
        invariant
            i <= counts.len(),
            c == count_true(Seq::new(i as nat, |k: int| counts@[k] == 1)),
            c <= i,
        decreases counts.len() - i,
    {
        proof {
            assert(Seq::new((i + 1) as nat, |k: int| counts@[k] == 1).drop_last() == Seq::new(
                i as nat,
                |k: int| counts@[k] == 1,
            ));
        }
        if counts[i] == 1 {
            c = c + 1;
        }
        i = i + 1;
    }
    c
}

/// A message string from a text.
fn message(text: &str) -> (m: String)
    ensures
        m@ == text@,
{
    String::from_str(text)
}

/// Checks a set of queens: queens off the board are ignored with a message each; the rest
/// are counted per row, column and region; queens sharing any of these, or touching
/// diagonally, are in conflict. The set is complete when there are exactly `size` queens on
/// the board, every row, column and region holds exactly one, and none is in conflict.
pub fn validate_solution(puzzle: &Puzzle, queens: &Vec<[usize; 2]>) -> (v: ValidateResponse)
    requires
        regions_ok(puzzle),
        forall|k: int| 0 <= k < queens.len() ==> (#[trigger] queens@[k])[0] < usize::MAX && queens@[k][1] < usize::MAX,
    ensures
        validation_spec(puzzle, queens@, &v),
{
    let size = puzzle.size;
    let ghost regions = puzzle.regions@;
    let mut row_counts = zeros(size);
    let mut col_counts = zeros(size);
    let mut region_counts = zeros(size);
    let mut messages: Vec<String> = Vec::new();
    let mut valid: Vec<[usize; 2]> = Vec::new();
    let mut t: usize = 0;
    while t < queens.len()
        invariant
            regions_ok(puzzle),
            size == puzzle.size,
            regions == puzzle.regions@,
            forall|k: int| 0 <= k < queens.len() ==> (#[trigger] queens@[k])[0] < usize::MAX && queens@[k][1] < usize::MAX,
            t <= queens.len(),
            valid@ == valid_queens(queens@.take(t as int), size),
            texts(messages@) == out_of_bounds_messages(queens@.take(t as int), size),
            row_counts.len() == size,
            col_counts.len() == size,
            region_counts.len() == size,
            forall|r: int| 0 <= r < size ==> #[trigger] row_counts@[r] == count_row(valid@, r),
            forall|r: int| 0 <= r < size ==> #[trigger] col_counts@[r] == count_col(valid@, r),
            forall|r: int| 0 <= r < size ==> #[trigger] region_counts@[r] == count_region(valid@, regions, r),
        decreases queens.len() - t,
    {
        let q = queens[t];
        let row = q[0];
        let col = q[1];
        let ghost before_valid = valid@;
        proof {
            assert(queens@.take(t + 1).drop_last() == queens@.take(t as int));
            assert(queens@.take(t + 1).last() == q);
            lemma_valid_queens_bound(queens@.take(t as int), size);
            lemma_counts_bound(valid@, regions, row as int);
            lemma_counts_bound(valid@, regions, col as int);
        }
        if row >= size || col >= size {
            let mut m = message("Ignored out-of-bounds queen at ");
            append_decimal(&mut m, row + 1);
            m.append(",");
            append_decimal(&mut m, col + 1);
            m.append(".");
            let ghost before = messages@;
            messages.push(m);
            proof {
                assert(texts(messages@) == texts(before).push(m@));
            }
        } else {
            proof {
                assert(puzzle.regions@[row as int].len() >= size);
                assert(region_at(regions, row as int, col as int) < size);
            }
            let region = puzzle.regions[row][col];
            proof {
                lemma_counts_bound(valid@, regions, region as int);
            }
            valid.push(q);
            proof {
                assert(valid@.drop_last() == before_valid);
            }
            let rc = row_counts[row];
            row_counts.set(row, rc + 1);
            let cc = col_counts[col];
            col_counts.set(col, cc + 1);
            let gc = region_counts[region];
            region_counts.set(region, gc + 1);
        }
        t = t + 1;
    }
    proof {
        assert(queens@.take(t as int) == queens@);
        lemma_valid_queens_bound(queens@, size);
    }
    let ghost vq = valid@;
    let n = size * size;
    let mut flags: Vec<bool> = Vec::new();
    let mut x: usize = 0;
    while x < n
        invariant
            x <= n,
            flags.len() == x,
            forall|y: int| 0 <= y < x ==> !#[trigger] flags@[y],
        decreases n - x,
    {
        flags.push(false);
        x = x + 1;
    }
    let mut k: usize = 0;
    while k < valid.len()
        invariant
            regions_ok(puzzle),
            size == puzzle.size,
            regions == puzzle.regions@,
            n == size * size,
            vq == valid@,
            forall|j: int| 0 <= j < vq.len() ==> in_bounds(#[trigger] vq[j], size),
            k <= valid.len(),
            flags.len() == n,
            row_counts.len() == size,
            col_counts.len() == size,
            region_counts.len() == size,
            forall|r: int| 0 <= r < size ==> #[trigger] row_counts@[r] == count_row(vq, r),
            forall|r: int| 0 <= r < size ==> #[trigger] col_counts@[r] == count_col(vq, r),
            forall|r: int| 0 <= r < size ==> #[trigger] region_counts@[r] == count_region(vq, regions, r),
            forall|y: int| 0 <= y < n ==> #[trigger] flags@[y] == crowded_at(vq, regions, size, y, k as int),
        decreases valid.len() - k,
    {
        let q = valid[k];
        let row = q[0];
        let col = q[1];
        proof {
            assert(in_bounds(vq[k as int], size));
            assert(puzzle.regions@[row as int].len() >= size);
            assert(region_at(regions, row as int, col as int) < size);
        }
        let region = puzzle.regions[row][col];
        assert(row * size + col < size * size) by (nonlinear_arith)
            requires
                row < size,
                col < size,
        ;
        let cell = row * size + col;
        let is_crowded = row_counts[row] > 1 || col_counts[col] > 1 || region_counts[region] > 1;
        proof {
            assert(cell_of(vq[k as int], size) == cell);
            assert(is_crowded == crowded(vq, regions, vq[k as int]));
        }
        let ghost before = flags@;
        if is_crowded {
            flags.set(cell, true);
        }
        proof {
            assert forall|y: int| 0 <= y < n implies #[trigger] flags@[y] == crowded_at(vq, regions, size, y, k + 1) by {
                if crowded_at(vq, regions, size, y, k as int) {
                    let j = choose|j: int| 0 <= j < k && #[trigger] cell_of(vq[j], size) == y && crowded(vq, regions, vq[j]);
                    assert(cell_of(vq[j], size) == y);
                }
                if crowded_at(vq, regions, size, y, k + 1) && !crowded_at(vq, regions, size, y, k as int) {
                    let j = choose|j: int| 0 <= j < k + 1 && #[trigger] cell_of(vq[j], size) == y && crowded(vq, regions, vq[j]);
                    if j < k {
                        assert(cell_of(vq[j], size) == y);
                    }
                }
                if y == cell && is_crowded {
                    assert(cell_of(vq[k as int], size) == y);
                }
            }
        }
        k = k + 1;
    }
    let mut i: usize = 0;
    while i < valid.len()
        invariant
            size == puzzle.size,
            n == size * size,
            vq == valid@,
            forall|j: int| 0 <= j < vq.len() ==> in_bounds(#[trigger] vq[j], size),
            i <= valid.len(),
            flags.len() == n,
            forall|y: int|
                0 <= y < n ==> #[trigger] flags@[y] == (crowded_at(vq, regions, size, y, vq.len() as int)
                    || touching_at(vq, size, y, i as int)),
        decreases valid.len() - i,
    {
        let a = valid[i];
        proof {
            assert(in_bounds(vq[i as int], size));
        }
        assert(a[0] * size + a[1] < size * size) by (nonlinear_arith)
            requires
                a[0] < size,
                a[1] < size,
        ;
        let cell_a = a[0] * size + a[1];
        let mut j: usize = i + 1;
        while j < valid.len()
            invariant
                size == puzzle.size,
                n == size * size,
                vq == valid@,
                forall|j2: int| 0 <= j2 < vq.len() ==> in_bounds(#[trigger] vq[j2], size),
                i < valid.len(),
                i + 1 <= j <= valid.len(),
                a == vq[i as int],
                cell_a == cell_of(a, size),
                cell_a < n,
                flags.len() == n,
                forall|y: int|
                    0 <= y < n ==> #[trigger] flags@[y] == (crowded_at(vq, regions, size, y, vq.len() as int)
                        || touching_at(vq, size, y, i as int) || exists|b: int|
                        i < b < j && #[trigger] touching(vq[i as int], vq[b]) && (cell_of(vq[i as int], size) == y
                            || cell_of(vq[b], size) == y)),
            decreases valid.len() - j,
        {
            let b = valid[j];
            proof {
                assert(in_bounds(vq[j as int], size));
            }
            assert(b[0] * size + b[1] < size * size) by (nonlinear_arith)
                requires
                    b[0] < size,
                    b[1] < size,
            ;
            let cell_b = b[0] * size + b[1];
            let row_delta = if a[0] >= b[0] {
                a[0] - b[0]
            } else {
                b[0] - a[0]
            };
            let col_delta = if a[1] >= b[1] {
                a[1] - b[1]
            } else {
                b[1] - a[1]
            };
            let touch = row_delta == 1 && col_delta == 1;
            proof {
                assert(touch == touching(vq[i as int], vq[j as int]));
                assert(cell_b == cell_of(vq[j as int], size));
            }
            if touch {
                flags.set(cell_a, true);
                flags.set(cell_b, true);
            }
            proof {
                assert forall|y: int| 0 <= y < n implies #[trigger] flags@[y] == (crowded_at(
                    vq,
                    regions,
                    size,
                    y,
                    vq.len() as int,
                ) || touching_at(vq, size, y, i as int) || exists|b2: int|
                    i < b2 < j + 1 && #[trigger] touching(vq[i as int], vq[b2]) && (cell_of(vq[i as int], size)
                        == y || cell_of(vq[b2], size) == y)) by {
                    if exists|b2: int|
                        i < b2 < j && #[trigger] touching(vq[i as int], vq[b2]) && (cell_of(vq[i as int], size) == y
                            || cell_of(vq[b2], size) == y) {
                        let b2 = choose|b2: int|
                            i < b2 < j && #[trigger] touching(vq[i as int], vq[b2]) && (cell_of(vq[i as int], size)
                                == y || cell_of(vq[b2], size) == y);
                        assert(touching(vq[i as int], vq[b2]));
                    }
                    if exists|b2: int|
                        i < b2 < j + 1 && #[trigger] touching(vq[i as int], vq[b2]) && (cell_of(vq[i as int], size)
                            == y || cell_of(vq[b2], size) == y) {
                        let b2 = choose|b2: int|
                            i < b2 < j + 1 && #[trigger] touching(vq[i as int], vq[b2]) && (cell_of(vq[i as int], size)
                                == y || cell_of(vq[b2], size) == y);
                        assert(touching(vq[i as int], vq[b2]));
                    }
                    if touch && (y == cell_a || y == cell_b) {
                        assert(touching(vq[i as int], vq[j as int]));
                    }
                }
            }
            j = j + 1;
        }
        proof {
            assert forall|y: int| 0 <= y < n implies #[trigger] flags@[y] == (crowded_at(
                vq,
                regions,
                size,
                y,
                vq.len() as int,
            ) || touching_at(vq, size, y, i + 1)) by {
                if touching_at(vq, size, y, i + 1) {
                    let (i2, j2) = choose|i2: int, j2: int|
                        0 <= i2 < i + 1 && i2 < j2 < vq.len() && #[trigger] touching(vq[i2], vq[j2]) && (cell_of(
                            vq[i2],
                            size,
                        ) == y || cell_of(vq[j2], size) == y);
                    if i2 < i {
                        assert(touching_at(vq, size, y, i as int));
                    } else {
                        assert(touching(vq[i as int], vq[j2]));
                    }
                }
                if touching_at(vq, size, y, i as int) {
                    let (i2, j2) = choose|i2: int, j2: int|
                        0 <= i2 < i && i2 < j2 < vq.len() && #[trigger] touching(vq[i2], vq[j2]) && (cell_of(
                            vq[i2],
                            size,
                        ) == y || cell_of(vq[j2], size) == y);
                    assert(touching(vq[i2], vq[j2]));
                }
                if exists|b2: int|
                    i < b2 < valid.len() && #[trigger] touching(vq[i as int], vq[b2]) && (cell_of(vq[i as int], size)
                        == y || cell_of(vq[b2], size) == y) {
                    let b2 = choose|b2: int|
                        i < b2 < valid.len() && #[trigger] touching(vq[i as int], vq[b2]) && (cell_of(
                            vq[i as int],
                            size,
                        ) == y || cell_of(vq[b2], size) == y);
                    assert(touching(vq[i as int], vq[b2]));
                }
            }
        }
        i = i + 1;
    }
    let mut conflict_cells: Vec<[usize; 2]> = Vec::new();
    let mut x: usize = 0;
    while x < n
        invariant
            size == puzzle.size,
            n == size * size,
            vq == valid@,
            x <= n,
            flags.len() == n,
            forall|y: int| 0 <= y < n ==> #[trigger] flags@[y] == in_conflict(vq, regions, size, y),
            pairs(conflict_cells@) == conflict_list(vq, regions, size, x as int),
        decreases n - x,
    {
        if flags[x] {
            let ghost before = conflict_cells@;
            let cell: [usize; 2] = [x / size, x % size];
            conflict_cells.push(cell);
            proof {
                assert(pairs(conflict_cells@) == pairs(before).push((cell[0], cell[1])));
            }
        }
        x = x + 1;
    }
    let satisfied_rows = count_ones(&row_counts);
    let satisfied_columns = count_ones(&col_counts);
    let satisfied_regions = count_ones(&region_counts);
    proof {
        assert(Seq::new(size as nat, |i: int| row_counts@[i] == 1) == Seq::new(size as nat, |i: int| count_row(vq, i) == 1));
        assert(Seq::new(size as nat, |i: int| col_counts@[i] == 1) == Seq::new(size as nat, |i: int| count_col(vq, i) == 1));
        assert(Seq::new(size as nat, |i: int| region_counts@[i] == 1) == Seq::new(
            size as nat,
            |i: int| count_region(vq, regions, i) == 1,
        ));
    }
    let ghost texts0 = texts(messages@);
    if valid.len() != size {
        let mut m = message("Place exactly ");
        append_decimal(&mut m, size);
        m.append(" queens.");
        let ghost before = messages@;
        messages.push(m);
        proof {
            assert(texts(messages@) == texts(before).push(m@));
        }
    }
    let ghost texts1 = texts(messages@);
    if satisfied_rows != size {
        let m = message("Each row needs one queen.");
        let ghost before = messages@;
        messages.push(m);
        proof {
            assert(texts(messages@) == texts(before).push(m@));
        }
    }
    let ghost texts2 = texts(messages@);
    if satisfied_columns != size {
        let m = message("Each column needs one queen.");
        let ghost before = messages@;
        messages.push(m);
        proof {
            assert(texts(messages@) == texts(before).push(m@));
        }
    }
    let ghost texts3 = texts(messages@);
    if satisfied_regions != size {
        let m = message("Each colored region needs one queen.");
        let ghost before = messages@;
        messages.push(m);
        proof {
            assert(texts(messages@) == texts(before).push(m@));
        }
    }
    let ghost texts4 = texts(messages@);
    if conflict_cells.len() != 0 {
        let m = message("Queens cannot share a row, column, region, or touch diagonally.");
        let ghost before = messages@;
        messages.push(m);
        proof {
            assert(texts(messages@) == texts(before).push(m@));
        }
    }
    proof {
        let vql = vq.len() != size;
        assert(texts1 =~= texts0 + message_if(vql, "Place exactly "@ + decimal_text(size as nat) + " queens."@));
        assert(texts2 =~= texts1 + message_if(satisfied_rows != size, "Each row needs one queen."@));
        assert(texts3 =~= texts2 + message_if(satisfied_columns != size, "Each column needs one queen."@));
        assert(texts4 =~= texts3 + message_if(satisfied_regions != size, "Each colored region needs one queen."@));
        assert(texts(messages@) =~= texts4 + message_if(
            conflict_cells.len() != 0,
            "Queens cannot share a row, column, region, or touch diagonally."@,
        ));
    }
    let complete = valid.len() == size && satisfied_rows == size && satisfied_columns == size
        && satisfied_regions == size && conflict_cells.len() == 0;
    ValidateResponse {
        complete,
        queen_count: valid.len(),
        expected_queens: size,
        satisfied_rows,
        satisfied_columns,
        satisfied_regions,
        conflict_cells,
        messages,
    }
}


/// The picker entries of a puzzle archive page.
#[derive(Debug, Clone, PartialEq, Eq)]
pub struct PuzzleArchiveBootstrap {
    pub puzzle_nav: Vec<PuzzleNav>,
    pub total: usize,
}

/// The position of the first puzzle with id `id` at or after `from`; the length when none.
pub open spec fn first_puzzle_from(puzzles: Seq<Puzzle>, id: usize, from: int) -> int
    decreases puzzles.len() - from,
{
    if from < 0 || from >= puzzles.len() {
        puzzles.len() as int
    } else if puzzles[from].id == id {
        from
    } else {
        first_puzzle_from(puzzles, id, from + 1)
    }
}

pub proof fn lemma_first_puzzle_from(puzzles: Seq<Puzzle>, id: usize, from: int)
    requires
        0 <= from <= puzzles.len(),
    ensures
        from <= first_puzzle_from(puzzles, id, from) <= puzzles.len(),
        first_puzzle_from(puzzles, id, from) < puzzles.len() ==> puzzles[first_puzzle_from(puzzles, id, from)].id == id,
        forall|k: int| from <= k < first_puzzle_from(puzzles, id, from) ==> (#[trigger] puzzles[k]).id != id,
    decreases puzzles.len() - from,
{
    if from < puzzles.len() && puzzles[from].id != id {
        lemma_first_puzzle_from(puzzles, id, from + 1);
    }
}

/// The first puzzle with the given id.
pub fn find_puzzle_by_id<'a>(puzzles: &'a Vec<Puzzle>, id: usize) -> (found: Option<&'a Puzzle>)
    ensures
        found is None <==> first_puzzle_from(puzzles@, id, 0) == puzzles.len(),
        found matches Some(p) ==> *p == puzzles@[first_puzzle_from(puzzles@, id, 0)],
{
    let mut k: usize = 0;
    while k < puzzles.len()
        invariant
            k <= puzzles.len(),
            first_puzzle_from(puzzles@, id, 0) == first_puzzle_from(puzzles@, id, k as int),
        decreases puzzles.len() - k,
    {
        if puzzles[k].id == id {
            return Some(&puzzles[k]);
        }
        k = k + 1;
    }
    None
}

/// One picker entry per puzzle, in order, the one with `active_id` marked active.
pub fn puzzle_nav(puzzles: &Vec<Puzzle>, active_id: usize) -> (nav: Vec<PuzzleNav>)
    ensures
        nav.len() == puzzles.len(),
        forall|k: int|
            0 <= k < nav.len() ==> (#[trigger] nav@[k]).id == puzzles@[k].id && nav@[k].active == (
            puzzles@[k].id == active_id),
{
    let mut nav: Vec<PuzzleNav> = Vec::new();
    let mut k: usize = 0;
    while k < puzzles.len()
        invariant
            k <= puzzles.len(),
            nav.len() == k,
            forall|j: int|
                0 <= j < k ==> (#[trigger] nav@[j]).id == puzzles@[j].id && nav@[j].active == (
                puzzles@[j].id == active_id),
        decreases puzzles.len() - k,
    {
        let id = puzzles[k].id;
        nav.push(PuzzleNav { id, active: id == active_id });
        k = k + 1;
    }
    nav
}

/// What a Queens page for puzzle `id` starts with; none when no puzzle has that id.
pub fn puzzle_bootstrap(puzzles: &Vec<Puzzle>, id: usize) -> (b: Option<GameBootstrap>)
    ensures
        b is None <==> first_puzzle_from(puzzles@, id, 0) == puzzles.len(),
        b matches Some(g) ==> {
            &&& g.puzzle.id == id
            &&& g.total == puzzles.len()
            &&& g.puzzle_nav.len() == puzzles.len()
            &&& forall|k: int|
                0 <= k < g.puzzle_nav.len() ==> (#[trigger] g.puzzle_nav@[k]).id == puzzles@[k].id
                    && g.puzzle_nav@[k].active == (puzzles@[k].id == id)
        },
{
    proof {
        lemma_first_puzzle_from(puzzles@, id, 0);
    }
    match find_puzzle_by_id(puzzles, id) {
        None => None,
        Some(p) => {
            let puzzle = p.clone();
            Some(GameBootstrap { puzzle: puzzle_with_id(puzzle, id), puzzle_nav: puzzle_nav(puzzles, id), total: puzzles.len() })
        },
    }
}

/// A copy of a puzzle whose id is known, keeping that id.
fn puzzle_with_id(puzzle: Puzzle, id: usize) -> (p: Puzzle)
    ensures
        p.id == id,
        p.size == puzzle.size,
{
    Puzzle { id, size: puzzle.size, colors: puzzle.colors, regions: puzzle.regions }
}

/// The picker of the archive page: every puzzle, none active (ids start at 1).
pub fn puzzle_archive_bootstrap(puzzles: &Vec<Puzzle>) -> (b: PuzzleArchiveBootstrap)
    ensures
        b.total == puzzles.len(),
        b.puzzle_nav.len() == puzzles.len(),
        forall|k: int|
            0 <= k < b.puzzle_nav.len() ==> (#[trigger] b.puzzle_nav@[k]).id == puzzles@[k].id
                && b.puzzle_nav@[k].active == (puzzles@[k].id == 0),
{
    PuzzleArchiveBootstrap { puzzle_nav: puzzle_nav(puzzles, 0), total: puzzles.len() }
}

/// Some puzzle has this id.
pub open spec fn has_puzzle_id(puzzles: Seq<Puzzle>, id: usize) -> bool {
    exists|k: int| 0 <= k < puzzles.len() && (#[trigger] puzzles[k]).id == id
}

/// The id after `current_id`: the smallest larger id, or, past the last, the smallest id;
/// none when there are no puzzles.
pub fn next_puzzle_id(puzzles: &Vec<Puzzle>, current_id: usize) -> (next: Option<usize>)
    ensures
        next is None <==> puzzles.len() == 0,
        next matches Some(n) ==> has_puzzle_id(puzzles@, n),
        next matches Some(n) ==> (exists|k: int| 0 <= k < puzzles.len() && (#[trigger] puzzles@[k]).id
            > current_id) ==> n > current_id && forall|k: int|
            0 <= k < puzzles.len() && (#[trigger] puzzles@[k]).id > current_id ==> n <= puzzles@[k].id,
        next matches Some(n) ==> !(exists|k: int| 0 <= k < puzzles.len() && (#[trigger] puzzles@[k]).id
            > current_id) ==> forall|k: int| 0 <= k < puzzles.len() ==> n <= (#[trigger] puzzles@[k]).id,
{
    let mut best_above: Option<usize> = None;
    let mut lowest: Option<usize> = None;
    let mut k: usize = 0;
    while k < puzzles.len()
        invariant
            k <= puzzles.len(),
            lowest is None <==> k == 0,
            lowest matches Some(l) ==> (exists|j: int| 0 <= j < k && (#[trigger] puzzles@[j]).id == l) && forall|j: int|
                0 <= j < k ==> l <= (#[trigger] puzzles@[j]).id,
            best_above is None <==> !(exists|j: int| 0 <= j < k && (#[trigger] puzzles@[j]).id > current_id),
            best_above matches Some(b) ==> b > current_id && (exists|j: int| 0 <= j < k && (#[trigger] puzzles@[j]).id == b)
                && forall|j: int| 0 <= j < k && (#[trigger] puzzles@[j]).id > current_id ==> b <= puzzles@[j].id,
        decreases puzzles.len() - k,
    {
        let id = puzzles[k].id;
        match lowest {
            None => {
                lowest = Some(id);
            },
            Some(l) => {
                if id < l {
                    lowest = Some(id);
                }
            },
        }
        if id > current_id {
            match best_above {
                None => {
                    best_above = Some(id);
                },
                Some(b) => {
                    if id < b {
                        best_above = Some(id);
                    }
                },
            }
        }
        proof {
            assert(puzzles@[k as int].id == id);
        }
        k = k + 1;
    }
    match best_above {
        Some(b) => Some(b),
        None => lowest,
    }
}

/// Calls `rand::rng().random_range(0..upper)`: a uniformly drawn index below `upper`. The
/// draw is random, so only its range is stated.
#[verifier::external_body]
fn random_index_below(upper: usize) -> (i: usize)
    requires
        upper > 0,
    ensures
        i < upper,
{
    rand::rng().random_range(0..upper)
}

/// The ids a room may draw its next puzzle from: those not played yet, or, once all have
/// been played, every id.
pub open spec fn room_candidate_ids(puzzles: Seq<Puzzle>, played: Set<usize>) -> Seq<usize> {
    let unplayed = puzzles.filter(|p: Puzzle| !played.contains(p.id)).map_values(|p: Puzzle| p.id);
    if unplayed.len() > 0 {
        unplayed
    } else {
        puzzles.map_values(|p: Puzzle| p.id)
    }
}

/// The candidates for a room's next puzzle, computed.
pub fn room_puzzle_candidates(puzzles: &Vec<Puzzle>, played_puzzle_ids: &BTreeSet<usize>) -> (c: Vec<usize>)
    ensures
        c@ == room_candidate_ids(puzzles@, played_puzzle_ids@),
{
    let mut candidates: Vec<usize> = Vec::new();
    let mut k: usize = 0;
    while k < puzzles.len()
        invariant
            k <= puzzles.len(),
            candidates@ == puzzles@.take(k as int).filter(|p: Puzzle| !played_puzzle_ids@.contains(p.id)).map_values(
                |p: Puzzle| p.id,
            ),
        decreases puzzles.len() - k,
    {
        let ghost before = candidates@;
        let id = puzzles[k].id;
        proof {
            let f = |p: Puzzle| !played_puzzle_ids@.contains(p.id);
            assert(puzzles@.take(k + 1) == puzzles@.take(k as int).push(puzzles@[k as int]));
            puzzles@.take(k as int).lemma_filter_push(puzzles@[k as int], f);
        }
        if !played_puzzle_ids.contains(&id) {
            candidates.push(id);
        }
        proof {
            let f = |p: Puzzle| !played_puzzle_ids@.contains(p.id);
            let t0 = puzzles@.take(k as int).filter(f);
            let t1 = puzzles@.take(k + 1).filter(f);
            if f(puzzles@[k as int]) {
                assert(t1 == t0.push(puzzles@[k as int]));
                assert(candidates@ =~= t1.map_values(|p: Puzzle| p.id));
            } else {
                assert(t1 == t0);
            }
        }
        k = k + 1;
    }
    proof {
        assert(puzzles@.take(k as int) == puzzles@);
    }
    if candidates.len() == 0 {
        let mut all: Vec<usize> = Vec::new();
        let mut k: usize = 0;
        while k < puzzles.len()
            invariant
                k <= puzzles.len(),
                all@ == puzzles@.take(k as int).map_values(|p: Puzzle| p.id),
            decreases puzzles.len() - k,
        {
            all.push(puzzles[k].id);
            proof {
                assert(puzzles@.take(k + 1) == puzzles@.take(k as int).push(puzzles@[k as int]));
                assert(all@ =~= puzzles@.take(k + 1).map_values(|p: Puzzle| p.id));
            }
            k = k + 1;
        }
        proof {
            assert(puzzles@.take(k as int) == puzzles@);
        }
        return all;
    }
    candidates
}

/// A random puzzle id for a room's next race, preferring puzzles not played yet; none when
/// there are no puzzles.
pub fn random_room_puzzle_id(puzzles: &Vec<Puzzle>, played_puzzle_ids: &BTreeSet<usize>) -> (id: Option<usize>)
    ensures
        id is None <==> puzzles.len() == 0,
        id matches Some(i) ==> room_candidate_ids(puzzles@, played_puzzle_ids@).contains(i),
{
    let candidates = room_puzzle_candidates(puzzles, played_puzzle_ids);
    if candidates.len() == 0 {
        proof {
            assert(puzzles@.map_values(|p: Puzzle| p.id).len() == puzzles.len());
        }
        return None;
    }
    proof {
        if puzzles.len() == 0 {
            assert(puzzles@.filter(|p: Puzzle| !played_puzzle_ids@.contains(p.id)).len() == 0);
        }
    }
    let index = random_index_below(candidates.len());
    Some(candidates[index])
}

} // verus!
