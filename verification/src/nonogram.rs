//! Nonograms: puzzles built from a picture, their clues, checking a player's grid, a
//! line-by-line solver that works as a person would, and seeded puzzle generation.

use vstd::prelude::*;
use crate::grid::{count_true, lemma_cell_index, lemma_count_true_bound, lemma_count_true_clear};
use vstd::relations::{sorted_by, total_ordering};

verus! {

/// Width of a nonogram when none is asked for.
pub const NONOGRAM_DEFAULT_WIDTH: usize = 10;

/// Height of a nonogram when none is asked for.
pub const NONOGRAM_DEFAULT_HEIGHT: usize = 10;

/// Shortest side a nonogram may have.
pub const NONOGRAM_MIN_AXIS: usize = 5;

/// Longest side a nonogram may have.
pub const NONOGRAM_MAX_AXIS: usize = 15;

/// How many seeds generation tries before it settles.
pub const NONOGRAM_GENERATION_ATTEMPTS: usize = 512;

/// The size a nonogram page starts with.
#[derive(Debug, Clone, PartialEq, Eq)]
pub struct NonogramBootstrap {
    pub width: usize,
    pub height: usize,
}

impl Default for NonogramBootstrap {
    fn default() -> (b: Self)
        ensures
            b.width == NONOGRAM_DEFAULT_WIDTH,
            b.height == NONOGRAM_DEFAULT_HEIGHT,
    {
        NonogramBootstrap { width: NONOGRAM_DEFAULT_WIDTH, height: NONOGRAM_DEFAULT_HEIGHT }
    }
}

/// A nonogram: its picture (`solution`, row by row) and the run lengths of every row and
/// column.
#[derive(Debug, Clone, PartialEq, Eq)]
pub struct NonogramPuzzle {
    pub width: usize,
    pub height: usize,
    pub seed: u64,
    pub row_clues: Vec<Vec<usize>>,
    pub col_clues: Vec<Vec<usize>>,
    pub solution: Vec<bool>,
}

/// What a player has put in a cell.
#[derive(Debug, Clone, Copy, PartialEq, Eq, Structural)]
pub enum NonogramCellState {
    Hidden,
    Filled,
    Crossed,
}

impl NonogramCellState {
    pub fn is_filled(self) -> (b: bool)
        ensures
            b == (self == NonogramCellState::Filled),
    {
        match self {
            NonogramCellState::Filled => true,
            _ => false,
        }
    }
}

/// The verdict on a player's grid.
#[derive(Debug, Clone, PartialEq, Eq)]
pub struct NonogramValidation {
    pub complete: bool,
    pub filled_count: usize,
    pub expected_filled: usize,
    pub incorrect_cells: Vec<usize>,
}

impl NonogramPuzzle {
    pub fn cell_count(&self) -> (n: usize)
        requires
            self.width * self.height <= usize::MAX,
        ensures
            n == self.width * self.height,
    {
        self.width * self.height
    }

    pub fn index(&self, row: usize, col: usize) -> (res: Option<usize>)
        requires
            self.width * self.height <= usize::MAX,
        ensures
            res is Some <==> (row < self.height && col < self.width),
            res matches Some(i) ==> i == row * self.width + col && i < self.width * self.height,
    {
        if row < self.height && col < self.width {
            proof {
                lemma_cell_index(self.width as int, self.height as int, row as int, col as int);
            }
            Some(row * self.width + col)
        } else {
            None
        }
    }
}

/// A side length kept between the shortest and the longest allowed.
pub open spec fn clamp_axis_spec(axis: usize) -> usize {
    if axis < NONOGRAM_MIN_AXIS {
        NONOGRAM_MIN_AXIS
    } else if axis > NONOGRAM_MAX_AXIS {
        NONOGRAM_MAX_AXIS
    } else {
        axis
    }
}

pub fn clamp_nonogram_axis(axis: usize) -> (r: usize)
    ensures
        r == clamp_axis_spec(axis),
{
    if axis < NONOGRAM_MIN_AXIS {
        NONOGRAM_MIN_AXIS
    } else if axis > NONOGRAM_MAX_AXIS {
        NONOGRAM_MAX_AXIS
    } else {
        axis
    }
}

/// Reading `line` from the left: the runs of filled cells already closed by an empty cell,
/// and the length of the run still open at the end.
pub open spec fn scan_runs(line: Seq<bool>) -> (Seq<usize>, nat)
    decreases line.len(),
{
    if line.len() == 0 {
        (seq![], 0)
    } else {
        let (closed, open) = scan_runs(line.drop_last());
        if line.last() {
            (closed, open + 1)
        } else if open > 0 {
            (closed.push(open as usize), 0)
        } else {
            (closed, 0)
        }
    }
}

/// The clue of a line: the lengths of its runs of filled cells, left to right.
pub open spec fn line_clues_spec(line: Seq<bool>) -> Seq<usize> {
    let (closed, open) = scan_runs(line);
    if open > 0 {
        closed.push(open as usize)
    } else {
        closed
    }
}

/// The sum of a list of run lengths.
pub open spec fn clue_sum(clues: Seq<usize>) -> nat
    decreases clues.len(),
{
    if clues.len() == 0 {
        0
    } else {
        clue_sum(clues.drop_last()) + clues.last() as nat
    }
}

/// The open run never reaches past the part of the line read, and the runs together hold
/// exactly the filled cells.
proof fn lemma_scan_runs(line: Seq<bool>)
    requires
        line.len() <= usize::MAX,
    ensures
        scan_runs(line).1 <= line.len(),
        clue_sum(scan_runs(line).0) + scan_runs(line).1 == count_true(line),
        forall|k: int| 0 <= k < scan_runs(line).0.len() ==> #[trigger] scan_runs(line).0[k] > 0,
        scan_runs(line).0.len() + scan_runs(line).1 <= line.len(),
    decreases line.len(),
{
    if line.len() > 0 {
        lemma_scan_runs(line.drop_last());
        let (closed, open) = scan_runs(line.drop_last());
        if !line.last() && open > 0 {
            assert((open as usize) as nat == open);
            assert(closed.push(open as usize).drop_last() == closed);
            assert(clue_sum(closed.push(open as usize)) == clue_sum(closed) + open);
        }
    }
}

/// The clue of `line`, computed.
fn line_clues(line: &Vec<bool>) -> (clues: Vec<usize>)
    ensures
        clues@ == line_clues_spec(line@),
{
    let mut clues: Vec<usize> = Vec::new();
    let mut run: usize = 0;
    let mut i: usize = 0;
    while i < line.len()
        invariant
            i <= line.len(),
            (clues@, run as nat) == scan_runs(line@.take(i as int)),
        decreases line.len() - i,
    {
        proof {
            lemma_scan_runs(line@.take(i as int));
            assert(line@.take(i + 1).drop_last() == line@.take(i as int));
        }
        if line[i] {
            run = run + 1;
        } else if run > 0 {
            clues.push(run);
            run = 0;
        }
        i = i + 1;
    }
    proof {
        assert(line@.take(i as int) == line@);
    }
    if run > 0 {
        clues.push(run);
    }
    clues
}

/// Row `row` of a picture `width` cells wide.
pub open spec fn row_line(cells: Seq<bool>, width: int, row: int) -> Seq<bool> {
    Seq::new(width as nat, |col: int| cells[row * width + col])
}

/// Column `col` of a picture `width` cells wide and `height` cells high.
pub open spec fn col_line(cells: Seq<bool>, width: int, height: int, col: int) -> Seq<bool> {
    Seq::new(height as nat, |row: int| cells[row * width + col])
}

/// `puzzle` holds `solution` with the clues of its rows and columns.
pub open spec fn clues_match(puzzle: &NonogramPuzzle) -> bool {
    let w = puzzle.width as int;
    let h = puzzle.height as int;
    &&& puzzle.solution.len() == w * h
    &&& puzzle.row_clues.len() == h
    &&& puzzle.col_clues.len() == w
    &&& forall|r: int| 0 <= r < h ==> (#[trigger] puzzle.row_clues@[r])@ == line_clues_spec(row_line(puzzle.solution@, w, r))
    &&& forall|c: int| 0 <= c < w ==> (#[trigger] puzzle.col_clues@[c])@ == line_clues_spec(col_line(puzzle.solution@, w, h, c))
}

/// Copies row `row` out of a picture.
fn row_of(cells: &Vec<bool>, width: usize, height: usize, row: usize) -> (line: Vec<bool>)
    requires
        cells.len() == width * height,
        row < height,
    ensures
        line@ == row_line(cells@, width as int, row as int),
{
    let mut line: Vec<bool> = Vec::new();
    let mut col: usize = 0;
    while col < width
        invariant
            cells.len() == width * height,
            row < height,
            col <= width,
            line.len() == col,
            forall|k: int| 0 <= k < col ==> #[trigger] line@[k] == cells@[row * width + k],
        decreases width - col,
    {
        proof {
            lemma_cell_index(width as int, height as int, row as int, col as int);
        }
        line.push(cells[row * width + col]);
        col = col + 1;
    }
    line
}

/// Copies column `col` out of a picture.
fn col_of(cells: &Vec<bool>, width: usize, height: usize, col: usize) -> (line: Vec<bool>)
    requires
        cells.len() == width * height,
        col < width,
    ensures
        line@ == col_line(cells@, width as int, height as int, col as int),
{
    let mut line: Vec<bool> = Vec::new();
    let mut row: usize = 0;
    while row < height
        invariant
            cells.len() == width * height,
            col < width,
            row <= height,
            line.len() == row,
            forall|k: int| 0 <= k < row ==> #[trigger] line@[k] == cells@[k * width + col],
        decreases height - row,
    {
        proof {
            lemma_cell_index(width as int, height as int, row as int, col as int);
        }
        line.push(cells[row * width + col]);
        row = row + 1;
    }
    line
}

/// Builds the puzzle of a picture: the clues of each row, then of each column.
pub fn build_nonogram_puzzle(width: usize, height: usize, seed: u64, solution: Vec<bool>) -> (puzzle: NonogramPuzzle)
    requires
        solution.len() == width * height,
    ensures
        puzzle.width == width,
        puzzle.height == height,
        puzzle.seed == seed,
        puzzle.solution@ == solution@,
        clues_match(&puzzle),
        width <= NONOGRAM_MAX_AXIS && height <= NONOGRAM_MAX_AXIS ==> puzzle_clues_fit(&puzzle),
{
    let mut row_clues: Vec<Vec<usize>> = Vec::new();
    let mut row: usize = 0;
    while row < height
        invariant
            solution.len() == width * height,
            row <= height,
            row_clues.len() == row,
            forall|r: int| 0 <= r < row ==> (#[trigger] row_clues@[r])@ == line_clues_spec(row_line(solution@, width as int, r)),
        decreases height - row,
    {
        let line = row_of(&solution, width, height, row);
        row_clues.push(line_clues(&line));
        row = row + 1;
    }
    let mut col_clues: Vec<Vec<usize>> = Vec::new();
    let mut col: usize = 0;
    while col < width
        invariant
            solution.len() == width * height,
            col <= width,
            col_clues.len() == col,
            forall|c: int| 0 <= c < col ==> (#[trigger] col_clues@[c])@ == line_clues_spec(col_line(solution@, width as int, height as int, c)),
        decreases width - col,
    {
        let line = col_of(&solution, width, height, col);
        col_clues.push(line_clues(&line));
        col = col + 1;
    }
    let puzzle = NonogramPuzzle { width, height, seed, row_clues, col_clues, solution };
    proof {
        if width <= NONOGRAM_MAX_AXIS && height <= NONOGRAM_MAX_AXIS {
            lemma_built_clues_fit(&puzzle);
        }
    }
    puzzle
}

/// One flag per player cell: whether it is filled.
pub open spec fn filled_map(cells: Seq<NonogramCellState>) -> Seq<bool> {
    Seq::new(cells.len(), |i: int| cells[i] == NonogramCellState::Filled)
}

/// The cells below `end` where the player's grid and the picture disagree, in order.
pub open spec fn mismatches(cells: Seq<NonogramCellState>, solution: Seq<bool>, end: int) -> Seq<usize>
    decreases end,
{
    if end <= 0 {
        seq![]
    } else {
        mismatches(cells, solution, end - 1) + if (cells[end - 1] == NonogramCellState::Filled)
            != solution[end - 1] {
            seq![(end - 1) as usize]
        } else {
            Seq::<usize>::empty()
        }
    }
}

/// The indices `0..n` in order.
pub open spec fn all_indices(n: nat) -> Seq<usize> {
    Seq::new(n, |i: int| i as usize)
}

/// How many flags are set, counted by a loop.
fn count_flags(v: &Vec<bool>) -> (c: usize)
    ensures
        c == count_true(v@),
{
    let mut c: usize = 0;
    let mut i: usize = 0;
    while i < v.len()
        invariant
            i <= v.len(),
            c == count_true(v@.take(i as int)),
        decreases v.len() - i,
    {
        proof {
            assert(v@.take(i + 1).drop_last() == v@.take(i as int));
            lemma_count_true_bound(v@.take(i as int));
        }
        if v[i] {
            c = c + 1;
        }
        i = i + 1;
    }
    proof {
        assert(v@.take(i as int) == v@);
    }
    c
}

/// The listed mismatches are exactly the cells before `end` whose filled state differs from
/// the picture, in increasing order; there are none exactly when every such cell agrees.
pub proof fn lemma_mismatches_exact(cells: Seq<NonogramCellState>, solution: Seq<bool>, end: int)
    requires
        0 <= end <= cells.len(),
        end <= solution.len(),
        end <= usize::MAX + 1,
    ensures
        forall|k: int|
            #![trigger mismatches(cells, solution, end).contains(k as usize)]
            0 <= k < end ==> (mismatches(cells, solution, end).contains(k as usize) <==> (cells[k]
                == NonogramCellState::Filled) != solution[k]),
        forall|x: usize| #[trigger] mismatches(cells, solution, end).contains(x) ==> (x as int) < end && (cells[x as int]
            == NonogramCellState::Filled) != solution[x as int],
        forall|a: int, b: int|
            0 <= a < b < mismatches(cells, solution, end).len() ==> mismatches(cells, solution, end)[a] < mismatches(
                cells,
                solution,
                end,
            )[b],
        (forall|k: int| 0 <= k < end ==> (#[trigger] cells[k] == NonogramCellState::Filled) == solution[k]) <==> mismatches(
            cells,
            solution,
            end,
        ).len() == 0,
    decreases end,
{
    if end > 0 {
        lemma_mismatches_exact(cells, solution, end - 1);
        let p = mismatches(cells, solution, end - 1);
        let m = mismatches(cells, solution, end);
        let diff = (cells[end - 1] == NonogramCellState::Filled) != solution[end - 1];
        assert forall|x: usize| #[trigger] m.contains(x) implies (x as int) < end && (cells[x as int]
            == NonogramCellState::Filled) != solution[x as int] by {
            let i = choose|i: int| 0 <= i < m.len() && m[i] == x;
            if i < p.len() {
                assert(p[i] == x);
                assert(p.contains(x));
            }
        }
        assert forall|k: int| 0 <= k < end implies (m.contains(k as usize) <==> (cells[k] == NonogramCellState::Filled)
            != solution[k]) by {
            if k < end - 1 {
                if p.contains(k as usize) {
                    let i = choose|i: int| 0 <= i < p.len() && p[i] == k as usize;
                    assert(m[i] == k as usize);
                }
                if m.contains(k as usize) {
                    let i = choose|i: int| 0 <= i < m.len() && m[i] == k as usize;
                    if i < p.len() {
                        assert(p[i] == k as usize);
                    }
                }
            } else if diff {
                assert(m[p.len() as int] == k as usize);
            }
        }
        assert forall|a: int, b: int| 0 <= a < b < m.len() implies m[a] < m[b] by {
            if b < p.len() {
                assert(m[a] == p[a] && m[b] == p[b]);
            } else {
                assert(m[a] == p[a]);
                assert(p.contains(p[a]));
            }
        }
        if (forall|k: int| 0 <= k < end ==> (#[trigger] cells[k] == NonogramCellState::Filled) == solution[k]) {
            assert(!diff);
            assert(p.len() == 0);
        }
        if m.len() == 0 {
            assert(!diff);
            assert forall|k: int| 0 <= k < end implies (#[trigger] cells[k] == NonogramCellState::Filled) == solution[k] by {
                if k < end - 1 {
                    if (cells[k] == NonogramCellState::Filled) != solution[k] {
                        assert(p.contains(k as usize));
                        let i = choose|i: int| 0 <= i < p.len() && p[i] == k as usize;
                    }
                }
            }
        }
    }
}

/// Checks a player's grid against the picture. A grid of the wrong size is incomplete with
/// every cell marked wrong; otherwise the wrong cells are those filled where the picture is
/// empty or left unfilled where it is filled, and the grid is complete when there are none.
pub fn validate_nonogram_solution(puzzle: &NonogramPuzzle, cells: &Vec<NonogramCellState>) -> (v: NonogramValidation)
    requires
        puzzle.width * puzzle.height <= usize::MAX,
    ensures
        v.expected_filled == count_true(puzzle.solution@),
        v.filled_count == count_true(filled_map(cells@)),
        cells.len() != puzzle.width * puzzle.height ==> !v.complete && v.incorrect_cells@ == all_indices(
            (puzzle.width * puzzle.height) as nat,
        ),
        cells.len() == puzzle.width * puzzle.height ==> {
            let m = if puzzle.solution.len() < cells.len() {
                puzzle.solution.len()
            } else {
                cells.len()
            };
            &&& v.incorrect_cells@ == mismatches(cells@, puzzle.solution@, m as int)
            &&& v.complete == (v.incorrect_cells.len() == 0)
        },
        cells.len() == puzzle.width * puzzle.height && puzzle.solution.len() == cells.len() ==> forall|k: int|
            0 <= k < cells.len() ==> (v.incorrect_cells@.contains(k as usize) <==> (#[trigger] cells@[k]
                == NonogramCellState::Filled) != puzzle.solution@[k]),
        cells.len() == puzzle.width * puzzle.height && puzzle.solution.len() == cells.len() ==> (v.complete <==> forall|k: int|
            0 <= k < cells.len() ==> (#[trigger] cells@[k] == NonogramCellState::Filled) == puzzle.solution@[k]),
        cells.len() == puzzle.width * puzzle.height ==> forall|x: usize|
            #[trigger] v.incorrect_cells@.contains(x) ==> (x as int) < cells.len() && (x as int) < puzzle.solution.len()
                && (cells@[x as int] == NonogramCellState::Filled) != puzzle.solution@[x as int],
{
    let expected_filled = count_flags(&puzzle.solution);
    let mut filled: Vec<bool> = Vec::new();
    let mut i: usize = 0;
    while i < cells.len()
        invariant
            i <= cells.len(),
            filled@ == filled_map(cells@.take(i as int)),
        decreases cells.len() - i,
    {
        filled.push(cells[i].is_filled());
        proof {
            assert(filled_map(cells@.take(i + 1)) == filled_map(cells@.take(i as int)).push(
                cells@[i as int] == NonogramCellState::Filled,
            ));
        }
        i = i + 1;
    }
    proof {
        assert(cells@.take(i as int) == cells@);
    }
    let filled_count = count_flags(&filled);
    let n = puzzle.cell_count();
    if cells.len() != n {
        let mut all: Vec<usize> = Vec::new();
        let mut k: usize = 0;
        while k < n
            invariant
                k <= n,
                all@ == all_indices(k as nat),
            decreases n - k,
        {
            all.push(k);
            proof {
                assert(all_indices((k + 1) as nat) == all_indices(k as nat).push(k as usize));
            }
            k = k + 1;
        }
        return NonogramValidation { complete: false, filled_count, expected_filled, incorrect_cells: all };
    }
    let m = if puzzle.solution.len() < cells.len() {
        puzzle.solution.len()
    } else {
        cells.len()
    };
    let mut incorrect_cells: Vec<usize> = Vec::new();
    let mut k: usize = 0;
    while k < m
        invariant
            k <= m,
            m <= cells.len(),
            m <= puzzle.solution.len(),
            incorrect_cells@ == mismatches(cells@, puzzle.solution@, k as int),
        decreases m - k,
    {
        if cells[k].is_filled() != puzzle.solution[k] {
            incorrect_cells.push(k);
        }
        k = k + 1;
    }
    proof {
        lemma_mismatches_exact(cells@, puzzle.solution@, m as int);
    }
    NonogramValidation {
        complete: incorrect_cells.len() == 0,
        filled_count,
        expected_filled,
        incorrect_cells,
    }
}


/// The sum of the run lengths from position `from` on.
pub open spec fn sum_from(clues: Seq<usize>, from: int) -> nat
    decreases clues.len() - from,
{
    if from < 0 || from >= clues.len() {
        0
    } else {
        clues[from] as nat + sum_from(clues, from + 1)
    }
}

/// The clue list is small enough that its total width can be computed.
pub open spec fn clues_fit(clues: Seq<usize>) -> bool {
    clue_sum(clues) + clues.len() <= usize::MAX
}

proof fn lemma_sum_split(s: Seq<usize>, k: int)
    requires
        0 <= k <= s.len(),
    ensures
        clue_sum(s.take(k)) + sum_from(s, k) == clue_sum(s),
    decreases s.len() - k,
{
    if k < s.len() {
        lemma_sum_split(s, k + 1);
        assert(s.take(k + 1).drop_last() == s.take(k));
    } else {
        assert(s.take(k) == s);
    }
}

/// The narrowest stretch that can hold the runs from `from` on: the runs and one gap
/// before each; 0 when there are none.
fn minimum_remaining_width(clues: &Vec<usize>, from: usize) -> (w: usize)
    requires
        clues_fit(clues@),
    ensures
        w == if from >= clues.len() {
            0
        } else {
            sum_from(clues@, from as int) + (clues.len() - from)
        },
{
    if from >= clues.len() {
        return 0;
    }
    let mut acc: usize = 0;
    let mut k: usize = clues.len();
    while k > from
        invariant
            clues_fit(clues@),
            from <= k <= clues.len(),
            acc == sum_from(clues@, k as int),
        decreases k,
    {
        k = k - 1;
        proof {
            lemma_sum_split(clues@, k as int);
        }
        acc = acc + clues[k];
    }
    proof {
        lemma_sum_split(clues@, from as int);
    }
    acc + (clues.len() - from)
}

/// No cell in `start..start + length` (within the line) is known to be filled.
pub open spec fn false_span_is_compatible_spec(length: int, start: int, known: Seq<Option<bool>>) -> bool {
    forall|k: int| start <= k < start + length && k < known.len() ==> #[trigger] known[k] != Some(true)
}

/// No cell in `start..start + length` (within the line) is known to be filled.
fn false_span_is_compatible(length: usize, start: usize, known: &Vec<Option<bool>>) -> (b: bool)
    ensures
        b == false_span_is_compatible_spec(length as int, start as int, known@),
{
    let mut k: usize = start;
    while k < known.len() && k - start < length
        invariant
            start <= k,
            forall|j: int| start <= j < k && j < known.len() ==> #[trigger] known@[j] != Some(true),
            k <= known.len() || k == start,
        decreases known.len() - k,
    {
        match known[k] {
            Some(true) => {
                return false;
            },
            _ => {},
        }
        k = k + 1;
    }
    true
}

/// No cell in `start..start + length` (within the line) is known to be empty.
fn true_span_is_compatible(length: usize, start: usize, known: &Vec<Option<bool>>) -> (b: bool)
    ensures
        b == forall|k: int| start <= k < start + length && k < known.len() ==> #[trigger] known@[k] != Some(false),
{
    let mut k: usize = start;
    while k < known.len() && k - start < length
        invariant
            start <= k,
            forall|j: int| start <= j < k && j < known.len() ==> #[trigger] known@[j] != Some(false),
            k <= known.len() || k == start,
        decreases known.len() - k,
    {
        match known[k] {
            Some(false) => {
                return false;
            },
            _ => {},
        }
        k = k + 1;
    }
    true
}

/// The line agrees with every known cell.
fn line_is_compatible(line: &Vec<bool>, known: &Vec<Option<bool>>) -> (b: bool)
    ensures
        b == forall|k: int|
            0 <= k < line.len() && k < known.len() ==> #[trigger] known@[k] is None || known@[k] == Some(line@[k]),
{
    let mut k: usize = 0;
    while k < line.len() && k < known.len()
        invariant
            k <= line.len(),
            forall|j: int|
                0 <= j < k && j < known.len() ==> #[trigger] known@[j] is None || known@[j] == Some(line@[j]),
        decreases line.len() - k,
    {
        match known[k] {
            Some(v) => {
                if v != line[k] {
                    return false;
                }
            },
            None => {},
        }
        k = k + 1;
    }
    true
}

/// A line of `length` empty cells.
pub open spec fn empty_line(length: nat) -> Seq<bool> {
    Seq::new(length, |k: int| false)
}

/// `line` with a run of `run` filled cells from `start`.
pub open spec fn paint_run(line: Seq<bool>, start: int, run: int) -> Seq<bool> {
    Seq::new(line.len(), |k: int| if start <= k < start + run { true } else { line[k] })
}

/// `line` with runs `from..` of `clues` laid at `starts`.
pub open spec fn lay_runs(line: Seq<bool>, clues: Seq<usize>, starts: Seq<int>, from: int) -> Seq<bool>
    decreases clues.len() - from,
{
    if from < 0 || from >= clues.len() {
        line
    } else {
        lay_runs(paint_run(line, starts[from], clues[from] as int), clues, starts, from + 1)
    }
}

/// Starts for runs `from..` of `clues` on a line of `length` cells: the first at
/// `min_start` or later, each later one at least one cell past the end of the one before,
/// and every run inside the line.
pub open spec fn starts_fit(length: int, clues: Seq<usize>, starts: Seq<int>, from: int, min_start: int) -> bool {
    &&& starts.len() == clues.len()
    &&& forall|i: int| from <= i < clues.len() ==> #[trigger] starts[i] + clues[i] <= length
    &&& 0 <= from < clues.len() ==> starts[from] >= min_start
    &&& forall|i: int| from < i < clues.len() ==> #[trigger] starts[i] >= starts[i - 1] + clues[i - 1] + 1
}

/// The line agrees with every known cell.
pub open spec fn agrees(line: Seq<bool>, known: Seq<Option<bool>>) -> bool {
    forall|k: int| 0 <= k < line.len() && k < known.len() ==> #[trigger] known[k] is None || known[k] == Some(line[k])
}

/// The ways to finish `line` by laying runs `from..` of `clues` from `min_start` on, with
/// the first of them before `bound`, that agree with `known`.
pub open spec fn completions_below(
    length: int,
    clues: Seq<usize>,
    known: Seq<Option<bool>>,
    from: int,
    min_start: int,
    line: Seq<bool>,
    bound: int,
) -> Set<Seq<bool>> {
    Set::new(
        |x: Seq<bool>|
            exists|starts: Seq<int>|
                #[trigger] starts_fit(length, clues, starts, from, min_start) && (from < clues.len() ==> starts[from]
                    < bound) && x == lay_runs(line, clues, starts, from) && agrees(x, known),
    )
}

/// The ways to finish `line` by laying runs `from..` of `clues` from `min_start` on that
/// agree with `known`.
pub open spec fn completions(
    length: int,
    clues: Seq<usize>,
    known: Seq<Option<bool>>,
    from: int,
    min_start: int,
    line: Seq<bool>,
) -> Set<Seq<bool>> {
    Set::new(
        |x: Seq<bool>|
            exists|starts: Seq<int>|
                #[trigger] starts_fit(length, clues, starts, from, min_start) && x == lay_runs(line, clues, starts, from)
                    && agrees(x, known),
    )
}

/// Every layout of the runs `clues` on a line of `length` cells that agrees with `known`.
pub open spec fn layouts(length: nat, clues: Seq<usize>, known: Seq<Option<bool>>) -> Set<Seq<bool>> {
    completions(length as int, clues, known, 0, 0, empty_line(length))
}

/// The lines of a list, as sequences.
pub open spec fn line_views(lines: Seq<Vec<bool>>) -> Seq<Seq<bool>> {
    Seq::new(lines.len(), |k: int| lines[k]@)
}

/// Runs laid from `from` on fit in the line: the first start, the runs and one gap between
/// each two of them.
proof fn lemma_room_for_runs(length: int, clues: Seq<usize>, starts: Seq<int>, from: int, min_start: int)
    requires
        0 <= from < clues.len(),
        starts_fit(length, clues, starts, from, min_start),
    ensures
        starts[from] + sum_from(clues, from) + (clues.len() - from - 1) <= length,
    decreases clues.len() - from,
{
    if from + 1 < clues.len() {
        assert(starts[from + 1] + clues[from + 1] <= length);
        assert(starts[from + 1] >= starts[from + 1 - 1] + clues[from + 1 - 1] + 1);
        assert(starts_fit(length, clues, starts, from + 1, starts[from] + clues[from] + 1)) by {
            assert forall|i: int| from + 1 < i < clues.len() implies #[trigger] starts[i] >= starts[i - 1] + clues[i - 1]
                + 1 by {
                assert(from < i);
            }
        }
        lemma_room_for_runs(length, clues, starts, from + 1, starts[from] + clues[from] + 1);
        assert(sum_from(clues, from) == clues[from] + sum_from(clues, from + 1));
    } else {
        assert(starts[from] + clues[from] <= length);
        assert(sum_from(clues, from + 1) == 0);
        assert(sum_from(clues, from) == clues[from] + sum_from(clues, from + 1));
    }
}

/// Laying runs keeps the line's length, fills the cells of the runs, never empties a cell,
/// and leaves the cells before `min_start` alone.
proof fn lemma_lay_runs(line: Seq<bool>, length: int, clues: Seq<usize>, starts: Seq<int>, from: int, min_start: int)
    requires
        0 <= from,
        starts_fit(length, clues, starts, from, min_start),
    ensures
        lay_runs(line, clues, starts, from).len() == line.len(),
        forall|k: int| 0 <= k < line.len() && line[k] ==> #[trigger] lay_runs(line, clues, starts, from)[k],
        forall|k: int| 0 <= k < line.len() && k < min_start ==> #[trigger] lay_runs(line, clues, starts, from)[k] == line[k],
    decreases clues.len() - from,
{
    if from < clues.len() {
        let next = paint_run(line, starts[from], clues[from] as int);
        let m2 = starts[from] + clues[from] + 1;
        assert(starts_fit(length, clues, starts, from + 1, m2)) by {
            if from + 1 < clues.len() {
                assert(starts[from + 1] >= starts[from + 1 - 1] + clues[from + 1 - 1] + 1);
            }
            assert forall|i: int| from + 1 < i < clues.len() implies #[trigger] starts[i] >= starts[i - 1] + clues[i - 1]
                + 1 by {
                assert(from < i);
            }
        }
        lemma_lay_runs(next, length, clues, starts, from + 1, m2);
        assert forall|k: int| 0 <= k < line.len() && line[k] implies #[trigger] lay_runs(line, clues, starts, from)[k] by {
            assert(next[k]);
        }
        assert forall|k: int| 0 <= k < line.len() && k < min_start implies #[trigger] lay_runs(line, clues, starts, from)[k]
            == line[k] by {
            assert(next[k] == line[k]);
        }
    }
}

/// Laying runs from `from` on reads only the starts from `from` on, and so does their fit.
proof fn lemma_lay_runs_reads_tail(line: Seq<bool>, clues: Seq<usize>, starts: Seq<int>, other: Seq<int>, from: int)
    requires
        0 <= from,
        starts.len() == other.len(),
        starts.len() == clues.len(),
        forall|i: int| from <= i < starts.len() ==> starts[i] == other[i],
    ensures
        lay_runs(line, clues, starts, from) == lay_runs(line, clues, other, from),
        forall|length: int, m: int|
            #[trigger] starts_fit(length, clues, starts, from, m) == #[trigger] starts_fit(length, clues, other, from, m),
    decreases clues.len() - from,
{
    if from < clues.len() {
        assert(starts[from] == other[from]);
        lemma_lay_runs_reads_tail(paint_run(line, starts[from], clues[from] as int), clues, starts, other, from + 1);
    }
    assert forall|length: int, m: int|
        #[trigger] starts_fit(length, clues, starts, from, m) == #[trigger] starts_fit(length, clues, other, from, m) by {
        if starts_fit(length, clues, starts, from, m) {
            assert forall|i: int| from < i < clues.len() implies #[trigger] other[i] >= other[i - 1] + clues[i - 1] + 1 by {
                assert(starts[i] >= starts[i - 1] + clues[i - 1] + 1);
            }
            assert forall|i: int| from <= i < clues.len() implies #[trigger] other[i] + clues[i] <= length by {
                assert(starts[i] + clues[i] <= length);
            }
        }
        if starts_fit(length, clues, other, from, m) {
            assert forall|i: int| from < i < clues.len() implies #[trigger] starts[i] >= starts[i - 1] + clues[i - 1] + 1 by {
                assert(other[i] >= other[i - 1] + clues[i - 1] + 1);
            }
            assert forall|i: int| from <= i < clues.len() implies #[trigger] starts[i] + clues[i] <= length by {
                assert(other[i] + clues[i] <= length);
            }
        }
    }
}

/// Every listed line has `length` cells.
pub open spec fn lines_of_length(lines: Seq<Vec<bool>>, length: nat) -> bool {
    forall|k: int| 0 <= k < lines.len() ==> (#[trigger] lines[k]).len() == length
}

/// `after` lists what `before` listed and the members of `added`.
pub open spec fn lists_with(before: Seq<Seq<bool>>, after: Seq<Seq<bool>>, added: Set<Seq<bool>>) -> bool {
    forall|x: Seq<bool>| after.contains(x) <==> (before.contains(x) || added.contains(x))
}

/// The ways to finish `line` whose run `from` starts exactly at `start`.
pub open spec fn completions_at(
    length: int,
    clues: Seq<usize>,
    known: Seq<Option<bool>>,
    from: int,
    min_start: int,
    line: Seq<bool>,
    start: int,
) -> Set<Seq<bool>> {
    Set::new(
        |x: Seq<bool>|
            exists|starts: Seq<int>|
                #[trigger] starts_fit(length, clues, starts, from, min_start) && starts[from] == start && x == lay_runs(
                    line,
                    clues,
                    starts,
                    from,
                ) && agrees(x, known),
    )
}

/// The finishes with a first start before `bound + 1` are those before `bound` and those at
/// `bound`.
proof fn lemma_completions_split(
    length: int,
    clues: Seq<usize>,
    known: Seq<Option<bool>>,
    from: int,
    min_start: int,
    line: Seq<bool>,
    bound: int,
)
    requires
        0 <= from < clues.len(),
    ensures
        forall|x: Seq<bool>|
            completions_below(length, clues, known, from, min_start, line, bound + 1).contains(x) <==> (completions_below(
                length,
                clues,
                known,
                from,
                min_start,
                line,
                bound,
            ).contains(x) || completions_at(length, clues, known, from, min_start, line, bound).contains(x)),
{
    assert forall|x: Seq<bool>|
        completions_below(length, clues, known, from, min_start, line, bound + 1).contains(x) <==> (completions_below(
            length,
            clues,
            known,
            from,
            min_start,
            line,
            bound,
        ).contains(x) || completions_at(length, clues, known, from, min_start, line, bound).contains(x)) by {
        if completions_below(length, clues, known, from, min_start, line, bound + 1).contains(x) {
            let starts = choose|starts: Seq<int>|
                #[trigger] starts_fit(length, clues, starts, from, min_start) && (from < clues.len() ==> starts[from]
                    < bound + 1) && x == lay_runs(line, clues, starts, from) && agrees(x, known);
            if starts[from] < bound {
                assert(completions_below(length, clues, known, from, min_start, line, bound).contains(x));
            } else {
                assert(completions_at(length, clues, known, from, min_start, line, bound).contains(x));
            }
        }
        if completions_below(length, clues, known, from, min_start, line, bound).contains(x) {
            let starts = choose|starts: Seq<int>|
                #[trigger] starts_fit(length, clues, starts, from, min_start) && (from < clues.len() ==> starts[from]
                    < bound) && x == lay_runs(line, clues, starts, from) && agrees(x, known);
            assert(completions_below(length, clues, known, from, min_start, line, bound + 1).contains(x));
        }
        if completions_at(length, clues, known, from, min_start, line, bound).contains(x) {
            let starts = choose|starts: Seq<int>|
                #[trigger] starts_fit(length, clues, starts, from, min_start) && starts[from] == bound && x == lay_runs(
                    line,
                    clues,
                    starts,
                    from,
                ) && agrees(x, known);
            assert(completions_below(length, clues, known, from, min_start, line, bound + 1).contains(x));
        }
    }
}

/// With the last run at `start`, the only finish is the line with that run painted, if it
/// agrees with what is known.
proof fn lemma_completions_at_last(
    length: int,
    clues: Seq<usize>,
    known: Seq<Option<bool>>,
    from: int,
    min_start: int,
    line: Seq<bool>,
    start: int,
)
    requires
        from == clues.len() - 1,
        0 <= from,
        min_start <= start,
        start + clues[from] <= length,
    ensures
        forall|x: Seq<bool>|
            completions_at(length, clues, known, from, min_start, line, start).contains(x) <==> (x == paint_run(
                line,
                start,
                clues[from] as int,
            ) && agrees(x, known)),
{
    let next = paint_run(line, start, clues[from] as int);
    assert forall|x: Seq<bool>|
        completions_at(length, clues, known, from, min_start, line, start).contains(x) <==> (x == next && agrees(
            x,
            known,
        )) by {
        if x == next && agrees(x, known) {
            let starts = Seq::new(clues.len(), |i: int| start);
            assert(starts_fit(length, clues, starts, from, min_start));
            assert(lay_runs(next, clues, starts, from + 1) == next);
            assert(x == lay_runs(line, clues, starts, from));
            assert(completions_at(length, clues, known, from, min_start, line, start).contains(x));
        }
        if completions_at(length, clues, known, from, min_start, line, start).contains(x) {
            let starts = choose|starts: Seq<int>|
                #[trigger] starts_fit(length, clues, starts, from, min_start) && starts[from] == start && x == lay_runs(
                    line,
                    clues,
                    starts,
                    from,
                ) && agrees(x, known);
            assert(lay_runs(next, clues, starts, from + 1) == next);
        }
    }
}

/// With a run that is not the last at `start`, the finishes are those of the line with
/// that run painted, laying the later runs from one cell past its end.
#[verifier::rlimit(50)]
#[verifier::spinoff_prover]
proof fn lemma_completions_at_more(
    length: int,
    clues: Seq<usize>,
    known: Seq<Option<bool>>,
    from: int,
    min_start: int,
    line: Seq<bool>,
    start: int,
)
    requires
        0 <= from,
        from + 1 < clues.len(),
        min_start <= start,
        start + clues[from] <= length,
    ensures
        forall|x: Seq<bool>|
            completions_at(length, clues, known, from, min_start, line, start).contains(x) <==> completions(
                length,
                clues,
                known,
                from + 1,
                start + clues[from] + 1,
                paint_run(line, start, clues[from] as int),
            ).contains(x),
{
    let next = paint_run(line, start, clues[from] as int);
    let m2 = start + clues[from] + 1;
    assert forall|x: Seq<bool>|
        completions_at(length, clues, known, from, min_start, line, start).contains(x) <==> completions(
            length,
            clues,
            known,
            from + 1,
            m2,
            next,
        ).contains(x) by {
        if completions_at(length, clues, known, from, min_start, line, start).contains(x) {
            let starts = choose|starts: Seq<int>|
                #[trigger] starts_fit(length, clues, starts, from, min_start) && starts[from] == start && x == lay_runs(
                    line,
                    clues,
                    starts,
                    from,
                ) && agrees(x, known);
            assert(starts[from + 1] >= starts[from + 1 - 1] + clues[from + 1 - 1] + 1);
            assert(starts_fit(length, clues, starts, from + 1, m2)) by {
                assert forall|i: int| from + 1 < i < clues.len() implies #[trigger] starts[i] >= starts[i - 1] + clues[i
                    - 1] + 1 by {
                    assert(from < i);
                }
            }
            assert(completions(length, clues, known, from + 1, m2, next).contains(x));
        }
        if completions(length, clues, known, from + 1, m2, next).contains(x) {
            let tail = choose|starts: Seq<int>|
                #[trigger] starts_fit(length, clues, starts, from + 1, m2) && x == lay_runs(next, clues, starts, from + 1)
                    && agrees(x, known);
            let starts = tail.update(from, start);
            lemma_lay_runs_reads_tail(next, clues, starts, tail, from + 1);
            assert(starts_fit(length, clues, starts, from + 1, m2));
            assert(starts_fit(length, clues, starts, from, min_start)) by {
                assert forall|i: int| from < i < clues.len() implies #[trigger] starts[i] >= starts[i - 1] + clues[i - 1]
                    + 1 by {
                    if i == from + 1 {
                        assert(starts[i] >= m2);
                    } else {
                        assert(from + 1 < i);
                    }
                }
                assert forall|i: int| from <= i < clues.len() implies #[trigger] starts[i] + clues[i] <= length by {
                    if i > from {
                        assert(from + 1 <= i);
                    }
                }
            }
            assert(x == lay_runs(line, clues, starts, from));
            assert(completions_at(length, clues, known, from, min_start, line, start).contains(x));
        }
    }
}

/// A known cell that every finish contradicts leaves no finish: one before `min_start`
/// known to differ from `line`, or one filled in `line` known to be empty.
proof fn lemma_no_completions(
    length: int,
    clues: Seq<usize>,
    known: Seq<Option<bool>>,
    from: int,
    min_start: int,
    line: Seq<bool>,
    k: int,
)
    requires
        0 <= from,
        0 <= k < line.len(),
        k < known.len(),
        (k < min_start && known[k] == Some(!line[k])) || (line[k] && known[k] == Some(false)),
    ensures
        forall|x: Seq<bool>| !completions(length, clues, known, from, min_start, line).contains(x),
{
    assert forall|x: Seq<bool>| !completions(length, clues, known, from, min_start, line).contains(x) by {
        if completions(length, clues, known, from, min_start, line).contains(x) {
            let starts = choose|starts: Seq<int>|
                #[trigger] starts_fit(length, clues, starts, from, min_start) && x == lay_runs(line, clues, starts, from)
                    && agrees(x, known);
            lemma_lay_runs(line, length, clues, starts, from, min_start);
            assert(x[k] == line[k] || (line[k] && x[k]));
        }
    }
}

/// Places run `clue_index` at every start from `min_start` on that fits the known cells,
/// and the later runs after it, adding each complete line that agrees with what is known:
/// exactly the ways to finish `line` with those runs.
fn place_line_run(
    length: usize,
    clues: &Vec<usize>,
    known: &Vec<Option<bool>>,
    clue_index: usize,
    min_start: usize,
    line: &Vec<bool>,
    possibilities: &mut Vec<Vec<bool>>,
)
    requires
        clue_index < clues.len(),
        clues_fit(clues@),
        known.len() == length,
        length < usize::MAX,
        line.len() == length,
        forall|k: int| min_start <= k < length ==> !line@[k],
        lines_of_length(old(possibilities)@, length as nat),
    ensures
        lines_of_length(final(possibilities)@, length as nat),
        forall|x: Seq<bool>|
            line_views(final(possibilities)@).contains(x) <==> (line_views(old(possibilities)@).contains(x) || completions(
                length as int,
                clues@,
                known@,
                clue_index as int,
                min_start as int,
                line@,
            ).contains(x)),
    decreases clues.len() - clue_index,
{
    let ghost l = length as int;
    let ghost ci = clue_index as int;
    let ghost m = min_start as int;
    let run = clues[clue_index];
    let remaining = minimum_remaining_width(clues, clue_index + 1);
    proof {
        lemma_sum_split(clues@, clue_index as int);
        lemma_sum_split(clues@, clue_index + 1);
        assert(sum_from(clues@, ci) == clues@[ci] + sum_from(clues@, ci + 1));
        if clue_index + 1 >= clues.len() {
            assert(sum_from(clues@, ci + 1) == 0);
        }
        assert(run + remaining == sum_from(clues@, ci) + (clues.len() - ci - 1));
    }
    if run + remaining > length {
        proof {
            assert forall|x: Seq<bool>| !completions(l, clues@, known@, ci, m, line@).contains(x) by {
                if completions(l, clues@, known@, ci, m, line@).contains(x) {
                    let starts = choose|starts: Seq<int>|
                        #[trigger] starts_fit(l, clues@, starts, ci, m) && x == lay_runs(line@, clues@, starts, ci)
                            && agrees(x, known@);
                    lemma_room_for_runs(l, clues@, starts, ci, m);
                }
            }
        }
        return;
    }
    let max_start = length - run - remaining;
    let mut start: usize = min_start;
    while start <= max_start
        invariant
            clue_index < clues.len(),
            clues_fit(clues@),
            known.len() == length,
            length < usize::MAX,
            line.len() == length,
            forall|k: int| min_start <= k < length ==> !line@[k],
            run + remaining <= length,
            max_start == length - run - remaining,
            run + remaining == sum_from(clues@, ci) + (clues.len() - ci - 1),
            min_start <= start,
            run == clues@[clue_index as int],
            lines_of_length(possibilities@, length as nat),
            l == length,
            ci == clue_index,
            m == min_start,
            forall|x: Seq<bool>|
                line_views(possibilities@).contains(x) <==> (line_views(old(possibilities)@).contains(x)
                    || completions_below(l, clues@, known@, ci, m, line@, start as int).contains(x)),
        decreases max_start + 1 - start,
    {
        let end = start + run;
        let ghost before = line_views(possibilities@);
        let ghost next = paint_run(line@, start as int, run as int);
        let ghost at = completions_at(l, clues@, known@, ci, m, line@, start as int);
        proof {
            lemma_completions_split(l, clues@, known@, ci, m, line@, start as int);
        }
        if false_span_is_compatible(start - min_start, min_start, known) && true_span_is_compatible(run, start, known) {
            let mut next_line: Vec<bool> = Vec::new();
            let mut k: usize = 0;
            while k < length
                invariant
                    k <= length,
                    line.len() == length,
                    end == start + run,
                    next_line.len() == k,
                    next.len() == length,
                    next == paint_run(line@, start as int, run as int),
                    forall|j: int| 0 <= j < k ==> next_line@[j] == next[j],
                decreases length - k,
            {
                if start <= k && k < end {
                    next_line.push(true);
                } else {
                    next_line.push(line[k]);
                }
                k = k + 1;
            }
            proof {
                assert(next_line@ == next);
            }
            if clue_index + 1 == clues.len() {
                proof {
                    lemma_completions_at_last(l, clues@, known@, ci, m, line@, start as int);
                }
                if false_span_is_compatible(length - end, end, known) && line_is_compatible(&next_line, known) {
                    possibilities.push(next_line);
                    proof {
                        assert(line_views(possibilities@) =~= before.push(next));
                        assert(agrees(next, known@));
                        assert forall|x: Seq<bool>| line_views(possibilities@).contains(x) <==> (before.contains(x)
                            || at.contains(x)) by {
                            if line_views(possibilities@).contains(x) && x != next {
                                let j = choose|j: int| 0 <= j < line_views(possibilities@).len() && line_views(possibilities@)[j] == x;
                                assert(before[j] == x);
                            }
                            if before.contains(x) {
                                let j = choose|j: int| 0 <= j < before.len() && before[j] == x;
                                assert(line_views(possibilities@)[j] == x);
                            }
                            if x == next {
                                assert(line_views(possibilities@)[before.len() as int] == x);
                            }
                        }
                        assert(lists_with(before, line_views(possibilities@), at));
                    }
                } else {
                    proof {
                        if agrees(next, known@) {
                            assert forall|j: int| end <= j < end + (length - end) && j < known.len() implies #[trigger] known@[j]
                                != Some(true) by {
                                assert(next[j] == line@[j]);
                            }
                        }
                        assert(!agrees(next, known@));
                        assert(lists_with(before, line_views(possibilities@), at));
                    }
                }
            } else {
                proof {
                    lemma_completions_at_more(l, clues@, known@, ci, m, line@, start as int);
                    assert(end < length);
                }
                let blocked = match known[end] {
                    Some(true) => true,
                    _ => false,
                };
                if !blocked && false_span_is_compatible(start - min_start, min_start, known) {
                    proof {
                        assert forall|j: int| end + 1 <= j < length implies !next_line@[j] by {
                            assert(next[j] == line@[j]);
                        }
                    }
                    place_line_run(length, clues, known, clue_index + 1, end + 1, &next_line, possibilities);
                    proof {
                        assert(lists_with(before, line_views(possibilities@), at));
                    }
                } else {
                    proof {
                        assert(next[end as int] == line@[end as int]);
                        assert(known@[end as int] == Some(true));
                        lemma_no_completions(l, clues@, known@, ci + 1, end + 1, next, end as int);
                        assert(lists_with(before, line_views(possibilities@), at));
                    }
                }
            }
        } else {
            proof {
                if !false_span_is_compatible_spec(start - min_start, min_start as int, known@) {
                    let j = choose|j: int|
                        min_start <= j < min_start + (start - min_start) && j < known.len() && #[trigger] known@[j]
                            == Some(true);
                    assert(next[j] == line@[j]);
                    if clue_index + 1 == clues.len() {
                        lemma_completions_at_last(l, clues@, known@, ci, m, line@, start as int);
                        assert(!agrees(next, known@));
                    } else {
                        lemma_completions_at_more(l, clues@, known@, ci, m, line@, start as int);
                        lemma_no_completions(l, clues@, known@, ci + 1, end + 1, next, j);
                    }
                    assert(lists_with(before, line_views(possibilities@), at));
                } else {
                    let j = choose|j: int| start <= j < start + run && j < known.len() && #[trigger] known@[j] == Some(false);
                    assert(next[j]);
                    if clue_index + 1 == clues.len() {
                        lemma_completions_at_last(l, clues@, known@, ci, m, line@, start as int);
                        assert(!agrees(next, known@));
                    } else {
                        lemma_completions_at_more(l, clues@, known@, ci, m, line@, start as int);
                        lemma_no_completions(l, clues@, known@, ci + 1, end + 1, next, j);
                    }
                    assert(lists_with(before, line_views(possibilities@), at));
                }
            }
        }
        proof {
            assert(lists_with(before, line_views(possibilities@), at));
        }
        start = start + 1;
    }
    proof {
        assert forall|x: Seq<bool>|
            completions_below(l, clues@, known@, ci, m, line@, start as int).contains(x) <==> completions(
                l,
                clues@,
                known@,
                ci,
                m,
                line@,
            ).contains(x) by {
            if completions(l, clues@, known@, ci, m, line@).contains(x) {
                let starts = choose|starts: Seq<int>|
                    #[trigger] starts_fit(l, clues@, starts, ci, m) && x == lay_runs(line@, clues@, starts, ci) && agrees(
                        x,
                        known@,
                    );
                lemma_room_for_runs(l, clues@, starts, ci, m);
                assert(completions_below(l, clues@, known@, ci, m, line@, start as int).contains(x));
            }
            if completions_below(l, clues@, known@, ci, m, line@, start as int).contains(x) {
                let starts = choose|starts: Seq<int>|
                    #[trigger] starts_fit(l, clues@, starts, ci, m) && (ci < clues.len() ==> starts[ci] < start) && x
                        == lay_runs(line@, clues@, starts, ci) && agrees(x, known@);
                assert(completions(l, clues@, known@, ci, m, line@).contains(x));
            }
        }
    }
}

/// Every way to lay out the runs of `clues` on a line of `length` cells that agrees with the
/// known cells.
fn line_possibilities(length: usize, clues: &Vec<usize>, known: &Vec<Option<bool>>) -> (p: Vec<Vec<bool>>)
    requires
        clues_fit(clues@),
        known.len() == length,
        length < usize::MAX,
    ensures
        lines_of_length(p@, length as nat),
        forall|x: Seq<bool>| line_views(p@).contains(x) <==> layouts(length as nat, clues@, known@).contains(x),
{
    let mut empty: Vec<bool> = Vec::new();
    let mut k: usize = 0;
    while k < length
        invariant
            k <= length,
            empty@ == Seq::new(k as nat, |j: int| false),
        decreases length - k,
    {
        empty.push(false);
        proof {
            assert(empty@ =~= Seq::new((k + 1) as nat, |j: int| false));
        }
        k = k + 1;
    }
    proof {
        assert(empty@ == empty_line(length as nat));
    }
    let mut possibilities: Vec<Vec<bool>> = Vec::new();
    if clues.len() == 0 {
        let ghost e = empty@;
        let fits = line_is_compatible(&empty, known);
        if fits {
            possibilities.push(empty);
        }
        proof {
            assert forall|x: Seq<bool>| line_views(possibilities@).contains(x) <==> layouts(
                length as nat,
                clues@,
                known@,
            ).contains(x) by {
                let none: Seq<int> = seq![];
                assert(starts_fit(length as int, clues@, none, 0, 0));
                if layouts(length as nat, clues@, known@).contains(x) {
                    let starts = choose|starts: Seq<int>|
                        #[trigger] starts_fit(length as int, clues@, starts, 0, 0) && x == lay_runs(
                            empty_line(length as nat),
                            clues@,
                            starts,
                            0,
                        ) && agrees(x, known@);
                    assert(x == e);
                    assert(line_views(possibilities@)[0] == x);
                }
                if line_views(possibilities@).contains(x) {
                    assert(x == e);
                    assert(x == lay_runs(empty_line(length as nat), clues@, none, 0));
                }
            }
        }
        return possibilities;
    }
    place_line_run(length, clues, known, 0, 0, &empty, &mut possibilities);
    proof {
        assert(line_views(Seq::<Vec<bool>>::empty()) =~= Seq::<Seq<bool>>::empty());
    }
    possibilities
}

/// Every line of the set has value `b` at cell `i`.
pub open spec fn settled(lines: Set<Seq<bool>>, i: int, b: bool) -> bool {
    forall|x: Seq<bool>| lines.contains(x) ==> x[i] == b
}

/// What the layouts of a line settle: for each cell, the value every layout agrees on, or
/// nothing where they differ.
pub open spec fn deductions_of(lines: Set<Seq<bool>>, v: Seq<Option<bool>>, length: nat) -> bool {
    &&& v.len() == length
    &&& forall|i: int|
        0 <= i < length ==> (#[trigger] v[i] == Some(true) <==> settled(lines, i, true)) && (v[i] == Some(false)
            <==> settled(lines, i, false))
}

/// The cells every possible layout of the line agrees on; fails when no layout fits.
fn line_deductions(length: usize, clues: &Vec<usize>, known: &Vec<Option<bool>>) -> (d: Option<Vec<Option<bool>>>)
    requires
        clues_fit(clues@),
        known.len() == length,
        length < usize::MAX,
    ensures
        d is None <==> forall|x: Seq<bool>| !layouts(length as nat, clues@, known@).contains(x),
        d matches Some(v) ==> deductions_of(layouts(length as nat, clues@, known@), v@, length as nat),
{
    let possibilities = line_possibilities(length, clues, known);
    let ghost lines = layouts(length as nat, clues@, known@);
    let ghost views = line_views(possibilities@);
    proof {
        assert forall|x: Seq<bool>| views.contains(x) <==> lines.contains(x) by {
            assert(line_views(possibilities@).contains(x) <==> layouts(length as nat, clues@, known@).contains(x));
        }
    }
    if possibilities.len() == 0 {
        proof {
            assert forall|x: Seq<bool>| !lines.contains(x) by {
                if lines.contains(x) {
                    assert(views.contains(x));
                    let j = choose|j: int| 0 <= j < views.len() && views[j] == x;
                }
            }
        }
        return None;
    }
    let first = &possibilities[0];
    proof {
        assert(views[0] == first@);
        assert(views.contains(first@));
        assert(lines.contains(first@));
    }
    let mut deductions: Vec<Option<bool>> = Vec::new();
    let mut index: usize = 0;
    while index < length
        invariant
            lines_of_length(possibilities@, length as nat),
            possibilities.len() > 0,
            first == &possibilities@[0],
            index <= length,
            deductions.len() == index,
            views == line_views(possibilities@),
            lines.contains(first@),
            first.len() == length,
            forall|x: Seq<bool>| views.contains(x) <==> lines.contains(x),
            forall|i: int|
                0 <= i < index ==> (#[trigger] deductions@[i] == Some(true) <==> settled(lines, i, true)) && (
                deductions@[i] == Some(false) <==> settled(lines, i, false)),
        decreases length - index,
    {
        let value = first[index];
        let mut all = true;
        let mut p: usize = 1;
        while p < possibilities.len()
            invariant
                lines_of_length(possibilities@, length as nat),
                index < length,
                1 <= p <= possibilities.len(),
                first == &possibilities@[0],
                value == first@[index as int],
                all == forall|q: int| 0 <= q < p ==> (#[trigger] possibilities@[q])@[index as int] == value,
            decreases possibilities.len() - p,
        {
            if possibilities[p][index] != value {
                all = false;
            }
            p = p + 1;
        }
        proof {
            let i = index as int;
            if all {
                assert forall|x: Seq<bool>| lines.contains(x) implies x[i] == value by {
                    assert(views.contains(x));
                    let q = choose|q: int| 0 <= q < views.len() && views[q] == x;
                    assert(possibilities@[q]@[i] == value);
                }
                assert(!settled(lines, i, !value)) by {
                    assert(first@[i] == value);
                }
            } else {
                let q = choose|q: int| 0 <= q < possibilities.len() && (#[trigger] possibilities@[q])@[i] != value;
                assert(views[q] == possibilities@[q]@);
                assert(views.contains(views[q]));
                assert(lines.contains(views[q]));
                assert(!settled(lines, i, value));
                assert(!settled(lines, i, !value)) by {
                    assert(first@[i] == value);
                }
            }
        }
        if all {
            deductions.push(Some(value));
        } else {
            deductions.push(None);
        }
        index = index + 1;
    }
    Some(deductions)
}

/// How many cells are still unknown.
pub open spec fn unknown_cells(known: Seq<Option<bool>>) -> nat {
    count_true(Seq::new(known.len(), |i: int| known[i] is None))
}

/// Only unknown cells change, and they change to known.
pub open spec fn known_grows(before: Seq<Option<bool>>, after: Seq<Option<bool>>) -> bool {
    &&& after.len() == before.len()
    &&& forall|i: int| 0 <= i < before.len() && before[i] is Some ==> #[trigger] after[i] == before[i]
}

proof fn lemma_learn(known: Seq<Option<bool>>, i: int, v: bool)
    requires
        0 <= i < known.len(),
        known[i] is None,
    ensures
        unknown_cells(known.update(i, Some(v))) + 1 == unknown_cells(known),
{
    let u = Seq::new(known.len(), |j: int| known[j] is None);
    lemma_count_true_clear(u, i);
    assert(Seq::new(known.update(i, Some(v)).len(), |j: int| known.update(i, Some(v))[j] is None) == u.update(i, false));
}

/// Every cell known in `known` has the value it has in picture `sol`.
pub open spec fn consistent(known: Seq<Option<bool>>, sol: Seq<bool>) -> bool {
    forall|i: int| 0 <= i < known.len() && known[i] is Some ==> #[trigger] sol[i] == known[i]->0
}

/// The cells of picture `sol` at `indexes`, in order.
pub open spec fn cells_at(sol: Seq<bool>, indexes: Seq<usize>) -> Seq<bool> {
    Seq::new(indexes.len(), |k: int| sol[indexes[k] as int])
}

/// `line` is a layout of the runs `clues`.
pub open spec fn is_layout(line: Seq<bool>, clues: Seq<usize>) -> bool {
    exists|starts: Seq<int>|
        #[trigger] starts_fit(line.len() as int, clues, starts, 0, 0) && line == lay_runs(empty_line(line.len()), clues, starts, 0)
}

/// Picture `sol` agrees with what is known and its cells at `indexes` lay out `clues`.
pub open spec fn line_solution(known: Seq<Option<bool>>, indexes: Seq<usize>, clues: Seq<usize>, sol: Seq<bool>) -> bool {
    &&& sol.len() == known.len()
    &&& consistent(known, sol)
    &&& is_layout(cells_at(sol, indexes), clues)
}

/// Applies the deductions of one line (its cells listed in `indexes`) to the grid of known
/// cells. Returns whether a cell became known, and fails when the line has no layout or
/// contradicts a known cell. A picture that agrees with what was known and lays out the
/// line's clues there still agrees with what is known after, and then nothing fails.
fn apply_line_deductions(indexes: &Vec<usize>, clues: &Vec<usize>, known: &mut Vec<Option<bool>>) -> (r: Option<bool>)
    requires
        clues_fit(clues@),
        indexes.len() < usize::MAX,
        forall|k: int| 0 <= k < indexes.len() ==> (#[trigger] indexes@[k]) < old(known).len(),
    ensures
        known_grows(old(known)@, final(known)@),
        unknown_cells(final(known)@) <= unknown_cells(old(known)@),
        r == Some(true) ==> unknown_cells(final(known)@) < unknown_cells(old(known)@),
        forall|sol: Seq<bool>|
            #[trigger] line_solution(old(known)@, indexes@, clues@, sol) ==> r is Some && consistent(final(known)@, sol),
        r is Some ==> forall|j: int, b: bool|
            0 <= j < indexes.len() && #[trigger] settled(
                layouts(indexes.len() as nat, clues@, line_view(old(known)@, indexes@)),
                j,
                b,
            ) ==> final(known)@[indexes@[j] as int] == Some(b),
        r is Some ==> forall|i: int|
            0 <= i < old(known)@.len() && #[trigger] final(known)@[i] != old(known)@[i] ==> old(known)@[i] is None
                && exists|j: int|
                0 <= j < indexes.len() && indexes@[j] == i && #[trigger] settled(
                    layouts(indexes.len() as nat, clues@, line_view(old(known)@, indexes@)),
                    j,
                    final(known)@[i]->0,
                ),
        r matches Some(p) ==> (p <==> unknown_cells(final(known)@) < unknown_cells(old(known)@)),
        indexes@.no_duplicates() ==> (r is None <==> line_step(old(known)@, indexes@, clues@) is None),
        indexes@.no_duplicates() && r is Some ==> line_step(old(known)@, indexes@, clues@) == Some(final(known)@),
{
    let ghost kb = known@;
    let mut current: Vec<Option<bool>> = Vec::new();
    let mut k: usize = 0;
    while k < indexes.len()
        invariant
            k <= indexes.len(),
            current.len() == k,
            known@ == kb,
            forall|j: int| 0 <= j < indexes.len() ==> (#[trigger] indexes@[j]) < known.len(),
            forall|j: int| 0 <= j < k ==> current@[j] == kb[indexes@[j] as int],
        decreases indexes.len() - k,
    {
        current.push(known[indexes[k]]);
        k = k + 1;
    }
    proof {
        assert(current@ =~= line_view(kb, indexes@));
    }
    let ghost lines = layouts(indexes.len() as nat, clues@, current@);
    proof {
        assert forall|sol: Seq<bool>| #[trigger] line_solution(kb, indexes@, clues@, sol) implies lines.contains(
            cells_at(sol, indexes@),
        ) by {
            let line = cells_at(sol, indexes@);
            let starts = choose|starts: Seq<int>|
                #[trigger] starts_fit(line.len() as int, clues@, starts, 0, 0) && line == lay_runs(
                    empty_line(line.len()),
                    clues@,
                    starts,
                    0,
                );
            assert forall|j: int| 0 <= j < line.len() && j < current@.len() implies #[trigger] current@[j] is None
                || current@[j] == Some(line[j]) by {
                if current@[j] is Some {
                    assert(sol[indexes@[j] as int] == kb[indexes@[j] as int]->0);
                }
            }
            assert(agrees(line, current@));
        }
    }
    let deductions = match line_deductions(indexes.len(), clues, &current) {
        Some(d) => d,
        None => {
            proof {
                assert forall|sol: Seq<bool>| !#[trigger] line_solution(kb, indexes@, clues@, sol) by {
                    if line_solution(kb, indexes@, clues@, sol) {
                        assert(lines.contains(cells_at(sol, indexes@)));
                    }
                }
            }
            return None;
        },
    };
    let mut progress = false;
    let mut line_index: usize = 0;
    while line_index < deductions.len()
        invariant
            deductions.len() == indexes.len(),
            deductions_of(lines, deductions@, indexes.len() as nat),
            line_index <= deductions.len(),
            forall|j: int| 0 <= j < indexes.len() ==> (#[trigger] indexes@[j]) < known.len(),
            known_grows(kb, known@),
            unknown_cells(known@) <= unknown_cells(kb),
            progress ==> unknown_cells(known@) < unknown_cells(kb),
            forall|sol: Seq<bool>| #[trigger] line_solution(kb, indexes@, clues@, sol) ==> lines.contains(
                cells_at(sol, indexes@),
            ),
            forall|sol: Seq<bool>| #[trigger] line_solution(kb, indexes@, clues@, sol) ==> consistent(known@, sol),
            kb == old(known)@,
            lines == layouts(indexes.len() as nat, clues@, line_view(kb, indexes@)),
            exists|x: Seq<bool>| lines.contains(x),
            !progress ==> known@ == kb,
            forall|j: int, b: bool| 0 <= j < line_index && #[trigger] settled(lines, j, b) ==> known@[indexes@[j] as int] == Some(b),
            forall|i: int|
                0 <= i < kb.len() && #[trigger] known@[i] != kb[i] ==> kb[i] is None && exists|j: int|
                    0 <= j < line_index && indexes@[j] == i && #[trigger] settled(lines, j, known@[i]->0),
        decreases deductions.len() - line_index,
    {
        let ghost before = known@;
        match deductions[line_index] {
            Some(value) => {
                let index = indexes[line_index];
                proof {
                    assert(settled(lines, line_index as int, value)) by {
                        if value {
                            assert(deductions@[line_index as int] == Some(true));
                        } else {
                            assert(deductions@[line_index as int] == Some(false));
                        }
                    }
                    assert forall|sol: Seq<bool>| #[trigger] line_solution(kb, indexes@, clues@, sol) implies sol[index as int]
                        == value by {
                        assert(lines.contains(cells_at(sol, indexes@)));
                        assert(cells_at(sol, indexes@)[line_index as int] == sol[index as int]);
                    }
                }
                match known[index] {
                    None => {
                        proof {
                            lemma_learn(known@, index as int, value);
                        }
                        known.set(index, Some(value));
                        progress = true;
                        proof {
                            assert forall|sol: Seq<bool>| #[trigger] line_solution(kb, indexes@, clues@, sol) implies consistent(
                                known@,
                                sol,
                            ) by {
                                assert(consistent(before, sol));
                                assert forall|i: int| 0 <= i < known@.len() && known@[i] is Some implies #[trigger] sol[i]
                                    == known@[i]->0 by {
                                    if i != index {
                                        assert(known@[i] == before[i]);
                                    }
                                }
                            }
                        }
                    },
                    Some(existing) => {
                        if existing != value {
                            proof {
                                if indexes@.no_duplicates() {
                                    assert(known@[index as int] == kb[index as int]) by {
                                        if known@[index as int] != kb[index as int] {
                                            let j = choose|j: int|
                                                0 <= j < line_index && indexes@[j] == index as int && #[trigger] settled(
                                                    lines,
                                                    j,
                                                    known@[index as int]->0,
                                                );
                                            assert(indexes@[j] == indexes@[line_index as int]);
                                        }
                                    }
                                    lemma_settled_agrees(lines, clues@, line_view(kb, indexes@), line_index as int, value);
                                    assert(line_view(kb, indexes@)[line_index as int] == kb[index as int]);
                                }
                                assert forall|sol: Seq<bool>| !#[trigger] line_solution(kb, indexes@, clues@, sol) by {
                                    if line_solution(kb, indexes@, clues@, sol) {
                                        assert(consistent(known@, sol));
                                        assert(sol[index as int] == existing);
                                    }
                                }
                            }
                            return None;
                        }
                    },
                }
            },
            None => {
                proof {
                    assert forall|b: bool| !#[trigger] settled(lines, line_index as int, b) by {
                        if settled(lines, line_index as int, b) {
                            if b {
                                assert(deductions@[line_index as int] == Some(true));
                            } else {
                                assert(deductions@[line_index as int] == Some(false));
                            }
                        }
                    }
                }
            },
        }
        proof {
            assert forall|j: int, b: bool| 0 <= j < line_index + 1 && #[trigger] settled(lines, j, b) implies known@[indexes@[j] as int] == Some(b) by {
                if j < line_index {
                    assert(before[indexes@[j] as int] == Some(b));
                } else {
                    if settled(lines, j, !b) {
                        let x = choose|x: Seq<bool>| lines.contains(x);
                        assert(x[j] == b && x[j] == !b);
                    }
                }
            }
            assert forall|i: int|
                0 <= i < kb.len() && #[trigger] known@[i] != kb[i] implies kb[i] is None && exists|j: int|
                    0 <= j < line_index + 1 && indexes@[j] == i && #[trigger] settled(lines, j, known@[i]->0) by {
                if before[i] != kb[i] {
                    let j = choose|j: int| 0 <= j < line_index && indexes@[j] == i && #[trigger] settled(lines, j, before[i]->0);
                    assert(known@[i] == before[i]);
                } else {
                    assert(settled(lines, line_index as int, known@[i]->0));
                }
            }
        }
        line_index = line_index + 1;
    }
    proof {
        if !progress {
            assert(known@ == kb);
        }
        if indexes@.no_duplicates() {
            let stepped = Seq::new(kb.len(), |i: int| settled_value(lines, indexes@, i, kb[i]));
            assert forall|i: int| 0 <= i < kb.len() implies known@[i] == stepped[i] by {
                if exists|j: int| 0 <= j < indexes.len() && indexes@[j] == i && #[trigger] settled(lines, j, true) {
                    let j = choose|j: int| 0 <= j < indexes.len() && indexes@[j] == i && #[trigger] settled(lines, j, true);
                    assert(known@[indexes@[j] as int] == Some(true));
                } else if exists|j: int| 0 <= j < indexes.len() && indexes@[j] == i && #[trigger] settled(lines, j, false) {
                    let j = choose|j: int| 0 <= j < indexes.len() && indexes@[j] == i && #[trigger] settled(lines, j, false);
                    assert(known@[indexes@[j] as int] == Some(false));
                } else {
                    if known@[i] != kb[i] {
                        let j = choose|j: int| 0 <= j < line_index && indexes@[j] == i && #[trigger] settled(lines, j, known@[i]->0);
                        if known@[i]->0 {
                        } else {
                        }
                    }
                }
            }
            assert(known@ =~= stepped);
        }
    }
    Some(progress)
}

/// Every clue list of the puzzle is small enough to work with.
pub open spec fn puzzle_clues_fit(puzzle: &NonogramPuzzle) -> bool {
    &&& forall|r: int| 0 <= r < puzzle.row_clues.len() ==> clues_fit((#[trigger] puzzle.row_clues@[r])@)
    &&& forall|c: int| 0 <= c < puzzle.col_clues.len() ==> clues_fit((#[trigger] puzzle.col_clues@[c])@)
}

/// Every row and every column of picture `sol` is a layout of its clues.
pub open spec fn fits_clues(puzzle: &NonogramPuzzle, sol: Seq<bool>) -> bool {
    &&& sol.len() == puzzle.width * puzzle.height
    &&& forall|r: int|
        0 <= r < puzzle.height ==> is_layout(#[trigger] row_line(sol, puzzle.width as int, r), puzzle.row_clues@[r]@)
    &&& forall|c: int|
        0 <= c < puzzle.width ==> is_layout(
            #[trigger] col_line(sol, puzzle.width as int, puzzle.height as int, c),
            puzzle.col_clues@[c]@,
        )
}

/// A value every layout of a line gives position `j` is the value known there, if any.
proof fn lemma_settled_agrees(lines: Set<Seq<bool>>, clues: Seq<usize>, view: Seq<Option<bool>>, j: int, value: bool)
    requires
        lines == layouts(view.len(), clues, view),
        exists|x: Seq<bool>| lines.contains(x),
        settled(lines, j, value),
        0 <= j < view.len(),
        view[j] is Some,
    ensures
        view[j] == Some(value),
{
    let x = choose|x: Seq<bool>| lines.contains(x);
    let starts = choose|starts: Seq<int>|
        #[trigger] starts_fit(view.len() as int, clues, starts, 0, 0) && x == lay_runs(empty_line(view.len()), clues, starts, 0)
            && agrees(x, view);
    lemma_lay_runs(empty_line(view.len()), view.len() as int, clues, starts, 0, 0);
    assert(x[j] == value);
}

/// The value cell `i` has after a line's deductions: the value every layout gives it at a
/// position of the line, or what was known before.
pub open spec fn settled_value(lines: Set<Seq<bool>>, indexes: Seq<usize>, i: int, before: Option<bool>) -> Option<bool> {
    if exists|j: int| 0 <= j < indexes.len() && indexes[j] == i && #[trigger] settled(lines, j, true) {
        Some(true)
    } else if exists|j: int| 0 <= j < indexes.len() && indexes[j] == i && #[trigger] settled(lines, j, false) {
        Some(false)
    } else {
        before
    }
}

/// What one line's deductions make of the known cells: nothing when the line has no layout
/// that agrees with them; otherwise every cell that all such layouts settle becomes known.
pub open spec fn line_step(known: Seq<Option<bool>>, indexes: Seq<usize>, clues: Seq<usize>) -> Option<Seq<Option<bool>>> {
    let lines = layouts(indexes.len() as nat, clues, line_view(known, indexes));
    if forall|x: Seq<bool>| !lines.contains(x) {
        None
    } else {
        Some(Seq::new(known.len(), |i: int| settled_value(lines, indexes, i, known[i])))
    }
}

/// The known values of a line's cells, in the line's order.
pub open spec fn line_view(known: Seq<Option<bool>>, indexes: Seq<usize>) -> Seq<Option<bool>> {
    Seq::new(indexes.len(), |j: int| known[indexes[j] as int])
}

/// The cells of row `row`, left to right.
pub open spec fn row_indexes(width: int, row: int) -> Seq<usize> {
    Seq::new(width as nat, |k: int| (row * width + k) as usize)
}

/// The cells of column `col`, top to bottom.
pub open spec fn col_indexes(width: int, height: int, col: int) -> Seq<usize> {
    Seq::new(height as nat, |k: int| (k * width + col) as usize)
}

/// The clue lists of a puzzle, as sequences.
pub open spec fn clue_views(lists: Seq<Vec<usize>>) -> Seq<Seq<usize>> {
    Seq::new(lists.len(), |i: int| lists[i]@)
}

/// The deductions of the rows from `row` on, one after another; nothing once a row has no
/// layout.
pub open spec fn rows_pass(
    w: int,
    h: int,
    rc: Seq<Seq<usize>>,
    cc: Seq<Seq<usize>>,
    known: Seq<Option<bool>>,
    row: int,
) -> Option<Seq<Option<bool>>>
    decreases h - row,
{
    if row < 0 || row >= h {
        Some(known)
    } else {
        match line_step(known, row_indexes(w, row), rc[row]) {
            Some(next) => rows_pass(w, h, rc, cc, next, row + 1),
            None => None,
        }
    }
}

/// The deductions of the columns from `col` on, one after another; nothing once a column
/// has no layout.
pub open spec fn cols_pass(
    w: int,
    h: int,
    rc: Seq<Seq<usize>>,
    cc: Seq<Seq<usize>>,
    known: Seq<Option<bool>>,
    col: int,
) -> Option<Seq<Option<bool>>>
    decreases w - col,
{
    if col < 0 || col >= w {
        Some(known)
    } else {
        match line_step(known, col_indexes(w, h, col), cc[col]) {
            Some(next) => cols_pass(w, h, rc, cc, next, col + 1),
            None => None,
        }
    }
}

/// One pass: every row, then every column.
pub open spec fn line_pass(w: int, h: int, rc: Seq<Seq<usize>>, cc: Seq<Seq<usize>>, known: Seq<Option<bool>>) -> Option<
    Seq<Option<bool>>,
> {
    match rows_pass(w, h, rc, cc, known, 0) {
        Some(next) => cols_pass(w, h, rc, cc, next, 0),
        None => None,
    }
}

/// Every cell is known.
pub open spec fn all_known_cells(known: Seq<Option<bool>>) -> bool {
    forall|i: int| 0 <= i < known.len() ==> (#[trigger] known[i]) is Some
}

/// The known values, with `false` where nothing is known.
pub open spec fn known_values(known: Seq<Option<bool>>) -> Seq<bool> {
    Seq::new(
        known.len(),
        |i: int|
            match known[i] {
                Some(v) => v,
                None => false,
            },
    )
}

/// Passes repeated from `known`, at most `fuel` more times after the first: the picture once
/// every cell is known; nothing when a line has no layout or a pass settles nothing new.
pub open spec fn line_fix(
    w: int,
    h: int,
    rc: Seq<Seq<usize>>,
    cc: Seq<Seq<usize>>,
    known: Seq<Option<bool>>,
    fuel: nat,
) -> Option<Seq<bool>>
    decreases fuel,
{
    match line_pass(w, h, rc, cc, known) {
        None => None,
        Some(next) => if all_known_cells(next) {
            Some(known_values(next))
        } else if unknown_cells(next) >= unknown_cells(known) || fuel == 0 {
            None
        } else {
            line_fix(w, h, rc, cc, next, (fuel - 1) as nat)
        },
    }
}

/// The picture line-by-line reasoning reaches from an empty grid of `w` by `h` cells with
/// row clues `rc` and column clues `cc`, if it reaches one.
pub open spec fn line_solve_clues(w: int, h: int, rc: Seq<Seq<usize>>, cc: Seq<Seq<usize>>) -> Option<Seq<bool>> {
    let start = Seq::new((w * h) as nat, |i: int| None::<bool>);
    line_fix(w, h, rc, cc, start, unknown_cells(start))
}

/// The picture line-by-line reasoning reaches on the puzzle's clues, if it reaches one.
pub open spec fn line_solve(puzzle: &NonogramPuzzle) -> Option<Seq<bool>> {
    line_solve_clues(
        puzzle.width as int,
        puzzle.height as int,
        clue_views(puzzle.row_clues@),
        clue_views(puzzle.col_clues@),
    )
}

/// A pass only ever learns cells, so more fuel than unknown cells changes nothing.
pub proof fn lemma_fix_fuel(
    w: int,
    h: int,
    rc: Seq<Seq<usize>>,
    cc: Seq<Seq<usize>>,
    known: Seq<Option<bool>>,
    fuel: nat,
)
    requires
        fuel >= unknown_cells(known),
    ensures
        line_fix(w, h, rc, cc, known, fuel) == line_fix(w, h, rc, cc, known, unknown_cells(known)),
    decreases fuel,
{
    match line_pass(w, h, rc, cc, known) {
        None => {},
        Some(next) => {
            if !all_known_cells(next) && unknown_cells(next) < unknown_cells(known) {
                lemma_fix_fuel(w, h, rc, cc, next, (fuel - 1) as nat);
                lemma_fix_fuel(w, h, rc, cc, next, (unknown_cells(known) - 1) as nat);
            }
        },
    }
}

/// Unknown cells are counted among all cells.
proof fn lemma_unknown_bound(known: Seq<Option<bool>>)
    ensures
        unknown_cells(known) <= known.len(),
{
    lemma_count_true_bound(Seq::new(known.len(), |i: int| known[i] is None));
}

/// Solves the puzzle from its clues alone, line by line, the way a person would: each pass
/// settles the cells on which every layout of a row or column agrees. Gives the picture if
/// every cell gets settled, and nothing if the passes stall or meet a contradiction. A
/// picture it gives is the only one whose rows and columns all fit their clues.
pub fn human_solve_nonogram(puzzle: &NonogramPuzzle) -> (r: Option<Vec<bool>>)
    requires
        puzzle.width * puzzle.height <= usize::MAX,
        puzzle.width < usize::MAX,
        puzzle.height < usize::MAX,
        puzzle.row_clues.len() >= puzzle.height,
        puzzle.col_clues.len() >= puzzle.width,
        puzzle_clues_fit(puzzle),
    ensures
        r matches Some(v) ==> v.len() == puzzle.width * puzzle.height,
        r matches Some(v) ==> forall|sol: Seq<bool>| #[trigger] fits_clues(puzzle, sol) ==> sol == v@,
        r matches Some(v) ==> line_solve(puzzle) == Some(v@),
        r is None <==> line_solve(puzzle) is None,
{
    let width = puzzle.width;
    let height = puzzle.height;
    let n = puzzle.cell_count();
    let mut known: Vec<Option<bool>> = Vec::new();
    let mut i: usize = 0;
    while i < n
        invariant
            i <= n,
            known.len() == i,
            forall|j: int| 0 <= j < i ==> known@[j] is None,
        decreases n - i,
    {
        known.push(None);
        i = i + 1;
    }
    proof {
        assert(known@ =~= Seq::new((puzzle.width * puzzle.height) as nat, |i: int| None::<bool>));
    }
    loop
        invariant
            line_solve(puzzle) == line_fix(puzzle.width as int, puzzle.height as int, clue_views(puzzle.row_clues@), clue_views(puzzle.col_clues@), known@, unknown_cells(known@)),
            forall|sol: Seq<bool>| #[trigger] fits_clues(puzzle, sol) ==> consistent(known@, sol),
            n == width * height,
            width == puzzle.width,
            height == puzzle.height,
            width < usize::MAX,
            height < usize::MAX,
            known.len() == n,
            puzzle.row_clues.len() >= height,
            puzzle.col_clues.len() >= width,
            puzzle_clues_fit(puzzle),
        decreases unknown_cells(known@),
    {
        let ghost start = known@;
        proof {
            lemma_unknown_bound(start);
        }
        let mut progress = false;
        let mut row: usize = 0;
        while row < height
            invariant
                forall|sol: Seq<bool>| #[trigger] fits_clues(puzzle, sol) ==> consistent(known@, sol),
                n == width * height,
                width == puzzle.width,
                height == puzzle.height,
                width < usize::MAX,
                known.len() == n,
                row <= height,
                puzzle.row_clues.len() >= height,
                puzzle_clues_fit(puzzle),
                known_grows(start, known@),
                unknown_cells(known@) <= unknown_cells(start),
                progress ==> unknown_cells(known@) < unknown_cells(start),
                !progress ==> unknown_cells(known@) == unknown_cells(start),
                rows_pass(puzzle.width as int, puzzle.height as int, clue_views(puzzle.row_clues@), clue_views(puzzle.col_clues@), start, 0) == rows_pass(puzzle.width as int, puzzle.height as int, clue_views(puzzle.row_clues@), clue_views(puzzle.col_clues@), known@, row as int),
                line_solve(puzzle) == line_fix(puzzle.width as int, puzzle.height as int, clue_views(puzzle.row_clues@), clue_views(puzzle.col_clues@), start, unknown_cells(start)),
            decreases height - row,
        {
            let mut indexes: Vec<usize> = Vec::new();
            let mut col: usize = 0;
            while col < width
                invariant
                    n == width * height,
                    row < height,
                    col <= width,
                    indexes.len() == col,
                    forall|k: int| 0 <= k < indexes.len() ==> (#[trigger] indexes@[k]) < n,
                    forall|k: int| 0 <= k < indexes.len() ==> (#[trigger] indexes@[k]) == row * width + k,
                decreases width - col,
            {
                proof {
                    lemma_cell_index(width as int, height as int, row as int, col as int);
                }
                indexes.push(row * width + col);
                col = col + 1;
            }
            proof {
                assert(clues_fit(puzzle.row_clues@[row as int]@));
            }
            let ghost kb = known@;
            proof {
                assert forall|sol: Seq<bool>| #[trigger] fits_clues(puzzle, sol) implies line_solution(
                    kb,
                    indexes@,
                    puzzle.row_clues@[row as int]@,
                    sol,
                ) by {
                    assert(cells_at(sol, indexes@) =~= row_line(sol, width as int, row as int));
                }
            }
            proof {
                assert(indexes@ =~= row_indexes(width as int, row as int));
                assert(indexes@.no_duplicates());
            }
            match apply_line_deductions(&indexes, &puzzle.row_clues[row], &mut known) {
                Some(p) => {
                    if p {
                        progress = true;
                    }
                },
                None => {
                    proof {
                        assert(rows_pass(puzzle.width as int, puzzle.height as int, clue_views(puzzle.row_clues@), clue_views(puzzle.col_clues@), start, 0) is None);
                    }
                    return None;
                },
            }
            row = row + 1;
        }
        let ghost mid = known@;
        let mut col: usize = 0;
        while col < width
            invariant
                forall|sol: Seq<bool>| #[trigger] fits_clues(puzzle, sol) ==> consistent(known@, sol),
                n == width * height,
                width == puzzle.width,
                height == puzzle.height,
                height < usize::MAX,
                known.len() == n,
                col <= width,
                puzzle.col_clues.len() >= width,
                puzzle_clues_fit(puzzle),
                known_grows(start, known@),
                unknown_cells(known@) <= unknown_cells(start),
                progress ==> unknown_cells(known@) < unknown_cells(start),
                !progress ==> unknown_cells(known@) == unknown_cells(start),
                rows_pass(puzzle.width as int, puzzle.height as int, clue_views(puzzle.row_clues@), clue_views(puzzle.col_clues@), start, 0) == Some(mid),
                cols_pass(puzzle.width as int, puzzle.height as int, clue_views(puzzle.row_clues@), clue_views(puzzle.col_clues@), mid, 0) == cols_pass(puzzle.width as int, puzzle.height as int, clue_views(puzzle.row_clues@), clue_views(puzzle.col_clues@), known@, col as int),
                line_solve(puzzle) == line_fix(puzzle.width as int, puzzle.height as int, clue_views(puzzle.row_clues@), clue_views(puzzle.col_clues@), start, unknown_cells(start)),
            decreases width - col,
        {
            let mut indexes: Vec<usize> = Vec::new();
            let mut row: usize = 0;
            while row < height
                invariant
                    n == width * height,
                    col < width,
                    row <= height,
                    indexes.len() == row,
                    forall|k: int| 0 <= k < indexes.len() ==> (#[trigger] indexes@[k]) < n,
                    forall|k: int| 0 <= k < indexes.len() ==> (#[trigger] indexes@[k]) == k * width + col,
                decreases height - row,
            {
                proof {
                    lemma_cell_index(width as int, height as int, row as int, col as int);
                }
                indexes.push(row * width + col);
                row = row + 1;
            }
            proof {
                assert(clues_fit(puzzle.col_clues@[col as int]@));
            }
            let ghost kb = known@;
            proof {
                assert forall|sol: Seq<bool>| #[trigger] fits_clues(puzzle, sol) implies line_solution(
                    kb,
                    indexes@,
                    puzzle.col_clues@[col as int]@,
                    sol,
                ) by {
                    assert(cells_at(sol, indexes@) =~= col_line(sol, width as int, height as int, col as int));
                }
            }
            proof {
                assert(indexes@ =~= col_indexes(width as int, height as int, col as int));
                assert forall|a: int, b: int| 0 <= a < indexes.len() && 0 <= b < indexes.len() && a != b implies indexes@[a] != indexes@[b] by {
                    lemma_cell_index(width as int, height as int, a, col as int);
                    lemma_cell_index(width as int, height as int, b, col as int);
                }
                assert(indexes@.no_duplicates());
            }
            match apply_line_deductions(&indexes, &puzzle.col_clues[col], &mut known) {
                Some(p) => {
                    if p {
                        progress = true;
                    }
                },
                None => {
                    proof {
                        assert(cols_pass(puzzle.width as int, puzzle.height as int, clue_views(puzzle.row_clues@), clue_views(puzzle.col_clues@), mid, 0) is None);
                        assert(line_pass(puzzle.width as int, puzzle.height as int, clue_views(puzzle.row_clues@), clue_views(puzzle.col_clues@), start) is None);
                    }
                    return None;
                },
            }
            col = col + 1;
        }
        let mut solved: Vec<bool> = Vec::new();
        let mut all_known = true;
        let mut k: usize = 0;
        while k < n
            invariant
                known.len() == n,
                k <= n,
                solved.len() == k,
                all_known ==> forall|j: int| 0 <= j < k ==> known@[j] == Some(#[trigger] solved@[j]),
                all_known == forall|j: int| 0 <= j < k ==> (#[trigger] known@[j]) is Some,
                forall|j: int| 0 <= j < k ==> #[trigger] solved@[j] == known_values(known@)[j],
            decreases n - k,
        {
            match known[k] {
                Some(v) => solved.push(v),
                None => {
                    all_known = false;
                    solved.push(false);
                },
            }
            k = k + 1;
        }
        proof {
            assert(line_pass(puzzle.width as int, puzzle.height as int, clue_views(puzzle.row_clues@), clue_views(puzzle.col_clues@), start) == Some(known@));
            assert(solved@ =~= known_values(known@));
            if !all_known {
                assert(!all_known_cells(known@));
            }
        }
        if all_known {
            proof {
                assert forall|sol: Seq<bool>| #[trigger] fits_clues(puzzle, sol) implies sol == solved@ by {
                    assert(consistent(known@, sol));
                    assert forall|j: int| 0 <= j < n implies sol[j] == solved@[j] by {
                        assert(known@[j] == Some(solved@[j]));
                    }
                    assert(sol =~= solved@);
                }
            }
            return Some(solved);
        }
        if !progress {
            return None;
        }
        proof {
            lemma_fix_fuel(puzzle.width as int, puzzle.height as int, clue_views(puzzle.row_clues@), clue_views(puzzle.col_clues@), known@, (unknown_cells(start) - 1) as nat);
        }
    }
}

/// Two pictures are equal.
fn same_picture(a: &Vec<bool>, b: &Vec<bool>) -> (r: bool)
    ensures
        r == (a@ == b@),
{
    if a.len() != b.len() {
        return false;
    }
    let mut i: usize = 0;
    while i < a.len()
        invariant
            a.len() == b.len(),
            i <= a.len(),
            forall|k: int| 0 <= k < i ==> a@[k] == b@[k],
        decreases a.len() - i,
    {
        if a[i] != b[i] {
            return false;
        }
        i = i + 1;
    }
    proof {
        assert(a@ =~= b@);
    }
    true
}

/// Laying one more run after the others paints it last.
proof fn lemma_lay_push_run(line: Seq<bool>, clues: Seq<usize>, starts: Seq<int>, c: usize, t: int, from: int)
    requires
        0 <= from <= clues.len(),
        starts.len() == clues.len(),
    ensures
        lay_runs(line, clues.push(c), starts.push(t), from) == paint_run(lay_runs(line, clues, starts, from), t, c as int),
    decreases clues.len() - from,
{
    if from < clues.len() {
        assert(clues.push(c)[from] == clues[from]);
        assert(starts.push(t)[from] == starts[from]);
        lemma_lay_push_run(paint_run(line, starts[from], clues[from] as int), clues, starts, c, t, from + 1);
    } else {
        assert(lay_runs(paint_run(line, t, c as int), clues.push(c), starts.push(t), from + 1) == paint_run(
            line,
            t,
            c as int,
        ));
    }
}

/// Runs that end within a line lay the same on it with an empty cell added at the end.
proof fn lemma_lay_extend(line: Seq<bool>, clues: Seq<usize>, starts: Seq<int>, from: int, min_start: int)
    requires
        0 <= from,
        starts_fit(line.len() as int, clues, starts, from, min_start),
    ensures
        lay_runs(line.push(false), clues, starts, from) == lay_runs(line, clues, starts, from).push(false),
    decreases clues.len() - from,
{
    if from < clues.len() {
        let run = clues[from] as int;
        assert(starts[from] + clues[from] <= line.len());
        assert(paint_run(line.push(false), starts[from], run) =~= paint_run(line, starts[from], run).push(false));
        let m2 = starts[from] + clues[from] + 1;
        assert(starts_fit(line.len() as int, clues, starts, from + 1, m2)) by {
            if from + 1 < clues.len() {
                assert(starts[from + 1] >= starts[from + 1 - 1] + clues[from + 1 - 1] + 1);
            }
            assert forall|i: int| from + 1 < i < clues.len() implies #[trigger] starts[i] >= starts[i - 1] + clues[i - 1]
                + 1 by {
                assert(from < i);
            }
        }
        lemma_lay_extend(paint_run(line, starts[from], run), clues, starts, from + 1, m2);
    }
}

/// Runs that fit a shorter line fit a longer one.
proof fn lemma_starts_fit_longer(a: int, b: int, clues: Seq<usize>, starts: Seq<int>, from: int, min_start: int)
    requires
        a <= b,
        starts_fit(a, clues, starts, from, min_start),
    ensures
        starts_fit(b, clues, starts, from, min_start),
{
    assert forall|i: int| from <= i < clues.len() implies #[trigger] starts[i] + clues[i] <= b by {
        assert(starts[i] + clues[i] <= a);
    }
}

/// What reading a line from the left has found, as runs laid on an empty line: the closed
/// runs end before the last empty cell (or the open run's gap), and the open run fills the
/// line's end.
pub open spec fn scan_laid(line: Seq<bool>, starts: Seq<int>) -> bool {
    let n = line.len() as int;
    let (closed, open) = scan_runs(line);
    &&& starts.len() == closed.len()
    &&& open == 0 ==> starts_fit(n - 1, closed, starts, 0, 0) && line == lay_runs(empty_line(line.len()), closed, starts, 0)
    &&& open > 0 ==> starts_fit(n - open - 1, closed, starts, 0, 0) && line == paint_run(
        lay_runs(empty_line(line.len()), closed, starts, 0),
        n - open,
        open as int,
    )
}

proof fn lemma_scan_laid(line: Seq<bool>)
    requires
        line.len() <= usize::MAX,
    ensures
        exists|starts: Seq<int>| #[trigger] scan_laid(line, starts),
    decreases line.len(),
{
    if line.len() == 0 {
        let none: Seq<int> = seq![];
        assert(line == empty_line(0));
        assert(scan_laid(line, none));
    } else {
        let prev = line.drop_last();
        lemma_scan_laid(prev);
        lemma_scan_runs(prev);
        let starts = choose|starts: Seq<int>| #[trigger] scan_laid(prev, starts);
        let n = prev.len() as int;
        let (closed, open) = scan_runs(prev);
        assert(line == prev.push(line.last()));
        assert(empty_line((n + 1) as nat) == empty_line(n as nat).push(false));
        let laid = lay_runs(empty_line(n as nat), closed, starts, 0);
        if line.last() {
            if open == 0 {
                lemma_starts_fit_longer(n - 1, n, closed, starts, 0, 0);
                lemma_lay_extend(empty_line(n as nat), closed, starts, 0, 0);
                assert(line =~= paint_run(lay_runs(empty_line((n + 1) as nat), closed, starts, 0), n, 1));
                assert(scan_laid(line, starts));
            } else {
                lemma_starts_fit_longer(n - open - 1, n, closed, starts, 0, 0);
                lemma_lay_extend(empty_line(n as nat), closed, starts, 0, 0);
                assert(line =~= paint_run(lay_runs(empty_line((n + 1) as nat), closed, starts, 0), n - open, (open + 1) as int));
                assert(scan_laid(line, starts));
            }
        } else {
            if open == 0 {
                lemma_starts_fit_longer(n - 1, n, closed, starts, 0, 0);
                lemma_lay_extend(empty_line(n as nat), closed, starts, 0, 0);
                assert(scan_laid(line, starts));
            } else {
                let starts2 = starts.push(n - open);
                let closed2 = closed.push(open as usize);
                lemma_starts_fit_longer(n - open - 1, n, closed, starts, 0, 0);
                lemma_lay_extend(empty_line(n as nat), closed, starts, 0, 0);
                lemma_lay_push_run(empty_line((n + 1) as nat), closed, starts, open as usize, n - open, 0);
                assert((open as usize) as int == open);
                assert(lay_runs(empty_line((n + 1) as nat), closed, starts, 0) == laid.push(false));
                assert(paint_run(laid.push(false), n - open, open as int) =~= paint_run(laid, n - open, open as int).push(
                    false,
                ));
                assert(lay_runs(empty_line((n + 1) as nat), closed2, starts2, 0) =~= line);
                assert(starts_fit(n, closed2, starts2, 0, 0)) by {
                    assert forall|i: int| 0 <= i < closed2.len() implies #[trigger] starts2[i] + closed2[i] <= n by {
                        if i < closed.len() {
                            assert(starts[i] + closed[i] <= n - open - 1);
                        }
                    }
                    assert forall|i: int| 0 < i < closed2.len() implies #[trigger] starts2[i] >= starts2[i - 1] + closed2[i
                        - 1] + 1 by {
                        if i < closed.len() {
                            assert(starts[i] >= starts[i - 1] + closed[i - 1] + 1);
                        } else {
                            assert(starts[i - 1] + closed[i - 1] <= n - open - 1);
                        }
                    }
                }
                assert(scan_laid(line, starts2));
            }
        }
    }
}

/// A line whose runs are `clues` is a layout of `clues`.
pub proof fn lemma_clues_are_a_layout(line: Seq<bool>)
    requires
        line.len() <= usize::MAX,
    ensures
        is_layout(line, line_clues_spec(line)),
{
    lemma_scan_laid(line);
    lemma_scan_runs(line);
    let starts = choose|starts: Seq<int>| #[trigger] scan_laid(line, starts);
    let n = line.len() as int;
    let (closed, open) = scan_runs(line);
    if open == 0 {
        lemma_starts_fit_longer(n - 1, n, closed, starts, 0, 0);
        assert(starts_fit(line.len() as int, line_clues_spec(line), starts, 0, 0));
    } else {
        let starts2 = starts.push(n - open);
        let closed2 = closed.push(open as usize);
        lemma_lay_push_run(empty_line(line.len()), closed, starts, open as usize, n - open, 0);
        assert((open as usize) as int == open);
        assert(starts_fit(n, closed2, starts2, 0, 0)) by {
            assert forall|i: int| 0 <= i < closed2.len() implies #[trigger] starts2[i] + closed2[i] <= n by {
                if i < closed.len() {
                    assert(starts[i] + closed[i] <= n - open - 1);
                }
            }
            assert forall|i: int| 0 < i < closed2.len() implies #[trigger] starts2[i] >= starts2[i - 1] + closed2[i - 1] + 1 by {
                if i < closed.len() {
                    assert(starts[i] >= starts[i - 1] + closed[i - 1] + 1);
                } else {
                    assert(starts[i - 1] + closed[i - 1] <= n - open - 1);
                }
            }
        }
        assert(line == lay_runs(empty_line(line.len()), closed2, starts2, 0));
        assert(starts_fit(line.len() as int, line_clues_spec(line), starts2, 0, 0));
    }
}

/// The picture of a puzzle whose clues were read off it fits those clues.
pub proof fn lemma_picture_fits_its_clues(puzzle: &NonogramPuzzle)
    requires
        clues_match(puzzle),
    ensures
        fits_clues(puzzle, puzzle.solution@),
{
    let w = puzzle.width as int;
    let h = puzzle.height as int;
    assert forall|r: int| 0 <= r < h implies is_layout(#[trigger] row_line(puzzle.solution@, w, r), puzzle.row_clues@[r]@) by {
        lemma_clues_are_a_layout(row_line(puzzle.solution@, w, r));
    }
    assert forall|c: int| 0 <= c < w implies is_layout(#[trigger] col_line(puzzle.solution@, w, h, c), puzzle.col_clues@[c]@) by {
        lemma_clues_are_a_layout(col_line(puzzle.solution@, w, h, c));
    }
}

/// No picture but the puzzle's own has every row and column fit its clues.
pub open spec fn unique_picture(puzzle: &NonogramPuzzle) -> bool {
    forall|sol: Seq<bool>| #[trigger] fits_clues(puzzle, sol) ==> sol == puzzle.solution@
}

/// Whether the line-by-line solver recovers exactly the puzzle's picture.
pub fn nonogram_has_human_solution(puzzle: &NonogramPuzzle) -> (b: bool)
    requires
        puzzle.width * puzzle.height <= usize::MAX,
        puzzle.width < usize::MAX,
        puzzle.height < usize::MAX,
        puzzle.row_clues.len() >= puzzle.height,
        puzzle.col_clues.len() >= puzzle.width,
        puzzle_clues_fit(puzzle),
    ensures
        b ==> puzzle.solution.len() == puzzle.width * puzzle.height,
        b ==> unique_picture(puzzle),
        b == (line_solve(puzzle) == Some(puzzle.solution@)),
{
    match human_solve_nonogram(puzzle) {
        Some(solution) => same_picture(&solution, &puzzle.solution),
        None => false,
    }
}


/// The generator's seed step: a 64-bit linear congruential step.
pub open spec fn lcg_step(seed: u64) -> u64 {
    vstd::wrapping::u64_specs::wrapping_add(
        vstd::wrapping::u64_specs::wrapping_mul(seed, 6364136223846793005u64),
        1u64,
    )
}

fn next_seed(seed: u64) -> (next: u64)
    ensures
        next == lcg_step(seed),
{
    seed.wrapping_mul(6364136223846793005u64).wrapping_add(1u64)
}

/// What the generator hands out for a state: the state mixed with its own high bits.
pub open spec fn rng_mix(state: u64) -> u64 {
    state ^ (state >> 33u64)
}

/// The generator's state after `k` steps from `seed`.
pub open spec fn rng_state_after(seed: u64, k: nat) -> u64
    decreases k,
{
    if k == 0 {
        seed
    } else {
        lcg_step(rng_state_after(seed, (k - 1) as nat))
    }
}

/// The 32-bit draw made at a state: the high half of its mix.
pub open spec fn rng_u32(state: u64) -> u32 {
    (rng_mix(state) >> 32u64) as u32
}

/// The coin flip made at a state: the lowest bit of its mix.
pub open spec fn rng_coin(state: u64) -> bool {
    rng_mix(state) & 1u64 == 1u64
}

/// The random source of generation, advanced by `lcg_step`.
struct SeededRng {
    state: u64,
}

impl SeededRng {
    fn new(seed: u64) -> (rng: Self)
        ensures
            rng.state == seed,
    {
        SeededRng { state: seed }
    }

    fn next_u64(&mut self) -> (v: u64)
        ensures
            final(self).state == lcg_step(old(self).state),
            v == rng_mix(final(self).state),
    {
        self.state = next_seed(self.state);
        self.state ^ (self.state >> 33u64)
    }

    fn next_u32(&mut self) -> (v: u32)
        ensures
            final(self).state == lcg_step(old(self).state),
            v == rng_u32(final(self).state),
    {
        let wide = self.next_u64();
        let x = wide >> 32u64;
        assert(x <= 0xffff_ffffu64) by (bit_vector)
            requires
                x == wide >> 32u64,
        ;
        x as u32
    }

    fn next_bool(&mut self) -> (b: bool)
        ensures
            final(self).state == lcg_step(old(self).state),
            b == rng_coin(final(self).state),
    {
        self.next_u64() & 1u64 == 1u64
    }
}

/// The first `n` draws from `seed`, one per cell.
pub open spec fn random_field_spec(seed: u64, n: nat) -> Seq<u32> {
    Seq::new(n, |i: int| rng_u32(rng_state_after(seed, (i + 1) as nat)))
}

/// One random value per cell.
fn random_nonogram_field(width: usize, height: usize, rng: &mut SeededRng) -> (field: Vec<u32>)
    requires
        width * height <= usize::MAX,
    ensures
        field@ == random_field_spec(old(rng).state, (width * height) as nat),
        final(rng).state == rng_state_after(old(rng).state, (width * height) as nat),
{
    let n = width * height;
    let ghost start = rng.state;
    let mut field: Vec<u32> = Vec::new();
    let mut i: usize = 0;
    while i < n
        invariant
            i <= n,
            field@ == random_field_spec(start, i as nat),
            rng.state == rng_state_after(start, i as nat),
        decreases n - i,
    {
        let v = rng.next_u32();
        proof {
            assert(rng.state == rng_state_after(start, (i + 1) as nat));
        }
        field.push(v);
        proof {
            assert(field@ =~= random_field_spec(start, (i + 1) as nat));
        }
        i = i + 1;
    }
    field
}

/// The first row or column of the neighbourhood of `i`.
pub open spec fn window_start(i: int) -> int {
    if i > 0 {
        i - 1
    } else {
        0
    }
}

/// One past the last row or column of the neighbourhood of `i` on an axis of length `size`.
pub open spec fn window_end(i: int, size: int) -> int {
    if size - i > 2 {
        i + 2
    } else {
        size
    }
}

/// The sum of the values of row `row` in columns `c0..c1`.
pub open spec fn row_span_sum(field: Seq<u32>, width: int, row: int, c0: int, c1: int) -> int
    decreases c1 - c0,
{
    if c1 <= c0 {
        0
    } else {
        row_span_sum(field, width, row, c0, c1 - 1) + field[row * width + c1 - 1]
    }
}

/// The sum of the values in rows `r0..r1` and columns `c0..c1`.
pub open spec fn block_sum(field: Seq<u32>, width: int, r0: int, r1: int, c0: int, c1: int) -> int
    decreases r1 - r0,
{
    if r1 <= r0 {
        0
    } else {
        block_sum(field, width, r0, r1 - 1, c0, c1) + row_span_sum(field, width, r1 - 1, c0, c1)
    }
}

/// The average, rounded down, of a cell and the cells around it that exist.
pub open spec fn smoothed_cell(field: Seq<u32>, width: int, height: int, row: int, col: int) -> u32 {
    let r0 = window_start(row);
    let r1 = window_end(row, height);
    let c0 = window_start(col);
    let c1 = window_end(col, width);
    let average = block_sum(field, width, r0, r1, c0, c1) / ((r1 - r0) * (c1 - c0));
    if average <= 0xffff_ffff {
        average as u32
    } else {
        u32::MAX
    }
}

/// Every cell replaced by the average of its neighbourhood; empty for an empty grid.
pub open spec fn smoothed_spec(field: Seq<u32>, width: int, height: int) -> Seq<u32> {
    if width == 0 || height == 0 {
        Seq::empty()
    } else {
        Seq::new(
            (width * height) as nat,
            |i: int| smoothed_cell(field, width, height, i / width, i % width),
        )
    }
}

/// The average of the values around (and at) a cell, over the cells that exist.
fn smoothed_value(width: usize, height: usize, field: &Vec<u32>, row: usize, col: usize) -> (v: u32)
    requires
        field.len() == width * height,
        row < height,
        col < width,
    ensures
        v == smoothed_cell(field@, width as int, height as int, row as int, col as int),
{
    let row_start = if row > 0 {
        row - 1
    } else {
        0
    };
    let row_end = if height - row > 2 {
        row + 2
    } else {
        height
    };
    let col_start = if col > 0 {
        col - 1
    } else {
        0
    };
    let col_end = if width - col > 2 {
        col + 2
    } else {
        width
    };
    let ghost cols = col_end - col_start;
    let mut sum: u64 = 0;
    let mut count: u64 = 0;
    let mut neighbor_row = row_start;
    while neighbor_row < row_end
        invariant
            field.len() == width * height,
            row_start <= row < row_end <= height,
            col_start <= col < col_end <= width,
            row_end - row_start <= 3,
            col_end - col_start <= 3,
            cols == col_end - col_start,
            row_start <= neighbor_row <= row_end,
            count == (neighbor_row - row_start) * cols,
            sum <= count * 0xffff_ffff,
            sum == block_sum(field@, width as int, row_start as int, neighbor_row as int, col_start as int, col_end as int),
        decreases row_end - neighbor_row,
    {
        let ghost count_before = count;
        let ghost sum_before = sum;
        assert(count_before <= 9) by (nonlinear_arith)
            requires
                count_before == (neighbor_row - row_start) * cols,
                0 <= neighbor_row - row_start < 3,
                cols <= 3,
        ;
        let mut neighbor_col = col_start;
        while neighbor_col < col_end
            invariant
                field.len() == width * height,
                neighbor_row < row_end <= height,
                col_start <= neighbor_col <= col_end <= width,
                col_end - col_start <= 3,
                count == count_before + (neighbor_col - col_start),
                count_before <= 9,
                sum <= count * 0xffff_ffff,
                sum == sum_before + row_span_sum(field@, width as int, neighbor_row as int, col_start as int, neighbor_col as int),
            decreases col_end - neighbor_col,
        {
            proof {
                lemma_cell_index(width as int, height as int, neighbor_row as int, neighbor_col as int);
            }
            let index = neighbor_row * width + neighbor_col;
            sum = sum + field[index] as u64;
            count = count + 1;
            neighbor_col = neighbor_col + 1;
        }
        assert(count_before + cols == (neighbor_row + 1 - row_start) * cols) by (nonlinear_arith)
            requires
                count_before == (neighbor_row - row_start) * cols,
        ;
        neighbor_row = neighbor_row + 1;
    }
    assert(count > 0) by (nonlinear_arith)
        requires
            count == (row_end - row_start) * cols,
            row_end > row_start,
            cols > 0,
    ;
    let average = sum / count;
    if average <= 0xffff_ffffu64 {
        average as u32
    } else {
        u32::MAX
    }
}

/// Each cell replaced by the average of its neighbourhood; empty for an empty grid.
fn smooth_nonogram_field(width: usize, height: usize, field: &Vec<u32>) -> (smoothed: Vec<u32>)
    requires
        field.len() == width * height,
    ensures
        smoothed@ == smoothed_spec(field@, width as int, height as int),
        smoothed.len() == if width == 0 || height == 0 {
            0
        } else {
            width * height
        },
{
    if width == 0 || height == 0 {
        return Vec::new();
    }
    let mut smoothed: Vec<u32> = Vec::new();
    let mut row: usize = 0;
    while row < height
        invariant
            field.len() == width * height,
            width > 0,
            row <= height,
            smoothed.len() == row * width,
            forall|i: int| 0 <= i < smoothed.len() ==> #[trigger] smoothed@[i] == smoothed_cell(
                field@, width as int, height as int, i / width as int, i % width as int),
        decreases height - row,
    {
        let mut col: usize = 0;
        while col < width
            invariant
                field.len() == width * height,
                width > 0,
                row < height,
                col <= width,
                smoothed.len() == row * width + col,
                forall|i: int| 0 <= i < smoothed.len() ==> #[trigger] smoothed@[i] == smoothed_cell(
                    field@, width as int, height as int, i / width as int, i % width as int),
            decreases width - col,
        {
            proof {
                lemma_cell_index(width as int, height as int, row as int, col as int);
            }
            let v = smoothed_value(width, height, field, row, col);
            smoothed.push(v);
            col = col + 1;
        }
        assert((row + 1) * width == row * width + width) by (nonlinear_arith);
        row = row + 1;
    }
    assert(height * width == width * height) by (nonlinear_arith);
    proof {
        assert(smoothed@ =~= smoothed_spec(field@, width as int, height as int));
    }
    smoothed
}

/// The order of the values: smaller first.
pub open spec fn u32_order() -> spec_fn(u32, u32) -> bool {
    |a: u32, b: u32| a <= b
}

/// The values in increasing order.
fn sorted_copy(values: &Vec<u32>) -> (sorted: Vec<u32>)
    ensures
        sorted@ == values@.sort_by(u32_order()),
        sorted.len() == values.len(),
        forall|a: int, b: int| 0 <= a <= b < sorted.len() ==> sorted@[a] <= sorted@[b],
        sorted@.to_multiset() == values@.to_multiset(),
{
    broadcast use vstd::seq_lib::group_to_multiset_ensures;

    let mut sorted: Vec<u32> = Vec::new();
    let mut i: usize = 0;
    while i < values.len()
        invariant
            i <= values.len(),
            sorted.len() == i,
            forall|a: int, b: int| 0 <= a <= b < sorted.len() ==> sorted@[a] <= sorted@[b],
            sorted@.to_multiset() == values@.take(i as int).to_multiset(),
        decreases values.len() - i,
    {
        let x = values[i];
        let mut at: usize = 0;
        while at < sorted.len() && sorted[at] <= x
            invariant
                at <= sorted.len(),
                forall|k: int| 0 <= k < at ==> sorted@[k] <= x,
            decreases sorted.len() - at,
        {
            at = at + 1;
        }
        let ghost before = sorted@;
        sorted.insert(at, x);
        proof {
            assert(sorted@ == before.insert(at as int, x));
            assert forall|a: int, b: int| 0 <= a <= b < sorted.len() implies sorted@[a] <= sorted@[b] by {
                if b < at {
                } else if b == at {
                    if a < at {
                        assert(sorted@[a] == before[a]);
                    }
                } else if a < at {
                    assert(sorted@[a] == before[a] && sorted@[b] == before[b - 1]);
                } else if a == at {
                    assert(sorted@[b] == before[b - 1]);
                    assert(before[at as int] > x);
                    assert(before[at as int] <= before[b - 1]);
                } else {
                    assert(sorted@[a] == before[a - 1] && sorted@[b] == before[b - 1]);
                }
            }
            assert(values@.take(i + 1) == values@.take(i as int).push(x));
            vstd::seq_lib::to_multiset_insert(before, at as int, x);
            vstd::seq_lib::to_multiset_build(values@.take(i as int), x);
        }
        i = i + 1;
    }
    proof {
        assert(values@.take(i as int) == values@);
        let leq = u32_order();
        assert(total_ordering(leq));
        values@.lemma_sort_by_ensures(leq);
        assert(sorted_by(sorted@, leq));
        vstd::seq_lib::lemma_sorted_unique(sorted@, values@.sort_by(leq), leq);
    }
    sorted
}

/// Where in the sorted values the cut is made: the middle, or for an odd count one above
/// it when the coin says so.
pub open spec fn threshold_position(len: nat, coin: bool) -> int {
    (len / 2) as int + if len % 2 == 1 && coin {
        1int
    } else {
        0int
    }
}

/// The cells whose value reaches the value at the cut; empty when the cut falls past the end.
pub open spec fn threshold_spec(field: Seq<u32>, coin: bool) -> Seq<bool> {
    let k = threshold_position(field.len(), coin);
    if k >= field.len() {
        Seq::empty()
    } else {
        let t = field.sort_by(u32_order())[k];
        Seq::new(field.len(), |i: int| field[i] >= t)
    }
}

/// Fills the cells whose value reaches the median (for an odd count, the median or the
/// value just above it, by a coin flip), so about half the picture is filled.
fn threshold_nonogram_field(field: &Vec<u32>, rng: &mut SeededRng) -> (cells: Vec<bool>)
    ensures
        cells@ == threshold_spec(field@, rng_coin(lcg_step(old(rng).state))),
        field.len() >= 2 ==> cells.len() == field.len(),
{
    let sorted = sorted_copy(field);
    let mut threshold_index = sorted.len() / 2;
    if sorted.len() % 2 == 1 && rng.next_bool() {
        threshold_index = threshold_index + 1;
    }
    if threshold_index >= sorted.len() {
        return Vec::new();
    }
    let threshold = sorted[threshold_index];
    let mut cells: Vec<bool> = Vec::new();
    let mut i: usize = 0;
    while i < field.len()
        invariant
            i <= field.len(),
            cells.len() == i,
            forall|k: int| 0 <= k < i ==> #[trigger] cells@[k] == (field@[k] >= threshold),
        decreases field.len() - i,
    {
        cells.push(field[i] >= threshold);
        i = i + 1;
    }
    proof {
        assert(cells@ =~= threshold_spec(field@, rng_coin(lcg_step(old(rng).state))));
    }
    cells
}

/// The picture generation draws for `seed`: `width * height` random values, smoothed, cut
/// at the median with the next draw's coin.
pub open spec fn generated_solution_spec(width: int, height: int, seed: u64) -> Seq<bool> {
    let n = (width * height) as nat;
    threshold_spec(
        smoothed_spec(random_field_spec(seed, n), width, height),
        rng_coin(rng_state_after(seed, n + 1)),
    )
}

/// A random picture for `seed`: random values, smoothed into blobs, cut at the median.
pub fn generated_solution(width: usize, height: usize, seed: u64) -> (cells: Vec<bool>)
    requires
        width * height <= usize::MAX,
    ensures
        cells@ == generated_solution_spec(width as int, height as int, seed),
        width * height >= 2 ==> cells.len() == width * height,
{
    let mut rng = SeededRng::new(seed);
    let field = random_nonogram_field(width, height, &mut rng);
    let smoothed = smooth_nonogram_field(width, height, &field);
    proof {
        let n = (width * height) as nat;
        assert(rng_state_after(seed, n + 1) == lcg_step(rng_state_after(seed, n)));
    }
    threshold_nonogram_field(&smoothed, &mut rng)
}

/// Every row and every column of the picture is neither empty nor full.
pub open spec fn no_trivial_lines(width: int, height: int, cells: Seq<bool>) -> bool {
    &&& forall|r: int|
        0 <= r < height ==> 0 < #[trigger] count_true(row_line(cells, width, r)) < width
    &&& forall|c: int|
        0 <= c < width ==> 0 < #[trigger] count_true(col_line(cells, width, height, c)) < height
}

/// How many cells of row `row` are filled.
fn filled_in_row(width: usize, height: usize, cells: &Vec<bool>, row: usize) -> (n: usize)
    requires
        cells.len() == width * height,
        row < height,
    ensures
        n == count_true(row_line(cells@, width as int, row as int)),
{
    count_flags(&row_of(cells, width, height, row))
}

/// How many cells of column `col` are filled.
fn filled_in_col(width: usize, height: usize, cells: &Vec<bool>, col: usize) -> (n: usize)
    requires
        cells.len() == width * height,
        col < width,
    ensures
        n == count_true(col_line(cells@, width as int, height as int, col as int)),
{
    count_flags(&col_of(cells, width, height, col))
}

fn solution_has_no_trivial_lines(width: usize, height: usize, cells: &Vec<bool>) -> (b: bool)
    requires
        cells.len() == width * height,
    ensures
        b == no_trivial_lines(width as int, height as int, cells@),
{
    let mut row: usize = 0;
    while row < height
        invariant
            cells.len() == width * height,
            row <= height,
            forall|r: int| 0 <= r < row ==> 0 < #[trigger] count_true(row_line(cells@, width as int, r)) < width,
        decreases height - row,
    {
        let filled = filled_in_row(width, height, cells, row);
        if !(filled > 0 && filled < width) {
            return false;
        }
        row = row + 1;
    }
    let mut col: usize = 0;
    while col < width
        invariant
            cells.len() == width * height,
            col <= width,
            forall|r: int| 0 <= r < height ==> 0 < #[trigger] count_true(row_line(cells@, width as int, r)) < width,
            forall|c: int|
                0 <= c < col ==> 0 < #[trigger] count_true(col_line(cells@, width as int, height as int, c)) < height,
        decreases width - col,
    {
        let filled = filled_in_col(width, height, cells, col);
        if !(filled > 0 && filled < height) {
            return false;
        }
        col = col + 1;
    }
    true
}

/// The cell at `(row, col)` of the fallback picture: a frame open at two corners.
pub open spec fn fallback_cell(width: int, height: int, row: int, col: int) -> bool {
    if row == 1 {
        col < width - 1
    } else if row + 2 == height {
        col >= 1
    } else {
        col == 0 || col == width - 1
    }
}

/// The whole fallback picture, row by row.
pub open spec fn fallback_cells(width: int, height: int) -> Seq<bool> {
    Seq::new((width * height) as nat, |i: int| fallback_cell(width, height, i / width, i % width))
}

/// The picture used when no random one qualifies.
pub fn fallback_solution(width: usize, height: usize, seed: u64) -> (cells: Vec<bool>)
    requires
        width >= 1,
        width * height <= usize::MAX,
    ensures
        cells@ == fallback_cells(width as int, height as int),
{
    let n = width * height;
    let mut cells: Vec<bool> = Vec::new();
    let mut i: usize = 0;
    while i < n
        invariant
            width >= 1,
            n == width * height,
            i <= n,
            cells.len() == i,
            forall|k: int| 0 <= k < i ==> #[trigger] cells@[k] == fallback_cell(width as int, height as int, k / width as int, k % width as int),
        decreases n - i,
    {
        let row = i / width;
        let col = i % width;
        let filled = if row == 1 {
            col < width - 1
        } else if height >= 2 && row == height - 2 {
            col >= 1
        } else {
            col == 0 || col == width - 1
        };
        cells.push(filled);
        i = i + 1;
    }
    proof {
        assert(cells@ =~= fallback_cells(width as int, height as int));
    }
    cells
}

/// Between a fifth and four fifths of the cells are filled.
fn solution_is_usable(solution: &Vec<bool>, width: usize, height: usize) -> (b: bool)
    requires
        width * height * 4 <= usize::MAX,
    ensures
        b == (count_true(solution@) >= (width * height) / 5 && count_true(solution@) <= (width * height
            * 4) / 5),
{
    let filled = count_flags(solution);
    let cell_count = width * height;
    filled >= cell_count / 5 && filled <= (cell_count * 4) / 5
}

/// The score a generated puzzle should reach: three fifths of the number of lines.
pub fn target_nonogram_interest_score(width: usize, height: usize) -> (t: usize)
    requires
        (width + height) * 3 <= usize::MAX,
    ensures
        t == ((width + height) * 3) / 5,
{
    ((width + height) * 3) / 5
}

/// How many of the listed clue lists have more than one run.
pub open spec fn gapped_count(lists: Seq<Vec<usize>>) -> nat
    decreases lists.len(),
{
    if lists.len() == 0 {
        0
    } else {
        gapped_count(lists.drop_last()) + if lists.last().len() > 1 {
            1nat
        } else {
            0nat
        }
    }
}

proof fn lemma_gapped_count_bound(lists: Seq<Vec<usize>>)
    ensures
        gapped_count(lists) <= lists.len(),
    decreases lists.len(),
{
    if lists.len() > 0 {
        lemma_gapped_count_bound(lists.drop_last());
    }
}

fn clues_have_gap(clues: &Vec<usize>) -> (b: bool)
    ensures
        b == (clues.len() > 1),
{
    clues.len() > 1
}

fn count_gapped(lists: &Vec<Vec<usize>>) -> (n: usize)
    ensures
        n == gapped_count(lists@),
{
    let mut n: usize = 0;
    let mut i: usize = 0;
    while i < lists.len()
        invariant
            i <= lists.len(),
            n == gapped_count(lists@.take(i as int)),
        decreases lists.len() - i,
    {
        proof {
            assert(lists@.take(i + 1).drop_last() == lists@.take(i as int));
            lemma_gapped_count_bound(lists@.take(i as int));
        }
        if clues_have_gap(&lists[i]) {
            n = n + 1;
        }
        i = i + 1;
    }
    proof {
        assert(lists@.take(i as int) == lists@);
    }
    n
}

/// How interesting a puzzle is: the number of rows and columns whose clue has a gap.
pub fn nonogram_interest_score(puzzle: &NonogramPuzzle) -> (score: usize)
    requires
        puzzle.row_clues.len() + puzzle.col_clues.len() <= usize::MAX,
    ensures
        score == gapped_count(puzzle.row_clues@) + gapped_count(puzzle.col_clues@),
{
    proof {
        lemma_gapped_count_bound(puzzle.row_clues@);
        lemma_gapped_count_bound(puzzle.col_clues@);
    }
    count_gapped(&puzzle.row_clues) + count_gapped(&puzzle.col_clues)
}

/// A clue that gives its line away: no run at all, or one run filling the line.
pub open spec fn clue_is_nontrivial(clues: Seq<usize>, length: usize) -> bool {
    !(clues.len() == 0 || clues.len() == 1 && clues[0] == length)
}

/// No row or column clue gives its line away.
pub open spec fn puzzle_nontrivial(puzzle: &NonogramPuzzle) -> bool {
    &&& forall|r: int|
        0 <= r < puzzle.row_clues.len() ==> clue_is_nontrivial((#[trigger] puzzle.row_clues@[r])@, puzzle.width)
    &&& forall|c: int|
        0 <= c < puzzle.col_clues.len() ==> clue_is_nontrivial((#[trigger] puzzle.col_clues@[c])@, puzzle.height)
}

fn line_clues_are_nontrivial(clues: &Vec<usize>, length: usize) -> (b: bool)
    ensures
        b == clue_is_nontrivial(clues@, length),
{
    !(clues.len() == 0 || clues.len() == 1 && clues[0] == length)
}

/// Whether no row or column clue gives its line away.
pub fn puzzle_has_no_trivial_clues(puzzle: &NonogramPuzzle) -> (b: bool)
    ensures
        b == puzzle_nontrivial(puzzle),
{
    let mut r: usize = 0;
    while r < puzzle.row_clues.len()
        invariant
            r <= puzzle.row_clues.len(),
            forall|k: int| 0 <= k < r ==> clue_is_nontrivial((#[trigger] puzzle.row_clues@[k])@, puzzle.width),
        decreases puzzle.row_clues.len() - r,
    {
        if !line_clues_are_nontrivial(&puzzle.row_clues[r], puzzle.width) {
            return false;
        }
        r = r + 1;
    }
    let mut c: usize = 0;
    while c < puzzle.col_clues.len()
        invariant
            c <= puzzle.col_clues.len(),
            forall|k: int| 0 <= k < puzzle.row_clues.len() ==> clue_is_nontrivial((#[trigger] puzzle.row_clues@[k])@, puzzle.width),
            forall|k: int| 0 <= k < c ==> clue_is_nontrivial((#[trigger] puzzle.col_clues@[k])@, puzzle.height),
        decreases puzzle.col_clues.len() - c,
    {
        if !line_clues_are_nontrivial(&puzzle.col_clues[c], puzzle.height) {
            return false;
        }
        c = c + 1;
    }
    true
}


/// A set flag makes the count positive.
proof fn lemma_count_has_true(s: Seq<bool>, i: int)
    requires
        0 <= i < s.len(),
        s[i],
    ensures
        count_true(s) >= 1,
{
    lemma_count_true_clear(s, i);
}

/// A clear flag keeps the count below the length.
proof fn lemma_count_has_false(s: Seq<bool>, j: int)
    requires
        0 <= j < s.len(),
        !s[j],
    ensures
        count_true(s) < s.len(),
{
    let t = s.update(j, true);
    lemma_count_true_clear(t, j);
    assert(t.update(j, false) == s);
    lemma_count_true_bound(t);
}

/// The runs of a line hold exactly its filled cells.
proof fn lemma_line_clues_sum(line: Seq<bool>)
    requires
        line.len() <= usize::MAX,
    ensures
        clue_sum(line_clues_spec(line)) == count_true(line),
        line_clues_spec(line).len() <= line.len(),
{
    lemma_scan_runs(line);
    let (closed, open) = scan_runs(line);
    if open > 0 {
        assert((open as usize) as nat == open);
        assert(closed.push(open as usize).drop_last() == closed);
    }
}

/// A line neither empty nor full has a clue that does not give it away.
proof fn lemma_line_clues_nontrivial(line: Seq<bool>)
    requires
        line.len() <= usize::MAX,
        0 < count_true(line) < line.len(),
    ensures
        clue_is_nontrivial(line_clues_spec(line), line.len() as usize),
{
    lemma_line_clues_sum(line);
    let c = line_clues_spec(line);
    if c.len() == 1 {
        assert(c.drop_last().len() == 0);
        assert(clue_sum(c.drop_last()) == 0);
        assert(clue_sum(c) == c[0]);
    }
}

/// The clue of a line is small enough to work with.
proof fn lemma_line_clues_fit(line: Seq<bool>)
    requires
        line.len() <= NONOGRAM_MAX_AXIS,
    ensures
        clues_fit(line_clues_spec(line)),
{
    lemma_line_clues_sum(line);
    lemma_count_true_bound(line);
}

/// The clues of a puzzle built from a picture of allowed size are small enough to work with.
pub proof fn lemma_built_clues_fit(puzzle: &NonogramPuzzle)
    requires
        clues_match(puzzle),
        puzzle.width <= NONOGRAM_MAX_AXIS,
        puzzle.height <= NONOGRAM_MAX_AXIS,
    ensures
        puzzle_clues_fit(puzzle),
{
    let w = puzzle.width as int;
    let h = puzzle.height as int;
    assert forall|r: int| 0 <= r < puzzle.row_clues.len() implies clues_fit((#[trigger] puzzle.row_clues@[r])@) by {
        lemma_line_clues_fit(row_line(puzzle.solution@, w, r));
    }
    assert forall|c: int| 0 <= c < puzzle.col_clues.len() implies clues_fit((#[trigger] puzzle.col_clues@[c])@) by {
        lemma_line_clues_fit(col_line(puzzle.solution@, w, h, c));
    }
}

/// A picture with no empty or full line gives a puzzle whose clues give nothing away.
pub proof fn lemma_nontrivial_lines_give_nontrivial_clues(puzzle: &NonogramPuzzle)
    requires
        clues_match(puzzle),
        no_trivial_lines(puzzle.width as int, puzzle.height as int, puzzle.solution@),
    ensures
        puzzle_nontrivial(puzzle),
{
    let w = puzzle.width as int;
    let h = puzzle.height as int;
    assert forall|r: int| 0 <= r < puzzle.row_clues.len() implies clue_is_nontrivial(
        (#[trigger] puzzle.row_clues@[r])@,
        puzzle.width,
    ) by {
        let line = row_line(puzzle.solution@, w, r);
        assert(0 < count_true(line) < w);
        lemma_line_clues_nontrivial(line);
    }
    assert forall|c: int| 0 <= c < puzzle.col_clues.len() implies clue_is_nontrivial(
        (#[trigger] puzzle.col_clues@[c])@,
        puzzle.height,
    ) by {
        let line = col_line(puzzle.solution@, w, h, c);
        assert(0 < count_true(line) < h);
        lemma_line_clues_nontrivial(line);
    }
}

/// The fallback picture has no empty or full line.
pub proof fn lemma_fallback_has_no_trivial_lines(width: int, height: int)
    requires
        NONOGRAM_MIN_AXIS <= width <= NONOGRAM_MAX_AXIS,
        NONOGRAM_MIN_AXIS <= height <= NONOGRAM_MAX_AXIS,
    ensures
        no_trivial_lines(width, height, fallback_cells(width, height)),
{
    let cells = fallback_cells(width, height);
    assert forall|r: int| 0 <= r < height implies 0 < #[trigger] count_true(row_line(cells, width, r)) < width by {
        let line = row_line(cells, width, r);
        let (t, f) = if r == 1 {
            (0int, width - 1)
        } else if r + 2 == height {
            (width - 1, 0int)
        } else {
            (0int, 1int)
        };
        lemma_cell_index(width, height, r, t);
        lemma_cell_index(width, height, r, f);
        lemma_count_has_true(line, t);
        lemma_count_has_false(line, f);
    }
    assert forall|c: int| 0 <= c < width implies 0 < #[trigger] count_true(col_line(cells, width, height, c)) < height by {
        let line = col_line(cells, width, height, c);
        let (t, f) = if c == 0 {
            (0int, height - 2)
        } else if c == width - 1 {
            (0int, 1int)
        } else {
            (1int, 0int)
        };
        lemma_cell_index(width, height, t, c);
        lemma_cell_index(width, height, f, c);
        lemma_count_has_true(line, t);
        lemma_count_has_false(line, f);
    }
}

/// The first seed generation tries: the given one, with 0 replaced by 1.
pub open spec fn first_candidate_seed(seed: u64) -> u64 {
    if seed == 0 {
        1
    } else {
        seed
    }
}

/// The clues of each row of a picture.
pub open spec fn row_clue_seq(sol: Seq<bool>, w: int, h: int) -> Seq<Seq<usize>> {
    Seq::new(h as nat, |r: int| line_clues_spec(row_line(sol, w, r)))
}

/// The clues of each column of a picture.
pub open spec fn col_clue_seq(sol: Seq<bool>, w: int, h: int) -> Seq<Seq<usize>> {
    Seq::new(w as nat, |c: int| line_clues_spec(col_line(sol, w, h, c)))
}

/// How many of the clue lists have two or more runs.
pub open spec fn gapped_lines(lists: Seq<Seq<usize>>) -> nat
    decreases lists.len(),
{
    if lists.len() == 0 {
        0
    } else {
        gapped_lines(lists.drop_last()) + if lists.last().len() > 1 {
            1nat
        } else {
            0nat
        }
    }
}

/// The interest of a picture: how many of its rows and columns have two or more runs.
pub open spec fn picture_score(sol: Seq<bool>, w: int, h: int) -> nat {
    gapped_lines(row_clue_seq(sol, w, h)) + gapped_lines(col_clue_seq(sol, w, h))
}

/// A picture generation may keep: between a fifth and four fifths filled, no row or column
/// empty or full, and recovered by line-by-line reasoning from its own clues.
pub open spec fn picture_acceptable(sol: Seq<bool>, w: int, h: int) -> bool {
    &&& count_true(sol) >= (w * h) / 5
    &&& count_true(sol) <= (w * h * 4) / 5
    &&& no_trivial_lines(w, h, sol)
    &&& line_solve_clues(w, h, row_clue_seq(sol, w, h), col_clue_seq(sol, w, h)) == Some(sol)
}

/// The picture drawn at attempt `a` of generation from `seed`.
pub open spec fn candidate_picture(w: int, h: int, seed: u64, a: int) -> Seq<bool> {
    generated_solution_spec(w, h, rng_state_after(first_candidate_seed(seed), a as nat))
}

/// Which attempt generation keeps, looking from attempt `a` on with the best so far: the
/// first acceptable picture that reaches the target interest; else the first of the most
/// interesting acceptable ones; else none.
pub open spec fn pick_candidate(
    w: int,
    h: int,
    seed: u64,
    target: nat,
    a: int,
    best: Option<int>,
    best_score: nat,
) -> Option<int>
    decreases NONOGRAM_GENERATION_ATTEMPTS - a,
{
    if a < 0 || a >= NONOGRAM_GENERATION_ATTEMPTS {
        best
    } else {
        let sol = candidate_picture(w, h, seed, a);
        if picture_acceptable(sol, w, h) {
            let score = picture_score(sol, w, h);
            if score >= target {
                Some(a)
            } else if best is None || score > best_score {
                pick_candidate(w, h, seed, target, a + 1, Some(a), score)
            } else {
                pick_candidate(w, h, seed, target, a + 1, best, best_score)
            }
        } else {
            pick_candidate(w, h, seed, target, a + 1, best, best_score)
        }
    }
}

proof fn lemma_gapped_views(lists: Seq<Vec<usize>>)
    ensures
        gapped_count(lists) == gapped_lines(clue_views(lists)),
    decreases lists.len(),
{
    if lists.len() > 0 {
        lemma_gapped_views(lists.drop_last());
        assert(clue_views(lists).drop_last() =~= clue_views(lists.drop_last()));
    }
}

/// A puzzle generation may hand out: of the clamped size, with the clues of its picture,
/// none of which gives its line away.
pub open spec fn generated_ok(puzzle: &NonogramPuzzle, width: usize, height: usize) -> bool {
    &&& puzzle.width == width
    &&& puzzle.height == height
    &&& clues_match(puzzle)
    &&& puzzle_nontrivial(puzzle)
}

/// Generates a puzzle of the requested size (each side clamped to 5..=15) from `seed`.
/// Random pictures are tried, seed after seed, for a fixed number of attempts; a picture
/// counts only if between a fifth and four fifths of it is filled, no row or column is
/// empty or full, and the line-by-line solver recovers it. The first one interesting enough
/// is returned, else the most interesting one, else a fixed fallback picture.
pub fn generate_nonogram_puzzle(width: usize, height: usize, seed: u64) -> (puzzle: NonogramPuzzle)
    ensures
        generated_ok(&puzzle, clamp_axis_spec(width), clamp_axis_spec(height)),
        fits_clues(&puzzle, puzzle.solution@),
        unique_picture(&puzzle) || puzzle.solution@ == fallback_cells(
            clamp_axis_spec(width) as int,
            clamp_axis_spec(height) as int,
        ),
        puzzle.solution@ == fallback_cells(clamp_axis_spec(width) as int, clamp_axis_spec(height) as int)
            || exists|k: nat|
            k < NONOGRAM_GENERATION_ATTEMPTS && #[trigger] generated_solution_spec(
                clamp_axis_spec(width) as int,
                clamp_axis_spec(height) as int,
                rng_state_after(first_candidate_seed(seed), k),
            ) == puzzle.solution@,
        match pick_candidate(
            clamp_axis_spec(width) as int,
            clamp_axis_spec(height) as int,
            seed,
            ((clamp_axis_spec(width) + clamp_axis_spec(height)) * 3 / 5) as nat,
            0,
            None,
            0,
        ) {
            Some(a) => puzzle.solution@ == candidate_picture(
                clamp_axis_spec(width) as int,
                clamp_axis_spec(height) as int,
                seed,
                a,
            ) && puzzle.seed == rng_state_after(first_candidate_seed(seed), a as nat),
            None => puzzle.solution@ == fallback_cells(clamp_axis_spec(width) as int, clamp_axis_spec(height) as int)
                && puzzle.seed == rng_state_after(first_candidate_seed(seed), NONOGRAM_GENERATION_ATTEMPTS as nat),
        },
{
    let w = clamp_nonogram_axis(width);
    let h = clamp_nonogram_axis(height);
    assert(w * h <= 225) by (nonlinear_arith)
        requires
            w <= 15,
            h <= 15,
    ;
    assert(w * h >= 25) by (nonlinear_arith)
        requires
            w >= 5,
            h >= 5,
    ;
    let mut candidate_seed = if seed == 0 {
        1u64
    } else {
        seed
    };
    let ghost start = candidate_seed;
    let mut best_puzzle: Option<NonogramPuzzle> = None;
    let ghost mut best_attempt: Option<int> = None;
    let mut best_score: usize = 0;
    let target_score = target_nonogram_interest_score(w, h);
    let mut attempt: usize = 0;
    while attempt < NONOGRAM_GENERATION_ATTEMPTS
        invariant
            NONOGRAM_MIN_AXIS <= w <= NONOGRAM_MAX_AXIS,
            NONOGRAM_MIN_AXIS <= h <= NONOGRAM_MAX_AXIS,
            25 <= w * h <= 225,
            attempt <= NONOGRAM_GENERATION_ATTEMPTS,
            w == clamp_axis_spec(width),
            h == clamp_axis_spec(height),
            best_puzzle matches Some(p) ==> generated_ok(&p, w, h) && unique_picture(&p),
            best_puzzle matches Some(p) ==> exists|k: nat|
                k < attempt && #[trigger] generated_solution_spec(w as int, h as int, rng_state_after(start, k))
                    == p.solution@,
            start == first_candidate_seed(seed),
            candidate_seed == rng_state_after(start, attempt as nat),
            target_score == ((w + h) * 3) / 5,
            pick_candidate(w as int, h as int, seed, target_score as nat, 0, None, 0) == pick_candidate(
                w as int,
                h as int,
                seed,
                target_score as nat,
                attempt as int,
                best_attempt,
                best_score as nat,
            ),
            best_puzzle is Some <==> best_attempt is Some,
            best_puzzle matches Some(p) ==> p.solution@ == candidate_picture(w as int, h as int, seed, best_attempt->0)
                && p.seed == rng_state_after(start, best_attempt->0 as nat),
        decreases NONOGRAM_GENERATION_ATTEMPTS - attempt,
    {
        let solution = generated_solution(w, h, candidate_seed);
        let ghost sol = solution@;
        proof {
            assert(sol == candidate_picture(w as int, h as int, seed, attempt as int));
        }
        if solution_is_usable(&solution, w, h) && solution_has_no_trivial_lines(w, h, &solution) {
            let puzzle = build_nonogram_puzzle(w, h, candidate_seed, solution);
            proof {
                lemma_nontrivial_lines_give_nontrivial_clues(&puzzle);
                lemma_built_clues_fit(&puzzle);
                assert(clue_views(puzzle.row_clues@) =~= row_clue_seq(sol, w as int, h as int));
                assert(clue_views(puzzle.col_clues@) =~= col_clue_seq(sol, w as int, h as int));
                lemma_gapped_views(puzzle.row_clues@);
                lemma_gapped_views(puzzle.col_clues@);
            }
            if nonogram_has_human_solution(&puzzle) {
                let score = nonogram_interest_score(&puzzle);
                if score >= target_score {
                    proof {
                        lemma_picture_fits_its_clues(&puzzle);
                    }
                    return puzzle;
                }
                let better = match &best_puzzle {
                    None => true,
                    Some(_) => score > best_score,
                };
                if better {
                    best_score = score;
                    best_puzzle = Some(puzzle);
                    proof {
                        best_attempt = Some(attempt as int);
                    }
                }
            }
        }
        proof {
            assert(generated_solution_spec(w as int, h as int, rng_state_after(start, attempt as nat))
                == solution@);
        }
        candidate_seed = next_seed(candidate_seed);
        attempt = attempt + 1;
    }
    match best_puzzle {
        Some(puzzle) => {
            proof {
                lemma_picture_fits_its_clues(&puzzle);
            }
            return puzzle;
        },
        None => {},
    }
    let solution = fallback_solution(w, h, candidate_seed);
    let puzzle = build_nonogram_puzzle(w, h, candidate_seed, solution);
    proof {
        lemma_fallback_has_no_trivial_lines(w as int, h as int);
        lemma_nontrivial_lines_give_nontrivial_clues(&puzzle);
        lemma_picture_fits_its_clues(&puzzle);
    }
    puzzle
}

} // verus!
