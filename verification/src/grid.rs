//! Row-major grid arithmetic shared by the board games: cell indices, the
//! eight-cell neighbourhood of a cell, and counting over index lists.

use vstd::prelude::*;
use vstd::arithmetic::div_mod::lemma_fundamental_div_mod_converse;
use vstd::arithmetic::div_mod::lemma_fundamental_div_mod;
use vstd::arithmetic::div_mod::lemma_mod_bound;

verus! {

/// The cells of row `r` between columns `lo` and `hi` (inclusive), skipping the cell
/// `(row, col)` itself, listed from left to right.
pub open spec fn row_neighbors(w: int, row: int, col: int, r: int, lo: int, hi: int) -> Seq<usize>
    decreases hi - lo + 1,
{
    if hi < lo {
        seq![]
    } else {
        row_neighbors(w, row, col, r, lo, hi - 1) + if r == row && hi == col {
            Seq::<usize>::empty()
        } else {
            seq![(r * w + hi) as usize]
        }
    }
}

/// The cells of rows `r_lo..=r_hi` and columns `c_lo..=c_hi`, without `(row, col)`,
/// listed row by row.
pub open spec fn block_neighbors(
    w: int,
    row: int,
    col: int,
    r_lo: int,
    r_hi: int,
    c_lo: int,
    c_hi: int,
) -> Seq<usize>
    decreases r_hi - r_lo + 1,
{
    if r_hi < r_lo {
        seq![]
    } else {
        block_neighbors(w, row, col, r_lo, r_hi - 1, c_lo, c_hi) + row_neighbors(
            w,
            row,
            col,
            r_hi,
            c_lo,
            c_hi,
        )
    }
}

/// First row (or column) of the neighbourhood of coordinate `x`.
pub open spec fn axis_lo(x: int) -> int {
    if x > 0 {
        x - 1
    } else {
        0
    }
}

/// Last row (or column) of the neighbourhood of coordinate `x` on an axis of length `len`.
pub open spec fn axis_hi(x: int, len: int) -> int {
    if x + 1 < len - 1 {
        x + 1
    } else {
        len - 1
    }
}

/// The neighbours of cell `i` on a `w`-wide, `h`-high grid, in row-major order: the cells
/// of the surrounding 3x3 block that lie on the board, other than `i` itself.
pub open spec fn grid_neighbors(w: int, h: int, i: int) -> Seq<usize> {
    let row = i / w;
    let col = i % w;
    block_neighbors(w, row, col, axis_lo(row), axis_hi(row, h), axis_lo(col), axis_hi(col, w))
}

/// The neighbours of cell `i`, or nothing when `i` is off the `w` by `h` board.
pub open spec fn neighbor_seq(w: int, h: int, i: int) -> Seq<usize> {
    if w <= 0 || h <= 0 || i < 0 || i >= w * h {
        seq![]
    } else {
        grid_neighbors(w, h, i)
    }
}

/// How many of the listed cells are flagged in `flags`.
pub open spec fn count_flagged(flags: Seq<bool>, idxs: Seq<usize>) -> nat
    decreases idxs.len(),
{
    if idxs.len() == 0 {
        0
    } else {
        count_flagged(flags, idxs.drop_last()) + if flags[idxs.last() as int] {
            1nat
        } else {
            0nat
        }
    }
}

/// How many entries of `s` are `true`.
pub open spec fn count_true(s: Seq<bool>) -> nat
    decreases s.len(),
{
    if s.len() == 0 {
        0
    } else {
        count_true(s.drop_last()) + if s.last() {
            1nat
        } else {
            0nat
        }
    }
}

pub proof fn lemma_count_true_bound(s: Seq<bool>)
    ensures
        count_true(s) <= s.len(),
    decreases s.len(),
{
    if s.len() > 0 {
        lemma_count_true_bound(s.drop_last());
    }
}

/// Decomposes a cell at `(row, col)` back into its coordinates.
pub proof fn lemma_cell_index(w: int, h: int, row: int, col: int)
    requires
        0 <= row < h,
        0 <= col < w,
    ensures
        0 <= row * w + col < w * h,
        (row * w + col) / w == row,
        (row * w + col) % w == col,
{
    lemma_fundamental_div_mod_converse(row * w + col, w, row, col);
    assert(0 <= row * w) by (nonlinear_arith)
        requires
            0 <= row,
            0 < w,
    ;
    assert(row * w + col < w * h) by (nonlinear_arith)
        requires
            0 <= row < h,
            0 <= col < w,
    ;
}

/// Splits a cell index into row and column.
pub proof fn lemma_row_col(w: int, h: int, i: int)
    requires
        0 < w,
        0 < h,
        0 <= i < w * h,
    ensures
        0 <= i / w < h,
        0 <= i % w < w,
        i == (i / w) * w + i % w,
{
    lemma_fundamental_div_mod(i, w);
    lemma_mod_bound(i, w);
    assert(i == (i / w) * w + i % w) by (nonlinear_arith)
        requires
            i == w * (i / w) + (i % w),
    ;
    assert(0 <= i / w) by (nonlinear_arith)
        requires
            0 <= i,
            0 < w,
            i == w * (i / w) + (i % w),
            0 <= i % w < w,
    ;
    assert(i / w < h) by (nonlinear_arith)
        requires
            i < w * h,
            0 < w,
            i == w * (i / w) + (i % w),
            0 <= i % w < w,
    ;
}

/// Every listed neighbour of a row lies on the board.
pub proof fn lemma_row_neighbors_bound(w: int, h: int, row: int, col: int, r: int, lo: int, hi: int)
    requires
        0 <= r < h,
        0 <= lo,
        hi < w,
    ensures
        forall|k: int|
            0 <= k < row_neighbors(w, row, col, r, lo, hi).len() ==> (#[trigger] row_neighbors(
                w,
                row,
                col,
                r,
                lo,
                hi,
            )[k]) < w * h,
    decreases hi - lo + 1,
{
    if hi >= lo {
        lemma_row_neighbors_bound(w, h, row, col, r, lo, hi - 1);
        lemma_cell_index(w, h, r, hi);
        let s = row_neighbors(w, row, col, r, lo, hi);
        let p = row_neighbors(w, row, col, r, lo, hi - 1);
        assert forall|k: int| 0 <= k < s.len() implies (#[trigger] s[k]) < w * h by {
            if k < p.len() {
                assert(s[k] == p[k]);
            }
        }
    }
}

/// Every listed neighbour of a block lies on the board.
pub proof fn lemma_block_neighbors_bound(
    w: int,
    h: int,
    row: int,
    col: int,
    r_lo: int,
    r_hi: int,
    c_lo: int,
    c_hi: int,
)
    requires
        0 <= r_lo,
        r_hi < h,
        0 <= c_lo,
        c_hi < w,
    ensures
        forall|k: int|
            0 <= k < block_neighbors(w, row, col, r_lo, r_hi, c_lo, c_hi).len() ==> (
            #[trigger] block_neighbors(w, row, col, r_lo, r_hi, c_lo, c_hi)[k]) < w * h,
    decreases r_hi - r_lo + 1,
{
    if r_hi >= r_lo {
        lemma_block_neighbors_bound(w, h, row, col, r_lo, r_hi - 1, c_lo, c_hi);
        lemma_row_neighbors_bound(w, h, row, col, r_hi, c_lo, c_hi);
        let s = block_neighbors(w, row, col, r_lo, r_hi, c_lo, c_hi);
        let p = block_neighbors(w, row, col, r_lo, r_hi - 1, c_lo, c_hi);
        let q = row_neighbors(w, row, col, r_hi, c_lo, c_hi);
        assert forall|k: int| 0 <= k < s.len() implies (#[trigger] s[k]) < w * h by {
            if k < p.len() {
                assert(s[k] == p[k]);
            } else {
                assert(s[k] == q[k - p.len()]);
            }
        }
    }
}

/// A row of neighbours is listed left to right, inside its row.
proof fn lemma_row_neighbors_sorted(w: int, row: int, col: int, r: int, lo: int, hi: int)
    requires
        0 <= r,
        0 <= lo,
        hi < w,
        (r + 1) * w <= usize::MAX,
    ensures
        forall|a: int, b: int|
            0 <= a < b < row_neighbors(w, row, col, r, lo, hi).len() ==> row_neighbors(w, row, col, r, lo, hi)[a]
                < row_neighbors(w, row, col, r, lo, hi)[b],
        forall|k: int|
            0 <= k < row_neighbors(w, row, col, r, lo, hi).len() ==> r * w + lo <= #[trigger] row_neighbors(
                w,
                row,
                col,
                r,
                lo,
                hi,
            )[k] <= r * w + hi,
    decreases hi - lo + 1,
{
    if hi >= lo {
        lemma_row_neighbors_sorted(w, row, col, r, lo, hi - 1);
        let s = row_neighbors(w, row, col, r, lo, hi);
        let p = row_neighbors(w, row, col, r, lo, hi - 1);
        assert(r * w + hi <= (r + 1) * w) by (nonlinear_arith)
            requires
                hi < w,
        ;
        assert(0 <= r * w) by (nonlinear_arith)
            requires
                0 <= r,
                0 <= lo,
                lo <= hi < w,
        ;
        assert forall|k: int| 0 <= k < s.len() implies r * w + lo <= #[trigger] s[k] <= r * w + hi by {
            if k < p.len() {
                assert(s[k] == p[k]);
            }
        }
        assert forall|a: int, b: int| 0 <= a < b < s.len() implies s[a] < s[b] by {
            assert(s[a] == p[a]);
            if b < p.len() {
                assert(s[b] == p[b]);
            }
        }
    }
}

/// A block of neighbours is listed in increasing order, inside its rows.
proof fn lemma_block_neighbors_sorted(w: int, h: int, row: int, col: int, r_lo: int, r_hi: int, c_lo: int, c_hi: int)
    requires
        0 <= r_lo,
        r_hi < h,
        0 <= c_lo,
        c_hi < w,
        0 < w,
        w * h <= usize::MAX,
    ensures
        forall|a: int, b: int|
            0 <= a < b < block_neighbors(w, row, col, r_lo, r_hi, c_lo, c_hi).len() ==> block_neighbors(
                w,
                row,
                col,
                r_lo,
                r_hi,
                c_lo,
                c_hi,
            )[a] < block_neighbors(w, row, col, r_lo, r_hi, c_lo, c_hi)[b],
        forall|k: int|
            0 <= k < block_neighbors(w, row, col, r_lo, r_hi, c_lo, c_hi).len() ==> r_lo * w <= #[trigger] block_neighbors(
                w,
                row,
                col,
                r_lo,
                r_hi,
                c_lo,
                c_hi,
            )[k] < (r_hi + 1) * w,
    decreases r_hi - r_lo + 1,
{
    if r_hi >= r_lo {
        lemma_block_neighbors_sorted(w, h, row, col, r_lo, r_hi - 1, c_lo, c_hi);
        assert((r_hi + 1) * w <= w * h) by (nonlinear_arith)
            requires
                r_hi + 1 <= h,
                0 < w,
        ;
        assert((r_hi - 1 + 1) * w == r_hi * w);
        lemma_row_neighbors_sorted(w, row, col, r_hi, c_lo, c_hi);
        let s = block_neighbors(w, row, col, r_lo, r_hi, c_lo, c_hi);
        let p = block_neighbors(w, row, col, r_lo, r_hi - 1, c_lo, c_hi);
        let q = row_neighbors(w, row, col, r_hi, c_lo, c_hi);
        assert(r_lo * w <= r_hi * w) by (nonlinear_arith)
            requires
                r_lo <= r_hi,
                0 < w,
        ;
        assert((r_hi + 1) * w == r_hi * w + w) by (nonlinear_arith);
        assert forall|k: int| 0 <= k < s.len() implies r_lo * w <= #[trigger] s[k] < (r_hi + 1) * w by {
            if k < p.len() {
                assert(s[k] == p[k]);
            } else {
                assert(s[k] == q[k - p.len()]);
            }
        }
        assert forall|a: int, b: int| 0 <= a < b < s.len() implies s[a] < s[b] by {
            if b < p.len() {
                assert(s[a] == p[a] && s[b] == p[b]);
            } else if a < p.len() {
                assert(s[a] == p[a]);
                assert(s[b] == q[b - p.len()]);
            } else {
                assert(s[a] == q[a - p.len()]);
                assert(s[b] == q[b - p.len()]);
            }
        }
    }
}

/// The neighbours of a cell are listed in strictly increasing order.
pub proof fn lemma_neighbor_seq_sorted(w: int, h: int, i: int)
    requires
        w * h <= usize::MAX,
    ensures
        forall|a: int, b: int| 0 <= a < b < neighbor_seq(w, h, i).len() ==> neighbor_seq(w, h, i)[a] < neighbor_seq(w, h, i)[b],
{
    if !(w <= 0 || h <= 0 || i < 0 || i >= w * h) {
        lemma_row_col(w, h, i);
        let row = i / w;
        let col = i % w;
        lemma_block_neighbors_sorted(w, h, row, col, axis_lo(row), axis_hi(row, h), axis_lo(col), axis_hi(col, w));
    }
}

proof fn lemma_row_neighbors_len(w: int, row: int, col: int, r: int, lo: int, hi: int)
    requires
        hi - lo <= 2,
    ensures
        row_neighbors(w, row, col, r, lo, hi).len() <= 3,
        row_neighbors(w, row, col, r, lo, hi).len() <= if hi >= lo {
            hi - lo + 1
        } else {
            0
        },
    decreases hi - lo + 1,
{
    if hi >= lo {
        lemma_row_neighbors_len(w, row, col, r, lo, hi - 1);
    }
}

proof fn lemma_block_neighbors_len(w: int, row: int, col: int, r_lo: int, r_hi: int, c_lo: int, c_hi: int)
    requires
        c_hi - c_lo <= 2,
        r_lo - 1 <= r_hi,
    ensures
        block_neighbors(w, row, col, r_lo, r_hi, c_lo, c_hi).len() <= 3 * (r_hi - r_lo + 1),
    decreases r_hi - r_lo + 1,
{
    if r_hi >= r_lo {
        lemma_block_neighbors_len(w, row, col, r_lo, r_hi - 1, c_lo, c_hi);
        lemma_row_neighbors_len(w, row, col, r_hi, c_lo, c_hi);
    }
}

/// A cell has at most nine listed neighbours (in fact at most eight).
pub proof fn lemma_neighbor_seq_len(w: int, h: int, i: int)
    ensures
        neighbor_seq(w, h, i).len() <= 9,
{
    if !(w <= 0 || h <= 0 || i < 0 || i >= w * h) {
        lemma_row_col(w, h, i);
        let row = i / w;
        let col = i % w;
        lemma_block_neighbors_len(w, row, col, axis_lo(row), axis_hi(row, h), axis_lo(col), axis_hi(col, w));
    }
}

/// The cell at row `r` and column `c` of a `w`-wide grid.
pub open spec fn cell_at(w: int, r: int, c: int) -> int {
    r * w + c
}

proof fn lemma_row_neighbors_contains(w: int, h: int, row: int, col: int, r: int, lo: int, hi: int, y: usize)
    requires
        0 <= r < h,
        0 <= lo,
        hi < w,
        w * h <= usize::MAX,
    ensures
        row_neighbors(w, row, col, r, lo, hi).contains(y) <==> exists|c: int|
            lo <= c <= hi && !(r == row && c == col) && y as int == #[trigger] cell_at(w, r, c),
    decreases hi - lo + 1,
{
    if hi >= lo {
        lemma_row_neighbors_contains(w, h, row, col, r, lo, hi - 1, y);
        lemma_cell_index(w, h, r, hi);
        let s = row_neighbors(w, row, col, r, lo, hi);
        let p = row_neighbors(w, row, col, r, lo, hi - 1);
        if s.contains(y) {
            let k = choose|k: int| 0 <= k < s.len() && s[k] == y;
            if k < p.len() {
                assert(p[k] == y);
                assert(p.contains(y));
            } else {
                assert(y as int == cell_at(w, r, hi));
            }
        }
        if exists|c: int| lo <= c <= hi && !(r == row && c == col) && y as int == cell_at(w, r, c) {
            let c = choose|c: int| lo <= c <= hi && !(r == row && c == col) && y as int == cell_at(w, r, c);
            if c < hi {
                let k = choose|k: int| 0 <= k < p.len() && p[k] == y;
                assert(s[k] == y);
            } else {
                assert(s[p.len() as int] == y);
            }
        }
    } else {
        assert(row_neighbors(w, row, col, r, lo, hi) =~= Seq::<usize>::empty());
    }
}

proof fn lemma_block_neighbors_contains(
    w: int,
    h: int,
    row: int,
    col: int,
    r_lo: int,
    r_hi: int,
    c_lo: int,
    c_hi: int,
    y: usize,
)
    requires
        0 <= r_lo,
        r_hi < h,
        0 <= c_lo,
        c_hi < w,
        w * h <= usize::MAX,
    ensures
        block_neighbors(w, row, col, r_lo, r_hi, c_lo, c_hi).contains(y) <==> exists|r: int, c: int|
            r_lo <= r <= r_hi && c_lo <= c <= c_hi && !(r == row && c == col) && y as int == #[trigger] cell_at(w, r, c),
    decreases r_hi - r_lo + 1,
{
    if r_hi >= r_lo {
        lemma_block_neighbors_contains(w, h, row, col, r_lo, r_hi - 1, c_lo, c_hi, y);
        lemma_row_neighbors_contains(w, h, row, col, r_hi, c_lo, c_hi, y);
        let s = block_neighbors(w, row, col, r_lo, r_hi, c_lo, c_hi);
        let p = block_neighbors(w, row, col, r_lo, r_hi - 1, c_lo, c_hi);
        let q = row_neighbors(w, row, col, r_hi, c_lo, c_hi);
        assert(s == p + q);
        if s.contains(y) {
            let k = choose|k: int| 0 <= k < s.len() && s[k] == y;
            if k < p.len() {
                assert(p[k] == y);
                assert(p.contains(y));
            } else {
                assert(q[k - p.len()] == y);
                assert(q.contains(y));
            }
        }
        if exists|r: int, c: int| r_lo <= r <= r_hi && c_lo <= c <= c_hi && !(r == row && c == col) && y as int == cell_at(w, r, c) {
            let (r, c) = choose|r: int, c: int|
                r_lo <= r <= r_hi && c_lo <= c <= c_hi && !(r == row && c == col) && y as int == cell_at(w, r, c);
            if r < r_hi {
                assert(p.contains(y));
                let k = choose|k: int| 0 <= k < p.len() && p[k] == y;
                assert(s[k] == y);
            } else {
                assert(q.contains(y));
                let k = choose|k: int| 0 <= k < q.len() && q[k] == y;
                assert(s[p.len() + k] == y);
            }
        }
    } else {
        assert(block_neighbors(w, row, col, r_lo, r_hi, c_lo, c_hi) =~= Seq::<usize>::empty());
    }
}

/// The neighbours of cell `i` are exactly the other cells of the board at most one row and
/// one column away from it.
pub proof fn lemma_neighbor_seq_contains(w: int, h: int, i: int, j: int)
    requires
        w > 0,
        h > 0,
        w * h <= usize::MAX,
        0 <= i < w * h,
    ensures
        neighbor_seq(w, h, i).contains(j as usize) && 0 <= j <= usize::MAX <==> (0 <= j < w * h && j != i && -1 <= j / w
            - i / w <= 1 && -1 <= j % w - i % w <= 1),
{
    lemma_row_col(w, h, i);
    let row = i / w;
    let col = i % w;
    let r_lo = axis_lo(row);
    let r_hi = axis_hi(row, h);
    let c_lo = axis_lo(col);
    let c_hi = axis_hi(col, w);
    if 0 <= j <= usize::MAX {
        lemma_block_neighbors_contains(w, h, row, col, r_lo, r_hi, c_lo, c_hi, j as usize);
    }
    if 0 <= j <= usize::MAX && neighbor_seq(w, h, i).contains(j as usize) {
        let (r, c) = choose|r: int, c: int|
            r_lo <= r <= r_hi && c_lo <= c <= c_hi && !(r == row && c == col) && j == cell_at(w, r, c);
        lemma_cell_index(w, h, r, c);
        assert(i == row * w + col);
    }
    if 0 <= j < w * h && j != i && -1 <= j / w - i / w <= 1 && -1 <= j % w - i % w <= 1 {
        lemma_row_col(w, h, j);
        let r = j / w;
        let c = j % w;
        assert(j == r * w + c);
        assert(!(r == row && c == col));
        assert(r_lo <= r <= r_hi && c_lo <= c <= c_hi && !(r == row && c == col) && j == cell_at(w, r, c));
    }
}

/// Every neighbour of a cell lies on the board.
pub proof fn lemma_neighbor_seq_bound(w: int, h: int, i: int)
    ensures
        forall|k: int|
            0 <= k < neighbor_seq(w, h, i).len() ==> (#[trigger] neighbor_seq(w, h, i)[k]) < w
                * h,
{
    if !(w <= 0 || h <= 0 || i < 0 || i >= w * h) {
        lemma_row_col(w, h, i);
        let row = i / w;
        let col = i % w;
        lemma_block_neighbors_bound(
            w,
            h,
            row,
            col,
            axis_lo(row),
            axis_hi(row, h),
            axis_lo(col),
            axis_hi(col, w),
        );
    }
}

/// Lists the neighbours of cell `index` on a `width` by `height` board, row by row.
pub fn grid_neighbor_list(width: usize, height: usize, index: usize) -> (neighbors: Vec<usize>)
    requires
        width > 0,
        height > 0,
        width * height <= usize::MAX,
        index < width * height,
    ensures
        neighbors@ == neighbor_seq(width as int, height as int, index as int),
        forall|k: int|
            0 <= k < neighbors.len() ==> (#[trigger] neighbors@[k]) < width * height,
{
    proof {
        lemma_row_col(width as int, height as int, index as int);
        lemma_neighbor_seq_bound(width as int, height as int, index as int);
    }
    let row = index / width;
    let col = index % width;
    let row_start = if row > 0 {
        row - 1
    } else {
        0
    };
    let row_end = if row + 1 < height - 1 {
        row + 1
    } else {
        height - 1
    };
    let col_start = if col > 0 {
        col - 1
    } else {
        0
    };
    let col_end = if col + 1 < width - 1 {
        col + 1
    } else {
        width - 1
    };
    let ghost w = width as int;
    let ghost r = row as int;
    let ghost c = col as int;
    let mut neighbors: Vec<usize> = Vec::new();
    let mut next_row = row_start;
    while next_row <= row_end
        invariant
            width > 0,
            height > 0,
            width * height <= usize::MAX,
            row_start <= next_row <= row_end + 1,
            col_start <= col_end,
            row_end < height,
            col_end < width,
            w == width,
            r == row,
            c == col,
            neighbors@ == block_neighbors(
                w,
                r,
                c,
                row_start as int,
                next_row - 1,
                col_start as int,
                col_end as int,
            ),
        decreases row_end + 1 - next_row,
    {
        let mut next_col = col_start;
        while next_col <= col_end
            invariant
                width > 0,
                height > 0,
                width * height <= usize::MAX,
                row_start <= next_row <= row_end,
                col_start <= next_col <= col_end + 1,
                row_end < height,
                col_end < width,
                w == width,
                r == row,
                c == col,
                neighbors@ == block_neighbors(
                    w,
                    r,
                    c,
                    row_start as int,
                    next_row - 1,
                    col_start as int,
                    col_end as int,
                ) + row_neighbors(w, r, c, next_row as int, col_start as int, next_col - 1),
            decreases col_end + 1 - next_col,
        {
            proof {
                lemma_cell_index(w, height as int, next_row as int, next_col as int);
            }
            if !(next_row == row && next_col == col) {
                neighbors.push(next_row * width + next_col);
            }
            next_col += 1;
        }
        next_row += 1;
    }
    proof {
        let ns = neighbor_seq(width as int, height as int, index as int);
        assert forall|k: int| 0 <= k < neighbors.len() implies (#[trigger] neighbors@[k]) < width
            * height by {
            assert(neighbors@[k] == ns[k]);
        }
    }
    neighbors
}


/// Some cell already in `prefix` shows no neighbouring mines and has `x` as a neighbour,
/// so uncovering that cell uncovers `x` too.
pub open spec fn has_parent(w: int, h: int, adjacent: Seq<u8>, prefix: Seq<usize>, x: usize) -> bool {
    exists|j: int|
        0 <= j < prefix.len() && adjacent[prefix[j] as int] == 0 && #[trigger] neighbor_seq(
            w,
            h,
            prefix[j] as int,
        ).contains(x)
}

/// Cell `nb` is no further concern of a flood fill: it is a mine, was blocked to begin
/// with, has been uncovered, or still waits in `pending`.
pub open spec fn covered(
    mines: Seq<bool>,
    blocked: Seq<bool>,
    revealed: Seq<usize>,
    pending: Seq<usize>,
    nb: usize,
) -> bool {
    mines[nb as int] || blocked[nb as int] || revealed.contains(nb) || pending.contains(nb)
}

/// The `k`-th uncovered cell, if it shows no mines, leaves none of its neighbours uncovered
/// unless they are covered.
pub open spec fn expanded(
    w: int,
    h: int,
    mines: Seq<bool>,
    adjacent: Seq<u8>,
    blocked: Seq<bool>,
    revealed: Seq<usize>,
    pending: Seq<usize>,
    k: int,
) -> bool {
    adjacent[revealed[k] as int] == 0 ==> forall|t: int|
        0 <= t < neighbor_seq(w, h, revealed[k] as int).len() ==> covered(
            mines,
            blocked,
            revealed,
            pending,
            #[trigger] neighbor_seq(w, h, revealed[k] as int)[t],
        )
}

/// The `k`-th uncovered cell is one of the starting cells or was reached from an earlier
/// uncovered cell that shows no mines.
pub open spec fn derived(
    w: int,
    h: int,
    adjacent: Seq<u8>,
    starts: Seq<usize>,
    revealed: Seq<usize>,
    k: int,
) -> bool {
    starts.contains(revealed[k]) || has_parent(w, h, adjacent, revealed.take(k), revealed[k])
}

/// `revealed` lists, without repeats, exactly the cells a Minesweeper flood fill uncovers
/// from `starts`: every safe, unblocked start, and transitively every safe, unblocked
/// neighbour of an uncovered cell that shows no neighbouring mines.
pub open spec fn flood_fill_ok(
    w: int,
    h: int,
    mines: Seq<bool>,
    adjacent: Seq<u8>,
    blocked: Seq<bool>,
    starts: Seq<usize>,
    revealed: Seq<usize>,
) -> bool {
    &&& revealed.no_duplicates()
    &&& forall|k: int|
        0 <= k < revealed.len() ==> #[trigger] revealed[k] < w * h && !mines[revealed[k] as int]
            && !blocked[revealed[k] as int]
    &&& forall|s: int|
        0 <= s < starts.len() && #[trigger] starts[s] < w * h && !mines[starts[s] as int]
            && !blocked[starts[s] as int] ==> revealed.contains(starts[s])
    &&& forall|k: int| 0 <= k < revealed.len() ==> #[trigger] derived(w, h, adjacent, starts, revealed, k)
    &&& forall|k: int|
        0 <= k < revealed.len() ==> #[trigger] expanded(
            w,
            h,
            mines,
            adjacent,
            blocked,
            revealed,
            Seq::empty(),
            k,
        )
}

/// `blocked` with the listed cells added.
pub open spec fn block_more(blocked: Seq<bool>, extra: Seq<usize>) -> Seq<bool> {
    Seq::new(blocked.len(), |i: int| blocked[i] || extra.contains(i as usize))
}

/// Two flood fills in a row, the second started after the first's cells were uncovered,
/// together form one flood fill from both sets of starts.
pub proof fn lemma_flood_fill_compose(
    w: int,
    h: int,
    mines: Seq<bool>,
    adjacent: Seq<u8>,
    blocked: Seq<bool>,
    starts1: Seq<usize>,
    rev1: Seq<usize>,
    starts2: Seq<usize>,
    rev2: Seq<usize>,
)
    requires
        blocked.len() == w * h,
        mines.len() == w * h,
        flood_fill_ok(w, h, mines, adjacent, blocked, starts1, rev1),
        flood_fill_ok(w, h, mines, adjacent, block_more(blocked, rev1), starts2, rev2),
    ensures
        flood_fill_ok(w, h, mines, adjacent, blocked, starts1 + starts2, rev1 + rev2),
{
    let b1 = block_more(blocked, rev1);
    let starts = starts1 + starts2;
    let rev = rev1 + rev2;
    assert forall|k: int| 0 <= k < rev.len() implies #[trigger] rev[k] < w * h && !mines[rev[k] as int]
        && !blocked[rev[k] as int] by {
        if k >= rev1.len() {
            assert(rev2[k - rev1.len()] == rev[k]);
        } else {
            assert(rev1[k] == rev[k]);
        }
    }
    assert(rev.no_duplicates()) by {
        assert forall|a: int, b: int| 0 <= a < rev.len() && 0 <= b < rev.len() && a != b implies rev[a]
            != rev[b] by {
            if a < rev1.len() && b >= rev1.len() {
                assert(rev2[b - rev1.len()] == rev[b]);
                assert(rev1[a] == rev[a]);
                assert(rev1.contains(rev[a]));
                assert(b1[rev[b] as int] == false);
            } else if b < rev1.len() && a >= rev1.len() {
                assert(rev2[a - rev1.len()] == rev[a]);
                assert(rev1[b] == rev[b]);
                assert(rev1.contains(rev[b]));
                assert(b1[rev[a] as int] == false);
            } else if a < rev1.len() {
                assert(rev1[a] == rev[a] && rev1[b] == rev[b]);
            } else {
                assert(rev2[a - rev1.len()] == rev[a] && rev2[b - rev1.len()] == rev[b]);
            }
        }
    }
    assert forall|s: int|
        0 <= s < starts.len() && #[trigger] starts[s] < w * h && !mines[starts[s] as int]
            && !blocked[starts[s] as int] implies rev.contains(starts[s]) by {
        if s < starts1.len() {
            assert(starts1[s] == starts[s]);
            assert(rev1.contains(starts[s]));
            let k = choose|k: int| 0 <= k < rev1.len() && rev1[k] == starts[s];
            assert(rev[k] == starts[s]);
        } else {
            assert(starts2[s - starts1.len()] == starts[s]);
            if rev1.contains(starts[s]) {
                let k = choose|k: int| 0 <= k < rev1.len() && rev1[k] == starts[s];
                assert(rev[k] == starts[s]);
            } else {
                assert(!b1[starts[s] as int]);
                assert(rev2.contains(starts[s]));
                let k = choose|k: int| 0 <= k < rev2.len() && rev2[k] == starts[s];
                assert(rev[k + rev1.len()] == starts[s]);
            }
        }
    }
    assert forall|k: int| 0 <= k < rev.len() implies #[trigger] derived(w, h, adjacent, starts, rev, k) by {
        if k < rev1.len() {
            assert(derived(w, h, adjacent, starts1, rev1, k));
            assert(rev[k] == rev1[k]);
            assert(rev.take(k) == rev1.take(k));
            if starts1.contains(rev1[k]) {
                let s = choose|s: int| 0 <= s < starts1.len() && starts1[s] == rev1[k];
                assert(starts[s] == rev[k]);
            }
        } else {
            let k2 = k - rev1.len();
            assert(derived(w, h, adjacent, starts2, rev2, k2));
            assert(rev[k] == rev2[k2]);
            if starts2.contains(rev2[k2]) {
                let s = choose|s: int| 0 <= s < starts2.len() && starts2[s] == rev2[k2];
                assert(starts[s + starts1.len()] == rev[k]);
            } else {
                let p2 = rev2.take(k2);
                let j = choose|j: int|
                    0 <= j < p2.len() && adjacent[p2[j] as int] == 0 && #[trigger] neighbor_seq(
                        w,
                        h,
                        p2[j] as int,
                    ).contains(rev2[k2]);
                let p = rev.take(k);
                assert(p[j + rev1.len()] == p2[j]);
                assert(has_parent(w, h, adjacent, p, rev[k]));
            }
        }
    }
    assert forall|k: int| 0 <= k < rev.len() implies #[trigger] expanded(
        w,
        h,
        mines,
        adjacent,
        blocked,
        rev,
        Seq::empty(),
        k,
    ) by {
        let nbs = neighbor_seq(w, h, rev[k] as int);
        if adjacent[rev[k] as int] == 0 {
            assert forall|t: int| 0 <= t < nbs.len() implies covered(
                mines,
                blocked,
                rev,
                Seq::empty(),
                #[trigger] nbs[t],
            ) by {
                let nb = nbs[t];
                lemma_neighbor_seq_bound(w, h, rev[k] as int);
                if k < rev1.len() {
                    assert(rev1[k] == rev[k]);
                    assert(expanded(w, h, mines, adjacent, blocked, rev1, Seq::empty(), k));
                    assert(covered(mines, blocked, rev1, Seq::empty(), nb));
                    if rev1.contains(nb) {
                        let i = choose|i: int| 0 <= i < rev1.len() && rev1[i] == nb;
                        assert(rev[i] == nb);
                    }
                } else {
                    let k2 = k - rev1.len();
                    assert(rev2[k2] == rev[k]);
                    assert(expanded(w, h, mines, adjacent, b1, rev2, Seq::empty(), k2));
                    assert(covered(mines, b1, rev2, Seq::empty(), nb));
                    if rev2.contains(nb) {
                        let i = choose|i: int| 0 <= i < rev2.len() && rev2[i] == nb;
                        assert(rev[i + rev1.len()] == nb);
                    } else if rev1.contains(nb) {
                        let i = choose|i: int| 0 <= i < rev1.len() && rev1[i] == nb;
                        assert(rev[i] == nb);
                    }
                }
            }
        }
    }
}

/// Clearing one `true` entry lowers the count by one.
pub proof fn lemma_count_true_clear(s: Seq<bool>, i: int)
    requires
        0 <= i < s.len(),
        s[i],
    ensures
        count_true(s.update(i, false)) + 1 == count_true(s),
    decreases s.len(),
{
    let u = s.update(i, false);
    if i == s.len() - 1 {
        assert(u.drop_last() == s.drop_last());
    } else {
        lemma_count_true_clear(s.drop_last(), i);
        assert(u.drop_last() == s.drop_last().update(i, false));
    }
}


/// No listed cell is flagged, so none is counted.
pub proof fn lemma_count_flagged_none(flags: Seq<bool>, idxs: Seq<usize>)
    requires
        forall|k: int| 0 <= k < idxs.len() ==> !flags[#[trigger] idxs[k] as int],
    ensures
        count_flagged(flags, idxs) == 0,
    decreases idxs.len(),
{
    if idxs.len() > 0 {
        let p = idxs.drop_last();
        assert forall|k: int| 0 <= k < p.len() implies !flags[#[trigger] p[k] as int] by {
            assert(p[k] == idxs[k]);
        }
        lemma_count_flagged_none(flags, p);
    }
}

} // verus!
