//! Decides whether a Minesweeper layout can be cleared from a first reveal by deduction
//! alone, the way a careful player would: from the numbers around open cells, from pairs of
//! such constraints one of which contains the other, by enumerating the assignments of small
//! groups of linked cells, and from the total mine count.
//!
//! Every deduction is checked against the true layout before it is used, so the solver
//! never marks a mine as safe or a safe cell as a mine.

use vstd::prelude::*;
use crate::minesweeper::{MinesweeperBoard, adjacent_spec, indices_below, lemma_count_indices_below};
use vstd::arithmetic::power2::{pow2, lemma2_to64, lemma_pow2_pos, lemma_pow2_strictly_increases, lemma_pow2_unfold};
use crate::grid::{
    count_flagged, count_true, grid_neighbor_list, lemma_count_true_bound, lemma_count_true_clear, lemma_neighbor_seq_bound,
    lemma_neighbor_seq_len, lemma_neighbor_seq_sorted, neighbor_seq,
};

verus! {

/// Components with more unknown cells than this are not enumerated.
pub const MAX_COMPONENT_CELLS: usize = 32;

/// Enumeration of a component stops once it has found more assignments than this.
pub const MAX_COMPONENT_SOLUTIONS: usize = 100000;

/// A component of at most this many cells has too few assignments to reach the limit above,
/// so it is always enumerated.
pub const SMALL_COMPONENT_CELLS: usize = 16;

/// The sequence is strictly increasing, so it lists a set of cells in order.
pub open spec fn strictly_sorted(s: Seq<usize>) -> bool {
    forall|a: int, b: int| 0 <= a < b < s.len() ==> s[a] < s[b]
}

/// A constraint: exactly `mines` of the listed cells (a strictly increasing list) are mines.
pub struct Constraint {
    pub cells: Vec<usize>,
    pub mines: usize,
}

pub open spec fn constraint_ok(c: &Constraint, n: nat) -> bool {
    &&& strictly_sorted(c.cells@)
    &&& forall|k: int| 0 <= k < c.cells.len() ==> (#[trigger] c.cells@[k]) < n
}

pub open spec fn constraints_ok(cs: Seq<Constraint>, n: nat) -> bool {
    forall|k: int| 0 <= k < cs.len() ==> constraint_ok(&#[trigger] cs[k], n)
}

/// Cells found safe and cells found to be mines, one flag per cell.
pub struct Deductions {
    pub safe: Vec<bool>,
    pub mines: Vec<bool>,
}

pub open spec fn deductions_ok(d: &Deductions, n: nat) -> bool {
    d.safe.len() == n && d.mines.len() == n
}

/// The listed cells that `layout` makes mines.
pub open spec fn mines_among(layout: Seq<bool>, cells: Seq<usize>) -> Set<usize> {
    cells.to_set().filter(|x: usize| x < layout.len() && layout[x as int])
}

/// `layout` puts exactly the required number of mines on the constraint's cells.
pub open spec fn meets(layout: Seq<bool>, c: &Constraint) -> bool {
    mines_among(layout, c.cells@).len() == c.mines
}

/// `layout` meets every constraint of `cs`.
pub open spec fn meets_all(layout: Seq<bool>, cs: Seq<Constraint>) -> bool {
    forall|k: int| 0 <= k < cs.len() ==> meets(layout, &#[trigger] cs[k])
}

/// Every layout of `n` cells that meets all of `cs` meets `c` too.
pub open spec fn implied(c: &Constraint, cs: Seq<Constraint>, n: nat) -> bool {
    forall|layout: Seq<bool>| layout.len() == n && #[trigger] meets_all(layout, cs) ==> meets(layout, c)
}

/// Each flag holds in every layout of `n` cells that meets all of `cs`: a cell found safe is
/// no mine there, a cell found to be a mine is one.
pub open spec fn deductions_sound(d: &Deductions, cs: Seq<Constraint>, n: nat) -> bool {
    forall|layout: Seq<bool>, i: int|
        #![trigger meets_all(layout, cs), d.safe@[i]]
        #![trigger meets_all(layout, cs), d.mines@[i]]
        layout.len() == n && meets_all(layout, cs) && 0 <= i < n ==> (d.safe@[i] ==> !layout[i]) && (
        d.mines@[i] ==> layout[i])
}

/// Each listed constraint is met by every layout that meets the whole list.
proof fn lemma_listed_implied(cs: Seq<Constraint>, k: int, n: nat)
    requires
        0 <= k < cs.len(),
    ensures
        implied(&cs[k], cs, n),
{
}

proof fn lemma_sorted_no_duplicates(s: Seq<usize>)
    requires
        strictly_sorted(s),
    ensures
        s.no_duplicates(),
{
    assert forall|i: int, j: int| 0 <= i < s.len() && 0 <= j < s.len() && i != j implies s[i] != s[j] by {
        if i < j {
            assert(s[i] < s[j]);
        } else {
            assert(s[j] < s[i]);
        }
    }
}

proof fn lemma_mines_among_finite(layout: Seq<bool>, cells: Seq<usize>)
    ensures
        mines_among(layout, cells).finite(),
        mines_among(layout, cells).subset_of(cells.to_set()),
{
    vstd::seq_lib::seq_to_set_is_finite(cells);
    cells.to_set().lemma_len_filter(|x: usize| x < layout.len() && layout[x as int]);
}

/// A constraint with no mines leaves each of its cells safe.
proof fn lemma_no_mines_among(layout: Seq<bool>, cells: Seq<usize>, x: usize)
    requires
        mines_among(layout, cells).len() == 0,
        cells.contains(x),
        x < layout.len(),
    ensures
        !layout[x as int],
{
    lemma_mines_among_finite(layout, cells);
    if layout[x as int] {
        assert(mines_among(layout, cells).contains(x));
        vstd::set::axiom_set_contains_len(mines_among(layout, cells), x);
    }
}

/// A constraint with as many mines as cells makes each of its cells a mine.
proof fn lemma_all_mines_among(layout: Seq<bool>, cells: Seq<usize>, x: usize)
    requires
        strictly_sorted(cells),
        mines_among(layout, cells).len() == cells.len(),
        forall|k: int| 0 <= k < cells.len() ==> (#[trigger] cells[k]) < layout.len(),
        cells.contains(x),
    ensures
        layout[x as int],
{
    lemma_sorted_no_duplicates(cells);
    cells.unique_seq_to_set();
    vstd::seq_lib::seq_to_set_is_finite(cells);
    lemma_mines_among_finite(layout, cells);
    vstd::set_lib::lemma_subset_equality(mines_among(layout, cells), cells.to_set());
    assert(cells.to_set().contains(x));
    assert(mines_among(layout, cells).contains(x));
}

/// When the cells of `b` are those of `a` and those of `d`, with none in both, the mines on
/// `b` are the mines on `a` and those on `d`.
proof fn lemma_mines_among_split(layout: Seq<bool>, a: Seq<usize>, d: Seq<usize>, b: Seq<usize>)
    requires
        forall|x: usize| #[trigger] b.contains(x) <==> (a.contains(x) || d.contains(x)),
        forall|x: usize| !(#[trigger] a.contains(x) && d.contains(x)),
    ensures
        mines_among(layout, b).len() == mines_among(layout, a).len() + mines_among(layout, d).len(),
{
    lemma_mines_among_finite(layout, a);
    lemma_mines_among_finite(layout, d);
    let ma = mines_among(layout, a);
    let md = mines_among(layout, d);
    assert(mines_among(layout, b) =~= ma + md);
    assert(ma.disjoint(md));
    vstd::set_lib::lemma_set_disjoint_lens(ma, md);
}

fn new_flags(n: usize) -> (v: Vec<bool>)
    ensures
        v.len() == n,
        forall|i: int| 0 <= i < n ==> !#[trigger] v@[i],
{
    let mut v: Vec<bool> = Vec::new();
    let mut i: usize = 0;
    while i < n
        invariant
            i <= n,
            v.len() == i,
            forall|k: int| 0 <= k < i ==> !#[trigger] v@[k],
        decreases n - i,
    {
        v.push(false);
        i = i + 1;
    }
    v
}

fn new_deductions(n: usize) -> (d: Deductions)
    ensures
        deductions_ok(&d, n as nat),
        forall|i: int| #![trigger d.safe@[i]] 0 <= i < n ==> (!d.safe@[i] && !d.mines@[i]),
{
    Deductions { safe: new_flags(n), mines: new_flags(n) }
}

/// Whether nothing was deduced.
fn deductions_empty(d: &Deductions) -> (b: bool)
    requires
        d.safe.len() == d.mines.len(),
    ensures
        b == no_flags(d.safe@, d.mines@, d.safe.len() as int),
{
    let ghost sv = d.safe@;
    let ghost mv = d.mines@;
    let mut i: usize = 0;
    while i < d.safe.len()
        invariant
            sv == d.safe@,
            mv == d.mines@,
            sv.len() == mv.len(),
            d.safe.len() == sv.len(),
            i <= sv.len(),
            no_flags(sv, mv, i as int),
        decreases d.safe.len() - i,
    {
        if d.safe[i] || d.mines[i] {
            return false;
        }
        let ghost j = i;
        i = i + 1;
        proof {
            assert forall|k: int| 0 <= k < i implies !(#[trigger] sv[k]) && !mv[k] by {
                if k < j {
                    assert(no_flags(sv, mv, j as int));
                } else {
                    assert(k == j);
                }
            }
        }
    }
    true
}

/// Neither list has a flag set before `end`.
pub open spec fn no_flags(safe: Seq<bool>, mines: Seq<bool>, end: int) -> bool {
    forall|k: int| 0 <= k < end ==> !(#[trigger] safe[k]) && !mines[k]
}

/// Whether a strictly increasing list holds `x` (binary search).
fn sorted_contains(v: &Vec<usize>, x: usize) -> (b: bool)
    requires
        strictly_sorted(v@),
    ensures
        b == v@.contains(x),
{
    let mut lo: usize = 0;
    let mut hi: usize = v.len();
    while lo < hi
        invariant
            strictly_sorted(v@),
            lo <= hi <= v.len(),
            forall|k: int| 0 <= k < lo ==> v@[k] < x,
            forall|k: int| hi <= k < v.len() ==> v@[k] > x,
        decreases hi - lo,
    {
        let mid = lo + (hi - lo) / 2;
        if v[mid] == x {
            return true;
        } else if v[mid] < x {
            lo = mid + 1;
        } else {
            hi = mid;
        }
    }
    proof {
        if v@.contains(x) {
            let k = choose|k: int| 0 <= k < v.len() && v@[k] == x;
            assert(k < lo || k >= hi);
        }
    }
    false
}

/// Whether every cell of `a` is in `b`.
fn is_subset(a: &Vec<usize>, b: &Vec<usize>) -> (r: bool)
    requires
        strictly_sorted(b@),
    ensures
        r == forall|k: int| 0 <= k < a.len() ==> b@.contains(#[trigger] a@[k]),
{
    let mut i: usize = 0;
    while i < a.len()
        invariant
            strictly_sorted(b@),
            i <= a.len(),
            forall|k: int| 0 <= k < i ==> b@.contains(#[trigger] a@[k]),
        decreases a.len() - i,
    {
        if !sorted_contains(b, a[i]) {
            return false;
        }
        i = i + 1;
    }
    true
}

/// Whether two lists are equal.
fn same_cells(a: &Vec<usize>, b: &Vec<usize>) -> (r: bool)
    ensures
        r == (a@ == b@),
{
    if a.len() != b.len() {
        return false;
    }
    let mut i: usize = 0;
    while i < a.len()
        invariant
            a.len() == b.len(),
            i <= a.len(),
            forall|k: int| 0 <= k < i ==> a@[k] == b@[k],
        decreases a.len() - i,
    {
        if a[i] != b[i] {
            return false;
        }
        i = i + 1;
    }
    proof {
        assert(a@ =~= b@);
    }
    true
}

/// The cells of `sup` that are not in `sub`, in increasing order.
fn difference(sup: &Vec<usize>, sub: &Vec<usize>) -> (d: Vec<usize>)
    requires
        strictly_sorted(sup@),
        strictly_sorted(sub@),
    ensures
        strictly_sorted(d@),
        forall|x: usize| d@.contains(x) <==> (sup@.contains(x) && !sub@.contains(x)),
{
    let mut d: Vec<usize> = Vec::new();
    let mut i: usize = 0;
    while i < sup.len()
        invariant
            strictly_sorted(sup@),
            strictly_sorted(sub@),
            i <= sup.len(),
            strictly_sorted(d@),
            forall|k: int| 0 <= k < d.len() ==> exists|j: int| 0 <= j < i && #[trigger] d@[k] == sup@[j],
            forall|x: usize|
                d@.contains(x) <==> (sup@.take(i as int).contains(x) && !sub@.contains(x)),
        decreases sup.len() - i,
    {
        let x = sup[i];
        let ghost old_d = d@;
        if !sorted_contains(sub, x) {
            proof {
                assert forall|k: int| 0 <= k < old_d.len() implies old_d[k] < x by {
                    let j = choose|j: int| 0 <= j < i && #[trigger] old_d[k] == sup@[j];
                }
            }
            d.push(x);
        }
        proof {
            let t0 = sup@.take(i as int);
            let t1 = sup@.take(i + 1);
            assert(t1 == t0.push(x));
            assert forall|k: int| 0 <= k < d.len() implies exists|j: int| 0 <= j < i + 1 && #[trigger] d@[k] == sup@[j] by {
                if k < old_d.len() {
                    assert(d@[k] == old_d[k]);
                    let j = choose|j: int| 0 <= j < i && #[trigger] old_d[k] == sup@[j];
                } else {
                    assert(d@[k] == sup@[i as int]);
                }
            }
            assert forall|y: usize| d@.contains(y) <==> (t1.contains(y) && !sub@.contains(y)) by {
                if d@.contains(y) {
                    let k = choose|k: int| 0 <= k < d.len() && d@[k] == y;
                    if k < old_d.len() {
                        assert(old_d[k] == y);
                        assert(old_d.contains(y));
                        assert(t0.contains(y));
                        let j = choose|j: int| 0 <= j < t0.len() && t0[j] == y;
                        assert(t1[j] == y);
                    } else {
                        assert(t1[i as int] == y);
                    }
                }
                if t1.contains(y) && !sub@.contains(y) {
                    let j = choose|j: int| 0 <= j < t1.len() && t1[j] == y;
                    if j < i {
                        assert(t0[j] == y);
                        assert(old_d.contains(y));
                        let k = choose|k: int| 0 <= k < old_d.len() && old_d[k] == y;
                        assert(d@[k] == y);
                    } else {
                        assert(d@[d.len() - 1] == y);
                    }
                }
            }
        }
        i = i + 1;
    }
    proof {
        assert(sup@.take(i as int) == sup@);
    }
    d
}

/// An equal constraint is in the list.
spec fn listed(cs: Seq<Constraint>, c: &Constraint) -> bool {
    exists|k: int| 0 <= k < cs.len() && (#[trigger] cs[k]).cells@ == c.cells@ && cs[k].mines == c.mines
}

/// Adds a constraint unless it has no cells or an equal one is already listed.
fn push_constraint(constraints: &mut Vec<Constraint>, constraint: Constraint)
    ensures
        constraint.cells.len() == 0 || listed(old(constraints)@, &constraint) ==> final(constraints)@
            == old(constraints)@,
        !(constraint.cells.len() == 0 || listed(old(constraints)@, &constraint))
            ==> final(constraints)@ == old(constraints)@.push(constraint),
{
    if constraint.cells.len() == 0 {
        return;
    }
    let mut k: usize = 0;
    while k < constraints.len()
        invariant
            k <= constraints.len(),
            constraints@ == old(constraints)@,
            forall|j: int|
                0 <= j < k ==> !(#[trigger] constraints@[j].cells@ == constraint.cells@
                    && constraints@[j].mines == constraint.mines),
        decreases constraints.len() - k,
    {
        if constraints[k].mines == constraint.mines && same_cells(&constraints[k].cells, &constraint.cells) {
            return;
        }
        k = k + 1;
    }
    constraints.push(constraint);
}

/// Records what a single constraint settles on its own: no mines left makes every cell
/// safe, as many mines as cells makes every cell a mine. Fails on an impossible constraint.
fn collect_direct_deductions(
    constraint: &Constraint,
    deductions: &mut Deductions,
    n: usize,
    Ghost(cs): Ghost<Seq<Constraint>>,
) -> (ok: bool)
    requires
        constraint_ok(constraint, n as nat),
        deductions_ok(old(deductions), n as nat),
        deductions_sound(old(deductions), cs, n as nat),
        implied(constraint, cs, n as nat),
    ensures
        deductions_ok(final(deductions), n as nat),
        deductions_sound(final(deductions), cs, n as nat),
        ok == (constraint.mines <= constraint.cells.len()),
        forall|i: int|
            0 <= i < n ==> #[trigger] final(deductions).safe@[i] == (old(deductions).safe@[i] || (ok
                && constraint.mines == 0 && constraint.cells@.contains(i as usize))),
        forall|i: int|
            0 <= i < n ==> #[trigger] final(deductions).mines@[i] == (old(deductions).mines@[i] || (ok
                && constraint.mines != 0 && constraint.mines == constraint.cells.len()
                && constraint.cells@.contains(i as usize))),
{
    if constraint.mines > constraint.cells.len() {
        return false;
    }
    let all_safe = constraint.mines == 0;
    let all_mines = !all_safe && constraint.mines == constraint.cells.len();
    let mut k: usize = 0;
    while k < constraint.cells.len()
        invariant
            constraint_ok(constraint, n as nat),
            deductions_ok(deductions, n as nat),
            k <= constraint.cells.len(),
            all_safe == (constraint.mines == 0),
            all_mines == (constraint.mines != 0 && constraint.mines == constraint.cells.len()),
            forall|i: int|
                0 <= i < n ==> #[trigger] deductions.safe@[i] == (old(deductions).safe@[i] || (all_safe
                    && constraint.cells@.take(k as int).contains(i as usize))),
            forall|i: int|
                0 <= i < n ==> #[trigger] deductions.mines@[i] == (old(deductions).mines@[i] || (all_mines
                    && constraint.cells@.take(k as int).contains(i as usize))),
        decreases constraint.cells.len() - k,
    {
        let cell = constraint.cells[k];
        if all_safe {
            deductions.safe.set(cell, true);
        } else if all_mines {
            deductions.mines.set(cell, true);
        }
        proof {
            let t0 = constraint.cells@.take(k as int);
            let t1 = constraint.cells@.take(k + 1);
            assert(t1 == t0.push(cell));
            assert forall|x: usize| t1.contains(x) <==> (t0.contains(x) || x == cell) by {
                if t1.contains(x) && x != cell {
                    let j = choose|j: int| 0 <= j < t1.len() && t1[j] == x;
                    assert(t0[j] == x);
                }
                if t0.contains(x) {
                    let j = choose|j: int| 0 <= j < t0.len() && t0[j] == x;
                    assert(t1[j] == x);
                }
                if x == cell {
                    assert(t1[k as int] == x);
                }
            }
        }
        k = k + 1;
    }
    proof {
        assert(constraint.cells@.take(k as int) == constraint.cells@);
        assert forall|layout: Seq<bool>, i: int|
            layout.len() == n && meets_all(layout, cs) && 0 <= i < n implies (deductions.safe@[i]
                ==> !layout[i]) && (deductions.mines@[i] ==> layout[i]) by {
            assert(meets(layout, constraint));
            if deductions.safe@[i] && !old(deductions).safe@[i] {
                lemma_no_mines_among(layout, constraint.cells@, i as usize);
            }
            if deductions.mines@[i] && !old(deductions).mines@[i] {
                lemma_all_mines_among(layout, constraint.cells@, i as usize);
            }
        }
    }
    true
}

/// Records what the cells of `superset` outside `subset` must hold: the difference of the
/// two mine counts. Fails when the subset needs more mines than the superset.
fn collect_difference_deductions(
    subset: &Constraint,
    superset: &Constraint,
    deductions: &mut Deductions,
    n: usize,
    Ghost(cs): Ghost<Seq<Constraint>>,
) -> (ok: bool)
    requires
        constraint_ok(subset, n as nat),
        constraint_ok(superset, n as nat),
        forall|k: int| 0 <= k < subset.cells.len() ==> superset.cells@.contains(#[trigger] subset.cells@[k]),
        deductions_ok(old(deductions), n as nat),
        deductions_sound(old(deductions), cs, n as nat),
        implied(subset, cs, n as nat),
        implied(superset, cs, n as nat),
    ensures
        deductions_ok(final(deductions), n as nat),
        deductions_sound(final(deductions), cs, n as nat),
        ok == !difference_fails(subset, superset),
        ok ==> forall|i: int|
            0 <= i < n ==> #[trigger] final(deductions).safe@[i] == (old(deductions).safe@[i] || (superset.mines
                == subset.mines && superset.cells@.contains(i as usize) && !subset.cells@.contains(i as usize))),
        ok ==> forall|i: int|
            0 <= i < n ==> #[trigger] final(deductions).mines@[i] == (old(deductions).mines@[i] || (superset.mines
                != subset.mines && superset.mines - subset.mines == outside_count(subset, superset)
                && superset.cells@.contains(i as usize) && !subset.cells@.contains(i as usize))),
{
    if superset.mines < subset.mines {
        return false;
    }
    let mine_difference = superset.mines - subset.mines;
    let cell_difference = difference(&superset.cells, &subset.cells);
    proof {
        assert forall|k: int| 0 <= k < cell_difference.len() implies (#[trigger] cell_difference@[k]) < n by {
            assert(cell_difference@.contains(cell_difference@[k]));
            let j = choose|j: int| 0 <= j < superset.cells.len() && superset.cells@[j] == cell_difference@[k];
        }
    }
    let remainder = Constraint { cells: cell_difference, mines: mine_difference };
    proof {
        assert forall|layout: Seq<bool>| layout.len() == n && #[trigger] meets_all(layout, cs) implies meets(
            layout,
            &remainder,
        ) by {
            assert(meets(layout, subset));
            assert(meets(layout, superset));
            assert forall|x: usize| #[trigger] superset.cells@.contains(x) <==> (subset.cells@.contains(x)
                || remainder.cells@.contains(x)) by {
                if subset.cells@.contains(x) {
                    let k = choose|k: int| 0 <= k < subset.cells.len() && subset.cells@[k] == x;
                    assert(superset.cells@.contains(subset.cells@[k]));
                }
            }
            lemma_mines_among_split(layout, subset.cells@, remainder.cells@, superset.cells@);
        }
    }
    proof {
        let outside = superset.cells@.to_set().difference(subset.cells@.to_set());
        assert(remainder.cells@.to_set() =~= outside);
        lemma_sorted_no_duplicates(remainder.cells@);
        remainder.cells@.unique_seq_to_set();
        assert(remainder.cells.len() == outside_count(subset, superset));
    }
    collect_direct_deductions(&remainder, deductions, n, Ghost(cs))
}

/// How many cells of `sup` are not cells of `sub`.
pub open spec fn outside_count(sub: &Constraint, sup: &Constraint) -> nat {
    sup.cells@.to_set().difference(sub.cells@.to_set()).len()
}

/// The cells of `sup` outside `sub` cannot hold the mines `sup` has over `sub`: `sub` needs
/// more mines than `sup`, or more remain than there are such cells.
pub open spec fn difference_fails(sub: &Constraint, sup: &Constraint) -> bool {
    !(sub.mines <= sup.mines && sup.mines - sub.mines <= outside_count(sub, sup))
}

/// Every cell of `a` is a cell of `b`.
pub open spec fn cells_within(a: &Constraint, b: &Constraint) -> bool {
    forall|k: int| 0 <= k < a.cells.len() ==> b.cells@.contains(#[trigger] a.cells@[k])
}

/// Two constraints over different cells, one inside the other, whose difference cannot hold
/// its mines.
pub open spec fn pair_fails(l: &Constraint, r: &Constraint) -> bool {
    &&& l.cells@ != r.cells@
    &&& if cells_within(l, r) {
        difference_fails(l, r)
    } else if cells_within(r, l) {
        difference_fails(r, l)
    } else {
        false
    }
}

/// The single-constraint rules: every cell of a constraint with no mine is safe, every cell
/// of one with as many mines as cells is a mine.
pub open spec fn direct_safe(c: &Constraint, x: usize) -> bool {
    c.mines == 0 && c.cells@.contains(x)
}

pub open spec fn direct_mine(c: &Constraint, x: usize) -> bool {
    c.mines != 0 && c.mines == c.cells.len() && c.cells@.contains(x)
}

/// The subset rules: when the cells of `sub` are some of the cells of `sup`, the other cells
/// of `sup` are all safe if both have the same mine count, and all mines if they hold all
/// the mines `sup` has over `sub`.
pub open spec fn subset_safe(sub: &Constraint, sup: &Constraint, x: usize) -> bool {
    &&& sub.cells@ != sup.cells@
    &&& cells_within(sub, sup)
    &&& sup.mines == sub.mines
    &&& sup.cells@.contains(x)
    &&& !sub.cells@.contains(x)
}

pub open spec fn subset_mine(sub: &Constraint, sup: &Constraint, x: usize) -> bool {
    &&& sub.cells@ != sup.cells@
    &&& cells_within(sub, sup)
    &&& sup.mines != sub.mines
    &&& sup.mines - sub.mines == outside_count(sub, sup)
    &&& sup.cells@.contains(x)
    &&& !sub.cells@.contains(x)
}

/// Every flag of `a` is set in `b`.
spec fn flags_grow(a: &Deductions, b: &Deductions, n: nat) -> bool {
    forall|i: int|
        #![trigger b.safe@[i]]
        #![trigger b.mines@[i]]
        0 <= i < n ==> (a.safe@[i] ==> b.safe@[i]) && (a.mines@[i] ==> b.mines@[i])
}

/// The single-constraint rules on `c` are all recorded in `d`.
spec fn direct_done(d: &Deductions, c: &Constraint, n: nat) -> bool {
    forall|x: usize|
        #![trigger direct_safe(c, x)]
        #![trigger direct_mine(c, x)]
        x < n ==> (direct_safe(c, x) ==> d.safe@[x as int]) && (direct_mine(c, x) ==> d.mines@[x as int])
}

/// The subset rules on `a` inside `b` are all recorded in `d`.
spec fn pair_done(d: &Deductions, a: &Constraint, b: &Constraint, n: nat) -> bool {
    forall|x: usize|
        #![trigger subset_safe(a, b, x)]
        #![trigger subset_mine(a, b, x)]
        x < n ==> (subset_safe(a, b, x) ==> d.safe@[x as int]) && (subset_mine(a, b, x) ==> d.mines@[x as int])
}

/// Both subset rules on the `l`-th and `r`-th constraints, either way round, are recorded.
spec fn pairs_done(d: &Deductions, cs: Seq<Constraint>, l: int, r: int, n: nat) -> bool {
    pair_done(d, &cs[l], &cs[r], n) && pair_done(d, &cs[r], &cs[l], n)
}

proof fn lemma_done_grow(d1: &Deductions, d2: &Deductions, a: &Constraint, b: &Constraint, n: nat)
    requires
        flags_grow(d1, d2, n),
    ensures
        direct_done(d1, a, n) ==> direct_done(d2, a, n),
        pair_done(d1, a, b, n) ==> pair_done(d2, a, b, n),
{
    if direct_done(d1, a, n) {
        assert forall|x: usize| x < n implies (#[trigger] direct_safe(a, x) ==> d2.safe@[x as int]) && (direct_mine(a, x)
            ==> d2.mines@[x as int]) by {
            assert(flags_grow(d1, d2, n));
        }
    }
    if pair_done(d1, a, b, n) {
        assert forall|x: usize| x < n implies (#[trigger] subset_safe(a, b, x) ==> d2.safe@[x as int]) && (subset_mine(
            a,
            b,
            x,
        ) ==> d2.mines@[x as int]) by {
            assert(flags_grow(d1, d2, n));
        }
    }
}

/// Two strictly increasing lists of the same cells are the same list.
proof fn lemma_sorted_same_cells(a: Seq<usize>, b: Seq<usize>)
    requires
        strictly_sorted(a),
        strictly_sorted(b),
        forall|k: int| 0 <= k < a.len() ==> b.contains(#[trigger] a[k]),
        forall|k: int| 0 <= k < b.len() ==> a.contains(#[trigger] b[k]),
    ensures
        a == b,
{
    lemma_sorted_no_duplicates(a);
    lemma_sorted_no_duplicates(b);
    assert(a.to_set() =~= b.to_set()) by {
        assert forall|x: usize| a.to_set().contains(x) <==> b.to_set().contains(x) by {
            if a.contains(x) {
                let k = choose|k: int| 0 <= k < a.len() && a[k] == x;
                assert(b.contains(a[k]));
            }
            if b.contains(x) {
                let k = choose|k: int| 0 <= k < b.len() && b[k] == x;
                assert(a.contains(b[k]));
            }
        }
    }
    a.unique_seq_to_set();
    b.unique_seq_to_set();
    assert forall|i: int| 0 <= i < a.len() implies a[i] == b[i] by {
        lemma_sorted_same_prefix(a, b, i);
    }
    assert(a =~= b);
}

proof fn lemma_sorted_same_prefix(a: Seq<usize>, b: Seq<usize>, i: int)
    requires
        strictly_sorted(a),
        strictly_sorted(b),
        a.len() == b.len(),
        forall|k: int| 0 <= k < a.len() ==> b.contains(#[trigger] a[k]),
        forall|k: int| 0 <= k < b.len() ==> a.contains(#[trigger] b[k]),
        0 <= i < a.len(),
    ensures
        forall|k: int| 0 <= k <= i ==> a[k] == b[k],
    decreases i,
{
    if i > 0 {
        lemma_sorted_same_prefix(a, b, i - 1);
    }
    assert(b.contains(a[i]));
    let j = choose|j: int| 0 <= j < b.len() && b[j] == a[i];
    assert(a.contains(b[i]));
    let j2 = choose|j2: int| 0 <= j2 < a.len() && a[j2] == b[i];
    if j < i {
        assert(b[j] == a[j]);
    }
    if j2 < i {
        assert(a[j2] == b[j2]);
    }
    if j > i && j2 > i {
        assert(b[i] < b[j]);
        assert(a[i] < a[j2]);
    }
}

/// Deductions from single constraints and from pairs where one constraint's cells contain
/// the other's.
fn simple_deductions(constraints: &Vec<Constraint>, n: usize) -> (d: Option<Deductions>)
    requires
        constraints_ok(constraints@, n as nat),
    ensures
        d matches Some(dd) ==> deductions_ok(&dd, n as nat),
        d matches Some(dd) ==> deductions_sound(&dd, constraints@, n as nat),
        d is None <==> (exists|k: int| 0 <= k < constraints.len() && #[trigger] constraints@[k].mines
            > constraints@[k].cells.len()) || (exists|l: int, r: int|
            0 <= l < r < constraints.len() && #[trigger] pair_fails(&constraints@[l], &constraints@[r])),
        d matches Some(dd) ==> forall|k: int|
            0 <= k < constraints.len() ==> #[trigger] direct_done(&dd, &constraints@[k], n as nat),
        d matches Some(dd) ==> forall|l: int, r: int|
            0 <= l < constraints.len() && 0 <= r < constraints.len() ==> #[trigger] pair_done(
                &dd,
                &constraints@[l],
                &constraints@[r],
                n as nat,
            ),
{
    let ghost cs = constraints@;
    let mut deductions = new_deductions(n);
    proof {
        assert forall|layout: Seq<bool>, i: int|
            layout.len() == n && meets_all(layout, cs) && 0 <= i < n implies (deductions.safe@[i] ==> !layout[i]) && (
            deductions.mines@[i] ==> layout[i]) by {
            assert(!deductions.safe@[i]);
        }
    }
    let mut k: usize = 0;
    while k < constraints.len()
        invariant
            cs == constraints@,
            constraints_ok(constraints@, n as nat),
            deductions_ok(&deductions, n as nat),
            deductions_sound(&deductions, cs, n as nat),
            k <= constraints.len(),
            forall|j: int| 0 <= j < k ==> !(#[trigger] constraints@[j].mines > constraints@[j].cells.len()),
            forall|j: int| 0 <= j < k ==> #[trigger] direct_done(&deductions, &cs[j], n as nat),
        decreases constraints.len() - k,
    {
        proof {
            lemma_listed_implied(cs, k as int, n as nat);
        }
        let ghost db = deductions;
        if !collect_direct_deductions(&constraints[k], &mut deductions, n, Ghost(cs)) {
            proof {
                assert(constraints@[k as int].mines > constraints@[k as int].cells.len());
            }
            return None;
        }
        proof {
            assert(flags_grow(&db, &deductions, n as nat));
            assert forall|j: int| 0 <= j < k + 1 implies #[trigger] direct_done(&deductions, &cs[j], n as nat) by {
                if j < k {
                    lemma_done_grow(&db, &deductions, &cs[j], &cs[j], n as nat);
                }
            }
        }
        k = k + 1;
    }
    let mut left_index: usize = 0;
    while left_index < constraints.len()
        invariant
            cs == constraints@,
            constraints_ok(constraints@, n as nat),
            deductions_ok(&deductions, n as nat),
            deductions_sound(&deductions, cs, n as nat),
            left_index <= constraints.len(),
            forall|j: int| 0 <= j < constraints.len() ==> !(#[trigger] constraints@[j].mines > constraints@[j].cells.len()),
            forall|l: int, r: int| 0 <= l < left_index && l < r < constraints.len() ==> !#[trigger] pair_fails(&constraints@[l], &constraints@[r]),
            forall|j: int| 0 <= j < constraints.len() ==> #[trigger] direct_done(&deductions, &cs[j], n as nat),
            forall|l: int, r: int|
                0 <= l < left_index && l < r < constraints.len() ==> #[trigger] pairs_done(&deductions, cs, l, r, n as nat),
        decreases constraints.len() - left_index,
    {
        let mut right_index: usize = left_index + 1;
        while right_index < constraints.len()
            invariant
                cs == constraints@,
                constraints_ok(constraints@, n as nat),
                deductions_ok(&deductions, n as nat),
                deductions_sound(&deductions, cs, n as nat),
                left_index < constraints.len(),
                left_index + 1 <= right_index <= constraints.len(),
                forall|j: int| 0 <= j < constraints.len() ==> !(#[trigger] constraints@[j].mines > constraints@[j].cells.len()),
                forall|l: int, r: int| 0 <= l < left_index && l < r < constraints.len() ==> !#[trigger] pair_fails(&constraints@[l], &constraints@[r]),
                forall|r: int| left_index < r < right_index ==> !#[trigger] pair_fails(&constraints@[left_index as int], &constraints@[r]),
                forall|j: int| 0 <= j < constraints.len() ==> #[trigger] direct_done(&deductions, &cs[j], n as nat),
                forall|l: int, r: int|
                    0 <= l < left_index && l < r < constraints.len() ==> #[trigger] pairs_done(&deductions, cs, l, r, n as nat),
                forall|r: int| left_index < r < right_index ==> #[trigger] pairs_done(&deductions, cs, left_index as int, r, n as nat),
            decreases constraints.len() - right_index,
        {
            let left = &constraints[left_index];
            let right = &constraints[right_index];
            let ghost db = deductions;
            proof {
                lemma_listed_implied(cs, left_index as int, n as nat);
                lemma_listed_implied(cs, right_index as int, n as nat);
            }
            if !same_cells(&left.cells, &right.cells) {
                if is_subset(&left.cells, &right.cells) {
                    if !collect_difference_deductions(left, right, &mut deductions, n, Ghost(cs)) {
                        proof {
                            assert(pair_fails(&constraints@[left_index as int], &constraints@[right_index as int]));
                        }
                        return None;
                    }
                } else if is_subset(&right.cells, &left.cells) {
                    if !collect_difference_deductions(right, left, &mut deductions, n, Ghost(cs)) {
                        proof {
                            assert(pair_fails(&constraints@[left_index as int], &constraints@[right_index as int]));
                        }
                        return None;
                    }
                }
            }
            proof {
                assert(!pair_fails(&constraints@[left_index as int], &constraints@[right_index as int]));
                let li = left_index as int;
                let ri = right_index as int;
                assert(flags_grow(&db, &deductions, n as nat));
                assert forall|j: int| 0 <= j < constraints.len() implies #[trigger] direct_done(&deductions, &cs[j], n as nat) by {
                    lemma_done_grow(&db, &deductions, &cs[j], &cs[j], n as nat);
                }
                assert forall|l: int, r: int|
                    0 <= l < left_index && l < r < constraints.len() implies #[trigger] pairs_done(&deductions, cs, l, r, n as nat) by {
                    assert(pairs_done(&db, cs, l, r, n as nat));
                    lemma_done_grow(&db, &deductions, &cs[l], &cs[r], n as nat);
                    lemma_done_grow(&db, &deductions, &cs[r], &cs[l], n as nat);
                }
                let a = cs[li];
                let b = cs[ri];
                assert(constraint_ok(&a, n as nat) && constraint_ok(&b, n as nat));
                if cells_within(&a, &b) && cells_within(&b, &a) {
                    lemma_sorted_same_cells(a.cells@, b.cells@);
                }
                assert(pair_done(&deductions, &a, &b, n as nat) && pair_done(&deductions, &b, &a, n as nat));
                assert(pairs_done(&deductions, cs, li, ri, n as nat));
                assert forall|r: int| left_index < r < right_index + 1 implies #[trigger] pairs_done(&deductions, cs, li, r, n as nat) by {
                    if r < right_index {
                        assert(pairs_done(&db, cs, li, r, n as nat));
                        lemma_done_grow(&db, &deductions, &cs[li], &cs[r], n as nat);
                        lemma_done_grow(&db, &deductions, &cs[r], &cs[li], n as nat);
                    }
                }
            }
            right_index = right_index + 1;
        }
        left_index = left_index + 1;
    }
    proof {
        assert forall|l: int, r: int|
            0 <= l < constraints.len() && 0 <= r < constraints.len() implies #[trigger] pair_done(
                &deductions,
                &constraints@[l],
                &constraints@[r],
                n as nat,
            ) by {
            if l == r {
                assert forall|x: usize| x < n implies (#[trigger] subset_safe(&cs[l], &cs[r], x) ==> deductions.safe@[x as int])
                    && (subset_mine(&cs[l], &cs[r], x) ==> deductions.mines@[x as int]) by {
                }
            } else if l < r {
                assert(pairs_done(&deductions, cs, l, r, n as nat));
            } else {
                assert(pairs_done(&deductions, cs, r, l, n as nat));
            }
        }
    }
    Some(deductions)
}


/// How many entries are still `false`.
pub open spec fn unvisited_count(v: Seq<bool>) -> nat {
    count_true(Seq::new(v.len(), |i: int| !v[i]))
}

proof fn lemma_visit(v: Seq<bool>, i: int)
    requires
        0 <= i < v.len(),
        !v[i],
    ensures
        unvisited_count(v.update(i, true)) + 1 == unvisited_count(v),
{
    let u = Seq::new(v.len(), |k: int| !v[k]);
    lemma_count_true_clear(u, i);
    assert(Seq::new(v.update(i, true).len(), |k: int| !v.update(i, true)[k]) == u.update(i, false));
}

/// Every constraint of `cs` that lists one of `cells` has been visited.
spec fn cell_closed(cs: Seq<Constraint>, visited: Seq<bool>, cells: Seq<usize>) -> bool {
    forall|x: usize, k: int| 0 <= k < cs.len() && #[trigger] cells.contains(x) && #[trigger] cs[k].cells@.contains(x) ==> visited[k]
}

/// No cell is listed by constraints of two different components.
pub open spec fn components_disjoint(comps: Seq<Vec<Constraint>>) -> bool {
    forall|c1: int, c2: int, j1: int, j2: int, x: usize|
        #![trigger comps[c1]@[j1].cells@.contains(x), comps[c2]@[j2].cells@.contains(x)]
        0 <= c1 < comps.len() && 0 <= c2 < comps.len() && c1 != c2 && 0 <= j1 < comps[c1].len() && 0 <= j2
            < comps[c2].len() && comps[c1]@[j1].cells@.contains(x) ==> !comps[c2]@[j2].cells@.contains(x)
}

/// Each finished component is closed: whatever shares a cell with it has been visited.
spec fn components_closed(cs: Seq<Constraint>, visited: Seq<bool>, comps: Seq<Vec<Constraint>>) -> bool {
    forall|c: int, j: int| 0 <= c < comps.len() && 0 <= j < comps[c].len() ==> #[trigger] cell_closed(cs, visited, comps[c]@[j].cells@)
}

proof fn lemma_cell_closed_grow(cs: Seq<Constraint>, v1: Seq<bool>, v2: Seq<bool>, cells: Seq<usize>)
    requires
        cell_closed(cs, v1, cells),
        forall|k: int| 0 <= k < cs.len() && v1[k] ==> #[trigger] v2[k],
    ensures
        cell_closed(cs, v2, cells),
{
    assert forall|x: usize, k: int| 0 <= k < cs.len() && #[trigger] cells.contains(x) && #[trigger] cs[k].cells@.contains(x) implies v2[k] by {
        assert(v1[k]);
    }
}

proof fn lemma_components_closed_grow(cs: Seq<Constraint>, v1: Seq<bool>, v2: Seq<bool>, comps: Seq<Vec<Constraint>>)
    requires
        components_closed(cs, v1, comps),
        forall|k: int| 0 <= k < cs.len() && v1[k] ==> #[trigger] v2[k],
    ensures
        components_closed(cs, v2, comps),
{
    assert forall|c: int, j: int| 0 <= c < comps.len() && 0 <= j < comps[c].len() implies #[trigger] cell_closed(
        cs,
        v2,
        comps[c]@[j].cells@,
    ) by {
        lemma_cell_closed_grow(cs, v1, v2, comps[c]@[j].cells@);
    }
}

/// The member is a copy of a constraint taken from the queue before `head`.
spec fn from_queue(m: Constraint, cs: Seq<Constraint>, queue: Seq<usize>, head: int) -> bool {
    exists|t: int| 0 <= t < head && #[trigger] copy_of(m, cs[queue[t] as int])
}

/// Groups constraints that share cells, directly or through other constraints; each group
/// lists its constraints in the order a breadth-first search reaches them.
fn constraint_components(constraints: &Vec<Constraint>, n: usize) -> (components: Vec<Vec<Constraint>>)
    requires
        constraints_ok(constraints@, n as nat),
    ensures
        forall|c: int| 0 <= c < components.len() ==> constraints_ok(#[trigger] components@[c]@, n as nat),
        forall|k: int| 0 <= k < constraints.len() ==> #[trigger] in_components(components@, constraints@[k]),
        forall|c: int, j: int| 0 <= c < components.len() && 0 <= j < components@[c].len() ==> #[trigger] copy_listed(
            components@[c]@[j],
            constraints@,
        ),
        components_disjoint(components@),
{
    let ghost cs = constraints@;
    let mut visited = new_flags(constraints.len());
    let mut components: Vec<Vec<Constraint>> = Vec::new();
    let mut start: usize = 0;
    while start < constraints.len()
        invariant
            cs == constraints@,
            constraints_ok(constraints@, n as nat),
            visited.len() == constraints.len(),
            start <= constraints.len(),
            forall|c: int| 0 <= c < components.len() ==> constraints_ok(#[trigger] components@[c]@, n as nat),
            forall|k: int| 0 <= k < start ==> #[trigger] visited@[k],
            forall|k: int| 0 <= k < cs.len() && #[trigger] visited@[k] ==> in_components(components@, cs[k]),
            forall|c: int, j: int| 0 <= c < components.len() && 0 <= j < components@[c].len() ==> #[trigger] copy_listed(
                components@[c]@[j],
                cs,
            ),
            components_disjoint(components@),
            components_closed(cs, visited@, components@),
        decreases constraints.len() - start,
    {
        if !visited[start] {
            let ghost vb = visited@;
            let ghost vs0 = visited@;
            visited.set(start, true);
            proof {
                lemma_components_closed_grow(cs, vs0, visited@, components@);
            }
            let mut queue: Vec<usize> = Vec::new();
            queue.push(start);
            proof {
                assert forall|k: int|
                    0 <= k < cs.len() && #[trigger] visited@[k] implies in_components(components@, cs[k])
                        || queue@.contains(k as usize) by {
                    if k == start {
                        assert(queue@[0] == k as usize);
                    } else {
                        assert(vb[k]);
                    }
                }
            }
            let mut head: usize = 0;
            let mut component: Vec<Constraint> = Vec::new();
            while head < queue.len()
                invariant
                    cs == constraints@,
                    constraints_ok(constraints@, n as nat),
                    visited.len() == constraints.len(),
                    head <= queue.len(),
                    forall|t: int| 0 <= t < queue.len() ==> (#[trigger] queue@[t]) < constraints.len(),
                    constraints_ok(component@, n as nat),
                    forall|c: int| 0 <= c < components.len() ==> constraints_ok(#[trigger] components@[c]@, n as nat),
                    forall|k: int| 0 <= k <= start ==> #[trigger] visited@[k],
                    forall|k: int|
                        0 <= k < cs.len() && #[trigger] visited@[k] ==> in_components(components@, cs[k])
                            || queue@.contains(k as usize),
                    forall|t: int| 0 <= t < head ==> #[trigger] in_list(component@, cs[queue@[t] as int]),
                    forall|j: int| 0 <= j < component.len() ==> #[trigger] copy_listed(component@[j], cs),
                    forall|c: int, j: int| 0 <= c < components.len() && 0 <= j < components@[c].len() ==> #[trigger] copy_listed(
                        components@[c]@[j],
                        cs,
                    ),
                    components_disjoint(components@),
                    components_closed(cs, vs0, components@),
                    components_closed(cs, visited@, components@),
                    vs0.len() == cs.len(),
                    forall|k: int| 0 <= k < cs.len() && vs0[k] ==> #[trigger] visited@[k],
                    forall|t: int| 0 <= t < queue.len() ==> !vs0[#[trigger] queue@[t] as int],
                    forall|t: int| 0 <= t < head ==> #[trigger] cell_closed(cs, visited@, cs[queue@[t] as int].cells@),
                    forall|j: int| 0 <= j < component.len() ==> #[trigger] from_queue(component@[j], cs, queue@, head as int),
                decreases unvisited_count(visited@), queue.len() - head,
            {
                let index = queue[head];
                head = head + 1;
                let ghost u0 = unvisited_count(visited@);
                let ghost q0 = queue.len();
                let ghost queue0 = queue@;
                let constraint = &constraints[index];
                let mut c: usize = 0;
                while c < constraint.cells.len()
                    invariant
                        cs == constraints@,
                        constraints_ok(constraints@, n as nat),
                        visited.len() == constraints.len(),
                        head <= q0 <= queue.len(),
                        forall|t: int| 0 <= t < queue.len() ==> (#[trigger] queue@[t]) < constraints.len(),
                        c <= constraint.cells.len(),
                        unvisited_count(visited@) + (queue.len() - q0) == u0,
                        forall|t: int| 0 <= t < q0 ==> #[trigger] queue@[t] == queue0[t],
                        forall|k: int| 0 <= k <= start ==> #[trigger] visited@[k],
                        forall|k: int|
                            0 <= k < cs.len() && #[trigger] visited@[k] ==> in_components(components@, cs[k])
                                || queue@.contains(k as usize),
                        constraint == &cs[index as int],
                        components_closed(cs, visited@, components@),
                        vs0.len() == cs.len(),
                        forall|k: int| 0 <= k < cs.len() && vs0[k] ==> #[trigger] visited@[k],
                        forall|t: int| 0 <= t < queue.len() ==> !vs0[#[trigger] queue@[t] as int],
                        forall|t: int| 0 <= t < head - 1 ==> #[trigger] cell_closed(cs, visited@, cs[queue@[t] as int].cells@),
                        forall|c2: int, k: int|
                            0 <= c2 < c && 0 <= k < cs.len() && #[trigger] cs[k].cells@.contains(
                                #[trigger] constraint.cells@[c2],
                            ) ==> visited@[k],
                    decreases constraint.cells.len() - c,
                {
                    let cell = constraint.cells[c];
                    let mut other: usize = 0;
                    while other < constraints.len()
                        invariant
                            cs == constraints@,
                            constraints_ok(constraints@, n as nat),
                            visited.len() == constraints.len(),
                            head <= q0 <= queue.len(),
                            forall|t: int| 0 <= t < queue.len() ==> (#[trigger] queue@[t]) < constraints.len(),
                            other <= constraints.len(),
                            unvisited_count(visited@) + (queue.len() - q0) == u0,
                            forall|t: int| 0 <= t < q0 ==> #[trigger] queue@[t] == queue0[t],
                            forall|k: int| 0 <= k <= start ==> #[trigger] visited@[k],
                            forall|k: int|
                                0 <= k < cs.len() && #[trigger] visited@[k] ==> in_components(components@, cs[k])
                                    || queue@.contains(k as usize),
                            constraint == &cs[index as int],
                            c < constraint.cells.len(),
                            cell == constraint.cells@[c as int],
                            components_closed(cs, visited@, components@),
                            vs0.len() == cs.len(),
                            forall|k: int| 0 <= k < cs.len() && vs0[k] ==> #[trigger] visited@[k],
                            forall|t: int| 0 <= t < queue.len() ==> !vs0[#[trigger] queue@[t] as int],
                            forall|t: int| 0 <= t < head - 1 ==> #[trigger] cell_closed(cs, visited@, cs[queue@[t] as int].cells@),
                            forall|c2: int, k: int|
                                0 <= c2 < c && 0 <= k < cs.len() && #[trigger] cs[k].cells@.contains(
                                    #[trigger] constraint.cells@[c2],
                                ) ==> visited@[k],
                            forall|k: int| 0 <= k < other && #[trigger] cs[k].cells@.contains(cell) ==> visited@[k],
                        decreases constraints.len() - other,
                    {
                        if !visited[other] && sorted_contains(&constraints[other].cells, cell) {
                            proof {
                                lemma_visit(visited@, other as int);
                            }
                            let ghost qb = queue@;
                            let ghost vbo = visited@;
                            visited.set(other, true);
                            queue.push(other);
                            proof {
                                lemma_components_closed_grow(cs, vbo, visited@, components@);
                                assert forall|t: int| 0 <= t < head - 1 implies #[trigger] cell_closed(
                                    cs,
                                    visited@,
                                    cs[queue@[t] as int].cells@,
                                ) by {
                                    assert(queue@[t] == qb[t]);
                                    lemma_cell_closed_grow(cs, vbo, visited@, cs[queue@[t] as int].cells@);
                                }
                                assert forall|k: int|
                                    0 <= k < cs.len() && #[trigger] visited@[k] implies in_components(components@, cs[k])
                                        || queue@.contains(k as usize) by {
                                    if k == other {
                                        assert(queue@[queue.len() - 1] == k as usize);
                                    } else if !in_components(components@, cs[k]) {
                                        assert(qb.contains(k as usize));
                                        let t = choose|t: int| 0 <= t < qb.len() && #[trigger] qb[t] == k as usize;
                                        assert(queue@[t] == k as usize);
                                    }
                                }
                            }
                        }
                        other = other + 1;
                    }
                    c = c + 1;
                }
                let copied = copy_constraint(constraint);
                let ghost cb = component@;
                component.push(copied);
                proof {
                    assert(copy_of(component@[component.len() - 1], cs[index as int]));
                    assert forall|t: int| 0 <= t < head implies #[trigger] in_list(component@, cs[queue@[t] as int]) by {
                        if t < head - 1 {
                            assert(queue@[t] == queue0[t]);
                            assert(in_list(cb, cs[queue@[t] as int]));
                            let j = choose|j: int| 0 <= j < cb.len() && #[trigger] copy_of(cb[j], cs[queue@[t] as int]);
                            assert(component@[j] == cb[j]);
                        } else {
                            assert(queue@[t] == index);
                            assert(copy_of(component@[component.len() - 1], cs[queue@[t] as int]));
                        }
                    }
                    assert forall|j: int| 0 <= j < component.len() implies #[trigger] copy_listed(component@[j], cs) by {
                        if j < cb.len() {
                            assert(component@[j] == cb[j]);
                        } else {
                            assert(copy_of(component@[j], cs[index as int]));
                        }
                    }
                    assert(cell_closed(cs, visited@, cs[index as int].cells@)) by {
                        assert forall|x: usize, k: int|
                            0 <= k < cs.len() && #[trigger] cs[index as int].cells@.contains(x) && #[trigger] cs[k].cells@.contains(
                                x,
                            ) implies visited@[k] by {
                            let c2 = choose|c2: int| 0 <= c2 < cs[index as int].cells@.len() && cs[index as int].cells@[c2] == x;
                            assert(constraint.cells@[c2] == x);
                        }
                    }
                    assert forall|t: int| 0 <= t < head implies #[trigger] cell_closed(cs, visited@, cs[queue@[t] as int].cells@) by {
                        if t == head - 1 {
                            assert(queue@[t] == index);
                        }
                    }
                    assert forall|j: int| 0 <= j < component.len() implies #[trigger] from_queue(component@[j], cs, queue@, head as int) by {
                        if j < cb.len() {
                            assert(component@[j] == cb[j]);
                            assert(from_queue(cb[j], cs, queue0, head - 1));
                            let t = choose|t: int| 0 <= t < head - 1 && #[trigger] copy_of(cb[j], cs[queue0[t] as int]);
                            assert(queue@[t] == queue0[t]);
                            assert(copy_of(component@[j], cs[queue@[t] as int]));
                        } else {
                            assert(queue@[head - 1] == index);
                            assert(copy_of(component@[j], cs[queue@[head - 1] as int]));
                        }
                    }
                }
            }
            let ghost before = components@;
            components.push(component);
            proof {
                let last = components.len() - 1;
                assert forall|j: int| 0 <= j < component.len() implies #[trigger] cell_closed(cs, visited@, component@[j].cells@) by {
                    assert(from_queue(component@[j], cs, queue@, head as int));
                    let t = choose|t: int| 0 <= t < head && #[trigger] copy_of(component@[j], cs[queue@[t] as int]);
                    assert(cell_closed(cs, visited@, cs[queue@[t] as int].cells@));
                }
                assert(components_closed(cs, visited@, components@)) by {
                    assert forall|c: int, j: int| 0 <= c < components.len() && 0 <= j < components@[c].len() implies #[trigger] cell_closed(
                        cs,
                        visited@,
                        components@[c]@[j].cells@,
                    ) by {
                        if c < last {
                            assert(components@[c] == before[c]);
                        } else {
                            assert(components@[c]@[j] == component@[j]);
                        }
                    }
                }
                assert(components_disjoint(components@)) by {
                    assert forall|c1: int, c2: int, j1: int, j2: int, x: usize|
                        0 <= c1 < components.len() && 0 <= c2 < components.len() && c1 != c2 && 0 <= j1 < components@[c1].len()
                            && 0 <= j2 < components@[c2].len() && #[trigger] components@[c1]@[j1].cells@.contains(x) implies !#[trigger] components@[c2]@[j2].cells@.contains(x) by {
                        if c1 < last && c2 < last {
                            assert(components@[c1] == before[c1]);
                            assert(components@[c2] == before[c2]);
                        } else if c1 < last || c2 < last {
                            let (co, jo, jn) = if c1 < last {
                                (c1, j1, j2)
                            } else {
                                (c2, j2, j1)
                            };
                            assert(components@[co] == before[co]);
                            let m_old = before[co]@[jo];
                            let m_new = component@[jn];
                            assert(components@[last]@[jn] == m_new);
                            if m_old.cells@.contains(x) && m_new.cells@.contains(x) {
                                assert(from_queue(m_new, cs, queue@, head as int));
                                let t = choose|t: int| 0 <= t < head && #[trigger] copy_of(m_new, cs[queue@[t] as int]);
                                let q = queue@[t] as int;
                                assert(cell_closed(cs, vs0, m_old.cells@));
                                assert(cs[q].cells@.contains(x));
                                assert(vs0[q]);
                                assert(!vs0[queue@[t] as int]);
                            }
                        }
                    }
                }
                assert forall|k: int| 0 <= k < cs.len() && #[trigger] visited@[k] implies in_components(components@, cs[k]) by {
                    if in_components(before, cs[k]) {
                        let (i, j) = choose|i: int, j: int|
                            0 <= i < before.len() && 0 <= j < before[i].len() && #[trigger] copy_of(before[i]@[j], cs[k]);
                        assert(components@[i] == before[i]);
                        assert(copy_of(components@[i]@[j], cs[k]));
                    } else {
                        assert(queue@.contains(k as usize));
                        let t = choose|t: int| 0 <= t < queue.len() && #[trigger] queue@[t] == k as usize;
                        assert(in_list(component@, cs[queue@[t] as int]));
                        let j = choose|j: int| 0 <= j < component.len() && #[trigger] copy_of(component@[j], cs[k]);
                        let last = components.len() - 1;
                        assert(components@[last]@[j] == component@[j]);
                        assert(copy_of(components@[last]@[j], cs[k]));
                    }
                }
                assert forall|c: int, j: int| 0 <= c < components.len() && 0 <= j < components@[c].len() implies #[trigger] copy_listed(
                    components@[c]@[j],
                    cs,
                ) by {
                    if c < before.len() {
                        assert(components@[c] == before[c]);
                    }
                }
            }
        }
        start = start + 1;
    }
    proof {
        assert forall|k: int| 0 <= k < constraints.len() implies #[trigger] in_components(components@, constraints@[k]) by {
            assert(visited@[k]);
        }
    }
    components
}

/// Two constraints over the same cells with the same count.
pub open spec fn copy_of(a: Constraint, b: Constraint) -> bool {
    a.cells@ == b.cells@ && a.mines == b.mines
}

/// A copy of `c` stands in one of the components.
pub open spec fn in_components(comps: Seq<Vec<Constraint>>, c: Constraint) -> bool {
    exists|i: int, j: int| 0 <= i < comps.len() && 0 <= j < comps[i].len() && #[trigger] copy_of(comps[i]@[j], c)
}

/// A copy of `c` stands in the list.
pub open spec fn in_list(list: Seq<Constraint>, c: Constraint) -> bool {
    exists|j: int| 0 <= j < list.len() && #[trigger] copy_of(list[j], c)
}

/// `c` is a copy of one of `cs`.
pub open spec fn copy_listed(c: Constraint, cs: Seq<Constraint>) -> bool {
    exists|k: int| 0 <= k < cs.len() && #[trigger] copy_of(c, cs[k])
}

fn copy_constraint(c: &Constraint) -> (d: Constraint)
    ensures
        d.cells@ == c.cells@,
        d.mines == c.mines,
{
    let mut cells: Vec<usize> = Vec::new();
    let mut k: usize = 0;
    while k < c.cells.len()
        invariant
            k <= c.cells.len(),
            cells@ == c.cells@.take(k as int),
        decreases c.cells.len() - k,
    {
        cells.push(c.cells[k]);
        proof {
            assert(c.cells@.take(k + 1) == c.cells@.take(k as int).push(c.cells@[k as int]));
        }
        k = k + 1;
    }
    proof {
        assert(c.cells@.take(k as int) == c.cells@);
    }
    Constraint { cells, mines: c.mines }
}


/// How far a constraint is from being met while a component's cells are assigned one by one.
#[derive(Clone, Copy)]
struct ConstraintProgress {
    mines: usize,
    unassigned: usize,
    required_mines: usize,
}

impl ConstraintProgress {
    fn can_still_be_satisfied(&self) -> (b: bool)
        requires
            self.mines <= 64,
            self.unassigned <= 64,
        ensures
            b == (self.mines <= self.required_mines && self.mines + self.unassigned
                >= self.required_mines),
    {
        self.mines <= self.required_mines && self.mines + self.unassigned >= self.required_mines
    }

    fn is_satisfied(&self) -> (b: bool)
        ensures
            b == (self.unassigned == 0 && self.mines == self.required_mines),
    {
        self.unassigned == 0 && self.mines == self.required_mines
    }
}

/// One way to place mines on a component's cells: bit `p` of `mask` is set when the cell at
/// position `p` holds a mine, and `mines` counts them.
#[derive(Clone, Copy)]
struct ComponentAssignment {
    mask: u64,
    mines: usize,
}

/// A component's cells and every assignment that meets all of its constraints.
struct ComponentSummary {
    cells: Vec<usize>,
    assignments: Vec<ComponentAssignment>,
}

enum ComponentEnumeration {
    Enumerated(ComponentSummary),
    Skipped,
}

/// How many positions from `from` on are touched by constraint `ci`.
spec fn touch_count(t: Seq<Seq<usize>>, ci: usize, from: int) -> nat
    decreases t.len() - from,
{
    if from >= t.len() || from < 0 {
        0
    } else {
        (if t[from].contains(ci) {
            1nat
        } else {
            0nat
        }) + touch_count(t, ci, from + 1)
    }
}

spec fn touching_view(touching: Seq<Vec<usize>>) -> Seq<Seq<usize>> {
    touching.map_values(|v: Vec<usize>| v@)
}

/// The bookkeeping of an enumeration that has assigned the cells before `position`.
spec fn enum_state_ok(t: Seq<Seq<usize>>, progress: Seq<ConstraintProgress>, position: int) -> bool {
    &&& t.len() <= MAX_COMPONENT_CELLS
    &&& 0 <= position <= t.len()
    &&& forall|p: int| 0 <= p < t.len() ==> (#[trigger] t[p]).no_duplicates()
    &&& forall|p: int, k: int| 0 <= p < t.len() && 0 <= k < t[p].len() ==> (#[trigger] t[p][k]) < progress.len()
    &&& forall|ci: int|
        0 <= ci < progress.len() ==> (#[trigger] progress[ci]).unassigned == touch_count(t, ci as usize, position)
            && progress[ci].mines <= position
}

proof fn lemma_touch_count_bound(t: Seq<Seq<usize>>, ci: usize, from: int)
    requires
        0 <= from,
    ensures
        touch_count(t, ci, from) <= if from <= t.len() {
            t.len() - from
        } else {
            0
        },
    decreases t.len() - from,
{
    if from < t.len() {
        lemma_touch_count_bound(t, ci, from + 1);
    }
}

/// Bit `q` of an assignment mask: whether the cell at position `q` holds a mine.
pub open spec fn mask_bit(mask: u64, q: int) -> bool {
    (mask >> (q as u64)) & 1u64 == 1u64
}

/// The mask marks exactly the mines of `choice`.
pub open spec fn mask_matches(mask: u64, choice: Seq<bool>) -> bool {
    forall|q: int| 0 <= q < choice.len() ==> #[trigger] mask_bit(mask, q) == choice[q]
}

/// How many of the positions before `to` are touched by constraint `ci` and hold a mine in
/// `choice`.
pub open spec fn touched_mines(t: Seq<Seq<usize>>, choice: Seq<bool>, ci: usize, to: int) -> nat
    decreases to,
{
    if to <= 0 {
        0
    } else {
        touched_mines(t, choice, ci, to - 1) + if t[to - 1].contains(ci) && choice[to - 1] {
            1nat
        } else {
            0nat
        }
    }
}

/// A choice for every position gives each constraint its required number of mines.
pub open spec fn choice_meets(t: Seq<Seq<usize>>, choice: Seq<bool>, req: Seq<usize>) -> bool {
    forall|ci: int|
        0 <= ci < req.len() ==> #[trigger] touched_mines(t, choice, ci as usize, t.len() as int) == req[ci]
}

/// The counters count the mines chosen so far and keep the required totals.
spec fn progress_tracks(
    t: Seq<Seq<usize>>,
    chosen: Seq<bool>,
    progress: Seq<ConstraintProgress>,
    req: Seq<usize>,
) -> bool {
    &&& progress.len() == req.len()
    &&& forall|ci: int|
        0 <= ci < progress.len() ==> (#[trigger] progress[ci]).mines == touched_mines(
            t,
            chosen,
            ci as usize,
            chosen.len() as int,
        ) && progress[ci].required_mines == req[ci]
}

/// The choice a mask makes for the first `len` positions.
pub open spec fn mask_choice(mask: u64, len: int) -> Seq<bool> {
    Seq::new(len as nat, |q: int| mask_bit(mask, q))
}

/// The entries added after `before` each make a choice that starts with `prefix` and meets
/// every constraint, and no two of them make the same choice.
spec fn new_entries_ok(
    before: Seq<ComponentAssignment>,
    after: Seq<ComponentAssignment>,
    t: Seq<Seq<usize>>,
    prefix: Seq<bool>,
    req: Seq<usize>,
) -> bool {
    &&& forall|j: int|
        before.len() <= j < after.len() ==> (#[trigger] mask_choice(after[j].mask, t.len() as int)).subrange(
            0,
            prefix.len() as int,
        ) == prefix && choice_meets(t, mask_choice(after[j].mask, t.len() as int), req)
    &&& forall|j1: int, j2: int|
        #![trigger after[j1], after[j2]]
        before.len() <= j1 < j2 < after.len() ==> mask_choice(after[j1].mask, t.len() as int) != mask_choice(
            after[j2].mask,
            t.len() as int,
        )
}

/// A choice that starts with `chosen` followed by `b` starts with `chosen` and has `b` next.
proof fn lemma_prefix_push(s: Seq<bool>, chosen: Seq<bool>, b: bool)
    requires
        s.len() > chosen.len(),
        s.subrange(0, chosen.len() as int + 1) == chosen.push(b),
    ensures
        s.subrange(0, chosen.len() as int) == chosen,
        s[chosen.len() as int] == b,
{
    assert(s.subrange(0, chosen.len() as int) =~= chosen) by {
        assert forall|q: int| 0 <= q < chosen.len() implies s.subrange(0, chosen.len() as int)[q] == chosen[q] by {
            assert(s.subrange(0, chosen.len() as int + 1)[q] == chosen.push(b)[q]);
        }
    }
    assert(s.subrange(0, chosen.len() as int + 1)[chosen.len() as int] == chosen.push(b)[chosen.len() as int]);
    assert(chosen.push(b)[chosen.len() as int] == b);
}

/// Every bit of the mask from position `from` on is clear.
pub open spec fn mask_clear_from(mask: u64, from: int) -> bool {
    forall|q: int| from <= q < 64 ==> !#[trigger] mask_bit(mask, q)
}

/// The empty mask has no bit set.
proof fn lemma_empty_mask()
    ensures
        mask_clear_from(0u64, 0),
{
    assert forall|q: int| 0 <= q < 64 implies !#[trigger] mask_bit(0u64, q) by {
        let b = q as u64;
        assert((0u64 >> b) & 1u64 == 0u64) by (bit_vector);
    }
}

/// A counter that the cells still to be assigned can bring to its required total.
spec fn still_possible(p: ConstraintProgress) -> bool {
    p.mines <= p.required_mines && p.mines + p.unassigned >= p.required_mines
}

/// Only the chosen positions before `to` count.
proof fn lemma_touched_prefix(t: Seq<Seq<usize>>, a: Seq<bool>, b: Seq<bool>, ci: usize, to: int)
    requires
        to <= a.len(),
        to <= b.len(),
        forall|q: int| 0 <= q < to ==> a[q] == b[q],
    ensures
        touched_mines(t, a, ci, to) == touched_mines(t, b, ci, to),
    decreases to,
{
    if to > 0 {
        lemma_touched_prefix(t, a, b, ci, to - 1);
    }
}

/// The mines of a complete choice lie between those already counted and those plus every
/// position still to come.
proof fn lemma_touched_bounds(t: Seq<Seq<usize>>, choice: Seq<bool>, ci: usize, p: int)
    requires
        0 <= p <= t.len(),
        choice.len() == t.len(),
    ensures
        touched_mines(t, choice, ci, p) <= touched_mines(t, choice, ci, t.len() as int),
        touched_mines(t, choice, ci, t.len() as int) <= touched_mines(t, choice, ci, p) + touch_count(t, ci, p),
    decreases t.len() - p,
{
    if p < t.len() {
        lemma_touched_bounds(t, choice, ci, p + 1);
    }
}

/// Setting bit `p` of a mask sets that bit and keeps the others.
proof fn lemma_mask_set_bit(mask: u64, p: u64, q: u64)
    requires
        p < 64,
        q < 64,
    ensures
        mask_bit(mask | (1u64 << p), q as int) == (mask_bit(mask, q as int) || q == p),
{
    assert(((mask | (1u64 << p)) >> q) & 1u64 == 1u64 <==> (((mask >> q) & 1u64 == 1u64) || q == p)) by (bit_vector)
        requires
            p < 64,
            q < 64,
    ;
}

spec fn stepped(p: ConstraintProgress, is_mine: bool) -> ConstraintProgress {
    ConstraintProgress {
        mines: if is_mine {
            (p.mines + 1) as usize
        } else {
            p.mines
        },
        unassigned: (p.unassigned - 1) as usize,
        required_mines: p.required_mines,
    }
}

/// Assigns the cell at `position` (a mine or not), and, if no touched constraint is broken
/// yet, enumerates the remaining cells. Returns false once too many assignments were found.
fn collect_component_assignments_with_cell(
    is_mine: bool,
    position: usize,
    touching: &Vec<Vec<usize>>,
    progress: &mut Vec<ConstraintProgress>,
    mask: u64,
    mine_count: usize,
    assignments: &mut Vec<ComponentAssignment>,
    Ghost(chosen): Ghost<Seq<bool>>,
    Ghost(req): Ghost<Seq<usize>>,
) -> (completed: bool)
    requires
        enum_state_ok(touching_view(touching@), old(progress)@, position as int),
        position < touching.len(),
        mine_count <= position,
        mine_count == count_true(chosen),
        chosen.len() == position,
        progress_tracks(touching_view(touching@), chosen, old(progress)@, req),
        mask_matches(mask, chosen),
        mask_clear_from(mask, position as int),
    ensures
        final(progress)@ == old(progress)@,
        old(assignments)@.len() <= final(assignments)@.len(),
        forall|j: int| 0 <= j < old(assignments)@.len() ==> #[trigger] final(assignments)@[j] == old(assignments)@[j],
        !completed ==> final(assignments)@.len() > MAX_COMPONENT_SOLUTIONS,
        forall|j: int|
            old(assignments)@.len() <= j < final(assignments)@.len() ==> #[trigger] final(assignments)@[j].mines
                == count_true(mask_choice(final(assignments)@[j].mask, touching.len() as int)),
        new_entries_ok(old(assignments)@, final(assignments)@, touching_view(touching@), chosen.push(is_mine), req),
        final(assignments)@.len() <= old(assignments)@.len() + pow2((touching.len() - position - 1) as nat),
        completed ==> forall|choice: Seq<bool>|
            choice.len() == touching.len() && choice.subrange(0, position as int) == chosen && choice[position as int]
                == is_mine && #[trigger] choice_meets(touching_view(touching@), choice, req) ==> exists|j: int|
                #![trigger final(assignments)@[j]]
                0 <= j < final(assignments)@.len() && mask_matches(final(assignments)@[j].mask, choice),
    decreases touching.len() - position, 0nat,
{
    let ghost t = touching_view(touching@);
    let ghost orig = progress@;
    let list = &touching[position];
    proof {
        assert(list@ == t[position as int]);
        lemma_touch_count_bound(t, 0, position as int);
    }
    let mut k: usize = 0;
    while k < list.len()
        invariant
            t == touching_view(touching@),
            enum_state_ok(t, orig, position as int),
            position < touching.len(),
            list@ == t[position as int],
            k <= list.len(),
            progress.len() == orig.len(),
            forall|ci: int|
                0 <= ci < orig.len() ==> #[trigger] progress@[ci] == if list@.take(k as int).contains(
                    ci as usize,
                ) {
                    stepped(orig[ci], is_mine)
                } else {
                    orig[ci]
                },
        decreases list.len() - k,
    {
        let ci = list[k];
        proof {
            assert(t[position as int][k as int] == ci);
            assert(!list@.take(k as int).contains(ci)) by {
                if list@.take(k as int).contains(ci) {
                    let j = choose|j: int| 0 <= j < k && list@.take(k as int)[j] == ci;
                    assert(list@[j] == list@[k as int]);
                }
            }
            assert(list@.contains(ci));
            assert(touch_count(t, ci, position as int) >= 1);
        }
        let mut pr = progress[ci];
        pr.unassigned = pr.unassigned - 1;
        if is_mine {
            pr.mines = pr.mines + 1;
        }
        progress.set(ci, pr);
        proof {
            let t0 = list@.take(k as int);
            let t1 = list@.take(k + 1);
            assert(t1 == t0.push(ci));
            assert forall|c: int| 0 <= c < orig.len() implies #[trigger] progress@[c] == if t1.contains(
                c as usize,
            ) {
                stepped(orig[c], is_mine)
            } else {
                orig[c]
            } by {
                if t0.contains(c as usize) {
                    let j = choose|j: int| 0 <= j < t0.len() && t0[j] == c as usize;
                    assert(t1[j] == c as usize);
                }
                if t1.contains(c as usize) && c as usize != ci {
                    let j = choose|j: int| 0 <= j < t1.len() && t1[j] == c as usize;
                    assert(t0[j] == c as usize);
                }
                if c as usize == ci {
                    assert(t1[k as int] == ci);
                }
            }
        }
        k = k + 1;
    }
    proof {
        assert(list@.take(k as int) == list@);
    }
    proof {
        assert forall|ci: int| 0 <= ci < progress.len() implies (#[trigger] progress@[ci]).mines <= 64
            && progress@[ci].unassigned <= 64 by {
            lemma_touch_count_bound(t, ci as usize, position as int);
            if list@.contains(ci as usize) {
                assert(t[position as int].contains(ci as usize));
            }
        }
    }
    let ghost mid = progress@;
    let ghost chosen2 = chosen.push(is_mine);
    proof {
        assert forall|ci: int| 0 <= ci < progress.len() implies (#[trigger] progress@[ci]).mines
            == touched_mines(t, chosen2, ci as usize, chosen2.len() as int) && progress@[ci].required_mines
            == req[ci] by {
            lemma_touched_prefix(t, chosen, chosen2, ci as usize, position as int);
            if list@.contains(ci as usize) {
                assert(t[position as int].contains(ci as usize));
            }
        }
    }
    let mut valid = true;
    let mut k: usize = 0;
    while k < list.len()
        invariant
            k <= list.len(),
            progress@ == mid,
            forall|j: int| 0 <= j < list.len() ==> (#[trigger] list@[j]) < progress.len(),
            forall|ci: int| 0 <= ci < progress.len() ==> (#[trigger] progress@[ci]).mines <= 64 && progress@[ci].unassigned <= 64,
            valid == forall|j: int| 0 <= j < k ==> still_possible(#[trigger] mid[list@[j] as int]),
        decreases list.len() - k,
    {
        if !progress[list[k]].can_still_be_satisfied() {
            valid = false;
        }
        k = k + 1;
    }
    let completed = if valid {
        let next_mask = if is_mine {
            mask | (1u64 << position as u64)
        } else {
            mask
        };
        let next_count = if is_mine {
            mine_count + 1
        } else {
            mine_count
        };
        proof {
            assert(chosen2.drop_last() =~= chosen);
            assert(next_count == count_true(chosen2));
            assert forall|ci: int| 0 <= ci < progress.len() implies (#[trigger] progress@[ci]).unassigned
                == touch_count(t, ci as usize, position + 1) && progress@[ci].mines <= position + 1 by {
                if list@.contains(ci as usize) {
                    assert(t[position as int].contains(ci as usize));
                }
            }
            assert forall|q: int| 0 <= q < chosen2.len() implies #[trigger] mask_bit(next_mask, q) == chosen2[q] by {
                if is_mine {
                    lemma_mask_set_bit(mask, position as u64, q as u64);
                }
                if q < position {
                    assert(mask_bit(mask, q) == chosen[q]);
                }
            }
            assert forall|q: int| position + 1 <= q < 64 implies !#[trigger] mask_bit(next_mask, q) by {
                if is_mine {
                    lemma_mask_set_bit(mask, position as u64, q as u64);
                }
            }
        }
        collect_component_assignments(
            position + 1,
            touching,
            progress,
            next_mask,
            next_count,
            assignments,
            Ghost(chosen2),
            Ghost(req),
        )
    } else {
        proof {
            assert forall|choice: Seq<bool>|
                choice.len() == touching.len() && choice.subrange(0, position as int) == chosen && choice[position as int]
                    == is_mine implies !#[trigger] choice_meets(t, choice, req) by {
                if choice_meets(t, choice, req) {
                    let j = choose|j: int| 0 <= j < list.len() && !still_possible(#[trigger] mid[list@[j] as int]);
                    let ci = list@[j];
                    assert(list@.contains(ci));
                    assert(t[position as int].contains(ci));
                    assert forall|q: int| 0 <= q < position + 1 implies chosen2[q] == choice[q] by {
                        if q < position {
                            assert(choice.subrange(0, position as int)[q] == choice[q]);
                        }
                    }
                    lemma_touched_prefix(t, chosen2, choice, ci, position + 1);
                    lemma_touched_bounds(t, choice, ci, position + 1);
                    assert(touched_mines(t, choice, ci, t.len() as int) == req[ci as int]);
                }
            }
        }
        true
    };
    let mut k: usize = 0;
    while k < list.len()
        invariant
            t == touching_view(touching@),
            t.len() == touching.len(),
            position < touching.len(),
            enum_state_ok(t, orig, position as int),
            list@ == t[position as int],
            k <= list.len(),
            progress.len() == orig.len(),
            forall|ci: int|
                0 <= ci < orig.len() ==> #[trigger] progress@[ci] == if list@.take(k as int).contains(
                    ci as usize,
                ) {
                    orig[ci]
                } else if list@.contains(ci as usize) {
                    stepped(orig[ci], is_mine)
                } else {
                    orig[ci]
                },
        decreases list.len() - k,
    {
        let ci = list[k];
        proof {
            assert(!list@.take(k as int).contains(ci)) by {
                if list@.take(k as int).contains(ci) {
                    let j = choose|j: int| 0 <= j < k && list@.take(k as int)[j] == ci;
                    assert(list@[j] == list@[k as int]);
                }
            }
            assert(list@.contains(ci));
            lemma_touch_count_bound(t, ci, position as int);
        }
        let mut pr = progress[ci];
        if is_mine {
            pr.mines = pr.mines - 1;
        }
        pr.unassigned = pr.unassigned + 1;
        progress.set(ci, pr);
        proof {
            let t0 = list@.take(k as int);
            let t1 = list@.take(k + 1);
            assert(t1 == t0.push(ci));
            assert forall|c: int| 0 <= c < orig.len() implies #[trigger] progress@[c] == if t1.contains(
                c as usize,
            ) {
                orig[c]
            } else if list@.contains(c as usize) {
                stepped(orig[c], is_mine)
            } else {
                orig[c]
            } by {
                if t0.contains(c as usize) {
                    let j = choose|j: int| 0 <= j < t0.len() && t0[j] == c as usize;
                    assert(t1[j] == c as usize);
                }
                if t1.contains(c as usize) && c as usize != ci {
                    let j = choose|j: int| 0 <= j < t1.len() && t1[j] == c as usize;
                    assert(t0[j] == c as usize);
                }
                if c as usize == ci {
                    assert(t1[k as int] == ci);
                }
            }
        }
        k = k + 1;
    }
    proof {
        assert(list@.take(k as int) == list@);
        assert(progress@ =~= orig);
        if completed && valid {
            assert forall|choice: Seq<bool>|
                choice.len() == touching.len() && choice.subrange(0, position as int) == chosen && choice[position as int]
                    == is_mine && #[trigger] choice_meets(t, choice, req) implies exists|j: int|
                    #![trigger assignments@[j]]
                    0 <= j < assignments@.len() && mask_matches(assignments@[j].mask, choice) by {
                assert(choice.subrange(0, position + 1) =~= chosen2);
            }
        }
    }
    completed
}

/// Enumerates the assignments of the cells from `position` on that satisfy every
/// constraint, appending each to `assignments`; returns false once more than
/// `MAX_COMPONENT_SOLUTIONS` were found.
fn collect_component_assignments(
    position: usize,
    touching: &Vec<Vec<usize>>,
    progress: &mut Vec<ConstraintProgress>,
    mask: u64,
    mine_count: usize,
    assignments: &mut Vec<ComponentAssignment>,
    Ghost(chosen): Ghost<Seq<bool>>,
    Ghost(req): Ghost<Seq<usize>>,
) -> (completed: bool)
    requires
        enum_state_ok(touching_view(touching@), old(progress)@, position as int),
        mine_count <= position,
        mine_count == count_true(chosen),
        chosen.len() == position,
        progress_tracks(touching_view(touching@), chosen, old(progress)@, req),
        mask_matches(mask, chosen),
        mask_clear_from(mask, position as int),
    ensures
        final(progress)@ == old(progress)@,
        old(assignments)@.len() <= final(assignments)@.len(),
        forall|j: int| 0 <= j < old(assignments)@.len() ==> #[trigger] final(assignments)@[j] == old(assignments)@[j],
        !completed ==> final(assignments)@.len() > MAX_COMPONENT_SOLUTIONS,
        forall|j: int|
            old(assignments)@.len() <= j < final(assignments)@.len() ==> #[trigger] final(assignments)@[j].mines
                == count_true(mask_choice(final(assignments)@[j].mask, touching.len() as int)),
        new_entries_ok(old(assignments)@, final(assignments)@, touching_view(touching@), chosen, req),
        final(assignments)@.len() <= old(assignments)@.len() + pow2((touching.len() - position) as nat),
        completed ==> forall|choice: Seq<bool>|
            choice.len() == touching.len() && choice.subrange(0, position as int) == chosen
                && #[trigger] choice_meets(touching_view(touching@), choice, req) ==> exists|j: int|
                #![trigger final(assignments)@[j]]
                0 <= j < final(assignments)@.len() && mask_matches(final(assignments)@[j].mask, choice),
    decreases touching.len() - position, 1nat,
{
    let ghost t = touching_view(touching@);
    if assignments.len() > MAX_COMPONENT_SOLUTIONS {
        return false;
    }
    if position == touching.len() {
        let mut all = true;
        let mut k: usize = 0;
        while k < progress.len()
            invariant
                k <= progress.len(),
                all == forall|c: int| 0 <= c < k ==> (#[trigger] progress@[c]).unassigned == 0
                    && progress@[c].mines == progress@[c].required_mines,
            decreases progress.len() - k,
        {
            if !progress[k].is_satisfied() {
                all = false;
            }
            k = k + 1;
        }
        let ghost before = assignments@;
        if all {
            assignments.push(ComponentAssignment { mask, mines: mine_count });
        }
        proof {
            lemma_pow2_pos(0);
            assert forall|choice: Seq<bool>|
                choice.len() == touching.len() && choice.subrange(0, position as int) == chosen
                    && #[trigger] choice_meets(t, choice, req) implies exists|j: int|
                    #![trigger assignments@[j]]
                    0 <= j < assignments@.len() && mask_matches(assignments@[j].mask, choice) by {
                assert(choice =~= chosen) by {
                    assert forall|q: int| 0 <= q < choice.len() implies choice[q] == chosen[q] by {
                        assert(choice.subrange(0, position as int)[q] == choice[q]);
                    }
                }
                assert forall|c: int| 0 <= c < progress.len() implies (#[trigger] progress@[c]).unassigned == 0
                    && progress@[c].mines == progress@[c].required_mines by {
                    assert(touched_mines(t, choice, c as usize, t.len() as int) == req[c]);
                }
                assert(all);
                assert(mask_matches(assignments@[before.len() as int].mask, choice));
            }
            if all {
                let m = assignments@[before.len() as int].mask;
                assert(mask_choice(m, t.len() as int) =~= chosen);
                assert(assignments@[before.len() as int].mines == count_true(mask_choice(m, touching.len() as int)));
                assert(chosen.subrange(0, chosen.len() as int) =~= chosen);
                assert forall|c: int| 0 <= c < req.len() implies #[trigger] touched_mines(t, chosen, c as usize, t.len() as int)
                    == req[c] by {
                    assert(progress@[c].unassigned == 0 && progress@[c].mines == progress@[c].required_mines);
                }
                assert(choice_meets(t, chosen, req));
            }
        }
        return true;
    }
    if !collect_component_assignments_with_cell(
        false,
        position,
        touching,
        progress,
        mask,
        mine_count,
        assignments,
        Ghost(chosen),
        Ghost(req),
    ) {
        proof {
            lemma_pow2_unfold((touching.len() - position) as nat);
            let fin = assignments@;
            let len = touching.len() as int;
            assert forall|j: int| old(assignments)@.len() <= j < fin.len() implies (#[trigger] mask_choice(fin[j].mask, len)).subrange(
                0,
                chosen.len() as int,
            ) == chosen && choice_meets(t, mask_choice(fin[j].mask, len), req) by {
                lemma_prefix_push(mask_choice(fin[j].mask, len), chosen, false);
            }
        }
        return false;
    }
    let ghost before = old(assignments)@;
    let ghost mid = assignments@;
    let c2 = collect_component_assignments_with_cell(
        true,
        position,
        touching,
        progress,
        mask,
        mine_count,
        assignments,
        Ghost(chosen),
        Ghost(req),
    );
    proof {
        lemma_pow2_unfold((touching.len() - position) as nat);
        if c2 {
            assert forall|choice: Seq<bool>|
                choice.len() == touching.len() && choice.subrange(0, position as int) == chosen
                    && #[trigger] choice_meets(t, choice, req) implies exists|j: int|
                    #![trigger assignments@[j]]
                    0 <= j < assignments@.len() && mask_matches(assignments@[j].mask, choice) by {
                if !choice[position as int] {
                    let j = choose|j: int| 0 <= j < mid.len() && mask_matches(#[trigger] mid[j].mask, choice);
                    assert(assignments@[j] == mid[j]);
                }
            }
        }
        let fin = assignments@;
        let len = t.len() as int;
        assert forall|j: int| before.len() <= j < fin.len() implies (#[trigger] mask_choice(fin[j].mask, len)).subrange(
            0,
            chosen.len() as int,
        ) == chosen && choice_meets(t, mask_choice(fin[j].mask, len), req) by {
            if j < mid.len() {
                assert(fin[j] == mid[j]);
                lemma_prefix_push(mask_choice(mid[j].mask, len), chosen, false);
            } else {
                lemma_prefix_push(mask_choice(fin[j].mask, len), chosen, true);
            }
        }
        assert forall|j1: int, j2: int|
            #![trigger fin[j1], fin[j2]]
            before.len() <= j1 < j2 < fin.len() implies mask_choice(fin[j1].mask, len) != mask_choice(fin[j2].mask, len) by {
            if j2 < mid.len() {
                assert(fin[j1] == mid[j1] && fin[j2] == mid[j2]);
            } else if j1 < mid.len() {
                assert(fin[j1] == mid[j1]);
                lemma_prefix_push(mask_choice(mid[j1].mask, len), chosen, false);
                lemma_prefix_push(mask_choice(fin[j2].mask, len), chosen, true);
            }
        }
    }
    c2
}

/// Where a cell sits in a component's cell list.
fn position_of(cells: &Vec<usize>, cell: usize) -> (p: Option<usize>)
    ensures
        p matches Some(i) ==> i < cells.len() && cells@[i as int] == cell,
        p is None ==> !cells@.contains(cell),
{
    let mut k: usize = 0;
    while k < cells.len()
        invariant
            k <= cells.len(),
            forall|j: int| 0 <= j < k ==> cells@[j] != cell,
        decreases cells.len() - k,
    {
        if cells[k] == cell {
            return Some(k);
        }
        k = k + 1;
    }
    None
}

/// Inserting a value not yet listed keeps a list free of repeats and adds just that value.
proof fn lemma_insert_fresh(s: Seq<usize>, at: int, x: usize)
    requires
        0 <= at <= s.len(),
        s.no_duplicates(),
        !s.contains(x),
    ensures
        s.insert(at, x).no_duplicates(),
        forall|y: usize| #[trigger] s.insert(at, x).contains(y) <==> (s.contains(y) || y == x),
{
    let t = s.insert(at, x);
    s.insert_ensures(at, x);
    assert forall|y: usize| #[trigger] t.contains(y) <==> (s.contains(y) || y == x) by {
        if t.contains(y) {
            let j = choose|j: int| 0 <= j < t.len() && t[j] == y;
            if j < at {
                assert(s[j] == y);
            } else if j > at {
                assert(t[(j - 1) + 1] == s[j - 1]);
            }
        }
        if s.contains(y) {
            let j = choose|j: int| 0 <= j < s.len() && s[j] == y;
            if j < at {
                assert(t[j] == y);
            } else {
                assert(t[j + 1] == y);
            }
        }
        if y == x {
            assert(t[at] == y);
        }
    }
    assert forall|a: int, b: int| 0 <= a < t.len() && 0 <= b < t.len() && a != b implies t[a] != t[b] by {
        let sa = if a < at { a } else { a - 1 };
        let sb = if b < at { b } else { b - 1 };
        if a != at && b != at {
            if a > at {
                assert(t[(a - 1) + 1] == s[a - 1]);
            }
            if b > at {
                assert(t[(b - 1) + 1] == s[b - 1]);
            }
            assert(t[a] == s[sa] && t[b] == s[sb]);
        } else if a == at {
            if b > at {
                assert(t[(b - 1) + 1] == s[b - 1]);
            }
            assert(t[b] == s[sb]);
            assert(s.contains(s[sb]));
        } else {
            if a > at {
                assert(t[(a - 1) + 1] == s[a - 1]);
            }
            assert(t[a] == s[sa]);
            assert(s.contains(s[sa]));
        }
    }
}

/// Each listed assignment is how some layout of `n` cells meeting all of `cs` puts its mines
/// on `cells`.
spec fn assignments_realized(assignments: Seq<ComponentAssignment>, cells: Seq<usize>, cs: Seq<Constraint>, n: nat) -> bool {
    forall|j: int| 0 <= j < assignments.len() ==> #[trigger] realized(assignments[j].mask, cells, cs, n)
}

/// Some layout of `n` cells meeting all of `cs` puts its mines on `cells` as the mask says.
spec fn realized(mask: u64, cells: Seq<usize>, cs: Seq<Constraint>, n: nat) -> bool {
    exists|layout: Seq<bool>| layout.len() == n && #[trigger] meets_all(layout, cs) && mask_matches(mask, cells_choice(layout, cells))
}

/// No two listed assignments make the same choice for the first `len` positions.
spec fn assignments_distinct(assignments: Seq<ComponentAssignment>, len: int) -> bool {
    forall|j1: int, j2: int|
        #![trigger assignments[j1], assignments[j2]]
        0 <= j1 < j2 < assignments.len() ==> mask_choice(assignments[j1].mask, len) != mask_choice(assignments[j2].mask, len)
}

/// Every cell that some constraint of `cs` lists.
pub open spec fn constraint_cell_set(cs: Seq<Constraint>) -> Set<usize> {
    Set::new(
        |x: usize|
            exists|k: int, j: int| 0 <= k < cs.len() && 0 <= j < cs[k].cells.len() && #[trigger] cs[k].cells@[j] == x,
    )
}

/// The layout of `n` cells with a mine on each listed cell that `ch` marks, and nowhere else.
pub open spec fn layout_of(ch: Seq<bool>, cells: Seq<usize>, n: nat) -> Seq<bool> {
    Seq::new(n, |x: int| exists|p: int| 0 <= p < cells.len() && cells[p] == x && #[trigger] ch[p])
}

proof fn lemma_layout_of(ch: Seq<bool>, cells: Seq<usize>, n: nat)
    requires
        ch.len() == cells.len(),
        cells.no_duplicates(),
        forall|p: int| 0 <= p < cells.len() ==> (#[trigger] cells[p]) < n,
    ensures
        cells_choice(layout_of(ch, cells, n), cells) == ch,
{
    let l = layout_of(ch, cells, n);
    assert forall|p: int| 0 <= p < cells.len() implies #[trigger] cells_choice(l, cells)[p] == ch[p] by {
        if l[cells[p] as int] {
            let p2 = choose|p2: int| 0 <= p2 < cells.len() && cells[p2] == cells[p] as int && #[trigger] ch[p2];
            assert(p2 == p);
        }
        if ch[p] {
            assert(l[cells[p] as int]);
        }
    }
    assert(cells_choice(l, cells) =~= ch);
}

/// Every layout of `n` cells that meets all of `cs` puts its mines on `cells` as one of the
/// listed assignments says.
spec fn assignments_cover(assignments: Seq<ComponentAssignment>, cells: Seq<usize>, cs: Seq<Constraint>, n: nat) -> bool {
    forall|layout: Seq<bool>|
        layout.len() == n && #[trigger] meets_all(layout, cs) ==> exists|j: int|
            0 <= j < assignments.len() && mask_matches(#[trigger] assignments[j].mask, cells_choice(layout, cells))
}

/// Enumerates a small component: the cells its constraints mention are ordered by how many
/// constraints touch them (most first), and every satisfying assignment is listed. Large or
/// overly ambiguous components are skipped; a component with no satisfying assignment (or an
/// impossible constraint) fails.
#[verifier::rlimit(100)]
fn enumerate_component(constraints: &Vec<Constraint>, n: usize) -> (e: Option<ComponentEnumeration>)
    requires
        constraints_ok(constraints@, n as nat),
    ensures
        e matches Some(ComponentEnumeration::Enumerated(summary)) ==> {
            &&& summary.cells.len() <= MAX_COMPONENT_CELLS
            &&& forall|k: int| 0 <= k < summary.cells.len() ==> (#[trigger] summary.cells@[k]) < n
            &&& summary.assignments.len() > 0
            &&& assignments_cover(summary.assignments@, summary.cells@, constraints@, n as nat)
        },
        e matches Some(ComponentEnumeration::Enumerated(summary)) ==> summary.cells@.to_set() == constraint_cell_set(constraints@),
        e matches Some(ComponentEnumeration::Enumerated(summary)) ==> summary.cells@.no_duplicates(),
        e matches Some(ComponentEnumeration::Enumerated(summary)) ==> forall|j: int|
            0 <= j < summary.assignments.len() ==> #[trigger] summary.assignments@[j].mines == count_true(
                mask_choice(summary.assignments@[j].mask, summary.cells.len() as int),
            ),
        e matches Some(ComponentEnumeration::Enumerated(summary)) ==> assignments_realized(
            summary.assignments@,
            summary.cells@,
            constraints@,
            n as nat,
        ),
        e matches Some(ComponentEnumeration::Enumerated(summary)) ==> assignments_distinct(
            summary.assignments@,
            summary.cells.len() as int,
        ),
        e matches Some(ComponentEnumeration::Skipped) ==> constraint_cell_set(constraints@).len() > SMALL_COMPONENT_CELLS,
        e matches Some(ComponentEnumeration::Skipped) ==> constraint_cell_set(constraints@).len() > MAX_COMPONENT_CELLS
            || exists|ls: Seq<Seq<bool>>|
            ls.len() > MAX_COMPONENT_SOLUTIONS && ls.no_duplicates() && forall|i: int|
                0 <= i < ls.len() ==> (#[trigger] ls[i]).len() == n && meets_all(ls[i], constraints@),
        e is None ==> (exists|k: int| 0 <= k < constraints.len() && #[trigger] constraints@[k].mines
            > constraints@[k].cells.len()) || !(exists|layout: Seq<bool>| layout.len() == n && #[trigger] meets_all(layout, constraints@)),
{
    let mut in_component = new_flags(n);
    let mut c: usize = 0;
    while c < constraints.len()
        invariant
            constraints_ok(constraints@, n as nat),
            in_component.len() == n,
            c <= constraints.len(),
            forall|c2: int, j: int| 0 <= c2 < c && 0 <= j < constraints@[c2].cells.len() ==> in_component@[#[trigger] constraints@[c2].cells@[j] as int],
            forall|x: int| 0 <= x < n && #[trigger] in_component@[x] ==> constraint_cell_set(constraints@).contains(x as usize),
        decreases constraints.len() - c,
    {
        let mut k: usize = 0;
        while k < constraints[c].cells.len()
            invariant
                constraints_ok(constraints@, n as nat),
                in_component.len() == n,
                c < constraints.len(),
                k <= constraints[c as int].cells.len(),
                forall|c2: int, j: int| 0 <= c2 < c && 0 <= j < constraints@[c2].cells.len() ==> in_component@[#[trigger] constraints@[c2].cells@[j] as int],
                forall|j: int| 0 <= j < k ==> in_component@[#[trigger] constraints@[c as int].cells@[j] as int],
                forall|x: int| 0 <= x < n && #[trigger] in_component@[x] ==> constraint_cell_set(constraints@).contains(x as usize),
            decreases constraints[c as int].cells.len() - k,
        {
            proof {
                assert(constraint_ok(&constraints@[c as int], n as nat));
                let x = constraints@[c as int].cells@[k as int];
                assert(constraints@[c as int].cells@[k as int] == x);
                assert(constraint_cell_set(constraints@).contains(x));
            }
            in_component.set(constraints[c].cells[k], true);
            k = k + 1;
        }
        c = c + 1;
    }
    let mut cells: Vec<usize> = Vec::new();
    let mut i: usize = 0;
    while i < n
        invariant
            i <= n,
            in_component.len() == n,
            forall|k: int| 0 <= k < cells.len() ==> (#[trigger] cells@[k]) < i,
            strictly_sorted(cells@),
            forall|x: usize| x < i && #[trigger] in_component@[x as int] ==> cells@.contains(x),
            forall|k: int| 0 <= k < cells.len() ==> in_component@[#[trigger] cells@[k] as int],
        decreases n - i,
    {
        let ghost before = cells@;
        if in_component[i] {
            cells.push(i);
        }
        proof {
            assert forall|x: usize| x < i + 1 && #[trigger] in_component@[x as int] implies cells@.contains(x) by {
                if x < i {
                    let j = choose|j: int| 0 <= j < before.len() && before[j] == x;
                    assert(cells@[j] == x);
                } else {
                    assert(cells@[cells.len() - 1] == x);
                }
            }
        }
        i = i + 1;
    }
    proof {
        assert(cells@.to_set() =~= constraint_cell_set(constraints@)) by {
            assert forall|x: usize| #[trigger] constraint_cell_set(constraints@).contains(x) implies cells@.to_set().contains(x) by {
                let (k, j) = choose|k: int, j: int|
                    0 <= k < constraints.len() && 0 <= j < constraints@[k].cells.len() && #[trigger] constraints@[k].cells@[j] == x;
                assert(constraint_ok(&constraints@[k], n as nat));
                assert(in_component@[constraints@[k].cells@[j] as int]);
            }
            assert forall|x: usize| cells@.to_set().contains(x) implies #[trigger] constraint_cell_set(constraints@).contains(x) by {
                let k = choose|k: int| 0 <= k < cells.len() && cells@[k] == x;
                assert(in_component@[cells@[k] as int]);
            }
        }
        lemma_sorted_no_duplicates(cells@);
        cells@.unique_seq_to_set();
    }
    if cells.len() > MAX_COMPONENT_CELLS {
        return Some(ComponentEnumeration::Skipped);
    }
    // how many constraints touch each cell
    let mut touch: Vec<usize> = Vec::new();
    let mut p: usize = 0;
    while p < cells.len()
        invariant
            p <= cells.len(),
            touch.len() == p,
        decreases cells.len() - p,
    {
        let mut count: usize = 0;
        let mut c: usize = 0;
        while c < constraints.len()
            invariant
                p < cells.len(),
                c <= constraints.len(),
                count <= c,
            decreases constraints.len() - c,
        {
            if sorted_contains_any(&constraints[c].cells, cells[p]) {
                count = count + 1;
            }
            c = c + 1;
        }
        touch.push(count);
        p = p + 1;
    }
    // stable insertion sort by touch count, most touched first
    let mut order: Vec<usize> = Vec::new();
    let mut order_touch: Vec<usize> = Vec::new();
    let mut p: usize = 0;
    while p < cells.len()
        invariant
            p <= cells.len(),
            touch.len() == cells.len(),
            cells.len() <= MAX_COMPONENT_CELLS,
            order.len() == p,
            order_touch.len() == p,
            forall|k: int| 0 <= k < order.len() ==> (#[trigger] order@[k]) < n,
            forall|k: int| 0 <= k < cells.len() ==> (#[trigger] cells@[k]) < n,
            strictly_sorted(cells@),
            order@.no_duplicates(),
            forall|y: usize| #[trigger] order@.contains(y) <==> cells@.take(p as int).contains(y),
        decreases cells.len() - p,
    {
        let t = touch[p];
        let mut at: usize = order.len();
        while at > 0 && order_touch[at - 1] < t
            invariant
                at <= order.len(),
                order_touch.len() == order.len(),
            decreases at,
        {
            at = at - 1;
        }
        proof {
            assert(!cells@.take(p as int).contains(cells@[p as int])) by {
                if cells@.take(p as int).contains(cells@[p as int]) {
                    let j = choose|j: int| 0 <= j < p && #[trigger] cells@.take(p as int)[j] == cells@[p as int];
                    assert(cells@[j] < cells@[p as int]);
                }
            }
            lemma_insert_fresh(order@, at as int, cells@[p as int]);
            assert forall|y: usize| #[trigger] cells@.take(p + 1).contains(y) <==> (cells@.take(p as int).contains(y)
                || y == cells@[p as int]) by {
                if cells@.take(p + 1).contains(y) {
                    let j = choose|j: int| 0 <= j < p + 1 && #[trigger] cells@.take(p + 1)[j] == y;
                    if j < p {
                        assert(cells@.take(p as int)[j] == y);
                    }
                }
                if cells@.take(p as int).contains(y) {
                    let j = choose|j: int| 0 <= j < p && #[trigger] cells@.take(p as int)[j] == y;
                    assert(cells@.take(p + 1)[j] == y);
                }
                if y == cells@[p as int] {
                    assert(cells@.take(p + 1)[p as int] == y);
                }
            }
        }
        order.insert(at, cells[p]);
        order_touch.insert(at, t);
        p = p + 1;
    }
    proof {
        assert(cells@.take(cells.len() as int) == cells@);
    }
    let ghost sorted_cells = cells@;
    let cells = order;
    proof {
        assert(cells.len() == constraint_cell_set(constraints@).len());
    }
    proof {
        assert forall|c2: int, j: int| 0 <= c2 < constraints.len() && 0 <= j < constraints@[c2].cells.len()
            implies cells@.contains(#[trigger] constraints@[c2].cells@[j]) by {
            assert(in_component@[constraints@[c2].cells@[j] as int]);
            assert(constraint_ok(&constraints@[c2], n as nat));
            assert(sorted_cells.take(sorted_cells.len() as int).contains(constraints@[c2].cells@[j]));
        }
    }
    // the component's constraints over cell positions
    let mut component_cells: Vec<Vec<usize>> = Vec::new();
    let mut component_mines: Vec<usize> = Vec::new();
    let mut c: usize = 0;
    while c < constraints.len()
        invariant
            c <= constraints.len(),
            component_cells.len() == c,
            component_mines.len() == c,
            forall|j: int, k: int|
                0 <= j < c && 0 <= k < component_cells@[j].len() ==> (#[trigger] component_cells@[j]@[k])
                    < cells.len(),
            forall|c2: int, j: int| 0 <= c2 < constraints.len() && 0 <= j < constraints@[c2].cells.len()
                ==> cells@.contains(#[trigger] constraints@[c2].cells@[j]),
            forall|c2: int| 0 <= c2 < c ==> (#[trigger] component_cells@[c2]).len() == constraints@[c2].cells.len()
                && component_mines@[c2] == constraints@[c2].mines,
            forall|c2: int, j: int| 0 <= c2 < c && 0 <= j < component_cells@[c2].len() ==> cells@[#[trigger] component_cells@[c2]@[j] as int]
                == constraints@[c2].cells@[j],
        decreases constraints.len() - c,
    {
        let mut positions: Vec<usize> = Vec::new();
        let mut k: usize = 0;
        while k < constraints[c].cells.len()
            invariant
                c < constraints.len(),
                k <= constraints[c as int].cells.len(),
                positions.len() <= k,
                forall|j: int| 0 <= j < positions.len() ==> (#[trigger] positions@[j]) < cells.len(),
                forall|c2: int, j: int| 0 <= c2 < constraints.len() && 0 <= j < constraints@[c2].cells.len()
                    ==> cells@.contains(#[trigger] constraints@[c2].cells@[j]),
                positions.len() == k,
                forall|j: int| 0 <= j < k ==> cells@[#[trigger] positions@[j] as int] == constraints@[c as int].cells@[j],
            decreases constraints[c as int].cells.len() - k,
        {
            match position_of(&cells, constraints[c].cells[k]) {
                Some(pos) => positions.push(pos),
                None => {
                    proof {
                        assert(cells@.contains(constraints@[c as int].cells@[k as int]));
                    }
                },
            }
            k = k + 1;
        }
        if constraints[c].mines > positions.len() {
            proof {
                assert(constraints@[c as int].mines > constraints@[c as int].cells.len());
            }
            return None;
        }
        component_cells.push(positions);
        component_mines.push(constraints[c].mines);
        c = c + 1;
    }
    assert forall|ci: int| 0 <= ci < constraints.len() implies #[trigger] component_mines@[ci] == constraints@[ci].mines by {
        assert(component_cells@[ci].len() == constraints@[ci].cells.len());
    }
    // which constraints touch each position, in constraint order
    let mut touching: Vec<Vec<usize>> = Vec::new();
    let mut p: usize = 0;
    while p < cells.len()
        invariant
            p <= cells.len(),
            cells.len() <= MAX_COMPONENT_CELLS,
            touching.len() == p,
            component_cells.len() == component_mines.len(),
            forall|q: int| 0 <= q < p ==> (#[trigger] touching@[q]@).no_duplicates(),
            forall|q: int, k: int|
                0 <= q < p && 0 <= k < touching@[q]@.len() ==> (#[trigger] touching@[q]@[k])
                    < component_cells.len(),
            forall|q: int, ci: usize| 0 <= q < p && ci < component_cells.len() ==> (#[trigger] touching@[q]@.contains(ci)
                <==> component_cells@[ci as int]@.contains(q as usize)),
        decreases cells.len() - p,
    {
        let mut list: Vec<usize> = Vec::new();
        let mut c: usize = 0;
        while c < component_cells.len()
            invariant
                c <= component_cells.len(),
                forall|k: int| 0 <= k < list.len() ==> (#[trigger] list@[k]) < c,
                forall|a: int, b: int| 0 <= a < b < list.len() ==> list@[a] < list@[b],
                forall|ci: usize| #[trigger] list@.contains(ci) <==> (ci < c && component_cells@[ci as int]@.contains(p)),
            decreases component_cells.len() - c,
        {
            let ghost before = list@;
            proof {
                assert forall|ci: usize| #[trigger] before.contains(ci) <==> (ci < c && component_cells@[ci as int]@.contains(p)) by {
                    assert(list@.contains(ci) == before.contains(ci));
                }
            }
            if list_contains(&component_cells[c], p) {
                list.push(c);
            }
            proof {
                assert forall|ci: usize| #[trigger] list@.contains(ci) <==> (ci < c + 1 && component_cells@[ci as int]@.contains(p)) by {
                    if list@.contains(ci) {
                        let j = choose|j: int| 0 <= j < list.len() && #[trigger] list@[j] == ci;
                        if j < before.len() {
                            assert(before[j] == ci);
                            assert(before.contains(ci));
                        }
                    }
                    if ci < c && component_cells@[ci as int]@.contains(p) {
                        assert(before.contains(ci));
                        let j = choose|j: int| 0 <= j < before.len() && #[trigger] before[j] == ci;
                        assert(list@[j] == ci);
                    }
                    if ci == c && component_cells@[ci as int]@.contains(p) {
                        assert(list@[list.len() - 1] == ci);
                    }
                }
            }
            c = c + 1;
        }
        proof {
            assert(list@.no_duplicates()) by {
                assert forall|a: int, b: int| 0 <= a < list.len() && 0 <= b < list.len() && a != b implies list@[a] != list@[b] by {
                    if a < b {
                        assert(list@[a] < list@[b]);
                    } else {
                        assert(list@[b] < list@[a]);
                    }
                }
            }
        }
        touching.push(list);
        p = p + 1;
    }
    // progress of every constraint before any cell is assigned
    let ghost tv = touching_view(touching@);
    let mut progress: Vec<ConstraintProgress> = Vec::new();
    let mut c: usize = 0;
    while c < component_cells.len()
        invariant
            c <= component_cells.len(),
            component_cells.len() == component_mines.len(),
            progress.len() == c,
            tv == touching_view(touching@),
            tv.len() <= MAX_COMPONENT_CELLS,
            forall|ci: int|
                0 <= ci < c ==> (#[trigger] progress@[ci]).unassigned == touch_count(tv, ci as usize, 0)
                    && progress@[ci].mines == 0 && progress@[ci].required_mines == component_mines@[ci],
        decreases component_cells.len() - c,
    {
        let mut count: usize = 0;
        let mut q: usize = touching.len();
        while q > 0
            invariant
                q <= touching.len(),
                tv == touching_view(touching@),
                tv.len() <= MAX_COMPONENT_CELLS,
                count == touch_count(tv, c, q as int),
                count <= touching.len() - q,
            decreases q,
        {
            q = q - 1;
            proof {
                assert(tv[q as int] == touching@[q as int]@);
            }
            if list_contains(&touching[q], c) {
                count = count + 1;
            }
        }
        progress.push(ConstraintProgress { mines: 0, unassigned: count, required_mines: component_mines[c] });
        c = c + 1;
    }
    let mut assignments: Vec<ComponentAssignment> = Vec::new();
    proof {
        assert forall|q: int| 0 <= q < tv.len() implies (#[trigger] tv[q]).no_duplicates() by {
            assert(tv[q] == touching@[q]@);
        }
        assert forall|q: int, k: int| 0 <= q < tv.len() && 0 <= k < tv[q].len() implies (#[trigger] tv[q][k]) < progress.len() by {
            assert(tv[q] == touching@[q]@);
        }
    }
    proof {
        lemma_empty_mask();
    }
    assert(forall|ci: int| 0 <= ci < constraints.len() ==> #[trigger] component_mines@[ci] == constraints@[ci].mines);
    let completed = collect_component_assignments(
        0,
        &touching,
        &mut progress,
        0,
        0,
        &mut assignments,
        Ghost(Seq::empty()),
        Ghost(component_mines@),
    );
    proof {
        assert forall|layout: Seq<bool>| layout.len() == n implies (#[trigger] meets_all(layout, constraints@) <==> choice_meets(
            tv,
            cells_choice(layout, cells@),
            component_mines@,
        )) by {
            let choice = cells_choice(layout, cells@);
            assert forall|ci: int| 0 <= ci < component_mines.len() implies #[trigger] touched_mines(tv, choice, ci as usize, tv.len() as int)
                == mines_among(layout, constraints@[ci].cells@).len() by {
                let c = &constraints@[ci];
                assert forall|q: int| 0 <= q < tv.len() implies (#[trigger] tv[q].contains(ci as usize) <==> c.cells@.contains(cells@[q])) by {
                    assert(tv[q] == touching@[q]@);
                    if tv[q].contains(ci as usize) {
                        assert(component_cells@[ci]@.contains(q as usize));
                        let j = choose|j: int| 0 <= j < component_cells@[ci].len() && #[trigger] component_cells@[ci]@[j] == q as usize;
                        assert(cells@[component_cells@[ci]@[j] as int] == c.cells@[j]);
                    }
                    if c.cells@.contains(cells@[q]) {
                        let j = choose|j: int| 0 <= j < c.cells.len() && #[trigger] c.cells@[j] == cells@[q];
                        let pq = component_cells@[ci]@[j];
                        assert(cells@[pq as int] == c.cells@[j]);
                        assert(pq as int == q);
                        assert(component_cells@[ci]@.contains(q as usize));
                    }
                }
                assert forall|x: usize| #[trigger] c.cells@.contains(x) implies cells@.contains(x) by {
                    let j = choose|j: int| 0 <= j < c.cells.len() && #[trigger] c.cells@[j] == x;
                }
                lemma_touched_is_mines_among(layout, cells@, tv, c, ci as usize);
            }
            if meets_all(layout, constraints@) {
                assert forall|ci: int| 0 <= ci < component_mines.len() implies #[trigger] touched_mines(tv, choice, ci as usize, tv.len() as int)
                    == component_mines@[ci] by {
                    assert(component_mines.len() == constraints.len());
                    assert(meets(layout, &constraints@[ci]));
                    assert(touched_mines(tv, choice, ci as usize, tv.len() as int) == mines_among(layout, constraints@[ci].cells@).len());
                    assert(component_mines@[ci] == constraints@[ci].mines);
                }
            }
            if choice_meets(tv, choice, component_mines@) {
                assert forall|k: int| 0 <= k < constraints.len() implies meets(layout, &#[trigger] constraints@[k]) by {
                    assert(component_mines.len() == constraints.len());
                    assert(touched_mines(tv, choice, k as usize, tv.len() as int) == component_mines@[k]);
                    assert(touched_mines(tv, choice, k as usize, tv.len() as int) == mines_among(layout, constraints@[k].cells@).len());
                    assert(component_mines@[k] == constraints@[k].mines);
                }
            }
        }
        assert forall|ch: Seq<bool>| ch.len() == cells.len() implies #[trigger] cells_choice(layout_of(ch, cells@, n as nat), cells@) == ch by {
            lemma_layout_of(ch, cells@, n as nat);
        }
        if completed {
            assert forall|layout: Seq<bool>| layout.len() == n && #[trigger] meets_all(layout, constraints@) implies exists|j: int|
                0 <= j < assignments.len() && mask_matches(#[trigger] assignments@[j].mask, cells_choice(layout, cells@)) by {
                let choice = cells_choice(layout, cells@);
                assert(choice.subrange(0, 0) =~= Seq::<bool>::empty());
                assert(choice.len() == touching.len());
                assert(choice_meets(tv, choice, component_mines@));
            }
        }
        let len = cells.len() as int;
        if !completed {
            lemma2_to64();
            if cells.len() <= SMALL_COMPONENT_CELLS {
                if cells.len() < SMALL_COMPONENT_CELLS {
                    lemma_pow2_strictly_increases(cells.len() as nat, 16);
                }
                assert(assignments.len() <= pow2(cells.len() as nat));
                assert(false);
            }
            let ls = Seq::new(assignments.len() as nat, |j: int| layout_of(mask_choice(assignments@[j].mask, len), cells@, n as nat));
            assert forall|i: int| 0 <= i < ls.len() implies (#[trigger] ls[i]).len() == n && meets_all(ls[i], constraints@) by {
                let ch = mask_choice(assignments@[i].mask, len);
                assert(cells_choice(ls[i], cells@) == ch);
                assert(choice_meets(tv, ch, component_mines@));
            }
            assert forall|a: int, b: int| 0 <= a < ls.len() && 0 <= b < ls.len() && a != b implies ls[a] != ls[b] by {
                let cha = mask_choice(assignments@[a].mask, len);
                let chb = mask_choice(assignments@[b].mask, len);
                assert(cells_choice(ls[a], cells@) == cha);
                assert(cells_choice(ls[b], cells@) == chb);
                if a < b {
                    assert(cha != chb);
                } else {
                    assert(chb != cha);
                }
            }
            assert(ls.no_duplicates());
        }
    }
    if !completed {
        return Some(ComponentEnumeration::Skipped);
    }
    if assignments.len() == 0 {
        return None;
    }
    proof {
        assert(sorted_cells.to_set() == constraint_cell_set(constraints@));
        assert(cells@.to_set() =~= constraint_cell_set(constraints@)) by {
            assert forall|x: usize| cells@.to_set().contains(x) <==> sorted_cells.to_set().contains(x) by {
                assert(cells@.contains(x) <==> sorted_cells.take(sorted_cells.len() as int).contains(x));
            }
        }
        assert(tv.len() == cells.len());
        assert(new_entries_ok(Seq::empty(), assignments@, tv, Seq::empty(), component_mines@));
        let len = cells.len() as int;
        assert(assignments_distinct(assignments@, len));
        let aseq = assignments@;
        let cseq = cells@;
        assert forall|j: int| 0 <= j < aseq.len() implies #[trigger] realized(aseq[j].mask, cseq, constraints@, n as nat) by {
            let ch = mask_choice(assignments@[j].mask, len);
            let layout = layout_of(ch, cells@, n as nat);
            assert(choice_meets(tv, mask_choice(assignments@[j].mask, tv.len() as int), component_mines@));
            assert(cells_choice(layout, cells@) == ch);
            assert(meets_all(layout, constraints@));
            assert(mask_matches(aseq[j].mask, cells_choice(layout, cseq)));
        }
    }
    Some(ComponentEnumeration::Enumerated(ComponentSummary { cells, assignments }))
}

/// Whether a list holds `x` (linear search).
fn list_contains(v: &Vec<usize>, x: usize) -> (b: bool)
    ensures
        b == v@.contains(x),
{
    let mut k: usize = 0;
    while k < v.len()
        invariant
            k <= v.len(),
            forall|j: int| 0 <= j < k ==> v@[j] != x,
        decreases v.len() - k,
    {
        if v[k] == x {
            return true;
        }
        k = k + 1;
    }
    false
}

/// Whether a constraint's cell list holds `x`.
fn sorted_contains_any(v: &Vec<usize>, x: usize) -> (b: bool)
    ensures
        b == v@.contains(x),
{
    list_contains(v, x)
}

/// Records the cells that are a mine in every listed assignment and those that are a mine in
/// none. Fails when there is no assignment.
fn collect_assignment_certainties(
    cells: &Vec<usize>,
    masks: &Vec<u64>,
    deductions: &mut Deductions,
    n: usize,
    Ghost(cs): Ghost<Seq<Constraint>>,
) -> (ok: bool)
    requires
        cells.len() <= MAX_COMPONENT_CELLS,
        forall|k: int| 0 <= k < cells.len() ==> (#[trigger] cells@[k]) < n,
        deductions_ok(old(deductions), n as nat),
    ensures
        deductions_ok(final(deductions), n as nat),
        ok == (masks.len() > 0),
        deductions_sound(old(deductions), cs, n as nat) && masks_cover(masks@, cells@, cs, n as nat)
            ==> deductions_sound(final(deductions), cs, n as nat),
        forall|i: int| 0 <= i < n && #[trigger] old(deductions).safe@[i] ==> final(deductions).safe@[i],
        forall|i: int| 0 <= i < n && #[trigger] old(deductions).mines@[i] ==> final(deductions).mines@[i],
        forall|q: int|
            0 <= q < cells.len() && masks.len() > 0 && (forall|j: int| 0 <= j < masks.len() ==> !mask_bit(#[trigger] masks@[j], q))
                ==> #[trigger] final(deductions).safe@[cells@[q] as int],
        forall|q: int|
            0 <= q < cells.len() && masks.len() > 0 && (forall|j: int| 0 <= j < masks.len() ==> mask_bit(#[trigger] masks@[j], q))
                ==> #[trigger] final(deductions).mines@[cells@[q] as int],
{
    if masks.len() == 0 {
        return false;
    }
    let len = cells.len();
    let shift: u64 = len as u64;
    assert(1u64 << shift >= 1u64) by (bit_vector)
        requires
            shift < 64,
    ;
    let all_cells_mask: u64 = (1u64 << shift) - 1;
    proof {
        assert forall|q: int| 0 <= q < len implies #[trigger] mask_bit(all_cells_mask, q) by {
            let b = q as u64;
            assert(((((1u64 << shift) - 1) as u64) >> b) & 1u64 == 1u64) by (bit_vector)
                requires
                    shift < 64,
                    b < shift,
            ;
        }
        lemma_empty_mask();
    }
    let mut always_mines = all_cells_mask;
    let mut sometimes_mines: u64 = 0;
    let mut k: usize = 0;
    while k < masks.len()
        invariant
            k <= masks.len(),
            len == cells.len(),
            len <= MAX_COMPONENT_CELLS,
            forall|q: int| 0 <= q < len ==> #[trigger] mask_bit(always_mines, q) == forall|j: int|
                0 <= j < k ==> mask_bit(#[trigger] masks@[j], q),
            forall|q: int| 0 <= q < len ==> #[trigger] mask_bit(sometimes_mines, q) == exists|j: int|
                0 <= j < k && mask_bit(#[trigger] masks@[j], q),
        decreases masks.len() - k,
    {
        let m = masks[k];
        proof {
            assert forall|q: int| 0 <= q < len implies #[trigger] mask_bit(always_mines & m, q) == (mask_bit(always_mines, q)
                && mask_bit(m, q)) && mask_bit(sometimes_mines | m, q) == (mask_bit(sometimes_mines, q) || mask_bit(m, q)) by {
                lemma_mask_and_or(always_mines, sometimes_mines, m, q as u64);
            }
        }
        let ghost old_sometimes = sometimes_mines;
        always_mines = always_mines & m;
        sometimes_mines = sometimes_mines | m;
        proof {
            assert forall|q: int| 0 <= q < len implies #[trigger] mask_bit(sometimes_mines, q) == exists|j: int|
                0 <= j < k + 1 && mask_bit(#[trigger] masks@[j], q) by {
                lemma_mask_and_or(m, old_sometimes, m, q as u64);
                if mask_bit(m, q) {
                    assert(mask_bit(masks@[k as int], q));
                }
                if exists|j: int| 0 <= j < k + 1 && mask_bit(#[trigger] masks@[j], q) {
                    let j = choose|j: int| 0 <= j < k + 1 && mask_bit(#[trigger] masks@[j], q);
                    if j < k {
                        assert(mask_bit(old_sometimes, q));
                    }
                }
            }
        }
        k = k + 1;
    }
    let mut position: usize = 0;
    while position < len
        invariant
            len == cells.len(),
            len <= MAX_COMPONENT_CELLS,
            position <= len,
            forall|k: int| 0 <= k < cells.len() ==> (#[trigger] cells@[k]) < n,
            deductions_ok(deductions, n as nat),
            deductions_ok(old(deductions), n as nat),
            forall|q: int| 0 <= q < len ==> #[trigger] mask_bit(always_mines, q) == forall|j: int|
                0 <= j < masks.len() ==> mask_bit(#[trigger] masks@[j], q),
            forall|q: int| 0 <= q < len ==> #[trigger] mask_bit(sometimes_mines, q) == exists|j: int|
                0 <= j < masks.len() && mask_bit(#[trigger] masks@[j], q),
            forall|i: int| 0 <= i < n ==> #[trigger] deductions.safe@[i] ==> old(deductions).safe@[i] || exists|q: int|
                0 <= q < position && cells@[q] == i && !#[trigger] mask_bit(sometimes_mines, q),
            forall|i: int| 0 <= i < n && #[trigger] old(deductions).safe@[i] ==> deductions.safe@[i],
            forall|i: int| 0 <= i < n ==> #[trigger] deductions.mines@[i] ==> old(deductions).mines@[i] || exists|q: int|
                0 <= q < position && cells@[q] == i && #[trigger] mask_bit(always_mines, q),
            forall|i: int| 0 <= i < n && #[trigger] old(deductions).mines@[i] ==> deductions.mines@[i],
            masks.len() > 0,
            forall|q: int| 0 <= q < position && !mask_bit(sometimes_mines, q) ==> #[trigger] deductions.safe@[cells@[q] as int],
            forall|q: int| 0 <= q < position && mask_bit(always_mines, q) ==> #[trigger] deductions.mines@[cells@[q] as int],
        decreases len - position,
    {
        let cell_mask: u64 = 1u64 << position as u64;
        proof {
            lemma_mask_single_bit(always_mines, position as u64);
            lemma_mask_single_bit(sometimes_mines, position as u64);
        }
        proof {
            if !mask_bit(sometimes_mines, position as int) {
                assert(!mask_bit(masks@[0], position as int));
            }
        }
        if always_mines & cell_mask != 0 {
            deductions.mines.set(cells[position], true);
        } else if sometimes_mines & cell_mask == 0 {
            deductions.safe.set(cells[position], true);
        }
        position = position + 1;
    }
    proof {
        assert forall|q: int|
            0 <= q < cells.len() && masks.len() > 0 && (forall|j: int| 0 <= j < masks.len() ==> !mask_bit(#[trigger] masks@[j], q))
                implies #[trigger] deductions.safe@[cells@[q] as int] by {
            assert(!mask_bit(sometimes_mines, q));
        }
        assert forall|q: int|
            0 <= q < cells.len() && masks.len() > 0 && (forall|j: int| 0 <= j < masks.len() ==> mask_bit(#[trigger] masks@[j], q))
                implies #[trigger] deductions.mines@[cells@[q] as int] by {
            assert(mask_bit(always_mines, q));
        }
    }
    proof {
        if deductions_sound(old(deductions), cs, n as nat) && masks_cover(masks@, cells@, cs, n as nat) {
            assert forall|layout: Seq<bool>, i: int|
                layout.len() == n && meets_all(layout, cs) && 0 <= i < n implies (deductions.safe@[i]
                    ==> !layout[i]) && (deductions.mines@[i] ==> layout[i]) by {
                let j = choose|j: int| 0 <= j < masks.len() && mask_matches(#[trigger] masks@[j], cells_choice(layout, cells@));
                if deductions.safe@[i] && !old(deductions).safe@[i] {
                    let q = choose|q: int| 0 <= q < position && cells@[q] == i && !#[trigger] mask_bit(sometimes_mines, q);
                    assert(mask_bit(masks@[j], q) == cells_choice(layout, cells@)[q]);
                }
                if deductions.mines@[i] && !old(deductions).mines@[i] {
                    let q = choose|q: int| 0 <= q < position && cells@[q] == i && #[trigger] mask_bit(always_mines, q);
                    assert(mask_bit(masks@[j], q) == cells_choice(layout, cells@)[q]);
                }
            }
        }
    }
    true
}

/// The mines a layout puts on the listed cells, position by position.
pub open spec fn cells_choice(layout: Seq<bool>, cells: Seq<usize>) -> Seq<bool> {
    Seq::new(cells.len(), |p: int| layout[cells[p] as int])
}

/// Every layout of `n` cells that meets all of `cs` puts its mines on `cells` as one of
/// the masks says.
pub open spec fn masks_cover(masks: Seq<u64>, cells: Seq<usize>, cs: Seq<Constraint>, n: nat) -> bool {
    forall|layout: Seq<bool>|
        layout.len() == n && #[trigger] meets_all(layout, cs) ==> exists|j: int|
            0 <= j < masks.len() && mask_matches(#[trigger] masks[j], cells_choice(layout, cells))
}

/// The positions before `to` that constraint `ci` touches and that hold a mine in `choice`.
spec fn touched_set(t: Seq<Seq<usize>>, choice: Seq<bool>, ci: usize, to: int) -> Set<int> {
    Set::new(|q: int| 0 <= q < to && t[q].contains(ci) && choice[q])
}

proof fn lemma_touched_set(t: Seq<Seq<usize>>, choice: Seq<bool>, ci: usize, to: int)
    requires
        0 <= to,
    ensures
        touched_set(t, choice, ci, to).finite(),
        touched_set(t, choice, ci, to).len() == touched_mines(t, choice, ci, to),
    decreases to,
{
    broadcast use vstd::set::group_set_axioms;

    if to == 0 {
        assert(touched_set(t, choice, ci, to) =~= Set::empty());
    } else {
        lemma_touched_set(t, choice, ci, to - 1);
        if t[to - 1].contains(ci) && choice[to - 1] {
            assert(touched_set(t, choice, ci, to) =~= touched_set(t, choice, ci, to - 1).insert(to - 1));
        } else {
            assert(touched_set(t, choice, ci, to) =~= touched_set(t, choice, ci, to - 1));
        }
    }
}

/// When position `q` is touched by `ci` exactly when the cell there belongs to `c`, the mines
/// counted over the touched positions are the mines `layout` puts on `c`.
proof fn lemma_touched_is_mines_among(
    layout: Seq<bool>,
    cells: Seq<usize>,
    t: Seq<Seq<usize>>,
    c: &Constraint,
    ci: usize,
)
    requires
        cells.no_duplicates(),
        t.len() == cells.len(),
        forall|q: int| 0 <= q < t.len() ==> (#[trigger] t[q].contains(ci) <==> c.cells@.contains(cells[q])),
        forall|x: usize| #[trigger] c.cells@.contains(x) ==> cells.contains(x),
        forall|q: int| 0 <= q < cells.len() ==> (#[trigger] cells[q]) < layout.len(),
    ensures
        touched_mines(t, cells_choice(layout, cells), ci, t.len() as int) == mines_among(layout, c.cells@).len(),
{
    let choice = cells_choice(layout, cells);
    let len = t.len() as int;
    lemma_touched_set(t, choice, ci, len);
    let positions = touched_set(t, choice, ci, len);
    let f = |q: int| cells[q];
    let mines = mines_among(layout, c.cells@);
    assert forall|x: usize| #[trigger] positions.map(f).contains(x) <==> mines.contains(x) by {
        if positions.map(f).contains(x) {
            let q = choose|q: int| positions.contains(q) && f(q) == x;
            assert(t[q].contains(ci));
            assert(choice[q] == layout[cells[q] as int]);
        }
        if mines.contains(x) {
            assert(cells.contains(x));
            let q = choose|q: int| 0 <= q < cells.len() && cells[q] == x;
            assert(t[q].contains(ci));
            assert(choice[q] == layout[cells[q] as int]);
            assert(positions.contains(q));
            assert(f(q) == x);
        }
    }
    assert(positions.map(f) =~= mines);
    assert(vstd::relations::injective_on(f, positions)) by {
        assert forall|q1: int, q2: int|
            positions.contains(q1) && positions.contains(q2) && #[trigger] f(q1) == #[trigger] f(q2) implies q1 == q2 by {
            if q1 != q2 {
                assert(cells[q1] != cells[q2]);
            }
        }
    }
    vstd::set_lib::lemma_map_size(positions, mines, f);
}

/// Bits of a conjunction and a disjunction of masks.
proof fn lemma_mask_and_or(a: u64, o: u64, m: u64, q: u64)
    requires
        q < 64,
    ensures
        mask_bit(a & m, q as int) == (mask_bit(a, q as int) && mask_bit(m, q as int)),
        mask_bit(o | m, q as int) == (mask_bit(o, q as int) || mask_bit(m, q as int)),
{
    assert(((a & m) >> q) & 1u64 == 1u64 <==> (((a >> q) & 1u64 == 1u64) && ((m >> q) & 1u64 == 1u64))) by (bit_vector)
        requires
            q < 64,
    ;
    assert(((o | m) >> q) & 1u64 == 1u64 <==> (((o >> q) & 1u64 == 1u64) || ((m >> q) & 1u64 == 1u64))) by (bit_vector)
        requires
            q < 64,
    ;
}

/// Testing a mask against the single bit `p` reads bit `p`.
proof fn lemma_mask_single_bit(a: u64, p: u64)
    requires
        p < 64,
    ensures
        (a & (1u64 << p) != 0) == mask_bit(a, p as int),
{
    assert((a & (1u64 << p) != 0) <==> ((a >> p) & 1u64 == 1u64)) by (bit_vector)
        requires
            p < 64,
    ;
}

/// A strictly increasing list of mine totals.
pub open spec fn count_set_ok(s: Seq<usize>, max: usize) -> bool {
    &&& strictly_sorted(s)
    &&& forall|k: int| 0 <= k < s.len() ==> (#[trigger] s[k]) <= max
}

/// Every total of one count from `left` and one from `right` that does not exceed `max`,
/// in increasing order.
fn combine_mine_counts(left: &Vec<usize>, right: &Vec<usize>, max_mines: usize) -> (c: Vec<usize>)
    requires
        max_mines < usize::MAX,
    ensures
        count_set_ok(c@, max_mines),
        forall|x: usize|
            c@.contains(x) <==> exists|a: int, b: int|
                0 <= a < left.len() && 0 <= b < right.len() && #[trigger] left@[a] + #[trigger] right@[b]
                    == x && x <= max_mines,
{
    let mut hit = new_flags(max_mines + 1);
    let mut a: usize = 0;
    while a < left.len()
        invariant
            a <= left.len(),
            hit.len() == max_mines + 1,
            forall|x: int|
                0 <= x <= max_mines ==> (#[trigger] hit@[x] <==> exists|i: int, j: int|
                    0 <= i < a && 0 <= j < right.len() && #[trigger] left@[i] + #[trigger] right@[j] == x),
        decreases left.len() - a,
    {
        let mut b: usize = 0;
        while b < right.len()
            invariant
                a < left.len(),
                b <= right.len(),
                hit.len() == max_mines + 1,
                forall|x: int|
                    0 <= x <= max_mines ==> (#[trigger] hit@[x] <==> (exists|i: int, j: int|
                        0 <= i < a && 0 <= j < right.len() && #[trigger] left@[i] + #[trigger] right@[j]
                            == x) || exists|j: int| 0 <= j < b && left@[a as int] + #[trigger] right@[j] == x),
            decreases right.len() - b,
        {
            let l = left[a];
            let r = right[b];
            if l <= max_mines && r <= max_mines - l {
                hit.set(l + r, true);
            }
            proof {
                assert forall|x: int| 0 <= x <= max_mines implies (#[trigger] hit@[x] <==> (exists|i: int, j: int|
                    0 <= i < a && 0 <= j < right.len() && #[trigger] left@[i] + #[trigger] right@[j] == x)
                    || exists|j: int| 0 <= j < b + 1 && left@[a as int] + #[trigger] right@[j] == x) by {
                    if x == l + r {
                        assert(left@[a as int] + right@[b as int] == x);
                    }
                }
            }
            b = b + 1;
        }
        proof {
            assert forall|x: int| 0 <= x <= max_mines implies (#[trigger] hit@[x] <==> exists|i: int, j: int|
                0 <= i < a + 1 && 0 <= j < right.len() && #[trigger] left@[i] + #[trigger] right@[j] == x) by {
                if exists|j: int| 0 <= j < b && left@[a as int] + #[trigger] right@[j] == x {
                    let j = choose|j: int| 0 <= j < b && left@[a as int] + #[trigger] right@[j] == x;
                    assert(left@[a as int] + right@[j] == x);
                }
                if exists|i: int, j: int| 0 <= i < a + 1 && 0 <= j < right.len() && #[trigger] left@[i] + #[trigger] right@[j] == x {
                    let (i, j) = choose|i: int, j: int| 0 <= i < a + 1 && 0 <= j < right.len() && #[trigger] left@[i] + #[trigger] right@[j] == x;
                    if i == a {
                        assert(0 <= j < b);
                    }
                }
            }
        }
        a = a + 1;
    }
    let mut c: Vec<usize> = Vec::new();
    let mut x: usize = 0;
    while x <= max_mines
        invariant
            x <= max_mines + 1,
            max_mines < usize::MAX,
            hit.len() == max_mines + 1,
            strictly_sorted(c@),
            forall|k: int| 0 <= k < c.len() ==> (#[trigger] c@[k]) < x,
            forall|y: usize| c@.contains(y) <==> (y < x && hit@[y as int]),
        decreases max_mines + 1 - x,
    {
        let ghost old_c = c@;
        if hit[x] {
            c.push(x);
        }
        proof {
            assert forall|y: usize| c@.contains(y) <==> (y < x + 1 && hit@[y as int]) by {
                if c@.contains(y) {
                    let k = choose|k: int| 0 <= k < c.len() && c@[k] == y;
                    if k < old_c.len() {
                        assert(old_c[k] == y);
                        assert(old_c.contains(y));
                    }
                }
                if y < x && hit@[y as int] {
                    assert(old_c.contains(y));
                    let k = choose|k: int| 0 <= k < old_c.len() && old_c[k] == y;
                    assert(c@[k] == y);
                }
                if y == x && hit@[y as int] {
                    assert(c@[c.len() - 1] == y);
                }
            }
        }
        x = x + 1;
    }
    c
}


/// Adds `x` to a strictly increasing list, keeping it strictly increasing.
fn insert_sorted(v: &mut Vec<usize>, x: usize)
    requires
        strictly_sorted(old(v)@),
    ensures
        strictly_sorted(final(v)@),
        forall|y: usize| final(v)@.contains(y) <==> (old(v)@.contains(y) || y == x),
{
    let mut at: usize = 0;
    while at < v.len() && v[at] < x
        invariant
            v@ == old(v)@,
            strictly_sorted(v@),
            at <= v.len(),
            forall|k: int| 0 <= k < at ==> v@[k] < x,
        decreases v.len() - at,
    {
        at = at + 1;
    }
    if at < v.len() && v[at] == x {
        return;
    }
    let ghost before = v@;
    v.insert(at, x);
    proof {
        let after = v@;
        assert(after == before.insert(at as int, x));
        assert forall|k: int| at <= k < before.len() implies before[k] > x by {
            if k > at {
                assert(before[at as int] < before[k]);
            }
        }
        assert forall|a: int, b: int| 0 <= a < b < after.len() implies after[a] < after[b] by {
            if b < at {
                assert(after[a] == before[a] && after[b] == before[b]);
            } else if b == at {
                assert(after[a] == before[a]);
            } else if a < at {
                assert(after[a] == before[a] && after[b] == before[b - 1]);
            } else if a == at {
                assert(after[b] == before[b - 1]);
            } else {
                assert(after[a] == before[a - 1] && after[b] == before[b - 1]);
            }
        }
        assert forall|y: usize| after.contains(y) <==> (before.contains(y) || y == x) by {
            if after.contains(y) {
                let k = choose|k: int| 0 <= k < after.len() && after[k] == y;
                if k < at {
                    assert(before[k] == y);
                } else if k > at {
                    assert(before[k - 1] == y);
                }
            }
            if before.contains(y) {
                let k = choose|k: int| 0 <= k < before.len() && before[k] == y;
                if k < at {
                    assert(after[k] == y);
                } else {
                    assert(after[k + 1] == y);
                }
            }
            if y == x {
                assert(after[at as int] == y);
            }
        }
    }
}

/// A component summary the global step can work with.
spec fn summary_ok(s: &ComponentSummary, n: nat) -> bool {
    &&& s.cells.len() <= MAX_COMPONENT_CELLS
    &&& forall|k: int| 0 <= k < s.cells.len() ==> (#[trigger] s.cells@[k]) < n
}

/// The mine totals of a component's assignments, in increasing order.
fn mine_counts(summary: &ComponentSummary) -> (counts: Vec<usize>)
    ensures
        strictly_sorted(counts@),
        forall|x: usize|
            counts@.contains(x) <==> exists|k: int|
                0 <= k < summary.assignments.len() && #[trigger] summary.assignments@[k].mines == x,
{
    let mut counts: Vec<usize> = Vec::new();
    let mut k: usize = 0;
    while k < summary.assignments.len()
        invariant
            k <= summary.assignments.len(),
            strictly_sorted(counts@),
            forall|x: usize|
                counts@.contains(x) <==> exists|j: int| 0 <= j < k && #[trigger] summary.assignments@[j].mines == x,
        decreases summary.assignments.len() - k,
    {
        insert_sorted(&mut counts, summary.assignments[k].mines);
        proof {
            assert forall|x: usize|
                counts@.contains(x) <==> exists|j: int| 0 <= j < k + 1 && #[trigger] summary.assignments@[j].mines == x by {
                if x == summary.assignments@[k as int].mines {
                    assert(summary.assignments@[k as int].mines == x);
                }
                if exists|j: int| 0 <= j < k + 1 && #[trigger] summary.assignments@[j].mines == x {
                    let j = choose|j: int| 0 <= j < k + 1 && #[trigger] summary.assignments@[j].mines == x;
                    if j < k {
                        assert(summary.assignments@[j].mines == x);
                    }
                }
            }
        }
        k = k + 1;
    }
    counts
}

/// `sel` picks one listed total from each list of `cc`.
pub open spec fn picks(cc: Seq<Vec<usize>>, sel: Seq<usize>) -> bool {
    sel.len() == cc.len() && forall|j: int| 0 <= j < sel.len() ==> #[trigger] cc[j]@.contains(sel[j])
}

/// The sum of the first `i` entries.
pub open spec fn sum_prefix(sel: Seq<usize>, i: int) -> nat
    decreases i,
{
    if i <= 0 {
        0
    } else {
        sum_prefix(sel, i - 1) + sel[i - 1] as nat
    }
}

/// The sum of the entries from `i` on.
pub open spec fn sum_from(sel: Seq<usize>, i: int) -> nat
    decreases sel.len() - i,
{
    if i >= sel.len() || i < 0 {
        0
    } else {
        sel[i] as nat + sum_from(sel, i + 1)
    }
}

proof fn lemma_sum_split(sel: Seq<usize>, i: int)
    requires
        0 <= i <= sel.len(),
    ensures
        sum_prefix(sel, i) + sum_from(sel, i) == sum_prefix(sel, sel.len() as int),
    decreases sel.len() - i,
{
    if i < sel.len() {
        lemma_sum_split(sel, i + 1);
    }
}

/// `sel` picks one listed total from each of the first `i` lists of `cc`.
pub open spec fn picks_upto(cc: Seq<Vec<usize>>, sel: Seq<usize>, i: int) -> bool {
    sel.len() == i && forall|j: int| 0 <= j < i ==> #[trigger] cc[j]@.contains(sel[j])
}

proof fn lemma_sum_prefix_agree(a: Seq<usize>, b: Seq<usize>, i: int)
    requires
        forall|j: int| 0 <= j < i ==> #[trigger] a[j] == b[j],
    ensures
        sum_prefix(a, i) == sum_prefix(b, i),
    decreases i,
{
    if i > 0 {
        lemma_sum_prefix_agree(a, b, i - 1);
    }
}

/// `prefix[i]` lists the mine totals the first `i` components can reach together, up to
/// `max_mines`.
fn prefix_mine_counts(component_counts: &Vec<Vec<usize>>, max_mines: usize) -> (prefix: Vec<Vec<usize>>)
    requires
        max_mines < usize::MAX,
    ensures
        prefix.len() == component_counts.len() + 1,
        prefix@[0]@ == seq![0usize],
        forall|sel: Seq<usize>, i: int|
            #![trigger picks(component_counts@, sel), prefix@[i]]
            picks(component_counts@, sel) && 0 <= i <= component_counts.len() && sum_prefix(sel, i) <= max_mines
                ==> prefix@[i]@.contains(sum_prefix(sel, i) as usize),
        forall|i: int, x: usize|
            0 <= i <= component_counts.len() && #[trigger] prefix@[i]@.contains(x) ==> exists|sel: Seq<usize>|
                #[trigger] picks_upto(component_counts@, sel, i) && sum_prefix(sel, i) == x,
        forall|i: int| 0 <= i <= component_counts.len() ==> strictly_sorted(#[trigger] prefix@[i]@),
{
    let mut prefix: Vec<Vec<usize>> = Vec::new();
    prefix.push(vec![0usize]);
    proof {
        assert forall|x: usize| #[trigger] prefix@[0]@.contains(x) implies exists|sel: Seq<usize>|
            #[trigger] picks_upto(component_counts@, sel, 0) && sum_prefix(sel, 0) == x by {
            assert(prefix@[0]@[0] == 0);
            assert(picks_upto(component_counts@, Seq::<usize>::empty(), 0));
        }
    }
    let mut i: usize = 0;
    while i < component_counts.len()
        invariant
            max_mines < usize::MAX,
            i <= component_counts.len(),
            prefix.len() == i + 1,
            prefix@[0]@ == seq![0usize],
            forall|sel: Seq<usize>, i2: int|
                #![trigger picks(component_counts@, sel), prefix@[i2]]
                picks(component_counts@, sel) && 0 <= i2 <= i && sum_prefix(sel, i2) <= max_mines
                    ==> prefix@[i2]@.contains(sum_prefix(sel, i2) as usize),
            forall|i2: int, x: usize|
                0 <= i2 <= i && #[trigger] prefix@[i2]@.contains(x) ==> exists|sel: Seq<usize>|
                    #[trigger] picks_upto(component_counts@, sel, i2) && sum_prefix(sel, i2) == x,
            forall|i2: int| 0 <= i2 <= i ==> strictly_sorted(#[trigger] prefix@[i2]@),
        decreases component_counts.len() - i,
    {
        let next = combine_mine_counts(&prefix[i], &component_counts[i], max_mines);
        let ghost pb = prefix@;
        prefix.push(next);
        proof {
            assert(prefix@[0]@ == pb[0]@);
            assert forall|i2: int| 0 <= i2 <= i + 1 implies strictly_sorted(#[trigger] prefix@[i2]@) by {
                if i2 <= i {
                    assert(prefix@[i2] == pb[i2]);
                }
            }
            assert forall|i2: int, x: usize|
                0 <= i2 <= i + 1 && #[trigger] prefix@[i2]@.contains(x) implies exists|sel: Seq<usize>|
                    #[trigger] picks_upto(component_counts@, sel, i2) && sum_prefix(sel, i2) == x by {
                if i2 <= i {
                    assert(prefix@[i2] == pb[i2]);
                    assert(pb[i2]@.contains(x));
                } else {
                    assert(next@.contains(x));
                    let (a, b) = choose|a: int, b: int|
                        0 <= a < pb[i as int].len() && 0 <= b < component_counts@[i as int].len()
                            && #[trigger] pb[i as int]@[a] + #[trigger] component_counts@[i as int]@[b] == x && x <= max_mines;
                    let va = pb[i as int]@[a];
                    assert(pb[i as int]@.contains(va));
                    let sel = choose|sel: Seq<usize>| #[trigger] picks_upto(component_counts@, sel, i as int) && sum_prefix(sel, i as int) == va;
                    let vb = component_counts@[i as int]@[b];
                    let sel2 = sel.push(vb);
                    lemma_sum_prefix_agree(sel, sel2, i as int);
                    assert(component_counts@[i as int]@.contains(vb));
                    assert(picks_upto(component_counts@, sel2, i2));
                }
            }
            assert forall|sel: Seq<usize>, i2: int|
                #![trigger picks(component_counts@, sel), prefix@[i2]]
                picks(component_counts@, sel) && 0 <= i2 <= i + 1 && sum_prefix(sel, i2) <= max_mines
                    implies prefix@[i2]@.contains(sum_prefix(sel, i2) as usize) by {
                if i2 <= i {
                    assert(prefix@[i2] == pb[i2]);
                    assert(picks(component_counts@, sel) && pb[i2] == prefix@[i2]);
                } else {
                    let v = sum_prefix(sel, i as int);
                    assert(picks(component_counts@, sel) && pb[i as int] == prefix@[i as int]);
                    assert(pb[i as int]@.contains(v as usize));
                    let a = choose|a: int| 0 <= a < pb[i as int]@.len() && pb[i as int]@[a] == v as usize;
                    assert(component_counts@[i as int]@.contains(sel[i as int]));
                    let b = choose|b: int|
                        0 <= b < component_counts@[i as int]@.len() && component_counts@[i as int]@[b] == sel[i as int];
                    assert(prefix@[i as int]@[a] + component_counts@[i as int]@[b] == sum_prefix(sel, i2));
                    assert(next@.contains(sum_prefix(sel, i2) as usize));
                }
            }
        }
        i = i + 1;
    }
    prefix
}

/// `suffix[i]` lists the mine totals the components from `i` on can reach together, up to
/// `max_mines`.
fn suffix_mine_counts(component_counts: &Vec<Vec<usize>>, max_mines: usize) -> (suffix: Vec<Vec<usize>>)
    requires
        max_mines < usize::MAX,
    ensures
        suffix.len() == component_counts.len() + 1,
        suffix@[component_counts.len() as int]@ == seq![0usize],
        forall|sel: Seq<usize>, i: int|
            #![trigger picks(component_counts@, sel), suffix@[i]]
            picks(component_counts@, sel) && 0 <= i <= component_counts.len() && sum_from(sel, i) <= max_mines
                ==> suffix@[i]@.contains(sum_from(sel, i) as usize),
{
    let len = component_counts.len();
    let mut suffix: Vec<Vec<usize>> = Vec::new();
    let mut i: usize = 0;
    while i < len
        invariant
            i <= len,
            suffix.len() == i,
        decreases len - i,
    {
        suffix.push(Vec::new());
        i = i + 1;
    }
    suffix.push(vec![0usize]);
    let mut index: usize = len;
    while index > 0
        invariant
            max_mines < usize::MAX,
            len == component_counts.len(),
            index <= len,
            suffix.len() == len + 1,
            suffix@[len as int]@ == seq![0usize],
            forall|sel: Seq<usize>, i2: int|
                #![trigger picks(component_counts@, sel), suffix@[i2]]
                picks(component_counts@, sel) && index <= i2 <= len && sum_from(sel, i2) <= max_mines
                    ==> suffix@[i2]@.contains(sum_from(sel, i2) as usize),
        decreases index,
    {
        let combined = combine_mine_counts(&component_counts[index - 1], &suffix[index], max_mines);
        let ghost sb = suffix@;
        suffix.set(index - 1, combined);
        proof {
            let i = index - 1;
            assert forall|sel: Seq<usize>, i2: int|
                #![trigger picks(component_counts@, sel), suffix@[i2]]
                picks(component_counts@, sel) && i <= i2 <= len && sum_from(sel, i2) <= max_mines
                    implies suffix@[i2]@.contains(sum_from(sel, i2) as usize) by {
                if i2 > i {
                    assert(suffix@[i2] == sb[i2]);
                    assert(picks(component_counts@, sel) && sb[i2] == suffix@[i2]);
                } else {
                    let v = sum_from(sel, i + 1);
                    let nxt = sb[i + 1]@;
                    assert(picks(component_counts@, sel) && sb[i + 1] == suffix@[i + 1]);
                    assert(nxt.contains(v as usize));
                    let b = choose|b: int| 0 <= b < nxt.len() && nxt[b] == v as usize;
                    assert(component_counts@[i]@.contains(sel[i]));
                    let a = choose|a: int| 0 <= a < component_counts@[i]@.len() && component_counts@[i]@[a] == sel[i];
                    assert(component_counts@[i]@[a] + nxt[b] == sum_from(sel, i2));
                    assert(combined@.contains(sum_from(sel, i2) as usize));
                }
            }
        }
        index = index - 1;
    }
    suffix
}

/// The mines among some cells are no more than the cells.
proof fn lemma_mines_among_bound(layout: Seq<bool>, cells: Seq<usize>)
    ensures
        mines_among(layout, cells).len() <= cells.len(),
{
    lemma_mines_among_finite(layout, cells);
    vstd::seq_lib::seq_to_set_is_finite(cells);
    vstd::set_lib::lemma_len_subset(mines_among(layout, cells), cells.to_set());
    cells.lemma_cardinality_of_set();
}

/// Counting the mines a layout puts on distinct cells, one by one, gives the size of the set
/// of those mines.
proof fn lemma_choice_count(layout: Seq<bool>, cells: Seq<usize>)
    requires
        cells.no_duplicates(),
        forall|k: int| 0 <= k < cells.len() ==> (#[trigger] cells[k]) < layout.len(),
    ensures
        count_true(cells_choice(layout, cells)) == mines_among(layout, cells).len(),
    decreases cells.len(),
{
    if cells.len() == 0 {
        assert(mines_among(layout, cells) =~= Set::<usize>::empty());
    } else {
        let a = cells.drop_last();
        let x = cells.last();
        let one = seq![x];
        lemma_choice_count(layout, a);
        assert(cells_choice(layout, cells).drop_last() =~= cells_choice(layout, a));
        assert forall|y: usize| #[trigger] cells.contains(y) <==> (a.contains(y) || one.contains(y)) by {
            if cells.contains(y) {
                let k = choose|k: int| 0 <= k < cells.len() && cells[k] == y;
                if k < cells.len() - 1 {
                    assert(a[k] == y);
                } else {
                    assert(one[0] == y);
                }
            }
            if a.contains(y) {
                let k = choose|k: int| 0 <= k < a.len() && a[k] == y;
                assert(cells[k] == y);
            }
            if one.contains(y) {
                assert(cells[cells.len() - 1] == y);
            }
        }
        assert forall|y: usize| !(#[trigger] a.contains(y) && one.contains(y)) by {
            if a.contains(y) && one.contains(y) {
                let k = choose|k: int| 0 <= k < a.len() && a[k] == y;
                assert(one[0] == y);
                assert(cells[k] == cells[cells.len() - 1]);
            }
        }
        lemma_mines_among_split(layout, a, one, cells);
        assert(cells[cells.len() - 1] < layout.len());
        assert forall|y: usize| #[trigger] one.to_set().contains(y) <==> y == x by {
            if y == x {
                assert(one[0] == y);
            }
        }
        if layout[x as int] {
            assert(mines_among(layout, one) =~= set![x]);
        } else {
            assert(mines_among(layout, one) =~= Set::<usize>::empty());
        }
    }
}

/// The cells of the first `k` summaries, one list after another.
spec fn frontier_seq(sums: Seq<ComponentSummary>, k: int) -> Seq<usize>
    decreases k,
{
    if k <= 0 {
        seq![]
    } else {
        frontier_seq(sums, k - 1) + sums[k - 1].cells@
    }
}

/// How many mines `layout` puts on the cells of each summary.
spec fn summary_mines(layout: Seq<bool>, sums: Seq<ComponentSummary>) -> Seq<usize> {
    Seq::new(sums.len(), |s: int| mines_among(layout, sums[s].cells@).len() as usize)
}

/// No cell belongs to two summaries.
spec fn summaries_disjoint(sums: Seq<ComponentSummary>) -> bool {
    forall|s1: int, s2: int, x: usize|
        #![trigger sums[s1].cells@.contains(x), sums[s2].cells@.contains(x)]
        0 <= s1 < sums.len() && 0 <= s2 < sums.len() && s1 != s2 && sums[s1].cells@.contains(x) ==> !sums[s2].cells@.contains(x)
}

proof fn lemma_frontier_contains(sums: Seq<ComponentSummary>, k: int, x: usize)
    requires
        0 <= k <= sums.len(),
    ensures
        frontier_seq(sums, k).contains(x) <==> exists|s: int| 0 <= s < k && #[trigger] sums[s].cells@.contains(x),
    decreases k,
{
    if k > 0 {
        lemma_frontier_contains(sums, k - 1, x);
        let p = frontier_seq(sums, k - 1);
        let c = sums[k - 1].cells@;
        let f = frontier_seq(sums, k);
        if f.contains(x) {
            let i = choose|i: int| 0 <= i < f.len() && f[i] == x;
            if i < p.len() {
                assert(p[i] == x);
            } else {
                assert(c[i - p.len()] == x);
                assert(sums[k - 1].cells@.contains(x));
            }
        }
        if exists|s: int| 0 <= s < k && #[trigger] sums[s].cells@.contains(x) {
            let s = choose|s: int| 0 <= s < k && #[trigger] sums[s].cells@.contains(x);
            if s < k - 1 {
                let i = choose|i: int| 0 <= i < p.len() && p[i] == x;
                assert(f[i] == x);
            } else {
                let i = choose|i: int| 0 <= i < c.len() && c[i] == x;
                assert(f[p.len() + i] == x);
            }
        }
    }
}

/// On disjoint summaries, the mines on all their cells add up summary by summary.
proof fn lemma_frontier_mines(layout: Seq<bool>, sums: Seq<ComponentSummary>, k: int)
    requires
        0 <= k <= sums.len(),
        summaries_disjoint(sums),
    ensures
        mines_among(layout, frontier_seq(sums, k)).len() == sum_prefix(summary_mines(layout, sums), k),
    decreases k,
{
    if k == 0 {
        assert(mines_among(layout, frontier_seq(sums, 0)) =~= Set::<usize>::empty());
    } else {
        lemma_frontier_mines(layout, sums, k - 1);
        let p = frontier_seq(sums, k - 1);
        let c = sums[k - 1].cells@;
        let f = frontier_seq(sums, k);
        assert forall|y: usize| #[trigger] f.contains(y) <==> (p.contains(y) || c.contains(y)) by {
            lemma_frontier_contains(sums, k, y);
            lemma_frontier_contains(sums, k - 1, y);
            if c.contains(y) {
                assert(sums[k - 1].cells@.contains(y));
            }
            if f.contains(y) {
                let s = choose|s: int| 0 <= s < k && #[trigger] sums[s].cells@.contains(y);
                if s < k - 1 {
                    assert(sums[s].cells@.contains(y));
                }
            }
        }
        assert forall|y: usize| !(#[trigger] p.contains(y) && c.contains(y)) by {
            lemma_frontier_contains(sums, k - 1, y);
            if p.contains(y) && c.contains(y) {
                let s = choose|s: int| 0 <= s < k - 1 && #[trigger] sums[s].cells@.contains(y);
                assert(sums[k - 1].cells@.contains(y));
            }
        }
        lemma_mines_among_split(layout, p, c, f);
        lemma_mines_among_bound(layout, c);
        assert(c.len() == sums[k - 1].cells.len());
        assert(mines_among(layout, c).len() <= usize::MAX);
        assert(summary_mines(layout, sums)[k - 1] == mines_among(layout, c).len());
    }
}

/// One total of the earlier components, `m`, and one total of the later components use at
/// most `remaining` mines and leave no more than `unconstrained` for the other cells.
pub open spec fn completes(m: usize, pre: Seq<usize>, suf: Seq<usize>, remaining: usize, unconstrained: nat) -> bool {
    exists|i: int, j: int|
        0 <= i < pre.len() && 0 <= j < suf.len() && {
            let used = #[trigger] pre[i] + m + #[trigger] suf[j];
            used <= remaining && remaining - used <= unconstrained
        }
}

/// Whether an assignment with `assignment_mines` mines leaves room for the other components
/// (one total from `prefix_counts`, one from `suffix_counts`) and the unconstrained cells to
/// make up exactly `remaining_mines`.
fn assignment_has_global_completion(
    assignment_mines: usize,
    prefix_counts: &Vec<usize>,
    suffix_counts: &Vec<usize>,
    remaining_mines: usize,
    unconstrained_cells: usize,
) -> (b: bool)
    ensures
        b == completes(assignment_mines, prefix_counts@, suffix_counts@, remaining_mines, unconstrained_cells as nat),
{
    let mut i: usize = 0;
    while i < prefix_counts.len()
        invariant
            i <= prefix_counts.len(),
            forall|a: int, j: int|
                0 <= a < i && 0 <= j < suffix_counts.len() ==> !({
                    let used = #[trigger] prefix_counts@[a] + assignment_mines + #[trigger] suffix_counts@[j];
                    used <= remaining_mines && remaining_mines - used <= unconstrained_cells
                }),
        decreases prefix_counts.len() - i,
    {
        let mut j: usize = 0;
        while j < suffix_counts.len()
            invariant
                i < prefix_counts.len(),
                j <= suffix_counts.len(),
                forall|a: int, jj: int|
                    0 <= a < i && 0 <= jj < suffix_counts.len() ==> !({
                        let used = #[trigger] prefix_counts@[a] + assignment_mines + #[trigger] suffix_counts@[jj];
                        used <= remaining_mines && remaining_mines - used <= unconstrained_cells
                    }),
                forall|jj: int|
                    0 <= jj < j ==> !({
                        let used = prefix_counts@[i as int] + assignment_mines + #[trigger] suffix_counts@[jj];
                        used <= remaining_mines && remaining_mines - used <= unconstrained_cells
                    }),
            decreases suffix_counts.len() - j,
        {
            let p = prefix_counts[i];
            let s = suffix_counts[j];
            if p <= remaining_mines && assignment_mines <= remaining_mines - p && s <= remaining_mines - p
                - assignment_mines {
                if remaining_mines - p - assignment_mines - s <= unconstrained_cells {
                    assert(prefix_counts@[i as int] + assignment_mines + suffix_counts@[j as int] <= remaining_mines);
                    return true;
                }
            }
            j = j + 1;
        }
        i = i + 1;
    }
    false
}

/// The summary's cells are distinct, each assignment's total is its count of mines, and
/// every layout of `n` cells meeting `locals` puts its mines on the cells as one of the
/// assignments says.
spec fn summary_covers(s: ComponentSummary, locals: Seq<Constraint>, n: nat) -> bool {
    &&& s.cells@.no_duplicates()
    &&& forall|j: int|
        0 <= j < s.assignments.len() ==> #[trigger] s.assignments@[j].mines == count_true(
            mask_choice(s.assignments@[j].mask, s.cells.len() as int),
        )
    &&& forall|layout: Seq<bool>|
        layout.len() == n && #[trigger] meets_all(layout, locals) ==> exists|j: int|
            0 <= j < s.assignments.len() && #[trigger] mask_matches(s.assignments@[j].mask, cells_choice(layout, s.cells@))
}

/// Every cell of every summary is one of the global constraint's cells.
spec fn summaries_within(sums: Seq<ComponentSummary>, g: Constraint) -> bool {
    forall|s: int, x: usize| 0 <= s < sums.len() && #[trigger] sums[s].cells@.contains(x) ==> g.cells@.contains(x)
}

/// No layout of `n` cells meets all of `cs`.
pub open spec fn no_layout(cs: Seq<Constraint>, n: nat) -> bool {
    forall|layout: Seq<bool>| layout.len() == n ==> !#[trigger] meets_all(layout, cs)
}

/// How `layout` splits the global count: one total per component, picked from its list,
/// and the rest on the cells outside the components.
spec fn layout_split(layout: Seq<bool>, sums: Seq<ComponentSummary>, cc: Seq<Vec<usize>>, unc: Seq<usize>, mines: usize) -> bool {
    &&& picks(cc, summary_mines(layout, sums))
    &&& sum_prefix(summary_mines(layout, sums), sums.len() as int) + mines_among(layout, unc).len() == mines
    &&& mines_among(layout, unc).len() <= unc.len()
}

/// A total is feasible when it leaves between none and all of the other cells to mines.
spec fn feasible(v: usize, remaining: usize, unc: nat) -> bool {
    v <= remaining && remaining - v <= unc
}

proof fn lemma_sorted_lower(s: Seq<usize>, i: int)
    requires
        strictly_sorted(s),
        0 <= i < s.len(),
    ensures
        s[i] >= i,
    decreases i,
{
    if i > 0 {
        lemma_sorted_lower(s, i - 1);
    }
}

/// The mines a layout puts on a summary's cells, counted through the matching assignment.
proof fn lemma_summary_total(layout: Seq<bool>, s: ComponentSummary, locals: Seq<Constraint>, n: nat)
    requires
        summary_covers(s, locals, n),
        summary_ok(&s, n),
        layout.len() == n,
        meets_all(layout, locals),
    ensures
        exists|j: int|
            0 <= j < s.assignments.len() && #[trigger] s.assignments@[j].mines == mines_among(layout, s.cells@).len()
                && mask_matches(s.assignments@[j].mask, cells_choice(layout, s.cells@)),
{
    let j = choose|j: int|
        0 <= j < s.assignments.len() && #[trigger] mask_matches(s.assignments@[j].mask, cells_choice(layout, s.cells@));
    let len = s.cells.len() as int;
    assert(mask_choice(s.assignments@[j].mask, len) =~= cells_choice(layout, s.cells@));
    lemma_choice_count(layout, s.cells@);
    assert(s.assignments@[j].mines == mines_among(layout, s.cells@).len());
}

/// The global count of a layout splits over the components and the other cells.
proof fn lemma_layout_split(
    layout: Seq<bool>,
    sums: Seq<ComponentSummary>,
    cc: Seq<Vec<usize>>,
    frontier: Seq<bool>,
    unc: Seq<usize>,
    g: Constraint,
    locals: Seq<Constraint>,
    n: nat,
)
    requires
        layout.len() == n,
        frontier.len() == n,
        meets_all(layout, locals),
        meets(layout, &g),
        constraint_ok(&g, n),
        forall|k: int| 0 <= k < sums.len() ==> summary_ok(&#[trigger] sums[k], n),
        forall|k: int| 0 <= k < sums.len() ==> summary_covers(#[trigger] sums[k], locals, n),
        summaries_disjoint(sums),
        summaries_within(sums, g),
        cc.len() == sums.len(),
        forall|k: int, x: usize|
            0 <= k < cc.len() ==> (#[trigger] cc[k]@.contains(x) <==> exists|j: int|
                0 <= j < sums[k].assignments.len() && #[trigger] sums[k].assignments@[j].mines == x),
        forall|x: int| 0 <= x < n ==> (#[trigger] frontier[x] <==> in_some_summary(sums, sums.len() as int, x as usize)),
        forall|x: usize| #[trigger] unc.contains(x) <==> (g.cells@.contains(x) && !frontier[x as int]),
        forall|j: int| 0 <= j < unc.len() ==> #[trigger] unc[j] < n,
    ensures
        layout_split(layout, sums, cc, unc, g.mines),
{
    let sel = summary_mines(layout, sums);
    let k = sums.len() as int;
    assert forall|s: int| 0 <= s < sel.len() implies #[trigger] cc[s]@.contains(sel[s]) by {
        assert(summary_ok(&sums[s], n));
        assert(summary_covers(sums[s], locals, n));
        lemma_summary_total(layout, sums[s], locals, n);
        let j = choose|j: int|
            0 <= j < sums[s].assignments.len() && #[trigger] sums[s].assignments@[j].mines == mines_among(
                layout,
                sums[s].cells@,
            ).len() && mask_matches(sums[s].assignments@[j].mask, cells_choice(layout, sums[s].cells@));
        assert(sums[s].assignments@[j].mines == sel[s]);
    }
    let f = frontier_seq(sums, k);
    assert forall|y: usize| #[trigger] g.cells@.contains(y) <==> (f.contains(y) || unc.contains(y)) by {
        lemma_frontier_contains(sums, k, y);
        if f.contains(y) {
            let s = choose|s: int| 0 <= s < k && #[trigger] sums[s].cells@.contains(y);
        }
        if g.cells@.contains(y) && !unc.contains(y) {
            let i = choose|i: int| 0 <= i < g.cells.len() && g.cells@[i] == y;
            assert(y < n);
            assert(frontier[y as int]);
            assert(in_some_summary(sums, k, y));
            let s = choose|s: int| 0 <= s < k && #[trigger] sums[s].cells@.contains(y);
        }
    }
    assert forall|y: usize| !(#[trigger] f.contains(y) && unc.contains(y)) by {
        lemma_frontier_contains(sums, k, y);
        if f.contains(y) && unc.contains(y) {
            let s = choose|s: int| 0 <= s < k && #[trigger] sums[s].cells@.contains(y);
            let i = choose|i: int| 0 <= i < unc.len() && unc[i] == y;
            assert(y < n);
            assert(in_some_summary(sums, k, y));
        }
    }
    lemma_mines_among_split(layout, f, unc, g.cells@);
    lemma_frontier_mines(layout, sums, k);
    lemma_mines_among_bound(layout, unc);
}

/// Some summary before `upto` lists cell `x`.
/// `sel` takes, for each summary, the mine total of one of its assignments.
spec fn picks_assignment_totals(sums: Seq<ComponentSummary>, sel: Seq<usize>) -> bool {
    &&& sel.len() == sums.len()
    &&& forall|j: int| 0 <= j < sel.len() ==> #[trigger] has_total(sums[j], sel[j])
}

/// Some assignment of the summary has `v` mines.
spec fn has_total(s: ComponentSummary, v: usize) -> bool {
    exists|a: int| 0 <= a < s.assignments.len() && #[trigger] s.assignments@[a].mines == v
}

/// Whichever assignment each summary takes, their mine totals add up to `m`.
spec fn totals_forced(sums: Seq<ComponentSummary>, m: usize) -> bool {
    forall|sel: Seq<usize>| #[trigger] picks_assignment_totals(sums, sel) ==> sum_prefix(sel, sums.len() as int) == m
}

/// The global constraint's cells outside every summary.
spec fn outside_set(sums: Seq<ComponentSummary>, g: Constraint) -> Set<usize> {
    g.cells@.to_set().filter(|x: usize| !in_some_summary(sums, sums.len() as int, x))
}

spec fn in_some_summary(sums: Seq<ComponentSummary>, upto: int, x: usize) -> bool {
    exists|s: int| 0 <= s < upto && #[trigger] sums[s].cells@.contains(x)
}

/// Deductions that use the total mine count: the cells outside every component share the
/// mines the components leave over, and an assignment of one component only counts if the
/// other components and those cells can make up the rest. Fails when no split of the total
/// is possible.
fn collect_global_combination_deductions(
    summaries: &Vec<ComponentSummary>,
    global_constraint: &Constraint,
    deductions: &mut Deductions,
    n: usize,
    Ghost(locals): Ghost<Seq<Constraint>>,
    Ghost(target): Ghost<usize>,
) -> (ok: bool)
    requires
        forall|k: int| 0 <= k < summaries.len() ==> summary_ok(&#[trigger] summaries@[k], n as nat),
        forall|k: int| 0 <= k < summaries.len() ==> summary_covers(#[trigger] summaries@[k], locals, n as nat),
        summaries_disjoint(summaries@),
        constraint_ok(global_constraint, n as nat),
        deductions_ok(old(deductions), n as nat),
    ensures
        deductions_ok(final(deductions), n as nat),
        summaries_within(summaries@, *global_constraint) && deductions_sound(
            old(deductions),
            locals.push(*global_constraint),
            n as nat,
        ) && ok ==> deductions_sound(final(deductions), locals.push(*global_constraint), n as nat),
        summaries_within(summaries@, *global_constraint) && !ok && n < usize::MAX ==> no_layout(
            locals.push(*global_constraint),
            n as nat,
        ),
        totals_forced(summaries@, target) && target == global_constraint.mines && ok ==> forall|x: usize|
            #[trigger] global_constraint.cells@.contains(x) && !in_some_summary(summaries@, summaries.len() as int, x)
                ==> final(deductions).safe@[x as int],
        totals_forced(summaries@, target) && target < global_constraint.mines && target + outside_set(
            summaries@,
            *global_constraint,
        ).len() == global_constraint.mines && ok ==> forall|x: usize|
            #[trigger] global_constraint.cells@.contains(x) && !in_some_summary(summaries@, summaries.len() as int, x)
                ==> final(deductions).mines@[x as int],
        forall|i: int| 0 <= i < n && #[trigger] old(deductions).safe@[i] ==> final(deductions).safe@[i],
        forall|i: int| 0 <= i < n && #[trigger] old(deductions).mines@[i] ==> final(deductions).mines@[i],
{
    let ghost all = locals.push(*global_constraint);
    let ghost sums = summaries@;
    let ghost g = *global_constraint;
    let ghost within = summaries_within(sums, g);
    let ghost premise = within && deductions_sound(deductions, all, n as nat);
    proof {
        assert forall|layout: Seq<bool>| #[trigger] meets_all(layout, all) implies meets_all(layout, locals) && meets(
            layout,
            &g,
        ) by {
            assert forall|k: int| 0 <= k < locals.len() implies meets(layout, &#[trigger] locals[k]) by {
                assert(all[k] == locals[k]);
            }
            assert(all[locals.len() as int] == g);
        }
    }
    let mut frontier = new_flags(n);
    let mut s: usize = 0;
    while s < summaries.len()
        invariant
            forall|k: int| 0 <= k < summaries.len() ==> summary_ok(&#[trigger] summaries@[k], n as nat),
            sums == summaries@,
            frontier.len() == n,
            s <= summaries.len(),
            forall|x: int| 0 <= x < n ==> (#[trigger] frontier@[x] <==> in_some_summary(sums, s as int, x as usize)),
        decreases summaries.len() - s,
    {
        let mut k: usize = 0;
        while k < summaries[s].cells.len()
            invariant
                forall|j: int| 0 <= j < summaries.len() ==> summary_ok(&#[trigger] summaries@[j], n as nat),
                sums == summaries@,
                frontier.len() == n,
                s < summaries.len(),
                k <= summaries@[s as int].cells.len(),
                forall|x: int|
                    0 <= x < n ==> (#[trigger] frontier@[x] <==> (in_some_summary(sums, s as int, x as usize)
                        || sums[s as int].cells@.take(k as int).contains(x as usize))),
            decreases summaries@[s as int].cells.len() - k,
        {
            proof {
                assert(summary_ok(&summaries@[s as int], n as nat));
            }
            let cell = summaries[s].cells[k];
            let ghost fb = frontier@;
            frontier.set(cell, true);
            proof {
                let cs = sums[s as int].cells@;
                assert forall|x: int|
                    0 <= x < n implies (#[trigger] frontier@[x] <==> (in_some_summary(sums, s as int, x as usize)
                        || cs.take(k + 1).contains(x as usize))) by {
                    let tk1 = cs.take(k + 1);
                    let tk = cs.take(k as int);
                    if tk1.contains(x as usize) && x != cell {
                        let i = choose|i: int| 0 <= i < tk1.len() && tk1[i] == x as usize;
                        assert(tk[i] == x as usize);
                    }
                    if x == cell {
                        assert(tk1[k as int] == x as usize);
                    }
                    if tk.contains(x as usize) {
                        let i = choose|i: int| 0 <= i < tk.len() && tk[i] == x as usize;
                        assert(tk1[i] == x as usize);
                    }
                }
            }
            k = k + 1;
        }
        proof {
            let cs = sums[s as int].cells@;
            assert(cs.take(cs.len() as int) =~= cs);
            assert forall|x: int| 0 <= x < n implies (#[trigger] frontier@[x] <==> in_some_summary(
                sums,
                s + 1,
                x as usize,
            )) by {
                if in_some_summary(sums, s + 1, x as usize) {
                    let s2 = choose|s2: int| 0 <= s2 < s + 1 && #[trigger] sums[s2].cells@.contains(x as usize);
                    if s2 < s {
                        assert(in_some_summary(sums, s as int, x as usize));
                    }
                }
                if cs.contains(x as usize) {
                    assert(sums[s as int].cells@.contains(x as usize));
                }
                if in_some_summary(sums, s as int, x as usize) {
                    let s2 = choose|s2: int| 0 <= s2 < s && #[trigger] sums[s2].cells@.contains(x as usize);
                    assert(sums[s2].cells@.contains(x as usize));
                }
            }
        }
        s = s + 1;
    }
    let mut unconstrained: Vec<usize> = Vec::new();
    let mut k: usize = 0;
    while k < global_constraint.cells.len()
        invariant
            constraint_ok(global_constraint, n as nat),
            frontier.len() == n,
            k <= global_constraint.cells.len(),
            strictly_sorted(unconstrained@),
            forall|j: int| 0 <= j < unconstrained.len() ==> #[trigger] unconstrained@[j] < n,
            forall|j: int|
                0 <= j < unconstrained.len() ==> exists|i: int|
                    0 <= i < k && #[trigger] unconstrained@[j] == global_constraint.cells@[i],
            forall|x: usize|
                #[trigger] unconstrained@.contains(x) <==> (global_constraint.cells@.take(k as int).contains(x)
                    && !frontier@[x as int]),
        decreases global_constraint.cells.len() - k,
    {
        let cell = global_constraint.cells[k];
        let ghost gc = global_constraint.cells@;
        let ghost before = unconstrained@;
        if !frontier[cell] {
            proof {
                assert forall|j: int| 0 <= j < unconstrained.len() implies unconstrained@[j] < cell by {
                    let i = choose|i: int| 0 <= i < k && #[trigger] unconstrained@[j] == global_constraint.cells@[i];
                }
            }
            unconstrained.push(cell);
            proof {
                assert forall|j: int| 0 <= j < unconstrained.len() implies exists|i: int|
                    0 <= i < k + 1 && #[trigger] unconstrained@[j] == global_constraint.cells@[i] by {
                    if j < before.len() {
                        assert(unconstrained@[j] == before[j]);
                        let i = choose|i: int| 0 <= i < k && #[trigger] before[j] == global_constraint.cells@[i];
                        assert(unconstrained@[j] == global_constraint.cells@[i]);
                    } else {
                        assert(unconstrained@[j] == global_constraint.cells@[k as int]);
                    }
                }
            }
        }
        proof {
            assert forall|x: usize|
                #[trigger] unconstrained@.contains(x) <==> (gc.take(k + 1).contains(x) && !frontier@[x as int]) by {
                let tk1 = gc.take(k + 1);
                let tk = gc.take(k as int);
                if tk1.contains(x) {
                    let i = choose|i: int| 0 <= i < tk1.len() && tk1[i] == x;
                    if i < k {
                        assert(tk[i] == x);
                    } else {
                        assert(x == cell);
                        if !frontier@[x as int] {
                            assert(unconstrained@[unconstrained.len() - 1] == x);
                        }
                    }
                }
                if tk.contains(x) {
                    let i = choose|i: int| 0 <= i < tk.len() && tk[i] == x;
                    assert(tk1[i] == x);
                }
                if unconstrained@.contains(x) {
                    let j = choose|j: int| 0 <= j < unconstrained.len() && unconstrained@[j] == x;
                    if j < before.len() {
                        assert(before[j] == x);
                        assert(before.contains(x));
                    } else {
                        assert(x == cell);
                        assert(tk1[k as int] == x);
                    }
                }
                if before.contains(x) {
                    let j = choose|j: int| 0 <= j < before.len() && before[j] == x;
                    assert(unconstrained@[j] == x);
                }
            }
        }
        k = k + 1;
    }
    proof {
        assert(global_constraint.cells@.take(global_constraint.cells.len() as int) =~= global_constraint.cells@);
    }
    let mut component_counts: Vec<Vec<usize>> = Vec::new();
    let mut s: usize = 0;
    while s < summaries.len()
        invariant
            s <= summaries.len(),
            component_counts.len() == s,
            forall|k: int, x: usize|
                0 <= k < s ==> (#[trigger] component_counts@[k]@.contains(x) <==> exists|j: int|
                    0 <= j < summaries@[k].assignments.len() && #[trigger] summaries@[k].assignments@[j].mines == x),
        decreases summaries.len() - s,
    {
        let counts = mine_counts(&summaries[s]);
        let ghost cb = component_counts@;
        component_counts.push(counts);
        proof {
            assert forall|k: int, x: usize|
                0 <= k < s + 1 implies (#[trigger] component_counts@[k]@.contains(x) <==> exists|j: int|
                    0 <= j < summaries@[k].assignments.len() && #[trigger] summaries@[k].assignments@[j].mines == x) by {
                if k < s {
                    assert(component_counts@[k] == cb[k]);
                }
            }
        }
        s = s + 1;
    }
    let ghost cc = component_counts@;
    let ghost unc = unconstrained@;
    proof {
        if within {
            assert forall|layout: Seq<bool>| layout.len() == n && #[trigger] meets_all(layout, all) implies layout_split(
                layout,
                sums,
                cc,
                unc,
                g.mines,
            ) by {
                lemma_layout_split(layout, sums, cc, frontier@, unc, g, locals, n as nat);
            }
        }
    }
    if global_constraint.mines == usize::MAX {
        proof {
            if n < usize::MAX {
                assert forall|layout: Seq<bool>| layout.len() == n implies !#[trigger] meets_all(layout, all) by {
                    if meets_all(layout, all) {
                        lemma_mines_among_bound(layout, g.cells@);
                        if g.cells.len() > 0 {
                            lemma_sorted_lower(g.cells@, g.cells.len() - 1);
                        }
                    }
                }
            }
        }
        // No board has that many cells to hold the mines.
        return false;
    }
    let remaining = global_constraint.mines;
    let prefix = prefix_mine_counts(&component_counts, remaining);
    let suffix = suffix_mine_counts(&component_counts, remaining);
    let total = &prefix[prefix.len() - 1];
    let ulen = unconstrained.len();
    let ghost forced = totals_forced(sums, target);
    let ghost forced_fact = forall|t2: int|
        0 <= t2 < total.len() && feasible(#[trigger] total@[t2], remaining, ulen as nat) ==> total@[t2] == target;
    proof {
        assert(strictly_sorted(prefix@[prefix.len() - 1]@));
        if forced {
            assert forall|t2: int| 0 <= t2 < total.len() && feasible(#[trigger] total@[t2], remaining, ulen as nat) implies total@[t2]
                == target by {
                let k = prefix.len() - 1;
                assert(prefix@[k]@.contains(total@[t2]));
                let sel = choose|sel: Seq<usize>| #[trigger] picks_upto(component_counts@, sel, k) && sum_prefix(sel, k) == total@[t2];
                assert forall|j: int| 0 <= j < sel.len() implies #[trigger] has_total(sums[j], sel[j]) by {
                    assert(component_counts@[j]@.contains(sel[j]));
                    let a = choose|a: int|
                        0 <= a < summaries@[j].assignments.len() && #[trigger] summaries@[j].assignments@[a].mines == sel[j];
                    assert(sums[j].assignments@[a].mines == sel[j]);
                }
                assert(sel.len() == sums.len());
                assert(picks_assignment_totals(sums, sel));
            }
        }
    }
    let mut feasible_count: usize = 0;
    let mut feasible_value: usize = 0;
    let mut t: usize = 0;
    while t < total.len()
        invariant
            t <= total.len(),
            strictly_sorted(total@),
            forced_fact == forall|t2: int|
                0 <= t2 < total.len() && feasible(#[trigger] total@[t2], remaining, ulen as nat) ==> total@[t2] == target,
            forced_fact ==> feasible_count <= 1 && (feasible_count == 1 ==> feasible_value == remaining - target),
            feasible_count <= t,
            (feasible_count == 0) <==> forall|t2: int| 0 <= t2 < t ==> !feasible(#[trigger] total@[t2], remaining, ulen as nat),
            feasible_count == 1 ==> forall|t2: int|
                0 <= t2 < t && feasible(#[trigger] total@[t2], remaining, ulen as nat) ==> feasible_value == remaining
                    - total@[t2],
        decreases total.len() - t,
    {
        let component_mines = total[t];
        proof {
            if forced_fact && feasible_count == 1 && feasible(total@[t as int], remaining, ulen as nat) {
                let t2 = choose|t2: int| 0 <= t2 < t && feasible(#[trigger] total@[t2], remaining, ulen as nat);
                assert(total@[t2] < total@[t as int]);
            }
        }
        if component_mines <= remaining && remaining - component_mines <= ulen {
            feasible_count = feasible_count + 1;
            feasible_value = remaining - component_mines;
        }
        t = t + 1;
    }
    let ghost n_sums = summaries.len() as int;
    proof {
        if within {
            assert forall|layout: Seq<bool>| layout.len() == n && #[trigger] meets_all(layout, all) implies {
                let sel = summary_mines(layout, sums);
                &&& total@.contains(sum_prefix(sel, n_sums) as usize)
                &&& feasible(sum_prefix(sel, n_sums) as usize, remaining, ulen as nat)
            } by {
                let sel = summary_mines(layout, sums);
                assert(layout_split(layout, sums, cc, unc, g.mines));
                assert(picks(component_counts@, sel) && prefix@[n_sums] == prefix@[n_sums]);
            }
        }
    }
    if feasible_count == 0 {
        proof {
            if within {
                assert forall|layout: Seq<bool>| layout.len() == n implies !#[trigger] meets_all(layout, all) by {
                    if meets_all(layout, all) {
                        let v = sum_prefix(summary_mines(layout, sums), n_sums) as usize;
                        let t2 = choose|t2: int| 0 <= t2 < total.len() && total@[t2] == v;
                        assert(!feasible(total@[t2], remaining, ulen as nat));
                    }
                }
            }
        }
        return false;
    }
    if feasible_count == 1 {
        let safe_all = feasible_value == 0;
        let mines_all = !safe_all && feasible_value == unconstrained.len();
        proof {
            if within {
                assert forall|layout: Seq<bool>, j: int|
                    layout.len() == n && #[trigger] meets_all(layout, all) && 0 <= j < unc.len() implies (safe_all
                        ==> !layout[#[trigger] unc[j] as int]) && (mines_all ==> layout[unc[j] as int]) by {
                    let v = sum_prefix(summary_mines(layout, sums), n_sums) as usize;
                    let t2 = choose|t2: int| 0 <= t2 < total.len() && total@[t2] == v;
                    assert(feasible(total@[t2], remaining, ulen as nat));
                    assert(layout_split(layout, sums, cc, unc, g.mines));
                    assert(feasible_value == mines_among(layout, unc).len());
                    assert(unc.contains(unc[j]));
                    if safe_all {
                        lemma_no_mines_among(layout, unc, unc[j]);
                    }
                    if mines_all {
                        lemma_all_mines_among(layout, unc, unc[j]);
                    }
                }
            }
        }
        let mut k: usize = 0;
        while k < unconstrained.len()
            invariant
                k <= unconstrained.len(),
                unc == unconstrained@,
                forall|j: int| 0 <= j < unconstrained.len() ==> #[trigger] unconstrained@[j] < n,
                deductions_ok(deductions, n as nat),
                premise ==> deductions_sound(deductions, all, n as nat),
                within ==> forall|layout: Seq<bool>, j: int|
                    layout.len() == n && #[trigger] meets_all(layout, all) && 0 <= j < unc.len() ==> (safe_all
                        ==> !layout[#[trigger] unc[j] as int]) && (mines_all ==> layout[unc[j] as int]),
                premise ==> within,
                safe_all ==> forall|j: int| 0 <= j < k ==> deductions.safe@[#[trigger] unc[j] as int],
                mines_all ==> forall|j: int| 0 <= j < k ==> deductions.mines@[#[trigger] unc[j] as int],
                mines_all ==> !safe_all,
                forall|i: int| 0 <= i < n && #[trigger] old(deductions).safe@[i] ==> deductions.safe@[i],
                forall|i: int| 0 <= i < n && #[trigger] old(deductions).mines@[i] ==> deductions.mines@[i],
            decreases unconstrained.len() - k,
        {
            let ghost db = *deductions;
            if safe_all {
                deductions.safe.set(unconstrained[k], true);
            } else if mines_all {
                deductions.mines.set(unconstrained[k], true);
            }
            proof {
                if safe_all {
                    assert forall|j: int| 0 <= j < k + 1 implies deductions.safe@[#[trigger] unc[j] as int] by {
                        if j < k && unc[j] != unc[k as int] {
                            assert(deductions.safe@[unc[j] as int] == db.safe@[unc[j] as int]);
                        }
                    }
                }
                if mines_all {
                    assert forall|j: int| 0 <= j < k + 1 implies deductions.mines@[#[trigger] unc[j] as int] by {
                        if j < k && unc[j] != unc[k as int] {
                            assert(deductions.mines@[unc[j] as int] == db.mines@[unc[j] as int]);
                        }
                    }
                }
                if premise {
                    let x = unc[k as int];
                    assert forall|layout: Seq<bool>, i: int|
                        #![trigger meets_all(layout, all), deductions.safe@[i]]
                        #![trigger meets_all(layout, all), deductions.mines@[i]]
                        layout.len() == n && meets_all(layout, all) && 0 <= i < n implies (deductions.safe@[i]
                            ==> !layout[i]) && (deductions.mines@[i] ==> layout[i]) by {
                        if i != x {
                            assert(deductions.safe@[i] == db.safe@[i]);
                            assert(deductions.mines@[i] == db.mines@[i]);
                        } else {
                            assert(unc[k as int] == x);
                        }
                    }
                }
            }
            k = k + 1;
        }
    }
    proof {
        assert(unc.to_set() =~= outside_set(sums, g)) by {
            assert forall|x: usize| #[trigger] unc.to_set().contains(x) <==> outside_set(sums, g).contains(x) by {
                if g.cells@.contains(x) {
                    let i = choose|i: int| 0 <= i < g.cells.len() && g.cells@[i] == x;
                    assert(constraint_ok(&g, n as nat));
                    assert(x < n);
                }
            }
        }
        lemma_sorted_no_duplicates(unc);
        unc.unique_seq_to_set();
        if forced && (target == remaining || (target < remaining && target + ulen == remaining)) {
            assert(forced_fact);
            assert(feasible_count == 1 && feasible_value == remaining - target);
            assert forall|x: usize|
                #[trigger] g.cells@.contains(x) && !in_some_summary(sums, n_sums, x) implies (target == remaining
                    ==> deductions.safe@[x as int]) && (target != remaining ==> deductions.mines@[x as int]) by {
                let i = choose|i: int| 0 <= i < g.cells.len() && g.cells@[i] == x;
                assert(constraint_ok(&g, n as nat));
                assert(x < n);
                assert(!frontier@[x as int]);
                assert(unc.contains(x));
                let j = choose|j: int| 0 <= j < unc.len() && unc[j] == x;
            }
        }
    }
    let ghost stage_safe = deductions.safe@;
    let ghost stage_mines = deductions.mines@;
    let mut index: usize = 0;
    while index < summaries.len()
        invariant
            deductions.safe@.len() == n,
            stage_safe.len() == n,
            forall|i: int| 0 <= i < n && #[trigger] stage_safe[i] ==> deductions.safe@[i],
            forall|i: int| 0 <= i < n && #[trigger] stage_mines[i] ==> deductions.mines@[i],
            stage_mines.len() == n,
            forall|i: int| 0 <= i < n && #[trigger] old(deductions).safe@[i] ==> deductions.safe@[i],
            forall|i: int| 0 <= i < n && #[trigger] old(deductions).mines@[i] ==> deductions.mines@[i],
            forall|k: int| 0 <= k < summaries.len() ==> summary_ok(&#[trigger] summaries@[k], n as nat),
            forall|k: int| 0 <= k < summaries.len() ==> summary_covers(#[trigger] summaries@[k], locals, n as nat),
            sums == summaries@,
            cc == component_counts@,
            all == locals.push(*global_constraint),
            g == *global_constraint,
            within == summaries_within(summaries@, *global_constraint),
            component_counts.len() == summaries.len(),
            prefix.len() == summaries.len() + 1,
            suffix.len() == summaries.len() + 1,
            n_sums == summaries.len(),
            index <= summaries.len(),
            deductions_ok(deductions, n as nat),
            premise ==> deductions_sound(deductions, all, n as nat),
            premise ==> within,
            ulen == unc.len(),
            remaining == g.mines,
            within ==> forall|layout: Seq<bool>|
                layout.len() == n && #[trigger] meets_all(layout, all) ==> layout_split(layout, sums, cc, unc, g.mines),
            forall|layout: Seq<bool>| #[trigger] meets_all(layout, all) ==> meets_all(layout, locals),
            forall|sel: Seq<usize>, i: int|
                #![trigger picks(component_counts@, sel), prefix@[i]]
                picks(component_counts@, sel) && 0 <= i <= component_counts.len() && sum_prefix(sel, i) <= remaining
                    ==> prefix@[i]@.contains(sum_prefix(sel, i) as usize),
            forall|sel: Seq<usize>, i: int|
                #![trigger picks(component_counts@, sel), suffix@[i]]
                picks(component_counts@, sel) && 0 <= i <= component_counts.len() && sum_from(sel, i) <= remaining
                    ==> suffix@[i]@.contains(sum_from(sel, i) as usize),
        decreases summaries.len() - index,
    {
        let summary = &summaries[index];
        let mut masks: Vec<u64> = Vec::new();
        let mut a: usize = 0;
        while a < summary.assignments.len()
            invariant
                a <= summary.assignments.len(),
                prefix.len() == summaries.len() + 1,
                suffix.len() == summaries.len() + 1,
                index < summaries.len(),
                summary == &summaries@[index as int],
                forall|a2: int|
                    0 <= a2 < a && completes(
                        #[trigger] summary.assignments@[a2].mines,
                        prefix@[index as int]@,
                        suffix@[index + 1]@,
                        remaining,
                        ulen as nat,
                    ) ==> masks@.contains(summary.assignments@[a2].mask),
            decreases summary.assignments.len() - a,
        {
            let assignment = summary.assignments[a];
            let ghost mb = masks@;
            assert(assignment == summary.assignments@[a as int]);
            if assignment_has_global_completion(assignment.mines, &prefix[index], &suffix[index + 1], remaining, ulen) {
                masks.push(assignment.mask);
            }
            proof {
                assert forall|a2: int|
                    0 <= a2 < a + 1 && completes(
                        #[trigger] summary.assignments@[a2].mines,
                        prefix@[index as int]@,
                        suffix@[index + 1]@,
                        remaining,
                        ulen as nat,
                    ) implies masks@.contains(summary.assignments@[a2].mask) by {
                    if a2 < a {
                        let i = choose|i: int| 0 <= i < mb.len() && mb[i] == summary.assignments@[a2].mask;
                        assert(masks@[i] == mb[i]);
                    } else {
                        assert(masks@[masks.len() - 1] == summary.assignments@[a2].mask);
                    }
                }
            }
            a = a + 1;
        }
        proof {
            assert(summary_ok(&summaries@[index as int], n as nat));
            assert(summary_covers(summaries@[index as int], locals, n as nat));
            if within {
                assert forall|layout: Seq<bool>|
                    layout.len() == n && #[trigger] meets_all(layout, all) implies exists|j: int|
                        0 <= j < masks@.len() && mask_matches(#[trigger] masks@[j], cells_choice(layout, summary.cells@)) by {
                    let sel = summary_mines(layout, sums);
                    let i0 = index as int;
                    assert(layout_split(layout, sums, cc, unc, g.mines));
                    assert(meets_all(layout, locals));
                    lemma_summary_total(layout, sums[i0], locals, n as nat);
                    let j = choose|j: int|
                        0 <= j < sums[i0].assignments.len() && #[trigger] sums[i0].assignments@[j].mines
                            == mines_among(layout, sums[i0].cells@).len() && mask_matches(
                            sums[i0].assignments@[j].mask,
                            cells_choice(layout, sums[i0].cells@),
                        );
                    let m = summary.assignments@[j].mines;
                    assert(m == sel[i0]);
                    lemma_sum_split(sel, i0 + 1);
                    let total_v = sum_prefix(sel, n_sums);
                    let p = sum_prefix(sel, i0);
                    let f = sum_from(sel, i0 + 1);
                    assert(sum_prefix(sel, i0 + 1) == p + m);
                    assert(p + m + f == total_v);
                    assert(picks(component_counts@, sel) && prefix@[i0] == prefix@[i0]);
                    assert(picks(component_counts@, sel) && suffix@[i0 + 1] == suffix@[i0 + 1]);
                    let pv = prefix@[i0]@;
                    let sv = suffix@[i0 + 1]@;
                    assert(pv.contains(p as usize));
                    assert(sv.contains(f as usize));
                    let ip = choose|ip: int| 0 <= ip < pv.len() && pv[ip] == p as usize;
                    let jf = choose|jf: int| 0 <= jf < sv.len() && sv[jf] == f as usize;
                    assert(pv[ip] + m + sv[jf] == total_v);
                    assert(completes(m, pv, sv, remaining, ulen as nat));
                    assert(masks@.contains(summary.assignments@[j].mask));
                    let jm = choose|jm: int| 0 <= jm < masks@.len() && masks@[jm] == summary.assignments@[j].mask;
                    assert(mask_matches(masks@[jm], cells_choice(layout, summary.cells@)));
                }
            }
        }
        let ghost db = *deductions;
        if !collect_assignment_certainties(&summary.cells, &masks, deductions, n, Ghost(all)) {
            proof {
                if within {
                    assert forall|layout: Seq<bool>| layout.len() == n implies !#[trigger] meets_all(layout, all) by {
                        if meets_all(layout, all) {
                            let j = choose|j: int|
                                0 <= j < masks@.len() && mask_matches(
                                    #[trigger] masks@[j],
                                    cells_choice(layout, summary.cells@),
                                );
                        }
                    }
                    assert(no_layout(all, n as nat));
                }
            }
            return false;
        }
        index = index + 1;
    }
    proof {
        if forced && (target == remaining || (target < remaining && target + ulen == remaining)) {
            assert forall|x: usize|
                #[trigger] g.cells@.contains(x) && !in_some_summary(sums, n_sums, x) implies (target == remaining
                    ==> deductions.safe@[x as int]) && (target != remaining ==> deductions.mines@[x as int]) by {
                assert(target == remaining ==> stage_safe[x as int]);
                assert(target != remaining ==> stage_mines[x as int]);
            }
        }
    }
    true
}

/// The cells of the set that `layout` makes mines.
pub open spec fn mines_in(layout: Seq<bool>, cells: Set<usize>) -> Set<usize> {
    cells.filter(|x: usize| x < layout.len() && layout[x as int])
}

/// Every set of cells is finite.
proof fn lemma_usize_set_finite(s: Set<usize>)
    ensures
        s.finite(),
{
    broadcast use vstd::set_lib::full_set_properties;

    assert(Set::<usize>::full().finite());
    vstd::set_lib::lemma_set_subset_finite(Set::<usize>::full(), s);
}

/// The summary lists the cells of component `comp`, and each of its assignments is how some
/// layout meeting the component puts mines on them.
spec fn summary_of(s: ComponentSummary, comp: Seq<Constraint>, n: nat) -> bool {
    &&& s.cells@.to_set() == constraint_cell_set(comp)
    &&& s.cells@.no_duplicates()
    &&& forall|k: int| 0 <= k < s.cells.len() ==> (#[trigger] s.cells@[k]) < n
    &&& forall|j: int|
        0 <= j < s.assignments.len() ==> #[trigger] s.assignments@[j].mines == count_true(
            mask_choice(s.assignments@[j].mask, s.cells.len() as int),
        )
    &&& assignments_realized(s.assignments@, s.cells@, comp, n)
    &&& s.assignments.len() > 0
}

/// An assignment total of a summary is the number of mines some layout meeting the
/// component puts on its cells.
proof fn lemma_total_layout(s: ComponentSummary, comp: Seq<Constraint>, n: nat, v: usize)
    requires
        summary_of(s, comp, n),
        has_total(s, v),
    ensures
        exists|layout: Seq<bool>|
            layout.len() == n && #[trigger] meets_all(layout, comp) && mines_among(layout, s.cells@).len() == v,
{
    let a = choose|a: int| 0 <= a < s.assignments.len() && #[trigger] s.assignments@[a].mines == v;
    let mask = s.assignments@[a].mask;
    assert(realized(s.assignments@[a].mask, s.cells@, comp, n));
    let layout = choose|layout: Seq<bool>|
        layout.len() == n && #[trigger] meets_all(layout, comp) && mask_matches(mask, cells_choice(layout, s.cells@));
    assert(mask_choice(mask, s.cells.len() as int) =~= cells_choice(layout, s.cells@));
    lemma_choice_count(layout, s.cells@);
}

/// Layouts that each meet one component, put side by side on the components' cells, form a
/// layout meeting all the local constraints.
proof fn lemma_splice(
    locals: Seq<Constraint>,
    comps: Seq<Vec<Constraint>>,
    sums: Seq<ComponentSummary>,
    n: nat,
    pick: spec_fn(int) -> Seq<bool>,
) -> (splice: Seq<bool>)
    requires
        sums.len() == comps.len(),
        forall|j: int| 0 <= j < sums.len() ==> #[trigger] summary_of(sums[j], comps[j]@, n),
        summaries_disjoint(sums),
        forall|k: int| 0 <= k < locals.len() ==> #[trigger] in_components(comps, locals[k]),
        forall|j: int| 0 <= j < sums.len() ==> (#[trigger] pick(j)).len() == n && meets_all(pick(j), comps[j]@),
    ensures
        splice.len() == n,
        meets_all(splice, locals),
        forall|j: int, x: usize|
            0 <= j < sums.len() && #[trigger] sums[j].cells@.contains(x) ==> (x as int) < n && splice[x as int] == pick(j)[x as int],
{
    let k_all = sums.len() as int;
    let splice = Seq::new(
        n,
        |x: int| exists|j: int| 0 <= j < k_all && #[trigger] sums[j].cells@.contains(x as usize) && pick(j)[x],
    );
    assert forall|j: int, x: usize| 0 <= j < k_all && #[trigger] sums[j].cells@.contains(x) implies (x as int) < n
        && splice[x as int] == pick(j)[x as int] by {
        assert(summary_of(sums[j], comps[j]@, n));
        let i = choose|i: int| 0 <= i < sums[j].cells.len() && sums[j].cells@[i] == x;
        assert(sums[j].cells@[i] < n);
        let xi = x as int;
        assert(xi as usize == x);
        if pick(j)[xi] {
            assert(sums[j].cells@.contains(xi as usize) && pick(j)[xi]);
            assert(splice[xi]);
        }
        if splice[x as int] {
            let j2 = choose|j2: int| 0 <= j2 < k_all && #[trigger] sums[j2].cells@.contains(x) && pick(j2)[x as int];
            if j2 != j {
                assert(sums[j].cells@.contains(x) && sums[j2].cells@.contains(x));
            }
        }
    }
    assert forall|k: int| 0 <= k < locals.len() implies meets(splice, &#[trigger] locals[k]) by {
        assert(in_components(comps, locals[k]));
        let (c2, i) = choose|c2: int, i: int| 0 <= c2 < comps.len() && 0 <= i < comps[c2].len() && #[trigger] copy_of(comps[c2]@[i], locals[k]);
        let l = pick(c2);
        assert(meets_all(l, comps[c2]@));
        assert(meets(l, &comps[c2]@[i]));
        assert(summary_of(sums[c2], comps[c2]@, n));
        assert(mines_among(splice, locals[k].cells@) =~= mines_among(l, locals[k].cells@)) by {
            assert forall|x: usize| #[trigger] locals[k].cells@.to_set().contains(x) implies (x < splice.len() && splice[x as int])
                == (x < l.len() && l[x as int]) by {
                let i2 = choose|i2: int| 0 <= i2 < locals[k].cells.len() && locals[k].cells@[i2] == x;
                assert(comps[c2]@[i].cells@[i2] == x);
                assert(constraint_cell_set(comps[c2]@).contains(x));
                assert(sums[c2].cells@.to_set().contains(x));
                assert(sums[c2].cells@.contains(x));
            }
        }
    }
    splice
}

/// A layout of `n` cells meeting component `j` that puts its mines on the component's cells
/// as `sums[j]`'s first assignment does.
spec fn first_layout(sums: Seq<ComponentSummary>, comps: Seq<Vec<Constraint>>, n: nat, j: int) -> Seq<bool> {
    choose|layout: Seq<bool>|
        layout.len() == n && #[trigger] meets_all(layout, comps[j]@) && mask_matches(
            sums[j].assignments@[0].mask,
            cells_choice(layout, sums[j].cells@),
        )
}

/// Every assignment of a component extends to a layout meeting all the local constraints:
/// the other components take their first assignments.
proof fn lemma_assignment_extends(
    locals: Seq<Constraint>,
    comps: Seq<Vec<Constraint>>,
    sums: Seq<ComponentSummary>,
    n: nat,
    c: int,
    a: int,
) -> (layout: Seq<bool>)
    requires
        sums.len() == comps.len(),
        forall|j: int| 0 <= j < sums.len() ==> #[trigger] summary_of(sums[j], comps[j]@, n),
        summaries_disjoint(sums),
        forall|k: int| 0 <= k < locals.len() ==> #[trigger] in_components(comps, locals[k]),
        0 <= c < sums.len(),
        0 <= a < sums[c].assignments.len(),
    ensures
        layout.len() == n,
        meets_all(layout, locals),
        forall|q: int| 0 <= q < sums[c].cells.len() ==> layout[#[trigger] sums[c].cells@[q] as int] == mask_bit(
            sums[c].assignments@[a].mask,
            q,
        ),
{
    assert(summary_of(sums[c], comps[c]@, n));
    assert(realized(sums[c].assignments@[a].mask, sums[c].cells@, comps[c]@, n));
    let own = choose|layout: Seq<bool>|
        layout.len() == n && #[trigger] meets_all(layout, comps[c]@) && mask_matches(
            sums[c].assignments@[a].mask,
            cells_choice(layout, sums[c].cells@),
        );
    let pick = |j: int| if j == c { own } else { first_layout(sums, comps, n, j) };
    assert forall|j: int| 0 <= j < sums.len() implies (#[trigger] pick(j)).len() == n && meets_all(pick(j), comps[j]@) by {
        if j != c {
            assert(summary_of(sums[j], comps[j]@, n));
            assert(realized(sums[j].assignments@[0].mask, sums[j].cells@, comps[j]@, n));
        }
    }
    let splice = lemma_splice(locals, comps, sums, n, pick);
    assert forall|q: int| 0 <= q < sums[c].cells.len() implies splice[#[trigger] sums[c].cells@[q] as int] == mask_bit(
        sums[c].assignments@[a].mask,
        q,
    ) by {
        let x = sums[c].cells@[q];
        assert(sums[c].cells@.contains(x));
        assert(cells_choice(own, sums[c].cells@)[q] == own[x as int]);
    }
    splice
}

/// What every assignment of the summary says of its cell at position `q` is recorded: safe
/// when none puts a mine there, a mine when all do.
spec fn certainty_recorded(d: &Deductions, s: ComponentSummary, q: int) -> bool {
    &&& (forall|a: int| 0 <= a < s.assignments.len() ==> !mask_bit(#[trigger] s.assignments@[a].mask, q)) ==> d.safe@[s.cells@[q] as int]
    &&& (forall|a: int| 0 <= a < s.assignments.len() ==> mask_bit(#[trigger] s.assignments@[a].mask, q)) ==> d.mines@[s.cells@[q] as int]
}

/// A layout of `n` cells meeting component `j` with `sel[j]` mines on its cells.
spec fn pick_layout(sums: Seq<ComponentSummary>, comps: Seq<Vec<Constraint>>, sel: Seq<usize>, n: nat, j: int) -> Seq<bool> {
    choose|layout: Seq<bool>|
        layout.len() == n && #[trigger] meets_all(layout, comps[j]@) && mines_among(layout, sums[j].cells@).len() == sel[j]
}

/// When every layout meeting the local constraints puts `m` mines on their cells, any choice
/// of one assignment total per component adds up to `m`: the components' layouts, put side
/// by side, form one such layout.
proof fn lemma_totals_forced(
    locals: Seq<Constraint>,
    comps: Seq<Vec<Constraint>>,
    sums: Seq<ComponentSummary>,
    m: usize,
    n: nat,
)
    requires
        sums.len() == comps.len(),
        forall|j: int| 0 <= j < sums.len() ==> #[trigger] summary_of(sums[j], comps[j]@, n),
        summaries_disjoint(sums),
        forall|k: int| 0 <= k < locals.len() ==> #[trigger] in_components(comps, locals[k]),
        forall|c: int, j: int| 0 <= c < comps.len() && 0 <= j < comps[c].len() ==> #[trigger] copy_listed(comps[c]@[j], locals),
        forall|layout: Seq<bool>|
            layout.len() == n && #[trigger] meets_all(layout, locals) ==> mines_in(layout, constraint_cell_set(locals)).len() == m,
    ensures
        totals_forced(sums, m),
{
    let k_all = sums.len() as int;
    assert forall|sel: Seq<usize>| #[trigger] picks_assignment_totals(sums, sel) implies sum_prefix(sel, k_all) == m by {
        assert forall|j: int| 0 <= j < k_all implies {
            let l = #[trigger] pick_layout(sums, comps, sel, n, j);
            l.len() == n && meets_all(l, comps[j]@) && mines_among(l, sums[j].cells@).len() == sel[j]
        } by {
            assert(has_total(sums[j], sel[j]));
            assert(summary_of(sums[j], comps[j]@, n));
            lemma_total_layout(sums[j], comps[j]@, n, sel[j]);
        }
        let pick = |j: int| pick_layout(sums, comps, sel, n, j);
        assert forall|j: int| 0 <= j < sums.len() implies (#[trigger] pick(j)).len() == n && meets_all(pick(j), comps[j]@) by {
            assert(pick(j) == pick_layout(sums, comps, sel, n, j));
        }
        let splice = lemma_splice(locals, comps, sums, n, pick);
        assert forall|j: int| 0 <= j < k_all implies #[trigger] summary_mines(splice, sums)[j] == sel[j] by {
            let l = pick_layout(sums, comps, sel, n, j);
            assert(mines_among(splice, sums[j].cells@) =~= mines_among(l, sums[j].cells@)) by {
                assert forall|x: usize| #[trigger] sums[j].cells@.to_set().contains(x) implies (x < splice.len() && splice[x as int])
                    == (x < l.len() && l[x as int]) by {
                    assert(sums[j].cells@.contains(x));
                }
            }
        }
        assert(summary_mines(splice, sums) =~= sel);
        assert(meets_all(splice, locals));
        let front = frontier_seq(sums, k_all);
        assert(constraint_cell_set(locals) =~= front.to_set()) by {
            assert forall|x: usize| #[trigger] constraint_cell_set(locals).contains(x) <==> front.to_set().contains(x) by {
                lemma_frontier_contains(sums, k_all, x);
                if constraint_cell_set(locals).contains(x) {
                    let (k, i) = choose|k: int, i: int| 0 <= k < locals.len() && 0 <= i < locals[k].cells.len() && #[trigger] locals[k].cells@[i] == x;
                    assert(in_components(comps, locals[k]));
                    let (c, i3) = choose|c: int, i3: int| 0 <= c < comps.len() && 0 <= i3 < comps[c].len() && #[trigger] copy_of(comps[c]@[i3], locals[k]);
                    assert(comps[c]@[i3].cells@[i] == x);
                    assert(constraint_cell_set(comps[c]@).contains(x));
                    assert(summary_of(sums[c], comps[c]@, n));
                    assert(sums[c].cells@.to_set().contains(x));
                    assert(sums[c].cells@.contains(x));
                }
                if front.to_set().contains(x) {
                    assert(front.contains(x));
                    let c = choose|c: int| 0 <= c < k_all && #[trigger] sums[c].cells@.contains(x);
                    assert(summary_of(sums[c], comps[c]@, n));
                    assert(sums[c].cells@.to_set().contains(x));
                    assert(constraint_cell_set(comps[c]@).contains(x));
                    let (j, i) = choose|j: int, i: int| 0 <= j < comps[c]@.len() && 0 <= i < comps[c]@[j].cells.len() && #[trigger] comps[c]@[j].cells@[i] == x;
                    assert(copy_listed(comps[c]@[j], locals));
                    let k = choose|k: int| 0 <= k < locals.len() && #[trigger] copy_of(comps[c]@[j], locals[k]);
                    assert(locals[k].cells@[i] == x);
                }
            }
        }
        assert(mines_in(splice, constraint_cell_set(locals)) =~= mines_among(splice, front));
        lemma_frontier_mines(splice, sums, k_all);
    }
}

/// Every layout of `n` cells meeting the local constraints puts exactly `m` mines on their
/// cells.
pub open spec fn forced_count(locals: Seq<Constraint>, n: nat, m: usize) -> bool {
    forall|layout: Seq<bool>|
        layout.len() == n && #[trigger] meets_all(layout, locals) ==> mines_in(layout, constraint_cell_set(locals)).len() == m
}

/// Once every component has an assignment, some layout meets all the local constraints.
proof fn lemma_some_layout(locals: Seq<Constraint>, comps: Seq<Vec<Constraint>>, sums: Seq<ComponentSummary>, n: nat) -> (layout: Seq<bool>)
    requires
        sums.len() == comps.len(),
        forall|j: int| 0 <= j < sums.len() ==> #[trigger] summary_of(sums[j], comps[j]@, n),
        summaries_disjoint(sums),
        forall|k: int| 0 <= k < locals.len() ==> #[trigger] in_components(comps, locals[k]),
    ensures
        layout.len() == n,
        meets_all(layout, locals),
{
    if sums.len() > 0 {
        assert(summary_of(sums[0], comps[0]@, n));
        lemma_assignment_extends(locals, comps, sums, n, 0, 0)
    } else {
        if locals.len() > 0 {
            assert(in_components(comps, locals[0]));
        }
        Seq::new(n, |i: int| false)
    }
}

/// Every cell of the local constraints is one of the global constraint's cells.
pub open spec fn locals_within(cs: Seq<Constraint>, g: Constraint) -> bool {
    forall|k: int, x: usize| 0 <= k < cs.len() && #[trigger] cs[k].cells@.contains(x) ==> g.cells@.contains(x)
}

/// A layout that meets every constraint meets each copy of one of them.
proof fn lemma_meets_copies(layout: Seq<bool>, cs: Seq<Constraint>, comp: Seq<Constraint>)
    requires
        meets_all(layout, cs),
        forall|j: int| 0 <= j < comp.len() ==> #[trigger] copy_listed(comp[j], cs),
    ensures
        meets_all(layout, comp),
{
    assert forall|j: int| 0 <= j < comp.len() implies meets(layout, &#[trigger] comp[j]) by {
        assert(copy_listed(comp[j], cs));
        let k = choose|k: int| 0 <= k < cs.len() && #[trigger] copy_of(comp[j], cs[k]);
        assert(meets(layout, &cs[k]));
    }
}

/// Deductions from enumerating each small component of the local constraints, then from the
/// total mine count when every component could be enumerated. Fails on a contradiction.
///
/// When the local constraints only speak of cells that the global one lists, every deduction
/// holds in each layout that meets all the constraints, and a failure means that no layout
/// meets them all (on boards of fewer than `usize::MAX` cells).
pub fn combination_deductions(
    local_constraints: &Vec<Constraint>,
    global_constraint: &Constraint,
    n: usize,
) -> (d: Option<Deductions>)
    requires
        constraints_ok(local_constraints@, n as nat),
        constraint_ok(global_constraint, n as nat),
    ensures
        d matches Some(dd) ==> deductions_ok(&dd, n as nat),
        locals_within(local_constraints@, *global_constraint) ==> (d matches Some(dd) ==> deductions_sound(
            &dd,
            local_constraints@.push(*global_constraint),
            n as nat,
        )),
        locals_within(local_constraints@, *global_constraint) && n < usize::MAX && d is None ==> no_layout(
            local_constraints@.push(*global_constraint),
            n as nat,
        ),
        constraint_cell_set(local_constraints@).len() <= SMALL_COMPONENT_CELLS && (forall|layout: Seq<bool>|
            layout.len() == n && #[trigger] meets_all(layout, local_constraints@) ==> mines_in(
                layout,
                constraint_cell_set(local_constraints@),
            ).len() == global_constraint.mines) ==> (d matches Some(dd) ==> forall|x: usize|
            #[trigger] global_constraint.cells@.contains(x) && !constraint_cell_set(local_constraints@).contains(x)
                ==> dd.safe@[x as int]),
        forall|m: usize|
            constraint_cell_set(local_constraints@).len() <= SMALL_COMPONENT_CELLS && #[trigger] forced_count(
                local_constraints@,
                n as nat,
                m,
            ) && m < global_constraint.mines && m + global_constraint.cells@.to_set().difference(
                constraint_cell_set(local_constraints@),
            ).len() == global_constraint.mines ==> (d matches Some(dd) ==> forall|x: usize|
                #[trigger] global_constraint.cells@.contains(x) && !constraint_cell_set(local_constraints@).contains(x)
                    ==> dd.mines@[x as int]),
        constraint_cell_set(local_constraints@).len() <= SMALL_COMPONENT_CELLS ==> (d matches Some(dd) ==> forall|x: usize|
            #[trigger] constraint_cell_set(local_constraints@).contains(x) ==> ((forall|layout: Seq<bool>|
                layout.len() == n && #[trigger] meets_all(layout, local_constraints@) ==> !layout[x as int]) ==> dd.safe@[x as int])
                && ((forall|layout: Seq<bool>|
                layout.len() == n && #[trigger] meets_all(layout, local_constraints@) ==> layout[x as int]) ==> dd.mines@[x as int])),
{
    let ghost locals = local_constraints@;
    let ghost all = locals.push(*global_constraint);
    let ghost g = *global_constraint;
    proof {
        assert forall|layout: Seq<bool>| #[trigger] meets_all(layout, all) implies meets_all(layout, locals) by {
            assert forall|k: int| 0 <= k < locals.len() implies meets(layout, &#[trigger] locals[k]) by {
                assert(all[k] == locals[k]);
            }
        }
    }
    let components = constraint_components(local_constraints, n);
    let mut deductions = new_deductions(n);
    let mut summaries: Vec<ComponentSummary> = Vec::new();
    let mut all_components_enumerated = true;
    let ghost small = constraint_cell_set(locals).len() <= SMALL_COMPONENT_CELLS;
    let mut c: usize = 0;
    while c < components.len()
        invariant
            small == (constraint_cell_set(locals).len() <= SMALL_COMPONENT_CELLS),
            small ==> all_components_enumerated,
            all_components_enumerated ==> summaries.len() == c,
            all_components_enumerated ==> forall|j: int|
                0 <= j < c ==> #[trigger] summary_of(summaries@[j], components@[j]@, n as nat),
            all_components_enumerated ==> forall|j: int, q: int|
                0 <= j < c && 0 <= q < summaries@[j].cells.len() ==> #[trigger] certainty_recorded(&deductions, summaries@[j], q),
            forall|k: int| 0 <= k < components.len() ==> constraints_ok(#[trigger] components@[k]@, n as nat),
            forall|c2: int, j: int| 0 <= c2 < components.len() && 0 <= j < components@[c2].len() ==> #[trigger] copy_listed(
                components@[c2]@[j],
                locals,
            ),
            components_disjoint(components@),
            forall|layout: Seq<bool>| #[trigger] meets_all(layout, all) ==> meets_all(layout, locals),
            locals == local_constraints@,
            all == locals.push(*global_constraint),
            g == *global_constraint,
            c <= components.len(),
            deductions_ok(&deductions, n as nat),
            deductions_sound(&deductions, all, n as nat),
            forall|k: int| 0 <= k < summaries.len() ==> summary_ok(&#[trigger] summaries@[k], n as nat),
            forall|k: int| 0 <= k < summaries.len() ==> summary_covers(#[trigger] summaries@[k], locals, n as nat),
            summaries_disjoint(summaries@),
            forall|k: int, x: usize|
                0 <= k < summaries.len() && #[trigger] summaries@[k].cells@.contains(x) ==> exists|c2: int, j: int|
                    0 <= c2 < c && 0 <= j < components@[c2].len() && #[trigger] components@[c2]@[j].cells@.contains(x),
            locals_within(locals, g) ==> summaries_within(summaries@, g),
        decreases components.len() - c,
    {
        proof {
            assert(constraints_ok(components@[c as int]@, n as nat));
        }
        match enumerate_component(&components[c], n) {
            None => {
                proof {
                    let comp = components@[c as int]@;
                    assert forall|layout: Seq<bool>| layout.len() == n implies !#[trigger] meets_all(layout, all) by {
                        if meets_all(layout, all) {
                            assert forall|j: int| 0 <= j < comp.len() implies #[trigger] copy_listed(comp[j], locals) by {
                                assert(copy_listed(components@[c as int]@[j], locals));
                            }
                            lemma_meets_copies(layout, locals, comp);
                            if exists|k: int| 0 <= k < comp.len() && #[trigger] comp[k].mines > comp[k].cells.len() {
                                let k = choose|k: int| 0 <= k < comp.len() && #[trigger] comp[k].mines > comp[k].cells.len();
                                assert(meets(layout, &comp[k]));
                                lemma_mines_among_bound(layout, comp[k].cells@);
                            }
                        }
                    }
                }
                return None;
            },
            Some(ComponentEnumeration::Enumerated(summary)) => {
                let mut masks: Vec<u64> = Vec::new();
                let mut a: usize = 0;
                while a < summary.assignments.len()
                    invariant
                        a <= summary.assignments.len(),
                        masks.len() == a,
                        forall|j: int| 0 <= j < a ==> #[trigger] masks@[j] == summary.assignments@[j].mask,
                    decreases summary.assignments.len() - a,
                {
                    masks.push(summary.assignments[a].mask);
                    a = a + 1;
                }
                let ghost comp = components@[c as int]@;
                proof {
                    assert forall|j: int| 0 <= j < comp.len() implies #[trigger] copy_listed(comp[j], locals) by {
                        assert(copy_listed(components@[c as int]@[j], locals));
                    }
                    assert forall|layout: Seq<bool>|
                        layout.len() == n && #[trigger] meets_all(layout, all) implies exists|j: int|
                            0 <= j < masks@.len() && mask_matches(#[trigger] masks@[j], cells_choice(layout, summary.cells@)) by {
                        lemma_meets_copies(layout, locals, comp);
                        let j = choose|j: int|
                            0 <= j < summary.assignments@.len() && mask_matches(
                                #[trigger] summary.assignments@[j].mask,
                                cells_choice(layout, summary.cells@),
                            );
                        assert(masks@[j] == summary.assignments@[j].mask);
                    }
                    assert forall|layout: Seq<bool>|
                        layout.len() == n && #[trigger] meets_all(layout, locals) implies exists|j: int|
                            0 <= j < summary.assignments.len() && #[trigger] mask_matches(
                                summary.assignments@[j].mask,
                                cells_choice(layout, summary.cells@),
                            ) by {
                        lemma_meets_copies(layout, locals, comp);
                        let j = choose|j: int|
                            0 <= j < summary.assignments@.len() && mask_matches(
                                #[trigger] summary.assignments@[j].mask,
                                cells_choice(layout, summary.cells@),
                            );
                    }
                    assert(summary_covers(summary, locals, n as nat));
                }
                assert(masks.len() > 0);
                let ghost db = deductions;
                if !collect_assignment_certainties(&summary.cells, &masks, &mut deductions, n, Ghost(all)) {
                    return None;
                }
                let ghost sb = summaries@;
                proof {
                    assert(summary_of(summary, components@[c as int]@, n as nat));
                    if all_components_enumerated {
                        assert forall|j: int, q: int|
                            0 <= j < c && 0 <= q < summaries@[j].cells.len() implies #[trigger] certainty_recorded(
                                &deductions,
                                summaries@[j],
                                q,
                            ) by {
                            assert(certainty_recorded(&db, summaries@[j], q));
                            assert(summary_of(summaries@[j], components@[j]@, n as nat));
                            assert(summaries@[j].cells@[q] < n);
                        }
                    }
                    assert forall|q: int| 0 <= q < summary.cells.len() implies #[trigger] certainty_recorded(&deductions, summary, q) by {
                        if forall|a2: int| 0 <= a2 < summary.assignments.len() ==> !mask_bit(#[trigger] summary.assignments@[a2].mask, q) {
                            assert forall|j: int| 0 <= j < masks.len() implies !mask_bit(#[trigger] masks@[j], q) by {
                                assert(masks@[j] == summary.assignments@[j].mask);
                            }
                        }
                        if forall|a2: int| 0 <= a2 < summary.assignments.len() ==> mask_bit(#[trigger] summary.assignments@[a2].mask, q) {
                            assert forall|j: int| 0 <= j < masks.len() implies mask_bit(#[trigger] masks@[j], q) by {
                                assert(masks@[j] == summary.assignments@[j].mask);
                            }
                        }
                    }
                }
                summaries.push(summary);
                proof {
                    let last = sb.len() as int;
                    if all_components_enumerated {
                        assert forall|j: int| 0 <= j < c + 1 implies #[trigger] summary_of(summaries@[j], components@[j]@, n as nat) by {
                            if j < c {
                                assert(summaries@[j] == sb[j]);
                            }
                        }
                        assert forall|j: int, q: int|
                            0 <= j < c + 1 && 0 <= q < summaries@[j].cells.len() implies #[trigger] certainty_recorded(
                                &deductions,
                                summaries@[j],
                                q,
                            ) by {
                            if j < c {
                                assert(summaries@[j] == sb[j]);
                            }
                        }
                    }
                    assert forall|x: usize| #[trigger] summary.cells@.contains(x) implies exists|j: int|
                        0 <= j < comp.len() && #[trigger] comp[j].cells@.contains(x) by {
                        assert(summary.cells@.to_set().contains(x));
                        assert(constraint_cell_set(comp).contains(x));
                        let (k, j) = choose|k: int, j: int| 0 <= k < comp.len() && 0 <= j < comp[k].cells.len() && #[trigger] comp[k].cells@[j] == x;
                        assert(comp[k].cells@.contains(x));
                    }
                    assert forall|k: int| 0 <= k < summaries.len() implies summary_ok(&#[trigger] summaries@[k], n as nat)
                        && summary_covers(summaries@[k], locals, n as nat) by {
                        if k < last {
                            assert(summaries@[k] == sb[k]);
                        }
                    }
                    assert forall|k: int, x: usize|
                        0 <= k < summaries.len() && #[trigger] summaries@[k].cells@.contains(x) implies exists|c2: int, j: int|
                            0 <= c2 < c + 1 && 0 <= j < components@[c2].len() && #[trigger] components@[c2]@[j].cells@.contains(x) by {
                        if k < last {
                            assert(summaries@[k] == sb[k]);
                            let (c2, j) = choose|c2: int, j: int|
                                0 <= c2 < c && 0 <= j < components@[c2].len() && #[trigger] components@[c2]@[j].cells@.contains(x);
                        } else {
                            let j = choose|j: int| 0 <= j < comp.len() && #[trigger] comp[j].cells@.contains(x);
                            assert(components@[c as int]@[j].cells@.contains(x));
                        }
                    }
                    assert forall|s1: int, s2: int, x: usize|
                        0 <= s1 < summaries.len() && 0 <= s2 < summaries.len() && s1 != s2 && #[trigger] summaries@[s1].cells@.contains(x)
                            implies !#[trigger] summaries@[s2].cells@.contains(x) by {
                        if s1 < last && s2 < last {
                            assert(summaries@[s1] == sb[s1]);
                            assert(summaries@[s2] == sb[s2]);
                        } else if summaries@[s2].cells@.contains(x) {
                            let (so, sn) = if s1 < last {
                                (s1, s2)
                            } else {
                                (s2, s1)
                            };
                            assert(summaries@[so] == sb[so]);
                            assert(summaries@[sn] == summary);
                            let (c2, j2) = choose|c2: int, j: int|
                                0 <= c2 < c && 0 <= j < components@[c2].len() && #[trigger] components@[c2]@[j].cells@.contains(x);
                            let j = choose|j: int| 0 <= j < comp.len() && #[trigger] comp[j].cells@.contains(x);
                            assert(components@[c as int]@[j].cells@.contains(x));
                            assert(components_disjoint(components@));
                        }
                    }
                    if locals_within(locals, g) {
                        assert forall|k: int, x: usize| 0 <= k < summaries.len() && #[trigger] summaries@[k].cells@.contains(x) implies g.cells@.contains(x) by {
                            let (c2, j) = choose|c2: int, j: int|
                                0 <= c2 < c + 1 && 0 <= j < components@[c2].len() && #[trigger] components@[c2]@[j].cells@.contains(x);
                            assert(copy_listed(components@[c2]@[j], locals));
                            let kk = choose|kk: int| 0 <= kk < locals.len() && #[trigger] copy_of(components@[c2]@[j], locals[kk]);
                            assert(locals[kk].cells@.contains(x));
                        }
                    }
                }
            },
            Some(ComponentEnumeration::Skipped) => {
                proof {
                    let comp = components@[c as int]@;
                    assert(constraint_cell_set(comp).subset_of(constraint_cell_set(locals))) by {
                        assert forall|x: usize| #[trigger] constraint_cell_set(comp).contains(x) implies constraint_cell_set(
                            locals,
                        ).contains(x) by {
                            let (k, i) = choose|k: int, i: int| 0 <= k < comp.len() && 0 <= i < comp[k].cells.len() && #[trigger] comp[k].cells@[i] == x;
                            assert(copy_listed(components@[c as int]@[k], locals));
                            let k2 = choose|k2: int| 0 <= k2 < locals.len() && #[trigger] copy_of(components@[c as int]@[k], locals[k2]);
                            assert(locals[k2].cells@[i] == x);
                        }
                    }
                    lemma_usize_set_finite(constraint_cell_set(locals));
                    vstd::set_lib::lemma_len_subset(constraint_cell_set(comp), constraint_cell_set(locals));
                }
                all_components_enumerated = false;
            },
        }
        c = c + 1;
    }
    let ghost target: usize = if exists|m: usize| forced_count(locals, n as nat, m) {
        choose|m: usize| forced_count(locals, n as nat, m)
    } else {
        g.mines
    };
    let ghost forcing = small && forced_count(locals, n as nat, g.mines);
    proof {
        if small {
            let w = lemma_some_layout(locals, components@, summaries@, n as nat);
            if exists|m: usize| forced_count(locals, n as nat, m) {
                assert(forced_count(locals, n as nat, target));
                assert(meets_all(w, locals));
                assert forall|m: usize| #[trigger] forced_count(locals, n as nat, m) implies m == target by {
                    assert(meets_all(w, locals));
                }
                lemma_totals_forced(locals, components@, summaries@, target, n as nat);
            }
        }
    }
    if all_components_enumerated {
        let ghost db = deductions;
        if !collect_global_combination_deductions(&summaries, global_constraint, &mut deductions, n, Ghost(locals), Ghost(target)) {
            return None;
        }
        proof {
            if small {
                let sums = summaries@;
                let comps = components@;
                assert forall|x: usize| #[trigger] constraint_cell_set(locals).contains(x) implies ((forall|layout: Seq<bool>|
                    layout.len() == n && #[trigger] meets_all(layout, locals) ==> !layout[x as int]) ==> deductions.safe@[x as int])
                    && ((forall|layout: Seq<bool>|
                    layout.len() == n && #[trigger] meets_all(layout, locals) ==> layout[x as int]) ==> deductions.mines@[x as int]) by {
                    let (k, i) = choose|k: int, i: int| 0 <= k < locals.len() && 0 <= i < locals[k].cells.len() && #[trigger] locals[k].cells@[i] == x;
                    assert(in_components(comps, locals[k]));
                    let (c2, i3) = choose|c2: int, i3: int| 0 <= c2 < comps.len() && 0 <= i3 < comps[c2].len() && #[trigger] copy_of(comps[c2]@[i3], locals[k]);
                    assert(comps[c2]@[i3].cells@[i] == x);
                    assert(constraint_cell_set(comps[c2]@).contains(x));
                    assert(summary_of(sums[c2], comps[c2]@, n as nat));
                    assert(sums[c2].cells@.to_set().contains(x));
                    let q = choose|q: int| 0 <= q < sums[c2].cells.len() && sums[c2].cells@[q] == x;
                    assert(certainty_recorded(&db, sums[c2], q));
                    assert(sums[c2].cells@[q] < n);
                    if forall|layout: Seq<bool>| layout.len() == n && #[trigger] meets_all(layout, locals) ==> !layout[x as int] {
                        assert forall|a: int| 0 <= a < sums[c2].assignments.len() implies !mask_bit(#[trigger] sums[c2].assignments@[a].mask, q) by {
                            let l = lemma_assignment_extends(locals, comps, sums, n as nat, c2, a);
                            assert(l[sums[c2].cells@[q] as int] == mask_bit(sums[c2].assignments@[a].mask, q));
                        }
                    }
                    if forall|layout: Seq<bool>| layout.len() == n && #[trigger] meets_all(layout, locals) ==> layout[x as int] {
                        assert forall|a: int| 0 <= a < sums[c2].assignments.len() implies mask_bit(#[trigger] sums[c2].assignments@[a].mask, q) by {
                            let l = lemma_assignment_extends(locals, comps, sums, n as nat, c2, a);
                            assert(l[sums[c2].cells@[q] as int] == mask_bit(sums[c2].assignments@[a].mask, q));
                        }
                    }
                }
            }
        }
        proof {
            if small {
                let sums = summaries@;
                let comps = components@;
                assert forall|x: usize| #[trigger] in_some_summary(sums, sums.len() as int, x) <==> constraint_cell_set(locals).contains(x) by {
                    if in_some_summary(sums, sums.len() as int, x) {
                        let k = choose|k: int| 0 <= k < sums.len() && #[trigger] sums[k].cells@.contains(x);
                        let (c2, j) = choose|c2: int, j: int|
                            0 <= c2 < c && 0 <= j < components@[c2].len() && #[trigger] components@[c2]@[j].cells@.contains(x);
                        assert(copy_listed(components@[c2]@[j], locals));
                        let k2 = choose|k2: int| 0 <= k2 < locals.len() && #[trigger] copy_of(components@[c2]@[j], locals[k2]);
                        let i = choose|i: int| 0 <= i < locals[k2].cells.len() && locals[k2].cells@[i] == x;
                        assert(locals[k2].cells@[i] == x);
                    }
                    if constraint_cell_set(locals).contains(x) {
                        let (k, i) = choose|k: int, i: int| 0 <= k < locals.len() && 0 <= i < locals[k].cells.len() && #[trigger] locals[k].cells@[i] == x;
                        assert(in_components(comps, locals[k]));
                        let (c2, i3) = choose|c2: int, i3: int| 0 <= c2 < comps.len() && 0 <= i3 < comps[c2].len() && #[trigger] copy_of(comps[c2]@[i3], locals[k]);
                        assert(comps[c2]@[i3].cells@[i] == x);
                        assert(constraint_cell_set(comps[c2]@).contains(x));
                        assert(summary_of(sums[c2], comps[c2]@, n as nat));
                        assert(sums[c2].cells@.to_set().contains(x));
                        assert(sums[c2].cells@.contains(x));
                    }
                }
                assert(outside_set(sums, g) =~= g.cells@.to_set().difference(constraint_cell_set(locals)));
            }
            if forcing {
                assert(target == g.mines);
                assert forall|x: usize|
                    #[trigger] g.cells@.contains(x) && !constraint_cell_set(locals).contains(x) implies deductions.safe@[x as int] by {
                    if in_some_summary(summaries@, summaries.len() as int, x) {
                        let k = choose|k: int| 0 <= k < summaries.len() && #[trigger] summaries@[k].cells@.contains(x);
                        let (c2, j) = choose|c2: int, j: int|
                            0 <= c2 < c && 0 <= j < components@[c2].len() && #[trigger] components@[c2]@[j].cells@.contains(x);
                        assert(copy_listed(components@[c2]@[j], locals));
                        let k2 = choose|k2: int| 0 <= k2 < locals.len() && #[trigger] copy_of(components@[c2]@[j], locals[k2]);
                        let i = choose|i: int| 0 <= i < locals[k2].cells.len() && locals[k2].cells@[i] == x;
                        assert(locals[k2].cells@[i] == x);
                    }
                }
            }
            assert forall|m: usize|
                small && #[trigger] forced_count(locals, n as nat, m) && m < g.mines && m + g.cells@.to_set().difference(
                    constraint_cell_set(locals),
                ).len() == g.mines implies forall|x: usize|
                #[trigger] g.cells@.contains(x) && !constraint_cell_set(locals).contains(x) ==> deductions.mines@[x as int] by {
                assert(m == target);
                assert forall|x: usize|
                    #[trigger] g.cells@.contains(x) && !constraint_cell_set(locals).contains(x) implies deductions.mines@[x as int] by {
                    assert(!in_some_summary(summaries@, summaries.len() as int, x));
                }
            }
        }
    }
    Some(deductions)
}

/// The cells a solver works on: the layout, its neighbour counts, and the mine total.
pub struct SolverBoard<'a> {
    pub width: usize,
    pub height: usize,
    pub mines: &'a Vec<bool>,
    pub adjacent: &'a Vec<u8>,
    pub mine_total: usize,
}

impl<'a> SolverBoard<'a> {
    pub open spec fn n(&self) -> nat {
        self.width as nat * self.height as nat
    }

    pub open spec fn wf(&self) -> bool {
        &&& self.width > 0
        &&& self.height > 0
        &&& self.width * self.height <= usize::MAX
        &&& self.mines.len() == self.n()
        &&& self.adjacent.len() == self.n()
    }
}

/// What the solver has established so far.
pub struct Knowledge {
    pub known_safe: Vec<bool>,
    pub known_mines: Vec<bool>,
}

/// Knowledge about `board` that agrees with the true layout.
pub open spec fn knowledge_ok(board: &SolverBoard, know: &Knowledge) -> bool {
    &&& know.known_safe.len() == board.n()
    &&& know.known_mines.len() == board.n()
    &&& forall|i: int| 0 <= i < board.n() ==> #[trigger] know.known_safe@[i] ==> !board.mines@[i]
    &&& forall|i: int| 0 <= i < board.n() ==> #[trigger] know.known_mines@[i] ==> board.mines@[i]
}

/// The cells known to be neither safe nor a mine, one flag per cell.
pub open spec fn unknown_map(know: &Knowledge) -> Seq<bool> {
    Seq::new(
        know.known_safe@.len(),
        |i: int| !know.known_safe@[i] && !know.known_mines@[i],
    )
}

/// How many cells are still unknown.
pub open spec fn unknown_count(know: &Knowledge) -> nat {
    count_true(unknown_map(know))
}

/// The solver only learns: what it knew stays known.
pub open spec fn knowledge_grows(before: &Knowledge, after: &Knowledge) -> bool {
    &&& after.known_safe.len() == before.known_safe.len()
    &&& after.known_mines.len() == before.known_mines.len()
    &&& forall|i: int| 0 <= i < before.known_safe.len() && before.known_safe@[i] ==> #[trigger] after.known_safe@[i]
    &&& forall|i: int| 0 <= i < before.known_mines.len() && before.known_mines@[i] ==> #[trigger] after.known_mines@[i]
}

/// Learning that unknown cell `i` is safe leaves one unknown cell fewer.
proof fn lemma_learn_safe(know: &Knowledge, after: &Knowledge, i: int)
    requires
        know.known_safe.len() == know.known_mines.len(),
        0 <= i < know.known_safe.len(),
        !know.known_safe@[i],
        !know.known_mines@[i],
        after.known_safe@ == know.known_safe@.update(i, true),
        after.known_mines@ == know.known_mines@,
    ensures
        unknown_count(after) + 1 == unknown_count(know),
{
    lemma_count_true_clear(unknown_map(know), i);
    assert(unknown_map(after) =~= unknown_map(know).update(i, false));
}

/// Learning that unknown cell `i` is a mine leaves one unknown cell fewer.
proof fn lemma_learn_mine(know: &Knowledge, after: &Knowledge, i: int)
    requires
        know.known_safe.len() == know.known_mines.len(),
        0 <= i < know.known_safe.len(),
        !know.known_safe@[i],
        !know.known_mines@[i],
        after.known_mines@ == know.known_mines@.update(i, true),
        after.known_safe@ == know.known_safe@,
    ensures
        unknown_count(after) + 1 == unknown_count(know),
{
    lemma_count_true_clear(unknown_map(know), i);
    assert(unknown_map(after) =~= unknown_map(know).update(i, false));
}

/// Opens the safe area around `index` as the game would: the cell, and, through cells with
/// no neighbouring mine, their neighbours. Returns whether anything new became known.
fn reveal_known_area(board: &SolverBoard, know: &mut Knowledge, index: usize) -> (changed: bool)
    requires
        board.wf(),
        knowledge_ok(board, old(know)),
    ensures
        knowledge_ok(board, final(know)),
        knowledge_grows(old(know), final(know)),
        final(know).known_mines@ == old(know).known_mines@,
        unknown_count(final(know)) <= unknown_count(old(know)),
        changed ==> unknown_count(final(know)) < unknown_count(old(know)),
        changed == (index < board.n() && !board.mines@[index as int] && !old(know).known_safe@[index as int]),
        changed ==> final(know).known_safe@[index as int],
        !changed ==> *final(know) == *old(know),
        forall|x: usize|
            x < board.n() ==> (#[trigger] final(know).known_safe@[x as int] <==> (old(know).known_safe@[x as int]
                || in_opening(board, old(know), index, x))),
{
    let n = board.width * board.height;
    if index >= n || board.mines[index] || know.known_safe[index] {
        proof {
            assert forall|x: usize| x < board.n() implies !in_opening(board, old(know), index, x) by {
                if in_opening(board, old(know), index, x) {
                    let p = choose|p: Seq<usize>| #[trigger] opening_path(board, old(know), p) && p[0] == index && p.last() == x;
                    assert(p[0] < board.n() && !board.mines@[p[0] as int] && !old(know).known_safe@[p[0] as int]);
                }
            }
        }
        return false;
    }
    let mut changed = false;
    let mut queue: Vec<usize> = Vec::new();
    queue.push(index);
    proof {
        let p = seq![index];
        assert(opening_path(board, old(know), p));
        assert(p.last() == index);
    }
    let mut head: usize = 0;
    while head < queue.len()
        invariant
            board.wf(),
            n == board.n(),
            knowledge_ok(board, know),
            knowledge_grows(old(know), know),
            know.known_mines@ == old(know).known_mines@,
            forall|t: int| 0 <= t < queue.len() ==> (#[trigger] queue@[t]) < n,
            head <= queue.len(),
            unknown_count(know) <= unknown_count(old(know)),
            changed ==> unknown_count(know) < unknown_count(old(know)),
            queue.len() >= 1,
            queue@[0] == index,
            index < n,
            !board.mines@[index as int],
            !old(know).known_safe@[index as int],
            head == 0 ==> *know == *old(know) && !changed,
            head > 0 ==> changed && know.known_safe@[index as int],
            forall|x: int|
                0 <= x < n && #[trigger] know.known_safe@[x] && !old(know).known_safe@[x] ==> in_opening(
                    board,
                    old(know),
                    index,
                    x as usize,
                ),
            forall|t: int| head <= t < queue.len() ==> in_opening(board, old(know), index, #[trigger] queue@[t]),
            opening_closed(board, old(know), know, queue@, head as int),
        decreases unknown_count(know), queue.len() - head,
    {
        let next = queue[head];
        proof {
            assert(in_opening(board, old(know), index, queue@[head as int]));
            lemma_pending_advance(board, old(know), know, queue@, head as int);
        }
        head = head + 1;
        if !board.mines[next] && !know.known_safe[next] {
            let ghost before = *know;
            know.known_safe.set(next, true);
            proof {
                lemma_learn_safe(&before, know, next as int);
                lemma_closed_learn(board, old(know), &before, know, queue@, head as int, next);
            }
            changed = true;
            if board.adjacent[next] == 0 {
                let neighbors = grid_neighbor_list(board.width, board.height, next);
                let ghost path = choose|p: Seq<usize>| #[trigger] opening_path(board, old(know), p) && p[0] == index && p.last() == next;
                let mut k: usize = 0;
                while k < neighbors.len()
                    invariant
                        board.wf(),
                        n == board.n(),
                        k <= neighbors.len(),
                        know.known_safe.len() == n,
                        knowledge_ok(board, know),
                        forall|j: int| 0 <= j < neighbors.len() ==> (#[trigger] neighbors@[j]) < n,
                        forall|t: int| 0 <= t < queue.len() ==> (#[trigger] queue@[t]) < n,
                        head <= queue.len(),
                        queue.len() >= 1,
                        queue@[0] == index,
                        neighbors@ == neighbor_seq(board.width as int, board.height as int, next as int),
                        next < n,
                        board.adjacent@[next as int] == 0,
                        know.known_safe@[next as int],
                        opening_path(board, old(know), path),
                        path[0] == index,
                        path.last() == next,
                        forall|t: int| head <= t < queue.len() ==> in_opening(board, old(know), index, #[trigger] queue@[t]),
                        closed_except(board, old(know), know, queue@, head as int, next),
                        forall|j: int|
                            0 <= j < k ==> board.mines@[#[trigger] neighbors@[j] as int] || know.known_safe@[neighbors@[j] as int]
                                || pending(queue@, head as int, neighbors@[j]),
                        knowledge_grows(old(know), know),
                    decreases neighbors.len() - k,
                {
                    let neighbor = neighbors[k];
                    let ghost qb = queue@;
                    if !board.mines[neighbor] && !know.known_safe[neighbor] {
                        queue.push(neighbor);
                        proof {
                            let p2 = path.push(neighbor);
                            assert(neighbors@.contains(neighbor));
                            assert(opening_path(board, old(know), p2)) by {
                                assert forall|q: int| 0 <= q < p2.len() - 1 implies board.adjacent@[#[trigger] p2[q] as int] == 0
                                    && neighbor_seq(board.width as int, board.height as int, p2[q] as int).contains(p2[q + 1]) by {
                                    if q < path.len() - 1 {
                                        assert(p2[q] == path[q] && p2[q + 1] == path[q + 1]);
                                    } else {
                                        assert(p2[q] == next);
                                    }
                                }
                                assert forall|q: int| 0 <= q < p2.len() implies (#[trigger] p2[q]) < board.n()
                                    && !board.mines@[p2[q] as int] && !old(know).known_safe@[p2[q] as int] by {
                                    if q < path.len() {
                                        assert(p2[q] == path[q]);
                                    }
                                }
                            }
                            assert(p2[0] == index && p2.last() == neighbor);
                            assert(in_opening(board, old(know), index, neighbor));
                            assert(pending(queue@, head as int, neighbor)) by {
                                assert(queue@[queue.len() - 1] == neighbor);
                            }
                        }
                    }
                    proof {
                        lemma_pending_push_all(qb, queue@, head as int);
                        assert forall|t: int| head <= t < queue.len() implies in_opening(board, old(know), index, #[trigger] queue@[t]) by {
                            if t < qb.len() {
                                assert(queue@[t] == qb[t]);
                            }
                        }
                        lemma_closed_except_grow(board, old(know), know, qb, queue@, head as int, next);
                    }
                    k = k + 1;
                }
                proof {
                    lemma_closed_finish(board, old(know), know, queue@, head as int, next, neighbors@);
                }
            } else {
                proof {
                    lemma_closed_finish_nonzero(board, old(know), know, queue@, head as int, next);
                }
            }
        }
    }
    proof {
        assert forall|x: usize| x < board.n() implies (#[trigger] know.known_safe@[x as int] <==> (old(know).known_safe@[x as int]
            || in_opening(board, old(know), index, x))) by {
            if in_opening(board, old(know), index, x) {
                let p = choose|p: Seq<usize>| #[trigger] opening_path(board, old(know), p) && p[0] == index && p.last() == x;
                lemma_opening_reached(board, old(know), know, index, head as int, queue@, p, p.len() - 1);
            }
        }
    }
    changed
}

/// A chain of cells that opening `p[0]` on a fresh board reveals one after another: none a
/// mine, each but the last without a neighbouring mine, each next one its neighbour.
pub open spec fn opening_chain(w: int, h: int, mines: Seq<bool>, adjacent: Seq<u8>, p: Seq<usize>) -> bool {
    &&& p.len() > 0
    &&& forall|k: int| 0 <= k < p.len() ==> (#[trigger] p[k]) < w * h && !mines[p[k] as int]
    &&& forall|k: int|
        0 <= k < p.len() - 1 ==> adjacent[#[trigger] p[k] as int] == 0 && neighbor_seq(w, h, p[k] as int).contains(
            p[k + 1],
        )
}

/// Opening cell `first` on a fresh board already reveals every safe cell.
pub open spec fn clears_by_opening(w: int, h: int, mines: Seq<bool>, adjacent: Seq<u8>, first: int) -> bool {
    &&& 0 <= first < w * h
    &&& !mines[first]
    &&& forall|x: int|
        0 <= x < w * h && !mines[x] ==> exists|p: Seq<usize>|
            #[trigger] opening_chain(w, h, mines, adjacent, p) && p[0] == first && p.last() == x
}

/// A chain of cells that opening `p[0]` reveals one after another: none a mine or already
/// known safe, each but the last without a neighbouring mine, each next one its neighbour.
pub open spec fn opening_path(board: &SolverBoard, know: &Knowledge, p: Seq<usize>) -> bool {
    &&& p.len() > 0
    &&& forall|k: int|
        0 <= k < p.len() ==> (#[trigger] p[k]) < board.n() && !board.mines@[p[k] as int] && !know.known_safe@[p[k] as int]
    &&& forall|k: int|
        0 <= k < p.len() - 1 ==> board.adjacent@[#[trigger] p[k] as int] == 0 && neighbor_seq(
            board.width as int,
            board.height as int,
            p[k] as int,
        ).contains(p[k + 1])
}

/// Opening cell `index` also reveals cell `x`.
pub open spec fn in_opening(board: &SolverBoard, know: &Knowledge, index: usize, x: usize) -> bool {
    exists|p: Seq<usize>| #[trigger] opening_path(board, know, p) && p[0] == index && p.last() == x
}

/// Cell `x` waits in the queue from position `head` on.
spec fn pending(queue: Seq<usize>, head: int, x: usize) -> bool {
    exists|t: int| head <= t < queue.len() && #[trigger] queue[t] == x
}

/// Around every cell opened so far with no neighbouring mine, each neighbour is a mine, known
/// safe, or waiting in the queue.
spec fn opening_closed(board: &SolverBoard, start: &Knowledge, know: &Knowledge, queue: Seq<usize>, head: int) -> bool {
    forall|y: int, nb: usize|
        0 <= y < board.n() && #[trigger] know.known_safe@[y] && !start.known_safe@[y] && board.adjacent@[y] == 0
            && #[trigger] neighbor_seq(board.width as int, board.height as int, y).contains(nb) ==> board.mines@[nb as int]
            || know.known_safe@[nb as int] || pending(queue, head, nb)
}

/// As `opening_closed`, but for every opened cell other than `skip`.
spec fn closed_except(board: &SolverBoard, start: &Knowledge, know: &Knowledge, queue: Seq<usize>, head: int, skip: usize) -> bool {
    forall|y: int, nb: usize|
        0 <= y < board.n() && y != skip && #[trigger] know.known_safe@[y] && !start.known_safe@[y] && board.adjacent@[y] == 0
            && #[trigger] neighbor_seq(board.width as int, board.height as int, y).contains(nb) ==> board.mines@[nb as int]
            || know.known_safe@[nb as int] || pending(queue, head, nb)
}

/// Taking the head of the queue keeps the closure once the head cell is a mine or known.
proof fn lemma_pending_advance(board: &SolverBoard, start: &Knowledge, know: &Knowledge, queue: Seq<usize>, head: int)
    requires
        0 <= head < queue.len(),
    ensures
        forall|x: usize| pending(queue, head, x) && x != queue[head] ==> #[trigger] pending(queue, head + 1, x),
{
    assert forall|x: usize| pending(queue, head, x) && x != queue[head] implies #[trigger] pending(queue, head + 1, x) by {
        let t = choose|t: int| head <= t < queue.len() && #[trigger] queue[t] == x;
        assert(t != head);
    }
}

/// Marking the head cell keeps every other opened cell closed.
proof fn lemma_closed_learn(
    board: &SolverBoard,
    start: &Knowledge,
    before: &Knowledge,
    after: &Knowledge,
    queue: Seq<usize>,
    head: int,
    next: usize,
)
    requires
        1 <= head <= queue.len(),
        queue[head - 1] == next,
        opening_closed(board, start, before, queue, head - 1),
        after.known_safe@ == before.known_safe@.update(next as int, true),
        before.known_safe.len() == board.n(),
        next < board.n(),
    ensures
        closed_except(board, start, after, queue, head, next),
{
    assert forall|y: int, nb: usize|
        0 <= y < board.n() && y != next && #[trigger] after.known_safe@[y] && !start.known_safe@[y] && board.adjacent@[y] == 0
            && #[trigger] neighbor_seq(board.width as int, board.height as int, y).contains(nb) implies board.mines@[nb as int]
            || after.known_safe@[nb as int] || pending(queue, head, nb) by {
        assert(before.known_safe@[y]);
        lemma_neighbor_seq_bound(board.width as int, board.height as int, y);
        let j = choose|j: int| 0 <= j < neighbor_seq(board.width as int, board.height as int, y).len()
            && neighbor_seq(board.width as int, board.height as int, y)[j] == nb;
        assert(nb < board.n());
        if !board.mines@[nb as int] && !after.known_safe@[nb as int] {
            assert(nb != next);
            assert(!before.known_safe@[nb as int]);
            let t = choose|t: int| head - 1 <= t < queue.len() && #[trigger] queue[t] == nb;
            if t == head - 1 {
                assert(nb == next);
            }
        }
    }
}

/// A longer queue keeps everything pending that was pending.
proof fn lemma_pending_push_all(before: Seq<usize>, after: Seq<usize>, head: int)
    requires
        0 <= head,
        before.len() <= after.len(),
        forall|t: int| 0 <= t < before.len() ==> after[t] == before[t],
    ensures
        forall|x: usize| #[trigger] pending(before, head, x) ==> pending(after, head, x),
{
    assert forall|x: usize| #[trigger] pending(before, head, x) implies pending(after, head, x) by {
        assert(exists|t: int| head <= t < before.len() && #[trigger] before[t] == x);
        let t = choose|t: int| head <= t < before.len() && #[trigger] before[t] == x;
        assert(after[t] == before[t]);
        assert(head <= t < after.len() && after[t] == x);
    }
}

/// Pushing onto the queue keeps the closure of the other opened cells.
proof fn lemma_closed_except_grow(
    board: &SolverBoard,
    start: &Knowledge,
    know: &Knowledge,
    before: Seq<usize>,
    after: Seq<usize>,
    head: int,
    skip: usize,
)
    requires
        closed_except(board, start, know, before, head, skip),
        forall|x: usize| #[trigger] pending(before, head, x) ==> pending(after, head, x),
    ensures
        closed_except(board, start, know, after, head, skip),
{
}

/// Once every neighbour of the newly opened cell is handled, the closure holds again.
proof fn lemma_closed_finish(
    board: &SolverBoard,
    start: &Knowledge,
    know: &Knowledge,
    queue: Seq<usize>,
    head: int,
    next: usize,
    neighbors: Seq<usize>,
)
    requires
        closed_except(board, start, know, queue, head, next),
        neighbors == neighbor_seq(board.width as int, board.height as int, next as int),
        forall|j: int|
            0 <= j < neighbors.len() ==> board.mines@[#[trigger] neighbors[j] as int] || know.known_safe@[neighbors[j] as int]
                || pending(queue, head, neighbors[j]),
    ensures
        opening_closed(board, start, know, queue, head),
{
    assert forall|y: int, nb: usize|
        0 <= y < board.n() && #[trigger] know.known_safe@[y] && !start.known_safe@[y] && board.adjacent@[y] == 0
            && #[trigger] neighbor_seq(board.width as int, board.height as int, y).contains(nb) implies board.mines@[nb as int]
            || know.known_safe@[nb as int] || pending(queue, head, nb) by {
        if y == next as int {
            let j = choose|j: int| 0 <= j < neighbors.len() && neighbors[j] == nb;
            assert(board.mines@[neighbors[j] as int] || know.known_safe@[neighbors[j] as int] || pending(queue, head, neighbors[j]));
        }
    }
}

/// A newly opened cell with a neighbouring mine needs nothing queued.
proof fn lemma_closed_finish_nonzero(
    board: &SolverBoard,
    start: &Knowledge,
    know: &Knowledge,
    queue: Seq<usize>,
    head: int,
    next: usize,
)
    requires
        closed_except(board, start, know, queue, head, next),
        next < board.n(),
        board.adjacent@[next as int] != 0,
    ensures
        opening_closed(board, start, know, queue, head),
{
}

/// Every cell on an opening path from a cell that was opened ends up known safe, once the
/// queue is used up.
proof fn lemma_opening_reached(
    board: &SolverBoard,
    start: &Knowledge,
    know: &Knowledge,
    index: usize,
    head: int,
    queue: Seq<usize>,
    p: Seq<usize>,
    k: int,
)
    requires
        opening_path(board, start, p),
        p[0] == index,
        know.known_safe@[index as int],
        head == queue.len(),
        opening_closed(board, start, know, queue, head),
        0 <= k < p.len(),
    ensures
        know.known_safe@[p[k] as int],
    decreases k,
{
    if k > 0 {
        lemma_opening_reached(board, start, know, index, head, queue, p, k - 1);
        let y = p[k - 1];
        assert(y < board.n() && !start.known_safe@[y as int]);
        assert(board.adjacent@[p[k - 1] as int] == 0);
        assert(neighbor_seq(board.width as int, board.height as int, y as int).contains(p[k]));
        assert(!pending(queue, head, p[k]));
        assert(!board.mines@[p[k] as int]);
    }
}

/// Whether every safe cell is known.
fn all_safe_cells_known(board: &SolverBoard, know: &Knowledge) -> (b: bool)
    requires
        board.wf(),
        knowledge_ok(board, know),
    ensures
        b == forall|i: int| 0 <= i < board.n() ==> board.mines@[i] || #[trigger] know.known_safe@[i],
{
    let n = board.width * board.height;
    let mut i: usize = 0;
    while i < n
        invariant
            board.wf(),
            n == board.n(),
            knowledge_ok(board, know),
            i <= n,
            forall|k: int| 0 <= k < i ==> board.mines@[k] || #[trigger] know.known_safe@[k],
        decreases n - i,
    {
        if !board.mines[i] && !know.known_safe[i] {
            return false;
        }
        i = i + 1;
    }
    true
}

/// One constraint per known safe cell with a mine beside it: its unknown neighbours hold the
/// mines not yet accounted for. Fails when the knowledge contradicts a count.
fn local_constraints(board: &SolverBoard, know: &Knowledge) -> (cs: Option<Vec<Constraint>>)
    requires
        board.wf(),
        knowledge_ok(board, know),
    ensures
        cs matches Some(v) ==> constraints_ok(v@, board.n()),
        cs is None <==> exists|i: int| 0 <= i < board.n() && #[trigger] local_fails(board, know, i),
        cs matches Some(v) ==> forall|layout: Seq<bool>| #[trigger] consistent(board, know, layout) ==> meets_all(layout, v@),
        cs matches Some(v) ==> forall|k: int, x: usize|
            0 <= k < v.len() && #[trigger] v@[k].cells@.contains(x) ==> x < board.n() && unknown_map(know)[x as int],
        cs matches Some(v) ==> forall|i: int|
            0 <= i < board.n() && #[trigger] numbered(board, know, i) && shown_cells(board, know, i).len() > 0
                ==> shown_in(v@, board, know, i),
        cs matches Some(v) ==> forall|k: int, x: usize|
            0 <= k < v.len() && #[trigger] v@[k].cells@.contains(x) ==> number_frontier(board, know).contains(x),
{
    let n = board.width * board.height;
    let mut constraints: Vec<Constraint> = Vec::new();
    let mut index: usize = 0;
    while index < n
        invariant
            board.wf(),
            n == board.n(),
            knowledge_ok(board, know),
            index <= n,
            constraints_ok(constraints@, n as nat),
            forall|j: int| 0 <= j < index ==> !#[trigger] local_fails(board, know, j),
            forall|layout: Seq<bool>| #[trigger] consistent(board, know, layout) ==> meets_all(layout, constraints@),
            forall|k: int, x: usize|
                0 <= k < constraints.len() && #[trigger] constraints@[k].cells@.contains(x) ==> x < n && unknown_map(
                    know,
                )[x as int],
            forall|i: int|
                0 <= i < index && #[trigger] numbered(board, know, i) && shown_cells(board, know, i).len() > 0
                    ==> shown_in(constraints@, board, know, i),
            forall|k: int, x: usize|
                0 <= k < constraints.len() && #[trigger] constraints@[k].cells@.contains(x) ==> number_frontier(board, know).contains(x),
        decreases n - index,
    {
        if know.known_safe[index] && board.adjacent[index] != 0 {
            let neighbors = grid_neighbor_list(board.width, board.height, index);
            let ghost nb = neighbors@;
            let mut unknown_neighbors: Vec<usize> = Vec::new();
            let mut known_neighbor_mines: usize = 0;
            let mut k: usize = 0;
            while k < neighbors.len()
                invariant
                    board.wf(),
                    n == board.n(),
                    knowledge_ok(board, know),
                    k <= neighbors.len(),
                    known_neighbor_mines <= k,
                    forall|j: int| 0 <= j < neighbors.len() ==> (#[trigger] neighbors@[j]) < n,
                    strictly_sorted(unknown_neighbors@),
                    forall|j: int| 0 <= j < unknown_neighbors.len() ==> (#[trigger] unknown_neighbors@[j]) < n,
                    nb == neighbors@,
                    known_neighbor_mines == known_mine_entries(know.known_mines@, nb.take(k as int)),
                    unknown_neighbors@.to_set() == unknown_entries(know, nb.take(k as int)),
                decreases neighbors.len() - k,
            {
                let neighbor = neighbors[k];
                proof {
                    assert(nb.take(k + 1).drop_last() == nb.take(k as int));
                    assert(nb.take(k + 1).last() == neighbor);
                    assert(unknown_entries(know, nb.take(k + 1)) =~= if !know.known_safe@[neighbor as int]
                        && !know.known_mines@[neighbor as int] {
                        unknown_entries(know, nb.take(k as int)).insert(neighbor)
                    } else {
                        unknown_entries(know, nb.take(k as int))
                    }) by {
                        assert forall|y: usize| nb.take(k + 1).contains(y) <==> (nb.take(k as int).contains(y) || y == neighbor) by {
                            if nb.take(k + 1).contains(y) {
                                let j = choose|j: int| 0 <= j < k + 1 && #[trigger] nb.take(k + 1)[j] == y;
                                if j < k {
                                    assert(nb.take(k as int)[j] == y);
                                }
                            }
                            if nb.take(k as int).contains(y) {
                                let j = choose|j: int| 0 <= j < k && #[trigger] nb.take(k as int)[j] == y;
                                assert(nb.take(k + 1)[j] == y);
                            }
                            if y == neighbor {
                                assert(nb.take(k + 1)[k as int] == y);
                            }
                        }
                    }
                }
                let ghost before_unknown = unknown_neighbors@;
                if know.known_mines[neighbor] {
                    known_neighbor_mines = known_neighbor_mines + 1;
                } else if !know.known_safe[neighbor] {
                    let ghost before = unknown_neighbors@;
                    insert_sorted(&mut unknown_neighbors, neighbor);
                    proof {
                        assert(unknown_neighbors@.to_set() =~= before_unknown.to_set().insert(neighbor));
                        assert forall|j: int| 0 <= j < unknown_neighbors.len() implies (#[trigger] unknown_neighbors@[j]) < n by {
                            assert(unknown_neighbors@.contains(unknown_neighbors@[j]));
                            if unknown_neighbors@[j] != neighbor {
                                assert(before.contains(unknown_neighbors@[j]));
                                let i = choose|i: int| 0 <= i < before.len() && before[i] == unknown_neighbors@[j];
                            }
                        }
                    }
                }
                k = k + 1;
            }
            proof {
                assert(nb.take(nb.len() as int) == nb);
                lemma_sorted_no_duplicates(unknown_neighbors@);
                unknown_neighbors@.unique_seq_to_set();
            }
            let adjacent_mines = board.adjacent[index] as usize;
            if known_neighbor_mines > adjacent_mines {
                proof {
                    assert(local_fails(board, know, index as int));
                }
                return None;
            }
            let remaining_mines = adjacent_mines - known_neighbor_mines;
            if remaining_mines > unknown_neighbors.len() {
                proof {
                    assert(local_fails(board, know, index as int));
                }
                return None;
            }
            proof {
                assert(!local_fails(board, know, index as int));
            }
            let constraint = Constraint { cells: unknown_neighbors, mines: remaining_mines };
            proof {
                assert(constraint_ok(&constraint, n as nat));
                lemma_neighbor_seq_sorted(board.width as int, board.height as int, index as int);
                lemma_sorted_no_duplicates(nb);
                assert forall|layout: Seq<bool>| #[trigger] consistent(board, know, layout) implies meets(
                    layout,
                    &constraint,
                ) by {
                    assert forall|k: int| 0 <= k < nb.len() implies (know.known_mines@[#[trigger] nb[k] as int]
                        ==> layout[nb[k] as int]) && (know.known_safe@[nb[k] as int] ==> !layout[nb[k] as int]) by {
                        assert(nb[k] < n);
                    }
                    lemma_neighbours_split(know, layout, nb);
                    assert(know.known_safe@[index as int]);
                    let f = |x: usize| x < layout.len() && layout[x as int];
                    assert(mines_among(layout, constraint.cells@) =~= unknown_entries(know, nb).filter(f));
                }
                assert forall|x: usize| #[trigger] constraint.cells@.contains(x) implies x < n && unknown_map(know)[x as int] by {
                    assert(constraint.cells@.to_set().contains(x));
                    assert(unknown_entries(know, nb).contains(x));
                    let k = choose|k: int| 0 <= k < nb.len() && nb[k] == x;
                    assert(nb[k] < n);
                }
            }
            let ghost cb = constraints@;
            push_constraint(&mut constraints, constraint);
            proof {
                assert forall|layout: Seq<bool>| #[trigger] consistent(board, know, layout) implies meets_all(
                    layout,
                    constraints@,
                ) by {
                    assert(meets_all(layout, cb));
                    assert(meets(layout, &constraint));
                    if constraints@ != cb {
                        assert forall|k: int| 0 <= k < constraints.len() implies meets(layout, &#[trigger] constraints@[k]) by {
                            if k < cb.len() {
                                assert(constraints@[k] == cb[k]);
                            }
                        }
                    }
                }
                assert forall|k: int, x: usize|
                    0 <= k < constraints.len() && #[trigger] constraints@[k].cells@.contains(x) implies x < n && unknown_map(
                        know,
                    )[x as int] by {
                    if k < cb.len() {
                        assert(constraints@[k] == cb[k]);
                    } else {
                        assert(constraints@[k] == constraint);
                    }
                }
                assert(shows(constraint, board, know, index as int));
                assert forall|k: int, x: usize|
                    0 <= k < constraints.len() && #[trigger] constraints@[k].cells@.contains(x) implies number_frontier(
                        board,
                        know,
                    ).contains(x) by {
                    if k < cb.len() {
                        assert(constraints@[k] == cb[k]);
                    } else {
                        assert(constraints@[k] == constraint);
                        assert(constraint.cells@.to_set().contains(x));
                        assert(shown_cells(board, know, index as int).contains(x));
                    }
                }
                assert forall|i: int|
                    0 <= i < index + 1 && #[trigger] numbered(board, know, i) && shown_cells(board, know, i).len() > 0
                        implies shown_in(constraints@, board, know, i) by {
                    if i < index {
                        let k = choose|k: int| 0 <= k < cb.len() && #[trigger] shows(cb[k], board, know, i);
                        if constraints@ != cb {
                            assert(constraints@[k] == cb[k]);
                        }
                        assert(shows(constraints@[k], board, know, i));
                    } else if constraints@ == cb {
                        if constraint.cells.len() == 0 {
                            assert(constraint.cells@.to_set() =~= Set::<usize>::empty());
                        } else {
                            assert(listed(cb, &constraint));
                            let k = choose|k: int| 0 <= k < cb.len() && (#[trigger] cb[k]).cells@ == constraint.cells@ && cb[k].mines == constraint.mines;
                            assert(shows(constraints@[k], board, know, i));
                        }
                    } else {
                        assert(shows(constraints@[cb.len() as int], board, know, i));
                    }
                }
            }
        }
        index = index + 1;
    }
    proof {
        assert forall|i: int|
            0 <= i < board.n() && #[trigger] numbered(board, know, i) && shown_cells(board, know, i).len() > 0
                implies shown_in(constraints@, board, know, i) by {
            assert(i < index);
        }
    }
    Some(constraints)
}


/// How many entries of the list are known mines.
pub open spec fn known_mine_entries(known_mines: Seq<bool>, nb: Seq<usize>) -> nat
    decreases nb.len(),
{
    if nb.len() == 0 {
        0
    } else {
        known_mine_entries(known_mines, nb.drop_last()) + if known_mines[nb.last() as int] {
            1nat
        } else {
            0nat
        }
    }
}

/// The listed cells that are neither known safe nor known mines.
pub open spec fn unknown_entries(know: &Knowledge, nb: Seq<usize>) -> Set<usize> {
    nb.to_set().filter(|x: usize| !know.known_safe@[x as int] && !know.known_mines@[x as int])
}

/// The number on known safe cell `i` contradicts what is known around it: more known mines
/// than it shows, or more mines left than unknown neighbours.
pub open spec fn local_fails(board: &SolverBoard, know: &Knowledge, i: int) -> bool {
    let nb = neighbor_seq(board.width as int, board.height as int, i);
    let found = known_mine_entries(know.known_mines@, nb);
    let shown = board.adjacent@[i] as nat;
    &&& know.known_safe@[i]
    &&& board.adjacent@[i] != 0
    &&& (found > shown || shown - found > unknown_entries(know, nb).len())
}

/// The unknown neighbours of cell `i`.
pub open spec fn shown_cells(board: &SolverBoard, know: &Knowledge, i: int) -> Set<usize> {
    unknown_entries(know, neighbor_seq(board.width as int, board.height as int, i))
}

/// The mines among the unknown neighbours of cell `i`, by its number: what it shows less the
/// known mines around it.
pub open spec fn shown_mines(board: &SolverBoard, know: &Knowledge, i: int) -> int {
    board.adjacent@[i] - known_mine_entries(know.known_mines@, neighbor_seq(board.width as int, board.height as int, i))
}

/// Cell `i` is known safe and shows a number other than 0.
pub open spec fn numbered(board: &SolverBoard, know: &Knowledge, i: int) -> bool {
    know.known_safe@[i] && board.adjacent@[i] != 0
}

/// `c` is the constraint the number on cell `i` puts on its unknown neighbours.
pub open spec fn shows(c: Constraint, board: &SolverBoard, know: &Knowledge, i: int) -> bool {
    c.cells@.to_set() == shown_cells(board, know, i) && c.mines == shown_mines(board, know, i)
}

/// Some constraint of `cs` is the one the number on cell `i` shows.
pub open spec fn shown_in(cs: Seq<Constraint>, board: &SolverBoard, know: &Knowledge, i: int) -> bool {
    exists|k: int| 0 <= k < cs.len() && #[trigger] shows(cs[k], board, know, i)
}

/// The unknown cells next to a shown number: the cells the numbers speak of.
pub open spec fn number_frontier(board: &SolverBoard, know: &Knowledge) -> Set<usize> {
    Set::new(
        |x: usize|
            exists|s: int| 0 <= s < board.n() && numbered(board, know, s) && #[trigger] shown_cells(board, know, s).contains(x),
    )
}

/// `layout` puts around every shown number the mines it still lacks.
pub open spec fn meets_numbers(board: &SolverBoard, know: &Knowledge, layout: Seq<bool>) -> bool {
    forall|s: int|
        0 <= s < board.n() && #[trigger] numbered(board, know, s) && shown_cells(board, know, s).len() > 0 ==> mines_in(
            layout,
            shown_cells(board, know, s),
        ).len() == shown_mines(board, know, s)
}

/// The numbers alone fix how many mines lie on the cells they speak of, which are few enough
/// to enumerate, and that count leaves the other unknown cells either no mine or nothing
/// but mines: every layout meeting the numbers puts the same `f` mines on those cells, and
/// `f` is all the mines not yet found, or all of them but one per other unknown cell.
pub open spec fn frontier_forced(board: &SolverBoard, know: &Knowledge) -> bool {
    &&& number_frontier(board, know).len() <= SMALL_COMPONENT_CELLS
    &&& exists|f: usize|
        {
            &&& #[trigger] numbers_fix_count(board, know, f)
            &&& (f == source_mines(board, know, board.n() as int) || f + unknown_set(board, know).difference(
                number_frontier(board, know),
            ).len() == source_mines(board, know, board.n() as int))
        }
}

/// Every layout meeting the numbers puts exactly `f` mines on the cells they speak of.
pub open spec fn numbers_fix_count(board: &SolverBoard, know: &Knowledge, f: usize) -> bool {
    forall|layout: Seq<bool>|
        layout.len() == board.n() && #[trigger] meets_numbers(board, know, layout) ==> mines_in(
            layout,
            number_frontier(board, know),
        ).len() == f
}

/// Cell `x` is safe in every layout of the board's cells that meets the shown numbers.
pub open spec fn numbers_force_safe(board: &SolverBoard, know: &Knowledge, x: int) -> bool {
    forall|layout: Seq<bool>| layout.len() == board.n() && #[trigger] meets_numbers(board, know, layout) ==> !layout[x]
}

/// Cell `x` is a mine in every layout of the board's cells that meets the shown numbers.
pub open spec fn numbers_force_mine(board: &SolverBoard, know: &Knowledge, x: int) -> bool {
    forall|layout: Seq<bool>| layout.len() == board.n() && #[trigger] meets_numbers(board, know, layout) ==> layout[x]
}

/// The constraint of the total: the unknown cells hold the mines not yet found. Fails when
/// the knowledge contradicts the total.
fn global_constraint(board: &SolverBoard, know: &Knowledge) -> (c: Option<Constraint>)
    requires
        board.wf(),
        knowledge_ok(board, know),
    ensures
        c matches Some(cc) ==> constraint_ok(&cc, board.n()),
        c is None <==> (count_true(know.known_mines@) > board.mine_total || board.mine_total - count_true(
            know.known_mines@,
        ) > unknown_count(know)),
        c matches Some(cc) ==> cc.mines == board.mine_total - count_true(know.known_mines@),
        c matches Some(cc) ==> forall|x: usize| #[trigger] cc.cells@.contains(x) <==> (x < board.n()
            && unknown_map(know)[x as int]),
{
    let n = board.width * board.height;
    let ghost unknown = unknown_map(know);
    let mut known_mine_count: usize = 0;
    let mut unknown_cells: Vec<usize> = Vec::new();
    let mut i: usize = 0;
    while i < n
        invariant
            board.wf(),
            n == board.n(),
            knowledge_ok(board, know),
            unknown == unknown_map(know),
            i <= n,
            known_mine_count <= i,
            strictly_sorted(unknown_cells@),
            forall|k: int| 0 <= k < unknown_cells.len() ==> (#[trigger] unknown_cells@[k]) < i,
            known_mine_count == count_true(know.known_mines@.take(i as int)),
            unknown_cells.len() == count_true(unknown.take(i as int)),
            forall|x: usize| #[trigger] unknown_cells@.contains(x) <==> (x < i && unknown[x as int]),
        decreases n - i,
    {
        proof {
            assert(know.known_mines@.take(i + 1).drop_last() == know.known_mines@.take(i as int));
            assert(unknown.take(i + 1).drop_last() == unknown.take(i as int));
        }
        let ghost before = unknown_cells@;
        if know.known_mines[i] {
            known_mine_count = known_mine_count + 1;
        } else if !know.known_safe[i] {
            unknown_cells.push(i);
        }
        proof {
            assert forall|x: usize| #[trigger] unknown_cells@.contains(x) <==> (x < i + 1 && unknown[x as int]) by {
                if unknown_cells@.contains(x) && x != i {
                    let j = choose|j: int| 0 <= j < unknown_cells.len() && #[trigger] unknown_cells@[j] == x;
                    assert(before[j] == x);
                    assert(before.contains(x));
                }
                if x < i && unknown[x as int] {
                    assert(before.contains(x));
                    let j = choose|j: int| 0 <= j < before.len() && #[trigger] before[j] == x;
                    assert(unknown_cells@[j] == x);
                }
                if x == i && unknown[x as int] {
                    assert(unknown_cells@[unknown_cells.len() - 1] == x);
                }
                if x == i && unknown_cells@.contains(x) {
                    if !unknown[x as int] {
                        let j = choose|j: int| 0 <= j < unknown_cells.len() && #[trigger] unknown_cells@[j] == x;
                        assert(before[j] == x);
                        assert(before[j] < i);
                    }
                }
            }
        }
        i = i + 1;
    }
    proof {
        assert(know.known_mines@.take(i as int) == know.known_mines@);
        assert(unknown.take(i as int) == unknown);
    }
    if known_mine_count > board.mine_total {
        return None;
    }
    let remaining_mines = board.mine_total - known_mine_count;
    if remaining_mines > unknown_cells.len() {
        return None;
    }
    Some(Constraint { cells: unknown_cells, mines: remaining_mines })
}

/// Applies deductions after checking them against the layout: fails if one would mark a
/// safe cell as a mine, a mine as safe, or a cell as both. Returns whether anything new
/// became known.
fn apply_deductions(board: &SolverBoard, know: &mut Knowledge, deductions: &Deductions) -> (r: Option<bool>)
    requires
        board.wf(),
        knowledge_ok(board, old(know)),
        deductions_ok(deductions, board.n()),
    ensures
        knowledge_ok(board, final(know)),
        knowledge_grows(old(know), final(know)),
        unknown_count(final(know)) <= unknown_count(old(know)),
        r == Some(true) ==> unknown_count(final(know)) < unknown_count(old(know)),
        r is None <==> exists|i: int| 0 <= i < board.n() && #[trigger] deduction_wrong(board, old(know), deductions, i),
        r is None ==> *final(know) == *old(know),
        r matches Some(p) ==> (p <==> unknown_count(final(know)) < unknown_count(old(know))),
        r is Some ==> forall|i: int| 0 <= i < board.n() && #[trigger] deductions.mines@[i] ==> final(know).known_mines@[i],
        r is Some ==> forall|i: int| 0 <= i < board.n() && #[trigger] deductions.safe@[i] ==> final(know).known_safe@[i],
        r is Some && deductions_determined(board, old(know), deductions) ==> reaches(board, *old(know), *final(know)),
{
    let n = board.width * board.height;
    let mut i: usize = 0;
    while i < n
        invariant
            board.wf(),
            n == board.n(),
            knowledge_ok(board, know),
            *know == *old(know),
            deductions_ok(deductions, n as nat),
            i <= n,
            forall|k: int| 0 <= k < i ==> !#[trigger] deduction_wrong(board, old(know), deductions, k),
        decreases n - i,
    {
        if deductions.safe[i] && (deductions.mines[i] || board.mines[i]) {
            proof {
                assert(deduction_wrong(board, old(know), deductions, i as int));
            }
            return None;
        }
        if deductions.mines[i] && (know.known_safe[i] || !board.mines[i]) {
            proof {
                assert(deduction_wrong(board, old(know), deductions, i as int));
            }
            return None;
        }
        i = i + 1;
    }
    let mut progress = false;
    proof {
        lemma_reaches_refl(board, *know);
    }
    let mut i: usize = 0;
    while i < n
        invariant
            board.wf(),
            n == board.n(),
            knowledge_ok(board, know),
            knowledge_grows(old(know), know),
            deductions_determined(board, old(know), deductions) ==> reaches(board, *old(know), *know),
            know.known_safe@ == old(know).known_safe@,
            deductions_ok(deductions, n as nat),
            i <= n,
            unknown_count(know) <= unknown_count(old(know)),
            progress ==> unknown_count(know) < unknown_count(old(know)),
            !progress ==> *know == *old(know),
            forall|k: int| 0 <= k < n ==> !#[trigger] deduction_wrong(board, old(know), deductions, k),
            forall|k: int| 0 <= k < i && #[trigger] deductions.mines@[k] ==> know.known_mines@[k],
        decreases n - i,
    {
        if deductions.mines[i] && !know.known_mines[i] {
            let ghost before = *know;
            proof {
                assert(!deduction_wrong(board, old(know), deductions, i as int));
            }
            know.known_mines.set(i, true);
            proof {
                lemma_learn_mine(&before, know, i as int);
                if deductions_determined(board, old(know), deductions) {
                    lemma_determined_grow(board, old(know), &before, i as int);
                    assert(determined_mine(board, &before, i as int));
                    assert(logical_step(board, &before, know));
                    lemma_reaches_step(board, *old(know), before, *know);
                }
            }
            progress = true;
        }
        i = i + 1;
    }
    let mut i: usize = 0;
    while i < n
        invariant
            board.wf(),
            n == board.n(),
            knowledge_ok(board, know),
            knowledge_grows(old(know), know),
            deductions_determined(board, old(know), deductions) ==> reaches(board, *old(know), *know),
            deductions_ok(deductions, n as nat),
            i <= n,
            unknown_count(know) <= unknown_count(old(know)),
            progress ==> unknown_count(know) < unknown_count(old(know)),
            !progress ==> *know == *old(know),
            forall|k: int| 0 <= k < n ==> !#[trigger] deduction_wrong(board, old(know), deductions, k),
            forall|k: int| 0 <= k < n && #[trigger] deductions.mines@[k] ==> know.known_mines@[k],
            forall|k: int| 0 <= k < i && #[trigger] deductions.safe@[k] ==> know.known_safe@[k],
        decreases n - i,
    {
        if deductions.safe[i] {
            proof {
                assert(!deduction_wrong(board, old(know), deductions, i as int));
            }
            let ghost before = *know;
            if reveal_known_area(board, know, i) {
                progress = true;
                proof {
                    if deductions_determined(board, old(know), deductions) {
                        lemma_determined_grow(board, old(know), &before, i as int);
                        assert(determined_safe(board, &before, (i as usize) as int));
                        assert(logical_step(board, &before, know));
                        lemma_reaches_step(board, *old(know), before, *know);
                    }
                }
            }
        }
        i = i + 1;
    }
    Some(progress)
}

/// `layout` could be the board's layout as far as a player knowing `know` can tell: it has
/// the board's mine total, a mine on each known mine, and no mine on a known safe cell, whose
/// shown number it matches.
pub open spec fn consistent(board: &SolverBoard, know: &Knowledge, layout: Seq<bool>) -> bool {
    &&& layout.len() == board.n()
    &&& count_true(layout) == board.mine_total
    &&& forall|i: int| 0 <= i < board.n() && #[trigger] know.known_mines@[i] ==> layout[i]
    &&& forall|i: int|
        0 <= i < board.n() && #[trigger] know.known_safe@[i] ==> !layout[i] && mines_among(
            layout,
            neighbor_seq(board.width as int, board.height as int, i),
        ).len() == board.adjacent@[i]
}

/// On a board whose counts (on its safe cells) are those of its layout, the layout itself is
/// consistent with any knowledge that agrees with it, so whatever holds in every consistent
/// layout holds on the board.
pub proof fn lemma_board_layout_consistent(board: &SolverBoard, know: &Knowledge)
    requires
        board.wf(),
        knowledge_ok(board, know),
        board.mine_total == count_true(board.mines@),
        forall|i: int|
            0 <= i < board.n() && !board.mines@[i] ==> #[trigger] board.adjacent@[i] == mines_among(
                board.mines@,
                neighbor_seq(board.width as int, board.height as int, i),
            ).len(),
    ensures
        consistent(board, know, board.mines@),
        forall|x: int| 0 <= x < board.n() && #[trigger] determined_safe(board, know, x) ==> !board.mines@[x],
        forall|x: int| 0 <= x < board.n() && #[trigger] determined_mine(board, know, x) ==> board.mines@[x],
{
}

/// Cell `x` is safe in every layout consistent with `know`.
pub open spec fn determined_safe(board: &SolverBoard, know: &Knowledge, x: int) -> bool {
    forall|layout: Seq<bool>| #[trigger] consistent(board, know, layout) ==> !layout[x]
}

/// Cell `x` is a mine in every layout consistent with `know`.
pub open spec fn determined_mine(board: &SolverBoard, know: &Knowledge, x: int) -> bool {
    forall|layout: Seq<bool>| #[trigger] consistent(board, know, layout) ==> layout[x]
}

/// One move of a player who never guesses: open a cell that is safe in every consistent
/// layout (the game opens the area around it), or mark a cell that is a mine in every one.
pub open spec fn logical_step(board: &SolverBoard, a: &Knowledge, b: &Knowledge) -> bool {
    &&& a.known_safe.len() == board.n() && a.known_mines.len() == board.n()
    &&& b.known_safe.len() == board.n() && b.known_mines.len() == board.n()
    &&& {
        ||| exists|x: usize|
            {
                &&& x < board.n()
                &&& !a.known_safe@[x as int]
                &&& #[trigger] determined_safe(board, a, x as int)
                &&& b.known_mines@ == a.known_mines@
                &&& forall|y: usize|
                    y < board.n() ==> (#[trigger] b.known_safe@[y as int] <==> (a.known_safe@[y as int] || in_opening(
                        board,
                        a,
                        x,
                        y,
                    )))
            }
        ||| exists|x: usize|
            {
                &&& x < board.n()
                &&& #[trigger] determined_mine(board, a, x as int)
                &&& b.known_safe@ == a.known_safe@
                &&& b.known_mines@ == a.known_mines@.update(x as int, true)
            }
    }
}

/// Some run of moves without guessing leads from `a` to `b`.
pub open spec fn reaches(board: &SolverBoard, a: Knowledge, b: Knowledge) -> bool {
    exists|chain: Seq<Knowledge>|
        {
            &&& chain.len() >= 1
            &&& chain[0] == a
            &&& chain.last() == b
            &&& forall|i: int| 0 <= i < chain.len() - 1 ==> #[trigger] logical_step(board, &chain[i], &chain[i + 1])
        }
}

proof fn lemma_reaches_refl(board: &SolverBoard, a: Knowledge)
    ensures
        reaches(board, a, a),
{
    let chain = seq![a];
    assert(chain.last() == a);
}

proof fn lemma_reaches_step(board: &SolverBoard, a: Knowledge, b: Knowledge, c: Knowledge)
    requires
        reaches(board, a, b),
        logical_step(board, &b, &c),
    ensures
        reaches(board, a, c),
{
    let chain = choose|chain: Seq<Knowledge>|
        {
            &&& chain.len() >= 1
            &&& chain[0] == a
            &&& chain.last() == b
            &&& forall|i: int| 0 <= i < chain.len() - 1 ==> #[trigger] logical_step(board, &chain[i], &chain[i + 1])
        };
    let ext = chain.push(c);
    assert forall|i: int| 0 <= i < ext.len() - 1 implies #[trigger] logical_step(board, &ext[i], &ext[i + 1]) by {
        if i < chain.len() - 1 {
            assert(ext[i] == chain[i] && ext[i + 1] == chain[i + 1]);
        } else {
            assert(ext[i] == b && ext[i + 1] == c);
        }
    }
    assert(ext[0] == a);
    assert(ext.last() == c);
}

proof fn lemma_reaches_trans(board: &SolverBoard, a: Knowledge, b: Knowledge, c: Knowledge)
    requires
        reaches(board, a, b),
        reaches(board, b, c),
    ensures
        reaches(board, a, c),
{
    let c1 = choose|chain: Seq<Knowledge>|
        {
            &&& chain.len() >= 1
            &&& chain[0] == a
            &&& chain.last() == b
            &&& forall|i: int| 0 <= i < chain.len() - 1 ==> #[trigger] logical_step(board, &chain[i], &chain[i + 1])
        };
    let c2 = choose|chain: Seq<Knowledge>|
        {
            &&& chain.len() >= 1
            &&& chain[0] == b
            &&& chain.last() == c
            &&& forall|i: int| 0 <= i < chain.len() - 1 ==> #[trigger] logical_step(board, &chain[i], &chain[i + 1])
        };
    let ext = c1 + c2.skip(1);
    assert forall|i: int| 0 <= i < ext.len() - 1 implies #[trigger] logical_step(board, &ext[i], &ext[i + 1]) by {
        if i < c1.len() - 1 {
            assert(ext[i] == c1[i] && ext[i + 1] == c1[i + 1]);
        } else if i == c1.len() - 1 {
            assert(ext[i] == b);
            assert(ext[i + 1] == c2[1]);
            assert(c2[0] == b);
            assert(logical_step(board, &c2[0], &c2[1]));
        } else {
            let j = i - c1.len() + 1;
            assert(ext[i] == c2[j] && ext[i + 1] == c2[j + 1]);
        }
    }
    assert(ext[0] == a);
    if c2.len() == 1 {
        assert(ext =~= c1);
    } else {
        assert(ext.last() == c2.last());
    }
}

/// What is determined stays determined as more becomes known.
proof fn lemma_consistent_shrinks(board: &SolverBoard, a: &Knowledge, b: &Knowledge, layout: Seq<bool>)
    requires
        knowledge_grows(a, b),
        a.known_safe.len() == board.n(),
        a.known_mines.len() == board.n(),
        consistent(board, b, layout),
    ensures
        consistent(board, a, layout),
{
    assert forall|i: int| 0 <= i < board.n() && #[trigger] a.known_mines@[i] implies layout[i] by {
        assert(b.known_mines@[i]);
    }
    assert forall|i: int| 0 <= i < board.n() && #[trigger] a.known_safe@[i] implies !layout[i] && mines_among(
        layout,
        neighbor_seq(board.width as int, board.height as int, i),
    ).len() == board.adjacent@[i] by {
        assert(b.known_safe@[i]);
    }
}

proof fn lemma_determined_grow(board: &SolverBoard, a: &Knowledge, b: &Knowledge, x: int)
    requires
        knowledge_grows(a, b),
        a.known_safe.len() == board.n(),
        a.known_mines.len() == board.n(),
    ensures
        determined_safe(board, a, x) ==> determined_safe(board, b, x),
        determined_mine(board, a, x) ==> determined_mine(board, b, x),
{
    assert forall|layout: Seq<bool>| #[trigger] consistent(board, b, layout) implies consistent(board, a, layout) by {
        lemma_consistent_shrinks(board, a, b, layout);
    }
}

/// Around a cell, the mines of a layout that agrees with the knowledge are the known mines
/// and the mines among the unknown cells.
proof fn lemma_neighbours_split(know: &Knowledge, layout: Seq<bool>, nb: Seq<usize>)
    requires
        nb.no_duplicates(),
        know.known_safe.len() == layout.len(),
        know.known_mines.len() == layout.len(),
        forall|k: int| 0 <= k < nb.len() ==> (#[trigger] nb[k]) < layout.len(),
        forall|k: int|
            0 <= k < nb.len() ==> (know.known_mines@[#[trigger] nb[k] as int] ==> layout[nb[k] as int]) && (
            know.known_safe@[nb[k] as int] ==> !layout[nb[k] as int]),
    ensures
        mines_among(layout, nb).len() == known_mine_entries(know.known_mines@, nb) + unknown_entries(know, nb).filter(
            |x: usize| x < layout.len() && layout[x as int],
        ).len(),
        unknown_entries(know, nb).filter(|x: usize| x < layout.len() && layout[x as int]).finite(),
    decreases nb.len(),
{
    let f = |x: usize| x < layout.len() && layout[x as int];
    if nb.len() == 0 {
        assert(mines_among(layout, nb) =~= Set::<usize>::empty());
        assert(unknown_entries(know, nb).filter(f) =~= Set::<usize>::empty());
    } else {
        let p = nb.drop_last();
        let y = nb.last();
        assert forall|k: int| 0 <= k < p.len() implies (#[trigger] p[k]) < layout.len() && (know.known_mines@[p[k] as int]
            ==> layout[p[k] as int]) && (know.known_safe@[p[k] as int] ==> !layout[p[k] as int]) by {
            assert(p[k] == nb[k]);
        }
        assert(p.no_duplicates()) by {
            assert forall|a: int, b: int| 0 <= a < p.len() && 0 <= b < p.len() && a != b implies p[a] != p[b] by {
                assert(p[a] == nb[a] && p[b] == nb[b]);
            }
        }
        lemma_neighbours_split(know, layout, p);
        assert(nb[nb.len() - 1] == y);
        assert forall|x: usize| nb.to_set().contains(x) <==> (p.to_set().contains(x) || x == y) by {
            if nb.contains(x) {
                let k = choose|k: int| 0 <= k < nb.len() && nb[k] == x;
                if k < nb.len() - 1 {
                    assert(p[k] == x);
                }
            }
            if p.contains(x) {
                let k = choose|k: int| 0 <= k < p.len() && p[k] == x;
                assert(nb[k] == x);
            }
        }
        assert(!p.contains(y)) by {
            if p.contains(y) {
                let k = choose|k: int| 0 <= k < p.len() && p[k] == y;
                assert(nb[k] == nb[nb.len() - 1]);
            }
        }
        let ap = mines_among(layout, p);
        let up = unknown_entries(know, p).filter(f);
        lemma_mines_among_finite(layout, p);
        vstd::seq_lib::seq_to_set_is_finite(p);
        assert(up.subset_of(p.to_set()));
        vstd::set_lib::lemma_len_subset(up, p.to_set());
        let known = know.known_mines@[y as int];
        let safe = know.known_safe@[y as int];
        if layout[y as int] {
            assert(mines_among(layout, nb) =~= ap.insert(y));
        } else {
            assert(mines_among(layout, nb) =~= ap);
        }
        if !known && !safe && layout[y as int] {
            assert(unknown_entries(know, nb).filter(f) =~= up.insert(y));
        } else {
            assert(unknown_entries(know, nb).filter(f) =~= up);
        }
        assert(!ap.contains(y));
        assert(!up.contains(y));
        assert(nb.drop_last() == p);
    }
}

/// The flags set in `s`, as a set of cells.
proof fn lemma_count_true_set(s: Seq<bool>)
    requires
        s.len() <= usize::MAX,
    ensures
        Set::new(|x: usize| x < s.len() && s[x as int]).finite(),
        count_true(s) == Set::new(|x: usize| x < s.len() && s[x as int]).len(),
{
    let set = Set::new(|x: usize| x < s.len() && s[x as int]);
    lemma_count_indices_below(set, s.len());
    assert(Seq::new(s.len(), |i: int| set.contains(i as usize)) =~= s);
    assert(indices_below(set, s.len()) =~= set);
}

/// A layout consistent with the knowledge puts the mines not yet found on the unknown cells.
proof fn lemma_global_met(board: &SolverBoard, know: &Knowledge, layout: Seq<bool>, cells: Seq<usize>, mines: int)
    requires
        board.wf(),
        know.known_safe.len() == board.n(),
        know.known_mines.len() == board.n(),
        consistent(board, know, layout),
        forall|x: usize| #[trigger] cells.contains(x) <==> (x < board.n() && unknown_map(know)[x as int]),
        mines == board.mine_total - count_true(know.known_mines@),
    ensures
        mines_among(layout, cells).len() == mines,
{
    let n = board.n();
    let lm = Set::new(|x: usize| x < layout.len() && layout[x as int]);
    let km = Set::new(|x: usize| x < know.known_mines@.len() && know.known_mines@[x as int]);
    let um = mines_among(layout, cells);
    lemma_count_true_set(layout);
    lemma_count_true_set(know.known_mines@);
    lemma_mines_among_finite(layout, cells);
    assert forall|x: usize| #[trigger] um.contains(x) <==> (x < n && unknown_map(know)[x as int] && layout[x as int]) by {
        if um.contains(x) {
            assert(cells.to_set().contains(x));
        }
        if x < n && unknown_map(know)[x as int] && layout[x as int] {
            assert(cells.contains(x));
            assert(cells.to_set().contains(x));
        }
    }
    assert(lm =~= km + um) by {
        assert forall|x: usize| lm.contains(x) <==> (km + um).contains(x) by {
            if lm.contains(x) && !km.contains(x) {
                assert(!know.known_safe@[x as int]);
                assert(unknown_map(know)[x as int]);
            }
            if km.contains(x) {
                assert(know.known_mines@[x as int]);
            }
        }
    }
    assert(km.disjoint(um));
    vstd::set_lib::lemma_set_disjoint_lens(km, um);
}

/// Every deduction holds in every layout consistent with `know`.
pub open spec fn deductions_determined(board: &SolverBoard, know: &Knowledge, d: &Deductions) -> bool {
    forall|i: int|
        0 <= i < board.n() ==> (#[trigger] d.safe@[i] ==> determined_safe(board, know, i)) && (d.mines@[i]
            ==> determined_mine(board, know, i))
}

/// A deduction about cell `i` that the layout or the knowledge contradicts: a cell marked
/// both safe and a mine, a mine marked safe, or a safe cell (or one known safe) marked a mine.
pub open spec fn deduction_wrong(board: &SolverBoard, know: &Knowledge, d: &Deductions, i: int) -> bool {
    (d.safe@[i] && (d.mines@[i] || board.mines@[i])) || (d.mines@[i] && (know.known_safe@[i] || !board.mines@[i]))
}

/// Copies a list of constraints.
fn copy_constraints(cs: &Vec<Constraint>, n: usize) -> (d: Vec<Constraint>)
    requires
        constraints_ok(cs@, n as nat),
    ensures
        constraints_ok(d@, n as nat),
        d.len() == cs.len(),
        forall|k: int| 0 <= k < d.len() ==> (#[trigger] d@[k]).cells@ == cs@[k].cells@ && d@[k].mines == cs@[k].mines,
{
    let mut d: Vec<Constraint> = Vec::new();
    let mut k: usize = 0;
    while k < cs.len()
        invariant
            constraints_ok(cs@, n as nat),
            constraints_ok(d@, n as nat),
            k <= cs.len(),
            d.len() == k,
            forall|j: int| 0 <= j < k ==> (#[trigger] d@[j]).cells@ == cs@[j].cells@ && d@[j].mines == cs@[j].mines,
        decreases cs.len() - k,
    {
        let c = copy_constraint(&cs[k]);
        proof {
            assert(constraint_ok(&cs@[k as int], n as nat));
        }
        d.push(c);
        k = k + 1;
    }
    d
}

/// One round of reasoning: the simple deductions from the local and global constraints, or,
/// if they settle nothing, the deductions from enumerating components. Returns whether
/// anything new became known, and fails on a contradiction.
/// A sound flag cannot fall on a cell that no constraint lists, once some layout meets them
/// all: turning that cell over would keep every constraint met.
proof fn lemma_flag_on_listed(d: &Deductions, cs: Seq<Constraint>, n: nat, layout: Seq<bool>, y: int)
    requires
        deductions_sound(d, cs, n),
        layout.len() == n,
        meets_all(layout, cs),
        0 <= y < n,
        forall|k: int| 0 <= k < cs.len() ==> !(#[trigger] cs[k]).cells@.contains(y as usize),
    ensures
        !d.safe@[y] && !d.mines@[y],
{
    let flipped = layout.update(y, !layout[y]);
    assert forall|k: int| 0 <= k < cs.len() implies meets(flipped, &#[trigger] cs[k]) by {
        assert(meets(layout, &cs[k]));
        assert(mines_among(flipped, cs[k].cells@) =~= mines_among(layout, cs[k].cells@)) by {
            assert forall|x: usize| #[trigger] cs[k].cells@.to_set().contains(x) implies (x < flipped.len()
                && flipped[x as int]) == (x < layout.len() && layout[x as int]) by {
                assert(cs[k].cells@.contains(x));
                if x as int == y {
                    assert((y as usize) == x);
                }
            }
        }
    }
    assert(meets_all(flipped, cs));
    if d.safe@[y] {
        assert(!layout[y] && !flipped[y]);
    }
    if d.mines@[y] {
        assert(layout[y] && flipped[y]);
    }
}

#[verifier::spinoff_prover]
#[verifier::rlimit(40)]
fn apply_pass(board: &SolverBoard, know: &mut Knowledge) -> (r: Option<bool>)
    requires
        board.wf(),
        knowledge_ok(board, old(know)),
    ensures
        knowledge_ok(board, final(know)),
        knowledge_grows(old(know), final(know)),
        r == Some(true) ==> unknown_count(final(know)) < unknown_count(old(know)),
        reaches(board, *old(know), *final(know)),
        r == Some(false) ==> simple_stuck(board, old(know)),
        real_board(board) ==> r is Some,
        real_board(board) && frontier_forced(board, old(know)) && r == Some(false) ==> unknown_set(
            board,
            old(know),
        ).subset_of(number_frontier(board, old(know))),
        real_board(board) && number_frontier(board, old(know)).len() <= SMALL_COMPONENT_CELLS && r == Some(false)
            ==> forall|x: usize|
            #[trigger] number_frontier(board, old(know)).contains(x) ==> !numbers_force_safe(board, old(know), x as int)
                && !numbers_force_mine(board, old(know), x as int),
{
    let n = board.width * board.height;
    proof {
        lemma_reaches_refl(board, *know);
        if real_board(board) {
            lemma_board_layout_consistent(board, know);
        }
    }
    let local = match local_constraints(board, know) {
        Some(v) => v,
        None => {
            proof {
                if real_board(board) {
                    let i = choose|i: int| 0 <= i < board.n() && #[trigger] local_fails(board, know, i);
                    lemma_real_local_ok(board, know, i);
                }
            }
            return None;
        },
    };
    let global = match global_constraint(board, know) {
        Some(c) => c,
        None => {
            proof {
                if real_board(board) {
                    lemma_real_global_ok(board, know);
                }
            }
            return None;
        },
    };
    proof {
        assert forall|layout: Seq<bool>| #[trigger] consistent(board, know, layout) implies meets(layout, &global) by {
            lemma_global_met(board, know, layout, global.cells@, global.mines as int);
        }
    }
    let mut constraints = copy_constraints(&local, n);
    let global_copy = copy_constraint(&global);
    let ghost cb = constraints@;
    push_constraint(&mut constraints, global_copy);
    proof {
        assert forall|layout: Seq<bool>| #[trigger] consistent(board, know, layout) implies meets_all(layout, constraints@) by {
            assert(meets_all(layout, local@));
            assert(meets(layout, &global));
            assert forall|k: int| 0 <= k < constraints.len() implies meets(layout, &#[trigger] constraints@[k]) by {
                if k < cb.len() {
                    assert(constraints@[k] == cb[k]);
                    assert(meets(layout, &local@[k]));
                    assert(mines_among(layout, cb[k].cells@) == mines_among(layout, local@[k].cells@));
                } else {
                    assert(constraints@[k] == global_copy);
                    assert(mines_among(layout, global_copy.cells@) == mines_among(layout, global.cells@));
                }
            }
        }
        assert forall|s: int|
            #[trigger] source_ok(board, know, s) && source_cells(board, know, s).len() > 0 implies listed_as(
                constraints@,
                source_cells(board, know, s),
                source_mines(board, know, s),
            ) by {
            if s == board.n() {
                assert(global.cells@.to_set() =~= unknown_set(board, know));
                if constraints@ == cb {
                    if global_copy.cells.len() == 0 {
                        assert(global_copy.cells@.to_set() =~= Set::<usize>::empty());
                    } else {
                        assert(listed(cb, &global_copy));
                        let k = choose|k: int| 0 <= k < cb.len() && (#[trigger] cb[k]).cells@ == global_copy.cells@ && cb[k].mines
                            == global_copy.mines;
                        assert(constraints@[k].cells@.to_set() == source_cells(board, know, s));
                    }
                } else {
                    assert(constraints@[cb.len() as int] == global_copy);
                }
            } else {
                assert(shown_in(local@, board, know, s));
                let k = choose|k: int| 0 <= k < local@.len() && #[trigger] shows(local@[k], board, know, s);
                assert(cb[k].cells@ == local@[k].cells@ && cb[k].mines == local@[k].mines);
                if constraints@ != cb {
                    assert(constraints@[k] == cb[k]);
                }
                assert(constraints@[k].cells@.to_set() == source_cells(board, know, s));
            }
        }
    }
    let mut deductions = match simple_deductions(&constraints, n) {
        Some(d) => d,
        None => {
            proof {
                if real_board(board) {
                    let l = board.mines@;
                    assert(meets_all(l, constraints@));
                    if exists|k: int| 0 <= k < constraints.len() && #[trigger] constraints@[k].mines > constraints@[k].cells.len() {
                        let k = choose|k: int| 0 <= k < constraints.len() && #[trigger] constraints@[k].mines > constraints@[k].cells.len();
                        assert(meets(l, &constraints@[k]));
                        lemma_mines_among_bound(l, constraints@[k].cells@);
                    } else {
                        let (a, b) = choose|a: int, b: int|
                            0 <= a < b < constraints.len() && #[trigger] pair_fails(&constraints@[a], &constraints@[b]);
                        assert(meets(l, &constraints@[a]) && meets(l, &constraints@[b]));
                        if cells_within(&constraints@[a], &constraints@[b]) {
                            lemma_pair_met(l, &constraints@[a], &constraints@[b]);
                        } else {
                            lemma_pair_met(l, &constraints@[b], &constraints@[a]);
                        }
                    }
                }
            }
            return None;
        },
    };
    let ghost flagged = exists|x: usize|
        x < board.n() && #[trigger] unknown_map(know)[x as int] && (deductions.safe@[x as int] || deductions.mines@[x as int]);
    proof {
        if !simple_stuck(board, know) {
            lemma_not_stuck_flags(board, know, constraints@, &deductions);
        }
        if real_board(board) && !no_flags(deductions.safe@, deductions.mines@, deductions.safe.len() as int) {
            let i = choose|i: int| 0 <= i < deductions.safe.len() && !(!deductions.safe@[i] && !deductions.mines@[i]);
            assert(consistent(board, know, board.mines@));
            assert(meets_all(board.mines@, constraints@));
            if !unknown_map(know)[i] {
                assert forall|k: int| 0 <= k < constraints.len() implies !(#[trigger] constraints@[k]).cells@.contains(i as usize) by {
                    if k < cb.len() {
                        assert(constraints@[k] == cb[k]);
                        assert(cb[k].cells@ == local@[k].cells@);
                        if local@[k].cells@.contains(i as usize) {
                            assert(unknown_map(know)[(i as usize) as int]);
                        }
                    } else {
                        assert(constraints@[k] == global_copy);
                        if global.cells@.contains(i as usize) {
                            assert(unknown_map(know)[(i as usize) as int]);
                        }
                    }
                }
                lemma_flag_on_listed(&deductions, constraints@, n as nat, board.mines@, i);
            }
            assert(unknown_map(know)[(i as usize) as int]);
            assert(flagged);
        }
    }
    proof {
        assert forall|i: int|
            0 <= i < board.n() implies (#[trigger] deductions.safe@[i] ==> determined_safe(board, know, i)) && (
            deductions.mines@[i] ==> determined_mine(board, know, i)) by {
            assert forall|layout: Seq<bool>| #[trigger] consistent(board, know, layout) implies (deductions.safe@[i]
                ==> !layout[i]) && (deductions.mines@[i] ==> layout[i]) by {
                assert(meets_all(layout, constraints@));
            }
        }
    }
    let ghost know0 = *know;
    let empty = deductions_empty(&deductions);
    if empty {
        proof {
            if flagged {
                let x = choose|x: usize|
                    x < board.n() && #[trigger] unknown_map(know)[x as int] && (deductions.safe@[x as int]
                        || deductions.mines@[x as int]);
                assert(deductions_ok(&deductions, n as nat));
                assert((x as int) < deductions.safe.len());
                assert(deductions.safe@[x as int] || deductions.mines@[x as int]);
                assert(!no_flags(deductions.safe@, deductions.mines@, deductions.safe.len() as int));
            }
            assert(simple_stuck(board, know));
            assert(locals_within(local@, global)) by {
                assert forall|k: int, x: usize| 0 <= k < local@.len() && #[trigger] local@[k].cells@.contains(x) implies global.cells@.contains(x) by {
                }
            }
        }
        let ghost all = local@.push(global);
        proof {
            assert forall|layout: Seq<bool>| #[trigger] consistent(board, know, layout) implies meets_all(layout, all) by {
                assert(meets_all(layout, local@));
                assert forall|k: int| 0 <= k < all.len() implies meets(layout, &#[trigger] all[k]) by {
                    if k < local@.len() {
                        assert(all[k] == local@[k]);
                    } else {
                        assert(all[k] == global);
                    }
                }
            }
        }
        deductions = match combination_deductions(&local, &global, n) {
            Some(d) => d,
            None => {
                proof {
                    if real_board(board) {
                        assert(meets_all(board.mines@, all));
                        assert(!no_layout(all, n as nat));
                    }
                }
                return None;
            },
        };
        proof {
            assert forall|layout: Seq<bool>| #[trigger] consistent(board, know, layout) implies meets_all(layout, all) by {
                assert(meets_all(layout, local@));
                assert forall|k: int| 0 <= k < all.len() implies meets(layout, &#[trigger] all[k]) by {
                    if k < local@.len() {
                        assert(all[k] == local@[k]);
                    } else {
                        assert(all[k] == global);
                    }
                }
            }
            assert forall|i: int|
                0 <= i < board.n() implies (#[trigger] deductions.safe@[i] ==> determined_safe(board, know, i)) && (
                deductions.mines@[i] ==> determined_mine(board, know, i)) by {
                assert forall|layout: Seq<bool>| #[trigger] consistent(board, know, layout) implies (deductions.safe@[i]
                    ==> !layout[i]) && (deductions.mines@[i] ==> layout[i]) by {
                    assert(meets_all(layout, all));
                }
            }
            let fr = number_frontier(board, know);
            let cl = constraint_cell_set(local@);
            assert(cl =~= fr) by {
                assert forall|x: usize| cl.contains(x) implies fr.contains(x) by {
                    let (k, i) = choose|k: int, i: int|
                        0 <= k < local@.len() && 0 <= i < local@[k].cells.len() && #[trigger] local@[k].cells@[i] == x;
                    assert(local@[k].cells@.contains(x));
                }
                assert forall|x: usize| fr.contains(x) implies cl.contains(x) by {
                    let s0 = choose|s0: int|
                        0 <= s0 < board.n() && numbered(board, know, s0) && #[trigger] shown_cells(board, know, s0).contains(x);
                    lemma_usize_set_finite(shown_cells(board, know, s0));
                    assert(shown_cells(board, know, s0).remove(x).len() + 1 == shown_cells(board, know, s0).len());
                    assert(shown_in(local@, board, know, s0));
                    let k = choose|k: int| 0 <= k < local@.len() && #[trigger] shows(local@[k], board, know, s0);
                    assert(local@[k].cells@.to_set().contains(x));
                    let i = choose|i: int| 0 <= i < local@[k].cells.len() && local@[k].cells@[i] == x;
                    assert(local@[k].cells@[i] == x);
                }
            }
            lemma_usize_set_finite(fr);
            assert forall|layout: Seq<bool>|
                layout.len() == n && #[trigger] meets_all(layout, local@) implies meets_numbers(board, know, layout) by {
                assert forall|s0: int|
                    0 <= s0 < board.n() && #[trigger] numbered(board, know, s0) && shown_cells(board, know, s0).len() > 0 implies mines_in(
                        layout,
                        shown_cells(board, know, s0),
                    ).len() == shown_mines(board, know, s0) by {
                    assert(shown_in(local@, board, know, s0));
                    let k = choose|k: int| 0 <= k < local@.len() && #[trigger] shows(local@[k], board, know, s0);
                    assert(meets(layout, &local@[k]));
                    assert(mines_among(layout, local@[k].cells@) =~= mines_in(layout, shown_cells(board, know, s0)));
                }
            }
            if frontier_forced(board, know) {
                let f = choose|f: usize|
                    {
                        &&& #[trigger] numbers_fix_count(board, know, f)
                        &&& (f == source_mines(board, know, board.n() as int) || f + unknown_set(board, know).difference(fr).len()
                            == source_mines(board, know, board.n() as int))
                    };
                assert forall|layout: Seq<bool>|
                    layout.len() == n && #[trigger] meets_all(layout, local@) implies mines_in(layout, cl).len() == f by {
                    assert(meets_numbers(board, know, layout));
                }
                assert(forced_count(local@, n as nat, f));
                assert(global.cells@.to_set() =~= unknown_set(board, know)) by {
                    assert forall|x: usize| global.cells@.to_set().contains(x) <==> #[trigger] unknown_set(board, know).contains(x) by {
                        assert(global.cells@.to_set().contains(x) <==> global.cells@.contains(x));
                    }
                }
                assert forall|x: usize| x < board.n() && #[trigger] unknown_map(know)[x as int] && !fr.contains(x) implies deductions.safe@[x as int]
                    || deductions.mines@[x as int] by {
                    assert(global.cells@.contains(x));
                }
            }
            if fr.len() <= SMALL_COMPONENT_CELLS {
                assert forall|x: usize| #[trigger] fr.contains(x) implies (numbers_force_safe(board, know, x as int)
                    ==> deductions.safe@[x as int]) && (numbers_force_mine(board, know, x as int) ==> deductions.mines@[x as int])
                    && x < board.n() && unknown_map(know)[x as int] by {
                    assert(cl.contains(x));
                    let (k, i) = choose|k: int, i: int|
                        0 <= k < local@.len() && 0 <= i < local@[k].cells.len() && #[trigger] local@[k].cells@[i] == x;
                    assert(local@[k].cells@.contains(x));
                    if numbers_force_safe(board, know, x as int) {
                        assert forall|layout: Seq<bool>| layout.len() == n && #[trigger] meets_all(layout, local@) implies !layout[x as int] by {
                            assert(meets_numbers(board, know, layout));
                        }
                    }
                    if numbers_force_mine(board, know, x as int) {
                        assert forall|layout: Seq<bool>| layout.len() == n && #[trigger] meets_all(layout, local@) implies layout[x as int] by {
                            assert(meets_numbers(board, know, layout));
                        }
                    }
                }
            }
        }
    }
    let ghost before = *know;
    let r = apply_deductions(board, know, &deductions);
    proof {
        if r is None {
            assert(*know == before);
            if real_board(board) {
                let i = choose|i: int| 0 <= i < board.n() && #[trigger] deduction_wrong(board, &before, &deductions, i);
                assert(consistent(board, &before, board.mines@));
                assert(deductions.safe@[i] ==> determined_safe(board, &before, i));
                assert(deductions.mines@[i] ==> determined_mine(board, &before, i));
            }
        }
        if r == Some(false) && !simple_stuck(board, &know0) {
            assert(flagged);
            let x = choose|x: usize|
                x < board.n() && #[trigger] unknown_map(&know0)[x as int] && (deductions.safe@[x as int]
                    || deductions.mines@[x as int]);
            lemma_unknown_fewer(&know0, know, x as int);
        }
        if r == Some(false) && real_board(board) && number_frontier(board, &know0).len() <= SMALL_COMPONENT_CELLS {
            assert forall|x: usize| #[trigger] number_frontier(board, &know0).contains(x) implies !numbers_force_safe(
                board,
                &know0,
                x as int,
            ) && !numbers_force_mine(board, &know0, x as int) by {
                if numbers_force_safe(board, &know0, x as int) || numbers_force_mine(board, &know0, x as int) {
                    if empty {
                        assert(x < board.n() && unknown_map(&know0)[x as int]);
                        assert(deductions.safe@[x as int] || deductions.mines@[x as int]);
                        lemma_unknown_fewer(&know0, know, x as int);
                    } else {
                        assert(flagged);
                        let y = choose|y: usize|
                            y < board.n() && #[trigger] unknown_map(&know0)[y as int] && (deductions.safe@[y as int]
                                || deductions.mines@[y as int]);
                        lemma_unknown_fewer(&know0, know, y as int);
                    }
                }
            }
        }
        if r == Some(false) && real_board(board) && frontier_forced(board, &know0) {
            assert forall|x: usize| unknown_set(board, &know0).contains(x) implies number_frontier(board, &know0).contains(x) by {
                if !number_frontier(board, &know0).contains(x) {
                    if empty {
                        assert(unknown_map(&know0)[x as int]);
                        assert(deductions.safe@[x as int] || deductions.mines@[x as int]);
                        lemma_unknown_fewer(&know0, know, x as int);
                    } else {
                        assert(flagged);
                        let y = choose|y: usize|
                            y < board.n() && #[trigger] unknown_map(&know0)[y as int] && (deductions.safe@[y as int]
                                || deductions.mines@[y as int]);
                        lemma_unknown_fewer(&know0, know, y as int);
                    }
                }
            }
        }
    }
    r
}

/// After opening `first` with nothing else known, exactly the cells of its opening are
/// known safe and no mine is known.
pub open spec fn opened_first(board: &SolverBoard, first: usize, start: Knowledge) -> bool {
    exists|blank: Knowledge|
        {
            &&& blank.known_safe@ == Seq::new(board.n(), |i: int| false)
            &&& blank.known_mines@ == Seq::new(board.n(), |i: int| false)
            &&& start.known_mines@ == blank.known_mines@
            &&& start.known_safe.len() == board.n()
            &&& forall|x: usize| x < board.n() ==> (#[trigger] start.known_safe@[x as int] <==> in_opening(board, &blank, first, x))
        }
}

/// A player who opens `first` can clear the board without ever guessing: from what that
/// opening shows, a run of moves that only open cells safe in every consistent layout (and
/// only mark cells that are mines in every one) comes to know every safe cell.
pub open spec fn solvable_without_guessing(board: &SolverBoard, first: usize) -> bool {
    exists|start: Knowledge, end: Knowledge|
        {
            &&& opened_first(board, first, start)
            &&& #[trigger] reaches(board, start, end)
            &&& forall|i: int| 0 <= i < board.n() ==> board.mines@[i] || #[trigger] end.known_safe@[i]
        }
}

/// The same, for the board of `width` by `height` cells with these mines, neighbour counts
/// and mine total.
pub open spec fn solvable_without_guessing_on(
    width: usize,
    height: usize,
    mines: Seq<bool>,
    adjacent: Seq<u8>,
    mine_total: usize,
    first: usize,
) -> bool {
    exists|mv: Vec<bool>, av: Vec<u8>|
        #![trigger mv@, av@]
        mv@ == mines && av@ == adjacent && solvable_without_guessing(
            &(SolverBoard { width, height, mines: &mv, adjacent: &av, mine_total }),
            first,
        )
}

/// The cells still unknown.
pub open spec fn unknown_set(board: &SolverBoard, know: &Knowledge) -> Set<usize> {
    Set::new(|x: usize| x < board.n() && unknown_map(know)[x as int])
}

/// A constraint the player can read off the board: the number on a known safe cell `s`
/// (other than 0) over its unknown neighbours, or, for `s == n`, the mines not yet found over
/// all the unknown cells.
pub open spec fn source_ok(board: &SolverBoard, know: &Knowledge, s: int) -> bool {
    (0 <= s < board.n() && numbered(board, know, s)) || s == board.n()
}

pub open spec fn source_cells(board: &SolverBoard, know: &Knowledge, s: int) -> Set<usize> {
    if s == board.n() {
        unknown_set(board, know)
    } else {
        shown_cells(board, know, s)
    }
}

pub open spec fn source_mines(board: &SolverBoard, know: &Knowledge, s: int) -> int {
    if s == board.n() {
        board.mine_total - count_true(know.known_mines@)
    } else {
        shown_mines(board, know, s)
    }
}

/// Neither rule the simple step uses decides an unknown cell: no constraint read off the
/// board has no mine or only mines on its cells, and for no two of them, one's cells among
/// the other's, do the other cells hold no mine or only mines.
pub open spec fn simple_stuck(board: &SolverBoard, know: &Knowledge) -> bool {
    &&& forall|s: int|
        #[trigger] source_ok(board, know, s) && source_cells(board, know, s).len() > 0 ==> source_mines(board, know, s) != 0
            && source_mines(board, know, s) != source_cells(board, know, s).len()
    &&& forall|s1: int, s2: int|
        #![trigger source_ok(board, know, s1), source_ok(board, know, s2)]
        source_ok(board, know, s1) && source_ok(board, know, s2) && source_cells(board, know, s1).len() > 0
            && source_cells(board, know, s1).subset_of(source_cells(board, know, s2)) && source_cells(board, know, s1)
            != source_cells(board, know, s2) ==> source_mines(board, know, s2) - source_mines(board, know, s1) != 0
            && source_mines(board, know, s2) - source_mines(board, know, s1) != source_cells(board, know, s2).difference(
            source_cells(board, know, s1),
        ).len()
}

/// Fewer flags pointwise give a smaller count, strictly so when one flag is dropped.
proof fn lemma_count_true_less(a: Seq<bool>, b: Seq<bool>, x: int)
    requires
        a.len() == b.len(),
        forall|i: int| 0 <= i < a.len() && #[trigger] a[i] ==> b[i],
        0 <= x < a.len(),
        !a[x],
        b[x],
    ensures
        count_true(a) < count_true(b),
    decreases a.len(),
{
    let m = a.len() - 1;
    if x == m {
        lemma_count_true_le(a.drop_last(), b.drop_last());
    } else {
        lemma_count_true_less(a.drop_last(), b.drop_last(), x);
    }
}

proof fn lemma_count_true_le(a: Seq<bool>, b: Seq<bool>)
    requires
        a.len() == b.len(),
        forall|i: int| 0 <= i < a.len() && #[trigger] a[i] ==> b[i],
    ensures
        count_true(a) <= count_true(b),
    decreases a.len(),
{
    if a.len() > 0 {
        lemma_count_true_le(a.drop_last(), b.drop_last());
    }
}

/// Learning an unknown cell leaves fewer unknown cells.
proof fn lemma_unknown_fewer(before: &Knowledge, after: &Knowledge, x: int)
    requires
        knowledge_grows(before, after),
        before.known_safe.len() == before.known_mines.len(),
        0 <= x < before.known_safe.len(),
        unknown_map(before)[x],
        after.known_safe@[x] || after.known_mines@[x],
    ensures
        unknown_count(after) < unknown_count(before),
{
    lemma_count_true_less(unknown_map(after), unknown_map(before), x);
}

/// A board whose mine total and numbers are those of its layout, with fewer than
/// `usize::MAX` cells.
pub open spec fn real_board(board: &SolverBoard) -> bool {
    &&& board.n() < usize::MAX
    &&& board.mine_total == count_true(board.mines@)
    &&& forall|i: int|
        0 <= i < board.n() && !board.mines@[i] ==> #[trigger] board.adjacent@[i] == mines_among(
            board.mines@,
            neighbor_seq(board.width as int, board.height as int, i),
        ).len()
}

/// On a real board, the numbers never contradict knowledge that agrees with the layout.
proof fn lemma_real_local_ok(board: &SolverBoard, know: &Knowledge, i: int)
    requires
        board.wf(),
        knowledge_ok(board, know),
        real_board(board),
        0 <= i < board.n(),
    ensures
        !local_fails(board, know, i),
{
    if know.known_safe@[i] {
        let nb = neighbor_seq(board.width as int, board.height as int, i);
        let l = board.mines@;
        lemma_neighbor_seq_sorted(board.width as int, board.height as int, i);
        lemma_neighbor_seq_bound(board.width as int, board.height as int, i);
        lemma_sorted_no_duplicates(nb);
        assert forall|k: int| 0 <= k < nb.len() implies (know.known_mines@[#[trigger] nb[k] as int] ==> l[nb[k] as int]) && (
        know.known_safe@[nb[k] as int] ==> !l[nb[k] as int]) by {
            assert(nb[k] < board.n());
        }
        lemma_neighbours_split(know, l, nb);
        let f = |x: usize| x < l.len() && l[x as int];
        let u = unknown_entries(know, nb);
        vstd::seq_lib::seq_to_set_is_finite(nb);
        assert(u.subset_of(nb.to_set()));
        vstd::set_lib::lemma_len_subset(u, nb.to_set());
        vstd::set_lib::lemma_len_subset(u.filter(f), u);
        assert(board.adjacent@[i] == mines_among(l, nb).len());
    }
}

/// On a real board, the mines not yet found fit on the unknown cells.
proof fn lemma_real_global_ok(board: &SolverBoard, know: &Knowledge)
    requires
        board.wf(),
        knowledge_ok(board, know),
        real_board(board),
    ensures
        count_true(know.known_mines@) <= board.mine_total,
        board.mine_total - count_true(know.known_mines@) <= unknown_count(know),
{
    let n = board.n();
    let l = board.mines@;
    let lm = Set::new(|x: usize| x < l.len() && l[x as int]);
    let km = Set::new(|x: usize| x < know.known_mines@.len() && know.known_mines@[x as int]);
    let un = Set::new(|x: usize| x < unknown_map(know).len() && unknown_map(know)[x as int]);
    let um = Set::new(|x: usize| x < n && unknown_map(know)[x as int] && l[x as int]);
    lemma_count_true_set(l);
    lemma_count_true_set(know.known_mines@);
    lemma_count_true_set(unknown_map(know));
    assert(um.subset_of(un));
    vstd::set_lib::lemma_len_subset(um, un);
    assert(lm =~= km + um) by {
        assert forall|x: usize| lm.contains(x) <==> (km + um).contains(x) by {
            if km.contains(x) {
                assert(know.known_mines@[x as int]);
            }
            if lm.contains(x) && !km.contains(x) {
                assert(!know.known_safe@[x as int]);
            }
        }
    }
    assert(km.disjoint(um));
    vstd::set_lib::lemma_set_disjoint_lens(km, um);
}

/// A layout meeting two constraints, one's cells among the other's, puts the difference of
/// their counts on the other cells.
proof fn lemma_pair_met(layout: Seq<bool>, a: &Constraint, b: &Constraint)
    requires
        cells_within(a, b),
        meets(layout, a),
        meets(layout, b),
    ensures
        !difference_fails(a, b),
{
    let f = |x: usize| x < layout.len() && layout[x as int];
    let sa = a.cells@.to_set();
    let sb = b.cells@.to_set();
    let diff = sb.difference(sa);
    vstd::seq_lib::seq_to_set_is_finite(a.cells@);
    vstd::seq_lib::seq_to_set_is_finite(b.cells@);
    let ma = mines_among(layout, a.cells@);
    let rest = diff.filter(f);
    assert(mines_among(layout, b.cells@) =~= ma + rest) by {
        assert forall|x: usize| sa.contains(x) implies sb.contains(x) by {
            let k = choose|k: int| 0 <= k < a.cells.len() && a.cells@[k] == x;
            assert(b.cells@.contains(a.cells@[k]));
        }
    }
    lemma_mines_among_finite(layout, a.cells@);
    assert(diff.finite());
    vstd::set_lib::lemma_len_subset(rest, diff);
    assert(ma.disjoint(rest));
    vstd::set_lib::lemma_set_disjoint_lens(ma, rest);
}

/// The list holds a constraint over exactly these cells with this count.
spec fn listed_as(cs: Seq<Constraint>, cells: Set<usize>, mines: int) -> bool {
    exists|k: int| 0 <= k < cs.len() && (#[trigger] cs[k]).cells@.to_set() == cells && cs[k].mines == mines
}

/// When the simple step is not stuck, the deductions it recorded decide some unknown cell.
proof fn lemma_not_stuck_flags(board: &SolverBoard, know: &Knowledge, cs: Seq<Constraint>, d: &Deductions)
    requires
        board.wf(),
        knowledge_ok(board, know),
        constraints_ok(cs, board.n()),
        !simple_stuck(board, know),
        forall|s: int|
            #[trigger] source_ok(board, know, s) && source_cells(board, know, s).len() > 0 ==> listed_as(
                cs,
                source_cells(board, know, s),
                source_mines(board, know, s),
            ),
        forall|k: int| 0 <= k < cs.len() ==> #[trigger] direct_done(d, &cs[k], board.n()),
        forall|l: int, r: int| 0 <= l < cs.len() && 0 <= r < cs.len() ==> #[trigger] pair_done(d, &cs[l], &cs[r], board.n()),
    ensures
        exists|x: usize| x < board.n() && #[trigger] unknown_map(know)[x as int] && (d.safe@[x as int] || d.mines@[x as int]),
{
    let n = board.n();
    assert forall|s: int| #[trigger] source_ok(board, know, s) implies source_cells(board, know, s).subset_of(unknown_set(board, know)) by {
        if s != n {
            assert forall|x: usize| source_cells(board, know, s).contains(x) implies unknown_set(board, know).contains(x) by {
                let nb = neighbor_seq(board.width as int, board.height as int, s);
                lemma_neighbor_seq_bound(board.width as int, board.height as int, s);
                assert(nb.to_set().contains(x));
                let j = choose|j: int| 0 <= j < nb.len() && nb[j] == x;
                assert(nb[j] < n);
            }
        }
    }
    if exists|s: int|
        #[trigger] source_ok(board, know, s) && source_cells(board, know, s).len() > 0 && !(source_mines(board, know, s) != 0
            && source_mines(board, know, s) != source_cells(board, know, s).len()) {
        let s = choose|s: int|
            #[trigger] source_ok(board, know, s) && source_cells(board, know, s).len() > 0 && !(source_mines(board, know, s) != 0
                && source_mines(board, know, s) != source_cells(board, know, s).len());
        let cells = source_cells(board, know, s);
        assert(listed_as(cs, cells, source_mines(board, know, s)));
        let k = choose|k: int| 0 <= k < cs.len() && (#[trigger] cs[k]).cells@.to_set() == cells && cs[k].mines == source_mines(board, know, s);
        let c = cs[k];
        assert(constraint_ok(&c, n));
        lemma_sorted_no_duplicates(c.cells@);
        c.cells@.unique_seq_to_set();
        let x = cells.choose();
        vstd::seq_lib::seq_to_set_is_finite(c.cells@);
        assert(cells.contains(x));
        assert(c.cells@.contains(x));
        assert(unknown_set(board, know).contains(x));
        assert(direct_done(d, &cs[k], n));
        assert(x < n && unknown_map(know)[x as int]);
        if c.mines == 0 {
            assert(direct_safe(&c, x));
            assert(d.safe@[x as int]);
        } else {
            assert(direct_mine(&c, x));
            assert(d.mines@[x as int]);
        }
        assert(x < board.n() && unknown_map(know)[x as int] && (d.safe@[x as int] || d.mines@[x as int]));
    } else {
        let (s1, s2) = choose|s1: int, s2: int|
            #![trigger source_ok(board, know, s1), source_ok(board, know, s2)]
            !(source_ok(board, know, s1) && source_ok(board, know, s2) && source_cells(board, know, s1).len() > 0
                && source_cells(board, know, s1).subset_of(source_cells(board, know, s2)) && source_cells(board, know, s1)
                != source_cells(board, know, s2) ==> source_mines(board, know, s2) - source_mines(board, know, s1) != 0
                && source_mines(board, know, s2) - source_mines(board, know, s1) != source_cells(board, know, s2).difference(
                source_cells(board, know, s1),
            ).len());
        let c1s = source_cells(board, know, s1);
        let c2s = source_cells(board, know, s2);
        assert(unknown_set(board, know).finite()) by {
            lemma_count_true_set(unknown_map(know));
            assert(unknown_set(board, know) =~= Set::new(
                |x: usize| x < unknown_map(know).len() && unknown_map(know)[x as int],
            ));
        }
        assert(source_ok(board, know, s2));
        vstd::set_lib::lemma_len_subset(c2s, unknown_set(board, know));
        assert(c2s.len() > 0) by {
            vstd::set_lib::lemma_len_subset(c1s, c2s);
        }
        assert(listed_as(cs, c1s, source_mines(board, know, s1)));
        assert(listed_as(cs, c2s, source_mines(board, know, s2)));
        let k1 = choose|k: int| 0 <= k < cs.len() && (#[trigger] cs[k]).cells@.to_set() == c1s && cs[k].mines == source_mines(board, know, s1);
        let k2 = choose|k: int| 0 <= k < cs.len() && (#[trigger] cs[k]).cells@.to_set() == c2s && cs[k].mines == source_mines(board, know, s2);
        let a = cs[k1];
        let b = cs[k2];
        assert(constraint_ok(&a, n) && constraint_ok(&b, n));
        assert(a.cells@ != b.cells@);
        assert(cells_within(&a, &b)) by {
            assert forall|q: int| 0 <= q < a.cells.len() implies b.cells@.contains(#[trigger] a.cells@[q]) by {
                assert(a.cells@.to_set().contains(a.cells@[q]));
                assert(b.cells@.to_set().contains(a.cells@[q]));
            }
        }
        let diff = c2s.difference(c1s);
        assert(outside_count(&a, &b) == diff.len());
        assert(diff.len() > 0) by {
            vstd::seq_lib::seq_to_set_is_finite(b.cells@);
            vstd::seq_lib::seq_to_set_is_finite(a.cells@);
            if diff.len() == 0 {
                assert(diff =~= Set::<usize>::empty()) by {
                    vstd::set_lib::lemma_set_difference_len(c2s, c1s);
                    if exists|y: usize| diff.contains(y) {
                        let y = choose|y: usize| diff.contains(y);
                        vstd::set::axiom_set_contains_len(diff, y);
                    }
                }
                assert(c1s =~= c2s) by {
                    assert forall|y: usize| c2s.contains(y) implies c1s.contains(y) by {
                        if !c1s.contains(y) {
                            assert(diff.contains(y));
                        }
                    }
                }
            }
        }
        vstd::seq_lib::seq_to_set_is_finite(b.cells@);
        vstd::set_lib::lemma_set_difference_len(c2s, c1s);
        let x = diff.choose();
        assert(diff.contains(x)) by {
            vstd::seq_lib::seq_to_set_is_finite(b.cells@);
            assert(diff.finite());
        }
        assert(b.cells@.contains(x) && !a.cells@.contains(x));
        assert(unknown_set(board, know).contains(x));
        assert(pair_done(d, &cs[k1], &cs[k2], n));
        assert(x < n && unknown_map(know)[x as int]);
        if b.mines == a.mines {
            assert(subset_safe(&a, &b, x));
            assert(d.safe@[x as int]);
        } else {
            assert(subset_mine(&a, &b, x));
            assert(d.mines@[x as int]);
        }
        assert(x < board.n() && unknown_map(know)[x as int] && (d.safe@[x as int] || d.mines@[x as int]));
    }
}

/// A player who opens `first` and moves without guessing can come to a point, short of
/// knowing every safe cell, where neither the single-constraint rules nor the subset rules
/// decide any unknown cell; where, if the cells next to the numbers are few enough to
/// enumerate, the numbers together fix none of them; and where the count of the mines left
/// settles no cell away from the numbers: if the numbers fix how many mines those few cells
/// hold, leaving the other unknown cells no mine or only mines, there is no other unknown
/// cell.
pub open spec fn stuck_on_simple_rules(board: &SolverBoard, first: usize) -> bool {
    exists|start: Knowledge, stop: Knowledge|
        {
            &&& opened_first(board, first, start)
            &&& #[trigger] reaches(board, start, stop)
            &&& !(forall|i: int| 0 <= i < board.n() ==> board.mines@[i] || #[trigger] stop.known_safe@[i])
            &&& simple_stuck(board, &stop)
            &&& number_frontier(board, &stop).len() <= SMALL_COMPONENT_CELLS ==> forall|x: usize|
                #[trigger] number_frontier(board, &stop).contains(x) ==> !numbers_force_safe(board, &stop, x as int)
                    && !numbers_force_mine(board, &stop, x as int)
            &&& frontier_forced(board, &stop) ==> unknown_set(board, &stop).subset_of(number_frontier(board, &stop))
        }
}

/// The same, for the board of `width` by `height` cells with these mines, neighbour counts
/// and mine total.
pub open spec fn stuck_on_simple_rules_on(
    width: usize,
    height: usize,
    mines: Seq<bool>,
    adjacent: Seq<u8>,
    mine_total: usize,
    first: usize,
) -> bool {
    exists|mv: Vec<bool>, av: Vec<u8>|
        #![trigger mv@, av@]
        mv@ == mines && av@ == adjacent && stuck_on_simple_rules(
            &(SolverBoard { width, height, mines: &mv, adjacent: &av, mine_total }),
            first,
        )
}

/// Mines, numbers and total agree: each number counts the mines around its cell, the total
/// counts all of them, and there are fewer than `usize::MAX` cells.
pub open spec fn real_board_on(width: usize, height: usize, mines: Seq<bool>, adjacent: Seq<u8>, mine_total: usize) -> bool {
    &&& width * height < usize::MAX
    &&& mine_total == count_true(mines)
    &&& forall|i: int|
        0 <= i < width * height && !mines[i] ==> #[trigger] adjacent[i] == mines_among(
            mines,
            neighbor_seq(width as int, height as int, i),
        ).len()
}

/// Whether a player who opens `first_reveal` can clear the board by deduction alone.
fn can_solve_from(board: &SolverBoard, first_reveal: usize) -> (b: bool)
    requires
        board.wf(),
    ensures
        b ==> first_reveal < board.n() && !board.mines@[first_reveal as int],
        clears_by_opening(board.width as int, board.height as int, board.mines@, board.adjacent@, first_reveal as int) ==> b,
        b ==> solvable_without_guessing(board, first_reveal),
        real_board(board) && first_reveal < board.n() && !board.mines@[first_reveal as int] && !b
            ==> stuck_on_simple_rules(board, first_reveal),
{
    let n = board.width * board.height;
    let mut know = Knowledge { known_safe: new_flags(n), known_mines: new_flags(n) };
    let ghost fresh = know;
    if first_reveal >= n || board.mines[first_reveal] {
        return false;
    }
    if !reveal_known_area(board, &mut know, first_reveal) {
        return false;
    }
    let ghost start = know;
    proof {
        assert(fresh.known_safe@ =~= Seq::new(board.n(), |i: int| false));
        assert(fresh.known_mines@ =~= Seq::new(board.n(), |i: int| false));
        assert(opened_first(board, first_reveal, start));
        lemma_reaches_refl(board, start);
    }
    proof {
        if clears_by_opening(board.width as int, board.height as int, board.mines@, board.adjacent@, first_reveal as int) {
            assert forall|i: int| 0 <= i < board.n() implies board.mines@[i] || #[trigger] know.known_safe@[i] by {
                if !board.mines@[i] {
                    let p = choose|p: Seq<usize>|
                        #[trigger] opening_chain(board.width as int, board.height as int, board.mines@, board.adjacent@, p)
                            && p[0] == first_reveal && p.last() == i;
                    assert(opening_path(board, &fresh, p));
                    assert(in_opening(board, &fresh, first_reveal, i as usize));
                    assert(know.known_safe@[(i as usize) as int]);
                }
            }
        }
    }
    loop
        invariant
            board.wf(),
            knowledge_ok(board, &know),
            first_reveal < board.n(),
            !board.mines@[first_reveal as int],
            clears_by_opening(board.width as int, board.height as int, board.mines@, board.adjacent@, first_reveal as int)
                ==> forall|i: int| 0 <= i < board.n() ==> board.mines@[i] || #[trigger] know.known_safe@[i],
            opened_first(board, first_reveal, start),
            reaches(board, start, know),
        decreases unknown_count(&know),
    {
        if all_safe_cells_known(board, &know) {
            proof {
                assert(reaches(board, start, know));
            }
            return true;
        }
        let ghost before = know;
        match apply_pass(board, &mut know) {
            Some(true) => {
                proof {
                    lemma_reaches_trans(board, start, before, know);
                }
            },
            _ => {
                proof {
                    if real_board(board) {
                        assert(simple_stuck(board, &before));
                        assert(frontier_forced(board, &before) ==> unknown_set(board, &before).subset_of(
                            number_frontier(board, &before),
                        ));
                        assert(number_frontier(board, &before).len() <= SMALL_COMPONENT_CELLS ==> forall|x: usize|
                            #[trigger] number_frontier(board, &before).contains(x) ==> !numbers_force_safe(
                                board,
                                &before,
                                x as int,
                            ) && !numbers_force_mine(board, &before, x as int));
                        assert(!(forall|i: int| 0 <= i < board.n() ==> board.mines@[i] || #[trigger] before.known_safe@[i]));
                        assert(stuck_on_simple_rules(board, first_reveal));
                    }
                }
                return false;
            },
        }
    }
}

/// Whether a board of `width` by `height` cells with the given mines, neighbour counts and
/// mine total can be cleared from `first_reveal` without guessing. Only a safe first cell
/// can succeed.
pub fn can_solve_without_guessing(
    width: usize,
    height: usize,
    mines: &Vec<bool>,
    adjacent: &Vec<u8>,
    mine_total: usize,
    first_reveal: usize,
) -> (b: bool)
    requires
        width > 0,
        height > 0,
        width * height <= usize::MAX,
        mines.len() == width * height,
        adjacent.len() == width * height,
    ensures
        b ==> first_reveal < width * height && !mines@[first_reveal as int],
        clears_by_opening(width as int, height as int, mines@, adjacent@, first_reveal as int) ==> b,
        b ==> solvable_without_guessing_on(width, height, mines@, adjacent@, mine_total, first_reveal),
        real_board_on(width, height, mines@, adjacent@, mine_total) && first_reveal < width * height
            && !mines@[first_reveal as int] && !b ==> stuck_on_simple_rules_on(
            width,
            height,
            mines@,
            adjacent@,
            mine_total,
            first_reveal,
        ),
{
    let board = SolverBoard { width, height, mines, adjacent, mine_total };
    let b = can_solve_from(&board, first_reveal);
    proof {
        let mv = *mines;
        let av = *adjacent;
        assert(mv@ == mines@ && av@ == adjacent@);
        if b {
            assert(solvable_without_guessing(&board, first_reveal));
        }
        if real_board_on(width, height, mines@, adjacent@, mine_total) {
            assert(real_board(&board));
        }
    }
    b
}


/// Counting the flags at distinct listed cells gives the size of the set of flagged ones.
proof fn lemma_count_flagged_among(flags: Seq<bool>, idxs: Seq<usize>)
    requires
        idxs.no_duplicates(),
        forall|k: int| 0 <= k < idxs.len() ==> (#[trigger] idxs[k]) < flags.len(),
    ensures
        count_flagged(flags, idxs) == mines_among(flags, idxs).len(),
    decreases idxs.len(),
{
    lemma_flagged_choice(flags, idxs);
    lemma_choice_count(flags, idxs);
}

proof fn lemma_flagged_choice(flags: Seq<bool>, idxs: Seq<usize>)
    ensures
        count_flagged(flags, idxs) == count_true(cells_choice(flags, idxs)),
    decreases idxs.len(),
{
    if idxs.len() > 0 {
        lemma_flagged_choice(flags, idxs.drop_last());
        assert(cells_choice(flags, idxs).drop_last() =~= cells_choice(flags, idxs.drop_last()));
    }
}

/// The layout, numbers and mine count of a board whose mines are placed agree.
pub proof fn lemma_placed_board_real(board: &MinesweeperBoard)
    requires
        board.wf(),
        board.placed(),
        board.n() < usize::MAX,
    ensures
        real_board_on(
            board.w() as usize,
            board.h() as usize,
            board.mine_map(),
            board.adjacency(),
            count_true(board.mine_map()) as usize,
        ),
{
    board.lemma_consistent();
    let w = board.w() as int;
    let h = board.h() as int;
    let m = board.mine_map();
    lemma_count_true_bound(m);
    assert(w <= w * h && h <= w * h) by (nonlinear_arith)
        requires
            w >= 1,
            h >= 1,
    ;
    assert((board.w() as usize) as int == w && (board.h() as usize) as int == h);
    assert(count_true(m) as usize == count_true(m));
    assert forall|i: int|
        0 <= i < w * h && !m[i] implies #[trigger] board.adjacency()[i] == mines_among(m, neighbor_seq(w, h, i)).len() by {
        let nb = neighbor_seq(w, h, i);
        lemma_neighbor_seq_sorted(w, h, i);
        lemma_neighbor_seq_bound(w, h, i);
        lemma_neighbor_seq_len(w, h, i);
        lemma_sorted_no_duplicates(nb);
        lemma_count_flagged_among(m, nb);
        lemma_mines_among_bound(m, nb);
        assert(board.adjacency()[i] == adjacent_spec(w, h, m, i));
    }
}

/// Whether a player who opens `first_reveal` on `board` can clear it by deduction alone,
/// working from the board's layout, neighbour counts and mine count. Only a safe cell on the
/// board can be such a start.
pub fn can_solve_without_guessing_from(board: &MinesweeperBoard, first_reveal: usize) -> (b: bool)
    requires
        board.wf(),
    ensures
        b ==> first_reveal < board.n() && !board.mine_map()[first_reveal as int],
        clears_by_opening(board.w() as int, board.h() as int, board.mine_map(), board.adjacency(), first_reveal as int)
            ==> b,
        b ==> solvable_without_guessing_on(
            board.w() as usize,
            board.h() as usize,
            board.mine_map(),
            board.adjacency(),
            (if board.placed() {
                count_true(board.mine_map())
            } else {
                board.pending_mine_count() as nat
            }) as usize,
            first_reveal,
        ),
        board.placed() && board.n() < usize::MAX && first_reveal < board.n() && !board.mine_map()[first_reveal as int]
            && !b ==> stuck_on_simple_rules_on(
            board.w() as usize,
            board.h() as usize,
            board.mine_map(),
            board.adjacency(),
            count_true(board.mine_map()) as usize,
            first_reveal,
        ),
{
    proof {
        if board.placed() && board.n() < usize::MAX {
            lemma_placed_board_real(board);
        }
    }
    let width = board.width();
    let height = board.height();
    let n = board.cell_count();
    proof {
        board.lemma_consistent();
    }
    let mut mines: Vec<bool> = Vec::new();
    let mut adjacent: Vec<u8> = Vec::new();
    let mut i: usize = 0;
    while i < n
        invariant
            board.wf(),
            n == board.n(),
            i <= n,
            mines.len() == i,
            adjacent.len() == i,
            forall|k: int| 0 <= k < i ==> #[trigger] mines@[k] == board.mine_map()[k],
            forall|k: int| 0 <= k < i ==> #[trigger] adjacent@[k] == board.adjacency()[k],
        decreases n - i,
    {
        mines.push(board.is_mine(i));
        adjacent.push(board.adjacent_mines(i));
        i = i + 1;
    }
    proof {
        assert(mines@ =~= board.mine_map());
        assert(adjacent@ =~= board.adjacency());
    }
    can_solve_without_guessing(width, height, &mines, &adjacent, board.mine_count(), first_reveal)
}

} // verus!
