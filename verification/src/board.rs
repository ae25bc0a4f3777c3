//! The mathematical model of a candidate board, and what propagation means
//! on it.
//!
//! A board is a sequence of 81 sets of digits, one per cell in row-major
//! order. Everything here is ghost, definitions and proofs; the code that
//! works on boards is in `solver`.

use crate::candidates::{all_digits, inhabited, only_holds, single};
use vstd::prelude::*;
use vstd::set_lib::*;

verus! {

/// Two different cells that share a row, a column or a 3×3 box.
pub open spec fn peers(i: int, j: int) -> bool {
    &&& 0 <= i < 81
    &&& 0 <= j < 81
    &&& i != j
    &&& (i / 9 == j / 9 || i % 9 == j % 9 || ((i / 9) / 3 == (j / 9) / 3 && (i % 9) / 3 == (j % 9)
        / 3))
}

/// Every cell holds digits `0..9` only.
pub open spec fn well_formed(b: Seq<Set<int>>) -> bool {
    &&& b.len() == 81
    &&& forall|i: int| 0 <= i < 81 ==> (#[trigger] b[i]).subset_of(all_digits())
}

/// Cell by cell, `a` holds no candidate that `b` lacks.
pub open spec fn below(a: Seq<Set<int>>, b: Seq<Set<int>>) -> bool {
    &&& a.len() == 81
    &&& b.len() == 81
    &&& forall|i: int, d: int| 0 <= i < 81 && #[trigger] a[i].contains(d) ==> b[i].contains(d)
}

/// No cell is left without a candidate.
pub open spec fn valid(b: Seq<Set<int>>) -> bool {
    forall|i: int| 0 <= i < 81 ==> inhabited(#[trigger] b[i])
}

/// Every cell has exactly one candidate.
pub open spec fn decided(b: Seq<Set<int>>) -> bool {
    forall|i: int| 0 <= i < 81 ==> single(#[trigger] b[i])
}

/// If cell `i` is down to one digit, none of its peers holds that digit any more.
pub open spec fn settled(b: Seq<Set<int>>, i: int) -> bool {
    forall|j: int, d: int|
        only_holds(b[i], d) && peers(i, j) ==> !(#[trigger] b[j].contains(d))
}

/// Propagation has run to its end: every decided cell has been applied to its peers.
pub open spec fn propagated(b: Seq<Set<int>>) -> bool {
    &&& well_formed(b)
    &&& forall|i: int| 0 <= i < 81 ==> #[trigger] settled(b, i)
}

/// A board that propagation leaves alone and that has not run into a
/// contradiction.
pub open spec fn stable(b: Seq<Set<int>>) -> bool {
    &&& propagated(b)
    &&& valid(b)
}

/// None of the cells in `targets` holds `d`.
pub open spec fn avoids(b: Seq<Set<int>>, targets: Set<int>, d: int) -> bool {
    forall|j: int| 0 <= j < 81 && targets.contains(j) ==> !(#[trigger] b[j].contains(d))
}

/// What removing `d` from the cells in `targets`, with the cascade that
/// follows, does to a board: candidates only go away; `d` is gone from the
/// targets; a cell that was settled stays settled; and no stable board that
/// lies below the old one and already avoids `d` in the targets is cut into.
pub open spec fn pruned(
    old_b: Seq<Set<int>>,
    targets: Set<int>,
    d: int,
    new_b: Seq<Set<int>>,
) -> bool {
    &&& well_formed(new_b)
    &&& below(new_b, old_b)
    &&& avoids(new_b, targets, d)
    &&& forall|c: int| 0 <= c < 81 && settled(old_b, c) ==> #[trigger] settled(new_b, c)
    &&& forall|t: Seq<Set<int>>|
        #[trigger] stable(t) && below(t, old_b) && avoids(t, targets, d) ==> below(t, new_b)
}

/// The number of candidates in the first `n` cells.
pub open spec fn weight_upto(b: Seq<Set<int>>, n: int) -> nat
    decreases n,
{
    if n <= 0 {
        0
    } else {
        weight_upto(b, n - 1) + b[n - 1].len()
    }
}

/// The number of candidates on the whole board.
pub open spec fn weight(b: Seq<Set<int>>) -> nat {
    weight_upto(b, 81)
}

/// The nine digits form a finite set of size nine.
pub proof fn lemma_all_digits()
    ensures
        all_digits().finite(),
        all_digits().len() == 9,
{
    lemma_int_range(0, 9);
    assert(all_digits() =~= set_int_range(0, 9));
}

/// The cells of a well-formed board are finite sets of at most nine digits.
pub proof fn lemma_cell_finite(b: Seq<Set<int>>, i: int)
    requires
        well_formed(b),
        0 <= i < 81,
    ensures
        b[i].finite(),
        b[i].len() <= 9,
        forall|d: int| b[i].contains(d) ==> 0 <= d < 9,
{
    lemma_all_digits();
    assert(b[i].subset_of(all_digits()));
    lemma_len_subset(b[i], all_digits());
}

/// A board below a well-formed board is well formed.
pub proof fn lemma_below_well_formed(a: Seq<Set<int>>, b: Seq<Set<int>>)
    requires
        well_formed(b),
        below(a, b),
    ensures
        well_formed(a),
{
    assert forall|i: int| 0 <= i < 81 implies (#[trigger] a[i]).subset_of(all_digits()) by {
        assert(b[i].subset_of(all_digits()));
        assert forall|d: int| a[i].contains(d) implies all_digits().contains(d) by {
            assert(b[i].contains(d));
        }
    }
}

/// Each cell of a board is a subset of the same cell of a board above it.
pub proof fn lemma_below_cell(a: Seq<Set<int>>, b: Seq<Set<int>>, i: int)
    requires
        below(a, b),
        0 <= i < 81,
    ensures
        a[i].subset_of(b[i]),
{
    assert forall|d: int| a[i].contains(d) implies b[i].contains(d) by {}
}

/// Taking candidates away never adds weight.
pub proof fn lemma_weight_below(a: Seq<Set<int>>, b: Seq<Set<int>>, n: int)
    requires
        well_formed(b),
        below(a, b),
        0 <= n <= 81,
    ensures
        weight_upto(a, n) <= weight_upto(b, n),
    decreases n,
{
    if n > 0 {
        lemma_weight_below(a, b, n - 1);
        lemma_cell_finite(b, n - 1);
        lemma_below_cell(a, b, n - 1);
        lemma_len_subset(a[n - 1], b[n - 1]);
    }
}

/// Taking candidates away, and at least one of them from cell `i`, loses weight.
pub proof fn lemma_weight_strict(a: Seq<Set<int>>, b: Seq<Set<int>>, i: int, n: int)
    requires
        well_formed(b),
        below(a, b),
        0 <= i < 81,
        a[i].len() < b[i].len(),
        0 <= n <= 81,
    ensures
        weight_upto(a, n) <= weight_upto(b, n),
        i < n ==> weight_upto(a, n) < weight_upto(b, n),
    decreases n,
{
    if n > 0 {
        lemma_weight_strict(a, b, i, n - 1);
        lemma_cell_finite(b, n - 1);
        lemma_below_cell(a, b, n - 1);
        lemma_len_subset(a[n - 1], b[n - 1]);
    }
}

/// `below` is transitive.
pub proof fn lemma_below_trans(a: Seq<Set<int>>, b: Seq<Set<int>>, c: Seq<Set<int>>)
    requires
        below(a, b),
        below(b, c),
    ensures
        below(a, c),
{
    assert forall|i: int, d: int|
        0 <= i < 81 && #[trigger] a[i].contains(d) implies c[i].contains(d) by {
        assert(b[i].contains(d));
    }
}

/// Pruning nothing leaves the board as it is.
pub proof fn lemma_pruned_nothing(b: Seq<Set<int>>, d: int)
    requires
        well_formed(b),
    ensures
        pruned(b, Set::<int>::empty(), d, b),
{
}

/// Two prunings in a row are one pruning of both target sets.
pub proof fn lemma_pruned_chain(
    a: Seq<Set<int>>,
    t1: Set<int>,
    b: Seq<Set<int>>,
    t2: Set<int>,
    c: Seq<Set<int>>,
    d: int,
)
    requires
        pruned(a, t1, d, b),
        pruned(b, t2, d, c),
    ensures
        pruned(a, t1.union(t2), d, c),
{
    lemma_below_trans(c, b, a);
    assert forall|j: int|
        0 <= j < 81 && t1.union(t2).contains(j) implies !(#[trigger] c[j].contains(d)) by {
        if t1.contains(j) {
            assert(!b[j].contains(d));
        }
    }
    assert forall|c0: int| 0 <= c0 < 81 && settled(a, c0) implies #[trigger] settled(c, c0) by {
        assert(settled(b, c0));
    }
    assert forall|t: Seq<Set<int>>|
        #[trigger] stable(t) && below(t, a) && avoids(t, t1.union(t2), d) implies below(t, c) by {
        assert(avoids(t, t1, d));
        assert(below(t, b));
        assert(avoids(t, t2, d));
    }
}

/// Cell `m` is the first, in row-major order, of the cells with the fewest
/// candidates among those that still have more than one.
pub open spec fn first_least_open(b: Seq<Set<int>>, m: int) -> bool {
    &&& 0 <= m < 81
    &&& b[m].len() > 1
    &&& forall|j: int|
        0 <= j < 81 && (#[trigger] b[j]).len() > 1 ==> b[m].len() <= b[j].len() && (j < m
            ==> b[m].len() < b[j].len())
}

/// No cell has more than one candidate left.
pub open spec fn none_open(b: Seq<Set<int>>) -> bool {
    forall|i: int| 0 <= i < 81 ==> (#[trigger] b[i]).len() <= 1
}

/// A decided stable board below `b`: the boards that the search looks for.
pub open spec fn solves(t: Seq<Set<int>>, b: Seq<Set<int>>) -> bool {
    &&& stable(t)
    &&& decided(t)
    &&& below(t, b)
}

/// The positions of the peers of cell `i`.
pub open spec fn peer_set(i: int) -> Set<int> {
    Set::new(|j: int| peers(i, j))
}

/// What removing `d` from cell `i` does to a board: nothing where the cell
/// does not hold `d`; else the cell loses `d`, and where that leaves it with a
/// single digit, that digit is pruned from the cell's peers.
pub open spec fn eliminated(old_b: Seq<Set<int>>, i: int, d: int, new_b: Seq<Set<int>>) -> bool {
    let mid = old_b.update(i, old_b[i].remove(d));
    if !old_b[i].contains(d) {
        new_b == old_b
    } else if single(mid[i]) {
        forall|w: int| only_holds(mid[i], w) ==> pruned(mid, peer_set(i), w, new_b)
    } else {
        new_b == mid
    }
}

/// What forcing cell `i` to the digit `d` does to a board: the cell is
/// overwritten with `{d}`, and `d` is pruned from its peers.
pub open spec fn assigned(old_b: Seq<Set<int>>, i: int, d: int, new_b: Seq<Set<int>>) -> bool {
    pruned(old_b.update(i, Set::<int>::empty().insert(d)), peer_set(i), d, new_b)
}

/// A stable board below a board whose cell `i` is `{w}` holds `{w}` there, and
/// so avoids `w` in all the peers of `i`.
pub proof fn lemma_stable_avoids(t: Seq<Set<int>>, b: Seq<Set<int>>, i: int, w: int)
    requires
        stable(t),
        below(t, b),
        0 <= i < 81,
        only_holds(b[i], w),
    ensures
        only_holds(t[i], w),
        avoids(t, peer_set(i), w),
{
    assert(inhabited(t[i]));
    let e = choose|e: int| t[i].contains(e);
    assert(b[i].contains(e));
    assert(only_holds(t[i], w)) by {
        assert forall|f: int| t[i].contains(f) implies f == w by {
            assert(b[i].contains(f));
        }
    }
    assert(settled(t, i));
    assert forall|j: int|
        0 <= j < 81 && peer_set(i).contains(j) implies !(#[trigger] t[j].contains(w)) by {
        assert(peers(i, j));
    }
}

/// Once a digit is pruned from the peers of a cell that held only that digit,
/// the cell is settled.
pub proof fn lemma_source_settled(old_b: Seq<Set<int>>, i: int, w: int, new_b: Seq<Set<int>>)
    requires
        0 <= i < 81,
        only_holds(old_b[i], w),
        pruned(old_b, peer_set(i), w, new_b),
    ensures
        settled(new_b, i),
        forall|t: Seq<Set<int>>| #[trigger] stable(t) && below(t, old_b) ==> below(t, new_b),
{
    assert forall|j: int, d: int|
        only_holds(new_b[i], d) && peers(i, j) implies !(#[trigger] new_b[j].contains(d)) by {
        assert(new_b[i].contains(d));
        assert(old_b[i].contains(d));
        assert(d == w);
        assert(peer_set(i).contains(j));
    }
    assert forall|t: Seq<Set<int>>|
        #[trigger] stable(t) && below(t, old_b) implies below(t, new_b) by {
        lemma_stable_avoids(t, old_b, i, w);
    }
}

/// Removing a digit from a cell that is then neither single nor in need of
/// a cascade prunes the digit from that cell.
pub proof fn lemma_no_cascade(old_b: Seq<Set<int>>, i: int, d: int)
    requires
        well_formed(old_b),
        0 <= i < 81,
        !single(old_b[i].remove(d)),
    ensures
        pruned(old_b, Set::<int>::empty().insert(i), d, old_b.update(i, old_b[i].remove(d))),
{
    let mid = old_b.update(i, old_b[i].remove(d));
    assert(well_formed(mid)) by {
        assert forall|k: int| 0 <= k < 81 implies (#[trigger] mid[k]).subset_of(all_digits()) by {
            assert(old_b[k].subset_of(all_digits()));
        }
    }
    assert(below(mid, old_b));
    assert forall|c: int| 0 <= c < 81 && settled(old_b, c) implies #[trigger] settled(mid, c) by {
        lemma_settled_shrunk(old_b, mid, c);
    }
    assert forall|t: Seq<Set<int>>|
        #[trigger] stable(t) && below(t, old_b) && avoids(t, Set::<int>::empty().insert(i), d)
        implies below(t, mid) by {
        assert(!t[i].contains(d));
    }
}

/// A settled cell stays settled where the board shrinks but the cell itself
/// does not become single anew.
pub proof fn lemma_settled_shrunk(old_b: Seq<Set<int>>, new_b: Seq<Set<int>>, c: int)
    requires
        below(new_b, old_b),
        0 <= c < 81,
        settled(old_b, c),
        single(new_b[c]) ==> new_b[c] == old_b[c],
    ensures
        settled(new_b, c),
{
    assert forall|j: int, e: int|
        only_holds(new_b[c], e) && peers(c, j) implies !(#[trigger] new_b[j].contains(e)) by {
        assert(single(new_b[c]));
        assert(only_holds(old_b[c], e));
        assert(!old_b[j].contains(e));
    }
}

/// Removing a digit from a cell, and pruning the one digit that is left from
/// the cell's peers, prunes the first digit from that cell.
pub proof fn lemma_cascade(old_b: Seq<Set<int>>, i: int, d: int, w: int, new_b: Seq<Set<int>>)
    requires
        well_formed(old_b),
        0 <= i < 81,
        only_holds(old_b[i].remove(d), w),
        pruned(old_b.update(i, old_b[i].remove(d)), peer_set(i), w, new_b),
    ensures
        pruned(old_b, Set::<int>::empty().insert(i), d, new_b),
{
    let mid = old_b.update(i, old_b[i].remove(d));
    assert(below(mid, old_b));
    lemma_below_trans(new_b, mid, old_b);
    lemma_source_settled(mid, i, w, new_b);
    assert(avoids(new_b, Set::<int>::empty().insert(i), d)) by {
        assert(!mid[i].contains(d));
    }
    assert forall|c: int| 0 <= c < 81 && settled(old_b, c) implies #[trigger] settled(new_b, c) by {
        if c != i {
            lemma_settled_shrunk(old_b, mid, c);
            assert(settled(mid, c));
        }
    }
    assert forall|t: Seq<Set<int>>|
        #[trigger] stable(t) && below(t, old_b) && avoids(t, Set::<int>::empty().insert(i), d)
        implies below(t, new_b) by {
        assert(!t[i].contains(d));
        assert(below(t, mid));
    }
}

/// Forcing a cell of a propagated board to a digit leaves a propagated board.
pub proof fn lemma_assigned_propagated(old_b: Seq<Set<int>>, i: int, d: int, new_b: Seq<Set<int>>)
    requires
        propagated(old_b),
        0 <= i < 81,
        assigned(old_b, i, d, new_b),
    ensures
        propagated(new_b),
{
    let mid = old_b.update(i, Set::<int>::empty().insert(d));
    assert(only_holds(mid[i], d));
    lemma_source_settled(mid, i, d, new_b);
    assert forall|c: int| 0 <= c < 81 implies #[trigger] settled(new_b, c) by {
        if c != i {
            assert(settled(old_b, c));
            if peers(c, i) && only_holds(old_b[c], d) {
                assert(peer_set(i).contains(c));
                assert(!new_b[c].contains(d));
                assert forall|j: int, e: int|
                    only_holds(new_b[c], e) && peers(c, j) implies
                    !(#[trigger] new_b[j].contains(e)) by {
                    assert(new_b[c].contains(e));
                    assert(mid[c].contains(e));
                }
            } else {
                assert(settled(mid, c)) by {
                    assert forall|j: int, e: int|
                        only_holds(mid[c], e) && peers(c, j) implies
                        !(#[trigger] mid[j].contains(e)) by {
                        assert(only_holds(old_b[c], e));
                        if j != i {
                            assert(!old_b[j].contains(e));
                        }
                    }
                }
            }
        }
    }
}

/// `r` is what propagation makes of the board `b`: a propagated board below
/// `b` that is above every stable board below `b`.
pub open spec fn settles(b: Seq<Set<int>>, r: Seq<Set<int>>) -> bool {
    &&& propagated(r)
    &&& below(r, b)
    &&& forall|t: Seq<Set<int>>| #[trigger] stable(t) && below(t, b) ==> below(t, r)
}

/// Some stable board below `b` holds `d` in cell `i`.
pub open spec fn kept(b: Seq<Set<int>>, i: int, d: int) -> bool {
    exists|t: Seq<Set<int>>| #[trigger] stable(t) && below(t, b) && t[i].contains(d)
}

/// The largest stable board below `b`: each cell holds the digits that some
/// stable board below `b` holds there. Where no stable board lies below `b`,
/// every cell is empty.
pub open spec fn closure(b: Seq<Set<int>>) -> Seq<Set<int>> {
    Seq::new(81, |i: int| Set::new(|d: int| kept(b, i, d)))
}

/// The closure of a board lies below the board.
pub proof fn lemma_closure_below(b: Seq<Set<int>>)
    requires
        b.len() == 81,
    ensures
        below(closure(b), b),
{
    let c = closure(b);
    assert forall|i: int, d: int|
        0 <= i < 81 && #[trigger] c[i].contains(d) implies b[i].contains(d) by {
        assert(kept(b, i, d));
        let t = choose|t: Seq<Set<int>>| #[trigger] stable(t) && below(t, b) && t[i].contains(d);
        assert(t[i].contains(d));
    }
}

/// Every stable board below a board lies below its closure.
pub proof fn lemma_closure_above(b: Seq<Set<int>>, t: Seq<Set<int>>)
    requires
        stable(t),
        below(t, b),
    ensures
        below(t, closure(b)),
{
    let c = closure(b);
    assert forall|i: int, d: int|
        0 <= i < 81 && #[trigger] t[i].contains(d) implies c[i].contains(d) by {
        assert(kept(b, i, d));
    }
}

/// Where a stable board lies below a board, the closure of the board is
/// stable.
pub proof fn lemma_closure_stable(b: Seq<Set<int>>, t: Seq<Set<int>>)
    requires
        stable(t),
        below(t, b),
    ensures
        stable(closure(b)),
{
    let c = closure(b);
    lemma_closure_above(b, t);
    assert forall|i: int| 0 <= i < 81 implies (#[trigger] c[i]).subset_of(all_digits()) by {
        assert forall|d: int| c[i].contains(d) implies all_digits().contains(d) by {
            assert(kept(b, i, d));
            let u = choose|u: Seq<Set<int>>|
                #[trigger] stable(u) && below(u, b) && u[i].contains(d);
            assert(u[i].subset_of(all_digits()));
        }
    }
    assert forall|i: int| 0 <= i < 81 implies inhabited(#[trigger] c[i]) by {
        assert(inhabited(t[i]));
        let e = choose|e: int| t[i].contains(e);
        assert(c[i].contains(e));
    }
    assert forall|i: int| 0 <= i < 81 implies #[trigger] settled(c, i) by {
        assert forall|j: int, d: int|
            only_holds(c[i], d) && peers(i, j) implies !(#[trigger] c[j].contains(d)) by {
            if c[j].contains(d) {
                assert(kept(b, j, d));
                let u = choose|u: Seq<Set<int>>|
                    #[trigger] stable(u) && below(u, b) && u[j].contains(d);
                lemma_closure_above(b, u);
                lemma_stable_avoids(u, c, i, d);
                assert(peer_set(i).contains(j));
            }
        }
    }
}

/// What propagation makes of a board is the board's closure, unless it has
/// run into a contradiction; then the closure is not valid either.
pub proof fn lemma_settles_closure(b: Seq<Set<int>>, r: Seq<Set<int>>)
    requires
        settles(b, r),
    ensures
        valid(r) ==> r == closure(b),
        !valid(r) ==> !valid(closure(b)),
{
    let c = closure(b);
    if valid(r) {
        assert(stable(r));
        lemma_closure_above(b, r);
        assert forall|i: int| 0 <= i < 81 implies #[trigger] r[i] == c[i] by {
            assert forall|d: int| c[i].contains(d) implies r[i].contains(d) by {
                assert(kept(b, i, d));
                let u = choose|u: Seq<Set<int>>|
                    #[trigger] stable(u) && below(u, b) && u[i].contains(d);
                assert(below(u, r));
            }
            assert forall|d: int| r[i].contains(d) implies c[i].contains(d) by {}
            assert(r[i] =~= c[i]);
        }
        assert(r =~= c);
    } else {
        if valid(c) {
            assert(inhabited(c[0]));
            let d = choose|d: int| c[0].contains(d);
            assert(kept(b, 0, d));
            let u = choose|u: Seq<Set<int>>|
                #[trigger] stable(u) && below(u, b) && u[0].contains(d);
            assert(below(u, r));
            assert forall|k: int| 0 <= k < 81 implies inhabited(#[trigger] r[k]) by {
                assert(inhabited(u[k]));
                let e = choose|e: int| u[k].contains(e);
                assert(r[k].contains(e));
            }
        }
    }
}

/// Forcing a digit into a cell of a propagated board settles the board that
/// has the cell overwritten.
pub proof fn lemma_assigned_settles(old_b: Seq<Set<int>>, i: int, d: int, new_b: Seq<Set<int>>)
    requires
        propagated(old_b),
        0 <= i < 81,
        assigned(old_b, i, d, new_b),
    ensures
        settles(old_b.update(i, Set::<int>::empty().insert(d)), new_b),
{
    let mid = old_b.update(i, Set::<int>::empty().insert(d));
    assert(only_holds(mid[i], d));
    lemma_assigned_propagated(old_b, i, d, new_b);
    lemma_source_settled(mid, i, d, new_b);
}

/// Removing a digit from a cell of a propagated board settles the board
/// that has the digit taken out of the cell.
pub proof fn lemma_eliminated_settles(old_b: Seq<Set<int>>, i: int, d: int, new_b: Seq<Set<int>>)
    requires
        propagated(old_b),
        0 <= i < 81,
        eliminated(old_b, i, d, new_b),
        pruned(old_b, Set::<int>::empty().insert(i), d, new_b),
    ensures
        settles(old_b.update(i, old_b[i].remove(d)), new_b),
{
    let mid = old_b.update(i, old_b[i].remove(d));
    assert(below(new_b, mid)) by {
        if !old_b[i].contains(d) {
            assert(old_b[i].remove(d) =~= old_b[i]);
            assert(mid =~= old_b);
        } else if single(mid[i]) {
            let w = choose|w: int| only_holds(mid[i], w);
            assert(pruned(mid, peer_set(i), w, new_b));
        }
    }
    assert forall|t: Seq<Set<int>>|
        #[trigger] stable(t) && below(t, mid) implies below(t, new_b) by {
        assert(below(mid, old_b));
        lemma_below_trans(t, mid, old_b);
        assert(avoids(t, Set::<int>::empty().insert(i), d)) by {
            if t[i].contains(d) {
                assert(mid[i].contains(d));
            }
        }
    }
}

/// Applying a decided cell to its peers settles the board, if every other
/// cell was settled before.
pub proof fn lemma_propagated_settles(old_b: Seq<Set<int>>, i: int, w: int, new_b: Seq<Set<int>>)
    requires
        well_formed(old_b),
        0 <= i < 81,
        only_holds(old_b[i], w),
        forall|c: int| 0 <= c < 81 && c != i ==> #[trigger] settled(old_b, c),
        pruned(old_b, peer_set(i), w, new_b),
    ensures
        settles(old_b, new_b),
{
    lemma_source_settled(old_b, i, w, new_b);
}

} // verus!
