//! What the search finds, as a function of the board it starts from.
//!
//! The search takes the first open cell with the fewest candidates and
//! tries its digits from the smallest to the largest; each digit is forced
//! into the cell, the board is propagated, and the search goes on from
//! there. The first board found is the result.

use crate::board::{
    below, closure, first_least_open, kept, lemma_below_trans, lemma_below_well_formed,
    lemma_cell_finite, lemma_closure_above, lemma_closure_below, lemma_closure_stable,
    lemma_weight_below, lemma_weight_strict, none_open, propagated, solves, stable, valid, weight,
    well_formed,
};
use crate::candidates::{inhabited, lemma_single_len, single};
use vstd::prelude::*;

verus! {

/// The cell that the search branches on.
pub open spec fn first_open(b: Seq<Set<int>>) -> int {
    choose|m: int| first_least_open(b, m)
}

/// The board after `d` is forced into cell `m` and propagated.
pub open spec fn branch(b: Seq<Set<int>>, m: int, d: int) -> Seq<Set<int>> {
    closure(b.update(m, Set::<int>::empty().insert(d)))
}

/// A branch weighs less than the board it starts from.
pub proof fn lemma_branch_lighter(b: Seq<Set<int>>, m: int, d: int)
    requires
        well_formed(b),
        first_least_open(b, m),
        b[m].contains(d),
    ensures
        weight(branch(b, m, d)) < weight(b),
{
    let one = Set::<int>::empty().insert(d);
    let mid = b.update(m, one);
    assert(below(mid, b));
    lemma_below_well_formed(mid, b);
    lemma_cell_finite(b, m);
    assert(one.len() == 1);
    lemma_weight_strict(mid, b, m, 81);
    lemma_closure_below(mid);
    lemma_weight_below(branch(b, m, d), mid, 81);
}

/// The board that the search finds from `b`, or `None` where it finds none.
pub open spec fn search(b: Seq<Set<int>>) -> Option<Seq<Set<int>>>
    decreases weight(b), 10int,
{
    if !well_formed(b) || !valid(b) {
        None
    } else if none_open(b) {
        Some(b)
    } else {
        try_from(b, first_open(b), 0)
    }
}

/// The board that the search finds from `b` with one of the digits from
/// `d` on in cell `m`.
pub open spec fn try_from(b: Seq<Set<int>>, m: int, d: int) -> Option<Seq<Set<int>>>
    decreases weight(b), 9 - d,
{
    if !(0 <= d < 9) || !well_formed(b) || !first_least_open(b, m) {
        None
    } else if b[m].contains(d) {
        proof {
            lemma_branch_lighter(b, m, d);
        }
        match search(branch(b, m, d)) {
            Some(found) => Some(found),
            None => try_from(b, m, d + 1),
        }
    } else {
        try_from(b, m, d + 1)
    }
}

/// Only one cell is the first open cell with the fewest candidates.
pub proof fn lemma_first_open(b: Seq<Set<int>>, m: int)
    requires
        first_least_open(b, m),
    ensures
        first_open(b) == m,
        !none_open(b),
{
    let n = first_open(b);
    assert(first_least_open(b, n));
    if n < m {
        assert(b[m].len() < b[n].len());
    }
    if m < n {
        assert(b[n].len() < b[m].len());
    }
}

/// Digits that the cell does not hold are passed over.
pub proof fn lemma_try_skip(b: Seq<Set<int>>, m: int, lo: int, hi: int)
    requires
        0 <= lo <= hi <= 9,
        well_formed(b),
        first_least_open(b, m),
        forall|d: int| lo <= d < hi ==> !b[m].contains(d),
    ensures
        try_from(b, m, lo) == try_from(b, m, hi),
    decreases hi - lo,
{
    if lo < hi {
        lemma_try_skip(b, m, lo + 1, hi);
    }
}

/// Among the first `n` cells, the first open cell with the fewest
/// candidates, or -1 where none of them is open.
pub open spec fn least_upto(b: Seq<Set<int>>, n: int) -> int
    decreases n,
{
    if n <= 0 {
        -1
    } else {
        let m = least_upto(b, n - 1);
        if b[n - 1].len() > 1 && (m < 0 || b[n - 1].len() < b[m].len()) {
            n - 1
        } else {
            m
        }
    }
}

/// `least_upto` finds the first open cell with the fewest candidates among
/// the first `n` cells.
pub proof fn lemma_least_upto(b: Seq<Set<int>>, n: int)
    requires
        0 <= n <= 81,
    ensures
        -1 <= least_upto(b, n) < n,
        least_upto(b, n) < 0 ==> forall|j: int| 0 <= j < n ==> (#[trigger] b[j]).len() <= 1,
        least_upto(b, n) >= 0 ==> {
            let m = least_upto(b, n);
            &&& b[m].len() > 1
            &&& forall|j: int|
                0 <= j < n && (#[trigger] b[j]).len() > 1 ==> b[m].len() <= b[j].len() && (j < m
                    ==> b[m].len() < b[j].len())
        },
    decreases n,
{
    if n > 0 {
        lemma_least_upto(b, n - 1);
    }
}

/// A board with an open cell has a first open cell with the fewest
/// candidates.
pub proof fn lemma_first_open_exists(b: Seq<Set<int>>)
    requires
        !none_open(b),
    ensures
        first_least_open(b, first_open(b)),
{
    lemma_least_upto(b, 81);
    let m = least_upto(b, 81);
    assert(first_least_open(b, m));
}

/// A valid closure is a stable board.
pub proof fn lemma_valid_closure(b: Seq<Set<int>>)
    requires
        valid(closure(b)),
    ensures
        stable(closure(b)),
{
    let c = closure(b);
    assert(inhabited(c[0]));
    let d = choose|d: int| c[0].contains(d);
    assert(kept(b, 0, d));
    let t = choose|t: Seq<Set<int>>| #[trigger] stable(t) && below(t, b) && t[0].contains(d);
    lemma_closure_stable(b, t);
}

/// The search is sound and complete: from a propagated board it finds a
/// decided stable board below it, and it finds none only where there is none.
pub proof fn lemma_search(b: Seq<Set<int>>)
    requires
        propagated(b),
    ensures
        match search(b) {
            Some(t) => solves(t, b),
            None => forall|t: Seq<Set<int>>| !solves(t, b),
        },
    decreases weight(b), 10int,
{
    if !valid(b) {
        assert forall|t: Seq<Set<int>>| !solves(t, b) by {
            if solves(t, b) {
                let i = choose|i: int| 0 <= i < 81 && !inhabited(#[trigger] b[i]);
                assert(inhabited(t[i]));
                let d = choose|d: int| t[i].contains(d);
                assert(b[i].contains(d));
            }
        }
    } else if none_open(b) {
        assert forall|i: int| 0 <= i < 81 implies single(#[trigger] b[i]) by {
            lemma_cell_finite(b, i);
            lemma_single_len(b[i]);
            assert(inhabited(b[i]));
        }
    } else {
        lemma_first_open_exists(b);
        lemma_try(b, first_open(b), 0);
    }
}

/// The search from digit `d` on in cell `m` finds a decided stable board
/// below `b`, and none only where there is none, if no such board has a
/// digit below `d` in cell `m`.
pub proof fn lemma_try(b: Seq<Set<int>>, m: int, d: int)
    requires
        propagated(b),
        first_least_open(b, m),
        0 <= d <= 9,
        forall|t: Seq<Set<int>>, e: int|
            #[trigger] solves(t, b) && 0 <= e < d ==> !(#[trigger] t[m].contains(e)),
    ensures
        match try_from(b, m, d) {
            Some(t) => solves(t, b),
            None => forall|t: Seq<Set<int>>| !solves(t, b),
        },
    decreases weight(b), 9 - d,
{
    if d == 9 {
        assert forall|t: Seq<Set<int>>| !solves(t, b) by {
            if solves(t, b) {
                assert(inhabited(t[m]));
                let e = choose|e: int| t[m].contains(e);
                lemma_cell_finite(t, m);
            }
        }
    } else {
        let one = Set::<int>::empty().insert(d);
        let mid = b.update(m, one);
        let br = branch(b, m, d);
        if b[m].contains(d) {
            lemma_branch_lighter(b, m, d);
            assert(below(mid, b));
            lemma_closure_below(mid);
            if valid(br) {
                lemma_valid_closure(mid);
                lemma_search(br);
            }
            match search(br) {
                Some(found) => {
                    lemma_below_trans(found, br, mid);
                    lemma_below_trans(found, mid, b);
                },
                None => {
                    assert forall|t: Seq<Set<int>>|
                        #[trigger] solves(t, b) implies !t[m].contains(d) by {
                        if t[m].contains(d) {
                            assert(single(t[m]));
                            assert(below(t, mid));
                            lemma_closure_above(mid, t);
                            lemma_closure_stable(mid, t);
                            assert(solves(t, br));
                        }
                    }
                    lemma_try(b, m, d + 1);
                },
            }
        } else {
            assert forall|t: Seq<Set<int>>| #[trigger] solves(t, b) implies !t[m].contains(d) by {
                if t[m].contains(d) {
                    assert(b[m].contains(d));
                }
            }
            lemma_try(b, m, d + 1);
        }
    }
}

} // verus!
