//! Laws that hold of candidate sets, boards and grids, each proved from the
//! model that the functions' contracts are stated over.

use crate::board::{
    assigned, below, decided, eliminated, lemma_all_digits, lemma_source_settled, peer_set,
    propagated, pruned, stable, valid,
};
use crate::candidates::{all_digits, inhabited, only_holds, single};
use crate::grid::{
    board_of, extends, is_solution, lemma_decided_solution, lemma_solution_of, lowered, raised,
    solution_of, the,
};
use vstd::prelude::*;

verus! {

/// Removing a digit from a set twice gives the same set as removing it
/// once.
pub proof fn law_set_remove_idempotent(s: Set<int>, d: int)
    ensures
        s.remove(d).remove(d) == s.remove(d),
{
    assert(s.remove(d).remove(d) =~= s.remove(d));
}

/// Removing a digit from a cell of a board twice gives the same board as
/// removing it once: the second removal finds nothing to do.
pub proof fn law_remove_idempotent(
    b0: Seq<Set<int>>,
    c: int,
    d: int,
    b1: Seq<Set<int>>,
    b2: Seq<Set<int>>,
)
    requires
        b0.len() == 81,
        0 <= c < 81,
        eliminated(b0, c, d, b1),
        eliminated(b1, c, d, b2),
    ensures
        b2 == b1,
        !b1[c].contains(d),
{
    let mid = b0.update(c, b0[c].remove(d));
    if b0[c].contains(d) && single(mid[c]) {
        let w = choose|w: int| only_holds(mid[c], w);
        assert(pruned(mid, peer_set(c), w, b1));
        if b1[c].contains(d) {
            assert(mid[c].contains(d));
        }
    }
}

/// The full set has nine digits, the empty set none, and a set of one digit
/// one.
pub proof fn law_counts(d: int)
    ensures
        all_digits().len() == 9,
        Set::<int>::empty().len() == 0,
        Set::<int>::empty().insert(d).len() == 1,
{
    lemma_all_digits();
}

/// A board is not valid exactly when one of its cells is empty.
pub proof fn law_valid_iff_no_cell_empty(b: Seq<Set<int>>)
    requires
        b.len() == 81,
    ensures
        !valid(b) <==> exists|i: int| 0 <= i < 81 && #[trigger] b[i] == Set::<int>::empty(),
{
    if !valid(b) {
        let i = choose|i: int| 0 <= i < 81 && !inhabited(#[trigger] b[i]);
        assert(b[i] =~= Set::<int>::empty());
    }
    if exists|i: int| 0 <= i < 81 && #[trigger] b[i] == Set::<int>::empty() {
        let i = choose|i: int| 0 <= i < 81 && #[trigger] b[i] == Set::<int>::empty();
        assert(!inhabited(b[i]));
    }
}

/// A decided stable board, shown as a grid and lowered again, is the same
/// board.
pub proof fn law_round_trip(b: Seq<Set<int>>, back: Seq<Set<int>>)
    requires
        stable(b),
        decided(b),
        lowered(raised(b), back),
    ensures
        back == b,
{
    let g = raised(b);
    let top = board_of(g);
    assert forall|i: int| 0 <= i < 81 implies #[trigger] top[i] == b[i] by {
        assert(single(b[i]));
        let d = the(b[i]);
        assert(b[i].subset_of(all_digits()));
        assert(all_digits().contains(d));
        assert(top[i] =~= b[i]);
    }
    assert(top =~= b);
    assert(below(b, back));
    assert forall|i: int| 0 <= i < 81 implies #[trigger] back[i] == b[i] by {
        assert forall|e: int| back[i].contains(e) implies b[i].contains(e) by {}
        assert forall|e: int| b[i].contains(e) implies back[i].contains(e) by {}
        assert(back[i] =~= b[i]);
    }
    assert(back =~= b);
}

/// Forcing a digit into a cell of a propagated board has one outcome where
/// it does not run into a contradiction: two boards that both come of it are
/// both valid or both not, and where they are valid they are the same board.
pub proof fn law_assign_determined(
    b: Seq<Set<int>>,
    i: int,
    d: int,
    r1: Seq<Set<int>>,
    r2: Seq<Set<int>>,
)
    requires
        propagated(b),
        0 <= i < 81,
        assigned(b, i, d, r1),
        assigned(b, i, d, r2),
    ensures
        valid(r1) == valid(r2),
        valid(r1) ==> r1 == r2,
{
    let mid = b.update(i, Set::<int>::empty().insert(d));
    assert(only_holds(mid[i], d));
    crate::board::lemma_assigned_propagated(b, i, d, r1);
    crate::board::lemma_assigned_propagated(b, i, d, r2);
    lemma_source_settled(mid, i, d, r1);
    lemma_source_settled(mid, i, d, r2);
    if valid(r1) {
        assert(stable(r1));
        assert(below(r1, r2));
        assert forall|k: int| 0 <= k < 81 implies inhabited(#[trigger] r2[k]) by {
            assert(inhabited(r1[k]));
            let e = choose|e: int| r1[k].contains(e);
            assert(r2[k].contains(e));
        }
        assert(stable(r2));
        assert(below(r2, r1));
        assert forall|k: int| 0 <= k < 81 implies #[trigger] r1[k] == r2[k] by {
            assert forall|e: int| r1[k].contains(e) implies r2[k].contains(e) by {}
            assert forall|e: int| r2[k].contains(e) implies r1[k].contains(e) by {}
            assert(r1[k] =~= r2[k]);
        }
        assert(r1 =~= r2);
    }
    if valid(r2) {
        assert(stable(r2));
        assert(below(r2, r1));
        assert forall|k: int| 0 <= k < 81 implies inhabited(#[trigger] r1[k]) by {
            assert(inhabited(r2[k]));
            let e = choose|e: int| r2[k].contains(e);
            assert(r1[k].contains(e));
        }
    }
}

/// The grid of a decided stable board has each digit exactly once in every
/// row, column and box.
pub proof fn law_found_is_solution(b: Seq<Set<int>>)
    requires
        stable(b),
        decided(b),
    ensures
        is_solution(raised(b)),
{
    lemma_decided_solution(b);
}

/// Solving is a function of the puzzle: two answers to the same puzzle are
/// the same.
pub proof fn law_solve_deterministic(
    puzzle: Seq<Option<u8>>,
    first: Option<Seq<Option<u8>>>,
    second: Option<Seq<Option<u8>>>,
)
    requires
        first == solution_of(puzzle),
        second == solution_of(puzzle),
    ensures
        first == second,
{
}

/// What solving gives is a solution: every row, column and box of it holds
/// each digit exactly once, and it keeps every digit of the puzzle. Solving
/// gives nothing only where the puzzle has no solution.
pub proof fn law_solve_sound_and_complete(puzzle: Seq<Option<u8>>)
    requires
        puzzle.len() == 81,
    ensures
        match solution_of(puzzle) {
            Some(g) => is_solution(g) && extends(g, puzzle),
            None => forall|g: Seq<Option<u8>>| !(is_solution(g) && extends(g, puzzle)),
        },
{
    lemma_solution_of(puzzle);
}

} // verus!
