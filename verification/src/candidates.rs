//! Candidate sets: the digits that are still possible for one cell, held in a
//! `smallbitset::Set16`.

use crate::single::Single;
use smallbitset::Set16;
use vstd::prelude::*;

verus! {

/// `smallbitset::Set16`: a set of small numbers, kept as the bits of one
/// 16-bit block. Nothing of its inside is seen here.
#[verifier::external_type_specification]
#[verifier::external_body]
pub struct ExSet16(Set16);

/// The items that a `Set16` holds: the positions of the bits that are set.
pub uninterp spec fn members(s: Set16) -> Set<int>;

/// `Set16::empty`: the set that holds nothing.
pub assume_specification[ Set16::empty ]() -> (r: Set16)
    ensures
        members(r) == Set::<int>::empty(),
;

/// `Set16::singleton`: the set that holds `x` and nothing else. An item of 16
/// or more lies outside the set's one 16-bit block, and the call panics.
pub assume_specification[ Set16::singleton ](x: usize) -> (r: Set16)
    requires
        x < 16,
    ensures
        members(r) == Set::<int>::empty().insert(x as int),
;

/// `Set16::union`: holds what either set holds.
pub assume_specification[ Set16::union ](s: Set16, other: Set16) -> (r: Set16)
    ensures
        members(r) == members(s).union(members(other)),
;

/// `Set16::remove`: the same set without `x`. An item of 16 or more lies
/// outside the set's one 16-bit block, and the call panics.
pub assume_specification[ Set16::remove ](s: Set16, x: usize) -> (r: Set16)
    requires
        x < 16,
    ensures
        members(r) == members(s).remove(x as int),
;

/// `Set16::len`: the number of items held.
pub assume_specification[ Set16::len ](s: Set16) -> (r: usize)
    ensures
        r == members(s).len(),
;

/// `Set16::is_empty`: whether the set holds nothing.
pub assume_specification[ Set16::is_empty ](s: Set16) -> (r: bool)
    ensures
        r <==> members(s) =~= Set::<int>::empty(),
;

/// `Set16`'s `==`: two sets are equal exactly when they hold the same items.
#[verifier::external_body]
pub(crate) fn same(a: Set16, b: Set16) -> (r: bool)
    ensures
        r <==> members(a) == members(b),
{
    a == b
}

/// The items come from the smallest to the largest.
pub open spec fn ascending(items: Seq<usize>) -> bool {
    forall|i: int, j: int| 0 <= i < j < items.len() ==> items[i] < items[j]
}

/// `items` counts up what `set` holds: each of its items once, in ascending order.
pub open spec fn lists(items: Seq<usize>, set: Set<int>) -> bool {
    &&& ascending(items)
    &&& forall|i: int| 0 <= i < items.len() ==> set.contains(#[trigger] items[i] as int)
    &&& forall|d: int|
        set.contains(d) ==> exists|i: int| 0 <= i < items.len() && #[trigger] items[i] as int == d
}

/// `Set16::iter`: yields the items held, each once, from the smallest to the
/// largest.
#[verifier::external_body]
pub(crate) fn digits(s: Set16) -> (r: Vec<usize>)
    ensures
        lists(r@, members(s)),
{
    s.iter().collect()
}

/// The set `s` is exactly `{d}`.
pub open spec fn only_holds(s: Set<int>, d: int) -> bool {
    &&& s.contains(d)
    &&& forall|e: int| s.contains(e) ==> e == d
}

/// The set holds at least one digit.
pub open spec fn inhabited(s: Set<int>) -> bool {
    exists|d: int| s.contains(d)
}

/// The set holds exactly one digit.
pub open spec fn single(s: Set<int>) -> bool {
    exists|d: int| only_holds(s, d)
}

/// The digits `0..9`, as a set.
pub open spec fn all_digits() -> Set<int> {
    Set::new(|d: int| 0 <= d < 9)
}

/// A set that can be counted up is finite and as large as its listing is long.
pub proof fn lemma_lists_len(items: Seq<usize>, set: Set<int>)
    requires
        lists(items, set),
    ensures
        set.finite(),
        set.len() == items.len(),
{
    let ints = items.map_values(|u: usize| u as int);
    assert(ints.no_duplicates()) by {
        assert forall|i: int, j: int|
            0 <= i < ints.len() && 0 <= j < ints.len() && i != j implies ints[i] != ints[j] by {
            if i < j {
                assert(items[i] < items[j]);
            } else {
                assert(items[j] < items[i]);
            }
        }
    }
    ints.unique_seq_to_set();
    vstd::seq_lib::seq_to_set_is_finite(ints);
    assert(ints.to_set() =~= set) by {
        assert forall|d: int| ints.to_set().contains(d) implies set.contains(d) by {
            let i = choose|i: int| 0 <= i < ints.len() && ints[i] == d;
            assert(set.contains(items[i] as int));
        }
        assert forall|d: int| set.contains(d) implies ints.to_set().contains(d) by {
            let i = choose|i: int| 0 <= i < items.len() && #[trigger] items[i] as int == d;
            assert(ints[i] == d);
        }
    }
}

/// The set of all nine digits, built by joining the nine singletons.
pub fn full_set() -> (r: Set16)
    ensures
        members(r) == all_digits(),
{
    let mut acc = Set16::empty();
    let mut v: usize = 0;
    while v < 9
        invariant
            v <= 9,
            members(acc) =~= Set::new(|d: int| 0 <= d < v),
        decreases 9 - v,
    {
        acc = acc.union(Set16::singleton(v));
        v += 1;
    }
    acc
}

/// A finite set is single exactly when its size is one.
pub proof fn lemma_single_len(s: Set<int>)
    requires
        s.finite(),
    ensures
        single(s) <==> s.len() == 1,
        inhabited(s) <==> s.len() > 0,
{
    vstd::set_lib::lemma_set_empty_equivalency_len(s);
    Set::lemma_is_singleton(s);
    if single(s) {
        let d = choose|d: int| only_holds(s, d);
        assert(s.contains(d));
        assert(s.len() != 0) by {
            if s.len() == 0 {
                assert(s == Set::<int>::empty());
            }
        }
        assert(s.is_singleton());
    }
    if s.len() == 1 {
        assert(s.is_singleton());
        let d = choose|d: int| s.contains(d);
        assert(only_holds(s, d));
    }
    if s.len() > 0 {
        let d = choose|d: int| s.contains(d);
        assert(s.contains(d));
    }
    if inhabited(s) {
        let d = choose|d: int| s.contains(d);
        if s.len() == 0 {
            assert(s == Set::<int>::empty());
        }
    }
}

/// The one digit of a set that holds exactly one, `None` for any other set.
pub fn sole(s: Set16) -> (r: Option<usize>)
    ensures
        match r {
            Some(d) => only_holds(members(s), d as int),
            None => !single(members(s)),
        },
{
    let items = digits(s);
    proof {
        lemma_lists_len(items@, members(s));
        lemma_single_len(members(s));
        broadcast use vstd::std_specs::vec::axiom_spec_into_iter;
    }
    let ghost listed = items@;
    let r = items.into_iter().single();
    proof {
        if listed.len() == 1 {
            assert(members(s).contains(listed[0] as int));
            assert forall|e: int| members(s).contains(e) implies e == listed[0] as int by {
                let i = choose|i: int| 0 <= i < listed.len() && #[trigger] listed[i] as int == e;
            }
        }
    }
    r
}

} // verus!
