//! Taking the one item out of an iterator that yields exactly one.

use vstd::prelude::*;
use vstd::std_specs::iter::IteratorSpec;

verus! {

/// What `single` hands back for an iterator that is about to yield `items`.
pub open spec fn only<T>(items: Seq<T>) -> Option<T> {
    if items.len() == 1 {
        Some(items[0])
    } else {
        None
    }
}

/// Iterators that can be asked for their one and only item.
pub trait Single: Iterator + Sized {
    /// The iterator's item if it yields exactly one, `None` if it yields none
    /// or more than one.
    fn single(self) -> (r: Option<Self::Item>)
        ensures
            self.obeys_prophetic_iter_laws() ==> r == only(self.remaining()),
    ;
}

impl<I: Iterator> Single for I {
    fn single(self) -> (r: Option<Self::Item>) {
        let mut rest = self;
        match rest.next() {
            None => None,
            Some(element) => match rest.next() {
                None => Some(element),
                Some(_) => None,
            },
        }
    }
}

} // verus!
