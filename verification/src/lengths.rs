//! The set of the tour lengths that a search has met.
use std::collections::BTreeSet;
use vstd::prelude::*;

verus! {

/// A set of lengths.
pub struct LengthSet {
    lengths: BTreeSet<u64>,
}

impl View for LengthSet {
    type V = Set<u64>;

    closed spec fn view(&self) -> Set<u64> {
        self.lengths@
    }
}

impl LengthSet {
    /// The empty set.
    pub fn new() -> (set: Self)
        ensures
            set@ == Set::<u64>::empty(),
    {
        LengthSet { lengths: BTreeSet::new() }
    }

    /// Adds `length` to the set and tells whether it was new to it.
    pub fn insert(&mut self, length: u64) -> (fresh: bool)
        ensures
            final(self)@ == old(self)@.insert(length),
            fresh == !old(self)@.contains(length),
    {
        broadcast use vstd::laws_cmp::group_laws_cmp;

        self.lengths.insert(length)
    }

    /// Whether `length` is in the set.
    pub fn contains(&self, length: u64) -> (found: bool)
        ensures
            found == self@.contains(length),
    {
        broadcast use vstd::laws_cmp::group_laws_cmp;
        broadcast use vstd::std_specs::btree::group_btree_axioms;

        self.lengths.contains(&length)
    }
}

} // verus!
