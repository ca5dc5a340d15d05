//! Sets of data offsets.
use std::collections::BTreeSet;
use vstd::prelude::*;

verus! {

broadcast use vstd::laws_cmp::group_laws_cmp;

/// A set of data offsets.
pub struct OffsetSet {
    inner: BTreeSet<u32>,
}

impl View for OffsetSet {
    type V = Set<int>;

    closed spec fn view(&self) -> Set<int> {
        Set::new(|i: int| 0 <= i <= u32::MAX && self.inner@.contains(i as u32))
    }
}

impl OffsetSet {
    /// The empty set.
    pub fn new() -> (r: Self)
        ensures
            r@ == Set::<int>::empty(),
    {
        let r = OffsetSet { inner: BTreeSet::new() };
        proof {
            assert(r@ =~= Set::<int>::empty());
        }
        r
    }

    /// Whether `offset` is in the set.
    pub fn contains(&self, offset: u32) -> (r: bool)
        ensures
            r == self@.contains(offset as int),
    {
        self.inner.contains(&offset)
    }

    /// Put `offset` into the set; whether it was not there before.
    pub fn insert(&mut self, offset: u32) -> (r: bool)
        ensures
            r == !old(self)@.contains(offset as int),
            final(self)@ == old(self)@.insert(offset as int),
    {
        let r = self.inner.insert(offset);
        proof {
            assert(self@ =~= old(self)@.insert(offset as int));
        }
        r
    }

    /// Take `offset` out of the set; whether it was there.
    pub fn remove(&mut self, offset: u32) -> (r: bool)
        ensures
            r == old(self)@.contains(offset as int),
            final(self)@ == old(self)@.remove(offset as int),
    {
        let r = self.inner.remove(&offset);
        proof {
            assert(self@ =~= old(self)@.remove(offset as int));
        }
        r
    }
}

} // verus!
