//! Maps from data offsets to data offsets.
use std::collections::HashMap;
use vstd::prelude::*;

verus! {

broadcast use vstd::std_specs::hash::group_hash_axioms;

/// A map from data offsets to data offsets.
pub struct OffsetMap {
    inner: HashMap<u32, u32>,
}

impl View for OffsetMap {
    type V = Map<int, int>;

    closed spec fn view(&self) -> Map<int, int> {
        Map::new(
            |i: int| 0 <= i <= u32::MAX && self.inner@.dom().contains(i as u32),
            |i: int| self.inner@[i as u32] as int,
        )
    }
}

impl OffsetMap {
    /// The empty map.
    pub fn new() -> (r: Self)
        ensures
            r@ == Map::<int, int>::empty(),
    {
        let r = OffsetMap { inner: HashMap::new() };
        proof {
            assert(r@ =~= Map::<int, int>::empty());
        }
        r
    }

    /// Map `from` to `to`.
    pub fn insert(&mut self, from: u32, to: u32)
        ensures
            final(self)@ == old(self)@.insert(from as int, to as int),
    {
        self.inner.insert(from, to);
        proof {
            assert(self@ =~= old(self)@.insert(from as int, to as int));
        }
    }

    /// What `from` is mapped to, or `from` itself.
    pub fn get_or_same(&self, from: u32) -> (r: u32)
        ensures
            r == if self@.dom().contains(from as int) {
                self@[from as int]
            } else {
                from as int
            },
    {
        match self.inner.get(&from) {
            Some(to) => *to,
            None => from,
        }
    }
}

} // verus!
