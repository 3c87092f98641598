//! Counter of trie-node resolution attempts, used for gas accounting.

use vstd::prelude::*;

verus! {

/// Counts how many trie nodes were touched during retrieval, for the
/// purpose of gas calculation. Incremented on every resolution attempt,
/// independent of the cache outcome. The count wraps around at the
/// integer boundary.
pub struct TouchedNodesCounter {
    counter: u64,
}

impl TouchedNodesCounter {
    /// The current total of recorded touches.
    pub closed spec fn count(&self) -> u64 {
        self.counter
    }

    pub fn new() -> (r: TouchedNodesCounter)
        ensures
            r.count() == 0,
    {
        TouchedNodesCounter { counter: 0 }
    }

    /// Add one touch, wrapping around at the integer boundary.
    pub fn increment(&mut self)
        ensures
            old(self).count() < u64::MAX ==> final(self).count() == old(self).count() + 1,
            old(self).count() == u64::MAX ==> final(self).count() == 0,
    {
        if self.counter == u64::MAX {
            self.counter = 0;
        } else {
            self.counter = self.counter + 1;
        }
    }

    pub fn get(&self) -> (r: u64)
        ensures
            r == self.count(),
    {
        self.counter
    }
}

impl Default for TouchedNodesCounter {
    fn default() -> (r: Self)
        ensures
            r.count() == 0,
    {
        TouchedNodesCounter::new()
    }
}

} // verus!
