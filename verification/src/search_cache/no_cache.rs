use vstd::prelude::*;
use super::{avail, imax, SearchCache, SearchCache2};

verus! {

/// The oracle strategy: no bookkeeping of its own, every probe scans the
/// check array directly.
pub struct NoCache;

impl NoCache {
    /// The oracle agrees with any occupancy state, so it can be attached to
    /// arrays rebuilt from their raw parts.
    pub fn fresh() -> (r: NoCache)
        ensures
            forall|len: nat, f: Set<int>| r.inv(len, f),
    {
        NoCache
    }
}

impl SearchCache for NoCache {
    closed spec fn inv(&self, len: nat, filled: Set<int>) -> bool {
        true
    }

    fn new(_size: usize) -> (r: Self) {
        NoCache
    }

    fn extend(&mut self, _size: usize) {
    }

    fn mark(&mut self, _index: usize) {
    }

    fn is_filled(&self, index: usize, check: &Vec<u32>) -> (r: bool) {
        index < check.len() && check[index] != 0
    }

    fn find_empty(&self, search_start: usize, check: &Vec<u32>) -> (r: usize) {
        let mut ix = search_start + 1;
        if ix < 2 {
            ix = 2;
        }
        while ix < check.len() && check[ix] != 0
            invariant
                2 <= ix,
                search_start < ix,
                ix as int <= imax(search_start as int + 1, imax(check@.len() as int, 2)),
                forall|j: int| search_start < j < ix ==> !avail(check@, j),
            decreases check@.len() - ix,
        {
            ix += 1;
        }
        ix
    }
}

impl SearchCache2 for NoCache {
    fn unmark(&mut self, _index: usize) {
    }
}

} // verus!
