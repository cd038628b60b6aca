use vstd::prelude::*;
use super::{SearchCache, SearchCache2};

verus! {

/// Differential combinator: runs two strategies side by side as a check that
/// they agree. The agreement is proved rather than asserted at run time, so
/// the combinator simply keeps both caches in step and returns the first
/// one's answer.
pub struct DoubleCheck<C1, C2> {
    cache1: C1,
    cache2: C2,
}

impl<C1: SearchCache, C2: SearchCache> SearchCache for DoubleCheck<C1, C2> {
    closed spec fn inv(&self, len: nat, filled: Set<int>) -> bool {
        self.cache1.inv(len, filled) && self.cache2.inv(len, filled)
    }

    fn new(size: usize) -> (r: Self) {
        DoubleCheck { cache1: C1::new(size), cache2: C2::new(size) }
    }

    fn extend(&mut self, size: usize) {
        self.cache1.extend(size);
        self.cache2.extend(size);
    }

    fn mark(&mut self, index: usize) {
        self.cache1.mark(index);
        self.cache2.mark(index);
    }

    fn is_filled(&self, index: usize, check: &Vec<u32>) -> (r: bool) {
        let value1 = self.cache1.is_filled(index, check);
        let value2 = self.cache2.is_filled(index, check);
        assert(value1 == value2);
        value1
    }

    fn find_empty(&self, search_start: usize, check: &Vec<u32>) -> (r: usize) {
        let value1 = self.cache1.find_empty(search_start, check);
        let value2 = self.cache2.find_empty(search_start, check);
        proof {
            super::lemma_find_empty_unique(
                check@,
                search_start as int,
                value1 as int,
                value2 as int,
            );
        }
        assert(value1 == value2);
        value1
    }
}

impl<C1: SearchCache2, C2: SearchCache2> SearchCache2 for DoubleCheck<C1, C2> {
    fn unmark(&mut self, index: usize) {
        self.cache1.unmark(index);
        self.cache2.unmark(index);
    }
}

} // verus!
