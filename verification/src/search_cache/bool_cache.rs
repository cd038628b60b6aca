use vstd::prelude::*;
use super::{avail, filled_of, imax, SearchCache, SearchCache2};

verus! {

/// One occupancy flag per cell, kept in step with the check array but read
/// without consulting it.
pub struct BoolCache(Vec<bool>);

impl SearchCache for BoolCache {
    closed spec fn inv(&self, len: nat, filled: Set<int>) -> bool {
        &&& self.0@.len() == len
        &&& forall|i: int| 2 <= i < len ==> self.0@[i] == filled.contains(i)
    }

    fn new(size: usize) -> (r: Self) {
        let r = BoolCache(vec_false(size));
        proof {
            assert forall|f: Set<int>| (forall|i: int|
                2 <= i < size ==> !f.contains(i)) implies r.inv(size as nat, f) by {
                assert forall|i: int| 2 <= i < size implies r.0@[i] == f.contains(i) by {
                    assert(!f.contains(i));
                }
            }
        }
        r
    }

    fn extend(&mut self, size: usize) {
        let n = self.0.len();
        let mut i: usize = n;
        while i < size
            invariant
                self.0@.len() == i,
                n <= i,
                forall|j: int| 0 <= j < n ==> self.0@[j] == old(self).0@[j],
                forall|j: int| n <= j < i ==> self.0@[j] == false,
                i <= size || i == n,
            decreases size - i,
        {
            self.0.push(false);
            i += 1;
        }
        proof {
            assert forall|len: nat, f: Set<int>|
                old(self).inv(len, f) && len <= size as nat && (forall|i: int|
                    i >= len ==> !f.contains(i)) implies self.inv(size as nat, f) by {
                assert(len == n as nat);
                assert(self.0@.len() == size);
                assert forall|j: int| 2 <= j < size implies self.0@[j] == f.contains(j) by {
                    if j < n {
                        assert(self.0@[j] == old(self).0@[j]);
                    } else {
                        assert(!f.contains(j));
                    }
                }
            }
        }
    }

    fn mark(&mut self, index: usize) {
        proof {
            let (len, f) = choose|len: nat, f: Set<int>|
                old(self).inv(len, f) && 2 <= index < len;
            assert(self.0@.len() == len);
        }
        self.0[index] = true;
        proof {
            assert forall|len: nat, f: Set<int>|
                old(self).inv(len, f) && 2 <= index < len implies self.inv(
                len,
                f.insert(index as int),
            ) by {
                assert forall|j: int| 2 <= j < len implies self.0@[j] == f.insert(
                    index as int,
                ).contains(j) by {
                    if j != index as int {
                        assert(self.0@[j] == old(self).0@[j]);
                    }
                }
            }
        }
    }

    fn is_filled(&self, index: usize, check: &Vec<u32>) -> (r: bool) {
        proof {
            if index < check@.len() {
                assert(self.0@[index as int] == filled_of(check@).contains(index as int));
            }
        }
        index < self.0.len() && self.0[index]
    }

    fn find_empty(&self, search_start: usize, check: &Vec<u32>) -> (r: usize) {
        let mut ix = search_start + 1;
        if ix < 2 {
            ix = 2;
        }
        while ix < self.0.len() && self.0[ix]
            invariant
                self.inv(check@.len() as nat, filled_of(check@)),
                2 <= ix,
                search_start < ix,
                ix as int <= imax(search_start as int + 1, imax(check@.len() as int, 2)),
                forall|j: int| search_start < j < ix ==> !avail(check@, j),
            decreases check@.len() - ix,
        {
            proof {
                assert(self.0@[ix as int] == filled_of(check@).contains(ix as int));
                assert(check@[ix as int] != 0);
            }
            ix += 1;
        }
        proof {
            if ix < self.0.len() {
                assert(self.0@[ix as int] == filled_of(check@).contains(ix as int));
            }
            assert(avail(check@, ix as int));
        }
        ix
    }
}

impl SearchCache2 for BoolCache {
    fn unmark(&mut self, index: usize) {
        proof {
            let (len, f) = choose|len: nat, f: Set<int>|
                old(self).inv(len, f) && 2 <= index < len;
            assert(self.0@.len() == len);
        }
        self.0[index] = false;
        proof {
            assert forall|len: nat, f: Set<int>|
                old(self).inv(len, f) && 2 <= index < len implies self.inv(
                len,
                f.remove(index as int),
            ) by {
                assert forall|j: int| 2 <= j < len implies self.0@[j] == f.remove(
                    index as int,
                ).contains(j) by {
                    if j != index as int {
                        assert(self.0@[j] == old(self).0@[j]);
                    }
                }
            }
        }
    }
}

fn vec_false(size: usize) -> (r: Vec<bool>)
    ensures
        r@.len() == size,
        forall|i: int| 0 <= i < size ==> r@[i] == false,
{
    let mut v: Vec<bool> = Vec::new();
    let mut i: usize = 0;
    while i < size
        invariant
            v@.len() == i,
            i <= size,
            forall|j: int| 0 <= j < i ==> v@[j] == false,
        decreases size - i,
    {
        v.push(false);
        i += 1;
    }
    v
}

} // verus!
