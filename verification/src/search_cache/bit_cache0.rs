use vstd::prelude::*;
use super::{avail, filled_of, imax, SearchCache};

verus! {

/// Occupancy packed one bit per cell, a set bit marking a free cell.
/// Probing skips a fully occupied word in one step instead of testing its
/// bits one by one.
pub struct BitCache(Vec<u64>);

pub open spec fn words_for(len: int) -> int {
    (len + 64) / 64
}

/// Whether the packed bit for cell `i` is set, which marks it free.
pub open spec fn bit_set(words: Seq<u64>, i: int) -> bool {
    0 <= i && i / 64 < words.len() && (words[i / 64] >> ((i % 64) as u64)) & 1 == 1
}

/// Changing one bit of one word leaves every other cell's bit alone.
proof fn lemma_bit_update(w: u64, b: u64, j: u64)
    requires
        b < 64,
        j < 64,
    ensures
        (w | (1u64 << b)) >> b & 1 == 1,
        (w & !(1u64 << b)) >> b & 1 == 0,
        j != b ==> (w | (1u64 << b)) >> j & 1 == w >> j & 1,
        j != b ==> (w & !(1u64 << b)) >> j & 1 == w >> j & 1,
{
    assert((w | (1u64 << b)) >> b & 1 == 1) by (bit_vector)
        requires
            b < 64,
    ;
    assert((w & !(1u64 << b)) >> b & 1 == 0) by (bit_vector)
        requires
            b < 64,
    ;
    assert(j != b && j < 64 && b < 64 ==> (w | (1u64 << b)) >> j & 1 == w >> j & 1)
        by (bit_vector);
    assert(j != b && j < 64 && b < 64 ==> (w & !(1u64 << b)) >> j & 1 == w >> j & 1)
        by (bit_vector);
}

proof fn lemma_zero_word(b: u64)
    requires
        b < 64,
    ensures
        (0u64 >> b) & 1 == 0,
{
    assert(b < 64 ==> (0u64 >> b) & 1 == 0) by (bit_vector);
}

proof fn lemma_full_word(w: u64, b: u64)
    requires
        w == !0u64,
        b < 64,
    ensures
        (w >> b) & 1 == 1,
{
    assert(w == !0u64 && b < 64 ==> (w >> b) & 1 == 1) by (bit_vector);
}

impl BitCache {
    /// Reads one cell's bit.
    fn probe(&self, index: usize) -> (r: bool)
        ensures
            r == bit_set(self.0@, index as int),
    {
        let a = index / 64;
        let b = (index % 64) as u64;
        a < self.0.len() && (self.0[a] >> b) & 1 == 1
    }
}

impl SearchCache for BitCache {
    closed spec fn inv(&self, len: nat, filled: Set<int>) -> bool {
        &&& self.0@.len() == words_for(len as int)
        &&& forall|i: int| 2 <= i < len ==> (bit_set(self.0@, i) <==> !filled.contains(i))
        &&& forall|i: int| len <= i < self.0@.len() * 64 ==> bit_set(self.0@, i)
    }

    fn new(size: usize) -> (r: Self) {
        let total = size / 64 + 1;
        let mut v: Vec<u64> = Vec::new();
        let mut i: usize = 0;
        while i < total
            invariant
                v@.len() == i,
                i <= total,
                forall|j: int| 0 <= j < i ==> v@[j] == !0u64,
            decreases total - i,
        {
            v.push(!0u64);
            i += 1;
        }
        let r = BitCache(v);
        proof {
            assert(total as int == words_for(size as int));
            assert forall|i: int| 0 <= i < r.0@.len() * 64 implies bit_set(r.0@, i) by {
                if i / 64 < r.0@.len() {
                    assert(r.0@[i / 64] == !0u64);
                    lemma_full_word(!0u64, (i % 64) as u64);
                }
            }
            assert forall|f: Set<int>| (forall|i: int|
                2 <= i < size ==> !f.contains(i)) implies r.inv(size as nat, f) by {
                assert forall|i: int| 2 <= i < size implies (bit_set(r.0@, i) <==> !f.contains(
                    i,
                )) by {
                    assert(i < r.0@.len() * 64) by {
                        assert(i / 64 < words_for(size as int));
                    }
                    assert(bit_set(r.0@, i));
                    assert(!f.contains(i));
                }
            }
        }
        r
    }

    fn extend(&mut self, size: usize) {
        let total = size / 64 + 1;
        let n = self.0.len();
        let mut i: usize = n;
        while i < total
            invariant
                self.0@.len() == i,
                n <= i,
                i <= total || i == n,
                forall|j: int| 0 <= j < n ==> self.0@[j] == old(self).0@[j],
                forall|j: int| n <= j < i ==> self.0@[j] == !0u64,
            decreases total - i,
        {
            self.0.push(!0u64);
            i += 1;
        }
        proof {
            assert forall|len: nat, f: Set<int>|
                old(self).inv(len, f) && len <= size as nat && (forall|i: int|
                    i >= len ==> !f.contains(i)) implies self.inv(size as nat, f) by {
                assert(n as int == words_for(len as int));
                assert(n <= total) by {
                    assert(words_for(len as int) <= words_for(size as int));
                }
                assert(self.0@.len() == total);
                assert(total as int == words_for(size as int));
                assert forall|i: int|
                    0 <= i < self.0@.len() * 64 implies bit_set(self.0@, i) == (i >= n as int * 64
                    || bit_set(old(self).0@, i)) by {
                    if i / 64 < n {
                        assert(self.0@[i / 64] == old(self).0@[i / 64]);
                        assert(i < n as int * 64);
                    } else {
                        assert(self.0@[i / 64] == !0u64);
                        lemma_full_word(!0u64, (i % 64) as u64);
                        assert(bit_set(self.0@, i));
                        assert(i >= n as int * 64);
                    }
                }
                assert forall|i: int|
                    2 <= i < size implies (bit_set(self.0@, i) <==> !f.contains(i)) by {
                    assert(i < self.0@.len() * 64) by {
                        assert(i / 64 < words_for(size as int));
                    }
                    if i < len {
                        assert(i < n as int * 64) by {
                            assert(i / 64 < words_for(len as int));
                        }
                    } else {
                        assert(!f.contains(i));
                        if i < n as int * 64 {
                            assert(bit_set(old(self).0@, i));
                        }
                    }
                }
                assert forall|i: int|
                    size <= i < self.0@.len() * 64 implies bit_set(self.0@, i) by {
                    if i < n as int * 64 {
                        assert(len <= i);
                        assert(bit_set(old(self).0@, i));
                    }
                }
            }
        }
    }

    fn mark(&mut self, index: usize) {
        proof {
            let (len, f) = choose|len: nat, f: Set<int>|
                old(self).inv(len, f) && 2 <= index < len;
            assert(index as int / 64 < self.0@.len()) by {
                assert(index as int / 64 < words_for(len as int));
            }
        }
        let a = index / 64;
        let b = (index % 64) as u64;
        let w = self.0[a];
        self.0.set(a, w & !(1u64 << b));
        proof {
            let ws0 = old(self).0@;
            let ws1 = self.0@;
            assert forall|i: int| 0 <= i < ws1.len() * 64 && i != index as int implies bit_set(
                ws1,
                i,
            ) == bit_set(ws0, i) by {
                if i / 64 == a as int {
                    lemma_bit_update(w, b, (i % 64) as u64);
                    assert((i % 64) as u64 != b) by {
                        if (i % 64) as u64 == b {
                            assert(i == index as int);
                        }
                    }
                } else {
                    assert(ws1[i / 64] == ws0[i / 64]);
                }
            }
            assert(!bit_set(ws1, index as int)) by {
                lemma_bit_update(w, b, b);
            }
            assert forall|len: nat, f: Set<int>|
                old(self).inv(len, f) && 2 <= index < len implies self.inv(
                len,
                f.insert(index as int),
            ) by {
                assert forall|i: int|
                    2 <= i < len implies (bit_set(ws1, i) <==> !f.insert(index as int).contains(
                    i,
                )) by {
                    assert(i < ws1.len() * 64) by {
                        assert(i / 64 < words_for(len as int));
                    }
                }
                assert forall|i: int| len <= i < ws1.len() * 64 implies bit_set(ws1, i) by {
                    assert(i != index as int);
                }
            }
        }
    }

    fn is_filled(&self, index: usize, check: &Vec<u32>) -> (r: bool) {
        let a = index / 64;
        let b = (index % 64) as u64;
        let r = a < self.0.len() && (self.0[a] >> b) & 1 == 0;
        proof {
            let len = check@.len() as int;
            if a < self.0.len() {
                let ww = self.0@[a as int];
                assert(((ww >> b) & 1 == 0) || ((ww >> b) & 1 == 1)) by (bit_vector);
            }
            if index < check@.len() {
                assert(bit_set(self.0@, index as int) <==> !filled_of(check@).contains(
                    index as int,
                ));
                assert(index as int / 64 < self.0@.len()) by {
                    assert(index as int / 64 < words_for(len));
                }
            } else {
                if (index as int) < self.0@.len() * 64 {
                    assert(bit_set(self.0@, index as int));
                }
            }
        }
        r
    }

    fn find_empty(&self, search_start: usize, check: &Vec<u32>) -> (r: usize) {
        let ghost len = check@.len() as int;
        let ghost ws = self.0@;
        let ghost cap = self.0@.len() * 64;
        let mut ix = search_start + 1;
        if ix < 2 {
            ix = 2;
        }
        let ghost startx = ix as int;
        proof {
            // the first free cell is never past the managed range: the cells
            // just beyond it are free by the bookkeeping itself
            assert(cap >= len) by {
                assert(ws.len() == words_for(len));
            }
        }
        loop
            invariant
                ws == self.0@,
                len == check@.len(),
                cap == ws.len() * 64,
                self.inv(check@.len() as nat, filled_of(check@)),
                len <= super::cell_limit(),
                startx <= ix as int,
                2 <= startx,
                startx == imax(search_start as int + 1, 2),
                startx <= super::cell_limit() + 0x120001,
                ix as int <= imax(startx, imax(len, 2)),
                forall|j: int| startx <= j < ix as int ==> !avail(check@, j),
            decreases cap + 64 - ix,
        {
            let a = ix / 64;
            if a >= self.0.len() {
                proof {
                    assert(ix as int >= cap) by {
                        assert(ix as int / 64 >= ws.len());
                    }
                    assert(ix as int >= len);
                    assert(avail(check@, ix as int));
                }
                return ix;
            }
            let w = self.0[a];
            if w == 0u64 {
                // a fully occupied word: skip to the next word boundary
                proof {
                    assert forall|j: int| ix as int <= j < (a as int + 1) * 64 implies !avail(
                        check@,
                        j,
                    ) by {
                        assert(j / 64 == a as int);
                        lemma_zero_word((j % 64) as u64);
                        assert(!bit_set(ws, j));
                        if j >= 2 {
                            assert(j < len) by {
                                if j >= len {
                                    assert(bit_set(ws, j));
                                }
                            }
                            assert(filled_of(check@).contains(j));
                        }
                    }
                    assert((a as int + 1) * 64 <= imax(startx, imax(len, 2))) by {
                        assert(a as int * 64 + 63 < len) by {
                            lemma_zero_word(63u64);
                            assert(!bit_set(ws, a as int * 64 + 63));
                            if a as int * 64 + 63 >= len {
                                assert(bit_set(ws, a as int * 64 + 63));
                            }
                        }
                    }
                }
                ix = (a + 1) * 64;
            } else {
                let b = (ix % 64) as u64;
                if (w >> b) & 1 == 1 {
                    proof {
                        assert(bit_set(ws, ix as int)) by {
                            assert(ix as int / 64 == a as int);
                        }
                        assert(avail(check@, ix as int)) by {
                            if (ix as int) < len {
                                assert(!filled_of(check@).contains(ix as int));
                            }
                        }
                    }
                    return ix;
                }
                proof {
                    assert((w >> b) & 1 == 0) by (bit_vector)
                        requires
                            (w >> b) & 1 != 1,
                    ;
                    assert(!bit_set(ws, ix as int)) by {
                        assert(ix as int / 64 == a as int);
                    }
                    assert((ix as int) < len) by {
                        if ix as int >= len {
                            assert(bit_set(ws, ix as int));
                        }
                    }
                    assert(!avail(check@, ix as int)) by {
                        assert(filled_of(check@).contains(ix as int));
                    }
                }
                ix = ix + 1;
            }
        }
    }
}

} // verus!
