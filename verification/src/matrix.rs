use vstd::prelude::*;

verus! {

/// Decimal value of an ASCII digit string.
pub open spec fn dec_val(s: Seq<u8>) -> int
    decreases s.len(),
{
    if s.len() == 0 {
        0
    } else {
        dec_val(s.drop_last()) * 10 + (s.last() - 48)
    }
}

pub open spec fn all_digits(s: Seq<u8>) -> bool {
    forall|i: int| 0 <= i < s.len() ==> 48 <= #[trigger] s[i] <= 57
}

/// The integer an ASCII token denotes: digits, optionally preceded by a
/// minus sign.
pub open spec fn int_of(s: Seq<u8>) -> int {
    if s.len() > 0 && s[0] == 45 {
        -dec_val(s.skip(1))
    } else {
        dec_val(s)
    }
}

pub open spec fn int_token(s: Seq<u8>) -> bool {
    if s.len() > 0 && s[0] == 45 {
        s.len() > 1 && all_digits(s.skip(1))
    } else {
        s.len() > 0 && all_digits(s)
    }
}

proof fn lemma_dec_val_nonneg(s: Seq<u8>)
    requires
        all_digits(s),
    ensures
        dec_val(s) >= 0,
    decreases s.len(),
{
    if s.len() > 0 {
        assert(all_digits(s.drop_last())) by {
            assert(forall|i: int| 0 <= i < s.len() - 1 ==> s.drop_last()[i] == s[i]);
        }
        lemma_dec_val_nonneg(s.drop_last());
    }
}

/// Reads a decimal integer from an ASCII token; `None` when the token is not
/// an integer or does not fit the result type.
pub fn read_int(s: &[u8]) -> (r: Option<i32>)
    ensures
        match r {
            Option::Some(v) => int_token(s@) && v as int == int_of(s@),
            Option::None => !int_token(s@) || int_of(s@) > i32::MAX || int_of(s@)
                < i32::MIN as int,
        },
{
    let n = s.len();
    if n == 0 {
        return None;
    }
    let neg = s[0] == 45;
    let start: usize = if neg {
        1
    } else {
        0
    };
    if start >= n {
        return None;
    }
    let ghost digits = s@.skip(start as int);
    let mut acc: u64 = 0;
    let mut i: usize = start;
    while i < n
        invariant
            start <= i <= n,
            n == s@.len(),
            start < n,
            neg == (s@[0] == 45),
            start == if neg { 1int } else { 0int },
            digits == s@.skip(start as int),
            acc as int == dec_val(digits.take(i - start)),
            all_digits(digits.take(i - start)),
            acc <= 0x8000_0000,
        decreases n - i,
    {
        let b = s[i];
        if b < 48 || b > 57 {
            proof {
                assert(digits[i - start] == s@[i as int]);
                assert(!all_digits(digits)) by {
                    assert(!(48 <= digits[i - start] <= 57));
                }
                if neg {
                    assert(!int_token(s@));
                } else {
                    assert(digits =~= s@);
                    assert(!int_token(s@));
                }
            }
            return None;
        }
        let d = (b - 48) as u64;
        let next = acc * 10 + d;
        proof {
            assert(digits.take(i - start + 1).drop_last() =~= digits.take(i - start));
            assert(digits.take(i - start + 1).last() == digits[i - start]);
            assert(digits[i - start] == s@[i as int]);
            assert(all_digits(digits.take(i - start + 1)));
        }
        if next > 0x8000_0000 {
            proof {
                // the value can only grow with more digits
                assert(dec_val(digits.take(i - start + 1)) == next);
                if neg {
                    if int_token(s@) {
                        assert(all_digits(digits));
                        lemma_dec_val_monotone(digits, i - start + 1);
                        assert(int_of(s@) == -dec_val(digits));
                        assert(int_of(s@) < i32::MIN as int);
                    }
                } else {
                    assert(digits =~= s@);
                    if int_token(s@) {
                        assert(all_digits(digits));
                        lemma_dec_val_monotone(digits, i - start + 1);
                        assert(int_of(s@) == dec_val(digits));
                        assert(int_of(s@) > i32::MAX);
                    }
                }
            }
            return None;
        }
        acc = next;
        i += 1;
    }
    proof {
        assert(digits.take(n - start) =~= digits);
        if neg {
            assert(int_token(s@));
            assert(int_of(s@) == -(acc as int));
        } else {
            assert(digits =~= s@);
            assert(int_token(s@));
            assert(int_of(s@) == acc as int);
        }
    }
    if neg {
        Some((-(acc as i64)) as i32)
    } else {
        if acc > 0x7FFF_FFFF {
            return None;
        }
        Some(acc as i32)
    }
}

/// A digit string's value never shrinks when digits are appended.
proof fn lemma_dec_val_monotone(s: Seq<u8>, l: int)
    requires
        all_digits(s),
        0 <= l <= s.len(),
    ensures
        dec_val(s) >= dec_val(s.take(l)),
        dec_val(s.take(l)) >= 0,
    decreases s.len() - l,
{
    assert(all_digits(s.take(l))) by {
        assert(forall|i: int| 0 <= i < l ==> s.take(l)[i] == s[i]);
    }
    lemma_dec_val_nonneg(s.take(l));
    if l == s.len() {
        assert(s.take(l) =~= s);
    } else {
        assert(s.take(l + 1).drop_last() =~= s.take(l));
        assert(dec_val(s.take(l + 1)) == dec_val(s.take(l)) * 10 + (s[l] - 48));
        lemma_dec_val_monotone(s, l + 1);
    }
}

/// Dense transition-cost matrix: the cost of joining a right-context id to a
/// left-context id, row-major with `width` columns.
pub struct Matrix {
    pub width: u16,
    pub height: u16,
    pub cost: Vec<i16>,
}

impl Matrix {
    pub open spec fn wf(&self) -> bool {
        self.cost@.len() == self.height as int * self.width as int
    }

    pub open spec fn spec_get(&self, src_id: int, dst_id: int) -> int {
        self.cost@[src_id * self.width as int + dst_id] as int
    }

    /// A zero-filled matrix of the given dimensions.
    pub fn new(height: u16, width: u16) -> (r: Matrix)
        ensures
            r.wf(),
            r.height == height,
            r.width == width,
            forall|s: int, d: int|
                0 <= s < height && 0 <= d < width ==> r.spec_get(s, d) == 0,
    {
        proof {
            assert((height as int) * (width as int) <= 65535 * 65535) by (nonlinear_arith)
                requires
                    height as int <= 65535,
                    width as int <= 65535,
            ;
        }
        let total = height as usize * width as usize;
        let mut cost: Vec<i16> = Vec::new();
        let mut i: usize = 0;
        while i < total
            invariant
                cost@.len() == i,
                i <= total,
                forall|j: int| 0 <= j < i ==> cost@[j] == 0,
            decreases total - i,
        {
            cost.push(0);
            i += 1;
        }
        let r = Matrix { width, height, cost };
        proof {
            assert forall|s: int, d: int|
                0 <= s < height && 0 <= d < width implies r.spec_get(s, d) == 0 by {
                assert(0 <= s * (width as int) + d < total as int) by (nonlinear_arith)
                    requires
                        0 <= s < height as int,
                        0 <= d < width as int,
                        total as int == height as int * width as int,
                ;
            }
        }
        r
    }

    /// Overlays one sparse entry; cells never written keep their value.
    pub fn set_cost(&mut self, src_id: u16, dst_id: u16, value: i16)
        requires
            old(self).wf(),
            src_id < old(self).height,
            dst_id < old(self).width,
        ensures
            final(self).wf(),
            final(self).height == old(self).height,
            final(self).width == old(self).width,
            final(self).spec_get(src_id as int, dst_id as int) == value as int,
            forall|s: int, d: int|
                0 <= s < final(self).height && 0 <= d < final(self).width && !(s == src_id as int
                    && d == dst_id as int) ==> final(self).spec_get(s, d) == old(self).spec_get(
                    s,
                    d,
                ),
    {
        proof {
            assert(0 <= (src_id as int) * (self.width as int) + (dst_id as int) < self.cost@.len())
                by (nonlinear_arith)
                requires
                    0 <= (src_id as int) < self.height as int,
                    0 <= (dst_id as int) < self.width as int,
                    self.cost@.len() == self.height as int * self.width as int,
            ;
            assert(self.cost@.len() <= 65535 * 65535) by (nonlinear_arith)
                requires
                    self.cost@.len() == self.height as int * self.width as int,
                    self.height as int <= 65535,
                    self.width as int <= 65535,
            ;
        }
        let ix = src_id as usize * self.width as usize + dst_id as usize;
        self.cost.set(ix, value);
        proof {
            assert forall|s: int, d: int|
                0 <= s < self.height && 0 <= d < self.width && !(s == src_id as int && d
                    == dst_id as int) implies self.spec_get(s, d) == old(self).spec_get(s, d) by {
                assert(s * (self.width as int) + d != ix as int) by (nonlinear_arith)
                    requires
                        0 <= s < self.height as int,
                        0 <= d < self.width as int,
                        0 <= (src_id as int) < self.height as int,
                        0 <= (dst_id as int) < self.width as int,
                        !(s == src_id as int && d == dst_id as int),
                        ix as int == (src_id as int) * (self.width as int) + dst_id as int,
                ;
                assert(0 <= s * (self.width as int) + d < self.cost@.len()) by (nonlinear_arith)
                    requires
                        0 <= s < self.height as int,
                        0 <= d < self.width as int,
                        self.cost@.len() == self.height as int * self.width as int,
                ;
            }
        }
    }

    /// Direct dense lookup; ids within the dimensions are a caller contract.
    pub fn get(&self, src_id: u16, dst_id: u16) -> (r: i16)
        requires
            self.wf(),
            src_id < self.height,
            dst_id < self.width,
        ensures
            r as int == self.spec_get(src_id as int, dst_id as int),
    {
        proof {
            assert(0 <= (src_id as int) * (self.width as int) + (dst_id as int) < self.cost@.len())
                by (nonlinear_arith)
                requires
                    0 <= (src_id as int) < self.height as int,
                    0 <= (dst_id as int) < self.width as int,
                    self.cost@.len() == self.height as int * self.width as int,
            ;
            assert(self.cost@.len() <= 65535 * 65535) by (nonlinear_arith)
                requires
                    self.cost@.len() == self.height as int * self.width as int,
                    self.height as int <= 65535,
                    self.width as int <= 65535,
            ;
        }
        self.cost[src_id as usize * self.width as usize + dst_id as usize]
    }
}

} // verus!
