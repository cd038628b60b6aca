use vstd::prelude::*;
use crate::as_chars::AsUsize;

pub mod bit_cache0;
pub mod bit_cache1;
pub mod bool_cache;
pub mod double_check;
pub mod no_cache;

pub use self::bit_cache0::BitCache as BitCache0;
pub use self::bit_cache1::BitCache as BitCache1;
pub use self::bool_cache::BoolCache;
pub use self::double_check::DoubleCheck;
pub use self::no_cache::NoCache;

verus! {

/// The set of cell indices the check array marks as occupied.
pub open spec fn filled_of(check: Seq<u32>) -> Set<int> {
    Set::new(|i: int| 0 <= i < check.len() && check[i] != 0)
}

/// Whether cell `j` may be claimed for a new transition: cells 0 (unused) and
/// 1 (the root) are never handed out; cells past the end of the arrays are
/// free, the arrays grow on demand.
pub open spec fn avail(check: Seq<u32>, j: int) -> bool {
    j >= 2 && (j >= check.len() || check[j] != 0 == false)
}

pub open spec fn imax(a: int, b: int) -> int {
    if a >= b {
        a
    } else {
        b
    }
}

/// Upper bound kept on the cell arrays so that index arithmetic involving a
/// base offset plus a unit value stays well inside `usize` on any platform.
pub open spec fn cell_limit() -> int {
    0x1000_0000
}

/// A free-slot locator used during double-array construction. Every strategy
/// answers relative to the same ground truth — the check array — so all
/// strategies return identical results for identical occupancy states.
///
/// `inv(len, filled)` says the cache's private bookkeeping agrees with a
/// check array of length `len` whose occupied cells are exactly `filled`
/// (cells 0 and 1 are reserved and are not constrained).
pub trait SearchCache: Sized {
    spec fn inv(&self, len: nat, filled: Set<int>) -> bool;

    fn new(size: usize) -> (r: Self)
        ensures
            forall|f: Set<int>|
                (forall|i: int| 2 <= i < size ==> !f.contains(i)) ==> r.inv(size as nat, f),
    ;

    fn extend(&mut self, size: usize)
        requires
            exists|len: nat, f: Set<int>| old(self).inv(len, f) && len <= size as nat,
        ensures
            forall|len: nat, f: Set<int>|
                old(self).inv(len, f) && len <= size as nat && (forall|i: int|
                    i >= len ==> !f.contains(i)) ==> final(self).inv(size as nat, f),
    ;

    fn mark(&mut self, index: usize)
        requires
            exists|len: nat, f: Set<int>| old(self).inv(len, f) && 2 <= index < len,
        ensures
            forall|len: nat, f: Set<int>|
                old(self).inv(len, f) && 2 <= index < len ==> final(self).inv(
                    len,
                    f.insert(index as int),
                ),
    ;

    fn is_filled(&self, index: usize, check: &Vec<u32>) -> (r: bool)
        requires
            self.inv(check@.len() as nat, filled_of(check@)),
            2 <= index,
        ensures
            r == (index < check@.len() && check@[index as int] != 0),
    ;

    fn find_empty(&self, search_start: usize, check: &Vec<u32>) -> (r: usize)
        requires
            self.inv(check@.len() as nat, filled_of(check@)),
            search_start <= cell_limit() + 0x120000,
            check@.len() <= cell_limit(),
        ensures
            search_start < r,
            2 <= r,
            avail(check@, r as int),
            forall|j: int| search_start < j < r ==> !avail(check@, j),
            r as int <= imax(search_start as int + 1, imax(check@.len() as int, 2)),
    ;
}

/// A strategy that can also release a cell, needed by incremental insertion,
/// where a rebase frees the relocated state's old cells.
pub trait SearchCache2: SearchCache {
    fn unmark(&mut self, index: usize)
        requires
            exists|len: nat, f: Set<int>| old(self).inv(len, f) && 2 <= index < len,
        ensures
            forall|len: nat, f: Set<int>|
                old(self).inv(len, f) && 2 <= index < len ==> final(self).inv(
                    len,
                    f.remove(index as int),
                ),
    ;
}

/// Whether base offset `b` can host a state with a transition on `ch` and on
/// every unit in `rest`: each landing cell must be claimable.
pub open spec fn base_fits<K: AsUsize>(check: Seq<u32>, ch: int, rest: Seq<K>, b: int) -> bool {
    avail(check, b + ch) && forall|i: int|
        0 <= i < rest.len() ==> avail(check, b + #[trigger] rest[i].as_int())
}

/// Finds the least base offset that has free landing cells for the unit `ch`
/// and for every unit in `rest`, probing candidate offsets through the cache.
pub fn find_all_empties<C: SearchCache, K: AsUsize>(
    cache: &C,
    check: &Vec<u32>,
    ch: usize,
    rest: &Vec<K>,
) -> (r: usize)
    requires
        cache.inv(check@.len() as nat, filled_of(check@)),
        ch <= 0x10FFFF,
        check@.len() <= cell_limit(),
    ensures
        1 <= r,
        base_fits(check@, ch as int, rest@, r as int),
        forall|b: int| 1 <= b < r ==> !base_fits(check@, ch as int, rest@, b),
        r as int <= imax(check@.len() as int, 2),
{
    let len = check.len();
    let ghost bound: int = imax(check@.len() as int, 2);
    proof {
        // the fallback offset past every cell always fits
        assert(base_fits(check@, ch as int, rest@, bound)) by {
            assert forall|i: int| 0 <= i < rest@.len() implies avail(
                check@,
                bound + #[trigger] rest@[i].as_int(),
            ) by {
                rest@[i].lemma_unit_bounds();
            }
        }
    }
    let mut index: usize = 0;
    loop
        invariant
            cache.inv(check@.len() as nat, filled_of(check@)),
            ch <= 0x10FFFF,
            check@.len() <= cell_limit(),
            bound == imax(check@.len() as int, 2),
            (index as int) < bound,
            base_fits(check@, ch as int, rest@, bound),
            forall|b: int| 1 <= b <= index ==> !base_fits(check@, ch as int, rest@, b),
        decreases bound - index,
    {
        let probe = cache.find_empty(ch + index, check);
        let cand = probe - ch;
        proof {
            assert(cand > index);
            assert(cand as int <= bound) by {
                if (cand as int) > bound {
                    // the fitting fallback offset would have been returned first
                    assert(avail(check@, bound + ch));
                    assert(ch + index < bound + ch < probe);
                }
            }
            assert forall|b: int| index < b < cand implies !base_fits(
                check@,
                ch as int,
                rest@,
                b,
            ) by {
                assert(!avail(check@, b + ch));
            }
        }
        let mut ok = true;
        let mut i: usize = 0;
        while i < rest.len()
            invariant
                cache.inv(check@.len() as nat, filled_of(check@)),
                1 <= cand as int <= bound,
                bound == imax(check@.len() as int, 2),
                check@.len() <= cell_limit(),
                i <= rest@.len(),
                ok ==> forall|j: int|
                    0 <= j < i ==> avail(check@, cand as int + #[trigger] rest@[j].as_int()),
                !ok ==> !base_fits(check@, ch as int, rest@, cand as int),
            decreases rest@.len() - i,
        {
            let x = rest[i].as_usize();
            proof {
                rest@[i as int].lemma_unit_bounds();
                K::lemma_unit_max_bound();
            }
            if cand + x < 2 {
                proof {
                    assert(!avail(check@, cand as int + rest@[i as int].as_int()));
                }
                ok = false;
                i = rest.len();
            } else if cache.is_filled(cand + x, check) {
                proof {
                    assert(!avail(check@, cand as int + rest@[i as int].as_int()));
                }
                ok = false;
                i = rest.len();
            } else {
                i += 1;
            }
        }
        if ok {
            proof {
                assert(base_fits(check@, ch as int, rest@, cand as int));
            }
            return cand;
        }
        proof {
            assert((cand as int) < bound);
        }
        index = cand;
    }
}

/// Cache equivalence: the slot a search returns is uniquely determined by the
/// occupancy state and the start position, so every strategy that meets the
/// `find_empty` contract returns the same cell as every other, the no-cache
/// linear scan included.
pub proof fn lemma_find_empty_unique(check: Seq<u32>, search_start: int, r1: int, r2: int)
    requires
        search_start < r1,
        avail(check, r1),
        forall|j: int| search_start < j < r1 ==> !avail(check, j),
        search_start < r2,
        avail(check, r2),
        forall|j: int| search_start < j < r2 ==> !avail(check, j),
    ensures
        r1 == r2,
{
}

/// Cache equivalence for sibling sets: the base offset fitting a whole sorted
/// sibling list is likewise unique, so `find_all_empties` answers identically
/// through every strategy.
pub proof fn lemma_find_base_unique<K: AsUsize>(
    check: Seq<u32>,
    ch: int,
    rest: Seq<K>,
    r1: int,
    r2: int,
)
    requires
        1 <= r1,
        base_fits(check, ch, rest, r1),
        forall|b: int| 1 <= b < r1 ==> !base_fits(check, ch, rest, b),
        1 <= r2,
        base_fits(check, ch, rest, r2),
        forall|b: int| 1 <= b < r2 ==> !base_fits(check, ch, rest, b),
    ensures
        r1 == r2,
{
}

} // verus!
