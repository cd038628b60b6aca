use vstd::prelude::*;
use crate::as_chars::{AsChars, AsUsize};
use crate::search_cache::{avail, base_fits, cell_limit, filled_of, find_all_empties, imax, SearchCache, SearchCache2};

verus! {

// ---------------------------------------------------------------------------
// The mathematical reading of a base/check array pair: a transition on unit
// `c` from state `s` lands at `base[s] + c`, and is valid only if the landing
// cell's check entry points back at `s`. A key denotes the state reached by
// walking its units from the root state 1; the key's bucket is the data at
// that state.
// ---------------------------------------------------------------------------

/// A state that exists: the root, or a cell some state has claimed.
pub open spec fn live(check: Seq<u32>, s: int) -> bool {
    s == 1 || (2 <= s < check.len() && check[s] != 0)
}

/// One transition of the transducer.
pub open spec fn step(base: Seq<u32>, check: Seq<u32>, s: int, c: int) -> Option<int> {
    if 0 <= s < base.len() && base[s] != 0 {
        let t = base[s] as int + c;
        if 0 <= t < check.len() && check[t] as int == s {
            Option::Some(t)
        } else {
            Option::None
        }
    } else {
        Option::None
    }
}

/// The state reached from `s` by consuming `key`, unit by unit.
pub open spec fn walk(base: Seq<u32>, check: Seq<u32>, s: int, key: Seq<int>) -> Option<int>
    decreases key.len(),
{
    if key.len() == 0 {
        Option::Some(s)
    } else {
        match step(base, check, s, key[0]) {
            Option::Some(t) => walk(base, check, t, key.drop_first()),
            Option::None => Option::None,
        }
    }
}

/// The values stored at a state; empty outside the arrays.
pub open spec fn bucket<V>(data: Seq<Seq<V>>, t: int) -> Seq<V> {
    if 0 <= t < data.len() {
        data[t]
    } else {
        Seq::empty()
    }
}

/// What the arrays associate with a key read from state `s`: the bucket of
/// the state the key walks to, or the empty sequence when the walk dies.
pub open spec fn lookup_at<V>(
    base: Seq<u32>,
    check: Seq<u32>,
    data: Seq<Seq<V>>,
    s: int,
    key: Seq<int>,
) -> Seq<V> {
    match walk(base, check, s, key) {
        Option::Some(t) => bucket(data, t),
        Option::None => Seq::empty(),
    }
}

/// A key's units as numeric values.
pub open spec fn key_ints<K: AsUsize>(key: Seq<K>) -> Seq<int> {
    key.map_values(|k: K| k.as_int())
}

pub open spec fn nonneg_units(key: Seq<int>) -> bool {
    forall|i: int| 0 <= i < key.len() ==> key[i] >= 0
}

/// Conditions on one occupied cell: its parent is a live state whose base
/// reaches it with a valid unit offset.
pub open spec fn parent_ok<K: AsUsize>(base: Seq<u32>, check: Seq<u32>, t: int) -> bool {
    let p = check[t] as int;
    &&& live(check, p)
    &&& p != t
    &&& base[p] != 0
    &&& base[p] as int <= t
    &&& t - base[p] as int <= K::unit_max()
    &&& K::unit_valid(t - base[p] as int)
}

/// Structural well-formedness of the base/check pair.
pub open spec fn cells_wf<K: AsUsize>(base: Seq<u32>, check: Seq<u32>) -> bool {
    &&& base.len() == check.len()
    &&& 2 <= check.len() <= cell_limit()
    &&& check[0] == 0
    &&& check[1] == 0
    &&& base[0] == 0
    &&& forall|t: int| 2 <= t < check.len() && check[t] != 0 ==> parent_ok::<K>(base, check, t)
    &&& forall|s: int| 0 <= s < check.len() ==> (#[trigger] base[s]) as int <= check.len()
    &&& forall|t: int|
        0 <= t < check.len() && check[t] == 0 && t != 1 ==> (#[trigger] base[t]) == 0
}

/// The total number of stored values.
pub open spec fn total_len<V>(data: Seq<Seq<V>>) -> int
    decreases data.len(),
{
    if data.len() == 0 {
        0
    } else {
        total_len(data.drop_last()) + data.last().len()
    }
}

/// Conditions on the data buckets: one per cell, and empty on free cells.
pub open spec fn data_wf<V>(check: Seq<u32>, data: Seq<Seq<V>>) -> bool {
    &&& data.len() == check.len()
    &&& 0 <= total_len(data) <= cell_limit()
    &&& forall|t: int|
        0 <= t < check.len() && check[t] == 0 && t != 1 ==> (#[trigger] data[t]).len() == 0
}

// ---------------------------------------------------------------------------
// Lemmas about walks.
// ---------------------------------------------------------------------------

/// Extending a key by one unit extends the walk by one step.
pub proof fn lemma_walk_snoc(base: Seq<u32>, check: Seq<u32>, s: int, key: Seq<int>, c: int)
    ensures
        walk(base, check, s, key.push(c)) == (match walk(base, check, s, key) {
            Option::Some(t) => step(base, check, t, c),
            Option::None => Option::None::<int>,
        }),
    decreases key.len(),
{
    if key.len() == 0 {
        assert(key.push(c).drop_first() =~= key);
        assert(key.push(c)[0] == c);
        assert(key.push(c).len() == 1);
        match step(base, check, s, c) {
            Option::Some(t) => {
                assert(walk(base, check, s, key.push(c)) == walk(
                    base,
                    check,
                    t,
                    key.push(c).drop_first(),
                ));
                assert(walk(base, check, t, key) == Option::Some(t));
            },
            Option::None => {},
        }
    } else {
        assert(key.push(c).drop_first() =~= key.drop_first().push(c));
        assert(key.push(c)[0] == key[0]);
        match step(base, check, s, key[0]) {
            Option::Some(t) => {
                assert(walk(base, check, s, key.push(c)) == walk(
                    base,
                    check,
                    t,
                    key.drop_first().push(c),
                ));
                lemma_walk_snoc(base, check, t, key.drop_first(), c);
            },
            Option::None => {},
        }
    }
}

/// A walk from a live state only lands on live states.
pub proof fn lemma_walk_live<K: AsUsize>(
    base: Seq<u32>,
    check: Seq<u32>,
    s: int,
    key: Seq<int>,
    t: int,
)
    requires
        cells_wf::<K>(base, check),
        live(check, s),
        walk(base, check, s, key) == Option::Some(t),
    ensures
        live(check, t),
    decreases key.len(),
{
    if key.len() == 0 {
    } else {
        let u = step(base, check, s, key[0]);
        let uu = u->0;
        assert(check[uu] as int == s);
        assert(s != 0) by {
            if s == 0 {
                assert(base[0] == 0);
            }
        }
        assert(live(check, uu)) by {
            if uu < 2 {
                assert(check[uu] == 0);
            }
        }
        lemma_walk_live::<K>(base, check, uu, key.drop_first(), t);
    }
}

/// Two keys that walk from the root to the same state are the same key: every
/// occupied cell records its one parent and its one incoming unit, so the
/// path to a state is unique.
pub proof fn lemma_walk_injective<K: AsUsize>(
    base: Seq<u32>,
    check: Seq<u32>,
    k1: Seq<int>,
    k2: Seq<int>,
    t: int,
)
    requires
        cells_wf::<K>(base, check),
        walk(base, check, 1, k1) == Option::Some(t),
        walk(base, check, 1, k2) == Option::Some(t),
    ensures
        k1 == k2,
    decreases k1.len(),
{
    lemma_walk_live::<K>(base, check, 1, k1, t);
    if k1.len() == 0 {
        assert(t == 1);
        if k2.len() != 0 {
            let pre2 = k2.drop_last();
            let last2 = k2.last();
            assert(k2 =~= pre2.push(last2));
            lemma_walk_snoc(base, check, 1, pre2, last2);
            let p2 = walk(base, check, 1, pre2)->0;
            assert(step(base, check, p2, last2) == Option::Some(1int));
            assert(check[1] as int == p2);
            lemma_walk_live::<K>(base, check, 1, pre2, p2);
            assert(base[0] == 0);
            assert(false);
        }
    } else {
        assert(t != 1) by {
            let pre1 = k1.drop_last();
            let last1 = k1.last();
            assert(k1 =~= pre1.push(last1));
            lemma_walk_snoc(base, check, 1, pre1, last1);
            let p1 = walk(base, check, 1, pre1)->0;
            assert(step(base, check, p1, last1) == Option::Some(t));
            if t == 1 {
                assert(check[1] as int == p1);
                lemma_walk_live::<K>(base, check, 1, pre1, p1);
                assert(base[0] == 0);
            }
        }
        if k2.len() == 0 {
            assert(t == 1);
            assert(false);
        }
        let pre1 = k1.drop_last();
        let last1 = k1.last();
        let pre2 = k2.drop_last();
        let last2 = k2.last();
        assert(k1 =~= pre1.push(last1));
        assert(k2 =~= pre2.push(last2));
        lemma_walk_snoc(base, check, 1, pre1, last1);
        lemma_walk_snoc(base, check, 1, pre2, last2);
        let p1 = walk(base, check, 1, pre1)->0;
        let p2 = walk(base, check, 1, pre2)->0;
        assert(step(base, check, p1, last1) == Option::Some(t));
        assert(step(base, check, p2, last2) == Option::Some(t));
        assert(check[t] as int == p1);
        assert(check[t] as int == p2);
        assert(p1 == p2);
        assert(t == base[p1] as int + last1);
        assert(t == base[p2] as int + last2);
        assert(last1 == last2);
        lemma_walk_injective::<K>(base, check, pre1, pre2, p1);
        assert(k1 =~= k2);
    }
}

/// A walk over a concatenation decomposes into two walks.
pub proof fn lemma_walk_app(base: Seq<u32>, check: Seq<u32>, s: int, k1: Seq<int>, k2: Seq<int>)
    ensures
        walk(base, check, s, k1 + k2) == (match walk(base, check, s, k1) {
            Option::Some(t) => walk(base, check, t, k2),
            Option::None => Option::None::<int>,
        }),
    decreases k1.len(),
{
    if k1.len() == 0 {
        assert(k1 + k2 =~= k2);
        assert(walk(base, check, s, k1) == Option::Some(s));
    } else {
        assert((k1 + k2)[0] == k1[0]);
        assert((k1 + k2).len() > 0);
        assert((k1 + k2).drop_first() =~= k1.drop_first() + k2);
        match step(base, check, s, k1[0]) {
            Option::Some(t) => {
                lemma_walk_app(base, check, t, k1.drop_first(), k2);
            },
            Option::None => {},
        }
    }
}

/// Once a walk dies on a prefix, it stays dead on every extension.
pub proof fn lemma_walk_dead_prefix(base: Seq<u32>, check: Seq<u32>, s: int, key: Seq<int>, l: int)
    requires
        0 <= l <= key.len(),
        walk(base, check, s, key.take(l)) == Option::None::<int>,
    ensures
        walk(base, check, s, key) == Option::None::<int>,
        forall|m: int| l <= m <= key.len() ==> walk(base, check, s, key.take(m)) == Option::None::<int>,
{
    assert forall|m: int| l <= m <= key.len() implies walk(base, check, s, key.take(m))
        == Option::None::<int> by {
        assert(key.take(m) =~= key.take(l) + key.take(m).skip(l));
        lemma_walk_app(base, check, s, key.take(l), key.take(m).skip(l));
    }
    assert(key.take(key.len() as int) =~= key);
}

/// Walks commute with a state renaming `phi` as soon as single steps do: the
/// core of the relocation argument.
pub proof fn lemma_walk_phi<K: AsUsize>(
    base_a: Seq<u32>,
    check_a: Seq<u32>,
    base_b: Seq<u32>,
    check_b: Seq<u32>,
    phi: spec_fn(int) -> int,
    s: int,
    key: Seq<int>,
)
    requires
        cells_wf::<K>(base_a, check_a),
        live(check_a, s),
        nonneg_units(key),
        forall|x: int, c: int|
            live(check_a, x) && c >= 0 ==> (match #[trigger] step(base_a, check_a, x, c) {
                Option::Some(u) => step(base_b, check_b, phi(x), c) == Option::Some(phi(u)),
                Option::None => step(base_b, check_b, phi(x), c) == Option::None::<int>,
            }),
    ensures
        walk(base_b, check_b, phi(s), key) == (match walk(base_a, check_a, s, key) {
            Option::Some(t) => Option::Some(phi(t)),
            Option::None => Option::None::<int>,
        }),
    decreases key.len(),
{
    if key.len() == 0 {
    } else {
        assert(key[0] >= 0);
        match step(base_a, check_a, s, key[0]) {
            Option::Some(u) => {
                assert(live(check_a, u)) by {
                    assert(check_a[u] as int == s);
                    if s == 0 {
                        assert(base_a[0] == 0);
                    }
                    if u < 2 {
                        assert(check_a[u] == 0);
                    }
                }
                assert(nonneg_units(key.drop_first())) by {
                    assert(forall|i: int|
                        0 <= i < key.drop_first().len() ==> key.drop_first()[i] == key[i + 1]);
                }
                lemma_walk_phi::<K>(base_a, check_a, base_b, check_b, phi, u, key.drop_first());
            },
            Option::None => {},
        }
    }
}

// ---------------------------------------------------------------------------
// Helper lemmas for the data buckets.
// ---------------------------------------------------------------------------

pub open spec fn views_of<V>(data: Seq<Vec<V>>) -> Seq<Seq<V>> {
    data.map_values(|v: Vec<V>| v@)
}

pub proof fn lemma_total_len_nonneg<V>(data: Seq<Seq<V>>)
    ensures
        total_len(data) >= 0,
    decreases data.len(),
{
    if data.len() > 0 {
        lemma_total_len_nonneg(data.drop_last());
    }
}

pub proof fn lemma_total_len_take<V>(data: Seq<Seq<V>>, i: int)
    requires
        0 <= i < data.len(),
    ensures
        total_len(data.take(i + 1)) == total_len(data.take(i)) + data[i].len(),
{
    assert(data.take(i + 1).drop_last() =~= data.take(i));
    assert(data.take(i + 1).last() == data[i]);
}

pub proof fn lemma_total_len_take_le<V>(data: Seq<Seq<V>>, i: int)
    requires
        0 <= i <= data.len(),
    ensures
        total_len(data.take(i)) <= total_len(data),
    decreases data.len() - i,
{
    if i == data.len() {
        assert(data.take(i) =~= data);
    } else {
        lemma_total_len_take(data, i);
        lemma_total_len_take_le(data, i + 1);
    }
}

/// Updating one bucket changes the total by the difference of lengths.
pub proof fn lemma_total_len_update<V>(data: Seq<Seq<V>>, i: int, x: Seq<V>)
    requires
        0 <= i < data.len(),
    ensures
        total_len(data.update(i, x)) == total_len(data) - data[i].len() + x.len(),
    decreases data.len(),
{
    if i == data.len() - 1 {
        assert(data.update(i, x).drop_last() =~= data.drop_last());
        assert(data.update(i, x).last() == x);
    } else {
        assert(data.update(i, x).drop_last() =~= data.drop_last().update(i, x));
        assert(data.update(i, x).last() == data.last());
        lemma_total_len_update(data.drop_last(), i, x);
    }
}

// ---------------------------------------------------------------------------
// The compact transducer itself.
// ---------------------------------------------------------------------------

enum Index {
    Zero,
    Transit,
    Empty,
    Conflict,
    OutOfRange,
}

/// The double array: parallel base/check cell arrays, one value bucket per
/// state, and a pluggable free-slot search strategy used while building.
pub struct DoubleArray<K, V, C> {
    base: Vec<u32>,
    check: Vec<u32>,
    data: Vec<Vec<V>>,
    phantom: core::marker::PhantomData<K>,
    search_cache: C,
}

impl<K: AsUsize, V, C: SearchCache2> DoubleArray<K, V, C> {
    /// Structural well-formedness: sound cell arrays, one bucket per cell
    /// with free cells empty, and the search cache in step with occupancy.
    pub closed spec fn wf(&self) -> bool {
        &&& cells_wf::<K>(self.base@, self.check@)
        &&& data_wf(self.check@, views_of(self.data@))
        &&& self.search_cache.inv(self.check@.len() as nat, filled_of(self.check@))
    }

    /// The values associated with a key, in insertion order; empty when the
    /// key is absent.
    pub closed spec fn lookup(&self, key: Seq<K>) -> Seq<V> {
        lookup_at(self.base@, self.check@, views_of(self.data@), 1, key_ints(key))
    }

    pub closed spec fn spec_count(&self) -> int {
        total_len(views_of(self.data@))
    }

    pub closed spec fn spec_len(&self) -> int {
        self.check@.len() as int
    }

    /// Room left for inserting one key of `key_len` units: every unit can
    /// force the arrays to grow by at most a base offset plus the largest
    /// unit value.
    pub open spec fn insert_ready(&self, key_len: int) -> bool {
        &&& self.spec_len() + key_len * 0x110001 <= cell_limit()
        &&& self.spec_count() + 1 <= cell_limit()
    }

    pub fn new() -> (r: Self)
        ensures
            r.wf(),
            r.spec_count() == 0,
            forall|key: Seq<K>| r.lookup(key) == Seq::<V>::empty(),
            r.spec_len() == 2,
    {
        let mut base: Vec<u32> = Vec::new();
        base.push(0);
        base.push(0);
        let mut check: Vec<u32> = Vec::new();
        check.push(0);
        check.push(0);
        let mut data: Vec<Vec<V>> = Vec::new();
        data.push(Vec::new());
        data.push(Vec::new());
        let search_cache = C::new(2);
        let r = DoubleArray { base, check, data, phantom: core::marker::PhantomData, search_cache };
        proof {
            let views = views_of(r.data@);
            assert(views.len() == 2);
            assert(total_len(views.drop_last()) == total_len(views.drop_last().drop_last()) + views.drop_last().last().len());
            assert(views.drop_last().drop_last().len() == 0);
            assert(views[0].len() == 0);
            assert(views[1].len() == 0);
            assert(r.spec_count() == 0);
            assert forall|key: Seq<K>| r.lookup(key) == Seq::<V>::empty() by {
                let kints = key_ints(key);
                if kints.len() == 0 {
                    assert(walk(r.base@, r.check@, 1, kints) == Option::Some(1int));
                    assert(bucket(views, 1) == views[1]);
                } else {
                    assert(r.base@[1] == 0);
                    assert(step(r.base@, r.check@, 1, kints[0]) is None);
                }
            }
        }
        r
    }

    pub fn count(&self) -> (r: usize)
        requires
            self.wf(),
        ensures
            r as int == self.spec_count(),
    {
        let ghost views = views_of(self.data@);
        let mut sum: usize = 0;
        let mut i: usize = 0;
        proof {
            assert(views.take(0) =~= Seq::<Seq<V>>::empty());
        }
        while i < self.data.len()
            invariant
                self.wf(),
                i <= self.data@.len(),
                views == views_of(self.data@),
                sum as int == total_len(views.take(i as int)),
                sum as int <= cell_limit(),
            decreases self.data@.len() - i,
        {
            proof {
                lemma_total_len_take(views, i as int);
                lemma_total_len_take_le(views, i as int + 1);
                assert(views[i as int] == self.data@[i as int]@);
            }
            sum = sum + self.data[i].len();
            i += 1;
        }
        proof {
            assert(views.take(self.data@.len() as int) =~= views);
        }
        sum
    }

    fn next_index(&self, current_index: usize, ch: K) -> (r: (Index, usize))
        requires
            self.wf(),
            live(self.check@, current_index as int),
        ensures
            ({
                let b = self.base@;
                let ck = self.check@;
                let c = ch.as_int();
                let cur = current_index as int;
                match r.0 {
                    Index::Zero => b[cur] == 0 && step(b, ck, cur, c) is None,
                    Index::Transit => step(b, ck, cur, c) == Option::Some(r.1 as int) && 2 <= r.1
                        < ck.len(),
                    Index::Empty => b[cur] != 0 && r.1 as int == b[cur] + c && r.1 < ck.len()
                        && ck[r.1 as int] == 0 && step(b, ck, cur, c) is None,
                    Index::Conflict => b[cur] != 0 && r.1 as int == b[cur] + c && r.1 < ck.len()
                        && ck[r.1 as int] != 0 && ck[r.1 as int] as int != cur && step(
                        b,
                        ck,
                        cur,
                        c,
                    ) is None,
                    Index::OutOfRange => b[cur] != 0 && r.1 as int == b[cur] + c && r.1
                        >= ck.len() && step(b, ck, cur, c) is None,
                }
            }),
    {
        proof {
            ch.lemma_unit_bounds();
            K::lemma_unit_max_bound();
        }
        let current_base = self.base[current_index];
        if current_base == 0 {
            return (Index::Zero, 0);
        }
        let next_ix = current_base as usize + ch.as_usize();
        if next_ix < self.check.len() {
            let check_ix = self.check[next_ix];
            if check_ix as usize == current_index {
                proof {
                    assert(current_index as int != 0);
                }
                (Index::Transit, next_ix)
            } else if check_ix == 0 {
                proof {
                    assert(current_index as int != 0) by {
                        if current_index as int == 0 {
                            assert(self.base@[0] == 0);
                        }
                    }
                }
                (Index::Empty, next_ix)
            } else {
                (Index::Conflict, next_ix)
            }
        } else {
            (Index::OutOfRange, next_ix)
        }
    }

    pub fn get<'a, I: AsChars<K> + ?Sized>(&'a self, key: &I) -> (r: Option<&'a [V]>)
        requires
            self.wf(),
        ensures
            match r {
                Option::Some(vs) => vs@ == self.lookup(key.units()) && self.lookup(
                    key.units(),
                ).len() > 0,
                Option::None => self.lookup(key.units()).len() == 0,
            },
    {
        let units = key.as_chars();
        let ghost kints = key_ints(units@);
        let ghost b = self.base@;
        let ghost ck = self.check@;
        let ghost views = views_of(self.data@);
        let mut current_ix: usize = 1;
        let mut i: usize = 0;
        while i < units.len()
            invariant
                self.wf(),
                i <= units@.len(),
                units@ == key.units(),
                kints == key_ints(units@),
                b == self.base@,
                ck == self.check@,
                views == views_of(self.data@),
                walk(b, ck, 1, kints.take(i as int)) == Option::Some(current_ix as int),
                live(ck, current_ix as int),
                current_ix < ck.len(),
            decreases units@.len() - i,
        {
            proof {
                assert(kints[i as int] == units@[i as int].as_int());
                units@[i as int].lemma_unit_bounds();
            }
            let (state, next_ix) = self.next_index(current_ix, units[i]);
            match state {
                Index::Transit => {
                    proof {
                        lemma_walk_snoc(b, ck, 1, kints.take(i as int), kints[i as int]);
                        assert(kints.take(i as int + 1) =~= kints.take(i as int).push(
                            kints[i as int],
                        ));
                        assert(ck[next_ix as int] as int == current_ix as int);
                    }
                    current_ix = next_ix;
                },
                _ => {
                    proof {
                        lemma_walk_snoc(b, ck, 1, kints.take(i as int), kints[i as int]);
                        assert(kints.take(i as int + 1) =~= kints.take(i as int).push(
                            kints[i as int],
                        ));
                        lemma_walk_dead_prefix(b, ck, 1, kints, i as int + 1);
                        assert(self.lookup(key.units()) == Seq::<V>::empty()) by {
                            assert(kints =~= key_ints(key.units()));
                        }
                    }
                    return None;
                },
            }
            i += 1;
        }
        proof {
            assert(kints.take(i as int) =~= kints);
            assert(kints =~= key_ints(key.units()));
            assert(self.lookup(key.units()) == bucket(views, current_ix as int));
            assert(views[current_ix as int] == self.data@[current_ix as int]@);
        }
        let vec = &self.data[current_ix];
        if vec.len() > 0 {
            Some(vec.as_slice())
        } else {
            None
        }
    }

    /// Reports every dictionary entry that is a prefix of `key`: the pairs
    /// (consumed length, bucket) for exactly those prefix lengths whose
    /// bucket is non-empty, in increasing length order.
    #[verifier::rlimit(60)]
    pub fn each_prefix<I: AsChars<K> + ?Sized>(&self, key: &I) -> (r: Vec<(usize, Vec<V>)>) where
        V: Copy,

        requires
            self.wf(),
        ensures
            forall|j: int|
                0 <= j < r@.len() ==> {
                    &&& 1 <= (#[trigger] r@[j]).0 <= key.units().len()
                    &&& r@[j].1@ == self.lookup(key.units().take(r@[j].0 as int))
                    &&& self.lookup(key.units().take(r@[j].0 as int)).len() > 0
                },
            forall|j1: int, j2: int| 0 <= j1 < j2 < r@.len() ==> r@[j1].0 < r@[j2].0,
            forall|l: int|
                1 <= l <= key.units().len() && self.lookup(key.units().take(l)).len() > 0
                    ==> exists|j: int| 0 <= j < r@.len() && (#[trigger] r@[j]).0 == l,
    {
        let units = key.as_chars();
        let ghost kunits = key.units();
        let ghost kints = key_ints(units@);
        let ghost b = self.base@;
        let ghost ck = self.check@;
        let ghost views = views_of(self.data@);
        let mut r: Vec<(usize, Vec<V>)> = Vec::new();
        let mut current_ix: usize = 1;
        let mut i: usize = 0;
        proof {
            assert(kints =~= key_ints(kunits));
        }
        while i < units.len()
            invariant
                self.wf(),
                i <= units@.len(),
                units@ == kunits,
                kunits == key.units(),
                kints == key_ints(units@),
                b == self.base@,
                ck == self.check@,
                views == views_of(self.data@),
                walk(b, ck, 1, kints.take(i as int)) == Option::Some(current_ix as int),
                live(ck, current_ix as int),
                current_ix < ck.len(),
                forall|j: int|
                    0 <= j < r@.len() ==> {
                        &&& 1 <= (#[trigger] r@[j]).0 <= i as int
                        &&& r@[j].1@ == self.lookup(kunits.take(r@[j].0 as int))
                        &&& self.lookup(kunits.take(r@[j].0 as int)).len() > 0
                    },
                forall|j1: int, j2: int| 0 <= j1 < j2 < r@.len() ==> r@[j1].0 < r@[j2].0,
                forall|l: int|
                    1 <= l <= i as int && self.lookup(kunits.take(l)).len() > 0 ==> exists|j: int|
                        0 <= j < r@.len() && (#[trigger] r@[j]).0 == l,
            decreases units@.len() - i,
        {
            proof {
                assert(kints[i as int] == units@[i as int].as_int());
                assert(key_ints(kunits.take(i as int + 1)) =~= kints.take(i as int + 1));
                lemma_walk_snoc(b, ck, 1, kints.take(i as int), kints[i as int]);
                assert(kints.take(i as int + 1) =~= kints.take(i as int).push(kints[i as int]));
            }
            let (state, next_ix) = self.next_index(current_ix, units[i]);
            match state {
                Index::Transit => {
                    current_ix = next_ix;
                    proof {
                        assert(self.lookup(kunits.take(i as int + 1)) == bucket(
                            views,
                            current_ix as int,
                        ));
                        assert(views[current_ix as int] == self.data@[current_ix as int]@);
                    }
                    let vec = &self.data[current_ix];
                    if vec.len() > 0 {
                        let cloned = clone_bucket(vec);
                        let ghost r0 = r@;
                        r.push((i + 1, cloned));
                        proof {
                            assert(r@ == r0.push(((i + 1) as usize, cloned)));
                            assert forall|l: int|
                                1 <= l <= i as int + 1 && self.lookup(kunits.take(l)).len()
                                    > 0 implies exists|j: int|
                                0 <= j < r@.len() && (#[trigger] r@[j]).0 == l by {
                                if l <= i as int {
                                    let j0 = choose|j: int|
                                        0 <= j < r0.len() && (#[trigger] r0[j]).0 == l;
                                    assert(r@[j0].0 == l);
                                } else {
                                    assert(r@[r@.len() - 1].0 == l);
                                }
                            }
                        }
                    }
                },
                _ => {
                    proof {
                        lemma_walk_dead_prefix(b, ck, 1, kints, i as int + 1);
                        assert forall|l: int|
                            i as int + 1 <= l <= kunits.len() implies self.lookup(
                            kunits.take(l),
                        ).len() == 0 by {
                            assert(key_ints(kunits.take(l)) =~= kints.take(l));
                        }
                        assert forall|l: int|
                            1 <= l <= kunits.len() && self.lookup(kunits.take(l)).len()
                                > 0 implies exists|j: int|
                            0 <= j < r@.len() && (#[trigger] r@[j]).0 == l by {
                            assert(l <= i as int);
                        }
                        assert(kunits.len() == units@.len());
                        assert(key.units() == kunits);
                        assert forall|j: int| 0 <= j < r@.len() implies {
                            &&& 1 <= (#[trigger] r@[j]).0 <= key.units().len()
                            &&& r@[j].1@ == self.lookup(key.units().take(r@[j].0 as int))
                            &&& self.lookup(key.units().take(r@[j].0 as int)).len() > 0
                        } by {
                            assert(r@[j].0 <= i as int);
                            assert(key.units().take(r@[j].0 as int) == kunits.take(
                                r@[j].0 as int,
                            ));
                        }
                        assert forall|l: int|
                            1 <= l <= key.units().len() && self.lookup(
                                key.units().take(l),
                            ).len() > 0 implies exists|j: int|
                            0 <= j < r@.len() && (#[trigger] r@[j]).0 == l by {
                            assert(key.units().take(l) == kunits.take(l));
                            assert(l <= i as int);
                        }
                    }
                    return r;
                },
            }
            i += 1;
        }
        r
    }
}

// ---------------------------------------------------------------------------
// How each construction step changes (or provably does not change) the map
// the arrays denote.
// ---------------------------------------------------------------------------

pub proof fn lemma_key_ints_nonneg<K: AsUsize>(key: Seq<K>)
    ensures
        nonneg_units(key_ints(key)),
        key_ints(key).len() == key.len(),
{
    assert forall|i: int| 0 <= i < key_ints(key).len() implies key_ints(key)[i] >= 0 by {
        key[i].lemma_unit_bounds();
    }
}

pub proof fn lemma_key_ints_injective<K: AsUsize>(k1: Seq<K>, k2: Seq<K>)
    requires
        key_ints(k1) == key_ints(k2),
    ensures
        k1 == k2,
{
    assert(key_ints(k1).len() == k1.len());
    assert(key_ints(k2).len() == k2.len());
    assert(k1.len() == k2.len());
    assert forall|i: int| 0 <= i < k1.len() implies k1[i] == k2[i] by {
        assert(key_ints(k1)[i] == k1[i].as_int());
        assert(key_ints(k2)[i] == k2[i].as_int());
        assert(k1[i].as_int() == k2[i].as_int());
        K::lemma_unit_injective(k1[i], k2[i]);
    }
    assert(k1 =~= k2);
}

/// If every single step agrees on the live states, the whole maps agree.
proof fn lemma_equiv_from_steps<K: AsUsize, V>(
    b_a: Seq<u32>,
    c_a: Seq<u32>,
    d_a: Seq<Seq<V>>,
    b_b: Seq<u32>,
    c_b: Seq<u32>,
    d_b: Seq<Seq<V>>,
)
    requires
        cells_wf::<K>(b_a, c_a),
        forall|x: int, c: int|
            live(c_a, x) && c >= 0 ==> #[trigger] step(b_b, c_b, x, c) == step(b_a, c_a, x, c),
        forall|t: int| live(c_a, t) ==> bucket(d_b, t) == bucket(d_a, t),
    ensures
        forall|key: Seq<int>|
            nonneg_units(key) ==> #[trigger] walk(b_b, c_b, 1, key) == walk(b_a, c_a, 1, key),
        forall|key: Seq<int>|
            nonneg_units(key) ==> #[trigger] lookup_at(b_b, c_b, d_b, 1, key) == lookup_at(
                b_a,
                c_a,
                d_a,
                1,
                key,
            ),
{
    let phi = |s: int| s;
    assert forall|key: Seq<int>| nonneg_units(key) implies #[trigger] walk(b_b, c_b, 1, key)
        == walk(b_a, c_a, 1, key) by {
        assert forall|x: int, c: int| live(c_a, x) && c >= 0 implies (match #[trigger] step(
            b_a,
            c_a,
            x,
            c,
        ) {
            Option::Some(u) => step(b_b, c_b, phi(x), c) == Option::Some(phi(u)),
            Option::None => step(b_b, c_b, phi(x), c) == Option::None::<int>,
        }) by {
            assert(step(b_b, c_b, x, c) == step(b_a, c_a, x, c));
        }
        lemma_walk_phi::<K>(b_a, c_a, b_b, c_b, phi, 1, key);
    }
    assert forall|key: Seq<int>| nonneg_units(key) implies #[trigger] lookup_at(
        b_b,
        c_b,
        d_b,
        1,
        key,
    ) == lookup_at(b_a, c_a, d_a, 1, key) by {
        match walk(b_a, c_a, 1, key) {
            Option::Some(t) => {
                lemma_walk_live::<K>(b_a, c_a, 1, key, t);
            },
            Option::None => {},
        }
    }
}

/// Claiming a free cell `t` as a child of `cur` adds one dead-end transition
/// and changes no association: the fresh state has no outgoing edges and an
/// empty bucket.
proof fn lemma_claim_preserves<K: AsUsize, V>(
    b_a: Seq<u32>,
    c_a: Seq<u32>,
    d: Seq<Seq<V>>,
    cur: int,
    t: int,
    s: int,
    key: Seq<int>,
)
    requires
        cells_wf::<K>(b_a, c_a),
        data_wf(c_a, d),
        2 <= t < c_a.len(),
        c_a[t] == 0,
        live(c_a, cur),
        live(c_a, s),
        nonneg_units(key),
    ensures
        lookup_at(b_a.update(t, 0), c_a.update(t, cur as u32), d, s, key) == lookup_at(
            b_a,
            c_a,
            d,
            s,
            key,
        ),
        walk(b_a, c_a, s, key) is Some ==> walk(
            b_a.update(t, 0),
            c_a.update(t, cur as u32),
            s,
            key,
        ) == walk(b_a, c_a, s, key),
    decreases key.len(),
{
    let b_b = b_a.update(t, 0);
    let c_b = c_a.update(t, cur as u32);
    if key.len() == 0 {
    } else {
        let c = key[0];
        assert(s != t) by {
            if s == t {
                assert(c_a[t] == 0);
                assert(!live(c_a, t));
            }
        }
        assert(nonneg_units(key.drop_first())) by {
            assert(forall|i: int|
                0 <= i < key.drop_first().len() ==> key.drop_first()[i] == key[i + 1]);
        }
        match step(b_a, c_a, s, c) {
            Option::Some(u) => {
                assert(u != t);
                assert(live(c_a, u)) by {
                    assert(c_a[u] as int == s);
                    if s == 0 {
                        assert(b_a[0] == 0);
                    }
                    if u < 2 {
                        assert(c_a[u] == 0);
                    }
                }
                assert(step(b_b, c_b, s, c) == Option::Some(u));
                lemma_claim_preserves::<K, V>(b_a, c_a, d, cur, t, u, key.drop_first());
            },
            Option::None => {
                match step(b_b, c_b, s, c) {
                    Option::Some(u) => {
                        // only the fresh dead-end edge can have appeared
                        assert(u == t);
                        assert(b_b[t] == 0);
                        assert(walk(b_b, c_b, t, key.drop_first()) is Some ==> key.drop_first().len() == 0);
                        assert(bucket(d, t).len() == 0);
                        assert(lookup_at(b_b, c_b, d, s, key) == Seq::<V>::empty());
                    },
                    Option::None => {},
                }
            },
        }
    }
}

impl<K: AsUsize, V, C: SearchCache2> DoubleArray<K, V, C> {
    /// Grows all three arrays to `size` cells; the new cells are free.
    fn extend(&mut self, size: usize)
        requires
            old(self).wf(),
            old(self).spec_len() < size,
            size <= cell_limit(),
        ensures
            final(self).wf(),
            final(self).spec_len() == size,
            final(self).spec_count() == old(self).spec_count(),
            final(self).base@.len() == size,
            forall|i: int| 0 <= i < old(self).spec_len() ==> final(self).base@[i] == old(self).base@[i],
            forall|i: int| 0 <= i < old(self).spec_len() ==> final(self).check@[i] == old(self).check@[i],
            forall|i: int|
                0 <= i < old(self).spec_len() ==> views_of(final(self).data@)[i] == views_of(
                    old(self).data@,
                )[i],
            forall|i: int| old(self).spec_len() <= i < size ==> final(self).base@[i] == 0,
            forall|i: int| old(self).spec_len() <= i < size ==> final(self).check@[i] == 0,
            forall|i: int|
                old(self).spec_len() <= i < size ==> views_of(final(self).data@)[i].len() == 0,
            forall|key: Seq<int>| #[trigger]
                nonneg_units(key) ==> walk(final(self).base@, final(self).check@, 1, key) == walk(
                    old(self).base@,
                    old(self).check@,
                    1,
                    key,
                ),
            forall|k: Seq<K>| final(self).lookup(k) == old(self).lookup(k),
    {
        let n = self.check.len();
        let ghost b_a = self.base@;
        let ghost c_a = self.check@;
        let ghost d_a = views_of(self.data@);
        let mut i: usize = n;
        while i < size
            invariant
                n <= i <= size,
                self.base@.len() == i,
                self.check@.len() == i,
                self.data@.len() == i,
                self.base@.take(n as int) == b_a,
                self.check@.take(n as int) == c_a,
                views_of(self.data@).take(n as int) == d_a,
                forall|j: int| n <= j < i ==> self.base@[j] == 0,
                forall|j: int| n <= j < i ==> self.check@[j] == 0,
                forall|j: int| n <= j < i ==> views_of(self.data@)[j].len() == 0,
                total_len(views_of(self.data@)) == total_len(d_a),
                b_a == old(self).base@,
                c_a == old(self).check@,
                d_a == views_of(old(self).data@),
                self.search_cache == old(self).search_cache,
                self.base@.take(n as int) =~= b_a,
            decreases size - i,
        {
            let ghost views0 = views_of(self.data@);
            self.base.push(0);
            self.check.push(0);
            self.data.push(Vec::new());
            proof {
                assert(views_of(self.data@) =~= views0.push(Seq::<V>::empty()));
                assert(views_of(self.data@).drop_last() =~= views0);
                assert(self.base@.take(n as int) =~= b_a);
                assert(self.check@.take(n as int) =~= c_a);
                assert(views_of(self.data@).take(n as int) =~= d_a);
            }
            i += 1;
        }
        self.search_cache.extend(size);
        proof {
            let b_b = self.base@;
            let c_b = self.check@;
            let d_b = views_of(self.data@);
            assert forall|j: int| 0 <= j < n implies b_b[j] == b_a[j] && c_b[j] == c_a[j]
                && d_b[j] == d_a[j] by {
                assert(b_b.take(n as int)[j] == b_b[j]);
                assert(c_b.take(n as int)[j] == c_b[j]);
                assert(d_b.take(n as int)[j] == d_b[j]);
            }
            assert(cells_wf::<K>(b_b, c_b)) by {
                assert forall|t: int| 2 <= t < c_b.len() && c_b[t] != 0 implies parent_ok::<K>(
                    b_b,
                    c_b,
                    t,
                ) by {
                    assert(t < n as int);
                    assert(parent_ok::<K>(b_a, c_a, t));
                    let p = c_a[t] as int;
                    assert(live(c_b, p)) by {
                        if p != 1 {
                            assert(c_b[p] == c_a[p]);
                        }
                    }
                }
            }
            assert(data_wf(c_b, d_b));
            // the cache: occupancy is unchanged by appending free cells
            assert(filled_of(c_b) =~= filled_of(c_a));
            assert(self.search_cache.inv(c_b.len() as nat, filled_of(c_b)));
            assert forall|x: int, c: int| live(c_a, x) && c >= 0 implies #[trigger] step(
                b_b,
                c_b,
                x,
                c,
            ) == step(b_a, c_a, x, c) by {
                assert(b_b[x] == b_a[x]);
                if b_a[x] != 0 {
                    let t = b_a[x] as int + c;
                    if t < n as int {
                        assert(c_b[t] == c_a[t]);
                    } else if t < size as int {
                        assert(c_b[t] == 0);
                        assert(x != 0) by {
                            if x == 0 {
                                assert(b_a[0] == 0);
                            }
                        }
                    }
                }
            }
            lemma_equiv_from_steps::<K, V>(b_a, c_a, d_a, b_b, c_b, d_b);
            assert forall|k: Seq<K>| self.lookup(k) == old(self).lookup(k) by {
                lemma_key_ints_nonneg(k);
            }
        }
    }

    /// Claims the free cell `next_ix` as a child of `current_ix`. The fresh
    /// state has no outgoing transitions and an empty bucket, so every
    /// association is untouched.
    #[verifier::rlimit(100)]
    #[verifier::spinoff_prover]
    fn update(&mut self, current_ix: usize, next_ix: usize) -> (r: usize)
        requires
            old(self).wf(),
            live(old(self).check@, current_ix as int),
            current_ix < old(self).spec_len(),
            old(self).base@[current_ix as int] != 0,
            2 <= next_ix < old(self).spec_len(),
            old(self).check@[next_ix as int] == 0,
            old(self).base@[current_ix as int] as int <= next_ix as int,
            next_ix as int - old(self).base@[current_ix as int] as int <= K::unit_max(),
            K::unit_valid(next_ix as int - old(self).base@[current_ix as int] as int),
        ensures
            final(self).wf(),
            final(self).spec_len() == old(self).spec_len(),
            final(self).spec_count() == old(self).spec_count(),
            final(self).base@ == old(self).base@.update(next_ix as int, 0u32),
            final(self).check@ == old(self).check@.update(next_ix as int, current_ix as u32),
            final(self).data@ == old(self).data@,
            step(
                final(self).base@,
                final(self).check@,
                current_ix as int,
                next_ix as int - old(self).base@[current_ix as int] as int,
            ) == Option::Some(next_ix as int),
            forall|key: Seq<int>| #[trigger]
                nonneg_units(key) && walk(old(self).base@, old(self).check@, 1, key) is Some
                    ==> walk(final(self).base@, final(self).check@, 1, key) == walk(
                    old(self).base@,
                    old(self).check@,
                    1,
                    key,
                ),
            forall|k: Seq<K>| final(self).lookup(k) == old(self).lookup(k),
            r == next_ix,
    {
        let ghost b_a = self.base@;
        let ghost c_a = self.check@;
        let ghost d_a = views_of(self.data@);
        self.base.set(next_ix, 0);
        self.check.set(next_ix, current_ix as u32);
        self.search_cache.mark(next_ix);
        proof {
            let cur = current_ix as int;
            let t = next_ix as int;
            let b_b = self.base@;
            let c_b = self.check@;
            assert(current_ix as u32 as int == cur);
            assert(cells_wf::<K>(b_b, c_b)) by {
                assert forall|x: int| 2 <= x < c_b.len() && c_b[x] != 0 implies parent_ok::<K>(
                    b_b,
                    c_b,
                    x,
                ) by {
                    if x != t {
                        assert(parent_ok::<K>(b_a, c_a, x));
                        let p = c_a[x] as int;
                        assert(p != t) by {
                            if p == t {
                                assert(c_a[t] == 0);
                                assert(!live(c_a, t));
                            }
                        }
                        assert(live(c_b, p)) by {
                            if p != 1 {
                                assert(c_b[p] == c_a[p]);
                            }
                        }
                    } else {
                        assert(c_b[t] as int == cur);
                        assert(live(c_b, cur)) by {
                            if cur != 1 {
                                assert(c_b[cur] == c_a[cur]);
                            }
                        }
                        assert(cur != t) by {
                            if cur == t {
                                assert(c_a[t] == 0);
                                assert(!live(c_a, t));
                            }
                        }
                    }
                }
            }
            assert(data_wf(c_b, views_of(self.data@)));
            assert(filled_of(c_b) =~= filled_of(c_a).insert(t));
            assert(self.search_cache.inv(c_b.len() as nat, filled_of(c_b)));
            assert(step(b_b, c_b, cur, t - b_a[cur] as int) == Option::Some(t)) by {
                assert(b_b[cur] == b_a[cur]) by {
                    assert(cur != t) by {
                        if cur == t {
                            assert(c_a[t] == 0);
                        }
                    }
                }
            }
            assert forall|key: Seq<int>|
                nonneg_units(key) implies #[trigger] lookup_at(
                b_b,
                c_b,
                views_of(self.data@),
                1,
                key,
            ) == lookup_at(b_a, c_a, d_a, 1, key) && (walk(b_a, c_a, 1, key) is Some ==> walk(
                b_b,
                c_b,
                1,
                key,
            ) == walk(b_a, c_a, 1, key)) by {
                lemma_claim_preserves::<K, V>(b_a, c_a, d_a, cur, t, 1, key);
            }
            assert forall|k: Seq<K>| self.lookup(k) == old(self).lookup(k) by {
                lemma_key_ints_nonneg(k);
            }
            assert forall|key: Seq<int>| #![trigger nonneg_units(key)]
                nonneg_units(key) && walk(b_a, c_a, 1, key) is Some implies walk(
                b_b,
                c_b,
                1,
                key,
            ) == walk(b_a, c_a, 1, key) by {
                lemma_claim_preserves::<K, V>(b_a, c_a, d_a, cur, t, 1, key);
            }
        }
        next_ix
    }

    /// Picks a fresh base for a state that has no transitions yet, so that
    /// the landing cell for `ch` is claimable, growing the arrays if needed.
    fn find_new_base_one(&mut self, ch: K) -> (position: usize)
        requires
            old(self).wf(),
            old(self).spec_len() + 0x110001 <= cell_limit(),
        ensures
            final(self).wf(),
            final(self).spec_len() >= old(self).spec_len(),
            final(self).spec_len() <= old(self).spec_len() + 0x110001,
            final(self).spec_count() == old(self).spec_count(),
            forall|i: int| 0 <= i < old(self).spec_len() ==> final(self).base@[i] == old(self).base@[i],
            forall|i: int| 0 <= i < old(self).spec_len() ==> final(self).check@[i] == old(self).check@[i],
            forall|i: int|
                0 <= i < old(self).spec_len() ==> views_of(final(self).data@)[i] == views_of(
                    old(self).data@,
                )[i],
            forall|key: Seq<int>| #[trigger]
                nonneg_units(key) ==> walk(final(self).base@, final(self).check@, 1, key) == walk(
                    old(self).base@,
                    old(self).check@,
                    1,
                    key,
                ),
            forall|k: Seq<K>| final(self).lookup(k) == old(self).lookup(k),
            2 <= position < final(self).spec_len(),
            final(self).check@[position as int] == 0,
            position as int > ch.as_int(),
    {
        proof {
            ch.lemma_unit_bounds();
            K::lemma_unit_max_bound();
        }
        let chu = ch.as_usize();
        let position = self.search_cache.find_empty(chu, &self.check);
        if position >= self.check.len() {
            self.extend(position + 1);
        }
        position
    }

    /// Gives a state its first transition: allocate a base for it and report
    /// the landing cell for `ch`, which the caller then claims.
    #[verifier::rlimit(100)]
    #[verifier::spinoff_prover]
    fn put_first_one(&mut self, current_ix: usize, ch: K) -> (position: usize)
        requires
            old(self).wf(),
            live(old(self).check@, current_ix as int),
            current_ix < old(self).spec_len(),
            old(self).base@[current_ix as int] == 0,
            old(self).spec_len() + 0x110001 <= cell_limit(),
        ensures
            final(self).wf(),
            final(self).spec_len() >= old(self).spec_len(),
            final(self).spec_len() <= old(self).spec_len() + 0x110001,
            final(self).spec_count() == old(self).spec_count(),
            forall|key: Seq<int>| #[trigger]
                nonneg_units(key) ==> walk(final(self).base@, final(self).check@, 1, key) == walk(
                    old(self).base@,
                    old(self).check@,
                    1,
                    key,
                ),
            forall|k: Seq<K>| final(self).lookup(k) == old(self).lookup(k),
            live(final(self).check@, current_ix as int),
            2 <= position < final(self).spec_len(),
            final(self).check@[position as int] == 0,
            final(self).base@[current_ix as int] != 0,
            final(self).base@[current_ix as int] as int <= position as int,
            position as int - final(self).base@[current_ix as int] as int == ch.as_int(),
    {
        proof {
            ch.lemma_unit_bounds();
            K::lemma_unit_max_bound();
        }
        let chu = ch.as_usize();
        let position = self.find_new_base_one(ch);
        let ghost b_a = self.base@;
        let ghost c_a = self.check@;
        let ghost d_a = views_of(self.data@);
        let nb = position - chu;
        self.base.set(current_ix, nb as u32);
        proof {
            let cur = current_ix as int;
            let b_b = self.base@;
            assert(b_b == b_a.update(cur, nb as u32));
            assert(nb as u32 as int == nb as int);
            // a state with base 0 has no children, so no step from it exists
            // before or after the base is set
            assert forall|x: int| 2 <= x < c_a.len() && c_a[x] != 0 implies c_a[x] as int
                != cur by {
                assert(parent_ok::<K>(b_a, c_a, x));
            }
            assert(cells_wf::<K>(b_b, c_a)) by {
                assert forall|x: int| 2 <= x < c_a.len() && c_a[x] != 0 implies parent_ok::<K>(
                    b_b,
                    c_a,
                    x,
                ) by {
                    assert(parent_ok::<K>(b_a, c_a, x));
                    assert(c_a[x] as int != cur);
                }
                assert(live(c_a, cur));
                assert(cur >= 1);
            }
            assert forall|x: int, c: int| live(c_a, x) && c >= 0 implies #[trigger] step(
                b_b,
                c_a,
                x,
                c,
            ) == step(b_a, c_a, x, c) by {
                if x == cur {
                    assert(step(b_a, c_a, x, c) is None);
                    if b_b[cur] != 0 {
                        let t = b_b[cur] as int + c;
                        if 0 <= t < c_a.len() && c_a[t] as int == cur {
                            assert(t >= 2) by {
                                if t < 2 {
                                    assert(c_a[t] == 0);
                                }
                            }
                            assert(c_a[t] != 0) by {
                                if c_a[t] == 0 {
                                    assert(c_a[t] as int == 0);
                                    assert(cur == 0);
                                    assert(!live(c_a, 0)) by {
                                        assert(c_a[0] == 0);
                                    }
                                }
                            }
                            assert(c_a[t] as int != cur);
                        }
                        assert(step(b_b, c_a, cur, c) is None);
                    }
                } else {
                    assert(b_b[x] == b_a[x]);
                }
            }
            lemma_equiv_from_steps::<K, V>(b_a, c_a, d_a, b_b, c_a, d_a);
            assert forall|k: Seq<K>| self.lookup(k) == old(self).lookup(k) by {
                lemma_key_ints_nonneg(k);
            }
            assert(data_wf(c_a, views_of(self.data@)));
            assert(filled_of(c_a) =~= filled_of(c_a));
        }
        position
    }
}

// ---------------------------------------------------------------------------
// Relocation: moving every child of a state to a new base offset. The new
// arrays simulate the old ones under the renaming that sends each moved cell
// to its new position, so the denoted map is unchanged.
// ---------------------------------------------------------------------------

/// Whether cell `x` currently holds a child of state `cur`.
pub open spec fn is_child(check: Seq<u32>, cur: int, x: int) -> bool {
    0 <= x < check.len() && check[x] as int == cur && check[x] != 0
}

/// The state renaming a relocation induces.
pub open spec fn move_phi(check0: Seq<u32>, cur: int, ob: int, nb: int, s: int) -> int {
    if is_child(check0, cur, s) {
        s - ob + nb
    } else {
        s
    }
}

/// Pointwise description of the arrays after every child of `cur` has moved
/// from base `ob` to base `nb`, with `moved` the set of unit offsets already
/// processed.
pub open spec fn rebase_mid<V>(
    b0: Seq<u32>,
    c0: Seq<u32>,
    d0: Seq<Seq<V>>,
    b1: Seq<u32>,
    c1: Seq<u32>,
    d1: Seq<Seq<V>>,
    cur: int,
    ob: int,
    nb: int,
    moved: Set<int>,
) -> bool {
    &&& b1.len() == b0.len()
    &&& c1.len() == c0.len()
    &&& d1.len() == d0.len()
    &&& forall|x: int|
        0 <= x < b0.len() ==> (#[trigger] b1[x]) == (if x >= nb && is_child(c0, cur, x - nb + ob)
            && moved.contains(x - nb) {
            b0[x - nb + ob]
        } else if is_child(c0, cur, x) && moved.contains(x - ob) {
            0u32
        } else {
            b0[x]
        })
    &&& forall|x: int|
        0 <= x < c0.len() ==> (#[trigger] c1[x]) as int == (if x >= nb && is_child(
            c0,
            cur,
            x - nb + ob,
        ) && moved.contains(x - nb) {
            cur
        } else if is_child(c0, cur, x) && moved.contains(x - ob) {
            0
        } else if is_child(c0, cur, c0[x] as int) && moved.contains(c0[x] as int - ob) {
            c0[x] as int - ob + nb
        } else {
            c0[x] as int
        })
    &&& forall|x: int|
        0 <= x < d0.len() ==> (#[trigger] d1[x]) == (if x >= nb && is_child(c0, cur, x - nb + ob)
            && moved.contains(x - nb) {
            d0[x - nb + ob]
        } else if is_child(c0, cur, x) && moved.contains(x - ob) {
            d0[x - ob + nb]
        } else {
            d0[x]
        })
}

/// Side conditions under which a relocation is meaningful: the old base is
/// real, and every destination cell is a claimable free cell.
pub open spec fn rebase_pre<K: AsUsize, V>(
    b0: Seq<u32>,
    c0: Seq<u32>,
    d0: Seq<Seq<V>>,
    cur: int,
    ob: int,
    nb: int,
) -> bool {
    &&& cells_wf::<K>(b0, c0)
    &&& data_wf(c0, d0)
    &&& live(c0, cur)
    &&& 0 <= cur < c0.len()
    &&& b0[cur] as int == ob
    &&& ob >= 1
    &&& 1 <= nb <= c0.len()
    &&& forall|x: int|
        is_child(c0, cur, x) ==> 2 <= x - ob + nb < c0.len() && c0[x - ob + nb] == 0
}

/// Pointwise description of the finished relocation: `cur` is based at
/// `nb`, each child cell moved from `ob + c` to `nb + c` carrying its base
/// and bucket, the old child cells are zeroed, and every cell whose parent
/// moved points at the parent's new position.
pub open spec fn rebase_done<V>(
    b0: Seq<u32>,
    c0: Seq<u32>,
    d0: Seq<Seq<V>>,
    b1: Seq<u32>,
    c1: Seq<u32>,
    d1: Seq<Seq<V>>,
    cur: int,
    ob: int,
    nb: int,
) -> bool {
    &&& b1.len() == b0.len()
    &&& c1.len() == c0.len()
    &&& d1.len() == d0.len()
    &&& 0 <= cur < b1.len()
    &&& b1[cur] as int == nb
    &&& forall|x: int|
        0 <= x < b0.len() && x != cur ==> (#[trigger] b1[x]) == (if x >= nb && is_child(
            c0,
            cur,
            x - nb + ob,
        ) {
            b0[x - nb + ob]
        } else if is_child(c0, cur, x) {
            0u32
        } else {
            b0[x]
        })
    &&& forall|x: int|
        0 <= x < c0.len() ==> (#[trigger] c1[x]) as int == (if x >= nb && is_child(
            c0,
            cur,
            x - nb + ob,
        ) {
            cur
        } else if is_child(c0, cur, x) {
            0
        } else if is_child(c0, cur, c0[x] as int) {
            c0[x] as int - ob + nb
        } else {
            c0[x] as int
        })
    &&& forall|x: int|
        0 <= x < d0.len() ==> (#[trigger] d1[x]) == (if x >= nb && is_child(
            c0,
            cur,
            x - nb + ob,
        ) {
            d0[x - nb + ob]
        } else if is_child(c0, cur, x) {
            d0[x - ob + nb]
        } else {
            d0[x]
        })
}

/// One step of the moved arrays simulates one step of the old arrays under
/// the relocation renaming.
#[verifier::rlimit(100)]
#[verifier::spinoff_prover]
proof fn lemma_rebase_step<K: AsUsize, V>(
    b0: Seq<u32>,
    c0: Seq<u32>,
    d0: Seq<Seq<V>>,
    b1: Seq<u32>,
    c1: Seq<u32>,
    d1: Seq<Seq<V>>,
    cur: int,
    ob: int,
    nb: int,
    x: int,
    c: int,
)
    requires
        rebase_pre::<K, V>(b0, c0, d0, cur, ob, nb),
        rebase_done(b0, c0, d0, b1, c1, d1, cur, ob, nb),
        live(c0, x),
        c >= 0,
    ensures
        ({
            let phi = |s: int| move_phi(c0, cur, ob, nb, s);
            match step(b0, c0, x, c) {
                Option::Some(u) => step(b1, c1, phi(x), c) == Option::Some(phi(u)),
                Option::None => step(b1, c1, phi(x), c) == Option::None::<int>,
            }
        }),
{
    let len = c0.len();
    let phi = |s: int| move_phi(c0, cur, ob, nb, s);
    assert(!is_child(c0, cur, cur)) by {
        if is_child(c0, cur, cur) {
            assert(parent_ok::<K>(b0, c0, cur)) by {
                assert(cur >= 2) by {
                    if cur < 2 {
                        assert(c0[cur] == 0);
                    }
                }
            }
        }
    }
    assert(cur != 0 && b0[cur] != 0) by {
        if cur == 0 {
            assert(b0[0] == 0);
        }
    }
    assert forall|y: int| is_child(c0, cur, y) implies ob <= y && y - ob <= K::unit_max()
        && parent_ok::<K>(b0, c0, y) && y >= 2 by {
        assert(y >= 2) by {
            if y < 2 {
                assert(c0[y] == 0);
            }
        }
        assert(parent_ok::<K>(b0, c0, y));
    }
    assert(x != 0) by {
        if x == 0 {
            assert(c0[0] == 0);
        }
    }
    if x == cur {
        assert(phi(cur) == cur);
        assert(b1[cur] as int == nb);
        let t0 = ob + c;
        let t1 = nb + c;
        match step(b0, c0, x, c) {
            Option::Some(u) => {
                assert(u == t0 && is_child(c0, cur, u));
                assert(phi(u) == t1);
                assert(2 <= t1 < len);
                assert(c1[t1] as int == cur);
                assert(step(b1, c1, cur, c) == Option::Some(t1));
            },
            Option::None => {
                if 0 <= t1 < len {
                    assert(c1[t1] as int != cur) by {
                        if t1 >= nb && is_child(c0, cur, t1 - nb + ob) {
                            assert(is_child(c0, cur, t0));
                        } else if is_child(c0, cur, t1) {
                            assert(c1[t1] as int == 0);
                            assert(cur != 0);
                        } else if is_child(c0, cur, c0[t1] as int) {
                            let dstv = c0[t1] as int - ob + nb;
                            assert(c0[dstv] == 0);
                            assert(dstv != cur) by {
                                if dstv == cur {
                                    assert(live(c0, cur));
                                    assert(c0[cur] == 0 && cur >= 2);
                                }
                            }
                        } else {
                            assert(c1[t1] as int == c0[t1] as int);
                            if c0[t1] as int == cur {
                                assert(is_child(c0, cur, t1));
                            }
                        }
                    }
                }
                assert(step(b1, c1, cur, c) is None);
            },
        }
    } else if is_child(c0, cur, x) {
        let y = x - ob + nb;
        assert(phi(x) == y);
        assert(2 <= y < len && c0[y] == 0);
        assert(y != cur) by {
            if y == cur {
                assert(c0[cur] == 0 && cur >= 2);
                assert(!live(c0, cur));
            }
        }
        assert(b1[y] == b0[x]) by {
            assert(y >= nb && is_child(c0, cur, y - nb + ob));
        }
        if b0[x] == 0 {
            assert(step(b0, c0, x, c) is None);
            assert(step(b1, c1, y, c) is None);
        } else {
            let t = b0[x] as int + c;
            if 0 <= t < len {
                assert(c1[t] as int == y <==> c0[t] as int == x) by {
                    if t >= nb && is_child(c0, cur, t - nb + ob) {
                        assert(c1[t] as int == cur);
                        assert(c0[t] == 0);
                        assert(cur != y);
                        assert(x >= 2 && c0[x] as int == cur);
                        assert(c0[t] as int != x) by {
                            if c0[t] as int == x {
                                assert(x == 0);
                            }
                        }
                    } else if is_child(c0, cur, t) {
                        assert(c1[t] as int == 0);
                        assert(y >= 2);
                        assert(c0[t] as int == cur);
                        assert(x != cur);
                    } else if is_child(c0, cur, c0[t] as int) {
                        let pj = c0[t] as int;
                        assert(c1[t] as int == pj - ob + nb);
                        assert(pj - ob + nb == y <==> pj == x);
                    } else {
                        assert(c1[t] as int == c0[t] as int);
                        assert(c0[t] as int == x ==> is_child(c0, cur, c0[t] as int)) by {
                            if c0[t] as int == x {
                                assert(c0[x] as int == cur && x >= 2);
                            }
                        }
                        assert(c1[t] as int != y || c0[t] as int == x) by {
                            if c1[t] as int == y && c0[t] as int != x {
                                assert(c0[t] as int == y);
                                assert(c0[y] == 0);
                                assert(y == 0);
                            }
                        }
                    }
                }
                if c0[t] as int == x {
                    assert(step(b0, c0, x, c) == Option::Some(t));
                    assert(step(b1, c1, y, c) == Option::Some(t));
                    assert(phi(t) == t) by {
                        assert(!is_child(c0, cur, t)) by {
                            if is_child(c0, cur, t) {
                                assert(c0[t] as int == cur);
                                assert(x == cur);
                            }
                        }
                    }
                } else {
                    assert(step(b0, c0, x, c) is None);
                    assert(step(b1, c1, y, c) is None);
                }
            } else {
                assert(step(b0, c0, x, c) is None);
                assert(step(b1, c1, y, c) is None);
            }
        }
    } else {
        assert(phi(x) == x);
        assert(x != cur && !is_child(c0, cur, x));
        if 0 <= x < len {
            assert(b1[x] == b0[x]) by {
                assert(!(x >= nb && is_child(c0, cur, x - nb + ob))) by {
                    if x >= nb && is_child(c0, cur, x - nb + ob) {
                        assert(c0[x] == 0);
                        assert(live(c0, x));
                        assert(x == 1);
                        assert(2 <= x - nb + ob - ob + nb);
                    }
                }
            }
        }
        if 0 <= x < len && b0[x] != 0 {
            let t = b0[x] as int + c;
            if 0 <= t < len {
                assert(c1[t] as int == x <==> c0[t] as int == x) by {
                    if t >= nb && is_child(c0, cur, t - nb + ob) {
                        assert(c1[t] as int == cur && c0[t] == 0);
                        assert(x != cur && x != 0);
                    } else if is_child(c0, cur, t) {
                        assert(c1[t] as int == 0 && c0[t] as int == cur);
                        assert(x != 0 && x != cur);
                    } else if is_child(c0, cur, c0[t] as int) {
                        let pj = c0[t] as int;
                        assert(c1[t] as int == pj - ob + nb);
                        assert(c0[pj - ob + nb] == 0);
                        assert(c0[t] as int != x) by {
                            if pj == x {
                                assert(is_child(c0, cur, x));
                            }
                        }
                        assert(c1[t] as int != x) by {
                            if pj - ob + nb == x {
                                assert(c0[x] == 0);
                                assert(live(c0, x));
                                assert(x == 1);
                                assert(pj - ob + nb >= 2);
                            }
                        }
                    } else {
                    }
                }
                if c0[t] as int == x {
                    assert(step(b0, c0, x, c) == Option::Some(t));
                    assert(step(b1, c1, x, c) == Option::Some(t));
                    assert(phi(t) == t) by {
                        if is_child(c0, cur, t) {
                            assert(c0[t] as int == cur);
                            assert(x == cur);
                        }
                    }
                } else {
                    assert(step(b0, c0, x, c) is None);
                    assert(step(b1, c1, x, c) is None);
                }
            } else {
                assert(step(b1, c1, x, c) is None);
            }
        } else {
            assert(step(b1, c1, x, c) is None);
            assert(step(b0, c0, x, c) is None);
        }
    }
}

/// The moved arrays are well formed again.
#[verifier::rlimit(100)]
#[verifier::spinoff_prover]
proof fn lemma_rebase_wf<K: AsUsize, V>(
    b0: Seq<u32>,
    c0: Seq<u32>,
    d0: Seq<Seq<V>>,
    b1: Seq<u32>,
    c1: Seq<u32>,
    d1: Seq<Seq<V>>,
    cur: int,
    ob: int,
    nb: int,
)
    requires
        rebase_pre::<K, V>(b0, c0, d0, cur, ob, nb),
        rebase_done(b0, c0, d0, b1, c1, d1, cur, ob, nb),
        0 <= total_len(d1) <= cell_limit(),
    ensures
        cells_wf::<K>(b1, c1),
        data_wf(c1, d1),
        live(c1, cur),
{
    let len = c0.len();
    assert(!is_child(c0, cur, cur)) by {
        if is_child(c0, cur, cur) {
            assert(parent_ok::<K>(b0, c0, cur)) by {
                assert(cur >= 2) by {
                    if cur < 2 {
                        assert(c0[cur] == 0);
                    }
                }
            }
        }
    }
    assert(cur != 0 && b0[cur] != 0) by {
        if cur == 0 {
            assert(b0[0] == 0);
        }
    }
    assert forall|y: int| is_child(c0, cur, y) implies ob <= y && y - ob <= K::unit_max()
        && K::unit_valid(y - ob) && parent_ok::<K>(b0, c0, y) && y >= 2 by {
        assert(y >= 2) by {
            if y < 2 {
                assert(c0[y] == 0);
            }
        }
        assert(parent_ok::<K>(b0, c0, y));
    }
    assert(live(c1, cur)) by {
        if cur != 1 {
            assert(c1[cur] as int != 0) by {
                if cur >= nb && is_child(c0, cur, cur - nb + ob) {
                    assert(c1[cur] as int == cur);
                } else if is_child(c0, cur, c0[cur] as int) {
                    assert(c1[cur] as int == c0[cur] as int - ob + nb);
                    assert(c0[cur] as int - ob + nb >= 2);
                } else {
                    assert(c1[cur] as int == c0[cur] as int);
                    assert(c0[cur] != 0);
                }
            }
        }
    }
    assert(c1[0] == 0) by {
        assert(!(0 >= nb && is_child(c0, cur, 0 - nb + ob)));
        assert(!is_child(c0, cur, 0));
        assert(!is_child(c0, cur, c0[0] as int)) by {
            assert(c0[0] == 0);
        }
    }
    assert(c1[1] == 0) by {
        assert(!(1 >= nb && is_child(c0, cur, 1 - nb + ob))) by {
            if 1 >= nb && is_child(c0, cur, 1 - nb + ob) {
                assert(2 <= 1 - nb + ob - ob + nb);
            }
        }
        assert(!is_child(c0, cur, 1));
        assert(!is_child(c0, cur, c0[1] as int)) by {
            assert(c0[1] == 0);
        }
    }
    assert(b1[0] == 0) by {
        assert(cur != 0);
        assert(!(0 >= nb && is_child(c0, cur, 0 - nb + ob)));
        assert(!is_child(c0, cur, 0));
    }
    assert forall|s: int| 0 <= s < len implies (#[trigger] b1[s]) as int <= len by {
        if s == cur {
        } else if s >= nb && is_child(c0, cur, s - nb + ob) {
        } else if is_child(c0, cur, s) {
        } else {
        }
    }
    assert forall|t: int| 0 <= t < len && c1[t] == 0 && t != 1 implies (#[trigger] b1[t]) == 0 by {
        if t >= nb && is_child(c0, cur, t - nb + ob) {
            assert(c1[t] as int == cur);
            assert(cur != 0);
        } else if is_child(c0, cur, t) {
            assert(b1[t] == 0) by {
                assert(t != cur);
                assert(!(t >= nb && is_child(c0, cur, t - nb + ob))) by {
                    if t >= nb && is_child(c0, cur, t - nb + ob) {
                        assert(c1[t] as int == cur && cur != 0);
                    }
                }
            }
        } else if is_child(c0, cur, c0[t] as int) {
            let dstv = c0[t] as int - ob + nb;
            assert(c1[t] as int == dstv);
            assert(dstv >= 2);
        } else {
            assert(c1[t] == c0[t]);
            assert(t != cur) by {
                if t == cur {
                    assert(c0[cur] == 0);
                    assert(live(c0, cur));
                    assert(cur == 1);
                }
            }
            assert(b1[t] == b0[t]);
        }
    }
    assert forall|t: int| 2 <= t < len && c1[t] != 0 implies parent_ok::<K>(b1, c1, t) by {
        if t >= nb && is_child(c0, cur, t - nb + ob) {
            let src = t - nb + ob;
            assert(c1[t] as int == cur);
            assert(b1[cur] as int == nb);
            assert(t - nb == src - ob);
            assert(K::unit_valid(src - ob));
            assert(cur != t) by {
                if cur == t {
                    assert(c0[cur] == 0 && cur >= 2);
                    assert(!live(c0, cur));
                }
            }
        } else if is_child(c0, cur, t) {
            assert(c1[t] as int == 0);
        } else if is_child(c0, cur, c0[t] as int) {
            let src = c0[t] as int;
            let dstv = src - ob + nb;
            assert(c1[t] as int == dstv);
            assert(parent_ok::<K>(b0, c0, t));
            assert(live(c1, dstv)) by {
                assert(dstv >= nb && is_child(c0, cur, dstv - nb + ob));
                assert(c1[dstv] as int == cur);
                assert(cur != 0);
                assert(2 <= dstv < len);
            }
            assert(b1[dstv] == b0[src]) by {
                assert(dstv >= nb && is_child(c0, cur, dstv - nb + ob));
                assert(dstv != cur) by {
                    if dstv == cur {
                        assert(c0[cur] == 0 && cur >= 2);
                    }
                }
            }
            assert(b1[dstv] != 0);
            assert(b1[dstv] as int <= t);
            assert(t - b1[dstv] as int <= K::unit_max());
            assert(K::unit_valid(t - b1[dstv] as int));
            assert(dstv != t) by {
                if dstv == t {
                    assert(c0[t] == 0);
                    assert(c0[t] as int == src && src >= 2);
                }
            }
        } else {
            assert(c1[t] == c0[t]);
            assert(parent_ok::<K>(b0, c0, t));
            let p = c0[t] as int;
            assert(p != cur) by {
                if p == cur {
                    assert(is_child(c0, cur, t)) by {
                        assert(c0[t] != 0);
                    }
                }
            }
            assert(b1[p] == b0[p]) by {
                assert(!is_child(c0, cur, p)) by {
                    if is_child(c0, cur, p) {
                        assert(is_child(c0, cur, c0[t] as int));
                    }
                }
                assert(!(p >= nb && is_child(c0, cur, p - nb + ob))) by {
                    if p >= nb && is_child(c0, cur, p - nb + ob) {
                        assert(c0[p] == 0);
                        assert(live(c0, p));
                        assert(p == 1);
                        assert(2 <= p - nb + ob - ob + nb);
                    }
                }
            }
            assert(live(c1, p)) by {
                if p != 1 {
                    assert(live(c0, p));
                    assert(c0[p] != 0);
                    assert(c1[p] as int != 0) by {
                        if p >= nb && is_child(c0, cur, p - nb + ob) {
                            assert(c1[p] as int == cur && cur != 0);
                        } else if is_child(c0, cur, p) {
                            assert(is_child(c0, cur, c0[t] as int));
                        } else if is_child(c0, cur, c0[p] as int) {
                            assert(c1[p] as int == c0[p] as int - ob + nb);
                            assert(c0[p] as int - ob + nb >= 2);
                        } else {
                            assert(c1[p] == c0[p]);
                        }
                    }
                }
            }
        }
    }
    assert(cells_wf::<K>(b1, c1));
    assert forall|t: int| 0 <= t < len && c1[t] == 0 && t != 1 implies (#[trigger] d1[t]).len()
        == 0 by {
        if t >= nb && is_child(c0, cur, t - nb + ob) {
            assert(c1[t] as int == cur && cur != 0);
        } else if is_child(c0, cur, t) {
            assert(d1[t] == d0[t - ob + nb]);
            assert(c0[t - ob + nb] == 0);
            assert(t - ob + nb != 1);
        } else if is_child(c0, cur, c0[t] as int) {
            assert(c1[t] as int == c0[t] as int - ob + nb);
            assert(c0[t] as int - ob + nb >= 2);
        } else {
            assert(c1[t] == c0[t]);
            assert(d1[t] == d0[t]);
        }
    }
    assert(data_wf(c1, d1));
}

/// After a full relocation the arrays denote exactly the old map, and the
/// relocated state is still reached by every key that reached it.
#[verifier::rlimit(100)]
#[verifier::spinoff_prover]
proof fn lemma_rebase_sim<K: AsUsize, V>(
    b0: Seq<u32>,
    c0: Seq<u32>,
    d0: Seq<Seq<V>>,
    b1: Seq<u32>,
    c1: Seq<u32>,
    d1: Seq<Seq<V>>,
    cur: int,
    ob: int,
    nb: int,
)
    requires
        rebase_pre::<K, V>(b0, c0, d0, cur, ob, nb),
        rebase_done(b0, c0, d0, b1, c1, d1, cur, ob, nb),
        0 <= total_len(d1) <= cell_limit(),
    ensures
        cells_wf::<K>(b1, c1),
        data_wf(c1, d1),
        live(c1, cur),
        forall|key: Seq<int>| #[trigger]
            nonneg_units(key) ==> lookup_at(b1, c1, d1, 1, key) == lookup_at(b0, c0, d0, 1, key),
        forall|key: Seq<int>| #[trigger]
            nonneg_units(key) && walk(b0, c0, 1, key) == Option::Some(cur) ==> walk(
                b1,
                c1,
                1,
                key,
            ) == Option::Some(cur),
{
    let len = c0.len();
    let phi = |s: int| move_phi(c0, cur, ob, nb, s);
    lemma_rebase_wf::<K, V>(b0, c0, d0, b1, c1, d1, cur, ob, nb);
    assert(!is_child(c0, cur, cur)) by {
        if is_child(c0, cur, cur) {
            assert(parent_ok::<K>(b0, c0, cur)) by {
                assert(cur >= 2) by {
                    if cur < 2 {
                        assert(c0[cur] == 0);
                    }
                }
            }
        }
    }
    assert forall|x: int, c: int| live(c0, x) && c >= 0 implies (match #[trigger] step(
        b0,
        c0,
        x,
        c,
    ) {
        Option::Some(u) => step(b1, c1, phi(x), c) == Option::Some(phi(u)),
        Option::None => step(b1, c1, phi(x), c) == Option::None::<int>,
    }) by {
        lemma_rebase_step::<K, V>(b0, c0, d0, b1, c1, d1, cur, ob, nb, x, c);
    }
    assert forall|t: int| live(c0, t) implies bucket(d1, phi(t)) == bucket(d0, t) by {
        if is_child(c0, cur, t) {
            let y = t - ob + nb;
            assert(phi(t) == y);
            assert(2 <= y < len);
            assert(d1[y] == d0[t]) by {
                assert(y >= nb && is_child(c0, cur, y - nb + ob));
            }
        } else {
            assert(phi(t) == t);
            if 0 <= t < len {
                assert(!(t >= nb && is_child(c0, cur, t - nb + ob))) by {
                    if t >= nb && is_child(c0, cur, t - nb + ob) {
                        assert(c0[t] == 0);
                        assert(live(c0, t));
                        assert(t == 1);
                        assert(2 <= t - nb + ob - ob + nb);
                    }
                }
                assert(d1[t] == d0[t]);
            }
        }
    }
    assert(phi(1) == 1) by {
        assert(c0[1] == 0);
        assert(!is_child(c0, cur, 1));
    }
    assert forall|key: Seq<int>| #![trigger nonneg_units(key)]
        nonneg_units(key) implies lookup_at(b1, c1, d1, 1, key) == lookup_at(b0, c0, d0, 1, key)
        && (walk(b0, c0, 1, key) == Option::Some(cur) ==> walk(b1, c1, 1, key) == Option::Some(
        cur,
    )) by {
        lemma_walk_phi::<K>(b0, c0, b1, c1, phi, 1, key);
        match walk(b0, c0, 1, key) {
            Option::Some(t) => {
                lemma_walk_live::<K>(b0, c0, 1, key, t);
                assert(walk(b1, c1, 1, key) == Option::Some(phi(t)));
                assert(bucket(d1, phi(t)) == bucket(d0, t));
                if t == cur {
                    assert(phi(cur) == cur);
                }
            },
            Option::None => {},
        }
    }
}

impl<K: AsUsize, V, C: SearchCache2> DoubleArray<K, V, C> {
    /// Resolves a collision at `cur`'s landing cell for `ch` by moving every
    /// existing child of `cur` to a base that also has room for `ch`, and
    /// reports the (still unclaimed) landing cell at the new base.
    #[verifier::rlimit(100)]
    #[verifier::spinoff_prover]
    fn rebase(&mut self, current_ix: usize, ch: K) -> (r: usize)
        requires
            old(self).wf(),
            live(old(self).check@, current_ix as int),
            current_ix < old(self).spec_len(),
            old(self).base@[current_ix as int] != 0,
            step(
                old(self).base@,
                old(self).check@,
                current_ix as int,
                ch.as_int(),
            ) is None,
            old(self).spec_len() + 0x110001 <= cell_limit(),
        ensures
            final(self).wf(),
            final(self).spec_len() >= old(self).spec_len(),
            final(self).spec_len() <= old(self).spec_len() + 0x110001,
            final(self).spec_count() == old(self).spec_count(),
            forall|k: Seq<K>| final(self).lookup(k) == old(self).lookup(k),
            forall|key: Seq<int>| #[trigger]
                nonneg_units(key) && walk(old(self).base@, old(self).check@, 1, key)
                    == Option::Some(current_ix as int) ==> walk(
                    final(self).base@,
                    final(self).check@,
                    1,
                    key,
                ) == Option::Some(current_ix as int),
            live(final(self).check@, current_ix as int),
            final(self).base@[current_ix as int] != 0,
            r as int == final(self).base@[current_ix as int] as int + ch.as_int(),
            2 <= r < final(self).spec_len(),
            final(self).check@[r as int] == 0,
            final(self).base@[current_ix as int] as int <= r as int,
            r as int - final(self).base@[current_ix as int] as int <= K::unit_max(),
            K::unit_valid(r as int - final(self).base@[current_ix as int] as int),
    {
        proof {
            ch.lemma_unit_bounds();
            K::lemma_unit_max_bound();
        }
        let cur = current_ix;
        let ghost curi = current_ix as int;
        let chu = ch.as_usize();
        let ob = self.base[cur] as usize;
        let ghost c_orig = self.check@;
        let ghost b_orig = self.base@;

        // 1. collect the units on which `cur` currently has transitions
        let next_nodes = self.collect_children(current_ix);

        // 2-3. a base with free landing cells for every present unit plus
        // `ch`, the arrays grown so all those cells exist
        let nb = self.find_new_base(&next_nodes, ch);
        let ghost b0 = self.base@;
        let ghost c0 = self.check@;
        let ghost d0 = views_of(self.data@);
        proof {
            // the collected children survive the growth
            assert forall|x: int| is_child(c0, curi, x) implies is_child(c_orig, curi, x) by {
                if x >= c_orig.len() {
                    assert(c0[x] == 0);
                    assert(curi != 0) by {
                        if curi == 0 {
                            assert(b_orig[0] == 0);
                        }
                    }
                }
            }
            assert(forall|x: int| is_child(c_orig, curi, x) ==> is_child(c0, curi, x));
            assert forall|x: int| is_child(c0, curi, x) implies 2 <= x - ob + nb < c0.len()
                && c0[x - ob + nb] == 0 by {
                let j0 = choose|j: int|
                    0 <= j < next_nodes@.len() && ob + (#[trigger] next_nodes@[j]).as_int() == x;
                assert(x - ob + nb == nb + next_nodes@[j0].as_int());
            }
            assert(rebase_pre::<K, V>(b0, c0, d0, curi, ob as int, nb as int)) by {
                assert(b0[curi] as int == ob);
                assert(live(c0, curi)) by {
                    if curi != 1 {
                        assert(c0[curi] == c_orig[curi]);
                    }
                }
            }
        }

        // 4. move every child to the new base, then switch the state over
        self.move_children(current_ix, &next_nodes, nb);
        let r = nb + chu;
        proof {
            let b1 = self.base@;
            let c1 = self.check@;
            let d1 = views_of(self.data@);
            assert(total_len(d1) == total_len(d0));
            lemma_rebase_sim::<K, V>(b0, c0, d0, b1, c1, d1, curi, ob as int, nb as int);
            // the landing cell at the new base is free: `ch` was in conflict,
            // so it is not among the moved units
            assert(!is_child(c0, curi, ob + chu)) by {
                if is_child(c0, curi, ob + chu) {
                    if ob + chu < c_orig.len() {
                        assert(c_orig[ob + chu] as int == curi);
                        assert(step(b_orig, c_orig, curi, ch.as_int()) == Option::Some(
                            (ob + chu) as int,
                        ));
                    } else {
                        assert(c0[ob + chu] == 0);
                    }
                }
            }
            assert(c1[r as int] == 0) by {
                assert(!(r as int >= nb && is_child(c0, curi, r as int - nb + ob))) by {
                    if r as int >= nb && is_child(c0, curi, r as int - nb + ob) {
                        assert(r as int - nb + ob == ob + chu);
                    }
                }
                assert(!is_child(c0, curi, r as int)) by {
                    assert(c0[r as int] == 0);
                }
                assert(!is_child(c0, curi, c0[r as int] as int)) by {
                    assert(c0[r as int] == 0);
                    assert(c0[0] == 0);
                }
            }
            assert forall|k: Seq<K>| final(self).lookup(k) == old(self).lookup(k) by {
                lemma_key_ints_nonneg(k);
            }
        }
        r
    }

    /// Registers `value` under `key`: walks the key's units, building the
    /// missing transitions (claiming free cells, allocating bases, or
    /// relocating a state on a collision), then appends the value to the
    /// final state's bucket. Every other key keeps its exact associations.
    #[verifier::rlimit(100)]
    #[verifier::spinoff_prover]
    pub fn insert<I: AsChars<K> + ?Sized>(&mut self, key: &I, value: V)
        requires
            old(self).wf(),
            old(self).insert_ready(key.units().len() as int),
        ensures
            final(self).wf(),
            final(self).lookup(key.units()) == old(self).lookup(key.units()).push(value),
            forall|k2: Seq<K>|
                k2 != key.units() ==> final(self).lookup(k2) == old(self).lookup(k2),
            final(self).spec_count() == old(self).spec_count() + 1,
            final(self).spec_len() <= old(self).spec_len() + key.units().len() * 0x110001,
    {
        let units = key.as_chars();
        let ghost kunits = key.units();
        let ghost kints = key_ints(units@);
        proof {
            lemma_key_ints_nonneg(units@);
            assert(kints =~= key_ints(kunits));
        }
        let mut current_ix: usize = 1;
        let mut i: usize = 0;
        while i < units.len()
            invariant
                kunits == key.units(),
                units@ == kunits,
                kints == key_ints(units@),
                nonneg_units(kints),
                kints.len() == units@.len(),
                i <= units@.len(),
                self.wf(),
                walk(self.base@, self.check@, 1, kints.take(i as int)) == Option::Some(
                    current_ix as int,
                ),
                live(self.check@, current_ix as int),
                current_ix < self.spec_len(),
                forall|k2: Seq<K>| self.lookup(k2) == old(self).lookup(k2),
                self.spec_count() == old(self).spec_count(),
                self.spec_count() + 1 <= cell_limit(),
                self.spec_len() + (units@.len() - i) * 0x110001 <= cell_limit(),
                self.spec_len() <= old(self).spec_len() + i * 0x110001,
            decreases units@.len() - i,
        {
            let ghost b_i = self.base@;
            let ghost c_i = self.check@;
            proof {
                assert(kints[i as int] == units@[i as int].as_int());
                units@[i as int].lemma_unit_bounds();
                K::lemma_unit_max_bound();
                assert(nonneg_units(kints.take(i as int))) by {
                    assert(forall|m: int|
                        0 <= m < i as int ==> kints.take(i as int)[m] == kints[m]);
                }
                assert(kints.take(i as int + 1) =~= kints.take(i as int).push(kints[i as int]));
            }
            let ch = units[i];
            let (state, next_ix) = self.next_index(current_ix, ch);
            match state {
                Index::Transit => {
                    proof {
                        lemma_walk_snoc(b_i, c_i, 1, kints.take(i as int), kints[i as int]);
                        assert(c_i[next_ix as int] as int == current_ix as int);
                    }
                    current_ix = next_ix;
                },
                Index::Empty => {
                    if next_ix >= 2 {
                        let n = self.update(current_ix, next_ix);
                        proof {
                            assert(walk(self.base@, self.check@, 1, kints.take(i as int))
                                == Option::Some(current_ix as int));
                            lemma_walk_snoc(
                                self.base@,
                                self.check@,
                                1,
                                kints.take(i as int),
                                kints[i as int],
                            );
                            assert(step(
                                self.base@,
                                self.check@,
                                current_ix as int,
                                kints[i as int],
                            ) == Option::Some(next_ix as int));
                        }
                        current_ix = n;
                    } else {
                        // the landing cell is one of the two reserved cells:
                        // relocate the state to a base that avoids them
                        let n2 = self.rebase(current_ix, ch);
                        let ghost b_r = self.base@;
                        let ghost c_r = self.check@;
                        proof {
                            assert(walk(b_r, c_r, 1, kints.take(i as int)) == Option::Some(
                                current_ix as int,
                            ));
                        }
                        let n = self.update(current_ix, n2);
                        proof {
                            assert(walk(self.base@, self.check@, 1, kints.take(i as int))
                                == Option::Some(current_ix as int));
                            lemma_walk_snoc(
                                self.base@,
                                self.check@,
                                1,
                                kints.take(i as int),
                                kints[i as int],
                            );
                            assert(step(
                                self.base@,
                                self.check@,
                                current_ix as int,
                                kints[i as int],
                            ) == Option::Some(n as int));
                        }
                        current_ix = n;
                    }
                },
                Index::Zero => {
                    let pos = self.put_first_one(current_ix, ch);
                    let ghost b_p = self.base@;
                    let ghost c_p = self.check@;
                    proof {
                        assert(walk(b_p, c_p, 1, kints.take(i as int)) == Option::Some(
                            current_ix as int,
                        ));
                    }
                    let n = self.update(current_ix, pos);
                    proof {
                        assert(walk(self.base@, self.check@, 1, kints.take(i as int))
                            == Option::Some(current_ix as int));
                        lemma_walk_snoc(
                            self.base@,
                            self.check@,
                            1,
                            kints.take(i as int),
                            kints[i as int],
                        );
                        assert(step(self.base@, self.check@, current_ix as int, kints[i as int])
                            == Option::Some(n as int));
                    }
                    current_ix = n;
                },
                Index::Conflict => {
                    let n2 = self.rebase(current_ix, ch);
                    let ghost b_r = self.base@;
                    let ghost c_r = self.check@;
                    proof {
                        assert(walk(b_r, c_r, 1, kints.take(i as int)) == Option::Some(
                            current_ix as int,
                        ));
                    }
                    let n = self.update(current_ix, n2);
                    proof {
                        assert(walk(self.base@, self.check@, 1, kints.take(i as int))
                            == Option::Some(current_ix as int));
                        lemma_walk_snoc(
                            self.base@,
                            self.check@,
                            1,
                            kints.take(i as int),
                            kints[i as int],
                        );
                        assert(step(self.base@, self.check@, current_ix as int, kints[i as int])
                            == Option::Some(n as int));
                    }
                    current_ix = n;
                },
                Index::OutOfRange => {
                    self.extend(next_ix + 1);
                    let ghost b_e = self.base@;
                    let ghost c_e = self.check@;
                    proof {
                        assert(walk(b_e, c_e, 1, kints.take(i as int)) == Option::Some(
                            current_ix as int,
                        ));
                        assert(c_e[next_ix as int] == 0);
                        assert(b_e[current_ix as int] == b_i[current_ix as int]);
                        assert(live(c_e, current_ix as int)) by {
                            if current_ix as int != 1 {
                                assert(c_e[current_ix as int] == c_i[current_ix as int]);
                            }
                        }
                    }
                    let n = self.update(current_ix, next_ix);
                    proof {
                        assert(walk(self.base@, self.check@, 1, kints.take(i as int))
                            == Option::Some(current_ix as int));
                        lemma_walk_snoc(
                            self.base@,
                            self.check@,
                            1,
                            kints.take(i as int),
                            kints[i as int],
                        );
                        assert(step(self.base@, self.check@, current_ix as int, kints[i as int])
                            == Option::Some(n as int));
                    }
                    current_ix = n;
                },
            }
            i += 1;
        }
        let ghost b_f = self.base@;
        let ghost c_f = self.check@;
        let ghost d_f = views_of(self.data@);
        proof {
            assert(kints.take(i as int) =~= kints);
            assert(current_ix < self.data@.len());
            assert(d_f[current_ix as int] == self.data@[current_ix as int]@);
        }
        let ghost old_bucket = self.data@[current_ix as int]@;
        self.data[current_ix].push(value);
        proof {
            let d_g = views_of(self.data@);
            let curi = current_ix as int;
            assert(d_g =~= d_f.update(curi, old_bucket.push(value)));
            lemma_total_len_update(d_f, curi, old_bucket.push(value));
            assert(data_wf(c_f, d_g)) by {
                assert forall|t: int|
                    0 <= t < c_f.len() && c_f[t] == 0 && t != 1 implies (#[trigger] d_g[t]).len()
                        == 0 by {
                    assert(t != curi) by {
                        if t == curi {
                            assert(live(c_f, curi));
                        }
                    }
                    assert(d_g[t] == d_f[t]);
                }
            }
            assert(final(self).lookup(kunits) == lookup_at(b_f, c_f, d_g, 1, key_ints(kunits)));
            assert(key_ints(kunits) == kints);
            assert(walk(b_f, c_f, 1, kints) == Option::Some(curi));
            assert(bucket(d_g, curi) == old_bucket.push(value));
            assert(lookup_at(b_f, c_f, d_f, 1, kints) == old_bucket);
            assert forall|k2: Seq<K>| k2 != kunits implies final(self).lookup(k2) == old(
                self,
            ).lookup(k2) by {
                lemma_key_ints_nonneg(k2);
                let k2i = key_ints(k2);
                match walk(b_f, c_f, 1, k2i) {
                    Option::Some(t) => {
                        assert(t != curi) by {
                            if t == curi {
                                lemma_walk_injective::<K>(b_f, c_f, k2i, kints, curi);
                                lemma_key_ints_injective::<K>(k2, kunits);
                            }
                        }
                        assert(bucket(d_g, t) == bucket(d_f, t));
                    },
                    Option::None => {},
                }
            }
        }
    }

    /// Gathers, in increasing unit order, every unit on which `current_ix`
    /// currently has a transition.
    #[verifier::rlimit(100)]
    #[verifier::spinoff_prover]
    fn collect_children(&self, current_ix: usize) -> (next_nodes: Vec<K>)
        requires
            self.wf(),
            live(self.check@, current_ix as int),
            current_ix < self.spec_len(),
            self.base@[current_ix as int] != 0,
        ensures
            ({
                let curi = current_ix as int;
                let ob = self.base@[curi] as int;
                &&& forall|j: int|
                    0 <= j < next_nodes@.len() ==> is_child(
                        self.check@,
                        curi,
                        ob + (#[trigger] next_nodes@[j]).as_int(),
                    ) && 0 <= next_nodes@[j].as_int() <= K::unit_max()
                &&& forall|j1: int, j2: int|
                    0 <= j1 < j2 < next_nodes@.len() ==> next_nodes@[j1].as_int()
                        < next_nodes@[j2].as_int()
                &&& forall|x: int|
                    is_child(self.check@, curi, x) ==> exists|j: int|
                        0 <= j < next_nodes@.len() && ob + (#[trigger] next_nodes@[j]).as_int()
                            == x
            }),
    {
        proof {
            K::lemma_unit_max_bound();
        }
        let cur = current_ix;
        let ghost curi = current_ix as int;
        let ob = self.base[cur] as usize;
        let maxu = K::max_value();
        let ghost c_orig = self.check@;
        let ghost b_orig = self.base@;
        // 1. collect the units on which `cur` currently has transitions; by
        // well-formedness they all sit within one unit range above `ob`
        let mut next_nodes: Vec<K> = Vec::new();
        let scan_end = if self.check.len() > ob + maxu + 1 {
            ob + maxu + 1
        } else {
            self.check.len()
        };
        let mut i: usize = ob;
        while i < scan_end
            invariant
                cur == current_ix,
                curi == current_ix as int,
                self.wf(),
                c_orig == self.check@,
                b_orig == self.base@,
                live(c_orig, curi),
                curi < c_orig.len(),
                ob == self.base@[curi] as int,
                1 <= ob,
                maxu as int == K::unit_max(),
                ob <= i <= scan_end,
                scan_end as int <= c_orig.len(),
                scan_end as int >= imin_spec(c_orig.len() as int, ob + maxu + 1),
                forall|j: int|
                    0 <= j < next_nodes@.len() ==> is_child(
                        c_orig,
                        curi,
                        ob + (#[trigger] next_nodes@[j]).as_int(),
                    ) && ob + next_nodes@[j].as_int() < i && K::unit_valid(
                        next_nodes@[j].as_int(),
                    ) && 0 <= next_nodes@[j].as_int(),
                forall|j1: int, j2: int|
                    0 <= j1 < j2 < next_nodes@.len() ==> next_nodes@[j1].as_int()
                        < next_nodes@[j2].as_int(),
                forall|x: int|
                    ob <= x < i && is_child(c_orig, curi, x) ==> exists|j: int|
                        0 <= j < next_nodes@.len() && ob + (#[trigger] next_nodes@[j]).as_int()
                            == x,
            decreases scan_end - i,
        {
            proof {
                assert(cells_wf::<K>(self.base@, self.check@));
                assert(c_orig.len() <= cell_limit());
                assert(curi < cell_limit());
                assert((cur as u32) as int == curi);
            }
            if self.check[i] == cur as u32 {
                proof {
                    assert(is_child(c_orig, curi, i as int)) by {
                        assert(c_orig[i as int] == cur as u32);
                        assert(c_orig[i as int] as int == curi);
                        assert(curi != 0) by {
                            if curi == 0 {
                                assert(b_orig[0] == 0);
                            }
                        }
                    }
                    assert(parent_ok::<K>(b_orig, c_orig, i as int)) by {
                        assert(i as int >= 2) by {
                            if (i as int) < 2 {
                                assert(c_orig[i as int] == 0);
                            }
                        }
                    }
                    assert(K::unit_valid(i as int - ob));
                }
                let ghost nodes0 = next_nodes@;
                next_nodes.push(K::from_usize(i - ob));
                proof {
                    assert(next_nodes@ == nodes0.push(next_nodes@.last()));
                    assert forall|x: int|
                        ob <= x < i as int + 1 && is_child(c_orig, curi, x) implies exists|j: int|
                        0 <= j < next_nodes@.len() && ob + (#[trigger] next_nodes@[j]).as_int()
                            == x by {
                        if x < i as int {
                            let j0 = choose|j: int|
                                0 <= j < nodes0.len() && ob + (#[trigger] nodes0[j]).as_int() == x;
                            assert(ob + next_nodes@[j0].as_int() == x);
                        } else {
                            assert(ob + next_nodes@[next_nodes@.len() - 1].as_int() == x);
                        }
                    }
                }
            } else {
                proof {
                    assert(!is_child(c_orig, curi, i as int)) by {
                        if is_child(c_orig, curi, i as int) {
                            assert(c_orig[i as int] as int == curi);
                            assert(c_orig[i as int] == cur as u32);
                        }
                    }
                }
            }
            i += 1;
        }
        proof {
            // children below the scanned range or past it cannot exist
            assert forall|x: int| is_child(c_orig, curi, x) implies exists|j: int|
                0 <= j < next_nodes@.len() && ob + (#[trigger] next_nodes@[j]).as_int() == x by {
                assert(parent_ok::<K>(b_orig, c_orig, x)) by {
                    assert(x >= 2) by {
                        if x < 2 {
                            assert(c_orig[x] == 0);
                        }
                    }
                }
                assert(ob <= x && x - ob <= K::unit_max());
                assert(x < scan_end as int);
            }
        }
        proof {
            assert forall|j: int| 0 <= j < next_nodes@.len() implies 0 <= (
            #[trigger] next_nodes@[j]).as_int() <= K::unit_max() by {
                next_nodes@[j].lemma_unit_bounds();
            }
        }
        next_nodes
    }

    /// Finds, through the search cache, a base offset whose landing cells
    /// for `ch` and for every unit in `next_nodes` are free, growing the
    /// arrays so that all those cells exist.
    #[verifier::rlimit(100)]
    #[verifier::spinoff_prover]
    fn find_new_base(&mut self, next_nodes: &Vec<K>, ch: K) -> (nb: usize)
        requires
            old(self).wf(),
            old(self).spec_len() + 0x110001 <= cell_limit(),
            forall|j1: int, j2: int|
                0 <= j1 < j2 < next_nodes@.len() ==> (#[trigger] next_nodes@[j1]).as_int() < (
                #[trigger] next_nodes@[j2]).as_int(),
        ensures
            final(self).wf(),
            final(self).spec_len() >= old(self).spec_len(),
            final(self).spec_len() <= old(self).spec_len() + 0x110001,
            final(self).spec_count() == old(self).spec_count(),
            forall|i: int| 0 <= i < old(self).spec_len() ==> final(self).base@[i] == old(self).base@[i],
            forall|i: int| 0 <= i < old(self).spec_len() ==> final(self).check@[i] == old(self).check@[i],
            forall|i: int|
                0 <= i < old(self).spec_len() ==> views_of(final(self).data@)[i] == views_of(
                    old(self).data@,
                )[i],
            forall|i: int| old(self).spec_len() <= i < final(self).spec_len() ==> final(self).check@[i] == 0,
            forall|key: Seq<int>| #[trigger]
                nonneg_units(key) ==> walk(final(self).base@, final(self).check@, 1, key) == walk(
                    old(self).base@,
                    old(self).check@,
                    1,
                    key,
                ),
            forall|k: Seq<K>| final(self).lookup(k) == old(self).lookup(k),
            1 <= nb <= old(self).spec_len(),
            nb as int + ch.as_int() < final(self).spec_len(),
            final(self).check@[nb as int + ch.as_int()] == 0,
            2 <= nb as int + ch.as_int(),
            forall|j: int|
                0 <= j < next_nodes@.len() ==> nb as int + (#[trigger] next_nodes@[j]).as_int()
                    < final(self).spec_len() && final(self).check@[nb as int + next_nodes@[j].as_int()] == 0
                    && 2 <= nb as int + next_nodes@[j].as_int(),
    {
        proof {
            ch.lemma_unit_bounds();
            K::lemma_unit_max_bound();
        }
        let chu = ch.as_usize();
        let ghost c_pre = self.check@;
        let nb = find_all_empties(&self.search_cache, &self.check, chu, next_nodes);
        let mut needed = nb + chu + 1;
        proof {
            assert(avail(c_pre, nb as int + chu as int));
        }
        if next_nodes.len() > 0 {
            let last = next_nodes[next_nodes.len() - 1].as_usize();
            proof {
                next_nodes@.last().lemma_unit_bounds();
            }
            if last > chu {
                needed = nb + last + 1;
            }
        }
        proof {
            assert forall|j: int| 0 <= j < next_nodes@.len() implies avail(
                c_pre,
                nb as int + (#[trigger] next_nodes@[j]).as_int(),
            ) && nb as int + next_nodes@[j].as_int() < needed by {
                next_nodes@[j].lemma_unit_bounds();
                if next_nodes@.len() > 0 {
                    assert(next_nodes@[j].as_int() <= next_nodes@.last().as_int()) by {
                        if j < next_nodes@.len() - 1 {
                            assert(next_nodes@[j].as_int() < next_nodes@[next_nodes@.len()
                                - 1].as_int());
                        }
                    }
                }
            }
        }
        if needed > self.check.len() {
            self.extend(needed);
        }
        nb
    }

    /// Moves every child of `current_ix` from its old base to `nb`, cell by
    /// cell, keeping the search cache in step, and finally bases the state
    /// at `nb`.
    #[verifier::rlimit(100)]
    #[verifier::spinoff_prover]
    fn move_children(&mut self, current_ix: usize, next_nodes: &Vec<K>, nb: usize)
        requires
            rebase_pre::<K, V>(
                old(self).base@,
                old(self).check@,
                views_of(old(self).data@),
                current_ix as int,
                old(self).base@[current_ix as int] as int,
                nb as int,
            ),
            old(self).search_cache.inv(
                old(self).check@.len() as nat,
                filled_of(old(self).check@),
            ),
            old(self).data@.len() == old(self).check@.len(),
            current_ix < old(self).check@.len(),
            nb <= old(self).check@.len(),
            1 <= nb,
            ({
                let curi = current_ix as int;
                let ob = old(self).base@[curi] as int;
                &&& forall|jj: int|
                    0 <= jj < next_nodes@.len() ==> is_child(
                        old(self).check@,
                        curi,
                        ob + (#[trigger] next_nodes@[jj]).as_int(),
                    ) && 0 <= next_nodes@[jj].as_int() <= K::unit_max()
                &&& forall|j1: int, j2: int|
                    0 <= j1 < j2 < next_nodes@.len() ==> next_nodes@[j1].as_int()
                        < next_nodes@[j2].as_int()
                &&& forall|x: int|
                    is_child(old(self).check@, curi, x) ==> exists|jj: int|
                        0 <= jj < next_nodes@.len() && ob + (#[trigger] next_nodes@[jj]).as_int()
                            == x
            }),
        ensures
            rebase_done(
                old(self).base@,
                old(self).check@,
                views_of(old(self).data@),
                final(self).base@,
                final(self).check@,
                views_of(final(self).data@),
                current_ix as int,
                old(self).base@[current_ix as int] as int,
                nb as int,
            ),
            final(self).base@.len() == old(self).base@.len(),
            final(self).check@.len() == old(self).check@.len(),
            final(self).data@.len() == old(self).data@.len(),
            total_len(views_of(final(self).data@)) == total_len(views_of(old(self).data@)),
            final(self).search_cache.inv(
                old(self).check@.len() as nat,
                filled_of(final(self).check@),
            ),
    {
        proof {
            K::lemma_unit_max_bound();
        }
        let cur = current_ix;
        let ghost curi = current_ix as int;
        let ob = self.base[cur] as usize;
        let maxu = K::max_value();
        let len = self.check.len();
        let ghost b0 = self.base@;
        let ghost c0 = self.check@;
        let ghost d0 = views_of(self.data@);
        // 4. move each child cell: copy its base and bucket to the new
        // position, repoint its own children, release the old cell
        let ghost mut moved: Set<int> = Set::empty();
        let mut j: usize = 0;
        while j < next_nodes.len()
            invariant
                cur == current_ix,
                curi == current_ix as int,
                rebase_pre::<K, V>(b0, c0, d0, curi, ob as int, nb as int),
                live(c0, curi),
                0 <= curi < c0.len(),
                self.base@.len() == c0.len(),
                self.check@.len() == c0.len(),
                self.data@.len() == c0.len(),
                len == c0.len(),
                1 <= ob,
                1 <= nb,
                nb + maxu + 2 <= usize::MAX,
                maxu as int == K::unit_max(),
                j <= next_nodes@.len(),
                forall|jj: int|
                    0 <= jj < next_nodes@.len() ==> is_child(
                        c0,
                        curi,
                        ob + (#[trigger] next_nodes@[jj]).as_int(),
                    ) && 0 <= next_nodes@[jj].as_int() <= maxu,
                forall|j1: int, j2: int|
                    0 <= j1 < j2 < next_nodes@.len() ==> next_nodes@[j1].as_int()
                        < next_nodes@[j2].as_int(),
                forall|o: int|
                    moved.contains(o) <==> exists|jj: int|
                        0 <= jj < j && (#[trigger] next_nodes@[jj]).as_int() == o,
                rebase_mid(
                    b0,
                    c0,
                    d0,
                    self.base@,
                    self.check@,
                    views_of(self.data@),
                    curi,
                    ob as int,
                    nb as int,
                    moved,
                ),
                total_len(views_of(self.data@)) == total_len(d0),
                self.search_cache.inv(c0.len() as nat, filled_of(self.check@)),
            decreases next_nodes@.len() - j,
        {
            let off = next_nodes[j].as_usize();
            proof {
                next_nodes@[j as int].lemma_unit_bounds();
                K::lemma_unit_max_bound();
            }
            let src = ob + off;
            let dst = nb + off;
            let ghost b_in = self.base@;
            let ghost c_in = self.check@;
            let ghost d_in = views_of(self.data@);
            proof {
                assert(is_child(c0, curi, src as int));
                assert(!moved.contains(off as int)) by {
                    if moved.contains(off as int) {
                        let jj = choose|jj: int|
                            0 <= jj < j && (#[trigger] next_nodes@[jj]).as_int() == off as int;
                        assert(next_nodes@[jj].as_int() < next_nodes@[j as int].as_int());
                    }
                }
                lemma_rebase_move_facts::<K, V>(
                    b0,
                    c0,
                    d0,
                    b_in,
                    c_in,
                    d_in,
                    curi,
                    ob as int,
                    nb as int,
                    moved,
                    off as int,
                );
                assert(c0.len() <= cell_limit());
                assert((cur as u32) as int == curi);
                assert(cur as u32 != 0);
                assert((src as u32) as int == src as int);
                assert((dst as u32) as int == dst as int);
                assert(src as u32 != 0);
                assert(dst as u32 != 0);
            }
            let src_base = self.base[src];
            self.base.set(dst, src_base);
            self.check.set(dst, cur as u32);
            self.search_cache.mark(dst);
            proof {
                assert(filled_of(self.check@) =~= filled_of(c_in).insert(dst as int));
            }
            let mut tmp: Vec<V> = Vec::new();
            self.data.set_and_swap(src, &mut tmp);
            self.data.set_and_swap(dst, &mut tmp);
            self.data.set_and_swap(src, &mut tmp);
            proof {
                let dmid = views_of(self.data@);
                assert(dmid =~= d_in.update(src as int, d_in[dst as int]).update(
                    dst as int,
                    d_in[src as int],
                ));
                lemma_total_len_update(d_in, src as int, d_in[dst as int]);
                lemma_total_len_update(
                    d_in.update(src as int, d_in[dst as int]),
                    dst as int,
                    d_in[src as int],
                );
            }
            // repoint the children of the moved cell at its new position
            if src_base > 0 {
                let sb = src_base as usize;
                let ghost c_pre = self.check@;
                proof {
                    assert(src_base == b0[src as int]);
                    assert(sb as int <= c0.len()) by {
                        assert(cells_wf::<K>(b0, c0));
                        assert(b0[src as int] as int <= c0.len());
                    }
                    assert(sb + maxu + 1 <= cell_limit() + 0x110001);
                }
                let g_end = if self.check.len() > sb + maxu + 1 {
                    sb + maxu + 1
                } else {
                    self.check.len()
                };
                let ghost b_rd = self.base@;
                let ghost d_rd = self.data@;
                let ghost cache_rd = self.search_cache;
                let mut g: usize = sb;
                while g < g_end
                    invariant
                        sb <= g <= g_end,
                        g_end as int <= c0.len(),
                        c0.len() <= cell_limit(),
                        self.check@.len() == c0.len(),
                        self.base@ == b_rd,
                        self.data@ == d_rd,
                        self.search_cache == cache_rd,
                        src as int == ob + next_nodes@[j as int].as_int(),
                        dst as int == nb + next_nodes@[j as int].as_int(),
                        2 <= src < c0.len(),
                        2 <= dst < c0.len(),
                        forall|x: int|
                            0 <= x < c0.len() && !(sb <= x < g && c_pre[x] as int == src as int)
                                ==> (#[trigger] self.check@[x]) == c_pre[x],
                        forall|x: int|
                            sb <= x < g && c_pre[x] as int == src as int ==> (
                            #[trigger] self.check@[x]) as int == dst as int,
                        filled_of(self.check@) == filled_of(c_pre),
                        self.search_cache.inv(c0.len() as nat, filled_of(self.check@)),
                    decreases g_end - g,
                {
                    proof {
                        assert((src as u32) as int == src as int);
                        assert((dst as u32) as int == dst as int);
                        assert(self.check@[g as int] == c_pre[g as int]);
                    }
                    if self.check[g] == src as u32 {
                        let ghost c_g = self.check@;
                        self.check.set(g, dst as u32);
                        proof {
                            assert(src as u32 != 0 && dst as u32 != 0);
                            assert(filled_of(self.check@) =~= filled_of(c_g));
                        }
                    } else {
                        proof {
                            assert(c_pre[g as int] as int != src as int);
                        }
                    }
                    g += 1;
                }
                proof {
                    // scan completeness: every cell holding the moved state's
                    // index lies inside the scanned window
                    assert forall|x: int|
                        0 <= x < c0.len() && c_pre[x] as int == src as int implies sb <= x
                            < g_end by {
                        assert(x != dst as int) by {
                            if x == dst as int {
                                assert(c_pre[dst as int] as int == curi);
                                assert(curi != src as int);
                            }
                        }
                        assert(c_in[x] as int == src as int);
                        assert(c0[x] as int == src as int);
                        assert(b0[src as int] as int <= x && x - b0[src as int] as int
                            <= K::unit_max());
                    }
                }
            } else {
                proof {
                    assert forall|x: int|
                        0 <= x < c0.len() && x != dst as int implies (#[trigger] self.check@[x])
                            as int != src as int by {
                        assert(c_in[x] as int == src as int <==> c0[x] as int == src as int);
                        if c0[x] as int == src as int {
                            assert(b0[src as int] != 0);
                        }
                    }
                }
            }
            let ghost c_mv = self.check@;
            self.base.set(src, 0);
            self.check.set(src, 0);
            self.search_cache.unmark(src);
            proof {
                assert(filled_of(self.check@) =~= filled_of(c_mv).remove(src as int));
                let moved2 = moved.insert(off as int);
                let b2 = self.base@;
                let c2 = self.check@;
                let d2 = views_of(self.data@);
                assert forall|o: int| moved2.contains(o) <==> exists|jj: int|
                    0 <= jj < j + 1 && (#[trigger] next_nodes@[jj]).as_int() == o by {
                    if moved2.contains(o) {
                        if o == off as int {
                            assert(next_nodes@[j as int].as_int() == o);
                        } else {
                            let jj = choose|jj: int|
                                0 <= jj < j && (#[trigger] next_nodes@[jj]).as_int() == o;
                            assert(0 <= jj < j + 1 && next_nodes@[jj].as_int() == o);
                        }
                    }
                    if exists|jj: int|
                        0 <= jj < j + 1 && (#[trigger] next_nodes@[jj]).as_int() == o {
                        let jj = choose|jj: int|
                            0 <= jj < j + 1 && (#[trigger] next_nodes@[jj]).as_int() == o;
                        if jj < j {
                            assert(moved.contains(o));
                        }
                    }
                }
                assert(b2 == b_in.update(dst as int, b_in[src as int]).update(src as int, 0u32))
                    by {
                    assert(src_base == b_in[src as int]);
                }
                assert forall|x: int|
                    0 <= x < c0.len() && x != dst as int && x != src as int && c0[x] as int
                        != src as int implies (#[trigger] c2[x]) == c_in[x] by {
                    assert(c_mv[x] == c_in[x]) by {
                        assert(c_in[x] as int == src as int <==> c0[x] as int == src as int);
                    }
                }
                assert forall|x: int|
                    0 <= x < c0.len() && c0[x] as int == src as int && x != dst as int && x
                        != src as int implies (#[trigger] c2[x]) as int == dst as int by {
                    assert(c_in[x] as int == src as int);
                    assert(b0[src as int] != 0);
                }
                assert(c2[dst as int] as int == curi);
                assert(c2[src as int] as int == 0);
                assert(d2 =~= d_in.update(src as int, d_in[dst as int]).update(
                    dst as int,
                    d_in[src as int],
                ));
                lemma_rebase_mid_step::<V>(
                    b0,
                    c0,
                    d0,
                    b_in,
                    c_in,
                    d_in,
                    b2,
                    c2,
                    d2,
                    curi,
                    ob as int,
                    nb as int,
                    moved,
                    moved2,
                    off as int,
                );
                moved = moved2;
            }
            j += 1;
        }

        // the state itself now transitions from the new base
        let ghost b_last = self.base@;
        self.base.set(cur, nb as u32);
        proof {
            let b1 = self.base@;
            let c1 = self.check@;
            let d1 = views_of(self.data@);
            assert forall|x: int| is_child(c0, curi, x) implies moved.contains(x - ob) by {
                let jj = choose|jj: int|
                    0 <= jj < next_nodes@.len() && ob + (#[trigger] next_nodes@[jj]).as_int() == x;
                assert(next_nodes@[jj].as_int() == x - ob);
            }
            assert(!is_child(c0, curi, curi)) by {
                if is_child(c0, curi, curi) {
                    assert(parent_ok::<K>(b0, c0, curi)) by {
                        assert(curi >= 2) by {
                            if curi < 2 {
                                assert(c0[curi] == 0);
                            }
                        }
                    }
                }
            }
            assert(curi != 0) by {
                if curi == 0 {
                    assert(b0[0] == 0);
                }
            }
            lemma_rebase_assemble::<V>(
                b0,
                c0,
                d0,
                b_last,
                b1,
                c1,
                d1,
                curi,
                ob as int,
                nb as int,
                nb as u32,
                moved,
            );
        }
    }

}

pub open spec fn imin_spec(a: int, b: int) -> int {
    if a <= b {
        a
    } else {
        b
    }
}

/// Facts available when one child is about to move: its cell still holds
/// its entries untouched, its destination is still a free, empty cell, and
/// the cells pointing at it are exactly those that pointed at it at the
/// start, all within one unit range of its base.
#[verifier::rlimit(100)]
#[verifier::spinoff_prover]
proof fn lemma_rebase_move_facts<K: AsUsize, V>(
    b0: Seq<u32>,
    c0: Seq<u32>,
    d0: Seq<Seq<V>>,
    b_in: Seq<u32>,
    c_in: Seq<u32>,
    d_in: Seq<Seq<V>>,
    cur: int,
    ob: int,
    nb: int,
    moved: Set<int>,
    off: int,
)
    requires
        rebase_pre::<K, V>(b0, c0, d0, cur, ob, nb),
        rebase_mid(b0, c0, d0, b_in, c_in, d_in, cur, ob, nb, moved),
        is_child(c0, cur, ob + off),
        !moved.contains(off),
        0 <= off,
    ensures
        2 <= ob + off < c0.len(),
        2 <= nb + off < c0.len(),
        ob + off != nb + off,
        ob + off != cur,
        nb + off != cur,
        cur != 0,
        !is_child(c0, cur, cur),
        live(c0, cur),
        c_in[ob + off] as int == cur,
        b_in[ob + off] == b0[ob + off],
        d_in[ob + off] == d0[ob + off],
        c_in[nb + off] == 0,
        b_in[nb + off] == 0,
        d_in[nb + off] == d0[nb + off],
        d0[nb + off].len() == 0,
        forall|x: int|
            0 <= x < c0.len() ==> ((#[trigger] c_in[x]) as int == ob + off <==> c0[x] as int == ob
                + off),
        forall|x: int|
            0 <= x < c0.len() && c0[x] as int == ob + off ==> b0[ob + off] as int <= x && x
                - b0[ob + off] as int <= K::unit_max() && b0[ob + off] != 0,
        cur != ob + off && cur < c0.len(),
    decreases 0int,
{
    let src = ob + off;
    let dst = nb + off;
    assert(c0[src] as int == cur && c0[src] != 0);
    assert(cur != 0 && b0[cur] != 0) by {
        if cur == 0 {
            assert(b0[0] == 0);
        }
    }
    assert(!is_child(c0, cur, cur)) by {
        if is_child(c0, cur, cur) {
            assert(parent_ok::<K>(b0, c0, cur)) by {
                assert(cur >= 2) by {
                    if cur < 2 {
                        assert(c0[cur] == 0);
                    }
                }
            }
        }
    }
    assert(2 <= src - ob + nb < c0.len() && c0[dst] == 0);
    assert(src >= 2) by {
        assert(parent_ok::<K>(b0, c0, src)) by {
            assert(src >= 2) by {
                if src < 2 {
                    assert(c0[src] == 0);
                }
            }
        }
    }
    assert(src != dst) by {
        if src == dst {
            assert(c0[src] == 0);
        }
    }
    assert(src != cur);
    assert(dst != cur) by {
        if dst == cur {
            assert(c0[cur] == 0);
            if cur == 1 {
                assert(dst >= 2);
            } else {
                assert(live(c0, cur));
                assert(c0[cur] != 0);
            }
        }
    }
    // destinations are free cells, so no destination is also a child cell
    assert forall|x: int| 0 <= x < c0.len() && x >= nb && is_child(
        c0,
        cur,
        x - nb + ob,
    ) implies c0[x] == 0 && !is_child(c0, cur, x) by {
        assert(c0[(x - nb + ob) - ob + nb] == 0);
    }
    assert(c_in[src] as int == cur) by {
        assert(!(src >= nb && is_child(c0, cur, src - nb + ob) && moved.contains(src - nb))) by {
            if src >= nb && is_child(c0, cur, src - nb + ob) {
                assert(c0[src] == 0);
            }
        }
        assert(!(is_child(c0, cur, src) && moved.contains(src - ob)));
        assert(!(is_child(c0, cur, c0[src] as int))) by {
            if is_child(c0, cur, c0[src] as int) {
                assert(is_child(c0, cur, cur));
            }
        }
    }
    assert(b_in[src] == b0[src] && d_in[src] == d0[src]) by {
        assert(!(src >= nb && is_child(c0, cur, src - nb + ob) && moved.contains(src - nb))) by {
            if src >= nb && is_child(c0, cur, src - nb + ob) {
                assert(c0[src] == 0);
            }
        }
        assert(!(is_child(c0, cur, src) && moved.contains(src - ob)));
    }
    assert(c_in[dst] == 0 && b_in[dst] == 0 && d_in[dst] == d0[dst]) by {
        assert(!(dst >= nb && is_child(c0, cur, dst - nb + ob) && moved.contains(dst - nb))) by {
            assert(dst - nb == off);
        }
        assert(!is_child(c0, cur, dst)) by {
            assert(c0[dst] == 0);
        }
        assert(!is_child(c0, cur, c0[dst] as int)) by {
            assert(c0[dst] == 0);
            assert(c0[0] == 0);
        }
        assert(b0[dst] == 0) by {
            assert(c0[dst] == 0 && dst != 1);
        }
    }
    assert(d0[dst].len() == 0) by {
        assert(c0[dst] == 0 && dst != 1);
    }
    assert forall|x: int| 0 <= x < c0.len() implies ((#[trigger] c_in[x]) as int == src <==> c0[x]
        as int == src) by {
        if x >= nb && is_child(c0, cur, x - nb + ob) && moved.contains(x - nb) {
            assert(c_in[x] as int == cur);
            assert(cur != src);
            assert(c0[x] == 0);
            assert(src >= 2);
        } else if is_child(c0, cur, x) && moved.contains(x - ob) {
            assert(c_in[x] as int == 0);
            assert(src >= 2);
            assert(c0[x] as int == cur && cur != src);
        } else if is_child(c0, cur, c0[x] as int) && moved.contains(c0[x] as int - ob) {
            assert(c_in[x] as int == c0[x] as int - ob + nb);
            let od = c0[x] as int - ob + nb;
            assert(c0[od] == 0);
            assert(od != src) by {
                assert(c0[src] != 0);
            }
            assert(c0[x] as int != src) by {
                if c0[x] as int == src {
                    assert(moved.contains(off));
                }
            }
        } else {
            assert(c_in[x] == c0[x]);
        }
    }
    assert forall|x: int| 0 <= x < c0.len() && c0[x] as int == src implies b0[src] as int <= x && x
        - b0[src] as int <= K::unit_max() && b0[src] != 0 by {
        assert(parent_ok::<K>(b0, c0, x)) by {
            assert(x >= 2) by {
                if x < 2 {
                    assert(c0[x] == 0);
                }
            }
            assert(c0[x] != 0) by {
                assert(src >= 2);
            }
        }
    }
}

/// Setting the state's base to the new offset completes the relocation.
#[verifier::rlimit(100)]
#[verifier::spinoff_prover]
proof fn lemma_rebase_assemble<V>(
    b0: Seq<u32>,
    c0: Seq<u32>,
    d0: Seq<Seq<V>>,
    b_last: Seq<u32>,
    b1: Seq<u32>,
    c1: Seq<u32>,
    d1: Seq<Seq<V>>,
    cur: int,
    ob: int,
    nb: int,
    nbu: u32,
    moved: Set<int>,
)
    requires
        rebase_mid(b0, c0, d0, b_last, c1, d1, cur, ob, nb, moved),
        forall|x: int| is_child(c0, cur, x) ==> moved.contains(x - ob),
        b1 == b_last.update(cur, nbu),
        nbu as int == nb,
        0 <= cur < b0.len(),
        b0.len() == c0.len(),
        d0.len() == c0.len(),
        !is_child(c0, cur, cur),
        cur != 0,
        nb >= 1,
        forall|y: int|
            is_child(c0, cur, y) ==> 2 <= y - ob + nb < c0.len() && c0[y - ob + nb] == 0,
    ensures
        rebase_done(b0, c0, d0, b1, c1, d1, cur, ob, nb),
{
    assert(b1[cur] as int == nb);
    assert forall|x: int| 0 <= x < c0.len() && x >= nb && is_child(
        c0,
        cur,
        x - nb + ob,
    ) implies c0[x] == 0 && !is_child(c0, cur, x) by {
        assert(c0[(x - nb + ob) - ob + nb] == 0);
    }
    assert forall|x: int| 0 <= x < b0.len() && x != cur implies (#[trigger] b1[x]) == (if x >= nb
        && is_child(c0, cur, x - nb + ob) {
        b0[x - nb + ob]
    } else if is_child(c0, cur, x) {
        0u32
    } else {
        b0[x]
    }) by {
        assert(b1[x] == b_last[x]);
        if x >= nb && is_child(c0, cur, x - nb + ob) {
            assert(moved.contains(x - nb));
            assert(!is_child(c0, cur, x));
        } else if is_child(c0, cur, x) {
            assert(moved.contains(x - ob));
        }
    }
    assert forall|x: int| 0 <= x < c0.len() implies (#[trigger] c1[x]) as int == (if x >= nb
        && is_child(c0, cur, x - nb + ob) {
        cur
    } else if is_child(c0, cur, x) {
        0int
    } else if is_child(c0, cur, c0[x] as int) {
        c0[x] as int - ob + nb
    } else {
        c0[x] as int
    }) by {
        if x >= nb && is_child(c0, cur, x - nb + ob) {
            assert(moved.contains(x - nb));
        } else if is_child(c0, cur, x) {
            assert(moved.contains(x - ob));
        } else if is_child(c0, cur, c0[x] as int) {
            assert(moved.contains(c0[x] as int - ob));
        }
    }
    assert forall|x: int| 0 <= x < d0.len() implies (#[trigger] d1[x]) == (if x >= nb && is_child(
        c0,
        cur,
        x - nb + ob,
    ) {
        d0[x - nb + ob]
    } else if is_child(c0, cur, x) {
        d0[x - ob + nb]
    } else {
        d0[x]
    }) by {
        if x >= nb && is_child(c0, cur, x - nb + ob) {
            assert(moved.contains(x - nb));
        } else if is_child(c0, cur, x) {
            assert(moved.contains(x - ob));
        }
    }
}

/// One child move takes the pointwise mid description from `moved` to
/// `moved` plus that child's offset.
#[verifier::rlimit(100)]
#[verifier::spinoff_prover]
proof fn lemma_rebase_mid_step<V>(
    b0: Seq<u32>,
    c0: Seq<u32>,
    d0: Seq<Seq<V>>,
    b_in: Seq<u32>,
    c_in: Seq<u32>,
    d_in: Seq<Seq<V>>,
    b2: Seq<u32>,
    c2: Seq<u32>,
    d2: Seq<Seq<V>>,
    cur: int,
    ob: int,
    nb: int,
    moved: Set<int>,
    moved2: Set<int>,
    off: int,
)
    requires
        rebase_mid(b0, c0, d0, b_in, c_in, d_in, cur, ob, nb, moved),
        moved2 == moved.insert(off),
        !moved.contains(off),
        0 <= off,
        is_child(c0, cur, ob + off),
        !is_child(c0, cur, cur),
        live(c0, cur),
        cur != 0,
        2 <= ob + off < c0.len(),
        2 <= nb + off < c0.len(),
        forall|y: int|
            is_child(c0, cur, y) ==> 2 <= y - ob + nb < c0.len() && c0[y - ob + nb] == 0,
        ob >= 1,
        nb >= 1,
        b0.len() == c0.len(),
        d0.len() == c0.len(),
        b2.len() == c0.len(),
        c2.len() == c0.len(),
        d2.len() == c0.len(),
        b2 == b_in.update(nb + off, b0[ob + off]).update(ob + off, 0u32),
        forall|x: int|
            0 <= x < c0.len() && x != nb + off && x != ob + off && c0[x] as int != ob + off ==> (
            #[trigger] c2[x]) == c_in[x],
        forall|x: int|
            0 <= x < c0.len() && c0[x] as int == ob + off && x != nb + off && x != ob + off
                ==> (#[trigger] c2[x]) as int == nb + off,
        c2[nb + off] as int == cur,
        c2[ob + off] as int == 0,
        d2 == d_in.update(ob + off, d_in[nb + off]).update(nb + off, d_in[ob + off]),
    ensures
        rebase_mid(b0, c0, d0, b2, c2, d2, cur, ob, nb, moved2),
{
    let src = ob + off;
    let dst = nb + off;
    assert(c0[src] as int == cur && c0[src] != 0);
    assert(c0[dst] == 0);
    // a child cell is never also a destination cell: destinations are free
    assert forall|x: int| 0 <= x < c0.len() && x >= nb && is_child(
        c0,
        cur,
        x - nb + ob,
    ) implies c0[x] == 0 && !is_child(c0, cur, x) by {
        assert(c0[(x - nb + ob) - ob + nb] == 0);
    }
    assert(src != cur) by {
        if src == cur {
            assert(is_child(c0, cur, cur));
        }
    }
    assert(dst != cur) by {
        if dst == cur {
            assert(c0[cur] == 0);
            if cur == 1 {
                assert(dst >= 2);
            } else {
                assert(2 <= cur < c0.len() && c0[cur] != 0);
            }
        }
    }
    assert(src != dst) by {
        if src == dst {
            assert(c0[src] == 0);
        }
    }
    assert forall|x: int| 0 <= x < b0.len() implies (#[trigger] b2[x]) == (if x >= nb && is_child(
        c0,
        cur,
        x - nb + ob,
    ) && moved2.contains(x - nb) {
        b0[x - nb + ob]
    } else if is_child(c0, cur, x) && moved2.contains(x - ob) {
        0u32
    } else {
        b0[x]
    }) by {
        if x == dst {
            assert(b2[dst] == b0[src]);
            assert(dst >= nb && is_child(c0, cur, dst - nb + ob) && moved2.contains(dst - nb));
        } else if x == src {
            assert(b2[src] == 0);
            assert(!(src >= nb && is_child(c0, cur, src - nb + ob))) by {
                if src >= nb && is_child(c0, cur, src - nb + ob) {
                    assert(c0[src] == 0);
                }
            }
            assert(is_child(c0, cur, src) && moved2.contains(off));
        } else {
            assert(b2[x] == b_in[x]);
            if x >= nb && is_child(c0, cur, x - nb + ob) && moved2.contains(x - nb) {
                assert(x - nb != off) by {
                    if x - nb == off {
                        assert(x == dst);
                    }
                }
                assert(moved.contains(x - nb));
            } else if is_child(c0, cur, x) && moved2.contains(x - ob) {
                assert(x - ob != off) by {
                    if x - ob == off {
                        assert(x == src);
                    }
                }
                assert(moved.contains(x - ob));
            } else {
                assert(!(x >= nb && is_child(c0, cur, x - nb + ob) && moved.contains(x - nb)));
                assert(!(is_child(c0, cur, x) && moved.contains(x - ob)));
            }
        }
    }
    assert forall|x: int| 0 <= x < c0.len() implies (#[trigger] c2[x]) as int == (if x >= nb
        && is_child(c0, cur, x - nb + ob) && moved2.contains(x - nb) {
        cur
    } else if is_child(c0, cur, x) && moved2.contains(x - ob) {
        0
    } else if is_child(c0, cur, c0[x] as int) && moved2.contains(c0[x] as int - ob) {
        c0[x] as int - ob + nb
    } else {
        c0[x] as int
    }) by {
        if x == dst {
            assert(c2[dst] as int == cur);
            assert(dst >= nb && is_child(c0, cur, dst - nb + ob) && moved2.contains(dst - nb));
        } else if x == src {
            assert(c2[src] as int == 0);
            assert(!(src >= nb && is_child(c0, cur, src - nb + ob))) by {
                if src >= nb && is_child(c0, cur, src - nb + ob) {
                    assert(c0[src] == 0);
                }
            }
            assert(is_child(c0, cur, src) && moved2.contains(off));
        } else if c0[x] as int == src {
            // a cell under the moved child: repointed at the new position
            assert(c2[x] as int == nb + off);
            assert(is_child(c0, cur, c0[x] as int) && moved2.contains(c0[x] as int - ob));
            assert(!(x >= nb && is_child(c0, cur, x - nb + ob))) by {
                if x >= nb && is_child(c0, cur, x - nb + ob) {
                    assert(c0[x] == 0);
                    assert(c0[x] as int == src && src >= 2);
                }
            }
            assert(!(is_child(c0, cur, x))) by {
                if is_child(c0, cur, x) {
                    assert(c0[x] as int == cur);
                    assert(src == cur);
                }
            }
        } else {
            assert(c2[x] == c_in[x]);
            if x >= nb && is_child(c0, cur, x - nb + ob) && moved2.contains(x - nb) {
                assert(x - nb != off) by {
                    if x - nb == off {
                        assert(x == dst);
                    }
                }
                assert(moved.contains(x - nb));
            } else if is_child(c0, cur, x) && moved2.contains(x - ob) {
                assert(x - ob != off) by {
                    if x - ob == off {
                        assert(x == src);
                    }
                }
                assert(moved.contains(x - ob));
            } else if is_child(c0, cur, c0[x] as int) && moved2.contains(c0[x] as int - ob) {
                assert(c0[x] as int - ob != off) by {
                    if c0[x] as int - ob == off {
                        assert(c0[x] as int == src);
                    }
                }
                assert(moved.contains(c0[x] as int - ob));
            } else {
                assert(!(x >= nb && is_child(c0, cur, x - nb + ob) && moved.contains(x - nb)));
                assert(!(is_child(c0, cur, x) && moved.contains(x - ob)));
                assert(!(is_child(c0, cur, c0[x] as int) && moved.contains(c0[x] as int - ob)));
            }
        }
    }
    assert forall|x: int| 0 <= x < d0.len() implies (#[trigger] d2[x]) == (if x >= nb && is_child(
        c0,
        cur,
        x - nb + ob,
    ) && moved2.contains(x - nb) {
        d0[x - nb + ob]
    } else if is_child(c0, cur, x) && moved2.contains(x - ob) {
        d0[x - ob + nb]
    } else {
        d0[x]
    }) by {
        if x == dst {
            assert(d2[dst] == d_in[src]);
            assert(d_in[src] == d0[src]) by {
                assert(!(src >= nb && is_child(c0, cur, src - nb + ob))) by {
                    if src >= nb && is_child(c0, cur, src - nb + ob) {
                        assert(c0[src] == 0);
                    }
                }
                assert(!moved.contains(src - ob));
            }
            assert(dst >= nb && is_child(c0, cur, dst - nb + ob) && moved2.contains(dst - nb));
        } else if x == src {
            assert(d2[src] == d_in[dst]);
            assert(d_in[dst] == d0[dst]) by {
                assert(!(dst >= nb && is_child(c0, cur, dst - nb + ob) && moved.contains(
                    dst - nb,
                ))) by {
                    assert(!moved.contains(off));
                }
                assert(!(is_child(c0, cur, dst))) by {
                    if is_child(c0, cur, dst) {
                        assert(c0[dst] != 0);
                    }
                }
            }
            assert(is_child(c0, cur, src) && moved2.contains(off));
            assert(!(src >= nb && is_child(c0, cur, src - nb + ob))) by {
                if src >= nb && is_child(c0, cur, src - nb + ob) {
                    assert(c0[src] == 0);
                }
            }
        } else {
            assert(d2[x] == d_in[x]);
            if x >= nb && is_child(c0, cur, x - nb + ob) && moved2.contains(x - nb) {
                assert(x - nb != off) by {
                    if x - nb == off {
                        assert(x == dst);
                    }
                }
                assert(moved.contains(x - nb));
            } else if is_child(c0, cur, x) && moved2.contains(x - ob) {
                assert(x - ob != off) by {
                    if x - ob == off {
                        assert(x == src);
                    }
                }
                assert(moved.contains(x - ob));
            } else {
                assert(!(x >= nb && is_child(c0, cur, x - nb + ob) && moved.contains(x - nb)));
                assert(!(is_child(c0, cur, x) && moved.contains(x - ob)));
            }
        }
    }
}

fn clone_bucket<V: Copy>(v: &Vec<V>) -> (r: Vec<V>)
    ensures
        r@ == v@,
{
    let mut r: Vec<V> = Vec::new();
    let mut i: usize = 0;
    while i < v.len()
        invariant
            i <= v@.len(),
            r@ == v@.take(i as int),
        decreases v@.len() - i,
    {
        let ghost r0 = r@;
        r.push(v[i]);
        proof {
            assert(r0.push(v@[i as int]) =~= v@.take(i as int + 1));
        }
        i += 1;
    }
    proof {
        assert(v@.take(v@.len() as int) =~= v@);
    }
    r
}


/// Run-time validation of persisted raw parts: decides exactly the
/// soundness conditions `from_raw_parts` requires, so a malformed blob can
/// be rejected instead of silently voiding every downstream guarantee.
#[verifier::rlimit(100)]
#[verifier::spinoff_prover]
pub fn check_raw_parts<K: AsUsize, V>(
    base: &Vec<u32>,
    check: &Vec<u32>,
    data: &Vec<Vec<V>>,
) -> (r: bool)
    ensures
        r == (cells_wf::<K>(base@, check@) && data_wf(check@, views_of(data@))),
{
    let n = check.len();
    if base.len() != n || data.len() != n {
        return false;
    }
    if n < 2 || n > 0x1000_0000 {
        return false;
    }
    if check[0] != 0 || check[1] != 0 || base[0] != 0 {
        return false;
    }
    let maxu = K::max_value();
    proof {
        K::lemma_unit_max_bound();
        assert(views_of(data@).take(0) =~= Seq::<Seq<V>>::empty());
    }
    let ghost views = views_of(data@);
    let mut sum: usize = 0;
    let mut t: usize = 0;
    while t < n
        invariant
            n == check@.len(),
            base@.len() == n,
            data@.len() == n,
            views == views_of(data@),
            2 <= n <= 0x1000_0000,
            check@[0] == 0,
            check@[1] == 0,
            base@[0] == 0,
            maxu as int == K::unit_max(),
            maxu <= 0x10FFFF,
            t <= n,
            sum as int == total_len(views.take(t as int)),
            sum <= 0x1000_0000,
            forall|i: int|
                2 <= i < t && check@[i] != 0 ==> parent_ok::<K>(base@, check@, i),
            forall|i: int| 0 <= i < t ==> (#[trigger] base@[i]) as int <= n,
            forall|i: int|
                0 <= i < t && check@[i] == 0 && i != 1 ==> (#[trigger] base@[i]) == 0 && (
                views[i]).len() == 0,
        decreases n - t,
    {
        if base[t] as usize > n {
            return false;
        }
        if t >= 2 && check[t] != 0 {
            let p = check[t] as usize;
            if p != 1 && (p < 2 || p >= n || check[p] == 0) {
                proof {
                    assert(!live(check@, p as int));
                    assert(!parent_ok::<K>(base@, check@, t as int));
                }
                return false;
            }
            if p == t || base[p] == 0 || base[p] as usize > t || t - base[p] as usize > maxu
                || !K::is_unit_value(t - base[p] as usize) {
                proof {
                    assert(!parent_ok::<K>(base@, check@, t as int));
                }
                return false;
            }
            proof {
                assert(parent_ok::<K>(base@, check@, t as int));
            }
        }
        if (t >= 2 || t == 0) && check[t] == 0 {
            if base[t] != 0 || data[t].len() != 0 {
                return false;
            }
        }
        proof {
            lemma_total_len_take(views, t as int);
            assert(views[t as int] == data@[t as int]@);
            lemma_total_len_nonneg(views.take(t as int));
        }
        if data[t].len() > 0x1000_0000 - sum {
            // the total would exceed the cell budget
            proof {
                lemma_total_len_take_le(views, t as int + 1);
                assert(total_len(views) > 0x1000_0000);
            }
            return false;
        }
        sum = sum + data[t].len();
        t += 1;
    }
    proof {
        assert(views.take(n as int) =~= views);
        lemma_total_len_nonneg(views);
        assert(cells_wf::<K>(base@, check@));
        assert(data_wf(check@, views)) by {
            assert(views.len() == check@.len());
            assert(0 <= total_len(views) <= cell_limit());
            assert forall|i: int|
                0 <= i < check@.len() && check@[i] == 0 && i != 1 implies (
            #[trigger] views[i]).len() == 0 by {
                assert(base@[i] == 0);
                assert(views[i].len() == 0);
            }
        }
    }
    true
}

impl<K: AsUsize, V, C: SearchCache2> DoubleArray<K, V, C> {
    /// Whether one more key of `key_len` units surely fits the growth and
    /// count budgets, decided at run time for unverified callers.
    pub fn can_insert(&self, key_len: usize) -> (r: bool)
        requires
            self.wf(),
        ensures
            r == self.insert_ready(key_len as int),
    {
        if key_len > 240 {
            proof {
                assert(key_len as int * 0x110001 > 0x1000_0000) by (nonlinear_arith)
                    requires
                        key_len as int >= 241,
                ;
                assert(self.spec_len() >= 2);
            }
            return false;
        }
        let need = key_len * 0x110001;
        let c = self.count();
        proof {
            assert(need as int == key_len as int * 0x110001);
            assert(need <= 240 * 0x110001) by (nonlinear_arith)
                requires
                    key_len <= 240,
                    need as int == key_len as int * 0x110001,
            ;
        }
        self.check.len() <= 0x1000_0000 - need && c < 0x1000_0000
    }
}

impl<K: AsUsize, V> DoubleArray<K, V, crate::search_cache::NoCache> {
    /// Reassembles a double array from persisted raw parts. The caller owns
    /// the soundness of the parts; the map read from them is exactly what
    /// the arrays denote.
    pub fn from_raw_parts(base: Vec<u32>, check: Vec<u32>, data: Vec<Vec<V>>) -> (r: Self)
        requires
            cells_wf::<K>(base@, check@),
            data_wf(check@, views_of(data@)),
        ensures
            r.wf(),
            forall|k: Seq<K>| #[trigger] r.lookup(k) == lookup_at(
                base@,
                check@,
                views_of(data@),
                1,
                key_ints(k),
            ),
            r.spec_count() == total_len(views_of(data@)),
    {
        let search_cache = crate::search_cache::NoCache::fresh();
        DoubleArray { base, check, data, phantom: core::marker::PhantomData, search_cache }
    }
}

impl<K: AsUsize, V, C: SearchCache2> DoubleArray<K, V, C> {
    /// Hands out the raw cell arrays, for persisting the structure; the
    /// parts denote exactly the map this array held.
    pub fn into_raw_parts(self) -> (r: (Vec<u32>, Vec<u32>, Vec<Vec<V>>))
        requires
            self.wf(),
        ensures
            cells_wf::<K>(r.0@, r.1@),
            data_wf(r.1@, views_of(r.2@)),
            forall|k: Seq<K>| #[trigger] self.lookup(k) == lookup_at(
                r.0@,
                r.1@,
                views_of(r.2@),
                1,
                key_ints(k),
            ),
    {
        (self.base, self.check, self.data)
    }
}

impl<K: AsUsize, V: Copy, C: SearchCache2> crate::prefix_map::PrefixMap<K, V> for DoubleArray<
    K,
    V,
    C,
> {
    open spec fn lookup(&self, key: Seq<K>) -> Seq<V> {
        DoubleArray::lookup(self, key)
    }

    open spec fn wf(&self) -> bool {
        DoubleArray::wf(self)
    }

    open spec fn spec_count(&self) -> int {
        DoubleArray::spec_count(self)
    }

    open spec fn insert_ready(&self, key_len: int) -> bool {
        DoubleArray::insert_ready(self, key_len)
    }

    fn new() -> (r: Self) {
        DoubleArray::new()
    }

    fn count(&self) -> (r: usize) {
        DoubleArray::count(self)
    }

    fn get<'a, I: AsChars<K> + ?Sized>(&'a self, key: &I) -> (r: Option<&'a [V]>) {
        DoubleArray::get(self, key)
    }

    fn insert<I: AsChars<K> + ?Sized>(&mut self, key: &I, value: V) {
        DoubleArray::insert(self, key, value)
    }

    fn each_prefix<I: AsChars<K> + ?Sized>(&self, key: &I) -> (r: Vec<(usize, Vec<V>)>) {
        DoubleArray::each_prefix(self, key)
    }
}

} // verus!
