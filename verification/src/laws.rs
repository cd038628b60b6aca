use vstd::prelude::*;
use crate::as_chars::AsUsize;
use crate::prefix_map::PrefixMap;

verus! {

/// Round-trip law: inserting two distinct keys leaves each retrievable with
/// exactly its own values appended, and the outcome does not depend on the
/// order of the two insertions. The hypotheses are precisely what the
/// `insert` contract guarantees for each step.
pub proof fn lemma_round_trip<K: AsUsize, V: Copy, M: PrefixMap<K, V>>(
    m0: M,
    m1: M,
    m2: M,
    n1: M,
    n2: M,
    k1: Seq<K>,
    k2: Seq<K>,
    v1: V,
    v2: V,
)
    requires
        k1 != k2,
        // first order: k1 then k2
        m1.lookup(k1) == m0.lookup(k1).push(v1),
        forall|k: Seq<K>| k != k1 ==> m1.lookup(k) == m0.lookup(k),
        m2.lookup(k2) == m1.lookup(k2).push(v2),
        forall|k: Seq<K>| k != k2 ==> m2.lookup(k) == m1.lookup(k),
        // second order: k2 then k1
        n1.lookup(k2) == m0.lookup(k2).push(v2),
        forall|k: Seq<K>| k != k2 ==> n1.lookup(k) == m0.lookup(k),
        n2.lookup(k1) == n1.lookup(k1).push(v1),
        forall|k: Seq<K>| k != k1 ==> n2.lookup(k) == n1.lookup(k),
    ensures
        m2.lookup(k1) == m0.lookup(k1).push(v1),
        m2.lookup(k2) == m0.lookup(k2).push(v2),
        n2.lookup(k1) == m2.lookup(k1),
        n2.lookup(k2) == m2.lookup(k2),
        forall|k: Seq<K>| k != k1 && k != k2 ==> m2.lookup(k) == m0.lookup(k) && n2.lookup(k)
            == m0.lookup(k),
{
}

/// Idempotent-query law: the `get` contract pins the answer as a function of
/// the dictionary and the key alone, so two calls on an unmodified
/// dictionary return identical results.
pub proof fn lemma_idempotent_query<K: AsUsize, V: Copy, M: PrefixMap<K, V>>(
    m: M,
    key: Seq<K>,
    r1: Option<Seq<V>>,
    r2: Option<Seq<V>>,
)
    requires
        match r1 {
            Option::Some(vs) => vs == m.lookup(key) && m.lookup(key).len() > 0,
            Option::None => m.lookup(key).len() == 0,
        },
        match r2 {
            Option::Some(vs) => vs == m.lookup(key) && m.lookup(key).len() > 0,
            Option::None => m.lookup(key).len() == 0,
        },
    ensures
        r1 == r2,
{
}

/// Bulk-build equivalence law, step case: two backends whose maps agree and
/// that receive the same insertion still agree afterwards. Chained over an
/// insertion sequence, a double array built incrementally and a trie built
/// from the same entries answer every `get` alike; compacting the trie
/// preserves its map exactly, so the compacted array does too.
pub proof fn lemma_parallel_insert<K: AsUsize, V: Copy, A: PrefixMap<K, V>, B: PrefixMap<K, V>>(
    a0: A,
    a1: A,
    b0: B,
    b1: B,
    key: Seq<K>,
    value: V,
)
    requires
        forall|k: Seq<K>| #[trigger] a0.lookup(k) == b0.lookup(k),
        a1.lookup(key) == a0.lookup(key).push(value),
        forall|k: Seq<K>| k != key ==> a1.lookup(k) == a0.lookup(k),
        b1.lookup(key) == b0.lookup(key).push(value),
        forall|k: Seq<K>| k != key ==> b1.lookup(k) == b0.lookup(k),
        a1.spec_count() == a0.spec_count() + 1,
        b1.spec_count() == b0.spec_count() + 1,
        a0.spec_count() == b0.spec_count(),
    ensures
        forall|k: Seq<K>| #[trigger] a1.lookup(k) == b1.lookup(k),
        a1.spec_count() == b1.spec_count(),
{
}

} // verus!
