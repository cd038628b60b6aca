use vstd::prelude::*;
use crate::as_chars::{AsChars, AsUsize};

verus! {

/// The capability set every dictionary backend offers: keyed buckets of
/// values with whole-key lookup, insertion, and prefix enumeration. The
/// analyzer and the builders depend only on this contract.
pub trait PrefixMap<K: AsUsize, V: Copy>: Sized {
    /// The values associated with a key, in insertion order.
    spec fn lookup(&self, key: Seq<K>) -> Seq<V>;

    /// Structural soundness of the backend.
    spec fn wf(&self) -> bool;

    /// Number of stored values.
    spec fn spec_count(&self) -> int;

    /// Whether one more key of this length can be accepted.
    spec fn insert_ready(&self, key_len: int) -> bool;

    fn new() -> (r: Self)
        ensures
            r.wf(),
            r.spec_count() == 0,
            forall|key: Seq<K>| r.lookup(key) == Seq::<V>::empty(),
    ;

    fn count(&self) -> (r: usize)
        requires
            self.wf(),
        ensures
            r as int == self.spec_count(),
    ;

    fn get<'a, I: AsChars<K> + ?Sized>(&'a self, key: &I) -> (r: Option<&'a [V]>)
        requires
            self.wf(),
        ensures
            match r {
                Option::Some(vs) => vs@ == self.lookup(key.units()) && self.lookup(
                    key.units(),
                ).len() > 0,
                Option::None => self.lookup(key.units()).len() == 0,
            },
    ;

    fn insert<I: AsChars<K> + ?Sized>(&mut self, key: &I, value: V)
        requires
            old(self).wf(),
            old(self).insert_ready(key.units().len() as int),
        ensures
            final(self).wf(),
            final(self).lookup(key.units()) == old(self).lookup(key.units()).push(value),
            forall|k2: Seq<K>|
                k2 != key.units() ==> final(self).lookup(k2) == old(self).lookup(k2),
            final(self).spec_count() == old(self).spec_count() + 1,
    ;

    fn each_prefix<I: AsChars<K> + ?Sized>(&self, key: &I) -> (r: Vec<(usize, Vec<V>)>)
        requires
            self.wf(),
        ensures
            forall|j: int|
                0 <= j < r@.len() ==> {
                    &&& 1 <= (#[trigger] r@[j]).0 <= key.units().len()
                    &&& r@[j].1@ == self.lookup(key.units().take(r@[j].0 as int))
                    &&& self.lookup(key.units().take(r@[j].0 as int)).len() > 0
                },
            forall|j1: int, j2: int| 0 <= j1 < j2 < r@.len() ==> r@[j1].0 < r@[j2].0,
            forall|l: int|
                1 <= l <= key.units().len() && self.lookup(key.units().take(l)).len() > 0
                    ==> exists|j: int| 0 <= j < r@.len() && (#[trigger] r@[j]).0 == l,
    ;
}

} // verus!
