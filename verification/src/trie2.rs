use vstd::prelude::*;
use crate::as_chars::{AsChars, AsUsize};

verus! {

// ---------------------------------------------------------------------------
// The staging trie: an ordinary ordered tree used to accumulate entries
// cheaply before bulk compaction into a double array.
// ---------------------------------------------------------------------------

pub struct Node<K, V> {
    pub data: Vec<V>,
    pub children: Vec<(K, Node<K, V>)>,
}

/// Every node keeps its child list strictly sorted by unit value.
pub open spec fn node_wf<K: AsUsize, V>(n: Node<K, V>) -> bool
    decreases n,
{
    &&& (forall|j1: int, j2: int|
        0 <= j1 < j2 < n.children@.len() ==> (#[trigger] n.children@[j1]).0.as_int() < (
        #[trigger] n.children@[j2]).0.as_int())
    &&& (forall|j: int| 0 <= j < n.children@.len() ==> node_wf(#[trigger] n.children@[j].1))
}

/// The first child slot holding unit value `c`.
pub open spec fn find_child<K: AsUsize, V>(children: Seq<(K, Node<K, V>)>, c: int) -> Option<int>
    decreases children.len(),
{
    if children.len() == 0 {
        Option::None
    } else if children[0].0.as_int() == c {
        Option::Some(0int)
    } else {
        match find_child(children.drop_first(), c) {
            Option::Some(j) => Option::Some(j + 1),
            Option::None => Option::None,
        }
    }
}

/// Number of tree nodes in the subtree, the root included.
pub open spec fn node_size<K, V>(n: Node<K, V>) -> int
    decreases n, 1int, 0int,
{
    1 + kids_size(n.children, n.children@.len() as int)
}

/// Combined size of the first `i` children.
pub open spec fn kids_size<K, V>(v: Vec<(K, Node<K, V>)>, i: int) -> int
    decreases v, 0int, i,
{
    if i <= 0 || i > v@.len() {
        0
    } else {
        kids_size(v, i - 1) + node_size(v[i - 1].1)
    }
}

/// Combined length of all keys a subtree stores, for a subtree rooted at
/// depth `plen`: what the double array may grow by when the subtree's
/// entries are fed to it.
pub open spec fn cost_of<K, V>(n: Node<K, V>, plen: int) -> int
    decreases n, 1int, 0int,
{
    n.data@.len() * plen + kids_cost(n.children, n.children@.len() as int, plen + 1)
}

pub open spec fn kids_cost<K, V>(v: Vec<(K, Node<K, V>)>, i: int, plen: int) -> int
    decreases v, 0int, i,
{
    if i <= 0 || i > v@.len() {
        0
    } else {
        kids_cost(v, i - 1, plen) + cost_of(v[i - 1].1, plen)
    }
}

/// Total number of stored values in the subtree.
pub open spec fn node_vals<K, V>(n: Node<K, V>) -> int
    decreases n, 1int, 0int,
{
    n.data@.len() + kids_vals(n.children, n.children@.len() as int)
}

pub open spec fn kids_vals<K, V>(v: Vec<(K, Node<K, V>)>, i: int) -> int
    decreases v, 0int, i,
{
    if i <= 0 || i > v@.len() {
        0
    } else {
        kids_vals(v, i - 1) + node_vals(v[i - 1].1)
    }
}

/// Replacing one child changes the aggregate measures by that child's
/// difference.
proof fn lemma_kids_measures_update<K, V>(
    v1: Vec<(K, Node<K, V>)>,
    v2: Vec<(K, Node<K, V>)>,
    ix: int,
    m: int,
    plen: int,
)
    requires
        v2@.len() == v1@.len(),
        0 <= ix < v1@.len(),
        forall|i: int| 0 <= i < v1@.len() && i != ix ==> v2@[i] == v1@[i],
        0 <= m <= v1@.len(),
    ensures
        kids_vals(v2, m) == kids_vals(v1, m) + (if ix < m {
            node_vals(v2@[ix].1) - node_vals(v1@[ix].1)
        } else {
            0
        }),
        kids_cost(v2, m, plen) == kids_cost(v1, m, plen) + (if ix < m {
            cost_of(v2@[ix].1, plen) - cost_of(v1@[ix].1, plen)
        } else {
            0
        }),
    decreases m,
{
    if m > 0 {
        lemma_kids_measures_update(v1, v2, ix, m - 1, plen);
    }
}

/// Inserting a child adds exactly that child's measures.
proof fn lemma_kids_measures_insert<K, V>(
    v1: Vec<(K, Node<K, V>)>,
    v2: Vec<(K, Node<K, V>)>,
    ix: int,
    m: int,
    plen: int,
)
    requires
        v2@.len() == v1@.len() + 1,
        0 <= ix <= v1@.len(),
        forall|i: int| 0 <= i < ix ==> v2@[i] == v1@[i],
        forall|i: int| ix <= i < v1@.len() ==> v2@[i + 1] == v1@[i],
        0 <= m <= v2@.len(),
    ensures
        kids_vals(v2, m) == kids_vals(v1, if m <= ix {
            m
        } else {
            m - 1
        }) + (if m > ix {
            node_vals(v2@[ix].1)
        } else {
            0
        }),
        kids_cost(v2, m, plen) == kids_cost(v1, if m <= ix {
            m
        } else {
            m - 1
        }, plen) + (if m > ix {
            cost_of(v2@[ix].1, plen)
        } else {
            0
        }),
    decreases m,
{
    if m > 0 {
        lemma_kids_measures_insert(v1, v2, ix, m - 1, plen);
        if m - 1 > ix {
            assert(v2@[m - 1] == v1@[m - 2]);
        } else if m - 1 < ix {
            assert(v2@[m - 1] == v1@[m - 1]);
        }
    }
}

impl<K: AsUsize, V> Node<K, V> {
    /// The values this subtree associates with a unit sequence.
    pub open spec fn lookup(&self, key: Seq<K>) -> Seq<V>
        decreases key.len(),
    {
        if key.len() == 0 {
            self.data@
        } else {
            match find_child(self.children@, key[0].as_int()) {
                Option::Some(j) => self.children@[j].1.lookup(key.drop_first()),
                Option::None => Seq::empty(),
            }
        }
    }
}

/// `find_child` only looks at the units, so it lands on a matching slot, and
/// under sortedness that slot is unique.
pub proof fn lemma_find_child_some<K: AsUsize, V>(children: Seq<(K, Node<K, V>)>, c: int, j: int)
    requires
        forall|j1: int, j2: int|
            0 <= j1 < j2 < children.len() ==> (#[trigger] children[j1]).0.as_int() < (
            #[trigger] children[j2]).0.as_int(),
        0 <= j < children.len(),
        children[j].0.as_int() == c,
    ensures
        find_child(children, c) == Option::Some(j),
    decreases children.len(),
{
    if j == 0 {
    } else {
        assert(children[0].0.as_int() < children[j].0.as_int());
        assert(children.drop_first()[j - 1] == children[j]);
        lemma_find_child_some(children.drop_first(), c, j - 1);
    }
}

proof fn lemma_find_child_none<K: AsUsize, V>(children: Seq<(K, Node<K, V>)>, c: int)
    requires
        forall|j: int| 0 <= j < children.len() ==> (#[trigger] children[j]).0.as_int() != c,
    ensures
        find_child(children, c) == Option::None::<int>,
    decreases children.len(),
{
    if children.len() > 0 {
        assert(forall|j: int|
            0 <= j < children.drop_first().len() ==> children.drop_first()[j]
                == children[j + 1]);
        lemma_find_child_none(children.drop_first(), c);
    }
}

/// `find_child` depends only on the unit of each slot.
proof fn lemma_find_child_units<K: AsUsize, V>(
    c1: Seq<(K, Node<K, V>)>,
    c2: Seq<(K, Node<K, V>)>,
    c: int,
)
    requires
        c1.len() == c2.len(),
        forall|j: int| 0 <= j < c1.len() ==> (#[trigger] c1[j]).0 == c2[j].0,
    ensures
        find_child(c1, c) == find_child(c2, c),
    decreases c1.len(),
{
    if c1.len() > 0 {
        assert(c1[0].0 == c2[0].0);
        assert(forall|j: int|
            0 <= j < c1.drop_first().len() ==> (#[trigger] c1.drop_first()[j]) == c1[j + 1]
                && c2.drop_first()[j] == c2[j + 1]);
        lemma_find_child_units(c1.drop_first(), c2.drop_first(), c);
    }
}

impl<K: AsUsize, V> Node<K, V> {
    fn new() -> (r: Self)
        ensures
            node_wf(r),
            forall|key: Seq<K>| r.lookup(key) == Seq::<V>::empty(),
            r.data@.len() == 0,
            r.children@.len() == 0,
    {
        let r = Node { data: Vec::new(), children: Vec::new() };
        proof {
            assert forall|key: Seq<K>| r.lookup(key) == Seq::<V>::empty() by {
                if key.len() != 0 {
                    assert(find_child(r.children@, key[0].as_int()) is None);
                }
            }
        }
        r
    }

    /// Binary search among the sorted children: the matching slot, or the
    /// slot where a child for this unit belongs.
    fn search(&self, ch: K) -> (r: Result<usize, usize>)
        requires
            node_wf(*self),
        ensures
            match r {
                Result::Ok(j) => 0 <= j < self.children@.len() && self.children@[
                    j as int].0.as_int() == ch.as_int() && find_child(self.children@, ch.as_int())
                    == Option::Some(j as int),
                Result::Err(j) => j <= self.children@.len() && (forall|m: int|
                    0 <= m < j ==> (#[trigger] self.children@[m]).0.as_int() < ch.as_int()) && (
                forall|m: int|
                    j <= m < self.children@.len() ==> (#[trigger] self.children@[m]).0.as_int()
                        > ch.as_int()) && find_child(self.children@, ch.as_int())
                    == Option::None::<int>,
            },
    {
        proof {
            ch.lemma_unit_bounds();
        }
        let cu = ch.as_usize();
        let mut lo: usize = 0;
        let mut hi: usize = self.children.len();
        while lo < hi
            invariant
                node_wf(*self),
                lo <= hi <= self.children@.len(),
                cu as int == ch.as_int(),
                forall|m: int| 0 <= m < lo ==> (#[trigger] self.children@[m]).0.as_int() < cu,
                forall|m: int|
                    hi <= m < self.children@.len() ==> (#[trigger] self.children@[m]).0.as_int()
                        > cu,
            decreases hi - lo,
        {
            let mid = lo + (hi - lo) / 2;
            let mu = self.children[mid].0.as_usize();
            if mu < cu {
                proof {
                    assert forall|m: int| 0 <= m < mid + 1 implies (
                    #[trigger] self.children@[m]).0.as_int() < cu by {
                        if m < mid {
                            assert(self.children@[m].0.as_int() < self.children@[
                                mid as int].0.as_int());
                        }
                    }
                }
                lo = mid + 1;
            } else if mu > cu {
                proof {
                    assert forall|m: int|
                        mid <= m < self.children@.len() implies (
                    #[trigger] self.children@[m]).0.as_int() > cu by {
                        if m > mid {
                            assert(self.children@[mid as int].0.as_int() < self.children@[
                                m].0.as_int());
                        }
                    }
                }
                hi = mid;
            } else {
                proof {
                    lemma_find_child_some(self.children@, ch.as_int(), mid as int);
                }
                return Result::Ok(mid);
            }
        }
        proof {
            assert forall|m: int| 0 <= m < self.children@.len() implies (
            #[trigger] self.children@[m]).0.as_int() != ch.as_int() by {
                if m < lo {
                } else {
                }
            }
            lemma_find_child_none(self.children@, ch.as_int());
        }
        Result::Err(lo)
    }

    /// Adds `value` under the units of `key` from position `pos` on, growing
    /// the tree as needed. Exactly that one suffix gains the value.
    fn insert_rec(&mut self, key: &Vec<K>, pos: usize, value: V)
        requires
            node_wf(*old(self)),
            pos <= key@.len(),
        ensures
            node_wf(*final(self)),
            final(self).lookup(key@.skip(pos as int)) == old(self).lookup(
                key@.skip(pos as int),
            ).push(value),
            forall|k2: Seq<K>|
                k2 != key@.skip(pos as int) ==> final(self).lookup(k2) == old(self).lookup(k2),
            node_vals(*final(self)) == node_vals(*old(self)) + 1,
            forall|plen: int| #[trigger] cost_of(*final(self), plen) == cost_of(
                *old(self),
                plen,
            ) + plen + (key@.len() - pos),
        decreases key@.len() - pos,
    {
        if pos == key.len() {
            self.data.push(value);
            proof {
                assert(node_vals(*final(self)) == node_vals(*old(self)) + 1) by {
                    assert(self.children == old(self).children);
                }
                assert forall|plen: int| #[trigger] cost_of(*final(self), plen) == cost_of(
                    *old(self),
                    plen,
                ) + plen + (key@.len() - pos) by {
                    assert(self.children == old(self).children);
                    assert(self.data@.len() == old(self).data@.len() + 1);
                    let dlen = old(self).data@.len() as int;
                    assert((dlen + 1) * plen == dlen * plen + plen) by (nonlinear_arith);
                }
                assert(key@.skip(pos as int).len() == 0);
                assert forall|k2: Seq<K>|
                    k2 != key@.skip(pos as int) implies final(self).lookup(k2) == old(
                    self,
                ).lookup(k2) by {
                    if k2.len() == 0 {
                        assert(k2 =~= key@.skip(pos as int));
                    } else {
                        assert(self.children@ == old(self).children@);
                    }
                }
            }
        } else {
            let ghost suffix = key@.skip(pos as int);
            proof {
                assert(suffix.len() > 0);
                assert(suffix[0] == key@[pos as int]);
                assert(suffix.drop_first() =~= key@.skip(pos as int + 1));
            }
            let u = key[pos];
            let ix: usize;
            match self.search(u) {
                Result::Ok(found) => {
                    ix = found;
                },
                Result::Err(insert_at) => {
                    ix = insert_at;
                    let ghost old_children = self.children@;
                    let fresh = Node::new();
                    self.children.insert(ix, (u, fresh));
                    proof {
                        let nc = self.children@;
                        assert(nc == old_children.insert(ix as int, (u, fresh)));
                        assert(node_wf(*self)) by {
                            assert forall|j1: int, j2: int|
                                0 <= j1 < j2 < nc.len() implies (#[trigger] nc[j1]).0.as_int() < (
                            #[trigger] nc[j2]).0.as_int() by {
                                if j1 < ix as int && j2 == ix as int {
                                    assert(nc[j1] == old_children[j1]);
                                } else if j1 == ix as int && j2 > ix as int {
                                    assert(nc[j2] == old_children[j2 - 1]);
                                } else if j1 < ix as int && j2 > ix as int {
                                    assert(nc[j1] == old_children[j1]);
                                    assert(nc[j2] == old_children[j2 - 1]);
                                } else if j2 < ix as int {
                                    assert(nc[j1] == old_children[j1]);
                                    assert(nc[j2] == old_children[j2]);
                                } else if j1 > ix as int {
                                    assert(nc[j1] == old_children[j1 - 1]);
                                    assert(nc[j2] == old_children[j2 - 1]);
                                }
                            }
                            assert forall|j: int| 0 <= j < nc.len() implies node_wf(
                                #[trigger] nc[j].1,
                            ) by {
                                if j < ix as int {
                                    assert(nc[j] == old_children[j]);
                                } else if j > ix as int {
                                    assert(nc[j] == old_children[j - 1]);
                                }
                            }
                        }
                        // other units find the same child as before
                        assert forall|c: int, jn: int|
                            c != u.as_int() && find_child(nc, c) == Option::Some(jn) implies 0
                            <= jn < nc.len() && exists|jo: int|
                            find_child(old_children, c) == Option::Some(jo) && 0 <= jo
                                < old_children.len() && old_children[jo] == nc[jn] by {
                            lemma_find_child_in_range(nc, c, jn);
                            assert(nc[jn].0.as_int() == c);
                            let jo = if jn < ix as int {
                                jn
                            } else {
                                jn - 1
                            };
                            assert(old_children[jo] == nc[jn]);
                            lemma_find_child_some(old_children, c, jo);
                        }
                        assert forall|c: int|
                            c != u.as_int() && find_child(nc, c) is None implies find_child(
                            old_children,
                            c,
                        ) is None by {
                            if find_child(old_children, c) is Some {
                                let jo = find_child(old_children, c)->0;
                                lemma_find_child_in_range(old_children, c, jo);
                                let jn = if jo < ix as int {
                                    jo
                                } else {
                                    jo + 1
                                };
                                assert(nc[jn] == old_children[jo]);
                                lemma_find_child_some(nc, c, jn);
                            }
                        }
                        assert(find_child(nc, u.as_int()) == Option::Some(ix as int)) by {
                            lemma_find_child_some(nc, u.as_int(), ix as int);
                        }
                        assert(node_vals(fresh) == 0 && (forall|plen2: int| #[trigger] cost_of(
                            fresh,
                            plen2,
                        ) == 0)) by {
                            assert(fresh.children@.len() == 0);
                            assert(forall|plen2: int|
                                kids_cost(fresh.children, 0, plen2) == 0);
                            assert(kids_vals(fresh.children, 0) == 0);
                            assert(forall|plen2: int| #[trigger] cost_of(fresh, plen2)
                                == fresh.data@.len() * plen2 + kids_cost(
                                fresh.children,
                                fresh.children@.len() as int,
                                plen2 + 1,
                            ));
                            assert(fresh.data@.len() == 0);
                            assert(forall|plen2: int| #[trigger] (0int * plen2) == 0);
                        }
                        assert(node_vals(*self) == node_vals(*old(self))) by {
                            lemma_kids_measures_insert(
                                old(self).children,
                                self.children,
                                ix as int,
                                self.children@.len() as int,
                                0,
                            );
                        }
                        assert forall|plen2: int| #[trigger] cost_of(*self, plen2) == cost_of(
                            *old(self),
                            plen2,
                        ) by {
                            lemma_kids_measures_insert(
                                old(self).children,
                                self.children,
                                ix as int,
                                self.children@.len() as int,
                                plen2 + 1,
                            );
                        }
                        // a fresh empty child changes no association at all
                        assert forall|k2: Seq<K>| #[trigger] self.lookup(k2) == old(
                            self,
                        ).lookup(k2) by {
                            if k2.len() > 0 {
                                let c = k2[0].as_int();
                                if c == u.as_int() {
                                    assert(find_child(nc, c) == Option::Some(ix as int));
                                    assert(nc[ix as int].1 == fresh);
                                    assert(fresh.lookup(k2.drop_first()) == Seq::<V>::empty());
                                    assert(find_child(old_children, c) is None);
                                } else {
                                    match find_child(nc, c) {
                                        Option::Some(jn) => {},
                                        Option::None => {},
                                    }
                                }
                            }
                        }
                    }
                },
            }
            let ghost pre_children = self.children@;
            let ghost pre_self = *self;
            proof {
                assert(find_child(pre_children, u.as_int()) == Option::Some(ix as int));
                assert(node_wf(pre_children[ix as int].1));
            }
            self.children[ix].1.insert_rec(key, pos + 1, value);
            proof {
                let nc = self.children@;
                let newchild = nc[ix as int].1;
                assert(nc == pre_children.update(ix as int, nc[ix as int]));
                assert(nc[ix as int].0 == pre_children[ix as int].0);
                assert(pre_children[ix as int].0.as_int() == u.as_int());
                K::lemma_unit_injective(pre_children[ix as int].0, u);
                assert(nc[ix as int].0 == u);
                assert(node_wf(*self)) by {
                    assert forall|j1: int, j2: int|
                        0 <= j1 < j2 < nc.len() implies (#[trigger] nc[j1]).0.as_int() < (
                    #[trigger] nc[j2]).0.as_int() by {
                        assert(nc[j1].0 == pre_children[j1].0);
                        assert(nc[j2].0 == pre_children[j2].0);
                    }
                    assert forall|j: int| 0 <= j < nc.len() implies node_wf(
                        #[trigger] nc[j].1,
                    ) by {
                        if j != ix as int {
                            assert(nc[j] == pre_children[j]);
                        }
                    }
                }
                assert forall|c: int| find_child(nc, c) == find_child(pre_children, c) by {
                    lemma_find_child_units(nc, pre_children, c);
                }
                // the lookup of this node changes exactly on suffixes through u
                assert forall|k2: Seq<K>| k2 != suffix implies self.lookup(k2) == pre_self.lookup(
                    k2,
                ) by {
                    if k2.len() == 0 {
                    } else if k2[0].as_int() != u.as_int() {
                        match find_child(nc, k2[0].as_int()) {
                            Option::Some(jn) => {
                                lemma_find_child_in_range(nc, k2[0].as_int(), jn);
                                assert(0 <= jn < nc.len());
                                assert(jn != ix as int) by {
                                    if jn == ix as int {
                                        assert(nc[jn].0.as_int() == k2[0].as_int());
                                    }
                                }
                                assert(nc[jn] == pre_children[jn]);
                            },
                            Option::None => {},
                        }
                    } else {
                        assert(k2.drop_first() != suffix.drop_first()) by {
                            K::lemma_unit_injective(k2[0], u);
                            assert(k2[0] == u);
                            if k2.drop_first() == suffix.drop_first() {
                                assert(k2.len() == suffix.len());
                                assert forall|m: int| 0 <= m < k2.len() implies k2[m]
                                    == suffix[m] by {
                                    if m > 0 {
                                        assert(k2[m] == k2.drop_first()[m - 1]);
                                        assert(suffix[m] == suffix.drop_first()[m - 1]);
                                    } else {
                                        assert(suffix[0] == key@[pos as int]);
                                    }
                                }
                                assert(k2 =~= suffix);
                            }
                        }
                        assert(self.lookup(k2) == newchild.lookup(k2.drop_first()));
                        assert(pre_self.lookup(k2) == pre_children[ix as int].1.lookup(
                            k2.drop_first(),
                        ));
                        assert(suffix.drop_first() =~= key@.skip(pos as int + 1));
                    }
                }
                assert(self.lookup(suffix) == newchild.lookup(suffix.drop_first()));
                assert(pre_self.lookup(suffix) == pre_children[ix as int].1.lookup(
                    key@.skip(pos as int + 1),
                ));
                assert(suffix.drop_first() =~= key@.skip(pos as int + 1));
                assert(self.lookup(suffix) == pre_self.lookup(suffix).push(value));
                assert(pre_self.lookup(suffix) == old(self).lookup(suffix));
                assert forall|k2: Seq<K>| k2 != suffix implies self.lookup(k2) == old(
                    self,
                ).lookup(k2) by {
                    assert(self.lookup(k2) == pre_self.lookup(k2));
                    assert(pre_self.lookup(k2) == old(self).lookup(k2));
                }
                // the one added value and its key tail propagate up the
                // measures unchanged in form
                assert(node_vals(*self) == node_vals(pre_self) + 1) by {
                    lemma_kids_measures_update(
                        pre_self.children,
                        self.children,
                        ix as int,
                        pre_children.len() as int,
                        0,
                    );
                    assert(node_vals(nc[ix as int].1) == node_vals(pre_children[ix as int].1)
                        + 1);
                    assert(self.data@ == pre_self.data@);
                }
                assert forall|plen: int| #[trigger] cost_of(*self, plen) == cost_of(
                    pre_self,
                    plen,
                ) + plen + (key@.len() - pos) by {
                    lemma_kids_measures_update(
                        pre_self.children,
                        self.children,
                        ix as int,
                        pre_children.len() as int,
                        plen + 1,
                    );
                    assert(cost_of(nc[ix as int].1, plen + 1) == cost_of(
                        pre_children[ix as int].1,
                        plen + 1,
                    ) + (plen + 1) + (key@.len() - (pos + 1)));
                    assert(self.data@ == pre_self.data@);
                }
                assert(node_vals(pre_self) == node_vals(*old(self)));
                assert(forall|plen: int| #[trigger] cost_of(pre_self, plen) == cost_of(
                    *old(self),
                    plen,
                ));
            }
        }
    }
}

/// A found slot is in range and holds the unit.
pub proof fn lemma_find_child_in_range<K: AsUsize, V>(children: Seq<(K, Node<K, V>)>, c: int, j: int)
    requires
        find_child(children, c) == Option::Some(j),
    ensures
        0 <= j < children.len(),
        children[j].0.as_int() == c,
    decreases children.len(),
{
    if children.len() > 0 && children[0].0.as_int() != c {
        lemma_find_child_in_range(children.drop_first(), c, j - 1);
    }
}

/// The staging prefix map: a root node plus a running entry count.
pub struct Trie<K, V> {
    root: Node<K, V>,
    count: usize,
}

impl<K: AsUsize, V: Copy> Trie<K, V> {
    pub closed spec fn wf(&self) -> bool {
        &&& node_wf(self.root)
        &&& self.count as int == node_vals(self.root)
    }

    /// Combined length of every stored key: what feeding the trie to a
    /// double array may cost in cells.
    pub closed spec fn spec_cost(&self) -> int {
        cost_of(self.root, 0)
    }

    pub closed spec fn lookup(&self, key: Seq<K>) -> Seq<V> {
        self.root.lookup(key)
    }

    pub closed spec fn spec_count(&self) -> int {
        self.count as int
    }

    pub closed spec fn spec_root(&self) -> Node<K, V> {
        self.root
    }

    /// The root node, for the bulk compaction pass.
    pub fn into_root(self) -> (r: Node<K, V>)
        requires
            self.wf(),
        ensures
            node_wf(r),
            r == self.spec_root(),
            node_vals(r) == self.spec_count(),
            cost_of(r, 0) == self.spec_cost(),
            forall|key: Seq<K>| r.lookup(key) == self.lookup(key),
    {
        self.root
    }

    pub fn new() -> (r: Self)
        ensures
            r.wf(),
            r.spec_count() == 0,
            r.spec_cost() == 0,
            forall|key: Seq<K>| r.lookup(key) == Seq::<V>::empty(),
    {
        let root = Node::new();
        proof {
            assert(kids_vals(root.children, 0) == 0);
            assert(kids_cost(root.children, 0, 1) == 0);
            assert(node_vals(root) == 0);
            assert(cost_of(root, 0) == root.data@.len() * 0 + kids_cost(
                root.children,
                root.children@.len() as int,
                1,
            ));
        }
        Trie { root, count: 0 }
    }

    pub fn count(&self) -> (r: usize)
        ensures
            r as int == self.spec_count(),
    {
        self.count
    }

    pub fn insert<I: AsChars<K> + ?Sized>(&mut self, key: &I, value: V)
        requires
            old(self).wf(),
            old(self).spec_count() + 1 <= 0x1000_0000,
        ensures
            final(self).wf(),
            final(self).lookup(key.units()) == old(self).lookup(key.units()).push(value),
            forall|k2: Seq<K>|
                k2 != key.units() ==> final(self).lookup(k2) == old(self).lookup(k2),
            final(self).spec_count() == old(self).spec_count() + 1,
            final(self).spec_cost() == old(self).spec_cost() + key.units().len(),
    {
        let units = key.as_chars();
        proof {
            assert(units@.skip(0) =~= key.units());
        }
        self.root.insert_rec(&units, 0, value);
        self.count = self.count + 1;
        proof {
            assert(cost_of(self.root, 0) == cost_of(old(self).root, 0) + 0 + (units@.len()
                - 0));
        }
    }

    pub fn get<'a, I: AsChars<K> + ?Sized>(&'a self, key: &I) -> (r: Option<&'a [V]>)
        requires
            self.wf(),
        ensures
            match r {
                Option::Some(vs) => vs@ == self.lookup(key.units()) && self.lookup(
                    key.units(),
                ).len() > 0,
                Option::None => self.lookup(key.units()).len() == 0,
            },
    {
        let units = key.as_chars();
        let ghost kunits = key.units();
        let mut cursor: &Node<K, V> = &self.root;
        let mut i: usize = 0;
        proof {
            assert(kunits.skip(0) =~= kunits);
        }
        while i < units.len()
            invariant
                units@ == kunits,
                kunits == key.units(),
                i <= units@.len(),
                node_wf(*cursor),
                self.wf(),
                self.root.lookup(kunits) == cursor.lookup(kunits.skip(i as int)),
            decreases units@.len() - i,
        {
            let ghost rest = kunits.skip(i as int);
            proof {
                assert(rest.len() > 0);
                assert(rest[0] == units@[i as int]);
                assert(rest.drop_first() =~= kunits.skip(i as int + 1));
            }
            match cursor.search(units[i]) {
                Result::Ok(ix) => {
                    cursor = &cursor.children[ix].1;
                },
                Result::Err(_) => {
                    proof {
                        assert(cursor.lookup(rest) == Seq::<V>::empty());
                    }
                    return None;
                },
            }
            i += 1;
        }
        proof {
            assert(kunits.skip(i as int).len() == 0);
            assert(cursor.lookup(kunits.skip(i as int)) == cursor.data@);
        }
        if cursor.data.len() > 0 {
            Some(cursor.data.as_slice())
        } else {
            None
        }
    }

    /// Every dictionary entry that is a prefix of `key`, as (consumed
    /// length, bucket) pairs in increasing length order.
    pub fn each_prefix<I: AsChars<K> + ?Sized>(&self, key: &I) -> (r: Vec<(usize, Vec<V>)>)
        requires
            self.wf(),
        ensures
            forall|j: int|
                0 <= j < r@.len() ==> {
                    &&& 1 <= (#[trigger] r@[j]).0 <= key.units().len()
                    &&& r@[j].1@ == self.lookup(key.units().take(r@[j].0 as int))
                    &&& self.lookup(key.units().take(r@[j].0 as int)).len() > 0
                },
            forall|j1: int, j2: int| 0 <= j1 < j2 < r@.len() ==> r@[j1].0 < r@[j2].0,
            forall|l: int|
                1 <= l <= key.units().len() && self.lookup(key.units().take(l)).len() > 0
                    ==> exists|j: int| 0 <= j < r@.len() && (#[trigger] r@[j]).0 == l,
    {
        let units = key.as_chars();
        let ghost kunits = key.units();
        let mut r: Vec<(usize, Vec<V>)> = Vec::new();
        let mut cursor: &Node<K, V> = &self.root;
        let mut i: usize = 0;
        proof {
            assert forall|l: int| 0 <= l <= kunits.len() implies #[trigger] self.lookup(
                kunits.take(l),
            ) == cursor.lookup(kunits.skip(0).take(l)) by {
                assert(kunits.skip(0).take(l) =~= kunits.take(l));
            }
        }
        while i < units.len()
            invariant
                units@ == kunits,
                kunits == key.units(),
                i <= units@.len(),
                node_wf(*cursor),
                self.wf(),
                forall|l: int|
                    i as int <= l <= kunits.len() ==> #[trigger] self.lookup(kunits.take(l))
                        == cursor.lookup(kunits.skip(i as int).take(l - i)),
                forall|j: int|
                    0 <= j < r@.len() ==> {
                        &&& 1 <= (#[trigger] r@[j]).0 <= i as int
                        &&& r@[j].1@ == self.lookup(kunits.take(r@[j].0 as int))
                        &&& self.lookup(kunits.take(r@[j].0 as int)).len() > 0
                    },
                forall|j1: int, j2: int| 0 <= j1 < j2 < r@.len() ==> r@[j1].0 < r@[j2].0,
                forall|l: int|
                    1 <= l <= i as int && self.lookup(kunits.take(l)).len() > 0 ==> exists|j: int|
                        0 <= j < r@.len() && (#[trigger] r@[j]).0 == l,
            decreases units@.len() - i,
        {
            let ghost rest = kunits.skip(i as int);
            match cursor.search(units[i]) {
                Result::Ok(ix) => {
                    let next: &Node<K, V> = &cursor.children[ix].1;
                    proof {
                        assert forall|l: int|
                            i as int + 1 <= l <= kunits.len() implies #[trigger] self.lookup(
                            kunits.take(l),
                        ) == next.lookup(kunits.skip(i as int + 1).take(l - i - 1)) by {
                            let sub = kunits.take(l).skip(i as int);
                            assert(self.lookup(kunits.take(l)) == cursor.lookup(
                                kunits.skip(i as int).take(l - i),
                            ));
                            let s2 = kunits.skip(i as int).take(l - i);
                            assert(s2.len() > 0);
                            assert(s2[0] == kunits[i as int]);
                            assert(s2.drop_first() =~= kunits.skip(i as int + 1).take(l - i - 1));
                        }
                    }
                    cursor = next;
                    proof {
                        assert(self.lookup(kunits.take(i as int + 1)) == cursor.lookup(
                            kunits.skip(i as int + 1).take(0),
                        ));
                        assert(kunits.skip(i as int + 1).take(0).len() == 0);
                        assert(self.lookup(kunits.take(i as int + 1)) == cursor.data@);
                    }
                    if cursor.data.len() > 0 {
                        let cloned = clone_units(&cursor.data);
                        let ghost r0 = r@;
                        r.push((i + 1, cloned));
                        proof {
                            assert(r@ == r0.push(((i + 1) as usize, cloned)));
                            assert forall|l: int|
                                1 <= l <= i as int + 1 && self.lookup(kunits.take(l)).len()
                                    > 0 implies exists|j: int|
                                0 <= j < r@.len() && (#[trigger] r@[j]).0 == l by {
                                if l <= i as int {
                                    let j0 = choose|j: int|
                                        0 <= j < r0.len() && (#[trigger] r0[j]).0 == l;
                                    assert(r@[j0].0 == l);
                                } else {
                                    assert(r@[r@.len() - 1].0 == l);
                                }
                            }
                        }
                    }
                },
                Result::Err(_) => {
                    proof {
                        assert forall|l: int|
                            i as int + 1 <= l <= kunits.len() implies self.lookup(
                            kunits.take(l),
                        ).len() == 0 by {
                            let s2 = kunits.skip(i as int).take(l - i);
                            assert(s2.len() > 0);
                            assert(s2[0] == kunits[i as int]);
                            assert(cursor.lookup(s2) == Seq::<V>::empty());
                        }
                        assert forall|l: int|
                            1 <= l <= kunits.len() && self.lookup(kunits.take(l)).len()
                                > 0 implies exists|j: int|
                            0 <= j < r@.len() && (#[trigger] r@[j]).0 == l by {
                            assert(l <= i as int);
                        }
                        assert(kunits.len() == units@.len());
                    }
                    return r;
                },
            }
            i += 1;
        }
        r
    }
}

fn clone_units<V: Copy>(v: &Vec<V>) -> (r: Vec<V>)
    ensures
        r@ == v@,
{
    let mut r: Vec<V> = Vec::new();
    let mut i: usize = 0;
    while i < v.len()
        invariant
            i <= v@.len(),
            r@ == v@.take(i as int),
        decreases v@.len() - i,
    {
        let ghost r0 = r@;
        r.push(v[i]);
        proof {
            assert(r0.push(v@[i as int]) =~= v@.take(i as int + 1));
        }
        i += 1;
    }
    proof {
        assert(v@.take(v@.len() as int) =~= v@);
    }
    r
}


impl<K: AsUsize, V: Copy> crate::prefix_map::PrefixMap<K, V> for Trie<K, V> {
    open spec fn lookup(&self, key: Seq<K>) -> Seq<V> {
        Trie::lookup(self, key)
    }

    open spec fn wf(&self) -> bool {
        Trie::wf(self)
    }

    open spec fn spec_count(&self) -> int {
        Trie::spec_count(self)
    }

    open spec fn insert_ready(&self, key_len: int) -> bool {
        Trie::spec_count(self) + 1 <= 0x1000_0000
    }

    fn new() -> (r: Self) {
        Trie::new()
    }

    fn count(&self) -> (r: usize) {
        Trie::count(self)
    }

    fn get<'a, I: AsChars<K> + ?Sized>(&'a self, key: &I) -> (r: Option<&'a [V]>) {
        Trie::get(self, key)
    }

    fn insert<I: AsChars<K> + ?Sized>(&mut self, key: &I, value: V) {
        Trie::insert(self, key, value)
    }

    fn each_prefix<I: AsChars<K> + ?Sized>(&self, key: &I) -> (r: Vec<(usize, Vec<V>)>) {
        Trie::each_prefix(self, key)
    }
}

} // verus!
