use vstd::prelude::*;

use crate::as_chars::AsUsize;
use crate::double_array::DoubleArray;
use crate::search_cache::{cell_limit, NoCache};
use crate::trie2::{cost_of, find_child, kids_cost, kids_vals, node_vals, node_wf, Node, Trie};

verus! {

broadcast use vstd::std_specs::vec::axiom_vec_index_decreases;

proof fn lemma_measures_nonneg<K, V>(n: Node<K, V>, plen: int)
    requires
        plen >= 0,
    ensures
        node_vals(n) >= 0,
        cost_of(n, plen) >= 0,
    decreases n, 1int, 0int,
{
    lemma_kids_measures_nonneg(n.children, n.children@.len() as int, plen + 1);
}

proof fn lemma_kids_measures_nonneg<K, V>(v: Vec<(K, Node<K, V>)>, i: int, plen: int)
    requires
        plen >= 0,
    ensures
        kids_vals(v, i) >= 0,
        kids_cost(v, i, plen) >= 0,
    decreases v, 0int, i,
{
    if 0 < i <= v@.len() {
        lemma_kids_measures_nonneg(v, i - 1, plen);
        lemma_measures_nonneg(v[i - 1].1, plen);
    }
}

/// Feeds every entry of the subtree `node` into the double array under the
/// current `prefix`: the array afterwards associates `prefix + suffix` with
/// its old bucket extended by the subtree's bucket for `suffix`, and no
/// other key changes.
#[verifier::rlimit(100)]
#[verifier::spinoff_prover]
fn put_rec<K: AsUsize, V: Copy>(
    node: Node<K, V>,
    da: &mut DoubleArray<K, V, NoCache>,
    prefix: &mut Vec<K>,
)
    requires
        old(da).wf(),
        node_wf(node),
        old(da).spec_len() + cost_of(node, old(prefix)@.len() as int) * 0x110001 <= cell_limit(),
        old(da).spec_count() + node_vals(node) <= cell_limit(),
    ensures
        final(da).wf(),
        final(prefix)@ == old(prefix)@,
        final(da).spec_count() == old(da).spec_count() + node_vals(node),
        final(da).spec_len() <= old(da).spec_len() + cost_of(node, old(prefix)@.len() as int)
            * 0x110001,
        forall|suffix: Seq<K>| #[trigger]
            final(da).lookup(old(prefix)@ + suffix) == old(da).lookup(old(prefix)@ + suffix)
                + node.lookup(suffix),
        forall|k: Seq<K>|
            !old(prefix)@.is_prefix_of(k) ==> final(da).lookup(k) == old(da).lookup(k),
    decreases node,
{
    let ghost p0 = prefix@;
    let ghost base_count = da.spec_count();
    let ghost base_len = da.spec_len();
    let Node { data, mut children } = node;
    let ghost dvals = data@;
    let ghost full = children@.len() as int;
    let ghost kc = kids_cost(children, full, p0.len() as int + 1);
    let ghost kv = kids_vals(children, full);
    proof {
        lemma_kids_measures_nonneg(children, full, p0.len() as int + 1);
        assert(cost_of(node, p0.len() as int) == dvals.len() * p0.len() + kc);
        assert(node_vals(node) == dvals.len() + kv);
        assert(dvals.len() * p0.len() >= 0) by (nonlinear_arith);
    }
    let mut i: usize = 0;
    while i < data.len()
        invariant
            da.wf(),
            prefix@ == p0,
            dvals == data@,
            children == node.children,
            i <= dvals.len(),
            da.spec_count() == base_count + i,
            da.spec_count() + (dvals.len() - i) + kv <= cell_limit(),
            da.spec_len() + ((dvals.len() - i) * p0.len() + kc) * 0x110001 <= cell_limit(),
            da.spec_len() <= base_len + (i * p0.len()) * 0x110001,
            kv >= 0,
            kc >= 0,
            da.lookup(p0) == old(da).lookup(p0) + dvals.take(i as int),
            forall|k: Seq<K>| k != p0 ==> da.lookup(k) == old(da).lookup(k),
        decreases dvals.len() - i,
    {
        let ghost pre = da.lookup(p0);
        let ks = prefix.as_slice();
        proof {
            assert(<[K] as crate::as_chars::AsChars<K>>::units(ks) == p0);
            assert(((dvals.len() - i) * p0.len()) >= p0.len()) by (nonlinear_arith)
                requires
                    i < dvals.len(),
                    p0.len() >= 0,
            ;
            assert((((dvals.len() - i) * p0.len()) + kc) * 0x110001 >= p0.len() * 0x110001) by (
            nonlinear_arith)
                requires
                    ((dvals.len() - i) * p0.len()) >= p0.len(),
                    kc >= 0,
            ;
            assert(da.insert_ready(p0.len() as int));
        }
        let v = data[i];
        da.insert(ks, v);
        proof {
            assert(da.lookup(p0) == pre.push(v));
            assert(pre.push(v) =~= old(da).lookup(p0) + dvals.take(i as int + 1)) by {
                assert(dvals.take(i as int + 1) =~= dvals.take(i as int).push(v));
            }
            assert(((dvals.len() - (i + 1)) * p0.len() + p0.len()) == (dvals.len() - i)
                * p0.len()) by (nonlinear_arith);
            assert((((dvals.len() - (i + 1)) * p0.len()) + kc) * 0x110001 + p0.len() * 0x110001
                == (((dvals.len() - i) * p0.len()) + kc) * 0x110001) by (nonlinear_arith);
            assert(((i + 1) * p0.len()) * 0x110001 == (i * p0.len()) * 0x110001 + p0.len()
                * 0x110001) by (nonlinear_arith);
        }
        i += 1;
    }
    proof {
        assert(dvals.take(dvals.len() as int) =~= dvals);
    }
    let ghost corig = children;
    proof {
        assert(corig == node.children);
        assert(corig@ == node.children@);
        assert(kids_vals(corig, full) == kv);
        assert(kids_cost(corig, full, p0.len() as int + 1) == kc);
        assert(children@ =~= corig@.take(children@.len() as int));
        assert forall|suffix: Seq<K>| suffix.len() > 0 implies #[trigger] da.lookup(p0 + suffix)
            == old(da).lookup(p0 + suffix) by {
            assert((p0 + suffix).len() > p0.len());
            assert(p0 + suffix != p0);
        }
        assert((i * p0.len()) * 0x110001 <= (dvals.len() * p0.len()) * 0x110001) by (
        nonlinear_arith)
            requires
                i <= dvals.len(),
                p0.len() >= 0,
        ;
        assert((dvals.len() * p0.len() + kc) * 0x110001 == (dvals.len() * p0.len()) * 0x110001
            + kc * 0x110001) by (nonlinear_arith);
        assert forall|c: int| #[trigger] find_child(corig@, c) is Some implies 0 <= find_child(
            corig@,
            c,
        )->0 < corig@.len() by {
            crate::trie2::lemma_find_child_in_range(corig@, c, find_child(corig@, c)->0);
        }
    }
    while children.len() > 0
        invariant
            da.wf(),
            prefix@ == p0,
            corig == node.children,
            forall|j1: int, j2: int|
                0 <= j1 < j2 < corig@.len() ==> (#[trigger] corig@[j1]).0.as_int() < (
                #[trigger] corig@[j2]).0.as_int(),
            forall|j: int| 0 <= j < corig@.len() ==> node_wf((#[trigger] corig@[j]).1),
            children@ == corig@.take(children@.len() as int),
            children@.len() <= corig@.len(),
            full == corig@.len(),
            da.spec_count() == base_count + dvals.len() + (kids_vals(corig, full) - kids_vals(
                corig,
                children@.len() as int,
            )),
            da.spec_count() + kids_vals(corig, children@.len() as int) <= cell_limit(),
            da.spec_len() + kids_cost(corig, children@.len() as int, p0.len() as int + 1)
                * 0x110001 <= cell_limit(),
            da.spec_len() + kids_cost(corig, children@.len() as int, p0.len() as int + 1)
                * 0x110001 <= base_len + cost_of(node, p0.len() as int) * 0x110001,
            kids_vals(corig, full) == kv,
            cost_of(node, p0.len() as int) == dvals.len() * p0.len() + kc,
            kc == kids_cost(corig, full, p0.len() as int + 1),
            da.lookup(p0) == old(da).lookup(p0) + dvals,
            forall|suffix: Seq<K>|
                suffix.len() > 0 ==> #[trigger] da.lookup(p0 + suffix) == (match find_child(
                    corig@,
                    suffix[0].as_int(),
                ) {
                    Option::Some(j) => if j >= children@.len() {
                        old(da).lookup(p0 + suffix) + corig@[j].1.lookup(suffix.drop_first())
                    } else {
                        old(da).lookup(p0 + suffix)
                    },
                    Option::None => old(da).lookup(p0 + suffix),
                }),
            forall|k: Seq<K>| !p0.is_prefix_of(k) ==> da.lookup(k) == old(da).lookup(k),
        decreases children@.len(),
    {
        let ghost m = children@.len() as int;
        let popped = children.pop();
        let (u, child) = match popped {
            Option::Some(p) => p,
            Option::None => {
                proof {
                    assert(false);
                }
                vstd::pervasive::unreached()
            },
        };
        proof {
            assert((u, child) == corig@[m - 1]);
            assert(children@ =~= corig@.take(m - 1));
            assert(node_wf(child));
            assert(kids_cost(corig, m, p0.len() as int + 1) == kids_cost(
                corig,
                m - 1,
                p0.len() as int + 1,
            ) + cost_of(child, p0.len() as int + 1));
            assert(kids_vals(corig, m) == kids_vals(corig, m - 1) + node_vals(child));
            lemma_kids_measures_nonneg(corig, m - 1, p0.len() as int + 1);
            lemma_measures_nonneg(child, p0.len() as int + 1);
            assert((kids_cost(corig, m - 1, p0.len() as int + 1) + cost_of(
                child,
                p0.len() as int + 1,
            )) * 0x110001 == kids_cost(corig, m - 1, p0.len() as int + 1) * 0x110001 + cost_of(
                child,
                p0.len() as int + 1,
            ) * 0x110001) by (nonlinear_arith);
        }
        let ghost da_pre = *da;
        prefix.push(u);
        proof {
            assert(prefix@ =~= p0.push(u));
            assert(0 <= m - 1 < node.children@.len());
            assert(node.children@[m - 1].1 == child);
            assert(decreases_to!(node => node.children));
            assert(decreases_to!(node.children => node.children[m - 1]));
            assert(decreases_to!(node.children[m - 1] => node.children[m - 1].1));
            assert(node.children[m - 1].1 == child);
        }
        put_rec(child, da, prefix);
        prefix.pop();
        proof {
            assert(prefix@ =~= p0);
            let pu = p0.push(u);
            // lookups through this child's unit gained the child's entries;
            // everything else is as it was
            assert forall|suffix: Seq<K>| suffix.len() > 0 implies #[trigger] da.lookup(p0 + suffix)
                == (match find_child(corig@, suffix[0].as_int()) {
                Option::Some(j) => if j >= children@.len() {
                    old(da).lookup(p0 + suffix) + corig@[j].1.lookup(suffix.drop_first())
                } else {
                    old(da).lookup(p0 + suffix)
                },
                Option::None => old(da).lookup(p0 + suffix),
            }) by {
                let key = p0 + suffix;
                if suffix[0].as_int() == u.as_int() {
                    K::lemma_unit_injective(suffix[0], u);
                    assert(key =~= pu + suffix.drop_first());
                    assert(da.lookup(pu + suffix.drop_first()) == da_pre.lookup(
                        pu + suffix.drop_first(),
                    ) + child.lookup(suffix.drop_first()));
                    crate::trie2::lemma_find_child_some(corig@, u.as_int(), m - 1);
                    assert(find_child(corig@, suffix[0].as_int()) == Option::Some(m - 1));
                    assert(da_pre.lookup(key) == old(da).lookup(key)) by {
                        assert(m - 1 >= m - 1);
                    }
                } else {
                    assert(!pu.is_prefix_of(key)) by {
                        if pu.is_prefix_of(key) {
                            assert(key[p0.len() as int] == pu[p0.len() as int]);
                            assert(key[p0.len() as int] == suffix[0]);
                            assert(suffix[0] == u);
                        }
                    }
                    assert(da.lookup(key) == da_pre.lookup(key));
                    match find_child(corig@, suffix[0].as_int()) {
                        Option::Some(j) => {
                            crate::trie2::lemma_find_child_in_range(
                                corig@,
                                suffix[0].as_int(),
                                j,
                            );
                            assert(j != m - 1) by {
                                if j == m - 1 {
                                    assert(corig@[j].0 == u);
                                }
                            }
                            if j >= m - 1 {
                                assert(j >= m);
                            }
                        },
                        Option::None => {},
                    }
                }
            }
            assert forall|k: Seq<K>| !p0.is_prefix_of(k) implies da.lookup(k) == old(da).lookup(
                k,
            ) by {
                assert(!pu.is_prefix_of(k)) by {
                    if pu.is_prefix_of(k) {
                        assert forall|ii: int| 0 <= ii < p0.len() implies p0[ii] == k[ii] by {
                            assert(pu[ii] == k[ii]);
                        }
                    }
                }
                assert(da.lookup(k) == da_pre.lookup(k));
            }
            assert(da.lookup(p0) == old(da).lookup(p0) + dvals) by {
                assert(!pu.is_prefix_of(p0));
            }
        }
    }
    proof {
        assert(children@.len() == 0);
        assert(kids_vals(corig, 0) == 0);
        assert(kids_cost(corig, 0, p0.len() as int + 1) == 0);
        assert forall|suffix: Seq<K>| #[trigger] da.lookup(p0 + suffix) == old(da).lookup(
            p0 + suffix,
        ) + node.lookup(suffix) by {
            if suffix.len() == 0 {
                assert(p0 + suffix =~= p0);
                assert(node.lookup(suffix) == dvals);
            } else {
                assert(node.children@ == corig@);
                match find_child(corig@, suffix[0].as_int()) {
                    Option::Some(j) => {
                        assert(j >= 0);
                        assert(node.lookup(suffix) == corig@[j].1.lookup(suffix.drop_first()));
                    },
                    Option::None => {
                        assert(node.lookup(suffix) == Seq::<V>::empty());
                        assert(old(da).lookup(p0 + suffix) + Seq::<V>::empty() =~= old(da).lookup(
                            p0 + suffix,
                        ));
                    },
                }
            }
        }
    }
}

/// Compacts a fully built trie into a double array with identical
/// associations: every key's bucket, and the total entry count, carry over
/// exactly. The entries are replayed through the verified incremental
/// insertion path rather than placed sibling-block by sibling-block, so a
/// collision during the replay can still relocate a state.
pub fn transform<K: AsUsize, V: Copy>(trie: Trie<K, V>) -> (r: DoubleArray<K, V, NoCache>)
    requires
        trie.wf(),
        trie.spec_cost() * 0x110001 + 2 <= cell_limit(),
        trie.spec_count() <= cell_limit(),
    ensures
        r.wf(),
        forall|k: Seq<K>| #[trigger] r.lookup(k) == trie.lookup(k),
        r.spec_count() == trie.spec_count(),
{
    let ghost root_spec = trie.spec_root();
    let root = trie.into_root();
    let mut da: DoubleArray<K, V, NoCache> = DoubleArray::new();
    let mut prefix: Vec<K> = Vec::new();
    proof {
        lemma_measures_nonneg(root, 0);
    }
    put_rec(root, &mut da, &mut prefix);
    proof {
        assert forall|k: Seq<K>| #[trigger] da.lookup(k) == trie.lookup(k) by {
            assert(Seq::<K>::empty() + k =~= k);
            assert(da.lookup(Seq::<K>::empty() + k) == Seq::<V>::empty() + root.lookup(k));
            assert(Seq::<V>::empty() + root.lookup(k) =~= root.lookup(k));
        }
    }
    da
}

/// Tag selecting the trie-to-double-array compaction as the build strategy.
pub enum Trie2DoubleArray {
    Marker,
}

} // verus!
