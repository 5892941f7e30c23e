//! Breadth-first walk along the child links of the entries of a map.

use vstd::prelude::*;
use crate::keyed::{KeyMap, KeySet, KeyOps, key_views};
use crate::reach::{edge, reachable, strict_descendants, closed_under, edge_targets,
    lemma_reach_zero, lemma_reach_step, lemma_closed_holds_reachable, lemma_edge_targets_finite};

verus! {

/// An entry that links to child entries by key.
pub trait ChildLinks<K: KeyOps> {
    /// The keys of the children.
    spec fn links(&self) -> Set<K::V>;

    /// The set of children is well formed.
    spec fn links_ok(&self) -> bool;

    proof fn lemma_links_finite(&self)
        requires
            self.links_ok(),
        ensures
            self.links().finite();

    fn child_links(&self) -> (r: &KeySet<K>)
        requires
            self.links_ok(),
        ensures
            r.wf(),
            r@ == self.links();
}

/// Each key's children.
pub open spec fn link_graph<K: KeyOps, V: ChildLinks<K>>(m: Map<K::V, V>) -> Map<K::V, Set<K::V>> {
    Map::new(|k: K::V| m.contains_key(k), |k: K::V| m[k].links())
}

proof fn lemma_link_graph_finite<K: KeyOps, V: ChildLinks<K>>(m: &KeyMap<K, V>)
    requires
        m.wf(),
        forall|k: K::V| #[trigger] m@.contains_key(k) ==> m@[k].links_ok(),
    ensures
        edge_targets(link_graph::<K, V>(m@)).finite(),
{
    let g = link_graph::<K, V>(m@);
    m.lemma_view();
    assert(g.dom() =~= m@.dom());
    assert forall|y: K::V| #[trigger] g.contains_key(y) implies g[y].finite() by {
        m@[y].lemma_links_finite();
    }
    lemma_edge_targets_finite(g);
}

/// The keys reachable from `start` along child links, `start` first, each
/// once.
pub fn reach_order<K: KeyOps, V: ChildLinks<K>>(m: &KeyMap<K, V>, start: &K) -> (r: Vec<K>)
    requires
        m.wf(),
        forall|k: K::V| #[trigger] m@.contains_key(k) ==> m@[k].links_ok(),
    ensures
        key_views(r@).len() >= 1,
        key_views(r@)[0] == start@,
        key_views(r@).no_duplicates(),
        key_views(r@).to_set() == strict_descendants(link_graph::<K, V>(m@), start@).insert(start@),
{
    let ghost g = link_graph::<K, V>(m@);
    let ghost h = start@;
    let ghost bound = edge_targets(g).insert(h);
    proof {
        lemma_link_graph_finite(m);
        lemma_reach_zero(g, h);
    }
    let mut order: Vec<K> = Vec::new();
    order.push(start.key_clone());
    let mut visited: KeySet<K> = KeySet::new();
    visited.insert(start.key_clone());
    proof {
        assert(key_views(order@) =~= seq![h]);
        assert(key_views(order@).to_set() =~= visited@) by {
            assert(key_views(order@)[0] == h);
        }
    }
    let mut i: usize = 0;
    while i < order.len()
        invariant
            m.wf(),
            forall|k: K::V| #[trigger] m@.contains_key(k) ==> m@[k].links_ok(),
            g == link_graph::<K, V>(m@),
            h == start@,
            bound == edge_targets(g).insert(h),
            bound.finite(),
            visited.wf(),
            key_views(order@).len() >= 1,
            key_views(order@)[0] == h,
            key_views(order@).no_duplicates(),
            key_views(order@).to_set() == visited@,
            visited@.subset_of(bound),
            forall|x: K::V| #[trigger] visited@.contains(x) ==> reachable(g, h, x),
            i <= order@.len(),
            forall|j: int, z: K::V| 0 <= j < i && #[trigger] edge(g, key_views(order@)[j], z) ==> visited@.contains(z),
        decreases bound.len() - i,
    {
        let cur = order[i].key_clone();
        let ghost cv = cur@;
        proof {
            assert(cv == key_views(order@)[i as int]);
            assert(visited@.contains(cv));
        }
        match m.get(&cur) {
            Some(node) => {
                let links = node.child_links();
                proof {
                    links.lemma_view();
                }
                let n = links.len();
                let mut k: usize = 0;
                while k < n
                    invariant
                        m.wf(),
                        forall|k: K::V| #[trigger] m@.contains_key(k) ==> m@[k].links_ok(),
                        g == link_graph::<K, V>(m@),
                        h == start@,
                        bound == edge_targets(g).insert(h),
                        bound.finite(),
                        m@.contains_key(cv),
                        links@ == m@[cv].links(),
                        links.wf(),
                        n == links.elem_seq().len(),
                        links.elem_seq().to_set() == links@,
                        visited.wf(),
                        key_views(order@).len() >= 1,
                        key_views(order@)[0] == h,
                        key_views(order@).no_duplicates(),
                        key_views(order@).to_set() == visited@,
                        visited@.subset_of(bound),
                        visited@.contains(cv),
                        forall|x: K::V| #[trigger] visited@.contains(x) ==> reachable(g, h, x),
                        i < order@.len(),
                        key_views(order@)[i as int] == cv,
                        k <= n,
                        forall|j: int, z: K::V| 0 <= j < i && #[trigger] edge(g, key_views(order@)[j], z) ==> visited@.contains(z),
                        forall|j: int| 0 <= j < k ==> visited@.contains(#[trigger] links.elem_seq()[j]),
                    decreases n - k,
                {
                    let c = links.elem_at(k);
                    let ghost chv = c@;
                    proof {
                        assert(links@.contains(chv));
                        assert(edge(g, cv, chv));
                    }
                    if !visited.contains(c) {
                        let ghost prev_order = key_views(order@);
                        visited.insert(c.key_clone());
                        order.push(c.key_clone());
                        proof {
                            assert(key_views(order@) =~= prev_order.push(chv));
                            assert(!prev_order.contains(chv));
                            assert(key_views(order@).no_duplicates()) by {
                                assert forall|a: int, b: int| 0 <= a < key_views(order@).len() && 0 <= b < key_views(order@).len() && a != b
                                    implies key_views(order@)[a] != key_views(order@)[b] by {
                                    if a == prev_order.len() {
                                        assert(prev_order.contains(prev_order[b]));
                                    } else if b == prev_order.len() {
                                        assert(prev_order.contains(prev_order[a]));
                                    }
                                }
                            }
                            prev_order.lemma_push_to_set_commute(chv);
                            lemma_reach_step(g, h, cv, chv);
                            assert(edge_targets(g).contains(chv));
                            assert forall|j: int, z: K::V| 0 <= j < i && #[trigger] edge(g, key_views(order@)[j], z) implies visited@.contains(z) by {
                                assert(key_views(order@)[j] == prev_order[j]);
                            }
                        }
                    }
                    k = k + 1;
                }
                proof {
                    assert forall|z: K::V| #[trigger] edge(g, cv, z) implies visited@.contains(z) by {
                        assert(links@.contains(z));
                        assert(links.elem_seq().contains(z));
                        let j = links.elem_seq().index_of(z);
                        assert(links.elem_seq()[j] == z);
                    }
                }
            },
            None => {
                proof {
                    assert forall|z: K::V| !#[trigger] edge(g, cv, z) by {}
                }
            },
        }
        proof {
            assert forall|j: int, z: K::V| 0 <= j < i + 1 && #[trigger] edge(g, key_views(order@)[j], z) implies visited@.contains(z) by {
                if j == i {
                    assert(key_views(order@)[j] == cv);
                }
            }
            key_views(order@).unique_seq_to_set();
            vstd::set_lib::lemma_len_subset(visited@, bound);
        }
        i = i + 1;
    }
    proof {
        let ov = key_views(order@);
        assert(closed_under(g, visited@)) by {
            assert forall|y: K::V, z: K::V| visited@.contains(y) && #[trigger] edge(g, y, z) implies visited@.contains(z) by {
                assert(ov.to_set().contains(y));
                let j = ov.index_of(y);
                assert(ov[j] == y);
            }
        }
        assert forall|x: K::V| ov.to_set().contains(x) <==> strict_descendants(g, h).insert(h).contains(x) by {
            if strict_descendants(g, h).contains(x) {
                lemma_closed_holds_reachable(g, visited@, h, x);
            }
            if x == h {
                assert(ov[0] == h);
                assert(ov.contains(h));
            }
        }
        assert(ov.to_set() =~= strict_descendants(g, h).insert(h));
    }
    order
}

} // verus!
