//! Dependency tracking between mempool transactions: which transactions a
//! transaction spends from (its parents), how deep it sits in the chain of
//! unconfirmed parents, and what must execute before it.

use vstd::prelude::*;
use dashmap::DashMap;
use std::collections::HashMap;
use crate::keyed::{KeyMap, KeySet, KeyOps, key_views, key_set_of, push_to_list, list_at, copy_list, list_contains};
use crate::conflict::OutPoint;
use crate::external::bincode_encode_hash;
use crate::storage_error::StorageError;
use crate::transaction::{Transaction, TxInputView, hash_key_spec};
use crate::reach::{edge, reachable, step_ok, walk_from_to, is_walk, edge_targets, closed_under,
    lemma_reach_zero, lemma_reach_step, lemma_closed_holds_reachable, lemma_edge_targets_finite};

verus! {

broadcast use vstd::std_specs::hash::group_hash_axioms;

/// Hash of a transaction, as the dependency maps key it.
pub type TxHash = Vec<u8>;

/// What a map from transaction hash to a list of transaction hashes holds.
pub uninterp spec fn link_entries(m: DashMap<Vec<u8>, Vec<Vec<u8>>>) -> Map<Seq<u8>, Seq<Seq<u8>>>;

/// What a map from transaction hash to execution depth holds.
pub uninterp spec fn depth_entries(m: DashMap<Vec<u8>, u32>) -> Map<Seq<u8>, u32>;

/// No links.
pub open spec fn no_links() -> Map<Seq<u8>, Seq<Seq<u8>>> {
    Map::empty()
}

/// No depths.
pub open spec fn no_depths() -> Map<Seq<u8>, u32> {
    Map::empty()
}

/// Calls `DashMap::new`: an empty map.
#[verifier::external_body]
fn links_new() -> (m: DashMap<Vec<u8>, Vec<Vec<u8>>>)
    ensures
        link_entries(m) == no_links(),
{
    DashMap::new()
}

/// Calls `DashMap::get` and clones the list found, if any.
#[verifier::external_body]
fn links_get(m: &DashMap<Vec<u8>, Vec<Vec<u8>>>, k: &[u8]) -> (r: Option<Vec<Vec<u8>>>)
    ensures
        match r {
            Some(v) => link_entries(*m).contains_key(k@) && key_views(v@) == link_entries(*m)[k@],
            None => !link_entries(*m).contains_key(k@),
        },
{
    m.get(k).map(|e| e.value().clone())
}

/// Calls `DashMap::insert`: the key now maps to the list, other keys are
/// unchanged; a map holds finitely many keys.
#[verifier::external_body]
fn links_insert(m: &mut DashMap<Vec<u8>, Vec<Vec<u8>>>, k: Vec<u8>, v: Vec<Vec<u8>>)
    ensures
        link_entries(*final(m)) == link_entries(*old(m)).insert(k@, key_views(v@)),
        link_entries(*old(m)).dom().finite() ==> link_entries(*final(m)).dom().finite(),
{
    m.insert(k, v);
}

/// Calls `DashMap::remove`: the key no longer maps to anything.
#[verifier::external_body]
fn links_remove(m: &mut DashMap<Vec<u8>, Vec<Vec<u8>>>, k: &[u8])
    ensures
        link_entries(*final(m)) == link_entries(*old(m)).remove(k@),
{
    m.remove(k);
}

/// Calls `DashMap::clear`: the map is empty.
#[verifier::external_body]
fn links_clear(m: &mut DashMap<Vec<u8>, Vec<Vec<u8>>>)
    ensures
        link_entries(*final(m)) == no_links(),
{
    m.clear();
}

/// Calls `DashMap::new`: an empty map.
#[verifier::external_body]
fn depths_new() -> (m: DashMap<Vec<u8>, u32>)
    ensures
        depth_entries(m) == no_depths(),
{
    DashMap::new()
}

/// Calls `DashMap::get` and copies the depth found, if any.
#[verifier::external_body]
fn depths_get(m: &DashMap<Vec<u8>, u32>, k: &[u8]) -> (r: Option<u32>)
    ensures
        match r {
            Some(d) => depth_entries(*m).contains_key(k@) && d == depth_entries(*m)[k@],
            None => !depth_entries(*m).contains_key(k@),
        },
{
    m.get(k).map(|e| *e.value())
}

/// Calls `DashMap::insert`: the key now maps to the depth.
#[verifier::external_body]
fn depths_insert(m: &mut DashMap<Vec<u8>, u32>, k: Vec<u8>, d: u32)
    ensures
        depth_entries(*final(m)) == depth_entries(*old(m)).insert(k@, d),
{
    m.insert(k, d);
}

/// Calls `DashMap::remove` and hands out the depth removed, if any.
#[verifier::external_body]
fn depths_remove(m: &mut DashMap<Vec<u8>, u32>, k: &[u8]) -> (r: Option<u32>)
    ensures
        depth_entries(*final(m)) == depth_entries(*old(m)).remove(k@),
        match r {
            Some(d) => depth_entries(*old(m)).contains_key(k@) && d == depth_entries(*old(m))[k@],
            None => !depth_entries(*old(m)).contains_key(k@),
        },
{
    m.remove(k).map(|(_, d)| d)
}

/// Calls `DashMap::clear`: the map is empty.
#[verifier::external_body]
fn depths_clear(m: &mut DashMap<Vec<u8>, u32>)
    ensures
        depth_entries(*final(m)) == no_depths(),
{
    m.clear();
}

/// The links of a map as a graph: each key to the set of its list.
pub open spec fn graph_of(m: Map<Seq<u8>, Seq<Seq<u8>>>) -> Map<Seq<u8>, Set<Seq<u8>>> {
    Map::new(|k: Seq<u8>| m.contains_key(k), |k: Seq<u8>| m[k].to_set())
}

/// What `a` reaches in one or more steps.
pub open spec fn reach_plus(g: Map<Seq<u8>, Set<Seq<u8>>>, a: Seq<u8>) -> Set<Seq<u8>> {
    Set::new(|x: Seq<u8>| exists|y: Seq<u8>| #[trigger] edge(g, a, y) && reachable(g, y, x))
}

pub proof fn lemma_graph_finite(m: Map<Seq<u8>, Seq<Seq<u8>>>)
    requires
        m.dom().finite(),
    ensures
        edge_targets(graph_of(m)).finite(),
{
    let g = graph_of(m);
    assert(g.dom() =~= m.dom());
    assert forall|y: Seq<u8>| #[trigger] g.contains_key(y) implies g[y].finite() by {
        vstd::seq_lib::seq_to_set_is_finite(m[y]);
    }
    lemma_edge_targets_finite(g);
}

/// The transactions reached from `start` along the lists of `m`, in one or
/// more steps, each once, in breadth-first order.
fn reach_plus_list(m: &DashMap<Vec<u8>, Vec<Vec<u8>>>, start: &[u8]) -> (r: Vec<Vec<u8>>)
    requires
        link_entries(*m).dom().finite(),
    ensures
        key_views(r@).no_duplicates(),
        key_views(r@).to_set() == reach_plus(graph_of(link_entries(*m)), start@),
{
    let ghost g = graph_of(link_entries(*m));
    let ghost h = start@;
    let ghost bound = edge_targets(g);
    proof {
        lemma_graph_finite(link_entries(*m));
    }
    let mut found: Vec<Vec<u8>> = Vec::new();
    let mut seen: KeySet<Vec<u8>> = KeySet::new();
    let mut queue: Vec<Vec<u8>> = Vec::new();
    queue.push(crate::bytes::copy_bytes(start));
    proof {
        assert(key_views(queue@) =~= seq![h] + key_views(found@));
        assert(key_views(found@).to_set() =~= seen@);
    }
    let mut i: usize = 0;
    while i < queue.len()
        invariant
            g == graph_of(link_entries(*m)),
            h == start@,
            bound == edge_targets(g),
            bound.finite(),
            seen.wf(),
            key_views(queue@) == seq![h] + key_views(found@),
            key_views(found@).no_duplicates(),
            key_views(found@).to_set() == seen@,
            seen@.subset_of(bound),
            seen@.len() <= bound.len(),
            forall|x: Seq<u8>| #[trigger] seen@.contains(x) ==> reach_plus(g, h).contains(x),
            i <= queue@.len(),
            forall|j: int, z: Seq<u8>| 0 <= j < i && #[trigger] edge(g, key_views(queue@)[j], z) ==> seen@.contains(z),
        decreases bound.len() + 1 - i,
    {
        let cur = crate::bytes::copy_bytes(queue[i].as_slice());
        let ghost cv = cur@;
        proof {
            assert(cv == key_views(queue@)[i as int]);
            assert(cv == h || seen@.contains(cv)) by {
                if i > 0 {
                    assert(key_views(queue@).len() == queue@.len());
                    assert(key_views(found@).len() == found@.len());
                    assert((seq![h] + key_views(found@))[i as int] == key_views(found@)[i - 1]);
                    assert(key_views(queue@)[i as int] == key_views(found@)[i - 1]);
                    assert(key_views(found@).to_set().contains(key_views(found@)[i - 1]));
                }
            }
        }
        match links_get(m, cur.as_slice()) {
            Some(list) => {
                let n = list.len();
                let mut k: usize = 0;
                while k < n
                    invariant
                        g == graph_of(link_entries(*m)),
                        h == start@,
                        bound == edge_targets(g),
                        bound.finite(),
                        link_entries(*m).contains_key(cv),
                        key_views(list@) == link_entries(*m)[cv],
                        n == list@.len(),
                        cv == h || seen@.contains(cv),
                        seen.wf(),
                        key_views(queue@) == seq![h] + key_views(found@),
                        key_views(found@).no_duplicates(),
                        key_views(found@).to_set() == seen@,
                        seen@.subset_of(bound),
                        forall|x: Seq<u8>| #[trigger] seen@.contains(x) ==> reach_plus(g, h).contains(x),
                        i < queue@.len(),
                        key_views(queue@)[i as int] == cv,
                        k <= n,
                        forall|j: int, z: Seq<u8>| 0 <= j < i && #[trigger] edge(g, key_views(queue@)[j], z) ==> seen@.contains(z),
                        forall|j: int| 0 <= j < k ==> seen@.contains(#[trigger] key_views(list@)[j]),
                    decreases n - k,
                {
                    let c = &list[k];
                    let ghost chv = c@;
                    proof {
                        assert(key_views(list@)[k as int] == chv);
                        assert(link_entries(*m)[cv].contains(chv));
                        assert(edge(g, cv, chv));
                    }
                    if !seen.contains(c) {
                        let ghost prev_found = key_views(found@);
                        let ghost prev_queue = key_views(queue@);
                        seen.insert(crate::bytes::copy_bytes(c.as_slice()));
                        found.push(crate::bytes::copy_bytes(c.as_slice()));
                        queue.push(crate::bytes::copy_bytes(c.as_slice()));
                        proof {
                            assert(key_views(found@) =~= prev_found.push(chv));
                            assert(key_views(queue@) =~= prev_queue.push(chv));
                            assert(key_views(queue@) =~= seq![h] + key_views(found@));
                            assert(!prev_found.contains(chv));
                            assert(key_views(found@).no_duplicates()) by {
                                assert forall|a: int, b: int| 0 <= a < key_views(found@).len() && 0 <= b < key_views(found@).len() && a != b
                                    implies key_views(found@)[a] != key_views(found@)[b] by {
                                    if a == prev_found.len() {
                                        assert(prev_found.contains(prev_found[b]));
                                    } else if b == prev_found.len() {
                                        assert(prev_found.contains(prev_found[a]));
                                    }
                                }
                            }
                            prev_found.lemma_push_to_set_commute(chv);
                            assert(edge_targets(g).contains(chv));
                            assert(reach_plus(g, h).contains(chv)) by {
                                if cv == h {
                                    lemma_reach_zero(g, chv);
                                    assert(edge(g, h, chv) && reachable(g, chv, chv));
                                } else {
                                    let y = choose|y: Seq<u8>| #[trigger] edge(g, h, y) && reachable(g, y, cv);
                                    lemma_reach_step(g, y, cv, chv);
                                    assert(edge(g, h, y) && reachable(g, y, chv));
                                }
                            }
                            assert forall|j: int, z: Seq<u8>| 0 <= j < i && #[trigger] edge(g, key_views(queue@)[j], z) implies seen@.contains(z) by {
                                assert(key_views(queue@)[j] == prev_queue[j]);
                            }
                        }
                    }
                    k = k + 1;
                }
                proof {
                    assert forall|z: Seq<u8>| #[trigger] edge(g, cv, z) implies seen@.contains(z) by {
                        assert(link_entries(*m)[cv].contains(z));
                        let j = link_entries(*m)[cv].index_of(z);
                        assert(key_views(list@)[j] == z);
                    }
                }
            },
            None => {
                proof {
                    assert forall|z: Seq<u8>| !#[trigger] edge(g, cv, z) by {}
                }
            },
        }
        proof {
            assert forall|j: int, z: Seq<u8>| 0 <= j < i + 1 && #[trigger] edge(g, key_views(queue@)[j], z) implies seen@.contains(z) by {
                if j == i {
                    assert(key_views(queue@)[j] == cv);
                }
            }
            key_views(found@).unique_seq_to_set();
            vstd::set_lib::lemma_len_subset(seen@, bound);
            assert(key_views(queue@).len() == queue@.len());
            assert(key_views(found@).len() == found@.len());
            assert(queue@.len() == 1 + found@.len());
            assert(found@.len() == seen@.len());
        }
        i = i + 1;
    }
    proof {
        let qv = key_views(queue@);
        let fv = key_views(found@);
        assert(closed_under(g, seen@)) by {
            assert forall|y: Seq<u8>, z: Seq<u8>| seen@.contains(y) && #[trigger] edge(g, y, z) implies seen@.contains(z) by {
                assert(fv.to_set().contains(y));
                let j = fv.index_of(y);
                assert(qv[j + 1] == y);
            }
        }
        assert forall|x: Seq<u8>| reach_plus(g, h).contains(x) implies seen@.contains(x) by {
            let y = choose|y: Seq<u8>| #[trigger] edge(g, h, y) && reachable(g, y, x);
            assert(qv[0] == h);
            assert(seen@.contains(y));
            lemma_closed_holds_reachable(g, seen@, y, x);
        }
        assert(fv.to_set() =~= reach_plus(g, h));
    }
    found
}


/// The parents of `a` that lie in `s`.
pub open spec fn parents_in(pm: Map<Seq<u8>, Seq<Seq<u8>>>, a: Seq<u8>, s: Set<Seq<u8>>) -> Set<Seq<u8>> {
    if pm.contains_key(a) { pm[a].to_set().intersect(s) } else { Set::empty() }
}

/// `r` lists distinct members of `s`, each after all of its parents in `s`.
pub open spec fn parents_first(pm: Map<Seq<u8>, Seq<Seq<u8>>>, s: Set<Seq<u8>>, r: Seq<Seq<u8>>) -> bool {
    &&& r.no_duplicates()
    &&& forall|i: int| 0 <= i < r.len() ==> s.contains(#[trigger] r[i])
        && parents_in(pm, r[i], s).subset_of(r.take(i).to_set())
}

/// No transaction reaches itself along the links.
pub open spec fn acyclic(g: Map<Seq<u8>, Set<Seq<u8>>>) -> bool {
    forall|x: Seq<u8>| !#[trigger] reach_plus(g, x).contains(x)
}

/// Every list of the map holds each hash once.
pub open spec fn lists_distinct(pm: Map<Seq<u8>, Seq<Seq<u8>>>) -> bool {
    forall|k: Seq<u8>| #[trigger] pm.contains_key(k) ==> pm[k].no_duplicates()
}

/// A walk of `n` steps backwards from `x` through `s`, each step to a
/// parent in `s`.
spec fn back_walk(pm: Map<Seq<u8>, Seq<Seq<u8>>>, s: Set<Seq<u8>>, x: Seq<u8>, n: nat) -> Seq<Seq<u8>>
    decreases n,
{
    if n == 0 {
        seq![x]
    } else {
        let y = choose|y: Seq<u8>| parents_in(pm, x, s).contains(y);
        seq![x] + back_walk(pm, s, y, (n - 1) as nat)
    }
}

proof fn lemma_back_walk(pm: Map<Seq<u8>, Seq<Seq<u8>>>, s: Set<Seq<u8>>, x: Seq<u8>, n: nat)
    requires
        s.contains(x),
        forall|y: Seq<u8>| #[trigger] s.contains(y) ==> exists|z: Seq<u8>| parents_in(pm, y, s).contains(z),
    ensures
        back_walk(pm, s, x, n).len() == n + 1,
        back_walk(pm, s, x, n)[0] == x,
        forall|i: int| 0 <= i <= n ==> s.contains(#[trigger] back_walk(pm, s, x, n)[i]),
        forall|i: int| 0 <= i < n ==> #[trigger] edge(graph_of(pm), back_walk(pm, s, x, n)[i], back_walk(pm, s, x, n)[i + 1]),
    decreases n,
{
    if n > 0 {
        let y = choose|y: Seq<u8>| parents_in(pm, x, s).contains(y);
        assert(parents_in(pm, x, s).contains(y));
        lemma_back_walk(pm, s, y, (n - 1) as nat);
        let w = back_walk(pm, s, x, n);
        let t = back_walk(pm, s, y, (n - 1) as nat);
        assert(w == seq![x] + t);
        assert forall|i: int| 0 <= i <= n implies s.contains(#[trigger] w[i]) by {
            if i > 0 {
                assert(w[i] == t[i - 1]);
            }
        }
        assert forall|i: int| 0 <= i < n implies #[trigger] edge(graph_of(pm), w[i], w[i + 1]) by {
            if i == 0 {
                assert(pm.contains_key(x));
                assert(pm[x].to_set().contains(y));
            } else {
                let k = i - 1;
                assert(edge(graph_of(pm), t[k], t[k + 1]));
                assert(w[i] == t[k] && w[i + 1] == t[k + 1]);
            }
        }
    }
}

/// A walk from `w[i]` to `w[j]` along consecutive steps of `w`.
proof fn lemma_subwalk(g: Map<Seq<u8>, Set<Seq<u8>>>, w: Seq<Seq<u8>>, i: int, j: int)
    requires
        0 <= i <= j < w.len(),
        forall|k: int| 0 <= k < w.len() - 1 ==> #[trigger] edge(g, w[k], w[k + 1]),
    ensures
        reachable(g, w[i], w[j]),
    decreases j - i,
{
    if i == j {
        lemma_reach_zero(g, w[i]);
    } else {
        lemma_subwalk(g, w, i, j - 1);
        let k = j - 1;
        assert(edge(g, w[k], w[k + 1]));
        lemma_reach_step(g, w[i], w[k], w[j]);
    }
}

/// In a finite set where every member has a parent in the set, some member
/// reaches itself.
proof fn lemma_parent_in_set_cycle(pm: Map<Seq<u8>, Seq<Seq<u8>>>, s: Set<Seq<u8>>, x: Seq<u8>)
    requires
        s.finite(),
        s.contains(x),
        forall|y: Seq<u8>| #[trigger] s.contains(y) ==> exists|z: Seq<u8>| parents_in(pm, y, s).contains(z),
    ensures
        !acyclic(graph_of(pm)),
{
    let g = graph_of(pm);
    let n = s.len();
    lemma_back_walk(pm, s, x, n);
    let w = back_walk(pm, s, x, n);
    if w.no_duplicates() {
        w.unique_seq_to_set();
        assert(w.to_set().subset_of(s)) by {
            assert forall|v: Seq<u8>| w.to_set().contains(v) implies s.contains(v) by {
                let i = w.index_of(v);
                assert(s.contains(w[i]));
            }
        }
        vstd::set_lib::lemma_len_subset(w.to_set(), s);
        assert(false);
    }
    let (i, j) = choose|i: int, j: int| 0 <= i < w.len() && 0 <= j < w.len() && i != j && w[i] == w[j];
    let (a, b) = if i < j { (i, j) } else { (j, i) };
    assert(edge(g, w[a], w[a + 1]));
    lemma_subwalk(g, w, a + 1, b);
    assert(edge(g, w[a], w[a + 1]) && reachable(g, w[a + 1], w[a]));
    assert(reach_plus(g, w[a]).contains(w[a]));
}

proof fn lemma_intersect_insert(a: Set<Seq<u8>>, s: Set<Seq<u8>>, x: Seq<u8>)
    requires
        a.finite(),
        !a.contains(x),
    ensures
        s.contains(x) ==> a.insert(x).intersect(s).len() == a.intersect(s).len() + 1,
        !s.contains(x) ==> a.insert(x).intersect(s) == a.intersect(s),
{
    if s.contains(x) {
        assert(a.insert(x).intersect(s) =~= a.intersect(s).insert(x));
    } else {
        assert(a.insert(x).intersect(s) =~= a.intersect(s));
    }
}


/// The members of `done` that have `p` as a parent in `s`.
spec fn kids_in(pm: Map<Seq<u8>, Seq<Seq<u8>>>, s: Set<Seq<u8>>, done: Set<Seq<u8>>, p: Seq<u8>) -> Set<Seq<u8>> {
    Set::new(|c: Seq<u8>| done.contains(c) && parents_in(pm, c, s).contains(p))
}

/// The members of `s` whose parents in `s` are all in `r`.
spec fn ready(pm: Map<Seq<u8>, Seq<Seq<u8>>>, s: Set<Seq<u8>>, r: Set<Seq<u8>>) -> Set<Seq<u8>> {
    Set::new(|a: Seq<u8>| s.contains(a) && parents_in(pm, a, s).subset_of(r))
}

proof fn lemma_parents_in_finite(pm: Map<Seq<u8>, Seq<Seq<u8>>>, a: Seq<u8>, s: Set<Seq<u8>>)
    requires
        s.finite(),
    ensures
        parents_in(pm, a, s).finite(),
        parents_in(pm, a, s).subset_of(s),
{
    vstd::set_lib::lemma_len_subset(parents_in(pm, a, s), s);
}

proof fn lemma_push_distinct(p: Seq<Seq<u8>>, x: Seq<u8>)
    requires
        p.no_duplicates(),
        !p.contains(x),
    ensures
        p.push(x).no_duplicates(),
        p.push(x).to_set() == p.to_set().insert(x),
{
    assert forall|i: int, j: int| 0 <= i < p.push(x).len() && 0 <= j < p.push(x).len() && i != j
        implies p.push(x)[i] != p.push(x)[j] by {
        if i == p.len() {
            assert(p[j] == p.push(x)[j]);
        } else if j == p.len() {
            assert(p[i] == p.push(x)[i]);
        }
    }
    p.lemma_push_to_set_commute(x);
}

/// Orders `anc` so that each transaction comes after its parents among
/// `anc`, by Kahn's algorithm over the parent lists of `pmap`; transactions
/// on or after a cycle are left out.
fn parents_first_order(pmap: &DashMap<Vec<u8>, Vec<Vec<u8>>>, anc: &Vec<Vec<u8>>) -> (r: Vec<Vec<u8>>)
    requires
        key_views(anc@).no_duplicates(),
        lists_distinct(link_entries(*pmap)),
    ensures
        parents_first(link_entries(*pmap), key_views(anc@).to_set(), key_views(r@)),
        acyclic(graph_of(link_entries(*pmap))) ==> key_views(r@).to_set() == key_views(anc@).to_set(),
{
    let ghost pm = link_entries(*pmap);
    let ghost av = key_views(anc@);
    let ghost aset = av.to_set();
    let anc_set = key_set_of(anc);
    let mut deg: KeyMap<Vec<u8>, usize> = KeyMap::new();
    let mut edges: KeyMap<Vec<u8>, Vec<Vec<u8>>> = KeyMap::new();
    let mut i: usize = 0;
    proof {
        assert(av.take(0).to_set() =~= Set::<Seq<u8>>::empty());
        vstd::seq_lib::seq_to_set_is_finite(av);
    }
    while i < anc.len()
        invariant
            av == key_views(anc@),
            av.no_duplicates(),
            i <= av.len(),
            deg.wf(),
            edges.wf(),
            deg@.dom() == av.take(i as int).to_set(),
            edges@.dom() == av.take(i as int).to_set(),
            forall|a: Seq<u8>| #[trigger] deg@.contains_key(a) ==> deg@[a] == 0,
            forall|a: Seq<u8>| #[trigger] edges@.contains_key(a) ==> key_views(edges@[a]@) == Seq::<Seq<u8>>::empty(),
        decreases av.len() - i,
    {
        proof {
            assert(av.take(i + 1) =~= av.take(i as int).push(av[i as int]));
            av.take(i as int).lemma_push_to_set_commute(av[i as int]);
        }
        deg.insert(anc[i].key_clone(), 0);
        let empty: Vec<Vec<u8>> = Vec::new();
        proof {
            assert(key_views(empty@) =~= Seq::<Seq<u8>>::empty());
        }
        edges.insert(anc[i].key_clone(), empty);
        i = i + 1;
    }
    proof {
        assert(av.take(av.len() as int) =~= av);
    }
    i = 0;
    proof {
        assert forall|p: Seq<u8>| aset.contains(p) implies
            #[trigger] key_views(edges@[p]@).to_set() == kids_in(pm, aset, av.take(0).to_set(), p) by {
            assert(key_views(edges@[p]@).to_set() =~= kids_in(pm, aset, av.take(0).to_set(), p));
        }
    }
    while i < anc.len()
        invariant
            pm == link_entries(*pmap),
            lists_distinct(pm),
            av == key_views(anc@),
            aset == av.to_set(),
            aset.finite(),
            anc_set.wf(),
            anc_set@ == aset,
            av.no_duplicates(),
            i <= av.len(),
            deg.wf(),
            edges.wf(),
            deg@.dom() == aset,
            edges@.dom() == aset,
            forall|a: Seq<u8>| #[trigger] deg@.contains_key(a) ==> deg@[a]
                == (if av.take(i as int).to_set().contains(a) { parents_in(pm, a, aset).len() } else { 0 }),
            forall|p: Seq<u8>| #[trigger] edges@.contains_key(p) ==> key_views(edges@[p]@).no_duplicates()
                && key_views(edges@[p]@).to_set() == kids_in(pm, aset, av.take(i as int).to_set(), p),
        decreases av.len() - i,
    {
        let a = anc[i].key_clone();
        let ghost done = av.take(i as int).to_set();
        proof {
            assert(av.take(i + 1) =~= av.take(i as int).push(av[i as int]));
            av.take(i as int).lemma_push_to_set_commute(av[i as int]);
            assert(!done.contains(a@)) by {
                if done.contains(a@) {
                    let j = av.take(i as int).index_of(a@);
                    assert(av[j] == av[i as int]);
                }
            }
        }
        let mut cnt: usize = 0;
        match links_get(pmap, a.as_slice()) {
            Some(ps) => {
                let ghost pv = key_views(ps@);
                let mut k: usize = 0;
                proof {
                    assert(pv.take(0).to_set() =~= Set::<Seq<u8>>::empty());
                    assert(pv.take(0).to_set().intersect(aset) =~= Set::<Seq<u8>>::empty());
                    assert(pm[a@].no_duplicates());
                }
                while k < ps.len()
                    invariant
                        pm == link_entries(*pmap),
                        pm.contains_key(a@),
                        pv == pm[a@],
                        pv == key_views(ps@),
                        pv.no_duplicates(),
                        aset.finite(),
                        anc_set.wf(),
                        anc_set@ == aset,
                        aset.contains(a@),
                        !done.contains(a@),
                        k <= pv.len(),
                        cnt <= k,
                        cnt == pv.take(k as int).to_set().intersect(aset).len(),
                        edges.wf(),
                        edges@.dom() == aset,
                        forall|p: Seq<u8>| #[trigger] edges@.contains_key(p) ==> key_views(edges@[p]@).no_duplicates()
                            && key_views(edges@[p]@).to_set() == (if pv.take(k as int).contains(p) {
                                kids_in(pm, aset, done, p).insert(a@) } else { kids_in(pm, aset, done, p) }),
                    decreases pv.len() - k,
                {
                    let p = &ps[k];
                    let ghost pk = p@;
                    proof {
                        assert(pv[k as int] == pk);
                        assert(pv.take(k + 1) =~= pv.take(k as int).push(pk));
                        pv.take(k as int).lemma_push_to_set_commute(pk);
                        assert(!pv.take(k as int).contains(pk)) by {
                            if pv.take(k as int).contains(pk) {
                                let j = pv.take(k as int).index_of(pk);
                                assert(pv[j] == pv[k as int]);
                            }
                        }
                        vstd::seq_lib::seq_to_set_is_finite(pv.take(k as int));
                        lemma_intersect_insert(pv.take(k as int).to_set(), aset, pk);
                    }
                    if anc_set.contains(p) {
                        cnt = cnt + 1;
                        let ghost before = edges@;
                        proof {
                            assert(!kids_in(pm, aset, done, pk).contains(a@));
                        }
                        push_to_list(&mut edges, p.key_clone(), a.key_clone());
                        proof {
                            let lst = key_views(edges@[pk]@);
                            let old_lst = list_at::<Vec<u8>, Vec<u8>>(before, pk);
                            assert(old_lst == key_views(before[pk]@));
                            assert(lst == old_lst.push(a@));
                            lemma_push_distinct(old_lst, a@);
                            assert forall|q: Seq<u8>| #[trigger] edges@.contains_key(q) implies key_views(edges@[q]@).no_duplicates()
                                && key_views(edges@[q]@).to_set() == (if pv.take(k + 1).contains(q) {
                                    kids_in(pm, aset, done, q).insert(a@) } else { kids_in(pm, aset, done, q) }) by {
                                if q != pk {
                                    assert(pv.take(k + 1).contains(q) == pv.take(k as int).contains(q)) by {
                                        assert(pv.take(k + 1).to_set() == pv.take(k as int).to_set().insert(pk));
                                    }
                                } else {
                                    assert(pv.take(k + 1).contains(q)) by {
                                        assert(pv.take(k + 1)[k as int] == pk);
                                    }
                                }
                            }
                        }
                    } else {
                        proof {
                            assert forall|q: Seq<u8>| #[trigger] edges@.contains_key(q) implies key_views(edges@[q]@).no_duplicates()
                                && key_views(edges@[q]@).to_set() == (if pv.take(k + 1).contains(q) {
                                    kids_in(pm, aset, done, q).insert(a@) } else { kids_in(pm, aset, done, q) }) by {
                                assert(q != pk);
                                assert(pv.take(k + 1).contains(q) == pv.take(k as int).contains(q)) by {
                                    assert(pv.take(k + 1).to_set() == pv.take(k as int).to_set().insert(pk));
                                }
                            }
                        }
                    }
                    k = k + 1;
                }
                proof {
                    assert(pv.take(pv.len() as int) =~= pv);
                    assert(pv.to_set().intersect(aset) == parents_in(pm, a@, aset));
                }
            },
            None => {
                proof {
                    assert(parents_in(pm, a@, aset) =~= Set::<Seq<u8>>::empty());
                }
            },
        }
        deg.insert(a.key_clone(), cnt);
        proof {
            let done2 = av.take(i + 1).to_set();
            assert(done2 == done.insert(a@));
            assert forall|q: Seq<u8>| #[trigger] edges@.contains_key(q) implies key_views(edges@[q]@).no_duplicates()
                && key_views(edges@[q]@).to_set() == kids_in(pm, aset, done2, q) by {
                if pm.contains_key(a@) {
                    assert(pm[a@].to_set().contains(q) == pm[a@].contains(q));
                }
                assert(key_views(edges@[q]@).to_set() =~= kids_in(pm, aset, done2, q));
            }
        }
        i = i + 1;
    }
    proof {
        assert(av.take(av.len() as int) =~= av);
    }
    // The transactions with no parent among the ancestors start the queue.
    let mut queue: Vec<Vec<u8>> = Vec::new();
    i = 0;
    proof {
        assert(key_views(queue@).to_set() =~= Set::<Seq<u8>>::empty());
    }
    while i < anc.len()
        invariant
            av == key_views(anc@),
            aset == av.to_set(),
            av.no_duplicates(),
            i <= av.len(),
            deg.wf(),
            deg@.dom() == aset,
            forall|a: Seq<u8>| #[trigger] deg@.contains_key(a) ==> deg@[a] == parents_in(pm, a, aset).len(),
            aset.finite(),
            key_views(queue@).no_duplicates(),
            key_views(queue@).to_set() == ready(pm, aset, Set::empty()).intersect(av.take(i as int).to_set()),
        decreases av.len() - i,
    {
        proof {
            assert(av.take(i + 1) =~= av.take(i as int).push(av[i as int]));
            av.take(i as int).lemma_push_to_set_commute(av[i as int]);
            assert(aset.contains(av[i as int]));
        }
        let a = &anc[i];
        match deg.get(a) {
            Some(d) => {
                if *d == 0 {
                    let ghost before = key_views(queue@);
                    proof {
                        assert(a@ == av[i as int]);
                        assert(!before.contains(a@)) by {
                            if before.contains(a@) {
                                assert(before.to_set().contains(a@));
                                assert(av.take(i as int).to_set().contains(a@));
                                let j = av.take(i as int).index_of(a@);
                                assert(av.take(i as int)[j] == av[j]);
                                assert(av[j] == av[i as int]);
                            }
                        }
                        lemma_push_distinct(before, a@);
                    }
                    queue.push(a.key_clone());
                    proof {
                        assert(key_views(queue@) =~= before.push(a@));
                        lemma_parents_in_finite(pm, a@, aset);
                        vstd::set_lib::lemma_set_empty_equivalency_len(parents_in(pm, a@, aset));
                        assert(parents_in(pm, a@, aset).subset_of(Set::empty()));
                        assert(key_views(queue@).to_set() =~= ready(pm, aset, Set::empty()).intersect(av.take(i + 1).to_set()));
                    }
                } else {
                    proof {
                        assert(parents_in(pm, a@, aset).len() > 0);
                        if parents_in(pm, a@, aset).subset_of(Set::empty()) {
                            assert(parents_in(pm, a@, aset) =~= Set::<Seq<u8>>::empty());
                        }
                        assert(key_views(queue@).to_set() =~= ready(pm, aset, Set::empty()).intersect(av.take(i + 1).to_set()));
                    }
                }
            },
            None => {},
        }
        i = i + 1;
    }
    proof {
        assert(av.take(av.len() as int) =~= av);
        assert(ready(pm, aset, Set::empty()).intersect(aset) =~= ready(pm, aset, Set::empty()));
        assert forall|a: Seq<u8>| #[trigger] deg@.contains_key(a) implies deg@[a]
            == parents_in(pm, a, aset).difference(Set::<Seq<u8>>::empty()).len() by {
            assert(parents_in(pm, a, aset).difference(Set::<Seq<u8>>::empty()) =~= parents_in(pm, a, aset));
        }
    }
    let mut result: Vec<Vec<u8>> = Vec::new();
    let mut qi: usize = 0;
    proof {
        assert(key_views(result@) =~= key_views(queue@).take(0));
    }
    while qi < queue.len()
        invariant
            pm == link_entries(*pmap),
            aset == key_views(anc@).to_set(),
            aset.finite(),
            deg.wf(),
            edges.wf(),
            deg@.dom() == aset,
            edges@.dom() == aset,
            forall|p: Seq<u8>| #[trigger] edges@.contains_key(p) ==> key_views(edges@[p]@).no_duplicates()
                && key_views(edges@[p]@).to_set() == kids_in(pm, aset, aset, p),
            qi <= queue@.len(),
            key_views(result@) == key_views(queue@).take(qi as int),
            key_views(queue@).no_duplicates(),
            key_views(queue@).to_set() == ready(pm, aset, key_views(result@).to_set()),
            forall|a: Seq<u8>| #[trigger] deg@.contains_key(a) ==> deg@[a]
                == parents_in(pm, a, aset).difference(key_views(result@).to_set()).len(),
            parents_first(pm, aset, key_views(result@)),
        decreases aset.len() - qi,
    {
        let cur = queue[qi].key_clone();
        let ghost rv = key_views(result@);
        let ghost rset = rv.to_set();
        let ghost qv = key_views(queue@);
        proof {
            assert(qv[qi as int] == cur@);
            assert(qv.to_set().contains(cur@));
            assert(!rv.contains(cur@)) by {
                if rv.contains(cur@) {
                    let j = rv.index_of(cur@);
                    assert(qv[j] == qv[qi as int]);
                }
            }
            lemma_push_distinct(rv, cur@);
            assert(qv.take(qi + 1) =~= rv.push(cur@));
        }
        result.push(cur.key_clone());
        let ghost rset2 = rset.insert(cur@);
        proof {
            assert(key_views(result@) =~= rv.push(cur@));
            assert(parents_first(pm, aset, key_views(result@))) by {
                let r2 = key_views(result@);
                assert forall|j: int| 0 <= j < r2.len() implies aset.contains(#[trigger] r2[j])
                    && parents_in(pm, r2[j], aset).subset_of(r2.take(j).to_set()) by {
                    if j < rv.len() {
                        assert(r2[j] == rv[j]);
                        assert(r2.take(j) =~= rv.take(j));
                    } else {
                        assert(r2.take(j) =~= rv);
                    }
                }
            }
        }
        let list = match edges.get(&cur) {
            Some(l) => copy_list(l),
            None => Vec::new(),
        };
        let ghost lv = key_views(list@);
        proof {
            assert(edges@.contains_key(cur@));
            assert(lv.to_set() == kids_in(pm, aset, aset, cur@));
        }
        let mut k: usize = 0;
        while k < list.len()
            invariant
                pm == link_entries(*pmap),
                aset.finite(),
                deg.wf(),
                deg@.dom() == aset,
                lv == key_views(list@),
                lv.no_duplicates(),
                lv.to_set() == kids_in(pm, aset, aset, cur@),
                aset.contains(cur@),
                !rset.contains(cur@),
                rset2 == rset.insert(cur@),
                k <= lv.len(),
                key_views(result@).to_set() == rset2,
                key_views(queue@).take(qi + 1) == key_views(result@),
                key_views(queue@).len() >= qi + 1,
                key_views(queue@).no_duplicates(),
                key_views(queue@).to_set() == ready(pm, aset, rset) + ready(pm, aset, rset2).intersect(lv.take(k as int).to_set()),
                forall|a: Seq<u8>| #[trigger] deg@.contains_key(a) ==> deg@[a]
                    == parents_in(pm, a, aset).difference(if lv.take(k as int).contains(a) { rset2 } else { rset }).len(),
            decreases lv.len() - k,
        {
            let c = &list[k];
            let ghost cv = c@;
            proof {
                assert(lv[k as int] == cv);
                assert(lv.take(k + 1) =~= lv.take(k as int).push(cv));
                lv.take(k as int).lemma_push_to_set_commute(cv);
                assert(!lv.take(k as int).contains(cv)) by {
                    if lv.take(k as int).contains(cv) {
                        let j = lv.take(k as int).index_of(cv);
                        assert(lv[j] == lv[k as int]);
                    }
                }
                assert(kids_in(pm, aset, aset, cur@).contains(cv));
                assert(parents_in(pm, cv, aset).contains(cur@));
                assert(parents_in(pm, cv, aset).difference(rset).contains(cur@));
                assert(parents_in(pm, cv, aset).difference(rset2) =~= parents_in(pm, cv, aset).difference(rset).remove(cur@));
                lemma_parents_in_finite(pm, cv, aset);
                vstd::set::axiom_set_difference_finite(parents_in(pm, cv, aset), rset);
                vstd::set::axiom_set_difference_finite(parents_in(pm, cv, aset), rset2);
                vstd::set::axiom_set_remove_len(parents_in(pm, cv, aset).difference(rset), cur@);
            }
            let d = match deg.get(c) {
                Some(d) => *d,
                None => 0,
            };
            proof {
                assert(d == parents_in(pm, cv, aset).difference(rset).len());
                assert(d >= 1);
            }
            deg.insert(c.key_clone(), d - 1);
            proof {
                assert forall|a: Seq<u8>| #[trigger] deg@.contains_key(a) implies deg@[a]
                    == parents_in(pm, a, aset).difference(if lv.take(k + 1).contains(a) { rset2 } else { rset }).len() by {
                    if a != cv {
                        assert(lv.take(k + 1).contains(a) == lv.take(k as int).contains(a)) by {
                            assert(lv.take(k + 1).to_set() == lv.take(k as int).to_set().insert(cv));
                        }
                    } else {
                        assert(lv.take(k + 1)[k as int] == cv);
                        assert(lv.take(k + 1).contains(cv));
                    }
                }
            }
            if d - 1 == 0 {
                let ghost before = key_views(queue@);
                proof {
                    assert(!before.contains(cv)) by {
                        if before.contains(cv) {
                            assert(before.to_set().contains(cv));
                            assert(!ready(pm, aset, rset).contains(cv));
                        }
                    }
                    lemma_push_distinct(before, cv);
                }
                queue.push(c.key_clone());
                proof {
                    assert(key_views(queue@) =~= before.push(cv));
                    assert(key_views(queue@).take(qi + 1) =~= before.take(qi + 1));
                    vstd::set_lib::lemma_set_empty_equivalency_len(parents_in(pm, cv, aset).difference(rset2));
                    assert(parents_in(pm, cv, aset).subset_of(rset2)) by {
                        assert forall|z: Seq<u8>| parents_in(pm, cv, aset).contains(z) implies rset2.contains(z) by {
                            if !rset2.contains(z) {
                                assert(parents_in(pm, cv, aset).difference(rset2).contains(z));
                            }
                        }
                    }
                    assert(key_views(queue@).to_set() =~= ready(pm, aset, rset) + ready(pm, aset, rset2).intersect(lv.take(k + 1).to_set()));
                }
            } else {
                proof {
                    assert(!parents_in(pm, cv, aset).subset_of(rset2)) by {
                        let z = parents_in(pm, cv, aset).difference(rset2).choose();
                        assert(parents_in(pm, cv, aset).difference(rset2).len() > 0);
                        vstd::set_lib::lemma_set_empty_equivalency_len(parents_in(pm, cv, aset).difference(rset2));
                        assert(parents_in(pm, cv, aset).difference(rset2).contains(z));
                    }
                    assert(key_views(queue@).to_set() =~= ready(pm, aset, rset) + ready(pm, aset, rset2).intersect(lv.take(k + 1).to_set()));
                }
            }
            k = k + 1;
        }
        proof {
            assert(lv.take(lv.len() as int) =~= lv);
            assert forall|a: Seq<u8>| #[trigger] deg@.contains_key(a) implies deg@[a]
                == parents_in(pm, a, aset).difference(rset2).len() by {
                if !lv.contains(a) {
                    assert(!kids_in(pm, aset, aset, cur@).contains(a)) by {
                        if kids_in(pm, aset, aset, cur@).contains(a) {
                            assert(lv.to_set().contains(a));
                        }
                    }
                    assert(parents_in(pm, a, aset).difference(rset2) =~= parents_in(pm, a, aset).difference(rset));
                }
            }
            assert(key_views(queue@).to_set() =~= ready(pm, aset, rset2)) by {
                assert forall|a: Seq<u8>| ready(pm, aset, rset2).contains(a) implies key_views(queue@).to_set().contains(a) by {
                    if !lv.contains(a) {
                        assert(!kids_in(pm, aset, aset, cur@).contains(a)) by {
                            if kids_in(pm, aset, aset, cur@).contains(a) {
                                assert(lv.to_set().contains(a));
                            }
                        }
                        assert(!parents_in(pm, a, aset).contains(cur@));
                        assert(parents_in(pm, a, aset).subset_of(rset));
                    }
                }
            }
            let qv2 = key_views(queue@);
            qv2.unique_seq_to_set();
            assert(qv2.to_set().subset_of(aset));
            vstd::set_lib::lemma_len_subset(qv2.to_set(), aset);
        }
        qi = qi + 1;
    }
    proof {
        let rv = key_views(result@);
        let qv = key_views(queue@);
        assert(qv.take(qv.len() as int) =~= qv);
        if acyclic(graph_of(pm)) {
            assert(rv.to_set() =~= aset) by {
                assert forall|x: Seq<u8>| aset.contains(x) implies rv.to_set().contains(x) by {
                    if !rv.to_set().contains(x) {
                        let rest = aset.difference(rv.to_set());
                        assert forall|y: Seq<u8>| #[trigger] rest.contains(y) implies
                            exists|z: Seq<u8>| parents_in(pm, y, rest).contains(z) by {
                            assert(!qv.to_set().contains(y));
                            assert(!parents_in(pm, y, aset).subset_of(rv.to_set()));
                            let z = choose|z: Seq<u8>| parents_in(pm, y, aset).contains(z) && !rv.to_set().contains(z);
                            assert(parents_in(pm, y, rest).contains(z));
                        }
                        lemma_parent_in_set_cycle(pm, rest, x);
                    }
                }
            }
        }
    }
    result
}

/// The mempool parents of a transaction: the hashes its inputs spend from
/// where the spent output is not on chain, each once, in input order.
pub open spec fn mempool_parents(inputs: Seq<TxInputView>, chain: Set<(Seq<u8>, u32)>) -> Seq<Seq<u8>>
    decreases inputs.len(),
{
    if inputs.len() == 0 {
        Seq::empty()
    } else {
        let rest = mempool_parents(inputs.drop_last(), chain);
        let i = inputs.last();
        let p = hash_key_spec(i.prev_tx);
        if chain.contains((p, i.index)) || rest.contains(p) { rest } else { rest.push(p) }
    }
}

/// The largest depth of the registered parents in `ps`, 0 when none is.
pub open spec fn max_parent_depth(ps: Seq<Seq<u8>>, depths: Map<Seq<u8>, u32>) -> u32
    decreases ps.len(),
{
    if ps.len() == 0 {
        0
    } else {
        let m = max_parent_depth(ps.drop_last(), depths);
        let p = ps.last();
        if depths.contains_key(p) && depths[p] > m { depths[p] } else { m }
    }
}

/// The depth of a transaction with parents `ps`: 0 without parents, else
/// one more than its deepest registered parent (wrapping at 2^32).
pub open spec fn depth_for(ps: Seq<Seq<u8>>, depths: Map<Seq<u8>, u32>) -> u32 {
    if ps.len() == 0 { 0 } else { max_parent_depth(ps, depths).wrapping_add(1) }
}

/// `l` with `h` appended unless it holds it already.
pub open spec fn with_member(l: Seq<Seq<u8>>, h: Seq<u8>) -> Seq<Seq<u8>> {
    if l.contains(h) { l } else { l.push(h) }
}

/// The list under `k`, or the empty list.
pub open spec fn list_or_empty<K>(m: Map<K, Seq<Seq<u8>>>, k: K) -> Seq<Seq<u8>> {
    if m.contains_key(k) { m[k] } else { Seq::empty() }
}

/// `h` added to the children of each of `ps`.
pub open spec fn add_child(cm: Map<Seq<u8>, Seq<Seq<u8>>>, ps: Seq<Seq<u8>>, h: Seq<u8>) -> Map<Seq<u8>, Seq<Seq<u8>>>
    decreases ps.len(),
{
    if ps.len() == 0 {
        cm
    } else {
        let r = add_child(cm, ps.drop_last(), h);
        r.insert(ps.last(), with_member(list_or_empty(r, ps.last()), h))
    }
}

/// Some parent in `ps` reaches `h` along the parent links (or is `h`).
pub open spec fn closes_cycle(pm: Map<Seq<u8>, Seq<Seq<u8>>>, ps: Seq<Seq<u8>>, h: Seq<u8>) -> bool {
    exists|j: int| 0 <= j < ps.len() && #[trigger] reachable(graph_of(pm), ps[j], h)
}

/// The text of a refused registration.
pub open spec fn cycle_text() -> Seq<char> {
    "Circular dependency detected"@
}

/// What registering `tx`, with the outputs `chain` on chain, does from
/// `before` to `after`, with result `r`.
pub open spec fn dep_registered(before: TxDependencyManager, after: TxDependencyManager, tx: Transaction,
    chain: Set<(Seq<u8>, u32)>, r: Result<DependencyChain, StorageError>) -> bool {
    let h = hash_key_spec(tx.id);
    let ps = mempool_parents(tx@.inputs, chain);
    if before.depth_view().contains_key(h) {
        &&& after == before
        &&& r matches Ok(c) && chain_matches(c, before.parents_view(), h, before.depth_view()[h])
    } else if closes_cycle(before.parents_view(), ps, h) {
        &&& after.children_view() == before.children_view()
        &&& after.parents_view() == before.parents_view()
        &&& after.depth_view() == before.depth_view()
        &&& after.levels_view() == before.levels_view()
        &&& after.stats_view() == (DependencyStats {
                cycles_prevented: before.stats_view().cycles_prevented.wrapping_add(1), ..before.stats_view() })
        &&& r matches Err(StorageError::OperationFailed(msg)) && msg@ == cycle_text()
    } else {
        let d = depth_for(ps, before.depth_view());
        &&& after.depth_view() == before.depth_view().insert(h, d)
        &&& after.parents_view() == before.parents_view().insert(h, ps)
        &&& after.children_view() == add_child(before.children_view(), ps, h)
        &&& after.levels_view() == before.levels_view().insert(d, with_member(list_or_empty(before.levels_view(), d), h))
        &&& after.stats_view() == (DependencyStats {
                total_tracked: before.stats_view().total_tracked.wrapping_add(1),
                total_dependencies: before.stats_view().total_dependencies.wrapping_add(ps.len() as u64),
                ..before.stats_view() })
        &&& r matches Ok(c) && chain_matches(c, after.parents_view(), h, d)
    }
}

proof fn lemma_reach_plus_reachable(g: Map<Seq<u8>, Set<Seq<u8>>>, a: Seq<u8>, b: Seq<u8>)
    ensures
        reachable(g, a, b) <==> (a == b || reach_plus(g, a).contains(b)),
{
    if reach_plus(g, a).contains(b) {
        let y = choose|y: Seq<u8>| #[trigger] edge(g, a, y) && reachable(g, y, b);
        lemma_reach_first_step(g, a, y, b);
    }
    if a == b {
        lemma_reach_zero(g, a);
    }
    if reachable(g, a, b) && a != b {
        let p = choose|p: Seq<Seq<u8>>| #[trigger] walk_from_to(g, p, a, b);
        assert(p.len() >= 2);
        assert(step_ok(g, p, 0));
        let q = p.drop_first();
        assert forall|i: int| 0 <= i < q.len() - 1 implies #[trigger] step_ok(g, q, i) by {
            assert(step_ok(g, p, i + 1));
        }
        assert(walk_from_to(g, q, p[1], b));
        assert(edge(g, a, p[1]) && reachable(g, p[1], b));
    }
}

proof fn lemma_reach_first_step(g: Map<Seq<u8>, Set<Seq<u8>>>, a: Seq<u8>, y: Seq<u8>, b: Seq<u8>)
    requires
        edge(g, a, y),
        reachable(g, y, b),
    ensures
        reachable(g, a, b),
{
    let p = choose|p: Seq<Seq<u8>>| #[trigger] walk_from_to(g, p, y, b);
    let q = seq![a] + p;
    assert forall|i: int| 0 <= i < q.len() - 1 implies #[trigger] step_ok(g, q, i) by {
        if i > 0 {
            assert(step_ok(g, p, i - 1));
        }
    }
    assert(walk_from_to(g, q, a, b));
}

proof fn lemma_mempool_parents_distinct(inputs: Seq<TxInputView>, chain: Set<(Seq<u8>, u32)>)
    ensures
        mempool_parents(inputs, chain).no_duplicates(),
    decreases inputs.len(),
{
    if inputs.len() > 0 {
        lemma_mempool_parents_distinct(inputs.drop_last(), chain);
        let rest = mempool_parents(inputs.drop_last(), chain);
        let p = hash_key_spec(inputs.last().prev_tx);
        if !(chain.contains((p, inputs.last().index)) || rest.contains(p)) {
            lemma_push_distinct(rest, p);
        }
    }
}

/// The mempool parents are exactly the transactions that some input spends
/// an output of that is not on chain, each listed once.
pub proof fn lemma_mempool_parents_exact(inputs: Seq<TxInputView>, chain: Set<(Seq<u8>, u32)>)
    ensures
        mempool_parents(inputs, chain).no_duplicates(),
        forall|p: Seq<u8>| #[trigger] mempool_parents(inputs, chain).contains(p) <==> exists|i: int| 0 <= i < inputs.len()
            && hash_key_spec(#[trigger] inputs[i].prev_tx) == p && !chain.contains((p, inputs[i].index)),
    decreases inputs.len(),
{
    lemma_mempool_parents_distinct(inputs, chain);
    if inputs.len() > 0 {
        let q = inputs.drop_last();
        lemma_mempool_parents_exact(q, chain);
        let rest = mempool_parents(q, chain);
        let l = inputs.last();
        let lp = hash_key_spec(l.prev_tx);
        let all = mempool_parents(inputs, chain);
        assert(all == if chain.contains((lp, l.index)) || rest.contains(lp) { rest } else { rest.push(lp) });
        assert forall|p: Seq<u8>| rest.push(lp).contains(p) <==> rest.contains(p) || p == lp by {
            if rest.push(lp).contains(p) {
                let k = rest.push(lp).index_of(p);
                if k < rest.len() {
                    assert(rest[k] == p);
                }
            }
            if rest.contains(p) {
                let k = rest.index_of(p);
                assert(rest.push(lp)[k] == p);
            }
            if p == lp {
                assert(rest.push(lp)[rest.len() as int] == lp);
            }
        }
        assert forall|p: Seq<u8>| #[trigger] mempool_parents(inputs, chain).contains(p) <==> exists|i: int| 0 <= i < inputs.len()
            && hash_key_spec(#[trigger] inputs[i].prev_tx) == p && !chain.contains((p, inputs[i].index)) by {
            if mempool_parents(inputs, chain).contains(p) {
                if rest.contains(p) {
                    let i = choose|i: int| 0 <= i < q.len() && hash_key_spec(#[trigger] q[i].prev_tx) == p
                        && !chain.contains((p, q[i].index));
                    assert(inputs[i] == q[i]);
                } else {
                    assert(p == lp);
                    assert(inputs[inputs.len() - 1] == l);
                }
            }
            if exists|i: int| 0 <= i < inputs.len() && hash_key_spec(#[trigger] inputs[i].prev_tx) == p
                && !chain.contains((p, inputs[i].index)) {
                let i = choose|i: int| 0 <= i < inputs.len() && hash_key_spec(#[trigger] inputs[i].prev_tx) == p
                    && !chain.contains((p, inputs[i].index));
                if i < inputs.len() - 1 {
                    assert(inputs[i] == q[i]);
                    assert(rest.contains(p));
                } else {
                    assert(inputs[i] == l);
                }
            }
        }
    }
}

/// `max_parent_depth` is the largest depth among the registered parents:
/// no registered parent is deeper, and it is 0 or some registered parent's
/// depth.
proof fn lemma_max_parent_depth_is_max(ps: Seq<Seq<u8>>, depths: Map<Seq<u8>, u32>)
    ensures
        forall|j: int| 0 <= j < ps.len() && depths.contains_key(#[trigger] ps[j])
            ==> depths[ps[j]] <= max_parent_depth(ps, depths),
        max_parent_depth(ps, depths) == 0 || exists|j: int| 0 <= j < ps.len() && depths.contains_key(#[trigger] ps[j])
            && depths[ps[j]] == max_parent_depth(ps, depths),
    decreases ps.len(),
{
    if ps.len() > 0 {
        let q = ps.drop_last();
        lemma_max_parent_depth_is_max(q, depths);
        assert forall|j: int| 0 <= j < ps.len() && depths.contains_key(#[trigger] ps[j])
            implies depths[ps[j]] <= max_parent_depth(ps, depths) by {
            if j < ps.len() - 1 {
                assert(ps[j] == q[j]);
            }
        }
        let m = max_parent_depth(q, depths);
        if max_parent_depth(ps, depths) != 0 && max_parent_depth(ps, depths) == m {
            let j = choose|j: int| 0 <= j < q.len() && depths.contains_key(#[trigger] q[j]) && depths[q[j]] == m;
            assert(ps[j] == q[j]);
        }
        if max_parent_depth(ps, depths) != m {
            assert(ps[ps.len() - 1] == ps.last());
        }
    }
}

/// A newly registered transaction sits strictly below each of its
/// registered mempool parents: its depth is greater than every such
/// parent's depth, it is one more than the depth of one of them (or 1 when
/// none is registered), and it is 0 without mempool parents. Depths are
/// below `u32::MAX`, where the counter would wrap.
pub proof fn lemma_registered_below_parents(before: TxDependencyManager, after: TxDependencyManager, tx: Transaction,
    chain: Set<(Seq<u8>, u32)>, r: Result<DependencyChain, StorageError>)
    requires
        dep_registered(before, after, tx, chain, r),
        !before.depth_view().contains_key(hash_key_spec(tx.id)),
        !closes_cycle(before.parents_view(), mempool_parents(tx@.inputs, chain), hash_key_spec(tx.id)),
        forall|k: Seq<u8>| #[trigger] before.depth_view().contains_key(k) ==> before.depth_view()[k] < u32::MAX,
    ensures
        ({
            let h = hash_key_spec(tx.id);
            let ps = mempool_parents(tx@.inputs, chain);
            let d = after.depth_view()[h];
            &&& after.depth_view().contains_key(h)
            &&& forall|j: int| 0 <= j < ps.len() && before.depth_view().contains_key(#[trigger] ps[j])
                ==> d > before.depth_view()[ps[j]]
            &&& ps.len() == 0 ==> d == 0
            &&& ps.len() > 0 ==> (d == 1 || exists|j: int| 0 <= j < ps.len()
                && before.depth_view().contains_key(#[trigger] ps[j]) && d == before.depth_view()[ps[j]] + 1)
        }),
{
    let ps = mempool_parents(tx@.inputs, chain);
    let dm = before.depth_view();
    lemma_max_parent_depth_is_max(ps, dm);
    let m = max_parent_depth(ps, dm);
    if ps.len() > 0 {
        if m != 0 {
            let j = choose|j: int| 0 <= j < ps.len() && dm.contains_key(#[trigger] ps[j]) && dm[ps[j]] == m;
            assert(dm[ps[j]] < u32::MAX);
        }
        assert(m < u32::MAX);
        assert(m.wrapping_add(1) == m + 1);
    }
}

/// The depth a registered transaction gets when recomputed from its
/// parents: 0 when its parent list is empty, else one more than its deepest
/// registered parent (wrapping at 2^32).
pub open spec fn recalc_value(pm: Map<Seq<u8>, Seq<Seq<u8>>>, dm: Map<Seq<u8>, u32>, h: Seq<u8>) -> u32 {
    if pm.contains_key(h) && pm[h].len() == 0 { 0 } else { max_parent_depth(list_or_empty(pm, h), dm).wrapping_add(1) }
}

/// The hashes of `l` other than `h`, in order.
fn without_hash(l: &Vec<Vec<u8>>, h: &[u8]) -> (r: Vec<Vec<u8>>)
    requires
        key_views(l@).no_duplicates(),
    ensures
        key_views(r@).no_duplicates(),
        key_views(r@).to_set() == key_views(l@).to_set().remove(h@),
{
    let ghost lv = key_views(l@);
    let mut r: Vec<Vec<u8>> = Vec::new();
    let mut i: usize = 0;
    proof {
        assert(lv.take(0).to_set() =~= Set::<Seq<u8>>::empty());
        assert(key_views(r@).to_set() =~= lv.take(0).to_set().remove(h@));
    }
    while i < l.len()
        invariant
            lv == key_views(l@),
            lv.no_duplicates(),
            i <= lv.len(),
            key_views(r@).no_duplicates(),
            key_views(r@).to_set() == lv.take(i as int).to_set().remove(h@),
        decreases lv.len() - i,
    {
        proof {
            assert(lv.take(i + 1) =~= lv.take(i as int).push(lv[i as int]));
            lv.take(i as int).lemma_push_to_set_commute(lv[i as int]);
        }
        if !crate::bytes::bytes_eq(l[i].as_slice(), h) {
            let ghost before = key_views(r@);
            proof {
                assert(!before.contains(lv[i as int])) by {
                    if before.contains(lv[i as int]) {
                        assert(before.to_set().contains(lv[i as int]));
                        assert(lv.take(i as int).to_set().contains(lv[i as int]));
                        let w = lv.take(i as int).index_of(lv[i as int]);
                        assert(lv[w] == lv[i as int]);
                    }
                }
                lemma_push_distinct(before, lv[i as int]);
            }
            r.push(crate::bytes::copy_bytes(l[i].as_slice()));
            proof {
                assert(key_views(r@) =~= before.push(lv[i as int]));
                assert(key_views(r@).to_set() =~= lv.take(i + 1).to_set().remove(h@));
            }
        } else {
            proof {
                assert(key_views(r@).to_set() =~= lv.take(i + 1).to_set().remove(h@));
            }
        }
        i = i + 1;
    }
    proof {
        assert(lv.take(lv.len() as int) =~= lv);
    }
    r
}

/// `c` lists at least one parent, and every parent it lists is in `e`.
pub open spec fn orphaned_by(pm: Map<Seq<u8>, Seq<Seq<u8>>>, e: Set<Seq<u8>>, c: Seq<u8>) -> bool {
    pm.contains_key(c) && pm[c].len() > 0 && pm[c].to_set().subset_of(e)
}

/// `e` is what removing `h` takes away: `h`, and exactly the dependents of
/// `h` all of whose parents are in `e`.
pub open spec fn cascade_closed(cm: Map<Seq<u8>, Seq<Seq<u8>>>, pm: Map<Seq<u8>, Seq<Seq<u8>>>, h: Seq<u8>, e: Set<Seq<u8>>) -> bool {
    &&& e.contains(h)
    &&& forall|c: Seq<u8>| #[trigger] e.contains(c) && c != h ==> reach_plus(graph_of(cm), h).contains(c) && orphaned_by(pm, e, c)
    &&& forall|c: Seq<u8>| #[trigger] reach_plus(graph_of(cm), h).contains(c) && c != h && orphaned_by(pm, e, c) ==> e.contains(c)
}

/// `x` is a child of some member of `s`.
pub open spec fn child_of_any(cm: Map<Seq<u8>, Seq<Seq<u8>>>, s: Set<Seq<u8>>, x: Seq<u8>) -> bool {
    exists|y: Seq<u8>| #[trigger] s.contains(y) && cm.contains_key(y) && cm[y].contains(x)
}

/// A transaction that cannot reach `h` along the parent links.
spec fn avoids(g: Map<Seq<u8>, Set<Seq<u8>>>, y: Seq<u8>, h: Seq<u8>) -> bool {
    !reachable(g, y, h)
}

/// A walk from a transaction that avoids `h`, in the links with `h`'s list
/// set to `ps`, only meets transactions that avoid `h`, and follows the old
/// links.
proof fn lemma_avoiding_walk(pm: Map<Seq<u8>, Seq<Seq<u8>>>, h: Seq<u8>, ps: Seq<Seq<u8>>, w: Seq<Seq<u8>>, k: int)
    requires
        is_walk(graph_of(pm.insert(h, ps)), w),
        avoids(graph_of(pm), w[0], h),
        0 <= k < w.len(),
    ensures
        avoids(graph_of(pm), w[k], h),
        forall|j: int| 0 <= j < k ==> #[trigger] edge(graph_of(pm), w[j], w[j + 1]),
    decreases k,
{
    let g = graph_of(pm);
    let g2 = graph_of(pm.insert(h, ps));
    if k > 0 {
        lemma_avoiding_walk(pm, h, ps, w, k - 1);
        let y = w[k - 1];
        let z = w[k];
        assert(step_ok(g2, w, k - 1));
        assert(edge(g2, y, z));
        lemma_reach_zero(g, h);
        assert(y != h);
        assert(edge(g, y, z));
        if reachable(g, z, h) {
            lemma_reach_first_step(g, y, z, h);
        }
        assert forall|j: int| 0 <= j < k implies #[trigger] edge(g, w[j], w[j + 1]) by {
            if j == k - 1 {
                assert(edge(g, y, z));
            }
        }
    }
}

/// Setting the parents of `h` to `ps`, none of which reaches `h`, keeps the
/// parent links free of cycles.
proof fn lemma_insert_keeps_acyclic(pm: Map<Seq<u8>, Seq<Seq<u8>>>, h: Seq<u8>, ps: Seq<Seq<u8>>)
    requires
        acyclic(graph_of(pm)),
        !closes_cycle(pm, ps, h),
    ensures
        acyclic(graph_of(pm.insert(h, ps))),
{
    let g = graph_of(pm);
    let g2 = graph_of(pm.insert(h, ps));
    assert forall|x: Seq<u8>| !#[trigger] reach_plus(g2, x).contains(x) by {
        if reach_plus(g2, x).contains(x) {
            let y = choose|y: Seq<u8>| #[trigger] edge(g2, x, y) && reachable(g2, y, x);
            let u = choose|u: Seq<Seq<u8>>| #[trigger] walk_from_to(g2, u, y, x);
            let c = seq![x] + u;
            assert forall|i: int| 0 <= i < c.len() - 1 implies #[trigger] step_ok(g2, c, i) by {
                if i > 0 {
                    assert(step_ok(g2, u, i - 1));
                }
            }
            assert(is_walk(g2, c));
            let last = c.len() - 1;
            if exists|k: int| 0 <= k < last && c[k] == h {
                let k = choose|k: int| 0 <= k < last && c[k] == h;
                assert(step_ok(g2, c, k));
                let p = c[k + 1];
                assert(g2[h] == ps.to_set());
                assert(ps.contains(p));
                let j = ps.index_of(p);
                assert(!reachable(g, ps[j], h));
                let suffix = c.subrange(k + 1, c.len() as int);
                assert forall|i: int| 0 <= i < suffix.len() - 1 implies #[trigger] step_ok(g2, suffix, i) by {
                    assert(step_ok(g2, c, i + k + 1));
                }
                lemma_avoiding_walk(pm, h, ps, suffix, suffix.len() - 1);
                assert(avoids(g, x, h));
                lemma_avoiding_walk(pm, h, ps, c, k);
                lemma_reach_zero(g, h);
            } else {
                assert forall|i: int| 0 <= i < c.len() - 1 implies #[trigger] step_ok(g, c, i) by {
                    assert(step_ok(g2, c, i));
                    assert(c[i] != h);
                }
                assert(step_ok(g, c, 0));
                let t = c.drop_first();
                assert forall|i: int| 0 <= i < t.len() - 1 implies #[trigger] step_ok(g, t, i) by {
                    assert(step_ok(g, c, i + 1));
                }
                assert(walk_from_to(g, t, c[1], x));
                assert(edge(g, x, c[1]) && reachable(g, c[1], x));
                assert(reach_plus(g, x).contains(x));
            }
        }
    }
}

/// Links without entries have no cycle.
proof fn lemma_empty_acyclic(pm: Map<Seq<u8>, Seq<Seq<u8>>>)
    requires
        pm == no_links(),
    ensures
        acyclic(graph_of(pm)),
{
    assert forall|x: Seq<u8>| !#[trigger] reach_plus(graph_of(pm), x).contains(x) by {
        if reach_plus(graph_of(pm), x).contains(x) {
            let y = choose|y: Seq<u8>| #[trigger] edge(graph_of(pm), x, y) && reachable(graph_of(pm), y, x);
        }
    }
}

/// Dropping transactions keeps the parent links free of cycles.
proof fn lemma_remove_keeps_acyclic(pm: Map<Seq<u8>, Seq<Seq<u8>>>, e: Set<Seq<u8>>)
    requires
        acyclic(graph_of(pm)),
    ensures
        acyclic(graph_of(pm.remove_keys(e))),
{
    let g = graph_of(pm);
    let g2 = graph_of(pm.remove_keys(e));
    assert forall|x: Seq<u8>| !#[trigger] reach_plus(g2, x).contains(x) by {
        if reach_plus(g2, x).contains(x) {
            let y = choose|y: Seq<u8>| #[trigger] edge(g2, x, y) && reachable(g2, y, x);
            let u = choose|u: Seq<Seq<u8>>| #[trigger] walk_from_to(g2, u, y, x);
            assert forall|i: int| 0 <= i < u.len() - 1 implies #[trigger] step_ok(g, u, i) by {
                assert(step_ok(g2, u, i));
                assert(pm.remove_keys(e).contains_key(u[i]));
            }
            assert(walk_from_to(g, u, y, x));
            assert(pm.remove_keys(e).contains_key(x));
            assert(edge(g, x, y) && reachable(g, y, x));
            assert(reach_plus(g, x).contains(x));
        }
    }
}

/// A level of the dependency index: the transactions at one depth.
pub struct DependencyLevel {
    /// Execution depth: 0 when every input is on chain
    pub depth: u32,
    /// Transactions at this depth
    pub transactions: KeySet<Vec<u8>>,
}

/// What must execute before a transaction.
pub struct DependencyChain {
    /// Transactions it spends from directly
    pub direct_parents: KeySet<Vec<u8>>,
    /// Every transaction it depends on, at any distance
    pub all_ancestors: KeySet<Vec<u8>>,
    /// The ancestors in an order that puts parents first
    pub executable_sequence: Vec<Vec<u8>>,
    /// Its execution depth
    pub execution_depth: u32,
}

/// Counters of the dependency manager.
#[derive(Clone, Copy, Debug)]
pub struct DependencyStats {
    pub total_tracked: u64,
    pub total_dependencies: u64,
    pub cycles_prevented: u64,
    pub cascading_evictions: u64,
}

impl Default for DependencyStats {
    fn default() -> (s: Self)
        ensures
            s == (DependencyStats { total_tracked: 0, total_dependencies: 0, cycles_prevented: 0, cascading_evictions: 0 }),
    {
        DependencyStats { total_tracked: 0, total_dependencies: 0, cycles_prevented: 0, cascading_evictions: 0 }
    }
}

/// Tracks the parents, children and execution depth of mempool
/// transactions.
pub struct TxDependencyManager {
    parent_to_children: DashMap<Vec<u8>, Vec<Vec<u8>>>,
    child_to_parents: DashMap<Vec<u8>, Vec<Vec<u8>>>,
    execution_depth: DashMap<Vec<u8>, u32>,
    depth_index: HashMap<u32, Vec<Vec<u8>>>,
    stats: DependencyStats,
}

/// The depth index lists exactly the registered transactions at each depth.
pub open spec fn levels_consistent(levels: Map<u32, Seq<Seq<u8>>>, depths: Map<Seq<u8>, u32>) -> bool {
    &&& forall|d: u32, x: Seq<u8>| #[trigger] list_or_empty(levels, d).contains(x) ==> depths.contains_key(x) && depths[x] == d
    &&& forall|x: Seq<u8>| #[trigger] depths.contains_key(x) ==> list_or_empty(levels, depths[x]).contains(x)
}

/// The lists of a depth index as values.
pub open spec fn level_lists(m: Map<u32, Vec<Vec<u8>>>) -> Map<u32, Seq<Seq<u8>>> {
    Map::new(|d: u32| m.contains_key(d), |d: u32| key_views(m[d]@))
}

impl TxDependencyManager {
    /// Each transaction's children.
    pub closed spec fn children_view(&self) -> Map<Seq<u8>, Seq<Seq<u8>>> {
        link_entries(self.parent_to_children)
    }

    /// Each registered transaction's parents.
    pub closed spec fn parents_view(&self) -> Map<Seq<u8>, Seq<Seq<u8>>> {
        link_entries(self.child_to_parents)
    }

    /// Each registered transaction's execution depth.
    pub closed spec fn depth_view(&self) -> Map<Seq<u8>, u32> {
        depth_entries(self.execution_depth)
    }

    /// The transactions indexed at each depth.
    pub closed spec fn levels_view(&self) -> Map<u32, Seq<Seq<u8>>> {
        level_lists(self.depth_index@)
    }

    /// The counters.
    pub closed spec fn stats_view(&self) -> DependencyStats {
        self.stats
    }

    /// The lists hold each hash once, the link maps are finite, and the
    /// depth index agrees with the depths.
    pub open spec fn wf_core(&self) -> bool {
        &&& self.children_view().dom().finite()
        &&& self.parents_view().dom().finite()
        &&& lists_distinct(self.children_view())
        &&& lists_distinct(self.parents_view())
        &&& forall|d: u32| #[trigger] self.levels_view().contains_key(d) ==> self.levels_view()[d].no_duplicates()
        &&& levels_consistent(self.levels_view(), self.depth_view())
    }

    /// Besides the above, the registered transactions are those with a
    /// depth, and no transaction depends on itself.
    pub open spec fn wf(&self) -> bool {
        &&& self.wf_core()
        &&& self.parents_view().dom() == self.depth_view().dom()
        &&& acyclic(graph_of(self.parents_view()))
    }

    pub fn new() -> (m: Self)
        ensures
            m.wf(),
            m.children_view() == no_links(),
            m.parents_view() == no_links(),
            m.depth_view() == no_depths(),
            m.levels_view() == Map::<u32, Seq<Seq<u8>>>::empty(),
            m.stats_view() == (DependencyStats { total_tracked: 0, total_dependencies: 0, cycles_prevented: 0, cascading_evictions: 0 }),
    {
        let m = TxDependencyManager {
            parent_to_children: links_new(),
            child_to_parents: links_new(),
            execution_depth: depths_new(),
            depth_index: HashMap::new(),
            stats: DependencyStats::default(),
        };
        proof {
            assert(m.levels_view() =~= Map::<u32, Seq<Seq<u8>>>::empty());
            lemma_empty_acyclic(m.parents_view());
            assert(m.parents_view().dom() =~= m.depth_view().dom());
        }
        m
    }

    /// The direct children of `tx_hash`, empty when it has none.
    pub fn get_dependent_children(&self, tx_hash: &Vec<u8>) -> (r: Vec<Vec<u8>>)
        ensures
            key_views(r@) == (if self.children_view().contains_key(tx_hash@) { self.children_view()[tx_hash@] } else { Seq::empty() }),
    {
        match links_get(&self.parent_to_children, tx_hash.as_slice()) {
            Some(v) => v,
            None => {
                let v: Vec<Vec<u8>> = Vec::new();
                proof {
                    assert(key_views(v@) =~= Seq::<Seq<u8>>::empty());
                }
                v
            },
        }
    }

    /// Every transaction that depends on `tx_hash`, directly or not, each once.
    pub fn get_all_transitive_dependents(&self, tx_hash: &Vec<u8>) -> (r: Vec<Vec<u8>>)
        requires
            self.wf(),
        ensures
            key_views(r@).no_duplicates(),
            key_views(r@).to_set() == reach_plus(graph_of(self.children_view()), tx_hash@),
    {
        reach_plus_list(&self.parent_to_children, tx_hash.as_slice())
    }

    /// Every transaction `tx_hash` depends on, directly or not.
    fn collect_all_ancestors(&self, tx_hash: &Vec<u8>) -> (r: KeySet<Vec<u8>>)
        requires
            self.wf(),
        ensures
            r.wf(),
            r@ == reach_plus(graph_of(self.parents_view()), tx_hash@),
    {
        let l = reach_plus_list(&self.child_to_parents, tx_hash.as_slice());
        key_set_of(&l)
    }

    /// The ancestors of `tx_hash`, parents before children.
    fn execution_sequence(&self, tx_hash: &Vec<u8>) -> (r: Vec<Vec<u8>>)
        requires
            self.wf(),
        ensures
            parents_first(self.parents_view(), reach_plus(graph_of(self.parents_view()), tx_hash@), key_views(r@)),
            key_views(r@).to_set() == reach_plus(graph_of(self.parents_view()), tx_hash@),
    {
        let anc = reach_plus_list(&self.child_to_parents, tx_hash.as_slice());
        parents_first_order(&self.child_to_parents, &anc)
    }

    /// The ancestors that must execute before `tx_hash`, parents first.
    pub fn get_executable_ancestors(&self, tx_hash: &Vec<u8>) -> (r: Vec<Vec<u8>>)
        requires
            self.wf(),
        ensures
            parents_first(self.parents_view(), reach_plus(graph_of(self.parents_view()), tx_hash@), key_views(r@)),
            key_views(r@).to_set() == reach_plus(graph_of(self.parents_view()), tx_hash@),
    {
        self.execution_sequence(tx_hash)
    }

    /// The transactions indexed at `depth`, empty when there are none.
    pub fn get_transactions_at_depth(&self, depth: u32) -> (r: Vec<Vec<u8>>)
        ensures
            key_views(r@) == (if self.levels_view().contains_key(depth) { self.levels_view()[depth] } else { Seq::empty() }),
            self.wf() ==> key_views(r@).no_duplicates(),
            self.wf() ==> forall|x: Seq<u8>| #[trigger] key_views(r@).contains(x)
                <==> (self.depth_view().contains_key(x) && self.depth_view()[x] == depth),
    {
        proof {
            if self.wf() {
                assert forall|x: Seq<u8>| #[trigger] list_or_empty(self.levels_view(), depth).contains(x)
                    <==> (self.depth_view().contains_key(x) && self.depth_view()[x] == depth) by {
                    if self.depth_view().contains_key(x) && self.depth_view()[x] == depth {
                        assert(list_or_empty(self.levels_view(), self.depth_view()[x]).contains(x));
                    }
                }
            }
        }
        let r = match self.depth_index.get(&depth) {
            Some(v) => copy_list(v),
            None => {
                let v: Vec<Vec<u8>> = Vec::new();
                proof {
                    assert(key_views(v@) =~= Seq::<Seq<u8>>::empty());
                }
                v
            },
        };
        proof {
            assert(key_views(r@) == list_or_empty(self.levels_view(), depth));
            if self.wf() {
                if self.levels_view().contains_key(depth) {
                    assert(self.levels_view()[depth].no_duplicates());
                }
            }
        }
        r
    }

    /// The execution depth of a registered transaction.
    pub fn get_execution_depth(&self, tx_hash: &Vec<u8>) -> (r: Option<u32>)
        ensures
            match r {
                Some(d) => self.depth_view().contains_key(tx_hash@) && d == self.depth_view()[tx_hash@],
                None => !self.depth_view().contains_key(tx_hash@),
            },
    {
        depths_get(&self.execution_depth, tx_hash.as_slice())
    }

    /// The chain of a registered transaction: its parents, its ancestors,
    /// the ancestors parents first, and its depth.
    fn chain_of(&self, tx_hash: &Vec<u8>, depth: u32) -> (c: DependencyChain)
        requires
            self.wf(),
        ensures
            chain_matches(c, self.parents_view(), tx_hash@, depth),
    {
        let direct = match links_get(&self.child_to_parents, tx_hash.as_slice()) {
            Some(v) => key_set_of(&v),
            None => KeySet::new(),
        };
        DependencyChain {
            direct_parents: direct,
            all_ancestors: self.collect_all_ancestors(tx_hash),
            executable_sequence: self.execution_sequence(tx_hash),
            execution_depth: depth,
        }
    }

    /// The chain of a registered transaction, if it is registered.
    pub fn get_dependency_chain(&self, tx_hash: &Vec<u8>) -> (r: Option<DependencyChain>)
        requires
            self.wf(),
        ensures
            match r {
                Some(c) => self.depth_view().contains_key(tx_hash@)
                    && chain_matches(c, self.parents_view(), tx_hash@, self.depth_view()[tx_hash@]),
                None => !self.depth_view().contains_key(tx_hash@),
            },
    {
        match depths_get(&self.execution_depth, tx_hash.as_slice()) {
            Some(d) => Some(self.chain_of(tx_hash, d)),
            None => None,
        }
    }

    /// Whether `from` reaches `to` along the parent links (or is `to`).
    fn reaches(&self, from: &Vec<u8>, to: &Vec<u8>) -> (b: bool)
        requires
            self.wf(),
        ensures
            b == reachable(graph_of(self.parents_view()), from@, to@),
    {
        proof {
            lemma_reach_plus_reachable(graph_of(self.parents_view()), from@, to@);
        }
        if crate::bytes::bytes_eq(from.as_slice(), to.as_slice()) {
            return true;
        }
        let r = reach_plus_list(&self.child_to_parents, from.as_slice());
        let found = list_contains(&r, to.as_slice());
        proof {
            assert(key_views(r@).to_set().contains(to@) == key_views(r@).contains(to@));
        }
        found
    }

    /// Registers `tx`, whose inputs spend the outputs in `chain_utxos` from
    /// the chain and the others from mempool transactions (its parents).
    /// A registered transaction gets its chain back unchanged. One whose
    /// parents reach it back is refused as circular. Otherwise its depth is
    /// one more than its deepest registered parent (0 without parents), and
    /// it is recorded as a child of each parent and indexed at its depth.
    pub fn register_transaction(&mut self, tx: &Transaction, chain_utxos: &KeySet<OutPoint>)
        -> (r: Result<DependencyChain, StorageError>)
        requires
            old(self).wf(),
            chain_utxos.wf(),
        ensures
            final(self).wf(),
            dep_registered(*old(self), *final(self), *tx, chain_utxos@, r),
    {
        let tx_hash = bincode_encode_hash(&tx.id.bytes);
        match depths_get(&self.execution_depth, tx_hash.as_slice()) {
            Some(d) => {
                return Ok(self.chain_of(&tx_hash, d));
            },
            None => {},
        }
        let ghost inputs = tx@.inputs;
        let ghost chain = chain_utxos@;
        let ghost dv = self.depth_view();
        let mut parents: Vec<Vec<u8>> = Vec::new();
        let mut max_depth: u32 = 0;
        let mut i: usize = 0;
        proof {
            assert(inputs.take(0) =~= Seq::<TxInputView>::empty());
            assert(key_views(parents@) =~= Seq::<Seq<u8>>::empty());
        }
        while i < tx.inputs.len()
            invariant
                inputs == tx@.inputs,
                chain == chain_utxos@,
                chain_utxos.wf(),
                dv == self.depth_view(),
                *self == *old(self),
                i <= inputs.len(),
                key_views(parents@) == mempool_parents(inputs.take(i as int), chain),
                max_depth == max_parent_depth(mempool_parents(inputs.take(i as int), chain), dv),
            decreases inputs.len() - i,
        {
            let input = &tx.inputs[i];
            let prev = bincode_encode_hash(&input.prev_tx.bytes);
            let op = OutPoint::new(crate::bytes::copy_bytes(prev.as_slice()), input.index);
            proof {
                assert(inputs.take(i + 1).drop_last() =~= inputs.take(i as int));
                assert(inputs.take(i + 1).last() == input@);
            }
            if !chain_utxos.contains(&op) {
                if !list_contains(&parents, prev.as_slice()) {
                    let ghost before = key_views(parents@);
                    parents.push(crate::bytes::copy_bytes(prev.as_slice()));
                    proof {
                        assert(key_views(parents@) =~= before.push(prev@));
                        assert(key_views(parents@).drop_last() =~= before);
                    }
                    match depths_get(&self.execution_depth, prev.as_slice()) {
                        Some(pd) => {
                            if pd > max_depth {
                                max_depth = pd;
                            }
                        },
                        None => {},
                    }
                }
            }
            i = i + 1;
        }
        proof {
            assert(inputs.take(inputs.len() as int) =~= inputs);
        }
        let ghost ps = key_views(parents@);
        let depth: u32 = if parents.len() == 0 { 0 } else { max_depth.wrapping_add(1) };
        let mut k: usize = 0;
        while k < parents.len()
            invariant
                self.wf(),
                *self == *old(self),
                tx_hash@ == hash_key_spec(tx.id),
                !old(self).depth_view().contains_key(tx_hash@),
                ps == key_views(parents@),
                ps == mempool_parents(tx@.inputs, chain_utxos@),
                k <= ps.len(),
                forall|j: int| 0 <= j < k ==> !#[trigger] reachable(graph_of(self.parents_view()), ps[j], tx_hash@),
            decreases ps.len() - k,
        {
            if self.reaches(&parents[k], &tx_hash) {
                self.stats.cycles_prevented = self.stats.cycles_prevented.wrapping_add(1);
                let mut msg = String::new();
                msg.append("Circular dependency detected");
                proof {
                    reveal_strlit("Circular dependency detected");
                    assert(reachable(graph_of(old(self).parents_view()), ps[k as int], tx_hash@));
                    assert(self.children_view() == old(self).children_view());
                    assert(self.parents_view() == old(self).parents_view());
                    assert(self.levels_view() == old(self).levels_view());
                    assert(self.depth_view() == old(self).depth_view());
                }
                return Err(StorageError::OperationFailed(msg));
            }
            k = k + 1;
        }
        proof {
            assert(!closes_cycle(old(self).parents_view(), ps, tx_hash@));
        }
        depths_insert(&mut self.execution_depth, crate::bytes::copy_bytes(tx_hash.as_slice()), depth);
        links_insert(&mut self.child_to_parents, crate::bytes::copy_bytes(tx_hash.as_slice()), copy_list(&parents));
        let ghost c0 = self.children_view();
        let mut j: usize = 0;
        proof {
            assert(ps.take(0) =~= Seq::<Seq<u8>>::empty());
            assert(ps.no_duplicates()) by {
                lemma_mempool_parents_distinct(inputs, chain);
            }
        }
        while j < parents.len()
            invariant
                ps == key_views(parents@),
                ps == mempool_parents(tx@.inputs, chain_utxos@),
                tx_hash@ == hash_key_spec(tx.id),
                !old(self).depth_view().contains_key(tx_hash@),
                !closes_cycle(old(self).parents_view(), ps, tx_hash@),
                depth == depth_for(ps, old(self).depth_view()),
                j <= ps.len(),
                self.children_view().dom().finite(),
                lists_distinct(self.children_view()),
                self.children_view() == add_child(c0, ps.take(j as int), tx_hash@),
                self.parents_view() == old(self).parents_view().insert(tx_hash@, ps),
                self.depth_view() == old(self).depth_view().insert(tx_hash@, depth),
                self.depth_index == old(self).depth_index,
                self.stats == old(self).stats,
            decreases ps.len() - j,
        {
            let p = &parents[j];
            let mut list = match links_get(&self.parent_to_children, p.as_slice()) {
                Some(l) => l,
                None => Vec::new(),
            };
            let ghost before = key_views(list@);
            proof {
                assert(ps.take(j + 1).drop_last() =~= ps.take(j as int));
                assert(ps.take(j + 1).last() == p@);
                assert(before == list_or_empty(self.children_view(), p@)) by {
                    if !self.children_view().contains_key(p@) {
                        assert(before =~= Seq::<Seq<u8>>::empty());
                    }
                }
            }
            if !list_contains(&list, tx_hash.as_slice()) {
                list.push(crate::bytes::copy_bytes(tx_hash.as_slice()));
                proof {
                    assert(key_views(list@) =~= before.push(tx_hash@));
                    lemma_push_distinct(before, tx_hash@);
                }
            }
            links_insert(&mut self.parent_to_children, crate::bytes::copy_bytes(p.as_slice()), list);
            j = j + 1;
        }
        proof {
            assert(ps.take(ps.len() as int) =~= ps);
        }
        let mut level = match self.depth_index.remove(&depth) {
            Some(l) => l,
            None => Vec::new(),
        };
        let ghost lb = key_views(level@);
        proof {
            assert(lb == list_or_empty(old(self).levels_view(), depth)) by {
                if !old(self).levels_view().contains_key(depth) {
                    assert(lb =~= Seq::<Seq<u8>>::empty());
                }
            }
        }
        if !list_contains(&level, tx_hash.as_slice()) {
            level.push(crate::bytes::copy_bytes(tx_hash.as_slice()));
            proof {
                assert(key_views(level@) =~= lb.push(tx_hash@));
                lemma_push_distinct(lb, tx_hash@);
            }
        }
        self.depth_index.insert(depth, level);
        self.stats.total_tracked = self.stats.total_tracked.wrapping_add(1);
        self.stats.total_dependencies = self.stats.total_dependencies.wrapping_add(parents.len() as u64);
        proof {
            assert(self.levels_view() =~= old(self).levels_view().insert(depth, with_member(lb, tx_hash@)));
            let ol = old(self).levels_view();
            let od = old(self).depth_view();
            assert forall|d: u32, x: Seq<u8>| #[trigger] list_or_empty(self.levels_view(), d).contains(x)
                implies self.depth_view().contains_key(x) && self.depth_view()[x] == d by {
                if x != tx_hash@ {
                    if d == depth {
                        assert(list_or_empty(ol, d).contains(x)) by {
                            if !lb.contains(tx_hash@) {
                                assert(list_or_empty(self.levels_view(), d) == lb.push(tx_hash@));
                                let w = lb.push(tx_hash@).index_of(x);
                                assert(lb[w] == x);
                            }
                        }
                    } else {
                        assert(list_or_empty(self.levels_view(), d) == list_or_empty(ol, d));
                    }
                } else {
                    if d != depth {
                        assert(list_or_empty(self.levels_view(), d) == list_or_empty(ol, d));
                        assert(!od.contains_key(x));
                    }
                }
            }
            assert forall|x: Seq<u8>| #[trigger] self.depth_view().contains_key(x)
                implies list_or_empty(self.levels_view(), self.depth_view()[x]).contains(x) by {
                if x == tx_hash@ {
                    assert(with_member(lb, tx_hash@).contains(tx_hash@)) by {
                        if !lb.contains(tx_hash@) {
                            assert(lb.push(tx_hash@)[lb.len() as int] == tx_hash@);
                        }
                    }
                } else {
                    assert(od.contains_key(x));
                    assert(list_or_empty(ol, od[x]).contains(x));
                    if od[x] == depth {
                        let w = lb.index_of(x);
                        assert(with_member(lb, tx_hash@)[w] == x);
                    } else {
                        assert(list_or_empty(self.levels_view(), od[x]) == list_or_empty(ol, od[x]));
                    }
                }
            }
            assert forall|d: u32| #[trigger] self.levels_view().contains_key(d) implies self.levels_view()[d].no_duplicates() by {
                if d != depth {
                    assert(self.levels_view()[d] == old(self).levels_view()[d]);
                }
            }
            assert forall|x: Seq<u8>| #[trigger] self.parents_view().contains_key(x) implies self.parents_view()[x].no_duplicates() by {
                if x != tx_hash@ {
                    assert(self.parents_view()[x] == old(self).parents_view()[x]);
                }
            }
            lemma_insert_keeps_acyclic(old(self).parents_view(), tx_hash@, ps);
            assert(self.parents_view().dom() =~= self.depth_view().dom());
        }
        Ok(self.chain_of(&tx_hash, depth))
    }

    /// Moves `h` from level `from` to level `to` of the depth index.
    fn move_level(&mut self, h: &Vec<u8>, from: u32, to: u32)
        requires
            from != to,
            forall|d: u32| #[trigger] old(self).levels_view().contains_key(d) ==> old(self).levels_view()[d].no_duplicates(),
        ensures
            forall|d: u32| #[trigger] final(self).levels_view().contains_key(d) ==> final(self).levels_view()[d].no_duplicates(),
            forall|d: u32| d != from && d != to ==> #[trigger] list_or_empty(final(self).levels_view(), d) == list_or_empty(old(self).levels_view(), d),
            list_or_empty(final(self).levels_view(), from).to_set() == list_or_empty(old(self).levels_view(), from).to_set().remove(h@),
            list_or_empty(final(self).levels_view(), to).to_set() == list_or_empty(old(self).levels_view(), to).to_set().insert(h@),
            final(self).parent_to_children == old(self).parent_to_children,
            final(self).child_to_parents == old(self).child_to_parents,
            final(self).execution_depth == old(self).execution_depth,
            final(self).stats == old(self).stats,
    {
        let ghost ol = self.levels_view();
        let ghost oi = self.depth_index@;
        match self.depth_index.remove(&from) {
            Some(l) => {
                proof {
                    assert(oi.contains_key(from) && l == oi[from]);
                    assert(ol.contains_key(from));
                    assert(ol[from] == key_views(l@));
                }
                let l2 = without_hash(&l, h.as_slice());
                self.depth_index.insert(from, l2);
            },
            None => {},
        }
        let ghost ml = self.levels_view();
        proof {
            assert(list_or_empty(ml, from).to_set() =~= list_or_empty(ol, from).to_set().remove(h@)) by {
                if !ol.contains_key(from) {
                    assert(list_or_empty(ol, from).to_set() =~= Set::<Seq<u8>>::empty());
                    assert(ml =~= ol);
                }
            }
            assert(forall|d: u32| d != from ==> #[trigger] list_or_empty(ml, d) == list_or_empty(ol, d));
            assert forall|d: u32| #[trigger] ml.contains_key(d) implies ml[d].no_duplicates() by {
                if d != from {
                    assert(ml[d] == ol[d]);
                }
            }
        }
        let mut level = match self.depth_index.remove(&to) {
            Some(l) => l,
            None => Vec::new(),
        };
        let ghost lb = key_views(level@);
        proof {
            assert(lb == list_or_empty(ml, to)) by {
                if !ml.contains_key(to) {
                    assert(lb =~= Seq::<Seq<u8>>::empty());
                }
            }
        }
        if !list_contains(&level, h.as_slice()) {
            level.push(crate::bytes::copy_bytes(h.as_slice()));
            proof {
                assert(key_views(level@) =~= lb.push(h@));
                lemma_push_distinct(lb, h@);
            }
        }
        self.depth_index.insert(to, level);
        proof {
            assert(self.levels_view() =~= ml.insert(to, with_member(lb, h@)));
            assert(with_member(lb, h@).no_duplicates()) by {
                if !lb.contains(h@) {
                    lemma_push_distinct(lb, h@);
                }
            }
            assert forall|d: u32| #[trigger] self.levels_view().contains_key(d) implies self.levels_view()[d].no_duplicates() by {
                if d != to {
                    assert(self.levels_view()[d] == ml[d]);
                }
            }
            assert(with_member(lb, h@).to_set() =~= lb.to_set().insert(h@)) by {
                if !lb.contains(h@) {
                    lb.lemma_push_to_set_commute(h@);
                }
            }
        }
    }

    /// Recomputes the depth of a registered transaction from its parents and
    /// moves it in the depth index if it changed.
    fn recalculate_depth(&mut self, tx_hash: &Vec<u8>)
        requires
            old(self).wf(),
        ensures
            final(self).wf(),
            final(self).parents_view() == old(self).parents_view(),
            final(self).children_view() == old(self).children_view(),
            final(self).stats_view() == old(self).stats_view(),
            final(self).depth_view() == (if old(self).depth_view().contains_key(tx_hash@) {
                old(self).depth_view().insert(tx_hash@, recalc_value(old(self).parents_view(), old(self).depth_view(), tx_hash@))
            } else {
                old(self).depth_view()
            }),
    {
        let ghost pm = self.parents_view();
        let ghost dm = self.depth_view();
        let plist = links_get(&self.child_to_parents, tx_hash.as_slice());
        let mut max_depth: u32 = 0;
        let mut empty_parents = false;
        match &plist {
            Some(ps) => {
                let ghost pv = key_views(ps@);
                let mut k: usize = 0;
                while k < ps.len()
                    invariant
                        pv == key_views(ps@),
                        dm == self.depth_view(),
                        k <= pv.len(),
                        max_depth == max_parent_depth(pv.take(k as int), dm),
                    decreases pv.len() - k,
                {
                    proof {
                        assert(pv.take(k + 1).drop_last() =~= pv.take(k as int));
                        assert(pv.take(k + 1).last() == pv[k as int]);
                    }
                    match depths_get(&self.execution_depth, ps[k].as_slice()) {
                        Some(pd) => {
                            if pd > max_depth {
                                max_depth = pd;
                            }
                        },
                        None => {},
                    }
                    k = k + 1;
                }
                proof {
                    assert(pv.take(pv.len() as int) =~= pv);
                }
                empty_parents = ps.len() == 0;
            },
            None => {
                proof {
                    assert(list_or_empty(pm, tx_hash@) =~= Seq::<Seq<u8>>::empty());
                }
            },
        }
        let new_depth: u32 = if empty_parents { 0 } else { max_depth.wrapping_add(1) };
        proof {
            assert(new_depth == recalc_value(pm, dm, tx_hash@));
        }
        match depths_get(&self.execution_depth, tx_hash.as_slice()) {
            Some(old_depth) => {
                if old_depth != new_depth {
                    depths_insert(&mut self.execution_depth, crate::bytes::copy_bytes(tx_hash.as_slice()), new_depth);
                    let ghost ol = self.levels_view();
                    self.move_level(tx_hash, old_depth, new_depth);
                    proof {
                        let nl = self.levels_view();
                        let nd = self.depth_view();
                        assert(nd == dm.insert(tx_hash@, new_depth));
                        assert forall|d: u32, x: Seq<u8>| #[trigger] list_or_empty(nl, d).contains(x)
                            implies nd.contains_key(x) && nd[x] == d by {
                            if d == old_depth {
                                assert(list_or_empty(nl, d).to_set().contains(x));
                                assert(list_or_empty(ol, d).to_set().contains(x));
                            } else if d == new_depth {
                                assert(list_or_empty(nl, d).to_set().contains(x));
                                if x != tx_hash@ {
                                    assert(list_or_empty(ol, d).to_set().contains(x));
                                }
                            } else {
                                assert(list_or_empty(nl, d) == list_or_empty(ol, d));
                            }
                        }
                        assert forall|x: Seq<u8>| #[trigger] nd.contains_key(x)
                            implies list_or_empty(nl, nd[x]).contains(x) by {
                            if x == tx_hash@ {
                                assert(list_or_empty(nl, new_depth).to_set().contains(x));
                            } else {
                                assert(list_or_empty(ol, dm[x]).contains(x));
                                if dm[x] == old_depth {
                                    assert(list_or_empty(ol, old_depth).to_set().contains(x));
                                    assert(list_or_empty(nl, old_depth).to_set().contains(x));
                                } else if dm[x] == new_depth {
                                    assert(list_or_empty(ol, new_depth).to_set().contains(x));
                                    assert(list_or_empty(nl, new_depth).to_set().contains(x));
                                } else {
                                    assert(list_or_empty(nl, dm[x]) == list_or_empty(ol, dm[x]));
                                }
                            }
                        }
                    }
                    proof {
                        assert(self.depth_view().dom() =~= dm.dom());
                    }
                } else {
                    proof {
                        assert(dm.insert(tx_hash@, new_depth) =~= dm);
                    }
                }
            },
            None => {},
        }
    }

    /// Forgets the depth of `h` and takes it out of the depth index.
    fn drop_depth(&mut self, h: &Vec<u8>)
        requires
            old(self).wf_core(),
        ensures
            final(self).wf_core(),
            final(self).depth_view() == old(self).depth_view().remove(h@),
            final(self).parents_view() == old(self).parents_view(),
            final(self).children_view() == old(self).children_view(),
            final(self).stats_view() == old(self).stats_view(),
    {
        let ghost ol = self.levels_view();
        let ghost od = self.depth_view();
        match depths_remove(&mut self.execution_depth, h.as_slice()) {
            Some(d) => {
                match self.depth_index.remove(&d) {
                    Some(l) => {
                        let l2 = without_hash(&l, h.as_slice());
                        self.depth_index.insert(d, l2);
                    },
                    None => {},
                }
                proof {
                    let nl = self.levels_view();
                    let nd = self.depth_view();
                    assert(list_or_empty(nl, d).to_set() =~= list_or_empty(ol, d).to_set().remove(h@)) by {
                        if !ol.contains_key(d) {
                            assert(nl =~= ol);
                            assert(list_or_empty(ol, d).to_set() =~= Set::<Seq<u8>>::empty());
                        }
                    }
                    assert(forall|e: u32| e != d ==> #[trigger] list_or_empty(nl, e) == list_or_empty(ol, e));
                    assert forall|e: u32| #[trigger] nl.contains_key(e) implies nl[e].no_duplicates() by {
                        if e != d {
                            assert(nl[e] == ol[e]);
                        }
                    }
                    assert forall|e: u32, x: Seq<u8>| #[trigger] list_or_empty(nl, e).contains(x)
                        implies nd.contains_key(x) && nd[x] == e by {
                        if e == d {
                            assert(list_or_empty(nl, e).to_set().contains(x));
                            assert(list_or_empty(ol, e).contains(x));
                        } else {
                            assert(list_or_empty(ol, e).contains(x));
                        }
                    }
                    assert forall|x: Seq<u8>| #[trigger] nd.contains_key(x) implies list_or_empty(nl, nd[x]).contains(x) by {
                        assert(od.contains_key(x));
                        assert(list_or_empty(ol, od[x]).contains(x));
                        if od[x] == d {
                            assert(list_or_empty(ol, d).to_set().contains(x));
                            assert(list_or_empty(nl, d).to_set().contains(x));
                        }
                    }
                }
            },
            None => {
                proof {
                    assert(od.remove(h@) =~= od);
                }
            },
        }
    }

    /// Whether every parent `c` lists is in `e`, and it lists at least one.
    fn parents_all_in(&self, c: &Vec<u8>, e: &KeySet<Vec<u8>>) -> (b: bool)
        requires
            e.wf(),
        ensures
            b == orphaned_by(self.parents_view(), e@, c@),
    {
        match links_get(&self.child_to_parents, c.as_slice()) {
            None => false,
            Some(ps) => {
                if ps.len() == 0 {
                    proof {
                        assert(key_views(ps@).len() == 0);
                    }
                    return false;
                }
                let ghost pv = key_views(ps@);
                let mut m: usize = 0;
                while m < ps.len()
                    invariant
                        e.wf(),
                        pv == key_views(ps@),
                        pv == self.parents_view()[c@],
                        self.parents_view().contains_key(c@),
                        m <= ps@.len(),
                        forall|q: int| 0 <= q < m ==> e@.contains(#[trigger] pv[q]),
                    decreases ps@.len() - m,
                {
                    if !e.contains(&ps[m]) {
                        proof {
                            assert(pv[m as int] == ps@[m as int]@);
                            assert(pv.to_set().contains(pv[m as int]));
                        }
                        return false;
                    }
                    m = m + 1;
                }
                proof {
                    assert forall|x: Seq<u8>| pv.to_set().contains(x) implies e@.contains(x) by {
                        let q = pv.index_of(x);
                        assert(pv[q] == x);
                    }
                }
                true
            },
        }
    }

    /// The transactions removing `tx_hash` takes away: `tx_hash` and, again
    /// and again, every dependent of it all of whose parents are taken away.
    fn orphan_cascade(&self, tx_hash: &Vec<u8>) -> (e: KeySet<Vec<u8>>)
        requires
            self.wf(),
        ensures
            e.wf(),
            e.elem_seq().len() >= 1,
            e.elem_seq()[0] == tx_hash@,
            cascade_closed(self.children_view(), self.parents_view(), tx_hash@, e@),
    {
        let ghost h = tx_hash@;
        let ghost pm = self.parents_view();
        let ghost d = reach_plus(graph_of(self.children_view()), h);
        let cands = self.get_all_transitive_dependents(tx_hash);
        let ghost cv = key_views(cands@);
        let mut e: KeySet<Vec<u8>> = KeySet::new();
        e.insert(crate::bytes::copy_bytes(tx_hash.as_slice()));
        proof {
            cv.unique_seq_to_set();
            assert(e@ =~= set![h]);
            assert(e.elem_seq() =~= seq![h]);
        }
        let mut changed = true;
        while changed
            invariant
                self.wf(),
                e.wf(),
                pm == self.parents_view(),
                d == reach_plus(graph_of(self.children_view()), h),
                h == tx_hash@,
                cv == key_views(cands@),
                cv.no_duplicates(),
                cv.to_set() == d,
                cv.to_set().len() == cv.len(),
                e.elem_seq().len() >= 1,
                e.elem_seq()[0] == h,
                e@.contains(h),
                e@.subset_of(d.insert(h)),
                forall|c: Seq<u8>| #[trigger] e@.contains(c) && c != h ==> d.contains(c) && orphaned_by(pm, e@, c),
                !changed ==> forall|c: Seq<u8>| #[trigger] d.contains(c) && c != h && orphaned_by(pm, e@, c) ==> e@.contains(c),
            decreases cv.len() + 1 - e@.len(), (if changed { 1int } else { 0int }),
        {
            proof {
                e.lemma_view();
                vstd::set_lib::lemma_len_subset(e@, d.insert(h));
            }
            changed = false;
            let ghost e_start = e@;
            let mut i: usize = 0;
            while i < cands.len()
                invariant
                    self.wf(),
                    e.wf(),
                    pm == self.parents_view(),
                    d == reach_plus(graph_of(self.children_view()), h),
                    h == tx_hash@,
                    cv == key_views(cands@),
                    cv.to_set() == d,
                    i <= cv.len(),
                    e.elem_seq().len() >= 1,
                    e.elem_seq()[0] == h,
                    e@.contains(h),
                    e@.subset_of(d.insert(h)),
                    e_start.subset_of(e@),
                    e_start.finite(),
                    e@.finite(),
                    forall|c: Seq<u8>| #[trigger] e@.contains(c) && c != h ==> d.contains(c) && orphaned_by(pm, e@, c),
                    !changed ==> e@ == e_start,
                    changed ==> e@.len() > e_start.len(),
                    !changed ==> forall|j: int| 0 <= j < i && cv[j] != h && orphaned_by(pm, e@, #[trigger] cv[j]) ==> e@.contains(cv[j]),
                decreases cv.len() - i,
            {
                let c = &cands[i];
                proof {
                    assert(cv[i as int] == c@);
                    assert(cv.to_set().contains(c@));
                }
                if !e.contains(c) {
                    if self.parents_all_in(c, &e) {
                        let ghost e0 = e@;
                        let ghost s0 = e.elem_seq();
                        e.insert(crate::bytes::copy_bytes(c.as_slice()));
                        proof {
                            assert(e@ == e0.insert(c@));
                            assert(s0.len() >= 1 && e.elem_seq()[0] == s0[0]);
                            assert forall|x: Seq<u8>| #[trigger] e@.contains(x) && x != h implies d.contains(x) && orphaned_by(pm, e@, x) by {
                                if x != c@ {
                                    assert(e0.contains(x));
                                    assert(orphaned_by(pm, e0, x));
                                }
                                assert(pm[x].to_set().subset_of(e@));
                            }
                            assert(e@.len() == e0.len() + 1);
                        }
                        changed = true;
                    }
                }
                i = i + 1;
            }
            proof {
                vstd::set_lib::lemma_len_subset(e@, d.insert(h));
                assert(d.insert(h).len() <= d.len() + 1);
                assert(e@.len() <= cv.len() + 1);
                assert(changed ==> e@.len() > e_start.len());
                if !changed {
                    assert forall|c: Seq<u8>| #[trigger] d.contains(c) && c != h && orphaned_by(pm, e@, c) implies e@.contains(c) by {
                        assert(cv.to_set().contains(c));
                        let j = cv.index_of(c);
                        assert(cv[j] == c);
                    }
                }
            }
        }
        e
    }

    /// Removes `tx_hash` and, in cascade, every dependent all of whose
    /// parents are removed; the surviving children of removed transactions
    /// get their depth recomputed. Returns the removed transactions,
    /// `tx_hash` first.
    pub fn remove_transaction(&mut self, tx_hash: &Vec<u8>) -> (r: Vec<Vec<u8>>)
        requires
            old(self).wf(),
        ensures
            final(self).wf(),
            key_views(r@).len() >= 1,
            key_views(r@)[0] == tx_hash@,
            key_views(r@).no_duplicates(),
            cascade_closed(old(self).children_view(), old(self).parents_view(), tx_hash@, key_views(r@).to_set()),
            ({
                let e = key_views(r@).to_set();
                &&& final(self).parents_view() == old(self).parents_view().remove_keys(e)
                &&& final(self).children_view() == old(self).children_view().remove_keys(e)
                &&& final(self).depth_view().dom() == old(self).depth_view().dom().difference(e)
                &&& forall|x: Seq<u8>| #[trigger] final(self).depth_view().contains_key(x)
                    && !child_of_any(old(self).children_view(), e, x) ==> final(self).depth_view()[x] == old(self).depth_view()[x]
            }),
            final(self).stats_view() == (DependencyStats {
                cascading_evictions: old(self).stats_view().cascading_evictions.wrapping_add(r@.len() as u64),
                ..old(self).stats_view() }),
    {
        let ghost cm0 = self.children_view();
        let ghost pm0 = self.parents_view();
        let ghost dm0 = self.depth_view();
        let e_set = self.orphan_cascade(tx_hash);
        let evicted = e_set.to_vec();
        let ghost ev = key_views(evicted@);
        let ghost e = e_set@;
        proof {
            assert(ev.take(0).to_set() =~= Set::<Seq<u8>>::empty());
            assert(pm0.remove_keys(Set::empty()) =~= pm0);
            assert(cm0.remove_keys(Set::empty()) =~= cm0);
            assert(dm0.dom().difference(Set::empty()) =~= dm0.dom());
        }
        let mut i: usize = 0;
        while i < evicted.len()
            invariant
                self.wf(),
                e_set.wf(),
                e == e_set@,
                ev == key_views(evicted@),
                ev.no_duplicates(),
                ev.to_set() == e,
                cm0 == old(self).children_view(),
                pm0 == old(self).parents_view(),
                dm0 == old(self).depth_view(),
                pm0.dom() == dm0.dom(),
                acyclic(graph_of(pm0)),
                i <= ev.len(),
                self.parents_view() == pm0.remove_keys(ev.take(i as int).to_set()),
                self.children_view() == cm0.remove_keys(ev.take(i as int).to_set()),
                self.depth_view().dom() == dm0.dom().difference(ev.take(i as int).to_set()),
                forall|x: Seq<u8>| #[trigger] self.depth_view().contains_key(x) && !child_of_any(cm0, ev.take(i as int).to_set(), x)
                    ==> self.depth_view()[x] == dm0[x],
                self.stats == old(self).stats,
            decreases ev.len() - i,
        {
            let x = &evicted[i];
            let ghost xv = x@;
            let ghost done0 = ev.take(i as int).to_set();
            proof {
                assert(ev[i as int] == xv);
                assert(ev.take(i + 1) =~= ev.take(i as int).push(xv));
                ev.take(i as int).lemma_push_to_set_commute(xv);
                assert(!done0.contains(xv)) by {
                    if done0.contains(xv) {
                        let q = ev.take(i as int).index_of(xv);
                        assert(ev[q] == xv);
                    }
                }
            }
            let ghost done = done0.insert(xv);
            let kids = self.get_dependent_children(x);
            let ghost lv = key_views(kids@);
            proof {
                if cm0.contains_key(xv) {
                    assert(self.children_view().contains_key(xv));
                    assert(lv == cm0[xv]);
                } else {
                    assert(lv =~= Seq::<Seq<u8>>::empty());
                }
            }
            links_remove(&mut self.child_to_parents, x.as_slice());
            links_remove(&mut self.parent_to_children, x.as_slice());
            proof {
                assert(self.parents_view() =~= pm0.remove_keys(done));
                assert(self.children_view() =~= cm0.remove_keys(done));
                assert(forall|y: Seq<u8>| #[trigger] self.children_view().contains_key(y) ==> self.children_view()[y] == cm0[y]);
                assert(forall|y: Seq<u8>| #[trigger] self.parents_view().contains_key(y) ==> self.parents_view()[y] == pm0[y]);
            }
            self.drop_depth(x);
            proof {
                assert(self.depth_view().dom() =~= dm0.dom().difference(done));
                assert(self.parents_view().dom() =~= self.depth_view().dom());
                lemma_remove_keeps_acyclic(pm0, done);
                assert forall|y: Seq<u8>| #[trigger] self.depth_view().contains_key(y) && !child_of_any(cm0, done, y)
                    implies self.depth_view()[y] == dm0[y] by {
                    if child_of_any(cm0, done0, y) {
                        let z = choose|z: Seq<u8>| #[trigger] done0.contains(z) && cm0.contains_key(z) && cm0[z].contains(y);
                        assert(done.contains(z));
                    }
                }
            }
            let mut k: usize = 0;
            while k < kids.len()
                invariant
                    self.wf(),
                    e_set.wf(),
                    lv == key_views(kids@),
                    cm0.contains_key(xv) ==> lv == cm0[xv],
                    !cm0.contains_key(xv) ==> lv.len() == 0,
                    done.contains(xv),
                    k <= lv.len(),
                    self.parents_view() == pm0.remove_keys(done),
                    self.children_view() == cm0.remove_keys(done),
                    self.depth_view().dom() == dm0.dom().difference(done),
                    forall|y: Seq<u8>| #[trigger] self.depth_view().contains_key(y) && !child_of_any(cm0, done, y)
                        ==> self.depth_view()[y] == dm0[y],
                    self.stats == old(self).stats,
                decreases lv.len() - k,
            {
                let c = &kids[k];
                if !e_set.contains(c) {
                    let ghost dbefore = self.depth_view();
                    self.recalculate_depth(c);
                    proof {
                        assert(lv[k as int] == c@);
                        assert forall|y: Seq<u8>| #[trigger] self.depth_view().contains_key(y) && !child_of_any(cm0, done, y)
                            implies self.depth_view()[y] == dm0[y] by {
                            if y == c@ {
                                assert(done.contains(xv) && cm0.contains_key(xv) && cm0[xv].contains(y));
                            }
                            assert(self.depth_view()[y] == dbefore[y]);
                        }
                        assert(self.depth_view().dom() =~= dbefore.dom());
                    }
                }
                k = k + 1;
            }
            i = i + 1;
        }
        proof {
            assert(ev.take(ev.len() as int) =~= ev);
            e_set.lemma_view();
        }
        self.stats.cascading_evictions = self.stats.cascading_evictions.wrapping_add(evicted.len() as u64);
        evicted
    }

    /// The counters.
    pub fn get_stats(&self) -> (s: DependencyStats)
        ensures
            s == self.stats_view(),
    {
        self.stats
    }

    /// Forgets every transaction; the counters stay.
    pub fn clear(&mut self)
        ensures
            final(self).wf(),
            final(self).children_view() == no_links(),
            final(self).parents_view() == no_links(),
            final(self).depth_view() == no_depths(),
            final(self).levels_view() == Map::<u32, Seq<Seq<u8>>>::empty(),
            final(self).stats_view() == old(self).stats_view(),
    {
        links_clear(&mut self.parent_to_children);
        links_clear(&mut self.child_to_parents);
        depths_clear(&mut self.execution_depth);
        self.depth_index.clear();
        proof {
            assert(self.levels_view() =~= Map::<u32, Seq<Seq<u8>>>::empty());
            lemma_empty_acyclic(self.parents_view());
            assert(self.parents_view().dom() =~= self.depth_view().dom());
        }
    }
}

/// `c` is the chain of `h` at depth `d` over the parent lists `pm`.
pub open spec fn chain_matches(c: DependencyChain, pm: Map<Seq<u8>, Seq<Seq<u8>>>, h: Seq<u8>, d: u32) -> bool {
    &&& c.direct_parents.wf()
    &&& c.direct_parents@ == (if pm.contains_key(h) { pm[h].to_set() } else { Set::empty() })
    &&& c.all_ancestors.wf()
    &&& c.all_ancestors@ == reach_plus(graph_of(pm), h)
    &&& parents_first(pm, reach_plus(graph_of(pm), h), key_views(c.executable_sequence@))
    &&& key_views(c.executable_sequence@).to_set() == reach_plus(graph_of(pm), h)
    &&& c.execution_depth == d
}
} // verus!
