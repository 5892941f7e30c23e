//! Topological ordering of the registered transactions: every transaction
//! after all of its ancestors, built from the dependency manager's depth
//! index and ancestor sequences.

use vstd::prelude::*;
use crate::storage_error::StorageError;
use crate::advanced_dependency_manager::{TxDependencyManager, TxHash, reach_plus, graph_of, acyclic};
use crate::keyed::{KeyMap, KeySet, KeyOps, key_views, push_to_list, list_at, copy_list, list_contains};
use crate::reach::{edge, reachable, step_ok, walk_from_to, is_walk, lemma_reach_zero, lemma_reach_step};

verus! {

/// Each transaction and the transactions that depend on it.
pub type AdjacencyList = KeyMap<Vec<u8>, Vec<Vec<u8>>>;

/// Each transaction and the number of its ancestors.
pub type InDegreeMap = KeyMap<Vec<u8>, usize>;

/// Outcome of a topological sort.
pub struct TopologicalResult {
    /// The transactions, each after its ancestors
    pub sorted_transactions: Vec<TxHash>,
    /// 1 when some transactions could not be ordered, else 0
    pub cycles_detected: usize,
    /// The transactions that could not be ordered
    pub cycle_members: KeySet<Vec<u8>>,
}

/// Shape of the dependency graph.
#[derive(Clone, Copy, Debug)]
pub struct TopologyStats {
    pub total_transactions: usize,
    pub total_edges: usize,
    pub max_depth: u32,
    pub root_transactions: usize,
    pub leaf_transactions: usize,
}

/// The registered transactions of depth below `k`.
pub open spec fn nodes_below(dm: Map<Seq<u8>, u32>, k: int) -> Set<Seq<u8>> {
    Set::new(|x: Seq<u8>| dm.contains_key(x) && dm[x] < k)
}

/// Some registered transaction has depth `d`.
pub open spec fn level_used(dm: Map<Seq<u8>, u32>, d: int) -> bool {
    exists|x: Seq<u8>| #[trigger] dm.contains_key(x) && dm[x] == d
}

/// `k` is the first unused depth (or 2^32 when every depth is used).
pub open spec fn is_first_gap(dm: Map<Seq<u8>, u32>, k: int) -> bool {
    &&& 0 <= k <= 0x1_0000_0000
    &&& forall|j: int| 0 <= j < k ==> #[trigger] level_used(dm, j)
    &&& k < 0x1_0000_0000 ==> !level_used(dm, k)
}

/// The transactions the engine orders: those at the depths below the first
/// unused depth.
pub open spec fn ordered_nodes(dm: Map<Seq<u8>, u32>) -> Set<Seq<u8>> {
    nodes_below(dm, choose|k: int| is_first_gap(dm, k))
}

proof fn lemma_first_gap_unique(dm: Map<Seq<u8>, u32>, k: int)
    requires
        is_first_gap(dm, k),
    ensures
        ordered_nodes(dm) == nodes_below(dm, k),
{
    let c = choose|k: int| is_first_gap(dm, k);
    assert(is_first_gap(dm, c));
    if c < k {
        assert(level_used(dm, c));
    } else if k < c {
        assert(level_used(dm, k));
    }
}

/// The ancestors of `x` over the parent links of `pm`.
pub open spec fn ancestors(pm: Map<Seq<u8>, Seq<Seq<u8>>>, x: Seq<u8>) -> Set<Seq<u8>> {
    reach_plus(graph_of(pm), x)
}

/// The members of `n` that have `a` as an ancestor.
pub open spec fn dependents_in(pm: Map<Seq<u8>, Seq<Seq<u8>>>, n: Set<Seq<u8>>, a: Seq<u8>) -> Set<Seq<u8>> {
    Set::new(|x: Seq<u8>| n.contains(x) && ancestors(pm, x).contains(a))
}

/// The adjacency and in-degree maps built over the ordered transactions.
pub open spec fn structures_built(pm: Map<Seq<u8>, Seq<Seq<u8>>>, n: Set<Seq<u8>>,
    adj: AdjacencyList, deg: InDegreeMap) -> bool {
    &&& adj.wf()
    &&& deg.wf()
    &&& adj@.dom() == n
    &&& deg@.dom() == n
    &&& forall|x: Seq<u8>| #[trigger] deg@.contains_key(x) ==> deg@[x] == ancestors(pm, x).len() && ancestors(pm, x).finite()
    &&& forall|a: Seq<u8>| #[trigger] adj@.contains_key(a) ==> key_views(adj@[a]@).no_duplicates()
        && key_views(adj@[a]@).to_set() == dependents_in(pm, n, a)
}

/// `r` lists distinct members of `n`, each after all of its ancestors.
pub open spec fn ancestors_first(pm: Map<Seq<u8>, Seq<Seq<u8>>>, n: Set<Seq<u8>>, r: Seq<Seq<u8>>) -> bool {
    &&& r.no_duplicates()
    &&& forall|i: int| 0 <= i < r.len() ==> n.contains(#[trigger] r[i]) && ancestors(pm, r[i]).subset_of(r.take(i).to_set())
}

/// The members of `n` whose ancestors all lie in `r`.
spec fn ready_in(pm: Map<Seq<u8>, Seq<Seq<u8>>>, n: Set<Seq<u8>>, r: Set<Seq<u8>>) -> Set<Seq<u8>> {
    Set::new(|x: Seq<u8>| n.contains(x) && ancestors(pm, x).subset_of(r))
}

/// A walk of `m` steps from `x` within `s`, each step to a successor in `s`.
spec fn walk_within(g: Map<Seq<u8>, Set<Seq<u8>>>, s: Set<Seq<u8>>, x: Seq<u8>, m: nat) -> Seq<Seq<u8>>
    decreases m,
{
    if m == 0 {
        seq![x]
    } else {
        let y = choose|y: Seq<u8>| edge(g, x, y) && s.contains(y);
        seq![x] + walk_within(g, s, y, (m - 1) as nat)
    }
}

proof fn lemma_walk_within(g: Map<Seq<u8>, Set<Seq<u8>>>, s: Set<Seq<u8>>, x: Seq<u8>, m: nat)
    requires
        s.contains(x),
        forall|y: Seq<u8>| #[trigger] s.contains(y) ==> exists|z: Seq<u8>| edge(g, y, z) && s.contains(z),
    ensures
        walk_within(g, s, x, m).len() == m + 1,
        walk_within(g, s, x, m)[0] == x,
        forall|i: int| 0 <= i <= m ==> s.contains(#[trigger] walk_within(g, s, x, m)[i]),
        forall|i: int| 0 <= i < m ==> #[trigger] edge(g, walk_within(g, s, x, m)[i], walk_within(g, s, x, m)[i + 1]),
    decreases m,
{
    if m > 0 {
        let y = choose|y: Seq<u8>| edge(g, x, y) && s.contains(y);
        lemma_walk_within(g, s, y, (m - 1) as nat);
        let w = walk_within(g, s, x, m);
        let t = walk_within(g, s, y, (m - 1) as nat);
        assert(w == seq![x] + t);
        assert forall|i: int| 0 <= i <= m implies s.contains(#[trigger] w[i]) by {
            if i > 0 {
                assert(w[i] == t[i - 1]);
            }
        }
        assert forall|i: int| 0 <= i < m implies #[trigger] edge(g, w[i], w[i + 1]) by {
            if i > 0 {
                let k = i - 1;
                assert(edge(g, t[k], t[k + 1]));
                assert(w[i] == t[k] && w[i + 1] == t[k + 1]);
            }
        }
    }
}

proof fn lemma_steps_reach(g: Map<Seq<u8>, Set<Seq<u8>>>, w: Seq<Seq<u8>>, i: int, j: int)
    requires
        0 <= i <= j < w.len(),
        forall|k: int| 0 <= k < w.len() - 1 ==> #[trigger] edge(g, w[k], w[k + 1]),
    ensures
        reachable(g, w[i], w[j]),
    decreases j - i,
{
    if i == j {
        lemma_reach_zero(g, w[i]);
    } else {
        lemma_steps_reach(g, w, i, j - 1);
        let k = j - 1;
        assert(edge(g, w[k], w[k + 1]));
        lemma_reach_step(g, w[i], w[k], w[j]);
    }
}

/// In a finite set where every member has a successor in the set, some
/// member reaches itself.
proof fn lemma_successor_in_set_cycle(g: Map<Seq<u8>, Set<Seq<u8>>>, s: Set<Seq<u8>>, x: Seq<u8>) -> (c: Seq<u8>)
    requires
        s.finite(),
        s.contains(x),
        forall|y: Seq<u8>| #[trigger] s.contains(y) ==> exists|z: Seq<u8>| edge(g, y, z) && s.contains(z),
    ensures
        reach_plus(g, c).contains(c),
{
    let n = s.len();
    lemma_walk_within(g, s, x, n);
    let w = walk_within(g, s, x, n);
    if w.no_duplicates() {
        w.unique_seq_to_set();
        assert(w.to_set().subset_of(s)) by {
            assert forall|v: Seq<u8>| w.to_set().contains(v) implies s.contains(v) by {
                let i = w.index_of(v);
                assert(s.contains(w[i]));
            }
        }
        vstd::set_lib::lemma_len_subset(w.to_set(), s);
        assert(false);
    }
    let (i, j) = choose|i: int, j: int| 0 <= i < w.len() && 0 <= j < w.len() && i != j && w[i] == w[j];
    let (a, b) = if i < j { (i, j) } else { (j, i) };
    assert(edge(g, w[a], w[a + 1]));
    lemma_steps_reach(g, w, a + 1, b);
    assert(edge(g, w[a], w[a + 1]) && reachable(g, w[a + 1], w[a]));
    w[a]
}

/// The links from each transaction to each of its ancestors.
pub open spec fn ancestor_graph(pm: Map<Seq<u8>, Seq<Seq<u8>>>) -> Map<Seq<u8>, Set<Seq<u8>>> {
    Map::new(|x: Seq<u8>| true, |x: Seq<u8>| ancestors(pm, x))
}

pub proof fn lemma_reach_plus_trans(g: Map<Seq<u8>, Set<Seq<u8>>>, a: Seq<u8>, b: Seq<u8>, c: Seq<u8>)
    requires
        reach_plus(g, a).contains(b),
        reach_plus(g, b).contains(c),
    ensures
        reach_plus(g, a).contains(c),
{
    let y = choose|y: Seq<u8>| #[trigger] edge(g, a, y) && reachable(g, y, b);
    let z = choose|z: Seq<u8>| #[trigger] edge(g, b, z) && reachable(g, z, c);
    lemma_reach_step(g, y, b, z);
    lemma_reach_trans(g, y, z, c);
    assert(edge(g, a, y) && reachable(g, y, c));
}

pub proof fn lemma_reach_trans(g: Map<Seq<u8>, Set<Seq<u8>>>, a: Seq<u8>, b: Seq<u8>, c: Seq<u8>)
    requires
        reachable(g, a, b),
        reachable(g, b, c),
    ensures
        reachable(g, a, c),
{
    let p = choose|p: Seq<Seq<u8>>| #[trigger] walk_from_to(g, p, a, b);
    let q = choose|q: Seq<Seq<u8>>| #[trigger] walk_from_to(g, q, b, c);
    let w = p + q.drop_first();
    assert forall|i: int| 0 <= i < w.len() - 1 implies #[trigger] step_ok(g, w, i) by {
        if i < p.len() - 1 {
            assert(step_ok(g, p, i));
        } else if i == p.len() - 1 {
            assert(step_ok(g, q, 0));
        } else {
            assert(step_ok(g, q, i - p.len() + 1));
        }
    }
    assert(walk_from_to(g, w, a, c));
}

/// A cycle among ancestor links is a cycle among parent links.
proof fn lemma_ancestor_cycle(pm: Map<Seq<u8>, Seq<Seq<u8>>>, c: Seq<u8>)
    requires
        reach_plus(ancestor_graph(pm), c).contains(c),
    ensures
        !acyclic(graph_of(pm)),
{
    let ga = ancestor_graph(pm);
    let g = graph_of(pm);
    let y = choose|y: Seq<u8>| #[trigger] edge(ga, c, y) && reachable(ga, y, c);
    let w = choose|w: Seq<Seq<u8>>| #[trigger] walk_from_to(ga, w, y, c);
    assert(reach_plus(g, c).contains(y));
    if w.len() == 1 {
        assert(y == c);
    } else {
        lemma_ancestor_walk(pm, w, w.len() - 1);
        lemma_reach_plus_trans(g, c, y, c);
    }
}

proof fn lemma_ancestor_walk(pm: Map<Seq<u8>, Seq<Seq<u8>>>, w: Seq<Seq<u8>>, k: int)
    requires
        is_walk(ancestor_graph(pm), w),
        0 < k < w.len(),
    ensures
        reach_plus(graph_of(pm), w[0]).contains(w[k]),
    decreases k,
{
    assert(step_ok(ancestor_graph(pm), w, k - 1));
    if k > 1 {
        lemma_ancestor_walk(pm, w, k - 1);
        lemma_reach_plus_trans(graph_of(pm), w[0], w[k - 1], w[k]);
    }
}


pub proof fn lemma_push_distinct(p: Seq<Seq<u8>>, x: Seq<u8>)
    requires
        p.no_duplicates(),
        !p.contains(x),
    ensures
        p.push(x).no_duplicates(),
        p.push(x).to_set() == p.to_set().insert(x),
{
    assert forall|i: int, j: int| 0 <= i < p.push(x).len() && 0 <= j < p.push(x).len() && i != j
        implies p.push(x)[i] != p.push(x)[j] by {
        if i == p.len() {
            assert(p[j] == p.push(x)[j]);
        } else if j == p.len() {
            assert(p[i] == p.push(x)[i]);
        }
    }
    p.lemma_push_to_set_commute(x);
}

/// The transactions the engine orders: every registered transaction at a
/// depth below the first depth with none.
fn collect_nodes(deps: &TxDependencyManager) -> (r: KeySet<Vec<u8>>)
    requires
        deps.wf(),
    ensures
        r.wf(),
        r@ == ordered_nodes(deps.depth_view()),
{
    let ghost dm = deps.depth_view();
    let mut all: KeySet<Vec<u8>> = KeySet::new();
    let mut depth: u32 = 0;
    proof {
        assert(all@ =~= nodes_below(dm, 0));
        assert(dm.dom() == deps.parents_view().dom());
    }
    loop
        invariant_except_break
            deps.wf(),
            dm == deps.depth_view(),
            dm.dom().finite(),
            all.wf(),
            all@ == nodes_below(dm, depth as int),
            forall|j: int| 0 <= j < depth ==> #[trigger] level_used(dm, j),
        ensures
            all.wf(),
            all@ == ordered_nodes(dm),
        decreases dm.dom().len() - all@.len(),
    {
        let level = deps.get_transactions_at_depth(depth);
        let ghost lv = key_views(level@);
        if level.len() == 0 {
            proof {
                assert(!level_used(dm, depth as int)) by {
                    if level_used(dm, depth as int) {
                        let x = choose|x: Seq<u8>| #[trigger] dm.contains_key(x) && dm[x] == depth;
                        assert(lv.contains(x));
                    }
                }
                assert(is_first_gap(dm, depth as int));
                lemma_first_gap_unique(dm, depth as int);
            }
            break;
        }
        let ghost before = all@;
        let mut i: usize = 0;
        while i < level.len()
            invariant
                lv == key_views(level@),
                i <= lv.len(),
                all.wf(),
                all@ == before + lv.take(i as int).to_set(),
            decreases lv.len() - i,
        {
            proof {
                assert(lv.take(i + 1) =~= lv.take(i as int).push(lv[i as int]));
                lv.take(i as int).lemma_push_to_set_commute(lv[i as int]);
            }
            all.insert(level[i].key_clone());
            i = i + 1;
            proof {
                assert(all@ =~= before + lv.take(i as int).to_set());
            }
        }
        proof {
            assert(lv.take(lv.len() as int) =~= lv);
            assert(all@ =~= nodes_below(dm, depth + 1)) by {
                assert forall|x: Seq<u8>| nodes_below(dm, depth + 1).contains(x) implies all@.contains(x) by {
                    if dm[x] == depth {
                        assert(lv.contains(x));
                        let w = lv.index_of(x);
                        assert(lv.to_set().contains(lv[w]));
                    }
                }
            }
            assert(level_used(dm, depth as int)) by {
                assert(lv.contains(lv[0]));
            }
            assert(lv.contains(lv[0]));
            assert(dm.contains_key(lv[0]) && dm[lv[0]] == depth);
            assert(!before.contains(lv[0]));
            assert(all@.contains(lv[0]));
            assert(all@.subset_of(dm.dom()));
            vstd::set_lib::lemma_len_subset(all@, dm.dom());
            vstd::set_lib::lemma_len_subset(before, dm.dom());
            assert(before.subset_of(all@.remove(lv[0])));
            vstd::set_lib::lemma_len_subset(before, all@.remove(lv[0]));
        }
        match depth.checked_add(1) {
            Some(d) => {
                depth = d;
            },
            None => {
                proof {
                    assert(forall|j: int| 0 <= j < 0x1_0000_0000 ==> #[trigger] level_used(dm, j));
                    assert(is_first_gap(dm, 0x1_0000_0000));
                    lemma_first_gap_unique(dm, 0x1_0000_0000);
                    assert(all@ =~= nodes_below(dm, 0x1_0000_0000));
                }
                break;
            },
        }
    }
    all
}

/// The adjacency map (each ordered transaction to those that have it as an
/// ancestor) and the in-degree map (each to its number of ancestors).
fn build_adjacency_structures(deps: &TxDependencyManager) -> (r: (AdjacencyList, InDegreeMap))
    requires
        deps.wf(),
    ensures
        structures_built(deps.parents_view(), ordered_nodes(deps.depth_view()), r.0, r.1),
{
    let ghost pm = deps.parents_view();
    let all = collect_nodes(deps);
    let ghost n = all@;
    proof {
        all.lemma_view();
    }
    let ghost ns = all.elem_seq();
    let count = all.len();
    let mut adj: AdjacencyList = KeyMap::new();
    let mut deg: InDegreeMap = KeyMap::new();
    let mut i: usize = 0;
    proof {
        assert(ns.take(0).to_set() =~= Set::<Seq<u8>>::empty());
    }
    while i < count
        invariant
            all.wf(),
            n == all@,
            ns == all.elem_seq(),
            ns.no_duplicates(),
            ns.to_set() == n,
            count == ns.len(),
            i <= count,
            adj.wf(),
            deg.wf(),
            adj@.dom() == ns.take(i as int).to_set(),
            deg@.dom() == ns.take(i as int).to_set(),
            forall|a: Seq<u8>| #[trigger] adj@.contains_key(a) ==> key_views(adj@[a]@) == Seq::<Seq<u8>>::empty(),
        decreases count - i,
    {
        proof {
            assert(ns.take(i + 1) =~= ns.take(i as int).push(ns[i as int]));
            ns.take(i as int).lemma_push_to_set_commute(ns[i as int]);
        }
        let x = all.elem_at(i);
        let empty: Vec<Vec<u8>> = Vec::new();
        proof {
            assert(key_views(empty@) =~= Seq::<Seq<u8>>::empty());
        }
        adj.insert(x.key_clone(), empty);
        deg.insert(x.key_clone(), 0);
        i = i + 1;
    }
    proof {
        assert(ns.take(count as int) =~= ns);
    }
    i = 0;
    proof {
        assert forall|a: Seq<u8>| #[trigger] adj@.contains_key(a) implies key_views(adj@[a]@).no_duplicates()
            && key_views(adj@[a]@).to_set() == Set::new(|x: Seq<u8>| ns.take(0).to_set().contains(x) && ancestors(pm, x).contains(a)) by {
            assert(key_views(adj@[a]@).to_set() =~= Set::new(|x: Seq<u8>| ns.take(0).to_set().contains(x) && ancestors(pm, x).contains(a)));
        }
    }
    while i < count
        invariant
            deps.wf(),
            pm == deps.parents_view(),
            all.wf(),
            n == all@,
            ns == all.elem_seq(),
            ns.no_duplicates(),
            ns.to_set() == n,
            count == ns.len(),
            i <= count,
            adj.wf(),
            deg.wf(),
            adj@.dom() == n,
            deg@.dom() == n,
            forall|x: Seq<u8>| #[trigger] deg@.contains_key(x) && ns.take(i as int).to_set().contains(x)
                ==> deg@[x] == ancestors(pm, x).len() && ancestors(pm, x).finite(),
            forall|a: Seq<u8>| #[trigger] adj@.contains_key(a) ==> key_views(adj@[a]@).no_duplicates()
                && key_views(adj@[a]@).to_set() == Set::new(|x: Seq<u8>| ns.take(i as int).to_set().contains(x) && ancestors(pm, x).contains(a)),
        decreases count - i,
    {
        let x = all.elem_at(i);
        let ghost xv = x@;
        let ghost done = ns.take(i as int).to_set();
        proof {
            assert(ns.take(i + 1) =~= ns.take(i as int).push(ns[i as int]));
            ns.take(i as int).lemma_push_to_set_commute(ns[i as int]);
            assert(!done.contains(xv)) by {
                if done.contains(xv) {
                    let w = ns.take(i as int).index_of(xv);
                    assert(ns[w] == ns[i as int]);
                }
            }
        }
        let anc = deps.get_executable_ancestors(x);
        let ghost av = key_views(anc@);
        proof {
            assert(av.to_set() == ancestors(pm, xv));
            assert(av.no_duplicates());
            vstd::seq_lib::seq_to_set_is_finite(av);
            av.unique_seq_to_set();
        }
        let mut j: usize = 0;
        while j < anc.len()
            invariant
                av == key_views(anc@),
                av.no_duplicates(),
                j <= av.len(),
                adj.wf(),
                adj@.dom() == n,
                x@ == xv,
                n.contains(xv),
                !done.contains(xv),
                forall|a: Seq<u8>| #[trigger] adj@.contains_key(a) ==> key_views(adj@[a]@).no_duplicates()
                    && key_views(adj@[a]@).to_set() == (if av.take(j as int).contains(a) {
                        Set::new(|x: Seq<u8>| done.contains(x) && ancestors(pm, x).contains(a)).insert(xv)
                    } else {
                        Set::new(|x: Seq<u8>| done.contains(x) && ancestors(pm, x).contains(a))
                    }),
            decreases av.len() - j,
        {
            let a = &anc[j];
            let ghost ak = a@;
            proof {
                assert(av[j as int] == ak);
                assert(av.take(j + 1) =~= av.take(j as int).push(ak));
                av.take(j as int).lemma_push_to_set_commute(ak);
                assert(!av.take(j as int).contains(ak)) by {
                    if av.take(j as int).contains(ak) {
                        let w = av.take(j as int).index_of(ak);
                        assert(av[w] == av[j as int]);
                    }
                }
            }
            if adj.contains_key(a) {
                let ghost before = adj@;
                let kc = a.key_clone();
                let xc = x.key_clone();
                proof {
                    assert(kc@ == ak);
                    assert(xc@ == xv);
                }
                push_to_list(&mut adj, kc, xc);
                proof {
                    let old_lst = list_at::<Vec<u8>, Vec<u8>>(before, ak);
                    assert(key_views(adj@[ak]@) == old_lst.push(xv));
                    assert(old_lst == key_views(before[ak]@));
                    assert(!old_lst.to_set().contains(xv));
                    assert(!old_lst.contains(xv)) by {
                        if old_lst.contains(xv) {
                            let w = old_lst.index_of(xv);
                            assert(old_lst.to_set().contains(old_lst[w]));
                        }
                    }
                    lemma_push_distinct(old_lst, xv);
                    assert forall|q: Seq<u8>| #[trigger] adj@.contains_key(q) implies key_views(adj@[q]@).no_duplicates()
                        && key_views(adj@[q]@).to_set() == (if av.take(j + 1).contains(q) {
                            Set::new(|x: Seq<u8>| done.contains(x) && ancestors(pm, x).contains(q)).insert(xv)
                        } else {
                            Set::new(|x: Seq<u8>| done.contains(x) && ancestors(pm, x).contains(q))
                        }) by {
                        if q != ak {
                            assert(av.take(j + 1).contains(q) == av.take(j as int).contains(q)) by {
                                assert(av.take(j + 1).to_set() == av.take(j as int).to_set().insert(ak));
                            }
                            assert(before.contains_key(q));
                            assert(adj@[q] == before[q]);
                        } else {
                            assert(av.take(j + 1)[j as int] == ak);
                            assert(av.take(j + 1).contains(q));
                            assert(key_views(adj@[q]@) == old_lst.push(xv));
                            assert(old_lst.to_set() == Set::new(|x: Seq<u8>| done.contains(x) && ancestors(pm, x).contains(q)));
                        }
                    }
                }
            } else {
                proof {
                    assert forall|q: Seq<u8>| #[trigger] adj@.contains_key(q) implies key_views(adj@[q]@).no_duplicates()
                        && key_views(adj@[q]@).to_set() == (if av.take(j + 1).contains(q) {
                            Set::new(|x: Seq<u8>| done.contains(x) && ancestors(pm, x).contains(q)).insert(xv)
                        } else {
                            Set::new(|x: Seq<u8>| done.contains(x) && ancestors(pm, x).contains(q))
                        }) by {
                        assert(q != ak);
                        assert(av.take(j + 1).contains(q) == av.take(j as int).contains(q)) by {
                            assert(av.take(j + 1).to_set() == av.take(j as int).to_set().insert(ak));
                        }
                    }
                }
            }
            j = j + 1;
        }
        deg.insert(x.key_clone(), anc.len());
        proof {
            assert(av.take(av.len() as int) =~= av);
            let done2 = ns.take(i + 1).to_set();
            assert(done2 == done.insert(xv));
            assert forall|q: Seq<u8>| #[trigger] adj@.contains_key(q) implies key_views(adj@[q]@).no_duplicates()
                && key_views(adj@[q]@).to_set() == Set::new(|x: Seq<u8>| done2.contains(x) && ancestors(pm, x).contains(q)) by {
                assert(av.contains(q) == av.to_set().contains(q));
                assert(key_views(adj@[q]@).to_set() =~= Set::new(|x: Seq<u8>| done2.contains(x) && ancestors(pm, x).contains(q)));
            }
        }
        i = i + 1;
    }
    proof {
        assert(ns.take(count as int) =~= ns);
        assert forall|a: Seq<u8>| #[trigger] adj@.contains_key(a) implies key_views(adj@[a]@).no_duplicates()
            && key_views(adj@[a]@).to_set() == dependents_in(pm, n, a) by {
            assert(key_views(adj@[a]@).to_set() =~= dependents_in(pm, n, a));
        }
    }
    (adj, deg)
}


/// The ordered transactions whose ancestors are all ordered transactions.
pub open spec fn closed_nodes(pm: Map<Seq<u8>, Seq<Seq<u8>>>, n: Set<Seq<u8>>) -> Set<Seq<u8>> {
    Set::new(|x: Seq<u8>| n.contains(x) && ancestors(pm, x).subset_of(n))
}

/// What a sort over the nodes `n` must give: each node after its
/// ancestors, exactly the nodes whose ancestors are all nodes, and the rest
/// reported as cycle members.
pub open spec fn sort_result(pm: Map<Seq<u8>, Seq<Seq<u8>>>, n: Set<Seq<u8>>, res: TopologicalResult) -> bool {
    let s = key_views(res.sorted_transactions@);
    &&& ancestors_first(pm, n, s)
    &&& s.to_set() == closed_nodes(pm, n)
    &&& res.cycles_detected == (if s.len() == n.len() { 0usize } else { 1usize })
    &&& res.cycle_members.wf()
    &&& res.cycle_members@ == n.difference(s.to_set())
}

/// Kahn's algorithm over built structures: repeatedly output a node whose
/// ancestors are all output.
fn kahn_sort(Ghost(pm): Ghost<Map<Seq<u8>, Seq<Seq<u8>>>>, adj: &AdjacencyList, in_degree: &InDegreeMap) -> (res: TopologicalResult)
    requires
        structures_built(pm, adj@.dom(), *adj, *in_degree),
        adj@.dom().finite(),
        acyclic(graph_of(pm)),
    ensures
        sort_result(pm, adj@.dom(), res),
{
    let ghost n = adj@.dom();
    let mut deg = in_degree.duplicate();
    proof {
        in_degree.lemma_view();
    }
    let count = in_degree.len();
    let mut queue: Vec<Vec<u8>> = Vec::new();
    let mut i: usize = 0;
    let ghost ks = in_degree.key_seq();
    proof {
        assert(key_views(queue@).to_set() =~= Set::<Seq<u8>>::empty());
        assert(ks.take(0).to_set() =~= Set::<Seq<u8>>::empty());
    }
    while i < count
        invariant
            structures_built(pm, n, *adj, *in_degree),
            n == adj@.dom(),
            n.finite(),
            deg.wf(),
            deg@ == in_degree@,
            ks == in_degree.key_seq(),
            ks.no_duplicates(),
            ks.to_set() == n,
            count == ks.len(),
            i <= count,
            key_views(queue@).no_duplicates(),
            key_views(queue@).to_set() == ready_in(pm, n, Set::empty()).intersect(ks.take(i as int).to_set()),
        decreases count - i,
    {
        proof {
            assert(ks.take(i + 1) =~= ks.take(i as int).push(ks[i as int]));
            ks.take(i as int).lemma_push_to_set_commute(ks[i as int]);
            in_degree.lemma_view();
        }
        let k = in_degree.key_at(i);
        let d = in_degree.value_at(i);
        let ghost kv = k@;
        proof {
            assert(kv == ks[i as int]);
            assert(n.contains(kv));
            assert(*d == ancestors(pm, kv).len());
        }
        if *d == 0 {
            let ghost before = key_views(queue@);
            proof {
                assert(!before.contains(kv)) by {
                    if before.contains(kv) {
                        assert(before.to_set().contains(kv));
                        let w = ks.take(i as int).index_of(kv);
                        assert(ks[w] == ks[i as int]);
                    }
                }
                lemma_push_distinct(before, kv);
                vstd::set_lib::lemma_set_empty_equivalency_len(ancestors(pm, kv));
            }
            queue.push(k.key_clone());
            proof {
                assert(key_views(queue@) =~= before.push(kv));
                assert(key_views(queue@).to_set() =~= ready_in(pm, n, Set::empty()).intersect(ks.take(i + 1).to_set()));
            }
        } else {
            proof {
                if ancestors(pm, kv).subset_of(Set::empty()) {
                    assert(ancestors(pm, kv) =~= Set::<Seq<u8>>::empty());
                }
                assert(key_views(queue@).to_set() =~= ready_in(pm, n, Set::empty()).intersect(ks.take(i + 1).to_set()));
            }
        }
        i = i + 1;
    }
    proof {
        assert(ks.take(count as int) =~= ks);
        assert(ready_in(pm, n, Set::empty()).intersect(n) =~= ready_in(pm, n, Set::empty()));
        assert forall|a: Seq<u8>| #[trigger] deg@.contains_key(a) implies deg@[a]
            == ancestors(pm, a).difference(Set::<Seq<u8>>::empty()).len() by {
            assert(ancestors(pm, a).difference(Set::<Seq<u8>>::empty()) =~= ancestors(pm, a));
        }
    }
    let mut result: Vec<Vec<u8>> = Vec::new();
    let mut qi: usize = 0;
    proof {
        assert(key_views(result@) =~= key_views(queue@).take(0));
    }
    while qi < queue.len()
        invariant
            structures_built(pm, n, *adj, *in_degree),
            n == adj@.dom(),
            n.finite(),
            deg.wf(),
            deg@.dom() == n,
            qi <= queue@.len(),
            key_views(result@) == key_views(queue@).take(qi as int),
            key_views(queue@).no_duplicates(),
            key_views(queue@).to_set() == ready_in(pm, n, key_views(result@).to_set()),
            forall|a: Seq<u8>| #[trigger] deg@.contains_key(a) ==> deg@[a]
                == ancestors(pm, a).difference(key_views(result@).to_set()).len(),
            ancestors_first(pm, n, key_views(result@)),
        decreases n.len() - qi,
    {
        let cur = queue[qi].key_clone();
        let ghost rv = key_views(result@);
        let ghost rset = rv.to_set();
        let ghost qv = key_views(queue@);
        proof {
            assert(qv[qi as int] == cur@);
            assert(qv.to_set().contains(cur@));
            assert(!rv.contains(cur@)) by {
                if rv.contains(cur@) {
                    let j = rv.index_of(cur@);
                    assert(qv[j] == qv[qi as int]);
                }
            }
            lemma_push_distinct(rv, cur@);
            assert(qv.take(qi + 1) =~= rv.push(cur@));
        }
        result.push(cur.key_clone());
        let ghost rset2 = rset.insert(cur@);
        proof {
            assert(key_views(result@) =~= rv.push(cur@));
            assert(ancestors_first(pm, n, key_views(result@))) by {
                let r2 = key_views(result@);
                assert forall|j: int| 0 <= j < r2.len() implies n.contains(#[trigger] r2[j])
                    && ancestors(pm, r2[j]).subset_of(r2.take(j).to_set()) by {
                    if j < rv.len() {
                        assert(r2[j] == rv[j]);
                        assert(r2.take(j) =~= rv.take(j));
                    } else {
                        assert(r2.take(j) =~= rv);
                    }
                }
            }
        }
        let list = match adj.get(&cur) {
            Some(l) => copy_list(l),
            None => Vec::new(),
        };
        let ghost lv = key_views(list@);
        proof {
            assert(adj@.contains_key(cur@));
            assert(lv.to_set() == dependents_in(pm, n, cur@));
        }
        let mut k: usize = 0;
        while k < list.len()
            invariant
                structures_built(pm, n, *adj, *in_degree),
                n.finite(),
                deg.wf(),
                deg@.dom() == n,
                lv == key_views(list@),
                lv.no_duplicates(),
                lv.to_set() == dependents_in(pm, n, cur@),
                n.contains(cur@),
                !rset.contains(cur@),
                rset2 == rset.insert(cur@),
                k <= lv.len(),
                key_views(result@).to_set() == rset2,
                key_views(queue@).take(qi + 1) == key_views(result@),
                key_views(queue@).len() >= qi + 1,
                key_views(queue@).no_duplicates(),
                key_views(queue@).to_set() == ready_in(pm, n, rset) + ready_in(pm, n, rset2).intersect(lv.take(k as int).to_set()),
                forall|a: Seq<u8>| #[trigger] deg@.contains_key(a) ==> deg@[a]
                    == ancestors(pm, a).difference(if lv.take(k as int).contains(a) { rset2 } else { rset }).len(),
            decreases lv.len() - k,
        {
            let c = &list[k];
            let ghost cv = c@;
            proof {
                assert(lv[k as int] == cv);
                assert(lv.take(k + 1) =~= lv.take(k as int).push(cv));
                lv.take(k as int).lemma_push_to_set_commute(cv);
                assert(!lv.take(k as int).contains(cv)) by {
                    if lv.take(k as int).contains(cv) {
                        let j = lv.take(k as int).index_of(cv);
                        assert(lv[j] == lv[k as int]);
                    }
                }
                assert(dependents_in(pm, n, cur@).contains(cv));
                assert(ancestors(pm, cv).contains(cur@));
                assert(deg@.contains_key(cv));
                assert(in_degree@.contains_key(cv));
                assert(ancestors(pm, cv).finite());
                assert(ancestors(pm, cv).difference(rset).contains(cur@));
                assert(ancestors(pm, cv).difference(rset2) =~= ancestors(pm, cv).difference(rset).remove(cur@));
                vstd::set::axiom_set_difference_finite(ancestors(pm, cv), rset);
                vstd::set::axiom_set_difference_finite(ancestors(pm, cv), rset2);
                vstd::set::axiom_set_remove_len(ancestors(pm, cv).difference(rset), cur@);
            }
            let d = match deg.get(c) {
                Some(d) => *d,
                None => 0,
            };
            proof {
                assert(d == ancestors(pm, cv).difference(rset).len());
                assert(d >= 1);
            }
            deg.insert(c.key_clone(), d - 1);
            proof {
                assert forall|a: Seq<u8>| #[trigger] deg@.contains_key(a) implies deg@[a]
                    == ancestors(pm, a).difference(if lv.take(k + 1).contains(a) { rset2 } else { rset }).len() by {
                    if a != cv {
                        assert(lv.take(k + 1).contains(a) == lv.take(k as int).contains(a)) by {
                            assert(lv.take(k + 1).to_set() == lv.take(k as int).to_set().insert(cv));
                        }
                    } else {
                        assert(lv.take(k + 1)[k as int] == cv);
                        assert(lv.take(k + 1).contains(cv));
                    }
                }
            }
            if d - 1 == 0 {
                let ghost before = key_views(queue@);
                proof {
                    assert(!before.contains(cv)) by {
                        if before.contains(cv) {
                            assert(before.to_set().contains(cv));
                            assert(!ready_in(pm, n, rset).contains(cv));
                        }
                    }
                    lemma_push_distinct(before, cv);
                }
                queue.push(c.key_clone());
                proof {
                    assert(key_views(queue@) =~= before.push(cv));
                    assert(key_views(queue@).take(qi + 1) =~= before.take(qi + 1));
                    vstd::set_lib::lemma_set_empty_equivalency_len(ancestors(pm, cv).difference(rset2));
                    assert(ancestors(pm, cv).subset_of(rset2)) by {
                        assert forall|z: Seq<u8>| ancestors(pm, cv).contains(z) implies rset2.contains(z) by {
                            if !rset2.contains(z) {
                                assert(ancestors(pm, cv).difference(rset2).contains(z));
                            }
                        }
                    }
                    assert(key_views(queue@).to_set() =~= ready_in(pm, n, rset) + ready_in(pm, n, rset2).intersect(lv.take(k + 1).to_set()));
                }
            } else {
                proof {
                    assert(!ancestors(pm, cv).subset_of(rset2)) by {
                        vstd::set_lib::lemma_set_empty_equivalency_len(ancestors(pm, cv).difference(rset2));
                        let z = choose|z: Seq<u8>| ancestors(pm, cv).difference(rset2).contains(z);
                        assert(ancestors(pm, cv).difference(rset2).contains(z));
                    }
                    assert(key_views(queue@).to_set() =~= ready_in(pm, n, rset) + ready_in(pm, n, rset2).intersect(lv.take(k + 1).to_set()));
                }
            }
            k = k + 1;
        }
        proof {
            assert(lv.take(lv.len() as int) =~= lv);
            assert forall|a: Seq<u8>| #[trigger] deg@.contains_key(a) implies deg@[a]
                == ancestors(pm, a).difference(rset2).len() by {
                if !lv.contains(a) {
                    assert(!dependents_in(pm, n, cur@).contains(a)) by {
                        if dependents_in(pm, n, cur@).contains(a) {
                            assert(lv.to_set().contains(a));
                        }
                    }
                    assert(ancestors(pm, a).difference(rset2) =~= ancestors(pm, a).difference(rset));
                }
            }
            assert(key_views(queue@).to_set() =~= ready_in(pm, n, rset2)) by {
                assert forall|a: Seq<u8>| ready_in(pm, n, rset2).contains(a) implies key_views(queue@).to_set().contains(a) by {
                    if !lv.contains(a) {
                        assert(!dependents_in(pm, n, cur@).contains(a)) by {
                            if dependents_in(pm, n, cur@).contains(a) {
                                assert(lv.to_set().contains(a));
                            }
                        }
                        assert(!ancestors(pm, a).contains(cur@));
                        assert(ancestors(pm, a).subset_of(rset));
                    }
                }
            }
            let qv2 = key_views(queue@);
            qv2.unique_seq_to_set();
            assert(qv2.to_set().subset_of(n));
            vstd::set_lib::lemma_len_subset(qv2.to_set(), n);
        }
        qi = qi + 1;
    }
    let ghost rv = key_views(result@);
    proof {
        let qv = key_views(queue@);
        assert(qv.take(qv.len() as int) =~= qv);
        assert(rv.to_set() =~= closed_nodes(pm, n)) by {
            assert forall|x: Seq<u8>| rv.to_set().contains(x) implies closed_nodes(pm, n).contains(x) by {
                let j = rv.index_of(x);
                assert(n.contains(rv[j]));
                assert(ancestors(pm, rv[j]).subset_of(rv.take(j).to_set()));
                assert forall|z: Seq<u8>| ancestors(pm, x).contains(z) implies n.contains(z) by {
                    assert(rv.take(j).to_set().contains(z));
                    let w = rv.take(j).index_of(z);
                    assert(n.contains(rv[w]));
                }
            }
            assert forall|x: Seq<u8>| closed_nodes(pm, n).contains(x) implies rv.to_set().contains(x) by {
                if !rv.to_set().contains(x) {
                    let rest = closed_nodes(pm, n).difference(rv.to_set());
                    let ga = ancestor_graph(pm);
                    assert(rest.subset_of(n));
                    vstd::set_lib::lemma_len_subset(rest, n);
                    assert forall|y: Seq<u8>| #[trigger] rest.contains(y) implies
                        exists|z: Seq<u8>| edge(ga, y, z) && rest.contains(z) by {
                        assert(!qv.to_set().contains(y));
                        assert(!ancestors(pm, y).subset_of(rv.to_set()));
                        let z = choose|z: Seq<u8>| ancestors(pm, y).contains(z) && !rv.to_set().contains(z);
                        assert(n.contains(z));
                        assert(ancestors(pm, z).subset_of(n)) by {
                            assert forall|v: Seq<u8>| ancestors(pm, z).contains(v) implies n.contains(v) by {
                                lemma_reach_plus_trans(graph_of(pm), y, z, v);
                            }
                        }
                        assert(edge(ga, y, z));
                        assert(rest.contains(z));
                    }
                    let c = lemma_successor_in_set_cycle(ga, rest, x);
                    lemma_ancestor_cycle(pm, c);
                }
            }
        }
    }
    let mut members: KeySet<Vec<u8>> = KeySet::new();
    let sorted_set = crate::keyed::key_set_of(&result);
    let mut t: usize = 0;
    proof {
        assert(ks.take(0).to_set() =~= Set::<Seq<u8>>::empty());
        assert(members@ =~= ks.take(0).to_set().difference(rv.to_set()));
    }
    while t < count
        invariant
            ks == in_degree.key_seq(),
            in_degree.wf(),
            ks.to_set() == n,
            count == ks.len(),
            t <= count,
            sorted_set.wf(),
            sorted_set@ == rv.to_set(),
            members.wf(),
            members@ == ks.take(t as int).to_set().difference(rv.to_set()),
        decreases count - t,
    {
        proof {
            assert(ks.take(t + 1) =~= ks.take(t as int).push(ks[t as int]));
            ks.take(t as int).lemma_push_to_set_commute(ks[t as int]);
        }
        let x = in_degree.key_at(t);
        if !sorted_set.contains(x) {
            members.insert(x.key_clone());
        }
        t = t + 1;
        proof {
            assert(members@ =~= ks.take(t as int).to_set().difference(rv.to_set()));
        }
    }
    proof {
        assert(ks.take(count as int) =~= ks);
    }
    let cycles: usize = if result.len() != count { 1 } else { 0 };
    proof {
        in_degree.lemma_view();
        assert(count == n.len());
    }
    TopologicalResult { sorted_transactions: result, cycles_detected: cycles, cycle_members: members }
}


/// Each node of the post-order `r` comes after every successor of it in
/// `adj`, unless the two are both recorded in `cm` as cycle members.
pub open spec fn finished_after_successors(adj: Map<Seq<u8>, Vec<Vec<u8>>>, r: Seq<Seq<u8>>, cm: Set<Seq<u8>>) -> bool {
    forall|i: int, c: Seq<u8>| 0 <= i < r.len() && #[trigger] key_views(adj[r[i]]@).contains(c)
        ==> r.take(i).contains(c) || (cm.contains(c) && cm.contains(r[i]))
}

/// Depth-first visit from `x` along the adjacency lists, appending each
/// newly visited node after its unvisited successors (post-order). A
/// successor found on the current path is recorded, with `x`, as a cycle
/// member.
fn dfs_visit(adj: &AdjacencyList, x: &Vec<u8>, visited: &mut KeySet<Vec<u8>>, rec_stack: &mut KeySet<Vec<u8>>,
    result: &mut Vec<Vec<u8>>, cycle_members: &mut KeySet<Vec<u8>>)
    requires
        adj.wf(),
        adj@.dom().finite(),
        forall|a: Seq<u8>| #[trigger] adj@.contains_key(a) ==> key_views(adj@[a]@).to_set().subset_of(adj@.dom()),
        adj@.contains_key(x@),
        old(visited).wf(),
        old(rec_stack).wf(),
        old(cycle_members).wf(),
        !old(visited)@.contains(x@),
        old(visited)@.subset_of(adj@.dom()),
        old(cycle_members)@.subset_of(adj@.dom()),
        key_views(old(result)@).no_duplicates(),
        key_views(old(result)@).to_set().subset_of(old(visited)@),
        old(visited)@ == key_views(old(result)@).to_set() + old(rec_stack)@,
        finished_after_successors(adj@, key_views(old(result)@), old(cycle_members)@),
    ensures
        final(visited)@ == key_views(final(result)@).to_set() + final(rec_stack)@,
        finished_after_successors(adj@, key_views(final(result)@), final(cycle_members)@),
        old(cycle_members)@.subset_of(final(cycle_members)@),
        final(visited).wf(),
        final(rec_stack).wf(),
        final(cycle_members).wf(),
        final(rec_stack)@ == old(rec_stack)@,
        final(visited)@.contains(x@),
        old(visited)@.subset_of(final(visited)@),
        final(visited)@.subset_of(adj@.dom()),
        final(cycle_members)@.subset_of(adj@.dom()),
        key_views(final(result)@).no_duplicates(),
        key_views(final(result)@).to_set().subset_of(final(visited)@),
        key_views(final(result)@).to_set().difference(key_views(old(result)@).to_set())
            == final(visited)@.difference(old(visited)@),
        key_views(old(result)@).is_prefix_of(key_views(final(result)@)),
    decreases adj@.dom().len() - old(visited)@.len(),
{
    let ghost v0 = visited@;
    let ghost r0 = key_views(result@);
    let ghost s0 = rec_stack@;
    visited.insert(x.key_clone());
    let had = rec_stack.contains(x);
    rec_stack.insert(x.key_clone());
    proof {
        vstd::set_lib::lemma_len_subset(v0, adj@.dom());
        vstd::set_lib::lemma_len_subset(visited@, adj@.dom());
    }
    let children = match adj.get(x) {
        Some(l) => copy_list(l),
        None => Vec::new(),
    };
    let ghost lv = key_views(children@);
    proof {
        assert(lv.to_set().subset_of(adj@.dom()));
    }
    let mut k: usize = 0;
    while k < children.len()
        invariant
            adj.wf(),
            adj@.dom().finite(),
            forall|a: Seq<u8>| #[trigger] adj@.contains_key(a) ==> key_views(adj@[a]@).to_set().subset_of(adj@.dom()),
            lv == key_views(children@),
            lv.to_set().subset_of(adj@.dom()),
            visited.wf(),
            rec_stack.wf(),
            cycle_members.wf(),
            rec_stack@ == s0.insert(x@),
            visited@.contains(x@),
            v0.insert(x@).subset_of(visited@),
            !v0.contains(x@),
            v0 == old(visited)@,
            visited@.subset_of(adj@.dom()),
            v0.subset_of(adj@.dom()),
            adj@.contains_key(x@),
            cycle_members@.subset_of(adj@.dom()),
            key_views(result@).no_duplicates(),
            key_views(result@).to_set().subset_of(visited@),
            !key_views(result@).to_set().contains(x@),
            key_views(result@).to_set().difference(r0.to_set()) == visited@.difference(v0.insert(x@)),
            r0.is_prefix_of(key_views(result@)),
            r0.to_set().subset_of(v0),
            k <= lv.len(),
            lv == key_views(adj@[x@]@),
            visited@ == key_views(result@).to_set() + rec_stack@,
            finished_after_successors(adj@, key_views(result@), cycle_members@),
            old(cycle_members)@.subset_of(cycle_members@),
            forall|j: int| 0 <= j < k ==> key_views(result@).to_set().contains(#[trigger] lv[j])
                || (cycle_members@.contains(lv[j]) && cycle_members@.contains(x@)),
        decreases lv.len() - k,
    {
        let c = &children[k];
        proof {
            assert(lv[k as int] == c@);
            assert(lv.to_set().contains(c@));
        }
        if !visited.contains(c) {
            proof {
                vstd::set_lib::lemma_len_subset(visited@, adj@.dom());
            }
            let ghost vb = visited@;
            let ghost rb = key_views(result@);
            proof {
                assert(!v0.contains(x@));
                assert(v0.insert(x@).len() == v0.len() + 1);
                vstd::set_lib::lemma_len_subset(v0.insert(x@), visited@);
                vstd::set_lib::lemma_len_subset(visited@, adj@.dom());
                assert(adj@.dom().len() - visited@.len() < adj@.dom().len() - v0.len());
            }
            dfs_visit(adj, c, visited, rec_stack, result, cycle_members);
            proof {
                let rn = key_views(result@);
                assert(rn.to_set().difference(r0.to_set()) =~= visited@.difference(v0.insert(x@))) by {
                    assert forall|z: Seq<u8>| rn.to_set().contains(z) && !r0.to_set().contains(z)
                        implies visited@.contains(z) && !v0.insert(x@).contains(z) by {
                        if rb.to_set().contains(z) {
                            assert(rb.to_set().difference(r0.to_set()).contains(z));
                        } else {
                            assert(rn.to_set().difference(rb.to_set()).contains(z));
                        }
                    }
                    assert forall|z: Seq<u8>| visited@.contains(z) && !v0.insert(x@).contains(z)
                        implies rn.to_set().contains(z) && !r0.to_set().contains(z) by {
                        if !vb.contains(z) {
                            assert(visited@.difference(vb).contains(z));
                            assert(rn.to_set().difference(rb.to_set()).contains(z));
                        } else {
                            assert(vb.difference(v0.insert(x@)).contains(z));
                            assert(rb.to_set().contains(z));
                            let w = rb.index_of(z);
                            assert(rn[w] == rb[w]);
                            assert(rn.to_set().contains(rn[w]));
                        }
                    }
                }
                assert(!rn.to_set().contains(x@)) by {
                    if rn.to_set().contains(x@) {
                        if !rb.to_set().contains(x@) {
                            assert(rn.to_set().difference(rb.to_set()).contains(x@));
                            assert(vb.contains(x@));
                        }
                    }
                }
                assert(r0.is_prefix_of(rn)) by {
                    assert forall|i: int| 0 <= i < r0.len() implies r0[i] == rn[i] by {
                        assert(r0[i] == rb[i]);
                        assert(rb[i] == rn[i]);
                    }
                }
            }
        } else if rec_stack.contains(c) {
            cycle_members.insert(c.key_clone());
            cycle_members.insert(x.key_clone());
        }
        k = k + 1;
    }
    if !had {
        rec_stack.remove(x);
    }
    let ghost rb = key_views(result@);
    proof {
        assert(!rb.contains(x@)) by {
            if rb.contains(x@) {
                let w = rb.index_of(x@);
                assert(rb.to_set().contains(rb[w]));
            }
        }
        crate::dependency_ordering_engine::lemma_push_distinct(rb, x@);
    }
    result.push(x.key_clone());
    proof {
        assert(key_views(result@) =~= rb.push(x@));
        let rn = key_views(result@);
        assert forall|i: int, c: Seq<u8>| 0 <= i < rn.len() && #[trigger] key_views(adj@[rn[i]]@).contains(c)
            implies rn.take(i).contains(c) || (cycle_members@.contains(c) && cycle_members@.contains(rn[i])) by {
            if i < rb.len() {
                assert(rn[i] == rb[i]);
                assert(rn.take(i) =~= rb.take(i));
                assert(key_views(adj@[rb[i]]@).contains(c));
            } else {
                assert(rn[i] == x@);
                assert(rn.take(i) =~= rb);
                let j = lv.index_of(c);
                assert(lv[j] == c);
                if rb.to_set().contains(c) {
                    assert(rb.contains(c));
                }
            }
        }
        assert(rec_stack@ =~= s0) by {
            if had {
                assert(s0.contains(x@));
            }
        }
        assert(key_views(result@).to_set().difference(r0.to_set()) =~= visited@.difference(v0)) by {
            assert(!r0.to_set().contains(x@));
            assert(!v0.contains(x@));
            rb.lemma_push_to_set_commute(x@);
            assert forall|z: Seq<u8>| visited@.contains(z) && !v0.contains(z)
                implies key_views(result@).to_set().contains(z) && !r0.to_set().contains(z) by {
                if z != x@ {
                    assert(rb.to_set().difference(r0.to_set()).contains(z));
                }
            }
            assert forall|z: Seq<u8>| key_views(result@).to_set().contains(z) && !r0.to_set().contains(z)
                implies visited@.contains(z) && !v0.contains(z) by {
                if z != x@ {
                    assert(rb.to_set().contains(z));
                    assert(rb.to_set().difference(r0.to_set()).contains(z));
                }
            }
        }
        assert(r0.is_prefix_of(key_views(result@))) by {
            assert forall|i: int| 0 <= i < r0.len() implies r0[i] == key_views(result@)[i] by {
                assert(r0[i] == rb[i]);
            }
        }
    }
}

/// The list in reverse order.
fn reversed(v: &Vec<Vec<u8>>) -> (r: Vec<Vec<u8>>)
    ensures
        key_views(r@).len() == key_views(v@).len(),
        forall|i: int| 0 <= i < key_views(v@).len() ==> #[trigger] key_views(r@)[i] == key_views(v@)[key_views(v@).len() - 1 - i],
{
    let mut r: Vec<Vec<u8>> = Vec::new();
    let mut i: usize = v.len();
    while i > 0
        invariant
            i <= v@.len(),
            r@.len() == v@.len() - i,
            forall|j: int| 0 <= j < r@.len() ==> (#[trigger] r@[j])@ == v@[v@.len() - 1 - j]@,
        decreases i,
    {
        i = i - 1;
        r.push(crate::bytes::copy_bytes(v[i].as_slice()));
    }
    r
}

/// The adjacency and in-degree maps, as values, built over the nodes `n`.
pub open spec fn views_built(pm: Map<Seq<u8>, Seq<Seq<u8>>>, n: Set<Seq<u8>>,
    adj: Map<Seq<u8>, Seq<Seq<u8>>>, deg: Map<Seq<u8>, usize>) -> bool {
    &&& adj.dom() == n
    &&& deg.dom() == n
    &&& forall|x: Seq<u8>| #[trigger] deg.contains_key(x) ==> deg[x] == ancestors(pm, x).len()
    &&& forall|a: Seq<u8>| #[trigger] adj.contains_key(a) ==> adj[a].no_duplicates() && adj[a].to_set() == dependents_in(pm, n, a)
}

/// The pairs (ancestor, dependent) among the nodes `n` whose ancestor lies in `s`.
pub open spec fn edge_pairs_from(pm: Map<Seq<u8>, Seq<Seq<u8>>>, n: Set<Seq<u8>>, s: Set<Seq<u8>>) -> Set<(Seq<u8>, Seq<u8>)> {
    Set::new(|p: (Seq<u8>, Seq<u8>)| s.contains(p.0) && dependents_in(pm, n, p.0).contains(p.1))
}

/// The roots among `n`: nodes without ancestors.
pub open spec fn roots_of(pm: Map<Seq<u8>, Seq<Seq<u8>>>, n: Set<Seq<u8>>) -> Set<Seq<u8>> {
    Set::new(|x: Seq<u8>| n.contains(x) && ancestors(pm, x).len() == 0)
}

/// The leaves among `n`: nodes on which no node of `n` depends.
pub open spec fn leaves_of(pm: Map<Seq<u8>, Seq<Seq<u8>>>, n: Set<Seq<u8>>) -> Set<Seq<u8>> {
    Set::new(|a: Seq<u8>| n.contains(a) && dependents_in(pm, n, a) == Set::<Seq<u8>>::empty())
}

/// `m` is the largest depth among `n`, 0 when `n` is empty.
pub open spec fn is_max_depth(dm: Map<Seq<u8>, u32>, n: Set<Seq<u8>>, m: u32) -> bool {
    &&& forall|x: Seq<u8>| #[trigger] n.contains(x) ==> dm[x] <= m
    &&& (m > 0 ==> exists|x: Seq<u8>| #[trigger] n.contains(x) && dm[x] == m)
}

proof fn lemma_pairs_finite(pm: Map<Seq<u8>, Seq<Seq<u8>>>, n: Set<Seq<u8>>, s: Set<Seq<u8>>)
    requires
        n.finite(),
        s.finite(),
    ensures
        edge_pairs_from(pm, n, s).finite(),
    decreases s.len(),
{
    if s.len() == 0 {
        assert(s =~= Set::<Seq<u8>>::empty());
        assert(edge_pairs_from(pm, n, s) =~= Set::<(Seq<u8>, Seq<u8>)>::empty());
    } else {
        let a = s.choose();
        assert(s.contains(a));
        lemma_pairs_finite(pm, n, s.remove(a));
        let d = dependents_in(pm, n, a);
        vstd::set_lib::lemma_len_subset(d, n);
        let row = d.map(|x: Seq<u8>| (a, x));
        vstd::set_lib::lemma_map_size_bound(d, row, |x: Seq<u8>| (a, x));
        assert(edge_pairs_from(pm, n, s) =~= edge_pairs_from(pm, n, s.remove(a)) + row) by {
            assert forall|p: (Seq<u8>, Seq<u8>)| edge_pairs_from(pm, n, s).contains(p)
                implies (edge_pairs_from(pm, n, s.remove(a)) + row).contains(p) by {
                if p.0 == a {
                    assert(row.contains((a, p.1)));
                    assert(p == (a, p.1));
                }
            }
        }
    }
}

/// Orders the registered transactions of a dependency manager, and caches
/// the structures it builds to do so.
pub struct DependencyOrderingEngine {
    adjacency_list: AdjacencyList,
    in_degree_map: InDegreeMap,
}

impl DependencyOrderingEngine {
    /// The cached adjacency map.
    pub closed spec fn adjacency_view(&self) -> Map<Seq<u8>, Seq<Seq<u8>>> {
        Map::new(|k: Seq<u8>| self.adjacency_list@.contains_key(k), |k: Seq<u8>| key_views(self.adjacency_list@[k]@))
    }

    /// The cached in-degree map.
    pub closed spec fn in_degree_view(&self) -> Map<Seq<u8>, usize> {
        self.in_degree_map@
    }

    /// The caches are well formed.
    pub closed spec fn wf(&self) -> bool {
        self.adjacency_list.wf() && self.in_degree_map.wf()
    }

    pub fn new() -> (e: Self)
        ensures
            e.wf(),
            e.adjacency_view() == Map::<Seq<u8>, Seq<Seq<u8>>>::empty(),
            e.in_degree_view() == Map::<Seq<u8>, usize>::empty(),
    {
        let e = DependencyOrderingEngine { adjacency_list: KeyMap::new(), in_degree_map: KeyMap::new() };
        proof {
            assert(e.adjacency_view() =~= Map::<Seq<u8>, Seq<Seq<u8>>>::empty());
        }
        e
    }

    /// Builds the adjacency and in-degree maps afresh and caches them.
    pub fn rebuild_adjacency_structures(&mut self, deps: &TxDependencyManager) -> (r: Result<(), StorageError>)
        requires
            deps.wf(),
        ensures
            r is Ok,
            final(self).wf(),
            views_built(deps.parents_view(), ordered_nodes(deps.depth_view()),
                final(self).adjacency_view(), final(self).in_degree_view()),
    {
        let (adj, deg) = build_adjacency_structures(deps);
        self.adjacency_list = adj;
        self.in_degree_map = deg;
        proof {
            let pm = deps.parents_view();
            let n = ordered_nodes(deps.depth_view());
            let av = self.adjacency_view();
            assert(av.dom() =~= n);
            assert forall|a: Seq<u8>| #[trigger] av.contains_key(a) implies av[a].no_duplicates()
                && av[a].to_set() == dependents_in(pm, n, a) by {
                assert(self.adjacency_list@.contains_key(a));
            }
        }
        Ok(())
    }

    /// A copy of the cached adjacency map.
    pub fn get_adjacency_list(&self) -> (r: AdjacencyList)
        requires
            self.wf(),
        ensures
            r.wf(),
            Map::new(|k: Seq<u8>| r@.contains_key(k), |k: Seq<u8>| key_views(r@[k]@)) == self.adjacency_view(),
    {
        let src = &self.adjacency_list;
        proof {
            src.lemma_view();
        }
        let count = src.len();
        let ghost ks = src.key_seq();
        let mut out: AdjacencyList = KeyMap::new();
        let mut i: usize = 0;
        proof {
            assert(ks.take(0).to_set() =~= Set::<Seq<u8>>::empty());
        }
        while i < count
            invariant
                src.wf(),
                ks == src.key_seq(),
                ks.to_set() == src@.dom(),
                count == ks.len(),
                i <= count,
                out.wf(),
                out@.dom() == ks.take(i as int).to_set(),
                forall|k: Seq<u8>| #[trigger] out@.contains_key(k) ==> key_views(out@[k]@) == key_views(src@[k]@),
            decreases count - i,
        {
            proof {
                assert(ks.take(i + 1) =~= ks.take(i as int).push(ks[i as int]));
                ks.take(i as int).lemma_push_to_set_commute(ks[i as int]);
                src.lemma_view();
            }
            let k = src.key_at(i);
            let v = src.value_at(i);
            out.insert(k.key_clone(), copy_list(v));
            i = i + 1;
        }
        proof {
            assert(ks.take(count as int) =~= ks);
            assert(Map::new(|k: Seq<u8>| out@.contains_key(k), |k: Seq<u8>| key_views(out@[k]@)) =~= self.adjacency_view());
        }
        out
    }

    /// A copy of the cached in-degree map.
    pub fn get_in_degree_map(&self) -> (r: InDegreeMap)
        requires
            self.wf(),
        ensures
            r.wf(),
            r@ == self.in_degree_view(),
    {
        self.in_degree_map.duplicate()
    }

    /// Counts over the ordered transactions: how many, how many
    /// (ancestor, dependent) pairs, the largest depth, how many have no
    /// ancestor and how many have no dependent.
    pub fn get_topology_stats(&self, deps: &TxDependencyManager) -> (r: Result<TopologyStats, StorageError>)
        requires
            deps.wf(),
            edge_pairs_from(deps.parents_view(), ordered_nodes(deps.depth_view()), ordered_nodes(deps.depth_view())).len() <= usize::MAX,
        ensures
            r matches Ok(st) && {
                let pm = deps.parents_view();
                let n = ordered_nodes(deps.depth_view());
                &&& st.total_transactions == n.len()
                &&& st.total_edges == edge_pairs_from(pm, n, n).len()
                &&& is_max_depth(deps.depth_view(), n, st.max_depth)
                &&& st.root_transactions == roots_of(pm, n).len()
                &&& st.leaf_transactions == leaves_of(pm, n).len()
            },
    {
        let ghost pm = deps.parents_view();
        let ghost dm = deps.depth_view();
        let (adj, deg) = build_adjacency_structures(deps);
        let ghost n = adj@.dom();
        proof {
            adj.lemma_view();
            deg.lemma_view();
        }
        let total_nodes = adj.len();
        let count = adj.len();
        let ghost ks = adj.key_seq();
        let mut total_edges: usize = 0;
        let mut leaves: usize = 0;
        let mut roots: usize = 0;
        let mut max_depth: u32 = 0;
        let mut i: usize = 0;
        proof {
            assert(ks.take(0).to_set() =~= Set::<Seq<u8>>::empty());
            assert(edge_pairs_from(pm, n, Set::empty()) =~= Set::<(Seq<u8>, Seq<u8>)>::empty());
            assert(leaves_of(pm, n).intersect(Set::empty()) =~= Set::<Seq<u8>>::empty());
            assert(roots_of(pm, n).intersect(Set::empty()) =~= Set::<Seq<u8>>::empty());
        }
        while i < count
            invariant
                deps.wf(),
                pm == deps.parents_view(),
                dm == deps.depth_view(),
                structures_built(pm, n, adj, deg),
                n == ordered_nodes(dm),
                n.finite(),
                ks == adj.key_seq(),
                ks.no_duplicates(),
                ks.to_set() == n,
                count == ks.len(),
                i <= count,
                edge_pairs_from(pm, n, n).len() <= usize::MAX,
                edge_pairs_from(pm, n, ks.take(i as int).to_set()).finite(),
                total_edges == edge_pairs_from(pm, n, ks.take(i as int).to_set()).len(),
                leaves == leaves_of(pm, n).intersect(ks.take(i as int).to_set()).len(),
                roots == roots_of(pm, n).intersect(ks.take(i as int).to_set()).len(),
                leaves <= i,
                roots <= i,
                forall|x: Seq<u8>| #[trigger] ks.take(i as int).to_set().contains(x) ==> dm[x] <= max_depth,
                max_depth > 0 ==> exists|x: Seq<u8>| #[trigger] ks.take(i as int).to_set().contains(x) && dm[x] == max_depth,
            decreases count - i,
        {
            let ghost done = ks.take(i as int).to_set();
            let ghost a = ks[i as int];
            proof {
                assert(ks.take(i + 1) =~= ks.take(i as int).push(a));
                ks.take(i as int).lemma_push_to_set_commute(a);
                adj.lemma_view();
                assert(!done.contains(a)) by {
                    if done.contains(a) {
                        let w = ks.take(i as int).index_of(a);
                        assert(ks[w] == ks[i as int]);
                    }
                }
            }
            let key = adj.key_at(i);
            let list = adj.value_at(i);
            let ghost lv = key_views(list@);
            proof {
                assert(key@ == a);
                assert(n.contains(a));
                assert(lv.to_set() == dependents_in(pm, n, a));
                lv.unique_seq_to_set();
                let row = dependents_in(pm, n, a).map(|x: Seq<u8>| (a, x));
                vstd::seq_lib::seq_to_set_is_finite(lv);
                vstd::set_lib::lemma_map_size(dependents_in(pm, n, a), row, |x: Seq<u8>| (a, x));
                assert(edge_pairs_from(pm, n, done.insert(a)) =~= edge_pairs_from(pm, n, done) + row) by {
                    assert forall|p: (Seq<u8>, Seq<u8>)| edge_pairs_from(pm, n, done.insert(a)).contains(p)
                        implies (edge_pairs_from(pm, n, done) + row).contains(p) by {
                        if p.0 == a {
                            assert(row.contains((a, p.1)));
                            assert(p == (a, p.1));
                        }
                    }
                }
                assert(edge_pairs_from(pm, n, done).disjoint(row));
                vstd::set_lib::lemma_set_disjoint_lens(edge_pairs_from(pm, n, done), row);
                assert(edge_pairs_from(pm, n, done.insert(a)).subset_of(edge_pairs_from(pm, n, n)));
                lemma_pairs_finite(pm, n, n);
                vstd::set_lib::lemma_len_subset(edge_pairs_from(pm, n, done.insert(a)), edge_pairs_from(pm, n, n));
            }
            total_edges = total_edges + list.len();
            proof {
                vstd::set_lib::lemma_len_subset(leaves_of(pm, n).intersect(done), n);
                vstd::set_lib::lemma_len_subset(roots_of(pm, n).intersect(done), n);
            }
            if list.len() == 0 {
                proof {
                    assert(dependents_in(pm, n, a) =~= Set::<Seq<u8>>::empty());
                    assert(leaves_of(pm, n).intersect(done.insert(a)) =~= leaves_of(pm, n).intersect(done).insert(a));
                }
                leaves = leaves + 1;
            } else {
                proof {
                    assert(lv.to_set().contains(lv[0]));
                    assert(!leaves_of(pm, n).contains(a));
                    assert(leaves_of(pm, n).intersect(done.insert(a)) =~= leaves_of(pm, n).intersect(done));
                }
            }
            match deg.get(key) {
                Some(d) => {
                    if *d == 0 {
                        proof {
                            assert(roots_of(pm, n).intersect(done.insert(a)) =~= roots_of(pm, n).intersect(done).insert(a));
                        }
                        roots = roots + 1;
                    } else {
                        proof {
                            assert(roots_of(pm, n).intersect(done.insert(a)) =~= roots_of(pm, n).intersect(done));
                        }
                    }
                },
                None => {
                    proof {
                        assert(false);
                    }
                },
            }
            match deps.get_execution_depth(key) {
                Some(d) => {
                    if d > max_depth {
                        max_depth = d;
                    }
                },
                None => {
                    proof {
                        assert(n.contains(a));
                        assert(dm.contains_key(a));
                    }
                },
            }
            i = i + 1;
            proof {
                assert(ks.take(i as int).to_set() == done.insert(a));
                assert(dm.contains_key(a));
                assert forall|x: Seq<u8>| #[trigger] ks.take(i as int).to_set().contains(x) implies dm[x] <= max_depth by {
                    if x != a {
                        assert(done.contains(x));
                    }
                }
                if max_depth > 0 {
                    if max_depth == dm[a] {
                        assert(ks.take(i as int).to_set().contains(a));
                    } else {
                        let w = choose|x: Seq<u8>| #[trigger] done.contains(x) && dm[x] == max_depth;
                        assert(ks.take(i as int).to_set().contains(w));
                    }
                }
            }
        }
        proof {
            assert(ks.take(count as int) =~= ks);
            assert(leaves_of(pm, n).intersect(n) =~= leaves_of(pm, n));
            assert(roots_of(pm, n).intersect(n) =~= roots_of(pm, n));
        }
        Ok(TopologyStats {
            total_transactions: total_nodes,
            total_edges,
            max_depth,
            root_transactions: roots,
            leaf_transactions: leaves,
        })
    }

    /// Whether `to` is an ancestor of `from`.
    pub fn has_dependency_path(&self, deps: &TxDependencyManager, from: &TxHash, to: &TxHash) -> (r: Result<bool, StorageError>)
        requires
            deps.wf(),
        ensures
            r == Ok::<bool, StorageError>(ancestors(deps.parents_view(), from@).contains(to@)),
    {
        let anc = deps.get_executable_ancestors(from);
        let found = list_contains(&anc, to.as_slice());
        proof {
            assert(key_views(anc@).contains(to@) == key_views(anc@).to_set().contains(to@));
        }
        Ok(found)
    }

    /// Empties the caches.
    pub fn clear_caches(&mut self)
        ensures
            final(self).wf(),
            final(self).adjacency_view() == Map::<Seq<u8>, Seq<Seq<u8>>>::empty(),
            final(self).in_degree_view() == Map::<Seq<u8>, usize>::empty(),
    {
        self.adjacency_list = KeyMap::new();
        self.in_degree_map = KeyMap::new();
        proof {
            assert(self.adjacency_view() =~= Map::<Seq<u8>, Seq<Seq<u8>>>::empty());
        }
    }

    /// Sorts the registered transactions with Kahn's algorithm.
    pub fn get_topological_sort_kahn(&self, deps: &TxDependencyManager) -> (r: Result<TopologicalResult, StorageError>)
        requires
            deps.wf(),
        ensures
            r matches Ok(res) && sort_result(deps.parents_view(), ordered_nodes(deps.depth_view()), res),
    {
        let (adj, deg) = build_adjacency_structures(deps);
        proof {
            adj.lemma_view();
        }
        Ok(kahn_sort(Ghost(deps.parents_view()), &adj, &deg))
    }

    /// Sorts the registered transactions (Kahn's algorithm).
    pub fn get_topological_sort(&self, deps: &TxDependencyManager) -> (r: Result<TopologicalResult, StorageError>)
        requires
            deps.wf(),
        ensures
            r matches Ok(res) && sort_result(deps.parents_view(), ordered_nodes(deps.depth_view()), res),
    {
        self.get_topological_sort_kahn(deps)
    }

    /// Sorts the registered transactions by depth-first search, reversing
    /// the post-order; successors met on the current path are reported as
    /// cycle members.
    pub fn get_topological_sort_dfs(&self, deps: &TxDependencyManager) -> (r: Result<TopologicalResult, StorageError>)
        requires
            deps.wf(),
        ensures
            r matches Ok(res) && {
                let n = ordered_nodes(deps.depth_view());
                let s = key_views(res.sorted_transactions@);
                &&& s.no_duplicates()
                &&& s.to_set() == n
                &&& res.cycle_members.wf()
                &&& res.cycle_members@.subset_of(n)
                &&& res.cycles_detected == (if res.cycle_members@.len() == 0 { 0usize } else { 1usize })
                &&& forall|a: int, b: int| 0 <= a < b < s.len() && #[trigger] ancestors(deps.parents_view(), s[a]).contains(#[trigger] s[b])
                    ==> res.cycle_members@.contains(s[a]) && res.cycle_members@.contains(s[b])
            },
    {
        let ghost pm = deps.parents_view();
        let (adj, _deg) = build_adjacency_structures(deps);
        let ghost n = adj@.dom();
        proof {
            adj.lemma_view();
            assert forall|a: Seq<u8>| #[trigger] adj@.contains_key(a) implies key_views(adj@[a]@).to_set().subset_of(adj@.dom()) by {
                assert(key_views(adj@[a]@).to_set() == dependents_in(pm, n, a));
            }
        }
        let mut visited: KeySet<Vec<u8>> = KeySet::new();
        let mut rec_stack: KeySet<Vec<u8>> = KeySet::new();
        let mut sorted: Vec<Vec<u8>> = Vec::new();
        let mut cycle_members: KeySet<Vec<u8>> = KeySet::new();
        let count = adj.len();
        let ghost ks = adj.key_seq();
        let mut i: usize = 0;
        proof {
            assert(key_views(sorted@).to_set() =~= Set::<Seq<u8>>::empty());
            assert(ks.take(0).to_set() =~= Set::<Seq<u8>>::empty());
        }
        while i < count
            invariant
                adj.wf(),
                n == adj@.dom(),
                n.finite(),
                forall|a: Seq<u8>| #[trigger] adj@.contains_key(a) ==> key_views(adj@[a]@).to_set().subset_of(adj@.dom()),
                ks == adj.key_seq(),
                ks.to_set() == n,
                count == ks.len(),
                i <= count,
                visited.wf(),
                rec_stack.wf(),
                cycle_members.wf(),
                visited@.subset_of(n),
                ks.take(i as int).to_set().subset_of(visited@),
                cycle_members@.subset_of(n),
                key_views(sorted@).no_duplicates(),
                key_views(sorted@).to_set() == visited@,
                rec_stack@ == Set::<Seq<u8>>::empty(),
                finished_after_successors(adj@, key_views(sorted@), cycle_members@),
            decreases count - i,
        {
            proof {
                assert(ks.take(i + 1) =~= ks.take(i as int).push(ks[i as int]));
                ks.take(i as int).lemma_push_to_set_commute(ks[i as int]);
            }
            let x = adj.key_at(i);
            proof {
                assert(n.contains(x@));
            }
            if !visited.contains(x) {
                let ghost vb = visited@;
                let ghost sb = key_views(sorted@);
                proof {
                    assert(visited@ =~= key_views(sorted@).to_set() + rec_stack@);
                }
                dfs_visit(&adj, x, &mut visited, &mut rec_stack, &mut sorted, &mut cycle_members);
                proof {
                    assert(key_views(sorted@).to_set() =~= visited@) by {
                        assert forall|z: Seq<u8>| visited@.contains(z) implies key_views(sorted@).to_set().contains(z) by {
                            if !vb.contains(z) {
                                assert(visited@.difference(vb).contains(z));
                            } else {
                                assert(sb.to_set().contains(z));
                                let w = sb.index_of(z);
                                assert(key_views(sorted@)[w] == sb[w]);
                            }
                        }
                    }
                }
            }
            i = i + 1;
        }
        proof {
            assert(ks.take(count as int) =~= ks);
            assert(visited@ =~= n);
        }
        let order = reversed(&sorted);
        let ghost sv = key_views(order@);
        proof {
            let pv = key_views(sorted@);
            assert(sv.no_duplicates()) by {
                assert forall|a: int, b: int| 0 <= a < sv.len() && 0 <= b < sv.len() && a != b implies sv[a] != sv[b] by {
                    assert(sv[a] == pv[pv.len() - 1 - a]);
                    assert(sv[b] == pv[pv.len() - 1 - b]);
                }
            }
            assert(sv.to_set() =~= pv.to_set()) by {
                assert forall|z: Seq<u8>| sv.to_set().contains(z) implies pv.to_set().contains(z) by {
                    let a = sv.index_of(z);
                    assert(sv[a] == pv[pv.len() - 1 - a]);
                }
                assert forall|z: Seq<u8>| pv.to_set().contains(z) implies sv.to_set().contains(z) by {
                    let a = pv.index_of(z);
                    assert(sv[pv.len() - 1 - a] == pv[a]);
                }
            }
        }
        proof {
            let pv = key_views(sorted@);
            let len = pv.len() as int;
            assert forall|a: int, b: int| 0 <= a < b < sv.len() && #[trigger] ancestors(pm, sv[a]).contains(#[trigger] sv[b])
                implies cycle_members@.contains(sv[a]) && cycle_members@.contains(sv[b]) by {
                let i = len - 1 - b;
                assert(sv[b] == pv[i]);
                assert(sv[a] == pv[len - 1 - a]);
                assert(sv.to_set().contains(sv[a]));
                assert(dependents_in(pm, n, pv[i]).contains(sv[a]));
                assert(adj@.contains_key(pv[i]));
                assert(key_views(adj@[pv[i]]@).to_set().contains(sv[a]));
                assert(key_views(adj@[pv[i]]@).contains(sv[a]));
                if pv.take(i).contains(sv[a]) {
                    let q = pv.take(i).index_of(sv[a]);
                    assert(pv[q] == pv[len - 1 - a]);
                }
            }
        }
        let cycles: usize = if cycle_members.len() == 0 { 0 } else { 1 };
        Ok(TopologicalResult { sorted_transactions: order, cycles_detected: cycles, cycle_members })
    }
}

} // verus!
