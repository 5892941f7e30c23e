//! Memory accounting for the pool: the weight of each tracked transaction,
//! the total against a limit, and eviction of a transaction together with
//! everything that depends on it.

use vstd::prelude::*;
use crate::keyed::{KeyMap, KeyOps, key_views, push_to_list};
use crate::bytes::copy_bytes;
use crate::transaction::{Transaction, TransactionView, TxInputView};
use crate::orphan_manager::{without_member, without_key};
use crate::reach::{edge, reachable, walk_from_to, step_ok, edge_targets, lemma_reach_zero, lemma_reach_step,
    lemma_closed_holds_reachable};
use crate::advanced_dependency_manager::{graph_of, reach_plus, lemma_graph_finite};

verus! {

/// Limits and per-entry overheads of the memory accounting.
#[derive(Clone, Copy, Debug)]
pub struct MempoolLimiterConfig {
    /// Most bytes the pool may weigh
    pub max_size_bytes: usize,
    /// Overhead of a map entry
    pub transaction_entry_overhead_bytes: usize,
    /// Overhead of a shared pointer to the transaction
    pub arc_overhead_bytes: usize,
}

impl Default for MempoolLimiterConfig {
    fn default() -> (c: Self)
        ensures
            c.max_size_bytes == 300_000_000,
            c.transaction_entry_overhead_bytes == 256,
            c.arc_overhead_bytes == 48,
    {
        Self { max_size_bytes: 300_000_000, transaction_entry_overhead_bytes: 256, arc_overhead_bytes: 48 }
    }
}

/// The weight of one transaction.
#[derive(Clone, Copy, Debug)]
pub struct TransactionWeight {
    /// Serialized size
    pub vsize: usize,
    /// Data structure overhead
    pub overhead: usize,
    /// Weight counted against the limit
    pub total_weight: usize,
}

/// What an eviction removed.
#[derive(Clone, Debug)]
pub struct WeightEvictionResult {
    pub evicted_hashes: Vec<Vec<u8>>,
    pub freed_bytes: usize,
    pub freed_weight: usize,
    /// Dependents removed with the evicted transactions
    pub cascade_count: usize,
}

/// Memory figures of the limiter.
#[derive(Clone, Copy, Debug)]
pub struct MemoryStats {
    pub current_weight: usize,
    pub max_weight: usize,
    pub transaction_count: usize,
    pub average_weight_per_tx: usize,
}

/// The sum of `f` over the finite set `s`.
pub open spec fn set_total(s: Set<Seq<u8>>, f: spec_fn(Seq<u8>) -> int) -> int
    decreases s.len(),
{
    if s.finite() && s.len() > 0 {
        let k = s.choose();
        f(k) + set_total(s.remove(k), f)
    } else {
        0
    }
}

/// The weight of each key of `m`.
pub open spec fn weight_of(m: Map<Seq<u8>, TransactionWeight>) -> spec_fn(Seq<u8>) -> int {
    |k: Seq<u8>| m[k].total_weight as int
}

/// The weight tracked for `k`, zero when none is.
pub open spec fn tracked_weight(m: Map<Seq<u8>, TransactionWeight>, k: Seq<u8>) -> int {
    if m.contains_key(k) { m[k].total_weight as int } else { 0 }
}

/// The sum of the tracked weights.
pub open spec fn map_total(m: Map<Seq<u8>, TransactionWeight>) -> int {
    set_total(m.dom(), weight_of(m))
}

/// Taking any member out first gives the same sum.
pub proof fn lemma_set_total_remove(s: Set<Seq<u8>>, f: spec_fn(Seq<u8>) -> int, x: Seq<u8>)
    requires
        s.finite(),
        s.contains(x),
    ensures
        set_total(s, f) == f(x) + set_total(s.remove(x), f),
    decreases s.len(),
{
    let k = s.choose();
    if k != x {
        lemma_set_total_remove(s.remove(k), f, x);
        lemma_set_total_remove(s.remove(x), f, k);
        assert(s.remove(k).remove(x) =~= s.remove(x).remove(k));
    }
}

/// Sums agree where the summands do.
pub proof fn lemma_set_total_agree(s: Set<Seq<u8>>, f: spec_fn(Seq<u8>) -> int, g: spec_fn(Seq<u8>) -> int)
    requires
        s.finite(),
        forall|k: Seq<u8>| s.contains(k) ==> f(k) == g(k),
    ensures
        set_total(s, f) == set_total(s, g),
    decreases s.len(),
{
    if s.len() > 0 {
        let k = s.choose();
        lemma_set_total_agree(s.remove(k), f, g);
    }
}

/// A sum of non-negative terms is non-negative.
pub proof fn lemma_set_total_nonneg(s: Set<Seq<u8>>, f: spec_fn(Seq<u8>) -> int)
    requires
        forall|k: Seq<u8>| s.contains(k) ==> f(k) >= 0,
    ensures
        set_total(s, f) >= 0,
    decreases s.len(),
{
    if s.finite() && s.len() > 0 {
        let k = s.choose();
        lemma_set_total_nonneg(s.remove(k), f);
    }
}

/// Removing a held key takes its weight off the total.
pub proof fn lemma_map_total_remove(m: Map<Seq<u8>, TransactionWeight>, k: Seq<u8>)
    requires
        m.dom().finite(),
        m.contains_key(k),
    ensures
        map_total(m) == m[k].total_weight + map_total(m.remove(k)),
{
    lemma_set_total_remove(m.dom(), weight_of(m), k);
    assert(m.remove(k).dom() =~= m.dom().remove(k));
    lemma_set_total_agree(m.dom().remove(k), weight_of(m), weight_of(m.remove(k)));
}

/// Setting a key replaces its weight in the total, or adds it.
pub proof fn lemma_map_total_insert(m: Map<Seq<u8>, TransactionWeight>, k: Seq<u8>, w: TransactionWeight)
    requires
        m.dom().finite(),
    ensures
        map_total(m.insert(k, w)) == w.total_weight + map_total(m.remove(k)),
        m.contains_key(k) ==> map_total(m) == m[k].total_weight + map_total(m.remove(k)),
        !m.contains_key(k) ==> map_total(m.remove(k)) == map_total(m),
{
    let m2 = m.insert(k, w);
    lemma_map_total_remove(m2, k);
    assert(m2.remove(k) =~= m.remove(k));
    if m.contains_key(k) {
        lemma_map_total_remove(m, k);
    } else {
        assert(m.remove(k) =~= m);
    }
}

/// A total of weights is never negative.
pub proof fn lemma_map_total_nonneg(m: Map<Seq<u8>, TransactionWeight>)
    ensures
        map_total(m) >= 0,
{
    lemma_set_total_nonneg(m.dom(), weight_of(m));
}

/// Tracking a weight for a hash not yet tracked and then untracking it
/// gives back exactly that weight and leaves the tracked weights as they
/// were.
pub proof fn lemma_add_then_remove_weight(m: Map<Seq<u8>, TransactionWeight>, k: Seq<u8>, w: TransactionWeight)
    requires
        m.dom().finite(),
        !m.contains_key(k),
    ensures
        m.insert(k, w).remove(k) == m,
        m.insert(k, w)[k].total_weight == w.total_weight,
        map_total(m.insert(k, w)) == map_total(m) + w.total_weight,
{
    assert(m.insert(k, w).remove(k) =~= m);
    lemma_map_total_insert(m, k, w);
}

/// Tracks the weight of each transaction in the pool against a limit, and
/// which transactions depend on which.
pub struct MempoolLimiter {
    config: MempoolLimiterConfig,
    current_weight: usize,
    tx_weights: KeyMap<Vec<u8>, TransactionWeight>,
    dependency_graph: KeyMap<Vec<u8>, Vec<Vec<u8>>>,
}

/// Serialized bytes of the inputs: the spent hash, the index, the public key
/// and the signature-hash byte of each.
pub open spec fn inputs_size(ins: Seq<TxInputView>) -> int
    decreases ins.len(),
{
    if ins.len() == 0 { 0 } else { inputs_size(ins.drop_last()) + 37 + ins.last().pubkey.len() }
}

proof fn lemma_inputs_size_prefix(ins: Seq<TxInputView>, i: int)
    requires
        0 <= i <= ins.len(),
    ensures
        0 <= inputs_size(ins.take(i)) <= inputs_size(ins),
    decreases ins.len() - i,
{
    if i == ins.len() {
        assert(ins.take(i) =~= ins);
        lemma_inputs_size_nonneg(ins);
    } else {
        lemma_inputs_size_prefix(ins, i + 1);
        assert(ins.take(i + 1).drop_last() =~= ins.take(i));
        lemma_inputs_size_nonneg(ins.take(i));
    }
}

proof fn lemma_inputs_size_nonneg(ins: Seq<TxInputView>)
    ensures
        inputs_size(ins) >= 0,
    decreases ins.len(),
{
    if ins.len() > 0 {
        lemma_inputs_size_nonneg(ins.drop_last());
    }
}

/// The virtual size of a transaction: chain id, lock time, gas limit and
/// fee fields (32 bytes), an absent contract address (1 byte; a transaction
/// here carries no execution payload and no contract address), the inputs,
/// 40 bytes per output, the 32-byte identifier and 40 bytes of packet
/// overhead.
pub open spec fn vsize_spec(tx: TransactionView) -> int {
    4 + 4 + 8 + 16 + 1 + inputs_size(tx.inputs) + 40 * tx.outputs.len() + 32 + 40
}

impl MempoolLimiter {
    /// The virtual size of `tx`, as `vsize_spec` counts it.
    pub fn calculate_vsize(tx: &Transaction) -> (v: usize)
        requires
            vsize_spec(tx@) <= usize::MAX,
        ensures
            v == vsize_spec(tx@),
    {
        let ghost ins = tx@.inputs;
        let mut inputs: usize = 0;
        let mut i: usize = 0;
        while i < tx.inputs.len()
            invariant
                ins == tx@.inputs,
                vsize_spec(tx@) <= usize::MAX,
                i <= ins.len(),
                ins.len() == tx.inputs@.len(),
                inputs == inputs_size(ins.take(i as int)),
            decreases ins.len() - i,
        {
            proof {
                lemma_inputs_size_prefix(ins, i + 1);
                assert(ins.take(i + 1).drop_last() =~= ins.take(i as int));
                assert(ins.take(i + 1).last() == ins[i as int]);
                assert(ins[i as int].pubkey == tx.inputs@[i as int].pubkey@);
            }
            inputs = inputs + 37 + tx.inputs[i].pubkey.len();
            i = i + 1;
        }
        proof {
            assert(ins.take(ins.len() as int) =~= ins);
        }
        let outputs: usize = 40 * tx.outputs.len();
        4 + 4 + 8 + 16 + 1 + inputs + outputs + 32 + 40
    }

    /// The counter never falls below the weight tracked.
    pub closed spec fn wf(&self) -> bool {
        &&& self.tx_weights.wf()
        &&& self.dependency_graph.wf()
        &&& self.current_weight >= map_total(self.tx_weights@)
    }

    /// Weights by transaction hash.
    pub closed spec fn weights_view(&self) -> Map<Seq<u8>, TransactionWeight> {
        self.tx_weights@
    }

    /// Children of each parent, in the order they were registered.
    pub closed spec fn graph_view(&self) -> Map<Seq<u8>, Seq<Seq<u8>>> {
        Map::new(|k: Seq<u8>| self.dependency_graph@.contains_key(k), |k: Seq<u8>| key_views(self.dependency_graph@[k]@))
    }

    /// The weight counter.
    pub closed spec fn weight_view(&self) -> usize {
        self.current_weight
    }

    pub closed spec fn config_view(&self) -> MempoolLimiterConfig {
        self.config
    }

    /// Finitely many weights are tracked, and the counter covers them all.
    pub proof fn lemma_weights_finite(&self)
        requires
            self.wf(),
        ensures
            self.weights_view().dom().finite(),
            self.weight_view() >= map_total(self.weights_view()),
    {
        self.tx_weights.lemma_view();
    }

    pub fn new(config: MempoolLimiterConfig) -> (l: Self)
        ensures
            l.wf(),
            l.weights_view() == Map::<Seq<u8>, TransactionWeight>::empty(),
            l.graph_view() == Map::<Seq<u8>, Seq<Seq<u8>>>::empty(),
            l.weight_view() == 0,
            l.config_view() == config,
    {
        let l = Self { config, current_weight: 0, tx_weights: KeyMap::new(), dependency_graph: KeyMap::new() };
        proof {
            assert(l.tx_weights@.dom() =~= Set::<Seq<u8>>::empty());
            assert(l.graph_view() =~= Map::<Seq<u8>, Seq<Seq<u8>>>::empty());
        }
        l
    }

    /// Tracks `weight` for `tx_hash`, in place of any weight tracked for it;
    /// the counter drops the replaced weight and gains the new one.
    pub fn add_tx_weight(&mut self, tx_hash: Vec<u8>, weight: TransactionWeight) -> (r: Result<(), String>)
        requires
            old(self).wf(),
            old(self).weight_view() - tracked_weight(old(self).weights_view(), tx_hash@) + weight.total_weight <= usize::MAX,
        ensures
            final(self).wf(),
            r is Ok,
            final(self).weights_view() == old(self).weights_view().insert(tx_hash@, weight),
            final(self).weight_view() == old(self).weight_view() - tracked_weight(old(self).weights_view(), tx_hash@) + weight.total_weight,
            final(self).graph_view() == old(self).graph_view(),
            final(self).config_view() == old(self).config_view(),
    {
        let ghost m0 = self.tx_weights@;
        let ghost k = tx_hash@;
        proof {
            self.tx_weights.lemma_view();
            lemma_map_total_insert(m0, k, weight);
            lemma_map_total_nonneg(m0.remove(k));
        }
        let replaced = self.tx_weights.insert(tx_hash, weight);
        let old_total: usize = match replaced {
            Some(w) => w.total_weight,
            None => 0,
        };
        self.current_weight = self.current_weight - old_total + weight.total_weight;
        Ok(())
    }

    /// Stops tracking `tx_hash`; returns the weight freed, taken off the
    /// counter, or zero when it was not tracked.
    pub fn remove_tx_weight(&mut self, tx_hash: &[u8]) -> (freed: usize)
        requires
            old(self).wf(),
        ensures
            final(self).wf(),
            old(self).weights_view().contains_key(tx_hash@) ==> freed == old(self).weights_view()[tx_hash@].total_weight
                && final(self).weights_view() == old(self).weights_view().remove(tx_hash@)
                && final(self).weight_view() == old(self).weight_view() - freed,
            !old(self).weights_view().contains_key(tx_hash@) ==> freed == 0 && final(self).weights_view() == old(self).weights_view()
                && final(self).weight_view() == old(self).weight_view(),
            final(self).graph_view() == old(self).graph_view(),
            final(self).config_view() == old(self).config_view(),
            map_total(old(self).weights_view()) == freed + map_total(final(self).weights_view()),
    {
        let ghost m0 = self.tx_weights@;
        let key = copy_bytes(tx_hash);
        proof {
            self.tx_weights.lemma_view();
        }
        match self.tx_weights.remove(&key) {
            Some(w) => {
                proof {
                    lemma_map_total_remove(m0, tx_hash@);
                    lemma_map_total_nonneg(m0.remove(tx_hash@));
                }
                self.current_weight = self.current_weight - w.total_weight;
                w.total_weight
            },
            None => {
                proof {
                    assert(self.tx_weights@ =~= m0);
                }
                0
            },
        }
    }

    /// Records `child_hash` as a child of `parent_hash`, after those already
    /// recorded.
    pub fn register_dependency(&mut self, parent_hash: Vec<u8>, child_hash: Vec<u8>)
        requires
            old(self).wf(),
        ensures
            final(self).wf(),
            final(self).graph_view() == old(self).graph_view().insert(parent_hash@,
                (if old(self).graph_view().contains_key(parent_hash@) { old(self).graph_view()[parent_hash@] } else { Seq::empty() }).push(child_hash@)),
            final(self).weights_view() == old(self).weights_view(),
            final(self).weight_view() == old(self).weight_view(),
            final(self).config_view() == old(self).config_view(),
    {
        let ghost g0 = self.graph_view();
        let ghost pv = parent_hash@;
        let ghost cv = child_hash@;
        push_to_list(&mut self.dependency_graph, parent_hash, child_hash);
        proof {
            assert(self.graph_view() =~= g0.insert(pv, (if g0.contains_key(pv) { g0[pv] } else { Seq::empty() }).push(cv)));
        }
    }

    /// Removes `child_hash` from the children of `parent_hash`; a parent
    /// left without children goes.
    pub fn unregister_dependency(&mut self, parent_hash: &[u8], child_hash: &[u8])
        requires
            old(self).wf(),
        ensures
            final(self).wf(),
            final(self).graph_view() == unregistered(old(self).graph_view(), parent_hash@, child_hash@),
            final(self).weights_view() == old(self).weights_view(),
            final(self).weight_view() == old(self).weight_view(),
            final(self).config_view() == old(self).config_view(),
    {
        let ghost g0 = self.graph_view();
        let key = copy_bytes(parent_hash);
        match self.dependency_graph.get(&key) {
            Some(children) => {
                let kept = without_key(children, child_hash);
                if kept.len() == 0 {
                    self.dependency_graph.remove(&key);
                } else {
                    self.dependency_graph.insert(key, kept);
                }
                proof {
                    assert(self.graph_view() =~= unregistered(g0, parent_hash@, child_hash@));
                }
            },
            None => {
                proof {
                    assert(self.graph_view() =~= unregistered(g0, parent_hash@, child_hash@));
                }
            },
        }
    }

    /// Whether `tx_weight` more would take the counter past the limit.
    pub fn would_exceed_limit(&self, tx_weight: usize) -> (b: bool)
        requires
            self.weight_view() + tx_weight <= usize::MAX,
        ensures
            b == (self.weight_view() + tx_weight > self.config_view().max_size_bytes),
    {
        self.current_weight + tx_weight > self.config.max_size_bytes
    }

    /// The dependents of `tx_hash`, depth first: each child of each
    /// transaction reached (`tx_hash` included), as often as the lists name
    /// it.
    fn collect_dependents(&self, tx_hash: &[u8]) -> (r: Vec<Vec<u8>>)
        requires
            self.wf(),
        ensures
            key_views(r@).to_set() == reach_plus(graph_of(self.graph_view()), tx_hash@),
            r@.len() == set_total(reach_star(self.graph_view(), tx_hash@), list_len_of(self.graph_view())),
    {
        let ghost gv = self.graph_view();
        let ghost gg = graph_of(gv);
        let ghost h = tx_hash@;
        let ghost bound = reach_star(gv, h);
        proof {
            self.dependency_graph.lemma_view();
            assert(gv.dom() =~= self.dependency_graph@.dom());
            lemma_reach_star_finite(gv, h);
        }
        let mut dependents: Vec<Vec<u8>> = Vec::new();
        let mut stack: Vec<Vec<u8>> = Vec::new();
        stack.push(copy_bytes(tx_hash));
        let mut visited: crate::keyed::KeySet<Vec<u8>> = crate::keyed::KeySet::new();
        proof {
            assert(children_of(gv, Set::empty()) =~= Set::<Seq<u8>>::empty());
            assert(key_views(dependents@).to_set() =~= Set::<Seq<u8>>::empty());
            assert(key_views(stack@)[0] == h);
            lemma_reach_zero(gg, h);
        }
        while stack.len() > 0
            invariant
                self.wf(),
                gv == self.graph_view(),
                gg == graph_of(gv),
                bound == reach_star(gv, h),
                bound.finite(),
                visited.wf(),
                visited@.subset_of(bound),
                forall|i: int| 0 <= i < stack@.len() ==> bound.contains(#[trigger] key_views(stack@)[i]),
                key_views(dependents@).to_set() == children_of(gv, visited@),
                dependents@.len() == set_total(visited@, list_len_of(gv)),
                forall|v: Seq<u8>, c: Seq<u8>| visited@.contains(v) && #[trigger] edge(gg, v, c) ==> visited@.contains(c) || key_views(stack@).contains(c),
                visited@.contains(h) || key_views(stack@).contains(h),
            decreases bound.len() - visited@.len(), stack@.len(),
        {
            proof {
                visited.lemma_view();
                vstd::set_lib::lemma_len_subset(visited@, bound);
            }
            let ghost sv = key_views(stack@);
            let current = match stack.pop() {
                Some(c) => c,
                None => Vec::new(),
            };
            let ghost cv = current@;
            proof {
                assert(key_views(stack@) =~= sv.drop_last());
                assert(cv == sv.last());
                assert(bound.contains(cv)) by {
                    assert(bound.contains(sv[sv.len() - 1]));
                }
                assert forall|x: Seq<u8>| sv.contains(x) implies key_views(stack@).contains(x) || x == cv by {
                    let i = sv.index_of(x);
                    if i < sv.len() - 1 {
                        assert(key_views(stack@)[i] == x);
                    }
                }
            }
            if visited.contains(&current) {
                continue;
            }
            let ghost vs0 = visited@;
            let ghost d0 = key_views(dependents@);
            let ghost st0 = key_views(stack@);
            visited.insert(copy_bytes(current.as_slice()));
            proof {
                visited.lemma_view();
                vstd::set_lib::lemma_len_subset(visited@, bound);
                assert(visited@.len() == vs0.len() + 1);
                lemma_set_total_remove(visited@, list_len_of(gv), cv);
                assert(visited@.remove(cv) =~= vs0);
                lemma_children_of_insert(gv, vs0, cv);
            }
            match self.dependency_graph.get(&current) {
                Some(children) => {
                    let ghost lv = key_views(children@);
                    proof {
                        assert(gv.contains_key(cv) && gv[cv] == lv);
                    }
                    let mut j: usize = 0;
                    while j < children.len()
                        invariant
                            self.wf(),
                            lv == key_views(children@),
                            j <= children@.len(),
                            key_views(dependents@) == d0 + lv.take(j as int),
                            key_views(stack@) == st0 + lv.take(j as int),
                        decreases children@.len() - j,
                    {
                        let ghost dp = key_views(dependents@);
                        let ghost sp = key_views(stack@);
                        dependents.push(copy_bytes(children[j].as_slice()));
                        stack.push(copy_bytes(children[j].as_slice()));
                        proof {
                            assert(key_views(dependents@) =~= dp.push(lv[j as int]));
                            assert(key_views(stack@) =~= sp.push(lv[j as int]));
                            assert(lv.take(j + 1) =~= lv.take(j as int).push(lv[j as int]));
                        }
                        j = j + 1;
                    }
                    proof {
                        assert(lv.take(children@.len() as int) =~= lv);
                        lemma_concat_to_set(d0, lv);
                        assert(key_views(dependents@).to_set() =~= children_of(gv, visited@));
                        assert forall|i: int| 0 <= i < stack@.len() implies bound.contains(#[trigger] key_views(stack@)[i]) by {
                            if i >= st0.len() {
                                let c = lv[i - st0.len()];
                                assert(key_views(stack@)[i] == c);
                                assert(edge(gg, cv, c));
                                lemma_reach_star_step(gv, h, cv, c);
                            } else {
                                assert(key_views(stack@)[i] == st0[i]);
                            }
                        }
                        assert forall|v: Seq<u8>, c: Seq<u8>| visited@.contains(v) && #[trigger] edge(gg, v, c) implies visited@.contains(c) || key_views(stack@).contains(c) by {
                            if v == cv {
                                assert(lv.to_set().contains(c));
                                let q = lv.index_of(c);
                                assert(key_views(stack@)[st0.len() + q] == c);
                            } else if st0.contains(c) {
                                let q = st0.index_of(c);
                                assert(key_views(stack@)[q] == c);
                            } else if sv.contains(c) {
                                assert(c == cv);
                            }
                        }
                        if key_views(stack@).len() > 0 || true {
                            if st0.contains(h) {
                                let q = st0.index_of(h);
                                assert(key_views(stack@)[q] == h);
                            }
                        }
                    }
                },
                None => {
                    proof {
                        assert(!gv.contains_key(cv));
                        assert(key_views(dependents@).to_set() =~= children_of(gv, visited@));
                        assert forall|v: Seq<u8>, c: Seq<u8>| visited@.contains(v) && #[trigger] edge(gg, v, c) implies visited@.contains(c) || key_views(stack@).contains(c) by {
                            if sv.contains(c) && !key_views(stack@).contains(c) {
                                assert(c == cv);
                            }
                        }
                    }
                },
            }
        }
        proof {
            assert(key_views(stack@).len() == 0);
            assert(visited@.contains(h));
            assert(crate::reach::closed_under(gg, visited@)) by {
                assert forall|v: Seq<u8>, c: Seq<u8>| visited@.contains(v) && #[trigger] edge(gg, v, c) implies visited@.contains(c) by {
                    assert(!key_views(stack@).contains(c));
                }
            }
            assert(visited@ =~= bound) by {
                assert forall|x: Seq<u8>| bound.contains(x) implies visited@.contains(x) by {
                    if x != h {
                        let y = choose|y: Seq<u8>| #[trigger] edge(gg, h, y) && reachable(gg, y, x);
                        assert(visited@.contains(y));
                        lemma_closed_holds_reachable(gg, visited@, y, x);
                    }
                }
            }
            lemma_children_of_reach(gv, h);
        }
        dependents
    }

    /// Evicts `tx_hash` and every transaction that depends on it: they stop
    /// being tracked, the counter loses their weight, `tx_hash` loses its
    /// own list of children and leaves the lists of its parents.
    pub fn evict_transaction_cascade(&mut self, tx_hash: &[u8]) -> (r: WeightEvictionResult)
        requires
            old(self).wf(),
        ensures
            final(self).wf(),
            key_views(r.evicted_hashes@).len() >= 1,
            key_views(r.evicted_hashes@)[0] == tx_hash@,
            key_views(r.evicted_hashes@).drop_first().to_set() == reach_plus(graph_of(old(self).graph_view()), tx_hash@),
            r.cascade_count == r.evicted_hashes@.len() - 1,
            r.cascade_count == set_total(reach_star(old(self).graph_view(), tx_hash@), list_len_of(old(self).graph_view())),
            final(self).weights_view() == old(self).weights_view().remove_keys(reach_star(old(self).graph_view(), tx_hash@)),
            r.freed_weight == map_total(old(self).weights_view()) - map_total(final(self).weights_view()),
            r.freed_bytes == r.freed_weight,
            final(self).weight_view() == old(self).weight_view() - r.freed_weight,
            final(self).graph_view() == unlinked(old(self).graph_view(), tx_hash@),
            final(self).config_view() == old(self).config_view(),
    {
        let ghost w0 = self.tx_weights@;
        let ghost g0 = self.graph_view();
        let ghost c0 = self.current_weight;
        let ghost h = tx_hash@;
        proof {
            self.tx_weights.lemma_view();
            lemma_map_total_nonneg(w0);
        }
        let mut evicted: Vec<Vec<u8>> = Vec::new();
        evicted.push(copy_bytes(tx_hash));
        let mut freed = self.remove_tx_weight(tx_hash);
        let dependents = self.collect_dependents(tx_hash);
        let cascade_count = dependents.len();
        let ghost dv = key_views(dependents@);
        proof {
            assert(key_views(evicted@) =~= seq![h]);
            assert(dv.take(0).to_set() =~= Set::<Seq<u8>>::empty());
            assert(self.tx_weights@ =~= w0.remove_keys(set![h] + dv.take(0).to_set()));
        }
        let mut i: usize = 0;
        while i < dependents.len()
            invariant
                self.wf(),
                self.graph_view() == g0,
                self.config == old(self).config,
                dv == key_views(dependents@),
                i <= dependents@.len(),
                self.tx_weights@ == w0.remove_keys(set![h] + dv.take(i as int).to_set()),
                freed == map_total(w0) - map_total(self.tx_weights@),
                self.current_weight == c0 - freed,
                map_total(w0) <= c0,
                key_views(evicted@) == seq![h] + dv.take(i as int),
            decreases dependents@.len() - i,
        {
            let ghost ev0 = key_views(evicted@);
            proof {
                lemma_map_total_nonneg(self.tx_weights@);
                assert(dv.take(i + 1) =~= dv.take(i as int).push(dv[i as int]));
                dv.take(i as int).lemma_push_to_set_commute(dv[i as int]);
                assert(dependents@[i as int]@ == dv[i as int]);
            }
            let f = self.remove_tx_weight(dependents[i].as_slice());
            proof {
                lemma_map_total_nonneg(self.tx_weights@);
                assert(self.tx_weights@ =~= w0.remove_keys(set![h] + dv.take(i + 1).to_set()));
            }
            freed = freed + f;
            evicted.push(copy_bytes(dependents[i].as_slice()));
            proof {
                assert(key_views(evicted@) =~= ev0.push(dv[i as int]));
            }
            i = i + 1;
        }
        proof {
            assert(dv.take(dependents@.len() as int) =~= dv);
            assert(set![h] + dv.to_set() =~= reach_star(g0, h));
            assert(key_views(evicted@).drop_first() =~= dv);
        }
        // Drop the evicted transaction's own list of children.
        let key = copy_bytes(tx_hash);
        self.dependency_graph.remove(&key);
        let ghost g1 = self.graph_view();
        proof {
            assert(g1 =~= g0.remove(h));
            self.dependency_graph.lemma_view();
        }
        // Find the parents that name it.
        let ghost ks = self.dependency_graph.key_seq();
        let mut parents: Vec<Vec<u8>> = Vec::new();
        let n = self.dependency_graph.len();
        let mut j: usize = 0;
        while j < n
            invariant
                self.wf(),
                g1 == self.graph_view(),
                h == tx_hash@,
                ks == self.dependency_graph.key_seq(),
                ks.no_duplicates(),
                ks.to_set() == self.dependency_graph@.dom(),
                n == ks.len(),
                j <= n,
                key_views(parents@).no_duplicates(),
                key_views(parents@).to_set() == Set::new(|p: Seq<u8>| ks.take(j as int).contains(p) && g1[p].contains(h)),
            decreases n - j,
        {
            let ghost pk = ks[j as int];
            let ghost pv0 = key_views(parents@);
            proof {
                lemma_take_one_more_keys(ks, j as int);
                assert(ks.to_set().contains(pk));
                assert(!ks.take(j as int).contains(pk)) by {
                    if ks.take(j as int).contains(pk) {
                        let q = ks.take(j as int).index_of(pk);
                        assert(ks[q] == pk);
                    }
                }
            }
            let list = self.dependency_graph.value_at(j);
            proof {
                assert(self.dependency_graph@.contains_key(pk));
                assert(key_views(list@) == g1[pk]);
            }
            let named = crate::keyed::list_contains(list, tx_hash);
            proof {
                assert(named == g1[pk].contains(h));
            }
            if named {
                let pkey = copy_bytes(self.dependency_graph.key_at(j).as_slice());
                proof {
                    assert(pkey@ == pk);
                }
                parents.push(pkey);
                proof {
                    assert(key_views(parents@) =~= pv0.push(pk));
                    assert(key_views(parents@).to_set().contains(pk)) by {
                        assert(key_views(parents@)[pv0.len() as int] == pk);
                    }
                    pv0.lemma_push_to_set_commute(pk);
                    assert(!pv0.contains(pk)) by {
                        if pv0.contains(pk) {
                            assert(pv0.to_set().contains(pk));
                        }
                    }
                    assert(key_views(parents@).no_duplicates()) by {
                        let nv = key_views(parents@);
                        assert forall|a: int, b: int| 0 <= a < nv.len() && 0 <= b < nv.len() && a != b implies nv[a] != nv[b] by {
                            if a < pv0.len() && b < pv0.len() {
                                assert(nv[a] == pv0[a] && nv[b] == pv0[b]);
                            } else if a < pv0.len() {
                                assert(nv[a] == pv0[a]);
                                assert(pv0.contains(pv0[a]));
                            } else if b < pv0.len() {
                                assert(nv[b] == pv0[b]);
                                assert(pv0.contains(pv0[b]));
                            }
                        }
                    }
                }
            } else {
                proof {
                    assert(key_views(parents@) == pv0);
                    assert(!pv0.to_set().contains(pk));
                }
            }
            proof {
                assert(ks.take(j + 1).contains(pk));
                assert(key_views(parents@).to_set().contains(pk) == g1[pk].contains(h));
                assert forall|p: Seq<u8>| key_views(parents@).to_set().contains(p) == (ks.take(j + 1).contains(p) && g1[p].contains(h)) by {
                    if p != pk {
                        assert(ks.take(j + 1).contains(p) == ks.take(j as int).contains(p));
                        assert(key_views(parents@).to_set().contains(p) == pv0.to_set().contains(p));
                    }
                }
            }
            j = j + 1;
            proof {
                assert(key_views(parents@).to_set() =~= Set::new(|p: Seq<u8>| ks.take(j as int).contains(p) && g1[p].contains(h)));
            }
        }
        let ghost pv = key_views(parents@);
        proof {
            assert(ks.take(n as int) =~= ks);
            assert(g1.dom() =~= ks.to_set());
            assert(pv.take(0) =~= Seq::<Seq<u8>>::empty());
            assert(self.graph_view() =~= Map::new(
                |p: Seq<u8>| g1.contains_key(p) && (pv.take(0).contains(p) ==> without_member(g1[p], h).len() > 0),
                |p: Seq<u8>| if pv.take(0).contains(p) { without_member(g1[p], h) } else { g1[p] },
            ));
        }
        // Take it out of their lists.
        let mut q: usize = 0;
        while q < parents.len()
            invariant
                self.wf(),
                self.tx_weights@ == w0.remove_keys(reach_star(g0, h)),
                self.current_weight == c0 - freed,
                self.config == old(self).config,
                pv == key_views(parents@),
                h == tx_hash@,
                pv.no_duplicates(),
                pv.to_set() == Set::new(|p: Seq<u8>| g1.contains_key(p) && g1[p].contains(h)),
                q <= parents@.len(),
                self.graph_view() == Map::new(
                    |p: Seq<u8>| g1.contains_key(p) && (pv.take(q as int).contains(p) ==> without_member(g1[p], h).len() > 0),
                    |p: Seq<u8>| if pv.take(q as int).contains(p) { without_member(g1[p], h) } else { g1[p] },
                ),
            decreases parents@.len() - q,
        {
            let ghost pk = pv[q as int];
            let ghost gb = self.graph_view();
            proof {
                lemma_take_one_more_keys(pv, q as int);
                assert(!pv.take(q as int).contains(pk)) by {
                    if pv.take(q as int).contains(pk) {
                        let z = pv.take(q as int).index_of(pk);
                        assert(pv[z] == pk);
                    }
                }
                assert(pv.to_set().contains(pk));
                assert(gb.contains_key(pk) && gb[pk] == g1[pk]);
                assert(parents@[q as int]@ == pk);
            }
            self.unregister_dependency(parents[q].as_slice(), tx_hash);
            proof {
                assert(g1[pk].contains(h)) by {
                    assert(pv.to_set().contains(pk));
                }
                let target = Map::new(
                    |p: Seq<u8>| g1.contains_key(p) && (pv.take(q + 1).contains(p) ==> without_member(g1[p], h).len() > 0),
                    |p: Seq<u8>| if pv.take(q + 1).contains(p) { without_member(g1[p], h) } else { g1[p] },
                );
                assert(pv.take(q + 1).contains(pk));
                assert(gb.contains_key(pk));
                assert(self.graph_view() == unregistered(gb, pk, h));
                assert forall|p: Seq<u8>| #[trigger] self.graph_view().contains_key(p) == target.contains_key(p) by {
                    if p != pk {
                        assert(pv.take(q + 1).contains(p) == pv.take(q as int).contains(p));
                    }
                }
                assert forall|p: Seq<u8>| #[trigger] self.graph_view().contains_key(p) implies self.graph_view()[p] == target[p] by {
                    if p != pk {
                        assert(pv.take(q + 1).contains(p) == pv.take(q as int).contains(p));
                    }
                }
                assert(self.graph_view() =~= target);
            }
            q = q + 1;
            proof {
                assert(self.graph_view() =~= Map::new(
                    |p: Seq<u8>| g1.contains_key(p) && (pv.take(q as int).contains(p) ==> without_member(g1[p], h).len() > 0),
                    |p: Seq<u8>| if pv.take(q as int).contains(p) { without_member(g1[p], h) } else { g1[p] },
                ));
            }
        }
        proof {
            assert(pv.take(parents@.len() as int) =~= pv);
            assert forall|p: Seq<u8>| #![auto] pv.contains(p) <==> (g1.contains_key(p) && g1[p].contains(h)) by {
                assert(pv.to_set().contains(p) == pv.contains(p));
            }
            assert(self.graph_view() =~= unlinked(g0, h));
        }
        WeightEvictionResult { evicted_hashes: evicted, freed_bytes: freed, freed_weight: freed, cascade_count }
    }

    /// When `required_weight` more would pass the limit, evicts the
    /// candidates in the order given, each with everything that depends on
    /// it, until the weight (as it was, plus `required_weight`, less what was
    /// freed) is down to half the limit.
    pub fn make_space_for(&mut self, required_weight: usize, candidates: &Vec<Vec<u8>>) -> (r: WeightEvictionResult)
        requires
            old(self).wf(),
            old(self).weight_view() + required_weight <= usize::MAX,
        ensures
            final(self).wf(),
            final(self).config_view() == old(self).config_view(),
            old(self).weight_view() + required_weight <= old(self).config_view().max_size_bytes ==> r.evicted_hashes@.len() == 0
                && r.freed_bytes == 0 && r.freed_weight == 0 && r.cascade_count == 0
                && final(self).weights_view() == old(self).weights_view() && final(self).graph_view() == old(self).graph_view()
                && final(self).weight_view() == old(self).weight_view(),
            old(self).weight_view() + required_weight > old(self).config_view().max_size_bytes ==> ({
                let st = space_run(
                    SpaceState {
                        weights: old(self).weights_view(),
                        graph: old(self).graph_view(),
                        freed: 0,
                        cascade: 0,
                        evicted: Set::empty(),
                        count: 0,
                        done: false,
                    },
                    key_views(candidates@),
                    old(self).weight_view() + required_weight,
                    (old(self).config_view().max_size_bytes / 2) as int,
                );
                &&& final(self).weights_view() == st.weights
                &&& final(self).graph_view() == st.graph
                &&& final(self).weight_view() == old(self).weight_view() - st.freed
                &&& r.freed_weight == st.freed
                &&& r.freed_bytes == st.freed
                &&& r.cascade_count == st.cascade
                &&& key_views(r.evicted_hashes@).to_set() == st.evicted
                &&& r.evicted_hashes@.len() == st.count
            }),
    {
        if !self.would_exceed_limit(required_weight) {
            return WeightEvictionResult { evicted_hashes: Vec::new(), freed_bytes: 0, freed_weight: 0, cascade_count: 0 };
        }
        let max_size = self.config.max_size_bytes;
        let current = self.current_weight;
        let threshold = max_size / 2;
        let ghost base = current + required_weight;
        let ghost w0 = self.tx_weights@;
        let ghost cv = key_views(candidates@);
        let ghost st0 = SpaceState {
            weights: self.weights_view(),
            graph: self.graph_view(),
            freed: 0,
            cascade: 0,
            evicted: Set::empty(),
            count: 0,
            done: false,
        };
        let mut evicted: Vec<Vec<u8>> = Vec::new();
        let mut freed: usize = 0;
        let mut cascade: usize = 0;
        proof {
            lemma_map_total_nonneg(w0);
            assert(cv.take(cv.len() as int) =~= cv);
            assert(cv.take(0) =~= Seq::<Seq<u8>>::empty());
            assert(key_views(evicted@).to_set() =~= Set::<Seq<u8>>::empty());
        }
        let mut i: usize = 0;
        while i < candidates.len()
            invariant_except_break
                self.wf(),
                self.config == old(self).config,
                cv == key_views(candidates@),
                i <= candidates@.len(),
                current == old(self).current_weight,
                base == current + required_weight,
                base <= usize::MAX,
                threshold == old(self).config.max_size_bytes / 2,
                map_total(w0) <= current,
                w0 == old(self).tx_weights@,
                freed == map_total(w0) - map_total(self.tx_weights@),
                self.current_weight == current - freed,
                ({
                    let st = space_run(st0, cv.take(i as int), base, threshold as int);
                    &&& !st.done
                    &&& self.weights_view() == st.weights
                    &&& self.graph_view() == st.graph
                    &&& freed == st.freed
                    &&& cascade == st.cascade
                    &&& key_views(evicted@).to_set() == st.evicted
                    &&& evicted@.len() == st.count
                }),
                cascade <= evicted@.len(),
                cv.take(cv.len() as int) == cv,
            ensures
                self.wf(),
                self.config == old(self).config,
                ({
                    let st = space_run(st0, cv, base, threshold as int);
                    &&& self.weights_view() == st.weights
                    &&& self.graph_view() == st.graph
                    &&& freed == st.freed
                    &&& cascade == st.cascade
                    &&& key_views(evicted@).to_set() == st.evicted
                    &&& evicted@.len() == st.count
                }),
                self.current_weight == current - freed,
            decreases candidates@.len() - i,
        {
            proof {
                lemma_map_total_nonneg(self.tx_weights@);
                assert(cv.take(i + 1).drop_last() =~= cv.take(i as int));
                assert(cv.take(i + 1).last() == cv[i as int]);
            }
            if current + required_weight - freed <= threshold {
                proof {
                    lemma_space_run_done(st0, cv, i as int, base, threshold as int);
                }
                break;
            }
            let ghost wb = self.tx_weights@;
            let step = self.evict_transaction_cascade(candidates[i].as_slice());
            proof {
                assert(candidates@[i as int]@ == cv[i as int]);
                lemma_map_total_nonneg(self.tx_weights@);
            }
            let ghost ev0 = key_views(evicted@);
            let ghost sv = key_views(step.evicted_hashes@);
            let mut more = step.evicted_hashes;
            evicted.append(&mut more);
            proof {
                assert(key_views(evicted@) =~= ev0 + sv);
                lemma_concat_to_set(ev0, sv);
                assert(sv.to_set() =~= sv.drop_first().to_set().insert(sv[0])) by {
                    assert forall|x: Seq<u8>| sv.to_set().contains(x) == sv.drop_first().to_set().insert(sv[0]).contains(x) by {
                        if sv.contains(x) {
                            let z = sv.index_of(x);
                            if z > 0 {
                                assert(sv.drop_first()[z - 1] == x);
                            }
                        }
                        if sv.drop_first().contains(x) {
                            let z = sv.drop_first().index_of(x);
                            assert(sv[z + 1] == x);
                        }
                        assert(sv[0] == sv[0]);
                    }
                }
            }
            let total_len = evicted.len();
            proof {
                assert(evicted@.len() == ev0.len() + sv.len());
                assert(total_len == evicted@.len());
            }
            freed = freed + step.freed_weight;
            cascade = cascade + step.cascade_count;
            i = i + 1;
            proof {
                let st = space_run(st0, cv.take(i as int), base, threshold as int);
                assert(key_views(evicted@).to_set() =~= st.evicted);
            }
        }
        proof {
            if i == candidates@.len() {
                assert(cv.take(candidates@.len() as int) =~= cv);
            }
        }
        WeightEvictionResult { evicted_hashes: evicted, freed_bytes: freed, freed_weight: freed, cascade_count: cascade }
    }

    /// Each tracked transaction with its weight and the number of children
    /// registered for it, in the order they were first tracked: what an
    /// eviction order is built from.
    pub fn candidate_entries(&self) -> (r: Vec<(Vec<u8>, usize, usize)>)
        requires
            self.wf(),
        ensures
            r@.len() == self.weights_view().len(),
            forall|i: int, j: int| 0 <= i < j < r@.len() ==> r@[i].0@ != r@[j].0@,
            forall|i: int| 0 <= i < r@.len() ==> #[trigger] self.weights_view().contains_key(r@[i].0@)
                && r@[i].1 == self.weights_view()[r@[i].0@].total_weight
                && r@[i].2 == (if self.graph_view().contains_key(r@[i].0@) { self.graph_view()[r@[i].0@].len() } else { 0 }),
            forall|k: Seq<u8>| #[trigger] self.weights_view().contains_key(k) ==> exists|i: int| 0 <= i < r@.len() && r@[i].0@ == k,
    {
        proof {
            self.tx_weights.lemma_view();
        }
        let ghost ks = self.tx_weights.key_seq();
        let n = self.tx_weights.len();
        let mut r: Vec<(Vec<u8>, usize, usize)> = Vec::new();
        let mut i: usize = 0;
        while i < n
            invariant
                self.wf(),
                ks == self.tx_weights.key_seq(),
                ks.no_duplicates(),
                ks.to_set() == self.tx_weights@.dom(),
                n == ks.len(),
                i <= n,
                r@.len() == i,
                forall|a: int| 0 <= a < i ==> (#[trigger] r@[a]).0@ == ks[a]
                    && r@[a].1 == self.weights_view()[ks[a]].total_weight
                    && r@[a].2 == (if self.graph_view().contains_key(ks[a]) { self.graph_view()[ks[a]].len() } else { 0 }),
            decreases n - i,
        {
            let key = self.tx_weights.key_at(i);
            let w = self.tx_weights.value_at(i);
            let children = match self.dependency_graph.get(key) {
                Some(list) => list.len(),
                None => 0,
            };
            r.push((copy_bytes(key.as_slice()), w.total_weight, children));
            i = i + 1;
        }
        proof {
            assert forall|a: int, b: int| 0 <= a < b < r@.len() implies r@[a].0@ != r@[b].0@ by {
                assert(r@[a].0@ == ks[a] && r@[b].0@ == ks[b]);
            }
            assert forall|a: int| 0 <= a < r@.len() implies #[trigger] self.weights_view().contains_key(r@[a].0@) by {
                assert(r@[a].0@ == ks[a]);
                assert(ks.to_set().contains(ks[a]));
            }
            assert forall|k: Seq<u8>| #[trigger] self.weights_view().contains_key(k) implies exists|a: int| 0 <= a < r@.len() && r@[a].0@ == k by {
                assert(ks.to_set().contains(k));
                let a = ks.index_of(k);
                assert(r@[a].0@ == ks[a]);
            }
        }
        r
    }

    /// The weight counter.
    pub fn current_weight(&self) -> (w: usize)
        ensures
            w == self.weight_view(),
    {
        self.current_weight
    }

    /// The limit.
    pub fn max_weight(&self) -> (w: usize)
        ensures
            w == self.config_view().max_size_bytes,
    {
        self.config.max_size_bytes
    }

    /// The counter, the limit, the number of transactions tracked and the
    /// counter per transaction, rounded down.
    pub fn get_stats(&self) -> (s: MemoryStats)
        requires
            self.wf(),
        ensures
            s == (MemoryStats {
                current_weight: self.weight_view(),
                max_weight: self.config_view().max_size_bytes,
                transaction_count: self.weights_view().len() as usize,
                average_weight_per_tx: if self.weights_view().len() > 0 { (self.weight_view() / (self.weights_view().len() as usize)) as usize } else { 0 },
            }),
    {
        let current = self.current_weight;
        let max = self.config.max_size_bytes;
        let tx_count = self.tx_weights.len();
        let avg = if tx_count > 0 { current / tx_count } else { 0 };
        MemoryStats { current_weight: current, max_weight: max, transaction_count: tx_count, average_weight_per_tx: avg }
    }

    /// Stops tracking everything and sets the counter to zero.
    pub fn clear(&mut self)
        ensures
            final(self).wf(),
            final(self).weights_view() == Map::<Seq<u8>, TransactionWeight>::empty(),
            final(self).graph_view() == Map::<Seq<u8>, Seq<Seq<u8>>>::empty(),
            final(self).weight_view() == 0,
            final(self).config_view() == old(self).config_view(),
    {
        self.current_weight = 0;
        self.tx_weights.clear();
        self.dependency_graph.clear();
        proof {
            assert(self.tx_weights@.dom() =~= Set::<Seq<u8>>::empty());
            assert(self.graph_view() =~= Map::<Seq<u8>, Seq<Seq<u8>>>::empty());
        }
    }
}

/// The first `i + 1` elements hold what the first `i` hold, and `s[i]`.
proof fn lemma_take_one_more_keys(s: Seq<Seq<u8>>, i: int)
    requires
        0 <= i < s.len(),
    ensures
        forall|x: Seq<u8>| #[trigger] s.take(i + 1).contains(x) == (s.take(i).contains(x) || x == s[i]),
{
    assert forall|x: Seq<u8>| #[trigger] s.take(i + 1).contains(x) == (s.take(i).contains(x) || x == s[i]) by {
        if s.take(i).contains(x) {
            let j = s.take(i).index_of(x);
            assert(s.take(i + 1)[j] == x);
        }
        if x == s[i] {
            assert(s.take(i + 1)[i] == x);
        }
        if s.take(i + 1).contains(x) {
            let j = s.take(i + 1).index_of(x);
            if j < i {
                assert(s.take(i)[j] == x);
            }
        }
    }
}

/// A child of something `h` reaches is reached too.
proof fn lemma_reach_star_step(g: Map<Seq<u8>, Seq<Seq<u8>>>, h: Seq<u8>, v: Seq<u8>, c: Seq<u8>)
    requires
        reach_star(g, h).contains(v),
        edge(graph_of(g), v, c),
    ensures
        reach_star(g, h).contains(c),
{
    let gg = graph_of(g);
    if v == h {
        lemma_reach_zero(gg, c);
        assert(edge(gg, h, c) && reachable(gg, c, c));
    } else {
        let y = choose|y: Seq<u8>| #[trigger] edge(gg, h, y) && reachable(gg, y, v);
        lemma_reach_step(gg, y, v, c);
        assert(edge(gg, h, y) && reachable(gg, y, c));
    }
}

/// The members of a concatenation are those of its parts.
proof fn lemma_concat_to_set(a: Seq<Seq<u8>>, b: Seq<Seq<u8>>)
    ensures
        (a + b).to_set() == a.to_set() + b.to_set(),
{
    assert forall|x: Seq<u8>| (a + b).to_set().contains(x) == (a.to_set() + b.to_set()).contains(x) by {
        if (a + b).contains(x) {
            let i = (a + b).index_of(x);
            if i < a.len() {
                assert(a[i] == x);
            } else {
                assert(b[i - a.len()] == x);
            }
        }
        if a.contains(x) {
            let i = a.index_of(x);
            assert((a + b)[i] == x);
        }
        if b.contains(x) {
            let i = b.index_of(x);
            assert((a + b)[a.len() + i] == x);
        }
    }
    assert((a + b).to_set() =~= a.to_set() + b.to_set());
}

/// What `h` reaches along the child lists, `h` included.
pub open spec fn reach_star(g: Map<Seq<u8>, Seq<Seq<u8>>>, h: Seq<u8>) -> Set<Seq<u8>> {
    reach_plus(graph_of(g), h).insert(h)
}

/// The length of the child list of each key; zero without one.
pub open spec fn list_len_of(g: Map<Seq<u8>, Seq<Seq<u8>>>) -> spec_fn(Seq<u8>) -> int {
    |k: Seq<u8>| if g.contains_key(k) { g[k].len() as int } else { 0 }
}

/// The children of the members of `s`.
pub open spec fn children_of(g: Map<Seq<u8>, Seq<Seq<u8>>>, s: Set<Seq<u8>>) -> Set<Seq<u8>> {
    Set::new(|x: Seq<u8>| exists|v: Seq<u8>| s.contains(v) && #[trigger] edge(graph_of(g), v, x))
}

/// A walk of two or more steps ends with an edge from a vertex it reaches.
proof fn lemma_last_step(g: Map<Seq<u8>, Set<Seq<u8>>>, y: Seq<u8>, x: Seq<u8>)
    requires
        reachable(g, y, x),
        x != y,
    ensures
        exists|v: Seq<u8>| #[trigger] edge(g, v, x) && reachable(g, y, v),
{
    let p = choose|p: Seq<Seq<u8>>| #[trigger] walk_from_to(g, p, y, x);
    assert(p.len() >= 2) by {
        if p.len() == 1 {
            assert(p[0] == y && p[p.len() - 1] == x);
        }
    }
    let n = p.len() - 1;
    let v = p[n - 1];
    let q = p.take(n);
    assert forall|i: int| 0 <= i < q.len() - 1 implies #[trigger] step_ok(g, q, i) by {
        assert(step_ok(g, p, i));
    }
    assert(walk_from_to(g, q, y, v));
    assert(step_ok(g, p, n - 1));
    assert(edge(g, v, x));
}

/// The children of everything `h` reaches are what it reaches in one or
/// more steps.
proof fn lemma_children_of_reach(g: Map<Seq<u8>, Seq<Seq<u8>>>, h: Seq<u8>)
    ensures
        children_of(g, reach_star(g, h)) == reach_plus(graph_of(g), h),
{
    let gg = graph_of(g);
    assert forall|x: Seq<u8>| children_of(g, reach_star(g, h)).contains(x) implies reach_plus(gg, h).contains(x) by {
        let v = choose|v: Seq<u8>| reach_star(g, h).contains(v) && #[trigger] edge(gg, v, x);
        if v == h {
            lemma_reach_zero(gg, x);
            assert(edge(gg, h, x) && reachable(gg, x, x));
        } else {
            let y = choose|y: Seq<u8>| #[trigger] edge(gg, h, y) && reachable(gg, y, v);
            lemma_reach_step(gg, y, v, x);
            assert(edge(gg, h, y) && reachable(gg, y, x));
        }
    }
    assert forall|x: Seq<u8>| reach_plus(gg, h).contains(x) implies children_of(g, reach_star(g, h)).contains(x) by {
        let y = choose|y: Seq<u8>| #[trigger] edge(gg, h, y) && reachable(gg, y, x);
        if x == y {
            assert(reach_star(g, h).contains(h) && edge(gg, h, x));
        } else {
            lemma_last_step(gg, y, x);
            let v = choose|v: Seq<u8>| #[trigger] edge(gg, v, x) && reachable(gg, y, v);
            assert(edge(gg, h, y) && reachable(gg, y, v));
            assert(reach_plus(gg, h).contains(v));
            assert(reach_star(g, h).contains(v) && edge(gg, v, x));
        }
    }
    assert(children_of(g, reach_star(g, h)) =~= reach_plus(gg, h));
}

/// What `h` reaches is finite.
proof fn lemma_reach_star_finite(g: Map<Seq<u8>, Seq<Seq<u8>>>, h: Seq<u8>)
    requires
        g.dom().finite(),
    ensures
        reach_star(g, h).finite(),
{
    lemma_graph_finite(g);
    assert(reach_plus(graph_of(g), h).subset_of(edge_targets(graph_of(g)))) by {
        assert forall|x: Seq<u8>| reach_plus(graph_of(g), h).contains(x) implies edge_targets(graph_of(g)).contains(x) by {
            let y = choose|y: Seq<u8>| #[trigger] edge(graph_of(g), h, y) && reachable(graph_of(g), y, x);
            if x == y {
                assert(edge(graph_of(g), h, x));
            } else {
                lemma_last_step(graph_of(g), y, x);
                let v = choose|v: Seq<u8>| #[trigger] edge(graph_of(g), v, x) && reachable(graph_of(g), y, v);
            }
        }
    }
    vstd::set_lib::lemma_set_subset_finite(edge_targets(graph_of(g)), reach_plus(graph_of(g), h));
}

/// The children of the members of `s` are closed under insertion of a new
/// member: its own children join.
proof fn lemma_children_of_insert(g: Map<Seq<u8>, Seq<Seq<u8>>>, s: Set<Seq<u8>>, v: Seq<u8>)
    ensures
        children_of(g, s.insert(v)) == children_of(g, s) + (if g.contains_key(v) { g[v].to_set() } else { Set::empty() }),
{
    let gg = graph_of(g);
    assert forall|x: Seq<u8>| children_of(g, s.insert(v)).contains(x) implies
        (children_of(g, s) + (if g.contains_key(v) { g[v].to_set() } else { Set::<Seq<u8>>::empty() })).contains(x) by {
        let w = choose|w: Seq<u8>| s.insert(v).contains(w) && #[trigger] edge(gg, w, x);
        if w != v {
            assert(s.contains(w) && edge(gg, w, x));
        }
    }
    assert forall|x: Seq<u8>| (children_of(g, s) + (if g.contains_key(v) { g[v].to_set() } else { Set::<Seq<u8>>::empty() })).contains(x)
        implies children_of(g, s.insert(v)).contains(x) by {
        if children_of(g, s).contains(x) {
            let w = choose|w: Seq<u8>| s.contains(w) && #[trigger] edge(gg, w, x);
            assert(s.insert(v).contains(w) && edge(gg, w, x));
        } else {
            assert(s.insert(v).contains(v) && edge(gg, v, x));
        }
    }
    assert(children_of(g, s.insert(v)) =~= children_of(g, s) + (if g.contains_key(v) { g[v].to_set() } else { Set::<Seq<u8>>::empty() }));
}

/// Where making space stands.
#[verifier::ext_equal]
pub struct SpaceState {
    pub weights: Map<Seq<u8>, TransactionWeight>,
    pub graph: Map<Seq<u8>, Seq<Seq<u8>>>,
    pub freed: int,
    pub cascade: int,
    /// Hashes evicted so far
    pub evicted: Set<Seq<u8>>,
    /// Length of the list of evicted hashes, repeats counted
    pub count: int,
    /// No more candidates are taken
    pub done: bool,
}

/// One candidate: taken, with everything it reaches, while the weight
/// `base` less what was freed stays above `threshold`.
pub open spec fn space_step(st: SpaceState, c: Seq<u8>, base: int, threshold: int) -> SpaceState {
    if st.done || base - st.freed <= threshold {
        SpaceState { done: true, ..st }
    } else {
        let r = reach_star(st.graph, c);
        let w2 = st.weights.remove_keys(r);
        let k = set_total(r, list_len_of(st.graph));
        SpaceState {
            weights: w2,
            graph: unlinked(st.graph, c),
            freed: st.freed + map_total(st.weights) - map_total(w2),
            cascade: st.cascade + k,
            evicted: st.evicted + r,
            count: st.count + 1 + k,
            done: false,
        }
    }
}

/// The candidates `cs`, one after the other.
pub open spec fn space_run(st: SpaceState, cs: Seq<Seq<u8>>, base: int, threshold: int) -> SpaceState
    decreases cs.len(),
{
    if cs.len() == 0 {
        st
    } else {
        space_step(space_run(st, cs.drop_last(), base, threshold), cs.last(), base, threshold)
    }
}

/// Once the weight is down to the threshold, later candidates change
/// nothing.
proof fn lemma_space_run_done(st0: SpaceState, cs: Seq<Seq<u8>>, i: int, base: int, threshold: int)
    requires
        0 <= i < cs.len(),
        base - space_run(st0, cs.take(i), base, threshold).freed <= threshold,
    ensures
        space_run(st0, cs, base, threshold) == (SpaceState { done: true, ..space_run(st0, cs.take(i), base, threshold) }),
    decreases cs.len() - i,
{
    assert(cs.take(i + 1).drop_last() =~= cs.take(i));
    assert(cs.take(i + 1).last() == cs[i]);
    let a = space_run(st0, cs.take(i), base, threshold);
    let b = space_run(st0, cs.take(i + 1), base, threshold);
    assert(b == (SpaceState { done: true, ..a }));
    if i + 1 < cs.len() {
        lemma_space_run_done(st0, cs, i + 1, base, threshold);
    } else {
        assert(cs.take(i + 1) =~= cs);
    }
}

/// The graph after `h` loses its own entry and leaves every list that names
/// it; lists left empty go.
pub open spec fn unlinked(g: Map<Seq<u8>, Seq<Seq<u8>>>, h: Seq<u8>) -> Map<Seq<u8>, Seq<Seq<u8>>> {
    Map::new(
        |p: Seq<u8>| g.contains_key(p) && p != h && (g[p].contains(h) ==> without_member(g[p], h).len() > 0),
        |p: Seq<u8>| if g[p].contains(h) { without_member(g[p], h) } else { g[p] },
    )
}

/// The children without `c` under `p`; `p` goes when none are left.
pub open spec fn unregistered(g: Map<Seq<u8>, Seq<Seq<u8>>>, p: Seq<u8>, c: Seq<u8>) -> Map<Seq<u8>, Seq<Seq<u8>>> {
    if g.contains_key(p) {
        if without_member(g[p], c).len() == 0 {
            g.remove(p)
        } else {
            g.insert(p, without_member(g[p], c))
        }
    } else {
        g
    }
}

} // verus!
