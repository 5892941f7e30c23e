//! Eviction that follows dependencies: evicting a transaction also evicts
//! the dependents that have no other pending ancestor left.

use vstd::prelude::*;
use crate::advanced_dependency_manager::{TxDependencyManager, TxHash, reach_plus, graph_of, list_or_empty, cascade_closed};
use crate::keyed::key_set_of;
use crate::counter::{wrap_usize, lemma_wrap_usize_zero, lemma_wrap_usize_step};
use crate::dependency_ordering_engine::ancestors;
use crate::keyed::{KeyOps, key_views, list_contains};
use crate::storage_error::StorageError;

verus! {

/// Why a transaction was evicted.
#[derive(Clone, Copy, Debug, PartialEq, Eq)]
pub enum EvictionReason {
    LowFees,
    Timeout,
    ConflictLoss,
    ParentEvicted,
    ManualEviction,
    MemoryPressure,
}

/// The elements of `s` at the positions where `sel` holds `true`, in order.
pub open spec fn select_by(s: Seq<Seq<u8>>, sel: Seq<bool>) -> Seq<Seq<u8>>
    decreases s.len(),
{
    if s.len() == 0 || sel.len() == 0 {
        Seq::empty()
    } else if sel.last() {
        select_by(s.drop_last(), sel.drop_last()).push(s.last())
    } else {
        select_by(s.drop_last(), sel.drop_last())
    }
}

/// `x` has dependents listed.
pub open spec fn has_children(cm: Map<Seq<u8>, Seq<Seq<u8>>>, x: Seq<u8>) -> bool {
    cm.contains_key(x) && cm[x].len() > 0
}

/// The answers `sel`, with each position whose transaction has dependents
/// turned to `false`.
pub open spec fn keep_childless(cm: Map<Seq<u8>, Seq<Seq<u8>>>, s: Seq<Seq<u8>>, sel: Seq<bool>) -> Seq<bool> {
    Seq::new(sel.len(), |i: int| sel[i] && !has_children(cm, s[i]))
}

proof fn lemma_select_by_exact(s: Seq<Seq<u8>>, sel: Seq<bool>)
    requires
        sel.len() == s.len(),
    ensures
        forall|x: Seq<u8>| #[trigger] select_by(s, sel).contains(x)
            <==> exists|i: int| 0 <= i < s.len() && sel[i] && #[trigger] s[i] == x,
    decreases s.len(),
{
    if s.len() > 0 {
        let q = s.drop_last();
        let qs = sel.drop_last();
        lemma_select_by_exact(q, qs);
        let r = select_by(q, qs);
        assert forall|x: Seq<u8>| #[trigger] select_by(s, sel).contains(x)
            <==> exists|i: int| 0 <= i < s.len() && sel[i] && #[trigger] s[i] == x by {
            if select_by(s, sel).contains(x) {
                if r.contains(x) {
                    let i = choose|i: int| 0 <= i < q.len() && qs[i] && #[trigger] q[i] == x;
                    assert(s[i] == q[i] && sel[i] == qs[i]);
                } else {
                    assert(sel.last());
                    let j = r.push(s.last()).index_of(x);
                    if j < r.len() {
                        assert(r[j] == x);
                    }
                    assert(s[s.len() - 1] == x);
                }
            }
            if exists|i: int| 0 <= i < s.len() && sel[i] && #[trigger] s[i] == x {
                let i = choose|i: int| 0 <= i < s.len() && sel[i] && #[trigger] s[i] == x;
                if i < s.len() - 1 {
                    assert(q[i] == s[i] && qs[i] == sel[i]);
                    assert(r.contains(x));
                    if sel.last() {
                        let j = r.index_of(x);
                        assert(r.push(s.last())[j] == x);
                    }
                } else {
                    assert(r.push(s.last())[r.len() as int] == s.last());
                }
            }
        }
    }
}

/// Eviction by a criterion takes exactly the transactions the criterion
/// picked that have no dependents listed: a hash is evicted exactly when it
/// is at a position the criterion answered `true` for and it has no
/// children in the dependency map.
pub proof fn lemma_evicts_only_picked_childless(cm: Map<Seq<u8>, Seq<Seq<u8>>>, s: Seq<Seq<u8>>, sel: Seq<bool>)
    requires
        sel.len() == s.len(),
    ensures
        forall|x: Seq<u8>| #[trigger] select_by(s, keep_childless(cm, s, sel)).contains(x)
            <==> exists|i: int| 0 <= i < s.len() && sel[i] && #[trigger] s[i] == x
                && !(cm.contains_key(x) && cm[x].len() > 0),
{
    let k = keep_childless(cm, s, sel);
    lemma_select_by_exact(s, k);
    assert forall|x: Seq<u8>| #[trigger] select_by(s, k).contains(x)
        <==> exists|i: int| 0 <= i < s.len() && sel[i] && #[trigger] s[i] == x
            && !(cm.contains_key(x) && cm[x].len() > 0) by {
        if select_by(s, k).contains(x) {
            let i = choose|i: int| 0 <= i < s.len() && k[i] && #[trigger] s[i] == x;
            assert(k[i] == (sel[i] && !has_children(cm, s[i])));
        }
        if exists|i: int| 0 <= i < s.len() && sel[i] && #[trigger] s[i] == x
            && !(cm.contains_key(x) && cm[x].len() > 0) {
            let i = choose|i: int| 0 <= i < s.len() && sel[i] && #[trigger] s[i] == x
                && !(cm.contains_key(x) && cm[x].len() > 0);
            assert(k[i]);
        }
    }
}

/// `criterion` may answer `b` for a hash whose view is `x`.
pub open spec fn picked_as<F: Fn(&TxHash) -> bool>(criterion: F, x: Seq<u8>, b: bool) -> bool {
    exists|h: TxHash| h@ == x && #[trigger] call_ensures(criterion, (&h,), b)
}

/// One eviction.
#[derive(Clone, Debug)]
pub struct EvictionRecord {
    /// The evicted transaction
    pub tx_hash: TxHash,
    /// Why
    pub reason: EvictionReason,
    /// Whether it went because an ancestor went
    pub is_cascade: bool,
    /// For the first transaction of a cascade, how many dependents had been
    /// marked for eviction when it was removed; 0 for the others
    pub dependents_evicted: usize,
}

impl EvictionRecord {
    /// A copy of the record.
    pub fn duplicate(&self) -> (c: Self)
        ensures
            c.tx_hash@ == self.tx_hash@,
            c.reason == self.reason,
            c.is_cascade == self.is_cascade,
            c.dependents_evicted == self.dependents_evicted,
    {
        EvictionRecord {
            tx_hash: crate::bytes::copy_bytes(self.tx_hash.as_slice()),
            reason: self.reason,
            is_cascade: self.is_cascade,
            dependents_evicted: self.dependents_evicted,
        }
    }
}

/// Counters of the eviction system.
pub struct EvictionStats {
    pub total_evicted: usize,
    pub cascade_evictions: usize,
    pub preserved_with_alt_parents: usize,
    /// The latest records, oldest first, at most 1000
    pub recent_evictions: Vec<EvictionRecord>,
    pub max_cascade_depth: usize,
}

/// What a cascade eviction did.
pub struct CascadeEvictionResult {
    /// The transaction the cascade started from
    pub primary_eviction: TxHash,
    /// The dependents marked for eviction, in the order they were marked
    pub cascaded_evictions: Vec<TxHash>,
    /// The dependents kept because they still had another pending ancestor
    pub preserved_transactions: Vec<TxHash>,
}

/// Most records the statistics keep.
pub const MAX_RECENT_EVICTIONS: usize = 1000;

impl EvictionStats {
    /// No evictions yet.
    pub fn new() -> (s: Self)
        ensures
            s.total_evicted == 0,
            s.cascade_evictions == 0,
            s.preserved_with_alt_parents == 0,
            s.recent_evictions@.len() == 0,
            s.max_cascade_depth == 0,
    {
        EvictionStats { total_evicted: 0, cascade_evictions: 0, preserved_with_alt_parents: 0, recent_evictions: Vec::new(), max_cascade_depth: 0 }
    }

    /// A copy of the statistics.
    pub fn duplicate(&self) -> (c: Self)
        ensures
            c.total_evicted == self.total_evicted,
            c.cascade_evictions == self.cascade_evictions,
            c.preserved_with_alt_parents == self.preserved_with_alt_parents,
            c.max_cascade_depth == self.max_cascade_depth,
            c.recent_evictions@.len() == self.recent_evictions@.len(),
            forall|i: int| 0 <= i < self.recent_evictions@.len() ==> record_view(#[trigger] c.recent_evictions@[i]) == record_view(self.recent_evictions@[i]),
    {
        let mut recent: Vec<EvictionRecord> = Vec::new();
        let mut i: usize = 0;
        while i < self.recent_evictions.len()
            invariant
                i <= self.recent_evictions@.len(),
                recent@.len() == i,
                forall|j: int| 0 <= j < i ==> record_view(#[trigger] recent@[j]) == record_view(self.recent_evictions@[j]),
            decreases self.recent_evictions@.len() - i,
        {
            recent.push(self.recent_evictions[i].duplicate());
            i = i + 1;
        }
        EvictionStats {
            total_evicted: self.total_evicted,
            cascade_evictions: self.cascade_evictions,
            preserved_with_alt_parents: self.preserved_with_alt_parents,
            recent_evictions: recent,
            max_cascade_depth: self.max_cascade_depth,
        }
    }
}

/// A record as a value.
pub open spec fn record_view(r: EvictionRecord) -> (Seq<u8>, EvictionReason, bool, usize) {
    (r.tx_hash@, r.reason, r.is_cascade, r.dependents_evicted)
}

/// Evicts transactions, and with them the dependents left without another
/// pending ancestor.
pub struct DependencyEvictionSystem {
    stats: EvictionStats,
}

impl DependencyEvictionSystem {
    /// The counters and records.
    pub closed spec fn stats_view(&self) -> EvictionStats {
        self.stats
    }

    pub fn new() -> (e: Self)
        ensures
            e.stats_view().total_evicted == 0,
            e.stats_view().cascade_evictions == 0,
            e.stats_view().preserved_with_alt_parents == 0,
            e.stats_view().recent_evictions@.len() == 0,
            e.stats_view().max_cascade_depth == 0,
    {
        DependencyEvictionSystem { stats: EvictionStats::new() }
    }

    /// Appends a record, dropping the oldest beyond the limit.
    fn record(&mut self, rec: EvictionRecord)
        ensures
            final(self).stats_view().total_evicted == old(self).stats_view().total_evicted,
            final(self).stats_view().cascade_evictions == old(self).stats_view().cascade_evictions,
            final(self).stats_view().preserved_with_alt_parents == old(self).stats_view().preserved_with_alt_parents,
            final(self).stats_view().max_cascade_depth == old(self).stats_view().max_cascade_depth,
            ({
                let before = old(self).stats_view().recent_evictions@.push(rec);
                final(self).stats_view().recent_evictions@ == (if before.len() > MAX_RECENT_EVICTIONS { before.drop_first() } else { before })
            }),
    {
        self.stats.recent_evictions.push(rec);
        if self.stats.recent_evictions.len() > MAX_RECENT_EVICTIONS {
            self.stats.recent_evictions.remove(0);
            proof {
                let v = self.stats.recent_evictions@;
                assert(v =~= old(self).stats_view().recent_evictions@.push(rec).drop_first());
            }
        }
    }

    /// Asks `criterion` about each transaction at depth 0, in the order the
    /// depth index lists them, and evicts, in that order, those it selects
    /// that have no dependents.
    pub fn evict_by_criteria<F: Fn(&TxHash) -> bool>(&mut self, deps: &mut TxDependencyManager, criterion: F, reason: EvictionReason)
        -> (r: Result<Vec<TxHash>, StorageError>)
        requires
            old(deps).wf(),
            forall|h: TxHash| #[trigger] criterion.requires((&h,)),
        ensures
            final(deps).wf(),
            r matches Ok(v) && {
                &&& forall|x: Seq<u8>| #[trigger] key_views(v@).contains(x) ==>
                    old(deps).depth_view().contains_key(x) && old(deps).depth_view()[x] == 0
                    && !has_children(old(deps).children_view(), x)
                    && !final(deps).depth_view().contains_key(x)
                &&& final(deps).depth_view().dom().subset_of(old(deps).depth_view().dom())
                &&& exists|sel: Seq<bool>| #![trigger keep_childless(old(deps).children_view(), list_or_empty(old(deps).levels_view(), 0u32), sel)]
                    sel.len() == list_or_empty(old(deps).levels_view(), 0u32).len()
                    && (forall|i: int| 0 <= i < sel.len() ==> #[trigger] picked_as(criterion, list_or_empty(old(deps).levels_view(), 0u32)[i], sel[i]))
                    && key_views(v@) == select_by(list_or_empty(old(deps).levels_view(), 0u32),
                        keep_childless(old(deps).children_view(), list_or_empty(old(deps).levels_view(), 0u32), sel))
                &&& final(self).stats_view().total_evicted == wrap_usize(old(self).stats_view().total_evicted, v@.len())
                &&& final(self).stats_view().recent_evictions@.len() == old(self).stats_view().recent_evictions@.len() + v@.len()
                &&& forall|j: int| 0 <= j < old(self).stats_view().recent_evictions@.len() ==>
                    #[trigger] final(self).stats_view().recent_evictions@[j] == old(self).stats_view().recent_evictions@[j]
                &&& forall|j: int| 0 <= j < v@.len() ==> {
                    let rec = #[trigger] final(self).stats_view().recent_evictions@[old(self).stats_view().recent_evictions@.len() + j];
                    &&& rec.tx_hash@ == key_views(v@)[j]
                    &&& rec.reason == reason
                    &&& !rec.is_cascade
                    &&& rec.dependents_evicted == 0
                }
            },
    {
        let leaves = deps.get_transactions_at_depth(0);
        let ghost lv = key_views(leaves@);
        let ghost cm0 = deps.children_view();
        let ghost mut sel: Seq<bool> = Seq::empty();
        let mut chosen: Vec<TxHash> = Vec::new();
        let mut i: usize = 0;
        proof {
            assert(lv.take(0) =~= Seq::<Seq<u8>>::empty());
            assert(key_views(chosen@) =~= select_by(lv.take(0), keep_childless(cm0, lv.take(0), sel)));
        }
        while i < leaves.len()
            invariant
                deps.wf(),
                *deps == *old(deps),
                cm0 == old(deps).children_view(),
                lv == key_views(leaves@),
                lv == list_or_empty(old(deps).levels_view(), 0u32),
                forall|x: Seq<u8>| #[trigger] lv.contains(x) ==> old(deps).depth_view().contains_key(x) && old(deps).depth_view()[x] == 0,
                forall|h: TxHash| #[trigger] criterion.requires((&h,)),
                i <= lv.len(),
                sel.len() == i,
                forall|j: int| 0 <= j < i ==> #[trigger] picked_as(criterion, lv[j], sel[j]),
                key_views(chosen@) == select_by(lv.take(i as int), keep_childless(cm0, lv.take(i as int), sel)),
                forall|x: Seq<u8>| #[trigger] key_views(chosen@).contains(x) ==> lv.contains(x) && !has_children(cm0, x),
            decreases lv.len() - i,
        {
            let tx = &leaves[i];
            proof {
                assert(lv[i as int] == tx@);
                assert(lv.contains(tx@));
            }
            let selected = criterion(tx);
            let ghost sel0 = sel;
            let ghost ch0 = key_views(chosen@);
            let kids = deps.get_dependent_children(tx);
            let childless = kids.len() == 0;
            proof {
                assert(picked_as(criterion, lv[i as int], selected));
                sel = sel.push(selected);
                assert(lv.take(i + 1) =~= lv.take(i as int).push(lv[i as int]));
                assert(sel.drop_last() =~= sel0);
                assert(lv.take(i + 1).drop_last() =~= lv.take(i as int));
                assert(key_views(kids@).len() == kids@.len());
                assert(childless == !has_children(cm0, tx@));
                assert(keep_childless(cm0, lv.take(i + 1), sel).drop_last() =~= keep_childless(cm0, lv.take(i as int), sel0));
                assert(keep_childless(cm0, lv.take(i + 1), sel).last() == (selected && childless));
                assert forall|j: int| 0 <= j < i + 1 implies #[trigger] picked_as(criterion, lv[j], sel[j]) by {
                    if j < i {
                        assert(sel[j] == sel0[j]);
                    }
                }
            }
            if selected && childless {
                chosen.push(crate::bytes::copy_bytes(tx.as_slice()));
                proof {
                    assert(key_views(chosen@) =~= ch0.push(tx@));
                    assert forall|x: Seq<u8>| #[trigger] key_views(chosen@).contains(x) implies lv.contains(x) && !has_children(cm0, x) by {
                        if x != tx@ {
                            assert(ch0.contains(x));
                        }
                    }
                }
            }
            i = i + 1;
        }
        proof {
            assert(lv.take(lv.len() as int) =~= lv);
        }
        let ghost cv = key_views(chosen@);
        let ghost s0 = self.stats;
        let mut evicted: Vec<TxHash> = Vec::new();
        let mut k: usize = 0;
        proof {
            lemma_wrap_usize_zero(s0.total_evicted);
            assert(key_views(evicted@) =~= cv.take(0));
        }
        while k < chosen.len()
            invariant
                deps.wf(),
                cv == key_views(chosen@),
                k <= cv.len(),
                key_views(evicted@) == cv.take(k as int),
                forall|x: Seq<u8>| #[trigger] cv.contains(x) ==> lv.contains(x) && !has_children(cm0, x),
                forall|x: Seq<u8>| #[trigger] lv.contains(x) ==> old(deps).depth_view().contains_key(x) && old(deps).depth_view()[x] == 0,
                deps.depth_view().dom().subset_of(old(deps).depth_view().dom()),
                forall|x: Seq<u8>| #[trigger] key_views(evicted@).contains(x) ==> !deps.depth_view().contains_key(x),
                self.stats.total_evicted == wrap_usize(s0.total_evicted, evicted@.len()),
                self.stats.recent_evictions@.len() == s0.recent_evictions@.len() + evicted@.len(),
                forall|j: int| 0 <= j < s0.recent_evictions@.len() ==>
                    #[trigger] self.stats.recent_evictions@[j] == s0.recent_evictions@[j],
                forall|j: int| 0 <= j < evicted@.len() ==> {
                    let rec = #[trigger] self.stats.recent_evictions@[s0.recent_evictions@.len() + j];
                    &&& rec.tx_hash@ == key_views(evicted@)[j]
                    &&& rec.reason == reason
                    &&& !rec.is_cascade
                    &&& rec.dependents_evicted == 0
                },
            decreases cv.len() - k,
        {
            let tx = &chosen[k];
            let ghost ev0 = key_views(evicted@);
            proof {
                assert(cv[k as int] == tx@);
                assert(cv.take(k + 1) =~= cv.take(k as int).push(tx@));
            }
            deps.remove_transaction(tx);
            let copy = crate::bytes::copy_bytes(tx.as_slice());
            evicted.push(copy);
            proof {
                assert(key_views(evicted@) =~= ev0.push(tx@));
                assert forall|x: Seq<u8>| #[trigger] key_views(evicted@).contains(x) implies !deps.depth_view().contains_key(x) by {
                    if x != tx@ {
                        assert(ev0.contains(x));
                    }
                }
                lemma_wrap_usize_step(s0.total_evicted, (evicted@.len() - 1) as nat, 1);
            }
            self.stats.total_evicted = self.stats.total_evicted.wrapping_add(1);
            let ghost r0 = self.stats.recent_evictions@;
            let rec = EvictionRecord { tx_hash: crate::bytes::copy_bytes(tx.as_slice()), reason, is_cascade: false, dependents_evicted: 0 };
            self.stats.recent_evictions.push(rec);
            proof {
                assert forall|j: int| 0 <= j < evicted@.len() implies {
                    let rec = #[trigger] self.stats.recent_evictions@[s0.recent_evictions@.len() + j];
                    &&& rec.tx_hash@ == key_views(evicted@)[j]
                    &&& rec.reason == reason
                    &&& !rec.is_cascade
                    &&& rec.dependents_evicted == 0
                } by {
                    if j < evicted@.len() - 1 {
                        assert(self.stats.recent_evictions@[s0.recent_evictions@.len() + j] == r0[s0.recent_evictions@.len() + j]);
                        assert(key_views(evicted@)[j] == ev0[j]);
                    }
                }
                assert forall|j: int| 0 <= j < s0.recent_evictions@.len() implies
                    #[trigger] self.stats.recent_evictions@[j] == s0.recent_evictions@[j] by {
                    assert(self.stats.recent_evictions@[j] == r0[j]);
                }
            }
            k = k + 1;
        }
        proof {
            assert(cv.take(cv.len() as int) =~= cv);
            assert(key_views(evicted@) == select_by(lv, keep_childless(cm0, lv, sel)));
            assert(sel.len() == lv.len());
            assert(forall|i: int| 0 <= i < sel.len() ==> #[trigger] picked_as(criterion, lv[i], sel[i]));
            assert forall|x: Seq<u8>| #[trigger] key_views(evicted@).contains(x) implies
                old(deps).depth_view().contains_key(x) && old(deps).depth_view()[x] == 0
                && !has_children(old(deps).children_view(), x) && !deps.depth_view().contains_key(x) by {
                assert(cv.contains(x));
            }
        }
        Ok(evicted)
    }

    /// The dependents of `tx_hash` whose only ancestor is `tx_hash`.
    pub fn get_orphaned_dependents(&self, deps: &TxDependencyManager, tx_hash: &TxHash) -> (r: Result<Vec<TxHash>, StorageError>)
        requires
            deps.wf(),
        ensures
            r matches Ok(v) && {
                &&& key_views(v@).no_duplicates()
                &&& key_views(v@).to_set() == reach_plus(graph_of(deps.children_view()), tx_hash@).filter(
                    |d: Seq<u8>| ancestors(deps.parents_view(), d) == set![tx_hash@])
            },
    {
        let ghost pm = deps.parents_view();
        let ghost pred = |d: Seq<u8>| ancestors(pm, d) == set![tx_hash@];
        let dependents = deps.get_all_transitive_dependents(tx_hash);
        let ghost dv = key_views(dependents@);
        let mut orphaned: Vec<TxHash> = Vec::new();
        let mut i: usize = 0;
        proof {
            assert(dv.take(0).to_set().filter(pred) =~= Set::<Seq<u8>>::empty());
            assert(key_views(orphaned@).to_set() =~= Set::<Seq<u8>>::empty());
        }
        while i < dependents.len()
            invariant
                deps.wf(),
                pm == deps.parents_view(),
                pred == (|d: Seq<u8>| ancestors(pm, d) == set![tx_hash@]),
                dv == key_views(dependents@),
                dv.no_duplicates(),
                i <= dv.len(),
                key_views(orphaned@).no_duplicates(),
                key_views(orphaned@).to_set() == dv.take(i as int).to_set().filter(pred),
            decreases dv.len() - i,
        {
            let d = &dependents[i];
            let ghost x = d@;
            proof {
                assert(dv[i as int] == x);
                assert(dv.take(i + 1) =~= dv.take(i as int).push(x));
                dv.take(i as int).lemma_push_to_set_commute(x);
                assert(!dv.take(i as int).contains(x)) by {
                    if dv.take(i as int).contains(x) {
                        let w = dv.take(i as int).index_of(x);
                        assert(dv[w] == dv[i as int]);
                    }
                }
            }
            let ancestors_list = deps.get_executable_ancestors(d);
            let ghost av = key_views(ancestors_list@);
            let only = ancestors_list.len() == 1 && list_contains(&ancestors_list, tx_hash.as_slice());
            proof {
                assert(av.to_set() == ancestors(pm, x));
                av.unique_seq_to_set();
                if only {
                    assert(av.to_set() =~= set![tx_hash@]) by {
                        assert forall|z: Seq<u8>| av.to_set().contains(z) implies z == tx_hash@ by {
                            let w = av.index_of(z);
                            let u = av.index_of(tx_hash@);
                            assert(w == 0 && u == 0);
                        }
                    }
                } else {
                    if ancestors(pm, x) == set![tx_hash@] {
                        assert(set![tx_hash@].len() == 1);
                        assert(av.to_set().contains(tx_hash@));
                        assert(av.contains(tx_hash@));
                    }
                }
            }
            if only {
                let ghost ob = key_views(orphaned@);
                proof {
                    assert(!ob.contains(x)) by {
                        if ob.contains(x) {
                            assert(ob.to_set().contains(x));
                        }
                    }
                    crate::dependency_ordering_engine::lemma_push_distinct(ob, x);
                }
                orphaned.push(crate::bytes::copy_bytes(d.as_slice()));
                proof {
                    assert(key_views(orphaned@) =~= ob.push(x));
                    assert(key_views(orphaned@).to_set() =~= dv.take(i + 1).to_set().filter(pred));
                }
            } else {
                proof {
                    assert(key_views(orphaned@).to_set() =~= dv.take(i + 1).to_set().filter(pred));
                }
            }
            i = i + 1;
        }
        proof {
            assert(dv.take(dv.len() as int) =~= dv);
        }
        Ok(orphaned)
    }

    /// A copy of the counters and records.
    pub fn get_stats(&self) -> (s: EvictionStats)
        ensures
            s.total_evicted == self.stats_view().total_evicted,
            s.cascade_evictions == self.stats_view().cascade_evictions,
            s.preserved_with_alt_parents == self.stats_view().preserved_with_alt_parents,
            s.max_cascade_depth == self.stats_view().max_cascade_depth,
            s.recent_evictions@.len() == self.stats_view().recent_evictions@.len(),
            forall|i: int| 0 <= i < s.recent_evictions@.len() ==>
                record_view(#[trigger] s.recent_evictions@[i]) == record_view(self.stats_view().recent_evictions@[i]),
    {
        self.stats.duplicate()
    }

    /// Sets the counters back to zero and forgets the records.
    pub fn reset_stats(&mut self)
        ensures
            final(self).stats_view().total_evicted == 0,
            final(self).stats_view().cascade_evictions == 0,
            final(self).stats_view().preserved_with_alt_parents == 0,
            final(self).stats_view().recent_evictions@.len() == 0,
            final(self).stats_view().max_cascade_depth == 0,
    {
        self.stats = EvictionStats::new();
    }

    /// The latest `limit` records, newest first.
    pub fn get_recent_evictions(&self, limit: usize) -> (r: Vec<EvictionRecord>)
        ensures
            ({
                let rec = self.stats_view().recent_evictions@;
                let k = if limit < rec.len() { limit as int } else { rec.len() as int };
                &&& r@.len() == k
                &&& forall|i: int| 0 <= i < k ==> record_view(#[trigger] r@[i]) == record_view(rec[rec.len() - 1 - i])
            }),
    {
        let rec = &self.stats.recent_evictions;
        let n = rec.len();
        let k: usize = if limit < n { limit } else { n };
        let mut r: Vec<EvictionRecord> = Vec::new();
        let mut i: usize = 0;
        while i < k
            invariant
                n == rec@.len(),
                k <= n,
                i <= k,
                r@.len() == i,
                forall|j: int| 0 <= j < i ==> record_view(#[trigger] r@[j]) == record_view(rec@[n - 1 - j]),
            decreases k - i,
        {
            r.push(rec[n - 1 - i].duplicate());
            i = i + 1;
        }
        r
    }

    /// Evicts `tx_hash` and, in cascade, every dependent all of whose
    /// parents are evicted; the other dependents are preserved. The
    /// dependency manager forgets the evicted transactions, and each is
    /// recorded, `tx_hash` first.
    pub fn evict_transaction_cascade(&mut self, deps: &mut TxDependencyManager, tx_hash: &TxHash, reason: EvictionReason)
        -> (r: Result<CascadeEvictionResult, StorageError>)
        requires
            old(deps).wf(),
        ensures
            final(deps).wf(),
            r matches Ok(res) && {
                let d = reach_plus(graph_of(old(deps).children_view()), tx_hash@);
                let e = key_views(res.cascaded_evictions@).to_set().insert(tx_hash@);
                &&& res.primary_eviction@ == tx_hash@
                &&& cascade_closed(old(deps).children_view(), old(deps).parents_view(), tx_hash@, e)
                &&& key_views(res.cascaded_evictions@).no_duplicates()
                &&& !key_views(res.cascaded_evictions@).contains(tx_hash@)
                &&& key_views(res.preserved_transactions@).no_duplicates()
                &&& key_views(res.preserved_transactions@).to_set() == d.difference(e)
                &&& final(deps).parents_view() == old(deps).parents_view().remove_keys(e)
                &&& final(deps).children_view() == old(deps).children_view().remove_keys(e)
                &&& final(deps).depth_view().dom() == old(deps).depth_view().dom().difference(e)
                &&& final(self).stats_view().total_evicted == wrap_usize(old(self).stats_view().total_evicted, res.cascaded_evictions@.len() + 1)
                &&& final(self).stats_view().cascade_evictions == wrap_usize(old(self).stats_view().cascade_evictions, res.cascaded_evictions@.len())
                &&& final(self).stats_view().preserved_with_alt_parents
                    == wrap_usize(old(self).stats_view().preserved_with_alt_parents, res.preserved_transactions@.len())
            },
    {
        let ghost h = tx_hash@;
        let dependents = deps.get_all_transitive_dependents(tx_hash);
        let ghost dv = key_views(dependents@);
        let removed = deps.remove_transaction(tx_hash);
        let ghost rv = key_views(removed@);
        let ghost e = rv.to_set();
        let mut cascaded: Vec<TxHash> = Vec::new();
        let mut i: usize = 1;
        proof {
            assert(key_views(cascaded@) =~= rv.subrange(1, 1));
        }
        while i < removed.len()
            invariant
                rv == key_views(removed@),
                1 <= i <= rv.len(),
                key_views(cascaded@) == rv.subrange(1, i as int),
            decreases rv.len() - i,
        {
            let ghost c0 = key_views(cascaded@);
            cascaded.push(crate::bytes::copy_bytes(removed[i].as_slice()));
            proof {
                assert(key_views(cascaded@) =~= c0.push(rv[i as int]));
                assert(rv.subrange(1, i + 1) =~= rv.subrange(1, i as int).push(rv[i as int]));
            }
            i = i + 1;
        }
        let ghost cv = key_views(cascaded@);
        proof {
            assert(cv =~= rv.drop_first());
            assert(rv =~= seq![h] + cv);
            assert forall|x: Seq<u8>| #[trigger] cv.to_set().insert(h).contains(x) == e.contains(x) by {
                if cv.contains(x) {
                    let q = cv.index_of(x);
                    assert(rv[q + 1] == x);
                }
                if e.contains(x) && x != h {
                    let q = rv.index_of(x);
                    assert(q != 0);
                    assert(cv[q - 1] == x);
                }
            }
            assert(cv.to_set().insert(h) =~= e);
            assert(cv.no_duplicates()) by {
                assert forall|a: int, b: int| 0 <= a < cv.len() && 0 <= b < cv.len() && a != b implies cv[a] != cv[b] by {
                    assert(cv[a] == rv[a + 1] && cv[b] == rv[b + 1]);
                }
            }
            assert(!cv.contains(h)) by {
                if cv.contains(h) {
                    let q = cv.index_of(h);
                    assert(rv[q + 1] == rv[0]);
                }
            }
        }
        let removed_set = key_set_of(&removed);
        let mut preserved: Vec<TxHash> = Vec::new();
        let mut j: usize = 0;
        proof {
            assert(dv.take(0).to_set().difference(e) =~= Set::<Seq<u8>>::empty());
            assert(key_views(preserved@).to_set() =~= Set::<Seq<u8>>::empty());
        }
        while j < dependents.len()
            invariant
                removed_set.wf(),
                removed_set@ == e,
                dv == key_views(dependents@),
                dv.no_duplicates(),
                j <= dv.len(),
                key_views(preserved@).no_duplicates(),
                key_views(preserved@).to_set() == dv.take(j as int).to_set().difference(e),
            decreases dv.len() - j,
        {
            let x = &dependents[j];
            let ghost p0 = key_views(preserved@);
            proof {
                assert(dv[j as int] == x@);
                assert(dv.take(j + 1) =~= dv.take(j as int).push(x@));
                dv.take(j as int).lemma_push_to_set_commute(x@);
                assert(!dv.take(j as int).contains(x@)) by {
                    if dv.take(j as int).contains(x@) {
                        let q = dv.take(j as int).index_of(x@);
                        assert(dv[q] == x@);
                    }
                }
            }
            if !removed_set.contains(x) {
                preserved.push(crate::bytes::copy_bytes(x.as_slice()));
                proof {
                    assert(key_views(preserved@) =~= p0.push(x@));
                    assert(!p0.contains(x@)) by {
                        if p0.contains(x@) {
                            assert(p0.to_set().contains(x@));
                        }
                    }
                    p0.lemma_push_to_set_commute(x@);
                    assert(key_views(preserved@).to_set() =~= dv.take(j + 1).to_set().difference(e));
                }
            } else {
                proof {
                    assert(key_views(preserved@).to_set() =~= dv.take(j + 1).to_set().difference(e));
                }
            }
            j = j + 1;
        }
        proof {
            assert(dv.take(dv.len() as int) =~= dv);
            lemma_wrap_usize_zero(self.stats.total_evicted);
            lemma_wrap_usize_zero(self.stats.cascade_evictions);
            lemma_wrap_usize_zero(self.stats.preserved_with_alt_parents);
            lemma_wrap_usize_step(self.stats.total_evicted, 0, removed@.len() as usize);
            lemma_wrap_usize_step(self.stats.cascade_evictions, 0, cascaded@.len() as usize);
            lemma_wrap_usize_step(self.stats.preserved_with_alt_parents, 0, preserved@.len() as usize);
        }
        self.stats.total_evicted = self.stats.total_evicted.wrapping_add(removed.len());
        self.stats.cascade_evictions = self.stats.cascade_evictions.wrapping_add(cascaded.len());
        self.stats.preserved_with_alt_parents = self.stats.preserved_with_alt_parents.wrapping_add(preserved.len());
        let ghost st = self.stats;
        self.record(EvictionRecord {
            tx_hash: crate::bytes::copy_bytes(tx_hash.as_slice()),
            reason,
            is_cascade: false,
            dependents_evicted: cascaded.len(),
        });
        let mut k: usize = 0;
        while k < cascaded.len()
            invariant
                k <= cascaded@.len(),
                self.stats.total_evicted == st.total_evicted,
                self.stats.cascade_evictions == st.cascade_evictions,
                self.stats.preserved_with_alt_parents == st.preserved_with_alt_parents,
            decreases cascaded@.len() - k,
        {
            self.record(EvictionRecord {
                tx_hash: crate::bytes::copy_bytes(cascaded[k].as_slice()),
                reason,
                is_cascade: true,
                dependents_evicted: 0,
            });
            k = k + 1;
        }
        proof {
            assert(rv.len() == cv.len() + 1);
        }
        Ok(CascadeEvictionResult {
            primary_eviction: crate::bytes::copy_bytes(tx_hash.as_slice()),
            cascaded_evictions: cascaded,
            preserved_transactions: preserved,
        })
    }
}

} // verus!
