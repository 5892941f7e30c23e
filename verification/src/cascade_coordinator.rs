//! Cascade validation: when a parent transaction is confirmed, its children
//! are re-examined and promoted when nothing they depend on is left pending.

use vstd::prelude::*;
use crate::advanced_dependency_manager::{TxDependencyManager, TxHash, reach_plus, graph_of, list_or_empty};
use crate::keyed::key_views;
use crate::storage_error::StorageError;

verus! {

/// Counters of the cascade coordinator.
#[derive(Clone, Copy, Debug)]
pub struct CascadeStats {
    pub parents_confirmed: u64,
    pub children_revalidated: u64,
    pub children_promoted: u64,
    pub children_invalidated: u64,
    pub total_cascades: u64,
}

impl Default for CascadeStats {
    fn default() -> (s: Self)
        ensures
            s == (CascadeStats { parents_confirmed: 0, children_revalidated: 0, children_promoted: 0,
                children_invalidated: 0, total_cascades: 0 }),
    {
        CascadeStats { parents_confirmed: 0, children_revalidated: 0, children_promoted: 0, children_invalidated: 0, total_cascades: 0 }
    }
}

/// What re-examining a child gives.
#[derive(Clone, Copy, Debug, PartialEq, Eq)]
pub enum CascadeValidationResult {
    /// Nothing it depends on is pending: it moves to the pending pool
    Promoted,
    /// It still depends on pending transactions
    StillOrphan,
    /// Its inputs became invalid
    Invalidated,
}

/// What a confirmation set off.
pub struct CascadeEvent {
    /// The confirmed parent
    pub parent_tx_hash: TxHash,
    /// Number of its direct children
    pub direct_children_count: usize,
    /// Number of transactions that depend on it at any distance
    pub total_dependents_count: usize,
    /// Each direct child with what re-examining it gave
    pub child_results: Vec<(TxHash, CascadeValidationResult)>,
}

/// Reacts to cascade events.
pub trait CascadeEventHandler {
    /// A cascade begins.
    fn on_cascade_start(&self, event: &CascadeEvent);

    /// A child was promoted.
    fn on_child_promoted(&self, child_hash: &TxHash, parent_hash: &TxHash);

    /// A child stays an orphan.
    fn on_child_still_orphan(&self, child_hash: &TxHash, parent_hash: &TxHash);

    /// A child was found invalid.
    fn on_child_invalidated(&self, child_hash: &TxHash, reason: &str);

    /// A cascade ended.
    fn on_cascade_complete(&self, event: &CascadeEvent);
}

/// What re-examining `c` gives over the parent links `pm`: promoted when
/// it depends on nothing, still an orphan otherwise.
pub open spec fn examine(pm: Map<Seq<u8>, Seq<Seq<u8>>>, c: Seq<u8>) -> CascadeValidationResult {
    if reach_plus(graph_of(pm), c) == Set::<Seq<u8>>::empty() {
        CascadeValidationResult::Promoted
    } else {
        CascadeValidationResult::StillOrphan
    }
}

/// How many of `cs` are promoted.
pub open spec fn promoted_count(pm: Map<Seq<u8>, Seq<Seq<u8>>>, cs: Seq<Seq<u8>>) -> nat
    decreases cs.len(),
{
    if cs.len() == 0 {
        0
    } else {
        promoted_count(pm, cs.drop_last()) + (if examine(pm, cs.last()) == CascadeValidationResult::Promoted { 1nat } else { 0 })
    }
}

/// Runs cascade validation over a dependency manager.
pub struct CascadeValidationCoordinator {
    stats: CascadeStats,
}

impl CascadeValidationCoordinator {
    /// The counters.
    pub closed spec fn stats_view(&self) -> CascadeStats {
        self.stats
    }

    pub fn new() -> (c: Self)
        ensures
            c.stats_view() == (CascadeStats { parents_confirmed: 0, children_revalidated: 0, children_promoted: 0,
                children_invalidated: 0, total_cascades: 0 }),
    {
        CascadeValidationCoordinator { stats: CascadeStats::default() }
    }

    /// Re-examines a child: promoted when it has no ancestor left.
    fn revalidate_and_promote_child(deps: &TxDependencyManager, child_tx_hash: &TxHash) -> (r: Result<CascadeValidationResult, StorageError>)
        requires
            deps.wf(),
        ensures
            r == Ok::<CascadeValidationResult, StorageError>(examine(deps.parents_view(), child_tx_hash@)),
    {
        let ancestors = deps.get_executable_ancestors(child_tx_hash);
        proof {
            let s = reach_plus(graph_of(deps.parents_view()), child_tx_hash@);
            if ancestors.len() == 0 {
                assert(key_views(ancestors@).to_set() =~= Set::<Seq<u8>>::empty());
            } else {
                assert(key_views(ancestors@).to_set().contains(key_views(ancestors@)[0]));
            }
        }
        if ancestors.len() == 0 {
            return Ok(CascadeValidationResult::Promoted);
        }
        Ok(CascadeValidationResult::StillOrphan)
    }

    /// Re-examines each direct child of a confirmed parent, in order, and
    /// counts the cascade.
    pub fn cascade_on_parent_confirmation(&mut self, deps: &TxDependencyManager, parent_tx_hash: &TxHash)
        -> (r: Result<CascadeEvent, StorageError>)
        requires
            deps.wf(),
        ensures
            ({
                let pm = deps.parents_view();
                let kids = list_or_empty(deps.children_view(), parent_tx_hash@);
                let os = old(self).stats_view();
                &&& r matches Ok(ev) && {
                    &&& ev.parent_tx_hash@ == parent_tx_hash@
                    &&& ev.direct_children_count == kids.len()
                    &&& ev.total_dependents_count == reach_plus(graph_of(deps.children_view()), parent_tx_hash@).len()
                    &&& ev.child_results@.len() == kids.len()
                    &&& forall|j: int| 0 <= j < kids.len() ==> (#[trigger] ev.child_results@[j]).0@ == kids[j]
                        && ev.child_results@[j].1 == examine(pm, kids[j])
                }
                &&& final(self).stats_view() == (CascadeStats {
                        parents_confirmed: os.parents_confirmed.wrapping_add(1),
                        children_revalidated: os.children_revalidated.wrapping_add(kids.len() as u64),
                        children_promoted: os.children_promoted.wrapping_add(promoted_count(pm, kids) as u64),
                        children_invalidated: os.children_invalidated.wrapping_add(0),
                        total_cascades: os.total_cascades.wrapping_add(1),
                    })
            }),
    {
        let ghost pm = deps.parents_view();
        let direct_children = deps.get_dependent_children(parent_tx_hash);
        let ghost kids = key_views(direct_children@);
        proof {
            assert(kids == list_or_empty(deps.children_view(), parent_tx_hash@));
        }
        let mut child_results: Vec<(TxHash, CascadeValidationResult)> = Vec::new();
        let mut promoted: usize = 0;
        let mut invalidated: usize = 0;
        let mut i: usize = 0;
        while i < direct_children.len()
            invariant
                deps.wf(),
                pm == deps.parents_view(),
                kids == key_views(direct_children@),
                i <= kids.len(),
                promoted == promoted_count(pm, kids.take(i as int)),
                promoted <= i,
                invalidated == 0,
                child_results@.len() == i,
                forall|j: int| 0 <= j < i ==> (#[trigger] child_results@[j]).0@ == kids[j]
                    && child_results@[j].1 == examine(pm, kids[j]),
            decreases kids.len() - i,
        {
            let child = &direct_children[i];
            let result = match Self::revalidate_and_promote_child(deps, child) {
                Ok(v) => v,
                Err(e) => return Err(e),
            };
            proof {
                assert(kids.take(i + 1).drop_last() =~= kids.take(i as int));
                assert(kids.take(i + 1).last() == kids[i as int]);
            }
            match result {
                CascadeValidationResult::Promoted => {
                    promoted = promoted + 1;
                },
                CascadeValidationResult::Invalidated => {
                    invalidated = invalidated + 1;
                },
                CascadeValidationResult::StillOrphan => {},
            }
            child_results.push((crate::bytes::copy_bytes(child.as_slice()), result));
            i = i + 1;
        }
        proof {
            assert(kids.take(kids.len() as int) =~= kids);
        }
        self.stats.parents_confirmed = self.stats.parents_confirmed.wrapping_add(1);
        self.stats.children_revalidated = self.stats.children_revalidated.wrapping_add(direct_children.len() as u64);
        self.stats.children_promoted = self.stats.children_promoted.wrapping_add(promoted as u64);
        self.stats.children_invalidated = self.stats.children_invalidated.wrapping_add(invalidated as u64);
        self.stats.total_cascades = self.stats.total_cascades.wrapping_add(1);
        let dependents = deps.get_all_transitive_dependents(parent_tx_hash);
        proof {
            key_views(dependents@).unique_seq_to_set();
        }
        Ok(CascadeEvent {
            parent_tx_hash: crate::bytes::copy_bytes(parent_tx_hash.as_slice()),
            direct_children_count: direct_children.len(),
            total_dependents_count: dependents.len(),
            child_results,
        })
    }

    /// Every transaction that depends on `tx_hash`, each once.
    pub fn get_affected_descendants(deps: &TxDependencyManager, tx_hash: &TxHash) -> (r: Vec<TxHash>)
        requires
            deps.wf(),
        ensures
            key_views(r@).no_duplicates(),
            key_views(r@).to_set() == reach_plus(graph_of(deps.children_view()), tx_hash@),
    {
        deps.get_all_transitive_dependents(tx_hash)
    }

    /// Stops tracking a transaction removed from the mempool; returns what
    /// the dependency manager removed.
    pub fn remove_from_tracking(deps: &mut TxDependencyManager, tx_hash: &TxHash) -> (r: Vec<TxHash>)
        requires
            old(deps).wf(),
        ensures
            final(deps).wf(),
            key_views(r@).len() >= 1,
            key_views(r@)[0] == tx_hash@,
            key_views(r@).no_duplicates(),
            crate::advanced_dependency_manager::cascade_closed(
                old(deps).children_view(), old(deps).parents_view(), tx_hash@, key_views(r@).to_set()),
    {
        deps.remove_transaction(tx_hash)
    }

    /// The counters.
    pub fn get_stats(&self) -> (s: CascadeStats)
        ensures
            s == self.stats_view(),
    {
        self.stats
    }

    /// Sets the counters back to zero.
    pub fn reset_stats(&mut self)
        ensures
            final(self).stats_view() == (CascadeStats { parents_confirmed: 0, children_revalidated: 0, children_promoted: 0,
                children_invalidated: 0, total_cascades: 0 }),
    {
        self.stats = CascadeStats::default();
    }
}

} // verus!
