//! A transaction manager: a pool with a conflict map and a dependency graph.
//! When a new transaction spends an output that pool transactions already
//! spend, the conflict map settles each pair; the losers leave the conflict
//! map, the dependency graph and the pool, and the winner is offered to the
//! pool.

use vstd::prelude::*;
use crate::advanced_conflicts::{ConflictMap, TxHash, resolve_side, input_conflicts, input_outpoint};
use crate::dependency_graph::{DependencyGraph, remove_spec};
use crate::keyed::{KeyOps, key_views};
use crate::transaction::{Transaction, hash_key, hash_key_spec};
use crate::advanced_conflicts::{ConflictType, ConflictStats};
use crate::dependency_graph::DependencyGraphStats;
use crate::admission::{Placement, ValidationVerdict, AdmissionError, admission_text};
use crate::memory_limiter::TransactionWeight;
use crate::pool::{PoolConfig, PoolEntryView};
use crate::transaction_pool::{TransactionPool, admission_result, removed_from};
use crate::text::{hex2, push_hex_byte, dec_string, push_decimal};

verus! {

/// Why managing a transaction failed.
#[derive(Clone, Debug, PartialEq, Eq)]
pub enum ManagerError {
    ConflictDetected { msg: String },
    DependencyError { msg: String },
    StorageError { msg: String },
    InvalidTransaction { msg: String },
    ResolutionFailed { msg: String },
}

/// Whether the new transaction wins its conflict with `other`, by the
/// conflict map's rules and arrival times.
pub open spec fn new_wins(
    conflicts: ConflictMap, new_hash: Seq<u8>, new_fee: u64, new_size: usize,
    other: Seq<u8>, other_fee: u64, other_size: usize,
) -> bool {
    resolve_side(new_hash, other, new_size, other_size, new_fee, other_fee,
        conflicts.arrival_of(new_hash), conflicts.arrival_of(other)).0
}

/// Settles a direct conflict of a new transaction with `existing` (the
/// claimant of the contested output) and with `conflicting` (the transaction
/// reported in conflict). The new transaction is refused when the
/// resolution against `existing` names it the loser. Otherwise `existing`
/// is evicted, and `conflicting` too when it is another transaction and the
/// resolution against it names the new one the winner; the evicted transactions
/// leave the conflict map and the dependency graph and are returned, in that
/// order.
pub fn resolve_direct_conflict(
    conflicts: &mut ConflictMap,
    graph: &mut DependencyGraph,
    new_tx: &Transaction,
    new_hash: &TxHash,
    new_fee: u64,
    new_size: usize,
    existing_tx: &Transaction,
    existing_hash: &TxHash,
    existing_fee: u64,
    existing_size: usize,
    conflicting_tx: &Transaction,
    conflicting_hash: &TxHash,
    conflicting_fee: u64,
    conflicting_size: usize,
) -> (r: Result<Vec<TxHash>, ManagerError>)
    requires
        old(conflicts).wf(),
        old(graph).wf(),
    ensures
        final(conflicts).wf(),
        final(graph).wf(),
        r is Err <==> (if new_wins(*old(conflicts), new_hash@, new_fee, new_size, existing_hash@, existing_fee, existing_size) {
            existing_hash@
        } else {
            new_hash@
        }) == new_hash@,
        r is Err ==> (r matches Err(ManagerError::ConflictDetected { msg })
            && msg@ == "New transaction has lower fee rate than existing"@)
            && final(graph)@ == old(graph)@
            && final(conflicts).claims() == old(conflicts).claims()
            && final(conflicts).arrivals() == old(conflicts).arrivals(),
        r matches Ok(evicted) ==> {
            let take_conflicting = conflicting_hash@ != existing_hash@
                && (if new_wins(*old(conflicts), new_hash@, new_fee, new_size, conflicting_hash@, conflicting_fee, conflicting_size) {
                    new_hash@
                } else {
                    conflicting_hash@
                }) == new_hash@;
            &&& key_views(evicted@) == (if take_conflicting { seq![existing_hash@, conflicting_hash@] } else { seq![existing_hash@] })
            &&& final(graph)@ == (if take_conflicting {
                    remove_spec(remove_spec(old(graph)@, existing_hash@), conflicting_hash@)
                } else {
                    remove_spec(old(graph)@, existing_hash@)
                })
            &&& forall|op: (Seq<u8>, u32)| #[trigger] final(conflicts).claimants(op) == (if take_conflicting {
                    old(conflicts).claimants(op).remove(existing_hash@).remove(conflicting_hash@)
                } else {
                    old(conflicts).claimants(op).remove(existing_hash@)
                })
            &&& final(conflicts).arrivals() == (if take_conflicting {
                    old(conflicts).arrivals().remove(existing_hash@).remove(conflicting_hash@)
                } else {
                    old(conflicts).arrivals().remove(existing_hash@)
                })
        },
{
    let ghost c0 = *conflicts;
    let first = conflicts.resolve_conflict(new_tx, existing_tx, new_hash, existing_hash, new_size, existing_size, new_fee, existing_fee);
    let res = match first {
        Ok(res) => res,
        Err(e) => {
            return Err(ManagerError::ResolutionFailed { msg: e });
        },
    };
    if res.loser.key_eq(new_hash) {
        proof {
            assert(res.loser@ == new_hash@);
        }
        let msg = String::from_str("New transaction has lower fee rate than existing");
        proof {
            reveal_strlit("New transaction has lower fee rate than existing");
        }
        return Err(ManagerError::ConflictDetected { msg });
    }
    let mut evicted: Vec<TxHash> = Vec::new();
    evicted.push(existing_hash.key_clone());
    let ghost c1 = *conflicts;
    proof {
        assert(c1.claims() == c0.claims());
    }
    let _ = conflicts.remove_transaction(existing_hash);
    let _ = graph.remove_transaction(existing_hash);
    let ghost c2 = *conflicts;
    if !conflicting_hash.key_eq(existing_hash) {
        let second = conflicts.resolve_conflict(new_tx, conflicting_tx, new_hash, conflicting_hash, new_size, conflicting_size, new_fee, conflicting_fee);
        match second {
            Ok(res2) => {
                proof {
                    assert(c2.arrival_of(new_hash@) == c0.arrival_of(new_hash@) || new_hash@ == existing_hash@);
                    assert(c2.arrival_of(conflicting_hash@) == c0.arrival_of(conflicting_hash@));
                }
                let ghost c3 = *conflicts;
                proof {
                    assert(c3.claims() == c2.claims());
                }
                if res2.winner.key_eq(new_hash) {
                    evicted.push(conflicting_hash.key_clone());
                    let _ = conflicts.remove_transaction(conflicting_hash);
                    let _ = graph.remove_transaction(conflicting_hash);
                    proof {
                        assert forall|op: (Seq<u8>, u32)| #[trigger] conflicts.claimants(op)
                            == c0.claimants(op).remove(existing_hash@).remove(conflicting_hash@) by {
                            assert(c3.claimants(op) == c2.claimants(op));
                            assert(c1.claimants(op) == c0.claimants(op));
                        }
                    }
                } else {
                    proof {
                        assert forall|op: (Seq<u8>, u32)| #[trigger] conflicts.claimants(op) == c0.claimants(op).remove(existing_hash@) by {
                            assert(c3.claimants(op) == c2.claimants(op));
                            assert(c1.claimants(op) == c0.claimants(op));
                        }
                    }
                }
            },
            Err(e) => {
                return Err(ManagerError::ResolutionFailed { msg: e });
            },
        }
    }
    proof {
        assert(key_views(evicted@).len() == evicted@.len());
        if conflicting_hash@ == existing_hash@ {
            assert forall|op: (Seq<u8>, u32)| #[trigger] conflicts.claimants(op) == c0.claimants(op).remove(existing_hash@) by {
                assert(c1.claimants(op) == c0.claimants(op));
            }
        }
    }
    Ok(evicted)
}


/// The short label of a hash in messages: its first two and last two bytes
/// in hexadecimal, or its one byte, or `empty`.
pub open spec fn hash_label(b: Seq<u8>) -> Seq<char> {
    if b.len() >= 4 {
        "TX["@ + hex2(b[0]) + hex2(b[1]) + "..."@ + hex2(b[b.len() - 2]) + hex2(b[b.len() - 1]) + "]"@
    } else if b.len() == 0 {
        "TX[empty]"@
    } else {
        "TX["@ + hex2(b[0]) + "]"@
    }
}

pub fn format_hash(tx_hash: &TxHash) -> (s: String)
    ensures
        s@ == hash_label(tx_hash@),
{
    let b = tx_hash.0.as_slice();
    let mut s = String::new();
    if b.len() >= 4 {
        s.append("TX[");
        push_hex_byte(&mut s, b[0]);
        push_hex_byte(&mut s, b[1]);
        s.append("...");
        push_hex_byte(&mut s, b[b.len() - 2]);
        push_hex_byte(&mut s, b[b.len() - 1]);
        s.append("]");
        proof {
            reveal_strlit("TX[");
            reveal_strlit("...");
            reveal_strlit("]");
        }
    } else if b.len() == 0 {
        s.append("TX[empty]");
        proof {
            reveal_strlit("TX[empty]");
        }
    } else {
        s.append("TX[");
        push_hex_byte(&mut s, b[0]);
        s.append("]");
        proof {
            reveal_strlit("TX[");
            reveal_strlit("]");
        }
    }
    proof {
        reveal_strlit("");
    }
    s
}

/// What adding a transaction did.
#[derive(Clone, Debug)]
pub struct TransactionAdditionResult {
    pub added: bool,
    pub tx_hash: TxHash,
    pub conflicts_resolved: usize,
    pub evicted: Vec<TxHash>,
}

/// The outcomes of the pool's outside work for one admission: the admission
/// controller's verdict and multiplier, the source's allowance, the weight,
/// the order to evict in, the validator's verdict, and the time.
pub struct PoolAdmission {
    pub resources_admit: bool,
    pub multiplier: u64,
    pub within_rate_limit: bool,
    pub weight: TransactionWeight,
    pub eviction_order: Vec<Vec<u8>>,
    pub verdict: Option<ValidationVerdict>,
    pub now: u64,
    pub now_ms: u64,
    pub now_ns: u64,
}

/// Conflict figures of the pool.
#[derive(Clone, Debug)]
pub struct ConflictAnalysis {
    pub total_conflicts: u64,
    pub conflicted_outpoints: u64,
    pub affected_transactions: u64,
    pub total_resolutions: u64,
    pub total_evictions: u64,
    pub partition_count: u64,
    pub conflict_propagations: u64,
}

/// Conflict status of one transaction.
#[derive(Clone, Debug)]
pub struct ConflictStatus {
    pub in_conflict: bool,
    pub reason: Option<String>,
    pub dependents: Vec<TxHash>,
    pub parents: Vec<TxHash>,
}

/// What the pool makes of `tx` under the outcomes in `a`.
pub open spec fn pool_outcome(p: TransactionPool, tx: Transaction, fee: u64, size_bytes: usize, a: PoolAdmission)
    -> Result<bool, AdmissionError> {
    admission_result(p, tx, fee, size_bytes, a.resources_admit, a.multiplier, a.within_rate_limit, a.weight,
        key_views(a.eviction_order@), a.verdict, a.now)
}

/// `r` answers the pool's `outcome` for the transaction `h`, after the
/// transactions `evicted` were settled with: a refusal becomes an invalid
/// transaction with the refusal's message; an admission is reported with
/// the evicted transactions.
pub open spec fn settled(
    r: Result<TransactionAdditionResult, ManagerError>,
    outcome: Result<bool, AdmissionError>,
    h: Seq<u8>,
    evicted: Seq<Seq<u8>>,
) -> bool {
    match outcome {
        Err(e) => r matches Err(ManagerError::InvalidTransaction { msg }) && msg@ == admission_text(e),
        Ok(_) => r matches Ok(res) && res.added && res.tx_hash@ == h && key_views(res.evicted@) == evicted
            && res.conflicts_resolved == evicted.len(),
    }
}

/// Input `i` of `tx` is the first whose output is already claimed in `claims`.
pub open spec fn first_conflict(claims: Map<(Seq<u8>, u32), crate::keyed::KeySet<TxHash>>, tx: Transaction, i: int) -> bool {
    &&& 0 <= i < tx.inputs@.len()
    &&& input_conflicts(claims, tx, i)
    &&& forall|j: int| 0 <= j < i ==> !#[trigger] input_conflicts(claims, tx, j)
}

/// How a direct conflict of `tx` (hash `h`, arriving at `a.now`) with the
/// claimant `k` ends: refused when the pool does not hold `k`, or when `k`
/// wins the resolution (or is `tx` itself); otherwise `k` leaves the pool
/// and the pool's outcome on what is left is the answer.
pub open spec fn direct_outcome(
    r: Result<TransactionAdditionResult, ManagerError>,
    c: ConflictMap,
    p: TransactionPool,
    tx: Transaction,
    fee: u64,
    size_bytes: usize,
    a: PoolAdmission,
    k: Seq<u8>,
) -> bool {
    let h = hash_key_spec(tx@.id);
    if !p.entries_view().contains_key(k) {
        r matches Err(ManagerError::ConflictDetected { msg }) && msg@ == "Cannot find existing conflicting transaction"@
    } else if k == h || !resolve_side(h, k, size_bytes, p.entries_view()[k].size_bytes, fee, p.entries_view()[k].total_fee,
        a.now, c.arrival_of(k)).0 {
        r matches Err(ManagerError::ConflictDetected { msg }) && msg@ == "New transaction has lower fee rate than existing"@
    } else {
        exists|q: TransactionPool| #[trigger] removed_from(p, k, q) && settled(r, pool_outcome(q, tx, fee, size_bytes, a), h, seq![k])
    }
}

/// A pool together with its conflict map and dependency graph.
pub struct AdvancedTransactionManager {
    conflicts: ConflictMap,
    graph: DependencyGraph,
    pool: TransactionPool,
}

impl AdvancedTransactionManager {
    pub closed spec fn conflicts_view(&self) -> ConflictMap {
        self.conflicts
    }

    pub closed spec fn graph_view(&self) -> DependencyGraph {
        self.graph
    }

    pub closed spec fn pool_view(&self) -> TransactionPool {
        self.pool
    }

    pub closed spec fn wf(&self) -> bool {
        &&& self.conflicts.wf()
        &&& self.graph.wf()
        &&& self.pool.wf()
    }

    /// An empty manager over an empty pool with `config`.
    pub fn new(config: PoolConfig) -> (m: Self)
        requires
            config.orphan_ttl_secs * 1_000_000_000 <= u64::MAX,
        ensures
            m.wf(),
            m.pool_view().entries_view() == Map::<Seq<u8>, PoolEntryView>::empty(),
            m.conflicts_view().claims() == Map::<(Seq<u8>, u32), crate::keyed::KeySet<TxHash>>::empty(),
    {
        AdvancedTransactionManager { conflicts: ConflictMap::new(), graph: DependencyGraph::new(), pool: TransactionPool::new(config) }
    }

    /// Adds `tx` to the pool once its spends are settled: it is registered
    /// in the dependency graph and in the conflict map, arriving at
    /// `admission.now`; with no conflict it goes straight to the pool; a
    /// direct conflict with a claimant of its first contested output is
    /// settled first (refusing it, or evicting the claimant from the pool);
    /// an indirect conflict marks the original transaction and refuses it
    /// (the conflict map reports none of those on registration). The pool's
    /// refusals come back as invalid transactions with their messages.
    pub fn add_transaction(&mut self, tx: Transaction, fee: u64, size_bytes: usize, admission: PoolAdmission)
        -> (r: Result<TransactionAdditionResult, ManagerError>)
        requires
            old(self).wf(),
            tx.inputs@.len() <= u32::MAX,
            admission.resources_admit ==> crate::pool::fee_rate_spec(fee, size_bytes) * admission.multiplier <= u64::MAX,
        ensures
            final(self).wf(),
            (forall|j: int| 0 <= j < tx.inputs@.len() ==> !#[trigger] input_conflicts(old(self).conflicts_view().claims(), tx, j))
                ==> settled(r, pool_outcome(old(self).pool_view(), tx, fee, size_bytes, admission), hash_key_spec(tx@.id), seq![]),
            (exists|j: int| 0 <= j < tx.inputs@.len() && #[trigger] input_conflicts(old(self).conflicts_view().claims(), tx, j))
                ==> exists|i: int, k: Seq<u8>| #![trigger first_conflict(old(self).conflicts_view().claims(), tx, i), old(self).conflicts_view().claimants(input_outpoint(tx, i)).contains(k)]
                    first_conflict(old(self).conflicts_view().claims(), tx, i)
                    && old(self).conflicts_view().claimants(input_outpoint(tx, i)).contains(k)
                    && direct_outcome(r, old(self).conflicts_view(), old(self).pool_view(), tx, fee, size_bytes, admission, k),
            r matches Ok(res) ==> {
                &&& res.added
                &&& res.tx_hash@ == hash_key_spec(tx@.id)
                &&& res.conflicts_resolved == res.evicted@.len()
                &&& forall|i: int| 0 <= i < res.evicted@.len() ==> !final(self).pool_view().entries_view().contains_key(#[trigger] res.evicted@[i]@)
                    || res.evicted@[i]@ == hash_key_spec(tx@.id)
                &&& final(self).pool_view().entries_view().contains_key(hash_key_spec(tx@.id))
                    || final(self).pool_view().orphans_view().pool.contains_key(hash_key_spec(tx@.id))
            },
    {
        let h = TxHash::new(hash_key(&tx.id));
        let ghost hv = h@;
        let ghost c0 = self.conflicts;
        let ghost p0 = self.pool;
        self.graph.register_transaction(&h);
        let registered = self.conflicts.register_transaction_at(&tx, &h, admission.now);
        match registered {
            Ok(ConflictType::NoConflict) => {
                let none: Vec<TxHash> = Vec::new();
                proof {
                    assert(key_views(none@) =~= Seq::<Seq<u8>>::empty());
                }
                self.add_to_pool(tx, &h, fee, size_bytes, admission, none)
            },
            Ok(ConflictType::DirectConflict { tx_a, tx_b, outpoint }) => {
                let ghost av = tx_a@;
                let ghost i = outpoint.index as int;
                proof {
                    assert(first_conflict(c0.claims(), tx, i));
                    assert(input_conflicts(old(self).conflicts_view().claims(), tx, i));
                    assert(c0.claimants(input_outpoint(tx, i)).contains(av));
                }
                let existing = match self.pool.get(tx_a.as_bytes()) {
                    Some(e) => e,
                    None => {
                        let msg = String::from_str("Cannot find existing conflicting transaction");
                        proof {
                            assert(direct_outcome(Err(ManagerError::ConflictDetected { msg }), c0, p0, tx, fee, size_bytes, admission, av));
                        }
                        return Err(ManagerError::ConflictDetected { msg });
                    },
                };
                // the transaction reported beside the claimant is the new one
                // itself when nothing else is involved: then only the claimant
                // is settled with
                let other = if tx_b.key_eq(&h) { tx_a.key_clone() } else { tx_b };
                proof {
                    assert(other@ == av);
                }
                let conflicting = match self.pool.get(other.as_bytes()) {
                    Some(e) => e,
                    None => {
                        let msg = String::from_str("Cannot find conflicting transaction");
                        return Err(ManagerError::ConflictDetected { msg });
                    },
                };
                proof {
                    assert(other@ == av);
                    assert(self.conflicts.arrival_of(hv) == admission.now);
                    assert(av != hv ==> self.conflicts.arrival_of(av) == c0.arrival_of(av));
                }
                let ghost c1 = self.conflicts;
                let settle = resolve_direct_conflict(&mut self.conflicts, &mut self.graph, &tx, &h, fee, size_bytes,
                    &existing.transaction, &tx_a, existing.total_fee, existing.size_bytes,
                    &conflicting.transaction, &other, conflicting.total_fee, conflicting.size_bytes);
                let evicted = match settle {
                    Ok(v) => v,
                    Err(e) => {
                        proof {
                            assert(!new_wins(c1, hv, fee, size_bytes, av, existing.total_fee, existing.size_bytes) || av == hv);
                            assert(direct_outcome(Err(e), c0, p0, tx, fee, size_bytes, admission, av));
                        }
                        return Err(e);
                    },
                };
                proof {
                    assert(key_views(evicted@) == seq![av]);
                    assert(key_views(evicted@).len() == evicted@.len());
                    assert(key_views(evicted@)[0] == evicted@[0]@);
                }
                let mut j: usize = 0;
                while j < evicted.len()
                    invariant
                        self.conflicts.wf(),
                        self.graph.wf(),
                        self.pool.wf(),
                        j <= evicted@.len(),
                        evicted@.len() == 1,
                        evicted@[0]@ == av,
                        p0.entries_view().contains_key(av),
                        j == 0 ==> self.pool == p0,
                        j == 1 ==> removed_from(p0, av, self.pool),
                        forall|m: int| 0 <= m < j ==> !self.pool.entries_view().contains_key(#[trigger] evicted@[m]@),
                    decreases evicted@.len() - j,
                {
                    let _ = self.pool.remove(evicted[j].as_bytes());
                    j = j + 1;
                }
                let ghost q = self.pool;
                proof {
                    assert(removed_from(p0, av, q));
                }
                let r = self.add_to_pool(tx, &h, fee, size_bytes, admission, evicted);
                proof {
                    assert(settled(r, pool_outcome(q, tx, fee, size_bytes, admission), hv, seq![av]));
                    assert(direct_outcome(r, c0, p0, tx, fee, size_bytes, admission, av));
                }
                r
            },
            Ok(ConflictType::IndirectConflict { original, affected }) => {
                let mut reason = String::from_str("Indirect conflict from ");
                let label = format_hash(&original);
                reason.append(label.as_str());
                let _ = self.graph.mark_conflict(&original, reason);
                let mut msg = String::from_str("Indirect conflict with ");
                push_decimal(&mut msg, affected.len() as u64);
                msg.append(" affected transactions");
                Err(ManagerError::ConflictDetected { msg })
            },
            Err(e) => Err(ManagerError::ConflictDetected { msg: e }),
        }
    }

    fn add_to_pool(&mut self, tx: Transaction, h: &TxHash, fee: u64, size_bytes: usize, admission: PoolAdmission, evicted: Vec<TxHash>)
        -> (r: Result<TransactionAdditionResult, ManagerError>)
        requires
            old(self).wf(),
            h@ == hash_key_spec(tx@.id),
            admission.resources_admit ==> crate::pool::fee_rate_spec(fee, size_bytes) * admission.multiplier <= u64::MAX,
            forall|j: int| 0 <= j < evicted@.len() ==> !old(self).pool_view().entries_view().contains_key(#[trigger] evicted@[j]@),
        ensures
            final(self).wf(),
            settled(r, pool_outcome(old(self).pool_view(), tx, fee, size_bytes, admission), h@, key_views(evicted@)),
            r matches Ok(res) ==> {
                &&& res.added
                &&& res.tx_hash@ == h@
                &&& res.evicted@ == evicted@
                &&& res.conflicts_resolved == res.evicted@.len()
                &&& forall|i: int| 0 <= i < res.evicted@.len() ==> !final(self).pool_view().entries_view().contains_key(#[trigger] res.evicted@[i]@)
                    || res.evicted@[i]@ == h@
                &&& final(self).pool_view().entries_view().contains_key(h@)
                    || final(self).pool_view().orphans_view().pool.contains_key(h@)
            },
    {
        let ghost e0 = self.pool.entries_view();
        let placed = self.pool.add_transaction_at(tx, fee, size_bytes, admission.resources_admit, admission.multiplier,
            admission.within_rate_limit, admission.weight, &admission.eviction_order, admission.verdict,
            admission.now, admission.now_ms, admission.now_ns);
        match placed {
            Ok(p) => {
                proof {
                    match p {
                        Placement::MainPool => {
                            assert(self.pool.entries_view().contains_key(h@));
                        },
                        Placement::OrphanPool(m) => {
                            assert(self.pool.orphans_view().pool.contains_key(h@));
                        },
                    }
                    assert forall|i: int| 0 <= i < evicted@.len() implies !self.pool.entries_view().contains_key(#[trigger] evicted@[i]@)
                        || evicted@[i]@ == h@ by {
                        if self.pool.entries_view().contains_key(evicted@[i]@) && evicted@[i]@ != h@ {
                            assert(e0.contains_key(evicted@[i]@));
                        }
                    }
                }
                let n = evicted.len();
                Ok(TransactionAdditionResult { added: true, tx_hash: h.key_clone(), conflicts_resolved: n, evicted })
            },
            Err(e) => {
                let msg = e.message();
                Err(ManagerError::InvalidTransaction { msg })
            },
        }
    }
}


/// The transactions that claim an outpoint claimed by more than one.
pub open spec fn conflicted_claimants(c: ConflictMap) -> Set<Seq<u8>> {
    Set::new(|t: Seq<u8>| exists|op: (Seq<u8>, u32)| c.claims().contains_key(op) && c.claimants(op).len() > 1
        && #[trigger] c.claimants(op).contains(t))
}

impl AdvancedTransactionManager {
    /// Removes `tx_hash` from the conflict map, the dependency graph and the
    /// pool, and marks each of its descendants as in conflict, naming it.
    pub fn remove_transaction(&mut self, tx_hash: &TxHash) -> (r: Result<(), ManagerError>)
        requires
            old(self).wf(),
        ensures
            final(self).wf(),
            r is Ok,
            final(self).pool_view().entries_view() == old(self).pool_view().entries_view().remove(tx_hash@),
            forall|op: (Seq<u8>, u32)| #[trigger] final(self).conflicts_view().claimants(op)
                == old(self).conflicts_view().claimants(op).remove(tx_hash@),
    {
        let affected = self.graph.find_affected_downstream(tx_hash);
        let _ = self.conflicts.remove_transaction(tx_hash);
        let _ = self.graph.remove_transaction(tx_hash);
        let _ = self.pool.remove(tx_hash.as_bytes());
        let ghost c1 = self.conflicts;
        let ghost p1 = self.pool;
        let mut i: usize = 0;
        while i < affected.len()
            invariant
                self.graph.wf(),
                self.conflicts == c1,
                self.conflicts.wf(),
                self.pool == p1,
                self.pool.wf(),
                i <= affected@.len(),
            decreases affected@.len() - i,
        {
            if !affected[i].key_eq(tx_hash) {
                let mut reason = String::from_str("Parent transaction removed: ");
                let label = format_hash(tx_hash);
                reason.append(label.as_str());
                let _ = self.graph.mark_conflict(&affected[i], reason);
            }
            i = i + 1;
        }
        Ok(())
    }

    /// The figures of the conflict map and the dependency graph, with the
    /// outpoints claimed more than once and the transactions claiming them.
    pub fn analyze_conflicts(&self) -> (r: Result<ConflictAnalysis, ManagerError>)
        requires
            self.wf(),
        ensures
            r matches Ok(a) && {
                &&& a.total_conflicts == self.conflicts_view().stats_view().direct_conflicts
                &&& a.total_resolutions == self.conflicts_view().stats_view().total_resolutions
                &&& a.total_evictions == self.conflicts_view().stats_view().total_evictions
                &&& a.partition_count == self.graph_view()@.stats.total_partitions
                &&& a.conflict_propagations == self.graph_view()@.stats.conflict_propagations
                &&& a.conflicted_outpoints == self.conflicts_view().claims().dom().filter(
                    |op: (Seq<u8>, u32)| self.conflicts_view().claimants(op).len() > 1).len()
                &&& a.affected_transactions == conflicted_claimants(self.conflicts_view()).len()
            },
    {
        let cs = self.conflicts.get_stats();
        let gs = self.graph.get_stats();
        let ops = self.conflicts.get_conflicted_outpoints();
        let ghost c = self.conflicts;
        let ghost dom = c.claims().dom().filter(|op: (Seq<u8>, u32)| c.claimants(op).len() > 1);
        proof {
            assert(key_views(ops@).to_set() =~= dom);
            key_views(ops@).unique_seq_to_set();
        }
        let mut affected: crate::keyed::KeySet<TxHash> = crate::keyed::KeySet::new();
        let mut i: usize = 0;
        while i < ops.len()
            invariant
                c == self.conflicts,
                self.conflicts.wf(),
                affected.wf(),
                i <= ops@.len(),
                forall|op: (Seq<u8>, u32)| #[trigger] key_views(ops@).contains(op)
                    <==> c.claims().contains_key(op) && c.claimants(op).len() > 1,
                affected@ == Set::new(|t: Seq<u8>| exists|q: int| 0 <= q < i && #[trigger] c.claimants(key_views(ops@)[q]).contains(t)),
            decreases ops@.len() - i,
        {
            let claimants = self.conflicts.get_claiming_transactions(&ops[i]);
            let ghost opv = ops@[i as int]@;
            let ghost a0 = affected@;
            proof {
                assert(key_views(ops@)[i as int] == opv);
            }
            let mut j: usize = 0;
            while j < claimants.len()
                invariant
                    affected.wf(),
                    j <= claimants@.len(),
                    affected@ == a0.union(key_views(claimants@).take(j as int).to_set()),
                decreases claimants@.len() - j,
            {
                let ghost a1 = affected@;
                affected.insert(claimants[j].key_clone());
                proof {
                    assert(key_views(claimants@).take(j + 1) =~= key_views(claimants@).take(j as int).push(claimants@[j as int]@));
                    key_views(claimants@).take(j as int).lemma_push_to_set_commute(claimants@[j as int]@);
                    assert(affected@ =~= a0.union(key_views(claimants@).take(j + 1).to_set()));
                }
                j = j + 1;
            }
            proof {
                assert(key_views(claimants@).take(claimants@.len() as int) =~= key_views(claimants@));
                assert(affected@ =~= Set::new(|t: Seq<u8>| exists|q: int| 0 <= q < i + 1 && #[trigger] c.claimants(key_views(ops@)[q]).contains(t))) by {
                    assert forall|t: Seq<u8>| affected@.contains(t) implies exists|q: int| 0 <= q < i + 1 && #[trigger] c.claimants(key_views(ops@)[q]).contains(t) by {
                        if !a0.contains(t) {
                            assert(c.claimants(key_views(ops@)[i as int]).contains(t));
                        }
                    }
                    assert forall|t: Seq<u8>| (exists|q: int| 0 <= q < i + 1 && #[trigger] c.claimants(key_views(ops@)[q]).contains(t)) implies affected@.contains(t) by {
                        let q = choose|q: int| 0 <= q < i + 1 && #[trigger] c.claimants(key_views(ops@)[q]).contains(t);
                        if q == i {
                            assert(key_views(claimants@).to_set().contains(t));
                        } else {
                            assert(a0.contains(t));
                        }
                    }
                }
            }
            i = i + 1;
        }
        proof {
            assert(affected@ =~= conflicted_claimants(c)) by {
                assert forall|t: Seq<u8>| affected@.contains(t) implies conflicted_claimants(c).contains(t) by {
                    let q = choose|q: int| 0 <= q < ops@.len() && #[trigger] c.claimants(key_views(ops@)[q]).contains(t);
                    let op = key_views(ops@)[q];
                    assert(key_views(ops@).contains(op));
                }
                assert forall|t: Seq<u8>| conflicted_claimants(c).contains(t) implies affected@.contains(t) by {
                    let op = choose|op: (Seq<u8>, u32)| c.claims().contains_key(op) && c.claimants(op).len() > 1
                        && #[trigger] c.claimants(op).contains(t);
                    assert(key_views(ops@).contains(op));
                    let q = key_views(ops@).index_of(op);
                    assert(c.claimants(key_views(ops@)[q]).contains(t));
                }
            }
        }
        let n_ops = ops.len() as u64;
        let n_aff = affected.len() as u64;
        Ok(ConflictAnalysis {
            total_conflicts: cs.direct_conflicts,
            conflicted_outpoints: n_ops,
            affected_transactions: n_aff,
            total_resolutions: cs.total_resolutions,
            total_evictions: cs.total_evictions,
            partition_count: gs.total_partitions,
            conflict_propagations: gs.conflict_propagations,
        })
    }

    /// Whether `tx_hash` is marked in conflict, why, and its children and
    /// parents in the dependency graph.
    pub fn get_conflict_status(&self, tx_hash: &TxHash) -> (s: ConflictStatus)
        requires
            self.wf(),
        ensures
            s.in_conflict == (self.graph_view()@.dependencies.contains_key(tx_hash@)
                && self.graph_view()@.dependencies[tx_hash@].in_conflict),
            crate::dependency_graph::reason_view(s.reason) == if self.graph_view()@.dependencies.contains_key(tx_hash@) {
                self.graph_view()@.dependencies[tx_hash@].conflict_reason
            } else {
                None
            },
            key_views(s.dependents@).to_set() == if self.graph_view()@.dependencies.contains_key(tx_hash@) {
                self.graph_view()@.dependencies[tx_hash@].children
            } else {
                Set::<Seq<u8>>::empty()
            },
            key_views(s.parents@).to_set() == if self.graph_view()@.dependencies.contains_key(tx_hash@) {
                self.graph_view()@.dependencies[tx_hash@].parents
            } else {
                Set::<Seq<u8>>::empty()
            },
    {
        ConflictStatus {
            in_conflict: self.graph.is_in_conflict(tx_hash),
            reason: self.graph.get_conflict_reason(tx_hash),
            dependents: self.graph.get_dependents(tx_hash),
            parents: self.graph.get_parents(tx_hash),
        }
    }

    /// Forgets every conflict and dependency.
    pub fn clear(&mut self)
        requires
            old(self).wf(),
        ensures
            final(self).wf(),
            final(self).conflicts_view().claims() == Map::<(Seq<u8>, u32), crate::keyed::KeySet<TxHash>>::empty(),
            final(self).pool_view() == old(self).pool_view(),
    {
        self.conflicts.clear();
        self.graph.clear();
    }
}

} // verus!
