//! An ordering engine over the priority buckets that every node runs alike:
//! the same transactions give the same order, whatever order they came in.

use vstd::prelude::*;
use std::cmp::Ordering;
use crate::bytes::{bytes_eq, copy_bytes};
use crate::priority_ordering::{PriorityBuckets, PrioritizedTransaction, PrioritizedView, PriorityOrderingConfig,
    tx_views, ordered_views, total_len, total_fee_sum, consistent, first_fit, first_with_hash, insert_one,
    insert_all, lemma_default_bounds_fit, threshold_bounds, deterministic_order, prioritized_view,
    sorted_insert, lemma_sorted_insert_len, lemma_total_len_update};
use crate::text::{dec_string, push_decimal};

verus! {

/// Settings of the ordering engine.
#[derive(Clone, Debug)]
pub struct DeterministicOrderingEngineConfig {
    pub validate_ordering: bool,
    pub batch_size: usize,
    pub use_storage_verification: bool,
}

impl Default for DeterministicOrderingEngineConfig {
    fn default() -> (c: Self)
        ensures
            c.validate_ordering,
            c.batch_size == 100,
            c.use_storage_verification,
    {
        DeterministicOrderingEngineConfig { validate_ordering: true, batch_size: 100, use_storage_verification: true }
    }
}

/// Outcome of an ordering check.
#[derive(Clone, Debug)]
pub struct OrderingValidation {
    pub is_valid: bool,
    pub error_message: Option<String>,
    pub transaction_count: usize,
    pub storage_verified: bool,
}

impl OrderingValidation {
    /// A passed check over `count` transactions.
    pub fn success(count: usize, storage_verified: bool) -> (v: Self)
        ensures
            v.is_valid,
            v.error_message is None,
            v.transaction_count == count,
            v.storage_verified == storage_verified,
    {
        Self { is_valid: true, error_message: None, transaction_count: count, storage_verified }
    }

    /// A failed check with message `error`.
    pub fn failure(error: String, count: usize) -> (v: Self)
        ensures
            !v.is_valid,
            v.error_message == Some(error),
            v.transaction_count == count,
            !v.storage_verified,
    {
        Self { is_valid: false, error_message: Some(error), transaction_count: count, storage_verified: false }
    }
}

/// Counts and fees of the ordering.
#[derive(Clone, Debug)]
pub struct OrderingStats {
    pub total_transactions: usize,
    pub total_fees: u64,
    pub bucket_count: usize,
    pub bucket_distribution: Vec<usize>,
}

/// The ordering engine: priority buckets with the default thresholds.
pub struct DeterministicOrderingEngine {
    priority_buckets: PriorityBuckets,
    /// Whether a store is attached to check transactions against
    storage_attached: bool,
    config: DeterministicOrderingEngineConfig,
}

/// The thresholds of the engine's buckets.
pub open spec fn default_thresholds() -> Seq<u64> {
    seq![1u64, 10u64, 100u64, 1000u64]
}

impl DeterministicOrderingEngine {
    /// The transactions of each bucket, the lowest bucket first.
    pub closed spec fn contents(&self) -> Seq<Seq<PrioritizedView>> {
        self.priority_buckets.contents()
    }

    /// Hash to the bucket that holds it.
    pub closed spec fn index(&self) -> Map<Seq<u8>, (usize, usize)> {
        self.priority_buckets.index()
    }

    pub closed spec fn storage_attached_spec(&self) -> bool {
        self.storage_attached
    }

    pub closed spec fn config_spec(&self) -> DeterministicOrderingEngineConfig {
        self.config
    }

    pub closed spec fn wf(&self) -> bool {
        &&& self.priority_buckets.wf()
        &&& self.priority_buckets.config_thresholds() == default_thresholds()
        &&& self.priority_buckets.config_deterministic()
    }

    /// The bucket ranges.
    pub open spec fn engine_bounds() -> Seq<(u64, u64)> {
        threshold_bounds(default_thresholds())
    }

    pub fn new(config: DeterministicOrderingEngineConfig) -> (e: Self)
        ensures
            e.wf(),
            e.contents().len() == 5,
            forall|b: int| 0 <= b < 5 ==> #[trigger] e.contents()[b] == Seq::<PrioritizedView>::empty(),
            e.index() == Map::<Seq<u8>, (usize, usize)>::empty(),
            !e.storage_attached_spec(),
            e.config_spec() == config,
    {
        Self { priority_buckets: PriorityBuckets::new(PriorityOrderingConfig::default()), storage_attached: false, config }
    }

    /// An engine with a store attached for checking transactions.
    pub fn with_storage(config: DeterministicOrderingEngineConfig) -> (e: Self)
        ensures
            e.wf(),
            e.contents().len() == 5,
            forall|b: int| 0 <= b < 5 ==> #[trigger] e.contents()[b] == Seq::<PrioritizedView>::empty(),
            e.index() == Map::<Seq<u8>, (usize, usize)>::empty(),
            e.storage_attached_spec(),
            e.config_spec() == config,
    {
        Self { priority_buckets: PriorityBuckets::new(PriorityOrderingConfig::default()), storage_attached: true, config }
    }

    /// Attaches a store for checking transactions.
    pub fn set_storage(&mut self)
        requires
            old(self).wf(),
        ensures
            final(self).wf(),
            final(self).storage_attached_spec(),
            final(self).contents() == old(self).contents(),
            final(self).index() == old(self).index(),
            final(self).config_spec() == old(self).config_spec(),
    {
        self.storage_attached = true;
    }

    /// Adds a transaction in deterministic order; fails only when no bucket
    /// holds its fee rate, which is `u64::MAX`.
    pub fn add_transaction(&mut self, tx_hash: Vec<u8>, fee_rate: u64, arrival_time: u64, size_bytes: usize, total_fee: u64)
        -> (r: Result<(), String>)
        requires
            old(self).wf(),
        ensures
            final(self).wf(),
            final(self).storage_attached_spec() == old(self).storage_attached_spec(),
            final(self).config_spec() == old(self).config_spec(),
            r is Ok <==> fee_rate < u64::MAX,
            r is Err ==> r->Err_0@ == "No suitable bucket for fee rate"@
                && final(self).contents() == old(self).contents() && final(self).index() == old(self).index(),
            r is Ok ==> (final(self).contents(), final(self).index()) == insert_one(
                (old(self).contents(), old(self).index()),
                Self::engine_bounds(),
                prioritized_view(tx_hash@, fee_rate, arrival_time, size_bytes, total_fee),
            ),
    {
        proof {
            lemma_default_bounds_fit(fee_rate);
            self.priority_buckets.lemma_wf();
        }
        let t = PrioritizedTransaction::new(tx_hash, fee_rate, arrival_time, size_bytes, total_fee);
        self.priority_buckets.insert(t)
    }
}


/// How many transactions a request for `limit` of `n` yields.
pub open spec fn yield_count(n: int, limit: usize) -> int {
    let lim: int = if limit == 0 { 1 } else { limit as int };
    if n < lim { n } else { lim }
}

/// The views of a batch of `(hash, fee rate, arrival time, size, fee)`.
pub open spec fn batch_views(ts: Seq<(Vec<u8>, u64, u64, usize, u64)>) -> Seq<PrioritizedView> {
    Seq::new(ts.len(), |i: int| prioritized_view(ts[i].0@, ts[i].1, ts[i].2, ts[i].3, ts[i].4))
}

/// The views of transactions as they are added again.
pub open spec fn readd_views(ts: Seq<PrioritizedTransaction>) -> Seq<PrioritizedView> {
    Seq::new(ts.len(), |i: int| prioritized_view(ts[i].tx_hash@, ts[i].fee_rate, ts[i].arrival_time, ts[i].size_bytes, ts[i].total_fee))
}

/// The first position at or after `i` whose fee rate no bucket holds.
pub open spec fn first_unplaceable(vs: Seq<PrioritizedView>, i: int) -> int
    decreases vs.len() - i,
{
    if i < 0 || i >= vs.len() {
        vs.len() as int
    } else if vs[i].fee_rate == u64::MAX {
        i
    } else {
        first_unplaceable(vs, i + 1)
    }
}

proof fn lemma_first_unplaceable(vs: Seq<PrioritizedView>, i: int, p: int)
    requires
        0 <= i <= p <= vs.len(),
        forall|j: int| i <= j < p ==> (#[trigger] vs[j]).fee_rate < u64::MAX,
        p < vs.len() ==> vs[p].fee_rate == u64::MAX,
    ensures
        first_unplaceable(vs, i) == p,
    decreases p - i,
{
    if i < p {
        lemma_first_unplaceable(vs, i + 1, p);
    }
}

/// The first position at or after `i` where the two lists differ in hash or
/// score, or their length.
pub open spec fn first_peer_difference(ours: Seq<PrioritizedView>, peer: Seq<PrioritizedView>, i: int) -> int
    decreases ours.len() - i,
{
    if i < 0 || i >= ours.len() || i >= peer.len() {
        ours.len() as int
    } else if ours[i].tx_hash != peer[i].tx_hash || ours[i].priority_score != peer[i].priority_score {
        i
    } else {
        first_peer_difference(ours, peer, i + 1)
    }
}

proof fn lemma_first_peer_difference(ours: Seq<PrioritizedView>, peer: Seq<PrioritizedView>, i: int, p: int)
    requires
        ours.len() == peer.len(),
        0 <= i <= p <= ours.len(),
        forall|j: int| i <= j < p ==> (#[trigger] ours[j]).tx_hash == peer[j].tx_hash && ours[j].priority_score == peer[j].priority_score,
        p < ours.len() ==> ours[p].tx_hash != peer[p].tx_hash || ours[p].priority_score != peer[p].priority_score,
    ensures
        first_peer_difference(ours, peer, i) == p,
    decreases p - i,
{
    if i < p {
        lemma_first_peer_difference(ours, peer, i + 1, p);
    }
}

/// Appends the name of an ordering, as `{:?}` writes it.
fn push_ordering_name(s: &mut String, o: Ordering)
    ensures
        final(s)@ == old(s)@ + ordering_name(o),
{
    match o {
        Ordering::Less => {
            s.append("Less");
            proof {
                reveal_strlit("Less");
            }
        },
        Ordering::Equal => {
            s.append("Equal");
            proof {
                reveal_strlit("Equal");
            }
        },
        Ordering::Greater => {
            s.append("Greater");
            proof {
                reveal_strlit("Greater");
            }
        },
    }
}

/// The name of an ordering.
pub open spec fn ordering_name(o: Ordering) -> Seq<char> {
    match o {
        Ordering::Less => "Less"@,
        Ordering::Equal => "Equal"@,
        Ordering::Greater => "Greater"@,
    }
}

/// The name of the deterministic comparison of `a` with `b`.
pub open spec fn comparison_name(a: PrioritizedView, b: PrioritizedView) -> Seq<char> {
    ordering_name(deterministic_order(a, b))
}

/// Whether the two transactions compare equal in the deterministic order.
fn compare_equal(a: &PrioritizedTransaction, b: &PrioritizedTransaction) -> (r: bool)
    ensures
        r == (a@.priority_score == b@.priority_score && a@.tx_hash == b@.tx_hash),
{
    proof {
        crate::priority_ordering::lemma_det_total(a@, b@);
    }
    match a.compare_deterministic(b) {
        Ordering::Equal => true,
        _ => false,
    }
}

/// Appends the name of the deterministic comparison of `a` with `b`.
fn push_comparison_name(s: &mut String, a: &PrioritizedTransaction, b: &PrioritizedTransaction)
    ensures
        final(s)@ == old(s)@ + comparison_name(a@, b@),
{
    let o = a.compare_deterministic(b);
    push_ordering_name(s, o);
}

impl DeterministicOrderingEngine {
    /// Removes the transaction recorded under `tx_hash` (see
    /// `PriorityBuckets::remove`).
    pub fn remove_transaction(&mut self, tx_hash: &[u8]) -> (r: Option<PrioritizedTransaction>)
        requires
            old(self).wf(),
        ensures
            final(self).wf(),
            final(self).storage_attached_spec() == old(self).storage_attached_spec(),
            final(self).config_spec() == old(self).config_spec(),
            final(self).index() == old(self).index().remove(tx_hash@),
            !old(self).index().contains_key(tx_hash@) ==> r is None && final(self).contents() == old(self).contents(),
            old(self).index().contains_key(tx_hash@) ==> {
                let b = old(self).index()[tx_hash@].0 as int;
                let s = old(self).contents()[b];
                let p = first_with_hash(s, tx_hash@, 0);
                &&& p < s.len() ==> r is Some && r->0@ == s[p] && final(self).contents() == old(self).contents().update(b, s.remove(p))
                &&& p == s.len() ==> r is None && final(self).contents() == old(self).contents()
            },
    {
        self.priority_buckets.remove(tx_hash)
    }

    /// The transactions in the consensus order: the highest fee-rate bucket
    /// first, inside a bucket the higher score and then the smaller hash
    /// first; `limit` of them (at least one when there is one).
    pub fn get_ordered_transactions(&self, limit: usize) -> (r: Result<Vec<PrioritizedTransaction>, String>)
        requires
            self.wf(),
        ensures
            r is Ok,
            tx_views(r->Ok_0@) == ordered_views(self.contents()).take(yield_count(ordered_views(self.contents()).len() as int, limit)),
    {
        Ok(self.priority_buckets.get_ordered_transactions(limit))
    }

    /// Checks the buckets (see `PriorityBuckets::verify_consistency`) and
    /// reports the number of transactions, and whether storage was checked:
    /// when it is enabled and a store is attached.
    pub fn verify_ordering_consistency(&self) -> (r: Result<OrderingValidation, String>)
        requires
            self.wf(),
            total_len(self.contents()) <= usize::MAX,
        ensures
            r is Ok <==> consistent(self.contents(), self.index()),
            r is Err ==> r->Err_0@ == "Bucket consistency check failed: "@ + "Hash index mismatch for transaction"@
                || r->Err_0@ == "Bucket consistency check failed: "@ + "Transaction not ordered correctly relative to peer"@,
            r matches Ok(v) ==> v.is_valid && v.error_message is None
                && v.transaction_count == total_len(self.contents())
                && v.storage_verified == (self.config_spec().use_storage_verification && self.storage_attached_spec()),
    {
        match self.priority_buckets.verify_consistency() {
            Ok(()) => {},
            Err(e) => {
                let mut m = String::from_str("Bucket consistency check failed: ");
                m.append(e.as_str());
                proof {
                    reveal_strlit("Bucket consistency check failed: ");
                }
                return Err(m);
            },
        }
        let transaction_count = self.priority_buckets.total_count();
        let storage_verified = if self.config.use_storage_verification { self.storage_attached } else { false };
        Ok(OrderingValidation::success(transaction_count, storage_verified))
    }

    /// Compares our first transactions with a peer's list, position by
    /// position: the counts, then each hash, then each deterministic
    /// comparison must agree.
    pub fn validate_against_peer(&self, peer_transactions: &[PrioritizedTransaction]) -> (r: Result<OrderingValidation, String>)
        requires
            self.wf(),
        ensures
            r is Ok,
            ({
                let ours = ordered_views(self.contents()).take(yield_count(ordered_views(self.contents()).len() as int, peer_transactions@.len() as usize));
                let peer = tx_views(peer_transactions@);
                let v = r->Ok_0;
                if ours.len() != peer.len() {
                    &&& !v.is_valid
                    &&& v.transaction_count == ours.len()
                    &&& v.error_message matches Some(m) && m@ == "Transaction count mismatch: "@ + dec_string(ours.len())
                        + " vs "@ + dec_string(peer.len())
                } else {
                    let k = first_peer_difference(ours, peer, 0);
                    if k < ours.len() {
                        &&& !v.is_valid
                        &&& v.transaction_count == k
                        &&& ours[k].tx_hash != peer[k].tx_hash ==> (v.error_message matches Some(m)
                            && m@ == "Transaction mismatch at position "@ + dec_string(k as nat))
                        &&& ours[k].tx_hash == peer[k].tx_hash ==> (v.error_message matches Some(m)
                            && m@ == "Deterministic comparison failed at position "@ + dec_string(k as nat) + ": "@
                                + comparison_name(ours[k], peer[k]))
                    } else {
                        &&& v.is_valid
                        &&& v.error_message is None
                        &&& v.transaction_count == ours.len()
                        &&& !v.storage_verified
                    }
                }
            }),
    {
        let our_txs = self.priority_buckets.get_ordered_transactions(peer_transactions.len());
        let ghost ours = tx_views(our_txs@);
        let ghost peer = tx_views(peer_transactions@);
        let ghost expected = ordered_views(self.contents()).take(
            yield_count(ordered_views(self.contents()).len() as int, peer_transactions@.len() as usize));
        proof {
            assert(ours == expected);
        }
        if our_txs.len() != peer_transactions.len() {
            let mut e = String::from_str("Transaction count mismatch: ");
            push_decimal(&mut e, our_txs.len() as u64);
            e.append(" vs ");
            push_decimal(&mut e, peer_transactions.len() as u64);
            proof {
                reveal_strlit("Transaction count mismatch: ");
                reveal_strlit(" vs ");
            }
            return Ok(OrderingValidation::failure(e, our_txs.len()));
        }
        let mut idx: usize = 0;
        while idx < our_txs.len()
            invariant
                ours == tx_views(our_txs@),
                peer == tx_views(peer_transactions@),
                ours == expected,
                expected == ordered_views(self.contents()).take(
                    yield_count(ordered_views(self.contents()).len() as int, peer_transactions@.len() as usize)),
                ours.len() == peer.len(),
                idx <= ours.len(),
                forall|j: int| 0 <= j < idx ==> (#[trigger] ours[j]).tx_hash == peer[j].tx_hash && ours[j].priority_score == peer[j].priority_score,
            decreases ours.len() - idx,
        {
            let our_tx = &our_txs[idx];
            let peer_tx = &peer_transactions[idx];
            proof {
                assert(our_tx@ == ours[idx as int]);
                assert(peer_tx@ == peer[idx as int]);
            }
            if !bytes_eq(our_tx.tx_hash.as_slice(), peer_tx.tx_hash.as_slice()) {
                proof {
                    lemma_first_peer_difference(ours, peer, 0, idx as int);
                    reveal_strlit("Transaction mismatch at position ");
                }
                let mut e = String::from_str("Transaction mismatch at position ");
                push_decimal(&mut e, idx as u64);
                let v = OrderingValidation::failure(e, idx);
                proof {
                    let ours2 = ordered_views(self.contents()).take(yield_count(ordered_views(self.contents()).len() as int, peer_transactions@.len() as usize));
                    assert(ours2 == ours);
                    assert(first_peer_difference(ours, peer, 0) == idx);
                    assert(v.error_message matches Some(m) && m@ == "Transaction mismatch at position "@ + dec_string(idx as nat));
                }
                return Ok(v);
            }
            if !compare_equal(our_tx, peer_tx) {
                proof {
                    lemma_first_peer_difference(ours, peer, 0, idx as int);
                    reveal_strlit("Deterministic comparison failed at position ");
                    reveal_strlit(": ");
                }
                let mut e = String::from_str("Deterministic comparison failed at position ");
                push_decimal(&mut e, idx as u64);
                e.append(": ");
                push_comparison_name(&mut e, our_tx, peer_tx);
                return Ok(OrderingValidation::failure(e, idx));
            }
            idx = idx + 1;
        }
        proof {
            lemma_first_peer_difference(ours, peer, 0, ours.len() as int);
        }
        Ok(OrderingValidation::success(our_txs.len(), false))
    }

    /// Adds each `(hash, fee rate, arrival time, size, fee)` in turn; stops
    /// at the first that cannot be placed and fails with its error.
    pub fn process_batch(&mut self, transactions: Vec<(Vec<u8>, u64, u64, usize, u64)>) -> (r: Result<usize, String>)
        requires
            old(self).wf(),
        ensures
            final(self).wf(),
            final(self).storage_attached_spec() == old(self).storage_attached_spec(),
            final(self).config_spec() == old(self).config_spec(),
            ({
                let vs = batch_views(transactions@);
                let k = first_unplaceable(vs, 0);
                &&& (final(self).contents(), final(self).index())
                    == insert_all((old(self).contents(), old(self).index()), Self::engine_bounds(), vs.take(k))
                &&& k == vs.len() ==> r == Ok::<usize, String>(vs.len() as usize)
                &&& k < vs.len() ==> r is Err && r->Err_0@ == "No suitable bucket for fee rate"@
            }),
    {
        let ghost vs = batch_views(transactions@);
        let ghost st0 = (self.contents(), self.index());
        let mut added_count: usize = 0;
        proof {
            assert(vs.take(0) =~= Seq::<PrioritizedView>::empty());
        }
        while added_count < transactions.len()
            invariant
                self.wf(),
                self.storage_attached_spec() == old(self).storage_attached_spec(),
                self.config_spec() == old(self).config_spec(),
                vs == batch_views(transactions@),
                st0 == (old(self).contents(), old(self).index()),
                added_count <= vs.len(),
                forall|j: int| 0 <= j < added_count ==> (#[trigger] vs[j]).fee_rate < u64::MAX,
                (self.contents(), self.index()) == insert_all(st0, Self::engine_bounds(), vs.take(added_count as int)),
            decreases vs.len() - added_count,
        {
            let i = added_count;
            let t = &transactions[i];
            proof {
                assert(vs.take(i + 1).drop_last() =~= vs.take(i as int));
                assert(vs.take(i + 1).last() == vs[i as int]);
            }
            match self.add_transaction(copy_bytes(t.0.as_slice()), t.1, t.2, t.3, t.4) {
                Ok(()) => {},
                Err(e) => {
                    proof {
                        lemma_first_unplaceable(vs, 0, i as int);
                    }
                    return Err(e);
                },
            }
            added_count = added_count + 1;
        }
        proof {
            lemma_first_unplaceable(vs, 0, vs.len() as int);
            assert(vs.take(vs.len() as int) =~= vs);
        }
        Ok(added_count)
    }

    /// Counts, fees and per-bucket counts.
    pub fn get_ordering_stats(&self) -> (r: Result<OrderingStats, String>)
        requires
            self.wf(),
            total_len(self.contents()) <= usize::MAX,
            total_fee_sum(self.contents()) <= u64::MAX,
        ensures
            r matches Ok(st) && st.total_transactions == total_len(self.contents())
                && st.total_fees == total_fee_sum(self.contents())
                && st.bucket_count == self.contents().len()
                && st.bucket_distribution@.len() == self.contents().len()
                && forall|b: int| 0 <= b < self.contents().len() ==> #[trigger] st.bucket_distribution@[b] == self.contents()[b].len(),
    {
        let stats = self.priority_buckets.get_statistics();
        let mut distribution: Vec<usize> = Vec::new();
        let mut b: usize = 0;
        while b < stats.bucket_info.len()
            invariant
                b <= stats.bucket_info@.len(),
                stats.bucket_info@.len() == self.contents().len(),
                forall|k: int| 0 <= k < self.contents().len() ==> (#[trigger] stats.bucket_info@[k]).transaction_count == self.contents()[k].len(),
                distribution@.len() == b,
                forall|k: int| 0 <= k < b ==> #[trigger] distribution@[k] == self.contents()[k].len(),
            decreases stats.bucket_info@.len() - b,
        {
            distribution.push(stats.bucket_info[b].transaction_count);
            b = b + 1;
        }
        Ok(OrderingStats {
            total_transactions: stats.total_transactions,
            total_fees: stats.total_fees,
            bucket_count: self.priority_buckets.bucket_count(),
            bucket_distribution: distribution,
        })
    }

    pub fn contains(&self, tx_hash: &[u8]) -> (b: bool)
        requires
            self.wf(),
        ensures
            b == self.index().contains_key(tx_hash@),
    {
        self.priority_buckets.contains(tx_hash)
    }

    /// A copy of the transaction recorded under `tx_hash` (see
    /// `PriorityBuckets::get`).
    pub fn get_transaction(&self, tx_hash: &[u8]) -> (r: Option<PrioritizedTransaction>)
        requires
            self.wf(),
        ensures
            !self.index().contains_key(tx_hash@) ==> r is None,
            self.index().contains_key(tx_hash@) ==> {
                let s = self.contents()[self.index()[tx_hash@].0 as int];
                let p = first_with_hash(s, tx_hash@, 0);
                &&& p < s.len() ==> r is Some && r->0@ == s[p]
                &&& p == s.len() ==> r is None
            },
    {
        self.priority_buckets.get(tx_hash)
    }

    /// Empties the buckets and the index.
    pub fn clear(&mut self) -> (r: Result<(), String>)
        requires
            old(self).wf(),
        ensures
            final(self).wf(),
            r is Ok,
            final(self).storage_attached_spec() == old(self).storage_attached_spec(),
            final(self).config_spec() == old(self).config_spec(),
            final(self).contents().len() == old(self).contents().len(),
            forall|b: int| 0 <= b < final(self).contents().len() ==> #[trigger] final(self).contents()[b] == Seq::<PrioritizedView>::empty(),
            final(self).index() == Map::<Seq<u8>, (usize, usize)>::empty(),
    {
        self.priority_buckets.clear();
        Ok(())
    }

    /// The bucket thresholds.
    pub fn get_fee_thresholds(&self) -> (r: Vec<u64>)
        requires
            self.wf(),
        ensures
            r@ == default_thresholds(),
    {
        self.priority_buckets.fee_thresholds()
    }

    /// Every transaction in the consensus order.
    pub fn export_ordered_snapshot(&self) -> (r: Result<Vec<PrioritizedTransaction>, String>)
        requires
            self.wf(),
        ensures
            r is Ok,
            tx_views(r->Ok_0@) == ordered_views(self.contents()).take(yield_count(ordered_views(self.contents()).len() as int, usize::MAX)),
    {
        self.get_ordered_transactions(usize::MAX)
    }

    /// Adds each transaction again from its hash, fee rate, arrival time,
    /// size and fee; stops at the first that cannot be placed; returns the
    /// number held.
    pub fn import_ordered_batch(&mut self, transactions: Vec<PrioritizedTransaction>) -> (r: Result<usize, String>)
        requires
            old(self).wf(),
            total_len(old(self).contents()) + transactions@.len() <= usize::MAX,
        ensures
            final(self).wf(),
            final(self).storage_attached_spec() == old(self).storage_attached_spec(),
            final(self).config_spec() == old(self).config_spec(),
            ({
                let vs = readd_views(transactions@);
                let k = first_unplaceable(vs, 0);
                &&& (final(self).contents(), final(self).index())
                    == insert_all((old(self).contents(), old(self).index()), Self::engine_bounds(), vs.take(k))
                &&& k == vs.len() ==> r == Ok::<usize, String>(total_len(final(self).contents()) as usize)
                &&& k < vs.len() ==> r is Err && r->Err_0@ == "No suitable bucket for fee rate"@
            }),
    {
        let ghost vs = readd_views(transactions@);
        let ghost st0 = (self.contents(), self.index());
        let ghost n0 = total_len(self.contents());
        let mut i: usize = 0;
        proof {
            assert(vs.take(0) =~= Seq::<PrioritizedView>::empty());
        }
        while i < transactions.len()
            invariant
                self.wf(),
                self.storage_attached_spec() == old(self).storage_attached_spec(),
                self.config_spec() == old(self).config_spec(),
                vs == readd_views(transactions@),
                st0 == (old(self).contents(), old(self).index()),
                n0 == total_len(old(self).contents()),
                n0 + transactions@.len() <= usize::MAX,
                i <= vs.len(),
                total_len(self.contents()) == n0 + i,
                forall|j: int| 0 <= j < i ==> (#[trigger] vs[j]).fee_rate < u64::MAX,
                (self.contents(), self.index()) == insert_all(st0, Self::engine_bounds(), vs.take(i as int)),
            decreases vs.len() - i,
        {
            let t = &transactions[i];
            let ghost c_before = self.contents();
            proof {
                self.priority_buckets.lemma_wf();
            }
            proof {
                assert(vs.take(i + 1).drop_last() =~= vs.take(i as int));
                assert(vs.take(i + 1).last() == vs[i as int]);
            }
            match self.add_transaction(copy_bytes(t.tx_hash.as_slice()), t.fee_rate, t.arrival_time, t.size_bytes, t.total_fee) {
                Ok(()) => {},
                Err(e) => {
                    proof {
                        lemma_first_unplaceable(vs, 0, i as int);
                    }
                    return Err(e);
                },
            }
            proof {
                let b = first_fit(Self::engine_bounds(), vs[i as int].fee_rate, 0);
                lemma_default_bounds_fit(vs[i as int].fee_rate);
                assert(vs[i as int].fee_rate == t.fee_rate);
                assert(default_thresholds().len() == 4);
                assert(c_before.len() == 5);
                assert(b < 5);
                lemma_sorted_insert_len(c_before[b], vs[i as int]);
                lemma_total_len_update(c_before, b, sorted_insert(c_before[b], vs[i as int]));
            }
            i = i + 1;
        }
        proof {
            lemma_first_unplaceable(vs, 0, vs.len() as int);
            assert(vs.take(vs.len() as int) =~= vs);
        }
        let n = self.priority_buckets.total_count();
        Ok(n)
    }
}
} // verus!
