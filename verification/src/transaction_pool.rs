//! The transaction pool: its entries by hash, in arrival order, with the
//! fee filter, the spend-conflict graph, the memory limiter and the orphan
//! pool it admits transactions through, and the multi-dimensional index and
//! deterministic ordering of its main pool.

use vstd::prelude::*;
use indexmap::IndexMap;
use crate::admission::{
    AdmissionError, Placement, ValidationVerdict, check_capacity, place_after_validation, resolve_spend_conflicts,
    screen_fees, screen_outcome,
};
use crate::bytes::{copy_bytes, seq_lt};
use crate::conflict::OutPoint;
use crate::graph_conflict_ordering::{GraphConflictOrderingEngine, claimants_of};
use crate::keyed::{key_views, lemma_filter_exact, lemma_filter_member};
use crate::memory_limiter::{MemoryStats, MempoolLimiter, MempoolLimiterConfig, SpaceState, TransactionWeight, space_run, map_total, tracked_weight, lemma_map_total_remove};
use crate::bytes::{lemma_seq_lt_total, lemma_seq_lt_transitive};
use crate::external::{clock_unix_secs, clock_unix_nanos};
use crate::orphan_manager::can_evict;
use crate::orphan_manager::{OrphanManager, OrphanPoolConfig, OrphanEvictionPolicy, OrphanState, joined, joined_entry, no_orphans,
    after_adopt_all, adopted_all, tx_views, OrphanStats, after_remove_all, expired_set, index_consistent};
use crate::pool::{FeeFilter, MempoolSnapshot, PoolConfig, PoolEntry, PoolEntryView, TransactionStatus, fee_rate_spec, strongest};
use crate::transaction::{Transaction, TransactionView, hash_key, hash_key_spec};
use crate::counter::{wrap_add, wrap_usize, lemma_wrap_add_once, lemma_wrap_add_zero, lemma_wrap_usize_zero, lemma_wrap_usize_step};
use crate::pool::PoolStats;
use crate::deterministic_ordering::{DeterministicOrderingEngine, DeterministicOrderingEngineConfig, yield_count};
use crate::priority_ordering::ordered_views;
use crate::priority_ordering::tx_views as prioritized_views;
use crate::multi_dimensional_index::{Dimension, IndexQuery, IndexedTransaction, IndexedTxView, MultiDimensionalIndex,
    combined_selector, selector};
use crate::multi_dimensional_index::tx_views as indexed_views;

verus! {

/// What a map from transaction hash to pool entry holds.
pub uninterp spec fn pool_entries(m: IndexMap<Vec<u8>, PoolEntry>) -> Map<Seq<u8>, PoolEntryView>;

/// No entries.
pub open spec fn no_entries() -> Map<Seq<u8>, PoolEntryView> {
    Map::empty()
}

/// Calls `IndexMap::new`: an empty map.
#[verifier::external_body]
fn entries_new() -> (m: IndexMap<Vec<u8>, PoolEntry>)
    ensures
        pool_entries(m) == no_entries(),
{
    IndexMap::new()
}

/// Calls `IndexMap::len`: the number of entries.
#[verifier::external_body]
fn entries_len(m: &IndexMap<Vec<u8>, PoolEntry>) -> (n: usize)
    ensures
        n == pool_entries(*m).len(),
{
    m.len()
}

/// Calls `IndexMap::contains_key`.
#[verifier::external_body]
fn entries_contains(m: &IndexMap<Vec<u8>, PoolEntry>, k: &[u8]) -> (b: bool)
    ensures
        b == pool_entries(*m).contains_key(k@),
{
    m.contains_key(k)
}

/// Calls `IndexMap::get` and copies the entry found, if any.
#[verifier::external_body]
fn entries_get(m: &IndexMap<Vec<u8>, PoolEntry>, k: &[u8]) -> (r: Option<PoolEntry>)
    ensures
        match r {
            Some(e) => pool_entries(*m).contains_key(k@) && e@ == pool_entries(*m)[k@],
            None => !pool_entries(*m).contains_key(k@),
        },
{
    m.get(k).map(|e| e.duplicate())
}

/// Calls `IndexMap::insert`: the key now holds the entry.
#[verifier::external_body]
fn entries_insert(m: &mut IndexMap<Vec<u8>, PoolEntry>, k: Vec<u8>, v: PoolEntry)
    ensures
        pool_entries(*final(m)) == pool_entries(*old(m)).insert(k@, v@),
{
    m.insert(k, v);
}

/// Calls `IndexMap::shift_remove`: the key's entry leaves and is returned.
#[verifier::external_body]
fn entries_shift_remove(m: &mut IndexMap<Vec<u8>, PoolEntry>, k: &[u8]) -> (r: Option<PoolEntry>)
    ensures
        pool_entries(*final(m)) == pool_entries(*old(m)).remove(k@),
        match r {
            Some(e) => pool_entries(*old(m)).contains_key(k@) && e@ == pool_entries(*old(m))[k@],
            None => !pool_entries(*old(m)).contains_key(k@),
        },
{
    m.shift_remove(k)
}

/// Calls `IndexMap::keys` and copies the keys: each held key once.
#[verifier::external_body]
fn entries_keys(m: &IndexMap<Vec<u8>, PoolEntry>) -> (r: Vec<Vec<u8>>)
    ensures
        key_views(r@).no_duplicates(),
        key_views(r@).to_set() == pool_entries(*m).dom(),
{
    m.keys().cloned().collect()
}

/// Calls `IndexMap::clear`: the map is empty.
#[verifier::external_body]
fn entries_clear(m: &mut IndexMap<Vec<u8>, PoolEntry>)
    ensures
        pool_entries(*final(m)) == no_entries(),
{
    m.clear();
}

/// Whether a pool entry has expired at time `now` under `config`: orphan
/// and rejected entries do once older than their time-to-live.
pub open spec fn entry_expired(e: PoolEntryView, now: u64, config: PoolConfig) -> bool {
    match e.status {
        TransactionStatus::InOrphanPool => now - e.arrival_time > config.orphan_ttl_secs,
        TransactionStatus::Rejected => now - e.arrival_time > config.rejected_ttl_secs,
        _ => false,
    }
}

/// The outpoints of the inputs at positions `idx` that the transaction has,
/// in order; positions past its inputs are skipped.
pub open spec fn missing_outpoints(tx: TransactionView, idx: Seq<usize>) -> Seq<(Seq<u8>, u32)>
    decreases idx.len(),
{
    if idx.len() == 0 {
        Seq::empty()
    } else {
        let p = missing_outpoints(tx, idx.drop_last());
        let i = idx.last() as int;
        if i < tx.inputs.len() {
            p.push((hash_key_spec(tx.inputs[i].prev_tx), tx.inputs[i].index))
        } else {
            p
        }
    }
}

/// Whether a weight `w` more goes over the limiter's limit.
pub open spec fn over_limit(l: MempoolLimiter, w: usize) -> bool {
    l.weight_view() + w > l.config_view().max_size_bytes
}

/// What making room for weight `w` along `order` evicts and frees.
pub open spec fn room_made(l: MempoolLimiter, w: usize, order: Seq<Seq<u8>>) -> SpaceState {
    space_run(
        SpaceState {
            weights: l.weights_view(),
            graph: l.graph_view(),
            freed: 0,
            cascade: 0,
            evicted: Set::empty(),
            count: 0,
            done: false,
        },
        order,
        l.weight_view() + w,
        (l.config_view().max_size_bytes / 2) as int,
    )
}

/// The hashes taken out to make room: none when the weight fits.
pub open spec fn room_evicted(l: MempoolLimiter, w: usize, order: Seq<Seq<u8>>) -> Set<Seq<u8>> {
    if over_limit(l, w) {
        room_made(l, w, order).evicted
    } else {
        Set::empty()
    }
}

/// The entries under the hashes `ks`, in that order.
pub open spec fn entries_at(m: Map<Seq<u8>, PoolEntryView>, ks: Seq<Seq<u8>>) -> Seq<PoolEntryView> {
    ks.map_values(|k: Seq<u8>| m[k])
}

/// Views of a list of entries.
pub open spec fn entry_views(v: Seq<PoolEntry>) -> Seq<PoolEntryView> {
    v.map_values(|e: PoolEntry| e@)
}

/// How many of the entries have status `st`.
pub open spec fn count_status(es: Seq<PoolEntryView>, st: TransactionStatus) -> nat
    decreases es.len(),
{
    if es.len() == 0 {
        0
    } else {
        count_status(es.drop_last(), st) + if es.last().status == st { 1nat } else { 0nat }
    }
}

/// The fees of the entries added up.
pub open spec fn fee_total(es: Seq<PoolEntryView>) -> nat
    decreases es.len(),
{
    if es.len() == 0 { 0 } else { fee_total(es.drop_last()) + (es.last().total_fee as nat) }
}

/// The sizes of the entries added up.
pub open spec fn size_total(es: Seq<PoolEntryView>) -> nat
    decreases es.len(),
{
    if es.len() == 0 { 0 } else { size_total(es.drop_last()) + (es.last().size_bytes as nat) }
}

proof fn lemma_fee_wrap(n: nat, c: u64)
    ensures
        wrap_add(0, n).wrapping_add(c) == wrap_add(0, n + (c as nat)),
{
    let m: int = 0x1_0000_0000_0000_0000int;
    lemma_wrap_add_once(wrap_add(0, n), c);
    vstd::arithmetic::div_mod::lemma_add_mod_noop(n as int, c as int, m);
    vstd::arithmetic::div_mod::lemma_small_mod(c as nat, m as nat);
}

/// A transaction with hash `h` and fee rate `rate` outranks one with hash
/// `k` and fee rate `krate`: a higher rate, or the same rate and the smaller
/// hash.
pub open spec fn beats(h: Seq<u8>, rate: u64, k: Seq<u8>, krate: u64) -> bool {
    rate > krate || (rate == krate && seq_lt(h, k))
}

/// The fee rate `base` of a transaction that arrived at `arrival`, as of
/// `now`: a tenth more for each full hour it has waited, up to twenty
/// tenths, rounded down and capped at `u64::MAX`.
pub open spec fn boosted_rate(base: u64, arrival: u64, now: u64) -> u64 {
    let hours = if now >= arrival { (now - arrival) / 3600 } else { 0 };
    let tenths = if hours > 20 { 20 } else { hours };
    let v = base * (10 + tenths) / 10;
    if v > u64::MAX { u64::MAX } else { v as u64 }
}

/// The effective fee rate of the entry under `k` as of `now` (its fee rate
/// boosted for the time it has waited), zero when there is none.
pub open spec fn rate_in(e: Map<Seq<u8>, PoolEntryView>, k: Seq<u8>, now: u64) -> u64 {
    if e.contains_key(k) { boosted_rate(fee_rate_spec(e[k].total_fee, e[k].size_bytes), e[k].arrival_time, now) } else { 0 }
}

/// `base` boosted for waiting from `arrival` to `now`.
fn boost_fee_rate(base: u64, arrival: u64, now: u64) -> (r: u64)
    ensures
        r == boosted_rate(base, arrival, now),
{
    let hours = now.saturating_sub(arrival) / 3600;
    let tenths: u64 = if hours > 20 { 20 } else { hours };
    let factor: u128 = 10 + tenths as u128;
    assert((base as u128) * factor <= 30 * 0xffff_ffff_ffff_ffffu128) by (nonlinear_arith)
        requires
            factor <= 30,
    ;
    let v: u128 = (base as u128) * factor / 10;
    if v > 0xffff_ffff_ffff_ffffu128 { u64::MAX } else { v as u64 }
}

/// The strongest of a nonempty list of (hash, rate) pairs is one of them,
/// and none of them outranks it.
proof fn lemma_strongest_max(s: Seq<(Seq<u8>, u64)>)
    requires
        s.len() > 0,
    ensures
        s.contains(strongest(s)),
        forall|i: int| 0 <= i < s.len() ==> !beats((#[trigger] s[i]).0, s[i].1, strongest(s).0, strongest(s).1),
    decreases s.len(),
{
    if s.len() == 1 {
        assert(s[0] == strongest(s));
        lemma_seq_lt_total(s[0].0, s[0].0);
    } else {
        let p = s.drop_last();
        lemma_strongest_max(p);
        let b = strongest(p);
        let x = s.last();
        let t = strongest(s);
        assert(t == (if x.1 > b.1 || (x.1 == b.1 && seq_lt(x.0, b.0)) { x } else { b }));
        assert forall|i: int| 0 <= i < s.len() implies !beats((#[trigger] s[i]).0, s[i].1, t.0, t.1) by {
            let y = s[i];
            lemma_seq_lt_total(y.0, t.0);
            lemma_seq_lt_total(x.0, b.0);
            if i < s.len() - 1 {
                assert(y == p[i]);
                assert(!beats(y.0, y.1, b.0, b.1));
                if t == x && beats(y.0, y.1, x.0, x.1) {
                    if seq_lt(y.0, x.0) && seq_lt(x.0, b.0) {
                        lemma_seq_lt_transitive(y.0, x.0, b.0);
                    }
                }
            } else {
                assert(y == x);
            }
        }
        if t == b {
            let j = choose|j: int| 0 <= j < p.len() && p[j] == b;
            assert(s[j] == b);
        } else {
            assert(s[s.len() - 1] == x);
        }
    }
}

/// Outranking the strongest of a nonempty list is outranking each of them.
proof fn lemma_beats_strongest(h: Seq<u8>, rate: u64, s: Seq<(Seq<u8>, u64)>)
    requires
        s.len() > 0,
    ensures
        beats(h, rate, strongest(s).0, strongest(s).1)
            <==> forall|i: int| 0 <= i < s.len() ==> beats(h, rate, (#[trigger] s[i]).0, s[i].1),
{
    lemma_strongest_max(s);
    let b = strongest(s);
    if beats(h, rate, b.0, b.1) {
        assert forall|i: int| 0 <= i < s.len() implies beats(h, rate, (#[trigger] s[i]).0, s[i].1) by {
            let x = s[i];
            lemma_seq_lt_total(x.0, b.0);
            if rate == b.1 && x.1 == b.1 && seq_lt(b.0, x.0) {
                lemma_seq_lt_transitive(h, b.0, x.0);
            }
        }
    } else {
        let j = choose|j: int| 0 <= j < s.len() && s[j] == b;
        assert(!beats(h, rate, s[j].0, s[j].1));
    }
}

/// The bytes of `anonymous_source`.
pub open spec fn anonymous_source_key() -> Seq<u8> {
    seq![97u8, 110, 111, 110, 121, 109, 111, 117, 115, 95, 115, 111, 117, 114, 99, 101]
}

/// The outputs of the transaction `h` with `n` outputs, in order.
pub open spec fn output_points(h: Seq<u8>, n: nat) -> Seq<(Seq<u8>, u32)> {
    Seq::new(n, |i: int| (h, i as u32))
}

/// `q` is `p` with the entry under `k` taken out, and its weight out of the
/// memory limiter; the rest is as it was.
pub open spec fn removed_from(p: TransactionPool, k: Seq<u8>, q: TransactionPool) -> bool {
    &&& q.entries_view() == p.entries_view().remove(k)
    &&& q.limiter_view().weights_view() == p.limiter_view().weights_view().remove(k)
    &&& q.limiter_view().weight_view() == p.limiter_view().weight_view() - tracked_weight(p.limiter_view().weights_view(), k)
    &&& q.limiter_view().config_view() == p.limiter_view().config_view()
    &&& q.limiter_view().graph_view() == p.limiter_view().graph_view()
    &&& q.orphans_view() == p.orphans_view()
    &&& q.orphan_config_view() == p.orphan_config_view()
    &&& q.filter_view() == p.filter_view()
    &&& q.conflicts_view() == p.conflicts_view()
    &&& q.config_view() == p.config_view()
}

/// Outranking the strongest of the rated rivals is outranking every rival,
/// each rated by its entry in `e`.
proof fn lemma_rivals_outranked(h: Seq<u8>, rate: u64, ks: Seq<Seq<u8>>, rs: Seq<(Seq<u8>, u64)>, e: Map<Seq<u8>, PoolEntryView>,
    now: u64)
    requires
        rs.len() == ks.len(),
        rs.len() > 0,
        forall|i: int| 0 <= i < rs.len() ==> (#[trigger] rs[i]).0 == ks[i] && rs[i].1 == rate_in(e, ks[i], now),
    ensures
        beats(h, rate, strongest(rs).0, strongest(rs).1)
            <==> forall|k: Seq<u8>| #[trigger] ks.to_set().contains(k) ==> beats(h, rate, k, rate_in(e, k, now)),
{
    lemma_beats_strongest(h, rate, rs);
    if beats(h, rate, strongest(rs).0, strongest(rs).1) {
        assert forall|k: Seq<u8>| #[trigger] ks.to_set().contains(k) implies beats(h, rate, k, rate_in(e, k, now)) by {
            let i = choose|i: int| 0 <= i < ks.len() && ks[i] == k;
            assert(rs[i].0 == k);
        }
    } else {
        let i = choose|i: int| 0 <= i < rs.len() && !beats(h, rate, (#[trigger] rs[i]).0, rs[i].1);
        assert(ks.to_set().contains(ks[i]));
    }
}

/// The deterministic supremacy rule decides against every conflicting
/// transaction at once: a new transaction with hash `h` and fee rate `rate`
/// outranks the strongest of a nonempty list of (hash, fee rate) pairs
/// exactly when, against each of them, it has the higher fee rate, or the
/// same fee rate and the lexicographically smaller hash.
pub proof fn lemma_supremacy_is_against_all(h: Seq<u8>, rate: u64, cs: Seq<(Seq<u8>, u64)>)
    requires
        cs.len() > 0,
    ensures
        (rate > strongest(cs).1 || (rate == strongest(cs).1 && seq_lt(h, strongest(cs).0)))
            <==> forall|i: int| 0 <= i < cs.len()
                ==> rate > (#[trigger] cs[i]).1 || (rate == cs[i].1 && seq_lt(h, cs[i].0)),
        cs.contains(strongest(cs)),
{
    lemma_beats_strongest(h, rate, cs);
    lemma_strongest_max(cs);
}

/// Cleaning the pool at `now` keeps pending, validated and every other
/// entry that is neither an orphan nor rejected, keeps orphans at most
/// `orphan_ttl_secs` old and rejected entries at most `rejected_ttl_secs`
/// old (an entry exactly that old stays), and takes out the rest, leaving
/// what stays unchanged.
pub proof fn lemma_cleanup_keeps_the_live_entries(m: Map<Seq<u8>, PoolEntryView>, now: u64, config: PoolConfig,
    after: Map<Seq<u8>, PoolEntryView>)
    requires
        after == m.remove_keys(m.dom().filter(|k: Seq<u8>| entry_expired(m[k], now, config))),
    ensures
        forall|k: Seq<u8>| #[trigger] after.contains_key(k) <==> m.contains_key(k) && match m[k].status {
            TransactionStatus::InOrphanPool => now - m[k].arrival_time <= config.orphan_ttl_secs,
            TransactionStatus::Rejected => now - m[k].arrival_time <= config.rejected_ttl_secs,
            _ => true,
        },
        forall|k: Seq<u8>| #[trigger] after.contains_key(k) ==> after[k] == m[k],
{
}

/// What admitting `tx` into pool `p` comes to: `Ok(true)` for the main
/// pool, `Ok(false)` for the orphan pool, or the refusal. In order: the fee
/// screens; the source's allowance; the pool's size limit; room for the
/// weight (none when the weight counter would overflow; when over the limit,
/// eviction along `order` must free at least the weight); the transactions
/// it double-spends, each of which it must outrank (by effective fee rate as
/// of `now` in the pool after that eviction, then by the smaller hash); the
/// validator's verdict;
/// then for the main pool the weight must fit under the limit once the
/// evicted and outranked transactions are gone and the deterministic
/// ordering must have a bucket for its fee rate, and for the orphan pool the
/// orphan pool must have room or an orphan it may evict.
pub open spec fn admission_result(
    p: TransactionPool,
    tx: Transaction,
    total_fee: u64,
    size_bytes: usize,
    resources_admit: bool,
    multiplier: u64,
    within_rate_limit: bool,
    weight: TransactionWeight,
    order: Seq<Seq<u8>>,
    verdict: Option<ValidationVerdict>,
    now: u64,
) -> Result<bool, AdmissionError> {
    let e0 = p.entries_view();
    let n = e0.len() as usize;
    let max = p.config_view().max_pool_size;
    let screen = screen_outcome(p.filter_view(), total_fee, size_bytes, resources_admit, multiplier, n, max, now);
    let h = hash_key_spec(tx@.id);
    let l = p.limiter_view();
    let w = weight.total_weight;
    let room = room_made(l, w, order);
    let over = over_limit(l, w);
    let e1 = e0.remove_keys(room_evicted(l, w, order));
    let rivals = claimants_of(p.conflicts_view().utxo_view(), tx, tx.inputs@.len() as int, h);
    let rate = fee_rate_spec(total_fee, size_bytes);
    let ws1 = if over { room.weights } else { l.weights_view() };
    let w1 = if over { l.weight_view() - room.freed } else { l.weight_view() as int };
    let gone = rivals.filter(|k: Seq<u8>| e1.contains_key(k));
    let w_main = w1 - (map_total(ws1) - map_total(ws1.remove_keys(gone)));
    if screen is Err {
        Err(screen->Err_0)
    } else if !within_rate_limit {
        Err(AdmissionError::RateLimited)
    } else if n >= max {
        Err(AdmissionError::PoolFull { max_pool_size: max })
    } else if l.weight_view() + w > usize::MAX {
        Err(AdmissionError::CannotFit { needed: w as u64, freed: 0 })
    } else if over && room.freed < w {
        Err(AdmissionError::CannotFit { needed: w as u64, freed: room.freed as u64 })
    } else if !(forall|k: Seq<u8>| #[trigger] rivals.contains(k) ==> beats(h, rate, k, rate_in(e1, k, now))) {
        Err(AdmissionError::OutrankedByConflict)
    } else {
        match verdict {
            None => if w_main + w > l.config_view().max_size_bytes {
                Err(AdmissionError::MemoryLimitExceeded)
            } else if rate == u64::MAX {
                Err(AdmissionError::OrderingRejected)
            } else {
                Ok(true)
            },
            Some(ValidationVerdict::Valid) => if w_main + w > l.config_view().max_size_bytes {
                Err(AdmissionError::MemoryLimitExceeded)
            } else if rate == u64::MAX {
                Err(AdmissionError::OrderingRejected)
            } else {
                Ok(true)
            },
            Some(ValidationVerdict::MissingInputs(_)) =>
                if p.orphans_view().pool.len() < p.orphan_config_view().max_orphans
                    || can_evict(p.orphans_view(), p.orphan_config_view().eviction_policy) {
                    Ok(false)
                } else {
                    Err(AdmissionError::OrphanPoolFull)
                },
            Some(ValidationVerdict::DoubleSpent) => Err(AdmissionError::DoubleSpent),
            Some(ValidationVerdict::InputNotFound(i)) => Err(AdmissionError::InputNotFound(i)),
            Some(ValidationVerdict::Failed) => Err(AdmissionError::ValidationFailed),
        }
    }
}

/// A pool of pending transactions.
pub struct TransactionPool {
    by_hash: IndexMap<Vec<u8>, PoolEntry>,
    orphan_manager: OrphanManager,
    fee_filter: FeeFilter,
    conflicts: GraphConflictOrderingEngine,
    memory_limiter: MempoolLimiter,
    multi_dimensional_index: MultiDimensionalIndex,
    deterministic_ordering: DeterministicOrderingEngine,
    config: PoolConfig,
}

impl TransactionPool {
    /// The entries by hash.
    pub closed spec fn entries_view(&self) -> Map<Seq<u8>, PoolEntryView> {
        pool_entries(self.by_hash)
    }

    pub closed spec fn orphans_view(&self) -> OrphanState {
        self.orphan_manager.state()
    }

    pub closed spec fn orphan_config_view(&self) -> OrphanPoolConfig {
        self.orphan_manager.config_view()
    }

    pub closed spec fn filter_view(&self) -> FeeFilter {
        self.fee_filter
    }

    pub closed spec fn limiter_view(&self) -> MempoolLimiter {
        self.memory_limiter
    }

    pub closed spec fn conflicts_view(&self) -> GraphConflictOrderingEngine {
        self.conflicts
    }

    pub closed spec fn config_view(&self) -> PoolConfig {
        self.config
    }

    /// The index of the main pool's transactions by fee rate, arrival and
    /// dependents.
    pub closed spec fn index_view(&self) -> MultiDimensionalIndex {
        self.multi_dimensional_index
    }

    /// The deterministic ordering of the main pool's transactions.
    pub closed spec fn ordering_view(&self) -> DeterministicOrderingEngine {
        self.deterministic_ordering
    }

    pub closed spec fn wf(&self) -> bool {
        &&& self.orphan_manager.wf()
        &&& self.conflicts.wf()
        &&& self.memory_limiter.wf()
        &&& self.multi_dimensional_index.wf()
        &&& self.deterministic_ordering.wf()
        &&& pool_entries(self.by_hash).dom().finite()
    }

    /// An empty pool with `config`, a fee filter at its minimum fee rate, the
    /// default memory limits, and an orphan pool that holds four fifths of
    /// `max_orphan_size` (rounded down) for `orphan_ttl_secs` each.
    pub fn new(config: PoolConfig) -> (p: Self)
        requires
            config.orphan_ttl_secs * 1_000_000_000 <= u64::MAX,
        ensures
            p.wf(),
            p.entries_view() == Map::<Seq<u8>, PoolEntryView>::empty(),
            p.config_view() == config,
            p.filter_view().base_fee() == config.min_fee_rate,
            p.filter_view().threshold() == config.min_fee_rate,
            p.orphan_config_view().max_orphans == config.max_orphan_size * 4 / 5,
            p.orphan_config_view().max_adoption_batch == 1000,
            p.orphan_config_view().orphan_ttl_ns == config.orphan_ttl_secs * 1_000_000_000,
            p.orphan_config_view().eviction_policy == OrphanEvictionPolicy::FeeBased,
            p.orphans_view().pool == no_orphans(),
            p.filter_view().bump_percent() == config.dynamic_fee_bump_percent,
            p.limiter_view().weights_view() == Map::<Seq<u8>, TransactionWeight>::empty(),
            p.limiter_view().graph_view() == Map::<Seq<u8>, Seq<Seq<u8>>>::empty(),
            p.limiter_view().weight_view() == 0,
            p.limiter_view().config_view().max_size_bytes == 300_000_000,
            p.conflicts_view().utxo_view() == Map::<Seq<u8>, Vec<Vec<u8>>>::empty(),
            p.index_view().hash_view() == Map::<Seq<u8>, IndexedTxView>::empty(),
            p.ordering_view().index() == Map::<Seq<u8>, (usize, usize)>::empty(),
    {
        let n = config.max_orphan_size;
        let max_orphans = n / 5 * 4 + n % 5 * 4 / 5;
        proof {
            assert(max_orphans == n * 4 / 5) by (nonlinear_arith)
                requires
                    max_orphans == n / 5 * 4 + n % 5 * 4 / 5,
                    n >= 0,
            {
                assert(n == n / 5 * 5 + n % 5);
            }
        }
        let defaults = OrphanPoolConfig::default();
        let orphan_config = OrphanPoolConfig {
            max_orphans,
            max_adoption_batch: 1000,
            orphan_ttl_ns: config.orphan_ttl_secs * 1_000_000_000,
            eviction_policy: defaults.eviction_policy,
        };
        let p = TransactionPool {
            by_hash: entries_new(),
            orphan_manager: OrphanManager::new(orphan_config),
            fee_filter: FeeFilter::new(config.min_fee_rate, config.dynamic_fee_bump_percent),
            conflicts: GraphConflictOrderingEngine::new(),
            memory_limiter: MempoolLimiter::new(MempoolLimiterConfig::default()),
            multi_dimensional_index: MultiDimensionalIndex::new(),
            deterministic_ordering: DeterministicOrderingEngine::new(DeterministicOrderingEngineConfig::default()),
            config,
        };
        proof {
            assert(pool_entries(p.by_hash).dom() =~= Set::<Seq<u8>>::empty());
        }
        p
    }

    /// The source a transaction is counted under for rate limiting: the
    /// public key of its first input, or `anonymous_source` when there is
    /// none.
    pub fn derive_source_key(&self, tx: &Transaction) -> (k: Vec<u8>)
        ensures
            k@ == (if tx@.inputs.len() > 0 && tx@.inputs[0].pubkey.len() > 0 {
                tx@.inputs[0].pubkey
            } else {
                anonymous_source_key()
            }),
    {
        if tx.inputs.len() > 0 && tx.inputs[0].pubkey.len() > 0 {
            return copy_bytes(tx.inputs[0].pubkey.as_slice());
        }
        let k: Vec<u8> = vec![97u8, 110, 111, 110, 121, 109, 111, 117, 115, 95, 115, 111, 117, 114, 99, 101];
        proof {
            assert(k@ =~= anonymous_source_key());
        }
        k
    }

    /// The pool's memory limiter.
    pub fn get_memory_limiter(&self) -> (l: &MempoolLimiter)
        ensures
            *l == self.limiter_view(),
    {
        &self.memory_limiter
    }

    /// The memory limiter's figures.
    pub fn get_memory_stats(&self) -> (s: MemoryStats)
        requires
            self.wf(),
        ensures
            s == (MemoryStats {
                current_weight: self.limiter_view().weight_view(),
                max_weight: self.limiter_view().config_view().max_size_bytes,
                transaction_count: self.limiter_view().weights_view().len() as usize,
                average_weight_per_tx: if self.limiter_view().weights_view().len() > 0 {
                    (self.limiter_view().weight_view() / (self.limiter_view().weights_view().len() as usize)) as usize
                } else {
                    0
                },
            }),
    {
        self.memory_limiter.get_stats()
    }

    /// Takes the orphans waiting on the outputs of `tx` out of the orphan
    /// pool, output after output, and returns their transactions to be
    /// offered to the pool again.
    pub fn adopt_waiting_orphans(&mut self, tx: &Transaction) -> (r: Vec<Transaction>)
        requires
            old(self).wf(),
        ensures
            final(self).wf(),
            final(self).orphans_view()
                == after_adopt_all(old(self).orphans_view(), output_points(hash_key_spec(tx@.id), tx@.outputs.len())),
            tx_views(r@) == adopted_all(old(self).orphans_view(), output_points(hash_key_spec(tx@.id), tx@.outputs.len())),
            final(self).entries_view() == old(self).entries_view(),
            final(self).orphan_config_view() == old(self).orphan_config_view(),
            final(self).filter_view() == old(self).filter_view(),
            final(self).limiter_view() == old(self).limiter_view(),
            final(self).conflicts_view() == old(self).conflicts_view(),
            final(self).config_view() == old(self).config_view(),
    {
        let h = hash_key(&tx.id);
        let mut points: Vec<OutPoint> = Vec::new();
        let mut i: usize = 0;
        while i < tx.outputs.len()
            invariant
                i <= tx@.outputs.len(),
                h@ == hash_key_spec(tx@.id),
                key_views(points@) == output_points(h@, i as nat),
            decreases tx@.outputs.len() - i,
        {
            let ghost prev = key_views(points@);
            let idx: u32 = i as u32;
            proof {
                assert(idx == (i as int) as u32);
            }
            points.push(OutPoint::new(copy_bytes(h.as_slice()), idx));
            proof {
                assert(key_views(points@) =~= prev.push((h@, idx)));
                assert(output_points(h@, (i + 1) as nat) =~= output_points(h@, i as nat).push((h@, (i as int) as u32)));
            }
            i = i + 1;
        }
        match self.orphan_manager.process_orphans_for_parents(&points) {
            Ok(res) => res.adopted_txs,
            Err(_) => Vec::new(),
        }
    }

    /// The pool's orphan manager.
    pub fn get_orphan_manager(&self) -> (m: &OrphanManager)
        ensures
            m.state() == self.orphans_view(),
            m.config_view() == self.orphan_config_view(),
    {
        &self.orphan_manager
    }

    /// The orphan pool's counters.
    pub fn get_orphan_stats(&self) -> (r: Result<OrphanStats, String>)
        requires
            self.wf(),
        ensures
            r == Ok::<OrphanStats, String>(OrphanStats {
                total_orphans: self.orphans_view().pool.len() as usize,
                unique_missing_parents: self.orphans_view().index.len() as usize,
                ..self.orphans_view().stats
            }),
    {
        Ok(self.orphan_manager.get_stats())
    }

    /// Takes the orphans older than their time to live as of `now`
    /// (nanoseconds) out of the orphan pool; returns how many left.
    pub fn cleanup_expired_orphans_at(&mut self, now: u64) -> (n: usize)
        requires
            old(self).wf(),
        ensures
            final(self).wf(),
            exists|ks: Seq<Seq<u8>>| #![trigger after_remove_all(old(self).orphans_view(), ks)]
                ks.no_duplicates()
                && ks.to_set() == expired_set(old(self).orphans_view().pool, old(self).orphan_config_view().orphan_ttl_ns, now)
                && final(self).orphans_view() == after_remove_all(old(self).orphans_view(), ks)
                && n == ks.len(),
            final(self).orphan_config_view() == old(self).orphan_config_view(),
            final(self).entries_view() == old(self).entries_view(),
            final(self).filter_view() == old(self).filter_view(),
            final(self).limiter_view() == old(self).limiter_view(),
            final(self).conflicts_view() == old(self).conflicts_view(),
            final(self).config_view() == old(self).config_view(),
    {
        let n = self.orphan_manager.cleanup_expired_at(now);
        proof {
            let s0 = old(self).orphan_manager.state();
            let ks = choose|ks: Seq<Seq<u8>>| #![trigger after_remove_all(s0, ks)]
                ks.no_duplicates()
                && ks.to_set() == expired_set(s0.pool, old(self).orphan_manager.config_view().orphan_ttl_ns, now)
                && self.orphan_manager.state() == after_remove_all(s0, ks)
                && n == ks.len();
            assert(after_remove_all(old(self).orphans_view(), ks) == self.orphans_view());
        }
        n
    }

    /// Takes the orphans older than their time to live out of the orphan
    /// pool, as of the clock's present nanosecond; returns how many left.
    pub fn cleanup_expired_orphans(&mut self) -> (n: usize)
        requires
            old(self).wf(),
        ensures
            final(self).wf(),
            exists|now: u64, ks: Seq<Seq<u8>>| #![trigger expired_set(old(self).orphans_view().pool, old(self).orphan_config_view().orphan_ttl_ns, now), after_remove_all(old(self).orphans_view(), ks)]
                ks.no_duplicates()
                && ks.to_set() == expired_set(old(self).orphans_view().pool, old(self).orphan_config_view().orphan_ttl_ns, now)
                && final(self).orphans_view() == after_remove_all(old(self).orphans_view(), ks)
                && n == ks.len(),
            final(self).orphan_config_view() == old(self).orphan_config_view(),
            final(self).entries_view() == old(self).entries_view(),
    {
        let now = clock_unix_nanos();
        self.cleanup_expired_orphans_at(now)
    }

    /// Checks that every orphan named in the orphan pool's index is held.
    pub fn verify_orphan_consistency(&self) -> (r: Result<(), String>)
        requires
            self.wf(),
        ensures
            r is Ok <==> index_consistent(self.orphans_view()),
            r matches Err(e) ==> e@ == "Orphan child reference mismatch in missing input index"@,
    {
        self.orphan_manager.verify_consistency()
    }

    /// A snapshot of the pool's transactions at `block_height`, each under
    /// the encoding of its identifier.
    pub fn create_snapshot(&self, block_height: u64) -> (s: MempoolSnapshot)
        requires
            self.wf(),
        ensures
            s.wf(),
            s.height() == block_height,
            forall|k: Seq<u8>| #[trigger] s.transaction_map().contains_key(k)
                <==> exists|h: Seq<u8>| self.entries_view().contains_key(h)
                    && hash_key_spec(#[trigger] self.entries_view()[h].transaction.id) == k,
    {
        let entries = self.get_all();
        let s = MempoolSnapshot::new(&entries, block_height);
        proof {
            let ks = choose|ks: Seq<Seq<u8>>| #![trigger entries_at(self.entries_view(), ks)]
                ks.no_duplicates() && ks.to_set() == self.entries_view().dom()
                && entry_views(entries@) == entries_at(self.entries_view(), ks);
            assert(entries@.len() == ks.len()) by {
                assert(entry_views(entries@).len() == entries@.len());
            }
            assert forall|k: Seq<u8>| #[trigger] s.transaction_map().contains_key(k)
                <==> exists|h: Seq<u8>| self.entries_view().contains_key(h)
                    && hash_key_spec(#[trigger] self.entries_view()[h].transaction.id) == k by {
                if s.transaction_map().contains_key(k) {
                    let i = choose|i: int| 0 <= i < entries@.len() && hash_key_spec(#[trigger] entries@[i].transaction.id) == k;
                    assert(entry_views(entries@)[i] == entries@[i]@);
                    assert(entries_at(self.entries_view(), ks)[i] == self.entries_view()[ks[i]]);
                    assert(ks.to_set().contains(ks[i]));
                    assert(hash_key_spec(self.entries_view()[ks[i]].transaction.id) == k);
                }
                if exists|h: Seq<u8>| self.entries_view().contains_key(h)
                    && hash_key_spec(#[trigger] self.entries_view()[h].transaction.id) == k {
                    let h = choose|h: Seq<u8>| self.entries_view().contains_key(h)
                        && hash_key_spec(#[trigger] self.entries_view()[h].transaction.id) == k;
                    assert(ks.to_set().contains(h));
                    let i = ks.index_of(h);
                    assert(entry_views(entries@)[i] == entries@[i]@);
                    assert(entries_at(self.entries_view(), ks)[i] == self.entries_view()[h]);
                    assert(hash_key_spec(entries@[i].transaction.id) == k);
                }
            }
        }
        s
    }

    /// The indexed transactions with fee rate in `[min_fee, max_fee]`, highest first.
    pub fn query_by_fee_range(&mut self, min_fee: u64, max_fee: u64) -> (r: Result<Vec<IndexedTransaction>, String>)
        requires
            old(self).wf(),
        ensures
            final(self).wf(),
            r is Ok,
            indexed_views(r->Ok_0@) == old(self).index_view().dim_view(Dimension::Economic).filter(selector(IndexQuery::FeeRange(min_fee, max_fee))),
            final(self).index_view().hash_view() == old(self).index_view().hash_view(),
            final(self).entries_view() == old(self).entries_view(),
            final(self).orphans_view() == old(self).orphans_view(),
            final(self).limiter_view() == old(self).limiter_view(),
            final(self).config_view() == old(self).config_view(),
    {
        match self.multi_dimensional_index.query_economic_range(min_fee, max_fee) {
            Ok(v) => Ok(v),
            Err(_) => Err(String::from_str("Fee range query error")),
        }
    }

    /// The indexed transactions that arrived in `[start_time, end_time]`, earliest first.
    pub fn query_by_time_range(&mut self, start_time: u64, end_time: u64) -> (r: Result<Vec<IndexedTransaction>, String>)
        requires
            old(self).wf(),
        ensures
            final(self).wf(),
            r is Ok,
            indexed_views(r->Ok_0@) == old(self).index_view().dim_view(Dimension::Temporal).filter(selector(IndexQuery::ArrivalRange(start_time, end_time))),
            final(self).index_view().hash_view() == old(self).index_view().hash_view(),
            final(self).entries_view() == old(self).entries_view(),
            final(self).orphans_view() == old(self).orphans_view(),
            final(self).limiter_view() == old(self).limiter_view(),
            final(self).config_view() == old(self).config_view(),
    {
        match self.multi_dimensional_index.query_temporal_range(start_time, end_time) {
            Ok(v) => Ok(v),
            Err(_) => Err(String::from_str("Time range query error")),
        }
    }

    /// The indexed transactions with at least `min_deps` dependents, most first.
    pub fn query_by_min_dependents(&mut self, min_deps: u32) -> (r: Result<Vec<IndexedTransaction>, String>)
        requires
            old(self).wf(),
        ensures
            final(self).wf(),
            r is Ok,
            indexed_views(r->Ok_0@) == old(self).index_view().dim_view(Dimension::Dependents).filter(selector(IndexQuery::MinDependents(min_deps))),
            final(self).index_view().hash_view() == old(self).index_view().hash_view(),
            final(self).entries_view() == old(self).entries_view(),
            final(self).orphans_view() == old(self).orphans_view(),
            final(self).limiter_view() == old(self).limiter_view(),
            final(self).config_view() == old(self).config_view(),
    {
        match self.multi_dimensional_index.query_structural_min_dependents(min_deps) {
            Ok(v) => Ok(v),
            Err(_) => Err(String::from_str("Dependency query error")),
        }
    }

    /// The `limit` indexed transactions with the highest fee rates.
    pub fn get_top_n_by_fee(&mut self, limit: usize) -> (r: Result<Vec<IndexedTransaction>, String>)
        requires
            old(self).wf(),
        ensures
            final(self).wf(),
            r is Ok,
            indexed_views(r->Ok_0@) == old(self).index_view().dim_view(Dimension::Economic).take(
                if limit < old(self).index_view().dim_view(Dimension::Economic).len() { limit as int } else { old(self).index_view().dim_view(Dimension::Economic).len() as int }),
            final(self).index_view().hash_view() == old(self).index_view().hash_view(),
            final(self).entries_view() == old(self).entries_view(),
            final(self).orphans_view() == old(self).orphans_view(),
            final(self).limiter_view() == old(self).limiter_view(),
            final(self).config_view() == old(self).config_view(),
    {
        match self.multi_dimensional_index.query_economic_top_n(limit) {
            Ok(v) => Ok(v),
            Err(_) => Err(String::from_str("Top N fee query error")),
        }
    }

    /// The indexed transactions that arrived by `timestamp`, earliest first.
    pub fn get_transactions_before_time(&mut self, timestamp: u64) -> (r: Result<Vec<IndexedTransaction>, String>)
        requires
            old(self).wf(),
        ensures
            final(self).wf(),
            r is Ok,
            indexed_views(r->Ok_0@) == old(self).index_view().dim_view(Dimension::Temporal).filter(selector(IndexQuery::ArrivedBy(timestamp))),
            final(self).index_view().hash_view() == old(self).index_view().hash_view(),
            final(self).entries_view() == old(self).entries_view(),
            final(self).orphans_view() == old(self).orphans_view(),
            final(self).limiter_view() == old(self).limiter_view(),
            final(self).config_view() == old(self).config_view(),
    {
        match self.multi_dimensional_index.query_temporal_before(timestamp) {
            Ok(v) => Ok(v),
            Err(_) => Err(String::from_str("Before time query error")),
        }
    }

    /// The `limit` indexed transactions with the most dependents.
    pub fn get_dependency_hubs(&mut self, limit: usize) -> (r: Result<Vec<IndexedTransaction>, String>)
        requires
            old(self).wf(),
        ensures
            final(self).wf(),
            r is Ok,
            indexed_views(r->Ok_0@) == old(self).index_view().dim_view(Dimension::Dependents).take(
                if limit < old(self).index_view().dim_view(Dimension::Dependents).len() { limit as int } else { old(self).index_view().dim_view(Dimension::Dependents).len() as int }),
            final(self).index_view().hash_view() == old(self).index_view().hash_view(),
            final(self).entries_view() == old(self).entries_view(),
            final(self).orphans_view() == old(self).orphans_view(),
            final(self).limiter_view() == old(self).limiter_view(),
            final(self).config_view() == old(self).config_view(),
    {
        match self.multi_dimensional_index.query_structural_top_hubs(limit) {
            Ok(v) => Ok(v),
            Err(_) => Err(String::from_str("Hub query error")),
        }
    }

    /// The indexed transactions within every bound, highest fee rate first.
    pub fn query_combined(&mut self, min_fee: u64, max_fee: u64, start_time: u64, end_time: u64, min_dependencies: u32)
        -> (r: Result<Vec<IndexedTransaction>, String>)
        requires
            old(self).wf(),
        ensures
            final(self).wf(),
            r is Ok,
            indexed_views(r->Ok_0@) == old(self).index_view().dim_view(Dimension::Economic).filter(
                combined_selector(old(self).index_view().hash_view(), min_fee, max_fee, start_time, end_time, min_dependencies)),
            final(self).index_view().hash_view() == old(self).index_view().hash_view(),
            final(self).entries_view() == old(self).entries_view(),
            final(self).orphans_view() == old(self).orphans_view(),
            final(self).limiter_view() == old(self).limiter_view(),
            final(self).config_view() == old(self).config_view(),
    {
        match self.multi_dimensional_index.query_combined(min_fee, max_fee, start_time, end_time, min_dependencies) {
            Ok(v) => Ok(v),
            Err(_) => Err(String::from_str("Combined query error")),
        }
    }

    /// The pool's deterministic ordering engine.
    pub fn get_deterministic_ordering(&self) -> (o: &DeterministicOrderingEngine)
        ensures
            *o == self.ordering_view(),
    {
        &self.deterministic_ordering
    }

    /// Up to `limit` (at least one) transactions of the deterministic
    /// ordering, highest priority first, each with its fee rate.
    pub fn get_ordered_transactions_deterministic(&self, limit: usize) -> (r: Result<Vec<(Vec<u8>, u64)>, String>)
        requires
            self.wf(),
        ensures
            r is Ok,
            ({
                let all = ordered_views(self.ordering_view().contents());
                let n = yield_count(all.len() as int, limit);
                &&& r->Ok_0@.len() == n
                &&& forall|i: int| 0 <= i < n ==> (#[trigger] r->Ok_0@[i]).0@ == all[i].tx_hash && r->Ok_0@[i].1 == all[i].fee_rate
            }),
    {
        let ordered = match self.deterministic_ordering.get_ordered_transactions(limit) {
            Ok(v) => v,
            Err(e) => {
                return Err(e);
            },
        };
        let mut r: Vec<(Vec<u8>, u64)> = Vec::new();
        let mut i: usize = 0;
        while i < ordered.len()
            invariant
                i <= ordered@.len(),
                r@.len() == i,
                forall|j: int| 0 <= j < i ==> (#[trigger] r@[j]).0@ == ordered@[j]@.tx_hash && r@[j].1 == ordered@[j]@.fee_rate,
            decreases ordered@.len() - i,
        {
            r.push((copy_bytes(ordered[i].tx_hash.as_slice()), ordered[i].fee_rate));
            i = i + 1;
        }
        proof {
            let all = ordered_views(self.ordering_view().contents());
            let n = yield_count(all.len() as int, limit);
            assert(prioritized_views(ordered@).len() == ordered@.len());
            assert forall|j: int| 0 <= j < n implies (#[trigger] r@[j]).0@ == all[j].tx_hash && r@[j].1 == all[j].fee_rate by {
                assert(prioritized_views(ordered@)[j] == ordered@[j]@);
                assert(all.take(n)[j] == all[j]);
            }
        }
        Ok(r)
    }

    /// The pool's multi-dimensional index.
    pub fn get_multi_dimensional_index(&self) -> (x: &MultiDimensionalIndex)
        ensures
            *x == self.index_view(),
    {
        &self.multi_dimensional_index
    }

    /// Number of entries.
    pub fn size(&self) -> (n: usize)
        requires
            self.wf(),
        ensures
            n == self.entries_view().len(),
    {
        entries_len(&self.by_hash)
    }

    /// Whether an entry is held under `tx_hash`.
    pub fn contains(&self, tx_hash: &[u8]) -> (b: bool)
        ensures
            b == self.entries_view().contains_key(tx_hash@),
    {
        entries_contains(&self.by_hash, tx_hash)
    }

    /// A copy of the entry under `tx_hash`, if any.
    pub fn get(&self, tx_hash: &[u8]) -> (r: Option<PoolEntry>)
        ensures
            match r {
                Some(e) => self.entries_view().contains_key(tx_hash@) && e@ == self.entries_view()[tx_hash@],
                None => !self.entries_view().contains_key(tx_hash@),
            },
    {
        entries_get(&self.by_hash, tx_hash)
    }

    /// Takes the entry under `tx_hash` out of the pool and its weight out of
    /// the memory limiter; returns it, or `None` when there is none.
    pub fn remove(&mut self, tx_hash: &[u8]) -> (r: Option<PoolEntry>)
        requires
            old(self).wf(),
        ensures
            final(self).wf(),
            final(self).entries_view() == old(self).entries_view().remove(tx_hash@),
            match r {
                Some(e) => old(self).entries_view().contains_key(tx_hash@) && e@ == old(self).entries_view()[tx_hash@]
                    && removed_from(*old(self), tx_hash@, *final(self)),
                None => !old(self).entries_view().contains_key(tx_hash@)
                    && final(self).limiter_view() == old(self).limiter_view()
                    && final(self).index_view() == old(self).index_view(),
            },
            r is Some ==> final(self).index_view().hash_view() == old(self).index_view().hash_view().remove(tx_hash@),
            final(self).orphans_view() == old(self).orphans_view(),
            final(self).orphan_config_view() == old(self).orphan_config_view(),
            final(self).filter_view() == old(self).filter_view(),
            final(self).conflicts_view() == old(self).conflicts_view(),
            final(self).config_view() == old(self).config_view(),
    {
        let r = entries_shift_remove(&mut self.by_hash, tx_hash);
        if r.is_some() {
            let ghost l0 = self.memory_limiter;
            let ghost x0 = self.multi_dimensional_index.hash_view();
            let _ = self.multi_dimensional_index.remove(&copy_bytes(tx_hash));
            proof {
                if !x0.contains_key(tx_hash@) {
                    assert(x0.remove(tx_hash@) =~= x0);
                }
            }
            let _ = self.deterministic_ordering.remove_transaction(tx_hash);
            let _ = self.memory_limiter.remove_tx_weight(tx_hash);
            proof {
                if !l0.weights_view().contains_key(tx_hash@) {
                    assert(l0.weights_view().remove(tx_hash@) =~= l0.weights_view());
                }
                assert(self.limiter_view().weights_view() == l0.weights_view().remove(tx_hash@));
            }
        }
        r
    }

    /// Takes every listed hash out of the entries.
    fn drop_entries(&mut self, hashes: &Vec<Vec<u8>>)
        requires
            old(self).wf(),
        ensures
            final(self).wf(),
            final(self).entries_view() == old(self).entries_view().remove_keys(key_views(hashes@).to_set()),
            final(self).orphans_view() == old(self).orphans_view(),
            final(self).orphan_config_view() == old(self).orphan_config_view(),
            final(self).filter_view() == old(self).filter_view(),
            final(self).conflicts_view() == old(self).conflicts_view(),
            final(self).limiter_view() == old(self).limiter_view(),
            final(self).config_view() == old(self).config_view(),
    {
        let mut i: usize = 0;
        while i < hashes.len()
            invariant
                self.wf(),
                i <= hashes@.len(),
                self.entries_view() == old(self).entries_view().remove_keys(key_views(hashes@).take(i as int).to_set()),
                self.orphans_view() == old(self).orphans_view(),
                self.orphan_config_view() == old(self).orphan_config_view(),
                self.filter_view() == old(self).filter_view(),
                self.conflicts_view() == old(self).conflicts_view(),
                self.limiter_view() == old(self).limiter_view(),
                self.config_view() == old(self).config_view(),
            decreases hashes@.len() - i,
        {
            let ghost x = hashes@[i as int]@;
            let _ = entries_shift_remove(&mut self.by_hash, hashes[i].as_slice());
            proof {
                assert(key_views(hashes@).take(i + 1) =~= key_views(hashes@).take(i as int).push(x));
                key_views(hashes@).take(i as int).lemma_push_to_set_commute(x);
                assert(self.entries_view() =~= old(self).entries_view().remove_keys(key_views(hashes@).take(i + 1).to_set()));
            }
            i = i + 1;
        }
        proof {
            assert(key_views(hashes@).take(hashes@.len() as int) =~= key_views(hashes@));
        }
    }

    /// Removes every listed hash that is held, with its weight, and, for
    /// each, its dependents in the conflict graph.
    fn displace(&mut self, hashes: &Vec<Vec<u8>>)
        requires
            old(self).wf(),
        ensures
            final(self).wf(),
            final(self).entries_view() == old(self).entries_view().remove_keys(key_views(hashes@).to_set()),
            ({
                let gone = key_views(hashes@).to_set().filter(|k: Seq<u8>| old(self).entries_view().contains_key(k));
                let ws = old(self).limiter_view().weights_view();
                &&& final(self).limiter_view().weights_view() == ws.remove_keys(gone)
                &&& final(self).limiter_view().weight_view() == old(self).limiter_view().weight_view()
                    - (map_total(ws) - map_total(ws.remove_keys(gone)))
            }),
            final(self).limiter_view().config_view() == old(self).limiter_view().config_view(),
            final(self).orphans_view() == old(self).orphans_view(),
            final(self).orphan_config_view() == old(self).orphan_config_view(),
            final(self).filter_view() == old(self).filter_view(),
            final(self).config_view() == old(self).config_view(),
    {
        let ghost e0 = old(self).entries_view();
        let ghost ws = old(self).limiter_view().weights_view();
        let ghost wv = old(self).limiter_view().weight_view();
        let ghost kv = key_views(hashes@);
        proof {
            old(self).memory_limiter.lemma_weights_finite();
            assert(kv.take(0).to_set().filter(|k: Seq<u8>| e0.contains_key(k)) =~= Set::<Seq<u8>>::empty());
            assert(ws.remove_keys(Set::<Seq<u8>>::empty()) =~= ws);
        }
        let mut i: usize = 0;
        while i < hashes.len()
            invariant
                self.wf(),
                i <= hashes@.len(),
                kv == key_views(hashes@),
                e0 == old(self).entries_view(),
                ws == old(self).limiter_view().weights_view(),
                wv == old(self).limiter_view().weight_view(),
                ws.dom().finite(),
                self.entries_view() == e0.remove_keys(kv.take(i as int).to_set()),
                self.limiter_view().weights_view() == ws.remove_keys(kv.take(i as int).to_set().filter(|k: Seq<u8>| e0.contains_key(k))),
                self.limiter_view().weight_view() == wv
                    - (map_total(ws) - map_total(ws.remove_keys(kv.take(i as int).to_set().filter(|k: Seq<u8>| e0.contains_key(k))))),
                self.limiter_view().config_view() == old(self).limiter_view().config_view(),
                self.orphans_view() == old(self).orphans_view(),
                self.orphan_config_view() == old(self).orphan_config_view(),
                self.filter_view() == old(self).filter_view(),
                self.config_view() == old(self).config_view(),
            decreases hashes@.len() - i,
        {
            let ghost x = hashes@[i as int]@;
            let ghost g0 = kv.take(i as int).to_set().filter(|k: Seq<u8>| e0.contains_key(k));
            let ghost cur = self.limiter_view().weights_view();
            proof {
                assert(kv[i as int] == x);
                assert(kv.take(i + 1) =~= kv.take(i as int).push(x));
                kv.take(i as int).lemma_push_to_set_commute(x);
            }
            let removed = self.remove(hashes[i].as_slice());
            proof {
                let g1 = kv.take(i + 1).to_set().filter(|k: Seq<u8>| e0.contains_key(k));
                if removed.is_some() {
                    assert(e0.contains_key(x) && !kv.take(i as int).to_set().contains(x));
                    assert(g1 =~= g0.insert(x));
                    assert(ws.remove_keys(g1) =~= cur.remove(x));
                    assert(cur.dom().finite()) by {
                        assert(cur.dom() =~= ws.dom().difference(g0));
                    }
                    if cur.contains_key(x) {
                        lemma_map_total_remove(cur, x);
                    } else {
                        assert(cur.remove(x) =~= cur);
                    }
                } else {
                    assert(g1 =~= g0) by {
                        if e0.contains_key(x) {
                            assert(kv.take(i as int).to_set().contains(x));
                        }
                    }
                }
            }
            if removed.is_some() {
                let _ = self.conflicts.remove_transaction_cascade(hashes[i].as_slice());
            }
            proof {
                assert(self.entries_view() =~= e0.remove_keys(kv.take(i + 1).to_set()));
            }
            i = i + 1;
        }
        proof {
            assert(kv.take(kv.len() as int) =~= kv);
        }
    }

    /// The effective fee rate of the entry under `tx_hash` as of `now`, zero
    /// when there is none.
    pub fn get_effective_fee_rate_at(&self, tx_hash: &[u8], now: u64) -> (r: u64)
        ensures
            r == rate_in(self.entries_view(), tx_hash@, now),
    {
        match self.get(tx_hash) {
            Some(e) => boost_fee_rate(e.fee_rate(), e.arrival_time, now),
            None => 0,
        }
    }

    /// The effective fee rate of the entry under `tx_hash` as of the clock's
    /// present second, zero when there is none.
    pub fn get_effective_fee_rate(&self, tx_hash: &[u8]) -> (r: u64)
        ensures
            exists|now: u64| r == rate_in(self.entries_view(), tx_hash@, now),
    {
        let now = clock_unix_secs();
        self.get_effective_fee_rate_at(tx_hash, now)
    }

    /// Each listed hash with its effective fee rate in the pool as of `now`.
    fn rated(&self, hashes: &Vec<Vec<u8>>, now: u64) -> (r: Vec<(Vec<u8>, u64)>)
        ensures
            r@.len() == hashes@.len(),
            forall|i: int| 0 <= i < r@.len() ==> (#[trigger] r@[i]).0@ == hashes@[i]@
                && r@[i].1 == rate_in(self.entries_view(), hashes@[i]@, now),
    {
        let mut r: Vec<(Vec<u8>, u64)> = Vec::new();
        let mut i: usize = 0;
        while i < hashes.len()
            invariant
                i <= hashes@.len(),
                r@.len() == i,
                forall|j: int| 0 <= j < i ==> (#[trigger] r@[j]).0@ == hashes@[j]@
                    && r@[j].1 == rate_in(self.entries_view(), hashes@[j]@, now),
            decreases hashes@.len() - i,
        {
            let rate = self.get_effective_fee_rate_at(hashes[i].as_slice(), now);
            r.push((copy_bytes(hashes[i].as_slice()), rate));
            i = i + 1;
        }
        r
    }

    /// The outpoints of the inputs at the listed positions.
    fn outpoints_at(tx: &Transaction, idx: &Vec<usize>) -> (r: Vec<OutPoint>)
        ensures
            key_views(r@) == missing_outpoints(tx@, idx@),
    {
        let mut r: Vec<OutPoint> = Vec::new();
        let mut i: usize = 0;
        while i < idx.len()
            invariant
                i <= idx@.len(),
                key_views(r@) == missing_outpoints(tx@, idx@.take(i as int)),
            decreases idx@.len() - i,
        {
            let ghost prev = key_views(r@);
            proof {
                assert(idx@.take(i + 1).drop_last() =~= idx@.take(i as int));
                assert(idx@.take(i + 1).last() == idx@[i as int]);
            }
            let k = idx[i];
            if k < tx.inputs.len() {
                let input = &tx.inputs[k];
                r.push(OutPoint::new(hash_key(&input.prev_tx), input.index));
                proof {
                    assert(tx@.inputs[k as int] == input@);
                    assert(key_views(r@) =~= prev.push((hash_key_spec(input.prev_tx), input.index)));
                }
            }
            i = i + 1;
        }
        proof {
            assert(idx@.take(idx@.len() as int) =~= idx@);
        }
        r
    }

    /// Admits `tx` at time `now` (seconds; `now_ms` and `now_ns` are the
    /// same moment in milliseconds and nanoseconds). In order: the fee
    /// screens (the admission controller's verdict `resources_admit` with its
    /// `multiplier`, the density, the fee filter brought up to date for the
    /// pool's size), the source's allowance `within_rate_limit`, the pool's
    /// size limit, room for `weight` under the memory limit (evicting along
    /// `eviction_order`), the transactions it double-spends (evicted when it
    /// outranks the strongest of them by effective fee rate, else it is
    /// refused), and the validator's `verdict`, which sends it to the main
    /// pool (where it is also indexed and put in the deterministic order) or
    /// to the orphan pool. `admission_result` states the outcome.
    pub fn add_transaction_at(
        &mut self,
        tx: Transaction,
        total_fee: u64,
        size_bytes: usize,
        resources_admit: bool,
        multiplier: u64,
        within_rate_limit: bool,
        weight: TransactionWeight,
        eviction_order: &Vec<Vec<u8>>,
        verdict: Option<ValidationVerdict>,
        now: u64,
        now_ms: u64,
        now_ns: u64,
    ) -> (r: Result<Placement, AdmissionError>)
        requires
            old(self).wf(),
            resources_admit ==> fee_rate_spec(total_fee, size_bytes) * multiplier <= u64::MAX,
        ensures
            final(self).wf(),
            final(self).config_view() == old(self).config_view(),
            ({
                let n = old(self).entries_view().len() as usize;
                let screen = screen_outcome(old(self).filter_view(), total_fee, size_bytes, resources_admit, multiplier, n,
                    old(self).config_view().max_pool_size, now);
                (screen is Err || !within_rate_limit || n >= old(self).config_view().max_pool_size)
                    ==> final(self).entries_view() == old(self).entries_view()
                    && final(self).orphans_view() == old(self).orphans_view()
            }),
            ({
                let h = hash_key_spec(tx@.id);
                let e1 = old(self).entries_view().remove_keys(
                    room_evicted(old(self).limiter_view(), weight.total_weight, key_views(eviction_order@)));
                let rivals = claimants_of(old(self).conflicts_view().utxo_view(), tx, tx.inputs@.len() as int, h);
                match admission_result(*old(self), tx, total_fee, size_bytes, resources_admit, multiplier, within_rate_limit,
                    weight, key_views(eviction_order@), verdict, now) {
                    Err(e) => r == Err::<Placement, AdmissionError>(e),
                    Ok(true) => {
                        &&& r matches Ok(Placement::MainPool)
                        &&& final(self).entries_view() == e1.remove_keys(rivals).insert(h, PoolEntryView {
                            transaction: tx@,
                            status: TransactionStatus::Pending,
                            arrival_time: now,
                            size_bytes,
                            total_fee,
                        })
                        &&& final(self).orphans_view() == old(self).orphans_view()
                        &&& final(self).index_view().hash_view()[h] == (IndexedTxView {
                            tx_hash: h,
                            fee_rate: fee_rate_spec(total_fee, size_bytes),
                            arrival_time: now,
                            dependency_count: 0,
                            size_bytes,
                            total_fee,
                        })
                    },
                    Ok(false) => {
                        &&& r matches Ok(Placement::OrphanPool(m))
                        &&& verdict matches Some(ValidationVerdict::MissingInputs(v))
                        &&& r->Ok_0->OrphanPool_0@ == verdict->Some_0->MissingInputs_0@
                        &&& final(self).entries_view() == e1.remove_keys(rivals)
                        &&& joined(old(self).orphans_view(), old(self).orphan_config_view(), h,
                            joined_entry(tx@, now_ns, missing_outpoints(tx@, verdict->Some_0->MissingInputs_0@), size_bytes,
                                total_fee), now_ns, final(self).orphans_view())
                    },
                }
            }),
    {
        let ghost s0 = *self;
        let ghost vg = verdict;
        let ghost ar = admission_result(*self, tx, total_fee, size_bytes, resources_admit, multiplier, within_rate_limit,
            weight, key_views(eviction_order@), verdict, now);
        let ghost l0 = self.limiter_view();
        let ghost order = key_views(eviction_order@);
        let h = hash_key(&tx.id);
        let n = entries_len(&self.by_hash);
        let rate = match screen_fees(&mut self.fee_filter, total_fee, size_bytes, resources_admit, multiplier, n,
            self.config.max_pool_size, now) {
            Ok(rate) => rate,
            Err(e) => {
                proof {
                    assert(self.entries_view() == s0.entries_view());
                    assert(ar == Err::<bool, AdmissionError>(e));
                }
                return Err(e);
            },
        };
        match check_capacity(within_rate_limit, n, self.config.max_pool_size) {
            Ok(()) => {},
            Err(e) => {
                proof {
                    assert(ar == Err::<bool, AdmissionError>(e));
                }
                return Err(e);
            },
        }
        let w = weight.total_weight;
        let current = self.memory_limiter.current_weight();
        if current.checked_add(w).is_none() {
            proof {
                assert(ar == Err::<bool, AdmissionError>(AdmissionError::CannotFit { needed: w as u64, freed: 0 }));
            }
            return Err(AdmissionError::CannotFit { needed: w as u64, freed: 0 });
        }
        let over = self.memory_limiter.would_exceed_limit(w);
        let made = self.memory_limiter.make_space_for(w, eviction_order);
        let ghost room = room_made(l0, w, order);
        if over && made.freed_weight < w {
            proof {
                assert(made.freed_weight == room.freed);
                assert(ar == Err::<bool, AdmissionError>(
                    AdmissionError::CannotFit { needed: w as u64, freed: made.freed_weight as u64 }));
            }
            return Err(AdmissionError::CannotFit { needed: w as u64, freed: made.freed_weight as u64 });
        }
        self.drop_entries(&made.evicted_hashes);
        proof {
            assert(key_views(made.evicted_hashes@).to_set() =~= room_evicted(l0, w, order)) by {
                if !over {
                    assert(made.evicted_hashes@.len() == 0);
                    assert(key_views(made.evicted_hashes@) =~= Seq::<Seq<u8>>::empty());
                }
            }
        }
        let ghost e1 = s0.entries_view().remove_keys(room_evicted(l0, w, order));
        let ghost ws1 = self.limiter_view().weights_view();
        let ghost w1 = self.limiter_view().weight_view();
        proof {
            assert(self.entries_view() == e1);
            assert(ws1 == (if over { room.weights } else { l0.weights_view() }));
            assert(w1 == (if over { l0.weight_view() - room.freed } else { l0.weight_view() as int }));
            self.memory_limiter.lemma_weights_finite();
        }
        let rivals = match self.conflicts.register_transaction(&tx, copy_bytes(h.as_slice()), total_fee, now_ms) {
            Ok(v) => v,
            Err(_) => Vec::new(),
        };
        let ghost rv = key_views(rivals@).to_set();
        let ghost gone = rv.filter(|k: Seq<u8>| e1.contains_key(k));
        proof {
            assert(rv == claimants_of(s0.conflicts_view().utxo_view(), tx, tx.inputs@.len() as int, h@));
        }
        if rivals.len() > 0 {
            let rated = self.rated(&rivals, now);
            let ghost rs = rated@.map_values(|c: (Vec<u8>, u64)| (c.0@, c.1));
            proof {
                assert forall|i: int| 0 <= i < rs.len() implies (#[trigger] rs[i]).0 == key_views(rivals@)[i]
                    && rs[i].1 == rate_in(e1, key_views(rivals@)[i], now) by {
                    assert(rated@[i].0@ == rivals@[i]@);
                }
                lemma_rivals_outranked(h@, rate, key_views(rivals@), rs, e1, now);
            }
            let evict = resolve_spend_conflicts(h.as_slice(), rate, true, &rated);
            match evict {
                Err(e) => {
                    proof {
                        assert(rs == rated@.map_values(|c: (Vec<u8>, u64)| (c.0@, c.1)));
                        assert(!beats(h@, rate, strongest(rs).0, strongest(rs).1));
                        let k = choose|k: Seq<u8>| #[trigger] rv.contains(k) && !beats(h@, rate, k, rate_in(e1, k, now));
                        assert(rv.contains(k) && !beats(h@, rate, k, rate_in(e1, k, now)));
                        assert(e == AdmissionError::OutrankedByConflict);
                        assert(screen_outcome(s0.filter_view(), total_fee, size_bytes, resources_admit, multiplier,
                            s0.entries_view().len() as usize, s0.config_view().max_pool_size, now) is Ok);
                        assert(within_rate_limit);
                        assert((s0.entries_view().len() as usize) < s0.config_view().max_pool_size);
                        assert(l0.weight_view() + w <= usize::MAX);
                        assert(!(over_limit(l0, w) && room.freed < w));
                        assert(rate == fee_rate_spec(total_fee, size_bytes));
                        assert(h@ == hash_key_spec(tx@.id));
                        assert(ar == Err::<bool, AdmissionError>(e));
                    }
                    return Err(e);
                },
                Ok(_) => {},
            }
            self.displace(&rivals);
            proof {
                assert(gone =~= key_views(rivals@).to_set().filter(|k: Seq<u8>| e1.contains_key(k)));
            }
        } else {
            proof {
                assert(key_views(rivals@) =~= Seq::<Seq<u8>>::empty());
                assert(rv =~= Set::<Seq<u8>>::empty());
                assert(gone =~= Set::<Seq<u8>>::empty());
                assert(ws1.remove_keys(gone) =~= ws1);
            }
        }
        proof {
            assert(forall|k: Seq<u8>| #[trigger] rv.contains(k) ==> beats(h@, rate, k, rate_in(e1, k, now)));
            assert(self.entries_view() =~= e1.remove_keys(rv));
            assert(self.limiter_view().weight_view() == w1 - (map_total(ws1) - map_total(ws1.remove_keys(gone))));
        }
        let missing = match &verdict {
            Some(ValidationVerdict::MissingInputs(m)) => Self::outpoints_at(&tx, m),
            _ => Vec::new(),
        };
        let placement = match place_after_validation(verdict) {
            Ok(p) => p,
            Err(e) => {
                proof {
                    assert(ar == Err::<bool, AdmissionError>(e));
                }
                return Err(e);
            },
        };
        match placement {
            Placement::MainPool => {
                let cw = self.memory_limiter.current_weight();
                if cw.checked_add(w).is_none() {
                    proof {
                        assert(ar == Err::<bool, AdmissionError>(AdmissionError::MemoryLimitExceeded));
                    }
                    return Err(AdmissionError::MemoryLimitExceeded);
                }
                if self.memory_limiter.would_exceed_limit(w) {
                    proof {
                        assert(ar == Err::<bool, AdmissionError>(AdmissionError::MemoryLimitExceeded));
                    }
                    return Err(AdmissionError::MemoryLimitExceeded);
                }
                let _ = self.multi_dimensional_index.insert(
                    IndexedTransaction::new(copy_bytes(h.as_slice()), rate, now, 0, size_bytes, total_fee));
                match self.deterministic_ordering.add_transaction(copy_bytes(h.as_slice()), rate, now, size_bytes, total_fee) {
                    Ok(()) => {},
                    Err(_) => {
                        proof {
                            assert(ar == Err::<bool, AdmissionError>(AdmissionError::OrderingRejected));
                        }
                        return Err(AdmissionError::OrderingRejected);
                    },
                }
                let _ = self.memory_limiter.add_tx_weight(copy_bytes(h.as_slice()), weight);
                entries_insert(&mut self.by_hash, h, PoolEntry::new_at(tx, total_fee, size_bytes, now));
                proof {
                    assert(self.entries_view().dom().finite());
                    assert(ar == Ok::<bool, AdmissionError>(true));
                }
                Ok(Placement::MainPool)
            },
            Placement::OrphanPool(m) => {
                proof {
                    assert(self.orphans_view() == s0.orphans_view());
                    assert(self.orphan_config_view() == s0.orphan_config_view());
                }
                match self.orphan_manager.add_orphan_at(h, tx, missing, size_bytes, total_fee, now_ns, now_ns) {
                    Ok(()) => {
                        proof {
                            assert(ar == Ok::<bool, AdmissionError>(false));
                        }
                        Ok(Placement::OrphanPool(m))
                    },
                    Err(_) => {
                        proof {
                            assert(ar == Err::<bool, AdmissionError>(AdmissionError::OrphanPoolFull));
                        }
                        Err(AdmissionError::OrphanPoolFull)
                    },
                }
            },
        }
    }
}


impl TransactionPool {
    /// Copies of the entries whose status is `status` (every entry when
    /// `None`), each once.
    fn collect(&self, status: Option<TransactionStatus>) -> (r: Vec<PoolEntry>)
        requires
            self.wf(),
        ensures
            exists|ks: Seq<Seq<u8>>| #![trigger entries_at(self.entries_view(), ks)]
                ks.no_duplicates()
                && ks.to_set() == self.entries_view().dom().filter(|k: Seq<u8>| status is None
                    || self.entries_view()[k].status == status->0)
                && entry_views(r@) == entries_at(self.entries_view(), ks),
    {
        let ghost m = self.entries_view();
        let ghost pick = |k: Seq<u8>| status is None || m[k].status == status->0;
        let keys = entries_keys(&self.by_hash);
        let ghost kv = key_views(keys@);
        let mut r: Vec<PoolEntry> = Vec::new();
        let ghost mut ks: Seq<Seq<u8>> = Seq::empty();
        let mut i: usize = 0;
        while i < keys.len()
            invariant
                m == self.entries_view(),
                pick == (|k: Seq<u8>| status is None || m[k].status == status->0),
                kv == key_views(keys@),
                kv.no_duplicates(),
                kv.to_set() == m.dom(),
                i <= kv.len(),
                ks == kv.take(i as int).filter(pick),
                entry_views(r@) == entries_at(m, ks),
            decreases kv.len() - i,
        {
            proof {
                assert(kv.take(i + 1) =~= kv.take(i as int).push(kv[i as int]));
                kv.take(i as int).lemma_filter_push(kv[i as int], pick);
                assert(kv.to_set().contains(kv[i as int]));
            }
            let e = match entries_get(&self.by_hash, keys[i].as_slice()) {
                Some(e) => e,
                None => {
                    proof {
                        assert(keys@[i as int]@ == kv[i as int]);
                        assert(false);
                    }
                    return r;
                },
            };
            proof {
                assert(keys@[i as int]@ == kv[i as int]);
            }
            let keep = match status {
                None => true,
                Some(st) => e.status == st,
            };
            if keep {
                let ghost r0 = r@;
                r.push(e);
                proof {
                    let k = kv[i as int];
                    ks = ks.push(k);
                    assert(entry_views(r@) =~= entry_views(r0).push(m[k]));
                    assert(entries_at(m, ks) =~= entries_at(m, ks.drop_last()).push(m[k]));
                    assert(ks.drop_last() =~= kv.take(i as int).filter(pick));
                }
            }
            i = i + 1;
        }
        proof {
            assert(kv.take(kv.len() as int) =~= kv);
            lemma_filter_exact(kv, pick);
            assert(ks.to_set() =~= m.dom().filter(pick));
        }
        r
    }

    /// Copies of all entries, each once.
    pub fn get_all(&self) -> (r: Vec<PoolEntry>)
        requires
            self.wf(),
        ensures
            exists|ks: Seq<Seq<u8>>| #![trigger entries_at(self.entries_view(), ks)]
                ks.no_duplicates() && ks.to_set() == self.entries_view().dom()
                && entry_views(r@) == entries_at(self.entries_view(), ks),
    {
        let r = self.collect(None);
        proof {
            let ks = choose|ks: Seq<Seq<u8>>| #![trigger entries_at(self.entries_view(), ks)]
                ks.no_duplicates()
                && ks.to_set() == self.entries_view().dom().filter(|k: Seq<u8>| None::<TransactionStatus> is None
                    || self.entries_view()[k].status == None::<TransactionStatus>->0)
                && entry_views(r@) == entries_at(self.entries_view(), ks);
            assert(ks.to_set() =~= self.entries_view().dom());
        }
        r
    }

    /// Copies of the entries with status `status`, each once.
    pub fn get_by_status(&self, status: TransactionStatus) -> (r: Vec<PoolEntry>)
        requires
            self.wf(),
        ensures
            exists|ks: Seq<Seq<u8>>| #![trigger entries_at(self.entries_view(), ks)]
                ks.no_duplicates()
                && ks.to_set() == self.entries_view().dom().filter(|k: Seq<u8>| self.entries_view()[k].status == status)
                && entry_views(r@) == entries_at(self.entries_view(), ks),
    {
        let r = self.collect(Some(status));
        proof {
            let ks = choose|ks: Seq<Seq<u8>>| #![trigger entries_at(self.entries_view(), ks)]
                ks.no_duplicates()
                && ks.to_set() == self.entries_view().dom().filter(|k: Seq<u8>| Some(status) is None
                    || self.entries_view()[k].status == Some(status)->0)
                && entry_views(r@) == entries_at(self.entries_view(), ks);
            assert(ks.to_set() =~= self.entries_view().dom().filter(|k: Seq<u8>| self.entries_view()[k].status == status));
        }
        r
    }

    /// Copies of the orphan entries.
    pub fn get_orphans(&self) -> (r: Vec<PoolEntry>)
        requires
            self.wf(),
        ensures
            exists|ks: Seq<Seq<u8>>| #![trigger entries_at(self.entries_view(), ks)]
                ks.no_duplicates()
                && ks.to_set() == self.entries_view().dom().filter(|k: Seq<u8>| self.entries_view()[k].status == TransactionStatus::InOrphanPool)
                && entry_views(r@) == entries_at(self.entries_view(), ks),
    {
        self.get_by_status(TransactionStatus::InOrphanPool)
    }

    /// Copies of the validated entries, ready for a block.
    pub fn get_validated(&self) -> (r: Vec<PoolEntry>)
        requires
            self.wf(),
        ensures
            exists|ks: Seq<Seq<u8>>| #![trigger entries_at(self.entries_view(), ks)]
                ks.no_duplicates()
                && ks.to_set() == self.entries_view().dom().filter(|k: Seq<u8>| self.entries_view()[k].status == TransactionStatus::Validated)
                && entry_views(r@) == entries_at(self.entries_view(), ks),
    {
        self.get_by_status(TransactionStatus::Validated)
    }

    /// Removes the entries expired at time `now`; returns how many.
    pub fn cleanup_expired_at(&mut self, now: u64) -> (n: usize)
        requires
            old(self).wf(),
        ensures
            final(self).wf(),
            final(self).entries_view() == old(self).entries_view().remove_keys(
                old(self).entries_view().dom().filter(|k: Seq<u8>| entry_expired(old(self).entries_view()[k], now, old(self).config_view()))),
            n == old(self).entries_view().dom().filter(|k: Seq<u8>| entry_expired(old(self).entries_view()[k], now, old(self).config_view())).len(),
            final(self).orphans_view() == old(self).orphans_view(),
            final(self).config_view() == old(self).config_view(),
    {
        let ghost m = self.entries_view();
        let ghost cfg = self.config;
        let ghost dead = |k: Seq<u8>| entry_expired(m[k], now, cfg);
        let keys = entries_keys(&self.by_hash);
        let ghost kv = key_views(keys@);
        let mut n: usize = 0;
        let mut i: usize = 0;
        while i < keys.len()
            invariant
                self.wf(),
                cfg == self.config,
                dead == (|k: Seq<u8>| entry_expired(m[k], now, cfg)),
                kv == key_views(keys@),
                kv.no_duplicates(),
                kv.to_set() == m.dom(),
                i <= kv.len(),
                self.entries_view() == m.remove_keys(kv.take(i as int).filter(dead).to_set()),
                n == kv.take(i as int).filter(dead).len(),
                self.orphans_view() == old(self).orphans_view(),
                m == old(self).entries_view(),
            decreases kv.len() - i,
        {
            let ghost k = kv[i as int];
            proof {
                assert(kv.take(i + 1) =~= kv.take(i as int).push(k));
                kv.take(i as int).lemma_filter_push(k, dead);
                assert(kv.to_set().contains(k));
                assert(keys@[i as int]@ == k);
                assert(!kv.take(i as int).contains(k)) by {
                    if kv.take(i as int).contains(k) {
                        let q = kv.take(i as int).index_of(k);
                        assert(kv[q] == k);
                    }
                }
                if kv.take(i as int).filter(dead).contains(k) {
                    let q = kv.take(i as int).filter(dead).index_of(k);
                    lemma_filter_member(kv.take(i as int), dead, q);
                }
                assert(!kv.take(i as int).filter(dead).to_set().contains(k));
                assert(self.entries_view().contains_key(k));
                assert(self.entries_view()[k] == m[k]);
            }
            let e = match entries_get(&self.by_hash, keys[i].as_slice()) {
                Some(e) => e,
                None => {
                    proof {
                        assert(false);
                    }
                    return n;
                },
            };
            if e.is_expired(now, &self.config) {
                let _ = entries_shift_remove(&mut self.by_hash, keys[i].as_slice());
                proof {
                    kv.take(i as int).filter(dead).lemma_push_to_set_commute(k);
                    assert(self.entries_view() =~= m.remove_keys(kv.take(i + 1).filter(dead).to_set()));
                    assert(n < kv.len()) by {
                        kv.take(i as int).lemma_filter_len(dead);
                    }
                }
                n = n + 1;
            } else {
                proof {
                    assert(!dead(k));
                }
            }
            i = i + 1;
        }
        proof {
            assert(kv.take(kv.len() as int) =~= kv);
            lemma_filter_exact(kv, dead);
            kv.filter(dead).unique_seq_to_set();
            assert(kv.filter(dead).to_set() =~= m.dom().filter(dead));
        }
        n
    }

    /// Forgets every entry.
    pub fn clear(&mut self)
        requires
            old(self).wf(),
        ensures
            final(self).wf(),
            final(self).entries_view() == Map::<Seq<u8>, PoolEntryView>::empty(),
            final(self).index_view().hash_view() == Map::<Seq<u8>, IndexedTxView>::empty(),
            final(self).config_view() == old(self).config_view(),
    {
        entries_clear(&mut self.by_hash);
        let _ = self.multi_dimensional_index.reset();
        let _ = self.deterministic_ordering.clear();
        proof {
            assert(pool_entries(self.by_hash).dom() =~= Set::<Seq<u8>>::empty());
        }
    }

    /// Sets the minimum fee rate and raises the fee filter to it.
    pub fn set_min_fee_rate(&mut self, min_fee_rate: u64) -> (r: Result<(), String>)
        requires
            old(self).wf(),
        ensures
            final(self).wf(),
            r is Ok,
            final(self).config_view() == (PoolConfig { min_fee_rate, ..old(self).config_view() }),
            final(self).filter_view().base_fee() == min_fee_rate,
            final(self).filter_view().threshold() == if old(self).filter_view().threshold() < min_fee_rate {
                min_fee_rate
            } else {
                old(self).filter_view().threshold()
            },
            final(self).entries_view() == old(self).entries_view(),
    {
        self.config.min_fee_rate = min_fee_rate;
        self.fee_filter.set_base_fee(min_fee_rate);
        Ok(())
    }

    /// The fee filter's current threshold.
    pub fn get_current_min_fee_rate(&self) -> (t: u64)
        ensures
            t == self.filter_view().threshold(),
    {
        self.fee_filter.current_threshold()
    }
}


impl TransactionPool {
    /// Counts by status and totals of fees and sizes (each wrapping at its
    /// type's size) over all entries.
    pub fn get_stats(&self) -> (st: PoolStats)
        requires
            self.wf(),
        ensures
            exists|ks: Seq<Seq<u8>>| #![trigger entries_at(self.entries_view(), ks)]
                ks.no_duplicates() && ks.to_set() == self.entries_view().dom() && {
                    let es = entries_at(self.entries_view(), ks);
                    &&& st.total_count == es.len()
                    &&& st.pending_count == count_status(es, TransactionStatus::Pending)
                    &&& st.validated_count == count_status(es, TransactionStatus::Validated)
                    &&& st.orphan_count == count_status(es, TransactionStatus::InOrphanPool)
                    &&& st.rejected_count == count_status(es, TransactionStatus::Rejected)
                    &&& st.total_fees == wrap_add(0, fee_total(es))
                    &&& st.total_size_bytes == wrap_usize(0, size_total(es))
                },
    {
        let all = self.get_all();
        let ghost ks = choose|ks: Seq<Seq<u8>>| #![trigger entries_at(self.entries_view(), ks)]
            ks.no_duplicates() && ks.to_set() == self.entries_view().dom()
            && entry_views(all@) == entries_at(self.entries_view(), ks);
        let ghost es = entry_views(all@);
        let mut pending: usize = 0;
        let mut validated: usize = 0;
        let mut orphan: usize = 0;
        let mut rejected: usize = 0;
        let mut fees: u64 = 0;
        let mut size: usize = 0;
        let mut i: usize = 0;
        proof {
            assert(es.take(0) =~= Seq::<PoolEntryView>::empty());
            lemma_wrap_add_zero(0);
            lemma_wrap_usize_zero(0);
        }
        while i < all.len()
            invariant
                es == entry_views(all@),
                i <= es.len(),
                pending == count_status(es.take(i as int), TransactionStatus::Pending),
                validated == count_status(es.take(i as int), TransactionStatus::Validated),
                orphan == count_status(es.take(i as int), TransactionStatus::InOrphanPool),
                rejected == count_status(es.take(i as int), TransactionStatus::Rejected),
                pending <= i && validated <= i && orphan <= i && rejected <= i,
                fees == wrap_add(0, fee_total(es.take(i as int))),
                size == wrap_usize(0, size_total(es.take(i as int))),
            decreases es.len() - i,
        {
            let e = &all[i];
            proof {
                assert(es.take(i + 1).drop_last() =~= es.take(i as int));
                assert(es.take(i + 1).last() == e@);
                lemma_fee_wrap(fee_total(es.take(i as int)), e.total_fee);
                lemma_wrap_usize_step(0, size_total(es.take(i as int)), e.size_bytes);
            }
            match e.status {
                TransactionStatus::Pending => { pending = pending + 1; },
                TransactionStatus::Validated => { validated = validated + 1; },
                TransactionStatus::InOrphanPool => { orphan = orphan + 1; },
                TransactionStatus::Rejected => { rejected = rejected + 1; },
                _ => {},
            }
            fees = fees.wrapping_add(e.total_fee);
            size = size.wrapping_add(e.size_bytes);
            i = i + 1;
        }
        proof {
            assert(es.take(es.len() as int) =~= es);
        }
        PoolStats {
            total_count: all.len(),
            pending_count: pending,
            validated_count: validated,
            orphan_count: orphan,
            rejected_count: rejected,
            total_fees: fees,
            total_size_bytes: size,
        }
    }
}

} // verus!
