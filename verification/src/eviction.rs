//! Deterministic eviction: when the pool is full, every node evicts the same
//! rejected and orphan transactions, the lowest fee-rate-times-age score
//! first and the smaller hash first on a tie.

use vstd::prelude::*;
use crate::bytes::{bytes_lt, copy_bytes, seq_lt, lemma_seq_lt_total, lemma_seq_lt_transitive};
use crate::pool::{PoolEntry, PoolStats, TransactionStatus};
use crate::transaction::{hash_key, hash_key_spec};

verus! {

/// The eviction score of an entry at `current_time`: its fee rate (zero
/// for an empty size) times its age in seconds (at least one), capped at
/// `i128::MAX`.
pub open spec fn eviction_score_spec(entry: PoolEntry, current_time: u64) -> int {
    let fee_rate: int = if entry.size_bytes == 0 { 0 } else { entry.total_fee as int / entry.size_bytes as int };
    let age: int = if current_time >= entry.arrival_time { current_time - entry.arrival_time } else { 0 };
    let p = fee_rate * (if age > 1 { age } else { 1 });
    if p > i128::MAX { i128::MAX as int } else { p }
}

/// An entry's eviction score and hash; lower scores are evicted first.
#[derive(Clone, Debug)]
pub struct EvictionScore {
    score: i128,
    tx_hash: Vec<u8>,
}

impl EvictionScore {
    pub closed spec fn score_value(&self) -> int {
        self.score as int
    }

    pub closed spec fn hash_view(&self) -> Seq<u8> {
        self.tx_hash@
    }

    /// The score of `entry` at `current_time`.
    pub fn from_entry(entry: &PoolEntry, current_time: u64) -> (s: Self)
        ensures
            s.score_value() == eviction_score_spec(*entry, current_time),
            s.hash_view() == hash_key_spec(entry.transaction.id),
    {
        let fee_rate: u128 = if entry.size_bytes > 0 {
            (entry.total_fee as u128) / (entry.size_bytes as u128)
        } else {
            0
        };
        let age: u128 = current_time.saturating_sub(entry.arrival_time) as u128;
        let factor: u128 = if age > 1 { age } else { 1 };
        assert(fee_rate <= u64::MAX) by (nonlinear_arith)
            requires
                entry.size_bytes > 0 ==> fee_rate == (entry.total_fee as u128) / (entry.size_bytes as u128),
                entry.size_bytes == 0 ==> fee_rate == 0,
        ;
        assert(fee_rate * factor <= u128::MAX) by (nonlinear_arith)
            requires
                fee_rate <= u64::MAX,
                factor <= u64::MAX,
        ;
        let p: u128 = fee_rate * factor;
        let score: i128 = if p > (i128::MAX as u128) { i128::MAX } else { p as i128 };
        Self { score, tx_hash: hash_key(&entry.transaction.id) }
    }

    /// The score.
    pub fn magnitude(&self) -> (m: i128)
        ensures
            m == self.score_value(),
    {
        self.score
    }

    /// The entry's hash.
    pub fn tx_hash(&self) -> (h: &Vec<u8>)
        ensures
            h@ == self.hash_view(),
    {
        &self.tx_hash
    }

    /// Whether `self` is evicted before `other`: a lower score, or the same
    /// score and the smaller hash.
    pub fn evicts_before(&self, other: &Self) -> (b: bool)
        ensures
            b == evicts_before_spec(self.score_value(), self.hash_view(), other.score_value(), other.hash_view()),
    {
        self.score < other.score || (self.score == other.score && bytes_lt(self.tx_hash.as_slice(), other.tx_hash.as_slice()))
    }
}

/// A score and hash come before another: a lower score, or the same score
/// and the smaller hash.
pub open spec fn evicts_before_spec(s1: int, h1: Seq<u8>, s2: int, h2: Seq<u8>) -> bool {
    s1 < s2 || (s1 == s2 && seq_lt(h1, h2))
}

/// The eviction order is a strict total order on (score, hash): no key
/// goes before itself, no two keys go before each other both ways, two
/// different keys are ordered one way, and the order is transitive.
pub proof fn lemma_eviction_order(s1: int, h1: Seq<u8>, s2: int, h2: Seq<u8>, s3: int, h3: Seq<u8>)
    ensures
        !evicts_before_spec(s1, h1, s1, h1),
        !(evicts_before_spec(s1, h1, s2, h2) && evicts_before_spec(s2, h2, s1, h1)),
        (s1 != s2 || h1 != h2) ==> evicts_before_spec(s1, h1, s2, h2) || evicts_before_spec(s2, h2, s1, h1),
        evicts_before_spec(s1, h1, s2, h2) && evicts_before_spec(s2, h2, s3, h3) ==> evicts_before_spec(s1, h1, s3, h3),
{
    lemma_seq_lt_total(h1, h2);
    lemma_seq_lt_total(h2, h3);
    if seq_lt(h1, h2) && seq_lt(h2, h3) {
        lemma_seq_lt_transitive(h1, h2, h3);
    }
}

/// Limits that trigger eviction, and how many to evict at once.
#[derive(Clone, Copy, Debug)]
pub struct EvictionPolicy {
    pub max_transaction_count: usize,
    pub max_memory_bytes: usize,
    pub batch_size: usize,
}

impl Default for EvictionPolicy {
    fn default() -> (p: Self)
        ensures
            p.max_transaction_count == 100_000,
            p.max_memory_bytes == 100 * 1024 * 1024,
            p.batch_size == 100,
    {
        EvictionPolicy { max_transaction_count: 100_000, max_memory_bytes: 100 * 1024 * 1024, batch_size: 100 }
    }
}

/// Outcome of an eviction round.
#[derive(Clone, Debug)]
pub struct EvictionResult {
    pub success: bool,
    pub evicted_count: usize,
    pub evicted_bytes: usize,
    pub total_evicted_fees: u64,
    pub evicted_hashes: Vec<Vec<u8>>,
}

impl Default for EvictionResult {
    fn default() -> (r: Self)
        ensures
            !r.success,
            r.evicted_count == 0,
            r.evicted_bytes == 0,
            r.total_evicted_fees == 0,
            r.evicted_hashes@.len() == 0,
    {
        EvictionResult { success: false, evicted_count: 0, evicted_bytes: 0, total_evicted_fees: 0, evicted_hashes: Vec::new() }
    }
}


/// A transaction that may be evicted: its score, hash, size and fee.
pub type Candidate = (int, Seq<u8>, usize, u64);

/// Rejected and orphan transactions may be evicted.
pub open spec fn evictable(status: TransactionStatus) -> bool {
    status == TransactionStatus::Rejected || status == TransactionStatus::InOrphanPool
}

/// The evictable entries at `now`, in order.
pub open spec fn candidates(entries: Seq<PoolEntry>, now: u64) -> Seq<Candidate>
    decreases entries.len(),
{
    if entries.len() == 0 {
        Seq::empty()
    } else {
        let rest = candidates(entries.drop_last(), now);
        let e = entries.last();
        if evictable(e.status) {
            rest.push((eviction_score_spec(e, now), hash_key_spec(e.transaction.id), e.size_bytes, e.total_fee))
        } else {
            rest
        }
    }
}

/// `a` is evicted before `b`.
pub open spec fn cand_before(a: Candidate, b: Candidate) -> bool {
    evicts_before_spec(a.0, a.1, b.0, b.1)
}

/// The first position at or after `i` whose candidate goes after `c`.
pub open spec fn cand_pos(s: Seq<Candidate>, c: Candidate, i: int) -> int
    decreases s.len() - i,
{
    if i < 0 || i >= s.len() {
        s.len() as int
    } else if cand_before(c, s[i]) {
        i
    } else {
        cand_pos(s, c, i + 1)
    }
}

/// The candidates in eviction order, equal ones in their original order.
pub open spec fn eviction_order(s: Seq<Candidate>) -> Seq<Candidate>
    decreases s.len(),
{
    if s.len() == 0 {
        Seq::empty()
    } else {
        let r = eviction_order(s.drop_last());
        r.insert(cand_pos(r, s.last(), 0), s.last())
    }
}

/// Total size of candidates.
pub open spec fn size_sum(s: Seq<Candidate>) -> nat
    decreases s.len(),
{
    if s.len() == 0 { 0 } else { size_sum(s.drop_last()) + s.last().2 as nat }
}

/// Total fee of candidates.
pub open spec fn fee_total(s: Seq<Candidate>) -> nat
    decreases s.len(),
{
    if s.len() == 0 { 0 } else { fee_total(s.drop_last()) + s.last().3 as nat }
}

/// Total size of entries.
pub open spec fn entry_size_sum(s: Seq<PoolEntry>) -> nat
    decreases s.len(),
{
    if s.len() == 0 { 0 } else { entry_size_sum(s.drop_last()) + s.last().size_bytes as nat }
}

/// Total fee of entries.
pub open spec fn entry_fee_sum(s: Seq<PoolEntry>) -> nat
    decreases s.len(),
{
    if s.len() == 0 { 0 } else { entry_fee_sum(s.drop_last()) + s.last().total_fee as nat }
}

proof fn lemma_cand_pos(s: Seq<Candidate>, c: Candidate, i: int, p: int)
    requires
        0 <= i <= p <= s.len(),
        forall|j: int| i <= j < p ==> !cand_before(c, #[trigger] s[j]),
        p < s.len() ==> cand_before(c, s[p]),
    ensures
        cand_pos(s, c, i) == p,
    decreases p - i,
{
    if i < p {
        lemma_cand_pos(s, c, i + 1, p);
    }
}

proof fn lemma_cand_pos_range(s: Seq<Candidate>, c: Candidate, i: int)
    requires
        0 <= i <= s.len(),
    ensures
        i <= cand_pos(s, c, i) <= s.len(),
    decreases s.len() - i,
{
    if i < s.len() && !cand_before(c, s[i]) {
        lemma_cand_pos_range(s, c, i + 1);
    }
}

proof fn lemma_sums_insert(s: Seq<Candidate>, p: int, c: Candidate)
    requires
        0 <= p <= s.len(),
    ensures
        size_sum(s.insert(p, c)) == size_sum(s) + c.2,
        fee_total(s.insert(p, c)) == fee_total(s) + c.3,
    decreases s.len(),
{
    if p < s.len() {
        assert(s.insert(p, c).drop_last() =~= s.drop_last().insert(p, c));
        lemma_sums_insert(s.drop_last(), p, c);
    } else {
        assert(s.insert(p, c).drop_last() =~= s);
    }
}

proof fn lemma_eviction_order_sums(s: Seq<Candidate>)
    ensures
        eviction_order(s).len() == s.len(),
        size_sum(eviction_order(s)) == size_sum(s),
        fee_total(eviction_order(s)) == fee_total(s),
    decreases s.len(),
{
    if s.len() > 0 {
        lemma_eviction_order_sums(s.drop_last());
        let r = eviction_order(s.drop_last());
        lemma_cand_pos_range(r, s.last(), 0);
        lemma_sums_insert(r, cand_pos(r, s.last(), 0), s.last());
    }
}

proof fn lemma_sums_take(s: Seq<Candidate>, k: int)
    requires
        0 <= k <= s.len(),
    ensures
        size_sum(s.take(k)) <= size_sum(s),
        fee_total(s.take(k)) <= fee_total(s),
        k < s.len() ==> size_sum(s.take(k + 1)) == size_sum(s.take(k)) + s[k].2,
        k < s.len() ==> fee_total(s.take(k + 1)) == fee_total(s.take(k)) + s[k].3,
    decreases s.len() - k,
{
    if k < s.len() {
        assert(s.take(k + 1).drop_last() =~= s.take(k));
        lemma_sums_take(s, k + 1);
    } else {
        assert(s.take(k) =~= s);
    }
}

proof fn lemma_candidate_sums(entries: Seq<PoolEntry>, now: u64)
    ensures
        size_sum(candidates(entries, now)) <= entry_size_sum(entries),
        fee_total(candidates(entries, now)) <= entry_fee_sum(entries),
    decreases entries.len(),
{
    if entries.len() > 0 {
        lemma_candidate_sums(entries.drop_last(), now);
        let rest = candidates(entries.drop_last(), now);
        let e = entries.last();
        if evictable(e.status) {
            let c = (eviction_score_spec(e, now), hash_key_spec(e.transaction.id), e.size_bytes, e.total_fee);
            assert(rest.push(c).drop_last() =~= rest);
        }
    }
}

/// The pool is at or over one of its limits.
pub open spec fn needs_eviction(policy: EvictionPolicy, stats: PoolStats) -> bool {
    stats.total_count >= policy.max_transaction_count || stats.total_size_bytes >= policy.max_memory_bytes
}

/// A candidate for the eviction order.
struct Entry {
    score: EvictionScore,
    size: usize,
    fee: u64,
}

impl Entry {
    spec fn view(&self) -> Candidate {
        (self.score.score_value(), self.score.hash_view(), self.size, self.fee)
    }
}

spec fn entry_views(s: Seq<Entry>) -> Seq<Candidate> {
    s.map_values(|e: Entry| e.view())
}

/// Chooses what to evict from the pool's entries.
pub struct EvictionEngine {
    policy: EvictionPolicy,
}

impl EvictionEngine {
    pub closed spec fn policy_view(&self) -> EvictionPolicy {
        self.policy
    }

    pub fn new(policy: EvictionPolicy) -> (e: Self)
        ensures
            e.policy_view() == policy,
    {
        Self { policy }
    }

    /// Whether a pool with these statistics must evict.
    pub fn need_eviction(&self, stats: &PoolStats) -> (b: bool)
        ensures
            b == needs_eviction(self.policy_view(), *stats),
    {
        stats.total_count >= self.policy.max_transaction_count || stats.total_size_bytes >= self.policy.max_memory_bytes
    }

    /// The evictable entries at `now`, in eviction order.
    fn ordered_candidates(entries: &Vec<PoolEntry>, now: u64) -> (r: Vec<Entry>)
        ensures
            entry_views(r@) == eviction_order(candidates(entries@, now)),
    {
        let ghost cs = candidates(entries@, now);
        let mut r: Vec<Entry> = Vec::new();
        let mut i: usize = 0;
        while i < entries.len()
            invariant
                i <= entries@.len(),
                entry_views(r@) == eviction_order(candidates(entries@.take(i as int), now)),
            decreases entries@.len() - i,
        {
            let e = &entries[i];
            proof {
                assert(entries@.take(i + 1).drop_last() =~= entries@.take(i as int));
                assert(entries@.take(i + 1).last() == *e);
            }
            if e.status == TransactionStatus::Rejected || e.status == TransactionStatus::InOrphanPool {
                let c = Entry { score: EvictionScore::from_entry(e, now), size: e.size_bytes, fee: e.total_fee };
                let ghost cv = c.view();
                let ghost sorted = entry_views(r@);
                let mut p: usize = 0;
                while p < r.len()
                    invariant
                        sorted == entry_views(r@),
                        c.view() == cv,
                        p <= sorted.len(),
                        forall|j: int| 0 <= j < p ==> !cand_before(cv, #[trigger] sorted[j]),
                    ensures
                        p <= sorted.len(),
                        forall|j: int| 0 <= j < p ==> !cand_before(cv, #[trigger] sorted[j]),
                        p < sorted.len() ==> cand_before(cv, sorted[p as int]),
                    decreases sorted.len() - p,
                {
                    proof {
                        assert(r@[p as int].view() == sorted[p as int]);
                    }
                    if c.score.evicts_before(&r[p].score) {
                        break;
                    }
                    p = p + 1;
                }
                proof {
                    lemma_cand_pos(sorted, cv, 0, p as int);
                }
                r.insert(p, c);
                proof {
                    assert(entry_views(r@) =~= sorted.insert(p as int, cv));
                    let rest = candidates(entries@.take(i as int), now);
                    assert(candidates(entries@.take(i + 1), now) == rest.push(cv));
                    assert(rest.push(cv).drop_last() =~= rest);
                    assert(rest.push(cv).last() == cv);
                }
            } else {
                proof {
                    assert(candidates(entries@.take(i + 1), now) == candidates(entries@.take(i as int), now));
                }
            }
            i = i + 1;
        }
        proof {
            assert(entries@.take(entries@.len() as int) =~= entries@);
        }
        r
    }

    /// When the pool is at a limit, evicts up to a batch of its rejected
    /// and orphan entries in eviction order; otherwise nothing.
    pub fn evict_lowest_priority(&self, entries: &Vec<PoolEntry>, stats: &PoolStats, current_time: u64) -> (r: EvictionResult)
        requires
            entry_size_sum(entries@) <= usize::MAX,
            entry_fee_sum(entries@) <= u64::MAX,
        ensures
            !needs_eviction(self.policy_view(), *stats) ==> !r.success && r.evicted_count == 0 && r.evicted_bytes == 0
                && r.total_evicted_fees == 0 && r.evicted_hashes@.len() == 0,
            needs_eviction(self.policy_view(), *stats) ==> ({
                let order = eviction_order(candidates(entries@, current_time));
                let k = if order.len() < self.policy_view().batch_size { order.len() as int } else { self.policy_view().batch_size as int };
                &&& r.success
                &&& r.evicted_count == k
                &&& r.evicted_bytes == size_sum(order.take(k))
                &&& r.total_evicted_fees == fee_total(order.take(k))
                &&& r.evicted_hashes@.len() == k
                &&& forall|i: int| 0 <= i < k ==> (#[trigger] r.evicted_hashes@[i])@ == order[i].1
            }),
    {
        let mut result = EvictionResult::default();
        if !self.need_eviction(stats) {
            return result;
        }
        let order = Self::ordered_candidates(entries, current_time);
        let ghost ov = entry_views(order@);
        proof {
            lemma_candidate_sums(entries@, current_time);
            lemma_eviction_order_sums(candidates(entries@, current_time));
        }
        let mut evicted_count: usize = 0;
        let mut evicted_bytes: usize = 0;
        let mut fees: u64 = 0;
        while evicted_count < self.policy.batch_size && evicted_count < order.len()
            invariant
                ov == entry_views(order@),
                size_sum(ov) <= usize::MAX,
                fee_total(ov) <= u64::MAX,
                evicted_count <= ov.len(),
                evicted_count <= self.policy.batch_size,
                evicted_bytes == size_sum(ov.take(evicted_count as int)),
                fees == fee_total(ov.take(evicted_count as int)),
                result.evicted_hashes@.len() == evicted_count,
                forall|i: int| 0 <= i < evicted_count ==> (#[trigger] result.evicted_hashes@[i])@ == ov[i].1,
            decreases ov.len() - evicted_count,
        {
            let e = &order[evicted_count];
            proof {
                assert(e.view() == ov[evicted_count as int]);
                lemma_sums_take(ov, evicted_count as int);
                lemma_sums_take(ov, evicted_count + 1);
            }
            evicted_bytes = evicted_bytes + e.size;
            fees = fees + e.fee;
            result.evicted_hashes.push(copy_bytes(e.score.tx_hash().as_slice()));
            evicted_count = evicted_count + 1;
        }
        result.evicted_count = evicted_count;
        result.evicted_bytes = evicted_bytes;
        result.total_evicted_fees = fees;
        result.success = true;
        result
    }

    /// Every entry's hash and score at `current_time`, the lowest score
    /// first, entries with equal scores in their original order.
    pub fn analyze_eviction_order(&self, entries: &Vec<PoolEntry>, current_time: u64) -> (r: Vec<(Vec<u8>, i128)>)
        ensures
            r@.len() == entries@.len(),
            forall|i: int, j: int| 0 <= i < j < r@.len() ==> (#[trigger] r@[i]).1 <= (#[trigger] r@[j]).1,
            r@.map_values(|p: (Vec<u8>, i128)| (p.0@, p.1 as int)).to_multiset()
                == entries@.map_values(|e: PoolEntry| (hash_key_spec(e.transaction.id), eviction_score_spec(e, current_time))).to_multiset(),
    {
        let ghost target = |e: PoolEntry| (hash_key_spec(e.transaction.id), eviction_score_spec(e, current_time));
        let ghost pv = |p: (Vec<u8>, i128)| (p.0@, p.1 as int);
        let mut r: Vec<(Vec<u8>, i128)> = Vec::new();
        let mut i: usize = 0;
        proof {
            assert(r@.map_values(pv) =~= Seq::<(Seq<u8>, int)>::empty());
            assert(entries@.take(0).map_values(target) =~= Seq::<(Seq<u8>, int)>::empty());
        }
        while i < entries.len()
            invariant
                target == (|e: PoolEntry| (hash_key_spec(e.transaction.id), eviction_score_spec(e, current_time))),
                pv == (|p: (Vec<u8>, i128)| (p.0@, p.1 as int)),
                i <= entries@.len(),
                r@.len() == i,
                forall|a: int, b: int| 0 <= a < b < r@.len() ==> (#[trigger] r@[a]).1 <= (#[trigger] r@[b]).1,
                r@.map_values(pv).to_multiset() == entries@.take(i as int).map_values(target).to_multiset(),
            decreases entries@.len() - i,
        {
            let sc = EvictionScore::from_entry(&entries[i], current_time);
            let item = (copy_bytes(sc.tx_hash().as_slice()), sc.magnitude());
            let ghost before = r@;
            let mut p: usize = 0;
            while p < r.len()
                invariant
                    r@ == before,
                    p <= before.len(),
                    forall|j: int| 0 <= j < p ==> (#[trigger] before[j]).1 <= item.1,
                ensures
                    p <= before.len(),
                    forall|j: int| 0 <= j < p ==> (#[trigger] before[j]).1 <= item.1,
                    p < before.len() ==> item.1 < before[p as int].1,
                decreases before.len() - p,
            {
                if item.1 < r[p].1 {
                    break;
                }
                p = p + 1;
            }
            let ghost iv = item;
            r.insert(p, item);
            proof {
                assert(r@ =~= before.insert(p as int, iv));
                assert forall|a: int, b: int| 0 <= a < b < r@.len() implies (#[trigger] r@[a]).1 <= (#[trigger] r@[b]).1 by {
                    if a < p && b < p {
                        assert(r@[a] == before[a] && r@[b] == before[b]);
                    } else if a < p && b == p {
                        assert(r@[a] == before[a]);
                    } else if a < p && b > p {
                        assert(r@[a] == before[a] && r@[b] == before[b - 1]);
                        assert(before[a].1 <= before[b - 1].1);
                    } else if a == p {
                        assert(r@[b] == before[b - 1]);
                        assert(before[p as int].1 <= before[b - 1].1);
                    } else {
                        assert(r@[a] == before[a - 1] && r@[b] == before[b - 1]);
                    }
                }
                assert(r@.map_values(pv) =~= before.map_values(pv).insert(p as int, pv(iv)));
                vstd::seq_lib::to_multiset_insert(before.map_values(pv), p as int, pv(iv));
                assert(entries@.take(i + 1).map_values(target) =~= entries@.take(i as int).map_values(target).push(target(entries@[i as int])));
                entries@.take(i as int).map_values(target).to_multiset_ensures();
                assert(pv(iv) == target(entries@[i as int]));
            }
            i = i + 1;
        }
        proof {
            assert(entries@.take(entries@.len() as int) =~= entries@);
        }
        r
    }
}
proof fn lemma_cand_pos_facts(s: Seq<Candidate>, c: Candidate, i: int)
    requires
        0 <= i <= s.len(),
    ensures
        forall|j: int| i <= j < cand_pos(s, c, i) ==> !cand_before(c, #[trigger] s[j]),
        cand_pos(s, c, i) < s.len() ==> cand_before(c, s[cand_pos(s, c, i)]),
    decreases s.len() - i,
{
    if i < s.len() && !cand_before(c, s[i]) {
        lemma_cand_pos_facts(s, c, i + 1);
    }
}

/// The eviction order puts lower scores first and, among equal scores, the
/// smaller hash first: no candidate comes after one that it goes before.
pub proof fn lemma_eviction_order_sorted(s: Seq<Candidate>)
    ensures
        forall|i: int, j: int| 0 <= i < j < eviction_order(s).len()
            ==> !((#[trigger] eviction_order(s)[j]).0 < (#[trigger] eviction_order(s)[i]).0
                || (eviction_order(s)[j].0 == eviction_order(s)[i].0 && seq_lt(eviction_order(s)[j].1, eviction_order(s)[i].1))),
    decreases s.len(),
{
    if s.len() > 0 {
        let r = eviction_order(s.drop_last());
        let t = s.last();
        lemma_eviction_order_sorted(s.drop_last());
        lemma_cand_pos_range(r, t, 0);
        let p = cand_pos(r, t, 0);
        lemma_cand_pos_facts(r, t, 0);
        let q = eviction_order(s);
        assert(q == r.insert(p, t));
        assert forall|i: int, j: int| 0 <= i < j < q.len()
            implies !((#[trigger] q[j]).0 < (#[trigger] q[i]).0 || (q[j].0 == q[i].0 && seq_lt(q[j].1, q[i].1))) by {
            if j < p {
                assert(q[i] == r[i] && q[j] == r[j]);
            } else if j == p {
                assert(q[i] == r[i] && q[j] == t);
                assert(!cand_before(t, r[i]));
            } else if i > p {
                assert(q[i] == r[i - 1] && q[j] == r[j - 1]);
            } else if i == p {
                assert(q[i] == t && q[j] == r[j - 1]);
                assert(cand_before(t, r[p]));
                lemma_eviction_order(r[j - 1].0, r[j - 1].1, t.0, t.1, r[p].0, r[p].1);
                lemma_eviction_order(t.0, t.1, r[p].0, r[p].1, t.0, t.1);
                if j - 1 > p {
                    assert(!cand_before(r[j - 1], r[p]));
                }
            } else {
                assert(q[i] == r[i] && q[j] == r[j - 1]);
            }
        }
    }
}

} // verus!
