//! Pool configuration, entries and their lifecycle, the dynamic fee filter,
//! the canonical block ordering and the conflict-free selection of a block
//! candidate.

use vstd::prelude::*;
use indexmap::IndexMap;
use crate::bytes::{bytes_lt, copy_bytes, seq_lt, lemma_seq_lt_total, lemma_seq_lt_transitive};
use crate::external::clock_unix_secs;
use crate::transaction::{Transaction, TransactionView, TxInputView, hash_key, hash_key_spec};
use crate::advanced_conflicts::OutPoint;
use crate::keyed::{KeySet, KeyOps};
use crate::text::{hex_encode, push_decimal};

verus! {

/// Limits and fee settings of the pool.
#[derive(Clone, Copy, Debug)]
pub struct PoolConfig {
    pub max_pool_size: usize,
    pub max_orphan_size: usize,
    /// Minimum fee per byte to accept a transaction
    pub min_fee_rate: u64,
    /// Fee bump applied as the pool fills, in percent
    pub dynamic_fee_bump_percent: u64,
    pub max_transactions_per_source: u64,
    pub rate_limit_window_secs: u64,
    pub orphan_ttl_secs: u64,
    pub rejected_ttl_secs: u64,
}

impl Default for PoolConfig {
    fn default() -> (c: Self)
        ensures
            c.max_pool_size == 10000,
            c.max_orphan_size == 1000,
            c.min_fee_rate == 1,
            c.dynamic_fee_bump_percent == 150,
            c.max_transactions_per_source == 10,
            c.rate_limit_window_secs == 60,
            c.orphan_ttl_secs == 600,
            c.rejected_ttl_secs == 3600,
    {
        PoolConfig {
            max_pool_size: 10000,
            max_orphan_size: 1000,
            min_fee_rate: 1,
            dynamic_fee_bump_percent: 150,
            max_transactions_per_source: 10,
            rate_limit_window_secs: 60,
            orphan_ttl_secs: 600,
            rejected_ttl_secs: 3600,
        }
    }
}

/// Lifecycle of a transaction in the pool.
#[derive(Clone, Copy, Debug, PartialEq, Eq, Structural)]
pub enum TransactionStatus {
    Pending,
    Validated,
    Invalid,
    InOrphanPool,
    Rejected,
    Conflicted,
    InBlock,
    Confirmed,
}

/// A transaction in the pool with its metadata.
#[derive(Clone, Debug)]
pub struct PoolEntry {
    pub transaction: Transaction,
    pub status: TransactionStatus,
    /// UNIX time in seconds when the transaction arrived
    pub arrival_time: u64,
    pub size_bytes: usize,
    pub total_fee: u64,
}

/// Fee per byte, zero for an empty size.
pub open spec fn fee_rate_spec(total_fee: u64, size_bytes: usize) -> u64 {
    if size_bytes == 0 { 0 } else { (total_fee / (size_bytes as u64)) as u64 }
}

/// A pool entry as a value.
pub struct PoolEntryView {
    pub transaction: TransactionView,
    pub status: TransactionStatus,
    pub arrival_time: u64,
    pub size_bytes: usize,
    pub total_fee: u64,
}

impl View for PoolEntry {
    type V = PoolEntryView;

    open spec fn view(&self) -> PoolEntryView {
        PoolEntryView {
            transaction: self.transaction@,
            status: self.status,
            arrival_time: self.arrival_time,
            size_bytes: self.size_bytes,
            total_fee: self.total_fee,
        }
    }
}

impl PoolEntry {
    /// A pending entry that arrived at `arrival_time`.
    pub fn new_at(transaction: Transaction, total_fee: u64, size_bytes: usize, arrival_time: u64) -> (e: Self)
        ensures
            e.transaction == transaction,
            e.status == TransactionStatus::Pending,
            e.arrival_time == arrival_time,
            e.size_bytes == size_bytes,
            e.total_fee == total_fee,
    {
        Self { transaction, status: TransactionStatus::Pending, arrival_time, size_bytes, total_fee }
    }

    /// A copy of the entry.
    pub fn duplicate(&self) -> (c: Self)
        ensures
            c@ == self@,
    {
        Self {
            transaction: self.transaction.duplicate(),
            status: self.status,
            arrival_time: self.arrival_time,
            size_bytes: self.size_bytes,
            total_fee: self.total_fee,
        }
    }

    /// A pending entry that arrives now.
    pub fn new(transaction: Transaction, total_fee: u64, size_bytes: usize) -> (e: Self)
        ensures
            e.transaction == transaction,
            e.status == TransactionStatus::Pending,
            e.size_bytes == size_bytes,
            e.total_fee == total_fee,
    {
        let arrival_time = clock_unix_secs();
        Self { transaction, status: TransactionStatus::Pending, arrival_time, size_bytes, total_fee }
    }

    /// Fee per byte, zero for an empty size.
    pub fn fee_rate(&self) -> (r: u64)
        ensures
            r == fee_rate_spec(self.total_fee, self.size_bytes),
    {
        if self.size_bytes == 0 {
            0
        } else {
            self.total_fee / (self.size_bytes as u64)
        }
    }

    /// An orphan or rejected entry expires once it is older than its
    /// time-to-live; other entries do not expire.
    pub fn is_expired(&self, current_time: u64, config: &PoolConfig) -> (b: bool)
        ensures
            b == match self.status {
                TransactionStatus::InOrphanPool => current_time - self.arrival_time > config.orphan_ttl_secs,
                TransactionStatus::Rejected => current_time - self.arrival_time > config.rejected_ttl_secs,
                _ => false,
            },
    {
        let age = current_time.saturating_sub(self.arrival_time);
        match self.status {
            TransactionStatus::InOrphanPool => age > config.orphan_ttl_secs,
            TransactionStatus::Rejected => age > config.rejected_ttl_secs,
            _ => false,
        }
    }
}

/// A transaction picked for a block candidate.
#[derive(Clone, Debug)]
pub struct SelectedTransaction {
    pub transaction: Transaction,
    pub total_fee: u64,
    pub size_bytes: usize,
}

/// Counts by status, total fees and total size of the pool.
#[derive(Clone, Copy, Debug)]
pub struct PoolStats {
    pub total_count: usize,
    pub pending_count: usize,
    pub validated_count: usize,
    pub orphan_count: usize,
    pub rejected_count: usize,
    pub total_fees: u64,
    pub total_size_bytes: usize,
}

/// The fee bump for a pool of `current_size` out of `max_size`: the base
/// fee times the utilisation times the bump percentage, over 100, rounded
/// up and capped at `u64::MAX`; when `base * percent * current_size` does
/// not fit in 128 bits, `u64::MAX`.
pub open spec fn fee_bump(base: u64, percent: u64, current_size: usize, max_size: usize) -> u64 {
    let n = base * percent * current_size;
    let d = 100 * max_size;
    if n > u128::MAX {
        u64::MAX
    } else {
        let c = (n + d - 1) / d;
        if c > u64::MAX { u64::MAX } else { c as u64 }
    }
}

/// Minimum relay fee that rises as the pool fills and falls back as it
/// empties, changing at most once every 10 seconds.
#[derive(Clone, Copy, Debug)]
pub struct FeeFilter {
    base_min_fee: u64,
    current_min_fee: u64,
    max_bump_percent: u64,
    /// UNIX time in seconds of the last change
    last_update: u64,
}

impl FeeFilter {
    pub closed spec fn base_fee(&self) -> u64 {
        self.base_min_fee
    }

    pub closed spec fn threshold(&self) -> u64 {
        self.current_min_fee
    }

    pub closed spec fn bump_percent(&self) -> u64 {
        self.max_bump_percent
    }

    pub closed spec fn last_update_time(&self) -> u64 {
        self.last_update
    }

    /// A filter at the base fee, last changed now.
    pub fn new(base_min_fee: u64, max_bump_percent: u64) -> (f: Self)
        ensures
            f.base_fee() == base_min_fee,
            f.threshold() == base_min_fee,
            f.bump_percent() == max_bump_percent,
    {
        let now = clock_unix_secs();
        Self { base_min_fee, current_min_fee: base_min_fee, max_bump_percent, last_update: now }
    }

    /// Whether an update at time `now` takes effect: the maximum is not
    /// zero and the last change is at least 10 seconds old.
    pub open spec fn update_applies(&self, max_size: usize, now: u64) -> bool {
        max_size != 0 && now - self.last_update_time() >= 10
    }

    /// The threshold after an update that takes effect: above 75%
    /// utilisation the base fee plus the bump, below 25% half way back to
    /// the base fee, otherwise unchanged.
    pub open spec fn threshold_after(&self, current_size: usize, max_size: usize) -> u64 {
        if 4 * current_size > 3 * max_size {
            self.base_fee().saturating_add(fee_bump(self.base_fee(), self.bump_percent(), current_size, max_size))
        } else if 4 * current_size < max_size {
            (self.threshold() - (self.threshold().saturating_sub(self.base_fee()) / 2)) as u64
        } else {
            self.threshold()
        }
    }

    /// Updates the threshold for the pool's utilisation at time `now`.
    pub fn update_threshold_at(&mut self, current_size: usize, max_size: usize, now: u64)
        ensures
            final(self).base_fee() == old(self).base_fee(),
            final(self).bump_percent() == old(self).bump_percent(),
            old(self).update_applies(max_size, now) ==> final(self).threshold() == old(self).threshold_after(current_size, max_size)
                && final(self).last_update_time() == now,
            !old(self).update_applies(max_size, now) ==> final(self).threshold() == old(self).threshold()
                && final(self).last_update_time() == old(self).last_update_time(),
    {
        if max_size == 0 {
            return;
        }
        if now.saturating_sub(self.last_update) < 10 {
            return;
        }
        self.last_update = now;
        let c = current_size as u128;
        let m = max_size as u128;
        if 4 * c > 3 * m {
            let bump = Self::bump(self.base_min_fee, self.max_bump_percent, current_size, max_size);
            self.current_min_fee = self.base_min_fee.saturating_add(bump);
        } else if 4 * c < m {
            let reduction = self.current_min_fee.saturating_sub(self.base_min_fee) / 2;
            self.current_min_fee = self.current_min_fee.saturating_sub(reduction);
        }
    }

    fn bump(base: u64, percent: u64, current_size: usize, max_size: usize) -> (b: u64)
        requires
            max_size > 0,
        ensures
            b == fee_bump(base, percent, current_size, max_size),
    {
        let bw = base as u128;
        let pw = percent as u128;
        assert(bw * pw <= u128::MAX) by (nonlinear_arith)
            requires
                bw <= u64::MAX,
                pw <= u64::MAX,
        ;
        let q: u128 = bw * pw;
        match q.checked_mul(current_size as u128) {
            None => u64::MAX,
            Some(n) => {
                let d: u128 = 100 * (max_size as u128);
                assert(n / d < u128::MAX) by (nonlinear_arith)
                    requires
                        d >= 100,
                        n <= u128::MAX,
                ;
                let c: u128 = n / d + if n % d == 0 { 0 } else { 1 };
                proof {
                    let ni = n as int;
                    let di = d as int;
                    assert(c == (ni + di - 1) / di) by (nonlinear_arith)
                        requires
                            di > 0,
                            ni >= 0,
                            c == ni / di + if ni % di == 0 { 0int } else { 1int },
                    {
                        assert(ni == di * (ni / di) + ni % di);
                    }
                }
                if c > (u64::MAX as u128) {
                    u64::MAX
                } else {
                    c as u64
                }
            },
        }
    }

    /// Updates the threshold for the pool's utilisation now.
    pub fn update_threshold(&mut self, current_size: usize, max_size: usize)
        ensures
            final(self).base_fee() == old(self).base_fee(),
            final(self).bump_percent() == old(self).bump_percent(),
            exists|now: u64| #![trigger old(self).update_applies(max_size, now)]
                (old(self).update_applies(max_size, now) ==> final(self).threshold() == old(self).threshold_after(current_size, max_size)
                    && final(self).last_update_time() == now)
                && (!old(self).update_applies(max_size, now) ==> final(self).threshold() == old(self).threshold()
                    && final(self).last_update_time() == old(self).last_update_time()),
            max_size == 0 ==> final(self).threshold() == old(self).threshold()
                && final(self).last_update_time() == old(self).last_update_time(),
    {
        let now = clock_unix_secs();
        self.update_threshold_at(current_size, max_size, now);
        assert(old(self).update_applies(max_size, now) || !old(self).update_applies(max_size, now));
    }

    pub fn current_threshold(&self) -> (t: u64)
        ensures
            t == self.threshold(),
    {
        self.current_min_fee
    }

    /// Whether `fee_rate` meets the threshold.
    pub fn accepts_fee(&self, fee_rate: u64) -> (b: bool)
        ensures
            b == (fee_rate >= self.threshold()),
    {
        fee_rate >= self.current_min_fee
    }

    /// Sets the base fee and raises the threshold to it if below.
    pub fn set_base_fee(&mut self, base_fee: u64)
        ensures
            final(self).base_fee() == base_fee,
            final(self).threshold() == if old(self).threshold() < base_fee { base_fee } else { old(self).threshold() },
            final(self).bump_percent() == old(self).bump_percent(),
            final(self).last_update_time() == old(self).last_update_time(),
    {
        self.base_min_fee = base_fee;
        if self.current_min_fee < base_fee {
            self.current_min_fee = base_fee;
        }
    }

    /// Makes the next update take effect, whatever the time.
    pub fn force_update_timestamp(&mut self)
        ensures
            final(self).last_update_time() == 0,
            final(self).base_fee() == old(self).base_fee(),
            final(self).threshold() == old(self).threshold(),
            final(self).bump_percent() == old(self).bump_percent(),
    {
        self.last_update = 0;
    }
}


/// The fee filter's threshold never falls below its base fee: a new filter
/// starts at it, setting the base fee raises the threshold to it, and an
/// update from a threshold at or above the base stays at or above it.
pub proof fn lemma_threshold_at_least_base(f: FeeFilter, current_size: usize, max_size: usize)
    requires
        f.threshold() >= f.base_fee(),
    ensures
        f.threshold_after(current_size, max_size) >= f.base_fee(),
{
}

/// `(n + d - 1) / d` is `n / d` rounded up: it covers `n`, and one less
/// does not.
proof fn lemma_ceil_div(n: int, d: int)
    requires
        n >= 0,
        d > 0,
    ensures
        ((n + d - 1) / d) * d >= n,
        (n + d - 1) / d >= 1 ==> ((n + d - 1) / d - 1) * d < n,
        n > 0 ==> (n + d - 1) / d >= 1,
        (n + d - 1) / d >= 0,
{
    let c = (n + d - 1) / d;
    let r = (n + d - 1) % d;
    vstd::arithmetic::div_mod::lemma_fundamental_div_mod(n + d - 1, d);
    assert(0 <= r < d);
    assert(c * d + r == n + d - 1);
    assert(c >= 0) by (nonlinear_arith)
        requires n + d - 1 >= 0, d > 0, c == (n + d - 1) / d,
    ;
    assert((c - 1) * d == c * d - d) by (nonlinear_arith);
    if n > 0 && c == 0 {
        assert(c * d == 0) by (nonlinear_arith) requires c == 0;
        assert(false);
    }
}

/// A filling pool raises the minimum fee. When an update takes effect and
/// more than three quarters of `max_size` is used, the new threshold is the
/// base fee plus the bump `base * percent * current_size / (100 * max_size)`
/// rounded up, capped at `u64::MAX`: it is never below the base, the bump
/// covers that amount unless the threshold is at `u64::MAX`, it is not a
/// whole step more than that amount (when the product fits in 128 bits), and
/// it is above the base whenever base, percent and size are positive and the
/// base is below `u64::MAX`.
pub proof fn lemma_full_pool_raises_threshold(f: FeeFilter, g: FeeFilter, current_size: usize, max_size: usize, now: u64)
    requires
        f.update_applies(max_size, now) ==> g.threshold() == f.threshold_after(current_size, max_size),
        g.base_fee() == f.base_fee(),
        f.update_applies(max_size, now),
        4 * current_size > 3 * max_size,
    ensures
        ({
            let b = f.base_fee() as int;
            let t = g.threshold() as int;
            let n = f.base_fee() * f.bump_percent() * current_size;
            let d = 100 * max_size;
            &&& t >= b
            &&& t == u64::MAX || (t - b) * d >= n
            &&& n <= u128::MAX ==> (t == b || (t - b - 1) * d < n)
            &&& (f.base_fee() > 0 && f.bump_percent() > 0 && current_size > 0 && f.base_fee() < u64::MAX) ==> t > b
        }),
{
    let b = f.base_fee() as int;
    let p = f.bump_percent() as int;
    let n = f.base_fee() * f.bump_percent() * current_size;
    let d = 100 * max_size;
    let fb = fee_bump(f.base_fee(), f.bump_percent(), current_size, max_size) as int;
    let t = g.threshold() as int;
    assert(d > 0);
    assert(n >= 0) by (nonlinear_arith)
        requires n == f.base_fee() * f.bump_percent() * current_size,
    ;
    assert(t == if b + fb > u64::MAX { u64::MAX as int } else { b + fb });
    if f.base_fee() > 0 && f.bump_percent() > 0 && current_size > 0 {
        assert(n > 0) by (nonlinear_arith)
            requires n == f.base_fee() * f.bump_percent() * current_size, f.base_fee() > 0, f.bump_percent() > 0,
                current_size > 0,
        ;
    }
    if n <= u128::MAX {
        lemma_ceil_div(n, d as int);
        let c = (n + d - 1) / d;
        assert(fb == if c > u64::MAX { u64::MAX as int } else { c });
        if b + fb <= u64::MAX {
            if fb == c {
                assert((t - b) * d >= n);
            } else {
                assert(b == 0 && t == u64::MAX);
                assert((t - b - 1) <= c - 1);
                assert((t - b - 1) * d <= (c - 1) * d) by (nonlinear_arith)
                    requires t - b - 1 <= c - 1, d > 0,
                ;
            }
        } else {
            if t != b {
                assert(t - b - 1 <= c - 1);
                assert((t - b - 1) * d <= (c - 1) * d) by (nonlinear_arith)
                    requires t - b - 1 <= c - 1, d > 0, t - b - 1 >= 0,
                ;
            }
        }
    } else {
        assert(fb == u64::MAX);
    }
}

/// An emptying pool relaxes the minimum fee, and an update that does not
/// take effect changes nothing. When an update takes effect with less than
/// a quarter of `max_size` used, a threshold at or above the base moves half
/// way back to it (the remaining gap is the old gap halved, rounded up);
/// between a quarter and three quarters it stays; when the update does not
/// take effect it stays.
pub proof fn lemma_threshold_relaxes(f: FeeFilter, g: FeeFilter, current_size: usize, max_size: usize, now: u64)
    requires
        f.update_applies(max_size, now) ==> g.threshold() == f.threshold_after(current_size, max_size),
        !f.update_applies(max_size, now) ==> g.threshold() == f.threshold(),
        f.threshold() >= f.base_fee(),
    ensures
        ({
            let b = f.base_fee() as int;
            let t0 = f.threshold() as int;
            let t = g.threshold() as int;
            &&& !f.update_applies(max_size, now) ==> t == t0
            &&& (f.update_applies(max_size, now) && 4 * current_size < max_size)
                ==> b <= t <= t0 && 2 * (t - b) >= t0 - b && 2 * (t - b) <= t0 - b + 1
            &&& (f.update_applies(max_size, now) && max_size <= 4 * current_size && 4 * current_size <= 3 * max_size)
                ==> t == t0
        }),
{
}

/// Views of a list of transactions.
pub open spec fn views_of(s: Seq<Transaction>) -> Seq<TransactionView> {
    s.map_values(|t: Transaction| t@)
}

/// The estimated encoded size: 100 per input, 50 per output and 200.
pub open spec fn estimated_size(t: TransactionView) -> int {
    t.inputs.len() * 100 + t.outputs.len() * 50 + 200int
}

/// The fee cap over the estimated size.
pub open spec fn canonical_fee_rate(t: TransactionView) -> int {
    (t.max_fee_per_gas as int) / estimated_size(t)
}

/// `a` goes before `b` in a block: a higher fee rate, then fewer inputs,
/// then the smaller identifier.
pub open spec fn canonical_before(a: TransactionView, b: TransactionView) -> bool {
    ||| canonical_fee_rate(a) > canonical_fee_rate(b)
    ||| canonical_fee_rate(a) == canonical_fee_rate(b) && a.inputs.len() < b.inputs.len()
    ||| canonical_fee_rate(a) == canonical_fee_rate(b) && a.inputs.len() == b.inputs.len() && seq_lt(a.id.bytes@, b.id.bytes@)
}

/// The first position at or after `i` whose element goes after `t`.
pub open spec fn canonical_pos(s: Seq<TransactionView>, t: TransactionView, i: int) -> int
    decreases s.len() - i,
{
    if i < 0 || i >= s.len() {
        s.len() as int
    } else if canonical_before(t, s[i]) {
        i
    } else {
        canonical_pos(s, t, i + 1)
    }
}

/// The stable canonical sort: each element in turn placed after those that
/// do not go after it.
pub open spec fn canonical_sort(s: Seq<TransactionView>) -> Seq<TransactionView>
    decreases s.len(),
{
    if s.len() == 0 {
        Seq::empty()
    } else {
        let r = canonical_sort(s.drop_last());
        r.insert(canonical_pos(r, s.last(), 0), s.last())
    }
}

proof fn lemma_canonical_pos(s: Seq<TransactionView>, t: TransactionView, i: int, p: int)
    requires
        0 <= i <= p <= s.len(),
        forall|j: int| i <= j < p ==> !canonical_before(t, #[trigger] s[j]),
        p < s.len() ==> canonical_before(t, s[p]),
    ensures
        canonical_pos(s, t, i) == p,
    decreases p - i,
{
    if i < p {
        lemma_canonical_pos(s, t, i + 1, p);
    }
}

proof fn lemma_canonical_pos_range(s: Seq<TransactionView>, t: TransactionView, i: int)
    requires
        0 <= i <= s.len(),
    ensures
        i <= canonical_pos(s, t, i) <= s.len(),
    decreases s.len() - i,
{
    if i < s.len() && !canonical_before(t, s[i]) {
        lemma_canonical_pos_range(s, t, i + 1);
    }
}

proof fn lemma_canonical_sort_len(s: Seq<TransactionView>)
    ensures
        canonical_sort(s).len() == s.len(),
    decreases s.len(),
{
    if s.len() > 0 {
        lemma_canonical_sort_len(s.drop_last());
        lemma_canonical_pos_range(canonical_sort(s.drop_last()), s.last(), 0);
    }
}

/// Every transaction's estimated size fits in `usize`.
pub open spec fn sizes_fit(s: Seq<TransactionView>) -> bool {
    forall|i: int| 0 <= i < s.len() ==> estimated_size(#[trigger] s[i]) <= usize::MAX
}

proof fn lemma_canonical_before_order(a: TransactionView, b: TransactionView, c: TransactionView)
    ensures
        !canonical_before(a, a),
        canonical_before(a, b) ==> !canonical_before(b, a),
        canonical_before(a, b) && canonical_before(b, c) ==> canonical_before(a, c),
{
    lemma_seq_lt_total(a.id.bytes@, a.id.bytes@);
    lemma_seq_lt_total(a.id.bytes@, b.id.bytes@);
    if canonical_before(a, b) && canonical_before(b, c) {
        if canonical_fee_rate(a) == canonical_fee_rate(b) && canonical_fee_rate(b) == canonical_fee_rate(c)
            && a.inputs.len() == b.inputs.len() && b.inputs.len() == c.inputs.len() {
            lemma_seq_lt_transitive(a.id.bytes@, b.id.bytes@, c.id.bytes@);
        }
    }
}

/// In the canonical order no transaction goes after one that it should
/// precede: for any two positions, the later one does not have a higher
/// fee rate, or the same fee rate and fewer inputs, or both equal and the
/// smaller identifier.
pub proof fn lemma_canonical_sort_sorted(s: Seq<TransactionView>)
    ensures
        forall|i: int, j: int| 0 <= i < j < canonical_sort(s).len()
            ==> !canonical_before(#[trigger] canonical_sort(s)[j], #[trigger] canonical_sort(s)[i]),
    decreases s.len(),
{
    if s.len() > 0 {
        let r = canonical_sort(s.drop_last());
        let t = s.last();
        lemma_canonical_sort_sorted(s.drop_last());
        lemma_canonical_pos_range(r, t, 0);
        let p = canonical_pos(r, t, 0);
        lemma_canonical_pos_facts(r, t, 0);
        let q = canonical_sort(s);
        assert(q == r.insert(p, t));
        assert forall|i: int, j: int| 0 <= i < j < q.len() implies !canonical_before(#[trigger] q[j], #[trigger] q[i]) by {
            if j < p {
                assert(q[i] == r[i] && q[j] == r[j]);
            } else if j == p {
                assert(q[i] == r[i] && q[j] == t);
            } else if i > p {
                assert(q[i] == r[i - 1] && q[j] == r[j - 1]);
            } else if i == p {
                assert(q[i] == t && q[j] == r[j - 1]);
                assert(canonical_before(t, r[p]));
                lemma_canonical_before_order(r[j - 1], t, r[p]);
                lemma_canonical_before_order(t, r[p], r[p]);
                if j - 1 > p {
                    assert(!canonical_before(r[j - 1], r[p]));
                }
            } else {
                assert(q[i] == r[i] && q[j] == r[j - 1]);
            }
        }
    }
}

proof fn lemma_canonical_pos_facts(s: Seq<TransactionView>, t: TransactionView, i: int)
    requires
        0 <= i <= s.len(),
    ensures
        forall|j: int| i <= j < canonical_pos(s, t, i) ==> !canonical_before(t, #[trigger] s[j]),
        canonical_pos(s, t, i) < s.len() ==> canonical_before(t, s[canonical_pos(s, t, i)]),
    decreases s.len() - i,
{
    if i < s.len() && !canonical_before(t, s[i]) {
        lemma_canonical_pos_facts(s, t, i + 1);
    }
}

/// The sort places each element of `s` and nothing else.
pub proof fn lemma_canonical_sort_permutes(s: Seq<TransactionView>)
    ensures
        canonical_sort(s).to_multiset() == s.to_multiset(),
        canonical_sort(s).len() == s.len(),
        sizes_fit(s) ==> sizes_fit(canonical_sort(s)),
    decreases s.len(),
{
    lemma_canonical_sort_len(s);
    if s.len() == 0 {
        assert(s =~= Seq::<TransactionView>::empty());
        assert(canonical_sort(s) =~= Seq::<TransactionView>::empty());
    } else {
        let prev = s.drop_last();
        lemma_canonical_sort_permutes(prev);
        let r = canonical_sort(prev);
        lemma_canonical_pos_range(r, s.last(), 0);
        let p = canonical_pos(r, s.last(), 0);
        vstd::seq_lib::to_multiset_insert(r, p, s.last());
        assert(s =~= prev.push(s.last()));
        assert(s.to_multiset() == prev.to_multiset().insert(s.last())) by {
            prev.to_multiset_ensures();
        }
        if sizes_fit(s) {
            assert forall|i: int| 0 <= i < canonical_sort(s).len() implies estimated_size(#[trigger] canonical_sort(s)[i]) <= usize::MAX by {
                let c = canonical_sort(s);
                if i < p {
                    assert(c[i] == r[i]);
                } else if i > p {
                    assert(c[i] == r[i - 1]);
                } else {
                    assert(c[i] == s[s.len() - 1]);
                }
                assert forall|j: int| 0 <= j < prev.len() implies estimated_size(#[trigger] prev[j]) <= usize::MAX by {
                    assert(prev[j] == s[j]);
                }
            }
        }
    }
}

/// The estimated encoded size of `tx`.
fn estimate_serialized_size(tx: &Transaction) -> (n: usize)
    requires
        estimated_size(tx@) <= usize::MAX,
    ensures
        n == estimated_size(tx@),
{
    tx.inputs.len() * 100 + tx.outputs.len() * 50 + 200
}

/// Whether `a` goes before `b` in the canonical order.
fn canonical_goes_before(a: &Transaction, b: &Transaction) -> (r: bool)
    requires
        estimated_size(a@) <= usize::MAX,
        estimated_size(b@) <= usize::MAX,
    ensures
        r == canonical_before(a@, b@),
{
    let ra = a.max_fee_per_gas / (estimate_serialized_size(a) as u64);
    let rb = b.max_fee_per_gas / (estimate_serialized_size(b) as u64);
    if ra != rb {
        ra > rb
    } else if a.inputs.len() != b.inputs.len() {
        a.inputs.len() < b.inputs.len()
    } else {
        bytes_lt(a.id.bytes.as_slice(), b.id.bytes.as_slice())
    }
}

/// Sorts transactions for block building.
pub struct CanonicalOrderingEngine;

impl CanonicalOrderingEngine {
    /// Sorts by fee rate (highest first), then number of inputs (fewest
    /// first), then identifier (smallest first), keeping the order of
    /// transactions that compare equal.
    pub fn apply_canonical_sort(txs: &mut Vec<Transaction>)
        requires
            sizes_fit(views_of(old(txs)@)),
        ensures
            views_of(final(txs)@) == canonical_sort(views_of(old(txs)@)),
    {
        let ghost orig = views_of(txs@);
        let mut input: Vec<Transaction> = Vec::new();
        std::mem::swap(&mut input, txs);
        let mut k: usize = 0;
        let n0 = input.len();
        proof {
            assert(views_of(txs@) =~= canonical_sort(orig.take(0)));
            assert(views_of(input@) =~= orig.skip(0));
            assert(orig.len() == n0);
        }
        while input.len() > 0
            invariant
                sizes_fit(orig),
                orig.len() <= usize::MAX,
                k + input@.len() == orig.len(),
                views_of(input@) == orig.skip(k as int),
                views_of(txs@) == canonical_sort(orig.take(k as int)),
            decreases input@.len(),
        {
            let ghost before_in = input@;
            let t = input.remove(0);
            let ghost tv = t@;
            let ghost sorted = views_of(txs@);
            proof {
                assert(t == before_in[0]);
                assert(views_of(before_in)[0] == orig.skip(k as int)[0]);
                assert(tv == orig[k as int]);
                assert forall|j: int| 0 <= j < orig.take(k as int).len() implies estimated_size(#[trigger] orig.take(k as int)[j]) <= usize::MAX by {
                    assert(orig.take(k as int)[j] == orig[j]);
                }
                lemma_canonical_sort_permutes(orig.take(k as int));
                assert(orig.take(k + 1).drop_last() =~= orig.take(k as int));
                assert(orig.take(k + 1).last() == tv);
                lemma_canonical_sort_len(orig.take(k as int));
            }
            let mut p: usize = 0;
            while p < txs.len()
                invariant
                    sizes_fit(orig),
                    estimated_size(tv) <= usize::MAX,
                    t@ == tv,
                    sorted == views_of(txs@),
                    sorted == canonical_sort(orig.take(k as int)),
                    sizes_fit(sorted),
                    p <= sorted.len(),
                    forall|j: int| 0 <= j < p ==> !canonical_before(tv, #[trigger] sorted[j]),
                ensures
                    p <= sorted.len(),
                    forall|j: int| 0 <= j < p ==> !canonical_before(tv, #[trigger] sorted[j]),
                    p < sorted.len() ==> canonical_before(tv, sorted[p as int]),
                decreases sorted.len() - p,
            {
                proof {
                    assert(txs@[p as int]@ == sorted[p as int]);
                }
                if canonical_goes_before(&t, &txs[p]) {
                    break;
                }
                p = p + 1;
            }
            proof {
                lemma_canonical_pos(sorted, tv, 0, p as int);
            }
            txs.insert(p, t);
            k = k + 1;
            proof {
                assert(views_of(txs@) =~= sorted.insert(p as int, tv));
                assert(input@ =~= before_in.subrange(1, before_in.len() as int));
                assert(views_of(before_in) == orig.skip(k - 1));
                assert(views_of(input@) =~= views_of(before_in).subrange(1, before_in.len() as int));
                assert(views_of(input@) =~= orig.skip(k as int));
            }
        }
        proof {
            assert(orig.take(k as int) =~= orig);
        }
    }
}

/// The outpoint an input spends: the raw bytes of the spent transaction's
/// hash and the output's position.
pub open spec fn input_key(i: TxInputView) -> (Seq<u8>, u32) {
    (i.prev_tx.bytes@, i.index)
}

/// No input of `t` spends an outpoint of `spent`.
pub open spec fn inputs_unspent(t: TransactionView, spent: Set<(Seq<u8>, u32)>) -> bool {
    forall|j: int| 0 <= j < t.inputs.len() ==> !spent.contains(input_key(#[trigger] t.inputs[j]))
}

/// Every input of `t` spends an outpoint of `available`.
pub open spec fn inputs_available(t: TransactionView, available: Set<(Seq<u8>, u32)>) -> bool {
    forall|j: int| 0 <= j < t.inputs.len() ==> available.contains(input_key(#[trigger] t.inputs[j]))
}

/// The outpoints that `t` creates.
pub open spec fn outputs_of(t: TransactionView) -> Set<(Seq<u8>, u32)> {
    Set::new(|k: (Seq<u8>, u32)| k.0 == t.id.bytes@ && (k.1 as int) < t.outputs.len())
}

/// Selection state: the picked transactions, their total size, the
/// outpoints they created, and whether the block is full.
pub open spec fn select_step(
    st: (Seq<TransactionView>, int, Set<(Seq<u8>, u32)>, bool),
    t: TransactionView,
    available: Set<(Seq<u8>, u32)>,
    max_block_size: int,
) -> (Seq<TransactionView>, int, Set<(Seq<u8>, u32)>, bool) {
    if st.3 || !inputs_unspent(t, st.2) || !inputs_available(t, available) {
        st
    } else if st.1 + estimated_size(t) > max_block_size {
        (st.0, st.1, st.2, true)
    } else {
        (st.0.push(t), st.1 + estimated_size(t), st.2 + outputs_of(t), false)
    }
}

/// The selection over the candidates in order.
pub open spec fn select_fold(
    cands: Seq<TransactionView>,
    available: Set<(Seq<u8>, u32)>,
    max_block_size: int,
) -> (Seq<TransactionView>, int, Set<(Seq<u8>, u32)>, bool)
    decreases cands.len(),
{
    if cands.len() == 0 {
        (Seq::empty(), 0, Set::empty(), false)
    } else {
        select_step(select_fold(cands.drop_last(), available, max_block_size), cands.last(), available, max_block_size)
    }
}

/// What a snapshot's map holds: its (hash, transaction) pairs, in the
/// map's order.
pub uninterp spec fn snapshot_pairs(m: IndexMap<Vec<u8>, Transaction>) -> Seq<(Seq<u8>, TransactionView)>;

/// No pairs.
pub open spec fn no_pairs() -> Seq<(Seq<u8>, TransactionView)> {
    Seq::empty()
}

/// The hashes of the pairs, in order.
pub open spec fn pair_keys(s: Seq<(Seq<u8>, TransactionView)>) -> Seq<Seq<u8>> {
    s.map_values(|p: (Seq<u8>, TransactionView)| p.0)
}

/// The pairs after `k` is set to `v`: a held key keeps its place and takes
/// the new value, a new key goes last.
pub open spec fn pairs_after_insert(s: Seq<(Seq<u8>, TransactionView)>, k: Seq<u8>, v: TransactionView)
    -> Seq<(Seq<u8>, TransactionView)> {
    if pair_keys(s).contains(k) {
        s.update(pair_keys(s).index_of(k), (k, v))
    } else {
        s.push((k, v))
    }
}

/// Calls `IndexMap::new`.
#[verifier::external_body]
fn snapshot_map_new() -> (m: IndexMap<Vec<u8>, Transaction>)
    ensures
        snapshot_pairs(m) == no_pairs(),
{
    IndexMap::new()
}

/// Calls `IndexMap::insert`: a key already held keeps its place and takes
/// the new value; a new key goes after the others.
#[verifier::external_body]
fn snapshot_map_insert(m: &mut IndexMap<Vec<u8>, Transaction>, k: Vec<u8>, v: Transaction)
    ensures
        snapshot_pairs(*final(m)) == pairs_after_insert(snapshot_pairs(*old(m)), k@, v@),
{
    m.insert(k, v);
}

/// Calls `IndexMap::get`: the value under the first pair with key `k`.
#[verifier::external_body]
fn snapshot_map_get<'a>(m: &'a IndexMap<Vec<u8>, Transaction>, k: &[u8]) -> (r: Option<&'a Transaction>)
    ensures
        r is Some <==> pair_keys(snapshot_pairs(*m)).contains(k@),
        r matches Some(t) ==> t@ == snapshot_pairs(*m)[pair_keys(snapshot_pairs(*m)).index_of(k@)].1,
{
    m.get(k)
}

/// Calls `IndexMap::contains_key`.
#[verifier::external_body]
fn snapshot_map_contains(m: &IndexMap<Vec<u8>, Transaction>, k: &[u8]) -> (b: bool)
    ensures
        b == pair_keys(snapshot_pairs(*m)).contains(k@),
{
    m.contains_key(k)
}

/// Calls `IndexMap::values` and clones each transaction, in the map's order.
#[verifier::external_body]
fn snapshot_map_values(m: &IndexMap<Vec<u8>, Transaction>) -> (r: Vec<Transaction>)
    ensures
        views_of(r@) == snapshot_pairs(*m).map_values(|p: (Seq<u8>, TransactionView)| p.1),
{
    m.values().cloned().collect()
}

proof fn lemma_pairs_after_insert(s: Seq<(Seq<u8>, TransactionView)>, k: Seq<u8>, v: TransactionView)
    requires
        pair_keys(s).no_duplicates(),
    ensures
        pair_keys(pairs_after_insert(s, k, v)).no_duplicates(),
        pair_keys(pairs_after_insert(s, k, v)).to_set() == pair_keys(s).to_set().insert(k),
{
    let t = pairs_after_insert(s, k, v);
    if pair_keys(s).contains(k) {
        let i = pair_keys(s).index_of(k);
        assert(pair_keys(t) =~= pair_keys(s));
    } else {
        assert(pair_keys(t) =~= pair_keys(s).push(k));
        pair_keys(s).lemma_push_to_set_commute(k);
    }
}

/// A frozen copy of the pool's transactions at a block height.
pub struct MempoolSnapshot {
    block_height: u64,
    transactions: IndexMap<Vec<u8>, Transaction>,
}

impl MempoolSnapshot {
    pub closed spec fn height(&self) -> u64 {
        self.block_height
    }

    /// The transactions by hash.
    pub closed spec fn transaction_map(&self) -> Map<Seq<u8>, TransactionView> {
        let s = snapshot_pairs(self.transactions);
        Map::new(|k: Seq<u8>| pair_keys(s).contains(k), |k: Seq<u8>| s[pair_keys(s).index_of(k)].1)
    }

    /// The transactions in the order they were taken in.
    pub closed spec fn all_views(&self) -> Seq<TransactionView> {
        snapshot_pairs(self.transactions).map_values(|p: (Seq<u8>, TransactionView)| p.1)
    }

    pub closed spec fn wf(&self) -> bool {
        &&& pair_keys(snapshot_pairs(self.transactions)).no_duplicates()
        &&& self.all_views().to_set() == self.transaction_map().values()
    }

    /// A snapshot of the entries at `block_height`, each under the
    /// encoding of its identifier; a later entry with the same identifier
    /// replaces the earlier one in its place.
    pub fn new(entries: &Vec<PoolEntry>, block_height: u64) -> (s: Self)
        ensures
            s.wf(),
            s.height() == block_height,
            forall|k: Seq<u8>| #[trigger] s.transaction_map().contains_key(k)
                <==> exists|i: int| 0 <= i < entries@.len() && hash_key_spec(#[trigger] entries@[i].transaction.id) == k,
    {
        let mut transactions = snapshot_map_new();
        proof {
            assert(pair_keys(snapshot_pairs(transactions)) =~= Seq::<Seq<u8>>::empty());
        }
        let mut i: usize = 0;
        while i < entries.len()
            invariant
                i <= entries@.len(),
                pair_keys(snapshot_pairs(transactions)).no_duplicates(),
                forall|k: Seq<u8>| #[trigger] pair_keys(snapshot_pairs(transactions)).contains(k)
                    <==> exists|j: int| 0 <= j < i && hash_key_spec(#[trigger] entries@[j].transaction.id) == k,
            decreases entries@.len() - i,
        {
            let ghost s0 = snapshot_pairs(transactions);
            let key = hash_key(&entries[i].transaction.id);
            let ghost kv = key@;
            let tx = entries[i].transaction.duplicate();
            let ghost tv = tx@;
            snapshot_map_insert(&mut transactions, key, tx);
            proof {
                lemma_pairs_after_insert(s0, kv, tv);
                let ks = pair_keys(snapshot_pairs(transactions));
                assert forall|k: Seq<u8>| #[trigger] ks.contains(k)
                    <==> exists|j: int| 0 <= j < i + 1 && hash_key_spec(#[trigger] entries@[j].transaction.id) == k by {
                    assert(ks.contains(k) <==> ks.to_set().contains(k));
                    assert(pair_keys(s0).contains(k) <==> pair_keys(s0).to_set().contains(k));
                    if k == kv {
                        assert(hash_key_spec(entries@[i as int].transaction.id) == k);
                    } else if exists|j: int| 0 <= j < i + 1 && hash_key_spec(#[trigger] entries@[j].transaction.id) == k {
                        let j = choose|j: int| 0 <= j < i + 1 && hash_key_spec(#[trigger] entries@[j].transaction.id) == k;
                        assert(j < i);
                    }
                }
            }
            i = i + 1;
        }
        let s = Self { block_height, transactions };
        proof {
            let ps = snapshot_pairs(s.transactions);
            let ks = pair_keys(ps);
            assert forall|t: TransactionView| s.all_views().to_set().contains(t) <==> s.transaction_map().values().contains(t) by {
                if s.all_views().contains(t) {
                    let j = s.all_views().index_of(t);
                    assert(ks[j] == ps[j].0);
                    assert(ks.contains(ks[j]));
                    assert(ks.index_of(ks[j]) == j);
                    assert(s.transaction_map().contains_key(ks[j]));
                    assert(s.transaction_map()[ks[j]] == t);
                }
                if s.transaction_map().values().contains(t) {
                    let k = choose|k: Seq<u8>| #[trigger] s.transaction_map().contains_key(k) && s.transaction_map()[k] == t;
                    let j = ks.index_of(k);
                    assert(s.all_views()[j] == t);
                }
            }
            assert(s.all_views().to_set() =~= s.transaction_map().values());
            assert forall|k: Seq<u8>| #[trigger] s.transaction_map().contains_key(k)
                <==> exists|i: int| 0 <= i < entries@.len() && hash_key_spec(#[trigger] entries@[i].transaction.id) == k by {
                assert(s.transaction_map().contains_key(k) == ks.contains(k));
            }
        }
        s
    }

    /// The transaction under `tx_hash`.
    pub fn get_transaction(&self, tx_hash: &[u8]) -> (r: Option<&Transaction>)
        requires
            self.wf(),
        ensures
            r is Some <==> self.transaction_map().contains_key(tx_hash@),
            r matches Some(t) ==> t@ == self.transaction_map()[tx_hash@],
    {
        snapshot_map_get(&self.transactions, tx_hash)
    }

    /// Copies of all transactions, in the order they were taken in.
    pub fn get_all_transactions(&self) -> (r: Vec<Transaction>)
        requires
            self.wf(),
        ensures
            views_of(r@) == self.all_views(),
    {
        snapshot_map_values(&self.transactions)
    }

    pub fn block_height(&self) -> (h: u64)
        ensures
            h == self.height(),
    {
        self.block_height
    }

    pub fn contains(&self, tx_hash: &[u8]) -> (b: bool)
        requires
            self.wf(),
        ensures
            b == self.transaction_map().contains_key(tx_hash@),
    {
        snapshot_map_contains(&self.transactions, tx_hash)
    }
}

/// Picks a conflict-free block candidate against the store's unspent
/// outputs.
pub struct SelectionEngine {
    /// The outputs the store holds as unspent
    available: KeySet<OutPoint>,
}

impl SelectionEngine {
    pub closed spec fn available_set(&self) -> Set<(Seq<u8>, u32)> {
        self.available@
    }

    pub closed spec fn wf(&self) -> bool {
        self.available.wf()
    }

    /// An engine that checks inputs against the unspent outputs
    /// `available`.
    pub fn new(available: KeySet<OutPoint>) -> (e: Self)
        requires
            available.wf(),
        ensures
            e.wf(),
            e.available_set() == available@,
    {
        Self { available }
    }

    /// The snapshot's transactions in canonical order, keeping each whose
    /// inputs are neither created by an earlier pick nor missing from the
    /// store, until the next would exceed `max_block_size`.
    pub fn select_transactions(&self, snapshot: &MempoolSnapshot, max_block_size: usize) -> (r: Result<Vec<Transaction>, String>)
        requires
            self.wf(),
            snapshot.wf(),
            sizes_fit(snapshot.all_views()),
            forall|i: int| 0 <= i < snapshot.all_views().len() ==> (#[trigger] snapshot.all_views()[i]).outputs.len() <= u32::MAX,
        ensures
            r is Ok,
            views_of(r->Ok_0@) == select_fold(canonical_sort(snapshot.all_views()), self.available_set(), max_block_size as int).0,
    {
        let mut candidates = snapshot.get_all_transactions();
        proof {
            lemma_canonical_sort_permutes(snapshot.all_views());
        }
        CanonicalOrderingEngine::apply_canonical_sort(&mut candidates);
        let ghost cands = views_of(candidates@);
        proof {
            assert forall|i: int| 0 <= i < cands.len() implies (#[trigger] cands[i]).outputs.len() <= u32::MAX by {
                cands.to_multiset_ensures();
                assert(cands.contains(cands[i]));
                assert(cands.to_multiset().count(cands[i]) > 0);
                assert(snapshot.all_views().to_multiset().count(cands[i]) > 0);
                snapshot.all_views().to_multiset_ensures();
                let j = snapshot.all_views().index_of(cands[i]);
                assert(snapshot.all_views()[j] == cands[i]);
            }
        }
        let mut selected: Vec<Transaction> = Vec::new();
        let mut spent: KeySet<OutPoint> = KeySet::new();
        let mut current_size: usize = 0;
        let mut i: usize = 0;
        proof {
            assert(cands.take(0) =~= Seq::<TransactionView>::empty());
            assert(views_of(selected@) =~= Seq::<TransactionView>::empty());
            if cands.len() == 0 {
                assert(cands.take(0) =~= cands);
            }
        }
        while i < candidates.len()
            invariant
                self.wf(),
                spent.wf(),
                cands == views_of(candidates@),
                sizes_fit(cands),
                forall|q: int| 0 <= q < cands.len() ==> (#[trigger] cands[q]).outputs.len() <= u32::MAX,
                i <= cands.len(),
                ({
                    let st = select_fold(cands.take(i as int), self.available_set(), max_block_size as int);
                    &&& !st.3
                    &&& views_of(selected@) == st.0
                    &&& current_size == st.1
                    &&& spent@ == st.2
                }),
                current_size <= max_block_size,
                i == cands.len() ==> cands.take(i as int) == cands,
            ensures
                views_of(selected@) == select_fold(cands, self.available_set(), max_block_size as int).0,
            decreases cands.len() - i,
        {
            let tx = &candidates[i];
            let ghost tv = cands[i as int];
            let ghost st = select_fold(cands.take(i as int), self.available_set(), max_block_size as int);
            proof {
                assert(tx@ == tv);
                assert(cands.take(i + 1).drop_last() =~= cands.take(i as int));
                assert(cands.take(i + 1).last() == tv);
            }
            let free = Self::is_conflict_free(tx, &spent);
            if free {
                let avail = self.check_utxo_availability(tx);
                if avail {
                    let tx_size = estimate_serialized_size(tx);
                    if (current_size as u128) + (tx_size as u128) > (max_block_size as u128) {
                        proof {
                            let st1 = select_step(st, tv, self.available_set(), max_block_size as int);
                            assert(st1.3);
                            lemma_select_fold_stopped(cands, self.available_set(), max_block_size as int, i + 1);
                            assert(cands.take(cands.len() as int) =~= cands);
                        }
                        break;
                    }
                    selected.push(tx.duplicate());
                    current_size = current_size + tx_size;
                    let mut o: usize = 0;
                    let ghost spent0 = spent@;
                    while o < tx.outputs.len()
                        invariant
                            spent.wf(),
                            tx@ == tv,
                            tv.outputs.len() <= u32::MAX,
                            o <= tv.outputs.len(),
                            spent@ == spent0 + Set::new(|k: (Seq<u8>, u32)| k.0 == tv.id.bytes@ && (k.1 as int) < o),
                        decreases tv.outputs.len() - o,
                    {
                        spent.insert(OutPoint::new(copy_bytes(tx.id.bytes.as_slice()), o as u32));
                        o = o + 1;
                        proof {
                            assert(spent@ =~= spent0 + Set::new(|k: (Seq<u8>, u32)| k.0 == tv.id.bytes@ && (k.1 as int) < o));
                        }
                    }
                    proof {
                        assert(spent@ =~= spent0 + outputs_of(tv));
                        assert(views_of(selected@) =~= st.0.push(tv));
                    }
                }
            }
            i = i + 1;
            proof {
                if i == cands.len() {
                    assert(cands.take(i as int) =~= cands);
                }
            }
        }
        Ok(selected)
    }

    /// Whether no input of `tx` spends an outpoint in `spent`.
    fn is_conflict_free(tx: &Transaction, spent: &KeySet<OutPoint>) -> (b: bool)
        requires
            spent.wf(),
        ensures
            b == inputs_unspent(tx@, spent@),
    {
        let mut j: usize = 0;
        while j < tx.inputs.len()
            invariant
                spent.wf(),
                j <= tx@.inputs.len(),
                forall|q: int| 0 <= q < j ==> !spent@.contains(input_key(#[trigger] tx@.inputs[q])),
            decreases tx@.inputs.len() - j,
        {
            let input = &tx.inputs[j];
            let key = OutPoint::new(copy_bytes(input.prev_tx.bytes.as_slice()), input.index);
            proof {
                assert(key@ == input_key(tx@.inputs[j as int]));
            }
            if spent.contains(&key) {
                return false;
            }
            j = j + 1;
        }
        true
    }

    /// Whether the store holds every input of `tx` as unspent.
    fn check_utxo_availability(&self, tx: &Transaction) -> (b: bool)
        requires
            self.wf(),
        ensures
            b == inputs_available(tx@, self.available_set()),
    {
        let mut j: usize = 0;
        while j < tx.inputs.len()
            invariant
                self.wf(),
                j <= tx@.inputs.len(),
                forall|q: int| 0 <= q < j ==> self.available_set().contains(input_key(#[trigger] tx@.inputs[q])),
            decreases tx@.inputs.len() - j,
        {
            let input = &tx.inputs[j];
            let key = OutPoint::new(copy_bytes(input.prev_tx.bytes.as_slice()), input.index);
            proof {
                assert(key@ == input_key(tx@.inputs[j as int]));
            }
            if !self.available.contains(&key) {
                return false;
            }
            j = j + 1;
        }
        true
    }
}

/// Once full, the selection takes nothing more.
proof fn lemma_select_fold_stopped(cands: Seq<TransactionView>, available: Set<(Seq<u8>, u32)>, max_block_size: int, i: int)
    requires
        0 <= i <= cands.len(),
        select_fold(cands.take(i), available, max_block_size).3,
    ensures
        select_fold(cands, available, max_block_size) == select_fold(cands.take(i), available, max_block_size),
    decreases cands.len() - i,
{
    if i < cands.len() {
        assert(cands.take(i + 1).drop_last() =~= cands.take(i));
        lemma_select_fold_stopped(cands, available, max_block_size, i + 1);
    } else {
        assert(cands.take(i) =~= cands);
    }
}

/// The strongest of the conflicting transactions: the highest fee rate,
/// then the smallest hash, the earliest listed on a full tie.
pub open spec fn strongest(s: Seq<(Seq<u8>, u64)>) -> (Seq<u8>, u64)
    decreases s.len(),
{
    if s.len() <= 1 {
        s[0]
    } else {
        let b = strongest(s.drop_last());
        let x = s.last();
        if x.1 > b.1 || (x.1 == b.1 && seq_lt(x.0, b.0)) { x } else { b }
    }
}

/// Whether a new transaction displaces the transactions it conflicts with,
/// given each as its hash and effective fee rate: it does when there are
/// none, or when it beats the strongest of them by fee rate, or ties on fee
/// rate and has the smaller hash.
pub fn apply_deterministic_supremacy(new_tx_hash: &[u8], new_fee_rate: u64, conflicting: &Vec<(Vec<u8>, u64)>)
    -> (r: Result<bool, String>)
    ensures
        r is Ok,
        conflicting@.len() == 0 ==> r == Ok::<bool, String>(true),
        conflicting@.len() > 0 ==> ({
            let b = strongest(conflicting@.map_values(|c: (Vec<u8>, u64)| (c.0@, c.1)));
            r == Ok::<bool, String>(new_fee_rate > b.1 || (new_fee_rate == b.1 && seq_lt(new_tx_hash@, b.0)))
        }),
{
    if conflicting.len() == 0 {
        return Ok(true);
    }
    let ghost cs = conflicting@.map_values(|c: (Vec<u8>, u64)| (c.0@, c.1));
    let mut best_hash: &Vec<u8> = &conflicting[0].0;
    let mut best_rate: u64 = conflicting[0].1;
    proof {
        assert(cs.take(1).len() == 1);
        assert(strongest(cs.take(1)) == cs[0]);
    }
    let mut i: usize = 1;
    while i < conflicting.len()
        invariant
            cs == conflicting@.map_values(|c: (Vec<u8>, u64)| (c.0@, c.1)),
            1 <= i <= cs.len(),
            strongest(cs.take(i as int)) == (best_hash@, best_rate),
        decreases cs.len() - i,
    {
        let (h, rate) = (&conflicting[i].0, conflicting[i].1);
        proof {
            assert(cs.take(i + 1).drop_last() =~= cs.take(i as int));
            assert(cs.take(i + 1).last() == (h@, rate));
        }
        if rate > best_rate || (rate == best_rate && bytes_lt(h.as_slice(), best_hash.as_slice())) {
            best_hash = h;
            best_rate = rate;
        }
        i = i + 1;
    }
    proof {
        assert(cs.take(cs.len() as int) =~= cs);
    }
    let wins = if new_fee_rate > best_rate {
        true
    } else if new_fee_rate == best_rate {
        bytes_lt(new_tx_hash, best_hash.as_slice())
    } else {
        false
    };
    Ok(wins)
}

/// The transactions have distinct identifiers.
pub open spec fn distinct_ids(s: Seq<TransactionView>) -> bool {
    forall|a: int, b: int| 0 <= a < b < s.len() ==> (#[trigger] s[a]).id != (#[trigger] s[b]).id
}

/// All inputs of all the transactions spend distinct outpoints.
pub open spec fn distinct_spends(s: Seq<TransactionView>) -> bool {
    forall|a: int, i: int, b: int, j: int|
        0 <= a < s.len() && 0 <= b < s.len() && 0 <= i < s[a].inputs.len() && 0 <= j < s[b].inputs.len() && (a != b || i != j)
        ==> input_key(#[trigger] s[a].inputs[i]) != input_key(#[trigger] s[b].inputs[j])
}

/// Checks a block candidate: no transaction twice and no outpoint spent
/// twice.
pub fn verify_canonical_order(transactions: &Vec<Transaction>) -> (r: Result<(), String>)
    ensures
        r is Ok <==> distinct_ids(views_of(transactions@)) && distinct_spends(views_of(transactions@)),
        r matches Err(e) ==> e@ == "Duplicate transaction in canonical block candidate"@
            || e@.take(44) == "Conflict detected in canonical ordering: UTXO"@.take(44),
{
    let ghost s = views_of(transactions@);
    let mut seen: KeySet<Vec<u8>> = KeySet::new();
    let mut spent: KeySet<OutPoint> = KeySet::new();
    let mut t: usize = 0;
    while t < transactions.len()
        invariant
            seen.wf(),
            spent.wf(),
            s == views_of(transactions@),
            t <= s.len(),
            distinct_ids(s.take(t as int)),
            distinct_spends(s.take(t as int)),
            forall|k: Seq<u8>| #[trigger] seen@.contains(k) <==> exists|a: int| 0 <= a < t && hash_key_spec(#[trigger] s[a].id) == k,
            forall|k: (Seq<u8>, u32)| #[trigger] spent@.contains(k) <==>
                exists|a: int, i: int| 0 <= a < t && 0 <= i < s[a].inputs.len() && input_key(#[trigger] s[a].inputs[i]) == k,
        decreases s.len() - t,
    {
        let tx = &transactions[t];
        let key = hash_key(&tx.id);
        proof {
            assert(tx@ == s[t as int]);
        }
        if seen.contains(&key) {
            proof {
                reveal_strlit("Duplicate transaction in canonical block candidate");
                let a = choose|a: int| 0 <= a < t && hash_key_spec(#[trigger] s[a].id) == key@;
                assert(s[a].id.bytes@ == s[t as int].id.bytes@);
                assert(s[a].id.bytes =~= s[t as int].id.bytes);
                assert(!distinct_ids(s)) by {
                    assert(s[a].id == s[t as int].id);
                }
            }
            return Err(String::from_str("Duplicate transaction in canonical block candidate"));
        }
        let ghost kv = key@;
        seen.insert(key);
        let ghost seen1 = seen@;
        let mut i: usize = 0;
        while i < tx.inputs.len()
            invariant
                spent.wf(),
                seen.wf(),
                seen@ == seen1,
                s == views_of(transactions@),
                tx@ == s[t as int],
                t < s.len(),
                i <= s[t as int].inputs.len(),
                distinct_spends(s.take(t as int)),
                forall|q: int, r: int| 0 <= q < r < i ==> input_key(#[trigger] s[t as int].inputs[q]) != input_key(#[trigger] s[t as int].inputs[r]),
                forall|q: int, a: int, j: int| 0 <= q < i && 0 <= a < t && 0 <= j < s[a].inputs.len()
                    ==> input_key(#[trigger] s[t as int].inputs[q]) != input_key(#[trigger] s[a].inputs[j]),
                forall|k: (Seq<u8>, u32)| #[trigger] spent@.contains(k) <==>
                    (exists|a: int, j: int| 0 <= a < t && 0 <= j < s[a].inputs.len() && input_key(#[trigger] s[a].inputs[j]) == k)
                    || (exists|q: int| 0 <= q < i && input_key(#[trigger] s[t as int].inputs[q]) == k),
            decreases s[t as int].inputs.len() - i,
        {
            let input = &tx.inputs[i];
            let op = OutPoint::new(copy_bytes(input.prev_tx.bytes.as_slice()), input.index);
            proof {
                assert(op@ == input_key(s[t as int].inputs[i as int]));
            }
            if spent.contains(&op) {
                let mut e = String::from_str("Conflict detected in canonical ordering: UTXO ");
                let hex = hex_encode(input.prev_tx.bytes.as_slice());
                e.append(hex.as_str());
                e.append(":");
                push_decimal(&mut e, input.index as u64);
                e.append(" already spent");
                proof {
                    reveal_strlit("Conflict detected in canonical ordering: UTXO ");
                    reveal_strlit("Conflict detected in canonical ordering: UTXO");
                    assert(e@.take(44) =~= "Conflict detected in canonical ordering: UTXO"@.take(44));
                    let k = op@;
                    if exists|q: int| 0 <= q < i && input_key(#[trigger] s[t as int].inputs[q]) == k {
                        let q = choose|q: int| 0 <= q < i && input_key(#[trigger] s[t as int].inputs[q]) == k;
                        assert(!distinct_spends(s)) by {
                            assert(input_key(s[t as int].inputs[q]) == input_key(s[t as int].inputs[i as int]));
                        }
                    } else {
                        let (a, j) = choose|a: int, j: int| 0 <= a < t && 0 <= j < s[a].inputs.len() && input_key(#[trigger] s[a].inputs[j]) == k;
                        assert(!distinct_spends(s)) by {
                            assert(input_key(s[a].inputs[j]) == input_key(s[t as int].inputs[i as int]));
                        }
                    }
                }
                return Err(e);
            }
            spent.insert(op);
            i = i + 1;
        }
        t = t + 1;
        proof {
            assert forall|k: Seq<u8>| #[trigger] seen@.contains(k) <==> exists|a: int| 0 <= a < t && hash_key_spec(#[trigger] s[a].id) == k by {
                if k == kv {
                    assert(hash_key_spec(s[t - 1].id) == kv);
                }
                if exists|a: int| 0 <= a < t && hash_key_spec(#[trigger] s[a].id) == k {
                    let a = choose|a: int| 0 <= a < t && hash_key_spec(#[trigger] s[a].id) == k;
                    if a < t - 1 {
                        assert(exists|a2: int| 0 <= a2 < t - 1 && hash_key_spec(#[trigger] s[a2].id) == k);
                    }
                }
            }
            assert forall|a: int, b: int| 0 <= a < b < s.take(t as int).len() implies
                (#[trigger] s.take(t as int)[a]).id != (#[trigger] s.take(t as int)[b]).id by {
                if b == t - 1 {
                    if s[a].id == s[b].id {
                        assert(hash_key_spec(s[a].id) == kv);
                    }
                } else {
                    assert(s.take(t - 1)[a] == s[a] && s.take(t - 1)[b] == s[b]);
                }
            }
            assert forall|a: int, i: int, b: int, j: int|
                0 <= a < s.take(t as int).len() && 0 <= b < s.take(t as int).len() && 0 <= i < s.take(t as int)[a].inputs.len()
                && 0 <= j < s.take(t as int)[b].inputs.len() && (a != b || i != j)
                implies input_key(#[trigger] s.take(t as int)[a].inputs[i]) != input_key(#[trigger] s.take(t as int)[b].inputs[j]) by {
                let tt = t - 1;
                if a < tt && b < tt {
                    assert(s.take(tt)[a] == s[a] && s.take(tt)[b] == s[b]);
                } else if a == tt && b == tt {
                    if i < j {
                    } else {
                    }
                }
            }
        }
    }
    proof {
        assert(s.take(s.len() as int) =~= s);
    }
    Ok(())
}
} // verus!
