//! Priority buckets by fee rate with a deterministic order inside each
//! bucket: higher priority score first, then the lexicographically smaller
//! hash.
//!
//! The priority score of a transaction is its fee rate times 100 plus its
//! arrival time times 0.001; it is kept exactly, scaled by 1000, as
//! `fee_rate * 100000 + arrival_time`, so that every node compares the same
//! integers.

use vstd::prelude::*;
use std::cmp::Ordering;
use crate::bytes::{bytes_eq, bytes_lt, copy_bytes, seq_lt, lemma_seq_lt_total, lemma_seq_lt_transitive};
use crate::text::{dec_string, push_decimal};
use crate::keyed::{KeyMap, KeyOps};

verus! {

/// Fee-rate thresholds that bound the buckets, and whether the
/// deterministic order is in force.
#[derive(Clone, Debug)]
pub struct PriorityOrderingConfig {
    pub fee_rate_thresholds: Vec<u64>,
    pub deterministic_ordering: bool,
}

impl Default for PriorityOrderingConfig {
    fn default() -> (c: Self)
        ensures
            c.fee_rate_thresholds@ == seq![1u64, 10u64, 100u64, 1000u64],
            c.deterministic_ordering,
    {
        PriorityOrderingConfig { fee_rate_thresholds: vec![1, 10, 100, 1000], deterministic_ordering: true }
    }
}

/// A transaction as the buckets order it.
pub struct PrioritizedView {
    pub tx_hash: Seq<u8>,
    pub priority_score: u128,
    pub fee_rate: u64,
    pub arrival_time: u64,
    pub size_bytes: usize,
    pub total_fee: u64,
}

/// The priority score of a fee rate and an arrival time, scaled by 1000.
pub open spec fn priority_score_spec(fee_rate: u64, arrival_time: u64) -> int {
    fee_rate * 100000 + arrival_time
}

/// The view of a transaction made from these values.
pub open spec fn prioritized_view(tx_hash: Seq<u8>, fee_rate: u64, arrival_time: u64, size_bytes: usize, total_fee: u64)
    -> PrioritizedView {
    PrioritizedView {
        tx_hash,
        priority_score: priority_score_spec(fee_rate, arrival_time) as u128,
        fee_rate,
        arrival_time,
        size_bytes,
        total_fee,
    }
}

/// A transaction with its priority.
#[derive(Clone, Debug)]
pub struct PrioritizedTransaction {
    pub tx_hash: Vec<u8>,
    /// `fee_rate * 100000 + arrival_time`: the score times 1000
    pub priority_score: u128,
    pub fee_rate: u64,
    pub arrival_time: u64,
    pub size_bytes: usize,
    pub total_fee: u64,
}

impl View for PrioritizedTransaction {
    type V = PrioritizedView;

    open spec fn view(&self) -> PrioritizedView {
        PrioritizedView {
            tx_hash: self.tx_hash@,
            priority_score: self.priority_score,
            fee_rate: self.fee_rate,
            arrival_time: self.arrival_time,
            size_bytes: self.size_bytes,
            total_fee: self.total_fee,
        }
    }
}

/// `a` comes before `b`: a higher score, or the same score and a smaller
/// hash.
pub open spec fn det_less(a: PrioritizedView, b: PrioritizedView) -> bool {
    a.priority_score > b.priority_score || (a.priority_score == b.priority_score && seq_lt(a.tx_hash, b.tx_hash))
}

/// The deterministic comparison of `a` with `b`.
pub open spec fn deterministic_order(a: PrioritizedView, b: PrioritizedView) -> Ordering {
    if det_less(a, b) {
        Ordering::Less
    } else if det_less(b, a) {
        Ordering::Greater
    } else {
        Ordering::Equal
    }
}

/// Neither comes first: same score and same hash.
pub proof fn lemma_det_total(a: PrioritizedView, b: PrioritizedView)
    ensures
        !det_less(a, a),
        det_less(a, b) ==> !det_less(b, a),
        !det_less(a, b) && !det_less(b, a) <==> (a.priority_score == b.priority_score && a.tx_hash == b.tx_hash),
{
    lemma_seq_lt_total(a.tx_hash, b.tx_hash);
    lemma_seq_lt_total(b.tx_hash, a.tx_hash);
}

pub proof fn lemma_det_transitive(a: PrioritizedView, b: PrioritizedView, c: PrioritizedView)
    ensures
        det_less(a, b) && det_less(b, c) ==> det_less(a, c),
        !det_less(b, a) && !det_less(c, b) ==> !det_less(c, a),
{
    if det_less(a, b) && det_less(b, c) && a.priority_score == c.priority_score {
        lemma_seq_lt_transitive(a.tx_hash, b.tx_hash, c.tx_hash);
    }
    if !det_less(b, a) && !det_less(c, b) {
        lemma_seq_lt_total(a.tx_hash, b.tx_hash);
        lemma_seq_lt_total(b.tx_hash, c.tx_hash);
        lemma_seq_lt_total(a.tx_hash, c.tx_hash);
        if a.priority_score == c.priority_score && seq_lt(c.tx_hash, a.tx_hash) {
            if seq_lt(b.tx_hash, a.tx_hash) {
                lemma_seq_lt_transitive(c.tx_hash, b.tx_hash, a.tx_hash);
            }
            if b.tx_hash == a.tx_hash {
            } else {
                lemma_seq_lt_transitive(c.tx_hash, a.tx_hash, b.tx_hash);
            }
        }
    }
}

impl PrioritizedTransaction {
    pub fn new(tx_hash: Vec<u8>, fee_rate: u64, arrival_time: u64, size_bytes: usize, total_fee: u64) -> (t: Self)
        ensures
            t@ == prioritized_view(tx_hash@, fee_rate, arrival_time, size_bytes, total_fee),
            t.priority_score == priority_score_spec(fee_rate, arrival_time),
    {
        let f = fee_rate as u128;
        let a = arrival_time as u128;
        assert(f * 100000 + a <= u128::MAX) by (nonlinear_arith)
            requires
                f <= u64::MAX,
                a <= u64::MAX,
        ;
        let priority_score = f * 100000 + a;
        Self { tx_hash, priority_score, fee_rate, arrival_time, size_bytes, total_fee }
    }

    /// A copy of the transaction.
    pub fn copy(&self) -> (c: Self)
        ensures
            c@ == self@,
    {
        Self {
            tx_hash: copy_bytes(self.tx_hash.as_slice()),
            priority_score: self.priority_score,
            fee_rate: self.fee_rate,
            arrival_time: self.arrival_time,
            size_bytes: self.size_bytes,
            total_fee: self.total_fee,
        }
    }

    /// Whether `self` comes before `other`.
    pub fn before(&self, other: &Self) -> (b: bool)
        ensures
            b == det_less(self@, other@),
    {
        if self.priority_score > other.priority_score {
            true
        } else if self.priority_score < other.priority_score {
            false
        } else {
            bytes_lt(self.tx_hash.as_slice(), other.tx_hash.as_slice())
        }
    }

    /// Deterministic comparison: the higher score first, then the smaller
    /// hash.
    pub fn compare_deterministic(&self, other: &Self) -> (o: Ordering)
        ensures
            o == deterministic_order(self@, other@),
    {
        proof {
            lemma_det_total(self@, other@);
        }
        if self.before(other) {
            Ordering::Less
        } else if other.before(self) {
            Ordering::Greater
        } else {
            Ordering::Equal
        }
    }
}

/// Each element comes no earlier than the ones before it.
pub open spec fn det_sorted(s: Seq<PrioritizedView>) -> bool {
    forall|i: int, j: int| 0 <= i < j < s.len() ==> !det_less(#[trigger] s[j], #[trigger] s[i])
}

/// The first position at or after `i` whose element comes after `t`.
pub open spec fn first_after(s: Seq<PrioritizedView>, t: PrioritizedView, i: int) -> int
    decreases s.len() - i,
{
    if i < 0 || i >= s.len() {
        s.len() as int
    } else if det_less(t, s[i]) {
        i
    } else {
        first_after(s, t, i + 1)
    }
}

/// `s` with `t` placed after every element that does not come after it.
pub open spec fn sorted_insert(s: Seq<PrioritizedView>, t: PrioritizedView) -> Seq<PrioritizedView> {
    s.insert(first_after(s, t, 0), t)
}

proof fn lemma_first_after(s: Seq<PrioritizedView>, t: PrioritizedView, i: int)
    requires
        0 <= i <= s.len(),
    ensures
        i <= first_after(s, t, i) <= s.len(),
        forall|j: int| i <= j < first_after(s, t, i) ==> !det_less(t, #[trigger] s[j]),
        first_after(s, t, i) < s.len() ==> det_less(t, s[first_after(s, t, i)]),
    decreases s.len() - i,
{
    if i < s.len() && !det_less(t, s[i]) {
        lemma_first_after(s, t, i + 1);
    }
}

/// Inserting adds one element.
pub proof fn lemma_sorted_insert_len(s: Seq<PrioritizedView>, t: PrioritizedView)
    ensures
        sorted_insert(s, t).len() == s.len() + 1,
{
    lemma_first_after(s, t, 0);
}

/// Inserting into a sorted sequence keeps it sorted.
pub proof fn lemma_sorted_insert(s: Seq<PrioritizedView>, t: PrioritizedView)
    requires
        det_sorted(s),
    ensures
        det_sorted(sorted_insert(s, t)),
        sorted_insert(s, t).len() == s.len() + 1,
        sorted_insert(s, t).to_multiset() == s.to_multiset().insert(t),
{
    lemma_first_after(s, t, 0);
    let p = first_after(s, t, 0);
    let r = sorted_insert(s, t);
    assert forall|i: int, j: int| 0 <= i < j < r.len() implies !det_less(#[trigger] r[j], #[trigger] r[i]) by {
        if i < p && j < p {
            assert(r[i] == s[i] && r[j] == s[j]);
        } else if i < p && j == p {
            assert(r[j] == t && r[i] == s[i]);
        } else if i < p && j > p {
            assert(r[i] == s[i] && r[j] == s[j - 1]);
        } else if i == p {
            assert(r[i] == t && r[j] == s[j - 1]);
            assert(det_less(t, s[p]));
            if det_less(s[j - 1], t) {
                lemma_det_transitive(s[j - 1], t, s[p]);
                if j - 1 == p {
                    lemma_det_total(s[p], t);
                }
            }
        } else {
            assert(r[i] == s[i - 1] && r[j] == s[j - 1]);
        }
    }
    vstd::seq_lib::to_multiset_insert(s, p, t);
}

/// Inserting two transactions with different hashes gives the same result
/// in either order.
pub proof fn lemma_sorted_insert_commutes(s: Seq<PrioritizedView>, a: PrioritizedView, b: PrioritizedView)
    requires
        det_sorted(s),
        a.tx_hash != b.tx_hash,
    ensures
        sorted_insert(sorted_insert(s, a), b) == sorted_insert(sorted_insert(s, b), a),
{
    lemma_first_after(s, a, 0);
    lemma_first_after(s, b, 0);
    lemma_det_total(a, b);
    let pa = first_after(s, a, 0);
    let pb = first_after(s, b, 0);
    let sa = sorted_insert(s, a);
    let sb = sorted_insert(s, b);
    lemma_first_after(sa, b, 0);
    lemma_first_after(sb, a, 0);
    let qb = first_after(sa, b, 0);
    let qa = first_after(sb, a, 0);
    if det_less(a, b) {
        // a is placed before b, and b's position shifts by one
        assert(pa <= pb) by {
            if pb < pa {
                assert(det_less(b, s[pb]));
                assert(!det_less(a, s[pb]));
                lemma_det_transitive(a, b, s[pb]);
            }
        }
        assert(qb == pb + 1) by {
            assert forall|j: int| 0 <= j < pb + 1 implies !det_less(b, #[trigger] sa[j]) by {
                if j < pa {
                    assert(sa[j] == s[j]);
                } else if j == pa {
                    assert(sa[j] == a);
                } else {
                    assert(sa[j] == s[j - 1]);
                }
            }
            if pb < s.len() {
                assert(sa[pb + 1] == s[pb]);
            }
            lemma_first_after_exact(sa, b, pb + 1);
        }
        assert(qa == pa) by {
            assert forall|j: int| 0 <= j < pa implies !det_less(a, #[trigger] sb[j]) by {
                assert(sb[j] == s[j]);
            }
            if pa < pb {
                assert(sb[pa] == s[pa]);
            } else {
                assert(sb[pa] == b);
            }
            lemma_first_after_exact(sb, a, pa);
        }
        assert(sorted_insert(sa, b) =~= sorted_insert(sb, a));
    } else {
        assert(det_less(b, a));
        assert(pb <= pa) by {
            if pa < pb {
                assert(det_less(a, s[pa]));
                assert(!det_less(b, s[pa]));
                lemma_det_transitive(b, a, s[pa]);
            }
        }
        assert(qa == pa + 1) by {
            assert forall|j: int| 0 <= j < pa + 1 implies !det_less(a, #[trigger] sb[j]) by {
                if j < pb {
                    assert(sb[j] == s[j]);
                } else if j == pb {
                    assert(sb[j] == b);
                } else {
                    assert(sb[j] == s[j - 1]);
                }
            }
            if pa < s.len() {
                assert(sb[pa + 1] == s[pa]);
            }
            lemma_first_after_exact(sb, a, pa + 1);
        }
        assert(qb == pb) by {
            assert forall|j: int| 0 <= j < pb implies !det_less(b, #[trigger] sa[j]) by {
                assert(sa[j] == s[j]);
            }
            if pb < pa {
                assert(sa[pb] == s[pb]);
            } else {
                assert(sa[pb] == a);
            }
            lemma_first_after_exact(sa, b, pb);
        }
        assert(sorted_insert(sa, b) =~= sorted_insert(sb, a));
    }
}

/// The first position after which `t` is not placed is `p` when the
/// elements before `p` do not come after `t` and the one at `p` does.
proof fn lemma_first_after_exact(s: Seq<PrioritizedView>, t: PrioritizedView, p: int)
    requires
        0 <= p <= s.len(),
        forall|j: int| 0 <= j < p ==> !det_less(t, #[trigger] s[j]),
        p < s.len() ==> det_less(t, s[p]),
    ensures
        first_after(s, t, 0) == p,
{
    lemma_first_after_from(s, t, 0, p);
}

proof fn lemma_first_after_from(s: Seq<PrioritizedView>, t: PrioritizedView, i: int, p: int)
    requires
        0 <= i <= p <= s.len(),
        forall|j: int| i <= j < p ==> !det_less(t, #[trigger] s[j]),
        p < s.len() ==> det_less(t, s[p]),
    ensures
        first_after(s, t, i) == p,
    decreases p - i,
{
    if i < p {
        assert(!det_less(t, s[i]));
        lemma_first_after_from(s, t, i + 1, p);
    }
}


/// Views of a list of transactions.
pub open spec fn tx_views(v: Seq<PrioritizedTransaction>) -> Seq<PrioritizedView> {
    v.map_values(|t: PrioritizedTransaction| t@)
}

/// The first position at or after `i` holding hash `h`, or the length.
pub open spec fn first_with_hash(s: Seq<PrioritizedView>, h: Seq<u8>, i: int) -> int
    decreases s.len() - i,
{
    if i < 0 || i >= s.len() {
        s.len() as int
    } else if s[i].tx_hash == h {
        i
    } else {
        first_with_hash(s, h, i + 1)
    }
}

proof fn lemma_first_with_hash(s: Seq<PrioritizedView>, h: Seq<u8>, i: int)
    requires
        0 <= i <= s.len(),
    ensures
        i <= first_with_hash(s, h, i) <= s.len(),
        forall|j: int| i <= j < first_with_hash(s, h, i) ==> (#[trigger] s[j]).tx_hash != h,
        first_with_hash(s, h, i) < s.len() ==> s[first_with_hash(s, h, i)].tx_hash == h,
    decreases s.len() - i,
{
    if i < s.len() && s[i].tx_hash != h {
        lemma_first_with_hash(s, h, i + 1);
    }
}

proof fn lemma_first_with_hash_exact(s: Seq<PrioritizedView>, h: Seq<u8>, i: int, p: int)
    requires
        0 <= i <= p <= s.len(),
        forall|j: int| i <= j < p ==> (#[trigger] s[j]).tx_hash != h,
        p < s.len() ==> s[p].tx_hash == h,
    ensures
        first_with_hash(s, h, i) == p,
    decreases p - i,
{
    if i < p {
        lemma_first_with_hash_exact(s, h, i + 1, p);
    }
}

/// A fee-rate range `[lower, upper)` and its transactions, in deterministic
/// order.
#[derive(Clone, Debug)]
struct PriorityBucket {
    lower_bound: u64,
    upper_bound: u64,
    transactions: Vec<PrioritizedTransaction>,
}

impl PriorityBucket {
    spec fn txs(&self) -> Seq<PrioritizedView> {
        tx_views(self.transactions@)
    }

    fn new(lower_bound: u64, upper_bound: u64) -> (b: Self)
        ensures
            b.lower_bound == lower_bound,
            b.upper_bound == upper_bound,
            b.txs() == Seq::<PrioritizedView>::empty(),
    {
        let b = Self { lower_bound, upper_bound, transactions: Vec::new() };
        proof {
            assert(b.txs() =~= Seq::<PrioritizedView>::empty());
        }
        b
    }

    /// Places `tx` after the transactions that do not come after it; fails
    /// when its fee rate is outside the bucket's range.
    fn insert(&mut self, tx: PrioritizedTransaction) -> (r: Result<(), String>)
        ensures
            final(self).lower_bound == old(self).lower_bound,
            final(self).upper_bound == old(self).upper_bound,
            r is Err <==> !(old(self).lower_bound <= tx.fee_rate < old(self).upper_bound),
            r is Err ==> final(self).txs() == old(self).txs(),
            r is Ok ==> final(self).txs() == sorted_insert(old(self).txs(), tx@),
    {
        if tx.fee_rate < self.lower_bound || tx.fee_rate >= self.upper_bound {
            let mut msg = String::from_str("Fee rate ");
            push_decimal(&mut msg, tx.fee_rate);
            msg.append(" outside bucket range [");
            push_decimal(&mut msg, self.lower_bound);
            msg.append(", ");
            push_decimal(&mut msg, self.upper_bound);
            msg.append(")");
            return Err(msg);
        }
        let ghost s = self.txs();
        let ghost tv = tx@;
        let mut i: usize = 0;
        while i < self.transactions.len()
            invariant
                s == tx_views(self.transactions@),
                tv == tx@,
                i <= self.transactions@.len(),
                forall|j: int| 0 <= j < i ==> !det_less(tv, #[trigger] s[j]),
                self.lower_bound == old(self).lower_bound,
                self.upper_bound == old(self).upper_bound,
            ensures
                s == tx_views(self.transactions@),
                i <= self.transactions@.len(),
                forall|j: int| 0 <= j < i ==> !det_less(tv, #[trigger] s[j]),
                i < s.len() ==> det_less(tv, s[i as int]),
                self.lower_bound == old(self).lower_bound,
                self.upper_bound == old(self).upper_bound,
            decreases self.transactions@.len() - i,
        {
            if tx.before(&self.transactions[i]) {
                break;
            }
            i = i + 1;
        }
        proof {
            lemma_first_after_exact(s, tv, i as int);
        }
        self.transactions.insert(i, tx);
        proof {
            assert(self.txs() =~= s.insert(i as int, tv));
        }
        Ok(())
    }

    /// Removes the first transaction with hash `tx_hash`.
    fn remove(&mut self, tx_hash: &[u8]) -> (r: Option<PrioritizedTransaction>)
        ensures
            final(self).lower_bound == old(self).lower_bound,
            final(self).upper_bound == old(self).upper_bound,
            first_with_hash(old(self).txs(), tx_hash@, 0) < old(self).txs().len() ==> {
                &&& r is Some
                &&& r->0@ == old(self).txs()[first_with_hash(old(self).txs(), tx_hash@, 0)]
                &&& final(self).txs() == old(self).txs().remove(first_with_hash(old(self).txs(), tx_hash@, 0))
            },
            first_with_hash(old(self).txs(), tx_hash@, 0) == old(self).txs().len() ==> {
                &&& r is None
                &&& final(self).txs() == old(self).txs()
            },
    {
        let ghost s = self.txs();
        proof {
            lemma_first_with_hash(s, tx_hash@, 0);
        }
        let mut i: usize = 0;
        while i < self.transactions.len()
            invariant
                s == tx_views(self.transactions@),
                i <= self.transactions@.len(),
                forall|j: int| 0 <= j < i ==> (#[trigger] s[j]).tx_hash != tx_hash@,
                self.lower_bound == old(self).lower_bound,
                self.upper_bound == old(self).upper_bound,
                s == old(self).txs(),
            decreases self.transactions@.len() - i,
        {
            if bytes_eq(self.transactions[i].tx_hash.as_slice(), tx_hash) {
                proof {
                    lemma_first_with_hash_exact(s, tx_hash@, 0, i as int);
                }
                let ghost before = self.transactions@;
                let t = self.transactions.remove(i);
                proof {
                    assert(t == before[i as int]);
                    assert(s[i as int] == before[i as int]@);
                    assert(self.txs() =~= s.remove(i as int));
                    assert(old(self).txs() == s);
                }
                return Some(t);
            }
            i = i + 1;
        }
        proof {
            lemma_first_with_hash_exact(s, tx_hash@, 0, i as int);
        }
        None
    }

    /// The first transaction with hash `tx_hash`.
    fn find(&self, tx_hash: &[u8]) -> (r: Option<&PrioritizedTransaction>)
        ensures
            first_with_hash(self.txs(), tx_hash@, 0) < self.txs().len() ==>
                r is Some && r->0@ == self.txs()[first_with_hash(self.txs(), tx_hash@, 0)],
            first_with_hash(self.txs(), tx_hash@, 0) == self.txs().len() ==> r is None,
    {
        let ghost s = self.txs();
        proof {
            lemma_first_with_hash(s, tx_hash@, 0);
        }
        let mut i: usize = 0;
        while i < self.transactions.len()
            invariant
                s == tx_views(self.transactions@),
                i <= self.transactions@.len(),
                forall|j: int| 0 <= j < i ==> (#[trigger] s[j]).tx_hash != tx_hash@,
            decreases self.transactions@.len() - i,
        {
            if bytes_eq(self.transactions[i].tx_hash.as_slice(), tx_hash) {
                proof {
                    lemma_first_with_hash_exact(s, tx_hash@, 0, i as int);
                }
                return Some(&self.transactions[i]);
            }
            i = i + 1;
        }
        proof {
            lemma_first_with_hash_exact(s, tx_hash@, 0, i as int);
        }
        None
    }

    /// Copies of the first `limit` transactions.
    fn get_top_n(&self, limit: usize) -> (r: Vec<PrioritizedTransaction>)
        ensures
            tx_views(r@) == self.txs().take(if limit < self.txs().len() { limit as int } else { self.txs().len() as int }),
    {
        let n = if limit < self.transactions.len() { limit } else { self.transactions.len() };
        copy_txs(&self.transactions, n)
    }

    fn len(&self) -> (n: usize)
        ensures
            n == self.txs().len(),
    {
        self.transactions.len()
    }

    fn is_empty(&self) -> (b: bool)
        ensures
            b == (self.txs().len() == 0),
    {
        self.transactions.len() == 0
    }
}

/// Copies of the first `n` transactions of `v`.
fn copy_txs(v: &Vec<PrioritizedTransaction>, n: usize) -> (r: Vec<PrioritizedTransaction>)
    requires
        n <= v@.len(),
    ensures
        tx_views(r@) == tx_views(v@).take(n as int),
{
    let mut r: Vec<PrioritizedTransaction> = Vec::new();
    let mut i: usize = 0;
    while i < n
        invariant
            n <= v@.len(),
            i <= n,
            tx_views(r@) == tx_views(v@).take(i as int),
        decreases n - i,
    {
        let ghost prev = tx_views(r@);
        r.push(v[i].copy());
        i = i + 1;
        proof {
            assert(tx_views(r@) =~= prev.push(v@[i - 1]@));
            assert(tx_views(r@) =~= tx_views(v@).take(i as int));
        }
    }
    r
}

/// The fee-rate range of each bucket: from 0 to the first threshold, between
/// consecutive thresholds, and from the last threshold up.
pub open spec fn threshold_bounds(t: Seq<u64>) -> Seq<(u64, u64)> {
    Seq::new(t.len() + 1, |i: int| (if i == 0 { 0u64 } else { t[i - 1] }, if i < t.len() { t[i] } else { u64::MAX }))
}

/// `fee` lies in the range `b`.
pub open spec fn fits(b: (u64, u64), fee: u64) -> bool {
    b.0 <= fee && fee < b.1
}

/// The first range at or after `i` that holds `fee`, or the number of ranges.
pub open spec fn first_fit(bs: Seq<(u64, u64)>, fee: u64, i: int) -> int
    decreases bs.len() - i,
{
    if i < 0 || i >= bs.len() {
        bs.len() as int
    } else if fits(bs[i], fee) {
        i
    } else {
        first_fit(bs, fee, i + 1)
    }
}

proof fn lemma_first_fit(bs: Seq<(u64, u64)>, fee: u64, i: int, p: int)
    requires
        0 <= i <= p <= bs.len(),
        forall|j: int| i <= j < p ==> !fits(#[trigger] bs[j], fee),
        p < bs.len() ==> fits(bs[p], fee),
    ensures
        first_fit(bs, fee, i) == p,
    decreases p - i,
{
    if i < p {
        lemma_first_fit(bs, fee, i + 1, p);
    }
}

/// A transaction goes to the first bucket whose range holds its fee rate
/// (lower bound included, upper bound excluded): the bucket found holds the
/// fee rate and no earlier one does; when none holds it, the number of
/// buckets is returned.
pub proof fn lemma_first_fit_is_first_holding(bs: Seq<(u64, u64)>, fee: u64)
    ensures
        0 <= first_fit(bs, fee, 0) <= bs.len(),
        first_fit(bs, fee, 0) < bs.len() ==> bs[first_fit(bs, fee, 0)].0 <= fee && fee < bs[first_fit(bs, fee, 0)].1,
        forall|j: int| 0 <= j < first_fit(bs, fee, 0) ==> !(#[trigger] bs[j].0 <= fee && fee < bs[j].1),
{
    lemma_first_fit_from(bs, fee, 0);
}

proof fn lemma_first_fit_from(bs: Seq<(u64, u64)>, fee: u64, i: int)
    requires
        0 <= i <= bs.len(),
    ensures
        i <= first_fit(bs, fee, i) <= bs.len(),
        first_fit(bs, fee, i) < bs.len() ==> bs[first_fit(bs, fee, i)].0 <= fee && fee < bs[first_fit(bs, fee, i)].1,
        forall|j: int| i <= j < first_fit(bs, fee, i) ==> !(#[trigger] bs[j].0 <= fee && fee < bs[j].1),
    decreases bs.len() - i,
{
    if i < bs.len() && !fits(bs[i], fee) {
        lemma_first_fit_from(bs, fee, i + 1);
    }
}

/// The buckets' transactions, the highest bucket first.
pub open spec fn ordered_views(c: Seq<Seq<PrioritizedView>>) -> Seq<PrioritizedView>
    decreases c.len(),
{
    if c.len() == 0 {
        Seq::empty()
    } else {
        c.last() + ordered_views(c.drop_last())
    }
}

/// The buckets' transactions, the lowest bucket first.
pub open spec fn forward_views(c: Seq<Seq<PrioritizedView>>) -> Seq<PrioritizedView>
    decreases c.len(),
{
    if c.len() == 0 {
        Seq::empty()
    } else {
        c[0] + forward_views(c.drop_first())
    }
}

/// The number of transactions in all buckets.
pub open spec fn total_len(c: Seq<Seq<PrioritizedView>>) -> nat
    decreases c.len(),
{
    if c.len() == 0 {
        0
    } else {
        total_len(c.drop_last()) + c.last().len()
    }
}

/// The sum of the total fees of the transactions.
pub open spec fn fee_sum(s: Seq<PrioritizedView>) -> nat
    decreases s.len(),
{
    if s.len() == 0 {
        0
    } else {
        fee_sum(s.drop_last()) + s.last().total_fee as nat
    }
}

/// The sum of the total fees over all buckets.
pub open spec fn total_fee_sum(c: Seq<Seq<PrioritizedView>>) -> nat
    decreases c.len(),
{
    if c.len() == 0 {
        0
    } else {
        total_fee_sum(c.drop_last()) + fee_sum(c.last())
    }
}

/// Every recorded hash points at a transaction's bucket and every bucket is
/// strictly ordered.
pub open spec fn consistent(c: Seq<Seq<PrioritizedView>>, index: Map<Seq<u8>, (usize, usize)>) -> bool {
    &&& forall|b: int, i: int| 0 <= b < c.len() && 0 <= i < c[b].len() && #[trigger] index.contains_key(c[b][i].tx_hash)
        ==> index[c[b][i].tx_hash].0 == b
    &&& forall|b: int, i: int| 0 <= b < c.len() && 0 <= i < c[b].len() - 1 ==> #[trigger] det_less(c[b][i], c[b][i + 1])
}

/// Transactions in fee-rate buckets, each bucket in deterministic order, with
/// an index from hash to bucket.
pub struct PriorityBuckets {
    buckets: Vec<PriorityBucket>,
    config: PriorityOrderingConfig,
    hash_index: KeyMap<Vec<u8>, (usize, usize)>,
}

impl PriorityBuckets {
    /// The transactions of each bucket, the lowest bucket first.
    pub closed spec fn contents(&self) -> Seq<Seq<PrioritizedView>> {
        Seq::new(self.buckets@.len(), |b: int| self.buckets@[b].txs())
    }

    /// The fee-rate range of each bucket.
    pub closed spec fn bounds(&self) -> Seq<(u64, u64)> {
        Seq::new(self.buckets@.len(), |b: int| (self.buckets@[b].lower_bound, self.buckets@[b].upper_bound))
    }

    /// Hash to (bucket, position recorded at insertion).
    pub closed spec fn index(&self) -> Map<Seq<u8>, (usize, usize)> {
        self.hash_index@
    }

    pub closed spec fn config_thresholds(&self) -> Seq<u64> {
        self.config.fee_rate_thresholds@
    }

    pub closed spec fn config_deterministic(&self) -> bool {
        self.config.deterministic_ordering
    }

    pub closed spec fn wf(&self) -> bool {
        &&& self.hash_index.wf()
        &&& self.bounds() == threshold_bounds(self.config_thresholds())
        &&& forall|b: int| 0 <= b < self.contents().len() ==> det_sorted(#[trigger] self.contents()[b])
        &&& forall|b: int, i: int| 0 <= b < self.contents().len() && 0 <= i < self.contents()[b].len()
            ==> fits(self.bounds()[b], #[trigger] self.contents()[b][i].fee_rate)
        &&& forall|h: Seq<u8>| #[trigger] self.index().contains_key(h) ==> self.index()[h].0 < self.contents().len()
    }

    /// The buckets follow the thresholds, each is sorted and holds only
    /// fee rates in its range, and the index points at buckets.
    pub proof fn lemma_wf(&self)
        requires
            self.wf(),
        ensures
            self.bounds() == threshold_bounds(self.config_thresholds()),
            self.contents().len() == self.config_thresholds().len() + 1,
            forall|b: int| 0 <= b < self.contents().len() ==> det_sorted(#[trigger] self.contents()[b]),
            forall|b: int, i: int| 0 <= b < self.contents().len() && 0 <= i < self.contents()[b].len()
                ==> fits(self.bounds()[b], #[trigger] self.contents()[b][i].fee_rate),
            forall|h: Seq<u8>| #[trigger] self.index().contains_key(h) ==> self.index()[h].0 < self.contents().len(),
    {
        assert(self.bounds().len() == self.buckets@.len());
        assert(threshold_bounds(self.config_thresholds()).len() == self.config_thresholds().len() + 1);
    }

    /// One empty bucket per range of the thresholds.
    pub fn new(config: PriorityOrderingConfig) -> (pb: Self)
        ensures
            pb.wf(),
            pb.config_thresholds() == config.fee_rate_thresholds@,
            pb.config_deterministic() == config.deterministic_ordering,
            pb.contents().len() == config.fee_rate_thresholds@.len() + 1,
            forall|b: int| 0 <= b < pb.contents().len() ==> #[trigger] pb.contents()[b] == Seq::<PrioritizedView>::empty(),
            pb.index() == Map::<Seq<u8>, (usize, usize)>::empty(),
    {
        let mut buckets: Vec<PriorityBucket> = Vec::new();
        let ghost t = config.fee_rate_thresholds@;
        let mut lower_bound: u64 = 0;
        let mut i: usize = 0;
        while i < config.fee_rate_thresholds.len()
            invariant
                t == config.fee_rate_thresholds@,
                i <= t.len(),
                buckets@.len() == i,
                lower_bound == if i == 0 { 0u64 } else { t[i - 1] },
                forall|b: int| 0 <= b < i ==> (#[trigger] buckets@[b]).lower_bound == threshold_bounds(t)[b].0
                    && buckets@[b].upper_bound == threshold_bounds(t)[b].1
                    && buckets@[b].txs() == Seq::<PrioritizedView>::empty(),
            decreases t.len() - i,
        {
            let threshold = config.fee_rate_thresholds[i];
            buckets.push(PriorityBucket::new(lower_bound, threshold));
            lower_bound = threshold;
            i = i + 1;
        }
        buckets.push(PriorityBucket::new(lower_bound, u64::MAX));
        let pb = Self { buckets, config, hash_index: KeyMap::new() };
        proof {
            assert(pb.bounds() =~= threshold_bounds(t));
        }
        pb
    }

    /// Places `tx` in the first bucket whose range holds its fee rate, in
    /// deterministic order, and records its hash; fails when the
    /// deterministic order is off or no bucket holds the fee rate.
    pub fn insert(&mut self, tx: PrioritizedTransaction) -> (r: Result<(), String>)
        requires
            old(self).wf(),
        ensures
            final(self).wf(),
            final(self).config_thresholds() == old(self).config_thresholds(),
            final(self).config_deterministic() == old(self).config_deterministic(),
            !old(self).config_deterministic() ==> r is Err && r->Err_0@ == "Deterministic ordering is disabled"@,
            old(self).config_deterministic() && first_fit(old(self).bounds(), tx.fee_rate, 0) == old(self).bounds().len() ==>
                r is Err && r->Err_0@ == "No suitable bucket for fee rate"@,
            r is Err ==> final(self).contents() == old(self).contents() && final(self).index() == old(self).index(),
            r is Ok <==> old(self).config_deterministic() && first_fit(old(self).bounds(), tx.fee_rate, 0) < old(self).bounds().len(),
            r is Ok ==> {
                let b = first_fit(old(self).bounds(), tx.fee_rate, 0);
                &&& final(self).contents() == old(self).contents().update(b, sorted_insert(old(self).contents()[b], tx@))
                &&& final(self).index() == old(self).index().insert(tx.tx_hash@, (b as usize, old(self).contents()[b].len() as usize))
            },
    {
        if !self.config.deterministic_ordering {
            let e = String::from_str("Deterministic ordering is disabled");
            proof {
                reveal_strlit("Deterministic ordering is disabled");
            }
            return Err(e);
        }
        let ghost bs = self.bounds();
        let ghost c0 = self.contents();
        let fee_rate = tx.fee_rate;
        let mut b: usize = 0;
        while b < self.buckets.len()
            invariant
                bs == self.bounds(),
                b <= bs.len(),
                forall|j: int| 0 <= j < b ==> !fits(#[trigger] bs[j], fee_rate),
            ensures
                b <= bs.len(),
                forall|j: int| 0 <= j < b ==> !fits(#[trigger] bs[j], fee_rate),
                b < bs.len() ==> fits(bs[b as int], fee_rate),
            decreases bs.len() - b,
        {
            if fee_rate >= self.buckets[b].lower_bound && fee_rate < self.buckets[b].upper_bound {
                break;
            }
            b = b + 1;
        }
        proof {
            lemma_first_fit(bs, fee_rate, 0, b as int);
        }
        if b == self.buckets.len() {
            let e = String::from_str("No suitable bucket for fee rate");
            proof {
                reveal_strlit("No suitable bucket for fee rate");
            }
            return Err(e);
        }
        let tx_hash = copy_bytes(tx.tx_hash.as_slice());
        let ghost tv = tx@;
        let mut bucket = self.buckets.remove(b);
        let ghost before = bucket.txs();
        proof {
            assert(before == c0[b as int]);
        }
        let _ = bucket.insert(tx);
        let position = bucket.len() - 1;
        self.buckets.insert(b, bucket);
        self.hash_index.insert(tx_hash, (b, position));
        proof {
            lemma_sorted_insert(before, tv);
            assert(self.contents() =~= c0.update(b as int, sorted_insert(before, tv)));
            assert(self.bounds() =~= bs);
            assert forall|bb: int| 0 <= bb < self.contents().len() implies det_sorted(#[trigger] self.contents()[bb]) by {
                if bb != b {
                    assert(self.contents()[bb] == c0[bb]);
                }
            }
            assert forall|h: Seq<u8>| #[trigger] self.index().contains_key(h) implies self.index()[h].0 < self.contents().len() by {
                if h != tv.tx_hash {
                    assert(old(self).index().contains_key(h));
                }
            }
            assert forall|bb: int, i: int| 0 <= bb < self.contents().len() && 0 <= i < self.contents()[bb].len()
                implies fits(self.bounds()[bb], #[trigger] self.contents()[bb][i].fee_rate) by {
                if bb == b {
                    let p = first_after(before, tv, 0);
                    lemma_first_after(before, tv, 0);
                    if i < p {
                        assert(self.contents()[bb][i] == before[i]);
                        assert(before[i] == c0[bb][i]);
                    } else if i > p {
                        assert(self.contents()[bb][i] == before[i - 1]);
                        assert(before[i - 1] == c0[bb][i - 1]);
                    }
                } else {
                    assert(self.contents()[bb] == c0[bb]);
                }
            }
        }
        Ok(())
    }
}

/// Counts and fees of the buckets.
#[derive(Clone, Debug)]
pub struct BucketStatistics {
    pub total_transactions: usize,
    pub total_fees: u64,
    pub bucket_info: Vec<BucketInfo>,
}

/// Range, count and fees of one bucket.
#[derive(Clone, Copy, Debug)]
pub struct BucketInfo {
    pub lower_bound: u64,
    pub upper_bound: u64,
    pub transaction_count: usize,
    pub total_fees: u64,
    pub average_fee: u64,
}

/// Replacing one bucket changes the total by the difference in length.
pub proof fn lemma_total_len_update(c: Seq<Seq<PrioritizedView>>, b: int, s: Seq<PrioritizedView>)
    requires
        0 <= b < c.len(),
    ensures
        total_len(c.update(b, s)) == total_len(c) - c[b].len() + s.len(),
    decreases c.len(),
{
    if b < c.len() - 1 {
        assert(c.update(b, s).drop_last() =~= c.drop_last().update(b, s));
        lemma_total_len_update(c.drop_last(), b, s);
    } else {
        assert(c.update(b, s).drop_last() =~= c.drop_last());
    }
}

proof fn lemma_total_len_prefix(c: Seq<Seq<PrioritizedView>>, i: int)
    requires
        0 <= i <= c.len(),
    ensures
        total_len(c.take(i)) <= total_len(c),
        i < c.len() ==> total_len(c.take(i)) + c[i].len() <= total_len(c),
    decreases c.len() - i,
{
    if i < c.len() {
        lemma_total_len_prefix(c, i + 1);
        assert(c.take(i + 1).drop_last() =~= c.take(i));
    } else {
        assert(c.take(i) =~= c);
    }
}

proof fn lemma_total_fee_prefix(c: Seq<Seq<PrioritizedView>>, i: int)
    requires
        0 <= i <= c.len(),
    ensures
        total_fee_sum(c.take(i)) <= total_fee_sum(c),
        i < c.len() ==> total_fee_sum(c.take(i)) + fee_sum(c[i]) <= total_fee_sum(c),
    decreases c.len() - i,
{
    if i < c.len() {
        lemma_total_fee_prefix(c, i + 1);
        assert(c.take(i + 1).drop_last() =~= c.take(i));
    } else {
        assert(c.take(i) =~= c);
    }
}

proof fn lemma_fee_sum_prefix(s: Seq<PrioritizedView>, i: int)
    requires
        0 <= i < s.len(),
    ensures
        fee_sum(s.take(i)) + s[i].total_fee <= fee_sum(s),
        fee_sum(s.take(i + 1)) == fee_sum(s.take(i)) + s[i].total_fee,
    decreases s.len() - i,
{
    assert(s.take(i + 1).drop_last() =~= s.take(i));
    if i + 1 < s.len() {
        lemma_fee_sum_prefix(s, i + 1);
    } else {
        assert(s.take(i + 1) =~= s);
    }
}

impl PriorityBuckets {
    /// Removes the transaction recorded under `tx_hash`: the hash leaves the
    /// index and the first transaction with it leaves the recorded bucket.
    pub fn remove(&mut self, tx_hash: &[u8]) -> (r: Option<PrioritizedTransaction>)
        requires
            old(self).wf(),
        ensures
            final(self).wf(),
            final(self).config_thresholds() == old(self).config_thresholds(),
            final(self).config_deterministic() == old(self).config_deterministic(),
            final(self).index() == old(self).index().remove(tx_hash@),
            !old(self).index().contains_key(tx_hash@) ==> r is None && final(self).contents() == old(self).contents(),
            old(self).index().contains_key(tx_hash@) ==> {
                let b = old(self).index()[tx_hash@].0 as int;
                let s = old(self).contents()[b];
                let p = first_with_hash(s, tx_hash@, 0);
                &&& p < s.len() ==> r is Some && r->0@ == s[p] && final(self).contents() == old(self).contents().update(b, s.remove(p))
                &&& p == s.len() ==> r is None && final(self).contents() == old(self).contents()
            },
    {
        let ghost c0 = self.contents();
        let ghost bs = self.bounds();
        let entry = self.hash_index.remove(&copy_bytes(tx_hash));
        match entry {
            Some((b, _pos)) => {
                proof {
                    assert(old(self).index().contains_key(tx_hash@));
                    assert(b < self.buckets@.len());
                }
                let mut bucket = self.buckets.remove(b);
                let ghost s = bucket.txs();
                proof {
                    assert(s == c0[b as int]);
                    lemma_first_with_hash(s, tx_hash@, 0);
                }
                let r = bucket.remove(tx_hash);
                self.buckets.insert(b, bucket);
                proof {
                    let p = first_with_hash(s, tx_hash@, 0);
                    if p < s.len() {
                        assert(self.contents() =~= c0.update(b as int, s.remove(p)));
                        assert forall|i: int, j: int| 0 <= i < j < s.remove(p).len() implies
                            !det_less(#[trigger] s.remove(p)[j], #[trigger] s.remove(p)[i]) by {
                            let ii = if i < p { i } else { i + 1 };
                            let jj = if j < p { j } else { j + 1 };
                            assert(s.remove(p)[i] == s[ii] && s.remove(p)[j] == s[jj]);
                        }
                    } else {
                        assert(self.contents() =~= c0);
                    }
                    assert(self.bounds() =~= bs);
                    assert forall|bb: int| 0 <= bb < self.contents().len() implies det_sorted(#[trigger] self.contents()[bb]) by {
                        if bb != b {
                            assert(self.contents()[bb] == c0[bb]);
                        }
                    }
                    assert forall|bb: int, i: int| 0 <= bb < self.contents().len() && 0 <= i < self.contents()[bb].len()
                        implies fits(self.bounds()[bb], #[trigger] self.contents()[bb][i].fee_rate) by {
                        if bb == b && p < s.len() {
                            if i < p {
                                assert(self.contents()[bb][i] == c0[bb][i]);
                            } else {
                                assert(self.contents()[bb][i] == c0[bb][i + 1]);
                            }
                        } else {
                            assert(self.contents()[bb] == c0[bb]);
                        }
                    }
                    assert forall|h: Seq<u8>| #[trigger] self.index().contains_key(h) implies self.index()[h].0 < self.contents().len() by {
                        assert(old(self).index().contains_key(h));
                    }
                }
                r
            },
            None => {
                proof {
                    assert forall|h: Seq<u8>| #[trigger] self.index().contains_key(h) implies self.index()[h].0 < self.contents().len() by {
                        assert(old(self).index().contains_key(h));
                    }
                }
                None
            },
        }
    }

    pub fn contains(&self, tx_hash: &[u8]) -> (b: bool)
        requires
            self.wf(),
        ensures
            b == self.index().contains_key(tx_hash@),
    {
        self.hash_index.contains_key(&copy_bytes(tx_hash))
    }

    /// A copy of the first transaction with hash `tx_hash` in the bucket
    /// that the index records for it.
    pub fn get(&self, tx_hash: &[u8]) -> (r: Option<PrioritizedTransaction>)
        requires
            self.wf(),
        ensures
            !self.index().contains_key(tx_hash@) ==> r is None,
            self.index().contains_key(tx_hash@) ==> {
                let s = self.contents()[self.index()[tx_hash@].0 as int];
                let p = first_with_hash(s, tx_hash@, 0);
                &&& p < s.len() ==> r is Some && r->0@ == s[p]
                &&& p == s.len() ==> r is None
            },
    {
        match self.hash_index.get(&copy_bytes(tx_hash)) {
            Some(entry) => {
                let b = entry.0;
                proof {
                    assert(self.index().contains_key(tx_hash@));
                    assert(b < self.buckets@.len());
                }
                match self.buckets[b].find(tx_hash) {
                    Some(t) => Some(t.copy()),
                    None => None,
                }
            },
            None => None,
        }
    }

    /// Copies of the transactions, the highest bucket first and each bucket
    /// in order, up to `limit` of them (at least one when there is one).
    pub fn get_ordered_transactions(&self, limit: usize) -> (r: Vec<PrioritizedTransaction>)
        requires
            self.wf(),
        ensures
            tx_views(r@) == ordered_views(self.contents()).take(
                if ordered_views(self.contents()).len() < (if limit == 0 { 1 } else { limit as int }) {
                    ordered_views(self.contents()).len() as int
                } else {
                    if limit == 0 { 1 } else { limit as int }
                },
            ),
    {
        let ghost c = self.contents();
        let ghost full = ordered_views(c);
        let ghost lim: int = if limit == 0 { 1 } else { limit as int };
        let mut result: Vec<PrioritizedTransaction> = Vec::new();
        let mut b: usize = self.buckets.len();
        proof {
            assert(c.subrange(0, b as int) =~= c);
        }
        while b > 0
            invariant
                c == self.contents(),
                full == ordered_views(c),
                lim == if limit == 0 { 1 } else { limit as int },
                b <= c.len(),
                full == tx_views(result@) + ordered_views(c.subrange(0, b as int)),
                result@.len() < lim,
            decreases b,
        {
            b = b - 1;
            let ghost s = c[b as int];
            proof {
                assert(c.subrange(0, b + 1).last() == s);
                assert(c.subrange(0, b + 1).drop_last() =~= c.subrange(0, b as int));
                assert(s.skip(0) =~= s);
            }
            let n = self.buckets[b].transactions.len();
            let mut j: usize = 0;
            while j < n
                invariant
                    c == self.contents(),
                    full == ordered_views(c),
                    lim == if limit == 0 { 1 } else { limit as int },
                    b < c.len(),
                    s == c[b as int],
                    n == s.len(),
                    j <= n,
                    full == tx_views(result@) + s.skip(j as int) + ordered_views(c.subrange(0, b as int)),
                    result@.len() < lim,
                decreases n - j,
            {
                let ghost prev = tx_views(result@);
                result.push(self.buckets[b].transactions[j].copy());
                j = j + 1;
                proof {
                    assert(tx_views(result@) =~= prev.push(s[j - 1]));
                    assert(s.skip(j - 1) =~= seq![s[j - 1]] + s.skip(j as int));
                    assert(full =~= tx_views(result@) + s.skip(j as int) + ordered_views(c.subrange(0, b as int)));
                }
                if result.len() >= limit {
                    proof {
                        assert(tx_views(result@) =~= full.take(result@.len() as int));
                    }
                    return result;
                }
            }
            proof {
                assert(s.skip(n as int) =~= Seq::<PrioritizedView>::empty());
                assert(full =~= tx_views(result@) + ordered_views(c.subrange(0, b as int)));
            }
        }
        proof {
            assert(c.subrange(0, 0) =~= Seq::<Seq<PrioritizedView>>::empty());
            assert(full =~= tx_views(result@));
            assert(full.take(full.len() as int) =~= full);
        }
        result
    }

    /// Copies of the transactions of bucket `bucket_idx`.
    pub fn get_bucket_transactions(&self, bucket_idx: usize) -> (r: Result<Vec<PrioritizedTransaction>, String>)
        requires
            self.wf(),
        ensures
            r is Err <==> bucket_idx >= self.contents().len(),
            r is Err ==> r->Err_0@ == "Bucket "@ + dec_string(bucket_idx as nat) + " not found"@,
            r is Ok ==> tx_views(r->Ok_0@) == self.contents()[bucket_idx as int],
    {
        if bucket_idx >= self.buckets.len() {
            let mut e = String::from_str("Bucket ");
            push_decimal(&mut e, bucket_idx as u64);
            e.append(" not found");
            return Err(e);
        }
        let n = self.buckets[bucket_idx].transactions.len();
        let v = copy_txs(&self.buckets[bucket_idx].transactions, n);
        proof {
            assert(tx_views(self.buckets@[bucket_idx as int].transactions@).take(n as int)
                =~= self.contents()[bucket_idx as int]);
        }
        Ok(v)
    }

    /// The number of transactions in all buckets.
    pub fn total_count(&self) -> (n: usize)
        requires
            self.wf(),
            total_len(self.contents()) <= usize::MAX,
        ensures
            n == total_len(self.contents()),
    {
        let ghost c = self.contents();
        let mut total: usize = 0;
        let mut b: usize = 0;
        while b < self.buckets.len()
            invariant
                c == self.contents(),
                total_len(c) <= usize::MAX,
                b <= c.len(),
                total == total_len(c.take(b as int)),
            decreases c.len() - b,
        {
            proof {
                lemma_total_len_prefix(c, b as int);
                assert(c.take(b + 1).drop_last() =~= c.take(b as int));
            }
            total = total + self.buckets[b].len();
            b = b + 1;
        }
        proof {
            assert(c.take(c.len() as int) =~= c);
        }
        total
    }

    /// The number of transactions in each bucket.
    pub fn bucket_counts(&self) -> (r: Vec<usize>)
        requires
            self.wf(),
        ensures
            r@.len() == self.contents().len(),
            forall|b: int| 0 <= b < r@.len() ==> #[trigger] r@[b] == self.contents()[b].len(),
    {
        let mut r: Vec<usize> = Vec::new();
        let mut b: usize = 0;
        while b < self.buckets.len()
            invariant
                b <= self.buckets@.len(),
                r@.len() == b,
                forall|k: int| 0 <= k < b ==> #[trigger] r@[k] == self.contents()[k].len(),
            decreases self.buckets@.len() - b,
        {
            r.push(self.buckets[b].len());
            b = b + 1;
        }
        r
    }

    pub fn bucket_count(&self) -> (n: usize)
        ensures
            n == self.contents().len(),
    {
        self.buckets.len()
    }

    /// Checks every transaction against its bucket's range and the index,
    /// and that each bucket is strictly ordered.
    pub fn verify_consistency(&self) -> (r: Result<(), String>)
        requires
            self.wf(),
        ensures
            r is Ok <==> consistent(self.contents(), self.index()),
            r is Err ==> r->Err_0@ == "Hash index mismatch for transaction"@
                || r->Err_0@ == "Transaction not ordered correctly relative to peer"@,
    {
        let ghost c = self.contents();
        let ghost idx = self.index();
        let mut b: usize = 0;
        while b < self.buckets.len()
            invariant
                self.wf(),
                c == self.contents(),
                idx == self.index(),
                b <= c.len(),
                forall|bb: int, i: int| 0 <= bb < b && 0 <= i < c[bb].len() && #[trigger] idx.contains_key(c[bb][i].tx_hash)
                    ==> idx[c[bb][i].tx_hash].0 == bb,
                forall|bb: int, i: int| 0 <= bb < b && 0 <= i < c[bb].len() - 1 ==> #[trigger] det_less(c[bb][i], c[bb][i + 1]),
            decreases c.len() - b,
        {
            let bucket = &self.buckets[b];
            let ghost s = c[b as int];
            proof {
                assert(s == tx_views(bucket.transactions@));
            }
            let mut i: usize = 0;
            while i < bucket.transactions.len()
                invariant
                    self.wf(),
                    c == self.contents(),
                    idx == self.index(),
                    b < c.len(),
                    c.len() == self.buckets@.len(),
                    *bucket == self.buckets@[b as int],
                    s == c[b as int],
                    i <= s.len(),
                    forall|k: int| 0 <= k < i && #[trigger] idx.contains_key(s[k].tx_hash) ==> idx[s[k].tx_hash].0 == b,
                decreases s.len() - i,
            {
                let tx = &bucket.transactions[i];
                proof {
                    assert(tx@ == s[i as int]);
                    assert(fits(self.bounds()[b as int], c[b as int][i as int].fee_rate));
                }
                if tx.fee_rate < bucket.lower_bound || tx.fee_rate >= bucket.upper_bound {
                    let mut e = String::from_str("Transaction has fee rate ");
                    push_decimal(&mut e, tx.fee_rate);
                    e.append(" outside bucket [");
                    push_decimal(&mut e, bucket.lower_bound);
                    e.append(", ");
                    push_decimal(&mut e, bucket.upper_bound);
                    e.append(")");
                    return Err(e);
                }
                match self.hash_index.get(&tx.tx_hash) {
                    Some(entry) => {
                        if entry.0 != b {
                            let e = String::from_str("Hash index mismatch for transaction");
                            proof {
                                reveal_strlit("Hash index mismatch for transaction");
                                assert(idx.contains_key(c[b as int][i as int].tx_hash));
                            }
                            return Err(e);
                        }
                    },
                    None => {},
                }
                i = i + 1;
            }
            let mut k: usize = 1;
            while k < bucket.transactions.len()
                invariant
                    c == self.contents(),
                    b < c.len(),
                    c.len() == self.buckets@.len(),
                    *bucket == self.buckets@[b as int],
                    s == c[b as int],
                    s == tx_views(bucket.transactions@),
                    1 <= k,
                    k <= s.len() || s.len() == 0,
                    forall|q: int| 0 <= q < k - 1 && q < s.len() - 1 ==> #[trigger] det_less(s[q], s[q + 1]),
                decreases s.len() - k,
            {
                let prev = &bucket.transactions[k - 1];
                let cur = &bucket.transactions[k];
                proof {
                    assert(prev@ == s[k - 1]);
                    assert(cur@ == s[k as int]);
                }
                if !prev.before(cur) {
                    let e = String::from_str("Transaction not ordered correctly relative to peer");
                    proof {
                        reveal_strlit("Transaction not ordered correctly relative to peer");
                        assert(!det_less(c[b as int][k - 1], c[b as int][(k - 1) + 1]));
                    }
                    return Err(e);
                }
                k = k + 1;
            }
            proof {
                assert forall|q: int| 0 <= q < s.len() - 1 implies #[trigger] det_less(s[q], s[q + 1]) by {
                    assert(q < k - 1);
                }
            }
            b = b + 1;
        }
        Ok(())
    }

    /// Empties every bucket and the index.
    pub fn clear(&mut self)
        requires
            old(self).wf(),
        ensures
            final(self).wf(),
            final(self).config_thresholds() == old(self).config_thresholds(),
            final(self).config_deterministic() == old(self).config_deterministic(),
            final(self).contents().len() == old(self).contents().len(),
            forall|b: int| 0 <= b < final(self).contents().len() ==> #[trigger] final(self).contents()[b] == Seq::<PrioritizedView>::empty(),
            final(self).index() == Map::<Seq<u8>, (usize, usize)>::empty(),
    {
        let ghost bs = self.bounds();
        let ghost n = self.buckets@.len();
        let mut b: usize = 0;
        while b < self.buckets.len()
            invariant
                n == self.buckets@.len(),
                bs == self.bounds(),
                bs == old(self).bounds(),
                self.config == old(self).config,
                self.hash_index == old(self).hash_index,
                self.contents().len() == n,
                b <= n,
                forall|k: int| 0 <= k < b ==> #[trigger] self.contents()[k] == Seq::<PrioritizedView>::empty(),
            decreases n - b,
        {
            let ghost before = self.buckets@;
            let ghost cb = self.contents();
            let mut bucket = self.buckets.remove(b);
            bucket.transactions.clear();
            self.buckets.insert(b, bucket);
            b = b + 1;
            proof {
                assert(self.bounds() =~= bs);
                assert forall|k: int| 0 <= k < b implies #[trigger] self.contents()[k] == Seq::<PrioritizedView>::empty() by {
                    if k == b - 1 {
                        assert(self.contents()[k] =~= Seq::<PrioritizedView>::empty());
                    } else {
                        assert(self.buckets@[k] == before[k]);
                        assert(cb[k] == Seq::<PrioritizedView>::empty());
                    }
                }
            }
        }
        self.hash_index.clear();
        proof {
            assert forall|bb: int| 0 <= bb < self.contents().len() implies det_sorted(#[trigger] self.contents()[bb]) by {
                assert(self.contents()[bb] == Seq::<PrioritizedView>::empty());
            }
        }
    }

    /// The configured thresholds.
    pub fn fee_thresholds(&self) -> (r: Vec<u64>)
        ensures
            r@ == self.config_thresholds(),
    {
        self.config.fee_rate_thresholds.clone()
    }

    /// Range, count, total and average fee of each bucket, and the totals.
    pub fn get_statistics(&self) -> (st: BucketStatistics)
        requires
            self.wf(),
            total_len(self.contents()) <= usize::MAX,
            total_fee_sum(self.contents()) <= u64::MAX,
        ensures
            st.total_transactions == total_len(self.contents()),
            st.total_fees == total_fee_sum(self.contents()),
            st.bucket_info@.len() == self.contents().len(),
            forall|b: int| 0 <= b < self.contents().len() ==> {
                let info = #[trigger] st.bucket_info@[b];
                &&& info.lower_bound == self.bounds()[b].0
                &&& info.upper_bound == self.bounds()[b].1
                &&& info.transaction_count == self.contents()[b].len()
                &&& info.total_fees == fee_sum(self.contents()[b])
                &&& info.average_fee == if self.contents()[b].len() > 0 {
                    fee_sum(self.contents()[b]) / self.contents()[b].len()
                } else {
                    0
                }
            },
    {
        let ghost c = self.contents();
        let mut infos: Vec<BucketInfo> = Vec::new();
        let mut total_transactions: usize = 0;
        let mut total_fees: u64 = 0;
        let mut b: usize = 0;
        while b < self.buckets.len()
            invariant
                c == self.contents(),
                total_len(c) <= usize::MAX,
                total_fee_sum(c) <= u64::MAX,
                b <= c.len(),
                total_transactions == total_len(c.take(b as int)),
                total_fees == total_fee_sum(c.take(b as int)),
                infos@.len() == b,
                forall|k: int| 0 <= k < b ==> {
                    let info = #[trigger] infos@[k];
                    &&& info.lower_bound == self.bounds()[k].0
                    &&& info.upper_bound == self.bounds()[k].1
                    &&& info.transaction_count == c[k].len()
                    &&& info.total_fees == fee_sum(c[k])
                    &&& info.average_fee == if c[k].len() > 0 { fee_sum(c[k]) / c[k].len() } else { 0 }
                },
            decreases c.len() - b,
        {
            let bucket = &self.buckets[b];
            let ghost s = c[b as int];
            proof {
                assert(s == tx_views(bucket.transactions@));
                lemma_total_len_prefix(c, b as int);
                lemma_total_fee_prefix(c, b as int);
                assert(c.take(b + 1).drop_last() =~= c.take(b as int));
            }
            let count = bucket.transactions.len();
            let mut fees: u64 = 0;
            let mut i: usize = 0;
            while i < count
                invariant
                    *bucket == self.buckets@[b as int],
                    b < c.len(),
                    c.len() == self.buckets@.len(),
                    s == c[b as int],
                    s == tx_views(bucket.transactions@),
                    count == s.len(),
                    fee_sum(s) <= u64::MAX,
                    i <= count,
                    fees == fee_sum(s.take(i as int)),
                decreases count - i,
            {
                proof {
                    lemma_fee_sum_prefix(s, i as int);
                    assert(bucket.transactions@[i as int]@ == s[i as int]);
                }
                fees = fees + bucket.transactions[i].total_fee;
                i = i + 1;
            }
            proof {
                assert(s.take(count as int) =~= s);
            }
            let avg = if count > 0 { fees / (count as u64) } else { 0 };
            total_transactions = total_transactions + count;
            total_fees = total_fees + fees;
            infos.push(BucketInfo {
                lower_bound: bucket.lower_bound,
                upper_bound: bucket.upper_bound,
                transaction_count: count,
                total_fees: fees,
                average_fee: avg,
            });
            b = b + 1;
        }
        proof {
            assert(c.take(c.len() as int) =~= c);
        }
        BucketStatistics { total_transactions, total_fees, bucket_info: infos }
    }
}

/// Walks the buckets' transactions, the lowest bucket first.
pub struct CrossBucketIterator {
    bucket_iterators: Vec<Vec<PrioritizedTransaction>>,
    current_bucket_idx: usize,
    position: usize,
}

impl CrossBucketIterator {
    closed spec fn lists(&self) -> Seq<Seq<PrioritizedView>> {
        Seq::new(self.bucket_iterators@.len(), |b: int| tx_views(self.bucket_iterators@[b]@))
    }

    pub closed spec fn wf(&self) -> bool {
        &&& self.current_bucket_idx <= self.bucket_iterators@.len()
        &&& self.current_bucket_idx < self.bucket_iterators@.len() ==>
            self.position <= self.bucket_iterators@[self.current_bucket_idx as int]@.len()
    }

    /// The transactions still to come, in order.
    pub closed spec fn remaining(&self) -> Seq<PrioritizedView> {
        let c = self.lists();
        let i = self.current_bucket_idx as int;
        if i < c.len() {
            c[i].skip(self.position as int) + forward_views(c.subrange(i + 1, c.len() as int))
        } else {
            Seq::empty()
        }
    }

    /// The next transaction, if any.
    pub fn next(&mut self) -> (r: Option<PrioritizedTransaction>)
        requires
            old(self).wf(),
        ensures
            final(self).wf(),
            old(self).remaining().len() == 0 ==> r is None && final(self).remaining() == old(self).remaining(),
            old(self).remaining().len() > 0 ==> r is Some && r->0@ == old(self).remaining()[0]
                && final(self).remaining() == old(self).remaining().drop_first(),
    {
        let ghost c = self.lists();
        while self.current_bucket_idx < self.bucket_iterators.len()
            invariant
                self.wf(),
                c == self.lists(),
                self.remaining() == old(self).remaining(),
            decreases self.bucket_iterators@.len() - self.current_bucket_idx,
        {
            let i = self.current_bucket_idx;
            let ghost rest = forward_views(c.subrange(i + 1, c.len() as int));
            if self.position < self.bucket_iterators[i].len() {
                let x = self.bucket_iterators[i][self.position].copy();
                let ghost p = self.position as int;
                self.position = self.position + 1;
                proof {
                    assert(c[i as int].skip(p) =~= seq![c[i as int][p]] + c[i as int].skip(p + 1));
                    assert(old(self).remaining() =~= seq![c[i as int][p]] + (c[i as int].skip(p + 1) + rest));
                    assert(self.remaining() =~= old(self).remaining().drop_first());
                }
                return Some(x);
            }
            self.current_bucket_idx = i + 1;
            self.position = 0;
            proof {
                assert(c[i as int].skip(c[i as int].len() as int) =~= Seq::<PrioritizedView>::empty());
                if i + 1 < c.len() {
                    let sub = c.subrange(i + 1, c.len() as int);
                    assert(sub[0] == c[i + 1]);
                    assert(sub.drop_first() =~= c.subrange(i + 2, c.len() as int));
                    assert(c[i + 1].skip(0) =~= c[i + 1]);
                    assert(self.remaining() =~= rest);
                } else {
                    assert(c.subrange(i + 1, c.len() as int) =~= Seq::<Seq<PrioritizedView>>::empty());
                }
                assert(self.remaining() =~= old(self).remaining());
            }
        }
        None
    }
}

impl PriorityBuckets {
    /// An iterator over copies of the transactions, the lowest bucket
    /// first, each bucket in order.
    pub fn iter_ordered(&self) -> (it: CrossBucketIterator)
        requires
            self.wf(),
        ensures
            it.wf(),
            it.remaining() == forward_views(self.contents()),
    {
        let mut lists: Vec<Vec<PrioritizedTransaction>> = Vec::new();
        let mut b: usize = 0;
        while b < self.buckets.len()
            invariant
                b <= self.buckets@.len(),
                lists@.len() == b,
                forall|k: int| 0 <= k < b ==> tx_views(#[trigger] lists@[k]@) == self.contents()[k],
            decreases self.buckets@.len() - b,
        {
            let n = self.buckets[b].transactions.len();
            let v = copy_txs(&self.buckets[b].transactions, n);
            proof {
                assert(tx_views(self.buckets@[b as int].transactions@).take(n as int) =~= self.contents()[b as int]);
            }
            lists.push(v);
            b = b + 1;
        }
        let it = CrossBucketIterator { bucket_iterators: lists, current_bucket_idx: 0, position: 0 };
        proof {
            let c = it.lists();
            assert(c =~= self.contents());
            if c.len() > 0 {
                assert(c[0].skip(0) =~= c[0]);
                assert(c.subrange(1, c.len() as int) =~= c.drop_first());
            } else {
                assert(c =~= Seq::<Seq<PrioritizedView>>::empty());
            }
        }
        it
    }
}

/// The buckets and index after placing `t` into the first bucket of `bounds`
/// that holds its fee rate.
pub open spec fn insert_one(
    st: (Seq<Seq<PrioritizedView>>, Map<Seq<u8>, (usize, usize)>),
    bounds: Seq<(u64, u64)>,
    t: PrioritizedView,
) -> (Seq<Seq<PrioritizedView>>, Map<Seq<u8>, (usize, usize)>) {
    let b = first_fit(bounds, t.fee_rate, 0);
    (st.0.update(b, sorted_insert(st.0[b], t)), st.1.insert(t.tx_hash, (b as usize, st.0[b].len() as usize)))
}

/// The buckets and index after placing each of `ts` in turn.
pub open spec fn insert_all(
    st: (Seq<Seq<PrioritizedView>>, Map<Seq<u8>, (usize, usize)>),
    bounds: Seq<(u64, u64)>,
    ts: Seq<PrioritizedView>,
) -> (Seq<Seq<PrioritizedView>>, Map<Seq<u8>, (usize, usize)>)
    decreases ts.len(),
{
    if ts.len() == 0 {
        st
    } else {
        insert_one(insert_all(st, bounds, ts.drop_last()), bounds, ts.last())
    }
}

/// With the default thresholds, every fee rate below `u64::MAX` has a
/// bucket.
pub proof fn lemma_default_bounds_fit(fee: u64)
    ensures
        fee < u64::MAX ==> first_fit(threshold_bounds(seq![1u64, 10u64, 100u64, 1000u64]), fee, 0) < 5,
        0 <= first_fit(threshold_bounds(seq![1u64, 10u64, 100u64, 1000u64]), fee, 0),
        fee == u64::MAX ==> first_fit(threshold_bounds(seq![1u64, 10u64, 100u64, 1000u64]), fee, 0) == 5,
        threshold_bounds(seq![1u64, 10u64, 100u64, 1000u64]).len() == 5,
{
    let bs = threshold_bounds(seq![1u64, 10u64, 100u64, 1000u64]);
    assert(bs[0] == (0u64, 1u64));
    assert(bs[1] == (1u64, 10u64));
    assert(bs[2] == (10u64, 100u64));
    assert(bs[3] == (100u64, 1000u64));
    assert(bs[4] == (1000u64, u64::MAX));
    if fee < 1 {
        lemma_first_fit(bs, fee, 0, 0);
    } else if fee < 10 {
        lemma_first_fit(bs, fee, 0, 1);
    } else if fee < 100 {
        lemma_first_fit(bs, fee, 0, 2);
    } else if fee < 1000 {
        lemma_first_fit(bs, fee, 0, 3);
    } else if fee < u64::MAX {
        lemma_first_fit(bs, fee, 0, 4);
    } else {
        lemma_first_fit(bs, fee, 0, 5);
    }
}
} // verus!
