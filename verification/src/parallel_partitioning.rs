//! Partitioning transactions into validation shards: a transaction goes to
//! the shard its first spent output hashes to, and takes along every earlier
//! transaction it shares a spent output with, so transactions that spend a
//! common output always share a shard.

use vstd::prelude::*;
use std::collections::HashMap;
use std::collections::hash_map::DefaultHasher;
use std::hash::{BuildHasher, BuildHasherDefault};
use crate::conflict::OutPoint;
use crate::external::bincode_encode_hash;
use crate::keyed::{KeyMap, KeySet, KeyOps, key_views, push_to_list, copy_list};
use crate::text::{dec_string, push_decimal};
use crate::transaction::{Transaction, TransactionView, TxInputView, hash_key_spec};

verus! {

broadcast use vstd::std_specs::hash::group_hash_axioms;

/// An outpoint as a value: the spent transaction's hash and the index.
pub type OutPointView = (Seq<u8>, u32);

/// The value that `DefaultHasher` gives an outpoint's hash and index.
pub uninterp spec fn outpoint_hash(tx_hash: Seq<u8>, index: u32) -> u64;

/// The value that `DefaultHasher` gives a byte string.
pub uninterp spec fn bytes_hash(bytes: Seq<u8>) -> u64;

/// Hashes an outpoint's hash bytes, then its index, with a fresh
/// `DefaultHasher` (`BuildHasher::hash_one`). `DefaultHasher::new` hashers
/// are all the same, unseeded, so the result is a function of the two.
#[verifier::external_body]
fn default_hash_outpoint(tx_hash: &Vec<u8>, index: u32) -> (h: u64)
    ensures
        h == outpoint_hash(tx_hash@, index),
{
    BuildHasherDefault::<DefaultHasher>::default().hash_one((tx_hash, index))
}

/// Hashes a byte vector with a fresh `DefaultHasher`
/// (`BuildHasher::hash_one`).
#[verifier::external_body]
fn default_hash_bytes(bytes: &Vec<u8>) -> (h: u64)
    ensures
        h == bytes_hash(bytes@),
{
    BuildHasherDefault::<DefaultHasher>::default().hash_one(bytes)
}

/// Settings of the partitioner.
#[derive(Clone, Copy, Debug)]
pub struct PartitionConfig {
    /// Number of shards
    pub num_shards: usize,
    /// Whether outpoints spent by several transactions are reported
    pub detect_conflicts: bool,
    /// Most transactions a shard may take
    pub max_per_shard: usize,
}

impl Default for PartitionConfig {
    fn default() -> (c: Self)
        ensures
            c == (PartitionConfig { num_shards: 4, detect_conflicts: true, max_per_shard: 5000 }),
    {
        PartitionConfig { num_shards: 4, detect_conflicts: true, max_per_shard: 5000 }
    }
}

/// Outcome of a partitioning.
pub struct PartitionResult {
    /// Shards by index
    pub shards: Vec<Vec<Transaction>>,
    /// Shard of each transaction, by hash
    pub tx_to_shard: KeyMap<Vec<u8>, usize>,
    /// Every outpoint spent
    pub all_outpoints: KeySet<OutPoint>,
    /// Outpoints spent more than once, with the spenders in order
    pub conflicts: KeyMap<OutPoint, Vec<Vec<u8>>>,
}

/// Statistics of a partitioning.
#[derive(Clone, Copy, Debug)]
pub struct PartitionStats {
    pub total_transactions: usize,
    pub num_shards: usize,
    pub avg_shard_size: usize,
    pub min_shard_size: usize,
    pub max_shard_size: usize,
    pub conflicts_detected: usize,
    pub total_outpoints: usize,
}

/// The outpoints a transaction spends, in input order.
pub open spec fn tx_outpoints(tx: TransactionView) -> Seq<OutPointView> {
    tx.inputs.map_values(|i: TxInputView| (hash_key_spec(i.prev_tx), i.index))
}

/// A hash reduced to a shard index; zero shards give shard zero.
pub open spec fn shard_of_hash(h: u64, n: usize) -> int {
    if n == 0 { 0 } else { ((h as usize) % n) as int }
}

/// The shard of a transaction: that of its first spent outpoint, or that of
/// its own hash when it spends nothing.
pub open spec fn primary_shard(tx: TransactionView, n: usize) -> int {
    let ops = tx_outpoints(tx);
    if ops.len() > 0 {
        shard_of_hash(outpoint_hash(ops[0].0, ops[0].1), n)
    } else {
        shard_of_hash(bytes_hash(hash_key_spec(tx.id)), n)
    }
}

/// Whether two transactions spend a common outpoint.
pub open spec fn shares(x: TransactionView, y: TransactionView) -> bool {
    exists|a: int, b: int| 0 <= a < tx_outpoints(x).len() && 0 <= b < tx_outpoints(y).len()
        && #[trigger] tx_outpoints(x)[a] == #[trigger] tx_outpoints(y)[b]
}

/// Shard `s` is touched by `x`: an earlier transaction in it (by the
/// assignment `a` of `prev`) spends an outpoint that `x` spends.
pub open spec fn touched(prev: Seq<TransactionView>, a: Seq<int>, x: TransactionView, s: int) -> bool {
    exists|k: int| 0 <= k < prev.len() && shares(prev[k], x) && #[trigger] a[k] == s
}

/// The shard of each transaction, in order: a transaction goes to its
/// primary shard, and every earlier transaction in a shard it touches moves
/// there with it, so that transactions spending a common outpoint always
/// share a shard.
pub open spec fn assign(txs: Seq<TransactionView>, n: usize) -> Seq<int>
    decreases txs.len(),
{
    if txs.len() == 0 {
        Seq::empty()
    } else {
        let prev = txs.drop_last();
        let a = assign(prev, n);
        let x = txs.last();
        let p = primary_shard(x, n);
        Seq::new(a.len(), |j: int| if touched(prev, a, x, a[j]) { p } else { a[j] }).push(p)
    }
}

/// Every transaction gets a shard below `n`, and any two transactions that
/// spend a common outpoint get the same one.
pub proof fn lemma_assign(txs: Seq<TransactionView>, n: usize)
    requires
        n > 0,
    ensures
        assign(txs, n).len() == txs.len(),
        forall|i: int| 0 <= i < txs.len() ==> 0 <= #[trigger] assign(txs, n)[i] < n,
        forall|i: int, j: int| 0 <= i < txs.len() && 0 <= j < txs.len() && shares(#[trigger] txs[i], #[trigger] txs[j])
            ==> assign(txs, n)[i] == assign(txs, n)[j],
    decreases txs.len(),
{
    if txs.len() > 0 {
        let prev = txs.drop_last();
        lemma_assign(prev, n);
        let a = assign(prev, n);
        let x = txs.last();
        let p = primary_shard(x, n);
        let r = assign(txs, n);
        let last = txs.len() - 1;
        assert(r[last] == p);
        assert forall|i: int| 0 <= i < txs.len() implies 0 <= #[trigger] r[i] < n by {
            if i < last {
                assert(a[i] < n);
            }
        }
        assert forall|i: int, j: int| 0 <= i < txs.len() && 0 <= j < txs.len() && shares(#[trigger] txs[i], #[trigger] txs[j])
            implies r[i] == r[j] by {
            if i < last && j < last {
                assert(txs[i] == prev[i] && txs[j] == prev[j]);
                assert(a[i] == a[j]);
            } else if i < last && j == last {
                assert(txs[i] == prev[i]);
                assert(touched(prev, a, x, a[i]));
            } else if i == last && j < last {
                assert(txs[j] == prev[j]);
                let (u, v) = choose|u: int, v: int| 0 <= u < tx_outpoints(txs[i]).len() && 0 <= v < tx_outpoints(txs[j]).len()
                    && #[trigger] tx_outpoints(txs[i])[u] == #[trigger] tx_outpoints(txs[j])[v];
                assert(shares(prev[j], x)) by {
                    assert(tx_outpoints(prev[j])[v] == tx_outpoints(x)[u]);
                }
                assert(touched(prev, a, x, a[j]));
            }
        }
    }
}

/// Spends of `ops` by the transaction with hash `h` appended, in order, to
/// the spender lists.
pub open spec fn record_spends(m: Map<OutPointView, Seq<Seq<u8>>>, ops: Seq<OutPointView>, h: Seq<u8>)
    -> Map<OutPointView, Seq<Seq<u8>>>
    decreases ops.len(),
{
    if ops.len() == 0 {
        m
    } else {
        let r = record_spends(m, ops.drop_last(), h);
        let k = ops.last();
        r.insert(k, (if r.contains_key(k) { r[k] } else { Seq::empty() }).push(h))
    }
}

/// What a partitioning has built after a prefix of the transactions.
pub struct PartitionState {
    pub shards: Seq<Seq<TransactionView>>,
    pub tx_to_shard: Map<Seq<u8>, usize>,
    pub all_outpoints: Set<OutPointView>,
    pub spenders: Map<OutPointView, Seq<Seq<u8>>>,
}

/// Partitioning `txs` in order: the state built, or the first shard found
/// full.
pub open spec fn partition_run(txs: Seq<TransactionView>, cfg: PartitionConfig, a: Seq<int>) -> Result<PartitionState, int>
    decreases txs.len(),
{
    if txs.len() == 0 {
        Ok(PartitionState {
            shards: Seq::new(cfg.num_shards as nat, |i: int| Seq::<TransactionView>::empty()),
            tx_to_shard: Map::empty(),
            all_outpoints: Set::empty(),
            spenders: Map::empty(),
        })
    } else {
        match partition_run(txs.drop_last(), cfg, a) {
            Err(p) => Err(p),
            Ok(st) => {
                let tx = txs.last();
                let ops = tx_outpoints(tx);
                let h = hash_key_spec(tx.id);
                let p = a[txs.len() - 1];
                if st.shards[p].len() >= cfg.max_per_shard {
                    Err(p)
                } else {
                    Ok(PartitionState {
                        shards: st.shards.update(p, st.shards[p].push(tx)),
                        tx_to_shard: st.tx_to_shard.insert(h, p as usize),
                        all_outpoints: st.all_outpoints + ops.to_set(),
                        spenders: record_spends(st.spenders, ops, h),
                    })
                }
            },
        }
    }
}

/// The spender lists of outpoints spent more than once.
pub open spec fn multi_spent(m: Map<OutPointView, Seq<Seq<u8>>>) -> Map<OutPointView, Seq<Seq<u8>>> {
    Map::new(|k: OutPointView| m.contains_key(k) && m[k].len() > 1, |k: OutPointView| m[k])
}

/// The error text for a full shard.
pub open spec fn shard_full_text(p: nat, max: nat) -> Seq<char> {
    "Shard "@ + dec_string(p) + " exceeds max capacity "@ + dec_string(max)
}

/// The shards of a result as values.
pub open spec fn shards_view(s: Seq<Vec<Transaction>>) -> Seq<Seq<TransactionView>> {
    s.map_values(|v: Vec<Transaction>| v@.map_values(|t: Transaction| t@))
}

/// The spender lists of a map as values.
pub open spec fn lists_view(m: Map<OutPointView, Vec<Vec<u8>>>) -> Map<OutPointView, Seq<Seq<u8>>> {
    Map::new(|k: OutPointView| m.contains_key(k), |k: OutPointView| key_views(m[k]@))
}

/// Once a prefix runs into a full shard, so does the whole.
proof fn lemma_run_stops(txs: Seq<TransactionView>, cfg: PartitionConfig, a: Seq<int>, m: int)
    requires
        0 <= m <= txs.len(),
        partition_run(txs.take(m), cfg, a) is Err,
    ensures
        partition_run(txs, cfg, a) == partition_run(txs.take(m), cfg, a),
    decreases txs.len(),
{
    if m == txs.len() {
        assert(txs.take(m) =~= txs);
    } else {
        assert(txs.drop_last().take(m) =~= txs.take(m));
        lemma_run_stops(txs.drop_last(), cfg, a, m);
    }
}

/// The outpoints spent by the transactions of a shard, in order.
pub open spec fn shard_outpoints(s: Seq<TransactionView>) -> Seq<OutPointView>
    decreases s.len(),
{
    if s.len() == 0 {
        Seq::empty()
    } else {
        shard_outpoints(s.drop_last()) + tx_outpoints(s.last())
    }
}

/// No shard spends an outpoint twice.
pub open spec fn partition_safe(shards: Seq<Seq<TransactionView>>) -> bool {
    forall|k: int| 0 <= k < shards.len() ==> (#[trigger] shard_outpoints(shards[k])).no_duplicates()
}

/// Number of transactions in all shards.
pub open spec fn shard_total(shards: Seq<Seq<TransactionView>>) -> nat
    decreases shards.len(),
{
    if shards.len() == 0 { 0 } else { shard_total(shards.drop_last()) + shards.last().len() }
}

/// Size of the smallest shard, zero when there are none.
pub open spec fn shard_min(shards: Seq<Seq<TransactionView>>) -> nat
    decreases shards.len(),
{
    if shards.len() == 0 {
        0
    } else if shards.len() == 1 {
        shards[0].len()
    } else {
        let m = shard_min(shards.drop_last());
        if shards.last().len() < m { shards.last().len() } else { m }
    }
}

/// Size of the largest shard, zero when there are none.
pub open spec fn shard_max(shards: Seq<Seq<TransactionView>>) -> nat
    decreases shards.len(),
{
    if shards.len() == 0 {
        0
    } else {
        let m = shard_max(shards.drop_last());
        if shards.last().len() > m { shards.last().len() } else { m }
    }
}

/// The text of an unsafe partitioning.
pub open spec fn unsafe_text() -> Seq<char> {
    "Conflict within shard: OutPoint appears twice"@
}

proof fn lemma_shard_outpoints_prefix(s: Seq<TransactionView>, m: int)
    requires
        0 <= m <= s.len(),
    ensures
        shard_outpoints(s.take(m)).len() <= shard_outpoints(s).len(),
        shard_outpoints(s).take(shard_outpoints(s.take(m)).len() as int) == shard_outpoints(s.take(m)),
    decreases s.len(),
{
    if m == s.len() {
        assert(s.take(m) =~= s);
        assert(shard_outpoints(s).take(shard_outpoints(s).len() as int) =~= shard_outpoints(s));
    } else {
        assert(s.drop_last().take(m) =~= s.take(m));
        lemma_shard_outpoints_prefix(s.drop_last(), m);
        let a = shard_outpoints(s.drop_last());
        let b = shard_outpoints(s.take(m));
        assert(shard_outpoints(s).take(b.len() as int) =~= a.take(b.len() as int));
    }
}

proof fn lemma_push_no_dup(p: Seq<OutPointView>, x: OutPointView)
    requires
        p.no_duplicates(),
        !p.contains(x),
    ensures
        p.push(x).no_duplicates(),
{
    assert forall|i: int, j: int| 0 <= i < p.push(x).len() && 0 <= j < p.push(x).len() && i != j
        implies p.push(x)[i] != p.push(x)[j] by {
        if i == p.len() {
            assert(p[j] == p.push(x)[j]);
        } else if j == p.len() {
            assert(p[i] == p.push(x)[i]);
        }
    }
}

proof fn lemma_dup_prefix(s: Seq<OutPointView>, m: int)
    requires
        0 <= m <= s.len(),
        !s.take(m).no_duplicates(),
    ensures
        !s.no_duplicates(),
{
    let t = s.take(m);
    let (i, j) = choose|i: int, j: int| 0 <= i < t.len() && 0 <= j < t.len() && i != j && t[i] == t[j];
    assert(s[i] == s[j]);
}

/// Each transaction of a successful partitioning sits in its shard, and the
/// shards hold as many transactions as were given.
pub proof fn lemma_partition_places(txs: Seq<TransactionView>, cfg: PartitionConfig, a: Seq<int>)
    requires
        cfg.num_shards > 0,
        a.len() >= txs.len(),
        forall|i: int| 0 <= i < txs.len() ==> 0 <= #[trigger] a[i] < cfg.num_shards,
        partition_run(txs, cfg, a) is Ok,
    ensures
        ({
            let st = partition_run(txs, cfg, a)->Ok_0;
            &&& st.shards.len() == cfg.num_shards
            &&& shard_total(st.shards) == txs.len()
            &&& forall|i: int| 0 <= i < txs.len() ==> st.shards[#[trigger] a[i]].contains(txs[i])
        }),
    decreases txs.len(),
{
    if txs.len() == 0 {
        lemma_total_empty(Seq::new(cfg.num_shards as nat, |i: int| Seq::<TransactionView>::empty()));
    } else {
        lemma_partition_places(txs.drop_last(), cfg, a);
        let prev = partition_run(txs.drop_last(), cfg, a)->Ok_0;
        let st = partition_run(txs, cfg, a)->Ok_0;
        let tx = txs.last();
        let p = a[txs.len() - 1];
        assert(0 <= p < cfg.num_shards);
        lemma_total_update(prev.shards, p, tx);
        assert forall|i: int| 0 <= i < txs.len() implies st.shards[#[trigger] a[i]].contains(txs[i]) by {
            if i == txs.len() - 1 {
                assert(st.shards[p][st.shards[p].len() - 1] == tx);
            } else {
                assert(txs[i] == txs.drop_last()[i]);
                let q = a[i];
                assert(prev.shards[q].contains(txs.drop_last()[i]));
                let w = choose|w: int| 0 <= w < prev.shards[q].len() && prev.shards[q][w] == txs[i];
                if q == p {
                    assert(st.shards[q][w] == txs[i]);
                } else {
                    assert(st.shards[q] == prev.shards[q]);
                }
            }
        }
    }
}

proof fn lemma_total_empty(shards: Seq<Seq<TransactionView>>)
    requires
        forall|k: int| 0 <= k < shards.len() ==> (#[trigger] shards[k]).len() == 0,
    ensures
        shard_total(shards) == 0,
    decreases shards.len(),
{
    if shards.len() > 0 {
        assert forall|k: int| 0 <= k < shards.drop_last().len() implies (#[trigger] shards.drop_last()[k]).len() == 0 by {
            assert(shards.drop_last()[k] == shards[k]);
        }
        lemma_total_empty(shards.drop_last());
    }
}

proof fn lemma_total_prefix(shards: Seq<Seq<TransactionView>>, m: int)
    requires
        0 <= m <= shards.len(),
    ensures
        shard_total(shards.take(m)) <= shard_total(shards),
    decreases shards.len(),
{
    if m == shards.len() {
        assert(shards.take(m) =~= shards);
    } else {
        assert(shards.drop_last().take(m) =~= shards.take(m));
        lemma_total_prefix(shards.drop_last(), m);
    }
}

proof fn lemma_total_update(shards: Seq<Seq<TransactionView>>, p: int, tx: TransactionView)
    requires
        0 <= p < shards.len(),
    ensures
        shard_total(shards.update(p, shards[p].push(tx))) == shard_total(shards) + 1,
    decreases shards.len(),
{
    let u = shards.update(p, shards[p].push(tx));
    if p == shards.len() - 1 {
        assert(u.drop_last() =~= shards.drop_last());
    } else {
        lemma_total_update(shards.drop_last(), p, tx);
        assert(u.drop_last() =~= shards.drop_last().update(p, shards[p].push(tx)));
    }
}

/// Transactions that spend a common outpoint end up in the same shard of a
/// successful partitioning.
pub proof fn lemma_sharing_same_shard(txs: Seq<TransactionView>, cfg: PartitionConfig, a: int, b: int)
    requires
        cfg.num_shards > 0,
        partition_run(txs, cfg, assign(txs, cfg.num_shards)) is Ok,
        0 <= a < txs.len(),
        0 <= b < txs.len(),
        shares(txs[a], txs[b]),
    ensures
        ({
            let st = partition_run(txs, cfg, assign(txs, cfg.num_shards))->Ok_0;
            exists|p: int| 0 <= p < st.shards.len() && #[trigger] st.shards[p].contains(txs[a]) && st.shards[p].contains(txs[b])
        }),
{
    let asg = assign(txs, cfg.num_shards);
    lemma_assign(txs, cfg.num_shards);
    lemma_partition_places(txs, cfg, asg);
    let st = partition_run(txs, cfg, asg)->Ok_0;
    let p = asg[a];
    assert(asg[b] == p);
    assert(st.shards[p].contains(txs[a]) && st.shards[p].contains(txs[b]));
}

/// Splits transactions into shards.
pub struct ConflictFreePartitioner {
    pub config: PartitionConfig,
}

impl ConflictFreePartitioner {
    /// A partitioner with the default settings.
    pub fn new() -> (p: Self)
        ensures
            p.config == (PartitionConfig { num_shards: 4, detect_conflicts: true, max_per_shard: 5000 }),
    {
        ConflictFreePartitioner { config: PartitionConfig::default() }
    }

    pub fn with_config(config: PartitionConfig) -> (p: Self)
        ensures
            p.config == config,
    {
        ConflictFreePartitioner { config }
    }

    /// The outpoints a transaction spends, in input order.
    fn extract_outpoints(tx: &Transaction) -> (r: Vec<OutPoint>)
        ensures
            key_views(r@) == tx_outpoints(tx@),
    {
        let mut r: Vec<OutPoint> = Vec::new();
        let mut i: usize = 0;
        while i < tx.inputs.len()
            invariant
                i <= tx@.inputs.len(),
                key_views(r@) == tx_outpoints(tx@).take(i as int),
            decreases tx@.inputs.len() - i,
        {
            let input = &tx.inputs[i];
            let op = OutPoint::new(bincode_encode_hash(&input.prev_tx.bytes), input.index);
            let ghost before = r@;
            let ghost opv = op@;
            proof {
                assert(tx@.inputs[i as int] == input@);
                assert(opv == tx_outpoints(tx@)[i as int]);
            }
            r.push(op);
            proof {
                assert(key_views(r@) =~= key_views(before).push(opv));
                assert(key_views(r@) =~= tx_outpoints(tx@).take(i + 1));
            }
            i = i + 1;
        }
        proof {
            assert(tx_outpoints(tx@).take(tx@.inputs.len() as int) =~= tx_outpoints(tx@));
        }
        r
    }

    /// Whether two outpoint lists have an outpoint in common.
    fn outpoints_meet(x: &Vec<OutPoint>, y: &Vec<OutPoint>) -> (b: bool)
        ensures
            b == exists|a: int, c: int| 0 <= a < x@.len() && 0 <= c < y@.len()
                && #[trigger] key_views(x@)[a] == #[trigger] key_views(y@)[c],
    {
        let mut a: usize = 0;
        while a < x.len()
            invariant
                a <= x@.len(),
                forall|a2: int, c: int| 0 <= a2 < a && 0 <= c < y@.len() ==> #[trigger] key_views(x@)[a2] != #[trigger] key_views(y@)[c],
            decreases x@.len() - a,
        {
            let mut c: usize = 0;
            while c < y.len()
                invariant
                    a < x@.len(),
                    c <= y@.len(),
                    forall|a2: int, c2: int| 0 <= a2 < a && 0 <= c2 < y@.len() ==> #[trigger] key_views(x@)[a2] != #[trigger] key_views(y@)[c2],
                    forall|c2: int| 0 <= c2 < c ==> key_views(x@)[a as int] != #[trigger] key_views(y@)[c2],
                decreases y@.len() - c,
            {
                let same = x[a].index == y[c].index && crate::bytes::bytes_eq(x[a].tx_hash.as_slice(), y[c].tx_hash.as_slice());
                proof {
                    assert(key_views(x@)[a as int] == x@[a as int]@);
                    assert(key_views(y@)[c as int] == y@[c as int]@);
                }
                if same {
                    return true;
                }
                c = c + 1;
            }
            a = a + 1;
        }
        false
    }

    /// The primary shard of `tx`, whose outpoints are `ops`.
    fn primary_of(tx: &Transaction, ops: &Vec<OutPoint>, n: usize) -> (p: usize)
        requires
            n > 0,
            key_views(ops@) == tx_outpoints(tx@),
        ensures
            p == primary_shard(tx@, n),
    {
        if ops.len() > 0 {
            proof {
                assert(ops@[0]@ == tx_outpoints(tx@)[0]);
            }
            Self::hash_to_shard(&ops[0], n)
        } else {
            let tx_hash = bincode_encode_hash(&tx.id.bytes);
            (default_hash_bytes(&tx_hash) as usize) % n
        }
    }

    /// The shard of each transaction, as `assign` gives it.
    fn assign_shards(transactions: &Vec<Transaction>, n: usize) -> (r: Vec<usize>)
        requires
            n > 0,
        ensures
            r@.len() == transactions@.len(),
            forall|i: int| 0 <= i < r@.len() ==> (#[trigger] r@[i]) as int == assign(transactions@.map_values(|t: Transaction| t@), n)[i],
    {
        let ghost txs = transactions@.map_values(|t: Transaction| t@);
        let mut shard_of: Vec<usize> = Vec::new();
        let mut ops_all: Vec<Vec<OutPoint>> = Vec::new();
        let mut i: usize = 0;
        while i < transactions.len()
            invariant
                txs == transactions@.map_values(|t: Transaction| t@),
                n > 0,
                i <= txs.len(),
                shard_of@.len() == i,
                ops_all@.len() == i,
                forall|k: int| 0 <= k < i ==> key_views(#[trigger] ops_all@[k]@) == tx_outpoints(txs[k]),
                forall|k: int| 0 <= k < i ==> shard_of@[k] as int == #[trigger] assign(txs.take(i as int), n)[k],
            decreases txs.len() - i,
        {
            let ghost prev = txs.take(i as int);
            let ghost a = assign(prev, n);
            let ghost x = txs[i as int];
            proof {
                lemma_assign(prev, n);
            }
            let tx = &transactions[i];
            proof {
                assert(tx@ == x);
            }
            let ops = Self::extract_outpoints(tx);
            let p = Self::primary_of(tx, &ops, n);
            let mut marks: Vec<bool> = Vec::new();
            let mut z: usize = 0;
            while z < n
                invariant
                    z <= n,
                    marks@.len() == z,
                    forall|s: int| 0 <= s < z ==> !marks@[s],
                decreases n - z,
            {
                marks.push(false);
                z = z + 1;
            }
            let mut k: usize = 0;
            while k < i
                invariant
                    txs == transactions@.map_values(|t: Transaction| t@),
                    k <= i,
                    i < txs.len(),
                    prev == txs.take(i as int),
                    a == assign(prev, n),
                    a.len() == i,
                    x == txs[i as int],
                    forall|q: int| 0 <= q < i ==> 0 <= #[trigger] a[q] < n,
                    marks@.len() == n,
                    shard_of@.len() == i,
                    ops_all@.len() == i,
                    key_views(ops@) == tx_outpoints(x),
                    forall|q: int| 0 <= q < i ==> key_views(#[trigger] ops_all@[q]@) == tx_outpoints(txs[q]),
                    forall|q: int| 0 <= q < i ==> shard_of@[q] as int == #[trigger] a[q],
                    forall|s: int| 0 <= s < n ==> marks@[s] == exists|k2: int| 0 <= k2 < k && shares(prev[k2], x) && #[trigger] a[k2] == s,
                decreases i - k,
            {
                let meet = Self::outpoints_meet(&ops_all[k], &ops);
                proof {
                    assert(prev[k as int] == txs[k as int]);
                    assert(meet == shares(prev[k as int], x)) by {
                        if meet {
                            let (u, v) = choose|u: int, v: int| 0 <= u < ops_all@[k as int]@.len() && 0 <= v < ops@.len()
                                && #[trigger] key_views(ops_all@[k as int]@)[u] == #[trigger] key_views(ops@)[v];
                            assert(tx_outpoints(prev[k as int])[u] == tx_outpoints(x)[v]);
                        }
                        if shares(prev[k as int], x) {
                            let (u, v) = choose|u: int, v: int| 0 <= u < tx_outpoints(prev[k as int]).len() && 0 <= v < tx_outpoints(x).len()
                                && #[trigger] tx_outpoints(prev[k as int])[u] == #[trigger] tx_outpoints(x)[v];
                            assert(key_views(ops_all@[k as int]@)[u] == key_views(ops@)[v]);
                        }
                    }
                }
                let ghost m0 = marks@;
                let sk = shard_of[k];
                proof {
                    assert(sk as int == a[k as int]);
                    assert(0 <= a[k as int] < n);
                }
                if meet {
                    marks.set(sk, true);
                }
                proof {
                    assert forall|s: int| 0 <= s < n implies marks@[s] == exists|k2: int| 0 <= k2 < k + 1 && shares(prev[k2], x) && #[trigger] a[k2] == s by {
                        if meet && s == sk as int {
                            assert(marks@[s]);
                            assert(shares(prev[k as int], x) && a[k as int] == s);
                        } else {
                            assert(marks@[s] == m0[s]);
                            if exists|k2: int| 0 <= k2 < k + 1 && shares(prev[k2], x) && #[trigger] a[k2] == s {
                                let k2 = choose|k2: int| 0 <= k2 < k + 1 && shares(prev[k2], x) && #[trigger] a[k2] == s;
                                if k2 == k {
                                    assert(false);
                                }
                                assert(m0[s]);
                            }
                        }
                    }
                }
                k = k + 1;
            }
            let ghost merged = Seq::new(a.len(), |j: int| if touched(prev, a, x, a[j]) { p as int } else { a[j] });
            proof {
                assert forall|s: int| 0 <= s < n implies marks@[s] == touched(prev, a, x, s) by {}
            }
            let mut j: usize = 0;
            while j < i
                invariant
                    j <= i,
                    a.len() == i,
                    marks@.len() == n,
                    shard_of@.len() == i,
                    forall|q: int| 0 <= q < i ==> 0 <= #[trigger] a[q] < n,
                    forall|s: int| 0 <= s < n ==> marks@[s] == touched(prev, a, x, s),
                    merged == Seq::new(a.len(), |j: int| if touched(prev, a, x, a[j]) { p as int } else { a[j] }),
                    forall|q: int| 0 <= q < j ==> shard_of@[q] as int == #[trigger] merged[q],
                    forall|q: int| j <= q < i ==> shard_of@[q] as int == #[trigger] a[q],
                decreases i - j,
            {
                let sj = shard_of[j];
                proof {
                    assert(sj as int == a[j as int]);
                }
                if marks[sj] {
                    shard_of.set(j, p);
                }
                proof {
                    assert(merged[j as int] == (if touched(prev, a, x, a[j as int]) { p as int } else { a[j as int] }));
                }
                j = j + 1;
            }
            shard_of.push(p);
            ops_all.push(ops);
            proof {
                let nxt = txs.take(i + 1);
                assert(nxt.drop_last() =~= prev);
                assert(nxt.last() == x);
                assert(assign(nxt, n) == merged.push(p as int));
                assert forall|q: int| 0 <= q < i + 1 implies shard_of@[q] as int == #[trigger] assign(nxt, n)[q] by {
                    if q < i {
                        assert(shard_of@[q] as int == merged[q]);
                    }
                }
                assert forall|q: int| 0 <= q < i + 1 implies key_views(#[trigger] ops_all@[q]@) == tx_outpoints(txs[q]) by {
                    if q == i {
                        assert(ops_all@[q] == ops);
                    }
                }
            }
            i = i + 1;
        }
        proof {
            assert(txs.take(txs.len() as int) =~= txs);
        }
        shard_of
    }

    /// The outpoints a transaction spends, in input order.
    pub fn extract_outpoints_from_tx(tx: &Transaction) -> (r: Vec<OutPoint>)
        ensures
            key_views(r@) == tx_outpoints(tx@),
    {
        Self::extract_outpoints(tx)
    }

    /// Puts each transaction, in order, into its shard (as `assign` gives
    /// it: transactions spending a common outpoint share one), recording the
    /// outpoints it spends; the first transaction whose shard is full stops
    /// the partitioning with an error naming the shard. With conflict
    /// detection on, the outpoints spent more than once are reported with
    /// their spenders.
    pub fn partition(&self, transactions: Vec<Transaction>) -> (r: Result<PartitionResult, String>)
        requires
            self.config.num_shards > 0 || transactions@.len() == 0,
        ensures
            match partition_run(transactions@.map_values(|t: Transaction| t@), self.config,
                assign(transactions@.map_values(|t: Transaction| t@), self.config.num_shards)) {
                Err(p) => r matches Err(msg) && msg@ == shard_full_text(p as nat, self.config.max_per_shard as nat),
                Ok(st) => r matches Ok(res) && {
                    &&& shards_view(res.shards@) == st.shards
                    &&& res.tx_to_shard.wf()
                    &&& res.tx_to_shard@ == st.tx_to_shard
                    &&& res.all_outpoints.wf()
                    &&& res.all_outpoints@ == st.all_outpoints
                    &&& res.conflicts.wf()
                    &&& lists_view(res.conflicts@) == (if self.config.detect_conflicts {
                            multi_spent(st.spenders) } else { Map::empty() })
                },
            },
    {
        let cfg = self.config;
        let n = cfg.num_shards;
        let ghost txs = transactions@.map_values(|t: Transaction| t@);
        let mut shards: Vec<Vec<Transaction>> = Vec::new();
        let mut k: usize = 0;
        while k < n
            invariant
                k <= n,
                shards@.len() == k,
                shards_view(shards@) == Seq::new(k as nat, |i: int| Seq::<TransactionView>::empty()),
            decreases n - k,
        {
            let ghost prev = shards@;
            let fresh: Vec<Transaction> = Vec::new();
            proof {
                assert(fresh@.map_values(|t: Transaction| t@) =~= Seq::<TransactionView>::empty());
            }
            shards.push(fresh);
            k = k + 1;
            proof {
                assert forall|x: int| 0 <= x < k implies #[trigger] shards_view(shards@)[x] == Seq::<TransactionView>::empty() by {
                    if x < k - 1 {
                        assert(shards@[x] == prev[x]);
                        assert(shards_view(prev)[x] == Seq::<TransactionView>::empty());
                    }
                }
                assert(shards_view(shards@) =~= Seq::new(k as nat, |i: int| Seq::<TransactionView>::empty()));
            }
        }
        let ghost asg = assign(txs, n);
        let shard_of: Vec<usize> = if n > 0 { Self::assign_shards(&transactions, n) } else { Vec::new() };
        proof {
            if n > 0 {
                lemma_assign(txs, n);
            }
        }
        let mut tx_to_shard: KeyMap<Vec<u8>, usize> = KeyMap::new();
        let mut all_outpoints: KeySet<OutPoint> = KeySet::new();
        let mut spenders: KeyMap<OutPoint, Vec<Vec<u8>>> = KeyMap::new();
        proof {
            assert(txs.take(0) =~= Seq::<TransactionView>::empty());
            assert(lists_view(spenders@) =~= Map::<OutPointView, Seq<Seq<u8>>>::empty());
        }
        let mut i: usize = 0;
        while i < transactions.len()
            invariant
                txs == transactions@.map_values(|t: Transaction| t@),
                cfg == self.config,
                n == cfg.num_shards,
                n > 0 || txs.len() == 0,
                i <= txs.len(),
                shards@.len() == n,
                tx_to_shard.wf(),
                all_outpoints.wf(),
                spenders.wf(),
                asg == assign(txs, n),
                shard_of@.len() == txs.len(),
                forall|q: int| 0 <= q < txs.len() ==> shard_of@[q] as int == #[trigger] asg[q],
                forall|q: int| 0 <= q < txs.len() ==> 0 <= #[trigger] asg[q] < n,
                partition_run(txs.take(i as int), cfg, asg) == Ok::<PartitionState, int>(PartitionState {
                    shards: shards_view(shards@),
                    tx_to_shard: tx_to_shard@,
                    all_outpoints: all_outpoints@,
                    spenders: lists_view(spenders@),
                }),
            decreases txs.len() - i,
        {
            let tx = &transactions[i];
            let ghost st = PartitionState {
                shards: shards_view(shards@),
                tx_to_shard: tx_to_shard@,
                all_outpoints: all_outpoints@,
                spenders: lists_view(spenders@),
            };
            proof {
                assert(txs.take(i + 1).drop_last() =~= txs.take(i as int));
                assert(txs.take(i + 1).last() == tx@);
            }
            let outpoints = Self::extract_outpoints(tx);
            let tx_hash = bincode_encode_hash(&tx.id.bytes);
            let ghost ops = tx_outpoints(tx@);
            let mut j: usize = 0;
            proof {
                assert(ops.take(0) =~= Seq::<OutPointView>::empty());
                assert(st.all_outpoints + ops.take(0).to_set() =~= st.all_outpoints);
            }
            while j < outpoints.len()
                invariant
                    key_views(outpoints@) == ops,
                    tx_hash@ == hash_key_spec(tx.id),
                    j <= ops.len(),
                    all_outpoints.wf(),
                    spenders.wf(),
                    all_outpoints@ == st.all_outpoints + ops.take(j as int).to_set(),
                    lists_view(spenders@) == record_spends(st.spenders, ops.take(j as int), tx_hash@),
                decreases ops.len() - j,
            {
                let ghost before = lists_view(spenders@);
                proof {
                    assert(ops.take(j + 1) =~= ops.take(j as int).push(ops[j as int]));
                    assert(ops.take(j + 1).drop_last() =~= ops.take(j as int));
                    ops.take(j as int).lemma_push_to_set_commute(ops[j as int]);
                    assert(outpoints@[j as int]@ == ops[j as int]);
                }
                all_outpoints.insert(outpoints[j].key_clone());
                push_to_list(&mut spenders, outpoints[j].key_clone(), crate::bytes::copy_bytes(tx_hash.as_slice()));
                j = j + 1;
                proof {
                    assert(all_outpoints@ =~= st.all_outpoints + ops.take(j as int).to_set());
                    assert(lists_view(spenders@) =~= record_spends(st.spenders, ops.take(j as int), tx_hash@));
                }
            }
            proof {
                assert(ops.take(ops.len() as int) =~= ops);
            }
            let primary: usize = shard_of[i];
            proof {
                assert(primary as int == asg[i as int]);
                assert(txs.take(i + 1).len() - 1 == i);
                assert(shards_view(shards@)[primary as int] == shards@[primary as int]@.map_values(|t: Transaction| t@));
            }
            if shards[primary].len() >= cfg.max_per_shard {
                let mut msg = String::new();
                msg.append("Shard ");
                push_decimal(&mut msg, primary as u64);
                msg.append(" exceeds max capacity ");
                push_decimal(&mut msg, cfg.max_per_shard as u64);
                proof {
                    reveal_strlit("Shard ");
                    reveal_strlit(" exceeds max capacity ");
                    assert(msg@ =~= shard_full_text(primary as nat, cfg.max_per_shard as nat));
                    lemma_run_stops(txs, cfg, asg, i + 1);
                }
                return Err(msg);
            }
            tx_to_shard.insert(crate::bytes::copy_bytes(tx_hash.as_slice()), primary);
            let ghost old_shards = shards@;
            let mut shard = shards.remove(primary);
            let ghost before_shard = shard@;
            let copy = tx.duplicate();
            let ghost cv = copy@;
            shard.push(copy);
            proof {
                assert(shard@.map_values(|t: Transaction| t@) =~= before_shard.map_values(|t: Transaction| t@).push(cv));
            }
            let ghost new_shard = shard;
            shards.insert(primary, shard);
            i = i + 1;
            proof {
                assert(shards@ =~= old_shards.update(primary as int, new_shard));
                assert(shards_view(shards@) =~= st.shards.update(primary as int, st.shards[primary as int].push(tx@)));
            }
        }
        proof {
            assert(txs.take(txs.len() as int) =~= txs);
        }
        let ghost fin = lists_view(spenders@);
        let mut conflicts: KeyMap<OutPoint, Vec<Vec<u8>>> = KeyMap::new();
        if cfg.detect_conflicts {
            proof {
                spenders.lemma_view();
            }
            let m = spenders.len();
            let mut q: usize = 0;
            proof {
                assert(lists_view(conflicts@) =~= multi_spent(fin).restrict(spenders.key_seq().take(0).to_set()));
            }
            while q < m
                invariant
                    spenders.wf(),
                    conflicts.wf(),
                    fin == lists_view(spenders@),
                    m == spenders.key_seq().len(),
                    spenders.key_seq().to_set() == spenders@.dom(),
                    q <= m,
                    lists_view(conflicts@) == multi_spent(fin).restrict(spenders.key_seq().take(q as int).to_set()),
                decreases m - q,
            {
                let ghost ks = spenders.key_seq();
                proof {
                    assert(ks.take(q + 1) =~= ks.take(q as int).push(ks[q as int]));
                    ks.take(q as int).lemma_push_to_set_commute(ks[q as int]);
                    spenders.lemma_view();
                    assert(spenders@.contains_key(ks[q as int]));
                }
                let list = spenders.value_at(q);
                proof {
                    assert(fin[ks[q as int]] == key_views(list@));
                }
                if list.len() > 1 {
                    let key = spenders.key_at(q).key_clone();
                    let copied = copy_list(list);
                    let ghost before = conflicts@;
                    conflicts.insert(key, copied);
                    proof {
                        assert(lists_view(conflicts@) =~= lists_view(before).insert(ks[q as int], fin[ks[q as int]]));
                    }
                } else {
                    proof {
                        assert(!(fin[ks[q as int]].len() > 1));
                    }
                }
                q = q + 1;
                proof {
                    assert(lists_view(conflicts@) =~= multi_spent(fin).restrict(ks.take(q as int).to_set()));
                }
            }
            proof {
                assert(spenders.key_seq().take(m as int) =~= spenders.key_seq());
                assert(lists_view(conflicts@) =~= multi_spent(fin));
            }
        } else {
            proof {
                assert(lists_view(conflicts@) =~= Map::<OutPointView, Seq<Seq<u8>>>::empty());
            }
        }
        Ok(PartitionResult { shards, tx_to_shard, all_outpoints, conflicts })
    }

    /// `Ok` when no shard spends an outpoint twice, else an error.
    pub fn verify_partition_safety(result: &PartitionResult) -> (r: Result<(), String>)
        ensures
            partition_safe(shards_view(result.shards@)) ==> r is Ok,
            !partition_safe(shards_view(result.shards@)) ==> (r matches Err(msg) && msg@ == unsafe_text()),
    {
        let ghost sv = shards_view(result.shards@);
        let mut k: usize = 0;
        while k < result.shards.len()
            invariant
                sv == shards_view(result.shards@),
                k <= sv.len(),
                forall|x: int| 0 <= x < k ==> (#[trigger] shard_outpoints(sv[x])).no_duplicates(),
            decreases sv.len() - k,
        {
            let shard = &result.shards[k];
            let ghost s = sv[k as int];
            proof {
                assert(s == shard@.map_values(|t: Transaction| t@));
            }
            let mut seen: KeySet<OutPoint> = KeySet::new();
            let mut t: usize = 0;
            proof {
                assert(s.take(0) =~= Seq::<TransactionView>::empty());
                assert(shard_outpoints(s.take(0)).to_set() =~= Set::<OutPointView>::empty());
            }
            while t < shard.len()
                invariant
                    sv == shards_view(result.shards@),
                    k < sv.len(),
                    s == sv[k as int],
                    s == shard@.map_values(|t: Transaction| t@),
                    t <= s.len(),
                    seen.wf(),
                    seen@ == shard_outpoints(s.take(t as int)).to_set(),
                    shard_outpoints(s.take(t as int)).no_duplicates(),
                decreases s.len() - t,
            {
                let ops = Self::extract_outpoints(&shard[t]);
                let ghost base = shard_outpoints(s.take(t as int));
                let ghost ov = key_views(ops@);
                proof {
                    assert(s.take(t + 1).drop_last() =~= s.take(t as int));
                    assert(s.take(t + 1).last() == shard@[t as int]@);
                    assert(shard_outpoints(s.take(t + 1)) == base + ov);
                    assert(base + ov.take(0) =~= base);
                }
                let mut j: usize = 0;
                while j < ops.len()
                    invariant
                        ov == key_views(ops@),
                        sv == shards_view(result.shards@),
                        k < sv.len(),
                        s == sv[k as int],
                        t < s.len(),
                        shard_outpoints(s.take(t + 1)) == base + ov,
                        j <= ov.len(),
                        seen.wf(),
                        seen@ == (base + ov.take(j as int)).to_set(),
                        (base + ov.take(j as int)).no_duplicates(),
                    decreases ov.len() - j,
                {
                    let ghost pre = base + ov.take(j as int);
                    proof {
                        assert(base + ov.take(j + 1) =~= pre.push(ov[j as int]));
                        pre.lemma_push_to_set_commute(ov[j as int]);
                        assert(ops@[j as int]@ == ov[j as int]);
                    }
                    if seen.contains(&ops[j]) {
                        proof {
                            assert(pre.push(ov[j as int]).len() == (pre.len() + 1) as int);
                            let w = choose|w: int| 0 <= w < pre.len() && pre[w] == ov[j as int];
                            assert(pre.push(ov[j as int])[w] == pre.push(ov[j as int])[pre.len() as int]);
                            let full = shard_outpoints(s);
                            lemma_shard_outpoints_prefix(s, t + 1);
                            let m = (base + ov).len();
                            assert((base + ov).take((pre.len() + 1) as int) =~= pre.push(ov[j as int]));
                            assert(full.take(m as int) == base + ov);
                            assert(full.take((pre.len() + 1) as int) =~= pre.push(ov[j as int]));
                            lemma_dup_prefix(full, (pre.len() + 1) as int);
                            assert(!partition_safe(sv));
                        }
                        let mut msg = String::new();
                        msg.append("Conflict within shard: OutPoint appears twice");
                        return Err(msg);
                    }
                    proof {
                        lemma_push_no_dup(pre, ov[j as int]);
                    }
                    seen.insert(ops[j].key_clone());
                    j = j + 1;
                }
                proof {
                    assert(ov.take(ov.len() as int) =~= ov);
                }
                t = t + 1;
            }
            proof {
                assert(s.take(s.len() as int) =~= s);
            }
            k = k + 1;
        }
        Ok(())
    }

    /// Number of transactions in each shard, by shard index.
    pub fn analyze_distribution(result: &PartitionResult) -> (d: HashMap<usize, usize>)
        ensures
            d@ == Map::new(|x: usize| (x as int) < result.shards@.len(), |x: usize| result.shards@[x as int]@.len() as usize),
    {
        let mut d: HashMap<usize, usize> = HashMap::new();
        let mut k: usize = 0;
        while k < result.shards.len()
            invariant
                k <= result.shards@.len(),
                d@ == Map::new(|x: usize| (x as int) < k, |x: usize| result.shards@[x as int]@.len() as usize),
            decreases result.shards@.len() - k,
        {
            d.insert(k, result.shards[k].len());
            k = k + 1;
            proof {
                assert(d@ =~= Map::new(|x: usize| (x as int) < k, |x: usize| result.shards@[x as int]@.len() as usize));
            }
        }
        proof {
            assert(d@ =~= Map::new(|x: usize| (x as int) < result.shards@.len(), |x: usize| result.shards@[x as int]@.len() as usize));
        }
        d
    }

    /// Number of outpoints reported as spent more than once.
    pub fn conflict_count(result: &PartitionResult) -> (n: usize)
        requires
            result.conflicts.wf(),
        ensures
            n == result.conflicts@.len(),
    {
        result.conflicts.len()
    }

    /// Totals of a partitioning: transactions, shards, average (rounded
    /// down), smallest and largest shard, conflicts and outpoints.
    pub fn get_statistics(result: &PartitionResult) -> (st: PartitionStats)
        requires
            result.conflicts.wf(),
            result.all_outpoints.wf(),
            shard_total(shards_view(result.shards@)) <= usize::MAX,
        ensures
            ({
                let sv = shards_view(result.shards@);
                &&& st.total_transactions == shard_total(sv)
                &&& st.num_shards == sv.len()
                &&& st.avg_shard_size == (if sv.len() > 0 { shard_total(sv) / sv.len() } else { 0 })
                &&& st.min_shard_size == shard_min(sv)
                &&& st.max_shard_size == shard_max(sv)
                &&& st.conflicts_detected == result.conflicts@.len()
                &&& st.total_outpoints == result.all_outpoints@.len()
            }),
    {
        let ghost sv = shards_view(result.shards@);
        let mut total: usize = 0;
        let mut min: usize = 0;
        let mut max: usize = 0;
        let mut k: usize = 0;
        while k < result.shards.len()
            invariant
                sv == shards_view(result.shards@),
                shard_total(sv) <= usize::MAX,
                k <= sv.len(),
                total == shard_total(sv.take(k as int)),
                min == shard_min(sv.take(k as int)),
                max == shard_max(sv.take(k as int)),
            decreases sv.len() - k,
        {
            let len = result.shards[k].len();
            proof {
                assert(sv.take(k + 1).drop_last() =~= sv.take(k as int));
                assert(sv.take(k + 1).last() == sv[k as int]);
                assert(sv[k as int].len() == len);
                lemma_total_prefix(sv, k + 1);
            }
            total = total + len;
            if k == 0 || len < min {
                min = len;
            }
            if len > max {
                max = len;
            }
            k = k + 1;
        }
        proof {
            assert(sv.take(sv.len() as int) =~= sv);
        }
        let count = result.shards.len();
        let avg = if count > 0 { total / count } else { 0 };
        PartitionStats {
            total_transactions: total,
            num_shards: count,
            avg_shard_size: avg,
            min_shard_size: min,
            max_shard_size: max,
            conflicts_detected: result.conflicts.len(),
            total_outpoints: result.all_outpoints.len(),
        }
    }

    /// The shard an outpoint goes to among `num_shards`.
    pub fn hash_to_shard(outpoint: &OutPoint, num_shards: usize) -> (s: usize)
        ensures
            s == shard_of_hash(outpoint_hash(outpoint.tx_hash@, outpoint.index), num_shards),
    {
        if num_shards == 0 {
            return 0;
        }
        let h = default_hash_outpoint(&outpoint.tx_hash, outpoint.index);
        (h as usize) % num_shards
    }
}

impl Default for ConflictFreePartitioner {
    fn default() -> (p: Self)
        ensures
            p.config == (PartitionConfig { num_shards: 4, detect_conflicts: true, max_per_shard: 5000 }),
    {
        Self::new()
    }
}

} // verus!
