//! Orphan transactions: well-formed transactions that spend outputs not yet
//! known. They wait in a bounded pool, indexed by the outputs they miss, until
//! a parent arrives and they can be adopted.

use vstd::prelude::*;
use dashmap::DashMap;
use indexmap::IndexMap;
use crate::conflict::OutPoint;
use crate::keyed::{KeyMap, KeyOps, key_views, push_to_list, copy_list, lemma_filter_distinct, lemma_filter_member};
use crate::bytes::copy_bytes;
use crate::counter::{wrap_add, lemma_wrap_add_zero, lemma_wrap_add_step};
use crate::external::clock_unix_nanos;
use crate::transaction::{Transaction, TransactionView};

verus! {

/// Which orphan leaves when the pool is full.
#[derive(Clone, Copy, Debug, PartialEq, Eq, Structural)]
pub enum OrphanEvictionPolicy {
    /// The orphan that came first
    Fifo,
    /// The orphan with the lowest fee rate
    FeeBased,
}

/// Limits of the orphan pool.
#[derive(Clone, Copy, Debug)]
pub struct OrphanPoolConfig {
    /// Most orphans held at once
    pub max_orphans: usize,
    /// Most orphans adopted at once
    pub max_adoption_batch: usize,
    /// How long an orphan may wait, in nanoseconds
    pub orphan_ttl_ns: u64,
    /// Which orphan leaves when the pool is full
    pub eviction_policy: OrphanEvictionPolicy,
}

impl Default for OrphanPoolConfig {
    fn default() -> (c: Self)
        ensures
            c.max_orphans == 5000,
            c.max_adoption_batch == 1000,
            c.orphan_ttl_ns == 1_200_000_000_000,
            c.eviction_policy == OrphanEvictionPolicy::FeeBased,
    {
        Self {
            max_orphans: 5000,
            max_adoption_batch: 1000,
            orphan_ttl_ns: 20 * 60 * 1_000_000_000,
            eviction_policy: OrphanEvictionPolicy::FeeBased,
        }
    }
}

/// An orphan with what the pool knows of it.
#[derive(Clone, Debug)]
pub struct OrphanEntry {
    pub transaction: Transaction,
    /// When it entered the pool, in nanoseconds since the UNIX epoch
    pub insertion_time_ns: u64,
    /// The outputs it spends that are not known yet
    pub missing_inputs: Vec<OutPoint>,
    pub size_bytes: usize,
    pub total_fee: u64,
}

/// An orphan entry as a value.
pub struct OrphanEntryView {
    pub transaction: TransactionView,
    pub insertion_time_ns: u64,
    pub missing_inputs: Seq<(Seq<u8>, u32)>,
    pub size_bytes: usize,
    pub total_fee: u64,
}

impl View for OrphanEntry {
    type V = OrphanEntryView;

    open spec fn view(&self) -> OrphanEntryView {
        OrphanEntryView {
            transaction: self.transaction@,
            insertion_time_ns: self.insertion_time_ns,
            missing_inputs: key_views(self.missing_inputs@),
            size_bytes: self.size_bytes,
            total_fee: self.total_fee,
        }
    }
}

/// Fee per byte, rounded down; zero for an empty transaction.
pub open spec fn entry_fee_rate(e: OrphanEntryView) -> u64 {
    if e.size_bytes == 0 {
        0
    } else {
        (e.total_fee / (e.size_bytes as u64)) as u64
    }
}

/// Nanoseconds since the entry came, as of `now`; zero if `now` is earlier.
pub open spec fn entry_age(e: OrphanEntryView, now: u64) -> u64 {
    if now >= e.insertion_time_ns {
        (now - e.insertion_time_ns) as u64
    } else {
        0
    }
}

/// Copies of a list of outpoints.
fn copy_outpoints(v: &Vec<OutPoint>) -> (r: Vec<OutPoint>)
    ensures
        key_views(r@) == key_views(v@),
{
    let mut r: Vec<OutPoint> = Vec::new();
    let mut i: usize = 0;
    while i < v.len()
        invariant
            i <= v@.len(),
            key_views(r@) == key_views(v@).take(i as int),
        decreases v@.len() - i,
    {
        let ghost prev = key_views(r@);
        r.push(v[i].key_clone());
        proof {
            assert(key_views(r@) =~= prev.push(v@[i as int]@));
            assert(key_views(v@).take(i + 1) =~= key_views(v@).take(i as int).push(v@[i as int]@));
        }
        i = i + 1;
    }
    proof {
        assert(key_views(v@).take(v@.len() as int) =~= key_views(v@));
    }
    r
}

impl OrphanEntry {
    /// An entry that came at `now`.
    pub fn new_at(tx: Transaction, missing_inputs: Vec<OutPoint>, size_bytes: usize, total_fee: u64, now: u64) -> (e: Self)
        ensures
            e.transaction == tx,
            e.insertion_time_ns == now,
            e.missing_inputs == missing_inputs,
            e.size_bytes == size_bytes,
            e.total_fee == total_fee,
    {
        Self { transaction: tx, insertion_time_ns: now, missing_inputs, size_bytes, total_fee }
    }

    /// An entry that comes now; the time is read from the system clock.
    pub fn new(tx: Transaction, missing_inputs: Vec<OutPoint>, size_bytes: usize, total_fee: u64) -> (e: Self)
        ensures
            e.transaction == tx,
            e.missing_inputs == missing_inputs,
            e.size_bytes == size_bytes,
            e.total_fee == total_fee,
    {
        let now = clock_unix_nanos();
        Self::new_at(tx, missing_inputs, size_bytes, total_fee, now)
    }

    /// Fee per byte, rounded down; zero for an empty transaction.
    pub fn fee_rate(&self) -> (r: u64)
        ensures
            r == entry_fee_rate(self@),
    {
        if self.size_bytes == 0 {
            0
        } else {
            self.total_fee / self.size_bytes as u64
        }
    }

    /// Nanoseconds since the entry came, as of `now`.
    pub fn age_ns_at(&self, now: u64) -> (a: u64)
        ensures
            a == entry_age(self@, now),
    {
        now.saturating_sub(self.insertion_time_ns)
    }

    /// Nanoseconds since the entry came; the time is read from the system
    /// clock.
    pub fn age_ns(&self) -> (a: u64)
        ensures
            exists|now: u64| a == #[trigger] entry_age(self@, now),
    {
        self.age_ns_at(clock_unix_nanos())
    }

    /// Whether the entry is older than `ttl_ns` as of `now`.
    pub fn is_expired_at(&self, ttl_ns: u64, now: u64) -> (b: bool)
        ensures
            b == (entry_age(self@, now) > ttl_ns),
    {
        self.age_ns_at(now) > ttl_ns
    }

    /// Whether the entry is older than `ttl_ns`; the time is read from the
    /// system clock.
    pub fn is_expired(&self, ttl_ns: u64) -> (b: bool)
        ensures
            exists|now: u64| b == (#[trigger] entry_age(self@, now) > ttl_ns),
    {
        self.is_expired_at(ttl_ns, clock_unix_nanos())
    }

    /// A copy of the entry.
    pub fn duplicate(&self) -> (c: Self)
        ensures
            c@ == self@,
    {
        Self {
            transaction: self.transaction.duplicate(),
            insertion_time_ns: self.insertion_time_ns,
            missing_inputs: copy_outpoints(&self.missing_inputs),
            size_bytes: self.size_bytes,
            total_fee: self.total_fee,
        }
    }
}

/// Counters of the orphan pool.
#[derive(Clone, Copy, Debug)]
pub struct OrphanStats {
    pub total_orphans: usize,
    pub total_memory_bytes: usize,
    pub unique_missing_parents: usize,
    pub adoption_count: u64,
    pub evicted_count: u64,
    pub expired_count: u64,
}

impl OrphanStats {
    /// All counters at zero.
    pub open spec fn spec_zero() -> Self {
        OrphanStats {
            total_orphans: 0,
            total_memory_bytes: 0,
            unique_missing_parents: 0,
            adoption_count: 0,
            evicted_count: 0,
            expired_count: 0,
        }
    }
}

impl Default for OrphanStats {
    fn default() -> (s: Self)
        ensures
            s == Self::spec_zero(),
    {
        OrphanStats {
            total_orphans: 0,
            total_memory_bytes: 0,
            unique_missing_parents: 0,
            adoption_count: 0,
            evicted_count: 0,
            expired_count: 0,
        }
    }
}

/// Orphans handed out for adoption.
#[derive(Clone, Debug)]
pub struct AdoptionResult {
    pub adopted_txs: Vec<Transaction>,
    pub adoption_count: usize,
    pub remaining_orphans: usize,
}

/// What a map from transaction hash to orphan entry holds.
pub uninterp spec fn orphan_entries(m: DashMap<Vec<u8>, OrphanEntry>) -> Map<Seq<u8>, OrphanEntryView>;

/// What an insertion-ordered map from transaction hash to arrival time holds,
/// in its order.
pub uninterp spec fn order_entries(m: IndexMap<Vec<u8>, u64>) -> Seq<(Seq<u8>, u64)>;

/// No orphans.
pub open spec fn no_orphans() -> Map<Seq<u8>, OrphanEntryView> {
    Map::empty()
}

/// The keys of an ordered map, in its order.
pub open spec fn order_keys(s: Seq<(Seq<u8>, u64)>) -> Seq<Seq<u8>> {
    s.map_values(|e: (Seq<u8>, u64)| e.0)
}

/// Calls `DashMap::new`: an empty map.
#[verifier::external_body]
fn orphans_new() -> (m: DashMap<Vec<u8>, OrphanEntry>)
    ensures
        orphan_entries(m) == no_orphans(),
{
    DashMap::new()
}

/// Calls `DashMap::len`: the number of keys.
#[verifier::external_body]
fn orphans_len(m: &DashMap<Vec<u8>, OrphanEntry>) -> (n: usize)
    ensures
        n == orphan_entries(*m).len(),
{
    m.len()
}

/// Calls `DashMap::contains_key`.
#[verifier::external_body]
fn orphans_contains(m: &DashMap<Vec<u8>, OrphanEntry>, k: &[u8]) -> (b: bool)
    ensures
        b == orphan_entries(*m).contains_key(k@),
{
    m.contains_key(k)
}

/// Calls `DashMap::get` and copies the entry found, if any.
#[verifier::external_body]
fn orphans_get(m: &DashMap<Vec<u8>, OrphanEntry>, k: &[u8]) -> (r: Option<OrphanEntry>)
    ensures
        match r {
            Some(e) => orphan_entries(*m).contains_key(k@) && e@ == orphan_entries(*m)[k@],
            None => !orphan_entries(*m).contains_key(k@),
        },
{
    m.get(k).map(|e| e.value().duplicate())
}

/// Calls `DashMap::insert`: the key now maps to the entry; a map holds
/// finitely many keys.
#[verifier::external_body]
fn orphans_insert(m: &mut DashMap<Vec<u8>, OrphanEntry>, k: Vec<u8>, v: OrphanEntry)
    ensures
        orphan_entries(*final(m)) == orphan_entries(*old(m)).insert(k@, v@),
        orphan_entries(*old(m)).dom().finite() ==> orphan_entries(*final(m)).dom().finite(),
{
    m.insert(k, v);
}

/// Calls `DashMap::remove` and hands out the entry removed, if any.
#[verifier::external_body]
fn orphans_remove(m: &mut DashMap<Vec<u8>, OrphanEntry>, k: &[u8]) -> (r: Option<OrphanEntry>)
    ensures
        orphan_entries(*final(m)) == orphan_entries(*old(m)).remove(k@),
        match r {
            Some(e) => orphan_entries(*old(m)).contains_key(k@) && e@ == orphan_entries(*old(m))[k@],
            None => !orphan_entries(*old(m)).contains_key(k@),
        },
{
    m.remove(k).map(|(_, e)| e)
}

/// Calls `DashMap::clear`: the map is empty.
#[verifier::external_body]
fn orphans_clear(m: &mut DashMap<Vec<u8>, OrphanEntry>)
    ensures
        orphan_entries(*final(m)) == no_orphans(),
{
    m.clear();
}

/// Copies the keys of a `DashMap` as its iterator hands them out: each key
/// once, in an order that the map's hashing decides.
#[verifier::external_body]
fn orphans_keys(m: &DashMap<Vec<u8>, OrphanEntry>) -> (r: Vec<Vec<u8>>)
    ensures
        key_views(r@).no_duplicates(),
        key_views(r@).to_set() == orphan_entries(*m).dom(),
{
    m.iter().map(|e| e.key().clone()).collect()
}

/// Calls `IndexMap::new`: an empty map.
#[verifier::external_body]
fn order_new() -> (m: IndexMap<Vec<u8>, u64>)
    ensures
        order_entries(m) == Seq::<(Seq<u8>, u64)>::empty(),
{
    IndexMap::new()
}

/// Calls `IndexMap::insert`: a key already held keeps its place and takes
/// the new value; a new key goes last. Keys are held once each.
#[verifier::external_body]
fn order_insert(m: &mut IndexMap<Vec<u8>, u64>, k: Vec<u8>, v: u64)
    ensures
        order_keys(order_entries(*old(m))).contains(k@) ==> order_entries(*final(m)) == order_entries(*old(m)).update(
            order_keys(order_entries(*old(m))).index_of(k@), (k@, v)),
        !order_keys(order_entries(*old(m))).contains(k@) ==> order_entries(*final(m)) == order_entries(*old(m)).push((k@, v)),
        order_keys(order_entries(*final(m))).no_duplicates(),
{
    m.insert(k, v);
}

/// Calls `IndexMap::shift_remove`: the entry of the key leaves and those
/// after it move up, keeping their order. Keys are held once each.
#[verifier::external_body]
fn order_shift_remove(m: &mut IndexMap<Vec<u8>, u64>, k: &[u8])
    ensures
        order_keys(order_entries(*old(m))).contains(k@) ==> order_entries(*final(m)) == order_entries(*old(m)).remove(
            order_keys(order_entries(*old(m))).index_of(k@)),
        !order_keys(order_entries(*old(m))).contains(k@) ==> order_entries(*final(m)) == order_entries(*old(m)),
        order_keys(order_entries(*final(m))).no_duplicates(),
{
    m.shift_remove(k);
}

/// Calls `IndexMap::first` and copies the key found, if any.
#[verifier::external_body]
fn order_first(m: &IndexMap<Vec<u8>, u64>) -> (r: Option<Vec<u8>>)
    ensures
        match r {
            Some(k) => order_entries(*m).len() > 0 && k@ == order_entries(*m)[0].0,
            None => order_entries(*m).len() == 0,
        },
{
    m.first().map(|(k, _)| k.clone())
}

/// Calls `IndexMap::clear`: the map is empty.
#[verifier::external_body]
fn order_clear(m: &mut IndexMap<Vec<u8>, u64>)
    ensures
        order_entries(*final(m)) == Seq::<(Seq<u8>, u64)>::empty(),
{
    m.clear();
}

/// The orphan pool as a value.
#[verifier::ext_equal]
pub struct OrphanState {
    pub pool: Map<Seq<u8>, OrphanEntryView>,
    pub index: Map<(Seq<u8>, u32), Seq<Seq<u8>>>,
    pub order: Seq<(Seq<u8>, u64)>,
    pub stats: OrphanStats,
}

/// `m - s`, or zero when `s` is larger.
pub open spec fn sat_sub(m: usize, s: int) -> usize {
    if m >= s {
        (m - s) as usize
    } else {
        0
    }
}

/// The ordered map without the entry of `h`.
pub open spec fn order_without(order: Seq<(Seq<u8>, u64)>, h: Seq<u8>) -> Seq<(Seq<u8>, u64)> {
    if order_keys(order).contains(h) {
        order.remove(order_keys(order).index_of(h))
    } else {
        order
    }
}

/// The ordered map with `h` at time `t`: in its place if held, else last.
pub open spec fn order_put(order: Seq<(Seq<u8>, u64)>, h: Seq<u8>, t: u64) -> Seq<(Seq<u8>, u64)> {
    if order_keys(order).contains(h) {
        order.update(order_keys(order).index_of(h), (h, t))
    } else {
        order.push((h, t))
    }
}

/// The lists with at least one member.
pub open spec fn nonempty_lists(idx: Map<(Seq<u8>, u32), Seq<Seq<u8>>>) -> Map<(Seq<u8>, u32), Seq<Seq<u8>>> {
    Map::new(|op: (Seq<u8>, u32)| idx.contains_key(op) && idx[op].len() > 0, |op: (Seq<u8>, u32)| idx[op])
}

/// The list without `h`.
pub open spec fn without_member(s: Seq<Seq<u8>>, h: Seq<u8>) -> Seq<Seq<u8>> {
    s.filter(|c: Seq<u8>| c != h)
}

/// The index without `h` in the lists of the outputs it missed; lists left
/// empty go.
pub open spec fn index_without(idx: Map<(Seq<u8>, u32), Seq<Seq<u8>>>, missed: Seq<(Seq<u8>, u32)>, h: Seq<u8>) -> Map<(Seq<u8>, u32), Seq<Seq<u8>>> {
    nonempty_lists(Map::new(
        |op: (Seq<u8>, u32)| idx.contains_key(op),
        |op: (Seq<u8>, u32)| if missed.contains(op) { without_member(idx[op], h) } else { idx[op] },
    ))
}

/// The index after `h` joins the list of each output in `ops`, in order.
pub open spec fn index_push_all(idx: Map<(Seq<u8>, u32), Seq<Seq<u8>>>, ops: Seq<(Seq<u8>, u32)>, h: Seq<u8>) -> Map<(Seq<u8>, u32), Seq<Seq<u8>>>
    decreases ops.len(),
{
    if ops.len() == 0 {
        idx
    } else {
        let prev = index_push_all(idx, ops.drop_last(), h);
        let op = ops.last();
        prev.insert(op, (if prev.contains_key(op) { prev[op] } else { Seq::empty() }).push(h))
    }
}

/// The pool after the orphan `h`, which it holds, is removed.
pub open spec fn after_remove(s: OrphanState, h: Seq<u8>) -> OrphanState {
    OrphanState {
        pool: s.pool.remove(h),
        index: index_without(s.index, s.pool[h].missing_inputs, h),
        order: order_without(s.order, h),
        stats: OrphanStats {
            total_orphans: s.pool.remove(h).len() as usize,
            total_memory_bytes: sat_sub(s.stats.total_memory_bytes, s.pool[h].size_bytes as int),
            ..s.stats
        },
    }
}

/// The pool after the orphans in `ks`, which it holds, are removed one
/// after the other.
pub open spec fn after_remove_all(s: OrphanState, ks: Seq<Seq<u8>>) -> OrphanState
    decreases ks.len(),
{
    if ks.len() == 0 {
        s
    } else {
        after_remove(after_remove_all(s, ks.drop_last()), ks.last())
    }
}

proof fn lemma_after_remove_all_pool(s: OrphanState, ks: Seq<Seq<u8>>)
    ensures
        after_remove_all(s, ks).pool == s.pool.remove_keys(ks.to_set()),
    decreases ks.len(),
{
    if ks.len() == 0 {
        assert(s.pool.remove_keys(ks.to_set()) =~= s.pool);
    } else {
        lemma_after_remove_all_pool(s, ks.drop_last());
        ks.drop_last().lemma_push_to_set_commute(ks.last());
        assert(ks.drop_last().push(ks.last()) =~= ks);
        assert(after_remove_all(s, ks).pool =~= s.pool.remove_keys(ks.to_set()));
    }
}

/// Cleaning up at `now` with lifetime `ttl` keeps exactly the orphans not
/// older than `ttl` (an orphan exactly `ttl` old stays), each unchanged.
pub proof fn lemma_cleanup_keeps_the_unexpired(s: OrphanState, ttl: u64, now: u64, ks: Seq<Seq<u8>>, s2: OrphanState)
    requires
        ks.to_set() == expired_set(s.pool, ttl, now),
        s2 == after_remove_all(s, ks),
    ensures
        forall|k: Seq<u8>| #[trigger] s2.pool.contains_key(k)
            <==> s.pool.contains_key(k) && entry_age(s.pool[k], now) <= ttl,
        forall|k: Seq<u8>| #[trigger] s2.pool.contains_key(k) ==> s2.pool[k] == s.pool[k],
{
    lemma_after_remove_all_pool(s, ks);
}

/// The pool after `h` is evicted, when it holds `h`.
pub open spec fn after_evict(s: OrphanState, h: Seq<u8>) -> OrphanState {
    if s.pool.contains_key(h) {
        let r = after_remove(s, h);
        OrphanState { stats: OrphanStats { evicted_count: wrap_add(r.stats.evicted_count, 1), ..r.stats }, ..r }
    } else {
        s
    }
}

/// The pool after `e` joins under `h` at order time `t`.
pub open spec fn after_add(s: OrphanState, h: Seq<u8>, e: OrphanEntryView, t: u64) -> OrphanState {
    let idx = index_push_all(s.index, e.missing_inputs, h);
    OrphanState {
        pool: s.pool.insert(h, e),
        index: idx,
        order: order_put(s.order, h, t),
        stats: OrphanStats {
            total_orphans: s.pool.insert(h, e).len() as usize,
            total_memory_bytes: s.stats.total_memory_bytes.wrapping_add(e.size_bytes),
            unique_missing_parents: idx.len() as usize,
            ..s.stats
        },
    }
}

/// `v` is an orphan of lowest fee rate, below the largest rate.
pub open spec fn fee_victim(pool: Map<Seq<u8>, OrphanEntryView>, v: Seq<u8>) -> bool {
    &&& pool.contains_key(v)
    &&& entry_fee_rate(pool[v]) < u64::MAX
    &&& forall|k: Seq<u8>| #[trigger] pool.contains_key(k) ==> entry_fee_rate(pool[v]) <= entry_fee_rate(pool[k])
}

/// Some orphan has a fee rate below the largest rate.
pub open spec fn has_fee_victim(pool: Map<Seq<u8>, OrphanEntryView>) -> bool {
    exists|k: Seq<u8>| #[trigger] pool.contains_key(k) && entry_fee_rate(pool[k]) < u64::MAX
}

/// Each child once, in order, that the pool holds.
pub open spec fn first_present(cs: Seq<Seq<u8>>, dom: Set<Seq<u8>>) -> Seq<Seq<u8>>
    decreases cs.len(),
{
    if cs.len() == 0 {
        Seq::empty()
    } else {
        let r = first_present(cs.drop_last(), dom);
        if dom.contains(cs.last()) && !cs.drop_last().contains(cs.last()) {
            r.push(cs.last())
        } else {
            r
        }
    }
}

/// Total size of the orphans `ks`.
pub open spec fn sizes_of(pool: Map<Seq<u8>, OrphanEntryView>, ks: Seq<Seq<u8>>) -> int
    decreases ks.len(),
{
    if ks.len() == 0 {
        0
    } else {
        sizes_of(pool, ks.drop_last()) + pool[ks.last()].size_bytes
    }
}

/// The ordered map without the entries of `ks`, one after the other.
pub open spec fn order_without_all(order: Seq<(Seq<u8>, u64)>, ks: Seq<Seq<u8>>) -> Seq<(Seq<u8>, u64)>
    decreases ks.len(),
{
    if ks.len() == 0 {
        order
    } else {
        order_without(order_without_all(order, ks.drop_last()), ks.last())
    }
}

/// The index after each orphan of `ks`, one after the other, is taken out
/// of the lists of the outputs it missed.
pub open spec fn index_without_all(
    idx: Map<(Seq<u8>, u32), Seq<Seq<u8>>>,
    pool: Map<Seq<u8>, OrphanEntryView>,
    ks: Seq<Seq<u8>>,
) -> Map<(Seq<u8>, u32), Seq<Seq<u8>>>
    decreases ks.len(),
{
    if ks.len() == 0 {
        idx
    } else {
        index_without(index_without_all(idx, pool, ks.drop_last()), pool[ks.last()].missing_inputs, ks.last())
    }
}

/// The pool after the orphans waiting for `parent` are adopted: they leave
/// the pool, the order, and the lists of every output they missed.
pub open spec fn after_adopt(s: OrphanState, parent: (Seq<u8>, u32)) -> OrphanState {
    let cs = if s.index.contains_key(parent) { s.index[parent] } else { Seq::empty() };
    let adopted = first_present(cs, s.pool.dom());
    OrphanState {
        pool: s.pool.remove_keys(cs.to_set()),
        index: nonempty_lists(index_without_all(s.index.remove(parent), s.pool, adopted)),
        order: order_without_all(s.order, adopted),
        stats: OrphanStats {
            total_orphans: if adopted.len() > 0 { s.pool.remove_keys(cs.to_set()).len() as usize } else { s.stats.total_orphans },
            total_memory_bytes: sat_sub(s.stats.total_memory_bytes, sizes_of(s.pool, adopted)),
            adoption_count: wrap_add(s.stats.adoption_count, adopted.len()),
            ..s.stats
        },
    }
}

proof fn lemma_first_present_exact(cs: Seq<Seq<u8>>, dom: Set<Seq<u8>>)
    ensures
        first_present(cs, dom).no_duplicates(),
        forall|k: Seq<u8>| #[trigger] first_present(cs, dom).contains(k) <==> cs.contains(k) && dom.contains(k),
    decreases cs.len(),
{
    if cs.len() > 0 {
        let q = cs.drop_last();
        let x = cs.last();
        let r = first_present(q, dom);
        lemma_first_present_exact(q, dom);
        assert forall|k: Seq<u8>| cs.contains(k) <==> q.contains(k) || k == x by {
            if cs.contains(k) {
                let i = cs.index_of(k);
                if i < cs.len() - 1 {
                    assert(q[i] == k);
                }
            }
            if q.contains(k) {
                let i = q.index_of(k);
                assert(cs[i] == k);
            }
            if k == x {
                assert(cs[cs.len() - 1] == x);
            }
        }
        if dom.contains(x) && !q.contains(x) {
            assert forall|k: Seq<u8>| r.push(x).contains(k) <==> r.contains(k) || k == x by {
                if r.push(x).contains(k) {
                    let i = r.push(x).index_of(k);
                    if i < r.len() {
                        assert(r[i] == k);
                    }
                }
                if r.contains(k) {
                    let i = r.index_of(k);
                    assert(r.push(x)[i] == k);
                }
                if k == x {
                    assert(r.push(x)[r.len() as int] == x);
                }
            }
            assert(r.push(x).no_duplicates()) by {
                assert forall|a: int, b: int| 0 <= a < b < r.push(x).len() implies r.push(x)[a] != r.push(x)[b] by {
                    if b == r.len() {
                        assert(r.contains(r[a]));
                    } else {
                        assert(r[a] != r[b]);
                    }
                }
            }
        }
        assert(first_present(cs, dom) == (if dom.contains(x) && !q.contains(x) { r.push(x) } else { r }));
        assert forall|k: Seq<u8>| #[trigger] first_present(cs, dom).contains(k) <==> cs.contains(k) && dom.contains(k) by {
            assert(cs.contains(k) <==> q.contains(k) || k == x);
            assert(r.contains(k) <==> q.contains(k) && dom.contains(k));
            if dom.contains(x) && !q.contains(x) {
                if r.push(x).contains(k) {
                    let i = r.push(x).index_of(k);
                    if i < r.len() {
                        assert(r[i] == k);
                    }
                }
                if r.contains(k) {
                    let i = r.index_of(k);
                    assert(r.push(x)[i] == k);
                }
                if k == x {
                    assert(r.push(x)[r.len() as int] == x);
                }
            }
        }
    }
}

/// Adopting for an output takes out of the pool exactly the orphans that
/// wait for it, and hands back each of those that was held once: an orphan
/// stays exactly when it was held and does not wait for the output, and
/// stays unchanged.
pub proof fn lemma_adoption_takes_the_waiting(s: OrphanState, parent: (Seq<u8>, u32))
    ensures
        ({
            let waiting = if s.index.contains_key(parent) { s.index[parent] } else { Seq::<Seq<u8>>::empty() };
            let after = after_adopt(s, parent);
            let adopted = adopted_for(s, parent);
            &&& forall|k: Seq<u8>| #[trigger] after.pool.contains_key(k) <==> s.pool.contains_key(k) && !waiting.contains(k)
            &&& forall|k: Seq<u8>| #[trigger] after.pool.contains_key(k) ==> after.pool[k] == s.pool[k]
            &&& adopted.no_duplicates()
            &&& forall|k: Seq<u8>| #[trigger] adopted.contains(k) <==> s.pool.contains_key(k) && waiting.contains(k)
        }),
{
    let waiting = if s.index.contains_key(parent) { s.index[parent] } else { Seq::<Seq<u8>>::empty() };
    lemma_first_present_exact(waiting, s.pool.dom());
}

/// The orphans adopted for `parent`, in order.
pub open spec fn adopted_for(s: OrphanState, parent: (Seq<u8>, u32)) -> Seq<Seq<u8>> {
    let cs = if s.index.contains_key(parent) { s.index[parent] } else { Seq::empty() };
    first_present(cs, s.pool.dom())
}

/// One transaction per orphan.
pub proof fn lemma_txs_of_len(pool: Map<Seq<u8>, OrphanEntryView>, ks: Seq<Seq<u8>>)
    ensures
        txs_of(pool, ks).len() == ks.len(),
    decreases ks.len(),
{
    if ks.len() > 0 {
        lemma_txs_of_len(pool, ks.drop_last());
    }
}

/// A total of sizes is never negative.
proof fn lemma_sizes_nonneg(pool: Map<Seq<u8>, OrphanEntryView>, ks: Seq<Seq<u8>>)
    ensures
        sizes_of(pool, ks) >= 0,
    decreases ks.len(),
{
    if ks.len() > 0 {
        lemma_sizes_nonneg(pool, ks.drop_last());
    }
}

/// Removing from a sequence elements that are not there leaves it as it is.
proof fn lemma_filter_keeps_all<A>(s: Seq<A>, p: spec_fn(A) -> bool)
    requires
        forall|i: int| 0 <= i < s.len() ==> p(s[i]),
    ensures
        s.filter(p) == s,
    decreases s.len(),
{
    reveal(Seq::filter);
    if s.len() > 0 {
        lemma_filter_keeps_all(s.drop_last(), p);
        assert(s.drop_last().push(s.last()) =~= s);
    } else {
        assert(s =~= Seq::<A>::empty());
    }
}

/// `s2` is `s` after one orphan is evicted by `policy`.
pub open spec fn evicted_by(s: OrphanState, policy: OrphanEvictionPolicy, s2: OrphanState) -> bool {
    match policy {
        OrphanEvictionPolicy::Fifo => s.order.len() > 0 && s2 == after_evict(s, s.order[0].0),
        OrphanEvictionPolicy::FeeBased => exists|v: Seq<u8>| #[trigger] fee_victim(s.pool, v) && s2 == after_evict(s, v),
    }
}

/// `policy` finds an orphan to evict in `s`.
pub open spec fn can_evict(s: OrphanState, policy: OrphanEvictionPolicy) -> bool {
    match policy {
        OrphanEvictionPolicy::Fifo => s.order.len() > 0,
        OrphanEvictionPolicy::FeeBased => has_fee_victim(s.pool),
    }
}

/// The entry that an orphan gets when it joins.
pub open spec fn joined_entry(tx: TransactionView, t: u64, missing: Seq<(Seq<u8>, u32)>, size: usize, fee: u64) -> OrphanEntryView {
    OrphanEntryView { transaction: tx, insertion_time_ns: t, missing_inputs: missing, size_bytes: size, total_fee: fee }
}

/// `s2` is `s` after the orphan `h` joins with entry `e` at order time `t`,
/// evicting one first when the pool is full.
pub open spec fn joined(s: OrphanState, config: OrphanPoolConfig, h: Seq<u8>, e: OrphanEntryView, t: u64, s2: OrphanState) -> bool {
    if s.pool.len() < config.max_orphans {
        s2 == after_add(s, h, e, t)
    } else {
        exists|s1: OrphanState| #[trigger] evicted_by(s, config.eviction_policy, s1) && s2 == after_add(s1, h, e, t)
    }
}

/// The transactions of the orphans `ks`.
pub open spec fn txs_of(pool: Map<Seq<u8>, OrphanEntryView>, ks: Seq<Seq<u8>>) -> Seq<TransactionView>
    decreases ks.len(),
{
    if ks.len() == 0 {
        Seq::empty()
    } else {
        txs_of(pool, ks.drop_last()).push(pool[ks.last()].transaction)
    }
}

/// Views of transactions.
pub open spec fn tx_views(v: Seq<Transaction>) -> Seq<TransactionView> {
    v.map_values(|t: Transaction| t@)
}

/// The members of `cs` that the pool holds, in order, repeats kept.
pub open spec fn held(cs: Seq<Seq<u8>>, pool: Map<Seq<u8>, OrphanEntryView>) -> Seq<Seq<u8>>
    decreases cs.len(),
{
    if cs.len() == 0 {
        Seq::empty()
    } else if pool.contains_key(cs.last()) {
        held(cs.drop_last(), pool).push(cs.last())
    } else {
        held(cs.drop_last(), pool)
    }
}

/// The orphans older than `ttl` as of `now`.
pub open spec fn expired_set(pool: Map<Seq<u8>, OrphanEntryView>, ttl: u64, now: u64) -> Set<Seq<u8>> {
    Set::new(|k: Seq<u8>| pool.contains_key(k) && entry_age(pool[k], now) > ttl)
}

/// The orphans whose age as of `now` lies in `[lo, hi]`.
pub open spec fn aged_set(pool: Map<Seq<u8>, OrphanEntryView>, lo: u64, hi: u64, now: u64) -> Set<Seq<u8>> {
    Set::new(|k: Seq<u8>| pool.contains_key(k) && lo <= entry_age(pool[k], now) <= hi)
}

/// Every orphan named in the index is held.
pub open spec fn index_consistent(s: OrphanState) -> bool {
    forall|op: (Seq<u8>, u32), c: Seq<u8>| s.index.contains_key(op) && #[trigger] s.index[op].contains(c) ==> s.pool.contains_key(c)
}

/// The pool after the orphans waiting for each of `ps` are adopted, one
/// output after the other.
pub open spec fn after_adopt_all(s: OrphanState, ps: Seq<(Seq<u8>, u32)>) -> OrphanState
    decreases ps.len(),
{
    if ps.len() == 0 {
        s
    } else {
        after_adopt(after_adopt_all(s, ps.drop_last()), ps.last())
    }
}

/// The transactions adopted for each of `ps`, one output after the other.
pub open spec fn adopted_all(s: OrphanState, ps: Seq<(Seq<u8>, u32)>) -> Seq<TransactionView>
    decreases ps.len(),
{
    if ps.len() == 0 {
        Seq::empty()
    } else {
        let before = after_adopt_all(s, ps.drop_last());
        adopted_all(s, ps.drop_last()) + txs_of(before.pool, adopted_for(before, ps.last()))
    }
}

/// Each output of `ops` is in the index after `h` joins their lists, and
/// without `h` each list is what it was (empty for an output new to it).
proof fn lemma_index_push_all(idx: Map<(Seq<u8>, u32), Seq<Seq<u8>>>, ops: Seq<(Seq<u8>, u32)>, h: Seq<u8>)
    ensures
        forall|op: (Seq<u8>, u32)| #[trigger] index_push_all(idx, ops, h).contains_key(op) == (idx.contains_key(op) || ops.contains(op)),
        forall|op: (Seq<u8>, u32)| #[trigger] index_push_all(idx, ops, h).contains_key(op) ==> without_member(index_push_all(idx, ops, h)[op], h)
            == without_member(if idx.contains_key(op) { idx[op] } else { Seq::empty() }, h),
        forall|op: (Seq<u8>, u32)| #[trigger] index_push_all(idx, ops, h).contains_key(op) && !ops.contains(op) ==> index_push_all(idx, ops, h)[op] == idx[op],
    decreases ops.len(),
{
    if ops.len() > 0 {
        let prev = index_push_all(idx, ops.drop_last(), h);
        lemma_index_push_all(idx, ops.drop_last(), h);
        let op0 = ops.last();
        let base = if prev.contains_key(op0) { prev[op0] } else { Seq::empty() };
        assert forall|op: (Seq<u8>, u32)| #[trigger] ops.contains(op) == (ops.drop_last().contains(op) || op == op0) by {
            if ops.contains(op) {
                let i = ops.index_of(op);
                if i < ops.len() - 1 {
                    assert(ops.drop_last()[i] == op);
                }
            }
            if ops.drop_last().contains(op) {
                let i = ops.drop_last().index_of(op);
                assert(ops[i] == op);
            }
            if op == op0 {
                assert(ops[ops.len() - 1] == op);
            }
        }
        reveal(Seq::filter);
        assert(base.push(h).drop_last() =~= base);
        assert(without_member(base.push(h), h) == without_member(base, h));
        if !prev.contains_key(op0) {
            assert(without_member(Seq::<Seq<u8>>::empty(), h) =~= Seq::<Seq<u8>>::empty());
        }
    }
}

/// An orphan that joins a pool below its limit and leaves again takes
/// nothing with it: the pool, the order and the index are as they were,
/// when it was not held, had no place in the order, was named in no list,
/// and no list was empty.
pub proof fn lemma_add_then_remove(s: OrphanState, h: Seq<u8>, e: OrphanEntryView, t: u64)
    requires
        !s.pool.contains_key(h),
        !order_keys(s.order).contains(h),
        forall|op: (Seq<u8>, u32)| #[trigger] s.index.contains_key(op) ==> !s.index[op].contains(h) && s.index[op].len() > 0,
    ensures
        after_remove(after_add(s, h, e, t), h).pool == s.pool,
        after_remove(after_add(s, h, e, t), h).order == s.order,
        after_remove(after_add(s, h, e, t), h).index == s.index,
{
    let a = after_add(s, h, e, t);
    assert(a.pool.remove(h) =~= s.pool);
    let o2 = s.order.push((h, t));
    assert(order_keys(o2) =~= order_keys(s.order).push(h));
    assert(order_keys(o2)[s.order.len() as int] == h);
    assert(order_keys(o2).index_of(h) == s.order.len()) by {
        order_keys(o2).index_of_first_ensures(h);
        let i = order_keys(o2).index_of(h);
        if i < s.order.len() {
            assert(order_keys(s.order)[i] == h);
        }
    }
    assert(o2.remove(s.order.len() as int) =~= s.order);
    lemma_index_push_all(s.index, e.missing_inputs, h);
    let idx2 = a.index;
    assert forall|op: (Seq<u8>, u32)| s.index.contains_key(op) implies without_member(s.index[op], h) == s.index[op] by {
        lemma_without_absent(s.index[op], h);
    }
    assert(after_remove(a, h).index =~= s.index) by {
        assert forall|op: (Seq<u8>, u32)| #[trigger] after_remove(a, h).index.contains_key(op) == s.index.contains_key(op) by {
            if idx2.contains_key(op) && !s.index.contains_key(op) && e.missing_inputs.contains(op) {
                assert(without_member(Seq::<Seq<u8>>::empty(), h) =~= Seq::<Seq<u8>>::empty()) by {
                    reveal(Seq::filter);
                }
            }
        }
    }
}

/// Orphans held in a bounded pool, indexed by the outputs they miss.
pub struct OrphanManager {
    orphan_pool: DashMap<Vec<u8>, OrphanEntry>,
    missing_input_index: KeyMap<OutPoint, Vec<Vec<u8>>>,
    insertion_order: IndexMap<Vec<u8>, u64>,
    config: OrphanPoolConfig,
    stats: OrphanStats,
}

impl OrphanManager {
    pub closed spec fn wf(&self) -> bool {
        &&& self.missing_input_index.wf()
        &&& orphan_entries(self.orphan_pool).dom().finite()
    }

    /// The pool as a value.
    pub closed spec fn state(&self) -> OrphanState {
        OrphanState {
            pool: orphan_entries(self.orphan_pool),
            index: Map::new(
                |op: (Seq<u8>, u32)| self.missing_input_index@.contains_key(op),
                |op: (Seq<u8>, u32)| key_views(self.missing_input_index@[op]@),
            ),
            order: order_entries(self.insertion_order),
            stats: self.stats,
        }
    }

    pub closed spec fn config_view(&self) -> OrphanPoolConfig {
        self.config
    }

    pub fn new(config: OrphanPoolConfig) -> (m: Self)
        ensures
            m.wf(),
            m.state() == (OrphanState {
                pool: no_orphans(),
                index: Map::empty(),
                order: Seq::empty(),
                stats: OrphanStats::spec_zero(),
            }),
            m.config_view() == config,
    {
        let m = Self {
            orphan_pool: orphans_new(),
            missing_input_index: KeyMap::new(),
            insertion_order: order_new(),
            config,
            stats: OrphanStats::default(),
        };
        proof {
            assert(m.state().index =~= Map::<(Seq<u8>, u32), Seq<Seq<u8>>>::empty());
            assert(m.state() =~= (OrphanState {
                pool: no_orphans(),
                index: Map::empty(),
                order: Seq::empty(),
                stats: OrphanStats::spec_zero(),
            }));
        }
        m
    }

    /// Whether the orphan `tx_hash` is held.
    pub fn contains(&self, tx_hash: &[u8]) -> (b: bool)
        ensures
            b == self.state().pool.contains_key(tx_hash@),
    {
        orphans_contains(&self.orphan_pool, tx_hash)
    }

    /// The orphan `tx_hash`, if held.
    pub fn get_orphan(&self, tx_hash: &[u8]) -> (r: Option<Transaction>)
        ensures
            match r {
                Some(tx) => self.state().pool.contains_key(tx_hash@) && tx@ == self.state().pool[tx_hash@].transaction,
                None => !self.state().pool.contains_key(tx_hash@),
            },
    {
        match orphans_get(&self.orphan_pool, tx_hash) {
            Some(e) => Some(e.transaction),
            None => None,
        }
    }

    /// The entry of the orphan `tx_hash`, if held.
    pub fn get_orphan_entry(&self, tx_hash: &[u8]) -> (r: Option<OrphanEntry>)
        ensures
            match r {
                Some(e) => self.state().pool.contains_key(tx_hash@) && e@ == self.state().pool[tx_hash@],
                None => !self.state().pool.contains_key(tx_hash@),
            },
    {
        orphans_get(&self.orphan_pool, tx_hash)
    }

    /// Number of orphans held.
    pub fn len(&self) -> (n: usize)
        ensures
            n == self.state().pool.len(),
    {
        orphans_len(&self.orphan_pool)
    }

    /// Whether no orphan is held.
    pub fn is_empty(&self) -> (b: bool)
        requires
            self.wf(),
        ensures
            b == (self.state().pool.len() == 0),
    {
        orphans_len(&self.orphan_pool) == 0
    }

    /// Drops the lists left empty from the index.
    fn drop_empty_lists(&mut self)
        requires
            old(self).wf(),
        ensures
            final(self).wf(),
            final(self).state() == (OrphanState { index: nonempty_lists(old(self).state().index), ..old(self).state() }),
            final(self).config_view() == old(self).config_view(),
    {
        let ghost i0 = self.state().index;
        let ghost ks = self.missing_input_index.key_seq();
        proof {
            self.missing_input_index.lemma_view();
        }
        let mut fresh: KeyMap<OutPoint, Vec<Vec<u8>>> = KeyMap::new();
        let n = self.missing_input_index.len();
        let mut i: usize = 0;
        while i < n
            invariant
                self.wf(),
                i0 == self.state().index,
                ks == self.missing_input_index.key_seq(),
                ks.no_duplicates(),
                ks.to_set() == self.missing_input_index@.dom(),
                n == ks.len(),
                i <= n,
                fresh.wf(),
                fresh@.dom() == Set::new(|op: (Seq<u8>, u32)| ks.take(i as int).contains(op) && i0[op].len() > 0),
                forall|op: (Seq<u8>, u32)| #[trigger] fresh@.contains_key(op) ==> key_views(fresh@[op]@) == i0[op],
            decreases n - i,
        {
            let ghost op = ks[i as int];
            proof {
                lemma_take_one_more(ks, i as int);
                assert(self.missing_input_index@.contains_key(op));
            }
            let list = self.missing_input_index.value_at(i);
            if list.len() > 0 {
                let k = self.missing_input_index.key_at(i).key_clone();
                fresh.insert(k, copy_list(list));
            }
            i = i + 1;
            proof {
                assert(fresh@.dom() =~= Set::new(|op: (Seq<u8>, u32)| ks.take(i as int).contains(op) && i0[op].len() > 0));
            }
        }
        let ghost before = self.state();
        self.missing_input_index = fresh;
        proof {
            assert(ks.take(n as int) =~= ks);
            assert(self.state().index =~= nonempty_lists(i0));
            assert(self.state() =~= (OrphanState { index: nonempty_lists(i0), ..before }));
        }
    }

    /// Takes `h` out of the lists of the outputs in `missed`; lists left
    /// empty go.
    fn unlist(&mut self, missed: &Vec<OutPoint>, tx_hash: &[u8])
        requires
            old(self).wf(),
        ensures
            final(self).wf(),
            final(self).config_view() == old(self).config_view(),
            final(self).state() == (OrphanState {
                index: index_without(old(self).state().index, key_views(missed@), tx_hash@),
                ..old(self).state()
            }),
    {
        let ghost s0 = self.state();
        let ghost hv = tx_hash@;
        let ghost mv = key_views(missed@);
        let ghost i0 = s0.index;
        let mut j: usize = 0;
        proof {
            assert(self.state().index =~= Map::new(
                |op: (Seq<u8>, u32)| i0.contains_key(op),
                |op: (Seq<u8>, u32)| if mv.take(0).contains(op) { without_member(i0[op], hv) } else { i0[op] },
            ));
        }
        while j < missed.len()
            invariant
                self.wf(),
                mv == key_views(missed@),
                hv == tx_hash@,
                j <= missed@.len(),
                self.state().index == Map::new(
                    |op: (Seq<u8>, u32)| i0.contains_key(op),
                    |op: (Seq<u8>, u32)| if mv.take(j as int).contains(op) { without_member(i0[op], hv) } else { i0[op] },
                ),
                self.state().pool == s0.pool,
                self.state().order == s0.order,
                self.stats == s0.stats,
                self.config == old(self).config,
            decreases missed@.len() - j,
        {
            let ghost op = mv[j as int];
            proof {
                lemma_take_one_more(mv, j as int);
            }
            let op_ref = &missed[j];
            proof {
                assert(op_ref@ == op);
            }
            match self.missing_input_index.get(op_ref) {
                Some(list) => {
                    let ghost bi = self.state().index;
                    proof {
                        assert(self.missing_input_index@.contains_key(op));
                        assert(bi.contains_key(op));
                        assert(i0.contains_key(op));
                    }
                    let kept = without_key(list, tx_hash);
                    let ghost kv = key_views(kept@);
                    self.missing_input_index.insert(op_ref.key_clone(), kept);
                    proof {
                        assert(self.state().index =~= bi.insert(op, kv));
                        assert(i0.contains_key(op));
                        assert(key_views(list@) == bi[op]);
                        if mv.take(j as int).contains(op) {
                            lemma_filter_twice_without(i0[op], hv);
                        }
                        assert(kv == without_member(i0[op], hv));
                    }
                },
                None => {},
            }
            j = j + 1;
            proof {
                assert(self.state().index =~= Map::new(
                    |op: (Seq<u8>, u32)| i0.contains_key(op),
                    |op: (Seq<u8>, u32)| if mv.take(j as int).contains(op) { without_member(i0[op], hv) } else { i0[op] },
                ));
            }
        }
        proof {
            assert(mv.take(missed@.len() as int) =~= mv);
            assert(self.state().index =~= Map::new(
                |op: (Seq<u8>, u32)| i0.contains_key(op),
                |op: (Seq<u8>, u32)| if mv.contains(op) { without_member(i0[op], hv) } else { i0[op] },
            ));
        }
        let ghost mid = self.state();
        self.drop_empty_lists();
        proof {
            assert(self.state().index =~= index_without(s0.index, mv, hv));
            assert(self.state() =~= (OrphanState { index: index_without(s0.index, mv, hv), ..s0 }));
        }
    }

    /// Removes the orphan `tx_hash` from the pool, the order and the lists
    /// of the outputs it missed; fails when it is not held.
    pub fn remove_orphan(&mut self, tx_hash: &[u8]) -> (r: Result<Transaction, String>)
        requires
            old(self).wf(),
        ensures
            final(self).wf(),
            final(self).config_view() == old(self).config_view(),
            r is Ok <==> old(self).state().pool.contains_key(tx_hash@),
            r matches Ok(tx) ==> tx@ == old(self).state().pool[tx_hash@].transaction
                && final(self).state() == after_remove(old(self).state(), tx_hash@),
            r matches Err(e) ==> e@ == "Orphan transaction not found"@ && final(self).state() == old(self).state(),
    {
        let ghost s0 = self.state();
        let ghost hv = tx_hash@;
        match orphans_remove(&mut self.orphan_pool, tx_hash) {
            Some(entry) => {
                order_shift_remove(&mut self.insertion_order, tx_hash);
                let ghost mv = key_views(entry.missing_inputs@);
                proof {
                    assert(entry@ == s0.pool[hv]);
                }
                self.unlist(&entry.missing_inputs, tx_hash);
                self.stats.total_orphans = orphans_len(&self.orphan_pool);
                self.stats.total_memory_bytes = self.stats.total_memory_bytes.saturating_sub(entry.size_bytes);
                proof {
                    let a = after_remove(s0, hv);
                    assert(mv == s0.pool[hv].missing_inputs);
                    assert(self.state().pool == a.pool);
                    assert(self.state().index =~= a.index);
                    assert(self.state().order == a.order);
                    assert(self.state().stats == a.stats);
                    assert(self.state() =~= after_remove(s0, hv));
                }
                Ok(entry.transaction)
            },
            None => {
                proof {
                    assert(self.state() =~= s0);
                }
                Err("Orphan transaction not found".to_string())
            },
        }
    }

    /// The held orphan of lowest fee rate below the largest rate, if any;
    /// among equals, the first that the map's iteration hands out.
    fn select_fee_victim(&self) -> (r: Option<Vec<u8>>)
        requires
            self.wf(),
        ensures
            match r {
                Some(v) => fee_victim(self.state().pool, v@),
                None => !has_fee_victim(self.state().pool),
            },
    {
        let ghost pool = self.state().pool;
        let keys = orphans_keys(&self.orphan_pool);
        let ghost kv = key_views(keys@);
        let mut best: Option<Vec<u8>> = None;
        let mut lowest: u64 = u64::MAX;
        let mut i: usize = 0;
        while i < keys.len()
            invariant
                pool == self.state().pool,
                kv == key_views(keys@),
                kv.to_set() == pool.dom(),
                i <= keys@.len(),
                forall|j: int| 0 <= j < i ==> lowest <= entry_fee_rate(#[trigger] pool[kv[j]]),
                match best {
                    Some(b) => pool.contains_key(b@) && entry_fee_rate(pool[b@]) == lowest && lowest < u64::MAX,
                    None => lowest == u64::MAX,
                },
            decreases keys@.len() - i,
        {
            proof {
                assert(kv.to_set().contains(kv[i as int]));
            }
            match orphans_get(&self.orphan_pool, keys[i].as_slice()) {
                Some(e) => {
                    let rate = e.fee_rate();
                    if rate < lowest {
                        lowest = rate;
                        best = Some(copy_bytes(keys[i].as_slice()));
                    }
                },
                None => {},
            }
            i = i + 1;
        }
        proof {
            match &best {
                Some(b) => {
                    assert forall|k: Seq<u8>| #[trigger] pool.contains_key(k) implies entry_fee_rate(pool[b@]) <= entry_fee_rate(pool[k]) by {
                        assert(kv.to_set().contains(k));
                        let j = kv.index_of(k);
                        assert(lowest <= entry_fee_rate(pool[kv[j]]));
                    }
                },
                None => {
                    if has_fee_victim(pool) {
                        let k = choose|k: Seq<u8>| #[trigger] pool.contains_key(k) && entry_fee_rate(pool[k]) < u64::MAX;
                        assert(kv.to_set().contains(k));
                        let j = kv.index_of(k);
                        assert(lowest <= entry_fee_rate(pool[kv[j]]));
                    }
                },
            }
        }
        best
    }

    /// Evicts one orphan by the policy: the first to come, or one of lowest
    /// fee rate. Fails when the policy finds none.
    fn evict_one(&mut self) -> (r: Result<(), String>)
        requires
            old(self).wf(),
        ensures
            final(self).wf(),
            final(self).config == old(self).config,
            r is Ok <==> can_evict(old(self).state(), old(self).config.eviction_policy),
            r is Ok ==> evicted_by(old(self).state(), old(self).config.eviction_policy, final(self).state()),
            r matches Err(e) ==> e@ == "No transaction available for eviction"@ && final(self).state() == old(self).state(),
    {
        let ghost s0 = self.state();
        let victim = match self.config.eviction_policy {
            OrphanEvictionPolicy::Fifo => order_first(&self.insertion_order),
            OrphanEvictionPolicy::FeeBased => self.select_fee_victim(),
        };
        match victim {
            Some(h) => {
                let ghost hv = h@;
                match self.remove_orphan(h.as_slice()) {
                    Ok(_) => {
                        self.stats.evicted_count = self.stats.evicted_count.wrapping_add(1);
                        proof {
                            lemma_wrap_add_step(after_remove(s0, hv).stats.evicted_count, 0);
                            lemma_wrap_add_zero(after_remove(s0, hv).stats.evicted_count);
                            assert(self.state() =~= after_evict(s0, hv));
                        }
                    },
                    Err(_) => {
                        proof {
                            assert(self.state() =~= after_evict(s0, hv));
                        }
                    },
                }
                proof {
                    if self.config.eviction_policy == OrphanEvictionPolicy::FeeBased {
                        assert(fee_victim(s0.pool, hv));
                    }
                }
                Ok(())
            },
            None => Err("No transaction available for eviction".to_string()),
        }
    }

    /// Adds the orphan `tx_hash`, which misses `missing_inputs`; its entry
    /// takes `entry_time` and its place in the order `order_time`. When the
    /// pool is full one orphan is evicted first; fails when none can be.
    pub fn add_orphan_at(
        &mut self,
        tx_hash: Vec<u8>,
        tx: Transaction,
        missing_inputs: Vec<OutPoint>,
        size_bytes: usize,
        total_fee: u64,
        entry_time: u64,
        order_time: u64,
    ) -> (r: Result<(), String>)
        requires
            old(self).wf(),
        ensures
            final(self).wf(),
            final(self).config_view() == old(self).config_view(),
            r is Ok <==> (old(self).state().pool.len() < old(self).config_view().max_orphans
                || can_evict(old(self).state(), old(self).config_view().eviction_policy)),
            r is Ok ==> joined(
                old(self).state(),
                old(self).config_view(),
                tx_hash@,
                joined_entry(tx@, entry_time, key_views(missing_inputs@), size_bytes, total_fee),
                order_time,
                final(self).state(),
            ),
            r matches Err(e) ==> e@ == "No transaction available for eviction"@ && final(self).state() == old(self).state(),
    {
        let ghost s0 = self.state();
        let ghost hv = tx_hash@;
        let ghost ev = joined_entry(tx@, entry_time, key_views(missing_inputs@), size_bytes, total_fee);
        if orphans_len(&self.orphan_pool) >= self.config.max_orphans {
            match self.evict_one() {
                Err(e) => {
                    return Err(e);
                },
                Ok(()) => {},
            }
        }
        let ghost s1 = self.state();
        let entry = OrphanEntry::new_at(tx, copy_outpoints(&missing_inputs), size_bytes, total_fee, entry_time);
        proof {
            assert(entry@ =~= ev);
        }
        orphans_insert(&mut self.orphan_pool, copy_bytes(tx_hash.as_slice()), entry);
        order_insert(&mut self.insertion_order, copy_bytes(tx_hash.as_slice()), order_time);
        let ghost mv = key_views(missing_inputs@);
        let mut j: usize = 0;
        proof {
            assert(mv.take(0) =~= Seq::<(Seq<u8>, u32)>::empty());
        }
        while j < missing_inputs.len()
            invariant
                self.wf(),
                mv == key_views(missing_inputs@),
                hv == tx_hash@,
                j <= missing_inputs@.len(),
                self.state().index == index_push_all(s1.index, mv.take(j as int), hv),
                self.state().pool == s1.pool.insert(hv, ev),
                self.state().order == order_put(s1.order, hv, order_time),
                self.stats == s1.stats,
                self.config == old(self).config,
            decreases missing_inputs@.len() - j,
        {
            let ghost bi = self.state().index;
            let ghost op = mv[j as int];
            proof {
                assert(mv.take(j + 1).drop_last() =~= mv.take(j as int));
                assert(mv.take(j + 1).last() == op);
            }
            push_to_list(&mut self.missing_input_index, missing_inputs[j].key_clone(), copy_bytes(tx_hash.as_slice()));
            j = j + 1;
            proof {
                assert(self.state().index =~= bi.insert(op, (if bi.contains_key(op) { bi[op] } else { Seq::empty() }).push(hv)));
            }
        }
        proof {
            assert(mv.take(missing_inputs@.len() as int) =~= mv);
            self.missing_input_index.lemma_view();
            assert(self.state().index.dom() =~= self.missing_input_index@.dom());
        }
        self.stats.total_orphans = orphans_len(&self.orphan_pool);
        self.stats.total_memory_bytes = self.stats.total_memory_bytes.wrapping_add(size_bytes);
        self.stats.unique_missing_parents = self.missing_input_index.len();
        proof {
            let a = after_add(s1, hv, ev, order_time);
            assert(self.state().pool == a.pool);
            assert(self.state().index == a.index);
            assert(self.state().order == a.order);
            assert(self.state().stats.total_orphans == a.stats.total_orphans);
            assert(self.state().stats.total_memory_bytes == a.stats.total_memory_bytes);
            assert(self.state().stats.unique_missing_parents == a.stats.unique_missing_parents);
            assert(self.state().stats == a.stats);
            assert(self.state() =~= a);
        }
        Ok(())
    }

    /// Adds the orphan `tx_hash`, which misses `missing_inputs`; the times of
    /// its entry and of its place in the order are read from the system clock.
    pub fn add_orphan(
        &mut self,
        tx_hash: Vec<u8>,
        tx: Transaction,
        missing_inputs: Vec<OutPoint>,
        size_bytes: usize,
        total_fee: u64,
    ) -> (r: Result<(), String>)
        requires
            old(self).wf(),
        ensures
            final(self).wf(),
            final(self).config_view() == old(self).config_view(),
            r is Ok <==> (old(self).state().pool.len() < old(self).config_view().max_orphans
                || can_evict(old(self).state(), old(self).config_view().eviction_policy)),
            r is Ok ==> exists|t1: u64, t2: u64| #[trigger] joined(
                old(self).state(),
                old(self).config_view(),
                tx_hash@,
                joined_entry(tx@, t1, key_views(missing_inputs@), size_bytes, total_fee),
                t2,
                final(self).state(),
            ),
            r matches Err(e) ==> e@ == "No transaction available for eviction"@ && final(self).state() == old(self).state(),
    {
        let entry_time = clock_unix_nanos();
        let order_time = clock_unix_nanos();
        self.add_orphan_at(tx_hash, tx, missing_inputs, size_bytes, total_fee, entry_time, order_time)
    }

    /// Hands out, for adoption, the orphans waiting for `parent_outpoint`:
    /// each held one once, in the order they came to wait; they leave the
    /// pool and the order, and the output leaves the index.
    pub fn process_orphans_for_parent(&mut self, parent_outpoint: &OutPoint) -> (r: Result<AdoptionResult, String>)
        requires
            old(self).wf(),
        ensures
            final(self).wf(),
            final(self).config_view() == old(self).config_view(),
            final(self).state() == after_adopt(old(self).state(), parent_outpoint@),
            (r matches Ok(res)
                && tx_views(res.adopted_txs@) == txs_of(old(self).state().pool, adopted_for(old(self).state(), parent_outpoint@))
                && res.adoption_count == adopted_for(old(self).state(), parent_outpoint@).len()
                && res.remaining_orphans == final(self).state().pool.len()),
    {
        let ghost s0 = self.state();
        let ghost pv = parent_outpoint@;
        let children: Vec<Vec<u8>> = match self.missing_input_index.remove(parent_outpoint) {
            Some(l) => l,
            None => Vec::new(),
        };
        let ghost cv = key_views(children@);
        proof {
            assert(cv == (if s0.index.contains_key(pv) { s0.index[pv] } else { Seq::<Seq<u8>>::empty() }));
            assert(self.state().index =~= s0.index.remove(pv));
            assert(cv.take(0) =~= Seq::<Seq<u8>>::empty());
            assert(cv.take(0).to_set() =~= Set::<Seq<u8>>::empty());
            assert(s0.pool.remove_keys(Set::empty()) =~= s0.pool);
            lemma_wrap_add_zero(s0.stats.adoption_count);
            assert(tx_views(Seq::<Transaction>::empty()) =~= Seq::<TransactionView>::empty());
        }
        let mut adopted_txs: Vec<Transaction> = Vec::new();
        let ghost mut ak: Seq<Seq<u8>> = Seq::empty();
        let mut i: usize = 0;
        while i < children.len()
            invariant
                self.wf(),
                cv == key_views(children@),
                i <= children@.len(),
                ak == first_present(cv.take(i as int), s0.pool.dom()),
                self.state().pool == s0.pool.remove_keys(cv.take(i as int).to_set()),
                self.state().order == order_without_all(s0.order, ak),
                self.state().index == index_without_all(s0.index.remove(pv), s0.pool, ak),
                tx_views(adopted_txs@) == txs_of(s0.pool, ak),
                self.stats == (OrphanStats {
                    total_orphans: if ak.len() > 0 { s0.pool.remove_keys(cv.take(i as int).to_set()).len() as usize } else { s0.stats.total_orphans },
                    total_memory_bytes: sat_sub(s0.stats.total_memory_bytes, sizes_of(s0.pool, ak)),
                    adoption_count: wrap_add(s0.stats.adoption_count, ak.len()),
                    ..s0.stats
                }),
                self.config == old(self).config,
            decreases children@.len() - i,
        {
            let ghost c = cv[i as int];
            let ghost before_pool = self.state().pool;
            proof {
                assert(cv.take(i + 1).drop_last() =~= cv.take(i as int));
                assert(cv.take(i + 1).last() == c);
                assert(cv.take(i + 1).to_set() =~= cv.take(i as int).to_set().insert(c)) by {
                    lemma_take_one_more(cv, i as int);
                }
                assert(children@[i as int]@ == c);
            }
            match orphans_remove(&mut self.orphan_pool, children[i].as_slice()) {
                Some(entry) => {
                    let ghost prev_txs = adopted_txs@;
                    let ghost e = entry@;
                    proof {
                        assert(e == s0.pool[c]);
                        assert(!cv.take(i as int).to_set().contains(c));
                        assert(!cv.take(i as int).contains(c)) by {
                            if cv.take(i as int).contains(c) {
                                let j = cv.take(i as int).index_of(c);
                                assert(cv.take(i as int)[j] == c);
                            }
                        }
                    }
                    order_shift_remove(&mut self.insertion_order, children[i].as_slice());
                    let ghost bidx = self.state().index;
                    self.unlist(&entry.missing_inputs, children[i].as_slice());
                    proof {
                        assert(key_views(entry.missing_inputs@) == s0.pool[c].missing_inputs);
                        assert(self.state().index == index_without(bidx, s0.pool[c].missing_inputs, c));
                    }
                    self.stats.total_orphans = orphans_len(&self.orphan_pool);
                    proof {
                        let m = s0.stats.total_memory_bytes;
                        let sz = sizes_of(s0.pool, ak);
                        lemma_sizes_nonneg(s0.pool, ak);
                        assert(sizes_of(s0.pool, ak.push(c)) == sz + e.size_bytes) by {
                            assert(ak.push(c).drop_last() =~= ak);
                        }
                        assert(self.stats.total_memory_bytes.saturating_sub(e.size_bytes) == sat_sub(m, sz + e.size_bytes));
                        lemma_wrap_add_step(s0.stats.adoption_count, ak.len());
                    }
                    self.stats.total_memory_bytes = self.stats.total_memory_bytes.saturating_sub(entry.size_bytes);
                    self.stats.adoption_count = self.stats.adoption_count.wrapping_add(1);
                    adopted_txs.push(entry.transaction);
                    proof {
                        let old_ak = ak;
                        ak = ak.push(c);
                        assert(tx_views(adopted_txs@) =~= tx_views(prev_txs).push(e.transaction));
                        assert(ak.drop_last() =~= old_ak);
                        assert(ak.last() == c);
                        assert(txs_of(s0.pool, ak) == txs_of(s0.pool, ak.drop_last()).push(s0.pool[c].transaction));
                    }
                },
                None => {
                    proof {
                        if s0.pool.contains_key(c) {
                            assert(cv.take(i as int).to_set().contains(c));
                            let j = cv.take(i as int).index_of(c);
                            assert(cv.take(i as int)[j] == c);
                        }
                    }
                },
            }
            i = i + 1;
            proof {
                assert(self.state().pool =~= s0.pool.remove_keys(cv.take(i as int).to_set()));
            }
        }
        proof {
            assert(cv.take(children@.len() as int) =~= cv);
        }
        self.drop_empty_lists();
        let remaining = orphans_len(&self.orphan_pool);
        proof {
            assert(self.state() =~= after_adopt(s0, pv));
            lemma_txs_of_len(s0.pool, ak);
            assert(tx_views(adopted_txs@).len() == adopted_txs@.len());
        }
        Ok(AdoptionResult { adoption_count: adopted_txs.len(), adopted_txs, remaining_orphans: remaining })
    }

    /// Hands out, for adoption, the orphans waiting for each output of
    /// `parent_outpoints` in turn, as `process_orphans_for_parent` does.
    pub fn process_orphans_for_parents(&mut self, parent_outpoints: &Vec<OutPoint>) -> (r: Result<AdoptionResult, String>)
        requires
            old(self).wf(),
        ensures
            final(self).wf(),
            final(self).config_view() == old(self).config_view(),
            final(self).state() == after_adopt_all(old(self).state(), key_views(parent_outpoints@)),
            (r matches Ok(res)
                && tx_views(res.adopted_txs@) == adopted_all(old(self).state(), key_views(parent_outpoints@))
                && res.adoption_count == res.adopted_txs@.len()
                && res.remaining_orphans == final(self).state().pool.len()),
    {
        let ghost s0 = self.state();
        let ghost pv = key_views(parent_outpoints@);
        let mut all: Vec<Transaction> = Vec::new();
        let mut i: usize = 0;
        proof {
            assert(pv.take(0) =~= Seq::<(Seq<u8>, u32)>::empty());
            assert(tx_views(all@) =~= Seq::<TransactionView>::empty());
        }
        while i < parent_outpoints.len()
            invariant
                self.wf(),
                pv == key_views(parent_outpoints@),
                i <= parent_outpoints@.len(),
                self.state() == after_adopt_all(s0, pv.take(i as int)),
                tx_views(all@) == adopted_all(s0, pv.take(i as int)),
                self.config == old(self).config,
            decreases parent_outpoints@.len() - i,
        {
            let ghost before = self.state();
            proof {
                assert(pv.take(i + 1).drop_last() =~= pv.take(i as int));
                assert(pv.take(i + 1).last() == parent_outpoints@[i as int]@);
            }
            let res = self.process_orphans_for_parent(&parent_outpoints[i]);
            match res {
                Ok(mut step) => {
                    let ghost prev = all@;
                    let ghost got = step.adopted_txs@;
                    all.append(&mut step.adopted_txs);
                    proof {
                        assert(all@ == prev + got);
                        assert(tx_views(all@) =~= tx_views(prev) + tx_views(got));
                    }
                },
                Err(e) => {
                    return Err(e);
                },
            }
            i = i + 1;
        }
        proof {
            assert(pv.take(parent_outpoints@.len() as int) =~= pv);
        }
        let n = all.len();
        Ok(AdoptionResult { adoption_count: n, adopted_txs: all, remaining_orphans: orphans_len(&self.orphan_pool) })
    }

    /// Removes every orphan older than the pool's time to live as of `now`;
    /// returns how many left. They leave one after the other, in the order
    /// that the map's iteration hands them out.
    pub fn cleanup_expired_at(&mut self, now: u64) -> (n: usize)
        requires
            old(self).wf(),
        ensures
            final(self).wf(),
            final(self).config_view() == old(self).config_view(),
            exists|ks: Seq<Seq<u8>>| #![trigger after_remove_all(old(self).state(), ks)]
                ks.no_duplicates()
                && ks.to_set() == expired_set(old(self).state().pool, old(self).config_view().orphan_ttl_ns, now)
                && final(self).state() == after_remove_all(old(self).state(), ks)
                && n == ks.len(),
    {
        let ghost s0 = self.state();
        let ttl = self.config.orphan_ttl_ns;
        let keys = orphans_keys(&self.orphan_pool);
        let ghost kv = key_views(keys@);
        let mut expired: Vec<Vec<u8>> = Vec::new();
        let mut i: usize = 0;
        while i < keys.len()
            invariant
                self.state() == s0,
                ttl == self.config.orphan_ttl_ns,
                kv == key_views(keys@),
                kv.no_duplicates(),
                kv.to_set() == s0.pool.dom(),
                i <= keys@.len(),
                key_views(expired@) == kv.take(i as int).filter(|k: Seq<u8>| entry_age(s0.pool[k], now) > ttl),
            decreases keys@.len() - i,
        {
            let ghost prev = key_views(expired@);
            proof {
                assert(kv.take(i + 1) =~= kv.take(i as int).push(kv[i as int]));
                kv.take(i as int).lemma_filter_push(kv[i as int], |k: Seq<u8>| entry_age(s0.pool[k], now) > ttl);
                assert(kv.to_set().contains(kv[i as int]));
            }
            match orphans_get(&self.orphan_pool, keys[i].as_slice()) {
                Some(e) => {
                    if e.is_expired_at(ttl, now) {
                        expired.push(copy_bytes(keys[i].as_slice()));
                        proof {
                            assert(key_views(expired@) =~= prev.push(kv[i as int]));
                        }
                    }
                },
                None => {},
            }
            i = i + 1;
        }
        let ghost ev = key_views(expired@);
        proof {
            assert(kv.take(keys@.len() as int) =~= kv);
            let p = |k: Seq<u8>| entry_age(s0.pool[k], now) > ttl;
            assert(ev.no_duplicates()) by {
                assert forall|a: int, b: int| 0 <= a < ev.len() && 0 <= b < ev.len() && a != b implies ev[a] != ev[b] by {
                    lemma_filter_distinct(kv, p, a, b);
                }
            }
            assert forall|k: Seq<u8>| ev.to_set().contains(k) == expired_set(s0.pool, ttl, now).contains(k) by {
                if ev.contains(k) {
                    let j = ev.index_of(k);
                    kv.lemma_filter_pred(p, j);
                    lemma_filter_member(kv, p, j);
                }
                if expired_set(s0.pool, ttl, now).contains(k) {
                    assert(kv.to_set().contains(k));
                    let j = kv.index_of(k);
                    kv.lemma_filter_contains(p, j);
                }
            }
            assert(ev.to_set() =~= expired_set(s0.pool, ttl, now));
            assert(ev.take(0) =~= Seq::<Seq<u8>>::empty());
            assert(ev.take(0).to_set() =~= Set::<Seq<u8>>::empty());
            assert(s0.pool.remove_keys(Set::empty()) =~= s0.pool);
        }
        let mut count: usize = 0;
        let mut j: usize = 0;
        while j < expired.len()
            invariant
                self.wf(),
                ev == key_views(expired@),
                ev.no_duplicates(),
                ev.to_set().subset_of(s0.pool.dom()),
                j <= expired@.len(),
                count == j,
                self.state() == after_remove_all(s0, ev.take(j as int)),
                self.state().pool == s0.pool.remove_keys(ev.take(j as int).to_set()),
                self.config == old(self).config,
            decreases expired@.len() - j,
        {
            let ghost h = ev[j as int];
            proof {
                assert(ev.take(j + 1).drop_last() =~= ev.take(j as int));
                assert(ev.take(j + 1).last() == h);
                lemma_take_one_more(ev, j as int);
                assert(ev.take(j + 1).to_set() =~= ev.take(j as int).to_set().insert(h));
                assert(ev.to_set().contains(h));
                assert(!ev.take(j as int).contains(h)) by {
                    if ev.take(j as int).contains(h) {
                        let q = ev.take(j as int).index_of(h);
                        assert(ev[q] == h);
                    }
                }
                assert(self.state().pool.contains_key(h));
                assert(expired@[j as int]@ == h);
            }
            let r = self.remove_orphan(expired[j].as_slice());
            if r.is_ok() {
                count = count + 1;
            }
            j = j + 1;
            proof {
                assert(self.state().pool =~= s0.pool.remove_keys(ev.take(j as int).to_set()));
            }
        }
        proof {
            assert(ev.take(expired@.len() as int) =~= ev);
        }
        count
    }

    /// Removes every orphan older than the pool's time to live; the time is
    /// read from the system clock.
    pub fn cleanup_expired(&mut self) -> (n: usize)
        requires
            old(self).wf(),
        ensures
            final(self).wf(),
            final(self).config_view() == old(self).config_view(),
            exists|now: u64, ks: Seq<Seq<u8>>| #![trigger expired_set(old(self).state().pool, old(self).config_view().orphan_ttl_ns, now), after_remove_all(old(self).state(), ks)]
                ks.no_duplicates()
                && ks.to_set() == expired_set(old(self).state().pool, old(self).config_view().orphan_ttl_ns, now)
                && final(self).state() == after_remove_all(old(self).state(), ks)
                && n == ks.len(),
    {
        let now = clock_unix_nanos();
        self.cleanup_expired_at(now)
    }

    /// The orphans whose age as of `now` lies in `[min_age_ns, max_age_ns]`,
    /// in the order that the map's iteration hands them out.
    pub fn get_orphans_by_age_range_at(&self, min_age_ns: u64, max_age_ns: u64, now: u64) -> (r: Vec<Transaction>)
        requires
            self.wf(),
        ensures
            exists|ks: Seq<Seq<u8>>| #![trigger txs_of(self.state().pool, ks)]
                ks.no_duplicates()
                && ks.to_set() == aged_set(self.state().pool, min_age_ns, max_age_ns, now)
                && tx_views(r@) == txs_of(self.state().pool, ks),
    {
        let ghost pool = self.state().pool;
        let keys = orphans_keys(&self.orphan_pool);
        let ghost kv = key_views(keys@);
        let ghost p = |k: Seq<u8>| min_age_ns <= entry_age(pool[k], now) <= max_age_ns;
        let mut r: Vec<Transaction> = Vec::new();
        let mut i: usize = 0;
        proof {
            assert(kv.take(0).filter(p) =~= Seq::<Seq<u8>>::empty()) by {
                assert(kv.take(0) =~= Seq::<Seq<u8>>::empty());
                reveal(Seq::filter);
            }
            assert(tx_views(r@) =~= Seq::<TransactionView>::empty());
        }
        while i < keys.len()
            invariant
                pool == self.state().pool,
                kv == key_views(keys@),
                kv.no_duplicates(),
                kv.to_set() == pool.dom(),
                p == (|k: Seq<u8>| min_age_ns <= entry_age(pool[k], now) <= max_age_ns),
                i <= keys@.len(),
                tx_views(r@) == txs_of(pool, kv.take(i as int).filter(p)),
            decreases keys@.len() - i,
        {
            let ghost prev = r@;
            let ghost sel = kv.take(i as int).filter(p);
            proof {
                assert(kv.take(i + 1) =~= kv.take(i as int).push(kv[i as int]));
                kv.take(i as int).lemma_filter_push(kv[i as int], p);
                assert(kv.to_set().contains(kv[i as int]));
            }
            match orphans_get(&self.orphan_pool, keys[i].as_slice()) {
                Some(e) => {
                    let age = e.age_ns_at(now);
                    if age >= min_age_ns && age <= max_age_ns {
                        r.push(e.transaction);
                        proof {
                            assert(tx_views(r@) =~= tx_views(prev).push(pool[kv[i as int]].transaction));
                            assert(sel.push(kv[i as int]).drop_last() =~= sel);
                        }
                    }
                },
                None => {},
            }
            i = i + 1;
        }
        proof {
            assert(kv.take(keys@.len() as int) =~= kv);
            let ev = kv.filter(p);
            assert(ev.no_duplicates()) by {
                assert forall|a: int, b: int| 0 <= a < ev.len() && 0 <= b < ev.len() && a != b implies ev[a] != ev[b] by {
                    lemma_filter_distinct(kv, p, a, b);
                }
            }
            assert forall|k: Seq<u8>| ev.to_set().contains(k) == aged_set(pool, min_age_ns, max_age_ns, now).contains(k) by {
                if ev.contains(k) {
                    let j = ev.index_of(k);
                    kv.lemma_filter_pred(p, j);
                    lemma_filter_member(kv, p, j);
                }
                if aged_set(pool, min_age_ns, max_age_ns, now).contains(k) {
                    assert(kv.to_set().contains(k));
                    let j = kv.index_of(k);
                    kv.lemma_filter_contains(p, j);
                }
            }
            assert(ev.to_set() =~= aged_set(pool, min_age_ns, max_age_ns, now));
        }
        r
    }

    /// The orphans whose age lies in `[min_age_ns, max_age_ns]`; the time is
    /// read from the system clock.
    pub fn get_orphans_by_age_range(&self, min_age_ns: u64, max_age_ns: u64) -> (r: Vec<Transaction>)
        requires
            self.wf(),
        ensures
            exists|now: u64, ks: Seq<Seq<u8>>| #![trigger aged_set(self.state().pool, min_age_ns, max_age_ns, now), txs_of(self.state().pool, ks)]
                ks.no_duplicates()
                && ks.to_set() == aged_set(self.state().pool, min_age_ns, max_age_ns, now)
                && tx_views(r@) == txs_of(self.state().pool, ks),
    {
        let now = clock_unix_nanos();
        self.get_orphans_by_age_range_at(min_age_ns, max_age_ns, now)
    }

    /// The held orphans waiting for `parent_outpoint`, in the order they came
    /// to wait.
    pub fn get_orphans_waiting_for(&self, parent_outpoint: &OutPoint) -> (r: Vec<Transaction>)
        requires
            self.wf(),
        ensures
            tx_views(r@) == txs_of(self.state().pool, held(
                if self.state().index.contains_key(parent_outpoint@) { self.state().index[parent_outpoint@] } else { Seq::empty() },
                self.state().pool,
            )),
    {
        let ghost pool = self.state().pool;
        let children: Vec<Vec<u8>> = match self.missing_input_index.get(parent_outpoint) {
            Some(l) => copy_list(l),
            None => Vec::new(),
        };
        let ghost cv = key_views(children@);
        let mut r: Vec<Transaction> = Vec::new();
        let mut i: usize = 0;
        proof {
            assert(cv.take(0) =~= Seq::<Seq<u8>>::empty());
            assert(tx_views(r@) =~= Seq::<TransactionView>::empty());
        }
        while i < children.len()
            invariant
                pool == self.state().pool,
                cv == key_views(children@),
                i <= children@.len(),
                tx_views(r@) == txs_of(pool, held(cv.take(i as int), pool)),
            decreases children@.len() - i,
        {
            let ghost prev = r@;
            let ghost hv = held(cv.take(i as int), pool);
            proof {
                assert(cv.take(i + 1).drop_last() =~= cv.take(i as int));
                assert(cv.take(i + 1).last() == cv[i as int]);
            }
            match orphans_get(&self.orphan_pool, children[i].as_slice()) {
                Some(e) => {
                    r.push(e.transaction);
                    proof {
                        assert(tx_views(r@) =~= tx_views(prev).push(pool[cv[i as int]].transaction));
                        assert(hv.push(cv[i as int]).drop_last() =~= hv);
                    }
                },
                None => {},
            }
            i = i + 1;
        }
        proof {
            assert(cv.take(children@.len() as int) =~= cv);
        }
        r
    }

    /// The counters, with the number of orphans and of outputs waited for
    /// taken as they are now.
    pub fn get_stats(&self) -> (st: OrphanStats)
        requires
            self.wf(),
        ensures
            st == (OrphanStats {
                total_orphans: self.state().pool.len() as usize,
                unique_missing_parents: self.state().index.len() as usize,
                ..self.state().stats
            }),
    {
        let mut st = self.stats;
        st.total_orphans = orphans_len(&self.orphan_pool);
        st.unique_missing_parents = self.missing_input_index.len();
        proof {
            assert(self.state().index.dom() =~= self.missing_input_index@.dom());
        }
        st
    }

    /// Checks that every orphan named in the index is held.
    pub fn verify_consistency(&self) -> (r: Result<(), String>)
        requires
            self.wf(),
        ensures
            r is Ok <==> index_consistent(self.state()),
            r matches Err(e) ==> e@ == "Orphan child reference mismatch in missing input index"@,
    {
        let ghost s = self.state();
        let ghost ks = self.missing_input_index.key_seq();
        proof {
            self.missing_input_index.lemma_view();
        }
        let n = self.missing_input_index.len();
        let mut i: usize = 0;
        while i < n
            invariant
                s == self.state(),
                ks == self.missing_input_index.key_seq(),
                ks.to_set() == self.missing_input_index@.dom(),
                n == ks.len(),
                self.missing_input_index.wf(),
                i <= n,
                forall|a: int, c: Seq<u8>| 0 <= a < i && #[trigger] s.index[ks[a]].contains(c) ==> s.pool.contains_key(c),
            decreases n - i,
        {
            let list = self.missing_input_index.value_at(i);
            let ghost op = ks[i as int];
            proof {
                assert(ks.to_set().contains(op));
                assert(s.index.contains_key(op));
                assert(key_views(list@) == s.index[op]);
            }
            let mut j: usize = 0;
            while j < list.len()
                invariant
                    s == self.state(),
                    s.index.contains_key(op),
                    key_views(list@) == s.index[op],
                    j <= list@.len(),
                    forall|b: int| 0 <= b < j ==> s.pool.contains_key(#[trigger] key_views(list@)[b]),
                decreases list@.len() - j,
            {
                if !orphans_contains(&self.orphan_pool, list[j].as_slice()) {
                    proof {
                        assert(s.index.contains_key(op));
                        assert(s.index[op].contains(key_views(list@)[j as int]));
                    }
                    return Err("Orphan child reference mismatch in missing input index".to_string());
                }
                j = j + 1;
            }
            proof {
                assert forall|c: Seq<u8>| #[trigger] s.index[op].contains(c) implies s.pool.contains_key(c) by {
                    let b = s.index[op].index_of(c);
                    assert(key_views(list@)[b] == c);
                }
            }
            i = i + 1;
        }
        proof {
            assert forall|op: (Seq<u8>, u32), c: Seq<u8>| s.index.contains_key(op) && #[trigger] s.index[op].contains(c) implies s.pool.contains_key(c) by {
                assert(ks.to_set().contains(op));
                let a = ks.index_of(op);
                assert(ks[a] == op);
            }
        }
        Ok(())
    }

    /// Empties the pool and resets the counters.
    pub fn clear(&mut self)
        ensures
            final(self).wf(),
            final(self).config_view() == old(self).config_view(),
            final(self).state() == (OrphanState {
                pool: no_orphans(),
                index: Map::empty(),
                order: Seq::empty(),
                stats: OrphanStats::spec_zero(),
            }),
    {
        orphans_clear(&mut self.orphan_pool);
        self.missing_input_index.clear();
        order_clear(&mut self.insertion_order);
        self.stats = OrphanStats::default();
        proof {
            assert(self.state().index =~= Map::<(Seq<u8>, u32), Seq<Seq<u8>>>::empty());
            assert(self.state() =~= (OrphanState {
                pool: no_orphans(),
                index: Map::empty(),
                order: Seq::empty(),
                stats: OrphanStats::spec_zero(),
            }));
        }
    }
}

/// The list without `h`.
pub fn without_key(list: &Vec<Vec<u8>>, h: &[u8]) -> (r: Vec<Vec<u8>>)
    ensures
        key_views(r@) == without_member(key_views(list@), h@),
{
    let ghost pred = |c: Seq<u8>| c != h@;
    let ghost lv = key_views(list@);
    let mut r: Vec<Vec<u8>> = Vec::new();
    let mut i: usize = 0;
    while i < list.len()
        invariant
            i <= list@.len(),
            lv == key_views(list@),
            pred == (|c: Seq<u8>| c != h@),
            key_views(r@) == lv.take(i as int).filter(pred),
        decreases list@.len() - i,
    {
        let ghost prev = key_views(r@);
        proof {
            assert(lv.take(i + 1) =~= lv.take(i as int).push(lv[i as int]));
            lv.take(i as int).lemma_filter_push(lv[i as int], pred);
        }
        if !crate::bytes::bytes_eq(list[i].as_slice(), h) {
            r.push(copy_bytes(list[i].as_slice()));
            proof {
                assert(key_views(r@) =~= prev.push(lv[i as int]));
            }
        }
        i = i + 1;
    }
    proof {
        assert(lv.take(list@.len() as int) =~= lv);
    }
    r
}

/// A list without `h` is left as it is by removing `h`.
proof fn lemma_without_absent(t: Seq<Seq<u8>>, h: Seq<u8>)
    requires
        !t.contains(h),
    ensures
        without_member(t, h) == t,
    decreases t.len(),
{
    reveal(Seq::filter);
    if t.len() > 0 {
        assert(!t.drop_last().contains(h)) by {
            if t.drop_last().contains(h) {
                let j = t.drop_last().index_of(h);
                assert(t[j] == h);
            }
        }
        lemma_without_absent(t.drop_last(), h);
        assert(t.last() != h) by {
            assert(t[t.len() - 1] == t.last());
        }
        assert(t.drop_last().push(t.last()) =~= t);
    } else {
        assert(t =~= Seq::<Seq<u8>>::empty());
    }
}

/// Removing `h` twice removes it once.
proof fn lemma_filter_twice_without(s: Seq<Seq<u8>>, h: Seq<u8>)
    ensures
        without_member(without_member(s, h), h) == without_member(s, h),
{
    let t = without_member(s, h);
    assert(!t.contains(h)) by {
        if t.contains(h) {
            let i = t.index_of(h);
            s.lemma_filter_pred(|c: Seq<u8>| c != h, i);
        }
    }
    lemma_without_absent(t, h);
}

/// The first `i + 1` elements hold what the first `i` hold, and `s[i]`.
proof fn lemma_take_one_more<A>(s: Seq<A>, i: int)
    requires
        0 <= i < s.len(),
    ensures
        forall|x: A| #[trigger] s.take(i + 1).contains(x) == (s.take(i).contains(x) || x == s[i]),
{
    assert forall|x: A| #[trigger] s.take(i + 1).contains(x) == (s.take(i).contains(x) || x == s[i]) by {
        if s.take(i).contains(x) {
            let j = s.take(i).index_of(x);
            assert(s.take(i + 1)[j] == x);
        }
        if x == s[i] {
            assert(s.take(i + 1)[i] == x);
        }
        if s.take(i + 1).contains(x) {
            let j = s.take(i + 1).index_of(x);
            if j < i {
                assert(s.take(i)[j] == x);
            }
        }
    }
}

} // verus!
