//! An index of pool transactions by hash, in a concurrent map, with each
//! transaction's status, fee, size and arrival time.

use vstd::prelude::*;
use dashmap::DashMap;
use crate::keyed::{key_views, lemma_filter_exact, lemma_remove_exact};
use crate::bytes::copy_bytes;
use crate::external::clock_unix_nanos;
use crate::transaction::{Transaction, TransactionView};

verus! {

/// Limits of the index.
#[derive(Clone, Copy, Debug)]
pub struct ParallelIndexConfig {
    /// Shards of the concurrent map
    pub num_shards: usize,
    /// Most transactions held at once
    pub max_transactions: usize,
    /// Whether old transactions are cleaned up
    pub enable_cleanup: bool,
}

impl Default for ParallelIndexConfig {
    fn default() -> (c: Self)
        ensures
            c.num_shards == 16,
            c.max_transactions == 100_000,
            c.enable_cleanup,
    {
        Self { num_shards: 16, max_transactions: 100_000, enable_cleanup: true }
    }
}

/// Where a transaction of the index stands.
#[derive(Clone, Copy, Debug, PartialEq, Eq, Hash, Structural)]
pub enum IndexedTransactionStatus {
    /// New, being validated
    Pending,
    /// Validated
    Validated,
    /// Found invalid
    Invalid,
    /// In a block
    Confirmed,
}

/// A transaction of the index with what the index knows of it.
#[derive(Clone, Debug)]
pub struct IndexedTransactionEntry {
    pub transaction: Transaction,
    pub status: IndexedTransactionStatus,
    /// When it was added, in nanoseconds since the UNIX epoch
    pub insertion_time_ns: u64,
    pub size_bytes: usize,
    pub total_fee: u64,
}

/// An index entry as a value.
pub struct IndexedEntryView {
    pub transaction: TransactionView,
    pub status: IndexedTransactionStatus,
    pub insertion_time_ns: u64,
    pub size_bytes: usize,
    pub total_fee: u64,
}

impl View for IndexedTransactionEntry {
    type V = IndexedEntryView;

    open spec fn view(&self) -> IndexedEntryView {
        IndexedEntryView {
            transaction: self.transaction@,
            status: self.status,
            insertion_time_ns: self.insertion_time_ns,
            size_bytes: self.size_bytes,
            total_fee: self.total_fee,
        }
    }
}

/// Fee per byte, rounded down; zero for an empty transaction.
pub open spec fn indexed_fee_rate(e: IndexedEntryView) -> u64 {
    if e.size_bytes == 0 {
        0
    } else {
        (e.total_fee / (e.size_bytes as u64)) as u64
    }
}

/// Nanoseconds from the entry's arrival to `now`; zero if `now` is earlier.
pub open spec fn indexed_age(e: IndexedEntryView, now: u64) -> u64 {
    if now >= e.insertion_time_ns { (now - e.insertion_time_ns) as u64 } else { 0 }
}

impl IndexedTransactionEntry {
    /// A pending entry added at `now`.
    pub fn new_at(tx: Transaction, fee: u64, size: usize, now: u64) -> (e: Self)
        ensures
            e.transaction == tx,
            e.status == IndexedTransactionStatus::Pending,
            e.insertion_time_ns == now,
            e.size_bytes == size,
            e.total_fee == fee,
    {
        Self { transaction: tx, status: IndexedTransactionStatus::Pending, insertion_time_ns: now, size_bytes: size, total_fee: fee }
    }

    /// A pending entry added now; the time is read from the system clock.
    pub fn new(tx: Transaction, fee: u64, size: usize) -> (e: Self)
        ensures
            e.transaction == tx,
            e.status == IndexedTransactionStatus::Pending,
            e.size_bytes == size,
            e.total_fee == fee,
    {
        Self::new_at(tx, fee, size, clock_unix_nanos())
    }

    /// Fee per byte, rounded down; zero for an empty transaction.
    pub fn fee_rate(&self) -> (r: u64)
        ensures
            r == indexed_fee_rate(self@),
    {
        if self.size_bytes == 0 {
            0
        } else {
            self.total_fee / self.size_bytes as u64
        }
    }

    /// Nanoseconds since the entry was added, as of `now`; zero if `now` is
    /// earlier.
    pub fn age_ns_at(&self, now: u64) -> (a: u64)
        ensures
            a == indexed_age(self@, now),
    {
        now.saturating_sub(self.insertion_time_ns)
    }

    /// Nanoseconds since the entry was added; the time is read from the
    /// system clock.
    pub fn age_ns(&self) -> (a: u64)
        ensures
            exists|now: u64| a == #[trigger] indexed_age(self@, now),
    {
        self.age_ns_at(clock_unix_nanos())
    }

    /// A copy of the entry.
    pub fn duplicate(&self) -> (c: Self)
        ensures
            c@ == self@,
    {
        Self {
            transaction: self.transaction.duplicate(),
            status: self.status,
            insertion_time_ns: self.insertion_time_ns,
            size_bytes: self.size_bytes,
            total_fee: self.total_fee,
        }
    }
}

/// Counters of the index.
#[derive(Clone, Copy, Debug)]
pub struct IndexStats {
    pub total_transactions: usize,
    pub pending_count: usize,
    pub validated_count: usize,
    pub invalid_count: usize,
    pub confirmed_count: usize,
    pub total_memory_bytes: usize,
}

impl IndexStats {
    /// All counters at zero.
    pub open spec fn spec_zero() -> Self {
        IndexStats {
            total_transactions: 0,
            pending_count: 0,
            validated_count: 0,
            invalid_count: 0,
            confirmed_count: 0,
            total_memory_bytes: 0,
        }
    }
}

impl Default for IndexStats {
    fn default() -> (s: Self)
        ensures
            s == Self::spec_zero(),
    {
        IndexStats {
            total_transactions: 0,
            pending_count: 0,
            validated_count: 0,
            invalid_count: 0,
            confirmed_count: 0,
            total_memory_bytes: 0,
        }
    }
}

/// Bytes counted per entry beyond the transaction's own size.
pub const ENTRY_OVERHEAD_BYTES: usize = 64;

/// The count kept for `status`.
pub open spec fn count_of(s: IndexStats, status: IndexedTransactionStatus) -> usize {
    match status {
        IndexedTransactionStatus::Pending => s.pending_count,
        IndexedTransactionStatus::Validated => s.validated_count,
        IndexedTransactionStatus::Invalid => s.invalid_count,
        IndexedTransactionStatus::Confirmed => s.confirmed_count,
    }
}

/// `s` with the count kept for `status` set to `n`.
pub open spec fn with_count(s: IndexStats, status: IndexedTransactionStatus, n: usize) -> IndexStats {
    match status {
        IndexedTransactionStatus::Pending => IndexStats { pending_count: n, ..s },
        IndexedTransactionStatus::Validated => IndexStats { validated_count: n, ..s },
        IndexedTransactionStatus::Invalid => IndexStats { invalid_count: n, ..s },
        IndexedTransactionStatus::Confirmed => IndexStats { confirmed_count: n, ..s },
    }
}

/// `s` with one less counted for `status`, not below zero.
pub open spec fn count_down(s: IndexStats, status: IndexedTransactionStatus) -> IndexStats {
    with_count(s, status, if count_of(s, status) > 0 { (count_of(s, status) - 1) as usize } else { 0 })
}

/// `s` with one more counted for `status`, wrapping around.
pub open spec fn count_up(s: IndexStats, status: IndexedTransactionStatus) -> IndexStats {
    with_count(s, status, count_of(s, status).wrapping_add(1))
}

/// The held transactions with `status`.
pub open spec fn with_status(m: Map<Seq<u8>, IndexedEntryView>, status: IndexedTransactionStatus) -> Set<Seq<u8>> {
    Set::new(|k: Seq<u8>| m.contains_key(k) && m[k].status == status)
}

/// The held transactions older than `max_age` as of `now`.
pub open spec fn older_than(m: Map<Seq<u8>, IndexedEntryView>, max_age: u64, now: u64) -> Set<Seq<u8>> {
    Set::new(|k: Seq<u8>| m.contains_key(k) && (if now >= m[k].insertion_time_ns { now - m[k].insertion_time_ns } else { 0 }) > max_age)
}

/// The transactions of the entries `ks`.
pub open spec fn index_txs(m: Map<Seq<u8>, IndexedEntryView>, ks: Seq<Seq<u8>>) -> Seq<TransactionView> {
    ks.map_values(|k: Seq<u8>| m[k].transaction)
}

/// Views of transactions.
pub open spec fn views_of(v: Seq<Transaction>) -> Seq<TransactionView> {
    v.map_values(|t: Transaction| t@)
}

/// An index holding nothing.
pub open spec fn no_index_entries() -> Map<Seq<u8>, IndexedEntryView> {
    Map::empty()
}

/// Which entries a scan of the index picks.
#[derive(Clone, Copy)]
enum EntryFilter {
    /// Those with this status
    Status(IndexedTransactionStatus),
    /// Those older than the first value as of the second
    OlderThan(u64, u64),
}

/// Whether `f` picks the entry `e`.
spec fn filter_picks(f: EntryFilter, e: IndexedEntryView) -> bool {
    match f {
        EntryFilter::Status(st) => e.status == st,
        EntryFilter::OlderThan(max_age, now) =>
            (if now >= e.insertion_time_ns { now - e.insertion_time_ns } else { 0 }) > max_age,
    }
}

/// The held keys whose entries `f` picks.
spec fn picked_by(m: Map<Seq<u8>, IndexedEntryView>, f: EntryFilter) -> Set<Seq<u8>> {
    Set::new(|k: Seq<u8>| m.contains_key(k) && filter_picks(f, m[k]))
}

impl EntryFilter {
    fn picks(&self, e: &IndexedTransactionEntry) -> (b: bool)
        ensures
            b == filter_picks(*self, e@),
    {
        match self {
            EntryFilter::Status(st) => e.status == *st,
            EntryFilter::OlderThan(max_age, now) => now.saturating_sub(e.insertion_time_ns) > *max_age,
        }
    }
}

/// What a map from transaction hash to index entry holds.
pub uninterp spec fn index_entries(m: DashMap<Vec<u8>, IndexedTransactionEntry>) -> Map<Seq<u8>, IndexedEntryView>;

/// Calls `DashMap::with_capacity`: an empty map.
#[verifier::external_body]
fn entries_with_capacity(n: usize) -> (m: DashMap<Vec<u8>, IndexedTransactionEntry>)
    ensures
        index_entries(m) == no_index_entries(),
{
    DashMap::with_capacity(n)
}

/// Calls `DashMap::len`: the number of keys.
#[verifier::external_body]
fn entries_len(m: &DashMap<Vec<u8>, IndexedTransactionEntry>) -> (n: usize)
    ensures
        n == index_entries(*m).len(),
{
    m.len()
}

/// Calls `DashMap::contains_key`.
#[verifier::external_body]
fn entries_contains(m: &DashMap<Vec<u8>, IndexedTransactionEntry>, k: &[u8]) -> (b: bool)
    ensures
        b == index_entries(*m).contains_key(k@),
{
    m.contains_key(k)
}

/// Calls `DashMap::get` and copies the entry found, if any.
#[verifier::external_body]
fn entries_get(m: &DashMap<Vec<u8>, IndexedTransactionEntry>, k: &[u8]) -> (r: Option<IndexedTransactionEntry>)
    ensures
        match r {
            Some(e) => index_entries(*m).contains_key(k@) && e@ == index_entries(*m)[k@],
            None => !index_entries(*m).contains_key(k@),
        },
{
    m.get(k).map(|e| e.value().duplicate())
}

/// Calls `DashMap::insert`: the key now maps to the entry; a map holds
/// finitely many keys.
#[verifier::external_body]
fn entries_insert(m: &mut DashMap<Vec<u8>, IndexedTransactionEntry>, k: Vec<u8>, v: IndexedTransactionEntry)
    ensures
        index_entries(*final(m)) == index_entries(*old(m)).insert(k@, v@),
        index_entries(*old(m)).dom().finite() ==> index_entries(*final(m)).dom().finite(),
{
    m.insert(k, v);
}

/// Calls `DashMap::remove` and hands out the entry removed, if any.
#[verifier::external_body]
fn entries_remove(m: &mut DashMap<Vec<u8>, IndexedTransactionEntry>, k: &[u8]) -> (r: Option<IndexedTransactionEntry>)
    ensures
        index_entries(*final(m)) == index_entries(*old(m)).remove(k@),
        match r {
            Some(e) => index_entries(*old(m)).contains_key(k@) && e@ == index_entries(*old(m))[k@],
            None => !index_entries(*old(m)).contains_key(k@),
        },
{
    m.remove(k).map(|(_, e)| e)
}

/// Calls `DashMap::clear`: the map is empty.
#[verifier::external_body]
fn entries_clear(m: &mut DashMap<Vec<u8>, IndexedTransactionEntry>)
    ensures
        index_entries(*final(m)) == no_index_entries(),
{
    m.clear();
}

/// Copies the keys of a `DashMap` as its iterator hands them out: each key
/// once, in an order that the map's hashing decides.
#[verifier::external_body]
fn entries_keys(m: &DashMap<Vec<u8>, IndexedTransactionEntry>) -> (r: Vec<Vec<u8>>)
    ensures
        key_views(r@).no_duplicates(),
        key_views(r@).to_set() == index_entries(*m).dom(),
{
    m.iter().map(|e| e.key().clone()).collect()
}

/// Transactions of the pool by hash, in a concurrent map.
pub struct ParallelTransactionIndex {
    transactions: DashMap<Vec<u8>, IndexedTransactionEntry>,
    config: ParallelIndexConfig,
    stats: IndexStats,
}

impl ParallelTransactionIndex {
    pub closed spec fn wf(&self) -> bool {
        &&& index_entries(self.transactions).dom().finite()
        &&& index_entries(self.transactions).len() <= usize::MAX
    }

    /// The entries by hash.
    pub closed spec fn entries_view(&self) -> Map<Seq<u8>, IndexedEntryView> {
        index_entries(self.transactions)
    }

    pub closed spec fn stats_view(&self) -> IndexStats {
        self.stats
    }

    pub closed spec fn config_view(&self) -> ParallelIndexConfig {
        self.config
    }

    pub fn new(config: ParallelIndexConfig) -> (x: Self)
        ensures
            x.wf(),
            x.entries_view() == no_index_entries(),
            x.stats_view() == IndexStats::spec_zero(),
            x.config_view() == config,
    {
        Self { transactions: entries_with_capacity(config.max_transactions / 4), config, stats: IndexStats::default() }
    }

    /// Adds `tx` under `tx_hash` as pending, added at `now`, in place of any
    /// entry under that hash; fails when the index is full.
    pub fn insert_at(&mut self, tx_hash: Vec<u8>, tx: Transaction, fee: u64, size_bytes: usize, now: u64) -> (r: Result<(), String>)
        requires
            old(self).wf(),
        ensures
            final(self).wf(),
            final(self).config_view() == old(self).config_view(),
            r is Ok <==> old(self).entries_view().len() < old(self).config_view().max_transactions,
            r matches Err(e) ==> e@ == "Transaction index is full"@ && final(self).entries_view() == old(self).entries_view()
                && final(self).stats_view() == old(self).stats_view(),
            r is Ok ==> final(self).entries_view() == old(self).entries_view().insert(tx_hash@, IndexedEntryView {
                transaction: tx@,
                status: IndexedTransactionStatus::Pending,
                insertion_time_ns: now,
                size_bytes,
                total_fee: fee,
            }) && final(self).stats_view() == inserted_stats(old(self).stats_view(), size_bytes, final(self).entries_view().len()),
    {
        if entries_len(&self.transactions) >= self.config.max_transactions {
            return Err("Transaction index is full".to_string());
        }
        let ghost tv = tx@;
        let entry = IndexedTransactionEntry::new_at(tx, fee, size_bytes, now);
        entries_insert(&mut self.transactions, tx_hash, entry);
        self.stats.total_transactions = entries_len(&self.transactions);
        self.stats.pending_count = self.stats.pending_count.wrapping_add(1);
        self.stats.total_memory_bytes = self.stats.total_memory_bytes.wrapping_add(size_bytes.wrapping_add(ENTRY_OVERHEAD_BYTES));
        Ok(())
    }

    /// Adds `tx` under `tx_hash` as pending, added now; the time is read
    /// from the system clock.
    pub fn insert(&mut self, tx_hash: Vec<u8>, tx: Transaction, fee: u64, size_bytes: usize) -> (r: Result<(), String>)
        requires
            old(self).wf(),
        ensures
            final(self).wf(),
            final(self).config_view() == old(self).config_view(),
            r is Ok <==> old(self).entries_view().len() < old(self).config_view().max_transactions,
            r matches Err(e) ==> e@ == "Transaction index is full"@ && final(self).entries_view() == old(self).entries_view()
                && final(self).stats_view() == old(self).stats_view(),
            r is Ok ==> exists|now: u64| #[trigger] final(self).entries_view() == old(self).entries_view().insert(tx_hash@, IndexedEntryView {
                transaction: tx@,
                status: IndexedTransactionStatus::Pending,
                insertion_time_ns: now,
                size_bytes,
                total_fee: fee,
            }),
    {
        let now = clock_unix_nanos();
        self.insert_at(tx_hash, tx, fee, size_bytes, now)
    }

    /// The transaction under `tx_hash`, if held.
    pub fn get(&self, tx_hash: &[u8]) -> (r: Option<Transaction>)
        ensures
            match r {
                Some(t) => self.entries_view().contains_key(tx_hash@) && t@ == self.entries_view()[tx_hash@].transaction,
                None => !self.entries_view().contains_key(tx_hash@),
            },
    {
        match entries_get(&self.transactions, tx_hash) {
            Some(e) => Some(e.transaction),
            None => None,
        }
    }

    /// The entry under `tx_hash`, if held.
    pub fn get_entry(&self, tx_hash: &[u8]) -> (r: Option<IndexedTransactionEntry>)
        ensures
            match r {
                Some(e) => self.entries_view().contains_key(tx_hash@) && e@ == self.entries_view()[tx_hash@],
                None => !self.entries_view().contains_key(tx_hash@),
            },
    {
        entries_get(&self.transactions, tx_hash)
    }

    /// Sets the status of the entry under `tx_hash` and moves it between the
    /// status counts; fails when it is not held.
    pub fn update_status(&mut self, tx_hash: &[u8], new_status: IndexedTransactionStatus) -> (r: Result<(), String>)
        requires
            old(self).wf(),
        ensures
            final(self).wf(),
            final(self).config_view() == old(self).config_view(),
            r is Ok <==> old(self).entries_view().contains_key(tx_hash@),
            r matches Err(e) ==> e@ == "Transaction not found in index"@ && final(self).entries_view() == old(self).entries_view()
                && final(self).stats_view() == old(self).stats_view(),
            r is Ok ==> final(self).entries_view() == old(self).entries_view().insert(tx_hash@, IndexedEntryView {
                status: new_status,
                ..old(self).entries_view()[tx_hash@]
            }) && final(self).stats_view() == count_up(count_down(old(self).stats_view(), old(self).entries_view()[tx_hash@].status), new_status),
    {
        match entries_get(&self.transactions, tx_hash) {
            Some(mut e) => {
                let old_status = e.status;
                e.status = new_status;
                entries_insert(&mut self.transactions, copy_bytes(tx_hash), e);
                match old_status {
                    IndexedTransactionStatus::Pending => { self.stats.pending_count = self.stats.pending_count.saturating_sub(1) },
                    IndexedTransactionStatus::Validated => { self.stats.validated_count = self.stats.validated_count.saturating_sub(1) },
                    IndexedTransactionStatus::Invalid => { self.stats.invalid_count = self.stats.invalid_count.saturating_sub(1) },
                    IndexedTransactionStatus::Confirmed => { self.stats.confirmed_count = self.stats.confirmed_count.saturating_sub(1) },
                }
                match new_status {
                    IndexedTransactionStatus::Pending => { self.stats.pending_count = self.stats.pending_count.wrapping_add(1) },
                    IndexedTransactionStatus::Validated => { self.stats.validated_count = self.stats.validated_count.wrapping_add(1) },
                    IndexedTransactionStatus::Invalid => { self.stats.invalid_count = self.stats.invalid_count.wrapping_add(1) },
                    IndexedTransactionStatus::Confirmed => { self.stats.confirmed_count = self.stats.confirmed_count.wrapping_add(1) },
                }
                Ok(())
            },
            None => Err("Transaction not found in index".to_string()),
        }
    }

    /// Removes the entry under `tx_hash` and hands it out; fails when it is
    /// not held.
    pub fn remove(&mut self, tx_hash: &[u8]) -> (r: Result<IndexedTransactionEntry, String>)
        requires
            old(self).wf(),
        ensures
            final(self).wf(),
            final(self).config_view() == old(self).config_view(),
            r is Ok <==> old(self).entries_view().contains_key(tx_hash@),
            r matches Err(e) ==> e@ == "Transaction not found in index"@ && final(self).entries_view() == old(self).entries_view()
                && final(self).stats_view() == old(self).stats_view(),
            r matches Ok(e) ==> e@ == old(self).entries_view()[tx_hash@]
                && final(self).entries_view() == old(self).entries_view().remove(tx_hash@)
                && final(self).stats_view() == removed_stats(old(self).stats_view(), old(self).entries_view()[tx_hash@], final(self).entries_view().len()),
    {
        match entries_remove(&mut self.transactions, tx_hash) {
            Some(e) => {
                self.stats.total_transactions = entries_len(&self.transactions);
                match e.status {
                    IndexedTransactionStatus::Pending => { self.stats.pending_count = self.stats.pending_count.saturating_sub(1) },
                    IndexedTransactionStatus::Validated => { self.stats.validated_count = self.stats.validated_count.saturating_sub(1) },
                    IndexedTransactionStatus::Invalid => { self.stats.invalid_count = self.stats.invalid_count.saturating_sub(1) },
                    IndexedTransactionStatus::Confirmed => { self.stats.confirmed_count = self.stats.confirmed_count.saturating_sub(1) },
                }
                self.stats.total_memory_bytes = self.stats.total_memory_bytes.saturating_sub(e.size_bytes.wrapping_add(ENTRY_OVERHEAD_BYTES));
                Ok(e)
            },
            None => Err("Transaction not found in index".to_string()),
        }
    }

    /// Whether a transaction is held under `tx_hash`.
    pub fn contains(&self, tx_hash: &[u8]) -> (b: bool)
        ensures
            b == self.entries_view().contains_key(tx_hash@),
    {
        entries_contains(&self.transactions, tx_hash)
    }

    /// Number of transactions held.
    pub fn len(&self) -> (n: usize)
        ensures
            n == self.entries_view().len(),
    {
        entries_len(&self.transactions)
    }

    /// Whether no transaction is held.
    pub fn is_empty(&self) -> (b: bool)
        ensures
            b == (self.entries_view().len() == 0),
    {
        entries_len(&self.transactions) == 0
    }

    /// Empties the index and resets the counters.
    pub fn clear(&mut self)
        ensures
            final(self).wf(),
            final(self).entries_view() == no_index_entries(),
            final(self).stats_view() == IndexStats::spec_zero(),
            final(self).config_view() == old(self).config_view(),
    {
        entries_clear(&mut self.transactions);
        self.stats = IndexStats::default();
    }

    /// The hashes of the entries that `f` picks, each once.
    fn keys_where(&self, f: EntryFilter) -> (r: Vec<Vec<u8>>)
        ensures
            key_views(r@).no_duplicates(),
            key_views(r@).to_set() == picked_by(self.entries_view(), f),
    {
        let ghost m = self.entries_view();
        let keys = entries_keys(&self.transactions);
        let ghost kv = key_views(keys@);
        let ghost p = |k: Seq<u8>| filter_picks(f, m[k]);
        let mut r: Vec<Vec<u8>> = Vec::new();
        let mut i: usize = 0;
        proof {
            assert(kv.take(0) =~= Seq::<Seq<u8>>::empty());
            assert(kv.take(0).filter(p) =~= Seq::<Seq<u8>>::empty()) by {
                reveal(Seq::filter);
            }
            assert(key_views(r@) =~= Seq::<Seq<u8>>::empty());
        }
        while i < keys.len()
            invariant
                m == self.entries_view(),
                kv == key_views(keys@),
                kv.no_duplicates(),
                kv.to_set() == m.dom(),
                p == (|k: Seq<u8>| filter_picks(f, m[k])),
                i <= keys@.len(),
                key_views(r@) == kv.take(i as int).filter(p),
            decreases keys@.len() - i,
        {
            let ghost prev = r@;
            proof {
                assert(kv.take(i + 1) =~= kv.take(i as int).push(kv[i as int]));
                kv.take(i as int).lemma_filter_push(kv[i as int], p);
                assert(kv.to_set().contains(kv[i as int]));
            }
            match entries_get(&self.transactions, keys[i].as_slice()) {
                Some(e) => {
                    if f.picks(&e) {
                        r.push(copy_bytes(keys[i].as_slice()));
                        proof {
                            assert(key_views(r@) =~= key_views(prev).push(kv[i as int]));
                        }
                    }
                },
                None => {},
            }
            i = i + 1;
        }
        proof {
            assert(kv.take(keys@.len() as int) =~= kv);
            lemma_filter_exact(kv, p);
            assert forall|k: Seq<u8>| key_views(r@).to_set().contains(k) == picked_by(m, f).contains(k) by {
                if m.contains_key(k) {
                    assert(kv.to_set().contains(k));
                }
            }
            assert(key_views(r@).to_set() =~= picked_by(m, f));
        }
        r
    }

    /// The hashes of the entries with `status`, each once.
    fn keys_with_status(&self, status: IndexedTransactionStatus) -> (r: Vec<Vec<u8>>)
        ensures
            key_views(r@).no_duplicates(),
            key_views(r@).to_set() == with_status(self.entries_view(), status),
    {
        let r = self.keys_where(EntryFilter::Status(status));
        proof {
            assert(picked_by(self.entries_view(), EntryFilter::Status(status)) =~= with_status(self.entries_view(), status));
        }
        r
    }

    /// The transactions with `status`, in the map's order.
    pub fn get_by_status(&self, status: IndexedTransactionStatus) -> (r: Vec<Transaction>)
        ensures
            exists|ks: Seq<Seq<u8>>| #![trigger index_txs(self.entries_view(), ks)]
                ks.no_duplicates()
                && ks.to_set() == with_status(self.entries_view(), status)
                && views_of(r@) == index_txs(self.entries_view(), ks),
    {
        let ghost m = self.entries_view();
        let keys = self.keys_with_status(status);
        let ghost kv = key_views(keys@);
        let mut r: Vec<Transaction> = Vec::new();
        let mut i: usize = 0;
        proof {
            assert(views_of(r@) =~= index_txs(m, kv.take(0)));
        }
        while i < keys.len()
            invariant
                m == self.entries_view(),
                kv == key_views(keys@),
                kv.to_set() == with_status(m, status),
                i <= keys@.len(),
                views_of(r@) == index_txs(m, kv.take(i as int)),
            decreases keys@.len() - i,
        {
            let ghost prev = r@;
            proof {
                assert(kv.to_set().contains(kv[i as int]));
                assert(with_status(m, status).contains(kv[i as int]));
                assert(m.contains_key(kv[i as int]));
            }
            match entries_get(&self.transactions, keys[i].as_slice()) {
                Some(e) => {
                    r.push(e.transaction);
                    proof {
                        assert(views_of(r@) =~= views_of(prev).push(m[kv[i as int]].transaction));
                    }
                },
                None => {},
            }
            proof {
                assert(kv.take(i + 1) =~= kv.take(i as int).push(kv[i as int]));
                assert(views_of(r@) =~= index_txs(m, kv.take(i + 1)));
            }
            i = i + 1;
        }
        proof {
            assert(kv.take(keys@.len() as int) =~= kv);
        }
        r
    }

    /// The number of transactions with `status`.
    pub fn count_by_status(&self, status: IndexedTransactionStatus) -> (n: usize)
        ensures
            n == with_status(self.entries_view(), status).len(),
    {
        let keys = self.keys_with_status(status);
        proof {
            key_views(keys@).unique_seq_to_set();
        }
        keys.len()
    }

    /// Checks the status counts against the entries; fails when one of them
    /// differs.
    pub fn verify_consistency(&self) -> (r: Result<(), String>)
        ensures
            r is Ok <==> counts_consistent(self.entries_view(), self.stats_view()),
            r matches Err(e) ==> e@ == "Index statistics mismatch"@,
    {
        let actual_pending = self.count_by_status(IndexedTransactionStatus::Pending);
        let actual_validated = self.count_by_status(IndexedTransactionStatus::Validated);
        let actual_invalid = self.count_by_status(IndexedTransactionStatus::Invalid);
        let actual_confirmed = self.count_by_status(IndexedTransactionStatus::Confirmed);
        if actual_pending != self.stats.pending_count || actual_validated != self.stats.validated_count
            || actual_invalid != self.stats.invalid_count || actual_confirmed != self.stats.confirmed_count
        {
            proof {
                if actual_pending != self.stats.pending_count {
                    assert(count_of(self.stats_view(), IndexedTransactionStatus::Pending) != with_status(self.entries_view(), IndexedTransactionStatus::Pending).len());
                } else if actual_validated != self.stats.validated_count {
                    assert(count_of(self.stats_view(), IndexedTransactionStatus::Validated) != with_status(self.entries_view(), IndexedTransactionStatus::Validated).len());
                } else if actual_invalid != self.stats.invalid_count {
                    assert(count_of(self.stats_view(), IndexedTransactionStatus::Invalid) != with_status(self.entries_view(), IndexedTransactionStatus::Invalid).len());
                } else {
                    assert(count_of(self.stats_view(), IndexedTransactionStatus::Confirmed) != with_status(self.entries_view(), IndexedTransactionStatus::Confirmed).len());
                }
            }
            return Err("Index statistics mismatch".to_string());
        }
        proof {
            assert forall|st: IndexedTransactionStatus| #[trigger] count_of(self.stats_view(), st) == with_status(self.entries_view(), st).len() by {
                match st {
                    IndexedTransactionStatus::Pending => {},
                    IndexedTransactionStatus::Validated => {},
                    IndexedTransactionStatus::Invalid => {},
                    IndexedTransactionStatus::Confirmed => {},
                }
            }
        }
        Ok(())
    }

    /// Up to `limit` transactions with the highest fee rates, highest first;
    /// among equal rates the map's order decides.
    pub fn get_top_by_fee_rate(&self, limit: usize) -> (r: Vec<Transaction>)
        requires
            self.wf(),
        ensures
            exists|ks: Seq<Seq<u8>>| #![trigger index_txs(self.entries_view(), ks)]
                is_top_by_fee_rate(self.entries_view(), ks, limit)
                && views_of(r@) == index_txs(self.entries_view(), ks),
    {
        let ghost m = self.entries_view();
        let mut keys = entries_keys(&self.transactions);
        let ghost kv0 = key_views(keys@);
        proof {
            kv0.unique_seq_to_set();
        }
        let ghost n = keys@.len();
        let mut rates: Vec<u64> = Vec::new();
        let mut i: usize = 0;
        while i < keys.len()
            invariant
                m == self.entries_view(),
                kv0 == key_views(keys@),
                kv0.to_set() == m.dom(),
                i <= keys@.len(),
                rates@.len() == i,
                forall|j: int| 0 <= j < i ==> rates@[j] == rate_of(m, #[trigger] kv0[j]),
            decreases keys@.len() - i,
        {
            proof {
                assert(kv0.to_set().contains(kv0[i as int]));
            }
            match entries_get(&self.transactions, keys[i].as_slice()) {
                Some(e) => {
                    rates.push(e.fee_rate());
                },
                None => {
                    rates.push(0);
                },
            }
            i = i + 1;
        }
        let mut out: Vec<Transaction> = Vec::new();
        let ghost mut pk: Seq<Seq<u8>> = Seq::empty();
        proof {
            assert(views_of(out@) =~= index_txs(m, pk));
        }
        while out.len() < limit && keys.len() > 0
            invariant
                m == self.entries_view(),
                rates@.len() == keys@.len(),
                forall|j: int| 0 <= j < keys@.len() ==> rates@[j] == rate_of(m, #[trigger] key_views(keys@)[j]),
                pk.no_duplicates(),
                key_views(keys@).no_duplicates(),
                forall|x: Seq<u8>| #[trigger] pk.contains(x) ==> !key_views(keys@).contains(x),
                forall|x: Seq<u8>| #![trigger m.contains_key(x)] #![trigger pk.contains(x)] #![trigger key_views(keys@).contains(x)]
                    m.contains_key(x) <==> (pk.contains(x) || key_views(keys@).contains(x)),
                pk.len() == out@.len(),
                pk.len() + keys@.len() == n,
                n == m.len(),
                out@.len() <= limit,
                forall|a: int, b: int| 0 <= a < b < pk.len() ==> rate_of(m, #[trigger] pk[b]) <= rate_of(m, #[trigger] pk[a]),
                forall|x: Seq<u8>, a: int| #![trigger key_views(keys@).contains(x), pk[a]]
                    key_views(keys@).contains(x) && 0 <= a < pk.len() ==> rate_of(m, x) <= rate_of(m, pk[a]),
                views_of(out@) == index_txs(m, pk),
            decreases keys@.len(),
        {
            let mut best: usize = 0;
            let mut j: usize = 1;
            while j < keys.len()
                invariant
                    rates@.len() == keys@.len(),
                    keys@.len() > 0,
                    best < j <= keys@.len(),
                    forall|t: int| 0 <= t < j ==> rates@[t] <= rates@[best as int],
                decreases keys@.len() - j,
            {
                if rates[j] > rates[best] {
                    best = j;
                }
                j = j + 1;
            }
            let ghost ck = key_views(keys@);
            let ghost kseq = keys@;
            let ghost x = ck[best as int];
            let ghost prev = out@;
            proof {
                lemma_remove_exact(ck, best as int);
                assert(ck.contains(x));
                assert(m.contains_key(x));
                assert forall|y: Seq<u8>| ck.contains(y) implies rate_of(m, y) <= rate_of(m, x) by {
                    let t = ck.index_of(y);
                    assert(rates@[t] == rate_of(m, ck[t]));
                }
            }
            let k = keys.remove(best);
            let _ = rates.remove(best);
            proof {
                assert(key_views(keys@) =~= ck.remove(best as int)) by {
                    ck.remove_ensures(best as int);
                    kseq.remove_ensures(best as int);
                }
                assert(k@ == x);
            }
            match entries_get(&self.transactions, k.as_slice()) {
                Some(e) => {
                    out.push(e.transaction);
                    proof {
                        assert(views_of(out@) =~= views_of(prev).push(m[x].transaction));
                    }
                },
                None => {},
            }
            proof {
                let pk0 = pk;
                assert(!pk0.contains(x));
                pk = pk.push(x);
                assert(views_of(out@) =~= index_txs(m, pk));
                assert forall|y: Seq<u8>| #[trigger] pk.contains(y) <==> (pk0.contains(y) || y == x) by {
                    if pk0.contains(y) {
                        let j = pk0.index_of(y);
                        assert(pk[j] == y);
                    }
                    if pk.contains(y) && y != x {
                        let j = pk.index_of(y);
                        assert(j < pk0.len());
                        assert(pk0[j] == y);
                    }
                    assert(pk[pk0.len() as int] == x);
                }
                assert(pk.no_duplicates()) by {
                    assert forall|a: int, b: int| 0 <= a < pk.len() && 0 <= b < pk.len() && a != b implies pk[a] != pk[b] by {
                        if a == pk0.len() {
                            assert(pk0.contains(pk[b]));
                        } else if b == pk0.len() {
                            assert(pk0.contains(pk[a]));
                        } else {
                            assert(pk[a] == pk0[a] && pk[b] == pk0[b]);
                        }
                    }
                }
                assert forall|y: Seq<u8>| #[trigger] pk.contains(y) implies !key_views(keys@).contains(y) by {
                    if y != x {
                        assert(pk0.contains(y));
                    }
                }
                assert forall|y: Seq<u8>| m.contains_key(y) <==> (pk.contains(y) || key_views(keys@).contains(y)) by {
                    if y == x {
                        assert(pk.contains(y));
                    } else {
                        assert(pk.contains(y) == pk0.contains(y));
                        assert(key_views(keys@).contains(y) == ck.contains(y));
                    }
                }
            }
        }
        proof {
            let ks = pk;
            if ks.len() < limit {
                assert(keys@.len() == 0);
            }
            assert forall|k2: Seq<u8>, a: int| m.contains_key(k2) && !ks.contains(k2) && 0 <= a < ks.len() implies rate_of(m, k2) <= rate_of(m, ks[a]) by {
                assert(key_views(keys@).contains(k2));
            }
            assert forall|a: int| 0 <= a < ks.len() implies m.contains_key(ks[a]) by {
                assert(ks.contains(ks[a]));
            }
            assert(is_top_by_fee_rate(m, ks, limit));
        }
        out
    }

    /// Removes every entry older than `max_age_ns` as of `now`, one after
    /// another in the map's order, and returns how many it removed.
    pub fn cleanup_old_transactions_at(&mut self, max_age_ns: u64, now: u64) -> (n: usize)
        requires
            old(self).wf(),
        ensures
            final(self).wf(),
            final(self).config_view() == old(self).config_view(),
            final(self).entries_view() == old(self).entries_view().remove_keys(older_than(old(self).entries_view(), max_age_ns, now)),
            n == older_than(old(self).entries_view(), max_age_ns, now).len(),
            exists|ks: Seq<Seq<u8>>| #![trigger stats_after_removals(old(self).stats_view(), old(self).entries_view(), ks)]
                ks.no_duplicates()
                && ks.to_set() == older_than(old(self).entries_view(), max_age_ns, now)
                && final(self).stats_view() == stats_after_removals(old(self).stats_view(), old(self).entries_view(), ks),
    {
        let ghost m = self.entries_view();
        let ghost s0 = self.stats_view();
        let keys = self.keys_where(EntryFilter::OlderThan(max_age_ns, now));
        let ghost kv = key_views(keys@);
        proof {
            assert(picked_by(m, EntryFilter::OlderThan(max_age_ns, now)) =~= older_than(m, max_age_ns, now));
            kv.unique_seq_to_set();
            assert(m.remove_keys(kv.take(0).to_set()) =~= m) by {
                assert(kv.take(0).to_set() =~= Set::<Seq<u8>>::empty());
            }
            assert(kv.take(0) =~= Seq::<Seq<u8>>::empty());
        }
        let mut removed: usize = 0;
        let mut i: usize = 0;
        while i < keys.len()
            invariant
                self.wf(),
                self.config_view() == old(self).config_view(),
                m == old(self).entries_view(),
                s0 == old(self).stats_view(),
                kv == key_views(keys@),
                kv.no_duplicates(),
                kv.to_set() == older_than(m, max_age_ns, now),
                i <= keys@.len(),
                removed == i,
                self.entries_view() == m.remove_keys(kv.take(i as int).to_set()),
                self.stats_view() == stats_after_removals(s0, m, kv.take(i as int)),
            decreases keys@.len() - i,
        {
            let ghost k = kv[i as int];
            proof {
                assert(kv.to_set().contains(k));
                assert(!kv.take(i as int).contains(k)) by {
                    if kv.take(i as int).contains(k) {
                        let j = kv.take(i as int).index_of(k);
                        assert(kv[j] == k);
                    }
                }
                assert(kv.take(i + 1) =~= kv.take(i as int).push(k));
                kv.take(i as int).lemma_push_to_set_commute(k);
                assert(kv.take(i + 1).to_set() =~= kv.take(i as int).to_set().insert(k));
                assert(m.remove_keys(kv.take(i + 1).to_set()) =~= m.remove_keys(kv.take(i as int).to_set()).remove(k));
                assert(kv.take(i + 1).drop_last() =~= kv.take(i as int));
            }
            let r = self.remove(keys[i].as_slice());
            if r.is_ok() {
                removed = removed + 1;
            }
            i = i + 1;
        }
        proof {
            assert(kv.take(keys@.len() as int) =~= kv);
        }
        removed
    }

    /// Removes every entry older than `max_age_ns` and returns how many it
    /// removed; the time is read from the system clock.
    pub fn cleanup_old_transactions(&mut self, max_age_ns: u64) -> (n: usize)
        requires
            old(self).wf(),
        ensures
            final(self).wf(),
            final(self).config_view() == old(self).config_view(),
            exists|now: u64| #![trigger older_than(old(self).entries_view(), max_age_ns, now)]
                final(self).entries_view() == old(self).entries_view().remove_keys(older_than(old(self).entries_view(), max_age_ns, now))
                && n == older_than(old(self).entries_view(), max_age_ns, now).len(),
    {
        let now = clock_unix_nanos();
        self.cleanup_old_transactions_at(max_age_ns, now)
    }

    /// The counters, with the number held taken as it is now.
    pub fn get_stats(&self) -> (s: IndexStats)
        ensures
            s == (IndexStats { total_transactions: self.entries_view().len() as usize, ..self.stats_view() }),
    {
        let mut s = self.stats;
        s.total_transactions = entries_len(&self.transactions);
        s
    }
}

/// The counters after the entries under `ks` leave `m`, one after another.
pub open spec fn stats_after_removals(s: IndexStats, m: Map<Seq<u8>, IndexedEntryView>, ks: Seq<Seq<u8>>) -> IndexStats
    decreases ks.len(),
{
    if ks.len() == 0 {
        s
    } else {
        removed_stats(stats_after_removals(s, m, ks.drop_last()), m[ks.last()], m.remove_keys(ks.to_set()).len())
    }
}

/// Fee rate of the entry under `k`.
pub open spec fn rate_of(m: Map<Seq<u8>, IndexedEntryView>, k: Seq<u8>) -> u64 {
    indexed_fee_rate(m[k])
}

/// `ks` lists, highest first, `limit` (or all, if fewer are held) of the
/// entries of `m` with the highest fee rates.
pub open spec fn is_top_by_fee_rate(m: Map<Seq<u8>, IndexedEntryView>, ks: Seq<Seq<u8>>, limit: usize) -> bool {
    &&& ks.no_duplicates()
    &&& ks.len() == (if limit < m.len() { limit as nat } else { m.len() })
    &&& forall|i: int| 0 <= i < ks.len() ==> m.contains_key(#[trigger] ks[i])
    &&& forall|i: int, j: int| 0 <= i < j < ks.len() ==> rate_of(m, #[trigger] ks[j]) <= rate_of(m, #[trigger] ks[i])
    &&& forall|k: Seq<u8>, i: int| #![trigger m.contains_key(k), ks[i]]
        m.contains_key(k) && !ks.contains(k) && 0 <= i < ks.len() ==> rate_of(m, k) <= rate_of(m, ks[i])
}

/// The counters after a pending entry of `size` bytes comes in, `n`
/// entries being held then.
pub open spec fn inserted_stats(s: IndexStats, size: usize, n: nat) -> IndexStats {
    let c = count_up(s, IndexedTransactionStatus::Pending);
    IndexStats {
        total_transactions: n as usize,
        total_memory_bytes: s.total_memory_bytes.wrapping_add(size.wrapping_add(ENTRY_OVERHEAD_BYTES)),
        ..c
    }
}

/// The counters after the entry `e` leaves, `n` entries staying.
pub open spec fn removed_stats(s: IndexStats, e: IndexedEntryView, n: nat) -> IndexStats {
    let c = count_down(s, e.status);
    IndexStats {
        total_transactions: n as usize,
        total_memory_bytes: if c.total_memory_bytes >= e.size_bytes.wrapping_add(ENTRY_OVERHEAD_BYTES) {
            (c.total_memory_bytes - e.size_bytes.wrapping_add(ENTRY_OVERHEAD_BYTES)) as usize
        } else {
            0
        },
        ..c
    }
}

/// Each status count of `s` is the number of entries of `m` with that status.
pub open spec fn counts_consistent(m: Map<Seq<u8>, IndexedEntryView>, s: IndexStats) -> bool {
    forall|st: IndexedTransactionStatus| #[trigger] count_of(s, st) == with_status(m, st).len()
}

/// Entries with a status are among the entries held.
proof fn lemma_with_status_bounded(m: Map<Seq<u8>, IndexedEntryView>, st: IndexedTransactionStatus)
    requires
        m.dom().finite(),
    ensures
        with_status(m, st).finite(),
        with_status(m, st).len() <= m.len(),
{
    assert(with_status(m, st).subset_of(m.dom()));
    vstd::set_lib::lemma_len_subset(with_status(m, st), m.dom());
}

/// The entries with `st` after `h` is set to `e`.
proof fn lemma_with_status_insert(m: Map<Seq<u8>, IndexedEntryView>, h: Seq<u8>, e: IndexedEntryView, st: IndexedTransactionStatus)
    ensures
        with_status(m.insert(h, e), st) == (if e.status == st {
            with_status(m, st).insert(h)
        } else {
            with_status(m, st).remove(h)
        }),
{
    let lhs = with_status(m.insert(h, e), st);
    let rhs = if e.status == st { with_status(m, st).insert(h) } else { with_status(m, st).remove(h) };
    assert(lhs =~= rhs);
}

/// Adding a pending entry under a hash not held keeps every status count
/// equal to the number of entries with that status.
pub proof fn lemma_insert_keeps_counts(m: Map<Seq<u8>, IndexedEntryView>, s: IndexStats, h: Seq<u8>, e: IndexedEntryView, size: usize)
    requires
        m.dom().finite(),
        m.len() < usize::MAX,
        counts_consistent(m, s),
        !m.contains_key(h),
        e.status == IndexedTransactionStatus::Pending,
    ensures
        counts_consistent(m.insert(h, e), inserted_stats(s, size, m.insert(h, e).len())),
{
    let m2 = m.insert(h, e);
    let s2 = inserted_stats(s, size, m2.len());
    assert forall|st: IndexedTransactionStatus| #[trigger] count_of(s2, st) == with_status(m2, st).len() by {
        lemma_with_status_insert(m, h, e, st);
        lemma_with_status_bounded(m, st);
        assert(count_of(s, st) == with_status(m, st).len());
        assert(!with_status(m, st).contains(h));
    }
}

/// Setting the status of an entry held keeps every status count equal to
/// the number of entries with that status.
pub proof fn lemma_update_status_keeps_counts(m: Map<Seq<u8>, IndexedEntryView>, s: IndexStats, h: Seq<u8>, new_status: IndexedTransactionStatus)
    requires
        m.dom().finite(),
        m.len() <= usize::MAX,
        counts_consistent(m, s),
        m.contains_key(h),
    ensures
        counts_consistent(
            m.insert(h, IndexedEntryView { status: new_status, ..m[h] }),
            count_up(count_down(s, m[h].status), new_status),
        ),
{
    let e = IndexedEntryView { status: new_status, ..m[h] };
    let m2 = m.insert(h, e);
    let old_status = m[h].status;
    let s2 = count_up(count_down(s, old_status), new_status);
    assert forall|st: IndexedTransactionStatus| #[trigger] count_of(s2, st) == with_status(m2, st).len() by {
        lemma_with_status_insert(m, h, e, st);
        lemma_with_status_bounded(m, st);
        assert(count_of(s, st) == with_status(m, st).len());
        assert(with_status(m, old_status).contains(h));
        assert(count_of(s, old_status) == with_status(m, old_status).len());
        if st == old_status && st == new_status {
            assert(with_status(m, st).insert(h) =~= with_status(m, st));
        } else if st == old_status {
            assert(with_status(m, st).contains(h));
        } else if st == new_status {
            assert(!with_status(m, st).contains(h));
            assert(with_status(m, st).insert(h).subset_of(m.dom()));
            vstd::set_lib::lemma_len_subset(with_status(m, st).insert(h), m.dom());
        } else {
            assert(!with_status(m, st).contains(h));
            assert(with_status(m, st).remove(h) =~= with_status(m, st));
        }
    }
}

/// Removing an entry held keeps every status count equal to the number of
/// entries with that status.
pub proof fn lemma_remove_keeps_counts(m: Map<Seq<u8>, IndexedEntryView>, s: IndexStats, h: Seq<u8>)
    requires
        m.dom().finite(),
        counts_consistent(m, s),
        m.contains_key(h),
    ensures
        counts_consistent(m.remove(h), removed_stats(s, m[h], m.remove(h).len())),
{
    let m2 = m.remove(h);
    let s2 = removed_stats(s, m[h], m2.len());
    let old_status = m[h].status;
    assert forall|st: IndexedTransactionStatus| #[trigger] count_of(s2, st) == with_status(m2, st).len() by {
        lemma_with_status_bounded(m, st);
        assert(count_of(s, st) == with_status(m, st).len());
        if st == old_status {
            assert(with_status(m2, st) =~= with_status(m, st).remove(h));
            assert(with_status(m, st).contains(h));
        } else {
            assert(with_status(m2, st) =~= with_status(m, st));
        }
    }
}

/// An empty index with counters at zero has consistent counts.
pub proof fn lemma_cleared_counts()
    ensures
        counts_consistent(no_index_entries(), IndexStats::spec_zero()),
{
    assert forall|st: IndexedTransactionStatus| #[trigger] count_of(IndexStats::spec_zero(), st) == with_status(no_index_entries(), st).len() by {
        assert(with_status(no_index_entries(), st) =~= Set::<Seq<u8>>::empty());
    }
}

/// Adding a pending entry under a hash not held and then removing it gives
/// back the entries and the counters, when no counter wrapped around.
pub proof fn lemma_insert_then_remove(m: Map<Seq<u8>, IndexedEntryView>, s: IndexStats, h: Seq<u8>, e: IndexedEntryView)
    requires
        m.dom().finite(),
        !m.contains_key(h),
        e.status == IndexedTransactionStatus::Pending,
        s.total_transactions == m.len(),
        s.pending_count < usize::MAX,
        s.total_memory_bytes + e.size_bytes + ENTRY_OVERHEAD_BYTES <= usize::MAX,
    ensures
        m.insert(h, e).remove(h) == m,
        removed_stats(inserted_stats(s, e.size_bytes, m.insert(h, e).len()), e, m.insert(h, e).remove(h).len()) == s,
{
    assert(m.insert(h, e).remove(h) =~= m);
}

} // verus!
