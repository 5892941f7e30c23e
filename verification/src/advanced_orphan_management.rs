//! Orphan resolution beyond the pool itself: a throttled queue of deferred
//! resolutions, and the linking of whole orphan chains level by level when a
//! parent arrives.

use vstd::prelude::*;
use std::collections::VecDeque;
use std::collections::BTreeMap;
use std::time::Instant;
use dashmap::DashMap;
use crate::conflict::OutPoint;
use crate::counter::{wrap_add, lemma_wrap_add_zero, lemma_wrap_add_step, lemma_wrap_add_once, wrap_usize, lemma_wrap_usize_zero, lemma_wrap_usize_step};
use crate::keyed::{KeyOps, KeySet, key_views};
use crate::bytes::copy_bytes;
use crate::orphan_manager::{OrphanManager, OrphanState, after_adopt, adopted_for, txs_of, tx_views};
use crate::transaction::{Transaction, TransactionView, hash_key, hash_key_spec};

verus! {

/// `std::time::Instant`, a reading of the monotonic clock, known to Verus
/// only as a type.
#[verifier::external_type_specification]
#[verifier::external_body]
pub struct ExInstant(Instant);

/// Calls `Instant::now`. Nothing is stated of the value: it is the time.
#[verifier::external_body]
fn instant_now() -> Instant {
    Instant::now()
}

/// Calls `Instant::duration_since` and gives the duration in nanoseconds;
/// the duration is zero when `earlier` is the later reading. Nothing is
/// stated of the value: it comes from the clock.
#[verifier::external_body]
fn nanos_between(later: &Instant, earlier: &Instant) -> u128 {
    later.duration_since(*earlier).as_nanos()
}

/// How long a scheduled resolution stays valid: 20 minutes, in nanoseconds.
pub const RESOLUTION_TTL_NANOS: u128 = 1_200_000_000_000;

/// A transaction waiting for deferred resolution.
#[derive(Clone, Debug)]
pub struct ResolutionTask {
    pub tx_hash: Vec<u8>,
    /// When the task was scheduled, in nanoseconds on the resolver's clock
    pub scheduled_at: u128,
    /// Higher goes first
    pub priority: u64,
}

/// Counters of the deferred resolver.
#[derive(Clone, Copy, Debug)]
pub struct ResolutionStats {
    pub total_scheduled: u64,
    pub total_processed: u64,
    pub total_expired: u64,
    pub current_queue_size: usize,
}

impl Default for ResolutionStats {
    fn default() -> (s: Self)
        ensures
            s.total_scheduled == 0,
            s.total_processed == 0,
            s.total_expired == 0,
            s.current_queue_size == 0,
    {
        ResolutionStats { total_scheduled: 0, total_processed: 0, total_expired: 0, current_queue_size: 0 }
    }
}

/// Nanoseconds from `earlier` to `later`; zero when `later` is earlier.
pub open spec fn elapsed(later: u128, earlier: u128) -> u128 {
    if later >= earlier { (later - earlier) as u128 } else { 0 }
}

/// Whether a task is still valid at `now`: scheduled at most 20 minutes
/// before.
pub open spec fn unexpired(now: u128) -> spec_fn(ResolutionTask) -> bool {
    |t: ResolutionTask| elapsed(now, t.scheduled_at) <= RESOLUTION_TTL_NANOS
}

/// Higher priorities come first.
pub open spec fn by_priority(q: Seq<ResolutionTask>) -> bool {
    forall|i: int, j: int| 0 <= i < j < q.len() ==> #[trigger] q[i].priority >= #[trigger] q[j].priority
}

/// A queue of transactions to resolve, higher priority first and, among
/// equal priorities, first scheduled first, handed out in batches no closer
/// in time than a minimum interval.
pub struct DeferredResolver {
    queue: VecDeque<ResolutionTask>,
    /// The reading the resolver's clock counts from
    origin: Instant,
    /// When the last batch was handed out, on the resolver's clock
    last_resolution: u128,
    min_resolution_interval_ms: u64,
    max_tasks_per_batch: usize,
    stats: ResolutionStats,
}

impl DeferredResolver {
    /// The tasks waiting, first to be handed out first.
    pub closed spec fn queue_view(&self) -> Seq<ResolutionTask> {
        self.queue@
    }

    pub closed spec fn stats_view(&self) -> ResolutionStats {
        self.stats
    }

    pub closed spec fn interval_ms(&self) -> u64 {
        self.min_resolution_interval_ms
    }

    pub closed spec fn batch_limit(&self) -> usize {
        self.max_tasks_per_batch
    }

    /// When the last batch was handed out, on the resolver's clock.
    pub closed spec fn last_batch_time(&self) -> u128 {
        self.last_resolution
    }

    /// The queue keeps higher priorities first.
    pub closed spec fn wf(&self) -> bool {
        by_priority(self.queue@)
    }

    pub fn new(min_resolution_interval_ms: u64, max_tasks_per_batch: usize) -> (r: Self)
        ensures
            r.wf(),
            r.queue_view() == Seq::<ResolutionTask>::empty(),
            r.stats_view() == (ResolutionStats { total_scheduled: 0, total_processed: 0, total_expired: 0, current_queue_size: 0 }),
            r.interval_ms() == min_resolution_interval_ms,
            r.batch_limit() == max_tasks_per_batch,
            r.last_batch_time() == 0,
    {
        Self {
            queue: VecDeque::new(),
            origin: instant_now(),
            last_resolution: 0,
            min_resolution_interval_ms,
            max_tasks_per_batch,
            stats: ResolutionStats::default(),
        }
    }

    /// Nanoseconds since the resolver was made, read from the monotonic
    /// clock.
    fn clock(&self) -> u128 {
        let now = instant_now();
        nanos_between(&now, &self.origin)
    }

    /// Queues `tx_hash` with `priority`, scheduled at `now_ns`: after every
    /// task of the same or higher priority, before every task of lower
    /// priority.
    pub fn schedule_resolution_at(&mut self, tx_hash: Vec<u8>, priority: u64, now_ns: u128) -> (r: Result<(), String>)
        requires
            old(self).wf(),
        ensures
            final(self).wf(),
            r is Ok,
            exists|pos: int| #![trigger old(self).queue_view().insert(pos, ResolutionTask { tx_hash, scheduled_at: now_ns, priority })]
                0 <= pos <= old(self).queue_view().len()
                && (forall|i: int| 0 <= i < pos ==> #[trigger] old(self).queue_view()[i].priority >= priority)
                && (pos < old(self).queue_view().len() ==> old(self).queue_view()[pos].priority < priority)
                && final(self).queue_view() == old(self).queue_view().insert(pos, ResolutionTask { tx_hash, scheduled_at: now_ns, priority }),
            final(self).stats_view() == (ResolutionStats {
                total_scheduled: old(self).stats_view().total_scheduled.wrapping_add(1),
                current_queue_size: final(self).queue_view().len() as usize,
                ..old(self).stats_view()
            }),
            final(self).interval_ms() == old(self).interval_ms(),
            final(self).batch_limit() == old(self).batch_limit(),
            final(self).last_batch_time() == old(self).last_batch_time(),
    {
        let ghost q0 = self.queue@;
        let mut pos: usize = 0;
        while pos < self.queue.len() && self.queue[pos].priority >= priority
            invariant
                self.queue@ == q0,
                pos <= q0.len(),
                forall|i: int| 0 <= i < pos ==> #[trigger] q0[i].priority >= priority,
            decreases q0.len() - pos,
        {
            pos = pos + 1;
        }
        proof {
            assert(pos < q0.len() ==> q0[pos as int].priority < priority);
        }
        let ghost th = tx_hash;
        let task = ResolutionTask { tx_hash, scheduled_at: now_ns, priority };
        let ghost t = task;
        self.queue.insert(pos, task);
        proof {
            let q1 = q0.insert(pos as int, t);
            assert(t == ResolutionTask { tx_hash: th, scheduled_at: now_ns, priority });
            assert(self.queue@ == q1);
            assert forall|i: int, j: int| 0 <= i < j < q1.len() implies #[trigger] q1[i].priority >= #[trigger] q1[j].priority by {
                if j < pos {
                    assert(q1[i] == q0[i] && q1[j] == q0[j]);
                } else if j == pos {
                    assert(q1[i] == q0[i]);
                } else if i == pos {
                    assert(q1[j] == q0[j - 1]);
                    assert(q0[pos as int].priority >= q0[j - 1].priority);
                } else if i < pos {
                    assert(q1[i] == q0[i] && q1[j] == q0[j - 1]);
                } else {
                    assert(q1[i] == q0[i - 1] && q1[j] == q0[j - 1]);
                }
            }
        }
        self.stats.total_scheduled = self.stats.total_scheduled.wrapping_add(1);
        self.stats.current_queue_size = self.queue.len();
        proof {
            assert(q0 == old(self).queue_view());
            assert(self.queue_view() == old(self).queue_view().insert(pos as int, ResolutionTask { tx_hash: th, scheduled_at: now_ns, priority }));
        }
        Ok(())
    }

    /// Queues `tx_hash` with `priority`, scheduled now on the resolver's
    /// clock.
    pub fn schedule_resolution(&mut self, tx_hash: Vec<u8>, priority: u64) -> (r: Result<(), String>)
        requires
            old(self).wf(),
        ensures
            final(self).wf(),
            r is Ok,
            exists|now: u128, pos: int| #![trigger old(self).queue_view().insert(pos, ResolutionTask { tx_hash, scheduled_at: now, priority })]
                0 <= pos <= old(self).queue_view().len()
                && (forall|i: int| 0 <= i < pos ==> #[trigger] old(self).queue_view()[i].priority >= priority)
                && (pos < old(self).queue_view().len() ==> old(self).queue_view()[pos].priority < priority)
                && final(self).queue_view() == old(self).queue_view().insert(pos, ResolutionTask { tx_hash, scheduled_at: now, priority }),
            final(self).stats_view() == (ResolutionStats {
                total_scheduled: old(self).stats_view().total_scheduled.wrapping_add(1),
                current_queue_size: final(self).queue_view().len() as usize,
                ..old(self).stats_view()
            }),
            final(self).interval_ms() == old(self).interval_ms(),
            final(self).batch_limit() == old(self).batch_limit(),
            final(self).last_batch_time() == old(self).last_batch_time(),
    {
        let now = self.clock();
        self.schedule_resolution_at(tx_hash, priority, now)
    }

    /// Hands out the batch due at `now_ns`: nothing, and no change, when the
    /// last batch went out less than the minimum interval before; else the
    /// tasks are taken from the front of the queue, the expired ones (more
    /// than 20 minutes old) dropped, until the batch limit is reached or the
    /// queue is empty.
    pub fn process_batch_at(&mut self, now_ns: u128) -> (r: Result<Vec<ResolutionTask>, String>)
        requires
            old(self).wf(),
        ensures
            final(self).wf(),
            final(self).interval_ms() == old(self).interval_ms(),
            final(self).batch_limit() == old(self).batch_limit(),
            r is Ok,
            elapsed(now_ns, old(self).last_batch_time()) < old(self).interval_ms() as u128 * 1_000_000 ==> {
                &&& r->Ok_0@.len() == 0
                &&& final(self).queue_view() == old(self).queue_view()
                &&& final(self).stats_view() == old(self).stats_view()
                &&& final(self).last_batch_time() == old(self).last_batch_time()
            },
            elapsed(now_ns, old(self).last_batch_time()) >= old(self).interval_ms() as u128 * 1_000_000 ==>
                exists|k: int| #![trigger old(self).queue_view().take(k)] {
                    let q = old(self).queue_view();
                    let batch = r->Ok_0@;
                    &&& 0 <= k <= q.len()
                    &&& batch == q.take(k).filter(unexpired(now_ns))
                    &&& (k == q.len() || batch.len() == old(self).batch_limit())
                    &&& (k == 0 || q.take(k - 1).filter(unexpired(now_ns)).len() < old(self).batch_limit())
                    &&& final(self).queue_view() == q.skip(k)
                    &&& final(self).last_batch_time() == now_ns
                    &&& final(self).stats_view() == (ResolutionStats {
                        total_processed: wrap_add(old(self).stats_view().total_processed, batch.len()),
                        total_expired: wrap_add(old(self).stats_view().total_expired, (k - batch.len()) as nat),
                        current_queue_size: (q.len() - k) as usize,
                        ..old(self).stats_view()
                    })
                },
    {
        let since = if now_ns >= self.last_resolution { now_ns - self.last_resolution } else { 0 };
        if since < (self.min_resolution_interval_ms as u128) * 1_000_000 {
            return Ok(Vec::new());
        }
        let ghost q0 = self.queue@;
        let ghost s0 = self.stats;
        let ghost f = unexpired(now_ns);
        let mut batch: Vec<ResolutionTask> = Vec::new();
        let ghost mut k: int = 0;
        proof {
            lemma_wrap_add_zero(s0.total_expired);
            assert(q0.take(0) =~= Seq::<ResolutionTask>::empty());
            assert(q0.take(0).filter(f) =~= Seq::<ResolutionTask>::empty()) by {
                reveal(Seq::filter);
            }
            assert(self.queue@ =~= q0.skip(0));
        }
        while batch.len() < self.max_tasks_per_batch && self.queue.len() > 0
            invariant
                0 <= k <= q0.len(),
                f == unexpired(now_ns),
                self.queue@ == q0.skip(k),
                by_priority(q0),
                batch@ == q0.take(k).filter(f),
                k == 0 || q0.take(k - 1).filter(f).len() < self.max_tasks_per_batch,
                batch@.len() <= k,
                batch@.len() <= self.max_tasks_per_batch,
                self.max_tasks_per_batch == old(self).max_tasks_per_batch,
                self.min_resolution_interval_ms == old(self).min_resolution_interval_ms,
                self.last_resolution == old(self).last_resolution,
                self.stats == (ResolutionStats { total_expired: wrap_add(s0.total_expired, (k - batch@.len()) as nat), ..s0 }),
            decreases q0.len() - k,
        {
            let ghost b0 = batch@;
            let popped = self.queue.pop_front();
            match popped {
                Some(task) => {
                    let ghost t = task;
                    proof {
                        assert(t == q0[k]);
                        assert(q0.take(k + 1).drop_last() =~= q0.take(k));
                        assert(q0.take(k + 1).last() == t);
                        assert(self.queue@ =~= q0.skip(k + 1));
                        q0.take(k).lemma_filter_push(t, f);
                        assert(q0.take(k + 1) =~= q0.take(k).push(t));
                    }
                    let age = if now_ns >= task.scheduled_at { now_ns - task.scheduled_at } else { 0 };
                    if age > RESOLUTION_TTL_NANOS {
                        proof {
                            assert(!f(t));
                            lemma_wrap_add_step(s0.total_expired, (k - batch@.len()) as nat);
                            k = k + 1;
                        }
                        self.stats.total_expired = self.stats.total_expired.wrapping_add(1);
                    } else {
                        batch.push(task);
                        proof {
                            assert(f(t));
                            assert(batch@ =~= b0.push(t));
                            k = k + 1;
                        }
                    }
                },
                None => {},
            }
        }
        self.last_resolution = now_ns;
        proof {
            lemma_wrap_add_once(s0.total_processed, batch@.len() as u64);
        }
        self.stats.total_processed = self.stats.total_processed.wrapping_add(batch.len() as u64);
        self.stats.current_queue_size = self.queue.len();
        proof {
            assert(q0 == old(self).queue_view());
            if self.queue@.len() == 0 {
                assert(k == q0.len());
            }
            assert(self.queue_view() == q0.skip(k));
            assert forall|i: int, j: int| 0 <= i < j < self.queue@.len() implies
                #[trigger] self.queue@[i].priority >= #[trigger] self.queue@[j].priority by {
                assert(self.queue@[i] == q0[i + k] && self.queue@[j] == q0[j + k]);
            }
        }
        Ok(batch)
    }

    /// Hands out the batch due now on the resolver's clock; see
    /// `process_batch_at`.
    pub fn process_batch(&mut self) -> (r: Result<Vec<ResolutionTask>, String>)
        requires
            old(self).wf(),
        ensures
            final(self).wf(),
            final(self).interval_ms() == old(self).interval_ms(),
            final(self).batch_limit() == old(self).batch_limit(),
            r is Ok,
            exists|now: u128| #![trigger elapsed(now, old(self).last_batch_time())]
                (elapsed(now, old(self).last_batch_time()) < old(self).interval_ms() as u128 * 1_000_000 ==> {
                    &&& r->Ok_0@.len() == 0
                    &&& final(self).queue_view() == old(self).queue_view()
                    &&& final(self).stats_view() == old(self).stats_view()
                })
                && (elapsed(now, old(self).last_batch_time()) >= old(self).interval_ms() as u128 * 1_000_000 ==>
                    exists|k: int| #![trigger old(self).queue_view().take(k)] {
                        let q = old(self).queue_view();
                        let batch = r->Ok_0@;
                        &&& 0 <= k <= q.len()
                        &&& batch == q.take(k).filter(unexpired(now))
                        &&& (k == q.len() || batch.len() == old(self).batch_limit())
                        &&& (k == 0 || q.take(k - 1).filter(unexpired(now)).len() < old(self).batch_limit())
                        &&& final(self).queue_view() == q.skip(k)
                    }),
    {
        let now = self.clock();
        let r = self.process_batch_at(now);
        proof {
            assert(elapsed(now, old(self).last_batch_time()) == elapsed(now, old(self).last_batch_time()));
        }
        r
    }

    /// Drops every waiting task.
    pub fn clear_queue(&mut self)
        ensures
            final(self).wf(),
            final(self).last_batch_time() == old(self).last_batch_time(),
            final(self).queue_view() == Seq::<ResolutionTask>::empty(),
            final(self).stats_view() == (ResolutionStats { current_queue_size: 0, ..old(self).stats_view() }),
            final(self).interval_ms() == old(self).interval_ms(),
            final(self).batch_limit() == old(self).batch_limit(),
    {
        self.queue.clear();
        self.stats.current_queue_size = 0;
    }

    /// The counters.
    pub fn get_stats(&self) -> (s: ResolutionStats)
        ensures
            s == self.stats_view(),
    {
        self.stats
    }

    /// Number of waiting tasks.
    pub fn queue_size(&self) -> (n: usize)
        ensures
            n == self.queue_view().len(),
    {
        self.queue.len()
    }
}

/// The link of an orphan in a resolved chain.
#[derive(Clone, Debug)]
pub struct OrphanChainLink {
    pub tx_hash: Vec<u8>,
    /// The outputs whose arrival freed it
    pub immediate_parents: Vec<OutPoint>,
    /// Orphans that wait for it
    pub immediate_children: Vec<Vec<u8>>,
    /// Level in the chain; the arriving parent is level 0
    pub depth: usize,
}

/// A chain link as a value.
pub struct ChainLinkView {
    pub tx_hash: Seq<u8>,
    pub immediate_parents: Seq<(Seq<u8>, u32)>,
    pub immediate_children: Seq<Seq<u8>>,
    pub depth: usize,
}

impl View for OrphanChainLink {
    type V = ChainLinkView;

    open spec fn view(&self) -> ChainLinkView {
        ChainLinkView {
            tx_hash: self.tx_hash@,
            immediate_parents: key_views(self.immediate_parents@),
            immediate_children: key_views(self.immediate_children@),
            depth: self.depth,
        }
    }
}

impl OrphanChainLink {
    /// A copy of the link.
    pub fn duplicate(&self) -> (c: Self)
        ensures
            c@ == self@,
    {
        let mut parents: Vec<OutPoint> = Vec::new();
        let mut i: usize = 0;
        while i < self.immediate_parents.len()
            invariant
                i <= self.immediate_parents@.len(),
                key_views(parents@) == key_views(self.immediate_parents@).take(i as int),
            decreases self.immediate_parents@.len() - i,
        {
            let ghost prev = key_views(parents@);
            parents.push(self.immediate_parents[i].key_clone());
            proof {
                assert(key_views(parents@) =~= prev.push(self.immediate_parents@[i as int]@));
                assert(key_views(self.immediate_parents@).take(i + 1) =~= key_views(self.immediate_parents@).take(i as int).push(self.immediate_parents@[i as int]@));
            }
            i = i + 1;
        }
        proof {
            assert(key_views(self.immediate_parents@).take(self.immediate_parents@.len() as int) =~= key_views(self.immediate_parents@));
        }
        let c = OrphanChainLink {
            tx_hash: copy_bytes(self.tx_hash.as_slice()),
            immediate_parents: parents,
            immediate_children: crate::keyed::copy_list(&self.immediate_children),
            depth: self.depth,
        };
        c
    }
}

/// Counters of the chain linker.
#[derive(Clone, Copy, Debug)]
pub struct LinkerStats {
    pub total_links_created: u64,
    pub total_chains_resolved: u64,
    pub max_depth_reached: usize,
    pub total_adopted_via_linking: u64,
    pub circular_deps_detected: u64,
}

impl Default for LinkerStats {
    fn default() -> (s: Self)
        ensures
            s.total_links_created == 0,
            s.total_chains_resolved == 0,
            s.max_depth_reached == 0,
            s.total_adopted_via_linking == 0,
            s.circular_deps_detected == 0,
    {
        LinkerStats {
            total_links_created: 0,
            total_chains_resolved: 0,
            max_depth_reached: 0,
            total_adopted_via_linking: 0,
            circular_deps_detected: 0,
        }
    }
}

/// What linking a chain did.
#[derive(Clone, Copy, Debug)]
pub struct ChainResolutionResult {
    pub total_adopted: usize,
    pub maximum_depth: usize,
}

impl Default for ChainResolutionResult {
    fn default() -> (r: Self)
        ensures
            r.total_adopted == 0,
            r.maximum_depth == 0,
    {
        ChainResolutionResult { total_adopted: 0, maximum_depth: 0 }
    }
}

/// What a check of the recorded links found.
#[derive(Clone, Copy, Debug)]
pub struct ChainIntegrityReport {
    pub total_links: usize,
    pub invalid_depth_links: usize,
    pub orphaned_links: usize,
}

impl Default for ChainIntegrityReport {
    fn default() -> (r: Self)
        ensures
            r.total_links == 0,
            r.invalid_depth_links == 0,
            r.orphaned_links == 0,
    {
        ChainIntegrityReport { total_links: 0, invalid_depth_links: 0, orphaned_links: 0 }
    }
}

/// What a map from transaction hash to chain link holds.
pub uninterp spec fn chain_links(m: DashMap<Vec<u8>, OrphanChainLink>) -> Map<Seq<u8>, ChainLinkView>;

/// No links.
pub open spec fn no_chain_links() -> Map<Seq<u8>, ChainLinkView> {
    Map::empty()
}

/// Calls `DashMap::new`: an empty map.
#[verifier::external_body]
fn chain_new() -> (m: DashMap<Vec<u8>, OrphanChainLink>)
    ensures
        chain_links(m) == no_chain_links(),
{
    DashMap::new()
}

/// Calls `DashMap::insert`: the key now maps to the link; a map holds
/// finitely many keys.
#[verifier::external_body]
fn chain_insert(m: &mut DashMap<Vec<u8>, OrphanChainLink>, k: Vec<u8>, v: OrphanChainLink)
    ensures
        chain_links(*final(m)) == chain_links(*old(m)).insert(k@, v@),
        chain_links(*old(m)).dom().finite() ==> chain_links(*final(m)).dom().finite(),
{
    m.insert(k, v);
}

/// Calls `DashMap::get` and copies the link found, if any.
#[verifier::external_body]
fn chain_get(m: &DashMap<Vec<u8>, OrphanChainLink>, k: &[u8]) -> (r: Option<OrphanChainLink>)
    ensures
        match r {
            Some(l) => chain_links(*m).contains_key(k@) && l@ == chain_links(*m)[k@],
            None => !chain_links(*m).contains_key(k@),
        },
{
    m.get(k).map(|e| e.value().duplicate())
}

/// Copies the keys of a `DashMap` as its iterator hands them out: each key
/// once, in an order that the map's hashing decides.
#[verifier::external_body]
fn chain_keys(m: &DashMap<Vec<u8>, OrphanChainLink>) -> (r: Vec<Vec<u8>>)
    ensures
        key_views(r@).no_duplicates(),
        key_views(r@).to_set() == chain_links(*m).dom(),
{
    m.iter().map(|e| e.key().clone()).collect()
}

/// Calls `DashMap::clear`: the map is empty.
#[verifier::external_body]
fn chain_clear(m: &mut DashMap<Vec<u8>, OrphanChainLink>)
    ensures
        chain_links(*final(m)) == no_chain_links(),
{
    m.clear();
}


/// The outpoints of the `n` outputs of the transaction whose encoded hash
/// is `h`.
pub open spec fn outputs_of(h: Seq<u8>, n: nat) -> Seq<(Seq<u8>, u32)> {
    Seq::new(n, |i: int| (h, i as u32))
}

/// The outpoints of the outputs of each transaction in turn.
pub open spec fn outputs_of_all(txs: Seq<TransactionView>) -> Seq<(Seq<u8>, u32)>
    decreases txs.len(),
{
    if txs.len() == 0 {
        Seq::empty()
    } else {
        outputs_of_all(txs.drop_last()) + outputs_of(hash_key_spec(txs.last().id), txs.last().outputs.len())
    }
}

/// The link recorded for an orphan adopted at `depth` through `op`.
pub open spec fn link_for(tx: TransactionView, op: (Seq<u8>, u32), depth: usize) -> ChainLinkView {
    ChainLinkView { tx_hash: hash_key_spec(tx.id), immediate_parents: seq![op], immediate_children: Seq::empty(), depth }
}

/// The links after those of the orphans `txs`, adopted through `op`, are
/// recorded one after the other.
pub open spec fn links_for_all(cache: Map<Seq<u8>, ChainLinkView>, txs: Seq<TransactionView>, op: (Seq<u8>, u32), depth: usize) -> Map<Seq<u8>, ChainLinkView>
    decreases txs.len(),
{
    if txs.len() == 0 {
        cache
    } else {
        links_for_all(cache, txs.drop_last(), op, depth).insert(hash_key_spec(txs.last().id), link_for(txs.last(), op, depth))
    }
}

/// The members of `keys` whose link sits at depth `d`.
pub open spec fn links_at_depth(cache: Map<Seq<u8>, ChainLinkView>, keys: Set<Seq<u8>>, d: usize) -> Set<Seq<u8>> {
    Set::new(|k: Seq<u8>| keys.contains(k) && cache[k].depth == d)
}

/// Depths, as keys of an ordered map, compare as integers do.
proof fn lemma_depths_ordered()
    ensures
        vstd::laws_cmp::obeys_cmp::<usize>(),
{
    broadcast use vstd::laws_cmp::group_laws_cmp;
}

/// The first `i + 1` elements hold what the first `i` hold, and `s[i]`.
proof fn lemma_take_one_more_seq<A>(s: Seq<A>, i: int)
    requires
        0 <= i < s.len(),
    ensures
        forall|x: A| #[trigger] s.take(i + 1).contains(x) == (s.take(i).contains(x) || x == s[i]),
{
    assert forall|x: A| #[trigger] s.take(i + 1).contains(x) == (s.take(i).contains(x) || x == s[i]) by {
        if s.take(i).contains(x) {
            let j = s.take(i).index_of(x);
            assert(s.take(i + 1)[j] == x);
        }
        if x == s[i] {
            assert(s.take(i + 1)[i] == x);
        }
        if s.take(i + 1).contains(x) {
            let j = s.take(i + 1).index_of(x);
            if j < i {
                assert(s.take(i)[j] == x);
            }
        }
    }
}

/// Where linking a chain stands.
#[verifier::ext_equal]
pub struct LinkWork {
    pub orphans: OrphanState,
    pub cache: Map<Seq<u8>, ChainLinkView>,
    /// Outputs freed for the next level
    pub next: Seq<(Seq<u8>, u32)>,
    /// Adoption total, as counted
    pub total: usize,
    /// Levels handled
    pub levels: usize,
}

/// One output of a level: the orphans waiting for it are adopted, each gets
/// its link, and their outputs wait for the next level. The total grows by
/// one per adopted orphan.
pub open spec fn link_step(w: LinkWork, op: (Seq<u8>, u32), depth: usize) -> LinkWork {
    let adopted = txs_of(w.orphans.pool, adopted_for(w.orphans, op));
    LinkWork {
        orphans: after_adopt(w.orphans, op),
        cache: links_for_all(w.cache, adopted, op, (depth + 1) as usize),
        next: w.next + outputs_of_all(adopted),
        total: wrap_usize(w.total, adopted.len()),
        levels: w.levels,
    }
}

/// The outputs `ops` of one level, one after the other.
pub open spec fn link_level(w: LinkWork, ops: Seq<(Seq<u8>, u32)>, depth: usize) -> LinkWork
    decreases ops.len(),
{
    if ops.len() == 0 {
        w
    } else {
        link_step(link_level(w, ops.drop_last(), depth), ops.last(), depth)
    }
}

/// Level after level from `depth`, while outputs are left and `max` levels
/// are not reached.
pub open spec fn link_chain(w: LinkWork, ops: Seq<(Seq<u8>, u32)>, depth: usize, max: usize) -> LinkWork
    decreases max - depth,
{
    if depth < max && ops.len() > 0 {
        let w1 = link_level(LinkWork { next: Seq::empty(), ..w }, ops, depth);
        link_chain(LinkWork { levels: (depth + 1) as usize, next: Seq::empty(), ..w1 }, w1.next, (depth + 1) as usize, max)
    } else {
        w
    }
}

/// Appends the outpoints of the `n` outputs of the transaction whose encoded
/// hash is `h`.
fn push_outputs(out: &mut Vec<OutPoint>, h: &Vec<u8>, n: usize)
    ensures
        key_views(final(out)@) == key_views(old(out)@) + outputs_of(h@, n as nat),
{
    let ghost start = key_views(out@);
    let mut i: usize = 0;
    while i < n
        invariant
            i <= n,
            key_views(out@) == start + outputs_of(h@, i as nat),
        decreases n - i,
    {
        let ghost prev = key_views(out@);
        out.push(OutPoint { tx_hash: copy_bytes(h.as_slice()), index: i as u32 });
        proof {
            assert(key_views(out@) =~= prev.push((h@, i as u32)));
            assert(outputs_of(h@, (i + 1) as nat) =~= outputs_of(h@, i as nat).push((h@, i as u32)));
        }
        i = i + 1;
    }
}

/// Links whole orphan chains when a parent arrives, level by level.
pub struct RecursiveOrphanLinker {
    chain_cache: DashMap<Vec<u8>, OrphanChainLink>,
    max_chain_depth: usize,
    stats: LinkerStats,
}

impl RecursiveOrphanLinker {
    /// The links record no child: nothing here adds one.
    pub closed spec fn wf(&self) -> bool {
        &&& chain_links(self.chain_cache).dom().finite()
        &&& forall|k: Seq<u8>| #[trigger] chain_links(self.chain_cache).contains_key(k)
            ==> chain_links(self.chain_cache)[k].immediate_children.len() == 0
    }

    /// The recorded links by transaction hash.
    pub closed spec fn cache_view(&self) -> Map<Seq<u8>, ChainLinkView> {
        chain_links(self.chain_cache)
    }

    pub closed spec fn max_depth(&self) -> usize {
        self.max_chain_depth
    }

    pub closed spec fn stats_view(&self) -> LinkerStats {
        self.stats
    }

    pub fn new(max_chain_depth: usize) -> (l: Self)
        ensures
            l.wf(),
            l.cache_view() == no_chain_links(),
            l.max_depth() == max_chain_depth,
            l.stats_view() == (LinkerStats {
                total_links_created: 0,
                total_chains_resolved: 0,
                max_depth_reached: 0,
                total_adopted_via_linking: 0,
                circular_deps_detected: 0,
            }),
    {
        Self { chain_cache: chain_new(), max_chain_depth, stats: LinkerStats::default() }
    }

    /// Adopts, from `manager`, the orphans that `parent_tx` frees and then
    /// those that they free in turn, level by level, for at most the
    /// linker's depth; records a link for each adopted orphan.
    pub fn link_orphan_chain(&mut self, manager: &mut OrphanManager, parent_tx: &Transaction) -> (r: Result<ChainResolutionResult, String>)
        requires
            old(self).wf(),
            old(manager).wf(),
        ensures
            final(self).wf(),
            final(manager).wf(),
            final(manager).config_view() == old(manager).config_view(),
            final(self).max_depth() == old(self).max_depth(),
            final(manager).state() == link_chain(
                LinkWork { orphans: old(manager).state(), cache: old(self).cache_view(), next: Seq::empty(), total: 0, levels: 0 },
                outputs_of(hash_key_spec(parent_tx@.id), parent_tx@.outputs.len()), 0, old(self).max_depth()).orphans,
            final(self).cache_view() == link_chain(
                LinkWork { orphans: old(manager).state(), cache: old(self).cache_view(), next: Seq::empty(), total: 0, levels: 0 },
                outputs_of(hash_key_spec(parent_tx@.id), parent_tx@.outputs.len()), 0, old(self).max_depth()).cache,
            (r matches Ok(res) && res == (ChainResolutionResult {
                total_adopted: link_chain(
                    LinkWork { orphans: old(manager).state(), cache: old(self).cache_view(), next: Seq::empty(), total: 0, levels: 0 },
                    outputs_of(hash_key_spec(parent_tx@.id), parent_tx@.outputs.len()), 0, old(self).max_depth()).total,
                maximum_depth: link_chain(
                    LinkWork { orphans: old(manager).state(), cache: old(self).cache_view(), next: Seq::empty(), total: 0, levels: 0 },
                    outputs_of(hash_key_spec(parent_tx@.id), parent_tx@.outputs.len()), 0, old(self).max_depth()).levels,
            })
            && final(self).stats_view() == (LinkerStats {
                max_depth_reached: if res.maximum_depth > old(self).stats_view().max_depth_reached { res.maximum_depth } else { old(self).stats_view().max_depth_reached },
                total_adopted_via_linking: wrap_add(old(self).stats_view().total_adopted_via_linking, res.total_adopted as nat),
                total_chains_resolved: wrap_add(old(self).stats_view().total_chains_resolved, 1),
                ..old(self).stats_view()
            })),
    {
        let ghost target = link_chain(
            LinkWork { orphans: manager.state(), cache: self.cache_view(), next: Seq::empty(), total: 0, levels: 0 },
            outputs_of(hash_key_spec(parent_tx@.id), parent_tx@.outputs.len()), 0, self.max_chain_depth);
        let h = hash_key(&parent_tx.id);
        let mut current: Vec<OutPoint> = Vec::new();
        push_outputs(&mut current, &h, parent_tx.outputs.len());
        proof {
            assert(key_views(current@) =~= outputs_of(hash_key_spec(parent_tx@.id), parent_tx@.outputs.len()));
        }
        let mut total: usize = 0;
        let mut levels: usize = 0;
        let mut depth: usize = 0;
        while depth < self.max_chain_depth
            invariant_except_break
                self.wf(),
                manager.wf(),
                manager.config_view() == old(manager).config_view(),
                self.max_chain_depth == old(self).max_chain_depth,
                self.stats == old(self).stats,
                depth <= self.max_chain_depth,
                link_chain(
                    LinkWork { orphans: manager.state(), cache: self.cache_view(), next: Seq::empty(), total, levels },
                    key_views(current@), depth, self.max_chain_depth) == target,
            ensures
                self.wf(),
                manager.wf(),
                manager.config_view() == old(manager).config_view(),
                self.max_chain_depth == old(self).max_chain_depth,
                self.stats == old(self).stats,
                (LinkWork { orphans: manager.state(), cache: self.cache_view(), next: Seq::empty(), total, levels }) == target,
            decreases self.max_chain_depth - depth,
        {
            if current.len() == 0 {
                proof {
                    assert(key_views(current@).len() == 0);
                }
                break;
            }
            let ghost w0 = LinkWork { orphans: manager.state(), cache: self.cache_view(), next: Seq::<(Seq<u8>, u32)>::empty(), total, levels };
            let ghost cv = key_views(current@);
            let mut next: Vec<OutPoint> = Vec::new();
            let mut j: usize = 0;
            proof {
                assert(cv.take(0) =~= Seq::<(Seq<u8>, u32)>::empty());
                assert((LinkWork { orphans: manager.state(), cache: self.cache_view(), next: key_views(next@), total, levels }) =~= link_level(w0, cv.take(0), depth));
            }
            while j < current.len()
                invariant
                    self.wf(),
                    manager.wf(),
                    manager.config_view() == old(manager).config_view(),
                    self.max_chain_depth == old(self).max_chain_depth,
                    self.stats == old(self).stats,
                    depth < self.max_chain_depth,
                    cv == key_views(current@),
                    j <= current@.len(),
                    (LinkWork { orphans: manager.state(), cache: self.cache_view(), next: key_views(next@), total, levels })
                        == link_level(w0, cv.take(j as int), depth),
                decreases current@.len() - j,
            {
                let ghost op = cv[j as int];
                let ghost wj = link_level(w0, cv.take(j as int), depth);
                proof {
                    assert(cv.take(j + 1).drop_last() =~= cv.take(j as int));
                    assert(cv.take(j + 1).last() == op);
                    assert(current@[j as int]@ == op);
                }
                let res = manager.process_orphans_for_parent(&current[j]);
                match res {
                    Ok(step) => {
                        let count = step.adoption_count;
                        let ghost txs = tx_views(step.adopted_txs@);
                        let ghost c0 = self.cache_view();
                        let ghost n0 = key_views(next@);
                        let ghost t0 = total;
                        proof {
                            crate::orphan_manager::lemma_txs_of_len(wj.orphans.pool, adopted_for(wj.orphans, op));
                            assert(txs.len() == count);
                            assert(txs.take(0) =~= Seq::<TransactionView>::empty());
                            lemma_wrap_usize_zero(t0);
                        }
                        let mut a: usize = 0;
                        while a < step.adopted_txs.len()
                            invariant
                                self.wf(),
                                self.max_chain_depth == old(self).max_chain_depth,
                                self.stats == old(self).stats,
                                depth < self.max_chain_depth,
                                txs == tx_views(step.adopted_txs@),
                                count == txs.len(),
                                a <= step.adopted_txs@.len(),
                                current@[j as int]@ == op,
                                j < current@.len(),
                                total == wrap_usize(t0, a as nat),
                                self.cache_view() == links_for_all(c0, txs.take(a as int), op, (depth + 1) as usize),
                                key_views(next@) == n0 + outputs_of_all(txs.take(a as int)),
                            decreases step.adopted_txs@.len() - a,
                        {
                            proof {
                                lemma_wrap_usize_step(t0, a as nat, 1);
                                assert(txs.take(a + 1).drop_last() =~= txs.take(a as int));
                                assert(txs.take(a + 1).last() == step.adopted_txs@[a as int]@);
                            }
                            total = total.wrapping_add(1);
                            let adopted = &step.adopted_txs[a];
                            let ah = hash_key(&adopted.id);
                            let link = OrphanChainLink {
                                tx_hash: copy_bytes(ah.as_slice()),
                                immediate_parents: vec![current[j].key_clone()],
                                immediate_children: Vec::new(),
                                depth: depth + 1,
                            };
                            proof {
                                assert(link@ =~= link_for(adopted@, op, (depth + 1) as usize)) by {
                                    assert(key_views(link.immediate_parents@) =~= seq![op]);
                                    assert(key_views(link.immediate_children@) =~= Seq::<Seq<u8>>::empty());
                                }
                            }
                            let ghost before_next = key_views(next@);
                            chain_insert(&mut self.chain_cache, copy_bytes(ah.as_slice()), link);
                            push_outputs(&mut next, &ah, adopted.outputs.len());
                            a = a + 1;
                            proof {
                                assert(key_views(next@) =~= n0 + outputs_of_all(txs.take(a as int)));
                            }
                        }
                        proof {
                            assert(txs.take(step.adopted_txs@.len() as int) =~= txs);
                            assert(step.adopted_txs@.len() * count == count * count);
                            assert((LinkWork { orphans: manager.state(), cache: self.cache_view(), next: key_views(next@), total, levels })
                                =~~= link_level(w0, cv.take(j + 1), depth));
                        }
                    },
                    Err(_) => {},
                }
                j = j + 1;
            }
            proof {
                assert(cv.take(current@.len() as int) =~= cv);
                let w1 = link_level(w0, cv, depth);
                assert(link_chain(w0, cv, depth, self.max_chain_depth)
                    == link_chain(LinkWork { levels: (depth + 1) as usize, next: Seq::empty(), ..w1 }, w1.next, (depth + 1) as usize, self.max_chain_depth));
            }
            levels = depth + 1;
            current = next;
            depth = depth + 1;
            proof {
                assert((LinkWork { orphans: manager.state(), cache: self.cache_view(), next: Seq::empty(), total, levels })
                    =~~= LinkWork { next: Seq::empty(), levels: levels, ..link_level(w0, cv, (depth - 1) as usize) });
            }
        }
        let result = ChainResolutionResult { total_adopted: total, maximum_depth: levels };
        if levels > self.stats.max_depth_reached {
            self.stats.max_depth_reached = levels;
        }
        proof {
            lemma_wrap_add_once(self.stats.total_adopted_via_linking, total as u64);
            lemma_wrap_add_step(self.stats.total_chains_resolved, 0);
            lemma_wrap_add_zero(self.stats.total_chains_resolved);
        }
        self.stats.total_adopted_via_linking = self.stats.total_adopted_via_linking.wrapping_add(total as u64);
        self.stats.total_chains_resolved = self.stats.total_chains_resolved.wrapping_add(1);
        Ok(result)
    }

    /// Walks the child links from `current` depth first, recording the
    /// path, and reports whether it closes a cycle. The recorded links have
    /// no children, so the walk ends at once and finds none.
    fn dfs_detect_cycle(
        &self,
        current: &[u8],
        visited: &mut KeySet<Vec<u8>>,
        rec_stack: &mut KeySet<Vec<u8>>,
        path: &mut Vec<Vec<u8>>,
    ) -> (found: bool)
        requires
            self.wf(),
            old(visited).wf(),
            old(rec_stack).wf(),
        ensures
            !found,
            final(visited).wf(),
            final(rec_stack).wf(),
            final(visited)@ == old(visited)@.insert(current@),
            final(rec_stack)@ == old(rec_stack)@.insert(current@).remove(current@),
            key_views(final(path)@) == key_views(old(path)@),
        decreases 0nat,
    {
        visited.insert(copy_bytes(current));
        rec_stack.insert(copy_bytes(current));
        let ghost p0 = key_views(path@);
        path.push(copy_bytes(current));
        proof {
            assert(key_views(path@) =~= p0.push(current@));
        }
        match chain_get(&self.chain_cache, current) {
            Some(link) => {
                let mut i: usize = 0;
                while i < link.immediate_children.len()
                    invariant
                        link.immediate_children@.len() == 0,
                        self.wf(),
                        visited.wf(),
                        rec_stack.wf(),
                        visited@ == old(visited)@.insert(current@),
                        rec_stack@ == old(rec_stack)@.insert(current@),
                        key_views(path@) == p0.push(current@),
                    decreases link.immediate_children@.len() - i,
                {
                    let child = &link.immediate_children[i];
                    if !visited.contains(child) {
                        if self.dfs_detect_cycle(child.as_slice(), visited, rec_stack, path) {
                            return true;
                        }
                    } else if rec_stack.contains(child) {
                        return true;
                    }
                    i = i + 1;
                }
            },
            None => {},
        }
        rec_stack.remove(&copy_bytes(current));
        let ghost before_pop = path@;
        path.pop();
        proof {
            assert(path@ =~= before_pop.drop_last());
            assert(key_views(path@) =~= key_views(before_pop).drop_last());
            assert(key_views(path@) =~= p0);
        }
        false
    }

    /// Looks for cycles among the recorded links, depth first from each link
    /// not yet visited; returns the path of each cycle found. The recorded
    /// links have no children, so none is found.
    pub fn detect_circular_dependencies(&mut self) -> (r: Result<Vec<Vec<Vec<u8>>>, String>)
        requires
            old(self).wf(),
        ensures
            final(self).wf(),
            (r matches Ok(cycles) && cycles@.len() == 0),
            final(self).cache_view() == old(self).cache_view(),
            final(self).max_depth() == old(self).max_depth(),
            final(self).stats_view() == old(self).stats_view(),
    {
        let mut cycles: Vec<Vec<Vec<u8>>> = Vec::new();
        let mut visited: KeySet<Vec<u8>> = KeySet::new();
        let mut rec_stack: KeySet<Vec<u8>> = KeySet::new();
        let keys = chain_keys(&self.chain_cache);
        let mut i: usize = 0;
        while i < keys.len()
            invariant
                self.wf(),
                self.cache_view() == old(self).cache_view(),
                self.max_chain_depth == old(self).max_chain_depth,
                self.stats == old(self).stats,
                visited.wf(),
                rec_stack.wf(),
                cycles@.len() == 0,
            decreases keys@.len() - i,
        {
            if !visited.contains(&keys[i]) {
                let mut path: Vec<Vec<u8>> = Vec::new();
                if self.dfs_detect_cycle(keys[i].as_slice(), &mut visited, &mut rec_stack, &mut path) {
                    cycles.push(path);
                    self.stats.circular_deps_detected = self.stats.circular_deps_detected.wrapping_add(1);
                }
            }
            i = i + 1;
        }
        Ok(cycles)
    }

    /// Whether the output a link names as parent exists; the pools that
    /// would tell are not consulted, so it always does.
    fn verify_parent_exists(&self, _parent: &OutPoint) -> (r: Result<bool, String>)
        ensures
            r == Ok::<bool, String>(true),
    {
        Ok(true)
    }

    /// Counts the recorded links, those deeper than the linker's depth, and
    /// the parents found missing.
    pub fn verify_chain_integrity(&self) -> (r: Result<ChainIntegrityReport, String>)
        requires
            self.wf(),
        ensures
            (r matches Ok(rep) && rep == (ChainIntegrityReport {
                total_links: self.cache_view().len() as usize,
                invalid_depth_links: self.cache_view().dom().filter(|k: Seq<u8>| self.cache_view()[k].depth > self.max_depth()).len() as usize,
                orphaned_links: 0,
            })),
    {
        let ghost cache = self.cache_view();
        let ghost p = |k: Seq<u8>| cache[k].depth > self.max_chain_depth;
        let mut report = ChainIntegrityReport::default();
        let keys = chain_keys(&self.chain_cache);
        let ghost kv = key_views(keys@);
        let mut i: usize = 0;
        proof {
            assert(kv.take(0).to_set() =~= Set::<Seq<u8>>::empty());
            assert(kv.take(0).to_set().filter(p) =~= Set::<Seq<u8>>::empty());
        }
        while i < keys.len()
            invariant
                self.wf(),
                cache == self.cache_view(),
                p == (|k: Seq<u8>| cache[k].depth > self.max_chain_depth),
                kv == key_views(keys@),
                kv.no_duplicates(),
                kv.to_set() == cache.dom(),
                i <= keys@.len(),
                report.total_links == i,
                report.invalid_depth_links == kv.take(i as int).to_set().filter(p).len(),
                report.invalid_depth_links <= i,
                report.orphaned_links == 0,
            decreases keys@.len() - i,
        {
            let ghost before = kv.take(i as int).to_set().filter(p);
            let ghost y = kv[i as int];
            proof {
                assert(kv.take(i + 1) =~= kv.take(i as int).push(y));
                kv.take(i as int).lemma_push_to_set_commute(y);
                assert(!kv.take(i as int).contains(y)) by {
                    if kv.take(i as int).contains(y) {
                        let j = kv.take(i as int).index_of(y);
                        assert(kv[j] == y);
                    }
                }
                vstd::seq_lib::seq_to_set_is_finite(kv.take(i as int));
                assert(kv.to_set().contains(y));
            }
            report.total_links = report.total_links + 1;
            match chain_get(&self.chain_cache, keys[i].as_slice()) {
                Some(link) => {
                    if link.depth > self.max_chain_depth {
                        report.invalid_depth_links = report.invalid_depth_links + 1;
                        proof {
                            assert(kv.take(i + 1).to_set().filter(p) =~= before.insert(y));
                        }
                    } else {
                        proof {
                            assert(kv.take(i + 1).to_set().filter(p) =~= before);
                        }
                    }
                    let ghost rt = report.total_links;
                    let ghost ri = report.invalid_depth_links;
                    let mut j: usize = 0;
                    while j < link.immediate_parents.len()
                        invariant
                            report.orphaned_links == 0,
                            report.total_links == rt,
                            report.invalid_depth_links == ri,
                        decreases link.immediate_parents@.len() - j,
                    {
                        let exists = self.verify_parent_exists(&link.immediate_parents[j]);
                        match exists {
                            Ok(true) => {},
                            Ok(false) => {
                                report.orphaned_links = report.orphaned_links + 1;
                            },
                            Err(e) => {
                                return Err(e);
                            },
                        }
                        j = j + 1;
                    }
                },
                None => {},
            }
            i = i + 1;
        }
        proof {
            assert(kv.take(keys@.len() as int) =~= kv);
            kv.unique_seq_to_set();
            assert(cache.dom().filter(p) =~= cache.dom().filter(|k: Seq<u8>| self.cache_view()[k].depth > self.max_depth()));
        }
        Ok(report)
    }

    /// How many recorded links sit at each depth.
    pub fn get_chain_topology(&self) -> (t: BTreeMap<usize, usize>)
        requires
            self.wf(),
        ensures
            forall|d: usize| #[trigger] t@.contains_key(d) <==> exists|k: Seq<u8>| #[trigger] self.cache_view().contains_key(k) && self.cache_view()[k].depth == d,
            forall|d: usize| #[trigger] t@.contains_key(d) ==> t@[d] == links_at_depth(self.cache_view(), self.cache_view().dom(), d).len(),
    {
        proof {
            lemma_depths_ordered();
        }
        let ghost cache = self.cache_view();
        let mut topology: BTreeMap<usize, usize> = BTreeMap::new();
        let keys = chain_keys(&self.chain_cache);
        let ghost kv = key_views(keys@);
        let mut i: usize = 0;
        while i < keys.len()
            invariant
                cache == self.cache_view(),
                kv == key_views(keys@),
                kv.no_duplicates(),
                kv.to_set() == cache.dom(),
                i <= keys@.len(),
                forall|d: usize| #[trigger] topology@.contains_key(d) <==> exists|k: Seq<u8>| #[trigger] kv.take(i as int).contains(k) && cache[k].depth == d,
                forall|d: usize| #[trigger] topology@.contains_key(d) ==> topology@[d] == links_at_depth(cache, kv.take(i as int).to_set(), d).len()
                    && topology@[d] <= i,
            decreases keys@.len() - i,
        {
            let ghost y = kv[i as int];
            proof {
                lemma_take_one_more_seq(kv, i as int);
                assert(kv.take(i + 1) =~= kv.take(i as int).push(y));
                kv.take(i as int).lemma_push_to_set_commute(y);
                assert(!kv.take(i as int).contains(y)) by {
                    if kv.take(i as int).contains(y) {
                        let j = kv.take(i as int).index_of(y);
                        assert(kv[j] == y);
                    }
                }
                vstd::seq_lib::seq_to_set_is_finite(kv.take(i as int));
                assert(kv.to_set().contains(y));
            }
            match chain_get(&self.chain_cache, keys[i].as_slice()) {
                Some(link) => {
                    let d = link.depth;
                    let ghost t0 = topology@;
                    let prev: usize = match topology.get(&d) {
                        Some(c) => *c,
                        None => 0,
                    };
                    proof {
                        if !t0.contains_key(d) {
                            assert(links_at_depth(cache, kv.take(i as int).to_set(), d) =~= Set::<Seq<u8>>::empty()) by {
                                assert forall|x: Seq<u8>| !#[trigger] links_at_depth(cache, kv.take(i as int).to_set(), d).contains(x) by {
                                    if kv.take(i as int).contains(x) && cache[x].depth == d {
                                        assert(t0.contains_key(d));
                                    }
                                }
                            }
                        }
                        assert(links_at_depth(cache, kv.take(i + 1).to_set(), d)
                            =~= links_at_depth(cache, kv.take(i as int).to_set(), d).insert(y));
                    }
                    proof {
                        vstd::set_lib::lemma_set_subset_finite(kv.take(i as int).to_set(), links_at_depth(cache, kv.take(i as int).to_set(), d));
                        if t0.contains_key(d) {
                            assert(prev == links_at_depth(cache, kv.take(i as int).to_set(), d).len());
                        }
                        vstd::set_lib::lemma_len_subset(links_at_depth(cache, kv.take(i + 1).to_set(), d), kv.take(i + 1).to_set());
                        kv.take(i + 1).unique_seq_to_set();
                    }
                    topology.insert(d, prev + 1);
                    proof {
                        assert forall|e: usize| #[trigger] topology@.contains_key(e) && e != d implies
                            topology@[e] == links_at_depth(cache, kv.take(i + 1).to_set(), e).len() by {
                            assert(links_at_depth(cache, kv.take(i + 1).to_set(), e)
                                =~= links_at_depth(cache, kv.take(i as int).to_set(), e));
                        }
                        assert forall|e: usize| #[trigger] topology@.contains_key(e) <==> exists|k: Seq<u8>| #[trigger] kv.take(i + 1).contains(k) && cache[k].depth == e by {
                            if topology@.contains_key(e) && e != d {
                                let k = choose|k: Seq<u8>| #[trigger] kv.take(i as int).contains(k) && cache[k].depth == e;
                                assert(kv.take(i + 1).contains(k));
                            }
                            if e == d {
                                assert(kv.take(i + 1).contains(y));
                            }
                        }
                    }
                },
                None => {},
            }
            i = i + 1;
        }
        proof {
            assert(kv.take(keys@.len() as int) =~= kv);
            assert forall|d: usize| #[trigger] topology@.contains_key(d) <==> exists|k: Seq<u8>| #[trigger] self.cache_view().contains_key(k) && self.cache_view()[k].depth == d by {
                if topology@.contains_key(d) {
                    let k = choose|k: Seq<u8>| #[trigger] kv.contains(k) && cache[k].depth == d;
                    assert(kv.to_set().contains(k));
                }
                if exists|k: Seq<u8>| #[trigger] self.cache_view().contains_key(k) && self.cache_view()[k].depth == d {
                    let k = choose|k: Seq<u8>| #[trigger] self.cache_view().contains_key(k) && self.cache_view()[k].depth == d;
                    assert(kv.to_set().contains(k));
                    assert(kv.contains(k));
                }
            }
            assert forall|d: usize| #[trigger] topology@.contains_key(d) implies topology@[d] == links_at_depth(self.cache_view(), self.cache_view().dom(), d).len() by {
                assert(links_at_depth(cache, kv.to_set(), d) =~= links_at_depth(self.cache_view(), self.cache_view().dom(), d));
            }
        }
        topology
    }

    /// The counters.
    pub fn get_stats(&self) -> (s: LinkerStats)
        ensures
            s == self.stats_view(),
    {
        self.stats
    }

    /// Drops every recorded link.
    pub fn clear_cache(&mut self)
        requires
            old(self).wf(),
        ensures
            final(self).wf(),
            final(self).cache_view() == no_chain_links(),
            final(self).max_depth() == old(self).max_depth(),
            final(self).stats_view() == old(self).stats_view(),
    {
        chain_clear(&mut self.chain_cache);
    }
}

} // verus!
