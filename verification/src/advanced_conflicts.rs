//! Double-spend detection across all inputs of a transaction and
//! deterministic resolution of a conflict between two transactions.

use vstd::prelude::*;
use crate::bytes::{bytes_eq, bytes_lt, copy_bytes, seq_lt, lemma_seq_lt_total};
use crate::external::clock_unix_secs;
use crate::keyed::{KeyMap, KeySet, KeyOps, key_views};
use crate::transaction::{Transaction, hash_key, hash_key_spec};

verus! {

/// An output that several transactions may claim.
#[derive(Clone, Debug, Hash, PartialEq, Eq)]
pub struct OutPoint {
    pub tx_id: Vec<u8>,
    pub index: u32,
}

impl View for OutPoint {
    type V = (Seq<u8>, u32);

    open spec fn view(&self) -> (Seq<u8>, u32) {
        (self.tx_id@, self.index)
    }
}

impl KeyOps for OutPoint {
    fn key_eq(&self, other: &Self) -> (b: bool) {
        self.index == other.index && bytes_eq(self.tx_id.as_slice(), other.tx_id.as_slice())
    }

    fn key_clone(&self) -> (c: Self) {
        OutPoint { tx_id: copy_bytes(self.tx_id.as_slice()), index: self.index }
    }
}

impl OutPoint {
    pub fn new(tx_id: Vec<u8>, index: u32) -> (o: Self)
        ensures
            o.tx_id == tx_id,
            o.index == index,
    {
        Self { tx_id, index }
    }
}

/// Transaction hash used in conflict tracking.
#[derive(Clone, Debug, Hash, PartialEq, Eq, PartialOrd, Ord)]
pub struct TxHash(pub Vec<u8>);

impl View for TxHash {
    type V = Seq<u8>;

    open spec fn view(&self) -> Seq<u8> {
        self.0@
    }
}

impl KeyOps for TxHash {
    fn key_eq(&self, other: &Self) -> (b: bool) {
        bytes_eq(self.0.as_slice(), other.0.as_slice())
    }

    fn key_clone(&self) -> (c: Self) {
        TxHash(copy_bytes(self.0.as_slice()))
    }
}

impl TxHash {
    pub fn new(hash: Vec<u8>) -> (h: Self)
        ensures
            h.0 == hash,
    {
        Self(hash)
    }

    pub fn as_bytes(&self) -> (b: &[u8])
        ensures
            b@ == self.0@,
    {
        self.0.as_slice()
    }
}

/// Result of double-spend detection.
#[derive(Clone, Debug, PartialEq, Eq)]
pub enum ConflictType {
    /// Two transactions claim the same output
    DirectConflict { tx_a: TxHash, tx_b: TxHash, outpoint: OutPoint },
    /// Conflict through a chain of dependencies
    IndirectConflict { original: TxHash, affected: Vec<TxHash> },
    /// No conflict
    NoConflict,
}

/// Resolution of a conflict between two transactions.
#[derive(Clone, Debug)]
pub struct ResolutionResult {
    /// Transaction to keep
    pub winner: TxHash,
    /// Transaction to evict
    pub loser: TxHash,
    /// Rule that decided
    pub reason: ResolutionReason,
    /// Transactions affected through dependencies
    pub affected: Vec<TxHash>,
}

/// Rule that decided a conflict.
#[derive(Clone, Copy, Debug, PartialEq, Eq)]
pub enum ResolutionReason {
    HigherFeeRate,
    EarlierArrival,
    LexicographicalHash,
}

/// Counters of conflict operations.
#[derive(Clone, Copy, Debug)]
pub struct ConflictStats {
    pub total_conflicts_detected: u64,
    pub total_resolutions: u64,
    pub total_evictions: u64,
    pub direct_conflicts: u64,
    pub indirect_conflicts: u64,
}

impl Default for ConflictStats {
    fn default() -> (s: Self)
        ensures
            s.total_conflicts_detected == 0,
            s.total_resolutions == 0,
            s.total_evictions == 0,
            s.direct_conflicts == 0,
            s.indirect_conflicts == 0,
    {
        ConflictStats { total_conflicts_detected: 0, total_resolutions: 0, total_evictions: 0, direct_conflicts: 0, indirect_conflicts: 0 }
    }
}

/// Fee rate of `fee` over `size` as a fraction, zero when the size is zero.
pub open spec fn rate_frac(fee: u64, size: usize) -> (int, int) {
    if size > 0 {
        (fee as int, size as int)
    } else {
        (0, 1)
    }
}

/// The fee rates differ by more than one hundredth of a unit per byte.
pub open spec fn rates_differ(fa: u64, sa: usize, fb: u64, sb: usize) -> bool {
    let (na, da) = rate_frac(fa, sa);
    let (nb, db) = rate_frac(fb, sb);
    let diff = if na * db >= nb * da { na * db - nb * da } else { nb * da - na * db };
    100 * diff > da * db
}

/// The first fee rate is the higher.
pub open spec fn rate_higher(fa: u64, sa: usize, fb: u64, sb: usize) -> bool {
    let (na, da) = rate_frac(fa, sa);
    let (nb, db) = rate_frac(fb, sb);
    na * db > nb * da
}

/// Winner and rule of a conflict: higher fee rate, then earlier arrival,
/// then the lexicographically smaller hash.
pub open spec fn resolve_spec(
    ha: Seq<u8>, hb: Seq<u8>, sa: usize, sb: usize, fa: u64, fb: u64, ta: u64, tb: u64,
) -> (Seq<u8>, ResolutionReason) {
    if rates_differ(fa, sa, fb, sb) {
        if rate_higher(fa, sa, fb, sb) { (ha, ResolutionReason::HigherFeeRate) } else { (hb, ResolutionReason::HigherFeeRate) }
    } else if ta != tb {
        if ta < tb { (ha, ResolutionReason::EarlierArrival) } else { (hb, ResolutionReason::EarlierArrival) }
    } else {
        if seq_lt(ha, hb) { (ha, ResolutionReason::LexicographicalHash) } else { (hb, ResolutionReason::LexicographicalHash) }
    }
}

/// Resolution does not depend on the order in which the two transactions are
/// given: both orders pick the same winner by the same rule.
pub proof fn lemma_resolution_symmetric(
    ha: Seq<u8>, hb: Seq<u8>, sa: usize, sb: usize, fa: u64, fb: u64, ta: u64, tb: u64,
)
    requires
        ha != hb,
    ensures
        resolve_spec(ha, hb, sa, sb, fa, fb, ta, tb) == resolve_spec(hb, ha, sb, sa, fb, fa, tb, ta),
        resolve_spec(ha, hb, sa, sb, fa, fb, ta, tb).0 == ha || resolve_spec(ha, hb, sa, sb, fa, fb, ta, tb).0 == hb,
{
    lemma_seq_lt_total(ha, hb);
    let (na, da) = rate_frac(fa, sa);
    let (nb, db) = rate_frac(fb, sb);
    assert(na * db == db * na) by (nonlinear_arith);
    assert(nb * da == da * nb) by (nonlinear_arith);
    assert(da * db == db * da) by (nonlinear_arith);
    if rates_differ(fa, sa, fb, sb) {
        assert(na * db != nb * da);
    }
}

/// Output `i` of the conflict map's numbering for `tx`: the spent
/// transaction and the input's position.
pub open spec fn input_outpoint(tx: Transaction, i: int) -> (Seq<u8>, u32) {
    (hash_key_spec(tx.inputs@[i].prev_tx), i as u32)
}

/// Claims of `op` in a claim table, empty when absent.
pub open spec fn claims_at(m: Map<(Seq<u8>, u32), KeySet<TxHash>>, op: (Seq<u8>, u32)) -> Set<Seq<u8>> {
    if m.contains_key(op) { m[op]@ } else { Set::empty() }
}

/// Input `i` of `tx` spends an output that another transaction claims.
pub open spec fn input_conflicts(m: Map<(Seq<u8>, u32), KeySet<TxHash>>, tx: Transaction, i: int) -> bool {
    claims_at(m, input_outpoint(tx, i)).len() > 0
}

/// Multi-input claim tracking with deterministic conflict resolution.
pub struct ConflictMap {
    /// Output -> transactions claiming it
    conflicts: KeyMap<OutPoint, KeySet<TxHash>>,
    /// Arrival time of each transaction (seconds)
    arrival_times: KeyMap<TxHash, u64>,
    stats: ConflictStats,
}

impl ConflictMap {
    pub closed spec fn claims(&self) -> Map<(Seq<u8>, u32), KeySet<TxHash>> {
        self.conflicts@
    }

    pub closed spec fn arrivals(&self) -> Map<Seq<u8>, u64> {
        self.arrival_times@
    }

    pub closed spec fn stats_view(&self) -> ConflictStats {
        self.stats
    }

    /// Claims of `op`.
    pub open spec fn claimants(&self, op: (Seq<u8>, u32)) -> Set<Seq<u8>> {
        claims_at(self.claims(), op)
    }

    pub closed spec fn wf(&self) -> bool {
        &&& self.conflicts.wf()
        &&& self.arrival_times.wf()
        &&& forall|op: (Seq<u8>, u32)| #[trigger] self.conflicts@.contains_key(op) ==> self.conflicts@[op].wf()
    }

    pub fn new() -> (m: Self)
        ensures
            m.wf(),
            m.claims() == Map::<(Seq<u8>, u32), KeySet<TxHash>>::empty(),
            m.arrivals() == Map::<Seq<u8>, u64>::empty(),
    {
        ConflictMap { conflicts: KeyMap::new(), arrival_times: KeyMap::new(), stats: ConflictStats::default() }
    }
}


/// `op` is the output spent by one of the first `n` inputs of `tx`.
pub open spec fn spent_by_prefix(tx: Transaction, n: int, op: (Seq<u8>, u32)) -> bool {
    exists|j: int| 0 <= j < n && #[trigger] input_outpoint(tx, j) == op
}

/// Claims after the first `n` inputs of `tx` were claimed by `h`.
pub open spec fn claims_after(
    old_claims: Map<(Seq<u8>, u32), KeySet<TxHash>>,
    tx: Transaction,
    n: int,
    h: Seq<u8>,
    op: (Seq<u8>, u32),
) -> Set<Seq<u8>> {
    if spent_by_prefix(tx, n, op) {
        claims_at(old_claims, op).insert(h)
    } else {
        claims_at(old_claims, op)
    }
}

impl ConflictMap {
    /// Adds `tx_hash` to the claims of `op`.
    fn add_claim(&mut self, op: OutPoint, tx_hash: &TxHash)
        requires
            old(self).wf(),
        ensures
            final(self).wf(),
            forall|o: (Seq<u8>, u32)| #[trigger] final(self).claimants(o) == (if o == op@ {
                old(self).claimants(o).insert(tx_hash@)
            } else {
                old(self).claimants(o)
            }),
            final(self).arrivals() == old(self).arrivals(),
            final(self).stats_view() == old(self).stats_view(),
    {
        let ghost opv = op@;
        let existing = self.conflicts.remove(&op);
        let mut set: KeySet<TxHash> = match existing {
            Some(s) => s,
            None => KeySet::new(),
        };
        proof {
            assert(set.wf());
        }
        set.insert(tx_hash.key_clone());
        self.conflicts.insert(op, set);
        proof {
            assert forall|o: (Seq<u8>, u32)| #[trigger] self.conflicts@.contains_key(o) implies self.conflicts@[o].wf() by {
                if o != opv {
                    assert(old(self).conflicts@.contains_key(o));
                }
            }
        }
    }

    /// Records the arrival of `tx` at the clock's present second and claims
    /// the output of each of its inputs, as `register_transaction_at` does.
    pub fn register_transaction(&mut self, tx: &Transaction, tx_hash: &TxHash) -> (r: Result<ConflictType, String>)
        requires
            old(self).wf(),
            tx.inputs@.len() <= u32::MAX,
        ensures
            final(self).wf(),
            r is Ok,
            final(self).arrivals().dom() == old(self).arrivals().dom().insert(tx_hash@),
            forall|k: Seq<u8>| k != tx_hash@ && #[trigger] old(self).arrivals().contains_key(k)
                ==> final(self).arrivals()[k] == old(self).arrivals()[k],
            match r->Ok_0 {
                ConflictType::DirectConflict { tx_a, tx_b, outpoint } => {
                    let i = outpoint.index as int;
                    &&& 0 <= i < tx.inputs@.len()
                    &&& outpoint@ == input_outpoint(*tx, i)
                    &&& input_conflicts(old(self).claims(), *tx, i)
                    &&& forall|j: int| 0 <= j < i ==> !#[trigger] input_conflicts(old(self).claims(), *tx, j)
                    &&& old(self).claimants(outpoint@).contains(tx_a@)
                    &&& tx_b@ == tx_hash@
                    &&& forall|op: (Seq<u8>, u32)| #[trigger] final(self).claimants(op) == claims_after(old(self).claims(), *tx, i + 1, tx_hash@, op)
                    &&& final(self).stats_view().direct_conflicts == old(self).stats_view().direct_conflicts.wrapping_add(1)
                    &&& final(self).stats_view().total_conflicts_detected == old(self).stats_view().total_conflicts_detected.wrapping_add(1)
                },
                ConflictType::NoConflict => {
                    &&& forall|j: int| 0 <= j < tx.inputs@.len() ==> !#[trigger] input_conflicts(old(self).claims(), *tx, j)
                    &&& forall|op: (Seq<u8>, u32)| #[trigger] final(self).claimants(op)
                        == claims_after(old(self).claims(), *tx, tx.inputs@.len() as int, tx_hash@, op)
                    &&& final(self).stats_view() == old(self).stats_view()
                },
                ConflictType::IndirectConflict { .. } => false,
            },
    {
        let now = clock_unix_secs();
        self.register_transaction_at(tx, tx_hash, now)
    }

    /// Records the arrival of `tx` at second `now` and claims the output of
    /// each of its inputs. At the first input whose output is already
    /// claimed, records the claim there too, stops and reports a direct
    /// conflict with one of the earlier claimants; the claims of the earlier
    /// inputs stay recorded.
    pub fn register_transaction_at(&mut self, tx: &Transaction, tx_hash: &TxHash, now: u64) -> (r: Result<ConflictType, String>)
        requires
            old(self).wf(),
            tx.inputs@.len() <= u32::MAX,
        ensures
            final(self).wf(),
            r is Ok,
            final(self).arrivals() == old(self).arrivals().insert(tx_hash@, now),
            match r->Ok_0 {
                ConflictType::DirectConflict { tx_a, tx_b, outpoint } => {
                    let i = outpoint.index as int;
                    &&& 0 <= i < tx.inputs@.len()
                    &&& outpoint@ == input_outpoint(*tx, i)
                    &&& input_conflicts(old(self).claims(), *tx, i)
                    &&& forall|j: int| 0 <= j < i ==> !#[trigger] input_conflicts(old(self).claims(), *tx, j)
                    &&& old(self).claimants(outpoint@).contains(tx_a@)
                    &&& tx_b@ == tx_hash@
                    &&& forall|op: (Seq<u8>, u32)| #[trigger] final(self).claimants(op) == claims_after(old(self).claims(), *tx, i + 1, tx_hash@, op)
                    &&& final(self).stats_view().direct_conflicts == old(self).stats_view().direct_conflicts.wrapping_add(1)
                    &&& final(self).stats_view().total_conflicts_detected == old(self).stats_view().total_conflicts_detected.wrapping_add(1)
                },
                ConflictType::NoConflict => {
                    &&& forall|j: int| 0 <= j < tx.inputs@.len() ==> !#[trigger] input_conflicts(old(self).claims(), *tx, j)
                    &&& forall|op: (Seq<u8>, u32)| #[trigger] final(self).claimants(op)
                        == claims_after(old(self).claims(), *tx, tx.inputs@.len() as int, tx_hash@, op)
                    &&& final(self).stats_view() == old(self).stats_view()
                },
                ConflictType::IndirectConflict { .. } => false,
            },
    {
        let ghost c0 = self.claims();
        self.arrival_times.insert(tx_hash.key_clone(), now);
        let n = tx.inputs.len();
        let mut i: usize = 0;
        while i < n
            invariant
                self.wf(),
                n == tx.inputs@.len(),
                n <= u32::MAX,
                i <= n,
                c0 == old(self).claims(),
                self.stats_view() == old(self).stats_view(),
                self.arrivals() == old(self).arrivals().insert(tx_hash@, now),
                forall|j: int| 0 <= j < i ==> !#[trigger] input_conflicts(c0, *tx, j),
                forall|op: (Seq<u8>, u32)| #[trigger] self.claimants(op) == claims_after(c0, *tx, i as int, tx_hash@, op),
            decreases n - i,
        {
            let op = OutPoint { tx_id: hash_key(&tx.inputs[i].prev_tx), index: i as u32 };
            let ghost opv = op@;
            proof {
                assert(opv == input_outpoint(*tx, i as int));
                assert(!spent_by_prefix(*tx, i as int, opv)) by {
                    if spent_by_prefix(*tx, i as int, opv) {
                        let j = choose|j: int| 0 <= j < i && #[trigger] input_outpoint(*tx, j) == opv;
                        assert((j as u32) == (i as u32));
                    }
                }
                assert(self.claimants(opv) == claims_at(c0, opv));
            }
            let mut found: Option<TxHash> = None;
            match self.conflicts.get(&op) {
                Some(set) => {
                    if !set.is_empty() {
                        proof {
                            set.lemma_view();
                            assert(set@.contains(set.elem_seq()[0]));
                            assert(set@.len() > 0);
                        }
                        found = Some(set.elem_at(0).key_clone());
                    }
                },
                None => {},
            }
            proof {
                assert(found is Some <==> input_conflicts(c0, *tx, i as int));
                assert(found matches Some(a) ==> c0.contains_key(opv) && c0[opv]@.contains(a@));
            }
            let ghost self_before = *self;
            let op_out = OutPoint { tx_id: copy_bytes(op.tx_id.as_slice()), index: op.index };
            self.add_claim(op, tx_hash);
            i = i + 1;
            proof {
                assert forall|op2: (Seq<u8>, u32)| #[trigger] self.claimants(op2) == claims_after(c0, *tx, i as int, tx_hash@, op2) by {
                    assert(self_before.claimants(op2) == claims_after(c0, *tx, i - 1, tx_hash@, op2));
                    if op2 == opv {
                        assert(spent_by_prefix(*tx, i as int, op2)) by {
                            assert(input_outpoint(*tx, i - 1) == op2);
                        }
                    } else {
                        assert(spent_by_prefix(*tx, i as int, op2) == spent_by_prefix(*tx, i - 1, op2)) by {
                            if spent_by_prefix(*tx, i as int, op2) {
                                let j = choose|j: int| 0 <= j < i && #[trigger] input_outpoint(*tx, j) == op2;
                                assert(j != i - 1);
                            }
                        }
                    }
                }
            }
            match found {
                Some(tx_a) => {
                    let ghost s_mid = *self;
                    self.stats.direct_conflicts = self.stats.direct_conflicts.wrapping_add(1);
                    self.stats.total_conflicts_detected = self.stats.total_conflicts_detected.wrapping_add(1);
                    let tx_b = tx_hash.key_clone();
                    proof {
                        assert(op_out.index as int == i - 1);
                        assert(op_out@ == opv);
                        assert(opv == input_outpoint(*tx, i - 1));
                        assert(input_conflicts(old(self).claims(), *tx, i - 1));
                        assert(forall|j: int| 0 <= j < i - 1 ==> !#[trigger] input_conflicts(old(self).claims(), *tx, j));
                        assert(old(self).claimants(opv).contains(tx_a@));
                        assert(tx_b@ == tx_hash@);
                        assert forall|op2: (Seq<u8>, u32)| #[trigger] self.claimants(op2) == claims_after(old(self).claims(), *tx, i as int, tx_hash@, op2) by {
                            assert(s_mid.claimants(op2) == self.claimants(op2));
                        }
                    }
                    return Ok(ConflictType::DirectConflict { tx_a, tx_b, outpoint: op_out });
                },
                None => {},
            }
        }
        Ok(ConflictType::NoConflict)
    }
}

/// Whether the first transaction wins, and by which rule.
pub open spec fn resolve_side(
    ha: Seq<u8>, hb: Seq<u8>, sa: usize, sb: usize, fa: u64, fb: u64, ta: u64, tb: u64,
) -> (bool, ResolutionReason) {
    if rates_differ(fa, sa, fb, sb) {
        (rate_higher(fa, sa, fb, sb), ResolutionReason::HigherFeeRate)
    } else if ta != tb {
        (ta < tb, ResolutionReason::EarlierArrival)
    } else {
        (seq_lt(ha, hb), ResolutionReason::LexicographicalHash)
    }
}

proof fn lemma_div100(diff: int, p: int)
    requires
        diff >= 0,
        p >= 0,
    ensures
        (diff > p / 100) == (100 * diff > p),
{
    let q = p / 100;
    let r = p % 100;
    assert(p == 100 * q + r && 0 <= r < 100);
    if diff > q {
        assert(100 * diff >= 100 * q + 100) by (nonlinear_arith)
            requires
                diff > q,
        ;
    } else {
        assert(100 * diff <= 100 * q) by (nonlinear_arith)
            requires
                diff <= q,
        ;
    }
}

impl ConflictMap {
    /// Arrival time recorded for `h`, or the largest time if none is.
    pub open spec fn arrival_of(&self, h: Seq<u8>) -> u64 {
        if self.arrivals().contains_key(h) { self.arrivals()[h] } else { u64::MAX }
    }

    /// Decides between two conflicting transactions: the higher fee rate
    /// wins when the rates differ by more than 0.01 per byte, otherwise the
    /// earlier arrival, otherwise the lexicographically smaller hash.
    pub fn resolve_conflict(
        &mut self,
        _tx_a: &Transaction,
        _tx_b: &Transaction,
        tx_a_hash: &TxHash,
        tx_b_hash: &TxHash,
        tx_a_size: usize,
        tx_b_size: usize,
        tx_a_fee: u64,
        tx_b_fee: u64,
    ) -> (r: Result<ResolutionResult, String>)
        requires
            old(self).wf(),
        ensures
            final(self).wf(),
            r is Ok,
            ({
                let (a_wins, reason) = resolve_side(tx_a_hash@, tx_b_hash@, tx_a_size, tx_b_size, tx_a_fee, tx_b_fee,
                    old(self).arrival_of(tx_a_hash@), old(self).arrival_of(tx_b_hash@));
                &&& r->Ok_0.reason == reason
                &&& r->Ok_0.winner@ == (if a_wins { tx_a_hash@ } else { tx_b_hash@ })
                &&& r->Ok_0.loser@ == (if a_wins { tx_b_hash@ } else { tx_a_hash@ })
            }),
            r->Ok_0.affected@.len() == 0,
            final(self).claims() == old(self).claims(),
            final(self).arrivals() == old(self).arrivals(),
            final(self).stats_view().total_resolutions == old(self).stats_view().total_resolutions.wrapping_add(1),
            final(self).stats_view().total_evictions == old(self).stats_view().total_evictions.wrapping_add(1),
    {
        let time_a: u64 = match self.arrival_times.get(tx_a_hash) {
            Some(t) => *t,
            None => u64::MAX,
        };
        let time_b: u64 = match self.arrival_times.get(tx_b_hash) {
            Some(t) => *t,
            None => u64::MAX,
        };
        let (na, da): (u128, u128) = if tx_a_size > 0 { (tx_a_fee as u128, tx_a_size as u128) } else { (0, 1) };
        let (nb, db): (u128, u128) = if tx_b_size > 0 { (tx_b_fee as u128, tx_b_size as u128) } else { (0, 1) };
        proof {
            assert(na * db <= u64::MAX * u64::MAX) by (nonlinear_arith)
                requires na <= u64::MAX, db <= u64::MAX;
            assert(nb * da <= u64::MAX * u64::MAX) by (nonlinear_arith)
                requires nb <= u64::MAX, da <= u64::MAX;
            assert(da * db <= u64::MAX * u64::MAX) by (nonlinear_arith)
                requires da <= u64::MAX, db <= u64::MAX;
        }
        let cross_a = na * db;
        let cross_b = nb * da;
        let diff = if cross_a >= cross_b { cross_a - cross_b } else { cross_b - cross_a };
        let prod = da * db;
        proof {
            lemma_div100(diff as int, prod as int);
        }
        let a_wins: bool;
        let reason: ResolutionReason;
        if diff > prod / 100 {
            a_wins = cross_a > cross_b;
            reason = ResolutionReason::HigherFeeRate;
        } else if time_a != time_b {
            a_wins = time_a < time_b;
            reason = ResolutionReason::EarlierArrival;
        } else {
            a_wins = bytes_lt(tx_a_hash.as_bytes(), tx_b_hash.as_bytes());
            reason = ResolutionReason::LexicographicalHash;
        }
        let (winner, loser) = if a_wins {
            (tx_a_hash.key_clone(), tx_b_hash.key_clone())
        } else {
            (tx_b_hash.key_clone(), tx_a_hash.key_clone())
        };
        self.stats.total_resolutions = self.stats.total_resolutions.wrapping_add(1);
        self.stats.total_evictions = self.stats.total_evictions.wrapping_add(1);
        Ok(ResolutionResult { winner, loser, reason, affected: Vec::new() })
    }

    /// Resolves a direct conflict; other kinds are refused.
    pub fn resolve_deterministic(
        &mut self,
        conflicts: ConflictType,
        tx_a: &Transaction,
        tx_b: &Transaction,
        tx_a_hash: &TxHash,
        tx_b_hash: &TxHash,
        tx_a_size: usize,
        tx_b_size: usize,
        tx_a_fee: u64,
        tx_b_fee: u64,
    ) -> (r: Result<ResolutionResult, String>)
        requires
            old(self).wf(),
        ensures
            final(self).wf(),
            r is Ok <==> conflicts is DirectConflict,
            r is Ok ==> ({
                let (a_wins, reason) = resolve_side(tx_a_hash@, tx_b_hash@, tx_a_size, tx_b_size, tx_a_fee, tx_b_fee,
                    old(self).arrival_of(tx_a_hash@), old(self).arrival_of(tx_b_hash@));
                &&& r->Ok_0.reason == reason
                &&& r->Ok_0.winner@ == (if a_wins { tx_a_hash@ } else { tx_b_hash@ })
                &&& r->Ok_0.loser@ == (if a_wins { tx_b_hash@ } else { tx_a_hash@ })
            }),
            r is Err ==> *final(self) == *old(self),
    {
        match conflicts {
            ConflictType::DirectConflict { .. } => self.resolve_conflict(
                tx_a, tx_b, tx_a_hash, tx_b_hash, tx_a_size, tx_b_size, tx_a_fee, tx_b_fee,
            ),
            _ => Err(String::from_str("Cannot resolve non-direct conflicts here")),
        }
    }

    /// Removes `tx_hash` from every claim and forgets its arrival; outputs
    /// left without claimants are dropped. Returns the number of outputs it
    /// claimed.
    pub fn remove_transaction(&mut self, tx_hash: &TxHash) -> (r: Result<usize, String>)
        requires
            old(self).wf(),
        ensures
            final(self).wf(),
            r is Ok,
            r->Ok_0 == old(self).claims().dom().filter(|op: (Seq<u8>, u32)| old(self).claimants(op).contains(tx_hash@)).len(),
            forall|op: (Seq<u8>, u32)| #[trigger] final(self).claimants(op) == old(self).claimants(op).remove(tx_hash@),
            forall|op: (Seq<u8>, u32)| #[trigger] final(self).claims().contains_key(op)
                <==> old(self).claims().contains_key(op) && old(self).claimants(op).remove(tx_hash@).len() > 0,
            final(self).arrivals() == old(self).arrivals().remove(tx_hash@),
            final(self).stats_view() == old(self).stats_view(),
    {
        let ghost old_self = *self;
        let mut rebuilt: KeyMap<OutPoint, KeySet<TxHash>> = KeyMap::new();
        let mut removed_count: usize = 0;
        let n = self.conflicts.len();
        let ghost ks = self.conflicts.key_seq();
        let ghost had = |op: (Seq<u8>, u32)| old_self.claimants(op).contains(tx_hash@);
        let mut i: usize = 0;
        proof {
            self.conflicts.lemma_view();
        }
        while i < n
            invariant
                self.wf(),
                *self == old_self,
                old_self.wf(),
                n == ks.len(),
                ks == self.conflicts.key_seq(),
                ks.no_duplicates(),
                i <= n,
                rebuilt.wf(),
                forall|op: (Seq<u8>, u32)| #[trigger] rebuilt@.contains_key(op) ==> rebuilt@[op].wf(),
                forall|op: (Seq<u8>, u32)| #[trigger] rebuilt@.contains_key(op) <==> ks.subrange(0, i as int).contains(op)
                    && old_self.claimants(op).remove(tx_hash@).len() > 0,
                forall|op: (Seq<u8>, u32)| #[trigger] rebuilt@.contains_key(op) ==> rebuilt@[op]@ == old_self.claimants(op).remove(tx_hash@),
                removed_count == ks.subrange(0, i as int).filter(had).len(),
                removed_count <= i,
                had == (|op: (Seq<u8>, u32)| old_self.claimants(op).contains(tx_hash@)),
            decreases n - i,
        {
            proof {
                self.conflicts.lemma_view();
            }
            let op = self.conflicts.key_at(i);
            let set = self.conflicts.value_at(i);
            let ghost opv = op@;
            proof {
                assert(opv == ks[i as int]);
                assert(self.conflicts@.contains_key(opv));
                assert(set@ == old_self.claimants(opv));
                assert(set.wf());
                reveal_with_fuel(Seq::<(Seq<u8>, u32)>::filter, 1);
                assert(ks.subrange(0, i + 1).drop_last() =~= ks.subrange(0, i as int));
                assert(ks.subrange(0, i + 1).last() == opv);
            }
            let mut copy: KeySet<TxHash> = KeySet::new();
            let m = set.len();
            let mut j: usize = 0;
            let mut found = false;
            proof {
                set.lemma_view();
            }
            while j < m
                invariant
                    set.wf(),
                    copy.wf(),
                    m == set.elem_seq().len(),
                    j <= m,
                    set.elem_seq().no_duplicates(),
                    set.elem_seq().to_set() == set@,
                    copy@ == set.elem_seq().subrange(0, j as int).to_set().remove(tx_hash@),
                    found == set.elem_seq().subrange(0, j as int).contains(tx_hash@),
                decreases m - j,
            {
                let e = set.elem_at(j);
                let ghost ev = e@;
                let ghost pre = set.elem_seq().subrange(0, j as int);
                if e.key_eq(tx_hash) {
                    found = true;
                } else {
                    copy.insert(e.key_clone());
                }
                j = j + 1;
                proof {
                    assert(set.elem_seq().subrange(0, j as int) =~= pre.push(ev));
                    pre.lemma_push_to_set_commute(ev);
                    assert(copy@ =~= set.elem_seq().subrange(0, j as int).to_set().remove(tx_hash@));
                    if pre.push(ev).contains(tx_hash@) && ev != tx_hash@ {
                        let q = pre.push(ev).index_of(tx_hash@);
                        assert(pre[q] == tx_hash@);
                    }
                    if ev == tx_hash@ {
                        assert(pre.push(ev)[pre.len() as int] == tx_hash@);
                    }
                    if pre.contains(tx_hash@) {
                        let q = pre.index_of(tx_hash@);
                        assert(pre.push(ev)[q] == tx_hash@);
                    }
                }
            }
            proof {
                assert(set.elem_seq().subrange(0, m as int) =~= set.elem_seq());
                assert(copy@ =~= old_self.claimants(opv).remove(tx_hash@));
                assert(found == old_self.claimants(opv).contains(tx_hash@)) by {
                    if old_self.claimants(opv).contains(tx_hash@) {
                        assert(set.elem_seq().to_set().contains(tx_hash@));
                    }
                }
            }
            if found {
                removed_count = removed_count + 1;
            }
            let keep = !copy.is_empty();
            let ghost rb = rebuilt@;
            if keep {
                rebuilt.insert(op.key_clone(), copy);
            }
            i = i + 1;
            proof {
                assert(!ks.subrange(0, i - 1).contains(opv)) by {
                    if ks.subrange(0, i - 1).contains(opv) {
                        let q = ks.subrange(0, i - 1).index_of(opv);
                        assert(ks[q] == opv);
                    }
                }
                assert forall|op2: (Seq<u8>, u32)| #[trigger] rebuilt@.contains_key(op2) <==> ks.subrange(0, i as int).contains(op2)
                    && old_self.claimants(op2).remove(tx_hash@).len() > 0 by {
                    assert(ks.subrange(0, i as int) =~= ks.subrange(0, i - 1).push(opv));
                    if ks.subrange(0, i as int).contains(op2) && op2 != opv {
                        let q = ks.subrange(0, i as int).index_of(op2);
                        assert(ks.subrange(0, i - 1)[q] == op2);
                    }
                    if op2 == opv {
                        assert(ks.subrange(0, i as int)[i - 1] == opv);
                    }
                    if ks.subrange(0, i - 1).contains(op2) {
                        let q = ks.subrange(0, i - 1).index_of(op2);
                        assert(ks.subrange(0, i as int)[q] == op2);
                    }
                }
                assert forall|op2: (Seq<u8>, u32)| #[trigger] rebuilt@.contains_key(op2) implies rebuilt@[op2].wf() by {
                    if op2 != opv {
                        assert(rb.contains_key(op2));
                    }
                }
            }
        }
        proof {
            assert(ks.subrange(0, n as int) =~= ks);
            ks.filter_lemma(had);
            assert(ks.filter(had).to_set() =~= old_self.claims().dom().filter(had)) by {
                assert forall|op: (Seq<u8>, u32)| ks.filter(had).to_set().contains(op) <==> #[trigger] old_self.claims().dom().filter(had).contains(op) by {
                    if old_self.claims().dom().filter(had).contains(op) {
                        assert(ks.to_set().contains(op));
                        let q = ks.index_of(op);
                        assert(ks[q] == op);
                        assert(ks.filter(had).contains(op));
                    }
                    if ks.filter(had).contains(op) {
                        let q = ks.filter(had).index_of(op);
                        assert(ks.filter(had)[q] == op);
                        assert(ks.contains(op));
                        assert(ks.to_set().contains(op));
                    }
                }
            }
            lemma_filter_no_dup(ks, had);
            ks.filter(had).unique_seq_to_set();
        }
        self.conflicts = rebuilt;
        self.arrival_times.remove(tx_hash);
        proof {
            assert forall|op: (Seq<u8>, u32)| #[trigger] self.claimants(op) == old_self.claimants(op).remove(tx_hash@) by {
                if !self.conflicts@.contains_key(op) {
                    if old_self.claimants(op).remove(tx_hash@).len() > 0 {
                        assert(old_self.claims().contains_key(op));
                        assert(ks.to_set().contains(op));
                        let q = ks.index_of(op);
                        assert(ks[q] == op);
                    } else {
                        assert(old_self.claimants(op).remove(tx_hash@).finite()) by {
                            if old_self.claims().contains_key(op) {
                                old_self.claims()[op].lemma_view();
                            }
                        }
                        assert(old_self.claimants(op).remove(tx_hash@) =~= Set::<Seq<u8>>::empty());
                    }
                }
            }
            assert forall|op: (Seq<u8>, u32)| #[trigger] self.claims().contains_key(op)
                <==> old_self.claims().contains_key(op) && old_self.claimants(op).remove(tx_hash@).len() > 0 by {
                if old_self.claims().contains_key(op) {
                    assert(ks.to_set().contains(op));
                    let q = ks.index_of(op);
                    assert(ks[q] == op);
                }
                if self.claims().contains_key(op) {
                    assert(ks.contains(op));
                    assert(old_self.claims().contains_key(op)) by {
                        assert(ks.to_set().contains(op));
                    }
                }
            }
        }
        Ok(removed_count)
    }
}

/// Filtering keeps a sequence free of duplicates.
pub proof fn lemma_filter_no_dup<A>(s: Seq<A>, pred: spec_fn(A) -> bool)
    requires
        s.no_duplicates(),
    ensures
        s.filter(pred).no_duplicates(),
    decreases s.len(),
{
    reveal(Seq::filter);
    if s.len() > 0 {
        let d = s.drop_last();
        assert(d.no_duplicates());
        lemma_filter_no_dup(d, pred);
        if pred(s.last()) {
            d.filter_lemma(pred);
            assert(!d.filter(pred).contains(s.last())) by {
                if d.filter(pred).contains(s.last()) {
                    lemma_filter_subset(d, pred, s.last());
                    let t = d.index_of(s.last());
                    assert(s[t] == s.last());
                }
            }
        }
    }
}

/// What a filter keeps comes from the sequence and meets the predicate.
pub proof fn lemma_filter_subset<A>(s: Seq<A>, pred: spec_fn(A) -> bool, x: A)
    requires
        s.filter(pred).contains(x),
    ensures
        s.contains(x),
        pred(x),
    decreases s.len(),
{
    reveal(Seq::filter);
    if s.len() > 0 {
        let d = s.drop_last();
        if d.filter(pred).contains(x) {
            lemma_filter_subset(d, pred, x);
            let i = d.index_of(x);
            assert(s[i] == x);
        } else {
            let q = s.filter(pred).index_of(x);
            assert(pred(s.last()));
            assert(s.filter(pred) == d.filter(pred).push(s.last()));
            if q < d.filter(pred).len() {
                assert(d.filter(pred)[q] == x);
            }
            assert(x == s.last());
            assert(s[s.len() - 1] == x);
        }
    }
}

impl ConflictMap {
    /// Transactions claiming `outpoint`.
    pub fn get_claiming_transactions(&self, outpoint: &OutPoint) -> (r: Vec<TxHash>)
        requires
            self.wf(),
        ensures
            key_views(r@).to_set() == self.claimants(outpoint@),
            key_views(r@).no_duplicates(),
    {
        match self.conflicts.get(outpoint) {
            Some(set) => set.to_vec(),
            None => {
                proof {
                    assert(key_views(Seq::<TxHash>::empty()).to_set() =~= Set::<Seq<u8>>::empty());
                }
                Vec::new()
            },
        }
    }

    /// Whether more than one transaction claims `outpoint`.
    pub fn has_conflicts(&self, outpoint: &OutPoint) -> (b: bool)
        requires
            self.wf(),
        ensures
            b == (self.claimants(outpoint@).len() > 1),
    {
        match self.conflicts.get(outpoint) {
            Some(set) => set.len() > 1,
            None => false,
        }
    }

    /// Outputs claimed by more than one transaction.
    pub fn get_conflicted_outpoints(&self) -> (r: Vec<OutPoint>)
        requires
            self.wf(),
        ensures
            key_views(r@).no_duplicates(),
            forall|op: (Seq<u8>, u32)| #[trigger] key_views(r@).contains(op)
                <==> self.claims().contains_key(op) && self.claimants(op).len() > 1,
    {
        let mut r: Vec<OutPoint> = Vec::new();
        let n = self.conflicts.len();
        let mut i: usize = 0;
        proof {
            self.conflicts.lemma_view();
        }
        while i < n
            invariant
                self.wf(),
                n == self.conflicts.key_seq().len(),
                self.conflicts.key_seq().no_duplicates(),
                i <= n,
                key_views(r@).no_duplicates(),
                forall|op: (Seq<u8>, u32)| #[trigger] key_views(r@).contains(op)
                    <==> self.conflicts.key_seq().subrange(0, i as int).contains(op) && self.claimants(op).len() > 1,
            decreases n - i,
        {
            proof {
                self.conflicts.lemma_view();
            }
            let op = self.conflicts.key_at(i);
            let set = self.conflicts.value_at(i);
            let ghost opv = op@;
            let ghost prev = key_views(r@);
            let ghost sub = self.conflicts.key_seq().subrange(0, i as int);
            proof {
                assert(set@ == self.claimants(opv));
                assert(!sub.contains(opv)) by {
                    if sub.contains(opv) {
                        let q = sub.index_of(opv);
                        assert(self.conflicts.key_seq()[q] == opv);
                    }
                }
                assert(!prev.contains(opv));
            }
            if set.len() > 1 {
                r.push(op.key_clone());
                proof {
                    assert(key_views(r@) =~= prev.push(opv));
                }
            }
            i = i + 1;
            proof {
                let sub2 = self.conflicts.key_seq().subrange(0, i as int);
                assert(sub2 =~= sub.push(opv));
                assert forall|op2: (Seq<u8>, u32)| #[trigger] key_views(r@).contains(op2)
                    <==> sub2.contains(op2) && self.claimants(op2).len() > 1 by {
                    if sub2.contains(op2) && op2 != opv {
                        let q = sub2.index_of(op2);
                        assert(sub[q] == op2);
                    }
                    if op2 == opv {
                        assert(sub2[i - 1] == opv);
                    }
                    if sub.contains(op2) {
                        let q = sub.index_of(op2);
                        assert(sub2[q] == op2);
                    }
                    if key_views(r@).contains(op2) && op2 != opv {
                        let q = key_views(r@).index_of(op2);
                        if q < prev.len() {
                            assert(prev[q] == op2);
                        }
                    }
                    if prev.contains(op2) {
                        let q = prev.index_of(op2);
                        assert(key_views(r@)[q] == op2);
                    }
                    if op2 == opv && self.claimants(op2).len() > 1 {
                        assert(key_views(r@)[prev.len() as int] == opv);
                    }
                }
            }
        }
        proof {
            self.conflicts.lemma_view();
            assert(self.conflicts.key_seq().subrange(0, n as int) =~= self.conflicts.key_seq());
            assert forall|op: (Seq<u8>, u32)| #[trigger] key_views(r@).contains(op)
                <==> self.claims().contains_key(op) && self.claimants(op).len() > 1 by {
                if self.claims().contains_key(op) {
                    assert(self.conflicts.key_seq().to_set().contains(op));
                }
                if self.conflicts.key_seq().contains(op) {
                    assert(self.conflicts.key_seq().to_set().contains(op));
                }
            }
        }
        r
    }

    /// The counters.
    pub fn get_stats(&self) -> (s: ConflictStats)
        ensures
            s == self.stats_view(),
    {
        self.stats
    }

    /// Drops every claim and arrival time.
    pub fn clear(&mut self)
        ensures
            final(self).wf(),
            final(self).claims() == Map::<(Seq<u8>, u32), KeySet<TxHash>>::empty(),
            final(self).arrivals() == Map::<Seq<u8>, u64>::empty(),
            final(self).stats_view() == old(self).stats_view(),
    {
        self.conflicts.clear();
        self.arrival_times.clear();
    }

    /// Number of claimed outputs.
    pub fn len(&self) -> (n: usize)
        requires
            self.wf(),
        ensures
            n == self.claims().len(),
    {
        self.conflicts.len()
    }

    pub fn is_empty(&self) -> (b: bool)
        requires
            self.wf(),
        ensures
            b == (self.claims().len() == 0),
    {
        self.conflicts.is_empty()
    }
}
} // verus!
