//! UTXO claims: which mempool transaction holds each output it spends, with
//! replace-by-fee when a higher fee claims an output already held.

use vstd::prelude::*;
use dashmap::DashMap;
use crate::external::{bincode_encode_hash, clock_unix_secs};
use crate::text::{hex_string, dec_string, hex_encode, push_decimal, lemma_hex_string_no_colon, lemma_hex_string_injective, lemma_dec_string_injective};
use crate::transaction::{Transaction, TxInput, TxInputView, hash_key_spec};
use crate::bytes::{bytes_eq, copy_bytes};
use crate::keyed::KeyOps;
use crate::counter::{wrap_add, lemma_wrap_add_zero, lemma_wrap_add_step, lemma_wrap_add_once};

verus! {

/// A claim as a value: holder's hash, holder's fee, time of the claim.
pub type LockView = (Seq<u8>, u64, u64);

/// What a map of claims holds, keyed by the outpoint's text.
pub uninterp spec fn claim_entries(m: DashMap<String, UtxoLock>) -> Map<Seq<char>, LockView>;

/// What a map from transaction hash to the outpoint texts it claims holds.
pub uninterp spec fn tx_claim_entries(m: DashMap<Vec<u8>, Vec<String>>) -> Map<Seq<u8>, Seq<Seq<char>>>;

/// The texts of a list of strings.
pub open spec fn texts(v: Seq<String>) -> Seq<Seq<char>> {
    v.map_values(|s: String| s@)
}

/// No claims.
pub open spec fn no_claims() -> Map<Seq<char>, LockView> {
    Map::empty()
}

/// No transaction holds claims.
pub open spec fn no_tx_claims() -> Map<Seq<u8>, Seq<Seq<char>>> {
    Map::empty()
}

/// Calls `DashMap::new`: an empty map.
#[verifier::external_body]
fn claims_new() -> (m: DashMap<String, UtxoLock>)
    ensures
        claim_entries(m) == no_claims(),
{
    DashMap::new()
}

/// Calls `DashMap::insert`: the key now maps to the value, other keys are
/// unchanged.
#[verifier::external_body]
fn claims_insert(m: &mut DashMap<String, UtxoLock>, k: String, v: UtxoLock)
    ensures
        claim_entries(*final(m)) == claim_entries(*old(m)).insert(k@, v.view()),
{
    m.insert(k, v);
}

/// Calls `DashMap::remove`: the key no longer maps to anything, other keys
/// are unchanged.
#[verifier::external_body]
fn claims_remove(m: &mut DashMap<String, UtxoLock>, k: &String)
    ensures
        claim_entries(*final(m)) == claim_entries(*old(m)).remove(k@),
{
    m.remove(k);
}

/// Calls `DashMap::get` and clones the value found, if any.
#[verifier::external_body]
fn claims_get(m: &DashMap<String, UtxoLock>, k: &String) -> (r: Option<UtxoLock>)
    ensures
        match r {
            Some(v) => claim_entries(*m).contains_key(k@) && v.view() == claim_entries(*m)[k@],
            None => !claim_entries(*m).contains_key(k@),
        },
{
    m.get(k).map(|e| e.value().clone())
}

/// Calls `DashMap::contains_key`.
#[verifier::external_body]
fn claims_contains(m: &DashMap<String, UtxoLock>, k: &String) -> (b: bool)
    ensures
        b == claim_entries(*m).contains_key(k@),
{
    m.contains_key(k)
}

/// Calls `DashMap::len`: the number of keys.
#[verifier::external_body]
fn claims_len(m: &DashMap<String, UtxoLock>) -> (n: usize)
    ensures
        n == claim_entries(*m).len(),
{
    m.len()
}

/// Calls `DashMap::clear`: the map is empty.
#[verifier::external_body]
fn claims_clear(m: &mut DashMap<String, UtxoLock>)
    ensures
        claim_entries(*final(m)) == no_claims(),
{
    m.clear();
}

/// Calls `DashMap::new`: an empty map.
#[verifier::external_body]
fn tx_claims_new() -> (m: DashMap<Vec<u8>, Vec<String>>)
    ensures
        tx_claim_entries(m) == no_tx_claims(),
{
    DashMap::new()
}

/// Calls `DashMap::insert`: the key now maps to the value, other keys are
/// unchanged.
#[verifier::external_body]
fn tx_claims_insert(m: &mut DashMap<Vec<u8>, Vec<String>>, k: Vec<u8>, v: Vec<String>)
    ensures
        tx_claim_entries(*final(m)) == tx_claim_entries(*old(m)).insert(k@, texts(v@)),
{
    m.insert(k, v);
}

/// Calls `DashMap::remove` and hands out the value removed, if any.
#[verifier::external_body]
fn tx_claims_remove(m: &mut DashMap<Vec<u8>, Vec<String>>, k: &[u8]) -> (r: Option<Vec<String>>)
    ensures
        tx_claim_entries(*final(m)) == tx_claim_entries(*old(m)).remove(k@),
        match r {
            Some(v) => tx_claim_entries(*old(m)).contains_key(k@) && texts(v@) == tx_claim_entries(*old(m))[k@],
            None => !tx_claim_entries(*old(m)).contains_key(k@),
        },
{
    m.remove(k).map(|(_, v)| v)
}

/// Calls `DashMap::get` and clones the value found, if any.
#[verifier::external_body]
fn tx_claims_get(m: &DashMap<Vec<u8>, Vec<String>>, k: &[u8]) -> (r: Option<Vec<String>>)
    ensures
        match r {
            Some(v) => tx_claim_entries(*m).contains_key(k@) && texts(v@) == tx_claim_entries(*m)[k@],
            None => !tx_claim_entries(*m).contains_key(k@),
        },
{
    m.get(k).map(|e| e.value().clone())
}

/// Calls `DashMap::len`: the number of keys.
#[verifier::external_body]
fn tx_claims_len(m: &DashMap<Vec<u8>, Vec<String>>) -> (n: usize)
    ensures
        n == tx_claim_entries(*m).len(),
{
    m.len()
}

/// Calls `DashMap::clear`: the map is empty.
#[verifier::external_body]
fn tx_claims_clear(m: &mut DashMap<Vec<u8>, Vec<String>>)
    ensures
        tx_claim_entries(*final(m)) == no_tx_claims(),
{
    m.clear();
}

/// Why a claim could not be registered or released.
#[derive(Clone, Debug, PartialEq, Eq)]
pub enum UtxoConflictError {
    /// The output is held by another transaction with at least the same fee
    UtxoAlreadyClaimed { outpoint: String, claimed_by: Vec<u8>, current_fee: u64, new_fee: u64 },
    /// The output is not known
    UtxoNotFound(String),
    /// The output was already spent on chain
    UtxoAlreadySpent(String),
    /// The transaction holds no claims
    TransactionNotTracked(Vec<u8>),
    /// An input could not be read
    InvalidInput(String),
    /// The store failed
    StorageError(String),
}

/// An output: the hash of the transaction that made it and its index.
#[derive(Clone, Debug, Hash, PartialEq, Eq)]
pub struct OutPoint {
    pub tx_hash: Vec<u8>,
    pub index: u32,
}

/// The text of an outpoint: its whole hash as two lowercase hexadecimal
/// digits per byte, a colon, the index in decimal.
pub open spec fn outpoint_text(tx_hash: Seq<u8>, index: u32) -> Seq<char> {
    hex_string(tx_hash) + seq![':'] + dec_string(index as nat)
}

/// Different outpoints have different texts, so each output has a claim key
/// of its own.
pub proof fn lemma_outpoint_text_injective(h1: Seq<u8>, i1: u32, h2: Seq<u8>, i2: u32)
    requires
        outpoint_text(h1, i1) == outpoint_text(h2, i2),
    ensures
        h1 == h2,
        i1 == i2,
{
    let t = outpoint_text(h1, i1);
    let a = hex_string(h1);
    let b = hex_string(h2);
    lemma_hex_string_no_colon(h1);
    lemma_hex_string_no_colon(h2);
    assert(t[a.len() as int] == ':');
    assert(t[b.len() as int] == ':');
    if a.len() < b.len() {
        assert(t[a.len() as int] == b[a.len() as int]);
    }
    if b.len() < a.len() {
        assert(t[b.len() as int] == a[b.len() as int]);
    }
    assert(a =~= t.subrange(0, a.len() as int));
    assert(b =~= t.subrange(0, b.len() as int));
    lemma_hex_string_injective(h1, h2);
    assert(dec_string(i1 as nat) =~= t.subrange(a.len() as int + 1, t.len() as int));
    assert(dec_string(i2 as nat) =~= t.subrange(b.len() as int + 1, t.len() as int));
    lemma_dec_string_injective(i1 as nat, i2 as nat);
}

impl View for OutPoint {
    type V = (Seq<u8>, u32);

    open spec fn view(&self) -> (Seq<u8>, u32) {
        (self.tx_hash@, self.index)
    }
}

impl KeyOps for OutPoint {
    fn key_eq(&self, other: &Self) -> (b: bool) {
        self.index == other.index && bytes_eq(self.tx_hash.as_slice(), other.tx_hash.as_slice())
    }

    fn key_clone(&self) -> (c: Self) {
        OutPoint { tx_hash: copy_bytes(self.tx_hash.as_slice()), index: self.index }
    }
}

impl OutPoint {
    pub fn new(tx_hash: Vec<u8>, index: u32) -> (o: Self)
        ensures
            o.tx_hash@ == tx_hash@,
            o.index == index,
    {
        OutPoint { tx_hash, index }
    }

    /// The outpoint an input spends, its hash taken in bincode encoding.
    pub fn from_input(input: &TxInput) -> (o: Self)
        ensures
            o.tx_hash@ == hash_key_spec(input.prev_tx),
            o.index == input.index,
    {
        OutPoint { tx_hash: bincode_encode_hash(&input.prev_tx.bytes), index: input.index }
    }

    /// The outpoint as text, the key under which its claim is kept.
    pub fn to_string(&self) -> (s: String)
        ensures
            s@ == outpoint_text(self.tx_hash@, self.index),
    {
        let mut s = hex_encode(self.tx_hash.as_slice());
        s.append(":");
        proof {
            reveal_strlit(":");
        }
        push_decimal(&mut s, self.index as u64);
        proof {
            assert(s@ =~= outpoint_text(self.tx_hash@, self.index));
        }
        s
    }
}

/// A claim on an output.
#[derive(Clone, Debug)]
pub struct UtxoLock {
    /// Hash of the transaction that holds the claim
    pub claimed_by: Vec<u8>,
    /// Fee of that transaction
    pub claiming_fee: u64,
    /// When the claim was made, in Unix seconds
    pub lock_time: u64,
}

impl UtxoLock {
    pub open spec fn view(&self) -> LockView {
        (self.claimed_by@, self.claiming_fee, self.lock_time)
    }
}

/// Counters of the claim tracker.
#[derive(Clone, Copy, Debug)]
pub struct ConflictStats {
    pub total_tracked: u64,
    pub total_claims: u64,
    pub rbf_replacements: u64,
    pub conflicts_detected: u64,
    pub claims_released: u64,
}

impl Default for ConflictStats {
    fn default() -> (s: Self)
        ensures
            s == (ConflictStats { total_tracked: 0, total_claims: 0, rbf_replacements: 0, conflicts_detected: 0, claims_released: 0 }),
    {
        ConflictStats { total_tracked: 0, total_claims: 0, rbf_replacements: 0, conflicts_detected: 0, claims_released: 0 }
    }
}


/// The claim keys of a transaction's inputs, in input order.
pub open spec fn input_keys(inputs: Seq<TxInputView>) -> Seq<Seq<char>> {
    inputs.map_values(|i: TxInputView| outpoint_text(hash_key_spec(i.prev_tx), i.index))
}

/// The inputs' claim keys checked in order against the claims: the claims
/// left once every lower-fee holder met on the way is removed, how many were
/// removed, and the first claim whose holder pays at least `fee`, if any
/// (the check stops there).
pub open spec fn scan_claims(claims: Map<Seq<char>, LockView>, keys: Seq<Seq<char>>, fee: u64)
    -> (Map<Seq<char>, LockView>, nat, Option<(Seq<char>, LockView)>)
    decreases keys.len(),
{
    if keys.len() == 0 {
        (claims, 0, None)
    } else {
        let prev = scan_claims(claims, keys.drop_last(), fee);
        let c = prev.0;
        let k = keys.last();
        if prev.2.is_some() {
            prev
        } else if c.contains_key(k) {
            if fee > c[k].1 {
                (c.remove(k), prev.1 + 1, None)
            } else {
                (c, prev.1, Some((k, c[k])))
            }
        } else {
            prev
        }
    }
}

/// Once the scan of a prefix is blocked, the scan of the whole is that.
proof fn lemma_scan_stops(claims: Map<Seq<char>, LockView>, keys: Seq<Seq<char>>, fee: u64, m: int)
    requires
        0 <= m <= keys.len(),
        scan_claims(claims, keys.take(m), fee).2 is Some,
    ensures
        scan_claims(claims, keys, fee) == scan_claims(claims, keys.take(m), fee),
    decreases keys.len(),
{
    if m == keys.len() {
        assert(keys.take(m) =~= keys);
    } else {
        assert(keys.drop_last().take(m) =~= keys.take(m));
        lemma_scan_stops(claims, keys.drop_last(), fee, m);
    }
}

/// Every key in `keys` claimed with `lock`, over `claims`.
pub open spec fn claim_all(claims: Map<Seq<char>, LockView>, keys: Seq<Seq<char>>, lock: LockView) -> Map<Seq<char>, LockView> {
    claims.union_prefer_right(keys.to_set().mk_map(|k: Seq<char>| lock))
}

/// `a - b`, or zero when `b` is larger.
pub open spec fn sat_sub(a: u64, b: int) -> u64 {
    if a >= b { (a - b) as u64 } else { 0 }
}

/// The conflict estimate the tracker keeps: the tracked count less the
/// average number of claims per tracked transaction.
pub open spec fn conflict_estimate(total_tracked: u64, claims: nat, held: nat) -> u64 {
    let d: int = if held == 0 { 1 } else { held as int };
    sat_sub(total_tracked, claims as int / d)
}

/// What registering the claims of `tx` at `fee` and time `now` does, from
/// `before` to `after`, with result `r`.
pub open spec fn registered(before: UtxoTracker, after: UtxoTracker, tx: Transaction, fee: u64, now: u64,
    r: Result<(), UtxoConflictError>) -> bool {
    let keys = input_keys(tx@.inputs);
    let scan = scan_claims(before.claims_view(), keys, fee);
    let os = before.stats_view();
    let ns = after.stats_view();
    match r {
        Err(e) => {
            &&& scan.2 matches Some(b)
            &&& e matches UtxoConflictError::UtxoAlreadyClaimed { outpoint, claimed_by, current_fee, new_fee }
            &&& outpoint@ == b.0
            &&& claimed_by@ == b.1.0
            &&& current_fee == b.1.1
            &&& new_fee == fee
            &&& after.claims_view() == scan.0
            &&& after.tx_claims_view() == before.tx_claims_view()
            &&& ns == (ConflictStats { rbf_replacements: wrap_add(os.rbf_replacements, scan.1), ..os })
        },
        Ok(()) => {
            &&& scan.2 is None
            &&& after.claims_view() == claim_all(scan.0, keys, (hash_key_spec(tx.id), fee, now))
            &&& after.tx_claims_view() == before.tx_claims_view().insert(hash_key_spec(tx.id), keys)
            &&& ns.total_tracked == wrap_add(os.total_tracked, 1)
            &&& ns.total_claims == wrap_add(os.total_claims, tx@.inputs.len())
            &&& ns.rbf_replacements == wrap_add(os.rbf_replacements, scan.1)
            &&& ns.claims_released == os.claims_released
            &&& ns.conflicts_detected == conflict_estimate(ns.total_tracked,
                    after.claims_view().len(), after.tx_claims_view().len())
        },
    }
}

/// The outpoints of `inputs` whose keys are claimed, in input order.
pub open spec fn claimed_outpoints(claims: Map<Seq<char>, LockView>, inputs: Seq<TxInputView>) -> Seq<(Seq<u8>, u32)>
    decreases inputs.len(),
{
    if inputs.len() == 0 {
        Seq::empty()
    } else {
        let rest = claimed_outpoints(claims, inputs.drop_last());
        let i = inputs.last();
        if claims.contains_key(outpoint_text(hash_key_spec(i.prev_tx), i.index)) {
            rest.push((hash_key_spec(i.prev_tx), i.index))
        } else {
            rest
        }
    }
}

/// What releasing the claims of the transaction with hash `h` does, from
/// `before` to `after`, with result `r`.
pub open spec fn released(before: UtxoTracker, after: UtxoTracker, h: Seq<u8>, r: Result<(), UtxoConflictError>) -> bool {
    if before.tx_claims_view().contains_key(h) {
        &&& r is Ok
        &&& after.tx_claims_view() == before.tx_claims_view().remove(h)
        &&& after.claims_view() == before.claims_view().remove_keys(before.tx_claims_view()[h].to_set())
        &&& after.stats_view() == (ConflictStats {
                claims_released: before.stats_view().claims_released.wrapping_add(1), ..before.stats_view() })
    } else {
        &&& r matches Err(UtxoConflictError::TransactionNotTracked(x))
        &&& x@ == h
        &&& after.tx_claims_view() == before.tx_claims_view()
        &&& after.claims_view() == before.claims_view()
        &&& after.stats_view() == before.stats_view()
    }
}

/// A scan that meets no claimed key removes nothing and is not blocked.
proof fn lemma_scan_unclaimed(claims: Map<Seq<char>, LockView>, keys: Seq<Seq<char>>, fee: u64)
    requires
        forall|j: int| 0 <= j < keys.len() ==> !claims.contains_key(#[trigger] keys[j]),
    ensures
        scan_claims(claims, keys, fee) == (claims, 0nat, None::<(Seq<char>, LockView)>),
    decreases keys.len(),
{
    if keys.len() > 0 {
        assert forall|j: int| 0 <= j < keys.drop_last().len() implies !claims.contains_key(#[trigger] keys.drop_last()[j]) by {
            assert(keys.drop_last()[j] == keys[j]);
        }
        lemma_scan_unclaimed(claims, keys.drop_last(), fee);
        assert(!claims.contains_key(keys[keys.len() - 1]));
    }
}

/// Registering the claims of a transaction that is not tracked and none of
/// whose outputs is claimed succeeds, and releasing them afterwards leaves
/// the claims and the tracked transactions as they were before.
pub proof fn lemma_release_undoes_register(t0: UtxoTracker, t1: UtxoTracker, t2: UtxoTracker, tx: Transaction,
    fee: u64, now: u64, r1: Result<(), UtxoConflictError>, r2: Result<(), UtxoConflictError>)
    requires
        forall|j: int| 0 <= j < tx@.inputs.len() ==> !t0.claims_view().contains_key(#[trigger] input_keys(tx@.inputs)[j]),
        !t0.tx_claims_view().contains_key(hash_key_spec(tx.id)),
        registered(t0, t1, tx, fee, now, r1),
        released(t1, t2, hash_key_spec(tx.id), r2),
    ensures
        r1 is Ok,
        r2 is Ok,
        t2.claims_view() == t0.claims_view(),
        t2.tx_claims_view() == t0.tx_claims_view(),
{
    let keys = input_keys(tx@.inputs);
    lemma_scan_unclaimed(t0.claims_view(), keys, fee);
    let lock = (hash_key_spec(tx.id), fee, now);
    assert(t1.tx_claims_view().contains_key(hash_key_spec(tx.id)));
    assert(t1.tx_claims_view()[hash_key_spec(tx.id)] == keys);
    assert forall|k: Seq<char>| keys.to_set().contains(k) implies !t0.claims_view().contains_key(k) by {
        let j = choose|j: int| 0 <= j < keys.len() && keys[j] == k;
        assert(!t0.claims_view().contains_key(keys[j]));
    }
    assert(t2.claims_view() =~= t0.claims_view());
    assert(t2.tx_claims_view() =~= t0.tx_claims_view());
}

/// What a scan of claim keys at `fee` keeps and where it stops: it keeps
/// every claim held at `fee` or more and only the claims it was given; when
/// it is not stopped, each scanned key is unclaimed or claimed at a lower
/// fee; when it stops, it is at a scanned key claimed at `fee` or more.
proof fn lemma_scan_facts(claims: Map<Seq<char>, LockView>, keys: Seq<Seq<char>>, fee: u64)
    ensures
        ({
            let s = scan_claims(claims, keys, fee);
            &&& forall|k: Seq<char>| #[trigger] s.0.contains_key(k) ==> claims.contains_key(k) && s.0[k] == claims[k]
            &&& forall|k: Seq<char>| claims.contains_key(k) && claims[k].1 >= fee ==> #[trigger] s.0.contains_key(k)
            &&& s.2 is None ==> forall|j: int| 0 <= j < keys.len() && claims.contains_key(#[trigger] keys[j])
                ==> claims[keys[j]].1 < fee
            &&& s.2 matches Some(b) ==> b.1.1 >= fee && claims.contains_key(b.0) && claims[b.0] == b.1 && keys.contains(b.0)
        }),
    decreases keys.len(),
{
    if keys.len() > 0 {
        let p = keys.drop_last();
        lemma_scan_facts(claims, p, fee);
        let prev = scan_claims(claims, p, fee);
        let s = scan_claims(claims, keys, fee);
        let k = keys.last();
        if prev.2 is None {
            assert forall|j: int| 0 <= j < p.len() implies #[trigger] keys[j] == p[j] by {}
            if s.2 matches Some(b) {
                assert(keys[keys.len() - 1] == k);
            }
            if s.2 is None {
                assert forall|j: int| 0 <= j < keys.len() && claims.contains_key(#[trigger] keys[j])
                    implies claims[keys[j]].1 < fee by {
                    if j < keys.len() - 1 {
                        assert(keys[j] == p[j]);
                    }
                }
            }
        } else {
            let b = prev.2->Some_0;
            assert(p.contains(b.0));
            let j = choose|j: int| 0 <= j < p.len() && p[j] == b.0;
            assert(keys[j] == b.0);
        }
    }
}

/// Claims yield only to a strictly higher fee. Registering at `fee`: every
/// claim held at `fee` or more stays as it was; success means every input's
/// output was unclaimed or claimed at a lower fee (so an input whose output
/// is claimed at `fee` or more makes it fail); and a failure is always
/// `UtxoAlreadyClaimed`, with the holder's fee at least the new fee.
pub proof fn lemma_claims_yield_only_to_higher_fees(before: UtxoTracker, after: UtxoTracker, tx: Transaction,
    fee: u64, now: u64, r: Result<(), UtxoConflictError>)
    requires
        registered(before, after, tx, fee, now, r),
    ensures
        forall|k: Seq<char>| before.claims_view().contains_key(k) && before.claims_view()[k].1 >= fee
            ==> #[trigger] after.claims_view().contains_key(k) && after.claims_view()[k] == before.claims_view()[k],
        r is Ok ==> forall|j: int| 0 <= j < tx@.inputs.len()
            && before.claims_view().contains_key(#[trigger] input_keys(tx@.inputs)[j])
            ==> before.claims_view()[input_keys(tx@.inputs)[j]].1 < fee,
        (exists|j: int| 0 <= j < tx@.inputs.len() && before.claims_view().contains_key(#[trigger] input_keys(tx@.inputs)[j])
            && before.claims_view()[input_keys(tx@.inputs)[j]].1 >= fee) ==> r is Err,
        r is Err ==> (r matches Err(UtxoConflictError::UtxoAlreadyClaimed { current_fee, new_fee, .. })
            && new_fee == fee && current_fee >= fee),
        r is Ok ==> forall|j: int| 0 <= j < tx@.inputs.len()
            ==> #[trigger] after.claims_view().contains_key(input_keys(tx@.inputs)[j])
                && after.claims_view()[input_keys(tx@.inputs)[j]] == (hash_key_spec(tx.id), fee, now),
        forall|k: Seq<char>| #[trigger] after.claims_view().contains_key(k) && !before.claims_view().contains_key(k)
            ==> r is Ok && input_keys(tx@.inputs).contains(k),
{
    let keys = input_keys(tx@.inputs);
    let c = before.claims_view();
    lemma_scan_facts(c, keys, fee);
    let s = scan_claims(c, keys, fee);
    assert(keys.len() == tx@.inputs.len());
    if r is Ok {
        let lock = (hash_key_spec(tx.id), fee, now);
        assert forall|j: int| 0 <= j < tx@.inputs.len()
            implies #[trigger] after.claims_view().contains_key(keys[j]) && after.claims_view()[keys[j]] == lock by {
            assert(keys.to_set().contains(keys[j]));
        }
        assert forall|k: Seq<char>| c.contains_key(k) && c[k].1 >= fee
            implies #[trigger] after.claims_view().contains_key(k) && after.claims_view()[k] == c[k] by {
            if keys.to_set().contains(k) {
                let j = choose|j: int| 0 <= j < keys.len() && keys[j] == k;
                assert(c.contains_key(keys[j]));
            }
            assert(s.0.contains_key(k));
        }
    }
}

/// Tracks which transaction holds each claimed output.
pub struct UtxoTracker {
    claims: DashMap<String, UtxoLock>,
    tx_claims: DashMap<Vec<u8>, Vec<String>>,
    stats: ConflictStats,
}

impl UtxoTracker {
    /// Claims by outpoint text.
    pub closed spec fn claims_view(&self) -> Map<Seq<char>, LockView> {
        claim_entries(self.claims)
    }

    /// The outpoint texts each tracked transaction claims.
    pub closed spec fn tx_claims_view(&self) -> Map<Seq<u8>, Seq<Seq<char>>> {
        tx_claim_entries(self.tx_claims)
    }

    /// The counters.
    pub closed spec fn stats_view(&self) -> ConflictStats {
        self.stats
    }

    pub fn new() -> (t: Self)
        ensures
            t.claims_view() == no_claims(),
            t.tx_claims_view() == no_tx_claims(),
            t.stats_view() == (ConflictStats { total_tracked: 0, total_claims: 0, rbf_replacements: 0, conflicts_detected: 0, claims_released: 0 }),
    {
        UtxoTracker { claims: claims_new(), tx_claims: tx_claims_new(), stats: ConflictStats::default() }
    }

    /// An output is unknown when its transaction hash is empty.
    fn verify_utxo_exists(tx_hash: &[u8]) -> (r: Result<(), UtxoConflictError>)
        ensures
            r is Ok <==> tx_hash@.len() > 0,
    {
        if tx_hash.len() == 0 {
            let mut msg = String::new();
            msg.append("Invalid tx_hash: empty");
            return Err(UtxoConflictError::UtxoNotFound(msg));
        }
        Ok(())
    }

    /// Registers a claim on every input of `tx` at fee `fee`, made at time
    /// `now`. Inputs are checked in order: a claim held at a lower fee is
    /// removed (replace-by-fee), one held at the same or a higher fee stops
    /// the registration with `UtxoAlreadyClaimed`, the removals made before
    /// it standing. When no input is blocked, every input is claimed for
    /// `tx` and `tx` is tracked with its list of claim keys.
    pub fn register_claims_at(&mut self, tx: &Transaction, fee: u64, now: u64) -> (r: Result<(), UtxoConflictError>)
        ensures
            registered(*old(self), *final(self), *tx, fee, now, r),
    {
        let ghost keys = input_keys(tx@.inputs);
        let ghost c0 = self.claims_view();
        let ghost s0 = self.stats;
        let tx_hash = bincode_encode_hash(&tx.id.bytes);
        let mut outpoints: Vec<String> = Vec::new();
        let mut i: usize = 0;
        let ghost mut n: nat = 0;
        proof {
            lemma_wrap_add_zero(s0.rbf_replacements);
        }
        while i < tx.inputs.len()
            invariant
                keys == input_keys(tx@.inputs),
                i <= tx@.inputs.len(),
                texts(outpoints@) == keys.take(i as int),
                scan_claims(c0, keys.take(i as int), fee) == (self.claims_view(), n, None::<(Seq<char>, LockView)>),
                self.stats == (ConflictStats { rbf_replacements: wrap_add(s0.rbf_replacements, n), ..s0 }),
                self.tx_claims_view() == old(self).tx_claims_view(),
                c0 == old(self).claims_view(),
                s0 == old(self).stats_view(),
            decreases tx@.inputs.len() - i,
        {
            let input = &tx.inputs[i];
            let prev_tx_hash = bincode_encode_hash(&input.prev_tx.bytes);
            match Self::verify_utxo_exists(prev_tx_hash.as_slice()) {
                Err(e) => {
                    proof {
                        assert(prev_tx_hash@.len() == 32);
                    }
                    return Err(e);
                },
                Ok(()) => {},
            }
            let outpoint_str = OutPoint::new(prev_tx_hash, input.index).to_string();
            proof {
                assert(outpoint_str@ == keys[i as int]);
                assert(keys.take(i + 1).drop_last() =~= keys.take(i as int));
                assert(keys.take(i + 1).last() == keys[i as int]);
            }
            outpoints.push(outpoint_str.clone());
            proof {
                assert(texts(outpoints@) =~= keys.take(i + 1));
            }
            match claims_get(&self.claims, &outpoint_str) {
                Some(existing) => {
                    if fee > existing.claiming_fee {
                        claims_remove(&mut self.claims, &outpoint_str);
                        proof {
                            lemma_wrap_add_step(s0.rbf_replacements, n);
                            n = n + 1;
                        }
                        self.stats.rbf_replacements = self.stats.rbf_replacements.wrapping_add(1);
                    } else {
                        proof {
                            lemma_scan_stops(c0, keys, fee, i + 1);
                        }
                        return Err(UtxoConflictError::UtxoAlreadyClaimed {
                            outpoint: outpoint_str,
                            claimed_by: existing.claimed_by,
                            current_fee: existing.claiming_fee,
                            new_fee: fee,
                        });
                    }
                },
                None => {},
            }
            i = i + 1;
        }
        proof {
            assert(keys.take(tx@.inputs.len() as int) =~= keys);
        }
        let ghost c1 = self.claims_view();
        let ghost lock: LockView = (tx_hash@, fee, now);
        let mut j: usize = 0;
        proof {
            assert(keys.take(0).to_set() =~= Set::<Seq<char>>::empty());
            assert(c1 =~= c1.union_prefer_right(keys.take(0).to_set().mk_map(|k: Seq<char>| lock)));
        }
        while j < outpoints.len()
            invariant
                texts(outpoints@) == keys,
                j <= keys.len(),
                self.claims_view() == c1.union_prefer_right(keys.take(j as int).to_set().mk_map(|k: Seq<char>| lock)),
                lock == (tx_hash@, fee, now),
                self.tx_claims_view() == old(self).tx_claims_view(),
                self.stats == (ConflictStats { rbf_replacements: wrap_add(s0.rbf_replacements, n), ..s0 }),
            decreases keys.len() - j,
        {
            let lk = UtxoLock { claimed_by: crate::bytes::copy_bytes(tx_hash.as_slice()), claiming_fee: fee, lock_time: now };
            let key = outpoints[j].clone();
            proof {
                assert(key@ == keys[j as int]);
                assert(keys.take(j + 1) =~= keys.take(j as int).push(keys[j as int]));
                keys.take(j as int).lemma_push_to_set_commute(keys[j as int]);
            }
            claims_insert(&mut self.claims, key, lk);
            j = j + 1;
            proof {
                assert(self.claims_view() =~= c1.union_prefer_right(keys.take(j as int).to_set().mk_map(|k: Seq<char>| lock)));
            }
        }
        proof {
            assert(keys.take(keys.len() as int) =~= keys);
        }
        tx_claims_insert(&mut self.tx_claims, tx_hash, outpoints);
        self.stats.total_tracked = self.stats.total_tracked.wrapping_add(1);
        self.stats.total_claims = self.stats.total_claims.wrapping_add(tx.inputs.len() as u64);
        proof {
            lemma_wrap_add_once(s0.total_tracked, 1);
            lemma_wrap_add_once(s0.total_claims, tx.inputs.len() as u64);
        }
        let claims_len = claims_len(&self.claims) as u64;
        let holders = tx_claims_len(&self.tx_claims) as u64;
        let d: u64 = if holders == 0 { 1 } else { holders };
        self.stats.conflicts_detected = self.stats.total_tracked.saturating_sub(claims_len / d);
        Ok(())
    }

    /// Registers the claims of `tx` at the current time.
    pub fn register_claims(&mut self, tx: &Transaction, fee: u64) -> (r: Result<(), UtxoConflictError>)
        ensures
            exists|now: u64| registered(*old(self), *final(self), *tx, fee, now, r),
    {
        let now = clock_unix_secs();
        self.register_claims_at(tx, fee, now)
    }

    /// Releases every claim `tx_hash` holds and stops tracking it; an
    /// untracked hash is `TransactionNotTracked`, with nothing changed.
    pub fn release_claims(&mut self, tx_hash: &[u8]) -> (r: Result<(), UtxoConflictError>)
        ensures
            released(*old(self), *final(self), tx_hash@, r),
    {
        match tx_claims_remove(&mut self.tx_claims, tx_hash) {
            Some(outpoints) => {
                let ghost keys = texts(outpoints@);
                let ghost c0 = self.claims_view();
                let mut i: usize = 0;
                proof {
                    assert(keys.take(0).to_set() =~= Set::<Seq<char>>::empty());
                    assert(c0.remove_keys(keys.take(0).to_set()) =~= c0);
                }
                while i < outpoints.len()
                    invariant
                        keys == texts(outpoints@),
                        i <= keys.len(),
                        self.claims_view() == c0.remove_keys(keys.take(i as int).to_set()),
                        c0 == old(self).claims_view(),
                        keys == old(self).tx_claims_view()[tx_hash@],
                        self.tx_claims_view() == old(self).tx_claims_view().remove(tx_hash@),
                        self.stats == old(self).stats,
                    decreases keys.len() - i,
                {
                    proof {
                        assert(keys.take(i + 1) =~= keys.take(i as int).push(keys[i as int]));
                        keys.take(i as int).lemma_push_to_set_commute(keys[i as int]);
                    }
                    claims_remove(&mut self.claims, &outpoints[i]);
                    i = i + 1;
                    proof {
                        assert(self.claims_view() =~= c0.remove_keys(keys.take(i as int).to_set()));
                    }
                }
                proof {
                    assert(keys.take(keys.len() as int) =~= keys);
                }
                self.stats.claims_released = self.stats.claims_released.wrapping_add(1);
                proof {
                    assert(old(self).tx_claims_view().contains_key(tx_hash@));
                    assert(self.claims_view() == old(self).claims_view().remove_keys(old(self).tx_claims_view()[tx_hash@].to_set()));
                    assert(self.tx_claims_view() == old(self).tx_claims_view().remove(tx_hash@));
                }
                Ok(())
            },
            None => {
                proof {
                    assert(!old(self).tx_claims_view().contains_key(tx_hash@));
                    assert(self.tx_claims_view() == old(self).tx_claims_view());
                }
                Err(UtxoConflictError::TransactionNotTracked(crate::bytes::copy_bytes(tx_hash)))
            },
        }
    }

    /// Whether the outpoint is claimed.
    pub fn is_claimed(&self, outpoint: &OutPoint) -> (b: bool)
        ensures
            b == self.claims_view().contains_key(outpoint_text(outpoint.tx_hash@, outpoint.index)),
    {
        claims_contains(&self.claims, &outpoint.to_string())
    }

    /// The claim on the outpoint, if any.
    pub fn get_claiming_transaction(&self, outpoint: &OutPoint) -> (r: Option<UtxoLock>)
        ensures
            match r {
                Some(l) => self.claims_view().contains_key(outpoint_text(outpoint.tx_hash@, outpoint.index))
                    && l.view() == self.claims_view()[outpoint_text(outpoint.tx_hash@, outpoint.index)],
                None => !self.claims_view().contains_key(outpoint_text(outpoint.tx_hash@, outpoint.index)),
            },
    {
        claims_get(&self.claims, &outpoint.to_string())
    }

    /// The claim keys the transaction holds, if it is tracked.
    pub fn get_transaction_claims(&self, tx_hash: &[u8]) -> (r: Option<Vec<String>>)
        ensures
            match r {
                Some(v) => self.tx_claims_view().contains_key(tx_hash@) && texts(v@) == self.tx_claims_view()[tx_hash@],
                None => !self.tx_claims_view().contains_key(tx_hash@),
            },
    {
        tx_claims_get(&self.tx_claims, tx_hash)
    }

    /// The outpoints spent by `tx` that are claimed, in input order.
    pub fn check_conflicts(&self, tx: &Transaction) -> (r: Result<Vec<OutPoint>, UtxoConflictError>)
        ensures
            r matches Ok(v) && v@.map_values(|o: OutPoint| (o.tx_hash@, o.index)) == claimed_outpoints(self.claims_view(), tx@.inputs),
    {
        let mut conflicts: Vec<OutPoint> = Vec::new();
        let mut i: usize = 0;
        while i < tx.inputs.len()
            invariant
                i <= tx@.inputs.len(),
                conflicts@.map_values(|o: OutPoint| (o.tx_hash@, o.index)) == claimed_outpoints(self.claims_view(), tx@.inputs.take(i as int)),
            decreases tx@.inputs.len() - i,
        {
            let input = &tx.inputs[i];
            let prev_tx_hash = bincode_encode_hash(&input.prev_tx.bytes);
            let outpoint = OutPoint::new(prev_tx_hash, input.index);
            proof {
                assert(tx@.inputs.take(i + 1).drop_last() =~= tx@.inputs.take(i as int));
                assert(tx@.inputs.take(i + 1).last() == input@);
            }
            if self.is_claimed(&outpoint) {
                let ghost before = conflicts@;
                conflicts.push(outpoint);
                proof {
                    assert(conflicts@.map_values(|o: OutPoint| (o.tx_hash@, o.index))
                        =~= before.map_values(|o: OutPoint| (o.tx_hash@, o.index)).push((hash_key_spec(input.prev_tx), input.index)));
                }
            }
            i = i + 1;
        }
        proof {
            assert(tx@.inputs.take(tx@.inputs.len() as int) =~= tx@.inputs);
        }
        Ok(conflicts)
    }

    /// The counters.
    pub fn get_stats(&self) -> (s: ConflictStats)
        ensures
            s == self.stats_view(),
    {
        self.stats
    }

    /// Drops every claim and every tracked transaction; the counters stay.
    pub fn clear_all(&mut self)
        ensures
            final(self).claims_view() == no_claims(),
            final(self).tx_claims_view() == no_tx_claims(),
            final(self).stats_view() == old(self).stats_view(),
    {
        claims_clear(&mut self.claims);
        tx_claims_clear(&mut self.tx_claims);
    }

    /// Number of claimed outputs.
    pub fn active_claims_count(&self) -> (n: usize)
        ensures
            n == self.claims_view().len(),
    {
        claims_len(&self.claims)
    }

    /// Number of tracked transactions.
    pub fn tracked_transactions_count(&self) -> (n: usize)
        ensures
            n == self.tx_claims_view().len(),
    {
        tx_claims_len(&self.tx_claims)
    }

    /// Replace-by-fee at time `now`: when `new_fee` is above `old_fee`, the
    /// old transaction's claims are released and the new one's registered;
    /// `Ok(false)`, with nothing changed, otherwise. An error of either step
    /// is returned as it came, the release standing when registration fails.
    pub fn attempt_rbf_replacement_at(&mut self, old_tx_hash: &[u8], new_tx: &Transaction, old_fee: u64, new_fee: u64, now: u64)
        -> (r: Result<bool, UtxoConflictError>)
        ensures
            new_fee <= old_fee ==> r == Ok::<bool, UtxoConflictError>(false) && *final(self) == *old(self),
            new_fee > old_fee && !old(self).tx_claims_view().contains_key(old_tx_hash@) ==> {
                &&& r matches Err(UtxoConflictError::TransactionNotTracked(h))
                &&& h@ == old_tx_hash@
                &&& final(self).claims_view() == old(self).claims_view()
                &&& final(self).tx_claims_view() == old(self).tx_claims_view()
                &&& final(self).stats_view() == old(self).stats_view()
            },
            new_fee > old_fee && old(self).tx_claims_view().contains_key(old_tx_hash@) ==> {
                let released = old(self).claims_view().remove_keys(old(self).tx_claims_view()[old_tx_hash@].to_set());
                let mid_tx = old(self).tx_claims_view().remove(old_tx_hash@);
                &&& (r is Ok ==> r == Ok::<bool, UtxoConflictError>(true))
                &&& exists|mid: UtxoTracker| {
                    &&& mid.claims_view() == released
                    &&& mid.tx_claims_view() == mid_tx
                    &&& mid.stats_view() == (ConflictStats {
                            claims_released: old(self).stats_view().claims_released.wrapping_add(1), ..old(self).stats_view() })
                    &&& registered(mid, *final(self), *new_tx, new_fee, now,
                            match r { Ok(_) => Ok(()), Err(e) => Err(e) })
                }
            },
    {
        if new_fee <= old_fee {
            return Ok(false);
        }
        match self.release_claims(old_tx_hash) {
            Err(e) => return Err(e),
            Ok(()) => {},
        }
        let ghost mid = *self;
        match self.register_claims_at(new_tx, new_fee, now) {
            Err(e) => {
                proof {
                    assert(registered(mid, *self, *new_tx, new_fee, now, Err(e)));
                }
                Err(e)
            },
            Ok(()) => {
                proof {
                    assert(registered(mid, *self, *new_tx, new_fee, now, Ok(())));
                }
                Ok(true)
            },
        }
    }

    /// Replace-by-fee at the current time.
    pub fn attempt_rbf_replacement(&mut self, old_tx_hash: &[u8], new_tx: &Transaction, old_fee: u64, new_fee: u64)
        -> (r: Result<bool, UtxoConflictError>)
        ensures
            new_fee <= old_fee ==> r == Ok::<bool, UtxoConflictError>(false) && *final(self) == *old(self),
            new_fee > old_fee && !old(self).tx_claims_view().contains_key(old_tx_hash@) ==> {
                &&& r matches Err(UtxoConflictError::TransactionNotTracked(h))
                &&& h@ == old_tx_hash@
                &&& final(self).claims_view() == old(self).claims_view()
                &&& final(self).tx_claims_view() == old(self).tx_claims_view()
            },
            new_fee > old_fee && old(self).tx_claims_view().contains_key(old_tx_hash@) ==> (r is Ok ==> r == Ok::<bool, UtxoConflictError>(true)),
    {
        let now = clock_unix_secs();
        self.attempt_rbf_replacement_at(old_tx_hash, new_tx, old_fee, new_fee, now)
    }
}

} // verus!
