//! Picking transactions for an ordering from a candidate list already in
//! priority order: up to a limit, skipping those under the minimum fee rate,
//! those with an ancestor not picked before them, and (when asked) those
//! spending an output that is neither on chain nor made by a pool
//! transaction.

use vstd::prelude::*;
use crate::conflict::OutPoint;
use crate::keyed::{KeySet, KeyOps, key_views, list_contains};
use crate::bytes::copy_bytes;

verus! {

/// A candidate with what the pick looks at.
pub struct OrderingCandidate {
    pub tx_hash: Vec<u8>,
    /// Fee per byte
    pub fee_rate: u64,
    /// The ancestors on record; `None` when the dependency manager has none
    pub ancestors: Option<Vec<Vec<u8>>>,
    /// The outputs it spends
    pub inputs: Vec<OutPoint>,
}

/// A candidate as a value.
pub struct CandidateView {
    pub tx_hash: Seq<u8>,
    pub fee_rate: u64,
    pub ancestors: Option<Seq<Seq<u8>>>,
    pub inputs: Seq<(Seq<u8>, u32)>,
}

impl View for OrderingCandidate {
    type V = CandidateView;

    open spec fn view(&self) -> CandidateView {
        CandidateView {
            tx_hash: self.tx_hash@,
            fee_rate: self.fee_rate,
            ancestors: match self.ancestors {
                Some(a) => Some(key_views(a@)),
                None => None,
            },
            inputs: key_views(self.inputs@),
        }
    }
}

/// The transactions picked and how many were turned away, and why.
pub struct OrderingSelection {
    pub selected: Vec<Vec<u8>>,
    pub rejected_low_fee: u64,
    pub rejected_validation: u64,
    pub rejected_missing_parents: u64,
}

/// A pick in progress.
pub struct PickState {
    pub selected: Seq<Seq<u8>>,
    pub low_fee: nat,
    pub invalid: nat,
    pub missing_parents: nat,
}

/// Every ancestor on record was picked already.
pub open spec fn ancestors_picked(c: CandidateView, selected: Seq<Seq<u8>>) -> bool {
    match c.ancestors {
        Some(a) => forall|i: int| 0 <= i < a.len() ==> selected.contains(#[trigger] a[i]),
        None => true,
    }
}

/// Every spent output is on chain or made by a pool transaction.
pub open spec fn inputs_available(c: CandidateView, on_chain: Set<(Seq<u8>, u32)>, in_pool: Set<Seq<u8>>) -> bool {
    forall|i: int| 0 <= i < c.inputs.len() ==> on_chain.contains(#[trigger] c.inputs[i]) || in_pool.contains(c.inputs[i].0)
}

/// One candidate looked at: nothing happens once the limit is reached or
/// when the candidate is unknown; otherwise it is turned away for its fee
/// rate, a missing ancestor or an unavailable input, in that order, or picked.
pub open spec fn pick_step(st: PickState, c: Option<CandidateView>, limit: usize, min_fee_rate: u64, validate_utxo: bool,
    on_chain: Set<(Seq<u8>, u32)>, in_pool: Set<Seq<u8>>) -> PickState {
    if st.selected.len() >= limit {
        st
    } else {
        match c {
            None => st,
            Some(c) => if c.fee_rate < min_fee_rate {
                PickState { low_fee: st.low_fee + 1, ..st }
            } else if !ancestors_picked(c, st.selected) {
                PickState { missing_parents: st.missing_parents + 1, ..st }
            } else if validate_utxo && !inputs_available(c, on_chain, in_pool) {
                PickState { invalid: st.invalid + 1, ..st }
            } else {
                PickState { selected: st.selected.push(c.tx_hash), ..st }
            },
        }
    }
}

/// The candidates looked at in order.
pub open spec fn pick_run(cs: Seq<Option<CandidateView>>, limit: usize, min_fee_rate: u64, validate_utxo: bool,
    on_chain: Set<(Seq<u8>, u32)>, in_pool: Set<Seq<u8>>) -> PickState
    decreases cs.len(),
{
    if cs.len() == 0 {
        PickState { selected: Seq::empty(), low_fee: 0, invalid: 0, missing_parents: 0 }
    } else {
        pick_step(pick_run(cs.drop_last(), limit, min_fee_rate, validate_utxo, on_chain, in_pool), cs.last(),
            limit, min_fee_rate, validate_utxo, on_chain, in_pool)
    }
}

/// The candidates as values.
pub open spec fn candidate_views(cs: Seq<Option<OrderingCandidate>>) -> Seq<Option<CandidateView>> {
    cs.map_values(|c: Option<OrderingCandidate>| match c {
        Some(c) => Some(c@),
        None => None,
    })
}

fn ancestors_in(c: &OrderingCandidate, selected: &Vec<Vec<u8>>) -> (b: bool)
    ensures
        b == ancestors_picked(c@, key_views(selected@)),
{
    match &c.ancestors {
        None => true,
        Some(a) => {
            let mut i: usize = 0;
            while i < a.len()
                invariant
                    i <= a@.len(),
                    c@.ancestors == Some(key_views(a@)),
                    forall|j: int| 0 <= j < i ==> key_views(selected@).contains(#[trigger] key_views(a@)[j]),
                decreases a@.len() - i,
            {
                if !list_contains(selected, a[i].as_slice()) {
                    proof {
                        assert(key_views(a@)[i as int] == a@[i as int]@);
                        let av = key_views(a@);
                        assert(c@.ancestors == Some(av));
                        assert(!key_views(selected@).contains(av[i as int]));
                        let cv = c@;
                        assert(cv.ancestors is Some);
                        assert(cv.ancestors->0 == av);
                        assert(!key_views(selected@).contains(cv.ancestors->0[i as int]));
                        assert(0 <= i < cv.ancestors->0.len());
                    }
                    return false;
                }
                i = i + 1;
            }
            true
        },
    }
}

fn inputs_in(c: &OrderingCandidate, on_chain: &KeySet<OutPoint>, in_pool: &KeySet<Vec<u8>>) -> (b: bool)
    requires
        on_chain.wf(),
        in_pool.wf(),
    ensures
        b == inputs_available(c@, on_chain@, in_pool@),
{
    let mut i: usize = 0;
    while i < c.inputs.len()
        invariant
            on_chain.wf(),
            in_pool.wf(),
            i <= c.inputs@.len(),
            forall|j: int| 0 <= j < i ==> on_chain@.contains(#[trigger] key_views(c.inputs@)[j])
                || in_pool@.contains(key_views(c.inputs@)[j].0),
        decreases c.inputs@.len() - i,
    {
        let op = &c.inputs[i];
        proof {
            assert(key_views(c.inputs@)[i as int] == op@);
        }
        if !(on_chain.contains(op) || in_pool.contains(&op.tx_hash)) {
            proof {
                assert(c@.inputs[i as int] == op@);
                assert(!(on_chain@.contains(c@.inputs[i as int]) || in_pool@.contains(c@.inputs[i as int].0)));
            }
            return false;
        }
        i = i + 1;
    }
    true
}

/// Picks from `candidates` (already in priority order) up to `limit`
/// transactions: a candidate under `min_fee_rate`, or with an ancestor not
/// picked before it, or (with `validate_utxo`) spending an output that is
/// neither in `on_chain` nor made by a transaction in `in_pool`, is turned
/// away and counted; an unknown candidate (`None`) is passed over.
pub fn select_ordered(
    candidates: &Vec<Option<OrderingCandidate>>,
    limit: usize,
    min_fee_rate: u64,
    validate_utxo: bool,
    on_chain: &KeySet<OutPoint>,
    in_pool: &KeySet<Vec<u8>>,
) -> (r: OrderingSelection)
    requires
        on_chain.wf(),
        in_pool.wf(),
    ensures
        ({
            let st = pick_run(candidate_views(candidates@), limit, min_fee_rate, validate_utxo, on_chain@, in_pool@);
            &&& key_views(r.selected@) == st.selected
            &&& r.rejected_low_fee == st.low_fee
            &&& r.rejected_validation == st.invalid
            &&& r.rejected_missing_parents == st.missing_parents
        }),
{
    let ghost cs = candidate_views(candidates@);
    let mut selected: Vec<Vec<u8>> = Vec::new();
    let mut low: u64 = 0;
    let mut invalid: u64 = 0;
    let mut missing: u64 = 0;
    let mut i: usize = 0;
    proof {
        assert(cs.take(0) =~= Seq::<Option<CandidateView>>::empty());
        assert(key_views(selected@) =~= Seq::<Seq<u8>>::empty());
    }
    while i < candidates.len()
        invariant
            on_chain.wf(),
            in_pool.wf(),
            cs == candidate_views(candidates@),
            i <= cs.len(),
            low + invalid + missing + selected@.len() <= i,
            ({
                let st = pick_run(cs.take(i as int), limit, min_fee_rate, validate_utxo, on_chain@, in_pool@);
                &&& key_views(selected@) == st.selected
                &&& low == st.low_fee
                &&& invalid == st.invalid
                &&& missing == st.missing_parents
            }),
        decreases cs.len() - i,
    {
        proof {
            assert(cs.take(i + 1).drop_last() =~= cs.take(i as int));
            assert(cs.take(i + 1).last() == cs[i as int]);
        }
        if selected.len() < limit {
            match &candidates[i] {
                None => {},
                Some(c) => {
                    proof {
                        assert(cs[i as int] == Some(c@));
                    }
                    if c.fee_rate < min_fee_rate {
                        low = low + 1;
                    } else if !ancestors_in(c, &selected) {
                        missing = missing + 1;
                    } else if validate_utxo && !inputs_in(c, on_chain, in_pool) {
                        invalid = invalid + 1;
                    } else {
                        let ghost s0 = key_views(selected@);
                        selected.push(copy_bytes(c.tx_hash.as_slice()));
                        proof {
                            assert(key_views(selected@) =~= s0.push(c@.tx_hash));
                        }
                    }
                },
            }
        }
        i = i + 1;
    }
    proof {
        assert(cs.take(cs.len() as int) =~= cs);
    }
    OrderingSelection { selected, rejected_low_fee: low, rejected_validation: invalid, rejected_missing_parents: missing }
}

/// How looking at one more candidate changes a pick. While under the
/// limit, a known candidate at or above the minimum fee rate, with every
/// ancestor on record picked and (when validating) every input available,
/// is picked and nothing is counted against it; one below the minimum fee
/// rate is counted as low fee and not picked; the low-fee count grows only
/// for a known candidate below the minimum fee rate looked at under the
/// limit; at the limit, or for an unknown candidate, nothing changes.
pub proof fn lemma_pick_next(cs: Seq<Option<CandidateView>>, c: Option<CandidateView>, limit: usize, min_fee_rate: u64,
    validate_utxo: bool, on_chain: Set<(Seq<u8>, u32)>, in_pool: Set<Seq<u8>>)
    ensures
        ({
            let before = pick_run(cs, limit, min_fee_rate, validate_utxo, on_chain, in_pool);
            let after = pick_run(cs.push(c), limit, min_fee_rate, validate_utxo, on_chain, in_pool);
            &&& (before.selected.len() < limit && c is Some && c->Some_0.fee_rate >= min_fee_rate
                && ancestors_picked(c->Some_0, before.selected)
                && (validate_utxo ==> inputs_available(c->Some_0, on_chain, in_pool)))
                ==> after.selected == before.selected.push(c->Some_0.tx_hash) && after.low_fee == before.low_fee
                    && after.invalid == before.invalid && after.missing_parents == before.missing_parents
            &&& (before.selected.len() < limit && c is Some && c->Some_0.fee_rate < min_fee_rate)
                ==> after.low_fee == before.low_fee + 1 && after.selected == before.selected
            &&& after.low_fee > before.low_fee
                ==> before.selected.len() < limit && c is Some && c->Some_0.fee_rate < min_fee_rate
            &&& (before.selected.len() < limit && c is Some && c->Some_0.fee_rate >= min_fee_rate
                && !ancestors_picked(c->Some_0, before.selected))
                ==> after.missing_parents == before.missing_parents + 1 && after.selected == before.selected
                    && after.low_fee == before.low_fee
            &&& (before.selected.len() < limit && c is Some && c->Some_0.fee_rate >= min_fee_rate
                && ancestors_picked(c->Some_0, before.selected) && validate_utxo
                && !inputs_available(c->Some_0, on_chain, in_pool))
                ==> after.invalid == before.invalid + 1 && after.selected == before.selected
                    && after.low_fee == before.low_fee
            &&& after.selected.len() <= before.selected.len() + 1
            &&& before.selected.is_prefix_of(after.selected)
            &&& (before.selected.len() >= limit || c is None) ==> after == before
        }),
{
    assert(cs.push(c).drop_last() =~= cs);
    assert(cs.push(c).last() == c);
}

/// The `k`-th pick of `sel` is a known candidate at or above the minimum
/// fee rate whose ancestors on record were all picked before it.
pub open spec fn picked_from(cs: Seq<Option<CandidateView>>, sel: Seq<Seq<u8>>, k: int, min_fee_rate: u64) -> bool {
    exists|j: int| 0 <= j < cs.len() && (#[trigger] cs[j]) is Some
        && cs[j]->0.tx_hash == sel[k]
        && cs[j]->0.fee_rate >= min_fee_rate
        && ancestors_picked(cs[j]->0, sel.take(k))
}

/// A pick holds at most `limit` transactions, each at or above the minimum
/// fee rate and with every ancestor on record picked before it.
pub proof fn lemma_pick_respects_limits(cs: Seq<Option<CandidateView>>, limit: usize, min_fee_rate: u64, validate_utxo: bool,
    on_chain: Set<(Seq<u8>, u32)>, in_pool: Set<Seq<u8>>)
    ensures
        pick_run(cs, limit, min_fee_rate, validate_utxo, on_chain, in_pool).selected.len() <= limit,
        forall|k: int| 0 <= k < pick_run(cs, limit, min_fee_rate, validate_utxo, on_chain, in_pool).selected.len()
            ==> #[trigger] picked_from(cs, pick_run(cs, limit, min_fee_rate, validate_utxo, on_chain, in_pool).selected, k, min_fee_rate),
    decreases cs.len(),
{
    if cs.len() > 0 {
        let p = cs.drop_last();
        lemma_pick_respects_limits(p, limit, min_fee_rate, validate_utxo, on_chain, in_pool);
        let s0 = pick_run(p, limit, min_fee_rate, validate_utxo, on_chain, in_pool).selected;
        let s1 = pick_run(cs, limit, min_fee_rate, validate_utxo, on_chain, in_pool).selected;
        assert forall|k: int| 0 <= k < s1.len() implies #[trigger] picked_from(cs, s1, k, min_fee_rate) by {
            if k < s0.len() {
                assert(s1[k] == s0[k]);
                assert(s1.take(k) =~= s0.take(k));
                assert(picked_from(p, s0, k, min_fee_rate));
                let j = choose|j: int| 0 <= j < p.len() && (#[trigger] p[j]) is Some
                    && p[j]->0.tx_hash == s0[k] && p[j]->0.fee_rate >= min_fee_rate && ancestors_picked(p[j]->0, s0.take(k));
                assert(cs[j] == p[j]);
            } else {
                let j = cs.len() - 1;
                assert(s1.take(k) =~= s0);
                assert(cs[j] == cs.last());
            }
        }
    }
}

} // verus!
