//! The decisions a pool makes while admitting a transaction, in the order it
//! makes them: the fee screens, the capacity checks, the verdict on
//! conflicting spends and the placement that input validation leads to.
//! The work between them (the admission controller, the per-source token
//! bucket, eviction, conflict detection, validation against the UTXO set) is
//! done by the caller, which hands each step the outcome.

use vstd::prelude::*;
use crate::pool::{FeeFilter, fee_rate_spec, apply_deterministic_supremacy, strongest};
use crate::bytes::seq_lt;
use crate::text::{dec_string, push_decimal};

verus! {

/// Why a transaction is turned away.
#[derive(Clone, Copy, Debug, PartialEq, Eq, Structural)]
pub enum AdmissionError {
    /// The admission controller refused it
    ResourceConstraints,
    /// Its fee per byte is under the density its size asks for
    FeeDensityTooLow { fee_rate: u64, minimum: u64, size_bytes: usize },
    /// Its fee per byte is under the fee filter's threshold
    BelowMinimumFee { fee_rate: u64, threshold: u64 },
    /// Its source has used up its allowance
    RateLimited,
    /// The pool holds its maximum number of transactions
    PoolFull { max_pool_size: usize },
    /// Eviction freed less weight than it needs
    CannotFit { needed: u64, freed: u64 },
    /// A transaction it conflicts with outranks it
    OutrankedByConflict,
    /// Validation found one of its inputs already spent
    DoubleSpent,
    /// Validation found no output for the input at this position
    InputNotFound(usize),
    /// Validation itself failed
    ValidationFailed,
    /// Its weight does not fit under the memory limit
    MemoryLimitExceeded,
    /// The orphan pool is full and has nothing it may evict
    OrphanPoolFull,
    /// The deterministic ordering has no bucket for its fee rate
    OrderingRejected,
}

/// The message a refusal is answered with.
pub open spec fn admission_text(e: AdmissionError) -> Seq<char> {
    match e {
        AdmissionError::ResourceConstraints => "Transaction rejected due to resource constraints"@,
        AdmissionError::FeeDensityTooLow { fee_rate, minimum, size_bytes } =>
            "Fee density too low: "@ + dec_string(fee_rate as nat) + " sat/byte, minimum "@ + dec_string(minimum as nat)
                + " sat/byte for "@ + dec_string(size_bytes as nat) + " bytes"@,
        AdmissionError::BelowMinimumFee { fee_rate, threshold } =>
            "Transaction fee rate "@ + dec_string(fee_rate as nat) + " sat/B below current minimum "@
                + dec_string(threshold as nat) + " sat/B"@,
        AdmissionError::RateLimited => "Rate limit exceeded for source"@,
        AdmissionError::PoolFull { max_pool_size } => "Pool size limit reached (max "@ + dec_string(max_pool_size as nat) + ")"@,
        AdmissionError::CannotFit { needed, freed } =>
            "Cannot fit transaction (need "@ + dec_string(needed as nat) + " bytes, freed only "@ + dec_string(freed as nat)
                + " bytes)"@,
        AdmissionError::OutrankedByConflict => "Transaction rejected due to conflict with higher-priority transaction"@,
        AdmissionError::DoubleSpent => "Transaction is double-spending"@,
        AdmissionError::InputNotFound(i) => "Input "@ + dec_string(i as nat) + " not found in UTXO set"@,
        AdmissionError::ValidationFailed => "Validation error"@,
        AdmissionError::MemoryLimitExceeded => "Transaction would exceed memory limit"@,
        AdmissionError::OrphanPoolFull => "No transaction available for eviction"@,
        AdmissionError::OrderingRejected => "Deterministic ordering error: No suitable bucket for fee rate"@,
    }
}

impl AdmissionError {
    /// The message this refusal is answered with.
    pub fn message(&self) -> (m: String)
        ensures
            m@ == admission_text(*self),
    {
        let mut m = String::new();
        match *self {
            AdmissionError::ResourceConstraints => {
                m.append("Transaction rejected due to resource constraints");
                proof { reveal_strlit("Transaction rejected due to resource constraints"); }
            },
            AdmissionError::FeeDensityTooLow { fee_rate, minimum, size_bytes } => {
                m.append("Fee density too low: ");
                push_decimal(&mut m, fee_rate);
                m.append(" sat/byte, minimum ");
                push_decimal(&mut m, minimum);
                m.append(" sat/byte for ");
                push_decimal(&mut m, size_bytes as u64);
                m.append(" bytes");
                proof {
                    reveal_strlit("Fee density too low: ");
                    reveal_strlit(" sat/byte, minimum ");
                    reveal_strlit(" sat/byte for ");
                    reveal_strlit(" bytes");
                }
            },
            AdmissionError::BelowMinimumFee { fee_rate, threshold } => {
                m.append("Transaction fee rate ");
                push_decimal(&mut m, fee_rate);
                m.append(" sat/B below current minimum ");
                push_decimal(&mut m, threshold);
                m.append(" sat/B");
                proof {
                    reveal_strlit("Transaction fee rate ");
                    reveal_strlit(" sat/B below current minimum ");
                    reveal_strlit(" sat/B");
                }
            },
            AdmissionError::RateLimited => {
                m.append("Rate limit exceeded for source");
                proof { reveal_strlit("Rate limit exceeded for source"); }
            },
            AdmissionError::PoolFull { max_pool_size } => {
                m.append("Pool size limit reached (max ");
                push_decimal(&mut m, max_pool_size as u64);
                m.append(")");
                proof {
                    reveal_strlit("Pool size limit reached (max ");
                    reveal_strlit(")");
                }
            },
            AdmissionError::CannotFit { needed, freed } => {
                m.append("Cannot fit transaction (need ");
                push_decimal(&mut m, needed);
                m.append(" bytes, freed only ");
                push_decimal(&mut m, freed);
                m.append(" bytes)");
                proof {
                    reveal_strlit("Cannot fit transaction (need ");
                    reveal_strlit(" bytes, freed only ");
                    reveal_strlit(" bytes)");
                }
            },
            AdmissionError::OutrankedByConflict => {
                m.append("Transaction rejected due to conflict with higher-priority transaction");
                proof { reveal_strlit("Transaction rejected due to conflict with higher-priority transaction"); }
            },
            AdmissionError::DoubleSpent => {
                m.append("Transaction is double-spending");
                proof { reveal_strlit("Transaction is double-spending"); }
            },
            AdmissionError::InputNotFound(i) => {
                m.append("Input ");
                push_decimal(&mut m, i as u64);
                m.append(" not found in UTXO set");
                proof {
                    reveal_strlit("Input ");
                    reveal_strlit(" not found in UTXO set");
                }
            },
            AdmissionError::ValidationFailed => {
                m.append("Validation error");
                proof { reveal_strlit("Validation error"); }
            },
            AdmissionError::MemoryLimitExceeded => {
                m.append("Transaction would exceed memory limit");
                proof { reveal_strlit("Transaction would exceed memory limit"); }
            },
            AdmissionError::OrphanPoolFull => {
                m.append("No transaction available for eviction");
                proof { reveal_strlit("No transaction available for eviction"); }
            },
            AdmissionError::OrderingRejected => {
                m.append("Deterministic ordering error: No suitable bucket for fee rate");
                proof { reveal_strlit("Deterministic ordering error: No suitable bucket for fee rate"); }
            },
        }
        proof {
            reveal_strlit("");
        }
        m
    }
}

/// The smallest fee per byte accepted for a transaction of `size_bytes`:
/// 1 under 1000 bytes, 2 under 10000 bytes, 5 from there on.
pub open spec fn min_density_spec(size_bytes: usize) -> u64 {
    if size_bytes < 1000 {
        1
    } else if size_bytes < 10000 {
        2
    } else {
        5
    }
}

pub fn min_fee_density(size_bytes: usize) -> (m: u64)
    ensures
        m == min_density_spec(size_bytes),
{
    if size_bytes < 1000 {
        1
    } else if size_bytes < 10000 {
        2
    } else {
        5
    }
}

/// Checks that `fee_rate` meets the density a transaction of `size_bytes`
/// needs; a transaction of no size passes.
pub fn check_fee_density(fee_rate: u64, size_bytes: usize) -> (r: Result<(), AdmissionError>)
    ensures
        r is Ok <==> (size_bytes == 0 || fee_rate >= min_density_spec(size_bytes)),
        r is Err ==> r == Err::<(), AdmissionError>(
            AdmissionError::FeeDensityTooLow { fee_rate, minimum: min_density_spec(size_bytes), size_bytes }),
{
    if size_bytes == 0 {
        return Ok(());
    }
    let minimum = min_fee_density(size_bytes);
    if fee_rate < minimum {
        return Err(AdmissionError::FeeDensityTooLow { fee_rate, minimum, size_bytes });
    }
    Ok(())
}

/// The fee filter's threshold once brought up to date for a pool of `n`
/// out of `max` at time `now`.
pub open spec fn threshold_now(f: FeeFilter, n: usize, max: usize, now: u64) -> u64 {
    if f.update_applies(max, now) {
        f.threshold_after(n, max)
    } else {
        f.threshold()
    }
}

/// What the fee screens give: the fee rate, or the first refusal.
pub open spec fn screen_outcome(f: FeeFilter, total_fee: u64, size_bytes: usize, resources_admit: bool, multiplier: u64,
    n: usize, max: usize, now: u64) -> Result<u64, AdmissionError> {
    let rate = fee_rate_spec(total_fee, size_bytes);
    let effective = (rate * multiplier) as u64;
    if !resources_admit {
        Err(AdmissionError::ResourceConstraints)
    } else if !(size_bytes == 0 || effective >= min_density_spec(size_bytes)) {
        Err(AdmissionError::FeeDensityTooLow { fee_rate: effective, minimum: min_density_spec(size_bytes), size_bytes })
    } else if rate < threshold_now(f, n, max, now) {
        Err(AdmissionError::BelowMinimumFee { fee_rate: rate, threshold: threshold_now(f, n, max, now) })
    } else {
        Ok(rate)
    }
}

/// The fee screens admit exactly what pays enough: the result is `Ok`
/// with the plain fee rate (fee over size, rounded down) only when the
/// admission controller admits, the multiplied rate meets the density for
/// the size (at least 1 per byte under 1000 bytes, 2 under 10000 bytes, 5
/// from there on; nothing for an empty transaction), and the plain rate
/// is at least the fee filter's threshold; a rate exactly at a minimum
/// passes.
pub proof fn lemma_screens_admit_what_pays(f: FeeFilter, total_fee: u64, size_bytes: usize, resources_admit: bool,
    multiplier: u64, n: usize, max: usize, now: u64)
    requires
        resources_admit ==> fee_rate_spec(total_fee, size_bytes) * multiplier <= u64::MAX,
    ensures
        ({
            let rate: int = if size_bytes == 0 { 0 } else { total_fee as int / size_bytes as int };
            let effective = rate * multiplier;
            let density: int = if size_bytes < 1000 { 1 } else if size_bytes < 10000 { 2 } else { 5 };
            let r = screen_outcome(f, total_fee, size_bytes, resources_admit, multiplier, n, max, now);
            &&& r is Ok <==> (resources_admit && (size_bytes == 0 || effective >= density)
                && rate >= threshold_now(f, n, max, now))
            &&& r is Ok ==> r->Ok_0 == rate
        }),
{
}

/// The fee screens, in order: the admission controller's verdict
/// (`resources_admit`, and the `multiplier` it puts on the fee rate), the
/// density of the multiplied rate, then the fee filter, which is first
/// brought up to date for a pool of `pool_size` out of `max_pool_size` at
/// time `now` and then asked about the plain fee rate. Returns the fee rate.
pub fn screen_fees(
    filter: &mut FeeFilter,
    total_fee: u64,
    size_bytes: usize,
    resources_admit: bool,
    multiplier: u64,
    pool_size: usize,
    max_pool_size: usize,
    now: u64,
) -> (r: Result<u64, AdmissionError>)
    requires
        resources_admit ==> fee_rate_spec(total_fee, size_bytes) * multiplier <= u64::MAX,
    ensures
        ({
            let rate = fee_rate_spec(total_fee, size_bytes);
            let effective = (rate * multiplier) as u64;
            if !resources_admit {
                &&& r == Err::<u64, AdmissionError>(AdmissionError::ResourceConstraints)
                &&& *final(filter) == *old(filter)
            } else if !(size_bytes == 0 || effective >= min_density_spec(size_bytes)) {
                &&& r == Err::<u64, AdmissionError>(
                    AdmissionError::FeeDensityTooLow { fee_rate: effective, minimum: min_density_spec(size_bytes), size_bytes })
                &&& *final(filter) == *old(filter)
            } else {
                &&& final(filter).base_fee() == old(filter).base_fee()
                &&& final(filter).bump_percent() == old(filter).bump_percent()
                &&& (old(filter).update_applies(max_pool_size, now) ==> final(filter).threshold()
                    == old(filter).threshold_after(pool_size, max_pool_size)
                    && final(filter).last_update_time() == now)
                &&& (!old(filter).update_applies(max_pool_size, now) ==> final(filter).threshold()
                    == old(filter).threshold()
                    && final(filter).last_update_time() == old(filter).last_update_time())
                &&& if rate < final(filter).threshold() {
                    r == Err::<u64, AdmissionError>(AdmissionError::BelowMinimumFee { fee_rate: rate, threshold: final(filter).threshold() })
                } else {
                    r == Ok::<u64, AdmissionError>(rate)
                }
            }
        }),
        r == screen_outcome(*old(filter), total_fee, size_bytes, resources_admit, multiplier, pool_size, max_pool_size, now),
        final(filter).threshold() == threshold_now(*old(filter), pool_size, max_pool_size, now)
            || r == Err::<u64, AdmissionError>(AdmissionError::ResourceConstraints) || r is Err && *final(filter) == *old(filter),
{
    let rate: u64 = if size_bytes > 0 { total_fee / (size_bytes as u64) } else { 0 };
    if !resources_admit {
        return Err(AdmissionError::ResourceConstraints);
    }
    let effective = rate * multiplier;
    match check_fee_density(effective, size_bytes) {
        Err(e) => {
            return Err(e);
        },
        Ok(()) => {},
    }
    filter.update_threshold_at(pool_size, max_pool_size, now);
    let threshold = filter.current_threshold();
    if rate < threshold {
        return Err(AdmissionError::BelowMinimumFee { fee_rate: rate, threshold });
    }
    Ok(rate)
}

/// The capacity checks, in order: the source's allowance, then the pool's
/// size limit.
pub fn check_capacity(within_rate_limit: bool, pool_size: usize, max_pool_size: usize) -> (r: Result<(), AdmissionError>)
    ensures
        !within_rate_limit ==> r == Err::<(), AdmissionError>(AdmissionError::RateLimited),
        within_rate_limit && pool_size >= max_pool_size ==> r == Err::<(), AdmissionError>(AdmissionError::PoolFull { max_pool_size }),
        within_rate_limit && pool_size < max_pool_size ==> r is Ok,
{
    if !within_rate_limit {
        return Err(AdmissionError::RateLimited);
    }
    if pool_size >= max_pool_size {
        return Err(AdmissionError::PoolFull { max_pool_size });
    }
    Ok(())
}

/// After eviction was asked to make room for `needed` weight and freed
/// `freed`: fails when that is not enough.
pub fn check_freed_space(needed: u64, freed: u64) -> (r: Result<(), AdmissionError>)
    ensures
        freed < needed ==> r == Err::<(), AdmissionError>(AdmissionError::CannotFit { needed, freed }),
        freed >= needed ==> r is Ok,
{
    if freed < needed {
        return Err(AdmissionError::CannotFit { needed, freed });
    }
    Ok(())
}

/// The verdict on the spends the new transaction shares with transactions
/// in the pool, given each of those as its hash and effective fee rate:
/// `Ok(true)` when there is a double spend and the new transaction outranks
/// the strongest of them, so they are to be evicted; `Ok(false)` when there
/// is no double spend; refused when the strongest outranks it.
pub fn resolve_spend_conflicts(
    new_tx_hash: &[u8],
    fee_rate: u64,
    has_double_spend: bool,
    conflicting: &Vec<(Vec<u8>, u64)>,
) -> (r: Result<bool, AdmissionError>)
    ensures
        !has_double_spend ==> r == Ok::<bool, AdmissionError>(false),
        has_double_spend && conflicting@.len() == 0 ==> r == Ok::<bool, AdmissionError>(true),
        has_double_spend && conflicting@.len() > 0 ==> ({
            let b = strongest(conflicting@.map_values(|c: (Vec<u8>, u64)| (c.0@, c.1)));
            if fee_rate > b.1 || (fee_rate == b.1 && seq_lt(new_tx_hash@, b.0)) {
                r == Ok::<bool, AdmissionError>(true)
            } else {
                r == Err::<bool, AdmissionError>(AdmissionError::OutrankedByConflict)
            }
        }),
{
    if !has_double_spend {
        return Ok(false);
    }
    match apply_deterministic_supremacy(new_tx_hash, fee_rate, conflicting) {
        Ok(true) => Ok(true),
        _ => Err(AdmissionError::OutrankedByConflict),
    }
}

/// What validation against the UTXO set said of the inputs.
#[derive(Clone, Debug)]
pub enum ValidationVerdict {
    Valid,
    /// The positions of the inputs whose outputs are not known yet
    MissingInputs(Vec<usize>),
    DoubleSpent,
    InputNotFound(usize),
    Failed,
}

/// Where an admitted transaction goes.
#[derive(Clone, Debug)]
pub enum Placement {
    MainPool,
    /// The orphan pool, waiting for the inputs at these positions
    OrphanPool(Vec<usize>),
}

/// The placement that validation leads to; without a validator the
/// transaction goes to the main pool.
pub fn place_after_validation(verdict: Option<ValidationVerdict>) -> (r: Result<Placement, AdmissionError>)
    ensures
        match verdict {
            None => r matches Ok(Placement::MainPool),
            Some(ValidationVerdict::Valid) => r matches Ok(Placement::MainPool),
            Some(ValidationVerdict::MissingInputs(m)) => r matches Ok(Placement::OrphanPool(p)) && p@ == m@,
            Some(ValidationVerdict::DoubleSpent) => r == Err::<Placement, AdmissionError>(AdmissionError::DoubleSpent),
            Some(ValidationVerdict::InputNotFound(i)) => r == Err::<Placement, AdmissionError>(AdmissionError::InputNotFound(i)),
            Some(ValidationVerdict::Failed) => r == Err::<Placement, AdmissionError>(AdmissionError::ValidationFailed),
        },
{
    match verdict {
        None => Ok(Placement::MainPool),
        Some(ValidationVerdict::Valid) => Ok(Placement::MainPool),
        Some(ValidationVerdict::MissingInputs(m)) => Ok(Placement::OrphanPool(m)),
        Some(ValidationVerdict::DoubleSpent) => Err(AdmissionError::DoubleSpent),
        Some(ValidationVerdict::InputNotFound(i)) => Err(AdmissionError::InputNotFound(i)),
        Some(ValidationVerdict::Failed) => Err(AdmissionError::ValidationFailed),
    }
}

} // verus!
