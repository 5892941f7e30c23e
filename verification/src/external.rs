//! Calls into the outside crates and into the system clock, each with the
//! contract that the callers rely on.

use vstd::prelude::*;
use dashmap::DashMap;
use indexmap::IndexMap;

verus! {

/// `dashmap::DashMap`, a concurrent hash map, known to Verus only as a type.
#[verifier::external_type_specification]
#[verifier::external_body]
#[verifier::reject_recursive_types(K)]
#[verifier::reject_recursive_types(V)]
#[verifier::reject_recursive_types(S)]
pub struct ExDashMap<K, V, S>(DashMap<K, V, S>);

/// `indexmap::IndexMap`, a hash map that keeps its keys in insertion order,
/// known to Verus only as a type.
#[verifier::external_type_specification]
#[verifier::external_body]
#[verifier::reject_recursive_types(K)]
#[verifier::reject_recursive_types(V)]
#[verifier::reject_recursive_types(S)]
pub struct ExIndexMap<K, V, S>(IndexMap<K, V, S>);

/// Calls `bincode::serialize` on a 32-byte array. bincode 1.3 writes a fixed
/// array as a tuple, element by element, with no length prefix, and with the
/// default options (no size limit, writing into a `Vec`) it cannot fail: the
/// result is the 32 bytes themselves.
#[verifier::external_body]
pub(crate) fn bincode_encode_hash(bytes: &[u8; 32]) -> (r: Vec<u8>)
    ensures
        r@ == bytes@,
{
    bincode::serialize(bytes).unwrap_or_default()
}

/// Reads `std::time::SystemTime::now()` as whole seconds since the UNIX
/// epoch (zero if the clock is before the epoch). Nothing is stated of the
/// value: it is the time.
#[verifier::external_body]
pub(crate) fn clock_unix_secs() -> u64 {
    std::time::SystemTime::now().duration_since(std::time::UNIX_EPOCH).unwrap_or_default().as_secs()
}

/// Reads `std::time::SystemTime::now()` as whole nanoseconds since the UNIX
/// epoch, truncated to 64 bits as `as u64` does. Nothing is stated of the
/// value: it is the time.
#[verifier::external_body]
pub(crate) fn clock_unix_nanos() -> u64 {
    std::time::SystemTime::now().duration_since(std::time::UNIX_EPOCH).unwrap_or_default().as_nanos() as u64
}

} // verus!
