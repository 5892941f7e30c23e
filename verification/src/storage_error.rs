//! Errors of the mempool operations that stand on the node's store.

use vstd::prelude::*;

verus! {

/// Why a store-backed operation failed.
#[derive(Clone, Debug, PartialEq, Eq)]
pub enum StorageError {
    /// A value could not be encoded or decoded
    SerializationError(String),
    /// The operation was refused
    OperationFailed(String),
}

} // verus!
