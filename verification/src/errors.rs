//! The error taxonomy: validation failures are recovered locally, storage
//! failures during commit are fatal to the node.

use vstd::prelude::*;

verus! {

/// Why a transaction is rejected. Rejection never mutates committed state
/// and never aborts the block being processed.
#[derive(Debug, PartialEq, Eq, Structural, Clone, Copy)]
pub enum ValidationError {
    /// The payload is not a well-formed mutation encoding.
    Malformed,
    /// The sender's identity could not be authenticated.
    BadSignature,
    /// The nonce is not exactly one greater than the sender's last accepted
    /// nonce: a replay or a gap.
    InvalidNonce,
    /// A key exceeds the configured size limit.
    KeyTooLarge,
    /// A value exceeds the configured size limit.
    ValueTooLarge,
}

/// A durable-write fault. Fatal during commit: the bridge halts rather than
/// report a root digest it did not persist.
#[derive(Debug, PartialEq, Eq, Structural, Clone, Copy)]
pub enum StorageError {
    WriteFailed,
}

} // verus!
