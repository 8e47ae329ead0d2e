//! The error taxonomy of the compression-and-proof core.

use vstd::prelude::*;

verus! {

/// Error kinds of the compression-and-proof core.
#[derive(Clone, Copy, PartialEq, Eq, Debug)]
pub enum ErrorKind {
    /// Transport or storage I/O failure; retryable.
    Io,
    /// Chain source unavailable or malformed response; retryable.
    Rpc,
    /// Malformed payload on decompress; data corruption, not retryable.
    Compression,
    /// Proof synthesis failed; not retryable without a corrected witness.
    Proof,
    /// Persistence failure; retryable at slot granularity.
    Database,
}

} // verus!
