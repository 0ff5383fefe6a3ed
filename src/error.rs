//! Errors produced while collecting repository metadata.
use vstd::prelude::*;

verus! {

/// Why one target, or the whole run, could not be completed.
#[derive(Debug, Clone, Copy, PartialEq, Eq, Structural)]
pub enum CollectError {
    /// No authenticated client is available for a live fetch.
    NoCredentials,
    /// A sub-query answered with a non-success status.
    UpstreamRequestFailed,
    /// A response did not have the expected shape.
    ResponseParseFailed,
    /// The persisted cache could not be read (never fatal).
    CacheReadFailed,
    /// The collected data could not be persisted (fatal).
    CacheWriteFailed,
    /// A repository url does not name an owner and a repository.
    InvalidRepositoryUrl,
}

} // verus!
