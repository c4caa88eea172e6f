//! The error cases a caller can observe. Every failure leaves the store
//! exactly as it was.

use vstd::prelude::*;

verus! {

/// Why an operation failed.
#[derive(Debug, Clone, Copy, PartialEq, Eq, Structural)]
pub enum StarsError {
    /// The owner was never cached, or a repository reference did not resolve.
    NotFound,
    /// The remote source reported a non-success status or a network failure.
    RemoteFetch,
    /// Embedding generation failed for a record, or produced vectors that do
    /// not pair one-to-one with the records.
    Embedding,
    /// A fetched payload could not be taken as a snapshot, such as two
    /// records sharing one id.
    MalformedRecord,
}

impl StarsError {
    /// A short description of the failure.
    pub fn message(&self) -> (r: String)
        ensures
            self is NotFound ==> r@ == "not found in cache"@,
            self is RemoteFetch ==> r@ == "remote fetch failed"@,
            self is Embedding ==> r@ == "embedding generation failed"@,
            self is MalformedRecord ==> r@ == "malformed record in snapshot"@,
    {
        match self {
            StarsError::NotFound => "not found in cache".to_owned(),
            StarsError::RemoteFetch => "remote fetch failed".to_owned(),
            StarsError::Embedding => "embedding generation failed".to_owned(),
            StarsError::MalformedRecord => "malformed record in snapshot".to_owned(),
        }
    }
}

} // verus!
