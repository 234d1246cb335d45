//! Error taxonomy of the backup engine.
//!
//! Store-integrity failures (`MissingAncestor`, `MissingBlob`) are kept
//! distinct from plain I/O faults so that an operator can tell store
//! corruption from a transient disk error.

use vstd::prelude::*;

verus! {

#[derive(Debug, Clone, PartialEq, Eq)]
pub enum MyError {
    /// A read, write or walk failed; fatal for the one file or operation.
    Io(String),
    /// A manifest or registry document could not be encoded or decoded.
    Serialization(String),
    /// A bad version index, unknown save id or malformed option,
    /// surfaced to the caller and never silently ignored.
    IllegalArgument { name: String, value: String, expected: String },
    /// An incremental version's chain reaches no full version.
    MissingAncestor,
    /// A referenced content hash has no blob in the store.
    MissingBlob,
    /// An operation needs a setting (such as a password) that is absent.
    NotConfigured,
}

pub type BackupResult<T> = Result<T, MyError>;

} // verus!
