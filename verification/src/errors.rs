//! The error taxonomy of the version-control engine.

use vstd::prelude::*;

verus! {

/// Every failure the engine can report.
#[derive(Clone, Copy, Debug, PartialEq, Eq, Structural)]
pub enum VcsError {
    /// `init` was run where a repository (or a foreign version-control
    /// root) already exists.
    AlreadyInitialized,
    /// A command other than `init` was run without a repository.
    NotInitialized,
    /// The persisted commit log could not be parsed.
    CorruptLog,
    /// The persisted version-record list of a file could not be parsed.
    CorruptMetadata,
    /// A requested byte range extends past the end of a blob.
    TruncatedStore,
    /// An underlying read, write or create failed.
    IOFailure,
}

} // verus!
