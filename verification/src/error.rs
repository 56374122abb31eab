//! The error kinds that the library reports.

use vstd::prelude::*;

verus! {

/// Why an operation failed.
#[derive(Debug, Clone, Copy, PartialEq, Eq, Structural)]
pub enum SnapshotError {
    /// A snapshot, a repository index file or an identifier is missing.
    NotFound,
    /// Bytes or a decoded tree do not have the expected shape.
    InvalidFormat,
    /// A read or a seek on a backing file failed.
    Io,
    /// The operation needs a file and was given a directory.
    IsADirectory,
    /// The operation needs a directory and was given a file.
    NotADirectory,
}

} // verus!
