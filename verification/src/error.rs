//! Error categories of the storage engine.
//!
//! The engine distinguishes retryable from fatal conditions and isolates
//! failures per partition: a fatal error in one partition's manifest or
//! files never blocks operations on other partitions.

use vstd::prelude::*;

verus! {

/// The categorized errors an engine operation can return.
#[derive(Clone, Copy, PartialEq, Eq, Structural, Debug)]
pub enum Error {
    /// A WAL write or fsync failed; fatal for the affected write only.
    DurabilityError,
    /// A write or schema change referenced a column outside the table
    /// schema; the caller must fix its input.
    SchemaMismatch,
    /// The addressed tenant, database, table or partition does not exist.
    NotFound,
    /// A checksum or structural mismatch was found while replaying the
    /// manifest; fatal for that partition until repaired.
    CorruptManifest,
    /// A checksum or structural mismatch was found in an immutable file.
    CorruptFile,
    /// A compaction could not commit its edit; inputs remain valid and the
    /// compaction may be retried.
    CompactionFailed,
    /// A transient or permanent storage failure; writes fail closed.
    IoError,
}

impl Error {
    /// Whether the caller may retry the failed operation unchanged.
    pub fn is_retryable(&self) -> (r: bool)
        ensures
            r == matches!(self, Error::CompactionFailed | Error::IoError),
    {
        matches!(self, Error::CompactionFailed | Error::IoError)
    }
}

} // verus!
