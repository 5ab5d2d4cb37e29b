use vstd::prelude::*;

verus! {

/// Every way a run of the migration protocol can fail.
#[derive(Debug, PartialEq, Eq)]
pub enum MigrationError {
    /// Two migrations of the catalog share this version.
    DuplicateVersion(u64),
    /// The backend could not open an atomic unit or a read query.
    Connection(String),
    /// The catalog's checksum for this applied version differs from the stored one.
    ChecksumMismatch(u64),
    /// A catalog migration at or below the highest applied version has no record.
    MissingVersion(u64),
    /// The stored record of this version holds a timestamp or a checksum that
    /// does not parse back.
    CorruptHistory(u64),
    /// The statements of this pending migration failed; the cause is the backend's.
    Execution(u64, String),
}

} // verus!
