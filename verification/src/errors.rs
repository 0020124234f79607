use vstd::prelude::*;

verus! {

/// The fatal conditions the reconciliation logic itself can detect.
///
/// Filesystem failures (unreadable directory, undeletable file, unwritable
/// index file) abort a run before or after the logic sees the data, so they
/// never appear here; they stay with the caller that does the I/O.
#[derive(Clone, Copy, PartialEq, Eq, Structural, Debug)]
pub enum ReconcileError {
    /// The configured hash-algorithm name is not one of the supported ones.
    UnknownAlgorithm,
    /// The persisted index contained the same digest twice.
    DuplicateDigest,
    /// The index maps a digest to a path that is not among the scanned
    /// files, so its modification time cannot be consulted.
    MissingIndexedFile,
}

impl ReconcileError {
    /// A fixed diagnostic line for each error, for the caller to print.
    pub fn message(&self) -> (r: String)
        ensures
            r@ == (match self {
                ReconcileError::UnknownAlgorithm => "unknown hash algorithm in configuration"@,
                ReconcileError::DuplicateDigest => "persisted index holds a duplicate digest"@,
                ReconcileError::MissingIndexedFile => "indexed file is missing from the scanned directory"@,
            }),
    {
        match self {
            ReconcileError::UnknownAlgorithm => "unknown hash algorithm in configuration".to_owned(),
            ReconcileError::DuplicateDigest => "persisted index holds a duplicate digest".to_owned(),
            ReconcileError::MissingIndexedFile => "indexed file is missing from the scanned directory".to_owned(),
        }
    }
}

} // verus!
