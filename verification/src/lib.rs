//! Duplicate-file reconciliation by content digest.
//!
//! The library decides, for one directory's worth of scanned files, which
//! files are redundant copies of the same content and which single file
//! survives per distinct digest. Hashing is delegated to the `md-5`, `sha1`
//! and `sha2` crates behind trusted wrappers; all file and index I/O is the
//! caller's concern and happens on plain values.

pub mod algorithm;
pub mod errors;
pub mod hashing;
pub mod index;
pub mod laws;
pub mod reconcile;
