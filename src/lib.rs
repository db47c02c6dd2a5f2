//! File integrity checking: fingerprint tables of a directory tree, their
//! persisted baseline form, and the difference between two tables.
pub mod table;
pub mod compare;
pub mod digest;
pub mod snapshot;
pub mod baseline;
pub mod report;
pub mod run;
