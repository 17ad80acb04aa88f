//! Duplicate-file detection as a three-stage filter: files are grouped by
//! byte length, the survivors by SHA-256 digest, and the pairs that remain
//! are confirmed by comparing their bytes.
//!
//! Every stage is a function on plain values. Reading directories and files
//! is left to the caller, who hands over sizes, digests and chunks of bytes.

pub mod compare;
pub mod digest;
pub mod digest_groups;
pub mod entry;
pub mod grouping;
pub mod laws;
pub mod multimaps;
pub mod pairs;
pub mod report;
pub mod scan;
pub mod size_groups;
