//! The core of a file deduplicator: grouping files by a digest of their
//! content, filtering the candidates by size, extension and name pattern,
//! and deciding — deterministically — which copy of each duplicate group
//! survives. Directory traversal, parallel hashing, report output and the
//! actual removals live with the caller; everything that decides is here,
//! with its contract.

pub mod file_compare;
pub mod filter;
pub mod hashing;
pub mod report;
pub mod safe_delete;
pub mod scanner;
pub mod text;
