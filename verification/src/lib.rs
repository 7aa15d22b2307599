//! Per-author contribution statistics for a version-controlled repository.
//!
//! The crate holds the computing part of the statistics engine: glob-based
//! path matching, the line grammar of `git log --numstat` output, the fold of
//! commits into per-author counters, and the ordering of the resulting table.
//! Reading a repository or running a process is left to the caller, who hands
//! the library plain values.

pub mod command;
pub mod engine;
pub mod glob;
pub mod group;
pub mod report;
pub mod scan;
pub mod stats;
pub mod tally;
pub mod text;

