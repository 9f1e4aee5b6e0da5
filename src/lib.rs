//! Mirrors a source directory tree into a destination beside it on the same
//! volume: the walk with its exclusion rules, the mapping of source paths to
//! their mirror, and the per-file synchronization decisions.

pub mod config;
pub mod log;
pub mod mirror;
pub mod path;
pub mod sync;
pub mod walk;
