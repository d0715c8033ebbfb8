//! Verified core of the sai3-bench storage benchmark: directory-tree and
//! manifest generation, metadata-cache bookkeeping, size buckets, CLI value
//! parsing and the text formatting these rely on.

pub mod constants;
pub mod text;
pub mod fixed_point;
pub mod directory_tree;
pub mod metadata_cache;
pub mod metrics;
pub mod live_stats;
pub mod cli;
pub mod metadata_ops;
pub mod fs_metadata;
pub mod metadata_prefetch;
pub mod oplog_merge;
pub mod cpu_monitor;
pub mod glob;
pub mod endpoint_records;
pub mod autotune;
pub mod scaling;

pub use glob::glob_to_regex;
