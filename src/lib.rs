//! Directory size summaries: deep per-subdirectory statistics, a sorted
//! one-level summary of a root directory, and a time-bounded cache of
//! summaries keyed by path.
pub mod cache;
pub mod laws;
pub mod node;
pub mod order;
pub mod scan;
pub mod stats;

pub use cache::{clear_cache, CacheEntry, ScanCache, CACHE_TTL};
pub use node::{FileNode, NodeModel};
pub use order::size_order;
pub use scan::{scan_directory, summarize_listing, DirectEntry, ScanError};
pub use stats::{get_dir_stats, WalkEntry};
