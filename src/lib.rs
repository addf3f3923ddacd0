//! Generational (grandfather-father-son) retention of timestamped snapshots.
//!
//! Timestamps are whole seconds since the Unix epoch, in UTC; intervals are
//! whole seconds.
pub mod catalog;
pub mod deletion;
pub mod matcher;
pub mod policy;
pub mod retention;

pub use catalog::{parse_archive_row, parse_archives, split_at_tab, CatalogParseError};
pub use deletion::{deletion_args, plan_deletion, sort_names, DeletionPlan};
pub use matcher::{filter_by_generation, select_indices, Generation, SnapshotTimestamp};
pub use retention::{keep_generations, select_snapshots_to_delete, Snapshot};
pub use policy::{parse_generation, parse_generations, PolicyParseError};
