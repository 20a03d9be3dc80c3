//! A fixed-capacity key/value cache with least-frequently-used eviction.
//!
//! Keys are grouped into frequency buckets kept in ascending order, so the
//! eviction candidate is always the oldest key of the first bucket.
pub mod cache;
pub mod ledger;

pub use cache::{LfuError, LFU};
pub use ledger::{FrequencyNode, Item, Ledger};
