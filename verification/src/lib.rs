//! Time-delimited indexing: entries are filed under fixed-width time buckets that
//! hang from a year, month, day, hour, minute, second path tree, so that a
//! range query by timestamp touches many small nodes instead of one popular one.

pub use crate::entries::{EntryChunkIndex, Index, IndexConfiguration, IndexType, Order, SearchStrategy};
pub use crate::errors::{IndexError, IndexResult};
pub use crate::traits::IndexableEntry;

pub mod codec;
pub mod errors;
pub mod entries;
pub mod calendar;
pub mod paths;
pub mod names;
pub mod conversions;
pub mod utils;
pub mod sorting;
pub mod search;
pub mod bfs;
pub mod graph;
pub mod dfs;
pub mod walk;
pub mod dfs_methods;
pub mod traits;
pub mod dfs_search;
pub mod permute;
pub mod validation;
pub mod methods;
pub mod chunks;
