//! An embedded, ordered key-value store that keeps its data in a log-structured merge tree.
pub mod contents;
pub mod directory;
pub mod encoding;
pub mod error;
pub mod interval;
pub mod iter;
pub mod laws;
pub mod leveling;
pub mod log;
pub mod memstore;
pub mod merging;
pub mod model;
pub mod order;
pub mod rebalance;
pub mod rows;
pub mod store;
pub mod table;
pub mod toc;

pub use crate::directory::{Directory, TableFile};
pub use crate::error::Error;
pub use crate::interval::{Bound, Interval};
pub use crate::store::{Store, StoreIter};
