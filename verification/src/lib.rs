//! An in-memory columnar read buffer for time-stamped tabular data, together
//! with the path vocabulary used to name objects in external storage.
//!
//! Data is organised as database, partition, chunk, table, row group,
//! column. Every level keeps rolled-up metadata so that queries can skip whole
//! units without scanning them.

pub mod text;
pub mod path;
pub mod error;
pub mod column;
pub mod row_group;
pub mod sums;
pub mod table;
pub mod chunk;
pub mod partition;
pub mod batch;
pub mod database;

pub use database::Database;
pub use row_group::time_range_predicate;
pub use error::Error;
pub use partition::Partition;

