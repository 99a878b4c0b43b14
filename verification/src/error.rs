//! The ways in which an operation of the read buffer can fail.

use vstd::prelude::*;

verus! {

/// The failures that the read buffer reports. Each is returned to the caller;
/// none is retried, and a failed operation leaves the data as it was.
#[derive(Clone, Debug, PartialEq, Eq)]
pub enum Error {
    /// No partition has this key.
    PartitionNotFound { key: String },
    /// The partition has no chunk with this id.
    ChunkNotFound { id: u32 },
    /// A column of an ingested batch lacks a recognised kind.
    ColumnTypeInvalid,
    /// A predicate, group or aggregate names a column that the table lacks.
    ColumnNotFound,
    /// The data of a batch cannot be laid out as a row group, or the totals
    /// of its table no longer fit the counters that hold them.
    ConversionError,
    /// A row group's columns differ from those of the table it is added to.
    SchemaMismatch,
}

} // verus!
