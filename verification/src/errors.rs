use vstd::prelude::*;

verus! {

/// Everything that can go wrong at an operation boundary; no variant is
/// fatal to the process.
#[derive(Clone, Copy, PartialEq, Eq, Structural, Debug)]
pub enum DbError {
    /// The named table was never created.
    TableNotFound,
    /// A table of that name already exists.
    TableAlreadyExists,
    /// A write names an unknown column, a value of the wrong type, or a
    /// schema whose primary key is not among its columns.
    SchemaViolation,
    /// A segment could not be written to or read from disk.
    IoFailure,
    /// Malformed on-disk segment data was encountered during a lookup.
    CorruptSegment,
}

} // verus!
