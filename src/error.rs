use vstd::prelude::*;

verus! {

/// Why a row was refused by its table's schema.
#[derive(Debug, Clone, Copy, PartialEq, Eq, Structural)]
pub enum MismatchReason {
    /// The value's tag is not the column's type.
    TypeMismatch,
    /// An explicit `Null` in a column that does not accept it.
    NullViolation,
    /// The row names a column the schema does not have.
    UnknownColumn,
    /// A column that does not accept `Null` is absent from the row.
    MissingColumn,
}

/// Errors reported by the registry and the storage engine.
#[derive(Debug, Clone, PartialEq)]
pub enum DbError {
    TableNotFound,
    DuplicateTable,
    /// A schema repeats a column name or has more than one primary column.
    InvalidSchema,
    SchemaMismatch { column: String, reason: MismatchReason },
    UnsupportedAlteration,
    /// The backend failed: a table's identifier space is used up, or a
    /// column store is not well formed.
    StorageFailure,
}

} // verus!
