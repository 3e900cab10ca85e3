use vstd::prelude::*;

use crate::error::{DbError, MismatchReason};
use crate::row::{Cell, Row};
use crate::schema::{column_named, find_column, ColumnDef};
use crate::value::Value;

verus! {

/// How `row` breaks column `c`, if it does. An absent column counts as `Null`.
pub open spec fn column_violation(c: ColumnDef, row: Row) -> Option<MismatchReason> {
    match row.get_spec(c.name@) {
        None => if c.accepts_null() { None } else { Some(MismatchReason::MissingColumn) },
        Some(v) => if v is Null {
            if c.accepts_null() { None } else { Some(MismatchReason::NullViolation) }
        } else if v.fits(c.data_type) {
            None
        } else {
            Some(MismatchReason::TypeMismatch)
        },
    }
}

/// The first violated column at position `i` or later, in declared order.
pub open spec fn violation_from(cols: Seq<ColumnDef>, row: Row, i: int) -> Option<(Seq<char>, MismatchReason)>
    decreases cols.len() - i,
{
    if i < 0 || i >= cols.len() {
        None
    } else {
        match column_violation(cols[i], row) {
            Some(why) => Some((cols[i].name@, why)),
            None => violation_from(cols, row, i + 1),
        }
    }
}

/// The first cell at position `k` or later naming a column that `cols` lacks.
pub open spec fn unknown_from(cols: Seq<ColumnDef>, cells: Seq<Cell>, k: int) -> Option<Seq<char>>
    decreases cells.len() - k,
{
    if k < 0 || k >= cells.len() {
        None
    } else if column_named(cols, cells[k].column@) is None {
        Some(cells[k].column@)
    } else {
        unknown_from(cols, cells, k + 1)
    }
}

/// The violation reported for `row` against `cols`: declared columns first, in
/// order, then cells naming unknown columns, in row order.
pub open spec fn row_violation(cols: Seq<ColumnDef>, row: Row) -> Option<(Seq<char>, MismatchReason)> {
    match violation_from(cols, row, 0) {
        Some(x) => Some(x),
        None => match unknown_from(cols, row.cells@, 0) {
            Some(n) => Some((n, MismatchReason::UnknownColumn)),
            None => None,
        },
    }
}

/// The value a row holds for a column, `Null` where it is absent.
pub open spec fn field(row: Row, c: ColumnDef) -> Value {
    match row.get_spec(c.name@) {
        Some(v) => v,
        None => Value::Null,
    }
}

proof fn lemma_violation_none(cols: Seq<ColumnDef>, row: Row, i: int)
    requires
        0 <= i,
        violation_from(cols, row, i) is None,
    ensures
        forall|j: int| i <= j < cols.len() ==> column_violation(#[trigger] cols[j], row) is None,
    decreases cols.len() - i,
{
    if i < cols.len() {
        lemma_violation_none(cols, row, i + 1);
    }
}

proof fn lemma_unknown_none(cols: Seq<ColumnDef>, cells: Seq<Cell>, k: int)
    requires
        0 <= k,
        unknown_from(cols, cells, k) is None,
    ensures
        forall|j: int| k <= j < cells.len() ==> column_named(cols, (#[trigger] cells[j]).column@) is Some,
    decreases cells.len() - k,
{
    if k < cells.len() {
        lemma_unknown_none(cols, cells, k + 1);
    }
}

/// A row that passes validation binds only declared columns, and every declared
/// column holds a value of its type, or `Null` where the column accepts it.
pub proof fn lemma_valid_row(cols: Seq<ColumnDef>, row: Row)
    requires
        row_violation(cols, row) is None,
    ensures
        forall|k: int| 0 <= k < row.cells@.len()
            ==> column_named(cols, (#[trigger] row.cells@[k]).column@) is Some,
        forall|j: int| 0 <= j < cols.len() ==> column_violation(#[trigger] cols[j], row) is None,
        forall|j: int| 0 <= j < cols.len() ==> field(row, #[trigger] cols[j]).fits(cols[j].data_type)
            && (field(row, cols[j]) is Null ==> cols[j].accepts_null()),
{
    lemma_violation_none(cols, row, 0);
    lemma_unknown_none(cols, row.cells@, 0);
    assert forall|j: int| 0 <= j < cols.len() implies field(row, #[trigger] cols[j]).fits(cols[j].data_type)
        && (field(row, cols[j]) is Null ==> cols[j].accepts_null()) by {
        assert(column_violation(cols[j], row) is None);
    }
}

/// Checks `row` against the columns `cols`, reporting the violation that
/// `row_violation` names.
pub fn validate_row(cols: &Vec<ColumnDef>, row: &Row) -> (r: Result<(), DbError>)
    ensures
        match row_violation(cols@, *row) {
            None => r is Ok,
            Some((n, why)) => r matches Err(DbError::SchemaMismatch { column, reason })
                && column@ == n && reason == why,
        },
{
    let mut i: usize = 0;
    while i < cols.len()
        invariant
            i <= cols@.len(),
            violation_from(cols@, *row, 0) == violation_from(cols@, *row, i as int),
        decreases cols@.len() - i,
    {
        let c = &cols[i];
        let why: Option<MismatchReason> = match row.get(c.name.as_str()) {
            None => if c.is_nullable && !c.is_primary { None } else { Some(MismatchReason::MissingColumn) },
            Some(v) => if v.is_null() {
                if c.is_nullable && !c.is_primary { None } else { Some(MismatchReason::NullViolation) }
            } else if v.fits_type(c.data_type) {
                None
            } else {
                Some(MismatchReason::TypeMismatch)
            },
        };
        assert(why == column_violation(cols@[i as int], *row));
        if let Some(reason) = why {
            return Err(DbError::SchemaMismatch { column: c.name.clone(), reason });
        }
        i = i + 1;
    }
    let mut k: usize = 0;
    while k < row.cells.len()
        invariant
            k <= row.cells@.len(),
            violation_from(cols@, *row, 0) is None,
            unknown_from(cols@, row.cells@, 0) == unknown_from(cols@, row.cells@, k as int),
        decreases row.cells@.len() - k,
    {
        if find_column(cols, &row.cells[k].column).is_none() {
            return Err(DbError::SchemaMismatch {
                column: row.cells[k].column.clone(),
                reason: MismatchReason::UnknownColumn,
            });
        }
        k = k + 1;
    }
    Ok(())
}

} // verus!
