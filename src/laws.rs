use vstd::prelude::*;

use crate::column_engine::ColumnFileStorage;
use crate::error::MismatchReason;
use crate::row::{Cell, Row};
use crate::schema::{column_named, ColumnDef};
use crate::storage::{lemma_slot_of_key, projection, InMemoryStorage, StoredRow};
use crate::validate::{column_violation, field, lemma_valid_row, row_violation, unknown_from, violation_from};
use crate::value::Value;

verus! {

/// A valid row inserted into an empty table is the one row a scan then
/// shows: one value per declared column, equal to the row's own binding
/// (`Null` where the row left a nullable column out), and the row binds
/// no column outside the schema.
pub proof fn lemma_round_trip(before: InMemoryStorage, after: InMemoryStorage, name: Seq<char>, row: Row, id: u64)
    requires
        before.wf(),
        before.schemas().contains_key(name),
        before.stored(name).len() == 0,
        row_violation(before.schemas()[name].columns@, row) is None,
        after.meta == before.meta,
        after.stored(name) == before.stored(name).push((StoredRow { id, row })),
    ensures
        after.scan_view(name).len() == 1,
        after.scan_view(name)[0].len() == before.schemas()[name].columns@.len(),
        forall|j: int| 0 <= j < before.schemas()[name].columns@.len() ==> {
            let c = #[trigger] before.schemas()[name].columns@[j];
            &&& after.scan_view(name)[0][j].0 == c.name@
            &&& after.scan_view(name)[0][j].1 == field(row, c)
            &&& (row.get_spec(c.name@) matches Some(v) ==> after.scan_view(name)[0][j].1 == v)
            &&& (row.get_spec(c.name@) is None ==> after.scan_view(name)[0][j].1 == Value::Null)
        },
        forall|k: int| 0 <= k < row.cells@.len()
            ==> column_named(before.schemas()[name].columns@, (#[trigger] row.cells@[k]).column@) is Some,
{
    let cols = before.schemas()[name].columns@;
    assert(after.schemas() == before.schemas());
    assert(after.stored(name)[0] == (StoredRow { id, row }));
    assert(after.scan_view(name)[0] == projection(cols, row));
    lemma_valid_row(cols, row);
}

proof fn lemma_violation_found(cols: Seq<ColumnDef>, row: Row, i: int, j: int)
    requires
        0 <= i <= j < cols.len(),
        column_violation(cols[j], row) is Some,
    ensures
        violation_from(cols, row, i) matches Some((n, why)) && why != MismatchReason::UnknownColumn,
    decreases j - i,
{
    if column_violation(cols[i], row) is None {
        lemma_violation_found(cols, row, i + 1, j);
    }
}

/// A row that leaves out a column which does not accept `Null`, or puts a
/// value of another type in a column, has a violation, so `insert_row`
/// refuses it with `SchemaMismatch` and leaves the stored rows as they were.
pub proof fn lemma_schema_enforced(cols: Seq<ColumnDef>, row: Row, j: int)
    requires
        0 <= j < cols.len(),
        (row.get_spec(cols[j].name@) is None && !cols[j].accepts_null())
            || (row.get_spec(cols[j].name@) matches Some(v) && !(v is Null) && !v.fits(cols[j].data_type)),
    ensures
        row_violation(cols, row) matches Some((n, why)) && why != MismatchReason::UnknownColumn,
{
    lemma_violation_found(cols, row, 0, j);
}

/// Adding a column by `alter_table` leaves every row stored before it reading
/// `Null` in that column, whatever values an earlier column of that name held.
pub proof fn lemma_added_column_reads_null(
    before: InMemoryStorage,
    after: InMemoryStorage,
    name: Seq<char>,
    new_cols: Seq<ColumnDef>,
    j: int,
)
    requires
        before.schemas().contains_key(name),
        after.schemas().contains_key(name),
        after.schemas()[name].columns@ == new_cols,
        after.stored(name).len() == before.stored(name).len(),
        0 <= j < new_cols.len(),
        column_named(before.schemas()[name].columns@, new_cols[j].name@) is None,
        forall|k: int, i: int| 0 <= k < before.stored(name).len() && 0 <= i < new_cols.len()
            ==> field((#[trigger] after.stored(name)[k]).row, #[trigger] new_cols[i])
                == (if column_named(before.schemas()[name].columns@, new_cols[i].name@) is Some {
                    field(before.stored(name)[k].row, new_cols[i])
                } else {
                    Value::Null
                }),
    ensures
        after.scan_view(name).len() == before.stored(name).len(),
        forall|k: int| 0 <= k < after.scan_view(name).len() ==> (#[trigger] after.scan_view(name)[k])[j].1 == Value::Null,
{
    assert forall|k: int| 0 <= k < after.scan_view(name).len() implies (#[trigger] after.scan_view(name)[k])[j].1
        == Value::Null by {
        assert(after.scan_view(name)[k] == projection(new_cols, after.stored(name)[k].row));
        assert(field(after.stored(name)[k].row, new_cols[j]) == Value::Null);
    }
}

/// The rows of a table carry pairwise distinct identifiers, all below the
/// identifier the next insert receives.
pub proof fn lemma_ids_distinct(s: InMemoryStorage, name: Seq<char>)
    requires
        s.wf(),
        s.schemas().contains_key(name),
    ensures
        forall|a: int, b: int| 0 <= a < s.stored(name).len() && 0 <= b < s.stored(name).len() && a != b
            ==> (#[trigger] s.stored(name)[a]).id != (#[trigger] s.stored(name)[b]).id,
        forall|a: int| 0 <= a < s.stored(name).len() ==> (#[trigger] s.stored(name)[a]).id < s.next_id_of(name),
{
    lemma_slot_of_key(&s, name);
    let td = s.data@[s.slot(name)];
    assert(td.wf());
    assert forall|a: int, b: int| 0 <= a < s.stored(name).len() && 0 <= b < s.stored(name).len() && a != b
        implies (#[trigger] s.stored(name)[a]).id != (#[trigger] s.stored(name)[b]).id by {
        if a < b {
            assert(td.rows@[a].id < td.rows@[b].id);
        } else {
            assert(td.rows@[b].id < td.rows@[a].id);
        }
    }
}

/// The column-file engine gives the same round trip: after a valid row goes
/// into an empty table, a scan shows one row whose value in each declared
/// column is the row's own value there, or `Null` where it left it out.
pub proof fn lemma_column_round_trip(before: ColumnFileStorage, after: ColumnFileStorage, name: Seq<char>, row: Row)
    requires
        before.wf(),
        after.wf(),
        before.schemas().contains_key(name),
        before.row_count(name) == 0,
        after.meta == before.meta,
        after.row_count(name) == before.row_count(name) + 1,
        after.values(name).len() == before.values(name).len(),
        forall|j: int| 0 <= j < before.values(name).len() ==> #[trigger] after.values(name)[j]
            == before.values(name)[j].push(field(row, before.schemas()[name].columns@[j])),
    ensures
        after.scan_view(name).len() == 1,
        after.scan_view(name)[0] == projection(before.schemas()[name].columns@, row),
{
    let cols = before.schemas()[name].columns@;
    assert(after.schemas() == before.schemas());
    crate::column_engine::lemma_column_slot_of_key(&before, name);
    let i = before.slot(name);
    assert(before.tables@[i].holds_values(before.meta.tables@[i].columns@, before.contents@[i]));
    assert(before.values(name).len() == cols.len());
    assert forall|j: int| 0 <= j < cols.len() implies (#[trigger] after.values(name)[j])[0] == field(row, cols[j]) by {
        crate::column_engine::lemma_column_slot_of_key(&before, name);
        assert(before.contents@[i][j].len() == before.tables@[i].row_count) by {
            assert(before.tables@[i].columns@[j].holds(before.contents@[i][j]));
        }
    }
    assert(after.scan_view(name)[0] =~= projection(cols, row));
}

/// Creating a table twice under one name: the first call registers it, so
/// the second meets a registered name, fails with `DuplicateTable`, and the
/// table keeps the first schema.
pub proof fn lemma_duplicate_create(
    s0: InMemoryStorage,
    s1: InMemoryStorage,
    first: crate::schema::TableSchema,
    second: crate::schema::TableSchema,
)
    requires
        !s0.schemas().contains_key(first.name@),
        s1.schemas() == s0.schemas().insert(first.name@, first),
        second.name@ == first.name@,
    ensures
        s1.schemas().contains_key(second.name@),
        s1.schemas()[second.name@] == first,
{
}

/// After a drop the name is no longer registered, so `get_table` and
/// `scan_table` answer `TableNotFound` and `search` finds nothing; other
/// names stay registered as they were.
pub proof fn lemma_drop_hides(before: InMemoryStorage, after: InMemoryStorage, name: Seq<char>)
    requires
        before.schemas().contains_key(name),
        after.schemas() == before.schemas().remove(name),
    ensures
        !after.schemas().contains_key(name),
        forall|n: Seq<char>| n != name ==> (after.schemas().contains_key(n) == before.schemas().contains_key(n)),
{
}

proof fn lemma_column_named_none(cols: Seq<ColumnDef>, n: Seq<char>, i: int)
    requires
        column_named(cols, n) is None,
        0 <= i < cols.len(),
    ensures
        cols[i].name@ != n,
    decreases cols.len(),
{
    if i > 0 {
        lemma_column_named_none(cols.subrange(1, cols.len() as int), n, i - 1);
    }
}

proof fn lemma_column_named_push(cols: Seq<ColumnDef>, c: ColumnDef, n: Seq<char>)
    ensures
        column_named(cols, n) is Some ==> column_named(cols.push(c), n) == column_named(cols, n),
        c.name@ == n ==> column_named(cols.push(c), n) is Some,
    decreases cols.len(),
{
    if cols.len() > 0 {
        assert(cols.push(c).subrange(1, cols.len() as int + 1) =~= cols.subrange(1, cols.len() as int).push(c));
        lemma_column_named_push(cols.subrange(1, cols.len() as int), c, n);
    } else {
        assert(cols.push(c).subrange(1, 1) =~= Seq::<ColumnDef>::empty());
    }
}

proof fn lemma_violation_from_push(cols: Seq<ColumnDef>, c: ColumnDef, row: Row, row2: Row, i: int)
    requires
        0 <= i <= cols.len(),
        forall|j: int| i <= j < cols.len() ==> column_violation(#[trigger] cols[j], row) is None,
        forall|j: int| i <= j < cols.len() ==> column_violation(#[trigger] cols[j], row2) == column_violation(cols[j], row),
        column_violation(c, row2) is None,
    ensures
        violation_from(cols.push(c), row2, i) is None,
    decreases cols.len() + 1 - i,
{
    if i < cols.len() {
        assert(cols.push(c)[i] == cols[i]);
        lemma_violation_from_push(cols, c, row, row2, i + 1);
    } else {
        assert(cols.push(c)[i] == c);
        assert(violation_from(cols.push(c), row2, i + 1) is None);
    }
}

proof fn lemma_unknown_none_when_known(cols: Seq<ColumnDef>, cells: Seq<Cell>, k: int)
    requires
        0 <= k <= cells.len(),
        forall|j: int| k <= j < cells.len() ==> column_named(cols, (#[trigger] cells[j]).column@) is Some,
    ensures
        unknown_from(cols, cells, k) is None,
    decreases cells.len() - k,
{
    if k < cells.len() {
        lemma_unknown_none_when_known(cols, cells, k + 1);
    }
}

/// After a nullable column is added, a row that was valid before is still
/// valid with a value of the column's type bound under the new column.
pub proof fn lemma_added_column_accepts(cols: Seq<ColumnDef>, c: ColumnDef, row: Row, row2: Row, name: String, v: Value)
    requires
        row_violation(cols, row) is None,
        column_named(cols, c.name@) is None,
        c.is_nullable && !c.is_primary,
        name@ == c.name@,
        v.fits(c.data_type),
        row2.cells@ == row.cells@.push((Cell { column: name, value: v })),
    ensures
        row_violation(cols.push(c), row2) is None,
{
    lemma_valid_row(cols, row);
    assert(row2.cells@.drop_last() == row.cells@);
    assert forall|j: int| 0 <= j < cols.len() implies column_violation(#[trigger] cols[j], row2)
        == column_violation(cols[j], row) by {
        lemma_column_named_none(cols, c.name@, j);
    }
    lemma_violation_from_push(cols, c, row, row2, 0);
    assert forall|j: int| 0 <= j < row2.cells@.len()
        implies column_named(cols.push(c), (#[trigger] row2.cells@[j]).column@) is Some by {
        lemma_column_named_push(cols, c, row2.cells@[j].column@);
        if j < row.cells@.len() {
            assert(row2.cells@[j] == row.cells@[j]);
        }
    }
    lemma_unknown_none_when_known(cols.push(c), row2.cells@, 0);
}

/// The two backends hand out the same identifier to the next insert into a
/// table when they hold the same number of rows for it: each counts rows from 0.
pub proof fn lemma_same_next_id(m: InMemoryStorage, c: ColumnFileStorage, name: Seq<char>)
    requires
        m.wf(),
        c.wf(),
        m.schemas().contains_key(name),
        c.schemas().contains_key(name),
        m.stored(name).len() == c.row_count(name),
    ensures
        m.next_id_of(name) as nat == c.row_count(name),
{
    lemma_slot_of_key(&m, name);
    assert(m.data@[m.slot(name)].wf());
}

} // verus!
