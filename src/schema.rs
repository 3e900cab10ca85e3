use vstd::prelude::*;

use crate::value::ColumnType;

verus! {

/// Definition of one column.
#[derive(Debug, Clone, PartialEq)]
pub struct ColumnDef {
    pub name: String,
    pub data_type: ColumnType,
    pub is_nullable: bool,
    pub is_primary: bool,
    pub is_indexed: bool,
}

/// A table's name and its ordered columns.
#[derive(Debug, Clone, PartialEq)]
pub struct TableSchema {
    pub name: String,
    pub columns: Vec<ColumnDef>,
}

impl ColumnDef {
    /// A primary column never accepts `Null`, whatever its flag says.
    pub open spec fn accepts_null(&self) -> bool {
        self.is_nullable && !self.is_primary
    }
}

/// The first column of `cols` named `name`.
pub open spec fn column_named(cols: Seq<ColumnDef>, name: Seq<char>) -> Option<ColumnDef>
    decreases cols.len(),
{
    if cols.len() == 0 {
        None
    } else if cols[0].name@ == name {
        Some(cols[0])
    } else {
        column_named(cols.subrange(1, cols.len() as int), name)
    }
}

/// Finds the first column named `name`.
pub fn find_column(cols: &Vec<ColumnDef>, name: &String) -> (r: Option<usize>)
    ensures
        match r {
            Some(i) => i < cols@.len() && column_named(cols@, name@) == Some(cols@[i as int])
                && cols@[i as int].name@ == name@,
            None => column_named(cols@, name@) is None,
        },
{
    let mut i: usize = 0;
    assert(cols@.subrange(0, cols@.len() as int) == cols@);
    while i < cols.len()
        invariant
            i <= cols@.len(),
            column_named(cols@, name@) == column_named(cols@.subrange(i as int, cols@.len() as int), name@),
        decreases cols@.len() - i,
    {
        let ghost rest = cols@.subrange(i as int, cols@.len() as int);
        assert(rest.subrange(1, rest.len() as int) == cols@.subrange(i + 1, cols@.len() as int));
        if cols[i].name == *name {
            return Some(i);
        }
        i = i + 1;
    }
    None
}

/// The schema rules: column names are distinct and at most one column is primary.
pub open spec fn schema_ok(s: TableSchema) -> bool {
    &&& forall|i: int, j: int| 0 <= i < j < s.columns@.len()
        ==> (#[trigger] s.columns@[i]).name@ != (#[trigger] s.columns@[j]).name@
    &&& forall|i: int, j: int| 0 <= i < j < s.columns@.len()
        ==> !((#[trigger] s.columns@[i]).is_primary && (#[trigger] s.columns@[j]).is_primary)
}

/// Decides `schema_ok`.
pub fn check_schema(s: &TableSchema) -> (r: bool)
    ensures
        r == schema_ok(*s),
{
    let n = s.columns.len();
    let mut i: usize = 0;
    while i < n
        invariant
            n == s.columns@.len(),
            i <= n,
            forall|a: int, b: int| 0 <= a < b < n && a < i
                ==> (#[trigger] s.columns@[a]).name@ != (#[trigger] s.columns@[b]).name@
                    && !(s.columns@[a].is_primary && s.columns@[b].is_primary),
        decreases n - i,
    {
        let mut j: usize = i + 1;
        while j < n
            invariant
                n == s.columns@.len(),
                i < n,
                i + 1 <= j <= n,
                forall|a: int, b: int| 0 <= a < b < n && a < i
                    ==> (#[trigger] s.columns@[a]).name@ != (#[trigger] s.columns@[b]).name@
                        && !(s.columns@[a].is_primary && s.columns@[b].is_primary),
                forall|b: int| i < b < j ==> s.columns@[i as int].name@ != (#[trigger] s.columns@[b]).name@
                    && !(s.columns@[i as int].is_primary && s.columns@[b].is_primary),
            decreases n - j,
        {
            if s.columns[i].name == s.columns[j].name || (s.columns[i].is_primary && s.columns[j].is_primary) {
                return false;
            }
            j = j + 1;
        }
        i = i + 1;
    }
    true
}

/// How a column kept by an alteration may change: only from non-nullable to nullable.
pub open spec fn kept_column_ok(before: ColumnDef, after: ColumnDef) -> bool {
    &&& after.data_type == before.data_type
    &&& after.is_primary == before.is_primary
    &&& after.is_indexed == before.is_indexed
    &&& (before.is_nullable ==> after.is_nullable)
}

/// Whether column `c` of a new schema is an allowed change against the old columns:
/// either it is kept as `kept_column_ok` says, or it is added as a nullable non-primary column.
pub open spec fn new_column_ok(old_cols: Seq<ColumnDef>, c: ColumnDef) -> bool {
    match column_named(old_cols, c.name@) {
        Some(before) => kept_column_ok(before, c),
        None => c.is_nullable && !c.is_primary,
    }
}

/// The migrations `alter_table` accepts: columns are added (nullable), removed
/// (but never the primary one), or made nullable; the name stays and the new
/// schema keeps the schema rules.
pub open spec fn alteration_allowed(old: TableSchema, new: TableSchema) -> bool {
    &&& schema_ok(new)
    &&& new.name@ == old.name@
    &&& forall|j: int| 0 <= j < new.columns@.len() ==> new_column_ok(old.columns@, #[trigger] new.columns@[j])
    &&& forall|i: int| 0 <= i < old.columns@.len() && (#[trigger] old.columns@[i]).is_primary
        ==> column_named(new.columns@, old.columns@[i].name@) is Some
}

/// Decides `alteration_allowed`.
pub fn check_alteration(old: &TableSchema, new: &TableSchema) -> (r: bool)
    ensures
        r == alteration_allowed(*old, *new),
{
    if !check_schema(new) {
        return false;
    }
    if !(new.name == old.name) {
        return false;
    }
    let mut j: usize = 0;
    while j < new.columns.len()
        invariant
            j <= new.columns@.len(),
            forall|k: int| 0 <= k < j ==> new_column_ok(old.columns@, #[trigger] new.columns@[k]),
        decreases new.columns@.len() - j,
    {
        let c = &new.columns[j];
        match find_column(&old.columns, &c.name) {
            Some(i) => {
                let b = &old.columns[i];
                if !(c.data_type == b.data_type && c.is_primary == b.is_primary
                    && c.is_indexed == b.is_indexed && (!b.is_nullable || c.is_nullable)) {
                    return false;
                }
            },
            None => {
                if !(c.is_nullable && !c.is_primary) {
                    return false;
                }
            },
        }
        j = j + 1;
    }
    let mut i: usize = 0;
    while i < old.columns.len()
        invariant
            i <= old.columns@.len(),
            forall|j: int| 0 <= j < new.columns@.len() ==> new_column_ok(old.columns@, #[trigger] new.columns@[j]),
            forall|k: int| 0 <= k < i && (#[trigger] old.columns@[k]).is_primary
                ==> column_named(new.columns@, old.columns@[k].name@) is Some,
        decreases old.columns@.len() - i,
    {
        if old.columns[i].is_primary {
            if find_column(&new.columns, &old.columns[i].name).is_none() {
                return false;
            }
        }
        i = i + 1;
    }
    true
}

} // verus!
