use vstd::prelude::*;

use crate::error::DbError;
use crate::meta::{lemma_schema_map_at, InMemoryMetaService};
use crate::row::{lookup, Cell, Row};
use crate::schema::{schema_ok, alteration_allowed, check_alteration, column_named, find_column, ColumnDef, TableSchema};
use crate::tokenize::{codes, folded, folded_codes, is_token_of, tokenize};
use crate::validate::{field, row_violation, validate_row};
use crate::value::{ColumnType, Value};

verus! {

/// A stored row with the identifier it was given at insert.
#[derive(Debug)]
pub struct StoredRow {
    pub id: u64,
    pub row: Row,
}

/// One index entry: the row `row_id` holds the folded token `token`.
#[derive(Debug)]
pub struct Posting {
    pub token: Vec<u32>,
    pub row_id: u64,
}

/// Everything kept for one table: its rows in insertion order, the next
/// identifier to hand out, and its keyword index.
#[derive(Debug)]
pub struct TableData {
    pub rows: Vec<StoredRow>,
    pub next_id: u64,
    pub postings: Vec<Posting>,
}

impl TableData {
    /// Identifiers strictly increase along the rows and stay below `next_id`,
    /// which counts the rows stored.
    pub open spec fn wf(&self) -> bool {
        &&& self.next_id == self.rows@.len()
        &&& forall|a: int, b: int| 0 <= a < b < self.rows@.len()
            ==> (#[trigger] self.rows@[a]).id < (#[trigger] self.rows@[b]).id
        &&& forall|a: int| 0 <= a < self.rows@.len() ==> (#[trigger] self.rows@[a]).id < self.next_id
    }
}

/// Whether column `c` is an indexed text column whose text in `row` has token `tok`.
pub open spec fn column_indexes(c: ColumnDef, row: Row, tok: Seq<u32>) -> bool {
    &&& c.is_indexed
    &&& c.data_type == ColumnType::Text
    &&& match field(row, c) {
        Value::Text(s) => is_token_of(s@, tok),
        _ => false,
    }
}

/// Whether some column of `cols` before position `j` indexes `tok` for `row`.
pub open spec fn indexes_upto(cols: Seq<ColumnDef>, row: Row, tok: Seq<u32>, j: int) -> bool {
    exists|i: int| 0 <= i < j && i < cols.len() && #[trigger] column_indexes(cols[i], row, tok)
}

/// Whether inserting `row` under `cols` files it under the token `tok`.
pub open spec fn indexes(cols: Seq<ColumnDef>, row: Row, tok: Seq<u32>) -> bool {
    indexes_upto(cols, row, tok, cols.len() as int)
}

/// The (column name, value) pairs of a row, in order.
pub open spec fn cell_pairs(r: Row) -> Seq<(Seq<char>, Value)> {
    Seq::new(r.cells@.len(), |k: int| (r.cells@[k].column@, r.cells@[k].value))
}

/// A stored row as seen through `cols`: one pair per column, in declared
/// order, `Null` for a column the row does not bind.
pub open spec fn projection(cols: Seq<ColumnDef>, row: Row) -> Seq<(Seq<char>, Value)> {
    Seq::new(cols.len(), |j: int| (cols[j].name@, field(row, cols[j])))
}

/// The in-memory storage engine. It owns the schema registry, so that a
/// schema change or a drop is seen at once by writes, reads and the index.
pub struct InMemoryStorage {
    pub meta: InMemoryMetaService,
    pub data: Vec<TableData>,
}

impl InMemoryStorage {
    pub open spec fn wf(&self) -> bool {
        &&& self.meta.wf()
        &&& self.data@.len() == self.meta.tables@.len()
        &&& forall|i: int| 0 <= i < self.data@.len() ==> (#[trigger] self.data@[i]).wf()
    }

    /// The registered schemas by name.
    pub open spec fn schemas(&self) -> Map<Seq<char>, TableSchema> {
        self.meta@
    }

    /// Position of the table `name` in the engine's lists.
    pub open spec fn slot(&self, name: Seq<char>) -> int {
        choose|i: int| 0 <= i < self.meta.tables@.len() && (#[trigger] self.meta.tables@[i]).name@ == name
    }

    /// The rows stored for `name`, in insertion order.
    pub open spec fn stored(&self, name: Seq<char>) -> Seq<StoredRow> {
        self.data@[self.slot(name)].rows@
    }

    /// The index entries of `name`.
    pub open spec fn postings_of(&self, name: Seq<char>) -> Seq<Posting> {
        self.data@[self.slot(name)].postings@
    }

    /// The identifier the next insert into `name` receives.
    pub open spec fn next_id_of(&self, name: Seq<char>) -> u64 {
        self.data@[self.slot(name)].next_id
    }

    /// What a scan of `name` returns: each stored row seen through the current schema.
    pub open spec fn scan_view(&self, name: Seq<char>) -> Seq<Seq<(Seq<char>, Value)>> {
        Seq::new(self.stored(name).len(), |k: int| projection(self.schemas()[name].columns@, self.stored(name)[k].row))
    }

    /// Identifiers of rows of `name` indexed under the token `tok`.
    pub open spec fn hits(&self, name: Seq<char>, tok: Seq<u32>) -> Set<u64> {
        Set::new(|id: u64| exists|p: int| 0 <= p < self.postings_of(name).len()
            && (#[trigger] self.postings_of(name)[p]).token@ == tok && self.postings_of(name)[p].row_id == id)
    }
}

impl InMemoryStorage {
    /// An engine with no tables.
    pub fn new() -> (r: Self)
        ensures
            r.wf(),
            r.schemas() == Map::<Seq<char>, TableSchema>::empty(),
    {
        InMemoryStorage { meta: InMemoryMetaService::new(), data: Vec::new() }
    }

    /// Registers `schema` with no rows; `InvalidSchema` when it breaks the schema rules,
    /// else `DuplicateTable` when the name is taken.
    pub fn create_table(&mut self, schema: TableSchema) -> (r: Result<(), DbError>)
        requires
            old(self).wf(),
        ensures
            final(self).wf(),
            !schema_ok(schema) ==> r == Err::<(), DbError>(DbError::InvalidSchema)
                && final(self).schemas() == old(self).schemas(),
            schema_ok(schema) && old(self).schemas().contains_key(schema.name@) ==> r == Err::<(), DbError>(DbError::DuplicateTable)
                && final(self).schemas() == old(self).schemas(),
            r is Err ==> final(self).data@ == old(self).data@,
            schema_ok(schema) && !old(self).schemas().contains_key(schema.name@) ==> r is Ok
                && final(self).schemas() == old(self).schemas().insert(schema.name@, schema)
                && final(self).stored(schema.name@).len() == 0
                && final(self).postings_of(schema.name@).len() == 0
                && final(self).next_id_of(schema.name@) == 0,
            forall|n: Seq<char>| n != schema.name@ && old(self).schemas().contains_key(n) ==> {
                &&& final(self).stored(n) == old(self).stored(n)
                &&& final(self).postings_of(n) == old(self).postings_of(n)
                &&& final(self).next_id_of(n) == old(self).next_id_of(n)
            },
    {
        let ghost pre = *self;
        let ghost n0 = schema.name@;
        let r = self.meta.create_table(schema);
        if r.is_ok() {
            self.data.push(TableData { rows: Vec::new(), next_id: 0, postings: Vec::new() });
        }
        proof {
            let len = pre.meta.tables@.len();
            assert forall|i: int| 0 <= i < self.data@.len() implies (#[trigger] self.data@[i]).wf() by {
                if i < len {
                    assert(self.data@[i] == pre.data@[i]);
                }
            }
            if r.is_ok() {
                assert(self.meta.tables@[len as int].name@ == n0);
                lemma_slot(self, len as int);
            }
            assert forall|n: Seq<char>| n != n0 && pre.schemas().contains_key(n) implies {
                &&& self.stored(n) == pre.stored(n)
                &&& self.postings_of(n) == pre.postings_of(n)
                &&& self.next_id_of(n) == pre.next_id_of(n)
            } by {
                lemma_slot_of_key(&pre, n);
                let i = pre.slot(n);
                assert(self.meta.tables@[i] == pre.meta.tables@[i]);
                lemma_slot(self, i);
                assert(self.data@[i] == pre.data@[i]);
            }
        }
        r
    }
}

/// `row` seen through `cols`, as a new row.
pub fn project_row(cols: &Vec<ColumnDef>, row: &Row) -> (r: Row)
    ensures
        cell_pairs(r) == projection(cols@, *row),
{
    let mut cells: Vec<Cell> = Vec::new();
    let mut j: usize = 0;
    while j < cols.len()
        invariant
            j <= cols@.len(),
            cells@.len() == j,
            forall|k: int| 0 <= k < j ==> (#[trigger] cells@[k]).column@ == cols@[k].name@
                && cells@[k].value == field(*row, cols@[k]),
        decreases cols@.len() - j,
    {
        let value = match row.get(cols[j].name.as_str()) {
            Some(v) => v.duplicate(),
            None => Value::Null,
        };
        cells.push(Cell { column: cols[j].name.clone(), value });
        j = j + 1;
    }
    let r = Row { cells };
    assert(cell_pairs(r) =~= projection(cols@, *row));
    r
}

impl InMemoryStorage {
    /// The schema registered under `name`; `TableNotFound` when there is none.
    pub fn get_table(&self, name: &str) -> (r: Result<&TableSchema, DbError>)
        requires
            self.wf(),
        ensures
            match r {
                Ok(s) => self.schemas().contains_key(name@) && *s == self.schemas()[name@],
                Err(e) => !self.schemas().contains_key(name@) && e == DbError::TableNotFound,
            },
    {
        match self.meta.get_table(name) {
            Some(s) => Ok(s),
            None => Err(DbError::TableNotFound),
        }
    }

    /// Validates `row` against the current schema of `name`, stores it under the
    /// next identifier and indexes its indexed text columns. Returns the identifier.
    pub fn insert_row(&mut self, name: &str, row: Row) -> (r: Result<u64, DbError>)
        requires
            old(self).wf(),
        ensures
            final(self).wf(),
            final(self).meta == old(self).meta,
            !old(self).schemas().contains_key(name@) ==> r == Err::<u64, DbError>(DbError::TableNotFound),
            old(self).schemas().contains_key(name@) ==> match row_violation(old(self).schemas()[name@].columns@, row) {
                Some((n, why)) => r matches Err(DbError::SchemaMismatch { column, reason })
                    && column@ == n && reason == why,
                None => if old(self).next_id_of(name@) == u64::MAX {
                    r == Err::<u64, DbError>(DbError::StorageFailure)
                } else {
                    r == Ok::<u64, DbError>(old(self).next_id_of(name@))
                },
            },
            r is Err ==> final(self).data@ == old(self).data@,
            r matches Ok(id) ==> {
                &&& final(self).stored(name@) == old(self).stored(name@).push((StoredRow { id, row }))
                &&& final(self).next_id_of(name@) == id + 1
                &&& final(self).postings_of(name@).len() >= old(self).postings_of(name@).len()
                &&& final(self).postings_of(name@).subrange(0, old(self).postings_of(name@).len() as int)
                    == old(self).postings_of(name@)
                &&& forall|k: int| old(self).postings_of(name@).len() <= k < final(self).postings_of(name@).len()
                    ==> (#[trigger] final(self).postings_of(name@)[k]).row_id == id
                &&& forall|tok: Seq<u32>| (exists|k: int| old(self).postings_of(name@).len() <= k
                    < final(self).postings_of(name@).len() && (#[trigger] final(self).postings_of(name@)[k]).token@ == tok)
                    <==> #[trigger] indexes(old(self).schemas()[name@].columns@, row, tok)
            },
            forall|n: Seq<char>| n != name@ && old(self).schemas().contains_key(n) ==> {
                &&& final(self).stored(n) == old(self).stored(n)
                &&& final(self).postings_of(n) == old(self).postings_of(n)
                &&& final(self).next_id_of(n) == old(self).next_id_of(n)
            },
    {
        let key = name.to_owned();
        let i = match self.meta.position(&key) {
            None => { return Err(DbError::TableNotFound); },
            Some(i) => i,
        };
        proof { lemma_slot(self, i as int); }
        match validate_row(&self.meta.tables[i].columns, &row) {
            Err(e) => { return Err(e); },
            Ok(()) => {},
        }
        let id = self.data[i].next_id;
        if id == u64::MAX {
            return Err(DbError::StorageFailure);
        }
        let ghost pre = *self;
        let ghost old_posts = self.data@[i as int].postings@;
        let mut fresh = postings_for(&self.meta.tables[i].columns, &row, id);
        let ghost added = fresh@;
        let mut td = self.data.remove(i);
        td.rows.push(StoredRow { id, row });
        td.postings.append(&mut fresh);
        td.next_id = id + 1;
        self.data.insert(i, td);
        proof {
            assert(self.data@ == pre.data@.update(i as int, td));
            lemma_slot(self, i as int);
            let posts = self.postings_of(name@);
            assert(posts == old_posts + added);
            assert(posts.subrange(0, old_posts.len() as int) =~= old_posts);
            assert forall|k: int| old_posts.len() <= k < posts.len() implies (#[trigger] posts[k]).row_id == id by {
                assert(posts[k] == added[k - old_posts.len()]);
            }
            assert forall|tok: Seq<u32>| (exists|k: int| old_posts.len() <= k < posts.len() && (#[trigger] posts[k]).token@ == tok)
                <==> #[trigger] indexes(pre.schemas()[name@].columns@, row, tok) by {
                if exists|k: int| old_posts.len() <= k < posts.len() && (#[trigger] posts[k]).token@ == tok {
                    let k = choose|k: int| old_posts.len() <= k < posts.len() && (#[trigger] posts[k]).token@ == tok;
                    assert(added[k - old_posts.len()] == posts[k]);
                }
                if indexes(pre.schemas()[name@].columns@, row, tok) {
                    let q = choose|q: int| 0 <= q < added.len() && (#[trigger] added[q]).token@ == tok;
                    assert(posts[old_posts.len() + q] == added[q]);
                }
            }
            let tdv = self.data@[i as int];
            assert forall|a: int, b: int| 0 <= a < b < tdv.rows@.len()
                implies (#[trigger] tdv.rows@[a]).id < (#[trigger] tdv.rows@[b]).id by {
                if b < tdv.rows@.len() - 1 {
                    assert(tdv.rows@[a] == pre.data@[i as int].rows@[a]);
                    assert(tdv.rows@[b] == pre.data@[i as int].rows@[b]);
                } else {
                    assert(tdv.rows@[a] == pre.data@[i as int].rows@[a]);
                }
            }
            assert forall|a: int| 0 <= a < tdv.rows@.len() implies (#[trigger] tdv.rows@[a]).id < tdv.next_id by {
                if a < tdv.rows@.len() - 1 {
                    assert(tdv.rows@[a] == pre.data@[i as int].rows@[a]);
                }
            }
            assert forall|x: int| 0 <= x < self.data@.len() implies (#[trigger] self.data@[x]).wf() by {
                if x != i {
                    assert(self.data@[x] == pre.data@[x]);
                }
            }
            assert forall|n: Seq<char>| n != name@ && pre.schemas().contains_key(n) implies {
                &&& self.stored(n) == pre.stored(n)
                &&& self.postings_of(n) == pre.postings_of(n)
                &&& self.next_id_of(n) == pre.next_id_of(n)
            } by {
                lemma_slot_of_key(&pre, n);
            }
        }
        Ok(id)
    }

    /// Files `row` under identifier `row_id` in the index of `name`: one entry
    /// per token of each indexed text column. Rows and identifiers are left
    /// as they are; `TableNotFound` when there is no such table.
    pub fn index_row(&mut self, name: &str, row_id: u64, row: &Row) -> (r: Result<(), DbError>)
        requires
            old(self).wf(),
        ensures
            final(self).wf(),
            final(self).meta == old(self).meta,
            !old(self).schemas().contains_key(name@) ==> r == Err::<(), DbError>(DbError::TableNotFound)
                && final(self).data@ == old(self).data@,
            old(self).schemas().contains_key(name@) ==> r is Ok && {
                &&& final(self).stored(name@) == old(self).stored(name@)
                &&& final(self).next_id_of(name@) == old(self).next_id_of(name@)
                &&& final(self).postings_of(name@).len() >= old(self).postings_of(name@).len()
                &&& final(self).postings_of(name@).subrange(0, old(self).postings_of(name@).len() as int)
                    == old(self).postings_of(name@)
                &&& forall|k: int| old(self).postings_of(name@).len() <= k < final(self).postings_of(name@).len()
                    ==> (#[trigger] final(self).postings_of(name@)[k]).row_id == row_id
                &&& forall|tok: Seq<u32>| (exists|k: int| old(self).postings_of(name@).len() <= k
                    < final(self).postings_of(name@).len() && (#[trigger] final(self).postings_of(name@)[k]).token@ == tok)
                    <==> #[trigger] indexes(old(self).schemas()[name@].columns@, *row, tok)
            },
            forall|n: Seq<char>| n != name@ && old(self).schemas().contains_key(n) ==> {
                &&& final(self).stored(n) == old(self).stored(n)
                &&& final(self).postings_of(n) == old(self).postings_of(n)
                &&& final(self).next_id_of(n) == old(self).next_id_of(n)
            },
    {
        let key = name.to_owned();
        let i = match self.meta.position(&key) {
            None => { return Err(DbError::TableNotFound); },
            Some(i) => i,
        };
        proof { lemma_slot(self, i as int); }
        let ghost pre = *self;
        let ghost old_posts = self.data@[i as int].postings@;
        let mut fresh = postings_for(&self.meta.tables[i].columns, row, row_id);
        let ghost added = fresh@;
        let mut td = self.data.remove(i);
        td.postings.append(&mut fresh);
        self.data.insert(i, td);
        proof {
            assert(self.data@ == pre.data@.update(i as int, td));
            lemma_slot(self, i as int);
            let posts = self.postings_of(name@);
            assert(posts == old_posts + added);
            assert(posts.subrange(0, old_posts.len() as int) =~= old_posts);
            assert forall|k: int| old_posts.len() <= k < posts.len() implies (#[trigger] posts[k]).row_id == row_id by {
                assert(posts[k] == added[k - old_posts.len()]);
            }
            assert forall|tok: Seq<u32>| (exists|k: int| old_posts.len() <= k < posts.len() && (#[trigger] posts[k]).token@ == tok)
                <==> #[trigger] indexes(pre.schemas()[name@].columns@, *row, tok) by {
                if exists|k: int| old_posts.len() <= k < posts.len() && (#[trigger] posts[k]).token@ == tok {
                    let k = choose|k: int| old_posts.len() <= k < posts.len() && (#[trigger] posts[k]).token@ == tok;
                    assert(added[k - old_posts.len()] == posts[k]);
                }
                if indexes(pre.schemas()[name@].columns@, *row, tok) {
                    let q = choose|q: int| 0 <= q < added.len() && (#[trigger] added[q]).token@ == tok;
                    assert(posts[old_posts.len() + q] == added[q]);
                }
            }
            assert forall|x: int| 0 <= x < self.data@.len() implies (#[trigger] self.data@[x]).wf() by {
                if x != i {
                    assert(self.data@[x] == pre.data@[x]);
                } else {
                    assert(self.data@[x].rows@ == pre.data@[x].rows@);
                }
            }
            assert forall|n: Seq<char>| n != name@ && pre.schemas().contains_key(n) implies {
                &&& self.stored(n) == pre.stored(n)
                &&& self.postings_of(n) == pre.postings_of(n)
                &&& self.next_id_of(n) == pre.next_id_of(n)
            } by {
                lemma_slot_of_key(&pre, n);
            }
        }
        Ok(())
    }

    /// Identifiers of the rows of `name` whose indexed text holds `keyword`
    /// (folded as at indexing), each once. Empty for an unknown table or keyword.
    pub fn search(&self, name: &str, keyword: &str) -> (r: Vec<u64>)
        requires
            self.wf(),
        ensures
            !self.schemas().contains_key(name@) ==> r@.len() == 0,
            self.schemas().contains_key(name@) ==>
                r@.to_set() == self.hits(name@, folded(codes(keyword@))),
            r@.no_duplicates(),
    {
        let key = name.to_owned();
        let i = match self.meta.position(&key) {
            None => { return Vec::new(); },
            Some(i) => i,
        };
        proof { lemma_slot(self, i as int); }
        let out = search_postings(&self.data[i].postings, keyword);
        proof {
            assert(out@.to_set() =~= self.hits(name@, folded(codes(keyword@))));
        }
        out
    }

    /// Removes the table `name` with its rows and index entries, in one step;
    /// `TableNotFound` when there is no such table. The name is free again afterwards.
    pub fn drop_table(&mut self, name: &str) -> (r: Result<(), DbError>)
        requires
            old(self).wf(),
        ensures
            final(self).wf(),
            !old(self).schemas().contains_key(name@) ==> r == Err::<(), DbError>(DbError::TableNotFound)
                && final(self).schemas() == old(self).schemas() && final(self).data@ == old(self).data@,
            old(self).schemas().contains_key(name@) ==> r is Ok
                && final(self).schemas() == old(self).schemas().remove(name@),
            forall|n: Seq<char>| n != name@ && old(self).schemas().contains_key(n) ==> {
                &&& final(self).stored(n) == old(self).stored(n)
                &&& final(self).postings_of(n) == old(self).postings_of(n)
                &&& final(self).next_id_of(n) == old(self).next_id_of(n)
            },
    {
        let ghost pre = *self;
        match self.meta.drop_table(name) {
            Err(e) => Err(e),
            Ok(i) => {
                self.data.remove(i);
                proof {
                    assert forall|x: int| 0 <= x < self.data@.len() implies (#[trigger] self.data@[x]).wf() by {
                        let x2 = if x < i { x } else { x + 1 };
                        assert(self.data@[x] == pre.data@[x2]);
                    }
                    assert forall|n: Seq<char>| n != name@ && pre.schemas().contains_key(n) implies {
                        &&& self.stored(n) == pre.stored(n)
                        &&& self.postings_of(n) == pre.postings_of(n)
                        &&& self.next_id_of(n) == pre.next_id_of(n)
                    } by {
                        lemma_slot_of_key(&pre, n);
                        let k = pre.slot(n);
                        assert(k != i);
                        let k2 = if k < i { k } else { k - 1 };
                        assert(self.meta.tables@[k2] == pre.meta.tables@[k]);
                        lemma_slot(self, k2);
                        assert(self.data@[k2] == pre.data@[k]);
                    }
                }
                Ok(())
            },
        }
    }

    /// Replaces the schema of `name` when `alteration_allowed` accepts the change.
    /// Stored rows keep only the values of columns in both the old and the new
    /// schema: a removed column's values are released, so a column added later
    /// under the same name reads `Null` for them.
    pub fn alter_table(&mut self, name: &str, new_schema: TableSchema) -> (r: Result<(), DbError>)
        requires
            old(self).wf(),
        ensures
            final(self).wf(),
            !old(self).schemas().contains_key(name@) ==> r == Err::<(), DbError>(DbError::TableNotFound),
            old(self).schemas().contains_key(name@) && !alteration_allowed(old(self).schemas()[name@], new_schema)
                ==> r == Err::<(), DbError>(DbError::UnsupportedAlteration),
            r is Err ==> final(self).schemas() == old(self).schemas() && final(self).data@ == old(self).data@,
            old(self).schemas().contains_key(name@) && alteration_allowed(old(self).schemas()[name@], new_schema)
                ==> r is Ok && final(self).schemas() == old(self).schemas().insert(name@, new_schema),
            r is Ok ==> {
                let before = old(self).schemas()[name@].columns@;
                &&& final(self).postings_of(name@) == old(self).postings_of(name@)
                &&& final(self).next_id_of(name@) == old(self).next_id_of(name@)
                &&& final(self).stored(name@).len() == old(self).stored(name@).len()
                &&& forall|k: int| 0 <= k < old(self).stored(name@).len() ==> {
                    &&& (#[trigger] final(self).stored(name@)[k]).id == old(self).stored(name@)[k].id
                    &&& final(self).stored(name@)[k].row.cells@
                        == retain_cells(old(self).stored(name@)[k].row.cells@, before, new_schema.columns@)
                }
                &&& forall|k: int, j: int| 0 <= k < old(self).stored(name@).len() && 0 <= j < new_schema.columns@.len()
                    ==> field((#[trigger] final(self).stored(name@)[k]).row, #[trigger] new_schema.columns@[j])
                        == (if column_named(before, new_schema.columns@[j].name@) is Some {
                            field(old(self).stored(name@)[k].row, new_schema.columns@[j])
                        } else {
                            Value::Null
                        })
            },
            forall|n: Seq<char>| n != name@ && old(self).schemas().contains_key(n) ==> {
                &&& final(self).stored(n) == old(self).stored(n)
                &&& final(self).postings_of(n) == old(self).postings_of(n)
                &&& final(self).next_id_of(n) == old(self).next_id_of(n)
            },
    {
        let key = name.to_owned();
        let i = match self.meta.position(&key) {
            None => { return Err(DbError::TableNotFound); },
            Some(i) => i,
        };
        proof { lemma_slot(self, i as int); }
        if !check_alteration(&self.meta.tables[i], &new_schema) {
            return Err(DbError::UnsupportedAlteration);
        }
        let ghost pre = *self;
        let ghost before = self.meta.tables@[i as int].columns@;
        let ghost after_cols = new_schema.columns@;
        let ghost old_rows = self.data@[i as int].rows@;
        let mut rows: Vec<StoredRow> = Vec::new();
        let mut k: usize = 0;
        while k < self.data[i].rows.len()
            invariant
                *self == pre,
                i < self.data@.len(),
                i < self.meta.tables@.len(),
                before == self.meta.tables@[i as int].columns@,
                after_cols == new_schema.columns@,
                old_rows == self.data@[i as int].rows@,
                k <= old_rows.len(),
                rows@.len() == k,
                forall|m: int| 0 <= m < k ==> (#[trigger] rows@[m]).id == old_rows[m].id
                    && rows@[m].row.cells@ == retain_cells(old_rows[m].row.cells@, before, after_cols),
            decreases old_rows.len() - k,
        {
            let sr = &self.data[i].rows[k];
            let kept = retain_row(&sr.row, &self.meta.tables[i].columns, &new_schema.columns);
            rows.push(StoredRow { id: sr.id, row: kept });
            k = k + 1;
        }
        let ghost ns = new_schema;
        let r = self.meta.alter_table(name, new_schema);
        let mut td = self.data.remove(i);
        td.rows = rows;
        self.data.insert(i, td);
        proof {
            assert(r is Ok);
            assert(self.data@ == pre.data@.update(i as int, td));
            let q = choose|q: int| 0 <= q < pre.meta.tables@.len() && pre.meta.tables@[q].name@ == name@
                && self.meta.tables@ == pre.meta.tables@.update(q, ns);
            assert(q == i as int);
            assert forall|x: int| 0 <= x < self.data@.len() implies (#[trigger] self.data@[x]).wf() by {
                if x != i {
                    assert(self.data@[x] == pre.data@[x]);
                } else {
                    let t = self.data@[x];
                    let p = pre.data@[x];
                    assert(p.wf());
                    assert forall|a: int, b: int| 0 <= a < b < t.rows@.len()
                        implies (#[trigger] t.rows@[a]).id < (#[trigger] t.rows@[b]).id by {
                        assert(p.rows@[a].id < p.rows@[b].id);
                    }
                    assert forall|a: int| 0 <= a < t.rows@.len() implies (#[trigger] t.rows@[a]).id < t.next_id by {
                        assert(p.rows@[a].id < p.next_id);
                    }
                }
            }
            lemma_slot(self, i as int);
            assert forall|m: int, j: int| 0 <= m < old_rows.len() && 0 <= j < after_cols.len()
                implies field((#[trigger] self.stored(name@)[m]).row, #[trigger] after_cols[j])
                    == (if column_named(before, after_cols[j].name@) is Some {
                        field(old_rows[m].row, after_cols[j])
                    } else {
                        Value::Null
                    }) by {
                assert(self.stored(name@)[m] == rows@[m]);
                lemma_retain_lookup(old_rows[m].row.cells@, before, after_cols, after_cols[j].name@);
                lemma_column_named_own(after_cols, j);
            }
            assert forall|n: Seq<char>| n != name@ && pre.schemas().contains_key(n) implies {
                &&& self.stored(n) == pre.stored(n)
                &&& self.postings_of(n) == pre.postings_of(n)
                &&& self.next_id_of(n) == pre.next_id_of(n)
            } by {
                lemma_slot_of_key(&pre, n);
                let x = pre.slot(n);
                assert(self.meta.tables@[x].name@ == n);
                lemma_slot(self, x);
            }
        }
        r
    }

    /// All rows of `name` in insertion order, each seen through the current
    /// schema; `TableNotFound` when there is no such table.
    pub fn scan_table(&self, name: &str) -> (r: Result<Vec<Row>, DbError>)
        requires
            self.wf(),
        ensures
            !self.schemas().contains_key(name@) ==> r == Err::<Vec<Row>, DbError>(DbError::TableNotFound),
            self.schemas().contains_key(name@) ==> (r matches Ok(rows) && rows@.len() == self.scan_view(name@).len()
                && forall|k: int| 0 <= k < rows@.len() ==> cell_pairs(#[trigger] rows@[k]) == self.scan_view(name@)[k]),
    {
        let key = name.to_owned();
        match self.meta.position(&key) {
            None => Err(DbError::TableNotFound),
            Some(i) => {
                proof { lemma_slot(self, i as int); }
                let cols = &self.meta.tables[i].columns;
                let rows = &self.data[i].rows;
                let mut out: Vec<Row> = Vec::new();
                let mut k: usize = 0;
                while k < rows.len()
                    invariant
                        k <= rows@.len(),
                        rows@ == self.stored(name@),
                        cols@ == self.schemas()[name@].columns@,
                        out@.len() == k,
                        forall|m: int| 0 <= m < k ==> cell_pairs(#[trigger] out@[m]) == self.scan_view(name@)[m],
                    decreases rows@.len() - k,
                {
                    out.push(project_row(cols, &rows[k].row));
                    k = k + 1;
                }
                Ok(out)
            },
        }
    }
}

/// Whether column name `n` is declared in both `before` and `after`.
pub open spec fn in_both(before: Seq<ColumnDef>, after: Seq<ColumnDef>, n: Seq<char>) -> bool {
    column_named(before, n) is Some && column_named(after, n) is Some
}

/// The cells of `cells` whose column is declared in both `before` and `after`, in order.
pub open spec fn retain_cells(cells: Seq<Cell>, before: Seq<ColumnDef>, after: Seq<ColumnDef>) -> Seq<Cell>
    decreases cells.len(),
{
    if cells.len() == 0 {
        Seq::empty()
    } else if in_both(before, after, cells.last().column@) {
        retain_cells(cells.drop_last(), before, after).push(cells.last())
    } else {
        retain_cells(cells.drop_last(), before, after)
    }
}

/// Looking a name up after `retain_cells` gives the old binding for a name in
/// both column lists, and nothing for any other name.
pub proof fn lemma_retain_lookup(cells: Seq<Cell>, before: Seq<ColumnDef>, after: Seq<ColumnDef>, n: Seq<char>)
    ensures
        lookup(retain_cells(cells, before, after), n)
            == (if in_both(before, after, n) { lookup(cells, n) } else { None::<Value> }),
    decreases cells.len(),
{
    if cells.len() > 0 {
        lemma_retain_lookup(cells.drop_last(), before, after, n);
        let rest = retain_cells(cells.drop_last(), before, after);
        if in_both(before, after, cells.last().column@) {
            assert(rest.push(cells.last()).drop_last() == rest);
        }
    }
}

/// A declared column's own name finds a column.
pub proof fn lemma_column_named_own(cols: Seq<ColumnDef>, j: int)
    requires
        0 <= j < cols.len(),
    ensures
        column_named(cols, cols[j].name@) is Some,
    decreases cols.len(),
{
    if j > 0 && cols[0].name@ != cols[j].name@ {
        let rest = cols.subrange(1, cols.len() as int);
        assert(rest[j - 1] == cols[j]);
        lemma_column_named_own(rest, j - 1);
    }
}

/// `row` keeping only the cells of columns declared in both `before` and `after`.
pub fn retain_row(row: &Row, before: &Vec<ColumnDef>, after: &Vec<ColumnDef>) -> (r: Row)
    ensures
        r.cells@ == retain_cells(row.cells@, before@, after@),
{
    let mut cells: Vec<Cell> = Vec::new();
    let mut k: usize = 0;
    while k < row.cells.len()
        invariant
            k <= row.cells@.len(),
            cells@ == retain_cells(row.cells@.take(k as int), before@, after@),
        decreases row.cells@.len() - k,
    {
        let c = &row.cells[k];
        let keep = find_column(before, &c.column).is_some() && find_column(after, &c.column).is_some();
        proof {
            assert(row.cells@.take(k + 1).drop_last() == row.cells@.take(k as int));
            assert(row.cells@.take(k + 1).last() == row.cells@[k as int]);
        }
        if keep {
            cells.push(Cell { column: c.column.clone(), value: c.value.duplicate() });
        }
        k = k + 1;
    }
    assert(row.cells@.take(k as int) == row.cells@);
    Row { cells }
}

/// The index entries for `row` under identifier `row_id`: one per token of
/// each indexed text column (a token may repeat).
pub fn postings_for(cols: &Vec<ColumnDef>, row: &Row, row_id: u64) -> (r: Vec<Posting>)
    ensures
        forall|k: int| 0 <= k < r@.len() ==> (#[trigger] r@[k]).row_id == row_id,
        forall|tok: Seq<u32>| (exists|k: int| 0 <= k < r@.len() && (#[trigger] r@[k]).token@ == tok)
            <==> #[trigger] indexes(cols@, *row, tok),
{
    let mut out: Vec<Posting> = Vec::new();
    let mut j: usize = 0;
    while j < cols.len()
        invariant
            j <= cols@.len(),
            forall|k: int| 0 <= k < out@.len() ==> (#[trigger] out@[k]).row_id == row_id,
            forall|tok: Seq<u32>| (exists|k: int| 0 <= k < out@.len() && (#[trigger] out@[k]).token@ == tok)
                <==> #[trigger] indexes_upto(cols@, *row, tok, j as int),
        decreases cols@.len() - j,
    {
        let c = &cols[j];
        let ghost before = out@;
        if c.is_indexed && c.data_type == ColumnType::Text {
            match row.get(c.name.as_str()) {
                Some(Value::Text(text)) => {
                    let toks = tokenize(text.as_str());
                    let mut m: usize = 0;
                    while m < toks.len()
                        invariant
                            m <= toks@.len(),
                            out@.len() == before.len() + m,
                            forall|k: int| 0 <= k < before.len() ==> out@[k] == before[k],
                            forall|k: int| 0 <= k < m ==> (#[trigger] out@[before.len() + k]).token@ == toks@[k]@,
                            forall|k: int| 0 <= k < out@.len() ==> (#[trigger] out@[k]).row_id == row_id,
                        decreases toks@.len() - m,
                    {
                        out.push(Posting { token: copy_codes(&toks[m]), row_id });
                        m = m + 1;
                    }
                    proof {
                        assert forall|tok: Seq<u32>| (exists|k: int| 0 <= k < out@.len() && (#[trigger] out@[k]).token@ == tok)
                            <==> #[trigger] indexes_upto(cols@, *row, tok, j + 1) by {
                            if exists|k: int| 0 <= k < out@.len() && (#[trigger] out@[k]).token@ == tok {
                                let k = choose|k: int| 0 <= k < out@.len() && (#[trigger] out@[k]).token@ == tok;
                                if k < before.len() {
                                    assert(before[k].token@ == tok);
                                    assert(indexes_upto(cols@, *row, tok, j as int));
                                } else {
                                    let q = k - before.len();
                                    assert(out@[before.len() + q].token@ == toks@[q]@);
                                    assert(column_indexes(cols@[j as int], *row, tok));
                                }
                            }
                            if indexes_upto(cols@, *row, tok, j + 1) {
                                if indexes_upto(cols@, *row, tok, j as int) {
                                    let k = choose|k: int| 0 <= k < before.len() && (#[trigger] before[k]).token@ == tok;
                                    assert(out@[k] == before[k]);
                                } else {
                                    let i = choose|i: int| 0 <= i < j + 1 && i < cols@.len()
                                        && #[trigger] column_indexes(cols@[i], *row, tok);
                                    assert(i == j);
                                    let q = choose|q: int| 0 <= q < toks@.len() && (#[trigger] toks@[q])@ == tok;
                                    assert(out@[before.len() + q].token@ == tok);
                                }
                            }
                        }
                    }
                },
                _ => {
                    proof { lemma_no_new_column(cols@, *row, j as int); }
                },
            }
        } else {
            proof { lemma_no_new_column(cols@, *row, j as int); }
        }
        j = j + 1;
    }
    out
}

proof fn lemma_no_new_column(cols: Seq<ColumnDef>, row: Row, j: int)
    requires
        0 <= j < cols.len(),
        forall|tok: Seq<u32>| !column_indexes(cols[j], row, tok),
    ensures
        forall|tok: Seq<u32>| #[trigger] indexes_upto(cols, row, tok, j + 1) == indexes_upto(cols, row, tok, j),
{
    assert forall|tok: Seq<u32>| #[trigger] indexes_upto(cols, row, tok, j + 1) implies indexes_upto(cols, row, tok, j) by {
        let i = choose|i: int| 0 <= i < j + 1 && i < cols.len() && #[trigger] column_indexes(cols[i], row, tok);
        assert(i != j);
    }
}

/// A copy of a code-point sequence.
fn copy_codes(v: &Vec<u32>) -> (r: Vec<u32>)
    ensures
        r@ == v@,
{
    let mut r: Vec<u32> = Vec::new();
    let mut i: usize = 0;
    while i < v.len()
        invariant
            i <= v@.len(),
            r@ == v@.take(i as int),
        decreases v@.len() - i,
    {
        r.push(v[i]);
        i = i + 1;
        assert(r@ =~= v@.take(i as int));
    }
    assert(v@.take(i as int) =~= v@);
    r
}

/// Identifiers of the entries of `posts` filed under a token.
pub open spec fn posting_hits(posts: Seq<Posting>, tok: Seq<u32>) -> Set<u64> {
    Set::new(|id: u64| exists|p: int| 0 <= p < posts.len() && (#[trigger] posts[p]).token@ == tok && posts[p].row_id == id)
}

/// Appending entries that all carry `id` adds `id` to the hits of exactly the
/// tokens among the appended entries.
pub proof fn lemma_hits_after_append(old: Seq<Posting>, new: Seq<Posting>, id: u64, tok: Seq<u32>)
    requires
        old.len() <= new.len(),
        new.subrange(0, old.len() as int) == old,
        forall|k: int| old.len() <= k < new.len() ==> (#[trigger] new[k]).row_id == id,
    ensures
        posting_hits(new, tok) == posting_hits(old, tok).union(
            if exists|k: int| old.len() <= k < new.len() && (#[trigger] new[k]).token@ == tok {
                set![id]
            } else {
                Set::<u64>::empty()
            }),
{
    let extra = exists|k: int| old.len() <= k < new.len() && (#[trigger] new[k]).token@ == tok;
    let more = if extra { set![id] } else { Set::<u64>::empty() };
    assert forall|x: u64| posting_hits(new, tok).contains(x) <==> #[trigger] posting_hits(old, tok).union(more).contains(x) by {
        if posting_hits(new, tok).contains(x) {
            let p = choose|p: int| 0 <= p < new.len() && (#[trigger] new[p]).token@ == tok && new[p].row_id == x;
            if p < old.len() {
                assert(new[p] == new.subrange(0, old.len() as int)[p]);
                assert(posting_hits(old, tok).contains(x));
            }
        }
        if posting_hits(old, tok).contains(x) {
            let p = choose|p: int| 0 <= p < old.len() && (#[trigger] old[p]).token@ == tok && old[p].row_id == x;
            assert(new[p] == new.subrange(0, old.len() as int)[p]);
            assert(new[p].token@ == tok && new[p].row_id == x);
        }
        if extra && x == id {
            let k = choose|k: int| old.len() <= k < new.len() && (#[trigger] new[k]).token@ == tok;
            assert(new[k].row_id == x);
        }
    }
    assert(posting_hits(new, tok) =~= posting_hits(old, tok).union(more));
}

/// Identifiers filed in `posts` under the folded form of `keyword`, each once.
pub fn search_postings(posts: &Vec<Posting>, keyword: &str) -> (r: Vec<u64>)
    ensures
        r@.to_set() == posting_hits(posts@, folded(codes(keyword@))),
        r@.no_duplicates(),
{
        let tok = folded_codes(keyword);
        let ghost want = folded(codes(keyword@));
        let mut out: Vec<u64> = Vec::new();
        let mut p: usize = 0;
        while p < posts.len()
            invariant
                p <= posts@.len(),
                
                tok@ == want,
                out@.no_duplicates(),
                forall|id: u64| out@.contains(id) <==> exists|q: int| 0 <= q < p
                    && (#[trigger] posts@[q]).token@ == want && posts@[q].row_id == id,
            decreases posts@.len() - p,
        {
            let ghost prev = out@;
            let hit = same_codes(&posts[p].token, &tok);
            let id = posts[p].row_id;
            if hit && !contains_id(&out, id) {
                out.push(id);
                proof {
                    assert forall|a: int, b: int| 0 <= a < out@.len() && 0 <= b < out@.len() && a != b
                        implies out@[a] != out@[b] by {
                        if a == prev.len() {
                            assert(prev[b] == out@[b]);
                            if out@[b] == id { assert(prev.contains(id)); }
                        } else if b == prev.len() {
                            assert(prev[a] == out@[a]);
                            if out@[a] == id { assert(prev.contains(id)); }
                        } else {
                            assert(prev[a] == out@[a] && prev[b] == out@[b]);
                        }
                    }
                }
            }
            proof {
                assert forall|x: u64| out@.contains(x) <==> exists|q: int| 0 <= q < p + 1
                    && (#[trigger] posts@[q]).token@ == want && posts@[q].row_id == x by {
                    if out@.contains(x) {
                        let k = choose|k: int| 0 <= k < out@.len() && out@[k] == x;
                        if k < prev.len() {
                            assert(prev[k] == x);
                            assert(prev.contains(x));
                            let q = choose|q: int| 0 <= q < p && (#[trigger] posts@[q]).token@ == want && posts@[q].row_id == x;
                            assert(0 <= q < p + 1);
                        } else {
                            assert(posts@[p as int].token@ == want && posts@[p as int].row_id == x);
                        }
                    }
                    if exists|q: int| 0 <= q < p + 1 && (#[trigger] posts@[q]).token@ == want && posts@[q].row_id == x {
                        let q = choose|q: int| 0 <= q < p + 1 && (#[trigger] posts@[q]).token@ == want && posts@[q].row_id == x;
                        if q < p {
                            assert(prev.contains(x));
                            let k = choose|k: int| 0 <= k < prev.len() && prev[k] == x;
                            assert(out@[k] == x);
                        } else if prev.contains(x) {
                            let k = choose|k: int| 0 <= k < prev.len() && prev[k] == x;
                            assert(out@[k] == x);
                        } else {
                            assert(out@[prev.len() as int] == x);
                        }
                    }
                }
            }
            p = p + 1;
        }
        proof {
            assert(out@.to_set() =~= posting_hits(posts@, want));
        }
        out
}

/// Whether two code-point sequences are equal.
fn same_codes(a: &Vec<u32>, b: &Vec<u32>) -> (r: bool)
    ensures
        r == (a@ == b@),
{
    if a.len() != b.len() {
        return false;
    }
    let mut i: usize = 0;
    while i < a.len()
        invariant
            a@.len() == b@.len(),
            i <= a@.len(),
            forall|k: int| 0 <= k < i ==> a@[k] == b@[k],
        decreases a@.len() - i,
    {
        if a[i] != b[i] {
            return false;
        }
        i = i + 1;
    }
    assert(a@ =~= b@);
    true
}

/// Whether `x` occurs in `v`.
fn contains_id(v: &Vec<u64>, x: u64) -> (r: bool)
    ensures
        r == v@.contains(x),
{
    let mut i: usize = 0;
    while i < v.len()
        invariant
            i <= v@.len(),
            forall|k: int| 0 <= k < i ==> v@[k] != x,
        decreases v@.len() - i,
    {
        if v[i] == x {
            return true;
        }
        i = i + 1;
    }
    false
}

/// With distinct names, `slot` finds the position holding the name.
pub proof fn lemma_slot(s: &InMemoryStorage, i: int)
    requires
        s.meta.wf(),
        0 <= i < s.meta.tables@.len(),
    ensures
        s.slot(s.meta.tables@[i].name@) == i,
        s.schemas().contains_key(s.meta.tables@[i].name@),
        s.schemas()[s.meta.tables@[i].name@] == s.meta.tables@[i],
{
    let n = s.meta.tables@[i].name@;
    let j = s.slot(n);
    assert(0 <= j < s.meta.tables@.len() && s.meta.tables@[j].name@ == n);
    lemma_schema_map_at(s.meta.tables@, i);
}

/// A registered name has a slot holding it.
pub proof fn lemma_slot_of_key(s: &InMemoryStorage, name: Seq<char>)
    requires
        s.meta.wf(),
        s.schemas().contains_key(name),
    ensures
        0 <= s.slot(name) < s.meta.tables@.len(),
        s.meta.tables@[s.slot(name)].name@ == name,
{
    let k = choose|k: int| 0 <= k < s.meta.tables@.len() && (#[trigger] s.meta.tables@[k]).name@ == name;
    lemma_slot(s, k);
}

} // verus!
