use vstd::prelude::*;

use crate::columnar::{nulls, ColumnFileTable, ColumnStore};
use crate::storage::{indexes, posting_hits, postings_for, search_postings, Posting};
use crate::tokenize::{codes, folded};
use crate::error::DbError;
use crate::meta::{lemma_schema_map_at, InMemoryMetaService};
use crate::row::Row;
use crate::schema::{schema_ok, alteration_allowed, check_alteration, column_named, find_column, ColumnDef, TableSchema};
use crate::validate::{field, lemma_valid_row, row_violation};
use crate::value::Value;

verus! {

/// The column-file storage engine: the same registry, validation and
/// identifier rules as the in-memory engine, with each table laid out by
/// column, and a keyword index per table. `contents` records, per table and column, the values stored.
pub struct ColumnFileStorage {
    pub meta: InMemoryMetaService,
    pub tables: Vec<ColumnFileTable>,
    pub indexes: Vec<Vec<Posting>>,
    pub contents: Ghost<Seq<Seq<Seq<Value>>>>,
}

impl ColumnFileStorage {
    pub open spec fn wf(&self) -> bool {
        &&& self.meta.wf()
        &&& self.tables@.len() == self.meta.tables@.len()
        &&& self.contents@.len() == self.meta.tables@.len()
        &&& self.indexes@.len() == self.meta.tables@.len()
        &&& forall|i: int| 0 <= i < self.tables@.len()
            ==> (#[trigger] self.tables@[i]).holds_values(self.meta.tables@[i].columns@, self.contents@[i])
    }

    /// The registered schemas by name.
    pub open spec fn schemas(&self) -> Map<Seq<char>, TableSchema> {
        self.meta@
    }

    /// Position of the table `name`.
    pub open spec fn slot(&self, name: Seq<char>) -> int {
        choose|i: int| 0 <= i < self.meta.tables@.len() && (#[trigger] self.meta.tables@[i]).name@ == name
    }

    /// The values stored for `name`, column by column in declared order.
    pub open spec fn values(&self, name: Seq<char>) -> Seq<Seq<Value>> {
        self.contents@[self.slot(name)]
    }

    /// The index entries of `name`.
    pub open spec fn postings_of(&self, name: Seq<char>) -> Seq<Posting> {
        self.indexes@[self.slot(name)]@
    }

    /// The number of rows stored for `name`.
    pub open spec fn row_count(&self, name: Seq<char>) -> nat {
        self.tables@[self.slot(name)].row_count as nat
    }

    /// What a scan of `name` returns: per row, one (column name, value) pair per column.
    pub open spec fn scan_view(&self, name: Seq<char>) -> Seq<Seq<(Seq<char>, Value)>> {
        Seq::new(self.row_count(name), |k: int| Seq::new(self.schemas()[name].columns@.len(),
            |j: int| (self.schemas()[name].columns@[j].name@, self.values(name)[j][k])))
    }
}

/// With distinct names, `slot` finds the position holding the name.
pub proof fn lemma_column_slot(s: &ColumnFileStorage, i: int)
    requires
        s.meta.wf(),
        0 <= i < s.meta.tables@.len(),
    ensures
        s.slot(s.meta.tables@[i].name@) == i,
        s.schemas().contains_key(s.meta.tables@[i].name@),
        s.schemas()[s.meta.tables@[i].name@] == s.meta.tables@[i],
{
    let n = s.meta.tables@[i].name@;
    let j = s.slot(n);
    assert(0 <= j < s.meta.tables@.len() && s.meta.tables@[j].name@ == n);
    lemma_schema_map_at(s.meta.tables@, i);
}

proof fn lemma_holds_values_intro(t: ColumnFileTable, cols: Seq<ColumnDef>, vs: Seq<Seq<Value>>)
    requires
        t.columns@.len() == cols.len(),
        vs.len() == cols.len(),
        forall|j: int| 0 <= j < cols.len() ==> (#[trigger] t.columns@[j]).holds(vs[j]) && vs[j].len() == t.row_count,
        forall|j: int, k: int| 0 <= j < cols.len() && 0 <= k < vs[j].len() ==> (#[trigger] vs[j][k]).fits(cols[j].data_type),
    ensures
        t.holds_values(cols, vs),
{
}

proof fn lemma_holds_values_at(t: ColumnFileTable, cols: Seq<ColumnDef>, vs: Seq<Seq<Value>>, j: int)
    requires
        t.holds_values(cols, vs),
        0 <= j < cols.len(),
    ensures
        t.columns@.len() == cols.len(),
        t.columns@[j].holds(vs[j]),
        vs[j].len() == t.row_count,
        forall|k: int| 0 <= k < vs[j].len() ==> (#[trigger] vs[j][k]).fits(cols[j].data_type),
{
    assert(t.columns@[j].holds(vs[j]));
}

/// A registered name has a slot holding it.
pub proof fn lemma_column_slot_of_key(s: &ColumnFileStorage, name: Seq<char>)
    requires
        s.meta.wf(),
        s.schemas().contains_key(name),
    ensures
        0 <= s.slot(name) < s.meta.tables@.len(),
        s.meta.tables@[s.slot(name)].name@ == name,
{
    let k = choose|k: int| 0 <= k < s.meta.tables@.len() && (#[trigger] s.meta.tables@[k]).name@ == name;
    lemma_column_slot(s, k);
}

impl ColumnFileStorage {
    /// An engine with no tables.
    pub fn new() -> (r: Self)
        ensures
            r.wf(),
            r.schemas() == Map::<Seq<char>, TableSchema>::empty(),
    {
        ColumnFileStorage { meta: InMemoryMetaService::new(), tables: Vec::new(), indexes: Vec::new(), contents: Ghost(Seq::empty()) }
    }

    /// Registers `schema` with empty column stores; `InvalidSchema` when it breaks the
    /// schema rules, else `DuplicateTable` when the name is taken.
    pub fn create_table(&mut self, schema: TableSchema) -> (r: Result<(), DbError>)
        requires
            old(self).wf(),
        ensures
            final(self).wf(),
            !schema_ok(schema) ==> r == Err::<(), DbError>(DbError::InvalidSchema)
                && final(self).schemas() == old(self).schemas(),
            schema_ok(schema) && old(self).schemas().contains_key(schema.name@) ==> r == Err::<(), DbError>(DbError::DuplicateTable)
                && final(self).schemas() == old(self).schemas(),
            r is Err ==> final(self).tables@ == old(self).tables@ && final(self).contents@ == old(self).contents@
                && final(self).indexes@ == old(self).indexes@,
            schema_ok(schema) && !old(self).schemas().contains_key(schema.name@) ==> r is Ok
                && final(self).schemas() == old(self).schemas().insert(schema.name@, schema)
                && final(self).row_count(schema.name@) == 0
                && final(self).postings_of(schema.name@).len() == 0,
            forall|n: Seq<char>| n != schema.name@ && old(self).schemas().contains_key(n) ==> {
                &&& final(self).values(n) == old(self).values(n)
                &&& final(self).row_count(n) == old(self).row_count(n)
                &&& final(self).postings_of(n) == old(self).postings_of(n)
            },
    {
        let ghost pre = *self;
        let ghost n0 = schema.name@;
        let ghost cols = schema.columns@;
        let table = ColumnFileTable::new(&schema.columns);
        let r = self.meta.create_table(schema);
        if r.is_ok() {
            self.tables.push(table);
            self.indexes.push(Vec::new());
            let ghost empty = Seq::new(cols.len(), |j: int| Seq::<Value>::empty());
            self.contents = Ghost(self.contents@.push(empty));
            proof {
                assert forall|j: int| 0 <= j < cols.len() implies (#[trigger] table.columns@[j]).holds(empty[j]) by {
                    assert(crate::columnar::column_values(Seq::<Row>::empty(), cols[j]) =~= empty[j]);
                }
            }
        }
        proof {
            let len = pre.meta.tables@.len();
            assert forall|i: int| 0 <= i < self.tables@.len() implies
                (#[trigger] self.tables@[i]).holds_values(self.meta.tables@[i].columns@, self.contents@[i]) by {
                if i < len {
                    assert(self.tables@[i] == pre.tables@[i]);
                    assert(self.meta.tables@[i] == pre.meta.tables@[i]);
                    assert(self.contents@[i] == pre.contents@[i]);
                }
            }
            if r.is_ok() {
                assert(self.meta.tables@[len as int].name@ == n0);
                lemma_column_slot(self, len as int);
            }
            assert forall|n: Seq<char>| n != n0 && pre.schemas().contains_key(n) implies {
                &&& self.values(n) == pre.values(n)
                &&& self.row_count(n) == pre.row_count(n)
                &&& self.postings_of(n) == pre.postings_of(n)
            } by {
                lemma_column_slot_of_key(&pre, n);
                let i = pre.slot(n);
                assert(self.meta.tables@[i] == pre.meta.tables@[i]);
                lemma_column_slot(self, i);
                assert(self.tables@[i] == pre.tables@[i]);
                assert(self.contents@[i] == pre.contents@[i]);
                assert(self.indexes@[i] == pre.indexes@[i]);
            }
        }
        r
    }
}

impl ColumnFileStorage {
    /// The schema registered under `name`; `TableNotFound` when there is none.
    pub fn get_table(&self, name: &str) -> (r: Result<&TableSchema, DbError>)
        requires
            self.wf(),
        ensures
            match r {
                Ok(s) => self.schemas().contains_key(name@) && *s == self.schemas()[name@],
                Err(e) => !self.schemas().contains_key(name@) && e == DbError::TableNotFound,
            },
    {
        match self.meta.get_table(name) {
            Some(s) => Ok(s),
            None => Err(DbError::TableNotFound),
        }
    }

    /// Validates `row` against the current schema of `name` and appends it to
    /// every column store. Returns its identifier, the row's position.
    pub fn insert_row(&mut self, name: &str, row: Row) -> (r: Result<u64, DbError>)
        requires
            old(self).wf(),
        ensures
            final(self).wf(),
            final(self).meta == old(self).meta,
            !old(self).schemas().contains_key(name@) ==> r == Err::<u64, DbError>(DbError::TableNotFound),
            old(self).schemas().contains_key(name@) ==> match row_violation(old(self).schemas()[name@].columns@, row) {
                Some((n, why)) => r matches Err(DbError::SchemaMismatch { column, reason })
                    && column@ == n && reason == why,
                None => if old(self).row_count(name@) == usize::MAX {
                    r == Err::<u64, DbError>(DbError::StorageFailure)
                } else {
                    r == Ok::<u64, DbError>(old(self).row_count(name@) as u64)
                },
            },
            r is Err ==> final(self).contents@ == old(self).contents@ && final(self).tables@ == old(self).tables@
                && final(self).indexes@ == old(self).indexes@,
            r matches Ok(id) ==> {
                &&& final(self).postings_of(name@).len() >= old(self).postings_of(name@).len()
                &&& final(self).postings_of(name@).subrange(0, old(self).postings_of(name@).len() as int)
                    == old(self).postings_of(name@)
                &&& forall|k: int| old(self).postings_of(name@).len() <= k < final(self).postings_of(name@).len()
                    ==> (#[trigger] final(self).postings_of(name@)[k]).row_id == id
                &&& forall|tok: Seq<u32>| (exists|k: int| old(self).postings_of(name@).len() <= k
                    < final(self).postings_of(name@).len() && (#[trigger] final(self).postings_of(name@)[k]).token@ == tok)
                    <==> #[trigger] indexes(old(self).schemas()[name@].columns@, row, tok)
            },
            r is Ok ==> {
                &&& final(self).row_count(name@) == old(self).row_count(name@) + 1
                &&& final(self).values(name@).len() == old(self).values(name@).len()
                &&& forall|j: int| 0 <= j < old(self).values(name@).len() ==> #[trigger] final(self).values(name@)[j]
                    == old(self).values(name@)[j].push(field(row, old(self).schemas()[name@].columns@[j]))
            },
            forall|n: Seq<char>| n != name@ && old(self).schemas().contains_key(n) ==> {
                &&& final(self).values(n) == old(self).values(n)
                &&& final(self).row_count(n) == old(self).row_count(n)
                &&& final(self).postings_of(n) == old(self).postings_of(n)
            },
    {
        let key = name.to_owned();
        let i = match self.meta.position(&key) {
            None => { return Err(DbError::TableNotFound); },
            Some(i) => i,
        };
        proof { lemma_column_slot(self, i as int); }
        let ghost pre = *self;
        let ghost cols = self.meta.tables@[i as int].columns@;
        let mut t = self.tables.remove(i);
        let r = t.append_row(&self.meta.tables[i].columns, &row);
        self.tables.insert(i, t);
        proof {
            assert(self.tables@ == pre.tables@.update(i as int, t));
            if r.is_err() {
                assert(self.tables@ =~= pre.tables@);
            }
        }
        if let Ok(id) = r {
            let ghost old_posts = self.indexes@[i as int]@;
            let mut fresh = postings_for(&self.meta.tables[i].columns, &row, id);
            let ghost added = fresh@;
            let mut ix = self.indexes.remove(i);
            ix.append(&mut fresh);
            self.indexes.insert(i, ix);
            proof {
                assert(self.indexes@ == pre.indexes@.update(i as int, ix));
                lemma_column_slot(self, i as int);
                let posts = self.postings_of(name@);
                assert(posts == old_posts + added);
                assert(posts.subrange(0, old_posts.len() as int) =~= old_posts);
                assert forall|k: int| old_posts.len() <= k < posts.len() implies (#[trigger] posts[k]).row_id == id by {
                    assert(posts[k] == added[k - old_posts.len()]);
                }
                assert forall|tok: Seq<u32>| (exists|k: int| old_posts.len() <= k < posts.len() && (#[trigger] posts[k]).token@ == tok)
                    <==> #[trigger] indexes(pre.schemas()[name@].columns@, row, tok) by {
                    if exists|k: int| old_posts.len() <= k < posts.len() && (#[trigger] posts[k]).token@ == tok {
                        let k = choose|k: int| old_posts.len() <= k < posts.len() && (#[trigger] posts[k]).token@ == tok;
                        assert(added[k - old_posts.len()] == posts[k]);
                    }
                    if indexes(pre.schemas()[name@].columns@, row, tok) {
                        let q = choose|q: int| 0 <= q < added.len() && (#[trigger] added[q]).token@ == tok;
                        assert(posts[old_posts.len() + q] == added[q]);
                    }
                }
            }
            let ghost old_vs = self.contents@[i as int];
            let ghost new_vs = Seq::new(cols.len(), |j: int| old_vs[j].push(field(row, cols[j])));
            self.contents = Ghost(self.contents@.update(i as int, new_vs));
            proof {
                let pt = pre.tables@[i as int];
                assert(pt.holds_values(cols, old_vs));
                lemma_valid_row(cols, row);
                assert forall|j: int| 0 <= j < cols.len() implies
                    (#[trigger] t.columns@[j]).holds(new_vs[j]) && new_vs[j].len() == t.row_count by {
                    assert(pt.columns@[j].holds(old_vs[j]));
                    assert(new_vs[j] == old_vs[j].push(field(row, cols[j])));
                }
                assert forall|j: int, k: int| 0 <= j < cols.len() && 0 <= k < new_vs[j].len()
                    implies (#[trigger] new_vs[j][k]).fits(cols[j].data_type) by {
                    assert(new_vs[j] == old_vs[j].push(field(row, cols[j])));
                    assert(pt.columns@[j].holds(old_vs[j]));
                    if k < old_vs[j].len() {
                        assert(new_vs[j][k] == old_vs[j][k]);
                        assert(old_vs[j][k].fits(cols[j].data_type));
                    } else {
                        assert(new_vs[j][k] == field(row, cols[j]));
                    }
                }
                lemma_holds_values_intro(t, cols, new_vs);
            }
        }
        proof {
            assert forall|x: int| 0 <= x < self.tables@.len() implies
                (#[trigger] self.tables@[x]).holds_values(self.meta.tables@[x].columns@, self.contents@[x]) by {
                if x != i {
                    assert(self.tables@[x] == pre.tables@[x]);
                    assert(self.contents@[x] == pre.contents@[x]);
                }
            }
            lemma_column_slot(self, i as int);
            assert forall|n: Seq<char>| n != name@ && pre.schemas().contains_key(n) implies {
                &&& self.values(n) == pre.values(n)
                &&& self.row_count(n) == pre.row_count(n)
                &&& self.postings_of(n) == pre.postings_of(n)
            } by {
                lemma_column_slot_of_key(&pre, n);
            }
        }
        r
    }

    /// All rows of `name`, rebuilt from its column stores through the current
    /// schema; `TableNotFound` when there is no such table.
    pub fn scan_table(&self, name: &str) -> (r: Result<Vec<Row>, DbError>)
        requires
            self.wf(),
        ensures
            !self.schemas().contains_key(name@) ==> r == Err::<Vec<Row>, DbError>(DbError::TableNotFound),
            self.schemas().contains_key(name@) ==> (r matches Ok(rows) && rows@.len() == self.scan_view(name@).len()
                && forall|k: int| 0 <= k < rows@.len() ==> {
                    &&& (#[trigger] rows@[k]).cells@.len() == self.scan_view(name@)[k].len()
                    &&& forall|j: int| 0 <= j < rows@[k].cells@.len() ==> {
                        &&& (#[trigger] rows@[k].cells@[j]).column@ == self.scan_view(name@)[k][j].0
                        &&& rows@[k].cells@[j].value.same_value(self.scan_view(name@)[k][j].1)
                    }
                }),
    {
        let key = name.to_owned();
        match self.meta.position(&key) {
            None => Err(DbError::TableNotFound),
            Some(i) => {
                proof {
                    lemma_column_slot(self, i as int);
                    assert(self.tables@[i as int].holds_values(self.meta.tables@[i as int].columns@, self.contents@[i as int]));
                }
                self.tables[i].scan(&self.meta.tables[i].columns)
            },
        }
    }

    /// Removes the table `name` with its column stores; `TableNotFound` when
    /// there is no such table. The name is free again afterwards.
    pub fn drop_table(&mut self, name: &str) -> (r: Result<(), DbError>)
        requires
            old(self).wf(),
        ensures
            final(self).wf(),
            !old(self).schemas().contains_key(name@) ==> r == Err::<(), DbError>(DbError::TableNotFound)
                && final(self).schemas() == old(self).schemas(),
            old(self).schemas().contains_key(name@) ==> r is Ok
                && final(self).schemas() == old(self).schemas().remove(name@),
            forall|n: Seq<char>| n != name@ && old(self).schemas().contains_key(n) ==> {
                &&& final(self).values(n) == old(self).values(n)
                &&& final(self).row_count(n) == old(self).row_count(n)
                &&& final(self).postings_of(n) == old(self).postings_of(n)
            },
    {
        let ghost pre = *self;
        match self.meta.drop_table(name) {
            Err(e) => Err(e),
            Ok(i) => {
                self.tables.remove(i);
                self.indexes.remove(i);
                self.contents = Ghost(self.contents@.remove(i as int));
                proof {
                    assert forall|x: int| 0 <= x < self.tables@.len() implies
                        (#[trigger] self.tables@[x]).holds_values(self.meta.tables@[x].columns@, self.contents@[x]) by {
                        let x2 = if x < i { x } else { x + 1 };
                        assert(self.tables@[x] == pre.tables@[x2]);
                        assert(self.meta.tables@[x] == pre.meta.tables@[x2]);
                        assert(self.contents@[x] == pre.contents@[x2]);
                    }
                    assert forall|n: Seq<char>| n != name@ && pre.schemas().contains_key(n) implies {
                        &&& self.values(n) == pre.values(n)
                        &&& self.row_count(n) == pre.row_count(n)
                &&& self.postings_of(n) == pre.postings_of(n)
                    } by {
                        lemma_column_slot_of_key(&pre, n);
                        let k = pre.slot(n);
                        let k2 = if k < i { k } else { k - 1 };
                        assert(self.meta.tables@[k2] == pre.meta.tables@[k]);
                        lemma_column_slot(self, k2);
                        assert(self.tables@[k2] == pre.tables@[k]);
                        assert(self.contents@[k2] == pre.contents@[k]);
                        assert(self.indexes@[k2] == pre.indexes@[k]);
                    }
                }
                Ok(())
            },
        }
    }
}

impl ColumnFileStorage {
    /// Replaces the schema of `name` when `alteration_allowed` accepts the
    /// change, and lays the stores out anew: a kept column keeps its values,
    /// an added column reads `Null` for every stored row, a removed column's
    /// store is released.
    #[verifier::spinoff_prover]
    #[verifier::rlimit(40)]
    pub fn alter_table(&mut self, name: &str, new_schema: TableSchema) -> (r: Result<(), DbError>)
        requires
            old(self).wf(),
        ensures
            final(self).wf(),
            !old(self).schemas().contains_key(name@) ==> r == Err::<(), DbError>(DbError::TableNotFound),
            old(self).schemas().contains_key(name@) && !alteration_allowed(old(self).schemas()[name@], new_schema)
                ==> r == Err::<(), DbError>(DbError::UnsupportedAlteration),
            r is Err ==> final(self).schemas() == old(self).schemas() && final(self).contents@ == old(self).contents@,
            old(self).schemas().contains_key(name@) && alteration_allowed(old(self).schemas()[name@], new_schema)
                ==> r is Ok && final(self).schemas() == old(self).schemas().insert(name@, new_schema),
            r is Ok ==> {
                &&& final(self).row_count(name@) == old(self).row_count(name@)
                &&& forall|j: int| 0 <= j < new_schema.columns@.len() ==> {
                    let c = #[trigger] new_schema.columns@[j];
                    let before = old(self).schemas()[name@].columns@;
                    &&& (column_named(before, c.name@) is None
                        ==> final(self).values(name@)[j] == nulls(old(self).row_count(name@)))
                    &&& (column_named(before, c.name@) is Some ==> exists|j0: int| 0 <= j0 < before.len()
                        && before[j0] == column_named(before, c.name@).unwrap()
                        && final(self).values(name@)[j] == old(self).values(name@)[j0])
                }
            },
            forall|n: Seq<char>| n != name@ && old(self).schemas().contains_key(n) ==> {
                &&& final(self).values(n) == old(self).values(n)
                &&& final(self).row_count(n) == old(self).row_count(n)
                &&& final(self).postings_of(n) == old(self).postings_of(n)
            },
    {
        let key = name.to_owned();
        let i = match self.meta.position(&key) {
            None => { return Err(DbError::TableNotFound); },
            Some(i) => i,
        };
        proof { lemma_column_slot(self, i as int); }
        if !check_alteration(&self.meta.tables[i], &new_schema) {
            return Err(DbError::UnsupportedAlteration);
        }
        let ghost pre = *self;
        let ghost old_cols = self.meta.tables@[i as int].columns@;
        let ghost old_vs = self.contents@[i as int];
        let n = self.tables[i].row_count;
        let mut stores: Vec<ColumnStore> = Vec::new();
        let ghost mut new_vs: Seq<Seq<Value>> = Seq::empty();
        let mut j: usize = 0;
        while j < new_schema.columns.len()
            invariant
                j <= new_schema.columns@.len(),
                stores@.len() == j,
                new_vs.len() == j,
                *self == pre,
                0 <= i < self.tables@.len(),
                old_cols == self.meta.tables@[i as int].columns@,
                old_vs == self.contents@[i as int],
                n == self.tables@[i as int].row_count,
                self.tables@[i as int].holds_values(old_cols, old_vs),
                alteration_allowed(self.meta.tables@[i as int], new_schema),
                self.wf(),
                i < self.meta.tables@.len(),
                forall|x: int| 0 <= x < j ==> (#[trigger] stores@[x]).holds(new_vs[x]),
                forall|x: int| 0 <= x < j ==> (#[trigger] new_vs[x]).len() == n,
                forall|x: int, k: int| 0 <= x < j && 0 <= k < new_vs[x].len()
                    ==> (#[trigger] new_vs[x][k]).fits(new_schema.columns@[x].data_type),
                forall|x: int| 0 <= x < j && column_named(old_cols, (#[trigger] new_schema.columns@[x]).name@) is None
                    ==> new_vs[x] == nulls(n as nat),
                forall|x: int| 0 <= x < j && column_named(old_cols, (#[trigger] new_schema.columns@[x]).name@) is Some
                    ==> exists|j0: int| 0 <= j0 < old_cols.len()
                        && old_cols[j0] == column_named(old_cols, new_schema.columns@[x].name@).unwrap()
                        && new_vs[x] == old_vs[j0],
            decreases new_schema.columns@.len() - j,
        {
            let ghost prev_vs = new_vs;
            let ghost prev_st = stores@;
            match find_column(&self.meta.tables[i].columns, &new_schema.columns[j].name) {
                Some(j0) => {
                    proof { lemma_holds_values_at(self.tables@[i as int], old_cols, old_vs, j0 as int); }
                    let st = self.tables[i].columns[j0].copy();
                    stores.push(st);
                    proof {
                        new_vs = new_vs.push(old_vs[j0 as int]);
                        let c = new_schema.columns@[j as int];
                        assert(crate::schema::new_column_ok(old_cols, c));
                        assert(c.data_type == old_cols[j0 as int].data_type);
                        assert(stores@[j as int] == st);
                        assert(st.holds(old_vs[j0 as int]));
                        assert(new_vs[j as int] == old_vs[j0 as int]);
                        assert(stores@[j as int].holds(new_vs[j as int]) && new_vs[j as int].len() == n);
                        assert forall|k: int| 0 <= k < new_vs[j as int].len()
                            implies (#[trigger] new_vs[j as int][k]).fits(c.data_type) by {
                            assert(old_vs[j0 as int][k].fits(old_cols[j0 as int].data_type));
                        }
                    }
                },
                None => {
                    let st = ColumnStore::null_column(n);
                    stores.push(st);
                    proof {
                        new_vs = new_vs.push(nulls(n as nat));
                        assert(stores@[j as int] == st);
                        assert(new_vs[j as int] == nulls(n as nat));
                        assert(stores@[j as int].holds(new_vs[j as int]) && new_vs[j as int].len() == n);
                        assert forall|k: int| 0 <= k < new_vs[j as int].len()
                            implies (#[trigger] new_vs[j as int][k]).fits(new_schema.columns@[j as int].data_type) by {
                        }
                    }
                },
            }
            proof {
                assert(stores@[j as int].holds(new_vs[j as int]) && new_vs[j as int].len() == n);
                assert forall|x: int| 0 <= x < j + 1 implies (#[trigger] stores@[x]).holds(new_vs[x]) by {
                    if x < j {
                        assert(stores@[x] == prev_st[x]);
                        assert(new_vs[x] == prev_vs[x]);
                        assert(prev_st[x].holds(prev_vs[x]));
                    }
                }
                assert forall|x: int| 0 <= x < j + 1 implies (#[trigger] new_vs[x]).len() == n by {
                    if x < j {
                        assert(new_vs[x] == prev_vs[x]);
                        assert(prev_vs[x].len() == n);
                    }
                }
                assert forall|x: int, k: int| 0 <= x < j + 1 && 0 <= k < new_vs[x].len()
                    implies (#[trigger] new_vs[x][k]).fits(new_schema.columns@[x].data_type) by {
                    if x < j {
                        assert(new_vs[x] == prev_vs[x]);
                    }
                }
                assert forall|x: int| 0 <= x < j + 1 && column_named(old_cols, (#[trigger] new_schema.columns@[x]).name@) is None
                    implies new_vs[x] == nulls(n as nat) by {
                    if x < j {
                        assert(new_vs[x] == prev_vs[x]);
                    }
                }
                assert forall|x: int| 0 <= x < j + 1 && column_named(old_cols, (#[trigger] new_schema.columns@[x]).name@) is Some
                    implies exists|j0: int| 0 <= j0 < old_cols.len()
                        && old_cols[j0] == column_named(old_cols, new_schema.columns@[x].name@).unwrap()
                        && new_vs[x] == old_vs[j0] by {
                    if x < j {
                        assert(new_vs[x] == prev_vs[x]);
                    }
                }
            }
            j = j + 1;
        }
        let ghost ns = new_schema;
        let r = self.meta.alter_table(name, new_schema);
        let table = ColumnFileTable { row_count: n, columns: stores };
        self.tables.set(i, table);
        self.contents = Ghost(self.contents@.update(i as int, new_vs));
        proof {
            assert(r is Ok);
            let k = choose|k: int| 0 <= k < pre.meta.tables@.len() && pre.meta.tables@[k].name@ == name@
                && self.meta.tables@ == pre.meta.tables@.update(k, ns);
            assert(k == i as int);
            assert forall|x: int| 0 <= x < ns.columns@.len() implies
                (#[trigger] table.columns@[x]).holds(new_vs[x]) && new_vs[x].len() == table.row_count by {
                assert(stores@[x].holds(new_vs[x]));
            }
            lemma_holds_values_intro(table, ns.columns@, new_vs);
            assert forall|x: int| 0 <= x < self.tables@.len() implies
                (#[trigger] self.tables@[x]).holds_values(self.meta.tables@[x].columns@, self.contents@[x]) by {
                if x != i {
                    assert(self.tables@[x] == pre.tables@[x]);
                    assert(self.meta.tables@[x] == pre.meta.tables@[x]);
                    assert(self.contents@[x] == pre.contents@[x]);
                }
            }
            lemma_column_slot(self, i as int);
            assert forall|m: Seq<char>| m != name@ && pre.schemas().contains_key(m) implies {
                &&& self.values(m) == pre.values(m)
                &&& self.row_count(m) == pre.row_count(m)
                &&& self.postings_of(m) == pre.postings_of(m)
            } by {
                lemma_column_slot_of_key(&pre, m);
                let q = pre.slot(m);
                assert(self.meta.tables@[q].name@ == m);
                lemma_column_slot(self, q);
            }
            assert forall|x: int| 0 <= x < ns.columns@.len() implies {
                let c = #[trigger] ns.columns@[x];
                let before = pre.schemas()[name@].columns@;
                &&& (column_named(before, c.name@) is None ==> self.values(name@)[x] == nulls(pre.row_count(name@)))
                &&& (column_named(before, c.name@) is Some ==> exists|j0: int| 0 <= j0 < before.len()
                    && before[j0] == column_named(before, c.name@).unwrap()
                    && self.values(name@)[x] == pre.values(name@)[j0])
            } by {
                assert(stores@[x].holds(new_vs[x]));
                assert(self.values(name@)[x] == new_vs[x]);
            }
        }
        r
    }
}

impl ColumnFileStorage {
    /// Identifiers of the rows of `name` whose indexed text holds `keyword`
    /// (folded as at indexing), each once. Empty for an unknown table or keyword.
    pub fn search(&self, name: &str, keyword: &str) -> (r: Vec<u64>)
        requires
            self.wf(),
        ensures
            !self.schemas().contains_key(name@) ==> r@.len() == 0,
            self.schemas().contains_key(name@) ==>
                r@.to_set() == posting_hits(self.postings_of(name@), folded(codes(keyword@))),
            r@.no_duplicates(),
    {
        let key = name.to_owned();
        match self.meta.position(&key) {
            None => Vec::new(),
            Some(i) => {
                proof { lemma_column_slot(self, i as int); }
                search_postings(&self.indexes[i], keyword)
            },
        }
    }
}

} // verus!
