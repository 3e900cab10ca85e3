use vstd::prelude::*;

use crate::error::DbError;
use crate::schema::{alteration_allowed, check_alteration, check_schema, schema_ok, TableSchema};

verus! {

/// Whether no two schemas in `ts` share a name.
pub open spec fn names_distinct(ts: Seq<TableSchema>) -> bool {
    forall|i: int, j: int| 0 <= i < ts.len() && 0 <= j < ts.len() && i != j
        ==> (#[trigger] ts[i]).name@ != (#[trigger] ts[j]).name@
}

/// The registry of table schemas. A dropped table's name is free again:
/// dropping returns the name to the nonexistent state.
pub struct InMemoryMetaService {
    pub tables: Vec<TableSchema>,
}

/// Registry contents as a map from table name to schema.
pub open spec fn schema_map(ts: Seq<TableSchema>) -> Map<Seq<char>, TableSchema> {
    Map::new(
        |n: Seq<char>| exists|i: int| 0 <= i < ts.len() && (#[trigger] ts[i]).name@ == n,
        |n: Seq<char>| ts[choose|i: int| 0 <= i < ts.len() && (#[trigger] ts[i]).name@ == n],
    )
}

/// With distinct names, the entry at position `i` is what the map gives for its name.
pub proof fn lemma_schema_map_at(ts: Seq<TableSchema>, i: int)
    requires
        names_distinct(ts),
        0 <= i < ts.len(),
    ensures
        schema_map(ts).contains_key(ts[i].name@),
        schema_map(ts)[ts[i].name@] == ts[i],
{
    let n = ts[i].name@;
    assert(schema_map(ts).contains_key(n));
    let j = choose|j: int| 0 <= j < ts.len() && (#[trigger] ts[j]).name@ == n;
    assert(i == j);
}

impl InMemoryMetaService {
    pub open spec fn wf(&self) -> bool {
        names_distinct(self.tables@)
    }

    /// The registered tables by name.
    pub open spec fn view(&self) -> Map<Seq<char>, TableSchema> {
        schema_map(self.tables@)
    }

    /// Position of `name` in the table list.
    pub fn position(&self, name: &String) -> (r: Option<usize>)
        requires
            self.wf(),
        ensures
            match r {
                Some(i) => i < self.tables@.len() && self.tables@[i as int].name@ == name@
                    && self@.contains_key(name@) && self@[name@] == self.tables@[i as int],
                None => !self@.contains_key(name@),
            },
    {
        let mut i: usize = 0;
        while i < self.tables.len()
            invariant
                self.wf(),
                i <= self.tables@.len(),
                forall|k: int| 0 <= k < i ==> (#[trigger] self.tables@[k]).name@ != name@,
            decreases self.tables@.len() - i,
        {
            if self.tables[i].name == *name {
                proof { lemma_schema_map_at(self.tables@, i as int); }
                return Some(i);
            }
            i = i + 1;
        }
        None
    }

    /// An empty registry.
    pub fn new() -> (r: Self)
        ensures
            r.wf(),
            r@ == Map::<Seq<char>, TableSchema>::empty(),
            r.tables@.len() == 0,
    {
        let r = InMemoryMetaService { tables: Vec::new() };
        assert(r@ =~= Map::<Seq<char>, TableSchema>::empty());
        r
    }

    /// Registers `schema`; fails with `InvalidSchema` when it breaks the schema
    /// rules, else with `DuplicateTable` when its name is taken.
    pub fn create_table(&mut self, schema: TableSchema) -> (r: Result<(), DbError>)
        requires
            old(self).wf(),
        ensures
            final(self).wf(),
            !schema_ok(schema) ==> r == Err::<(), DbError>(DbError::InvalidSchema) && final(self)@ == old(self)@,
            schema_ok(schema) && old(self)@.contains_key(schema.name@) ==> r == Err::<(), DbError>(DbError::DuplicateTable)
                && final(self)@ == old(self)@,
            schema_ok(schema) && !old(self)@.contains_key(schema.name@) ==> r is Ok
                && final(self)@ == old(self)@.insert(schema.name@, schema),
            r is Ok ==> final(self).tables@ == old(self).tables@.push(schema),
            r is Err ==> final(self).tables@ == old(self).tables@,
    {
        if !check_schema(&schema) {
            return Err(DbError::InvalidSchema);
        }
        match self.position(&schema.name) {
            Some(_) => Err(DbError::DuplicateTable),
            None => {
                let ghost pre = self.tables@;
                let ghost n = schema.name@;
                self.tables.push(schema);
                proof {
                    let post = self.tables@;
                    assert forall|i: int, j: int| 0 <= i < post.len() && 0 <= j < post.len() && i != j
                        implies (#[trigger] post[i]).name@ != (#[trigger] post[j]).name@ by {
                        if i == pre.len() {
                            assert(!(schema_map(pre).contains_key(n)));
                            assert(pre[j] == post[j]);
                        } else if j == pre.len() {
                            assert(!(schema_map(pre).contains_key(n)));
                            assert(pre[i] == post[i]);
                        } else {
                            assert(pre[i] == post[i] && pre[j] == post[j]);
                        }
                    }
                    assert forall|m: Seq<char>| #[trigger] schema_map(post).contains_key(m)
                        <==> schema_map(pre).insert(n, schema).contains_key(m) by {
                        if schema_map(pre).contains_key(m) {
                            let k = choose|k: int| 0 <= k < pre.len() && (#[trigger] pre[k]).name@ == m;
                            assert(post[k] == pre[k]);
                        }
                        if schema_map(post).contains_key(m) && m != n {
                            let k = choose|k: int| 0 <= k < post.len() && (#[trigger] post[k]).name@ == m;
                            assert(k < pre.len());
                            assert(post[k] == pre[k]);
                        }
                        if m == n {
                            assert(post[pre.len() as int].name@ == m);
                        }
                    }
                    assert forall|m: Seq<char>| #[trigger] schema_map(post).contains_key(m)
                        implies schema_map(post)[m] == schema_map(pre).insert(n, schema)[m] by {
                        if m == n {
                            lemma_schema_map_at(post, pre.len() as int);
                        } else {
                            let k = choose|k: int| 0 <= k < post.len() && (#[trigger] post[k]).name@ == m;
                            assert(k < pre.len());
                            assert(post[k] == pre[k]);
                            lemma_schema_map_at(post, k);
                            lemma_schema_map_at(pre, k);
                        }
                    }
                    assert(schema_map(post) =~= schema_map(pre).insert(n, schema));
                }
                Ok(())
            },
        }
    }

    /// Removes the table `name`; fails with `TableNotFound` when it is not registered.
    /// Returns the position the table held.
    pub fn drop_table(&mut self, name: &str) -> (r: Result<usize, DbError>)
        requires
            old(self).wf(),
        ensures
            final(self).wf(),
            !old(self)@.contains_key(name@) ==> r == Err::<usize, DbError>(DbError::TableNotFound)
                && final(self)@ == old(self)@,
            old(self)@.contains_key(name@) ==> r is Ok && final(self)@ == old(self)@.remove(name@),
            r matches Ok(i) ==> i < old(self).tables@.len() && old(self).tables@[i as int].name@ == name@
                && final(self).tables@ == old(self).tables@.remove(i as int),
            r is Err ==> final(self).tables@ == old(self).tables@,
    {
        let key = name.to_owned();
        match self.position(&key) {
            None => Err(DbError::TableNotFound),
            Some(i) => {
                let ghost pre = self.tables@;
                self.tables.remove(i);
                proof {
                    let post = self.tables@;
                    let n = name@;
                    assert forall|a: int, b: int| 0 <= a < post.len() && 0 <= b < post.len() && a != b
                        implies (#[trigger] post[a]).name@ != (#[trigger] post[b]).name@ by {
                        let a2 = if a < i { a } else { a + 1 };
                        let b2 = if b < i { b } else { b + 1 };
                        assert(post[a] == pre[a2] && post[b] == pre[b2]);
                    }
                    assert forall|m: Seq<char>| #[trigger] schema_map(post).contains_key(m)
                        <==> schema_map(pre).remove(n).contains_key(m) by {
                        if schema_map(pre).contains_key(m) && m != n {
                            let k = choose|k: int| 0 <= k < pre.len() && (#[trigger] pre[k]).name@ == m;
                            assert(k != i);
                            let k2 = if k < i { k } else { k - 1 };
                            assert(post[k2] == pre[k]);
                        }
                        if schema_map(post).contains_key(m) {
                            let k = choose|k: int| 0 <= k < post.len() && (#[trigger] post[k]).name@ == m;
                            let k2 = if k < i { k } else { k + 1 };
                            assert(post[k] == pre[k2]);
                            assert(k2 != i);
                        }
                    }
                    assert forall|m: Seq<char>| #[trigger] schema_map(post).contains_key(m)
                        implies schema_map(post)[m] == schema_map(pre).remove(n)[m] by {
                        let k = choose|k: int| 0 <= k < post.len() && (#[trigger] post[k]).name@ == m;
                        let k2 = if k < i { k } else { k + 1 };
                        assert(post[k] == pre[k2]);
                        lemma_schema_map_at(post, k);
                        lemma_schema_map_at(pre, k2);
                    }
                    assert(schema_map(post) =~= schema_map(pre).remove(n));
                }
                Ok(i)
            },
        }
    }

    /// Replaces the schema of `name` by `new_schema` when the change is one that
    /// `alteration_allowed` accepts.
    pub fn alter_table(&mut self, name: &str, new_schema: TableSchema) -> (r: Result<(), DbError>)
        requires
            old(self).wf(),
        ensures
            final(self).wf(),
            !old(self)@.contains_key(name@) ==> r == Err::<(), DbError>(DbError::TableNotFound),
            old(self)@.contains_key(name@) && !alteration_allowed(old(self)@[name@], new_schema)
                ==> r == Err::<(), DbError>(DbError::UnsupportedAlteration),
            r is Err ==> final(self)@ == old(self)@ && final(self).tables@ == old(self).tables@,
            old(self)@.contains_key(name@) && alteration_allowed(old(self)@[name@], new_schema)
                ==> r is Ok && final(self)@ == old(self)@.insert(name@, new_schema),
            r is Ok ==> exists|i: int| 0 <= i < old(self).tables@.len()
                && old(self).tables@[i].name@ == name@
                && final(self).tables@ == old(self).tables@.update(i, new_schema),
    {
        let key = name.to_owned();
        match self.position(&key) {
            None => Err(DbError::TableNotFound),
            Some(i) => {
                if !check_alteration(&self.tables[i], &new_schema) {
                    return Err(DbError::UnsupportedAlteration);
                }
                let ghost pre = self.tables@;
                let ghost ns = new_schema;
                self.tables.set(i, new_schema);
                proof {
                    let post = self.tables@;
                    let n = name@;
                    assert(post[i as int] == ns);
                    assert forall|a: int, b: int| 0 <= a < post.len() && 0 <= b < post.len() && a != b
                        implies (#[trigger] post[a]).name@ != (#[trigger] post[b]).name@ by {
                        assert(post[a].name@ == pre[a].name@ && post[b].name@ == pre[b].name@);
                    }
                    assert forall|m: Seq<char>| #[trigger] schema_map(post).contains_key(m)
                        <==> schema_map(pre).insert(n, ns).contains_key(m) by {
                        if schema_map(pre).contains_key(m) {
                            let k = choose|k: int| 0 <= k < pre.len() && (#[trigger] pre[k]).name@ == m;
                            assert(post[k].name@ == pre[k].name@);
                        }
                        if schema_map(post).contains_key(m) {
                            let k = choose|k: int| 0 <= k < post.len() && (#[trigger] post[k]).name@ == m;
                            assert(post[k].name@ == pre[k].name@);
                        }
                    }
                    assert forall|m: Seq<char>| #[trigger] schema_map(post).contains_key(m)
                        implies schema_map(post)[m] == schema_map(pre).insert(n, ns)[m] by {
                        let k = choose|k: int| 0 <= k < post.len() && (#[trigger] post[k]).name@ == m;
                        assert(post[k].name@ == pre[k].name@);
                        lemma_schema_map_at(post, k);
                        lemma_schema_map_at(pre, k);
                    }
                    assert(schema_map(post) =~= schema_map(pre).insert(n, ns));
                }
                Ok(())
            },
        }
    }

    /// The schema registered under `name`, if any.
    pub fn get_table(&self, name: &str) -> (r: Option<&TableSchema>)
        requires
            self.wf(),
        ensures
            match r {
                Some(s) => self@.contains_key(name@) && *s == self@[name@],
                None => !self@.contains_key(name@),
            },
    {
        let key = name.to_owned();
        match self.position(&key) {
            Some(i) => Some(&self.tables[i]),
            None => None,
        }
    }
}

} // verus!
