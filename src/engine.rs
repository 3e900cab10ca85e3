use vstd::prelude::*;

use crate::column_engine::ColumnFileStorage;
use crate::error::DbError;
use crate::row::Row;
use crate::schema::TableSchema;
use crate::storage::InMemoryStorage;
use crate::storage::{indexes, lemma_hits_after_append, posting_hits};
use crate::tokenize::{codes, folded};
use crate::validate::row_violation;

verus! {

/// What every storage backend offers: schema-checked inserts, scans and
/// keyword search over registered tables. Callers that hold only this interface still know when
/// each call succeeds and which error it reports.
pub trait StorageEngine: Sized {
    /// The backend's own consistency condition.
    spec fn engine_wf(&self) -> bool;

    /// The registered tables by name.
    spec fn registered(&self) -> Map<Seq<char>, TableSchema>;

    /// Number of rows stored for a table.
    spec fn stored_rows(&self, name: Seq<char>) -> nat;

    /// Identifiers the index of a table files under a folded token.
    spec fn keyword_hits(&self, name: Seq<char>, tok: Seq<u32>) -> Set<u64>;

    /// Whether the table can still hand out an identifier.
    spec fn id_space_left(&self, name: Seq<char>) -> bool;

    fn insert_row(&mut self, name: &str, row: Row) -> (r: Result<u64, DbError>)
        requires
            old(self).engine_wf(),
        ensures
            final(self).engine_wf(),
            final(self).registered() == old(self).registered(),
            !old(self).registered().contains_key(name@) ==> r == Err::<u64, DbError>(DbError::TableNotFound),
            old(self).registered().contains_key(name@) ==> match row_violation(old(self).registered()[name@].columns@, row) {
                Some((n, why)) => r matches Err(DbError::SchemaMismatch { column, reason })
                    && column@ == n && reason == why,
                None => if old(self).id_space_left(name@) {
                    r is Ok
                } else {
                    r == Err::<u64, DbError>(DbError::StorageFailure)
                },
            },
            r is Ok ==> final(self).stored_rows(name@) == old(self).stored_rows(name@) + 1,
            r is Err && old(self).registered().contains_key(name@)
                ==> final(self).stored_rows(name@) == old(self).stored_rows(name@),
            r is Err && old(self).registered().contains_key(name@) ==> forall|tok: Seq<u32>|
                #[trigger] final(self).keyword_hits(name@, tok) == old(self).keyword_hits(name@, tok),
            r matches Ok(id) ==> forall|tok: Seq<u32>| #[trigger] final(self).keyword_hits(name@, tok)
                == old(self).keyword_hits(name@, tok).union(
                    if indexes(old(self).registered()[name@].columns@, row, tok) { set![id] } else { Set::<u64>::empty() });

    fn scan_table(&self, name: &str) -> (r: Result<Vec<Row>, DbError>)
        requires
            self.engine_wf(),
        ensures
            !self.registered().contains_key(name@) ==> r == Err::<Vec<Row>, DbError>(DbError::TableNotFound),
            self.registered().contains_key(name@) ==> (r matches Ok(rows) && rows@.len() == self.stored_rows(name@));

    fn search(&self, name: &str, keyword: &str) -> (r: Vec<u64>)
        requires
            self.engine_wf(),
        ensures
            !self.registered().contains_key(name@) ==> r@.len() == 0,
            self.registered().contains_key(name@) ==> r@.to_set() == self.keyword_hits(name@, folded(codes(keyword@))),
            r@.no_duplicates();
}

impl StorageEngine for InMemoryStorage {
    open spec fn engine_wf(&self) -> bool {
        self.wf()
    }

    open spec fn registered(&self) -> Map<Seq<char>, TableSchema> {
        self.schemas()
    }

    open spec fn stored_rows(&self, name: Seq<char>) -> nat {
        self.stored(name).len()
    }

    open spec fn id_space_left(&self, name: Seq<char>) -> bool {
        self.next_id_of(name) != u64::MAX
    }

    open spec fn keyword_hits(&self, name: Seq<char>, tok: Seq<u32>) -> Set<u64> {
        posting_hits(self.postings_of(name), tok)
    }

    fn insert_row(&mut self, name: &str, row: Row) -> (r: Result<u64, DbError>) {
        let ghost pre = *self;
        let r = InMemoryStorage::insert_row(self, name, row);
        proof {
            if let Ok(id) = r {
                assert forall|tok: Seq<u32>| #[trigger] self.keyword_hits(name@, tok)
                    == pre.keyword_hits(name@, tok).union(
                        if indexes(pre.registered()[name@].columns@, row, tok) { set![id] } else { Set::<u64>::empty() }) by {
                    lemma_hits_after_append(pre.postings_of(name@), self.postings_of(name@), id, tok);
                }
            }
        }
        r
    }

    fn scan_table(&self, name: &str) -> (r: Result<Vec<Row>, DbError>) {
        InMemoryStorage::scan_table(self, name)
    }

    fn search(&self, name: &str, keyword: &str) -> (r: Vec<u64>) {
        let r = InMemoryStorage::search(self, name, keyword);
        proof {
            if self.registered().contains_key(name@) {
                assert(self.keyword_hits(name@, folded(codes(keyword@))) == posting_hits(self.postings_of(name@), folded(codes(keyword@))));
            }
        }
        r
    }
}

impl StorageEngine for ColumnFileStorage {
    open spec fn engine_wf(&self) -> bool {
        self.wf()
    }

    open spec fn registered(&self) -> Map<Seq<char>, TableSchema> {
        self.schemas()
    }

    open spec fn stored_rows(&self, name: Seq<char>) -> nat {
        self.row_count(name)
    }

    open spec fn id_space_left(&self, name: Seq<char>) -> bool {
        self.row_count(name) != usize::MAX
    }

    open spec fn keyword_hits(&self, name: Seq<char>, tok: Seq<u32>) -> Set<u64> {
        posting_hits(self.postings_of(name), tok)
    }

    fn insert_row(&mut self, name: &str, row: Row) -> (r: Result<u64, DbError>) {
        let ghost pre = *self;
        let r = ColumnFileStorage::insert_row(self, name, row);
        proof {
            if let Ok(id) = r {
                assert forall|tok: Seq<u32>| #[trigger] self.keyword_hits(name@, tok)
                    == pre.keyword_hits(name@, tok).union(
                        if indexes(pre.registered()[name@].columns@, row, tok) { set![id] } else { Set::<u64>::empty() }) by {
                    lemma_hits_after_append(pre.postings_of(name@), self.postings_of(name@), id, tok);
                }
            }
        }
        r
    }

    fn scan_table(&self, name: &str) -> (r: Result<Vec<Row>, DbError>) {
        ColumnFileStorage::scan_table(self, name)
    }

    fn search(&self, name: &str, keyword: &str) -> (r: Vec<u64>) {
        let r = ColumnFileStorage::search(self, name, keyword);
        proof {
            if self.registered().contains_key(name@) {
                assert(self.keyword_hits(name@, folded(codes(keyword@))) == posting_hits(self.postings_of(name@), folded(codes(keyword@))));
            }
        }
        r
    }
}

} // verus!
