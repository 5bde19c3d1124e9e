//! The write-optimized engine: payloads are stored as given, under their id, each
//! call in a transaction of its own, with no index and no queue.
use vstd::prelude::*;
use std::sync::Arc;
use crate::errors::EngineError;
use crate::reads::{
    answer_view, answers_view, ids_view, lemma_lookup_rows_answer, lookup, lookup_many,
    prefix_listing, rows_view, scan_prefix_in, snapshot_answers, snapshot_exact_read,
    snapshot_prefix_listing, stored_answer,
};
use crate::store::{
    begin_read, begin_write, commit, create_database, doc_insert, doc_remove, doc_table_contents,
    key_less, open_doc_table, open_read_doc_table, read_doc_contents, DocTable,
};

verus! {

/// The table that maps an id to its raw payload.
pub const RAW_DOCUMENTS_TABLE: &'static str = "raw_documents";

/// The raw table's name is not empty, as redb asks of a table definition.
pub proof fn lemma_raw_table_name_nonempty()
    ensures
        RAW_DOCUMENTS_TABLE@.len() > 0,
{
    reveal_strlit("raw_documents");
}

/// An engine that writes payloads straight to the database.
pub struct DBEngineWriteOptimized {
    db: Arc<redb::Database>,
}

/// `m` after each record is stored in order, a later record replacing an earlier
/// one with the same id.
pub open spec fn with_records(m: Map<Seq<char>, Seq<u8>>, records: Seq<(String, Vec<u8>)>) -> Map<
    Seq<char>,
    Seq<u8>,
>
    decreases records.len(),
{
    if records.len() == 0 {
        m
    } else {
        with_records(m, records.drop_last()).insert(records.last().0@, records.last().1@)
    }
}

/// Some document table of a write transaction went from holding `m` to holding
/// `m` with `payload` stored under `id`.
pub open spec fn stored_in_a_table(id: Seq<char>, payload: Seq<u8>) -> bool {
    exists|t0: DocTable, t1: DocTable|
        #[trigger] doc_table_contents(t1) == #[trigger] doc_table_contents(t0).insert(id, payload)
}

/// Some document table of a write transaction went from holding `m` to holding
/// `m` with each record stored in order.
pub open spec fn stored_all_in_a_table(records: Seq<(String, Vec<u8>)>) -> bool {
    exists|t0: DocTable, t1: DocTable|
        #[trigger] doc_table_contents(t1) == with_records(#[trigger] doc_table_contents(t0), records)
}

/// Some document table of a write transaction went from holding `m` to holding
/// `m` without `id`, and `existed` says whether `m` held `id`.
pub open spec fn removed_from_a_table(id: Seq<char>, existed: bool) -> bool {
    exists|t0: DocTable, t1: DocTable|
        existed == (#[trigger] doc_table_contents(t0)).contains_key(id) && #[trigger] doc_table_contents(t1)
            == doc_table_contents(t0).remove(id)
}

/// Stores the records in order in the open table, stopping at the first failure.
pub fn store_all(docs: &mut DocTable, records: &Vec<(String, Vec<u8>)>) -> (r: Result<(), EngineError>)
    ensures
        r is Ok ==> doc_table_contents(*final(docs)) == with_records(doc_table_contents(*old(docs)), records@),
        r matches Err(e) ==> e is Storage,
{
    let ghost start = doc_table_contents(*docs);
    let mut i: usize = 0;
    while i < records.len()
        invariant
            i <= records.len(),
            doc_table_contents(*docs) == with_records(start, records@.take(i as int)),
        decreases records.len() - i,
    {
        match doc_insert(docs, records[i].0.as_str(), records[i].1.as_slice()) {
            Ok(()) => {},
            Err(e) => {
                return Err(EngineError::Storage(e.to_string()));
            },
        }
        assert(records@.take(i + 1).drop_last() =~= records@.take(i as int));
        i = i + 1;
    }
    assert(records@.take(records.len() as int) =~= records@);
    Ok(())
}

/// Stores `payload` under `id` in the open table.
pub fn store_pair(docs: &mut DocTable, id: &str, payload: &[u8]) -> (r: Result<(), EngineError>)
    ensures
        r is Ok ==> doc_table_contents(*final(docs)) == doc_table_contents(*old(docs)).insert(id@, payload@),
        r matches Err(e) ==> e is Storage,
{
    match doc_insert(docs, id, payload) {
        Ok(()) => Ok(()),
        Err(e) => Err(EngineError::Storage(e.to_string())),
    }
}

/// Removes `id` from the open table and says whether it was there.
pub fn remove_from(docs: &mut DocTable, id: &str) -> (r: Result<bool, EngineError>)
    ensures
        r matches Ok(existed) ==> {
            &&& existed == doc_table_contents(*old(docs)).contains_key(id@)
            &&& doc_table_contents(*final(docs)) == doc_table_contents(*old(docs)).remove(id@)
        },
        r matches Err(e) ==> e is Storage,
{
    match doc_remove(docs, id) {
        Ok(removed) => Ok(removed.is_some()),
        Err(e) => Err(EngineError::Storage(e.to_string())),
    }
}

impl DBEngineWriteOptimized {
    /// Opens (or creates) the database at `path` and its raw document table.
    pub fn new(path: &str) -> (r: Result<DBEngineWriteOptimized, EngineError>)
        ensures
            r matches Err(e) ==> e is Storage,
    {
        let db = match create_database(path) {
            Ok(db) => db,
            Err(e) => {
                return Err(EngineError::Storage(e.to_string()));
            },
        };
        proof {
            lemma_raw_table_name_nonempty();
        }
        let txn = match begin_write(&db) {
            Ok(txn) => txn,
            Err(e) => {
                return Err(EngineError::Storage(e.to_string()));
            },
        };
        match open_doc_table(&txn, RAW_DOCUMENTS_TABLE) {
            Ok(_) => {},
            Err(e) => {
                return Err(EngineError::Storage(e.to_string()));
            },
        }
        match commit(txn) {
            Ok(()) => {},
            Err(e) => {
                return Err(EngineError::Storage(e.to_string()));
            },
        }
        Ok(DBEngineWriteOptimized { db: Arc::new(db) })
    }

    /// Stores `payload` under `id` in one committed transaction.
    pub fn insert_raw(&self, id: &str, payload: &[u8]) -> (r: Result<(), EngineError>)
        ensures
            r matches Err(e) ==> e is Storage,
            r is Ok ==> stored_in_a_table(id@, payload@),
    {
        proof {
            lemma_raw_table_name_nonempty();
        }
        let txn = match begin_write(&self.db) {
            Ok(txn) => txn,
            Err(e) => {
                return Err(EngineError::Storage(e.to_string()));
            },
        };
        {
            let mut docs = match open_doc_table(&txn, RAW_DOCUMENTS_TABLE) {
                Ok(docs) => docs,
                Err(e) => {
                    return Err(EngineError::Storage(e.to_string()));
                },
            };
            let ghost before = docs;
            match store_pair(&mut docs, id, payload) {
                Ok(()) => {},
                Err(e) => {
                    return Err(e);
                },
            }
            assert(doc_table_contents(docs) == doc_table_contents(before).insert(id@, payload@));
        }
        match commit(txn) {
            Ok(()) => Ok(()),
            Err(e) => Err(EngineError::Storage(e.to_string())),
        }
    }

    /// Stores every record in one transaction, committed only where all were stored.
    pub fn insert_many_raw(&self, records: Vec<(String, Vec<u8>)>) -> (r: Result<(), EngineError>)
        ensures
            r matches Err(e) ==> e is Storage,
            r is Ok ==> stored_all_in_a_table(records@),
    {
        proof {
            lemma_raw_table_name_nonempty();
        }
        let txn = match begin_write(&self.db) {
            Ok(txn) => txn,
            Err(e) => {
                return Err(EngineError::Storage(e.to_string()));
            },
        };
        {
            let mut docs = match open_doc_table(&txn, RAW_DOCUMENTS_TABLE) {
                Ok(docs) => docs,
                Err(e) => {
                    return Err(EngineError::Storage(e.to_string()));
                },
            };
            let ghost before = docs;
            match store_all(&mut docs, &records) {
                Ok(()) => {},
                Err(e) => {
                    return Err(e);
                },
            }
            assert(doc_table_contents(docs) == with_records(doc_table_contents(before), records@));
        }
        match commit(txn) {
            Ok(()) => Ok(()),
            Err(e) => Err(EngineError::Storage(e.to_string())),
        }
    }

    /// The payload stored under `id`, if any.
    pub fn get(&self, id: &str) -> (r: Result<Option<Vec<u8>>, EngineError>)
        ensures
            r matches Err(e) ==> e is Storage,
            r matches Ok(found) ==> snapshot_exact_read(id@, answer_view(found)),
    {
        proof {
            lemma_raw_table_name_nonempty();
        }
        let txn = match begin_read(&self.db) {
            Ok(txn) => txn,
            Err(e) => {
                return Err(EngineError::Storage(e.to_string()));
            },
        };
        let docs = match open_read_doc_table(&txn, RAW_DOCUMENTS_TABLE) {
            Ok(docs) => docs,
            Err(e) => {
                return Err(EngineError::Storage(e.to_string()));
            },
        };
        let r = lookup(&docs, id);
        proof {
            if r is Ok {
                assert(stored_answer(read_doc_contents(docs), id@) == answer_view(r->Ok_0));
            }
        }
        r
    }

    /// For each id, in order, the id and its payload if any.
    pub fn get_many(&self, ids: Vec<String>) -> (r: Result<Vec<(String, Option<Vec<u8>>)>, EngineError>)
        ensures
            r matches Ok(rows) ==> rows.len() == ids.len() && forall|i: int|
                0 <= i < rows.len() ==> (#[trigger] rows@[i]).0@ == ids@[i]@,
            r matches Ok(rows) ==> snapshot_answers(answers_view(rows@), ids_view(ids@)),
            r matches Err(e) ==> e is Storage,
    {
        proof {
            lemma_raw_table_name_nonempty();
        }
        let txn = match begin_read(&self.db) {
            Ok(txn) => txn,
            Err(e) => {
                return Err(EngineError::Storage(e.to_string()));
            },
        };
        let docs = match open_read_doc_table(&txn, RAW_DOCUMENTS_TABLE) {
            Ok(docs) => docs,
            Err(e) => {
                return Err(EngineError::Storage(e.to_string()));
            },
        };
        let ghost asked = ids@;
        let r = lookup_many(&docs, ids);
        proof {
            if r is Ok {
                lemma_lookup_rows_answer(docs, asked, r->Ok_0@);
            }
        }
        r
    }

    /// Removes `id` in one committed transaction and says whether it was stored.
    pub fn delete(&self, id: &str) -> (r: Result<bool, EngineError>)
        ensures
            r matches Err(e) ==> e is Storage,
            r matches Ok(existed) ==> removed_from_a_table(id@, existed),
    {
        proof {
            lemma_raw_table_name_nonempty();
        }
        let txn = match begin_write(&self.db) {
            Ok(txn) => txn,
            Err(e) => {
                return Err(EngineError::Storage(e.to_string()));
            },
        };
        let existed = {
            let mut docs = match open_doc_table(&txn, RAW_DOCUMENTS_TABLE) {
                Ok(docs) => docs,
                Err(e) => {
                    return Err(EngineError::Storage(e.to_string()));
                },
            };
            let ghost before = docs;
            match remove_from(&mut docs, id) {
                Ok(existed) => {
                    assert(existed == doc_table_contents(before).contains_key(id@)
                        && doc_table_contents(docs) == doc_table_contents(before).remove(id@));
                    existed
                },
                Err(e) => {
                    return Err(e);
                },
            }
        };
        match commit(txn) {
            Ok(()) => Ok(existed),
            Err(e) => Err(EngineError::Storage(e.to_string())),
        }
    }

    /// The payloads whose id begins with `prefix`, in id order.
    pub fn scan_prefix(&self, prefix: &str) -> (r: Result<Vec<(String, Vec<u8>)>, EngineError>)
        ensures
            r matches Ok(rows) ==> {
                &&& forall|i: int| 0 <= i < rows.len() ==> prefix@.is_prefix_of((#[trigger] rows@[i]).0@)
                &&& forall|i: int, k: int|
                    0 <= i < k < rows.len() ==> key_less((#[trigger] rows@[i]).0@, (#[trigger] rows@[k]).0@)
                &&& snapshot_prefix_listing(rows_view(rows@), prefix@)
            },
            r matches Err(e) ==> e is Storage,
    {
        proof {
            lemma_raw_table_name_nonempty();
        }
        let txn = match begin_read(&self.db) {
            Ok(txn) => txn,
            Err(e) => {
                return Err(EngineError::Storage(e.to_string()));
            },
        };
        let docs = match open_read_doc_table(&txn, RAW_DOCUMENTS_TABLE) {
            Ok(docs) => docs,
            Err(e) => {
                return Err(EngineError::Storage(e.to_string()));
            },
        };
        let r = scan_prefix_in(&docs, prefix);
        proof {
            if r is Ok {
                let rows = r->Ok_0;
                assert(prefix_listing(rows_view(rows@), read_doc_contents(docs), prefix@));
                assert forall|i: int| 0 <= i < rows.len() implies prefix@.is_prefix_of((#[trigger] rows@[i]).0@) by {
                    assert(rows_view(rows@)[i].0 == rows@[i].0@);
                }
                assert forall|i: int, k: int| 0 <= i < k < rows.len() implies key_less((#[trigger] rows@[i]).0@, (#[trigger] rows@[k]).0@) by {
                    assert(rows_view(rows@)[i].0 == rows@[i].0@);
                    assert(rows_view(rows@)[k].0 == rows@[k].0@);
                }
            }
        }
        r
    }
}

} // verus!
