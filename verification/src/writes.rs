//! The writes of the engine: what each queued operation does to the document table
//! and to the metadata index, and the batch that the writer applies in one
//! transaction.
use vstd::prelude::*;
use crate::index_keys::texts;
use crate::parse::{document_keys, payload_index_keys};
use crate::store::{
    begin_write, commit, doc_insert, doc_remove, doc_table_contents, index_insert, index_remove,
    index_table_contents, open_doc_table, open_index_table, DocTable, IndexTable,
};

verus! {

/// The table that maps a document id to its payload.
pub const DOCUMENTS_TABLE: &'static str = "documents";

/// The multimap table that maps an index key to the ids of the documents that hold it.
pub const METADATA_TABLE: &'static str = "metadata_index";

/// The table names are not empty, as redb asks of a table definition.
pub proof fn lemma_table_names_nonempty()
    ensures
        DOCUMENTS_TABLE@.len() > 0,
        METADATA_TABLE@.len() > 0,
{
    reveal_strlit("documents");
    reveal_strlit("metadata_index");
}

/// An operation queued for the writer.
#[derive(Debug)]
pub enum WriteOp {
    Insert { id: String, payload: Vec<u8> },
    Delete { id: String },
    Upsert { id: String, payload: Vec<u8> },
    ShutDown,
}

/// The plain value of a queued operation.
pub enum WriteOpView {
    Insert { id: Seq<char>, payload: Seq<u8> },
    Delete { id: Seq<char> },
    Upsert { id: Seq<char>, payload: Seq<u8> },
    ShutDown,
}

impl View for WriteOp {
    type V = WriteOpView;

    open spec fn view(&self) -> WriteOpView {
        match self {
            WriteOp::Insert { id, payload } => WriteOpView::Insert { id: id@, payload: payload@ },
            WriteOp::Delete { id } => WriteOpView::Delete { id: id@ },
            WriteOp::Upsert { id, payload } => WriteOpView::Upsert { id: id@, payload: payload@ },
            WriteOp::ShutDown => WriteOpView::ShutDown,
        }
    }
}

/// The plain values of a sequence of operations.
pub open spec fn ops_view(ops: Seq<WriteOp>) -> Seq<WriteOpView> {
    ops.map_values(|op: WriteOp| op@)
}

/// What the two tables hold: documents by id, and (index key, id) pairs.
pub struct StoreView {
    pub docs: Map<Seq<char>, Seq<u8>>,
    pub index: Set<(Seq<char>, Seq<char>)>,
}

/// What a pair of open tables holds.
pub open spec fn tables_view(docs: DocTable, index: IndexTable) -> StoreView {
    StoreView { docs: doc_table_contents(docs), index: index_table_contents(index) }
}

/// The index entries that file `id` under each of `keys`.
pub open spec fn entries_for(keys: Seq<Seq<char>>, id: Seq<char>) -> Set<(Seq<char>, Seq<char>)> {
    Set::new(|e: (Seq<char>, Seq<char>)| keys.contains(e.0) && e.1 == id)
}

/// The store after `payload` is stored under `id` and indexed; whatever was indexed
/// for an earlier payload of `id` stays.
pub open spec fn with_document(s: StoreView, id: Seq<char>, payload: Seq<u8>) -> StoreView {
    StoreView {
        docs: s.docs.insert(id, payload),
        index: s.index + entries_for(document_keys(payload), id),
    }
}

/// The store after the document `id`, if there is one, is removed along with the
/// index entries of its payload.
pub open spec fn without_document(s: StoreView, id: Seq<char>) -> StoreView {
    if s.docs.contains_key(id) {
        StoreView {
            docs: s.docs.remove(id),
            index: s.index - entries_for(document_keys(s.docs[id]), id),
        }
    } else {
        s
    }
}

/// What one operation does to the store.
pub open spec fn apply_op(s: StoreView, op: WriteOpView) -> StoreView {
    match op {
        WriteOpView::Insert { id, payload } => with_document(s, id, payload),
        WriteOpView::Delete { id } => without_document(s, id),
        WriteOpView::Upsert { id, payload } => with_document(without_document(s, id), id, payload),
        WriteOpView::ShutDown => s,
    }
}

/// What a sequence of operations does to the store, first to last.
pub open spec fn apply_ops(s: StoreView, ops: Seq<WriteOpView>) -> StoreView
    decreases ops.len(),
{
    if ops.len() == 0 {
        s
    } else {
        apply_op(apply_ops(s, ops.drop_last()), ops.last())
    }
}

/// Whether a sequence of operations asks the writer to stop.
pub open spec fn has_shutdown(ops: Seq<WriteOpView>) -> bool {
    exists|i: int| 0 <= i < ops.len() && ops[i] is ShutDown
}

/// The texts of the first `i + 1` strings hold a text exactly where the first `i`
/// do, or it is string `i`'s.
proof fn lemma_texts_take_next(keys: Seq<String>, i: int, k: Seq<char>)
    requires
        0 <= i < keys.len(),
    ensures
        texts(keys.take(i + 1)).contains(k) <==> (texts(keys.take(i)).contains(k) || k == keys[i]@),
{
    let prev = texts(keys.take(i));
    let next = texts(keys.take(i + 1));
    assert(next =~= prev.push(keys[i]@));
    if k == keys[i]@ {
        assert(next[i] == k);
    }
    if next.contains(k) {
        let w = choose|w: int| 0 <= w < next.len() && next[w] == k;
        if w < i {
            assert(prev[w] == k);
        }
    }
    if prev.contains(k) {
        let w = choose|w: int| 0 <= w < prev.len() && prev[w] == k;
        assert(next[w] == k);
    }
}

/// Files `id` under each of `keys`. Every insertion is tried; `ok` says whether all
/// of them succeeded, and then the index holds exactly the new entries besides the
/// old ones. With no keys there is nothing to try, and that succeeds.
fn add_index_entries(index: &mut IndexTable, keys: &Vec<String>, id: &str) -> (ok: bool)
    ensures
        ok ==> index_table_contents(*final(index)) == index_table_contents(*old(index))
            + entries_for(texts(keys@), id@),
        keys.len() == 0 ==> ok,
{
    let ghost start = index_table_contents(*index);
    let mut ok = true;
    let mut i: usize = 0;
    while i < keys.len()
        invariant
            i <= keys.len(),
            ok ==> index_table_contents(*index) == start + entries_for(texts(keys@.take(i as int)), id@),
            keys.len() == 0 ==> ok,
        decreases keys.len() - i,
    {
        let r = index_insert(index, keys[i].as_str(), id);
        if r.is_err() {
            ok = false;
        }
        proof {
            if ok {
                assert forall|e: (Seq<char>, Seq<char>)| #[trigger] index_table_contents(*index).contains(e)
                    <==> (start + entries_for(texts(keys@.take(i + 1)), id@)).contains(e) by {
                    lemma_texts_take_next(keys@, i as int, e.0);
                }
                assert(index_table_contents(*index) =~= start + entries_for(texts(keys@.take(i + 1)), id@));
            }
        }
        i = i + 1;
    }
    assert(keys@.take(keys.len() as int) =~= keys@);
    ok
}

/// Removes the entries that file `id` under each of `keys`, trying every removal;
/// where all succeed, exactly those entries are gone. With no keys, that is so.
fn drop_index_entries(index: &mut IndexTable, keys: &Vec<String>, id: &str) -> (ok: bool)
    ensures
        ok ==> index_table_contents(*final(index)) == index_table_contents(*old(index))
            - entries_for(texts(keys@), id@),
        keys.len() == 0 ==> ok,
{
    let ghost start = index_table_contents(*index);
    let mut ok = true;
    let mut i: usize = 0;
    while i < keys.len()
        invariant
            i <= keys.len(),
            ok ==> index_table_contents(*index) == start - entries_for(texts(keys@.take(i as int)), id@),
            keys.len() == 0 ==> ok,
        decreases keys.len() - i,
    {
        let r = index_remove(index, keys[i].as_str(), id);
        if r.is_err() {
            ok = false;
        }
        proof {
            if ok {
                assert forall|e: (Seq<char>, Seq<char>)| #[trigger] index_table_contents(*index).contains(e)
                    <==> (start - entries_for(texts(keys@.take(i + 1)), id@)).contains(e) by {
                    lemma_texts_take_next(keys@, i as int, e.0);
                }
                assert(index_table_contents(*index) =~= start - entries_for(texts(keys@.take(i + 1)), id@));
            }
        }
        i = i + 1;
    }
    assert(keys@.take(keys.len() as int) =~= keys@);
    ok
}

/// Stores `payload` under `id` and indexes it.
fn store_document(docs: &mut DocTable, index: &mut IndexTable, id: &str, payload: &[u8]) -> (ok: bool)
    ensures
        ok ==> tables_view(*final(docs), *final(index)) == with_document(
            tables_view(*old(docs), *old(index)),
            id@,
            payload@,
        ),
{
    let stored = doc_insert(docs, id, payload).is_ok();
    let keys = payload_index_keys(payload);
    let indexed = add_index_entries(index, &keys, id);
    stored && indexed
}

/// Removes the document `id`, if there is one, and the index entries of its payload.
fn remove_document(docs: &mut DocTable, index: &mut IndexTable, id: &str) -> (ok: bool)
    ensures
        ok ==> tables_view(*final(docs), *final(index)) == without_document(
            tables_view(*old(docs), *old(index)),
            id@,
        ),
{
    match doc_remove(docs, id) {
        Ok(Some(old_payload)) => {
            let keys = payload_index_keys(old_payload.as_slice());
            drop_index_entries(index, &keys, id)
        },
        Ok(None) => {
            assert(doc_table_contents(*docs) =~= doc_table_contents(*old(docs)));
            true
        },
        Err(_) => false,
    }
}

/// Applies one operation to the tables; `ok` says whether every storage call
/// succeeded, and then the tables hold what `apply_op` says. A shutdown request
/// makes no call and succeeds.
fn apply_write(docs: &mut DocTable, index: &mut IndexTable, op: &WriteOp) -> (ok: bool)
    ensures
        ok ==> tables_view(*final(docs), *final(index)) == apply_op(
            tables_view(*old(docs), *old(index)),
            op@,
        ),
        op@ is ShutDown ==> ok,
{
    match op {
        WriteOp::Insert { id, payload } => store_document(docs, index, id.as_str(), payload.as_slice()),
        WriteOp::Delete { id } => remove_document(docs, index, id.as_str()),
        WriteOp::Upsert { id, payload } => {
            let removed = remove_document(docs, index, id.as_str());
            let stored = store_document(docs, index, id.as_str(), payload.as_slice());
            removed && stored
        },
        WriteOp::ShutDown => true,
    }
}

/// What a batch did: whether it held a shutdown request, and whether every
/// storage call of it succeeded.
pub struct BatchOutcome {
    pub shutdown: bool,
    pub stored: bool,
}

/// Applies a batch of operations in order, to the end even after a failed storage
/// call. Where every call succeeded, the tables hold what `apply_ops` says.
pub fn apply_batch(docs: &mut DocTable, index: &mut IndexTable, ops: &Vec<WriteOp>) -> (out: BatchOutcome)
    ensures
        out.shutdown == has_shutdown(ops_view(ops@)),
        out.stored ==> tables_view(*final(docs), *final(index)) == apply_ops(
            tables_view(*old(docs), *old(index)),
            ops_view(ops@),
        ),
        (forall|i: int| 0 <= i < ops.len() ==> (#[trigger] ops@[i])@ is ShutDown) ==> out.stored,
{
    let ghost start = tables_view(*docs, *index);
    let mut shutdown = false;
    let mut stored = true;
    let mut i: usize = 0;
    while i < ops.len()
        invariant
            i <= ops.len(),
            shutdown == has_shutdown(ops_view(ops@.take(i as int))),
            stored ==> tables_view(*docs, *index) == apply_ops(start, ops_view(ops@.take(i as int))),
            (forall|j: int| 0 <= j < ops.len() ==> (#[trigger] ops@[j])@ is ShutDown) ==> stored,
        decreases ops.len() - i,
    {
        let ok = apply_write(docs, index, &ops[i]);
        if ops[i].is_shut_down() {
            shutdown = true;
        }
        proof {
            let prev = ops_view(ops@.take(i as int));
            let next = ops_view(ops@.take(i + 1));
            assert(next =~= prev.push(ops@[i as int]@));
            assert(next.drop_last() =~= prev);
            if shutdown {
                if ops@[i as int] is ShutDown {
                    assert(next[i as int] is ShutDown);
                } else {
                    let w = choose|w: int| 0 <= w < prev.len() && prev[w] is ShutDown;
                    assert(next[w] is ShutDown);
                }
            } else {
                assert forall|w: int| 0 <= w < next.len() implies !(next[w] is ShutDown) by {
                    if w < i {
                        assert(next[w] == prev[w]);
                    }
                }
            }
        }
        stored = stored && ok;
        i = i + 1;
    }
    assert(ops@.take(ops.len() as int) =~= ops@);
    BatchOutcome { shutdown, stored }
}

impl WriteOp {
    /// The operation that stores `payload` under `id` and indexes it.
    pub fn insert(id: &str, payload: Vec<u8>) -> (op: WriteOp)
        ensures
            op@ == (WriteOpView::Insert { id: id@, payload: payload@ }),
    {
        WriteOp::Insert { id: String::from_str(id), payload }
    }

    /// The operation that replaces document `id` by `payload`, with its index entries.
    pub fn upsert(id: &str, payload: Vec<u8>) -> (op: WriteOp)
        ensures
            op@ == (WriteOpView::Upsert { id: id@, payload: payload@ }),
    {
        WriteOp::Upsert { id: String::from_str(id), payload }
    }

    /// The operation that removes document `id` and its index entries.
    pub fn delete(id: &str) -> (op: WriteOp)
        ensures
            op@ == (WriteOpView::Delete { id: id@ }),
    {
        WriteOp::Delete { id: String::from_str(id) }
    }

    /// Whether this is a shutdown request.
    pub fn is_shut_down(&self) -> (r: bool)
        ensures
            r == (self@ is ShutDown),
    {
        match self {
            WriteOp::ShutDown => true,
            _ => false,
        }
    }
}

/// Applies a batch in one write transaction on the document and metadata tables,
/// then commits it, and says whether the batch asked the writer to stop. Where the
/// transaction or a table cannot be opened, the batch is dropped and no stop is
/// asked; a failed storage call or commit is passed over.
pub fn commit_batch(db: &redb::Database, ops: &Vec<WriteOp>) -> (stop: bool)
    ensures
        stop ==> has_shutdown(ops_view(ops@)),
{
    proof {
        lemma_table_names_nonempty();
    }
    let txn = match begin_write(db) {
        Ok(txn) => txn,
        Err(_) => {
            return false;
        },
    };
    let mut stop = false;
    {
        let opened_docs = open_doc_table(&txn, DOCUMENTS_TABLE);
        let opened_index = open_index_table(&txn, METADATA_TABLE);
        match (opened_docs, opened_index) {
            (Ok(mut docs), Ok(mut index)) => {
                let outcome = apply_batch(&mut docs, &mut index, ops);
                stop = outcome.shutdown;
            },
            _ => {},
        }
    }
    let _ = commit(txn);
    stop
}

} // verus!
