//! The read-optimized engine: writes are validated, queued, and applied in batches
//! by a writer; reads open their own read transaction.
//!
//! `DBEngine` is the callers' end: it queues writes and serves reads. `Writer` is
//! the end that applies the queue; whoever runs it calls `step` until it says stop.
use vstd::prelude::*;
use vstd::string::StringSliceAdditionalSpecFns;
use crossbeam_channel::{Receiver, Sender};
use std::sync::Arc;
use crate::errors::EngineError;
use crate::parse::{serde_json_accepts, validate_json};
use crate::queue::{
    bounded_queue, channel_capacity, channel_pair, collect_batch, recv_op_within, send_op, Received, BATCH_WINDOW_MS, QUEUE_CAPACITY,
};
use crate::reads::{
    answer_view, answers_view, filter_in, filter_listing, ids_view, lemma_lookup_rows_answer,
    lookup_many, lookup_or_none, prefix_listing, read_answer, rows_view, scan_prefix_in,
    snapshot_answers, snapshot_filter_listing, snapshot_prefix_listing, snapshot_read,
};
use crate::text::dotted;
use crate::store::{
    begin_read, begin_write, commit, create_database, key_less, open_doc_table, open_index_table,
    open_read_doc_table, open_read_index_table, read_doc_contents, read_index_contents,
};
use crate::writes::{
    commit_batch, has_shutdown, ops_view, WriteOp, WriteOpView, DOCUMENTS_TABLE, METADATA_TABLE,
};

verus! {

/// The callers' end of the engine.
pub struct DBEngine {
    db: Arc<redb::Database>,
    queue: Sender<WriteOp>,
}

/// The end of the engine that applies queued writes.
pub struct Writer {
    db: Arc<redb::Database>,
    queue: Receiver<WriteOp>,
}

/// What the writer is to do after a step.
pub enum WorkerStep {
    Continue,
    Stop,
}

/// Every payload of `records` before position `k` is accepted as JSON.
pub open spec fn accepted_before(records: Seq<(String, String)>, k: int) -> bool {
    forall|i: int| 0 <= i < k ==> serde_json_accepts(#[trigger] records[i].1@)
}

/// The operation that stores the JSON text `json_payload`, as its UTF-8 bytes,
/// under `id`; or, where the text is not JSON, the parser's description of why.
pub fn json_insert_op(id: &str, json_payload: &str) -> (r: Result<WriteOp, String>)
    ensures
        r is Ok <==> serde_json_accepts(json_payload@),
        r matches Ok(op) ==> op@ == (WriteOpView::Insert { id: id@, payload: json_payload.spec_bytes() }),
{
    match validate_json(json_payload) {
        Ok(()) => {},
        Err(detail) => {
            return Err(detail);
        },
    }
    let payload = vstd::slice::slice_to_vec(json_payload.as_bytes());
    Ok(WriteOp::Insert { id: String::from_str(id), payload })
}

/// Creates the document and metadata tables where they do not exist yet.
fn create_tables(db: &redb::Database) -> (r: Result<(), EngineError>)
    ensures
        r matches Err(e) ==> e is Storage,
{
    proof {
        crate::writes::lemma_table_names_nonempty();
    }
    let txn = match begin_write(db) {
        Ok(txn) => txn,
        Err(e) => {
            return Err(EngineError::Storage(e.to_string()));
        },
    };
    {
        match open_doc_table(&txn, DOCUMENTS_TABLE) {
            Ok(_) => {},
            Err(e) => {
                return Err(EngineError::Storage(e.to_string()));
            },
        }
        match open_index_table(&txn, METADATA_TABLE) {
            Ok(_) => {},
            Err(e) => {
                return Err(EngineError::Storage(e.to_string()));
            },
        }
    }
    match commit(txn) {
        Ok(()) => Ok(()),
        Err(e) => Err(EngineError::Storage(e.to_string())),
    }
}

impl DBEngine {
    /// How many operations the engine's write queue holds before a write waits.
    pub closed spec fn queue_capacity(&self) -> nat {
        channel_capacity(self.queue)
    }

    /// Whether `writer` applies this engine's writes: it receives from the channel
    /// the engine sends on, and works on the same database.
    pub closed spec fn serves(&self, writer: Writer) -> bool {
        channel_pair(self.queue, writer.queue) && self.db == writer.db
    }

    /// Opens (or creates) the database at `path` with its tables, and the write queue
    /// between the engine and its writer, which holds `QUEUE_CAPACITY` operations.
    pub fn new(path: &str) -> (r: Result<(DBEngine, Writer), EngineError>)
        ensures
            r matches Ok((engine, writer)) ==> engine.queue_capacity() == QUEUE_CAPACITY
                && engine.serves(writer),
            r matches Err(e) ==> e is Storage,
    {
        let db = match create_database(path) {
            Ok(db) => db,
            Err(e) => {
                return Err(EngineError::Storage(e.to_string()));
            },
        };
        match create_tables(&db) {
            Ok(()) => {},
            Err(e) => {
                return Err(e);
            },
        }
        let (sender, receiver) = bounded_queue(QUEUE_CAPACITY);
        let shared = Arc::new(db);
        let engine = DBEngine { db: shared.clone(), queue: sender };
        let writer = Writer { db: shared, queue: receiver };
        Ok((engine, writer))
    }

    /// Queues an operation for the writer; a closed queue hands it back.
    fn enqueue(&self, op: WriteOp) -> (r: Result<(), EngineError>)
        ensures
            r matches Err(e) ==> (e matches EngineError::QueueClosed { rejected, .. } && rejected@ == op@),
    {
        match send_op(&self.queue, op) {
            Ok(()) => Ok(()),
            Err((rejected, detail)) => Err(EngineError::QueueClosed { rejected, detail }),
        }
    }

    /// Asks the writer to stop once it has applied what was queued before: queues
    /// a shutdown request, which a closed queue hands back.
    pub fn close_engine(&self) -> (r: Result<(), EngineError>)
        ensures
            r matches Err(e) ==> (e matches EngineError::ShutdownRefused { rejected, .. }
                && rejected@ is ShutDown),
    {
        match send_op(&self.queue, WriteOp::ShutDown) {
            Ok(()) => Ok(()),
            Err((rejected, detail)) => Err(EngineError::ShutdownRefused { rejected, detail }),
        }
    }

    /// Queues the insert of `payload` under `id`; a closed queue hands it back.
    pub fn insert(&self, id: &str, payload: Vec<u8>) -> (r: Result<(), EngineError>)
        ensures
            r matches Err(e) ==> (e matches EngineError::QueueClosed { rejected, .. } && rejected@
                == (WriteOpView::Insert { id: id@, payload: payload@ })),
    {
        self.enqueue(WriteOp::insert(id, payload))
    }

    /// Checks that `json_payload` is JSON and queues it to be stored under `id`; a
    /// payload that is not JSON is refused and nothing is queued.
    pub fn insert_json(&self, id: &str, json_payload: &str) -> (r: Result<(), EngineError>)
        ensures
            (r matches Err(EngineError::Validation { .. })) <==> !serde_json_accepts(json_payload@),
            r matches Err(EngineError::Validation { id: refused, .. }) ==> refused@ == id@,
            r matches Err(e) ==> (e is Validation || e is QueueClosed),
            r matches Err(EngineError::QueueClosed { rejected, .. }) ==> rejected@ == (WriteOpView::Insert {
                id: id@,
                payload: json_payload.spec_bytes(),
            }),
    {
        match json_insert_op(id, json_payload) {
            Ok(op) => self.enqueue(op),
            Err(detail) => Err(EngineError::Validation { id: String::from_str(id), detail }),
        }
    }

    /// Queues the insert of each record, in order, until a send fails; the insert
    /// that a closed queue hands back is that of one of the records. With no
    /// records nothing is sent, and that succeeds.
    pub fn insert_many(&self, records: Vec<(String, Vec<u8>)>) -> (r: Result<(), EngineError>)
        ensures
            r matches Err(e) ==> (e matches EngineError::QueueClosed { rejected, .. } && exists|k: int|
                0 <= k < records.len() && rejected@ == (WriteOpView::Insert {
                    id: (#[trigger] records@[k]).0@,
                    payload: records@[k].1@,
                })),
            records.len() == 0 ==> r is Ok,
    {
        let mut i: usize = 0;
        while i < records.len()
            invariant
                i <= records.len(),
            decreases records.len() - i,
        {
            let payload = records[i].1.clone();
            assert(payload@ =~= records@[i as int].1@);
            let op = WriteOp::insert(records[i].0.as_str(), payload);
            match self.enqueue(op) {
                Ok(()) => {},
                Err(e) => {
                    return Err(e);
                },
            }
            i = i + 1;
        }
        Ok(())
    }

    /// Checks and queues each record in order. At the first payload that is not
    /// JSON it stops and refuses it; the records before it stay queued.
    pub fn insert_many_json(&self, records: Vec<(String, String)>) -> (r: Result<(), EngineError>)
        ensures
            r is Ok ==> accepted_before(records@, records.len() as int),
            !accepted_before(records@, records.len() as int) ==> r is Err,
            r matches Err(EngineError::InvalidPayload { id, .. }) ==> exists|k: int|
                0 <= k < records.len() && accepted_before(records@, k) && !serde_json_accepts(
                    #[trigger] records@[k].1@,
                ) && id@ == records@[k].0@,
            r matches Err(e) ==> (e is InvalidPayload || e is QueueClosed),
            r matches Err(EngineError::QueueClosed { rejected, .. }) ==> exists|k: int|
                0 <= k < records.len() && accepted_before(records@, k + 1) && rejected@
                    == (WriteOpView::Insert {
                    id: (#[trigger] records@[k]).0@,
                    payload: vstd::utf8::encode_utf8(records@[k].1@),
                }),
    {
        let mut i: usize = 0;
        while i < records.len()
            invariant
                i <= records.len(),
                accepted_before(records@, i as int),
            decreases records.len() - i,
        {
            let id = &records[i].0;
            let json_payload = &records[i].1;
            let op = match json_insert_op(id.as_str(), json_payload.as_str()) {
                Ok(op) => op,
                Err(detail) => {
                    return Err(EngineError::InvalidPayload { id: id.clone(), detail });
                },
            };
            match self.enqueue(op) {
                Ok(()) => {},
                Err(e) => {
                    return Err(e);
                },
            }
            i = i + 1;
        }
        Ok(())
    }

    /// Queues the removal of document `id` and of its index entries (an id with no
    /// document is no error); a closed queue hands the removal back.
    pub fn delete(&self, id: &str) -> (r: Result<(), EngineError>)
        ensures
            r matches Err(e) ==> (e matches EngineError::QueueClosed { rejected, .. } && rejected@
                == (WriteOpView::Delete { id: id@ })),
    {
        self.enqueue(WriteOp::delete(id))
    }

    /// Queues the replacement of document `id` (created where missing) by `payload`,
    /// with the old payload's index entries replaced by the new one's; a closed queue
    /// hands the replacement back.
    pub fn upsert(&self, id: &str, payload: Vec<u8>) -> (r: Result<(), EngineError>)
        ensures
            r matches Err(e) ==> (e matches EngineError::QueueClosed { rejected, .. } && rejected@
                == (WriteOpView::Upsert { id: id@, payload: payload@ })),
    {
        self.enqueue(WriteOp::upsert(id, payload))
    }

    /// The payload stored under `id`, if any; a failed read of the table is taken as
    /// no document.
    pub fn get(&self, id: &str) -> (r: Result<Option<Vec<u8>>, EngineError>)
        ensures
            r matches Err(e) ==> e is Storage,
            r matches Ok(found) ==> snapshot_read(id@, answer_view(found)),
    {
        proof {
            crate::writes::lemma_table_names_nonempty();
        }
        let txn = match begin_read(&self.db) {
            Ok(txn) => txn,
            Err(e) => {
                return Err(EngineError::Storage(e.to_string()));
            },
        };
        let docs = match open_read_doc_table(&txn, DOCUMENTS_TABLE) {
            Ok(docs) => docs,
            Err(e) => {
                return Err(EngineError::Storage(e.to_string()));
            },
        };
        let found = lookup_or_none(&docs, id);
        proof {
            assert(read_answer(read_doc_contents(docs), id@, answer_view(found)));
        }
        Ok(found)
    }

    /// For each id, in order, the id and its payload if any.
    pub fn get_many(&self, ids: Vec<String>) -> (r: Result<Vec<(String, Option<Vec<u8>>)>, EngineError>)
        ensures
            r matches Ok(rows) ==> rows.len() == ids.len() && forall|i: int|
                0 <= i < rows.len() ==> (#[trigger] rows@[i]).0@ == ids@[i]@,
            r matches Ok(rows) ==> snapshot_answers(answers_view(rows@), ids_view(ids@)),
            r matches Err(e) ==> e is Storage,
    {
        proof {
            crate::writes::lemma_table_names_nonempty();
        }
        let txn = match begin_read(&self.db) {
            Ok(txn) => txn,
            Err(e) => {
                return Err(EngineError::Storage(e.to_string()));
            },
        };
        let docs = match open_read_doc_table(&txn, DOCUMENTS_TABLE) {
            Ok(docs) => docs,
            Err(e) => {
                return Err(EngineError::Storage(e.to_string()));
            },
        };
        let ghost asked = ids@;
        let r = lookup_many(&docs, ids);
        proof {
            if r is Ok {
                lemma_lookup_rows_answer(docs, asked, r->Ok_0@);
            }
        }
        r
    }

    /// The documents whose id begins with `prefix`, in id order.
    pub fn scan_prefix(&self, prefix: &str) -> (r: Result<Vec<(String, Vec<u8>)>, EngineError>)
        ensures
            r matches Ok(rows) ==> {
                &&& forall|i: int| 0 <= i < rows.len() ==> prefix@.is_prefix_of((#[trigger] rows@[i]).0@)
                &&& forall|i: int, k: int|
                    0 <= i < k < rows.len() ==> key_less((#[trigger] rows@[i]).0@, (#[trigger] rows@[k]).0@)
                &&& snapshot_prefix_listing(rows_view(rows@), prefix@)
            },
            r matches Err(e) ==> e is Storage,
    {
        proof {
            crate::writes::lemma_table_names_nonempty();
        }
        let txn = match begin_read(&self.db) {
            Ok(txn) => txn,
            Err(e) => {
                return Err(EngineError::Storage(e.to_string()));
            },
        };
        let docs = match open_read_doc_table(&txn, DOCUMENTS_TABLE) {
            Ok(docs) => docs,
            Err(e) => {
                return Err(EngineError::Storage(e.to_string()));
            },
        };
        let r = scan_prefix_in(&docs, prefix);
        proof {
            if r is Ok {
                let rows = r->Ok_0;
                assert(prefix_listing(rows_view(rows@), read_doc_contents(docs), prefix@));
                assert forall|i: int| 0 <= i < rows.len() implies prefix@.is_prefix_of((#[trigger] rows@[i]).0@) by {
                    assert(rows_view(rows@)[i].0 == rows@[i].0@);
                }
                assert forall|i: int, k: int| 0 <= i < k < rows.len() implies key_less((#[trigger] rows@[i]).0@, (#[trigger] rows@[k]).0@) by {
                    assert(rows_view(rows@)[i].0 == rows@[i].0@);
                    assert(rows_view(rows@)[k].0 == rows@[k].0@);
                }
            }
        }
        r
    }

    /// The documents that the index files under `index_key`, a dot, and
    /// `index_value`, each once, in ascending id order.
    pub fn filter_by_metadata(&self, index_key: &str, index_value: &str) -> (r: Result<Vec<(String, Vec<u8>)>, EngineError>)
        ensures
            r matches Ok(rows) ==> forall|i: int, k: int|
                0 <= i < k < rows.len() ==> key_less((#[trigger] rows@[i]).0@, (#[trigger] rows@[k]).0@),
            r matches Ok(rows) ==> snapshot_filter_listing(rows_view(rows@), dotted(index_key@, index_value@)),
            r matches Err(e) ==> e is Storage,
    {
        proof {
            crate::writes::lemma_table_names_nonempty();
        }
        let txn = match begin_read(&self.db) {
            Ok(txn) => txn,
            Err(e) => {
                return Err(EngineError::Storage(e.to_string()));
            },
        };
        let docs = match open_read_doc_table(&txn, DOCUMENTS_TABLE) {
            Ok(docs) => docs,
            Err(e) => {
                return Err(EngineError::Storage(e.to_string()));
            },
        };
        let index = match open_read_index_table(&txn, METADATA_TABLE) {
            Ok(index) => index,
            Err(e) => {
                return Err(EngineError::Storage(e.to_string()));
            },
        };
        let r = filter_in(&docs, &index, index_key, index_value);
        proof {
            if r is Ok {
                let rows = r->Ok_0;
                assert(filter_listing(
                    rows_view(rows@),
                    read_doc_contents(docs),
                    read_index_contents(index),
                    dotted(index_key@, index_value@),
                ));
                assert forall|i: int, k: int| 0 <= i < k < rows.len() implies key_less((#[trigger] rows@[i]).0@, (#[trigger] rows@[k]).0@) by {
                    assert(rows_view(rows@)[i].0 == rows@[i].0@);
                    assert(rows_view(rows@)[k].0 == rows@[k].0@);
                }
            }
        }
        r
    }
}

impl Writer {
    /// Acts on what a wait on the queue brought: nothing within the window, keep
    /// going; the queue closed, stop; an operation, apply it with whatever else is
    /// queued as one batch, and stop where that batch asked to. Beside the step comes
    /// the batch that was applied, empty where none was.
    pub fn handle(&self, received: Received) -> (r: (WorkerStep, Ghost<Seq<WriteOpView>>))
        ensures
            received is Timeout ==> r.0 is Continue,
            received is Disconnected ==> r.0 is Stop,
            !(received is Op) ==> r.1@.len() == 0,
            received matches Received::Op(first) ==> {
                &&& r.1@.len() >= 1
                &&& r.1@[0] == first@
                &&& r.0 is Stop ==> has_shutdown(r.1@)
            },
    {
        match received {
            Received::Timeout => (WorkerStep::Continue, Ghost(Seq::empty())),
            Received::Disconnected => (WorkerStep::Stop, Ghost(Seq::empty())),
            Received::Op(first) => {
                let batch = collect_batch(first, &self.queue);
                let ghost applied = ops_view(batch@);
                assert(applied[0] == batch@[0]@);
                if commit_batch(&self.db, &batch) {
                    (WorkerStep::Stop, Ghost(applied))
                } else {
                    (WorkerStep::Continue, Ghost(applied))
                }
            },
        }
    }

    /// Waits up to the batch window for an operation and acts on what came, as
    /// `handle` does.
    pub fn step(&self) -> (s: WorkerStep) {
        let received = recv_op_within(&self.queue, BATCH_WINDOW_MS);
        let (s, _) = self.handle(received);
        s
    }
}

} // verus!
