use lorealdb::db_engine::{DBEngine, WorkerStep, Writer};
use lorealdb::queue::QUEUE_CAPACITY;

/// Queues the records a queue's worth at a time, letting the writer apply each
/// portion before the next, since nothing else drains the queue here.
fn insert_all_json(engine: &DBEngine, writer: &Writer, records: Vec<(String, String)>) {
    let mut rest = records;
    while !rest.is_empty() {
        let tail = rest.split_off(rest.len().min(QUEUE_CAPACITY));
        engine.insert_many_json(rest).expect("Batch insert failed");
        assert!(matches!(writer.step(), WorkerStep::Continue));
        rest = tail;
    }
}

fn new_engine(name: &str) -> (tempfile::TempDir, DBEngine, Writer) {
    let dir = tempfile::tempdir().expect("Failed to create temp dir");
    let db_path = dir.path().join(name);
    let (engine, writer) =
        DBEngine::new(db_path.to_str().unwrap()).expect("Failed to initialize engine");
    (dir, engine, writer)
}

#[test]
fn benchmark_batch_delete_and_index_cleanup() {
    let (_dir, engine, writer) = new_engine("delete_benchmark.redb");
    let total_records = 10_000;
    let mut insert_payloads = Vec::with_capacity(total_records);
    for i in 0..total_records {
        let id = format!("user_{}", i);
        let payload = format!(
            "{{\"type\": \"account\", \"status\": \"pending\", \"user_id\": {}}}",
            i
        );
        insert_payloads.push((id, payload));
    }
    insert_all_json(&engine, &writer, insert_payloads);

    let indexed_records = engine.filter_by_metadata("status", "pending").unwrap();
    assert_eq!(
        indexed_records.len(),
        total_records,
        "Pre-delete index check failed: expected {} records, found {}",
        total_records,
        indexed_records.len()
    );

    for i in 0..total_records {
        let id = format!("user_{}", i);
        engine.delete(&id).expect("Failed to enqueue delete operation");
    }
    assert!(matches!(writer.step(), WorkerStep::Continue));
    let sync_id = "sync_token_after_delete";
    engine.insert_json(sync_id, "{\"status\": \"sync\"}").unwrap();
    assert!(matches!(writer.step(), WorkerStep::Continue));
    assert!(engine.get(sync_id).unwrap().is_some());

    let sample_doc = engine.get("user_0").unwrap();
    assert!(
        sample_doc.is_none(),
        "Document user_0 still exists in DOCUMENTS_TABLE after delete!"
    );
    let leftover_indexes = engine.filter_by_metadata("status", "pending").unwrap();
    assert_eq!(
        leftover_indexes.len(),
        0,
        "Metadata indexes were not properly cleaned up! Found {} orphaned entries.",
        leftover_indexes.len()
    );
}
