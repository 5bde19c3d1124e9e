use lorealdb::db_engine::{DBEngine, WorkerStep, Writer};
use lorealdb::errors::EngineError;
use tempfile::TempDir;

/// Creates an engine and its writer in a temporary directory.
fn setup_engine() -> (TempDir, DBEngine, Writer) {
    let dir = tempfile::tempdir().expect("Failed to create temp dir");
    let db_path = dir.path().join("test_db.redb");
    let (engine, writer) = DBEngine::new(db_path.to_str().unwrap()).unwrap();
    (dir, engine, writer)
}

/// Lets the writer apply everything queued so far: the first step takes the whole
/// queue as one batch, the next ones find it empty.
fn run_writer(writer: &Writer) {
    for _ in 0..3 {
        if matches!(writer.step(), WorkerStep::Stop) {
            return;
        }
    }
}

fn field(payload: &[u8], name: &str) -> serde_json::Value {
    let value: serde_json::Value = serde_json::from_slice(payload).expect("stored payload is JSON");
    value.get(name).cloned().unwrap_or(serde_json::Value::Null)
}

fn ids_of(rows: &[(String, Vec<u8>)]) -> Vec<String> {
    let mut ids: Vec<String> = rows.iter().map(|(id, _)| id.clone()).collect();
    ids.sort();
    ids
}

#[test]
fn test_insert_and_get() {
    let (_dir, engine, writer) = setup_engine();
    let payload = br#"{"name":"Alice","role":"Engineer"}"#.to_vec();
    engine.insert("doc_1", payload).expect("Failed to insert");
    run_writer(&writer);

    let result = engine.get("doc_1").unwrap().expect("Document should exist");
    assert_eq!(field(&result, "name"), serde_json::Value::from("Alice"));

    engine.close_engine().unwrap();
    assert!(matches!(writer.step(), WorkerStep::Stop));
}

#[test]
fn test_insert_json_and_get_many() {
    let (_dir, engine, writer) = setup_engine();
    let json_payload_1 = r#"{"sensor": "temp", "value": 22.5}"#;
    let json_payload_2 = r#"{"sensor": "humidity", "value": 60}"#;
    engine.insert_json("sensor_1", json_payload_1).unwrap();
    engine.insert_json("sensor_2", json_payload_2).unwrap();
    run_writer(&writer);

    let ids = vec!["sensor_1".to_string(), "sensor_2".to_string(), "sensor_missing".to_string()];
    let results = engine.get_many(ids).unwrap();
    assert_eq!(results.len(), 3);
    assert!(results[0].1.is_some());
    assert_eq!(results[0].0, "sensor_1");
    assert_eq!(field(results[0].1.as_ref().unwrap(), "sensor"), serde_json::Value::from("temp"));
    assert!(results[2].1.is_none());

    engine.close_engine().unwrap();
}

#[test]
fn test_metadata_filtering() {
    let (_dir, engine, writer) = setup_engine();
    engine.insert_json("u1", r#"{"user": {"status": "active", "id": 100}}"#).unwrap();
    engine.insert_json("u2", r#"{"user": {"status": "inactive", "id": 101}}"#).unwrap();
    engine.insert_json("u3", r#"{"user": {"status": "active", "id": 102}}"#).unwrap();
    run_writer(&writer);

    let matches = engine.filter_by_metadata("user.status", "active").unwrap();
    assert_eq!(matches.len(), 2);
    assert_eq!(ids_of(&matches), vec!["u1", "u3"]);

    let matches_int = engine.filter_by_metadata("user.id", "100").unwrap();
    assert_eq!(matches_int.len(), 1, "Failed to index integer '100'");
    assert_eq!(matches_int[0].0, "u1");

    engine.close_engine().unwrap();
}

#[test]
fn test_upsert_and_delete() {
    let (_dir, engine, writer) = setup_engine();
    engine.insert("task_1", br#"{"status":"pending"}"#.to_vec()).unwrap();
    run_writer(&writer);

    engine.upsert("task_1", br#"{"status":"completed"}"#.to_vec()).unwrap();
    run_writer(&writer);

    let matches = engine.filter_by_metadata("status", "completed").unwrap();
    assert_eq!(matches.len(), 1);
    let pending_matches = engine.filter_by_metadata("status", "pending").unwrap();
    assert_eq!(pending_matches.len(), 0);

    engine.delete("task_1").unwrap();
    run_writer(&writer);
    let fetched = engine.get("task_1").unwrap();
    assert!(fetched.is_none());

    engine.close_engine().unwrap();
}

#[test]
fn test_scan_prefix() {
    let (_dir, engine, writer) = setup_engine();
    engine.insert_json("user:100", r#"{"name": "A"}"#).unwrap();
    engine.insert_json("user:101", r#"{"name": "B"}"#).unwrap();
    engine.insert_json("org:500", r#"{"name": "C"}"#).unwrap();
    run_writer(&writer);

    let matches = engine.scan_prefix("user:").unwrap();
    assert_eq!(matches.len(), 2);
    let ids: Vec<String> = matches.into_iter().map(|(id, _)| id).collect();
    assert!(ids.contains(&"user:100".to_string()));
    assert!(ids.contains(&"user:101".to_string()));
    assert!(!ids.contains(&"org:500".to_string()));

    engine.close_engine().unwrap();
}

#[test]
fn test_malformed_json_rejection() {
    let (_dir, engine, _writer) = setup_engine();
    let bad_json = r#"{"name": "Alice, "status": "active" "#;
    let result = engine.insert_json("bad_1", bad_json);
    assert!(result.is_err(), "Engine should reject malformed JSON in insert_json");

    let batch = vec![
        ("good_1".to_string(), r#"{"status": "ok"}"#.to_string()),
        ("bad_2".to_string(), r#"{"status": "broken""#.to_string()),
    ];
    let batch_result = engine.insert_many_json(batch);
    assert!(batch_result.is_err(), "Engine should reject batch with any malformed JSON");

    engine.close_engine().unwrap();
}

#[test]
fn test_complex_type_indexing() {
    let (_dir, engine, writer) = setup_engine();
    let payload = r#"{
        "is_active": true,
        "score": 95.5,
        "metadata": {
            "tags": ["rust", "database"]
        }
    }"#;
    engine.insert_json("complex_1", payload).unwrap();
    run_writer(&writer);

    let matches_bool = engine.filter_by_metadata("is_active", "true").unwrap();
    assert_eq!(matches_bool.len(), 1, "Failed to index boolean 'true'");
    assert_eq!(matches_bool[0].0, "complex_1");

    let matches_float = engine.filter_by_metadata("score", "95.5").unwrap();
    assert_eq!(matches_float.len(), 1, "Failed to index float '95.5'");

    let matches_array_0 = engine.filter_by_metadata("metadata.tags.0", "rust").unwrap();
    assert_eq!(matches_array_0.len(), 1, "Failed to index 0th array element");

    let matches_array_1 = engine.filter_by_metadata("metadata.tags.1", "database").unwrap();
    assert_eq!(matches_array_1.len(), 1, "Failed to index 1st array element");

    let matches_missing = engine.filter_by_metadata("metadata.tags.2", "rust").unwrap();
    assert_eq!(matches_missing.len(), 0, "Querying out-of-bounds array index should return empty");

    engine.close_engine().unwrap();
}

#[test]
fn test_batch_operation_isolation() {
    let (_dir, engine, writer) = setup_engine();
    let batch = vec![
        ("doc_1".to_string(), r#"{"status": "valid"}"#.to_string()),
        ("doc_2".to_string(), r#"{"status": "broken""#.to_string()),
        ("doc_3".to_string(), r#"{"status": "valid"}"#.to_string()),
    ];
    let batch_result = engine.insert_many_json(batch);
    assert!(batch_result.is_err(), "Batch should return an error when hitting malformed JSON");
    run_writer(&writer);

    let doc_1 = engine.get("doc_1").unwrap();
    assert!(doc_1.is_some(), "Preceding valid data should be committed");
    let doc_2 = engine.get("doc_2").unwrap();
    assert!(doc_2.is_none(), "Poison data should never enter the database");
    let doc_3 = engine.get("doc_3").unwrap();
    assert!(doc_3.is_none(), "Execution should halt after throwing the error");

    engine.close_engine().unwrap();
}

#[test]
fn test_lifecycle_and_channel_closure() {
    let (_dir, engine, writer) = setup_engine();
    engine.close_engine().unwrap();
    assert!(matches!(writer.step(), WorkerStep::Stop));
    drop(writer);

    let late_payload = r#"{"status": "too_late"}"#;
    let bad_write = engine.insert_json("late_doc", late_payload);
    assert!(bad_write.is_err(), "Engine should block writes after close_engine() is called");

    let err_msg = bad_write.unwrap_err().message();
    assert!(
        err_msg.contains("Background write worker has crashed")
            || err_msg.contains("Write queue full or closed"),
        "Expected worker shutdown error, got: {}",
        err_msg
    );
}

#[test]
fn test_ghost_operations() {
    let (_dir, engine, writer) = setup_engine();
    let delete_result = engine.delete("missing_ticket_id");
    assert!(delete_result.is_ok(), "Deleting a missing ID should gracefully succeed and do nothing");
    run_writer(&writer);

    let fetched = engine.get("missing_ticket_id").unwrap();
    assert!(fetched.is_none());

    let upsert_result = engine.upsert("missing_ticket_id", br#"{"priority":"urgent"}"#.to_vec());
    assert!(upsert_result.is_ok(), "Upserting a missing ID should not fail");
    run_writer(&writer);

    let fetched = engine
        .get("missing_ticket_id")
        .unwrap()
        .expect("Upsert should create missing records");
    assert_eq!(field(&fetched, "priority"), serde_json::Value::from("urgent"));

    let matches = engine.filter_by_metadata("priority", "urgent").unwrap();
    assert_eq!(matches.len(), 1);

    engine.close_engine().unwrap();
}

#[test]
fn test_insert_many_pydict() {
    let (_dir, engine, writer) = setup_engine();
    let records = vec![
        ("batch_1".to_string(), br#"{"type":"batch_dict"}"#.to_vec()),
        ("batch_2".to_string(), br#"{"type":"batch_dict"}"#.to_vec()),
    ];
    engine.insert_many(records).unwrap();
    run_writer(&writer);

    let matches = engine.scan_prefix("batch_").unwrap();
    assert_eq!(matches.len(), 2, "insert_many failed to insert PyDicts");

    engine.close_engine().unwrap();
}

#[test]
fn test_engine_initialization_failure() {
    let bad_path = "/this/path/does/not/exist/db.redb";
    let result = DBEngine::new(bad_path);
    assert!(result.is_err(), "Engine should return PyRuntimeError on invalid paths");
    assert!(matches!(result, Err(EngineError::Storage(_))));
}
