use lorealdb::db_engine::{DBEngine, WorkerStep, Writer};
use lorealdb::errors::EngineError;
use lorealdb::queue::Received;
use lorealdb::db_engine_write::DBEngineWriteOptimized;
use lorealdb::parse::{check_stored_object, StoredPayloadError};
use lorealdb::writes::WriteOp;
use tempfile::TempDir;

fn setup_engine() -> (TempDir, DBEngine, Writer) {
    let dir = tempfile::tempdir().expect("Failed to create temp dir");
    let db_path = dir.path().join("behaviour.redb");
    let (engine, writer) = DBEngine::new(db_path.to_str().unwrap()).unwrap();
    (dir, engine, writer)
}

fn run_writer(writer: &Writer) {
    for _ in 0..3 {
        if matches!(writer.step(), WorkerStep::Stop) {
            return;
        }
    }
}

fn ids_of(rows: &[(String, Vec<u8>)]) -> Vec<String> {
    rows.iter().map(|(id, _)| id.clone()).collect()
}

#[test]
fn stored_bytes_come_back_unchanged() {
    let (_dir, engine, writer) = setup_engine();
    let payload = "{\"status\": \"open\", \"id\": \"ticket_88888\"}";
    engine.insert_json("ticket_88888", payload).unwrap();
    run_writer(&writer);
    assert_eq!(engine.get("ticket_88888").unwrap().unwrap(), payload.as_bytes());
}

#[test]
fn delete_removes_document_and_its_index_entries() {
    let (_dir, engine, writer) = setup_engine();
    engine.insert_json("a", r#"{"status": "pending", "n": [1]}"#).unwrap();
    engine.insert_json("b", r#"{"status": "pending"}"#).unwrap();
    run_writer(&writer);
    assert_eq!(engine.filter_by_metadata("status", "pending").unwrap().len(), 2);

    engine.delete("a").unwrap();
    run_writer(&writer);
    assert!(engine.get("a").unwrap().is_none());
    assert_eq!(ids_of(&engine.filter_by_metadata("status", "pending").unwrap()), vec!["b"]);
    assert!(engine.filter_by_metadata("n.0", "1").unwrap().is_empty());
}

#[test]
fn insert_over_a_stored_id_keeps_the_old_index_entries() {
    let (_dir, engine, writer) = setup_engine();
    engine.insert_json("a", r#"{"s": "x"}"#).unwrap();
    run_writer(&writer);
    engine.insert_json("a", r#"{"s": "y"}"#).unwrap();
    run_writer(&writer);
    assert_eq!(engine.get("a").unwrap().unwrap(), br#"{"s": "y"}"#.to_vec());
    assert_eq!(ids_of(&engine.filter_by_metadata("s", "y").unwrap()), vec!["a"]);
    assert_eq!(ids_of(&engine.filter_by_metadata("s", "x").unwrap()), vec!["a"]);
}

#[test]
fn operations_in_one_batch_apply_in_queue_order() {
    let (_dir, engine, writer) = setup_engine();
    engine.insert_json("a", r#"{"v": 1}"#).unwrap();
    engine.upsert("a", br#"{"v": 2}"#.to_vec()).unwrap();
    engine.delete("a").unwrap();
    engine.insert_json("b", r#"{"v": 3}"#).unwrap();
    run_writer(&writer);
    assert!(engine.get("a").unwrap().is_none());
    assert!(engine.filter_by_metadata("v", "1").unwrap().is_empty());
    assert!(engine.filter_by_metadata("v", "2").unwrap().is_empty());
    assert_eq!(ids_of(&engine.filter_by_metadata("v", "3").unwrap()), vec!["b"]);
}

#[test]
fn scan_prefix_lists_matching_ids_in_order() {
    let (_dir, engine, writer) = setup_engine();
    for id in ["invoice_2", "ticket_1", "invoice_10", "invoice_1", "invoicf", "invoic"] {
        engine.insert_json(id, "{}").unwrap();
    }
    run_writer(&writer);
    assert_eq!(
        ids_of(&engine.scan_prefix("invoice_").unwrap()),
        vec!["invoice_1", "invoice_10", "invoice_2"]
    );
    assert_eq!(engine.scan_prefix("").unwrap().len(), 6);
    assert!(engine.scan_prefix("zzz").unwrap().is_empty());
}

#[test]
fn get_many_answers_each_id_in_order() {
    let (_dir, engine, writer) = setup_engine();
    engine.insert_json("x", r#"{"k": 1}"#).unwrap();
    run_writer(&writer);
    let rows = engine
        .get_many(vec!["y".to_string(), "x".to_string(), "x".to_string()])
        .unwrap();
    assert_eq!(rows.len(), 3);
    assert_eq!(rows[0].0, "y");
    assert!(rows[0].1.is_none());
    assert_eq!(rows[1].1.as_deref(), Some(&br#"{"k": 1}"#[..]));
    assert_eq!(rows[2].1.as_deref(), Some(&br#"{"k": 1}"#[..]));
}

#[test]
fn writer_stops_on_shutdown_and_on_a_closed_queue() {
    let (_dir, engine, writer) = setup_engine();
    assert!(matches!(writer.handle(Received::Timeout).0, WorkerStep::Continue));
    assert!(matches!(writer.handle(Received::Disconnected).0, WorkerStep::Stop));
    assert!(matches!(writer.handle(Received::Op(WriteOp::ShutDown)).0, WorkerStep::Stop));
    let op = WriteOp::Insert { id: "k".to_string(), payload: b"{}".to_vec() };
    assert!(!op.is_shut_down());
    assert!(matches!(writer.handle(Received::Op(op)).0, WorkerStep::Continue));
    assert!(engine.get("k").unwrap().is_some());
    drop(engine);
    assert!(matches!(writer.step(), WorkerStep::Stop));
}

#[test]
fn batch_refusal_names_the_first_bad_record() {
    let (_dir, engine, writer) = setup_engine();
    let records = vec![
        ("ok_1".to_string(), "[]".to_string()),
        ("bad_1".to_string(), "[".to_string()),
        ("bad_2".to_string(), "{".to_string()),
    ];
    match engine.insert_many_json(records) {
        Err(EngineError::InvalidPayload { id, .. }) => assert_eq!(id, "bad_1"),
        _ => panic!("expected the batch to be refused"),
    }
    run_writer(&writer);
    assert!(engine.get("ok_1").unwrap().is_some());
    assert!(engine.get("bad_2").unwrap().is_none());
}

#[test]
fn error_messages() {
    let validation = EngineError::Validation { id: "d1".to_string(), detail: "EOF".to_string() };
    assert_eq!(validation.message(), "Validation error at d1.EOF");
    let invalid = EngineError::InvalidPayload { id: "d2".to_string(), detail: "bad".to_string() };
    assert_eq!(invalid.message(), "Invalid json in payload for id d2.bad");
    let closed = EngineError::QueueClosed {
        rejected: WriteOp::ShutDown,
        detail: "sending on a disconnected channel".to_string(),
    };
    assert_eq!(closed.message(), "Write queue full or closed. sending on a disconnected channel");
    let refused = EngineError::ShutdownRefused { rejected: WriteOp::ShutDown, detail: "x".to_string() };
    assert_eq!(refused.message(), "Failed to send shutdown signal x");
    assert_eq!(EngineError::Storage("disk".to_string()).message(), "disk");
}

#[test]
fn write_optimized_engine_round_trip() {
    let dir = tempfile::tempdir().expect("Failed to create temp dir");
    let db_path = dir.path().join("raw.redb");
    let engine = DBEngineWriteOptimized::new(db_path.to_str().unwrap()).unwrap();

    engine.insert_raw("a", b"raw-a").unwrap();
    engine
        .insert_many_raw(vec![
            ("b1".to_string(), b"raw-b1".to_vec()),
            ("b2".to_string(), b"raw-b2".to_vec()),
            ("b1".to_string(), b"raw-b1-again".to_vec()),
        ])
        .unwrap();
    assert_eq!(engine.get("a").unwrap(), Some(b"raw-a".to_vec()));
    assert_eq!(engine.get("b1").unwrap(), Some(b"raw-b1-again".to_vec()));
    assert_eq!(engine.get("zz").unwrap(), None);

    let rows = engine.get_many(vec!["b2".to_string(), "zz".to_string()]).unwrap();
    assert_eq!(rows[0], ("b2".to_string(), Some(b"raw-b2".to_vec())));
    assert_eq!(rows[1], ("zz".to_string(), None));

    let scanned = engine.scan_prefix("b").unwrap();
    assert_eq!(ids_of(&scanned), vec!["b1", "b2"]);

    assert!(engine.delete("a").unwrap());
    assert!(!engine.delete("a").unwrap());
    assert_eq!(engine.get("a").unwrap(), None);
}

#[test]
fn write_optimized_engine_refuses_bad_path() {
    assert!(DBEngineWriteOptimized::new("/this/path/does/not/exist/raw.redb").is_err());
}

#[test]
fn json_insert_op_carries_the_text_bytes() {
    match lorealdb::db_engine::json_insert_op("d", r#"{"a": 1}"#) {
        Ok(WriteOp::Insert { id, payload }) => {
            assert_eq!(id, "d");
            assert_eq!(payload, br#"{"a": 1}"#.to_vec());
        }
        _ => panic!("expected an insert"),
    }
    assert!(lorealdb::db_engine::json_insert_op("d", r#"{"a": "#).is_err());
}

#[test]
fn deleting_a_fresh_insert_leaves_no_trace() {
    let (_dir, engine, writer) = setup_engine();
    engine.insert_json("keep", r#"{"tag": "t"}"#).unwrap();
    run_writer(&writer);
    engine.insert_json("tmp", r#"{"tag": "t", "only": "here"}"#).unwrap();
    engine.delete("tmp").unwrap();
    run_writer(&writer);
    assert!(engine.get("tmp").unwrap().is_none());
    assert_eq!(ids_of(&engine.filter_by_metadata("tag", "t").unwrap()), vec!["keep"]);
    assert!(engine.filter_by_metadata("only", "here").unwrap().is_empty());
    assert_eq!(ids_of(&engine.scan_prefix("").unwrap()), vec!["keep"]);
}

#[test]
fn closed_queue_hands_back_the_refused_operation() {
    let (_dir, engine, writer) = setup_engine();
    drop(writer);
    match engine.insert("k1", b"{\"a\": 1}".to_vec()) {
        Err(EngineError::QueueClosed { rejected: WriteOp::Insert { id, payload }, .. }) => {
            assert_eq!(id, "k1");
            assert_eq!(payload, b"{\"a\": 1}".to_vec());
        }
        other => panic!("expected a refused insert, got {:?}", other.is_ok()),
    }
    match engine.upsert("k2", b"{}".to_vec()) {
        Err(EngineError::QueueClosed { rejected: WriteOp::Upsert { id, payload }, .. }) => {
            assert_eq!(id, "k2");
            assert_eq!(payload, b"{}".to_vec());
        }
        other => panic!("expected a refused upsert, got {:?}", other.is_ok()),
    }
    match engine.delete("k3") {
        Err(EngineError::QueueClosed { rejected: WriteOp::Delete { id }, .. }) => assert_eq!(id, "k3"),
        other => panic!("expected a refused delete, got {:?}", other.is_ok()),
    }
    match engine.close_engine() {
        Err(EngineError::ShutdownRefused { rejected: WriteOp::ShutDown, .. }) => {}
        other => panic!("expected a refused shutdown, got {:?}", other.is_ok()),
    }
    match engine.insert_many_json(vec![("m1".to_string(), "[1]".to_string())]) {
        Err(EngineError::QueueClosed { rejected: WriteOp::Insert { id, payload }, .. }) => {
            assert_eq!(id, "m1");
            assert_eq!(payload, b"[1]".to_vec());
        }
        other => panic!("expected a refused batch, got {:?}", other.is_ok()),
    }
}

#[test]
fn repeated_upsert_leaves_the_same_state() {
    let (_dir, engine, writer) = setup_engine();
    engine.insert_json("u", r#"{"status": "old"}"#).unwrap();
    engine.upsert("u", br#"{"status": "new"}"#.to_vec()).unwrap();
    run_writer(&writer);
    let once_docs = engine.get("u").unwrap();
    let once_new = ids_of(&engine.filter_by_metadata("status", "new").unwrap());
    engine.upsert("u", br#"{"status": "new"}"#.to_vec()).unwrap();
    run_writer(&writer);
    assert_eq!(engine.get("u").unwrap(), once_docs);
    assert_eq!(ids_of(&engine.filter_by_metadata("status", "new").unwrap()), once_new);
    assert!(engine.filter_by_metadata("status", "old").unwrap().is_empty());
}

#[test]
fn filter_lists_ids_in_ascending_order() {
    let (_dir, engine, writer) = setup_engine();
    for id in ["zeta", "alpha", "mid", "beta"] {
        engine.insert_json(id, r#"{"kind": "x"}"#).unwrap();
    }
    run_writer(&writer);
    let ids = ids_of(&engine.filter_by_metadata("kind", "x").unwrap());
    assert_eq!(ids, vec!["alpha", "beta", "mid", "zeta"]);
}

#[test]
fn insert_then_delete_of_new_id_leaves_store_as_before() {
    let (_dir, engine, writer) = setup_engine();
    engine.insert_json("keep", r#"{"colour": "red"}"#).unwrap();
    run_writer(&writer);
    let before = ids_of(&engine.filter_by_metadata("colour", "red").unwrap());
    engine.insert_json("temp", r#"{"colour": "red", "size": 3}"#).unwrap();
    engine.delete("temp").unwrap();
    run_writer(&writer);
    assert!(engine.get("temp").unwrap().is_none());
    assert_eq!(ids_of(&engine.filter_by_metadata("colour", "red").unwrap()), before);
    assert!(engine.filter_by_metadata("size", "3").unwrap().is_empty());
}

#[test]
fn same_dotted_search_key_gives_same_list() {
    let (_dir, engine, writer) = setup_engine();
    engine.insert_json("p1", r#"{"metadata": {"tags": ["rust", "db"]}}"#).unwrap();
    engine.insert_json("p2", r#"{"metadata": {"tags": ["rust"]}}"#).unwrap();
    run_writer(&writer);
    let split_early = engine.filter_by_metadata("metadata.tags", "0.rust").unwrap();
    let split_late = engine.filter_by_metadata("metadata.tags.0", "rust").unwrap();
    assert_eq!(split_early, split_late);
    assert_eq!(ids_of(&split_early), vec!["p1", "p2"]);
}

#[test]
fn stored_payload_must_be_a_json_object() {
    assert!(check_stored_object(br#"{"a": [1, 2]}"#).is_ok());
    assert!(matches!(check_stored_object(b"[1, 2]"), Err(StoredPayloadError::NotObject)));
    assert!(matches!(check_stored_object(b"\"text\""), Err(StoredPayloadError::NotObject)));
    match check_stored_object(b"{\"a\": ") {
        Err(StoredPayloadError::NotJson(detail)) => assert!(!detail.is_empty()),
        _ => panic!("expected a parse error"),
    }
}
