use lorealdb::db_engine::{DBEngine, WorkerStep, Writer};

fn run_writer(writer: &Writer) {
    for _ in 0..3 {
        if matches!(writer.step(), WorkerStep::Stop) {
            return;
        }
    }
}

#[test]
fn test_json_validation_rejection() {
    let dir = tempfile::tempdir().expect("Failed to create temp dir");
    let db_path = dir.path().join("fiori_validation_test.redb");
    let (engine, _writer) =
        DBEngine::new(db_path.to_str().unwrap()).expect("Failed to initialize engine");

    let id = "ticket_malformed";
    let bad_payload = "{\"status\": \"open, \"id\": 123";
    let result = engine.insert_json(id, bad_payload);
    assert!(result.is_err(), "Engine should have rejected malformed JSON!");
    let message = result.unwrap_err().message();
    assert!(message.starts_with("Validation error at ticket_malformed."));
}

#[test]
fn test_upsert_index_cleanup_and_enrichment() {
    let dir = tempfile::tempdir().expect("Failed to create temp dir");
    let db_path = dir.path().join("upsert_test.redb");
    let (engine, writer) =
        DBEngine::new(db_path.to_str().unwrap()).expect("Failed to initialize engine");

    let id = "ticket_101";
    let initial_payload = "{\"status\": \"open\", \"priority\": \"high\"}";
    engine.insert_json(id, initial_payload).expect("Initial insert failed");
    run_writer(&writer);

    let updated_payload =
        b"{\"status\": \"closed\", \"priority\": \"high\", \"summary\": \"Resolved by AI agent.\"}";
    engine.upsert(id, updated_payload.to_vec()).expect("Upsert operation failed");
    run_writer(&writer);

    let retrieved = engine.get(id).unwrap().unwrap();
    let retrieved_str = std::str::from_utf8(&retrieved).unwrap();
    assert!(retrieved_str.contains("closed"));
    assert!(retrieved_str.contains("Resolved by AI agent."));

    let old_index_results = engine.filter_by_metadata("status", "open").unwrap();
    assert!(
        !old_index_results.iter().any(|(k, _)| k == id),
        "Stale index key entry found! Upsert failed to purge the old index record."
    );

    let new_index_results = engine.filter_by_metadata("status", "closed").unwrap();
    assert!(new_index_results.iter().any(|(k, _)| k == id));

    let enriched_index_results = engine
        .filter_by_metadata("summary", "Resolved by AI agent.")
        .unwrap();
    assert!(enriched_index_results.iter().any(|(k, _)| k == id));
}
