use lorealdb::index_keys::document_index_keys;
use lorealdb::json::{decode_tape, JsonValue, TapeNode};
use lorealdb::parse::{payload_index_keys, payload_tape, validate_json};
use lorealdb::text::{child_path_string, dotted_string, push_decimal, push_signed_decimal};

fn keys(payload: &str) -> Vec<String> {
    payload_index_keys(payload.as_bytes())
}

#[test]
fn nested_object_and_array_paths() {
    assert_eq!(
        keys(r#"{"user": {"tags": ["a", "b"], "id": 7}}"#),
        vec!["user.tags.0.a", "user.tags.1.b", "user.id.7"]
    );
}

#[test]
fn top_level_scalar_is_filed_after_a_dot() {
    assert_eq!(keys(r#""hello""#), vec![".hello"]);
    assert_eq!(keys("42"), vec![".42"]);
}

#[test]
fn null_yields_no_key() {
    assert_eq!(keys(r#"{"n": null, "s": "x"}"#), vec!["s.x"]);
    assert!(keys("null").is_empty());
}

#[test]
fn numbers_and_booleans_render_as_display_does() {
    assert_eq!(keys(r#"{"t": -5}"#), vec!["t.-5"]);
    assert_eq!(keys(r#"{"m": -9223372036854775808}"#), vec!["m.-9223372036854775808"]);
    assert_eq!(keys(r#"{"big": 18446744073709551615}"#), vec!["big.18446744073709551615"]);
    assert_eq!(keys(r#"{"f": 95.5, "g": 0.25}"#), vec!["f.95.5", "g.0.25"]);
    assert_eq!(keys(r#"{"on": true, "off": false}"#), vec!["on.true", "off.false"]);
}

#[test]
fn nested_arrays_extend_the_path_by_position() {
    assert_eq!(keys(r#"{"a": [[1, 2], [3]]}"#), vec!["a.0.0.1", "a.0.1.2", "a.1.0.3"]);
    assert_eq!(keys(r#"["x", ["y"]]"#), vec!["0.x", "1.0.y"]);
}

#[test]
fn small_object_keeps_repeated_keys() {
    assert_eq!(keys(r#"{"k": "x", "k": "y"}"#), vec!["k.x", "k.y"]);
}

#[test]
fn large_object_keeps_last_value_of_repeated_key() {
    let mut members: Vec<String> = vec![r#""k": "x""#.to_string()];
    for i in 0..32 {
        members.push(format!(r#""f{}": {}"#, i, i));
    }
    members.push(r#""k": "y""#.to_string());
    let payload = format!("{{{}}}", members.join(", "));
    let got = keys(&payload);
    assert_eq!(got.len(), 33);
    assert!(got.contains(&"k.y".to_string()));
    assert!(!got.contains(&"k.x".to_string()));
    assert!(got.contains(&"f31.31".to_string()));
}

#[test]
fn payload_that_is_not_json_yields_no_key() {
    assert!(keys(r#"{"status": "broken"#).is_empty());
    assert!(payload_tape(b"{\"a\": ").is_none());
}

#[test]
fn tape_of_a_payload() {
    let tape = payload_tape(br#"{"a": [true, null]}"#).expect("valid JSON");
    assert_eq!(tape.len(), 5);
    assert!(matches!(tape[0], TapeNode::Object { len: 1, count: 4 }));
    assert!(matches!(&tape[1], TapeNode::Str(s) if s == "a"));
    assert!(matches!(tape[2], TapeNode::Array { len: 2, count: 2 }));
    assert!(matches!(tape[3], TapeNode::Bool(true)));
    assert!(matches!(tape[4], TapeNode::Null));
}

#[test]
fn escaped_strings_are_read_unescaped() {
    assert_eq!(keys(r#"{"q": "a\"b"}"#), vec!["q.a\"b"]);
}

#[test]
fn decode_rebuilds_the_tree() {
    let tape = vec![
        TapeNode::Array { len: 2, count: 4 },
        TapeNode::U64(1),
        TapeNode::Object { len: 1, count: 2 },
        TapeNode::Str("k".to_string()),
        TapeNode::Str("v".to_string()),
    ];
    let tree = decode_tape(&tape).expect("well-formed tape");
    match &tree {
        JsonValue::Array(items) => {
            assert_eq!(items.len(), 2);
            assert!(matches!(items[0], JsonValue::U64(1)));
            match &items[1] {
                JsonValue::Object(entries) => {
                    assert_eq!(entries.len(), 1);
                    assert_eq!(entries[0].0, "k");
                    assert!(matches!(&entries[0].1, JsonValue::Str(s) if s == "v"));
                }
                _ => panic!("expected an object"),
            }
        }
        _ => panic!("expected an array"),
    }
    assert_eq!(document_index_keys(&tree), vec!["0.1", "1.k.v"]);
}

#[test]
fn decode_refuses_malformed_tapes() {
    let wrong_count = vec![TapeNode::Array { len: 1, count: 2 }, TapeNode::Null];
    assert!(decode_tape(&wrong_count).is_none());
    let truncated = vec![TapeNode::Object { len: 1, count: 2 }, TapeNode::Str("k".to_string())];
    assert!(decode_tape(&truncated).is_none());
    let key_not_string = vec![TapeNode::Object { len: 1, count: 2 }, TapeNode::Null, TapeNode::Null];
    assert!(decode_tape(&key_not_string).is_none());
    let trailing = vec![TapeNode::Null, TapeNode::Null];
    assert!(decode_tape(&trailing).is_none());
    assert!(decode_tape(&Vec::new()).is_none());
}

#[test]
fn validation_follows_serde_json() {
    assert!(validate_json(r#"{"status": "ok"}"#).is_ok());
    assert!(validate_json("  [1, 2] ").is_ok());
    assert!(validate_json(r#"{"status": "broken""#).is_err());
    assert!(validate_json("{} {}").is_err());
    assert!(validate_json("").is_err());
}

#[test]
fn decimal_and_path_text() {
    let mut s = String::new();
    push_decimal(&mut s, 0);
    assert_eq!(s, "0");
    let mut s = String::from("n=");
    push_decimal(&mut s, 1234567890);
    assert_eq!(s, "n=1234567890");
    let mut s = String::new();
    push_signed_decimal(&mut s, -120);
    assert_eq!(s, "-120");
    let mut s = String::new();
    push_signed_decimal(&mut s, i64::MIN);
    assert_eq!(s, "-9223372036854775808");
    assert_eq!(dotted_string("user.status", "active"), "user.status.active");
    assert_eq!(child_path_string("", "user"), "user");
    assert_eq!(child_path_string("user", "status"), "user.status");
}
