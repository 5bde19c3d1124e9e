//! Reading payloads as JSON: the syntax check made before a payload is queued
//! (`serde_json`), and the parse that the index is built from (`simd_json`).
use vstd::prelude::*;
use crate::index_keys::{document_index_keys, index_keys, texts};
use simd_json::{Node, StaticNode, Tape};
use crate::json::{decode_tape, tape_tree, tape_view, Json, TapeItem, TapeNode};

verus! {

/// serde_json's parse error; only its `Display` text is used.
#[verifier::external_type_specification]
#[verifier::external_body]
pub struct ExSerdeJsonError(serde_json::Error);

/// Whether `serde_json::from_str::<serde::de::IgnoredAny>` accepts the text: one
/// well-formed JSON value, with nothing but whitespace around it.
pub uninterp spec fn serde_json_accepts(text: Seq<char>) -> bool;

/// The tape that `simd_json::to_tape` builds from the bytes, or `None` where it
/// rejects them as JSON.
pub uninterp spec fn simd_json_tape(bytes: Seq<u8>) -> Option<Seq<TapeItem>>;

/// A tape that `simd_json` parsed, borrowing the buffer it was parsed in.
#[verifier::external_type_specification]
#[verifier::external_body]
pub struct ExTape<'input>(simd_json::Tape<'input>);

/// The nodes of a parsed tape.
pub uninterp spec fn raw_tape_items(t: Tape) -> Seq<TapeItem>;

/// `serde_json::from_str::<serde::de::IgnoredAny>`: succeeds exactly on the texts
/// that `serde_json_accepts`; what the error says is left open.
#[verifier::external_body]
fn serde_json_check(text: &str) -> (r: Result<(), serde_json::Error>)
    ensures
        r is Ok == serde_json_accepts(text@),
{
    serde_json::from_str::<serde::de::IgnoredAny>(text).map(|_| ())
}

/// `simd_json::to_tape` on the buffer (which it unescapes in place): the tape it
/// builds from the buffer's bytes as they were, or `None` where it rejects them.
#[verifier::external_body]
fn simd_json_to_tape(buf: &mut Vec<u8>) -> (r: Option<Tape<'_>>)
    ensures
        match r {
            Some(t) => simd_json_tape(old(buf)@) == Some(raw_tape_items(t)),
            None => simd_json_tape(old(buf)@) is None,
        },
{
    simd_json::to_tape(buf.as_mut_slice()).ok()
}

/// The number of nodes of a parsed tape (`Vec::len` of `Tape::0`).
#[verifier::external_body]
fn raw_tape_len(t: &Tape) -> (n: usize)
    ensures
        n == raw_tape_items(*t).len(),
{
    t.0.len()
}

/// Node `i` of a parsed tape, one variant of `simd_json::Node` for one of
/// `TapeNode`; a float becomes the text its `Display` prints.
#[verifier::external_body]
fn raw_tape_node(t: &Tape, i: usize) -> (node: TapeNode)
    requires
        i < raw_tape_items(*t).len(),
    ensures
        node@ == raw_tape_items(*t)[i as int],
{
    match &t.0[i] {
        Node::String(s) => TapeNode::Str(s.to_string()),
        Node::Object { len, count } => TapeNode::Object { len: *len, count: *count },
        Node::Array { len, count } => TapeNode::Array { len: *len, count: *count },
        Node::Static(StaticNode::I64(n)) => TapeNode::I64(*n),
        Node::Static(StaticNode::U64(n)) => TapeNode::U64(*n),
        Node::Static(StaticNode::F64(x)) => TapeNode::F64(x.to_string()),
        Node::Static(StaticNode::Bool(b)) => TapeNode::Bool(*b),
        Node::Static(StaticNode::Null) => TapeNode::Null,
    }
}

/// The kind of value that a JSON text holds at its top.
pub enum JsonKind {
    Null,
    Bool,
    Number,
    Str,
    Array,
    Object,
}

/// The kind of value `serde_json::from_slice::<serde_json::Value>` reads from the
/// bytes, or `None` where it rejects them.
pub uninterp spec fn serde_json_kind(bytes: Seq<u8>) -> Option<JsonKind>;

/// `serde_json::from_slice::<serde_json::Value>`: the kind of value read, told
/// apart by `Value`'s variants, or the parse error.
#[verifier::external_body]
fn serde_json_read_kind(bytes: &[u8]) -> (r: Result<JsonKind, serde_json::Error>)
    ensures
        match r {
            Ok(k) => serde_json_kind(bytes@) == Some(k),
            Err(_) => serde_json_kind(bytes@) is None,
        },
{
    match serde_json::from_slice::<serde_json::Value>(bytes) {
        Ok(serde_json::Value::Null) => Ok(JsonKind::Null),
        Ok(serde_json::Value::Bool(_)) => Ok(JsonKind::Bool),
        Ok(serde_json::Value::Number(_)) => Ok(JsonKind::Number),
        Ok(serde_json::Value::String(_)) => Ok(JsonKind::Str),
        Ok(serde_json::Value::Array(_)) => Ok(JsonKind::Array),
        Ok(serde_json::Value::Object(_)) => Ok(JsonKind::Object),
        Err(e) => Err(e),
    }
}

/// Why a stored payload cannot be handed back as a dictionary.
pub enum StoredPayloadError {
    /// The bytes are not JSON; the parser's description of why.
    NotJson(String),
    /// The bytes are JSON, but not an object.
    NotObject,
}

/// Checks that a stored payload reads as a JSON object, as it must to be handed
/// back as a dictionary.
pub fn check_stored_object(payload: &[u8]) -> (r: Result<(), StoredPayloadError>)
    ensures
        r is Ok <==> serde_json_kind(payload@) == Some(JsonKind::Object),
        r matches Err(StoredPayloadError::NotJson(_)) <==> serde_json_kind(payload@) is None,
{
    match serde_json_read_kind(payload) {
        Ok(JsonKind::Object) => Ok(()),
        Ok(_) => Err(StoredPayloadError::NotObject),
        Err(e) => Err(StoredPayloadError::NotJson(e.to_string())),
    }
}

/// Checks that `text` is one JSON value; on failure, the parser's description of
/// what is wrong.
pub fn validate_json(text: &str) -> (r: Result<(), String>)
    ensures
        r is Ok == serde_json_accepts(text@),
{
    match serde_json_check(text) {
        Ok(()) => Ok(()),
        Err(e) => Err(e.to_string()),
    }
}

/// The tape that `simd_json` makes of a payload.
pub fn payload_tape(payload: &[u8]) -> (r: Option<Vec<TapeNode>>)
    ensures
        match r {
            Some(nodes) => simd_json_tape(payload@) == Some(tape_view(nodes@)),
            None => simd_json_tape(payload@) is None,
        },
{
    let mut buf = vstd::slice::slice_to_vec(payload);
    let ghost bytes = buf@;
    match simd_json_to_tape(&mut buf) {
        Some(tape) => {
            let n = raw_tape_len(&tape);
            let mut nodes: Vec<TapeNode> = Vec::new();
            let mut i: usize = 0;
            while i < n
                invariant
                    i <= n,
                    n == raw_tape_items(tape).len(),
                    nodes.len() == i,
                    forall|k: int| 0 <= k < i ==> #[trigger] nodes@[k]@ == raw_tape_items(tape)[k],
                decreases n - i,
            {
                nodes.push(raw_tape_node(&tape, i));
                i = i + 1;
            }
            assert(tape_view(nodes@) =~= raw_tape_items(tape));
            Some(nodes)
        },
        None => None,
    }
}

/// The tree a payload is read as: its `simd_json` tape, decoded.
pub open spec fn document_tree(payload: Seq<u8>) -> Option<Json> {
    match simd_json_tape(payload) {
        Some(t) => tape_tree(t),
        None => None,
    }
}

/// The index keys of a payload: those of the tree it is read as, or none where
/// `simd_json` does not read it.
pub open spec fn document_keys(payload: Seq<u8>) -> Seq<Seq<char>> {
    match document_tree(payload) {
        Some(j) => index_keys(Seq::empty(), j),
        None => Seq::empty(),
    }
}

/// The index keys of a payload, in document order.
pub fn payload_index_keys(payload: &[u8]) -> (keys: Vec<String>)
    ensures
        texts(keys@) == document_keys(payload@),
{
    match payload_tape(payload) {
        Some(nodes) => match decode_tape(&nodes) {
            Some(doc) => document_index_keys(&doc),
            None => {
                let keys: Vec<String> = Vec::new();
                assert(texts(keys@) =~= Seq::<Seq<char>>::empty());
                keys
            },
        },
        None => {
            let keys: Vec<String> = Vec::new();
            assert(texts(keys@) =~= Seq::<Seq<char>>::empty());
            keys
        },
    }
}

} // verus!
