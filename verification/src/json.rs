//! The JSON document model of the engine.
//!
//! A stored payload is read back as a tape: the flat, preorder sequence of nodes that
//! `simd_json` produces, where an object or an array node carries how many members it
//! has and how many nodes its contents span. `Json` is the tree those nodes describe,
//! `encode` is the tape of a tree, and `decode_tape` rebuilds the tree from a tape.
//!
//! The tree is taken from the tape, in document order, and not from `simd_json`'s
//! owned value: that value keeps an object of more than 32 members in a hash map
//! seeded afresh in each process, so the order in which it yields their members is
//! not a function of the payload. The set of index keys is the same either way.
use vstd::prelude::*;

verus! {

/// A JSON value as the index sees it. Numbers keep the kind the parser gave them;
/// a float is held by the text that Rust's `Display` prints for it.
pub enum Json {
    Null,
    Bool(bool),
    I64(i64),
    U64(u64),
    F64(Seq<char>),
    Str(Seq<char>),
    Array(Seq<Json>),
    Object(Seq<(Seq<char>, Json)>),
}

/// One node of a parsed tape.
pub enum TapeItem {
    Str(Seq<char>),
    Object { len: nat, count: nat },
    Array { len: nat, count: nat },
    I64(i64),
    U64(u64),
    F64(Seq<char>),
    Bool(bool),
    Null,
}

/// The executable counterpart of `TapeItem`.
pub enum TapeNode {
    Str(String),
    Object { len: usize, count: usize },
    Array { len: usize, count: usize },
    I64(i64),
    U64(u64),
    F64(String),
    Bool(bool),
    Null,
}

impl View for TapeNode {
    type V = TapeItem;

    open spec fn view(&self) -> TapeItem {
        match self {
            TapeNode::Str(s) => TapeItem::Str(s@),
            TapeNode::Object { len, count } => TapeItem::Object { len: *len as nat, count: *count as nat },
            TapeNode::Array { len, count } => TapeItem::Array { len: *len as nat, count: *count as nat },
            TapeNode::I64(n) => TapeItem::I64(*n),
            TapeNode::U64(n) => TapeItem::U64(*n),
            TapeNode::F64(t) => TapeItem::F64(t@),
            TapeNode::Bool(b) => TapeItem::Bool(*b),
            TapeNode::Null => TapeItem::Null,
        }
    }
}

/// The items of a tape of executable nodes.
pub open spec fn tape_view(tape: Seq<TapeNode>) -> Seq<TapeItem> {
    tape.map_values(|n: TapeNode| n@)
}

/// The executable counterpart of `Json`.
pub enum JsonValue {
    Null,
    Bool(bool),
    I64(i64),
    U64(u64),
    F64(String),
    Str(String),
    Array(Vec<JsonValue>),
    Object(Vec<(String, JsonValue)>),
}

/// The tree that an executable value stands for.
pub open spec fn json_of(v: JsonValue) -> Json
    decreases v, 0int,
{
    match v {
        JsonValue::Null => Json::Null,
        JsonValue::Bool(b) => Json::Bool(b),
        JsonValue::I64(n) => Json::I64(n),
        JsonValue::U64(n) => Json::U64(n),
        JsonValue::F64(t) => Json::F64(t@),
        JsonValue::Str(s) => Json::Str(s@),
        JsonValue::Array(items) => Json::Array(items_of(items@, items@.len() as int)),
        JsonValue::Object(entries) => Json::Object(entries_of(entries@, entries@.len() as int)),
    }
}

/// The trees of the first `n` executable items.
pub open spec fn items_of(items: Seq<JsonValue>, n: int) -> Seq<Json>
    decreases items, n,
{
    if n <= 0 || n > items.len() {
        Seq::empty()
    } else {
        items_of(items, n - 1).push(json_of(items[n - 1]))
    }
}

/// The entries, as trees, of the first `n` executable object entries.
pub open spec fn entries_of(entries: Seq<(String, JsonValue)>, n: int) -> Seq<(Seq<char>, Json)>
    decreases entries, n,
{
    if n <= 0 || n > entries.len() {
        Seq::empty()
    } else {
        entries_of(entries, n - 1).push((entries[n - 1].0@, json_of(entries[n - 1].1)))
    }
}

impl View for JsonValue {
    type V = Json;

    open spec fn view(&self) -> Json {
        json_of(*self)
    }
}

/// The tape of a tree: a node for the value, then, for a container, the tapes of its
/// members (an object member is its key node followed by the tape of its value).
pub open spec fn encode(j: Json) -> Seq<TapeItem>
    decreases j, 0int,
{
    match j {
        Json::Null => seq![TapeItem::Null],
        Json::Bool(b) => seq![TapeItem::Bool(b)],
        Json::I64(n) => seq![TapeItem::I64(n)],
        Json::U64(n) => seq![TapeItem::U64(n)],
        Json::F64(t) => seq![TapeItem::F64(t)],
        Json::Str(s) => seq![TapeItem::Str(s)],
        Json::Array(items) => {
            let body = encode_items(items, items.len() as int);
            seq![TapeItem::Array { len: items.len(), count: body.len() }] + body
        },
        Json::Object(entries) => {
            let body = encode_entries(entries, entries.len() as int);
            seq![TapeItem::Object { len: entries.len(), count: body.len() }] + body
        },
    }
}

/// The tapes of the first `n` array items, one after the other.
pub open spec fn encode_items(items: Seq<Json>, n: int) -> Seq<TapeItem>
    decreases items, n,
{
    if n <= 0 || n > items.len() {
        Seq::empty()
    } else {
        encode_items(items, n - 1) + encode(items[n - 1])
    }
}

/// The tapes of the first `n` object entries: each a key node, then its value's tape.
pub open spec fn encode_entries(entries: Seq<(Seq<char>, Json)>, n: int) -> Seq<TapeItem>
    decreases entries, n,
{
    if n <= 0 || n > entries.len() {
        Seq::empty()
    } else {
        encode_entries(entries, n - 1) + seq![TapeItem::Str(entries[n - 1].0)] + encode(
            entries[n - 1].1,
        )
    }
}

/// The tape `t` holds, from position `pos` on, the tape of `j`.
pub open spec fn encodes_at(t: Seq<TapeItem>, pos: int, j: Json) -> bool {
    &&& 0 <= pos
    &&& pos + encode(j).len() <= t.len()
    &&& t.subrange(pos, pos + encode(j).len()) == encode(j)
}

/// The tree that a whole tape encodes, where there is one.
pub open spec fn tape_tree(t: Seq<TapeItem>) -> Option<Json> {
    if exists|j: Json| encode(j) == t {
        Some(choose|j: Json| encode(j) == t)
    } else {
        None
    }
}

proof fn lemma_items_of_len(items: Seq<JsonValue>, n: int)
    requires
        0 <= n <= items.len(),
    ensures
        items_of(items, n).len() == n,
    decreases n,
{
    if n > 0 {
        lemma_items_of_len(items, n - 1);
    }
}

proof fn lemma_items_of_prefix(a: Seq<JsonValue>, b: Seq<JsonValue>, n: int)
    requires
        0 <= n <= a.len(),
        n <= b.len(),
        forall|k: int| 0 <= k < n ==> a[k] == b[k],
    ensures
        items_of(a, n) == items_of(b, n),
    decreases n,
{
    if n > 0 {
        lemma_items_of_prefix(a, b, n - 1);
    }
}

proof fn lemma_entries_of_len(entries: Seq<(String, JsonValue)>, n: int)
    requires
        0 <= n <= entries.len(),
    ensures
        entries_of(entries, n).len() == n,
    decreases n,
{
    if n > 0 {
        lemma_entries_of_len(entries, n - 1);
    }
}

proof fn lemma_entries_of_prefix(a: Seq<(String, JsonValue)>, b: Seq<(String, JsonValue)>, n: int)
    requires
        0 <= n <= a.len(),
        n <= b.len(),
        forall|k: int| 0 <= k < n ==> a[k] == b[k],
    ensures
        entries_of(a, n) == entries_of(b, n),
    decreases n,
{
    if n > 0 {
        lemma_entries_of_prefix(a, b, n - 1);
    }
}

proof fn lemma_encode_items_prefix(a: Seq<Json>, b: Seq<Json>, n: int)
    requires
        0 <= n <= a.len(),
        n <= b.len(),
        forall|k: int| 0 <= k < n ==> a[k] == b[k],
    ensures
        encode_items(a, n) == encode_items(b, n),
    decreases n,
{
    if n > 0 {
        lemma_encode_items_prefix(a, b, n - 1);
    }
}

proof fn lemma_encode_entries_prefix(a: Seq<(Seq<char>, Json)>, b: Seq<(Seq<char>, Json)>, n: int)
    requires
        0 <= n <= a.len(),
        n <= b.len(),
        forall|k: int| 0 <= k < n ==> a[k] == b[k],
    ensures
        encode_entries(a, n) == encode_entries(b, n),
    decreases n,
{
    if n > 0 {
        lemma_encode_entries_prefix(a, b, n - 1);
    }
}

/// The tapes of the first `m` items begin the tapes of the first `n`.
proof fn lemma_encode_items_grows(js: Seq<Json>, m: int, n: int)
    requires
        0 <= m <= n <= js.len(),
    ensures
        encode_items(js, m).len() <= encode_items(js, n).len(),
        encode_items(js, n).subrange(0, encode_items(js, m).len() as int) == encode_items(js, m),
    decreases n - m,
{
    if m < n {
        lemma_encode_items_grows(js, m, n - 1);
        let small = encode_items(js, m);
        let mid = encode_items(js, n - 1);
        let big = encode_items(js, n);
        assert(big == mid + encode(js[n - 1]));
        assert(big.subrange(0, small.len() as int) =~= mid.subrange(0, small.len() as int));
    } else {
        assert(encode_items(js, n).subrange(0, encode_items(js, m).len() as int) =~= encode_items(js, m));
    }
}

proof fn lemma_encode_entries_grows(es: Seq<(Seq<char>, Json)>, m: int, n: int)
    requires
        0 <= m <= n <= es.len(),
    ensures
        encode_entries(es, m).len() <= encode_entries(es, n).len(),
        encode_entries(es, n).subrange(0, encode_entries(es, m).len() as int) == encode_entries(es, m),
    decreases n - m,
{
    if m < n {
        lemma_encode_entries_grows(es, m, n - 1);
        let small = encode_entries(es, m);
        let mid = encode_entries(es, n - 1);
        let big = encode_entries(es, n);
        assert(big == mid + seq![TapeItem::Str(es[n - 1].0)] + encode(es[n - 1].1));
        assert(big.subrange(0, small.len() as int) =~= mid.subrange(0, small.len() as int));
    } else {
        assert(encode_entries(es, n).subrange(0, encode_entries(es, m).len() as int) =~= encode_entries(es, m));
    }
}

/// A window inside a window of `t` is a window of `t`.
proof fn lemma_window<A>(t: Seq<A>, start: int, w: Seq<A>, off: int, part: Seq<A>)
    requires
        0 <= start,
        start + w.len() <= t.len(),
        t.subrange(start, start + w.len()) == w,
        0 <= off,
        off + part.len() <= w.len(),
        w.subrange(off, off + part.len()) == part,
    ensures
        t.subrange(start + off, start + off + part.len()) == part,
{
    assert forall|k: int| 0 <= k < part.len() implies #[trigger] t.subrange(start + off, start + off + part.len())[k] == part[k] by {
        assert(t[start + off + k] == t.subrange(start, start + w.len())[off + k]);
        assert(part[k] == w.subrange(off, off + part.len())[k]);
    }
    assert(t.subrange(start + off, start + off + part.len()) =~= part);
}

/// In `[head] + body`, where `body` begins with `front + part`, `part` sits right
/// after `head` and `front`.
proof fn lemma_member_window<A>(whole: Seq<A>, head: A, body: Seq<A>, front: Seq<A>, part: Seq<A>)
    requires
        whole == seq![head] + body,
        (front + part).len() <= body.len(),
        body.subrange(0, (front + part).len() as int) == front + part,
    ensures
        whole.subrange(1 + front.len() as int, 1 + front.len() + part.len() as int) == part,
{
    let fp = front + part;
    assert forall|k: int| 0 <= k < part.len() implies #[trigger] whole.subrange(1 + front.len() as int, 1 + front.len() + part.len() as int)[k] == part[k] by {
        assert(whole[1 + front.len() + k] == body[front.len() + k]);
        assert(body[front.len() + k] == body.subrange(0, fp.len() as int)[front.len() + k]);
        assert(fp[front.len() + k] == part[k]);
    }
    assert(whole.subrange(1 + front.len() as int, 1 + front.len() + part.len() as int) =~= part);
}

/// Every tree's tape is at least one node long.
proof fn lemma_encode_nonempty(j: Json)
    ensures
        encode(j).len() >= 1,
{
}

/// Rebuilds the value whose tape starts at `pos`, and returns it with the position
/// just after its tape. Where the tape at `pos` is the tape of some tree, that tree
/// is what comes back.
fn decode_at(tape: &Vec<TapeNode>, pos: usize) -> (r: Option<(JsonValue, usize)>)
    requires
        pos <= tape.len(),
    ensures
        match r {
            Some((v, next)) => {
                &&& pos < next <= tape.len()
                &&& tape_view(tape@).subrange(pos as int, next as int) == encode(v@)
            },
            None => true,
        },
        forall|j: Json|
            #[trigger] encodes_at(tape_view(tape@), pos as int, j) ==> (r matches Some((v, next))
                && v@ == j && next == pos + encode(j).len()),
    decreases tape.len() - pos,
{
    let ghost t = tape_view(tape@);
    if pos >= tape.len() {
        assert forall|j: Json| #[trigger] encodes_at(t, pos as int, j) implies false by {
            lemma_encode_nonempty(j);
        }
        return None;
    }
    assert(t[pos as int] == tape@[pos as int]@);
    assert forall|j: Json| #[trigger] encodes_at(t, pos as int, j) implies t[pos as int] == encode(j)[0] by {
        lemma_encode_nonempty(j);
        assert(t.subrange(pos as int, pos + encode(j).len())[0] == t[pos as int]);
    }
    match &tape[pos] {
        TapeNode::Null => {
            let v = JsonValue::Null;
            assert(t.subrange(pos as int, pos + 1) =~= encode(v@));
            Some((v, pos + 1))
        },
        TapeNode::Bool(b) => {
            let v = JsonValue::Bool(*b);
            assert(t.subrange(pos as int, pos + 1) =~= encode(v@));
            Some((v, pos + 1))
        },
        TapeNode::I64(n) => {
            let v = JsonValue::I64(*n);
            assert(t.subrange(pos as int, pos + 1) =~= encode(v@));
            Some((v, pos + 1))
        },
        TapeNode::U64(n) => {
            let v = JsonValue::U64(*n);
            assert(t.subrange(pos as int, pos + 1) =~= encode(v@));
            Some((v, pos + 1))
        },
        TapeNode::F64(text) => {
            let v = JsonValue::F64(text.clone());
            assert(t.subrange(pos as int, pos + 1) =~= encode(v@));
            Some((v, pos + 1))
        },
        TapeNode::Str(s) => {
            let v = JsonValue::Str(s.clone());
            assert(t.subrange(pos as int, pos + 1) =~= encode(v@));
            Some((v, pos + 1))
        },
        TapeNode::Array { len, count } => {
            let len = *len;
            let count = *count;
            let mut items: Vec<JsonValue> = Vec::new();
            let mut p: usize = pos + 1;
            let mut i: usize = 0;
            assert(t.subrange(pos + 1, p as int) =~= encode_items(items_of(items@, 0), 0));
            while i < len
                invariant
                    pos < p <= tape.len(),
                    t == tape_view(tape@),
                    i <= len,
                    items.len() == i,
                    t[pos as int] == (TapeItem::Array { len: len as nat, count: count as nat }),
                    t.subrange(pos + 1, p as int) == encode_items(items_of(items@, i as int), i as int),
                    forall|j: Json|
                        #[trigger] encodes_at(t, pos as int, j) ==> (j matches Json::Array(js) && js.len()
                            == len && items_of(items@, i as int) == js.take(i as int) && p == pos + 1
                            + encode_items(js, i as int).len()),
                decreases len - i,
            {
                let ghost old_items = items@;
                let ghost old_p = p;
                proof {
                    assert forall|j: Json| #[trigger] encodes_at(t, pos as int, j) implies (j matches Json::Array(js)
                        && encodes_at(t, p as int, js[i as int])) by {
                        if let Json::Array(js) = j {
                            let n = js.len() as int;
                            lemma_encode_items_grows(js, i as int, i + 1);
                            lemma_encode_items_grows(js, i + 1, n);
                            let whole = encode(j);
                            let body = encode_items(js, n);
                            let e_i = encode_items(js, i as int);
                            let e_next = encode_items(js, i + 1);
                            assert(e_next == e_i + encode(js[i as int]));
                            assert(whole == seq![TapeItem::Array { len: js.len(), count: body.len() }] + body);
                            lemma_member_window(whole, TapeItem::Array { len: js.len(), count: body.len() }, body, e_i, encode(js[i as int]));
                            lemma_window(t, pos as int, whole, 1 + e_i.len() as int, encode(js[i as int]));
                        }
                    }
                }
                match decode_at(tape, p) {
                    Some((v, next)) => {
                        items.push(v);
                        p = next;
                        i = i + 1;
                        proof {
                            assert forall|k: int| 0 <= k < i - 1 implies items@[k] == old_items[k] by {}
                            lemma_items_of_prefix(items@, old_items, (i - 1) as int);
                            lemma_items_of_len(old_items, (i - 1) as int);
                            assert(items@[i - 1] == v);
                            let prev = items_of(old_items, (i - 1) as int);
                            let now = items_of(items@, i as int);
                            assert(now == prev.push(v@));
                            lemma_encode_items_prefix(now, prev, (i - 1) as int);
                            assert(encode_items(now, i as int) == encode_items(now, i - 1) + encode(now[i - 1]));
                            assert(t.subrange(pos + 1, p as int) =~= t.subrange(pos + 1, old_p as int) + t.subrange(old_p as int, p as int));
                            assert forall|j: Json| #[trigger] encodes_at(t, pos as int, j) implies (j matches Json::Array(js) && js.len()
                                == len && items_of(items@, i as int) == js.take(i as int) && p == pos + 1
                                + encode_items(js, i as int).len()) by {
                                if let Json::Array(js) = j {
                                    assert(encodes_at(t, old_p as int, js[i - 1]));
                                    assert(js.take(i as int) =~= js.take(i - 1).push(js[i - 1]));
                                }
                            }
                        }
                    },
                    None => {
                        return None;
                    },
                }
            }
            if p - (pos + 1) != count {
                return None;
            }
            let v = JsonValue::Array(items);
            proof {
                lemma_items_of_len(items@, len as int);
                let js = items_of(items@, len as int);
                assert(v@ == Json::Array(js));
                assert(t.subrange(pos as int, p as int) =~= seq![t[pos as int]] + t.subrange(pos + 1, p as int));
                assert forall|j: Json| #[trigger] encodes_at(t, pos as int, j) implies v@ == j && p == pos + encode(j).len() by {
                    if let Json::Array(ks) = j {
                        assert(ks.take(len as int) =~= ks);
                    }
                }
            }
            Some((v, p))
        },
        TapeNode::Object { len, count } => {
            let len = *len;
            let count = *count;
            let mut entries: Vec<(String, JsonValue)> = Vec::new();
            let mut p: usize = pos + 1;
            let mut i: usize = 0;
            assert(t.subrange(pos + 1, p as int) =~= encode_entries(entries_of(entries@, 0), 0));
            while i < len
                invariant
                    pos < p <= tape.len(),
                    t == tape_view(tape@),
                    i <= len,
                    entries.len() == i,
                    t[pos as int] == (TapeItem::Object { len: len as nat, count: count as nat }),
                    t.subrange(pos + 1, p as int) == encode_entries(entries_of(entries@, i as int), i as int),
                    forall|j: Json|
                        #[trigger] encodes_at(t, pos as int, j) ==> (j matches Json::Object(es) && es.len()
                            == len && entries_of(entries@, i as int) == es.take(i as int) && p == pos + 1
                            + encode_entries(es, i as int).len()),
                decreases len - i,
            {
                let ghost old_entries = entries@;
                let ghost old_p = p;
                proof {
                    assert forall|j: Json| #[trigger] encodes_at(t, pos as int, j) implies (j matches Json::Object(es)
                        && p < t.len() && t[p as int] == TapeItem::Str(es[i as int].0)
                        && encodes_at(t, p + 1, es[i as int].1)) by {
                        if let Json::Object(es) = j {
                            let n = es.len() as int;
                            lemma_encode_entries_grows(es, i as int, i + 1);
                            lemma_encode_entries_grows(es, i + 1, n);
                            let whole = encode(j);
                            let body = encode_entries(es, n);
                            let e_i = encode_entries(es, i as int);
                            let e_next = encode_entries(es, i + 1);
                            let key_node = seq![TapeItem::Str(es[i as int].0)];
                            let val = encode(es[i as int].1);
                            assert(e_next == e_i + key_node + val);
                            assert(e_next == e_i + (key_node + val));
                            assert(whole == seq![TapeItem::Object { len: es.len(), count: body.len() }] + body);
                            lemma_member_window(whole, TapeItem::Object { len: es.len(), count: body.len() }, body, e_i, key_node + val);
                            lemma_window(t, pos as int, whole, 1 + e_i.len() as int, key_node + val);
                            assert(t[p as int] == t.subrange(p as int, p + 1 + val.len())[0]);
                            assert(t.subrange(p + 1, p + 1 + val.len()) =~= t.subrange(p as int, p + 1 + val.len()).subrange(1, 1 + val.len() as int));
                            assert((key_node + val).subrange(1, 1 + val.len() as int) =~= val);
                        }
                    }
                }
                if p >= tape.len() {
                    return None;
                }
                assert(t[p as int] == tape@[p as int]@);
                let key = match &tape[p] {
                    TapeNode::Str(k) => k.clone(),
                    _ => {
                        return None;
                    },
                };
                match decode_at(tape, p + 1) {
                    Some((v, next)) => {
                        entries.push((key, v));
                        p = next;
                        i = i + 1;
                        proof {
                            assert forall|k: int| 0 <= k < i - 1 implies entries@[k] == old_entries[k] by {}
                            lemma_entries_of_prefix(entries@, old_entries, (i - 1) as int);
                            lemma_entries_of_len(old_entries, (i - 1) as int);
                            let prev = entries_of(old_entries, (i - 1) as int);
                            let now = entries_of(entries@, i as int);
                            assert(now == prev.push((key@, v@)));
                            lemma_encode_entries_prefix(now, prev, (i - 1) as int);
                            assert(encode_entries(now, i as int) == encode_entries(now, i - 1) + seq![TapeItem::Str(key@)] + encode(v@));
                            assert(t.subrange(pos + 1, p as int) =~= t.subrange(pos + 1, old_p as int) + seq![t[old_p as int]] + t.subrange(old_p + 1, p as int));
                            assert forall|j: Json| #[trigger] encodes_at(t, pos as int, j) implies (j matches Json::Object(es) && es.len()
                                == len && entries_of(entries@, i as int) == es.take(i as int) && p == pos + 1
                                + encode_entries(es, i as int).len()) by {
                                if let Json::Object(es) = j {
                                    assert(encodes_at(t, old_p + 1, es[i - 1].1));
                                    assert(es.take(i as int) =~= es.take(i - 1).push(es[i - 1]));
                                }
                            }
                        }
                    },
                    None => {
                        return None;
                    },
                }
            }
            if p - (pos + 1) != count {
                return None;
            }
            let v = JsonValue::Object(entries);
            proof {
                lemma_entries_of_len(entries@, len as int);
                let es = entries_of(entries@, len as int);
                assert(v@ == Json::Object(es));
                assert(t.subrange(pos as int, p as int) =~= seq![t[pos as int]] + t.subrange(pos + 1, p as int));
                assert forall|j: Json| #[trigger] encodes_at(t, pos as int, j) implies v@ == j && p == pos + encode(j).len() by {
                    if let Json::Object(ks) = j {
                        assert(ks.take(len as int) =~= ks);
                    }
                }
            }
            Some((v, p))
        },
    }
}

/// Rebuilds the tree that a whole tape encodes: `None` exactly where no tree has
/// that tape.
pub fn decode_tape(tape: &Vec<TapeNode>) -> (r: Option<JsonValue>)
    ensures
        match r {
            Some(v) => tape_tree(tape_view(tape@)) == Some(v@),
            None => tape_tree(tape_view(tape@)) is None,
        },
{
    let ghost t = tape_view(tape@);
    let r = decode_at(tape, 0);
    match r {
        Some((v, next)) => {
            if next == tape.len() {
                proof {
                    assert(t.subrange(0, next as int) =~= t);
                    let c = choose|j: Json| encode(j) == t;
                    assert(encodes_at(t, 0, c));
                }
                Some(v)
            } else {
                proof {
                    if exists|j: Json| encode(j) == t {
                        let c = choose|j: Json| encode(j) == t;
                        assert(t.subrange(0, encode(c).len() as int) =~= t);
                        assert(encodes_at(t, 0, c));
                    }
                }
                None
            }
        },
        None => {
            proof {
                if exists|j: Json| encode(j) == t {
                    let c = choose|j: Json| encode(j) == t;
                    assert(t.subrange(0, encode(c).len() as int) =~= t);
                    assert(encodes_at(t, 0, c));
                }
            }
            None
        },
    }
}

/// The first node of a tree's tape says which kind of value it is, and holds a
/// scalar's value or a container's size.
proof fn lemma_head_node(t: Seq<TapeItem>, pos: int, j: Json)
    requires
        encodes_at(t, pos, j),
    ensures
        pos < t.len(),
        t[pos] == encode(j)[0],
{
    lemma_encode_nonempty(j);
    assert(t.subrange(pos, pos + encode(j).len())[0] == t[pos]);
}

/// A tape describes at most one tree from any position: two trees whose tapes both
/// sit at `pos` are the same tree.
pub proof fn law_tape_describes_one_tree(t: Seq<TapeItem>, pos: int, j1: Json, j2: Json)
    requires
        encodes_at(t, pos, j1),
        encodes_at(t, pos, j2),
    ensures
        j1 == j2,
    decreases j1, 0int,
{
    lemma_head_node(t, pos, j1);
    lemma_head_node(t, pos, j2);
    match j1 {
        Json::Array(a1) => {
            if let Json::Array(a2) = j2 {
                lemma_items_agree(t, pos, a1, a2, a1.len() as int);
                assert(a1 =~= a2);
            }
        },
        Json::Object(e1) => {
            if let Json::Object(e2) = j2 {
                lemma_entries_agree(t, pos, e1, e2, e1.len() as int);
                assert(e1 =~= e2);
            }
        },
        _ => {},
    }
}

/// Two arrays whose tapes sit at `pos` agree on their first `n` items.
proof fn lemma_items_agree(t: Seq<TapeItem>, pos: int, a1: Seq<Json>, a2: Seq<Json>, n: int)
    requires
        encodes_at(t, pos, Json::Array(a1)),
        encodes_at(t, pos, Json::Array(a2)),
        a1.len() == a2.len(),
        0 <= n <= a1.len(),
    ensures
        forall|k: int| 0 <= k < n ==> a1[k] == a2[k],
        encode_items(a1, n) == encode_items(a2, n),
    decreases a1, n,
{
    if n > 0 {
        lemma_items_agree(t, pos, a1, a2, n - 1);
        lemma_encode_items_prefix(a1, a2, n - 1);
        let m = a1.len() as int;
        let w1 = encode(Json::Array(a1));
        let w2 = encode(Json::Array(a2));
        let b1 = encode_items(a1, m);
        let b2 = encode_items(a2, m);
        let front = encode_items(a1, n - 1);
        lemma_encode_items_grows(a1, n, m);
        lemma_encode_items_grows(a2, n, m);
        assert(encode_items(a1, n) == front + encode(a1[n - 1]));
        assert(encode_items(a2, n) == front + encode(a2[n - 1]));
        lemma_member_window(w1, TapeItem::Array { len: a1.len(), count: b1.len() }, b1, front, encode(a1[n - 1]));
        lemma_member_window(w2, TapeItem::Array { len: a2.len(), count: b2.len() }, b2, front, encode(a2[n - 1]));
        lemma_window(t, pos, w1, 1 + front.len() as int, encode(a1[n - 1]));
        lemma_window(t, pos, w2, 1 + front.len() as int, encode(a2[n - 1]));
        law_tape_describes_one_tree(t, pos + 1 + front.len(), a1[n - 1], a2[n - 1]);
    }
}

/// Two objects whose tapes sit at `pos` agree on their first `n` members.
proof fn lemma_entries_agree(
    t: Seq<TapeItem>,
    pos: int,
    e1: Seq<(Seq<char>, Json)>,
    e2: Seq<(Seq<char>, Json)>,
    n: int,
)
    requires
        encodes_at(t, pos, Json::Object(e1)),
        encodes_at(t, pos, Json::Object(e2)),
        e1.len() == e2.len(),
        0 <= n <= e1.len(),
    ensures
        forall|k: int| 0 <= k < n ==> e1[k] == e2[k],
        encode_entries(e1, n) == encode_entries(e2, n),
    decreases e1, n,
{
    if n > 0 {
        lemma_entries_agree(t, pos, e1, e2, n - 1);
        lemma_encode_entries_prefix(e1, e2, n - 1);
        let m = e1.len() as int;
        let w1 = encode(Json::Object(e1));
        let w2 = encode(Json::Object(e2));
        let b1 = encode_entries(e1, m);
        let b2 = encode_entries(e2, m);
        let front = encode_entries(e1, n - 1);
        let part1 = seq![TapeItem::Str(e1[n - 1].0)] + encode(e1[n - 1].1);
        let part2 = seq![TapeItem::Str(e2[n - 1].0)] + encode(e2[n - 1].1);
        lemma_encode_entries_grows(e1, n, m);
        lemma_encode_entries_grows(e2, n, m);
        assert(encode_entries(e1, n) == front + part1);
        assert(encode_entries(e2, n) == front + part2);
        lemma_member_window(w1, TapeItem::Object { len: e1.len(), count: b1.len() }, b1, front, part1);
        lemma_member_window(w2, TapeItem::Object { len: e2.len(), count: b2.len() }, b2, front, part2);
        lemma_window(t, pos, w1, 1 + front.len() as int, part1);
        lemma_window(t, pos, w2, 1 + front.len() as int, part2);
        let p = pos + 1 + front.len();
        assert(t[p] == part1[0]);
        assert(t[p] == part2[0]);
        assert(t.subrange(p + 1, p + 1 + encode(e1[n - 1].1).len()) =~= encode(e1[n - 1].1)) by {
            assert(t.subrange(p + 1, p + 1 + encode(e1[n - 1].1).len()) =~= t.subrange(p, p + part1.len()).subrange(1, part1.len() as int));
            assert(part1.subrange(1, part1.len() as int) =~= encode(e1[n - 1].1));
        }
        assert(t.subrange(p + 1, p + 1 + encode(e2[n - 1].1).len()) =~= encode(e2[n - 1].1)) by {
            assert(t.subrange(p + 1, p + 1 + encode(e2[n - 1].1).len()) =~= t.subrange(p, p + part2.len()).subrange(1, part2.len() as int));
            assert(part2.subrange(1, part2.len() as int) =~= encode(e2[n - 1].1));
        }
        law_tape_describes_one_tree(t, p + 1, e1[n - 1].1, e2[n - 1].1);
    }
}

/// The tree a tree's own tape encodes is that tree.
pub proof fn law_tape_tree_of_encode(j: Json)
    ensures
        tape_tree(encode(j)) == Some(j),
{
    let t = encode(j);
    assert(t.subrange(0, t.len() as int) =~= t);
    assert(encode(j) == t);
    let c = choose|c: Json| encode(c) == t;
    assert(t.subrange(0, encode(c).len() as int) =~= t);
    law_tape_describes_one_tree(t, 0, j, c);
}

} // verus!
