//! Flattening a JSON document into the keys of the metadata index.
//!
//! Every scalar of a document is filed under its path: the object keys and array
//! positions that lead to it, joined by dots, then a dot and the scalar's text. So
//! `{"user": {"tags": ["a"]}}` yields `user.tags.0.a`. `null` yields nothing.
use vstd::prelude::*;
use crate::json::{entries_of, items_of, json_of, Json, JsonValue};
use crate::text::{
    child_path, child_path_string, decimal, dotted, dotted_string, push_decimal, push_signed_decimal,
    signed_decimal,
};

verus! {

/// Up to this many members, a parsed object keeps every member, repeated keys
/// included; a larger one keeps, for a repeated key, only its last value.
pub const SMALL_OBJECT_LIMIT: usize = 32;

/// Whether member `i` of an object takes part in the index.
pub open spec fn member_kept(entries: Seq<(Seq<char>, Json)>, i: int) -> bool {
    entries.len() <= SMALL_OBJECT_LIMIT || forall|k: int|
        i < k < entries.len() ==> #[trigger] entries[k].0 != entries[i].0
}

/// The text of a boolean.
pub open spec fn bool_text(b: bool) -> Seq<char> {
    if b {
        seq!['t', 'r', 'u', 'e']
    } else {
        seq!['f', 'a', 'l', 's', 'e']
    }
}

/// The index keys of the value `j` found at path `prefix`, in document order.
pub open spec fn index_keys(prefix: Seq<char>, j: Json) -> Seq<Seq<char>>
    decreases j, 0int,
{
    match j {
        Json::Null => Seq::empty(),
        Json::Bool(b) => seq![dotted(prefix, bool_text(b))],
        Json::I64(n) => seq![dotted(prefix, signed_decimal(n as int))],
        Json::U64(n) => seq![dotted(prefix, decimal(n as nat))],
        Json::F64(t) => seq![dotted(prefix, t)],
        Json::Str(s) => seq![dotted(prefix, s)],
        Json::Array(items) => array_keys(prefix, items, items.len() as int),
        Json::Object(entries) => object_keys(prefix, entries, entries.len() as int),
    }
}

/// The index keys of the first `n` items of an array at path `prefix`; item `i`
/// sits at the path extended by `i`.
pub open spec fn array_keys(prefix: Seq<char>, items: Seq<Json>, n: int) -> Seq<Seq<char>>
    decreases items, n,
{
    if n <= 0 || n > items.len() {
        Seq::empty()
    } else {
        array_keys(prefix, items, n - 1) + index_keys(
            child_path(prefix, decimal((n - 1) as nat)),
            items[n - 1],
        )
    }
}

/// The index keys of the first `n` members of an object at path `prefix`; a kept
/// member sits at the path extended by its key.
pub open spec fn object_keys(prefix: Seq<char>, entries: Seq<(Seq<char>, Json)>, n: int) -> Seq<
    Seq<char>,
>
    decreases entries, n,
{
    if n <= 0 || n > entries.len() {
        Seq::empty()
    } else if member_kept(entries, n - 1) {
        object_keys(prefix, entries, n - 1) + index_keys(
            child_path(prefix, entries[n - 1].0),
            entries[n - 1].1,
        )
    } else {
        object_keys(prefix, entries, n - 1)
    }
}

/// The text of each string.
pub open spec fn texts(s: Seq<String>) -> Seq<Seq<char>> {
    s.map_values(|x: String| x@)
}

proof fn lemma_texts_push(s: Seq<String>, x: String)
    ensures
        texts(s.push(x)) == texts(s).push(x@),
{
    assert(texts(s.push(x)) =~= texts(s).push(x@));
}

fn push_key(out: &mut Vec<String>, key: String)
    ensures
        texts(final(out)@) == texts(old(out)@) + seq![key@],
{
    let ghost before = out@;
    out.push(key);
    proof {
        lemma_texts_push(before, key);
        assert(texts(before).push(key@) =~= texts(before) + seq![key@]);
    }
}

/// Whether member `i` of an executable object takes part in the index.
fn is_member_kept(entries: &Vec<(String, JsonValue)>, i: usize) -> (kept: bool)
    requires
        i < entries.len(),
    ensures
        kept == member_kept(entries_of(entries@, entries@.len() as int), i as int),
{
    let ghost es = entries_of(entries@, entries@.len() as int);
    proof {
        lemma_entries_of_index(entries@, entries@.len() as int);
    }
    if entries.len() <= SMALL_OBJECT_LIMIT {
        return true;
    }
    let mut k = i + 1;
    while k < entries.len()
        invariant
            i < k <= entries.len(),
            entries.len() > SMALL_OBJECT_LIMIT,
            es == entries_of(entries@, entries@.len() as int),
            es.len() == entries.len(),
            forall|m: int| 0 <= m < es.len() ==> #[trigger] es[m].0 == entries@[m].0@,
            forall|m: int| i < m < k ==> #[trigger] es[m].0 != es[i as int].0,
        decreases entries.len() - k,
    {
        if entries[k].0 == entries[i].0 {
            assert(es[k as int].0 == es[i as int].0);
            return false;
        }
        k = k + 1;
    }
    true
}

/// The member views of an executable object, taken one by one.
proof fn lemma_entries_of_index(entries: Seq<(String, JsonValue)>, n: int)
    requires
        0 <= n <= entries.len(),
    ensures
        entries_of(entries, n).len() == n,
        forall|m: int|
            0 <= m < n ==> #[trigger] entries_of(entries, n)[m] == (entries[m].0@, json_of(entries[m].1)),
    decreases n,
{
    if n > 0 {
        lemma_entries_of_index(entries, n - 1);
    }
}

/// The item views of an executable array, taken one by one.
proof fn lemma_items_of_index(items: Seq<JsonValue>, n: int)
    requires
        0 <= n <= items.len(),
    ensures
        items_of(items, n).len() == n,
        forall|m: int| 0 <= m < n ==> #[trigger] items_of(items, n)[m] == json_of(items[m]),
    decreases n,
{
    if n > 0 {
        lemma_items_of_index(items, n - 1);
    }
}

/// Appends to `out` the index keys of `v`, found at path `prefix`.
#[verifier::loop_isolation(false)]
pub fn push_index_keys(prefix: &String, v: &JsonValue, out: &mut Vec<String>)
    ensures
        texts(final(out)@) == texts(old(out)@) + index_keys(prefix@, v@),
    decreases v,
{
    match v {
        JsonValue::Null => {
            assert(texts(out@) + index_keys(prefix@, v@) =~= texts(out@));
        },
        JsonValue::Bool(b) => {
            let text = if *b {
                proof { reveal_strlit("true"); }
                "true"
            } else {
                proof { reveal_strlit("false"); }
                "false"
            };
            assert(text@ =~= bool_text(*b));
            push_key(out, dotted_string(prefix.as_str(), text));
        },
        JsonValue::I64(n) => {
            let mut digits = String::new();
            push_signed_decimal(&mut digits, *n);
            assert(digits@ =~= signed_decimal(*n as int));
            push_key(out, dotted_string(prefix.as_str(), digits.as_str()));
        },
        JsonValue::U64(n) => {
            let mut digits = String::new();
            push_decimal(&mut digits, *n);
            assert(digits@ =~= decimal(*n as nat));
            push_key(out, dotted_string(prefix.as_str(), digits.as_str()));
        },
        JsonValue::F64(t) => {
            push_key(out, dotted_string(prefix.as_str(), t.as_str()));
        },
        JsonValue::Str(s) => {
            push_key(out, dotted_string(prefix.as_str(), s.as_str()));
        },
        JsonValue::Array(items) => {
            let ghost start = texts(out@);
            let ghost js = items_of(items@, items@.len() as int);
            proof {
                lemma_items_of_index(items@, items@.len() as int);
            }
            let mut i: usize = 0;
            while i < items.len()
                invariant
                    i <= items.len(),
                    js == items_of(items@, items@.len() as int),
                    js.len() == items.len(),
                    forall|m: int| 0 <= m < js.len() ==> #[trigger] js[m] == json_of(items@[m]),
                    texts(out@) == start + array_keys(prefix@, js, i as int),
                decreases items.len() - i,
            {
                let mut position = String::new();
                push_decimal(&mut position, i as u64);
                assert(position@ =~= decimal(i as nat));
                let path = child_path_string(prefix.as_str(), position.as_str());
                proof {
                    assert(decreases_to!(*v => v->Array_0));
                    assert(decreases_to!(*items => items@));
                    assert(decreases_to!(items@ => items@[i as int]));
                }
                push_index_keys(&path, &items[i], out);
                proof {
                    assert(js[i as int] == items@[i as int]@);
                    assert(array_keys(prefix@, js, i + 1) == array_keys(prefix@, js, i as int)
                        + index_keys(child_path(prefix@, decimal(i as nat)), js[i as int]));
                }
                i = i + 1;
                assert(texts(out@) =~= start + array_keys(prefix@, js, i as int));
            }
        },
        JsonValue::Object(entries) => {
            let ghost start = texts(out@);
            let ghost es = entries_of(entries@, entries@.len() as int);
            proof {
                lemma_entries_of_index(entries@, entries@.len() as int);
            }
            let mut i: usize = 0;
            while i < entries.len()
                invariant
                    i <= entries.len(),
                    es == entries_of(entries@, entries@.len() as int),
                    es.len() == entries.len(),
                    forall|m: int|
                        0 <= m < es.len() ==> #[trigger] es[m] == (entries@[m].0@, json_of(entries@[m].1)),
                    texts(out@) == start + object_keys(prefix@, es, i as int),
                decreases entries.len() - i,
            {
                if is_member_kept(entries, i) {
                    let path = child_path_string(prefix.as_str(), entries[i].0.as_str());
                    proof {
                        assert(decreases_to!(*v => v->Object_0));
                        assert(decreases_to!(*entries => entries@));
                        assert(decreases_to!(entries@ => entries@[i as int]));
                        assert(decreases_to!(entries@[i as int] => entries@[i as int].1));
                    }
                    push_index_keys(&path, &entries[i].1, out);
                    proof {
                        assert(es[i as int].1 == entries@[i as int].1@);
                    }
                }
                i = i + 1;
                assert(texts(out@) =~= start + object_keys(prefix@, es, i as int));
            }
        },
    }
}

/// The index keys of a whole document.
pub fn document_index_keys(doc: &JsonValue) -> (keys: Vec<String>)
    ensures
        texts(keys@) == index_keys(Seq::empty(), doc@),
{
    let mut keys: Vec<String> = Vec::new();
    let root = String::new();
    push_index_keys(&root, doc, &mut keys);
    assert(texts(keys@) =~= index_keys(Seq::empty(), doc@));
    keys
}

} // verus!
