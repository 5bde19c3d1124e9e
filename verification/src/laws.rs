//! What holds of the store model across operations: a document holds what was last
//! written to it, writes touch only their own document, the index stays in step with
//! the documents, a repeated upsert changes nothing, and batching does not change
//! what a queue of operations does.
use vstd::prelude::*;
use crate::parse::document_keys;
use crate::index_keys::{array_keys, index_keys, member_kept, object_keys};
use crate::json::Json;
use crate::reads::{answers_for, filter_listing, prefix_listing, read_answer, stored_answer};
use crate::text::{child_path, decimal, dotted};
use crate::store::{ids_under, key_less};
use crate::writes::{apply_op, apply_ops, entries_for, StoreView, WriteOpView};

verus! {

/// The index entries that the documents call for: each document filed under each
/// key of its payload.
pub open spec fn filed_entries(docs: Map<Seq<char>, Seq<u8>>) -> Set<(Seq<char>, Seq<char>)> {
    Set::new(
        |e: (Seq<char>, Seq<char>)| docs.contains_key(e.1) && document_keys(docs[e.1]).contains(e.0),
    )
}

/// Every document is filed under every key of its payload.
pub open spec fn index_covers(s: StoreView) -> bool {
    filed_entries(s.docs).subset_of(s.index)
}

/// The index holds exactly the entries that the documents call for.
pub open spec fn index_exact(s: StoreView) -> bool {
    s.index == filed_entries(s.docs)
}

/// The id that an operation is about, if any.
pub open spec fn op_id(op: WriteOpView) -> Option<Seq<char>> {
    match op {
        WriteOpView::Insert { id, .. } => Some(id),
        WriteOpView::Delete { id } => Some(id),
        WriteOpView::Upsert { id, .. } => Some(id),
        WriteOpView::ShutDown => None,
    }
}

/// After an insert or an upsert of `payload` under `id`, `id` holds `payload`;
/// after a delete of `id`, `id` holds nothing.
pub proof fn law_read_after_write(s: StoreView, id: Seq<char>, payload: Seq<u8>)
    ensures
        apply_op(s, WriteOpView::Insert { id, payload }).docs.contains_key(id),
        apply_op(s, WriteOpView::Insert { id, payload }).docs[id] == payload,
        apply_op(s, WriteOpView::Upsert { id, payload }).docs.contains_key(id),
        apply_op(s, WriteOpView::Upsert { id, payload }).docs[id] == payload,
        !apply_op(s, WriteOpView::Delete { id }).docs.contains_key(id),
{
}

/// An operation leaves every other document as it was, and a shutdown request
/// leaves the whole store as it was.
pub proof fn law_other_documents_untouched(s: StoreView, op: WriteOpView, other: Seq<char>)
    requires
        op_id(op) != Some(other),
    ensures
        apply_op(s, op).docs.contains_key(other) == s.docs.contains_key(other),
        s.docs.contains_key(other) ==> apply_op(s, op).docs[other] == s.docs[other],
        op is ShutDown ==> apply_op(s, op) == s,
{
}

/// Deleting an id that holds no document changes nothing, and upserting it does
/// what inserting it does.
pub proof fn law_missing_id_operations(s: StoreView, id: Seq<char>, payload: Seq<u8>)
    requires
        !s.docs.contains_key(id),
    ensures
        apply_op(s, WriteOpView::Delete { id }) == s,
        apply_op(s, WriteOpView::Upsert { id, payload }) == apply_op(
            s,
            WriteOpView::Insert { id, payload },
        ),
{
}

/// The entries that file `id` are exactly those the documents call for, whoever
/// else is filed.
proof fn lemma_filed_after_store(docs: Map<Seq<char>, Seq<u8>>, id: Seq<char>, payload: Seq<u8>)
    ensures
        filed_entries(docs.insert(id, payload)) == filed_entries(docs.remove(id)) + entries_for(
            document_keys(payload),
            id,
        ),
{
    assert(filed_entries(docs.insert(id, payload)) =~= filed_entries(docs.remove(id)) + entries_for(
        document_keys(payload),
        id,
    ));
}

proof fn lemma_filed_after_remove(docs: Map<Seq<char>, Seq<u8>>, id: Seq<char>)
    requires
        docs.contains_key(id),
    ensures
        filed_entries(docs.remove(id)) == filed_entries(docs) - entries_for(document_keys(docs[id]), id),
{
    assert(filed_entries(docs.remove(id)) =~= filed_entries(docs) - entries_for(
        document_keys(docs[id]),
        id,
    ));
}

/// Every operation keeps every document filed under every key of its payload.
pub proof fn law_index_covers_documents(s: StoreView, op: WriteOpView)
    requires
        index_covers(s),
    ensures
        index_covers(apply_op(s, op)),
{
    let t = apply_op(s, op);
    assert forall|e: (Seq<char>, Seq<char>)| filed_entries(t.docs).contains(e) implies t.index.contains(e) by {
        match op {
            WriteOpView::Insert { id, payload } => {
                if e.1 != id {
                    assert(filed_entries(s.docs).contains(e));
                }
            },
            WriteOpView::Delete { id } => {
                assert(filed_entries(s.docs).contains(e));
            },
            WriteOpView::Upsert { id, payload } => {
                if e.1 != id {
                    assert(filed_entries(s.docs).contains(e));
                }
            },
            WriteOpView::ShutDown => {
                assert(filed_entries(s.docs).contains(e));
            },
        }
    }
}

/// Deleting a document keeps the index exactly in step with the documents.
pub proof fn law_delete_keeps_index_exact(s: StoreView, id: Seq<char>)
    requires
        index_exact(s),
    ensures
        index_exact(apply_op(s, WriteOpView::Delete { id })),
{
    if s.docs.contains_key(id) {
        lemma_filed_after_remove(s.docs, id);
    }
}

/// Upserting a document keeps the index exactly in step with the documents: the old
/// payload's entries go, the new payload's come.
pub proof fn law_upsert_keeps_index_exact(s: StoreView, id: Seq<char>, payload: Seq<u8>)
    requires
        index_exact(s),
    ensures
        index_exact(apply_op(s, WriteOpView::Upsert { id, payload })),
{
    let mid = apply_op(s, WriteOpView::Delete { id });
    law_delete_keeps_index_exact(s, id);
    lemma_filed_after_store(mid.docs, id, payload);
    assert(mid.docs.remove(id) =~= mid.docs);
}

/// Inserting a document under an id that holds none keeps the index exactly in
/// step with the documents. (Inserting over a stored document does not: the old
/// payload's entries stay.)
pub proof fn law_insert_of_new_id_keeps_index_exact(s: StoreView, id: Seq<char>, payload: Seq<u8>)
    requires
        index_exact(s),
        !s.docs.contains_key(id),
    ensures
        index_exact(apply_op(s, WriteOpView::Insert { id, payload })),
{
    lemma_filed_after_store(s.docs, id, payload);
    assert(s.docs.remove(id) =~= s.docs);
}

/// Deleting a document just inserted under an id that holds no document and files
/// nothing gives back the store as it was.
pub proof fn law_delete_undoes_insert_of_new_id(s: StoreView, id: Seq<char>, payload: Seq<u8>)
    requires
        !s.docs.contains_key(id),
        forall|e: (Seq<char>, Seq<char>)| #[trigger] s.index.contains(e) ==> e.1 != id,
    ensures
        apply_op(apply_op(s, WriteOpView::Insert { id, payload }), WriteOpView::Delete { id }) == s,
{
    let t = apply_op(apply_op(s, WriteOpView::Insert { id, payload }), WriteOpView::Delete { id });
    assert(t.docs =~= s.docs);
    assert(t.index =~= s.index);
}

/// Where the index is exact, no index entry files an id that holds no document, so
/// deleting a document just inserted under a new id gives back the store as it was.
pub proof fn law_delete_undoes_insert_where_index_exact(s: StoreView, id: Seq<char>, payload: Seq<u8>)
    requires
        index_exact(s),
        !s.docs.contains_key(id),
    ensures
        apply_op(apply_op(s, WriteOpView::Insert { id, payload }), WriteOpView::Delete { id }) == s,
{
    assert forall|e: (Seq<char>, Seq<char>)| #[trigger] s.index.contains(e) implies e.1 != id by {
        assert(filed_entries(s.docs).contains(e));
    }
    law_delete_undoes_insert_of_new_id(s, id, payload);
}

/// Upserting the same payload under the same id twice leaves the store as upserting
/// it once does.
pub proof fn law_upsert_is_idempotent(s: StoreView, id: Seq<char>, payload: Seq<u8>)
    ensures
        apply_op(apply_op(s, WriteOpView::Upsert { id, payload }), WriteOpView::Upsert { id, payload })
            == apply_op(s, WriteOpView::Upsert { id, payload }),
{
    let once = apply_op(s, WriteOpView::Upsert { id, payload });
    let twice = apply_op(once, WriteOpView::Upsert { id, payload });
    assert(once.docs.contains_key(id) && once.docs[id] == payload);
    assert(twice.docs =~= once.docs);
    assert(twice.index =~= once.index);
}

/// An insert keeps every stored id and every index entry: it only adds.
pub proof fn law_insert_never_shrinks(s: StoreView, id: Seq<char>, payload: Seq<u8>)
    ensures
        s.docs.dom().subset_of(apply_op(s, WriteOpView::Insert { id, payload }).docs.dom()),
        s.index.subset_of(apply_op(s, WriteOpView::Insert { id, payload }).index),
{
}

/// Where the index is exact, the ids filed under a key are exactly the stored
/// documents whose payload has that key.
pub proof fn law_filter_finds_exactly_matching_documents(s: StoreView, key: Seq<char>)
    requires
        index_exact(s),
    ensures
        ids_under(s.index, key) == Set::new(
            |id: Seq<char>| s.docs.contains_key(id) && document_keys(s.docs[id]).contains(key),
        ),
{
    assert(ids_under(s.index, key) =~= Set::new(
        |id: Seq<char>| s.docs.contains_key(id) && document_keys(s.docs[id]).contains(key),
    ));
}

/// A filter read from tables whose index is exact lists exactly the stored
/// documents whose payload has the key, each with its payload.
pub proof fn law_filter_rows_are_matching_documents(
    rows: Seq<(Seq<char>, Seq<u8>)>,
    s: StoreView,
    key: Seq<char>,
)
    requires
        index_exact(s),
        filter_listing(rows, s.docs, s.index, key),
    ensures
        forall|id: Seq<char>|
            (exists|i: int| 0 <= i < rows.len() && #[trigger] rows[i].0 == id) <==> (s.docs.contains_key(id)
                && document_keys(s.docs[id]).contains(key)),
        forall|i: int| 0 <= i < rows.len() ==> #[trigger] rows[i].1 == s.docs[rows[i].0],
{
    law_filter_finds_exactly_matching_documents(s, key);
    assert forall|id: Seq<char>|
        (exists|i: int| 0 <= i < rows.len() && #[trigger] rows[i].0 == id) <==> (s.docs.contains_key(id)
            && document_keys(s.docs[id]).contains(key)) by {
        if s.docs.contains_key(id) && document_keys(s.docs[id]).contains(key) {
            assert(ids_under(s.index, key).contains(id));
            assert(s.index.contains((key, id)));
        }
        if exists|i: int| 0 <= i < rows.len() && #[trigger] rows[i].0 == id {
            let i = choose|i: int| 0 <= i < rows.len() && #[trigger] rows[i].0 == id;
            assert(s.docs.contains_key(rows[i].0));
            assert(s.index.contains((key, rows[i].0)));
            assert(ids_under(s.index, key).contains(id));
        }
    }
}

/// No key comes before itself.
pub proof fn lemma_key_less_irreflexive(a: Seq<char>)
    ensures
        !key_less(a, a),
{
}

/// Of two keys, at most one comes before the other.
pub proof fn lemma_key_less_asymmetric(a: Seq<char>, b: Seq<char>)
    requires
        key_less(a, b),
    ensures
        !key_less(b, a),
{
    if key_less(b, a) {
        if a.len() < b.len() && a == b.take(a.len() as int) {
            if b.len() < a.len() && b == a.take(b.len() as int) {
            } else {
                let j = choose|j: int|
                    0 <= j < b.len() && j < a.len() && b.take(j) == a.take(j) && (b[j] as u32) < (
                    a[j] as u32);
                assert(a[j] == b.take(a.len() as int)[j]);
            }
        } else {
            let i = choose|i: int|
                0 <= i < a.len() && i < b.len() && a.take(i) == b.take(i) && (a[i] as u32) < (
                b[i] as u32);
            if b.len() < a.len() && b == a.take(b.len() as int) {
                assert(b[i] == a.take(b.len() as int)[i]);
            } else {
                let j = choose|j: int|
                    0 <= j < b.len() && j < a.len() && b.take(j) == a.take(j) && (b[j] as u32) < (
                    a[j] as u32);
                if i < j {
                    assert(a[i] == a.take(j)[i] && b[i] == b.take(j)[i]);
                } else if j < i {
                    assert(a[j] == a.take(i)[j] && b[j] == b.take(i)[j]);
                }
            }
        }
    }
}

/// Two sequences of keys, each in strictly ascending order, that hold the same keys
/// are the same sequence.
proof fn lemma_sorted_same_keys_equal(a: Seq<Seq<char>>, b: Seq<Seq<char>>)
    requires
        forall|i: int, k: int| 0 <= i < k < a.len() ==> key_less(#[trigger] a[i], #[trigger] a[k]),
        forall|i: int, k: int| 0 <= i < k < b.len() ==> key_less(#[trigger] b[i], #[trigger] b[k]),
        forall|x: Seq<char>| a.contains(x) <==> b.contains(x),
    ensures
        a == b,
    decreases a.len(),
{
    if a.len() == 0 {
        if b.len() > 0 {
            assert(b.contains(b[0]));
        }
        assert(a =~= b);
    } else {
        assert(a.contains(a[0]));
        assert(b.len() > 0);
        assert(b.contains(b[0]));
        let j = choose|j: int| 0 <= j < b.len() && b[j] == a[0];
        let i = choose|i: int| 0 <= i < a.len() && a[i] == b[0];
        if j > 0 {
            assert(key_less(b[0], b[j]));
            if i > 0 {
                assert(key_less(a[0], a[i]));
                lemma_key_less_asymmetric(a[0], a[i]);
            } else {
                lemma_key_less_irreflexive(a[0]);
            }
        }
        assert(a[0] == b[0]);
        let ra = a.drop_first();
        let rb = b.drop_first();
        assert forall|i: int, k: int| 0 <= i < k < ra.len() implies key_less(#[trigger] ra[i], #[trigger] ra[k]) by {
            assert(ra[i] == a[i + 1] && ra[k] == a[k + 1]);
        }
        assert forall|i: int, k: int| 0 <= i < k < rb.len() implies key_less(#[trigger] rb[i], #[trigger] rb[k]) by {
            assert(rb[i] == b[i + 1] && rb[k] == b[k + 1]);
        }
        assert forall|x: Seq<char>| ra.contains(x) <==> rb.contains(x) by {
            if ra.contains(x) {
                let w = choose|w: int| 0 <= w < ra.len() && ra[w] == x;
                assert(a[w + 1] == x);
                assert(key_less(a[0], a[w + 1]));
                lemma_key_less_irreflexive(x);
                assert(b.contains(x));
                let v = choose|v: int| 0 <= v < b.len() && b[v] == x;
                assert(v != 0);
                assert(rb[v - 1] == x);
            }
            if rb.contains(x) {
                let w = choose|w: int| 0 <= w < rb.len() && rb[w] == x;
                assert(b[w + 1] == x);
                assert(key_less(b[0], b[w + 1]));
                lemma_key_less_irreflexive(x);
                assert(a.contains(x));
                let v = choose|v: int| 0 <= v < a.len() && a[v] == x;
                assert(v != 0);
                assert(ra[v - 1] == x);
            }
        }
        lemma_sorted_same_keys_equal(ra, rb);
        assert forall|i: int| 0 < i < a.len() implies a[i] == b[i] by {
            assert(a[i] == ra[i - 1] && b[i] == rb[i - 1]);
        }
        assert(a =~= b);
    }
}

/// A filter read is determined by the tables and the key: two listings of the
/// documents filed under one key, from the same tables, are the same list.
pub proof fn law_filter_listing_is_unique(
    a: Seq<(Seq<char>, Seq<u8>)>,
    b: Seq<(Seq<char>, Seq<u8>)>,
    docs: Map<Seq<char>, Seq<u8>>,
    index: Set<(Seq<char>, Seq<char>)>,
    key: Seq<char>,
)
    requires
        filter_listing(a, docs, index, key),
        filter_listing(b, docs, index, key),
    ensures
        a == b,
{
    let ia = a.map_values(|r: (Seq<char>, Seq<u8>)| r.0);
    let ib = b.map_values(|r: (Seq<char>, Seq<u8>)| r.0);
    assert forall|i: int, k: int| 0 <= i < k < ia.len() implies key_less(#[trigger] ia[i], #[trigger] ia[k]) by {
        assert(ia[i] == a[i].0 && ia[k] == a[k].0);
    }
    assert forall|i: int, k: int| 0 <= i < k < ib.len() implies key_less(#[trigger] ib[i], #[trigger] ib[k]) by {
        assert(ib[i] == b[i].0 && ib[k] == b[k].0);
    }
    assert forall|x: Seq<char>| ia.contains(x) <==> ib.contains(x) by {
        if ia.contains(x) {
            let w = choose|w: int| 0 <= w < ia.len() && ia[w] == x;
            assert(a[w].0 == x);
            assert(docs.contains_key(a[w].0));
            let v = choose|v: int| 0 <= v < b.len() && #[trigger] b[v].0 == x;
            assert(ib[v] == x);
        }
        if ib.contains(x) {
            let w = choose|w: int| 0 <= w < ib.len() && ib[w] == x;
            assert(b[w].0 == x);
            assert(docs.contains_key(b[w].0));
            let v = choose|v: int| 0 <= v < a.len() && #[trigger] a[v].0 == x;
            assert(ia[v] == x);
        }
    }
    lemma_sorted_same_keys_equal(ia, ib);
    assert(a.len() == ia.len() && b.len() == ib.len());
    assert forall|i: int| 0 <= i < a.len() implies a[i] == b[i] by {
        assert(ia[i] == ib[i]);
        assert(a[i].0 == b[i].0);
        assert(docs.contains_key(a[i].0) && docs[a[i].0] == a[i].1);
        assert(docs.contains_key(b[i].0) && docs[b[i].0] == b[i].1);
    }
    assert(a =~= b);
}

/// The keys of a sequence concatenated with another are those of either.
proof fn lemma_concat_contains(a: Seq<Seq<char>>, b: Seq<Seq<char>>, k: Seq<char>)
    ensures
        (a + b).contains(k) <==> (a.contains(k) || b.contains(k)),
{
    if a.contains(k) {
        let w = choose|w: int| 0 <= w < a.len() && a[w] == k;
        assert((a + b)[w] == k);
    }
    if b.contains(k) {
        let w = choose|w: int| 0 <= w < b.len() && b[w] == k;
        assert((a + b)[a.len() + w] == k);
    }
    if (a + b).contains(k) {
        let w = choose|w: int| 0 <= w < (a + b).len() && (a + b)[w] == k;
        if w < a.len() {
            assert(a[w] == k);
        } else {
            assert(b[w - a.len()] == k);
        }
    }
}

proof fn lemma_array_keys_members(prefix: Seq<char>, items: Seq<Json>, n: int, k: Seq<char>)
    requires
        0 <= n <= items.len(),
    ensures
        array_keys(prefix, items, n).contains(k) <==> exists|i: int|
            0 <= i < n && #[trigger] index_keys(child_path(prefix, decimal(i as nat)), items[i]).contains(k),
    decreases n,
{
    if n > 0 {
        lemma_array_keys_members(prefix, items, n - 1, k);
        let last = index_keys(child_path(prefix, decimal((n - 1) as nat)), items[n - 1]);
        lemma_concat_contains(array_keys(prefix, items, n - 1), last, k);
        if last.contains(k) {
            assert(index_keys(child_path(prefix, decimal((n - 1) as nat)), items[n - 1]).contains(k));
        }
        if exists|i: int|
            0 <= i < n && #[trigger] index_keys(child_path(prefix, decimal(i as nat)), items[i]).contains(k) {
            let i = choose|i: int|
                0 <= i < n && #[trigger] index_keys(child_path(prefix, decimal(i as nat)), items[i]).contains(k);
            if i < n - 1 {
                assert(exists|j: int|
                    0 <= j < n - 1 && #[trigger] index_keys(child_path(prefix, decimal(j as nat)), items[j]).contains(k));
            }
        }
    } else {
        assert(array_keys(prefix, items, n) =~= Seq::<Seq<char>>::empty());
    }
}

/// The index keys of an array are exactly those of its items, item `i` found at the
/// array's path extended by the whole decimal text of `i` (so item 10 of `tags` is
/// under `tags.10`, never `tags.0` or `tags.1`).
pub proof fn law_array_item_keys(prefix: Seq<char>, items: Seq<Json>, k: Seq<char>)
    ensures
        index_keys(prefix, Json::Array(items)).contains(k) <==> exists|i: int|
            0 <= i < items.len() && #[trigger] index_keys(child_path(prefix, decimal(i as nat)), items[i]).contains(k),
{
    lemma_array_keys_members(prefix, items, items.len() as int, k);
}

proof fn lemma_object_keys_members(prefix: Seq<char>, entries: Seq<(Seq<char>, Json)>, n: int, k: Seq<char>)
    requires
        0 <= n <= entries.len(),
    ensures
        object_keys(prefix, entries, n).contains(k) <==> exists|i: int|
            0 <= i < n && member_kept(entries, i) && #[trigger] index_keys(
                child_path(prefix, entries[i].0),
                entries[i].1,
            ).contains(k),
    decreases n,
{
    if n > 0 {
        lemma_object_keys_members(prefix, entries, n - 1, k);
        let last = index_keys(child_path(prefix, entries[n - 1].0), entries[n - 1].1);
        if member_kept(entries, n - 1) {
            lemma_concat_contains(object_keys(prefix, entries, n - 1), last, k);
        }
        if exists|i: int|
            0 <= i < n && member_kept(entries, i) && #[trigger] index_keys(
                child_path(prefix, entries[i].0),
                entries[i].1,
            ).contains(k) {
            let i = choose|i: int|
                0 <= i < n && member_kept(entries, i) && #[trigger] index_keys(
                    child_path(prefix, entries[i].0),
                    entries[i].1,
                ).contains(k);
            if i < n - 1 {
                assert(exists|j: int|
                    0 <= j < n - 1 && member_kept(entries, j) && #[trigger] index_keys(
                        child_path(prefix, entries[j].0),
                        entries[j].1,
                    ).contains(k));
            }
        }
    } else {
        assert(object_keys(prefix, entries, n) =~= Seq::<Seq<char>>::empty());
    }
}

/// The index keys of an object are exactly those of its kept members, each found
/// at the object's path extended by the member's key.
pub proof fn law_object_member_keys(prefix: Seq<char>, entries: Seq<(Seq<char>, Json)>, k: Seq<char>)
    ensures
        index_keys(prefix, Json::Object(entries)).contains(k) <==> exists|i: int|
            0 <= i < entries.len() && member_kept(entries, i) && #[trigger] index_keys(
                child_path(prefix, entries[i].0),
                entries[i].1,
            ).contains(k),
{
    lemma_object_keys_members(prefix, entries, entries.len() as int, k);
}

/// A string at path `p` is filed under exactly one key: `p`, a dot, the string.
pub proof fn law_string_key(p: Seq<char>, text: Seq<char>)
    ensures
        index_keys(p, Json::Str(text)) == seq![dotted(p, text)],
{
}

/// Positions from ten on are written with all their digits: `decimal(10)` is
/// "10", and a position's text has one digit only below ten.
pub proof fn law_decimal_has_every_digit(n: nat)
    ensures
        decimal(10) == seq!['1', '0'],
        n >= 10 ==> decimal(n).len() >= 2,
        n < 10 ==> decimal(n).len() == 1,
{
    reveal_with_fuel(decimal, 2);
    if n >= 10 {
        assert(decimal(n) == decimal(n / 10).push(crate::text::digit_char(n % 10)));
    }
}

/// A prefix scan is determined by the snapshot and the prefix: two listings of the
/// ids of one snapshot that begin with one prefix are the same list, each id with
/// its own payload.
pub proof fn law_scan_prefix_is_determined(
    a: Seq<(Seq<char>, Seq<u8>)>,
    b: Seq<(Seq<char>, Seq<u8>)>,
    m: Map<Seq<char>, Seq<u8>>,
    prefix: Seq<char>,
)
    requires
        prefix_listing(a, m, prefix),
        prefix_listing(b, m, prefix),
    ensures
        a == b,
        forall|i: int| 0 <= i < a.len() ==> #[trigger] a[i].1 == m[a[i].0],
{
    let ia = a.map_values(|r: (Seq<char>, Seq<u8>)| r.0);
    let ib = b.map_values(|r: (Seq<char>, Seq<u8>)| r.0);
    assert forall|i: int, k: int| 0 <= i < k < ia.len() implies key_less(#[trigger] ia[i], #[trigger] ia[k]) by {
        assert(ia[i] == a[i].0 && ia[k] == a[k].0);
    }
    assert forall|i: int, k: int| 0 <= i < k < ib.len() implies key_less(#[trigger] ib[i], #[trigger] ib[k]) by {
        assert(ib[i] == b[i].0 && ib[k] == b[k].0);
    }
    assert forall|x: Seq<char>| ia.contains(x) <==> ib.contains(x) by {
        if ia.contains(x) {
            let w = choose|w: int| 0 <= w < ia.len() && ia[w] == x;
            assert(a[w].0 == x);
            assert(m.contains_key(a[w].0));
            let v = choose|v: int| 0 <= v < b.len() && #[trigger] b[v].0 == x;
            assert(ib[v] == x);
        }
        if ib.contains(x) {
            let w = choose|w: int| 0 <= w < ib.len() && ib[w] == x;
            assert(b[w].0 == x);
            assert(m.contains_key(b[w].0));
            let v = choose|v: int| 0 <= v < a.len() && #[trigger] a[v].0 == x;
            assert(ia[v] == x);
        }
    }
    lemma_sorted_same_keys_equal(ia, ib);
    assert(a.len() == ia.len() && b.len() == ib.len());
    assert forall|i: int| 0 <= i < a.len() implies a[i] == b[i] by {
        assert(ia[i] == ib[i]);
        assert(m.contains_key(a[i].0) && m[a[i].0] == a[i].1);
        assert(m.contains_key(b[i].0) && m[b[i].0] == b[i].1);
    }
    assert(a =~= b);
}

/// A read of `id` and a scan for the prefix `id` in one snapshot agree: a document
/// is stored under `id` exactly where the scan's first row is `id` itself, with the
/// same payload; a longer id that merely begins with `id` is never what `id` reads.
pub proof fn law_get_is_first_row_of_its_scan(
    rows: Seq<(Seq<char>, Seq<u8>)>,
    m: Map<Seq<char>, Seq<u8>>,
    id: Seq<char>,
    found: Option<Seq<u8>>,
)
    requires
        prefix_listing(rows, m, id),
        read_answer(m, id, found),
    ensures
        m.contains_key(id) <==> (rows.len() > 0 && rows[0].0 == id),
        m.contains_key(id) ==> stored_answer(m, id) == Some(rows[0].1),
        found matches Some(bytes) ==> rows.len() > 0 && rows[0] == (id, bytes),
{
    if m.contains_key(id) {
        assert(id.is_prefix_of(id));
        let w = choose|w: int| 0 <= w < rows.len() && #[trigger] rows[w].0 == id;
        if w > 0 {
            assert(key_less(rows[0].0, rows[w].0));
            assert(id.is_prefix_of(rows[0].0));
            assert(rows[0].0 != id) by {
                if rows[0].0 == id {
                    lemma_key_less_irreflexive(id);
                }
            }
            assert(id == rows[0].0.take(id.len() as int));
            assert(id.len() < rows[0].0.len()) by {
                if id.len() == rows[0].0.len() {
                    assert(rows[0].0 =~= id);
                }
            }
            assert(key_less(id, rows[0].0));
            lemma_key_less_asymmetric(id, rows[0].0);
        }
        assert(m[rows[0].0] == rows[0].1);
    }
    if rows.len() > 0 && rows[0].0 == id {
        assert(m.contains_key(rows[0].0));
    }
}

/// A many-id read answers every position as a read of that one id does: where a
/// read of `ids[i]` in the same snapshot gives a payload, row `i` carries that
/// payload; positions asking for the same id get the same answer; and two such
/// reads, joined, answer the joined ids.
pub proof fn law_get_many_is_get_each(
    rows: Seq<(Seq<char>, Option<Seq<u8>>)>,
    ids: Seq<Seq<char>>,
    m: Map<Seq<char>, Seq<u8>>,
    more_rows: Seq<(Seq<char>, Option<Seq<u8>>)>,
    more_ids: Seq<Seq<char>>,
)
    requires
        answers_for(rows, ids, m),
        answers_for(more_rows, more_ids, m),
    ensures
        forall|i: int, found: Option<Seq<u8>>|
            0 <= i < ids.len() && #[trigger] read_answer(m, ids[i], found) && found is Some ==> rows[i].1
                == found,
        forall|i: int| 0 <= i < ids.len() ==> (#[trigger] rows[i].1 is Some <==> m.contains_key(ids[i])),
        forall|i: int, j: int|
            0 <= i < ids.len() && 0 <= j < ids.len() && ids[i] == ids[j] ==> #[trigger] rows[i]
                == #[trigger] rows[j],
        answers_for(rows + more_rows, ids + more_ids, m),
{
    assert forall|i: int, found: Option<Seq<u8>>|
        0 <= i < ids.len() && #[trigger] read_answer(m, ids[i], found) && found is Some implies rows[i].1
            == found by {
        assert(rows[i] == (ids[i], stored_answer(m, ids[i])));
    }
    assert forall|i: int| 0 <= i < ids.len() implies (#[trigger] rows[i].1 is Some <==> m.contains_key(ids[i])) by {
        assert(rows[i] == (ids[i], stored_answer(m, ids[i])));
    }
    assert forall|i: int, j: int|
        0 <= i < ids.len() && 0 <= j < ids.len() && ids[i] == ids[j] implies #[trigger] rows[i]
            == #[trigger] rows[j] by {
        assert(rows[i] == (ids[i], stored_answer(m, ids[i])));
        assert(rows[j] == (ids[j], stored_answer(m, ids[j])));
    }
    let r = rows + more_rows;
    let d = ids + more_ids;
    assert forall|i: int| 0 <= i < r.len() implies #[trigger] r[i] == (d[i], stored_answer(m, d[i])) by {
        if i < rows.len() {
            assert(r[i] == rows[i] && d[i] == ids[i]);
        } else {
            assert(r[i] == more_rows[i - rows.len()] && d[i] == more_ids[i - ids.len()]);
            assert(more_rows[i - rows.len()] == (more_ids[i - rows.len()], stored_answer(
                m,
                more_ids[i - rows.len()],
            )));
        }
    }
}

/// Applying a queue in two batches does what applying it at once does.
pub proof fn law_batches_compose(s: StoreView, first: Seq<WriteOpView>, second: Seq<WriteOpView>)
    ensures
        apply_ops(s, first + second) == apply_ops(apply_ops(s, first), second),
    decreases second.len(),
{
    if second.len() == 0 {
        assert(first + second =~= first);
    } else {
        law_batches_compose(s, first, second.drop_last());
        assert((first + second).drop_last() =~= first + second.drop_last());
        assert((first + second).last() == second.last());
    }
}

} // verus!
