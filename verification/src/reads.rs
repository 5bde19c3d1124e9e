//! Reading documents in one read transaction: by id, by a list of ids, by id
//! prefix, and by an index key.
use vstd::prelude::*;
use crate::errors::EngineError;
use crate::store::{
    doc_range_next, doc_range_remaining, id_values_next, id_values_remaining, ids_under,
    key_at_least, key_less, ordered_listing, read_doc_contents, read_doc_get, read_doc_range_from,
    read_index_contents, read_index_get, ReadDocTable, ReadIndexTable,
};
use crate::text::{dotted, dotted_string};

verus! {

/// The entries of `m` whose key begins with `prefix`, each once, in key order, as
/// `rows` lists them.
pub open spec fn prefix_listing(
    rows: Seq<(Seq<char>, Seq<u8>)>,
    m: Map<Seq<char>, Seq<u8>>,
    prefix: Seq<char>,
) -> bool {
    &&& forall|i: int, k: int|
        0 <= i < k < rows.len() ==> key_less(#[trigger] rows[i].0, #[trigger] rows[k].0)
    &&& forall|i: int|
        0 <= i < rows.len() ==> {
            &&& m.contains_key(#[trigger] rows[i].0)
            &&& m[rows[i].0] == rows[i].1
            &&& prefix.is_prefix_of(rows[i].0)
        }
    &&& forall|k: Seq<char>|
        #[trigger] m.contains_key(k) && prefix.is_prefix_of(k) ==> exists|i: int|
            0 <= i < rows.len() && #[trigger] rows[i].0 == k
}

/// `rows` are the entries of some read snapshot whose key begins with `prefix`,
/// each once, in key order, each with the payload the snapshot stores under it.
pub open spec fn snapshot_prefix_listing(rows: Seq<(Seq<char>, Seq<u8>)>, prefix: Seq<char>) -> bool {
    exists|t: ReadDocTable| #[trigger] prefix_listing(rows, read_doc_contents(t), prefix)
}

/// What `m` stores under `id`, if anything.
pub open spec fn stored_answer(m: Map<Seq<char>, Seq<u8>>, id: Seq<char>) -> Option<Seq<u8>> {
    if m.contains_key(id) {
        Some(m[id])
    } else {
        None
    }
}

/// What a read of `id` that may fail gives from a snapshot holding `m`: where it
/// gives a payload, that is the payload stored under `id`; where nothing is stored
/// under `id`, it gives nothing.
pub open spec fn read_answer(m: Map<Seq<char>, Seq<u8>>, id: Seq<char>, found: Option<Seq<u8>>) -> bool {
    &&& found is Some ==> found == stored_answer(m, id)
    &&& !m.contains_key(id) ==> found is None
}

/// `found` is what a read of `id` that may fail gives from some read snapshot.
pub open spec fn snapshot_read(id: Seq<char>, found: Option<Seq<u8>>) -> bool {
    exists|t: ReadDocTable| #[trigger] read_answer(read_doc_contents(t), id, found)
}

/// `found` is exactly what some read snapshot stores under `id`.
pub open spec fn snapshot_exact_read(id: Seq<char>, found: Option<Seq<u8>>) -> bool {
    exists|t: ReadDocTable| #[trigger] stored_answer(read_doc_contents(t), id) == found
}

/// A payload, if any, as plain bytes.
pub open spec fn answer_view(found: Option<Vec<u8>>) -> Option<Seq<u8>> {
    match found {
        Some(bytes) => Some(bytes@),
        None => None,
    }
}

/// The (id, payload if any) rows as plain values.
pub open spec fn answers_view(rows: Seq<(String, Option<Vec<u8>>)>) -> Seq<(Seq<char>, Option<Seq<u8>>)> {
    rows.map_values(|r: (String, Option<Vec<u8>>)| (r.0@, answer_view(r.1)))
}

/// The texts of the ids.
pub open spec fn ids_view(ids: Seq<String>) -> Seq<Seq<char>> {
    ids.map_values(|s: String| s@)
}

/// `rows` answer `ids` one by one, in order, from a snapshot holding `m`: row `i`
/// is `ids[i]` with what `m` stores under it.
pub open spec fn answers_for(
    rows: Seq<(Seq<char>, Option<Seq<u8>>)>,
    ids: Seq<Seq<char>>,
    m: Map<Seq<char>, Seq<u8>>,
) -> bool {
    &&& rows.len() == ids.len()
    &&& forall|i: int|
        0 <= i < rows.len() ==> #[trigger] rows[i] == (ids[i], stored_answer(m, ids[i]))
}

/// `rows` answer `ids` one by one from some read snapshot.
pub open spec fn snapshot_answers(rows: Seq<(Seq<char>, Option<Seq<u8>>)>, ids: Seq<Seq<char>>) -> bool {
    exists|t: ReadDocTable| #[trigger] answers_for(rows, ids, read_doc_contents(t))
}

/// `rows` are the documents that some read snapshot's index files under `key`,
/// each once, in ascending id order, with their payloads in that snapshot.
pub open spec fn snapshot_filter_listing(rows: Seq<(Seq<char>, Seq<u8>)>, key: Seq<char>) -> bool {
    exists|t: ReadDocTable, x: ReadIndexTable|
        #[trigger] filter_listing(rows, read_doc_contents(t), read_index_contents(x), key)
}

/// Turns the rows that `lookup_many` gives from `docs` into their plain answers.
pub proof fn lemma_lookup_rows_answer(
    docs: ReadDocTable,
    ids: Seq<String>,
    rows: Seq<(String, Option<Vec<u8>>)>,
)
    requires
        rows.len() == ids.len(),
        forall|i: int|
            0 <= i < rows.len() ==> {
                &&& (#[trigger] rows[i]).0@ == ids[i]@
                &&& match rows[i].1 {
                    Some(bytes) => read_doc_contents(docs).contains_key(ids[i]@) && bytes@
                        == read_doc_contents(docs)[ids[i]@],
                    None => !read_doc_contents(docs).contains_key(ids[i]@),
                }
            },
    ensures
        answers_for(answers_view(rows), ids_view(ids), read_doc_contents(docs)),
        snapshot_answers(answers_view(rows), ids_view(ids)),
{
    let m = read_doc_contents(docs);
    let a = answers_view(rows);
    let v = ids_view(ids);
    assert forall|i: int| 0 <= i < a.len() implies #[trigger] a[i] == (v[i], stored_answer(m, v[i])) by {
        assert(rows[i].0@ == ids[i]@);
        match rows[i].1 {
            Some(bytes) => {},
            None => {},
        }
    }
    assert(answers_for(a, v, m));
}

/// The (id, payload) pairs as plain values.
pub open spec fn rows_view(rows: Seq<(String, Vec<u8>)>) -> Seq<(Seq<char>, Seq<u8>)> {
    rows.map_values(|r: (String, Vec<u8>)| (r.0@, r.1@))
}

/// `rows` are the documents of `docs` that `index` files under `key`, each once, in
/// ascending id order.
pub open spec fn filter_listing(
    rows: Seq<(Seq<char>, Seq<u8>)>,
    docs: Map<Seq<char>, Seq<u8>>,
    index: Set<(Seq<char>, Seq<char>)>,
    key: Seq<char>,
) -> bool {
    &&& forall|i: int, k: int| 0 <= i < k < rows.len() ==> #[trigger] rows[i].0 != #[trigger] rows[k].0
    &&& forall|i: int, k: int|
        0 <= i < k < rows.len() ==> key_less(#[trigger] rows[i].0, #[trigger] rows[k].0)
    &&& forall|i: int|
        0 <= i < rows.len() ==> {
            &&& docs.contains_key(#[trigger] rows[i].0)
            &&& docs[rows[i].0] == rows[i].1
            &&& index.contains((key, rows[i].0))
        }
    &&& forall|id: Seq<char>|
        #[trigger] docs.contains_key(id) && index.contains((key, id)) ==> exists|i: int|
            0 <= i < rows.len() && #[trigger] rows[i].0 == id
}

/// A key that begins with `p` is at least `p`.
pub proof fn lemma_prefix_is_at_least(p: Seq<char>, k: Seq<char>)
    requires
        p.is_prefix_of(k),
    ensures
        key_at_least(k, p),
{
    if p.len() < k.len() {
        assert(p == k.take(p.len() as int));
    } else {
        assert(p =~= k);
    }
}

/// Past the keys that begin with `p`: a key at least `p` that does not begin with it
/// is followed only by keys that do not either.
pub proof fn lemma_past_prefix(p: Seq<char>, a: Seq<char>, b: Seq<char>)
    requires
        key_at_least(a, p),
        !p.is_prefix_of(a),
        key_less(a, b),
    ensures
        !p.is_prefix_of(b),
{
    if a == p {
        assert(p.is_prefix_of(a));
    }
    if p.len() < a.len() && p == a.take(p.len() as int) {
        assert(p.is_prefix_of(a));
    }
    let i = choose|i: int|
        0 <= i < p.len() && i < a.len() && p.take(i) == a.take(i) && (p[i] as u32) < (a[i] as u32);
    if p.is_prefix_of(b) {
        assert(b[i] == p[i]);
        if a.len() < b.len() && a == b.take(a.len() as int) {
            assert(b[i] == a[i]);
        } else {
            let m = choose|m: int|
                0 <= m < a.len() && m < b.len() && a.take(m) == b.take(m) && (a[m] as u32) < (
                b[m] as u32);
            if m > i {
                assert(a[i] == a.take(m)[i]);
                assert(b[i] == b.take(m)[i]);
            } else if m < i {
                assert(a[m] == a.take(i)[m]);
                assert(p[m] == p.take(i)[m]);
                assert(b[m] == p[m]);
            }
        }
    }
}

/// Whether `prefix` begins `s`, compared character by character.
fn str_starts_with(s: &str, prefix: &str) -> (r: bool)
    ensures
        r == prefix@.is_prefix_of(s@),
{
    let n = prefix.unicode_len();
    if s.unicode_len() < n {
        return false;
    }
    let mut i: usize = 0;
    while i < n
        invariant
            n == prefix@.len(),
            n <= s@.len(),
            0 <= i <= n,
            forall|j: int| 0 <= j < i ==> prefix@[j] == s@[j],
        decreases n - i,
    {
        if prefix.get_char(i) != s.get_char(i) {
            return false;
        }
        i = i + 1;
    }
    assert(prefix@ =~= s@.take(n as int));
    true
}

/// The payload stored under `id`; a failed read is taken as no document.
pub fn lookup_or_none(docs: &ReadDocTable, id: &str) -> (found: Option<Vec<u8>>)
    ensures
        match found {
            Some(bytes) => read_doc_contents(*docs).contains_key(id@) && bytes@ == read_doc_contents(
                *docs,
            )[id@],
            None => true,
        },
        !read_doc_contents(*docs).contains_key(id@) ==> found is None,
{
    match read_doc_get(docs, id) {
        Ok(found) => found,
        Err(_) => None,
    }
}

/// The payload stored under `id`, if any.
pub fn lookup(docs: &ReadDocTable, id: &str) -> (r: Result<Option<Vec<u8>>, EngineError>)
    ensures
        r matches Err(e) ==> e is Storage,
        r matches Ok(found) ==> match found {
            Some(bytes) => read_doc_contents(*docs).contains_key(id@) && bytes@ == read_doc_contents(
                *docs,
            )[id@],
            None => !read_doc_contents(*docs).contains_key(id@),
        },
{
    match read_doc_get(docs, id) {
        Ok(found) => Ok(found),
        Err(e) => Err(EngineError::Storage(e.to_string())),
    }
}

/// For each id, in order, the id and its payload if any; the first failed read
/// fails the whole call.
pub fn lookup_many(docs: &ReadDocTable, ids: Vec<String>) -> (r: Result<Vec<(String, Option<Vec<u8>>)>, EngineError>)
    ensures
        r matches Err(e) ==> e is Storage,
        r matches Ok(rows) ==> {
            &&& rows.len() == ids.len()
            &&& forall|i: int|
                0 <= i < rows.len() ==> {
                    &&& (#[trigger] rows@[i]).0@ == ids@[i]@
                    &&& match rows@[i].1 {
                        Some(bytes) => read_doc_contents(*docs).contains_key(ids@[i]@) && bytes@
                            == read_doc_contents(*docs)[ids@[i]@],
                        None => !read_doc_contents(*docs).contains_key(ids@[i]@),
                    }
                }
        },
{
    let mut rows: Vec<(String, Option<Vec<u8>>)> = Vec::with_capacity(ids.len());
    let mut i: usize = 0;
    while i < ids.len()
        invariant
            i <= ids.len(),
            rows.len() == i,
            forall|k: int|
                0 <= k < i ==> {
                    &&& (#[trigger] rows@[k]).0@ == ids@[k]@
                    &&& match rows@[k].1 {
                        Some(bytes) => read_doc_contents(*docs).contains_key(ids@[k]@) && bytes@
                            == read_doc_contents(*docs)[ids@[k]@],
                        None => !read_doc_contents(*docs).contains_key(ids@[k]@),
                    }
                },
        decreases ids.len() - i,
    {
        let id = ids[i].clone();
        match lookup(docs, id.as_str()) {
            Ok(found) => {
                rows.push((id, found));
            },
            Err(e) => {
                return Err(e);
            },
        }
        i = i + 1;
    }
    Ok(rows)
}

/// The documents whose id begins with `prefix`, in id order: read from the first id
/// at least `prefix`, up to the first id that does not begin with it.
pub fn scan_prefix_in(docs: &ReadDocTable, prefix: &str) -> (r: Result<Vec<(String, Vec<u8>)>, EngineError>)
    ensures
        r matches Err(e) ==> e is Storage,
        r matches Ok(rows) ==> prefix_listing(rows_view(rows@), read_doc_contents(*docs), prefix@),
{
    let ghost m = read_doc_contents(*docs);
    let mut range = match read_doc_range_from(docs, prefix) {
        Ok(range) => range,
        Err(e) => {
            return Err(EngineError::Storage(e.to_string()));
        },
    };
    let ghost all = doc_range_remaining(range);
    let mut rows: Vec<(String, Vec<u8>)> = Vec::new();
    let mut done = false;
    while !done
        invariant
            ordered_listing(all, m, prefix@),
            m == read_doc_contents(*docs),
            rows.len() <= all.len(),
            !done ==> doc_range_remaining(range) == all.skip(rows.len() as int),
            rows_view(rows@) == all.take(rows.len() as int),
            forall|i: int| 0 <= i < rows.len() ==> #[trigger] prefix@.is_prefix_of(all[i].0),
            done ==> (rows.len() == all.len() || !prefix@.is_prefix_of(all[rows.len() as int].0)),
        decreases all.len() - rows.len(), if done { 0int } else { 1int },
    {
        let ghost before = rows@;
        match doc_range_next(&mut range) {
            None => {
                done = true;
            },
            Some(Ok((key, value))) => {
                if str_starts_with(key.as_str(), prefix) {
                    rows.push((key, value));
                    proof {
                        assert(all.skip(before.len() as int)[0] == all[before.len() as int]);
                        assert(doc_range_remaining(range) =~= all.skip(rows.len() as int));
                        assert(rows_view(rows@) =~= all.take(rows.len() as int));
                    }
                } else {
                    assert(all.skip(rows.len() as int)[0] == all[rows.len() as int]);
                    done = true;
                }
            },
            Some(Err(e)) => {
                return Err(EngineError::Storage(e.to_string()));
            },
        }
    }
    proof {
        let listed = rows_view(rows@);
        let n = rows.len() as int;
        assert forall|i: int, k: int| 0 <= i < k < listed.len() implies key_less(#[trigger] listed[i].0, #[trigger] listed[k].0) by {
            assert(listed[i] == all[i] && listed[k] == all[k]);
        }
        assert forall|i: int| 0 <= i < listed.len() implies {
            &&& m.contains_key(#[trigger] listed[i].0)
            &&& m[listed[i].0] == listed[i].1
            &&& prefix@.is_prefix_of(listed[i].0)
        } by {
            assert(listed[i] == all[i]);
        }
        assert forall|k: Seq<char>| #[trigger] m.contains_key(k) && prefix@.is_prefix_of(k) implies exists|i: int|
            0 <= i < listed.len() && #[trigger] listed[i].0 == k by {
            lemma_prefix_is_at_least(prefix@, k);
            let w = choose|w: int| 0 <= w < all.len() && #[trigger] all[w].0 == k;
            if w >= n {
                assert(n < all.len());
                if w > n {
                    assert(key_less(all[n].0, all[w].0));
                    lemma_past_prefix(prefix@, all[n].0, all[w].0);
                }
            }
            assert(listed[w] == all[w]);
        }
    }
    Ok(rows)
}

/// The ids of `ids` that `m` holds, in order.
pub open spec fn present_ids(ids: Seq<Seq<char>>, m: Map<Seq<char>, Seq<u8>>) -> Seq<Seq<char>>
    decreases ids.len(),
{
    if ids.len() == 0 {
        Seq::empty()
    } else if m.contains_key(ids.last()) {
        present_ids(ids.drop_last(), m).push(ids.last())
    } else {
        present_ids(ids.drop_last(), m)
    }
}

/// `present_ids` keeps exactly the held ids, and keeps them distinct.
proof fn lemma_present_ids(ids: Seq<Seq<char>>, m: Map<Seq<char>, Seq<u8>>)
    requires
        ids.no_duplicates(),
    ensures
        present_ids(ids, m).no_duplicates(),
        forall|x: Seq<char>| #[trigger] present_ids(ids, m).contains(x) <==> (ids.contains(x) && m.contains_key(x)),
    decreases ids.len(),
{
    if ids.len() > 0 {
        let rest = ids.drop_last();
        assert(rest.no_duplicates()) by {
            assert forall|a: int, b: int| 0 <= a < b < rest.len() implies rest[a] != rest[b] by {
                assert(rest[a] == ids[a] && rest[b] == ids[b]);
            }
        }
        lemma_present_ids(rest, m);
        let r = present_ids(rest, m);
        assert forall|x: Seq<char>| ids.contains(x) <==> (rest.contains(x) || x == ids.last()) by {
            if ids.contains(x) {
                let w = choose|w: int| 0 <= w < ids.len() && ids[w] == x;
                if w < ids.len() - 1 {
                    assert(rest[w] == x);
                }
            }
            if rest.contains(x) {
                let w = choose|w: int| 0 <= w < rest.len() && rest[w] == x;
                assert(ids[w] == x);
            }
            if x == ids.last() {
                assert(ids[ids.len() - 1] == x);
            }
        }
        if m.contains_key(ids.last()) {
            let p = r.push(ids.last());
            assert(!rest.contains(ids.last())) by {
                if rest.contains(ids.last()) {
                    let w = choose|w: int| 0 <= w < rest.len() && rest[w] == ids.last();
                    assert(ids[w] == ids[ids.len() - 1]);
                }
            }
            assert forall|a: int, b: int| 0 <= a < b < p.len() implies p[a] != p[b] by {
                if b == p.len() - 1 {
                    assert(r.contains(p[a]));
                }
            }
            assert forall|x: Seq<char>| #[trigger] p.contains(x) <==> (r.contains(x) || x == ids.last()) by {
                if p.contains(x) {
                    let w = choose|w: int| 0 <= w < p.len() && p[w] == x;
                    if w < r.len() {
                        assert(r[w] == x);
                    }
                }
                if r.contains(x) {
                    let w = choose|w: int| 0 <= w < r.len() && r[w] == x;
                    assert(p[w] == x);
                }
                if x == ids.last() {
                    assert(p[p.len() - 1] == x);
                }
            }
        }
    }
}

/// `present_ids` keeps only ids it was given, in their order: from ids in
/// ascending order it gives ids in ascending order.
proof fn lemma_present_ids_sorted(ids: Seq<Seq<char>>, m: Map<Seq<char>, Seq<u8>>)
    requires
        forall|i: int, k: int| 0 <= i < k < ids.len() ==> key_less(#[trigger] ids[i], #[trigger] ids[k]),
    ensures
        forall|j: int| 0 <= j < present_ids(ids, m).len() ==> exists|w: int|
            0 <= w < ids.len() && ids[w] == #[trigger] present_ids(ids, m)[j],
        forall|i: int, k: int|
            0 <= i < k < present_ids(ids, m).len() ==> key_less(
                #[trigger] present_ids(ids, m)[i],
                #[trigger] present_ids(ids, m)[k],
            ),
    decreases ids.len(),
{
    if ids.len() > 0 {
        let rest = ids.drop_last();
        assert forall|i: int, k: int| 0 <= i < k < rest.len() implies key_less(#[trigger] rest[i], #[trigger] rest[k]) by {
            assert(rest[i] == ids[i] && rest[k] == ids[k]);
        }
        lemma_present_ids_sorted(rest, m);
        let r = present_ids(rest, m);
        let p = present_ids(ids, m);
        assert forall|j: int| 0 <= j < r.len() implies exists|w: int| 0 <= w < ids.len() - 1 && ids[w] == #[trigger] r[j] by {
            let w = choose|w: int| 0 <= w < rest.len() && rest[w] == r[j];
            assert(ids[w] == rest[w]);
        }
        if m.contains_key(ids.last()) {
            assert(p == r.push(ids.last()));
            assert forall|j: int| 0 <= j < p.len() implies exists|w: int| 0 <= w < ids.len() && ids[w] == #[trigger] p[j] by {
                if j == r.len() {
                    assert(ids[ids.len() - 1] == p[j]);
                } else {
                    assert(p[j] == r[j]);
                    let w = choose|w: int| 0 <= w < ids.len() - 1 && ids[w] == r[j];
                }
            }
            assert forall|i: int, k: int| 0 <= i < k < p.len() implies key_less(#[trigger] p[i], #[trigger] p[k]) by {
                assert(p[i] == r[i]);
                if k == r.len() {
                    let w = choose|w: int| 0 <= w < ids.len() - 1 && ids[w] == r[i];
                    assert(key_less(ids[w], ids[ids.len() - 1]));
                } else {
                    assert(p[k] == r[k]);
                }
            }
        } else {
            assert(p == r);
        }
    }
}

/// The ids of rows.
pub open spec fn row_ids(rows: Seq<(String, Vec<u8>)>) -> Seq<Seq<char>> {
    rows.map_values(|r: (String, Vec<u8>)| r.0@)
}

/// The documents filed in the index under `key`, a dot, and `value`, each once;
/// ids that the index holds but the document table does not are passed over.
pub fn filter_in(
    docs: &ReadDocTable,
    index: &ReadIndexTable,
    key: &str,
    value: &str,
) -> (r: Result<Vec<(String, Vec<u8>)>, EngineError>)
    ensures
        r matches Err(e) ==> e is Storage,
        r matches Ok(rows) ==> filter_listing(
            rows_view(rows@),
            read_doc_contents(*docs),
            read_index_contents(*index),
            dotted(key@, value@),
        ),
{
    let search = dotted_string(key, value);
    let ghost m = read_doc_contents(*docs);
    let ghost ix = read_index_contents(*index);
    let mut ids = match read_index_get(index, search.as_str()) {
        Ok(ids) => ids,
        Err(e) => {
            return Err(EngineError::Storage(e.to_string()));
        },
    };
    let ghost all = id_values_remaining(ids);
    let mut rows: Vec<(String, Vec<u8>)> = Vec::new();
    let ghost mut seen: int = 0;
    let mut done = false;
    while !done
        invariant
            all.no_duplicates(),
            all.to_set() == ids_under(ix, search@),
            forall|i: int, k: int| 0 <= i < k < all.len() ==> key_less(#[trigger] all[i], #[trigger] all[k]),
            m == read_doc_contents(*docs),
            0 <= seen <= all.len(),
            !done ==> id_values_remaining(ids) == all.skip(seen),
            done ==> seen == all.len(),
            row_ids(rows@) == present_ids(all.take(seen), m),
            forall|i: int|
                0 <= i < rows.len() ==> m.contains_key((#[trigger] rows@[i]).0@) && m[rows@[i].0@]
                    == rows@[i].1@,
        decreases all.len() - seen, if done { 0int } else { 1int },
    {
        match id_values_next(&mut ids) {
            None => {
                done = true;
            },
            Some(Ok(id)) => {
                assert(all.skip(seen)[0] == all[seen]);
                let ghost before = rows@;
                let ghost id_text = id@;
                let ghost next_take = all.take(seen + 1);
                assert(next_take.drop_last() =~= all.take(seen));
                assert(next_take.last() == id_text);
                match read_doc_get(docs, id.as_str()) {
                    Ok(Some(bytes)) => {
                        rows.push((id, bytes));
                        assert(row_ids(rows@) =~= row_ids(before).push(id_text));
                    },
                    Ok(None) => {},
                    Err(e) => {
                        return Err(EngineError::Storage(e.to_string()));
                    },
                }
                proof {
                    seen = seen + 1;
                }
                assert(id_values_remaining(ids) =~= all.skip(seen));
            },
            Some(Err(e)) => {
                return Err(EngineError::Storage(e.to_string()));
            },
        }
    }
    proof {
        let listed = rows_view(rows@);
        assert(all.take(seen) =~= all);
        lemma_present_ids(all, m);
        let got = row_ids(rows@);
        lemma_present_ids_sorted(all, m);
        assert forall|i: int, k: int| 0 <= i < k < listed.len() implies #[trigger] listed[i].0 != #[trigger] listed[k].0 by {
            assert(listed[i].0 == got[i] && listed[k].0 == got[k]);
        }
        assert forall|i: int, k: int| 0 <= i < k < listed.len() implies key_less(#[trigger] listed[i].0, #[trigger] listed[k].0) by {
            assert(listed[i].0 == got[i] && listed[k].0 == got[k]);
        }
        assert forall|i: int| 0 <= i < listed.len() implies {
            &&& m.contains_key(#[trigger] listed[i].0)
            &&& m[listed[i].0] == listed[i].1
            &&& ix.contains((search@, listed[i].0))
        } by {
            assert(listed[i].0 == got[i]);
            assert(got.contains(got[i]));
            assert(all.to_set().contains(got[i]));
        }
        assert forall|id: Seq<char>| #[trigger] m.contains_key(id) && ix.contains((search@, id)) implies exists|i: int|
            0 <= i < listed.len() && #[trigger] listed[i].0 == id by {
            assert(ids_under(ix, search@).contains(id));
            assert(all.to_set().contains(id));
            assert(got.contains(id));
            let i = choose|i: int| 0 <= i < got.len() && got[i] == id;
            assert(listed[i].0 == got[i]);
        }
    }
    Ok(rows)
}

} // verus!
