//! The redb side of the engine: the database, its transactions, the document table
//! (id to payload bytes) and the metadata index (a multimap from index key to ids).
//!
//! A table is a collection of redb's; what it holds is named here, and each call
//! that the engine makes on it is stated over that name. What a table holds when it
//! is opened, and how a commit carries a transaction's tables into later
//! transactions, depend on the database and are not stated here.
use vstd::prelude::*;
use redb::{ReadableDatabase, TableDefinition, MultimapTableDefinition};

verus! {

/// The redb database, carried opaque.
#[verifier::external_type_specification]
#[verifier::external_body]
pub struct ExDatabase(redb::Database);

/// A redb write transaction, carried opaque.
#[verifier::external_type_specification]
#[verifier::external_body]
pub struct ExWriteTransaction(redb::WriteTransaction);

/// A redb read transaction, carried opaque.
#[verifier::external_type_specification]
#[verifier::external_body]
pub struct ExReadTransaction(redb::ReadTransaction);

/// redb's error on opening a database; only its `Display` text is used.
#[verifier::external_type_specification]
#[verifier::external_body]
pub struct ExDatabaseError(redb::DatabaseError);

/// redb's error on beginning a transaction; only its `Display` text is used.
#[verifier::external_type_specification]
#[verifier::external_body]
pub struct ExTransactionError(redb::TransactionError);

/// redb's error on opening a table; only its `Display` text is used.
#[verifier::external_type_specification]
#[verifier::external_body]
pub struct ExTableError(redb::TableError);

/// redb's error on a table operation; only its `Display` text is used.
#[verifier::external_type_specification]
#[verifier::external_body]
pub struct ExStorageError(redb::StorageError);

/// redb's error on a commit; only its `Display` text is used.
#[verifier::external_type_specification]
#[verifier::external_body]
pub struct ExCommitError(redb::CommitError);

/// A `&str`-to-bytes table opened in a write transaction.
#[verifier::external_body]
pub struct DocTable<'txn> {
    inner: redb::Table<'txn, &'static str, &'static [u8]>,
}

/// A `&str`-to-`&str` multimap table opened in a write transaction.
#[verifier::external_body]
pub struct IndexTable<'txn> {
    inner: redb::MultimapTable<'txn, &'static str, &'static str>,
}

/// A `&str`-to-bytes table opened in a read transaction.
#[verifier::external_body]
pub struct ReadDocTable {
    inner: redb::ReadOnlyTable<&'static str, &'static [u8]>,
}

/// A `&str`-to-`&str` multimap table opened in a read transaction.
#[verifier::external_body]
pub struct ReadIndexTable {
    inner: redb::ReadOnlyMultimapTable<&'static str, &'static str>,
}

/// An iterator over the entries of a read table from some key on, in key order.
#[verifier::external_body]
pub struct DocRange {
    inner: redb::Range<'static, &'static str, &'static [u8]>,
}

/// An iterator over the values that a read multimap table holds for one key.
#[verifier::external_body]
pub struct IdValues {
    inner: redb::MultimapValue<'static, &'static str>,
}

/// What a document table in a write transaction holds.
pub uninterp spec fn doc_table_contents(t: DocTable) -> Map<Seq<char>, Seq<u8>>;

/// The (key, value) pairs that an index table in a write transaction holds.
pub uninterp spec fn index_table_contents(t: IndexTable) -> Set<(Seq<char>, Seq<char>)>;

/// What a document table in a read transaction holds.
pub uninterp spec fn read_doc_contents(t: ReadDocTable) -> Map<Seq<char>, Seq<u8>>;

/// The (key, value) pairs that an index table in a read transaction holds.
pub uninterp spec fn read_index_contents(t: ReadIndexTable) -> Set<(Seq<char>, Seq<char>)>;

/// The entries that a range iterator has yet to yield.
pub uninterp spec fn doc_range_remaining(r: DocRange) -> Seq<(Seq<char>, Seq<u8>)>;

/// The values that a multimap value iterator has yet to yield.
pub uninterp spec fn id_values_remaining(it: IdValues) -> Seq<Seq<char>>;

/// `a` comes strictly before `b` in the order of redb's `&str` keys: by their UTF-8
/// bytes, which is the order of their sequences of code points.
pub open spec fn key_less(a: Seq<char>, b: Seq<char>) -> bool {
    ||| (a.len() < b.len() && a == b.take(a.len() as int))
    ||| exists|i: int|
        0 <= i < a.len() && i < b.len() && a.take(i) == b.take(i) && (a[i] as u32) < (
        b[i] as u32)
}

/// `a` is `lo` or comes after it.
pub open spec fn key_at_least(a: Seq<char>, lo: Seq<char>) -> bool {
    a == lo || key_less(lo, a)
}

/// `items` are the entries of `m` whose key is at least `lo`, each once, in key
/// order.
pub open spec fn ordered_listing(
    items: Seq<(Seq<char>, Seq<u8>)>,
    m: Map<Seq<char>, Seq<u8>>,
    lo: Seq<char>,
) -> bool {
    &&& forall|i: int, k: int|
        0 <= i < k < items.len() ==> key_less(#[trigger] items[i].0, #[trigger] items[k].0)
    &&& forall|i: int|
        0 <= i < items.len() ==> {
            &&& m.contains_key(#[trigger] items[i].0)
            &&& m[items[i].0] == items[i].1
            &&& key_at_least(items[i].0, lo)
        }
    &&& forall|k: Seq<char>|
        #[trigger] m.contains_key(k) && key_at_least(k, lo) ==> exists|i: int|
            0 <= i < items.len() && #[trigger] items[i].0 == k
}

/// The ids that an index holds under `key`.
pub open spec fn ids_under(index: Set<(Seq<char>, Seq<char>)>, key: Seq<char>) -> Set<Seq<char>> {
    Set::new(|id: Seq<char>| index.contains((key, id)))
}

/// `redb::Database::create`: opens the database file at `path`, creating it where
/// it does not exist. Whether it succeeds depends on the file system.
#[verifier::external_body]
pub(crate) fn create_database(path: &str) -> (r: Result<redb::Database, redb::DatabaseError>) {
    redb::Database::create(path)
}

/// `redb::Database::begin_write`. Whether it succeeds depends on the database.
#[verifier::external_body]
pub(crate) fn begin_write(db: &redb::Database) -> (r: Result<redb::WriteTransaction, redb::TransactionError>) {
    db.begin_write()
}

/// `redb::ReadableDatabase::begin_read`. Whether it succeeds depends on the database.
#[verifier::external_body]
pub(crate) fn begin_read(db: &redb::Database) -> (r: Result<redb::ReadTransaction, redb::TransactionError>) {
    db.begin_read()
}

/// `redb::WriteTransaction::commit`. Whether it succeeds depends on the database.
#[verifier::external_body]
pub(crate) fn commit(txn: redb::WriteTransaction) -> (r: Result<(), redb::CommitError>) {
    txn.commit()
}

/// `redb::WriteTransaction::open_table` for the `&str`-to-bytes table `name`,
/// created where it does not exist. A table definition may not have an empty
/// name (`TableDefinition::new` panics on one).
#[verifier::external_body]
pub(crate) fn open_doc_table<'txn>(txn: &'txn redb::WriteTransaction, name: &str) -> (r: Result<
    DocTable<'txn>,
    redb::TableError,
>)
    requires
        name@.len() > 0,
{
    txn.open_table(TableDefinition::<&str, &[u8]>::new(name)).map(|t| DocTable { inner: t })
}

/// `redb::WriteTransaction::open_multimap_table` for the `&str`-to-`&str` multimap
/// table `name`, created where it does not exist; `name` may not be empty
/// (`MultimapTableDefinition::new` panics on one).
#[verifier::external_body]
pub(crate) fn open_index_table<'txn>(txn: &'txn redb::WriteTransaction, name: &str) -> (r: Result<
    IndexTable<'txn>,
    redb::TableError,
>)
    requires
        name@.len() > 0,
{
    txn.open_multimap_table(MultimapTableDefinition::<&str, &str>::new(name)).map(
        |t| IndexTable { inner: t },
    )
}

/// `redb::ReadTransaction::open_table` for the `&str`-to-bytes table `name`; it
/// fails where the table does not exist. `name` may not be empty.
#[verifier::external_body]
pub(crate) fn open_read_doc_table(txn: &redb::ReadTransaction, name: &str) -> (r: Result<
    ReadDocTable,
    redb::TableError,
>)
    requires
        name@.len() > 0,
{
    txn.open_table(TableDefinition::<&str, &[u8]>::new(name)).map(|t| ReadDocTable { inner: t })
}

/// `redb::ReadTransaction::open_multimap_table` for the multimap table `name`,
/// which may not be empty.
#[verifier::external_body]
pub(crate) fn open_read_index_table(txn: &redb::ReadTransaction, name: &str) -> (r: Result<
    ReadIndexTable,
    redb::TableError,
>)
    requires
        name@.len() > 0,
{
    txn.open_multimap_table(MultimapTableDefinition::<&str, &str>::new(name)).map(
        |t| ReadIndexTable { inner: t },
    )
}

/// `redb::Table::insert`: where it succeeds, `id` maps to `payload` and every other
/// entry is as it was. (The value it returns, the one replaced, is dropped.)
#[verifier::external_body]
pub(crate) fn doc_insert(t: &mut DocTable, id: &str, payload: &[u8]) -> (r: Result<(), redb::StorageError>)
    ensures
        r is Ok ==> doc_table_contents(*final(t)) == doc_table_contents(*old(t)).insert(id@, payload@),
{
    t.inner.insert(id, payload).map(|_| ())
}

/// `redb::Table::remove`: where it succeeds, `id` is gone, every other entry is as
/// it was, and the bytes that `id` held, if any, come back.
#[verifier::external_body]
pub(crate) fn doc_remove(t: &mut DocTable, id: &str) -> (r: Result<Option<Vec<u8>>, redb::StorageError>)
    ensures
        r matches Ok(removed) ==> {
            &&& doc_table_contents(*final(t)) == doc_table_contents(*old(t)).remove(id@)
            &&& match removed {
                Some(bytes) => doc_table_contents(*old(t)).contains_key(id@)
                    && bytes@ == doc_table_contents(*old(t))[id@],
                None => !doc_table_contents(*old(t)).contains_key(id@),
            }
        },
{
    t.inner.remove(id).map(|old| old.map(|guard| guard.value().to_vec()))
}

/// `redb::MultimapTable::insert`: where it succeeds, the pair (`key`, `id`) is held,
/// and nothing else changes.
#[verifier::external_body]
pub(crate) fn index_insert(t: &mut IndexTable, key: &str, id: &str) -> (r: Result<(), redb::StorageError>)
    ensures
        r is Ok ==> index_table_contents(*final(t)) == index_table_contents(*old(t)).insert(
            (key@, id@),
        ),
{
    t.inner.insert(key, id).map(|_| ())
}

/// `redb::MultimapTable::remove`: where it succeeds, the pair (`key`, `id`) is no
/// longer held, and nothing else changes.
#[verifier::external_body]
pub(crate) fn index_remove(t: &mut IndexTable, key: &str, id: &str) -> (r: Result<(), redb::StorageError>)
    ensures
        r is Ok ==> index_table_contents(*final(t)) == index_table_contents(*old(t)).remove(
            (key@, id@),
        ),
{
    t.inner.remove(key, id).map(|_| ())
}

/// `redb::ReadOnlyTable::get`: where it succeeds, the bytes that `id` holds, or
/// `None` where the table does not hold `id`.
#[verifier::external_body]
pub(crate) fn read_doc_get(t: &ReadDocTable, id: &str) -> (r: Result<Option<Vec<u8>>, redb::StorageError>)
    ensures
        r matches Ok(found) ==> match found {
            Some(bytes) => read_doc_contents(*t).contains_key(id@) && bytes@ == read_doc_contents(
                *t,
            )[id@],
            None => !read_doc_contents(*t).contains_key(id@),
        },
{
    t.inner.get(id).map(|found| found.map(|guard| guard.value().to_vec()))
}

/// `redb::ReadOnlyTable::range` over the keys from `start` on: where it succeeds, an
/// iterator over those entries, in key order.
#[verifier::external_body]
pub(crate) fn read_doc_range_from(t: &ReadDocTable, start: &str) -> (r: Result<DocRange, redb::StorageError>)
    ensures
        r matches Ok(range) ==> ordered_listing(doc_range_remaining(range), read_doc_contents(*t), start@),
{
    t.inner.range(start..).map(|range| DocRange { inner: range })
}

/// `Iterator::next` on a range: `None` once nothing remains; else the next entry,
/// which is then no longer remaining, or an error.
#[verifier::external_body]
pub(crate) fn doc_range_next(r: &mut DocRange) -> (item: Option<Result<(String, Vec<u8>), redb::StorageError>>)
    ensures
        match item {
            None => doc_range_remaining(*old(r)).len() == 0,
            Some(Ok((key, value))) => {
                &&& doc_range_remaining(*old(r)).len() > 0
                &&& doc_range_remaining(*old(r))[0] == (key@, value@)
                &&& doc_range_remaining(*final(r)) == doc_range_remaining(*old(r)).drop_first()
            },
            Some(Err(_)) => true,
        },
{
    r.inner.next().map(
        |entry| entry.map(|(key, value)| (key.value().to_string(), value.value().to_vec())),
    )
}

/// `redb::ReadOnlyMultimapTable::get`: where it succeeds, an iterator over the values
/// held under `key`, each once, in ascending order (a multimap keeps the values of a
/// key sorted, `&str` values by their bytes).
#[verifier::external_body]
pub(crate) fn read_index_get(t: &ReadIndexTable, key: &str) -> (r: Result<IdValues, redb::StorageError>)
    ensures
        r matches Ok(ids) ==> {
            &&& id_values_remaining(ids).no_duplicates()
            &&& id_values_remaining(ids).to_set() == ids_under(read_index_contents(*t), key@)
            &&& forall|i: int, k: int|
                0 <= i < k < id_values_remaining(ids).len() ==> key_less(
                    #[trigger] id_values_remaining(ids)[i],
                    #[trigger] id_values_remaining(ids)[k],
                )
        },
{
    t.inner.get(key).map(|values| IdValues { inner: values })
}

/// `Iterator::next` on a multimap value iterator: `None` once nothing remains; else
/// the next value, which is then no longer remaining, or an error.
#[verifier::external_body]
pub(crate) fn id_values_next(it: &mut IdValues) -> (item: Option<Result<String, redb::StorageError>>)
    ensures
        match item {
            None => id_values_remaining(*old(it)).len() == 0,
            Some(Ok(id)) => {
                &&& id_values_remaining(*old(it)).len() > 0
                &&& id_values_remaining(*old(it))[0] == id@
                &&& id_values_remaining(*final(it)) == id_values_remaining(*old(it)).drop_first()
            },
            Some(Err(_)) => true,
        },
{
    it.inner.next().map(|value| value.map(|guard| guard.value().to_string()))
}

} // verus!
