# lorealdb

A read-optimized embedded document store on [redb](https://github.com/cberner/redb),
with Python bindings. JSON payloads are stored as raw bytes under an id; every
scalar inside a payload is indexed under its dotted path (`user.tags.0.rust`), so
that documents can be filtered by a field's value. Writes are validated, queued on
a bounded channel and applied by a writer in batches, one transaction per batch.

The library under `src/` is verified with Verus:

- `json`, `text`, `index_keys`, `parse`: the tape that `simd_json` parses a payload
  into, the tree it encodes, and the index keys of that tree.
- `store`: the redb database, transactions and tables, with what each call does
  to a table's contents.
- `writes`: the queued operations, what each does to the documents and the index,
  and the batch the writer applies.
- `reads`: reads by id, by list of ids, by id prefix, and by index key.
- `queue`: the write queue and the gathering of batches.
- `db_engine`, `db_engine_write`: the read-optimized engine with its writer, and
  the write-optimized engine.
- `laws`: what holds of the store model that the writer's batches are proved
  against (a document holds what was last written to it, the index stays in step
  with the documents, an upsert repeated changes nothing, batches compose). These
  are statements about the tables inside one transaction; the engine's reads open
  a transaction of their own, and what they see of earlier commits rests on redb.

`app/` holds the Python extension module (pyo3), which converts Python values to
and from JSON bytes and runs the writer on a thread of its own.
