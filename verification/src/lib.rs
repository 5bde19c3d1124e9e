//! A read-optimized document store on redb: JSON payloads are stored by id and every
//! scalar inside them is indexed under its dotted path, so that documents can be
//! filtered by a field's value without parsing them at read time.
pub mod json;
pub mod text;
pub mod index_keys;
pub mod parse;
pub mod store;
pub mod writes;
pub mod errors;
pub mod reads;
pub mod queue;
pub mod db_engine;
pub mod db_engine_write;
pub mod laws;
