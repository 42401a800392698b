//! A read-only decoder for the SQLite database file format: page headers,
//! varints, records, B-tree traversal, the schema catalog and simple queries.

pub mod btree;
pub mod error;
pub mod header;
pub mod query;
pub mod record;
pub mod schema;
pub mod sql;
pub mod text;
pub mod varint;
