//! A durable key-value engine over an append-only, checksummed log, and a
//! typed row encoding that maps table rows to byte keys and values.

pub mod bytes;
pub mod cell;
pub mod entry;
pub mod kv;
pub mod engine;
pub mod schema;
pub mod row;
