//! A sorted, immutable key-value table of records: built once from a batch of
//! documents, stored as bytes with an integrity trailer, and queried by point
//! lookup, ordered scan and one-hop neighbour resolution.

pub mod keys;
pub mod table;
pub mod builder;
pub mod codec;
pub mod documents;
pub mod ingest;
pub mod query;
pub mod pool;
pub mod laws;
