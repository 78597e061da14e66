//! An ordered key/value store of JSON documents with a flat-file snapshot format.
//!
//! Records live in memory in increasing key order; the whole store is written out as a
//! snapshot text, one `key|field` line per record, and read back from it.

pub mod codec;
pub mod errors;
pub mod key_order;
pub mod keygen;
pub mod laws;
pub mod records;
pub mod snapshot;
pub mod store;
pub mod text;

pub use codec::{decode, encode, Document};
pub use errors::{KVStoreError, StoreError};
pub use snapshot::{read_kvstore, write_kvstore};
pub use store::{KVStore, ListQuery, DEFAULT_LIST_LIMIT};
