//! Typed persistence of records in named tables of an embedded transactional
//! key-value engine.
//!
//! A type that implements [`Record`] names its table, its key and its binary
//! encoding; [`Storage`] saves, fetches, deletes, walks and clears records of
//! such types, each operation in the transactions it needs.

pub mod cache;
pub mod engine;
pub mod key;
pub mod keyfield;
pub mod laws;
pub mod model;
pub mod query;
pub mod record;
pub mod storage;

pub use cache::TableCache;
pub use key::{Key, KeyBytes};
pub use keyfield::{find_attr_value, find_key_field, KeyFieldError, KEY_ATTRIBUTE};
pub use query::{QueryState, RoQuery};
pub use record::Record;
pub use storage::{Storage, StorageError, MAP_SIZE, MAX_DBS};
