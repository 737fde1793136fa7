//! An in-memory key-value database with sorted sets, a checksummed
//! write-ahead log and snapshots, with its logic verified by Verus.
pub mod order;
pub mod sorted_set;
pub mod lru_cache;
pub mod store;
pub mod sorted_set_store;
pub mod protocol;
pub mod wal;
pub mod text;
pub mod dispatch;
pub mod snapshot;
pub mod bench;
