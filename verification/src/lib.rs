//! The compaction and transaction logic of a small log-structured merge (LSM) storage engine.
//!
//! - [`key`]: versioned keys and their order.
//! - [`iterators`]: iterators over sorted runs, and how runs merge.
//! - [`table`]: sorted tables, how they are built and iterated over.
//! - [`compact`]: compaction of tables.
//! - [`mvcc`]: timestamps, readers and transactions.
//! - [`key_hash`]: the hashes by which transactions remember keys.
//! - [`skip_map`]: the ordered map that holds a transaction's own writes.
//! - [`lsm_storage`]: the state of the store, and what the library asks of the disk.
//! - [`runs`]: what a sorted run says of a user key at a point in time.
pub mod compact;
pub mod iterators;
pub mod key;
pub mod key_hash;
pub mod lsm_storage;
pub mod mvcc;
pub mod runs;
pub mod skip_map;
pub mod table;
