//! Verified core of a small LSM-tree key-value store: keys, blocks,
//! write-ahead-log records, compression, compaction decisions and
//! connection bookkeeping.

pub mod text;
pub mod buffer;
pub mod key;
pub mod key_order;
pub mod error;
pub mod compression;
pub mod block;
pub mod wal;
pub mod lsm_storage;
pub mod compact;
pub mod server_options;
pub mod command;
pub mod repl;
pub mod connection_pool;
pub mod network;
pub mod iterators;
