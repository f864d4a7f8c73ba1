//! Storage core of an LSM-tree key-value store: the on-disk SSTable
//! format layer, the write-ahead-log record format with CRC-checked
//! recovery, and the in-memory ordered memtable.

pub mod byteops;
pub mod config;
pub mod sstable;
pub mod types;
pub mod memtable;
pub mod wal;
