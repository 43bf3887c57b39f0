//! Vault: a small persistent key-value storage engine.
//!
//! The engine keeps an append-only data file, an index file of key/offset
//! records, a write-ahead log for writes and a one-byte write-ahead log for
//! compaction. This crate holds the byte formats of those files, the
//! in-memory index, the engine's operations over byte images of the files,
//! and the decisions that crash recovery takes; every item is verified.

pub mod codec;
pub mod compact_recovery;
pub mod compaction;
pub mod engine;
pub mod error;
pub mod index;
pub mod index_scan;
pub mod recovery;
pub mod wal;
