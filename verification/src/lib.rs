//! Hadar: a revision-indexed key-value store with a write-ahead log, over a
//! pluggable transactional storage backend.
//!
//! - [`storage_api`]: the contract every storage backend meets, an in-memory
//!   backend that meets it, and executable cases that check a backend against it.
//! - [`mvcc`]: the revision-indexed store over a backend.
//! - [`wal`]: the write-ahead log that makes the store durable, and its recovery.
//! - [`config`]: how the server is asked to run.
pub mod bytes;
pub mod config;
pub mod mvcc;
pub mod sorted_map;
pub mod storage_api;
pub mod text;
pub mod wal;
