//! Write-ahead log: durability and crash recovery for the store.
//!
//! A mutation is appended and flushed here before it is applied, so an
//! acknowledged write survives a crash and an unacknowledged one is never
//! visible after one. Writes that arrive together share one flush.
//!
//! Every record is framed as a CRC32 checksum, a big-endian length, and a
//! payload. The checksum covers the length as well as the payload, so a
//! corrupted length cannot silently reframe everything after it.
//!
//! Reading distinguishes two failures, and the distinction is what makes
//! recovery correct. A frame that ends early is what a kill mid-append
//! leaves behind: the write was never acknowledged, so recovery stops there
//! and treats it as the end of the log. A frame that fails its checksum is
//! damage, and recovery refuses to continue past it.
pub mod batch;
pub mod error;
pub mod faults;
pub mod frame;
pub mod options;
pub mod record;
pub mod recovery;
pub mod segment;
pub mod writer;

pub use crate::wal::error::Error;
pub use crate::wal::faults::Faults;
pub use crate::wal::options::Options;
