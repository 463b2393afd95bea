//! Backend-agnostic storage engine contract for the store.
//!
//! Defines the transaction model every storage backend must satisfy.
pub mod bounds;
pub mod conform;
pub mod engine;
pub mod error;
pub mod mem;

pub use crate::storage_api::bounds::{BoundView, Bounds, BoundsView, KeyBound};
pub use crate::storage_api::engine::{Pair, ReadTxn, StorageEngine, WriteTxn};
pub use crate::storage_api::error::Error;
pub use crate::storage_api::mem::{MemEngine, MemRead, MemWrite};
