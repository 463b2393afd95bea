//! Revision-indexed keyspace: the MVCC layer over a storage backend.
//!
//! [`KvStore`] gives every write a monotonically increasing revision and keeps
//! superseded values readable until they are compacted away.
//!
//! Two pieces cooperate. An in-memory [`Index`] maps each key to its revision
//! history and answers "which revision of this key was current at revision X"
//! without any backend access. The backend holds one record per revision,
//! keyed so that byte order matches revision order. The index is derived
//! state, rebuilt by replaying the backend's records when a store is opened.
pub mod error;
pub mod index;
pub mod meta;
pub mod mutation;
pub mod rebuild;
pub mod record;
pub mod revision;
pub mod store;

pub use crate::mvcc::error::Error;
pub use crate::mvcc::index::{Found, Index};
pub use crate::mvcc::mutation::{Mutation, MutationView};
pub use crate::mvcc::revision::Revision;
pub use crate::mvcc::store::{KvStore, Record};
