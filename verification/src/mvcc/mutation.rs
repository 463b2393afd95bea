use vstd::prelude::*;

verus! {

/// A single resolved change to the keyspace.
///
/// Mutations are the unit the store applies and the write-ahead log records.
/// They are deliberately resolved: a ranged delete becomes one `Delete` per
/// matching key, decided by whoever issued it, rather than a range the store
/// re-evaluates. Re-evaluating a range at apply time would let the same log
/// produce different results against different state, which is exactly what
/// replay must not do.
#[derive(Debug, Clone, PartialEq, Eq)]
pub enum Mutation {
    /// Stores a value under a key, replacing any existing value.
    Put {
        /// Key to write.
        key: Vec<u8>,
        /// Value to store.
        value: Vec<u8>,
    },
    /// Removes a single key.
    Delete {
        /// Key to remove.
        key: Vec<u8>,
    },
}

/// The mathematical form of a [`Mutation`].
pub enum MutationView {
    Put { key: Seq<u8>, value: Seq<u8> },
    Delete { key: Seq<u8> },
}

impl MutationView {
    /// The key this mutation affects.
    pub open spec fn key(self) -> Seq<u8> {
        match self {
            MutationView::Put { key, .. } => key,
            MutationView::Delete { key } => key,
        }
    }
}

impl View for Mutation {
    type V = MutationView;

    open spec fn view(&self) -> MutationView {
        match self {
            Mutation::Put { key, value } => MutationView::Put { key: key@, value: value@ },
            Mutation::Delete { key } => MutationView::Delete { key: key@ },
        }
    }
}

impl Mutation {
    /// Returns the key this mutation affects.
    pub fn key(&self) -> (k: &[u8])
        ensures
            k@ == self@.key(),
    {
        match self {
            Mutation::Put { key, .. } => key.as_slice(),
            Mutation::Delete { key } => key.as_slice(),
        }
    }
}

} // verus!
