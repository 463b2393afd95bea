use vstd::prelude::*;

use crate::bytes::lex_lt;
use crate::sorted_map::strictly_ascending;
use crate::storage_api::bounds::{Bounds, BoundsView};
use crate::storage_api::error::Error;

verus! {

/// A key/value pair returned by a scan.
pub type Pair = (Vec<u8>, Vec<u8>);

/// The contents of a keyspace: each key maps to its value.
pub type Keyspace = Map<Seq<u8>, Seq<u8>>;

/// The byte strings a sequence of pairs holds.
pub open spec fn pair_views(pairs: Seq<Pair>) -> Seq<(Seq<u8>, Seq<u8>)> {
    pairs.map_values(|p: Pair| (p.0@, p.1@))
}

/// The keys of a sequence of viewed pairs.
pub open spec fn pair_keys(pairs: Seq<(Seq<u8>, Seq<u8>)>) -> Seq<Seq<u8>> {
    pairs.map_values(|p: (Seq<u8>, Seq<u8>)| p.0)
}

/// Whether `r` is exactly what a scan of `m` within `b`, capped at `limit`
/// pairs, returns: the pairs of `m` within `b` in ascending key order, taken
/// from the start of the range until the cap is reached.
pub open spec fn is_range_of(
    r: Seq<(Seq<u8>, Seq<u8>)>,
    m: Keyspace,
    b: BoundsView,
    limit: Option<usize>,
) -> bool {
    &&& strictly_ascending(pair_keys(r))
    &&& forall|i: int|
        0 <= i < r.len() ==> {
            &&& m.contains_key(#[trigger] r[i].0)
            &&& m[r[i].0] == r[i].1
            &&& b.contains(r[i].0)
        }
    &&& limit matches Some(l) ==> r.len() <= l
    &&& forall|k: Seq<u8>|
        #[trigger] m.contains_key(k) && b.contains(k) ==> {
            ||| pair_keys(r).contains(k)
            ||| {
                &&& limit matches Some(l) && r.len() == l
                &&& forall|i: int| 0 <= i < r.len() ==> lex_lt(#[trigger] r[i].0, k)
            }
        }
}

/// What a lookup of `key` in `m` finds.
pub open spec fn lookup(m: Keyspace, key: Seq<u8>) -> Option<Seq<u8>> {
    if m.contains_key(key) {
        Some(m[key])
    } else {
        None
    }
}

/// The byte string an optional owned value holds.
pub open spec fn opt_view(v: Option<Vec<u8>>) -> Option<Seq<u8>> {
    match v {
        Some(b) => Some(b@),
        None => None,
    }
}

/// Read access to a consistent snapshot of the keyspace.
///
/// Implemented by both read transactions and write transactions.
/// A write transaction additionally observes its own uncommitted writes.
pub trait ReadTxn: Sized {
    /// The keyspace this transaction observes.
    ///
    /// Each engine of this library defines it. The default exists so that an
    /// engine implemented where nothing verifies it can still implement the
    /// trait; verified code never learns it, since it reasons about an engine
    /// it is generic over only through the contract.
    closed spec fn keyspace(&self) -> Keyspace {
        Keyspace::empty()
    }

    /// Returns the value stored under `key`, or `None` if the key is absent.
    ///
    /// A missing key is not an error; a failure of the backend is.
    fn get(&self, key: &[u8]) -> (r: Result<Option<Vec<u8>>, Error>)
        ensures
            r matches Ok(found) ==> opt_view(found) == lookup(self.keyspace(), key@),
    ;

    /// Returns the key/value pairs within `bounds`, in ascending key order.
    ///
    /// A `limit` caps the number of pairs returned, taken from the start of
    /// the range, and `None` returns every pair within the bounds.
    fn range(&self, bounds: &Bounds, limit: Option<usize>) -> (r: Result<Vec<Pair>, Error>)
        ensures
            r matches Ok(pairs) ==> is_range_of(pair_views(pairs@), self.keyspace(), bounds@, limit),
    ;
}

/// Buffered write access to the keyspace.
///
/// Writes are buffered and become visible to other transactions only when
/// the engine commits the transaction. Reads through this transaction
/// observe its own buffered writes, while reads through any other
/// transaction do not. A write transaction that is dropped rather than
/// committed leaves no trace.
pub trait WriteTxn: ReadTxn {
    /// Stores `value` under `key`, replacing any existing value.
    fn insert(&mut self, key: &[u8], value: &[u8]) -> (r: Result<(), Error>)
        ensures
            r is Ok ==> final(self).keyspace() == old(self).keyspace().insert(key@, value@),
    ;

    /// Removes `key`, returning the value it held, or `None` if it was absent.
    ///
    /// Removing a key that does not exist is not an error.
    fn remove(&mut self, key: &[u8]) -> (r: Result<Option<Vec<u8>>, Error>)
        ensures
            r matches Ok(prev) ==> {
                &&& final(self).keyspace() == old(self).keyspace().remove(key@)
                &&& opt_view(prev) == lookup(old(self).keyspace(), key@)
            },
    ;
}

/// A transactional, ordered, byte-keyed storage backend.
///
/// **Ordering.** Keys are ordered by unsigned byte-wise comparison.
/// Ranges iterate ascending.
///
/// **Single writer.** At most one write transaction is open at a time. A
/// commit installs exactly the keyspace its transaction observes, so a
/// caller that opened a second writer before the first one finished would
/// lose the first one's writes; every caller in this library opens, finishes
/// and only then opens again.
///
/// **Snapshot isolation.** A transaction observes the keyspace as of the
/// last commit preceding its creation, and that view never changes for the
/// transaction's lifetime.
///
/// **Atomic commits.** A commit applies all of its writes or none of them,
/// and a transaction opened after a commit returns observes it.
///
/// **Durability is not promised** by [`commit`](StorageEngine::commit); it is
/// what [`commit_durable`](StorageEngine::commit_durable) adds.
pub trait StorageEngine: Sized {
    /// Snapshot-isolated view of the keyspace.
    type ReadTxn: ReadTxn;

    /// Buffered write transaction.
    type WriteTxn: WriteTxn;

    /// The keyspace as of the last commit.
    ///
    /// Each engine of this library defines it. The default exists so that an
    /// engine implemented where nothing verifies it can still implement the
    /// trait; verified code never learns it, since it reasons about an engine
    /// it is generic over only through the contract. An engine that keeps
    /// the default states nothing of its keyspace, and nothing proved of a
    /// store over it says anything of what that store holds.
    closed spec fn committed(&self) -> Keyspace {
        Keyspace::empty()
    }

    /// Opens a read transaction over a consistent snapshot of the keyspace.
    ///
    /// The keyspace holds finitely many keys.
    fn begin_read(&self) -> (r: Result<Self::ReadTxn, Error>)
        ensures
            r matches Ok(txn) ==> txn.keyspace() == self.committed(),
            r is Ok ==> self.committed().dom().finite(),
    ;

    /// Opens a write transaction over the current keyspace.
    fn begin_write(&self) -> (r: Result<Self::WriteTxn, Error>)
        ensures
            r matches Ok(txn) ==> txn.keyspace() == self.committed(),
    ;

    /// Applies every buffered write of `txn` atomically.
    ///
    /// After this returns `Ok`, a newly opened transaction observes all of
    /// these writes. It does not promise the writes reached stable storage.
    /// On failure none of the writes are applied.
    fn commit(&mut self, txn: Self::WriteTxn) -> (r: Result<(), Error>)
        ensures
            r is Ok ==> final(self).committed() == txn.keyspace(),
            r is Err ==> final(self).committed() == old(self).committed(),
    ;

    /// Commits `txn` as [`commit`](StorageEngine::commit) does, and returns
    /// only once the writes have reached stable storage.
    fn commit_durable(&mut self, txn: Self::WriteTxn) -> (r: Result<(), Error>)
        ensures
            r is Ok ==> final(self).committed() == txn.keyspace(),
            r is Err ==> final(self).committed() == old(self).committed(),
    ;

    /// Discards every buffered write of `txn`.
    ///
    /// The writes are discarded whether or not an error is reported.
    fn abort(&mut self, txn: Self::WriteTxn) -> (r: Result<(), Error>)
        ensures
            final(self).committed() == old(self).committed(),
    ;
}

} // verus!
