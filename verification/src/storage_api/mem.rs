use vstd::prelude::*;

use crate::bytes::copy_bytes;
use crate::sorted_map::SortedMap;
use crate::storage_api::bounds::Bounds;
use crate::storage_api::engine::{
    is_range_of, lookup, opt_view, pair_views, Keyspace, Pair, ReadTxn, StorageEngine, WriteTxn,
};
use crate::storage_api::error::Error;

verus! {

/// An in-memory [`StorageEngine`] that exists only to exercise the contract.
///
/// It holds the entire keyspace in memory and copies it wholesale on every
/// transaction. Its purpose is to prove the contract is implementable without
/// reference to any particular storage library.
pub struct MemEngine {
    committed: SortedMap<Vec<u8>>,
}

/// Snapshot-isolated read transaction over a [`MemEngine`].
pub struct MemRead {
    snapshot: SortedMap<Vec<u8>>,
}

/// Write transaction over a [`MemEngine`].
pub struct MemWrite {
    working: SortedMap<Vec<u8>>,
}

impl MemEngine {
    #[verifier::type_invariant]
    spec fn wf(&self) -> bool {
        self.committed.wf()
    }

    /// Creates an engine with an empty keyspace.
    pub fn new() -> (e: Self)
        ensures
            e.committed() == Keyspace::empty(),
    {
        let e = MemEngine { committed: SortedMap::new() };
        assert(e.committed.keyspace() =~= Keyspace::empty());
        e
    }

    /// A second handle on an independent copy of this engine's keyspace.
    pub fn duplicate(&self) -> (e: Self)
        ensures
            e.committed() == self.committed(),
    {
        proof {
            use_type_invariant(self);
        }
        MemEngine { committed: self.committed.duplicate() }
    }
}

impl MemRead {
    #[verifier::type_invariant]
    spec fn wf(&self) -> bool {
        self.snapshot.wf()
    }
}

impl MemWrite {
    #[verifier::type_invariant]
    spec fn wf(&self) -> bool {
        self.working.wf()
    }
}

impl ReadTxn for MemRead {
    closed spec fn keyspace(&self) -> Keyspace {
        self.snapshot.keyspace()
    }

    fn get(&self, key: &[u8]) -> (r: Result<Option<Vec<u8>>, Error>)
        ensures
            r is Ok,
    {
        proof {
            use_type_invariant(self);
        }
        match self.snapshot.get(key) {
            Some(v) => Ok(Some(copy_bytes(v.as_slice()))),
            None => Ok(None),
        }
    }

    fn range(&self, bounds: &Bounds, limit: Option<usize>) -> (r: Result<Vec<Pair>, Error>)
        ensures
            r is Ok,
    {
        proof {
            use_type_invariant(self);
        }
        Ok(self.snapshot.collect_range(bounds, limit))
    }
}

impl ReadTxn for MemWrite {
    closed spec fn keyspace(&self) -> Keyspace {
        self.working.keyspace()
    }

    fn get(&self, key: &[u8]) -> (r: Result<Option<Vec<u8>>, Error>)
        ensures
            r is Ok,
    {
        proof {
            use_type_invariant(self);
        }
        match self.working.get(key) {
            Some(v) => Ok(Some(copy_bytes(v.as_slice()))),
            None => Ok(None),
        }
    }

    fn range(&self, bounds: &Bounds, limit: Option<usize>) -> (r: Result<Vec<Pair>, Error>)
        ensures
            r is Ok,
    {
        proof {
            use_type_invariant(self);
        }
        Ok(self.working.collect_range(bounds, limit))
    }
}

impl WriteTxn for MemWrite {
    fn insert(&mut self, key: &[u8], value: &[u8]) -> (r: Result<(), Error>)
        ensures
            r is Ok,
    {
        proof {
            use_type_invariant(&*self);
        }
        let k = copy_bytes(key);
        let v = copy_bytes(value);
        let mut working = SortedMap::new();
        std::mem::swap(&mut working, &mut self.working);
        working.insert(k, v);
        self.working = working;
        assert(self.working.keyspace() =~= old(self).working.keyspace().insert(key@, value@));
        Ok(())
    }

    fn remove(&mut self, key: &[u8]) -> (r: Result<Option<Vec<u8>>, Error>)
        ensures
            r is Ok,
    {
        proof {
            use_type_invariant(&*self);
        }
        let mut working = SortedMap::new();
        std::mem::swap(&mut working, &mut self.working);
        let prev = working.remove(key);
        self.working = working;
        assert(self.working.keyspace() =~= old(self).working.keyspace().remove(key@));
        Ok(prev)
    }
}

impl StorageEngine for MemEngine {
    type ReadTxn = MemRead;

    type WriteTxn = MemWrite;

    closed spec fn committed(&self) -> Keyspace {
        self.committed.keyspace()
    }

    fn begin_read(&self) -> (r: Result<MemRead, Error>)
        ensures
            r is Ok,
    {
        proof {
            use_type_invariant(self);
            self.committed.lemma_finite();
            assert(self.committed.keyspace().dom() =~= self.committed.as_map().dom());
        }
        Ok(MemRead { snapshot: self.committed.duplicate() })
    }

    fn begin_write(&self) -> (r: Result<MemWrite, Error>)
        ensures
            r is Ok,
    {
        proof {
            use_type_invariant(self);
        }
        Ok(MemWrite { working: self.committed.duplicate() })
    }

    fn commit(&mut self, txn: MemWrite) -> (r: Result<(), Error>)
        ensures
            r is Ok,
    {
        proof {
            use_type_invariant(&txn);
        }
        self.committed = txn.working;
        Ok(())
    }

    /// Commits, since an in-memory keyspace has no stable storage to reach.
    fn commit_durable(&mut self, txn: MemWrite) -> (r: Result<(), Error>)
        ensures
            r is Ok,
    {
        self.commit(txn)
    }

    fn abort(&mut self, txn: MemWrite) -> (r: Result<(), Error>)
        ensures
            r is Ok,
    {
        Ok(())
    }
}

} // verus!
