//! Failures to inject into a log's I/O.
//!
//! A real filesystem will not refuse an fsync or stop a write halfway on
//! request, so the paths that handle those failures would otherwise be
//! unreachable from a test. Each setting arms upcoming operations and is
//! consumed by them.
use vstd::prelude::*;

verus! {

/// Failures armed against a log's I/O, and a count of the flushes that
/// succeeded.
#[derive(Debug, Clone, Copy, PartialEq, Eq)]
pub struct Faults {
    fail_syncs: usize,
    short_write: Option<usize>,
    fail_truncates: usize,
    syncs: usize,
}

impl Faults {
    /// Flushes still to be refused.
    pub closed spec fn failing_syncs(&self) -> usize {
        self.fail_syncs
    }

    /// Where the next write is to stop, if it is to.
    pub closed spec fn short_write_at(&self) -> Option<usize> {
        self.short_write
    }

    /// Rewinds still to be refused.
    pub closed spec fn failing_truncates(&self) -> usize {
        self.fail_truncates
    }

    /// Flushes that have succeeded.
    pub closed spec fn sync_count(&self) -> usize {
        self.syncs
    }

    /// Creates a set of faults with nothing armed.
    pub fn new() -> (f: Self)
        ensures
            f.failing_syncs() == 0,
            f.short_write_at() is None,
            f.failing_truncates() == 0,
            f.sync_count() == 0,
    {
        Faults { fail_syncs: 0, short_write: None, fail_truncates: 0, syncs: 0 }
    }

    /// Makes the next `count` flushes fail.
    pub fn fail_next_syncs(&mut self, count: usize)
        ensures
            final(self).failing_syncs() == count,
            final(self).short_write_at() == old(self).short_write_at(),
            final(self).failing_truncates() == old(self).failing_truncates(),
            final(self).sync_count() == old(self).sync_count(),
    {
        self.fail_syncs = count;
    }

    /// Makes the next `count` rewinds fail.
    ///
    /// A failed rewind is what leaves torn bytes in a segment that cannot be
    /// removed, which is the only way to reach the poisoned path.
    pub fn fail_next_truncates(&mut self, count: usize)
        ensures
            final(self).failing_truncates() == count,
            final(self).failing_syncs() == old(self).failing_syncs(),
            final(self).short_write_at() == old(self).short_write_at(),
            final(self).sync_count() == old(self).sync_count(),
    {
        self.fail_truncates = count;
    }

    /// Makes the next write stop after `bytes` and fail.
    pub fn shorten_next_write(&mut self, bytes: usize)
        ensures
            final(self).short_write_at() == Some(bytes),
            final(self).failing_syncs() == old(self).failing_syncs(),
            final(self).failing_truncates() == old(self).failing_truncates(),
            final(self).sync_count() == old(self).sync_count(),
    {
        self.short_write = Some(bytes);
    }

    /// Returns how many flushes have succeeded.
    pub fn syncs(&self) -> (n: usize)
        ensures
            n == self.sync_count(),
    {
        self.syncs
    }

    /// Consumes an armed short write against a write of `len` bytes: how many
    /// of them to write before failing, or `None` to write them all.
    pub fn take_short_write(&mut self, len: usize) -> (cut: Option<usize>)
        ensures
            cut == (match old(self).short_write_at() {
                Some(limit) => Some(if limit < len {
                    limit
                } else {
                    len
                }),
                None => None::<usize>,
            }),
            final(self).short_write_at() is None,
            final(self).failing_syncs() == old(self).failing_syncs(),
            final(self).failing_truncates() == old(self).failing_truncates(),
            final(self).sync_count() == old(self).sync_count(),
    {
        let armed = self.short_write;
        self.short_write = None;
        match armed {
            Some(limit) => Some(if limit < len {
                limit
            } else {
                len
            }),
            None => None,
        }
    }

    /// Consumes an armed flush failure: whether this flush is to fail.
    pub fn take_sync_failure(&mut self) -> (fail: bool)
        ensures
            fail == (old(self).failing_syncs() > 0),
            final(self).failing_syncs() == if fail {
                (old(self).failing_syncs() - 1) as usize
            } else {
                0
            },
            final(self).short_write_at() == old(self).short_write_at(),
            final(self).failing_truncates() == old(self).failing_truncates(),
            final(self).sync_count() == old(self).sync_count(),
    {
        if self.fail_syncs > 0 {
            self.fail_syncs = self.fail_syncs - 1;
            true
        } else {
            false
        }
    }

    /// Consumes an armed rewind failure: whether this rewind is to fail.
    pub fn take_truncate_failure(&mut self) -> (fail: bool)
        ensures
            fail == (old(self).failing_truncates() > 0),
            final(self).failing_truncates() == if fail {
                (old(self).failing_truncates() - 1) as usize
            } else {
                0
            },
            final(self).failing_syncs() == old(self).failing_syncs(),
            final(self).short_write_at() == old(self).short_write_at(),
            final(self).sync_count() == old(self).sync_count(),
    {
        if self.fail_truncates > 0 {
            self.fail_truncates = self.fail_truncates - 1;
            true
        } else {
            false
        }
    }

    /// Records a flush that succeeded; the count wraps as an atomic counter's would.
    pub fn record_sync(&mut self)
        ensures
            final(self).sync_count() == if old(self).sync_count() == usize::MAX {
                0
            } else {
                (old(self).sync_count() + 1) as usize
            },
            final(self).failing_syncs() == old(self).failing_syncs(),
            final(self).short_write_at() == old(self).short_write_at(),
            final(self).failing_truncates() == old(self).failing_truncates(),
    {
        self.syncs = if self.syncs == usize::MAX {
            0
        } else {
            self.syncs + 1
        };
    }
}

} // verus!
