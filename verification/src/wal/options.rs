//! How a log is opened.
use vstd::prelude::*;

use crate::wal::segment::SEGMENT_LIMIT;

verus! {

/// Bytes appended between the checkpoints a log takes on its own: four
/// segments' worth by default.
pub const CHECKPOINT_INTERVAL: u64 = 268435456;

/// How a log is opened.
#[derive(Debug, Clone, Copy, PartialEq, Eq)]
pub struct Options {
    /// Size at which a segment is closed and a new one started.
    pub segment_limit: u64,
    /// Bytes appended after which the log checkpoints itself.
    pub checkpoint_interval: u64,
}

impl Default for Options {
    fn default() -> (o: Self)
        ensures
            o.segment_limit == SEGMENT_LIMIT,
            o.checkpoint_interval == CHECKPOINT_INTERVAL,
    {
        Options { segment_limit: SEGMENT_LIMIT, checkpoint_interval: CHECKPOINT_INTERVAL }
    }
}

/// Whether the log should checkpoint itself, having appended `appended`
/// bytes since the last checkpoint.
pub fn checkpoint_due(options: &Options, appended: u64) -> (due: bool)
    ensures
        due == (appended >= options.checkpoint_interval),
{
    appended >= options.checkpoint_interval
}

} // verus!
