//! The decisions of the log's writer: which writes share a flush, when a
//! batch is retired, and when the log checkpoints itself.
//!
//! The writer is a loop over a queue of messages, each a write or a request
//! to checkpoint. Everything already queued joins the batch the first message
//! opened, up to [`MAX_BATCH`] writes, so that they all share one flush; the
//! batch is then retired, and a checkpoint follows when one was asked for or
//! enough has been appended since the last one. The loop itself, with the
//! queue, the files and the answers, belongs to the program; it performs each
//! action [`writer_step`] names and reports back what came of it.
//!
//! Retiring a batch is itself a sequence, [`retire_step`]: the batch is
//! encoded, the segment rolled over if full, the records appended and
//! flushed, and only then applied to the store, so that no write becomes
//! visible, or is acknowledged, before it is durable.
use vstd::prelude::*;

use crate::wal::batch::MAX_BATCH;
use crate::wal::options::{checkpoint_due, Options};

verus! {

/// What the writer holds between messages.
#[derive(Debug, Clone, Copy, PartialEq, Eq)]
pub struct WriterState {
    /// Writes gathered into the batch being formed.
    pub batched: usize,
    /// Whether a checkpoint has been asked for and not yet run.
    pub requested: bool,
    /// Bytes appended to the log since the last checkpoint that succeeded.
    pub appended: u64,
}

/// What the writer learns from the action it last performed.
#[derive(Debug, Clone, Copy, PartialEq, Eq)]
pub enum WriterEvent {
    /// A message arrived: a write, or, when `checkpoint`, a request to checkpoint.
    Received { checkpoint: bool },
    /// Nothing more was waiting in the queue.
    QueueEmpty,
    /// The batch was retired, successfully or not, after appending `bytes`
    /// bytes to the log (none when it failed before appending).
    Retired { bytes: u64 },
    /// A checkpoint ran, and succeeded when `ok`.
    CheckpointDone { ok: bool },
}

/// What the writer does next.
#[derive(Debug, Clone, Copy, PartialEq, Eq)]
pub enum WriterAction {
    /// Wait for the next message.
    Receive,
    /// Take another message if one is already waiting, without waiting.
    TakeMore,
    /// Retire the batch: append it, flush it, apply it, answer its writers.
    Retire,
    /// Checkpoint the log, answering the request for it when `requested`.
    Checkpoint { requested: bool },
}

impl WriterState {
    /// A writer with nothing gathered, nothing asked for and nothing appended.
    pub fn new() -> (s: Self)
        ensures
            s == (WriterState { batched: 0, requested: false, appended: 0 }),
    {
        WriterState { batched: 0, requested: false, appended: 0 }
    }
}

/// `a + b`, or `u64::MAX` when that does not fit.
pub open spec fn saturating(a: u64, b: u64) -> u64 {
    if a + b > u64::MAX {
        u64::MAX
    } else {
        (a + b) as u64
    }
}

/// What follows a retired batch, or a gathered one with no write in it:
/// the checkpoint asked for, else one that is due, else waiting again.
pub open spec fn after_batch(s: WriterState, options: Options) -> (WriterState, WriterAction) {
    if s.requested {
        (WriterState { requested: false, ..s }, WriterAction::Checkpoint { requested: true })
    } else if s.appended >= options.checkpoint_interval {
        (s, WriterAction::Checkpoint { requested: false })
    } else {
        (s, WriterAction::Receive)
    }
}

/// What follows once the batch stops growing: retiring it when it holds a
/// write, and otherwise what follows a batch.
pub open spec fn after_gathering(s: WriterState, options: Options) -> (WriterState, WriterAction) {
    if s.batched > 0 {
        (s, WriterAction::Retire)
    } else {
        after_batch(s, options)
    }
}

/// The writer's next state and action, given what it learned.
///
/// A message joins the batch (a write) or marks a checkpoint as asked for;
/// while the batch holds fewer than [`MAX_BATCH`] writes the writer takes
/// whatever else is waiting, and once nothing is or the batch is full it
/// retires the batch. A retired batch adds what it appended to the count,
/// saturating. A checkpoint that succeeds clears the count; one that fails
/// leaves it.
pub open spec fn next_writer(s: WriterState, event: WriterEvent, options: Options) -> (WriterState, WriterAction) {
    match event {
        WriterEvent::Received { checkpoint } => {
            let s2 = if checkpoint {
                WriterState { requested: true, ..s }
            } else {
                WriterState { batched: (s.batched + 1) as usize, ..s }
            };
            if s2.batched < MAX_BATCH {
                (s2, WriterAction::TakeMore)
            } else {
                after_gathering(s2, options)
            }
        },
        WriterEvent::QueueEmpty => after_gathering(s, options),
        WriterEvent::Retired { bytes } => after_batch(
            WriterState { batched: 0, appended: saturating(s.appended, bytes), ..s },
            options,
        ),
        WriterEvent::CheckpointDone { ok } => (
            if ok {
                WriterState { appended: 0, ..s }
            } else {
                s
            },
            WriterAction::Receive,
        ),
    }
}

/// Advances the writer by what it learned, returning what to do next, as
/// [`next_writer`] describes.
pub fn writer_step(state: &mut WriterState, event: WriterEvent, options: &Options) -> (a: WriterAction)
    requires
        old(state).batched <= MAX_BATCH,
        event == (WriterEvent::Received { checkpoint: false }) ==> old(state).batched < MAX_BATCH,
    ensures
        (*final(state), a) == next_writer(*old(state), event, *options),
        final(state).batched <= MAX_BATCH,
        event matches WriterEvent::Retired { bytes } ==> {
            &&& final(state).batched == 0
            &&& final(state).appended as int == if old(state).appended + bytes > u64::MAX {
                u64::MAX as int
            } else {
                old(state).appended + bytes
            }
            &&& a == if old(state).requested {
                WriterAction::Checkpoint { requested: true }
            } else if final(state).appended >= options.checkpoint_interval {
                WriterAction::Checkpoint { requested: false }
            } else {
                WriterAction::Receive
            }
        },
        event matches WriterEvent::CheckpointDone { ok } ==> {
            &&& final(state).appended == if ok {
                0
            } else {
                old(state).appended
            }
            &&& a == WriterAction::Receive
        },
        event matches WriterEvent::Received { checkpoint } ==> {
            &&& final(state).appended == old(state).appended
            &&& final(state).batched == if checkpoint {
                old(state).batched as int
            } else {
                old(state).batched + 1
            }
            &&& final(state).requested == (old(state).requested || checkpoint)
        },
{
    match event {
        WriterEvent::Received { checkpoint } => {
            if checkpoint {
                state.requested = true;
            } else {
                state.batched = state.batched + 1;
            }
            if state.batched < MAX_BATCH {
                WriterAction::TakeMore
            } else {
                gathered(state, options)
            }
        },
        WriterEvent::QueueEmpty => gathered(state, options),
        WriterEvent::Retired { bytes } => {
            state.batched = 0;
            state.appended = if state.appended > u64::MAX - bytes {
                u64::MAX
            } else {
                state.appended + bytes
            };
            batch_done(state, options)
        },
        WriterEvent::CheckpointDone { ok } => {
            if ok {
                state.appended = 0;
            }
            WriterAction::Receive
        },
    }
}

/// What follows once the batch stops growing.
fn gathered(state: &mut WriterState, options: &Options) -> (a: WriterAction)
    ensures
        (*final(state), a) == after_gathering(*old(state), *options),
{
    if state.batched > 0 {
        WriterAction::Retire
    } else {
        batch_done(state, options)
    }
}

/// What follows a batch.
fn batch_done(state: &mut WriterState, options: &Options) -> (a: WriterAction)
    ensures
        (*final(state), a) == after_batch(*old(state), *options),
{
    if state.requested {
        state.requested = false;
        WriterAction::Checkpoint { requested: true }
    } else if checkpoint_due(options, state.appended) {
        WriterAction::Checkpoint { requested: false }
    } else {
        WriterAction::Receive
    }
}

/// The writer takes another message only while its batch has room, retires
/// only a batch holding a write, runs an asked-for checkpoint before any
/// other, runs one unasked exactly when enough has been appended, and clears
/// its count of appended bytes only when a checkpoint succeeds.
pub proof fn lemma_writer_decisions(s: WriterState, event: WriterEvent, options: Options)
    requires
        s.batched <= MAX_BATCH,
        event == (WriterEvent::Received { checkpoint: false }) ==> s.batched < MAX_BATCH,
    ensures
        ({
            let (s2, a) = next_writer(s, event, options);
            &&& a == WriterAction::TakeMore ==> s2.batched < MAX_BATCH && event is Received
            &&& a == WriterAction::Retire ==> s2.batched > 0
            &&& a == (WriterAction::Checkpoint { requested: true }) ==> s.requested && !s2.requested
            &&& a == (WriterAction::Checkpoint { requested: false }) ==> !s.requested && s2.appended
                >= options.checkpoint_interval
            &&& s2.appended < s.appended ==> event == (WriterEvent::CheckpointDone { ok: true }) && s2.appended == 0
            &&& (event is Retired && !s.requested && s2.appended < options.checkpoint_interval) ==> a
                == WriterAction::Receive
        }),
{
}

/// The writer after each of `events` in turn.
pub open spec fn run_writer(s: WriterState, events: Seq<WriterEvent>, options: Options) -> WriterState
    decreases events.len(),
{
    if events.len() == 0 {
        s
    } else {
        next_writer(run_writer(s, events.drop_last(), options), events.last(), options).0
    }
}

/// The bytes the retired batches among `events` appended, in all.
pub open spec fn retired_bytes(events: Seq<WriterEvent>) -> int
    decreases events.len(),
{
    if events.len() == 0 {
        0
    } else {
        retired_bytes(events.drop_last()) + match events.last() {
            WriterEvent::Retired { bytes } => bytes as int,
            _ => 0,
        }
    }
}

/// The writer's count of appended bytes is the sum of what every batch
/// retired since its last successful checkpoint appended, counted from
/// where it stood: it saturates at `u64::MAX`, and only a checkpoint that
/// succeeds clears it.
pub proof fn lemma_appended_sums(s: WriterState, events: Seq<WriterEvent>, options: Options)
    requires
        forall|i: int| 0 <= i < events.len() ==> events[i] != (WriterEvent::CheckpointDone { ok: true }),
    ensures
        run_writer(s, events, options).appended as int == if s.appended + retired_bytes(events) > u64::MAX {
            u64::MAX as int
        } else {
            s.appended + retired_bytes(events)
        },
    decreases events.len(),
{
    if events.len() > 0 {
        lemma_appended_sums(s, events.drop_last(), options);
        lemma_retired_bytes_nonnegative(events.drop_last());
        assert(events.last() == events[events.len() - 1]);
    }
}

/// Retired batches never appended a negative number of bytes.
proof fn lemma_retired_bytes_nonnegative(events: Seq<WriterEvent>)
    ensures
        retired_bytes(events) >= 0,
    decreases events.len(),
{
    if events.len() > 0 {
        lemma_retired_bytes_nonnegative(events.drop_last());
    }
}

/// The writer checkpoints itself, unasked, right after a retired batch
/// exactly when the bytes appended since its last successful checkpoint,
/// summed, reach the interval.
pub proof fn lemma_checkpoint_when_sum_reaches_interval(s: WriterState, bytes: u64, options: Options)
    requires
        !s.requested,
    ensures
        ({
            let (s2, a) = next_writer(s, WriterEvent::Retired { bytes }, options);
            &&& s2.appended as int == if s.appended + bytes > u64::MAX {
                u64::MAX as int
            } else {
                s.appended + bytes
            }
            &&& (a == (WriterAction::Checkpoint { requested: false })) == (s.appended + bytes
                >= options.checkpoint_interval)
            &&& (a == WriterAction::Receive) == (s.appended + bytes < options.checkpoint_interval)
        }),
{
}

/// Where retiring a batch stands.
#[derive(Debug, Clone, Copy, PartialEq, Eq)]
pub enum RetireStage {
    /// The batch is to be encoded into log records.
    Encoding,
    /// The segment is full and a new one is to be started.
    RollingOver,
    /// The records are to be appended to the segment and flushed.
    Appending,
    /// The records are durable, and the batch is to be applied to the store.
    Applying,
    /// The writers are to be answered: with their revisions when `ok`,
    /// with the failure otherwise.
    Answering { ok: bool },
}

/// What comes after `stage`, given whether it succeeded and, after
/// encoding, whether the segment is full.
///
/// Any failure goes straight to answering with it. Encoding leads to rolling
/// over when the segment is full, and to appending otherwise; rolling over
/// leads to appending; appending and flushing, and only that, lead to
/// applying; and applying leads to answering with the revisions.
pub open spec fn next_retire(stage: RetireStage, ok: bool, full: bool) -> RetireStage {
    if !ok {
        RetireStage::Answering { ok: false }
    } else {
        match stage {
            RetireStage::Encoding => if full {
                RetireStage::RollingOver
            } else {
                RetireStage::Appending
            },
            RetireStage::RollingOver => RetireStage::Appending,
            RetireStage::Appending => RetireStage::Applying,
            RetireStage::Applying => RetireStage::Answering { ok: true },
            RetireStage::Answering { ok } => RetireStage::Answering { ok },
        }
    }
}

/// Advances the retiring of a batch, as [`next_retire`] describes.
pub fn retire_step(stage: RetireStage, ok: bool, full: bool) -> (next: RetireStage)
    ensures
        next == next_retire(stage, ok, full),
        next == RetireStage::Applying <==> stage == RetireStage::Appending && ok,
        next == (RetireStage::Answering { ok: true }) ==> stage == RetireStage::Applying || stage == (
        RetireStage::Answering { ok: true }),
{
    if !ok {
        return RetireStage::Answering { ok: false };
    }
    match stage {
        RetireStage::Encoding => if full {
            RetireStage::RollingOver
        } else {
            RetireStage::Appending
        },
        RetireStage::RollingOver => RetireStage::Appending,
        RetireStage::Appending => RetireStage::Applying,
        RetireStage::Applying => RetireStage::Answering { ok: true },
        RetireStage::Answering { ok } => RetireStage::Answering { ok },
    }
}

} // verus!
