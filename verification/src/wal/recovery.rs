//! Recovery: reading the log's segments back and replaying what the store
//! has not applied.
//!
//! Records are numbered from one across the whole log; a segment's name
//! carries the number of records written before it, so numbering survives
//! the removal of the segments a checkpoint made redundant.
use vstd::prelude::*;

use crate::mvcc::error::ErrorKind as StoreErrorKind;
use crate::mvcc::mutation::{Mutation, MutationView};
use crate::mvcc::revision::WIRE_MAX;
use crate::mvcc::store::{apply_all, batch_view, KvStore};
use crate::storage_api::engine::StorageEngine;
use crate::wal::error::{Error, ErrorKind};
use crate::wal::batch::{flattened, log_bytes};
use crate::wal::record::{self, encodable, lemma_record_prefix_truncated, lemma_record_round_trip, record_decoding, record_frame};

use crate::mvcc::meta::{applied_key_bytes, position_bytes};

verus! {

/// What reading a segment's bytes gives: the mutations of its complete
/// records in order, the bytes they occupy, and whether a record cut short
/// ends it; or the kind of damage that stops it.
#[verifier::opaque]
pub open spec fn scan_segment(bytes: Seq<u8>) -> Result<(Seq<MutationView>, nat, bool), ErrorKind>
    decreases bytes.len(),
{
    if bytes.len() == 0 {
        Ok((Seq::empty(), 0, false))
    } else {
        match record_decoding(bytes) {
            Ok((m, width)) => if 0 < width <= bytes.len() {
                match scan_segment(bytes.subrange(width as int, bytes.len() as int)) {
                    Ok((ms, valid, torn)) => Ok((seq![m] + ms, width + valid, torn)),
                    Err(kind) => Err(kind),
                }
            } else {
                Err(ErrorKind::Corrupt)
            },
            Err(ErrorKind::Truncated) => Ok((Seq::empty(), 0, true)),
            Err(kind) => Err(kind),
        }
    }
}

/// A scan of the bytes after `valid` of them, seen from the start of the segment.
pub open spec fn scan_after(
    done: Seq<MutationView>,
    valid: nat,
    rest: Result<(Seq<MutationView>, nat, bool), ErrorKind>,
) -> Result<(Seq<MutationView>, nat, bool), ErrorKind> {
    match rest {
        Ok((ms, v, torn)) => Ok((done + ms, valid + v, torn)),
        Err(kind) => Err(kind),
    }
}

/// How many of a segment's `n` records, the first numbered `first + 1`, the
/// store has already applied up to `applied`.
pub open spec fn already_applied(first: u64, applied: u64, n: nat) -> nat {
    if applied <= first {
        0
    } else if applied - first >= n {
        n
    } else {
        (applied - first) as nat
    }
}

/// What recovery has found in the segments read so far.
pub struct RecoveryView {
    /// Mutations the store has not applied, in log order.
    pub pending: Seq<MutationView>,
    /// The number of the last record read.
    pub seen: u64,
    /// Bytes of complete records in the last segment read.
    pub valid: nat,
}

/// Recovery over the first `n` of `segments`, each its starting number and
/// bytes, in ascending order.
///
/// A segment that ends mid-record is refused as corrupt unless it is the
/// last one: rollover happens only at a batch boundary, so a sealed segment
/// cut short means records went missing. So is a segment whose records run
/// past the largest record number.
pub open spec fn recovery_within(segments: Seq<(u64, Seq<u8>)>, applied: u64, n: nat) -> Result<RecoveryView, ErrorKind>
    decreases n,
{
    if n == 0 || n > segments.len() {
        Ok(RecoveryView { pending: Seq::empty(), seen: 0, valid: 0 })
    } else {
        match recovery_within(segments, applied, (n - 1) as nat) {
            Err(kind) => Err(kind),
            Ok(st) => {
                let (first, bytes) = segments[n - 1];
                match scan_segment(bytes) {
                    Err(kind) => Err(kind),
                    Ok((ms, valid, torn)) => if torn && n < segments.len() {
                        Err(ErrorKind::Corrupt)
                    } else if first + ms.len() > u64::MAX {
                        Err(ErrorKind::Corrupt)
                    } else {
                        Ok(
                            RecoveryView {
                                pending: st.pending + ms.skip(already_applied(first, applied, ms.len()) as int),
                                seen: (first + ms.len()) as u64,
                                valid,
                            },
                        )
                    },
                }
            },
        }
    }
}

/// Recovery over all of `segments`.
pub open spec fn recovery_of(segments: Seq<(u64, Seq<u8>)>, applied: u64) -> Result<RecoveryView, ErrorKind> {
    recovery_within(segments, applied, segments.len())
}

/// The mathematical form of a list of segments.
pub open spec fn segments_view(segments: Seq<(u64, Vec<u8>)>) -> Seq<(u64, Seq<u8>)> {
    segments.map_values(|s: (u64, Vec<u8>)| (s.0, s.1@))
}

/// What recovery read from the log.
#[derive(Debug)]
pub struct Replay {
    /// Mutations the store has not applied, in log order.
    pub pending: Vec<Mutation>,
    /// The number of the last record read.
    pub seen: u64,
    /// Bytes of complete records in the last segment: where appending resumes.
    pub valid: u64,
}

/// Reads one segment's records, as [`scan_segment`] describes.
pub fn read_segment(bytes: &[u8]) -> (r: Result<(Vec<Mutation>, usize, bool), Error>)
    ensures
        match scan_segment(bytes@) {
            Ok((ms, valid, torn)) => r matches Ok((got, v, t)) && got@.map_values(|m: Mutation| m@) == ms
                && v == valid && t == torn,
            Err(kind) => r matches Err(e) && e.kind_of() == kind,
        },
{
    reveal(scan_segment);
    let mut out: Vec<Mutation> = Vec::new();
    let mut offset: usize = 0;
    let n = bytes.len();
    proof {
        assert(bytes@.subrange(0, n as int) =~= bytes@);
        assert(out@.map_values(|m: Mutation| m@) =~= Seq::<MutationView>::empty());
    }
    while offset < n
        invariant
            n == bytes@.len(),
            offset <= n,
            scan_segment(bytes@) == scan_after(
                out@.map_values(|m: Mutation| m@),
                offset as nat,
                scan_segment(bytes@.subrange(offset as int, n as int)),
            ),
        decreases n - offset,
    {
        proof {
            reveal(scan_segment);
        }
        let ghost rest = bytes@.subrange(offset as int, n as int);
        let ghost before = out@.map_values(|m: Mutation| m@);
        let tail = vstd::slice::slice_subrange(bytes, offset, n);
        match record::decode(tail) {
            Ok((m, width)) => {
                if width == 0 || width > n - offset {
                    return Err(Error::corrupt("record claims an impossible width"));
                }
                proof {
                    assert(bytes@.subrange(offset + width, n as int) =~= rest.subrange(width as int, rest.len() as int));
                }
                out.push(m);
                offset = offset + width;
                proof {
                    assert(out@.map_values(|m: Mutation| m@) =~= before.push(m@));
                    assert(before.push(m@) + Seq::<MutationView>::empty() =~= before + seq![m@]);
                    match scan_segment(bytes@.subrange(offset as int, n as int)) {
                        Ok((ms, v, t)) => {
                            assert(before + (seq![m@] + ms) =~= before.push(m@) + ms);
                        },
                        Err(_) => {},
                    }
                }
            },
            Err(e) => {
                if e.is_truncated() {
                    proof {
                        assert(out@.map_values(|m: Mutation| m@) + Seq::<MutationView>::empty() =~= out@.map_values(|m: Mutation| m@));
                    }
                    return Ok((out, offset, true));
                }
                return Err(e);
            },
        }
    }
    proof {
        assert(bytes@.subrange(offset as int, n as int) =~= Seq::<u8>::empty());
        assert(out@.map_values(|m: Mutation| m@) + Seq::<MutationView>::empty() =~= out@.map_values(|m: Mutation| m@));
    }
    Ok((out, offset, false))
}

/// Once recovery fails, reading further segments does not change the failure.
pub proof fn lemma_recovery_failure_persists(segments: Seq<(u64, Seq<u8>)>, applied: u64, n: nat, m: nat)
    requires
        n <= m <= segments.len(),
        recovery_within(segments, applied, n) is Err,
    ensures
        recovery_within(segments, applied, m) == recovery_within(segments, applied, n),
    decreases m,
{
    if m > n {
        lemma_recovery_failure_persists(segments, applied, n, (m - 1) as nat);
    }
}

/// Reads every segment, ascending, collecting what the store has not yet
/// applied up to `applied`, as [`recovery_of`] describes.
pub fn plan_recovery(segments: &[(u64, Vec<u8>)], applied: u64) -> (r: Result<Replay, Error>)
    ensures
        match recovery_of(segments_view(segments@), applied) {
            Ok(st) => r matches Ok(replay) && replay.pending@.map_values(|m: Mutation| m@) == st.pending
                && replay.seen == st.seen && replay.valid == st.valid,
            Err(kind) => r matches Err(e) && e.kind_of() == kind,
        },
        r matches Ok(replay) ==> (segments@.len() == 0 ==> replay.valid == 0),
        r matches Ok(replay) ==> (segments@.len() > 0 ==> replay.valid <= segments@.last().1@.len()),
{
    proof {
        if recovery_of(segments_view(segments@), applied) is Ok {
            lemma_recovery_resumes_in_last_segment(segments_view(segments@), applied);
            if segments@.len() > 0 {
                assert(segments_view(segments@).last() == (segments@.last().0, segments@.last().1@));
            }
        }
    }
    let ghost sv = segments_view(segments@);
    let mut pending: Vec<Mutation> = Vec::new();
    let mut seen: u64 = 0;
    let mut valid: u64 = 0;
    let count = segments.len();
    let mut i: usize = 0;
    while i < count
        invariant
            sv == segments_view(segments@),
            count == sv.len(),
            i <= count,
            recovery_within(sv, applied, i as nat) matches Ok(st) && pending@.map_values(|m: Mutation| m@)
                == st.pending && seen == st.seen && valid == st.valid,
        decreases count - i,
    {
        let first = segments[i].0;
        let bytes = segments[i].1.as_slice();
        proof {
            assert(sv[i as int] == (first, bytes@));
        }
        let (ms, width, torn) = match read_segment(bytes) {
            Ok(found) => found,
            Err(e) => {
                proof {
                    lemma_recovery_failure_persists(sv, applied, (i + 1) as nat, count as nat);
                }
                return Err(e);
            },
        };
        if torn && i + 1 < count {
            proof {
                lemma_recovery_failure_persists(sv, applied, (i + 1) as nat, count as nat);
            }
            return Err(Error::corrupt("a sealed segment ends mid-record"));
        }
        let k = ms.len();
        if first > u64::MAX - k as u64 {
            proof {
                lemma_recovery_failure_persists(sv, applied, (i + 1) as nat, count as nat);
            }
            return Err(Error::corrupt("segment records run past the largest record number"));
        }
        let skip: usize = if applied <= first {
            0
        } else if applied - first >= k as u64 {
            k
        } else {
            (applied - first) as usize
        };
        let ghost before = pending@.map_values(|m: Mutation| m@);
        let ghost msv = ms@.map_values(|m: Mutation| m@);
        let mut ms = ms;
        let mut fresh = ms.split_off(skip);
        pending.append(&mut fresh);
        proof {
            assert(pending@.map_values(|m: Mutation| m@) =~= before + msv.skip(skip as int));
        }
        seen = first + k as u64;
        valid = width as u64;
        i = i + 1;
    }
    Ok(Replay { pending, seen, valid })
}

/// Replays into `store` whatever of the log it has not applied, returning
/// how many bytes of the last segment hold complete records: where appending
/// resumes.
///
/// The replayed mutations are applied as one batch, recording the number of
/// the last record read as the applied position. A damaged log fails as
/// [`recovery_of`] describes, and a store with no revisions left for the
/// batch, or one that refuses it, fails as a refused batch; in every failure
/// the store is left as it was.
pub fn recover<E: StorageEngine>(store: &mut KvStore<E>, segments: &[(u64, Vec<u8>)]) -> (r: Result<u64, Error>)
    requires
        old(store).wf(),
    ensures
        final(store).wf(),
        match recovery_of(segments_view(segments@), old(store).applied_position()) {
            Err(kind) => (r matches Err(e) && e.kind_of() == kind) && final(store).same_contents(old(store)),
            Ok(st) => if st.pending.len() == 0 {
                r == Ok::<u64, Error>(st.valid as u64) && final(store).same_contents(old(store))
            } else if old(store).current().0 + st.pending.len() >= WIRE_MAX {
                (r matches Err(e) && e.kind_of() == ErrorKind::Apply) && final(store).same_contents(old(store))
            } else {
                match r {
                    Ok(v) => {
                        let s = apply_all(old(store).apply_start(), st.pending);
                        &&& v == st.valid
                        &&& final(store).history() == s.history
                        &&& final(store).current() == s.current
                        &&& final(store).applied_position() == st.seen
                        &&& final(store).backend() == s.backend.insert(applied_key_bytes(), position_bytes(st.seen))
                        &&& final(store).watermark() == old(store).watermark()
                    },
                    Err(e) => e.kind_of() == ErrorKind::Apply && final(store).same_contents(old(store)),
                }
            },
        },
{
    let applied = store.applied();
    let replay = match plan_recovery(segments, applied) {
        Ok(p) => p,
        Err(e) => return Err(e),
    };
    if replay.pending.len() == 0 {
        return Ok(replay.valid);
    }
    let current = store.current_revision().main();
    if current >= WIRE_MAX || WIRE_MAX - current <= replay.pending.len() as u64 {
        return Err(Error::apply("the store has no revisions left for the log's records"));
    }
    match store.apply(replay.pending.as_slice(), replay.seen) {
        Ok(_) => {
            proof {
                assert(batch_view(replay.pending@) =~= replay.pending@.map_values(|m: Mutation| m@));
            }
            Ok(replay.valid)
        },
        Err(e) => Err(Error::apply(e.message().as_str())),
    }
}

} // verus!

verus! {

/// A segment holding the records of `ms`, then possibly a record cut short,
/// reads back exactly `ms`, in order: what a log wrote is what recovery
/// replays, and a torn final record is dropped without losing the records
/// before it.
pub proof fn lemma_log_replays_in_order(ms: Seq<MutationView>, torn: Seq<u8>)
    requires
        forall|i: int| 0 <= i < ms.len() ==> encodable(#[trigger] ms[i]),
        torn.len() == 0 || exists|m: MutationView, cut: nat|
            encodable(m) && cut < record_frame(m).len() && torn == #[trigger] record_frame(m).take(cut as int) && cut > 0,
    ensures
        scan_segment(log_bytes(ms) + torn) == Ok::<(Seq<MutationView>, nat, bool), ErrorKind>(
            (ms, log_bytes(ms).len(), torn.len() > 0),
        ),
    decreases ms.len(),
{
    if ms.len() == 0 {
        reveal(scan_segment);
        assert(log_bytes(ms) + torn =~= torn);
        if torn.len() > 0 {
            let (m, cut) = choose|m: MutationView, cut: nat|
                encodable(m) && cut < record_frame(m).len() && torn == #[trigger] record_frame(m).take(cut as int) && cut > 0;
            lemma_record_prefix_truncated(m, cut);
            assert(record_decoding(torn) == Err::<(MutationView, nat), ErrorKind>(ErrorKind::Truncated));
        }
        assert(log_bytes(ms).len() == 0);
        assert(ms =~= Seq::<MutationView>::empty());
    } else {
        let first = ms[0];
        let rest = ms.drop_first();
        assert forall|i: int| 0 <= i < rest.len() implies encodable(#[trigger] rest[i]) by {
            assert(rest[i] == ms[i + 1]);
        }
        lemma_log_replays_in_order(rest, torn);
        lemma_log_bytes_first(ms);
        let tail = log_bytes(rest) + torn;
        assert(log_bytes(ms) + torn =~= record_frame(first) + tail);
        lemma_scan_step(first, tail);
        assert(seq![first] + rest =~= ms);
        assert(scan_segment(tail) == Ok::<(Seq<MutationView>, nat, bool), ErrorKind>((rest, log_bytes(rest).len(), torn.len() > 0)));
        assert(log_bytes(ms).len() == record_frame(first).len() + log_bytes(rest).len());
        assert(scan_segment(log_bytes(ms) + torn) == scan_segment(record_frame(first) + tail));
        assert(scan_segment(record_frame(first) + tail) == scan_after(seq![first], record_frame(first).len(), scan_segment(tail)));
    }
}

/// Reading a segment that begins with a whole record reads that record,
/// then the rest.
proof fn lemma_scan_step(m: MutationView, tail: Seq<u8>)
    requires
        encodable(m),
    ensures
        scan_segment(record_frame(m) + tail) == scan_after(seq![m], record_frame(m).len(), scan_segment(tail)),
{
    reveal(scan_segment);
    let whole = record_frame(m) + tail;
    lemma_record_round_trip(m, tail);
    let w = record_frame(m).len();
    lemma_frame_width(m);
    assert(whole.subrange(w as int, whole.len() as int) =~= tail);
    match scan_segment(tail) {
        Ok((ms, v, t)) => {
            assert(seq![m] + ms =~= seq![m] + ms);
        },
        Err(_) => {},
    }
}

/// A log's bytes begin with its first record.
proof fn lemma_log_bytes_first(ms: Seq<MutationView>)
    requires
        ms.len() > 0,
    ensures
        log_bytes(ms) == record_frame(ms[0]) + log_bytes(ms.drop_first()),
    decreases ms.len(),
{
    if ms.len() == 1 {
        assert(ms.drop_last() =~= Seq::<MutationView>::empty());
        assert(ms.drop_first() =~= Seq::<MutationView>::empty());
        assert(Seq::<u8>::empty() + record_frame(ms[0]) =~= record_frame(ms[0]) + Seq::<u8>::empty());
    } else {
        lemma_log_bytes_first(ms.drop_last());
        assert(ms.drop_last().drop_first() =~= ms.drop_first().drop_last());
        assert(ms.drop_first().last() == ms.last());
        assert(ms.drop_last()[0] == ms[0]);
        assert(record_frame(ms[0]) + log_bytes(ms.drop_first().drop_last()) + record_frame(ms.last())
            =~= record_frame(ms[0]) + (log_bytes(ms.drop_first().drop_last()) + record_frame(ms.last())));
    }
}

/// A record is never empty.
proof fn lemma_frame_width(m: MutationView)
    ensures
        record_frame(m).len() >= 8,
{
}

} // verus!

verus! {

/// The segments a log holding `batches` is written as: one per batch, each
/// named after the number of records written before it.
pub open spec fn log_segments(batches: Seq<Seq<MutationView>>) -> Seq<(u64, Seq<u8>)> {
    Seq::new(batches.len(), |i: int| (flattened(batches, i as nat).len() as u64, log_bytes(batches[i])))
}

/// The lesser of two numbers.
pub open spec fn at_most(a: int, b: int) -> int {
    if a < b {
        a
    } else {
        b
    }
}

/// Recovering a log replays exactly the records written after the position
/// the store had applied, in the order they were written, and resumes
/// numbering after the last of them: nothing acknowledged is lost, and
/// nothing applied is applied twice.
pub proof fn lemma_recovery_replays_unapplied(batches: Seq<Seq<MutationView>>, applied: u64)
    requires
        forall|i: int, j: int|
            0 <= i < batches.len() && 0 <= j < batches[i].len() ==> encodable(#[trigger] batches[i][j]),
        flattened(batches, batches.len()).len() <= u64::MAX,
    ensures
        ({
            let all = flattened(batches, batches.len());
            recovery_of(log_segments(batches), applied) matches Ok(st) && st.pending == all.skip(
                at_most(applied as int, all.len() as int),
            ) && st.seen == all.len()
        }),
{
    lemma_recovery_prefix(batches, applied, batches.len());
}

/// [`lemma_recovery_replays_unapplied`] over the first `n` segments.
proof fn lemma_recovery_prefix(batches: Seq<Seq<MutationView>>, applied: u64, n: nat)
    requires
        forall|i: int, j: int|
            0 <= i < batches.len() && 0 <= j < batches[i].len() ==> encodable(#[trigger] batches[i][j]),
        flattened(batches, batches.len()).len() <= u64::MAX,
        n <= batches.len(),
    ensures
        ({
            let all = flattened(batches, n);
            recovery_within(log_segments(batches), applied, n) matches Ok(st) && st.pending == all.skip(
                at_most(applied as int, all.len() as int),
            ) && st.seen == all.len()
        }),
    decreases n,
{
    let segs = log_segments(batches);
    if n == 0 {
        assert(flattened(batches, 0).skip(0) =~= Seq::<MutationView>::empty());
    } else {
        lemma_recovery_prefix(batches, applied, (n - 1) as nat);
        lemma_flattened_grows(batches, n, batches.len());
        let b = batches[n - 1];
        let prev = flattened(batches, (n - 1) as nat);
        let all = flattened(batches, n);
        assert(all == prev + b);
        assert forall|j: int| 0 <= j < b.len() implies encodable(#[trigger] b[j]) by {
            assert(encodable(batches[n - 1][j]));
        }
        lemma_log_replays_in_order(b, Seq::empty());
        assert(log_bytes(b) + Seq::<u8>::empty() =~= log_bytes(b));
        assert(segs[n - 1] == (prev.len() as u64, log_bytes(b)));
        let a = applied as int;
        if a <= prev.len() {
            assert(all.skip(a) =~= prev.skip(a) + b.skip(0));
        } else if a < all.len() {
            assert(all.skip(a) =~= prev.skip(prev.len() as int) + b.skip(a - prev.len()));
        } else {
            assert(all.skip(all.len() as int) =~= prev.skip(prev.len() as int) + b.skip(b.len() as int));
        }
    }
}

/// More batches hold at least as many mutations.
proof fn lemma_flattened_grows(batches: Seq<Seq<MutationView>>, n: nat, m: nat)
    requires
        n <= m <= batches.len(),
    ensures
        flattened(batches, n).len() <= flattened(batches, m).len(),
    decreases m,
{
    if m > n {
        lemma_flattened_grows(batches, n, (m - 1) as nat);
    }
}

/// The complete records a scan finds never run past the bytes scanned.
pub proof fn lemma_scan_within(bytes: Seq<u8>)
    ensures
        scan_segment(bytes) matches Ok((ms, valid, torn)) ==> valid <= bytes.len(),
    decreases bytes.len(),
{
    reveal(scan_segment);
    if bytes.len() > 0 {
        if let Ok((m, width)) = record_decoding(bytes) {
            if 0 < width <= bytes.len() {
                lemma_scan_within(bytes.subrange(width as int, bytes.len() as int));
            }
        }
    }
}

/// Recovery resumes appending in the last segment: the offset it reports is
/// the end of the complete records that segment holds, never past its
/// bytes, whatever the earlier segments hold; with no segment it is zero.
pub proof fn lemma_recovery_resumes_in_last_segment(segments: Seq<(u64, Seq<u8>)>, applied: u64)
    requires
        recovery_of(segments, applied) is Ok,
    ensures
        segments.len() == 0 ==> recovery_of(segments, applied)->Ok_0.valid == 0,
        segments.len() > 0 ==> {
            &&& recovery_of(segments, applied)->Ok_0.valid <= segments.last().1.len()
            &&& scan_segment(segments.last().1) matches Ok((ms, valid, torn))
                && recovery_of(segments, applied)->Ok_0.valid == valid
        },
{
    if segments.len() > 0 {
        lemma_scan_within(segments.last().1);
        assert(segments[segments.len() - 1] == segments.last());
    }
}

/// A log whose last segment holds the records of `ms`, then possibly a
/// record cut short, resumes exactly at the end of those records, whatever
/// the earlier segments hold.
pub proof fn lemma_recovery_resumes_after_last_records(
    segments: Seq<(u64, Seq<u8>)>,
    applied: u64,
    ms: Seq<MutationView>,
    torn: Seq<u8>,
)
    requires
        segments.len() > 0,
        segments.last().1 == log_bytes(ms) + torn,
        forall|i: int| 0 <= i < ms.len() ==> encodable(#[trigger] ms[i]),
        torn.len() == 0 || exists|m: MutationView, cut: nat|
            encodable(m) && cut < record_frame(m).len() && torn == #[trigger] record_frame(m).take(cut as int) && cut > 0,
        recovery_of(segments, applied) is Ok,
    ensures
        recovery_of(segments, applied)->Ok_0.valid == log_bytes(ms).len(),
{
    lemma_log_replays_in_order(ms, torn);
    lemma_recovery_resumes_in_last_segment(segments, applied);
}

} // verus!
