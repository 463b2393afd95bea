use vstd::prelude::*;

use crate::bytes::copy_bytes;
use crate::mvcc::error::{Error, ErrorKind};
use crate::mvcc::index::{
    accepts, compact_map, dropped_over, hist_compact, hist_delete, hist_dropped, hist_put, hist_wf, history_of, holds,
    is_visible_range, latest_main, lemma_compact_latest, lemma_compact_preserves_reads,
    lemma_compaction_preserves_key_reads, lemma_delete_holds, lemma_dropped_not_kept, lemma_dropped_over_from,
    lemma_held_fits, lemma_observed_is_held, lemma_put_holds, lemma_unheld_above, lemma_unshared_compact,
    lemma_unshared_insert, live, observe, revisions_unshared, FoundView, HistView, Index,
};
use crate::mvcc::meta::{applied_key_bytes, compacted_key_bytes, compaction_bytes, position_bytes};
use crate::mvcc::mutation::{Mutation, MutationView};
use crate::mvcc::record::{self, lemma_record_key_injective, record_bytes, record_key, record_parts, MAX_KEY_LEN};
use crate::mvcc::revision::{rev_le, rev_lt, Revision, WIRE_MAX};
use crate::mvcc::rebuild::{
    compaction_marker, is_scan_prefix, replay_record, lemma_apply_keeps_backend_replayable, rev_max, lemma_apply_step_replays, lemma_scan_complete,
    lemma_scan_extends, lemma_scan_len, lemma_tombstones_replay, marker_position, next_page, record_range, replay,
    replays_to, Rebuilt,
};
use crate::sorted_map::strictly_ascending;
use crate::storage_api::bounds::Bounds;
use crate::storage_api::engine::{is_range_of, pair_views, Keyspace, ReadTxn, StorageEngine, WriteTxn};

verus! {

/// Records read per page when rebuilding the index at startup.
pub const SCAN_PAGE: usize = 1024;

/// Records removed per backend transaction during compaction.
pub const COMPACT_CHUNK: usize = 1024;

/// A key/value pair as observed at some revision.
#[derive(Debug, Clone, PartialEq, Eq)]
pub struct Record {
    /// The user key.
    pub key: Vec<u8>,
    /// The stored value.
    pub value: Vec<u8>,
    /// Revision at which this key's current incarnation was created.
    pub created: Revision,
    /// Revision of the write this record reflects.
    pub modified: Revision,
    /// Number of writes since creation, starting at one.
    pub version: u64,
}

/// The mathematical form of a [`Record`].
pub struct RecordView {
    pub key: Seq<u8>,
    pub value: Seq<u8>,
    pub created: (u64, u64),
    pub modified: (u64, u64),
    pub version: u64,
}

impl View for Record {
    type V = RecordView;

    open spec fn view(&self) -> RecordView {
        RecordView {
            key: self.key@,
            value: self.value@,
            created: self.created@,
            modified: self.modified@,
            version: self.version,
        }
    }
}

/// The value the backend holds for the write at revision `r`, if its record
/// is present and readable.
pub open spec fn stored_value(backend: Keyspace, r: (u64, u64)) -> Option<Seq<u8>> {
    let k = record_key(r, false);
    if backend.contains_key(k) {
        match record_parts(backend[k]) {
            Some((_, v)) => Some(v),
            None => None,
        }
    } else {
        None
    }
}

/// Whether `rec` is what a read reports for `key` having observed `f`,
/// with the value the backend holds for that write.
pub open spec fn reports(rec: RecordView, key: Seq<u8>, f: FoundView, backend: Keyspace) -> bool {
    &&& rec.key == key
    &&& rec.created == f.created
    &&& rec.modified == f.modified
    &&& rec.version == f.version
    &&& stored_value(backend, f.modified) == Some(rec.value)
}

/// The number of results a `limit` allows out of `n` candidates.
pub open spec fn capped(n: nat, limit: Option<usize>) -> nat {
    match limit {
        Some(l) => if l < n {
            l as nat
        } else {
            n
        },
        None => n,
    }
}

/// The revision a read at `at` resolves to, `None` meaning the current one.
pub open spec fn resolved(at: Option<u64>, current: (u64, u64)) -> u64 {
    match at {
        Some(a) => a,
        None => current.0,
    }
}

/// Whether no key within `bounds` exists at revision `at` in `history`.
pub open spec fn none_visible(
    history: Map<Seq<u8>, HistView>,
    bounds: crate::storage_api::bounds::BoundsView,
    at: u64,
) -> bool {
    forall|k: Seq<u8>| #[trigger] history.contains_key(k) && bounds.contains(k) ==> observe(history[k], at) is None
}

/// The histories after deleting each of `keys[..n]`, the `i`th at
/// revision `(main, i)`.
pub open spec fn tombstone_all(m: Map<Seq<u8>, HistView>, keys: Seq<Seq<u8>>, main: u64, n: nat) -> Map<Seq<u8>, HistView>
    decreases n,
{
    if n == 0 || n > keys.len() {
        m
    } else {
        let prior = tombstone_all(m, keys, main, (n - 1) as nat);
        let k = keys[n - 1];
        match hist_delete(history_of(prior, k), (main, (n - 1) as u64)) {
            Some(h) => prior.insert(k, h),
            None => prior,
        }
    }
}

/// The backend after writing a deletion record for each of `keys[..n]`,
/// the `i`th at revision `(main, i)`.
pub open spec fn tombstone_records(b: Keyspace, keys: Seq<Seq<u8>>, main: u64, n: nat) -> Keyspace
    decreases n,
{
    if n == 0 || n > keys.len() {
        b
    } else {
        tombstone_records(b, keys, main, (n - 1) as nat).insert(
            record_key((main, (n - 1) as u64), true),
            record_bytes(keys[n - 1], Seq::empty()),
        )
    }
}

/// The backend after removing both records of each of the first `n`
/// revisions of `revs`.
pub open spec fn without_records(b: Keyspace, revs: Seq<(u64, u64)>, n: nat) -> Keyspace
    decreases n,
{
    if n == 0 || n > revs.len() {
        b
    } else {
        without_records(b, revs, (n - 1) as nat).remove(record_key(revs[n - 1], false)).remove(
            record_key(revs[n - 1], true),
        )
    }
}

/// Whether `b2` holds what `b1` holds under the compaction marker's key.
pub open spec fn same_marker(b1: Keyspace, b2: Keyspace) -> bool {
    &&& b1.contains_key(compacted_key_bytes()) == b2.contains_key(compacted_key_bytes())
    &&& b1.contains_key(compacted_key_bytes()) ==> b1[compacted_key_bytes()] == b2[compacted_key_bytes()]
}

/// No revision record sits under the compaction marker's key.
pub proof fn lemma_record_key_not_marker(r: (u64, u64), tombstone: bool)
    ensures
        record_key(r, tombstone) != compacted_key_bytes(),
{
    assert(record_key(r, tombstone)[0] != compacted_key_bytes()[0]);
}

/// Keyspaces that agree under the compaction marker's key record the same compaction.
pub proof fn lemma_same_marker(b1: Keyspace, b2: Keyspace)
    requires
        same_marker(b1, b2),
    ensures
        compaction_marker(b1) == compaction_marker(b2),
{
}

/// Writing deletion records leaves the compaction marker alone.
pub proof fn lemma_tombstones_keep_marker(b: Keyspace, keys: Seq<Seq<u8>>, main: u64, n: nat)
    ensures
        same_marker(b, tombstone_records(b, keys, main, n)),
    decreases n,
{
    if n > 0 && n <= keys.len() {
        lemma_tombstones_keep_marker(b, keys, main, (n - 1) as nat);
        lemma_record_key_not_marker((main, (n - 1) as u64), true);
    }
}

/// Removing revision records leaves the compaction marker alone.
pub proof fn lemma_removals_keep_marker(b: Keyspace, revs: Seq<(u64, u64)>, n: nat)
    ensures
        same_marker(b, without_records(b, revs, n)),
    decreases n,
{
    if n > 0 && n <= revs.len() {
        lemma_removals_keep_marker(b, revs, (n - 1) as nat);
        lemma_record_key_not_marker(revs[n - 1], false);
        lemma_record_key_not_marker(revs[n - 1], true);
    }
}

/// Whether every read at or after `at` observes in `h2` the write it
/// observed in `h1`, and finds the same value for it in `b2` as in `b1`.
pub open spec fn reads_preserved(
    h1: Map<Seq<u8>, HistView>,
    b1: Keyspace,
    h2: Map<Seq<u8>, HistView>,
    b2: Keyspace,
    at: u64,
) -> bool {
    forall|key: Seq<u8>, x: u64|
        at <= x ==> {
            &&& #[trigger] observe(history_of(h2, key), x) == observe(history_of(h1, key), x)
            &&& (observe(history_of(h1, key), x) matches Some(f) ==> stored_value(b2, f.modified) == stored_value(
                b1,
                f.modified,
            ))
        }
}

/// After compaction at `at`, a range read at or after `at` lists the same
/// keys with the same observations, and every write it observes has the same
/// value in the backend: it returns exactly the records it returned before.
pub proof fn lemma_compaction_preserves_range_reads(
    h1: Map<Seq<u8>, HistView>,
    b1: Keyspace,
    b2: Keyspace,
    at: u64,
    bounds: crate::storage_api::bounds::BoundsView,
    x: u64,
    vis: Seq<(Seq<u8>, FoundView)>,
)
    requires
        forall|k: Seq<u8>| #[trigger] h1.contains_key(k) ==> hist_wf(h1[k]),
        reads_preserved(h1, b1, compact_map(h1, at), b2, at),
        at <= x,
    ensures
        is_visible_range(vis, compact_map(h1, at), bounds, x) == is_visible_range(vis, h1, bounds, x),
        is_visible_range(vis, h1, bounds, x) ==> forall|i: int|
            0 <= i < vis.len() ==> stored_value(b2, (#[trigger] vis[i]).1.modified) == stored_value(b1, vis[i].1.modified),
{
    crate::mvcc::index::lemma_compaction_preserves_ranges(h1, at, bounds, x, vis);
    if is_visible_range(vis, h1, bounds, x) {
        assert forall|i: int| 0 <= i < vis.len() implies stored_value(b2, (#[trigger] vis[i]).1.modified) == stored_value(
            b1,
            vis[i].1.modified,
        ) by {
            let key = vis[i].0;
            assert(h1.contains_key(key));
            assert(history_of(h1, key) == h1[key]);
            assert(observe(history_of(compact_map(h1, at), key), x) == observe(history_of(h1, key), x));
        }
    }
}

/// Removing the records of revisions other than `r` leaves the value stored
/// for `r` alone.
pub proof fn lemma_without_records_keeps(b: Keyspace, revs: Seq<(u64, u64)>, n: nat, r: (u64, u64))
    requires
        n <= revs.len(),
        forall|i: int| 0 <= i < n ==> record_key(#[trigger] revs[i], false) != record_key(r, false) && record_key(
            revs[i],
            true,
        ) != record_key(r, false),
    ensures
        stored_value(without_records(b, revs, n), r) == stored_value(b, r),
    decreases n,
{
    if n > 0 {
        lemma_without_records_keeps(b, revs, (n - 1) as nat, r);
        assert(record_key(revs[n - 1], false) != record_key(r, false));
    }
}

/// Compaction at `at` leaves every read of every key at or after `at`
/// observing the same write, and finding the same value for it in the
/// backend, however many of the dropped revisions' records are removed.
pub proof fn lemma_compaction_preserves_values(
    m: Map<Seq<u8>, HistView>,
    keys: Seq<Seq<u8>>,
    at: u64,
    b: Keyspace,
    k: nat,
    key: Seq<u8>,
    x: u64,
)
    requires
        forall|j: Seq<u8>| #[trigger] m.contains_key(j) ==> hist_wf(m[j]),
        revisions_unshared(m),
        forall|i: int| 0 <= i < keys.len() ==> m.contains_key(#[trigger] keys[i]),
        k <= dropped_over(keys, m, at, keys.len()).len(),
        at <= x,
    ensures
        observe(history_of(compact_map(m, at), key), x) == observe(history_of(m, key), x),
        observe(history_of(m, key), x) matches Some(f) ==> stored_value(
            without_records(b, dropped_over(keys, m, at, keys.len()), k),
            f.modified,
        ) == stored_value(b, f.modified),
{
    lemma_compaction_preserves_key_reads(m, at, key, x);
    if let Some(f) = observe(history_of(m, key), x) {
        let d = dropped_over(keys, m, at, keys.len());
        let r = f.modified;
        assert(m.contains_key(key));
        lemma_observed_is_held(m[key], x);
        lemma_held_fits(m[key], r);
        assert forall|i: int| 0 <= i < k implies record_key(#[trigger] d[i], false) != record_key(r, false) && record_key(
            d[i],
            true,
        ) != record_key(r, false) by {
            assert(d.contains(d[i]));
            lemma_dropped_over_from(keys, m, at, keys.len(), d[i]);
            let j = choose|j: int| 0 <= j < keys.len() && #[trigger] hist_dropped(m[keys[j]], at).contains(d[i]);
            let owner = keys[j];
            lemma_dropped_not_kept(m[owner], at, d[i]);
            lemma_held_fits(m[owner], d[i]);
            if record_key(d[i], false) == record_key(r, false) || record_key(d[i], true) == record_key(r, false) {
                if record_key(d[i], false) == record_key(r, false) {
                    lemma_record_key_injective(d[i], false, r, false);
                } else {
                    lemma_record_key_injective(d[i], true, r, false);
                }
                assert(d[i] == r);
                assert(holds(m[owner], r) && holds(m[key], r));
                assert(owner == key);
                let c = compact_map(m, at);
                lemma_compact_preserves_reads(m[key], at, x);
                assert(observe(hist_compact(m[key], at), x) == Some(f));
                crate::mvcc::index::lemma_compact_wf(m[key], at);
                lemma_observed_is_held(hist_compact(m[key], at), x);
            }
        }
        lemma_without_records_keeps(b, d, k, r);
    }
}

/// Compaction at `at` leaves every range read at or after `at` reporting
/// exactly what it reported before: the same keys, observations and values,
/// for any bounds and limit. (Reads below `at` are refused afterwards, since
/// compaction moves the watermark to `at`.)
pub proof fn lemma_compaction_keeps_range_results<E: StorageEngine>(
    before: KvStore<E>,
    after: KvStore<E>,
    at: u64,
    bounds: crate::storage_api::bounds::BoundsView,
    x: u64,
    limit: Option<usize>,
    records: Seq<RecordView>,
)
    requires
        before.wf(),
        after.history() == compact_map(before.history(), at),
        reads_preserved(before.history(), before.backend(), after.history(), after.backend(), at),
        at <= x,
    ensures
        before.range_reports(bounds, x, limit, records) <==> after.range_reports(bounds, x, limit, records),
{
    before.index.lemma_all_histories();
    let h1 = before.history();
    if before.range_reports(bounds, x, limit, records) {
        let vis = choose|vis: Seq<(Seq<u8>, FoundView)>|
            {
                &&& #[trigger] is_visible_range(vis, before.history(), bounds, x)
                &&& records.len() == capped(vis.len(), limit)
                &&& forall|i: int| 0 <= i < records.len() ==> reports(#[trigger] records[i], vis[i].0, vis[i].1, before.backend())
            };
        lemma_compaction_preserves_range_reads(h1, before.backend(), after.backend(), at, bounds, x, vis);
        assert(is_visible_range(vis, after.history(), bounds, x));
        assert forall|i: int| 0 <= i < records.len() implies reports(#[trigger] records[i], vis[i].0, vis[i].1, after.backend()) by {
            assert(reports(records[i], vis[i].0, vis[i].1, before.backend()));
            assert(stored_value(after.backend(), vis[i].1.modified) == stored_value(before.backend(), vis[i].1.modified));
        }
    }
    if after.range_reports(bounds, x, limit, records) {
        let vis = choose|vis: Seq<(Seq<u8>, FoundView)>|
            {
                &&& #[trigger] is_visible_range(vis, after.history(), bounds, x)
                &&& records.len() == capped(vis.len(), limit)
                &&& forall|i: int| 0 <= i < records.len() ==> reports(#[trigger] records[i], vis[i].0, vis[i].1, after.backend())
            };
        lemma_compaction_preserves_range_reads(h1, before.backend(), after.backend(), at, bounds, x, vis);
        assert(is_visible_range(vis, before.history(), bounds, x));
        assert forall|i: int| 0 <= i < records.len() implies reports(#[trigger] records[i], vis[i].0, vis[i].1, before.backend()) by {
            assert(reports(records[i], vis[i].0, vis[i].1, after.backend()));
            assert(stored_value(after.backend(), vis[i].1.modified) == stored_value(before.backend(), vis[i].1.modified));
        }
    }
}

/// A store reopened over the backend of a store whose compaction the backend
/// records refuses the reads that store refuses: the watermark survives the
/// reopening, and the reopened store's current revision is not before the
/// revision the marker records.
pub proof fn lemma_reopen_keeps_watermark<E: StorageEngine>(before: KvStore<E>, after: KvStore<E>)
    requires
        before.persisted(),
        after.reopens(before.backend()),
    ensures
        after.watermark() == before.watermark(),
        compaction_marker(before.backend()) matches Some((w, floor)) && rev_le(floor, after.current()),
{
}

/// A store reopened over the backend a compaction left behind hands out no
/// revision the compacted store handed out: its current revision is not
/// before that store's, and its watermark is that store's.
pub proof fn lemma_reopen_after_compaction<E: StorageEngine>(before: KvStore<E>, after: KvStore<E>)
    requires
        compaction_marker(before.backend()) == Some((before.watermark(), before.current())),
        after.reopens(before.backend()),
    ensures
        after.watermark() == before.watermark(),
        rev_le(before.current(), after.current()),
{
}

/// A compaction leaves nothing to drop at its watermark: compacting again
/// there drops nothing, so (by the contract of [`KvStore::compact`]) it
/// touches nothing and removes nothing.
pub proof fn lemma_compact_again_drops_nothing<E: StorageEngine>(before: KvStore<E>, after: KvStore<E>, at: u64)
    requires
        before.wf(),
        after.wf(),
        after.history() == compact_map(before.history(), at),
    ensures
        dropped_over(after.key_order(), after.history(), at, after.key_order().len()) == Seq::<(u64, u64)>::empty(),
{
    before.index.lemma_all_histories();
    after.index.lemma_key_order();
    let keys = after.key_order();
    assert forall|i: int| 0 <= i < keys.len() implies compact_map(before.history(), at).contains_key(#[trigger] keys[i]) by {
        assert(keys.contains(keys[i]));
    }
    crate::mvcc::index::lemma_compaction_idempotent(before.history(), keys, at, keys.len());
}

/// The state a batch of mutations is applied to, and what applying it yields.
pub struct ApplyState {
    pub history: Map<Seq<u8>, HistView>,
    pub current: (u64, u64),
    pub revisions: Seq<(u64, u64)>,
    pub backend: Keyspace,
}

/// Applies one mutation at the revision after the current one.
///
/// A put is recorded as a write, and a deletion of a key that currently
/// exists as a deletion record. A deletion of a key that does not exist
/// records nothing and consumes no revision; it reports the current one.
pub open spec fn apply_step(s: ApplyState, m: MutationView) -> ApplyState {
    let r = ((s.current.0 + 1) as u64, 0u64);
    match m {
        MutationView::Put { key, value } => ApplyState {
            history: s.history.insert(key, hist_put(history_of(s.history, key), r)),
            current: r,
            revisions: s.revisions.push(r),
            backend: s.backend.insert(record_key(r, false), record_bytes(key, value)),
        },
        MutationView::Delete { key } => match hist_delete(history_of(s.history, key), r) {
            Some(h) => ApplyState {
                history: s.history.insert(key, h),
                current: r,
                revisions: s.revisions.push(r),
                backend: s.backend.insert(record_key(r, true), record_bytes(key, Seq::empty())),
            },
            None => ApplyState { revisions: s.revisions.push(s.current), ..s },
        },
    }
}

/// Applying a batch writes revision records only, and leaves the
/// compaction marker alone.
pub proof fn lemma_apply_keeps_marker(s: ApplyState, batch: Seq<MutationView>)
    ensures
        same_marker(s.backend, apply_all(s, batch).backend),
    decreases batch.len(),
{
    if batch.len() > 0 {
        lemma_apply_keeps_marker(s, batch.drop_last());
        let prior = apply_all(s, batch.drop_last());
        let r = ((prior.current.0 + 1) as u64, 0u64);
        lemma_record_key_not_marker(r, false);
        lemma_record_key_not_marker(r, true);
    }
}

/// Applying a batch never moves the current revision back.
pub proof fn lemma_apply_current_grows(s: ApplyState, batch: Seq<MutationView>)
    requires
        s.current.0 + batch.len() < WIRE_MAX,
    ensures
        rev_le(s.current, apply_all(s, batch).current),
        apply_all(s, batch).current.0 <= s.current.0 + batch.len(),
    decreases batch.len(),
{
    if batch.len() > 0 {
        lemma_apply_current_grows(s, batch.drop_last());
    }
}

/// Applies `batch` in order.
pub open spec fn apply_all(s: ApplyState, batch: Seq<MutationView>) -> ApplyState
    decreases batch.len(),
{
    if batch.len() == 0 {
        s
    } else {
        apply_step(apply_all(s, batch.drop_last()), batch.last())
    }
}

/// Whether `key` exists after the first `j` mutations of `batch`, given
/// whether it existed before them: decided by the last of them to name it.
pub open spec fn scan_live(batch: Seq<MutationView>, j: int, key: Seq<u8>, before: bool) -> bool
    decreases j,
{
    if j <= 0 {
        before
    } else if batch[j - 1].key() == key {
        batch[j - 1] is Put
    } else {
        scan_live(batch, j - 1, key, before)
    }
}

/// Whether every key of a batch fits a record's length prefix.
pub open spec fn keys_fit(batch: Seq<Mutation>) -> bool {
    forall|i: int| 0 <= i < batch.len() ==> (#[trigger] batch[i])@.key().len() <= MAX_KEY_LEN
}

/// The mathematical form of a batch of mutations.
pub open spec fn batch_view(batch: Seq<Mutation>) -> Seq<MutationView> {
    batch.map_values(|m: Mutation| m@)
}

/// Whether a key exists partway through a batch is decided by the last
/// mutation before that point to name it, or else by whether it existed before.
pub proof fn lemma_apply_live(s: ApplyState, batch: Seq<MutationView>, i: int, key: Seq<u8>)
    requires
        0 <= i <= batch.len(),
    ensures
        live(history_of(apply_all(s, batch.take(i)).history, key)) == scan_live(
            batch,
            i,
            key,
            live(history_of(s.history, key)),
        ),
    decreases i,
{
    if i == 0 {
        assert(batch.take(0) =~= Seq::<MutationView>::empty());
    } else {
        lemma_apply_live(s, batch, i - 1, key);
        assert(batch.take(i).drop_last() =~= batch.take(i - 1));
        let prior = apply_all(s, batch.take(i - 1));
        let r = ((prior.current.0 + 1) as u64, 0u64);
        let h = history_of(prior.history, batch[i - 1].key());
        if h.len() > 0 && !h.last().closed {
            assert(hist_put(h, r).last().closed == false);
        }
    }
}

/// A revision-indexed keyspace over a storage backend.
///
/// Every write advances a global revision, and past revisions
/// stay readable until compacted away.
///
/// Reads take `&self` and writes `&mut self`, so the borrow rules serialize
/// writers against each other and against readers; sharing a store between
/// threads is the caller's business, behind whatever lock suits it.
pub struct KvStore<E: StorageEngine> {
    engine: E,
    index: Index,
    current: Revision,
    compacted: u64,
    applied: u64,
}

impl<E: StorageEngine> KvStore<E> {
    /// Each key's revision history.
    pub closed spec fn history(&self) -> Map<Seq<u8>, HistView> {
        self.index.view()
    }

    /// The keys the store tracks, ascending.
    pub closed spec fn key_order(&self) -> Seq<Seq<u8>> {
        self.index.key_order()
    }

    /// The revision of the most recent write.
    pub closed spec fn current(&self) -> (u64, u64) {
        self.current@
    }

    /// The compaction watermark: reads below it are refused.
    pub closed spec fn watermark(&self) -> u64 {
        self.compacted
    }

    /// How far the write-ahead log has been applied.
    pub closed spec fn applied_position(&self) -> u64 {
        self.applied
    }

    /// The backend's committed keyspace.
    pub closed spec fn backend(&self) -> Keyspace {
        self.engine.committed()
    }

    /// Whether the backend's revision records, replayed in ascending key
    /// order, rebuild exactly this store's history and current revision: what
    /// a store reopened over the backend would hold.
    pub open spec fn rebuildable(&self) -> bool {
        replays_to(self.backend(), self.history(), self.current())
    }

    /// Whether the backend records this store's compaction: its watermark,
    /// with a revision not after the current one. A store reopened over the
    /// backend then refuses the reads this one refuses.
    pub open spec fn persisted(&self) -> bool {
        compaction_marker(self.backend()) matches Some((w, floor)) && w == self.watermark() && rev_le(
            floor,
            self.current(),
        )
    }

    /// Whether this store is what opening a store over `backend` yields:
    /// the watermark its compaction marker records, the histories its
    /// revision records replay to, and the later of the revision the marker
    /// records and the latest record as the current revision.
    pub open spec fn reopens(&self, backend: Keyspace) -> bool {
        &&& self.backend() == backend
        &&& compaction_marker(backend) matches Some((w, floor)) && {
            &&& self.watermark() == w
            &&& exists|s: Seq<(Seq<u8>, Seq<u8>)>|
                #[trigger] is_range_of(s, backend, record_range(), None) && (replay(s) matches Some(rb)
                    && rb.history == self.history() && self.current() == rev_max(rb.current, floor))
            &&& self.current() == floor || self.rebuildable()
        }
    }

    /// Whether `records` are what a range read of `bounds` at revision `at`,
    /// capped at `limit`, reports: the keys visible at `at`, ascending and
    /// capped, each with the write it observes and the value the backend
    /// holds for that write.
    pub open spec fn range_reports(
        &self,
        bounds: crate::storage_api::bounds::BoundsView,
        at: u64,
        limit: Option<usize>,
        records: Seq<RecordView>,
    ) -> bool {
        exists|vis: Seq<(Seq<u8>, FoundView)>|
            {
                &&& #[trigger] is_visible_range(vis, self.history(), bounds, at)
                &&& records.len() == capped(vis.len(), limit)
                &&& forall|i: int| 0 <= i < records.len() ==> reports(#[trigger] records[i], vis[i].0, vis[i].1, self.backend())
            }
    }

    /// Whether `other` holds exactly what this store holds.
    pub open spec fn same_contents(&self, other: &Self) -> bool {
        &&& self.history() == other.history()
        &&& self.current() == other.current()
        &&& self.watermark() == other.watermark()
        &&& self.applied_position() == other.applied_position()
        &&& self.backend() == other.backend()
    }

    /// The store's invariant: a well-formed index none of whose revisions
    /// is newer than the current one or held by two keys, and a watermark
    /// not ahead of the current revision.
    pub closed spec fn wf(&self) -> bool {
        &&& self.index.wf()
        &&& revisions_unshared(self.index.view())
        &&& self.compacted <= self.current@.0
        &&& self.current@.0 <= WIRE_MAX
        &&& forall|k: Seq<u8>|
            #[trigger] self.index.view().contains_key(k) ==> (latest_main(self.index.view()[k]) matches Some(
                m,
            ) && m <= self.current@.0)
    }

    /// The keys the store tracks, in [`key_order`](Self::key_order), are
    /// exactly the keys with a history, ascending.
    pub proof fn lemma_key_order(&self)
        requires
            self.wf(),
        ensures
            strictly_ascending(self.key_order()),
            forall|k: Seq<u8>| self.history().contains_key(k) <==> #[trigger] self.key_order().contains(k),
    {
        self.index.lemma_key_order();
    }

    /// Returns the revision of the most recent write.
    pub fn current_revision(&self) -> (r: Revision)
        ensures
            r@ == self.current(),
    {
        self.current
    }

    /// Returns how far the write-ahead log has been applied to this store.
    pub fn applied(&self) -> (p: u64)
        ensures
            p == self.applied_position(),
    {
        self.applied
    }

    /// Checks a requested read revision against the store's history.
    fn resolve(&self, at: Option<u64>) -> (r: Result<u64, Error>)
        ensures
            ({
                let a = resolved(at, self.current());
                match r {
                    Ok(v) => v == a && a <= self.current().0 && self.watermark() <= a,
                    Err(e) => if a > self.current().0 {
                        e.kind_of() == (ErrorKind::FutureRevision { requested: a, current: self.current().0 })
                    } else {
                        a < self.watermark() && e.kind_of() == (ErrorKind::Compacted {
                            requested: a,
                            watermark: self.watermark(),
                        })
                    },
                }
            }),
    {
        let current = self.current.main();
        let at = match at {
            Some(a) => a,
            None => current,
        };
        if at > current {
            return Err(Error::future_revision(at, current));
        }
        if at < self.compacted {
            return Err(Error::compacted(at, self.compacted));
        }
        Ok(at)
    }

    /// Returns the keys within `bounds` as they were at revision `at`.
    ///
    /// `at` of `None` reads the current revision.
    /// A `limit` caps the number of records returned, taken in ascending key order.
    ///
    /// A read ahead of the current revision is refused as a future revision,
    /// and one below the compaction watermark as compacted. Otherwise the
    /// records are those the index shows visible at `at`, each with the value
    /// the backend holds for the write it observes. A backend failure is
    /// reported as a storage error, and a visible write whose record the
    /// backend lacks as corruption.
    pub fn range(&self, bounds: &Bounds, at: Option<u64>, limit: Option<usize>) -> (r: Result<Vec<Record>, Error>)
        requires
            self.wf(),
        ensures
            r matches Ok(records) ==> self.range_reports(
                bounds@,
                resolved(at, self.current()),
                limit,
                records@.map_values(|rec: Record| rec@),
            ),
            r matches Ok(records) ==> forall|i: int|
                0 <= i < records@.len() ==> {
                    &&& (#[trigger] records@[i]).modified@.0 <= resolved(at, self.current())
                    &&& rev_le(records@[i].created@, records@[i].modified@)
                    &&& records@[i].version >= 1
                },
            ({
                let a = resolved(at, self.current());
                if a > self.current().0 {
                    r matches Err(e) && e.kind_of() == (ErrorKind::FutureRevision {
                        requested: a,
                        current: self.current().0,
                    })
                } else if a < self.watermark() {
                    r matches Err(e) && e.kind_of() == (ErrorKind::Compacted {
                        requested: a,
                        watermark: self.watermark(),
                    })
                } else {
                    exists|vis: Seq<(Seq<u8>, FoundView)>| {
                        &&& #[trigger] is_visible_range(vis, self.history(), bounds@, a)
                        &&& match r {
                            Ok(records) => {
                                &&& records@.len() == capped(vis.len(), limit)
                                &&& forall|i: int|
                                    0 <= i < records@.len() ==> reports(
                                        #[trigger] records@[i]@,
                                        vis[i].0,
                                        vis[i].1,
                                        self.backend(),
                                    )
                            },
                            Err(e) => e.kind_of() is Storage || (e.kind_of() is Corrupt && exists|i: int|
                                0 <= i < capped(vis.len(), limit) && stored_value(
                                    self.backend(),
                                    (#[trigger] vis[i]).1.modified,
                                ) is None),
                        }
                    }
                }
            }),
    {
        let read_at = match self.resolve(at) {
            Ok(a) => a,
            Err(e) => return Err(e),
        };
        let visible = self.index.range(bounds, read_at);
        let ghost vis = visible@.map_values(|p: (Vec<u8>, crate::mvcc::index::Found)| (p.0@, p.1@));
        assert(is_visible_range(vis, self.history(), bounds@, read_at));
        let txn = match self.engine.begin_read() {
            Ok(t) => t,
            Err(e) => return Err(Error::storage(e)),
        };
        let mut records: Vec<Record> = Vec::new();
        let n = visible.len();
        let mut i: usize = 0;
        let mut full = match limit {
            Some(l) => l == 0,
            None => false,
        };
        while i < n && !full
            invariant
                vis == visible@.map_values(|p: (Vec<u8>, crate::mvcc::index::Found)| (p.0@, p.1@)),
                is_visible_range(vis, self.history(), bounds@, read_at),
                read_at == resolved(at, self.current()),
                read_at <= self.current().0,
                self.watermark() <= read_at,
                n == vis.len(),
                txn.keyspace() == self.backend(),
                i <= n,
                records@.len() == i,
                full == (limit matches Some(l) && i >= l),
                limit matches Some(l) ==> i <= l,
                forall|j: int| 0 <= j < i ==> reports(#[trigger] records@[j]@, vis[j].0, vis[j].1, self.backend()),
            decreases n - i,
        {
            let key = &visible[i].0;
            let found = visible[i].1;
            let record_key = record::backend_key(found.modified, false);
            let raw = match txn.get(record_key.as_slice()) {
                Ok(Some(raw)) => raw,
                Ok(None) => {
                    let e = Error::corrupt("index references a missing revision record");
                    assert(stored_value(self.backend(), vis[i as int].1.modified) is None);
                    return Err(e);
                },
                Err(e) => return Err(Error::storage(e)),
            };
            let value = match record::decode(raw.as_slice()) {
                Some((_, value)) => copy_bytes(value),
                None => {
                    assert(stored_value(self.backend(), vis[i as int].1.modified) is None);
                    return Err(Error::corrupt("truncated revision record"));
                },
            };
            records.push(
                Record {
                    key: copy_bytes(key.as_slice()),
                    value,
                    created: found.created,
                    modified: found.modified,
                    version: found.version,
                },
            );
            i = i + 1;
            full = match limit {
                Some(l) => i >= l,
                None => false,
            };
        }
        assert(records@.len() == capped(vis.len(), limit));
        proof {
            self.index.lemma_all_histories();
            let rv = records@.map_values(|rec: Record| rec@);
            assert forall|j: int| 0 <= j < rv.len() implies reports(#[trigger] rv[j], vis[j].0, vis[j].1, self.backend()) by {
                assert(rv[j] == records@[j]@);
            }
            assert forall|j: int| 0 <= j < records@.len() implies {
                &&& (#[trigger] records@[j]).modified@.0 <= resolved(at, self.current())
                &&& rev_le(records@[j].created@, records@[j].modified@)
                &&& records@[j].version >= 1
            } by {
                assert(reports(records@[j]@, vis[j].0, vis[j].1, self.backend()));
                assert(self.history().contains_key(vis[j].0));
                crate::mvcc::index::lemma_observed_sane(self.history()[vis[j].0], read_at);
            }
        }
        Ok(records)
    }
}

impl<E: StorageEngine> KvStore<E> {
    /// Every key accepts a write at a revision whose `main` is past the current one.
    proof fn lemma_fresh(&self, key: Seq<u8>, main: u64)
        requires
            self.wf(),
            self.current().0 < main,
        ensures
            accepts(history_of(self.history(), key), (main, 0u64)),
            forall|sub: u64| accepts(history_of(self.history(), key), (main, sub)),
    {
    }

    /// Writes `value` under `key`, returning the revision it was written at.
    ///
    /// On failure the backend write is not applied and the store's
    /// revision does not advance.
    pub fn put(&mut self, key: &[u8], value: &[u8]) -> (r: Result<Revision, Error>)
        requires
            old(self).wf(),
            old(self).current().0 < WIRE_MAX,
        ensures
            final(self).wf(),
            old(self).persisted() ==> final(self).persisted(),
            final(self).watermark() == old(self).watermark(),
            final(self).applied_position() == old(self).applied_position(),
            match r {
                Ok(rev) => {
                    &&& rev@ == ((old(self).current().0 + 1) as u64, 0u64)
                    &&& final(self).current() == rev@
                    &&& final(self).history() == old(self).history().insert(
                        key@,
                        hist_put(history_of(old(self).history(), key@), rev@),
                    )
                    &&& final(self).backend() == old(self).backend().insert(
                        record_key(rev@, false),
                        record_bytes(key@, value@),
                    )
                    &&& (old(self).rebuildable() && key@.len() <= MAX_KEY_LEN) ==> final(self).rebuildable()
                },
                Err(e) => {
                    &&& e.kind_of() is Storage
                    &&& final(self).current() == old(self).current()
                    &&& final(self).history() == old(self).history()
                    &&& final(self).backend() == old(self).backend()
                },
            },
    {
        let revision = self.current.next_main();
        let mut txn = match self.engine.begin_write() {
            Ok(t) => t,
            Err(e) => return Err(Error::storage(e)),
        };
        let record_key = record::backend_key(revision, false);
        let record = record::encode(key, value);
        match txn.insert(record_key.as_slice(), record.as_slice()) {
            Ok(()) => {},
            Err(e) => return Err(Error::storage(e)),
        }
        match self.engine.commit(txn) {
            Ok(()) => {},
            Err(e) => return Err(Error::storage(e)),
        }
        // Applied only after the backend commit, so a failed write
        // leaves the index true to what is on disk.
        proof {
            self.lemma_fresh(key@, revision@.0);
        }
        self.index.put(key, revision);
        self.current = revision;
        proof {
            let m = old(self).history();
            let h = history_of(m, key@);
            old(self).index.lemma_all_histories();
            lemma_unheld_above(m, old(self).current().0, revision@);
            assert forall|x: (u64, u64)| #[trigger] holds(hist_put(h, revision@), x) implies holds(h, x) || x == revision@ by {
                lemma_put_holds(h, revision@, x);
            }
            lemma_unshared_insert(m, key@, hist_put(h, revision@), revision@);
            assert forall|k: Seq<u8>| #[trigger] self.index.view().contains_key(k) implies (latest_main(self.index.view()[k]) matches Some(
                m,
            ) && m <= self.current@.0) by {
                if k == key@ {
                    let h = history_of(old(self).index.view(), key@);
                    if h.len() > 0 {
                        old(self).index.lemma_histories(key@);
                    }
                }
            }
        }
        proof {
            if old(self).rebuildable() && key@.len() <= MAX_KEY_LEN {
                lemma_apply_step_replays(old(self).apply_start(), MutationView::Put { key: key@, value: value@ });
            }
        }
        Ok(revision)
    }

    /// Deletes every key within `bounds`, returning the revision and the count.
    ///
    /// Every key visible at the current revision within `bounds` is deleted at
    /// the next revision, the `i`th of them at sub-revision `i`. Deleting
    /// nothing does not advance the revision. On failure nothing is deleted.
    pub fn delete_range(&mut self, bounds: &Bounds) -> (r: Result<(Revision, u64), Error>)
        requires
            old(self).wf(),
            old(self).current().0 < WIRE_MAX || none_visible(
                old(self).history(),
                bounds@,
                old(self).current().0,
            ),
        ensures
            final(self).wf(),
            old(self).persisted() ==> final(self).persisted(),
            final(self).watermark() == old(self).watermark(),
            final(self).applied_position() == old(self).applied_position(),
            exists|vis: Seq<(Seq<u8>, FoundView)>| {
                &&& #[trigger] is_visible_range(vis, old(self).history(), bounds@, old(self).current().0)
                &&& vis.len() == 0 ==> r is Ok
                &&& match r {
                    Ok((rev, count)) => {
                        &&& count == vis.len()
                        &&& final(self).current() == rev@
                        &&& if vis.len() == 0 {
                            &&& rev@ == old(self).current()
                            &&& final(self).history() == old(self).history()
                            &&& final(self).backend() == old(self).backend()
                        } else {
                            let keys = vis.map_values(|p: (Seq<u8>, FoundView)| p.0);
                            &&& rev@ == ((old(self).current().0 + 1) as u64, 0u64)
                            &&& final(self).history() == tombstone_all(old(self).history(), keys, rev@.0, keys.len())
                            &&& final(self).backend() == tombstone_records(old(self).backend(), keys, rev@.0, keys.len())
                            &&& (old(self).rebuildable() && forall|i: int|
                                0 <= i < keys.len() ==> (#[trigger] keys[i]).len() <= MAX_KEY_LEN) ==> replays_to(
                                final(self).backend(),
                                final(self).history(),
                                (rev@.0, (vis.len() - 1) as u64),
                            )
                        }
                    },
                    Err(e) => {
                        &&& e.kind_of() is Storage || e.kind_of() is Corrupt
                        &&& e.kind_of() is Corrupt ==> vis.len() > WIRE_MAX + 1
                        &&& final(self).current() == old(self).current()
                        &&& final(self).history() == old(self).history()
                        &&& final(self).backend() == old(self).backend()
                    },
                }
            },
    {
        let now = self.current.main();
        let visible = self.index.range(bounds, now);
        let ghost vis = visible@.map_values(|p: (Vec<u8>, crate::mvcc::index::Found)| (p.0@, p.1@));
        let ghost keys = vis.map_values(|p: (Seq<u8>, FoundView)| p.0);
        assert(is_visible_range(vis, self.history(), bounds@, now));
        if visible.len() == 0 {
            return Ok((self.current, 0));
        }
        proof {
            if !(self.current().0 < WIRE_MAX) {
                let k = vis[0].0;
                assert(self.history().contains_key(k) && bounds@.contains(k));
                assert(observe(self.history()[k], now) is Some);
            }
        }
        let revision = self.current.next_main();
        let mut txn = match self.engine.begin_write() {
            Ok(t) => t,
            Err(e) => return Err(Error::storage(e)),
        };
        let n = visible.len();
        let mut i: usize = 0;
        while i < n
            invariant
                vis == visible@.map_values(|p: (Vec<u8>, crate::mvcc::index::Found)| (p.0@, p.1@)),
                keys == vis.map_values(|p: (Seq<u8>, FoundView)| p.0),
                n == vis.len(),
                i <= n,
                txn.keyspace() == tombstone_records(self.backend(), keys, revision@.0, i as nat),
                revision@ == ((self.current().0 + 1) as u64, 0u64),
                self.current().0 < WIRE_MAX,
                i as int <= WIRE_MAX + 1,
                self == old(self),
                old(self).wf(),
                is_visible_range(vis, old(self).history(), bounds@, old(self).current().0),
            decreases n - i,
        {
            let at = match Revision::new(revision.main(), i as u64) {
                Some(at) => at,
                None => return Err(Error::corrupt("delete exceeded the addressable sub range")),
            };
            let key = visible[i].0.as_slice();
            let record_key = record::backend_key(at, true);
            let record = record::encode(key, &[]);
            proof {
                assert(record@ == record_bytes(keys[i as int], Seq::<u8>::empty()));
            }
            match txn.insert(record_key.as_slice(), record.as_slice()) {
                Ok(()) => {},
                Err(e) => return Err(Error::storage(e)),
            }
            i = i + 1;
        }
        match self.engine.commit(txn) {
            Ok(()) => {},
            Err(e) => return Err(Error::storage(e)),
        }
        proof {
            old(self).index.lemma_all_histories();
            assert forall|k: Seq<u8>, x: (u64, u64)|
                self.index.view().contains_key(k) && #[trigger] holds(self.index.view()[k], x) implies x.0 <= now by {
                crate::mvcc::index::lemma_held_below_latest(self.index.view()[k], x);
            }
        }
        let mut j: usize = 0;
        while j < n
            invariant
                vis == visible@.map_values(|p: (Vec<u8>, crate::mvcc::index::Found)| (p.0@, p.1@)),
                keys == vis.map_values(|p: (Seq<u8>, FoundView)| p.0),
                n == vis.len(),
                j <= n,
                is_visible_range(vis, old(self).history(), bounds@, now),
                now == old(self).current().0,
                revision@ == ((now + 1) as u64, 0u64),
                now < WIRE_MAX,
                n as int <= WIRE_MAX + 1,
                old(self).wf(),
                self.compacted == old(self).compacted,
                self.applied == old(self).applied,
                self.current == old(self).current,
                self.backend() == tombstone_records(old(self).backend(), keys, revision@.0, n as nat),
                self.index.wf(),
                self.index.view() == tombstone_all(old(self).history(), keys, revision@.0, j as nat),
                forall|k: Seq<u8>|
                    #[trigger] self.index.view().contains_key(k) ==> (latest_main(self.index.view()[k]) matches Some(
                        m,
                    ) && m <= now + 1),
                forall|a: int| j <= a < n ==> history_of(self.index.view(), #[trigger] keys[a]) == history_of(old(self).history(), keys[a]),
                revisions_unshared(self.index.view()),
                forall|k: Seq<u8>, x: (u64, u64)|
                    self.index.view().contains_key(k) && #[trigger] holds(self.index.view()[k], x) ==> x.0 <= now || (x.0
                        == now + 1 && x.1 < j),
            decreases n - j,
        {
            let ghost before = self.index.view();
            let key = visible[j].0.as_slice();
            if let Some(at) = Revision::new(revision.main(), j as u64) {
                proof {
                    let k = keys[j as int];
                    assert(old(self).history().contains_key(k));
                    old(self).index.lemma_histories(k);
                }
                self.index.tombstone(key, at);
                proof {
                    let h = history_of(before, key@);
                    if let Some(h2) = hist_delete(h, at@) {
                        assert forall|x: (u64, u64)| #[trigger] holds(h2, x) implies holds(h, x) || x == at@ by {
                            lemma_delete_holds(h, at@, x);
                        }
                        assert forall|k: Seq<u8>| #[trigger] before.contains_key(k) && k != key@ implies !holds(before[k], at@) by {
                            if holds(before[k], at@) {
                                assert(at@.0 <= now || (at@.0 == now + 1 && at@.1 < j));
                            }
                        }
                        lemma_unshared_insert(before, key@, h2, at@);
                        assert forall|k: Seq<u8>, x: (u64, u64)|
                            self.index.view().contains_key(k) && #[trigger] holds(self.index.view()[k], x) implies x.0 <= now || (x.0
                                == now + 1 && x.1 < j + 1) by {
                            if k == key@ {
                                lemma_delete_holds(h, at@, x);
                                if holds(h, x) {
                                    assert(before.contains_key(key@));
                                    assert(holds(before[key@], x));
                                }
                            } else {
                                assert(holds(before[k], x));
                            }
                        }
                    }
                }
                proof {
                    assert forall|a: int| j + 1 <= a < n implies history_of(self.index.view(), #[trigger] keys[a]) == history_of(old(self).history(), keys[a]) by {
                        let rk = vis.map_values(|p: (Seq<u8>, FoundView)| p.0);
                        assert(crate::bytes::lex_lt(rk[j as int], rk[a]));
                        crate::bytes::lemma_lex_lt_irreflexive(rk[j as int]);
                    }
                }
            }
            j = j + 1;
        }
        self.current = revision;
        proof {
            lemma_tombstones_keep_marker(old(self).backend(), keys, revision@.0, n as nat);
            lemma_same_marker(old(self).backend(), self.backend());
        }
        proof {
            assert(keys.len() == n);
            if old(self).rebuildable() && forall|i: int| 0 <= i < keys.len() ==> (#[trigger] keys[i]).len() <= MAX_KEY_LEN {
                old(self).index.lemma_all_histories();
                assert forall|i: int| 0 <= i < n implies {
                    &&& old(self).history().contains_key(#[trigger] keys[i])
                    &&& live(old(self).history()[keys[i]])
                    &&& latest_main(old(self).history()[keys[i]]) matches Some(mm) && mm <= old(self).current().0
                } by {
                    assert(keys[i] == vis[i].0);
                    crate::mvcc::index::lemma_observed_now_live(old(self).history()[keys[i]], now);
                }
                lemma_tombstones_replay(
                    old(self).backend(),
                    old(self).history(),
                    old(self).current(),
                    keys,
                    revision@.0,
                    n as nat,
                );
            }
        }
        Ok((revision, visible.len() as u64))
    }
}

/// Whether `history` and `current` are what replaying records can leave: a
/// revision every held revision is at or before, and no revision held twice.
pub open spec fn replay_state(history: Map<Seq<u8>, HistView>, current: (u64, u64)) -> bool {
    &&& current.0 <= WIRE_MAX
    &&& forall|k: Seq<u8>|
        #[trigger] history.contains_key(k) ==> (latest_main(history[k]) matches Some(mm) && mm <= current.0)
    &&& revisions_unshared(history)
    &&& forall|k: Seq<u8>, x: (u64, u64)|
        history.contains_key(k) && #[trigger] holds(history[k], x) ==> rev_le(x, current)
}

/// Replays one backend record into `index` and `current`: the record at
/// `raw_key` holding `raw_value`.
///
/// A record this store could not have written, or one whose revision does not
/// follow every revision replayed so far or the newest write of its key, is
/// corruption and changes nothing. Otherwise the write, or the deletion of a
/// key that exists, joins the key's history, and the record's revision
/// becomes the current one.
pub fn replay_one(index: &mut Index, current: &mut Revision, raw_key: &[u8], raw_value: &[u8]) -> (r: Result<(), Error>)
    requires
        old(index).wf(),
        replay_state(old(index).view(), old(current)@),
    ensures
        final(index).wf(),
        replay_state(final(index).view(), final(current)@),
        match replay_record(Rebuilt { history: old(index).view(), current: old(current)@ }, raw_key@, raw_value@) {
            Some(st) => r is Ok && final(index).view() == st.history && final(current)@ == st.current,
            None => (r matches Err(e) && e.kind_of() is Corrupt) && final(index).view() == old(index).view()
                && final(current)@ == old(current)@,
        },
{
    let (revision, tombstone) = match record::parse_key(raw_key) {
        Some(p) => p,
        None => return Err(Error::corrupt("unrecognized revision record key")),
    };
    let key = match record::decode(raw_value) {
        Some((k, _)) => k,
        None => return Err(Error::corrupt("truncated revision record")),
    };
    let main = revision.main();
    let accepted = (*current).precedes(revision) && match index.latest_main(key) {
        Some(latest) => latest < main,
        None => true,
    };
    if !accepted {
        return Err(Error::corrupt("revision records out of order"));
    }
    proof {
        if index.view().contains_key(key@) {
            index.lemma_histories(key@);
        }
    }
    let ghost before = index.view();
    let ghost h = history_of(before, key@);
    proof {
        assert forall|k: Seq<u8>| #[trigger] before.contains_key(k) implies !holds(before[k], revision@) by {
            if holds(before[k], revision@) {
                assert(rev_le(revision@, current@));
            }
        }
    }
    if tombstone {
        index.tombstone(key, revision);
        proof {
            if let Some(h2) = hist_delete(h, revision@) {
                assert forall|x: (u64, u64)| #[trigger] holds(h2, x) implies holds(h, x) || x == revision@ by {
                    lemma_delete_holds(h, revision@, x);
                }
                lemma_unshared_insert(before, key@, h2, revision@);
            }
        }
    } else {
        index.put(key, revision);
        proof {
            assert forall|x: (u64, u64)| #[trigger] holds(hist_put(h, revision@), x) implies holds(h, x) || x == revision@ by {
                lemma_put_holds(h, revision@, x);
            }
            lemma_unshared_insert(before, key@, hist_put(h, revision@), revision@);
        }
    }
    proof {
        assert forall|k: Seq<u8>, x: (u64, u64)|
            index.view().contains_key(k) && #[trigger] holds(index.view()[k], x) implies rev_le(x, revision@) by {
            if k == key@ {
                if tombstone {
                    if hist_delete(h, revision@) is Some {
                        lemma_delete_holds(h, revision@, x);
                    }
                } else {
                    lemma_put_holds(h, revision@, x);
                }
                if holds(h, x) {
                    assert(before.contains_key(key@));
                    assert(holds(before[key@], x));
                    assert(rev_le(x, current@));
                }
            } else {
                assert(holds(before[k], x));
                assert(rev_le(x, current@));
            }
        }
    }
    *current = revision;
    proof {
        assert forall|k: Seq<u8>| #[trigger] index.view().contains_key(k) implies (latest_main(
            index.view()[k],
        ) matches Some(mm) && mm <= current@.0) by {
            if k == key@ {
                index.lemma_histories(key@);
            }
        }
    }
    Ok(())
}

impl<E: StorageEngine> KvStore<E> {
    /// Opens a store over `engine`, rebuilding the index from its contents.
    ///
    /// The revision records are read in ascending key order, which is
    /// ascending revision order, [`SCAN_PAGE`] at a time, and replayed into
    /// the index. How far the log was applied is read from the marker the
    /// store keeps, zero when there is none. The compaction watermark is read
    /// from the compaction marker, with the revision that was current when the
    /// store compacted, so reads below the watermark stay refused; the current
    /// revision is the later of that revision and the latest record, so a
    /// compaction that removed the newest records does not let a revision be
    /// handed out twice.
    ///
    /// A backend failure is a storage error. A record this store could not
    /// have written, one whose revision does not follow every revision before
    /// it, or a malformed marker is corruption.
    pub fn open(engine: E) -> (r: Result<Self, Error>)
        ensures
            match r {
                Ok(store) => {
                    &&& store.wf()
                    &&& store.reopens(engine.committed())
                    &&& marker_position(engine.committed()) == Some(store.applied_position())
                    &&& store.persisted()
                },
                Err(e) => {
                    ||| e.kind_of() is Storage
                    ||| e.kind_of() is Corrupt && exists|s: Seq<(Seq<u8>, Seq<u8>)>|
                        #[trigger] is_scan_prefix(s, engine.committed(), record_range()) && replay(s) is None
                    ||| e.kind_of() is Corrupt && marker_position(engine.committed()) is None
                    ||| e.kind_of() is Corrupt && compaction_marker(engine.committed()) is None
                },
            },
    {
        let ghost m = engine.committed();
        let ghost rr = record_range();
        let txn = match engine.begin_read() {
            Ok(t) => t,
            Err(e) => return Err(Error::storage(e)),
        };
        let mut index = Index::new();
        let mut current = Revision::zero();
        let mut bounds = record::all_records();
        let ghost mut done: Seq<(Seq<u8>, Seq<u8>)> = Seq::empty();
        let mut finished = false;
        proof {
            assert(replay(done) == Some(Rebuilt { history: index.view(), current: current@ }));
        }
        while !finished
            invariant
                m == engine.committed(),
                m.dom().finite(),
                rr == record_range(),
                txn.keyspace() == m,
                is_scan_prefix(done, m, rr),
                done.len() <= m.dom().len(),
                bounds@ == next_page(done, rr),
                replay(done) == Some(Rebuilt { history: index.view(), current: current@ }),
                index.wf(),
                current@.0 <= WIRE_MAX,
                forall|k: Seq<u8>|
                    #[trigger] index.view().contains_key(k) ==> (latest_main(index.view()[k]) matches Some(
                        mm,
                    ) && mm <= current@.0),
                revisions_unshared(index.view()),
                forall|k: Seq<u8>, x: (u64, u64)|
                    index.view().contains_key(k) && #[trigger] holds(index.view()[k], x) ==> rev_le(x, current@),
                finished ==> is_range_of(done, m, rr, None),
            decreases m.dom().len() - done.len() + if finished {
                0int
            } else {
                1int
            },
        {
            let page = match txn.range(&bounds, Some(SCAN_PAGE)) {
                Ok(p) => p,
                Err(e) => return Err(Error::storage(e)),
            };
            let ghost pv = pair_views(page@);
            let ghost done0 = done;
            let n = page.len();
            if n == 0 {
                proof {
                    assert(pv =~= Seq::<(Seq<u8>, Seq<u8>)>::empty());
                    lemma_scan_complete(done, m, rr, SCAN_PAGE);
                }
                finished = true;
            } else {
                let mut j: usize = 0;
                while j < n
                    invariant
                        m == engine.committed(),
                        m.dom().finite(),
                        rr == record_range(),
                        txn.keyspace() == m,
                        pv == pair_views(page@),
                        n == pv.len(),
                        is_range_of(pv, m, next_page(done0, rr), Some(SCAN_PAGE)),
                        is_scan_prefix(done0, m, rr),
                        j <= n,
                        done == done0 + pv.take(j as int),
                        is_scan_prefix(done, m, rr),
                        replay(done) == Some(Rebuilt { history: index.view(), current: current@ }),
                        index.wf(),
                        current@.0 <= WIRE_MAX,
                        forall|k: Seq<u8>|
                            #[trigger] index.view().contains_key(k) ==> (latest_main(index.view()[k]) matches Some(
                                mm,
                            ) && mm <= current@.0),
                        revisions_unshared(index.view()),
                        forall|k: Seq<u8>, x: (u64, u64)|
                            index.view().contains_key(k) && #[trigger] holds(index.view()[k], x) ==> rev_le(x, current@),
                    decreases n - j,
                {
                    let ghost next = done0 + pv.take(j + 1);
                    proof {
                        lemma_scan_extends(done0, pv, m, rr, SCAN_PAGE, j + 1);
                        assert(next.drop_last() =~= done);
                        assert(next.last() == pv[j as int]);
                    }
                    match replay_one(&mut index, &mut current, page[j].0.as_slice(), page[j].1.as_slice()) {
                        Ok(()) => {},
                        Err(e) => {
                            assert(replay(next) is None);
                            return Err(e);
                        },
                    }
                    proof {
                        done = next;
                    }
                    j = j + 1;
                }
                proof {
                    assert(pv.take(n as int) =~= pv);
                    lemma_scan_len(done, m, rr);
                }
                let last = page[n - 1].0.as_slice();
                bounds.advance_past(last);
            }
        }
        let marker = crate::mvcc::meta::applied_key();
        let applied = match txn.get(marker.as_slice()) {
            Ok(Some(raw)) => match crate::mvcc::meta::decode_position(raw.as_slice()) {
                Some(p) => p,
                None => return Err(Error::corrupt("malformed applied-position marker")),
            },
            Ok(None) => 0,
            Err(e) => return Err(Error::storage(e)),
        };
        let compaction = crate::mvcc::meta::compacted_key();
        let (compacted, floor) = match txn.get(compaction.as_slice()) {
            Ok(Some(raw)) => match crate::mvcc::meta::decode_compaction(raw.as_slice()) {
                Some(p) => p,
                None => return Err(Error::corrupt("malformed compaction marker")),
            },
            Ok(None) => (0, Revision::zero()),
            Err(e) => return Err(Error::storage(e)),
        };
        let ghost replayed = current@;
        if current.precedes(floor) {
            current = floor;
        }
        proof {
            assert(current@ == rev_max(replayed, floor@));
            assert(replay(done) matches Some(rb) && rb.history == index.view() && current@ == rev_max(rb.current, floor@));
        }
        Ok(KvStore { engine, index, current, compacted, applied })
    }

    /// Makes everything applied so far durable, returning how far the log has
    /// been applied.
    ///
    /// The applied position is written again in a transaction committed
    /// durably, so once this returns every write applied before it survives a
    /// crash. A backend failure is a storage error, and changes nothing.
    pub fn checkpoint(&mut self) -> (r: Result<u64, Error>)
        requires
            old(self).wf(),
        ensures
            final(self).wf(),
            old(self).persisted() ==> final(self).persisted(),
            final(self).history() == old(self).history(),
            final(self).current() == old(self).current(),
            final(self).watermark() == old(self).watermark(),
            final(self).applied_position() == old(self).applied_position(),
            match r {
                Ok(p) => {
                    &&& p == old(self).applied_position()
                    &&& final(self).backend() == old(self).backend().insert(applied_key_bytes(), position_bytes(p))
                },
                Err(e) => e.kind_of() is Storage && final(self).backend() == old(self).backend(),
            },
    {
        let mut txn = match self.engine.begin_write() {
            Ok(t) => t,
            Err(e) => return Err(Error::storage(e)),
        };
        let marker = crate::mvcc::meta::applied_key();
        let position = crate::mvcc::meta::encode_position(self.applied);
        match txn.insert(marker.as_slice(), position.as_slice()) {
            Ok(()) => {},
            Err(e) => return Err(Error::storage(e)),
        }
        match self.engine.commit_durable(txn) {
            Ok(()) => {},
            Err(e) => return Err(Error::storage(e)),
        }
        Ok(self.applied)
    }

    /// Gives back the engine this store was opened over.
    pub fn into_engine(self) -> (e: E)
        ensures
            e.committed() == self.backend(),
    {
        self.engine
    }
}

impl<E: StorageEngine> KvStore<E> {
    /// Discards history below `at`, returning how many records were removed.
    ///
    /// Reads at or after `at` are unaffected, and reads below it are refused as
    /// compacted from this point on, also by a store reopened over the backend.
    ///
    /// A watermark ahead of the current revision is refused as a future
    /// revision, and one behind the present watermark as compacted; neither
    /// changes anything. Otherwise the index is compacted. Compacting again at
    /// the present watermark when nothing is left to drop touches nothing and
    /// removes nothing. Else the records the index no longer reaches are
    /// removed from the backend in transactions of at most [`COMPACT_CHUNK`]
    /// revisions, and then the watermark is recorded, with the current
    /// revision, in the compaction marker. Should a transaction fail, the
    /// error is a storage error, the removals committed before it stay, and
    /// the watermark does not move.
    pub fn compact(&mut self, at: u64) -> (r: Result<usize, Error>)
        requires
            old(self).wf(),
        ensures
            final(self).wf(),
            old(self).persisted() ==> final(self).persisted(),
            final(self).current() == old(self).current(),
            final(self).applied_position() == old(self).applied_position(),
            if at > old(self).current().0 {
                &&& r matches Err(e) && e.kind_of() == (ErrorKind::FutureRevision {
                    requested: at,
                    current: old(self).current().0,
                })
                &&& final(self).history() == old(self).history()
                &&& final(self).watermark() == old(self).watermark()
                &&& final(self).backend() == old(self).backend()
            } else if at < old(self).watermark() {
                &&& r matches Err(e) && e.kind_of() == (ErrorKind::Compacted {
                    requested: at,
                    watermark: old(self).watermark(),
                })
                &&& final(self).history() == old(self).history()
                &&& final(self).watermark() == old(self).watermark()
                &&& final(self).backend() == old(self).backend()
            } else {
                let dropped = dropped_over(
                    old(self).key_order(),
                    old(self).history(),
                    at,
                    old(self).key_order().len(),
                );
                &&& final(self).history() == compact_map(old(self).history(), at)
                &&& reads_preserved(old(self).history(), old(self).backend(), final(self).history(), final(self).backend(), at)
                &&& (dropped.len() == 0 && at == old(self).watermark()) ==> {
                    &&& r matches Ok(n) && n == 0
                    &&& final(self).watermark() == at
                    &&& final(self).backend() == old(self).backend()
                }
                &&& match r {
                    Ok(n) => {
                        &&& n == dropped.len()
                        &&& final(self).watermark() == at
                        &&& (dropped.len() > 0 || at != old(self).watermark()) ==> {
                            &&& final(self).backend() == without_records(old(self).backend(), dropped, dropped.len()).insert(
                                compacted_key_bytes(),
                                compaction_bytes(at, old(self).current()),
                            )
                            &&& compaction_marker(final(self).backend()) == Some((at, old(self).current()))
                        }
                    },
                    Err(e) => {
                        &&& e.kind_of() is Storage
                        &&& final(self).watermark() == old(self).watermark()
                        &&& exists|k: nat|
                            k <= dropped.len() && final(self).backend() == #[trigger] without_records(
                                old(self).backend(),
                                dropped,
                                k,
                            )
                    },
                }
            },
    {
        let current = self.current.main();
        if at > current {
            return Err(Error::future_revision(at, current));
        }
        if at < self.compacted {
            return Err(Error::compacted(at, self.compacted));
        }
        let ghost m0 = self.index.view();
        let dropped = self.index.compact(at);
        proof {
            old(self).index.lemma_all_histories();
            lemma_unshared_compact(m0, at);
            assert forall|k: Seq<u8>|
                #[trigger] self.index.view().contains_key(k) implies (latest_main(self.index.view()[k]) matches Some(
                    m,
                ) && m <= self.current@.0) by {
                assert(m0.contains_key(k));
                old(self).index.lemma_histories(k);
                lemma_compact_latest(m0[k], at);
            }
        }
        let ghost dv = dropped@.map_values(|r: Revision| r@);
        let n = dropped.len();
        proof {
            old(self).index.lemma_all_histories();
            old(self).index.lemma_key_order();
            let keys = old(self).key_order();
            assert forall|i: int| 0 <= i < keys.len() implies m0.contains_key(#[trigger] keys[i]) by {
                assert(keys.contains(keys[i]));
            }
            assert forall|k: nat| k <= dv.len() implies #[trigger] reads_preserved(
                m0,
                old(self).backend(),
                compact_map(m0, at),
                without_records(old(self).backend(), dv, k),
                at,
            ) by {
                assert forall|key: Seq<u8>, x: u64| at <= x implies {
                    &&& #[trigger] observe(history_of(compact_map(m0, at), key), x) == observe(history_of(m0, key), x)
                    &&& (observe(history_of(m0, key), x) matches Some(f) ==> stored_value(
                        without_records(old(self).backend(), dv, k),
                        f.modified,
                    ) == stored_value(old(self).backend(), f.modified))
                } by {
                    lemma_compaction_preserves_values(m0, keys, at, old(self).backend(), k, key, x);
                }
            }
            assert(without_records(old(self).backend(), dv, 0) == old(self).backend());
            assert forall|k: nat| same_marker(old(self).backend(), #[trigger] without_records(old(self).backend(), dv, k)) by {
                lemma_removals_keep_marker(old(self).backend(), dv, k);
            }
        }
        if n == 0 && at == self.compacted {
            return Ok(0);
        }
        let mut start: usize = 0;
        while start < n
            invariant
                self.index.wf(),
                revisions_unshared(self.index.view()),
                self.index.view() == compact_map(m0, at),
                m0 == old(self).history(),
                self.compacted == old(self).compacted,
                self.current == old(self).current,
                self.applied == old(self).applied,
                self.compacted <= at <= self.current@.0 <= WIRE_MAX,
                forall|k: Seq<u8>|
                    #[trigger] self.index.view().contains_key(k) ==> (latest_main(self.index.view()[k]) matches Some(
                        m,
                    ) && m <= self.current@.0),
                dv == dropped@.map_values(|r: Revision| r@),
                dv == dropped_over(old(self).key_order(), m0, at, old(self).key_order().len()),
                forall|k: nat| k <= dv.len() ==> #[trigger] reads_preserved(
                    m0,
                    old(self).backend(),
                    compact_map(m0, at),
                    without_records(old(self).backend(), dv, k),
                    at,
                ),
                forall|k: nat| same_marker(old(self).backend(), #[trigger] without_records(old(self).backend(), dv, k)),
                n == dv.len(),
                start <= n,
                self.backend() == without_records(old(self).backend(), dv, start as nat),
            decreases n - start,
        {
            let end = if n - start > COMPACT_CHUNK {
                start + COMPACT_CHUNK
            } else {
                n
            };
            let mut txn = match self.engine.begin_write() {
                Ok(t) => t,
                Err(e) => {
                    proof {
                        lemma_same_marker(old(self).backend(), self.backend());
                    }
                    return Err(Error::storage(e));
                },
            };
            let mut i = start;
            while i < end
                invariant
                    self.index.wf(),
                    revisions_unshared(self.index.view()),
                    self.index.view() == compact_map(m0, at),
                    m0 == old(self).history(),
                    self.compacted == old(self).compacted,
                    self.current == old(self).current,
                    self.applied == old(self).applied,
                    self.compacted <= at <= self.current@.0 <= WIRE_MAX,
                    forall|k: Seq<u8>|
                        #[trigger] self.index.view().contains_key(k) ==> (latest_main(self.index.view()[k]) matches Some(
                            m,
                        ) && m <= self.current@.0),
                    self.backend() == without_records(old(self).backend(), dv, start as nat),
                    start <= i <= end <= n,
                    n == dv.len(),
                    dv == dropped@.map_values(|r: Revision| r@),
                    dv == dropped_over(old(self).key_order(), m0, at, old(self).key_order().len()),
                    forall|k: nat| k <= dv.len() ==> #[trigger] reads_preserved(
                        m0,
                        old(self).backend(),
                        compact_map(m0, at),
                        without_records(old(self).backend(), dv, k),
                        at,
                    ),
                    forall|k: nat| same_marker(old(self).backend(), #[trigger] without_records(old(self).backend(), dv, k)),
                    txn.keyspace() == without_records(old(self).backend(), dv, i as nat),
                decreases end - i,
            {
                let revision = dropped[i];
                let live = record::backend_key(revision, false);
                let tomb = record::backend_key(revision, true);
                match txn.remove(live.as_slice()) {
                    Ok(_) => {},
                    Err(e) => {
                        proof {
                            lemma_same_marker(old(self).backend(), self.backend());
                        }
                        return Err(Error::storage(e));
                    },
                }
                match txn.remove(tomb.as_slice()) {
                    Ok(_) => {},
                    Err(e) => {
                        proof {
                            lemma_same_marker(old(self).backend(), self.backend());
                        }
                        return Err(Error::storage(e));
                    },
                }
                i = i + 1;
            }
            match self.engine.commit(txn) {
                Ok(()) => {},
                Err(e) => {
                    proof {
                        lemma_same_marker(old(self).backend(), self.backend());
                    }
                    return Err(Error::storage(e));
                },
            }
            start = end;
        }
        let ghost removed = self.backend();
        proof {
            lemma_same_marker(old(self).backend(), removed);
        }
        let mut txn = match self.engine.begin_write() {
            Ok(t) => t,
            Err(e) => return Err(Error::storage(e)),
        };
        let marker_key = crate::mvcc::meta::compacted_key();
        let marker = crate::mvcc::meta::encode_compaction(at, self.current);
        match txn.insert(marker_key.as_slice(), marker.as_slice()) {
            Ok(()) => {},
            Err(e) => return Err(Error::storage(e)),
        }
        match self.engine.commit(txn) {
            Ok(()) => {},
            Err(e) => return Err(Error::storage(e)),
        }
        self.compacted = at;
        proof {
            crate::mvcc::meta::lemma_compaction_roundtrip(at, old(self).current());
            assert forall|r: (u64, u64)| #[trigger] stored_value(self.backend(), r) == stored_value(removed, r) by {
                assert(record_key(r, false)[0] != compacted_key_bytes()[0]);
            }
            assert(reads_preserved(m0, old(self).backend(), compact_map(m0, at), removed, at));
        }
        Ok(n)
    }
}

impl<E: StorageEngine> KvStore<E> {
    /// The state a batch applied to this store starts from.
    pub open spec fn apply_start(&self) -> ApplyState {
        ApplyState {
            history: self.history(),
            current: self.current(),
            revisions: Seq::empty(),
            backend: self.backend(),
        }
    }

    /// Applies `batch` atomically, recording that the log has been applied
    /// up to position `upto`, and returns the revision of each mutation.
    ///
    /// Each put, and each deletion of a key that exists at that point, takes
    /// the next revision. The batch and the applied position reach the
    /// backend in one transaction, so a failure applies none of it.
    pub fn apply(&mut self, batch: &[Mutation], upto: u64) -> (r: Result<Vec<Revision>, Error>)
        requires
            old(self).wf(),
            old(self).current().0 + batch@.len() < WIRE_MAX,
        ensures
            final(self).wf(),
            old(self).persisted() ==> final(self).persisted(),
            final(self).watermark() == old(self).watermark(),
            match r {
                Ok(revisions) => {
                    let s = apply_all(old(self).apply_start(), batch_view(batch@));
                    &&& revisions@.map_values(|v: Revision| v@) == s.revisions
                    &&& final(self).history() == s.history
                    &&& final(self).current() == s.current
                    &&& final(self).backend() == s.backend.insert(applied_key_bytes(), position_bytes(upto))
                    &&& final(self).applied_position() == upto
                    &&& (old(self).rebuildable() && keys_fit(batch@)) ==> final(self).rebuildable()
                },
                Err(e) => {
                    &&& e.kind_of() is Storage
                    &&& final(self).current() == old(self).current()
                    &&& final(self).history() == old(self).history()
                    &&& final(self).backend() == old(self).backend()
                    &&& final(self).applied_position() == old(self).applied_position()
                },
            },
    {
        let ghost s0 = self.apply_start();
        let ghost bv = batch_view(batch@);
        let mut txn = match self.engine.begin_write() {
            Ok(t) => t,
            Err(e) => return Err(Error::storage(e)),
        };
        let mut revisions: Vec<Revision> = Vec::new();
        let mut effective: Vec<bool> = Vec::new();
        let mut cur = self.current;
        let n = batch.len();
        let mut i: usize = 0;
        while i < n
            invariant
                self == old(self),
                old(self).wf(),
                s0 == old(self).apply_start(),
                bv == batch_view(batch@),
                n == bv.len(),
                i <= n,
                old(self).current().0 + n < WIRE_MAX,
                cur@.0 <= old(self).current().0 + i,
                cur@ == apply_all(s0, bv.take(i as int)).current,
                revisions@.map_values(|v: Revision| v@) == apply_all(s0, bv.take(i as int)).revisions,
                txn.keyspace() == apply_all(s0, bv.take(i as int)).backend,
                effective@.len() == i,
                forall|j: int| 0 <= j < i ==> #[trigger] effective@[j] == (bv[j] is Put || live(history_of(apply_all(s0, bv.take(j)).history, bv[j].key()))),
            decreases n - i,
        {
            proof {
                assert(bv.take(i + 1).drop_last() =~= bv.take(i as int));
                assert(bv[i as int] == batch@[i as int]@);
            }
            let ghost prior = apply_all(s0, bv.take(i as int));
            let ghost rv0 = revisions@.map_values(|v: Revision| v@);
            let next = cur.next_main();
            match &batch[i] {
                Mutation::Put { key, value } => {
                    let record_key = record::backend_key(next, false);
                    let record = record::encode(key.as_slice(), value.as_slice());
                    match txn.insert(record_key.as_slice(), record.as_slice()) {
                        Ok(()) => {},
                        Err(e) => return Err(Error::storage(e)),
                    }
                    revisions.push(next);
                    effective.push(true);
                    cur = next;
                },
                Mutation::Delete { key } => {
                    let exists = self.live_after(batch, i, key.as_slice());
                    proof {
                        lemma_apply_live(s0, bv, i as int, key@);
                    }
                    if exists {
                        let record_key = record::backend_key(next, true);
                        let record = record::encode(key.as_slice(), &[]);
                        match txn.insert(record_key.as_slice(), record.as_slice()) {
                            Ok(()) => {},
                            Err(e) => return Err(Error::storage(e)),
                        }
                        revisions.push(next);
                        effective.push(true);
                        cur = next;
                    } else {
                        revisions.push(cur);
                        effective.push(false);
                    }
                },
            }
            proof {
                assert(revisions@.map_values(|v: Revision| v@) =~= apply_all(s0, bv.take(i + 1)).revisions);
            }
            i = i + 1;
        }
        let marker = crate::mvcc::meta::applied_key();
        let position = crate::mvcc::meta::encode_position(upto);
        match txn.insert(marker.as_slice(), position.as_slice()) {
            Ok(()) => {},
            Err(e) => return Err(Error::storage(e)),
        }
        match self.engine.commit(txn) {
            Ok(()) => {},
            Err(e) => return Err(Error::storage(e)),
        }
        proof {
            assert(bv.take(n as int) =~= bv);
        }
        let ghost end = apply_all(s0, bv);
        proof {
            lemma_apply_revisions_len(s0, bv);
        }
        let mut j: usize = 0;
        let mut now = self.current;
        while j < n
            invariant
                old(self).wf(),
                s0 == old(self).apply_start(),
                bv == batch_view(batch@),
                n == bv.len(),
                j <= n,
                old(self).current().0 + n < WIRE_MAX,
                end == apply_all(s0, bv),
                revisions@.map_values(|v: Revision| v@) == end.revisions,
                revisions@.len() == n,
                effective@.len() == n,
                forall|a: int| 0 <= a < n ==> #[trigger] effective@[a] == (bv[a] is Put || live(history_of(apply_all(s0, bv.take(a)).history, bv[a].key()))),
                self.index.wf(),
                self.index.view() == apply_all(s0, bv.take(j as int)).history,
                now@ == apply_all(s0, bv.take(j as int)).current,
                old(self).current().0 <= now@.0 <= old(self).current().0 + j,
                forall|k: Seq<u8>|
                    #[trigger] self.index.view().contains_key(k) ==> (latest_main(self.index.view()[k]) matches Some(
                        m,
                    ) && m <= now@.0),
                self.compacted == old(self).compacted,
                self.current == old(self).current,
                self.backend() == end.backend.insert(applied_key_bytes(), position_bytes(upto)),
                revisions_unshared(self.index.view()),
            decreases n - j,
        {
            proof {
                assert(bv.take(j + 1).drop_last() =~= bv.take(j as int));
                assert(bv.take(j + 1).last() == bv[j as int]);
                assert(bv[j as int] == batch@[j as int]@);
                lemma_apply_revisions_prefix(s0, bv, j as int);
                lemma_apply_revisions_len(s0, bv.take(j as int));
            }
            let ghost prior = apply_all(s0, bv.take(j as int));
            assert(apply_all(s0, bv.take(j + 1)) == apply_step(prior, bv[j as int]));
            let rev = revisions[j];
            let next = now.next_main();
            proof {
                assert(rev@ == end.revisions[j as int]);
            }
            let ghost before = self.index.view();
            proof {
                self.index.lemma_all_histories();
            }
            match &batch[j] {
                Mutation::Put { key, .. } => {
                    proof {
                        if self.index.view().contains_key(key@) {
                            self.index.lemma_histories(key@);
                        }
                    }
                    proof {
                        lemma_unheld_above(before, now@.0, rev@);
                    }
                    self.index.put(key.as_slice(), rev);
                    now = next;
                    proof {
                        let h = history_of(before, key@);
                        assert forall|x: (u64, u64)| #[trigger] holds(hist_put(h, rev@), x) implies holds(h, x) || x == rev@ by {
                            lemma_put_holds(h, rev@, x);
                        }
                        lemma_unshared_insert(before, key@, hist_put(h, rev@), rev@);
                    }
                    proof {
                        assert forall|k: Seq<u8>| #[trigger] self.index.view().contains_key(k) implies (latest_main(self.index.view()[k]) matches Some(
                            m,
                        ) && m <= now@.0) by {
                            if k == key@ && prior.history.contains_key(key@) {
                                self.index.lemma_histories(key@);
                            }
                        }
                    }
                },
                Mutation::Delete { key } => {
                    if effective[j] {
                        proof {
                            self.index.lemma_histories(key@);
                        }
                        proof {
                            lemma_unheld_above(before, now@.0, rev@);
                        }
                        self.index.tombstone(key.as_slice(), rev);
                        now = next;
                        proof {
                            let h = history_of(before, key@);
                            if let Some(h2) = hist_delete(h, rev@) {
                                assert forall|x: (u64, u64)| #[trigger] holds(h2, x) implies holds(h, x) || x == rev@ by {
                                    lemma_delete_holds(h, rev@, x);
                                }
                                lemma_unshared_insert(before, key@, h2, rev@);
                            }
                        }
                    }
                },
            }
            j = j + 1;
        }
        proof {
            assert(bv.take(n as int) =~= bv);
        }
        self.current = now;
        self.applied = upto;
        proof {
            lemma_apply_keeps_marker(s0, bv);
            lemma_apply_current_grows(s0, bv);
            assert(applied_key_bytes()[1] != compacted_key_bytes()[1]);
            lemma_same_marker(old(self).backend(), self.backend());
        }
        proof {
            if old(self).rebuildable() && keys_fit(batch@) {
                assert forall|i: int| 0 <= i < bv.len() implies (#[trigger] bv[i]).key().len() <= MAX_KEY_LEN by {
                    assert(bv[i] == batch@[i]@);
                }
                lemma_apply_keeps_backend_replayable(s0, bv, upto);
            }
        }
        Ok(revisions)
    }

    /// Whether `key` exists after the first `i` mutations of `batch`.
    fn live_after(&self, batch: &[Mutation], i: usize, key: &[u8]) -> (r: bool)
        requires
            self.wf(),
            i <= batch@.len(),
        ensures
            r == scan_live(batch_view(batch@), i as int, key@, live(history_of(self.history(), key@))),
    {
        let ghost bv = batch_view(batch@);
        let mut j = i;
        while j > 0
            invariant
                j <= i <= batch@.len(),
                bv == batch_view(batch@),
                scan_live(bv, i as int, key@, live(history_of(self.history(), key@)))
                    == scan_live(bv, j as int, key@, live(history_of(self.history(), key@))),
            decreases j,
        {
            assert(bv[j - 1] == batch@[j - 1]@);
            let m = &batch[j - 1];
            if crate::bytes::bytes_eq(m.key(), key) {
                return match m {
                    Mutation::Put { .. } => true,
                    Mutation::Delete { .. } => false,
                };
            }
            j = j - 1;
        }
        self.index.is_live(key)
    }
}

/// The revision a mutation is reported at is settled once it is applied.
pub proof fn lemma_apply_revisions_prefix(s: ApplyState, batch: Seq<MutationView>, j: int)
    requires
        0 <= j < batch.len(),
    ensures
        apply_all(s, batch).revisions[j] == apply_all(s, batch.take(j + 1)).revisions[j],
        apply_all(s, batch).revisions.len() == s.revisions.len() + batch.len(),
    decreases batch.len(),
{
    lemma_apply_revisions_len(s, batch);
    if j < batch.len() - 1 {
        lemma_apply_revisions_prefix(s, batch.drop_last(), j);
        assert(batch.drop_last().take(j + 1) =~= batch.take(j + 1));
        lemma_apply_revisions_len(s, batch.drop_last());
    } else {
        assert(batch.take(j + 1) =~= batch);
    }
}

/// A batch reports one revision per mutation.
pub proof fn lemma_apply_revisions_len(s: ApplyState, batch: Seq<MutationView>)
    ensures
        apply_all(s, batch).revisions.len() == s.revisions.len() + batch.len(),
    decreases batch.len(),
{
    if batch.len() > 0 {
        lemma_apply_revisions_len(s, batch.drop_last());
    }
}

} // verus!
