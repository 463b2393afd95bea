use vstd::prelude::*;

use crate::bytes::{copy_bytes, lex_lt};
use crate::mvcc::revision::{rev_le, wire_valid, Revision, WIRE_MAX};
use crate::sorted_map::{strictly_ascending, SortedMap};
use crate::storage_api::bounds::{Bounds, BoundsView, KeyBound};

verus! {

/// What a read at some revision found for a key.
#[derive(Debug, Clone, Copy, PartialEq, Eq)]
pub struct Found {
    /// Revision of the write this read observes.
    pub modified: Revision,
    /// Revision at which the key's current iteration was created.
    pub created: Revision,
    /// Number of writes to the key since it was created, starting at one.
    pub version: u64,
}

/// The mathematical form of a [`Found`].
pub struct FoundView {
    pub modified: (u64, u64),
    pub created: (u64, u64),
    pub version: u64,
}

impl View for Found {
    type V = FoundView;

    open spec fn view(&self) -> FoundView {
        FoundView { modified: self.modified@, created: self.created@, version: self.version }
    }
}

/// The mathematical form of a generation: a key's life from creation to deletion.
pub struct GenView {
    /// Revision the key was created at; kept even once that write is compacted.
    pub created: (u64, u64),
    /// Writes in this generation, counting those compaction dropped.
    pub ver: u64,
    /// The revisions still held, oldest first.
    pub revs: Seq<(u64, u64)>,
    /// Whether this generation ends in a deletion.
    pub closed: bool,
}

/// The mathematical form of one key's history: its generations, oldest first.
pub type HistView = Seq<GenView>;

/// Whether revisions strictly increase in their `main` half.
pub open spec fn revs_increasing(revs: Seq<(u64, u64)>) -> bool {
    forall|i: int, j: int| 0 <= i < j < revs.len() ==> (#[trigger] revs[i]).0 < (#[trigger] revs[j]).0
}

/// A generation's invariant.
pub open spec fn gen_wf(g: GenView) -> bool {
    &&& g.revs.len() > 0
    &&& rev_le(g.created, g.revs[0])
    &&& revs_increasing(g.revs)
    &&& forall|i: int| 0 <= i < g.revs.len() ==> wire_valid((#[trigger] g.revs[i]).0, g.revs[i].1)
    &&& g.revs.len() <= g.ver
    &&& g.ver <= g.revs.last().0 + 1
}

/// A history's invariant: well-formed generations, revisions increasing
/// across them, and only the newest one open.
pub open spec fn hist_wf(h: HistView) -> bool {
    &&& forall|i: int| 0 <= i < h.len() ==> gen_wf(#[trigger] h[i])
    &&& forall|i: int, j: int| 0 <= i < j < h.len() ==> (#[trigger] h[i]).revs.last().0 < (#[trigger] h[j]).revs[0].0
    &&& forall|i: int| 0 <= i < h.len() - 1 ==> (#[trigger] h[i]).closed
}

/// The `main` of the newest revision a history holds.
pub open spec fn latest_main(h: HistView) -> Option<u64> {
    if h.len() == 0 {
        None
    } else {
        Some(h.last().revs.last().0)
    }
}

/// Whether a write at `r` is newer than everything `h` holds.
pub open spec fn accepts(h: HistView, r: (u64, u64)) -> bool {
    match latest_main(h) {
        Some(m) => m < r.0,
        None => true,
    }
}

/// The history after a write of the key at `r`: it joins the open
/// generation, or starts a new one if the key is absent.
pub open spec fn hist_put(h: HistView, r: (u64, u64)) -> HistView {
    if h.len() > 0 && !h.last().closed {
        let g = h.last();
        h.update(h.len() - 1, GenView { revs: g.revs.push(r), ver: (g.ver + 1) as u64, ..g })
    } else {
        h.push(GenView { created: r, ver: 1, revs: seq![r], closed: false })
    }
}

/// The history after a deletion of the key at `r`, or `None` when the key
/// does not currently exist and nothing is recorded.
pub open spec fn hist_delete(h: HistView, r: (u64, u64)) -> Option<HistView> {
    if h.len() == 0 || h.last().closed {
        None
    } else {
        let g = h.last();
        Some(h.update(h.len() - 1, GenView { revs: g.revs.push(r), ver: (g.ver + 1) as u64, closed: true, ..g }))
    }
}

/// How many of `revs`, oldest first, were written at or before `at`.
pub open spec fn visible_count(revs: Seq<(u64, u64)>, at: u64) -> nat
    decreases revs.len(),
{
    if revs.len() == 0 {
        0
    } else if revs.last().0 <= at {
        revs.len()
    } else {
        visible_count(revs.drop_last(), at)
    }
}

/// The write a read at `at` observes, searching generations `n - 1` down to `0`:
/// the generation and position of that write, or `None` if the key was
/// absent at `at`.
pub open spec fn locate_within(h: HistView, at: u64, n: nat) -> Option<(int, int)>
    decreases n,
{
    if n == 0 || n > h.len() {
        None
    } else {
        let g = h[n - 1];
        if g.revs.len() == 0 {
            locate_within(h, at, (n - 1) as nat)
        } else if g.closed && g.revs.last().0 <= at {
            None
        } else if g.revs[0].0 <= at {
            Some((n - 1, visible_count(g.revs, at) - 1))
        } else {
            locate_within(h, at, (n - 1) as nat)
        }
    }
}

/// The generation and position of the write a read at `at` observes.
pub open spec fn locate(h: HistView, at: u64) -> Option<(int, int)> {
    locate_within(h, at, h.len())
}

/// Whether, among the first `n` generations of `h`, a read at `at` lands on
/// the `ri`th write of generation `gi`: the newest write at or before `at`,
/// in a generation no deletion at or before `at` has closed.
pub open spec fn reads_within(h: HistView, at: u64, n: nat, gi: int, ri: int) -> bool {
    &&& 0 <= gi < n
    &&& gi < h.len()
    &&& 0 <= ri < h[gi].revs.len()
    &&& h[gi].revs[ri].0 <= at
    &&& ri + 1 < h[gi].revs.len() ==> h[gi].revs[ri + 1].0 > at
    &&& gi + 1 < n ==> h[gi + 1].revs[0].0 > at
    &&& !(h[gi].closed && h[gi].revs.last().0 <= at)
}

/// Whether a read at `at` lands on the `ri`th write of generation `gi`:
/// that write is the newest of the key's writes at or before `at`, and no
/// deletion at or before `at` has closed its generation.
pub open spec fn reads_write(h: HistView, at: u64, gi: int, ri: int) -> bool {
    reads_within(h, at, h.len(), gi, ri)
}

/// What a read of a key with history `h` at revision `at` observes.
///
/// Writes dropped by compaction are still counted in the generation's
/// `ver`, so the version is counted back from the generation's end.
pub open spec fn observe(h: HistView, at: u64) -> Option<FoundView> {
    match locate(h, at) {
        None => None,
        Some((gi, ri)) => {
            let g = h[gi];
            Some(FoundView {
                modified: g.revs[ri],
                created: g.created,
                version: (g.ver - (g.revs.len() - 1 - ri)) as u64,
            })
        },
    }
}

/// The history a map of histories holds for `key`: empty when absent.
pub open spec fn history_of(m: Map<Seq<u8>, HistView>, key: Seq<u8>) -> HistView {
    if m.contains_key(key) {
        m[key]
    } else {
        Seq::empty()
    }
}

/// Whether `r` lists exactly the keys of `m` within `b` that a read at `at`
/// observes, ascending, with what each read observes.
pub open spec fn is_visible_range(
    r: Seq<(Seq<u8>, FoundView)>,
    m: Map<Seq<u8>, HistView>,
    b: BoundsView,
    at: u64,
) -> bool {
    &&& strictly_ascending(r.map_values(|p: (Seq<u8>, FoundView)| p.0))
    &&& forall|i: int|
        0 <= i < r.len() ==> {
            &&& m.contains_key(#[trigger] r[i].0)
            &&& b.contains(r[i].0)
            &&& observe(m[r[i].0], at) == Some(r[i].1)
        }
    &&& forall|k: Seq<u8>|
        #[trigger] m.contains_key(k) && b.contains(k) && observe(m[k], at) is Some ==> exists|i: int|
            0 <= i < r.len() && r[i].0 == k
}

/// In an ascending run, the writes at or before `at` are exactly those before position `p` when `p` splits the run there.
pub proof fn lemma_visible_count_partition(revs: Seq<(u64, u64)>, at: u64, p: int)
    requires
        0 <= p <= revs.len(),
        forall|i: int| 0 <= i < p ==> (#[trigger] revs[i]).0 <= at,
        forall|i: int| p <= i < revs.len() ==> (#[trigger] revs[i]).0 > at,
    ensures
        visible_count(revs, at) == p,
    decreases revs.len(),
{
    if revs.len() > 0 && p < revs.len() {
        lemma_visible_count_partition(revs.drop_last(), at, p);
    }
}

/// The writes of an ascending run at or before `at` are a prefix of it.
pub proof fn lemma_visible_count_bounds(revs: Seq<(u64, u64)>, at: u64)
    requires
        revs_increasing(revs),
    ensures
        visible_count(revs, at) <= revs.len(),
        forall|i: int| 0 <= i < visible_count(revs, at) ==> (#[trigger] revs[i]).0 <= at,
        forall|i: int| visible_count(revs, at) <= i < revs.len() ==> (#[trigger] revs[i]).0 > at,
    decreases revs.len(),
{
    if revs.len() > 0 {
        lemma_visible_count_bounds(revs.drop_last(), at);
        if revs.last().0 <= at {
            assert forall|i: int| 0 <= i < revs.len() implies (#[trigger] revs[i]).0 <= at by {
                if i < revs.len() - 1 {
                    assert(revs[i].0 < revs[revs.len() - 1].0);
                }
            }
        } else {
            assert forall|i: int| visible_count(revs, at) <= i < revs.len() implies (#[trigger] revs[i]).0 > at by {
                if i < revs.len() - 1 {
                    assert(revs.drop_last()[i] == revs[i]);
                }
            }
            assert forall|i: int| 0 <= i < visible_count(revs, at) implies (#[trigger] revs[i]).0 <= at by {
                assert(revs.drop_last()[i] == revs[i]);
            }
        }
    }
}

/// A located write lies inside the history.
pub proof fn lemma_locate_within_valid(h: HistView, at: u64, n: nat)
    requires
        hist_wf(h),
    ensures
        locate_within(h, at, n) matches Some((gi, ri)) ==> {
            &&& 0 <= gi < n
            &&& gi < h.len()
            &&& 0 <= ri < h[gi].revs.len()
            &&& ri == visible_count(h[gi].revs, at) - 1
            &&& h[gi].revs[ri].0 <= at
        },
    decreases n,
{
    if n > 0 && n <= h.len() {
        let g = h[n - 1];
        assert(gen_wf(g));
        lemma_visible_count_bounds(g.revs, at);
        lemma_locate_within_valid(h, at, (n - 1) as nat);
    }
}

/// Reads consult generations from the newest down, so histories that agree
/// on their oldest `m` generations agree on every search confined to them.
pub proof fn lemma_locate_prefix(h1: HistView, h2: HistView, at: u64, m: nat)
    requires
        m <= h1.len(),
        m <= h2.len(),
        forall|i: int| 0 <= i < m ==> h1[i] == h2[i],
    ensures
        locate_within(h1, at, m) == locate_within(h2, at, m),
    decreases m,
{
    if m > 0 {
        lemma_locate_prefix(h1, h2, at, (m - 1) as nat);
    }
}

/// Appending a write newer than `at` leaves what is visible at `at` alone.
proof fn lemma_visible_count_push(revs: Seq<(u64, u64)>, r: (u64, u64), at: u64)
    requires
        at < r.0,
    ensures
        visible_count(revs.push(r), at) == visible_count(revs, at),
{
    assert(revs.push(r).drop_last() =~= revs);
}

/// A write never changes what reads before it observe: the past stays as it was.
pub proof fn lemma_put_preserves_past(h: HistView, r: (u64, u64), at: u64)
    requires
        hist_wf(h),
        accepts(h, r),
        at < r.0,
    ensures
        observe(hist_put(h, r), at) == observe(h, at),
{
    let h2 = hist_put(h, r);
    let n = h.len();
    if n > 0 && !h.last().closed {
        let g = h.last();
        assert(gen_wf(g));
        lemma_locate_prefix(h, h2, at, (n - 1) as nat);
        lemma_visible_count_push(g.revs, r, at);
        lemma_visible_count_bounds(g.revs, at);
        assert(h2[n - 1].revs[0] == g.revs[0]);
        assert(h2[n - 1].revs.last() == r);
        lemma_locate_within_valid(h, at, n);
        match locate(h, at) {
            Some((gi, ri)) => {
                if gi < n - 1 {
                    assert(h2[gi] == h[gi]);
                } else {
                    assert(h2[gi].revs[ri] == h[gi].revs[ri]);
                }
            },
            None => {},
        }
    } else {
        lemma_locate_prefix(h, h2, at, n);
        lemma_locate_within_valid(h, at, n);
        match locate(h, at) {
            Some((gi, ri)) => {
                assert(h2[gi] == h[gi]);
            },
            None => {},
        }
    }
}

/// A read at or after a write observes that write: as a further version of
/// the key's current life, or as the first write of a new one.
pub proof fn lemma_put_is_visible(h: HistView, r: (u64, u64), at: u64)
    requires
        hist_wf(h),
        accepts(h, r),
        r.0 <= at,
    ensures
        observe(hist_put(h, r), at) == Some(
            if h.len() > 0 && !h.last().closed {
                FoundView { modified: r, created: h.last().created, version: (h.last().ver + 1) as u64 }
            } else {
                FoundView { modified: r, created: r, version: 1 }
            },
        ),
{
    let h2 = hist_put(h, r);
    let n = h.len();
    if n > 0 && !h.last().closed {
        let g = h.last();
        assert(gen_wf(g));
        let revs2 = g.revs.push(r);
        assert(revs2.last() == r);
        assert(h2[n - 1].revs == revs2);
        assert(revs2[0].0 <= r.0) by {
            if g.revs.len() > 0 {
                assert(g.revs[0].0 <= g.revs.last().0);
            }
        }
    } else {
        assert(h2[n as int].revs == seq![r]);
        assert(visible_count(seq![r], at) == 1);
    }
}

/// A read at or after a deletion finds the key absent.
pub proof fn lemma_delete_hides(h: HistView, r: (u64, u64), at: u64)
    requires
        hist_wf(h),
        accepts(h, r),
        hist_delete(h, r) is Some,
        r.0 <= at,
    ensures
        observe(hist_delete(h, r)->0, at) is None,
{
    let h2 = hist_delete(h, r)->0;
    assert(h2[h.len() - 1].revs.last() == r);
}

/// A deletion never changes what reads before it observe.
pub proof fn lemma_delete_preserves_past(h: HistView, r: (u64, u64), at: u64)
    requires
        hist_wf(h),
        accepts(h, r),
        hist_delete(h, r) is Some,
        at < r.0,
    ensures
        observe(hist_delete(h, r)->0, at) == observe(h, at),
{
    let h2 = hist_delete(h, r)->0;
    let n = h.len();
    let g = h.last();
    assert(gen_wf(g));
    lemma_locate_prefix(h, h2, at, (n - 1) as nat);
    lemma_visible_count_push(g.revs, r, at);
    lemma_visible_count_bounds(g.revs, at);
    assert(h2[n - 1].revs[0] == g.revs[0]);
    assert(h2[n - 1].revs.last() == r);
    lemma_locate_within_valid(h, at, n);
    match locate(h, at) {
        Some((gi, ri)) => {
            if gi < n - 1 {
                assert(h2[gi] == h[gi]);
            } else {
                assert(h2[gi].revs[ri] == h[gi].revs[ri]);
            }
        },
        None => {},
    }
}

/// The position from which generation `gi` keeps its revisions when the
/// history is compacted at `at`.
///
/// Everything after `at` stays visible to later reads. The revision current
/// at `at` stays too, unless it is a deletion, which no surviving read needs.
pub open spec fn keep_from(h: HistView, at: u64, gi: int) -> int {
    let g = h[gi];
    let p = visible_count(g.revs, at) as int;
    if locate(h, at) == Some((gi, p - 1)) && !(g.closed && p == g.revs.len()) {
        p - 1
    } else {
        p
    }
}

/// Generation `gi` with the revisions compaction at `at` drops removed.
pub open spec fn trimmed(h: HistView, at: u64, gi: int) -> GenView {
    GenView { revs: h[gi].revs.subrange(keep_from(h, at, gi), h[gi].revs.len() as int), ..h[gi] }
}

/// The first generation, from `i` on, that compaction at `at` keeps anything of.
pub open spec fn first_kept(h: HistView, at: u64, i: nat) -> nat
    decreases h.len() - i,
{
    if i >= h.len() {
        h.len()
    } else if keep_from(h, at, i as int) < h[i as int].revs.len() {
        i
    } else {
        first_kept(h, at, i + 1)
    }
}

/// The history after compaction at `at`: each generation trimmed, and the
/// generations left empty, which are always the oldest ones, removed.
pub open spec fn hist_compact(h: HistView, at: u64) -> HistView {
    let d = first_kept(h, at, 0);
    Seq::new((h.len() - d) as nat, |j: int| trimmed(h, at, d + j))
}

/// The revisions compaction at `at` drops from generations `0..n`, oldest first.
pub open spec fn dropped_within(h: HistView, at: u64, n: nat) -> Seq<(u64, u64)>
    decreases n,
{
    if n == 0 || n > h.len() {
        Seq::empty()
    } else {
        dropped_within(h, at, (n - 1) as nat) + h[n - 1].revs.subrange(0, keep_from(h, at, n - 1))
    }
}

/// The revisions compaction at `at` drops from `h`, oldest first.
pub open spec fn hist_dropped(h: HistView, at: u64) -> Seq<(u64, u64)> {
    dropped_within(h, at, h.len())
}

/// The histories after compaction at `at`: every history compacted, and
/// keys left with no history at all forgotten.
pub open spec fn compact_map(m: Map<Seq<u8>, HistView>, at: u64) -> Map<Seq<u8>, HistView> {
    Map::new(
        |k: Seq<u8>| m.contains_key(k) && hist_compact(m[k], at).len() > 0,
        |k: Seq<u8>| hist_compact(m[k], at),
    )
}

/// The revisions compaction at `at` drops from the histories of the first
/// `n` of `keys`, key by key and oldest first within a key.
pub open spec fn dropped_over(keys: Seq<Seq<u8>>, m: Map<Seq<u8>, HistView>, at: u64, n: nat) -> Seq<(u64, u64)>
    decreases n,
{
    if n == 0 || n > keys.len() {
        Seq::empty()
    } else {
        dropped_over(keys, m, at, (n - 1) as nat) + hist_dropped(m[keys[n - 1]], at)
    }
}

/// Whether every generation from `n` on is passed over by a read at `x`.
pub open spec fn passed_over(h: HistView, x: u64, n: int) -> bool {
    forall|gi: int|
        n <= gi < h.len() ==> {
            &&& !((#[trigger] h[gi]).closed && h[gi].revs.last().0 <= x)
            &&& h[gi].revs[0].0 > x
        }
}

/// Generations a read passes over do not change where it lands.
proof fn lemma_passed_over_locate(h: HistView, x: u64, n: nat, m: nat)
    requires
        hist_wf(h),
        n <= m <= h.len(),
        passed_over(h, x, n as int),
    ensures
        locate_within(h, x, m) == locate_within(h, x, n),
    decreases m,
{
    if m > n {
        assert(gen_wf(h[m - 1]));
        lemma_passed_over_locate(h, x, n, (m - 1) as nat);
    }
}

/// Where compaction trims a generation from lies within what is visible.
proof fn lemma_keep_from_bounds(h: HistView, at: u64, gi: int)
    requires
        hist_wf(h),
        0 <= gi < h.len(),
    ensures
        0 <= keep_from(h, at, gi) <= visible_count(h[gi].revs, at) <= h[gi].revs.len(),
        keep_from(h, at, gi) < visible_count(h[gi].revs, at) ==> keep_from(h, at, gi) == visible_count(h[gi].revs, at) - 1,
{
    assert(gen_wf(h[gi]));
    lemma_visible_count_bounds(h[gi].revs, at);
    lemma_locate_within_valid(h, at, h.len());
}

/// Generations compaction keeps anything of form a suffix: everything after
/// a kept generation is kept too.
proof fn lemma_kept_suffix(h: HistView, at: u64, i: int, j: int)
    requires
        hist_wf(h),
        0 <= i < j < h.len(),
        keep_from(h, at, i) < h[i].revs.len(),
    ensures
        keep_from(h, at, j) < h[j].revs.len(),
{
    let gi = h[i];
    let gj = h[j];
    assert(gen_wf(gi));
    assert(gen_wf(gj));
    assert(gi.closed);
    lemma_keep_from_bounds(h, at, i);
    lemma_keep_from_bounds(h, at, j);
    lemma_visible_count_bounds(gi.revs, at);
    lemma_visible_count_bounds(gj.revs, at);
    let pi = visible_count(gi.revs, at) as int;
    if pi < gi.revs.len() {
        assert(gi.revs[pi].0 > at);
        assert(gi.revs[pi].0 <= gi.revs.last().0);
        assert(gi.revs.last().0 < gj.revs[0].0);
        if visible_count(gj.revs, at) > 0 {
            assert(gj.revs[0].0 <= at);
        }
    }
}

/// The generations compaction keeps anything of are exactly those from `first_kept` on.
proof fn lemma_first_kept(h: HistView, at: u64, i: nat)
    requires
        hist_wf(h),
        i <= h.len(),
    ensures
        i <= first_kept(h, at, i) <= h.len(),
        forall|g: int| i <= g < first_kept(h, at, i) ==> keep_from(h, at, g) >= h[g].revs.len(),
        forall|g: int| first_kept(h, at, i) <= g < h.len() ==> keep_from(h, at, g) < h[g].revs.len(),
    decreases h.len() - i,
{
    if i < h.len() {
        if keep_from(h, at, i as int) < h[i as int].revs.len() {
            assert forall|g: int| i <= g < h.len() implies keep_from(h, at, g) < h[g].revs.len() by {
                if g > i {
                    lemma_kept_suffix(h, at, i as int, g);
                }
            }
        } else {
            lemma_first_kept(h, at, i + 1);
        }
    }
}

/// Dropping writes from the front of a run shifts what is visible by as many.
proof fn lemma_visible_count_suffix(revs: Seq<(u64, u64)>, at: u64, k: int)
    requires
        revs_increasing(revs),
        0 <= k <= visible_count(revs, at),
    ensures
        visible_count(revs.subrange(k, revs.len() as int), at) == visible_count(revs, at) - k,
{
    lemma_visible_count_bounds(revs, at);
    let s = revs.subrange(k, revs.len() as int);
    let p = visible_count(revs, at) - k;
    assert forall|i: int| 0 <= i < p implies (#[trigger] s[i]).0 <= at by {
        assert(s[i] == revs[i + k]);
    }
    assert forall|i: int| p <= i < s.len() implies (#[trigger] s[i]).0 > at by {
        assert(s[i] == revs[i + k]);
    }
    lemma_visible_count_partition(s, at, p);
}

/// Compaction keeps every history well formed.
pub proof fn lemma_compact_wf(h: HistView, at: u64)
    requires
        hist_wf(h),
    ensures
        hist_wf(hist_compact(h, at)),
        hist_compact(h, at).len() <= h.len(),
{
    let c = hist_compact(h, at);
    let d = first_kept(h, at, 0);
    lemma_first_kept(h, at, 0);
    assert forall|j: int| 0 <= j < c.len() implies gen_wf(#[trigger] c[j]) by {
        let gi = d + j;
        let g = h[gi];
        assert(gen_wf(g));
        lemma_keep_from_bounds(h, at, gi);
        let kf = keep_from(h, at, gi);
        let revs = c[j].revs;
        assert(revs == g.revs.subrange(kf, g.revs.len() as int));
        assert(revs.last() == g.revs.last());
        assert forall|a: int, b: int| 0 <= a < b < revs.len() implies (#[trigger] revs[a]).0 < (#[trigger] revs[b]).0 by {
            assert(revs[a] == g.revs[a + kf]);
            assert(revs[b] == g.revs[b + kf]);
        }
        assert forall|a: int| 0 <= a < revs.len() implies wire_valid((#[trigger] revs[a]).0, revs[a].1) by {
            assert(revs[a] == g.revs[a + kf]);
        }
    }
    assert forall|a: int, b: int| 0 <= a < b < c.len() implies (#[trigger] c[a]).revs.last().0 < (#[trigger] c[b]).revs[0].0 by {
        let ga = h[d + a];
        let gb = h[d + b];
        assert(gen_wf(ga));
        assert(gen_wf(gb));
        lemma_keep_from_bounds(h, at, d + a);
        lemma_keep_from_bounds(h, at, d + b);
        let kb = keep_from(h, at, d + b);
        assert(c[a].revs.last() == ga.revs.last());
        assert(c[b].revs[0] == gb.revs[kb]);
        assert(gb.revs[0].0 <= gb.revs[kb].0);
    }
    assert forall|a: int| 0 <= a < c.len() - 1 implies (#[trigger] c[a]).closed by {
        assert(c[a].closed == h[d + a].closed);
    }
}

/// Compaction never drops a key's newest revision while it keeps anything of
/// the key.
pub proof fn lemma_compact_latest(h: HistView, at: u64)
    requires
        hist_wf(h),
        hist_compact(h, at).len() > 0,
    ensures
        latest_main(hist_compact(h, at)) == latest_main(h),
{
    let c = hist_compact(h, at);
    let d = first_kept(h, at, 0) as int;
    lemma_first_kept(h, at, 0);
    let last = h.len() - 1;
    assert(c.last() == trimmed(h, at, last));
    lemma_keep_from_bounds(h, at, last);
    assert(gen_wf(h[last]));
    assert(c.last().revs.last() == h.last().revs.last());
}

/// The step of [`lemma_compact_preserves_reads`]: searching the compacted
/// history finds the same write, shifted by what compaction removed.
#[verifier::rlimit(40)]
#[verifier::spinoff_prover]
proof fn lemma_compact_locate(h: HistView, at: u64, x: u64, n: nat)
    requires
        hist_wf(h),
        at <= x,
        first_kept(h, at, 0) <= n <= h.len(),
        passed_over(h, x, n as int),
    ensures
        ({
            let d = first_kept(h, at, 0) as int;
            let c = hist_compact(h, at);
            match locate_within(h, x, n) {
                None => locate_within(c, x, (n - d) as nat) is None,
                Some((gi, ri)) => {
                    &&& d <= gi < h.len()
                    &&& keep_from(h, at, gi) <= ri
                    &&& locate_within(c, x, (n - d) as nat) == Some((gi - d, ri - keep_from(h, at, gi)))
                },
            }
        }),
    decreases n,
{
    let d = first_kept(h, at, 0) as int;
    let c = hist_compact(h, at);
    lemma_first_kept(h, at, 0);
    if n as int == d {
        if d > 0 {
            let g = h[d - 1];
            assert(gen_wf(g));
            lemma_keep_from_bounds(h, at, d - 1);
            lemma_visible_count_bounds(g.revs, at);
            let p = visible_count(g.revs, at) as int;
            assert(keep_from(h, at, d - 1) >= g.revs.len());
            assert(p == g.revs.len());
            assert(g.revs.last().0 <= at);
            assert(g.revs[0].0 <= g.revs.last().0);
            if !g.closed {
                assert(d - 1 == h.len() - 1);
                assert(locate(h, at) == Some((d - 1, p - 1)));
                assert(false);
            }
        }
    } else {
        let gi = n - 1;
        let g = h[gi];
        assert(gen_wf(g));
        lemma_keep_from_bounds(h, at, gi);
        lemma_visible_count_bounds(g.revs, at);
        let kf = keep_from(h, at, gi);
        let cj = gi - d;
        assert(c[cj] == trimmed(h, at, gi));
        let revs2 = c[cj].revs;
        assert(revs2 == g.revs.subrange(kf, g.revs.len() as int));
        assert(revs2.last() == g.revs.last());
        assert(revs2[0] == g.revs[kf]);
        assert((n - d - 1) as int == cj);
        if g.closed && g.revs.last().0 <= x {
        } else if g.revs[0].0 <= x {
            if g.revs[kf].0 <= x {
                lemma_visible_count_bounds(g.revs, x);
                lemma_visible_count_suffix(g.revs, x, kf);
            } else {
                // The write current at `at` would have been kept here.
                let p = visible_count(g.revs, at) as int;
                assert(kf == p);
                assert(p >= 1);
                assert forall|gj: int| n <= gj < h.len() implies {
                    &&& !((#[trigger] h[gj]).closed && h[gj].revs.last().0 <= at)
                    &&& h[gj].revs[0].0 > at
                } by {
                }
                lemma_passed_over_locate(h, at, n, h.len());
                assert(g.revs[0].0 <= g.revs[p - 1].0);
                assert(locate(h, at) == Some((gi as int, p - 1)));
                assert(false);
            }
        } else {
            assert(g.revs[0].0 <= g.revs[kf].0);
            lemma_compact_locate(h, at, x, (n - 1) as nat);
        }
    }
}

/// What a read observes was written at or before the read, not before the
/// key's creation, and counts at least one write.
pub proof fn lemma_observed_sane(h: HistView, at: u64)
    requires
        hist_wf(h),
    ensures
        observe(h, at) matches Some(f) ==> {
            &&& f.modified.0 <= at
            &&& rev_le(f.created, f.modified)
            &&& f.version >= 1
        },
{
    lemma_locate_within_valid(h, at, h.len());
    if let Some((gi, ri)) = locate(h, at) {
        let g = h[gi];
        assert(gen_wf(g));
        if ri > 0 {
            assert(g.revs[0].0 < g.revs[ri].0);
        }
    }
}

/// Where the search of the first `n` generations lands is the one write
/// a read at `at` lands on among them, and it finds none when there is none.
proof fn lemma_locate_within_reads(h: HistView, at: u64, n: nat)
    requires
        hist_wf(h),
        n <= h.len(),
    ensures
        match locate_within(h, at, n) {
            Some((gi, ri)) => reads_within(h, at, n, gi, ri) && forall|a: int, b: int|
                #[trigger] reads_within(h, at, n, a, b) ==> a == gi && b == ri,
            None => forall|a: int, b: int| !#[trigger] reads_within(h, at, n, a, b),
        },
    decreases n,
{
    if n > 0 {
        lemma_locate_within_reads(h, at, (n - 1) as nat);
        let g = h[n - 1];
        assert(gen_wf(g));
        lemma_visible_count_bounds(g.revs, at);
        assert forall|a: int| 0 <= a < n - 1 implies (#[trigger] h[a + 1]).revs[0].0 <= g.revs[0].0 by {
            if a + 1 < n - 1 {
                assert(gen_wf(h[a + 1]));
                assert(h[a + 1].revs[0].0 <= h[a + 1].revs.last().0);
                assert(h[a + 1].revs.last().0 < g.revs[0].0);
            }
        }
        assert(g.revs[0].0 <= g.revs.last().0);
        if g.closed && g.revs.last().0 <= at {
            assert forall|a: int, b: int| !#[trigger] reads_within(h, at, n, a, b) by {
                if reads_within(h, at, n, a, b) && a < n - 1 {
                    assert(h[a + 1].revs[0].0 <= g.revs[0].0);
                }
            }
        } else if g.revs[0].0 <= at {
            let ri = visible_count(g.revs, at) - 1;
            assert(reads_within(h, at, n, n - 1, ri));
            assert forall|a: int, b: int| #[trigger] reads_within(h, at, n, a, b) implies a == n - 1 && b == ri by {
                if a < n - 1 {
                    assert(h[a + 1].revs[0].0 <= g.revs[0].0);
                } else {
                    if b < ri {
                        assert(g.revs[b + 1].0 <= at);
                    }
                    if b > ri {
                        assert(g.revs[b].0 > at);
                    }
                }
            }
        } else {
            assert forall|a: int, b: int| #[trigger] reads_within(h, at, n, a, b) <==> reads_within(h, at, (n - 1) as nat, a, b) by {
                if reads_within(h, at, n, a, b) {
                    if a == n - 1 {
                        if b > 0 {
                            assert(g.revs[0].0 < g.revs[b].0);
                        }
                    }
                }
                if reads_within(h, at, (n - 1) as nat, a, b) && a + 1 == n - 1 {
                    assert(h[a + 1] == g);
                }
            }
        }
    }
}

/// A read at `at` observes the one write it lands on: the newest write at or
/// before `at` in a generation no deletion at or before `at` has closed,
/// and observes nothing when there is none.
pub proof fn lemma_observe_reads(h: HistView, at: u64)
    requires
        hist_wf(h),
    ensures
        match locate(h, at) {
            Some((gi, ri)) => reads_write(h, at, gi, ri) && observe(h, at) == Some(
                FoundView {
                    modified: h[gi].revs[ri],
                    created: h[gi].created,
                    version: (h[gi].ver - (h[gi].revs.len() - 1 - ri)) as u64,
                },
            ) && forall|a: int, b: int| #[trigger] reads_write(h, at, a, b) ==> a == gi && b == ri,
            None => observe(h, at) is None && forall|a: int, b: int| !#[trigger] reads_write(h, at, a, b),
        },
{
    lemma_locate_within_reads(h, at, h.len());
}

/// Every generation of a history compacted at `at` keeps all of its
/// revisions when compacted at `at` again.
proof fn lemma_compact_keeps_all(h: HistView, at: u64, j: int)
    requires
        hist_wf(h),
        0 <= j < hist_compact(h, at).len(),
    ensures
        keep_from(hist_compact(h, at), at, j) == 0,
{
    let c = hist_compact(h, at);
    let d = first_kept(h, at, 0) as int;
    lemma_first_kept(h, at, 0);
    lemma_compact_wf(h, at);
    let gi = d + j;
    let g = h[gi];
    assert(gen_wf(g));
    lemma_keep_from_bounds(h, at, gi);
    let kf = keep_from(h, at, gi);
    let p = visible_count(g.revs, at) as int;
    lemma_visible_count_bounds(g.revs, at);
    assert(c[j] == trimmed(h, at, gi));
    let cr = c[j].revs;
    assert(cr =~= g.revs.subrange(kf, g.revs.len() as int));
    assert forall|i: int| 0 <= i < p - kf implies (#[trigger] cr[i]).0 <= at by {
        assert(cr[i] == g.revs[kf + i]);
    }
    assert forall|i: int| p - kf <= i < cr.len() implies (#[trigger] cr[i]).0 > at by {
        assert(cr[i] == g.revs[kf + i]);
    }
    lemma_visible_count_partition(cr, at, p - kf);
    lemma_locate_within_valid(c, at, c.len());
    if kf < p {
        lemma_compact_locate(h, at, at, h.len());
        lemma_locate_within_valid(h, at, h.len());
        assert(locate(h, at) == Some((gi, p - 1)));
        assert(locate(c, at) == Some((j, 0int)));
    }
}

/// The first `n` generations of a history compacted at `at` drop nothing
/// when compacted at `at` again.
proof fn lemma_recompact_within(h: HistView, at: u64, n: nat)
    requires
        hist_wf(h),
        n <= hist_compact(h, at).len(),
    ensures
        dropped_within(hist_compact(h, at), at, n) == Seq::<(u64, u64)>::empty(),
    decreases n,
{
    if n > 0 {
        let c = hist_compact(h, at);
        lemma_recompact_within(h, at, (n - 1) as nat);
        lemma_compact_keeps_all(h, at, n - 1);
        assert(c[n - 1].revs.subrange(0, 0) =~= Seq::<(u64, u64)>::empty());
        assert(dropped_within(c, at, n) =~= Seq::<(u64, u64)>::empty());
    }
}

/// A history that reads as absent at `at` and holds no write after `at` is
/// emptied by compaction at `at`: the key is forgotten.
pub proof fn lemma_compaction_forgets_dead_history(h: HistView, at: u64)
    requires
        hist_wf(h),
        observe(h, at) is None,
        latest_main(h) matches Some(m) ==> m <= at,
    ensures
        hist_compact(h, at).len() == 0,
{
    lemma_first_kept(h, at, 0);
    let d = first_kept(h, at, 0);
    if d < h.len() {
        let gi = d as int;
        let g = h[gi];
        assert(gen_wf(g));
        assert forall|i: int| 0 <= i < g.revs.len() implies (#[trigger] g.revs[i]).0 <= at by {
            assert(holds(h, g.revs[i]));
            lemma_held_below_latest(h, g.revs[i]);
        }
        lemma_visible_count_partition(g.revs, at, g.revs.len() as int);
        assert(locate(h, at) is None);
        assert(keep_from(h, at, gi) == g.revs.len());
    }
}

/// Compaction at `at` forgets every key that reads as absent at `at` and
/// has no write after `at`.
pub proof fn lemma_compaction_forgets_dead_keys(m: Map<Seq<u8>, HistView>, at: u64, k: Seq<u8>)
    requires
        forall|j: Seq<u8>| #[trigger] m.contains_key(j) ==> hist_wf(m[j]),
        m.contains_key(k),
        observe(m[k], at) is None,
        latest_main(m[k]) matches Some(x) ==> x <= at,
    ensures
        !compact_map(m, at).contains_key(k),
{
    lemma_compaction_forgets_dead_history(m[k], at);
}

/// The revisions the first `n` generations of `h` hold, oldest first.
pub open spec fn revs_within(h: HistView, n: nat) -> Seq<(u64, u64)>
    decreases n,
{
    if n == 0 || n > h.len() {
        Seq::empty()
    } else {
        revs_within(h, (n - 1) as nat) + h[n - 1].revs
    }
}

/// Every revision `h` holds, oldest first.
pub open spec fn hist_revs(h: HistView) -> Seq<(u64, u64)> {
    revs_within(h, h.len())
}

/// The revisions compaction at `at` keeps of the first `n` generations of `h`.
pub open spec fn kept_within(h: HistView, at: u64, n: nat) -> Seq<(u64, u64)>
    decreases n,
{
    if n == 0 || n > h.len() {
        Seq::empty()
    } else {
        kept_within(h, at, (n - 1) as nat) + trimmed(h, at, n - 1).revs
    }
}

/// The revisions the histories of the first `n` of `keys` hold, key by key.
pub open spec fn revs_over(keys: Seq<Seq<u8>>, m: Map<Seq<u8>, HistView>, n: nat) -> Seq<(u64, u64)>
    decreases n,
{
    if n == 0 || n > keys.len() {
        Seq::empty()
    } else {
        revs_over(keys, m, (n - 1) as nat) + hist_revs(m[keys[n - 1]])
    }
}

/// The revisions the histories of the first `n` of `keys` still hold after
/// compaction at `at`, key by key: for a key compaction forgets, none.
pub open spec fn kept_over(keys: Seq<Seq<u8>>, m: Map<Seq<u8>, HistView>, at: u64, n: nat) -> Seq<(u64, u64)>
    decreases n,
{
    if n == 0 || n > keys.len() {
        Seq::empty()
    } else {
        kept_over(keys, m, at, (n - 1) as nat) + hist_revs(hist_compact(m[keys[n - 1]], at))
    }
}

/// Within a history, the revisions compaction drops and those it keeps are,
/// together, the revisions the history held.
proof fn lemma_partition_within(h: HistView, at: u64, n: nat)
    requires
        hist_wf(h),
        n <= h.len(),
    ensures
        revs_within(h, n).to_multiset() =~= dropped_within(h, at, n).to_multiset().add(
            kept_within(h, at, n).to_multiset(),
        ),
    decreases n,
{
    broadcast use vstd::multiset::group_multiset_axioms;
    if n > 0 {
        lemma_partition_within(h, at, (n - 1) as nat);
        let g = h[n - 1];
        lemma_keep_from_bounds(h, at, n - 1);
        let kf = keep_from(h, at, n - 1);
        let pre = g.revs.subrange(0, kf);
        let suf = trimmed(h, at, n - 1).revs;
        assert(g.revs =~= pre + suf);
        let r = revs_within(h, (n - 1) as nat);
        let d = dropped_within(h, at, (n - 1) as nat);
        let k = kept_within(h, at, (n - 1) as nat);
        assert(revs_within(h, n) == r + g.revs);
        assert(dropped_within(h, at, n) == d + pre);
        assert(kept_within(h, at, n) == k + suf);
        vstd::seq_lib::lemma_multiset_commutative(r, g.revs);
        vstd::seq_lib::lemma_multiset_commutative(pre, suf);
        vstd::seq_lib::lemma_multiset_commutative(d, pre);
        vstd::seq_lib::lemma_multiset_commutative(k, suf);
    } else {
        let e = Seq::<(u64, u64)>::empty();
        vstd::seq_lib::lemma_multiset_commutative(e, e);
        assert(e + e =~= e);
    }
}

/// What compaction keeps of a history's generations is what the compacted
/// history holds.
proof fn lemma_kept_is_compacted(h: HistView, at: u64, n: nat)
    requires
        hist_wf(h),
        n <= h.len(),
    ensures
        n <= first_kept(h, at, 0) ==> kept_within(h, at, n) == Seq::<(u64, u64)>::empty(),
        first_kept(h, at, 0) <= n ==> kept_within(h, at, n) == revs_within(
            hist_compact(h, at),
            (n - first_kept(h, at, 0)) as nat,
        ),
    decreases n,
{
    lemma_first_kept(h, at, 0);
    let d = first_kept(h, at, 0) as int;
    let c = hist_compact(h, at);
    if n > 0 {
        lemma_kept_is_compacted(h, at, (n - 1) as nat);
        lemma_keep_from_bounds(h, at, n - 1);
        if n <= d {
            assert(trimmed(h, at, n - 1).revs =~= Seq::<(u64, u64)>::empty());
            assert(kept_within(h, at, n) =~= Seq::<(u64, u64)>::empty());
        } else {
            assert(c[n - 1 - d] == trimmed(h, at, n - 1));
            if n - 1 == d {
                assert(revs_within(c, 0) =~= Seq::<(u64, u64)>::empty());
                assert(kept_within(h, at, (n - 1) as nat) =~= Seq::<(u64, u64)>::empty());
            }
            assert(kept_within(h, at, n) =~= revs_within(c, (n - d) as nat));
        }
    }
}

/// Compaction at `at` loses no revision and invents none: the revisions it
/// drops from the histories of `keys`, with those the histories still hold
/// afterwards, are exactly the revisions they held before, as a multiset.
pub proof fn lemma_compaction_partitions(keys: Seq<Seq<u8>>, m: Map<Seq<u8>, HistView>, at: u64, n: nat)
    requires
        forall|k: Seq<u8>| #[trigger] m.contains_key(k) ==> hist_wf(m[k]),
        forall|i: int| 0 <= i < keys.len() ==> m.contains_key(#[trigger] keys[i]),
    ensures
        revs_over(keys, m, n).to_multiset() =~= dropped_over(keys, m, at, n).to_multiset().add(
            kept_over(keys, m, at, n).to_multiset(),
        ),
    decreases n,
{
    broadcast use vstd::multiset::group_multiset_axioms;
    if n > 0 && n <= keys.len() {
        lemma_compaction_partitions(keys, m, at, (n - 1) as nat);
        let h = m[keys[n - 1]];
        assert(m.contains_key(keys[n - 1]));
        lemma_partition_within(h, at, h.len());
        lemma_kept_is_compacted(h, at, h.len());
        lemma_first_kept(h, at, 0);
        assert(hist_compact(h, at).len() == h.len() - first_kept(h, at, 0));
        let r = revs_over(keys, m, (n - 1) as nat);
        let d = dropped_over(keys, m, at, (n - 1) as nat);
        let k = kept_over(keys, m, at, (n - 1) as nat);
        assert(revs_over(keys, m, n) == r + hist_revs(h));
        assert(dropped_over(keys, m, at, n) == d + hist_dropped(h, at));
        assert(kept_over(keys, m, at, n) == k + hist_revs(hist_compact(h, at)));
        assert(kept_within(h, at, h.len()) == hist_revs(hist_compact(h, at)));
        vstd::seq_lib::lemma_multiset_commutative(r, hist_revs(h));
        vstd::seq_lib::lemma_multiset_commutative(d, hist_dropped(h, at));
        vstd::seq_lib::lemma_multiset_commutative(k, hist_revs(hist_compact(h, at)));
    } else {
        let e = Seq::<(u64, u64)>::empty();
        vstd::seq_lib::lemma_multiset_commutative(e, e);
        assert(e + e =~= e);
    }
}

/// Compaction at `at` drops only revisions at or before `at`.
pub proof fn lemma_dropped_at_or_before(keys: Seq<Seq<u8>>, m: Map<Seq<u8>, HistView>, at: u64, x: (u64, u64))
    requires
        forall|k: Seq<u8>| #[trigger] m.contains_key(k) ==> hist_wf(m[k]),
        forall|i: int| 0 <= i < keys.len() ==> m.contains_key(#[trigger] keys[i]),
        dropped_over(keys, m, at, keys.len()).contains(x),
    ensures
        x.0 <= at,
{
    lemma_dropped_over_from(keys, m, at, keys.len(), x);
    let i = choose|i: int| 0 <= i < keys.len() && #[trigger] hist_dropped(m[keys[i]], at).contains(x);
    let h = m[keys[i]];
    assert(m.contains_key(keys[i]));
    lemma_dropped_within(h, at, h.len(), x);
    let (gi, ri) = choose|gi: int, ri: int|
        0 <= gi < h.len() && 0 <= ri < keep_from(h, at, gi) && ri < h[gi].revs.len() && #[trigger] h[gi].revs[ri] == x;
    lemma_keep_from_bounds(h, at, gi);
    assert(gen_wf(h[gi]));
    lemma_visible_count_bounds(h[gi].revs, at);
}

/// Two sequences without duplicates that share no element concatenate to
/// one without duplicates.
proof fn lemma_concat_no_duplicates(a: Seq<(u64, u64)>, b: Seq<(u64, u64)>)
    requires
        a.no_duplicates(),
        b.no_duplicates(),
        forall|x: (u64, u64)| a.contains(x) ==> !b.contains(x),
    ensures
        (a + b).no_duplicates(),
{
    let c = a + b;
    assert forall|i: int, j: int| 0 <= i < c.len() && 0 <= j < c.len() && i != j implies c[i] != c[j] by {
        if i < a.len() && j >= a.len() {
            assert(a.contains(c[i]));
            assert(b[j - a.len()] == c[j]);
        } else if j < a.len() && i >= a.len() {
            assert(a.contains(c[j]));
            assert(b[i - a.len()] == c[i]);
        } else if i >= a.len() {
            assert(c[i] == b[i - a.len()] && c[j] == b[j - a.len()]);
        }
    }
}

/// Compaction drops no revision of a history twice.
proof fn lemma_dropped_within_unique(h: HistView, at: u64, n: nat)
    requires
        hist_wf(h),
        n <= h.len(),
    ensures
        dropped_within(h, at, n).no_duplicates(),
    decreases n,
{
    if n > 0 {
        lemma_dropped_within_unique(h, at, (n - 1) as nat);
        let prior = dropped_within(h, at, (n - 1) as nat);
        let g = h[n - 1];
        assert(gen_wf(g));
        lemma_keep_from_bounds(h, at, n - 1);
        let part = g.revs.subrange(0, keep_from(h, at, n - 1));
        assert forall|i: int, j: int| 0 <= i < part.len() && 0 <= j < part.len() && i != j implies part[i] != part[j] by {
            if i < j {
                assert(g.revs[i].0 < g.revs[j].0);
            } else {
                assert(g.revs[j].0 < g.revs[i].0);
            }
        }
        assert forall|x: (u64, u64)| prior.contains(x) implies !part.contains(x) by {
            lemma_dropped_within(h, at, (n - 1) as nat, x);
            let (gi, ri) = choose|gi: int, ri: int|
                0 <= gi < n - 1 && 0 <= ri < keep_from(h, at, gi) && ri < h[gi].revs.len() && #[trigger] h[gi].revs[ri] == x;
            assert(gen_wf(h[gi]));
            if ri < h[gi].revs.len() - 1 {
                assert(h[gi].revs[ri].0 < h[gi].revs.last().0);
            }
            assert(h[gi].revs.last().0 < g.revs[0].0);
            if part.contains(x) {
                let k = choose|k: int| 0 <= k < part.len() && part[k] == x;
                if k > 0 {
                    assert(g.revs[0].0 < g.revs[k].0);
                }
            }
        }
        lemma_concat_no_duplicates(prior, part);
    }
}

/// Compaction drops no revision twice: the revisions dropped from the
/// histories of distinct keys, none of which shares a revision with
/// another, are all distinct.
pub proof fn lemma_dropped_unique(keys: Seq<Seq<u8>>, m: Map<Seq<u8>, HistView>, at: u64, n: nat)
    requires
        forall|k: Seq<u8>| #[trigger] m.contains_key(k) ==> hist_wf(m[k]),
        forall|i: int| 0 <= i < keys.len() ==> m.contains_key(#[trigger] keys[i]),
        keys.no_duplicates(),
        revisions_unshared(m),
        n <= keys.len(),
    ensures
        dropped_over(keys, m, at, n).no_duplicates(),
    decreases n,
{
    if n > 0 {
        lemma_dropped_unique(keys, m, at, (n - 1) as nat);
        let prior = dropped_over(keys, m, at, (n - 1) as nat);
        let k = keys[n - 1];
        assert(m.contains_key(k));
        let h = m[k];
        lemma_dropped_within_unique(h, at, h.len());
        assert forall|x: (u64, u64)| prior.contains(x) implies !hist_dropped(h, at).contains(x) by {
            lemma_dropped_over_from(keys, m, at, (n - 1) as nat, x);
            let i = choose|i: int| 0 <= i < n - 1 && #[trigger] hist_dropped(m[keys[i]], at).contains(x);
            assert(m.contains_key(keys[i]));
            lemma_dropped_not_kept(m[keys[i]], at, x);
            if hist_dropped(h, at).contains(x) {
                lemma_dropped_not_kept(h, at, x);
                assert(keys[i] != k);
            }
        }
        lemma_concat_no_duplicates(prior, hist_dropped(h, at));
    }
}

/// The first `n` of `keys` that compaction at `at` keeps a history for, in order.
pub open spec fn kept_keys(keys: Seq<Seq<u8>>, m: Map<Seq<u8>, HistView>, at: u64, n: nat) -> Seq<Seq<u8>>
    decreases n,
{
    if n == 0 || n > keys.len() {
        Seq::empty()
    } else {
        let prior = kept_keys(keys, m, at, (n - 1) as nat);
        if hist_compact(m[keys[n - 1]], at).len() > 0 {
            prior.push(keys[n - 1])
        } else {
            prior
        }
    }
}

/// The revisions of the first `n` keys depend on those keys alone.
proof fn lemma_revs_over_prefix(keys: Seq<Seq<u8>>, more: Seq<Seq<u8>>, m: Map<Seq<u8>, HistView>, n: nat)
    requires
        n <= keys.len(),
    ensures
        revs_over(keys + more, m, n) == revs_over(keys, m, n),
    decreases n,
{
    if n > 0 {
        lemma_revs_over_prefix(keys, more, m, (n - 1) as nat);
        assert((keys + more)[n - 1] == keys[n - 1]);
    }
}

/// The kept keys are drawn, in order, from the first `n` keys, and hold
/// exactly those whose compacted history is not empty.
proof fn lemma_kept_keys(keys: Seq<Seq<u8>>, m: Map<Seq<u8>, HistView>, at: u64, n: nat)
    requires
        strictly_ascending(keys),
        n <= keys.len(),
    ensures
        strictly_ascending(kept_keys(keys, m, at, n)),
        forall|i: int| 0 <= i < kept_keys(keys, m, at, n).len() ==> exists|j: int|
            0 <= j < n && keys[j] == #[trigger] kept_keys(keys, m, at, n)[i],
        forall|k: Seq<u8>| #[trigger] kept_keys(keys, m, at, n).contains(k) <==> exists|j: int|
            0 <= j < n && keys[j] == k && hist_compact(m[k], at).len() > 0,
    decreases n,
{
    if n > 0 {
        lemma_kept_keys(keys, m, at, (n - 1) as nat);
        let prior = kept_keys(keys, m, at, (n - 1) as nat);
        let k = keys[n - 1];
        let cur = kept_keys(keys, m, at, n);
        if hist_compact(m[k], at).len() > 0 {
            assert(cur == prior.push(k));
            assert forall|a: int, b: int| 0 <= a < b < cur.len() implies crate::bytes::lex_lt(#[trigger] cur[a], #[trigger] cur[b]) by {
                if b == cur.len() - 1 {
                    let j = choose|j: int| 0 <= j < n - 1 && keys[j] == #[trigger] prior[a];
                    assert(cur[a] == prior[a]);
                } else {
                    assert(cur[a] == prior[a] && cur[b] == prior[b]);
                }
            }
            assert forall|i: int| 0 <= i < cur.len() implies exists|j: int| 0 <= j < n && keys[j] == #[trigger] cur[i] by {
                if i < cur.len() - 1 {
                    assert(cur[i] == prior[i]);
                    let j = choose|j: int| 0 <= j < n - 1 && keys[j] == #[trigger] prior[i];
                } else {
                    assert(keys[n - 1] == cur[i]);
                }
            }
            assert forall|x: Seq<u8>| #[trigger] cur.contains(x) <==> exists|j: int|
                0 <= j < n && keys[j] == x && hist_compact(m[x], at).len() > 0 by {
                if cur.contains(x) {
                    let i = choose|i: int| 0 <= i < cur.len() && cur[i] == x;
                    if i < cur.len() - 1 {
                        assert(prior[i] == x);
                        assert(prior.contains(x));
                    } else {
                        assert(keys[n - 1] == x);
                    }
                }
                if exists|j: int| 0 <= j < n && keys[j] == x && hist_compact(m[x], at).len() > 0 {
                    let j = choose|j: int| 0 <= j < n && keys[j] == x && hist_compact(m[x], at).len() > 0;
                    if j < n - 1 {
                        assert(prior.contains(x));
                        let i = choose|i: int| 0 <= i < prior.len() && prior[i] == x;
                        assert(cur[i] == x);
                    } else {
                        assert(cur[cur.len() - 1] == x);
                    }
                }
            }
        } else {
            assert forall|i: int| 0 <= i < cur.len() implies exists|j: int| 0 <= j < n && keys[j] == #[trigger] cur[i] by {
                let j = choose|j: int| 0 <= j < n - 1 && keys[j] == #[trigger] prior[i];
            }
            assert forall|x: Seq<u8>| #[trigger] cur.contains(x) <==> exists|j: int|
                0 <= j < n && keys[j] == x && hist_compact(m[x], at).len() > 0 by {
                if exists|j: int| 0 <= j < n && keys[j] == x && hist_compact(m[x], at).len() > 0 {
                    let j = choose|j: int| 0 <= j < n && keys[j] == x && hist_compact(m[x], at).len() > 0;
                    if j == n - 1 {
                        assert(false);
                    }
                }
            }
        }
    }
}

/// What compaction keeps of the first `n` keys is exactly what the compacted
/// histories of the keys it keeps hold.
proof fn lemma_kept_over_is_kept_keys(keys: Seq<Seq<u8>>, m: Map<Seq<u8>, HistView>, at: u64, n: nat)
    requires
        n <= keys.len(),
        forall|i: int| 0 <= i < keys.len() ==> m.contains_key(#[trigger] keys[i]),
    ensures
        kept_over(keys, m, at, n) == revs_over(
            kept_keys(keys, m, at, n),
            compact_map(m, at),
            kept_keys(keys, m, at, n).len(),
        ),
    decreases n,
{
    if n > 0 {
        lemma_kept_over_is_kept_keys(keys, m, at, (n - 1) as nat);
        let prior = kept_keys(keys, m, at, (n - 1) as nat);
        let k = keys[n - 1];
        let c = hist_compact(m[k], at);
        assert(m.contains_key(k));
        if c.len() > 0 {
            lemma_revs_over_prefix(prior, seq![k], compact_map(m, at), prior.len());
            assert(prior.push(k) == prior + seq![k]);
            assert(compact_map(m, at).contains_key(k));
            assert(prior.push(k)[prior.len() as int] == k);
        } else {
            assert(hist_revs(c) =~= Seq::<(u64, u64)>::empty());
            assert(kept_over(keys, m, at, n) =~= kept_over(keys, m, at, (n - 1) as nat));
        }
    }
}

/// Compaction at `at` loses no revision and invents none, against the
/// compacted index itself: the revisions it drops, with those the compacted
/// histories hold, key by key in the compacted index's own order, are
/// exactly the revisions held before, as a multiset.
pub proof fn lemma_compaction_partitions_index(
    keys: Seq<Seq<u8>>,
    kept: Seq<Seq<u8>>,
    m: Map<Seq<u8>, HistView>,
    at: u64,
)
    requires
        forall|k: Seq<u8>| #[trigger] m.contains_key(k) ==> hist_wf(m[k]),
        strictly_ascending(keys),
        forall|k: Seq<u8>| m.contains_key(k) <==> #[trigger] keys.contains(k),
        strictly_ascending(kept),
        forall|k: Seq<u8>| compact_map(m, at).contains_key(k) <==> #[trigger] kept.contains(k),
    ensures
        revs_over(keys, m, keys.len()).to_multiset() =~= dropped_over(keys, m, at, keys.len()).to_multiset().add(
            revs_over(kept, compact_map(m, at), kept.len()).to_multiset(),
        ),
{
    assert forall|i: int| 0 <= i < keys.len() implies m.contains_key(#[trigger] keys[i]) by {
        assert(keys.contains(keys[i]));
    }
    lemma_compaction_partitions(keys, m, at, keys.len());
    lemma_kept_keys(keys, m, at, keys.len());
    let kk = kept_keys(keys, m, at, keys.len());
    assert forall|k: Seq<u8>| kk.contains(k) <==> kept.contains(k) by {
        if kk.contains(k) {
            let j = choose|j: int| 0 <= j < keys.len() && keys[j] == k && hist_compact(m[k], at).len() > 0;
            assert(keys.contains(k));
            assert(compact_map(m, at).contains_key(k));
        }
        if kept.contains(k) {
            assert(compact_map(m, at).contains_key(k));
            assert(keys.contains(k));
            let j = choose|j: int| 0 <= j < keys.len() && keys[j] == k;
        }
    }
    crate::sorted_map::lemma_ascending_unique(kk, kept);
    lemma_kept_over_is_kept_keys(keys, m, at, keys.len());
}

/// The law of compacting an index at `at`, stated over the index before and
/// after: the revisions it drops are at or before `at` and, when no revision
/// is held by two keys, distinct; and together with the revisions the
/// compacted index holds they are exactly the revisions held before, as a
/// multiset.
pub proof fn lemma_index_compaction(before: Index, after: Index, at: u64)
    requires
        before.wf(),
        after.wf(),
        after.view() == compact_map(before.view(), at),
    ensures
        ({
            let dropped = dropped_over(before.key_order(), before.view(), at, before.key_order().len());
            &&& forall|i: int| 0 <= i < dropped.len() ==> (#[trigger] dropped[i]).0 <= at
            &&& revisions_unshared(before.view()) ==> dropped.no_duplicates()
            &&& revs_over(before.key_order(), before.view(), before.key_order().len()).to_multiset()
                =~= dropped.to_multiset().add(
                revs_over(after.key_order(), after.view(), after.key_order().len()).to_multiset(),
            )
        }),
{
    before.lemma_all_histories();
    before.lemma_key_order();
    after.lemma_key_order();
    let keys = before.key_order();
    let m = before.view();
    assert forall|i: int| 0 <= i < keys.len() implies m.contains_key(#[trigger] keys[i]) by {
        assert(keys.contains(keys[i]));
    }
    let dropped = dropped_over(keys, m, at, keys.len());
    assert forall|i: int| 0 <= i < dropped.len() implies (#[trigger] dropped[i]).0 <= at by {
        assert(dropped.contains(dropped[i]));
        lemma_dropped_at_or_before(keys, m, at, dropped[i]);
    }
    if revisions_unshared(m) {
        assert forall|i: int, j: int| 0 <= i < keys.len() && 0 <= j < keys.len() && i != j implies keys[i] != keys[j] by {
            if i < j {
                crate::bytes::lemma_lex_lt_asymmetric(keys[i], keys[j]);
            } else {
                crate::bytes::lemma_lex_lt_asymmetric(keys[j], keys[i]);
            }
        }
        lemma_dropped_unique(keys, m, at, keys.len());
    }
    lemma_compaction_partitions_index(keys, after.key_order(), m, at);
}

/// Compacting again at the revision just compacted to drops nothing: the
/// compacted histories of `keys` have no revision left to drop at `at`.
pub proof fn lemma_compaction_idempotent(m: Map<Seq<u8>, HistView>, keys: Seq<Seq<u8>>, at: u64, n: nat)
    requires
        forall|k: Seq<u8>| #[trigger] m.contains_key(k) ==> hist_wf(m[k]),
        forall|i: int| 0 <= i < keys.len() ==> compact_map(m, at).contains_key(#[trigger] keys[i]),
    ensures
        dropped_over(keys, compact_map(m, at), at, n) == Seq::<(u64, u64)>::empty(),
    decreases n,
{
    if n > 0 && n <= keys.len() {
        lemma_compaction_idempotent(m, keys, at, (n - 1) as nat);
        let k = keys[n - 1];
        assert(compact_map(m, at).contains_key(k));
        assert(m.contains_key(k));
        lemma_recompact_within(m[k], at, hist_compact(m[k], at).len());
        assert(dropped_over(keys, compact_map(m, at), at, n) =~= Seq::<(u64, u64)>::empty());
    }
}

/// Compaction at `at` leaves every read at or after `at` observing exactly
/// what it observed before.
pub proof fn lemma_compact_preserves_reads(h: HistView, at: u64, x: u64)
    requires
        hist_wf(h),
        at <= x,
    ensures
        observe(hist_compact(h, at), x) == observe(h, x),
{
    let d = first_kept(h, at, 0) as int;
    let c = hist_compact(h, at);
    lemma_first_kept(h, at, 0);
    lemma_compact_locate(h, at, x, h.len());
    lemma_locate_within_valid(h, x, h.len());
    assert(c.len() == h.len() - d);
    match locate(h, x) {
        Some((gi, ri)) => {
            lemma_keep_from_bounds(h, at, gi);
            let kf = keep_from(h, at, gi);
            assert(c[gi - d] == trimmed(h, at, gi));
            assert(c[gi - d].revs[ri - kf] == h[gi].revs[ri]);
        },
        None => {},
    }
}

/// A generation of the key's history.
struct Generation {
    created: Revision,
    ver: u64,
    revs: Vec<Revision>,
    closed: bool,
}

impl View for Generation {
    type V = GenView;

    closed spec fn view(&self) -> GenView {
        GenView {
            created: self.created@,
            ver: self.ver,
            revs: self.revs@.map_values(|r: Revision| r@),
            closed: self.closed,
        }
    }
}

/// One key's revision history, split into generations.
///
/// A generation spans a key's life from creation to deletion.
/// Deleting and recreating a key starts a new generation, keeping
/// `created` and `version` correct across the cycle.
pub struct History {
    generations: Vec<Generation>,
}

impl View for History {
    type V = HistView;

    closed spec fn view(&self) -> HistView {
        self.generations@.map_values(|g: Generation| g@)
    }
}

/// How many of `revs`, oldest first, were written at or before `at`.
fn visible_prefix(revs: &Vec<Revision>, at: u64) -> (p: usize)
    requires
        revs_increasing(revs@.map_values(|r: Revision| r@)),
    ensures
        p == visible_count(revs@.map_values(|r: Revision| r@), at),
{
    let ghost v = revs@.map_values(|r: Revision| r@);
    let mut lo: usize = 0;
    let mut hi: usize = revs.len();
    while lo < hi
        invariant
            v == revs@.map_values(|r: Revision| r@),
            revs_increasing(v),
            lo <= hi <= v.len(),
            forall|i: int| 0 <= i < lo ==> (#[trigger] v[i]).0 <= at,
            forall|i: int| hi <= i < v.len() ==> (#[trigger] v[i]).0 > at,
        decreases hi - lo,
    {
        let mid = lo + (hi - lo) / 2;
        if revs[mid].main() <= at {
            assert forall|i: int| 0 <= i < mid + 1 implies (#[trigger] v[i]).0 <= at by {
                if i < mid {
                    assert(v[i].0 < v[mid as int].0);
                }
            }
            lo = mid + 1;
        } else {
            assert forall|i: int| mid <= i < v.len() implies (#[trigger] v[i]).0 > at by {
                if i > mid {
                    assert(v[mid as int].0 < v[i].0);
                }
            }
            hi = mid;
        }
    }
    proof {
        lemma_visible_count_partition(v, at, lo as int);
    }
    lo
}

impl History {
    fn empty() -> (h: Self)
        ensures
            h@ == Seq::<GenView>::empty(),
    {
        let h = History { generations: Vec::new() };
        assert(h@ =~= Seq::<GenView>::empty());
        h
    }

    fn is_empty(&self) -> (r: bool)
        ensures
            r == (self@.len() == 0),
    {
        self.generations.len() == 0
    }

    /// The `main` of the newest revision held.
    fn latest_main(&self) -> (m: Option<u64>)
        requires
            hist_wf(self@),
        ensures
            m == latest_main(self@),
    {
        let n = self.generations.len();
        if n == 0 {
            return None;
        }
        let g = &self.generations[n - 1];
        assert(g@ == self@[n - 1]);
        assert(gen_wf(g@));
        let len = g.revs.len();
        assert(g@.revs[len - 1] == g.revs@[len - 1]@);
        Some(g.revs[len - 1].main())
    }

    fn locate(&self, at: u64) -> (r: Option<(usize, usize)>)
        requires
            hist_wf(self@),
        ensures
            match r {
                Some((g, i)) => locate(self@, at) == Some((g as int, i as int)),
                None => locate(self@, at) is None,
            },
    {
        let ghost h = self@;
        let mut n = self.generations.len();
        while n > 0
            invariant
                h == self@,
                hist_wf(h),
                n <= h.len(),
                locate(h, at) == locate_within(h, at, n as nat),
            decreases n,
        {
            let g = &self.generations[n - 1];
            assert(g@ == h[n - 1]);
            assert(gen_wf(g@));
            let len = g.revs.len();
            let first = g.revs[0];
            let last = g.revs[len - 1];
            assert(g@.revs[0] == first@);
            assert(g@.revs[len - 1] == last@);
            if g.closed && last.main() <= at {
                return None;
            }
            if first.main() <= at {
                let p = visible_prefix(&g.revs, at);
                proof {
                    lemma_visible_count_bounds(g@.revs, at);
                    assert(g@.revs[0].0 <= at);
                }
                return Some((n - 1, p - 1));
            }
            n = n - 1;
        }
        None
    }

    /// What a read at `at` observes.
    fn at(&self, at: u64) -> (r: Option<Found>)
        requires
            hist_wf(self@),
        ensures
            match r {
                Some(f) => observe(self@, at) == Some(f@),
                None => observe(self@, at) is None,
            },
    {
        match self.locate(at) {
            None => None,
            Some((gi, ri)) => {
                proof {
                    lemma_locate_within_valid(self@, at, self@.len());
                }
                let g = &self.generations[gi];
                assert(g@ == self@[gi as int]);
                assert(gen_wf(g@));
                let modified = g.revs[ri];
                assert(g@.revs[ri as int] == modified@);
                let trailing = (g.revs.len() - 1 - ri) as u64;
                Some(Found { modified, created: g.created, version: g.ver - trailing })
            },
        }
    }

    /// Records a write at `revision`.
    fn put(&mut self, revision: Revision)
        requires
            hist_wf(old(self)@),
            accepts(old(self)@, revision@),
        ensures
            hist_wf(final(self)@),
            final(self)@ == hist_put(old(self)@, revision@),
            final(self)@.len() > 0,
    {
        let ghost h = self@;
        let main = revision.main();
        let sub = revision.sub();
        let n = self.generations.len();
        if n > 0 && !self.generations[n - 1].closed {
            let popped = self.generations.pop();
            match popped {
                Some(mut g) => {
                    assert(g@ == h[n - 1]);
                    assert(gen_wf(g@));
                    g.revs.push(revision);
                    g.ver = g.ver + 1;
                    let ghost gv = g@;
                    self.generations.push(g);
                    proof {
                        assert(gv.revs =~= h[n - 1].revs.push(revision@));
                        assert(self@ =~= hist_put(h, revision@));
                    }
                },
                None => {},
            }
        } else {
            let mut revs: Vec<Revision> = Vec::new();
            revs.push(revision);
            let g = Generation { created: revision, ver: 1, revs, closed: false };
            assert(g@.revs =~= seq![revision@]);
            self.generations.push(g);
            proof {
                assert(self@ =~= hist_put(h, revision@));
            }
        }
        proof {
            let h2 = self@;
            assert forall|i: int| 0 <= i < h2.len() implies gen_wf(#[trigger] h2[i]) by {
                if i < h.len() - 1 || (i == h.len() - 1 && h.last().closed) {
                    assert(h2[i] == h[i]);
                }
            }
            assert forall|i: int, j: int| 0 <= i < j < h2.len() implies (#[trigger] h2[i]).revs.last().0 < (#[trigger] h2[j]).revs[0].0 by {
                if j < h.len() - 1 || (j == h.len() - 1 && h.last().closed) {
                } else if j == h.len() - 1 {
                    assert(h2[j].revs[0] == h[j].revs[0]);
                } else {
                    assert(h[i].revs.last().0 <= h.last().revs.last().0);
                }
            }
        }
    }

    /// Records a deletion at `revision`, returning `false` (and recording
    /// nothing) when the key does not currently exist.
    fn tombstone(&mut self, revision: Revision) -> (r: bool)
        requires
            hist_wf(old(self)@),
            accepts(old(self)@, revision@),
        ensures
            hist_wf(final(self)@),
            match hist_delete(old(self)@, revision@) {
                Some(h) => r && final(self)@ == h,
                None => !r && final(self)@ == old(self)@,
            },
            final(self)@.len() == old(self)@.len(),
    {
        let ghost h = self@;
        let main = revision.main();
        let sub = revision.sub();
        let n = self.generations.len();
        if n == 0 || self.generations[n - 1].closed {
            return false;
        }
        let popped = self.generations.pop();
        match popped {
            Some(mut g) => {
                assert(g@ == h[n - 1]);
                assert(gen_wf(g@));
                g.revs.push(revision);
                g.ver = g.ver + 1;
                g.closed = true;
                let ghost gv = g@;
                self.generations.push(g);
                proof {
                    assert(gv.revs =~= h[n - 1].revs.push(revision@));
                    assert(self@ =~= hist_delete(h, revision@)->0);
                    let h2 = self@;
                    assert forall|i: int| 0 <= i < h2.len() implies gen_wf(#[trigger] h2[i]) by {
                        if i < h.len() - 1 {
                            assert(h2[i] == h[i]);
                        }
                    }
                    assert forall|i: int, j: int| 0 <= i < j < h2.len() implies (#[trigger] h2[i]).revs.last().0 < (#[trigger] h2[j]).revs[0].0 by {
                        if j == h.len() - 1 {
                            assert(h2[j].revs[0] == h[j].revs[0]);
                        }
                    }
                }
                true
            },
            None => false,
        }
    }
}

impl History {
    /// The history compaction at `at` leaves, appending the revisions it
    /// drops to `dropped`.
    fn compacted(&self, at: u64, dropped: &mut Vec<Revision>) -> (c: History)
        requires
            hist_wf(self@),
        ensures
            c@ == hist_compact(self@, at),
            hist_wf(c@),
            final(dropped)@.map_values(|r: Revision| r@) == old(dropped)@.map_values(|r: Revision| r@)
                + hist_dropped(self@, at),
    {
        let ghost h = self@;
        let ghost d = first_kept(h, at, 0) as int;
        let ghost start = old(dropped)@.map_values(|r: Revision| r@);
        proof {
            lemma_first_kept(h, at, 0);
            lemma_compact_wf(h, at);
        }
        let current = self.locate(at);
        let mut gens: Vec<Generation> = Vec::new();
        let n = self.generations.len();
        let mut gi: usize = 0;
        while gi < n
            invariant
                h == self@,
                hist_wf(h),
                n == h.len(),
                gi <= n,
                0 <= d <= n,
                d == first_kept(h, at, 0),
                forall|g: int| 0 <= g < d ==> keep_from(h, at, g) >= h[g].revs.len(),
                forall|g: int| d <= g < h.len() ==> keep_from(h, at, g) < h[g].revs.len(),
                match current {
                    Some((g, i)) => locate(h, at) == Some((g as int, i as int)),
                    None => locate(h, at) is None,
                },
                gens@.map_values(|g: Generation| g@) == Seq::new(
                    (if gi > d { gi - d } else { 0 }) as nat,
                    |j: int| trimmed(h, at, d + j),
                ),
                dropped@.map_values(|r: Revision| r@) == start + dropped_within(h, at, gi as nat),
            decreases n - gi,
        {
            let g = &self.generations[gi];
            let ghost gv = h[gi as int];
            let ghost kf = keep_from(h, at, gi as int);
            let ghost p = visible_count(gv.revs, at) as int;
            assert(g@ == gv);
            proof {
                assert(gen_wf(gv));
                lemma_keep_from_bounds(h, at, gi as int);
                lemma_visible_count_bounds(gv.revs, at);
                lemma_locate_within_valid(h, at, h.len());
            }
            let len = g.revs.len();
            let mut kept: Vec<Revision> = Vec::new();
            let ghost dropped_start = dropped@.map_values(|r: Revision| r@);
            let mut ri: usize = 0;
            while ri < len
                invariant
                    g@ == gv,
                    gen_wf(gv),
                    len == gv.revs.len(),
                    ri <= len,
                    0 <= kf <= p <= len,
                    kf < p ==> kf == p - 1,
                    kf == keep_from(h, at, gi as int),
                    p == visible_count(gv.revs, at),
                    0 <= gi < h.len(),
                    h[gi as int] == gv,
                    forall|g2: int, r2: int| locate(h, at) == Some((g2, r2)) && g2 == gi ==> r2 == p - 1,
                    forall|i: int| 0 <= i < p ==> (#[trigger] gv.revs[i]).0 <= at,
                    forall|i: int| p <= i < len ==> (#[trigger] gv.revs[i]).0 > at,
                    match current {
                        Some((cg, ci)) => locate(h, at) == Some((cg as int, ci as int)),
                        None => locate(h, at) is None,
                    },
                    kept@.map_values(|r: Revision| r@) == gv.revs.subrange(if kf < ri { kf } else { ri as int }, ri as int),
                    dropped@.map_values(|r: Revision| r@) == dropped_start + gv.revs.subrange(0, if kf < ri { kf } else { ri as int }),
                decreases len - ri,
            {
                let rev = g.revs[ri];
                assert(gv.revs[ri as int] == rev@);
                let is_current = match current {
                    Some((cg, cr)) => cg == gi && cr == ri,
                    None => false,
                };
                let is_tombstone = g.closed && ri == len - 1;
                let ghost kept0 = kept@.map_values(|r: Revision| r@);
                let ghost dropped0 = dropped@.map_values(|r: Revision| r@);
                if rev.main() > at || (is_current && !is_tombstone) {
                    proof {
                        if rev@.0 <= at {
                            assert(ri as int == p - 1);
                            assert(kf == p - 1);
                        }
                    }
                    kept.push(rev);
                    proof {
                        assert(kept@.map_values(|r: Revision| r@) =~= kept0.push(rev@));
                        assert(kept@.map_values(|r: Revision| r@) =~= gv.revs.subrange(kf, ri + 1));
                    }
                } else {
                    proof {
                        assert(ri < p);
                        if ri as int == p - 1 {
                            assert(kf == p);
                        }
                    }
                    dropped.push(rev);
                    proof {
                        assert(dropped@.map_values(|r: Revision| r@) =~= dropped0.push(rev@));
                        assert(dropped@.map_values(|r: Revision| r@) =~= dropped_start + gv.revs.subrange(0, ri + 1));
                        assert(kept@.map_values(|r: Revision| r@) =~= gv.revs.subrange(ri + 1, ri + 1));
                    }
                }
                ri = ri + 1;
            }
            let ghost gens0 = gens@.map_values(|g: Generation| g@);
            if kept.len() > 0 {
                let ng = Generation { created: g.created, ver: g.ver, revs: kept, closed: g.closed };
                assert(ng@ == trimmed(h, at, gi as int));
                gens.push(ng);
                proof {
                    assert(gi >= d);
                    assert(gens@.map_values(|g: Generation| g@) =~= gens0.push(trimmed(h, at, gi as int)));
                    assert(gens@.map_values(|g: Generation| g@) =~= Seq::new(
                        (gi + 1 - d) as nat,
                        |j: int| trimmed(h, at, d + j),
                    ));
                }
            } else {
                proof {
                    assert(gi < d);
                }
            }
            proof {
                assert(dropped_within(h, at, (gi + 1) as nat) == dropped_within(h, at, gi as nat) + gv.revs.subrange(0, kf));
                assert(dropped@.map_values(|r: Revision| r@) =~= start + dropped_within(h, at, (gi + 1) as nat));
            }
            gi = gi + 1;
        }
        let c = History { generations: gens };
        assert(c@ =~= hist_compact(h, at));
        c
    }
}

/// In-memory map from key to revision history.
///
/// Rebuilt from the backend at startup rather than persisted.
pub struct Index {
    keys: SortedMap<History>,
}

impl Index {
    /// The histories, by key.
    pub closed spec fn view(&self) -> Map<Seq<u8>, HistView> {
        self.keys.as_map().map_values(|h: History| h@)
    }

    /// The keys tracked, ascending.
    pub closed spec fn key_order(&self) -> Seq<Seq<u8>> {
        self.keys.key_seq()
    }

    /// The index's invariant: every tracked key has a non-empty,
    /// well-formed history.
    pub closed spec fn wf(&self) -> bool {
        &&& self.keys.wf()
        &&& forall|i: int|
            0 <= i < self.keys.value_seq().len() ==> {
                &&& hist_wf((#[trigger] self.keys.value_seq()[i])@)
                &&& self.keys.value_seq()[i]@.len() > 0
            }
    }

    /// Every key the index maps has a well-formed, non-empty history.
    pub proof fn lemma_histories(&self, key: Seq<u8>)
        requires
            self.wf(),
            self.view().contains_key(key),
        ensures
            hist_wf(self.view()[key]),
            self.view()[key].len() > 0,
    {
        self.keys.lemma_position(key);
        self.keys.lemma_entry(self.keys.position_of(key));
    }

    /// The ordered keys are exactly the keys of the map, ascending.
    pub proof fn lemma_key_order(&self)
        requires
            self.wf(),
        ensures
            strictly_ascending(self.key_order()),
            forall|k: Seq<u8>| self.view().contains_key(k) <==> self.key_order().contains(k),
    {
        assert forall|k: Seq<u8>| self.view().contains_key(k) <==> self.key_order().contains(k) by {
            if self.view().contains_key(k) {
                self.keys.lemma_position(k);
                assert(self.key_order()[self.keys.position_of(k)] == k);
            }
            if self.key_order().contains(k) {
                let i = self.key_order().index_of(k);
                self.keys.lemma_entry(i);
            }
        }
    }

    /// An empty index.
    pub fn new() -> (idx: Self)
        ensures
            idx.wf(),
            idx.view() == Map::<Seq<u8>, HistView>::empty(),
    {
        let idx = Index { keys: SortedMap::new() };
        assert(idx.view() =~= Map::<Seq<u8>, HistView>::empty());
        idx
    }

    /// The `main` of the newest revision recorded for `key`.
    pub fn latest_main(&self, key: &[u8]) -> (m: Option<u64>)
        requires
            self.wf(),
        ensures
            m == latest_main(history_of(self.view(), key@)),
    {
        match self.keys.find(key) {
            Ok(i) => {
                proof {
                    self.keys.lemma_entry(i as int);
                }
                self.keys.value_at(i).latest_main()
            },
            Err(_) => None,
        }
    }

    /// Records a write of `key` at `revision`.
    pub fn put(&mut self, key: &[u8], revision: Revision)
        requires
            old(self).wf(),
            accepts(history_of(old(self).view(), key@), revision@),
        ensures
            final(self).wf(),
            final(self).view() == old(self).view().insert(
                key@,
                hist_put(history_of(old(self).view(), key@), revision@),
            ),
    {
        match self.keys.find(key) {
            Ok(i) => {
                proof {
                    self.keys.lemma_entry(i as int);
                }
                let mut h = self.keys.replace_at(i, History::empty());
                h.put(revision);
                let ghost mid = self.keys;
                self.keys.replace_at(i, h);
                proof {
                    assert(self.keys.value_seq() =~= old(self).keys.value_seq().update(i as int, self.keys.value_seq()[i as int]));
                    assert(self.keys.as_map() =~= old(self).keys.as_map().insert(key@, self.keys.value_seq()[i as int]));
                    self.lemma_after_replace(*old(self), i as int, key@);
                }
            },
            Err(_) => {
                let mut h = History::empty();
                h.put(revision);
                let ghost hv = h@;
                self.keys.insert(copy_bytes(key), h);
                proof {
                    self.lemma_after_insert(*old(self), key@);
                }
            },
        }
    }

    /// Records a deletion of `key` at `revision`.
    ///
    /// Returns `false` if the key does not currently exist,
    /// in which case nothing is recorded.
    pub fn tombstone(&mut self, key: &[u8], revision: Revision) -> (r: bool)
        requires
            old(self).wf(),
            accepts(history_of(old(self).view(), key@), revision@),
        ensures
            final(self).wf(),
            match hist_delete(history_of(old(self).view(), key@), revision@) {
                Some(h) => r && final(self).view() == old(self).view().insert(key@, h),
                None => !r && final(self).view() == old(self).view(),
            },
    {
        match self.keys.find(key) {
            Ok(i) => {
                proof {
                    self.keys.lemma_entry(i as int);
                }
                let mut h = self.keys.replace_at(i, History::empty());
                let recorded = h.tombstone(revision);
                self.keys.replace_at(i, h);
                proof {
                    assert(self.keys.value_seq() =~= old(self).keys.value_seq().update(i as int, self.keys.value_seq()[i as int]));
                    assert(self.keys.as_map() =~= old(self).keys.as_map().insert(key@, self.keys.value_seq()[i as int]));
                    self.lemma_after_replace(*old(self), i as int, key@);
                    if !recorded {
                        assert(self.view() =~= old(self).view());
                    }
                }
                recorded
            },
            Err(_) => false,
        }
    }

    /// Replacing the history at position `i` keeps the index well formed.
    proof fn lemma_after_replace(&self, before: Index, i: int, key: Seq<u8>)
        requires
            before.wf(),
            self.keys.wf(),
            0 <= i < before.keys.key_seq().len(),
            before.keys.key_seq()[i] == key,
            self.keys.key_seq() == before.keys.key_seq(),
            self.keys.value_seq() == before.keys.value_seq().update(i, self.keys.value_seq()[i]),
            self.keys.as_map() == before.keys.as_map().insert(key, self.keys.value_seq()[i]),
            hist_wf(self.keys.value_seq()[i]@),
            self.keys.value_seq()[i]@.len() > 0,
        ensures
            self.wf(),
            self.view() == before.view().insert(key, self.keys.value_seq()[i]@),
    {
        assert(self.view() =~= before.view().insert(key, self.keys.value_seq()[i]@));
        assert forall|j: int| 0 <= j < self.keys.value_seq().len() implies {
            &&& hist_wf((#[trigger] self.keys.value_seq()[j])@)
            &&& self.keys.value_seq()[j]@.len() > 0
        } by {
            if j != i {
                assert(self.keys.value_seq()[j] == before.keys.value_seq()[j]);
            }
        }
    }

    /// Inserting a new key keeps the index well formed.
    proof fn lemma_after_insert(&self, before: Index, key: Seq<u8>)
        requires
            before.wf(),
            self.keys.wf(),
            !before.keys.as_map().contains_key(key),
            self.keys.as_map().contains_key(key),
            self.keys.as_map() == before.keys.as_map().insert(key, self.keys.as_map()[key]),
            hist_wf(self.keys.as_map()[key]@),
            self.keys.as_map()[key]@.len() > 0,
        ensures
            self.wf(),
            self.view() == before.view().insert(key, self.keys.as_map()[key]@),
    {
        assert(self.view() =~= before.view().insert(key, self.keys.as_map()[key]@));
        assert forall|j: int| 0 <= j < self.keys.value_seq().len() implies {
            &&& hist_wf((#[trigger] self.keys.value_seq()[j])@)
            &&& self.keys.value_seq()[j]@.len() > 0
        } by {
            self.keys.lemma_entry(j);
            let k = self.keys.key_seq()[j];
            if k != key {
                assert(before.keys.as_map().contains_key(k));
                before.keys.lemma_position(k);
                before.keys.lemma_entry(before.keys.position_of(k));
            }
        }
    }

    /// Returns what a read of `key` at revision `at` observes.
    pub fn get(&self, key: &[u8], at: u64) -> (r: Option<Found>)
        requires
            self.wf(),
        ensures
            match r {
                Some(f) => observe(history_of(self.view(), key@), at) == Some(f@),
                None => observe(history_of(self.view(), key@), at) is None,
            },
    {
        match self.keys.get(key) {
            Some(h) => {
                proof {
                    self.keys.lemma_position(key@);
                    self.keys.lemma_entry(self.keys.position_of(key@));
                }
                h.at(at)
            },
            None => {
                assert(history_of(self.view(), key@) =~= Seq::<GenView>::empty());
                None
            },
        }
    }

    /// Returns the number of keys currently tracked, live or tombstoned.
    pub fn tracked_keys(&self) -> (n: usize)
        requires
            self.wf(),
        ensures
            n == self.key_order().len(),
    {
        self.keys.len()
    }

    /// The position of the first key that is not below the lower limit of
    /// `bounds`: every key before it lies outside `bounds`.
    fn seek(&self, bounds: &Bounds) -> (i: usize)
        requires
            self.wf(),
        ensures
            i <= self.keys.key_seq().len(),
            forall|j: int| 0 <= j < i ==> !bounds@.contains(#[trigger] self.keys.key_seq()[j]),
    {
        let ghost ks = self.keys.key_seq();
        let s = match bounds.start_bound() {
            KeyBound::Unbounded => return 0,
            KeyBound::Included(s) => s,
            KeyBound::Excluded(s) => s,
        };
        let i = match self.keys.find(s.as_slice()) {
            Ok(i) => i,
            Err(i) => i,
        };
        proof {
            assert forall|j: int| 0 <= j < i implies !bounds@.contains(#[trigger] ks[j]) by {
                assert(lex_lt(ks[j], s@));
                crate::bytes::lemma_lex_lt_asymmetric(ks[j], s@);
            }
        }
        i
    }

    /// Returns every key within `bounds` visible at revision `at`, ascending.
    ///
    /// The scan seeks to the first key at or after the lower limit.
    pub fn range(&self, bounds: &Bounds, at: u64) -> (out: Vec<(Vec<u8>, Found)>)
        requires
            self.wf(),
        ensures
            is_visible_range(out@.map_values(|p: (Vec<u8>, Found)| (p.0@, p.1@)), self.view(), bounds@, at),
    {
        let mut out: Vec<(Vec<u8>, Found)> = Vec::new();
        let ghost mut idx: Seq<int> = Seq::empty();
        let ghost ks = self.keys.key_seq();
        let n = self.keys.len();
        let mut i: usize = self.seek(bounds);
        while i < n
            invariant
                self.wf(),
                n == ks.len(),
                ks == self.keys.key_seq(),
                i <= n,
                out@.len() == idx.len(),
                forall|a: int, b: int| 0 <= a < b < idx.len() ==> idx[a] < idx[b],
                forall|a: int| 0 <= a < idx.len() ==> 0 <= #[trigger] idx[a] < i,
                forall|a: int|
                    0 <= a < idx.len() ==> {
                        &&& out@[a].0@ == ks[#[trigger] idx[a]]
                        &&& bounds@.contains(ks[idx[a]])
                        &&& observe(self.keys.value_seq()[idx[a]]@, at) == Some(out@[a].1@)
                    },
                forall|j: int|
                    0 <= j < i && bounds@.contains(#[trigger] ks[j]) && observe(self.keys.value_seq()[j]@, at) is Some
                        ==> idx.contains(j),
            decreases n - i,
        {
            let ghost idx0 = idx;
            let key = self.keys.key_at(i);
            if bounds.contains(key) {
                proof {
                    assert(hist_wf(self.keys.value_seq()[i as int]@));
                }
                match self.keys.value_at(i).at(at) {
                    Some(found) => {
                        out.push((copy_bytes(key), found));
                        proof {
                            idx = idx.push(i as int);
                        }
                    },
                    None => {},
                }
            }
            proof {
                assert forall|j: int|
                    0 <= j < i + 1 && bounds@.contains(#[trigger] ks[j]) && observe(self.keys.value_seq()[j]@, at) is Some
                    implies idx.contains(j) by {
                    if j < i {
                        let a = idx0.index_of(j);
                        assert(idx[a] == j);
                    } else {
                        assert(idx[idx.len() - 1] == j);
                    }
                }
            }
            i = i + 1;
        }
        proof {
            let r = out@.map_values(|p: (Vec<u8>, Found)| (p.0@, p.1@));
            let rk = r.map_values(|p: (Seq<u8>, FoundView)| p.0);
            assert forall|a: int, b: int| 0 <= a < b < rk.len() implies lex_lt(#[trigger] rk[a], #[trigger] rk[b]) by {
                assert(idx[a] < idx[b]);
            }
            assert forall|a: int| 0 <= a < r.len() implies {
                &&& self.view().contains_key(#[trigger] r[a].0)
                &&& bounds@.contains(r[a].0)
                &&& observe(self.view()[r[a].0], at) == Some(r[a].1)
            } by {
                self.keys.lemma_entry(idx[a]);
            }
            assert forall|k: Seq<u8>|
                #[trigger] self.view().contains_key(k) && bounds@.contains(k) && observe(self.view()[k], at) is Some
                implies exists|a: int| 0 <= a < r.len() && r[a].0 == k by {
                self.keys.lemma_position(k);
                let p = self.keys.position_of(k);
                self.keys.lemma_entry(p);
                assert(idx.contains(p));
                let a = idx.index_of(p);
                assert(r[a].0 == k);
            }
        }
        out
    }
}

impl Index {
    /// Discards history that no read at or after `at` could observe, returning
    /// the revisions whose backend records are now unreachable.
    ///
    /// A read at `at` must still return exactly what it would have before, so
    /// the revision current at `at` is retained. A key whose state at `at` is
    /// "deleted" needs no record at all.
    pub fn compact(&mut self, at: u64) -> (dropped: Vec<Revision>)
        requires
            old(self).wf(),
        ensures
            final(self).wf(),
            final(self).view() == compact_map(old(self).view(), at),
            dropped@.map_values(|r: Revision| r@) == dropped_over(
                old(self).key_order(),
                old(self).view(),
                at,
                old(self).key_order().len(),
            ),
    {
        let ghost ks = self.keys.key_seq();
        let ghost m = self.view();
        let mut dropped: Vec<Revision> = Vec::new();
        let mut next: SortedMap<History> = SortedMap::new();
        let ghost mut src: Seq<int> = Seq::empty();
        let n = self.keys.len();
        let mut i: usize = 0;
        while i < n
            invariant
                self.wf(),
                *self == *old(self),
                ks == self.keys.key_seq(),
                m == self.view(),
                n == ks.len(),
                i <= n,
                next.wf(),
                next.key_seq().len() == src.len(),
                forall|a: int, b: int| 0 <= a < b < src.len() ==> src[a] < src[b],
                forall|a: int|
                    0 <= a < src.len() ==> {
                        &&& 0 <= #[trigger] src[a] < i
                        &&& next.key_seq()[a] == ks[src[a]]
                        &&& next.value_seq()[a]@ == hist_compact(self.keys.value_seq()[src[a]]@, at)
                        &&& hist_wf(next.value_seq()[a]@)
                        &&& next.value_seq()[a]@.len() > 0
                    },
                forall|j: int|
                    0 <= j < i && (#[trigger] hist_compact(self.keys.value_seq()[j]@, at)).len() > 0 ==> src.contains(j),
                dropped@.map_values(|r: Revision| r@) == dropped_over(ks, m, at, i as nat),
            decreases n - i,
        {
            proof {
                self.keys.lemma_entry(i as int);
                assert(hist_wf(self.keys.value_seq()[i as int]@));
            }
            let ghost d0 = dropped@.map_values(|r: Revision| r@);
            let ghost src0 = src;
            let c = self.keys.value_at(i).compacted(at, &mut dropped);
            if !c.is_empty() {
                proof {
                    assert forall|a: int| 0 <= a < next.key_seq().len() implies lex_lt(#[trigger] next.key_seq()[a], self.keys.key_seq()[i as int]) by {
                        assert(src[a] < i);
                    }
                }
                let key = copy_bytes(self.keys.key_at(i));
                let ghost cv = c@;
                next.push_greatest(key, c);
                proof {
                    src = src.push(i as int);
                }
            }
            proof {
                assert(m[ks[i as int]] == self.keys.value_seq()[i as int]@);
                assert(dropped_over(ks, m, at, (i + 1) as nat) == dropped_over(ks, m, at, i as nat) + hist_dropped(m[ks[i as int]], at));
                assert forall|j: int|
                    0 <= j < i + 1 && (#[trigger] hist_compact(self.keys.value_seq()[j]@, at)).len() > 0 implies src.contains(j) by {
                    if j < i {
                        let a = src0.index_of(j);
                        assert(src[a] == j);
                    } else {
                        assert(src[src.len() - 1] == j);
                    }
                }
            }
            i = i + 1;
        }
        proof {
            let target = compact_map(m, at);
            let nv = next.as_map().map_values(|h: History| h@);
            assert forall|k: Seq<u8>| #![trigger nv.dom().contains(k)] #![trigger target.dom().contains(k)]
                nv.dom().contains(k) == target.dom().contains(k)
                && (nv.dom().contains(k) ==> nv[k] == target[k]) by {
                if nv.dom().contains(k) {
                    next.lemma_position(k);
                    let a = next.position_of(k);
                    next.lemma_entry(a);
                    self.keys.lemma_entry(src[a]);
                }
                if target.dom().contains(k) {
                    self.keys.lemma_position(k);
                    let j = self.keys.position_of(k);
                    self.keys.lemma_entry(j);
                    assert(src.contains(j));
                    let a = src.index_of(j);
                    next.lemma_entry(a);
                }
            }
            assert(nv =~= target);
            assert forall|a: int| 0 <= a < next.value_seq().len() implies {
                &&& hist_wf((#[trigger] next.value_seq()[a])@)
                &&& next.value_seq()[a]@.len() > 0
            } by {
                assert(0 <= src[a]);
            }
        }
        self.keys = next;
        dropped
    }
}

impl Default for Index {
    fn default() -> (idx: Self)
        ensures
            idx.wf(),
            idx.view() == Map::<Seq<u8>, HistView>::empty(),
    {
        Index::new()
    }
}

/// Whether the key a history belongs to currently exists: its newest
/// generation has not ended in a deletion.
pub open spec fn live(h: HistView) -> bool {
    h.len() > 0 && !h.last().closed
}

impl Index {
    /// Returns whether `key` currently exists.
    pub fn is_live(&self, key: &[u8]) -> (r: bool)
        requires
            self.wf(),
        ensures
            r == live(history_of(self.view(), key@)),
    {
        match self.keys.find(key) {
            Ok(i) => {
                proof {
                    self.keys.lemma_entry(i as int);
                }
                let h = self.keys.value_at(i);
                let n = h.generations.len();
                if n == 0 {
                    false
                } else {
                    assert(h.generations@[n - 1]@ == h@[n - 1]);
                    !h.generations[n - 1].closed
                }
            },
            Err(_) => false,
        }
    }
}

} // verus!

verus! {

/// Compaction at `at` leaves every read of every key at or after `at`
/// observing exactly what it observed before, a key it forgot included.
pub proof fn lemma_compaction_preserves_key_reads(
    m: Map<Seq<u8>, HistView>,
    at: u64,
    key: Seq<u8>,
    x: u64,
)
    requires
        forall|k: Seq<u8>| #[trigger] m.contains_key(k) ==> hist_wf(m[k]),
        at <= x,
    ensures
        observe(history_of(compact_map(m, at), key), x) == observe(history_of(m, key), x),
{
    if m.contains_key(key) {
        lemma_compact_preserves_reads(m[key], at, x);
        if hist_compact(m[key], at).len() == 0 {
            assert(locate_within(hist_compact(m[key], at), x, 0) is None);
        }
    }
}

/// Compaction at `at` leaves every range read at or after `at` listing
/// exactly the same keys with exactly the same observations.
pub proof fn lemma_compaction_preserves_ranges(
    m: Map<Seq<u8>, HistView>,
    at: u64,
    b: BoundsView,
    x: u64,
    r: Seq<(Seq<u8>, FoundView)>,
)
    requires
        forall|k: Seq<u8>| #[trigger] m.contains_key(k) ==> hist_wf(m[k]),
        at <= x,
    ensures
        is_visible_range(r, compact_map(m, at), b, x) == is_visible_range(r, m, b, x),
{
    let c = compact_map(m, at);
    assert forall|k: Seq<u8>| #![trigger history_of(c, k)]
        observe(history_of(c, k), x) == observe(history_of(m, k), x) && (c.contains_key(k) ==> m.contains_key(k))
    by {
        lemma_compaction_preserves_key_reads(m, at, k, x);
    }
    assert forall|k: Seq<u8>| observe(history_of(m, k), x) is Some implies #[trigger] c.contains_key(k) by {
        assert(observe(history_of(c, k), x) is Some);
        if !c.contains_key(k) {
            assert(history_of(c, k).len() == 0);
            assert(locate_within(history_of(c, k), x, 0) is None);
        }
    }
    if is_visible_range(r, m, b, x) {
        assert forall|i: int| 0 <= i < r.len() implies {
            &&& c.contains_key(#[trigger] r[i].0)
            &&& b.contains(r[i].0)
            &&& observe(c[r[i].0], x) == Some(r[i].1)
        } by {
            assert(observe(history_of(m, r[i].0), x) is Some);
            assert(history_of(c, r[i].0) == c[r[i].0]);
        }
        assert forall|k: Seq<u8>| #[trigger] c.contains_key(k) && b.contains(k) && observe(c[k], x) is Some implies exists|i: int|
            0 <= i < r.len() && r[i].0 == k by {
            assert(history_of(c, k) == c[k]);
            assert(m.contains_key(k) && observe(m[k], x) is Some);
        }
    }
    if is_visible_range(r, c, b, x) {
        assert forall|i: int| 0 <= i < r.len() implies {
            &&& m.contains_key(#[trigger] r[i].0)
            &&& b.contains(r[i].0)
            &&& observe(m[r[i].0], x) == Some(r[i].1)
        } by {
            assert(history_of(c, r[i].0) == c[r[i].0]);
            assert(m.contains_key(r[i].0));
        }
        assert forall|k: Seq<u8>| #[trigger] m.contains_key(k) && b.contains(k) && observe(m[k], x) is Some implies exists|i: int|
            0 <= i < r.len() && r[i].0 == k by {
            assert(history_of(m, k) == m[k]);
            assert(observe(history_of(c, k), x) == observe(history_of(m, k), x));
            assert(c.contains_key(k));
            assert(history_of(c, k) == c[k]);
        }
    }
}

} // verus!

verus! {

/// Whether history `h` holds revision `r`.
pub open spec fn holds(h: HistView, r: (u64, u64)) -> bool {
    exists|gi: int, ri: int| 0 <= gi < h.len() && 0 <= ri < h[gi].revs.len() && #[trigger] h[gi].revs[ri] == r
}

/// Whether no revision is held by two keys.
pub open spec fn revisions_unshared(m: Map<Seq<u8>, HistView>) -> bool {
    forall|k1: Seq<u8>, k2: Seq<u8>, r: (u64, u64)|
        m.contains_key(k1) && m.contains_key(k2) && #[trigger] holds(m[k1], r) && #[trigger] holds(m[k2], r) ==> k1 == k2
}

/// Every revision a well-formed history holds is at or below its newest `main`.
pub proof fn lemma_held_below_latest(h: HistView, r: (u64, u64))
    requires
        hist_wf(h),
        holds(h, r),
    ensures
        latest_main(h) matches Some(m) && r.0 <= m,
{
    let (gi, ri) = choose|gi: int, ri: int| 0 <= gi < h.len() && 0 <= ri < h[gi].revs.len() && #[trigger] h[gi].revs[ri] == r;
    let last = h.len() - 1;
    assert(gen_wf(h[gi]));
    assert(gen_wf(h[last]));
    if ri < h[gi].revs.len() - 1 {
        assert(h[gi].revs[ri].0 < h[gi].revs.last().0);
    }
    if gi < last {
        assert(h[gi].revs.last().0 < h[last].revs[0].0);
        if h[last].revs.len() > 1 {
            assert(h[last].revs[0].0 < h[last].revs.last().0);
        }
    }
}

/// A revision is held at one place only in a well-formed history.
pub proof fn lemma_held_once(h: HistView, gi: int, ri: int, gj: int, rj: int)
    requires
        hist_wf(h),
        0 <= gi < h.len(),
        0 <= ri < h[gi].revs.len(),
        0 <= gj < h.len(),
        0 <= rj < h[gj].revs.len(),
        h[gi].revs[ri] == h[gj].revs[rj],
    ensures
        gi == gj && ri == rj,
{
    assert(gen_wf(h[gi]));
    assert(gen_wf(h[gj]));
    if gi < gj {
        if ri < h[gi].revs.len() - 1 {
            assert(h[gi].revs[ri].0 < h[gi].revs.last().0);
        }
        assert(h[gi].revs.last().0 < h[gj].revs[0].0);
        if rj > 0 {
            assert(h[gj].revs[0].0 < h[gj].revs[rj].0);
        }
    } else if gj < gi {
        if rj < h[gj].revs.len() - 1 {
            assert(h[gj].revs[rj].0 < h[gj].revs.last().0);
        }
        assert(h[gj].revs.last().0 < h[gi].revs[0].0);
        if ri > 0 {
            assert(h[gi].revs[0].0 < h[gi].revs[ri].0);
        }
    } else if ri < rj {
        assert(h[gi].revs[ri].0 < h[gi].revs[rj].0);
    } else if rj < ri {
        assert(h[gi].revs[rj].0 < h[gi].revs[ri].0);
    }
}

/// A write adds exactly its own revision to what a history holds.
pub proof fn lemma_put_holds(h: HistView, r: (u64, u64), x: (u64, u64))
    ensures
        holds(hist_put(h, r), x) <==> (holds(h, x) || x == r),
{
    let h2 = hist_put(h, r);
    if h.len() > 0 && !h.last().closed {
        let last = h.len() - 1;
        if holds(h2, x) {
            let (gi, ri) = choose|gi: int, ri: int| 0 <= gi < h2.len() && 0 <= ri < h2[gi].revs.len() && #[trigger] h2[gi].revs[ri] == x;
            if gi == last && ri == h[last].revs.len() {
                assert(x == r);
            } else if gi == last {
                assert(h[gi].revs[ri] == x);
            } else {
                assert(h[gi].revs[ri] == x);
            }
        }
        if holds(h, x) {
            let (gi, ri) = choose|gi: int, ri: int| 0 <= gi < h.len() && 0 <= ri < h[gi].revs.len() && #[trigger] h[gi].revs[ri] == x;
            assert(h2[gi].revs[ri] == x);
        }
        if x == r {
            assert(h2[last].revs[h[last].revs.len() as int] == r);
        }
    } else {
        let n = h.len() as int;
        if holds(h2, x) {
            let (gi, ri) = choose|gi: int, ri: int| 0 <= gi < h2.len() && 0 <= ri < h2[gi].revs.len() && #[trigger] h2[gi].revs[ri] == x;
            if gi < n {
                assert(h[gi].revs[ri] == x);
            }
        }
        if holds(h, x) {
            let (gi, ri) = choose|gi: int, ri: int| 0 <= gi < h.len() && 0 <= ri < h[gi].revs.len() && #[trigger] h[gi].revs[ri] == x;
            assert(h2[gi].revs[ri] == x);
        }
        if x == r {
            assert(h2[n].revs[0] == r);
        }
    }
}

/// A deletion adds exactly its own revision to what a history holds.
pub proof fn lemma_delete_holds(h: HistView, r: (u64, u64), x: (u64, u64))
    requires
        hist_delete(h, r) is Some,
    ensures
        holds(hist_delete(h, r)->0, x) <==> (holds(h, x) || x == r),
{
    let h2 = hist_delete(h, r)->0;
    let last = h.len() - 1;
    if holds(h2, x) {
        let (gi, ri) = choose|gi: int, ri: int| 0 <= gi < h2.len() && 0 <= ri < h2[gi].revs.len() && #[trigger] h2[gi].revs[ri] == x;
        if !(gi == last && ri == h[last].revs.len()) {
            assert(h[gi].revs[ri] == x);
        }
    }
    if holds(h, x) {
        let (gi, ri) = choose|gi: int, ri: int| 0 <= gi < h.len() && 0 <= ri < h[gi].revs.len() && #[trigger] h[gi].revs[ri] == x;
        assert(h2[gi].revs[ri] == x);
    }
    if x == r {
        assert(h2[last].revs[h[last].revs.len() as int] == r);
    }
}

/// Compaction keeps only revisions the history held.
pub proof fn lemma_compact_holds(h: HistView, at: u64, x: (u64, u64))
    requires
        hist_wf(h),
        holds(hist_compact(h, at), x),
    ensures
        holds(h, x),
{
    let c = hist_compact(h, at);
    let d = first_kept(h, at, 0) as int;
    lemma_first_kept(h, at, 0);
    let (gj, rj) = choose|gi: int, ri: int| 0 <= gi < c.len() && 0 <= ri < c[gi].revs.len() && #[trigger] c[gi].revs[ri] == x;
    lemma_keep_from_bounds(h, at, d + gj);
    let kf = keep_from(h, at, d + gj);
    assert(c[gj] == trimmed(h, at, d + gj));
    assert(h[d + gj].revs[rj + kf] == x);
}

/// A revision compaction drops was held by the history and is not held by
/// what compaction keeps.
pub proof fn lemma_dropped_not_kept(h: HistView, at: u64, x: (u64, u64))
    requires
        hist_wf(h),
        hist_dropped(h, at).contains(x),
    ensures
        holds(h, x),
        !holds(hist_compact(h, at), x),
{
    lemma_dropped_within(h, at, h.len(), x);
    let (gi, ri) = choose|gi: int, ri: int| 0 <= gi < h.len() && 0 <= ri < keep_from(h, at, gi) && ri < h[gi].revs.len() && #[trigger] h[gi].revs[ri] == x;
    if holds(hist_compact(h, at), x) {
        let c = hist_compact(h, at);
        let d = first_kept(h, at, 0) as int;
        lemma_first_kept(h, at, 0);
        let (gj, rj) = choose|gj: int, rj: int| 0 <= gj < c.len() && 0 <= rj < c[gj].revs.len() && #[trigger] c[gj].revs[rj] == x;
        lemma_keep_from_bounds(h, at, d + gj);
        let kf = keep_from(h, at, d + gj);
        assert(c[gj] == trimmed(h, at, d + gj));
        assert(h[d + gj].revs[rj + kf] == x);
        lemma_held_once(h, gi, ri, d + gj, rj + kf);
    }
}

/// Where a revision dropped from the first `n` generations came from.
proof fn lemma_dropped_within(h: HistView, at: u64, n: nat, x: (u64, u64))
    requires
        hist_wf(h),
        n <= h.len(),
        dropped_within(h, at, n).contains(x),
    ensures
        exists|gi: int, ri: int|
            0 <= gi < n && 0 <= ri < keep_from(h, at, gi) && ri < h[gi].revs.len() && #[trigger] h[gi].revs[ri] == x,
    decreases n,
{
    if n > 0 {
        let prior = dropped_within(h, at, (n - 1) as nat);
        let g = n - 1;
        lemma_keep_from_bounds(h, at, g);
        let part = h[g].revs.subrange(0, keep_from(h, at, g));
        let i = choose|i: int| 0 <= i < dropped_within(h, at, n).len() && dropped_within(h, at, n)[i] == x;
        if i < prior.len() {
            assert(prior[i] == x);
            lemma_dropped_within(h, at, (n - 1) as nat, x);
        } else {
            assert(part[i - prior.len()] == x);
            assert(h[g].revs[i - prior.len()] == x);
        }
    }
}

/// What a read observes is a revision the history holds.
pub proof fn lemma_observed_is_held(h: HistView, at: u64)
    requires
        hist_wf(h),
        observe(h, at) is Some,
    ensures
        holds(h, observe(h, at)->0.modified),
{
    lemma_locate_within_valid(h, at, h.len());
    let (gi, ri) = locate(h, at)->0;
    assert(h[gi].revs[ri] == observe(h, at)->0.modified);
}

} // verus!

verus! {

/// Giving `key` a history that holds nothing new but `r`, where no other key
/// holds `r`, leaves every revision held by one key.
pub proof fn lemma_unshared_insert(m: Map<Seq<u8>, HistView>, key: Seq<u8>, h2: HistView, r: (u64, u64))
    requires
        revisions_unshared(m),
        forall|x: (u64, u64)| #[trigger] holds(h2, x) ==> holds(history_of(m, key), x) || x == r,
        forall|k: Seq<u8>| #[trigger] m.contains_key(k) && k != key ==> !holds(m[k], r),
    ensures
        revisions_unshared(m.insert(key, h2)),
{
    let m2 = m.insert(key, h2);
    assert forall|k1: Seq<u8>, k2: Seq<u8>, x: (u64, u64)|
        m2.contains_key(k1) && m2.contains_key(k2) && #[trigger] holds(m2[k1], x) && #[trigger] holds(m2[k2], x) implies k1 == k2 by {
        if k1 != k2 {
            if k1 == key {
                if holds(history_of(m, key), x) {
                    assert(m.contains_key(key));
                    assert(holds(m[key], x));
                } else {
                    assert(x == r);
                }
            } else if k2 == key {
                if holds(history_of(m, key), x) {
                    assert(m.contains_key(key));
                    assert(holds(m[key], x));
                } else {
                    assert(x == r);
                }
            }
        }
    }
}

/// Compaction leaves every revision held by one key.
pub proof fn lemma_unshared_compact(m: Map<Seq<u8>, HistView>, at: u64)
    requires
        revisions_unshared(m),
        forall|k: Seq<u8>| #[trigger] m.contains_key(k) ==> hist_wf(m[k]),
    ensures
        revisions_unshared(compact_map(m, at)),
{
    let c = compact_map(m, at);
    assert forall|k1: Seq<u8>, k2: Seq<u8>, x: (u64, u64)|
        c.contains_key(k1) && c.contains_key(k2) && #[trigger] holds(c[k1], x) && #[trigger] holds(c[k2], x) implies k1 == k2 by {
        lemma_compact_holds(m[k1], at, x);
        lemma_compact_holds(m[k2], at, x);
    }
}

} // verus!

verus! {

impl Index {
    /// Every history the index maps is well formed and non-empty.
    pub proof fn lemma_all_histories(&self)
        requires
            self.wf(),
        ensures
            forall|k: Seq<u8>| #[trigger] self.view().contains_key(k) ==> hist_wf(self.view()[k]) && self.view()[k].len() > 0,
    {
        assert forall|k: Seq<u8>| #[trigger] self.view().contains_key(k) implies hist_wf(self.view()[k]) && self.view()[k].len() > 0 by {
            self.lemma_histories(k);
        }
    }
}

/// No history whose newest `main` is at most `bound` holds a revision past it.
pub proof fn lemma_unheld_above(m: Map<Seq<u8>, HistView>, bound: u64, r: (u64, u64))
    requires
        forall|k: Seq<u8>| #[trigger] m.contains_key(k) ==> hist_wf(m[k]),
        forall|k: Seq<u8>| #[trigger] m.contains_key(k) ==> (latest_main(m[k]) matches Some(mm) && mm <= bound),
        bound < r.0,
    ensures
        forall|k: Seq<u8>| #[trigger] m.contains_key(k) ==> !holds(m[k], r),
{
    assert forall|k: Seq<u8>| #[trigger] m.contains_key(k) implies !holds(m[k], r) by {
        if holds(m[k], r) {
            lemma_held_below_latest(m[k], r);
        }
    }
}

} // verus!

verus! {

/// A revision dropped from the histories of the first `n` of `keys` was
/// dropped from the history of one of them.
pub proof fn lemma_dropped_over_from(keys: Seq<Seq<u8>>, m: Map<Seq<u8>, HistView>, at: u64, n: nat, x: (u64, u64))
    requires
        n <= keys.len(),
        dropped_over(keys, m, at, n).contains(x),
    ensures
        exists|i: int| 0 <= i < n && #[trigger] hist_dropped(m[keys[i]], at).contains(x),
    decreases n,
{
    if n > 0 {
        let prior = dropped_over(keys, m, at, (n - 1) as nat);
        let part = hist_dropped(m[keys[n - 1]], at);
        let d = dropped_over(keys, m, at, n);
        let i = choose|i: int| 0 <= i < d.len() && d[i] == x;
        if i < prior.len() {
            assert(prior[i] == x);
            lemma_dropped_over_from(keys, m, at, (n - 1) as nat, x);
        } else {
            assert(part[i - prior.len()] == x);
            assert(hist_dropped(m[keys[n - 1]], at).contains(x));
        }
    }
}

/// Every revision a well-formed history holds fits the wire.
pub proof fn lemma_held_fits(h: HistView, r: (u64, u64))
    requires
        hist_wf(h),
        holds(h, r),
    ensures
        wire_valid(r.0, r.1),
{
    let (gi, ri) = choose|gi: int, ri: int| 0 <= gi < h.len() && 0 <= ri < h[gi].revs.len() && #[trigger] h[gi].revs[ri] == r;
    assert(gen_wf(h[gi]));
}

} // verus!

verus! {

/// A key that a read at `now` observes, and none of whose writes is newer
/// than `now`, exists: its newest generation has not ended.
pub proof fn lemma_observed_now_live(h: HistView, now: u64)
    requires
        hist_wf(h),
        latest_main(h) matches Some(m) && m <= now,
        observe(h, now) is Some,
    ensures
        live(h),
{
    assert(gen_wf(h[h.len() - 1]));
}

} // verus!
