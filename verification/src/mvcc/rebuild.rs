//! What a store rebuilt from its backend holds: the revision records replayed
//! in ascending key order, which is ascending revision order.
use vstd::prelude::*;

use crate::bytes::{lex_le, lex_lt};
use crate::bytes::lemma_pow256_small;
use crate::mvcc::index::{accepts, hist_delete, hist_put, history_of, latest_main, live, HistView};
use crate::mvcc::meta::{applied_key_bytes, compacted_key_bytes, compaction_of, position_bytes, position_of};
use crate::mvcc::mutation::MutationView;
use crate::mvcc::record::{
    lemma_parse_backend_key, lemma_record_roundtrip, parsed_key, record_bytes, record_key, record_parts, MAX_KEY_LEN,
    REVISION_PREFIX, TOMBSTONE,
};
use crate::mvcc::store::{apply_all, apply_step, tombstone_all, tombstone_records, ApplyState};
use crate::mvcc::revision::{
    encoding, lemma_encode_decode, lemma_encoding_order, lemma_lex_lt_equal_length_prefix, rev_le, rev_lt, wire_valid,
    ENCODED_LEN, WIRE_MAX,
};
use crate::sorted_map::{lemma_ascending_unique, strictly_ascending};
use crate::storage_api::bounds::{BoundView, BoundsView};
use crate::storage_api::engine::{is_range_of, pair_keys, Keyspace};

verus! {

/// The range of backend keys holding revision records.
pub open spec fn record_range() -> BoundsView {
    BoundsView { start: BoundView::Included(seq![REVISION_PREFIX]), end: BoundView::Excluded(seq![0x75u8]) }
}

/// What replaying revision records has produced so far.
pub struct Rebuilt {
    pub history: Map<Seq<u8>, HistView>,
    pub current: (u64, u64),
}

/// The later of two revisions.
pub open spec fn rev_max(a: (u64, u64), b: (u64, u64)) -> (u64, u64) {
    if rev_lt(a, b) {
        b
    } else {
        a
    }
}

/// Replays one backend record, or `None` if it is not a revision record
/// this store writes, or does not come after every revision replayed so far.
///
/// A deletion of a key that does not exist changes no history.
pub open spec fn replay_record(st: Rebuilt, raw_key: Seq<u8>, raw_value: Seq<u8>) -> Option<Rebuilt> {
    match parsed_key(raw_key) {
        None => None,
        Some((r, tombstone)) => match record_parts(raw_value) {
            None => None,
            Some((key, _)) => {
                let h = history_of(st.history, key);
                let current = rev_max(st.current, r);
                if !rev_lt(st.current, r) || !accepts(h, r) {
                    None
                } else if tombstone {
                    match hist_delete(h, r) {
                        Some(h2) => Some(Rebuilt { history: st.history.insert(key, h2), current }),
                        None => Some(Rebuilt { history: st.history, current }),
                    }
                } else {
                    Some(Rebuilt { history: st.history.insert(key, hist_put(h, r)), current })
                }
            },
        },
    }
}

/// Replays `records` in order over an empty store.
pub open spec fn replay(records: Seq<(Seq<u8>, Seq<u8>)>) -> Option<Rebuilt>
    decreases records.len(),
{
    if records.len() == 0 {
        Some(Rebuilt { history: Map::empty(), current: (0u64, 0u64) })
    } else {
        match replay(records.drop_last()) {
            Some(st) => replay_record(st, records.last().0, records.last().1),
            None => None,
        }
    }
}

/// The applied position a keyspace records: zero when it records none, and
/// `None` when its marker is malformed.
pub open spec fn marker_position(m: Keyspace) -> Option<u64> {
    if m.contains_key(applied_key_bytes()) {
        position_of(m[applied_key_bytes()])
    } else {
        Some(0)
    }
}

/// The watermark a keyspace records, with the revision that was current when
/// it was recorded: nothing compacted, at revision zero, when it records
/// none, and `None` when its marker is malformed.
pub open spec fn compaction_marker(m: Keyspace) -> Option<(u64, (u64, u64))> {
    if m.contains_key(compacted_key_bytes()) {
        compaction_of(m[compacted_key_bytes()])
    } else {
        Some((0u64, (0u64, 0u64)))
    }
}

/// Whether `s` is the beginning of an ascending scan of the pairs of `m`
/// within `b`: ascending, drawn from `m` within `b`, and missing no key of
/// `m` within `b` up to its last.
pub open spec fn is_scan_prefix(s: Seq<(Seq<u8>, Seq<u8>)>, m: Keyspace, b: BoundsView) -> bool {
    &&& strictly_ascending(pair_keys(s))
    &&& forall|i: int|
        0 <= i < s.len() ==> {
            &&& m.contains_key(#[trigger] s[i].0)
            &&& m[s[i].0] == s[i].1
            &&& b.contains(s[i].0)
        }
    &&& forall|k: Seq<u8>|
        #[trigger] m.contains_key(k) && b.contains(k) && s.len() > 0 && lex_le(k, s.last().0) ==> pair_keys(s).contains(k)
}

/// The bounds a paged scan of `b` reads next, having read `done`.
pub open spec fn next_page(done: Seq<(Seq<u8>, Seq<u8>)>, b: BoundsView) -> BoundsView {
    if done.len() == 0 {
        b
    } else {
        BoundsView { start: BoundView::Excluded(done.last().0), end: b.end }
    }
}

/// Byte order: `a <= b < c` gives `a < c`.
proof fn lemma_le_lt(a: Seq<u8>, b: Seq<u8>, c: Seq<u8>)
    requires
        lex_le(a, b),
        lex_lt(b, c),
    ensures
        lex_lt(a, c),
{
    if a != b {
        crate::bytes::lemma_lex_lt_transitive(a, b, c);
    }
}

/// Appending the first `j` pairs of the next page keeps a scan a prefix.
pub proof fn lemma_scan_extends(
    done: Seq<(Seq<u8>, Seq<u8>)>,
    page: Seq<(Seq<u8>, Seq<u8>)>,
    m: Keyspace,
    b: BoundsView,
    limit: usize,
    j: int,
)
    requires
        b.start == BoundView::Included(seq![REVISION_PREFIX]),
        is_scan_prefix(done, m, b),
        is_range_of(page, m, next_page(done, b), Some(limit)),
        0 <= j <= page.len(),
    ensures
        is_scan_prefix(done + page.take(j), m, b),
{
    let s = done + page.take(j);
    let nb = next_page(done, b);
    let ks = pair_keys(s);
    // Every pair of the page lies in `b`, after everything already scanned.
    assert forall|i: int| 0 <= i < page.len() implies {
        &&& b.contains(#[trigger] page[i].0)
        &&& done.len() > 0 ==> lex_lt(done.last().0, page[i].0)
    } by {
        assert(nb.contains(page[i].0));
        if done.len() > 0 {
            let last = done.last().0;
            assert(pair_keys(done)[done.len() - 1] == last);
            assert(b.contains(last));
            if let BoundView::Included(p) = b.start {
                lemma_le_lt(p, last, page[i].0);
            }
        }
    }
    assert forall|a: int, c: int| 0 <= a < c < ks.len() implies lex_lt(#[trigger] ks[a], #[trigger] ks[c]) by {
        if c < done.len() {
            assert(ks[a] == pair_keys(done)[a]);
            assert(ks[c] == pair_keys(done)[c]);
        } else if a >= done.len() {
            assert(ks[a] == pair_keys(page)[a - done.len()]);
            assert(ks[c] == pair_keys(page)[c - done.len()]);
        } else {
            let last = done.last().0;
            assert(ks[a] == pair_keys(done)[a]);
            assert(ks[c] == page[c - done.len()].0);
            if a < done.len() - 1 {
                assert(lex_lt(pair_keys(done)[a], pair_keys(done)[done.len() - 1]));
            }
            assert(lex_le(ks[a], last));
            lemma_le_lt(ks[a], last, ks[c]);
        }
    }
    assert forall|i: int| 0 <= i < s.len() implies {
        &&& m.contains_key(#[trigger] s[i].0)
        &&& m[s[i].0] == s[i].1
        &&& b.contains(s[i].0)
    } by {
        if i >= done.len() {
            assert(s[i] == page[i - done.len()]);
        }
    }
    assert forall|k: Seq<u8>|
        #[trigger] m.contains_key(k) && b.contains(k) && s.len() > 0 && lex_le(k, s.last().0) implies ks.contains(k) by {
        if j == 0 {
            assert(s =~= done);
        } else {
            let top = page[j - 1].0;
            assert(s.last() == page[j - 1]);
            let below = done.len() > 0 && lex_le(k, done.last().0);
            if below {
                assert(s.last() == page[j - 1]);
                assert(pair_keys(done).contains(k));
                let i = choose|i: int| 0 <= i < pair_keys(done).len() && pair_keys(done)[i] == k;
                assert(ks[i] == k);
            } else {
                if done.len() > 0 {
                    crate::bytes::lemma_lex_lt_total(k, done.last().0);
                }
                assert(nb.contains(k));
                if pair_keys(page).contains(k) {
                    let i = choose|i: int| 0 <= i < pair_keys(page).len() && pair_keys(page)[i] == k;
                    if i >= j {
                        if i > j - 1 {
                            assert(lex_lt(pair_keys(page)[j - 1], pair_keys(page)[i]));
                            crate::bytes::lemma_lex_lt_asymmetric(top, k);
                        }
                    }
                    assert(ks[done.len() + i] == k);
                } else {
                    assert(lex_lt(page[j - 1].0, k));
                    crate::bytes::lemma_lex_lt_asymmetric(top, k);
                }
            }
        }
    }
}

/// A scan whose next page is empty is complete.
pub proof fn lemma_scan_complete(done: Seq<(Seq<u8>, Seq<u8>)>, m: Keyspace, b: BoundsView, limit: usize)
    requires
        limit > 0,
        is_scan_prefix(done, m, b),
        is_range_of(Seq::empty(), m, next_page(done, b), Some(limit)),
    ensures
        is_range_of(done, m, b, None),
{
    let nb = next_page(done, b);
    assert forall|k: Seq<u8>| #[trigger] m.contains_key(k) && b.contains(k) implies pair_keys(done).contains(k) by {
        if done.len() == 0 {
            assert(nb.contains(k));
        } else {
            crate::bytes::lemma_lex_lt_total(k, done.last().0);
            if lex_lt(done.last().0, k) {
                assert(nb.contains(k));
            }
        }
    }
}

/// The keys of an ascending scan of a finite keyspace are no more than it holds.
pub proof fn lemma_scan_len(s: Seq<(Seq<u8>, Seq<u8>)>, m: Keyspace, b: BoundsView)
    requires
        m.dom().finite(),
        is_scan_prefix(s, m, b),
    ensures
        s.len() <= m.dom().len(),
{
    let ks = pair_keys(s);
    assert forall|a: int, c: int| 0 <= a < ks.len() && 0 <= c < ks.len() && a != c implies ks[a] != ks[c] by {
        if a < c {
            crate::bytes::lemma_lex_lt_asymmetric(ks[a], ks[c]);
        } else {
            crate::bytes::lemma_lex_lt_asymmetric(ks[c], ks[a]);
        }
    }
    assert(ks.no_duplicates());
    ks.unique_seq_to_set();
    assert(ks.to_set().subset_of(m.dom()));
    vstd::set_lib::lemma_len_subset(ks.to_set(), m.dom());
}

/// A replay that failed stays failed however many records follow.
pub proof fn lemma_replay_fails_onward(s: Seq<(Seq<u8>, Seq<u8>)>, t: Seq<(Seq<u8>, Seq<u8>)>)
    requires
        replay(s) is None,
    ensures
        replay(s + t) is None,
    decreases t.len(),
{
    if t.len() == 0 {
        assert(s + t =~= s);
    } else {
        lemma_replay_fails_onward(s, t.drop_last());
        assert((s + t).drop_last() =~= s + t.drop_last());
    }
}

} // verus!

verus! {

/// Whether the revision records of `backend`, replayed in ascending key
/// order, rebuild exactly `history` and `current`.
pub open spec fn replays_to(backend: Keyspace, history: Map<Seq<u8>, HistView>, current: (u64, u64)) -> bool {
    exists|s: Seq<(Seq<u8>, Seq<u8>)>|
        #[trigger] is_range_of(s, backend, record_range(), None) && replay(s) == Some(
            Rebuilt { history, current },
        )
}

/// A key a revision record sits under is the key built from what it names.
proof fn lemma_parsed_key_is_record_key(k: Seq<u8>)
    requires
        parsed_key(k) is Some,
    ensures
        parsed_key(k) matches Some((r, t)) ==> record_key(r, t) == k,
{
    let rest = k.drop_first();
    if rest.len() == ENCODED_LEN {
        lemma_encode_decode(rest);
        assert(k =~= seq![REVISION_PREFIX] + rest + Seq::<u8>::empty());
    } else {
        let enc = rest.subrange(0, ENCODED_LEN as int);
        lemma_encode_decode(enc);
        assert(k =~= seq![REVISION_PREFIX] + enc + seq![TOMBSTONE]);
    }
}

/// Record keys order as the revisions they name.
proof fn lemma_record_key_order(a: (u64, u64), ta: bool, b: (u64, u64), tb: bool)
    requires
        rev_lt(a, b),
    ensures
        lex_lt(record_key(a, ta), record_key(b, tb)),
{
    lemma_encoding_order(a, b);
    lemma_pow256_small();
    let ea = encoding(a);
    let eb = encoding(b);
    crate::bytes::lemma_lex_lt_asymmetric(ea, eb);
    let sa = if ta { seq![TOMBSTONE] } else { Seq::<u8>::empty() };
    let sb = if tb { seq![TOMBSTONE] } else { Seq::<u8>::empty() };
    lemma_lex_lt_equal_length_prefix(ea, eb, sa, sb);
    crate::bytes::lemma_lex_lt_common_prefix(seq![REVISION_PREFIX], ea + sa, eb + sb);
    assert(record_key(a, ta) =~= seq![REVISION_PREFIX] + (ea + sa));
    assert(record_key(b, tb) =~= seq![REVISION_PREFIX] + (eb + sb));
}

/// Every record key lies in the record range.
proof fn lemma_record_key_in_range(r: (u64, u64), t: bool)
    ensures
        record_range().contains(record_key(r, t)),
{
    let k = record_key(r, t);
    assert(k[0] == REVISION_PREFIX);
    assert(k.drop_first() =~= encoding(r) + if t { seq![TOMBSTONE] } else { Seq::<u8>::empty() });
    assert(seq![REVISION_PREFIX].drop_first() =~= Seq::<u8>::empty());
    assert(k.len() > 1);
    assert(lex_lt(seq![REVISION_PREFIX].drop_first(), k.drop_first()));
    assert(lex_lt(seq![REVISION_PREFIX], k));
    assert(lex_lt(k, seq![0x75u8]));
}

/// What replaying records yields never precedes a record it replayed, and
/// holds no history newer than its current revision.
pub proof fn lemma_replay_bounds(s: Seq<(Seq<u8>, Seq<u8>)>)
    requires
        replay(s) is Some,
    ensures
        forall|i: int|
            0 <= i < s.len() ==> (parsed_key(#[trigger] s[i].0) matches Some((r, t)) && rev_le(r, replay(s)->0.current)),
        forall|k: Seq<u8>|
            #[trigger] replay(s)->0.history.contains_key(k) ==> (latest_main(replay(s)->0.history[k]) matches Some(m)
                && m <= replay(s)->0.current.0),
    decreases s.len(),
{
    if s.len() > 0 {
        let p = s.drop_last();
        lemma_replay_bounds(p);
        let st = replay(p)->0;
        let now = replay(s)->0;
        assert forall|i: int| 0 <= i < s.len() implies (parsed_key(#[trigger] s[i].0) matches Some((r, t)) && rev_le(r, now.current)) by {
            if i < s.len() - 1 {
                assert(s[i] == p[i]);
            }
        }
        assert forall|k: Seq<u8>| #[trigger] now.history.contains_key(k) implies (latest_main(now.history[k]) matches Some(m)
            && m <= now.current.0) by {
            if st.history.contains_key(k) {
                assert(latest_main(st.history[k]) matches Some(m) && m <= st.current.0);
            }
        }
    }
}

/// An empty backend replays to an empty store.
pub proof fn lemma_empty_replays()
    ensures
        replays_to(Keyspace::empty(), Map::empty(), (0u64, 0u64)),
{
    let s = Seq::<(Seq<u8>, Seq<u8>)>::empty();
    assert(is_range_of(s, Keyspace::empty(), record_range(), None));
}

/// A key outside the record range leaves what the records replay to alone.
pub proof fn lemma_replay_ignores_other_keys(b: Keyspace, h: Map<Seq<u8>, HistView>, c: (u64, u64), k: Seq<u8>, v: Seq<u8>)
    requires
        replays_to(b, h, c),
        !record_range().contains(k),
    ensures
        replays_to(b.insert(k, v), h, c),
{
    let s = choose|s: Seq<(Seq<u8>, Seq<u8>)>|
        #[trigger] is_range_of(s, b, record_range(), None) && replay(s) == Some(Rebuilt { history: h, current: c });
    assert(is_range_of(s, b.insert(k, v), record_range(), None));
}

/// Two complete ascending scans of a keyspace are the same scan.
pub proof fn lemma_scan_unique(s: Seq<(Seq<u8>, Seq<u8>)>, t: Seq<(Seq<u8>, Seq<u8>)>, m: Keyspace, b: BoundsView)
    requires
        is_range_of(s, m, b, None),
        is_range_of(t, m, b, None),
    ensures
        s == t,
{
    let ks = pair_keys(s);
    let kt = pair_keys(t);
    assert forall|k: Seq<u8>| ks.contains(k) <==> kt.contains(k) by {
        if ks.contains(k) {
            let i = choose|i: int| 0 <= i < ks.len() && ks[i] == k;
            assert(s[i].0 == k);
        }
        if kt.contains(k) {
            let i = choose|i: int| 0 <= i < kt.len() && kt[i] == k;
            assert(t[i].0 == k);
        }
    }
    lemma_ascending_unique(ks, kt);
    assert forall|i: int| 0 <= i < s.len() implies s[i] == t[i] by {
        assert(ks[i] == s[i].0 && kt[i] == t[i].0);
    }
    assert(s =~= t);
}

/// What a backend's records replay to is what a store opened over it holds:
/// however its scan is taken, it replays to the same history and revision.
pub proof fn lemma_replay_determined(
    b: Keyspace,
    h: Map<Seq<u8>, HistView>,
    c: (u64, u64),
    s: Seq<(Seq<u8>, Seq<u8>)>,
)
    requires
        replays_to(b, h, c),
        is_range_of(s, b, record_range(), None),
    ensures
        replay(s) == Some(Rebuilt { history: h, current: c }),
{
    let t = choose|t: Seq<(Seq<u8>, Seq<u8>)>|
        #[trigger] is_range_of(t, b, record_range(), None) && replay(t) == Some(Rebuilt { history: h, current: c });
    lemma_scan_unique(s, t, b, record_range());
}

/// Adding, under a revision newer than any it holds, a record that replays
/// cleanly extends the scan by that record.
proof fn lemma_replay_extend(
    b: Keyspace,
    h: Map<Seq<u8>, HistView>,
    c: (u64, u64),
    r: (u64, u64),
    t: bool,
    value: Seq<u8>,
)
    requires
        replays_to(b, h, c),
        rev_lt(c, r),
        wire_valid(r.0, r.1),
    ensures
        ({
            let k = record_key(r, t);
            let s = choose|s: Seq<(Seq<u8>, Seq<u8>)>|
                #[trigger] is_range_of(s, b, record_range(), None) && replay(s) == Some(Rebuilt { history: h, current: c });
            &&& is_range_of(s.push((k, value)), b.insert(k, value), record_range(), None)
            &&& replay(s.push((k, value))) == replay_record(Rebuilt { history: h, current: c }, k, value)
        }),
{
    let k = record_key(r, t);
    let s = choose|s: Seq<(Seq<u8>, Seq<u8>)>|
        #[trigger] is_range_of(s, b, record_range(), None) && replay(s) == Some(Rebuilt { history: h, current: c });
    let s2 = s.push((k, value));
    let b2 = b.insert(k, value);
    lemma_replay_bounds(s);
    lemma_record_key_in_range(r, t);
    // Every record already held sorts before the new one.
    assert forall|i: int| 0 <= i < s.len() implies lex_lt(#[trigger] s[i].0, k) by {
        lemma_parsed_key_is_record_key(s[i].0);
        let (ri, ti) = parsed_key(s[i].0)->0;
        assert(rev_le(ri, c));
        lemma_record_key_order(ri, ti, r, t);
    }
    if b.contains_key(k) {
        assert(pair_keys(s).contains(k));
        let i = choose|i: int| 0 <= i < pair_keys(s).len() && pair_keys(s)[i] == k;
        assert(s[i].0 == k);
        crate::bytes::lemma_lex_lt_irreflexive(k);
    }
    let ks2 = pair_keys(s2);
    assert forall|a: int, d: int| 0 <= a < d < ks2.len() implies lex_lt(#[trigger] ks2[a], #[trigger] ks2[d]) by {
        if d < s.len() {
            assert(ks2[a] == pair_keys(s)[a] && ks2[d] == pair_keys(s)[d]);
        } else {
            assert(ks2[a] == s[a].0);
        }
    }
    assert forall|i: int| 0 <= i < s2.len() implies {
        &&& b2.contains_key(#[trigger] s2[i].0)
        &&& b2[s2[i].0] == s2[i].1
        &&& record_range().contains(s2[i].0)
    } by {
        if i < s.len() {
            assert(s2[i] == s[i]);
            assert(s[i].0 != k) by {
                crate::bytes::lemma_lex_lt_irreflexive(k);
            }
        }
    }
    assert forall|key: Seq<u8>| #[trigger] b2.contains_key(key) && record_range().contains(key) implies pair_keys(s2).contains(key) by {
        if key == k {
            assert(ks2[s.len() as int] == k);
        } else {
            assert(pair_keys(s).contains(key));
            let i = choose|i: int| 0 <= i < pair_keys(s).len() && pair_keys(s)[i] == key;
            assert(ks2[i] == key);
        }
    }
    assert(s2.drop_last() =~= s);
}

} // verus!

verus! {

/// Applying one mutation keeps the backend's records replaying to the
/// store's history and revision.
pub proof fn lemma_apply_step_replays(st: ApplyState, m: MutationView)
    requires
        replays_to(st.backend, st.history, st.current),
        m.key().len() <= MAX_KEY_LEN,
        st.current.0 < WIRE_MAX,
    ensures
        replays_to(apply_step(st, m).backend, apply_step(st, m).history, apply_step(st, m).current),
{
    let r = ((st.current.0 + 1) as u64, 0u64);
    let s = choose|s: Seq<(Seq<u8>, Seq<u8>)>|
        #[trigger] is_range_of(s, st.backend, record_range(), None) && replay(s) == Some(
            Rebuilt { history: st.history, current: st.current },
        );
    lemma_replay_bounds(s);
    lemma_parse_backend_key(r, false);
    lemma_parse_backend_key(r, true);
    let key = m.key();
    let h = history_of(st.history, key);
    assert(accepts(h, r)) by {
        if st.history.contains_key(key) {
            assert(latest_main(st.history[key]) matches Some(mm) && mm <= st.current.0);
        }
    }
    match m {
        MutationView::Put { key, value } => {
            let v = record_bytes(key, value);
            lemma_record_roundtrip(key, value);
            lemma_replay_extend(st.backend, st.history, st.current, r, false, v);
            let s2 = s.push((record_key(r, false), v));
            assert(is_range_of(s2, apply_step(st, m).backend, record_range(), None));
        },
        MutationView::Delete { key } => {
            match hist_delete(h, r) {
                Some(h2) => {
                    let v = record_bytes(key, Seq::empty());
                    lemma_record_roundtrip(key, Seq::empty());
                    lemma_replay_extend(st.backend, st.history, st.current, r, true, v);
                    let s2 = s.push((record_key(r, true), v));
                    assert(is_range_of(s2, apply_step(st, m).backend, record_range(), None));
                },
                None => {
                    assert(is_range_of(s, apply_step(st, m).backend, record_range(), None));
                },
            }
        },
    }
}

/// Applying a batch keeps the backend's records replaying to the store's
/// history and revision, as long as every key fits a record's length prefix.
pub proof fn lemma_apply_replays(st: ApplyState, batch: Seq<MutationView>)
    requires
        replays_to(st.backend, st.history, st.current),
        forall|i: int| 0 <= i < batch.len() ==> (#[trigger] batch[i]).key().len() <= MAX_KEY_LEN,
        st.current.0 + batch.len() < WIRE_MAX,
    ensures
        replays_to(apply_all(st, batch).backend, apply_all(st, batch).history, apply_all(st, batch).current),
        apply_all(st, batch).current.0 <= st.current.0 + batch.len(),
    decreases batch.len(),
{
    if batch.len() > 0 {
        let p = batch.drop_last();
        assert forall|i: int| 0 <= i < p.len() implies (#[trigger] p[i]).key().len() <= MAX_KEY_LEN by {
            assert(p[i] == batch[i]);
        }
        lemma_apply_replays(st, p);
        lemma_apply_step_replays(apply_all(st, p), batch.last());
    }
}

/// The applied-position marker lies outside the revision records.
proof fn lemma_marker_outside_records()
    ensures
        !record_range().contains(applied_key_bytes()),
{
    assert(lex_lt(applied_key_bytes(), seq![REVISION_PREFIX]));
    crate::bytes::lemma_lex_lt_asymmetric(applied_key_bytes(), seq![REVISION_PREFIX]);
}

/// Applying a batch, with the position it brings the log to, to a store
/// whose records replay to its history leaves the records replaying to the
/// history and revision the batch produced: a store reopened over the
/// backend holds exactly what the store held.
pub proof fn lemma_apply_keeps_backend_replayable(st: ApplyState, batch: Seq<MutationView>, upto: u64)
    requires
        replays_to(st.backend, st.history, st.current),
        forall|i: int| 0 <= i < batch.len() ==> (#[trigger] batch[i]).key().len() <= MAX_KEY_LEN,
        st.current.0 + batch.len() < WIRE_MAX,
    ensures
        replays_to(
            apply_all(st, batch).backend.insert(applied_key_bytes(), position_bytes(upto)),
            apply_all(st, batch).history,
            apply_all(st, batch).current,
        ),
{
    lemma_apply_replays(st, batch);
    lemma_marker_outside_records();
    let s = apply_all(st, batch);
    lemma_replay_ignores_other_keys(s.backend, s.history, s.current, applied_key_bytes(), position_bytes(upto));
}

} // verus!

verus! {

/// Deleting some of `keys` leaves the histories of the others alone.
proof fn lemma_tombstone_all_untouched(
    h: Map<Seq<u8>, HistView>,
    keys: Seq<Seq<u8>>,
    main: u64,
    n: nat,
    k: Seq<u8>,
)
    requires
        n <= keys.len(),
        forall|i: int| 0 <= i < n ==> #[trigger] keys[i] != k,
    ensures
        history_of(tombstone_all(h, keys, main, n), k) == history_of(h, k),
    decreases n,
{
    if n > 0 {
        lemma_tombstone_all_untouched(h, keys, main, (n - 1) as nat, k);
        assert(keys[n - 1] != k);
    }
}

/// Deleting live keys at one revision, the `i`th of them at sub-revision
/// `i`, keeps the backend's records replaying to the store's history, with
/// the last of those sub-revisions as the current revision.
pub proof fn lemma_tombstones_replay(
    b: Keyspace,
    h: Map<Seq<u8>, HistView>,
    c: (u64, u64),
    keys: Seq<Seq<u8>>,
    main: u64,
    n: nat,
)
    requires
        replays_to(b, h, c),
        c.0 < main <= WIRE_MAX,
        0 < n <= keys.len(),
        n <= WIRE_MAX + 1,
        strictly_ascending(keys),
        forall|i: int| 0 <= i < n ==> (#[trigger] keys[i]).len() <= MAX_KEY_LEN,
        forall|i: int|
            0 <= i < n ==> {
                &&& h.contains_key(#[trigger] keys[i])
                &&& live(h[keys[i]])
                &&& latest_main(h[keys[i]]) matches Some(mm) && mm <= c.0
            },
    ensures
        replays_to(
            tombstone_records(b, keys, main, n),
            tombstone_all(h, keys, main, n),
            (main, (n - 1) as u64),
        ),
    decreases n,
{
    let r = (main, (n - 1) as u64);
    let key = keys[n - 1];
    let (b0, h0, c0) = if n == 1 {
        (b, h, c)
    } else {
        lemma_tombstones_replay(b, h, c, keys, main, (n - 1) as nat);
        (
            tombstone_records(b, keys, main, (n - 1) as nat),
            tombstone_all(h, keys, main, (n - 1) as nat),
            (main, (n - 2) as u64),
        )
    };
    assert(tombstone_all(h, keys, main, (n - 1) as nat) == h0) by {
        if n == 1 {
            assert(tombstone_all(h, keys, main, 0) == h);
        }
    }
    assert(tombstone_records(b, keys, main, (n - 1) as nat) == b0) by {
        if n == 1 {
            assert(tombstone_records(b, keys, main, 0) == b);
        }
    }
    assert forall|i: int| 0 <= i < n - 1 implies #[trigger] keys[i] != key by {
        crate::bytes::lemma_lex_lt_irreflexive(keys[i]);
    }
    lemma_tombstone_all_untouched(h, keys, main, (n - 1) as nat, key);
    let hk = history_of(h0, key);
    assert(hk == h[key]);
    assert(accepts(hk, r));
    assert(rev_lt(c0, r));
    let v = record_bytes(key, Seq::empty());
    lemma_record_roundtrip(key, Seq::empty());
    lemma_parse_backend_key(r, true);
    lemma_replay_extend(b0, h0, c0, r, true, v);
    let s = choose|s: Seq<(Seq<u8>, Seq<u8>)>|
        #[trigger] is_range_of(s, b0, record_range(), None) && replay(s) == Some(Rebuilt { history: h0, current: c0 });
    assert(is_range_of(s.push((record_key(r, true), v)), tombstone_records(b, keys, main, n), record_range(), None));
}

} // verus!
