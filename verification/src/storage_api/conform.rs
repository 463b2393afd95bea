//! Executable form of the storage contract, shared by every backend.
//!
//! Each case takes a fresh engine, exercises one guarantee of the contract
//! and reports whether the engine kept it. A case that cannot run because
//! the backend failed reports that failure instead.
//!
//! Each case's `ensures` states that an engine meeting the contract of
//! [`StorageEngine`] always passes it: running a case against a backend
//! checks that backend against what the contract promises.
use vstd::prelude::*;

use crate::bytes::{bytes_eq, lex_le, lex_lt};
use crate::sorted_map::{lemma_ascending_unique, strictly_ascending};
use crate::storage_api::bounds::Bounds;
use crate::storage_api::engine::{
    is_range_of, lookup, opt_view, pair_keys, pair_views, Keyspace, Pair, ReadTxn, StorageEngine, WriteTxn,
};
use crate::storage_api::error::Error;

verus! {

/// Whether a case ran to completion and the engine passed it.
pub open spec fn passed(r: Result<bool, Error>) -> bool {
    r matches Ok(ok) ==> ok
}

/// Commits `value` under `key` in a transaction of its own.
fn put<E: StorageEngine>(engine: &mut E, key: &[u8], value: &[u8]) -> (r: Result<(), Error>)
    ensures
        r is Ok ==> final(engine).committed() == old(engine).committed().insert(key@, value@),
        r is Err ==> final(engine).committed() == old(engine).committed(),
{
    let mut txn = match engine.begin_write() {
        Ok(t) => t,
        Err(e) => return Err(e),
    };
    match txn.insert(key, value) {
        Ok(()) => {},
        Err(e) => return Err(e),
    }
    engine.commit(txn)
}

/// Whether an optional value holds exactly `expected`.
fn holds(found: &Option<Vec<u8>>, expected: &[u8]) -> (r: bool)
    ensures
        r == (opt_view(*found) == Some(expected@)),
{
    match found {
        Some(v) => bytes_eq(v.as_slice(), expected),
        None => false,
    }
}

/// Whether the pairs a scan returned carry exactly the keys `expected`, in order.
fn keys_are(pairs: &Vec<Pair>, expected: &Vec<Vec<u8>>) -> (r: bool)
    ensures
        r == (pair_keys(pair_views(pairs@)) == expected@.map_values(|k: Vec<u8>| k@)),
{
    let ghost got = pair_keys(pair_views(pairs@));
    let ghost want = expected@.map_values(|k: Vec<u8>| k@);
    if pairs.len() != expected.len() {
        assert(got.len() != want.len());
        return false;
    }
    let mut i: usize = 0;
    while i < pairs.len()
        invariant
            pairs@.len() == expected@.len(),
            got == pair_keys(pair_views(pairs@)),
            want == expected@.map_values(|k: Vec<u8>| k@),
            i <= pairs@.len(),
            forall|j: int| 0 <= j < i ==> got[j] == want[j],
        decreases pairs@.len() - i,
    {
        if !bytes_eq(pairs[i].0.as_slice(), expected[i].as_slice()) {
            assert(got[i as int] != want[i as int]);
            return false;
        }
        i = i + 1;
    }
    assert(got =~= want);
    true
}

/// A sequence whose neighbours ascend strictly ascends throughout.
proof fn lemma_ascending_by_neighbours(s: Seq<Seq<u8>>)
    requires
        forall|i: int| 0 <= i < s.len() - 1 ==> lex_lt(#[trigger] s[i], s[i + 1]),
    ensures
        strictly_ascending(s),
    decreases s.len(),
{
    if s.len() > 1 {
        let t = s.drop_last();
        assert forall|i: int| 0 <= i < t.len() - 1 implies lex_lt(#[trigger] t[i], t[i + 1]) by {
            assert(t[i] == s[i] && t[i + 1] == s[i + 1]);
        }
        lemma_ascending_by_neighbours(t);
        assert forall|i: int, j: int| 0 <= i < j < s.len() implies lex_lt(#[trigger] s[i], #[trigger] s[j]) by {
            if j < s.len() - 1 {
                assert(t[i] == s[i] && t[j] == s[j]);
            } else if i < j - 1 {
                assert(t[i] == s[i] && t[j - 1] == s[j - 1]);
                crate::bytes::lemma_lex_lt_transitive(s[i], s[j - 1], s[j]);
            }
        }
    }
}

/// The keys of a strictly ascending sequence drawn from `expected` are no
/// more than it holds.
proof fn lemma_distinct_within(ks: Seq<Seq<u8>>, expected: Seq<Seq<u8>>)
    requires
        strictly_ascending(ks),
        forall|k: Seq<u8>| ks.contains(k) ==> expected.contains(k),
    ensures
        ks.len() <= expected.len(),
{
    assert forall|a: int, c: int| 0 <= a < ks.len() && 0 <= c < ks.len() && a != c implies ks[a] != ks[c] by {
        if a < c {
            crate::bytes::lemma_lex_lt_asymmetric(ks[a], ks[c]);
        } else {
            crate::bytes::lemma_lex_lt_asymmetric(ks[c], ks[a]);
        }
    }
    assert(ks.no_duplicates());
    ks.unique_seq_to_set();
    expected.lemma_cardinality_of_set();
    assert(ks.to_set().subset_of(expected.to_set()));
    vstd::set_lib::lemma_len_subset(ks.to_set(), expected.to_set());
}

/// A scan whose limit, if any, exceeds the number of keys in range returns
/// exactly those keys, ascending.
proof fn lemma_scan_is(r: Seq<(Seq<u8>, Seq<u8>)>, m: Keyspace, b: crate::storage_api::bounds::BoundsView, limit: Option<usize>, expected: Seq<Seq<u8>>)
    requires
        is_range_of(r, m, b, limit),
        forall|i: int| 0 <= i < expected.len() - 1 ==> lex_lt(#[trigger] expected[i], expected[i + 1]),
        forall|k: Seq<u8>| (m.contains_key(k) && b.contains(k)) <==> expected.contains(k),
        limit matches Some(l) ==> l > expected.len(),
    ensures
        pair_keys(r) == expected,
{
    let ks = pair_keys(r);
    lemma_ascending_by_neighbours(expected);
    assert forall|k: Seq<u8>| ks.contains(k) implies expected.contains(k) by {
        let i = choose|i: int| 0 <= i < ks.len() && ks[i] == k;
        assert(r[i].0 == k);
    }
    lemma_distinct_within(ks, expected);
    assert forall|k: Seq<u8>| ks.contains(k) <==> expected.contains(k) by {
        if expected.contains(k) {
            assert(m.contains_key(k) && b.contains(k));
        }
    }
    lemma_ascending_unique(ks, expected);
}

/// Checks that a lookup of an absent key succeeds with `None` instead of failing.
pub fn get_missing_returns_none<E: StorageEngine>(engine: &mut E) -> (r: Result<bool, Error>)
    requires
        old(engine).committed() == Keyspace::empty(),
    ensures
        passed(r),
{
    let absent: [u8; 6] = [0x61, 0x62, 0x73, 0x65, 0x6e, 0x74];
    let txn = match engine.begin_read() {
        Ok(t) => t,
        Err(e) => return Err(e),
    };
    match txn.get(absent.as_slice()) {
        Ok(found) => Ok(found.is_none()),
        Err(e) => Err(e),
    }
}

/// Checks that a committed value is returned verbatim.
pub fn insert_then_get_round_trips<E: StorageEngine>(engine: &mut E) -> (r: Result<bool, Error>)
    requires
        old(engine).committed() == Keyspace::empty(),
    ensures
        passed(r),
{
    let key: [u8; 3] = [0x6b, 0x65, 0x79];
    let value: [u8; 5] = [0x76, 0x61, 0x6c, 0x75, 0x65];
    match put(engine, key.as_slice(), value.as_slice()) {
        Ok(()) => {},
        Err(e) => return Err(e),
    }
    let txn = match engine.begin_read() {
        Ok(t) => t,
        Err(e) => return Err(e),
    };
    match txn.get(key.as_slice()) {
        Ok(found) => Ok(holds(&found, value.as_slice())),
        Err(e) => Err(e),
    }
}

/// Checks that inserting over an existing key replaces its value rather
/// than appending a second entry.
pub fn insert_overwrites_existing_value<E: StorageEngine>(engine: &mut E) -> (r: Result<bool, Error>)
    requires
        old(engine).committed() == Keyspace::empty(),
    ensures
        passed(r),
{
    let key: [u8; 3] = [0x6b, 0x65, 0x79];
    let first: [u8; 5] = [0x66, 0x69, 0x72, 0x73, 0x74];
    let second: [u8; 6] = [0x73, 0x65, 0x63, 0x6f, 0x6e, 0x64];
    match put(engine, key.as_slice(), first.as_slice()) {
        Ok(()) => {},
        Err(e) => return Err(e),
    }
    match put(engine, key.as_slice(), second.as_slice()) {
        Ok(()) => {},
        Err(e) => return Err(e),
    }
    let txn = match engine.begin_read() {
        Ok(t) => t,
        Err(e) => return Err(e),
    };
    let replaced = match txn.get(key.as_slice()) {
        Ok(found) => holds(&found, second.as_slice()),
        Err(e) => return Err(e),
    };
    let all = Bounds::all();
    let pairs = match txn.range(&all, None) {
        Ok(p) => p,
        Err(e) => return Err(e),
    };
    proof {
        let m = txn.keyspace();
        assert(m == Keyspace::empty().insert(key@, first@).insert(key@, second@));
        let expected = seq![key@];
        assert forall|k: Seq<u8>| (m.contains_key(k) && all@.contains(k)) <==> expected.contains(k) by {
            if k == key@ {
                assert(expected[0] == k);
            }
        }
        lemma_scan_is(pair_views(pairs@), m, all@, None, expected);
    }
    Ok(replaced && pairs.len() == 1)
}

/// Checks that removal reports the value that was displaced.
pub fn remove_returns_previous_value<E: StorageEngine>(engine: &mut E) -> (r: Result<bool, Error>)
    requires
        old(engine).committed() == Keyspace::empty(),
    ensures
        passed(r),
{
    let key: [u8; 3] = [0x6b, 0x65, 0x79];
    let value: [u8; 5] = [0x76, 0x61, 0x6c, 0x75, 0x65];
    match put(engine, key.as_slice(), value.as_slice()) {
        Ok(()) => {},
        Err(e) => return Err(e),
    }
    let mut txn = match engine.begin_write() {
        Ok(t) => t,
        Err(e) => return Err(e),
    };
    let reported = match txn.remove(key.as_slice()) {
        Ok(prev) => holds(&prev, value.as_slice()),
        Err(e) => return Err(e),
    };
    match engine.commit(txn) {
        Ok(()) => {},
        Err(e) => return Err(e),
    }
    let reader = match engine.begin_read() {
        Ok(t) => t,
        Err(e) => return Err(e),
    };
    match reader.get(key.as_slice()) {
        Ok(found) => Ok(reported && found.is_none()),
        Err(e) => Err(e),
    }
}

/// Checks that removing an absent key succeeds with `None` rather than failing.
pub fn remove_missing_returns_none<E: StorageEngine>(engine: &mut E) -> (r: Result<bool, Error>)
    requires
        old(engine).committed() == Keyspace::empty(),
    ensures
        passed(r),
{
    let absent: [u8; 6] = [0x61, 0x62, 0x73, 0x65, 0x6e, 0x74];
    let mut txn = match engine.begin_write() {
        Ok(t) => t,
        Err(e) => return Err(e),
    };
    let missing = match txn.remove(absent.as_slice()) {
        Ok(prev) => prev.is_none(),
        Err(e) => return Err(e),
    };
    match engine.commit(txn) {
        Ok(()) => Ok(missing),
        Err(e) => Err(e),
    }
}

/// Checks read-your-own-writes: a write transaction observes its own
/// buffered changes before they are committed.
pub fn write_txn_reads_its_own_writes<E: StorageEngine>(engine: &mut E) -> (r: Result<bool, Error>)
    requires
        old(engine).committed() == Keyspace::empty(),
    ensures
        passed(r),
{
    let key: [u8; 3] = [0x6b, 0x65, 0x79];
    let value: [u8; 5] = [0x76, 0x61, 0x6c, 0x75, 0x65];
    let mut txn = match engine.begin_write() {
        Ok(t) => t,
        Err(e) => return Err(e),
    };
    match txn.insert(key.as_slice(), value.as_slice()) {
        Ok(()) => {},
        Err(e) => return Err(e),
    }
    let inserted = match txn.get(key.as_slice()) {
        Ok(found) => holds(&found, value.as_slice()),
        Err(e) => return Err(e),
    };
    match txn.remove(key.as_slice()) {
        Ok(_) => {},
        Err(e) => return Err(e),
    }
    match txn.get(key.as_slice()) {
        Ok(found) => Ok(inserted && found.is_none()),
        Err(e) => Err(e),
    }
}

/// Checks that a read transaction opened while a write is in flight does
/// not observe the uncommitted write.
pub fn writes_are_invisible_before_commit<E: StorageEngine>(engine: &mut E) -> (r: Result<bool, Error>)
    requires
        old(engine).committed() == Keyspace::empty(),
    ensures
        passed(r),
{
    let key: [u8; 3] = [0x6b, 0x65, 0x79];
    let value: [u8; 5] = [0x76, 0x61, 0x6c, 0x75, 0x65];
    let mut writer = match engine.begin_write() {
        Ok(t) => t,
        Err(e) => return Err(e),
    };
    match writer.insert(key.as_slice(), value.as_slice()) {
        Ok(()) => {},
        Err(e) => return Err(e),
    }
    let reader = match engine.begin_read() {
        Ok(t) => t,
        Err(e) => return Err(e),
    };
    let invisible = match reader.get(key.as_slice()) {
        Ok(found) => found.is_none(),
        Err(e) => return Err(e),
    };
    match engine.commit(writer) {
        Ok(()) => Ok(invisible),
        Err(e) => Err(e),
    }
}

/// Checks snapshot isolation: a read transaction's view does not change
/// when a write commits underneath it.
pub fn snapshot_is_stable_across_a_commit<E: StorageEngine>(engine: &mut E) -> (r: Result<bool, Error>)
    requires
        old(engine).committed() == Keyspace::empty(),
    ensures
        passed(r),
{
    let key: [u8; 3] = [0x6b, 0x65, 0x79];
    let before: [u8; 6] = [0x62, 0x65, 0x66, 0x6f, 0x72, 0x65];
    let after: [u8; 5] = [0x61, 0x66, 0x74, 0x65, 0x72];
    match put(engine, key.as_slice(), before.as_slice()) {
        Ok(()) => {},
        Err(e) => return Err(e),
    }
    let reader = match engine.begin_read() {
        Ok(t) => t,
        Err(e) => return Err(e),
    };
    match put(engine, key.as_slice(), after.as_slice()) {
        Ok(()) => {},
        Err(e) => return Err(e),
    }
    match reader.get(key.as_slice()) {
        Ok(found) => Ok(holds(&found, before.as_slice())),
        Err(e) => Err(e),
    }
}

/// Checks that a read transaction opened after a commit observes it.
pub fn read_opened_after_commit_observes_it<E: StorageEngine>(engine: &mut E) -> (r: Result<bool, Error>)
    requires
        old(engine).committed() == Keyspace::empty(),
    ensures
        passed(r),
{
    let key: [u8; 3] = [0x6b, 0x65, 0x79];
    let value: [u8; 5] = [0x76, 0x61, 0x6c, 0x75, 0x65];
    let reader_before = match engine.begin_read() {
        Ok(t) => t,
        Err(e) => return Err(e),
    };
    match put(engine, key.as_slice(), value.as_slice()) {
        Ok(()) => {},
        Err(e) => return Err(e),
    }
    let reader_after = match engine.begin_read() {
        Ok(t) => t,
        Err(e) => return Err(e),
    };
    let unseen = match reader_before.get(key.as_slice()) {
        Ok(found) => found.is_none(),
        Err(e) => return Err(e),
    };
    match reader_after.get(key.as_slice()) {
        Ok(found) => Ok(unseen && holds(&found, value.as_slice())),
        Err(e) => Err(e),
    }
}

/// Checks that an explicitly aborted transaction leaves no trace.
pub fn abort_discards_writes<E: StorageEngine>(engine: &mut E) -> (r: Result<bool, Error>)
    requires
        old(engine).committed() == Keyspace::empty(),
    ensures
        passed(r),
{
    let key: [u8; 3] = [0x6b, 0x65, 0x79];
    let value: [u8; 5] = [0x76, 0x61, 0x6c, 0x75, 0x65];
    let mut txn = match engine.begin_write() {
        Ok(t) => t,
        Err(e) => return Err(e),
    };
    match txn.insert(key.as_slice(), value.as_slice()) {
        Ok(()) => {},
        Err(e) => return Err(e),
    }
    match engine.abort(txn) {
        Ok(()) => {},
        Err(e) => return Err(e),
    }
    let reader = match engine.begin_read() {
        Ok(t) => t,
        Err(e) => return Err(e),
    };
    match reader.get(key.as_slice()) {
        Ok(found) => Ok(found.is_none()),
        Err(e) => Err(e),
    }
}

/// Checks that dropping a transaction without committing aborts it, so an
/// early return cannot leave a partial write applied.
pub fn drop_discards_writes<E: StorageEngine>(engine: &mut E) -> (r: Result<bool, Error>)
    requires
        old(engine).committed() == Keyspace::empty(),
    ensures
        passed(r),
{
    let key: [u8; 3] = [0x6b, 0x65, 0x79];
    let value: [u8; 5] = [0x76, 0x61, 0x6c, 0x75, 0x65];
    {
        let mut txn = match engine.begin_write() {
            Ok(t) => t,
            Err(e) => return Err(e),
        };
        match txn.insert(key.as_slice(), value.as_slice()) {
            Ok(()) => {},
            Err(e) => return Err(e),
        }
    }
    let reader = match engine.begin_read() {
        Ok(t) => t,
        Err(e) => return Err(e),
    };
    match reader.get(key.as_slice()) {
        Ok(found) => Ok(found.is_none()),
        Err(e) => Err(e),
    }
}

/// Commits `value` under each of `keys`, in order, one transaction apiece.
fn put_each<E: StorageEngine>(engine: &mut E, keys: &Vec<Vec<u8>>, value: &[u8]) -> (r: Result<(), Error>)
    ensures
        r is Ok ==> final(engine).committed() == inserted_all(old(engine).committed(), keys@.map_values(|k: Vec<u8>| k@), value@, keys@.len()),
{
    let ghost ks = keys@.map_values(|k: Vec<u8>| k@);
    let mut i: usize = 0;
    while i < keys.len()
        invariant
            ks == keys@.map_values(|k: Vec<u8>| k@),
            i <= keys@.len(),
            engine.committed() == inserted_all(old(engine).committed(), ks, value@, i as nat),
        decreases keys@.len() - i,
    {
        match put(engine, keys[i].as_slice(), value) {
            Ok(()) => {},
            Err(e) => return Err(e),
        }
        i = i + 1;
    }
    Ok(())
}

/// The keyspace `m` after `value` is committed under each of the first `n` of `keys`.
pub open spec fn inserted_all(m: Keyspace, keys: Seq<Seq<u8>>, value: Seq<u8>, n: nat) -> Keyspace
    decreases n,
{
    if n == 0 || n > keys.len() {
        m
    } else {
        inserted_all(m, keys, value, (n - 1) as nat).insert(keys[n - 1], value)
    }
}

/// The keys an empty keyspace holds after `value` is committed under each of `keys`.
proof fn lemma_inserted_keys(keys: Seq<Seq<u8>>, value: Seq<u8>, n: nat)
    requires
        n <= keys.len(),
    ensures
        forall|k: Seq<u8>| #[trigger] inserted_all(Keyspace::empty(), keys, value, n).contains_key(k) <==> keys.take(n as int).contains(k),
    decreases n,
{
    if n > 0 {
        lemma_inserted_keys(keys, value, (n - 1) as nat);
        assert forall|k: Seq<u8>| #[trigger] inserted_all(Keyspace::empty(), keys, value, n).contains_key(k) <==> keys.take(n as int).contains(k) by {
            assert(inserted_all(Keyspace::empty(), keys, value, (n - 1) as nat).contains_key(k) <==> keys.take(n - 1).contains(k));
            if keys.take(n - 1).contains(k) {
                let i = choose|i: int| 0 <= i < n - 1 && #[trigger] keys.take(n - 1)[i] == k;
                assert(keys.take(n as int)[i] == k);
            }
            if keys.take(n as int).contains(k) {
                let i = choose|i: int| 0 <= i < n && #[trigger] keys.take(n as int)[i] == k;
                if i < n - 1 {
                    assert(keys.take(n - 1)[i] == k);
                }
            }
            if k == keys[n - 1] {
                assert(keys.take(n as int)[n - 1] == k);
            }
        }
    } else {
        assert(keys.take(0) =~= Seq::<Seq<u8>>::empty());
    }
}

/// The single-byte key `b`.
fn byte_key(b: u8) -> (k: Vec<u8>)
    ensures
        k@ == seq![b],
{
    let k: Vec<u8> = vec![b];
    k
}

/// Checks that a range returns pairs in ascending key order regardless of
/// insertion order.
pub fn range_is_ascending<E: StorageEngine>(engine: &mut E) -> (r: Result<bool, Error>)
    requires
        old(engine).committed() == Keyspace::empty(),
    ensures
        passed(r),
{
    let v: [u8; 1] = [0x76];
    let keys: Vec<Vec<u8>> = vec![byte_key(0x63), byte_key(0x61), byte_key(0x64), byte_key(0x62)];
    match put_each(engine, &keys, v.as_slice()) {
        Ok(()) => {},
        Err(e) => return Err(e),
    }
    let txn = match engine.begin_read() {
        Ok(t) => t,
        Err(e) => return Err(e),
    };
    let all = Bounds::all();
    let pairs = match txn.range(&all, None) {
        Ok(p) => p,
        Err(e) => return Err(e),
    };
    let expected: Vec<Vec<u8>> = vec![byte_key(0x61), byte_key(0x62), byte_key(0x63), byte_key(0x64)];
    proof {
        let ks = keys@.map_values(|k: Vec<u8>| k@);
        let want = expected@.map_values(|k: Vec<u8>| k@);
        lemma_inserted_keys(ks, v@, 4);
        assert(ks.take(4) =~= ks);
        assert forall|k: Seq<u8>| (txn.keyspace().contains_key(k) && all@.contains(k)) <==> want.contains(k) by {
            if ks.contains(k) {
                let i = choose|i: int| 0 <= i < 4 && #[trigger] ks[i] == k;
                if i == 0 { assert(want[2] == k); }
                if i == 1 { assert(want[0] == k); }
                if i == 2 { assert(want[3] == k); }
                if i == 3 { assert(want[1] == k); }
            }
            if want.contains(k) {
                let i = choose|i: int| 0 <= i < 4 && #[trigger] want[i] == k;
                if i == 0 { assert(ks[1] == k); }
                if i == 1 { assert(ks[3] == k); }
                if i == 2 { assert(ks[0] == k); }
                if i == 3 { assert(ks[2] == k); }
            }
        }
        lemma_scan_is(pair_views(pairs@), txn.keyspace(), all@, None, want);
    }
    Ok(keys_are(&pairs, &expected))
}

/// The first `n` of a strictly ascending sequence ascend strictly too.
proof fn lemma_take_ascending(s: Seq<Seq<u8>>, n: int)
    requires
        strictly_ascending(s),
        0 <= n <= s.len(),
    ensures
        strictly_ascending(s.take(n)),
{
    let t = s.take(n);
    assert forall|a: int, c: int| 0 <= a < c < t.len() implies lex_lt(#[trigger] t[a], #[trigger] t[c]) by {
        assert(t[a] == s[a] && t[c] == s[c]);
    }
}

/// Where `k` stands in a strictly ascending sequence, if it stands there at all.
proof fn lemma_ascending_position(s: Seq<Seq<u8>>, p: int, q: int)
    requires
        strictly_ascending(s),
        0 <= p < s.len(),
        0 <= q < s.len(),
        lex_lt(s[p], s[q]),
    ensures
        p < q,
{
    if p == q {
        crate::bytes::lemma_lex_lt_irreflexive(s[p]);
    } else if p > q {
        crate::bytes::lemma_lex_lt_asymmetric(s[q], s[p]);
    }
}

/// A scan capped at `l`, no more than the keys in range, returns the first
/// `l` of those keys, ascending.
proof fn lemma_scan_prefix_is(r: Seq<(Seq<u8>, Seq<u8>)>, m: Keyspace, b: crate::storage_api::bounds::BoundsView, l: usize, all: Seq<Seq<u8>>)
    requires
        is_range_of(r, m, b, Some(l)),
        forall|i: int| 0 <= i < all.len() - 1 ==> lex_lt(#[trigger] all[i], all[i + 1]),
        forall|k: Seq<u8>| (m.contains_key(k) && b.contains(k)) <==> all.contains(k),
        l <= all.len(),
    ensures
        pair_keys(r) == all.take(l as int),
{
    let ks = pair_keys(r);
    lemma_ascending_by_neighbours(all);
    assert forall|k: Seq<u8>| ks.contains(k) implies all.contains(k) by {
        let i = choose|i: int| 0 <= i < ks.len() && ks[i] == k;
        assert(r[i].0 == k);
    }
    assert forall|q: int| 0 <= q < l implies ks.contains(#[trigger] all[q]) by {
        if !ks.contains(all[q]) {
            assert(all.contains(all[q]));
            assert(m.contains_key(all[q]) && b.contains(all[q]));
            assert forall|k: Seq<u8>| ks.contains(k) implies all.take(q).contains(k) by {
                let i = choose|i: int| 0 <= i < ks.len() && ks[i] == k;
                assert(r[i].0 == k);
                assert(lex_lt(k, all[q]));
                let p = choose|p: int| 0 <= p < all.len() && all[p] == k;
                lemma_ascending_position(all, p, q);
                assert(all.take(q)[p] == k);
            }
            lemma_distinct_within(ks, all.take(q));
        }
    }
    assert forall|k: Seq<u8>| ks.contains(k) implies all.take(l as int).contains(k) by {
        let i = choose|i: int| 0 <= i < ks.len() && ks[i] == k;
        let p = choose|p: int| 0 <= p < all.len() && all[p] == k;
        if p >= l {
            assert forall|k2: Seq<u8>| all.take(l as int).contains(k2) implies ks.take(i).contains(k2) by {
                let q = choose|q: int| 0 <= q < l && all.take(l as int)[q] == k2;
                assert(all[q] == k2);
                assert(ks.contains(all[q]));
                let j = choose|j: int| 0 <= j < ks.len() && ks[j] == k2;
                if q < p {
                    assert(lex_lt(all[q], all[p]));
                }
                lemma_ascending_position(ks, j, i);
                assert(ks.take(i)[j] == k2);
            }
            lemma_take_ascending(all, l as int);
            lemma_distinct_within(all.take(l as int), ks.take(i));
        } else {
            assert(all.take(l as int)[p] == k);
        }
    }
    lemma_take_ascending(all, l as int);
    assert forall|k: Seq<u8>| ks.contains(k) <==> all.take(l as int).contains(k) by {
        if all.take(l as int).contains(k) {
            let q = choose|q: int| 0 <= q < l && all.take(l as int)[q] == k;
            assert(all[q] == k);
        }
    }
    lemma_ascending_unique(ks, all.take(l as int));
}

/// Checks that keys order by unsigned byte comparison.
///
/// A backend comparing bytes as signed would sort `0x80` before `0x7f`.
pub fn range_orders_keys_as_unsigned_bytes<E: StorageEngine>(engine: &mut E) -> (r: Result<bool, Error>)
    requires
        old(engine).committed() == Keyspace::empty(),
    ensures
        passed(r),
{
    let v: [u8; 1] = [0x76];
    let keys: Vec<Vec<u8>> = vec![byte_key(0xff), byte_key(0x80), byte_key(0x7f), byte_key(0x00)];
    match put_each(engine, &keys, v.as_slice()) {
        Ok(()) => {},
        Err(e) => return Err(e),
    }
    let txn = match engine.begin_read() {
        Ok(t) => t,
        Err(e) => return Err(e),
    };
    let all = Bounds::all();
    let pairs = match txn.range(&all, None) {
        Ok(p) => p,
        Err(e) => return Err(e),
    };
    let expected: Vec<Vec<u8>> = vec![byte_key(0x00), byte_key(0x7f), byte_key(0x80), byte_key(0xff)];
    proof {
        let ks = keys@.map_values(|k: Vec<u8>| k@);
        let want = expected@.map_values(|k: Vec<u8>| k@);
        lemma_inserted_keys(ks, v@, 4);
        assert(ks.take(4) =~= ks);
        assert forall|k: Seq<u8>| (txn.keyspace().contains_key(k) && all@.contains(k)) <==> want.contains(k) by {
            if ks.contains(k) {
                let i = choose|i: int| 0 <= i < 4 && #[trigger] ks[i] == k;
                if i == 0 { assert(want[3] == k); }
                if i == 1 { assert(want[2] == k); }
                if i == 2 { assert(want[1] == k); }
                if i == 3 { assert(want[0] == k); }
            }
            if want.contains(k) {
                let i = choose|i: int| 0 <= i < 4 && #[trigger] want[i] == k;
                if i == 0 { assert(ks[3] == k); }
                if i == 1 { assert(ks[2] == k); }
                if i == 2 { assert(ks[1] == k); }
                if i == 3 { assert(ks[0] == k); }
            }
        }
        lemma_scan_is(pair_views(pairs@), txn.keyspace(), all@, None, want);
    }
    Ok(keys_are(&pairs, &expected))
}

/// Checks that a range's start bound is inclusive and its end bound exclusive.
pub fn range_end_bound_is_exclusive<E: StorageEngine>(engine: &mut E) -> (r: Result<bool, Error>)
    requires
        old(engine).committed() == Keyspace::empty(),
    ensures
        passed(r),
{
    let v: [u8; 1] = [0x76];
    let keys: Vec<Vec<u8>> = vec![byte_key(0x61), byte_key(0x62), byte_key(0x63)];
    match put_each(engine, &keys, v.as_slice()) {
        Ok(()) => {},
        Err(e) => return Err(e),
    }
    let txn = match engine.begin_read() {
        Ok(t) => t,
        Err(e) => return Err(e),
    };
    let a: [u8; 1] = [0x61];
    let c: [u8; 1] = [0x63];
    let bounds = Bounds::between(a.as_slice(), c.as_slice());
    let pairs = match txn.range(&bounds, None) {
        Ok(p) => p,
        Err(e) => return Err(e),
    };
    let expected: Vec<Vec<u8>> = vec![byte_key(0x61), byte_key(0x62)];
    proof {
        let ks = keys@.map_values(|k: Vec<u8>| k@);
        let want = expected@.map_values(|k: Vec<u8>| k@);
        lemma_inserted_keys(ks, v@, 3);
        assert(ks.take(3) =~= ks);
        crate::bytes::lemma_lex_lt_irreflexive(c@);
        assert(a@ =~= seq![0x61u8]);
        assert(c@ =~= seq![0x63u8]);
        assert(lex_lt(seq![0x61u8], seq![0x63u8]));
        assert(lex_lt(seq![0x61u8], seq![0x62u8]));
        assert(lex_lt(seq![0x62u8], seq![0x63u8]));
        assert forall|k: Seq<u8>| (txn.keyspace().contains_key(k) && bounds@.contains(k)) <==> want.contains(k) by {
            if ks.contains(k) {
                let i = choose|i: int| 0 <= i < 3 && #[trigger] ks[i] == k;
                if i == 0 { assert(want[0] == k); }
                if i == 1 { assert(want[1] == k); }
            }
            if want.contains(k) {
                let i = choose|i: int| 0 <= i < 2 && #[trigger] want[i] == k;
                if i == 0 { assert(ks[0] == k); }
                if i == 1 { assert(ks[1] == k); }
            }
        }
        lemma_scan_is(pair_views(pairs@), txn.keyspace(), bounds@, None, want);
    }
    Ok(keys_are(&pairs, &expected))
}

/// Checks that an unbounded range covers every key, and that a range open
/// at one end runs to the edge of the keyspace there.
pub fn range_unbounded_covers_keyspace<E: StorageEngine>(engine: &mut E) -> (r: Result<bool, Error>)
    requires
        old(engine).committed() == Keyspace::empty(),
    ensures
        passed(r),
{
    let v: [u8; 1] = [0x76];
    let keys: Vec<Vec<u8>> = vec![byte_key(0x61), byte_key(0x62), byte_key(0x63)];
    match put_each(engine, &keys, v.as_slice()) {
        Ok(()) => {},
        Err(e) => return Err(e),
    }
    let txn = match engine.begin_read() {
        Ok(t) => t,
        Err(e) => return Err(e),
    };
    let ghost ks = keys@.map_values(|k: Vec<u8>| k@);
    proof {
        lemma_inserted_keys(ks, v@, 3);
        assert(ks.take(3) =~= ks);
    }
    let all = Bounds::all();
    let everything = match txn.range(&all, None) {
        Ok(p) => p,
        Err(e) => return Err(e),
    };
    let want_all: Vec<Vec<u8>> = vec![byte_key(0x61), byte_key(0x62), byte_key(0x63)];
    proof {
        let want = want_all@.map_values(|k: Vec<u8>| k@);
        assert forall|k: Seq<u8>| (txn.keyspace().contains_key(k) && all@.contains(k)) <==> want.contains(k) by {
            if ks.contains(k) {
                let i = choose|i: int| 0 <= i < 3 && #[trigger] ks[i] == k;
                assert(want[i] == k);
            }
            if want.contains(k) {
                let i = choose|i: int| 0 <= i < 3 && #[trigger] want[i] == k;
                assert(ks[i] == k);
            }
        }
        lemma_scan_is(pair_views(everything@), txn.keyspace(), all@, None, want);
    }
    let b: [u8; 1] = [0x62];
    let from_b = Bounds::start_at(b.as_slice());
    let upper = match txn.range(&from_b, None) {
        Ok(p) => p,
        Err(e) => return Err(e),
    };
    let want_upper: Vec<Vec<u8>> = vec![byte_key(0x62), byte_key(0x63)];
    proof {
        let want = want_upper@.map_values(|k: Vec<u8>| k@);
        assert(b@ =~= seq![0x62u8]);
        assert(lex_lt(seq![0x62u8], seq![0x63u8]));
        assert(lex_lt(seq![0x61u8], seq![0x62u8]));
        crate::bytes::lemma_lex_lt_asymmetric(seq![0x61u8], seq![0x62u8]);
        assert forall|k: Seq<u8>| (txn.keyspace().contains_key(k) && from_b@.contains(k)) <==> want.contains(k) by {
            if ks.contains(k) {
                let i = choose|i: int| 0 <= i < 3 && #[trigger] ks[i] == k;
                if i == 1 { assert(want[0] == k); }
                if i == 2 { assert(want[1] == k); }
            }
            if want.contains(k) {
                let i = choose|i: int| 0 <= i < 2 && #[trigger] want[i] == k;
                assert(ks[i + 1] == k);
            }
        }
        lemma_scan_is(pair_views(upper@), txn.keyspace(), from_b@, None, want);
    }
    let c: [u8; 1] = [0x63];
    let below_c = Bounds::end_before(c.as_slice());
    let lower = match txn.range(&below_c, None) {
        Ok(p) => p,
        Err(e) => return Err(e),
    };
    let want_lower: Vec<Vec<u8>> = vec![byte_key(0x61), byte_key(0x62)];
    proof {
        let want = want_lower@.map_values(|k: Vec<u8>| k@);
        crate::bytes::lemma_lex_lt_irreflexive(c@);
        assert(c@ =~= seq![0x63u8]);
        assert(lex_lt(seq![0x61u8], seq![0x63u8]));
        assert(lex_lt(seq![0x62u8], seq![0x63u8]));
        assert forall|k: Seq<u8>| (txn.keyspace().contains_key(k) && below_c@.contains(k)) <==> want.contains(k) by {
            if ks.contains(k) {
                let i = choose|i: int| 0 <= i < 3 && #[trigger] ks[i] == k;
                if i < 2 { assert(want[i] == k); }
            }
            if want.contains(k) {
                let i = choose|i: int| 0 <= i < 2 && #[trigger] want[i] == k;
                assert(ks[i] == k);
            }
        }
        lemma_scan_is(pair_views(lower@), txn.keyspace(), below_c@, None, want);
    }
    Ok(keys_are(&everything, &want_all) && keys_are(&upper, &want_upper) && keys_are(&lower, &want_lower))
}

/// Checks that a limit truncates from the start of the range, not the end.
pub fn range_limit_takes_from_the_start<E: StorageEngine>(engine: &mut E) -> (r: Result<bool, Error>)
    requires
        old(engine).committed() == Keyspace::empty(),
    ensures
        passed(r),
{
    let v: [u8; 1] = [0x76];
    let keys: Vec<Vec<u8>> = vec![byte_key(0x61), byte_key(0x62), byte_key(0x63), byte_key(0x64)];
    match put_each(engine, &keys, v.as_slice()) {
        Ok(()) => {},
        Err(e) => return Err(e),
    }
    let txn = match engine.begin_read() {
        Ok(t) => t,
        Err(e) => return Err(e),
    };
    let ghost ks = keys@.map_values(|k: Vec<u8>| k@);
    let all = Bounds::all();
    proof {
        lemma_inserted_keys(ks, v@, 4);
        assert(ks.take(4) =~= ks);
        assert forall|k: Seq<u8>| (txn.keyspace().contains_key(k) && all@.contains(k)) <==> ks.contains(k) by {}
    }
    let two = match txn.range(&all, Some(2)) {
        Ok(p) => p,
        Err(e) => return Err(e),
    };
    let none = match txn.range(&all, Some(0)) {
        Ok(p) => p,
        Err(e) => return Err(e),
    };
    let plenty = match txn.range(&all, Some(99)) {
        Ok(p) => p,
        Err(e) => return Err(e),
    };
    let want_two: Vec<Vec<u8>> = vec![byte_key(0x61), byte_key(0x62)];
    proof {
        lemma_scan_prefix_is(pair_views(two@), txn.keyspace(), all@, 2, ks);
        assert(ks.take(2) =~= want_two@.map_values(|k: Vec<u8>| k@));
        lemma_scan_is(pair_views(plenty@), txn.keyspace(), all@, Some(99usize), ks);
    }
    Ok(keys_are(&two, &want_two) && none.len() == 0 && plenty.len() == 4)
}

} // verus!
