use hadar::mvcc::record::{backend_key, encode};
use hadar::mvcc::{KvStore, Mutation, Record, Revision};
use hadar::storage_api::{Bounds, MemEngine, StorageEngine, WriteTxn};

fn store() -> KvStore<MemEngine> {
    KvStore::open(MemEngine::new()).unwrap()
}

fn put(key: &[u8], value: &[u8]) -> Mutation {
    Mutation::Put {
        key: key.to_vec(),
        value: value.to_vec(),
    }
}

/// Applies a batch, advancing the log position by one per mutation.
fn apply(store: &mut KvStore<MemEngine>, batch: &[Mutation]) -> Vec<Revision> {
    let upto = store.applied() + batch.len() as u64;
    store.apply(batch, upto).unwrap()
}

fn write(store: &mut KvStore<MemEngine>, key: &[u8], value: &[u8]) -> Revision {
    apply(store, &[put(key, value)])[0]
}

/// Resolves `bounds` to the keys it currently matches and deletes them.
fn delete_range(store: &mut KvStore<MemEngine>, bounds: &Bounds) -> u64 {
    let victims: Vec<Mutation> = store
        .range(bounds, None, None)
        .unwrap()
        .into_iter()
        .map(|record| Mutation::Delete { key: record.key })
        .collect();

    let deleted = victims.len() as u64;
    if !victims.is_empty() {
        apply(store, &victims);
    }
    deleted
}

fn values(records: &[Record]) -> Vec<&[u8]> {
    records
        .iter()
        .map(|record| record.value.as_slice())
        .collect()
}

#[test]
fn an_empty_store_starts_at_revision_zero() {
    let store = store();
    assert_eq!(store.current_revision().main(), 0);
    assert!(store.range(&Bounds::all(), None, None).unwrap().is_empty());
}

#[test]
fn each_write_advances_the_revision_by_one() {
    let mut store = store();
    assert_eq!(write(&mut store, b"a", b"1").main(), 1);
    assert_eq!(write(&mut store, b"b", b"1").main(), 2);
    assert_eq!(write(&mut store, b"a", b"2").main(), 3);
}

#[test]
fn a_read_at_an_old_revision_sees_the_value_of_that_time() {
    let mut store = store();
    write(&mut store, b"k", b"first");
    let old = write(&mut store, b"k", b"second").main();
    write(&mut store, b"k", b"third");

    let historical = store
        .range(&Bounds::point(b"k".as_slice()), Some(old), None)
        .unwrap();
    assert_eq!(values(&historical), [b"second".as_slice()]);

    let current = store
        .range(&Bounds::point(b"k".as_slice()), None, None)
        .unwrap();
    assert_eq!(values(&current), [b"third".as_slice()]);
}

#[test]
fn creation_and_version_track_a_keys_life() {
    let mut store = store();
    let created = write(&mut store, b"k", b"1");
    write(&mut store, b"k", b"2");

    let record = store
        .range(&Bounds::point(b"k".as_slice()), None, None)
        .unwrap();
    let record = record.first().unwrap();
    assert_eq!(record.created, created);
    assert_eq!(record.version, 2);
}

#[test]
fn a_recreated_key_reports_its_new_creation_revision() {
    let mut store = store();
    write(&mut store, b"k", b"first");
    delete_range(&mut store, &Bounds::point(b"k".as_slice()));
    let recreated = write(&mut store, b"k", b"second");

    let record = store
        .range(&Bounds::point(b"k".as_slice()), None, None)
        .unwrap();
    let record = record.first().unwrap();
    assert_eq!(record.created, recreated);
    assert_eq!(record.version, 1);
}

#[test]
fn deleted_keys_vanish_from_the_current_revision_but_not_the_past() {
    let mut store = store();
    let written = write(&mut store, b"k", b"v").main();
    let deleted = delete_range(&mut store, &Bounds::point(b"k".as_slice()));

    assert_eq!(deleted, 1);
    assert!(store.range(&Bounds::all(), None, None).unwrap().is_empty());
    assert_eq!(
        store
            .range(&Bounds::all(), Some(written), None)
            .unwrap()
            .len(),
        1
    );
}

#[test]
fn deleting_nothing_does_not_advance_the_revision() {
    let mut store = store();
    write(&mut store, b"k", b"v");
    let before = store.current_revision();

    let deleted = delete_range(&mut store, &Bounds::prefix(b"absent".as_slice()));
    assert_eq!(deleted, 0);
    assert_eq!(
        store.current_revision(),
        before,
        "a delete matching nothing consumed a revision"
    );
}

#[test]
fn a_ranged_delete_removes_every_key_in_bounds_at_one_revision() {
    let mut store = store();
    for key in [b"a", b"b", b"c"] {
        write(&mut store, key, b"v");
    }

    let deleted = delete_range(&mut store, &Bounds::between(b"a".as_slice(), b"c".as_slice()));

    assert_eq!(deleted, 2);
    let remaining = store.range(&Bounds::all(), None, None).unwrap();
    assert_eq!(remaining.len(), 1, "the exclusive end bound was deleted");
}

#[test]
fn range_respects_bounds_and_limit() {
    let mut store = store();
    for key in [b"a", b"b", b"c", b"d"] {
        write(&mut store, key, b"v");
    }

    assert_eq!(store.range(&Bounds::all(), None, Some(2)).unwrap().len(), 2);
    assert_eq!(
        store
            .range(&Bounds::between(b"b".as_slice(), b"d".as_slice()), None, None)
            .unwrap()
            .len(),
        2
    );
}

#[test]
fn reading_below_the_compaction_watermark_is_refused() {
    let mut store = store();
    let early = write(&mut store, b"k", b"first").main();
    write(&mut store, b"k", b"second");
    let watermark = write(&mut store, b"k", b"third").main();

    store.compact(watermark).unwrap();

    let error = store.range(&Bounds::all(), Some(early), None).unwrap_err();
    assert!(
        error.is_compacted(),
        "expected a compacted error, got {}",
        error.message()
    );

    // The watermark itself stays readable: compaction preserves it.
    assert_eq!(
        values(&store.range(&Bounds::all(), Some(watermark), None).unwrap()),
        [b"third".as_slice()]
    );
}

#[test]
fn compaction_reclaims_superseded_records() {
    let mut store = store();
    write(&mut store, b"k", b"first");
    write(&mut store, b"k", b"second");
    let watermark = write(&mut store, b"k", b"third").main();

    assert_eq!(store.compact(watermark).unwrap(), 2);
    assert_eq!(
        store.compact(watermark).unwrap(),
        0,
        "compaction was not idempotent"
    );
}

#[test]
fn reading_a_future_revision_is_refused() {
    let mut store = store();
    write(&mut store, b"k", b"v");

    let error = store.range(&Bounds::all(), Some(99), None).unwrap_err();
    assert!(
        error.is_future_revision(),
        "expected a future-revision error, got {}",
        error.message()
    );
}

#[test]
fn compaction_cannot_move_backwards() {
    let mut store = store();
    for _ in 0..3 {
        write(&mut store, b"k", b"v");
    }
    store.compact(3).unwrap();

    assert!(store.compact(1).unwrap_err().is_compacted());
}

#[test]
fn reopening_rebuilds_the_index_from_the_backend() {
    let (engine, written) = {
        let mut store = KvStore::open(MemEngine::new()).unwrap();
        write(&mut store, b"a", b"1");
        write(&mut store, b"b", b"2");
        delete_range(&mut store, &Bounds::point(b"a".as_slice()));
        let written = write(&mut store, b"a", b"3");
        (store.into_engine(), written)
    };

    let reopened = KvStore::open(engine).unwrap();
    assert_eq!(reopened.current_revision(), written);

    let records = reopened.range(&Bounds::all(), None, None).unwrap();
    assert_eq!(values(&records), [b"3".as_slice(), b"2".as_slice()]);

    // The delete/recreate cycle must survive the rebuild, not just the values.
    let a = records.first().unwrap();
    assert_eq!(a.created, written);
    assert_eq!(a.version, 1);
}

#[test]
fn a_batch_gives_each_put_and_each_real_delete_its_own_revision() {
    let mut store = store();
    let revisions = apply(
        &mut store,
        &[
            put(b"a", b"1"),
            Mutation::Delete { key: b"missing".to_vec() },
            put(b"b", b"2"),
            Mutation::Delete { key: b"a".to_vec() },
        ],
    );
    let mains: Vec<u64> = revisions.iter().map(|r| r.main()).collect();
    // The delete of an absent key consumes nothing and reports the current revision.
    assert_eq!(mains, vec![1, 1, 2, 3]);
    assert_eq!(store.current_revision().main(), 3);
    assert_eq!(store.applied(), 4);
}

#[test]
fn put_and_delete_range_write_through_the_store() {
    let mut store = store();
    assert_eq!(store.put(b"a", b"1").unwrap().main(), 1);
    assert_eq!(store.put(b"b", b"2").unwrap().main(), 2);
    let (revision, count) = store.delete_range(&Bounds::all()).unwrap();
    assert_eq!((revision.main(), count), (3, 2));
    assert!(store.range(&Bounds::all(), None, None).unwrap().is_empty());
    let (unchanged, none) = store.delete_range(&Bounds::all()).unwrap();
    assert_eq!((unchanged.main(), none), (3, 0));
}

#[test]
fn the_applied_position_survives_a_checkpoint_and_a_reopen() {
    let mut store = store();
    apply(&mut store, &[put(b"a", b"1"), put(b"b", b"2")]);
    assert_eq!(store.checkpoint().unwrap(), 2);
    let reopened = KvStore::open(store.into_engine()).unwrap();
    assert_eq!(reopened.applied(), 2);
    assert_eq!(reopened.current_revision().main(), 2);
}

#[test]
fn compaction_leaves_reads_at_and_after_the_watermark_unchanged() {
    let mut store = store();
    write(&mut store, b"a", b"1");
    write(&mut store, b"b", b"2");
    write(&mut store, b"a", b"3");
    delete_range(&mut store, &Bounds::point(b"b".as_slice()));
    write(&mut store, b"c", b"5");

    let reads = |store: &KvStore<MemEngine>| -> Vec<Vec<Record>> {
        (3..=5)
            .map(|at| store.range(&Bounds::all(), Some(at), None).unwrap())
            .collect()
    };
    let before = reads(&store);
    store.compact(3).unwrap();
    assert_eq!(reads(&store), before);
    assert!(store.range(&Bounds::all(), Some(2), None).unwrap_err().is_compacted());
}

fn engine_with(pairs: &[(Vec<u8>, Vec<u8>)]) -> MemEngine {
    let mut engine = MemEngine::new();
    let mut txn = engine.begin_write().unwrap();
    for (k, v) in pairs {
        txn.insert(k, v).unwrap();
    }
    engine.commit(txn).unwrap();
    engine
}

#[test]
fn a_record_at_the_zero_revision_is_refused_as_corruption() {
    let engine = engine_with(&[(backend_key(Revision::zero(), false), encode(b"k", b"v"))]);
    assert!(KvStore::open(engine).err().unwrap().is_corrupt());
}

#[test]
fn records_whose_revisions_do_not_ascend_are_refused_as_corruption() {
    let r = Revision::new(3, 0).unwrap();
    // A put and a deletion at one revision: the second does not follow the first.
    let engine = engine_with(&[
        (backend_key(r, false), encode(b"a", b"v")),
        (backend_key(r, true), encode(b"b", b"")),
    ]);
    assert!(KvStore::open(engine).err().unwrap().is_corrupt());
}

#[test]
fn a_foreign_key_among_the_records_is_refused_as_corruption() {
    let engine = engine_with(&[(vec![0x74, 1, 2], vec![0, 0, 0, 0])]);
    assert!(KvStore::open(engine).err().unwrap().is_corrupt());
}

#[test]
fn a_malformed_applied_marker_is_refused_as_corruption() {
    let engine = engine_with(&[(vec![0x00, 0x01], vec![1, 2, 3])]);
    assert!(KvStore::open(engine).err().unwrap().is_corrupt());
}

#[test]
fn a_store_opens_over_records_it_did_not_write_itself_when_they_are_in_order() {
    let engine = engine_with(&[
        (backend_key(Revision::new(1, 0).unwrap(), false), encode(b"a", b"1")),
        (backend_key(Revision::new(2, 0).unwrap(), false), encode(b"b", b"2")),
        (backend_key(Revision::new(3, 0).unwrap(), true), encode(b"a", b"")),
        (vec![0x00, 0x01], 7u64.to_be_bytes().to_vec()),
    ]);
    let store = KvStore::open(engine).unwrap();
    assert_eq!(store.current_revision().main(), 3);
    assert_eq!(store.applied(), 7);
    let keys: Vec<Vec<u8>> = store
        .range(&Bounds::all(), None, None)
        .unwrap()
        .into_iter()
        .map(|r| r.key)
        .collect();
    assert_eq!(keys, vec![b"b".to_vec()]);
}

#[test]
fn store_error_messages_render_revisions_in_decimal() {
    assert_eq!(
        hadar::mvcc::Error::compacted(0, 120).message(),
        "revision 0 has been compacted away; oldest readable is 120"
    );
    assert_eq!(
        hadar::mvcc::Error::future_revision(18446744073709551615, 9).message(),
        "revision 18446744073709551615 is ahead of the current revision 9"
    );
    assert_eq!(hadar::mvcc::Error::corrupt("bad marker").message(), "corrupt store state: bad marker");
    let backend = hadar::storage_api::Error::io("read").with_source("disk gone");
    let error = hadar::mvcc::Error::storage(backend);
    assert_eq!(error.message(), "storage backend failure");
    let source = error.source().expect("a storage error keeps its backend failure");
    assert_eq!(source.message(), "i/o failure: read");
    assert_eq!(source.source(), Some("disk gone"));
    assert!(hadar::mvcc::Error::compacted(1, 2).source().is_none());
}

#[test]
fn a_reopened_store_keeps_refusing_reads_below_the_watermark() {
    let mut store = store();
    store.put(b"k", b"1").unwrap();
    store.put(b"k", b"2").unwrap();
    store.put(b"k", b"3").unwrap();
    assert_eq!(store.compact(3).unwrap(), 2);

    let mut reopened = KvStore::open(store.into_engine()).unwrap();
    let error = reopened.range(&Bounds::all(), Some(1), None).unwrap_err();
    assert!(error.is_compacted(), "got {}", error.message());
    assert_eq!(
        values(&reopened.range(&Bounds::all(), Some(3), None).unwrap()),
        [b"3".as_slice()]
    );
    assert!(reopened.compact(2).unwrap_err().is_compacted());
    assert_eq!(reopened.compact(3).unwrap(), 0);
}

#[test]
fn a_full_compaction_does_not_let_a_revision_repeat() {
    let mut store = store();
    store.put(b"a", b"1").unwrap();
    let (deleted, count) = store.delete_range(&Bounds::point(b"a".as_slice())).unwrap();
    assert_eq!((deleted, count), (Revision::new(2, 0).unwrap(), 1));
    assert_eq!(store.compact(2).unwrap(), 2);

    let mut reopened = KvStore::open(store.into_engine()).unwrap();
    assert_eq!(reopened.current_revision(), Revision::new(2, 0).unwrap());
    assert_eq!(reopened.put(b"a", b"again").unwrap(), Revision::new(3, 0).unwrap());
}

#[test]
fn deleting_nothing_and_compacting_again_touch_nothing() {
    let mut store = store();
    store.put(b"k", b"first").unwrap();
    store.put(b"k", b"second").unwrap();
    store.put(b"k", b"third").unwrap();
    let current = store.current_revision();
    assert_eq!(
        store.delete_range(&Bounds::point(b"absent".as_slice())).unwrap(),
        (current, 0)
    );
    assert_eq!(store.compact(3).unwrap(), 2);
    assert_eq!(store.compact(3).unwrap(), 0);
    assert_eq!(
        values(&store.range(&Bounds::all(), Some(3), None).unwrap()),
        [b"third".as_slice()]
    );
    assert!(store.range(&Bounds::all(), Some(1), None).unwrap_err().is_compacted());
}

#[test]
fn a_record_replays_into_the_index_and_a_stale_one_is_refused() {
    let mut index = hadar::mvcc::Index::new();
    let mut current = Revision::zero();
    let second = Revision::new(2, 0).unwrap();
    hadar::mvcc::store::replay_one(&mut index, &mut current, &backend_key(second, false), &encode(b"k", b"v"))
        .unwrap();
    assert_eq!(current, second);
    assert_eq!(index.get(b"k", 2).unwrap().modified, second);

    let first = Revision::new(1, 0).unwrap();
    let stale = hadar::mvcc::store::replay_one(&mut index, &mut current, &backend_key(first, false), &encode(b"j", b"v"));
    assert!(stale.unwrap_err().is_corrupt());
    assert_eq!(current, second);
    assert!(index.get(b"j", 2).is_none());

    let foreign = hadar::mvcc::store::replay_one(&mut index, &mut current, b"garbage", b"");
    assert!(foreign.unwrap_err().is_corrupt());
}

#[test]
fn every_record_read_was_created_no_later_than_it_was_modified() {
    let mut store = store();
    write(&mut store, b"a", b"1");
    write(&mut store, b"a", b"2");
    write(&mut store, b"b", b"3");
    for record in store.range(&Bounds::all(), None, None).unwrap() {
        assert!(record.created <= record.modified);
        assert!(record.version >= 1);
    }
}
