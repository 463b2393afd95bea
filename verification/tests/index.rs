use hadar::mvcc::{Index, Revision};
use hadar::storage_api::Bounds;

fn rev(main: u64) -> Revision {
    Revision::new(main, 0).unwrap()
}

#[test]
fn reports_creation_and_version_of_a_new_key() {
    let mut index = Index::default();
    index.put(b"k", rev(1));

    let found = index.get(b"k", 1).unwrap();
    assert_eq!(found.created, rev(1));
    assert_eq!(found.modified, rev(1));
    assert_eq!(found.version, 1);
}

#[test]
fn version_counts_writes_while_creation_stays_fixed() {
    let mut index = Index::default();
    for main in 1..=3 {
        index.put(b"k", rev(main));
    }

    let found = index.get(b"k", 3).unwrap();
    assert_eq!(found.created, rev(1), "creation moved on overwrite");
    assert_eq!(found.version, 3);
    assert_eq!(found.modified, rev(3));
}

#[test]
fn reads_observe_the_revision_current_at_that_point() {
    let mut index = Index::default();
    index.put(b"k", rev(1));
    index.put(b"k", rev(5));

    assert_eq!(index.get(b"k", 4).unwrap().modified, rev(1));
    assert_eq!(index.get(b"k", 5).unwrap().modified, rev(5));
}

#[test]
fn a_key_is_invisible_before_it_was_created() {
    let mut index = Index::default();
    index.put(b"k", rev(7));

    assert!(index.get(b"k", 6).is_none());
    assert!(index.get(b"k", 7).is_some());
}

#[test]
fn deletion_hides_the_key_from_that_revision_onward() {
    let mut index = Index::default();
    index.put(b"k", rev(1));
    assert!(index.tombstone(b"k", rev(2)));

    assert!(
        index.get(b"k", 1).is_some(),
        "history before the delete is lost"
    );
    assert!(index.get(b"k", 2).is_none());
    assert!(index.get(b"k", 3).is_none());
}

#[test]
fn deleting_an_absent_or_already_deleted_key_is_not_an_event() {
    let mut index = Index::default();
    assert!(!index.tombstone(b"missing", rev(1)));

    index.put(b"k", rev(1));
    assert!(index.tombstone(b"k", rev(2)));
    assert!(!index.tombstone(b"k", rev(3)));
}

#[test]
fn recreating_a_key_restarts_creation_and_version() {
    let mut index = Index::default();
    index.put(b"k", rev(1));
    index.put(b"k", rev(2));
    index.tombstone(b"k", rev(3));
    index.put(b"k", rev(4));

    let found = index.get(b"k", 4).unwrap();
    assert_eq!(found.created, rev(4), "recreate inherited the old creation");
    assert_eq!(found.version, 1, "recreate inherited the old version count");

    // The earlier incarnation is still readable at its own revisions.
    let earlier = index.get(b"k", 2).unwrap();
    assert_eq!(earlier.created, rev(1));
    assert_eq!(earlier.version, 2);
}

#[test]
fn compaction_preserves_what_a_read_at_the_watermark_sees() {
    let mut index = Index::default();
    index.put(b"k", rev(1));
    index.put(b"k", rev(5));
    index.put(b"k", rev(9));

    let before = index.get(b"k", 5).unwrap();
    let dropped = index.compact(5);

    assert_eq!(index.get(b"k", 5).unwrap(), before);
    assert_eq!(
        dropped,
        vec![rev(1)],
        "compaction dropped a reachable revision"
    );
}

#[test]
fn compaction_keeps_revisions_newer_than_the_watermark() {
    let mut index = Index::default();
    index.put(b"k", rev(1));
    index.put(b"k", rev(5));
    index.put(b"k", rev(9));

    index.compact(5);
    assert_eq!(index.get(b"k", 9).unwrap().modified, rev(9));
}

#[test]
fn version_survives_compaction_trimming_its_history() {
    let mut index = Index::default();
    for main in 1..=4 {
        index.put(b"k", rev(main));
    }

    let before = index.get(b"k", 4).unwrap().version;
    index.compact(3);

    assert_eq!(
        index.get(b"k", 4).unwrap().version,
        before,
        "version was recomputed from the trimmed history"
    );
}

#[test]
fn compaction_forgets_a_key_deleted_below_the_watermark() {
    let mut index = Index::default();
    index.put(b"k", rev(1));
    index.tombstone(b"k", rev(2));

    let dropped = index.compact(3);

    assert_eq!(
        index.tracked_keys(),
        0,
        "tombstoned key retained after compaction"
    );
    assert_eq!(
        dropped.len(),
        2,
        "both the value and its tombstone should go"
    );
}

#[test]
fn compaction_retains_a_key_recreated_above_the_watermark() {
    let mut index = Index::default();
    index.put(b"k", rev(1));
    index.tombstone(b"k", rev(2));
    index.put(b"k", rev(8));

    index.compact(3);

    assert_eq!(index.tracked_keys(), 1);
    assert_eq!(index.get(b"k", 8).unwrap().created, rev(8));
}

#[test]
fn range_returns_keys_in_order_within_bounds() {
    let mut index = Index::default();
    for key in [b"a", b"b", b"c"] {
        index.put(key, rev(1));
    }

    let found = index.range(&Bounds::between(b"a".as_slice(), b"c".as_slice()), 1);
    let keys: Vec<_> = found.into_iter().map(|(key, _)| key).collect();
    assert_eq!(keys, vec![b"a".to_vec(), b"b".to_vec()]);
}

#[test]
fn range_reflects_the_requested_revision() {
    let mut index = Index::default();
    index.put(b"a", rev(1));
    index.put(b"b", rev(5));

    assert_eq!(index.range(&Bounds::all(), 1).len(), 1);
    assert_eq!(index.range(&Bounds::all(), 5).len(), 2);
}

#[test]
fn compaction_leaves_every_later_read_of_every_key_unchanged() {
    let mut index = Index::default();
    index.put(b"a", rev(1));
    index.put(b"b", rev(2));
    index.put(b"a", rev(3));
    index.tombstone(b"b", rev(4));
    index.put(b"c", rev(5));
    index.put(b"a", rev(6));

    let reads = |index: &Index| -> Vec<Vec<(Vec<u8>, hadar::mvcc::Found)>> {
        (4..=7).map(|at| index.range(&Bounds::all(), at)).collect()
    };
    let before = reads(&index);
    let dropped = index.compact(4);
    assert_eq!(reads(&index), before);
    // a@1 is superseded by a@3, and b's whole life ends at 4.
    assert_eq!(dropped, vec![rev(1), rev(2), rev(4)]);
    assert_eq!(index.tracked_keys(), 2);
}

#[test]
fn latest_main_and_liveness_follow_the_last_write() {
    let mut index = Index::new();
    assert_eq!(index.latest_main(b"k"), None);
    assert!(!index.is_live(b"k"));
    index.put(b"k", rev(2));
    assert_eq!(index.latest_main(b"k"), Some(2));
    assert!(index.is_live(b"k"));
    index.tombstone(b"k", rev(3));
    assert_eq!(index.latest_main(b"k"), Some(3));
    assert!(!index.is_live(b"k"));
}
