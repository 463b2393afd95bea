use hadar::mvcc::{KvStore, Mutation, Revision};
use hadar::storage_api::{Bounds, MemEngine};
use hadar::wal::batch::{apply_logged, encode_batch, split_revisions};
use hadar::wal::error::Error;
use hadar::wal::recovery::{plan_recovery, read_segment, recover};
use hadar::wal::segment::{classify_name, removable_segments, segment_file_name, segment_order, SegmentState};
use hadar::wal::batch::MAX_BATCH;
use hadar::wal::writer::{retire_step, writer_step, RetireStage, WriterAction, WriterEvent, WriterState};
use hadar::wal::{Faults, Options};

fn put(key: &[u8], value: &[u8]) -> Mutation {
    Mutation::Put {
        key: key.to_vec(),
        value: value.to_vec(),
    }
}

fn log_of(mutations: &[Mutation]) -> Vec<u8> {
    let mut out = Vec::new();
    for m in mutations {
        hadar::wal::record::encode(m, &mut out).unwrap();
    }
    out
}

#[test]
fn a_segment_reads_back_every_complete_record() {
    let ms = vec![put(b"a", b"1"), Mutation::Delete { key: b"b".to_vec() }, put(b"c", b"")];
    let bytes = log_of(&ms);
    let (read, valid, torn) = read_segment(&bytes).unwrap();
    assert_eq!(read, ms);
    assert_eq!(valid, bytes.len());
    assert!(!torn);
}

#[test]
fn a_torn_tail_ends_the_segment_at_the_last_complete_record() {
    let ms = vec![put(b"a", b"1"), put(b"b", b"2")];
    let bytes = log_of(&ms);
    let first_len = log_of(&ms[..1]).len();
    let (read, valid, torn) = read_segment(&bytes[..first_len + 4]).unwrap();
    assert_eq!(read, ms[..1].to_vec());
    assert_eq!(valid, first_len);
    assert!(torn);
}

#[test]
fn damage_in_a_segment_is_refused() {
    let mut bytes = log_of(&[put(b"a", b"1"), put(b"b", b"2")]);
    bytes[10] ^= 0x40;
    assert!(read_segment(&bytes).unwrap_err().is_corrupt());
}

#[test]
fn recovery_skips_what_the_store_already_applied() {
    let seg0 = log_of(&[put(b"a", b"1"), put(b"b", b"2")]);
    let seg1 = log_of(&[put(b"c", b"3"), put(b"d", b"4")]);
    let plan = plan_recovery(&[(0, seg0), (2, seg1.clone())], 3).unwrap();
    assert_eq!(plan.pending, vec![put(b"d", b"4")]);
    assert_eq!(plan.seen, 4);
    assert_eq!(plan.valid, seg1.len() as u64);
}

#[test]
fn recovery_numbers_records_from_each_segments_name() {
    let seg = log_of(&[put(b"x", b"1"), put(b"y", b"2")]);
    let plan = plan_recovery(&[(20, seg)], 20).unwrap();
    assert_eq!(plan.pending.len(), 2);
    assert_eq!(plan.seen, 22);
}

#[test]
fn a_hole_in_a_sealed_segment_is_corruption_but_a_torn_tail_is_not() {
    let seg0 = log_of(&[put(b"a", b"1"), put(b"b", b"2")]);
    let seg1 = log_of(&[put(b"c", b"3")]);
    let cut = seg0[..seg0.len() - 5].to_vec();
    let error = plan_recovery(&[(0, cut.clone()), (2, seg1.clone())], 0).unwrap_err();
    assert!(error.is_corrupt());
    let plan = plan_recovery(&[(0, seg1), (1, cut)], 0).unwrap();
    assert_eq!(plan.pending, vec![put(b"c", b"3"), put(b"a", b"1")]);
    assert_eq!(plan.seen, 2);
}

#[test]
fn recovery_replays_into_the_store_and_records_the_position() {
    let mut store = KvStore::open(MemEngine::new()).unwrap();
    let seg = log_of(&[put(b"a", b"1"), put(b"b", b"2"), Mutation::Delete { key: b"a".to_vec() }]);
    let valid = recover(&mut store, &[(0, seg.clone())]).unwrap();
    assert_eq!(valid, seg.len() as u64);
    assert_eq!(store.applied(), 3);
    assert_eq!(store.current_revision().main(), 3);
    let keys: Vec<Vec<u8>> = store
        .range(&Bounds::all(), None, None)
        .unwrap()
        .into_iter()
        .map(|r| r.key)
        .collect();
    assert_eq!(keys, vec![b"b".to_vec()]);

    // Recovering again replays nothing.
    assert_eq!(recover(&mut store, &[(0, seg)]).unwrap(), valid);
    assert_eq!(store.current_revision().main(), 3);
}

#[test]
fn segment_names_are_zero_padded_record_numbers() {
    assert_eq!(segment_file_name(0), b"00000000000000000000.wal".to_vec());
    assert_eq!(segment_file_name(42), b"00000000000000000042.wal".to_vec());
    assert_eq!(segment_file_name(u64::MAX), b"18446744073709551615.wal".to_vec());
}

#[test]
fn only_wal_files_are_segments_and_their_stems_must_be_numbers() {
    assert_eq!(classify_name(b"00000000000000000042.wal").unwrap(), Some(42));
    assert_eq!(classify_name(b"+7.wal").unwrap(), Some(7));
    assert_eq!(classify_name(b"notes.txt").unwrap(), None);
    assert_eq!(classify_name(b"wal").unwrap(), None);
    assert_eq!(classify_name(b".wal").unwrap(), None);
    assert!(classify_name(b"abc.wal").unwrap_err().is_corrupt());
    assert!(classify_name(b"18446744073709551616.wal").unwrap_err().is_corrupt());
    assert!(classify_name(b"1.2.wal").unwrap_err().is_corrupt());
}

#[test]
fn a_checkpoint_removes_segments_only_behind_a_durable_successor() {
    assert_eq!(removable_segments(&[], 10), 0);
    assert_eq!(removable_segments(&[0], 10), 0);
    assert_eq!(removable_segments(&[0, 5, 9, 12], 10), 2);
    assert_eq!(removable_segments(&[0, 5, 9, 12], 4), 0);
    assert_eq!(removable_segments(&[0, 5, 9, 12], 100), 3);
}

#[test]
fn a_batch_is_framed_in_order_and_split_back_among_its_writers() {
    let requests = vec![vec![put(b"a", b"1"), put(b"b", b"2")], vec![], vec![put(b"c", b"3")]];
    let counts: Vec<usize> = requests.iter().map(|r| r.len()).collect();
    let (bytes, all) = encode_batch(requests).unwrap();
    assert_eq!(all, vec![put(b"a", b"1"), put(b"b", b"2"), put(b"c", b"3")]);
    assert_eq!(bytes, log_of(&all));

    let revisions: Vec<Revision> = (1..=3).map(|m| Revision::new(m, 0).unwrap()).collect();
    let split = split_revisions(&revisions, &counts);
    assert_eq!(split, vec![revisions[..2].to_vec(), vec![], revisions[2..].to_vec()]);
    let short = split_revisions(&revisions[..1], &counts);
    assert_eq!(short, vec![revisions[..1].to_vec(), vec![], vec![]]);
}

#[test]
fn an_unencodable_mutation_fails_the_whole_batch() {
    let huge = put(b"k", &vec![0u8; hadar::wal::frame::MAX_PAYLOAD_LEN]);
    let error = encode_batch(vec![vec![put(b"a", b"1")], vec![huge]]).unwrap_err();
    assert!(error.is_corrupt());
}

#[test]
fn a_logged_batch_advances_the_applied_position_by_its_length() {
    let mut store = KvStore::open(MemEngine::new()).unwrap();
    let revisions = apply_logged(&mut store, &[put(b"a", b"1"), put(b"b", b"2")]).unwrap();
    assert_eq!(revisions.iter().map(|r| r.main()).collect::<Vec<_>>(), vec![1, 2]);
    assert_eq!(store.applied(), 2);
}

#[test]
fn a_poisoned_segment_refuses_appends() {
    let mut segment = SegmentState::new(10, 64);
    assert!(!segment.is_full());
    assert!(segment.check_writable().is_ok());
    segment.appended(60);
    assert!(segment.is_full());
    assert_eq!(segment.len(), 70);
    segment.poison();
    assert!(segment.check_writable().unwrap_err().is_io());
}

#[test]
fn armed_faults_are_consumed_by_the_operations_they_target() {
    let mut faults = Faults::new();
    assert_eq!(faults.take_short_write(10), None);
    faults.shorten_next_write(6);
    assert_eq!(faults.take_short_write(10), Some(6));
    assert_eq!(faults.take_short_write(10), None);
    faults.shorten_next_write(60);
    assert_eq!(faults.take_short_write(10), Some(10));

    faults.fail_next_syncs(2);
    assert!(faults.take_sync_failure());
    assert!(faults.take_sync_failure());
    assert!(!faults.take_sync_failure());
    faults.record_sync();
    assert_eq!(faults.syncs(), 1);

    faults.fail_next_truncates(1);
    assert!(faults.take_truncate_failure());
    assert!(!faults.take_truncate_failure());
}

#[test]
fn default_options_roll_over_at_sixty_four_mebibytes() {
    let options = Options::default();
    assert_eq!(options.segment_limit, 64 * 1024 * 1024);
    assert!(options.checkpoint_interval > options.segment_limit);
    assert!(hadar::wal::options::checkpoint_due(&options, options.checkpoint_interval));
    assert!(!hadar::wal::options::checkpoint_due(&options, 0));
}

#[test]
fn wal_errors_keep_their_classification() {
    assert!(Error::io("flushing", "device gone").is_io());
    assert!(Error::truncated().is_truncated());
    assert!(Error::corrupt("x").is_corrupt());
    assert!(Error::shutdown().is_shutdown());
    let failed = Error::io("flushing", "device gone").batch_failed();
    assert!(failed.is_io() && !failed.is_corrupt());
}

#[test]
fn log_error_messages_carry_detail_and_source() {
    let io = Error::io("syncing segment", "no space");
    assert_eq!(io.message(), "log i/o failed while syncing segment");
    assert_eq!(io.source(), Some("no space"));
    assert_eq!(
        Error::apply("store refused").message(),
        "applying a logged batch failed: store refused"
    );
    assert_eq!(Error::truncated().message(), "log record ends mid-record");
    assert_eq!(
        Error::corrupt("bad kind").batch_failed().message(),
        "corrupt log record: bad kind"
    );
}

#[test]
fn segments_are_read_in_order_of_their_first_record() {
    assert_eq!(segment_order(&[40, 0, 17, 90]), vec![1, 2, 0, 3]);
    assert_eq!(segment_order(&[]), Vec::<usize>::new());
    assert_eq!(segment_order(&[5]), vec![0]);
}

#[test]
fn writes_waiting_together_share_one_batch_and_a_checkpoint_follows_when_due() {
    let options = Options { segment_limit: 1024, checkpoint_interval: 100 };
    let mut state = WriterState::new();
    let write = WriterEvent::Received { checkpoint: false };
    assert_eq!(writer_step(&mut state, write, &options), WriterAction::TakeMore);
    assert_eq!(writer_step(&mut state, write, &options), WriterAction::TakeMore);
    assert_eq!(writer_step(&mut state, WriterEvent::QueueEmpty, &options), WriterAction::Retire);
    assert_eq!(state.batched, 2);
    assert_eq!(
        writer_step(&mut state, WriterEvent::Retired { bytes: 150 }, &options),
        WriterAction::Checkpoint { requested: false }
    );
    assert_eq!(state.batched, 0);
    assert_eq!(writer_step(&mut state, WriterEvent::CheckpointDone { ok: false }, &options), WriterAction::Receive);
    assert_eq!(state.appended, 150);

    let ask = WriterEvent::Received { checkpoint: true };
    assert_eq!(writer_step(&mut state, ask, &options), WriterAction::TakeMore);
    assert_eq!(
        writer_step(&mut state, WriterEvent::QueueEmpty, &options),
        WriterAction::Checkpoint { requested: true }
    );
    assert_eq!(writer_step(&mut state, WriterEvent::CheckpointDone { ok: true }, &options), WriterAction::Receive);
    assert_eq!(state.appended, 0);
    assert!(!state.requested);

    assert_eq!(writer_step(&mut state, write, &options), WriterAction::TakeMore);
    assert_eq!(writer_step(&mut state, WriterEvent::QueueEmpty, &options), WriterAction::Retire);
    assert_eq!(writer_step(&mut state, WriterEvent::Retired { bytes: 10 }, &options), WriterAction::Receive);
}

#[test]
fn a_full_batch_is_retired_without_waiting_for_more() {
    let options = Options::default();
    let mut state = WriterState::new();
    let write = WriterEvent::Received { checkpoint: false };
    for _ in 1..MAX_BATCH {
        assert_eq!(writer_step(&mut state, write, &options), WriterAction::TakeMore);
    }
    assert_eq!(writer_step(&mut state, write, &options), WriterAction::Retire);
    assert_eq!(state.batched, MAX_BATCH);
}

#[test]
fn a_batch_is_applied_only_once_appended_and_flushed() {
    assert_eq!(retire_step(RetireStage::Encoding, true, false), RetireStage::Appending);
    assert_eq!(retire_step(RetireStage::Encoding, true, true), RetireStage::RollingOver);
    assert_eq!(retire_step(RetireStage::RollingOver, true, false), RetireStage::Appending);
    assert_eq!(retire_step(RetireStage::Appending, true, false), RetireStage::Applying);
    assert_eq!(retire_step(RetireStage::Applying, true, false), RetireStage::Answering { ok: true });
    assert_eq!(retire_step(RetireStage::Appending, false, false), RetireStage::Answering { ok: false });
    assert_eq!(retire_step(RetireStage::Encoding, false, true), RetireStage::Answering { ok: false });
}
