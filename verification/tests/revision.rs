use hadar::mvcc::revision::ENCODED_LEN;
use hadar::mvcc::Revision;

fn rev(main: u64, sub: u64) -> Revision {
    Revision::new(main, sub).unwrap()
}

#[test]
fn rejects_revisions_the_wire_cannot_carry() {
    assert!(Revision::new(i64::MAX as u64, 0).is_some());
    assert!(Revision::new(i64::MAX as u64 + 1, 0).is_none());
    assert!(Revision::new(0, i64::MAX as u64 + 1).is_none());
}

#[test]
fn orders_by_main_then_sub() {
    assert!(rev(1, 0) < rev(1, 1));
    assert!(rev(1, 9) < rev(2, 0));
}

#[test]
fn byte_order_matches_revision_order() {
    let ordered = [rev(0, 0), rev(0, 1), rev(1, 0), rev(2, 5), rev(300, 0)];
    for pair in ordered.windows(2) {
        assert!(
            pair[0].encode() < pair[1].encode(),
            "encoding reordered {:?} against {:?}",
            pair[0],
            pair[1]
        );
    }
}

#[test]
fn encoding_round_trips() {
    for revision in [rev(0, 0), rev(1, 2), rev(i64::MAX as u64, 7)] {
        assert_eq!(Revision::decode(&revision.encode()), Some(revision));
    }
}

#[test]
fn rejects_malformed_encodings() {
    assert_eq!(Revision::decode(&[]), None);
    assert_eq!(Revision::decode(&[0; ENCODED_LEN - 1]), None);
    assert_eq!(Revision::decode(&[0; ENCODED_LEN + 1]), None);

    let mut wrong_separator = rev(1, 1).encode();
    wrong_separator[8] = b'-';
    assert_eq!(Revision::decode(&wrong_separator), None);
}

#[test]
fn advancing_moves_forward() {
    assert_eq!(rev(4, 9).next_main(), rev(5, 0));
    assert_eq!(rev(4, 9).next_sub(), rev(4, 10));
}

#[test]
fn an_encoded_revision_has_its_fixed_width() {
    let bytes = rev(1, 2).encode();
    assert_eq!(bytes.len(), ENCODED_LEN);
    assert_eq!(&bytes[..8], &[0, 0, 0, 0, 0, 0, 0, 1]);
    assert_eq!(bytes[8], b'_');
    assert_eq!(&bytes[9..], &[0, 0, 0, 0, 0, 0, 0, 2]);
}

#[test]
fn the_zero_revision_precedes_every_write() {
    let zero = Revision::zero();
    assert_eq!((zero.main(), zero.sub()), (0, 0));
    assert!(zero.precedes(rev(0, 1)));
    assert!(!rev(1, 0).precedes(zero));
    assert_eq!(rev(3, 4).as_wire(), 3);
}
