use hadar::storage_api::{Bounds, Error, KeyBound};

#[test]
fn a_prefix_ends_at_its_successor() {
    let b = Bounds::prefix(b"ab");
    assert!(b.contains(b"ab"));
    assert!(b.contains(b"abzz"));
    assert!(!b.contains(b"ac"));
    assert_eq!(b.end_bound(), &KeyBound::Excluded(b"ac".to_vec()));
}

#[test]
fn a_prefix_of_high_bytes_drops_them_before_incrementing() {
    let b = Bounds::prefix(&[0x61, 0xff, 0xff]);
    assert_eq!(b.end_bound(), &KeyBound::Excluded(vec![0x62]));
    let all_high = Bounds::prefix(&[0xff, 0xff]);
    assert_eq!(all_high.end_bound(), &KeyBound::Unbounded);
    assert!(all_high.contains(&[0xff, 0xff, 0x00]));
}

#[test]
fn advancing_past_a_key_excludes_it_and_keeps_the_end() {
    let mut b = Bounds::between(b"a", b"d");
    b.advance_past(b"b");
    assert!(!b.contains(b"b"));
    assert!(b.contains(b"c"));
    assert!(!b.contains(b"d"));
    assert_eq!(b.start_bound(), &KeyBound::Excluded(b"b".to_vec()));
}

#[test]
fn an_inverted_range_is_empty_rather_than_invalid() {
    let b = Bounds::between(b"d", b"a");
    for key in [b"a", b"b", b"d"] {
        assert!(!b.contains(key));
    }
    let point = Bounds::point(b"k");
    assert!(point.contains(b"k"));
    assert!(!point.contains(b"kk"));
    assert!(Bounds::start_at(b"b").contains(b"z"));
    assert!(!Bounds::end_before(b"b").contains(b"b"));
}

#[test]
fn errors_keep_their_classification_and_context() {
    let io = Error::io("reading a page");
    assert!(io.is_io() && !io.is_corrupt() && !io.is_conflict());
    assert_eq!(io.context(), "reading a page");
    assert!(Error::corrupt("x").is_corrupt());
    assert!(Error::conflict("x").is_conflict());
    let other = Error::other("x").with_source("disk on fire");
    assert!(!other.is_io() && !other.is_corrupt() && !other.is_conflict());
    assert_eq!(other.message(), "storage failure: x");
    assert_eq!(other.source(), Some("disk on fire"));
    assert_eq!(Error::other("x").source(), None);
    assert_eq!(Error::other("x").message(), other.message());
}
