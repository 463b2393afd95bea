use hadar::mvcc::Mutation;
use hadar::wal::frame::HEADER_LEN;
use hadar::wal::record::{decode, encode, VERSION};

fn encoded(mutation: &Mutation) -> Vec<u8> {
    let mut out = Vec::new();
    encode(mutation, &mut out).expect("mutation is encodable");
    out
}

#[test]
fn a_put_round_trips() {
    let mutation = Mutation::Put {
        key: b"key".to_vec(),
        value: b"value".to_vec(),
    };
    let (decoded, _) = decode(&encoded(&mutation)).expect("record decodes");
    assert_eq!(decoded, mutation);
}

#[test]
fn a_delete_round_trips() {
    let mutation = Mutation::Delete {
        key: b"key".to_vec(),
    };
    let (decoded, _) = decode(&encoded(&mutation)).expect("record decodes");
    assert_eq!(decoded, mutation);
}

#[test]
fn an_empty_value_is_distinct_from_a_deletion() {
    let put = encoded(&Mutation::Put {
        key: b"key".to_vec(),
        value: Vec::new(),
    });
    let delete = encoded(&Mutation::Delete {
        key: b"key".to_vec(),
    });

    assert_ne!(put, delete, "a put of nothing encodes as a deletion");
}

#[test]
fn records_decode_back_to_back() {
    let first = Mutation::Put {
        key: b"a".to_vec(),
        value: b"1".to_vec(),
    };
    let second = Mutation::Delete { key: b"b".to_vec() };

    let mut log = encoded(&first);
    log.extend_from_slice(&encoded(&second));

    let (decoded, width) = decode(&log).expect("first record decodes");
    assert_eq!(decoded, first);
    let (decoded, _) = decode(&log[width..]).expect("second record decodes");
    assert_eq!(decoded, second);
}

#[test]
fn a_record_from_a_future_version_is_refused() {
    let mut bytes = encoded(&Mutation::Delete {
        key: b"key".to_vec(),
    });
    bytes[HEADER_LEN] = VERSION + 1;

    // The checksum still has to be repaired, or this would be caught as
    // corruption before the version is ever read.
    let payload_len = bytes.len() - HEADER_LEN;
    let mut hasher = crc32fast::Hasher::new();
    hasher.update(&(payload_len as u32).to_be_bytes());
    hasher.update(&bytes[HEADER_LEN..]);
    let checksum = hasher.finalize().to_be_bytes();
    bytes[..4].copy_from_slice(&checksum);

    let error = decode(&bytes).expect_err("an unknown version cannot decode");
    assert!(
        error.is_corrupt(),
        "reported {} rather than corruption",
        error.message()
    );
}

#[test]
fn an_unknown_kind_is_refused() {
    let mutation = Mutation::Delete {
        key: b"key".to_vec(),
    };
    let mut out = Vec::new();
    encode(&mutation, &mut out).expect("mutation is encodable");

    // Rebuild the frame around a payload naming a kind that does not
    // exist, so the checksum matches and the kind is what fails.
    let mut payload = out[HEADER_LEN..].to_vec();
    payload[1] = 0xee;
    let mut bytes = Vec::new();
    hadar::wal::frame::encode(&payload, &mut bytes).expect("payload is framable");

    let error = decode(&bytes).expect_err("an unknown kind cannot decode");
    assert!(
        error.is_corrupt(),
        "reported {} rather than corruption",
        error.message()
    );
}

#[test]
fn a_record_lays_out_version_kind_key_length_key_and_value() {
    let bytes = encoded(&Mutation::Put {
        key: b"ab".to_vec(),
        value: b"xyz".to_vec(),
    });
    assert_eq!(&bytes[HEADER_LEN..], &[1, 1, 0, 0, 0, 2, b'a', b'b', b'x', b'y', b'z']);
    let delete = encoded(&Mutation::Delete { key: b"ab".to_vec() });
    assert_eq!(&delete[HEADER_LEN..], &[1, 2, 0, 0, 0, 2, b'a', b'b']);
}

#[test]
fn every_prefix_of_a_record_reads_as_truncated() {
    let bytes = encoded(&Mutation::Put {
        key: b"key".to_vec(),
        value: b"value".to_vec(),
    });
    for cut in 0..bytes.len() {
        assert!(decode(&bytes[..cut]).unwrap_err().is_truncated());
    }
}

#[test]
fn a_deletion_carrying_a_value_is_refused() {
    let mut payload = vec![1, 2, 0, 0, 0, 1, b'k'];
    payload.push(b'v');
    let mut bytes = Vec::new();
    hadar::wal::frame::encode(&payload, &mut bytes).expect("payload is framable");
    assert!(decode(&bytes).unwrap_err().is_corrupt());
}
