use hadar::wal::frame::{decode, encode, HEADER_LEN, MAX_PAYLOAD_LEN};

fn framed(payload: &[u8]) -> Vec<u8> {
    let mut out = Vec::new();
    encode(payload, &mut out).expect("payload is within the frame limit");
    out
}

#[test]
fn a_frame_round_trips() {
    let bytes = framed(b"payload");
    let (payload, width) = decode(&bytes).expect("frame decodes");

    assert_eq!(payload, b"payload");
    assert_eq!(width, bytes.len());
}

#[test]
fn an_empty_payload_is_a_valid_frame() {
    let bytes = framed(b"");
    let (payload, width) = decode(&bytes).expect("frame decodes");

    assert!(payload.is_empty());
    assert_eq!(width, HEADER_LEN);
}

#[test]
fn frames_decode_back_to_back() {
    let mut log = framed(b"first");
    log.extend_from_slice(&framed(b"second"));

    let (first, width) = decode(&log).expect("first frame decodes");
    assert_eq!(first, b"first");
    let (second, _) = decode(&log[width..]).expect("second frame decodes");
    assert_eq!(second, b"second");
}

#[test]
fn a_frame_cut_short_reads_as_truncated() {
    let bytes = framed(b"payload");

    // Every prefix is a write that was interrupted partway, which is what
    // a kill mid-append leaves behind.
    for cut in 0..bytes.len() {
        let error = decode(&bytes[..cut]).expect_err("a partial frame cannot decode");
        assert!(
            error.is_truncated(),
            "a {cut}-byte prefix reported {} rather than truncation",
            error.message()
        );
    }
}

#[test]
fn a_corrupted_payload_fails_its_checksum() {
    let mut bytes = framed(b"payload");
    let last = bytes.len() - 1;
    bytes[last] ^= 0xff;

    let error = decode(&bytes).expect_err("a damaged payload cannot decode");
    assert!(
        error.is_corrupt(),
        "reported {} rather than corruption",
        error.message()
    );
}

#[test]
fn a_corrupted_length_is_caught_by_the_checksum() {
    let mut bytes = framed(b"payload");
    // Shrink the claimed length so the frame still fits in the buffer: the
    // read would otherwise succeed and reframe everything after it.
    bytes[7] -= 1;

    let error = decode(&bytes).expect_err("a damaged length cannot decode");
    assert!(
        error.is_corrupt(),
        "reported {} rather than corruption",
        error.message()
    );
}

#[test]
fn an_implausible_length_is_rejected_before_allocating() {
    let mut bytes = framed(b"payload");
    bytes[4..8].copy_from_slice(&u32::MAX.to_be_bytes());

    let error = decode(&bytes).expect_err("an implausible length cannot decode");
    assert!(
        error.is_corrupt(),
        "reported {} rather than corruption",
        error.message()
    );
}

#[test]
fn a_frame_is_checksum_then_length_then_payload() {
    let bytes = framed(b"abc");
    assert_eq!(bytes.len(), HEADER_LEN + 3);
    assert_eq!(&bytes[4..8], &[0, 0, 0, 3]);
    assert_eq!(&bytes[8..], b"abc");
    let mut covered = vec![0, 0, 0, 3];
    covered.extend_from_slice(b"abc");
    assert_eq!(&bytes[..4], &crc32fast::hash(&covered).to_be_bytes());
}

#[test]
fn an_oversized_payload_is_refused_and_nothing_is_written() {
    let payload = vec![0u8; MAX_PAYLOAD_LEN + 1];
    let mut out = vec![7u8];
    let error = encode(&payload, &mut out).expect_err("an oversized payload cannot be framed");
    assert!(error.is_corrupt());
    assert_eq!(out, vec![7u8]);
}

/// The checksum exactly as the library's specification of it reads: the
/// register starts at all ones, takes each byte in low bit first, shifting
/// right and folding the reflected polynomial back in on each set bit that
/// falls out, and is inverted at the end.
fn checksum_as_specified(data: &[u8]) -> u32 {
    let mut register: u32 = 0xFFFF_FFFF;
    for &byte in data {
        register ^= u32::from(byte);
        for _ in 0..8 {
            register = if register & 1 == 1 {
                (register >> 1) ^ hadar::wal::frame::CRC32_POLY
            } else {
                register >> 1
            };
        }
    }
    register ^ 0xFFFF_FFFF
}

#[test]
fn the_specified_checksum_is_what_the_checksum_crate_computes() {
    assert_eq!(checksum_as_specified(b"123456789"), 0xCBF4_3926);
    assert_eq!(crc32fast::hash(b"123456789"), 0xCBF4_3926);
    let mut data: Vec<u8> = Vec::new();
    for n in 0..600u32 {
        assert_eq!(checksum_as_specified(&data), crc32fast::hash(&data));
        data.push((n.wrapping_mul(131) ^ (n >> 3)) as u8);
    }
}

#[test]
fn a_frame_carries_the_checksum_of_its_length_and_payload() {
    let bytes = framed(b"abc");
    let stored = u32::from_be_bytes([bytes[0], bytes[1], bytes[2], bytes[3]]);
    assert_eq!(stored, checksum_as_specified(&bytes[4..]));
}
