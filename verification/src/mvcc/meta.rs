use vstd::prelude::*;

use crate::bytes::{append_bytes, be_decode, be_encode, be_seq, be_value};
use crate::mvcc::revision::{decoding, encoding, wire_valid, Revision};

verus! {

/// Distinguishes store metadata from the revision records.
pub const METADATA_PREFIX: u8 = 0x00;

/// Identifies the durable marker recording how far the log has been applied.
pub const APPLIED: u8 = 0x01;

/// Identifies the durable marker recording how far the store has been compacted.
pub const COMPACTED: u8 = 0x02;

/// Width of a stored compaction marker: the watermark, then a revision.
pub const COMPACTION_LEN: usize = 25;

/// The backend key holding the applied-position marker.
pub open spec fn applied_key_bytes() -> Seq<u8> {
    seq![METADATA_PREFIX, APPLIED]
}

/// The backend key holding the applied-position marker.
pub fn applied_key() -> (k: Vec<u8>)
    ensures
        k@ == applied_key_bytes(),
{
    let mut k: Vec<u8> = Vec::new();
    k.push(METADATA_PREFIX);
    k.push(APPLIED);
    assert(k@ =~= applied_key_bytes());
    k
}

/// The bytes an applied position is stored as.
pub open spec fn position_bytes(position: u64) -> Seq<u8> {
    be_seq(position as nat, 8)
}

/// The position `bytes` store, when they are eight bytes long.
pub open spec fn position_of(bytes: Seq<u8>) -> Option<u64> {
    if bytes.len() == 8 {
        Some(be_value(bytes) as u64)
    } else {
        None
    }
}

/// Encodes an applied position for storage.
pub fn encode_position(position: u64) -> (out: Vec<u8>)
    ensures
        out@ == position_bytes(position),
        out@.len() == 8,
{
    proof {
        crate::bytes::lemma_pow256_small();
    }
    be_encode(position, 8)
}

/// Decodes an applied position, rejecting anything
/// the encoder could not have produced.
pub fn decode_position(bytes: &[u8]) -> (r: Option<u64>)
    ensures
        r == position_of(bytes@),
{
    if bytes.len() != 8 {
        return None;
    }
    Some(be_decode(bytes))
}

/// A stored position reads back as the position that was stored.
pub proof fn lemma_position_roundtrip(position: u64)
    ensures
        position_of(position_bytes(position)) == Some(position),
{
    crate::bytes::lemma_pow256_small();
    crate::bytes::lemma_be_roundtrip(position as nat, 8);
}

/// The backend key holding the compaction marker.
pub open spec fn compacted_key_bytes() -> Seq<u8> {
    seq![METADATA_PREFIX, COMPACTED]
}

/// The backend key holding the compaction marker.
pub fn compacted_key() -> (k: Vec<u8>)
    ensures
        k@ == compacted_key_bytes(),
{
    let mut k: Vec<u8> = Vec::new();
    k.push(METADATA_PREFIX);
    k.push(COMPACTED);
    assert(k@ =~= compacted_key_bytes());
    k
}

/// The bytes a compaction marker is stored as: the watermark, then the
/// revision that was current when the store compacted.
pub open spec fn compaction_bytes(watermark: u64, current: (u64, u64)) -> Seq<u8> {
    be_seq(watermark as nat, 8) + encoding(current)
}

/// The watermark and revision a compaction marker stores, when `bytes` are
/// one: a watermark not ahead of a revision the wire can carry.
pub open spec fn compaction_of(bytes: Seq<u8>) -> Option<(u64, (u64, u64))> {
    if bytes.len() != COMPACTION_LEN {
        None
    } else {
        let watermark = be_value(bytes.subrange(0, 8));
        match decoding(bytes.subrange(8, COMPACTION_LEN as int)) {
            Some(current) => if watermark <= current.0 {
                Some((watermark as u64, current))
            } else {
                None
            },
            None => None,
        }
    }
}

/// Encodes a compaction marker for storage.
pub fn encode_compaction(watermark: u64, current: Revision) -> (out: Vec<u8>)
    ensures
        out@ == compaction_bytes(watermark, current@),
        wire_valid(current@.0, current@.1),
{
    proof {
        crate::bytes::lemma_pow256_small();
    }
    let mut out = be_encode(watermark, 8);
    let rev = current.encode();
    append_bytes(&mut out, rev.as_slice());
    out
}

/// Decodes a compaction marker, rejecting anything the encoder could not
/// have produced for a watermark not ahead of its revision.
pub fn decode_compaction(bytes: &[u8]) -> (r: Option<(u64, Revision)>)
    ensures
        match r {
            Some((w, c)) => compaction_of(bytes@) == Some((w, c@)),
            None => compaction_of(bytes@) is None,
        },
{
    if bytes.len() != COMPACTION_LEN {
        return None;
    }
    let high = &bytes[0..8];
    let rest = &bytes[8..25];
    assert(high@ == bytes@.subrange(0, 8));
    assert(rest@ == bytes@.subrange(8, COMPACTION_LEN as int));
    let watermark = be_decode(high);
    match Revision::decode(rest) {
        Some(current) => if watermark <= current.main() {
            Some((watermark, current))
        } else {
            None
        },
        None => None,
    }
}

/// A stored compaction marker reads back as the watermark and revision stored.
pub proof fn lemma_compaction_roundtrip(watermark: u64, current: (u64, u64))
    requires
        wire_valid(current.0, current.1),
        watermark <= current.0,
    ensures
        compaction_of(compaction_bytes(watermark, current)) == Some((watermark, current)),
{
    let b = compaction_bytes(watermark, current);
    crate::bytes::lemma_pow256_small();
    crate::bytes::lemma_be_roundtrip(watermark as nat, 8);
    crate::mvcc::revision::lemma_decode_encode(current);
    assert(b.subrange(0, 8) =~= be_seq(watermark as nat, 8));
    assert(b.subrange(8, COMPACTION_LEN as int) =~= encoding(current));
}

} // verus!
