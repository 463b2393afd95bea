use vstd::prelude::*;

use crate::bytes::{append_bytes, be_decode, be_encode, be_seq, be_value, pow256};
use crate::mvcc::revision::{decoding, encoding, Revision, ENCODED_LEN};
use crate::storage_api::bounds::Bounds;

verus! {

/// Distinguishes the revision records from any other keyspace the store owns.
pub const REVISION_PREFIX: u8 = 0x74;

/// Marks a backend key as a deletion.
pub const TOMBSTONE: u8 = 0x01;

/// Largest key length the record length prefix can carry.
pub const MAX_KEY_LEN: u64 = 0xffff_ffff;

/// The backend key of the record written at revision `r`.
pub open spec fn record_key(r: (u64, u64), tombstone: bool) -> Seq<u8> {
    seq![REVISION_PREFIX] + encoding(r) + if tombstone {
        seq![TOMBSTONE]
    } else {
        Seq::<u8>::empty()
    }
}

/// The revision and deletion mark a backend key names, if it is one this
/// module writes.
pub open spec fn parsed_key(key: Seq<u8>) -> Option<((u64, u64), bool)> {
    if key.len() == 0 || key[0] != REVISION_PREFIX {
        None
    } else {
        let rest = key.drop_first();
        if rest.len() == ENCODED_LEN {
            match decoding(rest) {
                Some(r) => Some((r, false)),
                None => None,
            }
        } else if rest.len() == ENCODED_LEN + 1 && rest[ENCODED_LEN as int] == TOMBSTONE {
            match decoding(rest.subrange(0, ENCODED_LEN as int)) {
                Some(r) => Some((r, true)),
                None => None,
            }
        } else {
            None
        }
    }
}

/// The length a record's prefix states for a key of `len` bytes: the length
/// itself, saturated at what four bytes can hold.
pub open spec fn stated_len(len: nat) -> nat {
    if len > MAX_KEY_LEN {
        MAX_KEY_LEN as nat
    } else {
        len
    }
}

/// The stored form of a key and value: a four-byte big-endian key length,
/// the key, then the value.
pub open spec fn record_bytes(key: Seq<u8>, value: Seq<u8>) -> Seq<u8> {
    be_seq(stated_len(key.len()), 4) + key + value
}

/// The key and value a stored record holds, or `None` if it is truncated or
/// its length prefix overruns it.
pub open spec fn record_parts(bytes: Seq<u8>) -> Option<(Seq<u8>, Seq<u8>)> {
    if bytes.len() < 4 {
        None
    } else {
        let key_len = be_value(bytes.subrange(0, 4));
        let rest = bytes.subrange(4, bytes.len() as int);
        if key_len > rest.len() {
            None
        } else {
            Some((rest.subrange(0, key_len as int), rest.subrange(key_len as int, rest.len() as int)))
        }
    }
}

/// Builds the backend key holding the record written at `revision`.
pub fn backend_key(revision: Revision, tombstone: bool) -> (key: Vec<u8>)
    ensures
        key@ == record_key(revision@, tombstone),
{
    let mut key: Vec<u8> = Vec::new();
    key.push(REVISION_PREFIX);
    let encoded = revision.encode();
    append_bytes(&mut key, encoded.as_slice());
    if tombstone {
        key.push(TOMBSTONE);
    }
    assert(key@ =~= record_key(revision@, tombstone));
    key
}

/// Bounds covering every revision record.
pub fn all_records() -> (b: Bounds)
    ensures
        b@ == (crate::storage_api::bounds::BoundsView {
            start: crate::storage_api::bounds::BoundView::Included(seq![REVISION_PREFIX]),
            end: crate::storage_api::bounds::BoundView::Excluded(seq![0x75u8]),
        }),
{
    let p: [u8; 1] = [REVISION_PREFIX];
    let b = Bounds::prefix(p.as_slice());
    proof {
        let s = seq![REVISION_PREFIX];
        assert(p@ =~= s);
        assert(s.drop_last().push((s.last() + 1) as u8) =~= seq![0x75u8]);
    }
    b
}

/// Splits a backend key into its revision and whether it marks a deletion.
///
/// Returns `None` for anything this module did not write, so a foreign or
/// corrupt key is rejected rather than misread as a revision.
pub fn parse_key(key: &[u8]) -> (r: Option<(Revision, bool)>)
    ensures
        match r {
            Some((rev, tombstone)) => parsed_key(key@) == Some((rev@, tombstone)),
            None => parsed_key(key@) is None,
        },
{
    if key.len() == 0 || key[0] != REVISION_PREFIX {
        return None;
    }
    let rest = &key[1..key.len()];
    assert(rest@ =~= key@.drop_first());
    if rest.len() == ENCODED_LEN {
        match Revision::decode(rest) {
            Some(rev) => Some((rev, false)),
            None => None,
        }
    } else if rest.len() == ENCODED_LEN + 1 && rest[ENCODED_LEN] == TOMBSTONE {
        let encoded = &rest[0..ENCODED_LEN];
        match Revision::decode(encoded) {
            Some(rev) => Some((rev, true)),
            None => None,
        }
    } else {
        None
    }
}

/// Encodes the user key and value stored at a revision.
pub fn encode(key: &[u8], value: &[u8]) -> (out: Vec<u8>)
    ensures
        out@ == record_bytes(key@, value@),
{
    let key_len: u64 = if key.len() as u64 > MAX_KEY_LEN {
        MAX_KEY_LEN
    } else {
        key.len() as u64
    };
    proof {
        crate::bytes::lemma_pow256_small();
    }
    let mut out = be_encode(key_len, 4);
    append_bytes(&mut out, key);
    append_bytes(&mut out, value);
    out
}

/// Splits a stored record back into its key and value.
///
/// Returns `None` if the record is truncated or its
/// length prefix overruns the buffer.
pub fn decode(bytes: &[u8]) -> (r: Option<(&[u8], &[u8])>)
    ensures
        match r {
            Some((k, v)) => record_parts(bytes@) == Some((k@, v@)),
            None => record_parts(bytes@) is None,
        },
{
    if bytes.len() < 4 {
        return None;
    }
    let (len, rest) = bytes.split_at(4);
    let key_len = be_decode(len);
    if key_len > rest.len() as u64 {
        return None;
    }
    let (k, v) = rest.split_at(key_len as usize);
    Some((k, v))
}

/// A backend key reads back as the revision and mark it was built from.
pub proof fn lemma_parse_backend_key(r: (u64, u64), tombstone: bool)
    requires
        crate::mvcc::revision::wire_valid(r.0, r.1),
    ensures
        parsed_key(record_key(r, tombstone)) == Some((r, tombstone)),
{
    let key = record_key(r, tombstone);
    crate::mvcc::revision::lemma_decode_encode(r);
    assert(encoding(r).len() == ENCODED_LEN);
    if tombstone {
        assert(key.drop_first() =~= encoding(r) + seq![TOMBSTONE]);
        assert(key.drop_first().subrange(0, ENCODED_LEN as int) =~= encoding(r));
    } else {
        assert(key.drop_first() =~= encoding(r));
    }
}

/// A stored record reads back as the key and value it was built from, for
/// every key short enough for its length prefix.
pub proof fn lemma_record_roundtrip(key: Seq<u8>, value: Seq<u8>)
    requires
        key.len() <= MAX_KEY_LEN,
    ensures
        record_parts(record_bytes(key, value)) == Some((key, value)),
{
    let bytes = record_bytes(key, value);
    crate::bytes::lemma_pow256_small();
    crate::bytes::lemma_be_roundtrip(key.len(), 4);
    assert(bytes.subrange(0, 4) =~= be_seq(key.len(), 4));
    let rest = bytes.subrange(4, bytes.len() as int);
    assert(rest =~= key + value);
    assert(rest.subrange(0, key.len() as int) =~= key);
    assert(rest.subrange(key.len() as int, rest.len() as int) =~= value);
}

} // verus!

verus! {

/// Distinct revisions, or marks, sit under distinct backend keys.
pub proof fn lemma_record_key_injective(a: (u64, u64), ta: bool, b: (u64, u64), tb: bool)
    requires
        crate::mvcc::revision::wire_valid(a.0, a.1),
        crate::mvcc::revision::wire_valid(b.0, b.1),
        record_key(a, ta) == record_key(b, tb),
    ensures
        a == b,
        ta == tb,
{
    lemma_parse_backend_key(a, ta);
    lemma_parse_backend_key(b, tb);
}

} // verus!
