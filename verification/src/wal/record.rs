//! Log records: one framed mutation each.
//!
//! A record's payload is a version byte, a kind byte, the key's length as four
//! big-endian bytes, the key, and for a put the value.
use vstd::prelude::*;

use crate::bytes::{append_bytes, be_decode, be_encode, be_seq, be_value, copy_bytes, lemma_be_roundtrip, lemma_pow256_small};
use crate::mvcc::mutation::{Mutation, MutationView};
use crate::wal::error::{Error, ErrorKind};
use crate::wal::frame::{self, frame_bytes, frame_decoding, lemma_frame_prefix_truncated, lemma_frame_round_trip, MAX_PAYLOAD_LEN};

verus! {

/// Version of the record encoding, carried by every record.
pub const VERSION: u8 = 1;

/// Kind byte of a put.
pub const PUT: u8 = 1;

/// Kind byte of a deletion.
pub const DELETE: u8 = 2;

/// Largest key length the record format can carry.
pub const MAX_KEY_LEN: u64 = 0xffff_ffff;

/// The payload a mutation is recorded as.
pub open spec fn record_payload(m: MutationView) -> Seq<u8> {
    let (kind, value) = match m {
        MutationView::Put { value, .. } => (PUT, value),
        MutationView::Delete { .. } => (DELETE, Seq::<u8>::empty()),
    };
    seq![VERSION, kind] + be_seq(m.key().len(), 4) + m.key() + value
}

/// Whether a mutation fits the record format: a key length four bytes can
/// state, and a payload a frame can carry.
pub open spec fn encodable(m: MutationView) -> bool {
    m.key().len() <= MAX_KEY_LEN && record_payload(m).len() <= MAX_PAYLOAD_LEN
}

/// The framed record a mutation is written as.
pub open spec fn record_frame(m: MutationView) -> Seq<u8> {
    frame_bytes(record_payload(m))
}

/// The mutation a record payload holds, or `None` when no mutation is
/// recorded as `p`.
pub open spec fn payload_decoding(p: Seq<u8>) -> Option<MutationView> {
    if p.len() < 6 || p[0] != VERSION {
        None
    } else {
        let key_len = be_value(p.subrange(2, 6));
        if p.len() - 6 < key_len {
            None
        } else {
            let key = p.subrange(6, 6 + key_len as int);
            let value = p.subrange(6 + key_len as int, p.len() as int);
            if p[1] == PUT {
                Some(MutationView::Put { key, value })
            } else if p[1] == DELETE && value.len() == 0 {
                Some(MutationView::Delete { key })
            } else {
                None
            }
        }
    }
}

/// What reading a record at the start of `bytes` gives: its mutation and
/// width, or the kind of failure. A frame that reads but holds no mutation is
/// corruption.
pub open spec fn record_decoding(bytes: Seq<u8>) -> Result<(MutationView, nat), ErrorKind> {
    match frame_decoding(bytes) {
        Err(kind) => Err(kind),
        Ok((payload, width)) => match payload_decoding(payload) {
            Some(m) => Ok((m, width)),
            None => Err(ErrorKind::Corrupt),
        },
    }
}

/// Appends `mutation` to `out` as a framed log record.
///
/// A mutation that does not fit the format is refused as corrupt, and
/// nothing is appended.
pub fn encode(mutation: &Mutation, out: &mut Vec<u8>) -> (r: Result<(), Error>)
    ensures
        encodable(mutation@) ==> r is Ok && final(out)@ == old(out)@ + record_frame(mutation@),
        !encodable(mutation@) ==> (r matches Err(e) && e.kind_of() == ErrorKind::Corrupt),
        !encodable(mutation@) ==> final(out)@ == old(out)@,
{
    let (kind, value): (u8, &[u8]) = match mutation {
        Mutation::Put { value, .. } => (PUT, value.as_slice()),
        Mutation::Delete { .. } => (DELETE, &[]),
    };
    let key = mutation.key();
    if key.len() as u64 > MAX_KEY_LEN {
        return Err(Error::corrupt("key length exceeds the record format"));
    }
    proof {
        lemma_pow256_small();
    }
    let mut payload: Vec<u8> = Vec::new();
    payload.push(VERSION);
    payload.push(kind);
    let key_len = be_encode(key.len() as u64, 4);
    append_bytes(&mut payload, key_len.as_slice());
    append_bytes(&mut payload, key);
    append_bytes(&mut payload, value);
    proof {
        assert(payload@ =~= record_payload(mutation@));
    }
    frame::encode(payload.as_slice(), out)
}

/// Reads the record at the start of `bytes`, returning its mutation and
/// width.
pub fn decode(bytes: &[u8]) -> (r: Result<(Mutation, usize), Error>)
    ensures
        match record_decoding(bytes@) {
            Ok((m, width)) => r matches Ok((got, w)) && got@ == m && w == width,
            Err(kind) => r matches Err(e) && e.kind_of() == kind,
        },
{
    let (payload, width) = match frame::decode(bytes) {
        Ok(found) => found,
        Err(e) => return Err(e),
    };
    if payload.len() < 6 {
        return Err(Error::corrupt("record is too short to hold a key"));
    }
    if payload[0] != VERSION {
        return Err(Error::corrupt("record was written by an unknown version"));
    }
    let kind = payload[1];
    let stated = be_decode(vstd::slice::slice_subrange(payload, 2, 6));
    if ((payload.len() - 6) as u64) < stated {
        return Err(Error::corrupt("record key runs past its end"));
    }
    let key_len = stated as usize;
    let key = vstd::slice::slice_subrange(payload, 6, 6 + key_len);
    let value = vstd::slice::slice_subrange(payload, 6 + key_len, payload.len());
    if kind == PUT {
        Ok((Mutation::Put { key: copy_bytes(key), value: copy_bytes(value) }, width))
    } else if kind == DELETE {
        if value.len() == 0 {
            Ok((Mutation::Delete { key: copy_bytes(key) }, width))
        } else {
            Err(Error::corrupt("deletion record carries a value"))
        }
    } else {
        Err(Error::corrupt("record names an unknown kind"))
    }
}

/// A recorded mutation reads back as itself, whatever follows it.
pub proof fn lemma_record_round_trip(m: MutationView, rest: Seq<u8>)
    requires
        encodable(m),
    ensures
        record_decoding(record_frame(m) + rest) == Ok::<(MutationView, nat), ErrorKind>(
            (m, record_frame(m).len()),
        ),
{
    let p = record_payload(m);
    lemma_frame_round_trip(p, rest);
    lemma_pow256_small();
    lemma_be_roundtrip(m.key().len(), 4);
    assert(p.subrange(2, 6) =~= be_seq(m.key().len(), 4));
    let k = m.key().len() as int;
    assert(p.subrange(6, 6 + k) =~= m.key());
    match m {
        MutationView::Put { key, value } => {
            assert(p.subrange(6 + k, p.len() as int) =~= value);
        },
        MutationView::Delete { key } => {
            assert(p.subrange(6 + k, p.len() as int) =~= Seq::<u8>::empty());
        },
    }
}

/// Every proper prefix of a record reads as truncated.
pub proof fn lemma_record_prefix_truncated(m: MutationView, cut: nat)
    requires
        encodable(m),
        cut < record_frame(m).len(),
    ensures
        record_decoding(record_frame(m).take(cut as int)) == Err::<(MutationView, nat), ErrorKind>(
            ErrorKind::Truncated,
        ),
{
    lemma_frame_prefix_truncated(record_payload(m), cut);
}

/// Distinct mutations are recorded as distinct bytes: in particular a put of
/// an empty value is never mistaken for a deletion.
pub proof fn lemma_records_distinct(a: MutationView, b: MutationView)
    requires
        encodable(a),
        encodable(b),
        a != b,
    ensures
        record_frame(a) != record_frame(b),
{
    lemma_record_round_trip(a, Seq::empty());
    lemma_record_round_trip(b, Seq::empty());
    assert(record_frame(a) + Seq::<u8>::empty() =~= record_frame(a));
    assert(record_frame(b) + Seq::<u8>::empty() =~= record_frame(b));
}

} // verus!
