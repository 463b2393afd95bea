//! Framing of log records: a CRC32 checksum and a big-endian length, both
//! four bytes, then the payload.
use vstd::prelude::*;

use crate::bytes::{append_bytes, be_decode, be_encode, be_seq, be_value, lemma_be_roundtrip, lemma_pow256_small};
use crate::wal::error::{Error, ErrorKind};

verus! {

/// Bytes of framing that precede every payload.
pub const HEADER_LEN: usize = 8;

/// Largest payload a single frame may carry: 64 MiB, far above any plausible
/// single mutation and below a size that would threaten a server's memory.
pub const MAX_PAYLOAD_LEN: usize = 67108864;

/// The reflected generator polynomial of the IEEE CRC-32.
pub const CRC32_POLY: u32 = 0xEDB8_8320;

/// One bit of the CRC-32 register update: shift right, and fold the
/// polynomial back in when a set bit falls out.
pub open spec fn crc_step(c: u32) -> u32 {
    if c & 1 == 1 {
        (c >> 1u32) ^ CRC32_POLY
    } else {
        c >> 1u32
    }
}

/// `k` bits of the register update.
pub open spec fn crc_steps(c: u32, k: nat) -> u32
    decreases k,
{
    if k == 0 {
        c
    } else {
        crc_step(crc_steps(c, (k - 1) as nat))
    }
}

/// The CRC-32 register after `data`, starting from all ones and taking
/// each byte in, low bit first.
pub open spec fn crc_register(data: Seq<u8>) -> u32
    decreases data.len(),
{
    if data.len() == 0 {
        0xFFFF_FFFFu32
    } else {
        crc_steps(crc_register(data.drop_last()) ^ (data.last() as u32), 8)
    }
}

/// The IEEE CRC-32 checksum of `data`: the final register, inverted.
pub open spec fn crc32_of(data: Seq<u8>) -> u32 {
    crc_register(data) ^ 0xFFFF_FFFFu32
}

/// Computes the CRC-32 checksum of `data` with `crc32fast::hash`, which the
/// crate documents as the IEEE CRC-32.
#[verifier::external_body]
fn crc32(data: &[u8]) -> (c: u32)
    ensures
        c == crc32_of(data@),
{
    crc32fast::hash(data)
}

/// The checksum a frame carries: over the four length bytes, then the payload.
pub open spec fn frame_checksum(len: Seq<u8>, payload: Seq<u8>) -> Seq<u8> {
    be_seq(crc32_of(len + payload) as nat, 4)
}

/// The framed form of `payload`.
pub open spec fn frame_bytes(payload: Seq<u8>) -> Seq<u8> {
    let len = be_seq(payload.len(), 4);
    frame_checksum(len, payload) + len + payload
}

/// What reading a frame at the start of `bytes` gives: its payload and
/// width, or the kind of failure.
///
/// Bytes that end before the header or before the payload it announces are
/// truncated; a length above [`MAX_PAYLOAD_LEN`] or a checksum that
/// disagrees is corruption.
pub open spec fn frame_decoding(bytes: Seq<u8>) -> Result<(Seq<u8>, nat), ErrorKind> {
    if bytes.len() < HEADER_LEN {
        Err(ErrorKind::Truncated)
    } else {
        let len = be_value(bytes.subrange(4, 8));
        if len > MAX_PAYLOAD_LEN {
            Err(ErrorKind::Corrupt)
        } else if bytes.len() < HEADER_LEN + len {
            Err(ErrorKind::Truncated)
        } else {
            let payload = bytes.subrange(8, 8 + len as int);
            if frame_checksum(bytes.subrange(4, 8), payload) != bytes.subrange(0, 4) {
                Err(ErrorKind::Corrupt)
            } else {
                Ok((payload, (HEADER_LEN + len) as nat))
            }
        }
    }
}

/// Appends `payload` to `out` as a framed record.
///
/// A payload above [`MAX_PAYLOAD_LEN`] is refused as corrupt, and nothing is
/// appended.
pub fn encode(payload: &[u8], out: &mut Vec<u8>) -> (r: Result<(), Error>)
    ensures
        payload@.len() <= MAX_PAYLOAD_LEN ==> r is Ok && final(out)@ == old(out)@ + frame_bytes(payload@),
        payload@.len() > MAX_PAYLOAD_LEN ==> (r matches Err(e) && e.kind_of() == ErrorKind::Corrupt),
        payload@.len() > MAX_PAYLOAD_LEN ==> final(out)@ == old(out)@,
{
    if payload.len() > MAX_PAYLOAD_LEN {
        return Err(Error::corrupt("payload exceeds the maximum frame length"));
    }
    proof {
        lemma_pow256_small();
    }
    let len = be_encode(payload.len() as u64, 4);
    let mut covered: Vec<u8> = Vec::new();
    append_bytes(&mut covered, len.as_slice());
    append_bytes(&mut covered, payload);
    let sum = be_encode(crc32(covered.as_slice()) as u64, 4);
    proof {
        assert(covered@ =~= len@ + payload@);
    }
    append_bytes(out, sum.as_slice());
    append_bytes(out, len.as_slice());
    append_bytes(out, payload);
    proof {
        assert(final(out)@ =~= old(out)@ + frame_bytes(payload@));
    }
    Ok(())
}

/// Reads the frame at the start of `bytes`, returning its payload and width.
///
/// The width is what a caller advances by to reach the next frame.
pub fn decode(bytes: &[u8]) -> (r: Result<(&[u8], usize), Error>)
    ensures
        match frame_decoding(bytes@) {
            Ok((payload, width)) => r matches Ok((p, w)) && p@ == payload && w == width,
            Err(kind) => r matches Err(e) && e.kind_of() == kind,
        },
        r matches Ok((p, w)) ==> {
            &&& HEADER_LEN <= w <= bytes@.len()
            &&& p@ == bytes@.subrange(8, w as int)
            &&& bytes@.subrange(0, 4) == be_seq(crc32_of(bytes@.subrange(4, w as int)) as nat, 4)
        },
{
    proof {
        lemma_decoded_frame_checks_out(bytes@);
    }
    if bytes.len() < HEADER_LEN {
        return Err(Error::truncated());
    }
    let stated = slice_subrange(bytes, 4, 8);
    let len = be_decode(stated);
    if len > MAX_PAYLOAD_LEN as u64 {
        return Err(Error::corrupt("frame claims an implausible length"));
    }
    let len = len as usize;
    if bytes.len() - HEADER_LEN < len {
        return Err(Error::truncated());
    }
    let payload = slice_subrange(bytes, 8, 8 + len);
    let mut covered: Vec<u8> = Vec::new();
    append_bytes(&mut covered, stated);
    append_bytes(&mut covered, payload);
    proof {
        lemma_pow256_small();
        assert(covered@ =~= bytes@.subrange(4, 8) + payload@);
    }
    let sum = be_encode(crc32(covered.as_slice()) as u64, 4);
    assert(sum@ == frame_checksum(bytes@.subrange(4, 8), payload@));
    assert(payload@ == bytes@.subrange(8, 8 + be_value(bytes@.subrange(4, 8)) as int));
    let mut i: usize = 0;
    while i < 4
        invariant
            i <= 4,
            bytes@.len() >= 8,
            sum@.len() == 4,
            forall|j: int| 0 <= j < i ==> sum@[j] == bytes@[j],
            sum@ == frame_checksum(bytes@.subrange(4, 8), payload@),
            payload@ == bytes@.subrange(8, 8 + be_value(bytes@.subrange(4, 8)) as int),
            be_value(bytes@.subrange(4, 8)) <= MAX_PAYLOAD_LEN,
            bytes@.len() >= HEADER_LEN + be_value(bytes@.subrange(4, 8)),
        decreases 4 - i,
    {
        if sum[i] != bytes[i] {
            proof {
                assert(sum@ != bytes@.subrange(0, 4)) by {
                    assert(sum@[i as int] != bytes@.subrange(0, 4)[i as int]);
                }
            }
            return Err(Error::corrupt("frame checksum does not match its contents"));
        }
        i = i + 1;
    }
    proof {
        assert(sum@ =~= bytes@.subrange(0, 4));
    }
    Ok((payload, HEADER_LEN + len))
}

/// The bytes of `s` from `start` up to `end`.
fn slice_subrange(s: &[u8], start: usize, end: usize) -> (r: &[u8])
    requires
        start <= end <= s@.len(),
    ensures
        r@ == s@.subrange(start as int, end as int),
{
    vstd::slice::slice_subrange(s, start, end)
}

/// A framed payload reads back as itself, whatever follows it.
pub proof fn lemma_frame_round_trip(payload: Seq<u8>, rest: Seq<u8>)
    requires
        payload.len() <= MAX_PAYLOAD_LEN,
    ensures
        frame_decoding(frame_bytes(payload) + rest) == Ok::<(Seq<u8>, nat), ErrorKind>(
            (payload, (HEADER_LEN + payload.len()) as nat),
        ),
{
    lemma_pow256_small();
    let len = be_seq(payload.len(), 4);
    let bytes = frame_bytes(payload) + rest;
    lemma_be_roundtrip(payload.len(), 4);
    assert(bytes.subrange(4, 8) =~= len);
    assert(bytes.subrange(8, 8 + payload.len() as int) =~= payload);
    assert(bytes.subrange(0, 4) =~= frame_checksum(len, payload));
}

/// Every proper prefix of a frame reads as truncated: what a write
/// interrupted partway leaves behind is never mistaken for damage.
pub proof fn lemma_frame_prefix_truncated(payload: Seq<u8>, cut: nat)
    requires
        payload.len() <= MAX_PAYLOAD_LEN,
        cut < frame_bytes(payload).len(),
    ensures
        frame_decoding(frame_bytes(payload).take(cut as int)) == Err::<(Seq<u8>, nat), ErrorKind>(
            ErrorKind::Truncated,
        ),
{
    lemma_pow256_small();
    let len = be_seq(payload.len(), 4);
    let bytes = frame_bytes(payload).take(cut as int);
    lemma_be_roundtrip(payload.len(), 4);
    if cut >= HEADER_LEN {
        assert(bytes.subrange(4, 8) =~= len);
    }
}

/// A frame reads back only when its first four bytes are the big-endian
/// CRC-32 of everything after them up to its end: the length and the payload.
/// The payload read is what follows the header, up to the width reported.
pub proof fn lemma_decoded_frame_checks_out(bytes: Seq<u8>)
    ensures
        frame_decoding(bytes) matches Ok((payload, width)) ==> {
            &&& HEADER_LEN <= width <= bytes.len()
            &&& payload == bytes.subrange(8, width as int)
            &&& bytes.subrange(0, 4) == be_seq(crc32_of(bytes.subrange(4, width as int)) as nat, 4)
        },
{
    if let Ok((payload, width)) = frame_decoding(bytes) {
        assert(bytes.subrange(4, width as int) =~= bytes.subrange(4, 8) + payload);
    }
}

/// A frame whose stored checksum is changed in any way, its length and
/// payload left as they were, reads as corrupt: in particular every flip of
/// a bit among the checksum's four bytes is caught.
pub proof fn lemma_damaged_checksum_caught(payload: Seq<u8>, sum: Seq<u8>, rest: Seq<u8>)
    requires
        payload.len() <= MAX_PAYLOAD_LEN,
        sum.len() == 4,
        sum != frame_bytes(payload).subrange(0, 4),
    ensures
        frame_decoding(sum + frame_bytes(payload).subrange(4, frame_bytes(payload).len() as int) + rest)
            == Err::<(Seq<u8>, nat), ErrorKind>(ErrorKind::Corrupt),
{
    lemma_pow256_small();
    let f = frame_bytes(payload);
    let len = be_seq(payload.len(), 4);
    let bytes = sum + f.subrange(4, f.len() as int) + rest;
    lemma_be_roundtrip(payload.len(), 4);
    assert(f.subrange(0, 4) =~= frame_checksum(len, payload));
    assert(bytes.subrange(4, 8) =~= len);
    assert(bytes.subrange(8, 8 + payload.len() as int) =~= payload);
    assert(bytes.subrange(0, 4) =~= sum);
}

/// One bit of the register update is linear, and loses nothing: it
/// distributes over exclusive or, and only the empty register maps to the
/// empty register.
proof fn lemma_step_linear(x: u32, y: u32)
    ensures
        crc_step(x) ^ crc_step(y) == crc_step(x ^ y),
        crc_step(x) == 0 ==> x == 0,
{
    assert((if x & 1 == 1 { (x >> 1u32) ^ 0xEDB8_8320u32 } else { x >> 1u32 }) ^ (if y & 1 == 1 {
        (y >> 1u32) ^ 0xEDB8_8320u32
    } else {
        y >> 1u32
    }) == (if (x ^ y) & 1 == 1 { ((x ^ y) >> 1u32) ^ 0xEDB8_8320u32 } else { (x ^ y) >> 1u32 })) by (bit_vector);
    assert((if x & 1 == 1 { (x >> 1u32) ^ 0xEDB8_8320u32 } else { x >> 1u32 }) == 0 ==> x == 0) by (bit_vector);
}

/// Any number of bits of the register update is linear and loses nothing.
proof fn lemma_steps_linear(x: u32, y: u32, k: nat)
    ensures
        crc_steps(x, k) ^ crc_steps(y, k) == crc_steps(x ^ y, k),
        crc_steps(x, k) == 0 ==> x == 0,
    decreases k,
{
    if k > 0 {
        lemma_steps_linear(x, y, (k - 1) as nat);
        lemma_step_linear(crc_steps(x, (k - 1) as nat), crc_steps(y, (k - 1) as nat));
    }
}

/// Two byte strings of one length that differ in exactly one byte leave
/// different registers once that byte has been taken in.
proof fn lemma_register_tells_apart(a: Seq<u8>, b: Seq<u8>, i: int, n: int)
    requires
        a.len() == b.len(),
        0 <= i < n <= a.len(),
        a[i] != b[i],
        forall|j: int| 0 <= j < a.len() && j != i ==> a[j] == b[j],
    ensures
        crc_register(a.take(n)) != crc_register(b.take(n)),
    decreases n,
{
    let an = a.take(n);
    let bn = b.take(n);
    assert(an.drop_last() =~= a.take(n - 1));
    assert(bn.drop_last() =~= b.take(n - 1));
    let x = crc_register(a.take(n - 1)) ^ (a[n - 1] as u32);
    let y = crc_register(b.take(n - 1)) ^ (b[n - 1] as u32);
    assert(crc_register(an) == crc_steps(x, 8));
    assert(crc_register(bn) == crc_steps(y, 8));
    if n - 1 == i {
        assert(a.take(i) =~= b.take(i));
        let r = crc_register(a.take(i));
        let (p, q) = (a[i], b[i]);
        assert(p != q ==> (r ^ (p as u32)) ^ (r ^ (q as u32)) != 0) by (bit_vector);
    } else {
        lemma_register_tells_apart(a, b, i, n - 1);
        let ra = crc_register(a.take(n - 1));
        let rb = crc_register(b.take(n - 1));
        let c = a[n - 1];
        assert(b[n - 1] == c);
        assert(ra != rb ==> (ra ^ (c as u32)) ^ (rb ^ (c as u32)) != 0) by (bit_vector);
    }
    lemma_steps_linear(x, y, 8);
    lemma_steps_linear(x ^ y, 0, 8);
    assert(x ^ y != 0);
    assert((x ^ y) ^ 0u32 == x ^ y) by (bit_vector);
    let dx = crc_steps(x, 8);
    let dy = crc_steps(y, 8);
    assert(dx ^ dy != 0);
    assert(dx ^ dy != 0 ==> dx != dy) by (bit_vector);
}

/// The CRC-32 of two byte strings of one length that differ in exactly one
/// byte differ: changing any one byte, in particular flipping any one bit,
/// changes the checksum.
pub proof fn lemma_checksum_catches_one_byte(a: Seq<u8>, b: Seq<u8>, i: int)
    requires
        a.len() == b.len(),
        0 <= i < a.len(),
        a[i] != b[i],
        forall|j: int| 0 <= j < a.len() && j != i ==> a[j] == b[j],
    ensures
        crc32_of(a) != crc32_of(b),
{
    lemma_register_tells_apart(a, b, i, a.len() as int);
    assert(a.take(a.len() as int) =~= a);
    assert(b.take(b.len() as int) =~= b);
    let ra = crc_register(a);
    let rb = crc_register(b);
    assert(ra != rb ==> ra ^ 0xFFFF_FFFFu32 != rb ^ 0xFFFF_FFFFu32) by (bit_vector);
}

/// A frame with any one byte of its payload changed, its checksum and
/// length left as they were, reads as corrupt: in particular every flip of
/// a bit of the payload is caught.
pub proof fn lemma_damaged_payload_caught(payload: Seq<u8>, changed: Seq<u8>, i: int, rest: Seq<u8>)
    requires
        payload.len() <= MAX_PAYLOAD_LEN,
        changed.len() == payload.len(),
        0 <= i < payload.len(),
        payload[i] != changed[i],
        forall|j: int| 0 <= j < payload.len() && j != i ==> payload[j] == changed[j],
    ensures
        frame_decoding(frame_bytes(payload).subrange(0, 8) + changed + rest) == Err::<(Seq<u8>, nat), ErrorKind>(
            ErrorKind::Corrupt,
        ),
{
    lemma_pow256_small();
    let f = frame_bytes(payload);
    let len = be_seq(payload.len(), 4);
    let bytes = f.subrange(0, 8) + changed + rest;
    lemma_be_roundtrip(payload.len(), 4);
    assert(bytes.subrange(4, 8) =~= len);
    assert(bytes.subrange(8, 8 + payload.len() as int) =~= changed);
    assert(bytes.subrange(0, 4) =~= frame_checksum(len, payload));
    let a = len + payload;
    let b = len + changed;
    assert forall|j: int| 0 <= j < a.len() && j != i + 4 implies a[j] == b[j] by {
        if j >= 4 {
            assert(a[j] == payload[j - 4] && b[j] == changed[j - 4]);
        }
    }
    assert(a[i + 4] == payload[i] && b[i + 4] == changed[i]);
    lemma_checksum_catches_one_byte(a, b, i + 4);
    lemma_pow256_small();
    crate::bytes::lemma_be_seq_injective(crc32_of(a) as nat, crc32_of(b) as nat, 4);
}

/// A frame read on its own whose length field is changed to claim more
/// than it holds does not read back: it reads as truncated, or, claiming
/// an implausible length, as corrupt.
pub proof fn lemma_lengthened_frame_refused(payload: Seq<u8>, len: Seq<u8>)
    requires
        payload.len() <= MAX_PAYLOAD_LEN,
        len.len() == 4,
        be_value(len) > payload.len(),
    ensures
        frame_decoding(frame_bytes(payload).subrange(0, 4) + len + payload) is Err,
{
    let bytes = frame_bytes(payload).subrange(0, 4) + len + payload;
    assert(bytes.subrange(4, 8) =~= len);
}

} // verus!
