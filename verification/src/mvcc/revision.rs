use vstd::prelude::*;

use crate::bytes::{append_bytes, be_decode, be_encode, be_seq, be_value, lex_lt, pow256};

verus! {

/// Largest value either half of a revision may take: the wire carries
/// revisions as signed 64-bit integers.
pub const WIRE_MAX: u64 = 0x7fff_ffff_ffff_ffff;

/// Width of an encoded revision.
/// Two big-endian `u64`s and a `_` separator.
pub const ENCODED_LEN: usize = 17;

/// Separates the two halves of an encoded revision.
pub const SEPARATOR: u8 = 0x5f;

/// A point in the store's history.
///
/// A revision is a pair.
/// `main` advances once per write and is what clients see as `mod_revision`.
/// `sub` distinguishes the individual keys written within one transaction,
/// which share a `main` but must occupy distinct backend keys.
///
/// Revisions order by `main` then `sub`, which is the order writes were
/// applied, and their byte encoding preserves that order exactly.
#[derive(Debug, Clone, Copy, PartialEq, Eq, PartialOrd, Ord, Hash)]
pub struct Revision {
    main: u64,
    sub: u64,
}

/// Whether `(main, sub)` is a pair the wire format can carry.
pub open spec fn wire_valid(main: u64, sub: u64) -> bool {
    main <= WIRE_MAX && sub <= WIRE_MAX
}

/// The order revisions take: by `main`, then by `sub`.
pub open spec fn rev_lt(a: (u64, u64), b: (u64, u64)) -> bool {
    a.0 < b.0 || (a.0 == b.0 && a.1 < b.1)
}

/// Non-strict form of [`rev_lt`].
pub open spec fn rev_le(a: (u64, u64), b: (u64, u64)) -> bool {
    a == b || rev_lt(a, b)
}

/// The bytes a revision `(main, sub)` is stored as.
pub open spec fn encoding(r: (u64, u64)) -> Seq<u8> {
    be_seq(r.0 as nat, 8) + seq![SEPARATOR] + be_seq(r.1 as nat, 8)
}

/// The revision `bytes` encode, or `None` when no valid revision encodes as `bytes`.
pub open spec fn decoding(bytes: Seq<u8>) -> Option<(u64, u64)> {
    if bytes.len() != ENCODED_LEN || bytes[8] != SEPARATOR {
        None
    } else {
        let main = be_value(bytes.subrange(0, 8));
        let sub = be_value(bytes.subrange(9, 17));
        if main <= WIRE_MAX && sub <= WIRE_MAX {
            Some((main as u64, sub as u64))
        } else {
            None
        }
    }
}

impl View for Revision {
    type V = (u64, u64);

    closed spec fn view(&self) -> (u64, u64) {
        (self.main, self.sub)
    }
}

impl Revision {
    #[verifier::type_invariant]
    spec fn fits_the_wire(&self) -> bool {
        wire_valid(self.main, self.sub)
    }

    /// Creates a revision, rejecting values the wire format cannot carry.
    ///
    /// A `main` above [`i64::MAX`] could not round-trip to a client
    /// and is refused here rather than silently truncating at the API boundary.
    pub fn new(main: u64, sub: u64) -> (r: Option<Self>)
        ensures
            r is Some <==> wire_valid(main, sub),
            r matches Some(rev) ==> rev@ == (main, sub),
    {
        if main > WIRE_MAX || sub > WIRE_MAX {
            return None;
        }
        Some(Self { main, sub })
    }

    /// The revision of an empty store, before any write has happened.
    ///
    /// No record is ever written at this revision.
    /// It exists so that the first write lands at main 1.
    pub fn zero() -> (r: Self)
        ensures
            r@ == (0u64, 0u64),
    {
        Self { main: 0, sub: 0 }
    }

    /// Returns the transaction revision, which clients see as `mod_revision`.
    pub fn main(self) -> (m: u64)
        ensures
            m == self@.0,
            m <= WIRE_MAX,
    {
        proof {
            use_type_invariant(&self);
        }
        self.main
    }

    /// Returns the position of this write within its transaction.
    pub fn sub(self) -> (s: u64)
        ensures
            s == self@.1,
            s <= WIRE_MAX,
    {
        proof {
            use_type_invariant(&self);
        }
        self.sub
    }

    /// Returns the first revision of the transaction after this one.
    ///
    /// A `main` at [`WIRE_MAX`] indicates a corrupt counter rather than
    /// genuine exhaustion, and is not accepted.
    pub fn next_main(self) -> (r: Self)
        requires
            self@.0 < WIRE_MAX,
        ensures
            r@ == ((self@.0 + 1) as u64, 0u64),
    {
        Self { main: self.main + 1, sub: 0 }
    }

    /// Returns the next revision within the same transaction.
    ///
    /// A `sub` at [`WIRE_MAX`] would mean a single transaction wrote more
    /// keys than the wire format can describe, and is not accepted.
    pub fn next_sub(self) -> (r: Self)
        requires
            self@.1 < WIRE_MAX,
        ensures
            r@ == (self@.0, (self@.1 + 1) as u64),
    {
        proof {
            use_type_invariant(&self);
        }
        Self { main: self.main, sub: self.sub + 1 }
    }

    /// Whether this revision precedes `other`.
    pub fn precedes(self, other: Self) -> (r: bool)
        ensures
            r == rev_lt(self@, other@),
    {
        self.main < other.main || (self.main == other.main && self.sub < other.sub)
    }

    /// Encodes the revision such that byte order matches revision order.
    pub fn encode(self) -> (out: Vec<u8>)
        ensures
            out@ == encoding(self@),
            out@.len() == ENCODED_LEN,
            wire_valid(self@.0, self@.1),
    {
        proof {
            use_type_invariant(&self);
            crate::bytes::lemma_pow256_small();
        }
        let mut out = be_encode(self.main, 8);
        out.push(SEPARATOR);
        let low = be_encode(self.sub, 8);
        append_bytes(&mut out, low.as_slice());
        out
    }

    /// Decodes a revision previously written by [`encode`](Self::encode).
    ///
    /// Returns `None` for any input that this encoding could not have produced,
    /// so a corrupt or foreign backend key is rejected rather than silently misread.
    pub fn decode(bytes: &[u8]) -> (r: Option<Self>)
        ensures
            match r {
                Some(rev) => decoding(bytes@) == Some(rev@),
                None => decoding(bytes@) is None,
            },
    {
        if bytes.len() != ENCODED_LEN || bytes[8] != SEPARATOR {
            return None;
        }
        let high = &bytes[0..8];
        let low = &bytes[9..17];
        assert(high@ == bytes@.subrange(0, 8));
        assert(low@ == bytes@.subrange(9, 17));
        let main = be_decode(high);
        let sub = be_decode(low);
        Self::new(main, sub)
    }

    /// Returns the transaction revision in the wire's signed representation.
    ///
    /// Total by construction: [`new`](Self::new) refuses anything above
    /// [`i64::MAX`], which is what makes this conversion lossless.
    pub fn as_wire(self) -> (w: i64)
        ensures
            w == self@.0,
    {
        proof {
            use_type_invariant(&self);
        }
        self.main as i64
    }
}

/// Decoding the encoding of a revision gives the revision back.
pub proof fn lemma_decode_encode(r: (u64, u64))
    requires
        wire_valid(r.0, r.1),
    ensures
        decoding(encoding(r)) == Some(r),
{
    let e = encoding(r);
    crate::bytes::lemma_pow256_small();
    crate::bytes::lemma_be_roundtrip(r.0 as nat, 8);
    crate::bytes::lemma_be_roundtrip(r.1 as nat, 8);
    assert(e.subrange(0, 8) =~= be_seq(r.0 as nat, 8));
    assert(e.subrange(9, 17) =~= be_seq(r.1 as nat, 8));
}

/// Only encodings decode: bytes that decode to a revision are its encoding.
pub proof fn lemma_encode_decode(bytes: Seq<u8>)
    requires
        decoding(bytes) is Some,
    ensures
        encoding(decoding(bytes)->0) == bytes,
{
    let r = decoding(bytes)->0;
    crate::bytes::lemma_be_seq_of_value(bytes.subrange(0, 8));
    crate::bytes::lemma_be_seq_of_value(bytes.subrange(9, 17));
    assert(encoding(r) =~= bytes);
}

/// Byte order of encodings matches revision order.
pub proof fn lemma_encoding_order(a: (u64, u64), b: (u64, u64))
    ensures
        lex_lt(encoding(a), encoding(b)) <==> rev_lt(a, b),
{
    crate::bytes::lemma_pow256_small();
    let ha = be_seq(a.0 as nat, 8);
    let hb = be_seq(b.0 as nat, 8);
    let la = be_seq(a.1 as nat, 8);
    let lb = be_seq(b.1 as nat, 8);
    crate::bytes::lemma_be_order(a.0 as nat, b.0 as nat, 8);
    crate::bytes::lemma_be_order(a.1 as nat, b.1 as nat, 8);
    crate::bytes::lemma_be_seq_injective(a.0 as nat, b.0 as nat, 8);
    if a.0 == b.0 {
        assert(encoding(a) =~= ha + (seq![SEPARATOR] + la));
        assert(encoding(b) =~= ha + (seq![SEPARATOR] + lb));
        crate::bytes::lemma_lex_lt_common_prefix(ha, seq![SEPARATOR] + la, seq![SEPARATOR] + lb);
        crate::bytes::lemma_lex_lt_common_prefix(seq![SEPARATOR], la, lb);
    } else {
        lemma_lex_lt_equal_length_prefix(ha, hb, seq![SEPARATOR] + la, seq![SEPARATOR] + lb);
        assert(encoding(a) =~= ha + (seq![SEPARATOR] + la));
        assert(encoding(b) =~= hb + (seq![SEPARATOR] + lb));
    }
}

/// Two distinct strings of one length decide the order of anything appended to them.
pub proof fn lemma_lex_lt_equal_length_prefix(p: Seq<u8>, q: Seq<u8>, a: Seq<u8>, b: Seq<u8>)
    requires
        p.len() == q.len(),
        p != q,
    ensures
        lex_lt(p + a, q + b) <==> lex_lt(p, q),
    decreases p.len(),
{
    if p.len() == 0 {
        assert(p =~= q);
    } else {
        assert((p + a).drop_first() =~= p.drop_first() + a);
        assert((q + b).drop_first() =~= q.drop_first() + b);
        assert((p + a)[0] == p[0]);
        assert((q + b)[0] == q[0]);
        if p[0] == q[0] {
            if p.drop_first() == q.drop_first() {
                assert(p =~= q) by {
                    assert forall|i: int| 0 <= i < p.len() implies p[i] == q[i] by {
                        if i > 0 {
                            assert(p[i] == p.drop_first()[i - 1]);
                            assert(q[i] == q.drop_first()[i - 1]);
                        }
                    }
                }
            }
            lemma_lex_lt_equal_length_prefix(p.drop_first(), q.drop_first(), a, b);
        }
    }
}

} // verus!
