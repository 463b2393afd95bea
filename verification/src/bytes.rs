//! Byte-level building blocks shared by every on-disk and in-memory encoding:
//! big-endian integers and the unsigned lexicographic order on byte strings.
use vstd::prelude::*;

verus! {

/// `256` raised to `n`.
pub open spec fn pow256(n: nat) -> nat
    decreases n,
{
    if n == 0 {
        1
    } else {
        256 * pow256((n - 1) as nat)
    }
}

/// The `n`-byte big-endian encoding of `v` (most significant byte first).
pub open spec fn be_seq(v: nat, n: nat) -> Seq<u8> {
    Seq::new(n, |i: int| ((v / pow256((n - 1 - i) as nat)) % 256) as u8)
}

/// The unsigned integer a big-endian byte string denotes.
pub open spec fn be_value(s: Seq<u8>) -> nat
    decreases s.len(),
{
    if s.len() == 0 {
        0
    } else {
        be_value(s.drop_last()) * 256 + s.last() as nat
    }
}

/// Strict unsigned byte-wise lexicographic order, as `[u8]` compares in Rust:
/// a proper prefix sorts before every extension of it.
pub open spec fn lex_lt(a: Seq<u8>, b: Seq<u8>) -> bool
    decreases a.len(),
{
    if a.len() == 0 {
        b.len() > 0
    } else if b.len() == 0 {
        false
    } else if a[0] != b[0] {
        a[0] < b[0]
    } else {
        lex_lt(a.drop_first(), b.drop_first())
    }
}

/// Non-strict form of [`lex_lt`].
pub open spec fn lex_le(a: Seq<u8>, b: Seq<u8>) -> bool {
    a == b || lex_lt(a, b)
}

/// Powers of 256 are positive.
pub proof fn lemma_pow256_positive(n: nat)
    ensures
        pow256(n) > 0,
    decreases n,
{
    if n > 0 {
        lemma_pow256_positive((n - 1) as nat);
    }
}

/// Powers of 256 grow with the exponent.
pub proof fn lemma_pow256_monotone(a: nat, b: nat)
    requires
        a <= b,
    ensures
        pow256(a) <= pow256(b),
    decreases b,
{
    if a < b {
        lemma_pow256_monotone(a, (b - 1) as nat);
        lemma_pow256_positive((b - 1) as nat);
    }
}

/// The powers of 256 the fixed-width encodings use.
pub proof fn lemma_pow256_small()
    ensures
        pow256(1) == 0x100,
        pow256(2) == 0x1_0000,
        pow256(3) == 0x100_0000,
        pow256(4) == 0x1_0000_0000,
        pow256(7) == 0x100_0000_0000_0000,
        pow256(8) == 0x1_0000_0000_0000_0000,
{
    reveal_with_fuel(pow256, 9);
}

/// Dropping the last byte of an encoding divides the value by 256.
pub proof fn lemma_be_seq_drop_last(v: nat, n: nat)
    requires
        n > 0,
    ensures
        be_seq(v, n).drop_last() =~= be_seq(v / 256, (n - 1) as nat),
        be_seq(v, n).last() == (v % 256) as u8,
{
    let s = be_seq(v, n);
    let t = be_seq(v / 256, (n - 1) as nat);
    assert forall|i: int| 0 <= i < n - 1 implies s.drop_last()[i] == t[i] by {
        let q = pow256((n - 2 - i) as nat);
        lemma_pow256_positive((n - 2 - i) as nat);
        assert(pow256((n - 1 - i) as nat) == 256 * q);
        vstd::arithmetic::div_mod::lemma_div_denominator(v as int, 256, q as int);
    }
    assert(pow256(0) == 1);
    assert(s[n - 1] == ((v / pow256(0)) % 256) as u8);
    assert(v / 1 == v);
}

/// The value of a byte string is below `256^len`.
pub proof fn lemma_be_value_bound(s: Seq<u8>)
    ensures
        be_value(s) < pow256(s.len()),
    decreases s.len(),
{
    if s.len() > 0 {
        lemma_be_value_bound(s.drop_last());
        let p = pow256((s.len() - 1) as nat);
        assert(be_value(s.drop_last()) + 1 <= p);
        vstd::arithmetic::mul::lemma_mul_inequality((be_value(s.drop_last()) + 1) as int, p as int, 256);
    }
}

/// Decoding an encoding gives back the encoded value.
pub proof fn lemma_be_roundtrip(v: nat, n: nat)
    requires
        v < pow256(n),
    ensures
        be_value(be_seq(v, n)) == v,
    decreases n,
{
    if n == 0 {
        assert(pow256(0) == 1);
    } else {
        lemma_be_seq_drop_last(v, n);
        let p = pow256((n - 1) as nat);
        lemma_pow256_positive((n - 1) as nat);
        vstd::arithmetic::div_mod::lemma_multiply_divide_lt(v as int, 256, p as int);
        lemma_be_roundtrip(v / 256, (n - 1) as nat);
        vstd::arithmetic::div_mod::lemma_fundamental_div_mod(v as int, 256);
    }
}

/// Encoding the value of a byte string gives back the byte string.
pub proof fn lemma_be_seq_of_value(s: Seq<u8>)
    ensures
        be_seq(be_value(s), s.len()) =~= s,
    decreases s.len(),
{
    if s.len() > 0 {
        let v = be_value(s);
        let rest = s.drop_last();
        lemma_be_seq_of_value(rest);
        lemma_be_seq_drop_last(v, s.len());
        assert(v / 256 == be_value(rest)) by {
            vstd::arithmetic::div_mod::lemma_fundamental_div_mod_converse(
                v as int,
                256,
                be_value(rest) as int,
                s.last() as int,
            );
        }
        assert(v % 256 == s.last()) by {
            vstd::arithmetic::div_mod::lemma_fundamental_div_mod_converse(
                v as int,
                256,
                be_value(rest) as int,
                s.last() as int,
            );
        }
        let e = be_seq(v, s.len());
        assert forall|i: int| 0 <= i < s.len() implies e[i] == s[i] by {
            if i < s.len() - 1 {
                assert(e.drop_last()[i] == rest[i]);
            }
        }
    }
}

/// Equal-length encodings are equal exactly when the values are.
pub proof fn lemma_be_seq_injective(v: nat, w: nat, n: nat)
    requires
        v < pow256(n),
        w < pow256(n),
    ensures
        (be_seq(v, n) == be_seq(w, n)) <==> v == w,
{
    lemma_be_roundtrip(v, n);
    lemma_be_roundtrip(w, n);
}

/// Appending one byte to two equal-length strings compares the strings
/// first and the appended bytes only on a tie.
pub proof fn lemma_lex_lt_push(s: Seq<u8>, t: Seq<u8>, x: u8, y: u8)
    requires
        s.len() == t.len(),
    ensures
        lex_lt(s.push(x), t.push(y)) <==> (lex_lt(s, t) || (s == t && x < y)),
    decreases s.len(),
{
    if s.len() == 0 {
        assert(s.push(x).drop_first() =~= Seq::<u8>::empty());
        assert(t.push(y).drop_first() =~= Seq::<u8>::empty());
        assert(s =~= t);
        assert(s.push(x)[0] == x);
        assert(t.push(y)[0] == y);
        assert(!lex_lt(s.push(x).drop_first(), t.push(y).drop_first()));
        assert(!lex_lt(s, t));
    } else {
        assert(s.push(x).drop_first() =~= s.drop_first().push(x));
        assert(t.push(y).drop_first() =~= t.drop_first().push(y));
        lemma_lex_lt_push(s.drop_first(), t.drop_first(), x, y);
        assert(s.push(x)[0] == s[0]);
        assert(t.push(y)[0] == t[0]);
        if s[0] != t[0] {
            assert(s != t);
        }
        if s[0] == t[0] {
            if s.drop_first() == t.drop_first() {
                assert(s =~= t) by {
                    assert forall|i: int| 0 <= i < s.len() implies s[i] == t[i] by {
                        if i > 0 {
                            assert(s.drop_first()[i - 1] == t.drop_first()[i - 1]);
                        }
                    }
                }
            }
        }
    }
}

/// Big-endian encodings of one width order exactly as their values do.
pub proof fn lemma_be_order(v: nat, w: nat, n: nat)
    requires
        v < pow256(n),
        w < pow256(n),
    ensures
        lex_lt(be_seq(v, n), be_seq(w, n)) <==> v < w,
    decreases n,
{
    if n == 0 {
        assert(pow256(0) == 1);
    } else {
        let p = pow256((n - 1) as nat);
        lemma_pow256_positive((n - 1) as nat);
        lemma_be_seq_drop_last(v, n);
        lemma_be_seq_drop_last(w, n);
        vstd::arithmetic::div_mod::lemma_multiply_divide_lt(v as int, 256, p as int);
        vstd::arithmetic::div_mod::lemma_multiply_divide_lt(w as int, 256, p as int);
        lemma_be_order(v / 256, w / 256, (n - 1) as nat);
        lemma_be_seq_injective(v / 256, w / 256, (n - 1) as nat);
        let sv = be_seq(v, n);
        let sw = be_seq(w, n);
        assert(sv =~= sv.drop_last().push(sv.last()));
        assert(sw =~= sw.drop_last().push(sw.last()));
        lemma_lex_lt_push(sv.drop_last(), sw.drop_last(), sv.last(), sw.last());
        vstd::arithmetic::div_mod::lemma_fundamental_div_mod(v as int, 256);
        vstd::arithmetic::div_mod::lemma_fundamental_div_mod(w as int, 256);
    }
}

/// No byte string sorts before itself.
pub proof fn lemma_lex_lt_irreflexive(a: Seq<u8>)
    ensures
        !lex_lt(a, a),
    decreases a.len(),
{
    if a.len() > 0 {
        lemma_lex_lt_irreflexive(a.drop_first());
    }
}

/// Byte order is transitive.
pub proof fn lemma_lex_lt_transitive(a: Seq<u8>, b: Seq<u8>, c: Seq<u8>)
    requires
        lex_lt(a, b),
        lex_lt(b, c),
    ensures
        lex_lt(a, c),
    decreases a.len(),
{
    if a.len() > 0 && b.len() > 0 && c.len() > 0 {
        if a[0] == b[0] && b[0] == c[0] {
            lemma_lex_lt_transitive(a.drop_first(), b.drop_first(), c.drop_first());
        }
    }
}

/// Any two byte strings are ordered one way, the other, or are equal.
pub proof fn lemma_lex_lt_total(a: Seq<u8>, b: Seq<u8>)
    ensures
        lex_lt(a, b) || a == b || lex_lt(b, a),
    decreases a.len(),
{
    if a.len() > 0 && b.len() > 0 && a[0] == b[0] {
        lemma_lex_lt_total(a.drop_first(), b.drop_first());
        if a.drop_first() == b.drop_first() {
            assert(a.drop_first().len() == a.len() - 1);
            assert(b.drop_first().len() == b.len() - 1);
            assert(a.len() == b.len());
            assert(a =~= b) by {
                assert forall|i: int| 0 <= i < a.len() implies a[i] == b[i] by {
                    if i > 0 {
                        assert(a[i] == a.drop_first()[i - 1]);
                        assert(b[i] == b.drop_first()[i - 1]);
                    }
                }
            }
        }
    } else if a.len() == 0 && b.len() == 0 {
        assert(a =~= b);
    }
}

/// Of two distinct byte strings, at most one sorts first.
pub proof fn lemma_lex_lt_asymmetric(a: Seq<u8>, b: Seq<u8>)
    requires
        lex_lt(a, b),
    ensures
        !lex_lt(b, a),
        a != b,
{
    lemma_lex_lt_irreflexive(a);
    if lex_lt(b, a) {
        lemma_lex_lt_transitive(a, b, a);
    }
}

/// A proper prefix sorts first; strings agreeing on a prefix compare by what follows.
pub proof fn lemma_lex_lt_common_prefix(p: Seq<u8>, a: Seq<u8>, b: Seq<u8>)
    ensures
        lex_lt(p + a, p + b) <==> lex_lt(a, b),
    decreases p.len(),
{
    if p.len() > 0 {
        assert((p + a).drop_first() =~= p.drop_first() + a);
        assert((p + b).drop_first() =~= p.drop_first() + b);
        lemma_lex_lt_common_prefix(p.drop_first(), a, b);
    } else {
        assert(p + a =~= a);
        assert(p + b =~= b);
    }
}

/// Writes `x` as `n` big-endian bytes.
pub fn be_encode(x: u64, n: usize) -> (out: Vec<u8>)
    requires
        n <= 8,
        x < pow256(n as nat),
    ensures
        out@ == be_seq(x as nat, n as nat),
{
    let mut out: Vec<u8> = Vec::new();
    let mut i: usize = 0;
    while i < n
        invariant
            i <= n,
            out@.len() == i,
        decreases n - i,
    {
        out.push(0);
        i = i + 1;
    }
    let ghost target = be_seq(x as nat, n as nat);
    let mut acc: u64 = x;
    let mut k: usize = 0;
    assert(pow256(0) == 1);
    assert(x as nat / 1 == x as nat);
    while k < n
        invariant
            k <= n,
            n <= 8,
            out@.len() == n,
            acc as nat == x as nat / pow256(k as nat),
            target == be_seq(x as nat, n as nat),
            forall|j: int| n - k <= j < n ==> out@[j] == target[j],
        decreases n - k,
    {
        let pos = n - 1 - k;
        proof {
            lemma_pow256_positive(k as nat);
            assert(target[pos as int] == ((x as nat / pow256(k as nat)) % 256) as u8);
            vstd::arithmetic::div_mod::lemma_div_denominator(x as int, pow256(k as nat) as int, 256);
            assert(pow256((k + 1) as nat) == 256 * pow256(k as nat));
            vstd::arithmetic::mul::lemma_mul_is_commutative(256, pow256(k as nat) as int);
        }
        out.set(pos, (acc % 256) as u8);
        acc = acc / 256;
        k = k + 1;
    }
    assert(out@ =~= target);
    out
}

/// Reads a big-endian integer of at most eight bytes.
pub fn be_decode(s: &[u8]) -> (v: u64)
    requires
        s@.len() <= 8,
    ensures
        v as nat == be_value(s@),
{
    let mut acc: u64 = 0;
    let mut i: usize = 0;
    while i < s.len()
        invariant
            i <= s@.len(),
            s@.len() <= 8,
            acc as nat == be_value(s@.take(i as int)),
        decreases s@.len() - i,
    {
        proof {
            assert(s@.take(i as int + 1).drop_last() =~= s@.take(i as int));
            lemma_be_value_bound(s@.take(i as int));
            lemma_pow256_monotone(i as nat, 7);
            lemma_pow256_small();
        }
        acc = acc * 256 + s[i] as u64;
        i = i + 1;
    }
    assert(s@.take(s@.len() as int) =~= s@);
    acc
}

/// `true` when `a` sorts strictly before `b`.
pub fn bytes_lt(a: &[u8], b: &[u8]) -> (r: bool)
    ensures
        r == lex_lt(a@, b@),
{
    let mut i: usize = 0;
    assert(a@.skip(0) =~= a@);
    assert(b@.skip(0) =~= b@);
    assert(a@.take(0) =~= b@.take(0));
    while i < a.len() && i < b.len()
        invariant
            i <= a@.len(),
            i <= b@.len(),
            a@.take(i as int) == b@.take(i as int),
            lex_lt(a@, b@) == lex_lt(a@.skip(i as int), b@.skip(i as int)),
        decreases a@.len() - i,
    {
        proof {
            lemma_lex_lt_common_prefix(a@.take(i as int), a@.skip(i as int), b@.skip(i as int));
        }
        if a[i] != b[i] {
            assert(a@.skip(i as int)[0] == a@[i as int]);
            assert(b@.skip(i as int)[0] == b@[i as int]);
            return a[i] < b[i];
        }
        assert(a@.skip(i as int).drop_first() =~= a@.skip(i as int + 1));
        assert(b@.skip(i as int).drop_first() =~= b@.skip(i as int + 1));
        assert(a@.take(i as int + 1) =~= a@.take(i as int).push(a@[i as int]));
        assert(b@.take(i as int + 1) =~= b@.take(i as int).push(b@[i as int]));
        i = i + 1;
    }
    i < b.len()
}

/// `true` when `a` and `b` hold the same bytes.
pub fn bytes_eq(a: &[u8], b: &[u8]) -> (r: bool)
    ensures
        r == (a@ == b@),
{
    if a.len() != b.len() {
        return false;
    }
    let mut i: usize = 0;
    while i < a.len()
        invariant
            i <= a@.len(),
            a@.len() == b@.len(),
            forall|j: int| 0 <= j < i ==> a@[j] == b@[j],
        decreases a@.len() - i,
    {
        if a[i] != b[i] {
            return false;
        }
        i = i + 1;
    }
    assert(a@ =~= b@);
    true
}

/// Copies a byte slice into an owned vector.
pub fn copy_bytes(s: &[u8]) -> (out: Vec<u8>)
    ensures
        out@ == s@,
{
    let mut out: Vec<u8> = Vec::new();
    let mut i: usize = 0;
    while i < s.len()
        invariant
            i <= s@.len(),
            out@ == s@.take(i as int),
        decreases s@.len() - i,
    {
        out.push(s[i]);
        i = i + 1;
        assert(out@ =~= s@.take(i as int));
    }
    assert(s@.take(s@.len() as int) =~= s@);
    out
}

/// Appends the bytes of `s` to `out`.
pub fn append_bytes(out: &mut Vec<u8>, s: &[u8])
    ensures
        final(out)@ == old(out)@ + s@,
{
    let mut i: usize = 0;
    while i < s.len()
        invariant
            i <= s@.len(),
            out@ == old(out)@ + s@.take(i as int),
        decreases s@.len() - i,
    {
        out.push(s[i]);
        i = i + 1;
        assert(out@ =~= old(out)@ + s@.take(i as int));
    }
    assert(s@.take(s@.len() as int) =~= s@);
}

} // verus!
