//! Log segments: how they are named, when one is full, and which of them a
//! checkpoint may discard.
use vstd::prelude::*;

use crate::wal::error::{Error, ErrorKind};

verus! {

/// Size at which the active segment is closed and a new one started.
///
/// Compaction discards whole segments, so this sets the granularity of
/// reclamation: no space is freed until every record in a segment is below
/// the checkpoint.
pub const SEGMENT_LIMIT: u64 = 67108864;

/// Digits in a segment name's record number: enough for any `u64`, so that
/// lexical order of names is numeric order.
pub const NAME_DIGITS: usize = 20;

/// The character `.`.
pub const DOT: u8 = 0x2e;

/// The character `+`.
pub const PLUS: u8 = 0x2b;

/// The character `0`.
pub const ZERO: u8 = 0x30;

/// The extension marking a file as a log segment: `wal`.
pub open spec fn extension() -> Seq<u8> {
    seq![0x77u8, 0x61u8, 0x6cu8]
}

/// The `n` decimal digits of `v`, most significant first, zero padded.
pub open spec fn decimal_digits(v: nat, n: nat) -> Seq<u8>
    decreases n,
{
    if n == 0 {
        Seq::empty()
    } else {
        decimal_digits(v / 10, (n - 1) as nat).push((ZERO + v % 10) as u8)
    }
}

/// The value of a string of decimal digits.
pub open spec fn decimal_value(s: Seq<u8>) -> nat
    decreases s.len(),
{
    if s.len() == 0 {
        0
    } else {
        decimal_value(s.drop_last()) * 10 + (s.last() - ZERO) as nat
    }
}

/// Whether every byte of `s` is a decimal digit.
pub open spec fn all_digits(s: Seq<u8>) -> bool {
    forall|i: int| 0 <= i < s.len() ==> ZERO <= #[trigger] s[i] <= ZERO + 9
}

/// The number a decimal string denotes, as `u64` parsing reads it: digits,
/// optionally after one `+`, with a value that fits.
pub open spec fn parsed_u64(s: Seq<u8>) -> Option<u64> {
    let digits = if s.len() > 0 && s[0] == PLUS {
        s.drop_first()
    } else {
        s
    };
    if digits.len() > 0 && all_digits(digits) && decimal_value(digits) <= u64::MAX {
        Some(decimal_value(digits) as u64)
    } else {
        None
    }
}

/// The name of the segment whose first record follows record `first`.
pub open spec fn segment_name(first: u64) -> Seq<u8> {
    decimal_digits(first as nat, NAME_DIGITS as nat).push(DOT) + extension()
}

/// The position of the last `.` in `s`, if there is one.
pub open spec fn last_dot(s: Seq<u8>) -> Option<nat>
    decreases s.len(),
{
    if s.len() == 0 {
        None
    } else if s.last() == DOT {
        Some((s.len() - 1) as nat)
    } else {
        last_dot(s.drop_last())
    }
}

/// What a directory entry named `name` is to the log: `None` for a file that
/// is no segment, the number it starts after for one that is, or corruption
/// for a segment whose name is not a record number.
///
/// A file is a segment when its extension, what follows its last `.` where
/// that `.` does not begin the name, is `wal`.
pub open spec fn classify(name: Seq<u8>) -> Result<Option<u64>, ErrorKind> {
    match last_dot(name) {
        None => Ok(None),
        Some(d) => if d == 0 || name.subrange((d + 1) as int, name.len() as int) != extension() {
            Ok(None)
        } else {
            match parsed_u64(name.subrange(0, d as int)) {
                Some(first) => Ok(Some(first)),
                None => Err(ErrorKind::Corrupt),
            }
        },
    }
}

/// Appends the `n` decimal digits of `v` to `out`.
fn push_decimal(v: u64, n: usize, out: &mut Vec<u8>)
    ensures
        final(out)@ == old(out)@ + decimal_digits(v as nat, n as nat),
    decreases n,
{
    if n == 0 {
        assert(old(out)@ + decimal_digits(v as nat, 0) =~= old(out)@);
    } else {
        push_decimal(v / 10, n - 1, out);
        let digit = (v % 10) as u8;
        out.push(ZERO + digit);
        assert(final(out)@ =~= old(out)@ + decimal_digits(v as nat, n as nat));
    }
}

/// Writes the name of the segment whose first record follows record `first`.
pub fn segment_file_name(first: u64) -> (name: Vec<u8>)
    ensures
        name@ == segment_name(first),
{
    let mut name: Vec<u8> = Vec::new();
    push_decimal(first, NAME_DIGITS, &mut name);
    name.push(DOT);
    name.push(0x77);
    name.push(0x61);
    name.push(0x6c);
    assert(name@ =~= segment_name(first));
    name
}

/// A string of digits is worth at least any prefix of it.
proof fn lemma_decimal_value_grows(s: Seq<u8>, i: int)
    requires
        all_digits(s),
        0 <= i <= s.len(),
    ensures
        decimal_value(s.take(i)) <= decimal_value(s),
    decreases s.len() - i,
{
    if i < s.len() {
        lemma_decimal_value_grows(s, i + 1);
        assert(s.take(i + 1).drop_last() =~= s.take(i));
    } else {
        assert(s.take(i) =~= s);
    }
}

/// Reads the decimal number `s` denotes, as `u64` parsing does.
fn parse_u64(s: &[u8]) -> (r: Option<u64>)
    ensures
        r == parsed_u64(s@),
{
    let start: usize = if s.len() > 0 && s[0] == PLUS {
        1
    } else {
        0
    };
    let ghost digits = if s@.len() > 0 && s@[0] == PLUS {
        s@.drop_first()
    } else {
        s@
    };
    assert(digits =~= s@.subrange(start as int, s@.len() as int));
    if start == s.len() {
        return None;
    }
    let mut acc: u64 = 0;
    let mut i = start;
    while i < s.len()
        invariant
            start <= i <= s@.len(),
            digits == s@.subrange(start as int, s@.len() as int),
            digits == (if s@.len() > 0 && s@[0] == PLUS {
                s@.drop_first()
            } else {
                s@
            }),
            digits.len() > 0,
            forall|j: int| 0 <= j < i - start ==> ZERO <= #[trigger] digits[j] <= ZERO + 9,
            acc == decimal_value(digits.take(i - start)),
        decreases s@.len() - i,
    {
        let c = s[i];
        assert(c == digits[i - start]);
        if c < ZERO || c > ZERO + 9 {
            assert(!all_digits(digits)) by {
                assert(!(ZERO <= digits[i - start] <= ZERO + 9));
            }
            return None;
        }
        let d = (c - ZERO) as u64;
        assert(digits.take(i - start + 1).drop_last() =~= digits.take(i - start));
        if acc > (u64::MAX - d) / 10 {
            proof {
                assert(acc * 10 + d > u64::MAX) by (nonlinear_arith)
                    requires
                        acc > (u64::MAX - d) / 10,
                        d <= 9,
                ;
                assert(decimal_value(digits.take(i - start + 1)) == acc * 10 + d);
                assert(forall|j: int| 0 <= j < i - start + 1 ==> ZERO <= #[trigger] digits[j] <= ZERO + 9);
                if all_digits(digits) {
                    lemma_decimal_value_grows(digits, i - start + 1);
                }
            }
            return None;
        }
        acc = acc * 10 + d;
        i = i + 1;
    }
    assert(digits.take(i - start) =~= digits);
    Some(acc)
}

/// Tells what a directory entry named `name` is to the log, as
/// [`classify`] describes.
pub fn classify_name(name: &[u8]) -> (r: Result<Option<u64>, Error>)
    ensures
        match classify(name@) {
            Ok(v) => r == Ok::<Option<u64>, Error>(v),
            Err(kind) => r matches Err(e) && e.kind_of() == kind,
        },
{
    let mut i = name.len();
    assert(name@.take(i as int) =~= name@);
    while i > 0 && name[i - 1] != DOT
        invariant
            i <= name@.len(),
            last_dot(name@) == last_dot(name@.take(i as int)),
        decreases i,
    {
        assert(name@.take(i as int).drop_last() =~= name@.take(i - 1));
        i = i - 1;
    }
    if i == 0 {
        assert(name@.take(0) =~= Seq::<u8>::empty());
        return Ok(None);
    }
    let d = i - 1;
    assert(last_dot(name@) == Some(d as nat));
    let ext = vstd::slice::slice_subrange(name, i, name.len());
    let is_wal = ext.len() == 3 && ext[0] == 0x77 && ext[1] == 0x61 && ext[2] == 0x6c;
    proof {
        if ext@.len() == 3 {
            if is_wal {
                assert(ext@ =~= extension());
            } else {
                assert(ext@ != extension()) by {
                    if ext@ == extension() {
                        assert(ext@[0] == extension()[0]);
                        assert(ext@[1] == extension()[1]);
                        assert(ext@[2] == extension()[2]);
                    }
                }
            }
        }
    }
    if d == 0 || !is_wal {
        return Ok(None);
    }
    let stem = vstd::slice::slice_subrange(name, 0, d);
    match parse_u64(stem) {
        Some(first) => Ok(Some(first)),
        None => Err(Error::corrupt("segment file name is not a record index")),
    }
}

/// How many segments, from the oldest, a checkpoint at `durable` may remove,
/// given each segment's first record number in ascending order.
///
/// A segment goes only when the one after it begins at or below the
/// checkpoint, which means every record it holds is durable in the store;
/// the newest segment, having none after it, always stays.
pub open spec fn removable(firsts: Seq<u64>, durable: u64) -> nat
    decreases firsts.len(),
{
    if firsts.len() < 2 || firsts[1] > durable {
        0
    } else {
        1 + removable(firsts.drop_first(), durable)
    }
}

/// A checkpoint never removes the newest segment, the one being appended to,
/// and removes only segments whose successor begins at or below the
/// checkpoint.
pub proof fn lemma_newest_segment_stays(firsts: Seq<u64>, durable: u64)
    ensures
        firsts.len() > 0 ==> removable(firsts, durable) < firsts.len(),
        forall|i: int| 1 <= i <= removable(firsts, durable) ==> #[trigger] firsts[i] <= durable,
    decreases firsts.len(),
{
    if firsts.len() >= 2 && firsts[1] <= durable {
        let rest = firsts.drop_first();
        lemma_newest_segment_stays(rest, durable);
        assert forall|i: int| 1 <= i <= removable(firsts, durable) implies #[trigger] firsts[i] <= durable by {
            if i > 1 {
                assert(rest[i - 1] == firsts[i]);
            }
        }
    }
}

/// How many segments a checkpoint at `durable` removes: the longest run of
/// the oldest segments each followed by one that begins at or below
/// `durable`. Every segment in the run is removed, the segment just after it
/// is followed by one beginning past `durable` (or is the newest), and the
/// newest segment always stays.
pub proof fn lemma_removable_exact(firsts: Seq<u64>, durable: u64)
    ensures
        firsts.len() == 0 ==> removable(firsts, durable) == 0,
        firsts.len() > 0 ==> removable(firsts, durable) < firsts.len(),
        forall|i: int| 1 <= i <= removable(firsts, durable) ==> #[trigger] firsts[i] <= durable,
        removable(firsts, durable) + 1 < firsts.len() ==> firsts[removable(firsts, durable) + 1int] > durable,
    decreases firsts.len(),
{
    lemma_newest_segment_stays(firsts, durable);
    if firsts.len() >= 2 && firsts[1] <= durable {
        let rest = firsts.drop_first();
        lemma_removable_exact(rest, durable);
        let n = removable(rest, durable);
        if n + 2 < firsts.len() {
            assert(rest[n + 1int] == firsts[n + 2int]);
        }
    }
}

/// Counts the segments a checkpoint at `durable` may remove, as
/// [`removable`] describes: every segment whose successor, and whose
/// predecessors' successors, begin at or below `durable`.
pub fn removable_segments(firsts: &[u64], durable: u64) -> (n: usize)
    ensures
        n == removable(firsts@, durable),
        firsts@.len() > 0 ==> n < firsts@.len(),
        firsts@.len() == 0 ==> n == 0,
        forall|i: int| 1 <= i <= n ==> #[trigger] firsts@[i] <= durable,
        n + 1 < firsts@.len() ==> firsts@[n + 1] > durable,
{
    proof {
        lemma_removable_exact(firsts@, durable);
    }
    let mut i: usize = 0;
    assert(firsts@.skip(0) =~= firsts@);
    while firsts.len() > 0 && i < firsts.len() - 1 && firsts[i + 1] <= durable
        invariant
            firsts@.len() > 0 ==> i < firsts@.len(),
            firsts@.len() == 0 ==> i == 0,
            removable(firsts@, durable) == i + removable(firsts@.skip(i as int), durable),
        decreases firsts@.len() - i,
    {
        assert(firsts@.skip(i as int).drop_first() =~= firsts@.skip(i + 1));
        i = i + 1;
    }
    i
}

/// Whether `order` lists every position of `firsts` once, so that the first
/// record numbers it leads to ascend: the order to read segments in.
pub open spec fn orders_segments(firsts: Seq<u64>, order: Seq<usize>) -> bool {
    &&& order.len() == firsts.len()
    &&& order.no_duplicates()
    &&& forall|a: int| 0 <= a < order.len() ==> (#[trigger] order[a]) < firsts.len()
    &&& forall|a: int, b: int|
        0 <= a < b < order.len() ==> firsts[#[trigger] order[a] as int] <= firsts[#[trigger] order[b] as int]
}

/// The order in which to read segments whose first record numbers are
/// `firsts`: their positions, by ascending first record number.
pub fn segment_order(firsts: &[u64]) -> (order: Vec<usize>)
    ensures
        orders_segments(firsts@, order@),
{
    let mut order: Vec<usize> = Vec::new();
    let n = firsts.len();
    let mut i: usize = 0;
    while i < n
        invariant
            n == firsts@.len(),
            i <= n,
            order@.len() == i,
            order@.no_duplicates(),
            forall|a: int| 0 <= a < order@.len() ==> (#[trigger] order@[a]) < i,
            forall|a: int, b: int|
                0 <= a < b < order@.len() ==> firsts@[#[trigger] order@[a] as int] <= firsts@[#[trigger] order@[b] as int],
        decreases n - i,
    {
        let mut p: usize = 0;
        while p < order.len() && firsts[order[p]] <= firsts[i]
            invariant
                n == firsts@.len(),
                i < n,
                order@.len() == i,
                forall|a: int| 0 <= a < order@.len() ==> (#[trigger] order@[a]) < i,
                p <= order@.len(),
                forall|a: int| 0 <= a < p ==> firsts@[#[trigger] order@[a] as int] <= firsts@[i as int],
            decreases order@.len() - p,
        {
            p = p + 1;
        }
        let ghost old_order = order@;
        proof {
            if p < old_order.len() {
                assert forall|b: int| p <= b < old_order.len() implies firsts@[i as int] < firsts@[#[trigger] old_order[b] as int] by {
                    if b > p {
                        assert(firsts@[old_order[p as int] as int] <= firsts@[old_order[b] as int]);
                    }
                }
            }
        }
        order.insert(p, i);
        proof {
            let o = order@;
            assert(o == old_order.insert(p as int, i));
            assert forall|a: int| 0 <= a < o.len() implies (#[trigger] o[a]) < i + 1 by {
                if a < p {
                    assert(o[a] == old_order[a]);
                } else if a > p {
                    assert(o[a] == old_order[a - 1]);
                }
            }
            assert forall|a: int, b: int| 0 <= a < o.len() && 0 <= b < o.len() && a != b implies o[a] != o[b] by {
                if a != p && b != p {
                    let a0 = if a < p { a } else { a - 1 };
                    let b0 = if b < p { b } else { b - 1 };
                    assert(o[a] == old_order[a0]);
                    assert(o[b] == old_order[b0]);
                } else if a == p {
                    let b0 = if b < p { b } else { b - 1 };
                    assert(o[b] == old_order[b0]);
                } else {
                    let a0 = if a < p { a } else { a - 1 };
                    assert(o[a] == old_order[a0]);
                }
            }
            assert forall|a: int, b: int| 0 <= a < b < o.len() implies firsts@[#[trigger] o[a] as int] <= firsts@[#[trigger] o[b] as int] by {
                let a0 = if a < p { a } else { a - 1 };
                let b0 = if b < p { b } else { b - 1 };
                if a != p && b != p {
                    assert(o[a] == old_order[a0]);
                    assert(o[b] == old_order[b0]);
                } else if a == p {
                    assert(o[b] == old_order[b0]);
                } else {
                    assert(o[a] == old_order[a0]);
                }
            }
        }
        i = i + 1;
    }
    order
}

/// What a writer knows of the segment it appends to.
pub struct SegmentState {
    written: u64,
    limit: u64,
    poisoned: bool,
}

impl SegmentState {
    /// Bytes written to the segment so far.
    pub closed spec fn written(&self) -> u64 {
        self.written
    }

    /// Size at which the segment rolls over.
    pub closed spec fn limit_of(&self) -> u64 {
        self.limit
    }

    /// Whether a failed rewind left torn bytes in the segment.
    pub closed spec fn is_poisoned(&self) -> bool {
        self.poisoned
    }

    /// A segment holding `written` bytes that rolls over at `limit`.
    pub fn new(written: u64, limit: u64) -> (s: Self)
        ensures
            s.written() == written,
            s.limit_of() == limit,
            !s.is_poisoned(),
    {
        SegmentState { written, limit, poisoned: false }
    }

    /// Returns whether the segment has reached the size at which to roll over.
    pub fn is_full(&self) -> (r: bool)
        ensures
            r == (self.written() >= self.limit_of()),
    {
        self.written >= self.limit
    }

    /// Returns the size at which the segment rolls over.
    pub fn limit(&self) -> (l: u64)
        ensures
            l == self.limit_of(),
    {
        self.limit
    }

    /// Returns how many bytes the segment holds: where a rewind returns to.
    pub fn len(&self) -> (n: u64)
        ensures
            n == self.written(),
    {
        self.written
    }

    /// Checks that the segment may take another append.
    ///
    /// A segment whose torn bytes could not be rewound refuses, since an
    /// append would land after a record replay cannot read past.
    pub fn check_writable(&self) -> (r: Result<(), Error>)
        ensures
            r is Ok <==> !self.is_poisoned(),
            r matches Err(e) ==> e.kind_of() == ErrorKind::Io,
    {
        if self.poisoned {
            Err(Error::io("appending to a segment", "a failed rewind left torn bytes in the segment"))
        } else {
            Ok(())
        }
    }

    /// Records that `len` bytes were appended and flushed.
    ///
    /// The count saturates rather than wrap, so a segment that somehow
    /// outgrew the counter still reads as full.
    pub fn appended(&mut self, len: u64)
        ensures
            final(self).written() == if old(self).written() + len > u64::MAX {
                u64::MAX
            } else {
                (old(self).written() + len) as u64
            },
            final(self).limit_of() == old(self).limit_of(),
            final(self).is_poisoned() == old(self).is_poisoned(),
    {
        self.written = self.written.saturating_add(len);
    }

    /// Records that a failed append could not be rewound.
    pub fn poison(&mut self)
        ensures
            final(self).is_poisoned(),
            final(self).written() == old(self).written(),
            final(self).limit_of() == old(self).limit_of(),
    {
        self.poisoned = true;
    }
}

} // verus!
