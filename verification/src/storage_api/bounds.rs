use vstd::prelude::*;

use crate::bytes::{bytes_lt, copy_bytes, lex_le, lex_lt};

verus! {

/// One end of a key range.
#[derive(Debug, Clone, PartialEq, Eq)]
pub enum KeyBound {
    /// No limit on this side.
    Unbounded,
    /// The limit itself is part of the range.
    Included(Vec<u8>),
    /// The limit itself is not part of the range.
    Excluded(Vec<u8>),
}

/// The mathematical form of a [`KeyBound`].
pub enum BoundView {
    Unbounded,
    Included(Seq<u8>),
    Excluded(Seq<u8>),
}

impl View for KeyBound {
    type V = BoundView;

    open spec fn view(&self) -> BoundView {
        match self {
            KeyBound::Unbounded => BoundView::Unbounded,
            KeyBound::Included(k) => BoundView::Included(k@),
            KeyBound::Excluded(k) => BoundView::Excluded(k@),
        }
    }
}

/// The mathematical form of [`Bounds`]: a lower and an upper limit.
pub struct BoundsView {
    pub start: BoundView,
    pub end: BoundView,
}

impl BoundsView {
    /// Whether `key` lies at or after the lower limit.
    pub open spec fn after_start(self, key: Seq<u8>) -> bool {
        match self.start {
            BoundView::Unbounded => true,
            BoundView::Included(s) => lex_le(s, key),
            BoundView::Excluded(s) => lex_lt(s, key),
        }
    }

    /// Whether `key` lies at or before the upper limit.
    pub open spec fn before_end(self, key: Seq<u8>) -> bool {
        match self.end {
            BoundView::Unbounded => true,
            BoundView::Included(e) => lex_le(key, e),
            BoundView::Excluded(e) => lex_lt(key, e),
        }
    }

    /// Whether `key` lies within the range.
    pub open spec fn contains(self, key: Seq<u8>) -> bool {
        self.after_start(key) && self.before_end(key)
    }
}

/// The exclusive end of the range of keys beginning with `p`: the shortest
/// byte string that sorts after every such key, if there is one.
///
/// Trailing `0xff` bytes are dropped and the last byte below `0xff` is
/// incremented; a string that is empty or entirely `0xff` has none.
pub open spec fn prefix_successor(p: Seq<u8>) -> Option<Seq<u8>>
    decreases p.len(),
{
    if p.len() == 0 {
        None
    } else if p.last() < 0xff {
        Some(p.drop_last().push((p.last() + 1) as u8))
    } else {
        prefix_successor(p.drop_last())
    }
}

/// A key range to scan, expressed over owned key bytes.
///
/// Ranges are half-open by construction (start inclusive, end exclusive)
/// matching both the ordering of `[u8]` and `(key, range_end)` wire semantics.
/// A range whose start is not less than its end is empty rather than invalid.
#[derive(Debug, Clone, PartialEq, Eq)]
pub struct Bounds {
    start: KeyBound,
    end: KeyBound,
}

impl View for Bounds {
    type V = BoundsView;

    closed spec fn view(&self) -> BoundsView {
        BoundsView { start: self.start@, end: self.end@ }
    }
}

impl Bounds {
    /// Covers every key in the store.
    pub fn all() -> (b: Self)
        ensures
            b@ == (BoundsView { start: BoundView::Unbounded, end: BoundView::Unbounded }),
    {
        Self { start: KeyBound::Unbounded, end: KeyBound::Unbounded }
    }

    /// Covers exactly `key` if present.
    pub fn point(key: &[u8]) -> (b: Self)
        ensures
            b@ == (BoundsView { start: BoundView::Included(key@), end: BoundView::Included(key@) }),
    {
        let first = copy_bytes(key);
        let last = copy_bytes(key);
        Self { start: KeyBound::Included(first), end: KeyBound::Included(last) }
    }

    /// Covers `start` inclusive through `end` exclusive.
    ///
    /// An inverted or equal pair yields an empty range, not an error.
    pub fn between(start: &[u8], end: &[u8]) -> (b: Self)
        ensures
            b@ == (BoundsView { start: BoundView::Included(start@), end: BoundView::Excluded(end@) }),
    {
        Self { start: KeyBound::Included(copy_bytes(start)), end: KeyBound::Excluded(copy_bytes(end)) }
    }

    /// Covers every key at or after `start`.
    pub fn start_at(start: &[u8]) -> (b: Self)
        ensures
            b@ == (BoundsView { start: BoundView::Included(start@), end: BoundView::Unbounded }),
    {
        Self { start: KeyBound::Included(copy_bytes(start)), end: KeyBound::Unbounded }
    }

    /// Covers every key before `end`.
    pub fn end_before(end: &[u8]) -> (b: Self)
        ensures
            b@ == (BoundsView { start: BoundView::Unbounded, end: BoundView::Excluded(end@) }),
    {
        Self { start: KeyBound::Unbounded, end: KeyBound::Excluded(copy_bytes(end)) }
    }

    /// Covers every key beginning with `prefix`.
    ///
    /// The exclusive end is the prefix's byte-wise successor. The last byte
    /// below `0xff` is incremented and any trailing `0xff` bytes are dropped. A
    /// prefix that is empty or entirely `0xff` has no successor, so the range
    /// runs to the end of the keyspace.
    pub fn prefix(prefix: &[u8]) -> (b: Self)
        ensures
            b@ == (BoundsView {
                start: BoundView::Included(prefix@),
                end: match prefix_successor(prefix@) {
                    Some(e) => BoundView::Excluded(e),
                    None => BoundView::Unbounded,
                },
            }),
    {
        let mut end = copy_bytes(prefix);
        loop
            invariant
                prefix_successor(prefix@) == prefix_successor(end@),
            decreases end@.len(),
        {
            let popped = end.pop();
            match popped {
                None => {
                    assert(end@.len() == 0);
                    return Self { start: KeyBound::Included(copy_bytes(prefix)), end: KeyBound::Unbounded };
                },
                Some(last) => {
                    if last < 0xff {
                        end.push(last + 1);
                        return Self {
                            start: KeyBound::Included(copy_bytes(prefix)),
                            end: KeyBound::Excluded(end),
                        };
                    }
                },
            }
        }
    }

    /// Moves the start bound past `key`, leaving the end bound alone.
    ///
    /// This is the paging step for a chunked scan: range with a limit, then
    /// advance past the last key returned.
    pub fn advance_past(&mut self, key: &[u8])
        ensures
            final(self)@ == (BoundsView { start: BoundView::Excluded(key@), end: old(self)@.end }),
    {
        self.start = KeyBound::Excluded(copy_bytes(key));
    }

    /// The lower limit.
    pub fn start_bound(&self) -> (b: &KeyBound)
        ensures
            b@ == self@.start,
    {
        &self.start
    }

    /// The upper limit.
    pub fn end_bound(&self) -> (b: &KeyBound)
        ensures
            b@ == self@.end,
    {
        &self.end
    }

    /// Whether `key` lies within the range.
    pub fn contains(&self, key: &[u8]) -> (r: bool)
        ensures
            r == self@.contains(key@),
    {
        let after = match &self.start {
            KeyBound::Unbounded => true,
            KeyBound::Included(s) => !bytes_lt(key, s.as_slice()),
            KeyBound::Excluded(s) => bytes_lt(s.as_slice(), key),
        };
        let before = match &self.end {
            KeyBound::Unbounded => true,
            KeyBound::Included(e) => !bytes_lt(e.as_slice(), key),
            KeyBound::Excluded(e) => bytes_lt(key, e.as_slice()),
        };
        proof {
            match &self.start {
                KeyBound::Included(s) => {
                    crate::bytes::lemma_lex_lt_total(s@, key@);
                    if lex_lt(key@, s@) {
                        crate::bytes::lemma_lex_lt_asymmetric(key@, s@);
                    }
                },
                _ => {},
            }
            match &self.end {
                KeyBound::Included(e) => {
                    crate::bytes::lemma_lex_lt_total(e@, key@);
                    if lex_lt(e@, key@) {
                        crate::bytes::lemma_lex_lt_asymmetric(e@, key@);
                    }
                },
                _ => {},
            }
        }
        after && before
    }
}

} // verus!
