//! Regions of the source document.
//!
//! A [`Span`] is an immutable (start, length) index range into the document's
//! sequence of characters.  Spans enable zero-copy navigation: a node records
//! only the span it occupies, and extraction re-reads the original source.

use vstd::prelude::*;
use vstd::string::StrSliceExecFns;

verus! {

/// An index range over the characters of a source document.
///
/// `start` is the index of the first character covered and `len` the number
/// of characters covered.  Every span handed out by the library satisfies
/// `start + len <= source length` for the document it came from.
#[derive(Debug, Clone, Copy, PartialEq, Eq, Structural)]
pub struct Span {
    /// Index of the first character covered.
    pub start: usize,
    /// Number of characters covered.
    pub len: usize,
}

impl Span {
    /// One past the last character covered, as a mathematical integer.
    pub open spec fn spec_end(&self) -> int {
        self.start + self.len
    }

    /// True when the span lies within a source of `n` characters.
    pub open spec fn wf_for(&self, n: nat) -> bool {
        self.start + self.len <= n
    }

    /// Create a new span from a start position and length.
    pub fn new(start: usize, len: usize) -> (r: Span)
        ensures
            r.start == start,
            r.len == len,
    {
        Span { start, len }
    }

    /// The end position (exclusive) of this span.
    pub fn end(&self) -> (r: usize)
        requires
            self.start + self.len <= usize::MAX,
        ensures
            r == self.spec_end(),
    {
        self.start + self.len
    }

    /// Extract the part of `source` that this span covers.
    pub fn extract<'a>(&self, source: &'a str) -> (r: &'a str)
        requires
            self.wf_for(source@.len() as nat),
        ensures
            r@ == source@.subrange(self.start as int, self.spec_end()),
    {
        let n = source.unicode_len();
        source.substring_char(self.start, self.start + self.len)
    }

    /// The minimal span covering both this span and `other`.
    ///
    /// When the two spans are separated by a gap, the gap is covered too:
    /// callers merge only spans they know to be contiguous or nested.
    pub fn merge(&self, other: &Span) -> (r: Span)
        requires
            self.start + self.len <= usize::MAX,
            other.start + other.len <= usize::MAX,
        ensures
            r.start == if self.start <= other.start {
                self.start as int
            } else {
                other.start as int
            },
            r.spec_end() == if self.spec_end() >= other.spec_end() {
                self.spec_end()
            } else {
                other.spec_end()
            },
    {
        let start = if self.start <= other.start {
            self.start
        } else {
            other.start
        };
        let self_end = self.start + self.len;
        let other_end = other.start + other.len;
        let end = if self_end >= other_end {
            self_end
        } else {
            other_end
        };
        Span { start, len: end - start }
    }
}

} // verus!
