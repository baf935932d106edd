//! Document handles.
//!
//! A [`Node`] pairs a reference to the full source text with the [`Span`]
//! of the value it stands for.  Nodes are cheap, immutable views: they never
//! own or copy text, and navigation produces further nodes into the same
//! source.  A node carries no knowledge of its shape — whether it is a
//! table, a vector or a scalar is discovered on demand by the operation
//! applied to it.

use vstd::prelude::*;

use crate::span::Span;

verus! {

/// A handle on one value of a document.
///
/// Represents a value that may be a table, vector, or scalar.  The actual
/// parsing happens lazily when the node is navigated or coerced.
#[derive(Debug, Clone, Copy)]
pub struct Node<'a> {
    /// The complete source document (needed for extracting substrings).
    source: &'a str,
    /// The span of this node within the source.
    span: Span,
}

impl<'a> Node<'a> {
    /// The characters of the full source document.
    pub closed spec fn src(&self) -> Seq<char> {
        self.source@
    }

    /// The span of this node, as spec-level data.
    pub closed spec fn spec_span(&self) -> Span {
        self.span
    }

    /// The node's span lies within its source.
    pub open spec fn wf(&self) -> bool {
        self.spec_span().start + self.spec_span().len <= self.src().len()
    }

    /// The characters of the source that this node covers.
    pub open spec fn raw_spec(&self) -> Seq<char> {
        self.src().subrange(self.spec_span().start as int, self.spec_span().spec_end())
    }

    /// Create a new node referencing a region of the source.
    pub fn new(source: &'a str, span: Span) -> (r: Node<'a>)
        ensures
            r.src() == source@,
            r.spec_span() == span,
    {
        Node { source, span }
    }

    /// Get the raw text content of this node (without parsing).
    pub fn raw(&self) -> (r: &'a str)
        requires
            self.wf(),
        ensures
            r@ == self.raw_spec(),
    {
        self.span.extract(self.source)
    }

    /// Get the span of this node.
    pub fn span(&self) -> (r: Span)
        ensures
            r == self.spec_span(),
    {
        self.span
    }

    /// The full source document this node points into.
    pub(crate) fn source(&self) -> (r: &'a str)
        ensures
            r@ == self.src(),
    {
        self.source
    }
}

} // verus!
