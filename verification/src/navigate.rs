//! Navigation: tables and vectors.
//!
//! Given a node believed to be a table (`{ ... }`) or a vector (`[ ... ]`),
//! navigation re-lexes the source from the node's start, computes the span
//! of each member value by balanced-delimiter scanning, and either
//! materializes the whole collection ([`table`], [`vector`]) or returns the
//! single member asked for ([`tab`], [`vec`]).
//!
//! The outcome on every input is given by the spec functions [`table_spec`]
//! and [`vector_spec`]: which entries are found, with which spans, and on
//! which inputs each error is returned.

use vstd::prelude::*;
use vstd::map::*;
use vstd::string::StrSliceExecFns;

use crate::chars::{spec_trim, str_eq, trim_str};
use crate::error::{Error, ErrorKind};
use crate::lexer::{
    lemma_lex_at_bounds, lex_at, spec_error, spec_span, LexOut, Lexer, TokenKind,
};
use crate::node::Node;
use crate::scalar::{text, text_spec};
use crate::span::Span;

verus! {

/// The first token at or after `pos` that is not a separator (newline or
/// comma), or the lexical error met while looking for it.
pub open spec fn next_element_token(s: Seq<char>, pos: int) -> LexOut
    decreases s.len() - pos,
    when 0 <= pos <= s.len()
{
    match lex_at(s, pos) {
        LexOut::Tok { kind, start, end } => {
            if kind == TokenKind::Newline || kind == TokenKind::Comma {
                proof {
                    lemma_lex_at_bounds(s, pos);
                }
                next_element_token(s, end)
            } else {
                LexOut::Tok { kind, start, end }
            }
        },
        other => other,
    }
}

/// The outcome of a span-producing scan.
pub enum ScanOut {
    /// Success: the resulting character range `start..end`.
    Done(int, int),
    /// Failure: the error kind, over the character range `start..end`.
    Fail(ErrorKind, int, int),
}

/// Scan forward from `pos` with `depth` containers open, counting both
/// braces and brackets, until the depth returns to zero: the span of the
/// token that closed the last container.  Reaching end of input first is an
/// error.
pub open spec fn balanced_end(s: Seq<char>, pos: int, depth: int) -> ScanOut
    decreases s.len() - pos,
    when 0 <= pos <= s.len() && depth >= 1
{
    match lex_at(s, pos) {
        LexOut::UnclosedString { start } => ScanOut::Fail(
            ErrorKind::UnclosedString,
            start,
            s.len() as int,
        ),
        LexOut::UnclosedComment { start } => ScanOut::Fail(
            ErrorKind::UnclosedComment,
            start,
            s.len() as int,
        ),
        LexOut::Tok { kind, start, end } => {
            if kind == TokenKind::Eof {
                ScanOut::Fail(ErrorKind::UnexpectedEof, start, end)
            } else if kind == TokenKind::LeftBrace || kind == TokenKind::LeftBracket {
                proof {
                    lemma_lex_at_bounds(s, pos);
                }
                balanced_end(s, end, depth + 1)
            } else if kind == TokenKind::RightBrace || kind == TokenKind::RightBracket {
                if depth == 1 {
                    ScanOut::Done(start, end)
                } else {
                    proof {
                        lemma_lex_at_bounds(s, pos);
                    }
                    balanced_end(s, end, depth - 1)
                }
            } else {
                proof {
                    lemma_lex_at_bounds(s, pos);
                }
                balanced_end(s, end, depth)
            }
        },
    }
}

/// The character reported by an `UnexpectedChar` error for the token
/// covering `start..end`: its first character, or a space for an empty
/// token.
pub open spec fn offending_char(s: Seq<char>, start: int, end: int) -> char {
    if start < end {
        s[start]
    } else {
        ' '
    }
}

/// The extent of a member value whose first token has the given kind and
/// covers `start..end`: the value's whole character range, found by
/// balanced scanning for a nested container, or the token itself for a
/// string or scalar.  Any other token kind is a structural error.
pub open spec fn value_extent(s: Seq<char>, kind: TokenKind, start: int, end: int) -> ScanOut {
    if kind == TokenKind::LeftBrace || kind == TokenKind::LeftBracket {
        match balanced_end(s, end, 1) {
            ScanOut::Done(_close_start, close_end) => ScanOut::Done(start, close_end),
            fail => fail,
        }
    } else if kind == TokenKind::String || kind == TokenKind::Scalar {
        ScanOut::Done(start, end)
    } else {
        ScanOut::Fail(ErrorKind::UnexpectedChar(offending_char(s, start, end)), start, end)
    }
}

/// The outcome of materializing a table's entries.
pub enum TableOut {
    /// The entries: each key, decoded, mapped to the character range of its
    /// value (last occurrence wins).
    Entries(Map<Seq<char>, (int, int)>),
    /// Failure: the error kind, over the character range `start..end`.
    TableFail(ErrorKind, int, int),
}

/// The outcome of materializing a vector's elements.
pub enum VectorOut {
    /// The elements, in order: the character range of each.
    Items(Seq<(int, int)>),
    /// Failure: the error kind, over the character range `start..end`.
    VectorFail(ErrorKind, int, int),
}

/// The entries of a table whose opening brace has been consumed, scanning
/// from `pos`: separator runs are skipped, each entry is a key (a string
/// literal, decoded, or a scalar, verbatim), a colon and a value, and the
/// closing brace ends the table.
pub open spec fn table_items(s: Seq<char>, pos: int) -> TableOut
    decreases s.len() - pos,
    when 0 <= pos <= s.len()
{
    match next_element_token(s, pos) {
        LexOut::UnclosedString { start } => TableOut::TableFail(
            ErrorKind::UnclosedString,
            start,
            s.len() as int,
        ),
        LexOut::UnclosedComment { start } => TableOut::TableFail(
            ErrorKind::UnclosedComment,
            start,
            s.len() as int,
        ),
        LexOut::Tok { kind, start, end } => {
            if kind == TokenKind::RightBrace {
                TableOut::Entries(Map::empty())
            } else if kind == TokenKind::String || kind == TokenKind::Scalar {
                let keyres = if kind == TokenKind::String {
                    text_spec(s.subrange(start, end))
                } else {
                    Ok(s.subrange(start, end))
                };
                match keyres {
                    Err(k) => TableOut::TableFail(k, start, end),
                    Ok(key) => match lex_at(s, end) {
                        LexOut::UnclosedString { start: st } => TableOut::TableFail(
                            ErrorKind::UnclosedString,
                            st,
                            s.len() as int,
                        ),
                        LexOut::UnclosedComment { start: st } => TableOut::TableFail(
                            ErrorKind::UnclosedComment,
                            st,
                            s.len() as int,
                        ),
                        LexOut::Tok { kind: ck, start: cs, end: ce } => {
                            if ck != TokenKind::Colon {
                                TableOut::TableFail(ErrorKind::ExpectedChar(':'), cs, ce)
                            } else {
                                match lex_at(s, ce) {
                                    LexOut::UnclosedString { start: st } => TableOut::TableFail(
                                        ErrorKind::UnclosedString,
                                        st,
                                        s.len() as int,
                                    ),
                                    LexOut::UnclosedComment { start: st } => TableOut::TableFail(
                                        ErrorKind::UnclosedComment,
                                        st,
                                        s.len() as int,
                                    ),
                                    LexOut::Tok { kind: vk, start: vs, end: ve } => {
                                        match value_extent(s, vk, vs, ve) {
                                            ScanOut::Fail(k, a, b) => TableOut::TableFail(k, a, b),
                                            ScanOut::Done(_a, vend) => {
                                                proof {
                                                    lemma_next_element_token_bounds(s, pos);
                                                    lemma_lex_at_bounds(s, end);
                                                    lemma_lex_at_bounds(s, ce);
                                                    lemma_value_extent_bounds(s, vk, vs, ve);
                                                }
                                                match table_items(s, vend) {
                                                    TableOut::Entries(rest) => TableOut::Entries(
                                                        if rest.dom().contains(key) {
                                                            rest
                                                        } else {
                                                            rest.insert(key, (vs, vend))
                                                        },
                                                    ),
                                                    fail => fail,
                                                }
                                            },
                                        }
                                    },
                                }
                            }
                        },
                    },
                }
            } else {
                TableOut::TableFail(ErrorKind::ExpectedChar(':'), start, end)
            }
        },
    }
}

/// The elements of a vector whose opening bracket has been consumed,
/// scanning from `pos`: separator runs are skipped, each element's extent
/// is computed as a table value's is, and the closing bracket ends the
/// vector.
pub open spec fn vector_items(s: Seq<char>, pos: int) -> VectorOut
    decreases s.len() - pos,
    when 0 <= pos <= s.len()
{
    match next_element_token(s, pos) {
        LexOut::UnclosedString { start } => VectorOut::VectorFail(
            ErrorKind::UnclosedString,
            start,
            s.len() as int,
        ),
        LexOut::UnclosedComment { start } => VectorOut::VectorFail(
            ErrorKind::UnclosedComment,
            start,
            s.len() as int,
        ),
        LexOut::Tok { kind, start, end } => {
            if kind == TokenKind::RightBracket {
                VectorOut::Items(Seq::empty())
            } else {
                match value_extent(s, kind, start, end) {
                    ScanOut::Fail(k, a, b) => VectorOut::VectorFail(k, a, b),
                    ScanOut::Done(_a, vend) => {
                        proof {
                            lemma_next_element_token_bounds(s, pos);
                            lemma_value_extent_bounds(s, kind, start, end);
                        }
                        match vector_items(s, vend) {
                            VectorOut::Items(rest) => VectorOut::Items(
                                seq![(start, vend)] + rest,
                            ),
                            fail => fail,
                        }
                    },
                }
            }
        },
    }
}

/// What [`table`] returns on a node with the given span: the node's
/// trimmed text must start with `{`, the first token must be the opening
/// brace, and the entries follow [`table_items`].
pub open spec fn table_spec(s: Seq<char>, span: Span) -> TableOut {
    let raw = s.subrange(span.start as int, span.spec_end());
    let t = spec_trim(raw);
    if t.len() == 0 || t[0] != '{' {
        TableOut::TableFail(ErrorKind::NotATable, span.start as int, span.spec_end())
    } else {
        match lex_at(s, span.start as int) {
            LexOut::UnclosedString { start } => TableOut::TableFail(
                ErrorKind::UnclosedString,
                start,
                s.len() as int,
            ),
            LexOut::UnclosedComment { start } => TableOut::TableFail(
                ErrorKind::UnclosedComment,
                start,
                s.len() as int,
            ),
            LexOut::Tok { kind, start, end } => {
                if kind != TokenKind::LeftBrace {
                    TableOut::TableFail(ErrorKind::NotATable, span.start as int, span.spec_end())
                } else {
                    table_items(s, end)
                }
            },
        }
    }
}

/// What [`vector`] returns on a node with the given span, mirroring
/// [`table_spec`] with brackets.
pub open spec fn vector_spec(s: Seq<char>, span: Span) -> VectorOut {
    let raw = s.subrange(span.start as int, span.spec_end());
    let t = spec_trim(raw);
    if t.len() == 0 || t[0] != '[' {
        VectorOut::VectorFail(ErrorKind::NotAVector, span.start as int, span.spec_end())
    } else {
        match lex_at(s, span.start as int) {
            LexOut::UnclosedString { start } => VectorOut::VectorFail(
                ErrorKind::UnclosedString,
                start,
                s.len() as int,
            ),
            LexOut::UnclosedComment { start } => VectorOut::VectorFail(
                ErrorKind::UnclosedComment,
                start,
                s.len() as int,
            ),
            LexOut::Tok { kind, start, end } => {
                if kind != TokenKind::LeftBracket {
                    VectorOut::VectorFail(
                        ErrorKind::NotAVector,
                        span.start as int,
                        span.spec_end(),
                    )
                } else {
                    vector_items(s, end)
                }
            },
        }
    }
}

pub proof fn lemma_next_element_token_bounds(s: Seq<char>, pos: int)
    requires
        0 <= pos <= s.len(),
    ensures
        next_element_token(s, pos) matches LexOut::Tok { kind, start, end } ==> pos <= start <= end
            <= s.len() && (kind == TokenKind::Eof <==> start == end) && kind != TokenKind::Newline
            && kind != TokenKind::Comma,
        next_element_token(s, pos) matches LexOut::UnclosedString { start } ==> pos <= start
            < s.len(),
        next_element_token(s, pos) matches LexOut::UnclosedComment { start } ==> pos <= start
            < s.len(),
    decreases s.len() - pos,
{
    lemma_lex_at_bounds(s, pos);
    match lex_at(s, pos) {
        LexOut::Tok { kind, start, end } => {
            if kind == TokenKind::Newline || kind == TokenKind::Comma {
                lemma_next_element_token_bounds(s, end);
            }
        },
        _ => {},
    }
}

pub proof fn lemma_balanced_end_bounds(s: Seq<char>, pos: int, depth: int)
    requires
        0 <= pos <= s.len(),
        depth >= 1,
    ensures
        balanced_end(s, pos, depth) matches ScanOut::Done(a, b) ==> pos <= a < b <= s.len(),
        balanced_end(s, pos, depth) matches ScanOut::Fail(_k, a, b) ==> 0 <= a <= b <= s.len(),
    decreases s.len() - pos,
{
    lemma_lex_at_bounds(s, pos);
    match lex_at(s, pos) {
        LexOut::Tok { kind, start, end } => {
            if kind == TokenKind::Eof {
            } else if kind == TokenKind::LeftBrace || kind == TokenKind::LeftBracket {
                lemma_balanced_end_bounds(s, end, depth + 1);
            } else if kind == TokenKind::RightBrace || kind == TokenKind::RightBracket {
                if depth != 1 {
                    lemma_balanced_end_bounds(s, end, depth - 1);
                }
            } else {
                lemma_balanced_end_bounds(s, end, depth);
            }
        },
        _ => {},
    }
}

/// The character range a node covers, as a pair of indices.
pub open spec fn span_pair<'a>(n: Node<'a>) -> (int, int) {
    (n.spec_span().start as int, n.spec_span().spec_end())
}

/// The mapping that a sequence of key/value entries stands for: later
/// entries override earlier ones.
spec fn map_of<'a>(entries: Seq<(String, Node<'a>)>) -> Map<Seq<char>, (int, int)>
    decreases entries.len(),
{
    if entries.len() == 0 {
        Map::empty()
    } else {
        map_of(entries.drop_last()).insert(entries.last().0@, span_pair(entries.last().1))
    }
}

/// Some entry holds the key `k`.
spec fn has_key<'a>(entries: Seq<(String, Node<'a>)>, k: Seq<char>) -> bool {
    exists|i: int| 0 <= i < entries.len() && (#[trigger] entries[i]).0@ == k
}

/// No two entries hold the same key.
spec fn unique_keys<'a>(entries: Seq<(String, Node<'a>)>) -> bool {
    forall|i: int, j: int|
        0 <= i < j < entries.len() ==> (#[trigger] entries[i]).0@ != (#[trigger] entries[j]).0@
}

proof fn lemma_map_of_contains<'a>(entries: Seq<(String, Node<'a>)>, k: Seq<char>)
    ensures
        map_of(entries).dom().contains(k) <==> has_key(entries, k),
    decreases entries.len(),
{
    if entries.len() > 0 {
        let pre = entries.drop_last();
        lemma_map_of_contains(pre, k);
        if entries.last().0@ == k {
            assert(entries[entries.len() - 1].0@ == k);
        } else {
            if has_key(pre, k) {
                let i = choose|i: int| 0 <= i < pre.len() && (#[trigger] pre[i]).0@ == k;
                assert(entries[i].0@ == k);
            }
            if has_key(entries, k) {
                let i = choose|i: int|
                    0 <= i < entries.len() && (#[trigger] entries[i]).0@ == k;
                assert(pre[i] == entries[i]);
            }
        }
    }
}

proof fn lemma_map_of_index<'a>(entries: Seq<(String, Node<'a>)>, i: int)
    requires
        unique_keys(entries),
        0 <= i < entries.len(),
    ensures
        map_of(entries).dom().contains(entries[i].0@),
        map_of(entries)[entries[i].0@] == span_pair(entries[i].1),
    decreases entries.len(),
{
    if i < entries.len() - 1 {
        let pre = entries.drop_last();
        assert(pre[i] == entries[i]);
        lemma_map_of_index(pre, i);
        assert(entries[entries.len() - 1].0@ != entries[i].0@);
    }
}

proof fn lemma_map_of_remove<'a>(entries: Seq<(String, Node<'a>)>, i: int)
    requires
        unique_keys(entries),
        0 <= i < entries.len(),
    ensures
        map_of(entries.remove(i)) == map_of(entries).remove(entries[i].0@),
    decreases entries.len(),
{
    let k = entries[i].0@;
    let pre = entries.drop_last();
    if i == entries.len() - 1 {
        assert(entries.remove(i) =~= pre);
        assert(forall|j: int| 0 <= j < pre.len() ==> (#[trigger] pre[j]).0@ != k);
        lemma_map_of_contains(pre, k);
        assert(!map_of(pre).dom().contains(k));
        assert(map_of(pre).insert(k, span_pair(entries[i].1)).remove(k) =~= map_of(pre));
    } else {
        assert(unique_keys(pre)) by {
            assert(forall|a: int, b: int|
                0 <= a < b < pre.len() ==> (#[trigger] pre[a]).0@ != (#[trigger] pre[b]).0@)
                by {
                assert(forall|a: int| 0 <= a < pre.len() ==> pre[a] == entries[a]);
            }
        }
        assert(pre[i] == entries[i]);
        lemma_map_of_remove(pre, i);
        assert(entries.remove(i).drop_last() =~= pre.remove(i));
        assert(entries.remove(i).last() == entries.last());
        let klast = entries.last().0@;
        assert(klast != k);
        assert(map_of(pre).remove(k).insert(klast, span_pair(entries.last().1)) =~= map_of(
            pre,
        ).insert(klast, span_pair(entries.last().1)).remove(k));
    }
}

proof fn lemma_map_of_len<'a>(entries: Seq<(String, Node<'a>)>)
    requires
        unique_keys(entries),
    ensures
        map_of(entries).dom().finite(),
        map_of(entries).dom().len() == entries.len(),
    decreases entries.len(),
{
    if entries.len() == 0 {
        assert(map_of(entries).dom() =~= Set::empty());
    } else {
        let pre = entries.drop_last();
        let k = entries.last().0@;
        assert(unique_keys(pre)) by {
            assert(forall|a: int| 0 <= a < pre.len() ==> pre[a] == entries[a]);
        }
        lemma_map_of_len(pre);
        assert(forall|j: int| 0 <= j < pre.len() ==> (#[trigger] pre[j]).0@ != k);
        lemma_map_of_contains(pre, k);
        assert(!map_of(pre).dom().contains(k));
        assert(map_of(entries).dom() =~= map_of(pre).dom().insert(k));
    }
}

/// The materialized entries of a table: decoded keys, each mapped to a
/// node covering its value (last occurrence of a repeated key wins).
#[derive(Debug)]
pub struct Table<'a> {
    /// The complete source document the value nodes point into.
    source: &'a str,
    /// The entries, with pairwise distinct keys.
    entries: Vec<(String, Node<'a>)>,
}

impl<'a> View for Table<'a> {
    type V = Map<Seq<char>, (int, int)>;

    /// The mapping from each key's characters to the character range of
    /// its value in the source.
    closed spec fn view(&self) -> Map<Seq<char>, (int, int)> {
        map_of(self.entries@)
    }
}

impl<'a> Table<'a> {
    /// The characters of the source document the values point into.
    pub closed spec fn src(&self) -> Seq<char> {
        self.source@
    }

    /// Keys are pairwise distinct, and every value node is a well-formed
    /// view into the table's source.
    pub closed spec fn wf(&self) -> bool {
        &&& unique_keys(self.entries@)
        &&& forall|i: int|
            0 <= i < self.entries@.len() ==> (#[trigger] self.entries@[i]).1.src()
                == self.source@ && self.entries@[i].1.wf()
    }

    /// An empty table over the given source.
    fn empty(source: &'a str) -> (r: Table<'a>)
        ensures
            r.wf(),
            r.src() == source@,
            r@ == Map::<Seq<char>, (int, int)>::empty(),
    {
        Table { source, entries: Vec::new() }
    }

    /// Record an entry, replacing any entry already under the same key.
    fn put(&mut self, key: String, node: Node<'a>)
        requires
            old(self).wf(),
            node.src() == old(self).src(),
            node.wf(),
        ensures
            final(self).wf(),
            final(self).src() == old(self).src(),
            final(self)@ == old(self)@.insert(key@, span_pair(node)),
    {
        let n = self.entries.len();
        let mut i: usize = 0;
        loop
            invariant
                0 <= i <= n,
                n == self.entries@.len(),
                self == old(self),
                old(self).wf(),
                node.src() == old(self).src(),
                node.wf(),
                forall|j: int| 0 <= j < i ==> (#[trigger] self.entries@[j]).0@ != key@,
            ensures
                self == old(self),
                forall|j: int| 0 <= j < self.entries@.len()
                    ==> (#[trigger] self.entries@[j]).0@ != key@,
            decreases n - i,
        {
            if i >= n {
                break;
            }
            let pair = &self.entries[i];
            if str_eq(pair.0.as_str(), key.as_str()) {
                proof {
                    lemma_map_of_remove(self.entries@, i as int);
                    lemma_map_of_contains(self.entries@.remove(i as int), key@);
                }
                let _removed = self.entries.remove(i);
                proof {
                    assert(forall|a: int|
                        0 <= a < self.entries@.len() ==> #[trigger] self.entries@[a] == (if a
                            < i {
                            old(self).entries@[a]
                        } else {
                            old(self).entries@[a + 1]
                        }));
                    assert(forall|j: int|
                        0 <= j < self.entries@.len() ==> (#[trigger] self.entries@[j]).0@
                            != key@);
                    assert(unique_keys(self.entries@));
                    assert forall|a: int| 0 <= a < self.entries@.len() implies (
                        #[trigger] self.entries@[a]).1.src() == self.source@
                        && self.entries@[a].1.wf() by {
                        if a < i {
                            assert(self.entries@[a] == old(self).entries@[a]);
                            assert((old(self).entries@[a]).1.src() == old(self).source@);
                        } else {
                            assert(self.entries@[a] == old(self).entries@[a + 1]);
                            assert((old(self).entries@[a + 1]).1.src() == old(self).source@);
                        }
                    }
                }
                let ghost mid = self.entries@;
                self.entries.push((key, node));
                proof {
                    assert(forall|a: int|
                        0 <= a < mid.len() ==> #[trigger] self.entries@[a] == mid[a]);
                    assert(self.entries@[self.entries@.len() - 1] == (key, node));
                    assert(unique_keys(self.entries@));
                    assert forall|a: int| 0 <= a < self.entries@.len() implies (
                        #[trigger] self.entries@[a]).1.src() == self.source@
                        && self.entries@[a].1.wf() by {
                        if a < mid.len() {
                            assert(self.entries@[a] == mid[a]);
                            assert(mid[a].1.src() == self.source@);
                            assert(mid[a].1.wf());
                            assert(self.entries@[a].1.src() == self.source@);
                            assert(self.entries@[a].1.wf());
                        } else {
                            assert(a == mid.len());
                            assert(self.entries@[a] == (key, node));
                            assert(node.src() == old(self).src());
                            assert(old(self).src() == self.source@);
                            assert(self.entries@[a].1.src() == self.source@);
                            assert(node.wf());
                            assert(self.entries@[a].1.wf());
                        }
                    }
                    assert(self.entries@.drop_last() =~= mid);
                    assert(map_of(self.entries@) == map_of(mid).insert(key@, span_pair(node)));
                    assert(map_of(mid) == old(self)@.remove(old(self).entries@[i as int].0@));
                    assert(old(self).entries@[i as int].0@ == key@);
                    assert(map_of(self.entries@) =~= old(self)@.insert(key@, span_pair(node)));
                }
                return ;
            }
            i = i + 1;
        }
        proof {
            lemma_map_of_contains(self.entries@, key@);
        }
        let ghost pre = self.entries@;
        self.entries.push((key, node));
        proof {
            assert(self.entries@.drop_last() =~= pre);
            assert(map_of(self.entries@) == map_of(pre).insert(key@, span_pair(node)));
        }
    }

    /// The number of entries (distinct keys) in the table.
    pub fn len(&self) -> (r: usize)
        requires
            self.wf(),
        ensures
            r == self@.dom().len(),
    {
        proof {
            lemma_map_of_len(self.entries@);
        }
        self.entries.len()
    }

    /// Look up the value node recorded under `key`.
    pub fn get(&self, key: &str) -> (r: Option<&Node<'a>>)
        requires
            self.wf(),
        ensures
            match r {
                Some(n) => self@.dom().contains(key@) && n.src() == self.src() && n.wf()
                    && span_pair(*n) == self@[key@],
                None => !self@.dom().contains(key@),
            },
    {
        let n = self.entries.len();
        let mut i: usize = 0;
        loop
            invariant
                0 <= i <= n,
                n == self.entries@.len(),
                self.wf(),
                forall|j: int| 0 <= j < i ==> (#[trigger] self.entries@[j]).0@ != key@,
            ensures
                forall|j: int| 0 <= j < self.entries@.len()
                    ==> (#[trigger] self.entries@[j]).0@ != key@,
            decreases n - i,
        {
            if i >= n {
                break;
            }
            let pair = &self.entries[i];
            if str_eq(pair.0.as_str(), key) {
                proof {
                    lemma_map_of_index(self.entries@, i as int);
                }
                return Some(&pair.1);
            }
            i = i + 1;
        }
        proof {
            lemma_map_of_contains(self.entries@, key@);
        }
        None
    }
}

pub proof fn lemma_value_extent_bounds(s: Seq<char>, kind: TokenKind, start: int, end: int)
    requires
        0 <= start <= end <= s.len(),
        kind == TokenKind::Eof <==> start == end,
    ensures
        value_extent(s, kind, start, end) matches ScanOut::Done(a, b) ==> a == start && start < b
            <= s.len() && end <= b,
        value_extent(s, kind, start, end) matches ScanOut::Fail(_k, a, b) ==> 0 <= a <= b
            <= s.len(),
{
    if kind == TokenKind::LeftBrace || kind == TokenKind::LeftBracket {
        lemma_balanced_end_bounds(s, end, 1);
    }
}

/// Scan forward with one container open (its opening token already
/// consumed), until the nesting depth returns to zero: the span of the
/// closing token.
#[verifier::loop_isolation(false)]
fn parse_balanced(lexer: &mut Lexer<'_>) -> (r: Result<Span, Error>)
    requires
        old(lexer).wf(),
        1 <= old(lexer).spec_pos() <= old(lexer).src().len(),
    ensures
        final(lexer).wf(),
        final(lexer).src() == old(lexer).src(),
        match balanced_end(old(lexer).src(), old(lexer).spec_pos(), 1) {
            ScanOut::Done(a, b) => r == Ok::<Span, Error>(spec_span(a, b))
                && final(lexer).spec_pos() == b,
            ScanOut::Fail(k, a, b) => r == Err::<Span, Error>(spec_error(k, a, b)),
        },
{
    let ghost s = lexer.src();
    let ghost p0 = lexer.spec_pos();
    let mut depth: usize = 1;
    loop
        invariant
            lexer.wf(),
            lexer.src() == s,
            s == old(lexer).src(),
            p0 == old(lexer).spec_pos(),
            1 <= depth,
            depth <= lexer.spec_pos(),
            lexer.spec_pos() <= s.len(),
            balanced_end(s, p0, 1) == balanced_end(s, lexer.spec_pos(), depth as int),
        decreases s.len() - lexer.spec_pos(),
    {
        let ghost cur = lexer.spec_pos();
        let tok = match lexer.next_token() {
            Ok(t) => t,
            Err(e) => {
                return Err(e);
            },
        };
        proof {
            lemma_lex_at_bounds(s, cur);
            lexer.lemma_wf();
        }
        match tok.kind {
            TokenKind::Eof => {
                return Err(Error::new(ErrorKind::UnexpectedEof, tok.span));
            },
            TokenKind::LeftBrace | TokenKind::LeftBracket => {
                depth = depth + 1;
            },
            TokenKind::RightBrace | TokenKind::RightBracket => {
                if depth == 1 {
                    return Ok(tok.span);
                }
                depth = depth - 1;
            },
            _ => {},
        }
    }
}

/// Parse a node as a table and materialize all its entries.
///
/// The node's trimmed text must begin with `{`; the entries found, their
/// spans, and the error on every failing input are given by
/// [`table_spec`].
pub fn table<'a>(node: &Node<'a>) -> (r: Result<Table<'a>, Error>)
    requires
        node.wf(),
    ensures
        match table_spec(node.src(), node.spec_span()) {
            TableOut::Entries(m) => r matches Ok(t) && t.wf() && t.src() == node.src() && t@ == m,
            TableOut::TableFail(k, a, b) => r == Err::<Table<'a>, Error>(spec_error(k, a, b)),
        },
{
    let raw = node.raw();
    let t = trim_str(raw);
    let tlen = t.unicode_len();
    if tlen == 0 {
        return Err(Error::new(ErrorKind::NotATable, node.span()));
    }
    if t.get_char(0) != '{' {
        return Err(Error::new(ErrorKind::NotATable, node.span()));
    }
    let source = node.source();
    let total = source.unicode_len();
    let ghost s = node.src();
    let mut lexer = Lexer::new(source);
    let sp = node.span();
    lexer.set_pos(sp.start);
    let tok0 = match lexer.next_token() {
        Ok(tk) => tk,
        Err(e) => {
            return Err(e);
        },
    };
    if tok0.kind != TokenKind::LeftBrace {
        return Err(Error::new(ErrorKind::NotATable, node.span()));
    }
    let mut result = Table::empty(source);
    let ghost p0 = lexer.spec_pos();
    proof {
        lexer.lemma_wf();
        assert(raw@ == node.raw_spec());
        assert(t@ == spec_trim(node.raw_spec()));
        assert(t@.len() > 0 && t@[0] == '{');
        assert(lex_at(s, sp.start as int) matches LexOut::Tok { kind, start, end } && kind
            == TokenKind::LeftBrace && end == p0);
        assert(table_spec(node.src(), node.spec_span()) == table_items(s, p0));
        match table_items(s, p0) {
            TableOut::Entries(m2) => {
                assert(Map::<Seq<char>, (int, int)>::empty().union_prefer_right(m2) =~= m2);
            },
            _ => {},
        }
    }
    loop
        invariant
            lexer.wf(),
            lexer.src() == s,
            s == node.src(),
            source@ == s,
            total == s.len(),
            node.wf(),
            0 <= p0 <= lexer.spec_pos() <= s.len(),
            result.wf(),
            result.src() == s,
            table_spec(node.src(), node.spec_span()) == table_items(s, p0),
            match table_items(s, lexer.spec_pos()) {
                TableOut::Entries(m2) => table_items(s, p0) == TableOut::Entries(
                    result@.union_prefer_right(m2),
                ),
                TableOut::TableFail(k, a, b) => table_items(s, p0) == table_items(
                    s,
                    lexer.spec_pos(),
                ),
            },
        decreases s.len() - lexer.spec_pos(),
    {
        let ghost p_iter = lexer.spec_pos();
        let ghost mut tpos = lexer.spec_pos();
        let mut tok = match lexer.next_token() {
            Ok(tk) => tk,
            Err(e) => {
                return Err(e);
            },
        };
        proof {
            lemma_lex_at_bounds(s, p_iter);
        }
        loop
            invariant_except_break
                next_element_token(s, p_iter) == next_element_token(s, tpos),
            invariant
                lexer.wf(),
                lexer.src() == s,
                s == node.src(),
                total == s.len(),
                node.wf(),
                result.wf(),
                result.src() == s,
                0 <= p0 <= p_iter,
                0 <= p_iter <= tpos <= s.len(),
                table_spec(node.src(), node.spec_span()) == table_items(s, p0),
                match table_items(s, p_iter) {
                    TableOut::Entries(m2) => table_items(s, p0) == TableOut::Entries(
                        result@.union_prefer_right(m2),
                    ),
                    TableOut::TableFail(k, a, b) => table_items(s, p0) == table_items(s, p_iter),
                },
                lex_at(s, tpos) == (LexOut::Tok {
                    kind: tok.kind,
                    start: tok.span.start as int,
                    end: tok.span.start + tok.span.len,
                }),
                lexer.spec_pos() == tok.span.start + tok.span.len,
            ensures
                lexer.wf(),
                lexer.src() == s,
                0 <= p_iter <= tpos <= s.len(),
                tok.kind != TokenKind::Newline && tok.kind != TokenKind::Comma,
                next_element_token(s, p_iter) == (LexOut::Tok {
                    kind: tok.kind,
                    start: tok.span.start as int,
                    end: tok.span.start + tok.span.len,
                }),
                lex_at(s, tpos) == (LexOut::Tok {
                    kind: tok.kind,
                    start: tok.span.start as int,
                    end: tok.span.start + tok.span.len,
                }),
                lexer.spec_pos() == tok.span.start + tok.span.len,
            decreases s.len() - lexer.spec_pos(), (if tok.kind == TokenKind::Eof {
                0int
            } else {
                1int
            }),
        {
            if tok.kind == TokenKind::Newline || tok.kind == TokenKind::Comma {
                proof {
                    lemma_lex_at_bounds(s, tpos);
                    tpos = lexer.spec_pos();
                }
                tok = match lexer.next_token() {
                    Ok(tk) => tk,
                    Err(e) => {
                        return Err(e);
                    },
                };
                proof {
                    lemma_lex_at_bounds(s, tpos);
                }
            } else {
                break;
            }
        }
        let ghost ks = tok.span.start as int;
        let ghost ke = tok.span.start + tok.span.len;
        proof {
            lemma_lex_at_bounds(s, tpos);
        }
        if tok.kind == TokenKind::RightBrace {
            proof {
                assert(table_items(s, p_iter) == TableOut::Entries(
                    Map::<Seq<char>, (int, int)>::empty(),
                ));
                assert(result@.union_prefer_right(Map::<Seq<char>, (int, int)>::empty())
                    =~= result@);
            }
            return Ok(result);
        }
        let key: String;
        if tok.kind == TokenKind::String {
            let key_node = Node::new(source, tok.span);
            key = match text(&key_node) {
                Ok(k) => k,
                Err(e) => {
                    return Err(e);
                },
            };
        } else if tok.kind == TokenKind::Scalar {
            key = tok.span.extract(source).to_owned();
        } else {
            return Err(Error::new(ErrorKind::ExpectedChar(':'), tok.span));
        }
        let ghost cpos = lexer.spec_pos();
        let ctok = match lexer.next_token() {
            Ok(tk) => tk,
            Err(e) => {
                return Err(e);
            },
        };
        proof {
            lemma_lex_at_bounds(s, cpos);
        }
        if ctok.kind != TokenKind::Colon {
            return Err(Error::new(ErrorKind::ExpectedChar(':'), ctok.span));
        }
        let ghost vpos = lexer.spec_pos();
        let vtok = match lexer.next_token() {
            Ok(tk) => tk,
            Err(e) => {
                return Err(e);
            },
        };
        proof {
            lemma_lex_at_bounds(s, vpos);
        }
        let ghost vs = vtok.span.start as int;
        let ghost ve = vtok.span.start + vtok.span.len;
        let close_span: Span;
        match vtok.kind {
            TokenKind::LeftBrace | TokenKind::LeftBracket => {
                close_span = match parse_balanced(&mut lexer) {
                    Ok(sp2) => sp2,
                    Err(e) => {
                        return Err(e);
                    },
                };
                proof {
                    lemma_balanced_end_bounds(s, ve, 1);
                }
            },
            TokenKind::String | TokenKind::Scalar => {
                close_span = vtok.span;
            },
            _ => {
                let ch = if vtok.span.len == 0 {
                    ' '
                } else {
                    source.get_char(vtok.span.start)
                };
                return Err(Error::new(ErrorKind::UnexpectedChar(ch), vtok.span));
            },
        }
        let vstart = vtok.span.start;
        let vend = close_span.start + close_span.len;
        let value_node = Node::new(source, Span::new(vstart, vend - vstart));
        proof {
            lemma_value_extent_bounds(s, vtok.kind, vs, ve);
            assert(value_extent(s, vtok.kind, vs, ve) == ScanOut::Done(vs, vend as int));
            let m_old = result@;
            let val = (vs, vend as int);
            match table_items(s, vend as int) {
                TableOut::Entries(rest) => {
                    assert(table_items(s, p_iter) == TableOut::Entries(
                        if rest.dom().contains(key@) {
                            rest
                        } else {
                            rest.insert(key@, val)
                        },
                    ));
                    assert(m_old.union_prefer_right(
                        if rest.dom().contains(key@) {
                            rest
                        } else {
                            rest.insert(key@, val)
                        },
                    ) =~= m_old.insert(key@, val).union_prefer_right(rest));
                },
                TableOut::TableFail(k, a, b) => {
                    assert(table_items(s, p_iter) == table_items(s, vend as int));
                },
            }
        }
        result.put(key, value_node);
    }
}

/// The nodes stand for the given character ranges, in order, all within
/// the same source.
pub open spec fn nodes_match<'a>(nodes: Seq<Node<'a>>, items: Seq<(int, int)>, src: Seq<char>) -> bool {
    &&& nodes.len() == items.len()
    &&& forall|i: int|
        0 <= i < nodes.len() ==> (#[trigger] nodes[i]).src() == src && nodes[i].wf() && span_pair(
            nodes[i],
        ) == items[i]
}

/// The character ranges of a sequence of nodes, in order.
spec fn spans_of<'a>(nodes: Seq<Node<'a>>) -> Seq<(int, int)> {
    Seq::new(nodes.len(), |i: int| span_pair(nodes[i]))
}

/// Parse a node as a vector and return all its elements, in order.
///
/// The node's trimmed text must begin with `[`; the elements found, their
/// spans, and the error on every failing input are given by
/// [`vector_spec`].
pub fn vector<'a>(node: &Node<'a>) -> (r: Result<Vec<Node<'a>>, Error>)
    requires
        node.wf(),
    ensures
        match vector_spec(node.src(), node.spec_span()) {
            VectorOut::Items(items) => r matches Ok(v) && nodes_match(v@, items, node.src()),
            VectorOut::VectorFail(k, a, b) => r == Err::<Vec<Node<'a>>, Error>(
                spec_error(k, a, b),
            ),
        },
{
    let raw = node.raw();
    let t = trim_str(raw);
    let tlen = t.unicode_len();
    if tlen == 0 {
        return Err(Error::new(ErrorKind::NotAVector, node.span()));
    }
    if t.get_char(0) != '[' {
        return Err(Error::new(ErrorKind::NotAVector, node.span()));
    }
    let source = node.source();
    let total = source.unicode_len();
    let ghost s = node.src();
    let mut lexer = Lexer::new(source);
    let sp = node.span();
    lexer.set_pos(sp.start);
    let tok0 = match lexer.next_token() {
        Ok(tk) => tk,
        Err(e) => {
            return Err(e);
        },
    };
    if tok0.kind != TokenKind::LeftBracket {
        return Err(Error::new(ErrorKind::NotAVector, node.span()));
    }
    let mut result: Vec<Node<'a>> = Vec::new();
    let ghost p0 = lexer.spec_pos();
    proof {
        lexer.lemma_wf();
        assert(raw@ == node.raw_spec());
        assert(t@ == spec_trim(node.raw_spec()));
        assert(t@.len() > 0 && t@[0] == '[');
        assert(lex_at(s, sp.start as int) matches LexOut::Tok { kind, start, end } && kind
            == TokenKind::LeftBracket && end == p0);
        assert(vector_spec(node.src(), node.spec_span()) == vector_items(s, p0));
        match vector_items(s, p0) {
            VectorOut::Items(rest) => {
                assert(spans_of(result@) + rest =~= rest);
            },
            _ => {},
        }
    }
    loop
        invariant
            lexer.wf(),
            lexer.src() == s,
            s == node.src(),
            source@ == s,
            total == s.len(),
            node.wf(),
            0 <= p0 <= lexer.spec_pos() <= s.len(),
            forall|i: int|
                0 <= i < result@.len() ==> (#[trigger] result@[i]).src() == s
                    && result@[i].wf(),
            vector_spec(node.src(), node.spec_span()) == vector_items(s, p0),
            match vector_items(s, lexer.spec_pos()) {
                VectorOut::Items(rest) => vector_items(s, p0) == VectorOut::Items(
                    spans_of(result@) + rest,
                ),
                VectorOut::VectorFail(k, a, b) => vector_items(s, p0) == vector_items(
                    s,
                    lexer.spec_pos(),
                ),
            },
        decreases s.len() - lexer.spec_pos(),
    {
        let ghost p_iter = lexer.spec_pos();
        let ghost mut tpos = lexer.spec_pos();
        let mut tok = match lexer.next_token() {
            Ok(tk) => tk,
            Err(e) => {
                return Err(e);
            },
        };
        proof {
            lemma_lex_at_bounds(s, p_iter);
        }
        loop
            invariant_except_break
                next_element_token(s, p_iter) == next_element_token(s, tpos),
            invariant
                lexer.wf(),
                lexer.src() == s,
                s == node.src(),
                total == s.len(),
                node.wf(),
                forall|i: int|
                    0 <= i < result@.len() ==> (#[trigger] result@[i]).src() == s
                        && result@[i].wf(),
                0 <= p0 <= p_iter,
                0 <= p_iter <= tpos <= s.len(),
                vector_spec(node.src(), node.spec_span()) == vector_items(s, p0),
                match vector_items(s, p_iter) {
                    VectorOut::Items(rest) => vector_items(s, p0) == VectorOut::Items(
                        spans_of(result@) + rest,
                    ),
                    VectorOut::VectorFail(k, a, b) => vector_items(s, p0) == vector_items(
                        s,
                        p_iter,
                    ),
                },
                lex_at(s, tpos) == (LexOut::Tok {
                    kind: tok.kind,
                    start: tok.span.start as int,
                    end: tok.span.start + tok.span.len,
                }),
                lexer.spec_pos() == tok.span.start + tok.span.len,
            ensures
                lexer.wf(),
                lexer.src() == s,
                0 <= p_iter <= tpos <= s.len(),
                tok.kind != TokenKind::Newline && tok.kind != TokenKind::Comma,
                next_element_token(s, p_iter) == (LexOut::Tok {
                    kind: tok.kind,
                    start: tok.span.start as int,
                    end: tok.span.start + tok.span.len,
                }),
                lex_at(s, tpos) == (LexOut::Tok {
                    kind: tok.kind,
                    start: tok.span.start as int,
                    end: tok.span.start + tok.span.len,
                }),
                lexer.spec_pos() == tok.span.start + tok.span.len,
            decreases s.len() - lexer.spec_pos(), (if tok.kind == TokenKind::Eof {
                0int
            } else {
                1int
            }),
        {
            if tok.kind == TokenKind::Newline || tok.kind == TokenKind::Comma {
                proof {
                    lemma_lex_at_bounds(s, tpos);
                    tpos = lexer.spec_pos();
                }
                tok = match lexer.next_token() {
                    Ok(tk) => tk,
                    Err(e) => {
                        return Err(e);
                    },
                };
                proof {
                    lemma_lex_at_bounds(s, tpos);
                }
            } else {
                break;
            }
        }
        proof {
            lemma_lex_at_bounds(s, tpos);
        }
        if tok.kind == TokenKind::RightBracket {
            proof {
                assert(vector_items(s, p_iter) == VectorOut::Items(Seq::<(int, int)>::empty()));
                assert(spans_of(result@) + Seq::<(int, int)>::empty() =~= spans_of(result@));
                assert(nodes_match(result@, spans_of(result@), s));
            }
            return Ok(result);
        }
        let ghost vs = tok.span.start as int;
        let ghost ve = tok.span.start + tok.span.len;
        let close_span: Span;
        match tok.kind {
            TokenKind::LeftBrace | TokenKind::LeftBracket => {
                close_span = match parse_balanced(&mut lexer) {
                    Ok(sp2) => sp2,
                    Err(e) => {
                        return Err(e);
                    },
                };
                proof {
                    lemma_balanced_end_bounds(s, ve, 1);
                }
            },
            TokenKind::String | TokenKind::Scalar => {
                close_span = tok.span;
            },
            _ => {
                let ch = if tok.span.len == 0 {
                    ' '
                } else {
                    source.get_char(tok.span.start)
                };
                return Err(Error::new(ErrorKind::UnexpectedChar(ch), tok.span));
            },
        }
        let vstart = tok.span.start;
        let vend = close_span.start + close_span.len;
        let value_node = Node::new(source, Span::new(vstart, vend - vstart));
        proof {
            lemma_value_extent_bounds(s, tok.kind, vs, ve);
            assert(value_extent(s, tok.kind, vs, ve) == ScanOut::Done(vs, vend as int));
            let val = (vs, vend as int);
            match vector_items(s, vend as int) {
                VectorOut::Items(rest) => {
                    assert(vector_items(s, p_iter) == VectorOut::Items(seq![val] + rest));
                    assert(spans_of(result@.push(value_node)) =~= spans_of(result@).push(val));
                    assert(spans_of(result@) + (seq![val] + rest) =~= spans_of(
                        result@,
                    ).push(val) + rest);
                },
                VectorOut::VectorFail(k, a, b) => {
                    assert(vector_items(s, p_iter) == vector_items(s, vend as int));
                },
            }
        }
        result.push(value_node);
    }
}

/// Look up one table entry by key, without handing back the rest.
///
/// The result is the same as materializing the table with [`table`] and
/// looking the key up; a missing key is `KeyNotFound`.
pub fn tab<'a>(node: &Node<'a>, key: &str) -> (r: Result<Node<'a>, Error>)
    requires
        node.wf(),
    ensures
        match table_spec(node.src(), node.spec_span()) {
            TableOut::Entries(m) => {
                if m.dom().contains(key@) {
                    r matches Ok(n) && n.src() == node.src() && n.wf() && span_pair(n) == m[key@]
                } else {
                    r matches Err(e) && e.kind matches ErrorKind::KeyNotFound(k) && k@ == key@
                        && e.span == node.spec_span()
                }
            },
            TableOut::TableFail(k, a, b) => r == Err::<Node<'a>, Error>(spec_error(k, a, b)),
        },
{
    let tbl = match table(node) {
        Ok(t) => t,
        Err(e) => {
            return Err(e);
        },
    };
    match tbl.get(key) {
        Some(n) => Ok(*n),
        None => Err(Error::new(ErrorKind::KeyNotFound(key.to_owned()), node.span())),
    }
}

/// Look up one vector element by index, without handing back the rest.
///
/// The result is the same as materializing the vector with [`vector`] and
/// indexing into it; an index past the end is `IndexOutOfBounds`.
pub fn vec<'a>(node: &Node<'a>, index: usize) -> (r: Result<Node<'a>, Error>)
    requires
        node.wf(),
    ensures
        match vector_spec(node.src(), node.spec_span()) {
            VectorOut::Items(items) => {
                if index < items.len() {
                    r matches Ok(n) && n.src() == node.src() && n.wf() && span_pair(n) == items[
                        index as int
                    ]
                } else {
                    r matches Err(e) && e.kind matches ErrorKind::IndexOutOfBounds(i) && i
                        == index && e.span == node.spec_span()
                }
            },
            VectorOut::VectorFail(k, a, b) => r == Err::<Node<'a>, Error>(spec_error(k, a, b)),
        },
{
    let v = match vector(node) {
        Ok(v) => v,
        Err(e) => {
            return Err(e);
        },
    };
    if index < v.len() {
        Ok(v[index])
    } else {
        Err(Error::new(ErrorKind::IndexOutOfBounds(index), node.span()))
    }
}

} // verus!
