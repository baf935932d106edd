//! The document entry point.
//!
//! [`document`] scans the whole source once, finds the first and last
//! substantive tokens, and returns a root [`Node`] covering them.  Nothing
//! further is parsed: navigation happens lazily on the returned node.

use vstd::prelude::*;

use crate::error::{Error, ErrorKind};
use crate::lexer::{
    lemma_lex_at_bounds, lex_at, spec_error, spec_span, LexOut, Lexer, TokenKind,
};
use crate::node::Node;
use crate::span::Span;

verus! {

/// The first token at or after `pos` that is not a newline, or the lexical
/// error met while looking for it.
pub open spec fn skip_newlines(s: Seq<char>, pos: int) -> LexOut
    decreases s.len() - pos,
    when 0 <= pos <= s.len()
{
    match lex_at(s, pos) {
        LexOut::Tok { kind, start, end } => {
            if kind == TokenKind::Newline {
                proof {
                    lemma_lex_at_bounds(s, pos);
                }
                skip_newlines(s, end)
            } else {
                LexOut::Tok { kind, start, end }
            }
        },
        other => other,
    }
}

/// The outcome of scanning the rest of a document.
pub enum TailOut {
    /// The end of the last non-newline token seen, starting from `cur`.
    End(int),
    /// A lexical error, over the character range `start..end`.
    TailFail(ErrorKind, int, int),
}

/// Scan from `pos` to the end of input, tracking the end of the last
/// non-newline token; `cur` is the last such end seen so far.
pub open spec fn doc_tail_end(s: Seq<char>, pos: int, cur: int) -> TailOut
    decreases s.len() - pos,
    when 0 <= pos <= s.len()
{
    match lex_at(s, pos) {
        LexOut::UnclosedString { start } => TailOut::TailFail(
            ErrorKind::UnclosedString,
            start,
            s.len() as int,
        ),
        LexOut::UnclosedComment { start } => TailOut::TailFail(
            ErrorKind::UnclosedComment,
            start,
            s.len() as int,
        ),
        LexOut::Tok { kind, start, end } => {
            if kind == TokenKind::Eof {
                TailOut::End(cur)
            } else if kind == TokenKind::Newline {
                proof {
                    lemma_lex_at_bounds(s, pos);
                }
                doc_tail_end(s, end, cur)
            } else {
                proof {
                    lemma_lex_at_bounds(s, pos);
                }
                doc_tail_end(s, end, end)
            }
        },
    }
}

/// The outcome of parsing a document.
pub enum DocOut {
    /// The root value covers the character range `start..end`; an entirely
    /// blank document is the empty range `0..0`.
    Found(int, int),
    /// A lexical error, over the character range `start..end`.
    DocFail(ErrorKind, int, int),
}

/// What [`document`] returns on the given source: the span from the first
/// substantive token's start to the last substantive token's end, or the
/// first lexical error of the single forward scan.
pub open spec fn document_spec(s: Seq<char>) -> DocOut {
    match skip_newlines(s, 0) {
        LexOut::UnclosedString { start } => DocOut::DocFail(
            ErrorKind::UnclosedString,
            start,
            s.len() as int,
        ),
        LexOut::UnclosedComment { start } => DocOut::DocFail(
            ErrorKind::UnclosedComment,
            start,
            s.len() as int,
        ),
        LexOut::Tok { kind, start, end } => {
            if kind == TokenKind::Eof {
                DocOut::Found(0, 0)
            } else {
                match doc_tail_end(s, end, end) {
                    TailOut::TailFail(k, a, b) => DocOut::DocFail(k, a, b),
                    TailOut::End(last) => DocOut::Found(start, last),
                }
            }
        },
    }
}

/// Parse a document from a string.
///
/// This creates a root node covering the first substantive token through
/// the last; an entirely blank document (only whitespace and comments)
/// yields a node with an empty span, which is success, not an error.  The
/// returned span, and the error on every failing input, are given by
/// [`document_spec`].
pub fn document<'a>(source: &'a str) -> (r: Result<Node<'a>, Error>)
    ensures
        match document_spec(source@) {
            DocOut::Found(a, b) => r matches Ok(n) && n.src() == source@ && n.spec_span()
                == spec_span(a, b) && n.wf(),
            DocOut::DocFail(k, a, b) => r == Err::<Node<'a>, Error>(spec_error(k, a, b)),
        },
{
    let ghost s = source@;
    let mut lexer = Lexer::new(source);
    proof {
        lexer.lemma_wf();
    }
    let ghost mut tpos = 0int;
    let mut first = match lexer.next_token() {
        Ok(tk) => tk,
        Err(e) => {
            return Err(e);
        },
    };
    proof {
        lemma_lex_at_bounds(s, 0);
    }
    loop
        invariant_except_break
            skip_newlines(s, 0) == skip_newlines(s, tpos),
        invariant
            lexer.wf(),
            lexer.src() == s,
            s == source@,
            s.len() <= usize::MAX,
            0 <= tpos <= s.len(),
            lex_at(s, tpos) == (LexOut::Tok {
                kind: first.kind,
                start: first.span.start as int,
                end: first.span.start + first.span.len,
            }),
            lexer.spec_pos() == first.span.start + first.span.len,
        ensures
            lexer.wf(),
            lexer.src() == s,
            first.kind != TokenKind::Newline,
            skip_newlines(s, 0) == (LexOut::Tok {
                kind: first.kind,
                start: first.span.start as int,
                end: first.span.start + first.span.len,
            }),
            first.span.start + first.span.len <= s.len(),
            (first.kind == TokenKind::Eof <==> first.span.len == 0),
            lexer.spec_pos() == first.span.start + first.span.len,
        decreases s.len() - lexer.spec_pos(), (if first.kind == TokenKind::Eof {
            0int
        } else {
            1int
        }),
    {
        proof {
            lemma_lex_at_bounds(s, tpos);
        }
        if first.kind == TokenKind::Newline {
            proof {
                tpos = lexer.spec_pos();
            }
            first = match lexer.next_token() {
                Ok(tk) => tk,
                Err(e) => {
                    return Err(e);
                },
            };
            proof {
                lemma_lex_at_bounds(s, tpos);
            }
        } else {
            break;
        }
    }
    if first.kind == TokenKind::Eof {
        return Ok(Node::new(source, Span::new(0, 0)));
    }
    let start = first.span.start;
    let mut last_end = first.span.start + first.span.len;
    let ghost e0 = last_end as int;
    loop
        invariant
            lexer.wf(),
            lexer.src() == s,
            s == source@,
            s.len() <= usize::MAX,
            start == first.span.start,
            start < last_end <= s.len(),
            start < e0,
            0 <= e0 <= s.len(),
            e0 <= last_end,
            e0 <= lexer.spec_pos(),
            0 <= lexer.spec_pos() <= s.len(),
            first.kind != TokenKind::Eof && first.kind != TokenKind::Newline,
            skip_newlines(s, 0) == (LexOut::Tok {
                kind: first.kind,
                start: start as int,
                end: e0,
            }),
            doc_tail_end(s, e0, e0) == doc_tail_end(s, lexer.spec_pos(), last_end as int),
        ensures
            lexer.wf(),
            start < last_end <= s.len(),
            doc_tail_end(s, e0, e0) == TailOut::End(last_end as int),
        decreases s.len() - lexer.spec_pos(), 1int,
    {
        let ghost cur = lexer.spec_pos();
        let tok = match lexer.next_token() {
            Ok(tk) => tk,
            Err(e) => {
                return Err(e);
            },
        };
        proof {
            lemma_lex_at_bounds(s, cur);
        }
        if tok.kind == TokenKind::Eof {
            break;
        }
        if tok.kind != TokenKind::Newline {
            last_end = tok.span.start + tok.span.len;
        }
    }
    Ok(Node::new(source, Span::new(start, last_end - start)))
}

} // verus!
