//! Lexical analysis.
//!
//! The lexer turns the source into a stream of tokens: structural
//! punctuation, string literals, scalars, newlines and end-of-input.
//! Whitespace and comments are skipped and never tokenized.
//!
//! The behaviour of [`Lexer::next_token`] is specified exactly by the spec
//! function [`lex_at`]: given the source characters and a starting index, it
//! says which token (or lexical error) the lexer produces and where the
//! lexer stands afterwards.

use vstd::prelude::*;
use vstd::string::StrSliceExecFns;

use crate::chars::{is_blank, is_structural};
use crate::error::{Error, ErrorKind};
use crate::span::Span;

verus! {

/// The kind of token.
#[derive(Debug, Clone, Copy, PartialEq, Eq, Structural)]
pub enum TokenKind {
    /// Opening brace `{`.
    LeftBrace,
    /// Closing brace `}`.
    RightBrace,
    /// Opening bracket `[`.
    LeftBracket,
    /// Closing bracket `]`.
    RightBracket,
    /// Colon `:`.
    Colon,
    /// Comma `,`.
    Comma,
    /// Newline (serves as delimiter).
    Newline,
    /// A string literal (contents stored in source via span).
    String,
    /// A scalar value (unquoted text).
    Scalar,
    /// End of input.
    Eof,
}

/// A token produced by the lexer.
#[derive(Debug, Clone, Copy, PartialEq, Eq, Structural)]
pub struct Token {
    /// The kind of token.
    pub kind: TokenKind,
    /// The location of this token in the source.
    pub span: Span,
}

/// The span covering the character range `start..end`.
pub open spec fn spec_span(start: int, end: int) -> Span {
    Span { start: start as usize, len: (end - start) as usize }
}

/// The token of the given kind covering the character range `start..end`.
pub open spec fn spec_token(kind: TokenKind, start: int, end: int) -> Token {
    Token { kind, span: spec_span(start, end) }
}

/// The error of the given kind covering the character range `start..end`.
pub open spec fn spec_error(kind: ErrorKind, start: int, end: int) -> Error {
    Error { kind, span: spec_span(start, end) }
}

/// The index just after the first newline at or after `i`, or the end of
/// the source: where a line comment whose `#` stands just before `i` ends.
pub open spec fn line_comment_end(s: Seq<char>, i: int) -> int
    decreases s.len() - i,
    when 0 <= i <= s.len()
{
    if i >= s.len() {
        i
    } else if s[i] == '\n' {
        i + 1
    } else {
        line_comment_end(s, i + 1)
    }
}

/// The index just after the first `*#` pair at or after `i`, or `None` when
/// the source ends first: where a block comment whose `#*` stands just
/// before `i` ends.
pub open spec fn block_comment_end(s: Seq<char>, i: int) -> Option<int>
    decreases s.len() - i,
    when 0 <= i <= s.len()
{
    if i >= s.len() {
        None
    } else if s[i] == '*' && i + 1 < s.len() && s[i + 1] == '#' {
        Some(i + 2)
    } else {
        block_comment_end(s, i + 1)
    }
}

/// The index just after the closing quote of a string literal whose body
/// starts at `i` (just after the opening quote), or `None` when the source
/// ends first.  A backslash consumes the following character unexamined.
pub open spec fn string_body_end(s: Seq<char>, i: int) -> Option<int>
    decreases s.len() - i,
    when 0 <= i <= s.len()
{
    if i >= s.len() {
        None
    } else if s[i] == '"' {
        Some(i + 1)
    } else if s[i] == '\\' {
        if i + 2 <= s.len() {
            string_body_end(s, i + 2)
        } else {
            None
        }
    } else {
        string_body_end(s, i + 1)
    }
}

/// True when a scalar token cannot extend over the character at `i`:
/// whitespace, a newline, a structural character, or the start of a block
/// comment.
pub open spec fn scalar_stops_at(s: Seq<char>, i: int) -> bool {
    is_blank(s[i]) || s[i] == '\n' || is_structural(s[i]) || (s[i] == '#' && i + 1 < s.len()
        && s[i + 1] == '*')
}

/// The index just after a scalar token starting at `i`.
pub open spec fn scalar_end(s: Seq<char>, i: int) -> int
    decreases s.len() - i,
    when 0 <= i <= s.len()
{
    if i >= s.len() {
        i
    } else if scalar_stops_at(s, i) {
        i
    } else {
        scalar_end(s, i + 1)
    }
}

/// Where scanning stands after skipping blanks and comments from `pos`.
pub enum Skim {
    /// The next token starts here (or the source ends here).
    At(int),
    /// A block comment starting here is never closed.
    UnclosedComment(int),
}

/// Skip blanks and comments starting at `pos`: the position of the next
/// token start, or the start of an unclosed block comment.
pub open spec fn skim(s: Seq<char>, pos: int) -> Skim
    decreases s.len() - pos,
    when 0 <= pos <= s.len()
{
    if pos >= s.len() {
        Skim::At(pos)
    } else if is_blank(s[pos]) {
        skim(s, pos + 1)
    } else if s[pos] == '#' {
        if pos + 1 < s.len() && s[pos + 1] == '*' {
            match block_comment_end(s, pos + 2) {
                Some(e) => {
                    proof {
                        lemma_block_comment_end_bounds(s, pos + 2);
                    }
                    skim(s, e)
                },
                None => Skim::UnclosedComment(pos),
            }
        } else {
            proof {
                lemma_line_comment_end_bounds(s, pos + 1);
            }
            skim(s, line_comment_end(s, pos + 1))
        }
    } else {
        Skim::At(pos)
    }
}

/// What the lexer produces at `pos`: a token, or a lexical error.
pub enum LexOut {
    /// A token of the given kind covering `start..end`; the lexer stands at
    /// `end` afterwards.
    Tok { kind: TokenKind, start: int, end: int },
    /// A string literal starting at `start` is never closed.
    UnclosedString { start: int },
    /// A block comment starting at `start` is never closed.
    UnclosedComment { start: int },
}

/// The next token of `s` at position `pos`, skipping blanks and comments.
///
/// This is the mathematical model of [`Lexer::next_token`].
pub open spec fn lex_at(s: Seq<char>, pos: int) -> LexOut {
    match skim(s, pos) {
        Skim::UnclosedComment(start) => LexOut::UnclosedComment { start },
        Skim::At(p) => {
            if p >= s.len() {
                LexOut::Tok { kind: TokenKind::Eof, start: p, end: p }
            } else if s[p] == '\n' {
                LexOut::Tok { kind: TokenKind::Newline, start: p, end: p + 1 }
            } else if s[p] == '{' {
                LexOut::Tok { kind: TokenKind::LeftBrace, start: p, end: p + 1 }
            } else if s[p] == '}' {
                LexOut::Tok { kind: TokenKind::RightBrace, start: p, end: p + 1 }
            } else if s[p] == '[' {
                LexOut::Tok { kind: TokenKind::LeftBracket, start: p, end: p + 1 }
            } else if s[p] == ']' {
                LexOut::Tok { kind: TokenKind::RightBracket, start: p, end: p + 1 }
            } else if s[p] == ':' {
                LexOut::Tok { kind: TokenKind::Colon, start: p, end: p + 1 }
            } else if s[p] == ',' {
                LexOut::Tok { kind: TokenKind::Comma, start: p, end: p + 1 }
            } else if s[p] == '"' {
                match string_body_end(s, p + 1) {
                    Some(e) => LexOut::Tok { kind: TokenKind::String, start: p, end: e },
                    None => LexOut::UnclosedString { start: p },
                }
            } else {
                LexOut::Tok { kind: TokenKind::Scalar, start: p, end: scalar_end(s, p) }
            }
        },
    }
}

pub proof fn lemma_line_comment_end_bounds(s: Seq<char>, i: int)
    requires
        0 <= i <= s.len(),
    ensures
        i <= line_comment_end(s, i) <= s.len(),
    decreases s.len() - i,
{
    if i < s.len() && s[i] != '\n' {
        lemma_line_comment_end_bounds(s, i + 1);
    }
}

pub proof fn lemma_block_comment_end_bounds(s: Seq<char>, i: int)
    requires
        0 <= i <= s.len(),
    ensures
        block_comment_end(s, i) matches Some(e) ==> i + 2 <= e <= s.len(),
    decreases s.len() - i,
{
    if i < s.len() && !(s[i] == '*' && i + 1 < s.len() && s[i + 1] == '#') {
        lemma_block_comment_end_bounds(s, i + 1);
    }
}

pub proof fn lemma_string_body_end_bounds(s: Seq<char>, i: int)
    requires
        0 <= i <= s.len(),
    ensures
        string_body_end(s, i) matches Some(e) ==> i + 1 <= e <= s.len(),
    decreases s.len() - i,
{
    if i < s.len() && s[i] != '"' {
        if s[i] == '\\' {
            if i + 2 <= s.len() {
                lemma_string_body_end_bounds(s, i + 2);
            }
        } else {
            lemma_string_body_end_bounds(s, i + 1);
        }
    }
}

pub proof fn lemma_scalar_end_bounds(s: Seq<char>, i: int)
    requires
        0 <= i <= s.len(),
    ensures
        i <= scalar_end(s, i) <= s.len(),
    decreases s.len() - i,
{
    if i < s.len() && !scalar_stops_at(s, i) {
        lemma_scalar_end_bounds(s, i + 1);
    }
}

pub proof fn lemma_skim_bounds(s: Seq<char>, pos: int)
    requires
        0 <= pos <= s.len(),
    ensures
        skim(s, pos) matches Skim::At(p) ==> pos <= p <= s.len() && (p == s.len() || (!is_blank(
            s[p],
        ) && s[p] != '#')),
        skim(s, pos) matches Skim::UnclosedComment(st) ==> pos <= st && st + 1 < s.len() && s[st]
            == '#' && s[st + 1] == '*',
    decreases s.len() - pos,
{
    if pos < s.len() {
        if is_blank(s[pos]) {
            lemma_skim_bounds(s, pos + 1);
        } else if s[pos] == '#' {
            if pos + 1 < s.len() && s[pos + 1] == '*' {
                lemma_block_comment_end_bounds(s, pos + 2);
                match block_comment_end(s, pos + 2) {
                    Some(e) => lemma_skim_bounds(s, e),
                    None => {},
                }
            } else {
                lemma_line_comment_end_bounds(s, pos + 1);
                lemma_skim_bounds(s, line_comment_end(s, pos + 1));
            }
        }
    }
}

/// Every token lies between the scanning position and the end of the
/// source, and only the end-of-input token is empty.
pub proof fn lemma_lex_at_bounds(s: Seq<char>, pos: int)
    requires
        0 <= pos <= s.len(),
    ensures
        lex_at(s, pos) matches LexOut::Tok { kind, start, end } ==> pos <= start <= end <= s.len()
            && (kind == TokenKind::Eof <==> start == end),
        lex_at(s, pos) matches LexOut::UnclosedString { start } ==> pos <= start < s.len(),
        lex_at(s, pos) matches LexOut::UnclosedComment { start } ==> pos <= start < s.len(),
{
    lemma_skim_bounds(s, pos);
    match skim(s, pos) {
        Skim::At(p) => {
            if p < s.len() {
                if s[p] == '"' {
                    lemma_string_body_end_bounds(s, p + 1);
                } else if !(s[p] == '\n' || is_structural(s[p])) {
                    assert(!scalar_stops_at(s, p));
                    lemma_scalar_end_bounds(s, p + 1);
                    assert(scalar_end(s, p) == scalar_end(s, p + 1));
                }
            }
        },
        Skim::UnclosedComment(st) => {},
    }
}

/// A lexer that tokenizes input.
///
/// The lexer maintains its position in the source, measured in characters,
/// and hands out one token per call of [`Lexer::next_token`].
pub struct Lexer<'a> {
    /// The source text being lexed.
    source: &'a str,
    /// Current character position in the source.
    pos: usize,
    /// The number of characters in the source.
    len: usize,
}

impl<'a> Lexer<'a> {
    /// The characters of the source being lexed.
    pub closed spec fn src(&self) -> Seq<char> {
        self.source@
    }

    /// The current position, as a mathematical integer.
    pub closed spec fn spec_pos(&self) -> int {
        self.pos as int
    }

    /// The lexer is well formed: its position lies within the source.
    pub closed spec fn wf(&self) -> bool {
        self.len == self.source@.len() && self.pos <= self.len
    }

    /// A well-formed lexer's position lies within its source, whose length
    /// fits a machine word.
    pub proof fn lemma_wf(&self)
        requires
            self.wf(),
        ensures
            0 <= self.spec_pos() <= self.src().len(),
            self.src().len() <= usize::MAX,
    {
    }

    /// Create a new lexer for the given source.
    pub fn new(source: &'a str) -> (r: Lexer<'a>)
        ensures
            r.wf(),
            r.src() == source@,
            r.spec_pos() == 0,
    {
        let len = source.unicode_len();
        Lexer { source, pos: 0, len }
    }

    /// Get the current position.
    pub fn pos(&self) -> (r: usize)
        ensures
            r == self.spec_pos(),
    {
        self.pos
    }

    /// Set the lexer position (for seeking to a specific location).
    ///
    /// The position must lie within the source; callers seek only to 0 or
    /// to boundaries of spans returned by prior tokens.
    pub fn set_pos(&mut self, pos: usize)
        requires
            old(self).wf(),
            pos <= old(self).src().len(),
        ensures
            final(self).wf(),
            final(self).src() == old(self).src(),
            final(self).spec_pos() == pos,
    {
        self.pos = pos;
    }

    /// Peek at the current character without consuming it.
    fn peek(&self) -> (r: Option<char>)
        requires
            self.wf(),
        ensures
            r == if self.spec_pos() < self.src().len() {
                Some(self.src()[self.spec_pos()])
            } else {
                None::<char>
            },
    {
        if self.pos < self.len {
            Some(self.source.get_char(self.pos))
        } else {
            None
        }
    }

    /// Peek at the character at a given offset from the current position.
    fn peek_at(&self, offset: usize) -> (r: Option<char>)
        requires
            self.wf(),
        ensures
            r == if self.spec_pos() + offset < self.src().len() {
                Some(self.src()[self.spec_pos() + offset])
            } else {
                None::<char>
            },
    {
        if offset < self.len - self.pos {
            Some(self.source.get_char(self.pos + offset))
        } else {
            None
        }
    }

    /// Consume and return the current character.
    fn consume(&mut self) -> (r: Option<char>)
        requires
            old(self).wf(),
        ensures
            final(self).wf(),
            final(self).src() == old(self).src(),
            old(self).spec_pos() < old(self).src().len() ==> r == Some(
                old(self).src()[old(self).spec_pos()],
            ) && final(self).spec_pos() == old(self).spec_pos() + 1,
            old(self).spec_pos() >= old(self).src().len() ==> r is None && final(self).spec_pos()
                == old(self).spec_pos(),
    {
        if self.pos < self.len {
            let c = self.source.get_char(self.pos);
            self.pos = self.pos + 1;
            Some(c)
        } else {
            None
        }
    }

    /// Skip whitespace (but not newlines, which are significant).
    fn skip_whitespace(&mut self)
        requires
            old(self).wf(),
        ensures
            final(self).wf(),
            final(self).src() == old(self).src(),
            old(self).spec_pos() <= final(self).spec_pos(),
            skim(final(self).src(), old(self).spec_pos()) == skim(
                final(self).src(),
                final(self).spec_pos(),
            ),
            final(self).spec_pos() == final(self).src().len() || !is_blank(
                final(self).src()[final(self).spec_pos()],
            ),
    {
        let ghost p0 = self.spec_pos();
        loop
            invariant
                self.wf(),
                self.src() == old(self).src(),
                p0 <= self.spec_pos(),
                skim(self.src(), p0) == skim(self.src(), self.spec_pos()),
            ensures
                self.wf(),
                self.src() == old(self).src(),
                p0 <= self.spec_pos(),
                skim(self.src(), p0) == skim(self.src(), self.spec_pos()),
                self.spec_pos() == self.src().len() || !is_blank(self.src()[self.spec_pos()]),
            decreases self.src().len() - self.spec_pos(),
        {
            match self.peek() {
                Some(c) => {
                    if c == ' ' || c == '\t' || c == '\r' {
                        self.consume();
                    } else {
                        break;
                    }
                },
                None => {
                    break;
                },
            }
        }
    }

    /// Skip a line comment, from the character before the current position
    /// through the next newline (or end of input).
    fn skip_line_comment(&mut self)
        requires
            old(self).wf(),
            old(self).spec_pos() < old(self).src().len(),
        ensures
            final(self).wf(),
            final(self).src() == old(self).src(),
            final(self).spec_pos() == line_comment_end(old(self).src(), old(self).spec_pos() + 1),
    {
        self.consume();
        let ghost p1 = self.spec_pos();
        loop
            invariant_except_break
                line_comment_end(self.src(), p1) == line_comment_end(self.src(), self.spec_pos()),
            invariant
                self.wf(),
                self.src() == old(self).src(),
                p1 <= self.spec_pos() <= self.src().len(),
            ensures
                self.wf(),
                self.src() == old(self).src(),
                self.spec_pos() == line_comment_end(self.src(), p1),
            decreases self.src().len() - self.spec_pos(),
        {
            match self.consume() {
                Some(c) => {
                    if c == '\n' {
                        assert(line_comment_end(self.src(), self.spec_pos() - 1) == self.spec_pos());
                        break;
                    }
                },
                None => {
                    assert(line_comment_end(self.src(), self.spec_pos()) == self.spec_pos());
                    break;
                },
            }
        }
    }

    /// Skip a block comment, from the `#*` at the current position through
    /// the closing `*#`; an unclosed comment is a lexical error.
    fn skip_block_comment(&mut self) -> (r: Result<(), Error>)
        requires
            old(self).wf(),
            old(self).spec_pos() + 2 <= old(self).src().len(),
        ensures
            final(self).wf(),
            final(self).src() == old(self).src(),
            match block_comment_end(old(self).src(), old(self).spec_pos() + 2) {
                Some(e) => r is Ok && final(self).spec_pos() == e,
                None => r == Err::<(), Error>(
                    spec_error(
                        ErrorKind::UnclosedComment,
                        old(self).spec_pos(),
                        old(self).src().len() as int,
                    ),
                ) && final(self).spec_pos() == old(self).src().len(),
            },
    {
        let start = self.pos;
        self.consume();
        self.consume();
        let ghost p2 = self.spec_pos();
        loop
            invariant
                self.wf(),
                self.src() == old(self).src(),
                p2 <= self.spec_pos() <= self.src().len(),
                start == old(self).spec_pos(),
                start + 2 == p2,
                block_comment_end(self.src(), p2) == block_comment_end(
                    self.src(),
                    self.spec_pos(),
                ),
            decreases self.src().len() - self.spec_pos(),
        {
            match self.peek() {
                None => {
                    assert(block_comment_end(self.src(), self.spec_pos()) is None);
                    return Err(
                        Error::new(ErrorKind::UnclosedComment, Span::new(start, self.pos - start)),
                    );
                },
                Some(c) => {
                    if c == '*' {
                        self.consume();
                        match self.peek() {
                            Some(c2) => {
                                if c2 == '#' {
                                    self.consume();
                                    assert(block_comment_end(self.src(), self.spec_pos() - 2)
                                        == Some(self.spec_pos()));
                                    return Ok(());
                                }
                            },
                            None => {},
                        }
                        assert(block_comment_end(self.src(), self.spec_pos() - 1)
                            == block_comment_end(self.src(), self.spec_pos()));
                    } else {
                        self.consume();
                    }
                },
            }
        }
    }

    /// Lex a string literal, from the opening quote at the current position
    /// through the closing quote; escapes are consumed but validated only
    /// later, by text coercion.
    fn lex_string(&mut self) -> (r: Result<Token, Error>)
        requires
            old(self).wf(),
            old(self).spec_pos() < old(self).src().len(),
        ensures
            final(self).wf(),
            final(self).src() == old(self).src(),
            match string_body_end(old(self).src(), old(self).spec_pos() + 1) {
                Some(e) => r == Ok::<Token, Error>(
                    spec_token(TokenKind::String, old(self).spec_pos(), e),
                ) && final(self).spec_pos() == e,
                None => r == Err::<Token, Error>(
                    spec_error(
                        ErrorKind::UnclosedString,
                        old(self).spec_pos(),
                        old(self).src().len() as int,
                    ),
                ) && final(self).spec_pos() == old(self).src().len(),
            },
    {
        let start = self.pos;
        self.consume();
        let ghost p1 = self.spec_pos();
        loop
            invariant_except_break
                string_body_end(self.src(), p1) == string_body_end(self.src(), self.spec_pos()),
            invariant
                self.wf(),
                self.src() == old(self).src(),
                p1 <= self.spec_pos() <= self.src().len(),
                start == old(self).spec_pos(),
                start + 1 == p1,
            ensures
                self.wf(),
                self.src() == old(self).src(),
                string_body_end(self.src(), p1) == Some(self.spec_pos()),
            decreases self.src().len() - self.spec_pos(),
        {
            match self.peek() {
                None => {
                    assert(string_body_end(self.src(), self.spec_pos()) is None);
                    return Err(
                        Error::new(ErrorKind::UnclosedString, Span::new(start, self.pos - start)),
                    );
                },
                Some(c) => {
                    if c == '"' {
                        self.consume();
                        assert(string_body_end(self.src(), self.spec_pos() - 1) == Some(
                            self.spec_pos(),
                        ));
                        break;
                    } else if c == '\\' {
                        self.consume();
                        match self.consume() {
                            Some(_) => {
                                assert(string_body_end(self.src(), self.spec_pos() - 2)
                                    == string_body_end(self.src(), self.spec_pos()));
                            },
                            None => {
                                assert(string_body_end(self.src(), self.spec_pos() - 1) is None);
                                return Err(
                                    Error::new(
                                        ErrorKind::UnclosedString,
                                        Span::new(start, self.pos - start),
                                    ),
                                );
                            },
                        }
                    } else {
                        self.consume();
                        assert(string_body_end(self.src(), self.spec_pos() - 1)
                            == string_body_end(self.src(), self.spec_pos()));
                    }
                },
            }
        }
        Ok(Token { kind: TokenKind::String, span: Span::new(start, self.pos - start) })
    }

    /// Lex a scalar: unquoted text extending to the next whitespace,
    /// newline, structural character or block comment start.
    fn lex_scalar(&mut self) -> (r: Token)
        requires
            old(self).wf(),
        ensures
            final(self).wf(),
            final(self).src() == old(self).src(),
            r == spec_token(
                TokenKind::Scalar,
                old(self).spec_pos(),
                scalar_end(old(self).src(), old(self).spec_pos()),
            ),
            final(self).spec_pos() == scalar_end(old(self).src(), old(self).spec_pos()),
    {
        let start = self.pos;
        loop
            invariant
                self.wf(),
                self.src() == old(self).src(),
                start == old(self).spec_pos(),
                start <= self.spec_pos() <= self.src().len(),
                scalar_end(self.src(), start as int) == scalar_end(self.src(), self.spec_pos()),
            ensures
                self.wf(),
                self.src() == old(self).src(),
                self.spec_pos() == scalar_end(self.src(), start as int),
            decreases self.src().len() - self.spec_pos(),
        {
            match self.peek() {
                None => {
                    assert(scalar_end(self.src(), self.spec_pos()) == self.spec_pos());
                    break;
                },
                Some(c) => {
                    if c == '{' || c == '}' || c == '[' || c == ']' || c == ':' || c == ','
                        || c == '\n' || c == ' ' || c == '\t' || c == '\r' {
                        assert(scalar_end(self.src(), self.spec_pos()) == self.spec_pos());
                        break;
                    }
                    if c == '#' {
                        match self.peek_at(1) {
                            Some(c2) => {
                                if c2 == '*' {
                                    assert(scalar_end(self.src(), self.spec_pos())
                                        == self.spec_pos());
                                    break;
                                }
                            },
                            None => {},
                        }
                    }
                    assert(!scalar_stops_at(self.src(), self.spec_pos()));
                    self.consume();
                },
            }
        }
        Token { kind: TokenKind::Scalar, span: Span::new(start, self.pos - start) }
    }

    /// Get the next token.
    ///
    /// The result, and the position the lexer stands at afterwards, are
    /// exactly those of the model [`lex_at`] applied at the old position.
    pub fn next_token(&mut self) -> (r: Result<Token, Error>)
        requires
            old(self).wf(),
        ensures
            final(self).wf(),
            final(self).src() == old(self).src(),
            match lex_at(old(self).src(), old(self).spec_pos()) {
                LexOut::Tok { kind, start, end } => r == Ok::<Token, Error>(
                    spec_token(kind, start, end),
                ) && final(self).spec_pos() == end,
                LexOut::UnclosedString { start } => r == Err::<Token, Error>(
                    spec_error(ErrorKind::UnclosedString, start, old(self).src().len() as int),
                ) && final(self).spec_pos() == old(self).src().len(),
                LexOut::UnclosedComment { start } => r == Err::<Token, Error>(
                    spec_error(ErrorKind::UnclosedComment, start, old(self).src().len() as int),
                ) && final(self).spec_pos() == old(self).src().len(),
            },
    {
        let ghost p0 = self.spec_pos();
        loop
            invariant
                self.wf(),
                self.src() == old(self).src(),
                p0 == old(self).spec_pos(),
                0 <= p0 <= self.spec_pos(),
                self.spec_pos() <= self.src().len(),
                skim(self.src(), p0) == skim(self.src(), self.spec_pos()),
            decreases self.src().len() - self.spec_pos(),
        {
            self.skip_whitespace();
            proof {
                if self.spec_pos() == self.src().len() || self.src()[self.spec_pos()] != '#' {
                    assert(skim(self.src(), self.spec_pos()) == Skim::At(self.spec_pos()));
                }
            }
            let start = self.pos;
            match self.peek() {
                None => {
                    return Ok(Token { kind: TokenKind::Eof, span: Span::new(start, 0) });
                },
                Some(c) => {
                    match c {
                        '\n' => {
                            self.consume();
                            return Ok(
                                Token { kind: TokenKind::Newline, span: Span::new(start, 1) },
                            );
                        },
                        '{' => {
                            self.consume();
                            return Ok(
                                Token { kind: TokenKind::LeftBrace, span: Span::new(start, 1) },
                            );
                        },
                        '}' => {
                            self.consume();
                            return Ok(
                                Token { kind: TokenKind::RightBrace, span: Span::new(start, 1) },
                            );
                        },
                        '[' => {
                            self.consume();
                            return Ok(
                                Token { kind: TokenKind::LeftBracket, span: Span::new(start, 1) },
                            );
                        },
                        ']' => {
                            self.consume();
                            return Ok(
                                Token { kind: TokenKind::RightBracket, span: Span::new(start, 1) },
                            );
                        },
                        ':' => {
                            self.consume();
                            return Ok(Token { kind: TokenKind::Colon, span: Span::new(start, 1) });
                        },
                        ',' => {
                            self.consume();
                            return Ok(Token { kind: TokenKind::Comma, span: Span::new(start, 1) });
                        },
                        '"' => {
                            return self.lex_string();
                        },
                        '#' => {
                            match self.peek_at(1) {
                                Some('*') => {
                                    match self.skip_block_comment() {
                                        Ok(()) => {
                                            proof {
                                                lemma_block_comment_end_bounds(
                                                    self.src(),
                                                    start + 2,
                                                );
                                            }
                                        },
                                        Err(e) => {
                                            return Err(e);
                                        },
                                    }
                                },
                                _ => {
                                    self.skip_line_comment();
                                    proof {
                                        lemma_line_comment_end_bounds(self.src(), start + 1);
                                    }
                                },
                            }
                        },
                        _ => {
                            return Ok(self.lex_scalar());
                        },
                    }
                },
            }
        }
    }
}

} // verus!
