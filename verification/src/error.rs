//! The error model.
//!
//! Every failure of parsing, navigation or coercion is an [`Error`]: a kind
//! out of a closed taxonomy together with the [`Span`] nearest to the point
//! of failure, so that callers can report `kind at position N`.

use vstd::prelude::*;
use vstd::string::StringExecFns;

use crate::chars::{dec_str, decimal_string, push_char};
use crate::span::Span;

verus! {

/// An error of parsing, navigation or coercion, with its location.
#[derive(Debug, Clone, PartialEq, Eq)]
pub struct Error {
    /// The kind of error that occurred.
    pub kind: ErrorKind,
    /// The location in the source where the error occurred.
    pub span: Span,
}

impl Error {
    /// Create a new error with the given kind and span.
    pub fn new(kind: ErrorKind, span: Span) -> (r: Error)
        ensures
            r.kind == kind,
            r.span == span,
    {
        Error { kind, span }
    }

    /// A human-readable description: the kind's message and the position
    /// at which the error occurred.
    pub fn message(&self) -> (r: String)
        ensures
            r@ == kind_message(self.kind) + " at position "@ + dec_str(self.span.start as nat),
    {
        let mut out = self.kind.message();
        out.append(" at position ");
        let num = decimal_string(self.span.start);
        out.append(num.as_str());
        out
    }
}

/// The descriptive text of each error kind.
pub open spec fn kind_message(k: ErrorKind) -> Seq<char> {
    match k {
        ErrorKind::UnexpectedEof => "unexpected end of input"@,
        ErrorKind::UnexpectedChar(c) => "unexpected character '"@ + seq![c] + "'"@,
        ErrorKind::ExpectedChar(c) => "expected '"@ + seq![c] + "'"@,
        ErrorKind::InvalidEscape(c) => "invalid escape sequence '\\"@ + seq![c] + "'"@,
        ErrorKind::UnclosedString => "unclosed string literal"@,
        ErrorKind::UnclosedComment => "unclosed block comment"@,
        ErrorKind::NotATable => "expected a table"@,
        ErrorKind::NotAVector => "expected a vector"@,
        ErrorKind::NotAScalar => "expected a scalar value"@,
        ErrorKind::KeyNotFound(key) => "key '"@ + key@ + "' not found"@,
        ErrorKind::IndexOutOfBounds(i) => "index "@ + dec_str(i as nat) + " out of bounds"@,
        ErrorKind::ParseError(msg) => "parse error: "@ + msg@,
    }
}

/// The kind of error that occurred during parsing or navigation.
#[derive(Debug, Clone, PartialEq, Eq)]
#[non_exhaustive]
pub enum ErrorKind {
    /// Unexpected end of input.
    UnexpectedEof,
    /// Unexpected character encountered.
    UnexpectedChar(char),
    /// Expected a specific character but found something else.
    ExpectedChar(char),
    /// Invalid escape sequence in a string.
    InvalidEscape(char),
    /// Unclosed string literal.
    UnclosedString,
    /// Unclosed block comment.
    UnclosedComment,
    /// Expected a table but found something else.
    NotATable,
    /// Expected a vector but found something else.
    NotAVector,
    /// Expected a scalar value but found something else.
    NotAScalar,
    /// Key not found in table.
    KeyNotFound(String),
    /// Index out of bounds in vector.
    IndexOutOfBounds(usize),
    /// Failed to parse value as requested type.
    ParseError(String),
}

impl ErrorKind {
    /// A human-readable description of this kind of error.
    pub fn message(&self) -> (r: String)
        ensures
            r@ == kind_message(*self),
    {
        let mut out = String::new();
        match self {
            ErrorKind::UnexpectedEof => {
                out.append("unexpected end of input");
            },
            ErrorKind::UnexpectedChar(c) => {
                out.append("unexpected character '");
                push_char(&mut out, *c);
                out.append("'");
            },
            ErrorKind::ExpectedChar(c) => {
                out.append("expected '");
                push_char(&mut out, *c);
                out.append("'");
            },
            ErrorKind::InvalidEscape(c) => {
                out.append("invalid escape sequence '\\");
                push_char(&mut out, *c);
                out.append("'");
            },
            ErrorKind::UnclosedString => {
                out.append("unclosed string literal");
            },
            ErrorKind::UnclosedComment => {
                out.append("unclosed block comment");
            },
            ErrorKind::NotATable => {
                out.append("expected a table");
            },
            ErrorKind::NotAVector => {
                out.append("expected a vector");
            },
            ErrorKind::NotAScalar => {
                out.append("expected a scalar value");
            },
            ErrorKind::KeyNotFound(key) => {
                out.append("key '");
                out.append(key.as_str());
                out.append("' not found");
            },
            ErrorKind::IndexOutOfBounds(i) => {
                out.append("index ");
                let num = decimal_string(*i);
                out.append(num.as_str());
                out.append(" out of bounds");
            },
            ErrorKind::ParseError(msg) => {
                out.append("parse error: ");
                out.append(msg.as_str());
            },
        }
        out
    }
}

} // verus!
