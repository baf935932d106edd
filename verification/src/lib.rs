//! A lazy, zero-copy parser and navigator for a minimal human-writable
//! data format.
//!
//! A document is one of a scalar value, a table (`{ key: value ... }`) or a
//! vector (`[ value ... ]`), with comments and flexible separators.  The
//! parser never builds a tree eagerly: [`document`] returns a [`Node`]
//! recording only the region the value occupies in the source text, and
//! navigation ([`table`], [`vector`], [`tab`], [`navigate::vec`]) re-scans
//! just the region needed, handing back further nodes.  Scalar coercion
//! ([`text`], [`uint64`]) turns a node's raw text into a value.
//!
//! Every operation is specified against a mathematical model of the format:
//! the lexer against [`lexer::lex_at`], navigation against
//! [`navigate::table_spec`] and [`navigate::vector_spec`], the entry point
//! against [`parser::document_spec`], and coercion against
//! [`scalar::text_spec`] and [`scalar::dec_val`].  The laws that hold
//! across operations are proved in [`laws`].

pub mod chars;
pub mod error;
pub mod laws;
pub mod lexer;
pub mod navigate;
pub mod node;
pub mod parser;
pub mod scalar;
pub mod span;

pub use error::{Error, ErrorKind};
pub use lexer::{Lexer, Token, TokenKind};
pub use navigate::{tab, table, vector, Table};
pub use node::Node;
pub use parser::document;
pub use scalar::{text, uint64};
pub use span::Span;
