//! Tests of the lexer's tokenization.

use libnosr_rs::{Error, ErrorKind, Lexer, TokenKind};

#[test]
fn lex_braces() {
    let mut lexer = Lexer::new("{ }");
    assert_eq!(lexer.next_token().unwrap().kind, TokenKind::LeftBrace);
    assert_eq!(lexer.next_token().unwrap().kind, TokenKind::RightBrace);
    assert_eq!(lexer.next_token().unwrap().kind, TokenKind::Eof);
}

#[test]
fn lex_brackets() {
    let mut lexer = Lexer::new("[ ]");
    assert_eq!(lexer.next_token().unwrap().kind, TokenKind::LeftBracket);
    assert_eq!(lexer.next_token().unwrap().kind, TokenKind::RightBracket);
    assert_eq!(lexer.next_token().unwrap().kind, TokenKind::Eof);
}

#[test]
fn lex_string() {
    let mut lexer = Lexer::new(r#""hello world""#);
    let token = lexer.next_token().unwrap();
    assert_eq!(token.kind, TokenKind::String);
    assert_eq!(token.span.extract(r#""hello world""#), r#""hello world""#);
}

#[test]
fn lex_scalar() {
    let mut lexer = Lexer::new("hello");
    let token = lexer.next_token().unwrap();
    assert_eq!(token.kind, TokenKind::Scalar);
    assert_eq!(token.span.extract("hello"), "hello");
}

#[test]
fn lex_line_comment() {
    let mut lexer = Lexer::new("# comment\nhello");
    // Line comment consumes until and including the newline
    let token = lexer.next_token().unwrap();
    assert_eq!(token.kind, TokenKind::Scalar);
    assert_eq!(token.span.extract("# comment\nhello"), "hello");
}

#[test]
fn lex_block_comment() {
    let mut lexer = Lexer::new("#* comment *# hello");
    let token = lexer.next_token().unwrap();
    assert_eq!(token.kind, TokenKind::Scalar);
    assert_eq!(token.span.extract("#* comment *# hello"), "hello");
}

#[test]
fn lex_unclosed_comment() {
    let mut lexer = Lexer::new("#* unclosed");
    let result = lexer.next_token();
    assert!(matches!(
        result,
        Err(Error {
            kind: ErrorKind::UnclosedComment,
            ..
        })
    ));
}

#[test]
fn lex_table() {
    let mut lexer = Lexer::new("{ key: value }");
    assert_eq!(lexer.next_token().unwrap().kind, TokenKind::LeftBrace);
    assert_eq!(lexer.next_token().unwrap().kind, TokenKind::Scalar);
    assert_eq!(lexer.next_token().unwrap().kind, TokenKind::Colon);
    assert_eq!(lexer.next_token().unwrap().kind, TokenKind::Scalar);
    assert_eq!(lexer.next_token().unwrap().kind, TokenKind::RightBrace);
}
