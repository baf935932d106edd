//! Tests of the error model and its messages.

use libnosr_rs::{Error, ErrorKind, Span};

#[test]
fn error_display() {
    let err = Error::new(ErrorKind::UnexpectedEof, Span::new(42, 0));
    let msg = err.message();
    assert!(msg.contains("unexpected end of input"));
    assert!(msg.contains("42"));
}

#[test]
fn error_message_payloads() {
    let err = Error::new(ErrorKind::UnexpectedChar('!'), Span::new(3, 1));
    assert_eq!(err.message(), "unexpected character '!' at position 3");

    let err = Error::new(ErrorKind::ExpectedChar(':'), Span::new(0, 1));
    assert_eq!(err.message(), "expected ':' at position 0");

    let err = Error::new(ErrorKind::InvalidEscape('x'), Span::new(10, 4));
    assert_eq!(err.message(), "invalid escape sequence '\\x' at position 10");

    let err = Error::new(ErrorKind::KeyNotFound(String::from("name")), Span::new(7, 2));
    assert_eq!(err.message(), "key 'name' not found at position 7");

    let err = Error::new(ErrorKind::IndexOutOfBounds(105), Span::new(0, 9));
    assert_eq!(err.message(), "index 105 out of bounds at position 0");

    let err = Error::new(ErrorKind::ParseError(String::from("bad digit")), Span::new(1, 1));
    assert_eq!(err.message(), "parse error: bad digit at position 1");
}
