//! Tests of the document entry point.

use libnosr_rs::{document, text};

#[test]
fn basic_scalar() {
    let source = "hello";
    let node = document(source).expect("failed to parse");
    let value = text(&node).expect("failed to parse as text");
    assert_eq!(value, "hello");
}

#[test]
fn parse_simple_scalar() {
    let source = "hello";
    let node = document(source).unwrap();
    assert_eq!(text(&node).unwrap(), "hello");
}

#[test]
fn parse_quoted_string() {
    let source = r#""hello world""#;
    let node = document(source).unwrap();
    assert_eq!(text(&node).unwrap(), "hello world");
}

#[test]
fn parse_with_whitespace() {
    let source = "  hello  ";
    let node = document(source).unwrap();
    assert_eq!(text(&node).unwrap(), "hello");
}
