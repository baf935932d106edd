//! Tests of node handles and scalar coercion.

use libnosr_rs::{table, text, uint64, Node, Span};

#[test]
fn test_nested_extraction() {
    let source = r#"{
        person: {
            name: Alice
        }
    }"#;
    let root = Node::new(source, Span::new(0, source.len()));
    let tbl = table(&root).expect("failed to parse table");
    let person = tbl.get("person").expect("person key not found");

    // Check what we extracted
    let raw = person.raw();
    println!("Extracted: {:?}", raw);
    assert!(
        raw.trim().starts_with('{'),
        "Should start with brace, got: {}",
        raw
    );
}

#[test]
fn text_unquoted() {
    let source = "hello";
    let node = Node::new(source, Span::new(0, 5));
    assert_eq!(text(&node).unwrap(), "hello");
}

#[test]
fn text_quoted() {
    let source = r#""hello world""#;
    let node = Node::new(source, Span::new(0, source.len()));
    assert_eq!(text(&node).unwrap(), "hello world");
}

#[test]
fn text_with_escapes() {
    let source = r#""hello\nworld""#;
    let node = Node::new(source, Span::new(0, source.len()));
    assert_eq!(text(&node).unwrap(), "hello\nworld");
}

#[test]
fn parse_uint64() {
    let source = "42";
    let node = Node::new(source, Span::new(0, 2));
    assert_eq!(uint64(&node).unwrap(), 42);
}
