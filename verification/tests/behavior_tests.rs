//! Scenario tests: numeric boundaries, nesting balance, separator
//! equivalence, duplicate keys, single-member lookups, and one input for
//! each error kind.

use libnosr_rs::{document, tab, table, text, uint64, vector, ErrorKind, Node, Span};

#[test]
fn uint64_numeric_boundary() {
    let root = document("18446744073709551615").expect("parse failed");
    assert_eq!(uint64(&root).unwrap(), u64::MAX);

    let root = document("18446744073709551616").expect("parse failed");
    assert!(matches!(uint64(&root).unwrap_err().kind, ErrorKind::ParseError(_)));

    let root = document("-42").expect("parse failed");
    assert!(matches!(uint64(&root).unwrap_err().kind, ErrorKind::ParseError(_)));

    let root = document("+42").expect("parse failed");
    assert!(matches!(uint64(&root).unwrap_err().kind, ErrorKind::ParseError(_)));
}

#[test]
fn nesting_balance() {
    let unbalanced = document("{ key: value").expect("parse failed");
    assert!(table(&unbalanced).is_err());

    let balanced = document("{ key: value }").expect("parse failed");
    let tbl = table(&balanced).expect("table failed");
    assert_eq!(tbl.len(), 1);
    assert_eq!(text(tbl.get("key").expect("key not found")).unwrap(), "value");
}

#[test]
fn separator_equivalence() {
    let root = document("[a, b\nc, d]").expect("parse failed");
    let v = vector(&root).expect("vector failed");
    assert_eq!(v.len(), 4);
    assert_eq!(text(&v[0]).unwrap(), "a");
    assert_eq!(text(&v[1]).unwrap(), "b");
    assert_eq!(text(&v[2]).unwrap(), "c");
    assert_eq!(text(&v[3]).unwrap(), "d");
}

#[test]
fn end_to_end_example() {
    let source = r#"{ name: Alice age: 30 city: "San Francisco" }"#;
    let root = document(source).expect("parse failed");
    let tbl = table(&root).expect("table failed");
    assert_eq!(tbl.len(), 3);
    assert_eq!(text(tbl.get("name").unwrap()).unwrap(), "Alice");
    assert_eq!(uint64(tbl.get("age").unwrap()).unwrap(), 30);
    assert_eq!(text(tbl.get("city").unwrap()).unwrap(), "San Francisco");
}

#[test]
fn duplicate_keys_last_wins() {
    let root = document("{ key: first, key: second }").expect("parse failed");
    let tbl = table(&root).expect("table failed");
    assert_eq!(tbl.len(), 1);
    assert_eq!(text(tbl.get("key").unwrap()).unwrap(), "second");
}

#[test]
fn tab_single_lookup() {
    let source = "{ a: 1, b: { inner: yes }, c: 3 }";
    let root = document(source).expect("parse failed");

    let b = tab(&root, "b").expect("tab failed");
    let inner = tab(&b, "inner").expect("tab failed");
    assert_eq!(text(&inner).unwrap(), "yes");

    let missing = tab(&root, "zzz").unwrap_err();
    assert!(matches!(missing.kind, ErrorKind::KeyNotFound(k) if k == "zzz"));
}

#[test]
fn vec_single_lookup() {
    let source = "[one, [two, three], four]";
    let root = document(source).expect("parse failed");

    let middle = libnosr_rs::navigate::vec(&root, 1).expect("vec failed");
    let three = libnosr_rs::navigate::vec(&middle, 1).expect("vec failed");
    assert_eq!(text(&three).unwrap(), "three");

    let oob = libnosr_rs::navigate::vec(&root, 3).unwrap_err();
    assert!(matches!(oob.kind, ErrorKind::IndexOutOfBounds(3)));
}

#[test]
fn error_kind_per_input() {
    // UnclosedString, found while scanning the whole document
    let err = document("\"open").unwrap_err();
    assert!(matches!(err.kind, ErrorKind::UnclosedString));

    // UnclosedComment
    let err = document("#* open").unwrap_err();
    assert!(matches!(err.kind, ErrorKind::UnclosedComment));

    // NotATable / NotAVector on a scalar
    let root = document("plain").expect("parse failed");
    assert!(matches!(table(&root).unwrap_err().kind, ErrorKind::NotATable));
    assert!(matches!(vector(&root).unwrap_err().kind, ErrorKind::NotAVector));

    // NotAScalar: text of an empty document
    let root = document("").expect("parse failed");
    assert!(matches!(text(&root).unwrap_err().kind, ErrorKind::NotAScalar));

    // ExpectedChar(':'): a key without a colon
    let root = document("{ key value }").expect("parse failed");
    assert!(matches!(table(&root).unwrap_err().kind, ErrorKind::ExpectedChar(':')));

    // UnexpectedChar: a separator where a value should start
    let root = document("{ key: , }").expect("parse failed");
    assert!(matches!(table(&root).unwrap_err().kind, ErrorKind::UnexpectedChar(',')));

    // UnexpectedEof: a nested container never closed
    let root = document("{ key: [1, 2").expect("parse failed");
    assert!(matches!(table(&root).unwrap_err().kind, ErrorKind::UnexpectedEof));

    // InvalidEscape
    let root = document(r#""bad \q escape""#).expect("parse failed");
    assert!(matches!(text(&root).unwrap_err().kind, ErrorKind::InvalidEscape('q')));

    // ParseError
    let root = document("12x").expect("parse failed");
    assert!(matches!(uint64(&root).unwrap_err().kind, ErrorKind::ParseError(_)));
}

#[test]
fn escape_table_roundtrip() {
    // Each pair of the escape table decodes to its literal character.
    let cases = [
        ("\"\\\\\"", "\\"),
        ("\"\\n\"", "\n"),
        ("\"\\t\"", "\t"),
        ("\"\\r\"", "\r"),
        ("\"\\:\"", ":"),
        ("\"\\\"\"", "\""),
        ("\"\\[\"", "["),
        ("\"\\]\"", "]"),
        ("\"\\{\"", "{"),
        ("\"\\}\"", "}"),
    ];
    for (source, expected) in cases {
        let root = document(source).expect("parse failed");
        assert_eq!(text(&root).unwrap(), expected);
    }
}

#[test]
fn lone_trailing_backslash() {
    // The four characters `"a\"`: the backslash escapes the closing quote,
    // so the interior ends in a lone backslash.
    let source = "\"a\\\"";
    let node = Node::new(source, Span::new(0, 4));
    assert!(matches!(text(&node).unwrap_err().kind, ErrorKind::UnexpectedEof));
}

#[test]
fn uint64_leading_zeros() {
    let root = document("0042").expect("parse failed");
    assert_eq!(uint64(&root).unwrap(), 42);
    let root = document("0").expect("parse failed");
    assert_eq!(uint64(&root).unwrap(), 0);
}

#[test]
fn document_spans_cover_value() {
    let source = "  \n { a: 1 } \n ";
    let root = document(source).expect("parse failed");
    assert_eq!(root.raw(), "{ a: 1 }");
}

#[test]
fn mixed_container_kinds_nested() {
    let source = "{ items: [ { n: 1 }, [2, 3] ] }";
    let root = document(source).expect("parse failed");
    let tbl = table(&root).expect("table failed");
    let items = vector(tbl.get("items").unwrap()).expect("vector failed");
    assert_eq!(items.len(), 2);
    let first = table(&items[0]).expect("table failed");
    assert_eq!(uint64(first.get("n").unwrap()).unwrap(), 1);
    let second = vector(&items[1]).expect("vector failed");
    assert_eq!(uint64(&second[0]).unwrap(), 2);
    assert_eq!(uint64(&second[1]).unwrap(), 3);
}
