//! Tests of span extraction and merging.

use libnosr_rs::Span;

#[test]
fn span_extract() {
    let source = "hello world";
    let span = Span::new(0, 5);
    assert_eq!(span.extract(source), "hello");

    let span2 = Span::new(6, 5);
    assert_eq!(span2.extract(source), "world");
}

#[test]
fn span_end() {
    let span = Span::new(3, 4);
    assert_eq!(span.end(), 7);
    let empty = Span::new(9, 0);
    assert_eq!(empty.end(), 9);
}

#[test]
fn span_merge_disjoint_covers_gap() {
    let span1 = Span::new(0, 2); // 0..2
    let span2 = Span::new(5, 3); // 5..8
    let merged = span1.merge(&span2);
    assert_eq!(merged.start, 0);
    assert_eq!(merged.len, 8);
}

#[test]
fn span_merge() {
    // Test merging overlapping spans
    let span1 = Span::new(5, 5); // 5..10
    let span2 = Span::new(8, 4); // 8..12
    let merged = span1.merge(&span2);
    assert_eq!(merged.start, 5);
    assert_eq!(merged.len, 7); // 5..12
}
