//! Byte positions and source ranges.
use tinyrustc::span::{BytePos, Span};

fn span(lo: u32, hi: u32) -> Span {
    Span::new(BytePos(lo), BytePos(hi))
}

#[test]
fn a_span_reports_its_length() {
    assert_eq!(span(3, 7).len(), 4);
    assert_eq!(span(3, 3).len(), 0);
}

#[test]
fn only_a_zero_length_span_is_empty() {
    assert!(span(4, 4).is_empty());
    assert!(!span(4, 5).is_empty());
    assert!(Span::dummy().is_empty());
}

#[test]
fn union_covers_both_operands() {
    assert_eq!(span(2, 4).to(span(8, 9)), span(2, 9));
    // Order must not matter, because the parser does not always visit
    // tokens left to right.
    assert_eq!(span(8, 9).to(span(2, 4)), span(2, 9));
}

#[test]
fn union_of_nested_spans_is_the_outer_one() {
    assert_eq!(span(0, 10).to(span(3, 4)), span(0, 10));
}

#[test]
fn slicing_recovers_the_source_text() {
    let text = "fn main() {}";
    assert_eq!(span(0, 2).slice(text), "fn");
    assert_eq!(span(3, 7).slice(text), "main");
    assert_eq!(span(0, 0).slice(text), "");
}

#[test]
fn byte_positions_advance_by_token_length() {
    // How the layer above turns raw token lengths into absolute positions.
    let mut pos = BytePos::zero();
    for len in [2u32, 1, 4, 2] {
        pos = pos + len;
    }
    assert_eq!(pos, BytePos(9));
}

#[test]
fn union_does_not_depend_on_grouping() {
    let (a, b, c) = (span(5, 6), span(1, 3), span(8, 12));
    assert_eq!(a.to(b).to(c), a.to(b.to(c)));
    assert_eq!(a.to(b).to(c), span(1, 12));
    assert_eq!(a.to(a), a);
}

#[test]
fn a_span_reports_its_ends() {
    let s = span(3, 7);
    assert_eq!(s.lo(), BytePos(3));
    assert_eq!(s.hi(), BytePos(7));
    assert_eq!(Span::dummy(), span(0, 0));
    assert_eq!(BytePos::zero(), BytePos(0));
}

#[test]
fn slicing_counts_bytes_rather_than_characters() {
    let text = "\u{e9}\u{3042}x";
    assert_eq!(span(0, 2).slice(text), "\u{e9}");
    assert_eq!(span(2, 5).slice(text), "\u{3042}");
    assert_eq!(span(5, 6).slice(text), "x");
    assert_eq!(span(0, 6).slice(text), text);
    assert_eq!(span(6, 6).slice(text), "");
}
