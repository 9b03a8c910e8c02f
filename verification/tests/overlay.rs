use lyneate::{CharSpan, MessageSpan, SpanOverlay};

#[test]
fn overlay_over_the_right_edge_leaves_the_left_part() {
    assert_eq!((10usize..15).overlay(13..17), SpanOverlay::Single(10..13));
}

#[test]
fn overlay_over_the_left_edge_leaves_the_right_part() {
    assert_eq!((10usize..15).overlay(6..12), SpanOverlay::Single(12..15));
}

#[test]
fn overlay_strictly_inside_leaves_two_parts() {
    assert_eq!(
        (10usize..15).overlay(12..13),
        SpanOverlay::Double(10..12, 13..15)
    );
}

#[test]
fn overlay_of_disjoint_spans_returns_the_bottom_span() {
    assert_eq!((10usize..15).overlay(20..25), SpanOverlay::Single(10..15));
    assert_eq!((10usize..15).overlay(0..3), SpanOverlay::Single(10..15));
}

#[test]
fn overlay_of_touching_spans_returns_the_bottom_span() {
    assert_eq!((10usize..15).overlay(15..20), SpanOverlay::Single(10..15));
    assert_eq!((10usize..15).overlay(5..10), SpanOverlay::Single(10..15));
}

#[test]
fn overlay_of_an_equal_span_is_empty() {
    assert_eq!((10usize..15).overlay(10..15), SpanOverlay::Empty);
}

#[test]
fn overlay_of_an_equal_empty_span_returns_it() {
    assert_eq!((5usize..5).overlay(5..5), SpanOverlay::Single(5..5));
}

#[test]
fn overlay_of_a_covering_span_is_empty() {
    assert_eq!((10usize..15).overlay(8..20), SpanOverlay::Empty);
    assert_eq!((10usize..15).overlay(10..16), SpanOverlay::Empty);
    assert_eq!((10usize..15).overlay(9..15), SpanOverlay::Empty);
}

#[test]
fn overlay_of_an_empty_span_inside_returns_the_bottom_span() {
    assert_eq!((0usize..10).overlay(5..5), SpanOverlay::Single(0..10));
}

#[test]
fn overlay_parts_bracket_the_top_span() {
    let bottom = CharSpan { start: 3, end: 30 };
    let top = CharSpan { start: 7, end: 11 };
    match bottom.overlay(top) {
        SpanOverlay::Double(left, right) => {
            assert_eq!(left, CharSpan { start: 3, end: 7 });
            assert_eq!(right, CharSpan { start: 11, end: 30 });
            assert!(left.end <= right.start);
        }
        other => panic!("two parts expected, got {:?}", other),
    }
}

#[test]
fn span_overlay_next_hands_out_the_spans_in_order() {
    let a = CharSpan { start: 1, end: 2 };
    let b = CharSpan { start: 4, end: 8 };
    let mut both = SpanOverlay::Double(a, b);
    assert_eq!(both.next(), Some(a));
    assert_eq!(both, SpanOverlay::Single(b));
    assert_eq!(both.next(), Some(b));
    assert_eq!(both, SpanOverlay::Empty);
    assert_eq!(both.next(), None);
    assert_eq!(both, SpanOverlay::Empty);
}

#[test]
fn range_is_a_message_span() {
    let span = 4usize..9;
    assert_eq!(MessageSpan::start(&span), 4);
    assert_eq!(MessageSpan::end(&span), 9);
    assert_eq!(MessageSpan::len(&span), 5);
    assert!(!MessageSpan::is_empty(&span));
    assert!(MessageSpan::is_empty(&(7usize..7)));
    assert_eq!(span.to_range(), 4..9);
    assert_eq!(<std::ops::Range<usize> as MessageSpan>::from_range(2..3), 2..3);
    assert_eq!((4usize..9).sub(4), 0..5);
    assert_eq!((4usize..9).plus(10), 14..19);
}

#[test]
fn char_span_is_a_message_span() {
    let span = CharSpan::from_range(4..9);
    assert_eq!(span, CharSpan { start: 4, end: 9 });
    assert_eq!(span.start(), 4);
    assert_eq!(span.end(), 9);
    assert_eq!(span.len(), 5);
    assert!(!span.is_empty());
    assert_eq!(span.to_range(), 4..9);
    assert_eq!(span.sub(3), CharSpan { start: 1, end: 6 });
    assert_eq!(span.plus(3), CharSpan { start: 7, end: 12 });
}
