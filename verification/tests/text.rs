use laurier::highlight::{clip, is_covered};
use laurier::ranges::Range;
use laurier::text::{byte_length, slice, total_length, Span};

#[test]
fn byte_length_counts_bytes_not_characters() {
    assert_eq!(byte_length(""), 0);
    assert_eq!(byte_length("abc"), 3);
    assert_eq!(byte_length("é"), 2);
    assert_eq!(byte_length("日本語"), 9);
}

#[test]
fn total_length_adds_the_spans_up() {
    assert_eq!(total_length(&vec![]), Some(0));
    assert_eq!(total_length(&vec![Span::raw("abc"), Span::raw(""), Span::raw("é")]), Some(5));
}

#[test]
fn slice_takes_the_bytes_between_two_boundaries() {
    assert_eq!(slice("abcdef", 2, 4), "cd");
    assert_eq!(slice("abcdef", 0, 6), "abcdef");
    assert_eq!(slice("abcdef", 3, 3), "");
    assert_eq!(slice("aé日b", 1, 3), "é");
    assert_eq!(slice("aé日b", 3, 7), "日b");
}

#[test]
fn is_covered_looks_in_every_range() {
    let ranges = vec![Range::new(2, 5), Range::new(7, 8)];
    assert!(!is_covered(&ranges, 1));
    assert!(is_covered(&ranges, 2));
    assert!(is_covered(&ranges, 4));
    assert!(!is_covered(&ranges, 5));
    assert!(is_covered(&ranges, 7));
    assert!(!is_covered(&ranges, 8));
    assert!(!is_covered(&[], 0));
}

#[test]
fn clip_keeps_ranges_that_end_by_the_limit() {
    let ranges = vec![Range::new(0, 2), Range::new(4, 6)];
    assert_eq!(clip(&ranges, 6, 9), ranges);
    assert_eq!(clip(&[], 6, 9), vec![]);
}

#[test]
fn clip_stretches_the_range_that_passes_the_limit() {
    let ranges = vec![Range::new(0, 2), Range::new(3, 7), Range::new(8, 9)];
    assert_eq!(clip(&ranges, 6, 9), vec![Range::new(0, 2), Range::new(3, 9)]);
}

#[test]
fn clip_moves_a_range_beyond_the_limit_to_the_limit() {
    let ranges = vec![Range::new(0, 2), Range::new(7, 8), Range::new(10, 12)];
    assert_eq!(clip(&ranges, 6, 9), vec![Range::new(0, 2), Range::new(6, 9)]);
    let ranges = vec![Range::new(6, 8)];
    assert_eq!(clip(&ranges, 6, 9), vec![Range::new(6, 9)]);
}
