use laurier::ranges::{find_next_break, sort_and_dedup, to_ranges, Range};

#[test]
fn test_to_ranges_empty() {
    assert_eq!(to_ranges(vec![]), vec![]);
}

#[test]
fn test_to_ranges_single() {
    assert_eq!(to_ranges(vec![1]), vec![Range::new(1, 2)]);
}

#[test]
fn test_to_ranges_one_run() {
    assert_eq!(to_ranges(vec![1, 2, 3]), vec![Range::new(1, 4)]);
}

#[test]
fn test_to_ranges_apart() {
    assert_eq!(
        to_ranges(vec![1, 3, 5]),
        vec![Range::new(1, 2), Range::new(3, 4), Range::new(5, 6)]
    );
}

#[test]
fn test_to_ranges_three_runs() {
    assert_eq!(
        to_ranges(vec![1, 2, 3, 5, 6, 7, 9, 10, 11]),
        vec![Range::new(1, 4), Range::new(5, 8), Range::new(9, 12)]
    );
}

#[test]
fn test_to_ranges_unsorted_with_repeats() {
    assert_eq!(
        to_ranges(vec![5, 10, 2, 3, 3, 7, 9, 5, 10, 1, 11, 6]),
        vec![Range::new(1, 4), Range::new(5, 8), Range::new(9, 12)]
    );
}

#[test]
fn to_ranges_of_the_example() {
    assert_eq!(
        to_ranges(vec![2, 3, 4, 7, 9, 10]),
        vec![Range::new(2, 5), Range::new(7, 8), Range::new(9, 11)]
    );
    assert_eq!(to_ranges(vec![3, 4, 5, 6]), vec![Range::new(3, 7)]);
}

#[test]
fn to_ranges_leaves_out_the_largest_index() {
    assert_eq!(to_ranges(vec![usize::MAX]), vec![]);
    assert_eq!(
        to_ranges(vec![usize::MAX, 3, usize::MAX - 1]),
        vec![Range::new(3, 4), Range::new(usize::MAX - 1, usize::MAX)]
    );
    assert_eq!(to_ranges(vec![usize::MAX, 0, usize::MAX]), vec![Range::new(0, 1)]);
}

#[test]
fn to_ranges_is_sorted_disjoint_and_covers_the_indices() {
    let indices = vec![40, 2, 41, 7, 2, 8, 9, 0, 42];
    let ranges = to_ranges(indices.clone());
    for range in &ranges {
        assert!(range.start < range.end);
    }
    for pair in ranges.windows(2) {
        assert!(pair[0].end < pair[1].start);
    }
    for pos in 0..50 {
        let covered = ranges.iter().any(|range| range.start <= pos && pos < range.end);
        assert_eq!(covered, indices.contains(&pos));
    }
}

#[test]
fn to_ranges_is_idempotent() {
    let ranges = to_ranges(vec![5, 10, 2, 3, 3, 7, 9, 5, 10, 1, 11, 6]);
    let flat: Vec<usize> = ranges.iter().flat_map(|range| range.start..range.end).collect();
    assert_eq!(flat, vec![1, 2, 3, 5, 6, 7, 9, 10, 11]);
    assert_eq!(to_ranges(flat), ranges);
}

#[test]
fn sort_and_dedup_sorts_and_removes_repeats() {
    assert_eq!(sort_and_dedup(vec![]), vec![]);
    assert_eq!(sort_and_dedup(vec![3, 1, 2]), vec![1, 2, 3]);
    assert_eq!(sort_and_dedup(vec![5, 5, 1, 5, 0, 1]), vec![0, 1, 5]);
}

#[test]
fn find_next_break_finds_the_least_bound_beyond() {
    let ranges = vec![Range::new(2, 5), Range::new(7, 8)];
    assert_eq!(find_next_break(0, &ranges), Some(2));
    assert_eq!(find_next_break(2, &ranges), Some(5));
    assert_eq!(find_next_break(4, &ranges), Some(5));
    assert_eq!(find_next_break(5, &ranges), Some(7));
    assert_eq!(find_next_break(7, &ranges), Some(8));
    assert_eq!(find_next_break(8, &ranges), None);
    assert_eq!(find_next_break(0, &[]), None);
}

#[test]
fn find_next_break_takes_ranges_in_any_order() {
    let ranges = vec![Range::new(7, 8), Range::new(9, 3)];
    assert_eq!(find_next_break(0, &ranges), Some(3));
    assert_eq!(find_next_break(3, &ranges), Some(7));
    assert_eq!(find_next_break(8, &ranges), Some(9));
}

#[test]
fn range_new_keeps_its_bounds() {
    let range = Range::new(3, 9);
    assert_eq!(range.start, 3);
    assert_eq!(range.end, 9);
}
