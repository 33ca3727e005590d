use bed_cov::coverage::{coverage, CoverageResult};
use bed_cov::interval::Interval;
use bed_cov::sort::{is_ordered_by_start, sort_by_start};

fn iv(start: u32, end: u32) -> Interval {
    Interval::new(start, end)
}

fn result(overlap_count: usize, covered_length: u32) -> CoverageResult {
    CoverageResult { overlap_count, covered_length }
}

/// Counts the covered positions of the query one by one.
fn covered_by_counting(query_start: u32, query_end: u32, overlaps: &[Interval]) -> u32 {
    let mut covered = 0;
    let mut p = query_start;
    while p < query_end {
        if overlaps.iter().any(|iv| iv.start <= p && p < iv.end) {
            covered += 1;
        }
        p += 1;
    }
    covered
}

fn clipped_length(query_start: u32, query_end: u32, iv: &Interval) -> u32 {
    let from = iv.start.max(query_start);
    let to = iv.end.min(query_end);
    if from < to {
        to - from
    } else {
        0
    }
}

#[test]
fn disjoint_overlaps_sum_exactly() {
    assert_eq!(coverage(0, 30, &[iv(0, 10), iv(20, 30)]), result(2, 20));
}

#[test]
fn adjacent_overlaps_merge() {
    assert_eq!(coverage(0, 20, &[iv(0, 10), iv(10, 20)]), result(2, 20));
}

#[test]
fn duplicate_overlaps_are_both_counted() {
    assert_eq!(coverage(0, 10, &[iv(0, 10), iv(0, 10)]), result(2, 10));
}

#[test]
fn no_overlaps_give_the_zero_result() {
    assert_eq!(coverage(5, 50, &[]), result(0, 0));
}

#[test]
fn one_overlap_that_contains_the_query_covers_all_of_it() {
    assert_eq!(coverage(100, 200, &[iv(100, 200)]), result(1, 100));
    assert_eq!(coverage(100, 200, &[iv(0, 1000)]), result(1, 100));
    assert_eq!(coverage(100, 200, &[iv(99, 201)]), result(1, 100));
    assert_eq!(coverage(100, 200, &[iv(0, u32::MAX)]), result(1, 100));
}

#[test]
fn overlaps_are_clipped_to_the_query() {
    assert_eq!(coverage(10, 20, &[iv(0, 12)]), result(1, 2));
    assert_eq!(coverage(10, 20, &[iv(18, 40)]), result(1, 2));
    assert_eq!(coverage(10, 20, &[iv(0, 12), iv(18, 40)]), result(2, 4));
    assert_eq!(coverage(10, 20, &[iv(0, 15), iv(12, 40)]), result(2, 10));
}

#[test]
fn nested_overlaps_count_each_but_cover_once() {
    assert_eq!(coverage(0, 100, &[iv(10, 90), iv(20, 30), iv(40, 50), iv(45, 60)]), result(4, 80));
}

#[test]
fn a_gap_of_one_position_is_not_covered() {
    assert_eq!(coverage(0, 21, &[iv(0, 10), iv(11, 21)]), result(2, 20));
}

#[test]
fn out_of_order_overlaps_give_the_result_of_the_ordered_ones() {
    let ordered = [iv(0, 10), iv(5, 25), iv(20, 30), iv(40, 45)];
    let shuffled = [iv(40, 45), iv(20, 30), iv(0, 10), iv(5, 25)];
    assert_eq!(coverage(0, 50, &ordered), result(4, 35));
    assert_eq!(coverage(0, 50, &shuffled), result(4, 35));
}

#[test]
fn a_late_short_interval_does_not_hide_an_early_long_one() {
    assert_eq!(coverage(0, 100, &[iv(50, 60), iv(0, 100)]), result(2, 100));
    assert_eq!(coverage(0, 100, &[iv(90, 95), iv(10, 20), iv(0, 5)]), result(3, 20));
}

#[test]
fn every_order_of_the_overlaps_gives_the_same_result() {
    let a = iv(3, 9);
    let b = iv(7, 15);
    let c = iv(30, 35);
    let d = iv(0, 4);
    let items = [a, b, c, d];
    let expected = coverage(2, 32, &items);
    assert_eq!(expected, result(4, 15));
    let mut order = [0usize, 1, 2, 3];
    let mut seen = 0;
    // Heap's algorithm over the four positions.
    let mut counters = [0usize; 4];
    let permuted: Vec<Interval> = order.iter().map(|&i| items[i]).collect();
    assert_eq!(coverage(2, 32, &permuted), expected);
    seen += 1;
    let mut i = 0;
    while i < 4 {
        if counters[i] < i {
            if i % 2 == 0 {
                order.swap(0, i);
            } else {
                order.swap(counters[i], i);
            }
            let permuted: Vec<Interval> = order.iter().map(|&i| items[i]).collect();
            assert_eq!(coverage(2, 32, &permuted), expected);
            seen += 1;
            counters[i] += 1;
            i = 0;
        } else {
            counters[i] = 0;
            i += 1;
        }
    }
    assert_eq!(seen, 24);
}

#[test]
fn covered_length_is_bounded_by_the_query_and_by_the_clipped_lengths() {
    let overlaps = [iv(0, 40), iv(10, 20), iv(35, 80), iv(90, 200), iv(95, 97)];
    let got = coverage(5, 100, &overlaps);
    let total: u32 = overlaps.iter().map(|iv| clipped_length(5, 100, iv)).sum();
    assert_eq!(got, result(5, 85));
    assert_eq!(total, 35 + 10 + 45 + 10 + 2);
    assert!(got.covered_length <= 100 - 5);
    assert!(got.covered_length < total);
}

#[test]
fn covered_length_is_the_sum_of_clipped_lengths_when_nothing_is_shared() {
    let overlaps = [iv(0, 10), iv(10, 20), iv(50, 60), iv(95, 300)];
    let got = coverage(5, 100, &overlaps);
    let total: u32 = overlaps.iter().map(|iv| clipped_length(5, 100, iv)).sum();
    assert_eq!(total, 5 + 10 + 10 + 5);
    assert_eq!(got, result(4, total));
}

#[test]
fn intervals_that_miss_the_query_count_but_cover_nothing() {
    assert_eq!(coverage(0, 50, &[iv(100, 200)]), result(1, 0));
    assert_eq!(coverage(100, 150, &[iv(0, 50), iv(150, 160), iv(0, 100)]), result(3, 0));
    assert_eq!(coverage(100, 150, &[iv(0, 50), iv(120, 130), iv(300, 400)]), result(3, 10));
}

#[test]
fn a_query_without_positions_is_never_covered() {
    assert_eq!(coverage(10, 10, &[iv(0, 20)]), result(1, 0));
    assert_eq!(coverage(30, 10, &[iv(0, 40), iv(5, 35)]), result(2, 0));
}

#[test]
fn the_whole_range_of_positions_can_be_covered() {
    assert_eq!(coverage(0, u32::MAX, &[iv(0, u32::MAX)]), result(1, u32::MAX));
    assert_eq!(
        coverage(0, u32::MAX, &[iv(u32::MAX - 1, u32::MAX), iv(0, 1), iv(0, 1)]),
        result(3, 2)
    );
    assert_eq!(
        coverage(0, u32::MAX, &[iv(2147483648, u32::MAX), iv(0, 2147483648)]),
        result(2, u32::MAX)
    );
}

#[test]
fn coverage_agrees_with_counting_positions() {
    let mut state: u64 = 0x9e3779b97f4a7c15;
    let mut next = move |bound: u32| -> u32 {
        state = state.wrapping_mul(6364136223846793005).wrapping_add(1442695040888963407);
        ((state >> 33) as u32) % bound
    };
    for round in 0..200 {
        let n = next(12) as usize;
        let mut overlaps = Vec::new();
        for _ in 0..n {
            let start = next(120);
            let len = 1 + next(40);
            overlaps.push(iv(start, start + len));
        }
        let query_start = next(100);
        let query_end = query_start + next(60);
        let got = coverage(query_start, query_end, &overlaps);
        assert_eq!(got.overlap_count, n, "round {}", round);
        assert_eq!(
            got.covered_length,
            covered_by_counting(query_start, query_end, &overlaps),
            "round {}",
            round
        );
    }
}

#[test]
fn sort_by_start_orders_and_keeps_every_element() {
    let items = [iv(9, 10), iv(3, 50), iv(7, 8), iv(3, 4), iv(0, 1), iv(7, 8)];
    let sorted = sort_by_start(&items);
    let starts: Vec<u32> = sorted.iter().map(|iv| iv.start).collect();
    assert_eq!(starts, vec![0, 3, 3, 7, 7, 9]);
    let mut got: Vec<(u32, u32)> = sorted.iter().map(|iv| (iv.start, iv.end)).collect();
    let mut expected: Vec<(u32, u32)> = items.iter().map(|iv| (iv.start, iv.end)).collect();
    got.sort();
    expected.sort();
    assert_eq!(got, expected);
    assert_eq!(sort_by_start(&[]).len(), 0);
    assert_eq!(sort_by_start(&[iv(4, 5)]), vec![iv(4, 5)]);
}

#[test]
fn is_ordered_by_start_looks_at_starts_only() {
    assert!(is_ordered_by_start(&[]));
    assert!(is_ordered_by_start(&[iv(5, 6)]));
    assert!(is_ordered_by_start(&[iv(1, 100), iv(1, 2), iv(2, 3)]));
    assert!(!is_ordered_by_start(&[iv(1, 100), iv(3, 4), iv(2, 3)]));
}

#[test]
fn interval_tests_follow_the_half_open_convention() {
    let a = iv(10, 20);
    assert!(a.is_valid());
    assert!(!iv(10, 10).is_valid());
    assert!(!iv(11, 10).is_valid());
    assert!(a.overlaps_query(19, 30));
    assert!(!a.overlaps_query(20, 30));
    assert!(a.overlaps_query(0, 11));
    assert!(!a.overlaps_query(0, 10));
    assert!(a.overlaps_query(12, 13));
    assert_eq!(a, Interval { start: 10, end: 20 });
}
