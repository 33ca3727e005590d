use bed_cov::error::IndexError;
use bed_cov::index::{find_invalid, Backend, IntervalIndex};
use bed_cov::interval::Interval;

fn iv(start: u32, end: u32) -> Interval {
    Interval::new(start, end)
}

fn sorted(mut found: Vec<Interval>) -> Vec<(u32, u32)> {
    found.sort_by_key(|iv| (iv.start, iv.end));
    found.iter().map(|iv| (iv.start, iv.end)).collect()
}

fn backends() -> Vec<Backend> {
    vec![Backend::Lapper, Backend::CoiTree, Backend::IITree]
}

#[test]
fn overlapping_returns_exactly_the_overlaps() {
    let stored = vec![iv(20, 30), iv(0, 10), iv(5, 25), iv(40, 50), iv(0, 10), iv(10, 20)];
    for backend in backends() {
        let index = IntervalIndex::build(backend, &stored).unwrap();
        assert_eq!(index.backend(), backend);
        let found = index.overlapping(8, 21).unwrap();
        assert_eq!(sorted(found), vec![(0, 10), (0, 10), (5, 25), (10, 20), (20, 30)]);
        let found = index.overlapping(30, 40).unwrap();
        assert_eq!(sorted(found), vec![]);
        let found = index.overlapping(49, 1000).unwrap();
        assert_eq!(sorted(found), vec![(40, 50)]);
    }
}

#[test]
fn touching_intervals_do_not_overlap() {
    let stored = vec![iv(0, 10), iv(20, 30)];
    for backend in backends() {
        let index = IntervalIndex::build(backend, &stored).unwrap();
        assert_eq!(sorted(index.overlapping(10, 20).unwrap()), vec![]);
        assert_eq!(sorted(index.overlapping(9, 20).unwrap()), vec![(0, 10)]);
        assert_eq!(sorted(index.overlapping(10, 21).unwrap()), vec![(20, 30)]);
    }
}

#[test]
fn empty_index_answers_nothing() {
    for backend in backends() {
        let index = IntervalIndex::build(backend, &[]).unwrap();
        assert_eq!(index.overlapping(0, u32::MAX).unwrap().len(), 0);
    }
}

#[test]
fn malformed_interval_is_refused_with_its_bounds() {
    for backend in backends() {
        let built = IntervalIndex::build(backend, &[iv(0, 10), iv(7, 7), iv(9, 3)]);
        assert_eq!(built.err(), Some(IndexError::InvalidInterval { start: 7, end: 7 }));
        let built = IntervalIndex::build(backend, &[iv(9, 3)]);
        assert_eq!(built.err(), Some(IndexError::InvalidInterval { start: 9, end: 3 }));
    }
}

#[test]
fn malformed_query_is_refused() {
    for backend in backends() {
        let index = IntervalIndex::build(backend, &[iv(0, 10)]).unwrap();
        assert_eq!(
            index.overlapping(5, 5).err(),
            Some(IndexError::InvalidQuery { start: 5, end: 5 })
        );
        assert_eq!(
            index.overlapping(6, 2).err(),
            Some(IndexError::InvalidQuery { start: 6, end: 2 })
        );
    }
}

#[test]
fn positions_beyond_the_signed_range_are_kept() {
    let top = u32::MAX;
    let edge = 2147483647u32;
    let stored = vec![
        iv(edge - 1, edge),
        iv(edge - 1, edge + 1),
        iv(edge, edge + 5),
        iv(0, top),
        iv(top - 1, top),
        iv(3, 4),
    ];
    for backend in backends() {
        let index = IntervalIndex::build(backend, &stored).unwrap();
        assert_eq!(
            sorted(index.overlapping(edge - 1, edge).unwrap()),
            vec![(0, top), (edge - 1, edge), (edge - 1, edge + 1)]
        );
        assert_eq!(
            sorted(index.overlapping(edge, edge + 1).unwrap()),
            vec![(0, top), (edge - 1, edge + 1), (edge, edge + 5)]
        );
        assert_eq!(
            sorted(index.overlapping(0, top).unwrap()),
            vec![
                (0, top),
                (3, 4),
                (edge - 1, edge),
                (edge - 1, edge + 1),
                (edge, edge + 5),
                (top - 1, top)
            ]
        );
        assert_eq!(sorted(index.overlapping(top - 1, top).unwrap()), vec![(0, top), (top - 1, top)]);
        assert_eq!(sorted(index.overlapping(4, 5).unwrap()), vec![(0, top)]);
    }
}

#[test]
fn every_backend_finds_what_a_plain_scan_finds() {
    let mut state: u64 = 0xda3e39cb94b95bdb;
    let mut next = move |bound: u64| -> u64 {
        state = state.wrapping_mul(6364136223846793005).wrapping_add(1442695040888963407);
        (state >> 20) % bound
    };
    let top = u32::MAX as u64;
    let mut stored = Vec::new();
    for round in 0..2500 {
        // Short, long and repeated intervals, on both sides of the signed range.
        let base = match round % 5 {
            0 => next(1_000),
            1 => 2_147_483_000 + next(2_000),
            2 => next(top),
            3 => 4_294_000_000 + next(900_000),
            _ => next(50) * 100,
        };
        let len = 1 + match round % 3 {
            0 => next(20),
            1 => next(5_000),
            _ => next(3_000_000_000),
        };
        let end = (base + len).min(top);
        stored.push(iv(base as u32, end as u32));
    }
    let mut queries = Vec::new();
    for round in 0..300 {
        let start = match round % 4 {
            0 => next(1_200),
            1 => 2_147_482_000 + next(4_000),
            2 => next(top),
            _ => 4_293_900_000 + next(1_000_000),
        };
        let len = 1 + if round % 2 == 0 { next(500) } else { next(2_000_000_000) };
        let end = (start + len).min(top);
        queries.push((start as u32, end as u32));
    }
    let indexes: Vec<IntervalIndex> =
        backends().into_iter().map(|b| IntervalIndex::build(b, &stored).unwrap()).collect();
    for (start, end) in queries {
        let expected = sorted(
            stored.iter().filter(|iv| iv.start < end && iv.end > start).cloned().collect(),
        );
        for index in &indexes {
            assert_eq!(sorted(index.overlapping(start, end).unwrap()), expected);
        }
    }
}

#[test]
fn find_invalid_points_at_the_first_interval_without_positions() {
    assert_eq!(find_invalid(&[]), None);
    assert_eq!(find_invalid(&[iv(0, 1), iv(5, 9)]), None);
    assert_eq!(find_invalid(&[iv(0, 1), iv(9, 9), iv(5, 9), iv(4, 2)]), Some(1));
    assert_eq!(find_invalid(&[iv(1, 0)]), Some(0));
    assert_eq!(find_invalid(&[iv(0, u32::MAX), iv(u32::MAX, u32::MAX)]), Some(1));
}
