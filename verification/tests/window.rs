use h5i_db_backtest::types::UnixNanos;
use h5i_db_backtest::window::{Coverage, TimeWindow};

fn ns(value: i64) -> UnixNanos {
    UnixNanos::new(value)
}

fn window(start: i64, end: i64) -> TimeWindow {
    TimeWindow::new(ns(start), ns(end)).unwrap()
}

/// The covered part of a request.
fn ratio(coverage: Coverage) -> f64 {
    let (covered, total) = coverage.covered_nanos();
    covered as f64 / total as f64
}

#[test]
fn windows_are_half_open() {
    let w = window(100, 200);
    assert!(w.contains(ns(100)));
    assert!(!w.contains(ns(200)), "the end is excluded");
    assert!(w.contains(ns(199)));
    assert_eq!(w.last(), ns(199));
    assert_eq!(w.duration_nanos(), 100);
}

#[test]
fn empty_and_inverted_windows_are_refused() {
    assert!(TimeWindow::new(ns(100), ns(100)).is_err());
    assert!(TimeWindow::new(ns(200), ns(100)).is_err());
}

#[test]
fn inclusive_ends_convert_once_here() {
    // "through 199" is the same window as "[100, 200)".
    let stated = TimeWindow::from_inclusive_end(ns(100), ns(199)).unwrap();
    assert_eq!(stated, window(100, 200));
    assert!(stated.contains(ns(199)));
}

#[test]
fn adjacent_windows_do_not_overlap() {
    // The bug this half-open rule prevents: [a, b) and [b, c) touching
    // must not both claim instant b.
    let first = window(0, 100);
    let second = window(100, 200);
    assert!(!first.overlaps(second));
    assert_eq!(first.intersect(second), None);
    assert_eq!(first.union(second), window(0, 200));
}

#[test]
fn intersect_and_union_behave() {
    let a = window(0, 100);
    let b = window(50, 150);
    assert_eq!(a.intersect(b), Some(window(50, 100)));
    assert_eq!(a.union(b), window(0, 150));
    assert!(a.overlaps(b));
}

#[test]
fn chunks_tile_the_window_exactly() {
    let w = window(0, 250);
    let chunks = w.chunks(100).unwrap();
    assert_eq!(chunks.len(), 3);
    assert_eq!(chunks[0], window(0, 100));
    assert_eq!(chunks[1], window(100, 200));
    assert_eq!(chunks[2], window(200, 250), "the last chunk is short");
    // No gaps, no overlaps, and they sum to the whole.
    let total: i64 = chunks.iter().map(|c| c.duration_nanos()).sum();
    assert_eq!(total, w.duration_nanos());
    for pair in chunks.windows(2) {
        assert_eq!(pair[0].end(), pair[1].start());
    }
}

#[test]
fn chunk_size_must_be_positive() {
    assert!(window(0, 10).chunks(0).is_err());
}

#[test]
fn coverage_reports_a_short_load_rather_than_hiding_it() {
    let requested = window(0, 1000);
    let loaded = window(0, 600);
    let coverage = Coverage::partial(requested, loaded, &[]);
    assert_eq!(coverage.missing_nanos, 400);
    assert!((ratio(coverage) - 0.6).abs() < 1e-12);
    assert!(!coverage.is_complete());
}

#[test]
fn coverage_counts_interior_gaps() {
    let requested = window(0, 1000);
    let coverage = Coverage::partial(requested, requested, &[window(100, 200)]);
    assert_eq!(coverage.missing_nanos, 100);
    assert!((ratio(coverage) - 0.9).abs() < 1e-12);
    assert!(!coverage.is_complete());
}

#[test]
fn a_gap_outside_the_request_cannot_push_coverage_negative() {
    let requested = window(0, 100);
    let coverage = Coverage::partial(requested, requested, &[window(-10_000, 10_000)]);
    assert_eq!(coverage.missing_nanos, 100);
    assert_eq!(ratio(coverage), 0.0);
}

#[test]
fn complete_and_empty_are_the_two_extremes() {
    let requested = window(0, 100);
    assert!(Coverage::complete(requested).is_complete());
    assert_eq!(ratio(Coverage::complete(requested)), 1.0);
    assert_eq!(ratio(Coverage::empty(requested)), 0.0);
    assert_eq!(Coverage::empty(requested).loaded, None);
}
