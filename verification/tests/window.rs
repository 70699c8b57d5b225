use netcore_engine::rules::window::{CountWindow, DistinctWindow, MAX_EVENTS_PER_SOURCE};

#[test]
fn distinct_counts_expire_with_the_window() {
    let mut w = DistinctWindow::new();
    assert_eq!(w.add(0, 1u16, 10), 1);
    assert_eq!(w.add(5, 2, 10), 2);
    assert_eq!(w.add(6, 2, 10), 2);
    assert_eq!(w.add(12, 3, 10), 2);
    assert_eq!(w.add(16, 3, 10), 2);
    assert_eq!(w.add(30, 4, 10), 1);
}

#[test]
fn count_window_slides() {
    let mut w = CountWindow::new();
    assert_eq!(w.add(0, 10), 1);
    assert_eq!(w.add(10, 10), 2);
    assert_eq!(w.add(11, 10), 2);
}

#[test]
fn distinct_window_is_bounded_per_source() {
    let mut w = DistinctWindow::new();
    let mut last = 0;
    for i in 0..(MAX_EVENTS_PER_SOURCE as u64 + 10) {
        last = w.add(1_000, i, u64::MAX);
    }
    assert_eq!(last, MAX_EVENTS_PER_SOURCE);
}

#[test]
fn count_window_is_bounded_per_source() {
    let mut w = CountWindow::new();
    let mut last = 0;
    for _ in 0..(MAX_EVENTS_PER_SOURCE + 5) {
        last = w.add(7, 1_000_000);
    }
    assert_eq!(last, MAX_EVENTS_PER_SOURCE);
}

#[test]
fn repeated_keys_count_once() {
    let mut w = DistinctWindow::new();
    for ts in 0..100u64 {
        assert_eq!(w.add(ts, 42u16, 1_000), 1);
    }
    assert_eq!(w.add(100, 43, 1_000), 2);
}
