use mouse_testing::cps::peak_count;

#[test]
fn a_steady_rate_fills_each_window_evenly() {
    let t: Vec<u64> = (0..100).map(|i| i * 100_000_000).collect();
    // Ten presses 100 ms apart span 900 ms; the eleventh is exactly one
    // second after the first and still inside a window that long.
    assert_eq!(peak_count(&t, 1_000_000_000), 11);
}

#[test]
fn a_short_burst_is_found_wherever_it_falls() {
    let mut t: Vec<u64> = (0..20).map(|i| i * 50_000_000).collect();
    t.extend((0..10).map(|i| 2_000_000_000 + i * 900_000_000));
    assert_eq!(peak_count(&t, 1_000_000_000), 20);
}

#[test]
fn no_presses_is_no_peak() {
    assert_eq!(peak_count(&[], 1_000_000_000), 0);
    assert_eq!(peak_count(&[5], 0), 1);
}

#[test]
fn a_zero_window_counts_only_presses_at_the_same_time() {
    assert_eq!(peak_count(&[1, 1, 1, 2, 3, 3], 0), 3);
}
