use mouse_testing::sensor::scroll::{cluster_wheel, gcd, Axis};
use mouse_testing::sensor::types::Report;

#[test]
fn gcd_of_magnitudes() {
    assert_eq!(gcd(120, 48), 24);
    assert_eq!(gcd(-120, 48), 24);
    assert_eq!(gcd(120, -48), 24);
    assert_eq!(gcd(-7, -21), 7);
    assert_eq!(gcd(17, 5), 1);
}

#[test]
fn gcd_with_zero_is_the_other_magnitude() {
    assert_eq!(gcd(0, -9), 9);
    assert_eq!(gcd(-9, 0), 9);
    assert_eq!(gcd(0, 0), 0);
}

#[test]
fn gcd_reaches_the_extremes() {
    assert_eq!(gcd(i64::MIN, 6), 2);
    assert_eq!(gcd(3, i64::MIN), 1);
    assert_eq!(gcd(i64::MAX, i64::MAX), i64::MAX);
}

#[test]
fn clusters_split_the_wheel_reports_into_runs() {
    let ms = 1_000_000u64;
    let reports = vec![
        Report::wheel_ev(0, 1),
        Report::wheel_ev(2 * ms, 1),
        Report::motion(3 * ms, 5, 5),
        Report::wheel_ev(4 * ms, 2),
        Report::wheel_ev(5 * ms, -1),
        Report::wheel_ev(100 * ms, -1),
        Report::wheel_ev(101 * ms, -3),
    ];
    let cs = cluster_wheel(&reports, Axis::Vertical, 12 * ms);
    let got: Vec<(u64, i64, usize, u64)> = cs.iter().map(|c| (c.t_ns, c.sum, c.n_reports, c.duration_ns)).collect();
    assert_eq!(got, vec![(0, 4, 3, 4 * ms), (5 * ms, -1, 1, 0), (100 * ms, -4, 2, ms)]);
    assert_eq!(cs.iter().map(|c| c.n_reports).sum::<usize>(), 6);
    assert!(cs.iter().all(|c| c.steps == 0));
}
