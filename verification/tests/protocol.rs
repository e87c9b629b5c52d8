use mouse_testing::sensor::protocol::Test;

#[test]
fn every_test_has_its_own_written_steps() {
    let all = Test::all();
    let counts: Vec<usize> = all.iter().map(|t| t.steps().len()).collect();
    assert_eq!(counts, vec![5, 3, 4, 4, 4, 7]);
    for t in all {
        assert!(t.steps().iter().all(|s| !s.is_empty()));
    }
    assert!(Test::Snap.steps()[0].starts_with("Aim for a long straight line"));
    assert!(Test::Smooth.steps()[0].starts_with("Put a book"));
    assert_eq!(Test::Drift.steps()[2], "A mouse that reports nothing at all here is the ideal result, not a failure of the test.");
}
