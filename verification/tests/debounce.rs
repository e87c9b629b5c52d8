use mouse_testing::debounce::{button_ids, edge_counts, presses_for, ButtonEvent, Press};

fn ev(t_ns: u64, button: u8, down: bool) -> ButtonEvent {
    ButtonEvent { t_ns, button, down }
}

#[test]
fn unpaired_edges_are_counted_not_dropped() {
    let evs = vec![
        ev(0, 1, true),
        // Second press with no release between.
        ev(10_000_000, 1, true),
        ev(90_000_000, 1, false),
        // Release with no press.
        ev(95_000_000, 1, false),
    ];
    let (presses, unmatched_down, unmatched_up) = presses_for(&evs, 1);
    assert_eq!(unmatched_down, 1);
    assert_eq!(unmatched_up, 1);
    assert_eq!(edge_counts(&evs, 1), (2, 2));
    assert_eq!(presses.len(), 1);
    assert_eq!(
        presses[0],
        Press { down_ns: 0, up_ns: Some(90_000_000), dwell_ns: Some(90_000_000), gap_ns: None }
    );
}

#[test]
fn edges_are_paired_in_time_order_whatever_order_they_arrive_in() {
    let evs = vec![
        ev(87_000_000, 1, false),
        ev(80_000_000, 1, false),
        ev(0, 1, true),
        ev(84_000_000, 1, true),
        ev(50, 2, true),
    ];
    let (presses, ud, uu) = presses_for(&evs, 1);
    assert_eq!((ud, uu), (0, 0));
    assert_eq!(presses.len(), 2);
    assert_eq!(presses[0].dwell_ns, Some(80_000_000));
    assert_eq!(presses[1].down_ns, 84_000_000);
    assert_eq!(presses[1].gap_ns, Some(4_000_000));
    assert_eq!(presses[1].dwell_ns, Some(3_000_000));
}

#[test]
fn a_press_still_held_at_the_end_is_kept_without_a_release() {
    let evs = vec![ev(0, 3, true), ev(10, 3, false), ev(30, 3, true)];
    let (presses, ud, uu) = presses_for(&evs, 3);
    assert_eq!((ud, uu), (0, 0));
    assert_eq!(presses.len(), 2);
    assert_eq!(presses[1], Press { down_ns: 30, up_ns: None, dwell_ns: None, gap_ns: Some(20) });
}

#[test]
fn edges_at_the_same_time_keep_their_order() {
    // A press and its release stamped with the same time stay a press then a
    // release, not a release with no press followed by a press never let go.
    let evs = vec![ev(5, 1, true), ev(5, 1, false)];
    let (presses, ud, uu) = presses_for(&evs, 1);
    assert_eq!((presses.len(), ud, uu), (1, 0, 0));
    assert_eq!(presses[0].dwell_ns, Some(0));
}

#[test]
fn other_buttons_are_ignored_and_an_empty_run_has_nothing() {
    let evs = vec![ev(0, 2, true), ev(10, 2, false)];
    let (presses, ud, uu) = presses_for(&evs, 1);
    assert!(presses.is_empty());
    assert_eq!((ud, uu), (0, 0));
    let (p2, _, _) = presses_for(&[], 1);
    assert!(p2.is_empty());
}

#[test]
fn every_button_is_listed_once_by_raw_id() {
    let evs = vec![ev(0, 9, true), ev(1, 2, true), ev(2, 9, false), ev(3, 1, true), ev(4, 2, false)];
    assert_eq!(button_ids(&evs), vec![1, 2, 9]);
    assert!(button_ids(&[]).is_empty());
    assert_eq!(edge_counts(&evs, 9), (1, 1));
    assert_eq!(edge_counts(&evs, 7), (0, 0));
}
