use mouse_testing::capture::{device_state_after_pump, edges_between_states, edges_from_transitions, LevelState, Series};

#[test]
fn an_unpublished_status_is_not_a_failure_to_open() {
    assert_eq!(
        device_state_after_pump(LevelState::Waiting, false, 0, 0, 0),
        LevelState::Waiting
    );
}

#[test]
fn a_thread_that_reported_opening_nothing_does_block() {
    assert_eq!(
        device_state_after_pump(LevelState::Waiting, true, 0, 0, 0),
        LevelState::Blocked
    );
}

#[test]
fn a_report_clears_a_block_rather_than_being_counted_underneath_it() {
    assert_eq!(
        device_state_after_pump(LevelState::Blocked, true, 0, 1, 0),
        LevelState::Live
    );
    assert_eq!(
        device_state_after_pump(LevelState::Waiting, true, 1, 19_156, 0),
        LevelState::Live
    );
}

#[test]
fn a_device_taken_away_beats_the_reports_it_already_delivered() {
    assert_eq!(
        device_state_after_pump(LevelState::Live, true, 1, 6_300, 1),
        LevelState::Blocked
    );
    assert_eq!(
        device_state_after_pump(LevelState::Blocked, true, 1, 6_300, 1),
        LevelState::Blocked
    );
}

#[test]
fn the_startup_window_resolves_to_live_once_reports_arrive() {
    let mut st = LevelState::Waiting;
    for _ in 0..5 {
        st = device_state_after_pump(st, false, 0, 0, 0);
    }
    assert_eq!(st, LevelState::Waiting);
    st = device_state_after_pump(st, true, 1, 0, 0);
    assert_eq!(st, LevelState::Waiting);
    st = device_state_after_pump(st, true, 1, 42, 0);
    assert_eq!(st, LevelState::Live);
}

#[test]
fn button_state_changes_become_one_based_edges_lowest_first() {
    let e = edges_between_states(0b0001, 0b0110, 500);
    let got: Vec<(u8, bool)> = e.iter().map(|e| (e.button, e.down)).collect();
    assert_eq!(got, vec![(1, false), (2, true), (3, true)]);
    assert!(e.iter().all(|e| e.t_ns == 500));
    assert!(edges_between_states(7, 7, 1).is_empty());
    let top = edges_between_states(0, 1 << 31, 2);
    assert_eq!((top[0].button, top[0].down), (32, true));
}

#[test]
fn reported_transitions_give_press_then_release_per_button() {
    let e = edges_from_transitions(0b101, 0b001, 9);
    let got: Vec<(u8, bool)> = e.iter().map(|e| (e.button, e.down)).collect();
    assert_eq!(got, vec![(1, true), (1, false), (3, true)]);
    assert!(edges_from_transitions(0, 0, 9).is_empty());
}

#[test]
fn a_series_hands_out_only_what_came_after_the_baseline() {
    let mut s = Series::new(true, true);
    s.times_ns = vec![10, 20, 30];
    s.counts = vec![1, 2, 3];
    s.dx = vec![1, -1, 2];
    s.dy = vec![0, 3, 0];
    s.wheel = vec![0, 1, -1];
    s.hwheel = vec![0, 0, 2];
    let m = s.motion_from(1);
    assert_eq!(m.len(), 2);
    assert_eq!((m[0].t_ns, m[0].dx, m[0].dy, m[0].wheel), (20, -1, 3, 0));
    let w = s.scroll_from(2);
    assert_eq!((w[0].t_ns, w[0].wheel, w[0].hwheel, w[0].dx), (30, -1, 2, 0));
    assert!(s.scroll_from(10).is_empty());
    let r = s.reports();
    assert_eq!((r[2].t_ns, r[2].counts), (30, 3));
    s.total = 3;
    s.clear();
    assert!(s.times_ns.is_empty() && s.wheel.is_empty());
    assert_eq!(s.total, 0);
    assert!(s.has_counts);
}
