use mouse_testing::capture::{
    Delivery, Feed, HidBatch, HookBatch, LevelOpen, LevelState, MonitorBatch, RawBatch, Session, Tier,
};
use mouse_testing::clock::mach::Timebase;
use mouse_testing::clock::TickScale;
use mouse_testing::sample::{Kind, Sample};

fn report(t: u64, dx: i32, dy: i32, buttons: u32, decoded: bool) -> Sample {
    Sample {
        t,
        device: 7,
        kind: Kind::Report,
        dx,
        dy,
        buttons_state: buttons,
        flags: if decoded { 32 } else { 0 },
        ..Default::default()
    }
}

fn event(t: u64, dx: i32, dy: i32, down: u32, up: u32) -> Sample {
    Sample { t, kind: Kind::Event, dx, dy, buttons_down: down, buttons_up: up, wheel: 1, ..Default::default() }
}

#[test]
fn a_new_session_is_stopped_with_the_levels_it_can_measure() {
    let s = Session::default();
    assert!(!s.running());
    assert!(s.device.has_timestamps && s.device.has_counts);
    assert!(s.system.has_timestamps && !s.system.has_counts);
    assert!(!s.app.has_timestamps && !s.app.has_counts);
    assert_eq!(s.device_state, LevelState::Idle);
}

#[test]
fn starting_binds_the_device_and_empties_the_series() {
    let mut s = Session::default();
    s.start(Some("usb:1234"), 10);
    s.ingest(Feed::Hid, &[report(100, 1, 1, 0, true)], 0, TickScale::Nanoseconds);
    assert_eq!(s.device.total, 1);
    s.start(Some("usb:5678"), 20);
    assert!(s.running());
    assert_eq!(s.started, Some(20));
    assert_eq!(s.bound_key.as_deref(), Some("usb:5678"));
    assert_eq!(s.device.total, 0);
    assert!(s.device.times_ns.is_empty());
    s.stop();
    assert!(!s.running());
}

#[test]
fn stopping_keeps_a_block_and_idles_the_rest() {
    let mut s = Session::default();
    s.start(None, 0);
    s.open_device_level(LevelOpen::Refused("No device selected.".into()));
    s.open_system_level(LevelOpen::Opened);
    assert_eq!(s.device_state, LevelState::Blocked);
    assert_eq!(s.system_state, LevelState::Waiting);
    assert_eq!(s.device_note, "No device selected.");
    s.stop();
    assert_eq!(s.device_state, LevelState::Blocked);
    assert_eq!(s.system_state, LevelState::Idle);
}

#[test]
fn hid_reports_are_timed_from_the_first_and_counted_unless_undecoded() {
    let mut s = Session::default();
    s.start(Some("k"), 0);
    let value = Sample { t: 3000, kind: Kind::Value, ..Default::default() };
    s.ingest(
        Feed::Hid,
        &[report(1000, 3, -4, 0b1, true), report(3000, 1, 0, 0b1, false), value],
        2,
        TickScale::Nanoseconds,
    );
    assert_eq!(s.device.times_ns, vec![0, 2000]);
    assert_eq!(s.device.counts, vec![7, -1]);
    assert_eq!(s.device.dx, vec![3, 1]);
    assert_eq!(s.device.total, 2);
    assert_eq!(s.device.ring_drops, 2);
    assert_eq!(s.buttons.len(), 1);
    assert_eq!((s.buttons[0].t_ns, s.buttons[0].button, s.buttons[0].down), (0, 1, true));
    assert_eq!(s.button_source, Some(Tier::Device));
    // The same state again is not a new edge; a release is.
    s.ingest(Feed::Hid, &[report(4000, 0, 0, 0b1, true), report(5000, 0, 0, 0, true)], 0, TickScale::Nanoseconds);
    assert_eq!(s.buttons.len(), 2);
    assert_eq!((s.buttons[1].t_ns, s.buttons[1].button, s.buttons[1].down), (4000, 1, false));
}

#[test]
fn mach_ticks_are_scaled_by_the_timebase() {
    let mut s = Session::default();
    s.start(Some("k"), 0);
    let tb = Timebase { numer: 125, denom: 3 };
    s.ingest(Feed::Hid, &[report(24, 0, 0, 0, true), report(48, 0, 0, 0, true)], 0, TickScale::Mach(tb));
    assert_eq!(s.device.times_ns, vec![0, 1000]);
}

#[test]
fn a_waiting_system_level_goes_live_with_its_first_event() {
    let mut s = Session::default();
    s.start(Some("k"), 0);
    s.open_system_level(LevelOpen::OpenedWithNote(String::new()));
    assert_eq!(s.system_state, LevelState::Waiting);
    s.ingest(Feed::MacSystem, &[event(10, 2, -2, 0b10, 0)], 0, TickScale::Nanoseconds);
    assert_eq!(s.system_state, LevelState::Live);
    assert_eq!(s.system.counts, vec![4]);
    assert_eq!(s.buttons.len(), 1);
    assert_eq!(s.button_source, Some(Tier::System));
}

#[test]
fn the_device_level_takes_over_the_button_edges() {
    let mut s = Session::default();
    s.start(Some("k"), 0);
    s.ingest(Feed::Raw, &[event(10, 1, 0, 0b1, 0)], 0, TickScale::Nanoseconds);
    assert_eq!(s.button_source, Some(Tier::Device));
    // With the device level supplying edges, the hook's are not mixed in.
    s.ingest(Feed::Hook, &[event(20, 5, 5, 0b1, 0)], 0, TickScale::Nanoseconds);
    assert_eq!(s.buttons.len(), 1);
    // The hook carries a position, not motion.
    assert_eq!(s.system.counts, vec![0]);
    assert_eq!(s.system.dx, vec![0]);
    assert_eq!(s.system.wheel, vec![1]);
    assert_eq!(s.device.counts, vec![1]);
}

#[test]
fn a_removed_device_blocks_the_level_with_a_note() {
    let mut s = Session::default();
    s.start(Some("k"), 0);
    s.open_device_level(LevelOpen::Opened);
    s.ingest(Feed::Hid, &[report(1, 1, 0, 0, true)], 0, TickScale::Nanoseconds);
    s.hid_status(true, 1, 0, "refused");
    assert_eq!(s.device_state, LevelState::Live);
    assert!(s.device_note.is_empty());
    s.hid_status(true, 1, 1, "refused");
    assert_eq!(s.device_state, LevelState::Blocked);
    assert!(s.device_removed);
    assert!(s.device_note.starts_with("The device was taken away"));
}

#[test]
fn a_backend_that_opened_nothing_blocks_with_its_refusal() {
    let mut s = Session::default();
    s.start(Some("k"), 0);
    s.open_device_level(LevelOpen::Opened);
    s.hid_status(false, 0, 0, "k: not permitted");
    assert_eq!(s.device_state, LevelState::Waiting);
    s.hid_status(true, 0, 0, "k: not permitted");
    assert_eq!(s.device_state, LevelState::Blocked);
    assert_eq!(s.device_note, "k: not permitted");
    assert!(!s.device_removed);
}

#[test]
fn a_windows_removal_counts_only_once_the_level_received_anything() {
    let mut s = Session::default();
    s.start(Some("k"), 0);
    s.open_device_level(LevelOpen::OpenedWithNote(String::new()));
    s.raw_removed(1);
    assert_eq!(s.device_state, LevelState::Waiting);
    s.ingest(Feed::Raw, &[event(5, 1, 1, 0, 0)], 0, TickScale::Nanoseconds);
    s.raw_seen(1);
    assert!(s.device_note.is_empty());
    s.raw_removed(1);
    assert_eq!(s.device_state, LevelState::Blocked);
    assert!(s.device_removed);
}

#[test]
fn the_motion_control_counts_from_its_first_sample() {
    let mut s = Session::default();
    s.control_sample(100);
    assert_eq!(s.control_motion, 0);
    s.start(Some("k"), 0);
    s.clear_run_counters();
    s.control_sample(100);
    s.control_sample(250);
    assert_eq!(s.control_motion, 150);
    s.control_sample(50);
    assert_eq!(s.control_motion, 50u64.wrapping_sub(100));
}

#[test]
fn the_app_level_counts_only_while_running() {
    let mut s = Session::default();
    s.pump_app(5);
    assert_eq!(s.app.total, 0);
    s.start(None, 0);
    s.pump_app(5);
    s.pump_app(2);
    assert_eq!(s.tier_series(Tier::App).total, 7);
    assert_eq!(s.tier_series(Tier::Device).total, 0);
}

#[test]
fn a_pump_takes_in_the_device_batch_before_deciding_the_level() {
    let mut s = Session::default();
    s.start(Some("k"), 0);
    s.open_device_level(LevelOpen::Opened);
    s.open_system_level(LevelOpen::Opened);
    s.pump(
        Delivery::MacOs {
            control: 10,
            hid: Some(HidBatch {
                samples: vec![report(100, 1, 2, 0, true)],
                drops: 1,
                decoded: 1,
                undecoded: 0,
                running: true,
                opened: 0,
                removed: 0,
                refusal: "nothing opened".into(),
            }),
            monitor: Some(MonitorBatch { samples: vec![event(150, 1, 0, 0, 0)], drops: 0, elsewhere: 4 }),
        },
        TickScale::Nanoseconds,
    );
    // A report in this very batch proves the device open, even though the
    // status says nothing was.
    assert_eq!(s.device_state, LevelState::Live);
    assert_eq!(s.system_state, LevelState::Live);
    assert_eq!(s.device.ring_drops, 1);
    assert_eq!(s.decoded, 1);
    assert_eq!(s.system_elsewhere, 4);
    assert_eq!(s.system.times_ns, vec![50]);
    s.pump(
        Delivery::MacOs { control: 25, hid: None, monitor: None },
        TickScale::Nanoseconds,
    );
    assert_eq!(s.control_motion, 15);
}

#[test]
fn a_windows_pump_notes_reports_from_the_wrong_device() {
    let mut s = Session::default();
    s.start(Some("k"), 0);
    s.open_device_level(LevelOpen::OpenedWithNote(String::new()));
    s.pump(
        Delivery::Windows {
            raw: Some(RawBatch { background: 2, seen: 3, samples: vec![], drops: 0, removed: 0 }),
            hook: Some(HookBatch { injected: 1, samples: vec![event(7, 0, 0, 0, 0)], drops: 0 }),
        },
        TickScale::Nanoseconds,
    );
    // Without a device filter in force, the count alone cannot say which
    // device the reports came from, so no note is written.
    assert!(s.device_note.is_empty());
    assert_eq!(s.background_events, 2);
    assert_eq!(s.injected_events, 1);
    assert_eq!(s.system.total, 1);
    s.pump(Delivery::Neither, TickScale::Nanoseconds);
    assert_eq!(s.system.total, 1);
}

#[test]
fn a_started_run_has_both_levels_waiting_or_blocked_and_empty_series() {
    let mut s = Session::default();
    s.device.times_ns.push(5);
    s.device.total = 1;
    s.start_levels(
        Some("mouse-1"),
        100,
        LevelOpen::Opened,
        LevelOpen::Refused("macOS refused to install a global event monitor.".into()),
    );
    assert!(s.running());
    assert_eq!(s.bound_key.as_deref(), Some("mouse-1"));
    assert!(!s.device_removed);
    assert_eq!(s.device.total, 0);
    assert!(s.device.times_ns.is_empty());
    assert_eq!(s.device_state, LevelState::Waiting);
    assert_eq!(s.system_state, LevelState::Blocked);
    assert_eq!(s.system_note, "macOS refused to install a global event monitor.");
}
