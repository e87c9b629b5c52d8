use mouse_testing::battery::Record;
use mouse_testing::polling::Verdict;
use mouse_testing::session_log::{Event, Level, Meta, SessionLog};

fn sample() -> SessionLog {
    SessionLog {
        meta: Meta {
            device_name: "Test Mouse, model 3".into(),
            device_ids: "0x1234 / 0x5678".into(),
            transport: "USB".into(),
            os: "macOS 15.6".into(),
            arch: "arm64".into(),
            cpu: "Apple M2".into(),
            clock: "mach_absolute_time".into(),
            clock_resolution_ns: "41.7".into(),
            clock_cost_ns: "18.3".into(),
            claimed_hz: "1000".into(),
            claimed_cpi: "1600".into(),
            warnings: vec!["running under a hypervisor".into()],
            duration_s: "12.5".into(),
            excluded: vec!["sensor.lod".into()],
            results: vec![
                Record {
                    key: "polling".into(),
                    verdict: Some(Verdict::Pass),
                    headline: "1000.2 Hz nominal".into(),
                },
                Record { key: "cps".into(), verdict: None, headline: "7.40 CPS sustained".into() },
            ],
        },
        events: vec![
            Event { t_ns: 1_000_000, level: Level::Device, dx: 3, dy: -2, wheel: 0,
                    hwheel: 0, button: 0, down: false, is_button: false },
            Event { t_ns: 2_000_000, level: Level::Device, dx: 0, dy: 0, wheel: 1,
                    hwheel: 0, button: 0, down: false, is_button: false },
            Event { t_ns: 3_000_000, level: Level::Device, dx: 0, dy: 0, wheel: 0,
                    hwheel: 0, button: 1, down: true, is_button: true },
            Event { t_ns: 3_500_000, level: Level::Device, dx: 0, dy: 0, wheel: 0,
                    hwheel: 0, button: 1, down: false, is_button: true },
            Event { t_ns: 4_000_000, level: Level::System, dx: -1, dy: 0, wheel: 0,
                    hwheel: 2, button: 0, down: false, is_button: false },
        ],
    }
}

#[test]
fn a_log_survives_a_round_trip_unchanged() {
    let a = sample();
    let (b, skipped) = SessionLog::from_csv(&a.to_csv()).unwrap();
    assert_eq!(skipped, 0);
    assert_eq!(a.meta, b.meta, "metadata changed across the round trip");
    assert_eq!(a.events, b.events, "events changed across the round trip");
}

#[test]
fn a_reloaded_log_can_be_analysed_again() {
    let (b, _) = SessionLog::from_csv(&sample().to_csv()).unwrap();
    assert_eq!(b.count(Level::Device), 2);
    assert_eq!(b.count(Level::System), 1);
    let m = b.motion(Level::Device);
    assert_eq!(m.len(), 2);
    assert_eq!((m[0].dx, m[0].dy), (3, -2));
    assert_eq!(m[1].wheel, 1);
    let btn = b.buttons();
    assert_eq!(btn.len(), 2);
    assert!(btn[0].down && !btn[1].down);
    assert_eq!(btn[0].button, 1);
}

#[test]
fn the_warning_that_made_a_run_untrustworthy_survives_the_export() {
    let (b, _) = SessionLog::from_csv(&sample().to_csv()).unwrap();
    assert_eq!(b.meta.warnings, vec!["running under a hypervisor".to_string()]);
    assert_eq!(b.meta.clock_resolution_ns.parse::<f64>().unwrap(), 41.7);
}

#[test]
fn a_truncated_file_loads_what_it_has_and_says_what_it_lost() {
    let full = sample().to_csv();
    let mut text = full.clone();
    text.push_str("9999999,device,1,2\n");
    text.push_str("garbage\n");
    let (b, skipped) = SessionLog::from_csv(&text).unwrap();
    assert_eq!(skipped, 2, "bad rows must be counted, not silently dropped");
    assert_eq!(b.events.len(), sample().events.len());
}

#[test]
fn something_that_is_not_a_session_log_is_refused_by_name() {
    let err = SessionLog::from_csv("a,b,c\n1,2,3\n").unwrap_err();
    assert!(err.contains("not a mouse-testing session log"), "{err}");
    let err = SessionLog::from_csv("# mouse-testing session log v1\nx,y\n1,2\n").unwrap_err();
    assert!(err.contains("column layout"), "{err}");
}

#[test]
fn a_field_containing_a_newline_cannot_break_the_comment_block() {
    let mut a = sample();
    a.meta.device_name = "Line one\nnot: a comment".into();
    let (b, skipped) = SessionLog::from_csv(&a.to_csv()).unwrap();
    assert_eq!(skipped, 0);
    assert_eq!(b.meta.device_name, "Line one not: a comment");
}

#[test]
fn the_file_starts_with_its_identity_and_rows_follow_the_header() {
    let text = sample().to_csv();
    let lines: Vec<&str> = text.lines().collect();
    assert_eq!(lines[0], "# mouse-testing session log v1");
    assert_eq!(lines[1], "# device: Test Mouse, model 3");
    let h = lines.iter().position(|l| *l == "t_ns,level,dx,dy,wheel,hwheel,button,edge").unwrap();
    assert_eq!(lines[h + 1], "1000000,device,3,-2,0,0,0,");
    assert_eq!(lines[h + 3], "3000000,device,0,0,0,0,1,1");
    assert_eq!(lines[h + 4], "3500000,device,0,0,0,0,1,0");
    assert_eq!(lines.len(), h + 6);
    assert!(text.ends_with('\n'));
}

#[test]
fn an_empty_file_has_no_event_rows() {
    let err = SessionLog::from_csv("").unwrap_err();
    assert_eq!(err, "the file has no event rows");
    let err = SessionLog::from_csv("# mouse-testing session log v1\n# device: x\n").unwrap_err();
    assert_eq!(err, "the file has no event rows");
}

#[test]
fn the_layout_error_quotes_what_it_found() {
    let err = SessionLog::from_csv("# mouse-testing session log v1\nx,y\n").unwrap_err();
    assert_eq!(
        err,
        "unexpected column layout: found \"x,y\", expected \"t_ns,level,dx,dy,wheel,hwheel,button,edge\""
    );
}

#[test]
fn rows_parse_like_the_standard_integer_parser() {
    let head = "# mouse-testing session log v1\nt_ns,level,dx,dy,wheel,hwheel,button,edge\n";
    // A leading plus is accepted, a value out of range is not, nor is a
    // level word from another build or an edge other than 1, 0 or empty.
    let text = format!(
        "{head}+5,app,-2147483648,2147483647,0,0,255,\n\
         6,app,2147483648,0,0,0,0,\n\
         7,App,0,0,0,0,0,\n\
         8,app,0,0,0,0,0,2\n\
         9,app,0,0,0,0,256,\n\
         10,system,0,0,0,0,3,1,extra,fields\n\
         -1,app,0,0,0,0,0,\n"
    );
    let (b, skipped) = SessionLog::from_csv(&text).unwrap();
    assert_eq!(skipped, 5);
    assert_eq!(b.events.len(), 2);
    assert_eq!(b.events[0].t_ns, 5);
    assert_eq!(b.events[0].dx, i32::MIN);
    assert_eq!(b.events[0].dy, i32::MAX);
    assert_eq!(b.events[0].button, 255);
    assert_eq!(b.events[1].level, Level::System);
    assert!(b.events[1].is_button && b.events[1].down);
}

#[test]
fn carriage_returns_and_comments_are_tolerated() {
    let text = "# mouse-testing session log v1\r\n\r\n# a note without a value\r\n\
                t_ns,level,dx,dy,wheel,hwheel,button,edge\r\n#comment\r\n1,device,1,1,0,0,0,\r\n";
    let (b, skipped) = SessionLog::from_csv(text).unwrap();
    assert_eq!(skipped, 0);
    assert_eq!(b.events.len(), 1);
}

#[test]
fn interval_reports_saturate_the_motion_magnitude() {
    let mut log = SessionLog::default();
    log.events.push(Event { t_ns: 1, level: Level::Device, dx: i32::MIN, dy: i32::MIN, wheel: 0,
                            hwheel: 0, button: 0, down: false, is_button: false });
    log.events.push(Event { t_ns: 2, level: Level::Device, dx: -3, dy: 4, wheel: 0,
                            hwheel: 0, button: 0, down: false, is_button: false });
    log.events.push(Event { t_ns: 3, level: Level::System, dx: 1, dy: 1, wheel: 0,
                            hwheel: 0, button: 0, down: false, is_button: false });
    let r = log.reports(Level::Device);
    assert_eq!(r.len(), 2);
    assert_eq!(r[0].counts, u32::MAX as i32);
    assert_eq!(r[1].counts, 7);
}

#[test]
fn levels_read_back_from_their_names_only() {
    for l in Level::all() {
        assert_eq!(Level::parse(l.as_str()), Some(l));
    }
    assert_eq!(Level::parse("Device"), None);
    assert_eq!(Level::parse(""), None);
    assert_eq!(Level::default(), Level::Device);
}

#[test]
fn a_result_line_this_build_cannot_decode_is_left_out() {
    let text = "# mouse-testing session log v1\n# result: polling|superb|1000 Hz\n\
                # result: cps|-|7.4 CPS\n# unknown_key: ignored\n\
                t_ns,level,dx,dy,wheel,hwheel,button,edge\n";
    let (b, _) = SessionLog::from_csv(text).unwrap();
    assert_eq!(b.meta.results.len(), 1);
    assert_eq!(b.meta.results[0].key, "cps");
    assert_eq!(b.meta.results[0].verdict, None);
}
