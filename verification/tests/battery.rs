use mouse_testing::battery::{clicks_record, compare, excluded, label_for, Record, Side};
use mouse_testing::polling::Verdict;

#[test]
fn a_record_survives_the_round_trip_including_the_awkward_parts() {
    for r in [
        Record { key: "polling".into(), verdict: Some(Verdict::Pass), headline: "1000.2 Hz".into() },
        Record { key: "cps".into(), verdict: None, headline: "7.40 CPS".into() },
        Record { key: "sensor.lod".into(), verdict: Some(Verdict::Inconclusive), headline: String::new() },
    ] {
        let back = Record::decode(&r.encode()).expect("decode");
        assert_eq!(back, r);
    }
}

#[test]
fn a_headline_cannot_break_the_line_format() {
    // The separator and newlines both have to survive being in the text,
    // because a headline is built from a note the user never chose.
    let r = Record {
        key: "ab".into(),
        verdict: None,
        headline: "a|b\nc".into(),
    };
    let line = r.encode();
    assert_eq!(line.matches('|').count(), 2);
    assert!(!line.contains('\n'));
    let back = Record::decode(&line).expect("decode");
    assert_eq!(back.key, "ab");
    assert_eq!(back.verdict, None);
}

#[test]
fn a_missing_measurement_is_kept_and_marked_rather_than_dropped() {
    let before = vec![
        Record { key: "polling".into(), verdict: Some(Verdict::Pass), headline: "a".into() },
        Record { key: "sensor.cpi".into(), verdict: Some(Verdict::Warn), headline: "b".into() },
    ];
    let after = vec![Record {
        key: "polling".into(),
        verdict: Some(Verdict::Fail),
        headline: "c".into(),
    }];
    let rows = compare(&before, &[], &after, &[]);
    assert_eq!(rows.len(), 2);
    let polling = rows.iter().find(|r| r.key == "polling").unwrap();
    assert!(polling.changed(), "pass to fail must register as a change");
    let cpi = rows.iter().find(|r| r.key == "sensor.cpi").unwrap();
    assert_eq!(cpi.after, Side::NotMeasured, "the after side should be absent");
    assert!(!cpi.changed(), "a missing side is not a changed verdict");
}

#[test]
fn a_test_left_out_does_not_look_like_a_test_that_went_missing() {
    let before = vec![Record {
        key: "polling".into(),
        verdict: Some(Verdict::Pass),
        headline: "a".into(),
    }];
    let rows = compare(&before, &["sensor.lod".into()], &[], &[]);
    let lod = rows.iter().find(|r| r.key == "sensor.lod").unwrap();
    assert_eq!(lod.before, Side::LeftOut);
    assert_eq!(lod.after, Side::NotMeasured);
    let polling = rows.iter().find(|r| r.key == "polling").unwrap();
    assert_eq!(polling.after, Side::NotMeasured);
    // A test neither side ran and neither side excluded stays off the list.
    assert!(rows.iter().all(|r| r.key != "scroll.tilt"));
}

#[test]
fn an_exclusion_for_a_key_this_build_does_not_know_still_appears() {
    let rows = compare(&[], &["sensor.future".into()], &[], &[]);
    assert_eq!(rows.len(), 1);
    assert_eq!(rows[0].before, Side::LeftOut);
}

#[test]
fn a_verdict_word_from_a_later_build_is_skipped_rather_than_shown_as_none() {
    assert!(Record::decode("polling|superb|1000 Hz").is_none());
    assert_eq!(Record::decode("cps|-|7.4 CPS").unwrap().verdict, None);
}

#[test]
fn a_key_this_build_does_not_know_still_appears() {
    let before = vec![Record {
        key: "sensor.future".into(),
        verdict: Some(Verdict::Pass),
        headline: "x".into(),
    }];
    let rows = compare(&before, &[], &[], &[]);
    assert_eq!(rows.len(), 1);
    assert_eq!(rows[0].key, "sensor.future");
}

#[test]
fn labels_come_from_the_battery_and_unknown_keys_show_as_themselves() {
    assert_eq!(label_for("sensor.lod"), "lift-off distance");
    assert_eq!(label_for("polling"), "polling rate");
    assert_eq!(label_for("sensor.future"), "sensor.future");
}

#[test]
fn a_line_without_a_separator_or_a_key_is_refused_and_fields_are_trimmed() {
    assert!(Record::decode("polling pass").is_none());
    assert!(Record::decode("  |pass|x").is_none());
    let r = Record::decode("  scroll.wheel | warn ").unwrap();
    assert_eq!(r.key, "scroll.wheel");
    assert_eq!(r.verdict, Some(Verdict::Warn));
    assert_eq!(r.headline, "");
    let r = Record::decode("clicks|fail|a | b").unwrap();
    assert_eq!(r.headline, "a | b");
}

#[test]
fn rows_come_in_sidebar_order_then_unknown_keys_once_each() {
    let before = vec![
        Record { key: "zz.new".into(), verdict: None, headline: String::new() },
        Record { key: "scroll.tilt".into(), verdict: Some(Verdict::Pass), headline: String::new() },
        Record { key: "polling".into(), verdict: Some(Verdict::Pass), headline: String::new() },
    ];
    let after = vec![Record { key: "zz.new".into(), verdict: None, headline: String::new() }];
    let rows = compare(&before, &["aa.old".into(), "clicks".into()], &after, &["aa.old".into()]);
    let keys: Vec<&str> = rows.iter().map(|r| r.key.as_str()).collect();
    assert_eq!(keys, vec!["polling", "clicks", "scroll.tilt", "zz.new", "aa.old"]);
    assert_eq!(rows[1].before, Side::LeftOut);
    assert!(rows[3].before.record().is_some());
    assert!(rows[1].before.record().is_none());
}

#[test]
fn left_out_measurements_come_in_sidebar_order() {
    let off = vec!["scroll.tilt".to_string(), "cps".to_string(), "polling".to_string(), "no.such".to_string()];
    assert_eq!(excluded(&off), vec!["polling", "cps", "scroll.tilt"]);
    assert!(excluded(&[]).is_empty());
}

#[test]
fn the_worst_button_decides_the_clicks_line() {
    let r = clicks_record(&[Verdict::Pass, Verdict::Fail, Verdict::Warn], &[0, 2, 1], 40);
    assert_eq!(r.key, "clicks");
    assert_eq!(r.verdict, Some(Verdict::Fail));
    assert_eq!(r.headline, "3 button(s), 3 doublet(s), 40 transitions");
    let none = clicks_record(&[], &[], 0);
    assert_eq!(none.verdict, Some(Verdict::Pass));
    assert_eq!(none.headline, "0 button(s), 0 doublet(s), 0 transitions");
}
