use mouse_testing::polling::{judgeable, Report};
use mouse_testing::summary::{kv, not_measured, plain, section};

#[test]
fn a_section_is_underlined_to_its_length() {
    let mut s = String::new();
    section(&mut s, "POLLING");
    assert_eq!(s, "POLLING\n-------\n");
}

#[test]
fn keys_are_padded_so_values_line_up() {
    let mut s = String::new();
    kv(&mut s, "device", "Test Mouse");
    assert_eq!(s, format!("  {:<24}  {}\n", "device", "Test Mouse"));
    let long = "a key that is longer than the column";
    let mut t = String::new();
    kv(&mut t, long, "v");
    assert_eq!(t, format!("  {long:<24}  v\n"));
    let mut u = String::new();
    not_measured(&mut u, "interval analysis");
    assert_eq!(u, format!("  {:<24}  not measured this session\n", "interval analysis"));
}

#[test]
fn a_value_is_stated_with_its_unit_or_said_to_be_missing() {
    assert_eq!(plain(" 1600 ", "CPI"), "1600 CPI");
    assert_eq!(plain("   ", "CPI"), "not stated");
    assert_eq!(plain("", "Hz"), "not stated");
}

#[test]
fn only_reports_with_enough_motion_are_judged() {
    let r = vec![Report { t_ns: 0, counts: 0 }, Report { t_ns: 1, counts: 3 }, Report { t_ns: 2, counts: -1 }];
    assert_eq!(judgeable(&r, 1), vec![false, true, false]);
    assert!(judgeable(&[], 1).is_empty());
}
