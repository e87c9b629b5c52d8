use mouse_testing::polling::{Level, Verdict};

#[test]
fn each_verdict_has_its_band() {
    assert_eq!(Verdict::Pass.level(), Level::Pass);
    assert_eq!(Verdict::Warn.level(), Level::Warn);
    assert_eq!(Verdict::Fail.level(), Level::Fail);
    assert_eq!(Verdict::Inconclusive.level(), Level::Off);
}

#[test]
fn worst_keeps_what_most_demands_attention() {
    assert_eq!(Verdict::Pass.worst(Verdict::Inconclusive), Verdict::Inconclusive);
    assert_eq!(Verdict::Warn.worst(Verdict::Inconclusive), Verdict::Warn);
    assert_eq!(Verdict::Fail.worst(Verdict::Pass), Verdict::Fail);
    assert_eq!(Verdict::Pass.worst(Verdict::Pass), Verdict::Pass);
}
