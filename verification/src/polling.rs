//! Report-interval vocabulary: the reduced report, how an interval is
//! classified, and the verdict every section of the suite shares.
use vstd::prelude::*;

verus! {

/// One input report, reduced to what interval analysis needs.
#[derive(Clone, Copy, Debug)]
pub struct Report {
    pub t_ns: u64,
    /// Motion magnitude carried by this report, in device counts.
    pub counts: i32,
}

#[derive(Clone, Copy, PartialEq, Eq, Debug, Structural)]
pub enum IntervalClass {
    Normal,
    /// Arrived sooner than the nominal interval allows.
    Fast,
    /// `k` slots' worth of time passed, so `k - 1` reports were lost.
    Drop(u32),
    /// Late, but not by a clean multiple of the interval.
    Slow,
    /// Not judgeable: outside a motion span, or longer than `k_max` slots.
    Idle,
}

#[derive(Clone, Copy, PartialEq, Eq, Debug, Structural)]
pub enum Verdict {
    Pass,
    Warn,
    Fail,
    /// The measurement cannot support a conclusion. Never a failure of the
    /// mouse, and never reported as one.
    Inconclusive,
}

/// How much a verdict demands attention: Pass, then Inconclusive, then Warn,
/// then Fail.
pub open spec fn severity(v: Verdict) -> nat {
    match v {
        Verdict::Pass => 0,
        Verdict::Inconclusive => 1,
        Verdict::Warn => 2,
        Verdict::Fail => 3,
    }
}

impl Verdict {
    /// Combine two verdicts, keeping the one that most demands attention.
    ///
    /// `Inconclusive` deliberately beats `Pass`: a section that could not
    /// measure one of its parts has not passed.
    pub fn worst(self, other: Verdict) -> (r: Verdict)
        ensures
            r == worst_of(self, other),
    {
        match (self, other) {
            (Verdict::Fail, _) | (_, Verdict::Fail) => Verdict::Fail,
            (Verdict::Warn, _) | (_, Verdict::Warn) => Verdict::Warn,
            (Verdict::Inconclusive, _) | (_, Verdict::Inconclusive) => Verdict::Inconclusive,
            _ => Verdict::Pass,
        }
    }
}

/// The colour band a verdict is shown in.
#[derive(Copy, Clone, PartialEq, Eq, Debug, Structural)]
pub enum Level {
    Pass,
    Warn,
    Fail,
    Off,
}

impl Verdict {
    /// The band to show this verdict in: an inconclusive one is shown as off.
    pub fn level(self) -> (l: Level)
        ensures
            l == match self {
                Verdict::Pass => Level::Pass,
                Verdict::Warn => Level::Warn,
                Verdict::Fail => Level::Fail,
                Verdict::Inconclusive => Level::Off,
            },
    {
        match self {
            Verdict::Pass => Level::Pass,
            Verdict::Warn => Level::Warn,
            Verdict::Fail => Level::Fail,
            Verdict::Inconclusive => Level::Off,
        }
    }
}

impl Default for Verdict {
    fn default() -> (r: Self)
        ensures
            r == Verdict::Inconclusive,
    {
        Verdict::Inconclusive
    }
}

/// Combining verdicts is a join: order and grouping do not matter, combining
/// a verdict with itself changes nothing, `Pass` changes nothing, and `Fail`
/// is never masked.
pub proof fn lemma_worst_is_a_join(a: Verdict, b: Verdict, c: Verdict)
    ensures
        worst_of(a, b) == worst_of(b, a),
        worst_of(worst_of(a, b), c) == worst_of(a, worst_of(b, c)),
        worst_of(a, a) == a,
        worst_of(a, Verdict::Pass) == a,
        worst_of(a, Verdict::Fail) == Verdict::Fail,
        severity(worst_of(a, b)) >= severity(a),
        severity(worst_of(a, b)) >= severity(b),
{
}

/// An inconclusive part is never hidden by a passing one: a section that
/// could not measure one of its parts has not passed.
pub proof fn lemma_inconclusive_beats_pass()
    ensures
        worst_of(Verdict::Inconclusive, Verdict::Pass) == Verdict::Inconclusive,
        worst_of(Verdict::Pass, Verdict::Inconclusive) == Verdict::Inconclusive,
{
}

/// Of two verdicts, the one that demands more attention.
pub open spec fn worst_of(a: Verdict, b: Verdict) -> Verdict {
    if severity(a) >= severity(b) {
        a
    } else {
        b
    }
}

/// For each report, whether the device was moving hard enough in it that
/// every polling slot must have carried at least one count.
pub fn judgeable(reports: &[Report], min_counts: i32) -> (r: Vec<bool>)
    ensures
        r@.len() == reports@.len(),
        forall|i: int| 0 <= i < reports@.len() ==> r@[i] == (reports@[i].counts >= min_counts),
{
    let mut out: Vec<bool> = Vec::new();
    let mut i: usize = 0;
    while i < reports.len()
        invariant
            i <= reports@.len(),
            out@.len() == i,
            forall|j: int| 0 <= j < i ==> out@[j] == (reports@[j].counts >= min_counts),
        decreases reports@.len() - i,
    {
        out.push(reports[i].counts >= min_counts);
        i = i + 1;
    }
    out
}

} // verus!
