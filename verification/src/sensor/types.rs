//! Core input types shared by every detector.
use vstd::prelude::*;

verus! {

/// One HID mouse motion report, as captured by the platform backend.
#[derive(Copy, Clone, Debug, PartialEq, Eq, Structural)]
pub struct Report {
    /// Monotonic timestamp, nanoseconds.
    pub t_ns: u64,
    pub dx: i32,
    pub dy: i32,
    /// Vertical wheel, raw device units (may be 1, 120, or high-res sub-units).
    pub wheel: i32,
    /// Horizontal wheel / tilt, raw device units.
    pub hwheel: i32,
}

impl Report {
    pub fn motion(t_ns: u64, dx: i32, dy: i32) -> (r: Self)
        ensures
            r == (Report { t_ns, dx, dy, wheel: 0, hwheel: 0 }),
    {
        Report { t_ns, dx, dy, wheel: 0, hwheel: 0 }
    }

    pub fn wheel_ev(t_ns: u64, w: i32) -> (r: Self)
        ensures
            r == (Report { t_ns, dx: 0, dy: 0, wheel: w, hwheel: 0 }),
    {
        Report { t_ns, dx: 0, dy: 0, wheel: w, hwheel: 0 }
    }

    pub fn is_moving(&self) -> (b: bool)
        ensures
            b == (self.dx != 0 || self.dy != 0),
    {
        self.dx != 0 || self.dy != 0
    }
}

/// Timestamps never go backwards.
pub open spec fn monotonic(r: Seq<Report>) -> bool {
    forall|i: int, j: int| 0 <= i <= j < r.len() ==> r[i].t_ns <= r[j].t_ns
}

/// True when timestamps never go backwards.
///
/// Every detector differences timestamps, and `t_ns` is unsigned: one
/// out-of-order report turns a clean stream into nonsense. Two ordinary things
/// produce that, merging streams from two devices and host-side completion
/// timestamps, so each entry point refuses instead.
pub fn is_monotonic(r: &[Report]) -> (b: bool)
    ensures
        b == monotonic(r@),
{
    let mut i: usize = 1;
    if r.len() < 2 {
        return true;
    }
    while i < r.len()
        invariant
            1 <= i <= r@.len(),
            monotonic(r@.take(i as int)),
        decreases r@.len() - i,
    {
        if r[i].t_ns < r[i - 1].t_ns {
            assert(!monotonic(r@));
            return false;
        }
        proof {
            let t = r@.take(i + 1);
            assert forall|a: int, b: int| 0 <= a <= b < t.len() implies t[a].t_ns <= t[b].t_ns by {
                if b < i {
                    assert(r@.take(i as int)[a] == t[a]);
                    assert(r@.take(i as int)[b] == t[b]);
                } else if a < i {
                    assert(r@.take(i as int)[a].t_ns <= r@.take(i as int)[i - 1].t_ns);
                }
            }
        }
        i = i + 1;
    }
    assert(r@.take(i as int) =~= r@);
    true
}

/// The note every detector shows when it refuses a non-monotonic capture.
pub const NOT_MONOTONIC: &'static str =
    "timestamps go backwards in this capture, so no interval here can be trusted. Capture one device at a time.";

} // verus!
