//! One clock, in the platform's native ticks.
//!
//! Ticks are converted to nanoseconds once, at the point of display. On macOS
//! HID report timestamps arrive in mach absolute time, and on Apple Silicon
//! one tick is 41.667 ns rather than 1 ns, so mixing a converted and an
//! unconverted value in one subtraction is wrong by a factor of 41.
//!
//! Each platform's conversion lives in its own module. The clock's rate is
//! something only the running machine can say, so each conversion takes it as
//! an argument; reading it, and reading the clock itself, is the caller's
//! business.
use vstd::prelude::*;

pub mod mach;
pub mod portable;
pub mod qpc;

verus! {

/// Which clock the ticks come from, with the rate the machine reported.
#[derive(Clone, Copy, Debug, PartialEq, Eq, Structural)]
pub enum TickScale {
    /// Ticks are already nanoseconds.
    Nanoseconds,
    /// mach absolute time, with the kernel's timebase.
    Mach(mach::Timebase),
    /// QueryPerformanceCounter, with its frequency in ticks per second.
    Qpc(u64),
}

impl TickScale {
    /// `t` ticks have a nanosecond value that fits in 64 bits on this clock.
    pub open spec fn converts(self, t: u64) -> bool {
        match self {
            TickScale::Nanoseconds => true,
            TickScale::Mach(tb) => tb.denom > 0,
            TickScale::Qpc(f) => 0 < f <= u64::MAX / qpc::NS_PER_S && qpc::spec_ticks_to_ns(t, f)
                <= u64::MAX,
        }
    }

    pub open spec fn spec_to_ns(self, t: u64) -> u64 {
        match self {
            TickScale::Nanoseconds => t,
            TickScale::Mach(tb) => mach::spec_ticks_to_ns(t, tb),
            TickScale::Qpc(f) => qpc::spec_ticks_to_ns(t, f) as u64,
        }
    }

    /// Nanoseconds for `t` ticks of this clock.
    pub fn ticks_to_ns(&self, t: u64) -> (ns: u64)
        requires
            self.converts(t),
        ensures
            ns == self.spec_to_ns(t),
    {
        match self {
            TickScale::Nanoseconds => portable::ticks_to_ns(t),
            TickScale::Mach(tb) => mach::ticks_to_ns(t, *tb),
            TickScale::Qpc(f) => qpc::ticks_to_ns(t, *f),
        }
    }
}

/// Fewer ticks convert whenever more do.
pub proof fn lemma_converts_below(scale: TickScale, a: u64, b: u64)
    requires
        a <= b,
        scale.converts(b),
    ensures
        scale.converts(a),
{
    if let TickScale::Qpc(f) = scale {
        qpc::lemma_ticks_to_ns_monotonic(a, b, f);
    }
}

} // verus!
