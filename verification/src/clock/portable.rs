//! The clock used where there is no platform timer: a monotonic clock that
//! already counts nanoseconds, so one tick is one nanosecond.
use vstd::prelude::*;

verus! {

pub fn ticks_to_ns(t: u64) -> (ns: u64)
    ensures
        ns == t,
{
    t
}

pub fn ns_to_ticks(ns: u64) -> (t: u64)
    ensures
        t == ns,
{
    ns
}

pub fn name() -> (s: &'static str)
    ensures
        s@ == "std::time::Instant"@,
{
    "std::time::Instant"
}

} // verus!
