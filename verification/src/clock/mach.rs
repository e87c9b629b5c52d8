//! macOS mach absolute time: ticks scale to nanoseconds by the ratio the
//! kernel's timebase reports.
use vstd::prelude::*;
use vstd::arithmetic::div_mod::lemma_div_is_ordered;

verus! {

/// The kernel's tick-to-nanosecond ratio, `numer / denom`.
#[derive(Clone, Copy, Debug, PartialEq, Eq, Structural)]
pub struct Timebase {
    pub numer: u32,
    pub denom: u32,
}

/// The timebase to use given what the kernel reported: a zero denominator
/// means the call failed, and then ticks are taken to be nanoseconds.
pub fn timebase_or_identity(reported: Timebase) -> (tb: Timebase)
    ensures
        tb == (if reported.denom == 0 {
            Timebase { numer: 1, denom: 1 }
        } else {
            reported
        }),
{
    if reported.denom == 0 {
        Timebase { numer: 1, denom: 1 }
    } else {
        reported
    }
}

/// `t * numer / denom`, kept to 64 bits.
pub open spec fn spec_ticks_to_ns(t: u64, tb: Timebase) -> u64 {
    ((t as int * tb.numer as int) / tb.denom as int) as u64
}

pub open spec fn spec_ns_to_ticks(ns: u64, tb: Timebase) -> u64 {
    ((ns as int * tb.denom as int) / tb.numer as int) as u64
}

/// Nanoseconds for `t` ticks. The product is formed in 128 bits so a machine
/// up for weeks cannot overflow the multiply.
pub fn ticks_to_ns(t: u64, tb: Timebase) -> (ns: u64)
    requires
        tb.denom > 0,
    ensures
        ns == spec_ticks_to_ns(t, tb),
{
    proof {
        assert((t as int) * (tb.numer as int) <= 0xFFFF_FFFF_FFFF_FFFFint * 0xFFFF_FFFFint)
            by (nonlinear_arith)
            requires
                t <= 0xFFFF_FFFF_FFFF_FFFFu64,
                tb.numer <= 0xFFFF_FFFFu32,
        ;
    }
    let wide = (t as u128) * (tb.numer as u128) / (tb.denom as u128);
    wide as u64
}

/// Ticks for `ns` nanoseconds.
pub fn ns_to_ticks(ns: u64, tb: Timebase) -> (t: u64)
    requires
        tb.numer > 0,
    ensures
        t == spec_ns_to_ticks(ns, tb),
{
    proof {
        assert((ns as int) * (tb.denom as int) <= 0xFFFF_FFFF_FFFF_FFFFint * 0xFFFF_FFFFint)
            by (nonlinear_arith)
            requires
                ns <= 0xFFFF_FFFF_FFFF_FFFFu64,
                tb.denom <= 0xFFFF_FFFFu32,
        ;
    }
    let wide = (ns as u128) * (tb.denom as u128) / (tb.numer as u128);
    wide as u64
}

pub fn name() -> (s: &'static str)
    ensures
        s@ == "mach_absolute_time"@,
{
    "mach_absolute_time"
}

/// Converting never reorders two timestamps: a later tick is never an
/// earlier nanosecond, as long as the result fits 64 bits.
pub proof fn lemma_ticks_to_ns_monotonic(t1: u64, t2: u64, tb: Timebase)
    requires
        tb.denom > 0,
        t1 <= t2,
        (t2 as int * tb.numer as int) / tb.denom as int <= u64::MAX,
    ensures
        spec_ticks_to_ns(t1, tb) <= spec_ticks_to_ns(t2, tb),
{
    assert(t1 as int * tb.numer as int <= t2 as int * tb.numer as int) by (nonlinear_arith)
        requires
            t1 <= t2,
    ;
    lemma_div_is_ordered(t1 as int * tb.numer as int, t2 as int * tb.numer as int, tb.denom as int);
    assert(0 <= (t1 as int * tb.numer as int) / tb.denom as int) by (nonlinear_arith)
        requires
            tb.denom > 0,
    ;
}

} // verus!
