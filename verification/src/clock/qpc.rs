//! Windows QueryPerformanceCounter: ticks at a fixed frequency the OS reports
//! in ticks per second.
use vstd::prelude::*;
use vstd::arithmetic::div_mod::{
    lemma_div_is_ordered,
    lemma_fundamental_div_mod,
    lemma_hoist_over_denominator,
};

verus! {

/// Nanoseconds per second.
pub const NS_PER_S: u64 = 1_000_000_000;

/// The frequency to use given what the OS reported: a call that failed or
/// reported nothing sensible leaves the documented 10 MHz.
pub fn freq_or_default(reported: i64) -> (f: u64)
    ensures
        f == (if reported <= 0 {
            10_000_000u64
        } else {
            reported as u64
        }),
        f > 0,
{
    if reported <= 0 {
        10_000_000
    } else {
        reported as u64
    }
}

/// `t` ticks at `f` per second, in nanoseconds, rounded down.
pub open spec fn spec_ticks_to_ns(t: u64, f: u64) -> int {
    (t as int * 1_000_000_000) / f as int
}

/// `ns` nanoseconds in ticks at `f` per second, rounded down.
pub open spec fn spec_ns_to_ticks(ns: u64, f: u64) -> int {
    (ns as int * f as int) / 1_000_000_000
}

proof fn lemma_split(x: int, d: int, m: int)
    requires
        0 < d,
        0 <= x,
        0 <= m,
    ensures
        (x / d) * m + ((x % d) * m) / d == (x * m) / d,
{
    lemma_fundamental_div_mod(x, d);
    let q = x / d;
    let r = x % d;
    assert(x * m == r * m + (q * m) * d) by (nonlinear_arith)
        requires
            x == d * q + r,
    ;
    lemma_hoist_over_denominator(r * m, q * m, d as nat);
}

/// Nanoseconds for `t` ticks, split into whole seconds and the remainder so a
/// long session cannot overflow the multiply. Exactly `t * 1e9 / f`.
pub fn ticks_to_ns(t: u64, f: u64) -> (ns: u64)
    requires
        0 < f <= u64::MAX / NS_PER_S,
        spec_ticks_to_ns(t, f) <= u64::MAX,
    ensures
        ns == spec_ticks_to_ns(t, f),
{
    proof {
        let ti = t as int;
        let fi = f as int;
        lemma_split(ti, fi, 1_000_000_000);
        lemma_fundamental_div_mod(ti, fi);
        let r = ti % fi;
        let q = ti / fi;
        assert(r * 1_000_000_000 < fi * 1_000_000_000) by (nonlinear_arith)
            requires
                0 <= r,
                r < fi,
        ;
        assert(0 <= (r * 1_000_000_000) / fi) by (nonlinear_arith)
            requires
                0 <= r,
                0 < fi,
        ;
        assert(q * 1_000_000_000 <= spec_ticks_to_ns(t, f));
    }
    (t / f) * NS_PER_S + ((t % f) * NS_PER_S) / f
}

/// Ticks for `ns` nanoseconds, split the same way. Exactly `ns * f / 1e9`.
pub fn ns_to_ticks(ns: u64, f: u64) -> (t: u64)
    requires
        f <= u64::MAX / NS_PER_S,
        spec_ns_to_ticks(ns, f) <= u64::MAX,
    ensures
        t == spec_ns_to_ticks(ns, f),
{
    proof {
        let ni = ns as int;
        let fi = f as int;
        lemma_split(ni, 1_000_000_000, fi);
        lemma_fundamental_div_mod(ni, 1_000_000_000);
        let r = ni % 1_000_000_000;
        let q = ni / 1_000_000_000;
        assert(r * fi < 1_000_000_000 * (u64::MAX / NS_PER_S)) by (nonlinear_arith)
            requires
                0 <= r,
                r < 1_000_000_000,
                0 <= fi,
                fi <= u64::MAX / NS_PER_S,
        ;
        assert(0 <= (r * fi) / 1_000_000_000) by (nonlinear_arith)
            requires
                0 <= r,
                0 <= fi,
        ;
        assert(q * fi <= spec_ns_to_ticks(ns, f));
    }
    (ns / NS_PER_S) * f + ((ns % NS_PER_S) * f) / NS_PER_S
}

pub fn name() -> (s: &'static str)
    ensures
        s@ == "QueryPerformanceCounter"@,
{
    "QueryPerformanceCounter"
}

/// A later tick is never an earlier nanosecond.
pub proof fn lemma_ticks_to_ns_monotonic(t1: u64, t2: u64, f: u64)
    requires
        0 < f,
        t1 <= t2,
    ensures
        spec_ticks_to_ns(t1, f) <= spec_ticks_to_ns(t2, f),
{
    assert(t1 as int * 1_000_000_000 <= t2 as int * 1_000_000_000);
    lemma_div_is_ordered(t1 as int * 1_000_000_000, t2 as int * 1_000_000_000, f as int);
}

/// Converting to nanoseconds and back never lands on a later tick: the two
/// roundings both go down.
pub proof fn lemma_round_trip_never_overshoots(t: u64, f: u64)
    requires
        0 < f,
    ensures
        (spec_ticks_to_ns(t, f) * f) / 1_000_000_000 <= t,
{
    let g = 1_000_000_000int;
    let fi = f as int;
    let x = t as int * g;
    lemma_fundamental_div_mod(x, fi);
    let q = x / fi;
    let r = x % fi;
    assert(q * fi <= x) by (nonlinear_arith)
        requires
            x == fi * q + r,
            0 <= r,
    ;
    lemma_div_is_ordered(q * fi, x, g);
    assert(x / g == t as int) by (nonlinear_arith)
        requires
            x == t as int * g,
            g == 1_000_000_000,
    ;
}

} // verus!
