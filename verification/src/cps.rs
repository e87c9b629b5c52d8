//! Clicks per second.
//!
//! Sustained rate is the figure that means something: it is what can be held
//! for the length of the test. Peak is the best window of a fixed length,
//! which on a short run is mostly luck about where the window fell, so it is
//! reported second. Turning counts into rates is a division the caller makes;
//! what is found here is how many presses the busiest window holds.
use vstd::prelude::*;

verus! {

/// `a - b`, or zero when `b` is larger.
pub open spec fn sat_sub(a: u64, b: u64) -> int {
    if a >= b {
        a - b
    } else {
        0
    }
}

/// Moves the start of the window forward from `lo` until the press at `lo`
/// is within `w` of the press at `hi`.
pub open spec fn advance(t: Seq<u64>, w: u64, lo: int, hi: int) -> int
    decreases hi - lo,
{
    if lo < hi && sat_sub(t[hi], t[lo]) > w {
        advance(t, w, lo + 1, hi)
    } else {
        lo
    }
}

/// Where the window ending at press `hi` starts, sliding over the presses.
pub open spec fn window_start(t: Seq<u64>, w: u64, hi: int) -> int
    decreases hi,
{
    if hi <= 0 {
        advance(t, w, 0, 0)
    } else {
        advance(t, w, window_start(t, w, hi - 1), hi)
    }
}

/// The most presses in any window ending at one of the first `n` presses.
pub open spec fn peak_upto(t: Seq<u64>, w: u64, n: int) -> int
    decreases n,
{
    if n <= 0 {
        0
    } else {
        let prev = peak_upto(t, w, n - 1);
        let here = (n - 1) - window_start(t, w, n - 1) + 1;
        if here > prev {
            here
        } else {
            prev
        }
    }
}

proof fn lemma_advance(t: Seq<u64>, w: u64, lo: int, hi: int)
    requires
        0 <= lo <= hi,
    ensures
        lo <= advance(t, w, lo, hi) <= hi,
        forall|j: int| lo <= j < advance(t, w, lo, hi) ==> sat_sub(t[hi], t[j]) > w,
        advance(t, w, lo, hi) < hi ==> sat_sub(t[hi], t[advance(t, w, lo, hi)]) <= w,
    decreases hi - lo,
{
    if lo < hi && sat_sub(t[hi], t[lo]) > w {
        lemma_advance(t, w, lo + 1, hi);
    }
}

proof fn lemma_window_start(t: Seq<u64>, w: u64, hi: int)
    requires
        0 <= hi,
    ensures
        0 <= window_start(t, w, hi) <= hi,
    decreases hi,
{
    if hi > 0 {
        lemma_window_start(t, w, hi - 1);
        lemma_advance(t, w, window_start(t, w, hi - 1), hi);
    } else {
        lemma_advance(t, w, 0, 0);
    }
}

/// Time from `a` to `b`, or zero when `b` is earlier.
fn elapsed(a: u64, b: u64) -> (d: u64)
    ensures
        d == sat_sub(b, a),
{
    if b >= a {
        b - a
    } else {
        0
    }
}

/// The most presses that fall in one window of `window_ns`, found by sliding
/// the window's start forward over the presses, so the cost is linear.
pub fn peak_count(press_times_ns: &[u64], window_ns: u64) -> (c: usize)
    ensures
        c == peak_upto(press_times_ns@, window_ns, press_times_ns@.len() as int),
{
    let ghost t = press_times_ns@;
    let mut peak: usize = 0;
    let mut lo: usize = 0;
    let mut hi: usize = 0;
    while hi < press_times_ns.len()
        invariant
            t == press_times_ns@,
            hi <= t.len(),
            hi == 0 ==> lo == 0,
            hi > 0 ==> lo == window_start(t, window_ns, hi - 1),
            lo <= hi,
            peak == peak_upto(t, window_ns, hi as int),
            peak <= hi,
        decreases t.len() - hi,
    {
        proof {
            if hi > 0 {
                lemma_window_start(t, window_ns, hi - 1);
            }
        }
        while lo < hi && elapsed(press_times_ns[lo], press_times_ns[hi]) > window_ns
            invariant
                t == press_times_ns@,
                hi < t.len(),
                lo <= hi,
                advance(t, window_ns, lo as int, hi as int) == window_start(t, window_ns, hi as int),
            decreases hi - lo,
        {
            lo = lo + 1;
        }
        proof {
            assert(advance(t, window_ns, lo as int, hi as int) == lo);
        }
        let here = hi - lo + 1;
        if here > peak {
            peak = here;
        }
        hi = hi + 1;
    }
    peak
}

/// Times that never go backwards.
pub open spec fn nondecreasing(t: Seq<u64>) -> bool {
    forall|i: int, j: int| 0 <= i <= j < t.len() ==> t[i] <= t[j]
}

/// For presses in time order, the window the slide finds for press `i` is
/// exactly the presses at or before `i` that are within `w` of it, so the
/// peak is the most presses any window of that length ending at a press can
/// hold.
pub proof fn lemma_window_is_exact(t: Seq<u64>, w: u64, i: int)
    requires
        nondecreasing(t),
        0 <= i < t.len(),
    ensures
        forall|j: int|
            0 <= j <= i ==> (t[i] - t[j] <= w <==> j >= #[trigger] window_start(t, w, i)),
    decreases i,
{
    let s = window_start(t, w, i);
    if i == 0 {
        lemma_advance(t, w, 0, 0);
    } else {
        lemma_window_is_exact(t, w, i - 1);
        lemma_window_start(t, w, i - 1);
        let p = window_start(t, w, i - 1);
        lemma_advance(t, w, p, i);
        assert forall|j: int| 0 <= j <= i implies (t[i] - t[j] <= w <==> j >= s) by {
            if j < p {
                assert(t[i - 1] - t[j] > w);
                assert(t[i - 1] <= t[i]);
            } else if j < s {
                assert(sat_sub(t[i], t[j]) > w);
            } else if j >= s && s < i {
                assert(sat_sub(t[i], t[s]) <= w);
                assert(t[s] <= t[j]);
            }
        }
    }
}

} // verus!
