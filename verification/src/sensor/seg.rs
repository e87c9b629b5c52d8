//! Motion segmentation: trimming leading and trailing idle reports.
use vstd::prelude::*;
use crate::sensor::types::Report;

verus! {

pub open spec fn moving(r: Report) -> bool {
    r.dx != 0 || r.dy != 0
}

/// Trim leading and trailing zero-motion reports from a slice (hard trim, no
/// window). Returns the half-open range that is left: it starts and ends on a
/// moving report, or is empty when nothing moved.
pub fn trim_zeros(r: &[Report]) -> (range: (usize, usize))
    ensures
        range.0 <= range.1 <= r@.len(),
        forall|i: int| 0 <= i < range.0 ==> !moving(#[trigger] r@[i]),
        forall|i: int| range.1 <= i < r@.len() ==> !moving(#[trigger] r@[i]),
        range.0 < range.1 ==> moving(r@[range.0 as int]) && moving(r@[range.1 - 1]),
        range.0 == range.1 ==> range.0 == r@.len(),
{
    let mut a: usize = 0;
    let mut b: usize = r.len();
    while a < b && !r[a].is_moving()
        invariant
            a <= b == r@.len(),
            forall|i: int| 0 <= i < a ==> !moving(#[trigger] r@[i]),
        decreases b - a,
    {
        a = a + 1;
    }
    while b > a && !r[b - 1].is_moving()
        invariant
            a <= b <= r@.len(),
            a < r@.len() ==> moving(r@[a as int]),
            forall|i: int| 0 <= i < a ==> !moving(#[trigger] r@[i]),
            forall|i: int| b <= i < r@.len() ==> !moving(#[trigger] r@[i]),
        decreases b - a,
    {
        b = b - 1;
    }
    (a, b)
}

} // verus!
