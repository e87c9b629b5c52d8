//! Synthetic report streams with known ground truth.
//!
//! Detectors are validated against generated streams rather than against
//! intuition. What is kept here is the deterministic generator that drives the
//! synthesis and the record of what was generated; the stream shaping itself
//! works on real-valued rates and lives with the caller.
use vstd::prelude::*;
use crate::polling::Report;

verus! {

/// The multiplier of the xorshift64* output scramble.
pub const SCRAMBLE: u64 = 0x2545_F491_4F6C_DD1D;

/// One xorshift step on the 64-bit state.
pub open spec fn xorshift(x: u64) -> u64 {
    let a = x ^ (x >> 12u64);
    let b = a ^ (a << 25u64);
    b ^ (b >> 27u64)
}

/// The value handed out for a state: the state times [`SCRAMBLE`], modulo 2^64.
pub open spec fn scrambled(x: u64) -> u64 {
    ((x as nat * SCRAMBLE as nat) % 0x1_0000_0000_0000_0000nat) as u64
}

/// xorshift64*, so generated streams are deterministic and need no dependency.
pub struct Rng(u64);

impl Rng {
    /// The generator's current state.
    pub closed spec fn state(&self) -> u64 {
        self.0
    }

    /// A generator seeded with `seed`; the low bit is forced on so the state
    /// is never zero.
    pub fn new(seed: u64) -> (r: Rng)
        ensures
            r.state() == seed | 1,
            r.state() != 0,
    {
        proof {
            assert(seed | 1 != 0) by (bit_vector);
        }
        Rng(seed | 1)
    }

    /// Advances the state one step and returns the scrambled new state.
    pub fn next_u64(&mut self) -> (r: u64)
        ensures
            final(self).state() == xorshift(old(self).state()),
            r == scrambled(final(self).state()),
    {
        let mut x = self.0;
        x = x ^ (x >> 12u64);
        x = x ^ (x << 25u64);
        x = x ^ (x >> 27u64);
        self.0 = x;
        x.wrapping_mul(SCRAMBLE)
    }
}

/// The xorshift step never reaches the all-zero state from another one, so a
/// generator started away from zero keeps producing.
pub proof fn lemma_state_never_zero(x: u64)
    requires
        x != 0,
    ensures
        xorshift(x) != 0,
{
    assert(x != 0 ==> (x ^ (x >> 12u64)) != 0) by (bit_vector);
    let a = x ^ (x >> 12u64);
    assert(a != 0 ==> (a ^ (a << 25u64)) != 0) by (bit_vector);
    let b = a ^ (a << 25u64);
    assert(b != 0 ==> (b ^ (b >> 27u64)) != 0) by (bit_vector);
}

/// What a generated stream was made of: the reports, and how many polling
/// slots were dropped or emitted on the way.
pub struct Truth {
    pub reports: Vec<Report>,
    /// Slots that would have produced a report but were dropped.
    pub dropped: usize,
    /// Slots that produced a report.
    pub emitted: usize,
}

} // verus!
