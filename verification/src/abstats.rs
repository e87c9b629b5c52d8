//! The choices a distribution-free A/B analysis makes: which test method, how
//! zero differences are handled, and which analysis is shown as the answer.
//!
//! The tests themselves work on real-valued measurements; what is kept here is
//! the vocabulary that selects between them.
use vstd::prelude::*;

verus! {

#[derive(Debug, Clone, Copy, PartialEq, Eq, Structural)]
pub enum MwuMethod {
    /// Exact whenever there are no ties and the pooled sample is small enough
    /// for the exact null distribution.
    Auto,
    /// Exact iff either sample has at most eight values and there are no
    /// ties, as scipy's `'auto'` does.
    AutoScipy,
    Exact,
    Asymptotic,
}

/// Largest pooled sample size for which the exact null distribution is built.
pub const EXACT_MWU_MAX_N: usize = 60;

#[derive(Debug, Clone, Copy, PartialEq, Eq, Structural)]
pub enum ZeroMethod {
    /// Wilcoxon's original rule: discard zero differences, reduce n.
    Wilcox,
    /// Pratt (1959): rank |d| including the zeros, then drop the zeros from
    /// the signed rank sums.
    Pratt,
    /// Split each zero's rank evenly between the two signed rank sums.
    ZSplit,
}

#[derive(Debug, Clone, Copy, PartialEq, Eq, Structural)]
pub enum WsrMethod {
    /// Exact conditional distribution whenever the number of ranked
    /// observations is small enough, ties included; otherwise asymptotic.
    Auto,
    /// scipy's `'auto'`: n > 50 asymptotic; else no ties and no zeros exact;
    /// else n <= 13 exhaustive sign flips; else asymptotic.
    AutoScipy,
    Exact,
    Asymptotic,
}

/// Largest number of ranked differences for which the exact signed-rank
/// distribution is built.
pub const EXACT_WSR_MAX_N: usize = 50;

/// Which analysis the interface shows as the answer.
#[derive(Debug, Clone, Copy, PartialEq, Eq, Structural)]
pub enum Primary {
    /// Signed-rank test on the within-pair differences: the default for an
    /// interleaved run, because pairing removes session drift and fatigue.
    Paired,
    /// Rank-sum test, used when the run was not strictly interleaved or pairs
    /// are missing.
    Unpaired,
}

/// The analysis to treat as primary: the paired one exactly when the run was
/// interleaved and every A value has its B partner.
pub fn primary_for(n_a: usize, n_b: usize, interleaved: bool) -> (p: Primary)
    ensures
        p == (if interleaved && n_a == n_b {
            Primary::Paired
        } else {
            Primary::Unpaired
        }),
{
    if interleaved && n_a == n_b {
        Primary::Paired
    } else {
        Primary::Unpaired
    }
}

/// Largest number of label partitions a permutation test walks exhaustively
/// before it switches to random resampling.
pub const PERM_EXHAUSTIVE_MAX: u64 = 5_000_000;

/// The binomial coefficient, by Pascal's rule.
pub open spec fn binom(n: nat, k: nat) -> nat
    decreases n,
{
    if k == 0 {
        1
    } else if n == 0 {
        0
    } else {
        binom((n - 1) as nat, (k - 1) as nat) + binom((n - 1) as nat, k)
    }
}

/// There is no way to pick more items than there are.
pub proof fn lemma_choose_too_many(n: nat, k: nat)
    requires
        k > n,
    ensures
        binom(n, k) == 0,
    decreases n,
{
    if n > 0 {
        lemma_choose_too_many((n - 1) as nat, (k - 1) as nat);
        lemma_choose_too_many((n - 1) as nat, k);
    }
}

/// One step along a row of Pascal's triangle:
/// `C(n, k+1) * (k+1) == C(n, k) * (n-k)`.
pub proof fn lemma_choose_step(n: nat, k: nat)
    requires
        k <= n,
    ensures
        binom(n, k + 1) * (k + 1) == binom(n, k) * (n - k),
    decreases n,
{
    if k == n {
        lemma_choose_too_many(n, k + 1);
        assert(binom(n, k) * (n - k) == 0) by (nonlinear_arith)
            requires n - k == 0;
    } else {
        // here n > 0 and k < n
        let m = (n - 1) as nat;
        lemma_choose_step(m, k);
        let a = binom(m, k);
        let b = binom(m, k + 1);
        assert(binom(n, k + 1) == a + b);
        assert(b * (k + 1) == a * (m - k));
        assert((a + b) * (k + 1) == a * n) by (nonlinear_arith)
            requires b * (k + 1) == a * (m - k), m == n - 1, k < n;
        if k == 0 {
            assert(binom(n, 0) == 1);
            assert(a == 1);
            assert(a * n == binom(n, k) * (n - k)) by (nonlinear_arith)
                requires a == 1, binom(n, k) == 1, k == 0;
        } else {
            let km = (k - 1) as nat;
            lemma_choose_step(m, km);
            let c = binom(m, km);
            assert(a * k == c * (m - km));
            assert(binom(n, k) == c + a);
            assert(a * n == (c + a) * (n - k)) by (nonlinear_arith)
                requires a * k == c * (m - km), m == n - 1, km == k - 1, k < n, k > 0;
        }
    }
}

/// Picking `k` items is picking the `n - k` left behind.
pub proof fn lemma_choose_symmetric(n: nat, k: nat)
    requires
        k <= n,
    ensures
        binom(n, k) == binom(n, (n - k) as nat),
    decreases n,
{
    if n > 0 {
        let m = (n - 1) as nat;
        if k == 0 || k == n {
            lemma_choose_symmetric(m, 0);
            lemma_choose_too_many(m, n);
            assert(binom(m, m) == 1);
            assert(binom(n, n) == binom(m, m) + binom(m, n));
        } else {
            lemma_choose_symmetric(m, (k - 1) as nat);
            lemma_choose_symmetric(m, k);
            assert(binom(n, (n - k) as nat) == binom(m, (n - k - 1) as nat) + binom(m, (n - k) as nat));
        }
    }
}

/// Along the first half of a row the coefficients do not decrease.
proof fn lemma_choose_rising(n: nat, i: nat, j: nat)
    requires
        i <= j,
        2 * j <= n,
    ensures
        binom(n, i) <= binom(n, j),
    decreases j - i,
{
    if i < j {
        let p = (j - 1) as nat;
        lemma_choose_rising(n, i, p);
        lemma_choose_step(n, p);
        assert(binom(n, p + 1) * (p + 1) == binom(n, p) * (n - p));
        assert(binom(n, p) <= binom(n, p + 1)) by (nonlinear_arith)
            requires
                binom(n, p + 1) * (p + 1) == binom(n, p) * (n - p),
                p + 1 <= n - p,
        ;
    }
}

/// `C(n, k)`, or `u64::MAX` where it does not fit in a `u64`.
pub fn n_choose_k(n: u64, k: u64) -> (r: u64)
    ensures
        r == (if binom(n as nat, k as nat) > u64::MAX {
            u64::MAX as nat
        } else {
            binom(n as nat, k as nat)
        }),
{
    if k > n {
        proof {
            lemma_choose_too_many(n as nat, k as nat);
        }
        return 0;
    }
    let kk: u64 = if k <= n - k { k } else { n - k };
    proof {
        lemma_choose_symmetric(n as nat, k as nat);
        assert(binom(n as nat, kk as nat) == binom(n as nat, k as nat));
    }
    let mut r: u128 = 1;
    let mut i: u64 = 0;
    while i < kk
        invariant
            kk <= n,
            2 * kk <= n,
            i <= kk,
            r == binom(n as nat, i as nat),
            r <= u64::MAX,
            binom(n as nat, kk as nat) == binom(n as nat, k as nat),
        decreases kk - i,
    {
        proof {
            lemma_choose_step(n as nat, i as nat);
        }
        let ghost next = binom(n as nat, (i + 1) as nat);
        let f: u128 = (n - i) as u128;
        assert(r * f <= 0xffff_ffff_ffff_ffff * 0xffff_ffff_ffff_ffffu128) by (nonlinear_arith)
            requires r <= 0xffff_ffff_ffff_ffffu128, f <= 0xffff_ffff_ffff_ffffu128;
        let num: u128 = r * f;
        proof {
            assert(num == next * (i + 1));
            assert(num / ((i + 1) as u128) == next) by (nonlinear_arith)
                requires num == next * (i + 1), i + 1 > 0;
        }
        r = num / ((i + 1) as u128);
        if r > u64::MAX as u128 {
            proof {
                lemma_choose_rising(n as nat, (i + 1) as nat, kk as nat);
            }
            return u64::MAX;
        }
        i = i + 1;
    }
    r as u64
}

/// SplitMix64 finalisation of a seed, so nearby seeds give unrelated streams
/// and no seed maps onto another; a result of zero, which xorshift could
/// never leave, is replaced by the SplitMix increment.
pub open spec fn mixed_seed(seed: u64) -> u64 {
    let z0 = vstd::wrapping::u64_specs::wrapping_add(seed, 0x9E37_79B9_7F4A_7C15);
    let z1 = vstd::wrapping::u64_specs::wrapping_mul(z0 ^ (z0 >> 30u64), 0xBF58_476D_1CE4_E5B9);
    let z2 = vstd::wrapping::u64_specs::wrapping_mul(z1 ^ (z1 >> 27u64), 0x94D0_49BB_1331_11EB);
    let z3 = z2 ^ (z2 >> 31u64);
    if z3 == 0 {
        0x9E37_79B9_7F4A_7C15
    } else {
        z3
    }
}

/// One xorshift64 step.
pub open spec fn xorshift_step(x: u64) -> u64 {
    let a = x ^ (x << 13u64);
    let b = a ^ (a >> 7u64);
    b ^ (b << 17u64)
}

/// The generator behind the random resampling of the permutation tests.
pub struct XorShift64(u64);

impl XorShift64 {
    pub closed spec fn state(&self) -> u64 {
        self.0
    }

    pub fn seeded(seed: u64) -> (r: XorShift64)
        ensures
            r.state() == mixed_seed(seed),
            r.state() != 0,
    {
        let mut z = seed.wrapping_add(0x9E37_79B9_7F4A_7C15);
        z = (z ^ (z >> 30u64)).wrapping_mul(0xBF58_476D_1CE4_E5B9);
        z = (z ^ (z >> 27u64)).wrapping_mul(0x94D0_49BB_1331_11EB);
        z = z ^ (z >> 31u64);
        XorShift64(if z == 0 { 0x9E37_79B9_7F4A_7C15 } else { z })
    }

    pub fn next_u64(&mut self) -> (r: u64)
        ensures
            r == xorshift_step(old(self).state()),
            final(self).state() == r,
    {
        let mut x = self.0;
        x = x ^ (x << 13u64);
        x = x ^ (x >> 7u64);
        x = x ^ (x << 17u64);
        self.0 = x;
        x
    }

    /// A value below `n`, as the next output modulo `n`.
    pub fn below(&mut self, n: u64) -> (r: u64)
        requires
            n > 0,
        ensures
            r == xorshift_step(old(self).state()) % n,
            r < n,
            final(self).state() == xorshift_step(old(self).state()),
    {
        self.next_u64() % n
    }
}

/// The xorshift step never reaches zero from another state, so a generator
/// seeded away from zero keeps producing.
pub proof fn lemma_xorshift_never_zero(x: u64)
    requires
        x != 0,
    ensures
        xorshift_step(x) != 0,
{
    assert(x != 0 ==> (x ^ (x << 13u64)) != 0) by (bit_vector);
    let a = x ^ (x << 13u64);
    assert(a != 0 ==> (a ^ (a >> 7u64)) != 0) by (bit_vector);
    let b = a ^ (a >> 7u64);
    assert(b != 0 ==> (b ^ (b << 17u64)) != 0) by (bit_vector);
}

} // verus!
