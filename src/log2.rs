//! Base-2 logarithms in fixed point (units of 2^-16), for entropies computed
//! without floats.
use vstd::prelude::*;

verus! {

pub open spec fn two_pow(k: nat) -> nat
    decreases k,
{
    if k == 0 {
        1
    } else {
        2 * two_pow((k - 1) as nat)
    }
}

/// The integer part of log2(n).
pub open spec fn floor_log2(n: nat) -> nat
    decreases n,
{
    if n <= 1 {
        0
    } else {
        1 + floor_log2(n / 2)
    }
}

/// log2(n) in units of 2^-16: exact at powers of two and interpolated
/// linearly between them (rounded down).
pub open spec fn log2_fixed_spec(n: nat) -> nat {
    let k = floor_log2(n);
    k * 65536 + ((n - two_pow(k)) * 65536) as nat / two_pow(k)
}

/// `n·log2(n)` in units of 2^-16, the entropy contribution of a weight `n`.
pub open spec fn plogp(n: nat) -> nat {
    n * log2_fixed_spec(n)
}

pub proof fn lemma_two_pow_pos(k: nat)
    ensures
        two_pow(k) >= 1,
    decreases k,
{
    if k > 0 {
        lemma_two_pow_pos((k - 1) as nat);
    }
}

/// Between consecutive powers of two the integer logarithm is the exponent.
pub proof fn lemma_floor_log2(n: nat, k: nat)
    requires
        two_pow(k) <= n < two_pow(k + 1),
    ensures
        floor_log2(n) == k,
    decreases k,
{
    lemma_two_pow_pos(k);
    if k == 0 {
        assert(n == 1);
    } else {
        let k1 = (k - 1) as nat;
        assert(two_pow(k) == 2 * two_pow(k1));
        assert(two_pow(k + 1) == 2 * two_pow(k));
        assert(two_pow(k1) <= n / 2 < two_pow(k1 + 1));
        lemma_floor_log2(n / 2, k1);
    }
}

/// A 32-bit value has a logarithm below 32, and its fixed-point log is
/// below 2^21.
pub proof fn lemma_log2_fixed_bound(n: nat)
    requires
        1 <= n <= u32::MAX,
    ensures
        log2_fixed_spec(n) < 0x20_0000,
{
    lemma_floor_log2_le(n);
    let k = floor_log2(n);
    lemma_two_pow_pos(k);
    lemma_floor_log2_bracket(n);
    let p = two_pow(k);
    assert((n - p) < p);
    assert((n - p) * 65536 < p * 65536) by (nonlinear_arith)
        requires
            n - p < p,
    ;
    assert(((n - p) * 65536) as nat / p < 65536) by (nonlinear_arith)
        requires
            (n - p) * 65536 < p * 65536,
            p >= 1,
            n >= p,
    ;
}

proof fn lemma_floor_log2_le(n: nat)
    requires
        1 <= n <= u32::MAX,
    ensures
        floor_log2(n) < 32,
{
    lemma_floor_log2_bracket(n);
    if floor_log2(n) >= 32 {
        lemma_two_pow_monotone(32, floor_log2(n));
        lemma_two_pow_32();
    }
}

proof fn lemma_two_pow_32()
    ensures
        two_pow(32) == 0x1_0000_0000,
{
    reveal_with_fuel(two_pow, 33);
}

/// `n` lies between two to the power of its integer logarithm and twice that.
pub proof fn lemma_floor_log2_bracket(n: nat)
    requires
        n >= 1,
    ensures
        two_pow(floor_log2(n)) <= n < two_pow(floor_log2(n) + 1),
    decreases n,
{
    if n > 1 {
        lemma_floor_log2_bracket(n / 2);
    }
}

/// log2(n) in units of 2^-16, by `log2_fixed_spec`.
pub fn log2_fixed(n: u32) -> (r: u64)
    requires
        n >= 1,
    ensures
        r == log2_fixed_spec(n as nat),
        r < 0x20_0000,
{
    let mut p: u64 = 1;
    let mut k: u64 = 0;
    while p <= (n as u64) / 2
        invariant
            1 <= p <= n,
            p == two_pow(k as nat),
            k <= 32,
            n >= 1,
        decreases n - p,
    {
        proof {
            if k >= 32 {
                lemma_two_pow_monotone(32, k as nat);
                lemma_two_pow_32();
            }
        }
        p = p * 2;
        k = k + 1;
    }
    proof {
        lemma_floor_log2(n as nat, k as nat);
        lemma_log2_fixed_bound(n as nat);
    }
    let frac = ((n as u64 - p) * 65536) / p;
    k * 65536 + frac
}

proof fn lemma_two_pow_monotone(a: nat, b: nat)
    requires
        a <= b,
    ensures
        two_pow(a) <= two_pow(b),
    decreases b,
{
    if a < b {
        lemma_two_pow_monotone(a, (b - 1) as nat);
        lemma_two_pow_pos((b - 1) as nat);
    }
}

/// The entropy contribution of a 32-bit weight is at most `n·2^21`.
pub proof fn lemma_plogp_bound(n: nat)
    requires
        1 <= n <= u32::MAX,
    ensures
        plogp(n) <= n * 0x20_0000,
{
    lemma_log2_fixed_bound(n);
    let l = log2_fixed_spec(n);
    assert(n * l <= n * 0x20_0000) by (nonlinear_arith)
        requires
            l < 0x20_0000,
    ;
}

/// `n·log2(n)` in units of 2^-16, by `plogp`.
pub fn plogp_fixed(n: u32) -> (r: u64)
    requires
        n >= 1,
    ensures
        r == plogp(n as nat),
        r <= n * 0x20_0000,
{
    let l = log2_fixed(n);
    proof {
        assert(n * l <= n * 0x20_0000) by (nonlinear_arith)
            requires
                l < 0x20_0000,
        ;
    }
    (n as u64) * l
}

} // verus!
