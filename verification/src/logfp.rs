//! Fixed-point base-10 logarithm.
//!
//! Edge weights of the rate graph are `-log10(rate)` where `rate` is a
//! positive fixed-point value.  The weight is computed entirely in integer
//! arithmetic: the decimal exponent by normalization, the fractional part by
//! the digit-by-digit squaring method (30 binary digits).  The contract pins
//! the result to a specification function that mirrors the computation
//! exactly, so equal rates always give equal weights, and the weight of a
//! power of ten is exact.

use vstd::prelude::*;
use vstd::arithmetic::power2::pow2;
use crate::fixed::SCALE;

verus! {

/// Mantissa scale used internally: `10^18`.
pub const MANT: u128 = 1_000_000_000_000_000_000;

/// Number of binary digits computed for the fractional part.
pub const LOG_BITS: u32 = 30;

/// `2^LOG_BITS`.
pub const LOG_BITS_UNIT: u64 = 1_073_741_824;

/// Largest magnitude a rate-graph edge weight can take.  A rate is between
/// `10^-8` and about `1.9 * 10^11`, so `|log10|` is under 12.
pub const WEIGHT_MAX: i64 = 1_200_000_000;

/// Repeated division by 10 until the mantissa is below `10 * MANT`;
/// returns the normalized mantissa and the number of steps.
pub open spec fn norm_down(m: nat) -> (nat, nat)
    decreases m,
{
    if m >= 10 * MANT {
        let (m2, s) = norm_down(m / 10);
        (m2, (s + 1) as nat)
    } else {
        (m, 0)
    }
}

/// Repeated multiplication by 10 until the mantissa reaches `MANT`;
/// returns the normalized mantissa and the number of steps.
pub open spec fn norm_up(m: nat) -> (nat, nat)
    decreases (10 * MANT - m),
{
    if 1 <= m < MANT {
        let (m2, s) = norm_up(10 * m);
        (m2, (s + 1) as nat)
    } else {
        (m, 0)
    }
}

/// The fractional binary digits of `log10(m / MANT)` from position `k`,
/// by squaring, accumulated in units of `2^-LOG_BITS`.
pub open spec fn frac_bits(m: nat, k: nat) -> nat
    decreases (LOG_BITS as nat) - k,
{
    if k >= LOG_BITS {
        0
    } else {
        let m2 = (m * m) / (MANT as nat);
        if m2 >= 10 * MANT {
            pow2(((LOG_BITS - 1) as nat - k) as nat) + frac_bits(m2 / 10, k + 1)
        } else {
            frac_bits(m2, k + 1)
        }
    }
}

/// `-log10(rate / SCALE)` in fixed point, as computed by [`neg_log10_fp`].
pub open spec fn spec_neg_log10_fp(rate: u64) -> int {
    let m0 = (rate * 10_000_000_000) as nat;
    let m1 = norm_down(m0).0;
    let sd = norm_down(m0).1;
    let m2 = norm_up(m1).0;
    let su = norm_up(m1).1;
    let e = sd - su;
    let frac = (frac_bits(m2, 0) * SCALE) as int / (LOG_BITS_UNIT as int);
    -(e * SCALE + frac)
}

proof fn lemma_norm_down_bounds(m: nat)
    ensures
        norm_down(m).0 < 10 * MANT,
        m >= MANT ==> norm_down(m).0 >= MANT,
        m < 10 * MANT ==> norm_down(m) == (m, 0nat),
        norm_down(m).0 <= m,
    decreases m,
{
    if m >= 10 * MANT {
        lemma_norm_down_bounds(m / 10);
    }
}

proof fn lemma_norm_down_steps(m: nat, k: nat)
    requires
        m < 10 * MANT * crate::fixed::pow10(k),
    ensures
        norm_down(m).1 <= k,
    decreases m,
{
    if m >= 10 * MANT {
        if k == 0 {
            assert(crate::fixed::pow10(k) == 1);
            assert(m < 10 * MANT) by (nonlinear_arith)
                requires
                    m < 10 * MANT * crate::fixed::pow10(k),
                    crate::fixed::pow10(k) == 1nat,
            ;
            assert(false);
        }
        assert(m / 10 < 10 * MANT * crate::fixed::pow10((k - 1) as nat)) by {
            assert(crate::fixed::pow10(k) == 10 * crate::fixed::pow10((k - 1) as nat));
            assert(10 * MANT * (10 * crate::fixed::pow10((k - 1) as nat)) == 10 * (10 * MANT
                * crate::fixed::pow10((k - 1) as nat))) by (nonlinear_arith);
        }
        lemma_norm_down_steps(m / 10, (k - 1) as nat);
    }
}

proof fn lemma_norm_up_bounds(m: nat)
    requires
        m >= 1,
    ensures
        norm_up(m).0 >= MANT,
        m < 10 * MANT ==> norm_up(m).0 < 10 * MANT,
        m >= MANT ==> norm_up(m) == (m, 0nat),
    decreases (10 * MANT - m),
{
    if 1 <= m < MANT {
        lemma_norm_up_bounds(10 * m);
    }
}

proof fn lemma_norm_up_steps(m: nat, k: nat)
    requires
        m * crate::fixed::pow10(k) >= MANT,
        m >= 1,
    ensures
        norm_up(m).1 <= k,
    decreases (10 * MANT - m),
{
    if 1 <= m < MANT {
        if k == 0 {
            assert(crate::fixed::pow10(k) == 1);
            assert(m >= MANT) by (nonlinear_arith)
                requires
                    m * crate::fixed::pow10(k) >= MANT,
                    crate::fixed::pow10(k) == 1nat,
            ;
            assert(false);
        }
        assert((10 * m) * crate::fixed::pow10((k - 1) as nat) >= MANT) by {
            assert(crate::fixed::pow10(k) == 10 * crate::fixed::pow10((k - 1) as nat));
            assert((10 * m) * crate::fixed::pow10((k - 1) as nat) == m * (10 * crate::fixed::pow10(
                (k - 1) as nat,
            ))) by (nonlinear_arith);
        }
        lemma_norm_up_steps(10 * m, (k - 1) as nat);
    }
}

/// The fractional digits of an exact mantissa of one are all zero.
proof fn lemma_frac_bits_mant(k: nat)
    ensures
        frac_bits(MANT as nat, k) == 0,
    decreases (LOG_BITS as nat) - k,
{
    if k < LOG_BITS {
        assert((MANT as nat * MANT as nat) / (MANT as nat) == MANT as nat) by (nonlinear_arith);
        lemma_frac_bits_mant(k + 1);
    }
}

/// The weight of the unit rate is exactly zero: `-log10(1) == 0`.
pub proof fn lemma_neg_log10_one()
    ensures
        spec_neg_log10_fp(SCALE) == 0,
{
    let m0 = (SCALE * 10_000_000_000) as nat;
    assert(m0 == MANT);
    lemma_norm_down_bounds(m0);
    lemma_norm_up_bounds(m0);
    lemma_frac_bits_mant(0);
}

/// `-log10(10) == -1` in fixed point.
pub proof fn lemma_neg_log10_ten()
    ensures
        spec_neg_log10_fp(1_000_000_000u64) == -(SCALE as int),
{
    let m0 = (1_000_000_000u64 * 10_000_000_000) as nat;
    assert(m0 == 10 * MANT);
    assert(norm_down(m0) == (MANT as nat, 1nat)) by {
        lemma_norm_down_bounds(MANT as nat);
        assert(m0 / 10 == MANT);
    }
    lemma_norm_up_bounds(MANT as nat);
    lemma_frac_bits_mant(0);
}

/// `-log10(1/10) == 1` in fixed point.
pub proof fn lemma_neg_log10_tenth()
    ensures
        spec_neg_log10_fp(10_000_000u64) == SCALE,
{
    let m0 = (10_000_000u64 * 10_000_000_000) as nat;
    assert(m0 == MANT / 10);
    lemma_norm_down_bounds(m0);
    assert(norm_up(m0) == (MANT as nat, 1nat)) by {
        assert(10 * m0 == MANT);
        lemma_norm_up_bounds(MANT as nat);
    }
    lemma_frac_bits_mant(0);
}

/// `-log10(rate / SCALE)` in fixed point: the rate-graph edge weight of a
/// positive rate.
pub fn neg_log10_fp(rate: u64) -> (w: i64)
    requires
        rate >= 1,
    ensures
        w == spec_neg_log10_fp(rate),
        -WEIGHT_MAX <= w <= WEIGHT_MAX,
{
    let ghost m0_g = (rate * 10_000_000_000) as nat;
    let mut m: u128 = (rate as u128) * 10_000_000_000;
    let mut sd: u32 = 0;
    let mut su: u32 = 0;

    proof {
        assert(crate::fixed::pow10(11) == 100_000_000_000) by {
            reveal_with_fuel(crate::fixed::pow10, 12);
        }
        assert(m0_g < 10 * MANT * crate::fixed::pow10(11));
        lemma_norm_down_steps(m0_g, 11);
        lemma_norm_down_bounds(m0_g);
    }

    while m >= 10 * MANT
        invariant
            m >= 1,
            norm_down(m0_g).0 == norm_down(m as nat).0,
            norm_down(m0_g).1 == sd + norm_down(m as nat).1,
            norm_down(m0_g).1 <= 11,
            sd <= 11,
        decreases m,
    {
        proof {
            assert(norm_down(m as nat).0 == norm_down((m as nat) / 10).0);
            assert(norm_down(m as nat).1 == norm_down((m as nat) / 10).1 + 1);
        }
        m = m / 10;
        sd = sd + 1;
    }

    let ghost m1_g = m as nat;
    proof {
        lemma_norm_down_bounds(m0_g);
        assert(norm_down(m as nat) == (m as nat, 0nat));
        assert(m1_g == norm_down(m0_g).0);
        // The starting mantissa is at least 10^10, so at most 8 upward steps.
        assert(crate::fixed::pow10(8) == 100_000_000) by {
            reveal_with_fuel(crate::fixed::pow10, 9);
        }
        if sd == 0 {
            assert(m1_g >= 10_000_000_000);
            assert(m1_g * crate::fixed::pow10(8) >= MANT) by (nonlinear_arith)
                requires
                    m1_g >= 10_000_000_000,
                    crate::fixed::pow10(8) == 100_000_000,
            ;
        } else {
            assert(m1_g >= MANT);
            crate::fixed::lemma_pow10_pos(8);
            assert(m1_g * crate::fixed::pow10(8) >= MANT * 1) by (nonlinear_arith)
                requires
                    m1_g >= MANT,
                    crate::fixed::pow10(8) >= 1,
            ;
        }
        lemma_norm_up_steps(m1_g, 8);
        lemma_norm_up_bounds(m1_g);
    }

    while m < MANT
        invariant
            m >= 1,
            m < 10 * MANT,
            norm_up(m1_g).0 == norm_up(m as nat).0,
            norm_up(m1_g).1 == su + norm_up(m as nat).1,
            norm_up(m1_g).1 <= 8,
            su <= 8,
        decreases 10 * MANT - m,
    {
        proof {
            assert(norm_up(m as nat).0 == norm_up(10 * (m as nat)).0);
            assert(norm_up(m as nat).1 == norm_up(10 * (m as nat)).1 + 1);
        }
        m = m * 10;
        su = su + 1;
    }

    let ghost m2_g = m as nat;
    proof {
        lemma_norm_up_bounds(m1_g);
        assert(norm_up(m as nat) == (m as nat, 0nat));
        assert(m2_g == norm_up(m1_g).0);
        assert(MANT <= m2_g < 10 * MANT);
    }

    // Fractional part, digit by digit.
    proof {
        vstd::arithmetic::power2::lemma2_to64();
        lemma_frac_bits_bound(m2_g, 0);
    }
    let mut acc: u64 = 0;
    let mut k: u32 = 0;
    while k < LOG_BITS
        invariant
            k <= LOG_BITS,
            MANT <= m < 10 * MANT,
            acc + frac_bits(m as nat, k as nat) == frac_bits(m2_g, 0),
            frac_bits(m2_g, 0) < pow2(LOG_BITS as nat),
            pow2(LOG_BITS as nat) == LOG_BITS_UNIT,
        decreases LOG_BITS - k,
    {
        proof {
            assert((10 * MANT as int) * (10 * MANT as int)
                == 100_000_000_000_000_000_000_000_000_000_000_000_000) by (nonlinear_arith);
            assert((m as int) * (m as int) < (10 * MANT as int) * (10 * MANT as int))
                by (nonlinear_arith)
                requires
                    0 <= (m as int) < 10 * MANT as int,
            ;
        }
        let m2: u128 = (m * m) / MANT;
        proof {
            let x = (m as int) * (m as int);
            assert(x < (MANT as int) * (100 * MANT as int)) by (nonlinear_arith)
                requires
                    x == (m as int) * (m as int),
                    0 <= (m as int) < 10 * MANT as int,
            ;
            vstd::arithmetic::div_mod::lemma_multiply_divide_lt(x, MANT as int, 100 * MANT as int);
            assert(m2 < 100 * MANT);
            assert(x >= (MANT as int) * (MANT as int)) by (nonlinear_arith)
                requires
                    x == (m as int) * (m as int),
                    (m as int) >= MANT as int,
            ;
            vstd::arithmetic::div_mod::lemma_div_is_ordered(
                (MANT as int) * (MANT as int),
                x,
                MANT as int,
            );
            assert((MANT as int * MANT as int) / (MANT as int) == MANT as int) by (nonlinear_arith);
            assert(m2 >= MANT);
        }
        if m2 >= 10 * MANT {
            proof {
                assert(frac_bits(m as nat, k as nat) == pow2(
                    ((LOG_BITS - 1) as nat - k as nat) as nat,
                ) + frac_bits((m2 as nat) / 10, (k + 1) as nat));
                lemma_pow2_sum_bound(k as nat);
                vstd::arithmetic::div_mod::lemma_multiply_divide_lt(m2 as int, 10, 10 * MANT as int);
                vstd::arithmetic::div_mod::lemma_div_is_ordered(
                    10 * MANT as int,
                    m2 as int,
                    10,
                );
                assert((10 * MANT as int) / 10 == MANT as int);
            }
            m = m2 / 10;
            let bit: u64 = pow2_u64(LOG_BITS - 1 - k);
            acc = acc + bit;
        } else {
            proof {
                assert(frac_bits(m as nat, k as nat) == frac_bits(m2 as nat, (k + 1) as nat));
            }
            m = m2;
        }
        k = k + 1;
    }

    proof {
        assert(frac_bits(m as nat, LOG_BITS as nat) == 0);
        assert(acc == frac_bits(m2_g, 0));
    }

    let frac128: u128 = ((acc as u128) * (SCALE as u128)) / (LOG_BITS_UNIT as u128);
    proof {
        assert((acc as int) * (SCALE as int) < (LOG_BITS_UNIT as int) * (SCALE as int))
            by (nonlinear_arith)
            requires
                (acc as int) < LOG_BITS_UNIT as int,
        ;
        vstd::arithmetic::div_mod::lemma_multiply_divide_lt(
            (acc as int) * (SCALE as int),
            LOG_BITS_UNIT as int,
            SCALE as int,
        );
        assert(frac128 < SCALE);
    }
    let frac: u64 = frac128 as u64;
    let e: i64 = (sd as i64) - (su as i64);
    proof {
        assert(-8 <= e <= 11);
        assert(0 <= frac < SCALE);
    }
    let w: i64 = -(e * (SCALE as i64) + (frac as i64));
    w
}

/// `2^n` for `n < 64`.
fn pow2_u64(n: u32) -> (r: u64)
    requires
        n < 64,
    ensures
        r == pow2(n as nat),
{
    proof {
        vstd::arithmetic::power2::lemma2_to64();
        vstd::arithmetic::power2::lemma_pow2_strictly_increases(n as nat, 64);
        assert(1u64 << n == pow2(n as nat)) by {
            vstd::bits::lemma_u64_shl_is_mul(1u64, n as u64);
        }
    }
    1u64 << n
}

/// The accumulated fractional digits never exceed `2^LOG_BITS`.
proof fn lemma_frac_bits_bound(m: nat, k: nat)
    requires
        k < LOG_BITS,
    ensures
        frac_bits(m, k) < pow2(((LOG_BITS as nat) - k) as nat),
    decreases (LOG_BITS as nat) - k,
{
    vstd::arithmetic::power2::lemma_pow2_unfold(((LOG_BITS as nat) - k) as nat);
    let m2 = (m * m) / (MANT as nat);
    if k + 1 < LOG_BITS {
        lemma_frac_bits_bound(m2, k + 1);
        lemma_frac_bits_bound(m2 / 10, k + 1);
    } else {
        assert(frac_bits(m2, k + 1) == 0);
        assert(frac_bits(m2 / 10, k + 1) == 0);
        vstd::arithmetic::power2::lemma_pow2_pos(0);
    }
}

/// Helper: adding bit `LOG_BITS-1-k` to digits accumulated so far stays
/// under `2^LOG_BITS`.
proof fn lemma_pow2_sum_bound(k: nat)
    requires
        k < LOG_BITS,
    ensures
        pow2(((LOG_BITS - 1) as nat - k) as nat) <= pow2((LOG_BITS - 1) as nat),
        pow2((LOG_BITS - 1) as nat) * 2 == pow2(LOG_BITS as nat),
{
    let lo: nat = ((LOG_BITS - 1) as nat - k) as nat;
    let hi: nat = (LOG_BITS - 1) as nat;
    if lo < hi {
        vstd::arithmetic::power2::lemma_pow2_strictly_increases(lo, hi);
    }
    vstd::arithmetic::power2::lemma_pow2_unfold(LOG_BITS as nat);
}


/// `r` is the integer square root of `x`.
pub open spec fn is_sqrt(x: nat, r: nat) -> bool {
    r * r <= x < (r + 1) * (r + 1)
}

/// The integer square root.
pub open spec fn spec_isqrt(x: nat) -> nat {
    choose|r: nat| is_sqrt(x, r)
}

/// The integer square root is unique.
pub proof fn lemma_isqrt_val(x: nat, r: nat)
    requires
        is_sqrt(x, r),
    ensures
        spec_isqrt(x) == r,
{
    assert(exists|rr: nat| is_sqrt(x, rr)) by {
        assert(is_sqrt(x, r));
    }
    let r2 = spec_isqrt(x);
    assert(is_sqrt(x, r2));
    if r < r2 {
        assert((r + 1) * (r + 1) <= r2 * r2) by (nonlinear_arith)
            requires
                r + 1 <= r2,
        ;
    }
    if r2 < r {
        assert((r2 + 1) * (r2 + 1) <= r * r) by (nonlinear_arith)
            requires
                r2 + 1 <= r,
        ;
    }
}

/// Integer square root by bisection.
fn isqrt(x: u128) -> (r: u128)
    ensures
        is_sqrt(x as nat, r as nat),
        spec_isqrt(x as nat) == r,
{
    let mut lo: u128 = 0;
    let mut hi: u128 = 18_446_744_073_709_551_616;
    proof {
        assert((18_446_744_073_709_551_616 as int) * (18_446_744_073_709_551_616 as int) > x)
            by (nonlinear_arith)
            requires
                x <= u128::MAX,
        ;
    }
    while hi - lo > 1
        invariant
            lo < hi <= 18_446_744_073_709_551_616,
            (lo as nat) * (lo as nat) <= x as nat,
            (x as nat) < (hi as nat) * (hi as nat),
        decreases hi - lo,
    {
        let mid = lo + (hi - lo) / 2;
        proof {
            assert((mid as int) * (mid as int) <= (18_446_744_073_709_551_615 as int)
                * (18_446_744_073_709_551_615 as int)) by (nonlinear_arith)
                requires
                    0 <= (mid as int) <= 18_446_744_073_709_551_615,
            ;
        }
        if mid * mid <= x {
            lo = mid;
        } else {
            hi = mid;
        }
    }
    proof {
        assert(hi == lo + 1);
        lemma_isqrt_val(x as nat, lo as nat);
    }
    lo
}

/// The mantissa of `10^(b / 2^LOG_BITS)` from digit `k` on, by repeated
/// square roots of ten, products clamped below ten (never reached in
/// practice, but it keeps every value in range by construction).
pub open spec fn exp10_frac(mant: nat, rcur: nat, b: nat, k: nat) -> nat
    decreases (LOG_BITS as nat) - k,
{
    if k >= LOG_BITS {
        mant
    } else {
        let rnext = spec_isqrt((rcur * MANT) as nat);
        let top = b / vstd::arithmetic::power2::pow2(((LOG_BITS - 1) as nat - k) as nat);
        let rest = b % vstd::arithmetic::power2::pow2(((LOG_BITS - 1) as nat - k) as nat);
        let m2 = if top >= 1 {
            let mm = (mant * rnext) / (MANT as nat);
            if mm > 10 * MANT - 1 {
                (10 * MANT - 1) as nat
            } else {
                mm
            }
        } else {
            mant
        };
        exp10_frac(m2, rnext, rest, k + 1)
    }
}

/// `10^(x / SCALE)` in fixed point, as computed by [`exp10_fp`]: `None`
/// when the result leaves `u64`.
pub open spec fn spec_exp10_fp(x: i64) -> Option<u64> {
    let e = if x >= 0 {
        (x as int) / (SCALE as int)
    } else {
        let m = -(x as int);
        if m % (SCALE as int) == 0 {
            -(m / (SCALE as int))
        } else {
            -(m / (SCALE as int)) - 1
        }
    };
    let f = if x >= 0 {
        (x as int) % (SCALE as int)
    } else {
        let m = -(x as int);
        if m % (SCALE as int) == 0 {
            0
        } else {
            SCALE - (m % (SCALE as int))
        }
    };
    let bits = (f * LOG_BITS_UNIT) / (SCALE as int);
    let mant = exp10_frac(MANT as nat, (10 * MANT) as nat, bits as nat, 0);
    if e >= 12 {
        None
    } else if e <= -20 {
        Some(0)
    } else if e >= 10 {
        let v = mant * crate::fixed::pow10((e - 10) as nat);
        if v > u64::MAX {
            None
        } else {
            Some(v as u64)
        }
    } else {
        Some((mant / crate::fixed::pow10((10 - e) as nat)) as u64)
    }
}

/// `10^n` for `n <= 29`, in `u128`.
fn pow10_u128(n: u32) -> (r: u128)
    requires
        n <= 29,
    ensures
        r == crate::fixed::pow10(n as nat),
{
    proof {
        assert(crate::fixed::pow10(29) == 0x1431E0FAE6D7217CAA0000000u128) by {
            reveal_with_fuel(crate::fixed::pow10, 30);
        }
    }
    let mut r: u128 = 1;
    let mut i: u32 = 0;
    while i < n
        invariant
            i <= n <= 29,
            r == crate::fixed::pow10(i as nat),
            crate::fixed::pow10(29) == 0x1431E0FAE6D7217CAA0000000u128,
        decreases n - i,
    {
        proof {
            assert(crate::fixed::pow10((i + 1) as nat) == 10 * crate::fixed::pow10(i as nat));
            crate::fixed::lemma_pow10_increases((i + 1) as nat, 29);
        }
        r = r * 10;
        i = i + 1;
    }
    r
}

/// Computes `10^(x / SCALE)` in fixed point; see [`spec_exp10_fp`].
pub fn exp10_fp(x: i64) -> (r: Option<u64>)
    requires
        -10_000_000_000 <= x <= 10_000_000_000,
    ensures
        r == spec_exp10_fp(x),
{
    let (e, f): (i64, u64) = if x >= 0 {
        let xu = x as u64;
        ((xu / SCALE) as i64, xu % SCALE)
    } else {
        let m = (-x) as u64;
        let qm = m / SCALE;
        let rm = m % SCALE;
        if rm == 0 {
            (-(qm as i64), 0)
        } else {
            (-(qm as i64) - 1, SCALE - rm)
        }
    };
    let bits: u64 = (((f as u128) * (LOG_BITS_UNIT as u128)) / (SCALE as u128)) as u64;
    proof {
        vstd::arithmetic::power2::lemma2_to64();
        assert((f as int) * (LOG_BITS_UNIT as int) < (SCALE as int) * (LOG_BITS_UNIT as int))
            by (nonlinear_arith)
            requires
                0 <= (f as int) < SCALE as int,
        ;
        vstd::arithmetic::div_mod::lemma_multiply_divide_lt(
            (f as int) * (LOG_BITS_UNIT as int),
            SCALE as int,
            LOG_BITS_UNIT as int,
        );
    }

    let mut mant: u128 = MANT;
    let mut rcur: u128 = 10 * MANT;
    let mut b: u64 = bits;
    let mut k: u32 = 0;
    while k < LOG_BITS
        invariant
            k <= LOG_BITS,
            MANT <= mant < 10 * MANT,
            MANT <= rcur <= 10 * MANT,
            b < pow2(((LOG_BITS - k) as nat)),
            pow2(LOG_BITS as nat) == LOG_BITS_UNIT,
            exp10_frac(MANT as nat, (10 * MANT) as nat, bits as nat, 0) == exp10_frac(
                mant as nat,
                rcur as nat,
                b as nat,
                k as nat,
            ),
        decreases LOG_BITS - k,
    {
        proof {
            assert((rcur as int) * (MANT as int) <= (10 * MANT as int) * (MANT as int))
                by (nonlinear_arith)
                requires
                    rcur <= 10 * MANT,
            ;
        }
        let rnext = isqrt(rcur * MANT);
        proof {
            // The root of a mantissa in range stays in range.
            assert((MANT as int) * (MANT as int) <= (rcur as int) * (MANT as int))
                by (nonlinear_arith)
                requires
                    rcur >= MANT,
            ;
            assert(rnext >= MANT) by (nonlinear_arith)
                requires
                    ((rnext as int) + 1) * ((rnext as int) + 1) > (MANT as int) * (MANT as int),
                    rnext >= 0,
            ;
            assert(rnext <= 10 * MANT) by (nonlinear_arith)
                requires
                    (rnext as int) * (rnext as int) <= (10 * MANT as int) * (MANT as int),
                    rnext >= 0,
            ;
            vstd::arithmetic::power2::lemma_pow2_unfold(((LOG_BITS - k) as nat));
        }
        let w = pow2_u64(LOG_BITS - 1 - k);
        let top = b / w;
        let rest = b % w;
        proof {
            vstd::arithmetic::div_mod::lemma_mod_division_less_than_divisor(b as int, w as int);
            vstd::arithmetic::power2::lemma_pow2_pos(((LOG_BITS - 1) as nat - k as nat) as nat);
        }
        if top >= 1 {
            proof {
                assert((mant as int) * (rnext as int) < (10 * MANT as int) * (10 * MANT as int))
                    by (nonlinear_arith)
                    requires
                        0 <= (mant as int) < 10 * MANT as int,
                        0 <= (rnext as int) <= 10 * MANT as int,
                ;
                assert((mant as int) * (rnext as int) >= (mant as int) * (MANT as int))
                    by (nonlinear_arith)
                    requires
                        (rnext as int) >= MANT as int,
                        mant >= 0,
                ;
                assert((mant as int) * (MANT as int) >= (MANT as int) * (MANT as int))
                    by (nonlinear_arith)
                    requires
                        (mant as int) >= MANT as int,
                ;
                vstd::arithmetic::div_mod::lemma_div_is_ordered(
                    (MANT as int) * (MANT as int),
                    (mant as int) * (rnext as int),
                    MANT as int,
                );
                assert((MANT as int) * (MANT as int) / (MANT as int) == MANT as int)
                    by (nonlinear_arith);
                assert((10 * MANT as int) * (10 * MANT as int)
                    == 100_000_000_000_000_000_000_000_000_000_000_000_000) by (nonlinear_arith);
            }
            let mm = (mant * rnext) / MANT;
            if mm > 10 * MANT - 1 {
                mant = 10 * MANT - 1;
            } else {
                mant = mm;
            }
        }
        rcur = rnext;
        b = rest;
        k = k + 1;
    }

    if e >= 12 {
        return None;
    }
    if e <= -20 {
        return Some(0);
    }
    if e >= 10 {
        let p = pow10_u128((e - 10) as u32);
        proof {
            crate::fixed::lemma_pow10_increases((e - 10) as nat, 2);
            assert(crate::fixed::pow10(2) == 100) by {
                reveal_with_fuel(crate::fixed::pow10, 3);
            }
            assert((mant as int) * (p as int) <= (10 * MANT as int) * 100) by (nonlinear_arith)
                requires
                    0 <= (mant as int) <= 10 * MANT as int,
                    0 <= (p as int) <= 100,
            ;
        }
        let v = mant * p;
        if v > u64::MAX as u128 {
            return None;
        }
        return Some(v as u64);
    }
    let p = pow10_u128((10 - e) as u32);
    proof {
        crate::fixed::lemma_pow10_pos((10 - e) as nat);
        vstd::arithmetic::div_mod::lemma_div_is_ordered_by_denominator(mant as int, 1, p as int);
        vstd::arithmetic::div_mod::lemma_fundamental_div_mod(mant as int, 1);
    }
    let v = mant / p;
    Some(v as u64)
}

} // verus!
