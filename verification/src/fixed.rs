//! Decimal fixed-point arithmetic.
//!
//! A magnitude `x` is stored as the integer `x * SCALE`, with `SCALE = 10^8`.
//! All operations are exact integer computations; division truncates toward
//! zero, and every contract states the result as the corresponding integer
//! expression.

use vstd::prelude::*;

verus! {

/// Number of fractional decimal digits carried by a fixed-point value.
pub const FRAC_DIGITS: u32 = 8;

/// One unit (the number 1.0) in fixed point: `10^FRAC_DIGITS`.
pub const SCALE: u64 = 100_000_000;

/// `10^n` as a mathematical integer.
pub open spec fn pow10(n: nat) -> nat
    decreases n,
{
    if n == 0 {
        1
    } else {
        10 * pow10((n - 1) as nat)
    }
}

pub proof fn lemma_pow10_pos(n: nat)
    ensures
        pow10(n) >= 1,
    decreases n,
{
    if n > 0 {
        lemma_pow10_pos((n - 1) as nat);
    }
}

pub proof fn lemma_pow10_increases(a: nat, b: nat)
    requires
        a <= b,
    ensures
        pow10(a) <= pow10(b),
    decreases b,
{
    if a < b {
        lemma_pow10_increases(a, (b - 1) as nat);
        lemma_pow10_pos((b - 1) as nat);
    }
}

pub proof fn lemma_pow10_adds(a: nat, b: nat)
    ensures
        pow10(a + b) == pow10(a) * pow10(b),
    decreases a,
{
    if a > 0 {
        lemma_pow10_adds((a - 1) as nat, b);
        let x = pow10((a - 1) as nat) as int;
        let y = pow10(b) as int;
        assert(pow10(a + b) == 10 * pow10(((a - 1) + b) as nat));
        assert(pow10(((a - 1) + b) as nat) == x * y);
        assert(10 * (x * y) == (10 * x) * y) by (nonlinear_arith);
        assert(pow10(a) == 10 * x);
        assert(pow10(a + b) == 10 * (x * y));
        assert(pow10(a) * pow10(b) == (10 * x) * y);
        assert(pow10(a + b) == pow10(a) * pow10(b));
    } else {
        assert(a == 0);
        assert(pow10(a) == 1);
        assert(pow10(a + b) == pow10(b));
        assert(pow10(a) * pow10(b) == 1 * pow10(b));
        assert(pow10(a + b) == pow10(a) * pow10(b));
    }
}

/// `10^n` computed at runtime; `n <= 19` keeps the result inside `u64`.
pub fn pow10_u64(n: u32) -> (r: u64)
    requires
        n <= 19,
    ensures
        r == pow10(n as nat),
{
    proof {
        assert(pow10(19) == 10_000_000_000_000_000_000) by {
            reveal_with_fuel(pow10, 20);
        }
    }
    let mut r: u64 = 1;
    let mut i: u32 = 0;
    while i < n
        invariant
            i <= n <= 19,
            r == pow10(i as nat),
            pow10(19) == 10_000_000_000_000_000_000,
        decreases n - i,
    {
        proof {
            assert(pow10((i + 1) as nat) == 10 * pow10(i as nat));
            lemma_pow10_increases((i + 1) as nat, 19);
        }
        r = r * 10;
        i = i + 1;
    }
    r
}

/// The reciprocal of a positive fixed-point value: `1 / p`, i.e.
/// `SCALE^2 / p` as an integer.  Always fits in a `u64`.
pub fn recip_fp(p: u64) -> (r: u64)
    requires
        p > 0,
    ensures
        r == (SCALE * SCALE) as int / p as int,
{
    let n: u128 = (SCALE as u128) * (SCALE as u128);
    let r: u128 = n / (p as u128);
    proof {
        vstd::arithmetic::div_mod::lemma_div_is_ordered(
            (SCALE * SCALE) as int,
            (SCALE * SCALE) as int,
            p as int,
        );
    }
    r as u64
}

/// Largest multiple of `m` that is at most `q` (truncation to a grid).
pub fn floor_to_multiple(q: u64, m: u64) -> (r: u64)
    requires
        m > 0,
    ensures
        r == (q as int / m as int) * m,
        r % m == 0,
        r <= q,
        q - r < m,
{
    proof {
        vstd::arithmetic::div_mod::lemma_fundamental_div_mod(q as int, m as int);
        vstd::arithmetic::div_mod::lemma_mod_division_less_than_divisor(q as int, m as int);
        assert(((q as int / m as int) * m) % (m as int) == 0) by {
            vstd::arithmetic::div_mod::lemma_mod_multiples_basic(q as int / m as int, m as int);
        }
        assert((q as int / m as int) * m == m as int * (q as int / m as int)) by (nonlinear_arith);
        assert((q as int / m as int) * m <= q);
    }
    (q / m) * m
}

/// Nearest multiple of `m` to `q`, ties rounded up.
pub fn round_to_multiple(q: u64, m: u64) -> (r: u64)
    requires
        m > 0,
        q + m <= u64::MAX,
    ensures
        r == ((q + m / 2) as int / m as int) * m,
        r % m == 0,
        r <= q + m / 2,
{
    proof {
        vstd::arithmetic::div_mod::lemma_fundamental_div_mod((q + m / 2) as int, m as int);
        vstd::arithmetic::div_mod::lemma_mod_division_less_than_divisor(
            (q + m / 2) as int,
            m as int,
        );
        assert((((q + m / 2) as int / m as int) * m) % (m as int) == 0) by {
            vstd::arithmetic::div_mod::lemma_mod_multiples_basic(
                (q + m / 2) as int / m as int,
                m as int,
            );
        }
        assert(((q + m / 2) as int / m as int) * m == m as int * ((q + m / 2) as int / m as int))
            by (nonlinear_arith);
        assert(((q + m / 2) as int / m as int) * m <= q + m / 2);
    }
    ((q + m / 2) / m) * m
}

/// A multiple of a grid `s` that is itself a multiple of a finer grid `m`
/// stays a multiple of `s` under the coarser view.
pub proof fn lemma_multiple_of_multiple(q: int, s: int, m: int)
    requires
        m > 0,
        s > 0,
        s % m == 0,
        q % s == 0,
    ensures
        q % m == 0,
{
    let ks = q / s;
    let km = s / m;
    vstd::arithmetic::div_mod::lemma_fundamental_div_mod(q, s);
    vstd::arithmetic::div_mod::lemma_fundamental_div_mod(s, m);
    assert(q == s * ks);
    assert(s == m * km);
    assert((m * km) * ks == (ks * km) * m) by (nonlinear_arith);
    vstd::arithmetic::div_mod::lemma_mod_multiples_basic(ks * km, m);
}

} // verus!
