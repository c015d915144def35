//! Quantity normalization against exchange filters.
//!
//! Before order submission a requested quantity is rounded to the leg's
//! precision, aligned to the symbol's step size (Forward only), re-rounded
//! to the precision grid (the decimal rendering of the quantity is what the
//! venue receives, so the value is held to exactly what that string
//! denotes), and then checked against the lot and notional filters.

use vstd::prelude::*;
use crate::decimal::{parse_fp, spec_parse_fp};
use crate::fixed::{pow10, pow10_u64, round_to_multiple, floor_to_multiple, SCALE, FRAC_DIGITS};
use crate::models::{Direction, QuantityError, SymbolInfo};

verus! {

/// The precision quantum of a digit count: `10^(8-d)` for `d` decimal
/// places, every value carried being scaled by `10^8`.
pub open spec fn spec_quantum(digits: u8) -> nat {
    let d = if digits <= 8 {
        digits as nat
    } else {
        8nat
    };
    pow10((FRAC_DIGITS - d) as nat)
}

/// Rounding half up to a grid.
pub open spec fn spec_round_to(q: int, m: nat) -> int {
    ((q + m / 2) / (m as int)) * m
}

/// Truncation to a grid.
pub open spec fn spec_floor_to(q: int, m: nat) -> int {
    (q / (m as int)) * m
}

/// The normalized quantity before the filter checks: precision rounding,
/// step alignment for Forward legs, and the rounding implied by rendering
/// the quantity as a decimal string of the leg's precision.
pub open spec fn spec_adjusted_quantity(q: u64, quantum: nat, step: u64, fwd: bool) -> int {
    let q1 = spec_round_to(q as int, quantum);
    let q2 = if fwd && step > 0 && q1 % (step as int) != 0 {
        spec_floor_to(q1, step as nat)
    } else {
        q1
    };
    spec_round_to(q2, quantum)
}

/// Quantity validation: the result of normalizing `quantity` for one leg of
/// `info`'s symbol at reference price `general_price`.  Each error names
/// the first filter that failed, in the order the checks run.
pub open spec fn spec_validate_quantity(
    info: SymbolInfo,
    quantity: u64,
    general_price: u64,
    fwd: bool,
) -> Result<u64, QuantityError> {
    match spec_parse_fp(info.min_qty@) {
        None => Err(QuantityError::InvalidMinQty),
        Some(min_qty) => match spec_parse_fp(info.max_qty@) {
            None => Err(QuantityError::InvalidMaxQty),
            Some(max_qty) => match spec_parse_fp(info.step_size@) {
                None => Err(QuantityError::InvalidStepSize),
                Some(step) => {
                    let digits = if fwd {
                        info.base_asset_precision
                    } else {
                        info.quote_asset_precision
                    };
                    let q = spec_adjusted_quantity(quantity, spec_quantum(digits), step, fwd);
                    if q == 0 {
                        Err(QuantityError::ZeroQuantity)
                    } else if fwd {
                        if q < min_qty {
                            Err(QuantityError::BelowMinQty)
                        } else if q > max_qty {
                            Err(QuantityError::AboveMaxQty)
                        } else {
                            let notional = (q * general_price) / (SCALE as int);
                            match spec_parse_fp(info.min_notional@) {
                                None => Err(QuantityError::InvalidMinNotional),
                                Some(min_notional) => {
                                    if notional < min_notional {
                                        Err(QuantityError::BelowMinNotional)
                                    } else {
                                        match spec_parse_fp(info.max_notional@) {
                                            None => Err(QuantityError::InvalidMaxNotional),
                                            Some(max_notional) => {
                                                if notional > max_notional {
                                                    Err(QuantityError::AboveMaxNotional)
                                                } else {
                                                    Ok(q as u64)
                                                }
                                            },
                                        }
                                    }
                                },
                            }
                        }
                    } else {
                        match spec_parse_fp(info.min_notional@) {
                            None => Err(QuantityError::InvalidMinNotional),
                            Some(min_notional) => {
                                if q < min_notional {
                                    Err(QuantityError::BelowMinNotional)
                                } else {
                                    match spec_parse_fp(info.max_notional@) {
                                        None => Err(QuantityError::InvalidMaxNotional),
                                        Some(max_notional) => {
                                            if q > max_notional {
                                                Err(QuantityError::AboveMaxNotional)
                                            } else {
                                                Ok(q as u64)
                                            }
                                        },
                                    }
                                }
                            },
                        }
                    }
                },
            },
        },
    }
}

/// Validates that a requested quantity matches the exchange criteria for
/// one leg; see [`spec_validate_quantity`].  On success the returned
/// quantity is the normalized one.
pub fn validate_quantity(
    symbol_info: &SymbolInfo,
    quantity: u64,
    general_price: u64,
    direction: &Direction,
) -> (r: Result<u64, QuantityError>)
    requires
        quantity + 2 * SCALE <= u64::MAX,
    ensures
        r == spec_validate_quantity(*symbol_info, quantity, general_price, *direction is Forward),
{
    let fwd = match direction {
        Direction::Forward => true,
        Direction::Reverse => false,
    };
    let min_qty = match parse_fp(symbol_info.min_qty.as_str()) {
        None => {
            return Err(QuantityError::InvalidMinQty);
        },
        Some(v) => v,
    };
    let max_qty = match parse_fp(symbol_info.max_qty.as_str()) {
        None => {
            return Err(QuantityError::InvalidMaxQty);
        },
        Some(v) => v,
    };
    let step = match parse_fp(symbol_info.step_size.as_str()) {
        None => {
            return Err(QuantityError::InvalidStepSize);
        },
        Some(v) => v,
    };
    let digits = if fwd {
        symbol_info.base_asset_precision
    } else {
        symbol_info.quote_asset_precision
    };
    let d: u32 = if digits <= 8 {
        digits as u32
    } else {
        8
    };
    let quantum = pow10_u64(FRAC_DIGITS - d);
    proof {
        crate::fixed::lemma_pow10_pos((FRAC_DIGITS - d) as nat);
        crate::fixed::lemma_pow10_increases((FRAC_DIGITS - d) as nat, 8);
        assert(pow10(8) == 100_000_000) by {
            reveal_with_fuel(pow10, 9);
        }
        assert(quantum == spec_quantum(digits));
    }
    let q1 = round_to_multiple(quantity, quantum);
    let q2 = if fwd && step > 0 && q1 % step != 0 {
        floor_to_multiple(q1, step)
    } else {
        q1
    };
    proof {
        assert(q2 + quantum <= u64::MAX);
    }
    let q = round_to_multiple(q2, quantum);
    if q == 0 {
        return Err(QuantityError::ZeroQuantity);
    }
    if fwd {
        if q < min_qty {
            return Err(QuantityError::BelowMinQty);
        }
        if q > max_qty {
            return Err(QuantityError::AboveMaxQty);
        }
        proof {
            vstd::arithmetic::mul::lemma_mul_upper_bound(
                q as int,
                u64::MAX as int,
                general_price as int,
                u64::MAX as int,
            );
        }
        let notional: u128 = ((q as u128) * (general_price as u128)) / (SCALE as u128);
        let min_notional = match parse_fp(symbol_info.min_notional.as_str()) {
            None => {
                return Err(QuantityError::InvalidMinNotional);
            },
            Some(v) => v,
        };
        if notional < min_notional as u128 {
            return Err(QuantityError::BelowMinNotional);
        }
        let max_notional = match parse_fp(symbol_info.max_notional.as_str()) {
            None => {
                return Err(QuantityError::InvalidMaxNotional);
            },
            Some(v) => v,
        };
        if notional > max_notional as u128 {
            return Err(QuantityError::AboveMaxNotional);
        }
        Ok(q)
    } else {
        let min_notional = match parse_fp(symbol_info.min_notional.as_str()) {
            None => {
                return Err(QuantityError::InvalidMinNotional);
            },
            Some(v) => v,
        };
        if q < min_notional {
            return Err(QuantityError::BelowMinNotional);
        }
        let max_notional = match parse_fp(symbol_info.max_notional.as_str()) {
            None => {
                return Err(QuantityError::InvalidMaxNotional);
            },
            Some(v) => v,
        };
        if q > max_notional {
            return Err(QuantityError::AboveMaxNotional);
        }
        Ok(q)
    }
}

/// Step alignment: when normalization of a Forward leg succeeds and the
/// step size is representable on the precision grid, the normalized
/// quantity is an exact multiple of the step size.
pub proof fn lemma_step_alignment(
    info: SymbolInfo,
    quantity: u64,
    general_price: u64,
    q: u64,
    step: u64,
)
    requires
        spec_validate_quantity(info, quantity, general_price, true) == Ok::<u64, QuantityError>(q),
        spec_parse_fp(info.step_size@) == Some(step),
        step > 0,
        (step as int) % (spec_quantum(info.base_asset_precision) as int) == 0,
    ensures
        q % step == 0,
{
    let quantum = spec_quantum(info.base_asset_precision);
    crate::fixed::lemma_pow10_pos((FRAC_DIGITS - (if info.base_asset_precision <= 8 {
        info.base_asset_precision as nat
    } else {
        8nat
    })) as nat);
    let q1 = spec_round_to(quantity as int, quantum);
    lemma_round_is_multiple(quantity as int, quantum);
    let q2 = if q1 % (step as int) != 0 {
        spec_floor_to(q1, step as nat)
    } else {
        q1
    };
    lemma_floor_is_multiple(q1, step as nat);
    assert(q2 % (step as int) == 0) by {
        if q1 % (step as int) != 0 {
        }
    }
    crate::fixed::lemma_multiple_of_multiple(q2, step as int, quantum as int);
    lemma_round_fixes_multiples(q2, quantum);
    assert(q == q2);
}

/// Rounding lands on the grid.
proof fn lemma_round_is_multiple(q: int, m: nat)
    requires
        m > 0,
        q >= 0,
    ensures
        spec_round_to(q, m) % (m as int) == 0,
        spec_round_to(q, m) >= 0,
{
    let k = (q + m / 2) / (m as int);
    vstd::arithmetic::div_mod::lemma_mod_multiples_basic(k, m as int);
    vstd::arithmetic::div_mod::lemma_div_is_ordered(0, q + m / 2, m as int);
    assert(k * m >= 0) by (nonlinear_arith)
        requires
            k >= 0,
            m > 0,
    ;
}

/// Truncation lands on the grid.
proof fn lemma_floor_is_multiple(q: int, m: nat)
    requires
        m > 0,
        q >= 0,
    ensures
        spec_floor_to(q, m) % (m as int) == 0,
        spec_floor_to(q, m) >= 0,
        spec_floor_to(q, m) <= q,
{
    let k = q / (m as int);
    vstd::arithmetic::div_mod::lemma_mod_multiples_basic(k, m as int);
    vstd::arithmetic::div_mod::lemma_div_is_ordered(0, q, m as int);
    assert(k * m >= 0) by (nonlinear_arith)
        requires
            k >= 0,
            m > 0,
    ;
    vstd::arithmetic::div_mod::lemma_fundamental_div_mod(q, m as int);
    vstd::arithmetic::div_mod::lemma_mod_division_less_than_divisor(q, m as int);
    assert(k * m == m as int * k) by (nonlinear_arith);
}

/// Values already on the grid round to themselves.
proof fn lemma_round_fixes_multiples(q: int, m: nat)
    requires
        m > 0,
        q >= 0,
        q % (m as int) == 0,
    ensures
        spec_round_to(q, m) == q,
{
    let k = q / (m as int);
    vstd::arithmetic::div_mod::lemma_fundamental_div_mod(q, m as int);
    assert(q == (m as int) * k);
    vstd::arithmetic::div_mod::lemma_div_multiples_vanish_fancy(k, (m / 2) as int, m as int);
    assert((k * (m as int) + (m / 2)) / (m as int) == k);
    assert(k * (m as int) == (m as int) * k) by (nonlinear_arith);
    assert(spec_round_to(q, m) == k * m);
}

/// Idempotence: normalizing an already-normalized quantity changes
/// nothing, provided the step size is representable on the precision grid
/// (or the leg is Reverse, which has no step alignment).
pub proof fn lemma_normalize_idempotent(
    info: SymbolInfo,
    quantity: u64,
    general_price: u64,
    q: u64,
    fwd: bool,
)
    requires
        spec_validate_quantity(info, quantity, general_price, fwd) == Ok::<u64, QuantityError>(q),
        fwd ==> (match spec_parse_fp(info.step_size@) {
            Some(step) => step == 0 || (step as int) % (spec_quantum(
                info.base_asset_precision,
            ) as int) == 0,
            None => false,
        }),
    ensures
        spec_validate_quantity(info, q, general_price, fwd) == Ok::<u64, QuantityError>(q),
{
    let digits = if fwd {
        info.base_asset_precision
    } else {
        info.quote_asset_precision
    };
    let quantum = spec_quantum(digits);
    crate::fixed::lemma_pow10_pos((FRAC_DIGITS - (if digits <= 8 {
        digits as nat
    } else {
        8nat
    })) as nat);
    let step = spec_parse_fp(info.step_size@)->0;
    // The first run's result lies on the precision grid.
    let q1 = spec_round_to(quantity as int, quantum);
    lemma_round_is_multiple(quantity as int, quantum);
    let q2 = if fwd && step > 0 && q1 % (step as int) != 0 {
        spec_floor_to(q1, step as nat)
    } else {
        q1
    };
    if fwd && step > 0 && q1 % (step as int) != 0 {
        lemma_floor_is_multiple(q1, step as nat);
    }
    lemma_round_is_multiple(q2, quantum) ;
    assert(q2 >= 0);
    assert(q == spec_round_to(q2, quantum));
    assert(q as int % (quantum as int) == 0) by {
        lemma_round_is_multiple(q2, quantum);
    }
    // Re-normalizing: the precision rounding fixes q.
    lemma_round_fixes_multiples(q as int, quantum);
    // Step alignment does not move q either.
    if fwd && step > 0 {
        lemma_step_alignment(info, quantity, general_price, q, step as u64);
        assert(spec_adjusted_quantity(q, quantum, step as u64, fwd) == q as int) by {
            lemma_round_fixes_multiples(q as int, quantum);
        }
    } else {
        assert(spec_adjusted_quantity(q, quantum, step as u64, fwd) == q as int);
    }
}

} // verus!
