//! Decimal strings for fixed-point values.
//!
//! The venue reports lot and notional filters as decimal strings, order
//! quantities are submitted as decimal strings, and persisted rows hold
//! them too.  This module formats a fixed-point value to a given number of
//! decimal places (rounding half up) and parses such strings back, with the
//! round-trip proved exact.

use vstd::prelude::*;
use vstd::string::StringExecFns;
use vstd::string::StrSliceExecFns;
use crate::fixed::{pow10, pow10_u64, SCALE, FRAC_DIGITS};

verus! {

/// Decimal digit characters.
pub open spec fn is_digit(c: char) -> bool {
    '0' <= c && c <= '9'
}

/// The numeric value of a digit character.
pub open spec fn digit_val(c: char) -> nat {
    ((c as int) - ('0' as int)) as nat
}

/// The digit character of a value below ten.
pub open spec fn digit_char(d: nat) -> char {
    if d == 0 {
        '0'
    } else if d == 1 {
        '1'
    } else if d == 2 {
        '2'
    } else if d == 3 {
        '3'
    } else if d == 4 {
        '4'
    } else if d == 5 {
        '5'
    } else if d == 6 {
        '6'
    } else if d == 7 {
        '7'
    } else if d == 8 {
        '8'
    } else {
        '9'
    }
}

/// Every character is a digit.
pub open spec fn all_digits(s: Seq<char>) -> bool {
    forall|i: int| 0 <= i < s.len() ==> is_digit(#[trigger] s[i])
}

/// The value of a digit string, most significant first.
pub open spec fn digits_val(s: Seq<char>) -> nat
    decreases s.len(),
{
    if s.len() == 0 {
        0
    } else {
        digits_val(s.drop_last()) * 10 + digit_val(s.last())
    }
}

/// The shortest decimal representation of `n`.
pub open spec fn dec_digits(n: nat) -> Seq<char>
    decreases n,
{
    if n < 10 {
        seq![digit_char(n)]
    } else {
        dec_digits(n / 10) + seq![digit_char(n % 10)]
    }
}

/// Exactly `d` decimal digits of `r`, zero-padded on the left.
pub open spec fn padded_digits(r: nat, d: nat) -> Seq<char>
    decreases d,
{
    if d == 0 {
        Seq::empty()
    } else {
        padded_digits(r / 10, (d - 1) as nat) + seq![digit_char(r % 10)]
    }
}

/// Index of the first `'.'`, or `-1`.
pub open spec fn find_dot(s: Seq<char>) -> int
    decreases s.len(),
{
    if s.len() == 0 {
        -1
    } else if s[0] == '.' {
        0
    } else {
        let r = find_dot(s.drop_first());
        if r == -1 {
            -1
        } else {
            r + 1
        }
    }
}

/// The fixed-point value denoted by a decimal string: an integer part, and
/// optionally a dot and a fractional part.  `None` when the string is
/// malformed, denotes a value with non-zero digits beyond the eighth
/// decimal place, or does not fit in a `u64`.
pub open spec fn spec_parse_fp(s: Seq<char>) -> Option<u64> {
    let d = find_dot(s);
    if d == -1 {
        if s.len() == 0 || !all_digits(s) {
            None
        } else {
            let v = digits_val(s) * SCALE;
            if v > u64::MAX {
                None
            } else {
                Some(v as u64)
            }
        }
    } else {
        let ipart = s.subrange(0, d);
        let fpart = s.subrange(d + 1, s.len() as int);
        if ipart.len() == 0 || fpart.len() == 0 || !all_digits(ipart) || !all_digits(fpart) {
            None
        } else if exists|i: int| FRAC_DIGITS <= i < fpart.len() && #[trigger] fpart[i] != '0' {
            None
        } else {
            let k = if fpart.len() <= FRAC_DIGITS {
                fpart.len() as int
            } else {
                FRAC_DIGITS as int
            };
            let v = digits_val(ipart) * SCALE + digits_val(fpart.subrange(0, k)) * pow10(
                (FRAC_DIGITS - k) as nat,
            );
            if v > u64::MAX {
                None
            } else {
                Some(v as u64)
            }
        }
    }
}

/// The decimal rendering of fixed-point `v` with `d` fractional places
/// (`v` must already be a multiple of the place quantum; the public
/// formatter rounds first).
pub open spec fn spec_render_fp(v: u64, d: nat) -> Seq<char> {
    let quantum = pow10((FRAC_DIGITS - d) as nat);
    if d == 0 {
        dec_digits((v / SCALE) as nat)
    } else {
        dec_digits((v / SCALE) as nat) + seq!['.'] + padded_digits(
            ((v % SCALE) as nat) / quantum,
            d,
        )
    }
}

/// The formatted string of `q` at `digits` decimal places: `q` rounded half
/// up to that precision (at most the eight carried places), then rendered.
pub open spec fn spec_format_fp(q: u64, digits: u32) -> Seq<char> {
    let d = if digits <= FRAC_DIGITS {
        digits as nat
    } else {
        FRAC_DIGITS as nat
    };
    let quantum = pow10((FRAC_DIGITS - d) as nat);
    let v = (((q + quantum / 2) as nat) / quantum) * quantum;
    spec_render_fp(v as u64, d)
}

/// The digit character as a one-character string slice.
fn digit_str(d: u64) -> (r: &'static str)
    requires
        d < 10,
    ensures
        r@ == seq![digit_char(d as nat)],
{
    proof {
        reveal_strlit("0");
        reveal_strlit("1");
        reveal_strlit("2");
        reveal_strlit("3");
        reveal_strlit("4");
        reveal_strlit("5");
        reveal_strlit("6");
        reveal_strlit("7");
        reveal_strlit("8");
        reveal_strlit("9");
    }
    let r = match d {
        0 => "0",
        1 => "1",
        2 => "2",
        3 => "3",
        4 => "4",
        5 => "5",
        6 => "6",
        7 => "7",
        8 => "8",
        _ => "9",
    };
    proof {
        assert(r@ =~= seq![digit_char(d as nat)]);
    }
    r
}

/// Renders `n` in decimal.
pub fn format_u64(n: u64) -> (s: String)
    ensures
        s@ == dec_digits(n as nat),
    decreases n,
{
    if n < 10 {
        String::from_str(digit_str(n))
    } else {
        let mut s = format_u64(n / 10);
        s.append(digit_str(n % 10));
        s
    }
}

/// Renders exactly `d` digits of `r`, zero-padded.
fn format_padded(r: u64, d: u32) -> (s: String)
    ensures
        s@ == padded_digits(r as nat, d as nat),
    decreases d,
{
    if d == 0 {
        let s = String::new();
        proof {
            assert(s@ =~= padded_digits(r as nat, 0));
        }
        s
    } else {
        let mut s = format_padded(r / 10, d - 1);
        s.append(digit_str(r % 10));
        s
    }
}

/// Formats fixed-point `q` with `digits` decimal places, rounding half up;
/// see [`spec_format_fp`].
pub fn format_fp(q: u64, digits: u32) -> (s: String)
    requires
        q + SCALE <= u64::MAX,
    ensures
        s@ == spec_format_fp(q, digits),
{
    let d: u32 = if digits <= FRAC_DIGITS {
        digits
    } else {
        FRAC_DIGITS
    };
    let quantum = pow10_u64(FRAC_DIGITS - d);
    proof {
        crate::fixed::lemma_pow10_increases((FRAC_DIGITS - d) as nat, 8);
        assert(pow10(8) == 100_000_000) by {
            reveal_with_fuel(pow10, 9);
        }
        crate::fixed::lemma_pow10_pos((FRAC_DIGITS - d) as nat);
    }
    let v = crate::fixed::round_to_multiple(q, quantum);
    let ip = v / SCALE;
    let fp = (v % SCALE) / quantum;
    if d == 0 {
        format_u64(ip)
    } else {
        let mut s = format_u64(ip);
        proof {
            reveal_strlit(".");
        }
        s.append(".");
        let frac = format_padded(fp, d);
        s.append(frac.as_str());
        proof {
            assert(s@ =~= spec_format_fp(q, digits));
        }
        s
    }
}


/// The value of one digit string step: dropping the last digit divides by ten.
proof fn lemma_digits_val_push(s: Seq<char>, c: char)
    ensures
        digits_val(s.push(c)) == digits_val(s) * 10 + digit_val(c),
{
    assert(s.push(c).drop_last() =~= s);
    assert(s.push(c).last() == c);
}

/// Shape of a shortest decimal rendering: non-empty, all digits, and its
/// value is the rendered number.
pub proof fn lemma_dec_digits_wf(n: nat)
    ensures
        dec_digits(n).len() >= 1,
        all_digits(dec_digits(n)),
        digits_val(dec_digits(n)) == n,
    decreases n,
{
    if n < 10 {
        assert(is_digit(digit_char(n)));
        assert(dec_digits(n) =~= Seq::empty().push(digit_char(n)));
        lemma_digits_val_push(Seq::empty(), digit_char(n));
        assert(digit_val(digit_char(n)) == n);
    } else {
        lemma_dec_digits_wf(n / 10);
        let head = dec_digits(n / 10);
        let c = digit_char(n % 10);
        assert(dec_digits(n) =~= head.push(c));
        lemma_digits_val_push(head, c);
        assert(is_digit(c));
        assert(digit_val(c) == n % 10);
        vstd::arithmetic::div_mod::lemma_fundamental_div_mod(n as int, 10);
        assert forall|i: int| 0 <= i < dec_digits(n).len() implies is_digit(
            #[trigger] dec_digits(n)[i],
        ) by {
            if i < head.len() {
                assert(dec_digits(n)[i] == head[i]);
            }
        }
    }
}

/// Shape of a zero-padded rendering of `r` below `10^d`.
pub proof fn lemma_padded_wf(r: nat, d: nat)
    requires
        r < pow10(d),
    ensures
        padded_digits(r, d).len() == d,
        all_digits(padded_digits(r, d)),
        digits_val(padded_digits(r, d)) == r,
    decreases d,
{
    if d == 0 {
        assert(pow10(0) == 1);
        assert(padded_digits(r, d) =~= Seq::<char>::empty());
    } else {
        assert(pow10(d) == 10 * pow10((d - 1) as nat));
        assert(r / 10 < pow10((d - 1) as nat)) by {
            vstd::arithmetic::div_mod::lemma_multiply_divide_lt(
                r as int,
                10,
                pow10((d - 1) as nat) as int,
            );
        }
        lemma_padded_wf(r / 10, (d - 1) as nat);
        let head = padded_digits(r / 10, (d - 1) as nat);
        let c = digit_char(r % 10);
        assert(padded_digits(r, d) =~= head.push(c));
        lemma_digits_val_push(head, c);
        assert(is_digit(c));
        assert(digit_val(c) == r % 10);
        vstd::arithmetic::div_mod::lemma_fundamental_div_mod(r as int, 10);
        assert forall|i: int| 0 <= i < padded_digits(r, d).len() implies is_digit(
            #[trigger] padded_digits(r, d)[i],
        ) by {
            if i < head.len() {
                assert(padded_digits(r, d)[i] == head[i]);
            }
        }
    }
}

/// A string with no dot character has no dot to find.
pub proof fn lemma_find_dot_none(s: Seq<char>)
    requires
        forall|i: int| 0 <= i < s.len() ==> #[trigger] s[i] != '.',
    ensures
        find_dot(s) == -1,
    decreases s.len(),
{
    if s.len() > 0 {
        lemma_find_dot_none(s.drop_first());
    }
}

/// Digits are not dots.
pub proof fn lemma_all_digits_no_dot(s: Seq<char>)
    requires
        all_digits(s),
    ensures
        find_dot(s) == -1,
{
    assert forall|i: int| 0 <= i < s.len() implies #[trigger] s[i] != '.' by {
        assert(is_digit(s[i]));
    }
    lemma_find_dot_none(s);
}

/// The dot is found exactly where the first dot character sits.
pub proof fn lemma_find_dot_at(s: Seq<char>, i: int)
    requires
        0 <= i < s.len(),
        forall|j: int| 0 <= j < i ==> #[trigger] s[j] != '.',
        s[i] == '.',
    ensures
        find_dot(s) == i,
    decreases i,
{
    if i == 0 {
    } else {
        assert(s[0] != '.');
        lemma_find_dot_at(s.drop_first(), i - 1);
    }
}

/// A digit-string prefix never exceeds the whole string's value.
proof fn lemma_digits_val_prefix_le(s: Seq<char>, j: int)
    requires
        0 <= j <= s.len(),
    ensures
        digits_val(s.subrange(0, j)) <= digits_val(s),
    decreases s.len() - j,
{
    if j < s.len() {
        lemma_digits_val_prefix_le(s, j + 1);
        let p = s.subrange(0, j);
        let q = s.subrange(0, j + 1);
        assert(q.drop_last() =~= p);
        assert(q.last() == s[j]);
        assert(digits_val(q) == digits_val(p) * 10 + digit_val(s[j]));
        assert(digits_val(p) * 10 >= digits_val(p) * 1) by (nonlinear_arith);
    } else {
        assert(s.subrange(0, j) =~= s);
    }
}

/// Scans `s[from..to]`: `Some(v)` exactly when every character is a digit
/// and the value fits in a `u64`.
fn scan_digits(s: &str, from: usize, to: usize) -> (r: Option<u64>)
    requires
        from <= to <= s@.len(),
    ensures
        r is Some ==> all_digits(s@.subrange(from as int, to as int)) && digits_val(
            s@.subrange(from as int, to as int),
        ) == r->0,
        r is None ==> !all_digits(s@.subrange(from as int, to as int)) || digits_val(
            s@.subrange(from as int, to as int),
        ) > u64::MAX,
{
    let ghost whole = s@.subrange(from as int, to as int);
    let mut val: u64 = 0;
    let mut i: usize = from;
    while i < to
        invariant
            from <= i <= to <= s@.len(),
            whole == s@.subrange(from as int, to as int),
            all_digits(s@.subrange(from as int, i as int)),
            digits_val(s@.subrange(from as int, i as int)) == val,
        decreases to - i,
    {
        let ghost pre = s@.subrange(from as int, i as int);
        let c = s.get_char(i);
        let code = c as u32;
        proof {
            assert(s@.subrange(from as int, i + 1).drop_last() =~= pre);
            assert(s@.subrange(from as int, i + 1).last() == s@[i as int]);
        }
        if code < 48 || code > 57 {
            proof {
                assert(!is_digit(s@[i as int]));
                assert(whole[i - from] == s@[i as int]);
                assert(!all_digits(whole));
            }
            return None;
        }
        let d = (code - 48) as u64;
        proof {
            assert(is_digit(s@[i as int]));
            assert(digit_val(s@[i as int]) == d);
        }
        let nv: u128 = (val as u128) * 10 + (d as u128);
        if nv > u64::MAX as u128 {
            proof {
                assert(digits_val(s@.subrange(from as int, i + 1)) == nv);
                lemma_digits_val_prefix_le(whole, i + 1 - from);
                assert(whole.subrange(0, i + 1 - from) =~= s@.subrange(from as int, i + 1));
            }
            return None;
        }
        val = nv as u64;
        i = i + 1;
    }
    proof {
        assert(s@.subrange(from as int, to as int) =~= s@.subrange(from as int, i as int));
    }
    Some(val)
}

/// Parses a decimal string to fixed point; see [`spec_parse_fp`].
pub fn parse_fp(s: &str) -> (r: Option<u64>)
    ensures
        r == spec_parse_fp(s@),
{
    let len = s.unicode_len();
    // Locate the first dot.
    let mut dot: usize = len;
    let mut i: usize = 0;
    while i < len
        invariant_except_break
            dot == len,
        invariant
            len == s@.len(),
            i <= len,
            forall|j: int| 0 <= j < i ==> #[trigger] s@[j] != '.',
            dot == len || (i < len && dot == i && s@[i as int] == '.'),
        ensures
            dot < len ==> s@[dot as int] == '.' && forall|j: int|
                0 <= j < dot ==> #[trigger] s@[j] != '.',
            dot == len ==> forall|j: int| 0 <= j < len ==> #[trigger] s@[j] != '.',
        decreases len - i,
    {
        let c = s.get_char(i);
        if c == '.' {
            dot = i;
            break;
        }
        i = i + 1;
    }
    if dot == len {
        // No dot: a plain integer.
        proof {
            lemma_find_dot_none(s@);
        }
        if len == 0 {
            return None;
        }
        match scan_digits(s, 0, len) {
            None => {
                proof {
                    assert(s@.subrange(0, len as int) =~= s@);
                }
                return None;
            },
            Some(v) => {
                proof {
                    assert(s@.subrange(0, len as int) =~= s@);
                }
                if v > u64::MAX / SCALE {
                    proof {
                        assert(digits_val(s@) * SCALE > u64::MAX) by (nonlinear_arith)
                            requires
                                digits_val(s@) > (u64::MAX as int) / (SCALE as int),
                                digits_val(s@) >= 0,
                        ;
                    }
                    return None;
                }
                proof {
                    assert(digits_val(s@) * SCALE <= u64::MAX) by (nonlinear_arith)
                        requires
                            0 <= digits_val(s@) <= (u64::MAX as int) / (SCALE as int),
                    ;
                }
                return Some(v * SCALE);
            },
        }
    }
    proof {
        lemma_find_dot_at(s@, dot as int);
    }
    let ghost ipart = s@.subrange(0, dot as int);
    let ghost fpart = s@.subrange(dot as int + 1, len as int);
    if dot == 0 || dot + 1 == len {
        return None;
    }
    let ival = match scan_digits(s, 0, dot) {
        None => {
            return None;
        },
        Some(v) => v,
    };
    // Digits beyond the eighth decimal place must be zero.
    let flen = len - (dot + 1);
    let k: usize = if flen <= 8 {
        flen
    } else {
        8
    };
    let mut t: usize = dot + 1 + k;
    while t < len
        invariant
            len == s@.len(),
            dot + 1 + k <= t <= len,
            k <= flen,
            k == 8 || dot + 1 + k == len,
            flen == len - dot - 1,
            1 <= dot,
            dot + 1 < len,
            find_dot(s@) == dot as int,
            fpart == s@.subrange(dot as int + 1, len as int),
            forall|j: int| k <= j < t - dot - 1 ==> #[trigger] fpart[j] == '0',
        decreases len - t,
    {
        let c = s.get_char(t);
        if c != '0' {
            proof {
                assert(fpart[t - dot - 1] == s@[t as int]);
                assert(fpart[t - dot - 1] != '0');
                assert(FRAC_DIGITS <= t - dot - 1 < fpart.len());
            }
            return None;
        }
        proof {
            assert(fpart[t - dot - 1] == s@[t as int]);
        }
        t = t + 1;
    }
    let fval = match scan_digits(s, dot + 1, dot + 1 + k) {
        None => {
            proof {
                assert(fpart.subrange(0, k as int) =~= s@.subrange(
                    dot as int + 1,
                    dot as int + 1 + k,
                ));
                if !all_digits(s@.subrange(dot as int + 1, dot as int + 1 + k)) {
                    let bad = choose|j: int|
                        0 <= j < k && !is_digit(#[trigger] s@.subrange(
                            dot as int + 1,
                            dot as int + 1 + k,
                        )[j]);
                    assert(!is_digit(fpart[bad]));
                    assert(!all_digits(fpart));
                } else {
                    // Value of at most eight digits always fits.
                    lemma_short_digits_fit(s@.subrange(dot as int + 1, dot as int + 1 + k));
                }
            }
            return None;
        },
        Some(v) => v,
    };
    let quantum = pow10_u64(8 - (k as u32));
    proof {
        assert(fpart.subrange(0, k as int) =~= s@.subrange(dot as int + 1, dot as int + 1 + k));
        // The fractional part is all digits: scanned digits up to k, zeros after.
        assert forall|j: int| 0 <= j < fpart.len() implies is_digit(#[trigger] fpart[j]) by {
            if j < k {
                assert(fpart[j] == s@.subrange(dot as int + 1, dot as int + 1 + k)[j]);
            } else {
                assert(fpart[j] == '0');
            }
        }
        lemma_short_digits_fit(fpart.subrange(0, k as int));
        crate::fixed::lemma_pow10_increases((8 - k) as nat, 8);
        assert(pow10(8) == 100_000_000) by {
            reveal_with_fuel(pow10, 9);
        }
        vstd::arithmetic::mul::lemma_mul_upper_bound(
            ival as int,
            u64::MAX as int,
            SCALE as int,
            SCALE as int,
        );
        vstd::arithmetic::mul::lemma_mul_upper_bound(
            fval as int,
            100_000_000,
            quantum as int,
            100_000_000,
        );
    }
    let total: u128 = (ival as u128) * (SCALE as u128) + (fval as u128) * (quantum as u128);
    if total > u64::MAX as u128 {
        return None;
    }
    Some(total as u64)
}

/// Eight or fewer digits denote a value below `10^8`.
proof fn lemma_short_digits_fit(s: Seq<char>)
    requires
        all_digits(s),
        s.len() <= 8,
    ensures
        digits_val(s) < pow10(s.len()),
        digits_val(s) < 100_000_000,
    decreases s.len(),
{
    assert(pow10(8) == 100_000_000) by {
        reveal_with_fuel(pow10, 9);
    }
    if s.len() == 0 {
        assert(pow10(0) == 1);
    } else {
        let p = s.drop_last();
        assert(all_digits(p)) by {
            assert forall|i: int| 0 <= i < p.len() implies is_digit(#[trigger] p[i]) by {
                assert(p[i] == s[i]);
            }
        }
        lemma_short_digits_fit(p);
        assert(digit_val(s.last()) <= 9) by {
            assert(is_digit(s.last()));
        }
        assert(digits_val(p) * 10 + 9 < pow10(p.len()) * 10) by (nonlinear_arith)
            requires
                digits_val(p) < pow10(p.len()),
        ;
        assert(pow10(s.len()) == 10 * pow10(p.len()));
        crate::fixed::lemma_pow10_increases(s.len(), 8);
    }
}

/// Round trip: parsing a formatted fixed-point value recovers exactly the
/// value rounded (half up) to the requested precision.
pub proof fn lemma_parse_format_fp(q: u64, digits: u32)
    requires
        q + SCALE <= u64::MAX,
    ensures
        ({
            let d = if digits <= FRAC_DIGITS {
                digits as nat
            } else {
                FRAC_DIGITS as nat
            };
            let quantum = pow10((FRAC_DIGITS - d) as nat);
            let v = (((q + quantum / 2) as nat) / quantum) * quantum;
            spec_parse_fp(spec_format_fp(q, digits)) == Some(v as u64)
        }),
{
    let d = if digits <= FRAC_DIGITS {
        digits as nat
    } else {
        FRAC_DIGITS as nat
    };
    let quantum = pow10((FRAC_DIGITS - d) as nat);
    crate::fixed::lemma_pow10_pos((FRAC_DIGITS - d) as nat);
    crate::fixed::lemma_pow10_increases((FRAC_DIGITS - d) as nat, 8);
    assert(pow10(8) == 100_000_000) by {
        reveal_with_fuel(pow10, 9);
    }
    let a = ((q + quantum / 2) as nat) / quantum;
    let v = a * quantum;
    assert(v <= q + quantum / 2) by {
        vstd::arithmetic::div_mod::lemma_fundamental_div_mod((q + quantum / 2) as int, quantum as int);
        vstd::arithmetic::div_mod::lemma_mod_division_less_than_divisor(
            (q + quantum / 2) as int,
            quantum as int,
        );
        assert((((q + quantum / 2) as int) / (quantum as int)) * quantum == (quantum as int) * (((q
            + quantum / 2) as int) / (quantum as int))) by (nonlinear_arith);
    }
    let ip = (v as u64 / SCALE) as nat;
    let fp = ((v as u64 % SCALE) as nat) / quantum;
    lemma_dec_digits_wf(ip);
    let istr = dec_digits(ip);
    vstd::arithmetic::div_mod::lemma_fundamental_div_mod(v as int, SCALE as int);
    vstd::arithmetic::div_mod::lemma_mod_division_less_than_divisor(v as int, SCALE as int);
    // v mod SCALE is a multiple of the quantum.
    crate::fixed::lemma_pow10_adds((FRAC_DIGITS - d) as nat, d);
    assert(quantum * pow10(d) == SCALE);
    let b = (v as u64 / SCALE) as int;
    let c = a - pow10(d) * b;
    assert(v as int % SCALE as int == quantum * c) by (nonlinear_arith)
        requires
            v == a * quantum,
            v as int == SCALE as int * b + (v as int % SCALE as int),
            SCALE == quantum * pow10(d),
            c == a - pow10(d) * b,
    ;
    assert(c >= 0) by (nonlinear_arith)
        requires
            quantum * c == v as int % SCALE as int,
            v as int % SCALE as int >= 0,
            quantum >= 1,
    ;
    assert(fp == c) by {
        vstd::arithmetic::div_mod::lemma_fundamental_div_mod(
            v as int % SCALE as int,
            quantum as int,
        );
        assert(quantum as int * c == v as int % SCALE as int);
        vstd::arithmetic::div_mod::lemma_fundamental_div_mod_converse(
            v as int % SCALE as int,
            quantum as int,
            c,
            0,
        );
    }
    assert(fp * quantum == v as int % SCALE as int) by (nonlinear_arith)
        requires
            fp == c,
            quantum * c == v as int % SCALE as int,
    ;
    assert(fp < pow10(d)) by {
        vstd::arithmetic::div_mod::lemma_multiply_divide_lt(
            (v as u64 % SCALE) as int,
            quantum as int,
            pow10(d) as int,
        );
        assert(quantum as int * pow10(d) as int == SCALE as int);
    }
    if d == 0 {
        // Rendered as the bare integer part.
        assert(pow10(0nat) == 1);
        assert(quantum == SCALE);
        let sstr = spec_format_fp(q, digits);
        assert(sstr == istr);
        lemma_all_digits_no_dot(istr);
        assert(v as int % SCALE as int == 0) by (nonlinear_arith)
            requires
                fp * quantum == v as int % SCALE as int,
                fp < pow10(0nat),
                pow10(0nat) == 1,
                fp >= 0,
        ;
        assert(digits_val(istr) * SCALE == v) by (nonlinear_arith)
            requires
                digits_val(istr) == (v as u64 / SCALE) as nat,
                v as int == SCALE as int * ((v as u64 / SCALE) as int) + (v as int
                    % SCALE as int),
                v as int % SCALE as int == 0,
        ;
    } else {
        lemma_padded_wf(fp, d);
        let fstr = padded_digits(fp, d);
        let sstr = istr + seq!['.'] + fstr;
        assert(spec_format_fp(q, digits) == sstr);
        assert forall|j: int| 0 <= j < istr.len() implies #[trigger] sstr[j] != '.' by {
            assert(sstr[j] == istr[j]);
            assert(is_digit(istr[j]));
        }
        assert(sstr[istr.len() as int] == '.');
        lemma_find_dot_at(sstr, istr.len() as int);
        let dot = istr.len() as int;
        assert(sstr.subrange(0, dot) =~= istr);
        assert(sstr.subrange(dot + 1, sstr.len() as int) =~= fstr);
        assert(fstr.len() == d <= FRAC_DIGITS);
        assert(forall|i: int| FRAC_DIGITS <= i < fstr.len() ==> #[trigger] fstr[i] == '0');
        let k = fstr.len() as int;
        assert(fstr.subrange(0, k) =~= fstr);
        assert(digits_val(istr) * SCALE + digits_val(fstr) * pow10((FRAC_DIGITS - k) as nat)
            == v) by (nonlinear_arith)
            requires
                digits_val(istr) == (v as u64 / SCALE) as nat,
                digits_val(fstr) == fp,
                fp * quantum == v as int % SCALE as int,
                pow10((FRAC_DIGITS - k) as nat) == quantum,
                v as int == SCALE as int * ((v as u64 / SCALE) as int) + (v as int
                    % SCALE as int),
        ;
    }
}

/// Round trip for whole numbers: parsing a rendered `u64` recovers it.
pub proof fn lemma_parse_format_u64(n: u64)
    ensures
        all_digits(dec_digits(n as nat)),
        digits_val(dec_digits(n as nat)) == n,
{
    lemma_dec_digits_wf(n as nat);
}


/// The whole number denoted by a plain digit string.
pub open spec fn spec_parse_u64(s: Seq<char>) -> Option<u64> {
    if s.len() == 0 || !all_digits(s) {
        None
    } else if digits_val(s) > u64::MAX {
        None
    } else {
        Some(digits_val(s) as u64)
    }
}

/// Parses a plain digit string; see [`spec_parse_u64`].
pub fn parse_u64(s: &str) -> (r: Option<u64>)
    ensures
        r == spec_parse_u64(s@),
{
    let len = s.unicode_len();
    if len == 0 {
        return None;
    }
    let r = scan_digits(s, 0, len);
    proof {
        assert(s@.subrange(0, len as int) =~= s@);
    }
    r
}

/// The rendering of a signed fixed-point value: a minus sign before the
/// magnitude, rendered at full precision.
pub open spec fn spec_format_fp_signed(v: i64) -> Seq<char> {
    if v < 0 {
        seq!['-'] + spec_format_fp((-v) as u64, FRAC_DIGITS)
    } else {
        spec_format_fp(v as u64, FRAC_DIGITS)
    }
}

/// Formats a signed fixed-point value at full precision.
pub fn format_fp_signed(v: i64) -> (s: String)
    requires
        v > i64::MIN,
        v < i64::MAX - SCALE,
    ensures
        s@ == spec_format_fp_signed(v),
{
    if v < 0 {
        let mut s = String::new();
        proof {
            reveal_strlit("-");
        }
        s.append("-");
        let mag = format_fp((-v) as u64, FRAC_DIGITS);
        s.append(mag.as_str());
        proof {
            assert("-"@ =~= seq!['-']);
            assert(s@ =~= spec_format_fp_signed(v));
        }
        s
    } else {
        format_fp(v as u64, FRAC_DIGITS)
    }
}

/// The signed fixed-point value denoted by a decimal string with an
/// optional leading minus sign.
pub open spec fn spec_parse_fp_signed(s: Seq<char>) -> Option<i64> {
    if s.len() > 0 && s[0] == '-' {
        match spec_parse_fp(s.drop_first()) {
            None => None,
            Some(m) => {
                if m > i64::MAX {
                    None
                } else {
                    Some((-(m as int)) as i64)
                }
            },
        }
    } else {
        match spec_parse_fp(s) {
            None => None,
            Some(m) => {
                if m > i64::MAX {
                    None
                } else {
                    Some(m as i64)
                }
            },
        }
    }
}

/// Parses a signed decimal string; see [`spec_parse_fp_signed`].
pub fn parse_fp_signed(s: &str) -> (r: Option<i64>)
    ensures
        r == spec_parse_fp_signed(s@),
{
    let len = s.unicode_len();
    if len > 0 && s.get_char(0) == '-' {
        let rest = s.substring_char(1, len);
        proof {
            assert(rest@ =~= s@.drop_first());
        }
        match parse_fp(rest) {
            None => None,
            Some(m) => {
                if m > i64::MAX as u64 {
                    None
                } else {
                    Some(-(m as i64))
                }
            },
        }
    } else {
        match parse_fp(s) {
            None => None,
            Some(m) => {
                if m > i64::MAX as u64 {
                    None
                } else {
                    Some(m as i64)
                }
            },
        }
    }
}

/// Round trip for full-precision values: formatting at the full eight
/// places changes nothing, and parsing recovers the value exactly.
pub proof fn lemma_parse_format_exact(q: u64)
    requires
        q + SCALE <= u64::MAX,
    ensures
        spec_parse_fp(spec_format_fp(q, FRAC_DIGITS)) == Some(q),
{
    lemma_parse_format_fp(q, FRAC_DIGITS);
    assert(pow10(0nat) == 1);
    let quantum = pow10((FRAC_DIGITS - (FRAC_DIGITS as nat)) as nat);
    assert(quantum == 1);
    let v = (((q + quantum / 2) as nat) / quantum) * quantum;
    assert(v == ((q as nat) / 1) * 1);
    assert((q as nat) / 1 == q) by (nonlinear_arith);
    assert(v == q);
}


/// Round trip for signed full-precision values: a formatted signed value
/// parses back exactly.
pub proof fn lemma_parse_format_signed(v: i64)
    requires
        v > i64::MIN,
        v < i64::MAX - SCALE,
    ensures
        spec_parse_fp_signed(spec_format_fp_signed(v)) == Some(v),
{
    if v >= 0 {
        let s = spec_format_fp(v as u64, FRAC_DIGITS);
        lemma_parse_format_exact(v as u64);
        lemma_dec_digits_wf(((v as u64) as nat) / (SCALE as nat));
        // The rendering opens with a digit, never a minus sign.
        let ip = dec_digits(((v as u64) as nat) / (SCALE as nat));
        assert(s[0] == ip[0]);
        assert(is_digit(ip[0]));
        assert(s.len() > 0);
        assert(s[0] != '-');
    } else {
        let m = (-(v as int)) as u64;
        assert(m + SCALE <= u64::MAX);
        let s = spec_format_fp_signed(v);
        assert(s == seq!['-'] + spec_format_fp(m, FRAC_DIGITS));
        assert(s[0] == '-');
        assert(s.drop_first() =~= spec_format_fp(m, FRAC_DIGITS));
        lemma_parse_format_exact(m);
        assert(m <= i64::MAX);
    }
}


/// A zero-padded rendering consists of digits, whatever the value.
pub proof fn lemma_padded_all_digits(r: nat, d: nat)
    ensures
        padded_digits(r, d).len() == d,
        all_digits(padded_digits(r, d)),
    decreases d,
{
    if d > 0 {
        lemma_padded_all_digits(r / 10, (d - 1) as nat);
        let head = padded_digits(r / 10, (d - 1) as nat);
        let c = digit_char(r % 10);
        assert(padded_digits(r, d) =~= head.push(c));
        assert(is_digit(c));
        assert forall|i: int| 0 <= i < padded_digits(r, d).len() implies is_digit(
            #[trigger] padded_digits(r, d)[i],
        ) by {
            if i < head.len() {
                assert(padded_digits(r, d)[i] == head[i]);
            }
        }
    } else {
        assert(padded_digits(r, d) =~= Seq::<char>::empty());
    }
}

} // verus!
