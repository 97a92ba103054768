//! Seconds as the wire and the logs write them, and whole milliseconds.
//!
//! Delays travel as binary floating-point seconds (IEEE 754 `binary64`) and are
//! shown with two decimals. The conversions are carried out here in integer
//! arithmetic that rounds where `binary64` arithmetic rounds, so the result is
//! exact for every input.
use vstd::prelude::*;
use vstd::string::*;

use crate::text::decimal_text;
#[allow(unused_imports)]
use crate::text::{decimal, digit};
#[allow(unused_imports)]
use vstd::arithmetic::power2::pow2;

verus! {

/// Two to the power of 53: significands of `binary64` are below it.
pub const SIGNIFICAND_LIMIT: u128 = 0x20_0000_0000_0000;

/// `n / d` rounded to the nearest integer, ties to the even one.
pub open spec fn round_half_even(n: nat, d: nat) -> nat
    recommends
        d > 0,
{
    let q = n / d;
    let r = n % d;
    if 2 * r < d {
        q
    } else if 2 * r > d {
        q + 1
    } else if q % 2 == 0 {
        q
    } else {
        q + 1
    }
}

/// The distance between neighbouring `binary64` numbers around `n / d`, for
/// `n / d` at least `2^52`, and 1 below that: the least power of two `u` with
/// `n / d < 2^53 * u`.
pub open spec fn spacing(n: nat, d: nat) -> nat
    decreases n,
{
    if d == 0 || n < d * SIGNIFICAND_LIMIT {
        1
    } else {
        2 * spacing(n / 2, d)
    }
}

/// `n / d` rounded to a significand of 53 bits, for quotients that are integers
/// or at least `2^52`: the nearest such number, ties to the even significand.
pub open spec fn nearest(n: nat, d: nat) -> nat {
    let u = spacing(n, d);
    round_half_even(n, d * u) * u
}

/// Computes `round_half_even`.
fn divide_half_even(n: u128, d: u128) -> (q: u128)
    requires
        0 < d <= u128::MAX / 2,
    ensures
        q as nat == round_half_even(n as nat, d as nat),
{
    let q: u128 = n / d;
    let r: u128 = n % d;
    assert(r < d);
    if 2 * r < d {
        q
    } else if 2 * r == d && q % 2 == 0 {
        q
    } else {
        proof {
            // A remainder is left over, so the quotient is not the greatest `u128`.
            assert(d >= 2);
            assert(q <= n / 2) by (nonlinear_arith)
                requires
                    d >= 2,
                    q == n / d,
            ;
        }
        q + 1
    }
}

proof fn lemma_round_half_even_at_most_doubles(n: nat, d: nat)
    requires
        d > 0,
    ensures
        round_half_even(n, d) * d <= 2 * n,
{
    let q = n / d;
    let r = n % d;
    vstd::arithmetic::div_mod::lemma_fundamental_div_mod(n as int, d as int);
    assert(q * d == d * q) by (nonlinear_arith);
    assert((q + 1) * d == q * d + d) by (nonlinear_arith);
}

/// Rounding at most doubles a number.
pub proof fn lemma_nearest_at_most_doubles(n: nat, d: nat)
    requires
        d > 0,
    ensures
        nearest(n, d) * d <= 2 * n,
{
    let u = spacing(n, d);
    lemma_spacing_positive(n, d);
    let k = round_half_even(n, d * u);
    assert(d * u > 0) by (nonlinear_arith)
        requires
            d > 0,
            u > 0,
    ;
    lemma_round_half_even_at_most_doubles(n, d * u);
    assert(k * (d * u) == k * u * d) by (nonlinear_arith);
}

proof fn lemma_spacing_positive(n: nat, d: nat)
    ensures
        spacing(n, d) > 0,
    decreases n,
{
    if !(d == 0 || n < d * SIGNIFICAND_LIMIT) {
        assert(n / 2 < n) by {
            assert(d * SIGNIFICAND_LIMIT > 0) by (nonlinear_arith)
                requires
                    d > 0,
            ;
        }
        lemma_spacing_positive(n / 2, d);
    }
}

/// Computes `nearest`.
fn round_to_significand(n: u128, d: u128) -> (v: u128)
    requires
        0 < d <= 1000,
        n <= u128::MAX / 2,
    ensures
        v as nat == nearest(n as nat, d as nat),
{
    let mut m: u128 = n;
    let mut u: u128 = 1;
    let limit: u128 = d * SIGNIFICAND_LIMIT;
    while m >= limit
        invariant
            0 < d <= 1000,
            limit == d * SIGNIFICAND_LIMIT,
            n <= u128::MAX / 2,
            0 < u,
            m * u <= n,
            u == 1 || d * u <= n,
            spacing(n as nat, d as nat) == u * spacing(m as nat, d as nat),
        decreases m,
    {
        let ghost rest = spacing((m / 2) as nat, d as nat);
        proof {
            assert(spacing(m as nat, d as nat) == 2 * rest);
            assert(u * (2 * rest) == (2 * u) * rest) by (nonlinear_arith);
            assert((m / 2) * (2 * u) <= m * u) by (nonlinear_arith);
            assert(d * (2 * u) <= m * u) by (nonlinear_arith)
                requires
                    m >= d * 0x20_0000_0000_0000u128,
                    d > 0,
                    u > 0,
            ;
            assert(2 * u <= d * (2 * u)) by (nonlinear_arith)
                requires
                    d > 0,
                    u > 0,
            ;
        }
        m = m / 2;
        u = 2 * u;
    }
    proof {
        assert(spacing(m as nat, d as nat) == 1);
        lemma_nearest_at_most_doubles(n as nat, d as nat);
        assert(nearest(n as nat, d as nat) <= nearest(n as nat, d as nat) * d) by (nonlinear_arith)
            requires
                d > 0,
        ;
        assert(u <= d * u) by (nonlinear_arith)
            requires
                d > 0,
        ;
    }
    assert(d * u > 0) by (nonlinear_arith)
        requires
            d > 0,
            u > 0,
    ;
    let unit: u128 = d * u;
    let k: u128 = divide_half_even(n, unit);
    assert(nearest(n as nat, d as nat) == k * u);
    k * u
}

/// Two to the power of 62. Every `binary64` quotient of a whole number of
/// milliseconds by 1000 is a multiple of its reciprocal.
pub const FRACTION_UNITS: u128 = 0x4000_0000_0000_0000;

/// `ms` milliseconds in seconds, as the `binary64` quotient of `ms` and 1000
/// counted in units of `2^-62`.
pub open spec fn seconds_in_fraction_units(ms: u64) -> nat {
    nearest(nearest(ms as nat, 1) * FRACTION_UNITS as nat, 1000)
}

/// The hundredths of a second that are shown for `ms` milliseconds.
pub open spec fn centiseconds(ms: u64) -> nat {
    round_half_even(100 * seconds_in_fraction_units(ms), FRACTION_UNITS as nat)
}

/// `ms` milliseconds as seconds with two decimals.
pub open spec fn seconds_text(ms: u64) -> Seq<char> {
    let c = centiseconds(ms);
    decimal(c / 100) + seq!['.', digit(c / 10 % 10), digit(c % 10)]
}

/// Renders `ms` milliseconds as seconds with two decimals.
pub fn render_seconds(ms: u64) -> (s: String)
    ensures
        s@ == seconds_text(ms),
{
    proof {
        lemma_nearest_at_most_doubles(ms as nat, 1);
    }
    let whole: u128 = round_to_significand(ms as u128, 1);
    proof {
        lemma_nearest_at_most_doubles((whole * FRACTION_UNITS) as nat, 1000);
    }
    let fine: u128 = round_to_significand(whole * FRACTION_UNITS, 1000);
    proof {
        lemma_round_half_even_at_most_doubles((100 * fine) as nat, FRACTION_UNITS as nat);
    }
    let wide: u128 = divide_half_even(100 * fine, FRACTION_UNITS);
    let c: u64 = wide as u64;
    assert(c as nat == centiseconds(ms));
    let mut s = decimal_text(c / 100);
    s.push('.');
    s.push((48 + (c / 10 % 10) as u8) as char);
    s.push((48 + (c % 10) as u8) as char);
    assert(s@ =~= seconds_text(ms));
    s
}

/// Two to the power of 52, the leading bit of a normal `binary64` significand.
pub const HIDDEN_BIT: u64 = 0x10_0000_0000_0000;

/// The biased exponent field of a `binary64` bit pattern.
pub open spec fn exponent_field(bits: u64) -> u64 {
    bits / HIDDEN_BIT % 0x800
}

/// The fraction field of a `binary64` bit pattern.
pub open spec fn fraction_field(bits: u64) -> u64 {
    bits % HIDDEN_BIT
}

/// The significand of a finite `binary64` number: its magnitude is this, times
/// two to the power of the effective exponent, less 1075.
pub open spec fn significand(bits: u64) -> nat {
    if exponent_field(bits) == 0 {
        fraction_field(bits) as nat
    } else {
        (fraction_field(bits) + HIDDEN_BIT) as nat
    }
}

/// The exponent field, with subnormal numbers counted at the least normal one.
pub open spec fn effective_exponent(bits: u64) -> nat {
    if exponent_field(bits) == 0 {
        1
    } else {
        exponent_field(bits) as nat
    }
}

/// The whole milliseconds in the number of seconds with the `binary64` bit
/// pattern `bits`: negative numbers and NaN count as zero, the product with
/// 1000 is rounded to a significand of 53 bits and then truncated, and what
/// does not fit is the greatest `u64`.
pub open spec fn millis_of_seconds(bits: u64) -> u64 {
    if bits >= 0x8000_0000_0000_0000 {
        0
    } else if exponent_field(bits) == 0x7ff {
        if fraction_field(bits) == 0 {
            u64::MAX
        } else {
            0
        }
    } else {
        let product = nearest(significand(bits) * 1000, 1);
        let e = effective_exponent(bits);
        let whole = if e >= 1075 {
            product * pow2((e - 1075) as nat)
        } else {
            product / pow2((1075 - e) as nat)
        };
        if whole > u64::MAX {
            u64::MAX
        } else {
            whole as u64
        }
    }
}

proof fn lemma_halving(n: nat, k: nat)
    requires
        k > 0,
    ensures
        n / 2 / pow2((k - 1) as nat) == n / pow2(k),
{
    vstd::arithmetic::power2::lemma_pow2_unfold(k);
    vstd::arithmetic::power2::lemma_pow2_pos((k - 1) as nat);
    vstd::arithmetic::div_mod::lemma_div_denominator(n as int, 2, pow2((k - 1) as nat) as int);
}

/// Converts a number of seconds, given by its `binary64` bit pattern, to whole
/// milliseconds.
pub fn seconds_to_millis(bits: u64) -> (ms: u64)
    ensures
        ms == millis_of_seconds(bits),
{
    if bits >= 0x8000_0000_0000_0000 {
        return 0;
    }
    let exponent: u64 = bits / HIDDEN_BIT % 0x800;
    let fraction: u64 = bits % HIDDEN_BIT;
    if exponent == 0x7ff {
        if fraction == 0 {
            return u64::MAX;
        }
        return 0;
    }
    let (head, e): (u64, u64) = if exponent == 0 {
        (fraction, 1)
    } else {
        (fraction + HIDDEN_BIT, exponent)
    };
    proof {
        lemma_nearest_at_most_doubles((head * 1000) as nat, 1);
    }
    let product: u128 = round_to_significand(head as u128 * 1000, 1);
    let mut whole: u128 = product;
    if e >= 1075 {
        let mut left: u64 = e - 1075;
        assert(pow2(0) == 1) by {
            vstd::arithmetic::power2::lemma2_to64();
        }
        while left > 0 && whole <= u64::MAX as u128
            invariant
                whole <= 2 * u64::MAX,
                product * pow2((e - 1075) as nat) == whole * pow2(left as nat),
            decreases left,
        {
            proof {
                vstd::arithmetic::power2::lemma_pow2_unfold(left as nat);
                let half = pow2((left - 1) as nat);
                assert(whole * (2 * half) == (2 * whole) * half) by (nonlinear_arith);
            }
            whole = 2 * whole;
            left = left - 1;
        }
        proof {
            vstd::arithmetic::power2::lemma_pow2_pos(left as nat);
            let p = pow2(left as nat);
            assert(whole * p >= whole) by (nonlinear_arith)
                requires
                    p >= 1,
            ;
            assert(p == 1 ==> whole * p == whole) by (nonlinear_arith);
        }
    } else {
        let mut left: u64 = 1075 - e;
        while left > 0
            invariant
                whole <= product,
                product as nat / pow2((1075 - e) as nat) == whole as nat / pow2(left as nat),
            decreases left,
        {
            proof {
                lemma_halving(whole as nat, left as nat);
            }
            whole = whole / 2;
            left = left - 1;
        }
        assert(pow2(0) == 1) by {
            vstd::arithmetic::power2::lemma2_to64();
        }
        assert(whole as nat / 1 == whole);
    }
    if whole > u64::MAX as u128 {
        u64::MAX
    } else {
        whole as u64
    }
}

proof fn lemma_round_half_even_error(n: nat, d: nat)
    requires
        d > 0,
    ensures
        -d <= 2 * (round_half_even(n, d) * d - n) <= d,
{
    let q = n / d;
    vstd::arithmetic::div_mod::lemma_fundamental_div_mod(n as int, d as int);
    assert(q * d == d * q) by (nonlinear_arith);
    assert((q + 1) * d == q * d + d) by (nonlinear_arith);
}

proof fn lemma_spacing_is_small(n: nat, d: nat)
    requires
        d > 0,
    ensures
        spacing(n, d) == 1 || d * spacing(n, d) * 0x10_0000_0000_0000 <= n,
    decreases n,
{
    if n >= d * SIGNIFICAND_LIMIT {
        lemma_spacing_is_small(n / 2, d);
        let half = spacing(n / 2, d);
        assert(d * (2 * half) == 2 * (d * half)) by (nonlinear_arith);
        assert(d * 1 == d) by (nonlinear_arith);
    }
}

/// Up to some thousands of years, the seconds that are shown are no further from
/// the milliseconds that they stand for than half a hundredth.
pub proof fn law_shown_seconds_are_nearest(ms: u64)
    requires
        ms < 0x4_0000_0000_0000,
    ensures
        -5 <= 10 * centiseconds(ms) - ms <= 5,
{
    assert(nearest(ms as nat, 1) == ms) by {
        let n = ms as nat;
        assert(spacing(n, 1) == 1);
        lemma_round_half_even_error(n, 1);
    }
    let scaled = ms as nat * FRACTION_UNITS as nat;
    let u = spacing(scaled, 1000);
    lemma_spacing_positive(scaled, 1000);
    lemma_spacing_is_small(scaled, 1000);
    let k = round_half_even(scaled, 1000 * u);
    lemma_round_half_even_error(scaled, 1000 * u);
    let v = k * u;
    assert(k * (1000 * u) == 1000 * v) by (nonlinear_arith)
        requires
            v == k * u,
    ;
    lemma_round_half_even_error(100 * v, FRACTION_UNITS as nat);
}

/// Seconds are shown as a whole number, a point and two digits that stand for the
/// milliseconds to the nearest hundredth of a second. The law gives the whole number
/// and the digits.
pub proof fn law_shown_seconds_stand_for_milliseconds(ms: u64) -> (parts: (nat, nat, nat))
    requires
        ms < 0x4_0000_0000_0000,
    ensures
        parts.1 < 10 && parts.2 < 10,
        seconds_text(ms) == decimal(parts.0) + seq![
            '.',
            (0x30 + parts.1) as u8 as char,
            (0x30 + parts.2) as u8 as char,
        ],
        -5 <= 1000 * parts.0 + 100 * parts.1 + 10 * parts.2 - ms <= 5,
{
    law_shown_seconds_are_nearest(ms);
    let c = centiseconds(ms);
    (c / 100, c / 10 % 10, c % 10)
}

/// A number of seconds becomes a thousand times as many milliseconds, cut down to a
/// whole number, up to the rounding of the product to 53 bits. The number is the
/// normal `binary64` number with exponent field `e` and fraction field `f`: `2^52 + f`
/// over two to the power of `1075 - e`.
pub proof fn law_seconds_become_milliseconds(e: u64, f: u64)
    requires
        1 <= e < 1075,
        f < 0x10_0000_0000_0000,
    ensures
        ({
            let ms = millis_of_seconds((e * 0x10_0000_0000_0000 + f) as u64);
            let head = 0x10_0000_0000_0000 + f;
            let scale = pow2((1075 - e) as nat);
            -1024 <= 1000 * head - ms * scale < scale + 1024
        }),
{
    let bits = (e * 0x10_0000_0000_0000 + f) as u64;
    assert(bits / HIDDEN_BIT == e && bits % HIDDEN_BIT == f) by {
        assert(bits == e * 0x10_0000_0000_0000 + f);
    }
    let n = (1000 * (0x10_0000_0000_0000 + f)) as nat;
    assert(significand(bits) * 1000 == n);
    let u = spacing(n, 1);
    lemma_spacing_positive(n, 1);
    lemma_spacing_is_small(n, 1);
    lemma_round_half_even_error(n, 1 * u);
    let product = nearest(n, 1);
    let scale = pow2((1075 - e) as nat);
    vstd::arithmetic::power2::lemma_pow2_pos((1075 - e) as nat);
    let whole = product / scale;
    vstd::arithmetic::div_mod::lemma_fundamental_div_mod(product as int, scale as int);
    assert(whole <= product) by (nonlinear_arith)
        requires
            whole == product / scale,
            scale > 0,
    ;
    assert(scale * whole == whole * scale) by (nonlinear_arith);
}

/// Negative seconds count as none, and more than can be told as the most that can.
pub proof fn law_odd_seconds(bits: u64)
    ensures
        bits >= 0x8000_0000_0000_0000 ==> millis_of_seconds(bits) == 0,
        bits == 0x7ff0_0000_0000_0000 ==> millis_of_seconds(bits) == u64::MAX,
        0x7ff0_0000_0000_0000 < bits < 0x8000_0000_0000_0000 ==> millis_of_seconds(bits) == 0,
{
    if 0x7ff0_0000_0000_0000 <= bits < 0x8000_0000_0000_0000 {
        assert(bits / HIDDEN_BIT == 0x7ff);
        assert(bits % HIDDEN_BIT == bits - 0x7ff0_0000_0000_0000);
    }
}

} // verus!
