//! Rounding of a quotient to the nearest integer, ties away from zero.
use vstd::prelude::*;
use vstd::arithmetic::div_mod::lemma_fundamental_div_mod;
use vstd::arithmetic::div_mod::lemma_fundamental_div_mod_converse;
use vstd::arithmetic::div_mod::lemma_div_is_ordered;

verus! {

/// Number of price ticks in one cent.
pub const TICKS_PER_CENT: i64 = 100;

/// `n / d` rounded to the nearest integer, halves rounded away from zero.
pub open spec fn rounded_quotient(n: int, d: int) -> int
    recommends
        d != 0,
{
    if d < 0 {
        rounded_quotient_pos(-n, -d)
    } else {
        rounded_quotient_pos(n, d)
    }
}

/// `n / d` rounded half away from zero, for a positive `d`.
pub open spec fn rounded_quotient_pos(n: int, d: int) -> int
    recommends
        d > 0,
{
    if n >= 0 {
        (2 * n + d) / (2 * d)
    } else {
        -((-2 * n + d) / (2 * d))
    }
}

/// A price in ticks, rounded to whole cents.
pub open spec fn cents_of(ticks: int) -> int {
    rounded_quotient(ticks, TICKS_PER_CENT as int)
}

/// For `n >= 0`, rounding up happens exactly when the remainder is at least
/// half the divisor.
proof fn lemma_round_by_remainder(n: int, d: int)
    requires
        n >= 0,
        d > 0,
    ensures
        (2 * n + d) / (2 * d) == if 2 * (n % d) >= d { n / d + 1 } else { n / d },
{
    lemma_fundamental_div_mod(n, d);
    let q = n / d;
    let r = n % d;
    if 2 * r >= d {
        assert(2 * n + d == (q + 1) * (2 * d) + (2 * r - d)) by (nonlinear_arith)
            requires
                n == d * q + r,
        ;
        lemma_fundamental_div_mod_converse(2 * n + d, 2 * d, q + 1, 2 * r - d);
    } else {
        assert(2 * n + d == q * (2 * d) + (2 * r + d)) by (nonlinear_arith)
            requires
                n == d * q + r,
        ;
        lemma_fundamental_div_mod_converse(2 * n + d, 2 * d, q, 2 * r + d);
    }
}

/// Rounding by a positive divisor preserves order.
pub proof fn lemma_rounded_quotient_monotone(a: int, b: int, d: int)
    requires
        a <= b,
        d > 0,
    ensures
        rounded_quotient(a, d) <= rounded_quotient(b, d),
{
    if a >= 0 {
        lemma_div_is_ordered(2 * a + d, 2 * b + d, 2 * d);
    } else if b < 0 {
        lemma_div_is_ordered(-2 * b + d, -2 * a + d, 2 * d);
    } else {
        lemma_div_is_ordered(0, -2 * a + d, 2 * d);
        lemma_div_is_ordered(0, 2 * b + d, 2 * d);
    }
}

/// Floor division is unchanged when both operands are scaled by `k > 0`.
proof fn lemma_div_scale(x: int, y: int, k: int)
    requires
        y > 0,
        k > 0,
    ensures
        (x * k) / (y * k) == x / y,
{
    lemma_fundamental_div_mod(x, y);
    let q = x / y;
    let r = x % y;
    assert(x * k == q * (y * k) + r * k && 0 <= r * k < y * k) by (nonlinear_arith)
        requires
            x == y * q + r,
            0 <= r < y,
            k > 0,
    ;
    lemma_fundamental_div_mod_converse(x * k, y * k, q, r * k);
}

/// Scaling numerator and divisor by the same positive factor keeps the
/// rounded quotient.
pub proof fn lemma_rounded_quotient_scale(n: int, d: int, k: int)
    requires
        d > 0,
        k > 0,
    ensures
        rounded_quotient(n * k, d * k) == rounded_quotient(n, d),
{
    assert(d * k > 0 && (n >= 0 <==> n * k >= 0)) by (nonlinear_arith)
        requires
            d > 0,
            k > 0,
    ;
    if n >= 0 {
        assert(2 * (n * k) + d * k == (2 * n + d) * k && 2 * (d * k) == (2 * d) * k)
            by (nonlinear_arith);
        lemma_div_scale(2 * n + d, 2 * d, k);
    } else {
        assert(-2 * (n * k) + d * k == (-2 * n + d) * k && 2 * (d * k) == (2 * d) * k)
            by (nonlinear_arith);
        lemma_div_scale(-2 * n + d, 2 * d, k);
    }
}

/// `n / d` rounded half away from zero.
pub fn round_div(n: i128, d: i128) -> (r: i128)
    requires
        d != 0,
        n > i128::MIN,
        d > i128::MIN,
    ensures
        r == rounded_quotient(n as int, d as int),
{
    let (m, e): (i128, i128) = if d < 0 { (-n, -d) } else { (n, d) };
    let a: i128 = if m < 0 { -m } else { m };
    let q: i128 = a / e;
    let rem: i128 = a % e;
    proof {
        lemma_round_by_remainder(a as int, e as int);
        lemma_fundamental_div_mod(a as int, e as int);
    }
    let up: i128 = if rem >= e - rem {
        assert(q < i128::MAX) by (nonlinear_arith)
            requires
                a == e * q + rem,
                0 < e - rem <= rem,
                0 <= a,
        ;
        q + 1
    } else {
        q
    };
    if m < 0 { -up } else { up }
}

/// A price in ticks, rounded to whole cents.
pub fn round(ticks: i64) -> (r: i64)
    ensures
        r == cents_of(ticks as int),
{
    let c = round_div(ticks as i128, TICKS_PER_CENT as i128);
    proof {
        lemma_rounded_quotient_monotone(ticks as int, i64::MAX as int, 100);
        lemma_rounded_quotient_monotone(i64::MIN as int, ticks as int, 100);
    }
    c as i64
}

} // verus!
