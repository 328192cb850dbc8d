//! Fixed-point scalars: integer arithmetic with sixteen fractional bits.

use vstd::prelude::*;

verus! {

/// The scalar 1.0.
pub const ONE: i32 = 65536;

/// 1.0 squared, the scale of a product of two scalars.
pub const ONE_SQ: i64 = 4294967296;

/// Largest magnitude of a numerator that [`div_round`] accepts.
pub const MAX_NUMERATOR: i128 = 0x1_0000_0000_0000_0000_0000_0000_0000;

/// Largest divisor that [`div_round`] accepts.
pub const MAX_DIVISOR: i128 = 0x1_0000_0000_0000_0000_0000_0000;

/// `x` clamped to the range of `i32`.
pub open spec fn saturated(x: int) -> i32 {
    if x < i32::MIN {
        i32::MIN
    } else if x > i32::MAX {
        i32::MAX
    } else {
        x as i32
    }
}

/// `n / d` rounded to the nearest integer, a tie going to the larger one.
pub open spec fn div_round_spec(n: int, d: int) -> int {
    (2 * n + d) / (2 * d)
}

/// `r` is the integer square root of `n`: the largest integer whose square
/// does not exceed `n`.
pub open spec fn is_floor_sqrt(n: int, r: int) -> bool {
    0 <= r && r * r <= n < (r + 1) * (r + 1)
}

/// The integer square root of `n`, for `n >= 0`.
pub open spec fn floor_sqrt(n: int) -> int {
    choose|r: int| is_floor_sqrt(n, r)
}

/// A number has at most one integer square root.
pub proof fn lemma_floor_sqrt_unique(n: int, r1: int, r2: int)
    requires
        is_floor_sqrt(n, r1),
        is_floor_sqrt(n, r2),
    ensures
        r1 == r2,
{
    if r1 < r2 {
        assert((r1 + 1) * (r1 + 1) <= r2 * r2) by (nonlinear_arith)
            requires
                0 <= r1,
                r1 + 1 <= r2,
        ;
    } else if r2 < r1 {
        assert((r2 + 1) * (r2 + 1) <= r1 * r1) by (nonlinear_arith)
            requires
                0 <= r2,
                r2 + 1 <= r1,
        ;
    }
}

/// Every number that is not negative has an integer square root.
pub proof fn lemma_floor_sqrt_exists(n: int)
    requires
        n >= 0,
    ensures
        is_floor_sqrt(n, floor_sqrt(n)),
    decreases n,
{
    if n == 0 {
        assert(is_floor_sqrt(0, 0));
    } else {
        lemma_floor_sqrt_exists(n - 1);
        let r = floor_sqrt(n - 1);
        if (r + 1) * (r + 1) <= n {
            assert((r + 2) * (r + 2) > (r + 1) * (r + 1)) by (nonlinear_arith)
                requires
                    0 <= r,
            ;
            assert(is_floor_sqrt(n, r + 1));
        } else {
            assert(is_floor_sqrt(n, r));
        }
    }
}

/// A rounded quotient times the divisor misses the numerator by half the
/// divisor at most.
pub proof fn lemma_div_round_error(a: int, d: int)
    requires
        d > 0,
    ensures
        -d < 2 * (div_round_spec(a, d) * d - a) <= d,
{
    let x = 2 * a + d;
    let e = 2 * d;
    let q = x / e;
    let rem = x % e;
    vstd::arithmetic::div_mod::lemma_fundamental_div_mod(x, e);
    vstd::arithmetic::div_mod::lemma_mod_bound(x, e);
    assert(2 * (q * d - a) == d - rem) by (nonlinear_arith)
        requires
            x == e * q + rem,
            x == 2 * a + d,
            e == 2 * d,
    ;
}

/// Clamps a wide intermediate result to a scalar.
pub fn saturate(x: i128) -> (r: i32)
    ensures
        r == saturated(x as int),
{
    if x < -2147483648 {
        i32::MIN
    } else if x > 2147483647 {
        i32::MAX
    } else {
        x as i32
    }
}

/// The exact product of two scalars, at scale [`ONE_SQ`].
pub fn wide_mul(a: i32, b: i32) -> (p: i64)
    ensures
        p == a * b,
        -0x4000_0000_0000_0000 <= p <= 0x4000_0000_0000_0000,
{
    assert(-0x4000_0000_0000_0000 <= a * b <= 0x4000_0000_0000_0000) by (nonlinear_arith)
        requires
            -0x8000_0000 <= a <= 0x8000_0000,
            -0x8000_0000 <= b <= 0x8000_0000,
    ;
    (a as i64) * (b as i64)
}

/// Rounded division of a wide numerator by a positive divisor.
pub fn div_round(n: i128, d: i128) -> (q: i128)
    requires
        0 < d <= MAX_DIVISOR,
        -MAX_NUMERATOR <= n <= MAX_NUMERATOR,
    ensures
        q == div_round_spec(n as int, d as int),
{
    let num: i128 = 2 * n + d;
    let den: i128 = 2 * d;
    if num >= 0 {
        num / den
    } else {
        let m: i128 = -num;
        let c: i128 = (m + den - 1) / den;
        proof {
            let mi = m as int;
            let di = den as int;
            let ci = c as int;
            let t = mi + di - 1;
            vstd::arithmetic::div_mod::lemma_fundamental_div_mod(t, di);
            vstd::arithmetic::div_mod::lemma_mod_bound(t, di);
            // t == di * ci + t % di, with 0 <= t % di < di
            let r = di - 1 - (t % di);
            assert(0 <= r < di);
            assert(num as int == (-ci) * di + r) by (nonlinear_arith)
                requires
                    t == di * ci + (t % di),
                    r == di - 1 - (t % di),
                    t == mi + di - 1,
                    num as int == -mi,
            ;
            vstd::arithmetic::div_mod::lemma_fundamental_div_mod_converse(
                num as int,
                di,
                -ci,
                r,
            );
        }
        -c
    }
}

/// The integer square root.
pub fn isqrt(n: u128) -> (r: u128)
    ensures
        r == floor_sqrt(n as int),
        is_floor_sqrt(n as int, r as int),
{
    let mut lo: u128 = 0;
    let mut hi: u128 = 0x1_0000_0000_0000_0000;
    assert(0x1_0000_0000_0000_0000int * 0x1_0000_0000_0000_0000int > u128::MAX);
    while hi - lo > 1
        invariant
            lo < hi <= 0x1_0000_0000_0000_0000,
            lo * lo <= n < hi * hi,
        decreases hi - lo,
    {
        let mid: u128 = lo + (hi - lo) / 2;
        assert(mid * mid <= 0xffff_ffff_ffff_ffff * 0xffff_ffff_ffff_ffff) by (nonlinear_arith)
            requires
                0 <= mid <= 0xffff_ffff_ffff_ffff,
        ;
        assert(0xffff_ffff_ffff_ffffint * 0xffff_ffff_ffff_ffffint <= u128::MAX);
        if mid * mid <= n {
            lo = mid;
        } else {
            hi = mid;
        }
    }
    proof {
        assert(is_floor_sqrt(n as int, lo as int));
        lemma_floor_sqrt_unique(n as int, lo as int, floor_sqrt(n as int));
    }
    lo
}

} // verus!
