//! Fixed-point scalars: an `i64` holds the real value `x / SCALE`.
//!
//! Multiplication, division and square root are defined exactly, with
//! truncation toward zero (the rounding that Rust's integer division
//! performs), so every geometric computation built on them has an exact
//! integer-level specification.

use vstd::prelude::*;

verus! {

/// One whole unit: the fixed-point representation of `1.0`.
pub const SCALE: i64 = 1_000_000_000;

/// Truncating (round-toward-zero) integer division, for a nonzero divisor.
/// This matches what Rust's `/` computes on signed integers.
pub open spec fn tdiv(a: int, d: int) -> int {
    if a >= 0 && d > 0 {
        a / d
    } else if a < 0 && d < 0 {
        (-a) / (-d)
    } else if a < 0 {
        -((-a) / d)
    } else {
        -(a / (-d))
    }
}

pub open spec fn fits_i64(x: int) -> bool {
    i64::MIN <= x <= i64::MAX
}

/// The fixed-point product: `(a * b) / SCALE`, truncated toward zero.
pub open spec fn fxmul(a: int, b: int) -> int {
    tdiv(a * b, SCALE as int)
}

/// The fixed-point quotient: `(a * SCALE) / b`, truncated toward zero.
pub open spec fn fxdiv(a: int, b: int) -> int {
    tdiv(a * SCALE, b)
}

/// Integer square root: the greatest `r >= 0` with `r * r <= n` (0 for `n <= 0`).
pub open spec fn isqrt(n: int) -> int
    decreases n,
{
    if n <= 0 {
        0
    } else {
        let r = isqrt(n - 1);
        if (r + 1) * (r + 1) <= n {
            r + 1
        } else {
            r
        }
    }
}

/// The fixed-point square root of a nonnegative scalar: since
/// `sqrt(n / SCALE) == sqrt(n * SCALE) / SCALE`, it is `isqrt(n * SCALE)`.
pub open spec fn fxsqrt(a: int) -> int {
    isqrt(a * SCALE)
}

/// `isqrt(n)` is the integer square root: its square is at most `n`, and the
/// next square is beyond `n`.
pub proof fn lemma_isqrt(n: int)
    requires
        n >= 0,
    ensures
        0 <= isqrt(n),
        isqrt(n) * isqrt(n) <= n,
        n < (isqrt(n) + 1) * (isqrt(n) + 1),
    decreases n,
{
    if n == 0 {
    } else {
        lemma_isqrt(n - 1);
        let r = isqrt(n - 1);
        if (r + 1) * (r + 1) <= n {
            assert(n < ((r + 1) + 1) * ((r + 1) + 1)) by (nonlinear_arith)
                requires
                    n - 1 < (r + 1) * (r + 1),
                    r >= 0,
            ;
        }
    }
}

/// Any `r` that satisfies the square-root bracketing is `isqrt(n)`.
pub proof fn lemma_isqrt_unique(n: int, r: int)
    requires
        n >= 0,
        0 <= r,
        r * r <= n,
        n < (r + 1) * (r + 1),
    ensures
        r == isqrt(n),
{
    lemma_isqrt(n);
    let q = isqrt(n);
    if r < q {
        assert((r + 1) * (r + 1) <= q * q) by (nonlinear_arith)
            requires
                0 <= r,
                r + 1 <= q,
            ;
    }
    if q < r {
        assert((q + 1) * (q + 1) <= r * r) by (nonlinear_arith)
            requires
                0 <= q,
                q + 1 <= r,
            ;
    }
}

/// The integer square root is monotone.
pub proof fn lemma_isqrt_mono(a: int, b: int)
    requires
        0 <= a <= b,
    ensures
        isqrt(a) <= isqrt(b),
{
    lemma_isqrt(a);
    lemma_isqrt(b);
    let ra = isqrt(a);
    let rb = isqrt(b);
    if ra > rb {
        assert((rb + 1) * (rb + 1) <= ra * ra) by (nonlinear_arith)
            requires
                0 <= rb,
                rb + 1 <= ra,
            ;
    }
}

/// The integer square root of a perfect square is its root.
pub proof fn lemma_isqrt_square(k: int)
    requires
        k >= 0,
    ensures
        isqrt(k * k) == k,
{
    assert(k * k >= 0 && k * k < (k + 1) * (k + 1)) by (nonlinear_arith)
        requires
            k >= 0,
        ;
    lemma_isqrt_unique(k * k, k);
}

/// A nonnegative value shrinks (weakly) under division by a positive integer.
proof fn lemma_div_shrinks(p: int, q: int)
    requires
        p >= 0,
        q >= 1,
    ensures
        0 <= p / q <= p,
{
    vstd::arithmetic::div_mod::lemma_div_pos_is_pos(p, q);
    vstd::arithmetic::div_mod::lemma_div_is_ordered_by_denominator(p, 1, q);
    vstd::arithmetic::div_mod::lemma_div_basics(p);
}

/// The magnitude of a truncating quotient is at most the numerator's.
pub proof fn lemma_tdiv_bounds(a: int, d: int)
    requires
        d != 0,
    ensures
        a >= 0 ==> -a <= tdiv(a, d) <= a,
        a < 0 ==> a <= tdiv(a, d) <= -a,
        d > 0 && a >= 0 ==> 0 <= tdiv(a, d),
        d > 0 && a < 0 ==> tdiv(a, d) <= 0,
{
    if a >= 0 {
        if d > 0 {
            lemma_div_shrinks(a, d);
        } else {
            lemma_div_shrinks(a, -d);
        }
    } else {
        if d > 0 {
            lemma_div_shrinks(-a, d);
        } else {
            lemma_div_shrinks(-a, -d);
        }
    }
}

/// `|tdiv(a, d)| <= c` whenever `|a| <= c * d`, for a positive divisor.
pub proof fn lemma_tdiv_mag(a: int, d: int, c: int)
    requires
        0 < d,
        0 <= c,
        -(c * d) <= a <= c * d,
    ensures
        -c <= tdiv(a, d) <= c,
        a >= 0 ==> 0 <= tdiv(a, d),
        a < 0 ==> tdiv(a, d) <= 0,
{
    assert(c * d == d * c) by (nonlinear_arith);
    if a >= 0 {
        vstd::arithmetic::div_mod::lemma_div_is_ordered(a, c * d, d);
        vstd::arithmetic::div_mod::lemma_div_multiples_vanish(c, d);
        vstd::arithmetic::div_mod::lemma_div_pos_is_pos(a, d);
    } else {
        vstd::arithmetic::div_mod::lemma_div_is_ordered(-a, c * d, d);
        vstd::arithmetic::div_mod::lemma_div_multiples_vanish(c, d);
        vstd::arithmetic::div_mod::lemma_div_pos_is_pos(-a, d);
    }
}

/// A truncating quotient is at least `c` whenever the numerator is at
/// least `c * d`, for nonnegative `c` and positive `d`.
pub proof fn lemma_tdiv_ge(a: int, d: int, c: int)
    requires
        0 < d,
        0 <= c,
        c * d <= a,
    ensures
        tdiv(a, d) >= c,
{
    assert(c * d >= 0) by (nonlinear_arith)
        requires
            c >= 0,
            d > 0,
        ;
    vstd::arithmetic::div_mod::lemma_div_is_ordered(c * d, a, d);
    vstd::arithmetic::div_mod::lemma_div_multiples_vanish(c, d);
    assert(c * d == d * c) by (nonlinear_arith);
}

/// Truncating division by a positive divisor is monotone in the numerator.
pub proof fn lemma_tdiv_mono(a: int, b: int, d: int)
    requires
        a <= b,
        0 < d,
    ensures
        tdiv(a, d) <= tdiv(b, d),
{
    if a >= 0 {
        vstd::arithmetic::div_mod::lemma_div_is_ordered(a, b, d);
    } else if b >= 0 {
        vstd::arithmetic::div_mod::lemma_div_pos_is_pos(b, d);
        vstd::arithmetic::div_mod::lemma_div_pos_is_pos(-a, d);
    } else {
        vstd::arithmetic::div_mod::lemma_div_is_ordered(-b, -a, d);
    }
}

/// Truncating division is exact on multiples: `tdiv(k * d, d) == k`.
pub proof fn lemma_tdiv_exact(k: int, d: int)
    requires
        0 < d,
    ensures
        tdiv(k * d, d) == k,
{
    vstd::arithmetic::div_mod::lemma_div_multiples_vanish(k, d);
    vstd::arithmetic::div_mod::lemma_div_multiples_vanish(-k, d);
    assert(k * d == d * k) by (nonlinear_arith);
    assert(-(k * d) == d * (-k)) by (nonlinear_arith);
    if k >= 0 {
        assert(k * d >= 0) by (nonlinear_arith)
            requires
                k >= 0,
                d > 0,
            ;
    } else {
        assert(k * d < 0) by (nonlinear_arith)
            requires
                k < 0,
                d > 0,
            ;
    }
}

/// Truncating division brackets the exact quotient:
/// `tdiv(a, d) * d` is within `d` of `a`, on the zero-ward side.
pub proof fn lemma_tdiv_bracket(a: int, d: int)
    requires
        0 < d,
    ensures
        a >= 0 ==> a - d < tdiv(a, d) * d <= a,
        a < 0 ==> a <= tdiv(a, d) * d < a + d,
{
    if a >= 0 {
        vstd::arithmetic::div_mod::lemma_fundamental_div_mod(a, d);
        vstd::arithmetic::div_mod::lemma_mod_bound(a, d);
        assert(d * (a / d) == (a / d) * d) by (nonlinear_arith);
    } else {
        vstd::arithmetic::div_mod::lemma_fundamental_div_mod(-a, d);
        vstd::arithmetic::div_mod::lemma_mod_bound(-a, d);
        assert(d * ((-a) / d) == ((-a) / d) * d) by (nonlinear_arith);
        assert((-((-a) / d)) * d == -(((-a) / d) * d)) by (nonlinear_arith);
    }
}

/// Truncating division on `i128`, the building block of the scaled operations.
pub fn tdiv_i128(a: i128, d: i128) -> (r: i128)
    requires
        d != 0,
        a != i128::MIN,
    ensures
        r == tdiv(a as int, d as int),
{
    let q = a.checked_div(d);
    proof {
        let x = a as int;
        let dd = d as int;
        lemma_tdiv_bounds(x, dd);
        if x == 0 {
            vstd::arithmetic::div_mod::lemma_div_basics(dd);
            vstd::arithmetic::div_mod::lemma_div_basics(-dd);
        }
    }
    q.unwrap()
}

/// Fixed-point multiplication: exact value `fxmul(a, b)`.
pub fn mul_fx(a: i64, b: i64) -> (r: i64)
    requires
        fits_i64(fxmul(a as int, b as int)),
    ensures
        r == fxmul(a as int, b as int),
{
    proof {
        let m: int = 0x8000_0000_0000_0000;
        assert(-(m * m) <= (a as int) * (b as int) <= m * m) by (nonlinear_arith)
            requires
                -m <= a <= m,
                -m <= b <= m,
                m == 0x8000_0000_0000_0000int,
            ;
    }
    let p: i128 = (a as i128) * (b as i128);
    let q = tdiv_i128(p, SCALE as i128);
    q as i64
}

/// Fixed-point division: exact value `fxdiv(a, b)`, for nonzero `b`.
pub fn div_fx(a: i64, b: i64) -> (r: i64)
    requires
        b != 0,
        fits_i64(fxdiv(a as int, b as int)),
    ensures
        r == fxdiv(a as int, b as int),
{
    proof {
        let m: int = 0x8000_0000_0000_0000;
        assert(-(m * m) <= (a as int) * (SCALE as int) <= m * m) by (nonlinear_arith)
            requires
                -m <= a <= m,
                0 < SCALE <= m,
                m == 0x8000_0000_0000_0000int,
            ;
    }
    let p: i128 = (a as i128) * (SCALE as i128);
    let q = tdiv_i128(p, b as i128);
    q as i64
}

/// Integer square root of a nonnegative `i128`, by bisection.
pub fn isqrt_i128(n: i128) -> (r: i128)
    requires
        0 <= n <= 2_500_000_000_000_000_000_000_000_000_000_000_000,
    ensures
        r == isqrt(n as int),
{
    let bound: i128 = 2_000_000_000_000_000_000;
    if n == 0 {
        proof {
            lemma_isqrt_unique(0, 0);
        }
        return 0;
    }
    let mut lo: i128 = 0;
    let mut hi: i128 = bound;
    proof {
        assert((bound as int) * (bound as int) > n as int) by (nonlinear_arith)
            requires
                bound == 2_000_000_000_000_000_000,
                n <= 2_500_000_000_000_000_000_000_000_000_000_000_000,
            ;
    }
    while lo + 1 < hi
        invariant
            0 <= lo < hi <= bound,
            (lo as int) * (lo as int) <= n as int,
            (n as int) < (hi as int) * (hi as int),
            0 < n <= 2_500_000_000_000_000_000_000_000_000_000_000_000,
            bound == 2_000_000_000_000_000_000,
        decreases hi - lo,
    {
        let half = tdiv_i128(hi - lo, 2);
        proof {
            assert(tdiv(hi - lo, 2) == (hi - lo) / 2);
            vstd::arithmetic::div_mod::lemma_div_non_zero(hi - lo, 2);
            vstd::arithmetic::div_mod::lemma_div_is_strictly_smaller(hi - lo, 2);
        }
        let mid = lo + half;
        proof {
            assert((mid as int) * (mid as int) < i128::MAX) by (nonlinear_arith)
                requires
                    0 < mid <= 2_000_000_000_000_000_000,
                ;
        }
        if mid * mid <= n {
            lo = mid;
        } else {
            hi = mid;
        }
    }
    proof {
        lemma_isqrt_unique(n as int, lo as int);
    }
    lo
}

/// Fixed-point square root: exact value `fxsqrt(a)` for nonnegative `a`.
pub fn sqrt_fx(a: i64) -> (r: i64)
    requires
        a >= 0,
    ensures
        r == fxsqrt(a as int),
        0 <= r,
        r * r <= (a as int) * (SCALE as int),
        (a as int) * (SCALE as int) < (r + 1) * (r + 1),
{
    proof {
        assert(0 <= (a as int) * (SCALE as int) <= 0x7fff_ffff_ffff_ffff * 1_000_000_000)
            by (nonlinear_arith)
            requires
                0 <= a <= 0x7fff_ffff_ffff_ffff,
                SCALE == 1_000_000_000,
            ;
        lemma_isqrt(a as int * SCALE as int);
        let r = isqrt(a as int * SCALE as int);
        assert(r < 100_000_000_000_000) by (nonlinear_arith)
            requires
                0 <= r,
                r * r <= 0x7fff_ffff_ffff_ffff * 1_000_000_000,
            ;
    }
    let p: i128 = (a as i128) * (SCALE as i128);
    let q = isqrt_i128(p);
    q as i64
}

} // verus!
