//! Fixed-point scalars: an `i128` stores the value times `FX_ONE`.
//!
//! Products and quotients are rescaled with Rust's truncating (round toward
//! zero) division; the spec function `dt` states that rounding exactly, so
//! every arithmetic contract in the crate is an equation, not an estimate.

use vstd::prelude::*;
use vstd::arithmetic::div_mod::{
    lemma_div_is_ordered, lemma_div_pos_is_pos, lemma_fundamental_div_mod,
    lemma_fundamental_div_mod_converse, lemma_mod_bound,
};

verus! {

/// One, as a fixed-point scalar: values carry 16 fractional bits.
pub const FX_ONE: i128 = 65536;

/// Operand bound under which a rescaled product cannot overflow `i128`.
pub const FX_LIM: i128 = 1152921504606846976;

/// Dividend bound under which a rescaled quotient cannot overflow `i128`.
pub const FX_DIV_LIM: i128 = 1298074214633706907132624082305024;

/// Inputs below this bound keep the square-root search window sound.
pub const SQRT_LIM: i128 = 21267647932558653966460912964485513216;

/// Magnitude bound on a raw product below which `i128` cannot overflow.
pub const FX_PROD_LIM: i128 = 85070591730234615865843651857942052864;

/// Truncating division: the rounding Rust's `/` performs on signed integers.
pub open spec fn dt(a: int, b: int) -> int {
    if a >= 0 {
        a / b
    } else {
        -((-a) / b)
    }
}

/// The fixed-point product of `a` and `b`.
pub open spec fn fmul(a: int, b: int) -> int {
    dt(a * b, FX_ONE as int)
}

/// The fixed-point quotient of `a` by `b`.
pub open spec fn fdiv(a: int, b: int) -> int {
    dt(a * FX_ONE, b)
}

/// The floor of the square root of `n` (0 for negative `n`).
pub open spec fn sqrt_floor(n: int) -> int
    decreases n,
{
    if n <= 0 {
        0
    } else {
        let r = sqrt_floor(n - 1);
        if (r + 1) * (r + 1) <= n {
            r + 1
        } else {
            r
        }
    }
}

/// `sqrt_floor(n)` is the unique integer whose square brackets `n`.
pub proof fn lemma_sqrt_floor(n: int)
    requires
        n >= 0,
    ensures
        0 <= sqrt_floor(n),
        sqrt_floor(n) * sqrt_floor(n) <= n,
        n < (sqrt_floor(n) + 1) * (sqrt_floor(n) + 1),
    decreases n,
{
    if n > 0 {
        lemma_sqrt_floor(n - 1);
        let r = sqrt_floor(n - 1);
        if (r + 1) * (r + 1) <= n {
            assert((r + 1 + 1) * (r + 1 + 1) > n) by (nonlinear_arith)
                requires
                    r >= 0,
                    n - 1 < (r + 1) * (r + 1),
                    (r + 1) * (r + 1) <= n,
            ;
        }
    }
}

/// Two integers whose squares both bracket `n` are equal.
pub proof fn lemma_sqrt_unique(n: int, a: int, b: int)
    requires
        0 <= a,
        0 <= b,
        a * a <= n,
        n < (a + 1) * (a + 1),
        b * b <= n,
        n < (b + 1) * (b + 1),
    ensures
        a == b,
{
    assert(a == b) by (nonlinear_arith)
        requires
            0 <= a,
            0 <= b,
            a * a <= n,
            n < (a + 1) * (a + 1),
            b * b <= n,
            n < (b + 1) * (b + 1),
    ;
}

/// Truncating division negates with its dividend.
pub proof fn lemma_dt_neg(a: int, b: int)
    requires
        0 < b,
    ensures
        dt(-a, b) == -dt(a, b),
{
    if a > 0 {
        assert(dt(-a, b) == -((a) / b));
    } else if a < 0 {
        assert(dt(-a, b) == (-a) / b);
        assert(-dt(a, b) == (-a) / b);
    } else {
        vstd::arithmetic::div_mod::lemma_div_of0(b);
        assert(dt(-a, b) == 0int / b);
        assert(dt(a, b) == 0int / b);
    }
}

/// For a nonnegative dividend and positive divisor, `dt` is the floor:
/// `b * dt(a, b)` is the largest multiple of `b` not above `a`.
pub proof fn lemma_dt_range(a: int, b: int)
    requires
        0 <= a,
        0 < b,
    ensures
        0 <= dt(a, b),
        b * dt(a, b) <= a,
        a < b * (dt(a, b) + 1),
{
    lemma_fundamental_div_mod(a, b);
    lemma_mod_bound(a, b);
    lemma_div_pos_is_pos(a, b);
    assert(b * (dt(a, b) + 1) == b * dt(a, b) + b) by (nonlinear_arith);
}

/// A bound on the dividend in units of the divisor bounds the quotient.
pub proof fn lemma_dt_le(a: int, b: int, m: int)
    requires
        0 < b,
        0 <= m,
        -(m * b) <= a <= m * b,
    ensures
        -m <= dt(a, b) <= m,
{
    if a >= 0 {
        lemma_dt_range(a, b);
        assert(dt(a, b) <= m) by (nonlinear_arith)
            requires
                0 < b,
                b * dt(a, b) <= a,
                a <= m * b,
        ;
    } else {
        lemma_dt_range(-a, b);
        assert(dt(-a, b) <= m) by (nonlinear_arith)
            requires
                0 < b,
                b * dt(-a, b) <= -a,
                -a <= m * b,
        ;
        lemma_dt_neg(a, b);
    }
}

/// A dividend of at least `k` divisors yields a quotient of at least `k`.
pub proof fn lemma_dt_ge(a: int, b: int, k: int)
    requires
        0 < b,
        0 <= k,
        k * b <= a,
    ensures
        dt(a, b) >= k,
{
    assert(0 <= k * b) by (nonlinear_arith)
        requires
            0 <= k,
            0 < b,
    ;
    lemma_dt_range(a, b);
    assert(dt(a, b) >= k) by (nonlinear_arith)
        requires
            0 < b,
            a < b * (dt(a, b) + 1),
            k * b <= a,
    ;
}

/// Dividing an exact multiple recovers the factor.
pub proof fn lemma_dt_exact(a: int, b: int)
    requires
        0 < b,
    ensures
        dt(a * b, b) == a,
{
    if a >= 0 {
        assert(a * b >= 0) by (nonlinear_arith)
            requires
                a >= 0,
                b > 0,
        ;
        lemma_fundamental_div_mod_converse(a * b, b, a, 0);
    } else {
        assert(a * b < 0 && -(a * b) == (-a) * b) by (nonlinear_arith)
            requires
                a < 0,
                b > 0,
        ;
        lemma_fundamental_div_mod_converse((-a) * b, b, -a, 0);
    }
}

/// Truncating division is monotone on nonnegative dividends.
pub proof fn lemma_dt_mono(a1: int, a2: int, b: int)
    requires
        0 <= a1 <= a2,
        0 < b,
    ensures
        dt(a1, b) <= dt(a2, b),
{
    lemma_div_is_ordered(a1, a2, b);
}

/// Truncating division is monotone in the dividend, whatever the signs.
pub proof fn lemma_dt_mono_signed(a1: int, a2: int, b: int)
    requires
        a1 <= a2,
        0 < b,
    ensures
        dt(a1, b) <= dt(a2, b),
{
    if a1 >= 0 {
        lemma_div_is_ordered(a1, a2, b);
    } else if a2 < 0 {
        lemma_div_is_ordered(-a2, -a1, b);
    } else {
        lemma_div_pos_is_pos(-a1, b);
        lemma_div_pos_is_pos(a2, b);
    }
}

/// Interval bounds on factors bound their product.
pub proof fn lemma_mul_le(a: int, b: int, la: int, lb: int)
    requires
        0 <= la,
        0 <= lb,
        -la <= a <= la,
        -lb <= b <= lb,
    ensures
        -(la * lb) <= a * b <= la * lb,
{
    assert(-(la * lb) <= a * b <= la * lb) by (nonlinear_arith)
        requires
            0 <= la,
            0 <= lb,
            -la <= a <= la,
            -lb <= b <= lb,
    ;
}

/// Multiplication distributes over a successor.
pub proof fn lemma_mul_succ(q: int, s: int)
    ensures
        (q + 1) * s == q * s + s,
{
    assert((q + 1) * s == q * s + s) by (nonlinear_arith);
}

/// Interval bounds on the factors bound a fixed-point product, both before
/// and after rescaling: any `m` with `la * lb <= m * FX_ONE` bounds it.
pub proof fn lemma_fmul_bound(a: int, b: int, la: int, lb: int, m: int)
    requires
        0 <= la,
        0 <= lb,
        0 <= m,
        -la <= a <= la,
        -lb <= b <= lb,
        la * lb <= m * FX_ONE,
    ensures
        -(la * lb) <= a * b <= la * lb,
        -m <= fmul(a, b) <= m,
{
    lemma_mul_le(a, b, la, lb);
    lemma_dt_le(a * b, FX_ONE as int, m);
}

/// Rescaled product of two fixed-point scalars.
pub fn fx_mul(a: i128, b: i128) -> (r: i128)
    requires
        -FX_PROD_LIM <= a * b <= FX_PROD_LIM,
    ensures
        r == fmul(a as int, b as int),
{
    (a * b) / FX_ONE
}

/// Rescaled quotient of two fixed-point scalars; the divisor must be positive.
pub fn fx_div(a: i128, b: i128) -> (r: i128)
    requires
        0 < b,
        -FX_DIV_LIM <= a <= FX_DIV_LIM,
    ensures
        r == fdiv(a as int, b as int),
{
    (a * FX_ONE) / b
}

/// The floor of the square root of `n`, by bisection.
pub fn isqrt(n: i128) -> (r: i128)
    requires
        0 <= n < SQRT_LIM,
    ensures
        r == sqrt_floor(n as int),
        0 <= r,
        r * r <= n,
        n < (r + 1) * (r + 1),
{
    let mut lo: i128 = 0;
    let mut hi: i128 = 4611686018427387904;
    proof {
        assert(n < hi * hi);
    }
    while lo + 1 < hi
        invariant
            0 <= lo < hi <= 4611686018427387904,
            lo * lo <= n,
            n < hi * hi,
        decreases hi - lo,
    {
        let mid = lo + (hi - lo) / 2;
        proof {
            assert(lo < mid < hi);
            assert(mid * mid <= 4611686018427387904 * 4611686018427387904) by (nonlinear_arith)
                requires
                    0 <= mid <= 4611686018427387904,
            ;
        }
        if mid * mid <= n {
            lo = mid;
        } else {
            hi = mid;
        }
    }
    proof {
        lemma_sqrt_floor(n as int);
        lemma_sqrt_unique(n as int, lo as int, sqrt_floor(n as int));
    }
    lo
}

/// The fixed-point square root of a nonnegative fixed-point scalar.
pub open spec fn fsqrt(x: int) -> int {
    sqrt_floor(x * FX_ONE)
}

/// Fixed-point square root: the result squared never exceeds the argument.
pub fn fx_sqrt(x: i128) -> (r: i128)
    requires
        0 <= x,
        x * FX_ONE < SQRT_LIM,
    ensures
        r == fsqrt(x as int),
        0 <= r,
        r * r <= x * FX_ONE < (r + 1) * (r + 1),
{
    isqrt(x * FX_ONE)
}

} // verus!
