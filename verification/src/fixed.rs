//! Integer arithmetic shared by the whole crate.
//!
//! Every quantity in this crate is an integer. Positions, sizes, radii and
//! velocities are counted in world units (`i32`); the caller decides how fine a
//! unit is. Dimensionless factors (weights, ratios, the components of unit
//! vectors, seconds) are fixed-point numbers: an `i64` that stands for its
//! value divided by [`ONE`].

use vstd::prelude::*;

verus! {

/// The fixed-point representation of the number one.
pub const ONE: i64 = 1_000_000;

/// Quotient rounded toward zero.
pub open spec fn trunc_div(a: int, b: int) -> int {
    if b > 0 {
        if a >= 0 {
            a / b
        } else {
            -((-a) / b)
        }
    } else {
        if a >= 0 {
            -(a / (-b))
        } else {
            (-a) / (-b)
        }
    }
}

/// Quotient rounded toward zero.
pub fn div_toward_zero(a: i128, b: i128) -> (q: i128)
    requires
        b != 0,
        a > i128::MIN,
        b > i128::MIN,
    ensures
        q == trunc_div(a as int, b as int),
{
    if b > 0 {
        a / b
    } else {
        -(a / (-b))
    }
}

/// `r` is the square root of `n`, rounded down.
pub open spec fn is_floor_sqrt(n: int, r: int) -> bool {
    0 <= r && r * r <= n && n < (r + 1) * (r + 1)
}

/// The square root of `n`, rounded down.
pub open spec fn floor_sqrt(n: int) -> int {
    choose|r: int| is_floor_sqrt(n, r)
}

/// The square root of `n`, rounded up.
pub open spec fn ceil_sqrt(n: int) -> int {
    if floor_sqrt(n) * floor_sqrt(n) == n {
        floor_sqrt(n)
    } else {
        floor_sqrt(n) + 1
    }
}

/// `x` limited to the interval from `lo` to `hi`.
pub open spec fn clamp_spec(x: int, lo: int, hi: int) -> int {
    if x < lo {
        lo
    } else if x > hi {
        hi
    } else {
        x
    }
}

/// `x` limited to what an `i64` can hold.
pub open spec fn saturate_spec(x: int) -> int {
    clamp_spec(x, i64::MIN as int, i64::MAX as int)
}

/// Squaring is monotone on the non-negative integers.
pub proof fn lemma_square_le(a: int, b: int)
    requires
        0 <= a <= b,
    ensures
        a * a <= b * b,
{
    assert(a * a <= b * b) by (nonlinear_arith)
        requires
            0 <= a <= b,
    ;
}

/// A non-negative integer with a smaller square is smaller.
pub proof fn lemma_square_lt_rev(a: int, b: int)
    requires
        0 <= a,
        0 <= b,
        a * a < b * b,
    ensures
        a < b,
{
    if a >= b {
        lemma_square_le(b, a);
    }
}

/// The rounded-down square root of a positive integer is positive.
pub proof fn lemma_floor_sqrt_positive(n: int, r: int)
    requires
        is_floor_sqrt(n, r),
        n >= 1,
    ensures
        r >= 1,
{
    if r == 0 {
        assert((r + 1) * (r + 1) == 1) by (nonlinear_arith)
            requires
                r == 0,
        ;
    }
}

/// At most one integer is the rounded-down square root of `n`.
pub proof fn lemma_floor_sqrt_unique(n: int, a: int, b: int)
    requires
        is_floor_sqrt(n, a),
        is_floor_sqrt(n, b),
    ensures
        a == b,
{
    lemma_square_lt_rev(a, b + 1);
    lemma_square_lt_rev(b, a + 1);
}

/// An integer that meets the defining inequalities is the rounded-down square root.
pub proof fn lemma_floor_sqrt_is(n: int, r: int)
    requires
        is_floor_sqrt(n, r),
    ensures
        floor_sqrt(n) == r,
{
    lemma_floor_sqrt_unique(n, r, floor_sqrt(n));
}

/// For a non-negative bound `r`: the root of `n` rounded up is at most `r`
/// exactly when `n` is at most `r * r`.
pub proof fn lemma_ceil_sqrt_le(n: int, s: int, r: int)
    requires
        is_floor_sqrt(n, s),
        0 <= r,
    ensures
        ceil_sqrt(n) <= r <==> n <= r * r,
{
    lemma_floor_sqrt_is(n, s);
    if s * s == n {
        if s <= r {
            lemma_square_le(s, r);
        } else {
            lemma_square_le(r + 1, s);
            assert((r + 1) * (r + 1) > r * r) by (nonlinear_arith)
                requires
                    0 <= r,
            ;
        }
    } else {
        if s + 1 <= r {
            lemma_square_le(s + 1, r);
        } else {
            lemma_square_le(r, s);
        }
    }
}

/// Every non-negative integer has a rounded-down square root.
pub proof fn lemma_floor_sqrt_exists(n: int)
    requires
        n >= 0,
    ensures
        is_floor_sqrt(n, floor_sqrt(n)),
    decreases n,
{
    if n == 0 {
        assert(is_floor_sqrt(0, 0));
    } else {
        lemma_floor_sqrt_exists(n - 1);
        let r = floor_sqrt(n - 1);
        if n < (r + 1) * (r + 1) {
            assert(is_floor_sqrt(n, r));
        } else {
            assert((r + 2) * (r + 2) > (r + 1) * (r + 1)) by (nonlinear_arith)
                requires
                    r >= 0,
            ;
            assert(is_floor_sqrt(n, r + 1));
        }
    }
}

/// The root of `n` rounded up is at most `b` when `n` is at most `b * b`.
pub proof fn lemma_ceil_sqrt_bound(n: int, b: int)
    requires
        0 <= n <= b * b,
        0 <= b,
    ensures
        0 <= ceil_sqrt(n) <= b,
{
    lemma_floor_sqrt_exists(n);
    lemma_ceil_sqrt_le(n, floor_sqrt(n), b);
}

/// A square is never negative.
pub proof fn lemma_square_nonneg(a: int)
    ensures
        a * a >= 0,
        a * a == (-a) * (-a),
{
    assert(a * a >= 0 && a * a == (-a) * (-a)) by (nonlinear_arith);
}

/// The square of the difference of two 32-bit integers stays within 2^64.
pub proof fn lemma_square_bound_i33(a: int)
    requires
        -0x1_0000_0000 <= a <= 0x1_0000_0000,
    ensures
        0 <= a * a <= 0x1_0000_0000_0000_0000,
{
    assert(0 <= a * a <= 0x1_0000_0000_0000_0000) by (nonlinear_arith)
        requires
            -0x1_0000_0000 <= a <= 0x1_0000_0000,
    ;
}

/// The square of a 32-bit integer stays within 2^62.
pub proof fn lemma_square_bound_i32(a: int)
    requires
        -0x8000_0000 <= a <= 0x8000_0000,
    ensures
        0 <= a * a <= 0x4000_0000_0000_0000,
{
    assert(0 <= a * a <= 0x4000_0000_0000_0000) by (nonlinear_arith)
        requires
            -0x8000_0000 <= a <= 0x8000_0000,
    ;
}

/// The square of a 64-bit integer stays within 2^126.
pub proof fn lemma_square_bound_i64(a: int)
    requires
        -0x8000_0000_0000_0000 <= a <= 0x8000_0000_0000_0000,
    ensures
        0 <= a * a <= 0x4000_0000_0000_0000_0000_0000_0000_0000,
{
    assert(0 <= a * a <= 0x4000_0000_0000_0000_0000_0000_0000_0000) by (nonlinear_arith)
        requires
            -0x8000_0000_0000_0000 <= a <= 0x8000_0000_0000_0000,
    ;
}

/// The quotient of a truncating division by a positive divisor is no larger
/// in magnitude than `q` when the dividend is no larger than `q * b`.
pub proof fn lemma_trunc_div_bound(a: int, b: int, q: int)
    requires
        b > 0,
        q >= 0,
        -(q * b) <= a <= q * b,
    ensures
        -q <= trunc_div(a, b) <= q,
{
    if a >= 0 {
        assert(a / b <= q) by (nonlinear_arith)
            requires
                b > 0,
                0 <= a <= q * b,
        ;
        assert(a / b >= 0) by (nonlinear_arith)
            requires
                b > 0,
                0 <= a,
        ;
    } else {
        let m = -a;
        assert(m / b <= q) by (nonlinear_arith)
            requires
                b > 0,
                0 <= m <= q * b,
        ;
        assert(m / b >= 0) by (nonlinear_arith)
            requires
                b > 0,
                0 <= m,
        ;
    }
}

/// The product of two 64-bit integers stays within 2^126.
pub proof fn lemma_product_bound_i64(a: int, b: int)
    requires
        -0x8000_0000_0000_0000 <= a <= 0x8000_0000_0000_0000,
        -0x8000_0000_0000_0000 <= b <= 0x8000_0000_0000_0000,
    ensures
        -0x4000_0000_0000_0000_0000_0000_0000_0000 <= a * b
            <= 0x4000_0000_0000_0000_0000_0000_0000_0000,
{
    assert(-0x4000_0000_0000_0000_0000_0000_0000_0000 <= a * b
        <= 0x4000_0000_0000_0000_0000_0000_0000_0000) by (nonlinear_arith)
        requires
            -0x8000_0000_0000_0000 <= a <= 0x8000_0000_0000_0000,
            -0x8000_0000_0000_0000 <= b <= 0x8000_0000_0000_0000,
    ;
}

/// The product of two 32-bit integers stays within 2^62.
pub proof fn lemma_product_bound_i32(a: int, b: int)
    requires
        -0x8000_0000 <= a <= 0x8000_0000,
        -0x8000_0000 <= b <= 0x8000_0000,
    ensures
        -0x4000_0000_0000_0000 <= a * b <= 0x4000_0000_0000_0000,
{
    assert(-0x4000_0000_0000_0000 <= a * b <= 0x4000_0000_0000_0000) by (nonlinear_arith)
        requires
            -0x8000_0000 <= a <= 0x8000_0000,
            -0x8000_0000 <= b <= 0x8000_0000,
    ;
}

/// The square root of `n`, rounded down.
pub fn isqrt(n: u128) -> (r: u64)
    ensures
        is_floor_sqrt(n as int, r as int),
        r == floor_sqrt(n as int),
{
    let mut lo: u128 = 0;
    let mut hi: u128 = 0x1_0000_0000_0000_0000;
    while hi - lo > 1
        invariant
            lo < hi <= 0x1_0000_0000_0000_0000,
            lo * lo <= n,
            n < hi * hi,
        decreases hi - lo,
    {
        let mid: u128 = lo + (hi - lo) / 2;
        proof {
            lemma_square_le(mid as int, 0xFFFF_FFFF_FFFF_FFFF);
        }
        if mid * mid <= n {
            lo = mid;
        } else {
            hi = mid;
        }
    }
    proof {
        lemma_floor_sqrt_is(n as int, lo as int);
    }
    lo as u64
}

/// The square root of `n`, rounded up.
pub fn isqrt_ceil(n: u128) -> (r: u128)
    ensures
        r == ceil_sqrt(n as int),
        r <= 0x1_0000_0000_0000_0000,
{
    let s: u64 = isqrt(n);
    let wide: u128 = s as u128;
    proof {
        lemma_square_le(wide as int, 0xFFFF_FFFF_FFFF_FFFF);
    }
    if wide * wide == n {
        wide
    } else {
        wide + 1
    }
}

/// `x` limited to what an `i64` can hold.
pub fn saturate(x: i128) -> (r: i64)
    ensures
        r == saturate_spec(x as int),
{
    if x < i64::MIN as i128 {
        i64::MIN
    } else if x > i64::MAX as i128 {
        i64::MAX
    } else {
        x as i64
    }
}

/// Calls `num::clamp`, which hands back `min` for an input below `min`, `max`
/// for one above `max`, and the input itself otherwise. Its debug assertion
/// `min <= max` is what the precondition keeps callers from tripping.
#[verifier::external_body]
pub(crate) fn clamp_i64(input: i64, min: i64, max: i64) -> (r: i64)
    requires
        min <= max,
    ensures
        r == clamp_spec(input as int, min as int, max as int),
{
    num::clamp(input, min, max)
}

} // verus!
