//! Two-dimensional vectors over the integers.
//!
//! [`Vec2`] holds world quantities (positions, velocities, sizes) in whole
//! units. [`WideVec2`] holds sums of such vectors and fixed-point vectors,
//! whose components stand for their value divided by [`ONE`].

use vstd::prelude::*;
use crate::fixed::{
    ceil_sqrt, floor_sqrt, isqrt, isqrt_ceil, lemma_ceil_sqrt_bound, lemma_floor_sqrt_exists,
    lemma_floor_sqrt_is, lemma_floor_sqrt_positive, lemma_product_bound_i32,
    lemma_product_bound_i64, lemma_square_bound_i32, lemma_square_bound_i33,
    lemma_square_bound_i64, lemma_square_le, lemma_square_nonneg, lemma_trunc_div_bound,
    saturate, saturate_spec, trunc_div, ONE,
};

verus! {

/// A vector, or a point, of the world plane.
#[derive(Clone, Copy, Debug, PartialEq, Eq, Structural)]
pub struct Vec2 {
    pub x: i32,
    pub y: i32,
}

/// A vector with room for sums and fixed-point components.
#[derive(Clone, Copy, Debug, PartialEq, Eq, Structural)]
pub struct WideVec2 {
    pub x: i64,
    pub y: i64,
}

/// A rotation of the plane, given by the cosine and the sine of its angle as
/// fixed-point numbers.
#[derive(Clone, Copy, Debug, PartialEq, Eq, Structural)]
pub struct Rotation {
    pub cos: i32,
    pub sin: i32,
}

/// The largest sum of two squares for which the root is taken at full
/// fixed-point precision.
pub const FINE_LIMIT: u128 = 0x1_0000_0000_0000_0000_0000;

/// The square of the length of the vector `(x, y)`.
pub open spec fn length_sq(x: int, y: int) -> int {
    x * x + y * y
}

/// The component `c` of the vector `(x, y)` after scaling the vector to unit
/// length, as a fixed-point number. The zero vector stays zero.
///
/// Short vectors are measured in millionths of a unit, so that rounding the
/// length does not bend the direction; long ones are measured in whole units.
pub open spec fn unit_component(c: int, x: int, y: int) -> int {
    let n = length_sq(x, y);
    if n == 0 {
        0
    } else if n < FINE_LIMIT {
        trunc_div(c * ONE * ONE, floor_sqrt(n * ONE * ONE))
    } else {
        trunc_div(c * ONE, floor_sqrt(n))
    }
}

/// The vector `(x, y)` scaled to unit length, in fixed point.
pub open spec fn unit_vector(x: int, y: int) -> WideVec2 {
    WideVec2 { x: unit_component(x, x, y) as i64, y: unit_component(y, x, y) as i64 }
}

/// The components of a unit vector lie between minus one and one.
pub proof fn lemma_unit_component_bound(c: int, x: int, y: int)
    requires
        c == x || c == y,
    ensures
        -ONE <= unit_component(c, x, y) <= ONE,
{
    let n = length_sq(x, y);
    lemma_square_nonneg(x);
    lemma_square_nonneg(y);
    lemma_square_nonneg(c);
    let a = if c >= 0 { c } else { -c };
    assert(a * a == c * c);
    assert(a * a <= n);
    if n == 0 {
    } else if n < FINE_LIMIT {
        let m = n * ONE * ONE;
        let l = floor_sqrt(m);
        lemma_floor_sqrt_exists(m);
        // (a * ONE)^2 <= m, hence a * ONE <= l
        assert((a * ONE) * (a * ONE) <= m) by (nonlinear_arith)
            requires
                a * a <= n,
                m == n * ONE * ONE,
                a >= 0,
        ;
        if a * ONE > l {
            lemma_square_le(l + 1, a * ONE);
        }
        assert(m >= 1) by (nonlinear_arith)
            requires
                n >= 1,
                m == n * ONE * ONE,
        ;
        lemma_floor_sqrt_positive(m, l);
        assert(-(ONE * l) <= c * ONE * ONE <= ONE * l) by (nonlinear_arith)
            requires
                a * ONE <= l,
                a == c || a == -c,
                a >= 0,
        ;
        lemma_trunc_div_bound(c * ONE * ONE, l, ONE as int);
    } else {
        let l = floor_sqrt(n);
        lemma_floor_sqrt_exists(n);
        if a > l {
            lemma_square_le(l + 1, a);
        }
        lemma_floor_sqrt_positive(n, l);
        assert(-(ONE * l) <= c * ONE <= ONE * l) by (nonlinear_arith)
            requires
                a <= l,
                a == c || a == -c,
                a >= 0,
        ;
        lemma_trunc_div_bound(c * ONE, l, ONE as int);
    }
}

/// The unit vector of a vector along an axis is that axis, exactly, and its
/// length is the size of its one component.
pub proof fn lemma_axis_unit(c: int)
    requires
        c != 0,
        -0x80_0000_0000 <= c <= 0x80_0000_0000,
    ensures
        unit_component(c, c, 0) == if c > 0 {
            ONE as int
        } else {
            -ONE
        },
        unit_component(c, 0, c) == unit_component(c, c, 0),
        unit_component(0, c, 0) == 0,
        unit_component(0, 0, c) == 0,
        floor_sqrt(length_sq(c, 0)) == if c > 0 {
            c
        } else {
            -c
        },
        floor_sqrt(length_sq(0, c)) == floor_sqrt(length_sq(c, 0)),
{
    let l = if c > 0 { c } else { -c };
    let n = length_sq(c, 0);
    assert(n == l * l && length_sq(0, c) == n) by (nonlinear_arith)
        requires
            n == c * c + 0 * 0,
            length_sq(0, c) == 0 * 0 + c * c,
            l == c || l == -c,
    ;
    assert(l * l < (l + 1) * (l + 1)) by (nonlinear_arith)
        requires
            l > 0,
    ;
    lemma_floor_sqrt_is(n, l);
    lemma_square_le(l, 0x80_0000_0000);
    assert(n < FINE_LIMIT);
    let r = l * ONE;
    let m = n * ONE * ONE;
    assert(r * r == m) by (nonlinear_arith)
        requires
            r == l * ONE,
            m == n * ONE * ONE,
            n == l * l,
    ;
    assert(r * r < (r + 1) * (r + 1)) by (nonlinear_arith)
        requires
            r >= 0,
    ;
    assert(r > 0) by (nonlinear_arith)
        requires
            r == l * ONE,
            l > 0,
            ONE == 1_000_000,
    ;
    lemma_floor_sqrt_is(m, r);
    let big = l * ONE * ONE;
    assert(big == ONE * r && big >= 0) by (nonlinear_arith)
        requires
            big == l * ONE * ONE,
            r == l * ONE,
            l > 0,
            ONE == 1_000_000,
    ;
    assert(big / r == ONE) by (nonlinear_arith)
        requires
            big == ONE * r,
            r > 0,
    ;
    assert(c * ONE * ONE == big || c * ONE * ONE == -big) by (nonlinear_arith)
        requires
            big == l * ONE * ONE,
            l == c || l == -c,
    ;
    assert(0 * ONE * ONE == 0);
    assert(0int / r == 0) by (nonlinear_arith)
        requires
            r > 0,
    ;
}

impl Vec2 {
    /// The vector with the given components.
    pub fn new(x: i32, y: i32) -> (v: Vec2)
        ensures
            v.x == x,
            v.y == y,
    {
        Vec2 { x, y }
    }

    /// The zero vector.
    pub fn zero() -> (v: Vec2)
        ensures
            v.x == 0,
            v.y == 0,
    {
        Vec2 { x: 0, y: 0 }
    }

    /// The square of the distance between two points.
    pub open spec fn spec_distance_squared(self, other: Vec2) -> int {
        length_sq(self.x - other.x, self.y - other.y)
    }

    /// The square of the distance between two points.
    pub fn distance_squared(self, other: Vec2) -> (d: u128)
        ensures
            d == self.spec_distance_squared(other),
            d <= 0x2_0000_0000_0000_0000,
    {
        let dx: i128 = self.x as i128 - other.x as i128;
        let dy: i128 = self.y as i128 - other.y as i128;
        proof {
            lemma_square_bound_i33(dx as int);
            lemma_square_bound_i33(dy as int);
        }
        (dx * dx + dy * dy) as u128
    }

    /// The square of the length.
    pub fn length_squared(self) -> (d: u128)
        ensures
            d == length_sq(self.x as int, self.y as int),
            d <= 0x8000_0000_0000_0000,
    {
        let x: i128 = self.x as i128;
        let y: i128 = self.y as i128;
        proof {
            lemma_square_bound_i32(x as int);
            lemma_square_bound_i32(y as int);
        }
        (x * x + y * y) as u128
    }

    /// The length in whole units, rounded up. To ask whether it is at most a
    /// whole number of units therefore decides as the exact length would; to
    /// ask whether it is less does not, and is decided on the squares.
    pub fn length(self) -> (l: i64)
        ensures
            l == ceil_sqrt(length_sq(self.x as int, self.y as int)),
            0 <= l <= 0x1_0000_0000,
    {
        let n: u128 = self.length_squared();
        let s: u64 = isqrt(n);
        proof {
            lemma_floor_sqrt_is(n as int, s as int);
            if s > 0xFFFF_FFFF {
                lemma_square_le(0x1_0000_0000, s as int);
                assert(false);
            }
        }
        let l: u128 = isqrt_ceil(n);
        l as i64
    }

    /// The vector scaled to unit length, in fixed point; zero for the zero vector.
    pub fn normalize(self) -> (u: WideVec2)
        ensures
            u == unit_vector(self.x as int, self.y as int),
            -ONE <= u.x <= ONE,
            -ONE <= u.y <= ONE,
    {
        normalize(self.x as i64, self.y as i64)
    }

    /// The vector with the given components, where both fit.
    pub fn from_wide(x: i128, y: i128) -> (v: Option<Vec2>)
        ensures
            v.is_some() <==> (i32::MIN <= x <= i32::MAX && i32::MIN <= y <= i32::MAX),
            v.is_some() ==> v.unwrap().x == x && v.unwrap().y == y,
    {
        if x < i32::MIN as i128 || x > i32::MAX as i128 || y < i32::MIN as i128 || y > i32::MAX as i128 {
            None
        } else {
            Some(Vec2 { x: x as i32, y: y as i32 })
        }
    }

    /// The vector from this point to `other`.
    pub open spec fn spec_to(self, other: Vec2) -> WideVec2 {
        WideVec2 { x: (other.x - self.x) as i64, y: (other.y - self.y) as i64 }
    }

    /// The vector from this point to `other`.
    pub fn to(self, other: Vec2) -> (w: WideVec2)
        ensures
            w == self.spec_to(other),
            w.x == other.x - self.x,
            w.y == other.y - self.y,
    {
        WideVec2 { x: other.x as i64 - self.x as i64, y: other.y as i64 - self.y as i64 }
    }

    /// The distance to `other` in whole units, rounded up. To ask whether it
    /// is at most a whole number of units therefore decides as the exact
    /// distance would; to ask whether it is less does not, and is decided on
    /// the squares.
    pub fn distance(self, other: Vec2) -> (l: i64)
        ensures
            l == ceil_sqrt(self.spec_distance_squared(other)),
            0 <= l <= 0x2_0000_0000,
    {
        let n: u128 = self.distance_squared(other);
        proof {
            lemma_ceil_sqrt_bound(n as int, 0x2_0000_0000);
        }
        let l: u128 = isqrt_ceil(n);
        l as i64
    }

    /// The same vector with wide components.
    pub fn widen(self) -> (w: WideVec2)
        ensures
            w.x == self.x,
            w.y == self.y,
    {
        WideVec2 { x: self.x as i64, y: self.y as i64 }
    }
}

impl Rotation {
    /// The rotation with the given fixed-point cosine and sine.
    pub fn new(cos: i32, sin: i32) -> (r: Rotation)
        ensures
            r.cos == cos,
            r.sin == sin,
    {
        Rotation { cos, sin }
    }

    /// The rotation by no angle.
    pub fn identity() -> (r: Rotation)
        ensures
            r.cos == ONE,
            r.sin == 0,
    {
        Rotation { cos: 1_000_000, sin: 0 }
    }

    /// The first coordinate of `v` turned by the angle, counter-clockwise for
    /// a positive sine; `reverse` turns the other way.
    pub open spec fn spec_x(self, v: Vec2, reverse: bool) -> int {
        if reverse {
            trunc_div(self.cos * v.x + self.sin * v.y, ONE as int)
        } else {
            trunc_div(self.cos * v.x - self.sin * v.y, ONE as int)
        }
    }

    /// The second coordinate of `v` turned by the angle.
    pub open spec fn spec_y(self, v: Vec2, reverse: bool) -> int {
        if reverse {
            trunc_div(self.cos * v.y - self.sin * v.x, ONE as int)
        } else {
            trunc_div(self.sin * v.x + self.cos * v.y, ONE as int)
        }
    }

    /// The first coordinate of `v` turned by the angle, times [`ONE`]: the
    /// exact value, before any rounding.
    pub open spec fn spec_raw_x(self, v: Vec2, reverse: bool) -> int {
        if reverse {
            self.cos * v.x + self.sin * v.y
        } else {
            self.cos * v.x - self.sin * v.y
        }
    }

    /// The second coordinate of `v` turned by the angle, times [`ONE`].
    pub open spec fn spec_raw_y(self, v: Vec2, reverse: bool) -> int {
        if reverse {
            self.cos * v.y - self.sin * v.x
        } else {
            self.sin * v.x + self.cos * v.y
        }
    }

    /// The vector turned by the angle, or by the opposite angle where
    /// `reverse` is set, times [`ONE`] and not rounded.
    pub fn apply_raw(self, v: Vec2, reverse: bool) -> (w: (i128, i128))
        ensures
            w.0 == self.spec_raw_x(v, reverse),
            w.1 == self.spec_raw_y(v, reverse),
            -0x8000_0000_0000_0000 <= w.0 <= 0x8000_0000_0000_0000,
            -0x8000_0000_0000_0000 <= w.1 <= 0x8000_0000_0000_0000,
    {
        let c: i128 = self.cos as i128;
        let s: i128 = self.sin as i128;
        let x: i128 = v.x as i128;
        let y: i128 = v.y as i128;
        proof {
            lemma_product_bound_i32(c as int, x as int);
            lemma_product_bound_i32(s as int, y as int);
            lemma_product_bound_i32(s as int, x as int);
            lemma_product_bound_i32(c as int, y as int);
        }
        if reverse {
            (c * x + s * y, c * y - s * x)
        } else {
            (c * x - s * y, s * x + c * y)
        }
    }

    /// The vector turned by the angle, or by the opposite angle where
    /// `reverse` is set. Each coordinate is rounded toward zero.
    pub fn apply(self, v: Vec2, reverse: bool) -> (w: WideVec2)
        ensures
            w.x == self.spec_x(v, reverse),
            w.y == self.spec_y(v, reverse),
            -0x8000_0000_0000 <= w.x <= 0x8000_0000_0000,
            -0x8000_0000_0000 <= w.y <= 0x8000_0000_0000,
    {
        let c: i128 = self.cos as i128;
        let s: i128 = self.sin as i128;
        let x: i128 = v.x as i128;
        let y: i128 = v.y as i128;
        proof {
            lemma_product_bound_i32(c as int, x as int);
            lemma_product_bound_i32(s as int, y as int);
            lemma_product_bound_i32(s as int, x as int);
            lemma_product_bound_i32(c as int, y as int);
        }
        let (a, b): (i128, i128) = if reverse {
            (c * x + s * y, c * y - s * x)
        } else {
            (c * x - s * y, s * x + c * y)
        };
        proof {
            lemma_trunc_div_bound(a as int, ONE as int, 0x8000_0000_0000);
            lemma_trunc_div_bound(b as int, ONE as int, 0x8000_0000_0000);
        }
        WideVec2 { x: (a / 1_000_000) as i64, y: (b / 1_000_000) as i64 }
    }
}

/// The whole number nearest to the square root of `k`.
pub open spec fn round_sqrt(k: int) -> int {
    (floor_sqrt(4 * k) + 1) / 2
}

/// The quotient of `a` by a positive `b`, rounded to the nearest whole number,
/// halves away from zero.
pub open spec fn round_div(a: int, b: int) -> int {
    if a >= 0 {
        trunc_div(2 * a + b, 2 * b)
    } else {
        trunc_div(2 * a - b, 2 * b)
    }
}

/// The square roots of `m` and `n` differ by less than one.
pub open spec fn roots_within_one(m: int, n: int) -> bool {
    &&& m <= n + 1 || (m - n - 1) * (m - n - 1) < 4 * n
    &&& n <= m + 1 || (n - m - 1) * (n - m - 1) < 4 * m
}

/// The component of smaller size of the whole-number vector that points
/// along a direction and has the squared length `n`: the component `minor` of
/// the fixed-point direction times the length, rounded to the nearest whole
/// number, and no larger than the length.
pub open spec fn minor_part(minor: int, n: int) -> int {
    let bound = floor_sqrt(n);
    let m = round_div(minor * floor_sqrt(n * ONE * ONE), ONE as int * ONE as int);
    if m > bound {
        bound
    } else if m < -bound {
        -bound
    } else {
        m
    }
}

/// The component of larger size of that vector: what the smaller one leaves
/// of the length, rounded to the nearest whole number, with the sign of the
/// component `major` of the direction.
pub open spec fn major_part(major: int, minor_part: int, n: int) -> int {
    let rest = round_sqrt(n - minor_part * minor_part);
    if major > 0 {
        rest
    } else {
        -rest
    }
}

/// The whole number nearest to the square root of `k` lies within a half of it.
pub proof fn lemma_round_sqrt(k: int)
    requires
        k >= 0,
    ensures
        round_sqrt(k) >= 0,
        round_sqrt(k) * round_sqrt(k) - round_sqrt(k) <= k <= round_sqrt(k) * round_sqrt(k)
            + round_sqrt(k),
        round_sqrt(k) >= 1 ==> k >= round_sqrt(k) * round_sqrt(k) - round_sqrt(k) + 1,
        round_sqrt(k) == 0 ==> k == 0,
{
    let s = floor_sqrt(4 * k);
    lemma_floor_sqrt_exists(4 * k);
    let y = round_sqrt(k);
    assert(2 * y - 1 <= s <= 2 * y);
    assert(4 * k < (2 * y + 1) * (2 * y + 1)) by {
        lemma_square_le(s + 1, 2 * y + 1);
    }
    assert((2 * y + 1) * (2 * y + 1) == 4 * (y * y + y) + 1) by (nonlinear_arith);
    if y >= 1 {
        lemma_square_le(2 * y - 1, s);
        assert((2 * y - 1) * (2 * y - 1) == 4 * (y * y - y) + 1) by (nonlinear_arith);
    } else {
        assert(y == 0);
        assert(y * y == 0) by (nonlinear_arith)
            requires
                y == 0,
        ;
    }
}

/// The root of a perfect square, rounded to the nearest whole number, is the root.
pub proof fn lemma_round_sqrt_exact(r: int)
    requires
        r >= 0,
    ensures
        round_sqrt(r * r) == r,
{
    let two = 2 * r;
    assert(two * two == 4 * (r * r)) by (nonlinear_arith)
        requires
            two == 2 * r,
    ;
    assert(two * two < (two + 1) * (two + 1)) by (nonlinear_arith)
        requires
            two >= 0,
    ;
    lemma_floor_sqrt_is(4 * (r * r), two);
}

/// A vector whose one component is no larger than the root of `n`, and whose
/// other component is what that leaves of `n`, rounded to the nearest whole
/// number, has a length within one of the root of `n`.
pub proof fn lemma_rest_keeps_length(a: int, n: int)
    requires
        n >= 0,
        a * a <= n,
    ensures
        roots_within_one(
            length_sq(a, round_sqrt(n - a * a)),
            n,
        ),
        length_sq(a, round_sqrt(n - a * a)) == length_sq(round_sqrt(n - a * a), a),
        length_sq(a, -round_sqrt(n - a * a)) == length_sq(a, round_sqrt(n - a * a)),
{
    let k = n - a * a;
    let y = round_sqrt(k);
    lemma_round_sqrt(k);
    let m = length_sq(a, y);
    assert(a * a >= 0 && y * y >= 0) by (nonlinear_arith);
    assert((-y) * (-y) == y * y) by (nonlinear_arith);
    assert(m - n == y * y - k);
    // m - n - 1 <= y - 2 and n - m - 1 <= y - 1
    if m > n + 1 {
        let d = m - n - 1;
        assert(0 < d <= y - 2);
        lemma_square_le(d, y - 2);
        assert((y - 2) * (y - 2) == y * y - 4 * y + 4) by (nonlinear_arith);
        assert(d * d < 4 * n);
    }
    if n > m + 1 {
        let d = n - m - 1;
        assert(0 < d <= y - 1);
        lemma_square_le(d, y - 1);
        assert((y - 1) * (y - 1) == y * y - 2 * y + 1) by (nonlinear_arith);
        assert(d * d < 4 * m);
    }
}

impl WideVec2 {
    /// The whole-number vector that points along this fixed-point direction
    /// and has the length of `v`, as nearly as whole numbers allow: the
    /// component of smaller size follows the direction, the other one takes
    /// what is left of the length. There is none for the zero direction, nor
    /// where the result cannot be held.
    pub open spec fn spec_with_length_of(self, v: Vec2) -> Option<Vec2> {
        let n = length_sq(v.x as int, v.y as int);
        let ax = if self.x >= 0 {
            self.x as int
        } else {
            -self.x
        };
        let ay = if self.y >= 0 {
            self.y as int
        } else {
            -self.y
        };
        let x = if ax <= ay {
            minor_part(self.x as int, n)
        } else {
            major_part(self.x as int, minor_part(self.y as int, n), n)
        };
        let y = if ax <= ay {
            major_part(self.y as int, minor_part(self.x as int, n), n)
        } else {
            minor_part(self.y as int, n)
        };
        if (self.x == 0 && self.y == 0) || !(i32::MIN <= x <= i32::MAX && i32::MIN <= y
            <= i32::MAX) {
            None
        } else {
            Some(Vec2 { x: x as i32, y: y as i32 })
        }
    }

    /// The whole-number vector along this direction with the length of `v`.
    pub fn with_length_of(self, v: Vec2) -> (w: Option<Vec2>)
        ensures
            w == self.spec_with_length_of(v),
    {
        if self.is_zero() {
            return None;
        }
        let n: u128 = v.length_squared();
        let x: i128 = self.x as i128;
        let y: i128 = self.y as i128;
        let ax: i128 = if x >= 0 {
            x
        } else {
            -x
        };
        let ay: i128 = if y >= 0 {
            y
        } else {
            -y
        };
        if ax <= ay {
            let minor: i128 = part_along(x, n);
            let major: i128 = part_left(y, minor, n);
            Vec2::from_wide(minor, major)
        } else {
            let minor: i128 = part_along(y, n);
            let major: i128 = part_left(x, minor, n);
            Vec2::from_wide(major, minor)
        }
    }

    /// The vector with the given components.
    pub fn new(x: i64, y: i64) -> (v: WideVec2)
        ensures
            v.x == x,
            v.y == y,
    {
        WideVec2 { x, y }
    }

    /// The zero vector.
    pub fn zero() -> (v: WideVec2)
        ensures
            v.x == 0,
            v.y == 0,
    {
        WideVec2 { x: 0, y: 0 }
    }

    /// The sum of two vectors, each component limited to what it can hold.
    pub open spec fn spec_saturating_add(self, other: WideVec2) -> WideVec2 {
        WideVec2 {
            x: saturate_spec(self.x + other.x) as i64,
            y: saturate_spec(self.y + other.y) as i64,
        }
    }

    /// The sum of two vectors, each component limited to what it can hold.
    pub fn saturating_add(self, other: WideVec2) -> (v: WideVec2)
        ensures
            v == self.spec_saturating_add(other),
    {
        WideVec2 {
            x: saturate(self.x as i128 + other.x as i128),
            y: saturate(self.y as i128 + other.y as i128),
        }
    }

    /// The vector scaled to unit length, in fixed point; zero for the zero vector.
    pub fn normalize_or_zero(self) -> (u: WideVec2)
        ensures
            u == unit_vector(self.x as int, self.y as int),
            -ONE <= u.x <= ONE,
            -ONE <= u.y <= ONE,
    {
        normalize(self.x, self.y)
    }

    /// The vector times the fixed-point factor `w`, each component rounded
    /// toward zero and limited to what it can hold.
    pub open spec fn spec_scale(self, w: int) -> WideVec2 {
        WideVec2 {
            x: saturate_spec(trunc_div(self.x * w, ONE as int)) as i64,
            y: saturate_spec(trunc_div(self.y * w, ONE as int)) as i64,
        }
    }

    /// The vector times the fixed-point factor `w`.
    pub fn scale(self, w: i64) -> (v: WideVec2)
        ensures
            v == self.spec_scale(w as int),
    {
        let x: i128 = self.x as i128;
        let y: i128 = self.y as i128;
        let f: i128 = w as i128;
        proof {
            lemma_product_bound_i64(x as int, f as int);
            lemma_product_bound_i64(y as int, f as int);
        }
        WideVec2 { x: saturate((x * f) / 1_000_000), y: saturate((y * f) / 1_000_000) }
    }

    /// Whether both components are zero.
    pub fn is_zero(self) -> (z: bool)
        ensures
            z == (self.x == 0 && self.y == 0),
    {
        self.x == 0 && self.y == 0
    }
}

/// The component of smaller size of the whole-number vector of squared
/// length `n` along a direction whose component of smaller size is `minor`.
fn part_along(minor: i128, n: u128) -> (m: i128)
    requires
        -0x8000_0000_0000_0000 <= minor <= 0x8000_0000_0000_0000,
        n <= 0x8000_0000_0000_0000,
    ensures
        m == minor_part(minor as int, n as int),
        0 <= m * m <= n,
        -0x1_0000_0000 <= m <= 0x1_0000_0000,
{
    let scaled: u128 = n * 1_000_000_000_000;
    assert(scaled == n * ONE * ONE) by (nonlinear_arith)
        requires
            scaled == n * 1_000_000_000_000,
            ONE == 1_000_000,
    ;
    let length: u64 = isqrt(scaled);
    let bound: u64 = isqrt(n);
    proof {
        if length > 0x10_0000_0000_0000 {
            lemma_square_le(0x10_0000_0000_0001, length as int);
        }
        if bound > 0x1_0000_0000 {
            lemma_square_le(0x1_0000_0001, bound as int);
        }
        assert(-0x8000_0000_0000_0000 * 0x10_0000_0000_0000 <= minor * length
            <= 0x8000_0000_0000_0000 * 0x10_0000_0000_0000) by (nonlinear_arith)
            requires
                -0x8000_0000_0000_0000 <= minor <= 0x8000_0000_0000_0000,
                0 <= length <= 0x10_0000_0000_0000,
        ;
        assert(ONE as int * ONE as int == 1_000_000_000_000);
    }
    let a: i128 = minor * length as i128;
    let rounded: i128 = if a >= 0 {
        (2 * a + 1_000_000_000_000) / 2_000_000_000_000
    } else {
        (2 * a - 1_000_000_000_000) / 2_000_000_000_000
    };
    let limit: i128 = bound as i128;
    let m: i128 = if rounded > limit {
        limit
    } else if rounded < -limit {
        -limit
    } else {
        rounded
    };
    proof {
        let size = if m >= 0 { m as int } else { -m };
        lemma_square_le(size, limit as int);
        assert(m * m == size * size && size * size >= 0) by (nonlinear_arith)
            requires
                size == m || size == -m,
        ;
    }
    m
}

/// The component of larger size of that vector: what `minor_part` leaves of
/// the squared length `n`, with the sign of `major`.
fn part_left(major: i128, minor_part: i128, n: u128) -> (m: i128)
    requires
        n <= 0x8000_0000_0000_0000,
        0 <= minor_part * minor_part <= n,
    ensures
        m == major_part(major as int, minor_part as int, n as int),
{
    proof {
        assert(minor_part * minor_part >= 0) by (nonlinear_arith);
    }
    let rest: u128 = n - (minor_part * minor_part) as u128;
    let root: u64 = isqrt(4 * rest);
    proof {
        if root > 0x2_0000_0000 {
            lemma_square_le(0x2_0000_0001, root as int);
        }
    }
    let nearest: i128 = ((root + 1) / 2) as i128;
    if major > 0 {
        nearest
    } else {
        -nearest
    }
}

/// The vector `(x, y)` scaled to unit length, in fixed point.
pub fn normalize(x: i64, y: i64) -> (u: WideVec2)
    ensures
        u == unit_vector(x as int, y as int),
        -ONE <= u.x <= ONE,
        -ONE <= u.y <= ONE,
{
    let wx: i128 = x as i128;
    let wy: i128 = y as i128;
    proof {
        lemma_square_bound_i64(wx as int);
        lemma_square_bound_i64(wy as int);
        lemma_unit_component_bound(x as int, x as int, y as int);
        lemma_unit_component_bound(y as int, x as int, y as int);
    }
    let n: u128 = (wx * wx) as u128 + (wy * wy) as u128;
    if n == 0 {
        return WideVec2 { x: 0, y: 0 };
    }
    let one: i128 = ONE as i128;
    if n < FINE_LIMIT {
        let m: u128 = n * 1_000_000_000_000;
        assert(m == n * ONE * ONE) by (nonlinear_arith)
            requires
                m == n * 1_000_000_000_000,
                ONE == 1_000_000,
        ;
        let l: u64 = isqrt(m);
        proof {
            lemma_floor_sqrt_is(m as int, l as int);
            lemma_floor_sqrt_positive(m as int, l as int);
            // both components are below 2^40 in magnitude
            let ax = if wx >= 0 { wx as int } else { -wx };
            let ay = if wy >= 0 { wy as int } else { -wy };
            lemma_square_nonneg(wx as int);
            lemma_square_nonneg(wy as int);
            if ax >= 0x100_0000_0000 {
                lemma_square_le(0x100_0000_0000, ax);
            }
            if ay >= 0x100_0000_0000 {
                lemma_square_le(0x100_0000_0000, ay);
            }
            assert(wx * ONE * ONE == wx * 1_000_000_000_000) by (nonlinear_arith)
                requires
                    ONE == 1_000_000,
            ;
            assert(wy * ONE * ONE == wy * 1_000_000_000_000) by (nonlinear_arith)
                requires
                    ONE == 1_000_000,
            ;
        }
        let ux: i128 = (wx * 1_000_000_000_000) / (l as i128);
        let uy: i128 = (wy * 1_000_000_000_000) / (l as i128);
        WideVec2 { x: ux as i64, y: uy as i64 }
    } else {
        let l: u64 = isqrt(n);
        proof {
            lemma_floor_sqrt_is(n as int, l as int);
            lemma_floor_sqrt_positive(n as int, l as int);
        }
        let ux: i128 = (wx * one) / (l as i128);
        let uy: i128 = (wy * one) / (l as i128);
        WideVec2 { x: ux as i64, y: uy as i64 }
    }
}

} // verus!
