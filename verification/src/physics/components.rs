//! What an object carries for the physics of the game.

use vstd::prelude::*;
use crate::fixed::{
    ceil_sqrt, floor_sqrt, is_floor_sqrt, isqrt_ceil, lemma_ceil_sqrt_bound, lemma_ceil_sqrt_le,
    lemma_floor_sqrt_exists, lemma_floor_sqrt_is, lemma_floor_sqrt_positive, lemma_square_le,
    trunc_div,
};
use crate::vec2::{length_sq, Vec2, WideVec2};

verus! {

/// The collision layers, in the order of the layer table.
#[derive(Clone, Copy, Debug, PartialEq, Eq, Structural)]
pub enum CollisionLayerNames {
    CollidesWithAliens,
    Ship,
    Aliens,
    HealthPacks,
    Walls,
}

impl CollisionLayerNames {
    /// The place of the layer in the layer table.
    pub open spec fn spec_index(self) -> int {
        match self {
            CollisionLayerNames::CollidesWithAliens => 0,
            CollisionLayerNames::Ship => 1,
            CollisionLayerNames::Aliens => 2,
            CollisionLayerNames::HealthPacks => 3,
            CollisionLayerNames::Walls => 4,
        }
    }

    /// The place of the layer in the layer table.
    pub fn index(self) -> (i: usize)
        ensures
            i == self.spec_index(),
    {
        match self {
            CollisionLayerNames::CollidesWithAliens => 0,
            CollisionLayerNames::Ship => 1,
            CollisionLayerNames::Aliens => 2,
            CollisionLayerNames::HealthPacks => 3,
            CollisionLayerNames::Walls => 4,
        }
    }
}

/// Marks an object as taking part in the physics; `use_collisions` says
/// whether it is pushed out of walls.
#[derive(Clone, Copy, Debug, PartialEq, Eq, Structural)]
pub struct Physics {
    pub use_collisions: bool,
}

impl Physics {
    /// The mark with the given wish to be pushed out of walls.
    pub fn new(use_collisions: bool) -> (p: Physics)
        ensures
            p.use_collisions == use_collisions,
    {
        Physics { use_collisions }
    }
}

impl Default for Physics {
    fn default() -> (p: Physics)
        ensures
            !p.use_collisions,
    {
        Physics { use_collisions: false }
    }
}

/// Units per second.
#[derive(Clone, Copy, Debug, PartialEq, Eq, Structural)]
pub struct Velocity(pub Vec2);

impl Default for Velocity {
    fn default() -> (v: Velocity)
        ensures
            v.0.x == 0,
            v.0.y == 0,
    {
        Velocity(Vec2 { x: 0, y: 0 })
    }
}

/// Units per second squared; `local` says that the value is given in the
/// frame in which the object faces along the x axis.
#[derive(Clone, Copy, Debug, PartialEq, Eq, Structural)]
pub struct Acceleration {
    pub value: Vec2,
    pub local: bool,
}

impl Default for Acceleration {
    fn default() -> (a: Acceleration)
        ensures
            a.value.x == 0,
            a.value.y == 0,
            !a.local,
    {
        Acceleration { value: Vec2 { x: 0, y: 0 }, local: false }
    }
}

/// The mass by which an object divides the impulses it receives.
#[derive(Clone, Copy, Debug, PartialEq, Eq, Structural)]
pub struct Mass(pub i32);

impl Default for Mass {
    fn default() -> (m: Mass)
        ensures
            m.0 == 0,
    {
        Mass(0)
    }
}

/// A circle around the position of its object.
#[derive(Clone, Copy, Debug, PartialEq, Eq, Structural)]
pub struct CircleCollider {
    pub radius: i32,
    pub layer: CollisionLayerNames,
}

impl CircleCollider {
    /// The circle of the given radius on the given layer.
    pub fn new(radius: i32, layer: CollisionLayerNames) -> (c: CircleCollider)
        ensures
            c.radius == radius,
            c.layer == layer,
    {
        CircleCollider { radius, layer }
    }
}

/// An axis-aligned rectangle centered on the position of its object. It
/// reaches half of its size, rounded toward zero, to either side.
#[derive(Clone, Copy, Debug, PartialEq, Eq, Structural)]
pub struct AARectCollider {
    pub size: Vec2,
    pub layer: CollisionLayerNames,
}

/// The larger of two integers.
pub open spec fn max_of(a: int, b: int) -> int {
    if a >= b {
        a
    } else {
        b
    }
}

/// The smaller of two integers.
pub open spec fn min_of(a: int, b: int) -> int {
    if a <= b {
        a
    } else {
        b
    }
}

/// How far `p` lies outside the interval that reaches `half` to either side
/// of `center`; negative inside, where it says how far the nearer end is.
pub open spec fn axis_gap(center: int, half: int, p: int) -> int {
    max_of((center - half) - p, p - (center + half))
}

/// The square of the distance from the point to the rectangle, zero for a
/// point in the rectangle or on its edge.
pub open spec fn rect_outside_sq(half: Vec2, point: Vec2, translation: Vec2) -> int {
    let dx = axis_gap(translation.x as int, half.x as int, point.x as int);
    let dy = axis_gap(translation.y as int, half.y as int, point.y as int);
    length_sq(max_of(dx, 0), max_of(dy, 0))
}

/// How deep the point lies in the rectangle, as a number that is negative
/// inside and zero on the edge and outside.
pub open spec fn rect_depth(half: Vec2, point: Vec2, translation: Vec2) -> int {
    let dx = axis_gap(translation.x as int, half.x as int, point.x as int);
    let dy = axis_gap(translation.y as int, half.y as int, point.y as int);
    min_of(max_of(dx, dy), 0)
}

/// The signed distance from the point to the edge of the rectangle, in whole
/// units: negative inside, zero on the edge, positive outside, where it is
/// rounded up.
pub open spec fn rect_signed_distance(half: Vec2, point: Vec2, translation: Vec2) -> int {
    ceil_sqrt(rect_outside_sq(half, point, translation)) + rect_depth(half, point, translation)
}

/// The exact signed distance from the point to the edge of the rectangle is
/// at most `r`.
pub open spec fn rect_within(half: Vec2, point: Vec2, translation: Vec2, r: int) -> bool {
    if rect_outside_sq(half, point, translation) > 0 {
        r >= 0 && rect_outside_sq(half, point, translation) <= r * r
    } else {
        rect_depth(half, point, translation) <= r
    }
}

/// The point lies in the rectangle and not on its edge.
pub open spec fn rect_contains_strictly(half: Vec2, point: Vec2, translation: Vec2) -> bool {
    &&& translation.x - half.x < point.x < translation.x + half.x
    &&& translation.y - half.y < point.y < translation.y + half.y
}

/// The point of the rectangle's edge that is nearest to `point`, for a point
/// strictly inside. Of several faces equally near, the first in the order
/// east, west, north, south is taken.
pub open spec fn nearest_on_edge(half: Vec2, point: Vec2, translation: Vec2) -> WideVec2 {
    let east = translation.x + half.x - point.x;
    let west = point.x - (translation.x - half.x);
    let north = translation.y + half.y - point.y;
    let south = point.y - (translation.y - half.y);
    let smallest = min_of(min_of(east, west), min_of(north, south));
    if smallest == east {
        WideVec2 { x: (translation.x + half.x) as i64, y: point.y as i64 }
    } else if smallest == west {
        WideVec2 { x: (translation.x - half.x) as i64, y: point.y as i64 }
    } else if smallest == north {
        WideVec2 { x: point.x as i64, y: (translation.y + half.y) as i64 }
    } else {
        WideVec2 { x: point.x as i64, y: (translation.y - half.y) as i64 }
    }
}

/// The point of the rectangle that is nearest to `point`, for a point that is
/// not strictly inside: each coordinate is limited to the rectangle.
pub open spec fn nearest_clamped(half: Vec2, point: Vec2, translation: Vec2) -> WideVec2 {
    WideVec2 {
        x: max_of(translation.x - half.x, min_of(point.x as int, translation.x + half.x)) as i64,
        y: max_of(translation.y - half.y, min_of(point.y as int, translation.y + half.y)) as i64,
    }
}

/// The signed distance rounded up is at most a whole number `r` exactly when
/// the exact signed distance is.
pub proof fn lemma_signed_distance_le(half: Vec2, point: Vec2, translation: Vec2, r: int)
    ensures
        rect_signed_distance(half, point, translation) <= r <==> rect_within(
            half,
            point,
            translation,
            r,
        ),
        rect_signed_distance(half, point, translation) < 0 <==> rect_contains_strictly(
            half,
            point,
            translation,
        ),
{
    let dx = axis_gap(translation.x as int, half.x as int, point.x as int);
    let dy = axis_gap(translation.y as int, half.y as int, point.y as int);
    let ox = max_of(dx, 0);
    let oy = max_of(dy, 0);
    let n = rect_outside_sq(half, point, translation);
    assert(ox * ox >= 0 && oy * oy >= 0) by (nonlinear_arith);
    assert(ox > 0 ==> ox * ox > 0) by (nonlinear_arith);
    assert(oy > 0 ==> oy * oy > 0) by (nonlinear_arith);
    assert(ox == 0 ==> ox * ox == 0) by (nonlinear_arith);
    assert(oy == 0 ==> oy * oy == 0) by (nonlinear_arith);
    assert(n == ox * ox + oy * oy);
    lemma_floor_sqrt_exists(n);
    let s = floor_sqrt(n);
    if n > 0 {
        assert(rect_depth(half, point, translation) == 0);
        lemma_floor_sqrt_positive(n, s);
        if r >= 0 {
            lemma_ceil_sqrt_le(n, s, r);
        }
    } else {
        assert(ox == 0 && oy == 0);
        assert(is_floor_sqrt(0, 0));
        lemma_floor_sqrt_is(0, 0);
    }
}

/// The signed distance from `point` to the edge of the rectangle of half-size
/// `half` around `translation`, in whole units, rounded up outside.
pub fn signed_distance(half: Vec2, point: Vec2, translation: Vec2) -> (d: i64)
    ensures
        d == rect_signed_distance(half, point, translation),
{
    let left: i64 = translation.x as i64 - half.x as i64 - point.x as i64;
    let right: i64 = point.x as i64 - (translation.x as i64 + half.x as i64);
    let low: i64 = translation.y as i64 - half.y as i64 - point.y as i64;
    let high: i64 = point.y as i64 - (translation.y as i64 + half.y as i64);
    let dx: i64 = if left >= right {
        left
    } else {
        right
    };
    let dy: i64 = if low >= high {
        low
    } else {
        high
    };
    let ox: i128 = if dx > 0 {
        dx as i128
    } else {
        0
    };
    let oy: i128 = if dy > 0 {
        dy as i128
    } else {
        0
    };
    proof {
        lemma_square_le(ox as int, 0x2_0000_0000);
        lemma_square_le(oy as int, 0x2_0000_0000);
        assert(ox * ox >= 0 && oy * oy >= 0) by (nonlinear_arith);
    }
    let n: u128 = (ox * ox + oy * oy) as u128;
    let outside: u128 = isqrt_ceil(n);
    proof {
        lemma_ceil_sqrt_bound(n as int, 0x4_0000_0000);
    }
    let larger: i64 = if dx >= dy {
        dx
    } else {
        dy
    };
    let depth: i64 = if larger <= 0 {
        larger
    } else {
        0
    };
    outside as i64 + depth
}

/// The point of the rectangle's edge nearest to `point`, and whether `point`
/// lies strictly inside the rectangle.
pub fn nearest(half: Vec2, point: Vec2, translation: Vec2) -> (r: (WideVec2, bool))
    ensures
        r.1 == rect_contains_strictly(half, point, translation),
        r.1 ==> r.0 == nearest_on_edge(half, point, translation),
        !r.1 ==> r.0 == nearest_clamped(half, point, translation),
{
    let px: i64 = point.x as i64;
    let py: i64 = point.y as i64;
    let tlx: i64 = translation.x as i64 - half.x as i64;
    let tly: i64 = translation.y as i64 - half.y as i64;
    let brx: i64 = translation.x as i64 + half.x as i64;
    let bry: i64 = translation.y as i64 + half.y as i64;
    let inside_x: bool = tlx < px && px < brx;
    let inside_y: bool = tly < py && py < bry;
    if !(inside_x && inside_y) {
        let lowest_x: i64 = if px <= brx {
            px
        } else {
            brx
        };
        let lowest_y: i64 = if py <= bry {
            py
        } else {
            bry
        };
        let x: i64 = if tlx >= lowest_x {
            tlx
        } else {
            lowest_x
        };
        let y: i64 = if tly >= lowest_y {
            tly
        } else {
            lowest_y
        };
        (WideVec2 { x, y }, false)
    } else {
        let east: i64 = brx - px;
        let west: i64 = px - tlx;
        let north: i64 = bry - py;
        let south: i64 = py - tly;
        let smallest_x: i64 = if east <= west {
            east
        } else {
            west
        };
        let smallest_y: i64 = if north <= south {
            north
        } else {
            south
        };
        let smallest: i64 = if smallest_x <= smallest_y {
            smallest_x
        } else {
            smallest_y
        };
        if smallest == east {
            (WideVec2 { x: brx, y: py }, true)
        } else if smallest == west {
            (WideVec2 { x: tlx, y: py }, true)
        } else if smallest == north {
            (WideVec2 { x: px, y: bry }, true)
        } else {
            (WideVec2 { x: px, y: tly }, true)
        }
    }
}

impl AARectCollider {
    /// The rectangle of the given full size.
    pub fn new(size: Vec2, layer: CollisionLayerNames) -> (c: AARectCollider)
        ensures
            c.size == size,
            c.layer == layer,
    {
        AARectCollider { size, layer }
    }

    /// Half of the size, rounded toward zero: how far the rectangle reaches
    /// to either side of its position.
    pub open spec fn spec_half_size(self) -> Vec2 {
        Vec2 {
            x: trunc_div(self.size.x as int, 2) as i32,
            y: trunc_div(self.size.y as int, 2) as i32,
        }
    }

    /// Half of the size, rounded toward zero.
    pub fn half_size(&self) -> (h: Vec2)
        ensures
            h == self.spec_half_size(),
    {
        Vec2 { x: half_of(self.size.x), y: half_of(self.size.y) }
    }

    /// The signed distance from `point` to the edge of the rectangle around
    /// `translation`, in whole units: negative inside, zero on the edge,
    /// positive outside. Outside it is rounded up, so that to ask whether it
    /// is at most a whole number decides as the exact distance would.
    pub fn dist(&self, point: Vec2, translation: Vec2) -> (d: i64)
        ensures
            d == rect_signed_distance(self.spec_half_size(), point, translation),
    {
        signed_distance(self.half_size(), point, translation)
    }

    /// The point of the rectangle's edge nearest to `point`, and whether
    /// `point` lies strictly inside the rectangle. From outside this is the
    /// point with each coordinate limited to the rectangle; from inside it is
    /// the point straight across on the nearest face.
    pub fn nearest_point(&self, point: Vec2, translation: Vec2) -> (r: (WideVec2, bool))
        ensures
            r.1 == rect_contains_strictly(self.spec_half_size(), point, translation),
            r.1 ==> r.0 == nearest_on_edge(self.spec_half_size(), point, translation),
            !r.1 ==> r.0 == nearest_clamped(self.spec_half_size(), point, translation),
    {
        nearest(self.half_size(), point, translation)
    }
}

/// Half of `v`, rounded toward zero.
fn half_of(v: i32) -> (h: i32)
    ensures
        h == trunc_div(v as int, 2),
{
    v / 2
}

} // verus!
