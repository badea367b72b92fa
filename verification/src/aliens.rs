//! The flocking of the aliens.
//!
//! Every alien looks for neighbours and obstacles around itself, sums up what
//! they ask of it, and turns its velocity a bounded step toward the weighted
//! sum. Directions are fixed-point unit vectors; weights and ratios are
//! fixed-point numbers.

pub mod alien_avoid;

use vstd::prelude::*;
use crate::entities::{lookup, row_after, table_after, Components, Entities, Row};
use crate::entity::Entity;
use crate::physics::components::{rect_signed_distance, Velocity};
use crate::quad_tree::{QuadTree, TreeModel, AABB};
use crate::fixed::{
    ceil_sqrt, clamp_i64, clamp_spec, div_toward_zero, floor_sqrt, lemma_floor_sqrt_exists,
    lemma_square_le, lemma_square_nonneg, saturate, saturate_spec, trunc_div, ONE,
};
use crate::vec2::{
    lemma_rest_keeps_length, lemma_round_sqrt, lemma_round_sqrt_exact, length_sq, minor_part,
    normalize, roots_within_one, round_sqrt, unit_vector, Rotation, Vec2, WideVec2,
};

verus! {

/// The radii and weights of the flocking. Radii are counted in units; the
/// threshold of the vision cone is a fixed-point cosine; the weights are
/// whole numbers.
#[derive(Clone, Copy, Debug, PartialEq, Eq, Structural)]
pub struct FlockParams {
    /// How far an alien sees its neighbours.
    pub radius: i32,
    /// The cosine of half the opening of the vision cone.
    pub vision_cone_threshold: i64,
    /// Within this distance neighbours push each other apart.
    pub separation_radius: i32,
    /// Within this distance of an obstacle an alien steers away from it.
    pub alien_avoid_separation_radius: i32,
    /// How far an alien sees the ship.
    pub ship_search_radius: i32,
    pub separation: i32,
    pub alignment: i32,
    pub cohesion: i32,
    pub ship_search: i32,
    pub aarect_avoidance: i32,
}

impl Default for FlockParams {
    /// The values for a host that counts one unit to the pixel.
    fn default() -> (p: FlockParams)
        ensures
            p.radius == 200,
            p.vision_cone_threshold == -700_000,
            p.separation_radius == 70,
            p.alien_avoid_separation_radius == 100,
            p.ship_search_radius == 200,
            p.separation == 10,
            p.alignment == 3,
            p.cohesion == 1,
            p.ship_search == 5,
            p.aarect_avoidance == 50,
    {
        FlockParams {
            radius: 200,
            vision_cone_threshold: -700_000,
            separation_radius: 70,
            alien_avoid_separation_radius: 100,
            ship_search_radius: 200,
            separation: 10,
            alignment: 3,
            cohesion: 1,
            ship_search: 5,
            aarect_avoidance: 50,
        }
    }
}

/// What the surroundings ask of one alien: the sums over its neighbours and
/// over the obstacles near it.
#[derive(Clone, Copy, Debug, PartialEq, Eq, Structural)]
pub struct FlockAccumulator {
    /// The sum of the weighted unit vectors toward the neighbours, in fixed point.
    pub separation: WideVec2,
    /// The sum of the velocities of the neighbours.
    pub alignment: WideVec2,
    /// The sum of the vectors to the neighbours.
    pub cohesion: WideVec2,
    /// The sum of the weighted unit vectors toward the obstacles, in fixed point.
    pub avoidance: WideVec2,
}

impl FlockAccumulator {
    /// The sums over nothing.
    pub open spec fn spec_new() -> FlockAccumulator {
        FlockAccumulator {
            separation: WideVec2 { x: 0, y: 0 },
            alignment: WideVec2 { x: 0, y: 0 },
            cohesion: WideVec2 { x: 0, y: 0 },
            avoidance: WideVec2 { x: 0, y: 0 },
        }
    }

    /// The sums over nothing.
    pub fn new() -> (a: FlockAccumulator)
        ensures
            a == FlockAccumulator::spec_new(),
    {
        FlockAccumulator {
            separation: WideVec2::zero(),
            alignment: WideVec2::zero(),
            cohesion: WideVec2::zero(),
            avoidance: WideVec2::zero(),
        }
    }
}

/// The product of the components of two unit vectors, in fixed point squared.
pub open spec fn dot(a: WideVec2, b: WideVec2) -> int {
    a.x * b.x + a.y * b.y
}

/// The third component of the cross product of two plane vectors.
pub open spec fn cross(a: WideVec2, b: WideVec2) -> int {
    a.x * b.y - a.y * b.x
}

/// The direction lies in the vision cone around `forward`: neither vector is
/// zero, and the cosine of the angle between them exceeds the threshold.
pub open spec fn is_in_view(forward: Vec2, direction: WideVec2, threshold: int) -> bool {
    &&& !(forward.x == 0 && forward.y == 0)
    &&& !(direction.x == 0 && direction.y == 0)
    &&& dot(
        unit_vector(direction.x as int, direction.y as int),
        unit_vector(forward.x as int, forward.y as int),
    ) > threshold * ONE
}

/// The weight of something at `distance` that counts within `radius`: one at
/// distance zero, falling to zero at the radius and beyond. A radius of zero
/// gives no weight.
pub open spec fn falloff(distance: int, radius: int) -> int {
    let ratio = if radius == 0 {
        ONE as int
    } else {
        trunc_div(distance * ONE, radius)
    };
    ONE - clamp_spec(ratio, 0, ONE as int)
}

/// The weight of the ship at `distance` within `radius`: the inverse of the
/// distance as a part of the radius, that part taken as no less than a
/// millionth.
pub open spec fn attraction(distance: int, radius: int) -> int {
    let ratio = clamp_spec(trunc_div(distance * ONE, radius), 1, ONE as int);
    trunc_div(ONE * ONE, ratio)
}

/// The sums with one more neighbour, who is `distance` away in `direction`
/// and moves at `velocity`.
pub open spec fn with_neighbour(
    current: FlockAccumulator,
    direction: WideVec2,
    distance: int,
    velocity: Vec2,
    params: FlockParams,
) -> FlockAccumulator {
    FlockAccumulator {
        separation: current.separation.spec_saturating_add(
            unit_vector(direction.x as int, direction.y as int).spec_scale(
                falloff(distance, params.separation_radius as int),
            ),
        ),
        alignment: current.alignment.spec_saturating_add(
            WideVec2 { x: velocity.x as i64, y: velocity.y as i64 },
        ),
        cohesion: current.cohesion.spec_saturating_add(direction),
        avoidance: current.avoidance,
    }
}

/// The sums with one more obstacle, whose edge is `distance` away and whose
/// center lies in `direction`.
pub open spec fn with_obstacle(
    current: FlockAccumulator,
    direction: WideVec2,
    distance: int,
    params: FlockParams,
) -> FlockAccumulator {
    FlockAccumulator {
        avoidance: current.avoidance.spec_saturating_add(
            unit_vector(direction.x as int, direction.y as int).spec_scale(
                falloff(distance, params.alien_avoid_separation_radius as int),
            ),
        ),
        ..current
    }
}

/// The pull of the ship on an alien at `translation` that moves along
/// `forward`: toward the ship, where the ship is closer than the search
/// radius, which is decided on the squares, and in view; nothing otherwise.
pub open spec fn sought(
    ship: Option<Vec2>,
    translation: Vec2,
    forward: Vec2,
    params: FlockParams,
) -> WideVec2 {
    match ship {
        None => WideVec2 { x: 0, y: 0 },
        Some(s) => {
            let direction = translation.spec_to(s);
            let distance = ceil_sqrt(translation.spec_distance_squared(s));
            if params.ship_search_radius > 0 && translation.spec_distance_squared(s)
                < params.ship_search_radius * params.ship_search_radius && is_in_view(
                forward,
                direction,
                params.vision_cone_threshold as int,
            ) {
                unit_vector(direction.x as int, direction.y as int).spec_scale(
                    attraction(distance, params.ship_search_radius as int),
                )
            } else {
                WideVec2 { x: 0, y: 0 }
            }
        },
    }
}

/// The cross product of two unit vectors below which they count as parallel.
pub const TURN_DEADBAND: i64 = 100_000_000;

/// The direction in which a velocity points after one step of turning
/// toward the unit vector `target`: that of the velocity turned by the step,
/// to the side on which the target lies, or, where that turn would pass the
/// target, the target itself. Whether it would is decided on the turned
/// velocity as it is, before anything is rounded.
pub open spec fn turned_direction(target: WideVec2, forward: Vec2, step: Rotation, z: int) -> WideVec2 {
    let x = step.spec_raw_x(forward, z > 0);
    let y = step.spec_raw_y(forward, z > 0);
    let after = target.x * y - target.y * x;
    if (z > 0 && after < 0) || (z < 0 && after > 0) {
        target
    } else {
        unit_vector(saturate_spec(x), saturate_spec(y))
    }
}

/// The velocity `forward` after one step of turning toward `to_target`.
///
/// Nothing changes where the target is zero or the two are parallel within
/// the dead band. Otherwise the velocity is turned by the step, to the side
/// on which the target lies; where that passes the target, it is put along
/// the target. Either way it keeps its length, as nearly as whole numbers
/// allow. A result that cannot be held is not taken.
pub open spec fn turned(to_target: WideVec2, forward: Vec2, step: Rotation) -> Vec2 {
    let target = unit_vector(to_target.x as int, to_target.y as int);
    let z = cross(target, unit_vector(forward.x as int, forward.y as int));
    if (to_target.x == 0 && to_target.y == 0) || (-TURN_DEADBAND <= z <= TURN_DEADBAND) {
        forward
    } else {
        match turned_direction(target, forward, step, z).spec_with_length_of(forward) {
            Some(v) => v,
            None => forward,
        }
    }
}

/// Turning keeps the speed. The length of the velocity after a step differs
/// from the length before by less than one unit; and where the velocity
/// comes to lie along an axis and its length was a whole number `r`, the
/// length is kept exactly.
pub proof fn lemma_turned_keeps_length(to_target: WideVec2, forward: Vec2, step: Rotation, r: int)
    ensures
        roots_within_one(
            length_sq(
                turned(to_target, forward, step).x as int,
                turned(to_target, forward, step).y as int,
            ),
            length_sq(forward.x as int, forward.y as int),
        ),
        r >= 0 && r * r == length_sq(forward.x as int, forward.y as int) && (turned(
            to_target,
            forward,
            step,
        ).x == 0 || turned(to_target, forward, step).y == 0) ==> length_sq(
            turned(to_target, forward, step).x as int,
            turned(to_target, forward, step).y as int,
        ) == r * r,
{
    let n = length_sq(forward.x as int, forward.y as int);
    let v = turned(to_target, forward, step);
    lemma_square_nonneg(forward.x as int);
    lemma_square_nonneg(forward.y as int);
    if v == forward {
        assert(roots_within_one(n, n));
    } else {
        let target = unit_vector(to_target.x as int, to_target.y as int);
        let z = cross(target, unit_vector(forward.x as int, forward.y as int));
        let d = turned_direction(target, forward, step, z);
        lemma_directed_keeps_length(d, forward, r);
    }
}

/// The whole-number vector along a direction with the length of `v` has a
/// length within one unit of that of `v`, and the same length where it lies
/// along an axis and the length of `v` is a whole number `r`.
pub proof fn lemma_directed_keeps_length(d: WideVec2, v: Vec2, r: int)
    requires
        d.spec_with_length_of(v).is_some(),
    ensures
        roots_within_one(
            length_sq(
                d.spec_with_length_of(v).unwrap().x as int,
                d.spec_with_length_of(v).unwrap().y as int,
            ),
            length_sq(v.x as int, v.y as int),
        ),
        r >= 0 && r * r == length_sq(v.x as int, v.y as int) && (d.spec_with_length_of(
            v,
        ).unwrap().x == 0 || d.spec_with_length_of(v).unwrap().y == 0) ==> length_sq(
            d.spec_with_length_of(v).unwrap().x as int,
            d.spec_with_length_of(v).unwrap().y as int,
        ) == r * r,
{
    let n = length_sq(v.x as int, v.y as int);
    let w = d.spec_with_length_of(v).unwrap();
    lemma_square_nonneg(v.x as int);
    lemma_square_nonneg(v.y as int);
    let ax = if d.x >= 0 { d.x as int } else { -d.x };
    let ay = if d.y >= 0 { d.y as int } else { -d.y };
    let minor = if ax <= ay { minor_part(d.x as int, n) } else { minor_part(d.y as int, n) };
    let bound = floor_sqrt(n);
    lemma_floor_sqrt_exists(n);
    let size = if minor >= 0 { minor } else { -minor };
    lemma_square_le(size, bound);
    assert(minor * minor == size * size) by (nonlinear_arith)
        requires
            size == minor || size == -minor,
    ;
    lemma_rest_keeps_length(minor, n);
    let rest = round_sqrt(n - minor * minor);
    lemma_round_sqrt(n - minor * minor);
    assert(length_sq(w.x as int, w.y as int) == length_sq(minor, rest)) by {
        assert((-rest) * (-rest) == rest * rest) by (nonlinear_arith);
    }
    if r >= 0 && r * r == n && (w.x == 0 || w.y == 0) {
        if minor == 0 {
            assert(minor * minor == 0) by (nonlinear_arith)
                requires
                    minor == 0,
            ;
            assert(n - minor * minor == r * r);
            lemma_round_sqrt_exact(r);
            assert(length_sq(minor, rest) == r * r);
        } else {
            assert(rest == 0);
            assert(n - minor * minor == 0);
            assert(rest * rest == 0) by (nonlinear_arith)
                requires
                    rest == 0,
            ;
        }
    }
}

/// The product of two components of unit vectors is at most one.
pub proof fn lemma_unit_product(a: int, b: int)
    requires
        -ONE <= a <= ONE,
        -ONE <= b <= ONE,
    ensures
        -1_000_000_000_000 <= a * b <= 1_000_000_000_000,
{
    assert(-1_000_000_000_000 <= a * b <= 1_000_000_000_000) by (nonlinear_arith)
        requires
            -1_000_000 <= a <= 1_000_000,
            -1_000_000 <= b <= 1_000_000,
    ;
}

/// The dot product of two unit vectors.
fn unit_dot(a: WideVec2, b: WideVec2) -> (d: i128)
    requires
        -ONE <= a.x <= ONE && -ONE <= a.y <= ONE,
        -ONE <= b.x <= ONE && -ONE <= b.y <= ONE,
    ensures
        d == dot(a, b),
{
    proof {
        lemma_unit_product(a.x as int, b.x as int);
        lemma_unit_product(a.y as int, b.y as int);
    }
    a.x as i128 * b.x as i128 + a.y as i128 * b.y as i128
}

/// The cross product of two unit vectors.
fn unit_cross(a: WideVec2, b: WideVec2) -> (z: i128)
    requires
        -ONE <= a.x <= ONE && -ONE <= a.y <= ONE,
        -ONE <= b.x <= ONE && -ONE <= b.y <= ONE,
    ensures
        z == cross(a, b),
        -2_000_000_000_000 <= z <= 2_000_000_000_000,
{
    proof {
        lemma_unit_product(a.x as int, b.y as int);
        lemma_unit_product(a.y as int, b.x as int);
    }
    a.x as i128 * b.y as i128 - a.y as i128 * b.x as i128
}

/// Whether `direction` lies in the vision cone around `forward`.
pub fn in_view(forward: Vec2, direction: WideVec2, threshold: i64) -> (seen: bool)
    ensures
        seen == is_in_view(forward, direction, threshold as int),
{
    if (forward.x == 0 && forward.y == 0) || direction.is_zero() {
        return false;
    }
    let d: WideVec2 = direction.normalize_or_zero();
    let f: WideVec2 = forward.normalize();
    unit_dot(d, f) > threshold as i128 * 1_000_000
}

/// The weight of something at `distance` that counts within `radius`.
pub fn weight(distance: i64, radius: i32) -> (w: i64)
    ensures
        w == falloff(distance as int, radius as int),
        0 <= w <= ONE,
{
    if radius == 0 {
        return 0;
    }
    let ratio: i128 = div_toward_zero(distance as i128 * 1_000_000, radius as i128);
    ONE - clamp_i64(saturate(ratio), 0, ONE)
}

/// Adds a neighbour to the sums.
pub fn per_boid_calcs(
    current: &mut FlockAccumulator,
    direction: WideVec2,
    distance: i64,
    velocity: Vec2,
    params: &FlockParams,
)
    ensures
        *final(current) == with_neighbour(
            *old(current),
            direction,
            distance as int,
            velocity,
            *params,
        ),
{
    let separation: WideVec2 = direction.normalize_or_zero().scale(
        weight(distance, params.separation_radius),
    );
    let alignment: WideVec2 = velocity.widen();
    let cohesion: WideVec2 = direction;
    current.separation = current.separation.saturating_add(separation);
    current.alignment = current.alignment.saturating_add(alignment);
    current.cohesion = current.cohesion.saturating_add(cohesion);
}

/// Adds an obstacle to the sums.
pub fn per_alien_avoid_calcs(
    current: &mut FlockAccumulator,
    direction: WideVec2,
    distance: i64,
    params: &FlockParams,
)
    ensures
        *final(current) == with_obstacle(*old(current), direction, distance as int, *params),
{
    current.avoidance = current.avoidance.saturating_add(
        direction.normalize_or_zero().scale(
            weight(distance, params.alien_avoid_separation_radius),
        ),
    );
}

/// Whether the two points are closer to each other than `radius`.
fn closer_than(a: Vec2, b: Vec2, radius: i32) -> (closer: bool)
    ensures
        closer == (radius > 0 && a.spec_distance_squared(b) < radius * radius),
{
    if radius <= 0 {
        return false;
    }
    let r: u128 = radius as u128;
    proof {
        lemma_square_le(r as int, 0x8000_0000);
    }
    a.distance_squared(b) < r * r
}

/// The pull of the ship, if there is one, on an alien.
pub fn ship_search(
    ship: Option<Vec2>,
    alien_translation: Vec2,
    alien_forward: Vec2,
    params: &FlockParams,
) -> (pull: WideVec2)
    ensures
        pull == sought(ship, alien_translation, alien_forward, *params),
{
    match ship {
        None => WideVec2::zero(),
        Some(ship_translation) => {
            let direction: WideVec2 = alien_translation.to(ship_translation);
            let distance: i64 = alien_translation.distance(ship_translation);
            if closer_than(alien_translation, ship_translation, params.ship_search_radius)
                && in_view(alien_forward, direction, params.vision_cone_threshold) {
                let part: i128 = div_toward_zero(
                    distance as i128 * 1_000_000,
                    params.ship_search_radius as i128,
                );
                let ratio: i64 = clamp_i64(saturate(part), 1, ONE);
                let inverse: i64 = 1_000_000_000_000 / ratio;
                assert(inverse == attraction(distance as int, params.ship_search_radius as int));
                direction.normalize_or_zero().scale(inverse)
            } else {
                WideVec2::zero()
            }
        },
    }
}

/// Turns the velocity `forward` one step toward `to_target`, keeping its
/// length.
pub fn turn_towards(to_target: WideVec2, forward: &mut Vec2, step: Rotation)
    ensures
        *final(forward) == turned(to_target, *old(forward), step),
        roots_within_one(
            length_sq(final(forward).x as int, final(forward).y as int),
            length_sq(old(forward).x as int, old(forward).y as int),
        ),
{
    proof {
        lemma_turned_keeps_length(to_target, *forward, step, 0);
    }
    if to_target.is_zero() {
        return ;
    }
    let target: WideVec2 = to_target.normalize_or_zero();
    let z: i128 = unit_cross(target, forward.normalize());
    if -(TURN_DEADBAND as i128) <= z && z <= TURN_DEADBAND as i128 {
        return ;
    }
    let (x, y) = step.apply_raw(*forward, z > 0);
    proof {
        lemma_raw_product(target.x as int, y as int);
        lemma_raw_product(target.y as int, x as int);
    }
    let after: i128 = target.x as i128 * y - target.y as i128 * x;
    let direction: WideVec2 = if (z > 0 && after < 0) || (z < 0 && after > 0) {
        target
    } else {
        normalize(saturate(x), saturate(y))
    };
    match direction.with_length_of(*forward) {
        Some(turned) => {
            *forward = turned;
        },
        None => {},
    }
}

/// The product of a component of a unit vector and a turned coordinate stays
/// far inside what 128 bits hold.
proof fn lemma_raw_product(u: int, w: int)
    requires
        -ONE <= u <= ONE,
        -0x8000_0000_0000_0000 <= w <= 0x8000_0000_0000_0000,
    ensures
        -0x8000_0000_0000_0000 * 1_000_000 <= u * w <= 0x8000_0000_0000_0000 * 1_000_000,
{
    assert(-0x8000_0000_0000_0000 * 1_000_000 <= u * w <= 0x8000_0000_0000_0000 * 1_000_000)
        by (nonlinear_arith)
        requires
            -1_000_000 <= u <= 1_000_000,
            -0x8000_0000_0000_0000 <= w <= 0x8000_0000_0000_0000,
    ;
}

/// The sums and the verdict of an alien at `translation` that moves along
/// `forward`, after it has noticed the object `other`; the verdict says that
/// the alien stands inside an obstacle and must go.
///
/// Another alien that is no farther than the radius and in view is a
/// neighbour. An obstacle that contains the alien condemns it; one whose
/// edge is no farther than the avoidance radius, and whose center is in
/// view, is steered around. Everything else goes unnoticed.
pub open spec fn noticed(
    table: Seq<Option<Row>>,
    params: FlockParams,
    translation: Vec2,
    forward: Vec2,
    state: (FlockAccumulator, bool),
    other: Entity,
) -> (FlockAccumulator, bool) {
    match lookup(table, other) {
        None => state,
        Some(c) => {
            let direction = translation.spec_to(c.translation);
            if c.alien && c.velocity.is_some() {
                let distance = ceil_sqrt(translation.spec_distance_squared(c.translation));
                if distance <= params.radius && is_in_view(
                    forward,
                    direction,
                    params.vision_cone_threshold as int,
                ) {
                    (
                        with_neighbour(
                            state.0,
                            direction,
                            distance,
                            c.velocity.unwrap().0,
                            params,
                        ),
                        state.1,
                    )
                } else {
                    state
                }
            } else {
                match c.alien_avoid {
                    None => state,
                    Some(avoid) => {
                        let distance = rect_signed_distance(
                            avoid.half_size,
                            translation,
                            c.translation,
                        );
                        if distance < 0 {
                            (state.0, true)
                        } else if distance <= params.alien_avoid_separation_radius && is_in_view(
                            forward,
                            direction,
                            params.vision_cone_threshold as int,
                        ) {
                            (with_obstacle(state.0, direction, distance, params), state.1)
                        } else {
                            state
                        }
                    },
                }
            }
        },
    }
}

/// The sums and the verdict after the candidates have been noticed in order.
pub open spec fn surveyed(
    table: Seq<Option<Row>>,
    params: FlockParams,
    translation: Vec2,
    forward: Vec2,
    candidates: Seq<Entity>,
) -> (FlockAccumulator, bool)
    decreases candidates.len(),
{
    if candidates.len() == 0 {
        (FlockAccumulator::spec_new(), false)
    } else {
        noticed(
            table,
            params,
            translation,
            forward,
            surveyed(table, params, translation, forward, candidates.drop_last()),
            candidates.last(),
        )
    }
}

/// The square in which an alien at `translation` looks around.
pub open spec fn sight(translation: Vec2, params: FlockParams) -> AABB {
    AABB { center: translation, half_dimension: params.radius as i64 }
}

/// Lets one alien look around: the sums over the neighbours and obstacles
/// that the quadtree yields around it, and whether it stands inside an
/// obstacle.
pub fn boid_task(
    quad_tree: &QuadTree,
    entities: &Entities,
    translation: Vec2,
    forward: Vec2,
    params: &FlockParams,
) -> (r: (FlockAccumulator, bool))
    ensures
        r == surveyed(
            entities@,
            *params,
            translation,
            forward,
            quad_tree@.query(sight(translation, *params)),
        ),
{
    let candidates: Vec<Entity> = quad_tree.query_range(
        &AABB::new(translation, params.radius as i64),
    );
    let mut sums: FlockAccumulator = FlockAccumulator::new();
    let mut inside: bool = false;
    let mut i: usize = 0;
    while i < candidates.len()
        invariant
            i <= candidates.len(),
            (sums, inside) == surveyed(
                entities@,
                *params,
                translation,
                forward,
                candidates@.take(i as int),
            ),
        decreases candidates.len() - i,
    {
        proof {
            assert(candidates@.take(i + 1).drop_last() == candidates@.take(i as int));
        }
        match entities.get(candidates[i]) {
            None => {},
            Some(c) => {
                let direction: WideVec2 = translation.to(c.translation);
                match (c.alien, c.velocity, c.alien_avoid) {
                    (true, Some(velocity), _) => {
                        let distance: i64 = translation.distance(c.translation);
                        if distance <= params.radius as i64 && in_view(
                            forward,
                            direction,
                            params.vision_cone_threshold,
                        ) {
                            per_boid_calcs(&mut sums, direction, distance, velocity.0, params);
                        }
                    },
                    (_, _, Some(avoid)) => {
                        let distance: i64 = avoid.dist(translation, c.translation);
                        if distance < 0 {
                            inside = true;
                        } else if distance <= params.alien_avoid_separation_radius as i64
                            && in_view(forward, direction, params.vision_cone_threshold) {
                            per_alien_avoid_calcs(&mut sums, direction, distance, params);
                        }
                    },
                    _ => {},
                }
            },
        }
        i += 1;
    }
    proof {
        assert(candidates@.take(i as int) == candidates@);
    }
    (sums, inside)
}

/// The positions of the ships in the first `count` slots of the table.
pub open spec fn ships(table: Seq<Option<Row>>, count: int) -> Seq<Vec2>
    decreases count,
{
    if count <= 0 {
        Seq::empty()
    } else {
        let rest = ships(table, count - 1);
        match table[count - 1] {
            Some(row) => if row.components.ship {
                rest.push(row.components.translation)
            } else {
                rest
            },
            None => rest,
        }
    }
}

/// The position of the ship, where the table holds exactly one.
pub open spec fn single_ship(table: Seq<Option<Row>>) -> Option<Vec2> {
    let found = ships(table, table.len() as int);
    if found.len() == 1 {
        Some(found[0])
    } else {
        None
    }
}

/// The direction an alien wants to take, in fixed point: the weighted sum of
/// the unit vectors of alignment, cohesion and the pull of the ship, less
/// those of separation and the sum over the obstacles. Each component is
/// limited to what it can hold.
pub open spec fn turn_target(sums: FlockAccumulator, pull: WideVec2, params: FlockParams) -> WideVec2 {
    let separation = unit_vector(sums.separation.x as int, sums.separation.y as int);
    let alignment = unit_vector(sums.alignment.x as int, sums.alignment.y as int);
    let cohesion = unit_vector(sums.cohesion.x as int, sums.cohesion.y as int);
    let search = unit_vector(pull.x as int, pull.y as int);
    WideVec2 {
        x: saturate_spec(
            -params.separation * separation.x + params.alignment * alignment.x + params.cohesion
                * cohesion.x - params.aarect_avoidance * sums.avoidance.x + params.ship_search
                * search.x,
        ) as i64,
        y: saturate_spec(
            -params.separation * separation.y + params.alignment * alignment.y + params.cohesion
                * cohesion.y - params.aarect_avoidance * sums.avoidance.y + params.ship_search
                * search.y,
        ) as i64,
    }
}

/// The direction an alien wants to take.
pub fn desired_heading(sums: &FlockAccumulator, pull: WideVec2, params: &FlockParams) -> (target:
    WideVec2)
    ensures
        target == turn_target(*sums, pull, *params),
{
    let separation: WideVec2 = sums.separation.normalize_or_zero();
    let alignment: WideVec2 = sums.alignment.normalize_or_zero();
    let cohesion: WideVec2 = sums.cohesion.normalize_or_zero();
    let search: WideVec2 = pull.normalize_or_zero();
    let x: i128 = weighted(-(params.separation as i64), separation.x) + weighted(
        params.alignment as i64,
        alignment.x,
    ) + weighted(params.cohesion as i64, cohesion.x) - weighted(
        params.aarect_avoidance as i64,
        sums.avoidance.x,
    ) + weighted(params.ship_search as i64, search.x);
    let y: i128 = weighted(-(params.separation as i64), separation.y) + weighted(
        params.alignment as i64,
        alignment.y,
    ) + weighted(params.cohesion as i64, cohesion.y) - weighted(
        params.aarect_avoidance as i64,
        sums.avoidance.y,
    ) + weighted(params.ship_search as i64, search.y);
    assert(-(params.separation as i64) * separation.x == -params.separation * separation.x)
        by (nonlinear_arith);
    assert(-(params.separation as i64) * separation.y == -params.separation * separation.y)
        by (nonlinear_arith);
    WideVec2 { x: saturate(x), y: saturate(y) }
}

/// The product of a weight and a component.
fn weighted(w: i64, c: i64) -> (p: i128)
    requires
        -0x8000_0000 <= w <= 0x8000_0000,
    ensures
        p == w * c,
        -0x4000_0000_0000_0000_0000_0000 <= p <= 0x4000_0000_0000_0000_0000_0000,
{
    assert(-0x4000_0000_0000_0000_0000_0000 <= w * c <= 0x4000_0000_0000_0000_0000_0000)
        by (nonlinear_arith)
        requires
            -0x8000_0000 <= w <= 0x8000_0000,
            -0x8000_0000_0000_0000 <= c <= 0x8000_0000_0000_0000,
    ;
    w as i128 * c as i128
}

/// What an object carries after the flock has been simulated for one step:
/// an alien with a velocity has turned toward what its surroundings and the
/// ship ask of it; everything else is as before.
pub open spec fn steered(
    table: Seq<Option<Row>>,
    tree: TreeModel,
    params: FlockParams,
    step: Rotation,
    c: Components,
) -> Components {
    if c.alien && c.velocity.is_some() {
        let forward = c.velocity.unwrap().0;
        let survey = surveyed(
            table,
            params,
            c.translation,
            forward,
            tree.query(sight(c.translation, params)),
        );
        let pull = sought(single_ship(table), c.translation, forward, params);
        Components {
            velocity: Some(Velocity(turned(turn_target(survey.0, pull, params), forward, step))),
            ..c
        }
    } else {
        c
    }
}

/// The flock step changes headings, not speeds or places: every object stays
/// where it is, an object that is no alien stays as it is, and the velocity
/// of an alien keeps its length to within one unit.
pub proof fn lemma_steered_keeps_speed(
    table: Seq<Option<Row>>,
    tree: TreeModel,
    params: FlockParams,
    step: Rotation,
    c: Components,
)
    ensures
        steered(table, tree, params, step, c).translation == c.translation,
        !(c.alien && c.velocity.is_some()) ==> steered(table, tree, params, step, c) == c,
        c.alien && c.velocity.is_some() ==> steered(table, tree, params, step, c).velocity.is_some()
            && roots_within_one(
            length_sq(
                steered(table, tree, params, step, c).velocity.unwrap().0.x as int,
                steered(table, tree, params, step, c).velocity.unwrap().0.y as int,
            ),
            length_sq(c.velocity.unwrap().0.x as int, c.velocity.unwrap().0.y as int),
        ),
{
    if c.alien && c.velocity.is_some() {
        let forward = c.velocity.unwrap().0;
        let survey = surveyed(
            table,
            params,
            c.translation,
            forward,
            tree.query(sight(c.translation, params)),
        );
        let pull = sought(single_ship(table), c.translation, forward, params);
        lemma_turned_keeps_length(turn_target(survey.0, pull, params), forward, step, 0);
    }
}

/// An alien that nothing asks anything of does not turn: where the sums are
/// those over nothing and the ship does not pull, the desired heading is
/// zero and the velocity stays as it is.
pub proof fn lemma_nothing_around_no_turn(params: FlockParams, forward: Vec2, step: Rotation)
    ensures
        turn_target(FlockAccumulator::spec_new(), WideVec2 { x: 0, y: 0 }, params) == (WideVec2 {
            x: 0,
            y: 0,
        }),
        turned(
            turn_target(FlockAccumulator::spec_new(), WideVec2 { x: 0, y: 0 }, params),
            forward,
            step,
        ) == forward,
{
    let zero = unit_vector(0, 0);
    assert(length_sq(0, 0) == 0) by (nonlinear_arith)
        requires
            length_sq(0, 0) == 0 * 0 + 0 * 0,
    ;
    assert(zero == WideVec2 { x: 0, y: 0 });
    assert(-params.separation * 0 == 0 && params.alignment * 0 == 0 && params.cohesion * 0 == 0
        && params.aarect_avoidance * 0 == 0 && params.ship_search * 0 == 0) by (nonlinear_arith);
}

/// The object is an alien with a velocity that stands inside an obstacle.
pub open spec fn condemned(
    table: Seq<Option<Row>>,
    tree: TreeModel,
    params: FlockParams,
    c: Components,
) -> bool {
    c.alien && c.velocity.is_some() && surveyed(
        table,
        params,
        c.translation,
        c.velocity.unwrap().0,
        tree.query(sight(c.translation, params)),
    ).1
}

/// The handles of the condemned aliens in the first `count` slots.
pub open spec fn despawn_requests(
    table: Seq<Option<Row>>,
    tree: TreeModel,
    params: FlockParams,
    count: int,
) -> Seq<Entity>
    decreases count,
{
    if count <= 0 {
        Seq::empty()
    } else {
        let rest = despawn_requests(table, tree, params, count - 1);
        match table[count - 1] {
            Some(row) => if condemned(table, tree, params, row.components) {
                rest.push(row.entity)
            } else {
                rest
            },
            None => rest,
        }
    }
}

/// The position of the ship, where the table holds exactly one.
pub fn find_ship(entities: &Entities) -> (ship: Option<Vec2>)
    ensures
        ship == single_ship(entities@),
{
    let mut found: Vec<Vec2> = Vec::new();
    let mut i: usize = 0;
    while i < entities.len()
        invariant
            i <= entities@.len(),
            found@ == ships(entities@, i as int),
        decreases entities@.len() - i,
    {
        match entities.row(i) {
            Some(row) => {
                if row.components.ship {
                    found.push(row.components.translation);
                }
            },
            None => {},
        }
        i += 1;
    }
    if found.len() == 1 {
        Some(found[0])
    } else {
        None
    }
}

/// Simulates the flock for one step. Every alien looks around in the table
/// as it stands at the start; then every alien turns its velocity by `step`
/// at most toward its desired heading. The answer names, in the order of the
/// slots, the aliens that stand inside an obstacle and are to be removed; the
/// table still holds them.
pub fn simulate_boids(
    entities: &mut Entities,
    quad_tree: &QuadTree,
    step: Rotation,
    params: &FlockParams,
) -> (despawn: Vec<Entity>)
    requires
        old(entities).wf(),
    ensures
        final(entities).wf(),
        final(entities)@ == table_after(
            old(entities)@,
            |c: Components| steered(old(entities)@, quad_tree@, *params, step, c),
        ),
        despawn@ == despawn_requests(
            old(entities)@,
            quad_tree@,
            *params,
            old(entities)@.len() as int,
        ),
{
    let n: usize = entities.len();
    let ship: Option<Vec2> = find_ship(entities);
    let mut planned: Vec<Option<Components>> = Vec::new();
    let mut despawn: Vec<Entity> = Vec::new();
    let mut i: usize = 0;
    while i < n
        invariant
            i <= n,
            n == entities@.len(),
            entities@ == old(entities)@,
            ship == single_ship(entities@),
            planned@.len() == i,
            forall|k: int|
                0 <= k < i ==> (#[trigger] planned@[k]) == (match entities@[k] {
                    Some(row) => Some(steered(entities@, quad_tree@, *params, step, row.components)),
                    None => None,
                }),
            despawn@ == despawn_requests(entities@, quad_tree@, *params, i as int),
        decreases n - i,
    {
        match entities.row(i) {
            None => {
                planned.push(None);
            },
            Some(row) => {
                let c: Components = row.components;
                match (c.alien, c.velocity) {
                    (true, Some(velocity)) => {
                        let (sums, inside) = boid_task(
                            quad_tree,
                            entities,
                            c.translation,
                            velocity.0,
                            params,
                        );
                        if inside {
                            despawn.push(row.entity);
                        }
                        let pull: WideVec2 = ship_search(ship, c.translation, velocity.0, params);
                        let target: WideVec2 = desired_heading(&sums, pull, params);
                        let mut forward: Vec2 = velocity.0;
                        turn_towards(target, &mut forward, step);
                        let mut after: Components = c;
                        after.velocity = Some(Velocity(forward));
                        planned.push(Some(after));
                    },
                    _ => {
                        planned.push(Some(c));
                    },
                }
            },
        }
        i += 1;
    }
    let mut j: usize = 0;
    while j < n
        invariant
            j <= n,
            n == entities@.len(),
            n == old(entities)@.len(),
            n == planned@.len(),
            entities.wf(),
            forall|k: int|
                0 <= k < n ==> (#[trigger] planned@[k]) == (match old(entities)@[k] {
                    Some(row) => Some(
                        steered(old(entities)@, quad_tree@, *params, step, row.components),
                    ),
                    None => None,
                }),
            forall|k: int|
                0 <= k < j ==> (#[trigger] entities@[k]) == row_after(
                    old(entities)@[k],
                    |c: Components| steered(old(entities)@, quad_tree@, *params, step, c),
                ),
            forall|k: int| j <= k < n ==> (#[trigger] entities@[k]) == old(entities)@[k],
        decreases n - j,
    {
        match planned[j] {
            Some(after) => {
                assert(old(entities)@[j as int].is_some());
                entities.set_components(j, after);
            },
            None => {},
        }
        j += 1;
    }
    despawn
}

/// An alien that has left the field on one side after it has been put back
/// on the other: beyond `bound` it goes to zero, below zero to `bound`, on
/// each axis. Everything else stays where it is.
pub open spec fn wrapped(c: Components, bound: int) -> Components {
    if c.alien {
        Components {
            translation: Vec2 {
                x: wrapped_coordinate(c.translation.x as int, bound) as i32,
                y: wrapped_coordinate(c.translation.y as int, bound) as i32,
            },
            ..c
        }
    } else {
        c
    }
}

/// One coordinate put back into the field.
pub open spec fn wrapped_coordinate(x: int, bound: int) -> int {
    if x > bound {
        0
    } else if x < 0 {
        bound
    } else {
        x
    }
}

/// One coordinate put back into the field.
fn wrap(x: i32, bound: i32) -> (w: i32)
    ensures
        w == wrapped_coordinate(x as int, bound as int),
{
    if x > bound {
        0
    } else if x < 0 {
        bound
    } else {
        x
    }
}

/// Puts the aliens that have left the field, which reaches from zero to
/// `bound` on each axis, back on the other side.
pub fn check_bounds(entities: &mut Entities, bound: i32)
    requires
        old(entities).wf(),
    ensures
        final(entities).wf(),
        final(entities)@ == table_after(
            old(entities)@,
            |c: Components| wrapped(c, bound as int),
        ),
{
    let n: usize = entities.len();
    let mut i: usize = 0;
    while i < n
        invariant
            i <= n,
            n == entities@.len(),
            n == old(entities)@.len(),
            entities.wf(),
            forall|k: int|
                0 <= k < i ==> (#[trigger] entities@[k]) == row_after(
                    old(entities)@[k],
                    |c: Components| wrapped(c, bound as int),
                ),
            forall|k: int| i <= k < n ==> (#[trigger] entities@[k]) == old(entities)@[k],
        decreases n - i,
    {
        match entities.row(i) {
            Some(row) => {
                let mut c: Components = row.components;
                if c.alien {
                    c.translation = Vec2 {
                        x: wrap(c.translation.x, bound),
                        y: wrap(c.translation.y, bound),
                    };
                }
                entities.set_components(i, c);
            },
            None => {},
        }
        i += 1;
    }
}

/// An alien with a velocity other than zero after it has been made to face
/// the way it moves. Everything else faces as before.
pub open spec fn pointed(c: Components) -> Components {
    if c.alien && c.velocity.is_some() && !(c.velocity.unwrap().0.x == 0 && c.velocity.unwrap().0.y
        == 0) {
        let v = c.velocity.unwrap().0;
        let u = unit_vector(v.x as int, v.y as int);
        Components { rotation: Rotation { cos: u.x as i32, sin: u.y as i32 }, ..c }
    } else {
        c
    }
}

/// Makes every alien face the way it moves.
pub fn point_to_velocity(entities: &mut Entities)
    requires
        old(entities).wf(),
    ensures
        final(entities).wf(),
        final(entities)@ == table_after(
            old(entities)@,
            |c: Components| pointed(c),
        ),
{
    let n: usize = entities.len();
    let mut i: usize = 0;
    while i < n
        invariant
            i <= n,
            n == entities@.len(),
            n == old(entities)@.len(),
            entities.wf(),
            forall|k: int|
                0 <= k < i ==> (#[trigger] entities@[k]) == row_after(
                    old(entities)@[k],
                    |c: Components| pointed(c),
                ),
            forall|k: int| i <= k < n ==> (#[trigger] entities@[k]) == old(entities)@[k],
        decreases n - i,
    {
        match entities.row(i) {
            Some(row) => {
                let mut c: Components = row.components;
                match (c.alien, c.velocity) {
                    (true, Some(velocity)) => {
                        if !(velocity.0.x == 0 && velocity.0.y == 0) {
                            let u: WideVec2 = velocity.0.normalize();
                            c.rotation = Rotation { cos: u.x as i32, sin: u.y as i32 };
                        }
                    },
                    _ => {},
                }
                entities.set_components(i, c);
            },
            None => {},
        }
        i += 1;
    }
}

} // verus!
