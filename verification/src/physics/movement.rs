//! Motion at a fixed time step, and impulses.
//!
//! Time steps are counted in millionths of a second, velocities in units per
//! second, accelerations in units per second squared. Every quotient is
//! rounded toward zero.

use vstd::prelude::*;
use crate::entities::{lookup, row_after, table_after, Components, Entities, Row};
use crate::entity::Entity;
use crate::fixed::{div_toward_zero, lemma_product_bound_i32, trunc_div, ONE};
use crate::physics::components::Velocity;
use crate::vec2::{Vec2, WideVec2};

verus! {

/// Whether both numbers can be coordinates.
pub open spec fn nameable(x: int, y: int) -> bool {
    i32::MIN <= x <= i32::MAX && i32::MIN <= y <= i32::MAX
}

/// The acceleration of the object in the frame of the world: a local one is
/// turned by the way the object faces.
pub open spec fn world_acceleration(c: Components) -> (int, int) {
    let a = c.acceleration.unwrap();
    if a.local {
        (c.rotation.spec_x(a.value, false), c.rotation.spec_y(a.value, false))
    } else {
        (a.value.x as int, a.value.y as int)
    }
}

/// The way made in a time step `dt` at velocity `v` under acceleration `a`,
/// along one axis: `v * dt + a * dt * dt / 2`.
pub open spec fn displacement(v: int, a: int, dt: int) -> int {
    trunc_div(2 * ONE * v * dt + a * dt * dt, 2 * ONE * ONE)
}

/// The change of velocity in a time step `dt` under acceleration `a`.
pub open spec fn velocity_gain(a: int, dt: int) -> int {
    trunc_div(a * dt, ONE as int)
}

/// An object that takes part in the physics and carries a velocity and an
/// acceleration after a time step: it has moved by the displacement that its
/// velocity before the step and its acceleration give, and then gained
/// velocity. Where the new position or the new velocity cannot be held, and
/// for every other object, nothing changes.
pub open spec fn accelerated(c: Components, dt: int) -> Components {
    if c.physics.is_some() && c.velocity.is_some() && c.acceleration.is_some() {
        let v = c.velocity.unwrap().0;
        let a = world_acceleration(c);
        let x = c.translation.x + displacement(v.x as int, a.0, dt);
        let y = c.translation.y + displacement(v.y as int, a.1, dt);
        let vx = v.x + velocity_gain(a.0, dt);
        let vy = v.y + velocity_gain(a.1, dt);
        if nameable(x, y) && nameable(vx, vy) {
            Components {
                translation: Vec2 { x: x as i32, y: y as i32 },
                velocity: Some(Velocity(Vec2 { x: vx as i32, y: vy as i32 })),
                ..c
            }
        } else {
            c
        }
    } else {
        c
    }
}

/// An object that takes part in the physics and carries a velocity but no
/// acceleration after a time step: it has moved by `v * dt`. Where the new
/// position cannot be named, and for every other object, nothing changes.
pub open spec fn drifted(c: Components, dt: int) -> Components {
    if c.physics.is_some() && c.velocity.is_some() && c.acceleration.is_none() {
        let v = c.velocity.unwrap().0;
        let x = c.translation.x + trunc_div(v.x * dt, ONE as int);
        let y = c.translation.y + trunc_div(v.y * dt, ONE as int);
        if nameable(x, y) {
            Components { translation: Vec2 { x: x as i32, y: y as i32 }, ..c }
        } else {
            c
        }
    } else {
        c
    }
}

/// The table after every object has been moved under its acceleration.
pub open spec fn accelerated_all(table: Seq<Option<Row>>, dt: int) -> Seq<Option<Row>> {
    table_after(table, |c: Components| accelerated(c, dt))
}

/// The table after every object without acceleration has been moved.
pub open spec fn drifted_all(table: Seq<Option<Row>>, dt: int) -> Seq<Option<Row>> {
    table_after(table, |c: Components| drifted(c, dt))
}

/// One accelerated object after a time step.
pub fn accelerate(c: Components, delta_micros: u32) -> (after: Components)
    ensures
        after == accelerated(c, delta_micros as int),
{
    let (velocity, acceleration) = match (c.physics, c.velocity, c.acceleration) {
        (Some(_), Some(velocity), Some(acceleration)) => (velocity.0, acceleration),
        _ => {
            return c;
        },
    };
    let a: WideVec2 = if acceleration.local {
        c.rotation.apply(acceleration.value, false)
    } else {
        acceleration.value.widen()
    };
    let dt: i128 = delta_micros as i128;
    let ax: i128 = a.x as i128;
    let ay: i128 = a.y as i128;
    let vx: i128 = velocity.x as i128;
    let vy: i128 = velocity.y as i128;
    proof {
        lemma_step_bounds(vx as int, ax as int, dt as int);
        lemma_step_bounds(vy as int, ay as int, dt as int);
        assert(2 * ONE * ONE == 2_000_000_000_000);
    }
    let sx: i128 = (2_000_000 * vx * dt + ax * dt * dt) / 2_000_000_000_000;
    let sy: i128 = (2_000_000 * vy * dt + ay * dt * dt) / 2_000_000_000_000;
    let gx: i128 = (ax * dt) / 1_000_000;
    let gy: i128 = (ay * dt) / 1_000_000;
    let moved = Vec2::from_wide(c.translation.x as i128 + sx, c.translation.y as i128 + sy);
    let faster = Vec2::from_wide(vx + gx, vy + gy);
    match (moved, faster) {
        (Some(translation), Some(v)) => {
            let mut after: Components = c;
            after.translation = translation;
            after.velocity = Some(Velocity(v));
            after
        },
        _ => c,
    }
}

/// The products of one step of motion stay far inside what 128 bits hold.
pub proof fn lemma_step_bounds(v: int, a: int, dt: int)
    requires
        -0x8000_0000 <= v <= 0x8000_0000,
        -0x8000_0000_0000 <= a <= 0x8000_0000_0000,
        0 <= dt <= 0x1_0000_0000,
    ensures
        -0x8000_0000_0000_0000_0000 <= a * dt <= 0x8000_0000_0000_0000_0000,
        -0x8000_0000_0000_0000_0000_0000_0000 <= a * dt * dt
            <= 0x8000_0000_0000_0000_0000_0000_0000,
        -0x8000_0000_0000_0000 <= v * dt <= 0x8000_0000_0000_0000,
        2_000_000 * v * dt == 2 * ONE * v * dt,
        -0x8000_0000_0000_0000 * 2_000_000 <= 2_000_000 * v * dt <= 0x8000_0000_0000_0000
            * 2_000_000,
{
    assert(-0x8000_0000_0000_0000_0000 <= a * dt <= 0x8000_0000_0000_0000_0000)
        by (nonlinear_arith)
        requires
            -0x8000_0000_0000 <= a <= 0x8000_0000_0000,
            0 <= dt <= 0x1_0000_0000,
    ;
    let b = a * dt;
    assert(-0x8000_0000_0000_0000_0000_0000_0000 <= b * dt <= 0x8000_0000_0000_0000_0000_0000_0000)
        by (nonlinear_arith)
        requires
            -0x8000_0000_0000_0000_0000 <= b <= 0x8000_0000_0000_0000_0000,
            0 <= dt <= 0x1_0000_0000,
    ;
    assert(-0x8000_0000_0000_0000 <= v * dt <= 0x8000_0000_0000_0000) by (nonlinear_arith)
        requires
            -0x8000_0000 <= v <= 0x8000_0000,
            0 <= dt <= 0x1_0000_0000,
    ;
    assert(2_000_000 * v * dt == 2_000_000 * (v * dt)) by (nonlinear_arith);
    assert(2 * ONE * v * dt == 2_000_000 * (v * dt)) by (nonlinear_arith)
        requires
            ONE == 1_000_000,
    ;
}

/// One unaccelerated object after a time step.
pub fn drift(c: Components, delta_micros: u32) -> (after: Components)
    ensures
        after == drifted(c, delta_micros as int),
{
    let velocity = match (c.physics, c.velocity, c.acceleration) {
        (Some(_), Some(velocity), None) => velocity.0,
        _ => {
            return c;
        },
    };
    let dt: i128 = delta_micros as i128;
    let vx: i128 = velocity.x as i128;
    let vy: i128 = velocity.y as i128;
    proof {
        lemma_step_bounds(vx as int, 0, dt as int);
        lemma_step_bounds(vy as int, 0, dt as int);
    }
    let sx: i128 = (vx * dt) / 1_000_000;
    let sy: i128 = (vy * dt) / 1_000_000;
    match Vec2::from_wide(c.translation.x as i128 + sx, c.translation.y as i128 + sy) {
        Some(translation) => {
            let mut after: Components = c;
            after.translation = translation;
            after
        },
        None => c,
    }
}

/// Moves every object that takes part in the physics and carries a velocity
/// and an acceleration through a time step of `delta_micros` millionths of a
/// second.
pub fn acceleration_physics_update(entities: &mut Entities, delta_micros: u32)
    requires
        old(entities).wf(),
    ensures
        final(entities).wf(),
        final(entities)@ == accelerated_all(old(entities)@, delta_micros as int),
{
    let n: usize = entities.len();
    let mut i: usize = 0;
    while i < n
        invariant
            i <= n,
            n == entities@.len(),
            n == old(entities)@.len(),
            entities.wf(),
            forall|k: int|
                0 <= k < i ==> (#[trigger] entities@[k]) == row_after(
                    old(entities)@[k],
                    |c: Components| accelerated(c, delta_micros as int),
                ),
            forall|k: int| i <= k < n ==> (#[trigger] entities@[k]) == old(entities)@[k],
        decreases n - i,
    {
        match entities.row(i) {
            Some(row) => {
                let after: Components = accelerate(row.components, delta_micros);
                entities.set_components(i, after);
            },
            None => {},
        }
        i += 1;
    }
}

/// Moves every object that takes part in the physics and carries a velocity
/// but no acceleration through a time step of `delta_micros` millionths of a
/// second.
pub fn velocity_physics_update(entities: &mut Entities, delta_micros: u32)
    requires
        old(entities).wf(),
    ensures
        final(entities).wf(),
        final(entities)@ == drifted_all(old(entities)@, delta_micros as int),
{
    let n: usize = entities.len();
    let mut i: usize = 0;
    while i < n
        invariant
            i <= n,
            n == entities@.len(),
            n == old(entities)@.len(),
            entities.wf(),
            forall|k: int|
                0 <= k < i ==> (#[trigger] entities@[k]) == row_after(
                    old(entities)@[k],
                    |c: Components| drifted(c, delta_micros as int),
                ),
            forall|k: int| i <= k < n ==> (#[trigger] entities@[k]) == old(entities)@[k],
        decreases n - i,
    {
        match entities.row(i) {
            Some(row) => {
                let after: Components = drift(row.components, delta_micros);
                entities.set_components(i, after);
            },
            None => {},
        }
        i += 1;
    }
}

/// A request to change the velocity of an object at once. `value` is the
/// change in velocity times the mass that was named with it; the object that
/// receives it divides by its own mass.
#[derive(Clone, Copy, Debug, PartialEq, Eq, Structural)]
pub struct AddImpulseEvent {
    pub value: WideVec2,
    pub entity: Entity,
}

impl AddImpulseEvent {
    /// The impulse that would change the velocity of a body of mass `mass`
    /// by `change_in_velocity`, addressed to `apply_to_entity`.
    pub fn new(change_in_velocity: Vec2, mass: i32, apply_to_entity: Entity) -> (event:
        AddImpulseEvent)
        ensures
            event.value.x == change_in_velocity.x * mass,
            event.value.y == change_in_velocity.y * mass,
            event.entity == apply_to_entity,
    {
        proof {
            lemma_product_bound_i32(change_in_velocity.x as int, mass as int);
            lemma_product_bound_i32(change_in_velocity.y as int, mass as int);
        }
        AddImpulseEvent {
            value: WideVec2 {
                x: change_in_velocity.x as i64 * mass as i64,
                y: change_in_velocity.y as i64 * mass as i64,
            },
            entity: apply_to_entity,
        }
    }
}

/// What the object carries after it has received the impulse: its velocity
/// has grown by the value divided by its mass. An object without mass,
/// without velocity or outside the physics, one of mass zero, and one whose
/// new velocity cannot be held, is left as it is.
pub open spec fn pushed(c: Components, value: WideVec2) -> Components {
    if c.physics.is_some() && c.velocity.is_some() && c.mass.is_some() && c.mass.unwrap().0 != 0 {
        let v = c.velocity.unwrap().0;
        let m = c.mass.unwrap().0 as int;
        let x = v.x + trunc_div(value.x as int, m);
        let y = v.y + trunc_div(value.y as int, m);
        if nameable(x, y) {
            Components { velocity: Some(Velocity(Vec2 { x: x as i32, y: y as i32 })), ..c }
        } else {
            c
        }
    } else {
        c
    }
}

/// The table after one impulse has been applied; an impulse for an object
/// that the table does not hold changes nothing.
pub open spec fn impulse_applied(table: Seq<Option<Row>>, event: AddImpulseEvent) -> Seq<
    Option<Row>,
> {
    match lookup(table, event.entity) {
        Some(c) => table.update(
            event.entity.index as int,
            Some(Row { entity: event.entity, components: pushed(c, event.value) }),
        ),
        None => table,
    }
}

/// The table after the impulses have been applied in order.
pub open spec fn impulses_applied(table: Seq<Option<Row>>, events: Seq<AddImpulseEvent>) -> Seq<
    Option<Row>,
>
    decreases events.len(),
{
    if events.len() == 0 {
        table
    } else {
        impulse_applied(impulses_applied(table, events.drop_last()), events.last())
    }
}

/// One object after it has received an impulse.
pub fn push(c: Components, value: WideVec2) -> (after: Components)
    ensures
        after == pushed(c, value),
{
    let (velocity, mass) = match (c.physics, c.velocity, c.mass) {
        (Some(_), Some(velocity), Some(mass)) => (velocity.0, mass.0),
        _ => {
            return c;
        },
    };
    if mass == 0 {
        return c;
    }
    let gx: i128 = div_toward_zero(value.x as i128, mass as i128);
    let gy: i128 = div_toward_zero(value.y as i128, mass as i128);
    proof {
        lemma_quotient_no_larger(value.x as int, mass as int);
        lemma_quotient_no_larger(value.y as int, mass as int);
    }
    match Vec2::from_wide(velocity.x as i128 + gx, velocity.y as i128 + gy) {
        Some(v) => {
            let mut after: Components = c;
            after.velocity = Some(Velocity(v));
            after
        },
        None => c,
    }
}

/// Dividing by a whole number other than zero does not make a number larger.
pub proof fn lemma_quotient_no_larger(a: int, b: int)
    requires
        b != 0,
    ensures
        -a <= trunc_div(a, b) <= a || a <= trunc_div(a, b) <= -a,
{
    let m = if a >= 0 { a } else { -a };
    let d = if b > 0 { b } else { -b };
    assert(0 <= m / d <= m) by (nonlinear_arith)
        requires
            m >= 0,
            d >= 1,
    ;
}

/// Applies the impulses of a tick in order.
pub fn apply_impulse(events: &Vec<AddImpulseEvent>, entities: &mut Entities)
    requires
        old(entities).wf(),
    ensures
        final(entities).wf(),
        final(entities)@ == impulses_applied(old(entities)@, events@),
{
    let mut i: usize = 0;
    while i < events.len()
        invariant
            i <= events.len(),
            entities.wf(),
            entities@ == impulses_applied(old(entities)@, events@.take(i as int)),
        decreases events.len() - i,
    {
        let event: AddImpulseEvent = events[i];
        proof {
            assert(events@.take(i + 1).drop_last() == events@.take(i as int));
        }
        match entities.get(event.entity) {
            Some(c) => {
                let after: Components = push(c, event.value);
                entities.set_components(event.entity.index as usize, after);
            },
            None => {},
        }
        i += 1;
    }
    proof {
        assert(events@.take(i as int) == events@);
    }
}

} // verus!
