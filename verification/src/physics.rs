//! Colliders, collision detection and response, and motion; and the order
//! in which a tick goes through them.

pub mod collision;
pub mod components;
pub mod movement;

use vstd::prelude::*;
use crate::entities::{Entities, Row};
use crate::physics::collision::{
    all_contacts, answered_all, find_collisions, fresh_events, handle_collisions, seen_after,
    CollideEvent, CollideEventsThisFrame, CollisionLayers, UniqueCollideEvent,
};
use crate::physics::movement::{
    accelerated_all, acceleration_physics_update, apply_impulse, drifted_all, impulses_applied,
    velocity_physics_update, AddImpulseEvent,
};
use crate::quad_tree::{buildtree, indexed, QuadTree};

verus! {

/// The table as the collision detection of a tick finds it: the impulses
/// have been applied, and every object has been moved through the time step.
pub open spec fn integrated(
    table: Seq<Option<Row>>,
    impulses: Seq<AddImpulseEvent>,
    dt: int,
) -> Seq<Option<Row>> {
    drifted_all(accelerated_all(impulses_applied(table, impulses), dt), dt)
}

/// One tick of the physics, in the one order that is allowed: the list of
/// seen pairs is emptied and the quadtree rebuilt from the positions at the
/// start of the tick; the impulses are applied; the objects are moved; the
/// overlaps are found; and the circles that ask for it are pushed out of the
/// walls they overlap. The answer holds every overlap and the first overlap
/// of every pair.
pub fn physics_tick(
    entities: &mut Entities,
    quad_tree: &mut QuadTree,
    collision_layers: &CollisionLayers,
    impulses: &Vec<AddImpulseEvent>,
    delta_micros: u32,
    check_distance: i32,
    collide_events_this_frame: &mut CollideEventsThisFrame,
) -> (events: (Vec<CollideEvent>, Vec<UniqueCollideEvent>))
    requires
        old(entities).wf(),
    ensures
        final(entities).wf(),
        final(quad_tree)@ == old(quad_tree)@.rebuild(
            indexed(old(entities)@, old(entities)@.len() as int),
        ),
        final(quad_tree)@.wf(),
        events.0@ == all_contacts(
            integrated(old(entities)@, impulses@, delta_micros as int),
            final(quad_tree)@,
            check_distance as int,
            collision_layers.layers@,
            collision_layers.layers@.len() as int,
        ),
        events.1@ == fresh_events(events.0@, Seq::empty()),
        final(collide_events_this_frame).0@ == seen_after(events.0@, Seq::empty()),
        final(entities)@ == answered_all(
            integrated(old(entities)@, impulses@, delta_micros as int),
            events.0@,
        ),
{
    collide_events_this_frame.0.clear();
    buildtree(entities, quad_tree);
    apply_impulse(impulses, entities);
    acceleration_physics_update(entities, delta_micros);
    velocity_physics_update(entities, delta_micros);
    let events = find_collisions(
        entities,
        collision_layers,
        quad_tree,
        check_distance,
        collide_events_this_frame,
    );
    handle_collisions(&events.0, entities);
    events
}

} // verus!
