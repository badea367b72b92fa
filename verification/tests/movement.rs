use space_shooter_core::entities::{Components, Entities};
use space_shooter_core::entity::Entity;
use space_shooter_core::physics::components::{Acceleration, Mass, Physics, Velocity};
use space_shooter_core::physics::movement::{
    accelerate, acceleration_physics_update, apply_impulse, drift, push, velocity_physics_update,
    AddImpulseEvent,
};
use space_shooter_core::vec2::{Rotation, Vec2, WideVec2};

fn e(i: u32) -> Entity {
    Entity::new(i, 0)
}

fn body(translation: (i32, i32), velocity: (i32, i32)) -> Components {
    let mut c = Components::at(Vec2::new(translation.0, translation.1));
    c.physics = Some(Physics::default());
    c.velocity = Some(Velocity(Vec2::new(velocity.0, velocity.1)));
    c
}

#[test]
fn an_impulse_of_ten_on_a_mass_of_two_adds_five() {
    let mut entities = Entities::new();
    let mut c = body((0, 0), (1, 1));
    c.mass = Some(Mass(2));
    entities.insert(e(0), c);
    let events = vec![AddImpulseEvent::new(Vec2::new(10, 0), 1, e(0))];
    apply_impulse(&events, &mut entities);
    assert_eq!(entities.get(e(0)).unwrap().velocity, Some(Velocity(Vec2::new(6, 1))));
}

#[test]
fn an_impulse_carries_the_change_in_velocity_times_the_mass() {
    let event = AddImpulseEvent::new(Vec2::new(10, -4), 3, e(5));
    assert_eq!(event.value, WideVec2::new(30, -12));
    assert_eq!(event.entity, e(5));
    let big = AddImpulseEvent::new(Vec2::new(i32::MIN, i32::MAX), i32::MIN, e(5));
    assert_eq!(big.value, WideVec2::new(1 << 62, -(1 << 62) + (1 << 31)));
}

#[test]
fn an_impulse_is_divided_toward_zero() {
    let mut c = body((0, 0), (0, 0));
    c.mass = Some(Mass(2));
    assert_eq!(push(c, WideVec2::new(-7, 7)).velocity, Some(Velocity(Vec2::new(-3, 3))));
    c.mass = Some(Mass(-2));
    assert_eq!(push(c, WideVec2::new(-7, 7)).velocity, Some(Velocity(Vec2::new(3, -3))));
}

#[test]
fn an_impulse_leaves_alone_what_cannot_take_it() {
    let mut c = body((0, 0), (4, 4));
    assert_eq!(push(c, WideVec2::new(10, 10)).velocity, Some(Velocity(Vec2::new(4, 4))));
    c.mass = Some(Mass(0));
    assert_eq!(push(c, WideVec2::new(10, 10)).velocity, Some(Velocity(Vec2::new(4, 4))));
    c.mass = Some(Mass(1));
    assert_eq!(push(c, WideVec2::new(i64::MAX, 0)).velocity, Some(Velocity(Vec2::new(4, 4))));
    c.physics = None;
    assert_eq!(push(c, WideVec2::new(10, 10)).velocity, Some(Velocity(Vec2::new(4, 4))));
    c.physics = Some(Physics::default());
    c.velocity = None;
    assert_eq!(push(c, WideVec2::new(10, 10)).velocity, None);
}

#[test]
fn impulses_are_applied_in_order_and_stale_handles_are_passed_over() {
    let mut entities = Entities::new();
    let mut c = body((0, 0), (0, 0));
    c.mass = Some(Mass(3));
    entities.insert(Entity::new(0, 1), c);
    let events = vec![
        AddImpulseEvent::new(Vec2::new(10, 0), 1, Entity::new(0, 1)),
        AddImpulseEvent::new(Vec2::new(10, 0), 1, Entity::new(0, 0)),
        AddImpulseEvent::new(Vec2::new(0, 10), 1, Entity::new(9, 1)),
        AddImpulseEvent::new(Vec2::new(1, 2), 3, Entity::new(0, 1)),
    ];
    apply_impulse(&events, &mut entities);
    assert_eq!(entities.get(Entity::new(0, 1)).unwrap().velocity, Some(Velocity(Vec2::new(4, 2))));
    assert_eq!(entities.len(), 1);
}

#[test]
fn without_acceleration_an_object_moves_by_velocity_times_time() {
    let c = body((10, 10), (1000, -3000));
    assert_eq!(drift(c, 5000).translation, Vec2::new(15, -5));
    assert_eq!(drift(c, 0).translation, Vec2::new(10, 10));
    assert_eq!(drift(body((0, 0), (100, -100)), 5000).translation, Vec2::new(0, 0));
    assert_eq!(drift(body((0, 0), (399, -399)), 5000).translation, Vec2::new(1, -1));
}

#[test]
fn an_object_that_would_leave_the_plane_stays() {
    let c = body((i32::MAX, 0), (1000, 0));
    assert_eq!(drift(c, 1_000_000).translation, Vec2::new(i32::MAX, 0));
    let mut a = body((0, 0), (i32::MAX, 0));
    a.acceleration = Some(Acceleration { value: Vec2::new(10, 0), local: false });
    let after = accelerate(a, 1_000_000);
    assert_eq!(after.translation, Vec2::new(0, 0));
    assert_eq!(after.velocity, Some(Velocity(Vec2::new(i32::MAX, 0))));
}

#[test]
fn under_acceleration_an_object_moves_by_the_old_velocity_and_half_the_gain() {
    let mut c = body((0, 0), (1000, 1000));
    c.acceleration = Some(Acceleration { value: Vec2::new(2000, -500), local: false });
    let after = accelerate(c, 1_000_000);
    assert_eq!(after.translation, Vec2::new(2000, 750));
    assert_eq!(after.velocity, Some(Velocity(Vec2::new(3000, 500))));
    let mut c = body((7, 7), (100_000, 1000));
    c.acceleration = Some(Acceleration { value: Vec2::new(40_000, -500), local: false });
    let after = accelerate(c, 5000);
    assert_eq!(after.translation, Vec2::new(507, 11));
    assert_eq!(after.velocity, Some(Velocity(Vec2::new(100_200, 998))));
}

#[test]
fn a_local_acceleration_is_turned_the_way_the_object_faces() {
    let mut c = body((0, 0), (0, 0));
    c.rotation = Rotation::new(0, 1_000_000);
    c.acceleration = Some(Acceleration { value: Vec2::new(1000, 0), local: true });
    let after = accelerate(c, 1_000_000);
    assert_eq!(after.velocity, Some(Velocity(Vec2::new(0, 1000))));
    assert_eq!(after.translation, Vec2::new(0, 500));
    c.acceleration = Some(Acceleration { value: Vec2::new(1000, 0), local: false });
    let after = accelerate(c, 1_000_000);
    assert_eq!(after.velocity, Some(Velocity(Vec2::new(1000, 0))));
}

#[test]
fn the_two_ways_of_moving_exclude_each_other() {
    let mut entities = Entities::new();
    let mut pushed = body((0, 0), (1000, 0));
    pushed.acceleration = Some(Acceleration::default());
    entities.insert(e(0), pushed);
    entities.insert(e(1), body((0, 0), (1000, 0)));
    let mut still = body((0, 0), (1000, 0));
    still.physics = None;
    entities.insert(e(3), still);
    entities.insert(e(4), Components::at(Vec2::new(5, 5)));

    velocity_physics_update(&mut entities, 1_000_000);
    assert_eq!(entities.get(e(0)).unwrap().translation, Vec2::new(0, 0));
    assert_eq!(entities.get(e(1)).unwrap().translation, Vec2::new(1000, 0));
    assert_eq!(entities.get(e(3)).unwrap().translation, Vec2::new(0, 0));
    assert_eq!(entities.get(e(4)).unwrap().translation, Vec2::new(5, 5));

    acceleration_physics_update(&mut entities, 2_000_000);
    assert_eq!(entities.get(e(0)).unwrap().translation, Vec2::new(2000, 0));
    assert_eq!(entities.get(e(1)).unwrap().translation, Vec2::new(1000, 0));
    assert_eq!(entities.get(e(3)).unwrap().translation, Vec2::new(0, 0));
    assert_eq!(entities.len(), 5);
    assert!(entities.row(2).is_none());
}

#[test]
fn the_defaults_are_at_rest() {
    assert_eq!(Velocity::default(), Velocity(Vec2::new(0, 0)));
    assert_eq!(Acceleration::default(), Acceleration { value: Vec2::new(0, 0), local: false });
    assert_eq!(Mass::default(), Mass(0));
    assert!(!Physics::default().use_collisions);
    assert!(Physics::new(true).use_collisions);
}
