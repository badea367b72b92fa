use space_shooter_core::entities::{Components, Entities};
use space_shooter_core::entity::Entity;
use space_shooter_core::physics::collision::{
    CollideEvent, CollideEventsThisFrame, CollisionLayers, UniqueCollideEvent,
};
use space_shooter_core::physics::components::{
    AARectCollider, CircleCollider, CollisionLayerNames, Mass, Physics, Velocity,
};
use space_shooter_core::physics::movement::AddImpulseEvent;
use space_shooter_core::physics::physics_tick;
use space_shooter_core::quad_tree::{QuadTree, AABB};
use space_shooter_core::vec2::Vec2;

fn e(i: u32) -> Entity {
    Entity::new(i, 0)
}

#[test]
fn a_tick_moves_then_finds_then_pushes_out() {
    let mut entities = Entities::new();
    let mut layers = CollisionLayers::default();

    let mut ship = Components::at(Vec2::new(0, 0));
    ship.quad_tree_element = true;
    ship.circle_collider = Some(CircleCollider::new(5, CollisionLayerNames::Ship));
    ship.physics = Some(Physics::new(true));
    ship.velocity = Some(Velocity(Vec2::new(0, 1000)));
    ship.mass = Some(Mass(2));
    entities.insert(e(0), ship);
    layers.assign(CollisionLayerNames::Ship, e(0));

    let mut block = Components::at(Vec2::new(0, 13));
    block.quad_tree_element = true;
    block.aa_rect_collider = Some(AARectCollider::new(Vec2::new(10, 10), CollisionLayerNames::Walls));
    entities.insert(e(1), block);
    layers.assign(CollisionLayerNames::Walls, e(1));

    let mut tree = QuadTree::new(AABB::new(Vec2::new(0, 0), 2000));
    assert!(tree.insert(Vec2::new(500, 500), e(9)));
    let mut seen = CollideEventsThisFrame(vec![(e(0), e(1)), (e(3), e(4))]);
    let impulses = vec![AddImpulseEvent::new(Vec2::new(6, 0), 1, e(0))];

    let (raw, unique) =
        physics_tick(&mut entities, &mut tree, &layers, &impulses, 4000, 100, &mut seen);

    assert_eq!(raw, vec![CollideEvent::new(e(0), e(1))]);
    assert_eq!(unique, vec![UniqueCollideEvent { a: e(0), b: e(1) }]);
    assert_eq!(seen.0, vec![(e(0), e(1))]);
    let ship = entities.get(e(0)).unwrap();
    assert_eq!(ship.translation, Vec2::new(0, 3));
    assert_eq!(ship.velocity, Some(Velocity(Vec2::new(3, 0))));
    assert_eq!(entities.get(e(1)).unwrap().translation, Vec2::new(0, 13));
    assert_eq!(tree.query_range(&AABB::new(Vec2::new(0, 0), 2000)), vec![e(0), e(1)]);
}

#[test]
fn the_tree_of_a_tick_holds_the_positions_from_its_start() {
    let mut entities = Entities::new();
    let mut mover = Components::at(Vec2::new(0, 0));
    mover.quad_tree_element = true;
    mover.physics = Some(Physics::default());
    mover.velocity = Some(Velocity(Vec2::new(1_000_000, 0)));
    entities.insert(e(0), mover);
    let mut tree = QuadTree::new(AABB::new(Vec2::new(0, 0), 2000));
    let mut seen = CollideEventsThisFrame::default();
    let (raw, _) = physics_tick(
        &mut entities,
        &mut tree,
        &CollisionLayers::default(),
        &Vec::new(),
        1000,
        100,
        &mut seen,
    );
    assert!(raw.is_empty());
    assert_eq!(entities.get(e(0)).unwrap().translation, Vec2::new(1000, 0));
    assert_eq!(tree.query_range(&AABB::new(Vec2::new(0, 0), 10)), vec![e(0)]);
    assert!(tree.query_range(&AABB::new(Vec2::new(1000, 0), 10)).is_empty());
}
