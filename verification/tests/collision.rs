use space_shooter_core::entities::{Components, Entities};
use space_shooter_core::entity::Entity;
use space_shooter_core::physics::collision::{
    circle_aa_rect_collision, circle_circle_collision, find_collisions, handle_circle_collisions,
    handle_collisions, resolve_circle_rect, CollideEvent, CollideEventsThisFrame, CollisionLayer,
    CollisionLayers, UniqueCollideEvent, COLLIDER_CHECK_DISTANCE,
};
use space_shooter_core::physics::components::{
    AARectCollider, CircleCollider, CollisionLayerNames, Physics, Velocity,
};
use space_shooter_core::quad_tree::{buildtree, QuadTree, AABB};
use space_shooter_core::vec2::{Vec2, WideVec2};

fn e(i: u32) -> Entity {
    Entity::new(i, 0)
}

fn circle(radius: i32) -> CircleCollider {
    CircleCollider::new(radius, CollisionLayerNames::Aliens)
}

fn wall(width: i32, height: i32) -> AARectCollider {
    AARectCollider::new(Vec2::new(width, height), CollisionLayerNames::Walls)
}

#[test]
fn circles_nine_apart_collide_and_eleven_apart_do_not() {
    let a = circle(5);
    let b = circle(5);
    assert!(circle_circle_collision(&a, Vec2::new(0, 0), &b, Vec2::new(9, 0)));
    assert!(!circle_circle_collision(&a, Vec2::new(0, 0), &b, Vec2::new(11, 0)));
}

#[test]
fn circles_that_touch_collide() {
    let a = circle(5);
    let b = circle(5);
    assert!(circle_circle_collision(&a, Vec2::new(0, 0), &b, Vec2::new(10, 0)));
    assert!(circle_circle_collision(&a, Vec2::new(0, 0), &b, Vec2::new(6, 8)));
    assert!(!circle_circle_collision(&a, Vec2::new(0, 0), &b, Vec2::new(6, 9)));
}

#[test]
fn the_order_of_the_circles_does_not_matter() {
    let cases = [
        (3, (0, 0), 4, (5, 5)),
        (3, (0, 0), 4, (4, 5)),
        (0, (7, -7), 0, (7, -7)),
        (-1, (0, 0), 1, (0, 0)),
        (-2, (0, 0), 1, (0, 0)),
        (i32::MAX, (i32::MIN, i32::MIN), i32::MAX, (i32::MAX, i32::MAX)),
    ];
    for (ra, pa, rb, pb) in cases {
        let a = circle(ra);
        let b = circle(rb);
        let pa = Vec2::new(pa.0, pa.1);
        let pb = Vec2::new(pb.0, pb.1);
        assert_eq!(
            circle_circle_collision(&a, pa, &b, pb),
            circle_circle_collision(&b, pb, &a, pa)
        );
    }
    assert!(circle_circle_collision(&circle(-1), Vec2::new(0, 0), &circle(1), Vec2::new(0, 0)));
    assert!(!circle_circle_collision(&circle(-2), Vec2::new(0, 0), &circle(1), Vec2::new(0, 0)));
}

#[test]
fn the_signed_distance_is_negative_inside_and_rounded_up_outside() {
    let rect = wall(20, 10);
    let at = Vec2::new(0, 0);
    assert_eq!(rect.dist(Vec2::new(0, 0), at), -5);
    assert_eq!(rect.dist(Vec2::new(8, 0), at), -2);
    assert_eq!(rect.dist(Vec2::new(10, 0), at), 0);
    assert_eq!(rect.dist(Vec2::new(10, 5), at), 0);
    assert_eq!(rect.dist(Vec2::new(15, 0), at), 5);
    assert_eq!(rect.dist(Vec2::new(13, 9), at), 5);
    assert_eq!(rect.dist(Vec2::new(14, 9), at), 6);
    assert_eq!(rect.dist(Vec2::new(-11, -6), at), 2);
    assert_eq!(rect.dist(Vec2::new(i32::MIN, i32::MAX), Vec2::new(i32::MAX, i32::MIN)), 6074000988);
}

#[test]
fn half_of_an_odd_size_is_rounded_toward_zero() {
    let rect = wall(21, 11);
    assert_eq!(rect.half_size(), Vec2::new(10, 5));
    assert_eq!(rect.size, Vec2::new(21, 11));
    assert_eq!(wall(-3, 3).half_size(), Vec2::new(-1, 1));
}

#[test]
fn a_circle_collides_with_a_rectangle_up_to_its_radius() {
    let rect = wall(20, 10);
    let at = Vec2::new(0, 0);
    let a = circle(5);
    assert!(circle_aa_rect_collision(&a, Vec2::new(15, 0), &rect, at));
    assert!(!circle_aa_rect_collision(&a, Vec2::new(16, 0), &rect, at));
    assert!(circle_aa_rect_collision(&a, Vec2::new(13, 9), &rect, at));
    assert!(!circle_aa_rect_collision(&a, Vec2::new(14, 9), &rect, at));
    assert!(circle_aa_rect_collision(&a, Vec2::new(0, 0), &rect, at));
    assert!(circle_aa_rect_collision(&circle(-3), Vec2::new(0, 0), &rect, at));
    assert!(!circle_aa_rect_collision(&circle(-3), Vec2::new(8, 0), &rect, at));
    assert!(!circle_aa_rect_collision(&circle(-1), Vec2::new(10, 0), &rect, at));
}

#[test]
fn from_the_center_the_nearest_point_lies_on_the_nearest_face() {
    let rect = wall(20, 10);
    assert_eq!(
        rect.nearest_point(Vec2::new(0, 0), Vec2::new(0, 0)),
        (WideVec2::new(0, 5), true)
    );
    let square = wall(20, 20);
    assert_eq!(
        square.nearest_point(Vec2::new(100, 50), Vec2::new(100, 50)),
        (WideVec2::new(110, 50), true)
    );
    assert_eq!(
        square.nearest_point(Vec2::new(-3, 2), Vec2::new(0, 0)),
        (WideVec2::new(-10, 2), true)
    );
    assert_eq!(
        square.nearest_point(Vec2::new(1, -9), Vec2::new(0, 0)),
        (WideVec2::new(1, -10), true)
    );
}

#[test]
fn from_outside_the_nearest_point_is_the_point_limited_to_the_rectangle() {
    let rect = wall(20, 10);
    let at = Vec2::new(0, 0);
    assert_eq!(rect.nearest_point(Vec2::new(30, 2), at), (WideVec2::new(10, 2), false));
    assert_eq!(rect.nearest_point(Vec2::new(30, 30), at), (WideVec2::new(10, 5), false));
    assert_eq!(rect.nearest_point(Vec2::new(-30, -30), at), (WideVec2::new(-10, -5), false));
    assert_eq!(rect.nearest_point(Vec2::new(10, 0), at), (WideVec2::new(10, 0), false));
    assert_eq!(
        rect.nearest_point(Vec2::new(0, 0), Vec2::new(i32::MAX, 0)),
        (WideVec2::new(i32::MAX as i64 - 10, 0), false)
    );
}

#[test]
fn a_circle_at_the_center_of_a_wall_is_pushed_out_through_the_nearest_face() {
    let square = wall(20, 20);
    let (translation, velocity) =
        resolve_circle_rect(Vec2::new(0, 0), Vec2::new(7, 4), 3, &square, Vec2::new(0, 0));
    assert_eq!(translation, Vec2::new(13, 0));
    assert_eq!(velocity, Vec2::new(0, 4));
    let rect = wall(20, 10);
    let (translation, velocity) =
        resolve_circle_rect(Vec2::new(2, -1), Vec2::new(7, 4), 3, &rect, Vec2::new(0, 0));
    assert_eq!(translation, Vec2::new(2, -8));
    assert_eq!(velocity, Vec2::new(7, 0));
}

#[test]
fn a_circle_that_overlaps_a_wall_from_outside_is_pushed_back_and_slides() {
    let square = wall(20, 20);
    let (translation, velocity) =
        resolve_circle_rect(Vec2::new(12, 0), Vec2::new(-6, 2), 5, &square, Vec2::new(0, 0));
    assert_eq!(translation, Vec2::new(15, 0));
    assert_eq!(velocity, Vec2::new(0, 2));
    let (translation, velocity) =
        resolve_circle_rect(Vec2::new(13, 14), Vec2::new(-10, 0), 10, &square, Vec2::new(0, 0));
    assert_eq!(translation, Vec2::new(16, 18));
    assert_eq!(velocity, Vec2::new(-7, 4));
}

#[test]
fn a_circle_on_the_edge_of_a_wall_stays() {
    let square = wall(20, 20);
    let (translation, velocity) =
        resolve_circle_rect(Vec2::new(10, 3), Vec2::new(-6, 2), 5, &square, Vec2::new(0, 0));
    assert_eq!(translation, Vec2::new(10, 3));
    assert_eq!(velocity, Vec2::new(-6, 2));
}

#[test]
fn a_push_that_leaves_the_plane_is_not_made() {
    let square = wall(20, 20);
    let p = Vec2::new(i32::MAX, 0);
    let (translation, velocity) =
        resolve_circle_rect(p, Vec2::new(5, 5), 50, &square, Vec2::new(i32::MAX - 12, 0));
    assert_eq!(translation, p);
    assert_eq!(velocity, Vec2::new(0, 5));
}

#[test]
fn the_layer_table_starts_with_the_pairings_of_the_game() {
    let table = CollisionLayers::default();
    assert_eq!(table.layers.len(), 5);
    assert_eq!(table.layers[0].collides_with, vec![CollisionLayerNames::Aliens]);
    assert_eq!(
        table.layers[1].collides_with,
        vec![CollisionLayerNames::HealthPacks, CollisionLayerNames::Aliens, CollisionLayerNames::Walls]
    );
    assert_eq!(table.layers[2].collides_with, vec![CollisionLayerNames::Walls]);
    assert!(table.layers[3].collides_with.is_empty());
    assert!(table.layers[4].collides_with.is_empty());
    for layer in &table.layers {
        assert!(layer.in_layer.is_empty());
    }
    assert_eq!(CollisionLayerNames::CollidesWithAliens.index(), 0);
    assert_eq!(CollisionLayerNames::Ship.index(), 1);
    assert_eq!(CollisionLayerNames::Aliens.index(), 2);
    assert_eq!(CollisionLayerNames::HealthPacks.index(), 3);
    assert_eq!(CollisionLayerNames::Walls.index(), 4);
}

#[test]
fn objects_are_assigned_to_layers_that_exist() {
    let mut table = CollisionLayers::default();
    assert!(table.assign(CollisionLayerNames::Walls, e(3)));
    assert!(table.assign(CollisionLayerNames::Walls, e(4)));
    assert_eq!(table.layers[4].in_layer, vec![e(3), e(4)]);
    let mut short = CollisionLayers { layers: vec![CollisionLayer::new(vec![])] };
    assert!(!short.assign(CollisionLayerNames::Ship, e(1)));
    assert!(short.assign(CollisionLayerNames::CollidesWithAliens, e(1)));
}

struct Scene {
    entities: Entities,
    layers: CollisionLayers,
    tree: QuadTree,
}

fn scene() -> Scene {
    let mut entities = Entities::new();
    let mut layers = CollisionLayers::default();

    let mut ship = Components::at(Vec2::new(0, 0));
    ship.quad_tree_element = true;
    ship.circle_collider = Some(CircleCollider::new(5, CollisionLayerNames::Ship));
    ship.physics = Some(Physics::new(true));
    ship.velocity = Some(Velocity(Vec2::new(3, 9)));
    entities.insert(e(0), ship);
    layers.assign(CollisionLayerNames::Ship, e(0));

    let mut alien = Components::at(Vec2::new(8, 0));
    alien.quad_tree_element = true;
    alien.circle_collider = Some(CircleCollider::new(5, CollisionLayerNames::Aliens));
    entities.insert(e(1), alien);
    layers.assign(CollisionLayerNames::Aliens, e(1));

    let mut block = Components::at(Vec2::new(0, 9));
    block.quad_tree_element = true;
    block.aa_rect_collider = Some(AARectCollider::new(Vec2::new(10, 10), CollisionLayerNames::Walls));
    entities.insert(e(2), block);
    layers.assign(CollisionLayerNames::Walls, e(2));

    let mut pack = Components::at(Vec2::new(90, 90));
    pack.quad_tree_element = true;
    pack.circle_collider = Some(CircleCollider::new(2, CollisionLayerNames::HealthPacks));
    entities.insert(e(3), pack);
    layers.assign(CollisionLayerNames::HealthPacks, e(3));

    let mut bare = Components::at(Vec2::new(1, 1));
    bare.quad_tree_element = true;
    entities.insert(e(4), bare);
    layers.assign(CollisionLayerNames::Ship, e(4));
    layers.assign(CollisionLayerNames::Ship, e(17));

    let mut tree = QuadTree::new(AABB::new(Vec2::new(0, 0), 2000));
    buildtree(&entities, &mut tree);
    Scene { entities, layers, tree }
}

#[test]
fn every_overlap_of_a_tick_is_found_layer_by_layer() {
    let s = scene();
    let mut seen = CollideEventsThisFrame::default();
    let (raw, unique) =
        find_collisions(&s.entities, &s.layers, &s.tree, COLLIDER_CHECK_DISTANCE, &mut seen);
    assert_eq!(
        raw,
        vec![CollideEvent::new(e(0), e(1)), CollideEvent::new(e(0), e(2)), CollideEvent::new(e(1), e(2))]
    );
    assert_eq!(
        unique,
        vec![
            UniqueCollideEvent { a: e(0), b: e(1) },
            UniqueCollideEvent { a: e(0), b: e(2) },
            UniqueCollideEvent { a: e(1), b: e(2) }
        ]
    );
    assert_eq!(seen.0, vec![(e(0), e(1)), (e(0), e(2)), (e(1), e(2))]);
}

#[test]
fn a_pair_is_reported_as_first_overlap_once_in_a_tick() {
    let s = scene();
    let mut seen = CollideEventsThisFrame::default();
    let (first_raw, first_unique) = find_collisions(&s.entities, &s.layers, &s.tree, 100, &mut seen);
    let (second_raw, second_unique) = find_collisions(&s.entities, &s.layers, &s.tree, 100, &mut seen);
    assert_eq!(first_raw, second_raw);
    assert_eq!(first_unique.len(), 3);
    assert!(second_unique.is_empty());
    assert_eq!(seen.0.len(), 3);
    seen.0.clear();
    let (_, third_unique) = find_collisions(&s.entities, &s.layers, &s.tree, 100, &mut seen);
    assert_eq!(third_unique, first_unique);
}

#[test]
fn the_two_orders_of_a_pair_are_two_pairs() {
    let mut s = scene();
    s.layers.layers[2].collides_with.push(CollisionLayerNames::Ship);
    let mut seen = CollideEventsThisFrame::default();
    let (raw, unique) = find_collisions(&s.entities, &s.layers, &s.tree, 100, &mut seen);
    assert!(raw.contains(&CollideEvent::new(e(0), e(1))));
    assert!(raw.contains(&CollideEvent::new(e(1), e(0))));
    assert!(unique.contains(&UniqueCollideEvent { a: e(0), b: e(1) }));
    assert!(unique.contains(&UniqueCollideEvent { a: e(1), b: e(0) }));
}

#[test]
fn what_lies_beyond_the_check_distance_is_not_found() {
    let s = scene();
    let mut seen = CollideEventsThisFrame::default();
    let (raw, _) = find_collisions(&s.entities, &s.layers, &s.tree, 0, &mut seen);
    assert!(raw.is_empty());
    let (raw, _) = find_collisions(&s.entities, &s.layers, &s.tree, 3, &mut seen);
    assert_eq!(raw, vec![CollideEvent::new(e(0), e(1))]);
    let (raw, _) = find_collisions(&s.entities, &s.layers, &s.tree, 4, &mut seen);
    assert_eq!(raw.len(), 3);
}

#[test]
fn one_circle_is_tested_against_its_surroundings() {
    let s = scene();
    let mut raw = vec![CollideEvent::new(e(9), e(9))];
    let mut unique = Vec::new();
    let mut seen = CollideEventsThisFrame(vec![(e(5), e(2))]);
    let probe = CircleCollider::new(6, CollisionLayerNames::CollidesWithAliens);
    let against = vec![CollisionLayerNames::Walls, CollisionLayerNames::HealthPacks];
    handle_circle_collisions(
        &probe,
        Vec2::new(0, 20),
        e(5),
        &s.entities,
        &s.tree,
        100,
        &against,
        &mut raw,
        &mut unique,
        &mut seen,
    );
    assert_eq!(raw, vec![CollideEvent::new(e(9), e(9)), CollideEvent::new(e(5), e(2))]);
    assert!(unique.is_empty());
    assert_eq!(seen.0, vec![(e(5), e(2))]);
}

#[test]
fn circles_that_ask_for_it_are_pushed_out_of_walls() {
    let mut s = scene();
    let events = vec![
        CollideEvent::new(e(0), e(1)),
        CollideEvent::new(e(0), e(2)),
        CollideEvent::new(e(1), e(2)),
        CollideEvent::new(e(2), e(0)),
        CollideEvent::new(e(40), e(2)),
    ];
    handle_collisions(&events, &mut s.entities);
    let ship = s.entities.get(e(0)).unwrap();
    assert_eq!(ship.translation, Vec2::new(0, -1));
    assert_eq!(ship.velocity, Some(Velocity(Vec2::new(3, 0))));
    let alien = s.entities.get(e(1)).unwrap();
    assert_eq!(alien.translation, Vec2::new(8, 0));
    let block = s.entities.get(e(2)).unwrap();
    assert_eq!(block.translation, Vec2::new(0, 9));
}

#[test]
fn a_circle_that_does_not_ask_is_left_in_the_wall() {
    let mut s = scene();
    let mut ship = s.entities.get(e(0)).unwrap();
    ship.physics = Some(Physics::default());
    s.entities.insert(e(0), ship);
    handle_collisions(&vec![CollideEvent::new(e(0), e(2))], &mut s.entities);
    assert_eq!(s.entities.get(e(0)).unwrap().translation, Vec2::new(0, 0));
    ship.physics = None;
    s.entities.insert(e(0), ship);
    handle_collisions(&vec![CollideEvent::new(e(0), e(2))], &mut s.entities);
    assert_eq!(s.entities.get(e(0)).unwrap().translation, Vec2::new(0, 0));
}

#[test]
fn members_that_are_gone_are_dropped_from_the_layers() {
    let mut s = scene();
    assert_eq!(s.layers.layers[1].in_layer, vec![e(0), e(4), e(17)]);
    s.entities.remove(e(4));
    s.layers.prune(&s.entities);
    assert_eq!(s.layers.layers[1].in_layer, vec![e(0)]);
    assert_eq!(s.layers.layers[2].in_layer, vec![e(1)]);
    assert_eq!(s.layers.layers[1].collides_with.len(), 3);
    s.entities.insert(Entity::new(0, 1), Components::at(Vec2::new(0, 0)));
    s.layers.layers[1].prune(&s.entities);
    assert!(s.layers.layers[1].in_layer.is_empty());
}

#[test]
fn with_a_sufficient_check_distance_no_overlap_of_circles_is_missed() {
    let mut state = 11u64;
    let mut next = move || {
        state = state.wrapping_mul(6364136223846793005).wrapping_add(1442695040888963407);
        ((state >> 33) % 201) as i32 - 100
    };
    let mut entities = Entities::new();
    let mut layers = CollisionLayers::default();
    let mut circles = Vec::new();
    for i in 0..120u32 {
        let p = Vec2::new(next(), next());
        let radius = next().abs() % 12;
        let mut c = Components::at(p);
        c.quad_tree_element = true;
        let layer = if i % 2 == 0 { CollisionLayerNames::Ship } else { CollisionLayerNames::Aliens };
        c.circle_collider = Some(CircleCollider::new(radius, layer));
        entities.insert(e(i), c);
        layers.assign(layer, e(i));
        circles.push((p, radius, layer));
    }
    let mut tree = QuadTree::new(AABB::new(Vec2::new(0, 0), 100));
    buildtree(&entities, &mut tree);
    assert!(space_shooter_core::physics::collision::check_distance_suffices(&entities, 12));
    assert!(!space_shooter_core::physics::collision::check_distance_suffices(&entities, 11));
    assert!(layers.is_complete());
    let mut seen = CollideEventsThisFrame::default();
    let (raw, unique) = find_collisions(&entities, &layers, &tree, 12, &mut seen);
    let mut expected = Vec::new();
    for (i, (pa, ra, la)) in circles.iter().enumerate() {
        if *la != CollisionLayerNames::Ship {
            continue;
        }
        for (j, (pb, rb, lb)) in circles.iter().enumerate() {
            if *lb != CollisionLayerNames::Aliens {
                continue;
            }
            let dx = (pa.x - pb.x) as i64;
            let dy = (pa.y - pb.y) as i64;
            let reach = (ra + rb) as i64;
            if dx * dx + dy * dy <= reach * reach {
                expected.push(CollideEvent::new(e(i as u32), e(j as u32)));
            }
        }
    }
    assert!(!expected.is_empty());
    assert_eq!(raw.len(), expected.len());
    for event in &expected {
        assert!(raw.contains(event));
    }
    assert_eq!(unique.len(), raw.len());
    assert_eq!(seen.0.len(), raw.len());
}
