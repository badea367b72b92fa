use space_shooter_core::aliens::alien_avoid::AARectAlienAvoid;
use space_shooter_core::aliens::{
    boid_task, check_bounds, desired_heading, find_ship, in_view, per_alien_avoid_calcs,
    per_boid_calcs, point_to_velocity, ship_search, simulate_boids, turn_towards, weight,
    FlockAccumulator, FlockParams,
};
use space_shooter_core::entities::{Components, Entities};
use space_shooter_core::entity::Entity;
use space_shooter_core::physics::components::Velocity;
use space_shooter_core::quad_tree::{buildtree, QuadTree, AABB};
use space_shooter_core::vec2::{Rotation, Vec2, WideVec2};

fn e(i: u32) -> Entity {
    Entity::new(i, 0)
}

#[test]
fn a_neighbour_straight_behind_is_not_in_view() {
    let params = FlockParams::default();
    let forward = Vec2::new(0, 1);
    assert!(!in_view(forward, WideVec2::new(0, -10), params.vision_cone_threshold));
    assert!(in_view(forward, WideVec2::new(0, 10), params.vision_cone_threshold));
    assert!(in_view(forward, WideVec2::new(10, 0), params.vision_cone_threshold));
}

#[test]
fn the_vision_cone_ends_where_the_cosine_reaches_the_threshold() {
    let forward = Vec2::new(1, 0);
    assert!(!in_view(forward, WideVec2::new(-1, 1), -700_000));
    assert!(in_view(forward, WideVec2::new(-1, 2), -700_000));
    assert!(in_view(forward, WideVec2::new(-1, 1), -707_108));
    assert!(!in_view(forward, WideVec2::new(-1, 1), -707_107));
    assert!(!in_view(forward, WideVec2::new(5, 0), 1_000_000));
    assert!(in_view(forward, WideVec2::new(5, 0), 999_999));
}

#[test]
fn nothing_is_in_view_of_or_from_the_zero_vector() {
    assert!(!in_view(Vec2::new(0, 0), WideVec2::new(1, 0), -2_000_000));
    assert!(!in_view(Vec2::new(1, 0), WideVec2::new(0, 0), -2_000_000));
}

#[test]
fn the_weight_falls_from_one_to_zero_over_the_radius() {
    assert_eq!(weight(0, 70), 1_000_000);
    assert_eq!(weight(35, 70), 500_000);
    assert_eq!(weight(5, 70), 928_572);
    assert_eq!(weight(70, 70), 0);
    assert_eq!(weight(200, 70), 0);
    assert_eq!(weight(i64::MAX, 1), 0);
    assert_eq!(weight(10, 0), 0);
    assert_eq!(weight(10, -70), 1_000_000);
    assert_eq!(weight(-10, 70), 1_000_000);
}

#[test]
fn a_neighbour_adds_to_separation_alignment_and_cohesion() {
    let params = FlockParams::default();
    let mut sums = FlockAccumulator::new();
    per_boid_calcs(&mut sums, WideVec2::new(3, 4), 5, Vec2::new(7, -2), &params);
    assert_eq!(sums.separation, WideVec2::new(557_143, 742_857));
    assert_eq!(sums.alignment, WideVec2::new(7, -2));
    assert_eq!(sums.cohesion, WideVec2::new(3, 4));
    assert_eq!(sums.avoidance, WideVec2::new(0, 0));
    per_boid_calcs(&mut sums, WideVec2::new(-3, -4), 5, Vec2::new(1, 1), &params);
    assert_eq!(sums.separation, WideVec2::new(0, 0));
    assert_eq!(sums.alignment, WideVec2::new(8, -1));
    assert_eq!(sums.cohesion, WideVec2::new(0, 0));
}

#[test]
fn the_sums_stop_at_what_can_be_held() {
    let params = FlockParams::default();
    let mut sums = FlockAccumulator::new();
    sums.cohesion = WideVec2::new(i64::MAX - 1, i64::MIN + 1);
    sums.alignment = WideVec2::new(i64::MAX, 0);
    per_boid_calcs(&mut sums, WideVec2::new(5, -5), 8, Vec2::new(1, 1), &params);
    assert_eq!(sums.cohesion, WideVec2::new(i64::MAX, i64::MIN));
    assert_eq!(sums.alignment, WideVec2::new(i64::MAX, 1));
}

#[test]
fn an_obstacle_adds_to_avoidance_only() {
    let params = FlockParams::default();
    let mut sums = FlockAccumulator::new();
    per_alien_avoid_calcs(&mut sums, WideVec2::new(0, -10), 50, &params);
    assert_eq!(sums.avoidance, WideVec2::new(0, -500_000));
    assert_eq!(sums.separation, WideVec2::new(0, 0));
    assert_eq!(sums.alignment, WideVec2::new(0, 0));
    assert_eq!(sums.cohesion, WideVec2::new(0, 0));
    per_alien_avoid_calcs(&mut sums, WideVec2::new(0, -10), 150, &params);
    assert_eq!(sums.avoidance, WideVec2::new(0, -500_000));
}

#[test]
fn the_ship_pulls_harder_the_closer_it_is() {
    let params = FlockParams::default();
    let at = Vec2::new(0, 0);
    let forward = Vec2::new(1, 0);
    assert_eq!(
        ship_search(Some(Vec2::new(30, 40)), at, forward, &params),
        WideVec2::new(2_400_000, 3_200_000)
    );
    assert_eq!(
        ship_search(Some(Vec2::new(100, 0)), at, forward, &params),
        WideVec2::new(2_000_000, 0)
    );
    assert_eq!(ship_search(Some(Vec2::new(199, 0)), at, forward, &params).y, 0);
    assert_eq!(
        ship_search(Some(Vec2::new(141, 141)), at, forward, &params),
        WideVec2::new(707_106, 707_106)
    );
    assert_eq!(ship_search(Some(Vec2::new(142, 141)), at, forward, &params), WideVec2::new(0, 0));
    assert_eq!(ship_search(Some(Vec2::new(200, 0)), at, forward, &params), WideVec2::new(0, 0));
    assert_eq!(ship_search(Some(Vec2::new(-100, 0)), at, forward, &params), WideVec2::new(0, 0));
    assert_eq!(ship_search(Some(at), at, forward, &params), WideVec2::new(0, 0));
    assert_eq!(ship_search(None, at, forward, &params), WideVec2::new(0, 0));
}

#[test]
fn a_velocity_turns_one_step_toward_the_target() {
    let step = Rotation::new(999_950, 10_000);
    let mut forward = Vec2::new(100, 0);
    turn_towards(WideVec2::new(0, 1_000_000), &mut forward, step);
    assert_eq!(forward, Vec2::new(100, 1));
    let mut forward = Vec2::new(100, 0);
    turn_towards(WideVec2::new(0, -1_000_000), &mut forward, step);
    assert_eq!(forward, Vec2::new(100, -1));
    let mut forward = Vec2::new(100_000, 0);
    turn_towards(WideVec2::new(0, 5), &mut forward, Rotation::new(707_107, 707_107));
    assert_eq!(forward, Vec2::new(70_711, 70_710));
    let mut forward = Vec2::new(6400, 0);
    turn_towards(WideVec2::new(0, 1_000_000), &mut forward, Rotation::new(991_168, 132_608));
    assert_eq!(forward, Vec2::new(6343, 849));
}

#[test]
fn a_turn_keeps_the_speed() {
    let step = Rotation::new(995_004, 99_833);
    let length = |v: Vec2| ((v.x as f64).powi(2) + (v.y as f64).powi(2)).sqrt();
    let mut forward = Vec2::new(6400, 0);
    for _ in 0..1000 {
        let before = forward;
        turn_towards(WideVec2::new(-forward.y as i64, forward.x as i64), &mut forward, step);
        assert_ne!(forward, before);
        assert!((length(forward) - length(before)).abs() < 1.0);
        assert!((length(forward) - 6400.0).abs() < 64.0);
    }
}

#[test]
fn a_turn_past_the_target_lands_on_it_with_the_old_length() {
    let mut forward = Vec2::new(2, 0);
    turn_towards(WideVec2::new(0, 5), &mut forward, Rotation::new(-416_147, 909_297));
    assert_eq!(forward, Vec2::new(0, 2));
    let mut forward = Vec2::new(3, 4);
    turn_towards(WideVec2::new(-4, 3), &mut forward, Rotation::new(-416_147, 909_297));
    assert_eq!(forward, Vec2::new(-4, 3));
    let mut forward = Vec2::new(3, 4);
    turn_towards(WideVec2::new(-7, 0), &mut forward, Rotation::new(-416_147, 909_297));
    assert_eq!(forward, Vec2::new(-5, 1));
}

#[test]
fn a_velocity_does_not_turn_without_a_target_or_along_it() {
    let step = Rotation::new(0, 1_000_000);
    let mut forward = Vec2::new(100, 0);
    turn_towards(WideVec2::new(0, 0), &mut forward, step);
    assert_eq!(forward, Vec2::new(100, 0));
    turn_towards(WideVec2::new(500_000, 0), &mut forward, step);
    assert_eq!(forward, Vec2::new(100, 0));
    turn_towards(WideVec2::new(-500_000, 0), &mut forward, step);
    assert_eq!(forward, Vec2::new(100, 0));
    let mut still = Vec2::new(0, 0);
    turn_towards(WideVec2::new(0, 7), &mut still, step);
    assert_eq!(still, Vec2::new(0, 0));
}

#[test]
fn a_turn_that_would_pass_the_target_stops_on_it() {
    let mut forward = Vec2::new(100, 0);
    turn_towards(WideVec2::new(1_000_000, 10_000), &mut forward, Rotation::new(0, 1_000_000));
    assert_eq!(forward, Vec2::new(100, 1));
}

#[test]
fn a_turn_that_cannot_be_held_is_not_made() {
    let mut forward = Vec2::new(i32::MAX, i32::MAX);
    turn_towards(WideVec2::new(0, 1), &mut forward, Rotation::new(707_107, 707_107));
    assert_eq!(forward, Vec2::new(i32::MAX, i32::MAX));
}

#[test]
fn the_desired_heading_weighs_the_sums() {
    let params = FlockParams::default();
    let sums = FlockAccumulator {
        separation: WideVec2::new(171_429, 228_572),
        alignment: WideVec2::new(0, 50),
        cohesion: WideVec2::new(30, 40),
        avoidance: WideVec2::new(0, 500_000),
    };
    assert_eq!(
        desired_heading(&sums, WideVec2::new(2_000_000, 0), &params),
        WideVec2::new(-400_000, -29_200_000)
    );
    assert_eq!(
        desired_heading(&FlockAccumulator::new(), WideVec2::new(0, 0), &params),
        WideVec2::new(0, 0)
    );
}

#[test]
fn an_obstacle_measures_the_distance_to_its_edge() {
    let block = AARectAlienAvoid { half_size: Vec2::new(10, 10) };
    assert_eq!(block.dist(Vec2::new(0, 0), Vec2::new(0, 60)), 50);
    assert_eq!(block.dist(Vec2::new(-50, 0), Vec2::new(-50, 5)), -5);
    assert_eq!(block.dist(Vec2::new(30, 40), Vec2::new(0, 60)), 23);
    assert_eq!(block.dist(Vec2::new(10, 70), Vec2::new(0, 60)), 0);
}

fn alien(x: i32, y: i32, vx: i32, vy: i32) -> Components {
    let mut c = Components::at(Vec2::new(x, y));
    c.quad_tree_element = true;
    c.alien = true;
    c.velocity = Some(Velocity(Vec2::new(vx, vy)));
    c
}

fn obstacle(x: i32, y: i32) -> Components {
    let mut c = Components::at(Vec2::new(x, y));
    c.quad_tree_element = true;
    c.alien_avoid = Some(AARectAlienAvoid { half_size: Vec2::new(10, 10) });
    c
}

fn flock() -> (Entities, QuadTree) {
    let mut entities = Entities::new();
    entities.insert(e(0), alien(0, 0, 100, 0));
    entities.insert(e(1), alien(30, 40, 0, 50));
    entities.insert(e(2), alien(-50, 0, 10, 10));
    entities.insert(e(3), obstacle(0, 60));
    entities.insert(e(4), obstacle(-50, 5));
    let mut ship = Components::at(Vec2::new(100, 0));
    ship.quad_tree_element = true;
    ship.ship = true;
    entities.insert(e(5), ship);
    let mut tree = QuadTree::new(AABB::new(Vec2::new(0, 0), 2000));
    buildtree(&entities, &mut tree);
    (entities, tree)
}

#[test]
fn an_alien_sums_up_what_it_sees() {
    let (entities, tree) = flock();
    let params = FlockParams::default();
    let (sums, inside) = boid_task(&tree, &entities, Vec2::new(0, 0), Vec2::new(100, 0), &params);
    assert!(!inside);
    assert_eq!(sums.separation, WideVec2::new(171_429, 228_572));
    assert_eq!(sums.alignment, WideVec2::new(0, 50));
    assert_eq!(sums.cohesion, WideVec2::new(30, 40));
    assert_eq!(sums.avoidance, WideVec2::new(0, 500_000));
    let (sums, inside) = boid_task(&tree, &entities, Vec2::new(-50, 0), Vec2::new(10, 10), &params);
    assert!(inside);
    assert_eq!(sums.separation, WideVec2::new(285_715, 0));
    assert_eq!(sums.alignment, WideVec2::new(100, 50));
    assert_eq!(sums.cohesion, WideVec2::new(130, 40));
    assert_eq!(sums.avoidance, WideVec2::new(224_064, 268_877));
}

#[test]
fn the_ship_is_found_where_there_is_exactly_one() {
    let (mut entities, _) = flock();
    assert_eq!(find_ship(&entities), Some(Vec2::new(100, 0)));
    let mut second = Components::at(Vec2::new(1, 1));
    second.ship = true;
    entities.insert(e(9), second);
    assert_eq!(find_ship(&entities), None);
    assert_eq!(find_ship(&Entities::new()), None);
}

#[test]
fn the_flock_turns_and_the_alien_inside_an_obstacle_is_named() {
    let (mut entities, tree) = flock();
    let params = FlockParams::default();
    let despawn = simulate_boids(&mut entities, &tree, Rotation::new(995_004, 99_833), &params);
    assert_eq!(despawn, vec![e(2)]);
    assert_eq!(entities.get(e(0)).unwrap().velocity, Some(Velocity(Vec2::new(99, -10))));
    assert_eq!(entities.get(e(1)).unwrap().velocity, Some(Velocity(Vec2::new(5, 50))));
    assert_eq!(entities.get(e(2)).unwrap().velocity, Some(Velocity(Vec2::new(9, 11))));
    assert_eq!(entities.get(e(0)).unwrap().translation, Vec2::new(0, 0));
    assert!(entities.get(e(2)).is_some());
    assert_eq!(entities.get(e(3)).unwrap().velocity, None);
    assert_eq!(entities.len(), 6);
}

#[test]
fn the_default_radii_and_weights() {
    let p = FlockParams::default();
    assert_eq!(p.radius, 200);
    assert_eq!(p.vision_cone_threshold, -700_000);
    assert_eq!(p.separation_radius, 70);
    assert_eq!(p.alien_avoid_separation_radius, 100);
    assert_eq!(p.ship_search_radius, 200);
    assert_eq!(
        (p.separation, p.alignment, p.cohesion, p.ship_search, p.aarect_avoidance),
        (10, 3, 1, 5, 50)
    );
}

#[test]
fn an_alien_that_leaves_the_field_comes_back_on_the_other_side() {
    let mut entities = Entities::new();
    entities.insert(e(0), alien(4001, -1, 1, 1));
    entities.insert(e(1), alien(4000, 0, 1, 1));
    entities.insert(e(2), alien(-5, 4500, 1, 1));
    entities.insert(e(3), obstacle(-5, 4500));
    check_bounds(&mut entities, 4000);
    assert_eq!(entities.get(e(0)).unwrap().translation, Vec2::new(0, 4000));
    assert_eq!(entities.get(e(1)).unwrap().translation, Vec2::new(4000, 0));
    assert_eq!(entities.get(e(2)).unwrap().translation, Vec2::new(4000, 0));
    assert_eq!(entities.get(e(3)).unwrap().translation, Vec2::new(-5, 4500));
}

#[test]
fn an_alien_faces_the_way_it_moves() {
    let mut entities = Entities::new();
    entities.insert(e(0), alien(0, 0, 0, -7));
    entities.insert(e(1), alien(0, 0, 30, 40));
    entities.insert(e(2), alien(0, 0, 0, 0));
    entities.insert(e(3), obstacle(0, 0));
    point_to_velocity(&mut entities);
    assert_eq!(entities.get(e(0)).unwrap().rotation, Rotation::new(0, -1_000_000));
    assert_eq!(entities.get(e(1)).unwrap().rotation, Rotation::new(600_000, 800_000));
    assert_eq!(entities.get(e(2)).unwrap().rotation, Rotation::identity());
    assert_eq!(entities.get(e(3)).unwrap().rotation, Rotation::identity());
}

#[test]
fn a_neighbour_straight_behind_adds_nothing_to_the_sums() {
    let mut entities = Entities::new();
    entities.insert(e(0), alien(0, 0, 0, 1));
    entities.insert(e(1), alien(0, -10, 3, 3));
    let mut tree = QuadTree::new(AABB::new(Vec2::new(0, 0), 2000));
    buildtree(&entities, &mut tree);
    let params = FlockParams::default();
    let (sums, inside) = boid_task(&tree, &entities, Vec2::new(0, 0), Vec2::new(0, 1), &params);
    assert_eq!(sums, FlockAccumulator::new());
    assert!(!inside);
    let (sums, _) = boid_task(&tree, &entities, Vec2::new(0, -10), Vec2::new(3, 3), &params);
    assert_eq!(sums.alignment, WideVec2::new(0, 1));
    assert_eq!(sums.cohesion, WideVec2::new(0, 10));
}

#[test]
fn a_lone_alien_that_turns_past_the_ship_keeps_its_speed() {
    let mut entities = Entities::new();
    entities.insert(e(0), alien(0, 0, 2, 0));
    let mut ship = Components::at(Vec2::new(0, 5));
    ship.ship = true;
    entities.insert(e(1), ship);
    let tree = QuadTree::new(AABB::new(Vec2::new(0, 0), 2000));
    let params = FlockParams::default();
    let despawn = simulate_boids(&mut entities, &tree, Rotation::new(-416_147, 909_297), &params);
    assert!(despawn.is_empty());
    assert_eq!(entities.get(e(0)).unwrap().velocity, Some(Velocity(Vec2::new(0, 2))));
    assert_eq!(entities.get(e(0)).unwrap().translation, Vec2::new(0, 0));
}

#[test]
fn an_alien_with_nothing_around_keeps_its_velocity() {
    let mut entities = Entities::new();
    entities.insert(e(0), alien(0, 0, 37, -12));
    let tree = QuadTree::new(AABB::new(Vec2::new(0, 0), 2000));
    simulate_boids(&mut entities, &tree, Rotation::new(0, 1_000_000), &FlockParams::default());
    assert_eq!(entities.get(e(0)).unwrap().velocity, Some(Velocity(Vec2::new(37, -12))));
}
