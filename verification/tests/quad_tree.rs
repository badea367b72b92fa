use space_shooter_core::entities::{Components, Entities};
use space_shooter_core::entity::Entity;
use space_shooter_core::quad_tree::{buildtree, Entry, QuadTree, AABB};
use space_shooter_core::vec2::Vec2;

fn e(i: u32) -> Entity {
    Entity::new(i, 0)
}

fn entry(x: i32, y: i32, i: u32) -> Entry {
    Entry { position: Vec2::new(x, y), entity: e(i) }
}

#[test]
fn five_points_in_one_quadrant_split_once_and_are_all_found() {
    let boundary = AABB::new(Vec2::new(0, 0), 100);
    let mut tree = QuadTree::new(boundary);
    assert_eq!(tree.depth(), 0);
    let points = [(10, 10), (20, 20), (30, 30), (40, 40), (60, 60)];
    for (i, (x, y)) in points.iter().enumerate() {
        assert!(tree.insert(Vec2::new(*x, *y), e(i as u32)));
    }
    assert_eq!(tree.depth(), 1);
    let found = tree.query_range(&boundary);
    assert_eq!(found, vec![e(0), e(1), e(2), e(3), e(4)]);
}

#[test]
fn four_points_do_not_split() {
    let mut tree = QuadTree::new(AABB::new(Vec2::new(0, 0), 100));
    for i in 0..4 {
        assert!(tree.insert(Vec2::new(i, i), e(i as u32)));
    }
    assert_eq!(tree.depth(), 0);
}

#[test]
fn a_point_outside_the_square_is_refused_and_changes_nothing() {
    let boundary = AABB::new(Vec2::new(0, 0), 100);
    let mut tree = QuadTree::new(boundary);
    assert!(!tree.insert(Vec2::new(101, 0), e(1)));
    assert!(!tree.insert(Vec2::new(0, -101), e(2)));
    assert!(tree.query_range(&AABB::new(Vec2::new(0, 0), 1000)).is_empty());
}

#[test]
fn the_edge_of_a_square_belongs_to_it() {
    let square = AABB::new(Vec2::new(0, 0), 100);
    assert!(square.contains_point(Vec2::new(100, 100)));
    assert!(square.contains_point(Vec2::new(-100, 0)));
    assert!(!square.contains_point(Vec2::new(101, 0)));
    assert!(!square.contains_point(Vec2::new(0, -101)));
    let mut tree = QuadTree::new(square);
    assert!(tree.insert(Vec2::new(100, -100), e(7)));
    assert_eq!(tree.query_range(&square), vec![e(7)]);
}

#[test]
fn squares_that_only_touch_do_not_overlap() {
    let a = AABB::new(Vec2::new(0, 0), 10);
    assert!(!a.intersects_aabb(&AABB::new(Vec2::new(20, 0), 10)));
    assert!(a.intersects_aabb(&AABB::new(Vec2::new(19, 0), 10)));
    assert!(!a.intersects_aabb(&AABB::new(Vec2::new(0, -20), 10)));
    assert!(a.intersects_aabb(&AABB::new(Vec2::new(19, 19), 10)));
    assert!(!a.intersects_aabb(&AABB::new(Vec2::new(19, 20), 10)));
}

#[test]
fn squares_at_the_ends_of_the_plane_are_handled() {
    let far = AABB::new(Vec2::new(i32::MAX, i32::MIN), i64::MAX);
    assert!(far.contains_point(Vec2::new(i32::MIN, i32::MAX)));
    assert!(far.intersects_aabb(&AABB::new(Vec2::new(i32::MIN, i32::MAX), i64::MAX)));
    assert!(!far.splittable());
    assert_eq!(far.quadrant(true, false), far);
    let mut tree = QuadTree::new(far);
    for i in 0..10 {
        assert!(tree.insert(Vec2::new(i, i), e(i as u32)));
    }
    assert_eq!(tree.depth(), 2);
    assert_eq!(tree.query_range(&far).len(), 10);
}

#[test]
fn a_square_of_negative_size_holds_nothing() {
    let none = AABB::new(Vec2::new(0, 0), -1);
    assert!(!none.contains_point(Vec2::new(0, 0)));
    let mut tree = QuadTree::new(none);
    assert!(!tree.insert(Vec2::new(0, 0), e(0)));
}

#[test]
fn quadrants_of_an_odd_square_cover_it() {
    let square = AABB::new(Vec2::new(0, 0), 5);
    assert!(square.splittable());
    let ne = square.quadrant(true, true);
    let sw = square.quadrant(false, false);
    assert_eq!(ne, AABB::new(Vec2::new(2, 2), 3));
    assert_eq!(sw, AABB::new(Vec2::new(-2, -2), 3));
    assert_eq!(square.quadrant(false, true), AABB::new(Vec2::new(-2, 2), 3));
    assert_eq!(square.quadrant(true, false), AABB::new(Vec2::new(2, -2), 3));
    for x in -5..=5 {
        for y in -5..=5 {
            let p = Vec2::new(x, y);
            assert!(
                ne.contains_point(p)
                    || sw.contains_point(p)
                    || square.quadrant(false, true).contains_point(p)
                    || square.quadrant(true, false).contains_point(p)
            );
        }
    }
}

#[test]
fn a_query_yields_what_lies_in_the_range_and_nothing_else() {
    let mut tree = QuadTree::new(AABB::new(Vec2::new(0, 0), 100));
    let mut expected = Vec::new();
    let range = AABB::new(Vec2::new(20, -30), 25);
    let mut i = 0;
    for x in (-100..=100).step_by(10) {
        for y in (-100..=100).step_by(10) {
            assert!(tree.insert(Vec2::new(x, y), e(i)));
            if -5 < x && x < 45 && -55 < y && y < -5 {
                expected.push(e(i));
            }
            i += 1;
        }
    }
    let mut found = tree.query_range(&range);
    for handle in &expected {
        assert!(found.contains(handle));
    }
    found.sort_by_key(|h| h.index);
    found.dedup();
    for handle in &found {
        let x = -100 + 10 * (handle.index / 21) as i32;
        let y = -100 + 10 * (handle.index % 21) as i32;
        assert!(range.contains_point(Vec2::new(x, y)));
    }
}

#[test]
fn a_child_whose_square_only_touches_the_range_is_not_asked() {
    let mut tree = QuadTree::new(AABB::new(Vec2::new(0, 0), 100));
    for i in 1..=4 {
        assert!(tree.insert(Vec2::new(i, i), e(i as u32)));
    }
    assert!(tree.insert(Vec2::new(0, 50), e(5)));
    let range = AABB::new(Vec2::new(-10, 50), 10);
    assert!(range.contains_point(Vec2::new(0, 50)));
    assert!(tree.query_range(&range).is_empty());
    assert_eq!(tree.query_range(&AABB::new(Vec2::new(-10, 50), 11)), vec![e(5)]);
}

#[test]
fn many_objects_in_one_place_are_all_kept() {
    let boundary = AABB::new(Vec2::new(0, 0), 4);
    let mut tree = QuadTree::new(boundary);
    for i in 0..100 {
        assert!(tree.insert(Vec2::new(0, 0), e(i)));
    }
    assert_eq!(tree.depth(), 24);
    let found = tree.query_range(&AABB::new(Vec2::new(0, 0), 1));
    assert_eq!(found.len(), 100);
    for i in 0..100 {
        assert!(found.contains(&e(i)));
    }
}

#[test]
fn rebuilding_twice_from_the_same_entries_answers_alike() {
    let items = vec![
        entry(1, 1, 0),
        entry(-50, 20, 1),
        entry(99, -99, 2),
        entry(500, 0, 3),
        entry(2, 2, 4),
        entry(3, 3, 5),
        entry(60, 61, 6),
    ];
    let mut tree = QuadTree::new(AABB::new(Vec2::new(0, 0), 100));
    assert!(tree.insert(Vec2::new(7, 7), e(77)));
    tree.rebuild(&items);
    let range = AABB::new(Vec2::new(0, 0), 70);
    let first = tree.query_range(&range);
    tree.rebuild(&items);
    let second = tree.query_range(&range);
    assert_eq!(first, second);
    assert_eq!(first, vec![e(0), e(1), e(4), e(5), e(6)]);
    assert_eq!(tree.boundary(), AABB::new(Vec2::new(0, 0), 100));
    let all = tree.query_range(&AABB::new(Vec2::new(0, 0), 1000));
    assert_eq!(all.len(), 6);
    assert!(!all.contains(&e(3)));
    assert!(!all.contains(&e(77)));
}

#[test]
fn the_tree_is_built_from_the_objects_entered_into_it() {
    let mut entities = Entities::new();
    let mut near = Components::at(Vec2::new(5, 5));
    near.quad_tree_element = true;
    let mut far = Components::at(Vec2::new(5000, 5));
    far.quad_tree_element = true;
    let hidden = Components::at(Vec2::new(6, 6));
    entities.insert(e(0), near);
    entities.insert(e(3), far);
    entities.insert(e(1), hidden);
    let mut tree = QuadTree::new(AABB::new(Vec2::new(0, 0), 2000));
    assert!(tree.insert(Vec2::new(1, 1), e(9)));
    buildtree(&entities, &mut tree);
    assert_eq!(tree.query_range(&AABB::new(Vec2::new(0, 0), 2000)), vec![e(0)]);
}

fn next(state: &mut u64) -> i32 {
    *state = state.wrapping_mul(6364136223846793005).wrapping_add(1442695040888963407);
    ((*state >> 33) % 401) as i32 - 200
}

#[test]
fn queries_agree_with_a_search_through_all_entries() {
    let mut state = 7u64;
    for round in 0..20 {
        let boundary = AABB::new(Vec2::new(next(&mut state) / 10, next(&mut state) / 10), 150 + round);
        let mut tree = QuadTree::new(boundary);
        let mut stored = Vec::new();
        for i in 0..300u32 {
            let p = Vec2::new(next(&mut state), next(&mut state));
            let taken = tree.insert(p, e(i));
            assert_eq!(taken, boundary.contains_point(p));
            if taken {
                stored.push((p, e(i)));
            }
        }
        for _ in 0..30 {
            let c = Vec2::new(next(&mut state), next(&mut state));
            let h = (next(&mut state).abs() % 80) as i64;
            let range = AABB::new(c, h);
            let found = tree.query_range(&range);
            for handle in &found {
                let (p, _) = stored.iter().find(|(_, s)| s == handle).unwrap();
                assert!(range.contains_point(*p));
            }
            let mut once = found.clone();
            once.sort_by_key(|handle| handle.index);
            once.dedup();
            assert_eq!(once.len(), found.len());
            for (p, handle) in &stored {
                let strictly = (c.x as i64 - h) < p.x as i64
                    && (p.x as i64) < c.x as i64 + h
                    && (c.y as i64 - h) < p.y as i64
                    && (p.y as i64) < c.y as i64 + h;
                if strictly {
                    assert!(found.contains(handle));
                }
            }
        }
    }
}

#[test]
fn a_full_leaf_splits_however_small_its_square() {
    for half in [0i64, 1] {
        let square = AABB::new(Vec2::new(0, 0), half);
        assert!(!square.splittable());
        assert_eq!(square.quadrant(true, true), square);
        let mut tree = QuadTree::new(square);
        for i in 0..4 {
            assert!(tree.insert(Vec2::new(0, 0), e(i)));
        }
        assert_eq!(tree.depth(), 0);
        assert!(tree.insert(Vec2::new(0, 0), e(4)));
        assert_eq!(tree.depth(), 1);
        for i in 5..9 {
            assert!(tree.insert(Vec2::new(0, 0), e(i)));
        }
        assert_eq!(tree.depth(), 2);
        let around = AABB::new(Vec2::new(0, 0), 1);
        assert_eq!(tree.query_range(&around), (0..9).map(e).collect::<Vec<_>>());
    }
}
