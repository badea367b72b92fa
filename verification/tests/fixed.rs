use space_shooter_core::fixed::{div_toward_zero, isqrt, isqrt_ceil, saturate, ONE};
use space_shooter_core::vec2::{normalize, Rotation, Vec2, WideVec2};

#[test]
fn roots_are_rounded_down_or_up() {
    assert_eq!(isqrt(0), 0);
    assert_eq!(isqrt(1), 1);
    assert_eq!(isqrt(24), 4);
    assert_eq!(isqrt(25), 5);
    assert_eq!(isqrt(26), 5);
    assert_eq!(isqrt(u128::MAX), u64::MAX);
    assert_eq!(isqrt_ceil(0), 0);
    assert_eq!(isqrt_ceil(24), 5);
    assert_eq!(isqrt_ceil(25), 5);
    assert_eq!(isqrt_ceil(26), 6);
    assert_eq!(isqrt_ceil(u128::MAX), 1u128 << 64);
}

#[test]
fn quotients_are_rounded_toward_zero() {
    assert_eq!(div_toward_zero(7, 2), 3);
    assert_eq!(div_toward_zero(-7, 2), -3);
    assert_eq!(div_toward_zero(7, -2), -3);
    assert_eq!(div_toward_zero(-7, -2), 3);
    assert_eq!(div_toward_zero(0, -5), 0);
}

#[test]
fn sums_are_limited_to_what_can_be_held() {
    assert_eq!(saturate(i64::MAX as i128 + 1), i64::MAX);
    assert_eq!(saturate(i64::MIN as i128 - 1), i64::MIN);
    assert_eq!(saturate(-5), -5);
    let big = WideVec2::new(i64::MAX, i64::MIN);
    assert_eq!(big.saturating_add(WideVec2::new(1, -1)), big);
    assert_eq!(WideVec2::new(1, 2).saturating_add(WideVec2::new(3, -5)), WideVec2::new(4, -3));
}

#[test]
fn lengths_are_rounded_up() {
    assert_eq!(Vec2::new(3, 4).length(), 5);
    assert_eq!(Vec2::new(1, 1).length(), 2);
    assert_eq!(Vec2::new(0, 0).length(), 0);
    assert_eq!(Vec2::new(i32::MIN, i32::MIN).length(), 3037000500);
    assert_eq!(Vec2::new(0, 0).distance(Vec2::new(9, 0)), 9);
    assert_eq!(Vec2::new(i32::MIN, 0).distance(Vec2::new(i32::MAX, 0)), 4294967295);
    assert_eq!(Vec2::new(1, 2).distance_squared(Vec2::new(4, -2)), 25);
    assert_eq!(Vec2::new(1, 2).to(Vec2::new(4, -2)), WideVec2::new(3, -4));
}

#[test]
fn unit_vectors_are_exact_where_the_length_is_whole() {
    assert_eq!(Vec2::new(3, 4).normalize(), WideVec2::new(600_000, 800_000));
    assert_eq!(Vec2::new(0, -10).normalize(), WideVec2::new(0, -ONE));
    assert_eq!(Vec2::new(0, 0).normalize(), WideVec2::new(0, 0));
    assert_eq!(Vec2::new(-1, 1).normalize(), WideVec2::new(-707_107, 707_107));
    assert_eq!(normalize(i64::MAX, 0), WideVec2::new(ONE, 0));
    assert_eq!(normalize(i64::MIN, i64::MIN), WideVec2::new(-707_106, -707_106));
    assert_eq!(WideVec2::new(0, 5).normalize_or_zero(), WideVec2::new(0, ONE));
}

#[test]
fn vectors_are_scaled_in_fixed_point() {
    assert_eq!(WideVec2::new(600_000, 800_000).scale(928_572), WideVec2::new(557_143, 742_857));
    assert_eq!(WideVec2::new(-3, 3).scale(500_000), WideVec2::new(-1, 1));
    assert_eq!(WideVec2::new(i64::MAX, i64::MIN).scale(2 * ONE), WideVec2::new(i64::MAX, i64::MIN));
}

#[test]
fn a_rotation_turns_counter_clockwise_and_back() {
    let quarter = Rotation::new(0, 1_000_000);
    assert_eq!(quarter.apply(Vec2::new(100, 0), false), WideVec2::new(0, 100));
    assert_eq!(quarter.apply(Vec2::new(100, 0), true), WideVec2::new(0, -100));
    assert_eq!(quarter.apply(Vec2::new(0, 100), false), WideVec2::new(-100, 0));
    let small = Rotation::new(999_950, 10_000);
    assert_eq!(small.apply(Vec2::new(100, 0), false), WideVec2::new(99, 1));
    assert_eq!(Rotation::identity().apply(Vec2::new(-7, 9), false), WideVec2::new(-7, 9));
    assert_eq!(small.apply_raw(Vec2::new(100, 0), false), (99_995_000, 1_000_000));
    assert_eq!(quarter.apply_raw(Vec2::new(100, 0), true), (0, -100_000_000));
    assert_eq!(Vec2::from_wide(1 << 31, 0), None);
    assert_eq!(Vec2::from_wide(-(1 << 31), 5), Some(Vec2::new(i32::MIN, 5)));
}

#[test]
fn a_direction_is_given_the_length_of_a_vector() {
    let along = |x: i64, y: i64, v: (i32, i32)| {
        WideVec2::new(x, y).with_length_of(Vec2::new(v.0, v.1))
    };
    assert_eq!(along(600_000, 800_000, (5, 0)), Some(Vec2::new(3, 4)));
    assert_eq!(along(0, -1_000_000, (3, 4)), Some(Vec2::new(0, -5)));
    assert_eq!(along(1_000_000, 1_000_000, (1, 1)), Some(Vec2::new(1, 1)));
    assert_eq!(along(707_107, 707_107, (10, 0)), Some(Vec2::new(7, 7)));
    assert_eq!(along(1, 0, (0, 7)), Some(Vec2::new(7, 0)));
    assert_eq!(along(-999_950, 9_999, (100, 0)), Some(Vec2::new(-100, 1)));
    assert_eq!(along(0, 0, (3, 4)), None);
    assert_eq!(along(1, 0, (i32::MAX, i32::MAX)), None);
    assert_eq!(along(5, 5, (0, 0)), Some(Vec2::new(0, 0)));
}
