use spatial::SpatialKey;

#[test]
fn order_of_integers() {
    assert!(SpatialKey::leq(&3i64, &3i64));
    assert!(SpatialKey::leq(&-4i64, &3i64));
    assert!(!SpatialKey::leq(&4i64, &3i64));
}

#[test]
fn sums_and_differences_are_exact_in_range() {
    assert_eq!(SpatialKey::plus(40i64, 2i64), 42);
    assert_eq!(SpatialKey::plus(-40i64, 2i64), -38);
    assert_eq!(SpatialKey::minus(40i64, 2i64), 38);
    assert_eq!(SpatialKey::minus(2i64, 40i64), -38);
}

#[test]
fn sums_and_differences_saturate() {
    assert_eq!(SpatialKey::plus(i64::MAX, 1i64), i64::MAX);
    assert_eq!(SpatialKey::plus(i64::MIN, -1i64), i64::MIN);
    assert_eq!(SpatialKey::minus(i64::MIN, 1i64), i64::MIN);
    assert_eq!(SpatialKey::minus(i64::MAX, -1i64), i64::MAX);
    assert_eq!(SpatialKey::minus(0i64, i64::MIN), i64::MAX);
}

#[test]
fn midpoint_is_the_mean_rounded_down() {
    assert_eq!(SpatialKey::midpoint(3i64, 10i64), 6);
    assert_eq!(SpatialKey::midpoint(10i64, 3i64), 6);
    assert_eq!(SpatialKey::midpoint(-2i64, -5i64), -4);
    assert_eq!(SpatialKey::midpoint(4i64, 4i64), 4);
    assert_eq!(SpatialKey::midpoint(0i64, 100i64), 50);
}

#[test]
fn midpoint_does_not_overflow() {
    assert_eq!(SpatialKey::midpoint(i64::MAX, i64::MAX), i64::MAX);
    assert_eq!(SpatialKey::midpoint(i64::MIN, i64::MIN), i64::MIN);
    assert_eq!(SpatialKey::midpoint(i64::MIN, i64::MAX), -1);
    assert_eq!(SpatialKey::midpoint(i64::MAX - 2, i64::MAX), i64::MAX - 1);
}

#[test]
fn square_is_exact_in_range() {
    assert_eq!(SpatialKey::square(0i64), 0);
    assert_eq!(SpatialKey::square(5i64), 25);
    assert_eq!(SpatialKey::square(-7i64), 49);
    assert_eq!(SpatialKey::square(3_037_000_499i64), 9_223_372_030_926_249_001);
}

#[test]
fn square_saturates() {
    assert_eq!(SpatialKey::square(3_037_000_500i64), i64::MAX);
    assert_eq!(SpatialKey::square(-3_037_000_500i64), i64::MAX);
    assert_eq!(SpatialKey::square(i64::MIN), i64::MAX);
}

#[test]
fn root_of_a_square_is_exact() {
    assert_eq!(SpatialKey::sqrt(0i64), 0);
    assert_eq!(SpatialKey::sqrt(1i64), 1);
    assert_eq!(SpatialKey::sqrt(16i64), 4);
    assert_eq!(SpatialKey::sqrt(100i64), 10);
}

#[test]
fn root_is_rounded_up() {
    assert_eq!(SpatialKey::sqrt(2i64), 2);
    assert_eq!(SpatialKey::sqrt(17i64), 5);
    assert_eq!(SpatialKey::sqrt(99i64), 10);
    assert_eq!(SpatialKey::sqrt(101i64), 11);
    assert_eq!(SpatialKey::sqrt(i64::MAX), 3_037_000_500);
}
