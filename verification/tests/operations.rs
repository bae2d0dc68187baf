use collisions::operations::{add, dist, dot, isqrt, scale, sub};
use collisions::settings::ONE;

#[test]
fn add_sums_each_component() {
    assert_eq!(add([1, 2], [30, -40]), [31, -38]);
    assert_eq!(add([-50_000_000, 25_000_000], [2_000_000, -2_000_000]), [-48_000_000, 23_000_000]);
}

#[test]
fn add_saturates_at_both_ends() {
    assert_eq!(add([i32::MAX, i32::MIN], [1, -1]), [i32::MAX, i32::MIN]);
    assert_eq!(add([i32::MAX, i32::MIN], [i32::MAX, i32::MIN]), [i32::MAX, i32::MIN]);
    assert_eq!(add([i32::MAX, i32::MIN], [i32::MIN, i32::MAX]), [-1, -1]);
}

#[test]
fn sub_subtracts_each_component() {
    assert_eq!(sub([1, 2], [30, -40]), [-29, 42]);
    assert_eq!(sub([0, 0], [7, -7]), [-7, 7]);
}

#[test]
fn sub_saturates_at_both_ends() {
    assert_eq!(sub([i32::MIN, i32::MAX], [1, -1]), [i32::MIN, i32::MAX]);
    assert_eq!(sub([0, -2], [i32::MIN, i32::MAX]), [i32::MAX, i32::MIN]);
}

#[test]
fn scale_by_one_changes_nothing() {
    assert_eq!(scale(ONE, [12_345_678, -87_654_321]), [12_345_678, -87_654_321]);
}

#[test]
fn scale_rounds_toward_zero() {
    // Half of 3 and of -3 is 1.5 and -1.5.
    assert_eq!(scale(50_000_000, [3, -3]), [1, -1]);
    // A third of the unit, both ways.
    assert_eq!(scale(33_333_333, [ONE, -ONE]), [33_333_333, -33_333_333]);
    assert_eq!(scale(-25_000_000, [10, -10]), [-2, 2]);
    assert_eq!(scale(1, [99_999_999, -99_999_999]), [0, 0]);
}

#[test]
fn scale_saturates() {
    assert_eq!(scale(i32::MAX, [i32::MAX, i32::MIN]), [i32::MAX, i32::MIN]);
    assert_eq!(scale(2 * ONE, [2_000_000_000, -2_000_000_000]), [i32::MAX, i32::MIN]);
}

#[test]
fn dot_is_the_scaled_inner_product() {
    // (0.5, 0.25) . (0.5, -1) = 0.25 - 0.25 = 0
    assert_eq!(dot([50_000_000, 25_000_000], [50_000_000, -ONE]), 0);
    // (0.02, 0) . (-0.025, 0) = -0.0005
    assert_eq!(dot([2_000_000, 0], [-2_500_000, 0]), -50_000);
    assert_eq!(dot([ONE, ONE], [ONE, ONE]), 2 * ONE);
}

#[test]
fn dot_rounds_toward_zero_and_saturates() {
    assert_eq!(dot([1, 0], [99_999_999, 0]), 0);
    assert_eq!(dot([-1, 0], [199_999_999, 0]), -1);
    assert_eq!(dot([i32::MAX, i32::MAX], [i32::MAX, i32::MAX]), i32::MAX);
    assert_eq!(dot([i32::MIN, i32::MIN], [i32::MAX, i32::MAX]), i32::MIN);
}

#[test]
fn dist_of_a_right_triangle() {
    assert_eq!(dist([0, 0], [3, 4]), 5);
    assert_eq!(dist([-30_000_000, 10_000_000], [0, -30_000_000]), 50_000_000);
    assert_eq!(dist([7, 7], [7, 7]), 0);
}

#[test]
fn dist_rounds_down() {
    // The diagonal of the unit square is 1.41421356...
    assert_eq!(dist([0, 0], [ONE, ONE]), 141_421_356);
    assert_eq!(dist([0, 0], [1, 1]), 1);
    assert_eq!(dist([0, 0], [2, 2]), 2);
}

#[test]
fn dist_is_symmetric_and_saturates() {
    assert_eq!(dist([5, -9], [-11, 3]), dist([-11, 3], [5, -9]));
    assert_eq!(dist([i32::MIN, i32::MIN], [i32::MAX, i32::MAX]), i32::MAX);
    assert_eq!(dist([i32::MIN, 0], [i32::MAX, 0]), i32::MAX);
    assert_eq!(dist([0, 0], [i32::MAX, 0]), i32::MAX);
}

#[test]
fn isqrt_is_the_integer_part_of_the_root() {
    assert_eq!(isqrt(0), 0);
    assert_eq!(isqrt(1), 1);
    assert_eq!(isqrt(3), 1);
    assert_eq!(isqrt(4), 2);
    assert_eq!(isqrt(24), 4);
    assert_eq!(isqrt(25), 5);
    assert_eq!(isqrt(1_000_000_000_000), 1_000_000);
    assert_eq!(isqrt(999_999_999_999), 999_999);
    assert_eq!(isqrt(u128::MAX), u64::MAX);
    assert_eq!(isqrt((u64::MAX as u128) * (u64::MAX as u128) - 1), u64::MAX - 1);
}
