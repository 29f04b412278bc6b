use rrt::steer::{isqrt, steer};

#[test]
fn isqrt_rounds_down() {
    assert_eq!(isqrt(0), 0);
    assert_eq!(isqrt(1), 1);
    assert_eq!(isqrt(3), 1);
    assert_eq!(isqrt(4), 2);
    assert_eq!(isqrt(24), 4);
    assert_eq!(isqrt(25), 5);
    assert_eq!(isqrt(26), 5);
    assert_eq!(isqrt(1_000_000_000_000), 1_000_000);
    assert_eq!(isqrt(999_999_999_999), 999_999);
    assert_eq!(isqrt(u128::MAX), u64::MAX);
    assert_eq!(isqrt((u64::MAX as u128) * (u64::MAX as u128)), u64::MAX);
    assert_eq!(isqrt((u64::MAX as u128) * (u64::MAX as u128) - 1), u64::MAX - 1);
}

#[test]
fn steer_moves_one_step_along_the_direction() {
    assert_eq!(steer(&[0, 0], &[30, 40], 5), Some((3, 4)));
    assert_eq!(steer(&[0, 0], &[-30, 40], 5), Some((-3, 4)));
    assert_eq!(steer(&[0, 0], &[-30, -40], 5), Some((-3, -4)));
    assert_eq!(steer(&[10, 20], &[13, 24], 10), Some((16, 28)));
    assert_eq!(steer(&[7, 7], &[100, 7], 12), Some((19, 7)));
    assert_eq!(steer(&[7, 7], &[7, -100], 12), Some((7, -5)));
}

#[test]
fn steer_rounds_each_coordinate_towards_the_start() {
    // Direction (1, 1), step 10: 10 / sqrt(2) = 7.07...
    assert_eq!(steer(&[0, 0], &[1, 1], 10), Some((7, 7)));
    assert_eq!(steer(&[0, 0], &[-1, -1], 10), Some((-7, -7)));
    // Direction (1, 2), step 100: 44.7..., 89.4...
    assert_eq!(steer(&[0, 0], &[1, 2], 100), Some((44, 89)));
    assert_eq!(steer(&[5, 5], &[4, 7], 100), Some((-39, 94)));
}

#[test]
fn steer_has_no_direction_from_a_point_to_itself() {
    assert_eq!(steer(&[3, 3], &[3, 3], 10), None);
    assert_eq!(steer(&[i32::MIN, i32::MAX], &[i32::MIN, i32::MAX], u32::MAX), None);
}

#[test]
fn steer_with_a_step_of_zero_stays() {
    assert_eq!(steer(&[3, 3], &[9, 9], 0), Some((3, 3)));
}

#[test]
fn steer_may_leave_the_coordinate_range() {
    let far = steer(&[i32::MAX, 0], &[i32::MAX, 1], u32::MAX);
    assert_eq!(far, Some((i32::MAX as i64, u32::MAX as i64)));
    let far = steer(&[i32::MIN, i32::MIN], &[i32::MAX, i32::MIN], u32::MAX);
    assert_eq!(far, Some((i32::MIN as i64 + u32::MAX as i64, i32::MIN as i64)));
    let back = steer(&[i32::MIN, 0], &[i32::MAX, 0], 1);
    assert_eq!(back, Some((i32::MIN as i64 + 1, 0)));
}
