use ldn_demo::queue_status_callback;
use ldn_demo::utils::{
    Coordinates, add_coords, coords_in_bounds, isqrt, move_to, multiply, normalized_direction,
    squared_distance, COORD_LIMIT,
};

fn at(x: i64, y: i64, z: i64) -> Coordinates {
    Coordinates { x, y, z }
}

#[test]
fn squared_distance_is_the_sum_of_squared_offsets() {
    assert_eq!(squared_distance(&at(0, 0, 0), &at(3, 4, 0)), 25);
    assert_eq!(squared_distance(&at(1, 2, 3), &at(1, 2, 3)), 0);
    assert_eq!(squared_distance(&at(-2, 0, 0), &at(2, 0, 0)), 16);
}

#[test]
fn isqrt_brackets_its_argument() {
    assert_eq!(isqrt(0), 0);
    assert_eq!(isqrt(1), 1);
    assert_eq!(isqrt(24), 4);
    assert_eq!(isqrt(25), 5);
    assert_eq!(isqrt(26), 5);
    assert_eq!(isqrt(1_000_000_000_000), 1_000_000);
}

#[test]
fn move_to_steps_along_the_axis_at_speed() {
    let from = at(0, 0, 0);
    let to = at(10_000, 0, 0);
    let stepped = move_to(&from, &to, 50);
    assert_eq!(stepped, at(50, 0, 0));
}

#[test]
fn move_to_splits_the_speed_over_the_axes() {
    let from = at(0, 0, 0);
    let to = at(3_000, 4_000, 0);
    // Magnitude 5000: x moves 3000*50/5000 = 30, y moves 40.
    let stepped = move_to(&from, &to, 50);
    assert_eq!(stepped, at(30, 40, 0));
}

#[test]
fn normalized_direction_is_a_fixed_point_unit_vector() {
    let dir = normalized_direction(&at(3_000, 4_000, 0), &at(0, 0, 0));
    assert_eq!(dir, at(600, 800, 0));
    let back = normalized_direction(&at(0, 0, 0), &at(3_000, 4_000, 0));
    assert_eq!(back, at(-600, -800, 0));
}

#[test]
fn add_and_multiply_work_component_wise() {
    let sum = add_coords(&at(1, 2, 3), &at(10, 20, 30));
    assert_eq!(sum, at(11, 22, 33));
    let mut c = at(2, -3, 4);
    multiply(&mut c, 5);
    assert_eq!(c, at(10, -15, 20));
}

#[test]
fn bounds_test_matches_the_world_limit() {
    assert!(coords_in_bounds(&at(COORD_LIMIT, -COORD_LIMIT, 0)));
    assert!(!coords_in_bounds(&at(COORD_LIMIT + 1, 0, 0)));
}

#[test]
fn queue_status_callback_always_keeps_waiting() {
    assert!(queue_status_callback(&Ok(3)));
    assert!(queue_status_callback(&Err(String::from("queue full"))));
}
