use pathfinder::measure::{
    gap_of, get_distances, get_new_position, integer_root, length, square_distance, MAX_LENGTH, SCALE,
};

#[test]
fn integer_root_is_the_largest_within_the_limit() {
    assert_eq!(integer_root(1, 0, 10), 0);
    assert_eq!(integer_root(1, 1, 10), 1);
    assert_eq!(integer_root(1, 15, 10), 3);
    assert_eq!(integer_root(1, 16, 10), 4);
    assert_eq!(integer_root(1, 24, 10), 4);
    assert_eq!(integer_root(1, 1000, 10), 10);
    assert_eq!(integer_root(2, 17, 100), 2);
    assert_eq!(integer_root(2, 18, 100), 3);
    assert_eq!(integer_root(0, 5, 7), 7);
    assert_eq!(integer_root(1, 5, 0), 0);
    assert_eq!(integer_root(1, u128::MAX, u64::MAX), u64::MAX);
}

#[test]
fn length_is_in_1024ths_rounded_down() {
    assert_eq!(SCALE, 1024);
    assert_eq!(length((0, 0), (3, 4)), 5120);
    assert_eq!(length((3, 4), (0, 0)), 5120);
    assert_eq!(length((0, 0), (1, 1)), 1448);
    assert_eq!(length((0, 0), (0, 7)), 7168);
    assert_eq!(length((2, 2), (2, 2)), 0);
    assert_eq!(length((0, 0), (10, 10)), 14481);
    assert_eq!(length((0, 0), (19, 19)), 27514);
    assert_eq!(length((10, 10), (19, 19)), 13033);
}

#[test]
fn length_between_far_corners_stays_below_the_limit() {
    let far = 0x7fff_ffff;
    let l = length((0, 0), (far, far));
    assert!(l <= MAX_LENGTH);
    // 1024 * sqrt(2) * (2^31 - 1), rounded down
    assert_eq!(l, 3109888510527);
}

#[test]
fn square_distance_and_gap() {
    assert_eq!(gap_of(3, 10), 7);
    assert_eq!(gap_of(10, 3), 7);
    assert_eq!(gap_of(4, 4), 0);
    assert_eq!(square_distance((1, 2), (4, 6)), 25);
    assert_eq!(square_distance((4, 6), (1, 2)), 25);
    assert_eq!(square_distance((0, 0), (0, 0)), 0);
}

#[test]
fn get_distances_gives_signed_ways_and_offset_length() {
    assert_eq!(get_distances((5, 5), (2, 9), 100), (-3, 4, 5220));
    assert_eq!(get_distances((2, 9), (5, 5), 0), (3, -4, 5120));
    assert_eq!(get_distances((7, 7), (7, 7), 42), (0, 0, 42));
}

#[test]
fn steering_within_reach_gives_the_target() {
    assert_eq!(get_new_position((0, 0), (3, 4), 10), ((3, 4), 5120));
    assert_eq!(get_new_position((0, 0), (6, 8), 10), ((6, 8), 10240));
    assert_eq!(get_new_position((4, 4), (4, 4), 10), ((4, 4), 0));
    assert_eq!(get_new_position((3, 3), (0, 0), 10), ((0, 0), 4344));
}

#[test]
fn steering_goes_step_cells_along_the_line() {
    assert_eq!(get_new_position((0, 0), (30, 40), 10), ((6, 8), 51200));
    assert_eq!(get_new_position((0, 0), (0, 100), 10), ((0, 10), 102400));
    assert_eq!(get_new_position((0, 0), (100, 0), 10), ((10, 0), 102400));
    assert_eq!(get_new_position((0, 10), (19, 19), 10).0, (9, 14));
}

#[test]
fn steering_rounds_down_in_both_directions() {
    // 10 / sqrt(2) = 7.07: up to 57, down to 42
    assert_eq!(get_new_position((50, 50), (60, 60), 10).0, (57, 57));
    assert_eq!(get_new_position((50, 50), (40, 40), 10).0, (42, 42));
    assert_eq!(get_new_position((50, 50), (60, 40), 10).0, (57, 42));
    // an exact share is not rounded
    assert_eq!(get_new_position((50, 50), (20, 10), 10).0, (44, 42));
}

#[test]
fn steering_with_a_step_of_nothing_stays() {
    assert_eq!(get_new_position((5, 5), (9, 9), 0).0, (5, 5));
    assert_eq!(get_new_position((5, 5), (1, 1), 0).0, (5, 5));
}
