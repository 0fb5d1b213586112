use pathfinder::double::{add_rounded, round, whole_tenfold, DIAGONAL, LIMIT, UNIT};

/// The number that a double holds, as a multiple of 2 to the -52.
fn held(x: f64) -> u128 {
    assert!(x == 0.0 || x >= 1.0);
    (x * 4503599627370496.0) as u128
}

/// Numbers from 0 up to 1, from `state` alone.
fn next(state: &mut u64) -> u64 {
    *state = state.wrapping_mul(6364136223846793005).wrapping_add(1442695040888963407);
    *state >> 33
}

#[test]
fn the_constants_are_one_and_seven_fifths() {
    assert_eq!(UNIT, held(1.0));
    assert_eq!(DIAGONAL, held(1.4));
    assert_eq!(LIMIT, held(2.0));
}

#[test]
fn short_numbers_are_held_exactly() {
    assert_eq!(round(0), 0);
    assert_eq!(round(1), 1);
    assert_eq!(round(UNIT), UNIT);
    assert_eq!(round(LIMIT - 1), LIMIT - 1);
    assert_eq!(round(LIMIT), LIMIT);
}

#[test]
fn long_numbers_are_rounded_to_the_nearest_and_to_even_between() {
    // one bit too many: the last bit goes, a tie goes to the even neighbour
    assert_eq!(round(LIMIT + 1), LIMIT);
    assert_eq!(round(LIMIT + 2), LIMIT + 2);
    assert_eq!(round(LIMIT + 3), LIMIT + 4);
    assert_eq!(round(LIMIT + 5), LIMIT + 4);
    assert_eq!(round(LIMIT + 7), LIMIT + 8);
    // two bits too many
    assert_eq!(round(2 * LIMIT + 1), 2 * LIMIT);
    assert_eq!(round(2 * LIMIT + 2), 2 * LIMIT);
    assert_eq!(round(2 * LIMIT + 3), 2 * LIMIT + 4);
    assert_eq!(round(2 * LIMIT + 6), 2 * LIMIT + 8);
    assert_eq!(round(2 * LIMIT + 10), 2 * LIMIT + 8);
    // rounding up to the next power of two
    assert_eq!(round(2 * LIMIT - 1), 2 * LIMIT);
}

#[test]
fn three_diagonal_steps_cost_a_little_less_than_forty_two_tenths() {
    let two = add_rounded(DIAGONAL, DIAGONAL);
    let three = add_rounded(two, DIAGONAL);
    assert_eq!(two, held(1.4 + 1.4));
    assert_eq!(three, held(1.4 + 1.4 + 1.4));
    assert_eq!(whole_tenfold(DIAGONAL), 14);
    assert_eq!(whole_tenfold(two), 28);
    assert_eq!(whole_tenfold(three), 41);
    assert_eq!(whole_tenfold(UNIT), 10);
    assert_eq!(whole_tenfold(0), 0);
}

#[test]
fn sums_of_steps_are_those_of_double_precision() {
    let mut state = 17u64;
    for _ in 0..2000 {
        let mut x = 0.0f64;
        let mut c = 0u128;
        let steps = 1 + next(&mut state) % 400;
        for _ in 0..steps {
            if next(&mut state) % 2 == 0 {
                x = x + 1.0;
                c = add_rounded(c, UNIT);
            } else {
                x = x + 1.4;
                c = add_rounded(c, DIAGONAL);
            }
            assert_eq!(c, held(x));
            assert_eq!(whole_tenfold(c), (x * 10.0) as u128);
        }
    }
}

/// A number of 53 bits times a power of two, as a double and as held.
fn large(state: &mut u64) -> (f64, u128) {
    let bits = 1u64 << 52 | (next(state) << 21) & ((1u64 << 52) - 1) | next(state) & ((1u64 << 21) - 1);
    let shift = next(state) % 40;
    let x = bits as f64 * 2f64.powi(shift as i32 - 52);
    (x, (bits as u128) << shift)
}

#[test]
fn sums_of_large_numbers_are_those_of_double_precision() {
    let mut state = 5u64;
    for _ in 0..5000 {
        let (a, held_a) = large(&mut state);
        let (b, held_b) = large(&mut state);
        assert_eq!(held_a, held(a));
        assert_eq!(add_rounded(held_a, held_b), held(a + b));
        assert_eq!(whole_tenfold(held_a), (a * 10.0) as u128);
    }
}
