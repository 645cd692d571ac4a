use balls::fixed::{isqrt_ceil, MAX_COORD, MAX_RADIUS, MAX_SPEED, MICROS_PER_SECOND, UNIT};

#[test]
fn square_roots_of_squares_are_exact() {
    assert_eq!(isqrt_ceil(0), 0);
    assert_eq!(isqrt_ceil(1), 1);
    assert_eq!(isqrt_ceil(4), 2);
    assert_eq!(isqrt_ceil(1_000_000_000_000), 1_000_000);
}

#[test]
fn square_roots_round_up() {
    assert_eq!(isqrt_ceil(2), 2);
    assert_eq!(isqrt_ceil(3), 2);
    assert_eq!(isqrt_ceil(5), 3);
    assert_eq!(isqrt_ceil(1_000_000_000_001), 1_000_001);
}

#[test]
fn square_root_of_the_largest_number() {
    assert_eq!(isqrt_ceil(u128::MAX), 1u128 << 64);
    assert_eq!(isqrt_ceil((1u128 << 126) + 1), (1u128 << 63) + 1);
}

#[test]
fn square_root_is_the_least_number_whose_square_reaches() {
    for x in 0u128..2000 {
        let r = isqrt_ceil(x);
        assert!(r * r >= x);
        assert!(r == 0 || (r - 1) * (r - 1) < x);
    }
}

#[test]
fn limits_are_powers_of_two() {
    assert_eq!(UNIT, 1 << 10);
    assert_eq!(MAX_COORD, 1 << 40);
    assert_eq!(MAX_SPEED, 1 << 32);
    assert_eq!(MAX_RADIUS, 1 << 29);
    assert_eq!(MICROS_PER_SECOND, 1_000_000);
}
