use tracker_sync::fixed::{div_round, isqrt, saturate, wide_mul, ONE, ONE_SQ};

#[test]
fn one_has_sixteen_fractional_bits() {
    assert_eq!(ONE, 1 << 16);
    assert_eq!(ONE_SQ, (ONE as i64) * (ONE as i64));
}

#[test]
fn saturate_clamps_to_the_scalar_range() {
    assert_eq!(saturate(0), 0);
    assert_eq!(saturate(-5), -5);
    assert_eq!(saturate(2147483647), i32::MAX);
    assert_eq!(saturate(2147483648), i32::MAX);
    assert_eq!(saturate(-2147483648), i32::MIN);
    assert_eq!(saturate(-2147483649), i32::MIN);
    assert_eq!(saturate(i128::MAX), i32::MAX);
    assert_eq!(saturate(i128::MIN), i32::MIN);
}

#[test]
fn wide_mul_is_exact_at_the_extremes() {
    assert_eq!(wide_mul(3, -4), -12);
    assert_eq!(wide_mul(i32::MIN, i32::MIN), 4611686018427387904);
    assert_eq!(wide_mul(i32::MAX, i32::MIN), -4611686016279904256);
    assert_eq!(wide_mul(ONE, ONE), ONE_SQ);
}

#[test]
fn div_round_rounds_to_nearest_with_ties_upward() {
    assert_eq!(div_round(7, 2), 4);
    assert_eq!(div_round(-7, 2), -3);
    assert_eq!(div_round(5, 3), 2);
    assert_eq!(div_round(-5, 3), -2);
    assert_eq!(div_round(1, 2), 1);
    assert_eq!(div_round(-1, 2), 0);
    assert_eq!(div_round(3, 2), 2);
    assert_eq!(div_round(-3, 2), -1);
    assert_eq!(div_round(10, 4), 3);
    assert_eq!(div_round(-10, 4), -2);
    assert_eq!(div_round(6, 4), 2);
    assert_eq!(div_round(0, 7), 0);
}

#[test]
fn div_round_gives_a_factor_back() {
    let values: [i128; 7] = [0, 1, -1, 65535, -65537, 2147483647, -2147483648];
    for v in values {
        assert_eq!(div_round(v * (ONE as i128), ONE as i128), v);
        assert_eq!(div_round(v * (ONE_SQ as i128), ONE_SQ as i128), v);
    }
}

#[test]
fn isqrt_is_the_floor_of_the_root() {
    assert_eq!(isqrt(0), 0);
    assert_eq!(isqrt(1), 1);
    assert_eq!(isqrt(15), 3);
    assert_eq!(isqrt(16), 4);
    assert_eq!(isqrt(17), 4);
    assert_eq!(isqrt(1 << 64), 1 << 32);
    assert_eq!(isqrt(100000000000000000000), 10000000000);
    assert_eq!(isqrt(u128::MAX), 18446744073709551615);
}

#[test]
fn isqrt_brackets_its_argument() {
    let mut n: u128 = 0;
    while n < 5000 {
        let r = isqrt(n);
        assert!(r * r <= n);
        assert!(n < (r + 1) * (r + 1));
        n += 1;
    }
}
