use verlet::fixed::displacement_of;
use verlet::fixed::divide_toward_zero;
use verlet::fixed::isqrt;
use verlet::fixed::isqrt_ceil;
use verlet::fixed::saturate_i128;
use verlet::fixed::SCALE;

#[test]
fn scale_is_one_million() {
    assert_eq!(SCALE, 1_000_000);
}

#[test]
fn saturate_keeps_values_in_range() {
    assert_eq!(saturate_i128(0), 0);
    assert_eq!(saturate_i128(-42), -42);
    assert_eq!(saturate_i128(i64::MAX as i128), i64::MAX);
    assert_eq!(saturate_i128(i64::MIN as i128), i64::MIN);
}

#[test]
fn saturate_sticks_at_both_ends() {
    assert_eq!(saturate_i128(i64::MAX as i128 + 1), i64::MAX);
    assert_eq!(saturate_i128(i64::MIN as i128 - 1), i64::MIN);
    assert_eq!(saturate_i128(i128::MAX), i64::MAX);
    assert_eq!(saturate_i128(i128::MIN), i64::MIN);
}

#[test]
fn division_rounds_toward_zero_on_both_sides() {
    assert_eq!(divide_toward_zero(7, 2), 3);
    assert_eq!(divide_toward_zero(-7, 2), -3);
    assert_eq!(divide_toward_zero(6, 2), 3);
    assert_eq!(divide_toward_zero(-6, 2), -3);
    assert_eq!(divide_toward_zero(1, 2), 0);
    assert_eq!(divide_toward_zero(-1, 2), 0);
    assert_eq!(divide_toward_zero(0, 5), 0);
}

#[test]
fn isqrt_of_small_numbers() {
    assert_eq!(isqrt(0), 0);
    assert_eq!(isqrt(1), 1);
    assert_eq!(isqrt(2), 1);
    assert_eq!(isqrt(3), 1);
    assert_eq!(isqrt(4), 2);
    assert_eq!(isqrt(15), 3);
    assert_eq!(isqrt(16), 4);
    assert_eq!(isqrt(17), 4);
    assert_eq!(isqrt(24), 4);
    assert_eq!(isqrt(25), 5);
}

#[test]
fn isqrt_of_large_numbers() {
    assert_eq!(isqrt(1_000_000_000_000), 1_000_000);
    assert_eq!(isqrt(999_999_999_999), 999_999);
    assert_eq!(isqrt(u64::MAX as u128 * u64::MAX as u128), u64::MAX);
    assert_eq!(isqrt(u128::MAX), u64::MAX);
    assert_eq!(isqrt((1u128 << 64) - 1), (1u64 << 32) - 1);
    assert_eq!(isqrt(1u128 << 64), 1u64 << 32);
}

#[test]
fn isqrt_brackets_its_argument() {
    let mut n: u128 = 0;
    while n < 5000 {
        let r = isqrt(n) as u128;
        assert!(r * r <= n);
        assert!(n < (r + 1) * (r + 1));
        n += 1;
    }
}

#[test]
fn displacement_of_standard_gravity_over_ten_milliseconds() {
    // 980 units per second squared over 0.01 s: 0.098 units.
    assert_eq!(displacement_of(-980_000_000, 10_000), -98_000);
    assert_eq!(displacement_of(980_000_000, 10_000), 98_000);
}

#[test]
fn displacement_over_one_second_is_the_acceleration() {
    assert_eq!(displacement_of(5_000_000, 1_000_000), 5_000_000);
    assert_eq!(displacement_of(-3, 1_000_000), -3);
}

#[test]
fn displacement_rounds_toward_zero() {
    // 980e6 * 8333^2 / 1e12 = 68050.11...
    assert_eq!(displacement_of(-980_000_000, 8_333), -68_050);
    assert_eq!(displacement_of(980_000_000, 8_333), 68_050);
    // 1 * 999_999^2 / 1e12 = 0.999998...
    assert_eq!(displacement_of(1, 999_999), 0);
    assert_eq!(displacement_of(-1, 999_999), 0);
}

#[test]
fn displacement_without_time_or_acceleration_is_nothing() {
    assert_eq!(displacement_of(0, 123_456), 0);
    assert_eq!(displacement_of(980_000_000, 0), 0);
}

#[test]
fn displacement_at_the_ends_of_the_ranges() {
    let span = u32::MAX as i128 * u32::MAX as i128;
    assert_eq!(displacement_of(i64::MAX, u32::MAX), i64::MAX as i128 * span / 1_000_000_000_000);
    assert_eq!(displacement_of(i64::MIN, u32::MAX), i64::MIN as i128 * span / 1_000_000_000_000);
}

#[test]
fn isqrt_ceil_rounds_up() {
    assert_eq!(isqrt_ceil(0), 0);
    assert_eq!(isqrt_ceil(1), 1);
    assert_eq!(isqrt_ceil(2), 2);
    assert_eq!(isqrt_ceil(4), 2);
    assert_eq!(isqrt_ceil(5), 3);
    assert_eq!(isqrt_ceil(8), 3);
    assert_eq!(isqrt_ceil(9), 3);
    assert_eq!(isqrt_ceil(10), 4);
    assert_eq!(isqrt_ceil(1_000_000_000_000), 1_000_000);
    assert_eq!(isqrt_ceil(1_000_000_000_001), 1_000_001);
    assert_eq!(isqrt_ceil(u128::MAX), 1u128 << 64);
}

#[test]
fn isqrt_ceil_brackets_its_argument() {
    let mut n: u128 = 1;
    while n < 5000 {
        let r = isqrt_ceil(n);
        assert!(n <= r * r);
        assert!((r - 1) * (r - 1) < n);
        n += 1;
    }
}
