use timpani_o::hyperperiod::math::{gcd, lcm, lcm_of_slice};
use timpani_o::hyperperiod::HyperperiodError;

#[test]
fn gcd_basic_cases() {
    assert_eq!(gcd(12, 8), 4);
    assert_eq!(gcd(7, 3), 1);
    assert_eq!(gcd(100, 25), 25);
}

#[test]
fn gcd_with_zero() {
    assert_eq!(gcd(0, 5), 5);
    assert_eq!(gcd(5, 0), 5);
    assert_eq!(gcd(0, 0), 0);
}

#[test]
fn gcd_same_values() {
    assert_eq!(gcd(42, 42), 42);
}

#[test]
fn gcd_coprime() {
    assert_eq!(gcd(17, 13), 1);
}

#[test]
fn lcm_basic_cases() {
    assert_eq!(lcm(4, 6).unwrap(), 12);
    assert_eq!(lcm(3, 5).unwrap(), 15);
    assert_eq!(lcm(12, 18).unwrap(), 36);
}

#[test]
fn lcm_with_zero_returns_zero() {
    assert_eq!(lcm(0, 5).unwrap(), 0);
    assert_eq!(lcm(5, 0).unwrap(), 0);
}

#[test]
fn lcm_same_value() {
    assert_eq!(lcm(7, 7).unwrap(), 7);
}

#[test]
fn lcm_overflow_returns_error() {
    let a = u64::MAX / 2 + 1;
    let b = u64::MAX / 2 + 3;
    let result = lcm(a, b);
    assert!(matches!(result, Err(HyperperiodError::Overflow { .. })));
}

#[test]
fn lcm_typical_rt_periods_us() {
    assert_eq!(lcm(1_000, 2_000).unwrap(), 2_000);
    assert_eq!(lcm(2_000, 5_000).unwrap(), 10_000);
    assert_eq!(lcm(5_000, 10_000).unwrap(), 10_000);
}

#[test]
fn lcm_of_slice_empty_returns_zero() {
    assert_eq!(lcm_of_slice(&[]).unwrap(), 0);
}

#[test]
fn lcm_of_slice_single_element() {
    assert_eq!(lcm_of_slice(&[42]).unwrap(), 42);
}

#[test]
fn lcm_of_slice_multiple_periods() {
    assert_eq!(lcm_of_slice(&[1_000, 2_000, 4_000]).unwrap(), 4_000);
}

#[test]
fn lcm_of_slice_all_same() {
    assert_eq!(lcm_of_slice(&[5_000, 5_000, 5_000]).unwrap(), 5_000);
}

#[test]
fn lcm_of_slice_propagates_overflow_error() {
    let huge = u64::MAX / 2 + 1;
    let result = lcm_of_slice(&[huge, huge - 1]);
    assert!(result.is_err());
}

#[test]
fn gcd_is_symmetric_on_samples() {
    for &(a, b) in &[(12u64, 8u64), (0, 9), (270, 192), (u64::MAX, 3), (1 << 40, 1 << 20)] {
        assert_eq!(gcd(a, b), gcd(b, a));
        assert_eq!(gcd(a, 0), a);
    }
}

#[test]
fn lcm_is_common_multiple_on_samples() {
    for &(a, b) in &[(4u64, 6u64), (21, 6), (1_000, 7_000), (97, 89), (1 << 31, 3)] {
        let l = lcm(a, b).unwrap();
        assert_eq!(l % a, 0);
        assert_eq!(l % b, 0);
    }
}

#[test]
fn lcm_overflow_iff_exact_lcm_exceeds_u64() {
    let a = 1u64 << 63;
    let b = (1u64 << 63) + 2;
    assert_eq!(lcm(a, b), Err(HyperperiodError::Overflow { a, b }));
    // The exact LCM 2^63 fits although a * b does not.
    assert_eq!(lcm(1u64 << 63, 1u64 << 62).unwrap(), 1u64 << 63);
    // The largest exact LCM that fits.
    assert_eq!(lcm(u64::MAX, 1).unwrap(), u64::MAX);
    assert_eq!(lcm(u64::MAX, u64::MAX).unwrap(), u64::MAX);
}

#[test]
fn lcm_of_slice_overflow_carries_operands() {
    let a = 1u64 << 63;
    let b = (1u64 << 63) + 2;
    assert_eq!(lcm_of_slice(&[a, b, 3]), Err(HyperperiodError::Overflow { a, b }));
}
