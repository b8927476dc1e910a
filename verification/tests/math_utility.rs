use computor_v1::math_utility::{checked_abs, checked_gcd};

#[test]
fn checked_abs_zero() {
    assert_eq!(checked_abs(0), Some(0));
}

#[test]
fn checked_abs_plus() {
    assert_eq!(checked_abs(1), Some(1));
}

#[test]
fn checked_abs_neg() {
    assert_eq!(checked_abs(-1), Some(1));
}

#[test]
fn checked_abs_overflow() {
    assert_eq!(checked_abs(-9223372036854775808), None);
}

#[test]
fn checked_gcd_0_0() {
    assert_eq!(checked_gcd(0, 0), Some(0));
}

#[test]
fn checked_gcd_2_0() {
    assert_eq!(checked_gcd(2, 0), Some(2));
}

#[test]
fn checked_gcd_0_2() {
    assert_eq!(checked_gcd(0, 2), Some(2));
}

#[test]
fn checked_gcd_small() {
    assert_eq!(checked_gcd(4, 6), Some(2));
}

#[test]
fn checked_gcd_big() {
    assert_eq!(checked_gcd(96, 84), Some(12));
}

#[test]
fn checked_gcd_minus_plus() {
    assert_eq!(checked_gcd(-4, 6), Some(2));
}

#[test]
fn checked_gcd_plus_minus() {
    assert_eq!(checked_gcd(4, -6), Some(2));
}

#[test]
fn checked_gcd_minus_minus() {
    assert_eq!(checked_gcd(-4, -6), Some(2));
}

#[test]
fn checked_abs_of_the_largest() {
    assert_eq!(checked_abs(i64::MAX), Some(i64::MAX));
    assert_eq!(checked_abs(i64::MIN + 1), Some(i64::MAX));
}

#[test]
fn checked_gcd_overflow() {
    assert_eq!(checked_gcd(i64::MIN, 6), None);
    assert_eq!(checked_gcd(6, i64::MIN), None);
    assert_eq!(checked_gcd(i64::MIN, 0), None);
}

#[test]
fn checked_gcd_coprime_and_equal() {
    assert_eq!(checked_gcd(17, 5), Some(1));
    assert_eq!(checked_gcd(5, 17), Some(1));
    assert_eq!(checked_gcd(21, 21), Some(21));
    assert_eq!(checked_gcd(i64::MAX, i64::MAX), Some(i64::MAX));
    assert_eq!(checked_gcd(i64::MAX, 1), Some(1));
}
