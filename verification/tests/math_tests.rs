//! Tests of the wide fixed-point arithmetic and the tax formulas.

use staking_rewards::error::ContractError;
use staking_rewards::math::{checked_multiply_ratio, Decimal, DECIMAL_FRACTIONAL};
use staking_rewards::taxation::{compute_tax, deduct_tax};
use staking_rewards::user::get_decimals;

#[test]
fn decimal_constants() {
    assert_eq!(DECIMAL_FRACTIONAL, 1_000_000_000_000_000_000);
    assert_eq!(Decimal::zero().atomics, 0);
    assert_eq!(Decimal::one().atomics, DECIMAL_FRACTIONAL);
    assert!(Decimal::zero().is_zero());
    assert!(!Decimal::one().is_zero());
}

#[test]
fn from_ratio_truncates() {
    // 100000 / 11 = 9090.909090909090909090..., cut at 18 digits
    let d = Decimal::from_ratio(100000, 11);
    assert_eq!(d.atomics, 9_090_909_090_909_090_909_090);
    assert_eq!(d.to_uint_floor(), 9090);
    assert_eq!(get_decimals(d).atomics, 909_090_909_090_909_090);
}

#[test]
fn from_ratio_wide_intermediate() {
    // numerator * 10^18 exceeds 128 bits, yet the ratio is exact
    let big: u128 = 677_101_666_827_000_000_000_000_000_000;
    let d = Decimal::from_ratio(big, big);
    assert_eq!(d, Decimal::one());
    let e = Decimal::from_ratio(big, 2 * big);
    assert_eq!(e.atomics, DECIMAL_FRACTIONAL / 2);
}

#[test]
fn checked_from_ratio_overflow() {
    // u128::MAX whole units are not representable in 18-digit fixed point
    assert_eq!(Decimal::checked_from_ratio(u128::MAX, 1), None);
    assert_eq!(
        Decimal::checked_from_ratio(340_282_366_920_938_463_463, 1).map(|d| d.atomics),
        Some(340_282_366_920_938_463_463_000_000_000_000_000_000),
    );
}

#[test]
fn checked_mul_truncates() {
    // 1.5 * 1.5 = 2.25 exactly
    let d = Decimal::from_ratio(3, 2);
    assert_eq!(d.checked_mul(d), Some(Decimal::from_ratio(9, 4)));
    // (10^-18)^2 truncates to zero
    let tiny = Decimal::from_atomics(1);
    assert_eq!(tiny.checked_mul(tiny), Some(Decimal::zero()));
    // and a huge square overflows
    let huge = Decimal::from_atomics(u128::MAX);
    assert_eq!(huge.checked_mul(huge), None);
}

#[test]
fn checked_mul_uint_exact() {
    let d = Decimal::from_ratio(100, 11);
    let owed = d.checked_mul_uint(11).unwrap();
    assert_eq!(owed.atomics, 99_999_999_999_999_999_999);
    assert_eq!(Decimal::from_atomics(2).checked_mul_uint(u128::MAX), None);
}

#[test]
fn checked_add_and_sub() {
    let a = Decimal::from_ratio(1, 4);
    let b = Decimal::from_ratio(3, 4);
    assert_eq!(a.checked_add(b), Some(Decimal::one()));
    assert_eq!(b.checked_sub(a), Some(Decimal::from_ratio(1, 2)));
    assert_eq!(a.checked_sub(b), None);
    assert_eq!(Decimal::from_atomics(u128::MAX).checked_add(Decimal::from_atomics(1)), None);
}

#[test]
fn multiply_ratio_wide() {
    // the product exceeds 128 bits before the division brings it back
    let a: u128 = 1 << 100;
    assert_eq!(checked_multiply_ratio(a, a, a), Some(a));
    assert_eq!(checked_multiply_ratio(a, a, 1), None);
    assert_eq!(checked_multiply_ratio(7, 13, 3), Some(30));
}

#[test]
fn tax_formula() {
    // a 5% rate on 100000: 100000 - floor(100000 / 1.05) = 4762
    let rate = Decimal::from_ratio(5, 100);
    assert_eq!(compute_tax(100000, rate, u128::MAX), Ok(4762));
    // the oracle cap binds
    assert_eq!(compute_tax(100000, rate, 1000), Ok(1000));
    assert_eq!(deduct_tax(100000, rate, u128::MAX), Ok(95238));
    assert_eq!(deduct_tax(100000, rate, 1000), Ok(99000));
    // a zero rate taxes nothing
    assert_eq!(compute_tax(100000, Decimal::zero(), u128::MAX), Ok(0));
    // an absurd rate overflows the denominator and is reported
    assert_eq!(
        compute_tax(100000, Decimal::from_atomics(u128::MAX), 1000),
        Err(ContractError::Overflow)
    );
}
