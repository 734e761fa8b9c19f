use linreg::Fixed;

#[test]
fn from_int_scales_by_one_million() {
    let x = Fixed::from_int(3).unwrap();
    assert_eq!(x.raw(), 3_000_000);
    let y = Fixed::from_int(-2).unwrap();
    assert_eq!(y.raw(), -2_000_000);
}

#[test]
fn from_int_rejects_out_of_range_values() {
    assert!(Fixed::from_int(i64::MAX).is_none());
    assert!(Fixed::from_int(5_000_000_000).is_none());
}

#[test]
fn from_raw_bounds_are_enforced() {
    let bound: i128 = 4_503_599_627_370_496;
    assert!(Fixed::from_raw(bound).is_some());
    assert!(Fixed::from_raw(bound + 1).is_none());
    assert!(Fixed::from_raw(-bound).is_some());
    assert!(Fixed::from_raw(-bound - 1).is_none());
}

#[test]
fn addition_and_subtraction_are_exact() {
    let a = Fixed::from_raw(1_500_000).unwrap();
    let b = Fixed::from_raw(250_000).unwrap();
    assert_eq!(a.checked_add(b).unwrap().raw(), 1_750_000);
    assert_eq!(a.checked_sub(b).unwrap().raw(), 1_250_000);
    assert_eq!(b.checked_sub(a).unwrap().raw(), -1_250_000);
}

#[test]
fn multiplication_truncates_toward_zero() {
    // 1.5 * 0.333333 = 0.4999995, which truncates to 0.499999.
    let a = Fixed::from_raw(1_500_000).unwrap();
    let b = Fixed::from_raw(333_333).unwrap();
    assert_eq!(a.checked_mul(b).unwrap().raw(), 499_999);
    // (-1.5) * 0.333333 truncates toward zero, not toward minus infinity.
    let c = Fixed::from_raw(-1_500_000).unwrap();
    assert_eq!(c.checked_mul(b).unwrap().raw(), -499_999);
}

#[test]
fn division_truncates_toward_zero() {
    // 1 / 3 = 0.333333...; truncated to 0.333333.
    let one = Fixed::from_int(1).unwrap();
    let three = Fixed::from_int(3).unwrap();
    assert_eq!(one.checked_div(three).unwrap().raw(), 333_333);
    let minus_one = Fixed::from_int(-1).unwrap();
    assert_eq!(minus_one.checked_div(three).unwrap().raw(), -333_333);
}

#[test]
fn division_by_zero_is_none() {
    let one = Fixed::from_int(1).unwrap();
    assert!(one.checked_div(Fixed::zero()).is_none());
}

#[test]
fn overflowing_operations_are_none() {
    let bound: i128 = 4_503_599_627_370_496;
    let big = Fixed::from_raw(bound).unwrap();
    assert!(big.checked_add(big).is_none());
    assert!(big.checked_mul(big).is_none());
    let tiny = Fixed::from_raw(1).unwrap();
    assert!(big.checked_div(tiny).is_none());
}
