use catalog_api::digits::digits_of;
use catalog_api::digits::mul_power;
use catalog_api::digits::mul_small;
use catalog_api::digits::shift_up;

#[test]
fn digits_of_zero_is_one_zero() {
    assert_eq!(digits_of(0), vec![0u8]);
}

#[test]
fn digits_come_least_significant_first() {
    assert_eq!(digits_of(7), vec![7u8]);
    assert_eq!(digits_of(1205), vec![5u8, 0, 2, 1]);
    assert_eq!(
        digits_of(u64::MAX),
        vec![5u8, 1, 6, 1, 5, 5, 9, 0, 7, 3, 7, 0, 4, 4, 7, 6, 4, 4, 8, 1]
    );
}

#[test]
fn multiplying_carries_into_a_new_digit() {
    let mut d = digits_of(999);
    mul_small(&mut d, 9);
    assert_eq!(d, vec![1u8, 9, 9, 8]);
    let mut d = digits_of(0);
    mul_small(&mut d, 5);
    assert_eq!(d, vec![0u8]);
    let mut d = digits_of(4);
    mul_small(&mut d, 2);
    assert_eq!(d, vec![8u8]);
}

#[test]
fn powers_multiply_in() {
    let mut d = digits_of(3);
    mul_power(&mut d, 2, 10);
    assert_eq!(d, vec![2u8, 7, 0, 3]);
    let mut d = digits_of(1);
    mul_power(&mut d, 5, 3);
    assert_eq!(d, vec![5u8, 2, 1]);
    let mut d = digits_of(42);
    mul_power(&mut d, 7, 0);
    assert_eq!(d, vec![2u8, 4]);
    let mut d = digits_of(1);
    mul_power(&mut d, 2, 64);
    assert_eq!(d, vec![6u8, 1, 6, 1, 5, 5, 9, 0, 7, 3, 7, 0, 4, 4, 7, 6, 4, 4, 8, 1]);
}

#[test]
fn multiplying_by_zero_gives_the_single_digit_zero() {
    let mut d = digits_of(98765);
    mul_small(&mut d, 0);
    assert_eq!(d, vec![0u8]);
    let mut d = digits_of(98765);
    mul_power(&mut d, 0, 3);
    assert_eq!(d, vec![0u8]);
    let mut d = digits_of(98765);
    mul_power(&mut d, 0, 0);
    assert_eq!(d, vec![5u8, 6, 7, 8, 9]);
}

#[test]
fn multiplying_by_one_changes_nothing() {
    let mut d = digits_of(98765);
    mul_small(&mut d, 1);
    assert_eq!(d, vec![5u8, 6, 7, 8, 9]);
    mul_power(&mut d, 1, 1000);
    assert_eq!(d, vec![5u8, 6, 7, 8, 9]);
}

#[test]
fn a_large_factor_carries_several_digits() {
    let mut d = digits_of(999);
    mul_small(&mut d, 255);
    assert_eq!(d, digits_of(999 * 255));
    let mut d = digits_of(7);
    mul_small(&mut d, 10);
    assert_eq!(d, vec![0u8, 7]);
    let mut d = digits_of(1);
    mul_power(&mut d, 100, 4);
    assert_eq!(d, digits_of(100_000_000));
    let mut d = digits_of(0);
    mul_small(&mut d, 255);
    assert_eq!(d, vec![0u8]);
}

#[test]
fn shifting_appends_zeros_below() {
    assert_eq!(shift_up(&digits_of(12), 3), vec![0u8, 0, 0, 2, 1]);
    assert_eq!(shift_up(&digits_of(12), 0), vec![2u8, 1]);
    assert_eq!(shift_up(&digits_of(0), 5), vec![0u8]);
    assert_eq!(shift_up(&digits_of(0), 0), vec![0u8]);
}
