use bigint::helpers::{add_three_bools, is_number, sub_three_bools};
use bigint::BigInt;

#[test]
fn test_add_three_bools_fff() {
    assert_eq!((false, false), add_three_bools(false, false, false))
}

#[test]
fn test_add_three_bools_fft() {
    assert_eq!((false, true), add_three_bools(false, false, true))
}

#[test]
fn test_add_three_bools_ftf() {
    assert_eq!((false, true), add_three_bools(false, true, false))
}

#[test]
fn test_add_three_bools_tff() {
    assert_eq!((false, true), add_three_bools(true, false, false))
}

#[test]
fn test_add_three_bools_ftt() {
    assert_eq!((true, false), add_three_bools(false, true, true))
}

#[test]
fn test_add_three_bools_tft() {
    assert_eq!((true, false), add_three_bools(true, false, true))
}

#[test]
fn test_add_three_bools_ttf() {
    assert_eq!((true, false), add_three_bools(true, true, false))
}

#[test]
fn test_add_three_bools_ttt() {
    assert_eq!((true, true), add_three_bools(true, true, true))
}

#[test]
fn test_is_number_when_it_is_returns_true() {
    assert!(is_number("123"))
}

#[test]
fn test_is_number_when_it_is_not_returns_false() {
    assert!(!is_number("abc"))
}

#[test]
fn test_sub_three_bools_fff() {
    assert_eq!((false, false), sub_three_bools(false, false, false))
}

#[test]
fn test_sub_three_bools_fft() {
    assert_eq!((true, true), sub_three_bools(false, false, true))
}

#[test]
fn test_sub_three_bools_ftf() {
    assert_eq!((true, true), sub_three_bools(false, true, false))
}

#[test]
fn test_sub_three_bools_ftt() {
    assert_eq!((true, true), sub_three_bools(false, true, false))
}

#[test]
fn test_sub_three_bools_tff() {
    assert_eq!((false, true), sub_three_bools(true, false, false))
}

#[test]
fn test_sub_three_bools_tft() {
    assert_eq!((false, false), sub_three_bools(true, false, true))
}

#[test]
fn test_sub_three_bools_ttf() {
    assert_eq!((false, false), sub_three_bools(true, true, false))
}

#[test]
fn test_sub_three_bools_ttt() {
    assert_eq!((true, true), sub_three_bools(true, true, true))
}

#[test]
fn it_instantiates() {
    let one = BigInt::new("1");
    assert!(one.is_ok());
}

#[test]
fn it_returns_an_error_if_not_a_digit() {
    let result = BigInt::new("a");
    assert!(result.is_err());
}

#[test]
fn it_stores_its_value_as_bool_vec_with_0() {
    let zero = BigInt::new("0").unwrap();
    let zero_vec: Vec<bool> = vec![];

    assert_eq!(zero_vec, zero.value);
}

#[test]
fn it_stores_its_value_as_bool_vec_with_2() {
    let two = BigInt::new("2").unwrap();

    assert_eq!(vec![true, false], two.value);
}

#[test]
fn it_stores_its_value_as_bool_vec_with_10() {
    let ten = BigInt::new("10").unwrap();

    assert_eq!(vec![true, false, true, false], ten.value);
}

#[test]
fn it_stores_its_value_as_bool_vec_with_64() {
    let ten = BigInt::new("64").unwrap();

    assert_eq!(
        vec![true, false, false, false, false, false, false],
        ten.value
    );
}

#[test]
fn it_stores_its_value_as_bool_vec_with_128() {
    let ten = BigInt::new("128").unwrap();

    assert_eq!(
        vec![true, false, false, false, false, false, false, false],
        ten.value
    );
}

#[test]
fn it_stores_a_big_value() {
    let big = BigInt::new("9223372036854775808");
    assert!(big.is_ok());
}

#[test]
fn it_stores_a_bigger_value() {
    let big = BigInt::new("9223372036854775808").unwrap();
    let small = BigInt::new("100").unwrap();
    let bigger = big.pow(small);
}

#[test]
fn it_is_not_the_same_as_another() {
    let zero = BigInt::new("0").unwrap();
    let one = BigInt::new("1").unwrap();
    assert_ne!(zero, one);
}

#[test]
fn it_is_the_same_as_itself() {
    let one1 = BigInt::new("1").unwrap();
    let one2 = BigInt::new("1").unwrap();

    assert_eq!(one1, one2);
}

#[test]
fn it_is_does_not_think_zero_is_2() {
    let zero = BigInt::new("0").unwrap();
    let two = BigInt::new("2").unwrap();

    assert_ne!(zero, two);
}

#[test]
fn test_str_0() {
    let zero = BigInt::new("0").unwrap();

    assert_eq!("0", zero.str())
}

#[test]
fn test_str_1() {
    let one = BigInt::new("1").unwrap();

    assert_eq!("1", one.str())
}

#[test]
fn test_str_2() {
    let two = BigInt::new("2").unwrap();

    assert_eq!("2", two.str())
}

#[test]
fn test_zero_plus_zero_is_zero() {
    let zero1 = BigInt::new("0").unwrap();
    let zero2 = BigInt::new("0").unwrap();
    let zero3 = BigInt::new("0").unwrap();

    assert_eq!(zero3, zero1 + zero2);
}

#[test]
fn test_zero_plus_one_is_one() {
    let zero = BigInt::new("0").unwrap();
    let one1 = BigInt::new("1").unwrap();
    let one2 = BigInt::new("1").unwrap();

    assert_eq!(one1, zero + one2);
}

#[test]
fn test_one_plus_zero_is_one() {
    let zero = BigInt::new("0").unwrap();
    let one1 = BigInt::new("1").unwrap();
    let one2 = BigInt::new("1").unwrap();

    assert_eq!(one1, one2 + zero);
}

#[test]
fn test_one_plus_one_is_two() {
    let one1 = BigInt::new("1").unwrap();
    let one2 = BigInt::new("1").unwrap();
    let two = BigInt::new("2").unwrap();

    assert_eq!(two, one1 + one2);
}

#[test]
fn test_1_plus_2_is_3() {
    let one = BigInt::new("1").unwrap();
    let two = BigInt::new("2").unwrap();
    let three = BigInt::new("3").unwrap();

    assert_eq!(three, one + two);
}

#[test]
fn test_1_plus_2_is_not_1() {
    let one = BigInt::new("1").unwrap();
    let two = BigInt::new("2").unwrap();

    assert_ne!(one.clone(), one + two);
}

#[test]
fn test_0_times_0_is_0() {
    let zero = BigInt::new("0").unwrap();
    assert_eq!(zero, zero.clone() * zero.clone())
}

#[test]
fn test_1_times_1_is_1() {
    let one = BigInt::new("1").unwrap();
    assert_eq!(one, one.clone() * one.clone())
}

#[test]
fn test_1_times_2_is_2() {
    let one = BigInt::new("1").unwrap();
    let two = BigInt::new("2").unwrap();
    assert_eq!(two, one.clone() * two.clone())
}

#[test]
fn test_2_times_2_is_4() {
    let two = BigInt::new("2").unwrap();
    let four = BigInt::new("4").unwrap();
    assert_eq!(four, two.clone() * two.clone())
}

#[test]
fn test_pow_0_pow_0_is_1() {
    let zero1 = BigInt::new("0").unwrap();
    let zero2 = BigInt::new("0").unwrap();
    let one = BigInt::new("1").unwrap();
    assert_eq!(one, zero1.pow(zero2))
}

#[test]
fn test_pow_2_pow_1_is_2() {
    let one = BigInt::new("1").unwrap();
    let two1 = BigInt::new("2").unwrap();
    let two2 = BigInt::new("2").unwrap();
    assert_eq!(two1, two2.pow(one))
}

#[test]
fn test_pow_2_pow_2_is_4() {
    let two1 = BigInt::new("2").unwrap();
    let two2 = BigInt::new("2").unwrap();
    let four = BigInt::new("4").unwrap();
    assert_eq!(four, two1.pow(two2))
}
