use bigint::helpers::{char_to_bool_vector, is_number};
use bigint::{BigInt, InvalidInputError};

fn big(s: &str) -> BigInt {
    BigInt::new(s).unwrap()
}

#[test]
fn decimal_round_trip_of_plain_numbers() {
    for s in ["0", "1", "7", "10", "99", "256", "1000000", "9223372036854775808", "123456789012345678901234567890"] {
        assert_eq!(s, big(s).str());
    }
}

#[test]
fn decimal_rendering_drops_leading_zeros() {
    assert_eq!("42", big("00042").str());
    assert_eq!("0", big("000").str());
    assert_eq!("0", big("").str());
}

#[test]
fn addition_is_commutative_on_values() {
    let ab = big("123456789") + big("987654321");
    let ba = big("987654321") + big("123456789");
    assert_eq!(ab.value, ba.value);
    assert_eq!("1111111110", ab.str());
}

#[test]
fn addition_is_commutative_with_leading_zeros() {
    let a = BigInt { value: vec![false, false, true] };
    let b = BigInt { value: vec![true, true] };
    let ab = a.clone() + b.clone();
    let ba = b + a;
    assert_eq!(ab.value, ba.value);
    assert_eq!(vec![true, false, false], ab.value);
}

#[test]
fn addition_is_associative() {
    let left = (big("255") + big("1")) + big("4096");
    let right = big("255") + (big("1") + big("4096"));
    assert_eq!(left, right);
    assert_eq!("4352", left.str());
}

#[test]
fn addition_is_associative_bit_for_bit() {
    let a = BigInt { value: vec![false, false, false, true] };
    let b = BigInt { value: vec![true, true] };
    let c = BigInt { value: vec![false, true, true, true, true] };
    let left = (a.clone() + b.clone()) + c.clone();
    let right = a + (b + c);
    assert_eq!(left.value, right.value);
    assert_eq!(vec![true, false, false, true, true], left.value);
}

#[test]
fn multiplication_distributes_over_addition() {
    let left = big("37") * (big("12") + big("999"));
    let right = big("37") * big("12") + big("37") * big("999");
    assert_eq!(left, right);
    assert_eq!("37407", left.str());
}

#[test]
fn adding_zero_keeps_the_bits() {
    let a = BigInt { value: vec![false, true, false, true] };
    let sum = a.clone() + big("0");
    assert_eq!(a.value, sum.value);
}

#[test]
fn multiplying_by_one_keeps_the_value() {
    let a = big("31415926535");
    assert_eq!(a, a.clone() * big("1"));
    let padded = BigInt { value: vec![false, false, true, true] };
    assert_eq!(big("3"), padded * big("1"));
}

#[test]
fn anything_to_the_power_zero_is_one() {
    for s in ["0", "1", "2", "12345"] {
        let r = big(s).pow(big("0"));
        assert_eq!(vec![true], r.value);
    }
}

#[test]
fn pow_exact_values() {
    assert_eq!("1024", big("2").pow(big("10")).str());
    assert_eq!("1000000000000", big("10").pow(big("12")).str());
    assert_eq!("0", big("0").pow(big("5")).str());
}

#[test]
fn pow_with_padded_exponent_terminates() {
    let exponent = BigInt { value: vec![false, false, true, true] };
    assert_eq!("27", big("3").pow(exponent).str());
    let zero_exponent = BigInt { value: vec![false] };
    assert_eq!(vec![true], big("9").pow(zero_exponent).value);
}

#[test]
fn equality_ignores_leading_false_bits() {
    let empty = BigInt { value: vec![] };
    let single = BigInt { value: vec![false] };
    assert_eq!(empty, single);
    assert!(empty.equals(&single));
    let padded_five = BigInt { value: vec![false, true, false, true] };
    assert_eq!(big("5"), padded_five);
    assert_ne!(big("5"), big("4"));
}

#[test]
fn addition_carries_into_a_new_bit() {
    let r = big("255") + big("1");
    assert_eq!(vec![true, false, false, false, false, false, false, false, false], r.value);
}

#[test]
fn multiplication_exact_value() {
    let r = big("4294967296") * big("4294967296");
    assert_eq!("18446744073709551616", r.str());
    assert_eq!(big("0"), big("0") * big("12345"));
    assert_eq!(Vec::<bool>::new(), (big("0") * big("12345")).value);
}

#[test]
fn bit_string_rendering() {
    assert_eq!("", big("0").to_string());
    assert_eq!("1", big("1").to_string());
    assert_eq!("10", big("2").to_string());
    assert_eq!("1010", big("10").to_string());
    assert_eq!("0101", BigInt { value: vec![false, true, false, true] }.to_string());
}

#[test]
fn parse_rejects_non_digits() {
    assert_eq!(Err(InvalidInputError), BigInt::new("abc").map(|b| b.value));
    assert!(BigInt::new("12a").is_err());
    assert!(BigInt::new("-1").is_err());
    assert!(BigInt::new(" 1").is_err());
}

#[test]
fn parse_accepts_empty_string_as_zero() {
    assert_eq!(Vec::<bool>::new(), big("").value);
}

#[test]
fn parse_two_gives_two_bits() {
    assert_eq!(vec![true, false], big("2").value);
}

#[test]
fn digit_bits_table() {
    assert_eq!(Vec::<bool>::new(), char_to_bool_vector('0'));
    assert_eq!(vec![true, false, true], char_to_bool_vector('5'));
    assert_eq!(vec![true, false, false, true], char_to_bool_vector('9'));
    assert_eq!(Vec::<bool>::new(), char_to_bool_vector('x'));
}

#[test]
fn digit_check_accepts_empty_and_digits_only() {
    assert!(is_number(""));
    assert!(is_number("0123456789"));
    assert!(!is_number("12 3"));
    assert!(!is_number("٣"));
}
