use vstd::prelude::*;

verus! {

/// Whether `c` is one of the ASCII digits '0' through '9'.
pub open spec fn is_digit_char(c: char) -> bool {
    '0' <= c && c <= '9'
}

/// The numeric value of a digit character; 0 for any other character.
pub open spec fn digit_value(c: char) -> nat {
    if is_digit_char(c) {
        (c as nat - '0' as nat) as nat
    } else {
        0
    }
}

/// Whether every character of `s` is an ASCII digit.
pub open spec fn all_digits(s: Seq<char>) -> bool {
    forall|i: int| 0 <= i < s.len() ==> is_digit_char(#[trigger] s[i])
}

/// 2 to the power `n`.
pub open spec fn pow2(n: nat) -> nat
    decreases n,
{
    if n == 0 {
        1
    } else {
        2 * pow2((n - 1) as nat)
    }
}

/// `b` to the power `e`.
pub open spec fn power(b: nat, e: nat) -> nat
    decreases e,
{
    if e == 0 {
        1
    } else {
        b * power(b, (e - 1) as nat)
    }
}

/// The number that a string of decimal digits denotes, most significant
/// digit first.
pub open spec fn decimal_value(s: Seq<char>) -> nat
    decreases s.len(),
{
    if s.len() == 0 {
        0
    } else {
        10 * decimal_value(s.drop_last()) + digit_value(s.last())
    }
}

/// The number that a most-significant-first bit sequence denotes.
pub open spec fn bits_value(s: Seq<bool>) -> nat
    decreases s.len(),
{
    if s.len() == 0 {
        0
    } else {
        2 * bits_value(s.drop_last()) + if s.last() {
            1nat
        } else {
            0nat
        }
    }
}

/// A bit sequence without leading false bits; zero is the empty sequence.
pub open spec fn is_canonical(s: Seq<bool>) -> bool {
    s.len() == 0 || s[0]
}

/// Full adder: `(carry_out, sum_bit)` for three input bits.
pub fn add_three_bools(lhs: bool, rhs: bool, carry: bool) -> (r: (bool, bool))
    ensures
        r.1 == (lhs ^ rhs ^ carry),
        r.0 == ((lhs && rhs) || (lhs && carry) || (rhs && carry)),
{
    if lhs && rhs && carry {
        return (true, true);
    }
    if (lhs && rhs) || (lhs && carry) || (rhs && carry) {
        return (true, false);
    }
    if lhs || rhs || carry {
        return (false, true);
    }
    (false, false)
}

/// The big-endian bits of a decimal digit, without leading false bits; empty
/// for '0' and for any character that is not a digit.
pub fn char_to_bool_vector(character: char) -> (r: Vec<bool>)
    ensures
        bits_value(r@) == digit_value(character),
        is_canonical(r@),
{
    let r = match character {
        '0' => vec![],
        '1' => vec![true],
        '2' => vec![true, false],
        '3' => vec![true, true],
        '4' => vec![true, false, false],
        '5' => vec![true, false, true],
        '6' => vec![true, true, false],
        '7' => vec![true, true, true],
        '8' => vec![true, false, false, false],
        '9' => vec![true, false, false, true],
        _ => vec![],
    };
    proof {
        reveal_with_fuel(bits_value, 5);
    }
    r
}

/// Whether every character of `value` is an ASCII digit (true for "").
pub fn is_number(value: &str) -> (r: bool)
    ensures
        r == all_digits(value@),
{
    let n = value.unicode_len();
    let mut i: usize = 0;
    while i < n
        invariant
            n == value@.len(),
            i <= n,
            forall|k: int| 0 <= k < i ==> is_digit_char(#[trigger] value@[k]),
        decreases n - i,
    {
        let c = value.get_char(i);
        if !('0' <= c && c <= '9') {
            return false;
        }
        i += 1;
    }
    true
}

/// Full subtractor: `(borrow_out, difference_bit)` of `lhs - rhs - borrow`.
pub fn sub_three_bools(lhs: bool, rhs: bool, carry: bool) -> (r: (bool, bool))
    ensures
        r.1 == (lhs ^ rhs ^ carry),
        r.0 == ((!lhs && (rhs || carry)) || (lhs && rhs && carry)),
{
    let new_carry = (!lhs && (rhs || carry)) || (lhs && rhs && carry);
    let val = (lhs && !(rhs || carry)) || (lhs && rhs && carry) || (!lhs && rhs && !carry) || (
    !lhs && !rhs && carry);
    (new_carry, val)
}

} // verus!
