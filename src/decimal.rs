use vstd::prelude::*;

use crate::bits::lemma_power_positive;
use crate::helpers::{all_digits, decimal_value, digit_value, is_digit_char, power};

verus! {

/// The character of a digit value below ten.
pub open spec fn digit_char(d: nat) -> char {
    if d == 0 {
        '0'
    } else if d == 1 {
        '1'
    } else if d == 2 {
        '2'
    } else if d == 3 {
        '3'
    } else if d == 4 {
        '4'
    } else if d == 5 {
        '5'
    } else if d == 6 {
        '6'
    } else if d == 7 {
        '7'
    } else if d == 8 {
        '8'
    } else {
        '9'
    }
}

/// `n` written in decimal, most significant digit first, without leading
/// zeros ("0" for zero).
pub open spec fn decimal_string(n: nat) -> Seq<char>
    decreases n,
{
    if n < 10 {
        seq![digit_char(n)]
    } else {
        decimal_string(n / 10).push(digit_char(n % 10))
    }
}

/// The `k` least significant digits of `s`.
pub open spec fn low_digits(s: Seq<char>, k: nat) -> Seq<char> {
    s.subrange(s.len() - k, s.len() as int)
}

pub proof fn lemma_digit_char(c: char)
    requires
        is_digit_char(c),
    ensures
        digit_value(c) < 10,
        digit_char(digit_value(c)) == c,
{
}

pub proof fn lemma_digit_value(d: nat)
    requires
        d < 10,
    ensures
        is_digit_char(digit_char(d)),
        digit_value(digit_char(d)) == d,
{
}

pub proof fn lemma_decimal_prepend(c: char, s: Seq<char>)
    ensures
        decimal_value(seq![c] + s) == digit_value(c) * power(10, s.len()) + decimal_value(s),
    decreases s.len(),
{
    let t = seq![c] + s;
    if s.len() == 0 {
        assert(t.drop_last() =~= Seq::<char>::empty());
        assert(t.last() == c);
        assert(decimal_value(t) == 10 * decimal_value(t.drop_last()) + digit_value(c));
        assert(power(10, 0) == 1);
        assert(digit_value(c) * 1 == digit_value(c));
    } else {
        assert(t.drop_last() =~= seq![c] + s.drop_last());
        assert(t.last() == s.last());
        lemma_decimal_prepend(c, s.drop_last());
        let p = power(10, s.drop_last().len());
        assert(power(10, s.len()) == 10 * p);
        assert(decimal_value(t) == 10 * decimal_value(t.drop_last()) + digit_value(s.last()));
        assert(decimal_value(s) == 10 * decimal_value(s.drop_last()) + digit_value(s.last()));
        let d = digit_value(c);
        let r = decimal_value(s.drop_last());
        assert(decimal_value(seq![c] + s.drop_last()) == d * p + r);
        assert(10 * (d * p + r) == d * (10 * p) + 10 * r) by (nonlinear_arith);
    }
}

/// A digit string whose first digit is not '0' denotes a positive number.
pub proof fn lemma_leading_digit(s: Seq<char>)
    requires
        s.len() > 0,
        is_digit_char(s[0]),
        s[0] != '0',
    ensures
        decimal_value(s) >= 1,
{
    let rest = s.subrange(1, s.len() as int);
    assert(s =~= seq![s[0]] + rest);
    lemma_decimal_prepend(s[0], rest);
    lemma_power_positive(10, rest.len());
    let d = digit_value(s[0]);
    assert(d >= 1);
    assert(d * power(10, rest.len()) >= 1) by (nonlinear_arith)
        requires
            d >= 1,
            power(10, rest.len()) >= 1,
    ;
}

/// Reading a string of decimal digits without leading zeros and writing the
/// number back in decimal gives the same string.
pub proof fn law_decimal_round_trip(s: Seq<char>)
    requires
        all_digits(s),
        s.len() > 0,
        s[0] != '0' || s.len() == 1,
    ensures
        decimal_string(decimal_value(s)) == s,
    decreases s.len(),
{
    let n = decimal_value(s);
    let t = s.drop_last();
    let d = digit_value(s.last());
    lemma_digit_char(s.last());
    assert(s =~= t.push(s.last()));
    assert(n == 10 * decimal_value(t) + d);
    if s.len() == 1 {
        assert(t =~= Seq::<char>::empty());
        assert(decimal_value(t) == 0);
        assert(n == d);
        assert(s =~= seq![s.last()]);
    } else {
        assert(all_digits(t)) by {
            assert forall|i: int| 0 <= i < t.len() implies is_digit_char(#[trigger] t[i]) by {
                assert(t[i] == s[i]);
            }
        }
        assert(t[0] == s[0]);
        lemma_leading_digit(t);
        law_decimal_round_trip(t);
        let m = decimal_value(t);
        assert(n == 10 * m + d);
        assert(n / 10 == m && n % 10 == d && n >= 10) by (nonlinear_arith)
            requires
                n == 10 * m + d,
                d < 10,
                m >= 1,
        ;
    }
}

/// The value of a digit character.
pub(crate) fn digit_of(c: char) -> (r: u32)
    requires
        is_digit_char(c),
    ensures
        r == digit_value(c),
        r < 10,
{
    c as u32 - '0' as u32
}

/// The character of a digit value.
pub(crate) fn char_of_digit(d: u32) -> (r: char)
    requires
        d < 10,
    ensures
        r == digit_char(d as nat),
{
    if d == 0 {
        '0'
    } else if d == 1 {
        '1'
    } else if d == 2 {
        '2'
    } else if d == 3 {
        '3'
    } else if d == 4 {
        '4'
    } else if d == 5 {
        '5'
    } else if d == 6 {
        '6'
    } else if d == 7 {
        '7'
    } else if d == 8 {
        '8'
    } else {
        '9'
    }
}

/// Appends one digit character to `s`.
pub(crate) fn append_digit(s: &mut String, c: char)
    requires
        is_digit_char(c),
    ensures
        final(s)@ == old(s)@.push(c),
{
    proof {
        reveal_strlit("0");
        reveal_strlit("1");
        reveal_strlit("2");
        reveal_strlit("3");
        reveal_strlit("4");
        reveal_strlit("5");
        reveal_strlit("6");
        reveal_strlit("7");
        reveal_strlit("8");
        reveal_strlit("9");
    }
    if c == '0' {
        s.append("0");
    } else if c == '1' {
        s.append("1");
    } else if c == '2' {
        s.append("2");
    } else if c == '3' {
        s.append("3");
    } else if c == '4' {
        s.append("4");
    } else if c == '5' {
        s.append("5");
    } else if c == '6' {
        s.append("6");
    } else if c == '7' {
        s.append("7");
    } else if c == '8' {
        s.append("8");
    } else {
        s.append("9");
    }
}

/// Decimal digits, most significant first, without leading zeros (zero is
/// the empty sequence).
pub open spec fn is_decimal_digits(s: Seq<char>) -> bool {
    all_digits(s) && (s.len() == 0 || s[0] != '0')
}

/// Doubles the decimal number held in `digits` and adds `bit`.
pub(crate) fn double_decimal(digits: &mut Vec<char>, bit: bool)
    requires
        is_decimal_digits(old(digits)@),
    ensures
        is_decimal_digits(final(digits)@),
        decimal_value(final(digits)@) == 2 * decimal_value(old(digits)@) + if bit {
            1nat
        } else {
            0nat
        },
{
    let n = digits.len();
    let ghost d = digits@;
    let ghost b: nat = if bit {
        1
    } else {
        0
    };
    let mut carry: u32 = if bit {
        1
    } else {
        0
    };
    let mut k: usize = 0;
    proof {
        assert(low_digits(d, 0) =~= Seq::<char>::empty());
    }
    while k < n
        invariant
            n == digits@.len(),
            n == d.len(),
            k <= n,
            carry <= 1,
            is_decimal_digits(d),
            all_digits(digits@),
            forall|m: int| 0 <= m < n - k ==> digits@[m] == d[m],
            decimal_value(low_digits(digits@, k as nat)) + carry * power(10, k as nat) == 2
                * decimal_value(low_digits(d, k as nat)) + b,
            k == n && n > 0 && carry == 0 ==> digits@[0] != '0',
        decreases n - k,
    {
        let idx = n - 1 - k;
        let od = digit_of(digits[idx]);
        let x = 2 * od + carry;
        let nc = char_of_digit(x % 10);
        let ghost before = digits@;
        digits.set(idx, nc);
        proof {
            lemma_digit_value((x % 10) as nat);
            assert forall|i: int| 0 <= i < digits@.len() implies is_digit_char(
                #[trigger] digits@[i],
            ) by {
                if i != idx {
                    assert(digits@[i] == before[i]);
                }
            }
            assert(low_digits(digits@, k as nat) =~= low_digits(before, k as nat));
            assert(low_digits(digits@, (k + 1) as nat) =~= seq![nc] + low_digits(
                digits@,
                k as nat,
            ));
            assert(low_digits(d, (k + 1) as nat) =~= seq![d[idx as int]] + low_digits(
                d,
                k as nat,
            ));
            lemma_decimal_prepend(nc, low_digits(digits@, k as nat));
            lemma_decimal_prepend(d[idx as int], low_digits(d, k as nat));
            let p = power(10, k as nat);
            assert(power(10, (k + 1) as nat) == 10 * p);
            let lo = decimal_value(low_digits(before, k as nat));
            let ld = decimal_value(low_digits(d, k as nat));
            assert(lo + carry * p == 2 * ld + b);
            assert(((x % 10) as nat) * p + lo + ((x / 10) as nat) * (10 * p) == 2 * ((od as nat)
                * p + ld) + b) by (nonlinear_arith)
                requires
                    lo + carry * p == 2 * ld + b,
                    x == 2 * od + carry,
            ;
            if idx == 0 && x / 10 == 0 {
                assert(d[0] != '0');
                lemma_digit_char(d[0]);
                assert(od >= 1);
                assert(x % 10 == x);
            }
        }
        carry = x / 10;
        k += 1;
    }
    proof {
        assert(low_digits(digits@, n as nat) =~= digits@);
        assert(low_digits(d, n as nat) =~= d);
    }
    if carry == 1 {
        let ghost before = digits@;
        digits.insert(0, '1');
        proof {
            assert(digits@ =~= seq!['1'] + before);
            lemma_decimal_prepend('1', before);
            assert forall|i: int| 0 <= i < digits@.len() implies is_digit_char(
                #[trigger] digits@[i],
            ) by {
                if i > 0 {
                    assert(digits@[i] == before[i - 1]);
                }
            }
        }
    }
}

} // verus!
