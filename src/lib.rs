use vstd::prelude::*;

pub mod bits;
pub mod decimal;
pub mod helpers;
pub mod laws;

use crate::bits::{
    bit_at, first_set, lemma_bits_of_value, lemma_low_bits_step, lemma_pow2_monotone, lemma_pow2_positive,
    lemma_power_positive, lemma_value_bound, lemma_value_front, lemma_value_injective,
    lemma_value_prepend, lemma_value_push, lemma_value_strip, low_bits, sum_bits, sum_len,
};
use crate::decimal::{
    append_digit, decimal_string, double_decimal, is_decimal_digits, law_decimal_round_trip,
    lemma_decimal_prepend,
};
use crate::helpers::{
    add_three_bools, all_digits, bits_value, char_to_bool_vector, decimal_value, digit_value,
    is_canonical, is_number, pow2, power,
};

verus! {

/// The error of parsing a string that holds a character other than '0'-'9'.
#[derive(Debug, Clone, Copy, PartialEq, Eq)]
pub struct InvalidInputError;

/// An arbitrary-precision unsigned integer, stored as its bits, most
/// significant first.
#[derive(Debug, Clone)]
pub struct BigInt {
    pub value: Vec<bool>,
}

impl View for BigInt {
    type V = Seq<bool>;

    open spec fn view(&self) -> Seq<bool> {
        self.value@
    }
}

impl BigInt {
    /// The number this value denotes.
    pub open spec fn num(&self) -> nat {
        bits_value(self@)
    }

    /// Binary addition with carry, from the least significant ends. The
    /// result is as long as the longer operand, one bit longer when a carry
    /// remains.
    pub fn plus(self, other: BigInt) -> (r: BigInt)
        ensures
            r.num() == self.num() + other.num(),
            r@.len() == sum_len(self@, other@),
            r@ == sum_bits(self@, other@),
            is_canonical(self@) && is_canonical(other@) ==> is_canonical(r@),
    {
        let la = self.value.len();
        let lb = other.value.len();
        let n = if la > lb {
            la
        } else {
            lb
        };
        let mut rev: Vec<bool> = Vec::new();
        let ghost mut low: Seq<bool> = Seq::empty();
        let mut carry = false;
        let mut i: usize = 0;
        while i < n
            invariant
                la == self@.len(),
                lb == other@.len(),
                n == vstd::math::max(la as int, lb as int),
                i <= n,
                rev@.len() == i,
                low.len() == i,
                forall|k: int| 0 <= k < i ==> rev@[k] == low[i - 1 - k],
                bits_value(low) + (if carry {
                    pow2(i as nat)
                } else {
                    0
                }) == bits_value(low_bits(self@, i as nat)) + bits_value(
                    low_bits(other@, i as nat),
                ),
            decreases n - i,
        {
            let lval = if i < la {
                self.value[la - 1 - i]
            } else {
                false
            };
            let rval = if i < lb {
                other.value[lb - 1 - i]
            } else {
                false
            };
            let (new_carry, val) = add_three_bools(lval, rval, carry);
            rev.push(val);
            proof {
                lemma_low_bits_step(self@, i as nat);
                lemma_low_bits_step(other@, i as nat);
                lemma_value_prepend(val, low);
                low = seq![val] + low;
                assert(bit_at(self@, i as nat) == lval);
                assert(bit_at(other@, i as nat) == rval);
                assert(pow2((i + 1) as nat) == 2 * pow2(i as nat));
            }
            carry = new_carry;
            i += 1;
        }
        proof {
            assert(low_bits(self@, n as nat) == self@);
            assert(low_bits(other@, n as nat) == other@);
            lemma_value_bound(low);
        }
        let ghost head: Seq<bool> = if carry {
            seq![true]
        } else {
            Seq::empty()
        };
        let mut value: Vec<bool> = Vec::new();
        if carry {
            value.push(true);
        }
        let mut k: usize = n;
        while k > 0
            invariant
                k <= n,
                rev@.len() == n,
                low.len() == n,
                forall|j: int| 0 <= j < n ==> rev@[j] == low[n - 1 - j],
                value@ =~= head + low.subrange(0, n - k),
            decreases k,
        {
            k -= 1;
            value.push(rev[k]);
            assert(low.subrange(0, n - k) =~= low.subrange(0, n - k - 1).push(low[n - 1 - k]));
        }
        assert(low.subrange(0, n as int) =~= low);
        proof {
            if carry {
                lemma_value_prepend(true, low);
            } else {
                assert(value@ =~= low);
            }
            if is_canonical(self@) && is_canonical(other@) && !carry && n > 0 {
                if la == n {
                    lemma_value_front(self@);
                } else {
                    lemma_value_front(other@);
                }
                lemma_value_front(low);
            }
            lemma_bits_of_value(value@);
        }
        BigInt { value }
    }

    /// Numeric equality: leading false bits are ignored, so `[]` and
    /// `[false]` both equal zero.
    pub fn equals(&self, other: &BigInt) -> (r: bool)
        ensures
            r == (self.num() == other.num()),
    {
        let la = self.value.len();
        let lb = other.value.len();
        let i = first_set(&self.value);
        let j = first_set(&other.value);
        let ghost sa = self@.subrange(i as int, la as int);
        let ghost sb = other@.subrange(j as int, lb as int);
        proof {
            lemma_value_strip(self@, i as int);
            lemma_value_strip(other@, j as int);
        }
        if la - i != lb - j {
            proof {
                if la - i < lb - j {
                    lemma_value_bound(sa);
                    lemma_value_front(sb);
                    lemma_pow2_monotone(sa.len(), (sb.len() - 1) as nat);
                } else {
                    lemma_value_bound(sb);
                    lemma_value_front(sa);
                    lemma_pow2_monotone(sb.len(), (sa.len() - 1) as nat);
                }
            }
            return false;
        }
        let n = la - i;
        let mut k: usize = 0;
        while k < n
            invariant
                n == sa.len(),
                n == sb.len(),
                i + n == la,
                j + n == lb,
                la == self@.len(),
                lb == other@.len(),
                sa == self@.subrange(i as int, la as int),
                sb == other@.subrange(j as int, lb as int),
                self.num() == bits_value(sa),
                other.num() == bits_value(sb),
                k <= n,
                forall|m: int| 0 <= m < k ==> sa[m] == sb[m],
            decreases n - k,
        {
            if self.value[i + k] != other.value[j + k] {
                proof {
                    assert(sa[k as int] == self@[i + k]);
                    assert(sb[k as int] == other@[j + k]);
                    if bits_value(sa) == bits_value(sb) {
                        lemma_value_injective(sa, sb);
                        assert(sa[k as int] == sb[k as int]);
                    }
                }
                return false;
            }
            k += 1;
        }
        assert(sa =~= sb);
        true
    }

    /// Parses a decimal string: each digit, from the least significant, is
    /// scaled by the matching power of ten and added to the total. The
    /// empty string gives zero.
    pub fn new(value_str: &str) -> (r: Result<BigInt, InvalidInputError>)
        ensures
            r is Err <==> !all_digits(value_str@),
            r matches Ok(b) ==> b.num() == decimal_value(value_str@) && is_canonical(b@),
    {
        if !is_number(value_str) {
            return Err(InvalidInputError);
        }
        let n = value_str.unicode_len();
        let mut big_int = BigInt::zero();
        let mut count = BigInt::zero();
        let mut p: usize = 0;
        proof {
            assert(value_str@.subrange(n as int, n as int) =~= Seq::<char>::empty());
        }
        while p < n
            invariant
                n == value_str@.len(),
                p <= n,
                count.num() == p,
                is_canonical(big_int@),
                big_int.num() == decimal_value(value_str@.subrange(n - p, n as int)),
            decreases n - p,
        {
            let val = value_str.get_char(n - 1 - p);
            let sub_value = BigInt::char_to_big_int(val);
            let ten = BigInt { value: vec![true, false, true, false] };
            proof {
                reveal_with_fuel(bits_value, 5);
                assert(ten.num() == 10);
            }
            let scale = ten.pow(count.duplicate());
            proof {
                lemma_power_positive(10, p as nat);
                if scale@.len() == 0 {
                    assert(scale@ =~= Seq::<bool>::empty());
                }
            }
            let sub_value = sub_value.times(scale);
            big_int = big_int.plus(sub_value);
            count = count.plus(BigInt::one());
            proof {
                let low = value_str@.subrange(n - p, n as int);
                assert(value_str@.subrange(n - p - 1, n as int) =~= seq![val] + low);
                lemma_decimal_prepend(val, low);
            }
            p += 1;
        }
        assert(value_str@.subrange(0, n as int) =~= value_str@);
        Ok(big_int)
    }

    /// Repeated multiplication: counts up from zero to `other`, multiplying
    /// the running product by `self` at each step. Numeric equality ends the
    /// count, so an exponent with leading false bits ends it too.
    pub fn pow(self, other: BigInt) -> (r: BigInt)
        ensures
            r.num() == power(self.num(), other.num()),
            is_canonical(r@),
    {
        let mut counter = BigInt::zero();
        let mut product = BigInt::one();
        proof {
            reveal_with_fuel(bits_value, 2);
        }
        loop
            invariant
                counter.num() <= other.num(),
                product.num() == power(self.num(), counter.num()),
                is_canonical(product@),
                product@.len() == 0 ==> self.num() == 0,
            decreases other.num() - counter.num(),
        {
            if counter.equals(&other) {
                return product;
            }
            counter = counter.plus(BigInt::one());
            let ghost before = product@;
            product = self.duplicate().times(product);
            proof {
                if product@.len() == 0 && before.len() > 0 {
                    lemma_value_front(before);
                    lemma_pow2_positive((before.len() - 1) as nat);
                    assert(self.num() == 0) by (nonlinear_arith)
                        requires
                            self.num() * bits_value(before) == 0,
                            bits_value(before) > 0,
                    ;
                }
            }
        }
    }

    /// The number written in decimal, most significant digit first, without
    /// leading zeros; "0" for zero.
    pub fn str(&self) -> (r: String)
        ensures
            r@ == decimal_string(self.num()),
    {
        let mut digits: Vec<char> = Vec::new();
        let mut i: usize = 0;
        proof {
            assert(self@.subrange(0, 0) =~= Seq::<bool>::empty());
            assert(digits@ =~= Seq::<char>::empty());
        }
        while i < self.value.len()
            invariant
                i <= self@.len(),
                is_decimal_digits(digits@),
                decimal_value(digits@) == bits_value(self@.subrange(0, i as int)),
            decreases self@.len() - i,
        {
            double_decimal(&mut digits, self.value[i]);
            proof {
                assert(self@.subrange(0, i + 1) =~= self@.subrange(0, i as int).push(self@[i as int]));
                lemma_value_push(self@.subrange(0, i as int), self@[i as int]);
            }
            i += 1;
        }
        assert(self@.subrange(0, self@.len() as int) =~= self@);
        let mut value = String::new();
        if digits.len() == 0 {
            append_digit(&mut value, '0');
            assert(value@ =~= seq!['0']);
            return value;
        }
        let mut j: usize = 0;
        while j < digits.len()
            invariant
                j <= digits@.len(),
                all_digits(digits@),
                value@ =~= digits@.subrange(0, j as int),
            decreases digits@.len() - j,
        {
            append_digit(&mut value, digits[j]);
            j += 1;
        }
        proof {
            assert(digits@.subrange(0, digits@.len() as int) =~= digits@);
            law_decimal_round_trip(digits@);
        }
        value
    }

    /// The bits rendered as '1' and '0' characters, most significant first;
    /// the empty string for the empty sequence.
    pub fn to_string(&self) -> (r: String)
        ensures
            r@.len() == self@.len(),
            forall|i: int| 0 <= i < self@.len() ==> r@[i] == if self@[i] {
                '1'
            } else {
                '0'
            },
    {
        let mut value_str = String::new();
        let mut i: usize = 0;
        proof {
            reveal_strlit("1");
            reveal_strlit("0");
        }
        while i < self.value.len()
            invariant
                i <= self@.len(),
                value_str@.len() == i,
                "1"@ == seq!['1'],
                "0"@ == seq!['0'],
                forall|k: int| 0 <= k < i ==> value_str@[k] == if self@[k] {
                    '1'
                } else {
                    '0'
                },
            decreases self@.len() - i,
        {
            if self.value[i] {
                value_str.append("1");
            } else {
                value_str.append("0");
            }
            i += 1;
        }
        value_str
    }

    fn char_to_big_int(character: char) -> (r: BigInt)
        ensures
            r.num() == digit_value(character),
            is_canonical(r@),
    {
        BigInt { value: char_to_bool_vector(character) }
    }

    fn zero() -> (r: BigInt)
        ensures
            r@ == Seq::<bool>::empty(),
            r.num() == 0,
    {
        let r = BigInt { value: Vec::new() };
        assert(r@ =~= Seq::<bool>::empty());
        r
    }

    fn one() -> (r: BigInt)
        ensures
            r@ == seq![true],
            r.num() == 1,
    {
        let r = BigInt { value: vec![true] };
        proof {
            reveal_with_fuel(bits_value, 2);
        }
        r
    }

    /// A copy with the same bits.
    fn duplicate(&self) -> (r: BigInt)
        ensures
            r@ == self@,
    {
        let value = self.value.clone();
        assert(value@ =~= self@);
        BigInt { value }
    }

    /// Shift-and-add multiplication: walks the bits of `self` from the least
    /// significant, adding a copy of `other` shifted by the bit's position
    /// wherever the bit is set.
    pub fn times(self, other: BigInt) -> (r: BigInt)
        ensures
            r.num() == self.num() * other.num(),
            self.num() == 0 ==> r@.len() == 0,
            is_canonical(other@) && other@.len() > 0 ==> is_canonical(r@),
            r@.len() <= self@.len() + other@.len(),
    {
        let la = self.value.len();
        let mut rhs = other.duplicate();
        let mut product = BigInt { value: Vec::new() };
        let mut i: usize = 0;
        proof {
            assert(low_bits(self@, 0) =~= Seq::<bool>::empty());
            assert(product@ =~= Seq::<bool>::empty());
            assert(other.num() * 0 == 0);
            assert(pow2(0) == 1);
            assert(other.num() * 1 == other.num());
        }
        while i < la
            invariant
                la == self@.len(),
                i <= la,
                rhs.num() == other.num() * pow2(i as nat),
                rhs@.len() == other@.len() + i,
                is_canonical(other@) && other@.len() > 0 ==> is_canonical(rhs@),
                is_canonical(other@) && other@.len() > 0 ==> is_canonical(product@),
                product.num() == other.num() * bits_value(low_bits(self@, i as nat)),
                bits_value(low_bits(self@, i as nat)) == 0 ==> product@.len() == 0,
                product@.len() <= other@.len() + i,
            decreases la - i,
        {
            let bit = self.value[la - 1 - i];
            proof {
                lemma_low_bits_step(self@, i as nat);
                lemma_pow2_positive(i as nat);
                assert(bit_at(self@, i as nat) == bit);
            }
            let ghost before = product.num();
            if bit {
                let shifted = rhs.duplicate();
                product = product.plus(shifted);
                proof {
                    assert(product.num() == before + other.num() * pow2(i as nat));
                    assert(product.num() == other.num() * bits_value(low_bits(self@, (i + 1) as nat)))
                        by (nonlinear_arith)
                        requires
                            product.num() == before + other.num() * pow2(i as nat),
                            before == other.num() * bits_value(low_bits(self@, i as nat)),
                            bits_value(low_bits(self@, (i + 1) as nat)) == bits_value(
                                low_bits(self@, i as nat),
                            ) + pow2(i as nat),
                    ;
                }
            }
            let ghost old_rhs = rhs@;
            rhs.value.push(false);
            proof {
                lemma_value_push(old_rhs, false);
                assert(pow2((i + 1) as nat) == 2 * pow2(i as nat));
                assert(rhs.num() == other.num() * pow2((i + 1) as nat)) by (nonlinear_arith)
                    requires
                        rhs.num() == 2 * bits_value(old_rhs),
                        bits_value(old_rhs) == other.num() * pow2(i as nat),
                        pow2((i + 1) as nat) == 2 * pow2(i as nat),
                ;
            }
            i += 1;
        }
        proof {
            assert(low_bits(self@, la as nat) == self@);
            assert(product.num() == self.num() * other.num()) by (nonlinear_arith)
                requires
                    product.num() == other.num() * self.num(),
            ;
        }
        product
    }
}

impl core::ops::Add for BigInt {
    type Output = BigInt;

    fn add(self, other: BigInt) -> BigInt {
        self.plus(other)
    }
}

/// `+` forwards to `plus`, whose contract states the result; the operator
/// itself promises nothing more to verified callers.
impl vstd::std_specs::ops::AddSpecImpl for BigInt {
    open spec fn obeys_add_spec() -> bool {
        false
    }

    open spec fn add_req(self, other: BigInt) -> bool {
        true
    }

    open spec fn add_spec(self, other: BigInt) -> BigInt {
        self
    }
}

impl core::ops::Mul for BigInt {
    type Output = BigInt;

    fn mul(self, other: BigInt) -> BigInt {
        self.times(other)
    }
}

/// `*` forwards to `times`, whose contract states the result; the operator
/// itself promises nothing more to verified callers.
impl vstd::std_specs::ops::MulSpecImpl for BigInt {
    open spec fn obeys_mul_spec() -> bool {
        false
    }

    open spec fn mul_req(self, other: BigInt) -> bool {
        true
    }

    open spec fn mul_spec(self, other: BigInt) -> BigInt {
        self
    }
}

impl PartialEq for BigInt {
    fn eq(&self, other: &BigInt) -> (r: bool) {
        self.equals(other)
    }
}

impl vstd::std_specs::cmp::PartialEqSpecImpl for BigInt {
    open spec fn obeys_eq_spec() -> bool {
        true
    }

    open spec fn eq_spec(&self, other: &BigInt) -> bool {
        self.num() == other.num()
    }
}

} // verus!
