use vstd::prelude::*;

use crate::bits::{
    lemma_bits_of_value, lemma_canonical_unique, lemma_pow2_monotone, lemma_sum_bits,
    lemma_sum_len_least, lemma_value_bound, lemma_value_front, sum_bits, sum_len,
};
use crate::helpers::{bits_value, is_canonical, power};

verus! {

/// Addition is commutative, bit for bit: `a + b` and `b + a` have the same
/// bits, so they are also numerically equal.
pub proof fn law_add_commutative(a: Seq<bool>, b: Seq<bool>)
    ensures
        sum_bits(a, b) == sum_bits(b, a),
        bits_value(sum_bits(a, b)) == bits_value(sum_bits(b, a)),
{
    assert(sum_len(a, b) == sum_len(b, a));
}

/// Addition is associative, bit for bit: `(a + b) + c` and `a + (b + c)`
/// have the same bits, and denote the sum of the three values.
pub proof fn law_add_associative(a: Seq<bool>, b: Seq<bool>, c: Seq<bool>)
    ensures
        sum_bits(sum_bits(a, b), c) == sum_bits(a, sum_bits(b, c)),
        bits_value(sum_bits(sum_bits(a, b), c)) == bits_value(a) + bits_value(b) + bits_value(c),
{
    let ab = sum_bits(a, b);
    let bc = sum_bits(b, c);
    lemma_sum_bits(a, b);
    lemma_sum_bits(b, c);
    lemma_sum_bits(ab, c);
    lemma_sum_bits(a, bc);
    let left = sum_len(ab, c);
    let right = sum_len(a, bc);
    lemma_sum_len_least(a, b, right);
    lemma_sum_len_least(ab, c, right);
    lemma_sum_len_least(b, c, left);
    lemma_sum_len_least(a, bc, left);
}

/// Adding the zero that parsing "0" gives (the empty sequence) leaves every
/// value unchanged, bit for bit.
pub proof fn law_add_zero(a: Seq<bool>)
    ensures
        sum_bits(a, Seq::empty()) == a,
{
    lemma_value_bound(a);
    assert(sum_len(a, Seq::empty()) == a.len());
    lemma_bits_of_value(a);
}

/// Multiplication distributes over addition: `a * (b + c)` equals
/// `a * b + a * c`, where `x` and `y` are any values of `a * b` and `a * c`.
pub proof fn law_mul_distributes_over_add(
    a: Seq<bool>,
    b: Seq<bool>,
    c: Seq<bool>,
    x: Seq<bool>,
    y: Seq<bool>,
)
    requires
        bits_value(x) == bits_value(a) * bits_value(b),
        bits_value(y) == bits_value(a) * bits_value(c),
    ensures
        bits_value(a) * bits_value(sum_bits(b, c)) == bits_value(sum_bits(x, y)),
{
    lemma_sum_bits(b, c);
    lemma_sum_bits(x, y);
    assert(bits_value(a) * (bits_value(b) + bits_value(c)) == bits_value(a) * bits_value(b)
        + bits_value(a) * bits_value(c)) by (nonlinear_arith);
}

/// Multiplying by one leaves every value numerically unchanged; `r` is any
/// value of `a * one`. Where both `a` and the product are canonical (no
/// leading false bits), the product has the same bits as `a`.
pub proof fn law_mul_one(a: Seq<bool>, one: Seq<bool>, r: Seq<bool>)
    requires
        bits_value(one) == 1,
        bits_value(r) == bits_value(a) * bits_value(one),
    ensures
        bits_value(r) == bits_value(a),
        is_canonical(a) && is_canonical(r) ==> r == a,
{
    if is_canonical(a) && is_canonical(r) {
        lemma_canonical_unique(a, r);
    }
}

/// Any number to the power zero is one, and the canonical result that `pow`
/// returns is the single set bit.
pub proof fn law_pow_zero(a: Seq<bool>, e: Seq<bool>, r: Seq<bool>)
    requires
        bits_value(e) == 0,
        is_canonical(r),
        bits_value(r) == power(bits_value(a), bits_value(e)),
    ensures
        bits_value(r) == 1,
        r == seq![true],
{
    if r.len() > 1 {
        lemma_value_front(r);
        lemma_pow2_monotone(1, (r.len() - 1) as nat);
        reveal_with_fuel(crate::helpers::pow2, 2);
    }
    if r.len() == 0 {
        assert(bits_value(r) == 0);
    }
    if r.len() == 1 {
        assert(r.drop_last() =~= Seq::<bool>::empty());
        assert(r =~= seq![true]);
    }
}

} // verus!
