use vstd::prelude::*;

use crate::helpers::{bits_value, is_canonical, pow2, power};

verus! {

/// The `len` least significant bits of `n`, most significant first.
pub open spec fn bits_of(n: nat, len: nat) -> Seq<bool>
    decreases len,
{
    if len == 0 {
        Seq::empty()
    } else {
        bits_of(n / 2, (len - 1) as nat).push(n % 2 == 1)
    }
}

/// The length of a sum's bits: that of the longer operand, one more when the
/// sum does not fit in it.
pub open spec fn sum_len(a: Seq<bool>, b: Seq<bool>) -> nat {
    let m = vstd::math::max(a.len() as int, b.len() as int) as nat;
    if bits_value(a) + bits_value(b) < pow2(m) {
        m
    } else {
        m + 1
    }
}

/// The bits that addition yields for `a` and `b`.
pub open spec fn sum_bits(a: Seq<bool>, b: Seq<bool>) -> Seq<bool> {
    bits_of(bits_value(a) + bits_value(b), sum_len(a, b))
}

/// A sequence is the bits of its own value at its own length.
pub proof fn lemma_bits_of_value(s: Seq<bool>)
    ensures
        bits_of(bits_value(s), s.len()) == s,
    decreases s.len(),
{
    if s.len() > 0 {
        let v = bits_value(s);
        let w = bits_value(s.drop_last());
        assert(v == 2 * w + if s.last() {
            1nat
        } else {
            0nat
        });
        assert(v / 2 == w && (v % 2 == 1) == s.last());
        lemma_bits_of_value(s.drop_last());
        assert(s =~= s.drop_last().push(s.last()));
    }
}

/// The bits of a number that fits in `len` bits denote that number.
pub proof fn lemma_value_bits_of(n: nat, len: nat)
    requires
        n < pow2(len),
    ensures
        bits_of(n, len).len() == len,
        bits_value(bits_of(n, len)) == n,
    decreases len,
{
    if len > 0 {
        assert(n / 2 < pow2((len - 1) as nat));
        lemma_value_bits_of(n / 2, (len - 1) as nat);
        let t = bits_of(n, len);
        assert(t.drop_last() == bits_of(n / 2, (len - 1) as nat));
    }
}

/// The sum always fits in the length that addition gives it.
pub proof fn lemma_sum_bits(a: Seq<bool>, b: Seq<bool>)
    ensures
        bits_value(a) + bits_value(b) < pow2(sum_len(a, b)),
        sum_bits(a, b).len() == sum_len(a, b),
        bits_value(sum_bits(a, b)) == bits_value(a) + bits_value(b),
{
    let m = vstd::math::max(a.len() as int, b.len() as int) as nat;
    lemma_value_bound(a);
    lemma_value_bound(b);
    lemma_pow2_monotone(a.len(), m);
    lemma_pow2_monotone(b.len(), m);
    assert(pow2(m + 1) == 2 * pow2(m));
    lemma_value_bits_of(bits_value(a) + bits_value(b), sum_len(a, b));
}

/// The `i` least significant bits of `s` (all of `s` when it is shorter).
pub open spec fn low_bits(s: Seq<bool>, i: nat) -> Seq<bool> {
    if i < s.len() {
        s.subrange(s.len() - i, s.len() as int)
    } else {
        s
    }
}

/// Whether bit `i` of `s`, counted from the least significant end, is set.
pub open spec fn bit_at(s: Seq<bool>, i: nat) -> bool {
    i < s.len() && s[s.len() - 1 - i]
}

pub proof fn lemma_value_prepend(x: bool, s: Seq<bool>)
    ensures
        bits_value(seq![x] + s) == (if x {
            pow2(s.len())
        } else {
            0
        }) + bits_value(s),
    decreases s.len(),
{
    let t = seq![x] + s;
    if s.len() == 0 {
        assert(t.drop_last() =~= Seq::<bool>::empty());
        assert(t.last() == x);
        assert(bits_value(t) == 2 * bits_value(t.drop_last()) + if x { 1nat } else { 0nat });
    } else {
        assert(t.drop_last() =~= seq![x] + s.drop_last());
        assert(t.last() == s.last());
        lemma_value_prepend(x, s.drop_last());
        assert(pow2(s.len()) == 2 * pow2(s.drop_last().len()));
        assert(bits_value(t) == 2 * bits_value(t.drop_last()) + if s.last() { 1nat } else { 0nat });
        assert(bits_value(s) == 2 * bits_value(s.drop_last()) + if s.last() { 1nat } else { 0nat });
    }
}

pub proof fn lemma_pow2_positive(n: nat)
    ensures
        pow2(n) > 0,
    decreases n,
{
    if n > 0 {
        lemma_pow2_positive((n - 1) as nat);
    }
}

pub proof fn lemma_value_bound(s: Seq<bool>)
    ensures
        bits_value(s) < pow2(s.len()),
    decreases s.len(),
{
    if s.len() > 0 {
        lemma_value_bound(s.drop_last());
    }
}

pub proof fn lemma_value_push(s: Seq<bool>, x: bool)
    ensures
        bits_value(s.push(x)) == 2 * bits_value(s) + if x {
            1nat
        } else {
            0nat
        },
{
    assert(s.push(x).drop_last() =~= s);
}

/// Splits off the most significant bit of a non-empty sequence.
pub proof fn lemma_value_front(s: Seq<bool>)
    requires
        s.len() > 0,
    ensures
        bits_value(s) == (if s[0] {
            pow2((s.len() - 1) as nat)
        } else {
            0
        }) + bits_value(s.subrange(1, s.len() as int)),
        !s[0] ==> bits_value(s) < pow2((s.len() - 1) as nat),
        s[0] ==> bits_value(s) >= pow2((s.len() - 1) as nat),
{
    let rest = s.subrange(1, s.len() as int);
    assert(s =~= seq![s[0]] + rest);
    lemma_value_prepend(s[0], rest);
    lemma_value_bound(rest);
}

pub proof fn lemma_low_bits_step(s: Seq<bool>, i: nat)
    ensures
        low_bits(s, i).len() == if i < s.len() {
            i
        } else {
            s.len()
        },
        bits_value(low_bits(s, i + 1)) == bits_value(low_bits(s, i)) + if bit_at(s, i) {
            pow2(i)
        } else {
            0
        },
{
    if i < s.len() {
        let b = s[s.len() - 1 - i];
        assert(low_bits(s, i + 1) =~= seq![b] + low_bits(s, i));
        lemma_value_prepend(b, low_bits(s, i));
    }
}

pub proof fn lemma_pow2_monotone(a: nat, b: nat)
    requires
        a <= b,
    ensures
        pow2(a) <= pow2(b),
    decreases b,
{
    if a < b {
        lemma_pow2_monotone(a, (b - 1) as nat);
    }
}

/// Two sequences of one length with one value are the same sequence.
pub proof fn lemma_value_injective(s: Seq<bool>, t: Seq<bool>)
    requires
        s.len() == t.len(),
        bits_value(s) == bits_value(t),
    ensures
        s == t,
    decreases s.len(),
{
    if s.len() > 0 {
        lemma_value_injective(s.drop_last(), t.drop_last());
        assert(s =~= s.drop_last().push(s.last()));
        assert(t =~= t.drop_last().push(t.last()));
    } else {
        assert(s =~= t);
    }
}

/// Leading false bits do not change the value.
pub proof fn lemma_value_strip(s: Seq<bool>, i: int)
    requires
        0 <= i <= s.len(),
        forall|k: int| 0 <= k < i ==> !s[k],
    ensures
        bits_value(s) == bits_value(s.subrange(i, s.len() as int)),
    decreases i,
{
    if i > 0 {
        let rest = s.subrange(1, s.len() as int);
        lemma_value_front(s);
        lemma_value_strip(rest, i - 1);
        assert(rest.subrange(i - 1, rest.len() as int) =~= s.subrange(i, s.len() as int));
    } else {
        assert(s.subrange(0, s.len() as int) =~= s);
    }
}

/// The index of the first set bit, or the length when none is set.
pub(crate) fn first_set(s: &Vec<bool>) -> (r: usize)
    ensures
        r <= s@.len(),
        forall|k: int| 0 <= k < r ==> !s@[k],
        r < s@.len() ==> s@[r as int],
{
    let mut i: usize = 0;
    while i < s.len()
        invariant
            i <= s@.len(),
            forall|k: int| 0 <= k < i ==> !s@[k],
        decreases s@.len() - i,
    {
        if s[i] {
            return i;
        }
        i += 1;
    }
    i
}

pub proof fn lemma_power_positive(b: nat, e: nat)
    requires
        b > 0,
    ensures
        power(b, e) > 0,
    decreases e,
{
    if e > 0 {
        lemma_power_positive(b, (e - 1) as nat);
        assert(b * power(b, (e - 1) as nat) > 0) by (nonlinear_arith)
            requires
                b > 0,
                power(b, (e - 1) as nat) > 0,
        ;
    }
}

/// Two canonical sequences with one value are the same sequence.
pub proof fn lemma_canonical_unique(s: Seq<bool>, t: Seq<bool>)
    requires
        is_canonical(s),
        is_canonical(t),
        bits_value(s) == bits_value(t),
    ensures
        s == t,
{
    if s.len() < t.len() {
        lemma_value_bound(s);
        lemma_value_front(t);
        lemma_pow2_monotone(s.len(), (t.len() - 1) as nat);
    } else if t.len() < s.len() {
        lemma_value_bound(t);
        lemma_value_front(s);
        lemma_pow2_monotone(t.len(), (s.len() - 1) as nat);
    } else {
        lemma_value_injective(s, t);
    }
}

/// The length that addition gives a sum is the least one, no shorter than
/// either operand, in which the sum fits.
pub proof fn lemma_sum_len_least(a: Seq<bool>, b: Seq<bool>, len: nat)
    requires
        len >= a.len(),
        len >= b.len(),
        bits_value(a) + bits_value(b) < pow2(len),
    ensures
        sum_len(a, b) <= len,
{
    let m = vstd::math::max(a.len() as int, b.len() as int) as nat;
    if len < m + 1 {
        assert(len == m);
    }
}

} // verus!
