//! Fixed-width numerals: the model behind policy enumeration.
//!
//! An action sequence of length `len` over `base` actions is read as a
//! numeral of `len` digits in base `base`, most significant digit first.
use vstd::arithmetic::div_mod::{
    lemma_div_denominator,
    lemma_fundamental_div_mod,
    lemma_fundamental_div_mod_converse,
    lemma_mod_breakdown,
    lemma_small_mod,
};
use vstd::arithmetic::power::{lemma_pow_positive, pow};
use vstd::prelude::*;

verus! {

/// The last `len` digits of `k` in base `base`, most significant first.
pub open spec fn digits(base: nat, len: nat, k: nat) -> Seq<usize>
    decreases len,
{
    if len == 0 {
        seq![]
    } else {
        digits(base, (len - 1) as nat, k / base).push((k % base) as usize)
    }
}

/// The number that the numeral `s` stands for in base `base`.
pub open spec fn numeral_value(base: nat, s: Seq<usize>) -> nat
    decreases s.len(),
{
    if s.len() == 0 {
        0
    } else {
        (numeral_value(base, s.drop_last()) * base + s.last()) as nat
    }
}

/// `len` zero digits.
pub open spec fn zeros(len: nat) -> Seq<usize> {
    Seq::new(len, |i: int| 0usize)
}

/// `s` is a sequence of `len` actions, each below `base`.
pub open spec fn is_action_sequence(base: nat, len: nat, s: Seq<usize>) -> bool {
    &&& s.len() == len
    &&& forall|i: int| 0 <= i < s.len() ==> #[trigger] s[i] < base
}

/// Number of numerals of `len` digits in base `base`.
pub open spec fn count(base: nat, len: nat) -> nat {
    pow(base as int, len) as nat
}

/// `pow` unfolded once.
pub proof fn lemma_pow_step(base: nat, len: nat)
    ensures
        pow(base as int, len + 1) == base * pow(base as int, len),
        pow(base as int, 0) == 1,
{
    reveal(pow);
}

/// The digits of a number form an action sequence of the right length.
pub proof fn lemma_digits_shape(base: nat, len: nat, k: nat)
    requires
        0 < base <= usize::MAX,
    ensures
        is_action_sequence(base, len, digits(base, len, k)),
    decreases len,
{
    if len > 0 {
        lemma_digits_shape(base, (len - 1) as nat, k / base);
    }
}

/// A multiple of `base^len` has only zero digits.
pub proof fn lemma_digits_of_multiple(base: nat, len: nat, k: nat)
    requires
        0 < base,
        k % count(base, len) == 0,
    ensures
        digits(base, len, k) =~= zeros(len),
    decreases len,
{
    if len > 0 {
        let p = pow(base as int, (len - 1) as nat);
        lemma_pow_step(base, (len - 1) as nat);
        lemma_pow_positive(base as int, (len - 1) as nat);
        lemma_mod_breakdown(k as int, base as int, p);
        let a = (k / base) % (p as nat);
        assert(base * a == 0 && k % base == 0) by (nonlinear_arith)
            requires
                base * a + k % base == 0,
                base > 0,
                a >= 0,
                k % base >= 0,
        ;
        assert(a == 0) by (nonlinear_arith)
            requires
                base * a == 0,
                base > 0,
        ;
        lemma_digits_of_multiple(base, (len - 1) as nat, k / base);
    } else {
        lemma_pow_step(base, 0);
    }
}

/// The numeral of `a + b` digits splits into its high `a` and low `b` digits.
pub proof fn lemma_digits_split(base: nat, a: nat, b: nat, k: nat)
    requires
        0 < base,
    ensures
        digits(base, a + b, k) =~= digits(base, a, k / count(base, b)) + digits(base, b, k),
    decreases b,
{
    if b == 0 {
        lemma_pow_step(base, 0);
        assert(a + b == a);
    } else {
        let b1 = (b - 1) as nat;
        lemma_digits_split(base, a, b1, k / base);
        lemma_pow_step(base, b1);
        lemma_pow_positive(base as int, b1);
        lemma_div_denominator(k as int, base as int, pow(base as int, b1));
        assert((a + b1 + 1) as nat == a + b);
        assert(digits(base, a + b, k) == digits(base, a + b1, k / base).push(
            (k % base) as usize,
        ));
    }
}

/// Reading the digits of `k` back gives `k` modulo `base^len`.
pub proof fn lemma_value_of_digits(base: nat, len: nat, k: nat)
    requires
        0 < base <= usize::MAX,
    ensures
        numeral_value(base, digits(base, len, k)) == k % count(base, len),
    decreases len,
{
    if len == 0 {
        lemma_pow_step(base, 0);
    } else {
        let l1 = (len - 1) as nat;
        let p = pow(base as int, l1);
        lemma_value_of_digits(base, l1, k / base);
        lemma_pow_step(base, l1);
        lemma_pow_positive(base as int, l1);
        lemma_mod_breakdown(k as int, base as int, p);
        let s = digits(base, len, k);
        assert(s.drop_last() =~= digits(base, l1, k / base));
        assert(((k / base) % (p as nat)) * base == base * ((k / base) % (p as nat))) by (
        nonlinear_arith);
    }
}

/// The value of an action sequence of length `len` is below `base^len`.
pub proof fn lemma_value_bound(base: nat, len: nat, s: Seq<usize>)
    requires
        0 < base,
        is_action_sequence(base, len, s),
    ensures
        numeral_value(base, s) < count(base, len),
    decreases len,
{
    if len == 0 {
        lemma_pow_step(base, 0);
    } else {
        let l1 = (len - 1) as nat;
        let s1 = s.drop_last();
        assert(is_action_sequence(base, l1, s1)) by {
            assert forall|i: int| 0 <= i < s1.len() implies #[trigger] s1[i] < base by {
                assert(s1[i] == s[i]);
            }
        }
        lemma_value_bound(base, l1, s1);
        lemma_pow_step(base, l1);
        lemma_pow_positive(base as int, l1);
        let v = numeral_value(base, s1);
        let p = pow(base as int, l1);
        let d = s.last();
        assert(d < base);
        assert(v * base + d < base * p) by (nonlinear_arith)
            requires
                v < p,
                d < base,
                0 <= v,
                0 <= d,
        ;
    }
}

/// An action sequence is the numeral of its own value.
pub proof fn lemma_digits_of_value(base: nat, len: nat, s: Seq<usize>)
    requires
        0 < base <= usize::MAX,
        is_action_sequence(base, len, s),
    ensures
        digits(base, len, numeral_value(base, s)) =~= s,
    decreases len,
{
    if len > 0 {
        let l1 = (len - 1) as nat;
        let s1 = s.drop_last();
        assert(is_action_sequence(base, l1, s1)) by {
            assert forall|i: int| 0 <= i < s1.len() implies #[trigger] s1[i] < base by {
                assert(s1[i] == s[i]);
            }
        }
        let v = numeral_value(base, s1);
        let d = s.last();
        assert(d < base);
        lemma_fundamental_div_mod_converse(
            numeral_value(base, s) as int,
            base as int,
            v as int,
            d as int,
        );
        lemma_digits_of_value(base, l1, s1);
        assert(s =~= s1.push(d));
    }
}

/// Distinct numbers below `base^len` have distinct numerals.
pub proof fn lemma_digits_injective(base: nat, len: nat, j: nat, k: nat)
    requires
        0 < base <= usize::MAX,
        j < count(base, len),
        k < count(base, len),
        j != k,
    ensures
        digits(base, len, j) != digits(base, len, k),
{
    lemma_value_of_digits(base, len, j);
    lemma_value_of_digits(base, len, k);
    lemma_small_mod(j, count(base, len));
    lemma_small_mod(k, count(base, len));
}

/// `s` comes strictly before `t` in lexicographic order.
pub open spec fn lex_less(s: Seq<usize>, t: Seq<usize>) -> bool {
    exists|i: int| 0 <= i < s.len() && s.take(i) == t.take(i) && s[i] < t[i]
}

/// Smaller numbers have lexicographically smaller numerals.
pub proof fn lemma_digits_ordered(base: nat, len: nat, j: nat, k: nat)
    requires
        0 < base <= usize::MAX,
        j < k < count(base, len),
    ensures
        lex_less(digits(base, len, j), digits(base, len, k)),
    decreases len,
{
    let l1 = (len - 1) as nat;
    if len == 0 {
        lemma_pow_step(base, 0);
    } else {
        let p = pow(base as int, l1);
        lemma_pow_step(base, l1);
        lemma_pow_positive(base as int, l1);
        let qj = j / base;
        let qk = k / base;
        lemma_fundamental_div_mod(j as int, base as int);
        lemma_fundamental_div_mod(k as int, base as int);
        assert(qk < p && qj <= qk && (qj == qk ==> j % base < k % base)) by (nonlinear_arith)
            requires
                j == base * qj + j % base,
                k == base * qk + k % base,
                0 <= j % base < base,
                0 <= k % base < base,
                j < k,
                k < base * p,
                qj >= 0,
        ;
        let sj = digits(base, len, j);
        let sk = digits(base, len, k);
        lemma_digits_shape(base, l1, qj);
        lemma_digits_shape(base, l1, qk);
        if qj < qk {
            lemma_digits_ordered(base, l1, qj, qk);
            let pj = digits(base, l1, qj);
            let pk = digits(base, l1, qk);
            let i = choose|i: int| 0 <= i < pj.len() && pj.take(i) == pk.take(i) && pj[i] < pk[i];
            assert(sj.take(i) =~= pj.take(i));
            assert(sk.take(i) =~= pk.take(i));
            assert(sj[i] == pj[i] && sk[i] == pk[i]);
        } else {
            let i = l1 as int;
            assert(sj.take(i) =~= digits(base, l1, qj));
            assert(sk.take(i) =~= digits(base, l1, qk));
        }
    }
}

/// The numeral of `k + 1` from the numeral of `k`: the low run of digits
/// equal to `base - 1` turns to zeros and the digit above it goes up by one.
/// Stated one digit at a time, as the carry walks from right to left.
pub proof fn lemma_carry_step(base: nat, i: nat, j: nat, k: nat)
    requires
        0 < base <= usize::MAX,
        0 < i,
        k % count(base, j) == count(base, j) - 1,
    ensures
        ({
            let q = k / count(base, j);
            let hi = digits(base, (i - 1) as nat, q / base);
            &&& digits(base, i, q) == hi.push((q % base) as usize)
            &&& (q % base) + 1 < base ==> digits(base, i + j, k + 1) =~= hi.push(
                ((q % base) + 1) as usize,
            ) + zeros(j)
            &&& (q % base) + 1 == base ==> {
                &&& k % count(base, j + 1) == count(base, j + 1) - 1
                &&& q / base == k / count(base, j + 1)
            }
        }),
{
    let p = pow(base as int, j);
    lemma_pow_positive(base as int, j);
    lemma_pow_step(base, j);
    let q = k / count(base, j);
    let c = q % base;
    // k = q * p + (p - 1), so k + 1 = (q + 1) * p
    lemma_fundamental_div_mod(k as int, p);
    assert(k + 1 == (q + 1) * p) by (nonlinear_arith)
        requires
            k == p * q + (p - 1),
    ;
    lemma_fundamental_div_mod_converse((k + 1) as int, p, (q + 1) as int, 0);
    if c + 1 < base {
        lemma_fundamental_div_mod(q as int, base as int);
        assert(q + 1 == (q / base) * base + (c + 1)) by (nonlinear_arith)
            requires
                q == base * (q / base) + c,
        ;
        lemma_fundamental_div_mod_converse(
            (q + 1) as int,
            base as int,
            (q / base) as int,
            (c + 1) as int,
        );
        lemma_digits_split(base, i, j, k + 1);
        lemma_digits_of_multiple(base, j, k + 1);
    }
    if c + 1 == base {
        lemma_mod_breakdown(k as int, p, base as int);
        assert(p * c + (p - 1) == p * base - 1) by (nonlinear_arith)
            requires
                c + 1 == base,
        ;
        assert(p * base == base * p) by (nonlinear_arith);
        lemma_div_denominator(k as int, p, base as int);
    }
}

} // verus!
