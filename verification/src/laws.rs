//! Algebraic laws of rational arithmetic, proved once for all values.
//!
//! Each law is stated over the views of its arguments, with the same
//! functions that the contracts of the operations use.

use vstd::prelude::*;
use vstd::arithmetic::mul::lemma_mul_is_commutative;
use crate::divisibility::lemma_gcd_with_one;
use crate::ratio::{
    lemma_of_in_lowest_terms, lemma_of_lowest_terms, lemma_of_same_value, lemma_of_scale,
    lemma_of_unique, lemma_same_value_equal, Ratio,
};
use crate::rational::Rational;

verus! {

/// Construction always yields a fraction in lowest terms with a positive
/// denominator.
pub proof fn law_construction_is_canonical(n: i64, d: i64)
    requires
        d != 0,
    ensures
        Ratio::of(n as int, d as int).in_lowest_terms(),
        Ratio::of(n as int, d as int).den >= 1,
{
    lemma_of_in_lowest_terms(n as int, d as int);
}

/// Scaling numerator and denominator by the same non-zero factor constructs
/// the same value.
pub proof fn law_construction_ignores_common_factor(n: int, d: int, k: int)
    requires
        d != 0,
        k != 0,
    ensures
        Ratio::of(k * n, k * d) == Ratio::of(n, d),
{
    lemma_of_scale(n, d, k);
}

/// Addition is commutative.
pub proof fn law_add_commutative(a: Rational, b: Rational)
    ensures
        a@.plus(b@) == b@.plus(a@),
{
    lemma_mul_is_commutative(a@.den, b@.den);
}

/// Multiplication is commutative.
pub proof fn law_mul_commutative(a: Rational, b: Rational)
    ensures
        a@.times(b@) == b@.times(a@),
{
    lemma_mul_is_commutative(a@.den, b@.den);
    lemma_mul_is_commutative(a@.num, b@.num);
}

/// A value plus its negation is zero.
pub proof fn law_add_inverse(a: Rational)
    requires
        a@.in_lowest_terms(),
    ensures
        a@.plus(a@.negation()) == Ratio::zero(),
{
    let n = a@.num * a@.den + (-a@.num) * a@.den;
    let d = a@.den * a@.den;
    assert(n == 0 && d != 0) by (nonlinear_arith)
        requires
            n == a@.num * a@.den + (-a@.num) * a@.den,
            d == a@.den * a@.den,
            a@.den > 0,
    ;
    lemma_gcd_with_one(0);
    lemma_of_unique(Ratio::zero(), n, d);
}

/// A non-zero value times its reciprocal is one.
pub proof fn law_mul_inverse(a: Rational)
    requires
        a@.in_lowest_terms(),
        !a@.is_zero(),
    ensures
        a@.times(Ratio::one().over(a@)) == Ratio::one(),
{
    let r = Ratio::one().over(a@);
    assert(1 * a@.den == a@.den && 1 * a@.num == a@.num);
    lemma_of_same_value(a@.den, a@.num);
    lemma_of_in_lowest_terms(a@.den, a@.num);
    let n = a@.num * r.num;
    let d = a@.den * r.den;
    assert(d != 0 && 1 * d == n * 1) by (nonlinear_arith)
        requires
            r.num * a@.num == a@.den * r.den,
            n == a@.num * r.num,
            d == a@.den * r.den,
            a@.den > 0,
            r.den > 0,
    ;
    lemma_gcd_with_one(1);
    lemma_of_unique(Ratio::one(), n, d);
}

/// Zero is the identity of addition.
pub proof fn law_zero_is_additive_identity(x: Rational)
    requires
        x@.in_lowest_terms(),
    ensures
        Ratio::zero().plus(x@) == x@,
        x@.plus(Ratio::zero()) == x@,
{
    assert(0 * x@.den + x@.num * 1 == x@.num && 1 * x@.den == x@.den);
    assert(x@.num * 1 + 0 * x@.den == x@.num && x@.den * 1 == x@.den);
    lemma_of_lowest_terms(x@);
}

/// One is the identity of multiplication.
pub proof fn law_one_is_multiplicative_identity(x: Rational)
    requires
        x@.in_lowest_terms(),
    ensures
        Ratio::one().times(x@) == x@,
        x@.times(Ratio::one()) == x@,
{
    assert(1 * x@.num == x@.num && 1 * x@.den == x@.den);
    assert(x@.num * 1 == x@.num && x@.den * 1 == x@.den);
    lemma_of_lowest_terms(x@);
}

/// Of any two values exactly one of less, equal and greater holds.
pub proof fn law_order_trichotomy(a: Rational, b: Rational)
    requires
        a@.in_lowest_terms(),
        b@.in_lowest_terms(),
    ensures
        a@.less_than(b@) || a@ == b@ || b@.less_than(a@),
        !(a@.less_than(b@) && a@ == b@),
        !(a@.less_than(b@) && b@.less_than(a@)),
        !(a@ == b@ && b@.less_than(a@)),
{
    if a@.same_value(b@) {
        lemma_same_value_equal(a@, b@);
    }
}

/// The order is transitive.
pub proof fn law_order_transitive(a: Rational, b: Rational, c: Rational)
    requires
        a@.in_lowest_terms(),
        b@.in_lowest_terms(),
        c@.in_lowest_terms(),
        a@.less_than(b@),
        b@.less_than(c@),
    ensures
        a@.less_than(c@),
{
    let (an, ad) = (a@.num, a@.den);
    let (bn, bd) = (b@.num, b@.den);
    let (cn, cd) = (c@.num, c@.den);
    assert((an * bd) * cd < (bn * ad) * cd) by (nonlinear_arith)
        requires
            an * bd < bn * ad,
            cd > 0,
    ;
    assert((bn * cd) * ad < (cn * bd) * ad) by (nonlinear_arith)
        requires
            bn * cd < cn * bd,
            ad > 0,
    ;
    assert((bn * ad) * cd == (bn * cd) * ad) by (nonlinear_arith);
    assert((an * bd) * cd == (an * cd) * bd) by (nonlinear_arith);
    assert((cn * bd) * ad == (cn * ad) * bd) by (nonlinear_arith);
    assert(an * cd < cn * ad) by (nonlinear_arith)
        requires
            (an * cd) * bd < (cn * ad) * bd,
            bd > 0,
    ;
}

} // verus!
