//! The mathematical model of a rational number.
//!
//! A [`Ratio`] is a pair of unbounded integers. The arithmetic of the crate is
//! specified on ratios: each operation names the unreduced fraction that the
//! school-book rule gives and hands it to [`Ratio::of`], which reduces it.

use vstd::prelude::*;
use vstd::math::abs;
use crate::divisibility::{
    divides, gcd, lemma_coprime_divides_product, lemma_coprime_product_divides,
    lemma_coprime_to_divisor, lemma_divides_bounded, lemma_divides_exact, lemma_divides_multiple,
    lemma_gcd_divides, lemma_gcd_of_quotients, lemma_gcd_positive, lemma_gcd_symmetric,
    lemma_lowest_terms_unique,
};

verus! {

/// The mathematical value of a fraction: `num / den`.
pub struct Ratio {
    pub num: int,
    pub den: int,
}

impl Ratio {
    /// The denominator is positive and shares no factor with the numerator.
    pub open spec fn in_lowest_terms(self) -> bool {
        self.den > 0 && gcd(abs(self.num), self.den as nat) == 1
    }

    /// Numerator magnitude and denominator both fit in 64 bits.
    pub open spec fn representable(self) -> bool {
        -(u64::MAX as int) <= self.num <= u64::MAX as int && 0 < self.den <= u64::MAX as int
    }

    /// The fraction `n / d` in lowest terms, for `d != 0`: magnitudes divided
    /// by their gcd, negative exactly when `n` and `d` differ in sign and `n`
    /// is not zero.
    pub open spec fn of(n: int, d: int) -> Ratio {
        let g = gcd(abs(n), abs(d));
        let m = abs(n) / g;
        Ratio {
            num: if (n >= 0) == (d > 0) {
                m as int
            } else {
                -(m as int)
            },
            den: (abs(d) / g) as int,
        }
    }

    /// The ratio `0/1`.
    pub open spec fn zero() -> Ratio {
        Ratio { num: 0, den: 1 }
    }

    /// The ratio `1/1`.
    pub open spec fn one() -> Ratio {
        Ratio { num: 1, den: 1 }
    }

    /// The numerator is zero.
    pub open spec fn is_zero(self) -> bool {
        self.num == 0
    }

    /// The sum, over the product of the denominators and reduced.
    pub open spec fn plus(self, rhs: Ratio) -> Ratio {
        Ratio::of(self.num * rhs.den + rhs.num * self.den, self.den * rhs.den)
    }

    /// The additive inverse.
    pub open spec fn negation(self) -> Ratio {
        Ratio { num: -self.num, den: self.den }
    }

    /// The difference: the sum with the negation of `rhs`.
    pub open spec fn minus(self, rhs: Ratio) -> Ratio {
        self.plus(rhs.negation())
    }

    /// The product, numerator by numerator and denominator by denominator,
    /// reduced.
    pub open spec fn times(self, rhs: Ratio) -> Ratio {
        Ratio::of(self.num * rhs.num, self.den * rhs.den)
    }

    /// The quotient `self / rhs`, for `rhs` other than zero.
    pub open spec fn over(self, rhs: Ratio) -> Ratio {
        Ratio::of(self.num * rhs.den, self.den * rhs.num)
    }

    /// The absolute value.
    pub open spec fn magnitude(self) -> Ratio {
        Ratio { num: abs(self.num) as int, den: self.den }
    }

    /// Strictly less, by cross-multiplication over positive denominators.
    pub open spec fn less_than(self, rhs: Ratio) -> bool {
        self.num * rhs.den < rhs.num * self.den
    }

    /// Same value, by cross-multiplication.
    pub open spec fn same_value(self, rhs: Ratio) -> bool {
        self.num * rhs.den == rhs.num * self.den
    }
}

/// `Ratio::of(n, d)` is in lowest terms.
pub proof fn lemma_of_in_lowest_terms(n: int, d: int)
    requires
        d != 0,
    ensures
        Ratio::of(n, d).in_lowest_terms(),
{
    let g = gcd(abs(n), abs(d));
    lemma_gcd_positive(abs(n), abs(d));
    lemma_gcd_of_quotients(abs(n), abs(d));
    lemma_gcd_divides(abs(n), abs(d));
    lemma_divides_exact(g, abs(d));
    let e = abs(d) / g;
    assert(e > 0) by (nonlinear_arith)
        requires
            abs(d) == g * e,
            abs(d) > 0,
            g > 0,
    ;
}

/// `Ratio::of(n, d)` has the value `n / d`.
pub proof fn lemma_of_same_value(n: int, d: int)
    requires
        d != 0,
    ensures
        Ratio::of(n, d).num * d == n * Ratio::of(n, d).den,
{
    let g = gcd(abs(n), abs(d));
    lemma_gcd_positive(abs(n), abs(d));
    lemma_gcd_divides(abs(n), abs(d));
    lemma_divides_exact(g, abs(n));
    lemma_divides_exact(g, abs(d));
    let m = (abs(n) / g) as int;
    let e = (abs(d) / g) as int;
    let gi = g as int;
    if n >= 0 && d > 0 {
        assert(m * d == n * e) by (nonlinear_arith)
            requires
                n == gi * m,
                d == gi * e,
        ;
    } else if n >= 0 && d < 0 {
        assert((-m) * d == n * e) by (nonlinear_arith)
            requires
                n == gi * m,
                -d == gi * e,
        ;
    } else if n < 0 && d > 0 {
        assert((-m) * d == n * e) by (nonlinear_arith)
            requires
                -n == gi * m,
                d == gi * e,
        ;
    } else {
        assert(m * d == n * e) by (nonlinear_arith)
            requires
                -n == gi * m,
                -d == gi * e,
        ;
    }
}

/// Two ratios in lowest terms with the same value are the same ratio.
pub proof fn lemma_same_value_equal(a: Ratio, b: Ratio)
    requires
        a.in_lowest_terms(),
        b.in_lowest_terms(),
        a.same_value(b),
    ensures
        a == b,
{
    let an = abs(a.num) as int;
    let bn = abs(b.num) as int;
    assert((a.num >= 0 <==> b.num >= 0) || (a.num == 0 && b.num == 0)) by (nonlinear_arith)
        requires
            a.num * b.den == b.num * a.den,
            a.den > 0,
            b.den > 0,
    ;
    assert(an * b.den == bn * a.den) by (nonlinear_arith)
        requires
            a.num * b.den == b.num * a.den,
            (a.num >= 0 <==> b.num >= 0) || (a.num == 0 && b.num == 0),
            an == if a.num >= 0 { a.num } else { -a.num },
            bn == if b.num >= 0 { b.num } else { -b.num },
    ;
    lemma_lowest_terms_unique(abs(a.num), a.den as nat, abs(b.num), b.den as nat);
}

/// The only ratio in lowest terms with the value `n / d` is `Ratio::of(n, d)`.
pub proof fn lemma_of_unique(r: Ratio, n: int, d: int)
    requires
        d != 0,
        r.in_lowest_terms(),
        r.num * d == n * r.den,
    ensures
        r == Ratio::of(n, d),
{
    let q = Ratio::of(n, d);
    lemma_of_in_lowest_terms(n, d);
    lemma_of_same_value(n, d);
    assert(r.num * q.den == q.num * r.den) by (nonlinear_arith)
        requires
            d != 0,
            r.num * d == n * r.den,
            q.num * d == n * q.den,
    ;
    lemma_same_value_equal(r, q);
}

/// Multiplying numerator and denominator by the same non-zero integer does
/// not change the fraction.
pub proof fn lemma_of_scale(n: int, d: int, k: int)
    requires
        d != 0,
        k != 0,
    ensures
        Ratio::of(k * n, k * d) == Ratio::of(n, d),
{
    let r = Ratio::of(n, d);
    lemma_of_in_lowest_terms(n, d);
    lemma_of_same_value(n, d);
    assert(k * d != 0 && r.num * (k * d) == (k * n) * r.den) by (nonlinear_arith)
        requires
            r.num * d == n * r.den,
            k != 0,
            d != 0,
    ;
    lemma_of_unique(r, k * n, k * d);
}

/// Reducing a ratio that is already in lowest terms changes nothing.
pub proof fn lemma_of_lowest_terms(r: Ratio)
    requires
        r.in_lowest_terms(),
    ensures
        Ratio::of(r.num, r.den) == r,
{
    lemma_of_unique(r, r.num, r.den);
}

/// The reduced denominator of `p/q + r/s`, for two fractions in lowest
/// terms, is at least the product of `q` and `s` each divided by their gcd:
/// reduction can only cancel what the two denominators share.
pub proof fn lemma_sum_denominator(p: nat, q: nat, r: nat, s: nat)
    requires
        q > 0,
        s > 0,
        gcd(p, q) == 1,
        gcd(r, s) == 1,
    ensures
        ({
            let g = gcd(q, s);
            let a = q / g;
            let b = s / g;
            a > 0 && b > 0 && a * b <= Ratio::of((p * b + r * a) as int, (q * b) as int).den
        }),
{
    let g = gcd(q, s);
    let a = q / g;
    let b = s / g;
    lemma_gcd_positive(q, s);
    lemma_gcd_divides(q, s);
    lemma_divides_exact(g, q);
    lemma_divides_exact(g, s);
    lemma_gcd_of_quotients(q, s);
    lemma_gcd_symmetric(a, b);
    assert(a > 0 && b > 0) by (nonlinear_arith)
        requires
            q == g * a,
            s == g * b,
            q > 0,
            s > 0,
            g > 0,
    ;
    let n = (p * b + r * a) as int;
    let d = (q * b) as int;
    assert(d > 0) by (nonlinear_arith)
        requires
            d == q * b,
            q > 0,
            b > 0,
    ;
    let sum = Ratio::of(n, d);
    lemma_of_same_value(n, d);
    lemma_of_in_lowest_terms(n, d);
    let n1 = sum.num;
    let d1 = sum.den as nat;
    assert(n >= 0) by (nonlinear_arith)
        requires
            n == p * b + r * a,
    ;
    lemma_divides_multiple(a, g);
    lemma_divides_multiple(b, g);
    lemma_coprime_to_divisor(p, q, a);
    lemma_coprime_to_divisor(r, s, b);
    // a divides d1
    let ma = n1 * g * b - r * d1;
    assert(n1 * d == a * (n1 * g * b) && n1 * d == b * (n1 * g * a)) by (nonlinear_arith)
        requires
            d == q * b,
            q == g * a,
    ;
    assert(n * d1 == p * (b * d1) + a * (r * d1) && n * d1 == b * (p * d1) + r * (a * d1))
        by (nonlinear_arith)
        requires
            n == p * b + r * a,
    ;
    assert(a * ma == a * (n1 * g * b) - a * (r * d1)) by (nonlinear_arith)
        requires
            ma == n1 * g * b - r * d1,
    ;
    assert(p * (b * d1) == a * ma);
    assert(ma >= 0) by (nonlinear_arith)
        requires
            p * (b * d1) == a * ma,
            a > 0,
            p * (b * d1) >= 0,
    ;
    lemma_divides_multiple(a, ma as nat);
    lemma_coprime_divides_product(a, p, b * d1);
    lemma_coprime_divides_product(a, b, d1);
    // b divides d1
    let mb = n1 * g * a - p * d1;
    assert(b * mb == b * (n1 * g * a) - b * (p * d1)) by (nonlinear_arith)
        requires
            mb == n1 * g * a - p * d1,
    ;
    assert(r * (a * d1) == b * mb);
    assert(mb >= 0) by (nonlinear_arith)
        requires
            r * (a * d1) == b * mb,
            b > 0,
            r * (a * d1) >= 0,
    ;
    lemma_divides_multiple(b, mb as nat);
    lemma_coprime_divides_product(b, r, a * d1);
    lemma_coprime_divides_product(b, a, d1);
    lemma_coprime_product_divides(a, b, d1);
    lemma_divides_bounded(a * b, d1);
}

} // verus!
