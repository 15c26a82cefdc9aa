//! Divisibility and greatest common divisors over the natural numbers.
//!
//! Everything the rational arithmetic knows about lowest terms comes from
//! here: the definition of [`gcd`], the proof that it is the greatest common
//! divisor, and the fact that a fraction has exactly one reduced form.

use vstd::prelude::*;
use vstd::arithmetic::div_mod::{
    lemma_fundamental_div_mod, lemma_fundamental_div_mod_converse, lemma_small_mod,
    lemma_truncate_middle,
};
use vstd::arithmetic::mul::lemma_mul_is_commutative;

verus! {

/// `d` divides `n`: some multiple of `d` is `n`. Zero divides only zero.
pub open spec fn divides(d: nat, n: nat) -> bool {
    if d == 0 {
        n == 0
    } else {
        n % d == 0
    }
}

/// The greatest common divisor of `a` and `b`, with `gcd(0, 0) == 0`.
pub open spec fn gcd(a: nat, b: nat) -> nat
    decreases b,
{
    if b == 0 {
        a
    } else {
        gcd(b, a % b)
    }
}

/// `g` is a common divisor of `a` and `b` that every common divisor divides.
pub open spec fn is_greatest_common_divisor(a: nat, b: nat, g: nat) -> bool {
    &&& divides(g, a)
    &&& divides(g, b)
    &&& forall|d: nat| divides(d, a) && divides(d, b) ==> #[trigger] divides(d, g)
}

/// A divisor times the quotient gives the number back.
pub proof fn lemma_divides_exact(d: nat, n: nat)
    requires
        d > 0,
        divides(d, n),
    ensures
        n == d * (n / d),
        n == (n / d) * d,
{
    lemma_fundamental_div_mod(n as int, d as int);
    lemma_mul_is_commutative(d as int, (n / d) as int);
}

/// Every multiple of `d` is divisible by `d`.
pub proof fn lemma_divides_multiple(d: nat, k: nat)
    ensures
        divides(d, d * k),
        divides(d, k * d),
        d > 0 ==> (d * k) / d == k,
        d > 0 ==> (k * d) / d == k,
{
    lemma_mul_is_commutative(d as int, k as int);
    if d == 0 {
        assert(d * k == 0) by (nonlinear_arith)
            requires
                d == 0,
        ;
    } else {
        lemma_fundamental_div_mod_converse((d * k) as int, d as int, k as int, 0);
    }
}

/// A common divisor of `a` and `b` divides the remainder of `a` by `b`.
proof fn lemma_divides_remainder(d: nat, a: nat, b: nat)
    requires
        b > 0,
        divides(d, a),
        divides(d, b),
    ensures
        divides(d, a % b),
{
    let q = a / b;
    let r = a % b;
    lemma_fundamental_div_mod(a as int, b as int);
    lemma_divides_exact(d, a);
    lemma_divides_exact(d, b);
    let ka = a / d;
    let kb = b / d;
    assert(r == d * (ka - kb * q)) by (nonlinear_arith)
        requires
            a == b * q + r,
            a == d * ka,
            b == d * kb,
    ;
    assert(ka - kb * q >= 0) by (nonlinear_arith)
        requires
            r == d * (ka - kb * q),
            d > 0,
            r >= 0,
    ;
    lemma_divides_multiple(d, (ka - kb * q) as nat);
}

/// A common divisor of `b` and of the remainder of `a` by `b` divides `a`.
proof fn lemma_divides_dividend(d: nat, a: nat, b: nat)
    requires
        b > 0,
        divides(d, b),
        divides(d, a % b),
    ensures
        divides(d, a),
{
    let q = a / b;
    let r = a % b;
    lemma_fundamental_div_mod(a as int, b as int);
    lemma_divides_exact(d, b);
    lemma_divides_exact(d, r);
    let kb = b / d;
    let kr = r / d;
    assert(a == d * (kb * q + kr)) by (nonlinear_arith)
        requires
            a == b * q + r,
            b == d * kb,
            r == d * kr,
    ;
    lemma_divides_multiple(d, kb * q + kr);
}

/// `gcd(a, b)` divides both `a` and `b`.
pub proof fn lemma_gcd_divides(a: nat, b: nat)
    ensures
        divides(gcd(a, b), a),
        divides(gcd(a, b), b),
    decreases b,
{
    if b == 0 {
        if a > 0 {
            lemma_divides_multiple(a, 1);
        }
    } else {
        lemma_gcd_divides(b, a % b);
        lemma_gcd_positive(a, b);
        lemma_divides_dividend(gcd(a, b), a, b);
    }
}

/// Every common divisor of `a` and `b` divides `gcd(a, b)`.
pub proof fn lemma_gcd_greatest(a: nat, b: nat, d: nat)
    requires
        divides(d, a),
        divides(d, b),
    ensures
        divides(d, gcd(a, b)),
    decreases b,
{
    if b != 0 {
        lemma_divides_remainder(d, a, b);
        lemma_gcd_greatest(b, a % b, d);
    }
}

/// `gcd(a, b)` is the greatest common divisor of `a` and `b`.
pub proof fn lemma_gcd_is_greatest_common_divisor(a: nat, b: nat)
    ensures
        is_greatest_common_divisor(a, b, gcd(a, b)),
{
    lemma_gcd_divides(a, b);
    assert forall|d: nat| divides(d, a) && divides(d, b) implies #[trigger] divides(
        d,
        gcd(a, b),
    ) by {
        lemma_gcd_greatest(a, b, d);
    }
}

/// The gcd is zero only for `gcd(0, 0)`.
pub proof fn lemma_gcd_positive(a: nat, b: nat)
    ensures
        (a > 0 || b > 0) ==> gcd(a, b) > 0,
        gcd(a, b) == 0 ==> a == 0 && b == 0,
    decreases b,
{
    if b != 0 {
        lemma_gcd_positive(b, a % b);
    }
}

/// Every number is coprime to one.
pub proof fn lemma_gcd_with_one(a: nat)
    ensures
        gcd(a, 1) == 1,
{
    assert(a % 1 == 0);
    assert(gcd(1, 0) == 1);
    assert(gcd(a, 1) == gcd(1, a % 1));
}

/// The gcd is no larger than either argument that is positive.
pub proof fn lemma_gcd_bounded(a: nat, b: nat)
    ensures
        a > 0 ==> gcd(a, b) <= a,
        b > 0 ==> gcd(a, b) <= b,
{
    lemma_gcd_divides(a, b);
    lemma_gcd_positive(a, b);
    let g = gcd(a, b);
    if a > 0 {
        lemma_divides_exact(g, a);
        assert(g <= a) by (nonlinear_arith)
            requires
                a == g * (a / g),
                a > 0,
                g > 0,
                a / g >= 0,
        ;
    }
    if b > 0 {
        lemma_divides_exact(g, b);
        assert(g <= b) by (nonlinear_arith)
            requires
                b == g * (b / g),
                b > 0,
                g > 0,
                b / g >= 0,
        ;
    }
}

/// A common factor can be pulled out of a gcd.
pub proof fn lemma_gcd_scale(a: nat, b: nat, k: nat)
    ensures
        gcd(k * a, k * b) == k * gcd(a, b),
    decreases b,
{
    if b == 0 {
        assert(k * b == 0) by (nonlinear_arith)
            requires
                b == 0,
        ;
    } else if k == 0 {
        assert(k * a == 0 && k * b == 0 && k * gcd(a, b) == 0) by (nonlinear_arith)
            requires
                k == 0,
        ;
    } else {
        assert(k * b > 0) by (nonlinear_arith)
            requires
                k > 0,
                b > 0,
        ;
        lemma_truncate_middle(a as int, k as int, b as int);
        assert((k * a) % (k * b) == k * (a % b));
        lemma_gcd_scale(b, a % b, k);
    }
}

/// Dividing two numbers by their gcd leaves them coprime.
pub proof fn lemma_gcd_of_quotients(a: nat, b: nat)
    requires
        a > 0 || b > 0,
    ensures
        gcd(a / gcd(a, b), b / gcd(a, b)) == 1,
{
    let g = gcd(a, b);
    lemma_gcd_positive(a, b);
    lemma_gcd_divides(a, b);
    lemma_divides_exact(g, a);
    lemma_divides_exact(g, b);
    lemma_gcd_scale(a / g, b / g, g);
    let h = gcd(a / g, b / g);
    assert(h == 1) by (nonlinear_arith)
        requires
            g == g * h,
            g > 0,
    ;
}

/// Divisibility is transitive.
pub proof fn lemma_divides_transitive(a: nat, b: nat, c: nat)
    requires
        divides(a, b),
        divides(b, c),
    ensures
        divides(a, c),
{
    if a != 0 && b != 0 {
        lemma_divides_exact(a, b);
        lemma_divides_exact(b, c);
        let k = b / a;
        let j = c / b;
        assert(c == a * (k * j)) by (nonlinear_arith)
            requires
                c == b * j,
                b == a * k,
        ;
        lemma_divides_multiple(a, k * j);
    }
}

/// A divisor of a positive number is positive and no larger than it.
pub proof fn lemma_divides_bounded(d: nat, n: nat)
    requires
        divides(d, n),
        n > 0,
    ensures
        0 < d <= n,
{
    lemma_divides_exact(d, n);
    let k = n / d;
    assert(d <= n) by (nonlinear_arith)
        requires
            n == d * k,
            n > 0,
            d > 0,
            k >= 0,
    ;
}

/// The gcd does not depend on the order of its arguments.
pub proof fn lemma_gcd_symmetric(a: nat, b: nat)
    ensures
        gcd(a, b) == gcd(b, a),
{
    lemma_gcd_divides(a, b);
    lemma_gcd_divides(b, a);
    lemma_gcd_greatest(a, b, gcd(b, a));
    lemma_gcd_greatest(b, a, gcd(a, b));
    lemma_gcd_positive(a, b);
    lemma_gcd_positive(b, a);
    if gcd(a, b) > 0 {
        lemma_divides_bounded(gcd(b, a), gcd(a, b));
        lemma_divides_bounded(gcd(a, b), gcd(b, a));
    }
}

/// Euclid's lemma: a number coprime to one factor of a product that it
/// divides must divide the other factor.
pub proof fn lemma_coprime_divides_product(x: nat, y: nat, z: nat)
    requires
        gcd(x, y) == 1,
        divides(x, y * z),
    ensures
        divides(x, z),
{
    lemma_gcd_scale(x, y, z);
    lemma_divides_multiple(x, z);
    lemma_mul_is_commutative(y as int, z as int);
    lemma_gcd_greatest(z * x, z * y, x);
}

/// A divisor of `q` is coprime to everything that `q` is coprime to.
pub proof fn lemma_coprime_to_divisor(p: nat, q: nat, a: nat)
    requires
        gcd(p, q) == 1,
        divides(a, q),
    ensures
        gcd(a, p) == 1,
        gcd(p, a) == 1,
{
    let h = gcd(p, a);
    lemma_gcd_divides(p, a);
    lemma_divides_transitive(h, a, q);
    lemma_gcd_greatest(p, q, h);
    if h > 1 {
        lemma_small_mod(1, h);
    }
    lemma_gcd_symmetric(p, a);
}

/// Two coprime divisors of a number divide it together.
pub proof fn lemma_coprime_product_divides(a: nat, b: nat, n: nat)
    requires
        gcd(a, b) == 1,
        divides(a, n),
        divides(b, n),
    ensures
        divides(a * b, n),
{
    if a == 0 || b == 0 {
        assert(a * b == 0) by (nonlinear_arith)
            requires
                a == 0 || b == 0,
        ;
    } else {
        lemma_divides_exact(a, n);
        let k = n / a;
        lemma_gcd_symmetric(a, b);
        lemma_coprime_divides_product(b, a, k);
        lemma_divides_exact(b, k);
        let j = k / b;
        assert(n == (a * b) * j) by (nonlinear_arith)
            requires
                n == a * k,
                k == b * j,
        ;
        lemma_divides_multiple(a * b, j);
    }
}

/// A fraction has only one form in lowest terms: two reduced fractions that
/// agree by cross-multiplication agree in numerator and denominator.
pub proof fn lemma_lowest_terms_unique(n1: nat, d1: nat, n2: nat, d2: nat)
    requires
        d1 > 0,
        d2 > 0,
        gcd(n1, d1) == 1,
        gcd(n2, d2) == 1,
        n1 * d2 == n2 * d1,
    ensures
        n1 == n2,
        d1 == d2,
{
    lemma_gcd_scale(n1, d1, d2);
    lemma_gcd_scale(n2, d2, d1);
    lemma_mul_is_commutative(d1 as int, n2 as int);
    lemma_mul_is_commutative(d2 as int, n1 as int);
    lemma_mul_is_commutative(d1 as int, d2 as int);
    assert(d2 * n1 == d1 * n2);
    assert(gcd(d2 * n1, d2 * d1) == d2 * 1);
    assert(gcd(d1 * n2, d1 * d2) == d1 * 1);
    assert(d1 == d2);
    assert(n1 == n2) by (nonlinear_arith)
        requires
            n1 * d2 == n2 * d1,
            d1 == d2,
            d1 > 0,
    ;
}

/// Computes the greatest common divisor by Euclid's algorithm.
pub fn gcd_u128(a: u128, b: u128) -> (g: u128)
    ensures
        g == gcd(a as nat, b as nat),
        is_greatest_common_divisor(a as nat, b as nat, g as nat),
{
    let mut x: u128 = a;
    let mut y: u128 = b;
    while y != 0
        invariant
            gcd(x as nat, y as nat) == gcd(a as nat, b as nat),
        decreases y,
    {
        let r: u128 = x % y;
        x = y;
        y = r;
    }
    proof {
        lemma_gcd_is_greatest_common_divisor(a as nat, b as nat);
    }
    x
}

} // verus!
