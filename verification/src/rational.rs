//! Exact rational numbers in canonical form.
//!
//! A [`Rational`] stores a magnitude numerator, a positive denominator and a
//! sign flag, always reduced to lowest terms. Its mathematical value is the
//! [`Ratio`] returned by its view; every operation is specified as the
//! corresponding operation on ratios.

use core::cmp::Ordering;
use core::ops::{Add, Div, Mul, Neg, Sub};
use vstd::prelude::*;
use vstd::math::abs;
use vstd::pervasive::unreached;
use vstd::std_specs::cmp::PartialOrdSpecImpl;
use vstd::std_specs::ops::{AddSpecImpl, DivSpecImpl, MulSpecImpl, NegSpecImpl, SubSpecImpl};
use crate::text::{push_decimal, push_minus, push_slash, rendering};
use crate::ratio::{lemma_of_scale, lemma_same_value_equal, lemma_sum_denominator, Ratio};
use crate::divisibility::{
    gcd, gcd_u128, lemma_divides_exact, lemma_gcd_bounded, lemma_gcd_divides,
    lemma_gcd_of_quotients, lemma_gcd_positive, lemma_gcd_with_one,
};

verus! {

/// The ways an arithmetic operation can fail.
#[derive(Clone, Copy, Debug, PartialEq, Eq, Structural)]
pub enum ArithmeticError {
    /// The divisor was zero.
    DivisionByZero,
    /// The exact result has a numerator or denominator beyond 64 bits.
    Overflow,
}

/// An exact fraction in canonical form: reduced to lowest terms, with a
/// positive denominator, and with zero stored as `0/1` with the sign flag set.
#[derive(Clone, Copy, Debug, PartialEq, Eq, Structural)]
pub struct Rational {
    numerator: u64,
    denumerator: u64,
    sign: bool,
}

impl View for Rational {
    type V = Ratio;

    closed spec fn view(&self) -> Ratio {
        Ratio {
            num: if self.sign {
                self.numerator as int
            } else {
                -(self.numerator as int)
            },
            den: self.denumerator as int,
        }
    }
}

/// The signed integer with magnitude `m`, non-negative when `sign` is set.
pub open spec fn signed(m: nat, sign: bool) -> int {
    if sign {
        m as int
    } else {
        -(m as int)
    }
}

/// The magnitude of a 64-bit signed integer, which always fits in 64 bits.
pub fn magnitude_of(x: i64) -> (m: u64)
    ensures
        m == abs(x as int),
{
    if x >= 0 {
        x as u64
    } else if x == i64::MIN {
        9223372036854775808u64
    } else {
        (-x) as u64
    }
}

/// Divides `n` and `d` by their gcd.
fn lowest_terms(n: u128, d: u128) -> (r: (u128, u128))
    requires
        d > 0,
    ensures
        r.0 == (n as nat) / gcd(n as nat, d as nat),
        r.1 == (d as nat) / gcd(n as nat, d as nat),
        gcd(r.0 as nat, r.1 as nat) == 1,
        r.0 <= n,
        0 < r.1 <= d,
        n == 0 <==> r.0 == 0,
{
    let g = gcd_u128(n, d);
    proof {
        lemma_gcd_positive(n as nat, d as nat);
        lemma_gcd_of_quotients(n as nat, d as nat);
        lemma_gcd_divides(n as nat, d as nat);
        lemma_gcd_bounded(n as nat, d as nat);
        lemma_divides_exact(g as nat, d as nat);
        lemma_divides_exact(g as nat, n as nat);
        let qn = (n as nat) / (g as nat);
        let qd = (d as nat) / (g as nat);
        assert(qd > 0 && qd <= d) by (nonlinear_arith)
            requires
                d == g * qd,
                d > 0,
                g > 0,
        ;
        assert(qn <= n && (n == 0 <==> qn == 0)) by (nonlinear_arith)
            requires
                n == g * qn,
                g > 0,
        ;
    }
    (n / g, d / g)
}

impl Rational {
    #[verifier::type_invariant]
    spec fn canonical(self) -> bool {
        &&& self.denumerator >= 1
        &&& gcd(self.numerator as nat, self.denumerator as nat) == 1
        &&& self.numerator == 0 ==> self.sign
    }

    /// The canonical form of `±n / d`, or `Overflow` when it does not fit.
    fn from_parts(n: u128, d: u128, sign: bool) -> (r: Result<Rational, ArithmeticError>)
        requires
            d > 0,
        ensures
            Ratio::of(signed(n as nat, sign), d as int).representable() ==> r is Ok,
            r matches Ok(v) ==> v@ == Ratio::of(signed(n as nat, sign), d as int),
            r matches Err(e) ==> e == ArithmeticError::Overflow,
    {
        let (m, e) = lowest_terms(n, d);
        if m > u64::MAX as u128 || e > u64::MAX as u128 {
            Err(ArithmeticError::Overflow)
        } else {
            Ok(Rational { numerator: m as u64, denumerator: e as u64, sign: sign || m == 0 })
        }
    }

    /// Builds `n / d` in canonical form. The denominator must not be zero.
    pub fn new(n: i64, d: i64) -> (r: Rational)
        requires
            d != 0,
        ensures
            r@ == Ratio::of(n as int, d as int),
            r@.in_lowest_terms(),
    {
        let (m, e) = lowest_terms(magnitude_of(n) as u128, magnitude_of(d) as u128);
        Rational { numerator: m as u64, denumerator: e as u64, sign: (n >= 0) == (d >= 0) || m == 0 }
    }

    /// The integer `n` as a rational.
    pub fn from(n: i64) -> (r: Rational)
        ensures
            r@ == (Ratio { num: n as int, den: 1 }),
            r@ == Ratio::of(n as int, 1),
    {
        proof {
            lemma_gcd_with_one(abs(n as int));
        }
        Rational { numerator: magnitude_of(n), denumerator: 1, sign: n >= 0 }
    }

    /// The additive identity, `0/1`.
    pub fn zero() -> (r: Rational)
        ensures
            r@ == Ratio::zero(),
    {
        proof {
            lemma_gcd_with_one(0);
        }
        Rational { numerator: 0, denumerator: 1, sign: true }
    }

    /// The multiplicative identity, `1/1`.
    pub fn one() -> (r: Rational)
        ensures
            r@ == Ratio::one(),
    {
        proof {
            lemma_gcd_with_one(1);
        }
        Rational { numerator: 1, denumerator: 1, sign: true }
    }

    /// The absolute value.
    pub fn abs(self) -> (r: Rational)
        ensures
            r@ == self@.magnitude(),
    {
        proof {
            use_type_invariant(&self);
        }
        Rational { numerator: self.numerator, denumerator: self.denumerator, sign: true }
    }

    /// The numerator's magnitude.
    pub fn get_numerator(&self) -> (n: usize)
        ensures
            n == abs(self@.num) as usize,
            abs(self@.num) <= usize::MAX ==> n == abs(self@.num),
            self@.in_lowest_terms(),
            self@.representable(),
    {
        proof {
            use_type_invariant(self);
        }
        #[verifier::truncate]
        (self.numerator as usize)
    }

    /// The denominator.
    pub fn get_denumerator(&self) -> (d: usize)
        ensures
            d == self@.den as usize,
            self@.den <= usize::MAX ==> d == self@.den,
            self@.in_lowest_terms(),
            self@.representable(),
    {
        proof {
            use_type_invariant(self);
        }
        #[verifier::truncate]
        (self.denumerator as usize)
    }

    /// The value as text: `-3/2`, `5`, `0`.
    pub fn to_string(&self) -> (s: String)
        ensures
            s@ == rendering(self@),
    {
        proof {
            use_type_invariant(self);
        }
        let mut out = String::new();
        if !self.sign {
            push_minus(&mut out);
        }
        push_decimal(&mut out, self.numerator);
        if self.denumerator != 1 {
            push_slash(&mut out);
            push_decimal(&mut out, self.denumerator);
        }
        proof {
            assert(out@ =~= rendering(self@));
        }
        out
    }

    /// Whether the value is zero or positive.
    pub fn is_non_negative(&self) -> (b: bool)
        ensures
            b == (self@.num >= 0),
            self@.in_lowest_terms(),
            self@.representable(),
    {
        proof {
            use_type_invariant(self);
        }
        self.sign
    }
}

/// The product of two 64-bit magnitudes fits in 128 bits.
proof fn lemma_product_fits(a: u64, b: u64)
    ensures
        a * b <= u128::MAX,
        a * b <= u64::MAX * u64::MAX,
{
    assert(a * b <= 0xffff_ffff_ffff_ffff * 0xffff_ffff_ffff_ffff) by (nonlinear_arith)
        requires
            0 <= a <= 0xffff_ffff_ffff_ffff,
            0 <= b <= 0xffff_ffff_ffff_ffff,
    ;
}

/// The sign rule for products.
proof fn lemma_signed_product(a: nat, sa: bool, b: nat, sb: bool)
    ensures
        signed(a * b, sa == sb) == signed(a, sa) * signed(b, sb),
        signed(a * b, sa) == signed(a, sa) * b,
{
    let ai = a as int;
    let bi = b as int;
    assert(ai * bi == (-ai) * (-bi) && -(ai * bi) == (-ai) * bi && -(ai * bi) == ai * (-bi))
        by (nonlinear_arith);
}

impl Rational {
    /// The value with this view, for a ratio that is representable.
    pub closed spec fn with_value(q: Ratio) -> Rational {
        Rational { numerator: abs(q.num) as u64, denumerator: q.den as u64, sign: q.num >= 0 }
    }

    /// A canonical value is determined by its view.
    proof fn lemma_with_value(self)
        requires
            self.canonical(),
        ensures
            Rational::with_value(self@) == self,
            self@.in_lowest_terms(),
            self@.representable(),
    {
    }

    /// The exact product, or `Overflow` when it does not fit in 64-bit parts.
    pub fn checked_mul(self, rhs: Rational) -> (r: Result<Rational, ArithmeticError>)
        ensures
            r is Ok <==> self@.times(rhs@).representable(),
            r matches Ok(v) ==> v@ == self@.times(rhs@),
            r matches Err(e) ==> e == ArithmeticError::Overflow,
    {
        proof {
            use_type_invariant(&self);
            use_type_invariant(&rhs);
            lemma_product_fits(self.numerator, rhs.numerator);
            lemma_product_fits(self.denumerator, rhs.denumerator);
            lemma_signed_product(
                self.numerator as nat,
                self.sign,
                rhs.numerator as nat,
                rhs.sign,
            );
            assert(self.denumerator * rhs.denumerator > 0) by (nonlinear_arith)
                requires
                    self.denumerator > 0,
                    rhs.denumerator > 0,
            ;
        }
        let n: u128 = (self.numerator as u128) * (rhs.numerator as u128);
        let d: u128 = (self.denumerator as u128) * (rhs.denumerator as u128);
        let r = Rational::from_parts(n, d, self.sign == rhs.sign);
        proof {
            if let Ok(v) = r {
                use_type_invariant(&v);
                v.lemma_with_value();
            }
        }
        r
    }

    /// The exact quotient; `DivisionByZero` when `rhs` is zero, `Overflow`
    /// when the quotient does not fit in 64-bit parts.
    pub fn checked_div(self, rhs: Rational) -> (r: Result<Rational, ArithmeticError>)
        ensures
            r is Ok <==> !rhs@.is_zero() && self@.over(rhs@).representable(),
            r matches Ok(v) ==> v@ == self@.over(rhs@),
            r matches Err(e) ==> (e == ArithmeticError::DivisionByZero <==> rhs@.is_zero()),
            r matches Err(e) ==> (e == ArithmeticError::Overflow <==> !rhs@.is_zero()),
    {
        proof {
            use_type_invariant(&self);
            use_type_invariant(&rhs);
        }
        if rhs.numerator == 0 {
            return Err(ArithmeticError::DivisionByZero);
        }
        proof {
            lemma_product_fits(self.numerator, rhs.denumerator);
            lemma_product_fits(self.denumerator, rhs.numerator);
            lemma_signed_product(
                self.numerator as nat,
                self.sign,
                rhs.denumerator as nat,
                true,
            );
            lemma_signed_product(
                self.numerator as nat,
                !self.sign,
                rhs.denumerator as nat,
                true,
            );
            assert(self.denumerator * rhs.numerator > 0) by (nonlinear_arith)
                requires
                    self.denumerator > 0,
                    rhs.numerator > 0,
            ;
        }
        let n: u128 = (self.numerator as u128) * (rhs.denumerator as u128);
        let d: u128 = (self.denumerator as u128) * (rhs.numerator as u128);
        let r = Rational::from_parts(n, d, self.sign == rhs.sign);
        proof {
            let x = self@.num * rhs@.den;
            let y = self@.den * rhs@.num;
            if rhs.sign {
                assert(y == d);
                assert(x == signed(n as nat, self.sign == rhs.sign));
            } else {
                assert(y == (-1) * (d as int)) by (nonlinear_arith)
                    requires
                        y == self.denumerator * (-(rhs.numerator as int)),
                        d == self.denumerator * rhs.numerator,
                ;
                assert(x == (-1) * signed(n as nat, self.sign == rhs.sign));
                lemma_of_scale(signed(n as nat, self.sign == rhs.sign), d as int, -1);
            }
            if let Ok(v) = r {
                use_type_invariant(&v);
                v.lemma_with_value();
            }
        }
        r
    }

    /// The exact sum, or `Overflow` when it does not fit in 64-bit parts.
    ///
    /// The two fractions are brought to their least common denominator, so
    /// the intermediate values stay as small as the operands allow.
    pub fn checked_add(self, rhs: Rational) -> (r: Result<Rational, ArithmeticError>)
        ensures
            r is Ok <==> self@.plus(rhs@).representable(),
            r matches Ok(v) ==> v@ == self@.plus(rhs@),
            r matches Err(e) ==> e == ArithmeticError::Overflow,
    {
        proof {
            use_type_invariant(&self);
            use_type_invariant(&rhs);
        }
        let g: u128 = gcd_u128(self.denumerator as u128, rhs.denumerator as u128);
        proof {
            let ad = self.denumerator as nat;
            let bd = rhs.denumerator as nat;
            lemma_gcd_positive(ad, bd);
            lemma_gcd_divides(ad, bd);
            lemma_gcd_bounded(ad, bd);
            lemma_divides_exact(g as nat, ad);
            lemma_divides_exact(g as nat, bd);
            assert(ad / (g as nat) <= ad && bd / (g as nat) <= bd && bd / (g as nat) > 0) by (nonlinear_arith)
                requires
                    ad == (g as nat) * (ad / (g as nat)),
                    bd == (g as nat) * (bd / (g as nat)),
                    g > 0,
                    bd > 0,
            ;
        }
        let aq: u64 = (self.denumerator as u128 / g) as u64;
        let bq: u64 = (rhs.denumerator as u128 / g) as u64;
        proof {
            lemma_product_fits(self.numerator, bq);
            lemma_product_fits(rhs.numerator, aq);
            lemma_product_fits(self.denumerator, bq);
            assert(self.denumerator * bq > 0) by (nonlinear_arith)
                requires
                    self.denumerator > 0,
                    bq > 0,
            ;
        }
        let t1: u128 = (self.numerator as u128) * (bq as u128);
        let t2: u128 = (rhs.numerator as u128) * (aq as u128);
        let d: u128 = (self.denumerator as u128) * (bq as u128);
        let ghost x: int = signed(t1 as nat, self.sign) + signed(t2 as nat, rhs.sign);
        proof {
            let gi = g as int;
            let n_full = self@.num * rhs@.den + rhs@.num * self@.den;
            let d_full = self@.den * rhs@.den;
            assert(n_full == gi * x && d_full == gi * (d as int)) by (nonlinear_arith)
                requires
                    n_full == signed(self.numerator as nat, self.sign) * rhs.denumerator + signed(
                        rhs.numerator as nat,
                        rhs.sign,
                    ) * self.denumerator,
                    d_full == self.denumerator * rhs.denumerator,
                    x == signed(t1 as nat, self.sign) + signed(t2 as nat, rhs.sign),
                    t1 == self.numerator * bq,
                    t2 == rhs.numerator * aq,
                    d == self.denumerator * bq,
                    self.denumerator == gi * aq,
                    rhs.denumerator == gi * bq,
                    signed(self.numerator as nat, self.sign) == self.numerator || signed(
                        self.numerator as nat,
                        self.sign,
                    ) == -self.numerator,
                    signed(t1 as nat, self.sign) == if signed(self.numerator as nat, self.sign)
                        == self.numerator {
                        t1 as int
                    } else {
                        -(t1 as int)
                    },
                    signed(rhs.numerator as nat, rhs.sign) == rhs.numerator || signed(
                        rhs.numerator as nat,
                        rhs.sign,
                    ) == -rhs.numerator,
                    signed(t2 as nat, rhs.sign) == if signed(rhs.numerator as nat, rhs.sign)
                        == rhs.numerator {
                        t2 as int
                    } else {
                        -(t2 as int)
                    },
            ;
            lemma_of_scale(x, d as int, gi);
            assert(self@.plus(rhs@) == Ratio::of(x, d as int));
        }
        let r = if self.sign == rhs.sign {
            match t1.checked_add(t2) {
                Some(n) => Rational::from_parts(n, d, self.sign),
                None => {
                    proof {
                        lemma_wide_sum_not_representable(
                            self.numerator as nat,
                            self.denumerator as nat,
                            rhs.numerator as nat,
                            rhs.denumerator as nat,
                            self.sign,
                        );
                    }
                    Err(ArithmeticError::Overflow)
                },
            }
        } else if t1 >= t2 {
            Rational::from_parts(t1 - t2, d, self.sign)
        } else {
            Rational::from_parts(t2 - t1, d, rhs.sign)
        };
        proof {
            if let Ok(v) = r {
                use_type_invariant(&v);
                v.lemma_with_value();
            }
        }
        r
    }

    /// The exact difference, or `Overflow` when it does not fit.
    pub fn checked_sub(self, rhs: Rational) -> (r: Result<Rational, ArithmeticError>)
        ensures
            r is Ok <==> self@.minus(rhs@).representable(),
            r matches Ok(v) ==> v@ == self@.minus(rhs@),
            r matches Err(e) ==> e == ArithmeticError::Overflow,
    {
        self.checked_add(rhs.neg())
    }
}

/// A sum of like-signed fractions whose numerator over the least common
/// denominator exceeds 128 bits cannot be represented.
proof fn lemma_wide_sum_not_representable(p: nat, q: nat, r: nat, s: nat, sign: bool)
    requires
        0 < q <= u64::MAX,
        0 < s <= u64::MAX,
        p <= u64::MAX,
        r <= u64::MAX,
        gcd(p, q) == 1,
        gcd(r, s) == 1,
        p * (s / gcd(q, s)) + r * (q / gcd(q, s)) > u128::MAX,
    ensures
        !Ratio::of(
            signed(p * (s / gcd(q, s)) + r * (q / gcd(q, s)), sign),
            (q * (s / gcd(q, s))) as int,
        ).representable(),
{
    let g = gcd(q, s);
    let a = q / g;
    let b = s / g;
    let n = p * b + r * a;
    lemma_sum_denominator(p, q, r, s);
    let den = Ratio::of(n as int, (q * b) as int).den;
    assert(den == Ratio::of(signed(n, sign), (q * b) as int).den);
    if den <= u64::MAX {
        assert(n <= 0xffff_ffff_ffff_ffff * 0x1_0000_0000_0000_0000) by (nonlinear_arith)
            requires
                n == p * b + r * a,
                p <= 0xffff_ffff_ffff_ffff,
                r <= 0xffff_ffff_ffff_ffff,
                a > 0,
                b > 0,
                a * b <= 0xffff_ffff_ffff_ffff,
        ;
    }
}

/// Orders two 128-bit magnitudes.
fn order_of(x: u128, y: u128) -> (o: Ordering)
    ensures
        o == Ordering::Less <==> x < y,
        o == Ordering::Equal <==> x == y,
        o == Ordering::Greater <==> x > y,
{
    if x < y {
        Ordering::Less
    } else if x == y {
        Ordering::Equal
    } else {
        Ordering::Greater
    }
}

impl Rational {
    /// The cross products `|self.num| * rhs.den` and `|rhs.num| * self.den`.
    fn cross_products(&self, rhs: &Rational) -> (p: (u128, u128))
        ensures
            p.0 == self.numerator * rhs.denumerator,
            p.1 == rhs.numerator * self.denumerator,
    {
        proof {
            lemma_product_fits(self.numerator, rhs.denumerator);
            lemma_product_fits(rhs.numerator, self.denumerator);
        }
        (
            (self.numerator as u128) * (rhs.denumerator as u128),
            (rhs.numerator as u128) * (self.denumerator as u128),
        )
    }

    /// How the order of two values shows in their signs and cross products.
    proof fn lemma_order_by_parts(self, rhs: Rational)
        requires
            self.canonical(),
            rhs.canonical(),
        ensures
            self.sign && rhs.sign ==> (self@.less_than(rhs@) <==> self.numerator * rhs.denumerator
                < rhs.numerator * self.denumerator) && (rhs@.less_than(self@) <==> rhs.numerator
                * self.denumerator < self.numerator * rhs.denumerator),
            !self.sign && !rhs.sign ==> (self@.less_than(rhs@) <==> rhs.numerator
                * self.denumerator < self.numerator * rhs.denumerator) && (rhs@.less_than(self@)
                <==> self.numerator * rhs.denumerator < rhs.numerator * self.denumerator),
            self.sign && !rhs.sign ==> rhs@.less_than(self@) && !self@.less_than(rhs@) && self@
                != rhs@,
            !self.sign && rhs.sign ==> self@.less_than(rhs@) && !rhs@.less_than(self@) && self@
                != rhs@,
            self.sign == rhs.sign ==> (self@ == rhs@ <==> self.numerator * rhs.denumerator
                == rhs.numerator * self.denumerator),
    {
        let an = self.numerator as int;
        let ad = self.denumerator as int;
        let bn = rhs.numerator as int;
        let bd = rhs.denumerator as int;
        assert((-an) * bd == -(an * bd) && (-bn) * ad == -(bn * ad)) by (nonlinear_arith);
        assert(an * bd >= 0 && bn * ad >= 0 && (bn > 0 ==> bn * ad > 0) && (an > 0 ==> an * bd
            > 0)) by (nonlinear_arith)
            requires
                an >= 0,
                bn >= 0,
                ad > 0,
                bd > 0,
        ;
        if self.sign == rhs.sign && an * bd == bn * ad {
            self.lemma_with_value();
            rhs.lemma_with_value();
            lemma_same_value_equal(self@, rhs@);
        }
    }

    /// Compares two values as rational numbers.
    pub fn cmp(&self, rhs: &Rational) -> (o: Ordering)
        ensures
            o == Ordering::Less <==> self@.less_than(rhs@),
            o == Ordering::Equal <==> self@ == rhs@,
            o == Ordering::Greater <==> rhs@.less_than(self@),
    {
        proof {
            use_type_invariant(self);
            use_type_invariant(rhs);
            self.lemma_order_by_parts(*rhs);
        }
        let (x, y) = self.cross_products(rhs);
        if self.sign && rhs.sign {
            order_of(x, y)
        } else if !self.sign && !rhs.sign {
            order_of(y, x)
        } else if self.sign {
            Ordering::Greater
        } else {
            Ordering::Less
        }
    }

    /// The left fold of `checked_add` over `items`, starting from zero.
    pub fn sum(items: &[Rational]) -> (r: Result<Rational, ArithmeticError>)
        ensures
            r is Ok <==> forall|k: int|
                0 <= k <= items@.len() ==> #[trigger] sum_of(values(items@.take(k))).representable(),
            r matches Ok(v) ==> v@ == sum_of(values(items@)),
            r matches Err(e) ==> e == ArithmeticError::Overflow,
    {
        let mut acc = Rational::zero();
        let mut i: usize = 0;
        proof {
            assert(values(items@.take(0)) =~= Seq::<Ratio>::empty());
        }
        while i < items.len()
            invariant
                i <= items@.len(),
                acc@ == sum_of(values(items@.take(i as int))),
                forall|k: int|
                    0 <= k <= i ==> #[trigger] sum_of(values(items@.take(k))).representable(),
            decreases items@.len() - i,
        {
            proof {
                let next = values(items@.take(i + 1));
                assert(next.drop_last() =~= values(items@.take(i as int)));
                assert(next.last() == items@[i as int]@);
                assert(sum_of(next) == acc@.plus(items@[i as int]@));
            }
            match acc.checked_add(items[i]) {
                Ok(v) => {
                    acc = v;
                },
                Err(e) => {
                    return Err(e);
                },
            }
            i += 1;
        }
        proof {
            assert(items@.take(i as int) =~= items@);
        }
        Ok(acc)
    }

    /// The left fold of `checked_mul` over `items`, starting from one.
    pub fn product(items: &[Rational]) -> (r: Result<Rational, ArithmeticError>)
        ensures
            r is Ok <==> forall|k: int|
                0 <= k <= items@.len() ==> #[trigger] product_of(
                    values(items@.take(k)),
                ).representable(),
            r matches Ok(v) ==> v@ == product_of(values(items@)),
            r matches Err(e) ==> e == ArithmeticError::Overflow,
    {
        let mut acc = Rational::one();
        let mut i: usize = 0;
        proof {
            assert(values(items@.take(0)) =~= Seq::<Ratio>::empty());
        }
        while i < items.len()
            invariant
                i <= items@.len(),
                acc@ == product_of(values(items@.take(i as int))),
                forall|k: int|
                    0 <= k <= i ==> #[trigger] product_of(
                        values(items@.take(k)),
                    ).representable(),
            decreases items@.len() - i,
        {
            proof {
                let next = values(items@.take(i + 1));
                assert(next.drop_last() =~= values(items@.take(i as int)));
                assert(next.last() == items@[i as int]@);
                assert(product_of(next) == acc@.times(items@[i as int]@));
            }
            match acc.checked_mul(items[i]) {
                Ok(v) => {
                    acc = v;
                },
                Err(e) => {
                    return Err(e);
                },
            }
            i += 1;
        }
        proof {
            assert(items@.take(i as int) =~= items@);
        }
        Ok(acc)
    }
}

/// The mathematical values of a sequence of rationals.
pub open spec fn values(items: Seq<Rational>) -> Seq<Ratio> {
    items.map_values(|r: Rational| r@)
}

/// The sum of `items`, added up from the left starting at zero.
pub open spec fn sum_of(items: Seq<Ratio>) -> Ratio
    decreases items.len(),
{
    if items.len() == 0 {
        Ratio::zero()
    } else {
        sum_of(items.drop_last()).plus(items.last())
    }
}

/// The product of `items`, multiplied from the left starting at one.
pub open spec fn product_of(items: Seq<Ratio>) -> Ratio
    decreases items.len(),
{
    if items.len() == 0 {
        Ratio::one()
    } else {
        product_of(items.drop_last()).times(items.last())
    }
}

impl PartialOrd for Rational {
    fn partial_cmp(&self, rhs: &Rational) -> (r: Option<Ordering>) {
        Some(self.cmp(rhs))
    }
}

impl PartialOrdSpecImpl for Rational {
    open spec fn obeys_partial_cmp_spec() -> bool {
        true
    }

    open spec fn partial_cmp_spec(&self, rhs: &Rational) -> Option<Ordering> {
        if self@.less_than(rhs@) {
            Some(Ordering::Less)
        } else if rhs@.less_than(self@) {
            Some(Ordering::Greater)
        } else {
            Some(Ordering::Equal)
        }
    }
}

impl Add for Rational {
    type Output = Rational;

    /// The exact sum, which must be representable.
    fn add(self, rhs: Rational) -> (r: Rational)
        ensures
            r@ == self@.plus(rhs@),
    {
        match self.checked_add(rhs) {
            Ok(v) => {
                proof {
                    use_type_invariant(&v);
                    v.lemma_with_value();
                }
                v
            },
            Err(_) => unreached(),
        }
    }
}

impl AddSpecImpl for Rational {
    open spec fn obeys_add_spec() -> bool {
        true
    }

    open spec fn add_req(self, rhs: Rational) -> bool {
        self@.plus(rhs@).representable()
    }

    open spec fn add_spec(self, rhs: Rational) -> Rational {
        Rational::with_value(self@.plus(rhs@))
    }
}

impl Sub for Rational {
    type Output = Rational;

    /// The exact difference, which must be representable.
    fn sub(self, rhs: Rational) -> (r: Rational)
        ensures
            r@ == self@.minus(rhs@),
    {
        match self.checked_sub(rhs) {
            Ok(v) => {
                proof {
                    use_type_invariant(&v);
                    v.lemma_with_value();
                }
                v
            },
            Err(_) => unreached(),
        }
    }
}

impl SubSpecImpl for Rational {
    open spec fn obeys_sub_spec() -> bool {
        true
    }

    open spec fn sub_req(self, rhs: Rational) -> bool {
        self@.minus(rhs@).representable()
    }

    open spec fn sub_spec(self, rhs: Rational) -> Rational {
        Rational::with_value(self@.minus(rhs@))
    }
}

impl Mul for Rational {
    type Output = Rational;

    /// The exact product, which must be representable.
    fn mul(self, rhs: Rational) -> (r: Rational)
        ensures
            r@ == self@.times(rhs@),
    {
        match self.checked_mul(rhs) {
            Ok(v) => {
                proof {
                    use_type_invariant(&v);
                    v.lemma_with_value();
                }
                v
            },
            Err(_) => unreached(),
        }
    }
}

impl MulSpecImpl for Rational {
    open spec fn obeys_mul_spec() -> bool {
        true
    }

    open spec fn mul_req(self, rhs: Rational) -> bool {
        self@.times(rhs@).representable()
    }

    open spec fn mul_spec(self, rhs: Rational) -> Rational {
        Rational::with_value(self@.times(rhs@))
    }
}

impl Div for Rational {
    type Output = Result<Rational, ArithmeticError>;

    /// The exact quotient; an error when `rhs` is zero or the quotient does
    /// not fit.
    fn div(self, rhs: Rational) -> (r: Result<Rational, ArithmeticError>)
        ensures
            r is Ok <==> !rhs@.is_zero() && self@.over(rhs@).representable(),
            r matches Ok(v) ==> v@ == self@.over(rhs@),
            r matches Err(e) ==> (e == ArithmeticError::DivisionByZero <==> rhs@.is_zero()),
            r matches Err(e) ==> (e == ArithmeticError::Overflow <==> !rhs@.is_zero()),
    {
        let r = self.checked_div(rhs);
        proof {
            if let Ok(v) = r {
                use_type_invariant(&v);
                v.lemma_with_value();
            }
        }
        r
    }
}

impl DivSpecImpl for Rational {
    open spec fn obeys_div_spec() -> bool {
        true
    }

    open spec fn div_req(self, rhs: Rational) -> bool {
        true
    }

    open spec fn div_spec(self, rhs: Rational) -> Result<Rational, ArithmeticError> {
        if rhs@.is_zero() {
            Err(ArithmeticError::DivisionByZero)
        } else if self@.over(rhs@).representable() {
            Ok(Rational::with_value(self@.over(rhs@)))
        } else {
            Err(ArithmeticError::Overflow)
        }
    }
}

impl Neg for Rational {
    type Output = Rational;

    /// The additive inverse. Zero is its own inverse and keeps its sign flag.
    fn neg(self) -> (r: Rational)
        ensures
            r@ == self@.negation(),
    {
        proof {
            use_type_invariant(&self);
            self.lemma_with_value();
        }
        if self.numerator == 0 {
            self
        } else {
            Rational { numerator: self.numerator, denumerator: self.denumerator, sign: !self.sign }
        }
    }
}

impl NegSpecImpl for Rational {
    open spec fn obeys_neg_spec() -> bool {
        true
    }

    open spec fn neg_req(self) -> bool {
        true
    }

    open spec fn neg_spec(self) -> Rational {
        Rational::with_value(self@.negation())
    }
}

} // verus!
