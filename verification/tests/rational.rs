use std::cmp::Ordering;
use zeta_core::{ArithmeticError, Rational};

fn parts(r: Rational) -> (usize, usize, bool) {
    (r.get_numerator(), r.get_denumerator(), r.is_non_negative())
}

#[test]
fn init_tests() {
    assert_eq!(parts(Rational::new(-1, 1)), (1, 1, false));
    assert_eq!(parts(Rational::new(0, 10)), (0, 1, true));
    assert_eq!(parts(Rational::new(9, -6)), (3, 2, false));
    assert_eq!(parts(Rational::new(-9, -3)), (3, 1, true));

    assert_eq!(Rational::new(-4, -6), Rational::new(2, 3));
    assert_eq!(Rational::new(15, -12), Rational::new(5, 4) * Rational::new(-1, 1));
    assert_eq!(Rational::new(-4, 6).abs(), Rational::new(2, 3));

    assert_eq!(Rational::new(-4, 6), Rational::new(-2, 3));
    assert_eq!(Rational::zero(), Rational::new(0, 1));
}

#[test]
fn arithmetic_test() {
    let r1 = Rational::new(-2, 2);
    assert_eq!(r1, Rational::new(-1, 1));
    assert_eq!(Rational::zero() - Rational::one(), Rational::new(-1, 1));

    let r2 = Rational::from(-2);
    assert_eq!(r2, Rational::new(-2, 1));

    assert_eq!(r2 < r1, true);

    let r3 = (Rational::new(3, 1) / r2).unwrap();
    assert_eq!(r3, Rational::new(-3, 2));

    let r4 = r3 + Rational::new(2, 3);
    assert_eq!(r4, Rational::new(-5, 6));

    let r5 = r3 * r4;
    assert_eq!(r5, Rational::new(5, 4));

    let r6 = r5 - Rational::new(2, 3);
    assert_eq!(r6, Rational::new(7, 12));

    let r7 = Rational::new(0, 3);
    assert_eq!(r7 * r7, Rational::new(0, 1));
    assert_eq!(r6 + r7, r6);
}

#[test]
fn division_by_zero_is_reported() {
    let a = Rational::new(3, 1);
    let b = a - a;
    let b = b * Rational::from(-1000);
    assert_eq!(a / b, Err(ArithmeticError::DivisionByZero));
    assert_eq!(a.checked_div(Rational::zero()), Err(ArithmeticError::DivisionByZero));
}

#[test]
fn construction_reduces_to_lowest_terms() {
    assert_eq!(parts(Rational::new(-4, 6)), (2, 3, false));
    assert_eq!(parts(Rational::new(9, -6)), (3, 2, false));
    assert_eq!(parts(Rational::new(0, -7)), (0, 1, true));
    assert_eq!(parts(Rational::new(360, 84)), (30, 7, true));
    assert_eq!(parts(Rational::from(-5)), (5, 1, false));
    assert_eq!(parts(Rational::one()), (1, 1, true));
}

#[test]
fn construction_takes_the_whole_range() {
    let r = Rational::new(i64::MIN, 1);
    assert_eq!(parts(r), (9223372036854775808, 1, false));
    let r = Rational::new(i64::MIN, i64::MIN);
    assert_eq!(r, Rational::one());
    let r = Rational::new(1, i64::MIN);
    assert_eq!(parts(r), (1, 9223372036854775808, false));
    assert_eq!(parts(Rational::from(i64::MIN)), (9223372036854775808, 1, false));
}

#[test]
fn construction_ignores_a_common_factor() {
    for k in [-7i64, -1, 1, 2, 13, 1000] {
        assert_eq!(Rational::new(3, -5), Rational::new(k * 3, k * -5));
        assert_eq!(Rational::new(0, 4), Rational::new(0, k * 4));
    }
}

#[test]
fn addition_and_multiplication_commute() {
    let a = Rational::new(-7, 12);
    let b = Rational::new(5, 18);
    assert_eq!(a + b, b + a);
    assert_eq!(a + b, Rational::new(-11, 36));
    assert_eq!(a * b, b * a);
    assert_eq!(a * b, Rational::new(-35, 216));
}

#[test]
fn inverses_cancel() {
    let a = Rational::new(-7, 12);
    assert_eq!(a + (-a), Rational::zero());
    assert_eq!(a - a, Rational::zero());
    let reciprocal = (Rational::one() / a).unwrap();
    assert_eq!(reciprocal, Rational::new(-12, 7));
    assert_eq!(a * reciprocal, Rational::one());
}

#[test]
fn identities_leave_values_unchanged() {
    let a = Rational::new(-7, 12);
    assert_eq!(Rational::zero() + a, a);
    assert_eq!(a + Rational::zero(), a);
    assert_eq!(Rational::one() * a, a);
    assert_eq!(a * Rational::one(), a);
}

#[test]
fn negation_keeps_zero_canonical() {
    assert_eq!(-Rational::zero(), Rational::zero());
    assert_eq!(parts(-Rational::zero()), (0, 1, true));
    assert_eq!(parts(-Rational::new(2, 3)), (2, 3, false));
    assert_eq!(-(-Rational::new(2, 3)), Rational::new(2, 3));
    assert_eq!(Rational::new(-2, 3).abs(), Rational::new(2, 3));
    assert_eq!(Rational::zero().abs(), Rational::zero());
}

#[test]
fn division_follows_the_signs() {
    let q = Rational::new(3, 1) / Rational::new(-2, 1);
    assert_eq!(q, Ok(Rational::new(-3, 2)));
    let q = Rational::new(-3, 4) / Rational::new(-9, 8);
    assert_eq!(q, Ok(Rational::new(2, 3)));
    let q = Rational::zero() / Rational::new(-9, 8);
    assert_eq!(q, Ok(Rational::zero()));
}

#[test]
fn division_by_zero_for_every_dividend() {
    for n in [-3i64, 0, 1, 1000] {
        let a = Rational::new(n, 7);
        assert_eq!(a / Rational::zero(), Err(ArithmeticError::DivisionByZero));
        assert_eq!(a / Rational::new(0, -5), Err(ArithmeticError::DivisionByZero));
    }
}

#[test]
fn results_beyond_64_bits_are_overflow() {
    let big = Rational::from(i64::MAX);
    assert_eq!(big.checked_mul(big), Err(ArithmeticError::Overflow));
    let twice = big.checked_add(big).unwrap();
    assert_eq!(parts(twice), (18446744073709551614, 1, true));
    assert_eq!(twice.checked_add(Rational::from(1)).map(parts), Ok((18446744073709551615, 1, true)));
    assert_eq!(twice.checked_add(Rational::from(2)), Err(ArithmeticError::Overflow));
    assert_eq!((-twice).checked_sub(Rational::from(2)), Err(ArithmeticError::Overflow));
    let tiny = Rational::new(1, i64::MAX);
    assert_eq!(tiny.checked_div(big), Err(ArithmeticError::Overflow));
    assert_eq!(tiny.checked_mul(tiny), Err(ArithmeticError::Overflow));
}

#[test]
fn large_operands_with_small_results() {
    let a = Rational::new(i64::MAX, 3);
    let b = Rational::new(3, i64::MAX);
    assert_eq!(a.checked_mul(b), Ok(Rational::one()));
    let c = Rational::new(1, i64::MAX);
    assert_eq!(c.checked_add(c), Ok(Rational::new(2, i64::MAX)));
    assert_eq!(c.checked_sub(c), Ok(Rational::zero()));
    let d = Rational::new(i64::MAX, i64::MAX - 1);
    let e = Rational::new(i64::MAX, i64::MAX - 2);
    assert_eq!(d.checked_add(e), Err(ArithmeticError::Overflow));
    assert_eq!(d.cmp(&e), Ordering::Less);
}

#[test]
fn order_is_that_of_the_values() {
    let values = [
        Rational::new(-3, 2),
        Rational::new(-1, 1),
        Rational::new(-1, 3),
        Rational::zero(),
        Rational::new(1, 3),
        Rational::new(1, 2),
        Rational::new(7, 2),
    ];
    for i in 0..values.len() {
        for j in 0..values.len() {
            let expected = i.cmp(&j);
            assert_eq!(values[i].cmp(&values[j]), expected);
            assert_eq!(values[i].partial_cmp(&values[j]), Some(expected));
            assert_eq!(values[i] < values[j], expected == Ordering::Less);
            assert_eq!(values[i] == values[j], expected == Ordering::Equal);
            assert_eq!(values[i] > values[j], expected == Ordering::Greater);
        }
    }
    assert_eq!(Rational::new(2, 4).cmp(&Rational::new(1, 2)), Ordering::Equal);
}

#[test]
fn sums_and_products_fold_from_the_left() {
    let items = [Rational::new(1, 2), Rational::new(1, 3), Rational::new(1, 6)];
    assert_eq!(Rational::sum(&items), Ok(Rational::one()));
    assert_eq!(Rational::product(&items), Ok(Rational::new(1, 36)));
    assert_eq!(Rational::sum(&[]), Ok(Rational::zero()));
    assert_eq!(Rational::product(&[]), Ok(Rational::one()));
    let big = Rational::from(i64::MAX);
    assert_eq!(Rational::sum(&[big, big, big, -big]), Err(ArithmeticError::Overflow));
    assert_eq!(Rational::product(&[big, big, Rational::zero()]), Err(ArithmeticError::Overflow));
}

#[test]
fn text_shows_sign_numerator_and_denominator() {
    assert_eq!(Rational::new(-3, 2).to_string(), "-3/2");
    assert_eq!(Rational::new(3, -2).to_string(), "-3/2");
    assert_eq!(Rational::new(10, 4).to_string(), "5/2");
    assert_eq!(Rational::from(5).to_string(), "5");
    assert_eq!(Rational::from(-120).to_string(), "-120");
    assert_eq!(Rational::zero().to_string(), "0");
    assert_eq!(Rational::new(0, -3).to_string(), "0");
    assert_eq!(Rational::new(i64::MIN, 3).to_string(), "-9223372036854775808/3");
    assert_eq!(Rational::new(1, 1000000007).to_string(), "1/1000000007");
}

fn common_divisor(a: usize, b: usize) -> usize {
    if b == 0 {
        a
    } else {
        common_divisor(b, a % b)
    }
}

#[test]
fn construction_is_canonical_for_many_inputs() {
    for n in -40i64..40 {
        for d in -40i64..40 {
            if d != 0 {
                let r = Rational::new(n, d);
                assert!(r.get_denumerator() >= 1);
                assert_eq!(common_divisor(r.get_numerator(), r.get_denumerator()), 1);
                assert_eq!(r.is_non_negative(), n == 0 || (n > 0) == (d > 0));
                let lhs = r.get_numerator() as i64 * d.abs();
                assert_eq!(lhs, n.abs() * r.get_denumerator() as i64);
            }
        }
    }
}
