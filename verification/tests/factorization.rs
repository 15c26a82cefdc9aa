use zeta_core::integral::factorization::Factorization;
use zeta_core::{Algorithm, AlgorithmError, Complexity};

#[test]
fn one_has_no_prime_factors() {
    assert_eq!(Factorization { n: 1 }.compute(), Ok(vec![]));
}

#[test]
fn zero_is_invalid_input() {
    assert_eq!(Factorization { n: 0 }.compute(), Err(AlgorithmError::InvalidInput));
}

#[test]
fn primes_are_their_own_factorization() {
    for p in [2u64, 3, 5, 97, 65537, 1000003, 4294967311] {
        assert_eq!(Factorization { n: p }.compute(), Ok(vec![p]));
    }
}

#[test]
fn factors_come_with_multiplicity_in_ascending_order() {
    assert_eq!(Factorization { n: 4 }.compute(), Ok(vec![2, 2]));
    assert_eq!(Factorization { n: 360 }.compute(), Ok(vec![2, 2, 2, 3, 3, 5]));
    assert_eq!(Factorization { n: 1001 }.compute(), Ok(vec![7, 11, 13]));
    assert_eq!(Factorization { n: 1 << 63 }.compute(), Ok(vec![2; 63]));
    assert_eq!(
        Factorization { n: u64::MAX }.compute(),
        Ok(vec![3, 5, 17, 257, 641, 65537, 6700417])
    );
}

#[test]
fn factors_multiply_back_to_the_input() {
    for n in 1u64..2000 {
        let factors = Factorization { n }.compute().unwrap();
        assert_eq!(factors.iter().product::<u64>(), n);
        assert!(factors.windows(2).all(|w| w[0] <= w[1]));
        for f in factors {
            assert!(f >= 2 && (2..f).all(|k| f % k != 0));
        }
    }
}

#[test]
fn factorization_is_exponential() {
    assert_eq!(Factorization::complexity(), Complexity::Exponential);
}
