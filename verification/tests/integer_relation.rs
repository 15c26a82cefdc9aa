use zeta_core::integral::integer_relation::{relation_by_lll, RelationConfig};
use zeta_core::AlgorithmError;

fn combine(c: &[i64], v: &[i64]) -> i128 {
    c.iter().zip(v).map(|(a, b)| (*a as i128) * (*b as i128)).sum()
}

#[test]
fn default_configuration() {
    let config = RelationConfig::default();
    assert_eq!(config.scale, 1_000_000);
    assert_eq!(config.tolerance, 0);
    assert_eq!(config.max_rounds, 256);
}

#[test]
fn relation_among_two_four_six() {
    let v = [2, 4, 6];
    let c = relation_by_lll(&v, &RelationConfig::default()).unwrap();
    assert_eq!(c, vec![-2, 1, 0]);
    assert_eq!(combine(&c, &v), 0);
}

#[test]
fn relation_among_reals_given_as_floats() {
    let reals = [2.0f64, 4.0, 6.0];
    let v: Vec<i64> = reals.iter().map(|x| *x as i64).collect();
    let c = relation_by_lll(&v, &RelationConfig::default()).unwrap();
    assert_eq!(c.len(), 3);
    assert!(c.iter().any(|x| *x != 0));
    let combination: f64 = c.iter().zip(reals).map(|(a, x)| (*a as f64) * x).sum();
    assert_eq!(combination, 0.0);
}

#[test]
fn relation_between_coprime_numbers() {
    let v = [3, 5];
    let c = relation_by_lll(&v, &RelationConfig::default()).unwrap();
    assert_eq!(c, vec![-5, 3]);
}

#[test]
fn relations_are_found_for_many_inputs() {
    let config = RelationConfig::default();
    for a in -12i64..12 {
        for b in -12i64..12 {
            for third in [-35i64, 0, 1, 91] {
                let v = [a, b, third];
                let c = relation_by_lll(&v, &config).unwrap();
                assert_eq!(c.len(), 3);
                assert!(c.iter().any(|x| *x != 0));
                assert_eq!(combine(&c, &v), 0);
            }
        }
    }
}

#[test]
fn zero_is_related_to_itself() {
    assert_eq!(relation_by_lll(&[0], &RelationConfig::default()), Ok(vec![1]));
    assert_eq!(relation_by_lll(&[5, 0, 3], &RelationConfig::default()), Ok(vec![0, 1, 0]));
}

#[test]
fn no_relation_for_a_single_number_or_none() {
    let config = RelationConfig::default();
    assert_eq!(relation_by_lll(&[5], &config), Err(AlgorithmError::NoRelationFound));
    assert_eq!(relation_by_lll(&[], &config), Err(AlgorithmError::NoRelationFound));
}

#[test]
fn no_relation_without_rounds() {
    let config = RelationConfig { scale: 1_000_000, tolerance: 0, max_rounds: 0 };
    assert_eq!(relation_by_lll(&[2, 4, 6], &config), Err(AlgorithmError::NoRelationFound));
    let config = RelationConfig { scale: 1_000_000, tolerance: 0, max_rounds: 1 };
    assert_eq!(relation_by_lll(&[2, 4, 6], &config), Ok(vec![-2, 1, 0]));
    assert_eq!(relation_by_lll(&[3, 5], &config), Err(AlgorithmError::NoRelationFound));
}

#[test]
fn no_relation_when_the_scale_leaves_the_range() {
    let config = RelationConfig::default();
    assert_eq!(relation_by_lll(&[i64::MAX, 1], &config), Err(AlgorithmError::NoRelationFound));
    let config = RelationConfig { scale: 1, tolerance: 0, max_rounds: 256 };
    let c = relation_by_lll(&[i64::MAX, 1], &config).unwrap();
    assert_eq!(combine(&c, &[i64::MAX, 1]), 0);
}

#[test]
fn tolerance_admits_near_relations() {
    let config = RelationConfig { scale: 1000, tolerance: 1, max_rounds: 256 };
    assert_eq!(relation_by_lll(&[1, 7], &config), Ok(vec![1, 0]));
    let config = RelationConfig { scale: 1000, tolerance: 2, max_rounds: 256 };
    let v = [1000, 3001];
    let c = relation_by_lll(&v, &config).unwrap();
    assert_eq!(c, vec![-3, 1]);
    assert_eq!(combine(&c, &v), 1);
}

#[test]
fn invalid_configurations_are_rejected() {
    let config = RelationConfig { scale: 0, tolerance: 0, max_rounds: 256 };
    assert_eq!(relation_by_lll(&[2, 4], &config), Err(AlgorithmError::InvalidInput));
    let config = RelationConfig { scale: 10, tolerance: -1, max_rounds: 256 };
    assert_eq!(relation_by_lll(&[2, 4], &config), Err(AlgorithmError::InvalidInput));
}
