use zeta_core::{Ibig, Ubig};

#[test]
fn limbs_come_back_as_given() {
    let u = Ubig::from_limbs(vec![7, 0, 1]);
    assert_eq!(u.limbs(), &vec![7, 0, 1]);
    let i = Ibig::from_limbs(vec![-7, 2]);
    assert_eq!(i.limbs(), &vec![-7, 2]);
}

#[test]
fn equality_is_by_limbs() {
    assert_eq!(Ubig::from_limbs(vec![1, 2]), Ubig::from_limbs(vec![1, 2]));
    assert_ne!(Ubig::from_limbs(vec![1, 2]), Ubig::from_limbs(vec![2, 1]));
    assert_eq!(Ibig::from_limbs(vec![]), Ibig::from_limbs(vec![]).clone());
}

#[test]
fn small_numbers_convert_both_ways() {
    assert_eq!(Ubig::from_u64(0).limbs(), &vec![0]);
    assert_eq!(Ubig::from_u64(u64::MAX).to_u64(), Some(u64::MAX));
    assert_eq!(Ubig::from_limbs(vec![]).to_u64(), Some(0));
    assert_eq!(Ubig::from_limbs(vec![42, 0, 0]).to_u64(), Some(42));
    assert_eq!(Ubig::from_limbs(vec![42, 0, 1]).to_u64(), None);
    assert_eq!(Ubig::from_limbs(vec![0, 1]).to_u64(), None);
}
