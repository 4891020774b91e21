use zk_sumcheck::fields::{random_base, BaseField, MODULUS};
use rand::SeedableRng;

#[test]
fn base_field_arithmetic() {
    let a = BaseField::from_u64(MODULUS - 1);
    let b = BaseField::from_u64(5);
    assert_eq!(a.add(b).value(), 4);
    assert_eq!(b.sub(a).value(), 6);
    assert_eq!(b.neg().value(), MODULUS - 5);
    assert_eq!(a.mul(a).value(), 1);
    assert_eq!(BaseField::from_u64(MODULUS).value(), 0);
    assert_eq!(BaseField::from_i64(-1).value(), MODULUS - 1);
}

#[test]
fn base_field_inverse() {
    assert!(BaseField::zero().inverse().is_none());
    let x = BaseField::from_u64(123456789);
    let y = x.inverse().unwrap();
    assert_eq!(x.mul(y), BaseField::one());
    assert_eq!(BaseField::from_u64(10).div(BaseField::from_u64(2)), BaseField::from_u64(5));
    assert_eq!(BaseField::from_u64(2).inverse().unwrap().value(), 9223372034707292161);
}

#[test]
fn random_base_follows_the_seed() {
    let mut r1 = rand_chacha::ChaCha8Rng::seed_from_u64(7);
    let mut r2 = rand_chacha::ChaCha8Rng::seed_from_u64(7);
    let a = random_base(&mut r1);
    let b = random_base(&mut r2);
    assert_eq!(a, b);
    let c = random_base(&mut r1);
    assert_ne!(a, c);
    assert!(a.value() < MODULUS);
}
