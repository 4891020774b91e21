use zk_sumcheck::field::{Field128, FrConfig128, MODULUS_128, MONTGOMERY_R};
use zk_sumcheck::fake_field::Fake64;

#[test]
fn field128_arithmetic() {
    let a = Field128::from_u128(MODULUS_128 - 1);
    let b = Field128::from_u64(5);
    assert_eq!(a.add(b).value(), 4);
    assert_eq!(b.sub(a).value(), 6);
    assert_eq!(b.neg().value(), MODULUS_128 - 5);
    assert_eq!(a.mul(a).value(), 1);
    assert_eq!(Field128::from_i64(-1).value(), MODULUS_128 - 1);
    assert_eq!(Field128::from_i32(-2).value(), MODULUS_128 - 2);
    assert_eq!(Field128::from_u128(MODULUS_128).value(), 0);
    let big = Field128::from_u128(1u128 << 100);
    assert_eq!(big.mul(Field128::from_u64(8)).value(), (1u128 << 103) % MODULUS_128);
    assert_eq!(FrConfig128::modulus(), MODULUS_128);
    assert_eq!(FrConfig128::generator().value(), 3);
}

#[test]
fn field128_assign_ops() {
    let mut x = Field128::from_u64(7);
    x.add_assign(Field128::from_u64(3));
    x.mul_assign(Field128::from_u64(4));
    x.sub_assign(Field128::from_u64(1));
    assert_eq!(x.value(), 39);
    x.div_assign(Field128::from_u64(3));
    assert_eq!(x.value(), 13);
}

#[test]
fn field128_inverse() {
    assert!(Field128::zero().inverse().is_none());
    let x = Field128::from_u128(0x1234_5678_9abc_def0_1234_5678);
    let y = x.inverse().unwrap();
    assert_eq!(x.mul(y), Field128::one());
}

#[test]
fn field128_sum_and_product() {
    let items: Vec<Field128> = (1..=5).map(Field128::from_u64).collect();
    assert_eq!(Field128::sum(&items).value(), 15);
    assert_eq!(Field128::product(&items).value(), 120);
}

#[test]
fn field128_bytes_are_montgomery_form() {
    let one = Field128::one();
    assert_eq!(one.montgomery(), MONTGOMERY_R);
    assert_eq!(one.to_bytes(), MONTGOMERY_R.to_le_bytes().to_vec());
    let zero = Field128::zero();
    assert_eq!(zero.to_bytes(), vec![0u8; 16]);
}

#[test]
fn field128_from_serialized_bytes() {
    let bytes = 300u128.to_le_bytes();
    assert_eq!(Field128::from_serialized_bytes(&bytes).unwrap().value(), 300);
    assert!(Field128::from_serialized_bytes(&bytes[..15]).is_none());
    let max = u128::MAX.to_le_bytes();
    assert_eq!(Field128::from_serialized_bytes(&max).unwrap().value(), u128::MAX - MODULUS_128);
}

#[test]
fn fake64_arithmetic() {
    let a = Fake64::from_i64(-7);
    let b = Fake64::from_i32(2);
    assert_eq!(a.div(b).value(), -3);
    assert_eq!(a.add(b).value(), -5);
    assert_eq!(a.sub(b).value(), -9);
    assert_eq!(a.mul(b).value(), -14);
    assert_eq!(a.neg().value(), 7);
    let mut c = Fake64::from_u32(9);
    c.mul_assign(b);
    c.div_assign(Fake64::from_i64(-4));
    assert_eq!(c.value(), -4);
    assert_eq!(Fake64::from_u64(u64::MAX).value(), -1);
    let items = [Fake64::from_i64(2), Fake64::from_i64(3), Fake64::from_i64(-4)];
    assert_eq!(Fake64::sum(&items).value(), 1);
    assert_eq!(Fake64::product(&items).value(), -24);
}
