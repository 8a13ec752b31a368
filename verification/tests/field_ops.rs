use acvm::field::FIELD_MODULUS;
use acvm::FieldValue;

#[test]
fn from_u64_reduces() {
    let v = FieldValue::from_u64(FIELD_MODULUS + 3);
    assert_eq!(v, FieldValue::from_u64(3));
    assert!(FieldValue::from_u64(0).is_zero());
    assert!(!FieldValue::one().is_zero());
}

#[test]
fn add_wraps_at_modulus() {
    let a = FieldValue::from_u64(FIELD_MODULUS - 1);
    let b = FieldValue::from_u64(2);
    assert_eq!(a.add(b), FieldValue::from_u64(1));
    assert_eq!(FieldValue::from_u64(3).add(FieldValue::from_u64(4)), FieldValue::from_u64(7));
}

#[test]
fn mul_is_modular() {
    let a = FieldValue::from_u64(300);
    let b = FieldValue::from_u64(400);
    assert_eq!(a.mul(b), FieldValue::from_u64(120000 % FIELD_MODULUS));
    assert_eq!(a.mul(FieldValue::zero()), FieldValue::zero());
}

#[test]
fn neg_and_sub() {
    let a = FieldValue::from_u64(5);
    assert_eq!(a.neg(), FieldValue::from_u64(FIELD_MODULUS - 5));
    assert_eq!(FieldValue::zero().neg(), FieldValue::zero());
    assert_eq!(a.sub(FieldValue::from_u64(7)), FieldValue::from_u64(FIELD_MODULUS - 2));
    assert_eq!(a.sub(FieldValue::from_u64(3)), FieldValue::from_u64(2));
}

#[test]
fn num_bits_examples() {
    assert_eq!(FieldValue::zero().num_bits(), 0);
    assert_eq!(FieldValue::one().num_bits(), 1);
    assert_eq!(FieldValue::from_u64(2).num_bits(), 2);
    assert_eq!(FieldValue::from_u64(15).num_bits(), 4);
    assert_eq!(FieldValue::from_u64(16).num_bits(), 5);
    assert_eq!(FieldValue::from_u64(255).num_bits(), 8);
    assert_eq!(FieldValue::from_u64(256).num_bits(), 9);
}

#[test]
fn inverse_of_two() {
    let two = FieldValue::from_u64(2);
    let inv = two.inverse().expect("two is invertible");
    assert_eq!(two.mul(inv), FieldValue::one());
    assert_eq!(inv, FieldValue::from_u64((FIELD_MODULUS + 1) / 2));
}

#[test]
fn inverse_of_zero_is_none() {
    assert!(FieldValue::zero().inverse().is_none());
    assert_eq!(FieldValue::one().inverse(), Some(FieldValue::one()));
}
