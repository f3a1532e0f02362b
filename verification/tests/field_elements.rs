use ark_bn254::Fr;
use ark_ff::{BigInt, PrimeField};
use gasless_rln::field::{
    FieldElement, MODULUS_L0, MODULUS_L1, MODULUS_L2, MODULUS_L3,
};

fn fe(v: Fr) -> FieldElement {
    FieldElement::from_limbs(v.into_bigint().0).unwrap()
}

#[test]
fn from_u64_is_the_small_integer() {
    let f = FieldElement::from_u64(42);
    assert_eq!(f.limbs(), [42, 0, 0, 0]);
    assert_eq!(f, fe(Fr::from(42u64)));
    assert_eq!(FieldElement::zero(), fe(Fr::from(0u64)));
}

#[test]
fn from_limbs_refuses_the_modulus() {
    let p = [MODULUS_L0, MODULUS_L1, MODULUS_L2, MODULUS_L3];
    assert!(FieldElement::from_limbs(p).is_none());
    let below = [MODULUS_L0 - 1, MODULUS_L1, MODULUS_L2, MODULUS_L3];
    let f = FieldElement::from_limbs(below).unwrap();
    assert_eq!(f.limbs(), below);
    assert!(FieldElement::from_limbs([u64::MAX; 4]).is_none());
    assert!(FieldElement::from_limbs([0, 0, 0, MODULUS_L3 + 1]).is_none());
    assert!(FieldElement::from_limbs([u64::MAX, u64::MAX, u64::MAX, MODULUS_L3 - 1]).is_some());
}

#[test]
fn modulus_limbs_are_the_bn254_scalar_modulus() {
    let minus_one = fe(-Fr::from(1u64));
    assert_eq!(minus_one.limbs(), [MODULUS_L0 - 1, MODULUS_L1, MODULUS_L2, MODULUS_L3]);
    assert_eq!(Fr::MODULUS, BigInt::new([MODULUS_L0, MODULUS_L1, MODULUS_L2, MODULUS_L3]));
}

#[test]
fn limbs_round_trip_through_fr() {
    let v = Fr::from(0x1234_5678_9abc_def0u64) * Fr::from(0xfedc_ba98_7654_3210u64) * Fr::from(77u64);
    let f = fe(v);
    assert_eq!(Fr::from(BigInt::new(f.limbs())), v);
    assert_eq!(FieldElement::from_limbs(f.limbs()), Some(f));
}

#[test]
fn value_le_orders_by_integer() {
    let small = FieldElement::from_u64(5);
    let big = FieldElement::from_limbs([0, 0, 1, 0]).unwrap();
    let bigger = FieldElement::from_limbs([0, 1, 1, 0]).unwrap();
    assert!(small.value_le(&big));
    assert!(!big.value_le(&small));
    assert!(big.value_le(&bigger));
    assert!(!bigger.value_le(&big));
    assert!(big.value_le(&big));
    assert!(FieldElement::from_u64(10).value_le(&FieldElement::from_u64(10)));
    assert!(!FieldElement::from_u64(11).value_le(&FieldElement::from_u64(10)));
}
