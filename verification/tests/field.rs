use whir::bn254::FieldBn256;
use whir::field::PrimeField;

type F = FieldBn256;

const ORDER: [u64; 4] = [0x43e1f593f0000001, 0x2833e84879b97091, 0xb85045b68181585d, 0x30644e72e131a029];

fn f(x: u64) -> F {
    F::from_u64(x)
}

fn minus_one() -> F {
    F::from_limbs([ORDER[0] - 1, ORDER[1], ORDER[2], ORDER[3]]).unwrap()
}

#[test]
fn only_reduced_numbers_are_elements() {
    assert!(F::from_limbs(ORDER).is_none());
    assert!(F::from_limbs([u64::MAX; 4]).is_none());
    assert!(F::from_limbs([0, 0, 0, ORDER[3] + 1]).is_none());
    assert_eq!(minus_one().to_limbs(), [ORDER[0] - 1, ORDER[1], ORDER[2], ORDER[3]]);
    assert_eq!(F::from_limbs([1, 2, 3, 4]).unwrap().to_limbs(), [1, 2, 3, 4]);
}

#[test]
fn arithmetic_is_modulo_the_order() {
    assert_eq!(f(3).plus(f(4)), f(7));
    assert_eq!(minus_one().plus(f(2)), F::one());
    assert_eq!(f(3).minus(f(4)), minus_one());
    assert_eq!(f(10).minus(f(4)), f(6));
    assert_eq!(f(6).times(f(7)), f(42));
    assert_eq!(minus_one().times(minus_one()), F::one());
    assert_eq!(f(u64::MAX).times(f(2)).to_limbs(), [u64::MAX - 1, 1, 0, 0]);
    assert_eq!(f(2).pow(10), f(1024));
    assert_eq!(f(2).pow(64).to_limbs(), [0, 1, 0, 0]);
    assert_eq!(f(5).pow(0), F::one());
    assert_eq!(F::zero().pow(0), F::one());
    assert!(f(5).equals(f(5)));
    assert!(!f(5).equals(f(6)));
}

#[test]
fn inverses() {
    assert!(F::zero().inverse().is_none());
    assert_eq!(f(7).inverse().unwrap().times(f(7)), F::one());
    assert_eq!(F::one().inverse().unwrap(), F::one());
    assert_eq!(
        f(2).inverse().unwrap().to_limbs(),
        [0xa1f0fac9f8000001, 0x9419f4243cdcb848, 0xdc2822db40c0ac2e, 0x183227397098d014]
    );
}

#[test]
fn encodings() {
    let mut buf = vec![9u8];
    f(0x0102).serialize_uncompressed(&mut buf);
    assert_eq!(buf.len(), 1 + F::encoded_len());
    assert_eq!(buf[..4], [9, 2, 1, 0]);
    assert_eq!(F::deserialize_uncompressed(&buf[1..]), Some(f(0x0102)));
    assert_eq!(F::deserialize_uncompressed(&[255u8; 32]), None);
    let order: Vec<u8> = ORDER.iter().flat_map(|limb| limb.to_le_bytes()).collect();
    assert_eq!(F::deserialize_uncompressed(&order), None);
    let reversed: Vec<u8> = order.iter().rev().copied().collect();
    assert_eq!(F::from_be_bytes_mod_order(&reversed), F::zero());
    assert_eq!(F::from_be_bytes_mod_order(&[1, 2, 3]), f(0x010203));
    assert_eq!(F::from_be_bytes_mod_order(&[]), F::zero());
}
