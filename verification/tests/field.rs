use halo2_core::field::{FieldExt, Fp};

/// The little-endian encoding of the Pallas base field modulus.
fn modulus_repr() -> [u8; 32] {
    let limbs: [u64; 4] = [0x992d30ed00000001, 0x224698fc094cf91b, 0x0, 0x4000000000000000];
    let mut r = [0u8; 32];
    for (i, l) in limbs.iter().enumerate() {
        r[8 * i..8 * i + 8].copy_from_slice(&l.to_le_bytes());
    }
    r
}

fn small(v: u8) -> [u8; 32] {
    let mut r = [0u8; 32];
    r[0] = v;
    r
}

#[test]
fn zero_and_one_encode_as_integers() {
    assert_eq!(Fp::zero().to_repr(), small(0));
    assert_eq!(Fp::one().to_repr(), small(1));
}

#[test]
fn from_u128_encodes_little_endian() {
    let x = Fp::from_u128(0x0102_0304_0506_0708_090a_0b0c_0d0e_0f10);
    let r = x.to_repr();
    assert_eq!(r[0], 0x10);
    assert_eq!(r[15], 0x01);
    assert!(r[16..].iter().all(|b| *b == 0));
}

#[test]
fn addition_and_multiplication() {
    let a = Fp::from_u128(7);
    let b = Fp::from_u128(6);
    assert_eq!(a.add(&b).to_repr(), small(13));
    assert_eq!(a.mul(&b).to_repr(), small(42));
    assert_eq!(a.sub(&b).to_repr(), small(1));
}

#[test]
fn subtraction_wraps_around_the_modulus() {
    // 0 - 1 = p - 1
    let mut expected = modulus_repr();
    expected[0] -= 1;
    assert_eq!(Fp::zero().sub(&Fp::one()).to_repr(), expected);
    assert_eq!(Fp::one().neg().to_repr(), expected);
    assert_eq!(Fp::zero().neg().to_repr(), small(0));
}

#[test]
fn addition_wraps_around_the_modulus() {
    let minus_one = Fp::one().neg();
    assert_eq!(minus_one.add(&Fp::from_u128(3)).to_repr(), small(2));
}

#[test]
fn inversion() {
    let two = Fp::from_u128(2);
    let inv = two.invert().unwrap();
    assert_ne!(inv.to_repr(), two.to_repr());
    assert_eq!(two.mul(&inv).to_repr(), small(1));
    assert!(Fp::zero().invert().is_none());
}

#[test]
fn equality_by_value() {
    assert!(Fp::from_u128(5).equals(&Fp::from_u128(2).add(&Fp::from_u128(3))));
    assert!(!Fp::from_u128(5).equals(&Fp::from_u128(6)));
}

#[test]
fn decoding_refuses_the_modulus() {
    assert!(Fp::from_repr(modulus_repr()).is_none());
    let mut below = modulus_repr();
    below[0] -= 1;
    let x = Fp::from_repr(below).unwrap();
    assert_eq!(x.to_repr(), below);
    assert_eq!(x.add(&Fp::one()).to_repr(), small(0));
}

#[test]
fn from_u128_reduces_nothing_below_the_modulus() {
    let x = Fp::from_u128(u128::MAX);
    let r = x.to_repr();
    assert!(r[..16].iter().all(|b| *b == 0xff));
    assert!(r[16..].iter().all(|b| *b == 0));
}
