use ark_ff::{Field, PrimeField as ArkPrimeField, Zero};
use ark_std::{rand::Rng, test_rng};
use ecfft_group::field::{field_div, field_pow, from_i32, PrimeField};

/// The arithmetic of the field is that of `ark_bn254::Fq`.
#[test]
fn bn254_field_arithmetic() {
    type A = ark_bn254::Fq;
    type L = ecfft_group::bn254::Fq;
    let to_lib = |x: A| L::from_limbs(x.into_bigint().0).unwrap();
    let mut rng = test_rng();
    for _ in 0..50 {
        let a: A = rng.gen();
        let b: A = rng.gen();
        assert_eq!(to_lib(a).to_limbs(), a.into_bigint().0);
        assert_eq!(to_lib(a).field_add(&to_lib(b)), to_lib(a + b));
        assert_eq!(to_lib(a).field_sub(&to_lib(b)), to_lib(a - b));
        assert_eq!(to_lib(a).field_mul(&to_lib(b)), to_lib(a * b));
        assert_eq!(to_lib(a).field_neg(), to_lib(-a));
        assert_eq!(to_lib(a).inverse(), to_lib(a.inverse().unwrap()));
        assert_eq!(field_div(&to_lib(a), &to_lib(b)), to_lib(a / b));
        assert_eq!(field_pow(&to_lib(a), 1000), to_lib(a.pow([1000u64])));
        assert_eq!(to_lib(a).field_is_zero(), a.is_zero());
        let x: u128 = rng.gen();
        assert_eq!(L::from_u128(x), to_lib(A::from(x)));
        let i: i32 = rng.gen();
        assert_eq!(from_i32::<L>(i), to_lib(A::from(i)));
    }
    assert_eq!(L::field_zero(), to_lib(A::from(0u64)));
    assert!(L::field_zero().field_is_zero());
    assert!(!L::one().field_is_zero());
    assert_eq!(L::one(), to_lib(A::from(1u64)));
    assert_eq!(L::field_zero().field_neg(), L::field_zero());
    assert_eq!(L::one().inverse(), L::one());
    assert_eq!(from_i32::<L>(-1).field_add(&L::one()), L::field_zero());
}

/// The representatives are the integers below the modulus
/// `21888242871839275222246405745257275088696311157297823662689037894645226208583`.
#[test]
fn bn254_field_representatives() {
    type L = ecfft_group::bn254::Fq;
    let modulus: [u64; 4] = [
        0x3c208c16d87cfd47,
        0x97816a916871ca8d,
        0xb85045b68181585d,
        0x30644e72e131a029,
    ];
    let below: [u64; 4] = [
        0x3c208c16d87cfd46,
        0x97816a916871ca8d,
        0xb85045b68181585d,
        0x30644e72e131a029,
    ];
    assert_eq!(L::limbs(), 4);
    assert!(L::from_limbs(modulus).is_none());
    assert!(L::from_limbs([u64::MAX; 4]).is_none());
    assert_eq!(L::from_limbs(below), Some(from_i32::<L>(-1)));
    assert_eq!(L::from_limbs([0; 4]), Some(L::field_zero()));
    assert_eq!(L::from_limbs([1, 0, 0, 0]), Some(L::one()));
    assert_eq!(L::from_words(&below), Some(from_i32::<L>(-1)));
    assert_eq!(L::from_words(&modulus), None);
    assert_eq!(L::from_words(&below[..3]), None);
    assert_eq!(L::from_words(&[0; 5]), None);
    assert_eq!(
        L::from_u128(u128::MAX).to_limbs(),
        [u64::MAX, u64::MAX, 0, 0]
    );
}

/// The arithmetic of the field is that of `ark_bls12_381::Fq`.
#[test]
fn bls12_381_field_arithmetic() {
    type A = ark_bls12_381::Fq;
    type L = ecfft_group::bls12_381::Fq;
    let to_lib = |x: A| L::from_limbs(x.into_bigint().0).unwrap();
    let mut rng = test_rng();
    for _ in 0..50 {
        let a: A = rng.gen();
        let b: A = rng.gen();
        assert_eq!(to_lib(a).to_limbs(), a.into_bigint().0);
        assert_eq!(to_lib(a).field_add(&to_lib(b)), to_lib(a + b));
        assert_eq!(to_lib(a).field_sub(&to_lib(b)), to_lib(a - b));
        assert_eq!(to_lib(a).field_mul(&to_lib(b)), to_lib(a * b));
        assert_eq!(to_lib(a).field_neg(), to_lib(-a));
        assert_eq!(to_lib(a).inverse(), to_lib(a.inverse().unwrap()));
        assert_eq!(field_div(&to_lib(a), &to_lib(b)), to_lib(a / b));
        assert_eq!(field_pow(&to_lib(a), 1000), to_lib(a.pow([1000u64])));
        assert_eq!(to_lib(a).field_is_zero(), a.is_zero());
        let x: u128 = rng.gen();
        assert_eq!(L::from_u128(x), to_lib(A::from(x)));
        let i: i32 = rng.gen();
        assert_eq!(from_i32::<L>(i), to_lib(A::from(i)));
    }
    assert_eq!(L::field_zero(), to_lib(A::from(0u64)));
    assert!(L::field_zero().field_is_zero());
    assert!(!L::one().field_is_zero());
    assert_eq!(L::one(), to_lib(A::from(1u64)));
    assert_eq!(L::field_zero().field_neg(), L::field_zero());
    assert_eq!(L::one().inverse(), L::one());
    assert_eq!(from_i32::<L>(-1).field_add(&L::one()), L::field_zero());
}

/// The representatives are the integers below the modulus
/// `4002409555221667393417789825735904156556882819939007885332058136124031650490837864442687629129015664037894272559787`.
#[test]
fn bls12_381_field_representatives() {
    type L = ecfft_group::bls12_381::Fq;
    let modulus: [u64; 6] = [
        0xb9feffffffffaaab,
        0x1eabfffeb153ffff,
        0x6730d2a0f6b0f624,
        0x64774b84f38512bf,
        0x4b1ba7b6434bacd7,
        0x1a0111ea397fe69a,
    ];
    let below: [u64; 6] = [
        0xb9feffffffffaaaa,
        0x1eabfffeb153ffff,
        0x6730d2a0f6b0f624,
        0x64774b84f38512bf,
        0x4b1ba7b6434bacd7,
        0x1a0111ea397fe69a,
    ];
    assert_eq!(L::limbs(), 6);
    assert!(L::from_limbs(modulus).is_none());
    assert!(L::from_limbs([u64::MAX; 6]).is_none());
    assert_eq!(L::from_limbs(below), Some(from_i32::<L>(-1)));
    assert_eq!(L::from_limbs([0; 6]), Some(L::field_zero()));
    assert_eq!(L::from_limbs([1, 0, 0, 0, 0, 0]), Some(L::one()));
    assert_eq!(L::from_words(&below), Some(from_i32::<L>(-1)));
    assert_eq!(L::from_words(&modulus), None);
    assert_eq!(L::from_words(&below[..5]), None);
    assert_eq!(L::from_words(&[0; 7]), None);
    assert_eq!(
        L::from_u128(u128::MAX).to_limbs(),
        [u64::MAX, u64::MAX, 0, 0, 0, 0]
    );
}

/// The arithmetic of the field is that of `ark_curve25519::Fq`.
#[test]
fn curve25519_field_arithmetic() {
    type A = ark_curve25519::Fq;
    type L = ecfft_group::curve25519::Fq;
    let to_lib = |x: A| L::from_limbs(x.into_bigint().0).unwrap();
    let mut rng = test_rng();
    for _ in 0..50 {
        let a: A = rng.gen();
        let b: A = rng.gen();
        assert_eq!(to_lib(a).to_limbs(), a.into_bigint().0);
        assert_eq!(to_lib(a).field_add(&to_lib(b)), to_lib(a + b));
        assert_eq!(to_lib(a).field_sub(&to_lib(b)), to_lib(a - b));
        assert_eq!(to_lib(a).field_mul(&to_lib(b)), to_lib(a * b));
        assert_eq!(to_lib(a).field_neg(), to_lib(-a));
        assert_eq!(to_lib(a).inverse(), to_lib(a.inverse().unwrap()));
        assert_eq!(field_div(&to_lib(a), &to_lib(b)), to_lib(a / b));
        assert_eq!(field_pow(&to_lib(a), 1000), to_lib(a.pow([1000u64])));
        assert_eq!(to_lib(a).field_is_zero(), a.is_zero());
        let x: u128 = rng.gen();
        assert_eq!(L::from_u128(x), to_lib(A::from(x)));
        let i: i32 = rng.gen();
        assert_eq!(from_i32::<L>(i), to_lib(A::from(i)));
    }
    assert_eq!(L::field_zero(), to_lib(A::from(0u64)));
    assert!(L::field_zero().field_is_zero());
    assert!(!L::one().field_is_zero());
    assert_eq!(L::one(), to_lib(A::from(1u64)));
    assert_eq!(L::field_zero().field_neg(), L::field_zero());
    assert_eq!(L::one().inverse(), L::one());
    assert_eq!(from_i32::<L>(-1).field_add(&L::one()), L::field_zero());
}

/// The representatives are the integers below the modulus
/// `57896044618658097711785492504343953926634992332820282019728792003956564819949`.
#[test]
fn curve25519_field_representatives() {
    type L = ecfft_group::curve25519::Fq;
    let modulus: [u64; 4] = [
        0xffffffffffffffed,
        0xffffffffffffffff,
        0xffffffffffffffff,
        0x7fffffffffffffff,
    ];
    let below: [u64; 4] = [
        0xffffffffffffffec,
        0xffffffffffffffff,
        0xffffffffffffffff,
        0x7fffffffffffffff,
    ];
    assert_eq!(L::limbs(), 4);
    assert!(L::from_limbs(modulus).is_none());
    assert!(L::from_limbs([u64::MAX; 4]).is_none());
    assert_eq!(L::from_limbs(below), Some(from_i32::<L>(-1)));
    assert_eq!(L::from_limbs([0; 4]), Some(L::field_zero()));
    assert_eq!(L::from_limbs([1, 0, 0, 0]), Some(L::one()));
    assert_eq!(L::from_words(&below), Some(from_i32::<L>(-1)));
    assert_eq!(L::from_words(&modulus), None);
    assert_eq!(L::from_words(&below[..3]), None);
    assert_eq!(L::from_words(&[0; 5]), None);
    assert_eq!(
        L::from_u128(u128::MAX).to_limbs(),
        [u64::MAX, u64::MAX, 0, 0]
    );
}

/// The arithmetic of the field is that of `ark_ed25519::Fr`.
#[test]
fn ed25519sc_field_arithmetic() {
    type A = ark_ed25519::Fr;
    type L = ecfft_group::ed25519sc::Fr;
    let to_lib = |x: A| L::from_limbs(x.into_bigint().0).unwrap();
    let mut rng = test_rng();
    for _ in 0..50 {
        let a: A = rng.gen();
        let b: A = rng.gen();
        assert_eq!(to_lib(a).to_limbs(), a.into_bigint().0);
        assert_eq!(to_lib(a).field_add(&to_lib(b)), to_lib(a + b));
        assert_eq!(to_lib(a).field_sub(&to_lib(b)), to_lib(a - b));
        assert_eq!(to_lib(a).field_mul(&to_lib(b)), to_lib(a * b));
        assert_eq!(to_lib(a).field_neg(), to_lib(-a));
        assert_eq!(to_lib(a).inverse(), to_lib(a.inverse().unwrap()));
        assert_eq!(field_div(&to_lib(a), &to_lib(b)), to_lib(a / b));
        assert_eq!(field_pow(&to_lib(a), 1000), to_lib(a.pow([1000u64])));
        assert_eq!(to_lib(a).field_is_zero(), a.is_zero());
        let x: u128 = rng.gen();
        assert_eq!(L::from_u128(x), to_lib(A::from(x)));
        let i: i32 = rng.gen();
        assert_eq!(from_i32::<L>(i), to_lib(A::from(i)));
    }
    assert_eq!(L::field_zero(), to_lib(A::from(0u64)));
    assert!(L::field_zero().field_is_zero());
    assert!(!L::one().field_is_zero());
    assert_eq!(L::one(), to_lib(A::from(1u64)));
    assert_eq!(L::field_zero().field_neg(), L::field_zero());
    assert_eq!(L::one().inverse(), L::one());
    assert_eq!(from_i32::<L>(-1).field_add(&L::one()), L::field_zero());
}

/// The representatives are the integers below the modulus
/// `7237005577332262213973186563042994240857116359379907606001950938285454250989`.
#[test]
fn ed25519sc_field_representatives() {
    type L = ecfft_group::ed25519sc::Fr;
    let modulus: [u64; 4] = [
        0x5812631a5cf5d3ed,
        0x14def9dea2f79cd6,
        0x0000000000000000,
        0x1000000000000000,
    ];
    let below: [u64; 4] = [
        0x5812631a5cf5d3ec,
        0x14def9dea2f79cd6,
        0x0000000000000000,
        0x1000000000000000,
    ];
    assert_eq!(L::limbs(), 4);
    assert!(L::from_limbs(modulus).is_none());
    assert!(L::from_limbs([u64::MAX; 4]).is_none());
    assert_eq!(L::from_limbs(below), Some(from_i32::<L>(-1)));
    assert_eq!(L::from_limbs([0; 4]), Some(L::field_zero()));
    assert_eq!(L::from_limbs([1, 0, 0, 0]), Some(L::one()));
    assert_eq!(L::from_words(&below), Some(from_i32::<L>(-1)));
    assert_eq!(L::from_words(&modulus), None);
    assert_eq!(L::from_words(&below[..3]), None);
    assert_eq!(L::from_words(&[0; 5]), None);
    assert_eq!(
        L::from_u128(u128::MAX).to_limbs(),
        [u64::MAX, u64::MAX, 0, 0]
    );
}
