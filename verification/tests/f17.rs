use ecfft_group::field::{field_div, field_eq, field_pow, from_i32, PrimeField};
use ecfft_group::group_laws::{group_eq, group_vec_eq};
use ecfft_group::my_group::MyGroup;
use ecfft_group::utils::f17::{F17Config, F17};

#[test]
fn f17_config() {
    assert_eq!(F17Config::MODULUS, 17);
    assert_eq!(F17Config::GENERATOR, 3);
    // 3 generates the multiplicative group: its powers are all nonzero elements
    let g = F17::new(F17Config::GENERATOR);
    let mut seen = [false; 17];
    let mut x = F17::one();
    for _ in 0..16 {
        x = x.field_mul(&g);
        assert!(!seen[x.to_u64() as usize]);
        seen[x.to_u64() as usize] = true;
    }
    assert_eq!(x, F17::one());
}

#[test]
fn f17_arithmetic() {
    let a = F17::new(12);
    let b = F17::new(9);
    assert_eq!(a.field_add(&b), F17::new(4));
    assert_eq!(a.field_sub(&b), F17::new(3));
    assert_eq!(b.field_sub(&a), F17::new(14));
    assert_eq!(a.field_mul(&b), F17::new(6));
    assert_eq!(a.field_neg(), F17::new(5));
    assert_eq!(F17::field_zero().field_neg(), F17::new(0));
    assert_eq!(F17::new(17 + 5), F17::new(5));
    assert_eq!(F17::from_u128(1u128 << 100), F17::new(16));
    assert!(F17::new(34).field_is_zero());
    assert!(!F17::new(35).field_is_zero());
}

#[test]
fn f17_inverse_of_each_nonzero_element() {
    for a in 1..17u64 {
        let x = F17::new(a);
        let i = x.inverse();
        assert_eq!(x.field_mul(&i), F17::one());
        assert_eq!(field_div(&F17::new(5), &x).field_mul(&x), F17::new(5));
    }
    assert_eq!(F17::new(2).inverse(), F17::new(9));
    assert_eq!(field_div(&F17::new(3), &F17::new(4)), F17::new(5));
}

#[test]
fn f17_power() {
    assert_eq!(field_pow(&F17::new(3), 0), F17::new(1));
    assert_eq!(field_pow(&F17::new(0), 0), F17::new(1));
    assert_eq!(field_pow(&F17::new(0), 5), F17::new(0));
    assert_eq!(field_pow(&F17::new(3), 5), F17::new(5));
    assert_eq!(field_pow(&F17::new(2), 10), F17::new(4));
    assert_eq!(field_pow(&F17::new(7), 16), F17::new(1));
    assert_eq!(field_pow(&F17::new(7), u64::MAX), F17::new(5));
}

#[test]
fn f17_from_signed() {
    assert_eq!(from_i32::<F17>(0), F17::new(0));
    assert_eq!(from_i32::<F17>(20), F17::new(3));
    assert_eq!(from_i32::<F17>(-1), F17::new(16));
    assert_eq!(from_i32::<F17>(-17), F17::new(0));
    assert_eq!(from_i32::<F17>(-20), F17::new(14));
    // -2^31 = -2147483648, and 2147483648 = 17 * 126322567 + 9
    assert_eq!(from_i32::<F17>(i32::MIN), F17::new(8));
    assert_eq!(from_i32::<F17>(i32::MAX), F17::new(8));
}

#[test]
fn f17_from_words() {
    assert_eq!(F17::limbs(), 1);
    assert_eq!(F17::from_words(&[16]), Some(F17::new(16)));
    assert_eq!(F17::from_words(&[17]), None);
    assert_eq!(F17::from_words(&[]), None);
    assert_eq!(F17::from_words(&[1, 0]), None);
}

#[test]
fn f17_as_group() {
    let a = F17::new(12);
    let b = F17::new(9);
    assert_eq!(MyGroup::add(&a, &b), F17::new(4));
    assert_eq!(MyGroup::sub(&a, &b), F17::new(3));
    assert_eq!(MyGroup::neg(&a), F17::new(5));
    assert_eq!(MyGroup::mul(&a, &b), F17::new(6));
    assert_eq!(<F17 as MyGroup>::zero(), F17::new(0));
    assert!(MyGroup::is_zero(&F17::new(0)));
    assert!(!MyGroup::is_zero(&a));
    assert_eq!(<F17 as MyGroup>::generator(), F17::new(1));
}

#[test]
fn f17_equality() {
    for a in 0..17u64 {
        for b in 0..17u64 {
            assert_eq!(field_eq(&F17::new(a), &F17::new(b)), a == b);
            assert_eq!(group_eq(&F17::new(a), &F17::new(b)), a == b);
        }
    }
    let v = |x: &[u64]| x.iter().map(|a| F17::new(*a)).collect::<Vec<_>>();
    assert!(group_vec_eq(&v(&[]), &v(&[])));
    assert!(group_vec_eq(&v(&[1, 2, 3]), &v(&[1, 2, 20])));
    assert!(!group_vec_eq(&v(&[1, 2, 3]), &v(&[1, 2, 4])));
    assert!(!group_vec_eq(&v(&[1, 2, 3]), &v(&[1, 2])));
    assert!(!group_vec_eq(&v(&[]), &v(&[0])));
}
