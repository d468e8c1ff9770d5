use ark_ff::PrimeField as ArkPrimeField;
use ark_std::{rand::Rng, test_rng};
use ecfft_group::bn254::Fq;
use ecfft_group::utils::f17::F17;
use ecfft_group::utils::matrix::Matrix;

type F = ark_bn254::Fq;

fn to_lib(x: F) -> Fq {
    Fq::from_limbs(x.into_bigint().0).unwrap()
}

#[test]
fn test_inverse() {
    let mut rng = test_rng();
    for _ in 0..100 {
        let a: F = rng.gen();
        let b: F = rng.gen();
        let c: F = rng.gen();
        let d: F = rng.gen();
        let mat = Matrix([[to_lib(a), to_lib(b)], [to_lib(c), to_lib(d)]]);
        let mat_inv = mat.inverse();
        let x: F = rng.gen();
        let y: F = rng.gen();
        let v = [to_lib(x), to_lib(y)];

        assert_eq!(v, mat_inv.multiply(mat.multiply(v)));
        assert_eq!(v, mat.multiply(mat_inv.multiply(v)));
    }
}

/// The entries of the inverse are those of the outside field arithmetic.
#[test]
fn inverse_entries() {
    let mut rng = test_rng();
    for _ in 0..20 {
        let a: F = rng.gen();
        let b: F = rng.gen();
        let c: F = rng.gen();
        let d: F = rng.gen();
        let det = a * d - b * c;
        let inv = Matrix([[to_lib(a), to_lib(b)], [to_lib(c), to_lib(d)]]).inverse();
        assert_eq!(inv.0[0][0], to_lib(d / det));
        assert_eq!(inv.0[0][1], to_lib(-b / det));
        assert_eq!(inv.0[1][0], to_lib(-c / det));
        assert_eq!(inv.0[1][1], to_lib(a / det));
    }
}

#[test]
fn inverse_over_f17() {
    // [[1, 2], [3, 4]] has determinant -2 = 15, whose inverse is 8
    let f = |x: u64| F17::new(x);
    let mat = Matrix([[f(1), f(2)], [f(3), f(4)]]);
    let inv = mat.inverse();
    assert_eq!(inv.0, [[f(15), f(1)], [f(10), f(8)]]);
    assert_eq!(mat.try_inverse().map(|m| m.0), Some(inv.0));
    assert_eq!(inv.inverse().0, mat.0);
}

#[test]
fn singular_matrix_has_no_inverse() {
    let f = |x: u64| F17::new(x);
    assert!(Matrix([[f(1), f(2)], [f(2), f(4)]]).try_inverse().is_none());
    assert!(Matrix([[f(0), f(0)], [f(0), f(0)]]).try_inverse().is_none());
    // 5 * 7 - 1 * 1 = 34 = 0
    assert!(Matrix([[f(5), f(1)], [f(1), f(7)]]).try_inverse().is_none());
}

#[test]
fn multiply_is_row_major() {
    let f = |x: u64| F17::new(x);
    let mat = Matrix([[f(1), f(2)], [f(3), f(4)]]);
    // [1 * 5 + 2 * 6, 3 * 5 + 4 * 6] = [17, 39]
    assert_eq!(mat.multiply([f(5), f(6)]), [f(0), f(5)]);
    let mut x = f(5);
    let mut y = f(6);
    mat.multiply_in_place(&mut x, &mut y);
    assert_eq!((x, y), (f(0), f(5)));
}
