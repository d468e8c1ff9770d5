use ark_ff::{BigInt, PrimeField as ArkPrimeField};
use ark_std::{rand::Rng, test_rng};
use ecfft_group::ecfft::{precompute, sub_coset};
use ecfft_group::field::PrimeField;
use ecfft_group::group_polynomial::DenseGroupPolynomial;
use ecfft_group::utils::isogeny::Isogeny;

/// The curve `y^2 = x^3 + a x + b` whose number of points is `2^14` times an
/// odd number: `a`, `b`, and the odd number.
const BN254_A: [u64; 4] = [
    0x0000000000000001,
    0x0000000000000000,
    0x0000000000000000,
    0x0000000000000000,
];
const BN254_B: [u64; 4] = [
    0x5dcdee14b5ed61a0,
    0x35df7da06ba32982,
    0x3bfb29b83daa1fd1,
    0x0c6871bc29d46163,
];
const BN254_ODD_PART: [u64; 4] = [
    0x5b02a0f3bb05935d,
    0x6176900cd4afa2be,
    0x80a6e14116da0605,
    0x0000c19139cb84c6,
];

/// The curve `y^2 = x^3 + a x + b` whose number of points is `2^15` times an
/// odd number: `a`, `b`, and the odd number.
const BLS12_381_A: [u64; 6] = [
    0xbaad66ae717c1df7,
    0x53670d336b09c058,
    0x46c9fe5288aa3e96,
    0x9bdcfc64938f9ad9,
    0x29fcbc12f57b2dd4,
    0x0287cc81c41f14f7,
];
const BLS12_381_B: [u64; 6] = [
    0xfea71c70514c6e54,
    0x4f9c971db67257ee,
    0x9792a15a4920e229,
    0xa70b11e6846d41e1,
    0x080f0ad4843e076d,
    0x033f44f9b6fd7ba0,
];
const BLS12_381_ODD_PART: [u64; 6] = [
    0x19b81165a03ef269,
    0xb7da07338d4069fd,
    0x257e4d0243c0b4ed,
    0x59aec8ee9709e70a,
    0xcd3496374f6c8697,
    0x0000340223d472ff,
];

/// The curve `y^2 = x^3 + a x + b` whose number of points is `2^16` times an
/// odd number: `a`, `b`, and the odd number.
const CURVE25519_A: [u64; 4] = [
    0x0000000000000001,
    0x0000000000000000,
    0x0000000000000000,
    0x0000000000000000,
];
const CURVE25519_B: [u64; 4] = [
    0x0000000000000d63,
    0x0000000000000000,
    0x0000000000000000,
    0x0000000000000000,
];
const CURVE25519_ODD_PART: [u64; 4] = [
    0x6f4c0d702747aac1,
    0xfffee712ed85e13c,
    0xffffffffffffffff,
    0x00007fffffffffff,
];

/// A point of a curve `y^2 = x^3 + a x + b`, or the point at infinity.
#[derive(Clone, Copy, PartialEq, Debug)]
enum Point<A> {
    Infinity,
    Affine(A, A),
}

#[derive(Clone, Copy)]
struct Curve<A> {
    a: A,
    b: A,
}

impl<A: ArkPrimeField> Curve<A> {
    fn add(&self, p: Point<A>, q: Point<A>) -> Point<A> {
        match (p, q) {
            (Point::Infinity, _) => q,
            (_, Point::Infinity) => p,
            (Point::Affine(x1, y1), Point::Affine(x2, y2)) => {
                let slope = if x1 == x2 {
                    if (y1 + y2).is_zero() {
                        return Point::Infinity;
                    }
                    (x1 * x1 * A::from(3u64) + self.a) / (y1 + y1)
                } else {
                    (y2 - y1) / (x2 - x1)
                };
                let x3 = slope * slope - x1 - x2;
                Point::Affine(x3, slope * (x1 - x3) - y1)
            }
        }
    }

    fn mul(&self, k: &[u64], p: Point<A>) -> Point<A> {
        let mut r = Point::Infinity;
        for limb in k.iter().rev() {
            for bit in (0..64).rev() {
                r = self.add(r, r);
                if (limb >> bit) & 1 == 1 {
                    r = self.add(r, p);
                }
            }
        }
        r
    }

    fn random_point<R: Rng>(&self, rng: &mut R) -> Point<A> {
        loop {
            let x = A::rand(rng);
            if let Some(y) = (x * x * x + self.a * x + self.b).sqrt() {
                return Point::Affine(x, y);
            }
        }
    }

    /// The isogeny whose kernel is made of the point at infinity and of
    /// the point `(x0, 0)`: the curve of its images, and the coefficients
    /// of its maps.
    fn two_isogeny(&self, x0: A) -> (Curve<A>, A, [Vec<A>; 4]) {
        let t = x0 * x0 * A::from(3u64) + self.a;
        let image = Curve {
            a: self.a - t * A::from(5u64),
            b: self.b - x0 * t * A::from(7u64),
        };
        let maps = [
            vec![t, -x0, A::one()],
            vec![-x0, A::one()],
            vec![x0 * x0 - t, -(x0 + x0), A::one()],
            vec![x0 * x0, -(x0 + x0), A::one()],
        ];
        (image, t, maps)
    }
}

fn image<A: ArkPrimeField>(x0: A, t: A, p: Point<A>) -> Point<A> {
    match p {
        Point::Infinity => Point::Infinity,
        Point::Affine(x, y) => {
            if x == x0 {
                return Point::Infinity;
            }
            let d = (x - x0).inverse().unwrap();
            Point::Affine(x + t * d, y * (A::one() - t * d * d))
        }
    }
}

/// A coset of `2^k` points of the curve, by the x-coordinates of its
/// points, and the tower of `k` isogenies on it, where the number of
/// points of the curve is `2^log_order * odd_part`.
fn tower<A: ArkPrimeField, L: PrimeField>(
    mut curve: Curve<A>,
    odd_part: &[u64],
    log_order: usize,
    k: usize,
    to_lib: fn(A) -> L,
) -> (Vec<L>, Vec<Isogeny<L>>) {
    let mut rng = test_rng();
    // a point of order 2^k
    let mut generator = loop {
        let g = curve.mul(odd_part, curve.random_point(&mut rng));
        let g = curve.mul(&[1u64 << (log_order - k)], g);
        if curve.mul(&[1u64 << (k - 1)], g) != Point::Infinity {
            assert_eq!(curve.mul(&[1u64 << k], g), Point::Infinity);
            break g;
        }
    };
    let coset = loop {
        let mut p = curve.random_point(&mut rng);
        let mut xs = Vec::new();
        for _ in 0..1usize << k {
            match p {
                Point::Affine(x, _) => xs.push(x),
                Point::Infinity => break,
            }
            p = curve.add(p, generator);
        }
        let mut sorted = xs.clone();
        sorted.sort();
        sorted.dedup();
        if sorted.len() == 1 << k {
            break xs;
        }
    };
    let mut isogenies = Vec::new();
    for i in 0..k {
        let order = 1u64 << (k - i);
        let x0 = match curve.mul(&[order / 2], generator) {
            Point::Affine(x0, y0) => {
                assert!(y0.is_zero());
                x0
            }
            Point::Infinity => unreachable!(),
        };
        let (next, t, maps) = curve.two_isogeny(x0);
        let [x_numerator, x_denominator, y_numerator, y_denominator] =
            maps.map(|m| m.into_iter().map(to_lib).collect::<Vec<_>>());
        isogenies.push(Isogeny {
            x_numerator,
            x_denominator,
            y_numerator,
            y_denominator,
        });
        generator = image(x0, t, generator);
        curve = next;
    }
    (coset.into_iter().map(to_lib).collect(), isogenies)
}

/// Holds the transform of polynomials of `2^j` coefficients, for each `j`
/// given, against the evaluation point by point, and the extension at
/// each level against the evaluation on `s_prime`.
fn check_tower<A: ArkPrimeField, L: PrimeField + PartialEq + std::fmt::Debug>(
    coset: &[L],
    isogenies: &[Isogeny<L>],
    k: usize,
    sizes: &[usize],
    to_lib: fn(A) -> L,
) {
    let precomputation = precompute(coset, isogenies).unwrap();
    assert_eq!(precomputation.coset_precomputations.len(), k + 1);
    assert_eq!(precomputation.coset_precomputations[0].steps.len(), k);
    let mut rng = test_rng();
    for j in sizes {
        let coeffs: Vec<L> = (0..1usize << j)
            .map(|_| to_lib(A::rand(&mut rng)))
            .collect();
        let poly = DenseGroupPolynomial { coeffs };
        let evals = sub_coset(coset, k - j)
            .iter()
            .map(|x| poly.evaluate(x))
            .collect::<Vec<_>>();
        assert_eq!(evals, precomputation.evaluate_over_domain(&poly));
    }
    let on_coset = &precomputation.coset_precomputations[0];
    for i in 1..=k {
        let coeffs: Vec<L> = (0..(1usize << k) >> i)
            .map(|_| to_lib(A::rand(&mut rng)))
            .collect();
        let poly = DenseGroupPolynomial { coeffs };
        let step = &on_coset.steps[i - 1];
        let evals_s = step.s.iter().map(|x| poly.evaluate(x)).collect::<Vec<_>>();
        let evals_s_prime = step
            .s_prime
            .iter()
            .map(|x| poly.evaluate(x))
            .collect::<Vec<_>>();
        assert_eq!(evals_s_prime, on_coset.extend(&evals_s));
    }
}

fn bn254(x: ark_bn254::Fq) -> ecfft_group::bn254::Fq {
    ecfft_group::bn254::Fq::from_limbs(x.into_bigint().0).unwrap()
}

fn bls12_381(x: ark_bls12_381::Fq) -> ecfft_group::bls12_381::Fq {
    ecfft_group::bls12_381::Fq::from_limbs(x.into_bigint().0).unwrap()
}

fn curve25519(x: ark_curve25519::Fq) -> ecfft_group::curve25519::Fq {
    ecfft_group::curve25519::Fq::from_limbs(x.into_bigint().0).unwrap()
}

fn bn254_curve() -> Curve<ark_bn254::Fq> {
    Curve {
        a: ark_bn254::Fq::from(BigInt::new(BN254_A)),
        b: ark_bn254::Fq::from(BigInt::new(BN254_B)),
    }
}

/// The transform on a coset of 512 points of the curve over the base
/// field of BN254.
#[test]
fn test_bn254_tower_of_nine_levels() {
    let k = 9;
    let (coset, isogenies) = tower(bn254_curve(), &BN254_ODD_PART, 14, k, bn254);
    check_tower(&coset, &isogenies, k, &[0, 1, 4, 8, 9], bn254);
}

/// The transform on a coset of 256 points of the curve over the base
/// field of BLS12-381.
#[test]
fn test_bls12_381_tower_of_eight_levels() {
    let k = 8;
    let curve = Curve {
        a: ark_bls12_381::Fq::from(BigInt::new(BLS12_381_A)),
        b: ark_bls12_381::Fq::from(BigInt::new(BLS12_381_B)),
    };
    let (coset, isogenies) = tower(curve, &BLS12_381_ODD_PART, 15, k, bls12_381);
    check_tower(&coset, &isogenies, k, &[0, 2, 5, 8], bls12_381);
}

/// The transform on a coset of 256 points of the curve over the base
/// field of Curve25519.
#[test]
fn test_curve25519_tower_of_eight_levels() {
    let k = 8;
    let curve = Curve {
        a: ark_curve25519::Fq::from(BigInt::new(CURVE25519_A)),
        b: ark_curve25519::Fq::from(BigInt::new(CURVE25519_B)),
    };
    let (coset, isogenies) = tower(curve, &CURVE25519_ODD_PART, 16, k, curve25519);
    check_tower(&coset, &isogenies, k, &[0, 3, 7, 8], curve25519);
}

/// The transform on the maximal coset of the curve over the base field of
/// BN254, of `2^14` points, against the evaluation at some of its points.
#[test]
fn test_bn254_maximal_coset() {
    let k = 14;
    let (coset, isogenies) = tower(bn254_curve(), &BN254_ODD_PART, 14, k, bn254);
    let precomputation = precompute(&coset, &isogenies).unwrap();
    assert_eq!(precomputation.coset_precomputations.len(), k + 1);
    let mut rng = test_rng();
    let coeffs: Vec<_> = (0..1usize << k).map(|_| bn254(rng.gen())).collect();
    let poly = DenseGroupPolynomial { coeffs };
    let evals = precomputation.evaluate_over_domain(&poly);
    assert_eq!(evals.len(), 1 << k);
    for _ in 0..32 {
        let i = rng.gen_range(0..1usize << k);
        assert_eq!(evals[i], poly.evaluate(&coset[i]));
    }
}
