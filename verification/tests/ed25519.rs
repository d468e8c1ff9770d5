use ark_ec::Group;
use ark_ff::{Field, PrimeField as ArkPrimeField, Zero};
use ark_std::{rand::Rng, test_rng, UniformRand};
use ecfft_group::ecfft::ecfft_tests;
use ecfft_group::ecfft::read_ecfft::{read_elements, read_isogenies};
use ecfft_group::ecfft::{precompute, sub_coset, EcFftPrecomputation};
use ecfft_group::ed25519sc::Fr;
use ecfft_group::field::from_i32;
use ecfft_group::group_polynomial::DenseGroupPolynomial;
use ecfft_group::my_group::MyGroup;
use ecfft_group::utils::isogeny::Isogeny;
use ecfft_group::vandermonde::{small_vandermonde_left_multiply, VandermondeMatrix};

type G = ark_ed25519::EdwardsProjective;
type F = ark_ed25519::Fr;

fn to_lib(x: F) -> Fr {
    Fr::from_limbs(x.into_bigint().0).unwrap()
}

fn to_ark(x: &Fr) -> F {
    F::from(ark_ff::BigInt::new(x.to_limbs()))
}

/// A point of the curve Ed25519, as a coefficient group over its scalar
/// field.
#[derive(Clone, Copy, Debug, PartialEq, Eq)]
struct Point(G);

impl MyGroup for Point {
    type ScalarField = Fr;

    fn wf(&self) -> bool {
        unreachable!()
    }

    fn spec_zero() -> Self {
        unreachable!()
    }

    fn spec_add(self, _rhs: Self) -> Self {
        unreachable!()
    }

    fn spec_neg(self) -> Self {
        unreachable!()
    }

    fn spec_mul(self, _scalar: Fr) -> Self {
        unreachable!()
    }

    fn lemma_zero_wf() {}

    fn lemma_closed(_a: Self, _b: Self, _k: Fr) {}

    fn lemma_add_assoc(_a: Self, _b: Self, _c: Self) {}

    fn lemma_add_comm(_a: Self, _b: Self) {}

    fn lemma_add_zero(_a: Self) {}

    fn lemma_add_neg(_a: Self) {}

    fn lemma_mul_one(_a: Self, _one: Fr) {}

    fn lemma_mul_add(_a: Self, _j: Fr, _k: Fr, _sum: Fr) {}

    fn lemma_mul_mul(_a: Self, _j: Fr, _k: Fr, _product: Fr) {}

    fn lemma_mul_distrib(_a: Self, _b: Self, _k: Fr) {}

    fn zero() -> Self {
        Point(G::zero())
    }

    fn is_zero(&self) -> bool {
        self.0.is_zero()
    }

    fn add(&self, rhs: &Self) -> Self {
        Point(self.0 + rhs.0)
    }

    fn sub(&self, rhs: &Self) -> Self {
        Point(self.0 - rhs.0)
    }

    fn neg(&self) -> Self {
        Point(-self.0)
    }

    fn mul(&self, scalar: &Fr) -> Self {
        Point(self.0 * to_ark(scalar))
    }

    fn generator() -> Self {
        Point(<G as Group>::generator())
    }
}

/// evaluate a random polynomial with coefficients in ed25519
/// using both normal evaluation and small one and compare they are equal
#[test]
fn evaluate_small_rng_ed25519() {
    let mut rng = test_rng();
    let deg = 10;
    for _i in 0..10 {
        let coeffs: Vec<Point> = (0..=deg).map(|_| Point(G::rand(&mut rng))).collect();
        let poly = DenseGroupPolynomial { coeffs };
        let point: i32 = i32::rand(&mut rng);
        assert_eq!(
            poly.evaluate(&to_lib(F::from(point))),
            poly.evaluate_small(point)
        );
        assert_ne!(
            poly.evaluate(&to_lib(F::from(point))),
            poly.evaluate_small(point + 1)
        );
    }
}

#[test]
fn test_scalar_mult_2() {
    // Multiply a random point by 2
    let mut rng = test_rng();
    let pt: G = rng.gen();
    let sc: F = F::from(2);
    let doubled = Point(pt).mul(&to_lib(sc));
    assert_eq!(doubled, Point(pt + pt));
    assert_eq!(doubled, Point(pt).add(&Point(pt)));
}

/// The evaluation is that of the outside group arithmetic, point by point.
#[test]
fn evaluate_agrees_with_outside_arithmetic() {
    let mut rng = test_rng();
    for n in 0..6usize {
        let coeffs: Vec<G> = (0..n).map(|_| G::rand(&mut rng)).collect();
        let x: F = rng.gen();
        let mut expected = G::zero();
        let mut power = F::from(1u64);
        for c in coeffs.iter() {
            expected += *c * power;
            power *= x;
        }
        let poly = DenseGroupPolynomial {
            coeffs: coeffs.iter().map(|c| Point(*c)).collect(),
        };
        assert_eq!(poly.evaluate(&to_lib(x)), Point(expected));
    }
}

#[test]
fn evaluate_small_on_signed_points() {
    let mut rng = test_rng();
    let coeffs: Vec<Point> = (0..7).map(|_| Point(G::rand(&mut rng))).collect();
    let poly = DenseGroupPolynomial { coeffs };
    for point in [
        0,
        1,
        -1,
        2,
        -2,
        1000,
        -1000,
        i32::MAX,
        i32::MIN,
        i32::MIN + 1,
    ] {
        assert_eq!(
            poly.evaluate(&to_lib(F::from(point))),
            poly.evaluate_small(point)
        );
        assert_eq!(
            poly.evaluate(&from_i32::<Fr>(point)),
            poly.evaluate_small(point)
        );
    }
}

/// Logarithm of the size of the coset below.
const LOG_N: usize = 4;

/// The x-coordinates of the points `Q + i * G` of the curve `y^2 = x^3 + a x + b`
/// over the scalar field of Ed25519, for a point `G` of order 16, with
/// `a = 728973731357431112028631196437072450806643659491644282008292911234441601869`
/// and `b = 3889008552641873785518541818361160272832691642198136300680026757439599310601`.
const COSET: [[u64; 4]; 16] = [
    [
        0x708a8d146a2254b2,
        0x5f2b18db064a2c49,
        0x0700937ba99d4575,
        0x0c6e0d1fde372e88,
    ],
    [
        0x836dd74b718f0f1f,
        0x9de7724dd1ee5e14,
        0x6b80f4566e8f6eab,
        0x037b47fcc0806b0f,
    ],
    [
        0x3b7a6470240e3e64,
        0x849993d57b33cff7,
        0x75221ed4b6e95d72,
        0x00810785e071db05,
    ],
    [
        0xb200fe7db0833ee2,
        0x70c9d7adacf2fef8,
        0xdd591a535b1cb45b,
        0x086ec2c84b2a4a4b,
    ],
    [
        0x3a9220249307a1a1,
        0xcfa0a168a37c609b,
        0x78bc0f3891ff8c2d,
        0x079888072c371031,
    ],
    [
        0xde967a87f6d9ef5e,
        0xa4dad8a9c53db27a,
        0x4796dd90dd7dea7d,
        0x00e4a59d0fc84532,
    ],
    [
        0x792b2950cc1f0689,
        0x1e95be9ca07e22fb,
        0xdccb674540c78219,
        0x0580065eaa0fb9aa,
    ],
    [
        0x82b4f80095a00652,
        0x27885fd44f2e2a18,
        0xcfa047b3c3938c73,
        0x033018505a36ac1f,
    ],
    [
        0x03917fcbbf2b11bc,
        0xf31b02a267ed2db1,
        0xcc9c6f29bcbfb5d4,
        0x0963106b1d4513c9,
    ],
    [
        0x16ddf308f001dd77,
        0x90138cee69251715,
        0x0896cb74a0c0f646,
        0x0bfdc519e1f68bc5,
    ],
    [
        0xba75793c8db7b949,
        0x968b0f026b7b289c,
        0xefc435610e859874,
        0x0c58deb70baa9171,
    ],
    [
        0xbcac0121211659e5,
        0x7ce41ebe586b48af,
        0xf127d3996eff297b,
        0x018d32aff80686f6,
    ],
    [
        0x32781d9d2c4d18e3,
        0xe7f0b0f2f1066ee5,
        0xda20b654331d5cd6,
        0x0ea27e995925a65f,
    ],
    [
        0xfe8277d633633f2e,
        0x551417e2e5e24830,
        0xad8b4d5e02824e3f,
        0x07b9d26b84e3ce6e,
    ],
    [
        0x35f6774fe9de260a,
        0x0aca33295383f42e,
        0x50a525da551657e9,
        0x0034e9c4e323cbfb,
    ],
    [
        0x55480fb472b63eb0,
        0x895f8a2fed38d23e,
        0x454ef87b830396c8,
        0x0b63586cf8481eb8,
    ],
];

/// The isogenies of the tower, each by the coefficients of the numerator
/// and of the denominator of its map on `x` and on `y`.
const ISOGENIES: [[[u64; 4]; 11]; 4] = [
    [
        [
            0xd6fdf8e34b592ee3,
            0x0c8e7dbacee2925f,
            0x4e94781fdbd65502,
            0x0cd2e19ac47d28de,
        ],
        [
            0xe60248db19164d3f,
            0xdca4f6dd9b73f4a7,
            0xdd2a8355a7a96564,
            0x0fef54321439ddd4,
        ],
        [
            0x0000000000000001,
            0x0000000000000000,
            0x0000000000000000,
            0x0000000000000000,
        ],
        [
            0xe60248db19164d3f,
            0xdca4f6dd9b73f4a7,
            0xdd2a8355a7a96564,
            0x0fef54321439ddd4,
        ],
        [
            0x0000000000000001,
            0x0000000000000000,
            0x0000000000000000,
            0x0000000000000000,
        ],
        [
            0x075962942362af8b,
            0x4e2dde6b38cf2870,
            0xa19605db2e8845a0,
            0x0c3f37b7feadf181,
        ],
        [
            0x73f22e9bd536c691,
            0xa46af3dc93f04c79,
            0xba5506ab4f52cac9,
            0x0fdea8642873bba9,
        ],
        [
            0x0000000000000001,
            0x0000000000000000,
            0x0000000000000000,
            0x0000000000000000,
        ],
        [
            0x8644f85d11c60a81,
            0x45dd624764ba1df9,
            0xf02a7dfb0a5e9aa2,
            0x09121952c32b1a5f,
        ],
        [
            0x73f22e9bd536c691,
            0xa46af3dc93f04c79,
            0xba5506ab4f52cac9,
            0x0fdea8642873bba9,
        ],
        [
            0x0000000000000001,
            0x0000000000000000,
            0x0000000000000000,
            0x0000000000000000,
        ],
    ],
    [
        [
            0x1d4f8e76e905aea8,
            0xa9dd7d45f86b733d,
            0xf7c6140cbf9c5d45,
            0x0325b3ed69329de0,
        ],
        [
            0x821449a072515692,
            0xff049c3af827756a,
            0x168e8aedca9d2251,
            0x0fc63ab4db31b75f,
        ],
        [
            0x0000000000000001,
            0x0000000000000000,
            0x0000000000000000,
            0x0000000000000000,
        ],
        [
            0x821449a072515692,
            0xff049c3af827756a,
            0x168e8aedca9d2251,
            0x0fc63ab4db31b75f,
        ],
        [
            0x0000000000000001,
            0x0000000000000000,
            0x0000000000000000,
            0x0000000000000000,
        ],
        [
            0x01564dd5f23ff1f7,
            0x2cc8652810fb8117,
            0x5e6c661d05142321,
            0x0d6778d82db03cf2,
        ],
        [
            0xac16302687acd937,
            0xe92a3e974d574dfe,
            0x2d1d15db953a44a3,
            0x0f8c7569b6636ebe,
        ],
        [
            0x0000000000000001,
            0x0000000000000000,
            0x0000000000000000,
            0x0000000000000000,
        ],
        [
            0xc69379327e4fccb2,
            0xc1c6e88f666f577d,
            0x56327a29c4b08066,
            0x008d2cc596e2dad3,
        ],
        [
            0xac16302687acd937,
            0xe92a3e974d574dfe,
            0x2d1d15db953a44a3,
            0x0f8c7569b6636ebe,
        ],
        [
            0x0000000000000001,
            0x0000000000000000,
            0x0000000000000000,
            0x0000000000000000,
        ],
    ],
    [
        [
            0x01d16df4e5ee93dd,
            0x70c0140c3f8cc380,
            0x19e3a0ea3a4dd9c9,
            0x06ee2c4eb604cd0e,
        ],
        [
            0xdc864a0b46f90a11,
            0x66579dc926506e79,
            0x553a720236805b55,
            0x01f131bda4b44500,
        ],
        [
            0x0000000000000001,
            0x0000000000000000,
            0x0000000000000000,
            0x0000000000000000,
        ],
        [
            0xdc864a0b46f90a11,
            0x66579dc926506e79,
            0x553a720236805b55,
            0x01f131bda4b44500,
        ],
        [
            0x0000000000000001,
            0x0000000000000000,
            0x0000000000000000,
            0x0000000000000000,
        ],
        [
            0xec71edd8710da854,
            0x5918d78f31f61979,
            0x39f8299e9d4d163d,
            0x0020a9cda9cdcf4b,
        ],
        [
            0xb90c94168df21422,
            0xccaf3b924ca0dcf3,
            0xaa74e4046d00b6aa,
            0x03e2637b49688a00,
        ],
        [
            0x0000000000000001,
            0x0000000000000000,
            0x0000000000000000,
            0x0000000000000000,
        ],
        [
            0xee435bcd56fc3c31,
            0xc9d8eb9b7182dcf9,
            0x53dbca88d79af006,
            0x070ed61c5fd29c59,
        ],
        [
            0xb90c94168df21422,
            0xccaf3b924ca0dcf3,
            0xaa74e4046d00b6aa,
            0x03e2637b49688a00,
        ],
        [
            0x0000000000000001,
            0x0000000000000000,
            0x0000000000000000,
            0x0000000000000000,
        ],
    ],
    [
        [
            0x2968c0f71a6d48b3,
            0x4f32869fa7a3c04b,
            0xb6938dadc83a3232,
            0x03e8a4a11998d27b,
        ],
        [
            0x7dc7d56c53471cb0,
            0x25897f280a0a9699,
            0x6242ca83fe478470,
            0x0561cd6667f3331c,
        ],
        [
            0x0000000000000001,
            0x0000000000000000,
            0x0000000000000000,
            0x0000000000000000,
        ],
        [
            0x7dc7d56c53471cb0,
            0x25897f280a0a9699,
            0x6242ca83fe478470,
            0x0561cd6667f3331c,
        ],
        [
            0x0000000000000001,
            0x0000000000000000,
            0x0000000000000000,
            0x0000000000000000,
        ],
        [
            0x0d0ea211039f8a3c,
            0xcf17aea1cad42d2b,
            0x51fe42a29fdbf0f1,
            0x085bf8c496c876c4,
        ],
        [
            0xfb8faad8a68e3960,
            0x4b12fe5014152d32,
            0xc4859507fc8f08e0,
            0x0ac39acccfe66638,
        ],
        [
            0x0000000000000001,
            0x0000000000000000,
            0x0000000000000000,
            0x0000000000000000,
        ],
        [
            0x367763081e0cd2ef,
            0x1e4a35417277ed76,
            0x0891d05068162324,
            0x0c449d65b0614940,
        ],
        [
            0xfb8faad8a68e3960,
            0x4b12fe5014152d32,
            0xc4859507fc8f08e0,
            0x0ac39acccfe66638,
        ],
        [
            0x0000000000000001,
            0x0000000000000000,
            0x0000000000000000,
            0x0000000000000000,
        ],
    ],
];

fn blob(elements: &[[u64; 4]]) -> Vec<u8> {
    let mut bytes = Vec::new();
    for e in elements {
        for w in e {
            bytes.extend_from_slice(&w.to_le_bytes());
        }
    }
    bytes
}

fn coset() -> Vec<Fr> {
    read_elements::<Fr>(&blob(&COSET)).unwrap()
}

fn isogenies() -> Vec<Isogeny<Fr>> {
    let flat: Vec<[u64; 4]> = ISOGENIES.iter().flat_map(|i| i.iter().copied()).collect();
    read_isogenies::<Fr>(&blob(&flat)).unwrap()
}

fn precomputation() -> EcFftPrecomputation<Fr> {
    precompute(&coset(), &isogenies()).unwrap()
}

fn random_points(n: usize) -> Vec<Point> {
    let mut rng = test_rng();
    (0..n).map(|_| Point(G::rand(&mut rng))).collect()
}

/// The transform of a polynomial with points of the curve for
/// coefficients gives its values at the elements of the sub-coset.
#[test]
fn evaluate_points_over_domain() {
    let precomputation = precomputation();
    for i in 0..=LOG_N {
        let poly = DenseGroupPolynomial {
            coeffs: random_points((1 << LOG_N) >> i),
        };
        let evals = sub_coset(&coset(), i)
            .iter()
            .map(|x| poly.evaluate(x))
            .collect::<Vec<_>>();
        assert_eq!(evals, precomputation.evaluate_over_domain(&poly));
        assert!(ecfft_tests::test_eval_i(
            i,
            &coset(),
            &precomputation,
            &poly
        ));
    }
}

/// Extending the values of a polynomial with points of the curve for
/// coefficients.
#[test]
fn extend_points() {
    let precomputation = &precomputation().coset_precomputations[0];
    for i in 1..LOG_N {
        let poly = DenseGroupPolynomial {
            coeffs: random_points((1 << LOG_N) >> i),
        };
        let step = &precomputation.steps[i - 1];
        let evals_s = step.s.iter().map(|x| poly.evaluate(x)).collect::<Vec<_>>();
        let evals_s_prime = step
            .s_prime
            .iter()
            .map(|x| poly.evaluate(x))
            .collect::<Vec<_>>();
        assert_eq!(evals_s_prime, precomputation.extend(&evals_s));
        assert!(ecfft_tests::test_extend_i(i, precomputation, &poly));
    }
}

/// The products by Vandermonde matrices, with points of the curve for
/// the entries of the vector.
#[test]
fn vandermonde_of_points() {
    let mut rng = test_rng();
    for n in 1..8usize {
        let vector = random_points(n);
        let scalars: Vec<F> = (0..n).map(|_| rng.gen()).collect();
        let nb_cols = 5;
        let mut expected = Vec::new();
        for j in 0..nb_cols {
            let mut acc = G::zero();
            for i in 0..n {
                acc += vector[i].0 * scalars[i].pow([j as u64]);
            }
            expected.push(Point(acc));
        }
        let mat = VandermondeMatrix {
            points: scalars.iter().map(|s| to_lib(*s)).collect(),
            nb_cols,
        };
        assert_eq!(mat.left_multiply(&vector[..]), expected);

        let small = VandermondeMatrix {
            points: ecfft_group::group_polynomial::smallest_range(n as i32)
                .iter()
                .map(|p| from_i32::<Fr>(*p))
                .collect(),
            nb_cols,
        };
        assert_eq!(
            small_vandermonde_left_multiply(&vector[..], nb_cols),
            small.left_multiply(&vector[..])
        );
    }
}
