use ark_ff::PrimeField as ArkPrimeField;
use ark_std::{rand::Rng, test_rng};
use ecfft_group::bn254::{Bn254EcFftParameters, Fq};
use ecfft_group::ecfft::ecfft_tests;
use ecfft_group::ecfft::read_ecfft::{read_elements, read_isogenies};
use ecfft_group::ecfft::{
    check_power_of_two, every_nth, precompute, precompute_on_coset, sub_coset, EcFftParameters,
    EcFftPrecomputation,
};
use ecfft_group::field::PrimeField;
use ecfft_group::group_polynomial::DenseGroupPolynomial;
use ecfft_group::utils::isogeny::Isogeny;

type P = Bn254EcFftParameters;

/// Logarithm of the size of the coset below.
const LOG_N: usize = 4;

/// The x-coordinates of the points `Q + i * G` of the curve
/// `y^2 = x^3 + x + 5612291247948481584627780310922020304781354847659642188369727566000581075360`
/// over the base field of BN254, for a point `G` of order 16.
const COSET: [[u64; 4]; 16] = [
    [
        0xdfc9e3b11fcff454,
        0x42d6cb5c6ed4e94b,
        0xa091250e8fe46024,
        0x27273a832ca1c789,
    ],
    [
        0x51cd153932adf1ae,
        0x8379c12a04497a17,
        0x9a726303e7f7d376,
        0x0ad7e2ecf7c45be0,
    ],
    [
        0x5815fdd4ca1e15b0,
        0xa22003fbc73e4f2c,
        0x79cdc5cc801dc7ed,
        0x0513e35f031f5c16,
    ],
    [
        0x8c9c8882b5ddca4b,
        0xd44c890c8ce018d9,
        0x48a5e46d950ffaf0,
        0x138cecfca30563ae,
    ],
    [
        0xbf3bab37f95ac466,
        0x89ac277291c9afd4,
        0xd48a217228f3d573,
        0x2e9ad2ff83bf11ba,
    ],
    [
        0x94a11c215b833e18,
        0xba2d5524f114c363,
        0x2c663f56ddbfef88,
        0x155f32eaa6f79804,
    ],
    [
        0x23db24be06170fc5,
        0xa436b972dee89b76,
        0x133d8acfcb072a0c,
        0x106bb51e492c1a45,
    ],
    [
        0x957d5e74c27990ca,
        0x8ab1c5a059825925,
        0x3b5513712fa278da,
        0x0066d9d281418abd,
    ],
    [
        0x294df3b590813ab4,
        0xcab438e3ec99a272,
        0x2cd1bf4a06e4d94a,
        0x00e2e2015ce475e3,
    ],
    [
        0xde39c1ad9d9be1ec,
        0x1c8d89c1727ab9fc,
        0x5119e09660ee3cf4,
        0x00d665e9ad49bfef,
    ],
    [
        0x70d921c6a115a359,
        0x9f0f245183bb33e7,
        0x1c1e43fd4644937a,
        0x248aa6624e0d9412,
    ],
    [
        0x3011dc6d3e595fd7,
        0xf1b4a2d0c69750e1,
        0x36b31b8fd132d0ef,
        0x02a85984e5050dca,
    ],
    [
        0xa441b3445c41571d,
        0x0bbaf718c90fe643,
        0xaa1a26d95c53db4a,
        0x1e47feb0bc0e950a,
    ],
    [
        0xd12ad127e03094d3,
        0x93b70ec1321eb0a6,
        0xf0fa199a455e1322,
        0x1a6e05638089e0f6,
    ],
    [
        0xb25ec35cb15dd2f0,
        0x776803023661e43f,
        0xfd4f773e04372d87,
        0x28c43c877389f64c,
    ],
    [
        0x0d6d8fce11a4683a,
        0x943ef6ec75600711,
        0x754cb8617f9b38b2,
        0x03d87200dab89eb9,
    ],
];

const ISOGENIES: [[[u64; 4]; 11]; 4] = [
    [
        [
            0xf0799f9a5bf4ada6,
            0xbb7ab628a12d02ea,
            0xf76f15faf997eaa0,
            0x0ed8b578b83e9a51,
        ],
        [
            0x3c8628054523a5de,
            0x4f8961d14bb560d0,
            0x6d40ffafdb42c12d,
            0x1833609991081a4b,
        ],
        [
            0x0000000000000001,
            0x0000000000000000,
            0x0000000000000000,
            0x0000000000000000,
        ],
        [
            0x3c8628054523a5de,
            0x4f8961d14bb560d0,
            0x6d40ffafdb42c12d,
            0x1833609991081a4b,
        ],
        [
            0x0000000000000001,
            0x0000000000000000,
            0x0000000000000000,
            0x0000000000000000,
        ],
        [
            0x9bcf770545d9ded8,
            0xc52f9bcba7a91df0,
            0x68b0e1b9db1c1147,
            0x267e8022665d3948,
        ],
        [
            0x3cebc3f3b1ca4e75,
            0x079159112ef8f713,
            0x2231b9a9350429fd,
            0x000272c040de946d,
        ],
        [
            0x0000000000000001,
            0x0000000000000000,
            0x0000000000000000,
            0x0000000000000000,
        ],
        [
            0x50288a88c9518f37,
            0xe928e762e064564e,
            0xa7cfb1fe5332a38a,
            0x04f2e7283d6a3370,
        ],
        [
            0x3cebc3f3b1ca4e75,
            0x079159112ef8f713,
            0x2231b9a9350429fd,
            0x000272c040de946d,
        ],
        [
            0x0000000000000001,
            0x0000000000000000,
            0x0000000000000000,
            0x0000000000000000,
        ],
    ],
    [
        [
            0xcb6ac9472dab0b76,
            0xe51b01edc996d386,
            0xfe2e12a8111cb7d6,
            0x1803646703251b2d,
        ],
        [
            0x509a7c8c05b12426,
            0x44dbeb15610c8b88,
            0x64ee1cb7973bfbd1,
            0x057bb06ac07315ce,
        ],
        [
            0x0000000000000001,
            0x0000000000000000,
            0x0000000000000000,
            0x0000000000000000,
        ],
        [
            0x509a7c8c05b12426,
            0x44dbeb15610c8b88,
            0x64ee1cb7973bfbd1,
            0x057bb06ac07315ce,
        ],
        [
            0x0000000000000001,
            0x0000000000000000,
            0x0000000000000000,
            0x0000000000000000,
        ],
        [
            0x092e2e7c7ad06f1b,
            0x4a652e4fdb912283,
            0x9d9a6d879494b727,
            0x08bc40d9dba4ef14,
        ],
        [
            0xa134f9180b62484c,
            0x89b7d62ac2191710,
            0xc9dc396f2e77f7a2,
            0x0af760d580e62b9c,
        ],
        [
            0x0000000000000001,
            0x0000000000000000,
            0x0000000000000000,
            0x0000000000000000,
        ],
        [
            0xd498f7c3a87b7a91,
            0x2f80303da527f609,
            0x9bc8802fa5b16efe,
            0x20bfa540deca0a42,
        ],
        [
            0xa134f9180b62484c,
            0x89b7d62ac2191710,
            0xc9dc396f2e77f7a2,
            0x0af760d580e62b9c,
        ],
        [
            0x0000000000000001,
            0x0000000000000000,
            0x0000000000000000,
            0x0000000000000000,
        ],
    ],
    [
        [
            0x2c96cb2ffb5157db,
            0x2d9df99cc2c197d2,
            0xc49f6b7ade396133,
            0x0413428325e24475,
        ],
        [
            0x58f935a65574871b,
            0xf3d49205b05b2ed4,
            0xf264ce41f5311095,
            0x154b6ff211dc3eb9,
        ],
        [
            0x0000000000000001,
            0x0000000000000000,
            0x0000000000000000,
            0x0000000000000000,
        ],
        [
            0x58f935a65574871b,
            0xf3d49205b05b2ed4,
            0xf264ce41f5311095,
            0x154b6ff211dc3eb9,
        ],
        [
            0x0000000000000001,
            0x0000000000000000,
            0x0000000000000000,
            0x0000000000000000,
        ],
        [
            0x48ad1f48ad80a66d,
            0x8839f006952423d3,
            0x4610cd997cb09311,
            0x1dc9ca7b88ee40c0,
        ],
        [
            0xb1f26b4caae90e36,
            0xe7a9240b60b65da8,
            0xe4c99c83ea62212b,
            0x2a96dfe423b87d73,
        ],
        [
            0x0000000000000001,
            0x0000000000000000,
            0x0000000000000000,
            0x0000000000000000,
        ],
        [
            0x7543ea78a8d1fe48,
            0xb5d7e9a357e5bba5,
            0x0ab039145ae9f444,
            0x21dd0cfeaed08536,
        ],
        [
            0xb1f26b4caae90e36,
            0xe7a9240b60b65da8,
            0xe4c99c83ea62212b,
            0x2a96dfe423b87d73,
        ],
        [
            0x0000000000000001,
            0x0000000000000000,
            0x0000000000000000,
            0x0000000000000000,
        ],
    ],
    [
        [
            0x109e44fa1b94d1a1,
            0x41c9e2cd63942533,
            0xf2b6986b006ce2a1,
            0x14ffe0243def0f38,
        ],
        [
            0xb05094c95e744772,
            0xf0ecc3530f2e17e8,
            0x67e5c433a785a398,
            0x0ed85d5ed1b94be2,
        ],
        [
            0x0000000000000001,
            0x0000000000000000,
            0x0000000000000000,
            0x0000000000000000,
        ],
        [
            0xb05094c95e744772,
            0xf0ecc3530f2e17e8,
            0x67e5c433a785a398,
            0x0ed85d5ed1b94be2,
        ],
        [
            0x0000000000000001,
            0x0000000000000000,
            0x0000000000000000,
            0x0000000000000000,
        ],
        [
            0x3c43475f9d5c3de9,
            0x3ef8d1104bb47f17,
            0x319af634026d6bfe,
            0x092ab619c24e4b9f,
        ],
        [
            0x60a12992bce88ee4,
            0xe1d986a61e5c2fd1,
            0xcfcb88674f0b4731,
            0x1db0babda37297c4,
        ],
        [
            0x0000000000000001,
            0x0000000000000000,
            0x0000000000000000,
            0x0000000000000000,
        ],
        [
            0x4ce18c59b8f10f8a,
            0x80c2b3ddaf48a44a,
            0x24518e9f02da4e9f,
            0x1e2a963e003d5ad8,
        ],
        [
            0x60a12992bce88ee4,
            0xe1d986a61e5c2fd1,
            0xcfcb88674f0b4731,
            0x1db0babda37297c4,
        ],
        [
            0x0000000000000001,
            0x0000000000000000,
            0x0000000000000000,
            0x0000000000000000,
        ],
    ],
];

fn to_lib(x: ark_bn254::Fq) -> Fq {
    Fq::from_limbs(x.into_bigint().0).unwrap()
}

fn blob(elements: &[[u64; 4]]) -> Vec<u8> {
    let mut bytes = Vec::new();
    for e in elements {
        for w in e {
            bytes.extend_from_slice(&w.to_le_bytes());
        }
    }
    bytes
}

fn coset() -> Vec<Fq> {
    read_elements::<Fq>(&blob(&COSET)).unwrap()
}

fn isogenies() -> Vec<Isogeny<Fq>> {
    let flat: Vec<[u64; 4]> = ISOGENIES.iter().flat_map(|i| i.iter().copied()).collect();
    read_isogenies::<Fq>(&blob(&flat)).unwrap()
}

fn precomputation() -> EcFftPrecomputation<Fq> {
    P::precompute(&coset(), &isogenies()).unwrap()
}

fn random_poly(n: usize) -> DenseGroupPolynomial<Fq> {
    let mut rng = test_rng();
    let coeffs: Vec<Fq> = (0..n).map(|_| to_lib(rng.gen())).collect();
    DenseGroupPolynomial { coeffs }
}

/// Tests that precomputations exist on the coset and on its sub-coset.
#[test]
fn test_precompute() {
    assert!(ecfft_tests::test_precompute(&coset(), &isogenies()));
    assert!(!ecfft_tests::test_precompute(&coset()[..12], &isogenies()));
    assert!(!ecfft_tests::test_precompute(&coset(), &isogenies()[..2]));
    assert!(P::precompute_on_coset(&coset(), &isogenies()).is_some());
    let half: Vec<Fq> = coset().into_iter().step_by(2).collect();
    assert!(P::precompute_on_coset(&half, &isogenies()).is_some());
    assert!(precompute_on_coset(&coset(), &isogenies()).is_some());
    assert!(precompute(&coset(), &isogenies()).is_some());
}

/// The precomputation has one level for each halving, and the sub-cosets
/// of level `i` have `2^(k - i - 1)` elements.
#[test]
fn precomputation_shape() {
    let pre = precomputation();
    assert_eq!(pre.coset_precomputations.len(), LOG_N + 1);
    for d in 0..=LOG_N {
        let on_coset = &pre.coset_precomputations[d];
        let k = LOG_N - d;
        assert_eq!(on_coset.coset.len(), 1 << k);
        assert_eq!(on_coset.coset, sub_coset(&coset(), d));
        assert_eq!(on_coset.steps.len(), k);
        for (i, step) in on_coset.steps.iter().enumerate() {
            assert_eq!(step.s.len(), 1 << (k - i - 1));
            assert_eq!(step.s_prime.len(), 1 << (k - i - 1));
            assert_eq!(step.matrices.len(), step.s.len() / 2);
            assert_eq!(step.inverse_matrices.len(), step.s.len() / 2);
        }
        if k > 0 {
            assert_eq!(on_coset.steps[0].s, every_nth(&on_coset.coset, 0, 2));
            assert_eq!(on_coset.steps[0].s_prime, every_nth(&on_coset.coset, 1, 2));
        }
    }
}

/// The sub-cosets of each level are the images under the isogeny of the
/// first half of those of the level before, and the two elements of a pair
/// have the same image.
#[test]
fn levels_are_images() {
    let pre = precompute_on_coset(&coset(), &isogenies()).unwrap();
    let isogenies = isogenies();
    for t in 0..pre.steps.len() - 1 {
        let step = &pre.steps[t];
        let next = &pre.steps[t + 1];
        let nn = step.s.len() / 2;
        for j in 0..nn {
            assert_eq!(isogenies[t].evaluate_x(&step.s[j]), next.s[j]);
            assert_eq!(isogenies[t].evaluate_x(&step.s[j + nn]), next.s[j]);
            assert_eq!(
                isogenies[t].try_evaluate_x(&step.s_prime[j]),
                Some(next.s_prime[j])
            );
            assert_eq!(
                isogenies[t].evaluate_x(&step.s_prime[j + nn]),
                next.s_prime[j]
            );
        }
    }
}

/// Tests the extend function with a polynomial of `2^(log(n)-i)`
/// coefficients, for 1 <= i <= log(n) - 1.
fn check_extend(i: usize) {
    let precomputation = precompute_on_coset(&coset(), &isogenies()).unwrap();
    let n = (1 << LOG_N) >> i;
    let poly = random_poly(n);
    let step = &precomputation.steps[i - 1];
    let evals_s = step.s.iter().map(|x| poly.evaluate(x)).collect::<Vec<_>>();
    let evals_s_prime = step
        .s_prime
        .iter()
        .map(|x| poly.evaluate(x))
        .collect::<Vec<_>>();
    assert_eq!(evals_s_prime, precomputation.extend(&evals_s));
    assert_eq!(evals_s, ecfft_tests::evaluate_at_points(&poly, &step.s));
    assert!(ecfft_tests::test_extend_i(i, &precomputation, &poly));
    // a polynomial with twice as many coefficients is not determined by
    // its values on `s`
    let longer = random_poly(2 * n);
    let evals_s = step
        .s
        .iter()
        .map(|x| longer.evaluate(x))
        .collect::<Vec<_>>();
    let evals_s_prime = step
        .s_prime
        .iter()
        .map(|x| longer.evaluate(x))
        .collect::<Vec<_>>();
    assert_ne!(evals_s_prime, precomputation.extend(&evals_s));
}

/// Tests the extend function for various degrees.
#[test]
fn test_extend() {
    let precomputation = precompute_on_coset(&coset(), &isogenies()).unwrap();
    let polys: Vec<DenseGroupPolynomial<Fq>> = (1..=LOG_N)
        .map(|i| random_poly((1 << LOG_N) >> i))
        .collect();
    assert!(ecfft_tests::test_extend(&precomputation, &polys));
    assert!(ecfft_tests::test_extend(
        &precomputation,
        &polys[..2].to_vec()
    ));
    assert!(ecfft_tests::test_extend::<Fq>(&precomputation, &Vec::new()));
}

#[test]
fn test_extend_1() {
    check_extend(1);
}

#[test]
fn test_extend_2() {
    check_extend(2);
}

#[test]
fn test_extend_3() {
    check_extend(3);
}

/// The values on `s` of the polynomial that vanishes on `s_prime`.
#[test]
fn vanishing_values() {
    let precomputation = precompute_on_coset(&coset(), &isogenies()).unwrap();
    for step in precomputation.steps.iter() {
        let values = step.vanishing_on_s_prime();
        assert_eq!(values.len(), step.s.len());
        for (x, v) in step.s.iter().zip(values.iter()) {
            let mut expected = Fq::one();
            for y in step.s_prime.iter() {
                expected = expected.field_mul(&x.field_sub(y));
            }
            assert_eq!(*v, expected);
            // the sub-cosets have no element in common
            assert!(!v.field_is_zero());
        }
    }
}

/// Extending the evaluations of a constant from one point to another.
#[test]
fn test_extend_last_level() {
    let precomputation = precompute_on_coset(&coset(), &isogenies()).unwrap();
    let c = to_lib(ark_bn254::Fq::from(123456789u64));
    assert_eq!(precomputation.extend(&[c]), vec![c]);
}

/// Tests the `evaluate_over_domain` function with a polynomial of
/// `2^(log(n)-i)` coefficients.
fn check_eval(i: usize) {
    let precomputation = precomputation();
    let poly = random_poly((1 << LOG_N) >> i);
    let evals = P::sub_coset(&coset(), i)
        .iter()
        .map(|x| poly.evaluate(x))
        .collect::<Vec<_>>();
    assert_eq!(evals, precomputation.evaluate_over_domain(&poly));
    assert!(ecfft_tests::test_eval_i(
        i,
        &coset(),
        &precomputation,
        &poly
    ));
    // the values on another sub-coset are others
    if i > 0 {
        assert!(!ecfft_tests::test_eval_i(
            i - 1,
            &coset(),
            &precomputation,
            &poly
        ));
    }
}

#[test]
fn test_eval_0() {
    check_eval(0);
}

#[test]
fn test_eval_1() {
    check_eval(1);
}

#[test]
fn test_eval_2() {
    check_eval(2);
}

#[test]
fn test_eval_3() {
    check_eval(3);
}

#[test]
fn test_eval_4() {
    check_eval(4);
}

#[test]
fn evaluate_over_domain_is_deterministic() {
    let precomputation = precomputation();
    let poly = random_poly(8);
    assert_eq!(
        precomputation.evaluate_over_domain(&poly),
        precomputation.evaluate_over_domain(&poly)
    );
    for j in 0..=LOG_N {
        assert!(ecfft_tests::test_deterministic(
            &precomputation,
            &random_poly(1 << j)
        ));
    }
}

#[test]
fn sub_coset_takes_every_nth_element() {
    let coset = coset();
    assert_eq!(sub_coset(&coset, 0), coset);
    for d in 0..=LOG_N {
        let expected: Vec<Fq> = coset.iter().step_by(1 << d).copied().collect();
        assert_eq!(sub_coset(&coset, d), expected);
        assert_eq!(every_nth(&coset, 0, 1 << d), expected);
    }
    assert_eq!(sub_coset(&coset, 10), vec![coset[0]]);
    assert_eq!(every_nth(&coset, 3, 5), vec![coset[3], coset[8], coset[13]]);
    assert_eq!(every_nth(&coset, 16, 1), Vec::<Fq>::new());
    assert_eq!(every_nth(&coset, 15, 4), vec![coset[15]]);
}

#[test]
fn malformed_parameters_have_no_precomputation() {
    let coset = coset();
    let isogenies = isogenies();
    // a length that is no power of two
    assert!(precompute_on_coset(&coset[..12], &isogenies).is_none());
    assert!(precompute_on_coset(&coset[..0], &isogenies).is_none());
    // a tower that is too short
    assert!(precompute_on_coset(&coset, &isogenies[..2]).is_none());
    assert!(precompute(&coset, &isogenies[..2]).is_none());
    // a coset of one element needs no isogeny, and one of two elements
    // has a single level without matrix
    assert_eq!(
        precompute_on_coset(&coset[..1], &[]).unwrap().steps.len(),
        0
    );
    assert_eq!(
        precompute_on_coset(&coset[..2], &[]).unwrap().steps.len(),
        1
    );
    // a pair made of one element twice has a singular matrix
    let mut repeated = coset.clone();
    repeated[8] = repeated[0];
    assert!(precompute_on_coset(&repeated, &isogenies).is_none());
    // two elements exchanged, so that the halves of a sub-coset do not pair
    let mut exchanged = coset.clone();
    exchanged.swap(2, 4);
    assert!(precompute_on_coset(&exchanged, &isogenies).is_none());
    let mut exchanged = coset.clone();
    exchanged.swap(1, 3);
    assert!(precompute_on_coset(&exchanged, &isogenies).is_none());
    // isogenies in another order
    let mut reordered = isogenies.clone();
    reordered.swap(0, 1);
    assert!(precompute_on_coset(&coset, &reordered).is_none());
    // an isogeny with a numerator of degree three
    let mut cubic = isogenies.clone();
    cubic[0].x_numerator.push(Fq::field_zero());
    assert!(precompute_on_coset(&coset, &cubic).is_none());
    let mut quadratic = isogenies.clone();
    quadratic[1].x_denominator.push(Fq::field_zero());
    assert!(precompute_on_coset(&coset, &quadratic).is_none());
    // an isogeny whose denominator vanishes on the coset
    let mut vanishing = isogenies.clone();
    vanishing[0].x_denominator = vec![coset[2].field_neg(), Fq::one()];
    assert!(precompute_on_coset(&coset, &vanishing).is_none());
    assert_eq!(vanishing[0].try_evaluate_x(&coset[2]), None);
}

#[test]
fn power_of_two() {
    assert!(!check_power_of_two(0));
    assert!(check_power_of_two(1));
    assert!(check_power_of_two(2));
    assert!(!check_power_of_two(3));
    assert!(check_power_of_two(1 << 20));
    assert!(!check_power_of_two((1 << 20) + 2));
    assert!(!check_power_of_two(usize::MAX));
}
