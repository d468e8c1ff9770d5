//! The base field of Curve25519, and the ECFFT parameters for it.

use crate::ecfft::EcFftParameters;
use crate::field::PrimeField;
use crate::modular::{add_mod, is_inverse_mod, mul_mod, sub_mod};
use crate::utils::limbs::{lemma_limbs4_injective, lemma_limbs4_of, lemma_words4, limbs4_value};
use vstd::arithmetic::div_mod::lemma_small_mod;
use vstd::pervasive::unreached;
use vstd::prelude::*;

verus! {

/// Number of 64-bit limbs needed to represent field elements.
pub const NUM_LIMBS: usize = 4;

/// The number of elements of the field.
pub open spec fn fq_modulus() -> int {
    57896044618658097711785492504343953926634992332820282019728792003956564819949int
}

/// An element of the base field of Curve25519, held as the limbs of its
/// representative in `0..p`, least significant limb first.
#[derive(Clone, Copy, Debug, PartialEq, Eq, Hash)]
pub struct Fq {
    limbs: [u64; 4],
}

/// `PrimeField::from_bigint` of `ark_curve25519::Fq`, read back with
/// `PrimeField::into_bigint`: the limbs themselves where the integer that
/// they hold is below the modulus, and nothing where it is not.
#[verifier::external_body]
fn checked_limbs(limbs: &[u64; 4]) -> (r: Option<[u64; 4]>)
    ensures
        r.is_some() == (limbs4_value(*limbs) < fq_modulus()),
        r.is_some() ==> r.unwrap() == *limbs,
{
    let x: Option<ark_curve25519::Fq> = ark_ff::PrimeField::from_bigint(ark_ff::BigInt::new(*limbs));
    match x {
        Some(x) => Some(ark_ff::PrimeField::into_bigint(x).0),
        None => None,
    }
}

/// `Add::add` of `ark_curve25519::Fq`, on the elements that `From<BigInt>` makes
/// of the limbs, read back with `PrimeField::into_bigint`: the limbs of
/// `(a + b) mod p`.
#[verifier::external_body]
fn add_limbs(a: &[u64; 4], b: &[u64; 4]) -> (r: [u64; 4])
    requires
        limbs4_value(*a) < fq_modulus(),
        limbs4_value(*b) < fq_modulus(),
    ensures
        limbs4_value(r) == add_mod(limbs4_value(*a), limbs4_value(*b), fq_modulus()),
{
    let x = ark_curve25519::Fq::from(ark_ff::BigInt::new(*a));
    let y = ark_curve25519::Fq::from(ark_ff::BigInt::new(*b));
    ark_ff::PrimeField::into_bigint(x + y).0
}

/// `Sub::sub` of `ark_curve25519::Fq`, on the elements that `From<BigInt>` makes
/// of the limbs, read back with `PrimeField::into_bigint`: the limbs of
/// `(a - b) mod p`.
#[verifier::external_body]
fn sub_limbs(a: &[u64; 4], b: &[u64; 4]) -> (r: [u64; 4])
    requires
        limbs4_value(*a) < fq_modulus(),
        limbs4_value(*b) < fq_modulus(),
    ensures
        limbs4_value(r) == sub_mod(limbs4_value(*a), limbs4_value(*b), fq_modulus()),
{
    let x = ark_curve25519::Fq::from(ark_ff::BigInt::new(*a));
    let y = ark_curve25519::Fq::from(ark_ff::BigInt::new(*b));
    ark_ff::PrimeField::into_bigint(x - y).0
}

/// `Mul::mul` of `ark_curve25519::Fq`, on the elements that `From<BigInt>` makes
/// of the limbs, read back with `PrimeField::into_bigint`: the limbs of
/// `(a * b) mod p`.
#[verifier::external_body]
fn mul_limbs(a: &[u64; 4], b: &[u64; 4]) -> (r: [u64; 4])
    requires
        limbs4_value(*a) < fq_modulus(),
        limbs4_value(*b) < fq_modulus(),
    ensures
        limbs4_value(r) == mul_mod(limbs4_value(*a), limbs4_value(*b), fq_modulus()),
{
    let x = ark_curve25519::Fq::from(ark_ff::BigInt::new(*a));
    let y = ark_curve25519::Fq::from(ark_ff::BigInt::new(*b));
    ark_ff::PrimeField::into_bigint(x * y).0
}

/// `Field::inverse` of `ark_curve25519::Fq`, on the element that `From<BigInt>`
/// makes of the limbs, read back with `PrimeField::into_bigint`: nothing
/// for zero, else the limbs of the residue whose product with `a` is
/// `1 mod p`.
#[verifier::external_body]
fn inverse_limbs(a: &[u64; 4]) -> (r: Option<[u64; 4]>)
    requires
        limbs4_value(*a) < fq_modulus(),
    ensures
        r.is_some() == (limbs4_value(*a) != 0),
        r.is_some() ==> is_inverse_mod(
            limbs4_value(*a),
            limbs4_value(r.unwrap()),
            fq_modulus(),
        ),
{
    match ark_ff::Field::inverse(&ark_curve25519::Fq::from(ark_ff::BigInt::new(*a))) {
        Some(x) => Some(ark_ff::PrimeField::into_bigint(x).0),
        None => None,
    }
}

impl Fq {
    /// The element whose representative the limbs hold, if that integer is
    /// below the modulus.
    pub fn from_limbs(limbs: [u64; 4]) -> (r: Option<Self>)
        ensures
            r.is_some() == (limbs4_value(limbs) < fq_modulus()),
            r.is_some() ==> r.unwrap().is_canonical() && r.unwrap().value() == limbs4_value(
                limbs,
            ),
    {
        match checked_limbs(&limbs) {
            Some(l) => Some(Fq { limbs: l }),
            None => None,
        }
    }

    /// The limbs of the representative of the element.
    pub fn to_limbs(&self) -> (limbs: [u64; 4])
        ensures
            limbs4_value(limbs) == self.value(),
    {
        self.limbs
    }
}

impl PrimeField for Fq {
    open spec fn modulus() -> int {
        fq_modulus()
    }

    closed spec fn value(&self) -> int {
        limbs4_value(self.limbs)
    }

    closed spec fn is_canonical(&self) -> bool {
        limbs4_value(self.limbs) < fq_modulus()
    }

    proof fn lemma_modulus() {
    }

    proof fn lemma_value_range(a: Self) {
    }

    proof fn lemma_value_injective(a: Self, b: Self) {
        lemma_limbs4_injective(a.limbs, b.limbs);
    }

    proof fn lemma_value_surjective(x: int) -> (a: Self) {
        let l = lemma_limbs4_of(x);
        Fq { limbs: l }
    }

    open spec fn num_limbs() -> nat {
        4
    }

    fn limbs() -> (r: usize) {
        NUM_LIMBS
    }

    fn from_words(words: &[u64]) -> (r: Option<Self>) {
        if words.len() != NUM_LIMBS {
            return None;
        }
        let limbs = [words[0], words[1], words[2], words[3]];
        proof {
            lemma_words4(words@, limbs);
        }
        Self::from_limbs(limbs)
    }

    fn field_zero() -> (r: Self) {
        Fq { limbs: [0, 0, 0, 0] }
    }

    fn one() -> (r: Self) {
        Fq { limbs: [1, 0, 0, 0] }
    }

    fn from_u128(x: u128) -> (r: Self) {
        let low: u64 = (x % 0x1_0000_0000_0000_0000) as u64;
        let high: u64 = (x / 0x1_0000_0000_0000_0000) as u64;
        let r = Fq { limbs: [low, high, 0, 0] };
        proof {
            assert(limbs4_value(r.limbs) == x as int);
            lemma_small_mod(x as nat, fq_modulus() as nat);
        }
        r
    }

    fn field_is_zero(&self) -> (b: bool) {
        self.limbs[0] == 0 && self.limbs[1] == 0 && self.limbs[2] == 0 && self.limbs[3] == 0
    }

    fn field_add(&self, rhs: &Self) -> (r: Self) {
        Fq { limbs: add_limbs(&self.limbs, &rhs.limbs) }
    }

    fn field_sub(&self, rhs: &Self) -> (r: Self) {
        Fq { limbs: sub_limbs(&self.limbs, &rhs.limbs) }
    }

    fn field_neg(&self) -> (r: Self) {
        let zero = Self::field_zero();
        Fq { limbs: sub_limbs(&zero.limbs, &self.limbs) }
    }

    fn field_mul(&self, rhs: &Self) -> (r: Self) {
        Fq { limbs: mul_limbs(&self.limbs, &rhs.limbs) }
    }

    fn inverse(&self) -> (r: Self) {
        match inverse_limbs(&self.limbs) {
            Some(l) => Fq { limbs: l },
            None => unreached(),
        }
    }
}

/// ECFFT parameters for the Curve25519 base field.
/// Computed with the curve `E = EllipticCurve(F, [a, b])` with
/// `a, b = 0x1, 0xd63`.
///
/// The curve `E` has order
/// `57896044618658097711785492504343953926261577544886303154527763127846362480640`
/// with factorization
/// `2^16 * 883423532389192164791648750371459257908044090955906725380367479367772865`.
pub struct Curve25519Parameters;

impl Curve25519Parameters {
    /// Logarithm of the size of the maximal ECFFT coset in the curve.
    pub const LOG_N: usize = 16;

    /// Size of the maximal ECFFT coset in the curve.
    pub const N: usize = 65536;
}

impl EcFftParameters<Fq> for Curve25519Parameters {
    open spec fn spec_log_n() -> nat {
        16
    }

    fn log_n() -> (r: usize) {
        16
    }

    fn coset_name() -> (r: &'static str) {
        "curve25519_coset"
    }

    fn isogenies_name() -> (r: &'static str) {
        "curve25519_isogenies"
    }

    open spec fn spec_coset_name() -> Seq<char> {
        "curve25519_coset"@
    }

    open spec fn spec_isogenies_name() -> Seq<char> {
        "curve25519_isogenies"@
    }
}

} // verus!
