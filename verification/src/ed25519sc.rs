//! The scalar field of Ed25519, and the ECFFT parameters for it.
//! Note that the other parameter sets are for the base fields of their curves.

use crate::ecfft::EcFftParameters;
use crate::field::PrimeField;
use crate::modular::{add_mod, is_inverse_mod, mul_mod, sub_mod};
use crate::utils::limbs::{lemma_limbs4_injective, lemma_limbs4_of, lemma_words4, limbs4_value};
use vstd::arithmetic::div_mod::lemma_small_mod;
use vstd::pervasive::unreached;
use vstd::prelude::*;

verus! {

/// Number of 64-bit limbs needed to represent field elements.
pub const NUM_LIMBS: usize = 4;

/// The number of elements of the field.
pub open spec fn fr_modulus() -> int {
    7237005577332262213973186563042994240857116359379907606001950938285454250989int
}

/// An element of the scalar field of Ed25519, held as the limbs of its
/// representative in `0..p`, least significant limb first.
#[derive(Clone, Copy, Debug, PartialEq, Eq, Hash)]
pub struct Fr {
    limbs: [u64; 4],
}

/// `PrimeField::from_bigint` of `ark_ed25519::Fr`, read back with
/// `PrimeField::into_bigint`: the limbs themselves where the integer that
/// they hold is below the modulus, and nothing where it is not.
#[verifier::external_body]
fn checked_limbs(limbs: &[u64; 4]) -> (r: Option<[u64; 4]>)
    ensures
        r.is_some() == (limbs4_value(*limbs) < fr_modulus()),
        r.is_some() ==> r.unwrap() == *limbs,
{
    let x: Option<ark_ed25519::Fr> = ark_ff::PrimeField::from_bigint(ark_ff::BigInt::new(*limbs));
    match x {
        Some(x) => Some(ark_ff::PrimeField::into_bigint(x).0),
        None => None,
    }
}

/// `Add::add` of `ark_ed25519::Fr`, on the elements that `From<BigInt>` makes
/// of the limbs, read back with `PrimeField::into_bigint`: the limbs of
/// `(a + b) mod p`.
#[verifier::external_body]
fn add_limbs(a: &[u64; 4], b: &[u64; 4]) -> (r: [u64; 4])
    requires
        limbs4_value(*a) < fr_modulus(),
        limbs4_value(*b) < fr_modulus(),
    ensures
        limbs4_value(r) == add_mod(limbs4_value(*a), limbs4_value(*b), fr_modulus()),
{
    let x = ark_ed25519::Fr::from(ark_ff::BigInt::new(*a));
    let y = ark_ed25519::Fr::from(ark_ff::BigInt::new(*b));
    ark_ff::PrimeField::into_bigint(x + y).0
}

/// `Sub::sub` of `ark_ed25519::Fr`, on the elements that `From<BigInt>` makes
/// of the limbs, read back with `PrimeField::into_bigint`: the limbs of
/// `(a - b) mod p`.
#[verifier::external_body]
fn sub_limbs(a: &[u64; 4], b: &[u64; 4]) -> (r: [u64; 4])
    requires
        limbs4_value(*a) < fr_modulus(),
        limbs4_value(*b) < fr_modulus(),
    ensures
        limbs4_value(r) == sub_mod(limbs4_value(*a), limbs4_value(*b), fr_modulus()),
{
    let x = ark_ed25519::Fr::from(ark_ff::BigInt::new(*a));
    let y = ark_ed25519::Fr::from(ark_ff::BigInt::new(*b));
    ark_ff::PrimeField::into_bigint(x - y).0
}

/// `Mul::mul` of `ark_ed25519::Fr`, on the elements that `From<BigInt>` makes
/// of the limbs, read back with `PrimeField::into_bigint`: the limbs of
/// `(a * b) mod p`.
#[verifier::external_body]
fn mul_limbs(a: &[u64; 4], b: &[u64; 4]) -> (r: [u64; 4])
    requires
        limbs4_value(*a) < fr_modulus(),
        limbs4_value(*b) < fr_modulus(),
    ensures
        limbs4_value(r) == mul_mod(limbs4_value(*a), limbs4_value(*b), fr_modulus()),
{
    let x = ark_ed25519::Fr::from(ark_ff::BigInt::new(*a));
    let y = ark_ed25519::Fr::from(ark_ff::BigInt::new(*b));
    ark_ff::PrimeField::into_bigint(x * y).0
}

/// `Field::inverse` of `ark_ed25519::Fr`, on the element that `From<BigInt>`
/// makes of the limbs, read back with `PrimeField::into_bigint`: nothing
/// for zero, else the limbs of the residue whose product with `a` is
/// `1 mod p`.
#[verifier::external_body]
fn inverse_limbs(a: &[u64; 4]) -> (r: Option<[u64; 4]>)
    requires
        limbs4_value(*a) < fr_modulus(),
    ensures
        r.is_some() == (limbs4_value(*a) != 0),
        r.is_some() ==> is_inverse_mod(
            limbs4_value(*a),
            limbs4_value(r.unwrap()),
            fr_modulus(),
        ),
{
    match ark_ff::Field::inverse(&ark_ed25519::Fr::from(ark_ff::BigInt::new(*a))) {
        Some(x) => Some(ark_ff::PrimeField::into_bigint(x).0),
        None => None,
    }
}

impl Fr {
    /// The element whose representative the limbs hold, if that integer is
    /// below the modulus.
    pub fn from_limbs(limbs: [u64; 4]) -> (r: Option<Self>)
        ensures
            r.is_some() == (limbs4_value(limbs) < fr_modulus()),
            r.is_some() ==> r.unwrap().is_canonical() && r.unwrap().value() == limbs4_value(
                limbs,
            ),
    {
        match checked_limbs(&limbs) {
            Some(l) => Some(Fr { limbs: l }),
            None => None,
        }
    }

    /// The limbs of the representative of the element.
    pub fn to_limbs(&self) -> (limbs: [u64; 4])
        ensures
            limbs4_value(limbs) == self.value(),
    {
        self.limbs
    }
}

impl PrimeField for Fr {
    open spec fn modulus() -> int {
        fr_modulus()
    }

    closed spec fn value(&self) -> int {
        limbs4_value(self.limbs)
    }

    closed spec fn is_canonical(&self) -> bool {
        limbs4_value(self.limbs) < fr_modulus()
    }

    proof fn lemma_modulus() {
    }

    proof fn lemma_value_range(a: Self) {
    }

    proof fn lemma_value_injective(a: Self, b: Self) {
        lemma_limbs4_injective(a.limbs, b.limbs);
    }

    proof fn lemma_value_surjective(x: int) -> (a: Self) {
        let l = lemma_limbs4_of(x);
        Fr { limbs: l }
    }

    open spec fn num_limbs() -> nat {
        4
    }

    fn limbs() -> (r: usize) {
        NUM_LIMBS
    }

    fn from_words(words: &[u64]) -> (r: Option<Self>) {
        if words.len() != NUM_LIMBS {
            return None;
        }
        let limbs = [words[0], words[1], words[2], words[3]];
        proof {
            lemma_words4(words@, limbs);
        }
        Self::from_limbs(limbs)
    }

    fn field_zero() -> (r: Self) {
        Fr { limbs: [0, 0, 0, 0] }
    }

    fn one() -> (r: Self) {
        Fr { limbs: [1, 0, 0, 0] }
    }

    fn from_u128(x: u128) -> (r: Self) {
        let low: u64 = (x % 0x1_0000_0000_0000_0000) as u64;
        let high: u64 = (x / 0x1_0000_0000_0000_0000) as u64;
        let r = Fr { limbs: [low, high, 0, 0] };
        proof {
            assert(limbs4_value(r.limbs) == x as int);
            lemma_small_mod(x as nat, fr_modulus() as nat);
        }
        r
    }

    fn field_is_zero(&self) -> (b: bool) {
        self.limbs[0] == 0 && self.limbs[1] == 0 && self.limbs[2] == 0 && self.limbs[3] == 0
    }

    fn field_add(&self, rhs: &Self) -> (r: Self) {
        Fr { limbs: add_limbs(&self.limbs, &rhs.limbs) }
    }

    fn field_sub(&self, rhs: &Self) -> (r: Self) {
        Fr { limbs: sub_limbs(&self.limbs, &rhs.limbs) }
    }

    fn field_neg(&self) -> (r: Self) {
        let zero = Self::field_zero();
        Fr { limbs: sub_limbs(&zero.limbs, &self.limbs) }
    }

    fn field_mul(&self, rhs: &Self) -> (r: Self) {
        Fr { limbs: mul_limbs(&self.limbs, &rhs.limbs) }
    }

    fn inverse(&self) -> (r: Self) {
        match inverse_limbs(&self.limbs) {
            Some(l) => Fr { limbs: l },
            None => unreached(),
        }
    }
}

/// ECFFT parameters for the Ed25519 scalar field.
/// Computed with the curve `E = EllipticCurve(F, [a, b])` with
/// `a = 4392976802491101277119858233748628886670447097743165573553979461609125550624`,
/// `b = 2641390116504058046593982364855935054624196913202961355189967522292222358134`.
pub struct Ed25519EcFftParameters;

impl Ed25519EcFftParameters {
    /// Logarithm of the size of the maximal ECFFT coset in the curve.
    pub const LOG_N: usize = 15;

    /// Size of the maximal ECFFT coset in the curve.
    pub const N: usize = 32768;
}

impl EcFftParameters<Fr> for Ed25519EcFftParameters {
    open spec fn spec_log_n() -> nat {
        15
    }

    fn log_n() -> (r: usize) {
        15
    }

    fn coset_name() -> (r: &'static str) {
        "ed25519sc_coset"
    }

    fn isogenies_name() -> (r: &'static str) {
        "ed25519sc_isogenies"
    }

    open spec fn spec_coset_name() -> Seq<char> {
        "ed25519sc_coset"@
    }

    open spec fn spec_isogenies_name() -> Seq<char> {
        "ed25519sc_isogenies"@
    }
}

} // verus!
