//! Prime fields, as the scalars that act on a coefficient group.
//!
//! A field element is modelled by its canonical representative, an integer
//! in `0..p`; every operation is specified by the arithmetic of `Z/p` in
//! [`crate::modular`].

use crate::modular::{
    add_mod, is_inverse_mod, is_unit_mod, lemma_inv_mod, lemma_mod_absorb, lemma_mul_mod_assoc,
    lemma_mul_mod_comm, lemma_mul_mod_one, lemma_pow_mod_range, lemma_pow_mod_square,
    lemma_sub_mod_zero, mul_mod, neg_mod, pow_mod, quot_mod, sub_mod,
};
use crate::utils::limbs::words_value;
use vstd::arithmetic::div_mod::lemma_small_mod;
use vstd::prelude::*;

verus! {

/// An element of the prime field `Z/p`.
///
/// The names of the arithmetic methods carry the prefix `field_` to keep
/// them apart from the group operations that every field element also has
/// (see [`crate::my_group::MyGroup`]).
pub trait PrimeField: Sized + Copy {
    /// The number `p` of elements of the field.
    spec fn modulus() -> int;

    /// The canonical representative of the element.
    spec fn value(&self) -> int;

    /// Holds of the values of this type that represent a field element.
    spec fn is_canonical(&self) -> bool;

    proof fn lemma_modulus()
        ensures
            Self::modulus() >= 2,
    ;

    proof fn lemma_value_range(a: Self)
        requires
            a.is_canonical(),
        ensures
            0 <= a.value() < Self::modulus(),
    ;

    /// Two canonical values with the same representative are the same value.
    proof fn lemma_value_injective(a: Self, b: Self)
        requires
            a.is_canonical(),
            b.is_canonical(),
            a.value() == b.value(),
        ensures
            a == b,
    ;

    /// Every residue is the representative of some canonical value.
    proof fn lemma_value_surjective(x: int) -> (a: Self)
        requires
            0 <= x < Self::modulus(),
        ensures
            a.is_canonical(),
            a.value() == x,
    ;

    /// The number of 64-bit words of the stored form of an element.
    spec fn num_limbs() -> nat;

    /// The number of 64-bit words of the stored form of an element.
    fn limbs() -> (r: usize)
        ensures
            r == Self::num_limbs(),
            r >= 1,
    ;

    /// The element whose representative the words hold, least significant
    /// word first: there is one where the words are as many as the stored
    /// form has and hold an integer below the modulus.
    fn from_words(words: &[u64]) -> (r: Option<Self>)
        ensures
            r.is_some() == (words@.len() == Self::num_limbs() && words_value(words@)
                < Self::modulus()),
            r.is_some() ==> r.unwrap().is_canonical() && r.unwrap().value() == words_value(
                words@,
            ),
    ;

    fn field_zero() -> (r: Self)
        ensures
            r.is_canonical(),
            r.value() == 0,
    ;

    fn one() -> (r: Self)
        ensures
            r.is_canonical(),
            r.value() == 1,
    ;

    /// The residue of `x`.
    fn from_u128(x: u128) -> (r: Self)
        ensures
            r.is_canonical(),
            r.value() == x as int % Self::modulus(),
    ;

    fn field_is_zero(&self) -> (b: bool)
        requires
            self.is_canonical(),
        ensures
            b == (self.value() == 0),
    ;

    fn field_add(&self, rhs: &Self) -> (r: Self)
        requires
            self.is_canonical(),
            rhs.is_canonical(),
        ensures
            r.is_canonical(),
            r.value() == add_mod(self.value(), rhs.value(), Self::modulus()),
    ;

    fn field_sub(&self, rhs: &Self) -> (r: Self)
        requires
            self.is_canonical(),
            rhs.is_canonical(),
        ensures
            r.is_canonical(),
            r.value() == sub_mod(self.value(), rhs.value(), Self::modulus()),
    ;

    fn field_neg(&self) -> (r: Self)
        requires
            self.is_canonical(),
        ensures
            r.is_canonical(),
            r.value() == neg_mod(self.value(), Self::modulus()),
    ;

    fn field_mul(&self, rhs: &Self) -> (r: Self)
        requires
            self.is_canonical(),
            rhs.is_canonical(),
        ensures
            r.is_canonical(),
            r.value() == mul_mod(self.value(), rhs.value(), Self::modulus()),
    ;

    /// The multiplicative inverse of a nonzero element.
    fn inverse(&self) -> (r: Self)
        requires
            self.is_canonical(),
            self.value() != 0,
        ensures
            r.is_canonical(),
            is_inverse_mod(self.value(), r.value(), Self::modulus()),
    ;
}

/// The canonical value whose representative is `x`.
pub open spec fn elem<F: PrimeField>(x: int) -> F {
    choose|a: F| a.is_canonical() && a.value() == x
}

/// The canonical value of a residue is canonical, and has the residue for
/// representative.
pub proof fn lemma_elem<F: PrimeField>(x: int)
    requires
        0 <= x < F::modulus(),
    ensures
        elem::<F>(x).is_canonical(),
        elem::<F>(x).value() == x,
{
    let a = F::lemma_value_surjective(x);
}

/// A canonical value is the canonical value of its representative.
pub proof fn lemma_elem_of_value<F: PrimeField>(a: F)
    requires
        a.is_canonical(),
    ensures
        elem::<F>(a.value()) == a,
{
    F::lemma_value_range(a);
    lemma_elem::<F>(a.value());
    F::lemma_value_injective(a, elem::<F>(a.value()));
}

/// The representatives of a sequence of field elements.
pub open spec fn values<F: PrimeField>(s: Seq<F>) -> Seq<int> {
    Seq::new(s.len(), |i: int| s[i].value())
}

/// The residue of the integer `x` in the field `F`.
pub open spec fn int_residue<F: PrimeField>(x: int) -> int {
    x % F::modulus()
}

/// `a / b`, for `b` nonzero.
pub fn field_div<F: PrimeField>(a: &F, b: &F) -> (r: F)
    requires
        a.is_canonical(),
        b.is_canonical(),
        b.value() != 0,
    ensures
        r.is_canonical(),
        r.value() == quot_mod(a.value(), b.value(), F::modulus()),
        is_unit_mod(b.value(), F::modulus()),
{
    let i = b.inverse();
    proof {
        F::lemma_modulus();
        lemma_inv_mod(b.value(), i.value(), F::modulus());
    }
    a.field_mul(&i)
}

/// Tests whether two elements are equal.
pub fn field_eq<F: PrimeField>(a: &F, b: &F) -> (r: bool)
    requires
        a.is_canonical(),
        b.is_canonical(),
    ensures
        r == (a.value() == b.value()),
        r == (*a == *b),
{
    proof {
        F::lemma_value_range(*a);
        F::lemma_value_range(*b);
        lemma_sub_mod_zero(a.value(), b.value(), F::modulus());
        if a.value() == b.value() {
            F::lemma_value_injective(*a, *b);
        }
    }
    a.field_sub(b).field_is_zero()
}

/// `a^e`, by squaring and multiplying.
pub fn field_pow<F: PrimeField>(a: &F, e: u64) -> (r: F)
    requires
        a.is_canonical(),
    ensures
        r.is_canonical(),
        r.value() == pow_mod(a.value(), e as nat, F::modulus()),
{
    let ghost p = F::modulus();
    let mut result = F::one();
    let mut base = *a;
    let mut exp: u64 = e;
    proof {
        F::lemma_modulus();
        F::lemma_value_range(*a);
        lemma_small_mod(1, p as nat);
        lemma_pow_mod_range(a.value(), e as nat, p);
        lemma_mul_mod_one(pow_mod(a.value(), e as nat, p), p);
    }
    while exp > 0
        invariant
            p == F::modulus(),
            p >= 2,
            result.is_canonical(),
            base.is_canonical(),
            mul_mod(result.value(), pow_mod(base.value(), exp as nat, p), p) == pow_mod(
                a.value(),
                e as nat,
                p,
            ),
        decreases exp,
    {
        let ghost b = base.value();
        let ghost r0 = result.value();
        if exp % 2 == 1 {
            proof {
                // r0 * (b^(exp - 1) * b) == (r0 * b) * b^(exp - 1)
                let x = pow_mod(b, (exp - 1) as nat, p);
                lemma_mul_mod_comm(x, b, p);
                lemma_mul_mod_assoc(r0, b, x, p);
            }
            result = result.field_mul(&base);
            exp = exp - 1;
        }
        proof {
            lemma_pow_mod_square(b, (exp / 2) as nat, p);
            assert(2 * (exp / 2) == exp);
        }
        base = base.field_mul(&base);
        exp = exp / 2;
    }
    proof {
        F::lemma_value_range(result);
        lemma_mul_mod_one(result.value(), p);
    }
    result
}

/// The residue of a signed integer: a negative `x` gives the negation of
/// the residue of `-x`.
pub fn from_i32<F: PrimeField>(x: i32) -> (r: F)
    ensures
        r.is_canonical(),
        r.value() == int_residue::<F>(x as int),
{
    proof {
        F::lemma_modulus();
    }
    if x >= 0 {
        F::from_u128(x as u128)
    } else {
        let m: u128 = (-(x as i64)) as u128;
        let a = F::from_u128(m);
        let r = a.field_neg();
        proof {
            lemma_mod_absorb(m as int, 0, F::modulus());
            assert(-(m as int) == x as int);
        }
        r
    }
}

} // verus!
