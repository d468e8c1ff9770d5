//! Coefficient groups: abelian groups on which a prime field acts.

use crate::field::{elem, lemma_elem, lemma_elem_of_value, PrimeField};
use crate::modular::{
    add_mod, lemma_add_mod_assoc, lemma_add_mod_neg, lemma_add_mod_zero, lemma_mod_range,
    lemma_mul_mod_assoc, lemma_mul_mod_distrib, lemma_mul_mod_one, lemma_sub_mod_is_add_neg,
    mul_mod, neg_mod,
};
use vstd::prelude::*;

verus! {

/// An abelian group, written additively, with a scalar multiplication by the
/// prime field [`MyGroup::ScalarField`].
///
/// The group is described by the spec functions `spec_zero`, `spec_add`,
/// `spec_neg` and `spec_mul`. An implementation proves that these obey the
/// laws of a module over `Z/p`, on the values of which `wf` holds and for
/// canonical scalars, and that its executable operations compute them.
pub trait MyGroup: Sized + Copy {
    type ScalarField: PrimeField;

    /// Holds of the values of this type that represent a group element.
    spec fn wf(&self) -> bool;

    spec fn spec_zero() -> Self;

    spec fn spec_add(self, rhs: Self) -> Self;

    spec fn spec_neg(self) -> Self;

    /// The product of `self` by a scalar.
    spec fn spec_mul(self, scalar: Self::ScalarField) -> Self;

    proof fn lemma_zero_wf()
        ensures
            Self::spec_zero().wf(),
    ;

    /// The operations stay among the group's elements.
    proof fn lemma_closed(a: Self, b: Self, k: Self::ScalarField)
        requires
            a.wf(),
            b.wf(),
            k.is_canonical(),
        ensures
            a.spec_add(b).wf(),
            a.spec_neg().wf(),
            a.spec_mul(k).wf(),
    ;

    proof fn lemma_add_assoc(a: Self, b: Self, c: Self)
        requires
            a.wf(),
            b.wf(),
            c.wf(),
        ensures
            a.spec_add(b).spec_add(c) == a.spec_add(b.spec_add(c)),
    ;

    proof fn lemma_add_comm(a: Self, b: Self)
        requires
            a.wf(),
            b.wf(),
        ensures
            a.spec_add(b) == b.spec_add(a),
    ;

    proof fn lemma_add_zero(a: Self)
        requires
            a.wf(),
        ensures
            a.spec_add(Self::spec_zero()) == a,
    ;

    proof fn lemma_add_neg(a: Self)
        requires
            a.wf(),
        ensures
            a.spec_add(a.spec_neg()) == Self::spec_zero(),
    ;

    /// `a * 1 == a`.
    proof fn lemma_mul_one(a: Self, one: Self::ScalarField)
        requires
            a.wf(),
            one.is_canonical(),
            one.value() == 1,
        ensures
            a.spec_mul(one) == a,
    ;

    /// `a * (j + k) == a * j + a * k`, where `sum` is `j + k`.
    proof fn lemma_mul_add(
        a: Self,
        j: Self::ScalarField,
        k: Self::ScalarField,
        sum: Self::ScalarField,
    )
        requires
            a.wf(),
            j.is_canonical(),
            k.is_canonical(),
            sum.is_canonical(),
            sum.value() == add_mod(j.value(), k.value(), Self::ScalarField::modulus()),
        ensures
            a.spec_mul(sum) == a.spec_mul(j).spec_add(a.spec_mul(k)),
    ;

    /// `(a * j) * k == a * (j * k)`, where `product` is `j * k`.
    proof fn lemma_mul_mul(
        a: Self,
        j: Self::ScalarField,
        k: Self::ScalarField,
        product: Self::ScalarField,
    )
        requires
            a.wf(),
            j.is_canonical(),
            k.is_canonical(),
            product.is_canonical(),
            product.value() == mul_mod(j.value(), k.value(), Self::ScalarField::modulus()),
        ensures
            a.spec_mul(j).spec_mul(k) == a.spec_mul(product),
    ;

    /// `(a + b) * k == a * k + b * k`.
    proof fn lemma_mul_distrib(a: Self, b: Self, k: Self::ScalarField)
        requires
            a.wf(),
            b.wf(),
            k.is_canonical(),
        ensures
            a.spec_add(b).spec_mul(k) == a.spec_mul(k).spec_add(b.spec_mul(k)),
    ;

    fn zero() -> (r: Self)
        ensures
            r.wf(),
            r == Self::spec_zero(),
    ;

    fn is_zero(&self) -> (b: bool)
        requires
            self.wf(),
        ensures
            b == (*self == Self::spec_zero()),
    ;

    fn add(&self, rhs: &Self) -> (r: Self)
        requires
            self.wf(),
            rhs.wf(),
        ensures
            r.wf(),
            r == self.spec_add(*rhs),
    ;

    fn sub(&self, rhs: &Self) -> (r: Self)
        requires
            self.wf(),
            rhs.wf(),
        ensures
            r.wf(),
            r == self.spec_add(rhs.spec_neg()),
    ;

    fn neg(&self) -> (r: Self)
        requires
            self.wf(),
        ensures
            r.wf(),
            r == self.spec_neg(),
    ;

    /// Multiplication by a scalar.
    fn mul(&self, scalar: &Self::ScalarField) -> (r: Self)
        requires
            self.wf(),
            scalar.is_canonical(),
        ensures
            r.wf(),
            r == self.spec_mul(*scalar),
    ;

    /// A fixed generator of the group.
    fn generator() -> (r: Self)
        ensures
            r.wf(),
    ;
}

/// The product of `a` by the scalar whose representative is `k`.
pub open spec fn scale<G: MyGroup>(a: G, k: int) -> G {
    a.spec_mul(elem::<G::ScalarField>(k))
}

/// Multiplying by a scalar is scaling by its representative.
pub proof fn lemma_scale<G: MyGroup>(a: G, s: G::ScalarField)
    requires
        s.is_canonical(),
    ensures
        a.spec_mul(s) == scale(a, s.value()),
        0 <= s.value() < G::ScalarField::modulus(),
{
    lemma_elem_of_value(s);
    G::ScalarField::lemma_value_range(s);
}

/// A prime field is a group under its addition, and acts on itself by its
/// multiplication.
impl<F: PrimeField> MyGroup for F {
    type ScalarField = F;

    open spec fn wf(&self) -> bool {
        self.is_canonical()
    }

    open spec fn spec_zero() -> Self {
        elem::<F>(0)
    }

    open spec fn spec_add(self, rhs: Self) -> Self {
        elem::<F>(add_mod(self.value(), rhs.value(), F::modulus()))
    }

    open spec fn spec_neg(self) -> Self {
        elem::<F>(neg_mod(self.value(), F::modulus()))
    }

    open spec fn spec_mul(self, scalar: F) -> Self {
        elem::<F>(mul_mod(self.value(), scalar.value(), F::modulus()))
    }

    proof fn lemma_zero_wf() {
        F::lemma_modulus();
        lemma_elem::<F>(0);
    }

    proof fn lemma_closed(a: Self, b: Self, k: F) {
        let p = F::modulus();
        F::lemma_modulus();
        lemma_mod_range(a.value() + b.value(), p);
        lemma_elem::<F>(add_mod(a.value(), b.value(), p));
        lemma_mod_range(-a.value(), p);
        lemma_elem::<F>(neg_mod(a.value(), p));
        lemma_mod_range(a.value() * k.value(), p);
        lemma_elem::<F>(mul_mod(a.value(), k.value(), p));
    }

    proof fn lemma_add_assoc(a: Self, b: Self, c: Self) {
        let p = F::modulus();
        F::lemma_modulus();
        lemma_mod_range(a.value() + b.value(), p);
        lemma_elem::<F>(add_mod(a.value(), b.value(), p));
        lemma_mod_range(b.value() + c.value(), p);
        lemma_elem::<F>(add_mod(b.value(), c.value(), p));
        lemma_add_mod_assoc(a.value(), b.value(), c.value(), p);
    }

    proof fn lemma_add_comm(a: Self, b: Self) {
    }

    proof fn lemma_add_zero(a: Self) {
        F::lemma_modulus();
        F::lemma_value_range(a);
        lemma_elem::<F>(0);
        lemma_add_mod_zero(a.value(), F::modulus());
        lemma_elem_of_value(a);
    }

    proof fn lemma_add_neg(a: Self) {
        let p = F::modulus();
        F::lemma_modulus();
        lemma_mod_range(-a.value(), p);
        lemma_elem::<F>(neg_mod(a.value(), p));
        lemma_add_mod_neg(a.value(), p);
    }

    proof fn lemma_mul_one(a: Self, one: F) {
        F::lemma_value_range(a);
        lemma_mul_mod_one(a.value(), F::modulus());
        lemma_elem_of_value(a);
    }

    proof fn lemma_mul_add(a: Self, j: F, k: F, sum: F) {
        let p = F::modulus();
        F::lemma_modulus();
        lemma_mod_range(a.value() * j.value(), p);
        lemma_elem::<F>(mul_mod(a.value(), j.value(), p));
        lemma_mod_range(a.value() * k.value(), p);
        lemma_elem::<F>(mul_mod(a.value(), k.value(), p));
        lemma_mul_mod_distrib(a.value(), j.value(), k.value(), p);
    }

    proof fn lemma_mul_mul(a: Self, j: F, k: F, product: F) {
        let p = F::modulus();
        F::lemma_modulus();
        lemma_mod_range(a.value() * j.value(), p);
        lemma_elem::<F>(mul_mod(a.value(), j.value(), p));
        lemma_mul_mod_assoc(a.value(), j.value(), k.value(), p);
    }

    proof fn lemma_mul_distrib(a: Self, b: Self, k: F) {
        let p = F::modulus();
        F::lemma_modulus();
        lemma_mod_range(a.value() + b.value(), p);
        lemma_elem::<F>(add_mod(a.value(), b.value(), p));
        lemma_mod_range(a.value() * k.value(), p);
        lemma_elem::<F>(mul_mod(a.value(), k.value(), p));
        lemma_mod_range(b.value() * k.value(), p);
        lemma_elem::<F>(mul_mod(b.value(), k.value(), p));
        lemma_mul_mod_distrib(k.value(), a.value(), b.value(), p);
    }

    fn zero() -> (r: Self) {
        let r = F::field_zero();
        proof {
            lemma_elem_of_value(r);
        }
        r
    }

    fn is_zero(&self) -> (b: bool) {
        let b = self.field_is_zero();
        proof {
            F::lemma_modulus();
            lemma_elem::<F>(0);
            if b {
                lemma_elem_of_value(*self);
            }
        }
        b
    }

    fn add(&self, rhs: &Self) -> (r: Self) {
        let r = self.field_add(rhs);
        proof {
            lemma_elem_of_value(r);
        }
        r
    }

    fn sub(&self, rhs: &Self) -> (r: Self) {
        let r = self.field_sub(rhs);
        proof {
            let p = F::modulus();
            F::lemma_modulus();
            lemma_elem_of_value(r);
            lemma_mod_range(-rhs.value(), p);
            lemma_elem::<F>(neg_mod(rhs.value(), p));
            lemma_sub_mod_is_add_neg(self.value(), rhs.value(), p);
        }
        r
    }

    fn neg(&self) -> (r: Self) {
        let r = self.field_neg();
        proof {
            lemma_elem_of_value(r);
        }
        r
    }

    fn mul(&self, scalar: &F) -> (r: Self) {
        let r = self.field_mul(scalar);
        proof {
            lemma_elem_of_value(r);
        }
        r
    }

    fn generator() -> (r: Self) {
        F::one()
    }
}

} // verus!
