//! Isogenies of degree 2 between elliptic curves, as rational maps.

use crate::field::{field_div, PrimeField};
use crate::group_laws::all_canonical;
use crate::group_polynomial::{horner, DenseGroupPolynomial};
use crate::modular::quot_mod;
use vstd::prelude::*;

verus! {

/// A degree-2 isogeny `(x, y) -> (x_numerator(x) / x_denominator(x),
/// y * y_numerator(x) / y_denominator(x))`.
///
/// Each of the four polynomials is held by its coefficients, the
/// coefficient of `x^i` at index `i`. Only the map on `x` is evaluated;
/// the map on `y` is kept as it was stored.
#[derive(Clone, Debug, PartialEq, Eq)]
pub struct Isogeny<F: PrimeField> {
    pub x_numerator: Vec<F>,
    pub x_denominator: Vec<F>,
    pub y_numerator: Vec<F>,
    pub y_denominator: Vec<F>,
}

impl<F: PrimeField> Isogeny<F> {
    /// All coefficients are field elements.
    pub open spec fn wf(&self) -> bool {
        &&& all_canonical(self.x_numerator@)
        &&& all_canonical(self.x_denominator@)
        &&& all_canonical(self.y_numerator@)
        &&& all_canonical(self.y_denominator@)
    }

    /// The value of the numerator of the map on `x` at the residue `x`.
    pub open spec fn spec_x_numerator(&self, x: int) -> int {
        horner::<F>(self.x_numerator@, x).value()
    }

    /// The value of the denominator of the map on `x` at the residue `x`.
    pub open spec fn spec_x_denominator(&self, x: int) -> int {
        horner::<F>(self.x_denominator@, x).value()
    }

    /// The image of the residue `x`, where the denominator does not vanish.
    pub open spec fn spec_evaluate_x(&self, x: int) -> int {
        quot_mod(self.spec_x_numerator(x), self.spec_x_denominator(x), F::modulus())
    }

    /// Evaluates the denominator of the map on `x`.
    pub fn evaluate_x_denominator(&self, x: &F) -> (r: F)
        requires
            self.wf(),
            x.is_canonical(),
        ensures
            r.is_canonical(),
            r.value() == self.spec_x_denominator(x.value()),
    {
        DenseGroupPolynomial::<F>::horner_evaluate(&self.x_denominator, x)
    }

    /// The x-coordinate of the image of a point with x-coordinate `x`, at
    /// which the denominator must not vanish.
    pub fn evaluate_x(&self, x: &F) -> (r: F)
        requires
            self.wf(),
            x.is_canonical(),
            self.spec_x_denominator(x.value()) != 0,
        ensures
            r.is_canonical(),
            r.value() == self.spec_evaluate_x(x.value()),
    {
        let num = DenseGroupPolynomial::<F>::horner_evaluate(&self.x_numerator, x);
        let den = DenseGroupPolynomial::<F>::horner_evaluate(&self.x_denominator, x);
        field_div(&num, &den)
    }

    /// The x-coordinate of the image of a point with x-coordinate `x`, or
    /// nothing where the denominator vanishes.
    pub fn try_evaluate_x(&self, x: &F) -> (r: Option<F>)
        requires
            self.wf(),
            x.is_canonical(),
        ensures
            r.is_some() == (self.spec_x_denominator(x.value()) != 0),
            r.is_some() ==> r.unwrap().is_canonical() && r.unwrap().value()
                == self.spec_evaluate_x(x.value()),
    {
        let den = DenseGroupPolynomial::<F>::horner_evaluate(&self.x_denominator, x);
        if den.field_is_zero() {
            return None;
        }
        let num = DenseGroupPolynomial::<F>::horner_evaluate(&self.x_numerator, x);
        Some(field_div(&num, &den))
    }
}

} // verus!
