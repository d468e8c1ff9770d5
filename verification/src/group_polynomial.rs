//! Polynomials in coefficient form, with coefficients in a group.

use crate::field::{int_residue, lemma_elem, PrimeField};
use crate::group_laws::{
    all_canonical, all_wf, lemma_add_wf, lemma_scale_mul, lemma_scale_neg, lemma_scale_one,
    lemma_scale_wf, lemma_scale_zero, lemma_sum_concat, lemma_sum_from, lemma_sum_scaled,
    lemma_sum_wf, lemma_zero_add, lemma_zero_scale, scaled, sum,
};
use crate::modular::{
    add_mod, lemma_mod_absorb, lemma_mod_range, lemma_pow_mod_add, lemma_pow_mod_range, mul_mod,
    neg_mod, pow_mod,
};
use crate::my_group::{lemma_scale, scale, MyGroup};
use std::ops::{Deref, DerefMut};
use vstd::arithmetic::div_mod::lemma_small_mod;
use vstd::prelude::*;

verus! {

/// Stores a polynomial in coefficient form
/// with coefficients in a group `G`.
#[derive(Clone, Debug, PartialEq, Eq, Hash, Default)]
pub struct DenseGroupPolynomial<G: MyGroup> {
    /// The coefficient of `x^i` is stored at location `i` in `self.coeffs`.
    pub coeffs: Vec<G>,
}

/// The value of the polynomial with the given coefficients at the scalar
/// whose representative is `x`, by Horner's rule:
/// `c[0] + x * (c[1] + x * (c[2] + ...))`.
pub open spec fn horner<G: MyGroup>(coeffs: Seq<G>, x: int) -> G
    decreases coeffs.len(),
{
    if coeffs.len() == 0 {
        G::spec_zero()
    } else {
        scale(horner(coeffs.drop_first(), x), x).spec_add(coeffs[0])
    }
}

/// The negated form of Horner's rule, for the scalar `-q` given by the
/// representative of `q`: each step multiplies by `q` and negates,
/// `c[0] - q * (c[1] - q * (c[2] - ...))`.
pub open spec fn horner_neg<G: MyGroup>(coeffs: Seq<G>, q: int) -> G
    decreases coeffs.len(),
{
    if coeffs.len() == 0 {
        G::spec_zero()
    } else {
        scale(horner_neg(coeffs.drop_first(), q), q).spec_neg().spec_add(coeffs[0])
    }
}

/// The monomials `c[i] * x^i` of the polynomial at the scalar whose
/// representative is `x`.
pub open spec fn monomials<G: MyGroup>(coeffs: Seq<G>, x: int) -> Seq<G> {
    Seq::new(coeffs.len(), |i: int| scale(coeffs[i], pow_mod(x, i as nat, G::ScalarField::modulus())))
}

/// Every coefficient is zero.
pub open spec fn all_zero<G: MyGroup>(coeffs: Seq<G>) -> bool {
    forall|i: int| 0 <= i < coeffs.len() ==> #[trigger] coeffs[i] == G::spec_zero()
}

/// The value of a polynomial with group elements for coefficients is a
/// group element.
pub proof fn lemma_horner_wf<G: MyGroup>(coeffs: Seq<G>, x: int)
    requires
        all_wf(coeffs),
        0 <= x < G::ScalarField::modulus(),
    ensures
        horner(coeffs, x).wf(),
    decreases coeffs.len(),
{
    if coeffs.len() == 0 {
        G::lemma_zero_wf();
    } else {
        let rest = coeffs.drop_first();
        assert forall|i: int| 0 <= i < rest.len() implies (#[trigger] rest[i]).wf() by {
            assert(rest[i] == coeffs[i + 1]);
        }
        lemma_horner_wf(rest, x);
        lemma_scale_wf(horner(rest, x), x);
        lemma_add_wf(scale(horner(rest, x), x), coeffs[0]);
    }
}

/// The zero polynomial is zero everywhere.
pub proof fn lemma_horner_all_zero<G: MyGroup>(coeffs: Seq<G>, x: int)
    requires
        all_zero(coeffs),
        0 <= x < G::ScalarField::modulus(),
    ensures
        horner(coeffs, x) == G::spec_zero(),
    decreases coeffs.len(),
{
    if coeffs.len() > 0 {
        let rest = coeffs.drop_first();
        assert forall|i: int| 0 <= i < rest.len() implies #[trigger] rest[i]
            == G::spec_zero() by {
            assert(rest[i] == coeffs[i + 1]);
        }
        lemma_horner_all_zero(rest, x);
        lemma_zero_scale::<G>(x);
        G::lemma_zero_wf();
        G::lemma_add_zero(G::spec_zero());
        assert(coeffs[0] == G::spec_zero());
    }
}

/// At zero a polynomial takes the value of its constant coefficient.
pub proof fn lemma_horner_at_zero<G: MyGroup>(coeffs: Seq<G>)
    requires
        all_wf(coeffs),
        coeffs.len() > 0,
    ensures
        horner(coeffs, 0) == coeffs[0],
{
    let rest = coeffs.drop_first();
    G::ScalarField::lemma_modulus();
    assert forall|i: int| 0 <= i < rest.len() implies (#[trigger] rest[i]).wf() by {
        assert(rest[i] == coeffs[i + 1]);
    }
    lemma_horner_wf(rest, 0);
    lemma_scale_zero(horner(rest, 0));
    lemma_zero_add(coeffs[0]);
}

/// Horner's rule gives the value of the polynomial: the sum of its
/// monomials `c[i] * x^i`.
pub proof fn lemma_horner_is_sum_of_monomials<G: MyGroup>(coeffs: Seq<G>, x: int)
    requires
        all_wf(coeffs),
        0 <= x < G::ScalarField::modulus(),
    ensures
        horner(coeffs, x) == sum(monomials(coeffs, x)),
    decreases coeffs.len(),
{
    let p = G::ScalarField::modulus();
    G::ScalarField::lemma_modulus();
    if coeffs.len() == 0 {
        assert(monomials(coeffs, x) =~= Seq::<G>::empty());
    } else {
        let rest = coeffs.drop_first();
        assert forall|i: int| 0 <= i < rest.len() implies (#[trigger] rest[i]).wf() by {
            assert(rest[i] == coeffs[i + 1]);
        }
        lemma_horner_is_sum_of_monomials(rest, x);
        lemma_monomials_wf(rest, x);
        // scaling the monomials of the rest gives the monomials above the first
        let shifted = scaled(monomials(rest, x), x);
        lemma_sum_scaled(monomials(rest, x), x);
        assert forall|i: int| 0 <= i < rest.len() implies #[trigger] shifted[i] == monomials(
            coeffs,
            x,
        )[i + 1] by {
            lemma_pow_mod_range(x, i as nat, p);
            lemma_scale_mul(rest[i], pow_mod(x, i as nat, p), x);
        }
        lemma_small_mod(1, p as nat);
        lemma_scale_one(coeffs[0]);
        assert(monomials(coeffs, x) =~= seq![coeffs[0]] + shifted);
        lemma_sum_from(coeffs[0], shifted);
        lemma_sum_wf(shifted);
        G::lemma_add_comm(coeffs[0], sum(shifted));
    }
}

/// The value of a polynomial from those of its coefficients below `k` and
/// from `k` on: `P(x) = low(x) + x^k * high(x)`.
pub proof fn lemma_horner_split<G: MyGroup>(coeffs: Seq<G>, k: int, x: int)
    requires
        all_wf(coeffs),
        0 <= k <= coeffs.len(),
        0 <= x < G::ScalarField::modulus(),
    ensures
        horner(coeffs, x) == horner(coeffs.subrange(0, k), x).spec_add(
            scale(
                horner(coeffs.subrange(k, coeffs.len() as int), x),
                pow_mod(x, k as nat, G::ScalarField::modulus()),
            ),
        ),
{
    let p = G::ScalarField::modulus();
    let low = coeffs.subrange(0, k);
    let high = coeffs.subrange(k, coeffs.len() as int);
    let xk = pow_mod(x, k as nat, p);
    lemma_pow_mod_range(x, k as nat, p);
    lemma_horner_is_sum_of_monomials(coeffs, x);
    lemma_horner_is_sum_of_monomials(low, x);
    lemma_horner_is_sum_of_monomials(high, x);
    lemma_monomials_wf(low, x);
    lemma_monomials_wf(high, x);
    let shifted = scaled(monomials(high, x), xk);
    lemma_sum_scaled(monomials(high, x), xk);
    assert forall|i: int| 0 <= i < high.len() implies #[trigger] shifted[i] == monomials(
        coeffs,
        x,
    )[k + i] by {
        lemma_pow_mod_range(x, i as nat, p);
        lemma_scale_mul(high[i], pow_mod(x, i as nat, p), xk);
        lemma_pow_mod_add(x, i as nat, k as nat, p);
        assert((i + k) as nat == (k + i) as nat);
    }
    assert(monomials(coeffs, x) =~= monomials(low, x) + shifted);
    lemma_sum_concat(monomials(low, x), shifted);
}

/// A polynomial with one coefficient takes that coefficient for value.
pub proof fn lemma_horner_constant<G: MyGroup>(coeffs: Seq<G>, x: int)
    requires
        all_wf(coeffs),
        coeffs.len() == 1,
        0 <= x < G::ScalarField::modulus(),
    ensures
        horner(coeffs, x) == coeffs[0],
{
    assert(coeffs.drop_first().len() == 0);
    assert(horner(coeffs.drop_first(), x) == G::spec_zero());
    assert(coeffs[0].wf());
    lemma_zero_scale::<G>(x);
    lemma_zero_add(coeffs[0]);
}

/// The value of a polynomial over the field, as a residue: that of the
/// polynomial without its constant coefficient, times `x`, plus the
/// constant coefficient.
pub proof fn lemma_field_horner_value<F: PrimeField>(f: Seq<F>, x: int)
    requires
        all_canonical(f),
        0 <= x < F::modulus(),
    ensures
        horner::<F>(f, x).is_canonical(),
        0 <= horner::<F>(f, x).value() < F::modulus(),
        f.len() == 0 ==> horner::<F>(f, x).value() == 0,
        f.len() > 0 ==> horner::<F>(f, x).value() == add_mod(
            mul_mod(horner::<F>(f.drop_first(), x).value(), x, F::modulus()),
            f[0].value(),
            F::modulus(),
        ),
{
    let p = F::modulus();
    F::lemma_modulus();
    assert(all_wf(f));
    lemma_horner_wf(f, x);
    F::lemma_value_range(horner::<F>(f, x));
    if f.len() == 0 {
        lemma_elem::<F>(0);
    } else {
        let rest = f.drop_first();
        assert forall|i: int| 0 <= i < rest.len() implies (#[trigger] rest[i]).wf() by {
            assert(rest[i] == f[i + 1]);
        }
        lemma_horner_wf(rest, x);
        let h = horner::<F>(rest, x);
        lemma_elem::<F>(x);
        lemma_mod_range(h.value() * x, p);
        lemma_elem::<F>(mul_mod(h.value(), x, p));
        lemma_mod_range(mul_mod(h.value(), x, p) + f[0].value(), p);
        lemma_elem::<F>(add_mod(mul_mod(h.value(), x, p), f[0].value(), p));
    }
}

/// The monomials of a polynomial are group elements.
pub proof fn lemma_monomials_wf<G: MyGroup>(coeffs: Seq<G>, x: int)
    requires
        all_wf(coeffs),
        G::ScalarField::modulus() > 0,
    ensures
        all_wf(monomials(coeffs, x)),
{
    assert forall|i: int| 0 <= i < coeffs.len() implies (#[trigger] monomials(coeffs, x)[i]).wf() by {
        lemma_pow_mod_range(x, i as nat, G::ScalarField::modulus());
        lemma_scale_wf(coeffs[i], pow_mod(x, i as nat, G::ScalarField::modulus()));
    }
}

/// Multiplying by `q` and negating at each step evaluates at `-q`.
pub proof fn lemma_horner_neg<G: MyGroup>(coeffs: Seq<G>, q: int)
    requires
        all_wf(coeffs),
        0 <= q < G::ScalarField::modulus(),
    ensures
        horner_neg(coeffs, q) == horner(coeffs, neg_mod(q, G::ScalarField::modulus())),
    decreases coeffs.len(),
{
    if coeffs.len() > 0 {
        let p = G::ScalarField::modulus();
        let rest = coeffs.drop_first();
        assert forall|i: int| 0 <= i < rest.len() implies (#[trigger] rest[i]).wf() by {
            assert(rest[i] == coeffs[i + 1]);
        }
        lemma_horner_neg(rest, q);
        lemma_mod_range(-q, p);
        lemma_horner_wf(rest, neg_mod(q, p));
        lemma_scale_neg(horner_neg(rest, q), q);
    }
}

/// Evaluating at a small integer is evaluating at the field element that
/// the integer makes: where `point` is the element of the scalar field
/// with the residue of `small` for representative, `evaluate_small(small)`
/// and `evaluate(point)` return the same value.
pub proof fn lemma_evaluate_small_is_evaluate<G: MyGroup>(
    coeffs: Seq<G>,
    small: i32,
    point: G::ScalarField,
)
    requires
        point.is_canonical(),
        point.value() == int_residue::<G::ScalarField>(small as int),
    ensures
        horner(coeffs, int_residue::<G::ScalarField>(small as int)) == horner(
            coeffs,
            point.value(),
        ),
{
}

impl<G: MyGroup> DenseGroupPolynomial<G> {
    /// Returns the total degree of the polynomial: zero for the zero
    /// polynomial, else the index of the last coefficient, which must not
    /// be zero.
    pub fn degree(&self) -> (d: usize)
        requires
            all_wf(self.coeffs@),
            all_zero(self.coeffs@) || self.coeffs@.last() != G::spec_zero(),
        ensures
            d == if all_zero(self.coeffs@) {
                0
            } else {
                self.coeffs@.len() - 1
            },
    {
        if self.is_zero() {
            0
        } else {
            self.coeffs.len() - 1
        }
    }

    /// Evaluates `self` at the given small integer `point`, taken as an
    /// element of the scalar field.
    /// More efficient than `evaluate` when `|point|` is small and
    /// multiplication of a group element by a small integer (and negating
    /// it) is faster than multiplying by a large integer.
    pub fn evaluate_small(&self, point: i32) -> (r: G)
        requires
            all_wf(self.coeffs@),
        ensures
            r.wf(),
            r == horner(self.coeffs@, int_residue::<G::ScalarField>(point as int)),
            r == sum(monomials(self.coeffs@, int_residue::<G::ScalarField>(point as int))),
    {
        let ghost p = G::ScalarField::modulus();
        proof {
            G::ScalarField::lemma_modulus();
            lemma_mod_range(point as int, p);
            lemma_horner_wf(self.coeffs@, int_residue::<G::ScalarField>(point as int));
            lemma_horner_is_sum_of_monomials(
                self.coeffs@,
                int_residue::<G::ScalarField>(point as int),
            );
        }
        if self.is_zero() {
            proof {
                lemma_horner_all_zero(self.coeffs@, int_residue::<G::ScalarField>(point as int));
            }
            return G::zero();
        } else if point == 0 {
            proof {
                lemma_small_mod(0, p as nat);
                lemma_horner_at_zero(self.coeffs@);
            }
            return self.coeffs[0];
        } else if point < 0 {
            let q: u128 = (-(point as i64)) as u128;
            let neg_point = G::ScalarField::from_u128(q);
            proof {
                lemma_mod_absorb(q as int, 0, p);
                assert(-(q as int) == point as int);
            }
            return Self::horner_evaluate_neg(&self.coeffs, &neg_point);
        } else {
            let pos_point = G::ScalarField::from_u128(point as u128);
            return Self::horner_evaluate(&self.coeffs, &pos_point);
        }
    }

    /// Evaluates `self` at the given `point` in the scalar field: the sum
    /// of the coefficients, each times the power of the point of its
    /// index, which is also what Horner's rule gives.
    pub fn evaluate(&self, point: &G::ScalarField) -> (r: G)
        requires
            all_wf(self.coeffs@),
            point.is_canonical(),
        ensures
            r.wf(),
            r == horner(self.coeffs@, point.value()),
            r == sum(monomials(self.coeffs@, point.value())),
    {
        proof {
            G::ScalarField::lemma_value_range(*point);
            lemma_horner_wf(self.coeffs@, point.value());
            lemma_horner_is_sum_of_monomials(self.coeffs@, point.value());
        }
        if self.is_zero() {
            proof {
                lemma_horner_all_zero(self.coeffs@, point.value());
            }
            return G::zero();
        } else if point.field_is_zero() {
            proof {
                lemma_horner_at_zero(self.coeffs@);
            }
            return self.coeffs[0];
        }
        self.internal_evaluate(point)
    }

    // Horner's method for polynomial evaluation
    pub(crate) fn horner_evaluate(poly_coeffs: &Vec<G>, point: &G::ScalarField) -> (r: G)
        requires
            all_wf(poly_coeffs@),
            point.is_canonical(),
        ensures
            r.wf(),
            r == horner(poly_coeffs@, point.value()),
    {
        let n = poly_coeffs.len();
        let ghost x = point.value();
        let mut result = G::zero();
        let mut i: usize = n;
        proof {
            G::ScalarField::lemma_value_range(*point);
        }
        while i > 0
            invariant
                i <= n,
                n == poly_coeffs@.len(),
                all_wf(poly_coeffs@),
                point.is_canonical(),
                x == point.value(),
                0 <= x < G::ScalarField::modulus(),
                result.wf(),
                result == horner(poly_coeffs@.subrange(i as int, n as int), x),
            decreases i,
        {
            i = i - 1;
            proof {
                let tail = poly_coeffs@.subrange(i as int, n as int);
                assert(tail.drop_first() =~= poly_coeffs@.subrange(i + 1, n as int));
                assert(tail[0] == poly_coeffs@[i as int]);
                lemma_scale(result, *point);
            }
            result = result.mul(point).add(&poly_coeffs[i]);
        }
        proof {
            assert(poly_coeffs@.subrange(0, n as int) =~= poly_coeffs@);
        }
        result
    }

    // Horner's method for polynomial evaluation, to evaluate the polynomial
    // at -neg_point.
    // Faster when neg_point is small and multiplying a group element by
    // neg_point and negating the result is faster than multiplying a group
    // element by -neg_point.
    fn horner_evaluate_neg(poly_coeffs: &Vec<G>, neg_point: &G::ScalarField) -> (r: G)
        requires
            all_wf(poly_coeffs@),
            neg_point.is_canonical(),
        ensures
            r == horner_neg(poly_coeffs@, neg_point.value()),
            r == horner(poly_coeffs@, neg_mod(neg_point.value(), G::ScalarField::modulus())),
    {
        let n = poly_coeffs.len();
        let ghost q = neg_point.value();
        let mut result = G::zero();
        let mut i: usize = n;
        proof {
            G::ScalarField::lemma_value_range(*neg_point);
        }
        while i > 0
            invariant
                i <= n,
                n == poly_coeffs@.len(),
                all_wf(poly_coeffs@),
                neg_point.is_canonical(),
                q == neg_point.value(),
                0 <= q < G::ScalarField::modulus(),
                result.wf(),
                result == horner_neg(poly_coeffs@.subrange(i as int, n as int), q),
            decreases i,
        {
            i = i - 1;
            proof {
                let tail = poly_coeffs@.subrange(i as int, n as int);
                assert(tail.drop_first() =~= poly_coeffs@.subrange(i + 1, n as int));
                assert(tail[0] == poly_coeffs@[i as int]);
                lemma_scale(result, *neg_point);
            }
            result = result.mul(neg_point).neg().add(&poly_coeffs[i]);
        }
        proof {
            assert(poly_coeffs@.subrange(0, n as int) =~= poly_coeffs@);
            lemma_horner_neg(poly_coeffs@, q);
        }
        result
    }

    fn internal_evaluate(&self, point: &G::ScalarField) -> (r: G)
        requires
            all_wf(self.coeffs@),
            point.is_canonical(),
        ensures
            r == horner(self.coeffs@, point.value()),
    {
        Self::horner_evaluate(&self.coeffs, point)
    }

    /// Returns the zero polynomial.
    pub fn zero() -> (r: Self)
        ensures
            r.coeffs@.len() == 0,
    {
        Self { coeffs: Vec::new() }
    }

    /// Checks if the given polynomial is zero: it has no coefficient, or
    /// all its coefficients are zero.
    pub fn is_zero(&self) -> (b: bool)
        requires
            all_wf(self.coeffs@),
        ensures
            b == all_zero(self.coeffs@),
    {
        let mut i: usize = 0;
        while i < self.coeffs.len()
            invariant
                i <= self.coeffs.len(),
                all_wf(self.coeffs@),
                forall|k: int| 0 <= k < i ==> #[trigger] self.coeffs@[k] == G::spec_zero(),
            decreases self.coeffs.len() - i,
        {
            if !self.coeffs[i].is_zero() {
                return false;
            }
            i = i + 1;
        }
        true
    }
}

impl<G: MyGroup> Deref for DenseGroupPolynomial<G> {
    type Target = [G];

    fn deref(&self) -> (r: &[G])
        ensures
            r@ == self.coeffs@,
    {
        self.coeffs.as_slice()
    }
}

impl<G: MyGroup> DerefMut for DenseGroupPolynomial<G> {
    fn deref_mut(&mut self) -> (r: &mut [G])
        ensures
            r@ == old(self).coeffs@,
            final(r)@ == final(self).coeffs@,
    {
        self.coeffs.as_mut_slice()
    }
}

/// The `i`-th entry of the centred range of `n` integers:
/// the range starts at `-floor((n - 1) / 2)` and counts upwards.
pub open spec fn smallest_range_at(n: int, i: int) -> int {
    i - (n - 1) / 2
}

/// Returns the vector `[-floor((n-1)/2), ..., floor(n/2)]` of the `n`
/// integers closest to zero.
pub fn smallest_range(n: i32) -> (v: Vec<i32>)
    requires
        n >= 0,
    ensures
        v@.len() == n,
        forall|i: int|
            #![trigger v@[i]]
            #![trigger smallest_range_at(n as int, i)]
            0 <= i < n ==> v@[i] as int == smallest_range_at(n as int, i),
{
    let mut v: Vec<i32> = Vec::with_capacity(n as usize);
    if n == 0 {
        return v;
    }
    let min: i32 = -((n - 1) / 2);
    let max: i32 = n / 2;
    let mut i: i32 = min;
    while i <= max
        invariant
            n > 0,
            min == -((n - 1) / 2),
            max == n / 2,
            min <= i <= max + 1,
            v@.len() == i - min,
            forall|k: int| 0 <= k < v@.len() ==> v@[k] as int == smallest_range_at(n as int, k),
        decreases max + 1 - i,
    {
        v.push(i);
        i = i + 1;
    }
    v
}

} // verus!
