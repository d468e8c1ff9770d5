//! Tools to test easily a specific ECFFT parameter set: the transform is
//! held against the evaluation of given polynomials point by point.

use crate::ecfft::domain::{
    every_nth, lemma_stride_index, lemma_sub_coset_index, strided, sub_coset, sub_coset_spec,
};
use crate::ecfft::evaluate::{evaluate_spec, precomputations_view};
use crate::ecfft::laws::{evaluations, extends_at};
use crate::ecfft::precomputation::{all_isogenies_wf, coset_valid, precompute_on_coset};
use crate::ecfft::{EcFftCosetPrecomputation, EcFftPrecomputation};
use crate::field::PrimeField;
use crate::group_laws::{all_canonical, all_wf, group_vec_eq};
use crate::group_polynomial::DenseGroupPolynomial;
use crate::my_group::MyGroup;
use crate::utils::isogeny::Isogeny;
use vstd::prelude::*;

verus! {

/// The values of the polynomial at each of the points, each by an
/// evaluation of its own.
pub fn evaluate_at_points<G: MyGroup>(
    poly: &DenseGroupPolynomial<G>,
    points: &Vec<G::ScalarField>,
) -> (r: Vec<G>)
    requires
        all_wf(poly.coeffs@),
        all_canonical(points@),
    ensures
        all_wf(r@),
        r@ == evaluations(poly.coeffs@, points@),
{
    let mut r: Vec<G> = Vec::with_capacity(points.len());
    let mut j: usize = 0;
    while j < points.len()
        invariant
            all_wf(poly.coeffs@),
            all_canonical(points@),
            j <= points@.len(),
            r@.len() == j,
            all_wf(r@),
            forall|k: int| 0 <= k < j ==> r@[k] == evaluations(poly.coeffs@, points@)[k],
        decreases points@.len() - j,
    {
        r.push(poly.evaluate(&points[j]));
        j = j + 1;
    }
    proof {
        assert(r@ =~= evaluations(poly.coeffs@, points@));
    }
    r
}

/// Tests that the precomputations exist on the coset and on its sub-coset
/// of the elements of even index.
pub fn test_precompute<F: PrimeField>(coset: &[F], isogenies: &[Isogeny<F>]) -> (ok: bool)
    requires
        all_canonical(coset@),
        all_isogenies_wf(isogenies@),
    ensures
        ok == (coset_valid(coset@, isogenies@) && coset_valid(
            strided(coset@, 0, 2),
            isogenies@,
        )),
{
    if precompute_on_coset(coset, isogenies).is_none() {
        return false;
    }
    let half = every_nth(coset, 0, 2);
    proof {
        assert forall|i: int| 0 <= i < half@.len() implies (#[trigger] half@[i]).is_canonical() by {
            lemma_stride_index(coset@.len() as int, 0, 2, i);
        }
    }
    precompute_on_coset(half.as_slice(), isogenies).is_some()
}

/// Tests the extend function at level `i`, 1 <= i, with a polynomial of as
/// many coefficients as the sub-cosets of the level have elements:
/// whether extending the values of the polynomial on `s` gives its values
/// on `s_prime`.
pub fn test_extend_i<G: MyGroup>(
    i: usize,
    precomputation: &EcFftCosetPrecomputation<G::ScalarField>,
    poly: &DenseGroupPolynomial<G>,
) -> (ok: bool)
    requires
        precomputation.wf(),
        1 <= i <= precomputation.steps@.len(),
        poly.coeffs@.len() == precomputation.steps@[i - 1].s@.len(),
        all_wf(poly.coeffs@),
    ensures
        ok == extends_at(*precomputation, i - 1, poly.coeffs@),
{
    let step = &precomputation.steps[i - 1];
    assert(step.wf());
    let evals_s = evaluate_at_points(poly, &step.s);
    let evals_s_prime = evaluate_at_points(poly, &step.s_prime);
    let extended = precomputation.extend(evals_s.as_slice());
    group_vec_eq(&evals_s_prime, &extended)
}

/// The polynomial for a level is of group elements, as many as the
/// sub-cosets of the level have elements.
pub open spec fn fits_level<G: MyGroup>(
    precomputation: EcFftCosetPrecomputation<G::ScalarField>,
    level: int,
    poly: DenseGroupPolynomial<G>,
) -> bool {
    &&& all_wf(poly.coeffs@)
    &&& poly.coeffs@.len() == precomputation.steps@[level].s@.len()
}

/// Tests the extend function at the levels `1`, `2`, ... with the
/// polynomials given, one for each level.
pub fn test_extend<G: MyGroup>(
    precomputation: &EcFftCosetPrecomputation<G::ScalarField>,
    polys: &Vec<DenseGroupPolynomial<G>>,
) -> (ok: bool)
    requires
        precomputation.wf(),
        polys@.len() <= precomputation.steps@.len(),
        forall|i: int| 0 <= i < polys@.len() ==> #[trigger] fits_level(*precomputation, i, polys@[i]),
    ensures
        ok == forall|i: int|
            0 <= i < polys@.len() ==> #[trigger] extends_at(*precomputation, i, polys@[i].coeffs@),
{
    let count = polys.len();
    let mut k: usize = 0;
    while k < count
        invariant
            precomputation.wf(),
            count == polys@.len(),
            count <= precomputation.steps@.len(),
            forall|i: int|
                0 <= i < polys@.len() ==> #[trigger] fits_level(*precomputation, i, polys@[i]),
            k <= count,
            forall|i: int|
                0 <= i < k ==> #[trigger] extends_at(*precomputation, i, polys@[i].coeffs@),
        decreases count - k,
    {
        assert(fits_level(*precomputation, k as int, polys@[k as int]));
        let ok = test_extend_i(k + 1, precomputation, &polys[k]);
        if !ok {
            assert(!extends_at(*precomputation, k as int, polys@[k as int].coeffs@));
            return false;
        }
        k = k + 1;
    }
    true
}

/// Tests the `evaluate_over_domain` function with a polynomial of as many
/// coefficients as the sub-coset at depth `i` has elements: whether it
/// gives the values of the polynomial at the elements of the sub-coset.
pub fn test_eval_i<G: MyGroup>(
    i: usize,
    coset: &[G::ScalarField],
    precomputation: &EcFftPrecomputation<G::ScalarField>,
    poly: &DenseGroupPolynomial<G>,
) -> (ok: bool)
    requires
        all_canonical(coset@),
        precomputation.wf(),
        precomputation.has_domain(poly.coeffs@.len()),
        all_wf(poly.coeffs@),
    ensures
        forall|d: int|
            0 <= d < precomputation.coset_precomputations@.len() && (
            #[trigger] precomputation.coset_precomputations@[d]).coset@.len()
                == poly.coeffs@.len() ==> ok == (evaluate_spec(
                precomputations_view(precomputation.coset_precomputations@),
                d,
                poly.coeffs@,
            ) == evaluations(poly.coeffs@, sub_coset_spec(coset@, i as nat))),
{
    let domain = sub_coset(coset, i);
    proof {
        assert forall|k: int| 0 <= k < domain@.len() implies (#[trigger] domain@[k]).is_canonical() by {
            lemma_sub_coset_index(coset@, i as nat, k);
        }
    }
    let evals = evaluate_at_points(poly, &domain);
    let transformed = precomputation.evaluate_over_domain(poly);
    group_vec_eq(&evals, &transformed)
}

/// Tests that the transform is a function of its arguments: the
/// polynomial is evaluated over its domain twice, and extended from its
/// values twice where the precomputation on the domain has a level for
/// them, and the results of the two times are held against each other.
/// They are always equal.
pub fn test_deterministic<G: MyGroup>(
    precomputation: &EcFftPrecomputation<G::ScalarField>,
    poly: &DenseGroupPolynomial<G>,
) -> (ok: bool)
    requires
        precomputation.wf(),
        precomputation.has_domain(poly.coeffs@.len()),
        all_wf(poly.coeffs@),
    ensures
        ok,
{
    let first = precomputation.evaluate_over_domain(poly);
    let second = precomputation.evaluate_over_domain(poly);
    let mut ok = group_vec_eq(&first, &second);
    let on_coset = &precomputation.coset_precomputations[0];
    assert(on_coset.wf());
    let mut t: usize = 0;
    while t < on_coset.steps.len()
        invariant
            ok,
            on_coset.wf(),
            all_wf(first@),
            t <= on_coset.steps@.len(),
        decreases on_coset.steps@.len() - t,
    {
        if on_coset.steps[t].s.len() == first.len() {
            let extended = on_coset.extend(first.as_slice());
            let again = on_coset.extend(first.as_slice());
            ok = ok && group_vec_eq(&extended, &again);
        }
        t = t + 1;
    }
    ok
}

} // verus!
