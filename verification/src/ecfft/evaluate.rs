//! The evaluation of a polynomial on a coset.

use crate::ecfft::decomposition::lemma_evaluate_agrees_with_naive;
use crate::ecfft::extend::extend_spec;
use crate::ecfft::laws::evaluations;
use crate::ecfft::{steps_view, EcFftCosetPrecomputation, EcFftPrecomputation, StepSpec};
use crate::field::{field_pow, PrimeField};
use crate::group_laws::all_wf;
use crate::group_polynomial::DenseGroupPolynomial;
use crate::modular::{is_prime, pow_mod};
use crate::my_group::{lemma_scale, scale, MyGroup};
use crate::utils::isogeny::Isogeny;
use vstd::prelude::*;
use vstd::slice::{slice_subrange, slice_to_vec};

verus! {

/// The evaluations on a coset, in its order, from those of the low and of
/// the high half of the coefficients on `s` (`le`, `he`) and on `s_prime`
/// (`lp`, `hp`): at each point `x` the low half plus `x^|s|` times the high
/// half.
pub open spec fn butterfly<F: PrimeField, G: MyGroup<ScalarField = F>>(
    s: Seq<F>,
    s_prime: Seq<F>,
    le: Seq<G>,
    he: Seq<G>,
    lp: Seq<G>,
    hp: Seq<G>,
) -> Seq<G> {
    let nn = le.len();
    Seq::new(
        2 * nn,
        |i: int|
            if i % 2 == 0 {
                le[i / 2].spec_add(scale(he[i / 2], pow_mod(s[i / 2].value(), nn, F::modulus())))
            } else {
                lp[i / 2].spec_add(
                    scale(hp[i / 2], pow_mod(s_prime[i / 2].value(), nn, F::modulus())),
                )
            },
    )
}

/// What `evaluate_over_domain` computes from the coefficients `coeffs`
/// with the precomputations `pre`, of which entry `d` is that on the coset
/// of as many elements as there are coefficients: the two halves of the
/// coefficients are evaluated on the sub-coset `s` with entry `d + 1`,
/// extended to `s_prime`, and put together.
pub open spec fn evaluate_spec<F: PrimeField, G: MyGroup<ScalarField = F>>(
    pre: Seq<Seq<StepSpec<F>>>,
    d: int,
    coeffs: Seq<G>,
) -> Seq<G>
    decreases coeffs.len(),
{
    if coeffs.len() <= 1 {
        coeffs
    } else {
        let nn = (coeffs.len() / 2) as int;
        let le = evaluate_spec(pre, d + 1, coeffs.subrange(0, nn));
        let he = evaluate_spec(pre, d + 1, coeffs.subrange(nn, coeffs.len() as int));
        let steps = pre[d];
        butterfly(
            steps[0].s,
            steps[0].s_prime,
            le,
            he,
            extend_spec(steps, 0, le),
            extend_spec(steps, 0, he),
        )
    }
}

/// The levels of each of a sequence of precomputations.
pub open spec fn precomputations_view<F: PrimeField>(
    pre: Seq<EcFftCosetPrecomputation<F>>,
) -> Seq<Seq<StepSpec<F>>> {
    Seq::new(pre.len(), |d: int| steps_view(pre[d].steps@))
}

impl<F: PrimeField> EcFftPrecomputation<F> {
    /// There is a coset of `len` elements.
    pub open spec fn has_domain(&self, len: nat) -> bool {
        exists|d: int|
            0 <= d < self.coset_precomputations@.len() && (
            #[trigger] self.coset_precomputations@[d]).coset@.len() == len
    }

    /// Evaluates the polynomial with the given coefficients on the coset
    /// of entry `d`.
    fn evaluate_at<G: MyGroup<ScalarField = F>>(&self, d: usize, coeffs: &[G]) -> (r: Vec<G>)
        requires
            self.wf(),
            d < self.coset_precomputations@.len(),
            coeffs@.len() == self.coset_precomputations@[d as int].coset@.len(),
            all_wf(coeffs@),
        ensures
            r@.len() == coeffs@.len(),
            all_wf(r@),
            r@ == evaluate_spec(
                precomputations_view(self.coset_precomputations@),
                d as int,
                coeffs@,
            ),
        decreases coeffs@.len(),
    {
        let n = coeffs.len();
        if n == 1 {
            return slice_to_vec(coeffs);
        }
        let nn = n / 2;
        let count = self.coset_precomputations.len();
        let pre = &self.coset_precomputations[d];
        let ghost view = precomputations_view(self.coset_precomputations@);
        proof {
            assert(pre.wf());
            assert(d < self.coset_precomputations@.len() - 1);
            assert(self.coset_precomputations@[d as int].coset@.len() == 2
                * self.coset_precomputations@[d + 1].coset@.len());
            assert(view[d as int] == steps_view(pre.steps@));
            assert(pre.steps@[0].wf());
            assert(steps_view(pre.steps@)[0] == pre.steps@[0]@);
        }
        let le = self.evaluate_at(d + 1, slice_subrange(coeffs, 0, nn));
        let he = self.evaluate_at(d + 1, slice_subrange(coeffs, nn, n));
        let lp = pre.extend_at(0, le.as_slice());
        let hp = pre.extend_at(0, he.as_slice());
        let step = &pre.steps[0];
        let ghost out = butterfly(step.s@, step.s_prime@, le@, he@, lp@, hp@);
        let mut r: Vec<G> = Vec::with_capacity(n);
        let mut j: usize = 0;
        while j < nn
            invariant
                step.wf(),
                step.s@.len() == nn,
                nn + nn == n,
                le@.len() == nn,
                he@.len() == nn,
                lp@.len() == nn,
                hp@.len() == nn,
                all_wf(le@),
                all_wf(he@),
                all_wf(lp@),
                all_wf(hp@),
                out == butterfly(step.s@, step.s_prime@, le@, he@, lp@, hp@),
                j <= nn,
                r@.len() == 2 * j,
                all_wf(r@),
                forall|i: int| 0 <= i < 2 * j ==> #[trigger] r@[i] == out[i],
            decreases nn - j,
        {
            let x = field_pow(&step.s[j], nn as u64);
            let x_prime = field_pow(&step.s_prime[j], nn as u64);
            proof {
                lemma_scale(he@[j as int], x);
                lemma_scale(hp@[j as int], x_prime);
                assert(out[2 * j] == le@[j as int].spec_add(
                    scale(he@[j as int], pow_mod(step.s@[j as int].value(), nn as nat, F::modulus())),
                ));
                assert(out[2 * j + 1] == lp@[j as int].spec_add(
                    scale(
                        hp@[j as int],
                        pow_mod(step.s_prime@[j as int].value(), nn as nat, F::modulus()),
                    ),
                ));
            }
            r.push(le[j].add(&he[j].mul(&x)));
            r.push(lp[j].add(&hp[j].mul(&x_prime)));
            j = j + 1;
        }
        proof {
            assert(r@ =~= out);
        }
        r
    }

    /// Evaluates the polynomial on the coset that has as many elements as
    /// the polynomial has coefficients; the values come in the order of
    /// the coset.
    ///
    /// The result is what the precomputations make of the coefficients,
    /// for any precomputations; over a field, where they are those on a
    /// coset and its sub-cosets with a valid tower of isogenies, it is the
    /// values of the polynomial at the elements of the coset.
    pub fn evaluate_over_domain<G: MyGroup<ScalarField = F>>(
        &self,
        poly: &DenseGroupPolynomial<G>,
    ) -> (r: Vec<G>)
        requires
            self.wf(),
            self.has_domain(poly.coeffs@.len()),
            all_wf(poly.coeffs@),
        ensures
            r@.len() == poly.coeffs@.len(),
            all_wf(r@),
            forall|d: int|
                0 <= d < self.coset_precomputations@.len() && (
                #[trigger] self.coset_precomputations@[d]).coset@.len() == poly.coeffs@.len()
                    ==> r@ == evaluate_spec(
                    precomputations_view(self.coset_precomputations@),
                    d,
                    poly.coeffs@,
                ),
            forall|coset: Seq<F>, isogenies: Seq<Isogeny<F>>, d: int|
                #![trigger self.is_precomputation_of(coset, isogenies), self.coset_precomputations@[d]]
                is_prime(F::modulus()) && self.is_precomputation_of(coset, isogenies) && 0 <= d
                    < self.coset_precomputations@.len() && self.coset_precomputations@[d].coset@.len()
                    == poly.coeffs@.len() ==> r@ == evaluations(
                    poly.coeffs@,
                    self.coset_precomputations@[d].coset@,
                ),
    {
        let n = poly.coeffs.len();
        let mut d: usize = 0;
        while d < self.coset_precomputations.len() && self.coset_precomputations[d].coset.len()
            != n
            invariant
                self.wf(),
                n == poly.coeffs@.len(),
                d <= self.coset_precomputations@.len(),
                forall|i: int|
                    0 <= i < d ==> (#[trigger] self.coset_precomputations@[i]).coset@.len() != n,
            decreases self.coset_precomputations@.len() - d,
        {
            d = d + 1;
        }
        proof {
            self.lemma_domain_unique(d as int);
        }
        let r = self.evaluate_at(d, poly.coeffs.as_slice());
        proof {
            assert forall|coset: Seq<F>, isogenies: Seq<Isogeny<F>>, e: int|
                #![trigger self.is_precomputation_of(coset, isogenies), self.coset_precomputations@[e]]
                is_prime(F::modulus()) && self.is_precomputation_of(coset, isogenies) && 0 <= e
                    < self.coset_precomputations@.len() && self.coset_precomputations@[e].coset@.len()
                    == poly.coeffs@.len() implies r@ == evaluations(
                poly.coeffs@,
                self.coset_precomputations@[e].coset@,
            ) by {
                lemma_evaluate_agrees_with_naive(
                    self.coset_precomputations@,
                    coset,
                    isogenies,
                    e,
                    poly.coeffs@,
                );
            }
        }
        r
    }

    /// The cosets of different entries have different lengths.
    proof fn lemma_domain_unique(&self, d: int)
        requires
            self.wf(),
            0 <= d <= self.coset_precomputations@.len(),
        ensures
            forall|e: int|
                d < e < self.coset_precomputations@.len() ==> (
                #[trigger] self.coset_precomputations@[e]).coset@.len()
                    < self.coset_precomputations@[d].coset@.len(),
        decreases self.coset_precomputations@.len() - d,
    {
        if d < self.coset_precomputations@.len() - 1 {
            self.lemma_domain_unique(d + 1);
            assert(self.coset_precomputations@[d].coset@.len() == 2
                * self.coset_precomputations@[d + 1].coset@.len());
            assert(self.coset_precomputations@[d + 1].wf());
        }
    }
}

} // verus!
