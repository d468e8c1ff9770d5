//! The extension of the values of a polynomial from the sub-coset `s` of a
//! level to its sub-coset `s_prime`.

use crate::ecfft::decomposition::lemma_extend_agrees_with_naive;
use crate::ecfft::laws::evaluations;
use crate::ecfft::{steps_view, EcFftCosetPrecomputation, EcFftPrecomputationStep, StepSpec};
use crate::field::PrimeField;
use crate::group_laws::all_wf;
use crate::modular::is_prime;
use crate::my_group::MyGroup;
use crate::utils::isogeny::Isogeny;
use crate::utils::matrix::{mat_apply, Mat2};
use vstd::prelude::*;
use vstd::slice::slice_to_vec;

verus! {

/// The first (or, with `second`, the second) coordinates of the products
/// of the matrices by the pairs `(evals[j], evals[j + |evals| / 2])`.
pub open spec fn reduce_pairs<G: MyGroup>(inverse: Seq<Mat2>, evals: Seq<G>, second: bool) -> Seq<
    G,
> {
    let nn = evals.len() / 2;
    Seq::new(
        nn as nat,
        |j: int|
            {
                let w = mat_apply(inverse[j], evals[j], evals[j + nn]);
                if second {
                    w.1
                } else {
                    w.0
                }
            },
    )
}

/// The products of the matrices by the pairs `(e0[j], e1[j])`: the first
/// coordinates, followed by the second coordinates.
pub open spec fn combine_pairs<G: MyGroup>(matrices: Seq<Mat2>, e0: Seq<G>, e1: Seq<G>) -> Seq<G> {
    let nn = e0.len() as int;
    Seq::new(
        (2 * nn) as nat,
        |j: int|
            if j < nn {
                mat_apply(matrices[j], e0[j], e1[j]).0
            } else {
                mat_apply(matrices[j - nn], e0[j - nn], e1[j - nn]).1
            },
    )
}

/// What `extend` computes from the evaluations `evals` on the sub-coset
/// `s` of level `t`: each pair of evaluations is taken by the inverse
/// matrix of the pair to a pair of evaluations on the next level; these are
/// extended at the next level; and each pair of the extended evaluations
/// is taken back by the matrix of the pair of `s_prime`.
pub open spec fn extend_spec<F: PrimeField, G: MyGroup<ScalarField = F>>(
    steps: Seq<StepSpec<F>>,
    t: int,
    evals: Seq<G>,
) -> Seq<G>
    decreases evals.len(),
{
    if evals.len() <= 1 {
        evals
    } else {
        let step = steps[t];
        let h0 = reduce_pairs(step.inverse_matrices, evals, false);
        let h1 = reduce_pairs(step.inverse_matrices, evals, true);
        combine_pairs(step.matrices, extend_spec(steps, t + 1, h0), extend_spec(steps, t + 1, h1))
    }
}

impl<F: PrimeField> EcFftPrecomputationStep<F> {
    /// Takes each pair of evaluations on `s` to the evaluations of the two
    /// halves of the polynomial at the image of the pair.
    fn reduce<G: MyGroup<ScalarField = F>>(&self, evals: &[G]) -> (r: (Vec<G>, Vec<G>))
        requires
            self.wf(),
            evals@.len() == self.s@.len(),
            evals@.len() >= 2,
            all_wf(evals@),
        ensures
            all_wf(r.0@),
            all_wf(r.1@),
            r.0@ == reduce_pairs(self@.inverse_matrices, evals@, false),
            r.1@ == reduce_pairs(self@.inverse_matrices, evals@, true),
    {
        let n = evals.len();
        let nn = n / 2;
        let ghost inverse = self@.inverse_matrices;
        let mut h0: Vec<G> = Vec::with_capacity(nn);
        let mut h1: Vec<G> = Vec::with_capacity(nn);
        let mut j: usize = 0;
        while j < nn
            invariant
                self.wf(),
                inverse == self@.inverse_matrices,
                n == evals@.len(),
                n == self.s@.len(),
                nn == n / 2,
                n >= 2,
                all_wf(evals@),
                j <= nn,
                h0@.len() == j,
                h1@.len() == j,
                all_wf(h0@),
                all_wf(h1@),
                forall|i: int|
                    0 <= i < j ==> #[trigger] h0@[i] == reduce_pairs(inverse, evals@, false)[i],
                forall|i: int|
                    0 <= i < j ==> #[trigger] h1@[i] == reduce_pairs(inverse, evals@, true)[i],
            decreases nn - j,
        {
            assert(self.inverse_matrices@[j as int].wf());
            assert(inverse[j as int] == self.inverse_matrices@[j as int]@);
            let w = self.inverse_matrices[j].multiply([evals[j], evals[j + nn]]);
            h0.push(w[0]);
            h1.push(w[1]);
            j = j + 1;
        }
        proof {
            assert(h0@ =~= reduce_pairs(inverse, evals@, false));
            assert(h1@ =~= reduce_pairs(inverse, evals@, true));
        }
        (h0, h1)
    }

    /// Takes each pair of evaluations of the two halves of the polynomial
    /// at the image of a pair of `s_prime` to the evaluations of the
    /// polynomial at the pair.
    fn combine<G: MyGroup<ScalarField = F>>(&self, e0: &Vec<G>, e1: &Vec<G>) -> (r: Vec<G>)
        requires
            self.wf(),
            e0@.len() == self.s@.len() / 2,
            e1@.len() == self.s@.len() / 2,
            self.s@.len() % 2 == 0,
            all_wf(e0@),
            all_wf(e1@),
        ensures
            r@.len() == self.s@.len(),
            all_wf(r@),
            r@ == combine_pairs(self@.matrices, e0@, e1@),
    {
        let nn = e0.len();
        let ghost out = combine_pairs(self@.matrices, e0@, e1@);
        let mut left: Vec<G> = Vec::with_capacity(nn);
        let mut right: Vec<G> = Vec::with_capacity(nn);
        let mut j: usize = 0;
        while j < nn
            invariant
                self.wf(),
                nn == self.s@.len() / 2,
                e0@.len() == nn,
                e1@.len() == nn,
                all_wf(e0@),
                all_wf(e1@),
                out == combine_pairs(self@.matrices, e0@, e1@),
                j <= nn,
                left@.len() == j,
                right@.len() == j,
                all_wf(left@),
                all_wf(right@),
                forall|i: int| 0 <= i < j ==> #[trigger] left@[i] == out[i],
                forall|i: int| 0 <= i < j ==> #[trigger] right@[i] == out[i + nn],
            decreases nn - j,
        {
            assert(self.matrices@[j as int].wf());
            assert(self@.matrices[j as int] == self.matrices@[j as int]@);
            let w = self.matrices[j].multiply([e0[j], e1[j]]);
            left.push(w[0]);
            right.push(w[1]);
            j = j + 1;
        }
        let mut j: usize = 0;
        while j < nn
            invariant
                out.len() == nn + nn,
                right@.len() == nn,
                all_wf(right@),
                all_wf(left@),
                j <= nn,
                left@.len() == nn + j,
                forall|i: int| 0 <= i < nn ==> #[trigger] right@[i] == out[i + nn],
                forall|i: int| 0 <= i < nn + j ==> #[trigger] left@[i] == out[i],
            decreases nn - j,
        {
            left.push(right[j]);
            j = j + 1;
        }
        proof {
            assert(left@ =~= out);
        }
        left
    }
}

impl<F: PrimeField> EcFftCosetPrecomputation<F> {
    /// The precomputation has a level whose sub-cosets have `len` elements.
    pub open spec fn has_level(&self, len: nat) -> bool {
        exists|t: int| 0 <= t < self.steps@.len() && (#[trigger] self.steps@[t]).s@.len() == len
    }

    /// Extends evaluations at level `t`.
    pub(crate) fn extend_at<G: MyGroup<ScalarField = F>>(&self, t: usize, evals: &[G]) -> (r: Vec<G>)
        requires
            self.wf(),
            t < self.steps@.len(),
            evals@.len() == self.steps@[t as int].s@.len(),
            all_wf(evals@),
        ensures
            r@.len() == evals@.len(),
            all_wf(r@),
            r@ == extend_spec(steps_view(self.steps@), t as int, evals@),
        decreases evals@.len(),
    {
        let n = evals.len();
        if n == 1 {
            return slice_to_vec(evals);
        }
        let count = self.steps.len();
        let step = &self.steps[t];
        proof {
            assert(step.wf());
            assert(steps_view(self.steps@)[t as int] == step@);
            assert(t < self.steps@.len() - 1);
            assert(self.steps@[t as int].s@.len() == 2 * self.steps@[t + 1].s@.len());
        }
        let (h0, h1) = step.reduce(evals);
        let e0 = self.extend_at(t + 1, h0.as_slice());
        let e1 = self.extend_at(t + 1, h1.as_slice());
        step.combine(&e0, &e1)
    }

    /// From `evals`, the evaluations of a polynomial on the sub-coset `s`
    /// of a level, computes the evaluations of the polynomial on the
    /// sub-coset `s_prime` of that level. The polynomial has as many
    /// coefficients as `s` has elements, or fewer, and the level is the
    /// one whose sub-cosets have as many elements as there are
    /// evaluations.
    ///
    /// The result is what the levels make of the evaluations, for any
    /// levels; over a field, where the levels are those of a valid tower
    /// of isogenies, it is the evaluations of the polynomial on `s_prime`.
    pub fn extend<G: MyGroup<ScalarField = F>>(&self, evals: &[G]) -> (r: Vec<G>)
        requires
            self.wf(),
            self.has_level(evals@.len()),
            all_wf(evals@),
        ensures
            r@.len() == evals@.len(),
            all_wf(r@),
            forall|t: int|
                0 <= t < self.steps@.len() && (#[trigger] self.steps@[t]).s@.len() == evals@.len()
                    ==> r@ == extend_spec(steps_view(self.steps@), t, evals@),
            forall|isogenies: Seq<Isogeny<F>>, coeffs: Seq<G>, t: int|
                #![trigger self.is_precomputation_with(isogenies), evaluations(coeffs, self.steps@[t].s@)]
                is_prime(F::modulus()) && self.is_precomputation_with(isogenies) && 0 <= t
                    < self.steps@.len() && all_wf(coeffs) && coeffs.len() <= evals@.len() && evals@
                    == evaluations(coeffs, self.steps@[t].s@) ==> r@ == evaluations(
                    coeffs,
                    self.steps@[t].s_prime@,
                ),
    {
        let n = evals.len();
        let mut t: usize = 0;
        while t < self.steps.len() && self.steps[t].s.len() != n
            invariant
                self.wf(),
                n == evals@.len(),
                t <= self.steps@.len(),
                forall|i: int| 0 <= i < t ==> (#[trigger] self.steps@[i]).s@.len() != n,
            decreases self.steps@.len() - t,
        {
            t = t + 1;
        }
        proof {
            self.lemma_level_unique(t as int);
        }
        let r = self.extend_at(t, evals);
        proof {
            assert forall|isogenies: Seq<Isogeny<F>>, coeffs: Seq<G>, u: int|
                #![trigger self.is_precomputation_with(isogenies), evaluations(coeffs, self.steps@[u].s@)]
                is_prime(F::modulus()) && self.is_precomputation_with(isogenies) && 0 <= u
                    < self.steps@.len() && all_wf(coeffs) && coeffs.len() <= evals@.len() && evals@
                    == evaluations(coeffs, self.steps@[u].s@) implies r@ == evaluations(
                coeffs,
                self.steps@[u].s_prime@,
            ) by {
                assert(self.steps@[u].s@.len() == evals@.len());
                lemma_extend_agrees_with_naive(*self, isogenies, u, coeffs);
            }
        }
        r
    }

    /// The sub-cosets of different levels have different lengths.
    proof fn lemma_level_unique(&self, t: int)
        requires
            self.wf(),
            0 <= t <= self.steps@.len(),
        ensures
            forall|u: int|
                t < u < self.steps@.len() ==> (#[trigger] self.steps@[u]).s@.len()
                    < self.steps@[t].s@.len(),
        decreases self.steps@.len() - t,
    {
        if t < self.steps@.len() - 1 {
            self.lemma_level_unique(t + 1);
            assert(self.steps@[t].s@.len() == 2 * self.steps@[t + 1].s@.len());
            assert(self.steps@[t + 1].wf());
        }
    }
}

} // verus!
