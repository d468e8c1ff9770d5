//! The elliptic-curve FFT: precomputation on a coset, the extension of
//! evaluations from one half of a coset to the other, and the evaluation of
//! a polynomial on a coset.
//!
//! A coset is the sequence of the x-coordinates of the points
//! `Q + i * P`, in the order of `i`. Its elements of even index form the
//! sub-coset `S`, those of odd index the sub-coset `S'`. Within `S` (and
//! within `S'`) the elements at `j` and at `j + |S| / 2` have the same image
//! under the first isogeny of the tower, and these images, for `j` below
//! `|S| / 2`, form the sub-coset of the next level.
//!
//! - [`domain`]: sub-cosets.
//! - [`precomputation`]: the levels of the precomputation on a coset.
//! - [`extend`]: from the values of a polynomial on `S` to its values on
//!   `S'`.
//! - [`evaluate`]: the values of a polynomial on a coset.
//! - [`laws`], [`decomposition`]: that `extend` and `evaluate_over_domain`
//!   compute the values of the polynomial, over a field and for a valid
//!   tower.
//! - [`read_ecfft`]: the stored form of cosets and isogenies.
//! - [`ecfft_tests`]: checks of a parameter set against evaluation point
//!   by point.

pub mod decomposition;
pub mod domain;
pub mod ecfft_tests;
pub mod evaluate;
pub mod extend;
pub mod laws;
pub mod precomputation;
pub mod read_ecfft;

pub use crate::ecfft::domain::{check_power_of_two, every_nth, sub_coset};
pub use crate::ecfft::precomputation::{precompute, precompute_on_coset};

use crate::ecfft::domain::sub_coset_spec;
use crate::ecfft::precomputation::{
    all_isogenies_wf, coset_steps_spec, coset_valid, precomputations_match, sub_cosets_valid,
};
use crate::ecfft::read_ecfft::{
    blob_decodable, blob_elements, isogeny_matches, read_elements, read_isogenies,
};
use crate::field::PrimeField;
use crate::group_laws::all_canonical;
use crate::utils::isogeny::Isogeny;
use crate::utils::matrix::{Mat2, Matrix};
use vstd::arithmetic::power2::{
    lemma2_to64, lemma_pow2_strictly_increases, lemma_pow2_unfold, pow2,
};
use vstd::prelude::*;

verus! {

/// One level of the precomputation on a coset.
pub struct EcFftPrecomputationStep<F: PrimeField> {
    /// The sub-coset on which evaluations are given.
    pub s: Vec<F>,
    /// The sub-coset to which evaluations are extended.
    pub s_prime: Vec<F>,
    /// For each pair of `s_prime`, the matrix that takes the values of the
    /// two halves of a polynomial at the image of the pair to the values of
    /// the polynomial at the pair.
    pub matrices: Vec<Matrix<F>>,
    /// For each pair of `s`, the matrix that takes the values of a
    /// polynomial at the pair to the values of its two halves at the image
    /// of the pair.
    pub inverse_matrices: Vec<Matrix<F>>,
}

/// The model of a level: its two sub-cosets and its matrices as residues.
pub struct StepSpec<F> {
    pub s: Seq<F>,
    pub s_prime: Seq<F>,
    pub matrices: Seq<Mat2>,
    pub inverse_matrices: Seq<Mat2>,
}

/// The precomputation on one coset: a level for each halving of its
/// sub-cosets, down to sub-cosets of one element.
pub struct EcFftCosetPrecomputation<F: PrimeField> {
    pub coset: Vec<F>,
    pub steps: Vec<EcFftPrecomputationStep<F>>,
}

/// The precomputations on the coset and on each of its sub-cosets: entry
/// `d` is that on every `2^d`-th element of the coset.
pub struct EcFftPrecomputation<F: PrimeField> {
    pub coset_precomputations: Vec<EcFftCosetPrecomputation<F>>,
}

/// The residues of a sequence of matrices.
pub open spec fn matrices_view<F: PrimeField>(m: Seq<Matrix<F>>) -> Seq<Mat2> {
    Seq::new(m.len(), |j: int| m[j]@)
}

impl<F: PrimeField> View for EcFftPrecomputationStep<F> {
    type V = StepSpec<F>;

    open spec fn view(&self) -> StepSpec<F> {
        StepSpec {
            s: self.s@,
            s_prime: self.s_prime@,
            matrices: matrices_view(self.matrices@),
            inverse_matrices: matrices_view(self.inverse_matrices@),
        }
    }
}

/// The models of a sequence of levels.
pub open spec fn steps_view<F: PrimeField>(steps: Seq<EcFftPrecomputationStep<F>>) -> Seq<
    StepSpec<F>,
> {
    Seq::new(steps.len(), |t: int| steps[t]@)
}

impl<F: PrimeField> EcFftPrecomputationStep<F> {
    /// The level holds field elements, its two sub-cosets have the same
    /// length, and it has a matrix and an inverse matrix for each pair.
    pub open spec fn wf(&self) -> bool {
        &&& self.s@.len() >= 1
        &&& self.s@.len() == self.s_prime@.len()
        &&& self.matrices@.len() == self.s@.len() / 2
        &&& self.inverse_matrices@.len() == self.s@.len() / 2
        &&& all_canonical(self.s@)
        &&& all_canonical(self.s_prime@)
        &&& forall|j: int| 0 <= j < self.matrices@.len() ==> (#[trigger] self.matrices@[j]).wf()
        &&& forall|j: int|
            0 <= j < self.inverse_matrices@.len() ==> (#[trigger] self.inverse_matrices@[j]).wf()
    }
}

impl<F: PrimeField> EcFftCosetPrecomputation<F> {
    /// This is the precomputation on its coset with the given tower of
    /// isogenies, which is valid.
    pub open spec fn is_precomputation_with(&self, isogenies: Seq<Isogeny<F>>) -> bool {
        &&& all_canonical(self.coset@)
        &&& all_isogenies_wf(isogenies)
        &&& coset_valid(self.coset@, isogenies)
        &&& steps_view(self.steps@) == coset_steps_spec(self.coset@, isogenies)
    }

    /// The coset has `2^k` elements for the number `k` of the levels, and
    /// each sub-coset of level `t` has `2^(k - t - 1)` elements.
    pub open spec fn has_shape(&self) -> bool {
        &&& self.coset@.len() == pow2(self.steps@.len())
        &&& forall|t: int|
            0 <= t < self.steps@.len() ==> (#[trigger] self.steps@[t]).s@.len() == pow2(
                (self.steps@.len() - t - 1) as nat,
            ) && self.steps@[t].s_prime@.len() == pow2((self.steps@.len() - t - 1) as nat)
    }

    /// The levels are well formed and halve in size from half the coset
    /// down to one element.
    pub open spec fn wf(&self) -> bool {
        &&& all_canonical(self.coset@)
        &&& self.steps@.len() == 0 ==> self.coset@.len() == 1
        &&& self.steps@.len() > 0 ==> {
            &&& self.coset@.len() == 2 * self.steps@[0].s@.len()
            &&& self.steps@.last().s@.len() == 1
        }
        &&& forall|t: int| 0 <= t < self.steps@.len() ==> (#[trigger] self.steps@[t]).wf()
        &&& forall|t: int|
            0 <= t < self.steps@.len() - 1 ==> (#[trigger] self.steps@[t]).s@.len() == 2
                * self.steps@[t + 1].s@.len()
    }
}

impl<F: PrimeField> EcFftPrecomputation<F> {
    /// These are the precomputations on the given coset and on each of its
    /// sub-cosets with the given tower of isogenies, which are valid.
    pub open spec fn is_precomputation_of(
        &self,
        coset: Seq<F>,
        isogenies: Seq<Isogeny<F>>,
    ) -> bool {
        &&& all_isogenies_wf(isogenies)
        &&& precomputations_match(self.coset_precomputations@, coset, isogenies)
    }

    /// Each coset precomputation is well formed, and the cosets halve in
    /// length down to one element.
    pub open spec fn wf(&self) -> bool {
        &&& self.coset_precomputations@.len() >= 1
        &&& self.coset_precomputations@.last().coset@.len() == 1
        &&& forall|d: int|
            0 <= d < self.coset_precomputations@.len() ==> (
            #[trigger] self.coset_precomputations@[d]).wf()
        &&& forall|d: int|
            0 <= d < self.coset_precomputations@.len() - 1 ==> (
            #[trigger] self.coset_precomputations@[d]).coset@.len() == 2
                * self.coset_precomputations@[d + 1].coset@.len()
    }
}

/// The interface for all the ECFFT parameters: the size of the maximal
/// coset of a curve over the field `F`, and the names under which the
/// coset and the tower of isogenies are stored.
pub trait EcFftParameters<F: PrimeField>: Sized {
    /// Logarithm of the size of the maximal ECFFT coset in the curve.
    spec fn spec_log_n() -> nat;

    /// Logarithm of the size of the maximal ECFFT coset in the curve.
    fn log_n() -> (r: usize)
        ensures
            r == Self::spec_log_n(),
            r < 32,
    ;

    /// The name under which the coset is stored.
    spec fn spec_coset_name() -> Seq<char>;

    /// The name under which the tower of isogenies is stored.
    spec fn spec_isogenies_name() -> Seq<char>;

    /// The name under which the coset is stored.
    fn coset_name() -> (r: &'static str)
        ensures
            r@ == Self::spec_coset_name(),
    ;

    /// The name under which the tower of isogenies is stored.
    fn isogenies_name() -> (r: &'static str)
        ensures
            r@ == Self::spec_isogenies_name(),
    ;

    /// Size of the maximal ECFFT coset in the curve.
    fn size() -> (r: usize)
        ensures
            r == pow2(Self::spec_log_n()),
    {
        let k = Self::log_n();
        let mut r: usize = 1;
        let mut i: usize = 0;
        proof {
            lemma2_to64();
        }
        while i < k
            invariant
                i <= k,
                k < 32,
                r == pow2(i as nat),
                r <= pow2(31),
                pow2(31) == 0x8000_0000,
            decreases k - i,
        {
            proof {
                lemma_pow2_unfold((i + 1) as nat);
                if i + 1 < 31 {
                    lemma_pow2_strictly_increases((i + 1) as nat, 31);
                }
            }
            r = 2 * r;
            i = i + 1;
        }
        r
    }

    /// Gets the coset from its stored form: there is one where `blob` is
    /// the stored form of as many elements as the maximal coset has.
    fn coset(blob: &[u8]) -> (r: Option<Vec<F>>)
        ensures
            r.is_some() == (blob_decodable::<F>(blob@) && blob_elements::<F>(blob@).len() == pow2(
                Self::spec_log_n(),
            )),
            r.is_some() ==> r.unwrap()@ == blob_elements::<F>(blob@) && all_canonical(
                r.unwrap()@,
            ),
    {
        let elements = match read_elements::<F>(blob) {
            Some(elements) => elements,
            None => {
                return None;
            },
        };
        if elements.len() != Self::size() {
            return None;
        }
        Some(elements)
    }

    /// Gets the tower of isogenies from its stored form: there is one
    /// where `blob` is the stored form of as many isogenies as the maximal
    /// coset has halvings.
    fn isogenies(blob: &[u8]) -> (r: Option<Vec<Isogeny<F>>>)
        ensures
            r.is_some() == (blob_decodable::<F>(blob@) && blob_elements::<F>(blob@).len() == 11
                * Self::spec_log_n()),
            r.is_some() ==> {
                let isogenies = r.unwrap()@;
                &&& isogenies.len() == Self::spec_log_n()
                &&& all_isogenies_wf(isogenies)
                &&& forall|i: int|
                    0 <= i < isogenies.len() ==> isogeny_matches(
                        #[trigger] isogenies[i],
                        blob_elements::<F>(blob@),
                        i,
                    )
            },
    {
        let isogenies = match read_isogenies::<F>(blob) {
            Some(isogenies) => isogenies,
            None => {
                return None;
            },
        };
        if isogenies.len() != Self::log_n() {
            return None;
        }
        Some(isogenies)
    }

    /// The canonical sub-coset at depth `i`: every `2^i`-th element of the
    /// coset.
    fn sub_coset(coset: &[F], i: usize) -> (r: Vec<F>)
        ensures
            r@ == sub_coset_spec(coset@, i as nat),
    {
        sub_coset(coset, i)
    }

    /// Computes the ECFFT precomputation for the coset.
    fn precompute_on_coset(coset: &[F], isogenies: &[Isogeny<F>]) -> (r: Option<
        EcFftCosetPrecomputation<F>,
    >)
        requires
            all_canonical(coset@),
            all_isogenies_wf(isogenies@),
        ensures
            r.is_some() == coset_valid(coset@, isogenies@),
            r.is_some() ==> {
                &&& r.unwrap().wf()
                &&& r.unwrap().coset@ == coset@
                &&& r.unwrap().is_precomputation_with(isogenies@)
                &&& r.unwrap().has_shape()
            },
    {
        precompute_on_coset(coset, isogenies)
    }

    /// Computes the ECFFT precomputations for the coset and each of its
    /// sub-cosets.
    fn precompute(coset: &[F], isogenies: &[Isogeny<F>]) -> (r: Option<EcFftPrecomputation<F>>)
        requires
            all_canonical(coset@),
            all_isogenies_wf(isogenies@),
        ensures
            r.is_some() == sub_cosets_valid(coset@, isogenies@),
            r.is_some() ==> r.unwrap().wf() && r.unwrap().is_precomputation_of(
                coset@,
                isogenies@,
            ),
            r.is_some() ==> forall|d: int|
                0 <= d < r.unwrap().coset_precomputations@.len() ==> (
                #[trigger] r.unwrap().coset_precomputations@[d]).has_shape(),
    {
        precompute(coset, isogenies)
    }
}

} // verus!
