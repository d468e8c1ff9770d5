//! The precomputation on a coset: what its levels hold, when they can be
//! computed, and their computation.

use crate::ecfft::domain::{
    check_power_of_two, every_nth, is_power_of_two, lemma_power_of_two_half, lemma_stride_index,
    strided, sub_coset_spec,
};
use crate::ecfft::{
    matrices_view, steps_view, EcFftCosetPrecomputation, EcFftPrecomputation,
    EcFftPrecomputationStep, StepSpec,
};
use crate::field::{elem, field_eq, field_pow, lemma_elem_of_value, PrimeField};
use crate::group_laws::all_canonical;
use crate::modular::{is_unit_mod, mul_mod, pow_mod, sub_mod};
use crate::utils::isogeny::Isogeny;
use crate::utils::matrix::{mat_det, mat_inverse, Mat2, Matrix};
use vstd::arithmetic::power2::{lemma2_to64, lemma_pow2_unfold, pow2};
use vstd::prelude::*;
use vstd::slice::slice_to_vec;

verus! {

/// The matrix of the pair `(x0, x1)` at a level whose polynomials are
/// multiplied by the `q`-th power of the denominator `v` of the isogeny:
/// `[[v(x0)^q, x0 * v(x0)^q], [v(x1)^q, x1 * v(x1)^q]]`.
pub open spec fn level_matrix<F: PrimeField>(iso: Isogeny<F>, x0: F, x1: F, q: nat) -> Mat2 {
    let p = F::modulus();
    let v0 = pow_mod(iso.spec_x_denominator(x0.value()), q, p);
    let v1 = pow_mod(iso.spec_x_denominator(x1.value()), q, p);
    Mat2 { a: v0, b: mul_mod(x0.value(), v0, p), c: v1, d: mul_mod(x1.value(), v1, p) }
}

/// The images under the isogeny of the first half of `s`.
pub open spec fn image_points<F: PrimeField>(iso: Isogeny<F>, s: Seq<F>) -> Seq<F> {
    Seq::new((s.len() / 2) as nat, |j: int| elem::<F>(iso.spec_evaluate_x(s[j].value())))
}

/// The isogeny takes the elements `x0` and `x1` to one image: its
/// denominator vanishes at neither, and its values at them are equal.
pub open spec fn is_pair<F: PrimeField>(iso: Isogeny<F>, x0: F, x1: F) -> bool {
    &&& iso.spec_x_denominator(x0.value()) != 0
    &&& iso.spec_x_denominator(x1.value()) != 0
    &&& iso.spec_evaluate_x(x0.value()) == iso.spec_evaluate_x(x1.value())
}

/// Pair `j` of the level is as it should be: the elements at `j` and at
/// `j + |s| / 2` of `s` have one image under the isogeny, and so have
/// those of `s_prime`; and the matrix of the pair of `s` is invertible
/// (its determinant has an inverse, which in a field says that it is not
/// zero).
pub open spec fn pair_valid<F: PrimeField>(
    iso: Isogeny<F>,
    s: Seq<F>,
    s_prime: Seq<F>,
    j: int,
) -> bool {
    let nn = s.len() / 2;
    &&& is_pair(iso, s[j], s[j + nn])
    &&& is_pair(iso, s_prime[j], s_prime[j + nn])
    &&& is_unit_mod(
        mat_det(level_matrix(iso, s[j], s[j + nn], (nn - 1) as nat), F::modulus()),
        F::modulus(),
    )
}

/// The map on `x` of the isogeny is a quotient of a polynomial of degree
/// two or less by one of degree one or less.
pub open spec fn is_of_degree_two<F: PrimeField>(iso: Isogeny<F>) -> bool {
    &&& iso.x_numerator@.len() <= 3
    &&& iso.x_denominator@.len() <= 2
}

/// The level is as it should be: its isogeny is of degree two, and each
/// of its pairs is valid.
pub open spec fn level_valid<F: PrimeField>(iso: Isogeny<F>, s: Seq<F>, s_prime: Seq<F>) -> bool {
    &&& is_of_degree_two(iso)
    &&& forall|j: int| 0 <= j < s.len() / 2 ==> pair_valid(iso, s, s_prime, j)
}

/// The level on the sub-cosets `s` and `s_prime`, of two elements or more.
pub open spec fn level_spec<F: PrimeField>(iso: Isogeny<F>, s: Seq<F>, s_prime: Seq<F>) -> StepSpec<
    F,
> {
    let nn = s.len() / 2;
    let q = (nn - 1) as nat;
    StepSpec {
        s,
        s_prime,
        matrices: Seq::new(
            nn as nat,
            |j: int| level_matrix(iso, s_prime[j], s_prime[j + nn], q),
        ),
        inverse_matrices: Seq::new(
            nn as nat,
            |j: int| mat_inverse(level_matrix(iso, s[j], s[j + nn], q), F::modulus()),
        ),
    }
}

/// The last level, on sub-cosets of one element: it has no matrix.
pub open spec fn last_level_spec<F: PrimeField>(s: Seq<F>, s_prime: Seq<F>) -> StepSpec<F> {
    StepSpec { s, s_prime, matrices: Seq::empty(), inverse_matrices: Seq::empty() }
}

/// The levels from the sub-cosets `s` and `s_prime` down, where level `t`
/// of the whole uses isogeny `t` of the tower.
pub open spec fn tower_spec<F: PrimeField>(
    s: Seq<F>,
    s_prime: Seq<F>,
    isogenies: Seq<Isogeny<F>>,
    t: nat,
) -> Seq<StepSpec<F>>
    decreases s.len(),
{
    if s.len() <= 1 {
        seq![last_level_spec(s, s_prime)]
    } else {
        seq![level_spec(isogenies[t as int], s, s_prime)] + tower_spec(
            image_points(isogenies[t as int], s),
            image_points(isogenies[t as int], s_prime),
            isogenies,
            t + 1,
        )
    }
}

/// Every level from `s` and `s_prime` down is as it should be: the tower
/// has an isogeny for it, by which the level is valid.
pub open spec fn tower_valid<F: PrimeField>(
    s: Seq<F>,
    s_prime: Seq<F>,
    isogenies: Seq<Isogeny<F>>,
    t: nat,
) -> bool
    decreases s.len(),
{
    if s.len() <= 1 {
        true
    } else {
        &&& t < isogenies.len()
        &&& level_valid(isogenies[t as int], s, s_prime)
        &&& tower_valid(
            image_points(isogenies[t as int], s),
            image_points(isogenies[t as int], s_prime),
            isogenies,
            t + 1,
        )
    }
}

/// The levels of the precomputation on a coset: none for a coset of one
/// element, else those from its elements of even and of odd index down.
pub open spec fn coset_steps_spec<F: PrimeField>(
    coset: Seq<F>,
    isogenies: Seq<Isogeny<F>>,
) -> Seq<StepSpec<F>> {
    if coset.len() < 2 {
        Seq::empty()
    } else {
        tower_spec(strided(coset, 0, 2), strided(coset, 1, 2), isogenies, 0)
    }
}

/// The precomputation on the coset exists: its length is a power of two and
/// every level is valid.
pub open spec fn coset_valid<F: PrimeField>(coset: Seq<F>, isogenies: Seq<Isogeny<F>>) -> bool {
    &&& is_power_of_two(coset.len() as int)
    &&& coset.len() >= 2 ==> tower_valid(
        strided(coset, 0, 2),
        strided(coset, 1, 2),
        isogenies,
        0,
    )
}

/// Every isogeny of the tower has field elements for coefficients.
pub open spec fn all_isogenies_wf<F: PrimeField>(isogenies: Seq<Isogeny<F>>) -> bool {
    forall|i: int| 0 <= i < isogenies.len() ==> (#[trigger] isogenies[i]).wf()
}

/// Builds the matrix of the pair `(x0, x1)` for the exponent `q`.
fn build_matrix<F: PrimeField>(iso: &Isogeny<F>, x0: &F, x1: &F, q: u64) -> (m: Matrix<F>)
    requires
        iso.wf(),
        x0.is_canonical(),
        x1.is_canonical(),
    ensures
        m.wf(),
        m@ == level_matrix(*iso, *x0, *x1, q as nat),
{
    let v0 = field_pow(&iso.evaluate_x_denominator(x0), q);
    let v1 = field_pow(&iso.evaluate_x_denominator(x1), q);
    Matrix([[v0, x0.field_mul(&v0)], [v1, x1.field_mul(&v1)]])
}

/// The image of the two elements of a pair, or nothing where they make no
/// pair.
fn image_of_pair<F: PrimeField>(iso: &Isogeny<F>, x0: &F, x1: &F) -> (r: Option<F>)
    requires
        iso.wf(),
        x0.is_canonical(),
        x1.is_canonical(),
    ensures
        r.is_some() == is_pair(*iso, *x0, *x1),
        r.is_some() ==> r.unwrap().is_canonical() && r.unwrap().value() == iso.spec_evaluate_x(
            x0.value(),
        ),
{
    let y0 = match iso.try_evaluate_x(x0) {
        Some(y) => y,
        None => {
            return None;
        },
    };
    let y1 = match iso.try_evaluate_x(x1) {
        Some(y) => y,
        None => {
            return None;
        },
    };
    if field_eq(&y0, &y1) {
        Some(y0)
    } else {
        None
    }
}

/// Computes the level on the sub-cosets `s` and `s_prime` and the
/// sub-cosets of the next level, or nothing where the level is not valid.
fn precompute_level<F: PrimeField>(iso: &Isogeny<F>, s: Vec<F>, s_prime: Vec<F>) -> (r: Option<
    (EcFftPrecomputationStep<F>, Vec<F>, Vec<F>),
>)
    requires
        iso.wf(),
        s@.len() >= 2,
        s@.len() % 2 == 0,
        s@.len() == s_prime@.len(),
        all_canonical(s@),
        all_canonical(s_prime@),
    ensures
        r.is_some() == level_valid(*iso, s@, s_prime@),
        r.is_some() ==> {
            let (step, next_s, next_s_prime) = r.unwrap();
            &&& step.wf()
            &&& step@ == level_spec(*iso, s@, s_prime@)
            &&& next_s@ == image_points(*iso, s@)
            &&& next_s_prime@ == image_points(*iso, s_prime@)
            &&& all_canonical(next_s@)
            &&& all_canonical(next_s_prime@)
        },
{
    if iso.x_numerator.len() > 3 || iso.x_denominator.len() > 2 {
        return None;
    }
    let nn = s.len() / 2;
    let q: u64 = (nn - 1) as u64;
    let ghost spec = level_spec(*iso, s@, s_prime@);
    let mut matrices: Vec<Matrix<F>> = Vec::with_capacity(nn);
    let mut inverse_matrices: Vec<Matrix<F>> = Vec::with_capacity(nn);
    let mut next_s: Vec<F> = Vec::with_capacity(nn);
    let mut next_s_prime: Vec<F> = Vec::with_capacity(nn);
    let mut j: usize = 0;
    while j < nn
        invariant
            iso.wf(),
            nn == s@.len() / 2,
            nn + nn == s@.len(),
            s@.len() <= usize::MAX,
            s@.len() >= 2,
            s@.len() % 2 == 0,
            s@.len() == s_prime@.len(),
            q == nn - 1,
            all_canonical(s@),
            all_canonical(s_prime@),
            spec == level_spec(*iso, s@, s_prime@),
            j <= nn,
            matrices@.len() == j,
            inverse_matrices@.len() == j,
            next_s@.len() == j,
            next_s_prime@.len() == j,
            forall|i: int| 0 <= i < j ==> pair_valid(*iso, s@, s_prime@, i),
            forall|i: int| 0 <= i < j ==> (#[trigger] matrices@[i]).wf(),
            forall|i: int| 0 <= i < j ==> (#[trigger] inverse_matrices@[i]).wf(),
            forall|i: int| 0 <= i < j ==> (#[trigger] matrices@[i])@ == spec.matrices[i],
            forall|i: int|
                0 <= i < j ==> (#[trigger] inverse_matrices@[i])@ == spec.inverse_matrices[i],
            forall|i: int| 0 <= i < j ==> #[trigger] next_s@[i] == image_points(*iso, s@)[i],
            forall|i: int|
                0 <= i < j ==> #[trigger] next_s_prime@[i] == image_points(*iso, s_prime@)[i],
            all_canonical(next_s@),
            all_canonical(next_s_prime@),
        decreases nn - j,
    {
        let m = build_matrix(iso, &s[j], &s[j + nn], q);
        let inverse = match m.try_inverse() {
            Some(inverse) => inverse,
            None => {
                assert(!pair_valid(*iso, s@, s_prime@, j as int));
                return None;
            },
        };
        let x = match image_of_pair(iso, &s[j], &s[j + nn]) {
            Some(x) => x,
            None => {
                assert(!pair_valid(*iso, s@, s_prime@, j as int));
                return None;
            },
        };
        let x_prime = match image_of_pair(iso, &s_prime[j], &s_prime[j + nn]) {
            Some(x) => x,
            None => {
                assert(!pair_valid(*iso, s@, s_prime@, j as int));
                return None;
            },
        };
        let m_prime = build_matrix(iso, &s_prime[j], &s_prime[j + nn], q);
        proof {
            lemma_elem_of_value(x);
            lemma_elem_of_value(x_prime);
            assert(pair_valid(*iso, s@, s_prime@, j as int));
        }
        matrices.push(m_prime);
        inverse_matrices.push(inverse);
        next_s.push(x);
        next_s_prime.push(x_prime);
        j = j + 1;
    }
    proof {
        assert(next_s@ =~= image_points(*iso, s@));
        assert(next_s_prime@ =~= image_points(*iso, s_prime@));
        assert(matrices_view(matrices@) =~= spec.matrices);
        assert(matrices_view(inverse_matrices@) =~= spec.inverse_matrices);
    }
    let step = EcFftPrecomputationStep { s, s_prime, matrices, inverse_matrices };
    Some((step, next_s, next_s_prime))
}

/// Computes the ECFFT precomputation for the coset: the levels from its
/// elements of even and of odd index down, or nothing where the length of
/// the coset is no power of two or a level cannot be computed.
pub fn precompute_on_coset<F: PrimeField>(coset: &[F], isogenies: &[Isogeny<F>]) -> (r: Option<
    EcFftCosetPrecomputation<F>,
>)
    requires
        all_canonical(coset@),
        all_isogenies_wf(isogenies@),
    ensures
        r.is_some() == coset_valid(coset@, isogenies@),
        r.is_some() ==> {
            &&& r.unwrap().wf()
            &&& r.unwrap().coset@ == coset@
            &&& steps_view(r.unwrap().steps@) == coset_steps_spec(coset@, isogenies@)
            &&& r.unwrap().is_precomputation_with(isogenies@)
            &&& r.unwrap().has_shape()
        },
{
    let n = coset.len();
    if !check_power_of_two(n) {
        return None;
    }
    let mut steps: Vec<EcFftPrecomputationStep<F>> = Vec::new();
    if n == 1 {
        proof {
            assert(steps_view(steps@) =~= coset_steps_spec(coset@, isogenies@));
        }
        let pre = EcFftCosetPrecomputation { coset: slice_to_vec(coset), steps };
        proof {
            lemma_precomputation_shape(pre);
        }
        return Some(pre);
    }
    proof {
        lemma_power_of_two_half(n as int);
    }
    let mut s = every_nth(coset, 0, 2);
    let mut s_prime = every_nth(coset, 1, 2);
    let ghost s0 = s@;
    let ghost s0_prime = s_prime@;
    let ghost total = tower_spec(s0, s0_prime, isogenies@, 0);
    proof {
        assert(steps_view(steps@) + tower_spec(s@, s_prime@, isogenies@, 0) =~= total);
    }
    let mut t: usize = 0;
    while s.len() > 1
        invariant
            all_isogenies_wf(isogenies@),
            s0.len() * 2 == n,
            n == coset@.len(),
            n >= 2,
            is_power_of_two(n as int),
            s0 == strided(coset@, 0, 2),
            s0_prime == strided(coset@, 1, 2),
            total == tower_spec(s0, s0_prime, isogenies@, 0),
            s@.len() == s_prime@.len(),
            is_power_of_two(s@.len() as int),
            all_canonical(s@),
            all_canonical(s_prime@),
            t == steps@.len(),
            steps_view(steps@) + tower_spec(s@, s_prime@, isogenies@, t as nat) == total,
            tower_valid(s0, s0_prime, isogenies@, 0) == tower_valid(
                s@,
                s_prime@,
                isogenies@,
                t as nat,
            ),
            forall|i: int| 0 <= i < steps@.len() ==> (#[trigger] steps@[i]).wf(),
            forall|i: int|
                0 <= i < steps@.len() - 1 ==> (#[trigger] steps@[i]).s@.len() == 2 * steps@[i
                    + 1].s@.len(),
            steps@.len() == 0 ==> s@ == s0,
            steps@.len() > 0 ==> steps@[0].s@ == s0 && steps@.last().s@.len() == 2 * s@.len(),
        decreases s@.len(),
    {
        if t >= isogenies.len() {
            assert(!tower_valid(s@, s_prime@, isogenies@, t as nat));
            return None;
        }
        proof {
            lemma_power_of_two_half(s@.len() as int);
        }
        let ghost old_steps = steps@;
        let ghost cur_s = s@;
        let ghost cur_s_prime = s_prime@;
        let (step, next_s, next_s_prime) = match precompute_level(&isogenies[t], s, s_prime) {
            Some(level) => level,
            None => {
                assert(!tower_valid(cur_s, cur_s_prime, isogenies@, t as nat));
                return None;
            },
        };
        steps.push(step);
        s = next_s;
        s_prime = next_s_prime;
        t = t + 1;
        proof {
            let rest = tower_spec(s@, s_prime@, isogenies@, t as nat);
            assert(steps_view(steps@) =~= steps_view(old_steps) + seq![step@]);
            assert(tower_spec(cur_s, cur_s_prime, isogenies@, (t - 1) as nat) == seq![step@]
                + rest);
            assert(steps_view(steps@) + rest =~= steps_view(old_steps) + (seq![step@] + rest));
        }
    }
    let ghost old_steps = steps@;
    let last = EcFftPrecomputationStep {
        s,
        s_prime,
        matrices: Vec::new(),
        inverse_matrices: Vec::new(),
    };
    proof {
        assert(matrices_view(last.matrices@) =~= Seq::<Mat2>::empty());
        assert(matrices_view(last.inverse_matrices@) =~= Seq::<Mat2>::empty());
        assert(last@ == last_level_spec(last.s@, last.s_prime@));
    }
    steps.push(last);
    proof {
        assert(steps_view(steps@) =~= steps_view(old_steps) + seq![last@]);
        assert(steps_view(steps@) =~= total);
    }
    let pre = EcFftCosetPrecomputation { coset: slice_to_vec(coset), steps };
    proof {
        lemma_precomputation_shape(pre);
    }
    Some(pre)
}

/// The precomputation exists on the coset and on each of its sub-cosets.
pub open spec fn sub_cosets_valid<F: PrimeField>(
    coset: Seq<F>,
    isogenies: Seq<Isogeny<F>>,
) -> bool
    decreases coset.len(),
{
    &&& coset_valid(coset, isogenies)
    &&& coset.len() >= 2 ==> sub_cosets_valid(strided(coset, 0, 2), isogenies)
}

/// The precomputations are those on the coset and on each of its
/// sub-cosets, down to the sub-coset of one element.
pub open spec fn precomputations_match<F: PrimeField>(
    pre: Seq<EcFftCosetPrecomputation<F>>,
    coset: Seq<F>,
    isogenies: Seq<Isogeny<F>>,
) -> bool {
    &&& sub_cosets_valid(coset, isogenies)
    &&& pre.len() >= 1
    &&& pre.last().coset@.len() == 1
    &&& forall|d: int| 0 <= d < pre.len() ==> (#[trigger] pre[d]).wf()
    &&& forall|d: int|
        0 <= d < pre.len() ==> (#[trigger] pre[d]).coset@ == sub_coset_spec(coset, d as nat)
    &&& forall|d: int|
        0 <= d < pre.len() ==> steps_view((#[trigger] pre[d]).steps@) == coset_steps_spec(
            sub_coset_spec(coset, d as nat),
            isogenies,
        )
    &&& forall|d: int|
        0 <= d < pre.len() - 1 ==> (#[trigger] pre[d]).coset@.len() == 2 * pre[d + 1].coset@.len()
}

/// Computes the ECFFT precomputations on the coset and on each of its
/// sub-cosets, or nothing where one of them does not exist.
pub fn precompute<F: PrimeField>(coset: &[F], isogenies: &[Isogeny<F>]) -> (r: Option<
    EcFftPrecomputation<F>,
>)
    requires
        all_canonical(coset@),
        all_isogenies_wf(isogenies@),
    ensures
        r.is_some() == sub_cosets_valid(coset@, isogenies@),
        r.is_some() ==> r.unwrap().wf() && r.unwrap().is_precomputation_of(coset@, isogenies@),
        r.is_some() ==> forall|d: int|
            0 <= d < r.unwrap().coset_precomputations@.len() ==> (
            #[trigger] r.unwrap().coset_precomputations@[d]).has_shape(),
{
    let mut pre: Vec<EcFftCosetPrecomputation<F>> = Vec::new();
    let mut cur = slice_to_vec(coset);
    loop
        invariant_except_break
            all_isogenies_wf(isogenies@),
            all_canonical(cur@),
            cur@ == sub_coset_spec(coset@, pre@.len()),
            sub_cosets_valid(coset@, isogenies@) == sub_cosets_valid(cur@, isogenies@),
            forall|d: int| 0 <= d < pre@.len() ==> (#[trigger] pre@[d]).wf(),
            forall|d: int|
                0 <= d < pre@.len() ==> (#[trigger] pre@[d]).coset@ == sub_coset_spec(
                    coset@,
                    d as nat,
                ),
            forall|d: int|
                0 <= d < pre@.len() ==> steps_view((#[trigger] pre@[d]).steps@)
                    == coset_steps_spec(sub_coset_spec(coset@, d as nat), isogenies@),
            forall|d: int|
                0 <= d < pre@.len() - 1 ==> (#[trigger] pre@[d]).coset@.len() == 2 * pre@[d
                    + 1].coset@.len(),
            pre@.len() > 0 ==> pre@.last().coset@.len() == 2 * cur@.len(),
        ensures
            precomputations_match(pre@, coset@, isogenies@),
        decreases cur@.len(),
    {
        let on_coset = match precompute_on_coset(cur.as_slice(), isogenies) {
            Some(on_coset) => on_coset,
            None => {
                return None;
            },
        };
        let ghost before = pre@;
        pre.push(on_coset);
        proof {
            assert forall|d: int| 0 <= d < pre@.len() - 1 implies (#[trigger] pre@[d]).coset@.len()
                == 2 * pre@[d + 1].coset@.len() by {
                if d < before.len() - 1 {
                    assert(pre@[d] == before[d]);
                    assert(pre@[d + 1] == before[d + 1]);
                } else {
                    assert(pre@[d] == before.last());
                }
            }
        }
        if cur.len() == 1 {
            break ;
        }
        proof {
            lemma_power_of_two_half(cur@.len() as int);
        }
        let next = every_nth(cur.as_slice(), 0, 2);
        proof {
            assert forall|i: int| 0 <= i < next@.len() implies (#[trigger] next@[i]).is_canonical() by {
                lemma_stride_index(cur@.len() as int, 0, 2, i);
            }
        }
        cur = next;
    }
    proof {
        assert forall|d: int| 0 <= d < pre@.len() implies (#[trigger] pre@[d]).has_shape() by {
            lemma_precomputation_shape(pre@[d]);
        }
    }
    Some(EcFftPrecomputation { coset_precomputations: pre })
}

/// The precomputation on a coset of `2^k` elements has exactly `k` levels,
/// and the sub-cosets of level `t` have `2^(k - t - 1)` elements.
pub proof fn lemma_precomputation_shape<F: PrimeField>(pre: EcFftCosetPrecomputation<F>)
    requires
        pre.wf(),
    ensures
        pre.has_shape(),
{
    if pre.steps@.len() == 0 {
        lemma2_to64();
    } else {
        lemma_level_size(pre, 0);
        lemma_pow2_unfold(pre.steps@.len());
    }
    assert forall|t: int| 0 <= t < pre.steps@.len() implies (#[trigger] pre.steps@[t]).s@.len()
        == pow2((pre.steps@.len() - t - 1) as nat) && pre.steps@[t].s_prime@.len() == pow2(
        (pre.steps@.len() - t - 1) as nat,
    ) by {
        lemma_level_size(pre, t);
        assert(pre.steps@[t].wf());
    }
}

/// The sub-cosets of level `t` of `k` levels have `2^(k - t - 1)` elements.
proof fn lemma_level_size<F: PrimeField>(pre: EcFftCosetPrecomputation<F>, t: int)
    requires
        pre.wf(),
        0 <= t < pre.steps@.len(),
    ensures
        pre.steps@[t].s@.len() == pow2((pre.steps@.len() - t - 1) as nat),
    decreases pre.steps@.len() - t,
{
    if t == pre.steps@.len() - 1 {
        lemma2_to64();
    } else {
        lemma_level_size(pre, t + 1);
        lemma_pow2_unfold((pre.steps@.len() - t - 1) as nat);
        assert(pre.steps@[t].s@.len() == 2 * pre.steps@[t + 1].s@.len());
    }
}

/// The value at the residue `x` of the polynomial that vanishes on
/// `points`: the product of `x - y` over the elements `y` of `points`.
pub open spec fn vanishing_at<F: PrimeField>(points: Seq<F>, x: int) -> int
    decreases points.len(),
{
    if points.len() == 0 {
        1
    } else {
        mul_mod(
            vanishing_at(points.drop_last(), x),
            sub_mod(x, points.last().value(), F::modulus()),
            F::modulus(),
        )
    }
}

impl<F: PrimeField> EcFftPrecomputationStep<F> {
    /// For each element of `s`, the value at it of the polynomial that
    /// vanishes on `s_prime`.
    pub fn vanishing_on_s_prime(&self) -> (r: Vec<F>)
        requires
            self.wf(),
        ensures
            r@.len() == self.s@.len(),
            all_canonical(r@),
            forall|j: int|
                0 <= j < r@.len() ==> (#[trigger] r@[j]).value() == vanishing_at(
                    self.s_prime@,
                    self.s@[j].value(),
                ),
    {
        let n = self.s.len();
        let mut r: Vec<F> = Vec::with_capacity(n);
        let mut j: usize = 0;
        while j < n
            invariant
                self.wf(),
                n == self.s@.len(),
                j <= n,
                r@.len() == j,
                all_canonical(r@),
                forall|i: int|
                    0 <= i < j ==> (#[trigger] r@[i]).value() == vanishing_at(
                        self.s_prime@,
                        self.s@[i].value(),
                    ),
            decreases n - j,
        {
            let x = self.s[j];
            let mut product = F::one();
            let mut i: usize = 0;
            while i < n
                invariant
                    self.wf(),
                    n == self.s@.len(),
                    x.is_canonical(),
                    i <= n,
                    product.is_canonical(),
                    product.value() == vanishing_at(self.s_prime@.take(i as int), x.value()),
                decreases n - i,
            {
                proof {
                    assert(self.s_prime@.take(i + 1).drop_last() =~= self.s_prime@.take(i as int));
                }
                product = product.field_mul(&x.field_sub(&self.s_prime[i]));
                i = i + 1;
            }
            proof {
                assert(self.s_prime@.take(n as int) =~= self.s_prime@);
            }
            r.push(product);
            j = j + 1;
        }
        r
    }
}

} // verus!
