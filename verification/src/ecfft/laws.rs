//! What the transform computes, where each level extends evaluations as it
//! should.

use crate::ecfft::domain::{is_power_of_two, lemma_stride_index, strided, sub_coset_spec};
use crate::ecfft::evaluate::{butterfly, evaluate_spec, precomputations_view};
use crate::ecfft::extend::{combine_pairs, extend_spec, reduce_pairs};
use crate::ecfft::precomputation::{
    coset_steps_spec, coset_valid, image_points, last_level_spec, level_matrix, level_spec,
    level_valid, pair_valid, precomputations_match, sub_cosets_valid, tower_spec, tower_valid,
};
use crate::ecfft::{steps_view, EcFftCosetPrecomputation, StepSpec};
use crate::field::{lemma_elem, PrimeField};
use crate::group_laws::{all_canonical, all_wf};
use crate::group_polynomial::{horner, lemma_horner_constant, lemma_horner_split, lemma_horner_wf};
use crate::modular::{inv_mod, lemma_mod_range, lemma_pow_mod_range, pow_mod};
use crate::my_group::{scale, MyGroup};
use crate::utils::isogeny::Isogeny;
use crate::utils::matrix::{lemma_inverse_round_trip, mat_apply, mat_inverse, mat_wf};
use vstd::prelude::*;

verus! {

/// The values of the polynomial with the given coefficients at each of
/// the points.
pub open spec fn evaluations<F: PrimeField, G: MyGroup<ScalarField = F>>(
    coeffs: Seq<G>,
    points: Seq<F>,
) -> Seq<G> {
    Seq::new(points.len(), |j: int| horner(coeffs, points[j].value()))
}

/// At the given level, extending the values on `s` of the polynomial with
/// the given coefficients gives its values on `s_prime`.
pub open spec fn extends_at<F: PrimeField, G: MyGroup<ScalarField = F>>(
    pre: EcFftCosetPrecomputation<F>,
    level: int,
    coeffs: Seq<G>,
) -> bool {
    extend_spec(steps_view(pre.steps@), level, evaluations(coeffs, pre.steps@[level].s@))
        == evaluations(coeffs, pre.steps@[level].s_prime@)
}

/// The first level of the precomputation extends as it should: from the
/// values on `s` of a polynomial with as many coefficients as `s` has
/// elements, `extend` gives its values on `s_prime`.
pub open spec fn first_level_extends<F: PrimeField, G: MyGroup<ScalarField = F>>(
    pre: EcFftCosetPrecomputation<F>,
) -> bool {
    forall|c: Seq<G>|
        all_wf(c) && c.len() == pre.steps@[0].s@.len() ==> extend_spec(
            steps_view(pre.steps@),
            0,
            #[trigger] evaluations(c, pre.steps@[0].s@),
        ) == evaluations(c, pre.steps@[0].s_prime@)
}

/// The precomputation at a depth that is not the last is on a coset of
/// two elements or more; its first level is on the elements of even and
/// of odd index of the coset, and the coset of the next depth is those of
/// even index.
proof fn lemma_depth<F: PrimeField>(
    pre: Seq<EcFftCosetPrecomputation<F>>,
    coset: Seq<F>,
    isogenies: Seq<Isogeny<F>>,
    d: int,
)
    requires
        precomputations_match(pre, coset, isogenies),
        0 <= d < pre.len(),
        pre[d].coset@.len() != 1,
    ensures
        d < pre.len() - 1,
        pre[d].steps@.len() > 0,
        pre[d].coset@.len() == 2 * pre[d + 1].coset@.len(),
        pre[d].steps@[0].s@ == strided(pre[d].coset@, 0, 2),
        pre[d].steps@[0].s_prime@ == strided(pre[d].coset@, 1, 2),
        pre[d + 1].coset@ == pre[d].steps@[0].s@,
        pre[d].steps@[0].s@.len() == pre[d + 1].coset@.len(),
        pre[d].steps@[0].s_prime@.len() == pre[d + 1].coset@.len(),
        precomputations_view(pre)[d][0].s == pre[d].steps@[0].s@,
        precomputations_view(pre)[d][0].s_prime == pre[d].steps@[0].s_prime@,
{
    let domain = pre[d].coset@;
    assert(pre[d].wf());
    if d == pre.len() - 1 {
        assert(pre.last().coset@.len() == 1);
    }
    assert(pre[d + 1].wf());
    assert(pre[d].steps@[0].wf());
    assert(domain == sub_coset_spec(coset, d as nat));
    assert(pre[d + 1].coset@ == sub_coset_spec(coset, (d + 1) as nat));
    let steps = steps_view(pre[d].steps@);
    assert(steps == coset_steps_spec(domain, isogenies));
    lemma_first_level(domain, isogenies);
    assert(steps[0] == pre[d].steps@[0]@);
    assert(precomputations_view(pre)[d] == steps);
}

/// At each element of a coset, the low half of the coefficients plus the
/// power of the element times the high half is the polynomial.
proof fn lemma_butterfly<F: PrimeField, G: MyGroup<ScalarField = F>>(
    domain: Seq<F>,
    coeffs: Seq<G>,
)
    requires
        all_canonical(domain),
        all_wf(coeffs),
        coeffs.len() == domain.len(),
        domain.len() % 2 == 0,
        domain.len() >= 2,
    ensures
        ({
            let n = coeffs.len() as int;
            let s = strided(domain, 0, 2);
            let s_prime = strided(domain, 1, 2);
            let low = coeffs.subrange(0, n / 2);
            let high = coeffs.subrange(n / 2, n);
            butterfly(
                s,
                s_prime,
                evaluations(low, s),
                evaluations(high, s),
                evaluations(low, s_prime),
                evaluations(high, s_prime),
            ) == evaluations(coeffs, domain)
        }),
{
    let n = coeffs.len() as int;
    let nn = n / 2;
    let s = strided(domain, 0, 2);
    let s_prime = strided(domain, 1, 2);
    let low = coeffs.subrange(0, nn);
    let high = coeffs.subrange(nn, n);
    let out = butterfly(
        s,
        s_prime,
        evaluations(low, s),
        evaluations(high, s),
        evaluations(low, s_prime),
        evaluations(high, s_prime),
    );
    assert(s.len() == nn);
    assert(s_prime.len() == nn);
    assert forall|i: int| 0 <= i < n implies #[trigger] out[i] == evaluations(coeffs, domain)[i] by {
        F::lemma_value_range(domain[i]);
        lemma_horner_split(coeffs, nn, domain[i].value());
        if i % 2 == 0 {
            lemma_stride_index(n, 0, 2, i / 2);
            assert(s[i / 2] == domain[0 + (i / 2) * 2]);
        } else {
            lemma_stride_index(n, 1, 2, i / 2);
            assert(s_prime[i / 2] == domain[1 + (i / 2) * 2]);
        }
    }
    assert(out =~= evaluations(coeffs, domain));
}

/// Where the first level of the precomputation on each sub-coset extends
/// as it should, `evaluate_over_domain` gives the values of the polynomial
/// at the elements of the sub-coset that has as many elements as the
/// polynomial has coefficients, in the order of the sub-coset.
pub proof fn lemma_evaluate_is_pointwise<F: PrimeField, G: MyGroup<ScalarField = F>>(
    pre: Seq<EcFftCosetPrecomputation<F>>,
    coset: Seq<F>,
    isogenies: Seq<Isogeny<F>>,
    d: int,
    coeffs: Seq<G>,
)
    requires
        precomputations_match(pre, coset, isogenies),
        0 <= d < pre.len(),
        coeffs.len() == pre[d].coset@.len(),
        all_wf(coeffs),
        forall|e: int| d <= e < pre.len() - 1 ==> first_level_extends::<F, G>(#[trigger] pre[e]),
    ensures
        evaluate_spec(precomputations_view(pre), d, coeffs) == evaluations(coeffs, pre[d].coset@),
    decreases coeffs.len(),
{
    let view = precomputations_view(pre);
    let domain = pre[d].coset@;
    let n = coeffs.len() as int;
    assert(pre[d].wf());
    if n == 1 {
        F::lemma_value_range(domain[0]);
        lemma_horner_constant(coeffs, domain[0].value());
        assert(evaluations(coeffs, domain) =~= coeffs);
    } else {
        lemma_depth(pre, coset, isogenies, d);
        let nn = n / 2;
        let low = coeffs.subrange(0, nn);
        let high = coeffs.subrange(nn, n);
        let s = pre[d].steps@[0].s@;
        let s_prime = pre[d].steps@[0].s_prime@;
        lemma_evaluate_is_pointwise(pre, coset, isogenies, d + 1, low);
        lemma_evaluate_is_pointwise(pre, coset, isogenies, d + 1, high);
        let le = evaluate_spec(view, d + 1, low);
        let he = evaluate_spec(view, d + 1, high);
        assert(first_level_extends::<F, G>(pre[d]));
        assert(extend_spec(view[d], 0, evaluations(low, s)) == evaluations(low, s_prime));
        assert(extend_spec(view[d], 0, evaluations(high, s)) == evaluations(high, s_prime));
        lemma_butterfly(domain, coeffs);
    }
}

/// The first level of the precomputation on a coset of two elements or
/// more is on its elements of even and of odd index.
proof fn lemma_first_level<F: PrimeField>(coset: Seq<F>, isogenies: Seq<Isogeny<F>>)
    requires
        coset.len() >= 2,
    ensures
        coset_steps_spec(coset, isogenies)[0].s == strided(coset, 0, 2),
        coset_steps_spec(coset, isogenies)[0].s_prime == strided(coset, 1, 2),
{
    let s = strided(coset, 0, 2);
    let s_prime = strided(coset, 1, 2);
    let tower = tower_spec(s, s_prime, isogenies, 0);
    if s.len() <= 1 {
        assert(tower[0] == last_level_spec(s, s_prime));
    } else {
        assert(tower[0] == level_spec(isogenies[0], s, s_prime));
    }
}

/// The value at `x` of the polynomial made of the halves `h0` and `h1` at a
/// level whose isogeny has the map `u / v` on `x`:
/// `v(x)^q * (h0(u(x) / v(x)) + x * h1(u(x) / v(x)))`.
pub open spec fn composed_value<F: PrimeField, G: MyGroup<ScalarField = F>>(
    iso: Isogeny<F>,
    q: nat,
    h0: Seq<G>,
    h1: Seq<G>,
    x: F,
) -> G {
    let image = iso.spec_evaluate_x(x.value());
    let m = level_matrix(iso, x, x, q);
    scale(horner(h0, image), m.a).spec_add(scale(horner(h1, image), m.b))
}

/// The polynomial with the coefficients `c` is made of the halves `h0` and
/// `h1` on the sub-cosets `s` and `s_prime` of a level.
pub open spec fn is_composed_of<F: PrimeField, G: MyGroup<ScalarField = F>>(
    iso: Isogeny<F>,
    s: Seq<F>,
    s_prime: Seq<F>,
    c: Seq<G>,
    h0: Seq<G>,
    h1: Seq<G>,
) -> bool {
    let q = (s.len() / 2 - 1) as nat;
    &&& all_wf(h0)
    &&& all_wf(h1)
    &&& h0.len() == s.len() / 2
    &&& h1.len() == s.len() / 2
    &&& forall|j: int|
        0 <= j < s.len() ==> horner(c, (#[trigger] s[j]).value()) == composed_value(
            iso,
            q,
            h0,
            h1,
            s[j],
        )
    &&& forall|j: int|
        0 <= j < s_prime.len() ==> horner(c, (#[trigger] s_prime[j]).value()) == composed_value(
            iso,
            q,
            h0,
            h1,
            s_prime[j],
        )
}

/// Every polynomial with as many coefficients as `s` has elements is made
/// of two halves on the sub-cosets of the level.
pub open spec fn level_decomposes<F: PrimeField, G: MyGroup<ScalarField = F>>(
    iso: Isogeny<F>,
    s: Seq<F>,
    s_prime: Seq<F>,
) -> bool {
    forall|c: Seq<G>|
        all_wf(c) && c.len() == s.len() ==> exists|h0: Seq<G>, h1: Seq<G>|
            #[trigger] is_composed_of(iso, s, s_prime, c, h0, h1)
}

/// Every level from `s` and `s_prime` down decomposes the polynomials.
pub open spec fn tower_decomposes<F: PrimeField, G: MyGroup<ScalarField = F>>(
    s: Seq<F>,
    s_prime: Seq<F>,
    isogenies: Seq<Isogeny<F>>,
    t: nat,
) -> bool
    decreases s.len(),
{
    if s.len() <= 1 {
        true
    } else {
        &&& level_decomposes::<F, G>(isogenies[t as int], s, s_prime)
        &&& tower_decomposes::<F, G>(
            image_points(isogenies[t as int], s),
            image_points(isogenies[t as int], s_prime),
            isogenies,
            t + 1,
        )
    }
}

/// The entries of the matrix of a pair are residues.
pub proof fn lemma_level_matrix_wf<F: PrimeField>(iso: Isogeny<F>, x0: F, x1: F, q: nat)
    ensures
        mat_wf(level_matrix(iso, x0, x1, q), F::modulus()),
{
    let p = F::modulus();
    F::lemma_modulus();
    let v0 = pow_mod(iso.spec_x_denominator(x0.value()), q, p);
    let v1 = pow_mod(iso.spec_x_denominator(x1.value()), q, p);
    lemma_pow_mod_range(iso.spec_x_denominator(x0.value()), q, p);
    lemma_pow_mod_range(iso.spec_x_denominator(x1.value()), q, p);
    lemma_mod_range(x0.value() * v0, p);
    lemma_mod_range(x1.value() * v1, p);
}

/// The images of the points of a sub-coset are field elements, with the
/// values of the isogeny for representatives.
pub proof fn lemma_image_points<F: PrimeField>(iso: Isogeny<F>, s: Seq<F>)
    ensures
        all_canonical(image_points(iso, s)),
        image_points(iso, s).len() == s.len() / 2,
        forall|j: int|
            0 <= j < s.len() / 2 ==> (#[trigger] image_points(iso, s)[j]).value()
                == iso.spec_evaluate_x(s[j].value()),
        forall|j: int|
            0 <= j < s.len() / 2 ==> 0 <= iso.spec_evaluate_x((#[trigger] s[j]).value())
                < F::modulus(),
{
    let p = F::modulus();
    F::lemma_modulus();
    assert forall|j: int| 0 <= j < s.len() / 2 implies (#[trigger] image_points(
        iso,
        s,
    )[j]).is_canonical() && image_points(iso, s)[j].value() == iso.spec_evaluate_x(s[j].value())
        && 0 <= iso.spec_evaluate_x(s[j].value()) < p by {
        let x = s[j].value();
        lemma_mod_range(
            iso.spec_x_numerator(x) * inv_mod(iso.spec_x_denominator(x), p),
            p,
        );
        lemma_elem::<F>(iso.spec_evaluate_x(x));
    }
}

/// The inverse matrices of a level take the values of a polynomial on `s`
/// to the values of its halves on the images of `s`.
proof fn lemma_reduce<F: PrimeField, G: MyGroup<ScalarField = F>>(
    iso: Isogeny<F>,
    s: Seq<F>,
    s_prime: Seq<F>,
    c: Seq<G>,
    h0: Seq<G>,
    h1: Seq<G>,
)
    requires
        s.len() >= 2,
        s.len() % 2 == 0,
        level_valid(iso, s, s_prime),
        is_composed_of(iso, s, s_prime, c, h0, h1),
    ensures
        reduce_pairs(level_spec(iso, s, s_prime).inverse_matrices, evaluations(c, s), false)
            == evaluations(h0, image_points(iso, s)),
        reduce_pairs(level_spec(iso, s, s_prime).inverse_matrices, evaluations(c, s), true)
            == evaluations(h1, image_points(iso, s)),
{
    let p = F::modulus();
    let nn = (s.len() / 2) as int;
    let q = (nn - 1) as nat;
    let evals = evaluations(c, s);
    let inverse = level_spec(iso, s, s_prime).inverse_matrices;
    let next = image_points(iso, s);
    lemma_image_points(iso, s);
    assert forall|j: int| 0 <= j < nn implies mat_apply(inverse[j], evals[j], evals[j + nn]) == (
        horner(h0, next[j].value()),
        horner(h1, next[j].value()),
    ) by {
        let m = level_matrix(iso, s[j], s[j + nn], q);
        let image = iso.spec_evaluate_x(s[j].value());
        assert(pair_valid(iso, s, s_prime, j));
        lemma_level_matrix_wf(iso, s[j], s[j + nn], q);
        lemma_horner_wf(h0, image);
        lemma_horner_wf(h1, image);
        // the values at the pair are the matrix applied to the values of the halves
        assert(horner(c, s[j].value()) == composed_value(iso, q, h0, h1, s[j]));
        assert(horner(c, s[j + nn].value()) == composed_value(iso, q, h0, h1, s[j + nn]));
        assert(mat_apply(m, horner(h0, image), horner(h1, image)) == (evals[j], evals[j + nn]));
        lemma_inverse_round_trip(m, horner(h0, image), horner(h1, image));
        assert(inverse[j] == mat_inverse(m, p));
    }
    assert(reduce_pairs(inverse, evals, false) =~= evaluations(h0, next));
    assert(reduce_pairs(inverse, evals, true) =~= evaluations(h1, next));
}

/// The matrices of a level take the values of the halves of a polynomial
/// on the images of `s_prime` to the values of the polynomial on
/// `s_prime`.
proof fn lemma_combine<F: PrimeField, G: MyGroup<ScalarField = F>>(
    iso: Isogeny<F>,
    s: Seq<F>,
    s_prime: Seq<F>,
    c: Seq<G>,
    h0: Seq<G>,
    h1: Seq<G>,
)
    requires
        s.len() >= 2,
        s.len() % 2 == 0,
        s.len() == s_prime.len(),
        level_valid(iso, s, s_prime),
        is_composed_of(iso, s, s_prime, c, h0, h1),
    ensures
        combine_pairs(
            level_spec(iso, s, s_prime).matrices,
            evaluations(h0, image_points(iso, s_prime)),
            evaluations(h1, image_points(iso, s_prime)),
        ) == evaluations(c, s_prime),
{
    let nn = (s.len() / 2) as int;
    let q = (nn - 1) as nat;
    let matrices = level_spec(iso, s, s_prime).matrices;
    let next = image_points(iso, s_prime);
    let e0 = evaluations(h0, next);
    let e1 = evaluations(h1, next);
    let out = combine_pairs(matrices, e0, e1);
    lemma_image_points(iso, s_prime);
    assert forall|j: int| 0 <= j < s_prime.len() implies #[trigger] out[j] == evaluations(
        c,
        s_prime,
    )[j] by {
        let k = if j < nn {
            j
        } else {
            j - nn
        };
        assert(pair_valid(iso, s, s_prime, k));
        assert(matrices[k] == level_matrix(iso, s_prime[k], s_prime[k + nn], q));
        assert(horner(c, s_prime[j].value()) == composed_value(iso, q, h0, h1, s_prime[j]));
    }
    assert(out =~= evaluations(c, s_prime));
}

/// How many times a length can be halved before it is one or less.
pub open spec fn halvings(n: nat) -> nat
    decreases n,
{
    if n <= 1 {
        0
    } else {
        1 + halvings(n / 2)
    }
}

/// The levels from sub-cosets of `n` elements down are one more than the
/// halvings of `n`.
proof fn lemma_tower_len<F: PrimeField>(
    s: Seq<F>,
    s_prime: Seq<F>,
    isogenies: Seq<Isogeny<F>>,
    t: nat,
)
    ensures
        tower_spec(s, s_prime, isogenies, t).len() == halvings(s.len()) + 1,
    decreases s.len(),
{
    if s.len() > 1 {
        let iso = isogenies[t as int];
        lemma_tower_len(image_points(iso, s), image_points(iso, s_prime), isogenies, t + 1);
    }
}

/// The levels before the one at which evaluations are extended do not
/// matter.
proof fn lemma_extend_shift<F: PrimeField, G: MyGroup<ScalarField = F>>(
    first: StepSpec<F>,
    rest: Seq<StepSpec<F>>,
    t: int,
    evals: Seq<G>,
)
    requires
        0 <= t,
        t + halvings(evals.len()) <= rest.len(),
    ensures
        extend_spec(seq![first] + rest, t + 1, evals) == extend_spec(rest, t, evals),
    decreases evals.len(),
{
    if evals.len() > 1 {
        let steps = seq![first] + rest;
        assert(steps[t + 1] == rest[t]);
        let step = rest[t];
        let h0 = reduce_pairs(step.inverse_matrices, evals, false);
        let h1 = reduce_pairs(step.inverse_matrices, evals, true);
        lemma_extend_shift(first, rest, t + 1, h0);
        lemma_extend_shift(first, rest, t + 1, h1);
    }
}

/// Where every level from `s` and `s_prime` down is valid and decomposes
/// the polynomials, extending the values on `s` of a polynomial with as
/// many coefficients as `s` has elements gives its values on `s_prime`.
pub proof fn lemma_extend_is_pointwise<F: PrimeField, G: MyGroup<ScalarField = F>>(
    s: Seq<F>,
    s_prime: Seq<F>,
    isogenies: Seq<Isogeny<F>>,
    t: nat,
    c: Seq<G>,
)
    requires
        s.len() == s_prime.len(),
        is_power_of_two(s.len() as int),
        all_canonical(s),
        all_canonical(s_prime),
        tower_valid(s, s_prime, isogenies, t),
        tower_decomposes::<F, G>(s, s_prime, isogenies, t),
        all_wf(c),
        c.len() == s.len(),
    ensures
        extend_spec(tower_spec(s, s_prime, isogenies, t), 0, evaluations(c, s)) == evaluations(
            c,
            s_prime,
        ),
    decreases s.len(),
{
    let tower = tower_spec(s, s_prime, isogenies, t);
    if s.len() <= 1 {
        F::lemma_value_range(s[0]);
        F::lemma_value_range(s_prime[0]);
        lemma_horner_constant(c, s[0].value());
        lemma_horner_constant(c, s_prime[0].value());
        assert(evaluations(c, s) =~= evaluations(c, s_prime));
    } else {
        let iso = isogenies[t as int];
        let level = level_spec(iso, s, s_prime);
        let next = image_points(iso, s);
        let next_prime = image_points(iso, s_prime);
        let rest = tower_spec(next, next_prime, isogenies, t + 1);
        assert(tower == seq![level] + rest);
        assert(tower[0] == level);
        let (h0, h1) = choose|h0: Seq<G>, h1: Seq<G>| is_composed_of(iso, s, s_prime, c, h0, h1);
        lemma_reduce(iso, s, s_prime, c, h0, h1);
        lemma_combine(iso, s, s_prime, c, h0, h1);
        lemma_image_points(iso, s);
        lemma_image_points(iso, s_prime);
        lemma_extend_is_pointwise(next, next_prime, isogenies, t + 1, h0);
        lemma_extend_is_pointwise(next, next_prime, isogenies, t + 1, h1);
        lemma_tower_len(next, next_prime, isogenies, t + 1);
        lemma_extend_shift(level, rest, 0, evaluations(h0, next));
        lemma_extend_shift(level, rest, 0, evaluations(h1, next));
        assert(evaluations(c, s).len() == s.len());
    }
}

/// Level `u` of the levels from `s` and `s_prime` down is on sub-cosets of
/// equal length, a power of two, of field elements; the levels from it
/// down are valid and decompose the polynomials where those from `s` and
/// `s_prime` down do; and they are the levels from `u` on.
proof fn lemma_tower_level<F: PrimeField, G: MyGroup<ScalarField = F>>(
    s: Seq<F>,
    s_prime: Seq<F>,
    isogenies: Seq<Isogeny<F>>,
    t: nat,
    u: int,
)
    requires
        s.len() == s_prime.len(),
        is_power_of_two(s.len() as int),
        all_canonical(s),
        all_canonical(s_prime),
        tower_valid(s, s_prime, isogenies, t),
        tower_decomposes::<F, G>(s, s_prime, isogenies, t),
        0 <= u < tower_spec(s, s_prime, isogenies, t).len(),
    ensures
        ({
            let level = tower_spec(s, s_prime, isogenies, t)[u];
            &&& level.s.len() == level.s_prime.len()
            &&& is_power_of_two(level.s.len() as int)
            &&& all_canonical(level.s)
            &&& all_canonical(level.s_prime)
            &&& tower_valid(level.s, level.s_prime, isogenies, (t + u) as nat)
            &&& tower_decomposes::<F, G>(level.s, level.s_prime, isogenies, (t + u) as nat)
            &&& tower_spec(s, s_prime, isogenies, t).skip(u) == tower_spec(
                level.s,
                level.s_prime,
                isogenies,
                (t + u) as nat,
            )
        }),
    decreases u,
{
    let tower = tower_spec(s, s_prime, isogenies, t);
    if u == 0 {
        assert(tower.skip(0) =~= tower);
        if s.len() <= 1 {
            assert(tower[0] == last_level_spec(s, s_prime));
        } else {
            assert(tower[0] == level_spec(isogenies[t as int], s, s_prime));
        }
    } else {
        // only a tower of two levels or more has a level after the first
        if s.len() <= 1 {
            assert(tower.len() == 1);
        }
        let iso = isogenies[t as int];
        let next = image_points(iso, s);
        let next_prime = image_points(iso, s_prime);
        let rest = tower_spec(next, next_prime, isogenies, t + 1);
        assert(tower == seq![level_spec(iso, s, s_prime)] + rest);
        lemma_image_points(iso, s);
        lemma_image_points(iso, s_prime);
        lemma_tower_level::<F, G>(next, next_prime, isogenies, t + 1, u - 1);
        assert(tower[u] == rest[u - 1]);
        assert(tower.skip(u) =~= rest.skip(u - 1));
        assert((t + 1 + (u - 1)) as nat == (t + u) as nat);
    }
}

/// Extending at level `u` is extending with the levels from `u` on.
proof fn lemma_extend_skip<F: PrimeField, G: MyGroup<ScalarField = F>>(
    steps: Seq<StepSpec<F>>,
    u: int,
    t: int,
    evals: Seq<G>,
)
    requires
        0 <= u,
        0 <= t,
        u + t + halvings(evals.len()) <= steps.len(),
    ensures
        extend_spec(steps, u + t, evals) == extend_spec(steps.skip(u), t, evals),
    decreases evals.len(),
{
    if evals.len() > 1 {
        assert(steps[u + t] == steps.skip(u)[t]);
        let step = steps[u + t];
        let h0 = reduce_pairs(step.inverse_matrices, evals, false);
        let h1 = reduce_pairs(step.inverse_matrices, evals, true);
        lemma_extend_skip(steps, u, t + 1, h0);
        lemma_extend_skip(steps, u, t + 1, h1);
    }
}

/// Extending agrees with evaluating point by point at every level: where
/// the levels of a coset are valid and decompose the polynomials, `extend`
/// takes the values on `s` of a polynomial with as many coefficients as
/// `s` has elements to its values on `s_prime`, for the sub-cosets `s` and
/// `s_prime` of any level.
pub proof fn lemma_extend_by_decomposition<F: PrimeField, G: MyGroup<ScalarField = F>>(
    pre: EcFftCosetPrecomputation<F>,
    coset: Seq<F>,
    isogenies: Seq<Isogeny<F>>,
    u: int,
    c: Seq<G>,
)
    requires
        all_canonical(coset),
        coset.len() >= 2,
        coset_valid(coset, isogenies),
        steps_view(pre.steps@) == coset_steps_spec(coset, isogenies),
        tower_decomposes::<F, G>(strided(coset, 0, 2), strided(coset, 1, 2), isogenies, 0),
        0 <= u < pre.steps@.len(),
        all_wf(c),
        c.len() == pre.steps@[u].s@.len(),
    ensures
        extend_spec(steps_view(pre.steps@), u, evaluations(c, pre.steps@[u].s@)) == evaluations(
            c,
            pre.steps@[u].s_prime@,
        ),
{
    let s = strided(coset, 0, 2);
    let s_prime = strided(coset, 1, 2);
    let tower = tower_spec(s, s_prime, isogenies, 0);
    lemma_halves(coset);
    assert(steps_view(pre.steps@).len() == pre.steps@.len());
    assert(steps_view(pre.steps@)[u] == pre.steps@[u]@);
    lemma_tower_level::<F, G>(s, s_prime, isogenies, 0, u);
    let level = tower[u];
    lemma_extend_is_pointwise(level.s, level.s_prime, isogenies, u as nat, c);
    lemma_tower_len(level.s, level.s_prime, isogenies, u as nat);
    assert(tower.skip(u).len() == tower.len() - u);
    lemma_extend_skip(tower, u, 0, evaluations(c, level.s));
}

/// The elements of even and of odd index of a coset whose length is a
/// power of two, two or more, are field elements, as many of each, and
/// their number is a power of two.
pub proof fn lemma_halves<F: PrimeField>(coset: Seq<F>)
    requires
        all_canonical(coset),
        coset.len() >= 2,
        is_power_of_two(coset.len() as int),
    ensures
        strided(coset, 0, 2).len() == coset.len() / 2,
        strided(coset, 1, 2).len() == coset.len() / 2,
        is_power_of_two((coset.len() / 2) as int),
        all_canonical(strided(coset, 0, 2)),
        all_canonical(strided(coset, 1, 2)),
{
    assert forall|i: int| 0 <= i < strided(coset, 0, 2).len() implies (#[trigger] strided(
        coset,
        0,
        2,
    )[i]).is_canonical() by {
        lemma_stride_index(coset.len() as int, 0, 2, i);
    }
    assert forall|i: int| 0 <= i < strided(coset, 1, 2).len() implies (#[trigger] strided(
        coset,
        1,
        2,
    )[i]).is_canonical() by {
        lemma_stride_index(coset.len() as int, 1, 2, i);
    }
}

/// The precomputation exists on each sub-coset where it exists on the
/// coset and all its sub-cosets.
pub proof fn lemma_sub_coset_valid<F: PrimeField>(
    coset: Seq<F>,
    isogenies: Seq<Isogeny<F>>,
    depth: nat,
)
    requires
        sub_cosets_valid(coset, isogenies),
    ensures
        sub_cosets_valid(sub_coset_spec(coset, depth), isogenies),
        coset_valid(sub_coset_spec(coset, depth), isogenies),
    decreases depth,
{
    if depth > 0 {
        let before = sub_coset_spec(coset, (depth - 1) as nat);
        lemma_sub_coset_valid(coset, isogenies, (depth - 1) as nat);
        if before.len() < 2 {
            // the one element of a coset is its only element of even index
            if before.len() == 1 {
                assert(strided(before, 0, 2) =~= before);
            }
        }
    }
}

/// Evaluating over a domain agrees with evaluating point by point: where
/// the levels of the coset and of each of its sub-cosets decompose the
/// polynomials, `evaluate_over_domain` gives the values of the polynomial
/// at the elements of the sub-coset that has as many elements as the
/// polynomial has coefficients, in the order of the sub-coset.
pub proof fn lemma_evaluate_by_decomposition<F: PrimeField, G: MyGroup<ScalarField = F>>(
    pre: Seq<EcFftCosetPrecomputation<F>>,
    coset: Seq<F>,
    isogenies: Seq<Isogeny<F>>,
    d: int,
    coeffs: Seq<G>,
)
    requires
        precomputations_match(pre, coset, isogenies),
        forall|e: int|
            0 <= e < pre.len() - 1 ==> tower_decomposes::<F, G>(
                strided(#[trigger] sub_coset_spec(coset, e as nat), 0, 2),
                strided(sub_coset_spec(coset, e as nat), 1, 2),
                isogenies,
                0,
            ),
        0 <= d < pre.len(),
        coeffs.len() == pre[d].coset@.len(),
        all_wf(coeffs),
    ensures
        evaluate_spec(precomputations_view(pre), d, coeffs) == evaluations(
            coeffs,
            sub_coset_spec(coset, d as nat),
        ),
{
    assert forall|e: int| d <= e < pre.len() - 1 implies first_level_extends::<F, G>(
        #[trigger] pre[e],
    ) by {
        let domain = sub_coset_spec(coset, e as nat);
        assert(pre[e].coset@ == domain);
        assert(pre[e].wf());
        assert(pre[e + 1].wf());
        assert(pre[e].coset@.len() == 2 * pre[e + 1].coset@.len());
        lemma_sub_coset_valid(coset, isogenies, e as nat);
        lemma_depth(pre, coset, isogenies, e);
        assert forall|c: Seq<G>| all_wf(c) && c.len() == pre[e].steps@[0].s@.len() implies extend_spec(
            steps_view(pre[e].steps@),
            0,
            #[trigger] evaluations(c, pre[e].steps@[0].s@),
        ) == evaluations(c, pre[e].steps@[0].s_prime@) by {
            lemma_extend_by_decomposition(pre[e], domain, isogenies, 0, c);
        }
    }
    lemma_evaluate_is_pointwise(pre, coset, isogenies, d, coeffs);
}

} // verus!
