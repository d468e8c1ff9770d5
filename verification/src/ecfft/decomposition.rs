//! Over a field, every level of a tower of isogenies of degree two, on
//! sub-cosets of distinct elements, decomposes the polynomials: whence the
//! transform computes the values of a polynomial.

use crate::ecfft::domain::{is_power_of_two, strided, sub_coset_spec};
use crate::ecfft::evaluate::{evaluate_spec, precomputations_view};
use crate::ecfft::extend::reduce_pairs;
use crate::ecfft::laws::{
    composed_value, evaluations, extends_at, is_composed_of, lemma_evaluate_by_decomposition,
    lemma_extend_by_decomposition, lemma_halves, lemma_image_points, lemma_level_matrix_wf,
    lemma_sub_coset_valid, level_decomposes, tower_decomposes,
};
use crate::ecfft::precomputation::{
    all_isogenies_wf, coset_steps_spec, coset_valid, image_points, is_of_degree_two,
    last_level_spec, level_matrix, level_spec, level_valid, pair_valid, precomputations_match,
    tower_spec, tower_valid,
};
use crate::ecfft::{steps_view, EcFftCosetPrecomputation};
use crate::field::{values, PrimeField};
use crate::group_laws::{all_canonical, all_wf, lemma_scale_mul};
use crate::group_polynomial::{horner, lemma_field_horner_value, lemma_horner_wf};
use crate::modular::{
    inv_mod, is_prime, is_unit_mod, lemma_mod_range, lemma_mul_mod_comm, lemma_pow_mod_range,
    lemma_prime_units, lemma_sub_mod_zero, lemma_zero_not_unit, mul_mod, pow_mod,
};
use crate::my_group::MyGroup;
use crate::polynomial_laws::{
    all_residues, distinct, field_value, lemma_agree, lemma_horner_add, lemma_horner_pad,
    lemma_horner_shift, lemma_interpolation, lemma_poly_compose, poly_add, poly_compose, poly_pad,
    poly_shift,
};
use crate::utils::isogeny::Isogeny;
use crate::utils::matrix::{
    lemma_apply_wf, lemma_inverse_round_trip, lemma_mat_inverse, mat_apply, mat_det, mat_inverse,
};
use vstd::prelude::*;

verus! {

/// The polynomial `v^q * (h0(u / v) + x * h1(u / v))` for the map
/// `u / v` of the isogeny on `x`, where `h0` and `h1` have `q + 1`
/// coefficients.
pub open spec fn recomposed<F: PrimeField, G: MyGroup<ScalarField = F>>(
    iso: Isogeny<F>,
    h0: Seq<G>,
    h1: Seq<G>,
) -> Seq<G> {
    poly_add(
        poly_compose(iso.x_numerator@, iso.x_denominator@, h0),
        poly_shift(poly_compose(iso.x_numerator@, iso.x_denominator@, h1)),
    )
}

/// Where the denominator of the isogeny does not vanish, the recomposed
/// polynomial has the value made of the values of the halves; for an
/// isogeny of degree two it has twice the coefficients of a half or
/// fewer.
pub proof fn lemma_recomposed<F: PrimeField, G: MyGroup<ScalarField = F>>(
    iso: Isogeny<F>,
    h0: Seq<G>,
    h1: Seq<G>,
    x: F,
)
    requires
        iso.wf(),
        all_wf(h0),
        all_wf(h1),
        h0.len() >= 1,
        h0.len() == h1.len(),
        x.is_canonical(),
        is_unit_mod(iso.spec_x_denominator(x.value()), F::modulus()),
    ensures
        all_wf(recomposed(iso, h0, h1)),
        horner(recomposed(iso, h0, h1), x.value()) == composed_value(
            iso,
            (h0.len() - 1) as nat,
            h0,
            h1,
            x,
        ),
        is_of_degree_two(iso) ==> recomposed(iso, h0, h1).len() <= 2 * h0.len(),
{
    let p = F::modulus();
    let u = iso.x_numerator@;
    let v = iso.x_denominator@;
    let q = (h0.len() - 1) as nat;
    F::lemma_modulus();
    F::lemma_value_range(x);
    let xv = x.value();
    let vq = pow_mod(field_value(v, xv), q, p);
    let image = iso.spec_evaluate_x(xv);
    lemma_pow_mod_range(field_value(v, xv), q, p);
    lemma_mod_range(
        iso.spec_x_numerator(xv) * inv_mod(iso.spec_x_denominator(xv), p),
        p,
    );
    lemma_poly_compose(u, v, h0, xv);
    lemma_poly_compose(u, v, h1, xv);
    let c1 = poly_compose(u, v, h1);
    lemma_horner_shift(c1, xv);
    lemma_horner_add(poly_compose(u, v, h0), poly_shift(c1), xv);
    lemma_horner_wf(h1, image);
    lemma_scale_mul(horner(h1, image), vq, xv);
    lemma_mul_mod_comm(vq, xv, p);
}

/// Every element is the representative of a field element.
proof fn lemma_values_residues<F: PrimeField>(s: Seq<F>)
    requires
        all_canonical(s),
    ensures
        all_residues(values(s), F::modulus()),
{
    assert forall|i: int| 0 <= i < values(s).len() implies 0 <= #[trigger] values(s)[i]
        < F::modulus() by {
        F::lemma_value_range(s[i]);
    }
}

/// Over a field, a valid level of an isogeny of degree two, on a
/// sub-coset `s` of distinct elements with distinct images, decomposes the
/// polynomials.
pub proof fn lemma_level_decomposes<F: PrimeField, G: MyGroup<ScalarField = F>>(
    iso: Isogeny<F>,
    s: Seq<F>,
    s_prime: Seq<F>,
)
    requires
        is_prime(F::modulus()),
        iso.wf(),
        s.len() >= 2,
        s.len() % 2 == 0,
        s.len() == s_prime.len(),
        all_canonical(s),
        all_canonical(s_prime),
        level_valid(iso, s, s_prime),
        distinct(values(s)),
        distinct(values(image_points(iso, s))),
    ensures
        level_decomposes::<F, G>(iso, s, s_prime),
{
    assert forall|c: Seq<G>| all_wf(c) && c.len() == s.len() implies exists|
        h0: Seq<G>,
        h1: Seq<G>,
    | #[trigger] is_composed_of(iso, s, s_prime, c, h0, h1) by {
        let (h0, h1) = lemma_halves_of(iso, s, s_prime, c);
        assert(is_composed_of(iso, s, s_prime, c, h0, h1));
    }
}

/// The halves of which a polynomial is made at a level.
proof fn lemma_halves_of<F: PrimeField, G: MyGroup<ScalarField = F>>(
    iso: Isogeny<F>,
    s: Seq<F>,
    s_prime: Seq<F>,
    c: Seq<G>,
) -> (h: (Seq<G>, Seq<G>))
    requires
        is_prime(F::modulus()),
        iso.wf(),
        s.len() >= 2,
        s.len() % 2 == 0,
        s.len() == s_prime.len(),
        all_canonical(s),
        all_canonical(s_prime),
        level_valid(iso, s, s_prime),
        distinct(values(s)),
        distinct(values(image_points(iso, s))),
        all_wf(c),
        c.len() == s.len(),
    ensures
        is_composed_of(iso, s, s_prime, c, h.0, h.1),
{
    let p = F::modulus();
    let nn = (s.len() / 2) as int;
    let q = (nn - 1) as nat;
    let inverse = level_spec(iso, s, s_prime).inverse_matrices;
    let evals = evaluations(c, s);
    let next = image_points(iso, s);
    let ts = values(next);
    F::lemma_modulus();
    lemma_image_points(iso, s);
    lemma_values_residues(next);
    lemma_values_residues(s);
    // the values of the halves at the images of the pairs
    let a = reduce_pairs(inverse, evals, false);
    let b = reduce_pairs(inverse, evals, true);
    assert forall|j: int| 0 <= j < nn implies (#[trigger] a[j]).wf() by {
        lemma_pair_values(iso, s, s_prime, c, j);
    }
    assert forall|j: int| 0 <= j < nn implies (#[trigger] b[j]).wf() by {
        lemma_pair_values(iso, s, s_prime, c, j);
    }
    let h0 = lemma_interpolation(ts, a);
    let h1 = lemma_interpolation(ts, b);
    let r = recomposed(iso, h0, h1);
    // the recomposed polynomial takes the values of the polynomial on `s`
    assert(h0.len() == nn && h1.len() == nn);
    assert forall|i: int| 0 <= i < s.len() implies horner(c, #[trigger] values(s)[i]) == horner(
        r,
        values(s)[i],
    ) && horner(r, values(s)[i]) == composed_value(iso, q, h0, h1, s[i]) by {
        let j = if i < nn {
            i
        } else {
            i - nn
        };
        assert(values(s)[i] == s[i].value());
        assert(pair_valid(iso, s, s_prime, j));
        lemma_pair_values(iso, s, s_prime, c, j);
        lemma_pair_units(iso, s, s_prime, j);
        lemma_recomposed(iso, h0, h1, s[i]);
        let m = level_matrix(iso, s[j], s[j + nn], q);
        let image = iso.spec_evaluate_x(s[j].value());
        assert(ts[j] == image);
        assert(horner(h0, ts[j]) == a[j]);
        assert(horner(h1, ts[j]) == b[j]);
        assert(iso.spec_evaluate_x(s[i].value()) == image);
        assert(mat_apply(m, a[j], b[j]) == (horner(c, s[j].value()), horner(c, s[j + nn].value())));
        if i < nn {
            assert(composed_value(iso, q, h0, h1, s[i]) == mat_apply(m, a[j], b[j]).0);
        } else {
            assert(composed_value(iso, q, h0, h1, s[i]) == mat_apply(m, a[j], b[j]).1);
        }
    }
    // so it takes them everywhere
    assert(all_wf(r) && r.len() <= s.len()) by {
        lemma_pair_units(iso, s, s_prime, 0);
        lemma_recomposed(iso, h0, h1, s[0]);
    }
    assert forall|j: int| 0 <= j < s_prime.len() implies horner(
        c,
        (#[trigger] s_prime[j]).value(),
    ) == composed_value(iso, q, h0, h1, s_prime[j]) by {
        let k = if j < nn {
            j
        } else {
            j - nn
        };
        lemma_pair_units(iso, s, s_prime, k);
        F::lemma_value_range(s_prime[j]);
        lemma_agree(c, r, values(s), s_prime[j].value());
        lemma_recomposed(iso, h0, h1, s_prime[j]);
    }
    assert forall|j: int| 0 <= j < s.len() implies horner(c, (#[trigger] s[j]).value())
        == composed_value(iso, q, h0, h1, s[j]) by {
        assert(values(s)[j] == s[j].value());
    }
    (h0, h1)
}

/// Over a field, the denominator of the isogeny has a unit for value at
/// each of the four elements of a valid pair.
proof fn lemma_pair_units<F: PrimeField>(iso: Isogeny<F>, s: Seq<F>, s_prime: Seq<F>, j: int)
    requires
        is_prime(F::modulus()),
        iso.wf(),
        s.len() == s_prime.len(),
        all_canonical(s),
        all_canonical(s_prime),
        level_valid(iso, s, s_prime),
        0 <= j < s.len() / 2,
    ensures
        is_unit_mod(iso.spec_x_denominator(s[j].value()), F::modulus()),
        is_unit_mod(iso.spec_x_denominator(s[j + s.len() / 2].value()), F::modulus()),
        is_unit_mod(iso.spec_x_denominator(s_prime[j].value()), F::modulus()),
        is_unit_mod(iso.spec_x_denominator(s_prime[j + s.len() / 2].value()), F::modulus()),
{
    let nn = (s.len() / 2) as int;
    assert(pair_valid(iso, s, s_prime, j));
    lemma_denominator_unit(iso, s[j]);
    lemma_denominator_unit(iso, s[j + nn]);
    lemma_denominator_unit(iso, s_prime[j]);
    lemma_denominator_unit(iso, s_prime[j + nn]);
}

/// Over a field, a denominator that does not vanish is a unit.
proof fn lemma_denominator_unit<F: PrimeField>(iso: Isogeny<F>, x: F)
    requires
        is_prime(F::modulus()),
        iso.wf(),
        x.is_canonical(),
        iso.spec_x_denominator(x.value()) != 0,
    ensures
        is_unit_mod(iso.spec_x_denominator(x.value()), F::modulus()),
{
    F::lemma_value_range(x);
    lemma_field_horner_value(iso.x_denominator@, x.value());
    lemma_prime_units(iso.spec_x_denominator(x.value()), F::modulus());
}

/// The inverse matrix of a pair takes the values of a polynomial at the
/// pair to a pair of group elements, which the matrix of the pair takes
/// back to the values.
proof fn lemma_pair_values<F: PrimeField, G: MyGroup<ScalarField = F>>(
    iso: Isogeny<F>,
    s: Seq<F>,
    s_prime: Seq<F>,
    c: Seq<G>,
    j: int,
)
    requires
        s.len() >= 2,
        s.len() % 2 == 0,
        all_canonical(s),
        level_valid(iso, s, s_prime),
        all_wf(c),
        0 <= j < s.len() / 2,
    ensures
        ({
            let nn = (s.len() / 2) as int;
            let m = level_matrix(iso, s[j], s[j + nn], (nn - 1) as nat);
            let inverse = level_spec(iso, s, s_prime).inverse_matrices;
            let evals = evaluations(c, s);
            let a = reduce_pairs(inverse, evals, false)[j];
            let b = reduce_pairs(inverse, evals, true)[j];
            &&& a.wf()
            &&& b.wf()
            &&& mat_apply(m, a, b) == (horner(c, s[j].value()), horner(c, s[j + nn].value()))
        }),
{
    let p = F::modulus();
    let nn = (s.len() / 2) as int;
    let m = level_matrix(iso, s[j], s[j + nn], (nn - 1) as nat);
    F::lemma_modulus();
    F::lemma_value_range(s[j]);
    F::lemma_value_range(s[j + nn]);
    assert(pair_valid(iso, s, s_prime, j));
    lemma_level_matrix_wf(iso, s[j], s[j + nn], (nn - 1) as nat);
    lemma_mat_inverse(m, p);
    let y0 = horner(c, s[j].value());
    let y1 = horner(c, s[j + nn].value());
    lemma_horner_wf(c, s[j].value());
    lemma_horner_wf(c, s[j + nn].value());
    lemma_apply_wf(mat_inverse(m, p), y0, y1);
    lemma_inverse_round_trip(m, y0, y1);
    assert(level_spec(iso, s, s_prime).inverse_matrices[j] == mat_inverse(m, p));
}

/// The elements of a pair with an invertible matrix are not equal.
proof fn lemma_pair_distinct<F: PrimeField>(iso: Isogeny<F>, x0: F, x1: F, q: nat)
    requires
        is_unit_mod(mat_det(level_matrix(iso, x0, x1, q), F::modulus()), F::modulus()),
    ensures
        x0.value() != x1.value(),
{
    let p = F::modulus();
    F::lemma_modulus();
    if x0.value() == x1.value() {
        // the two rows of the matrix are equal, and its determinant is zero
        let m = level_matrix(iso, x0, x1, q);
        assert(m.a == m.c && m.b == m.d);
        lemma_mul_mod_comm(m.a, m.b, p);
        lemma_mod_range(m.a * m.b, p);
        lemma_sub_mod_zero(mul_mod(m.a, m.b, p), mul_mod(m.a, m.b, p), p);
        lemma_zero_not_unit(p);
    }
}

/// The elements of each level of a valid tower are distinct.
pub proof fn lemma_tower_distinct<F: PrimeField>(
    s: Seq<F>,
    s_prime: Seq<F>,
    isogenies: Seq<Isogeny<F>>,
    t: nat,
)
    requires
        s.len() == s_prime.len(),
        is_power_of_two(s.len() as int),
        tower_valid(s, s_prime, isogenies, t),
    ensures
        distinct(values(s)),
        s.len() > 1 ==> distinct(values(image_points(isogenies[t as int], s))),
    decreases s.len(),
{
    if s.len() > 1 {
        let iso = isogenies[t as int];
        let nn = (s.len() / 2) as int;
        let next = image_points(iso, s);
        let next_prime = image_points(iso, s_prime);
        lemma_image_points(iso, s);
        lemma_image_points(iso, s_prime);
        lemma_tower_distinct(next, next_prime, isogenies, t + 1);
        assert forall|a: int, b: int| 0 <= a < b < s.len() implies values(s)[a] != values(s)[b] by {
            let ja = if a < nn {
                a
            } else {
                a - nn
            };
            let jb = if b < nn {
                b
            } else {
                b - nn
            };
            assert(pair_valid(iso, s, s_prime, ja));
            assert(pair_valid(iso, s, s_prime, jb));
            assert(values(next)[ja] == iso.spec_evaluate_x(s[a].value()));
            assert(values(next)[jb] == iso.spec_evaluate_x(s[b].value()));
            if ja == jb {
                lemma_pair_distinct(iso, s[ja], s[ja + nn], (nn - 1) as nat);
            } else if ja < jb {
                assert(values(next)[ja] != values(next)[jb]);
            } else {
                assert(values(next)[jb] != values(next)[ja]);
            }
        }
    }
}

/// Over a field, the levels of a valid tower decompose the polynomials.
pub proof fn lemma_tower_decomposes<F: PrimeField, G: MyGroup<ScalarField = F>>(
    s: Seq<F>,
    s_prime: Seq<F>,
    isogenies: Seq<Isogeny<F>>,
    t: nat,
)
    requires
        is_prime(F::modulus()),
        s.len() == s_prime.len(),
        is_power_of_two(s.len() as int),
        all_canonical(s),
        all_canonical(s_prime),
        all_isogenies_wf(isogenies),
        tower_valid(s, s_prime, isogenies, t),
    ensures
        tower_decomposes::<F, G>(s, s_prime, isogenies, t),
    decreases s.len(),
{
    if s.len() > 1 {
        let iso = isogenies[t as int];
        let next = image_points(iso, s);
        let next_prime = image_points(iso, s_prime);
        lemma_image_points(iso, s);
        lemma_image_points(iso, s_prime);
        lemma_tower_distinct(s, s_prime, isogenies, t);
        lemma_level_decomposes::<F, G>(iso, s, s_prime);
        lemma_tower_decomposes::<F, G>(next, next_prime, isogenies, t + 1);
    }
}

/// Extending agrees with evaluating point by point. Over a field, for
/// the precomputation on a coset on which it exists: at every level,
/// `extend` takes the values on `s` of a polynomial with as many
/// coefficients as `s` has elements, or fewer, to its values on
/// `s_prime`.
pub proof fn lemma_extend_agrees_with_naive<F: PrimeField, G: MyGroup<ScalarField = F>>(
    pre: EcFftCosetPrecomputation<F>,
    isogenies: Seq<Isogeny<F>>,
    level: int,
    coeffs: Seq<G>,
)
    requires
        is_prime(F::modulus()),
        pre.is_precomputation_with(isogenies),
        0 <= level < pre.steps@.len(),
        all_wf(coeffs),
        coeffs.len() <= pre.steps@[level].s@.len(),
    ensures
        extends_at(pre, level, coeffs),
{
    let coset = pre.coset@;
    let s = pre.steps@[level].s@;
    let s_prime = pre.steps@[level].s_prime@;
    // a coset of one element has no level
    if coset.len() < 2 {
        assert(coset_steps_spec(coset, isogenies).len() == 0);
    }
    lemma_coset_decomposes::<F, G>(coset, isogenies);
    // zero coefficients at its end change no value of the polynomial
    let padded = poly_pad(coeffs, (s.len() - coeffs.len()) as nat);
    lemma_tower_level_canonical(pre, isogenies, level);
    lemma_pad_evaluations(coeffs, (s.len() - coeffs.len()) as nat, s);
    lemma_pad_evaluations(coeffs, (s.len() - coeffs.len()) as nat, s_prime);
    lemma_extend_by_decomposition(pre, coset, isogenies, level, padded);
}

/// The sub-cosets of a level of the precomputation on a coset are of
/// field elements.
proof fn lemma_tower_level_canonical<F: PrimeField>(
    pre: EcFftCosetPrecomputation<F>,
    isogenies: Seq<Isogeny<F>>,
    level: int,
)
    requires
        pre.is_precomputation_with(isogenies),
        pre.coset@.len() >= 2,
        0 <= level < pre.steps@.len(),
    ensures
        all_canonical(pre.steps@[level].s@),
        all_canonical(pre.steps@[level].s_prime@),
{
    let coset = pre.coset@;
    let s = strided(coset, 0, 2);
    let s_prime = strided(coset, 1, 2);
    lemma_halves(coset);
    assert(steps_view(pre.steps@).len() == pre.steps@.len());
    assert(steps_view(pre.steps@)[level] == pre.steps@[level]@);
    lemma_tower_canonical(s, s_prime, isogenies, 0, level);
}

/// The sub-cosets of each level from sub-cosets of field elements down
/// are of field elements.
proof fn lemma_tower_canonical<F: PrimeField>(
    s: Seq<F>,
    s_prime: Seq<F>,
    isogenies: Seq<Isogeny<F>>,
    t: nat,
    u: int,
)
    requires
        all_canonical(s),
        all_canonical(s_prime),
        0 <= u < tower_spec(s, s_prime, isogenies, t).len(),
    ensures
        all_canonical(tower_spec(s, s_prime, isogenies, t)[u].s),
        all_canonical(tower_spec(s, s_prime, isogenies, t)[u].s_prime),
    decreases u,
{
    let tower = tower_spec(s, s_prime, isogenies, t);
    if s.len() <= 1 {
        assert(tower[0] == last_level_spec(s, s_prime));
    } else {
        let iso = isogenies[t as int];
        let next = image_points(iso, s);
        let next_prime = image_points(iso, s_prime);
        let rest = tower_spec(next, next_prime, isogenies, t + 1);
        assert(tower == seq![level_spec(iso, s, s_prime)] + rest);
        if u == 0 {
            assert(tower[0] == level_spec(iso, s, s_prime));
        } else {
            lemma_image_points(iso, s);
            lemma_image_points(iso, s_prime);
            lemma_tower_canonical(next, next_prime, isogenies, t + 1, u - 1);
            assert(tower[u] == rest[u - 1]);
        }
    }
}

/// Zero coefficients at the end of a polynomial change none of its
/// values.
proof fn lemma_pad_evaluations<F: PrimeField, G: MyGroup<ScalarField = F>>(
    coeffs: Seq<G>,
    n: nat,
    points: Seq<F>,
)
    requires
        all_wf(coeffs),
        all_canonical(points),
    ensures
        all_wf(poly_pad(coeffs, n)),
        poly_pad(coeffs, n).len() == coeffs.len() + n,
        evaluations(poly_pad(coeffs, n), points) == evaluations(coeffs, points),
{
    F::lemma_modulus();
    lemma_horner_pad(coeffs, n, 0);
    assert forall|j: int| 0 <= j < points.len() implies #[trigger] evaluations(
        poly_pad(coeffs, n),
        points,
    )[j] == evaluations(coeffs, points)[j] by {
        F::lemma_value_range(points[j]);
        lemma_horner_pad(coeffs, n, points[j].value());
    }
    assert(evaluations(poly_pad(coeffs, n), points) =~= evaluations(coeffs, points));
}

/// Over a field, the levels of a coset on which the precomputation exists
/// decompose the polynomials.
proof fn lemma_coset_decomposes<F: PrimeField, G: MyGroup<ScalarField = F>>(
    coset: Seq<F>,
    isogenies: Seq<Isogeny<F>>,
)
    requires
        is_prime(F::modulus()),
        all_canonical(coset),
        all_isogenies_wf(isogenies),
        coset.len() >= 2,
        coset_valid(coset, isogenies),
    ensures
        tower_decomposes::<F, G>(strided(coset, 0, 2), strided(coset, 1, 2), isogenies, 0),
{
    lemma_halves(coset);
    lemma_tower_decomposes::<F, G>(strided(coset, 0, 2), strided(coset, 1, 2), isogenies, 0);
}

/// Evaluating over a domain agrees with evaluating point by point. Over
/// a field, for the precomputations on a coset and its sub-cosets, where
/// they exist: `evaluate_over_domain` gives the values of the polynomial
/// at the elements of the sub-coset that has as many elements as the
/// polynomial has coefficients, in the order of the sub-coset.
pub proof fn lemma_evaluate_agrees_with_naive<F: PrimeField, G: MyGroup<ScalarField = F>>(
    pre: Seq<EcFftCosetPrecomputation<F>>,
    coset: Seq<F>,
    isogenies: Seq<Isogeny<F>>,
    depth: int,
    coeffs: Seq<G>,
)
    requires
        is_prime(F::modulus()),
        all_isogenies_wf(isogenies),
        precomputations_match(pre, coset, isogenies),
        0 <= depth < pre.len(),
        coeffs.len() == pre[depth].coset@.len(),
        all_wf(coeffs),
    ensures
        evaluate_spec(precomputations_view(pre), depth, coeffs) == evaluations(
            coeffs,
            sub_coset_spec(coset, depth as nat),
        ),
{
    assert forall|e: int| 0 <= e < pre.len() - 1 implies tower_decomposes::<F, G>(
        strided(#[trigger] sub_coset_spec(coset, e as nat), 0, 2),
        strided(sub_coset_spec(coset, e as nat), 1, 2),
        isogenies,
        0,
    ) by {
        let domain = sub_coset_spec(coset, e as nat);
        assert(pre[e].coset@ == domain);
        assert(pre[e].wf());
        assert(pre[e + 1].wf());
        assert(pre[e].coset@.len() == 2 * pre[e + 1].coset@.len());
        lemma_sub_coset_valid(coset, isogenies, e as nat);
        lemma_coset_decomposes::<F, G>(domain, isogenies);
    }
    lemma_evaluate_by_decomposition(pre, coset, isogenies, depth, coeffs);
}

} // verus!
