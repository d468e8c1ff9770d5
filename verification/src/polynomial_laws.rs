//! The algebra of polynomials with coefficients in a group: sums and
//! products by polynomials over the field, with what they do to values;
//! that a polynomial with more roots than coefficients is zero; and that
//! there is a polynomial with given values at given points.

use crate::field::PrimeField;
use crate::group_laws::{
    all_canonical, all_wf, lemma_add_shuffle, lemma_add_wf, lemma_difference_zero, lemma_neg_wf,
    lemma_scale_add, lemma_scale_distrib, lemma_scale_mul, lemma_scale_neg, lemma_scale_one,
    lemma_scale_wf, lemma_scale_zero, lemma_zero_add, lemma_zero_scale, scaled,
};
use crate::group_polynomial::{
    all_zero, horner, lemma_field_horner_value, lemma_horner_all_zero, lemma_horner_constant,
    lemma_horner_wf,
};
use crate::modular::{
    add_mod, inv_mod, is_inverse_mod, is_prime, is_unit_mod, lemma_inv_mod_is_inverse,
    lemma_mod_absorb, lemma_mod_range, lemma_mul_mod_assoc, lemma_mul_mod_comm, lemma_mul_mod_one,
    lemma_mul_mod_zero, lemma_pow_mod_range, lemma_prime_units, lemma_sub_mod_is_add_neg,
    lemma_sub_mod_zero, mul_mod, neg_mod, pow_mod, quot_mod, sub_mod,
};
use crate::my_group::{scale, MyGroup};
use vstd::arithmetic::div_mod::lemma_small_mod;
use vstd::prelude::*;

verus! {

/// Coefficient `i` of a polynomial: zero from its length on.
pub open spec fn coeff<G: MyGroup>(a: Seq<G>, i: int) -> G {
    if 0 <= i < a.len() {
        a[i]
    } else {
        G::spec_zero()
    }
}

/// The polynomial without its constant coefficient.
pub open spec fn tail<G: MyGroup>(a: Seq<G>) -> Seq<G> {
    if a.len() == 0 {
        a
    } else {
        a.drop_first()
    }
}

/// The sum of two polynomials.
pub open spec fn poly_add<G: MyGroup>(a: Seq<G>, b: Seq<G>) -> Seq<G> {
    Seq::new(
        if a.len() >= b.len() {
            a.len()
        } else {
            b.len()
        },
        |i: int| coeff(a, i).spec_add(coeff(b, i)),
    )
}

/// The product of a polynomial by `x`.
pub open spec fn poly_shift<G: MyGroup>(a: Seq<G>) -> Seq<G> {
    seq![G::spec_zero()] + a
}

/// The coefficients of a polynomial without the first are group elements.
pub proof fn lemma_tail_wf<G: MyGroup>(a: Seq<G>)
    requires
        all_wf(a),
    ensures
        all_wf(tail(a)),
{
    if a.len() > 0 {
        assert forall|i: int| 0 <= i < tail(a).len() implies (#[trigger] tail(a)[i]).wf() by {
            assert(tail(a)[i] == a[i + 1]);
        }
    }
}

/// The value of a polynomial is that of the polynomial without its
/// constant coefficient, times `x`, plus the constant coefficient.
pub proof fn lemma_horner_unfold<G: MyGroup>(a: Seq<G>, x: int)
    requires
        all_wf(a),
        0 <= x < G::ScalarField::modulus(),
    ensures
        horner(a, x) == scale(horner(tail(a), x), x).spec_add(coeff(a, 0)),
{
    if a.len() == 0 {
        lemma_zero_scale::<G>(x);
        G::lemma_zero_wf();
        G::lemma_add_zero(G::spec_zero());
    }
}

/// The value of a sum is the sum of the values.
pub proof fn lemma_horner_add<G: MyGroup>(a: Seq<G>, b: Seq<G>, x: int)
    requires
        all_wf(a),
        all_wf(b),
        0 <= x < G::ScalarField::modulus(),
    ensures
        all_wf(poly_add(a, b)),
        horner(poly_add(a, b), x) == horner(a, x).spec_add(horner(b, x)),
    decreases a.len() + b.len(),
{
    let c = poly_add(a, b);
    G::lemma_zero_wf();
    assert forall|i: int| 0 <= i < c.len() implies (#[trigger] c[i]).wf() by {
        lemma_add_wf(coeff(a, i), coeff(b, i));
    }
    if a.len() == 0 && b.len() == 0 {
        G::lemma_add_zero(G::spec_zero());
    } else {
        let ta = tail(a);
        let tb = tail(b);
        lemma_tail_wf(a);
        lemma_tail_wf(b);
        lemma_horner_add(ta, tb, x);
        assert(c.drop_first() =~= poly_add(ta, tb));
        lemma_horner_unfold(a, x);
        lemma_horner_unfold(b, x);
        lemma_horner_wf(ta, x);
        lemma_horner_wf(tb, x);
        lemma_scale_distrib(horner(ta, x), horner(tb, x), x);
        lemma_scale_wf(horner(ta, x), x);
        lemma_scale_wf(horner(tb, x), x);
        lemma_add_shuffle(
            scale(horner(ta, x), x),
            scale(horner(tb, x), x),
            coeff(a, 0),
            coeff(b, 0),
        );
    }
}

/// The value of a polynomial of which each coefficient is multiplied by a
/// scalar is the value of the polynomial, multiplied by the scalar.
pub proof fn lemma_horner_scaled<G: MyGroup>(a: Seq<G>, k: int, x: int)
    requires
        all_wf(a),
        0 <= k < G::ScalarField::modulus(),
        0 <= x < G::ScalarField::modulus(),
    ensures
        all_wf(scaled(a, k)),
        horner(scaled(a, k), x) == scale(horner(a, x), k),
    decreases a.len(),
{
    let p = G::ScalarField::modulus();
    assert forall|i: int| 0 <= i < a.len() implies (#[trigger] scaled(a, k)[i]).wf() by {
        lemma_scale_wf(a[i], k);
    }
    if a.len() == 0 {
        lemma_zero_scale::<G>(k);
    } else {
        let t = a.drop_first();
        lemma_tail_wf(a);
        lemma_horner_scaled(t, k, x);
        assert(scaled(a, k).drop_first() =~= scaled(t, k));
        lemma_horner_wf(t, x);
        // (h * k) * x == (h * x) * k
        lemma_scale_mul(horner(t, x), k, x);
        lemma_scale_mul(horner(t, x), x, k);
        lemma_mul_mod_comm(k, x, p);
        lemma_scale_wf(horner(t, x), x);
        lemma_scale_distrib(scale(horner(t, x), x), a[0], k);
    }
}

/// The value of the product of a polynomial by `x` is the value of the
/// polynomial, multiplied by `x`.
pub proof fn lemma_horner_shift<G: MyGroup>(a: Seq<G>, x: int)
    requires
        all_wf(a),
        0 <= x < G::ScalarField::modulus(),
    ensures
        all_wf(poly_shift(a)),
        horner(poly_shift(a), x) == scale(horner(a, x), x),
{
    G::lemma_zero_wf();
    assert(poly_shift(a).drop_first() =~= a);
    lemma_horner_wf(a, x);
    lemma_scale_wf(horner(a, x), x);
    G::lemma_add_zero(scale(horner(a, x), x));
}

/// The polynomial followed by `n` zero coefficients.
pub open spec fn poly_pad<G: MyGroup>(a: Seq<G>, n: nat) -> Seq<G> {
    a + Seq::new(n, |i: int| G::spec_zero())
}

/// Zero coefficients at the end of a polynomial change no value.
pub proof fn lemma_horner_pad<G: MyGroup>(a: Seq<G>, n: nat, x: int)
    requires
        all_wf(a),
        0 <= x < G::ScalarField::modulus(),
    ensures
        all_wf(poly_pad(a, n)),
        horner(poly_pad(a, n), x) == horner(a, x),
    decreases a.len(),
{
    G::lemma_zero_wf();
    let padded = poly_pad(a, n);
    assert forall|i: int| 0 <= i < padded.len() implies (#[trigger] padded[i]).wf() by {
        if i < a.len() {
            assert(padded[i] == a[i]);
        }
    }
    if a.len() == 0 {
        lemma_horner_all_zero(padded, x);
    } else {
        lemma_tail_wf(a);
        lemma_horner_pad(a.drop_first(), n, x);
        assert(padded.drop_first() =~= poly_pad(a.drop_first(), n));
    }
}

/// The quotient of the division of a polynomial by `x - a`: its
/// coefficient `i` is the value at `a` of the polynomial without its first
/// `i + 1` coefficients.
pub open spec fn quotient<G: MyGroup>(c: Seq<G>, a: int) -> Seq<G> {
    Seq::new(
        if c.len() == 0 {
            0
        } else {
            (c.len() - 1) as nat
        },
        |i: int| horner(c.skip(i + 1), a),
    )
}

/// The coefficients of the quotient are group elements.
pub proof fn lemma_quotient_wf<G: MyGroup>(c: Seq<G>, a: int)
    requires
        all_wf(c),
        0 <= a < G::ScalarField::modulus(),
    ensures
        all_wf(quotient(c, a)),
{
    assert forall|i: int| 0 <= i < quotient(c, a).len() implies (#[trigger] quotient(c, a)[i]).wf() by {
        assert forall|j: int| 0 <= j < c.skip(i + 1).len() implies (#[trigger] c.skip(
            i + 1,
        )[j]).wf() by {
            assert(c.skip(i + 1)[j] == c[i + 1 + j]);
        }
        lemma_horner_wf(c.skip(i + 1), a);
    }
}

/// Division by `x - a`: a polynomial is the product of its quotient by
/// `x - a`, plus its value at `a`.
pub proof fn lemma_division<G: MyGroup>(c: Seq<G>, a: int, x: int)
    requires
        all_wf(c),
        0 <= a < G::ScalarField::modulus(),
        0 <= x < G::ScalarField::modulus(),
    ensures
        horner(c, x) == scale(
            horner(quotient(c, a), x),
            sub_mod(x, a, G::ScalarField::modulus()),
        ).spec_add(horner(c, a)),
    decreases c.len(),
{
    let p = G::ScalarField::modulus();
    let k = sub_mod(x, a, p);
    lemma_mod_range(x - a, p);
    G::lemma_zero_wf();
    if c.len() <= 1 {
        // the quotient is zero, and the polynomial is constant
        assert(quotient(c, a).len() == 0);
        lemma_zero_scale::<G>(k);
        lemma_horner_unfold(c, x);
        lemma_horner_unfold(c, a);
        lemma_tail_wf(c);
        assert(tail(c).len() == 0);
        lemma_zero_scale::<G>(x);
        lemma_zero_scale::<G>(a);
        lemma_horner_wf(c, a);
        lemma_zero_add(horner(c, a));
    } else {
        let rest = c.drop_first();
        lemma_tail_wf(c);
        lemma_division(rest, a, x);
        let q = quotient(c, a);
        let q_rest = quotient(rest, a);
        lemma_quotient_wf(c, a);
        lemma_quotient_wf(rest, a);
        assert(c.skip(1) =~= rest);
        assert forall|i: int| 0 <= i < q_rest.len() implies #[trigger] q_rest[i] == q[i + 1] by {
            assert(rest.skip(i + 1) =~= c.skip(i + 2));
        }
        assert(q.drop_first() =~= q_rest);
        assert(q[0] == horner(rest, a));
        let d = horner(q_rest, x);
        let r = horner(rest, a);
        lemma_horner_wf(q_rest, x);
        lemma_horner_wf(rest, a);
        lemma_horner_wf(rest, x);
        // the value: (d * k + r) * x + c0
        lemma_scale_wf(d, k);
        lemma_scale_wf(d, x);
        lemma_scale_distrib(scale(d, k), r, x);
        lemma_scale_mul(d, k, x);
        // the claim: (d * x + r) * k + (r * a + c0)
        lemma_scale_distrib(scale(d, x), r, k);
        lemma_scale_mul(d, x, k);
        lemma_mul_mod_comm(k, x, p);
        // r * k + r * a == r * x
        lemma_scale_add(r, k, a);
        lemma_sub_mod_is_add_neg(x, a, p);
        assert(add_mod(k, a, p) == x) by {
            lemma_mod_absorb(x - a, a, p);
            lemma_small_mod(x as nat, p as nat);
        }
        let dd = scale(d, mul_mod(x, k, p));
        lemma_mod_range(x * k, p);
        lemma_scale_wf(d, mul_mod(x, k, p));
        lemma_scale_wf(r, k);
        lemma_scale_wf(r, a);
        lemma_scale_wf(r, x);
        lemma_add_wf(scale(r, a), c[0]);
        lemma_add_wf(dd, scale(r, k));
        G::lemma_add_assoc(dd, scale(r, k), scale(r, a).spec_add(c[0]));
        G::lemma_add_assoc(scale(r, k), scale(r, a), c[0]);
        G::lemma_add_assoc(dd, scale(r, x), c[0]);
    }
}

/// A polynomial is zero where its quotient by `x - a` and its value at `a`
/// are zero.
pub proof fn lemma_quotient_zero<G: MyGroup>(c: Seq<G>, a: int)
    requires
        all_wf(c),
        0 <= a < G::ScalarField::modulus(),
        all_zero(quotient(c, a)),
        horner(c, a) == G::spec_zero(),
    ensures
        all_zero(c),
{
    let q = quotient(c, a);
    assert forall|k: int| 0 <= k < c.len() implies #[trigger] c[k] == G::spec_zero() by {
        let from_k = c.skip(k);
        let after_k = c.skip(k + 1);
        assert(from_k.drop_first() =~= after_k);
        assert(from_k[0] == c[k]);
        assert(horner(from_k, a) == scale(horner(after_k, a), a).spec_add(c[k]));
        if k == 0 {
            assert(from_k =~= c);
        } else {
            assert(q[k - 1] == horner(c.skip(k - 1 + 1), a));
            assert(q[k - 1] == G::spec_zero());
        }
        assert(horner(from_k, a) == G::spec_zero());
        if k < c.len() - 1 {
            assert(q[k] == horner(after_k, a));
            assert(q[k] == G::spec_zero());
        } else {
            assert(after_k.len() == 0);
        }
        assert(horner(after_k, a) == G::spec_zero());
        lemma_zero_scale::<G>(a);
        assert(c[k].wf());
        lemma_zero_add(c[k]);
    }
}

/// A group element is zero where its product by a unit is zero.
pub proof fn lemma_scale_unit_zero<G: MyGroup>(y: G, k: int)
    requires
        y.wf(),
        0 <= k < G::ScalarField::modulus(),
        is_unit_mod(k, G::ScalarField::modulus()),
        scale(y, k) == G::spec_zero(),
    ensures
        y == G::spec_zero(),
{
    let p = G::ScalarField::modulus();
    let i = inv_mod(k, p);
    lemma_inv_mod_is_inverse(k, p);
    lemma_scale_mul(y, k, i);
    lemma_scale_one(y);
    lemma_zero_scale::<G>(i);
}

/// No two of the elements are equal.
pub open spec fn distinct(xs: Seq<int>) -> bool {
    forall|i: int, j: int| 0 <= i < j < xs.len() ==> xs[i] != xs[j]
}

/// Every element is a residue.
pub open spec fn all_residues(xs: Seq<int>, p: int) -> bool {
    forall|i: int| 0 <= i < xs.len() ==> 0 <= #[trigger] xs[i] < p
}

/// The polynomial is zero at each of the points.
pub open spec fn vanishes_at<G: MyGroup>(c: Seq<G>, xs: Seq<int>) -> bool {
    forall|i: int| 0 <= i < xs.len() ==> horner(c, #[trigger] xs[i]) == G::spec_zero()
}

/// Over a field, a polynomial that is zero at as many points as it has
/// coefficients, or more, is zero.
pub proof fn lemma_roots<G: MyGroup>(c: Seq<G>, xs: Seq<int>)
    requires
        is_prime(G::ScalarField::modulus()),
        all_wf(c),
        c.len() <= xs.len(),
        distinct(xs),
        all_residues(xs, G::ScalarField::modulus()),
        vanishes_at(c, xs),
    ensures
        all_zero(c),
    decreases xs.len(),
{
    let p = G::ScalarField::modulus();
    if c.len() > 0 {
        let a = xs.last();
        let rest = xs.drop_last();
        let q = quotient(c, a);
        lemma_quotient_wf(c, a);
        assert(horner(c, a) == G::spec_zero());
        assert forall|i: int| 0 <= i < rest.len() implies horner(q, #[trigger] rest[i])
            == G::spec_zero() by {
            let x = rest[i];
            assert(x == xs[i]);
            assert(x != a);
            let k = sub_mod(x, a, p);
            lemma_division(c, a, x);
            lemma_mod_range(x - a, p);
            lemma_sub_mod_zero(x, a, p);
            lemma_prime_units(k, p);
            lemma_horner_wf(q, x);
            lemma_scale_wf(horner(q, x), k);
            G::lemma_add_zero(scale(horner(q, x), k));
            lemma_scale_unit_zero(horner(q, x), k);
        }
        lemma_roots(q, rest);
        lemma_quotient_zero(c, a);
    }
}

/// Over a field, two polynomials that take the same values at as many
/// points as the longer has coefficients, or more, take the same value
/// everywhere.
pub proof fn lemma_agree<G: MyGroup>(a: Seq<G>, b: Seq<G>, xs: Seq<int>, y: int)
    requires
        is_prime(G::ScalarField::modulus()),
        all_wf(a),
        all_wf(b),
        a.len() <= xs.len(),
        b.len() <= xs.len(),
        distinct(xs),
        all_residues(xs, G::ScalarField::modulus()),
        forall|i: int| 0 <= i < xs.len() ==> horner(a, #[trigger] xs[i]) == horner(b, xs[i]),
        0 <= y < G::ScalarField::modulus(),
    ensures
        horner(a, y) == horner(b, y),
{
    let p = G::ScalarField::modulus();
    let minus_one = neg_mod(1, p);
    lemma_mod_range(-1, p);
    // the difference a - b
    let d = poly_add(a, scaled(b, minus_one));
    assert forall|x: int| 0 <= x < p implies all_wf(d) && #[trigger] horner(d, x) == horner(
        a,
        x,
    ).spec_add(horner(b, x).spec_neg()) by {
        lemma_horner_scaled(b, minus_one, x);
        lemma_horner_add(a, scaled(b, minus_one), x);
        lemma_horner_wf(b, x);
        lemma_scale_neg(horner(b, x), 1);
        lemma_scale_one(horner(b, x));
    }
    assert(all_wf(d)) by {
        assert(horner(d, 0) == horner(a, 0).spec_add(horner(b, 0).spec_neg()));
    }
    assert forall|i: int| 0 <= i < xs.len() implies horner(d, #[trigger] xs[i])
        == G::spec_zero() by {
        let x = xs[i];
        assert(horner(d, x) == horner(a, x).spec_add(horner(b, x).spec_neg()));
        lemma_horner_wf(a, x);
        lemma_horner_wf(b, x);
        lemma_difference_zero(horner(a, x), horner(b, x));
    }
    lemma_roots(d, xs);
    lemma_horner_all_zero(d, y);
    assert(horner(d, y) == horner(a, y).spec_add(horner(b, y).spec_neg()));
    lemma_horner_wf(a, y);
    lemma_horner_wf(b, y);
    lemma_difference_zero(horner(a, y), horner(b, y));
}

/// The product over the points `t` of `x - t`.
pub open spec fn nodal_value(ts: Seq<int>, x: int, p: int) -> int
    decreases ts.len(),
{
    if ts.len() == 0 {
        1int % p
    } else {
        mul_mod(nodal_value(ts.drop_last(), x, p), sub_mod(x, ts.last(), p), p)
    }
}

/// The polynomial with the value `w` times the product over the points
/// `t` of `x - t`.
pub open spec fn nodal_times<G: MyGroup>(ts: Seq<int>, w: G) -> Seq<G>
    decreases ts.len(),
{
    if ts.len() == 0 {
        seq![w]
    } else {
        let prev = nodal_times(ts.drop_last(), w);
        poly_add(poly_shift(prev), scaled(prev, neg_mod(ts.last(), G::ScalarField::modulus())))
    }
}

/// The product over the points is a residue.
pub proof fn lemma_nodal_range(ts: Seq<int>, x: int, p: int)
    requires
        p > 0,
    ensures
        0 <= nodal_value(ts, x, p) < p,
    decreases ts.len(),
{
    if ts.len() == 0 {
        lemma_mod_range(1, p);
    } else {
        lemma_mod_range(nodal_value(ts.drop_last(), x, p) * sub_mod(x, ts.last(), p), p);
    }
}

/// The polynomial `w * prod (x - t)` has one coefficient more than there
/// are points, and the value that its name says.
pub proof fn lemma_nodal_times<G: MyGroup>(ts: Seq<int>, w: G, x: int)
    requires
        w.wf(),
        all_residues(ts, G::ScalarField::modulus()),
        0 <= x < G::ScalarField::modulus(),
    ensures
        nodal_times(ts, w).len() == ts.len() + 1,
        all_wf(nodal_times(ts, w)),
        horner(nodal_times(ts, w), x) == scale(
            w,
            nodal_value(ts, x, G::ScalarField::modulus()),
        ),
    decreases ts.len(),
{
    let p = G::ScalarField::modulus();
    G::ScalarField::lemma_modulus();
    if ts.len() == 0 {
        assert(seq![w].drop_first().len() == 0);
        assert(horner(seq![w].drop_first(), x) == G::spec_zero());
        lemma_zero_scale::<G>(x);
        lemma_zero_add(w);
        lemma_small_mod(1, p as nat);
        lemma_scale_one(w);
    } else {
        let t = ts.last();
        let rest = ts.drop_last();
        let prev = nodal_times(rest, w);
        let n = nodal_value(rest, x, p);
        let minus_t = neg_mod(t, p);
        lemma_nodal_times(rest, w, x);
        lemma_nodal_range(rest, x, p);
        lemma_mod_range(-t, p);
        lemma_mod_range(x - t, p);
        lemma_horner_shift(prev, x);
        lemma_horner_scaled(prev, minus_t, x);
        lemma_horner_add(poly_shift(prev), scaled(prev, minus_t), x);
        // prev * x + prev * (-t) == prev * (x - t)
        lemma_horner_wf(prev, x);
        lemma_scale_add(horner(prev, x), x, minus_t);
        lemma_sub_mod_is_add_neg(x, t, p);
        lemma_scale_mul(w, n, sub_mod(x, t, p));
    }
}

/// The product over the points is zero at each of the points.
pub proof fn lemma_nodal_zero(ts: Seq<int>, i: int, p: int)
    requires
        p > 0,
        all_residues(ts, p),
        0 <= i < ts.len(),
    ensures
        nodal_value(ts, ts[i], p) == 0,
    decreases ts.len(),
{
    let x = ts[i];
    let rest = ts.drop_last();
    if i == ts.len() - 1 {
        lemma_sub_mod_zero(x, x, p);
        lemma_mul_mod_zero(nodal_value(rest, x, p), p);
    } else {
        assert(rest[i] == x);
        lemma_nodal_zero(rest, i, p);
        lemma_mul_mod_zero(sub_mod(x, ts.last(), p), p);
    }
}

/// The product of two units is a unit.
pub proof fn lemma_unit_mul(a: int, b: int, p: int)
    requires
        p > 0,
        is_unit_mod(a, p),
        is_unit_mod(b, p),
    ensures
        is_unit_mod(mul_mod(a, b, p), p),
{
    let i = inv_mod(a, p);
    let j = inv_mod(b, p);
    lemma_inv_mod_is_inverse(a, p);
    lemma_inv_mod_is_inverse(b, p);
    let k = mul_mod(i, j, p);
    lemma_mod_range(i * j, p);
    // (a * b) * (i * j) == (a * i) * (b * j) == 1
    lemma_mul_mod_assoc(mul_mod(a, b, p), i, j, p);
    lemma_mul_mod_assoc(a, b, i, p);
    lemma_mul_mod_comm(b, i, p);
    lemma_mul_mod_assoc(a, i, b, p);
    lemma_mod_absorb(1, b, p);
    lemma_mod_absorb(b, j, p);
    assert(mul_mod(mul_mod(a, b, p), k, p) == 1);
    lemma_mod_absorb(a * b, k, p);
    assert(is_inverse_mod(mul_mod(a, b, p), k, p));
}

/// Over a field, the product over the points is a unit away from the
/// points.
pub proof fn lemma_nodal_unit(ts: Seq<int>, x: int, p: int)
    requires
        is_prime(p),
        all_residues(ts, p),
        0 <= x < p,
        forall|i: int| 0 <= i < ts.len() ==> #[trigger] ts[i] != x,
    ensures
        is_unit_mod(nodal_value(ts, x, p), p),
    decreases ts.len(),
{
    if ts.len() == 0 {
        lemma_small_mod(1, p as nat);
        lemma_prime_units(1, p);
    } else {
        let rest = ts.drop_last();
        assert forall|i: int| 0 <= i < rest.len() implies #[trigger] rest[i] != x by {
            assert(rest[i] == ts[i]);
        }
        lemma_nodal_unit(rest, x, p);
        let k = sub_mod(x, ts.last(), p);
        lemma_mod_range(x - ts.last(), p);
        lemma_sub_mod_zero(x, ts.last(), p);
        lemma_prime_units(k, p);
        lemma_unit_mul(nodal_value(rest, x, p), k, p);
    }
}

/// Over a field, there is a polynomial with given values at given
/// points, with as many coefficients as there are points.
pub proof fn lemma_interpolation<G: MyGroup>(ts: Seq<int>, vals: Seq<G>) -> (h: Seq<G>)
    requires
        is_prime(G::ScalarField::modulus()),
        distinct(ts),
        all_residues(ts, G::ScalarField::modulus()),
        vals.len() == ts.len(),
        all_wf(vals),
    ensures
        h.len() == ts.len(),
        all_wf(h),
        forall|j: int| 0 <= j < ts.len() ==> horner(h, #[trigger] ts[j]) == vals[j],
    decreases ts.len(),
{
    let p = G::ScalarField::modulus();
    if ts.len() == 0 {
        Seq::empty()
    } else {
        let t = ts.last();
        let rest = ts.drop_last();
        let g = lemma_interpolation(rest, vals.drop_last());
        let n = nodal_value(rest, t, p);
        assert forall|i: int| 0 <= i < rest.len() implies #[trigger] rest[i] != t by {
            assert(rest[i] == ts[i]);
        }
        lemma_nodal_unit(rest, t, p);
        lemma_nodal_range(rest, t, p);
        let i = inv_mod(n, p);
        lemma_inv_mod_is_inverse(n, p);
        lemma_horner_wf(g, t);
        let gt = horner(g, t);
        lemma_neg_wf(gt);
        let delta = vals.last().spec_add(gt.spec_neg());
        lemma_add_wf(vals.last(), gt.spec_neg());
        let w = scale(delta, i);
        lemma_scale_wf(delta, i);
        let h = poly_add(g, nodal_times(rest, w));
        assert forall|j: int| 0 <= j < ts.len() implies horner(h, #[trigger] ts[j]) == vals[j] by {
            let x = ts[j];
            lemma_nodal_times(rest, w, x);
            lemma_horner_add(g, nodal_times(rest, w), x);
            lemma_horner_wf(g, x);
            if j < rest.len() {
                assert(rest[j] == x);
                assert(vals.drop_last()[j] == vals[j]);
                lemma_nodal_zero(rest, j, p);
                lemma_scale_zero(w);
                G::lemma_add_zero(horner(g, x));
            } else {
                // g(t) + (delta / n) * n == g(t) + (v - g(t)) == v
                lemma_scale_mul(delta, i, n);
                lemma_mul_mod_comm(i, n, p);
                lemma_scale_one(delta);
                G::lemma_add_comm(vals.last(), gt.spec_neg());
                G::lemma_add_assoc(gt, gt.spec_neg(), vals.last());
                G::lemma_add_neg(gt);
                lemma_zero_add(vals.last());
            }
        }
        lemma_nodal_times(rest, w, 0);
        lemma_horner_add(g, nodal_times(rest, w), 0);
        h
    }
}

/// The value at the residue `x` of a polynomial over the field.
pub open spec fn field_value<F: PrimeField>(f: Seq<F>, x: int) -> int {
    horner::<F>(f, x).value()
}

/// The product of a polynomial over the group by a polynomial over the
/// field.
pub open spec fn poly_mul<F: PrimeField, G: MyGroup<ScalarField = F>>(
    f: Seq<F>,
    a: Seq<G>,
) -> Seq<G>
    decreases f.len(),
{
    if f.len() == 0 || a.len() == 0 {
        Seq::empty()
    } else {
        poly_add(scaled(a, f[0].value()), poly_shift(poly_mul(f.drop_first(), a)))
    }
}

/// The product has the product of the values for value, and, where it is
/// not empty, one coefficient less than its factors have together.
pub proof fn lemma_poly_mul<F: PrimeField, G: MyGroup<ScalarField = F>>(
    f: Seq<F>,
    a: Seq<G>,
    x: int,
)
    requires
        all_canonical(f),
        all_wf(a),
        0 <= x < F::modulus(),
    ensures
        all_wf(poly_mul(f, a)),
        horner(poly_mul(f, a), x) == scale(horner(a, x), field_value(f, x)),
        f.len() == 0 || a.len() == 0 ==> poly_mul(f, a).len() == 0,
        f.len() > 0 && a.len() > 0 ==> poly_mul(f, a).len() <= f.len() + a.len() - 1,
    decreases f.len(),
{
    let p = F::modulus();
    let ha = horner(a, x);
    lemma_horner_wf(a, x);
    lemma_field_horner_value(f, x);
    if f.len() == 0 {
        lemma_scale_zero(ha);
    } else if a.len() == 0 {
        lemma_zero_scale::<G>(field_value(f, x));
    } else {
        let rest = f.drop_first();
        assert forall|i: int| 0 <= i < rest.len() implies (#[trigger] rest[i]).is_canonical() by {
            assert(rest[i] == f[i + 1]);
        }
        lemma_poly_mul(rest, a, x);
        lemma_field_horner_value(rest, x);
        let k0 = f[0].value();
        let kr = field_value(rest, x);
        F::lemma_value_range(f[0]);
        let prev = poly_mul(rest, a);
        lemma_horner_scaled(a, k0, x);
        lemma_horner_shift(prev, x);
        lemma_horner_add(scaled(a, k0), poly_shift(prev), x);
        // a * k0 + (a * kr) * x == a * (kr * x + k0)
        lemma_scale_mul(ha, kr, x);
        lemma_mod_range(kr * x, p);
        lemma_scale_add(ha, k0, mul_mod(kr, x, p));
        assert(add_mod(k0, mul_mod(kr, x, p), p) == add_mod(
            mul_mod(kr, x, p),
            k0,
            p,
        ));
    }
}

/// The product of a polynomial over the group by the `q`-th power of a
/// polynomial over the field.
pub open spec fn poly_mul_power<F: PrimeField, G: MyGroup<ScalarField = F>>(
    v: Seq<F>,
    q: nat,
    a: Seq<G>,
) -> Seq<G>
    decreases q,
{
    if q == 0 {
        a
    } else {
        poly_mul(v, poly_mul_power(v, (q - 1) as nat, a))
    }
}

/// The product by a power has the product of the value by the power of
/// the value for value; with a polynomial of two coefficients or fewer
/// over the field, it has `q` coefficients more at the most.
pub proof fn lemma_poly_mul_power<F: PrimeField, G: MyGroup<ScalarField = F>>(
    v: Seq<F>,
    q: nat,
    a: Seq<G>,
    x: int,
)
    requires
        all_canonical(v),
        all_wf(a),
        0 <= x < F::modulus(),
    ensures
        all_wf(poly_mul_power(v, q, a)),
        horner(poly_mul_power(v, q, a), x) == scale(
            horner(a, x),
            pow_mod(field_value(v, x), q, F::modulus()),
        ),
        v.len() <= 2 ==> poly_mul_power(v, q, a).len() <= a.len() + q,
    decreases q,
{
    let p = F::modulus();
    F::lemma_modulus();
    lemma_horner_wf(a, x);
    lemma_field_horner_value(v, x);
    if q == 0 {
        lemma_small_mod(1, p as nat);
        lemma_scale_one(horner(a, x));
    } else {
        let prev = poly_mul_power(v, (q - 1) as nat, a);
        lemma_poly_mul_power(v, (q - 1) as nat, a, x);
        lemma_poly_mul(v, prev, x);
        lemma_pow_mod_range(field_value(v, x), (q - 1) as nat, p);
        lemma_scale_mul(
            horner(a, x),
            pow_mod(field_value(v, x), (q - 1) as nat, p),
            field_value(v, x),
        );
    }
}

/// The polynomial `v^q * h(u / v)` for a polynomial `h` of `q + 1`
/// coefficients: `h[0] * v^q + u * (v^(q - 1) * h'(u / v))`, where `h'` is
/// `h` without its constant coefficient.
pub open spec fn poly_compose<F: PrimeField, G: MyGroup<ScalarField = F>>(
    u: Seq<F>,
    v: Seq<F>,
    h: Seq<G>,
) -> Seq<G>
    decreases h.len(),
{
    if h.len() <= 1 {
        h
    } else {
        poly_add(
            poly_mul_power(v, (h.len() - 1) as nat, seq![h[0]]),
            poly_mul(u, poly_compose(u, v, h.drop_first())),
        )
    }
}

/// Where `v` has a unit for value at `x`, `v^q * h(u / v)` has the value
/// that its name says; with `u` of three coefficients or fewer and `v` of
/// two or fewer, it has fewer than twice the coefficients of `h`.
pub proof fn lemma_poly_compose<F: PrimeField, G: MyGroup<ScalarField = F>>(
    u: Seq<F>,
    v: Seq<F>,
    h: Seq<G>,
    x: int,
)
    requires
        all_canonical(u),
        all_canonical(v),
        all_wf(h),
        h.len() >= 1,
        0 <= x < F::modulus(),
        is_unit_mod(field_value(v, x), F::modulus()),
    ensures
        all_wf(poly_compose(u, v, h)),
        horner(poly_compose(u, v, h), x) == scale(
            horner(h, quot_mod(field_value(u, x), field_value(v, x), F::modulus())),
            pow_mod(field_value(v, x), (h.len() - 1) as nat, F::modulus()),
        ),
        u.len() <= 3 && v.len() <= 2 ==> poly_compose(u, v, h).len() <= 2 * h.len() - 1,
    decreases h.len(),
{
    let p = F::modulus();
    F::lemma_modulus();
    let ux = field_value(u, x);
    let vx = field_value(v, x);
    let image = quot_mod(ux, vx, p);
    lemma_field_horner_value(u, x);
    lemma_field_horner_value(v, x);
    lemma_mod_range(ux * inv_mod(vx, p), p);
    lemma_horner_wf(h, image);
    if h.len() == 1 {
        lemma_horner_constant(h, x);
        lemma_horner_constant(h, image);
        lemma_small_mod(1, p as nat);
        lemma_scale_one(h[0]);
    } else {
        let q = (h.len() - 1) as nat;
        let rest = h.drop_first();
        lemma_tail_wf(h);
        lemma_poly_compose(u, v, rest, x);
        let inner = poly_compose(u, v, rest);
        let first = poly_mul_power(v, q, seq![h[0]]);
        lemma_poly_mul_power(v, q, seq![h[0]], x);
        lemma_horner_constant(seq![h[0]], x);
        lemma_poly_mul(u, inner, x);
        lemma_horner_add(first, poly_mul(u, inner), x);
        let vq = pow_mod(vx, q, p);
        let vq1 = pow_mod(vx, (q - 1) as nat, p);
        lemma_pow_mod_range(vx, q, p);
        lemma_pow_mod_range(vx, (q - 1) as nat, p);
        let hr = horner(rest, image);
        lemma_horner_wf(rest, image);
        // the value: h0 * v^q + (hr * v^(q - 1)) * u
        lemma_scale_mul(hr, vq1, ux);
        // the claim: (hr * image + h0) * v^q
        lemma_scale_wf(hr, image);
        lemma_scale_distrib(scale(hr, image), h[0], vq);
        lemma_scale_mul(hr, image, vq);
        // image * v^q == v^(q - 1) * u, since image * v == u
        lemma_quotient_times(ux, vx, p);
        assert(vq == mul_mod(vq1, vx, p));
        lemma_mul_mod_assoc(image, vq1, vx, p);
        lemma_mul_mod_comm(image, vq1, p);
        lemma_mul_mod_assoc(vq1, image, vx, p);
        lemma_mul_mod_comm(image, vq, p);
        lemma_mul_mod_comm(vq1, vx, p);
        lemma_mul_mod_assoc(image, vx, vq1, p);
        lemma_mul_mod_comm(ux, vq1, p);
        assert(mul_mod(image, vq, p) == mul_mod(vq1, ux, p));
        lemma_mod_range(vq1 * ux, p);
        lemma_scale_wf(hr, mul_mod(vq1, ux, p));
        lemma_scale_wf(h[0], vq);
        G::lemma_add_comm(scale(h[0], vq), scale(hr, mul_mod(vq1, ux, p)));
    }
}

/// A quotient times its divisor is the dividend.
pub proof fn lemma_quotient_times(a: int, b: int, p: int)
    requires
        p > 0,
        0 <= a < p,
        is_unit_mod(b, p),
    ensures
        mul_mod(quot_mod(a, b, p), b, p) == a,
{
    let i = inv_mod(b, p);
    lemma_inv_mod_is_inverse(b, p);
    lemma_mul_mod_assoc(a, i, b, p);
    lemma_mul_mod_one(a, p);
}

} // verus!
