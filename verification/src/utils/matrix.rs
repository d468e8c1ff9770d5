//! 2x2 matrices over a prime field, acting on pairs of group elements.

use crate::field::{field_div, PrimeField};
use crate::group_laws::{
    lemma_add_shuffle, lemma_add_wf, lemma_scale_add, lemma_scale_distrib, lemma_scale_mul,
    lemma_scale_one, lemma_scale_wf, lemma_scale_zero, lemma_zero_add,
};
use crate::modular::{
    add_mod, inv_mod, is_prime, is_unit_mod, lemma_inv_mod_is_inverse, lemma_mod_range,
    lemma_mul_mod_comm, lemma_prime_units, lemma_zero_not_unit, mul_mod, neg_mod, quot_mod,
    sub_mod,
};
use crate::my_group::{lemma_scale, scale, MyGroup};
use vstd::arithmetic::div_mod::{
    lemma_add_mod_noop, lemma_mul_mod_noop_general, lemma_small_mod, lemma_sub_mod_noop,
};
use vstd::prelude::*;

verus! {

/// A 2x2 matrix of residues `[[a, b], [c, d]]`: the model of a [`Matrix`].
pub struct Mat2 {
    pub a: int,
    pub b: int,
    pub c: int,
    pub d: int,
}

/// 2x2 matrix, in row-major order.
#[derive(Clone, Copy)]
pub struct Matrix<T>(pub [[T; 2]; 2]);

/// The determinant `a * d - b * c` in `Z/p`.
pub open spec fn mat_det(m: Mat2, p: int) -> int {
    sub_mod(mul_mod(m.a, m.d, p), mul_mod(m.b, m.c, p), p)
}

/// The inverse `(1 / det) * [[d, -b], [-c, a]]` in `Z/p`, where the
/// determinant is a unit.
pub open spec fn mat_inverse(m: Mat2, p: int) -> Mat2 {
    let det = mat_det(m, p);
    Mat2 {
        a: quot_mod(m.d, det, p),
        b: quot_mod(neg_mod(m.b, p), det, p),
        c: quot_mod(neg_mod(m.c, p), det, p),
        d: quot_mod(m.a, det, p),
    }
}

/// The product of the matrix by the column `(x, y)`:
/// `(a * x + b * y, c * x + d * y)`.
pub open spec fn mat_apply<G: MyGroup>(m: Mat2, x: G, y: G) -> (G, G) {
    (scale(x, m.a).spec_add(scale(y, m.b)), scale(x, m.c).spec_add(scale(y, m.d)))
}

/// The entries are residues of `Z/p`.
pub open spec fn mat_wf(m: Mat2, p: int) -> bool {
    &&& 0 <= m.a < p
    &&& 0 <= m.b < p
    &&& 0 <= m.c < p
    &&& 0 <= m.d < p
}

/// The identity matrix.
pub open spec fn mat_identity() -> Mat2 {
    Mat2 { a: 1, b: 0, c: 0, d: 1 }
}

/// The matrix product `n * m` in `Z/p`.
pub open spec fn mat_mul(n: Mat2, m: Mat2, p: int) -> Mat2 {
    Mat2 {
        a: add_mod(mul_mod(n.a, m.a, p), mul_mod(n.b, m.c, p), p),
        b: add_mod(mul_mod(n.a, m.b, p), mul_mod(n.b, m.d, p), p),
        c: add_mod(mul_mod(n.c, m.a, p), mul_mod(n.d, m.c, p), p),
        d: add_mod(mul_mod(n.c, m.b, p), mul_mod(n.d, m.d, p), p),
    }
}

/// `(x * a + y * b) * k == x * (a * k) + y * (b * k)`.
proof fn lemma_scale_combination<G: MyGroup>(x: G, y: G, a: int, b: int, k: int)
    requires
        x.wf(),
        y.wf(),
        0 <= a < G::ScalarField::modulus(),
        0 <= b < G::ScalarField::modulus(),
        0 <= k < G::ScalarField::modulus(),
    ensures
        scale(scale(x, a).spec_add(scale(y, b)), k) == scale(
            x,
            mul_mod(a, k, G::ScalarField::modulus()),
        ).spec_add(scale(y, mul_mod(b, k, G::ScalarField::modulus()))),
{
    lemma_scale_wf(x, a);
    lemma_scale_wf(y, b);
    lemma_scale_distrib(scale(x, a), scale(y, b), k);
    lemma_scale_mul(x, a, k);
    lemma_scale_mul(y, b, k);
}

/// The product of a matrix of residues by a pair of group elements is a
/// pair of group elements.
pub proof fn lemma_apply_wf<G: MyGroup>(m: Mat2, x: G, y: G)
    requires
        mat_wf(m, G::ScalarField::modulus()),
        x.wf(),
        y.wf(),
    ensures
        mat_apply(m, x, y).0.wf(),
        mat_apply(m, x, y).1.wf(),
{
    lemma_scale_wf(x, m.a);
    lemma_scale_wf(y, m.b);
    lemma_scale_wf(x, m.c);
    lemma_scale_wf(y, m.d);
    lemma_add_wf(scale(x, m.a), scale(y, m.b));
    lemma_add_wf(scale(x, m.c), scale(y, m.d));
}

/// One coordinate of applying `n` after `m`.
proof fn lemma_apply_compose_row<G: MyGroup>(m: Mat2, na: int, nb: int, x: G, y: G)
    requires
        mat_wf(m, G::ScalarField::modulus()),
        0 <= na < G::ScalarField::modulus(),
        0 <= nb < G::ScalarField::modulus(),
        x.wf(),
        y.wf(),
    ensures
        scale(mat_apply(m, x, y).0, na).spec_add(scale(mat_apply(m, x, y).1, nb)) == scale(
            x,
            add_mod(
                mul_mod(na, m.a, G::ScalarField::modulus()),
                mul_mod(nb, m.c, G::ScalarField::modulus()),
                G::ScalarField::modulus(),
            ),
        ).spec_add(
            scale(
                y,
                add_mod(
                    mul_mod(na, m.b, G::ScalarField::modulus()),
                    mul_mod(nb, m.d, G::ScalarField::modulus()),
                    G::ScalarField::modulus(),
                ),
            ),
        ),
{
    let p = G::ScalarField::modulus();
    lemma_scale_combination(x, y, m.a, m.b, na);
    lemma_scale_combination(x, y, m.c, m.d, nb);
    let xa = mul_mod(m.a, na, p);
    let yb = mul_mod(m.b, na, p);
    let xc = mul_mod(m.c, nb, p);
    let yd = mul_mod(m.d, nb, p);
    lemma_mod_range(m.a * na, p);
    lemma_mod_range(m.b * na, p);
    lemma_mod_range(m.c * nb, p);
    lemma_mod_range(m.d * nb, p);
    lemma_scale_wf(x, xa);
    lemma_scale_wf(y, yb);
    lemma_scale_wf(x, xc);
    lemma_scale_wf(y, yd);
    lemma_add_shuffle(scale(x, xa), scale(y, yb), scale(x, xc), scale(y, yd));
    lemma_scale_add(x, xa, xc);
    lemma_scale_add(y, yb, yd);
    lemma_mul_mod_comm(m.a, na, p);
    lemma_mul_mod_comm(m.b, na, p);
    lemma_mul_mod_comm(m.c, nb, p);
    lemma_mul_mod_comm(m.d, nb, p);
}

/// Applying `m` and then `n` is applying the product `n * m`.
pub proof fn lemma_apply_compose<G: MyGroup>(n: Mat2, m: Mat2, x: G, y: G)
    requires
        mat_wf(n, G::ScalarField::modulus()),
        mat_wf(m, G::ScalarField::modulus()),
        x.wf(),
        y.wf(),
    ensures
        mat_apply(n, mat_apply(m, x, y).0, mat_apply(m, x, y).1) == mat_apply(
            mat_mul(n, m, G::ScalarField::modulus()),
            x,
            y,
        ),
{
    lemma_apply_compose_row(m, n.a, n.b, x, y);
    lemma_apply_compose_row(m, n.c, n.d, x, y);
}

/// The identity matrix leaves every pair unchanged.
pub proof fn lemma_apply_identity<G: MyGroup>(x: G, y: G)
    requires
        x.wf(),
        y.wf(),
    ensures
        mat_apply(mat_identity(), x, y) == (x, y),
{
    lemma_scale_one(x);
    lemma_scale_one(y);
    lemma_scale_zero(x);
    lemma_scale_zero(y);
    G::lemma_add_zero(x);
    lemma_zero_add(y);
}

/// `(u * i) * x + (w * i) * y == i * (u * x + w * y)` in `Z/p`.
proof fn lemma_scaled_dot(i: int, u: int, x: int, w: int, y: int, p: int)
    requires
        p > 0,
    ensures
        add_mod(mul_mod(mul_mod(u, i, p), x, p), mul_mod(mul_mod(w, i, p), y, p), p) == mul_mod(
            i,
            (u * x + w * y) % p,
            p,
        ),
        add_mod(mul_mod(x, mul_mod(u, i, p), p), mul_mod(y, mul_mod(w, i, p), p), p) == mul_mod(
            i,
            (u * x + w * y) % p,
            p,
        ),
{
    lemma_mul_mod_noop_general(u * i, x, p);
    lemma_mul_mod_noop_general(w * i, y, p);
    lemma_add_mod_noop((u * i) * x, (w * i) * y, p);
    assert((u * i) * x + (w * i) * y == i * (u * x + w * y)) by (nonlinear_arith);
    lemma_mul_mod_noop_general(i, u * x + w * y, p);
    lemma_mul_mod_comm(x, mul_mod(u, i, p), p);
    lemma_mul_mod_comm(y, mul_mod(w, i, p), p);
}

/// `u * x + (-w) * y == u * x - w * y` in `Z/p`, for either operand negated.
proof fn lemma_dot_neg(u: int, x: int, w: int, y: int, p: int)
    requires
        p > 0,
    ensures
        (u * x + neg_mod(w, p) * y) % p == (u * x - w * y) % p,
        (neg_mod(w, p) * y + u * x) % p == (u * x - w * y) % p,
{
    lemma_mul_mod_noop_general(-w, y, p);
    lemma_add_mod_noop(u * x, neg_mod(w, p) * y, p);
    lemma_add_mod_noop(u * x, (-w) * y, p);
    assert(u * x + (-w) * y == u * x - w * y) by (nonlinear_arith);
    assert(neg_mod(w, p) * y + u * x == u * x + neg_mod(w, p) * y);
}

/// The inverse of a matrix whose determinant is a unit is its inverse on
/// both sides.
pub proof fn lemma_mat_inverse(m: Mat2, p: int)
    requires
        p >= 2,
        mat_wf(m, p),
        is_unit_mod(mat_det(m, p), p),
    ensures
        mat_wf(mat_inverse(m, p), p),
        mat_mul(mat_inverse(m, p), m, p) == mat_identity(),
        mat_mul(m, mat_inverse(m, p), p) == mat_identity(),
{
    let det = mat_det(m, p);
    let i = inv_mod(det, p);
    let nb = neg_mod(m.b, p);
    let nc = neg_mod(m.c, p);
    lemma_inv_mod_is_inverse(det, p);
    lemma_mod_range(m.d * i, p);
    lemma_mod_range(nb * i, p);
    lemma_mod_range(nc * i, p);
    lemma_mod_range(m.a * i, p);
    // the determinant is the residue of a * d - b * c
    lemma_sub_mod_noop(m.a * m.d, m.b * m.c, p);
    assert(det == (m.a * m.d - m.b * m.c) % p);
    lemma_small_mod(0, p as nat);
    assert(i * 0 == 0);
    lemma_mul_mod_comm(i, det, p);
    assert(mul_mod(i, det, p) == 1);
    assert(mul_mod(i, 0, p) == 0);

    // inverse * m
    lemma_scaled_dot(i, m.d, m.a, nb, m.c, p);
    lemma_dot_neg(m.d, m.a, m.b, m.c, p);
    assert(m.d * m.a - m.b * m.c == m.a * m.d - m.b * m.c) by (nonlinear_arith);
    lemma_scaled_dot(i, m.d, m.b, nb, m.d, p);
    lemma_dot_neg(m.d, m.b, m.b, m.d, p);
    assert(m.d * m.b - m.b * m.d == 0) by (nonlinear_arith);
    lemma_scaled_dot(i, nc, m.a, m.a, m.c, p);
    lemma_dot_neg(m.a, m.c, m.c, m.a, p);
    assert(m.a * m.c - m.c * m.a == 0) by (nonlinear_arith);
    lemma_scaled_dot(i, nc, m.b, m.a, m.d, p);
    lemma_dot_neg(m.a, m.d, m.c, m.b, p);
    assert(m.a * m.d - m.c * m.b == m.a * m.d - m.b * m.c) by (nonlinear_arith);

    // m * inverse
    lemma_scaled_dot(i, m.d, m.a, nc, m.b, p);
    lemma_dot_neg(m.d, m.a, m.c, m.b, p);
    assert(m.d * m.a - m.c * m.b == m.a * m.d - m.b * m.c) by (nonlinear_arith);
    lemma_scaled_dot(i, nb, m.a, m.a, m.b, p);
    lemma_dot_neg(m.a, m.b, m.b, m.a, p);
    assert(m.a * m.b - m.b * m.a == 0) by (nonlinear_arith);
    lemma_scaled_dot(i, m.d, m.c, nc, m.d, p);
    lemma_dot_neg(m.d, m.c, m.c, m.d, p);
    assert(m.d * m.c - m.c * m.d == 0) by (nonlinear_arith);
    lemma_scaled_dot(i, nb, m.c, m.a, m.d, p);
    lemma_dot_neg(m.a, m.d, m.b, m.c, p);
}

/// Multiplying a pair by a matrix and by its inverse, in either order,
/// gives the pair back.
pub proof fn lemma_inverse_round_trip<G: MyGroup>(m: Mat2, x: G, y: G)
    requires
        mat_wf(m, G::ScalarField::modulus()),
        is_unit_mod(mat_det(m, G::ScalarField::modulus()), G::ScalarField::modulus()),
        x.wf(),
        y.wf(),
    ensures
        ({
            let inv = mat_inverse(m, G::ScalarField::modulus());
            let w = mat_apply(inv, x, y);
            mat_apply(m, w.0, w.1) == (x, y)
        }),
        ({
            let inv = mat_inverse(m, G::ScalarField::modulus());
            let w = mat_apply(m, x, y);
            mat_apply(inv, w.0, w.1) == (x, y)
        }),
{
    let p = G::ScalarField::modulus();
    G::ScalarField::lemma_modulus();
    let inv = mat_inverse(m, p);
    lemma_mat_inverse(m, p);
    lemma_apply_compose(m, inv, x, y);
    lemma_apply_compose(inv, m, x, y);
    lemma_apply_identity(x, y);
}

/// Over a field, multiplying a pair by a matrix of nonzero determinant
/// and by its inverse, in either order, gives the pair back.
pub proof fn lemma_inverse_round_trip_in_field<G: MyGroup>(m: Mat2, x: G, y: G)
    requires
        is_prime(G::ScalarField::modulus()),
        mat_wf(m, G::ScalarField::modulus()),
        mat_det(m, G::ScalarField::modulus()) != 0,
        x.wf(),
        y.wf(),
    ensures
        ({
            let inv = mat_inverse(m, G::ScalarField::modulus());
            let w = mat_apply(inv, x, y);
            mat_apply(m, w.0, w.1) == (x, y)
        }),
        ({
            let inv = mat_inverse(m, G::ScalarField::modulus());
            let w = mat_apply(m, x, y);
            mat_apply(inv, w.0, w.1) == (x, y)
        }),
{
    let p = G::ScalarField::modulus();
    lemma_mod_range(mul_mod(m.a, m.d, p) - mul_mod(m.b, m.c, p), p);
    lemma_prime_units(mat_det(m, p), p);
    lemma_inverse_round_trip(m, x, y);
}

impl<F: PrimeField> View for Matrix<F> {
    type V = Mat2;

    open spec fn view(&self) -> Mat2 {
        Mat2 {
            a: self.0[0][0].value(),
            b: self.0[0][1].value(),
            c: self.0[1][0].value(),
            d: self.0[1][1].value(),
        }
    }
}

impl<F: PrimeField> Matrix<F> {
    /// All four entries are field elements.
    pub open spec fn wf(&self) -> bool {
        &&& self.0[0][0].is_canonical()
        &&& self.0[0][1].is_canonical()
        &&& self.0[1][0].is_canonical()
        &&& self.0[1][1].is_canonical()
    }

    /// Inverse of the matrix, which must have a nonzero determinant.
    pub fn inverse(&self) -> (r: Self)
        requires
            self.wf(),
            mat_det(self@, F::modulus()) != 0,
        ensures
            r.wf(),
            r@ == mat_inverse(self@, F::modulus()),
            is_unit_mod(mat_det(self@, F::modulus()), F::modulus()),
    {
        let a = self.0[0][0];
        let b = self.0[0][1];
        let c = self.0[1][0];
        let d = self.0[1][1];
        let det = a.field_mul(&d).field_sub(&b.field_mul(&c));
        Matrix(
            [
                [field_div(&d, &det), field_div(&b.field_neg(), &det)],
                [field_div(&c.field_neg(), &det), field_div(&a, &det)],
            ],
        )
    }

    /// Inverse of the matrix, or nothing where its determinant is zero;
    /// a determinant that is not zero has an inverse.
    pub fn try_inverse(&self) -> (r: Option<Self>)
        requires
            self.wf(),
        ensures
            r.is_some() == (mat_det(self@, F::modulus()) != 0),
            r.is_some() == is_unit_mod(mat_det(self@, F::modulus()), F::modulus()),
            r.is_some() ==> r.unwrap().wf() && r.unwrap()@ == mat_inverse(self@, F::modulus()),
    {
        proof {
            F::lemma_modulus();
            lemma_zero_not_unit(F::modulus());
        }
        let a = self.0[0][0];
        let b = self.0[0][1];
        let c = self.0[1][0];
        let d = self.0[1][1];
        let det = a.field_mul(&d).field_sub(&b.field_mul(&c));
        if det.field_is_zero() {
            None
        } else {
            Some(self.inverse())
        }
    }

    /// Multiply a vector of 2 group elements by the matrix.
    pub fn multiply<G: MyGroup<ScalarField = F>>(&self, v: [G; 2]) -> (r: [G; 2])
        requires
            self.wf(),
            v[0].wf(),
            v[1].wf(),
        ensures
            r[0].wf(),
            r[1].wf(),
            (r[0], r[1]) == mat_apply(self@, v[0], v[1]),
    {
        let x = v[0];
        let y = v[1];
        proof {
            lemma_scale(x, self.0[0][0]);
            lemma_scale(y, self.0[0][1]);
            lemma_scale(x, self.0[1][0]);
            lemma_scale(y, self.0[1][1]);
        }
        [
            x.mul(&self.0[0][0]).add(&y.mul(&self.0[0][1])),
            x.mul(&self.0[1][0]).add(&y.mul(&self.0[1][1])),
        ]
    }

    /// Multiply the vector `(x, y)` of 2 group elements by the matrix, in
    /// place.
    pub fn multiply_in_place<G: MyGroup<ScalarField = F>>(&self, x: &mut G, y: &mut G)
        requires
            self.wf(),
            old(x).wf(),
            old(y).wf(),
        ensures
            final(x).wf(),
            final(y).wf(),
            (*final(x), *final(y)) == mat_apply(self@, *old(x), *old(y)),
    {
        proof {
            lemma_scale(*x, self.0[0][0]);
            lemma_scale(*y, self.0[0][1]);
            lemma_scale(*x, self.0[1][0]);
            lemma_scale(*y, self.0[1][1]);
        }
        let a = x.mul(&self.0[0][0]).add(&y.mul(&self.0[0][1]));
        let b = x.mul(&self.0[1][0]).add(&y.mul(&self.0[1][1]));
        *x = a;
        *y = b;
    }
}

} // verus!
