//! Products of a row vector of group elements by a Vandermonde matrix.

use crate::field::{int_residue, values, PrimeField};
use crate::group_laws::{
    all_canonical, all_wf, lemma_neg_wf, lemma_scale_mul, lemma_scale_neg, lemma_scale_one,
    lemma_scale_wf, lemma_scale_zero, lemma_sum_from, lemma_sum_wf, lemma_zero_add, sum,
};
use crate::group_polynomial::{smallest_range, smallest_range_at};
use crate::modular::{
    lemma_mod_absorb, lemma_mod_range, lemma_pow_mod_neg_base, lemma_pow_mod_range,
    lemma_pow_mod_zero_base, mul_mod, neg_mod, pow_mod,
};
use crate::my_group::{lemma_scale, scale, MyGroup};
use vstd::arithmetic::div_mod::lemma_small_mod;
use vstd::prelude::*;
use vstd::slice::slice_to_vec;

verus! {

/// Represent an "extended" Vandermonde matrix
/// `M[i][j] = points[i] ^ j`, where `0 <= j < nb_cols`.
pub struct VandermondeMatrix<F> {
    pub points: Vec<F>,
    pub nb_cols: usize,
}

/// The terms `v[i] * points[i]^j` of entry `j` of the product.
pub open spec fn vandermonde_terms<G: MyGroup>(v: Seq<G>, points: Seq<int>, j: nat) -> Seq<G> {
    Seq::new(v.len(), |i: int| scale(v[i], pow_mod(points[i], j, G::ScalarField::modulus())))
}

/// Entry `j` of the product: the sum over `i` of `v[i] * points[i]^j`.
pub open spec fn vandermonde_entry<G: MyGroup>(v: Seq<G>, points: Seq<int>, j: nat) -> G {
    sum(vandermonde_terms(v, points, j))
}

/// The product of the row vector `v` by the Vandermonde matrix of `points`
/// with `nb_cols` columns.
pub open spec fn vandermonde_product<G: MyGroup>(v: Seq<G>, points: Seq<int>, nb_cols: nat) -> Seq<
    G,
> {
    Seq::new(nb_cols, |j: int| vandermonde_entry(v, points, j as nat))
}

/// The step whose values the working column holds when column `j` is
/// started: the step before, or the first.
spec fn last_step(j: int) -> nat {
    if j <= 0 {
        0
    } else {
        (j - 1) as nat
    }
}

/// The `n` integers closest to zero, as residues of the field `F`.
pub open spec fn small_points<F: PrimeField>(n: int) -> Seq<int> {
    Seq::new(n as nat, |i: int| int_residue::<F>(smallest_range_at(n, i)))
}

proof fn lemma_terms_wf<G: MyGroup>(v: Seq<G>, points: Seq<int>, j: nat)
    requires
        all_wf(v),
        points.len() == v.len(),
    ensures
        all_wf(vandermonde_terms(v, points, j)),
{
    let p = G::ScalarField::modulus();
    G::ScalarField::lemma_modulus();
    assert forall|i: int| 0 <= i < v.len() implies (#[trigger] vandermonde_terms(
        v,
        points,
        j,
    )[i]).wf() by {
        lemma_pow_mod_range(points[i], j, p);
        lemma_scale_wf(v[i], pow_mod(points[i], j, p));
    }
}

/// With exponent zero every term is the entry of `v` itself.
proof fn lemma_terms_first_column<G: MyGroup>(v: Seq<G>, points: Seq<int>)
    requires
        all_wf(v),
        points.len() == v.len(),
    ensures
        vandermonde_terms(v, points, 0) == v,
{
    let p = G::ScalarField::modulus();
    G::ScalarField::lemma_modulus();
    lemma_small_mod(1, p as nat);
    assert forall|i: int| 0 <= i < v.len() implies #[trigger] vandermonde_terms(v, points, 0)[i]
        == v[i] by {
        lemma_scale_one(v[i]);
    }
    assert(vandermonde_terms(v, points, 0) =~= v);
}

/// Adds up the elements of `col`, from the first to the last.
fn sum_column<G: MyGroup>(col: &Vec<G>) -> (r: G)
    requires
        all_wf(col@),
    ensures
        r.wf(),
        r == sum(col@),
{
    if col.len() == 0 {
        proof {
            G::lemma_zero_wf();
        }
        return G::zero();
    }
    let mut acc = col[0];
    proof {
        let first = col@.take(1);
        assert(first.drop_last() =~= Seq::<G>::empty());
        assert(first.last() == col@[0]);
        assert(sum(first) == sum(first.drop_last()).spec_add(first.last()));
        assert(sum(first.drop_last()) == G::spec_zero());
        lemma_zero_add(col@[0]);
    }
    let mut i: usize = 1;
    while i < col.len()
        invariant
            1 <= i <= col.len(),
            all_wf(col@),
            acc.wf(),
            acc == sum(col@.take(i as int)),
        decreases col.len() - i,
    {
        proof {
            assert(col@.take(i + 1).drop_last() =~= col@.take(i as int));
        }
        acc = acc.add(&col[i]);
        i = i + 1;
    }
    proof {
        assert(col@.take(col.len() as int) =~= col@);
    }
    acc
}

impl<F: PrimeField> VandermondeMatrix<F> {
    /// Multiply a Vandermonde matrix by a vector on the left.
    /// Result is `vector * self`, where `vector` is seen as a row vector:
    /// entry `j` of the result is the sum over `i` of
    /// `vector[i] * points[i]^j`.
    pub fn left_multiply<G: MyGroup<ScalarField = F>>(&self, vector: &[G]) -> (res: Vec<G>)
        requires
            self.points.len() == vector.len(),
            all_canonical(self.points@),
            all_wf(vector@),
        ensures
            all_wf(res@),
            res@ == vandermonde_product(vector@, values(self.points@), self.nb_cols as nat),
    {
        let nb_rows = self.points.len();
        let ghost v = vector@;
        let ghost pts = values(self.points@);
        let ghost p = F::modulus();

        // at step j,
        //   col[i] = vector[i] * points[i]^j
        let mut col = slice_to_vec(vector);
        // res is the multiplication result vector
        //   so res[j] is the sum of all col[i] at step j
        let mut res: Vec<G> = Vec::with_capacity(self.nb_cols);

        proof {
            lemma_terms_first_column(v, pts);
        }

        let mut j: usize = 0;
        while j < self.nb_cols
            invariant
                j <= self.nb_cols,
                nb_rows == self.points.len(),
                nb_rows == v.len(),
                v == vector@,
                pts == values(self.points@),
                p == F::modulus(),
                all_canonical(self.points@),
                all_wf(v),
                col@ == vandermonde_terms(v, pts, last_step(j as int)),
                res@ == vandermonde_product(v, pts, j as nat),
                all_wf(res@),
            decreases self.nb_cols - j,
        {
            if j > 0 {
                // Update col to hold the terms of column j
                let mut i: usize = 0;
                while i < nb_rows
                    invariant
                        0 < j,
                        i <= nb_rows,
                        nb_rows == self.points.len(),
                        nb_rows == v.len(),
                        col@.len() == nb_rows,
                        pts == values(self.points@),
                        p == F::modulus(),
                        all_canonical(self.points@),
                        all_wf(v),
                        forall|k: int|
                            0 <= k < i ==> col@[k] == #[trigger] vandermonde_terms(
                                v,
                                pts,
                                j as nat,
                            )[k],
                        forall|k: int|
                            i <= k < nb_rows ==> col@[k] == #[trigger] vandermonde_terms(
                                v,
                                pts,
                                (j - 1) as nat,
                            )[k],
                    decreases nb_rows - i,
                {
                    proof {
                        let x = pts[i as int];
                        let e = pow_mod(x, (j - 1) as nat, p);
                        F::lemma_modulus();
                        F::lemma_value_range(self.points@[i as int]);
                        lemma_pow_mod_range(x, (j - 1) as nat, p);
                        assert(col@[i as int] == vandermonde_terms(v, pts, (j - 1) as nat)[i as int]);
                        lemma_scale_wf(v[i as int], e);
                        lemma_scale(col@[i as int], self.points@[i as int]);
                        lemma_scale_mul(v[i as int], e, x);
                    }
                    let c = col[i].mul(&self.points[i]);
                    col.set(i, c);
                    i = i + 1;
                }
                proof {
                    assert(col@ =~= vandermonde_terms(v, pts, j as nat));
                }
            }
            proof {
                lemma_terms_wf(v, pts, j as nat);
            }

            // Compute res
            let entry = sum_column(&col);
            res.push(entry);
            proof {
                assert(res@ =~= vandermonde_product(v, pts, (j + 1) as nat));
            }
            j = j + 1;
        }

        res
    }
}

/// The absolute value of the `i`-th of the `n` integers closest to zero.
spec fn small_abs(n: int, i: int) -> int {
    if smallest_range_at(n, i) < 0 {
        -smallest_range_at(n, i)
    } else {
        smallest_range_at(n, i)
    }
}

/// What row `i` holds at step `j` of the small-domain product: the entry
/// scaled by the `j`-th power of the absolute value of its point, but for
/// the row of the point zero, which keeps its entry.
spec fn abs_term<G: MyGroup>(v: Seq<G>, i: int, j: nat) -> G {
    let n = v.len() as int;
    if smallest_range_at(n, i) == 0 {
        v[i]
    } else {
        scale(
            v[i],
            pow_mod(int_residue::<G::ScalarField>(small_abs(n, i)), j, G::ScalarField::modulus()),
        )
    }
}

/// What row `i` adds to entry `j`: the row's value, negated for a negative
/// point and odd `j`, and nothing for the point zero once `j > 0`.
spec fn signed_term<G: MyGroup>(v: Seq<G>, i: int, j: nat) -> G {
    let n = v.len() as int;
    let x = smallest_range_at(n, i);
    if x < 0 && j % 2 == 1 {
        abs_term(v, i, j).spec_neg()
    } else if x == 0 && j > 0 {
        G::spec_zero()
    } else {
        abs_term(v, i, j)
    }
}

/// The signed term of a row is the term of the Vandermonde product on the
/// points closest to zero.
proof fn lemma_signed_term<G: MyGroup>(v: Seq<G>, i: int, j: nat)
    requires
        all_wf(v),
        0 <= i < v.len(),
    ensures
        signed_term(v, i, j) == vandermonde_terms(
            v,
            small_points::<G::ScalarField>(v.len() as int),
            j,
        )[i],
        abs_term(v, i, j).wf(),
        signed_term(v, i, j).wf(),
{
    let n = v.len() as int;
    let p = G::ScalarField::modulus();
    G::ScalarField::lemma_modulus();
    let x = smallest_range_at(n, i);
    let a = small_abs(n, i);
    let ar = int_residue::<G::ScalarField>(a);
    let xr = int_residue::<G::ScalarField>(x);
    lemma_mod_range(a, p);
    lemma_mod_range(x, p);
    lemma_pow_mod_range(ar, j, p);
    lemma_pow_mod_range(xr, j, p);
    lemma_scale_wf(v[i], pow_mod(ar, j, p));
    lemma_scale_wf(v[i], pow_mod(xr, j, p));
    assert(small_points::<G::ScalarField>(n)[i] == xr);
    if x == 0 {
        lemma_small_mod(0, p as nat);
        if j == 0 {
            lemma_small_mod(1, p as nat);
            lemma_scale_one(v[i]);
        } else {
            lemma_pow_mod_zero_base(j, p);
            lemma_scale_zero(v[i]);
            G::lemma_zero_wf();
        }
    } else if x > 0 {
    } else {
        // x == -a, so x^j is a^j for even j and -(a^j) for odd j
        lemma_mod_absorb(a, 0, p);
        assert(xr == neg_mod(ar, p));
        lemma_pow_mod_neg_base(ar, j, p);
        if j % 2 == 1 {
            lemma_scale_neg(v[i], pow_mod(ar, j, p));
            lemma_neg_wf(scale(v[i], pow_mod(ar, j, p)));
        }
    }
}

/// The small-domain product of the empty vector: `nb_cols` times the
/// empty sum.
fn zero_entries<F, G>(vector: &[G], nb_cols: usize) -> (res: Vec<G>) where
    F: PrimeField,
    G: MyGroup<ScalarField = F>,

    requires
        vector@.len() == 0,
    ensures
        all_wf(res@),
        res@ == vandermonde_product(vector@, small_points::<F>(0), nb_cols as nat),
{
    let ghost v = vector@;
    let ghost pts = small_points::<F>(0);
    let mut res: Vec<G> = Vec::with_capacity(nb_cols);
    let mut j: usize = 0;
    while j < nb_cols
        invariant
            j <= nb_cols,
            v == vector@,
            v.len() == 0,
            pts == small_points::<F>(0),
            res@ == vandermonde_product(v, pts, j as nat),
            all_wf(res@),
        decreases nb_cols - j,
    {
        proof {
            G::lemma_zero_wf();
            assert(vandermonde_terms(v, pts, j as nat).len() == 0);
        }
        res.push(G::zero());
        proof {
            assert(res@ =~= vandermonde_product(v, pts, (j + 1) as nat));
        }
        j = j + 1;
    }
    res
}

/// Same as [`VandermondeMatrix::left_multiply`], where the points are
///   `-floor((n-1)/2), ..., floor(n/2)`
/// with `n` the length of `vector`.
/// For example, for `n = 5`, the points are `-2, -1, 0, 1, 2`,
/// and for `n = 4` they are `-1, 0, 1, 2`.
/// Multiplies by the absolute values of the points only, and negates where
/// the sign asks for it. For the empty vector, which has no point, every
/// entry of the result is the empty sum, zero.
pub fn small_vandermonde_left_multiply<F, G>(vector: &[G], nb_cols: usize) -> (res: Vec<G>) where
    F: PrimeField,
    G: MyGroup<ScalarField = F>,

    requires
        vector.len() <= i32::MAX,
        all_wf(vector@),
    ensures
        all_wf(res@),
        res@ == vandermonde_product(vector@, small_points::<F>(vector.len() as int), nb_cols as nat),
{
    let nb_rows = vector.len();
    let ghost v = vector@;
    let ghost n = nb_rows as int;
    let ghost p = F::modulus();
    let ghost pts = small_points::<F>(n);
    if nb_rows == 0 {
        return zero_entries(vector, nb_cols);
    }
    let zero_i = (nb_rows - 1) / 2;  // the index of the point equal to 0
    // points[i] = i - zero_i
    // abs_points[i] = |points[i]| = |i - zero_i|, the absolute value
    let range = smallest_range(nb_rows as i32);
    let mut abs_points: Vec<F> = Vec::with_capacity(nb_rows);
    let mut i: usize = 0;
    while i < nb_rows
        invariant
            i <= nb_rows,
            nb_rows == n,
            0 < n <= i32::MAX,
            range@.len() == n,
            forall|k: int| 0 <= k < n ==> range@[k] as int == smallest_range_at(n, k),
            abs_points@.len() == i,
            all_canonical(abs_points@),
            forall|k: int|
                0 <= k < i ==> (#[trigger] abs_points@[k]).value() == int_residue::<F>(
                    small_abs(n, k),
                ),
        decreases nb_rows - i,
    {
        let x: i32 = range[i];
        assert(x as int == smallest_range_at(n, i as int));
        let a: i32 = if x < 0 {
            -x
        } else {
            x
        };
        assert(a as int == small_abs(n, i as int));
        abs_points.push(F::from_u128(a as u128));
        i = i + 1;
    }

    // at step j,
    //   abs_col[i] = vector[i] * abs_points[i]^j
    //   except for abs_col[zero_i] which stays vector[zero_i]
    let mut abs_col = slice_to_vec(vector);
    // res is the multiplication result vector
    //   so res[j] is the sum of all +-abs_col[i] at step j
    //      (except the sum skips i = zero_i when j > 0),
    //   where +- depends on i and j
    let mut res: Vec<G> = Vec::with_capacity(nb_cols);

    proof {
        F::lemma_modulus();
        lemma_small_mod(1, p as nat);
        assert forall|k: int| 0 <= k < n implies abs_col@[k] == #[trigger] abs_term(v, k, 0) by {
            lemma_scale_one(v[k]);
        }
    }

    let mut j: usize = 0;
    while j < nb_cols
        invariant
            j <= nb_cols,
            nb_rows == n,
            0 < n <= i32::MAX,
            zero_i == (n - 1) / 2,
            v == vector@,
            v.len() == n,
            p == F::modulus(),
            pts == small_points::<F>(n),
            all_wf(v),
            abs_points@.len() == n,
            all_canonical(abs_points@),
            forall|k: int|
                0 <= k < n ==> (#[trigger] abs_points@[k]).value() == int_residue::<F>(
                    small_abs(n, k),
                ),
            abs_col@.len() == n,
            forall|k: int| 0 <= k < n ==> abs_col@[k] == #[trigger] abs_term(v, k, last_step(j as int)),
            res@ == vandermonde_product(v, pts, j as nat),
            all_wf(res@),
        decreases nb_cols - j,
    {
        if j > 0 {
            // Update abs_col to hold the values of step j
            assert(last_step(j as int) == (j - 1) as nat);
            let mut i: usize = 0;
            while i < nb_rows
                invariant
                    0 < j,
                    i <= nb_rows,
                    nb_rows == n,
                    zero_i == (n - 1) / 2,
                    v.len() == n,
                    p == F::modulus(),
                    all_wf(v),
                    abs_points@.len() == n,
                    all_canonical(abs_points@),
                    forall|k: int|
                        0 <= k < n ==> (#[trigger] abs_points@[k]).value() == int_residue::<F>(
                            small_abs(n, k),
                        ),
                    abs_col@.len() == n,
                    forall|k: int| 0 <= k < i ==> abs_col@[k] == #[trigger] abs_term(v, k, j as nat),
                    forall|k: int|
                        i <= k < n ==> abs_col@[k] == #[trigger] abs_term(v, k, (j - 1) as nat),
                decreases nb_rows - i,
            {
                assert(abs_col@[i as int] == abs_term(v, i as int, (j - 1) as nat));
                if i != zero_i {
                    proof {
                        let a = abs_points@[i as int].value();
                        let e = pow_mod(a, (j - 1) as nat, p);
                        F::lemma_modulus();
                        F::lemma_value_range(abs_points@[i as int]);
                        lemma_pow_mod_range(a, (j - 1) as nat, p);
                        assert(smallest_range_at(n, i as int) != 0);
                        assert(a == int_residue::<F>(small_abs(n, i as int)));
                        assert(abs_col@[i as int] == scale(v[i as int], e));
                        lemma_scale_wf(v[i as int], e);
                        lemma_scale(abs_col@[i as int], abs_points@[i as int]);
                        lemma_scale_mul(v[i as int], e, a);
                        assert(pow_mod(a, j as nat, p) == mul_mod(e, a, p));
                    }
                    let c = abs_col[i].mul(&abs_points[i]);
                    abs_col.set(i, c);
                    assert(abs_col@[i as int] == abs_term(v, i as int, j as nat));
                } else {
                    assert(smallest_range_at(n, i as int) == 0);
                    assert(abs_col@[i as int] == abs_term(v, i as int, j as nat));
                }
                i = i + 1;
            }
        }
        assert forall|k: int| 0 <= k < n implies abs_col@[k] == #[trigger] abs_term(
            v,
            k,
            j as nat,
        ) by {
            if j == 0 {
                assert(abs_col@[k] == abs_term(v, k, last_step(j as int)));
            }
        }
        // Compute res

        if nb_rows == 1 && j > 0 {
            // special case when there is a single point = 0
            // for any column after j=0, the result is zero
            proof {
                lemma_signed_term(v, 0, j as nat);
                let t = vandermonde_terms(v, pts, j as nat);
                assert(t.drop_last() =~= Seq::<G>::empty());
                assert(t.last() == t[0]);
                assert(t[0] == signed_term(v, 0, j as nat));
                assert(smallest_range_at(n, 0) == 0);
                G::lemma_zero_wf();
                lemma_zero_add(G::spec_zero());
                assert(sum(t.drop_last()) == G::spec_zero());
                assert(sum(t) == sum(t.drop_last()).spec_add(t.last()));
                assert(sum(t) == G::spec_zero());
            }
            res.push(G::zero());
            proof {
                assert(res@ =~= vandermonde_product(v, pts, (j + 1) as nat));
            }
            j = j + 1;
            continue ;
        }
        let ghost terms = vandermonde_terms(v, pts, j as nat);
        let ghost b = terms[n - 1];
        let ghost s = terms.take(n - 1);
        proof {
            lemma_terms_wf(v, pts, j as nat);
            lemma_signed_term(v, n - 1, j as nat);
            assert(abs_col@[n - 1] == abs_term(v, n - 1, j as nat));
            assert(smallest_range_at(n, n - 1) >= 0);
            assert(b == abs_term(v, n - 1, j as nat));
            assert(b.wf());
            assert((seq![b] + s.take(0)) =~= seq![b] + Seq::<G>::empty());
            lemma_sum_from(b, Seq::<G>::empty());
            assert(sum(Seq::<G>::empty()) == G::spec_zero());
            G::lemma_add_zero(b);
        }
        let mut acc = abs_col[nb_rows - 1];
        let mut i: usize = 0;
        while i < nb_rows - 1
            invariant
                i <= nb_rows - 1,
                j < nb_cols,
                nb_rows == n,
                0 < n,
                zero_i == (n - 1) / 2,
                v.len() == n,
                p == F::modulus(),
                pts == small_points::<F>(n),
                all_wf(v),
                terms == vandermonde_terms(v, pts, j as nat),
                all_wf(terms),
                b == terms[n - 1],
                s == terms.take(n - 1),
                abs_col@.len() == n,
                forall|k: int| 0 <= k < n ==> abs_col@[k] == #[trigger] abs_term(v, k, j as nat),
                acc.wf(),
                acc == sum(seq![b] + s.take(i as int)),
            decreases nb_rows - 1 - i,
        {
            proof {
                lemma_signed_term(v, i as int, j as nat);
                assert(abs_col@[i as int] == abs_term(v, i as int, j as nat));
                assert((seq![b] + s.take(i + 1)).drop_last() =~= seq![b] + s.take(i as int));
                assert((seq![b] + s.take(i + 1)).last() == terms[i as int]);
                assert(terms[i as int].wf());
                G::lemma_add_zero(acc);
            }
            if i < zero_i && j % 2 == 1 {
                acc = acc.sub(&abs_col[i]);
            } else if i == zero_i {
                if j == 0 {
                    acc = acc.add(&abs_col[i]);
                }
            } else {
                acc = acc.add(&abs_col[i]);
            }
            i = i + 1;
        }
        proof {
            // acc == b + sum(s) == sum(s) + b == sum(terms)
            assert(s.take(n - 1) =~= s);
            lemma_sum_from(b, s);
            lemma_sum_wf(s);
            G::lemma_add_comm(b, sum(s));
            assert(terms.drop_last() =~= s);
            assert(terms.last() == b);
        }
        res.push(acc);
        proof {
            assert(res@ =~= vandermonde_product(v, pts, (j + 1) as nat));
        }
        j = j + 1;
    }

    res
}

/// On points that are the residues of the integers closest to zero, the
/// general product is the small-domain product.
pub proof fn lemma_small_vandermonde_agrees<F: PrimeField, G: MyGroup<ScalarField = F>>(
    v: Seq<G>,
    points: Seq<F>,
    nb_cols: nat,
)
    requires
        points.len() == v.len(),
        values(points) == small_points::<F>(v.len() as int),
    ensures
        vandermonde_product(v, values(points), nb_cols) == vandermonde_product(
            v,
            small_points::<F>(v.len() as int),
            nb_cols,
        ),
{
}

} // verus!
