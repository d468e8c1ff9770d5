//! Consequences of the laws of a coefficient group, and sums over
//! sequences of group elements.

use crate::field::{elem, lemma_elem, PrimeField};
use crate::modular::{
    add_mod, lemma_add_mod_neg, lemma_add_mod_zero, lemma_mod_range, mul_mod, neg_mod,
};
use crate::my_group::{scale, MyGroup};
use vstd::prelude::*;

verus! {

/// Every element of the sequence is an element of the group.
pub open spec fn all_wf<G: MyGroup>(s: Seq<G>) -> bool {
    forall|i: int| 0 <= i < s.len() ==> (#[trigger] s[i]).wf()
}

/// Every element of the sequence is a canonical field element.
pub open spec fn all_canonical<F: PrimeField>(s: Seq<F>) -> bool {
    forall|i: int| 0 <= i < s.len() ==> (#[trigger] s[i]).is_canonical()
}

/// The sum of the elements of `s`; the empty sum is zero.
pub open spec fn sum<G: MyGroup>(s: Seq<G>) -> G
    decreases s.len(),
{
    if s.len() == 0 {
        G::spec_zero()
    } else {
        sum(s.drop_last()).spec_add(s.last())
    }
}

/// The product of a group element by a scalar is a group element.
pub proof fn lemma_scale_wf<G: MyGroup>(a: G, k: int)
    requires
        a.wf(),
        0 <= k < G::ScalarField::modulus(),
    ensures
        scale(a, k).wf(),
{
    lemma_elem::<G::ScalarField>(k);
    G::lemma_closed(a, a, elem::<G::ScalarField>(k));
}

/// The sum of two group elements is a group element.
pub proof fn lemma_add_wf<G: MyGroup>(a: G, b: G)
    requires
        a.wf(),
        b.wf(),
    ensures
        a.spec_add(b).wf(),
{
    G::ScalarField::lemma_modulus();
    lemma_elem::<G::ScalarField>(0);
    G::lemma_closed(a, b, elem::<G::ScalarField>(0));
}

/// The negative of a group element is a group element.
pub proof fn lemma_neg_wf<G: MyGroup>(a: G)
    requires
        a.wf(),
    ensures
        a.spec_neg().wf(),
{
    G::ScalarField::lemma_modulus();
    lemma_elem::<G::ScalarField>(0);
    G::lemma_closed(a, a, elem::<G::ScalarField>(0));
}

/// `0 + a == a`.
pub proof fn lemma_zero_add<G: MyGroup>(a: G)
    requires
        a.wf(),
    ensures
        G::spec_zero().spec_add(a) == a,
{
    G::lemma_zero_wf();
    G::lemma_add_comm(G::spec_zero(), a);
    G::lemma_add_zero(a);
}

/// `a + b == a + c` only if `b == c`.
pub proof fn lemma_add_cancel<G: MyGroup>(a: G, b: G, c: G)
    requires
        a.wf(),
        b.wf(),
        c.wf(),
        a.spec_add(b) == a.spec_add(c),
    ensures
        b == c,
{
    let n = a.spec_neg();
    lemma_neg_wf(a);
    // b == (-a + a) + b == -a + (a + b) == -a + (a + c) == c
    G::lemma_add_assoc(n, a, b);
    G::lemma_add_assoc(n, a, c);
    G::lemma_add_comm(n, a);
    G::lemma_add_neg(a);
    lemma_zero_add(b);
    lemma_zero_add(c);
}

/// The negative of `a` is the only `b` with `a + b == 0`.
pub proof fn lemma_neg_unique<G: MyGroup>(a: G, b: G)
    requires
        a.wf(),
        b.wf(),
        a.spec_add(b) == G::spec_zero(),
    ensures
        b == a.spec_neg(),
{
    lemma_neg_wf(a);
    G::lemma_add_neg(a);
    lemma_add_cancel(a, b, a.spec_neg());
}

/// `-(-a) == a`.
pub proof fn lemma_neg_neg<G: MyGroup>(a: G)
    requires
        a.wf(),
    ensures
        a.spec_neg().spec_neg() == a,
{
    lemma_neg_wf(a);
    G::lemma_add_neg(a);
    G::lemma_add_comm(a, a.spec_neg());
    lemma_neg_unique(a.spec_neg(), a);
}

/// Two elements are equal where their difference is zero.
pub proof fn lemma_difference_zero<G: MyGroup>(a: G, b: G)
    requires
        a.wf(),
        b.wf(),
    ensures
        (a.spec_add(b.spec_neg()) == G::spec_zero()) == (a == b),
{
    lemma_neg_wf(b);
    if a == b {
        G::lemma_add_neg(a);
    }
    if a.spec_add(b.spec_neg()) == G::spec_zero() {
        // -b == -a, so b == a
        lemma_neg_unique(a, b.spec_neg());
        lemma_neg_neg(a);
        lemma_neg_neg(b);
    }
}

/// Tests whether two elements of the group are equal.
pub fn group_eq<G: MyGroup>(a: &G, b: &G) -> (r: bool)
    requires
        a.wf(),
        b.wf(),
    ensures
        r == (*a == *b),
{
    proof {
        lemma_difference_zero(*a, *b);
    }
    a.sub(b).is_zero()
}

/// Tests whether two vectors hold the same elements of the group.
pub fn group_vec_eq<G: MyGroup>(a: &Vec<G>, b: &Vec<G>) -> (r: bool)
    requires
        all_wf(a@),
        all_wf(b@),
    ensures
        r == (a@ == b@),
{
    if a.len() != b.len() {
        return false;
    }
    let mut i: usize = 0;
    while i < a.len()
        invariant
            a@.len() == b@.len(),
            all_wf(a@),
            all_wf(b@),
            i <= a@.len(),
            forall|k: int| 0 <= k < i ==> a@[k] == b@[k],
        decreases a@.len() - i,
    {
        if !group_eq(&a[i], &b[i]) {
            return false;
        }
        i = i + 1;
    }
    proof {
        assert(a@ =~= b@);
    }
    true
}

/// `(a + b) + (c + d) == (a + c) + (b + d)`.
pub proof fn lemma_add_shuffle<G: MyGroup>(a: G, b: G, c: G, d: G)
    requires
        a.wf(),
        b.wf(),
        c.wf(),
        d.wf(),
    ensures
        a.spec_add(b).spec_add(c.spec_add(d)) == a.spec_add(c).spec_add(b.spec_add(d)),
{
    lemma_add_wf(a, b);
    lemma_add_wf(c, d);
    lemma_add_wf(a, c);
    lemma_add_wf(b, d);
    lemma_add_wf(b, c);
    lemma_add_wf(c, b);
    // (a + b) + (c + d) == a + (b + (c + d)) == a + ((b + c) + d)
    G::lemma_add_assoc(a, b, c.spec_add(d));
    G::lemma_add_assoc(b, c, d);
    // (a + c) + (b + d) == a + (c + (b + d)) == a + ((c + b) + d)
    G::lemma_add_assoc(a, c, b.spec_add(d));
    G::lemma_add_assoc(c, b, d);
    G::lemma_add_comm(b, c);
}

/// `a * 1 == a`.
pub proof fn lemma_scale_one<G: MyGroup>(a: G)
    requires
        a.wf(),
    ensures
        scale(a, 1) == a,
{
    G::ScalarField::lemma_modulus();
    lemma_elem::<G::ScalarField>(1);
    G::lemma_mul_one(a, elem::<G::ScalarField>(1));
}

/// `a * (j + k) == a * j + a * k`.
pub proof fn lemma_scale_add<G: MyGroup>(a: G, j: int, k: int)
    requires
        a.wf(),
        0 <= j < G::ScalarField::modulus(),
        0 <= k < G::ScalarField::modulus(),
    ensures
        scale(a, add_mod(j, k, G::ScalarField::modulus())) == scale(a, j).spec_add(scale(a, k)),
{
    let p = G::ScalarField::modulus();
    lemma_elem::<G::ScalarField>(j);
    lemma_elem::<G::ScalarField>(k);
    lemma_mod_range(j + k, p);
    lemma_elem::<G::ScalarField>(add_mod(j, k, p));
    G::lemma_mul_add(
        a,
        elem::<G::ScalarField>(j),
        elem::<G::ScalarField>(k),
        elem::<G::ScalarField>(add_mod(j, k, p)),
    );
}

/// `(a * j) * k == a * (j * k)`.
pub proof fn lemma_scale_mul<G: MyGroup>(a: G, j: int, k: int)
    requires
        a.wf(),
        0 <= j < G::ScalarField::modulus(),
        0 <= k < G::ScalarField::modulus(),
    ensures
        scale(scale(a, j), k) == scale(a, mul_mod(j, k, G::ScalarField::modulus())),
{
    let p = G::ScalarField::modulus();
    lemma_elem::<G::ScalarField>(j);
    lemma_elem::<G::ScalarField>(k);
    lemma_mod_range(j * k, p);
    lemma_elem::<G::ScalarField>(mul_mod(j, k, p));
    G::lemma_mul_mul(
        a,
        elem::<G::ScalarField>(j),
        elem::<G::ScalarField>(k),
        elem::<G::ScalarField>(mul_mod(j, k, p)),
    );
}

/// `(a + b) * k == a * k + b * k`.
pub proof fn lemma_scale_distrib<G: MyGroup>(a: G, b: G, k: int)
    requires
        a.wf(),
        b.wf(),
        0 <= k < G::ScalarField::modulus(),
    ensures
        scale(a.spec_add(b), k) == scale(a, k).spec_add(scale(b, k)),
{
    lemma_elem::<G::ScalarField>(k);
    G::lemma_mul_distrib(a, b, elem::<G::ScalarField>(k));
}

/// `a * 0 == 0`.
pub proof fn lemma_scale_zero<G: MyGroup>(a: G)
    requires
        a.wf(),
    ensures
        scale(a, 0) == G::spec_zero(),
{
    let p = G::ScalarField::modulus();
    G::ScalarField::lemma_modulus();
    G::lemma_zero_wf();
    let z = scale(a, 0);
    lemma_scale_wf(a, 0);
    // z == a * (0 + 0) == z + z, and z == z + 0
    lemma_add_mod_zero(0, p);
    lemma_scale_add(a, 0, 0);
    G::lemma_add_zero(z);
    lemma_add_cancel(z, z, G::spec_zero());
}

/// `0 * k == 0`.
pub proof fn lemma_zero_scale<G: MyGroup>(k: int)
    requires
        0 <= k < G::ScalarField::modulus(),
    ensures
        scale(G::spec_zero(), k) == G::spec_zero(),
{
    G::lemma_zero_wf();
    let o = G::spec_zero();
    let z = scale(o, k);
    lemma_scale_wf(o, k);
    // z == (0 + 0) * k == z + z
    G::lemma_add_zero(o);
    lemma_scale_distrib(o, o, k);
    G::lemma_add_zero(z);
    lemma_add_cancel(z, z, o);
}

/// `a * (-k) == -(a * k)`.
pub proof fn lemma_scale_neg<G: MyGroup>(a: G, k: int)
    requires
        a.wf(),
        0 <= k < G::ScalarField::modulus(),
    ensures
        scale(a, neg_mod(k, G::ScalarField::modulus())) == scale(a, k).spec_neg(),
{
    let p = G::ScalarField::modulus();
    let n = neg_mod(k, p);
    lemma_mod_range(-k, p);
    lemma_scale_wf(a, k);
    lemma_scale_wf(a, n);
    // a * k + a * (-k) == a * (k + -k) == a * 0 == 0
    lemma_scale_add(a, k, n);
    lemma_add_mod_neg(k, p);
    lemma_scale_zero(a);
    lemma_neg_unique(scale(a, k), scale(a, n));
}

/// The sum of group elements is a group element.
pub proof fn lemma_sum_wf<G: MyGroup>(s: Seq<G>)
    requires
        all_wf(s),
    ensures
        sum(s).wf(),
    decreases s.len(),
{
    if s.len() == 0 {
        G::lemma_zero_wf();
    } else {
        lemma_sum_wf(s.drop_last());
        lemma_add_wf(sum(s.drop_last()), s.last());
    }
}

/// Adding the elements of `s` one by one to `b` gives `b` plus their sum.
pub proof fn lemma_sum_from<G: MyGroup>(b: G, s: Seq<G>)
    requires
        b.wf(),
        all_wf(s),
    ensures
        sum(seq![b] + s) == b.spec_add(sum(s)),
    decreases s.len(),
{
    let bs = seq![b] + s;
    if s.len() == 0 {
        assert(bs.drop_last() =~= Seq::<G>::empty());
        assert(bs.last() == b);
        assert(sum(bs) == sum(bs.drop_last()).spec_add(bs.last()));
        lemma_zero_add(b);
        G::lemma_add_zero(b);
    } else {
        let t = s.drop_last();
        assert(bs.drop_last() =~= seq![b] + t);
        assert(bs.last() == s.last());
        assert(sum(bs) == sum(bs.drop_last()).spec_add(bs.last()));
        lemma_sum_from(b, t);
        lemma_sum_wf(t);
        assert(s.last().wf());
        G::lemma_add_assoc(b, sum(t), s.last());
    }
}

/// The sum of two sequences one after the other is the sum of their sums.
pub proof fn lemma_sum_concat<G: MyGroup>(a: Seq<G>, b: Seq<G>)
    requires
        all_wf(a),
        all_wf(b),
    ensures
        sum(a + b) == sum(a).spec_add(sum(b)),
    decreases b.len(),
{
    lemma_sum_wf(a);
    if b.len() == 0 {
        assert(a + b =~= a);
        G::lemma_add_zero(sum(a));
    } else {
        let c = b.drop_last();
        assert((a + b).drop_last() =~= a + c);
        assert((a + b).last() == b.last());
        lemma_sum_concat(a, c);
        lemma_sum_wf(c);
        assert(b.last().wf());
        G::lemma_add_assoc(sum(a), sum(c), b.last());
    }
}

/// The elements of `s`, each multiplied by the scalar `k`.
pub open spec fn scaled<G: MyGroup>(s: Seq<G>, k: int) -> Seq<G> {
    Seq::new(s.len(), |i: int| scale(s[i], k))
}

/// Multiplying a sum by a scalar multiplies each of its terms.
pub proof fn lemma_sum_scaled<G: MyGroup>(s: Seq<G>, k: int)
    requires
        all_wf(s),
        0 <= k < G::ScalarField::modulus(),
    ensures
        all_wf(scaled(s, k)),
        sum(scaled(s, k)) == scale(sum(s), k),
    decreases s.len(),
{
    assert forall|i: int| 0 <= i < s.len() implies (#[trigger] scaled(s, k)[i]).wf() by {
        lemma_scale_wf(s[i], k);
    }
    if s.len() == 0 {
        lemma_zero_scale::<G>(k);
    } else {
        let t = s.drop_last();
        assert(scaled(s, k).drop_last() =~= scaled(t, k));
        assert(scaled(s, k).last() == scale(s.last(), k));
        lemma_sum_scaled(t, k);
        lemma_sum_wf(t);
        assert(s.last().wf());
        lemma_scale_distrib(sum(t), s.last(), k);
    }
}

} // verus!
