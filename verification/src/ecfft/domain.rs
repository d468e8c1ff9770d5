//! Powers of two, the elements of a coset taken at regular steps, and the
//! sub-cosets of a coset.

use crate::field::PrimeField;
use vstd::arithmetic::div_mod::{lemma_fundamental_div_mod, lemma_mod_bound};
use vstd::arithmetic::mul::{lemma_mul_inequality, lemma_mul_is_commutative};
use vstd::arithmetic::power2::{lemma2_to64, lemma_pow2_unfold, pow2};
use vstd::prelude::*;
use vstd::slice::slice_to_vec;

verus! {

/// `n` is a power of two.
pub open spec fn is_power_of_two(n: int) -> bool
    decreases n,
{
    if n <= 0 {
        false
    } else if n == 1 {
        true
    } else {
        n % 2 == 0 && is_power_of_two(n / 2)
    }
}

/// Tests whether `n` is a power of two.
pub fn check_power_of_two(n: usize) -> (b: bool)
    ensures
        b == is_power_of_two(n as int),
{
    if n == 0 {
        return false;
    }
    let mut m = n;
    while m % 2 == 0
        invariant
            m >= 1,
            is_power_of_two(m as int) == is_power_of_two(n as int),
        decreases m,
    {
        m = m / 2;
    }
    m == 1
}

/// A power of two above one is even, and its half is a power of two.
pub proof fn lemma_power_of_two_half(n: int)
    requires
        is_power_of_two(n),
        n >= 2,
    ensures
        n % 2 == 0,
        is_power_of_two(n / 2),
        n / 2 >= 1,
{
}

/// How many of the indices `start`, `start + step`, `start + 2 * step`, ...
/// lie below `len`.
pub open spec fn stride_count(len: int, start: int, step: int) -> int {
    if start < len {
        (len - start - 1) / step + 1
    } else {
        0
    }
}

/// The elements of `s` at `start`, `start + step`, `start + 2 * step`, ...
pub open spec fn strided<T>(s: Seq<T>, start: int, step: int) -> Seq<T> {
    Seq::new(stride_count(s.len() as int, start, step) as nat, |i: int| s[start + i * step])
}

/// The `k`-th index of a stride lies within the length, for `k` below the
/// number of its indices.
pub proof fn lemma_stride_index(len: int, start: int, step: int, k: int)
    requires
        0 <= start,
        step >= 1,
        0 <= k < stride_count(len, start, step),
    ensures
        start + k * step < len,
        k * step >= 0,
{
    let a = len - start - 1;
    lemma_fundamental_div_mod(a, step);
    lemma_mul_inequality(k, a / step, step);
    lemma_mul_is_commutative(step, a / step);
    lemma_mod_bound(a, step);
    assert(k * step >= 0) by (nonlinear_arith)
        requires
            k >= 0,
            step >= 1,
    ;
}

/// The elements of `coset` at `start`, `start + step`, `start + 2 * step`,
/// and so on.
pub fn every_nth<F: PrimeField>(coset: &[F], start: usize, step: usize) -> (r: Vec<F>)
    requires
        step >= 1,
    ensures
        r@ == strided(coset@, start as int, step as int),
{
    let n = coset.len();
    let mut r: Vec<F> = Vec::new();
    if start >= n {
        proof {
            assert(r@ =~= strided(coset@, start as int, step as int));
        }
        return r;
    }
    let count = (n - start - 1) / step + 1;
    let mut k: usize = 0;
    let mut idx: usize = start;
    while k < count
        invariant
            n == coset@.len(),
            step >= 1,
            start < n,
            count == stride_count(n as int, start as int, step as int),
            k <= count,
            r@.len() == k,
            k < count ==> idx == start + k * step,
            forall|i: int| 0 <= i < k ==> r@[i] == coset@[start + i * step],
        decreases count - k,
    {
        proof {
            lemma_stride_index(n as int, start as int, step as int, k as int);
        }
        r.push(coset[idx]);
        k = k + 1;
        if k < count {
            proof {
                lemma_stride_index(n as int, start as int, step as int, k as int);
                assert((k - 1) * step + step == k * step) by (nonlinear_arith);
            }
            idx = idx + step;
        }
    }
    proof {
        assert(r@ =~= strided(coset@, start as int, step as int));
    }
    r
}

/// The sub-coset at depth `depth`: the coset itself at depth zero, and
/// at each further depth the elements of even index of the one before,
/// which makes every `2^depth`-th element of the coset.
pub open spec fn sub_coset_spec<T>(coset: Seq<T>, depth: nat) -> Seq<T>
    decreases depth,
{
    if depth == 0 {
        coset
    } else {
        strided(sub_coset_spec(coset, (depth - 1) as nat), 0, 2)
    }
}

/// Element `i` of the sub-coset at depth `depth` is element
/// `i * 2^depth` of the coset.
pub proof fn lemma_sub_coset_index<T>(coset: Seq<T>, depth: nat, i: int)
    requires
        0 <= i < sub_coset_spec(coset, depth).len(),
    ensures
        0 <= i * pow2(depth) < coset.len(),
        sub_coset_spec(coset, depth)[i] == coset[i * pow2(depth)],
    decreases depth,
{
    if depth == 0 {
        lemma2_to64();
        assert(i * 1 == i);
    } else {
        let before = sub_coset_spec(coset, (depth - 1) as nat);
        lemma_stride_index(before.len() as int, 0, 2, i);
        lemma_sub_coset_index(coset, (depth - 1) as nat, i * 2);
        lemma_pow2_unfold(depth);
        assert(i * 2 * pow2((depth - 1) as nat) == i * pow2(depth)) by (nonlinear_arith)
            requires
                pow2(depth) == 2 * pow2((depth - 1) as nat),
        ;
    }
}

/// The canonical sub-coset at depth `depth`: every `2^depth`-th element of
/// the coset.
pub fn sub_coset<F: PrimeField>(coset: &[F], depth: usize) -> (r: Vec<F>)
    ensures
        r@ == sub_coset_spec(coset@, depth as nat),
{
    let mut r = slice_to_vec(coset);
    let mut d: usize = 0;
    while d < depth
        invariant
            d <= depth,
            r@ == sub_coset_spec(coset@, d as nat),
        decreases depth - d,
    {
        r = every_nth(r.as_slice(), 0, 2);
        d = d + 1;
    }
    r
}

} // verus!
