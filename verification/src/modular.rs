//! Arithmetic of the integers modulo `p`, on canonical representatives.
//!
//! Every function takes the modulus last. The laws below are the ring laws
//! of `Z/p`; none of them needs `p` to be prime. Primality enters only in
//! [`lemma_prime_units`], which shows that every nonzero residue of a prime
//! modulus has an inverse.

use vstd::arithmetic::div_mod::{
    lemma_add_mod_noop, lemma_add_mod_noop_right, lemma_fundamental_div_mod, lemma_mod_bound,
    lemma_mod_multiples_vanish, lemma_mul_mod_noop_general, lemma_small_mod,
    lemma_sub_mod_noop_right,
};
use vstd::arithmetic::mul::{
    lemma_mul_is_associative, lemma_mul_is_commutative, lemma_mul_is_distributive_add,
};
use vstd::prelude::*;

verus! {

/// `a + b` in `Z/p`.
pub open spec fn add_mod(a: int, b: int, p: int) -> int {
    (a + b) % p
}

/// `a - b` in `Z/p`.
pub open spec fn sub_mod(a: int, b: int, p: int) -> int {
    (a - b) % p
}

/// `-a` in `Z/p`.
pub open spec fn neg_mod(a: int, p: int) -> int {
    (-a) % p
}

/// `a * b` in `Z/p`.
pub open spec fn mul_mod(a: int, b: int, p: int) -> int {
    (a * b) % p
}

/// `a^e` in `Z/p`.
pub open spec fn pow_mod(a: int, e: nat, p: int) -> int
    decreases e,
{
    if e == 0 {
        1int % p
    } else {
        mul_mod(pow_mod(a, (e - 1) as nat, p), a, p)
    }
}

/// `i` is the canonical representative of the inverse of `a` in `Z/p`.
pub open spec fn is_inverse_mod(a: int, i: int, p: int) -> bool {
    0 <= i < p && (a * i) % p == 1
}

/// `a` has an inverse in `Z/p`.
pub open spec fn is_unit_mod(a: int, p: int) -> bool {
    exists|i: int| is_inverse_mod(a, i, p)
}

/// The inverse of `a` in `Z/p`, where `a` is a unit.
pub open spec fn inv_mod(a: int, p: int) -> int {
    choose|i: int| is_inverse_mod(a, i, p)
}

/// `a / b` in `Z/p`, where `b` is a unit.
pub open spec fn quot_mod(a: int, b: int, p: int) -> int {
    mul_mod(a, inv_mod(b, p), p)
}

/// `p` has no divisor strictly between `1` and `p`.
pub open spec fn is_prime(p: int) -> bool {
    p >= 2 && forall|d: int| 1 < d < p ==> #[trigger] (p % d) != 0
}

/// A residue lies in `0..p`.
pub proof fn lemma_mod_range(a: int, p: int)
    requires
        p > 0,
    ensures
        0 <= a % p < p,
{
    lemma_mod_bound(a, p);
}

/// `(a + b) + c == a + (b + c)`.
pub proof fn lemma_add_mod_assoc(a: int, b: int, c: int, p: int)
    requires
        p > 0,
    ensures
        add_mod(add_mod(a, b, p), c, p) == add_mod(a, add_mod(b, c, p), p),
{
    lemma_add_mod_noop_right(c, a + b, p);
    lemma_add_mod_noop_right(a, b + c, p);
    assert(c + (a + b) == a + (b + c));
}

/// `a + 0 == a` and `0 + a == a`.
pub proof fn lemma_add_mod_zero(a: int, p: int)
    requires
        0 <= a < p,
    ensures
        add_mod(a, 0, p) == a,
        add_mod(0, a, p) == a,
{
    lemma_small_mod(a as nat, p as nat);
}

/// `a + (-a) == 0`.
pub proof fn lemma_add_mod_neg(a: int, p: int)
    requires
        p > 0,
    ensures
        add_mod(a, neg_mod(a, p), p) == 0,
{
    lemma_add_mod_noop_right(a, -a, p);
    assert(a + (-a) == 0);
    lemma_small_mod(0, p as nat);
}

/// `a - b == a + (-b)`.
pub proof fn lemma_sub_mod_is_add_neg(a: int, b: int, p: int)
    requires
        p > 0,
    ensures
        sub_mod(a, b, p) == add_mod(a, neg_mod(b, p), p),
{
    lemma_add_mod_noop_right(a, -b, p);
    assert(a + (-b) == a - b);
}

/// Replacing an operand by its residue changes no sum or product.
pub proof fn lemma_mod_absorb(a: int, b: int, p: int)
    requires
        p > 0,
    ensures
        add_mod(a % p, b, p) == add_mod(a, b, p),
        add_mod(a, b % p, p) == add_mod(a, b, p),
        mul_mod(a % p, b, p) == mul_mod(a, b, p),
        mul_mod(a, b % p, p) == mul_mod(a, b, p),
        sub_mod(a, b % p, p) == sub_mod(a, b, p),
        neg_mod(a % p, p) == neg_mod(a, p),
{
    lemma_add_mod_noop_right(b, a, p);
    assert(b + a % p == a % p + b);
    assert(b + a == a + b);
    lemma_add_mod_noop_right(a, b, p);
    lemma_mul_mod_noop_general(a, b, p);
    lemma_sub_mod_noop_right(a, b, p);
    lemma_sub_mod_noop_right(0, a, p);
    assert(0 - a % p == -(a % p));
    assert(0 - a == -a);
}

/// `(a * b) * c == a * (b * c)`.
pub proof fn lemma_mul_mod_assoc(a: int, b: int, c: int, p: int)
    requires
        p > 0,
    ensures
        mul_mod(mul_mod(a, b, p), c, p) == mul_mod(a, mul_mod(b, c, p), p),
{
    lemma_mul_mod_noop_general(a * b, c, p);
    lemma_mul_mod_noop_general(a, b * c, p);
    lemma_mul_is_associative(a, b, c);
}

/// `a * b == b * a`.
pub proof fn lemma_mul_mod_comm(a: int, b: int, p: int)
    ensures
        mul_mod(a, b, p) == mul_mod(b, a, p),
{
    lemma_mul_is_commutative(a, b);
}

/// `a * 1 == a` and `1 * a == a`.
pub proof fn lemma_mul_mod_one(a: int, p: int)
    requires
        0 <= a < p,
    ensures
        mul_mod(a, 1, p) == a,
        mul_mod(1, a, p) == a,
{
    assert(a * 1 == a);
    assert(1 * a == a);
    lemma_small_mod(a as nat, p as nat);
}

/// `a * 0 == 0` and `0 * a == 0`.
pub proof fn lemma_mul_mod_zero(a: int, p: int)
    requires
        p > 0,
    ensures
        mul_mod(a, 0, p) == 0,
        mul_mod(0, a, p) == 0,
{
    assert(a * 0 == 0);
    assert(0 * a == 0);
    lemma_small_mod(0, p as nat);
}

/// `a * (b + c) == a * b + a * c`, and the same from the right.
pub proof fn lemma_mul_mod_distrib(a: int, b: int, c: int, p: int)
    requires
        p > 0,
    ensures
        mul_mod(a, add_mod(b, c, p), p) == add_mod(mul_mod(a, b, p), mul_mod(a, c, p), p),
        mul_mod(add_mod(b, c, p), a, p) == add_mod(mul_mod(b, a, p), mul_mod(c, a, p), p),
{
    lemma_mul_mod_noop_general(a, b + c, p);
    lemma_mul_is_distributive_add(a, b, c);
    lemma_add_mod_noop(a * b, a * c, p);
    lemma_mul_is_commutative(a, (b + c) % p);
    lemma_mul_is_commutative(a, b);
    lemma_mul_is_commutative(a, c);
}

/// `a * (-b) == -(a * b)` and `(-a) * b == -(a * b)`.
pub proof fn lemma_mul_mod_neg(a: int, b: int, p: int)
    requires
        p > 0,
    ensures
        mul_mod(a, neg_mod(b, p), p) == neg_mod(mul_mod(a, b, p), p),
        mul_mod(neg_mod(a, p), b, p) == neg_mod(mul_mod(a, b, p), p),
{
    lemma_mul_mod_noop_general(a, -b, p);
    lemma_mul_mod_noop_general(-a, b, p);
    assert(a * (-b) == -(a * b)) by (nonlinear_arith);
    assert((-a) * b == -(a * b)) by (nonlinear_arith);
    lemma_mod_absorb(a * b, 0, p);
}

/// `-(-a) == a`.
pub proof fn lemma_neg_mod_neg(a: int, p: int)
    requires
        0 <= a < p,
    ensures
        neg_mod(neg_mod(a, p), p) == a,
{
    lemma_mod_absorb(-a, 0, p);
    assert(-(-a) == a);
    lemma_small_mod(a as nat, p as nat);
}

/// A residue has at most one inverse.
pub proof fn lemma_inverse_mod_unique(a: int, i: int, j: int, p: int)
    requires
        p > 0,
        is_inverse_mod(a, i, p),
        is_inverse_mod(a, j, p),
    ensures
        i == j,
{
    // i == i * (a * j) == (i * a) * j == j, all in Z/p
    lemma_mul_mod_assoc(i, a, j, p);
    lemma_mul_mod_comm(i, a, p);
    assert(mul_mod(i, a, p) == 1);
    assert(mul_mod(a, j, p) == 1);
    lemma_mul_mod_one(i, p);
    lemma_mul_mod_one(j, p);
}

/// A residue with an inverse is a unit, and the inverse is its only one.
pub proof fn lemma_inv_mod(a: int, i: int, p: int)
    requires
        p > 0,
        is_inverse_mod(a, i, p),
    ensures
        is_unit_mod(a, p),
        inv_mod(a, p) == i,
{
    lemma_inverse_mod_unique(a, i, inv_mod(a, p), p);
}

/// The inverse of a unit is an inverse of it, from either side.
pub proof fn lemma_inv_mod_is_inverse(a: int, p: int)
    requires
        p > 0,
        is_unit_mod(a, p),
    ensures
        is_inverse_mod(a, inv_mod(a, p), p),
        mul_mod(a, inv_mod(a, p), p) == 1,
        mul_mod(inv_mod(a, p), a, p) == 1,
{
    lemma_mul_mod_comm(a, inv_mod(a, p), p);
}

/// Zero has no inverse.
pub proof fn lemma_zero_not_unit(p: int)
    requires
        p >= 2,
    ensures
        !is_unit_mod(0, p),
{
    assert forall|i: int| !is_inverse_mod(0, i, p) by {
        assert(0 * i == 0);
        lemma_small_mod(0, p as nat);
    }
}

/// Two residues are equal where their difference is zero.
pub proof fn lemma_sub_mod_zero(a: int, b: int, p: int)
    requires
        0 <= a < p,
        0 <= b < p,
    ensures
        (sub_mod(a, b, p) == 0) == (a == b),
{
    if a >= b {
        lemma_small_mod((a - b) as nat, p as nat);
    } else {
        lemma_mod_multiples_vanish(1, a - b, p);
        assert(p * 1 + (a - b) == a - b + p);
        lemma_small_mod((a - b + p) as nat, p as nat);
    }
}

/// Each nonzero residue of a prime modulus has an inverse.
pub proof fn lemma_prime_units(a: int, p: int)
    requires
        is_prime(p),
        0 < a < p,
    ensures
        is_unit_mod(a, p),
    decreases a,
{
    if a == 1 {
        assert(1 * 1 == 1);
        lemma_small_mod(1, p as nat);
        assert(is_inverse_mod(1, 1, p));
    } else {
        // p == q * a + r with 0 < r < a, so r == -(q * a) in Z/p and
        // a * (-(q * inverse of r)) == 1.
        let q = p / a;
        let r = p % a;
        lemma_fundamental_div_mod(p, a);
        lemma_mod_bound(p, a);
        assert(r != 0);
        lemma_prime_units(r, p);
        let ri = inv_mod(r, p);
        lemma_inv_mod_is_inverse(r, p);
        let i = neg_mod(mul_mod(q, ri, p), p);
        lemma_mod_range(-mul_mod(q, ri, p), p);
        // a * i == -(a * q * ri) == -((p - r) * ri) == r * ri == 1
        lemma_mul_mod_neg(a, mul_mod(q, ri, p), p);
        lemma_mul_mod_assoc(a, q, ri, p);
        assert(a * q == p - r) by {
            lemma_mul_is_commutative(a, q);
        }
        assert(mul_mod(a, q, p) == neg_mod(r, p)) by {
            lemma_mod_multiples_vanish(1, -r, p);
            assert(p * 1 + (-r) == p - r);
        }
        lemma_mul_mod_neg(r, ri, p);
        assert(mul_mod(neg_mod(r, p), ri, p) == neg_mod(1, p));
        assert(mul_mod(a, mul_mod(q, ri, p), p) == neg_mod(1, p));
        lemma_small_mod(1, p as nat);
        lemma_neg_mod_neg(1, p);
        assert(mul_mod(a, i, p) == 1);
        assert(is_inverse_mod(a, i, p));
    }
}

/// A power is a residue.
pub proof fn lemma_pow_mod_range(a: int, e: nat, p: int)
    requires
        p > 0,
    ensures
        0 <= pow_mod(a, e, p) < p,
    decreases e,
{
    if e == 0 {
        lemma_mod_range(1, p);
    } else {
        lemma_mod_range(pow_mod(a, (e - 1) as nat, p) * a, p);
    }
}

/// `0^e == 0` for `e > 0`.
pub proof fn lemma_pow_mod_zero_base(e: nat, p: int)
    requires
        p > 0,
        e > 0,
    ensures
        pow_mod(0, e, p) == 0,
{
    lemma_mul_mod_zero(pow_mod(0, (e - 1) as nat, p), p);
}

/// `(-a)^e` is `a^e` for even `e` and `-(a^e)` for odd `e`.
pub proof fn lemma_pow_mod_neg_base(a: int, e: nat, p: int)
    requires
        p > 0,
    ensures
        pow_mod(neg_mod(a, p), e, p) == if e % 2 == 0 {
            pow_mod(a, e, p)
        } else {
            neg_mod(pow_mod(a, e, p), p)
        },
    decreases e,
{
    if e > 0 {
        let f = (e - 1) as nat;
        lemma_pow_mod_neg_base(a, f, p);
        let x = pow_mod(a, f, p);
        lemma_pow_mod_range(a, f, p);
        if f % 2 == 0 {
            lemma_mul_mod_neg(x, a, p);
        } else {
            // (-x) * (-a) == x * a
            lemma_mul_mod_neg(neg_mod(x, p), a, p);
            lemma_mul_mod_neg(x, a, p);
            lemma_mod_range(x * a, p);
            lemma_neg_mod_neg(mul_mod(x, a, p), p);
        }
    }
}

/// `a^(m + n) == a^m * a^n`.
pub proof fn lemma_pow_mod_add(a: int, m: nat, n: nat, p: int)
    requires
        p > 0,
    ensures
        pow_mod(a, m + n, p) == mul_mod(pow_mod(a, m, p), pow_mod(a, n, p), p),
    decreases n,
{
    if n == 0 {
        lemma_pow_mod_range(a, m, p);
        lemma_mod_absorb(pow_mod(a, m, p), 1, p);
        lemma_mul_mod_one(pow_mod(a, m, p), p);
    } else {
        let f = (n - 1) as nat;
        lemma_pow_mod_add(a, m, f, p);
        lemma_mul_mod_assoc(pow_mod(a, m, p), pow_mod(a, f, p), a, p);
        assert(m + n - 1 == m + f);
    }
}

/// `(a * a)^e == a^(2 * e)`.
pub proof fn lemma_pow_mod_square(a: int, e: nat, p: int)
    requires
        p > 0,
    ensures
        pow_mod(mul_mod(a, a, p), e, p) == pow_mod(a, 2 * e, p),
    decreases e,
{
    if e > 0 {
        let f = (e - 1) as nat;
        lemma_pow_mod_square(a, f, p);
        let x = pow_mod(a, 2 * f, p);
        // x * (a * a) == (x * a) * a
        lemma_mul_mod_assoc(x, a, a, p);
        assert(pow_mod(a, (2 * f + 1) as nat, p) == mul_mod(x, a, p));
        assert(pow_mod(a, (2 * f + 2) as nat, p) == mul_mod(mul_mod(x, a, p), a, p));
        assert(2 * e == 2 * f + 2);
    }
}

/// Replacing the base by its residue changes no power.
pub proof fn lemma_pow_mod_absorb(a: int, e: nat, p: int)
    requires
        p > 0,
    ensures
        pow_mod(a % p, e, p) == pow_mod(a, e, p),
    decreases e,
{
    if e > 0 {
        lemma_pow_mod_absorb(a, (e - 1) as nat, p);
        lemma_mod_absorb(pow_mod(a, (e - 1) as nat, p), a, p);
    }
}

} // verus!
