//! Integers held as little-endian arrays of 64-bit limbs.

use vstd::arithmetic::div_mod::lemma_fundamental_div_mod_converse;
use vstd::prelude::*;

verus! {

/// The integer that four limbs hold, least significant limb first.
pub open spec fn limbs4_value(l: [u64; 4]) -> int {
    l[0] as int + l[1] as int * 0x1_0000_0000_0000_0000 + l[2] as int
        * 0x1_0000_0000_0000_0000_0000_0000_0000_0000 + l[3] as int
        * 0x1_0000_0000_0000_0000_0000_0000_0000_0000_0000_0000_0000_0000
}

/// The integer that six limbs hold, least significant limb first.
pub open spec fn limbs6_value(l: [u64; 6]) -> int {
    l[0] as int + l[1] as int * 0x1_0000_0000_0000_0000 + l[2] as int
        * 0x1_0000_0000_0000_0000_0000_0000_0000_0000 + l[3] as int
        * 0x1_0000_0000_0000_0000_0000_0000_0000_0000_0000_0000_0000_0000 + l[4] as int
        * 0x1_0000_0000_0000_0000_0000_0000_0000_0000_0000_0000_0000_0000_0000_0000_0000_0000
        + l[5] as int
        * 0x1_0000_0000_0000_0000_0000_0000_0000_0000_0000_0000_0000_0000_0000_0000_0000_0000_0000_0000_0000_0000
}

/// The integer that a sequence of 64-bit words holds, least significant
/// word first.
pub open spec fn words_value(w: Seq<u64>) -> int
    decreases w.len(),
{
    if w.len() == 0 {
        0
    } else {
        w[0] as int + 0x1_0000_0000_0000_0000 * words_value(w.drop_first())
    }
}

/// Four words hold the integer that they hold as four limbs.
pub proof fn lemma_words4(w: Seq<u64>, l: [u64; 4])
    requires
        w.len() == 4,
        forall|i: int| 0 <= i < 4 ==> w[i] == l[i],
    ensures
        words_value(w) == limbs4_value(l),
{
    let w1 = w.drop_first();
    let w2 = w1.drop_first();
    let w3 = w2.drop_first();
    let w4 = w3.drop_first();
    assert(words_value(w4) == 0);
    assert(words_value(w3) == w[3] as int);
    assert(words_value(w2) == w[2] as int + 0x1_0000_0000_0000_0000 * words_value(w3));
    assert(words_value(w1) == w[1] as int + 0x1_0000_0000_0000_0000 * words_value(w2));
    assert(words_value(w) == w[0] as int + 0x1_0000_0000_0000_0000 * words_value(w1));
}

/// Six words hold the integer that they hold as six limbs.
pub proof fn lemma_words6(w: Seq<u64>, l: [u64; 6])
    requires
        w.len() == 6,
        forall|i: int| 0 <= i < 6 ==> w[i] == l[i],
    ensures
        words_value(w) == limbs6_value(l),
{
    let w1 = w.drop_first();
    let w2 = w1.drop_first();
    let w3 = w2.drop_first();
    let w4 = w3.drop_first();
    let w5 = w4.drop_first();
    let w6 = w5.drop_first();
    assert(words_value(w6) == 0);
    assert(words_value(w5) == w[5] as int);
    assert(words_value(w4) == w[4] as int + 0x1_0000_0000_0000_0000 * words_value(w5));
    assert(words_value(w3) == w[3] as int + 0x1_0000_0000_0000_0000 * words_value(w4));
    assert(words_value(w2) == w[2] as int + 0x1_0000_0000_0000_0000 * words_value(w3));
    assert(words_value(w1) == w[1] as int + 0x1_0000_0000_0000_0000 * words_value(w2));
    assert(words_value(w) == w[0] as int + 0x1_0000_0000_0000_0000 * words_value(w1));
}

/// A low limb and what stands above it are recovered by remainder and
/// quotient.
proof fn lemma_split(low: int, high: int)
    requires
        0 <= low < 0x1_0000_0000_0000_0000,
    ensures
        (low + 0x1_0000_0000_0000_0000 * high) % 0x1_0000_0000_0000_0000 == low,
        (low + 0x1_0000_0000_0000_0000 * high) / 0x1_0000_0000_0000_0000 == high,
{
    lemma_fundamental_div_mod_converse(
        low + 0x1_0000_0000_0000_0000 * high,
        0x1_0000_0000_0000_0000,
        high,
        low,
    );
}

/// Four limbs hold one integer only.
pub proof fn lemma_limbs4_injective(a: [u64; 4], b: [u64; 4])
    requires
        limbs4_value(a) == limbs4_value(b),
    ensures
        a == b,
{
    let b64 = 0x1_0000_0000_0000_0000int;
    let a2 = a[2] as int + b64 * a[3] as int;
    let a1 = a[1] as int + b64 * a2;
    let b2 = b[2] as int + b64 * b[3] as int;
    let b1 = b[1] as int + b64 * b2;
    assert(limbs4_value(a) == a[0] as int + b64 * a1);
    assert(limbs4_value(b) == b[0] as int + b64 * b1);
    lemma_split(a[0] as int, a1);
    lemma_split(b[0] as int, b1);
    lemma_split(a[1] as int, a2);
    lemma_split(b[1] as int, b2);
    lemma_split(a[2] as int, a[3] as int);
    lemma_split(b[2] as int, b[3] as int);
    assert(a@ =~= b@);
}

/// Six limbs hold one integer only.
pub proof fn lemma_limbs6_injective(a: [u64; 6], b: [u64; 6])
    requires
        limbs6_value(a) == limbs6_value(b),
    ensures
        a == b,
{
    let b64 = 0x1_0000_0000_0000_0000int;
    let a4 = a[4] as int + b64 * a[5] as int;
    let a3 = a[3] as int + b64 * a4;
    let a2 = a[2] as int + b64 * a3;
    let a1 = a[1] as int + b64 * a2;
    let b4 = b[4] as int + b64 * b[5] as int;
    let b3 = b[3] as int + b64 * b4;
    let b2 = b[2] as int + b64 * b3;
    let b1 = b[1] as int + b64 * b2;
    assert(limbs6_value(a) == a[0] as int + b64 * a1);
    assert(limbs6_value(b) == b[0] as int + b64 * b1);
    lemma_split(a[0] as int, a1);
    lemma_split(b[0] as int, b1);
    lemma_split(a[1] as int, a2);
    lemma_split(b[1] as int, b2);
    lemma_split(a[2] as int, a3);
    lemma_split(b[2] as int, b3);
    lemma_split(a[3] as int, a4);
    lemma_split(b[3] as int, b4);
    lemma_split(a[4] as int, a[5] as int);
    lemma_split(b[4] as int, b[5] as int);
    assert(a@ =~= b@);
}

/// Every integer below `2^256` is held by its four limbs.
pub proof fn lemma_limbs4_of(x: int) -> (l: [u64; 4])
    requires
        0 <= x < 0x1_0000_0000_0000_0000_0000_0000_0000_0000_0000_0000_0000_0000_0000_0000_0000_0000,
    ensures
        limbs4_value(l) == x,
{
    let b = 0x1_0000_0000_0000_0000int;
    let x1 = x / b;
    let x2 = x1 / b;
    let x3 = x2 / b;
    let l = [(x % b) as u64, (x1 % b) as u64, (x2 % b) as u64, (x3 % b) as u64];
    assert(x == (x % b) + b * x1);
    assert(x1 == (x1 % b) + b * x2);
    assert(x2 == (x2 % b) + b * x3);
    assert(x3 < b);
    l
}

/// Every integer below `2^384` is held by its six limbs.
pub proof fn lemma_limbs6_of(x: int) -> (l: [u64; 6])
    requires
        0 <= x
            < 0x1_0000_0000_0000_0000_0000_0000_0000_0000_0000_0000_0000_0000_0000_0000_0000_0000_0000_0000_0000_0000_0000_0000_0000_0000,
    ensures
        limbs6_value(l) == x,
{
    let b = 0x1_0000_0000_0000_0000int;
    let x1 = x / b;
    let x2 = x1 / b;
    let x3 = x2 / b;
    let x4 = x3 / b;
    let x5 = x4 / b;
    let l = [
        (x % b) as u64,
        (x1 % b) as u64,
        (x2 % b) as u64,
        (x3 % b) as u64,
        (x4 % b) as u64,
        (x5 % b) as u64,
    ];
    assert(x == (x % b) + b * x1);
    assert(x1 == (x1 % b) + b * x2);
    assert(x2 == (x2 % b) + b * x3);
    assert(x3 == (x3 % b) + b * x4);
    assert(x4 == (x4 % b) + b * x5);
    assert(x5 < b);
    l
}

} // verus!
