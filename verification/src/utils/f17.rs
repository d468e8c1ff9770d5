//! The field of 17 elements, small enough to check results by hand.

use crate::field::PrimeField;
use crate::modular::{is_inverse_mod, is_prime, is_unit_mod, lemma_prime_units};
use crate::utils::limbs::words_value;
use vstd::prelude::*;

verus! {

/// The parameters of the field `F17`.
pub struct F17Config;

impl F17Config {
    /// The number of elements of the field.
    pub const MODULUS: u64 = 17;

    /// A generator of the multiplicative group of the field.
    pub const GENERATOR: u64 = 3;
}

/// An element of the field `Z/17`, held as its representative in `0..17`.
#[derive(Clone, Copy, Debug, PartialEq, Eq, Hash)]
pub struct F17 {
    repr: u64,
}

/// The inverse of `a` in `Z/17`, for `a` in `1..17`.
pub open spec fn f17_inverse(a: int) -> int {
    if a == 1 {
        1
    } else if a == 2 {
        9
    } else if a == 3 {
        6
    } else if a == 4 {
        13
    } else if a == 5 {
        7
    } else if a == 6 {
        3
    } else if a == 7 {
        5
    } else if a == 8 {
        15
    } else if a == 9 {
        2
    } else if a == 10 {
        12
    } else if a == 11 {
        14
    } else if a == 12 {
        10
    } else if a == 13 {
        4
    } else if a == 14 {
        11
    } else if a == 15 {
        8
    } else {
        16
    }
}

/// The table above gives the inverses.
pub proof fn lemma_f17_inverse(a: int)
    requires
        0 < a < 17,
    ensures
        is_inverse_mod(a, f17_inverse(a), 17),
{
}

/// 17 is prime.
pub proof fn lemma_f17_prime()
    ensures
        is_prime(17),
{
    assert forall|d: int| 1 < d < 17 implies #[trigger] (17int % d) != 0 by {
        if d == 2 {
        } else if d == 3 {
        } else if d == 4 {
        } else if d == 5 {
        } else if d == 6 {
        } else if d == 7 {
        } else if d == 8 {
        } else if d == 9 {
        } else if d == 10 {
        } else if d == 11 {
        } else if d == 12 {
        } else if d == 13 {
        } else if d == 14 {
        } else if d == 15 {
        } else {
        }
    }
}

impl F17 {
    /// The residue of `x`.
    pub fn new(x: u64) -> (r: Self)
        ensures
            r.is_canonical(),
            r.value() == x as int % 17,
    {
        F17 { repr: x % 17 }
    }

    /// The representative of the element, in `0..17`.
    pub fn to_u64(&self) -> (x: u64)
        requires
            self.is_canonical(),
        ensures
            x as int == self.value(),
    {
        self.repr
    }
}

impl PrimeField for F17 {
    open spec fn modulus() -> int {
        17
    }

    closed spec fn value(&self) -> int {
        self.repr as int
    }

    closed spec fn is_canonical(&self) -> bool {
        self.repr < 17
    }

    proof fn lemma_modulus() {
    }

    proof fn lemma_value_range(a: Self) {
    }

    proof fn lemma_value_injective(a: Self, b: Self) {
    }

    proof fn lemma_value_surjective(x: int) -> (a: Self) {
        F17 { repr: x as u64 }
    }

    open spec fn num_limbs() -> nat {
        1
    }

    fn limbs() -> (r: usize) {
        1
    }

    fn from_words(words: &[u64]) -> (r: Option<Self>) {
        if words.len() != 1 {
            return None;
        }
        proof {
            assert(words@.drop_first().len() == 0);
            assert(words_value(words@) == words@[0] as int + 0x1_0000_0000_0000_0000
                * words_value(words@.drop_first()));
        }
        if words[0] < 17 {
            Some(F17 { repr: words[0] })
        } else {
            None
        }
    }

    fn field_zero() -> (r: Self) {
        F17 { repr: 0 }
    }

    fn one() -> (r: Self) {
        F17 { repr: 1 }
    }

    fn from_u128(x: u128) -> (r: Self) {
        F17 { repr: (x % 17) as u64 }
    }

    fn field_is_zero(&self) -> (b: bool) {
        self.repr == 0
    }

    fn field_add(&self, rhs: &Self) -> (r: Self) {
        F17 { repr: (self.repr + rhs.repr) % 17 }
    }

    fn field_sub(&self, rhs: &Self) -> (r: Self) {
        F17 { repr: (self.repr + 17 - rhs.repr) % 17 }
    }

    fn field_neg(&self) -> (r: Self) {
        F17 { repr: (17 - self.repr) % 17 }
    }

    fn field_mul(&self, rhs: &Self) -> (r: Self) {
        assert(self.repr * rhs.repr <= 16 * 16) by (nonlinear_arith)
            requires
                self.repr <= 16,
                rhs.repr <= 16,
        ;
        F17 { repr: (self.repr * rhs.repr) % 17 }
    }

    fn inverse(&self) -> (r: Self) {
        proof {
            lemma_f17_inverse(self.repr as int);
        }
        let a = self.repr;
        let i: u64 = if a == 1 {
            1
        } else if a == 2 {
            9
        } else if a == 3 {
            6
        } else if a == 4 {
            13
        } else if a == 5 {
            7
        } else if a == 6 {
            3
        } else if a == 7 {
            5
        } else if a == 8 {
            15
        } else if a == 9 {
            2
        } else if a == 10 {
            12
        } else if a == 11 {
            14
        } else if a == 12 {
            10
        } else if a == 13 {
            4
        } else if a == 14 {
            11
        } else if a == 15 {
            8
        } else {
            16
        };
        F17 { repr: i }
    }
}

/// In `Z/17` every nonzero residue has an inverse.
pub proof fn lemma_f17_units(a: int)
    requires
        0 < a < 17,
    ensures
        is_unit_mod(a, 17),
{
    lemma_f17_prime();
    lemma_prime_units(a, 17);
}

} // verus!
