//! The stored form of cosets and of towers of isogenies.
//!
//! A coset is stored as its elements one after the other, and an element as
//! the 64-bit words of its representative, least significant word first,
//! each word as eight bytes, least significant byte first. A tower of
//! isogenies is stored as a sequence of elements in the same way; each
//! isogeny takes eleven of them: three coefficients of the numerator of the
//! map on `x`, two of its denominator, three of the numerator of the map on
//! `y` and three of its denominator, each from the constant coefficient up.

use crate::field::{elem, lemma_elem_of_value, PrimeField};
use crate::group_laws::all_canonical;
use crate::utils::isogeny::Isogeny;
use crate::utils::limbs::words_value;
use vstd::arithmetic::mul::{lemma_mul_inequality, lemma_mul_is_distributive_add_other_way};
use vstd::prelude::*;
use vstd::slice::slice_subrange;

verus! {

/// The 64-bit word that the eight bytes from `8 * i` on hold.
pub open spec fn le_word(bytes: Seq<u8>, i: int) -> int {
    bytes[8 * i] as int + bytes[8 * i + 1] as int * 0x100 + bytes[8 * i + 2] as int * 0x1_0000
        + bytes[8 * i + 3] as int * 0x100_0000 + bytes[8 * i + 4] as int * 0x1_0000_0000 + bytes[8
        * i + 5] as int * 0x100_0000_0000 + bytes[8 * i + 6] as int * 0x1_0000_0000_0000 + bytes[8
        * i + 7] as int * 0x100_0000_0000_0000
}

/// The words that a sequence of bytes holds.
pub open spec fn blob_words(bytes: Seq<u8>) -> Seq<u64> {
    Seq::new((bytes.len() / 8) as nat, |i: int| le_word(bytes, i) as u64)
}

/// The words of element `i`, for elements of `limbs` words.
pub open spec fn element_words(words: Seq<u64>, limbs: int, i: int) -> Seq<u64> {
    words.subrange(i * limbs, i * limbs + limbs)
}

/// The bytes are the stored form of a sequence of elements of `F`: they
/// make whole words, the words make whole elements, and each element's
/// words hold an integer below the modulus.
pub open spec fn blob_decodable<F: PrimeField>(bytes: Seq<u8>) -> bool {
    let words = blob_words(bytes);
    let limbs = F::num_limbs() as int;
    &&& bytes.len() % 8 == 0
    &&& (words.len() as int) % limbs == 0
    &&& forall|i: int|
        0 <= i < (words.len() as int) / limbs ==> words_value(#[trigger] element_words(words, limbs, i))
            < F::modulus()
}

/// The elements of `F` of which the bytes are the stored form.
pub open spec fn blob_elements<F: PrimeField>(bytes: Seq<u8>) -> Seq<F> {
    let words = blob_words(bytes);
    let limbs = F::num_limbs() as int;
    Seq::new(
        ((words.len() as int) / limbs) as nat,
        |i: int| elem::<F>(words_value(element_words(words, limbs, i))),
    )
}

/// Reads the words that the bytes hold, if the bytes make whole words.
pub fn read_words(bytes: &[u8]) -> (r: Option<Vec<u64>>)
    ensures
        r.is_some() == (bytes@.len() % 8 == 0),
        r.is_some() ==> r.unwrap()@ == blob_words(bytes@),
{
    let n = bytes.len();
    if n % 8 != 0 {
        return None;
    }
    let count = n / 8;
    let mut words: Vec<u64> = Vec::with_capacity(count);
    let mut i: usize = 0;
    while i < count
        invariant
            n == bytes@.len(),
            n % 8 == 0,
            count == n / 8,
            i <= count,
            words@.len() == i,
            forall|k: int| 0 <= k < i ==> words@[k] as int == le_word(bytes@, k),
        decreases count - i,
    {
        let b = 8 * i;
        let w: u64 = bytes[b] as u64 + bytes[b + 1] as u64 * 0x100 + bytes[b + 2] as u64
            * 0x1_0000 + bytes[b + 3] as u64 * 0x100_0000 + bytes[b + 4] as u64 * 0x1_0000_0000
            + bytes[b + 5] as u64 * 0x100_0000_0000 + bytes[b + 6] as u64 * 0x1_0000_0000_0000
            + bytes[b + 7] as u64 * 0x100_0000_0000_0000;
        words.push(w);
        i = i + 1;
    }
    proof {
        assert(words@ =~= blob_words(bytes@));
    }
    Some(words)
}

/// Reads the elements of which the bytes are the stored form, if they are
/// the stored form of any.
pub fn read_elements<F: PrimeField>(bytes: &[u8]) -> (r: Option<Vec<F>>)
    ensures
        r.is_some() == blob_decodable::<F>(bytes@),
        r.is_some() ==> r.unwrap()@ == blob_elements::<F>(bytes@) && all_canonical(r.unwrap()@),
{
    let words = match read_words(bytes) {
        Some(words) => words,
        None => {
            return None;
        },
    };
    let limbs = F::limbs();
    if words.len() % limbs != 0 {
        return None;
    }
    let total = words.len();
    let count = total / limbs;
    let ghost spec = blob_elements::<F>(bytes@);
    let mut elements: Vec<F> = Vec::with_capacity(count);
    let mut i: usize = 0;
    let mut start: usize = 0;
    proof {
        vstd::arithmetic::div_mod::lemma_fundamental_div_mod(words@.len() as int, limbs as int);
        assert(limbs * count == count * limbs) by (nonlinear_arith);
    }
    while i < count
        invariant
            words@ == blob_words(bytes@),
            bytes@.len() % 8 == 0,
            limbs == F::num_limbs(),
            limbs >= 1,
            (words@.len() as int) % (limbs as int) == 0,
            count == (words@.len() as int) / (limbs as int),
            count * limbs == words@.len(),
            total == words@.len(),
            spec == blob_elements::<F>(bytes@),
            i <= count,
            start == i * limbs,
            elements@.len() == i,
            all_canonical(elements@),
            forall|k: int| 0 <= k < i ==> #[trigger] elements@[k] == spec[k],
            forall|k: int|
                0 <= k < i ==> words_value(#[trigger] element_words(words@, limbs as int, k))
                    < F::modulus(),
        decreases count - i,
    {
        proof {
            lemma_mul_inequality(i + 1, count as int, limbs as int);
            lemma_mul_is_distributive_add_other_way(limbs as int, i as int, 1);
            assert(1 * limbs == limbs);
            assert((i + 1) * limbs == i * limbs + limbs);
            assert(start + limbs <= words@.len());
        }
        let chunk = slice_subrange(words.as_slice(), start, start + limbs);
        assert(chunk@ == element_words(words@, limbs as int, i as int));
        match F::from_words(chunk) {
            Some(x) => {
                proof {
                    lemma_elem_of_value(x);
                }
                elements.push(x);
            },
            None => {
                return None;
            },
        }
        i = i + 1;
        start = start + limbs;
    }
    proof {
        assert(elements@ =~= spec);
    }
    Some(elements)
}

/// Isogeny `i` of those that the elements make.
pub open spec fn isogeny_matches<F: PrimeField>(iso: Isogeny<F>, elements: Seq<F>, i: int) -> bool {
    &&& iso.x_numerator@ == elements.subrange(11 * i, 11 * i + 3)
    &&& iso.x_denominator@ == elements.subrange(11 * i + 3, 11 * i + 5)
    &&& iso.y_numerator@ == elements.subrange(11 * i + 5, 11 * i + 8)
    &&& iso.y_denominator@ == elements.subrange(11 * i + 8, 11 * i + 11)
}

/// Reads the isogenies of which the bytes are the stored form, if they
/// are the stored form of any.
pub fn read_isogenies<F: PrimeField>(bytes: &[u8]) -> (r: Option<Vec<Isogeny<F>>>)
    ensures
        r.is_some() == (blob_decodable::<F>(bytes@) && blob_elements::<F>(bytes@).len() % 11
            == 0),
        r.is_some() ==> {
            let isogenies = r.unwrap()@;
            &&& isogenies.len() == blob_elements::<F>(bytes@).len() / 11
            &&& forall|i: int|
                0 <= i < isogenies.len() ==> (#[trigger] isogenies[i]).wf() && isogeny_matches(
                    isogenies[i],
                    blob_elements::<F>(bytes@),
                    i,
                )
        },
{
    let elements = match read_elements::<F>(bytes) {
        Some(elements) => elements,
        None => {
            return None;
        },
    };
    let total = elements.len();
    if total % 11 != 0 {
        return None;
    }
    let count = total / 11;
    let mut isogenies: Vec<Isogeny<F>> = Vec::with_capacity(count);
    let mut i: usize = 0;
    while i < count
        invariant
            elements@ == blob_elements::<F>(bytes@),
            all_canonical(elements@),
            total == elements@.len(),
            total % 11 == 0,
            count == total / 11,
            i <= count,
            isogenies@.len() == i,
            forall|k: int|
                0 <= k < i ==> (#[trigger] isogenies@[k]).wf() && isogeny_matches(
                    isogenies@[k],
                    elements@,
                    k,
                ),
        decreases count - i,
    {
        let b = 11 * i;
        let iso = Isogeny {
            x_numerator: vec![elements[b], elements[b + 1], elements[b + 2]],
            x_denominator: vec![elements[b + 3], elements[b + 4]],
            y_numerator: vec![elements[b + 5], elements[b + 6], elements[b + 7]],
            y_denominator: vec![elements[b + 8], elements[b + 9], elements[b + 10]],
        };
        proof {
            assert(iso.x_numerator@ =~= elements@.subrange(11 * i, 11 * i + 3));
            assert(iso.x_denominator@ =~= elements@.subrange(11 * i + 3, 11 * i + 5));
            assert(iso.y_numerator@ =~= elements@.subrange(11 * i + 5, 11 * i + 8));
            assert(iso.y_denominator@ =~= elements@.subrange(11 * i + 8, 11 * i + 11));
        }
        isogenies.push(iso);
        i = i + 1;
    }
    Some(isogenies)
}

} // verus!
