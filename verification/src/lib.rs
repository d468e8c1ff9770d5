//! Polynomial evaluation over groups: dense polynomials with coefficients in
//! an abelian group, Vandermonde products, and the elliptic-curve FFT.
//!
//! The coefficients of a polynomial lie in a group on which a prime field
//! acts ([`my_group::MyGroup`]); the points at which it is evaluated lie in
//! that field ([`field::PrimeField`]). Every prime field is such a group
//! over itself. The library is verified for every group that obeys the laws
//! which the trait states.
//!
//! - [`modular`]: the arithmetic of `Z/p`, by which the fields are specified.
//! - [`field`], [`my_group`], [`group_laws`]: fields, groups, and what
//!   follows from the laws of a group.
//! - [`group_polynomial`], [`polynomial_laws`]: polynomials in coefficient
//!   form, their evaluation at a point, and their algebra.
//! - [`vandermonde`]: products of a vector by a Vandermonde matrix.
//! - [`ecfft`]: the elliptic-curve FFT, which evaluates a polynomial on a
//!   coset of points of an elliptic curve.
//! - [`bn254`], [`bls12_381`], [`curve25519`], [`ed25519sc`]: the fields of
//!   the parameter sets, and the parameter sets.
//! - [`utils`]: the field of 17 elements, 2x2 matrices, isogenies.
//!
//! What is taken on trust and not proved: the arithmetic of the four large
//! fields is that of the crate `ark-ff`, and each of its operations is
//! taken to compute the operation of `Z/p` that its contract names. That
//! the modulus of a field is prime is proved of the field of 17 elements
//! only; what holds over a field alone says so, and takes the primality of
//! the modulus for a hypothesis.

pub mod bls12_381;
pub mod bn254;
pub mod curve25519;
pub mod ecfft;
pub mod ed25519sc;
pub mod field;
pub mod group_laws;
pub mod group_polynomial;
pub mod modular;
pub mod my_group;
pub mod polynomial_laws;
pub mod utils;
pub mod vandermonde;
