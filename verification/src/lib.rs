//! Verified implementation of the Ascon family of lightweight cryptographic
//! primitives: the 320-bit permutation, the authenticated encryption schemes
//! Ascon-128, Ascon-128a and Ascon-80pq built on it, and the Ascon-Hash256 /
//! Ascon-XOF128 sponge hash functions.

pub mod aead;
pub mod hash;
pub mod key;
pub mod params;
pub mod permutation;
pub mod words;
