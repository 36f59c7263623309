//! The three published AEAD parameter sets.
//!
//! A parameter set binds together the rate (bytes absorbed per permutation
//! call), the initialization vector and the key size. Initialization and
//! finalization always run 12 rounds; between blocks the 8-byte-rate sets run
//! 6 rounds and the 16-byte-rate set runs 8.

use vstd::prelude::*;

verus! {

/// Parameters for Ascon-128: 8-byte rate, 16-byte key.
pub struct Parameters128;

impl Parameters128 {
    /// Number of bytes processed per permutation call.
    pub fn count() -> (r: usize)
        ensures
            r == 8,
    {
        8
    }

    /// Initialization vector of the parameter set.
    pub fn iv() -> (r: u64)
        ensures
            r == 0x80400c0600000000u64,
    {
        0x80400c0600000000
    }

    /// Size of the secret key in bytes.
    pub fn key_size() -> (r: usize)
        ensures
            r == 16,
    {
        16
    }
}

/// Parameters for Ascon-128a: 16-byte rate, 16-byte key.
pub struct Parameters128a;

impl Parameters128a {
    /// Number of bytes processed per permutation call.
    pub fn count() -> (r: usize)
        ensures
            r == 16,
    {
        16
    }

    /// Initialization vector of the parameter set.
    pub fn iv() -> (r: u64)
        ensures
            r == 0x80800c0800000000u64,
    {
        0x80800c0800000000
    }

    /// Size of the secret key in bytes.
    pub fn key_size() -> (r: usize)
        ensures
            r == 16,
    {
        16
    }
}

/// Parameters for Ascon-80pq: 8-byte rate, 20-byte key.
pub struct Parameters80pq;

impl Parameters80pq {
    /// Number of bytes processed per permutation call.
    pub fn count() -> (r: usize)
        ensures
            r == 8,
    {
        8
    }

    /// Initialization vector of the parameter set.
    pub fn iv() -> (r: u64)
        ensures
            r == 0xa0400c0600000000u64,
    {
        0xa0400c0600000000
    }

    /// Size of the secret key in bytes.
    pub fn key_size() -> (r: usize)
        ensures
            r == 20,
    {
        20
    }
}

} // verus!
