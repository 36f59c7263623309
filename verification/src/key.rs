//! Internal key representations.
//!
//! A 16-byte key decodes into two big-endian words; a 20-byte key decodes into
//! a 32-bit head word and two 64-bit words. The two 20-byte layouts differ only
//! in which fields hold which words; both expose the same three key words.

use vstd::prelude::*;

use crate::words::{be_word, be_word32, load_be, load_be32};

verus! {

/// Uniform access to the three key words `k0`, `k1`, `k2` of an internal key.
///
/// For 16-byte keys `k0` is zero; for 20-byte keys it holds the first four key
/// bytes.
pub trait InternalKey {
    /// The first key word (zero for 16-byte keys).
    spec fn k0(&self) -> u64;

    /// The second key word.
    spec fn k1(&self) -> u64;

    /// The third key word.
    spec fn k2(&self) -> u64;

    /// Return K0.
    fn get_k0(&self) -> (r: u64)
        ensures
            r == self.k0(),
    ;

    /// Return K1.
    fn get_k1(&self) -> (r: u64)
        ensures
            r == self.k1(),
    ;

    /// Return K2.
    fn get_k2(&self) -> (r: u64)
        ensures
            r == self.k2(),
    ;
}

/// A 16-byte key, held as two big-endian words.
#[derive(Clone, Copy, PartialEq, Eq, Structural, Debug)]
pub struct InternalKey16(pub u64, pub u64);

impl InternalKey16 {
    /// Decode a 16-byte key.
    pub fn from_bytes(key: &[u8]) -> (r: Self)
        requires
            key@.len() == 16,
        ensures
            r.0 == be_word(key@.subrange(0, 8)),
            r.1 == be_word(key@.subrange(8, 16)),
    {
        InternalKey16(load_be(key, 0), load_be(key, 8))
    }

    /// Overwrite the key words with zeros.
    pub fn wipe(&mut self)
        ensures
            *final(self) == InternalKey16(0, 0),
    {
        self.0 = 0;
        self.1 = 0;
    }
}

impl InternalKey for InternalKey16 {
    open spec fn k0(&self) -> u64 {
        0
    }

    open spec fn k1(&self) -> u64 {
        self.0
    }

    open spec fn k2(&self) -> u64 {
        self.1
    }

    fn get_k0(&self) -> u64 {
        0
    }

    fn get_k1(&self) -> u64 {
        self.0
    }

    fn get_k2(&self) -> u64 {
        self.1
    }
}

/// A 20-byte key: the two tail words first, then the 32-bit head word.
#[derive(Clone, Copy, PartialEq, Eq, Structural, Debug)]
pub struct InternalKey20(pub u64, pub u64, pub u32);

impl InternalKey20 {
    /// Decode a 20-byte key.
    pub fn from_bytes(key: &[u8]) -> (r: Self)
        requires
            key@.len() == 20,
        ensures
            r.0 == be_word(key@.subrange(4, 12)),
            r.1 == be_word(key@.subrange(12, 20)),
            r.2 == be_word32(key@.subrange(0, 4)),
    {
        InternalKey20(load_be(key, 4), load_be(key, 12), load_be32(key, 0))
    }

    /// Overwrite the key words with zeros.
    pub fn wipe(&mut self)
        ensures
            *final(self) == InternalKey20(0, 0, 0),
    {
        self.0 = 0;
        self.1 = 0;
        self.2 = 0;
    }
}

impl InternalKey for InternalKey20 {
    open spec fn k0(&self) -> u64 {
        self.2 as u64
    }

    open spec fn k1(&self) -> u64 {
        self.0
    }

    open spec fn k2(&self) -> u64 {
        self.1
    }

    fn get_k0(&self) -> u64 {
        self.2 as u64
    }

    fn get_k1(&self) -> u64 {
        self.0
    }

    fn get_k2(&self) -> u64 {
        self.1
    }
}

/// A 20-byte key in head-word-first order: `k0`, then `k1` and `k2`.
#[derive(Clone, Copy, PartialEq, Eq, Structural, Debug)]
pub struct InternalKey24(pub u64, pub u64, pub u64);

impl InternalKey24 {
    /// Decode a 20-byte key.
    pub fn from_bytes(key: &[u8]) -> (r: Self)
        requires
            key@.len() == 20,
        ensures
            r.0 == be_word32(key@.subrange(0, 4)) as u64,
            r.1 == be_word(key@.subrange(4, 12)),
            r.2 == be_word(key@.subrange(12, 20)),
    {
        InternalKey24(load_be32(key, 0) as u64, load_be(key, 4), load_be(key, 12))
    }

    /// Overwrite the key words with zeros.
    pub fn wipe(&mut self)
        ensures
            *final(self) == InternalKey24(0, 0, 0),
    {
        self.0 = 0;
        self.1 = 0;
        self.2 = 0;
    }
}

impl InternalKey for InternalKey24 {
    open spec fn k0(&self) -> u64 {
        self.0
    }

    open spec fn k1(&self) -> u64 {
        self.1
    }

    open spec fn k2(&self) -> u64 {
        self.2
    }

    fn get_k0(&self) -> u64 {
        self.0
    }

    fn get_k1(&self) -> u64 {
        self.1
    }

    fn get_k2(&self) -> u64 {
        self.2
    }
}

} // verus!
