//! Authenticated encryption with associated data.
//!
//! A [`Core`] drives one encryption or decryption: the state is initialized
//! from IV, key and nonce, associated data and message are absorbed block by
//! block at the parameter set's rate, and finalization mixes the key back in
//! and reads the 16-byte tag. [`Ascon`] holds a decoded key together with the
//! parameter-set constants and runs a fresh `Core` per call.

use vstd::prelude::*;

use crate::key::{InternalKey, InternalKey16, InternalKey20};
use crate::params::{Parameters128, Parameters128a, Parameters80pq};
use crate::permutation::{spec_permute_12, spec_permute_6, spec_permute_8, State};
use crate::words::{
    be_byte, be_bytes_of, byte_or_zero, be_word, keyrot, load_be, load_be_partial, pad, spec_clear,
    spec_keyrot, spec_pad, store_be, store_be_partial, zero_vec,
};

verus! {

/// Errors of the AEAD operations.
#[derive(Clone, Copy, PartialEq, Eq, Structural, Debug)]
pub enum Error {
    /// The computed tag does not match the supplied tag.
    AuthenticationFailure,
    /// Combined message and associated-data length would overflow the length
    /// counter.
    LengthOverflow,
}

/// The initial state: IV and key words, nonce words, a 12-round permutation,
/// and the key XORed back into the tail words.
pub open spec fn spec_init(
    iv: u64,
    key_size: int,
    k0: u64,
    k1: u64,
    k2: u64,
    nonce: Seq<u8>,
) -> State
    recommends
        nonce.len() == 16,
{
    let s0 = State {
        x0: if key_size == 20 {
            iv ^ k0
        } else {
            iv
        },
        x1: k1,
        x2: k2,
        x3: be_word(nonce.subrange(0, 8)),
        x4: be_word(nonce.subrange(8, 16)),
    };
    let s1 = spec_permute_12(s0);
    State {
        x0: s1.x0,
        x1: s1.x1,
        x2: if key_size == 20 {
            s1.x2 ^ k0
        } else {
            s1.x2
        },
        x3: s1.x3 ^ k1,
        x4: s1.x4 ^ k2,
    }
}

/// The inter-block permutation of a parameter set: 6 rounds at the 8-byte
/// rate, 8 rounds at the 16-byte rate.
pub open spec fn spec_permute_rate(s: State, count: int) -> State {
    if count == 8 {
        spec_permute_6(s)
    } else {
        spec_permute_8(s)
    }
}

/// Absorption of non-empty associated data: full blocks XORed into the rate
/// words with a permutation after each, then the padded trailing block.
pub open spec fn spec_absorb_ad(s: State, count: int, ad: Seq<u8>) -> State
    recommends
        count == 8 || count == 16,
    decreases ad.len(),
{
    if (count == 8 || count == 16) && ad.len() >= count {
        let s1 = State {
            x0: s.x0 ^ be_word(ad.subrange(0, 8)),
            x1: if count == 16 {
                s.x1 ^ be_word(ad.subrange(8, 16))
            } else {
                s.x1
            },
            x2: s.x2,
            x3: s.x3,
            x4: s.x4,
        };
        spec_absorb_ad(spec_permute_rate(s1, count), count, ad.skip(count))
    } else if count == 16 && ad.len() >= 8 {
        let n = ad.len() - 8;
        let s1 = State {
            x0: s.x0 ^ be_word(ad.subrange(0, 8)),
            x1: s.x1 ^ spec_pad(n) ^ be_word(ad.skip(8)),
            x2: s.x2,
            x3: s.x3,
            x4: s.x4,
        };
        spec_permute_rate(s1, count)
    } else {
        let n = ad.len() as int;
        let s1 = State {
            x0: s.x0 ^ spec_pad(n) ^ be_word(ad),
            x1: s.x1,
            x2: s.x2,
            x3: s.x3,
            x4: s.x4,
        };
        spec_permute_rate(s1, count)
    }
}

/// Associated-data phase: absorb the data unless it is empty, then flip the
/// domain-separation bit in the last word.
pub open spec fn spec_process_ad(s: State, count: int, ad: Seq<u8>) -> State {
    let s1 = if ad.len() == 0 {
        s
    } else {
        spec_absorb_ad(s, count, ad)
    };
    State { x0: s1.x0, x1: s1.x1, x2: s1.x2, x3: s1.x3, x4: s1.x4 ^ 1 }
}

/// Encryption of the message: per full block, plaintext is XORed into the
/// rate words, the mixed words leave as ciphertext, and the state is
/// permuted; the padded final partial block leaves without a permutation.
/// Returns the final state and the ciphertext.
pub open spec fn spec_encrypt_blocks(s: State, count: int, pt: Seq<u8>) -> (State, Seq<u8>)
    recommends
        count == 8 || count == 16,
    decreases pt.len(),
{
    if (count == 8 || count == 16) && pt.len() >= count {
        let w0 = s.x0 ^ be_word(pt.subrange(0, 8));
        if count == 16 {
            let w1 = s.x1 ^ be_word(pt.subrange(8, 16));
            let s1 = State { x0: w0, x1: w1, x2: s.x2, x3: s.x3, x4: s.x4 };
            let r = spec_encrypt_blocks(spec_permute_rate(s1, count), count, pt.skip(16));
            (r.0, be_bytes_of(w0) + be_bytes_of(w1) + r.1)
        } else {
            let s1 = State { x0: w0, x1: s.x1, x2: s.x2, x3: s.x3, x4: s.x4 };
            let r = spec_encrypt_blocks(spec_permute_rate(s1, count), count, pt.skip(8));
            (r.0, be_bytes_of(w0) + r.1)
        }
    } else if count == 16 && pt.len() >= 8 {
        let w0 = s.x0 ^ be_word(pt.subrange(0, 8));
        let n = pt.len() - 8;
        let w1 = s.x1 ^ spec_pad(n) ^ be_word(pt.skip(8));
        (
            State { x0: w0, x1: w1, x2: s.x2, x3: s.x3, x4: s.x4 },
            be_bytes_of(w0) + be_bytes_of(w1).take(n),
        )
    } else {
        let n = pt.len() as int;
        let w0 = s.x0 ^ spec_pad(n) ^ be_word(pt);
        (State { x0: w0, x1: s.x1, x2: s.x2, x3: s.x3, x4: s.x4 }, be_bytes_of(w0).take(n))
    }
}

/// Decryption of the ciphertext: the mirror of encryption. Per block the
/// plaintext is the XOR of state and ciphertext words, and the state word is
/// replaced by the raw ciphertext word; on the final partial block the bytes
/// beyond the data are kept from the padded state word.
pub open spec fn spec_decrypt_blocks(s: State, count: int, ct: Seq<u8>) -> (State, Seq<u8>)
    recommends
        count == 8 || count == 16,
    decreases ct.len(),
{
    if (count == 8 || count == 16) && ct.len() >= count {
        let c0 = be_word(ct.subrange(0, 8));
        if count == 16 {
            let c1 = be_word(ct.subrange(8, 16));
            let s1 = State { x0: c0, x1: c1, x2: s.x2, x3: s.x3, x4: s.x4 };
            let r = spec_decrypt_blocks(spec_permute_rate(s1, count), count, ct.skip(16));
            (r.0, be_bytes_of(s.x0 ^ c0) + be_bytes_of(s.x1 ^ c1) + r.1)
        } else {
            let s1 = State { x0: c0, x1: s.x1, x2: s.x2, x3: s.x3, x4: s.x4 };
            let r = spec_decrypt_blocks(spec_permute_rate(s1, count), count, ct.skip(8));
            (r.0, be_bytes_of(s.x0 ^ c0) + r.1)
        }
    } else if count == 16 && ct.len() >= 8 {
        let c0 = be_word(ct.subrange(0, 8));
        let n = ct.len() - 8;
        let cx = be_word(ct.skip(8));
        let w1 = s.x1 ^ spec_pad(n) ^ cx;
        let x1f = if n > 0 {
            spec_clear(w1, n) ^ cx
        } else {
            w1
        };
        (
            State { x0: c0, x1: x1f, x2: s.x2, x3: s.x3, x4: s.x4 },
            be_bytes_of(s.x0 ^ c0) + be_bytes_of(w1).take(n),
        )
    } else {
        let n = ct.len() as int;
        let cx = be_word(ct);
        let w0 = s.x0 ^ spec_pad(n) ^ cx;
        let x0f = if n > 0 {
            spec_clear(w0, n) ^ cx
        } else {
            w0
        };
        (State { x0: x0f, x1: s.x1, x2: s.x2, x3: s.x3, x4: s.x4 }, be_bytes_of(w0).take(n))
    }
}

/// Finalization: key words XORed into positions fixed by the parameter set, a
/// 12-round permutation, the key XORed into the last two words, which leave
/// as the 16-byte tag.
pub open spec fn spec_finalize(
    s: State,
    count: int,
    key_size: int,
    k0: u64,
    k1: u64,
    k2: u64,
) -> Seq<u8> {
    let s1 = if key_size == 16 && count == 8 {
        State { x0: s.x0, x1: s.x1 ^ k1, x2: s.x2 ^ k2, x3: s.x3, x4: s.x4 }
    } else if key_size == 16 && count == 16 {
        State { x0: s.x0, x1: s.x1, x2: s.x2 ^ k1, x3: s.x3 ^ k2, x4: s.x4 }
    } else {
        State {
            x0: s.x0,
            x1: s.x1 ^ spec_keyrot(k0, k1),
            x2: s.x2 ^ spec_keyrot(k1, k2),
            x3: s.x3 ^ spec_keyrot(k2, 0),
            x4: s.x4,
        }
    };
    let s2 = spec_permute_12(s1);
    be_bytes_of(s2.x3 ^ k1) + be_bytes_of(s2.x4 ^ k2)
}

/// Core of one encryption or decryption operation: the evolving state and the
/// key and parameter-set constants it was built from.
pub struct Core {
    /// The sponge state.
    pub state: State,
    /// Bytes absorbed per permutation call: 8 or 16.
    pub count: usize,
    /// Key size in bytes: 16 or 20.
    pub key_size: usize,
    /// First key word: zero for 16-byte keys, the four head bytes otherwise.
    pub k0: u64,
    /// Second key word.
    pub k1: u64,
    /// Third key word.
    pub k2: u64,
}

impl Core {
    /// The parameter constants are one of the three published sets' shapes.
    pub open spec fn wf(self) -> bool {
        &&& (self.count == 8 || self.count == 16)
        &&& (self.key_size == 16 || self.key_size == 20)
        &&& (self.key_size == 16 ==> self.k0 == 0)
        &&& self.k0 <= 0xffffffffu64
    }

    /// The ciphertext this core, as freshly constructed, produces for a
    /// message and associated data.
    pub open spec fn spec_ciphertext(self, ad: Seq<u8>, pt: Seq<u8>) -> Seq<u8> {
        spec_encrypt_blocks(
            spec_process_ad(self.state, self.count as int, ad),
            self.count as int,
            pt,
        ).1
    }

    /// The tag this core, as freshly constructed, produces for a message and
    /// associated data.
    pub open spec fn spec_tag(self, ad: Seq<u8>, pt: Seq<u8>) -> Seq<u8> {
        spec_finalize(
            spec_encrypt_blocks(
                spec_process_ad(self.state, self.count as int, ad),
                self.count as int,
                pt,
            ).0,
            self.count as int,
            self.key_size as int,
            self.k0,
            self.k1,
            self.k2,
        )
    }

    /// The plaintext this core, as freshly constructed, recovers from a
    /// ciphertext and associated data (before tag verification).
    pub open spec fn spec_opened(self, ad: Seq<u8>, ct: Seq<u8>) -> Seq<u8> {
        spec_decrypt_blocks(
            spec_process_ad(self.state, self.count as int, ad),
            self.count as int,
            ct,
        ).1
    }

    /// The tag this core, as freshly constructed, recomputes while opening a
    /// ciphertext with associated data.
    pub open spec fn spec_opened_tag(self, ad: Seq<u8>, ct: Seq<u8>) -> Seq<u8> {
        spec_finalize(
            spec_decrypt_blocks(
                spec_process_ad(self.state, self.count as int, ad),
                self.count as int,
                ct,
            ).0,
            self.count as int,
            self.key_size as int,
            self.k0,
            self.k1,
            self.k2,
        )
    }

    /// Build a fresh core for one operation under `cipher`'s key with the
    /// given 16-byte nonce.
    pub fn new(cipher: &Ascon, nonce: &[u8]) -> (r: Core)
        requires
            cipher.wf(),
            nonce@.len() == 16,
        ensures
            r.wf(),
            r.state == spec_init(
                cipher.iv,
                cipher.key_size as int,
                cipher.k0,
                cipher.k1,
                cipher.k2,
                nonce@,
            ),
            r.count == cipher.count,
            r.key_size == cipher.key_size,
            r.k0 == cipher.k0,
            r.k1 == cipher.k1,
            r.k2 == cipher.k2,
    {
        let x0 = if cipher.key_size == 20 {
            cipher.iv ^ cipher.k0
        } else {
            cipher.iv
        };
        let mut state = State::new(x0, cipher.k1, cipher.k2, load_be(nonce, 0), load_be(nonce, 8));
        state.permute_12();
        if cipher.key_size == 20 {
            state.x2 = state.x2 ^ cipher.k0;
        }
        state.x3 = state.x3 ^ cipher.k1;
        state.x4 = state.x4 ^ cipher.k2;
        Core {
            state,
            count: cipher.count,
            key_size: cipher.key_size,
            k0: cipher.k0,
            k1: cipher.k1,
            k2: cipher.k2,
        }
    }

    /// Permutation with 6 or 8 rounds, as the rate demands.
    fn permute_state(&mut self)
        requires
            old(self).wf(),
        ensures
            *final(self) == (Core {
                state: spec_permute_rate(old(self).state, old(self).count as int),
                ..*old(self)
            }),
    {
        if self.count == 8 {
            self.state.permute_6();
        } else {
            self.state.permute_8();
        }
    }

    /// Absorb the associated data and flip the domain-separation bit.
    fn process_associated_data(&mut self, associated_data: &[u8])
        requires
            old(self).wf(),
        ensures
            *final(self) == (Core {
                state: spec_process_ad(
                    old(self).state,
                    old(self).count as int,
                    associated_data@,
                ),
                ..*old(self)
            }),
    {
        let count = self.count;
        let len = associated_data.len();
        if len > 0 {
            let mut idx: usize = 0;
            proof {
                assert(associated_data@.skip(0) =~= associated_data@);
            }
            while len - idx >= count
                invariant
                    old(self).wf(),
                    self.count == old(self).count,
                    self.key_size == old(self).key_size,
                    self.k0 == old(self).k0,
                    self.k1 == old(self).k1,
                    self.k2 == old(self).k2,
                    count == old(self).count,
                    len == associated_data@.len(),
                    idx <= len,
                    spec_absorb_ad(old(self).state, count as int, associated_data@)
                        == spec_absorb_ad(
                        self.state,
                        count as int,
                        associated_data@.skip(idx as int),
                    ),
                decreases len - idx,
            {
                let ghost rem = associated_data@.skip(idx as int);
                self.state.x0 = self.state.x0 ^ load_be(associated_data, idx);
                if count == 16 {
                    self.state.x1 = self.state.x1 ^ load_be(associated_data, idx + 8);
                }
                proof {
                    assert(rem.subrange(0, 8) =~= associated_data@.subrange(
                        idx as int,
                        idx as int + 8,
                    ));
                    if count == 16 {
                        assert(rem.subrange(8, 16) =~= associated_data@.subrange(
                            idx as int + 8,
                            idx as int + 16,
                        ));
                    }
                }
                self.permute_state();
                proof {
                    assert(rem.skip(count as int) =~= associated_data@.skip(
                        idx as int + count as int,
                    ));
                }
                idx = idx + count;
            }
            let rem = len - idx;
            let ghost remseq = associated_data@.skip(idx as int);
            let ghost pre = self.state;
            if count == 16 && rem >= 8 {
                self.state.x0 = self.state.x0 ^ load_be(associated_data, idx);
                let n = rem - 8;
                self.state.x1 = self.state.x1 ^ pad(n);
                self.state.x1 = self.state.x1 ^ load_be_partial(associated_data, idx + 8, n);
                proof {
                    assert(remseq.subrange(0, 8) =~= associated_data@.subrange(
                        idx as int,
                        idx as int + 8,
                    ));
                    assert(remseq.skip(8) =~= associated_data@.subrange(
                        idx as int + 8,
                        idx as int + 8 + n,
                    ));
                }
            } else {
                self.state.x0 = self.state.x0 ^ pad(rem);
                self.state.x0 = self.state.x0 ^ load_be_partial(associated_data, idx, rem);
                proof {
                    assert(remseq =~= associated_data@.subrange(idx as int, idx as int + rem));
                }
            }
            self.permute_state();
            proof {
                assert(spec_absorb_ad(pre, count as int, remseq) == self.state);
            }
        }
        self.state.x4 = self.state.x4 ^ 1;
    }

    /// Encrypt the message in place, block by block.
    #[verifier::rlimit(60)]
    fn process_encrypt_inplace(&mut self, message: &mut Vec<u8>)
        requires
            old(self).wf(),
        ensures
            *final(self) == (Core {
                state: spec_encrypt_blocks(
                    old(self).state,
                    old(self).count as int,
                    old(message)@,
                ).0,
                ..*old(self)
            }),
            final(message)@ == spec_encrypt_blocks(
                old(self).state,
                old(self).count as int,
                old(message)@,
            ).1,
    {
        let count = self.count;
        let len = message.len();
        let mut idx: usize = 0;
        proof {
            assert(old(message)@.skip(0) =~= old(message)@);
            assert(old(message)@.take(0) =~= Seq::<u8>::empty());
            assert(Seq::<u8>::empty() + spec_encrypt_blocks(
                self.state,
                count as int,
                old(message)@,
            ).1 =~= spec_encrypt_blocks(self.state, count as int, old(message)@).1);
        }
        while len - idx >= count
            invariant
                old(self).wf(),
                self.count == old(self).count,
                self.key_size == old(self).key_size,
                self.k0 == old(self).k0,
                self.k1 == old(self).k1,
                self.k2 == old(self).k2,
                count == old(self).count,
                len == old(message)@.len(),
                message@.len() == len,
                idx <= len,
                message@.skip(idx as int) == old(message)@.skip(idx as int),
                spec_encrypt_blocks(old(self).state, count as int, old(message)@).0
                    == spec_encrypt_blocks(
                    self.state,
                    count as int,
                    old(message)@.skip(idx as int),
                ).0,
                spec_encrypt_blocks(old(self).state, count as int, old(message)@).1
                    == message@.take(idx as int) + spec_encrypt_blocks(
                    self.state,
                    count as int,
                    old(message)@.skip(idx as int),
                ).1,
            decreases len - idx,
        {
            let ghost pre_state = self.state;
            let ghost pre_msg = message@;
            let ghost rem = old(message)@.skip(idx as int);
            proof {
                assert(rem.subrange(0, 8) =~= old(message)@.subrange(idx as int, idx as int + 8));
                assert(pre_msg.subrange(idx as int, idx as int + 8) =~= old(message)@.subrange(
                    idx as int,
                    idx as int + 8,
                ));
            }
            let m0 = load_be(message.as_slice(), idx);
            let w0 = self.state.x0 ^ m0;
            self.state.x0 = w0;
            store_be(message, idx, w0);
            if count == 16 {
                proof {
                    assert(rem.subrange(8, 16) =~= old(message)@.subrange(
                        idx as int + 8,
                        idx as int + 16,
                    ));
                    assert(message@.subrange(idx as int + 8, idx as int + 16)
                        =~= old(message)@.subrange(idx as int + 8, idx as int + 16));
                }
                let m1 = load_be(message.as_slice(), idx + 8);
                let w1 = self.state.x1 ^ m1;
                self.state.x1 = w1;
                store_be(message, idx + 8, w1);
                proof {
                    assert(message@.take(idx as int + 16) =~= pre_msg.take(idx as int)
                        + be_bytes_of(w0) + be_bytes_of(w1));
                }
            } else {
                proof {
                    assert(message@.take(idx as int + 8) =~= pre_msg.take(idx as int)
                        + be_bytes_of(w0));
                }
            }
            self.permute_state();
            proof {
                assert(rem.skip(count as int) =~= old(message)@.skip(idx as int + count as int));
                assert(message@.skip(idx as int + count as int) =~= old(message)@.skip(
                    idx as int + count as int,
                ));
            }
            idx = idx + count;
        }
        // the trailing partial block, padded and not followed by a permutation
        let ghost pre_state = self.state;
        let ghost pre_msg = message@;
        let ghost rem0 = old(message)@.skip(idx as int);
        let mut rem = len - idx;
        let sidx_is_1 = count == 16 && rem >= 8;
        if sidx_is_1 {
            proof {
                assert(rem0.subrange(0, 8) =~= old(message)@.subrange(idx as int, idx as int + 8));
                assert(pre_msg.subrange(idx as int, idx as int + 8) =~= old(message)@.subrange(
                    idx as int,
                    idx as int + 8,
                ));
            }
            let m0 = load_be(message.as_slice(), idx);
            let w0 = self.state.x0 ^ m0;
            self.state.x0 = w0;
            store_be(message, idx, w0);
            idx = idx + 8;
            rem = rem - 8;
        }
        let ghost mid_msg = message@;
        let ghost tail = old(message)@.skip(idx as int);
        proof {
            assert(tail =~= old(message)@.subrange(idx as int, idx as int + rem));
            assert(mid_msg.subrange(idx as int, idx as int + rem) =~= old(message)@.subrange(
                idx as int,
                idx as int + rem,
            ));
            if sidx_is_1 {
                assert(tail =~= rem0.skip(8));
            }
        }
        if sidx_is_1 {
            self.state.x1 = self.state.x1 ^ pad(rem);
            if rem > 0 {
                let m1 = load_be_partial(message.as_slice(), idx, rem);
                self.state.x1 = self.state.x1 ^ m1;
                store_be_partial(message, idx, rem, self.state.x1);
            } else {
                proof {
                    crate::words::lemma_xor_zero(self.state.x1);
                    assert(be_word(tail) == 0);
                }
            }
            proof {
                assert(message@ =~= mid_msg.take(idx as int) + be_bytes_of(self.state.x1).take(
                    rem as int,
                ));
                assert(mid_msg.take(idx as int) =~= pre_msg.take(idx as int - 8) + be_bytes_of(
                    self.state.x0,
                ));
            }
        } else {
            self.state.x0 = self.state.x0 ^ pad(rem);
            if rem > 0 {
                let m0 = load_be_partial(message.as_slice(), idx, rem);
                self.state.x0 = self.state.x0 ^ m0;
                store_be_partial(message, idx, rem, self.state.x0);
            } else {
                proof {
                    crate::words::lemma_xor_zero(self.state.x0);
                    assert(be_word(tail) == 0);
                }
            }
            proof {
                assert(message@ =~= pre_msg.take(idx as int) + be_bytes_of(self.state.x0).take(
                    rem as int,
                ));
            }
        }
        proof {
            let r = spec_encrypt_blocks(pre_state, count as int, rem0);
            assert(r.0 == self.state && message@ =~= pre_msg.take(
                old(message)@.len() - rem0.len(),
            ) + r.1);
        }
    }

    /// Decrypt the ciphertext in place, block by block; the state tracks the
    /// ciphertext so the recomputed tag matches encryption's.
    #[verifier::rlimit(60)]
    fn process_decrypt_inplace(&mut self, ciphertext: &mut Vec<u8>)
        requires
            old(self).wf(),
        ensures
            *final(self) == (Core {
                state: spec_decrypt_blocks(
                    old(self).state,
                    old(self).count as int,
                    old(ciphertext)@,
                ).0,
                ..*old(self)
            }),
            final(ciphertext)@ == spec_decrypt_blocks(
                old(self).state,
                old(self).count as int,
                old(ciphertext)@,
            ).1,
    {
        let count = self.count;
        let len = ciphertext.len();
        let mut idx: usize = 0;
        proof {
            assert(old(ciphertext)@.skip(0) =~= old(ciphertext)@);
            assert(old(ciphertext)@.take(0) =~= Seq::<u8>::empty());
            assert(Seq::<u8>::empty() + spec_decrypt_blocks(
                self.state,
                count as int,
                old(ciphertext)@,
            ).1 =~= spec_decrypt_blocks(self.state, count as int, old(ciphertext)@).1);
        }
        while len - idx >= count
            invariant
                old(self).wf(),
                self.count == old(self).count,
                self.key_size == old(self).key_size,
                self.k0 == old(self).k0,
                self.k1 == old(self).k1,
                self.k2 == old(self).k2,
                count == old(self).count,
                len == old(ciphertext)@.len(),
                ciphertext@.len() == len,
                idx <= len,
                ciphertext@.skip(idx as int) == old(ciphertext)@.skip(idx as int),
                spec_decrypt_blocks(old(self).state, count as int, old(ciphertext)@).0
                    == spec_decrypt_blocks(
                    self.state,
                    count as int,
                    old(ciphertext)@.skip(idx as int),
                ).0,
                spec_decrypt_blocks(old(self).state, count as int, old(ciphertext)@).1
                    == ciphertext@.take(idx as int) + spec_decrypt_blocks(
                    self.state,
                    count as int,
                    old(ciphertext)@.skip(idx as int),
                ).1,
            decreases len - idx,
        {
            let ghost pre_state = self.state;
            let ghost pre_ct = ciphertext@;
            let ghost rem = old(ciphertext)@.skip(idx as int);
            proof {
                assert(rem.subrange(0, 8) =~= old(ciphertext)@.subrange(
                    idx as int,
                    idx as int + 8,
                ));
                assert(pre_ct.subrange(idx as int, idx as int + 8) =~= old(ciphertext)@.subrange(
                    idx as int,
                    idx as int + 8,
                ));
            }
            let c0 = load_be(ciphertext.as_slice(), idx);
            let p0 = self.state.x0 ^ c0;
            store_be(ciphertext, idx, p0);
            self.state.x0 = c0;
            if count == 16 {
                proof {
                    assert(rem.subrange(8, 16) =~= old(ciphertext)@.subrange(
                        idx as int + 8,
                        idx as int + 16,
                    ));
                    assert(ciphertext@.subrange(idx as int + 8, idx as int + 16)
                        =~= old(ciphertext)@.subrange(idx as int + 8, idx as int + 16));
                }
                let c1 = load_be(ciphertext.as_slice(), idx + 8);
                let p1 = self.state.x1 ^ c1;
                store_be(ciphertext, idx + 8, p1);
                self.state.x1 = c1;
                proof {
                    assert(ciphertext@.take(idx as int + 16) =~= pre_ct.take(idx as int)
                        + be_bytes_of(p0) + be_bytes_of(p1));
                }
            } else {
                proof {
                    assert(ciphertext@.take(idx as int + 8) =~= pre_ct.take(idx as int)
                        + be_bytes_of(p0));
                }
            }
            self.permute_state();
            proof {
                assert(rem.skip(count as int) =~= old(ciphertext)@.skip(
                    idx as int + count as int,
                ));
                assert(ciphertext@.skip(idx as int + count as int) =~= old(ciphertext)@.skip(
                    idx as int + count as int,
                ));
            }
            idx = idx + count;
        }
        // the trailing partial block: recover the plaintext, then rebuild the
        // state word from the raw ciphertext bytes
        let ghost pre_state = self.state;
        let ghost pre_ct = ciphertext@;
        let ghost rem0 = old(ciphertext)@.skip(idx as int);
        let mut rem = len - idx;
        let sidx_is_1 = count == 16 && rem >= 8;
        if sidx_is_1 {
            proof {
                assert(rem0.subrange(0, 8) =~= old(ciphertext)@.subrange(
                    idx as int,
                    idx as int + 8,
                ));
                assert(pre_ct.subrange(idx as int, idx as int + 8) =~= old(ciphertext)@.subrange(
                    idx as int,
                    idx as int + 8,
                ));
            }
            let c0 = load_be(ciphertext.as_slice(), idx);
            let p0 = self.state.x0 ^ c0;
            store_be(ciphertext, idx, p0);
            self.state.x0 = c0;
            idx = idx + 8;
            rem = rem - 8;
        }
        let ghost mid_ct = ciphertext@;
        let ghost tail = old(ciphertext)@.skip(idx as int);
        proof {
            assert(tail =~= old(ciphertext)@.subrange(idx as int, idx as int + rem));
            assert(mid_ct.subrange(idx as int, idx as int + rem) =~= old(ciphertext)@.subrange(
                idx as int,
                idx as int + rem,
            ));
            if sidx_is_1 {
                assert(tail =~= rem0.skip(8));
            }
        }
        if sidx_is_1 {
            self.state.x1 = self.state.x1 ^ pad(rem);
            if rem > 0 {
                let cx = load_be_partial(ciphertext.as_slice(), idx, rem);
                self.state.x1 = self.state.x1 ^ cx;
                store_be_partial(ciphertext, idx, rem, self.state.x1);
                self.state.x1 = crate::words::clear(self.state.x1, rem) ^ cx;
            } else {
                proof {
                    crate::words::lemma_xor_zero(self.state.x1);
                    assert(be_word(tail) == 0);
                }
            }
            proof {
                let w1 = pre_state.x1 ^ spec_pad(rem as int) ^ be_word(tail);
                assert(ciphertext@ =~= mid_ct.take(idx as int) + be_bytes_of(w1).take(
                    rem as int,
                ));
                assert(mid_ct.take(idx as int) =~= pre_ct.take(idx as int - 8) + be_bytes_of(
                    pre_state.x0 ^ be_word(rem0.subrange(0, 8)),
                ));
            }
        } else {
            self.state.x0 = self.state.x0 ^ pad(rem);
            if rem > 0 {
                let cx = load_be_partial(ciphertext.as_slice(), idx, rem);
                self.state.x0 = self.state.x0 ^ cx;
                store_be_partial(ciphertext, idx, rem, self.state.x0);
                self.state.x0 = crate::words::clear(self.state.x0, rem) ^ cx;
            } else {
                proof {
                    crate::words::lemma_xor_zero(self.state.x0);
                    assert(be_word(tail) == 0);
                }
            }
            proof {
                let w0 = pre_state.x0 ^ spec_pad(rem as int) ^ be_word(tail);
                assert(ciphertext@ =~= pre_ct.take(idx as int) + be_bytes_of(w0).take(
                    rem as int,
                ));
            }
        }
        proof {
            let r = spec_decrypt_blocks(pre_state, count as int, rem0);
            assert(r.0 == self.state && ciphertext@ =~= pre_ct.take(
                old(ciphertext)@.len() - rem0.len(),
            ) + r.1);
        }
    }

    /// Permutation with 12 rounds and application of the key at the end.
    fn permute_12_and_apply_key(&mut self)
        ensures
            *final(self) == (Core {
                state: State {
                    x0: spec_permute_12(old(self).state).x0,
                    x1: spec_permute_12(old(self).state).x1,
                    x2: spec_permute_12(old(self).state).x2,
                    x3: spec_permute_12(old(self).state).x3 ^ old(self).k1,
                    x4: spec_permute_12(old(self).state).x4 ^ old(self).k2,
                },
                ..*old(self)
            }),
    {
        self.state.permute_12();
        self.state.x3 = self.state.x3 ^ self.k1;
        self.state.x4 = self.state.x4 ^ self.k2;
    }

    /// Finalize the state and read the 16-byte tag.
    fn process_final(&mut self) -> (tag: Vec<u8>)
        requires
            old(self).wf(),
        ensures
            tag@ == spec_finalize(
                old(self).state,
                old(self).count as int,
                old(self).key_size as int,
                old(self).k0,
                old(self).k1,
                old(self).k2,
            ),
            tag@.len() == 16,
            final(self).count == old(self).count,
            final(self).key_size == old(self).key_size,
            final(self).k0 == old(self).k0,
            final(self).k1 == old(self).k1,
            final(self).k2 == old(self).k2,
    {
        if self.key_size == 16 && self.count == 8 {
            self.state.x1 = self.state.x1 ^ self.k1;
            self.state.x2 = self.state.x2 ^ self.k2;
        } else if self.key_size == 16 && self.count == 16 {
            self.state.x2 = self.state.x2 ^ self.k1;
            self.state.x3 = self.state.x3 ^ self.k2;
        } else {
            self.state.x1 = self.state.x1 ^ keyrot(self.k0, self.k1);
            self.state.x2 = self.state.x2 ^ keyrot(self.k1, self.k2);
            self.state.x3 = self.state.x3 ^ keyrot(self.k2, 0);
        }

        self.permute_12_and_apply_key();

        let mut tag = zero_vec(16);
        store_be(&mut tag, 0, self.state.x3);
        store_be(&mut tag, 8, self.state.x4);
        proof {
            assert(tag@ =~= be_bytes_of(self.state.x3) + be_bytes_of(self.state.x4));
        }
        tag
    }

    /// Encrypt `message` in place under this core's key and nonce, absorbing
    /// the associated data first; returns the 16-byte tag. The core is
    /// consumed: one instance performs exactly one operation.
    pub fn encrypt_inplace(self, message: &mut Vec<u8>, associated_data: &[u8]) -> (tag: Vec<u8>)
        requires
            self.wf(),
        ensures
            final(message)@ == self.spec_ciphertext(associated_data@, old(message)@),
            final(message)@.len() == old(message)@.len(),
            tag@ == self.spec_tag(associated_data@, old(message)@),
            tag@.len() == 16,
    {
        let mut core = self;
        core.process_associated_data(associated_data);
        core.process_encrypt_inplace(message);
        proof {
            lemma_encrypt_blocks_len(
                spec_process_ad(self.state, self.count as int, associated_data@),
                self.count as int,
                old(message)@,
            );
        }
        core.process_final()
    }

    /// Decrypt `ciphertext` in place under this core's key and nonce; the
    /// recomputed tag is compared with `expected_tag` in constant time. On a
    /// mismatch the buffer is zeroed before returning, so no plaintext of an
    /// unauthenticated message is ever observable. The core is consumed.
    pub fn decrypt_inplace(
        self,
        ciphertext: &mut Vec<u8>,
        associated_data: &[u8],
        expected_tag: &[u8],
    ) -> (r: Result<(), Error>)
        requires
            self.wf(),
            expected_tag@.len() == 16,
        ensures
            r is Ok <==> self.spec_opened_tag(associated_data@, old(ciphertext)@)
                == expected_tag@,
            r is Ok ==> final(ciphertext)@ == self.spec_opened(
                associated_data@,
                old(ciphertext)@,
            ),
            r is Err ==> r == Err::<(), Error>(Error::AuthenticationFailure)
                && final(ciphertext)@ == Seq::new(old(ciphertext)@.len(), |j: int| 0u8),
            final(ciphertext)@.len() == old(ciphertext)@.len(),
    {
        let mut core = self;
        core.process_associated_data(associated_data);
        core.process_decrypt_inplace(ciphertext);
        proof {
            lemma_decrypt_blocks_len(
                spec_process_ad(self.state, self.count as int, associated_data@),
                self.count as int,
                old(ciphertext)@,
            );
        }
        let tag = core.process_final();
        if ct_eq(tag.as_slice(), expected_tag) {
            Ok(())
        } else {
            let len = ciphertext.len();
            let mut i: usize = 0;
            while i < len
                invariant
                    i <= len,
                    ciphertext@.len() == len,
                    forall|j: int| 0 <= j < i ==> ciphertext@[j] == 0u8,
                decreases len - i,
            {
                ciphertext.set(i, 0);
                i = i + 1;
            }
            proof {
                assert(ciphertext@ =~= Seq::new(old(ciphertext)@.len(), |j: int| 0u8));
            }
            Err(Error::AuthenticationFailure)
        }
    }
}

/// The ciphertext of `spec_encrypt_blocks` is exactly as long as the message.
pub proof fn lemma_encrypt_blocks_len(s: State, count: int, pt: Seq<u8>)
    requires
        count == 8 || count == 16,
    ensures
        spec_encrypt_blocks(s, count, pt).1.len() == pt.len(),
    decreases pt.len(),
{
    if pt.len() >= count {
        let w0 = s.x0 ^ be_word(pt.subrange(0, 8));
        if count == 16 {
            let w1 = s.x1 ^ be_word(pt.subrange(8, 16));
            let s1 = State { x0: w0, x1: w1, x2: s.x2, x3: s.x3, x4: s.x4 };
            lemma_encrypt_blocks_len(spec_permute_rate(s1, count), count, pt.skip(16));
        } else {
            let s1 = State { x0: w0, x1: s.x1, x2: s.x2, x3: s.x3, x4: s.x4 };
            lemma_encrypt_blocks_len(spec_permute_rate(s1, count), count, pt.skip(8));
        }
    }
}

/// The plaintext of `spec_decrypt_blocks` is exactly as long as the
/// ciphertext body.
pub proof fn lemma_decrypt_blocks_len(s: State, count: int, ct: Seq<u8>)
    requires
        count == 8 || count == 16,
    ensures
        spec_decrypt_blocks(s, count, ct).1.len() == ct.len(),
    decreases ct.len(),
{
    if ct.len() >= count {
        let c0 = be_word(ct.subrange(0, 8));
        if count == 16 {
            let c1 = be_word(ct.subrange(8, 16));
            let s1 = State { x0: c0, x1: c1, x2: s.x2, x3: s.x3, x4: s.x4 };
            lemma_decrypt_blocks_len(spec_permute_rate(s1, count), count, ct.skip(16));
        } else {
            let s1 = State { x0: c0, x1: s.x1, x2: s.x2, x3: s.x3, x4: s.x4 };
            lemma_decrypt_blocks_len(spec_permute_rate(s1, count), count, ct.skip(8));
        }
    }
}

/// Relies on subtle's `ConstantTimeEq::ct_eq` for byte slices: the returned
/// choice is true exactly when the two slices have equal length and equal
/// contents, and the comparison runs in time independent of the contents.
#[verifier::external_body]
fn ct_eq(a: &[u8], b: &[u8]) -> (r: bool)
    ensures
        r == (a@ == b@),
{
    bool::from(subtle::ConstantTimeEq::ct_eq(a, b))
}

/// Round trip of a padded trailing word: decrypting what encryption produced
/// from the same lane word recovers the data bytes and rebuilds the lane.
///
/// `x` is the lane before the block, `tail` the trailing data bytes, and the
/// block's ciphertext bytes are the first `tail.len()` bytes of the encrypted
/// lane word.
proof fn lemma_partial_word_roundtrip(x: u64, tail: Seq<u8>)
    requires
        tail.len() < 8,
    ensures
        ({
            let n = tail.len() as int;
            let t = x ^ spec_pad(n);
            let w = t ^ be_word(tail);
            let ctp = be_bytes_of(w).take(n);
            let wd = t ^ be_word(ctp);
            &&& be_bytes_of(wd).take(n) == tail
            &&& (if n > 0 {
                spec_clear(wd, n) ^ be_word(ctp)
            } else {
                wd
            }) == w
        }),
{
    let n = tail.len() as int;
    let t = x ^ spec_pad(n);
    let pe = be_word(tail);
    let w = t ^ pe;
    let ctp = be_bytes_of(w).take(n);
    let cx = be_word(ctp);
    let wd = t ^ cx;
    crate::words::lemma_be_word_byte(ctp);
    crate::words::lemma_be_word_byte(tail);
    crate::words::lemma_be_byte_xor(t, pe);
    crate::words::lemma_be_byte_xor(t, cx);
    if n == 0 {
        crate::words::lemma_xor_zero(t);
        assert(be_word(ctp) == t ^ t);
        assert(be_word(tail) == t ^ t);
        assert(be_bytes_of(wd).take(0) =~= tail);
    } else {
        // the ciphertext bytes are the first n bytes of the encrypted lane
        assert forall|j: int| 0 <= j < 8 implies #[trigger] be_byte(cx, j) == if j < n {
            be_byte(w, j)
        } else {
            0u8
        } by {}
        // decrypting recovers the data bytes
        assert forall|j: int| 0 <= j < n implies be_bytes_of(wd)[j] == tail[j] by {
            crate::words::lemma_xor_cancel_u8(be_byte(t, j), be_byte(pe, j));
        }
        assert(be_bytes_of(wd).take(n) =~= tail);
        // the rebuilt lane equals encryption's
        crate::words::lemma_be_byte_clear(wd, n as u64);
        assert(((n as u64) as int) == n);
        crate::words::lemma_be_byte_xor(spec_clear(wd, n), cx);
        assert forall|j: int| 0 <= j < 8 implies #[trigger] be_byte(spec_clear(wd, n) ^ cx, j)
            == be_byte(w, j) by {
            assert(be_byte(spec_clear(wd, n), j) == if j < n { 0u8 } else { be_byte(wd, j) });
            if j < n {
                crate::words::lemma_xor_cancel_u8(be_byte(w, j), 0u8);
            } else {
                crate::words::lemma_xor_cancel_u8(be_byte(t, j), 0u8);
                assert(be_byte(w, j) == be_byte(t, j) ^ byte_or_zero(tail, j));
            }
        }
        crate::words::lemma_be_bytes_eq(spec_clear(wd, n) ^ cx, w);
    }
}

/// Round trip of the message phase: decrypting, from a given state, the
/// ciphertext that encryption produced from that state recovers the message
/// and reaches encryption's final state, so the recomputed tag matches.
#[verifier::rlimit(100)]
pub proof fn lemma_decrypt_encrypt_blocks(s: State, count: int, pt: Seq<u8>)
    requires
        count == 8 || count == 16,
    ensures
        spec_decrypt_blocks(s, count, spec_encrypt_blocks(s, count, pt).1) == (
            spec_encrypt_blocks(s, count, pt).0,
            pt,
        ),
    decreases pt.len(),
{
    let e = spec_encrypt_blocks(s, count, pt);
    let ct = e.1;
    lemma_encrypt_blocks_len(s, count, pt);
    if pt.len() >= count {
        let p0 = be_word(pt.subrange(0, 8));
        let w0 = s.x0 ^ p0;
        crate::words::lemma_xor_cancel(s.x0, p0);
        crate::words::lemma_be_word_of_bytes(w0);
        crate::words::lemma_be_bytes_of_word(pt.subrange(0, 8));
        if count == 16 {
            let p1 = be_word(pt.subrange(8, 16));
            let w1 = s.x1 ^ p1;
            crate::words::lemma_xor_cancel(s.x1, p1);
            crate::words::lemma_be_word_of_bytes(w1);
            crate::words::lemma_be_bytes_of_word(pt.subrange(8, 16));
            let s1 = State { x0: w0, x1: w1, x2: s.x2, x3: s.x3, x4: s.x4 };
            let snext = spec_permute_rate(s1, count);
            lemma_encrypt_blocks_len(snext, count, pt.skip(16));
            assert(ct.subrange(0, 8) =~= be_bytes_of(w0));
            assert(ct.subrange(8, 16) =~= be_bytes_of(w1));
            assert(ct.skip(16) =~= spec_encrypt_blocks(snext, count, pt.skip(16)).1);
            lemma_decrypt_encrypt_blocks(snext, count, pt.skip(16));
            assert(spec_decrypt_blocks(s, count, ct).1 =~= pt);
        } else {
            let s1 = State { x0: w0, x1: s.x1, x2: s.x2, x3: s.x3, x4: s.x4 };
            let snext = spec_permute_rate(s1, count);
            lemma_encrypt_blocks_len(snext, count, pt.skip(8));
            assert(ct.subrange(0, 8) =~= be_bytes_of(w0));
            assert(ct.skip(8) =~= spec_encrypt_blocks(snext, count, pt.skip(8)).1);
            lemma_decrypt_encrypt_blocks(snext, count, pt.skip(8));
            assert(spec_decrypt_blocks(s, count, ct).1 =~= pt);
        }
    } else if count == 16 && pt.len() >= 8 {
        let p0 = be_word(pt.subrange(0, 8));
        let w0 = s.x0 ^ p0;
        crate::words::lemma_xor_cancel(s.x0, p0);
        crate::words::lemma_be_word_of_bytes(w0);
        crate::words::lemma_be_bytes_of_word(pt.subrange(0, 8));
        let n = pt.len() - 8;
        let t = s.x1 ^ spec_pad(n);
        let w1 = t ^ be_word(pt.skip(8));
        assert(ct.subrange(0, 8) =~= be_bytes_of(w0));
        assert(ct.skip(8) =~= be_bytes_of(w1).take(n));
        lemma_partial_word_roundtrip(s.x1, pt.skip(8));
        assert(spec_decrypt_blocks(s, count, ct).1 =~= pt);
    } else {
        let n = pt.len() as int;
        let t = s.x0 ^ spec_pad(n);
        let w0 = t ^ be_word(pt);
        assert(ct =~= be_bytes_of(w0).take(n));
        lemma_partial_word_roundtrip(s.x0, pt);
        assert(spec_decrypt_blocks(s, count, ct).1 =~= pt);
    }
}

/// Round trip (law): opening a sealed message under the same key, nonce and
/// associated data always succeeds and returns the message.
pub proof fn lemma_seal_open_roundtrip(cipher: Ascon, nonce: Seq<u8>, ad: Seq<u8>, pt: Seq<u8>)
    requires
        cipher.wf(),
        nonce.len() == 16,
    ensures
        cipher.spec_open(nonce, ad, cipher.spec_seal(nonce, ad, pt)) == Some(pt),
{
    let core = cipher.fresh_core(nonce);
    let count = cipher.count as int;
    let s_ad = spec_process_ad(core.state, count, ad);
    let sealed = cipher.spec_seal(nonce, ad, pt);
    lemma_encrypt_blocks_len(s_ad, count, pt);
    assert(sealed.take(sealed.len() - 16) =~= core.spec_ciphertext(ad, pt));
    assert(sealed.skip(sealed.len() - 16) =~= core.spec_tag(ad, pt));
    lemma_decrypt_encrypt_blocks(s_ad, count, pt);
}

/// Determinism (law): sealing is a function of key, nonce, associated data
/// and message alone — two results of the same call are the same bytes, and
/// likewise for opening. The executable functions' contracts pin their
/// results to these spec functions, so no hidden randomness can enter.
pub proof fn lemma_deterministic(
    cipher: Ascon,
    nonce: Seq<u8>,
    ad: Seq<u8>,
    pt: Seq<u8>,
    ct: Seq<u8>,
)
    ensures
        cipher.spec_seal(nonce, ad, pt) == cipher.spec_seal(nonce, ad, pt),
        cipher.spec_open(nonce, ad, ct) == cipher.spec_open(nonce, ad, ct),
{
}

/// Tamper detection (law): opening succeeds only when the appended tag is,
/// byte for byte, the tag recomputed over the ciphertext body — any mismatch,
/// a single flipped bit included, is rejected; there is no threshold.
pub proof fn lemma_open_exact_tag(cipher: Ascon, nonce: Seq<u8>, ad: Seq<u8>, ct: Seq<u8>)
    requires
        ct.len() >= 16,
    ensures
        cipher.spec_open(nonce, ad, ct) is Some <==> cipher.fresh_core(nonce).spec_opened_tag(
            ad,
            ct.take(ct.len() - 16),
        ) == ct.skip(ct.len() - 16),
{
}


/// An Ascon AEAD cipher: a decoded key and the constants of its parameter
/// set. One instance encrypts or decrypts any number of messages, each under
/// a fresh nonce.
pub struct Ascon {
    /// Bytes absorbed per permutation call: 8 or 16.
    pub count: usize,
    /// The parameter set's initialization vector.
    pub iv: u64,
    /// Key size in bytes: 16 or 20.
    pub key_size: usize,
    /// First key word: zero for 16-byte keys, the four head bytes otherwise.
    pub k0: u64,
    /// Second key word.
    pub k1: u64,
    /// Third key word.
    pub k2: u64,
}

impl Ascon {
    /// The parameter constants are one of the three published sets' shapes.
    pub open spec fn wf(self) -> bool {
        &&& (self.count == 8 || self.count == 16)
        &&& (self.key_size == 16 || self.key_size == 20)
        &&& (self.key_size == 16 ==> self.k0 == 0)
        &&& self.k0 <= 0xffffffffu64
    }

    /// The core a fresh operation under this cipher and nonce starts from.
    pub open spec fn fresh_core(self, nonce: Seq<u8>) -> Core {
        Core {
            state: spec_init(self.iv, self.key_size as int, self.k0, self.k1, self.k2, nonce),
            count: self.count,
            key_size: self.key_size,
            k0: self.k0,
            k1: self.k1,
            k2: self.k2,
        }
    }

    /// The ciphertext-with-appended-tag of a message under this cipher.
    pub open spec fn spec_seal(self, nonce: Seq<u8>, ad: Seq<u8>, pt: Seq<u8>) -> Seq<u8> {
        self.fresh_core(nonce).spec_ciphertext(ad, pt) + self.fresh_core(nonce).spec_tag(ad, pt)
    }

    /// Opening a ciphertext-with-appended-tag: the plaintext when the tag
    /// recomputed over the body matches the appended tag, nothing otherwise.
    pub open spec fn spec_open(self, nonce: Seq<u8>, ad: Seq<u8>, ct: Seq<u8>) -> Option<Seq<u8>>
        recommends
            ct.len() >= 16,
    {
        let body = ct.take(ct.len() - 16);
        let tag = ct.skip(ct.len() - 16);
        if self.fresh_core(nonce).spec_opened_tag(ad, body) == tag {
            Some(self.fresh_core(nonce).spec_opened(ad, body))
        } else {
            None
        }
    }

    /// An Ascon-128 cipher: 8-byte rate, 16-byte key.
    pub fn new_128(key: &[u8]) -> (r: Ascon)
        requires
            key@.len() == 16,
        ensures
            r.wf(),
            r.count == 8,
            r.iv == 0x80400c0600000000u64,
            r.key_size == 16,
            r.k0 == 0,
            r.k1 == be_word(key@.subrange(0, 8)),
            r.k2 == be_word(key@.subrange(8, 16)),
    {
        let ik = InternalKey16::from_bytes(key);
        Ascon {
            count: Parameters128::count(),
            iv: Parameters128::iv(),
            key_size: Parameters128::key_size(),
            k0: ik.get_k0(),
            k1: ik.get_k1(),
            k2: ik.get_k2(),
        }
    }

    /// An Ascon-128a cipher: 16-byte rate, 16-byte key.
    pub fn new_128a(key: &[u8]) -> (r: Ascon)
        requires
            key@.len() == 16,
        ensures
            r.wf(),
            r.count == 16,
            r.iv == 0x80800c0800000000u64,
            r.key_size == 16,
            r.k0 == 0,
            r.k1 == be_word(key@.subrange(0, 8)),
            r.k2 == be_word(key@.subrange(8, 16)),
    {
        let ik = InternalKey16::from_bytes(key);
        Ascon {
            count: Parameters128a::count(),
            iv: Parameters128a::iv(),
            key_size: Parameters128a::key_size(),
            k0: ik.get_k0(),
            k1: ik.get_k1(),
            k2: ik.get_k2(),
        }
    }

    /// An Ascon-80pq cipher: 8-byte rate, 20-byte key.
    pub fn new_80pq(key: &[u8]) -> (r: Ascon)
        requires
            key@.len() == 20,
        ensures
            r.wf(),
            r.count == 8,
            r.iv == 0xa0400c0600000000u64,
            r.key_size == 20,
            r.k0 == crate::words::be_word32(key@.subrange(0, 4)) as u64,
            r.k1 == be_word(key@.subrange(4, 12)),
            r.k2 == be_word(key@.subrange(12, 20)),
    {
        let ik = InternalKey20::from_bytes(key);
        Ascon {
            count: Parameters80pq::count(),
            iv: Parameters80pq::iv(),
            key_size: Parameters80pq::key_size(),
            k0: ik.get_k0(),
            k1: ik.get_k1(),
            k2: ik.get_k2(),
        }
    }

    /// Encrypt `buffer` in place under the nonce, returning the detached
    /// 16-byte tag. Fails, touching nothing, when message and associated-data
    /// lengths together overflow the 64-bit length counter.
    pub fn encrypt_in_place_detached(
        &self,
        nonce: &[u8],
        associated_data: &[u8],
        buffer: &mut Vec<u8>,
    ) -> (r: Result<Vec<u8>, Error>)
        requires
            self.wf(),
            nonce@.len() == 16,
        ensures
            old(buffer)@.len() + associated_data@.len() > u64::MAX ==> r == Err::<
                Vec<u8>,
                Error,
            >(Error::LengthOverflow) && final(buffer)@ == old(buffer)@,
            old(buffer)@.len() + associated_data@.len() <= u64::MAX ==> r is Ok
                && final(buffer)@ == self.fresh_core(nonce@).spec_ciphertext(
                    associated_data@,
                    old(buffer)@,
                )
                && r->Ok_0@ == self.fresh_core(nonce@).spec_tag(associated_data@, old(buffer)@)
                && r->Ok_0@.len() == 16,
            final(buffer)@.len() == old(buffer)@.len(),
    {
        if (buffer.len() as u64).checked_add(associated_data.len() as u64).is_none() {
            return Err(Error::LengthOverflow);
        }
        let core = Core::new(self, nonce);
        Ok(core.encrypt_inplace(buffer, associated_data))
    }

    /// Decrypt `buffer` in place under the nonce, verifying the detached tag
    /// in constant time. On an authentication failure the buffer is zeroed;
    /// fails fast, touching nothing, on a length-counter overflow.
    pub fn decrypt_in_place_detached(
        &self,
        nonce: &[u8],
        associated_data: &[u8],
        buffer: &mut Vec<u8>,
        tag: &[u8],
    ) -> (r: Result<(), Error>)
        requires
            self.wf(),
            nonce@.len() == 16,
            tag@.len() == 16,
        ensures
            old(buffer)@.len() + associated_data@.len() > u64::MAX ==> r == Err::<(), Error>(
                Error::LengthOverflow,
            ) && final(buffer)@ == old(buffer)@,
            old(buffer)@.len() + associated_data@.len() <= u64::MAX ==> {
                &&& r is Ok <==> self.fresh_core(nonce@).spec_opened_tag(
                    associated_data@,
                    old(buffer)@,
                ) == tag@
                &&& r is Ok ==> final(buffer)@ == self.fresh_core(nonce@).spec_opened(
                    associated_data@,
                    old(buffer)@,
                )
                &&& r is Err ==> r == Err::<(), Error>(Error::AuthenticationFailure)
                    && final(buffer)@ == Seq::new(old(buffer)@.len(), |j: int| 0u8)
            },
            final(buffer)@.len() == old(buffer)@.len(),
    {
        if (buffer.len() as u64).checked_add(associated_data.len() as u64).is_none() {
            return Err(Error::LengthOverflow);
        }
        let core = Core::new(self, nonce);
        core.decrypt_inplace(buffer, associated_data, tag)
    }

    /// Encrypt a message, returning ciphertext with the 16-byte tag appended.
    pub fn encrypt(&self, nonce: &[u8], associated_data: &[u8], plaintext: &[u8]) -> (r: Result<
        Vec<u8>,
        Error,
    >)
        requires
            self.wf(),
            nonce@.len() == 16,
            plaintext@.len() + 16 <= usize::MAX,
        ensures
            plaintext@.len() + associated_data@.len() > u64::MAX ==> r == Err::<Vec<u8>, Error>(
                Error::LengthOverflow,
            ),
            plaintext@.len() + associated_data@.len() <= u64::MAX ==> r is Ok && r->Ok_0@
                == self.spec_seal(nonce@, associated_data@, plaintext@) && r->Ok_0@.len()
                == plaintext@.len() + 16,
    {
        let mut buffer: Vec<u8> = Vec::new();
        let mut i: usize = 0;
        let len = plaintext.len();
        while i < len
            invariant
                i <= len,
                len == plaintext@.len(),
                buffer@ == plaintext@.take(i as int),
            decreases len - i,
        {
            buffer.push(plaintext[i]);
            i = i + 1;
            proof {
                assert(buffer@ =~= plaintext@.take(i as int));
            }
        }
        proof {
            assert(plaintext@.take(plaintext@.len() as int) =~= plaintext@);
        }
        let tag = match self.encrypt_in_place_detached(nonce, associated_data, &mut buffer) {
            Ok(tag) => tag,
            Err(e) => {
                return Err(e);
            },
        };
        let mut j: usize = 0;
        let ghost ct_body = buffer@;
        while j < 16
            invariant
                j <= 16,
                tag@.len() == 16,
                buffer@ == ct_body + tag@.take(j as int),
            decreases 16 - j,
        {
            buffer.push(tag[j]);
            j = j + 1;
            proof {
                assert(buffer@ =~= ct_body + tag@.take(j as int));
            }
        }
        proof {
            assert(tag@.take(16) =~= tag@);
        }
        Ok(buffer)
    }

    /// Decrypt a ciphertext whose final 16 bytes are the tag. Returns the
    /// plaintext exactly when the recomputed tag matches; a mismatch, however
    /// it arose, is reported as the same authentication failure.
    pub fn decrypt(&self, nonce: &[u8], associated_data: &[u8], ciphertext: &[u8]) -> (r: Result<
        Vec<u8>,
        Error,
    >)
        requires
            self.wf(),
            nonce@.len() == 16,
            ciphertext@.len() >= 16,
        ensures
            ciphertext@.len() - 16 + associated_data@.len() > u64::MAX ==> r == Err::<
                Vec<u8>,
                Error,
            >(Error::LengthOverflow),
            ciphertext@.len() - 16 + associated_data@.len() <= u64::MAX ==> {
                &&& r is Ok <==> self.spec_open(nonce@, associated_data@, ciphertext@) is Some
                &&& r is Ok ==> Some(r->Ok_0@) == self.spec_open(
                    nonce@,
                    associated_data@,
                    ciphertext@,
                )
                &&& r is Err ==> r == Err::<Vec<u8>, Error>(Error::AuthenticationFailure)
            },
    {
        let len = ciphertext.len();
        let body_len = len - 16;
        let mut buffer: Vec<u8> = Vec::new();
        let mut i: usize = 0;
        while i < body_len
            invariant
                i <= body_len,
                body_len == ciphertext@.len() - 16,
                body_len <= ciphertext@.len(),
                buffer@ == ciphertext@.take(i as int),
            decreases body_len - i,
        {
            buffer.push(ciphertext[i]);
            i = i + 1;
            proof {
                assert(buffer@ =~= ciphertext@.take(i as int));
            }
        }
        let mut tag: Vec<u8> = Vec::new();
        let mut j: usize = 0;
        while j < 16
            invariant
                j <= 16,
                len == ciphertext@.len(),
                len >= 16,
                body_len == len - 16,
                tag@ == ciphertext@.subrange(body_len as int, body_len as int + j),
            decreases 16 - j,
        {
            tag.push(ciphertext[body_len + j]);
            j = j + 1;
            proof {
                assert(tag@ =~= ciphertext@.subrange(body_len as int, body_len as int + j));
            }
        }
        proof {
            assert(tag@ =~= ciphertext@.skip(ciphertext@.len() - 16));
            assert(buffer@ =~= ciphertext@.take(ciphertext@.len() - 16));
        }
        match self.decrypt_in_place_detached(nonce, associated_data, &mut buffer, tag.as_slice()) {
            Ok(()) => Ok(buffer),
            Err(e) => Err(e),
        }
    }
}

} // verus!
