//! The Ascon permutation: a fixed round function applied 6, 8 or 12 times to a
//! 320-bit state of five 64-bit words.
//!
//! Each round XORs a round constant into the middle word, applies a 5-bit
//! S-box bit-sliced across all 64 lanes, and diffuses each word by XORing it
//! with two rotated copies of itself. Shorter schedules apply the last rounds
//! of the 12-round constant schedule.

use vstd::prelude::*;

use crate::words::{be_bytes_of, be_word, load_be, store_be};

verus! {

/// The permutation state: five 64-bit words, 320 bits in all.
#[derive(Clone, Copy, PartialEq, Eq, Structural, Debug)]
pub struct State {
    /// Word 0, the first absorption lane.
    pub x0: u64,
    /// Word 1, the second absorption lane of the wide-rate variant.
    pub x1: u64,
    /// Word 2.
    pub x2: u64,
    /// Word 3.
    pub x3: u64,
    /// Word 4.
    pub x4: u64,
}

/// The round constant of round `i` of the 12-round schedule.
pub open spec fn spec_round_constant(i: int) -> u64
    recommends
        0 <= i < 16,
{
    ((15 - i) * 16 + i) as u64
}

/// Right rotation of a 64-bit word.
pub open spec fn spec_rotr(x: u64, n: int) -> u64
    recommends
        0 < n < 64,
{
    (x >> (n as u64)) | (x << ((64 - n) as u64))
}

/// One round of the permutation: constant addition, S-box and linear layer.
pub open spec fn spec_round(s: State, c: u64) -> State {
    let y0 = s.x0 ^ s.x4;
    let y2 = s.x2 ^ s.x1 ^ c;
    let y4 = s.x4 ^ s.x3;
    let t0 = y0 ^ (!s.x1 & y2);
    let t1 = s.x1 ^ (!y2 & s.x3);
    let t2 = y2 ^ (!s.x3 & y4);
    let t3 = s.x3 ^ (!y4 & y0);
    let t4 = y4 ^ (!y0 & s.x1);
    let u1 = t1 ^ t0;
    let u3 = t3 ^ t2;
    let u0 = t0 ^ t4;
    State {
        x0: u0 ^ spec_rotr(u0, 19) ^ spec_rotr(u0, 28),
        x1: u1 ^ spec_rotr(u1, 61) ^ spec_rotr(u1, 39),
        x2: !(t2 ^ spec_rotr(t2, 1) ^ spec_rotr(t2, 6)),
        x3: u3 ^ spec_rotr(u3, 10) ^ spec_rotr(u3, 17),
        x4: t4 ^ spec_rotr(t4, 7) ^ spec_rotr(t4, 41),
    }
}

/// The rounds `i .. 12` of the schedule, applied in order.
pub open spec fn spec_permute_from(s: State, i: int) -> State
    decreases 12 - i,
{
    if i < 0 || i >= 12 {
        s
    } else {
        spec_permute_from(spec_round(s, spec_round_constant(i)), i + 1)
    }
}

/// The full 12-round permutation.
pub open spec fn spec_permute_12(s: State) -> State {
    spec_permute_from(s, 0)
}

/// The 8-round permutation: the last 8 rounds of the schedule.
pub open spec fn spec_permute_8(s: State) -> State {
    spec_permute_from(s, 4)
}

/// The 6-round permutation: the last 6 rounds of the schedule.
pub open spec fn spec_permute_6(s: State) -> State {
    spec_permute_from(s, 6)
}

/// The five words of the state as 40 big-endian bytes.
pub open spec fn spec_state_bytes(s: State) -> Seq<u8> {
    be_bytes_of(s.x0) + be_bytes_of(s.x1) + be_bytes_of(s.x2) + be_bytes_of(s.x3) + be_bytes_of(
        s.x4,
    )
}

/// Compute the round constant of round `round` of the schedule.
pub fn round_constant(round: u64) -> (r: u64)
    requires
        round < 16,
    ensures
        r == spec_round_constant(round as int),
{
    let r = ((0xfu64 - round) << 4) | round;
    proof {
        assert(((((0xfu64 - round) as u64) << 4u64) | round) == ((15 - round) * 16 + round) as u64)
            by (bit_vector)
            requires
                round < 16,
        ;
    }
    r
}

/// Right-rotate a 64-bit word by `n` bits.
pub fn rotr(x: u64, n: u64) -> (r: u64)
    requires
        0 < n < 64,
    ensures
        r == spec_rotr(x, n as int),
{
    (x >> n) | (x << (64 - n))
}

/// Apply one round of the permutation with round constant `c`.
pub fn round(s: State, c: u64) -> (r: State)
    ensures
        r == spec_round(s, c),
{
    // S-box layer, with the round constant folded into the middle word
    let y0 = s.x0 ^ s.x4;
    let y2 = s.x2 ^ s.x1 ^ c;
    let y4 = s.x4 ^ s.x3;
    let t0 = y0 ^ (!s.x1 & y2);
    let t1 = s.x1 ^ (!y2 & s.x3);
    let t2 = y2 ^ (!s.x3 & y4);
    let t3 = s.x3 ^ (!y4 & y0);
    let t4 = y4 ^ (!y0 & s.x1);
    let u1 = t1 ^ t0;
    let u3 = t3 ^ t2;
    let u0 = t0 ^ t4;
    // linear diffusion layer
    State {
        x0: u0 ^ rotr(u0, 19) ^ rotr(u0, 28),
        x1: u1 ^ rotr(u1, 61) ^ rotr(u1, 39),
        x2: !(t2 ^ rotr(t2, 1) ^ rotr(t2, 6)),
        x3: u3 ^ rotr(u3, 10) ^ rotr(u3, 17),
        x4: t4 ^ rotr(t4, 7) ^ rotr(t4, 41),
    }
}

/// Apply the rounds `start .. 12` of the schedule to `s`.
fn rounds_from(s: State, start: usize) -> (r: State)
    requires
        start <= 12,
    ensures
        r == spec_permute_from(s, start as int),
{
    let mut cur = s;
    let mut i = start;
    while i < 12
        invariant
            start <= i <= 12,
            spec_permute_from(s, start as int) == spec_permute_from(cur, i as int),
        decreases 12 - i,
    {
        cur = round(cur, round_constant(i as u64));
        i = i + 1;
    }
    cur
}

impl State {
    /// Build a state from its five words.
    pub fn new(x0: u64, x1: u64, x2: u64, x3: u64, x4: u64) -> (r: Self)
        ensures
            r == (State { x0, x1, x2, x3, x4 }),
    {
        State { x0, x1, x2, x3, x4 }
    }

    /// Perform the permutation with 12 rounds.
    pub fn permute_12(&mut self)
        ensures
            *final(self) == spec_permute_12(*old(self)),
    {
        *self = rounds_from(*self, 0);
    }

    /// Perform the permutation with 8 rounds.
    pub fn permute_8(&mut self)
        ensures
            *final(self) == spec_permute_8(*old(self)),
    {
        *self = rounds_from(*self, 4);
    }

    /// Perform the permutation with 6 rounds.
    pub fn permute_6(&mut self)
        ensures
            *final(self) == spec_permute_6(*old(self)),
    {
        *self = rounds_from(*self, 6);
    }

    /// Perform a given number (up to 12) of rounds: the last `rounds` round
    /// constants of the 12-round schedule.
    pub fn permute_n(&mut self, rounds: usize)
        requires
            rounds <= 12,
        ensures
            *final(self) == spec_permute_from(*old(self), 12 - rounds as int),
    {
        *self = rounds_from(*self, 12 - rounds);
    }

    /// The state as 40 big-endian bytes.
    pub fn as_bytes(&self) -> (r: Vec<u8>)
        ensures
            r@ == spec_state_bytes(*self),
    {
        let mut r = crate::words::zero_vec(40);
        store_be(&mut r, 0, self.x0);
        store_be(&mut r, 8, self.x1);
        store_be(&mut r, 16, self.x2);
        store_be(&mut r, 24, self.x3);
        store_be(&mut r, 32, self.x4);
        proof {
            assert(r@ =~= spec_state_bytes(*self));
        }
        r
    }

    /// Rebuild a state from 40 big-endian bytes; any other length is refused.
    pub fn from_bytes(bytes: &[u8]) -> (r: Option<State>)
        ensures
            bytes@.len() == 40 ==> r == Some(
                State {
                    x0: be_word(bytes@.subrange(0, 8)),
                    x1: be_word(bytes@.subrange(8, 16)),
                    x2: be_word(bytes@.subrange(16, 24)),
                    x3: be_word(bytes@.subrange(24, 32)),
                    x4: be_word(bytes@.subrange(32, 40)),
                },
            ),
            bytes@.len() != 40 ==> r is None,
    {
        if bytes.len() != 40 {
            return None;
        }
        Some(
            State {
                x0: load_be(bytes, 0),
                x1: load_be(bytes, 8),
                x2: load_be(bytes, 16),
                x3: load_be(bytes, 24),
                x4: load_be(bytes, 32),
            },
        )
    }
}

} // verus!
