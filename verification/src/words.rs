//! Conversions between 64-bit state words and byte sequences, in both byte
//! orders, together with the padding and masking helpers of the sponge.
//!
//! The AEAD schemes and the legacy hash read and write state words in
//! big-endian order; Ascon-Hash256 and Ascon-XOF128 use little-endian order.

use vstd::prelude::*;

verus! {

/// Big-endian byte `j` (0 is the most significant byte) of a 64-bit word.
pub open spec fn be_byte(w: u64, j: int) -> u8
    recommends
        0 <= j < 8,
{
    ((w >> (((7 - j) * 8) as u64)) & 0xff) as u8
}

/// Little-endian byte `j` (0 is the least significant byte) of a 64-bit word.
pub open spec fn le_byte(w: u64, j: int) -> u8
    recommends
        0 <= j < 8,
{
    ((w >> ((j * 8) as u64)) & 0xff) as u8
}

/// The word whose big-endian bytes are `b0 .. b7`.
pub open spec fn word_from_be(b0: u8, b1: u8, b2: u8, b3: u8, b4: u8, b5: u8, b6: u8, b7: u8) -> u64 {
    ((b0 as u64) << 56) | ((b1 as u64) << 48) | ((b2 as u64) << 40) | ((b3 as u64) << 32)
        | ((b4 as u64) << 24) | ((b5 as u64) << 16) | ((b6 as u64) << 8) | (b7 as u64)
}

/// The word whose little-endian bytes are `b0 .. b7`.
pub open spec fn word_from_le(b0: u8, b1: u8, b2: u8, b3: u8, b4: u8, b5: u8, b6: u8, b7: u8) -> u64 {
    ((b7 as u64) << 56) | ((b6 as u64) << 48) | ((b5 as u64) << 40) | ((b4 as u64) << 32)
        | ((b3 as u64) << 24) | ((b2 as u64) << 16) | ((b1 as u64) << 8) | (b0 as u64)
}

/// Byte `j` of `s`, or zero past its end: short blocks are zero-extended.
pub open spec fn byte_or_zero(s: Seq<u8>, j: int) -> u8 {
    if 0 <= j < s.len() {
        s[j]
    } else {
        0
    }
}

/// The big-endian word read from up to eight bytes, zero-extended at the end.
pub open spec fn be_word(s: Seq<u8>) -> u64
    recommends
        s.len() <= 8,
{
    word_from_be(
        byte_or_zero(s, 0),
        byte_or_zero(s, 1),
        byte_or_zero(s, 2),
        byte_or_zero(s, 3),
        byte_or_zero(s, 4),
        byte_or_zero(s, 5),
        byte_or_zero(s, 6),
        byte_or_zero(s, 7),
    )
}

/// The little-endian word read from up to eight bytes, zero-extended at the end.
pub open spec fn le_word(s: Seq<u8>) -> u64
    recommends
        s.len() <= 8,
{
    word_from_le(
        byte_or_zero(s, 0),
        byte_or_zero(s, 1),
        byte_or_zero(s, 2),
        byte_or_zero(s, 3),
        byte_or_zero(s, 4),
        byte_or_zero(s, 5),
        byte_or_zero(s, 6),
        byte_or_zero(s, 7),
    )
}

/// The eight big-endian bytes of a word.
pub open spec fn be_bytes_of(w: u64) -> Seq<u8> {
    Seq::new(8, |j: int| be_byte(w, j))
}

/// The eight little-endian bytes of a word.
pub open spec fn le_bytes_of(w: u64) -> Seq<u8> {
    Seq::new(8, |j: int| le_byte(w, j))
}

/// The padding word of the big-endian sponge variants: a single set bit in the
/// byte position that follows `n` bytes of data.
pub open spec fn spec_pad(n: int) -> u64
    recommends
        0 <= n < 8,
{
    0x80u64 << ((56 - 8 * n) as u64)
}

/// The padding word of the little-endian hash variants.
pub open spec fn spec_pad_le(n: int) -> u64
    recommends
        0 <= n < 8,
{
    0x01u64 << ((8 * n) as u64)
}

/// `w` with its `n` most significant (big-endian first) bytes cleared.
pub open spec fn spec_clear(w: u64, n: int) -> u64
    recommends
        1 <= n < 8,
{
    w & (0x00ffffffffffffffu64 >> ((n * 8 - 8) as u64))
}

/// Rotation of the key words used by the Ascon-80pq finalization.
pub open spec fn spec_keyrot(lo2hi: u64, hi2lo: u64) -> u64 {
    (lo2hi << 32) | (hi2lo >> 32)
}

/// Composing a word from its own big-endian bytes gives the word back.
pub proof fn lemma_be_compose(w: u64)
    ensures
        word_from_be(
            be_byte(w, 0),
            be_byte(w, 1),
            be_byte(w, 2),
            be_byte(w, 3),
            be_byte(w, 4),
            be_byte(w, 5),
            be_byte(w, 6),
            be_byte(w, 7),
        ) == w,
{
    assert(word_from_be(
        be_byte(w, 0),
        be_byte(w, 1),
        be_byte(w, 2),
        be_byte(w, 3),
        be_byte(w, 4),
        be_byte(w, 5),
        be_byte(w, 6),
        be_byte(w, 7),
    ) == w) by (bit_vector);
}

/// Each big-endian byte of a composed word is the byte it was composed from.
pub proof fn lemma_be_decompose(b0: u8, b1: u8, b2: u8, b3: u8, b4: u8, b5: u8, b6: u8, b7: u8)
    ensures
        be_byte(word_from_be(b0, b1, b2, b3, b4, b5, b6, b7), 0) == b0,
        be_byte(word_from_be(b0, b1, b2, b3, b4, b5, b6, b7), 1) == b1,
        be_byte(word_from_be(b0, b1, b2, b3, b4, b5, b6, b7), 2) == b2,
        be_byte(word_from_be(b0, b1, b2, b3, b4, b5, b6, b7), 3) == b3,
        be_byte(word_from_be(b0, b1, b2, b3, b4, b5, b6, b7), 4) == b4,
        be_byte(word_from_be(b0, b1, b2, b3, b4, b5, b6, b7), 5) == b5,
        be_byte(word_from_be(b0, b1, b2, b3, b4, b5, b6, b7), 6) == b6,
        be_byte(word_from_be(b0, b1, b2, b3, b4, b5, b6, b7), 7) == b7,
{
    assert(be_byte(word_from_be(b0, b1, b2, b3, b4, b5, b6, b7), 0) == b0
        && be_byte(word_from_be(b0, b1, b2, b3, b4, b5, b6, b7), 1) == b1
        && be_byte(word_from_be(b0, b1, b2, b3, b4, b5, b6, b7), 2) == b2
        && be_byte(word_from_be(b0, b1, b2, b3, b4, b5, b6, b7), 3) == b3
        && be_byte(word_from_be(b0, b1, b2, b3, b4, b5, b6, b7), 4) == b4
        && be_byte(word_from_be(b0, b1, b2, b3, b4, b5, b6, b7), 5) == b5
        && be_byte(word_from_be(b0, b1, b2, b3, b4, b5, b6, b7), 6) == b6
        && be_byte(word_from_be(b0, b1, b2, b3, b4, b5, b6, b7), 7) == b7) by (bit_vector);
}

/// XOR acts on a word byte by byte.
pub proof fn lemma_be_byte_xor(a: u64, b: u64)
    ensures
        forall|j: int| 0 <= j < 8 ==> #[trigger] be_byte(a ^ b, j) == (be_byte(a, j) ^ be_byte(b, j)),
{
    assert(be_byte(a ^ b, 0) == (be_byte(a, 0) ^ be_byte(b, 0))
        && be_byte(a ^ b, 1) == (be_byte(a, 1) ^ be_byte(b, 1))
        && be_byte(a ^ b, 2) == (be_byte(a, 2) ^ be_byte(b, 2))
        && be_byte(a ^ b, 3) == (be_byte(a, 3) ^ be_byte(b, 3))
        && be_byte(a ^ b, 4) == (be_byte(a, 4) ^ be_byte(b, 4))
        && be_byte(a ^ b, 5) == (be_byte(a, 5) ^ be_byte(b, 5))
        && be_byte(a ^ b, 6) == (be_byte(a, 6) ^ be_byte(b, 6))
        && be_byte(a ^ b, 7) == (be_byte(a, 7) ^ be_byte(b, 7))) by (bit_vector);
}

/// Clearing the first `n` big-endian bytes zeroes exactly those bytes.
pub proof fn lemma_be_byte_clear(w: u64, n: u64)
    requires
        1 <= n < 8,
    ensures
        forall|j: int|
            0 <= j < 8 ==> #[trigger] be_byte(spec_clear(w, n as int), j) == if j < n {
                0u8
            } else {
                be_byte(w, j)
            },
{
    assert(be_byte(w & (0x00ffffffffffffffu64 >> ((n * 8 - 8) as u64)), 0) == (if 0 < n { 0u8 } else { be_byte(w, 0) })
        && be_byte(w & (0x00ffffffffffffffu64 >> ((n * 8 - 8) as u64)), 1) == (if 1 < n { 0u8 } else { be_byte(w, 1) })
        && be_byte(w & (0x00ffffffffffffffu64 >> ((n * 8 - 8) as u64)), 2) == (if 2 < n { 0u8 } else { be_byte(w, 2) })
        && be_byte(w & (0x00ffffffffffffffu64 >> ((n * 8 - 8) as u64)), 3) == (if 3 < n { 0u8 } else { be_byte(w, 3) })
        && be_byte(w & (0x00ffffffffffffffu64 >> ((n * 8 - 8) as u64)), 4) == (if 4 < n { 0u8 } else { be_byte(w, 4) })
        && be_byte(w & (0x00ffffffffffffffu64 >> ((n * 8 - 8) as u64)), 5) == (if 5 < n { 0u8 } else { be_byte(w, 5) })
        && be_byte(w & (0x00ffffffffffffffu64 >> ((n * 8 - 8) as u64)), 6) == (if 6 < n { 0u8 } else { be_byte(w, 6) })
        && be_byte(w & (0x00ffffffffffffffu64 >> ((n * 8 - 8) as u64)), 7) == (if 7 < n { 0u8 } else { be_byte(w, 7) }))
        by (bit_vector)
        requires
            1 <= n < 8,
    ;
    assert forall|j: int| 0 <= j < 8 implies #[trigger] be_byte(spec_clear(w, n as int), j) == if j
        < n {
        0u8
    } else {
        be_byte(w, j)
    } by {
        assert(spec_clear(w, n as int) == w & (0x00ffffffffffffffu64 >> ((n * 8 - 8) as u64)));
    }
}

/// Two words with equal big-endian bytes are equal.
pub proof fn lemma_be_bytes_eq(a: u64, b: u64)
    requires
        forall|j: int| 0 <= j < 8 ==> #[trigger] be_byte(a, j) == be_byte(b, j),
    ensures
        a == b,
{
    lemma_be_compose(a);
    lemma_be_compose(b);
}

/// XOR cancels itself bytewise.
pub proof fn lemma_xor_cancel_u8(s: u8, p: u8)
    ensures
        s ^ (s ^ p) == p,
        (s ^ p) ^ s == p,
        (s ^ p) ^ p == s,
        s ^ 0u8 == s,
        0u8 ^ s == s,
{
    assert(s ^ (s ^ p) == p && (s ^ p) ^ s == p && (s ^ p) ^ p == s && s ^ 0u8 == s && 0u8 ^ s
        == s) by (bit_vector);
}

/// Each byte of the word read from a short block is the block's byte there,
/// or zero past its end.
pub proof fn lemma_be_word_byte(bs: Seq<u8>)
    requires
        bs.len() <= 8,
    ensures
        forall|j: int| 0 <= j < 8 ==> #[trigger] be_byte(be_word(bs), j) == byte_or_zero(bs, j),
{
    lemma_be_decompose(
        byte_or_zero(bs, 0),
        byte_or_zero(bs, 1),
        byte_or_zero(bs, 2),
        byte_or_zero(bs, 3),
        byte_or_zero(bs, 4),
        byte_or_zero(bs, 5),
        byte_or_zero(bs, 6),
        byte_or_zero(bs, 7),
    );
}

/// Reading a word back from its own eight bytes gives the word.
pub proof fn lemma_be_word_of_bytes(w: u64)
    ensures
        be_word(be_bytes_of(w)) == w,
{
    lemma_be_compose(w);
}

/// The eight bytes of the word read from an eight-byte block are the block.
pub proof fn lemma_be_bytes_of_word(bs: Seq<u8>)
    requires
        bs.len() == 8,
    ensures
        be_bytes_of(be_word(bs)) == bs,
{
    lemma_be_word_byte(bs);
    assert(be_bytes_of(be_word(bs)) =~= bs);
}

/// XOR with zero is the identity; the word read from no bytes is zero.
pub proof fn lemma_xor_zero(a: u64)
    ensures
        a ^ 0u64 == a,
        be_word(Seq::<u8>::empty()) == a ^ a,
        le_word(Seq::<u8>::empty()) == a ^ a,
        a ^ a == 0u64,
{
    assert(a ^ 0u64 == a && a ^ a == 0u64 && word_from_be(0, 0, 0, 0, 0, 0, 0, 0) == 0u64
        && word_from_le(0, 0, 0, 0, 0, 0, 0, 0) == 0u64) by (bit_vector);
}

/// XOR cancels itself: mixing a word in twice gives the word back.
pub proof fn lemma_xor_cancel(s: u64, p: u64)
    ensures
        s ^ (s ^ p) == p,
        (s ^ p) ^ s == p,
        (s ^ p) ^ p == s,
{
    assert(s ^ (s ^ p) == p && (s ^ p) ^ s == p && (s ^ p) ^ p == s) by (bit_vector);
}

/// A vector of `n` zero bytes.
pub fn zero_vec(n: usize) -> (r: Vec<u8>)
    ensures
        r@ == Seq::new(n as nat, |j: int| 0u8),
{
    let mut r: Vec<u8> = Vec::new();
    let mut i: usize = 0;
    while i < n
        invariant
            i <= n,
            r@ == Seq::new(i as nat, |j: int| 0u8),
        decreases n - i,
    {
        r.push(0);
        i = i + 1;
        assert(r@ =~= Seq::new(i as nat, |j: int| 0u8));
    }
    r
}

/// Reads the big-endian word at `s[i .. i + 8]`.
pub fn load_be(s: &[u8], i: usize) -> (w: u64)
    requires
        i + 8 <= s@.len(),
    ensures
        w == be_word(s@.subrange(i as int, i as int + 8)),
{
    let b0 = s[i];
    let b1 = s[i + 1];
    let b2 = s[i + 2];
    let b3 = s[i + 3];
    let b4 = s[i + 4];
    let b5 = s[i + 5];
    let b6 = s[i + 6];
    let b7 = s[i + 7];
    let w = ((b0 as u64) << 56) | ((b1 as u64) << 48) | ((b2 as u64) << 40) | ((b3 as u64) << 32)
        | ((b4 as u64) << 24) | ((b5 as u64) << 16) | ((b6 as u64) << 8) | (b7 as u64);
    proof {
        let sub = s@.subrange(i as int, i as int + 8);
        assert(w == word_from_be(sub[0], sub[1], sub[2], sub[3], sub[4], sub[5], sub[6], sub[7]));
    }
    w
}

/// Reads a big-endian word from the `n < 8` bytes at `s[i .. i + n]`,
/// zero-extended to a full word.
pub fn load_be_partial(s: &[u8], i: usize, n: usize) -> (w: u64)
    requires
        n < 8,
        i + n <= s@.len(),
    ensures
        w == be_word(s@.subrange(i as int, i as int + n)),
{
    let slen = s.len();
    assert(slen == s@.len());
    let mut tmp = zero_vec(8);
    let mut j: usize = 0;
    while j < n
        invariant
            j <= n,
            n < 8,
            i + n <= s@.len(),
            s@.len() <= usize::MAX,
            tmp@.len() == 8,
            forall|k: int| 0 <= k < j ==> tmp@[k] == s@[i + k],
            forall|k: int| j <= k < 8 ==> tmp@[k] == 0u8,
        decreases n - j,
    {
        tmp.set(j, s[i + j]);
        j = j + 1;
    }
    let w = load_be(tmp.as_slice(), 0);
    proof {
        let sub8 = tmp@.subrange(0, 8);
        let sub = s@.subrange(i as int, i as int + n);
        assert forall|k: int| 0 <= k < 8 implies #[trigger] byte_or_zero(sub8, k) == byte_or_zero(
            sub,
            k,
        ) by {
            assert(sub8[k] == tmp@[k]);
        }
    }
    w
}

/// Reads the big-endian 32-bit word at `s[i .. i + 4]`.
pub fn load_be32(s: &[u8], i: usize) -> (w: u32)
    requires
        i + 4 <= s@.len(),
    ensures
        w == be_word32(s@.subrange(i as int, i as int + 4)),
{
    let b0 = s[i];
    let b1 = s[i + 1];
    let b2 = s[i + 2];
    let b3 = s[i + 3];
    let w = ((b0 as u32) << 24) | ((b1 as u32) << 16) | ((b2 as u32) << 8) | (b3 as u32);
    proof {
        let sub = s@.subrange(i as int, i as int + 4);
        assert(sub[0] == b0 && sub[1] == b1 && sub[2] == b2 && sub[3] == b3);
    }
    w
}

/// The big-endian 32-bit word read from four bytes.
pub open spec fn be_word32(s: Seq<u8>) -> u32
    recommends
        s.len() == 4,
{
    (((byte_or_zero(s, 0) as u32) << 24) | ((byte_or_zero(s, 1) as u32) << 16) | ((byte_or_zero(
        s,
        2,
    ) as u32) << 8) | (byte_or_zero(s, 3) as u32))
}

/// Reads the little-endian word at `s[i .. i + 8]`.
pub fn load_le(s: &[u8], i: usize) -> (w: u64)
    requires
        i + 8 <= s@.len(),
    ensures
        w == le_word(s@.subrange(i as int, i as int + 8)),
{
    let b0 = s[i];
    let b1 = s[i + 1];
    let b2 = s[i + 2];
    let b3 = s[i + 3];
    let b4 = s[i + 4];
    let b5 = s[i + 5];
    let b6 = s[i + 6];
    let b7 = s[i + 7];
    let w = ((b7 as u64) << 56) | ((b6 as u64) << 48) | ((b5 as u64) << 40) | ((b4 as u64) << 32)
        | ((b3 as u64) << 24) | ((b2 as u64) << 16) | ((b1 as u64) << 8) | (b0 as u64);
    proof {
        let sub = s@.subrange(i as int, i as int + 8);
        assert(w == word_from_le(sub[0], sub[1], sub[2], sub[3], sub[4], sub[5], sub[6], sub[7]));
    }
    w
}

/// Reads a little-endian word from the `n < 8` bytes at `s[i .. i + n]`,
/// zero-extended to a full word.
pub fn load_le_partial(s: &[u8], i: usize, n: usize) -> (w: u64)
    requires
        n < 8,
        i + n <= s@.len(),
    ensures
        w == le_word(s@.subrange(i as int, i as int + n)),
{
    let slen = s.len();
    assert(slen == s@.len());
    let mut tmp = zero_vec(8);
    let mut j: usize = 0;
    while j < n
        invariant
            j <= n,
            n < 8,
            i + n <= s@.len(),
            s@.len() <= usize::MAX,
            tmp@.len() == 8,
            forall|k: int| 0 <= k < j ==> tmp@[k] == s@[i + k],
            forall|k: int| j <= k < 8 ==> tmp@[k] == 0u8,
        decreases n - j,
    {
        tmp.set(j, s[i + j]);
        j = j + 1;
    }
    let w = load_le(tmp.as_slice(), 0);
    proof {
        let sub8 = tmp@.subrange(0, 8);
        let sub = s@.subrange(i as int, i as int + n);
        assert forall|k: int| 0 <= k < 8 implies #[trigger] byte_or_zero(sub8, k) == byte_or_zero(
            sub,
            k,
        ) by {
            assert(sub8[k] == tmp@[k]);
        }
    }
    w
}

/// Writes the eight big-endian bytes of `w` at `v[i .. i + 8]`.
pub fn store_be(v: &mut Vec<u8>, i: usize, w: u64)
    requires
        i + 8 <= old(v)@.len(),
    ensures
        final(v)@.len() == old(v)@.len(),
        forall|k: int|
            0 <= k < old(v)@.len() ==> final(v)@[k] == if i <= k < i + 8 {
                be_byte(w, k - i)
            } else {
                old(v)@[k]
            },
{
    let vlen = v.len();
    assert(vlen == old(v)@.len());
    v.set(i, ((w >> 56) & 0xff) as u8);
    v.set(i + 1, ((w >> 48) & 0xff) as u8);
    v.set(i + 2, ((w >> 40) & 0xff) as u8);
    v.set(i + 3, ((w >> 32) & 0xff) as u8);
    v.set(i + 4, ((w >> 24) & 0xff) as u8);
    v.set(i + 5, ((w >> 16) & 0xff) as u8);
    v.set(i + 6, ((w >> 8) & 0xff) as u8);
    v.set(i + 7, (w & 0xff) as u8);
    proof {
        assert((w & 0xff) as u8 == ((w >> 0) & 0xff) as u8) by (bit_vector);
    }
}

/// Writes the first `n < 8` big-endian bytes of `w` at `v[i .. i + n]`.
pub fn store_be_partial(v: &mut Vec<u8>, i: usize, n: usize, w: u64)
    requires
        n < 8,
        i + n <= old(v)@.len(),
    ensures
        final(v)@.len() == old(v)@.len(),
        forall|k: int|
            0 <= k < old(v)@.len() ==> final(v)@[k] == if i <= k < i + n {
                be_byte(w, k - i)
            } else {
                old(v)@[k]
            },
{
    let vlen = v.len();
    assert(vlen == old(v)@.len());
    let mut j: usize = 0;
    while j < n
        invariant
            j <= n,
            n < 8,
            i + n <= old(v)@.len(),
            old(v)@.len() <= usize::MAX,
            v@.len() == old(v)@.len(),
            forall|k: int| 0 <= k < i ==> v@[k] == old(v)@[k],
            forall|k: int| i <= k < i + j ==> v@[k] == be_byte(w, k - i),
            forall|k: int| i + j <= k < old(v)@.len() ==> v@[k] == old(v)@[k],
        decreases n - j,
    {
        let shift: u64 = (56 - 8 * (j as u64)) as u64;
        let b = ((w >> shift) & 0xff) as u8;
        proof {
            let jj = j as u64;
            assert(((w >> ((56 - 8 * jj) as u64)) & 0xff) as u8 == ((w >> (((7 - jj) * 8) as u64))
                & 0xff) as u8) by (bit_vector)
                requires
                    jj < 8,
            ;
        }
        v.set(i + j, b);
        j = j + 1;
    }
}

/// Writes the eight little-endian bytes of `w` at `v[i .. i + 8]`.
pub fn store_le(v: &mut Vec<u8>, i: usize, w: u64)
    requires
        i + 8 <= old(v)@.len(),
    ensures
        final(v)@.len() == old(v)@.len(),
        forall|k: int|
            0 <= k < old(v)@.len() ==> final(v)@[k] == if i <= k < i + 8 {
                le_byte(w, k - i)
            } else {
                old(v)@[k]
            },
{
    let vlen = v.len();
    assert(vlen == old(v)@.len());
    v.set(i, (w & 0xff) as u8);
    v.set(i + 1, ((w >> 8) & 0xff) as u8);
    v.set(i + 2, ((w >> 16) & 0xff) as u8);
    v.set(i + 3, ((w >> 24) & 0xff) as u8);
    v.set(i + 4, ((w >> 32) & 0xff) as u8);
    v.set(i + 5, ((w >> 40) & 0xff) as u8);
    v.set(i + 6, ((w >> 48) & 0xff) as u8);
    v.set(i + 7, ((w >> 56) & 0xff) as u8);
    proof {
        assert((w & 0xff) as u8 == ((w >> 0) & 0xff) as u8) by (bit_vector);
    }
}

/// The eight little-endian bytes of `w`, as a fresh vector.
pub fn le_bytes_vec(w: u64) -> (r: Vec<u8>)
    ensures
        r@ == le_bytes_of(w),
{
    let mut r: Vec<u8> = Vec::new();
    r.push((w & 0xff) as u8);
    r.push(((w >> 8) & 0xff) as u8);
    r.push(((w >> 16) & 0xff) as u8);
    r.push(((w >> 24) & 0xff) as u8);
    r.push(((w >> 32) & 0xff) as u8);
    r.push(((w >> 40) & 0xff) as u8);
    r.push(((w >> 48) & 0xff) as u8);
    r.push(((w >> 56) & 0xff) as u8);
    proof {
        assert((w & 0xff) as u8 == ((w >> 0) & 0xff) as u8) by (bit_vector);
        assert(r@ =~= le_bytes_of(w));
    }
    r
}

/// The big-endian padding mask: a single bit set just past `n` data bytes.
pub fn pad(n: usize) -> (r: u64)
    requires
        n < 8,
    ensures
        r == spec_pad(n as int),
{
    0x80u64 << ((56 - 8 * (n as u64)) as u64)
}

/// The little-endian padding mask of the hash variants.
pub fn pad_le(n: usize) -> (r: u64)
    requires
        n < 8,
    ensures
        r == spec_pad_le(n as int),
{
    0x01u64 << ((8 * (n as u64)) as u64)
}

/// Clears the first `n` big-endian bytes of `word`.
pub fn clear(word: u64, n: usize) -> (r: u64)
    requires
        1 <= n < 8,
    ensures
        r == spec_clear(word, n as int),
{
    word & (0x00ffffffffffffffu64 >> ((n as u64) * 8 - 8))
}

/// Rotates the two halves of a key pair into one word, as the Ascon-80pq
/// finalization requires.
pub fn keyrot(lo2hi: u64, hi2lo: u64) -> (r: u64)
    ensures
        r == spec_keyrot(lo2hi, hi2lo),
{
    (lo2hi << 32) | (hi2lo >> 32)
}

} // verus!
