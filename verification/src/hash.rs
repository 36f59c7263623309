//! Ascon-Hash256 and Ascon-XOF128.
//!
//! Both are sponges over the full 12-round permutation with an 8-byte rate
//! and little-endian lane encoding. Input is absorbed in 8-byte blocks with a
//! permutation after each; the trailing partial block (possibly empty) is
//! padded and absorbed exactly once. The hash squeezes a fixed 32-byte
//! digest; the XOF squeezes an unbounded stream.

use vstd::prelude::*;

use crate::permutation::{spec_permute_12, State};
use crate::words::{le_byte, le_bytes_of, le_word, load_le, load_le_partial, pad_le, spec_pad_le,
    store_le, zero_vec};

verus! {

/// The initial state of Ascon-Hash256.
pub open spec fn hash256_init() -> State {
    State {
        x0: 0x9b1e5494e934d681u64,
        x1: 0x4bc3a01e333751d2u64,
        x2: 0xae65396c6b34b81au64,
        x3: 0x3c7fd4a4d56a4db3u64,
        x4: 0x1a5c464906c5976du64,
    }
}

/// The initial state of Ascon-XOF128.
pub open spec fn xof128_init() -> State {
    State {
        x0: 0xda82ce768d9447ebu64,
        x1: 0xcc7ce6c75f1ef969u64,
        x2: 0xe7508fd780085631u64,
        x3: 0x0ee0ea53416b58ccu64,
        x4: 0xe0547524db6f0bdeu64,
    }
}

/// Absorption of whole 8-byte blocks: each is XORed into the first lane,
/// little-endian, and followed by a 12-round permutation. A trailing partial
/// block is left alone.
pub open spec fn spec_absorb_blocks(s: State, msg: Seq<u8>) -> State
    decreases msg.len(),
{
    if msg.len() >= 8 {
        let s1 = State {
            x0: s.x0 ^ le_word(msg.subrange(0, 8)),
            x1: s.x1,
            x2: s.x2,
            x3: s.x3,
            x4: s.x4,
        };
        spec_absorb_blocks(spec_permute_12(s1), msg.skip(8))
    } else {
        s
    }
}

/// Absorption of the padded trailing block, always exactly once.
pub open spec fn spec_absorb_final(s: State, tail: Seq<u8>) -> State
    recommends
        tail.len() < 8,
{
    spec_permute_12(
        State {
            x0: s.x0 ^ le_word(tail) ^ spec_pad_le(tail.len() as int),
            x1: s.x1,
            x2: s.x2,
            x3: s.x3,
            x4: s.x4,
        },
    )
}

/// The state after absorbing a whole message, blocks then padded tail.
pub open spec fn spec_absorbed(init: State, msg: Seq<u8>) -> State {
    let full = msg.len() - (msg.len() % 8);
    spec_absorb_final(spec_absorb_blocks(init, msg.take(full as int)), msg.skip(full as int))
}

/// Fixed-length squeezing: read the first lane, permute between blocks but
/// not after the last.
pub open spec fn spec_squeeze(s: State, n: int) -> Seq<u8>
    decreases n,
{
    if n <= 0 {
        Seq::empty()
    } else if n <= 8 {
        le_bytes_of(s.x0).take(n)
    } else {
        le_bytes_of(s.x0) + spec_squeeze(spec_permute_12(s), n - 8)
    }
}

/// The 32-byte Ascon-Hash256 digest of a message.
pub open spec fn spec_hash256(msg: Seq<u8>) -> Seq<u8> {
    spec_squeeze(spec_absorbed(hash256_init(), msg), 32)
}

/// Byte `i` of the unbounded Ascon-XOF128 output stream from a finalized
/// state: the streaming reader permutes after every block.
pub open spec fn xof_byte(s: State, i: int) -> u8
    recommends
        0 <= i,
    decreases i,
{
    if i < 8 {
        le_byte(s.x0, i)
    } else {
        xof_byte(spec_permute_12(s), i - 8)
    }
}

/// The finalized state `k` squeezed blocks into the XOF output stream.
pub open spec fn xof_state_after(s: State, k: int) -> State
    decreases k,
{
    if k <= 0 {
        s
    } else {
        xof_state_after(spec_permute_12(s), k - 1)
    }
}

/// The first `n` bytes of the Ascon-XOF128 output for a message.
pub open spec fn spec_xof128(msg: Seq<u8>, n: int) -> Seq<u8> {
    Seq::new(n as nat, |i: int| xof_byte(spec_absorbed(xof128_init(), msg), i))
}

/// Streaming equivalence (law): absorbing `a` and then `b` reaches the same
/// state as absorbing their concatenation in one piece, provided `a` ends on
/// a block boundary. Together with the updates' contracts, feeding a message
/// in any pieces yields the digest of the concatenation.
pub proof fn lemma_absorb_blocks_append(s: State, a: Seq<u8>, b: Seq<u8>)
    requires
        a.len() % 8 == 0,
    ensures
        spec_absorb_blocks(s, a + b) == spec_absorb_blocks(spec_absorb_blocks(s, a), b),
    decreases a.len(),
{
    if a.len() == 0 {
        assert(a + b =~= b);
    } else {
        let ab = a + b;
        assert(ab.subrange(0, 8) =~= a.subrange(0, 8));
        assert(ab.skip(8) =~= a.skip(8) + b);
        let s1 = State {
            x0: s.x0 ^ le_word(a.subrange(0, 8)),
            x1: s.x1,
            x2: s.x2,
            x3: s.x3,
            x4: s.x4,
        };
        lemma_absorb_blocks_append(spec_permute_12(s1), a.skip(8), b);
    }
}

/// The squeeze of `n` bytes has `n` bytes.
pub proof fn lemma_squeeze_len(s: State, n: int)
    requires
        0 <= n,
    ensures
        spec_squeeze(s, n).len() == n,
    decreases n,
{
    assert(le_bytes_of(s.x0).len() == 8);
    if n > 8 {
        lemma_squeeze_len(spec_permute_12(s), n - 8);
    }
}

/// Idempotent reset (law): the digest is a function of the absorbed bytes
/// alone. `reset` leaves a hasher with the abstract value of a fresh one, and
/// `update` extends that value the same way on both, so a reused, reset
/// hasher and a fresh hasher fed the same input finalize to the same digest.
pub proof fn lemma_digest_of_view(a: Seq<u8>, b: Seq<u8>)
    requires
        a == b,
    ensures
        spec_hash256(a) == spec_hash256(b),
{
}

/// Bytes of the fixed-length squeeze agree with the XOF stream bytes.
pub proof fn lemma_squeeze_is_stream(s: State, n: int, i: int)
    requires
        0 <= i < n,
    ensures
        spec_squeeze(s, n)[i] == xof_byte(s, i),
    decreases n,
{
    assert(le_bytes_of(s.x0).len() == 8);
    if i < 8 {
        if n <= 8 {
            assert(spec_squeeze(s, n) == le_bytes_of(s.x0).take(n));
        } else {
            assert(spec_squeeze(s, n) == le_bytes_of(s.x0) + spec_squeeze(
                spec_permute_12(s),
                n - 8,
            ));
            assert((le_bytes_of(s.x0) + spec_squeeze(spec_permute_12(s), n - 8))[i]
                == le_bytes_of(s.x0)[i]);
        }
        assert(xof_byte(s, i) == le_byte(s.x0, i));
    } else {
        lemma_squeeze_is_stream(spec_permute_12(s), n - 8, i - 8);
        lemma_squeeze_len(spec_permute_12(s), n - 8);
        assert(spec_squeeze(s, n) == le_bytes_of(s.x0) + spec_squeeze(spec_permute_12(s), n - 8));
        assert((le_bytes_of(s.x0) + spec_squeeze(spec_permute_12(s), n - 8))[i] == spec_squeeze(
            spec_permute_12(s),
            n - 8,
        )[i - 8]);
        assert(xof_byte(s, i) == xof_byte(spec_permute_12(s), i - 8));
    }
}

/// A stream byte past the first `k` blocks is a stream byte of the state
/// advanced by `k` blocks.
proof fn lemma_xof_byte_after(s: State, k: int, j: int)
    requires
        0 <= j < 8,
        0 <= k,
    ensures
        xof_byte(xof_state_after(s, k), j) == xof_byte(s, 8 * k + j),
    decreases k,
{
    if k > 0 {
        lemma_xof_byte_after(spec_permute_12(s), k - 1, j);
    }
}

/// Advancing one more block permutes the advanced state once.
proof fn lemma_xof_state_after_snoc(s: State, k: int)
    requires
        0 <= k,
    ensures
        xof_state_after(s, k + 1) == spec_permute_12(xof_state_after(s, k)),
    decreases k,
{
    assert(xof_state_after(s, k + 1) == xof_state_after(spec_permute_12(s), k));
    if k > 0 {
        lemma_xof_state_after_snoc(spec_permute_12(s), k - 1);
        assert(xof_state_after(s, k) == xof_state_after(spec_permute_12(s), k - 1));
    } else {
        assert(xof_state_after(spec_permute_12(s), 0) == spec_permute_12(s));
        assert(xof_state_after(s, 0) == s);
    }
}

/// Absorb `data` into a running block-wise sponge: `buf` holds the bytes of
/// the current partial block.
fn absorb_into(state: &mut State, buf: &mut Vec<u8>, data: &[u8])
    requires
        old(buf)@.len() < 8,
    ensures
        final(buf)@.len() < 8,
        ({
            let all = old(buf)@ + data@;
            let full = all.len() - (all.len() % 8);
            &&& final(buf)@ == all.skip(full as int)
            &&& *final(state) == spec_absorb_blocks(*old(state), all.take(full as int))
        }),
{
    let dlen = data.len();
    let mut i: usize = 0;
    proof {
        let all = old(buf)@ + data@.take(0);
        assert(all =~= old(buf)@);
        assert(all.skip(0) =~= all);
        assert(all.take(0) =~= Seq::<u8>::empty());
    }
    while i < dlen
        invariant
            i <= dlen,
            dlen == data@.len(),
            buf@.len() < 8,
            ({
                let all = old(buf)@ + data@.take(i as int);
                let full = all.len() - (all.len() % 8);
                &&& buf@ == all.skip(full as int)
                &&& *state == spec_absorb_blocks(*old(state), all.take(full as int))
            }),
        decreases dlen - i,
    {
        let ghost all_pre = old(buf)@ + data@.take(i as int);
        let ghost full_pre = all_pre.len() - (all_pre.len() % 8);
        let ghost st_pre = *state;
        buf.push(data[i]);
        i = i + 1;
        let ghost all = old(buf)@ + data@.take(i as int);
        proof {
            assert(all =~= all_pre + seq![data@[i - 1]]);
        }
        if buf.len() == 8 {
            let ghost block = buf@;
            let w = load_le(buf.as_slice(), 0);
            state.x0 = state.x0 ^ w;
            state.permute_12();
            buf.clear();
            proof {
                assert(all_pre.len() % 8 == 7);
                let full = all.len() - (all.len() % 8);
                assert(all.len() % 8 == 0);
                assert(full == all.len());
                assert(block =~= all.skip(full_pre as int));
                assert(all.take(full as int) =~= all.take(full_pre as int) + block);
                assert(all.take(full_pre as int) =~= all_pre.take(full_pre as int));
                lemma_absorb_blocks_append(*old(state), all.take(full_pre as int), block);
                assert(block.subrange(0, 8) =~= block);
                assert(block.skip(8) =~= Seq::<u8>::empty());
                let stepped = State {
                    x0: st_pre.x0 ^ le_word(block.subrange(0, 8)),
                    x1: st_pre.x1,
                    x2: st_pre.x2,
                    x3: st_pre.x3,
                    x4: st_pre.x4,
                };
                assert(spec_absorb_blocks(spec_permute_12(stepped), block.skip(8))
                    == spec_permute_12(stepped));
                assert(spec_absorb_blocks(st_pre, block) == spec_permute_12(stepped));
                assert(all.skip(full as int) =~= Seq::<u8>::empty());
            }
        } else {
            proof {
                let full = all.len() - (all.len() % 8);
                assert(full == full_pre);
                assert(all.skip(full as int) =~= all_pre.skip(full_pre as int) + seq![
                    data@[i - 1],
                ]);
                assert(all.take(full as int) =~= all_pre.take(full_pre as int));
            }
        }
    }
    proof {
        assert(old(buf)@ + data@.take(dlen as int) =~= old(buf)@ + data@);
    }
}

/// The running sponge of a hasher: the state after the absorbed full blocks,
/// and the bytes of the current partial block.
struct Sponge {
    state: State,
    buf: Vec<u8>,
    absorbed: Ghost<Seq<u8>>,
}

impl Sponge {
    /// `absorbed` splits into full blocks, already in `state`, and the tail
    /// held in `buf`.
    spec fn wf_for(self, init: State) -> bool {
        &&& self.buf@.len() < 8
        &&& self.absorbed@.len() >= self.buf@.len()
        &&& (self.absorbed@.len() - self.buf@.len()) % 8 == 0
        &&& self.buf@ == self.absorbed@.skip(self.absorbed@.len() - self.buf@.len())
        &&& self.state == spec_absorb_blocks(
            init,
            self.absorbed@.take(self.absorbed@.len() - self.buf@.len()),
        )
    }

    fn empty(x0: u64, x1: u64, x2: u64, x3: u64, x4: u64) -> (r: Sponge)
        ensures
            r.wf_for(State { x0, x1, x2, x3, x4 }),
            r.absorbed@ == Seq::<u8>::empty(),
    {
        let r = Sponge {
            state: State::new(x0, x1, x2, x3, x4),
            buf: Vec::new(),
            absorbed: Ghost(Seq::empty()),
        };
        proof {
            assert(r.absorbed@.take(0) =~= Seq::<u8>::empty());
            assert(r.absorbed@.skip(0) =~= Seq::<u8>::empty());
        }
        r
    }

    fn update_for(&mut self, data: &[u8], Ghost(init): Ghost<State>)
        requires
            old(self).wf_for(init),
        ensures
            final(self).wf_for(init),
            final(self).absorbed@ == old(self).absorbed@ + data@,
    {
        let ghost done = old(self).absorbed@.take(
            old(self).absorbed@.len() - old(self).buf@.len(),
        );
        let ghost oldbuf = self.buf@;
        absorb_into(&mut self.state, &mut self.buf, data);
        proof {
            self.absorbed@ = old(self).absorbed@ + data@;
        }
        proof {
            let all = oldbuf + data@;
            let full = all.len() - (all.len() % 8);
            let a = self.absorbed@;
            let fnew = a.len() - self.buf@.len();
            assert(a =~= done + all);
            assert(self.buf@.len() == all.len() % 8);
            assert(fnew == done.len() + full);
            assert(a.skip(fnew as int) =~= all.skip(full as int));
            assert(a.take(fnew as int) =~= done + all.take(full as int));
            lemma_absorb_blocks_append(init, done, all.take(full as int));
        }
    }

    /// Absorb the padded tail: the state that squeezing starts from.
    fn final_state(self, Ghost(init): Ghost<State>) -> (r: State)
        requires
            self.wf_for(init),
        ensures
            r == spec_absorbed(init, self.absorbed@),
    {
        let mut st = self.state;
        let n = self.buf.len();
        if n > 0 {
            st.x0 = st.x0 ^ load_le_partial(self.buf.as_slice(), 0, n);
        } else {
            proof {
                crate::words::lemma_xor_zero(st.x0);
            }
        }
        st.x0 = st.x0 ^ pad_le(n);
        st.permute_12();
        proof {
            let a = self.absorbed@;
            let full = a.len() - (a.len() % 8);
            assert(a.len() - self.buf@.len() == full);
            assert(self.buf@.subrange(0, n as int) =~= self.buf@);
            assert(a.skip(full as int) == self.buf@);
        }
        st
    }
}

/// The Ascon-Hash256 hasher. Its abstract value is the byte sequence
/// absorbed so far.
pub struct AsconCore {
    sponge: Sponge,
}

impl View for AsconCore {
    type V = Seq<u8>;

    closed spec fn view(&self) -> Seq<u8> {
        self.sponge.absorbed@
    }
}

impl AsconCore {
    /// The hasher's state matches the bytes absorbed so far.
    pub closed spec fn wf(self) -> bool {
        self.sponge.wf_for(hash256_init())
    }

    /// A fresh hasher: nothing absorbed.
    pub fn new() -> (r: AsconCore)
        ensures
            r.wf(),
            r@ == Seq::<u8>::empty(),
    {
        AsconCore {
            sponge: Sponge::empty(
                0x9b1e5494e934d681,
                0x4bc3a01e333751d2,
                0xae65396c6b34b81a,
                0x3c7fd4a4d56a4db3,
                0x1a5c464906c5976d,
            ),
        }
    }

    /// Absorb more message bytes; any number of calls, of any sizes, absorbs
    /// their concatenation.
    pub fn update(&mut self, data: &[u8])
        requires
            old(self).wf(),
        ensures
            final(self).wf(),
            final(self)@ == old(self)@ + data@,
    {
        self.sponge.update_for(data, Ghost(hash256_init()));
    }

    /// Return to the fresh state, as a newly constructed hasher.
    pub fn reset(&mut self)
        ensures
            final(self).wf(),
            final(self)@ == Seq::<u8>::empty(),
    {
        *self = AsconCore::new();
    }

    /// Consume the hasher and produce the 32-byte digest of everything
    /// absorbed.
    pub fn finalize(self) -> (digest: Vec<u8>)
        requires
            self.wf(),
        ensures
            digest@ == spec_hash256(self@),
            digest@.len() == 32,
    {
        let ghost msg = self@;
        let mut st = self.sponge.final_state(Ghost(hash256_init()));
        let ghost s0 = st;
        let mut digest = zero_vec(32);
        store_le(&mut digest, 0, st.x0);
        st.permute_12();
        let ghost s1 = st;
        store_le(&mut digest, 8, st.x0);
        st.permute_12();
        let ghost s2 = st;
        store_le(&mut digest, 16, st.x0);
        st.permute_12();
        let ghost s3 = st;
        store_le(&mut digest, 24, st.x0);
        proof {
            assert(spec_squeeze(s3, 8) == le_bytes_of(s3.x0).take(8));
            assert(le_bytes_of(s3.x0).take(8) =~= le_bytes_of(s3.x0));
            assert(spec_squeeze(s2, 16) == le_bytes_of(s2.x0) + spec_squeeze(s3, 8));
            assert(spec_squeeze(s1, 24) == le_bytes_of(s1.x0) + spec_squeeze(s2, 16));
            assert(spec_squeeze(s0, 32) == le_bytes_of(s0.x0) + spec_squeeze(s1, 24));
            assert(digest@ =~= le_bytes_of(s0.x0) + (le_bytes_of(s1.x0) + (le_bytes_of(s2.x0)
                + le_bytes_of(s3.x0))));
        }
        digest
    }
}

/// The Ascon-XOF128 absorber. Its abstract value is the byte sequence
/// absorbed so far.
pub struct AsconXofCore {
    sponge: Sponge,
}

impl View for AsconXofCore {
    type V = Seq<u8>;

    closed spec fn view(&self) -> Seq<u8> {
        self.sponge.absorbed@
    }
}

impl AsconXofCore {
    /// The absorber's state matches the bytes absorbed so far.
    pub closed spec fn wf(self) -> bool {
        self.sponge.wf_for(xof128_init())
    }

    /// A fresh absorber: nothing absorbed.
    pub fn new() -> (r: AsconXofCore)
        ensures
            r.wf(),
            r@ == Seq::<u8>::empty(),
    {
        AsconXofCore {
            sponge: Sponge::empty(
                0xda82ce768d9447eb,
                0xcc7ce6c75f1ef969,
                0xe7508fd780085631,
                0x0ee0ea53416b58cc,
                0xe0547524db6f0bde,
            ),
        }
    }

    /// Absorb more message bytes; any number of calls, of any sizes, absorbs
    /// their concatenation.
    pub fn update(&mut self, data: &[u8])
        requires
            old(self).wf(),
        ensures
            final(self).wf(),
            final(self)@ == old(self)@ + data@,
    {
        self.sponge.update_for(data, Ghost(xof128_init()));
    }

    /// Return to the fresh state, as a newly constructed absorber.
    pub fn reset(&mut self)
        ensures
            final(self).wf(),
            final(self)@ == Seq::<u8>::empty(),
    {
        *self = AsconXofCore::new();
    }

    /// Consume the absorber and produce a reader positioned at the start of
    /// the unbounded output stream of the absorbed message.
    pub fn finalize_xof(self) -> (r: AsconXofReaderCore)
        requires
            self.wf(),
        ensures
            r.wf(),
            r.stream() == spec_absorbed(xof128_init(), self@),
            r.position() == 0,
    {
        let st = self.sponge.final_state(Ghost(xof128_init()));
        let r = AsconXofReaderCore {
            state: st,
            buf: Vec::new(),
            pos: 0,
            base: Ghost(st),
            offset: Ghost(0),
        };
        proof {
            assert(xof_state_after(st, 0) == st);
        }
        r
    }
}

/// A reader over the unbounded Ascon-XOF128 output stream: it owns the
/// finalized state and serves the stream in order, any number of bytes per
/// call.
pub struct AsconXofReaderCore {
    state: State,
    buf: Vec<u8>,
    pos: usize,
    base: Ghost<State>,
    offset: Ghost<int>,
}

impl AsconXofReaderCore {
    /// The finalized state whose output stream this reader serves.
    pub closed spec fn stream(self) -> State {
        self.base@
    }

    /// How many stream bytes have been served so far.
    pub closed spec fn position(self) -> int {
        self.offset@
    }

    /// The buffered block and the advanced state sit at `position` of the
    /// stream of `base`.
    pub closed spec fn wf(self) -> bool {
        &&& self.pos <= self.buf@.len() <= 8
        &&& self.offset@ >= 0
        &&& (self.offset@ + (self.buf@.len() - self.pos)) % 8 == 0
        &&& self.state == xof_state_after(
            self.base@,
            (self.offset@ + (self.buf@.len() - self.pos)) / 8,
        )
        &&& forall|j: int|
            self.pos <= j < self.buf@.len() ==> self.buf@[j] == xof_byte(
                self.base@,
                self.offset@ + (j - self.pos),
            )
    }

    /// Read the next `n` bytes of the output stream.
    pub fn read(&mut self, n: usize) -> (out: Vec<u8>)
        requires
            old(self).wf(),
        ensures
            final(self).wf(),
            final(self).stream() == old(self).stream(),
            final(self).position() == old(self).position() + n,
            out@.len() == n,
            forall|j: int|
                0 <= j < n ==> out@[j] == xof_byte(old(self).stream(), old(self).position() + j),
    {
        let mut out: Vec<u8> = Vec::new();
        let mut served: usize = 0;
        while served < n
            invariant
                served <= n,
                self.wf(),
                self.base@ == old(self).base@,
                self.offset@ == old(self).offset@ + served,
                out@.len() == served,
                forall|j: int|
                    0 <= j < served ==> out@[j] == xof_byte(
                        old(self).base@,
                        old(self).offset@ + j,
                    ),
            decreases n - served, (if self.pos == self.buf.len() {
                1int
            } else {
                0int
            }),
        {
            if self.pos == self.buf.len() {
                let ghost k = self.offset@ / 8;
                proof {
                    assert(self.offset@ % 8 == 0);
                    assert(8 * k == self.offset@);
                }
                self.buf = crate::words::le_bytes_vec(self.state.x0);
                self.pos = 0;
                proof {
                    assert forall|j: int| 0 <= j < 8 implies self.buf@[j] == xof_byte(
                        self.base@,
                        self.offset@ + j,
                    ) by {
                        lemma_xof_byte_after(self.base@, k, j);
                        assert(self.buf@[j] == le_byte(self.state.x0, j));
                        assert(xof_byte(xof_state_after(self.base@, k), j) == le_byte(
                            xof_state_after(self.base@, k).x0,
                            j,
                        ));
                    }
                }
                self.state.permute_12();
                proof {
                    lemma_xof_state_after_snoc(self.base@, k);
                    assert((self.offset@ + (self.buf@.len() - self.pos)) / 8 == k + 1);
                }
            } else {
                let b = self.buf[self.pos];
                out.push(b);
                self.pos = self.pos + 1;
                proof {
                    self.offset@ = self.offset@ + 1;
                }
                served = served + 1;
            }
        }
        out
    }
}

} // verus!
