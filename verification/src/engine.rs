//! The streaming SHA-1 engine.
//!
//! [`Sha1`] absorbs bytes in arbitrary chunks and produces a 20-byte
//! digest. Its view `@` is the sequence of bytes absorbed since creation
//! (or the last reset); every contract is stated against that view and the
//! definitions in [`crate::model`].

use crate::model::{
    be64_bytes, be_word, chain_state, compress, init_state, padding, rotl, schedule_word,
    sha1_digest, state_bytes, work_state,
};
use vstd::prelude::*;

verus! {

/// An incremental SHA-1 engine.
///
/// SHA-1 is cryptographically broken and unsuitable for security purposes;
/// this engine is for compatibility with formats that still require it.
pub struct Sha1 {
    /// Count of bytes absorbed since the last reset; its bit count
    /// `8 * total` becomes the padding trailer.
    total: u64,
    /// The running five-word digest accumulator.
    state: [u32; 5],
    /// How many bytes of `buffer` are occupied by the message tail.
    fill: usize,
    /// Staging area for the tail of the message that has not yet formed a
    /// complete 64-byte block.
    buffer: [u8; 64],
    /// The bytes absorbed since the last reset, kept only for
    /// specification.
    absorbed: Ghost<Seq<u8>>,
}

impl View for Sha1 {
    type V = Seq<u8>;

    /// The abstract state of the engine: every byte absorbed since
    /// creation or the last reset, in order.
    closed spec fn view(&self) -> Seq<u8> {
        self.absorbed@
    }
}

impl Sha1 {
    /// The five words of the running digest accumulator.
    pub closed spec fn state_words(&self) -> Seq<u32> {
        self.state@
    }

    /// The 64 bytes of the staging buffer.
    pub closed spec fn staged(&self) -> Seq<u8> {
        self.buffer@
    }

    /// How many bytes of the staging buffer are occupied.
    pub closed spec fn fill_count(&self) -> int {
        self.fill as int
    }

    /// The byte counter feeding the padding trailer.
    pub closed spec fn total_count(&self) -> u64 {
        self.total
    }

    /// The engine is consistent with its view: the counters track the
    /// absorbed bytes, the state chains all complete blocks, and the
    /// buffer stages the remaining tail.
    pub closed spec fn wf(&self) -> bool {
        &&& 8 * self.absorbed@.len() <= u64::MAX
        &&& self.total == self.absorbed@.len()
        &&& self.fill < 64
        &&& self.fill == self.absorbed@.len() % 64
        &&& self.state@ == chain_state(self.absorbed@.take(self.absorbed@.len() - self.fill))
        &&& self.buffer@.take(self.fill as int) == self.absorbed@.skip(
            self.absorbed@.len() - self.fill,
        )
    }

    /// A fresh engine: initialization vector loaded, nothing absorbed.
    pub fn new() -> (engine: Self)
        ensures
            engine.wf(),
            engine@ == Seq::<u8>::empty(),
    {
        let engine = Sha1 {
            total: 0,
            state: [0x67452301u32, 0xEFCDAB89u32, 0x98BADCFEu32, 0x10325476u32, 0xC3D2E1F0u32],
            fill: 0,
            buffer: [0u8; 64],
            absorbed: Ghost(Seq::empty()),
        };
        proof {
            assert(engine.state@ =~= init_state());
            assert(engine.absorbed@.take(0) =~= engine.absorbed@.skip(0));
            assert(engine.buffer@.take(0) =~= engine.absorbed@.skip(0));
        }
        engine
    }

    /// One compression transform: folds the full 64-byte staging buffer
    /// into the running state. The counters, the buffer and the absorbed
    /// record are left unchanged.
    pub fn compute(&mut self)
        ensures
            final(self).state_words() == compress(old(self).state_words(), old(self).staged()),
            final(self).total_count() == old(self).total_count(),
            final(self).fill_count() == old(self).fill_count(),
            final(self).staged() == old(self).staged(),
            final(self)@ == old(self)@,
    {
        let ghost h = self.state@;
        let ghost block = self.buffer@;

        // The 80-word message schedule.
        let mut words: [u32; 80] = [0u32; 80];
        let mut i: usize = 0;
        while i < 16
            invariant
                i <= 16,
                block == self.buffer@,
                forall|j: int| 0 <= j < i ==> words@[j] == schedule_word(block, j),
            decreases 16 - i,
        {
            let w = ((self.buffer[4 * i] as u32) << 24) | ((self.buffer[4 * i + 1] as u32) << 16)
                | ((self.buffer[4 * i + 2] as u32) << 8) | (self.buffer[4 * i + 3] as u32);
            proof {
                let sub = block.subrange(4 * (i as int), 4 * (i as int) + 4);
                assert(sub[0] == block[4 * (i as int)]);
                assert(sub[1] == block[4 * (i as int) + 1]);
                assert(sub[2] == block[4 * (i as int) + 2]);
                assert(sub[3] == block[4 * (i as int) + 3]);
                assert(w == be_word(sub));
                assert(w == schedule_word(block, i as int));
            }
            words[i] = w;
            i = i + 1;
        }
        while i < 80
            invariant
                16 <= i <= 80,
                block == self.buffer@,
                forall|j: int| 0 <= j < i ==> words@[j] == schedule_word(block, j),
            decreases 80 - i,
        {
            let x = words[i - 3] ^ words[i - 8] ^ words[i - 14] ^ words[i - 16];
            let w = rotl32(x, 1);
            proof {
                assert(words@[i as int - 3] == schedule_word(block, i as int - 3));
                assert(words@[i as int - 8] == schedule_word(block, i as int - 8));
                assert(words@[i as int - 14] == schedule_word(block, i as int - 14));
                assert(words@[i as int - 16] == schedule_word(block, i as int - 16));
                assert(w == schedule_word(block, i as int));
            }
            words[i] = w;
            i = i + 1;
        }

        // The 80 rounds over the working registers.
        let mut a = self.state[0];
        let mut b = self.state[1];
        let mut c = self.state[2];
        let mut d = self.state[3];
        let mut e = self.state[4];
        let mut i: usize = 0;
        while i < 80
            invariant
                i <= 80,
                h == self.state@,
                block == self.buffer@,
                forall|j: int| 0 <= j < 80 ==> words@[j] == schedule_word(block, j),
                (a, b, c, d, e) == work_state(h, block, i as int),
            decreases 80 - i,
        {
            let f: u32;
            let k: u32;
            if i < 20 {
                f = (b & c) | ((!b) & d);
                k = 0x5A827999;
            } else if i < 40 {
                f = b ^ c ^ d;
                k = 0x6ED9EBA1;
            } else if i < 60 {
                f = (b & c) | (b & d) | (c & d);
                k = 0x8F1BBCDC;
            } else {
                f = b ^ c ^ d;
                k = 0xCA62C1D6;
            }
            let temp = rotl32(a, 5).wrapping_add(f).wrapping_add(e).wrapping_add(k).wrapping_add(
                words[i],
            );
            e = d;
            d = c;
            c = rotl32(b, 30);
            b = a;
            a = temp;
            i = i + 1;
            proof {
                assert((a, b, c, d, e) == work_state(h, block, i as int));
            }
        }

        // Fold the working registers back onto the persistent state.
        self.state[0] = self.state[0].wrapping_add(a);
        self.state[1] = self.state[1].wrapping_add(b);
        self.state[2] = self.state[2].wrapping_add(c);
        self.state[3] = self.state[3].wrapping_add(d);
        self.state[4] = self.state[4].wrapping_add(e);
        proof {
            assert(self.state@ =~= compress(h, block));
        }
    }

    /// Absorbs `data` into the engine. Streaming is associative: the
    /// engine ends up having absorbed exactly its previous bytes followed
    /// by `data`, however the message is split across calls, so any
    /// chunking of a message leads to the same digest.
    pub fn update(&mut self, data: &[u8])
        requires
            old(self).wf(),
            8 * (old(self)@.len() + data@.len()) <= u64::MAX,
        ensures
            final(self).wf(),
            final(self)@ == old(self)@ + data@,
    {
        let mut i: usize = 0;
        while i < data.len()
            invariant
                self.wf(),
                i <= data@.len(),
                8 * (old(self)@.len() + data@.len()) <= u64::MAX,
                self@ == old(self)@ + data@.take(i as int),
            decreases data@.len() - i,
        {
            let ghost pre = *self;
            let ghost m = pre.absorbed@;
            let ghost ll = m.len() as int;
            let ghost r = pre.fill as int;
            proof {
                vstd::arithmetic::div_mod::lemma_fundamental_div_mod(ll, 64);
            }
            let ghost q = ll / 64;

            let byte = data[i];
            self.buffer[self.fill] = byte;
            self.fill = self.fill + 1;
            self.total = self.total + 1;
            self.absorbed = Ghost(self.absorbed@.push(byte));
            proof {
                assert(self.absorbed@.take(ll - r) =~= m.take(ll - r));
                assert forall|j: int| 0 <= j < r + 1 implies #[trigger] self.buffer@.take(r + 1)[j]
                    == self.absorbed@.skip(ll - r)[j] by {
                    if j < r {
                        assert(pre.buffer@.take(r)[j] == m.skip(ll - r)[j]);
                    }
                }
                assert(self.buffer@.take(r + 1) =~= self.absorbed@.skip(ll - r));
            }
            if self.fill == 64 {
                proof {
                    vstd::arithmetic::div_mod::lemma_fundamental_div_mod_converse_mod(
                        ll + 1,
                        64,
                        q + 1,
                        0,
                    );
                    vstd::arithmetic::div_mod::lemma_fundamental_div_mod_converse_mod(
                        ll - 63,
                        64,
                        q,
                        0,
                    );
                    assert(self.buffer@.take(64) =~= self.buffer@);
                    crate::model::lemma_chain_step(m.take(ll - 63), self.buffer@);
                    assert(m.take(ll - 63) + self.buffer@ =~= self.absorbed@);
                }
                self.compute();
                self.fill = 0;
                proof {
                    assert(self.absorbed@.take(ll + 1) =~= self.absorbed@);
                    assert(self.buffer@.take(0) =~= self.absorbed@.skip(ll + 1));
                }
            } else {
                proof {
                    vstd::arithmetic::div_mod::lemma_fundamental_div_mod_converse_mod(
                        ll + 1,
                        64,
                        q,
                        r + 1,
                    );
                }
            }
            i = i + 1;
            proof {
                assert(self@ =~= old(self)@ + data@.take(i as int));
            }
        }
        proof {
            assert(data@.take(data@.len() as int) =~= data@);
        }
    }

    /// Pads the absorbed message and runs the final compression or two:
    /// afterward the state holds the chaining value of the fully padded
    /// message. The byte counter and the absorbed record are untouched;
    /// the staging buffer is consumed.
    #[verifier::loop_isolation(false)]
    pub fn compute_padded(&mut self)
        requires
            old(self).wf(),
        ensures
            final(self).state_words() == chain_state(
                old(self)@ + padding(old(self)@.len() as int),
            ),
            final(self).total_count() == old(self).total_count(),
            final(self)@ == old(self)@,
    {
        let ghost m = self.absorbed@;
        let ghost ll = m.len() as int;
        let ghost r = self.fill as int;
        let ghost full = ll - r;
        let ghost tail = m.skip(full);
        let ghost padded = m + padding(ll);
        proof {
            vstd::arithmetic::div_mod::lemma_fundamental_div_mod(ll, 64);
            vstd::arithmetic::div_mod::lemma_fundamental_div_mod_converse_mod(
                full,
                64,
                ll / 64,
                0,
            );
        }

        // Append the 0x80 marker at the fill position.
        self.buffer[self.fill] = 0x80;
        proof {
            assert(self.buffer@[r] == 0x80u8);
        }
        let mut pos: usize = self.fill + 1;

        let ghost b0 = self.buffer@;

        if pos > 56 {
            // Fewer than 8 bytes are free before the block boundary: the
            // trailer does not fit, so close this block and start a fresh
            // one.
            proof {
                vstd::arithmetic::div_mod::lemma_fundamental_div_mod_converse_mod(
                    119 - r,
                    64,
                    0,
                    119 - r,
                );
            }
            while pos < 64
                invariant
                    r + 1 <= pos <= 64,
                    self.total == old(self).total,
                    self.state == old(self).state,
                    self.fill == old(self).fill,
                    self.absorbed == old(self).absorbed,
                    forall|j: int| 0 <= j <= r ==> self.buffer@[j] == b0[j],
                    forall|j: int| r < j < pos ==> self.buffer@[j] == 0u8,
                decreases 64 - pos,
            {
                self.buffer[pos] = 0;
                pos = pos + 1;
            }
            proof {
                let block1 = tail + seq![0x80u8] + Seq::new((63 - r) as nat, |j: int| 0u8);
                assert forall|j: int| 0 <= j < 64 implies #[trigger] self.buffer@[j]
                    == block1[j] by {
                    assert(tail.len() == r);
                    if j < r {
                        assert(self.buffer@[j] == b0[j]);
                        assert(b0[j] == old(self).buffer@[j]);
                        assert(old(self).buffer@.take(r)[j] == m.skip(full)[j]);
                        assert(block1[j] == tail[j]);
                    } else if j == r {
                        assert(self.buffer@[j] == 0x80u8);
                        assert(block1[j] == 0x80u8);
                    } else {
                        assert(self.buffer@[j] == 0u8);
                        assert(block1[j] == 0u8);
                    }
                }
                assert(self.buffer@ =~= block1);
                assert(padded.take(full + 64) =~= m.take(full) + self.buffer@);
                assert(m.take(full) =~= m.take(ll - r));
                crate::model::lemma_chain_step(m.take(full), self.buffer@);
            }
            self.compute();
            pos = 0;
            proof {
                vstd::arithmetic::div_mod::lemma_fundamental_div_mod_converse_mod(
                    full + 64,
                    64,
                    ll / 64 + 1,
                    0,
                );
                assert(self.state@ == chain_state(padded.take(full + 64)));
            }
        } else {
            proof {
                vstd::arithmetic::div_mod::lemma_fundamental_div_mod_converse_mod(
                    119 - r,
                    64,
                    1,
                    55 - r,
                );
                assert(padded.take(full) =~= m.take(ll - r));
                assert(self.state@ == chain_state(padded.take(full)));
            }
        }
        let ghost base: int = if r > 55 {
            full + 64
        } else {
            full
        };
        let ghost mid = *self;
        proof {
            assert(mid.state@ == chain_state(padded.take(base)));
        }

        // Zero-fill up to the length trailer.
        let ghost b1 = self.buffer@;
        let ghost pos0 = pos as int;
        while pos < 56
            invariant
                pos0 <= pos <= 56,
                self.total == mid.total,
                self.state == mid.state,
                self.absorbed == mid.absorbed,
                forall|j: int| 0 <= j < pos0 ==> self.buffer@[j] == b1[j],
                forall|j: int| pos0 <= j < pos ==> self.buffer@[j] == 0u8,
            decreases 56 - pos,
        {
            self.buffer[pos] = 0;
            pos = pos + 1;
        }

        // Write the total bit count, big-endian, into the last 8 bytes.
        let bits: u64 = self.total * 8;
        proof {
            lemma_u64_byte_bounds(bits);
        }
        self.buffer[56] = ((bits >> 56) & 0xff) as u8;
        self.buffer[57] = ((bits >> 48) & 0xff) as u8;
        self.buffer[58] = ((bits >> 40) & 0xff) as u8;
        self.buffer[59] = ((bits >> 32) & 0xff) as u8;
        self.buffer[60] = ((bits >> 24) & 0xff) as u8;
        self.buffer[61] = ((bits >> 16) & 0xff) as u8;
        self.buffer[62] = ((bits >> 8) & 0xff) as u8;
        self.buffer[63] = (bits & 0xff) as u8;

        proof {
            assert(bits == (8 * ll) as u64);
            assert(self.state@ == chain_state(padded.take(base)));
            assert forall|j: int| 0 <= j < 64 implies #[trigger] self.buffer@[j]
                == padded.skip(base)[j] by {
                assert(padded.skip(base)[j] == padded[base + j]);
                if r <= 55 {
                    assert(pos0 == r + 1);
                    assert(b1 == b0);
                    if j < r {
                        assert(self.buffer@[j] == b0[j]);
                        assert(b0[j] == old(self).buffer@[j]);
                        assert(old(self).buffer@.take(r)[j] == m.skip(full)[j]);
                        assert(padded[base + j] == m[full + j]);
                    } else if j == r {
                        assert(self.buffer@[j] == 0x80u8);
                        assert(padded[base + j] == padding(ll)[0]);
                    } else if j < 56 {
                        assert(self.buffer@[j] == 0u8);
                        assert(padded[base + j] == padding(ll)[j - r]);
                        assert(padding(ll)[j - r] == 0u8);
                    } else {
                        assert(self.buffer@[j] == be64_bytes(bits)[j - 56]);
                        assert(padded[base + j] == padding(ll)[j - r]);
                        assert(padding(ll)[j - r] == be64_bytes((8 * ll) as u64)[j - 56]);
                    }
                } else {
                    assert(pos0 == 0);
                    if j < 56 {
                        assert(self.buffer@[j] == 0u8);
                        assert(padded[base + j] == padding(ll)[64 + j - r]);
                        assert(padding(ll)[64 + j - r] == 0u8);
                    } else {
                        assert(self.buffer@[j] == be64_bytes(bits)[j - 56]);
                        assert(padded[base + j] == padding(ll)[64 + j - r]);
                        assert(padding(ll)[64 + j - r] == be64_bytes((8 * ll) as u64)[j - 56]);
                    }
                }
            }
            assert(self.buffer@ =~= padded.skip(base));
            crate::model::lemma_chain_step(padded.take(base), self.buffer@);
            assert(padded.take(base) + padded.skip(base) =~= padded);
        }
        self.compute();
        proof {
            assert(self.state@ == chain_state(padded));
        }
    }

    /// Serializes the five state words as big-endian bytes: the 20-byte
    /// digest value.
    fn state_to_bytes(&self) -> (out: [u8; 20])
        ensures
            out@ == state_bytes(self.state@),
    {
        let w0 = self.state[0];
        let w1 = self.state[1];
        let w2 = self.state[2];
        let w3 = self.state[3];
        let w4 = self.state[4];
        proof {
            lemma_u32_byte_bounds(w0);
            lemma_u32_byte_bounds(w1);
            lemma_u32_byte_bounds(w2);
            lemma_u32_byte_bounds(w3);
            lemma_u32_byte_bounds(w4);
        }
        let mut out = [0u8; 20];
        out[0] = ((w0 >> 24) & 0xff) as u8;
        out[1] = ((w0 >> 16) & 0xff) as u8;
        out[2] = ((w0 >> 8) & 0xff) as u8;
        out[3] = (w0 & 0xff) as u8;
        out[4] = ((w1 >> 24) & 0xff) as u8;
        out[5] = ((w1 >> 16) & 0xff) as u8;
        out[6] = ((w1 >> 8) & 0xff) as u8;
        out[7] = (w1 & 0xff) as u8;
        out[8] = ((w2 >> 24) & 0xff) as u8;
        out[9] = ((w2 >> 16) & 0xff) as u8;
        out[10] = ((w2 >> 8) & 0xff) as u8;
        out[11] = (w2 & 0xff) as u8;
        out[12] = ((w3 >> 24) & 0xff) as u8;
        out[13] = ((w3 >> 16) & 0xff) as u8;
        out[14] = ((w3 >> 8) & 0xff) as u8;
        out[15] = (w3 & 0xff) as u8;
        out[16] = ((w4 >> 24) & 0xff) as u8;
        out[17] = ((w4 >> 16) & 0xff) as u8;
        out[18] = ((w4 >> 8) & 0xff) as u8;
        out[19] = (w4 & 0xff) as u8;
        proof {
            assert(out@ =~= state_bytes(self.state@));
        }
        out
    }

    /// Consumes the engine and returns the digest of everything absorbed.
    /// The digest is a pure function of the absorbed bytes: two engines
    /// fed the same message always return the same digest.
    pub fn finalize(self) -> (digest: [u8; 20])
        requires
            self.wf(),
        ensures
            digest@ == sha1_digest(self@),
    {
        let mut engine = self;
        engine.compute_padded();
        engine.state_to_bytes()
    }

    /// Returns the digest of everything absorbed since the last reset —
    /// exactly what `finalize` would have returned — and reinitializes
    /// the engine, leaving it indistinguishable from a freshly created
    /// one.
    pub fn finalize_reset(&mut self) -> (digest: [u8; 20])
        requires
            old(self).wf(),
        ensures
            digest@ == sha1_digest(old(self)@),
            final(self).wf(),
            final(self)@ == Seq::<u8>::empty(),
    {
        self.compute_padded();
        let digest = self.state_to_bytes();
        self.total = 0;
        self.state = [0x67452301u32, 0xEFCDAB89u32, 0x98BADCFEu32, 0x10325476u32, 0xC3D2E1F0u32];
        self.fill = 0;
        self.buffer = [0u8; 64];
        self.absorbed = Ghost(Seq::empty());
        proof {
            assert(self.state@ =~= init_state());
            assert(self.absorbed@.take(0) =~= self.absorbed@.skip(0));
            assert(self.buffer@.take(0) =~= self.absorbed@.skip(0));
        }
        digest
    }

    /// One-shot convenience: the SHA-1 digest of `data`.
    pub fn hash(data: &[u8]) -> (digest: [u8; 20])
        requires
            8 * data@.len() <= u64::MAX,
        ensures
            digest@ == sha1_digest(data@),
    {
        let mut engine = Self::new();
        engine.update(data);
        proof {
            assert(Seq::<u8>::empty() + data@ =~= data@);
        }
        engine.finalize()
    }
}

/// The shifted-and-masked pieces of a 32-bit word all fit in a byte.
proof fn lemma_u32_byte_bounds(x: u32)
    by (bit_vector)
    ensures
        (x >> 24) & 0xffu32 < 256,
        (x >> 16) & 0xffu32 < 256,
        (x >> 8) & 0xffu32 < 256,
        x & 0xffu32 < 256,
{
}

/// The shifted-and-masked pieces of a 64-bit value all fit in a byte.
proof fn lemma_u64_byte_bounds(x: u64)
    by (bit_vector)
    ensures
        (x >> 56) & 0xffu64 < 256,
        (x >> 48) & 0xffu64 < 256,
        (x >> 40) & 0xffu64 < 256,
        (x >> 32) & 0xffu64 < 256,
        (x >> 24) & 0xffu64 < 256,
        (x >> 16) & 0xffu64 < 256,
        (x >> 8) & 0xffu64 < 256,
        x & 0xffu64 < 256,
{
}

/// Left-rotation of a 32-bit word by `n` bits.
fn rotl32(x: u32, n: u32) -> (r: u32)
    requires
        0 < n < 32,
    ensures
        r == rotl(x, n),
{
    (x << n) | (x >> (32 - n))
}

} // verus!
