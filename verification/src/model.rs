//! The mathematical definition of SHA-1.
//!
//! Everything here is specification: the padding rule, the 80-word message
//! schedule, the round function, and the block-chaining that folds each
//! 64-byte block into the five-word state. The executable engine in
//! [`crate::engine`] is proved against these definitions.

use vstd::prelude::*;

verus! {

/// Left-rotation of a 32-bit word by `n` bits.
pub open spec fn rotl(x: u32, n: u32) -> u32
    recommends
        0 < n < 32,
{
    (x << n) | (x >> ((32 - n) as u32))
}

/// The five state words of a fresh engine: the fixed initialization vector.
pub open spec fn init_state() -> Seq<u32> {
    seq![0x67452301u32, 0xEFCDAB89u32, 0x98BADCFEu32, 0x10325476u32, 0xC3D2E1F0u32]
}

/// The 32-bit word formed by four bytes read big-endian.
pub open spec fn be_word(b: Seq<u8>) -> u32
    recommends
        b.len() == 4,
{
    ((b[0] as u32) << 24) | ((b[1] as u32) << 16) | ((b[2] as u32) << 8) | (b[3] as u32)
}

/// Word `i` of the 80-word message schedule of one 64-byte block: the first
/// 16 words are the block itself read big-endian, and every later word is
/// the 1-bit left rotation of the XOR of the words 3, 8, 14 and 16 back.
pub open spec fn schedule_word(block: Seq<u8>, i: int) -> u32
    recommends
        block.len() == 64,
        0 <= i < 80,
    decreases i,
{
    if i < 16 {
        be_word(block.subrange(4 * i, 4 * i + 4))
    } else {
        rotl(
            schedule_word(block, i - 3) ^ schedule_word(block, i - 8) ^ schedule_word(block, i - 14)
                ^ schedule_word(block, i - 16),
            1,
        )
    }
}

/// The nonlinear mixing function of round `i`: choice, parity, majority,
/// parity again, one per 20-round range.
pub open spec fn round_f(i: int, b: u32, c: u32, d: u32) -> u32
    recommends
        0 <= i < 80,
{
    if i < 20 {
        (b & c) | ((!b) & d)
    } else if i < 40 {
        b ^ c ^ d
    } else if i < 60 {
        (b & c) | (b & d) | (c & d)
    } else {
        b ^ c ^ d
    }
}

/// The additive constant of round `i`, one per 20-round range.
pub open spec fn round_k(i: int) -> u32
    recommends
        0 <= i < 80,
{
    if i < 20 {
        0x5A827999u32
    } else if i < 40 {
        0x6ED9EBA1u32
    } else if i < 60 {
        0x8F1BBCDCu32
    } else {
        0xCA62C1D6u32
    }
}

/// The working registers (a, b, c, d, e) after the first `i` rounds of one
/// block, starting from the chaining state `h`. Each round computes
/// `rotl(a, 5) + f + e + k + w[i]` modulo 2^32 and shifts the registers.
pub open spec fn work_state(h: Seq<u32>, block: Seq<u8>, i: int) -> (u32, u32, u32, u32, u32)
    recommends
        h.len() == 5,
        block.len() == 64,
        0 <= i <= 80,
    decreases i,
{
    if i <= 0 {
        (h[0], h[1], h[2], h[3], h[4])
    } else {
        let s = work_state(h, block, i - 1);
        let t = rotl(s.0, 5).wrapping_add(round_f(i - 1, s.1, s.2, s.3)).wrapping_add(
            s.4,
        ).wrapping_add(round_k(i - 1)).wrapping_add(schedule_word(block, i - 1));
        (t, s.0, rotl(s.1, 30), s.2, s.3)
    }
}

/// One compression transform: run all 80 rounds of `block` and add the
/// working registers onto the chaining state, word by word modulo 2^32.
pub open spec fn compress(h: Seq<u32>, block: Seq<u8>) -> Seq<u32>
    recommends
        h.len() == 5,
        block.len() == 64,
{
    let s = work_state(h, block, 80);
    seq![
        h[0].wrapping_add(s.0),
        h[1].wrapping_add(s.1),
        h[2].wrapping_add(s.2),
        h[3].wrapping_add(s.3),
        h[4].wrapping_add(s.4),
    ]
}

/// The chaining state after compressing every 64-byte block of `m` in
/// order, starting from the initialization vector. `m` must be whole
/// blocks.
pub open spec fn chain_state(m: Seq<u8>) -> Seq<u32>
    recommends
        m.len() % 64 == 0,
    decreases m.len(),
{
    if m.len() < 64 {
        init_state()
    } else {
        compress(chain_state(m.take(m.len() - 64)), m.skip(m.len() - 64))
    }
}

/// The eight bytes of a 64-bit value, big-endian.
pub open spec fn be64_bytes(x: u64) -> Seq<u8> {
    seq![
        ((x >> 56) & 0xffu64) as u8,
        ((x >> 48) & 0xffu64) as u8,
        ((x >> 40) & 0xffu64) as u8,
        ((x >> 32) & 0xffu64) as u8,
        ((x >> 24) & 0xffu64) as u8,
        ((x >> 16) & 0xffu64) as u8,
        ((x >> 8) & 0xffu64) as u8,
        (x & 0xffu64) as u8,
    ]
}

/// The four bytes of a 32-bit word, big-endian.
pub open spec fn be32_bytes(x: u32) -> Seq<u8> {
    seq![
        ((x >> 24) & 0xffu32) as u8,
        ((x >> 16) & 0xffu32) as u8,
        ((x >> 8) & 0xffu32) as u8,
        (x & 0xffu32) as u8,
    ]
}

/// How many zero bytes stand between the 0x80 marker and the length
/// trailer when a message of `l` bytes is padded.
pub open spec fn pad_zeros(l: int) -> int {
    (119 - (l % 64)) % 64
}

/// The padding appended to a message of `l` bytes: a single 0x80 marker,
/// zeros until the length is 56 modulo 64, then the bit count `8 * l` as a
/// big-endian 64-bit trailer. The result completes the message to whole
/// blocks.
pub open spec fn padding(l: int) -> Seq<u8>
    recommends
        0 <= l,
        8 * l <= u64::MAX,
{
    seq![0x80u8] + Seq::new(pad_zeros(l) as nat, |i: int| 0u8) + be64_bytes((8 * l) as u64)
}

/// The 20-byte digest serialized from a five-word state, big-endian.
pub open spec fn state_bytes(h: Seq<u32>) -> Seq<u8>
    recommends
        h.len() == 5,
{
    be32_bytes(h[0]) + be32_bytes(h[1]) + be32_bytes(h[2]) + be32_bytes(h[3]) + be32_bytes(h[4])
}

/// The SHA-1 digest of an arbitrary message: pad it to whole blocks, chain
/// every block through the compression transform, and serialize the final
/// state.
pub open spec fn sha1_digest(m: Seq<u8>) -> Seq<u8>
    recommends
        8 * m.len() <= u64::MAX,
{
    state_bytes(chain_state(m + padding(m.len() as int)))
}

/// Compressing one more whole block extends the chain: the state of
/// `m + b` is the compression of `b` into the state of `m`.
pub proof fn lemma_chain_step(m: Seq<u8>, b: Seq<u8>)
    requires
        m.len() % 64 == 0,
        b.len() == 64,
    ensures
        chain_state(m + b) == compress(chain_state(m), b),
{
    let p = m + b;
    assert(p.take(p.len() - 64) =~= m);
    assert(p.skip(p.len() - 64) =~= b);
}

} // verus!
