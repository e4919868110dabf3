//! The seeded hash that turns an item into the 64 bits a sketch consumes.
//!
//! The function is MurmurHash3 in its 128-bit x64 form, of which the first
//! word is kept. It depends on its arguments alone, so two processes that
//! agree on the seed agree on every hash, which is what lets sketches built
//! on different machines be merged.
//!
//! Items of a scalar type are hashed through one canonical 64-bit word: an
//! integer is sign-extended to 64 bits at its own width first, so that the
//! same number fed at two widths counts once.
use vstd::prelude::*;

verus! {

/// The seed used wherever the caller does not choose one.
pub const DEFAULT_SEED: u64 = 9001;

/// First multiplier of the mixing rounds.
pub const C1: u64 = 0x87c37b91114253d5;

/// Second multiplier of the mixing rounds.
pub const C2: u64 = 0x4cf5ad432745937f;

/// `x` rotated left by `r` bits, for `0 < r < 64`.
pub open spec fn rotl(x: u64, r: u64) -> u64 {
    (x << r) | (x >> ((64 - r) as u64))
}

/// The final avalanche of one word.
pub open spec fn fmix(k: u64) -> u64 {
    let a = (k ^ (k >> 33u64)).wrapping_mul(0xff51afd7ed558ccd);
    let b = (a ^ (a >> 33u64)).wrapping_mul(0xc4ceb9fe1a85ec53);
    b ^ (b >> 33u64)
}

/// How a word of input is scrambled before it enters the first lane.
pub open spec fn mix_k1(k: u64) -> u64 {
    rotl(k.wrapping_mul(C1), 31).wrapping_mul(C2)
}

/// How a word of input is scrambled before it enters the second lane.
pub open spec fn mix_k2(k: u64) -> u64 {
    rotl(k.wrapping_mul(C2), 33).wrapping_mul(C1)
}

/// The state after one 16-byte block, given as its two words, is absorbed.
pub open spec fn absorb(h: (u64, u64), k1: u64, k2: u64) -> (u64, u64) {
    let a = rotl(h.0 ^ mix_k1(k1), 27).wrapping_add(h.1).wrapping_mul(5).wrapping_add(0x52dce729);
    let b = rotl(h.1 ^ mix_k2(k2), 31).wrapping_add(a).wrapping_mul(5).wrapping_add(0x38495ab5);
    (a, b)
}

/// The little-endian number held in the `n` bytes of `data` that start at `at`.
pub open spec fn le_word(data: Seq<u8>, at: int, n: int) -> u64
    decreases n,
{
    if n <= 0 {
        0
    } else {
        le_word(data, at, n - 1) | ((data[at + n - 1] as u64) << ((8 * (n - 1)) as u64))
    }
}

/// The state after the first `n` whole blocks of `data`.
pub open spec fn absorb_blocks(data: Seq<u8>, seed: u64, n: nat) -> (u64, u64)
    decreases n,
{
    if n == 0 {
        (seed, seed)
    } else {
        absorb(
            absorb_blocks(data, seed, (n - 1) as nat),
            le_word(data, 16 * (n - 1), 8),
            le_word(data, 16 * (n - 1) + 8, 8),
        )
    }
}

/// The state after the `rem < 16` bytes that follow the whole blocks.
pub open spec fn absorb_tail(h: (u64, u64), data: Seq<u8>, at: int, rem: int) -> (u64, u64) {
    let b = if rem > 8 {
        h.1 ^ mix_k2(le_word(data, at + 8, rem - 8))
    } else {
        h.1
    };
    let a = if rem > 0 {
        h.0 ^ mix_k1(
            le_word(
                data,
                at,
                if rem > 8 {
                    8
                } else {
                    rem
                },
            ),
        )
    } else {
        h.0
    };
    (a, b)
}

/// The last step: the length is folded in and both lanes are avalanched.
pub open spec fn finish(h: (u64, u64), len: u64) -> (u64, u64) {
    let a0 = h.0 ^ len;
    let b0 = h.1 ^ len;
    let a1 = a0.wrapping_add(b0);
    let b1 = b0.wrapping_add(a1);
    let a2 = fmix(a1);
    let b2 = fmix(b1);
    let a3 = a2.wrapping_add(b2);
    (a3, b2.wrapping_add(a3))
}

/// The 128-bit hash of `data` under `seed`, as two words.
pub open spec fn murmur3(data: Seq<u8>, seed: u64) -> (u64, u64) {
    let n = data.len() / 16;
    finish(
        absorb_tail(absorb_blocks(data, seed, n), data, 16 * (n as int), data.len() - 16 * n),
        data.len() as u64,
    )
}

/// The 64-bit hash of a byte string: the first word of [`murmur3`].
pub open spec fn hash_of_bytes(data: Seq<u8>, seed: u64) -> u64 {
    murmur3(data, seed).0
}

/// The 64-bit hash of a canonical word: what [`hash_of_bytes`] gives for the
/// eight little-endian bytes of `word`, written without the detour.
pub open spec fn hash_of_word(word: u64, seed: u64) -> u64 {
    finish((seed ^ mix_k1(word), seed), 8).0
}

/// The canonical word of a signed integer: its 64-bit two's complement.
pub open spec fn word_of_i64(datum: i64) -> u64 {
    datum as u64
}

/// The eight bytes of a word, least significant first.
pub open spec fn bytes_of_word(word: u64) -> Seq<u8> {
    Seq::new(8, |i: int| ((word >> ((8 * i) as u64)) & 0xFF) as u8)
}

proof fn lemma_word_of_bytes(w: u64)
    by (bit_vector)
    ensures
        (0u64 | ((((w >> 0u64) & 0xFF) as u8) as u64) << 0u64 | ((((w >> 8u64) & 0xFF) as u8) as u64)
            << 8u64 | ((((w >> 16u64) & 0xFF) as u8) as u64) << 16u64 | ((((w >> 24u64)
            & 0xFF) as u8) as u64) << 24u64 | ((((w >> 32u64) & 0xFF) as u8) as u64) << 32u64 | ((((w
            >> 40u64) & 0xFF) as u8) as u64) << 40u64 | ((((w >> 48u64) & 0xFF) as u8) as u64)
            << 48u64 | ((((w >> 56u64) & 0xFF) as u8) as u64) << 56u64) == w,
{
}

/// The hash of a canonical word is the hash of its eight bytes, least
/// significant first.
pub proof fn lemma_hash_of_word(word: u64, seed: u64)
    ensures
        hash_of_word(word, seed) == hash_of_bytes(bytes_of_word(word), seed),
{
    let data = bytes_of_word(word);
    lemma_word_of_bytes(word);
    reveal_with_fuel(le_word, 9);
    assert(le_word(data, 0, 8) == word);
    assert(absorb_blocks(data, seed, 0) == (seed, seed));
}

fn rotate(x: u64, r: u64) -> (y: u64)
    requires
        0 < r < 64,
    ensures
        y == rotl(x, r),
{
    (x << r) | (x >> (64 - r))
}

fn avalanche(k: u64) -> (y: u64)
    ensures
        y == fmix(k),
{
    let a: u64 = (k ^ (k >> 33u64)).wrapping_mul(0xff51afd7ed558ccd);
    let b: u64 = (a ^ (a >> 33u64)).wrapping_mul(0xc4ceb9fe1a85ec53);
    b ^ (b >> 33u64)
}

fn scramble_k1(k: u64) -> (y: u64)
    ensures
        y == mix_k1(k),
{
    rotate(k.wrapping_mul(C1), 31).wrapping_mul(C2)
}

fn scramble_k2(k: u64) -> (y: u64)
    ensures
        y == mix_k2(k),
{
    rotate(k.wrapping_mul(C2), 33).wrapping_mul(C1)
}

fn absorb_one(h: (u64, u64), k1: u64, k2: u64) -> (r: (u64, u64))
    ensures
        r == absorb(h, k1, k2),
{
    let a: u64 = rotate(h.0 ^ scramble_k1(k1), 27).wrapping_add(h.1).wrapping_mul(5).wrapping_add(
        0x52dce729,
    );
    let b: u64 = rotate(h.1 ^ scramble_k2(k2), 31).wrapping_add(a).wrapping_mul(5).wrapping_add(
        0x38495ab5,
    );
    (a, b)
}

fn finalize(h: (u64, u64), len: u64) -> (r: (u64, u64))
    ensures
        r == finish(h, len),
{
    let a0: u64 = h.0 ^ len;
    let b0: u64 = h.1 ^ len;
    let a1: u64 = a0.wrapping_add(b0);
    let b1: u64 = b0.wrapping_add(a1);
    let a2: u64 = avalanche(a1);
    let b2: u64 = avalanche(b1);
    let a3: u64 = a2.wrapping_add(b2);
    (a3, b2.wrapping_add(a3))
}

fn read_le(data: &[u8], at: usize, n: usize) -> (w: u64)
    requires
        n <= 8,
        at + n <= data.len(),
    ensures
        w == le_word(data@, at as int, n as int),
{
    let mut w: u64 = 0;
    let mut i: usize = 0;
    while i < n
        invariant
            i <= n <= 8,
            at + n <= data.len(),
            w == le_word(data@, at as int, i as int),
        decreases n - i,
    {
        let shift: u64 = 8 * (i as u64);
        w = w | ((data[at + i] as u64) << shift);
        i += 1;
    }
    w
}

/// Hashes a byte string under a seed.
pub fn hash_bytes(data: &[u8], seed: u64) -> (h: u64)
    ensures
        h == hash_of_bytes(data@, seed),
{
    let len: usize = data.len();
    let blocks: usize = len / 16;
    let mut h: (u64, u64) = (seed, seed);
    let mut i: usize = 0;
    while i < blocks
        invariant
            i <= blocks,
            len == data.len(),
            blocks == len / 16,
            h == absorb_blocks(data@, seed, i as nat),
        decreases blocks - i,
    {
        let k1: u64 = read_le(data, 16 * i, 8);
        let k2: u64 = read_le(data, 16 * i + 8, 8);
        h = absorb_one(h, k1, k2);
        i += 1;
    }
    let at: usize = 16 * blocks;
    let rem: usize = len - at;
    if rem > 8 {
        let k2: u64 = read_le(data, at + 8, rem - 8);
        h = (h.0, h.1 ^ scramble_k2(k2));
    }
    if rem > 0 {
        let n: usize = if rem > 8 {
            8
        } else {
            rem
        };
        let k1: u64 = read_le(data, at, n);
        h = (h.0 ^ scramble_k1(k1), h.1);
    }
    finalize(h, len as u64).0
}

/// Hashes a canonical 64-bit word under a seed.
pub fn hash_word(word: u64, seed: u64) -> (h: u64)
    ensures
        h == hash_of_word(word, seed),
{
    finalize((seed ^ scramble_k1(word), seed), 8).0
}

/// The signed integer with the same 32 bits.
pub open spec fn signed32(datum: u32) -> i32 {
    if datum < 0x8000_0000 {
        datum as i32
    } else {
        (datum - 0x1_0000_0000) as i32
    }
}

/// The signed integer with the same 16 bits.
pub open spec fn signed16(datum: u16) -> i16 {
    if datum < 0x8000 {
        datum as i16
    } else {
        (datum - 0x1_0000) as i16
    }
}

/// The signed integer with the same 8 bits.
pub open spec fn signed8(datum: u8) -> i8 {
    if datum < 0x80 {
        datum as i8
    } else {
        (datum - 0x100) as i8
    }
}

/// The signed integer with the same 32 bits.
pub fn to_signed32(datum: u32) -> (s: i32)
    ensures
        s == signed32(datum),
{
    if datum < 0x8000_0000 {
        datum as i32
    } else {
        ((datum - 0x8000_0000) as i32) - 0x4000_0000 - 0x4000_0000
    }
}

/// The signed integer with the same 16 bits.
pub fn to_signed16(datum: u16) -> (s: i16)
    ensures
        s == signed16(datum),
{
    if datum < 0x8000 {
        datum as i16
    } else {
        ((datum - 0x8000) as i16) - 0x4000 - 0x4000
    }
}

/// The signed integer with the same 8 bits.
pub fn to_signed8(datum: u8) -> (s: i8)
    ensures
        s == signed8(datum),
{
    if datum < 0x80 {
        datum as i8
    } else {
        ((datum - 0x80) as i8) - 0x40 - 0x40
    }
}

/// The canonical word of a signed 64-bit integer.
pub fn i64_word(datum: i64) -> (w: u64)
    ensures
        w == word_of_i64(datum),
{
    #[verifier::truncate]
    (datum as u64)
}

} // verus!
