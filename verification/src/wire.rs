//! Little-endian words in byte buffers.
//!
//! Serialized images hold their numbers as 32-bit words, least significant
//! byte first.
use vstd::prelude::*;

verus! {

/// The word held in the four bytes that start at `at`.
pub open spec fn word_at(bytes: Seq<u8>, at: int) -> u32 {
    (bytes[at] as int + 256 * (bytes[at + 1] as int) + 65536 * (bytes[at + 2] as int) + 16777216
        * (bytes[at + 3] as int)) as u32
}

/// The four bytes of a word.
pub open spec fn word_bytes(w: u32) -> Seq<u8> {
    seq![
        (w % 256) as u8,
        ((w / 256) % 256) as u8,
        ((w / 65536) % 256) as u8,
        (w / 16777216) as u8,
    ]
}

/// The `n` words that start at `at`.
pub open spec fn words_at(bytes: Seq<u8>, at: int, n: nat) -> Seq<u32> {
    Seq::new(n, |i: int| word_at(bytes, at + 4 * i))
}

/// The 64-bit number held in the eight bytes that start at `at`.
pub open spec fn long_at(bytes: Seq<u8>, at: int) -> u64 {
    (word_at(bytes, at) as int + 0x1_0000_0000 * (word_at(bytes, at + 4) as int)) as u64
}

/// The 128-bit number held in the sixteen bytes that start at `at`.
pub open spec fn wide_at(bytes: Seq<u8>, at: int) -> u128 {
    (long_at(bytes, at) as int + 0x1_0000_0000_0000_0000 * (long_at(bytes, at + 8) as int)) as u128
}

/// Reads the word that starts at `at`.
pub fn read_word(bytes: &[u8], at: usize) -> (w: u32)
    requires
        at + 4 <= bytes@.len(),
    ensures
        w == word_at(bytes@, at as int),
{
    (bytes[at] as u32) + 256 * (bytes[at + 1] as u32) + 65536 * (bytes[at + 2] as u32) + 16777216
        * (bytes[at + 3] as u32)
}

/// Reads the 64-bit number that starts at `at`.
pub fn read_long(bytes: &[u8], at: usize) -> (w: u64)
    requires
        at + 8 <= bytes@.len(),
    ensures
        w == long_at(bytes@, at as int),
{
    let len: usize = bytes.len();
    assert(at + 8 <= len);
    let low: u32 = read_word(bytes, at);
    let high: u32 = read_word(bytes, at + 4);
    (low as u64) + 0x1_0000_0000 * (high as u64)
}

/// Reads the 128-bit number that starts at `at`.
pub fn read_wide(bytes: &[u8], at: usize) -> (w: u128)
    requires
        at + 16 <= bytes@.len(),
    ensures
        w == wide_at(bytes@, at as int),
{
    let len: usize = bytes.len();
    assert(at + 16 <= len);
    let low: u64 = read_long(bytes, at);
    let high: u64 = read_long(bytes, at + 8);
    (low as u128) + 0x1_0000_0000_0000_0000 * (high as u128)
}

/// Appends a word.
pub fn push_word(out: &mut Vec<u8>, w: u32)
    ensures
        final(out)@ == old(out)@ + word_bytes(w),
        final(out)@.len() == old(out)@.len() + 4,
        word_at(final(out)@, old(out)@.len() as int) == w,
        forall|j: int| 0 <= j < old(out)@.len() ==> final(out)@[j] == old(out)@[j],
{
    out.push((w % 256) as u8);
    out.push(((w / 256) % 256) as u8);
    out.push(((w / 65536) % 256) as u8);
    out.push((w / 16777216) as u8);
    proof {
        assert(out@ =~= old(out)@ + word_bytes(w));
    }
}

/// Appends a 64-bit number.
pub fn push_long(out: &mut Vec<u8>, w: u64)
    ensures
        final(out)@.len() == old(out)@.len() + 8,
        long_at(final(out)@, old(out)@.len() as int) == w,
        forall|j: int| 0 <= j < old(out)@.len() ==> final(out)@[j] == old(out)@[j],
{
    push_word(out, (w % 0x1_0000_0000) as u32);
    push_word(out, (w / 0x1_0000_0000) as u32);
}

/// Appends a 128-bit number.
pub fn push_wide(out: &mut Vec<u8>, w: u128)
    ensures
        final(out)@.len() == old(out)@.len() + 16,
        wide_at(final(out)@, old(out)@.len() as int) == w,
        forall|j: int| 0 <= j < old(out)@.len() ==> final(out)@[j] == old(out)@[j],
{
    push_long(out, (w % 0x1_0000_0000_0000_0000) as u64);
    let ghost mid = out@;
    push_long(out, (w / 0x1_0000_0000_0000_0000) as u64);
    proof {
        let base = old(out)@.len() as int;
        assert(long_at(out@, base) == long_at(mid, base));
    }
}

} // verus!
