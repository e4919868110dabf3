//! Compressed Probabilistic Counting sketches and their union.
//!
//! A sketch is a matrix of bits with `2^lg_k` rows and 39 columns. An item
//! sets one bit: that of the row which the low `lg_k` bits of its hash
//! name, in the column that is the number of zeros leading the upper 38
//! bits of the hash. A bit that is set is a *coupon*; it is written as the
//! pair `64 * row + column`. The estimate follows from the coupons that
//! were collected.
//!
//! While coupons are few, the sketch holds them in a hash table. From
//! three thirty-seconds of the number of rows on it holds an eight-column
//! window of the matrix, which slides to the right as columns fill up, and
//! the list of the bits that are not what one expects of their place: the
//! zeros to the left of the window and the ones to the right of it. Should
//! those be more than half as many as there are rows, the sketch holds the
//! matrix itself instead, a word for each row, until they are fewer again.
use crate::hll::ADDRESS_MASK;
use vstd::arithmetic::power2::lemma2_to64;
use vstd::arithmetic::power2::lemma_pow2_strictly_increases;
use vstd::arithmetic::power2::pow2;
use vstd::prelude::*;
use vstd::std_specs::bits::axiom_u64_leading_zeros;
use vstd::std_specs::bits::u64_leading_zeros;

pub mod codec;
pub mod dump;
pub mod estimate;
pub mod image;
pub mod laws;
pub mod model;
pub mod sketch;
pub mod union;
pub mod window;

verus! {

/// The smallest permitted `lg_k`.
pub const MIN_LG_K: u8 = 4;

/// The largest permitted `lg_k`.
pub const MAX_LG_K: u8 = 26;

/// The `lg_k` used where the caller does not choose one.
pub const DEFAULT_LG_K: u8 = 11;

/// The last column of the matrix.
pub const MAX_COLUMN: u8 = 38;

/// The number by which the row is multiplied in a pair.
pub const ROW_STRIDE: u32 = 64;

/// The number of columns of the window.
pub const WINDOW_WIDTH: u8 = 8;

/// The largest offset of the window.
pub const MAX_OFFSET: u8 = 31;

/// The representation that a sketch has by the number of its coupons.
#[derive(Clone, Copy, Debug, PartialEq, Eq, Structural)]
pub enum Flavor {
    /// No coupons.
    Empty,
    /// Fewer coupons than three thirty-seconds of the number of rows: a
    /// table of pairs.
    Sparse,
    /// Fewer coupons than half the number of rows: a window at offset 0,
    /// and little beside it.
    Hybrid,
    /// Fewer coupons than twenty-seven eighths of the number of rows: the
    /// window is still at offset 0.
    Pinned,
    /// More coupons: the window has begun to slide.
    Sliding,
}

impl Flavor {
    /// The number that stands for the flavor in a serialized image.
    pub open spec fn code_of(self) -> u8 {
        match self {
            Flavor::Empty => 0,
            Flavor::Sparse => 1,
            Flavor::Hybrid => 2,
            Flavor::Pinned => 3,
            Flavor::Sliding => 4,
        }
    }

    /// The number that stands for the flavor in a serialized image.
    pub fn code(self) -> (c: u8)
        ensures
            c == self.code_of(),
    {
        match self {
            Flavor::Empty => 0,
            Flavor::Sparse => 1,
            Flavor::Hybrid => 2,
            Flavor::Pinned => 3,
            Flavor::Sliding => 4,
        }
    }

    /// Whether a sketch of this flavor holds its coupons as pairs.
    pub open spec fn is_sparse(self) -> bool {
        self == Flavor::Empty || self == Flavor::Sparse
    }
}

/// The row of a pair.
pub open spec fn pair_row(pair: u32) -> int {
    pair as int / ROW_STRIDE as int
}

/// The column of a pair.
pub open spec fn pair_col(pair: u32) -> int {
    pair as int % ROW_STRIDE as int
}

/// Whether a word is the pair of a bit of the matrix with `2^lg_k` rows.
pub open spec fn valid_pair(pair: u32, lg_k: u8) -> bool {
    pair_row(pair) < pow2(lg_k as nat) && pair_col(pair) <= MAX_COLUMN
}

/// The column that a hash names: the number of zeros that lead its upper
/// 38 bits.
pub open spec fn column_of_hash(hash: u64) -> int {
    u64_leading_zeros(hash | ADDRESS_MASK) as int
}

/// The pair of the bit that a hash names in a matrix with `2^lg_k` rows.
pub open spec fn pair_of_hash(hash: u64, lg_k: u8) -> u32 {
    ((hash as int % pow2(lg_k as nat) as int) * ROW_STRIDE + column_of_hash(hash)) as u32
}

/// The flavor of a sketch of `2^lg_k` rows that holds `c` coupons.
pub open spec fn flavor_of(lg_k: u8, c: int) -> Flavor {
    let k = pow2(lg_k as nat) as int;
    if c == 0 {
        Flavor::Empty
    } else if 32 * c < 3 * k {
        Flavor::Sparse
    } else if 2 * c < k {
        Flavor::Hybrid
    } else if 8 * c < 27 * k {
        Flavor::Pinned
    } else {
        Flavor::Sliding
    }
}

/// The offset of the window of a sketch of `2^lg_k` rows that holds `c`
/// coupons: the window moves one column to the right with every `2^lg_k`
/// coupons beyond twenty-seven eighths of `2^lg_k`, up to the last place
/// it can take.
pub open spec fn window_offset_of(lg_k: u8, c: int) -> int {
    let k = pow2(lg_k as nat) as int;
    let over = 8 * c - 19 * k;
    if over < 0 {
        0
    } else if over / (8 * k) > MAX_OFFSET {
        MAX_OFFSET as int
    } else {
        over / (8 * k)
    }
}

/// The number of rows: two to the power `lg_k`.
pub fn row_count(lg_k: u8) -> (k: u64)
    requires
        lg_k <= MAX_LG_K,
    ensures
        k == pow2(lg_k as nat),
        1 <= k <= 0x400_0000,
{
    proof {
        lemma2_to64();
        if lg_k < 26 {
            lemma_pow2_strictly_increases(lg_k as nat, 26);
        }
        if lg_k > 0 {
            lemma_pow2_strictly_increases(0, lg_k as nat);
        }
        vstd::bits::lemma_u64_shl_is_mul(1u64, lg_k as u64);
    }
    1u64 << (lg_k as u64)
}

/// Makes the pair of a hash.
pub fn make_pair(hash: u64, lg_k: u8) -> (pair: u32)
    requires
        lg_k <= MAX_LG_K,
    ensures
        pair == pair_of_hash(hash, lg_k),
        valid_pair(pair, lg_k),
        pair != crate::table::EMPTY,
{
    let marked: u64 = hash | ADDRESS_MASK;
    let zeros: u32 = marked.leading_zeros();
    proof {
        axiom_u64_leading_zeros(marked);
        assert(((hash | 0x3FF_FFFFu64) >> 25u64) & 1u64 == 1u64) by (bit_vector);
        if zeros >= 39 {
            assert((marked >> 25u64) & 1u64 == 0u64);
        }
    }
    let row: u64 = hash % row_count(lg_k);
    (row as u32) * ROW_STRIDE + zeros
}

/// The flavor that goes with a number of coupons.
pub fn flavor_for(lg_k: u8, c: u64) -> (f: Flavor)
    requires
        lg_k <= MAX_LG_K,
        c <= 0x1_0000_0000,
    ensures
        f == flavor_of(lg_k, c as int),
{
    let k: u64 = row_count(lg_k);
    if c == 0 {
        Flavor::Empty
    } else if 32 * c < 3 * k {
        Flavor::Sparse
    } else if 2 * c < k {
        Flavor::Hybrid
    } else if 8 * c < 27 * k {
        Flavor::Pinned
    } else {
        Flavor::Sliding
    }
}

/// The window offset that goes with a number of coupons.
pub fn window_offset_for(lg_k: u8, c: u64) -> (offset: u8)
    requires
        lg_k <= MAX_LG_K,
        c <= 0x1_0000_0000,
    ensures
        offset == window_offset_of(lg_k, c as int),
        offset <= MAX_OFFSET,
{
    let k: u64 = row_count(lg_k);
    if 8 * c < 19 * k {
        0
    } else {
        let steps: u64 = (8 * c - 19 * k) / (8 * k);
        if steps > MAX_OFFSET as u64 {
            MAX_OFFSET
        } else {
            steps as u8
        }
    }
}

} // verus!
