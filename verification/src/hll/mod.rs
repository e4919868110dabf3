//! HyperLogLog sketches and their union.
//!
//! A sketch has `2^lg_config_k` buckets. Of each item it sees only a
//! *coupon*: the low 26 bits of the item's hash, the address, together with
//! one more than the number of zeros that lead the remaining 38 bits, the
//! value. The bucket of a coupon is its address reduced to `lg_config_k`
//! bits, and a bucket remembers the largest value it was shown.
//!
//! While few coupons have been seen, the sketch keeps the coupons themselves:
//! first in a short list, then in a hash set. Its estimate is then their
//! exact count. Once there are more than [`coupon_limit`] of them, they are
//! replayed into the bucket array, which is packed in 4, 6 or 8 bits per
//! bucket as the [`HllType`] says.
use crate::table::ADDRESS_SPAN;
use vstd::arithmetic::power2::lemma2_to64;
use vstd::arithmetic::power2::lemma_pow2_strictly_increases;
use vstd::arithmetic::power2::pow2;
use vstd::prelude::*;
use vstd::std_specs::bits::axiom_u64_leading_zeros;
use vstd::std_specs::bits::u64_leading_zeros;

pub mod array;
pub mod codec;
pub mod dump;
pub mod estimate;
pub mod image;
pub mod laws;
pub mod model;
pub mod registers;
pub mod sketch;
pub mod union;

verus! {

/// The smallest permitted `lg_config_k`.
pub const MIN_LG_CONFIG_K: u8 = 7;

/// The largest permitted `lg_config_k`.
pub const MAX_LG_CONFIG_K: u8 = 21;

/// The `lg_config_k` used where the caller does not choose one.
pub const DEFAULT_LG_CONFIG_K: u8 = 12;

/// The largest value a coupon or a bucket can hold.
pub const MAX_VALUE: u8 = 39;

/// The bits of a hash that make the address of its coupon.
pub const ADDRESS_MASK: u64 = 0x3FF_FFFF;

/// The number of coupons at which the list gives way to the hash set.
pub const LIST_CAPACITY: usize = 8;

/// The width in which a sketch packs its buckets once it has left the
/// warm-up modes.
///
/// The three widths hold the same information: for one `lg_config_k` and one
/// input they give the same estimate. They differ in space and speed.
#[derive(Clone, Copy, Debug, PartialEq, Eq, Structural)]
pub enum HllType {
    /// Four bits per bucket. The values are packed as what they are above
    /// the smallest value that any bucket holds; one that is 15 or more
    /// above it does not fit and is kept in a small exception table beside
    /// the array.
    HLL4,
    /// Six bits per bucket.
    HLL6,
    /// Eight bits per bucket.
    HLL8,
}

impl HllType {
    /// The number that stands for the type in a serialized image.
    pub open spec fn code_of(self) -> u8 {
        match self {
            HllType::HLL4 => 0,
            HllType::HLL6 => 1,
            HllType::HLL8 => 2,
        }
    }

    /// The number of bytes that `k` buckets take when packed.
    pub open spec fn packed_len(self, k: int) -> int {
        match self {
            HllType::HLL4 => k / 2,
            HllType::HLL6 => 3 * (k / 4),
            HllType::HLL8 => k,
        }
    }

    /// The number that stands for the type in a serialized image.
    pub fn code(self) -> (c: u8)
        ensures
            c == self.code_of(),
    {
        match self {
            HllType::HLL4 => 0,
            HllType::HLL6 => 1,
            HllType::HLL8 => 2,
        }
    }

    /// The type that a number stands for, if it stands for one.
    pub fn from_code(code: u8) -> (t: Option<HllType>)
        ensures
            match t {
                Some(t) => t.code_of() == code,
                None => code > 2,
            },
    {
        if code == 0 {
            Some(HllType::HLL4)
        } else if code == 1 {
            Some(HllType::HLL6)
        } else if code == 2 {
            Some(HllType::HLL8)
        } else {
            None
        }
    }
}

/// The representation a sketch is in.
#[derive(Clone, Copy, Debug, PartialEq, Eq, Structural)]
pub enum HllMode {
    /// Fewer than [`LIST_CAPACITY`] coupons, kept in the order they came.
    List,
    /// At most [`coupon_limit`] coupons, kept in a hash set.
    CouponSet,
    /// The bucket array.
    Hll,
}

impl HllMode {
    /// The number that stands for the mode in a serialized image.
    pub open spec fn code_of(self) -> u8 {
        match self {
            HllMode::List => 0,
            HllMode::CouponSet => 1,
            HllMode::Hll => 2,
        }
    }

    /// The number that stands for the mode in a serialized image.
    pub fn code(self) -> (c: u8)
        ensures
            c == self.code_of(),
    {
        match self {
            HllMode::List => 0,
            HllMode::CouponSet => 1,
            HllMode::Hll => 2,
        }
    }

    /// The mode that a number stands for, if it stands for one.
    pub fn from_code(code: u8) -> (m: Option<HllMode>)
        ensures
            match m {
                Some(m) => m.code_of() == code,
                None => code > 2,
            },
    {
        if code == 0 {
            Some(HllMode::List)
        } else if code == 1 {
            Some(HllMode::CouponSet)
        } else if code == 2 {
            Some(HllMode::Hll)
        } else {
            None
        }
    }
}

/// The value that a hash gives: one more than the number of zeros that lead
/// its upper 38 bits.
pub open spec fn value_of_hash(hash: u64) -> int {
    1 + u64_leading_zeros(hash | ADDRESS_MASK)
}

/// The coupon of a hash: its value above its address.
pub open spec fn coupon_of_hash(hash: u64) -> u32 {
    (value_of_hash(hash) * ADDRESS_SPAN + hash % (ADDRESS_SPAN as u64)) as u32
}

/// The value part of a coupon.
pub open spec fn coupon_value(coupon: u32) -> int {
    coupon as int / ADDRESS_SPAN as int
}

/// The address part of a coupon.
pub open spec fn coupon_address(coupon: u32) -> int {
    coupon as int % ADDRESS_SPAN as int
}

/// The bucket that a coupon falls into when there are `2^lg_k` buckets.
pub open spec fn coupon_slot(coupon: u32, lg_k: u8) -> int {
    coupon as int % pow2(lg_k as nat) as int
}

/// Whether a word is a coupon: its value lies between 1 and [`MAX_VALUE`].
pub open spec fn valid_coupon(coupon: u32) -> bool {
    1 <= coupon_value(coupon) <= MAX_VALUE
}

/// The largest number of coupons that a sketch of `2^lg_k` buckets keeps as
/// coupons: three thirty-seconds of the number of buckets, and 7 for the
/// smallest sketches, which have no hash set.
pub open spec fn coupon_limit(lg_k: u8) -> int {
    if lg_k < 8 {
        7
    } else {
        3 * (pow2((lg_k - 5) as nat) as int)
    }
}

/// The mode of a sketch that has seen `n` distinct coupons and was not
/// started at full size.
pub open spec fn mode_for(lg_k: u8, n: int) -> HllMode {
    if n > coupon_limit(lg_k) {
        HllMode::Hll
    } else if n < LIST_CAPACITY {
        HllMode::List
    } else {
        HllMode::CouponSet
    }
}

/// The number of buckets: two to the power `lg_k`.
pub fn bucket_count(lg_k: u8) -> (k: u32)
    requires
        lg_k <= 26,
    ensures
        k == pow2(lg_k as nat),
        1 <= k <= ADDRESS_SPAN,
{
    proof {
        lemma2_to64();
        if lg_k < 26 {
            lemma_pow2_strictly_increases(lg_k as nat, 26);
        }
        if lg_k > 0 {
            lemma_pow2_strictly_increases(0, lg_k as nat);
        }
        vstd::bits::lemma_u32_shl_is_mul(1u32, lg_k as u32);
    }
    1u32 << (lg_k as u32)
}

/// The largest number of coupons kept as coupons; see [`coupon_limit`].
pub fn coupon_cap(lg_k: u8) -> (n: u32)
    requires
        MIN_LG_CONFIG_K <= lg_k <= MAX_LG_CONFIG_K,
    ensures
        n == coupon_limit(lg_k),
        7 <= n <= 0x30000,
{
    if lg_k < 8 {
        7
    } else {
        let unit: u32 = bucket_count(lg_k - 5);
        proof {
            lemma2_to64();
            if lg_k < 21 {
                lemma_pow2_strictly_increases((lg_k - 5) as nat, 16);
            }
            lemma_pow2_strictly_increases(2, (lg_k - 5) as nat);
        }
        3 * unit
    }
}

/// Makes the coupon of a hash.
pub fn make_coupon(hash: u64) -> (coupon: u32)
    ensures
        coupon == coupon_of_hash(hash),
        valid_coupon(coupon),
        coupon_value(coupon) == value_of_hash(hash),
        coupon_address(coupon) == hash % (ADDRESS_SPAN as u64),
{
    let marked: u64 = hash | ADDRESS_MASK;
    let zeros: u32 = marked.leading_zeros();
    proof {
        axiom_u64_leading_zeros(marked);
        assert(((hash | 0x3FF_FFFFu64) >> 25u64) & 1u64 == 1u64) by (bit_vector);
        if zeros >= 39 {
            assert((marked >> 25u64) & 1u64 == 0u64);
        }
    }
    let address: u32 = (hash % (ADDRESS_SPAN as u64)) as u32;
    (zeros + 1) * ADDRESS_SPAN + address
}

} // verus!
