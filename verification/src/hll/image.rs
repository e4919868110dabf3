//! The serialized image of a HyperLogLog sketch.
//!
//! An image starts with eight bytes:
//!
//! | byte | holds |
//! |------|-------|
//! | 0 | the family, 7 |
//! | 1 | the version of the format, 1 |
//! | 2 | the mode: 0 list, 1 hash set, 2 bucket array |
//! | 3 | `lg_config_k` |
//! | 4 | the flags: 1 for a compact image, 2 for an out-of-order sketch |
//! | 5 | the bucket width: 0 four bits, 1 six bits, 2 eight bits |
//! | 6 | list: the number of coupons; else the binary logarithm of the number of table slots written, 0 in a compact image |
//! | 7 | bucket array of four-bit buckets: the base that is added to each packed value; else 0 |
//!
//! All numbers that follow are little-endian. A list is followed by its
//! coupons, a word each. A hash set is followed by the number of its coupons
//! and then by its table. A bucket array is followed by the HIP accumulator
//! in sixteen bytes, the packed buckets, the number of exceptions and the
//! exception table. A table is written as its entries in a compact image,
//! and slot by slot, free slots as `0xFFFFFFFF`, in an updatable one.
//!
//! [`decode`] says which byte strings are images, and of which sketch.
use crate::hll::HllMode;
use crate::hll::HllType;
use crate::hll::LIST_CAPACITY;
use crate::hll::MAX_LG_CONFIG_K;
use crate::hll::MAX_VALUE;
use crate::hll::MIN_LG_CONFIG_K;
use crate::hll::coupon_limit;
use crate::hll::model::HllView;
use crate::hll::model::hip_bound;
use crate::hll::model::kxq_of;
use crate::hll::registers::lifted_by;
use crate::hll::registers::unpack;
use crate::hll::registers::well_packed;
use crate::hll::valid_coupon;
use crate::table::distinct_keys;
use crate::table::gathered;
use crate::table::occupied;
use crate::wire::wide_at;
use crate::wire::word_at;
use crate::wire::words_at;
use vstd::arithmetic::power2::pow2;
use vstd::prelude::*;

verus! {

/// The family of the HyperLogLog sketches.
pub const FAMILY_ID: u8 = 7;

/// The version of the format.
pub const SERIAL_VERSION: u8 = 1;

/// The number of bytes before the payload.
pub const PREAMBLE_BYTES: usize = 8;

/// The flag of a compact image.
pub const FLAG_COMPACT: u8 = 1;

/// The flag of an out-of-order sketch.
pub const FLAG_OUT_OF_ORDER: u8 = 2;

/// Whether the first eight bytes are a preamble.
pub open spec fn header_ok(bytes: Seq<u8>) -> bool {
    &&& bytes.len() >= PREAMBLE_BYTES
    &&& bytes[0] == FAMILY_ID
    &&& bytes[1] == SERIAL_VERSION
    &&& bytes[2] <= 2
    &&& MIN_LG_CONFIG_K <= bytes[3] <= MAX_LG_CONFIG_K
    &&& bytes[4] <= 3
    &&& bytes[5] <= 2
    &&& bytes[7] <= MAX_VALUE
    &&& (bytes[2] != 2 || bytes[5] != 0 ==> bytes[7] == 0)
    &&& (bytes[2] != 0 && bytes[4] % 2 == 1 ==> bytes[6] == 0)
    &&& (bytes[2] != 0 && bytes[4] % 2 == 0 ==> 2 <= bytes[6] <= 28)
}

/// The mode that the preamble names.
pub open spec fn mode_of(bytes: Seq<u8>) -> HllMode {
    if bytes[2] == 0 {
        HllMode::List
    } else if bytes[2] == 1 {
        HllMode::CouponSet
    } else {
        HllMode::Hll
    }
}

/// The bucket width that the preamble names.
pub open spec fn type_of(bytes: Seq<u8>) -> HllType {
    if bytes[5] == 0 {
        HllType::HLL4
    } else if bytes[5] == 1 {
        HllType::HLL6
    } else {
        HllType::HLL8
    }
}

/// Whether the preamble says that the image is compact.
pub open spec fn compact_of(bytes: Seq<u8>) -> bool {
    bytes[4] % 2 == 1
}

/// Whether the preamble says that the sketch is out of order.
pub open spec fn ooo_of(bytes: Seq<u8>) -> bool {
    bytes[4] / 2 == 1
}

/// The number of words of a table with `count` entries in this image.
pub open spec fn table_words(bytes: Seq<u8>, count: nat) -> nat {
    if compact_of(bytes) {
        count
    } else {
        pow2(bytes[6] as nat)
    }
}

/// The coupons of the image of a list.
pub open spec fn list_words(bytes: Seq<u8>) -> Seq<u32> {
    words_at(bytes, 8, bytes[6] as nat)
}

/// Whether an image with a good preamble is the image of a list.
pub open spec fn list_ok(bytes: Seq<u8>) -> bool {
    &&& !ooo_of(bytes)
    &&& bytes[6] < LIST_CAPACITY
    &&& bytes.len() == 8 + 4 * bytes[6]
    &&& list_words(bytes).no_duplicates()
    &&& forall|i: int| 0 <= i < bytes[6] ==> valid_coupon(#[trigger] list_words(bytes)[i])
}

/// The table of the image of a hash set.
pub open spec fn set_words(bytes: Seq<u8>) -> Seq<u32> {
    words_at(bytes, 12, table_words(bytes, word_at(bytes, 8) as nat))
}

/// Whether an image with a good preamble is the image of a hash set.
pub open spec fn set_ok(bytes: Seq<u8>) -> bool {
    let count = word_at(bytes, 8) as nat;
    let n = table_words(bytes, count);
    &&& !ooo_of(bytes)
    &&& bytes[3] >= 8
    &&& bytes.len() >= 12
    &&& LIST_CAPACITY <= count <= coupon_limit(bytes[3])
    &&& bytes.len() == 12 + 4 * n
    &&& distinct_keys(set_words(bytes), false)
    &&& occupied(set_words(bytes), n as int) == count
    &&& forall|e: u32| gathered(set_words(bytes), n as int).contains(e) ==> valid_coupon(e)
}

/// The number of packed bytes in the image of a bucket array.
pub open spec fn array_packed_len(bytes: Seq<u8>) -> int {
    type_of(bytes).packed_len(pow2(bytes[3] as nat) as int)
}

/// The packed buckets of the image of a bucket array.
pub open spec fn array_packed(bytes: Seq<u8>) -> Seq<u8> {
    bytes.subrange(24, 24 + array_packed_len(bytes))
}

/// The exception table of the image of a bucket array.
pub open spec fn array_words(bytes: Seq<u8>) -> Seq<u32> {
    words_at(
        bytes,
        28 + array_packed_len(bytes),
        table_words(bytes, word_at(bytes, 24 + array_packed_len(bytes)) as nat),
    )
}

/// The exceptions of the image of a bucket array.
pub open spec fn array_pairs(bytes: Seq<u8>) -> Set<u32> {
    gathered(array_words(bytes), array_words(bytes).len() as int)
}

/// The values of the image of a bucket array as they are packed.
pub open spec fn array_raw(bytes: Seq<u8>) -> Seq<u8> {
    unpack(type_of(bytes), pow2(bytes[3] as nat), array_packed(bytes), array_pairs(bytes))
}

/// The bucket values of the image of a bucket array.
pub open spec fn array_buckets(bytes: Seq<u8>) -> Seq<u8> {
    lifted_by(array_raw(bytes), bytes[7])
}

/// Whether an image with a good preamble is the image of a bucket array.
pub open spec fn array_ok(bytes: Seq<u8>) -> bool {
    let plen = array_packed_len(bytes);
    let count = word_at(bytes, 24 + plen) as nat;
    let n = table_words(bytes, count);
    &&& bytes.len() >= 28 + plen
    &&& count <= pow2(bytes[3] as nat)
    &&& bytes.len() == 28 + plen + 4 * n
    &&& distinct_keys(array_words(bytes), true)
    &&& occupied(array_words(bytes), n as int) == count
    &&& well_packed(type_of(bytes), pow2(bytes[3] as nat), array_packed(bytes), array_pairs(bytes))
    &&& forall|i: int|
        0 <= i < pow2(bytes[3] as nat) ==> #[trigger] array_raw(bytes)[i] + bytes[7] <= MAX_VALUE
    &&& wide_at(bytes, 8) <= hip_bound(bytes[3], kxq_of(array_buckets(bytes)))
}

/// The sketch that a byte string is the image of, if it is one.
pub open spec fn decode(bytes: Seq<u8>) -> Option<HllView> {
    if !header_ok(bytes) {
        None
    } else {
        match mode_of(bytes) {
            HllMode::List => if list_ok(bytes) {
                Some(
                    HllView {
                        lg_config_k: bytes[3],
                        tgt_type: type_of(bytes),
                        mode: HllMode::List,
                        ooo: false,
                        coupons: list_words(bytes).to_set(),
                        buckets: Seq::empty(),
                        hip: 0,
                    },
                )
            } else {
                None
            },
            HllMode::CouponSet => if set_ok(bytes) {
                Some(
                    HllView {
                        lg_config_k: bytes[3],
                        tgt_type: type_of(bytes),
                        mode: HllMode::CouponSet,
                        ooo: false,
                        coupons: gathered(set_words(bytes), set_words(bytes).len() as int),
                        buckets: Seq::empty(),
                        hip: 0,
                    },
                )
            } else {
                None
            },
            HllMode::Hll => if array_ok(bytes) {
                Some(
                    HllView {
                        lg_config_k: bytes[3],
                        tgt_type: type_of(bytes),
                        mode: HllMode::Hll,
                        ooo: ooo_of(bytes),
                        coupons: Set::empty(),
                        buckets: array_buckets(bytes),
                        hip: wide_at(bytes, 8) as nat,
                    },
                )
            } else {
                None
            },
        }
    }
}

/// Writes the eight bytes of a preamble into an empty buffer.
pub fn write_preamble(
    out: &mut Vec<u8>,
    mode: HllMode,
    lg_k: u8,
    flags: u8,
    kind: HllType,
    extra: u8,
    base: u8,
)
    requires
        old(out)@.len() == 0,
    ensures
        final(out)@ == seq![
            FAMILY_ID,
            SERIAL_VERSION,
            mode.code_of(),
            lg_k,
            flags,
            kind.code_of(),
            extra,
            base,
        ],
{
    out.push(FAMILY_ID);
    out.push(SERIAL_VERSION);
    out.push(mode.code());
    out.push(lg_k);
    out.push(flags);
    out.push(kind.code());
    out.push(extra);
    out.push(base);
    proof {
        assert(out@ =~= seq![
            FAMILY_ID,
            SERIAL_VERSION,
            mode.code_of(),
            lg_k,
            flags,
            kind.code_of(),
            extra,
            base,
        ]);
    }
}

} // verus!
