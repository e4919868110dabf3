//! The serialized image of a CPC sketch.
//!
//! An image starts with forty bytes:
//!
//! | bytes | hold |
//! |-------|------|
//! | 0 | the family, 16 |
//! | 1 | the version of the format, 1 |
//! | 2 | the flavor: 0 empty, 1 sparse, 2 hybrid, 3 pinned, 4 sliding |
//! | 3 | `lg_k` |
//! | 4 | the flags: 1 for a sketch that came out of a union |
//! | 5 | the offset of the window |
//! | 6, 7 | 0 |
//! | 8 to 15 | the seed |
//! | 16 to 23 | the number of coupons |
//! | 24 to 39 | the HIP accumulator |
//!
//! All numbers are little-endian. In the sparse flavors the coupons
//! follow, a word each. In the other flavors the window follows, a byte
//! for each row whose bit `i` is the bit of the row in column `offset + i`,
//! and after it, in rising order, the pairs of the surprising bits: the
//! zeros in the columns before the window and the ones in the columns
//! after it.
//!
//! [`decode`] says which byte strings are images, and of which sketch.
use crate::cpc::MAX_LG_K;
use crate::cpc::MAX_OFFSET;
use crate::cpc::MIN_LG_K;
use crate::cpc::flavor_of;
use crate::cpc::model::CpcView;
use crate::cpc::valid_pair;
use crate::cpc::window::window_set;
use crate::cpc::window::words_fit;
use crate::cpc::window_offset_of;
use crate::table::distinct_keys;
use crate::table::gathered;
use crate::table::occupied;
use crate::wire::long_at;
use crate::wire::wide_at;
use crate::wire::words_at;
use vstd::arithmetic::power2::pow2;
use vstd::prelude::*;

verus! {

/// The family of the CPC sketches.
pub const FAMILY_ID: u8 = 16;

/// The version of the format.
pub const SERIAL_VERSION: u8 = 1;

/// The number of bytes before the payload.
pub const HEADER_BYTES: usize = 40;

/// Whether the first forty bytes are a header.
pub open spec fn header_ok(bytes: Seq<u8>) -> bool {
    &&& bytes.len() >= HEADER_BYTES
    &&& bytes[0] == FAMILY_ID
    &&& bytes[1] == SERIAL_VERSION
    &&& bytes[2] <= 4
    &&& MIN_LG_K <= bytes[3] <= MAX_LG_K
    &&& bytes[4] <= 1
    &&& bytes[5] <= MAX_OFFSET
    &&& bytes[6] == 0
    &&& bytes[7] == 0
    &&& long_at(bytes, 16) <= 0x1_0000_0000
    &&& flavor_of(bytes[3], long_at(bytes, 16) as int).code_of() == bytes[2]
    &&& window_offset_of(bytes[3], long_at(bytes, 16) as int) == bytes[5]
    &&& wide_at(bytes, 24) <= long_at(bytes, 16) * pow2((bytes[3] + 62) as nat)
}

/// The coupons of the image of a sparse sketch.
pub open spec fn sparse_words(bytes: Seq<u8>) -> Seq<u32> {
    words_at(bytes, 40, long_at(bytes, 16) as nat)
}

/// Whether an image with a good header is the image of a sparse sketch.
pub open spec fn sparse_ok(bytes: Seq<u8>) -> bool {
    let n = long_at(bytes, 16) as int;
    &&& bytes.len() == 40 + 4 * n
    &&& distinct_keys(sparse_words(bytes), false)
    &&& occupied(sparse_words(bytes), n) == n
    &&& forall|p: u32| gathered(sparse_words(bytes), n).contains(p) ==> valid_pair(p, bytes[3])
}

/// The number of surprising bits in the image of a sketch that is not
/// sparse.
pub open spec fn dense_count(bytes: Seq<u8>) -> int {
    (bytes.len() - 40 - pow2(bytes[3] as nat)) / 4
}

/// The surprising bits of the image of a sketch that is not sparse.
pub open spec fn dense_words(bytes: Seq<u8>) -> Seq<u32> {
    words_at(bytes, 40 + pow2(bytes[3] as nat) as int, dense_count(bytes) as nat)
}

/// The window of the image of a sketch that is not sparse.
pub open spec fn dense_window(bytes: Seq<u8>) -> Seq<u8> {
    bytes.subrange(40, 40 + pow2(bytes[3] as nat) as int)
}

/// The coupons of the image of a sketch that is not sparse.
pub open spec fn dense_set(bytes: Seq<u8>) -> Set<u32> {
    window_set(bytes[3], dense_window(bytes), dense_words(bytes), bytes[5] as int)
}

/// Whether an image with a good header is the image of a sketch that is
/// not sparse.
pub open spec fn dense_ok(bytes: Seq<u8>) -> bool {
    let k = pow2(bytes[3] as nat) as int;
    &&& bytes.len() >= 40 + k
    &&& (bytes.len() - 40 - k) % 4 == 0
    &&& words_fit(dense_words(bytes), bytes[3], bytes[5] as int)
    &&& dense_set(bytes).finite()
    &&& dense_set(bytes).len() == long_at(bytes, 16)
}

/// The sketch that a byte string is the image of, if it is one.
pub open spec fn decode(bytes: Seq<u8>) -> Option<CpcView> {
    if !header_ok(bytes) {
        None
    } else if bytes[2] <= 1 {
        if sparse_ok(bytes) {
            Some(
                CpcView {
                    lg_k: bytes[3],
                    seed: long_at(bytes, 8),
                    coupons: gathered(sparse_words(bytes), sparse_words(bytes).len() as int),
                    hip: wide_at(bytes, 24) as nat,
                    merged: bytes[4] == 1,
                },
            )
        } else {
            None
        }
    } else {
        if dense_ok(bytes) {
            Some(
                CpcView {
                    lg_k: bytes[3],
                    seed: long_at(bytes, 8),
                    coupons: dense_set(bytes),
                    hip: wide_at(bytes, 24) as nat,
                    merged: bytes[4] == 1,
                },
            )
        } else {
            None
        }
    }
}

} // verus!
