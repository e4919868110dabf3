//! The bucket array of a sketch, packed in a flat byte buffer.
//!
//! Bucket `i` lies
//! - at width 8 in byte `i`;
//! - at width 6 in bits `6 * (i % 4)` to `6 * (i % 4) + 5` of the 24-bit
//!   little-endian word made of bytes `3 * (i / 4)` to `3 * (i / 4) + 2`;
//! - at width 4 in the low half of byte `i / 2` if `i` is even and in the
//!   high half if it is odd. There 15 says that the value is 15 or more and
//!   stands in the exception table, in an entry whose address is `i`.
//!
//! At width 4 the values that are packed are taken from a base, which is
//! added to them when they are read: where every bucket holds at least the
//! base, only those buckets are exceptions that are 15 or more above it.
//! The base follows the smallest value that any bucket holds.
use crate::hll::HllType;
use crate::hll::MAX_LG_CONFIG_K;
use crate::hll::MAX_VALUE;
use crate::hll::MIN_LG_CONFIG_K;
use crate::hll::bucket_count;
use crate::table::ADDRESS_SPAN;
use crate::table::PairTable;
use crate::table::key_of;
use vstd::arithmetic::power2::lemma2_to64;
use vstd::arithmetic::power2::lemma_pow2_strictly_increases;
use vstd::arithmetic::power2::lemma_pow2_unfold;
use vstd::arithmetic::power2::pow2;
use vstd::prelude::*;

verus! {

/// What a 4-bit field holds when its bucket is an exception.
pub const EXCEPTION: u8 = 15;

/// The 4-bit field of bucket `i`.
pub open spec fn nibble(bytes: Seq<u8>, i: int) -> u8 {
    if i % 2 == 0 {
        bytes[i / 2] & 0x0F
    } else {
        bytes[i / 2] >> 4u8
    }
}

/// The 24-bit little-endian word that starts at byte `at`.
pub open spec fn word24(bytes: Seq<u8>, at: int) -> u32 {
    (bytes[at] as u32) | ((bytes[at + 1] as u32) << 8u32) | ((bytes[at + 2] as u32) << 16u32)
}

/// The `r`-th 6-bit field of a 24-bit word.
pub open spec fn field6(word: u32, r: int) -> u8 {
    ((word >> ((6 * r) as u32)) & 63) as u8
}

/// Whether the exception table has an entry for bucket `i`.
pub open spec fn covered(pairs: Set<u32>, i: int) -> bool {
    exists|e: u32| pairs.contains(e) && e as int % ADDRESS_SPAN as int == i
}

/// The entry of the exception table for bucket `i`.
pub open spec fn exception_of(pairs: Set<u32>, i: int) -> u32 {
    choose|e: u32| pairs.contains(e) && e as int % ADDRESS_SPAN as int == i
}

/// The value of bucket `i` in a packed buffer with its exception table.
pub open spec fn register_of(kind: HllType, bytes: Seq<u8>, pairs: Set<u32>, i: int) -> u8 {
    match kind {
        HllType::HLL8 => bytes[i],
        HllType::HLL6 => field6(word24(bytes, 3 * (i / 4)), i % 4),
        HllType::HLL4 => if nibble(bytes, i) == EXCEPTION {
            (exception_of(pairs, i) / ADDRESS_SPAN) as u8
        } else {
            nibble(bytes, i)
        },
    }
}

/// The values of the `k` buckets of a packed buffer.
pub open spec fn unpack(kind: HllType, k: nat, bytes: Seq<u8>, pairs: Set<u32>) -> Seq<u8> {
    Seq::new(k, |i: int| register_of(kind, bytes, pairs, i))
}

/// Whether a packed buffer and an exception table fit each other and hold
/// only values up to [`MAX_VALUE`].
pub open spec fn well_packed(kind: HllType, k: nat, bytes: Seq<u8>, pairs: Set<u32>) -> bool {
    &&& bytes.len() == kind.packed_len(k as int)
    &&& forall|i: int| 0 <= i < k ==> #[trigger] register_of(kind, bytes, pairs, i) <= MAX_VALUE
    &&& kind == HllType::HLL4 ==> {
        &&& forall|i: int| 0 <= i < k ==> (#[trigger] nibble(bytes, i) == EXCEPTION <==> covered(pairs, i))
        &&& forall|e: u32| #[trigger]
            pairs.contains(e) ==> e % ADDRESS_SPAN < k && EXCEPTION <= e / ADDRESS_SPAN
                <= MAX_VALUE
    }
    &&& kind != HllType::HLL4 ==> forall|e: u32| !pairs.contains(e)
}

proof fn lemma_nibbles(b: u8, n: u8)
    by (bit_vector)
    requires
        n < 16,
    ensures
        ((b & 0xF0) | n) & 0x0F == n,
        ((b & 0xF0) | n) >> 4u8 == b >> 4u8,
        ((b & 0x0F) | (n << 4u8)) >> 4u8 == n,
        ((b & 0x0F) | (n << 4u8)) & 0x0F == b & 0x0F,
        b & 0x0F < 16,
        b >> 4u8 < 16,
{
}

proof fn lemma_field6_put(w: u32, r: u32, v: u32, r2: u32)
    by (bit_vector)
    requires
        w < 0x100_0000,
        r < 4,
        r2 < 4,
        v < 64,
    ensures
        ((w & !(63u32 << (6 * r))) | (v << (6 * r))) < 0x100_0000,
        (((w & !(63u32 << (6 * r))) | (v << (6 * r))) >> (6 * r)) & 63 == v,
        r2 != r ==> (((w & !(63u32 << (6 * r))) | (v << (6 * r))) >> (6 * r2)) & 63 == (w >> (6
            * r2)) & 63,
        (w >> (6 * r2)) & 63 < 64,
{
}

proof fn lemma_word24_join(b0: u8, b1: u8, b2: u8)
    by (bit_vector)
    ensures
        ((b0 as u32) | ((b1 as u32) << 8u32) | ((b2 as u32) << 16u32)) < 0x100_0000,
{
}

proof fn lemma_word24_split(w: u32)
    by (bit_vector)
    requires
        w < 0x100_0000,
    ensures
        w & 0xFF < 256,
        (w >> 8u32) & 0xFF < 256,
        (w >> 16u32) & 0xFF < 256,
        (((w & 0xFF) as u8) as u32) | ((((w >> 8u32) & 0xFF) as u8 as u32) << 8u32) | ((((w
            >> 16u32) & 0xFF) as u8 as u32) << 16u32) == w,
{
}

/// The word of a group of four buckets with one of its fields replaced.
pub open spec fn word_with(w: u32, r: u32, v: u8) -> u32 {
    (w & !(63u32 << (6 * r))) | ((v as u32) << (6 * r))
}

/// A packed buffer with the word of one group of four buckets replaced.
pub open spec fn bytes_with_word(bytes: Seq<u8>, at: int, w: u32) -> Seq<u8> {
    bytes.update(at, (w & 0xFF) as u8).update(at + 1, ((w >> 8u32) & 0xFF) as u8).update(
        at + 2,
        ((w >> 16u32) & 0xFF) as u8,
    )
}

/// A packed buffer with the 4-bit field of one bucket replaced.
pub open spec fn bytes_with_nibble(bytes: Seq<u8>, i: int, n: u8) -> Seq<u8> {
    bytes.update(
        i / 2,
        if i % 2 == 0 {
            (bytes[i / 2] & 0xF0) | n
        } else {
            (bytes[i / 2] & 0x0F) | (n << 4u8)
        },
    )
}

proof fn lemma_put6(bytes: Seq<u8>, i: int, v: u8)
    requires
        0 <= i,
        3 * (i / 4) + 2 < bytes.len(),
        v < 64,
    ensures
        forall|j: int|
            0 <= j && 3 * (j / 4) + 2 < bytes.len() ==> #[trigger] field6(
                word24(
                    bytes_with_word(
                        bytes,
                        3 * (i / 4),
                        word_with(word24(bytes, 3 * (i / 4)), (i % 4) as u32, v),
                    ),
                    3 * (j / 4),
                ),
                j % 4,
            ) == (if j == i {
                v
            } else {
                field6(word24(bytes, 3 * (j / 4)), j % 4)
            }),
{
    let at = 3 * (i / 4);
    let r = (i % 4) as u32;
    let w = word24(bytes, at);
    let w2 = word_with(w, r, v);
    let after = bytes_with_word(bytes, at, w2);
    lemma_word24_join(bytes[at], bytes[at + 1], bytes[at + 2]);
    lemma_field6_put(w, r, v as u32, r);
    lemma_word24_split(w2);
    assert(word24(after, at) == w2);
    assert forall|j: int| 0 <= j && 3 * (j / 4) + 2 < bytes.len() implies #[trigger] field6(
        word24(after, 3 * (j / 4)),
        j % 4,
    ) == (if j == i {
        v
    } else {
        field6(word24(bytes, 3 * (j / 4)), j % 4)
    }) by {
        if j / 4 == i / 4 {
            lemma_field6_put(w, r, v as u32, (j % 4) as u32);
        } else {
            assert(word24(after, 3 * (j / 4)) == word24(bytes, 3 * (j / 4)));
        }
    }
}

proof fn lemma_get6(bytes: Seq<u8>, i: int)
    requires
        0 <= i,
        3 * (i / 4) + 2 < bytes.len(),
    ensures
        word24(bytes, 3 * (i / 4)) < 0x100_0000,
        field6(word24(bytes, 3 * (i / 4)), i % 4) < 64,
        field6(word24(bytes, 3 * (i / 4)), i % 4) == (word24(bytes, 3 * (i / 4)) >> (6 * ((i % 4) as u32)))
            & 63,
{
    let at = 3 * (i / 4);
    lemma_word24_join(bytes[at], bytes[at + 1], bytes[at + 2]);
    lemma_field6_put(word24(bytes, at), 0, 0, (i % 4) as u32);
}

proof fn lemma_put4(bytes: Seq<u8>, i: int, n: u8)
    requires
        0 <= i,
        i / 2 < bytes.len(),
        n < 16,
    ensures
        forall|j: int|
            0 <= j && j / 2 < bytes.len() ==> #[trigger] nibble(bytes_with_nibble(bytes, i, n), j)
                == (if j == i {
                n
            } else {
                nibble(bytes, j)
            }),
{
    lemma_nibbles(bytes[i / 2], n);
}

proof fn lemma_zero_fields()
    ensures
        0u8 & 0x0F == 0u8,
        0u8 >> 4u8 == 0u8,
        (0u8 as u32) | ((0u8 as u32) << 8u32) | ((0u8 as u32) << 16u32) == 0u32,
        forall|r: int| 0 <= r < 4 ==> #[trigger] field6(0u32, r) == 0,
{
    assert(0u8 & 0x0F == 0u8) by (bit_vector);
    assert(0u8 >> 4u8 == 0u8) by (bit_vector);
    assert((0u8 as u32) | ((0u8 as u32) << 8u32) | ((0u8 as u32) << 16u32) == 0u32)
        by (bit_vector);
    assert forall|r: int| 0 <= r < 4 implies #[trigger] field6(0u32, r) == 0 by {
        let q = (6 * r) as u32;
        assert(q < 24 ==> ((0u32 >> q) & 63) == 0u32) by (bit_vector);
    }
}

/// What adding an exception for bucket `i` does to the exception table.
proof fn lemma_exception_added(pairs: Set<u32>, pairs2: Set<u32>, entry: u32, i: int)
    requires
        forall|a: u32, b: u32|
            pairs.contains(a) && pairs.contains(b) && a != b ==> a % ADDRESS_SPAN != b
                % ADDRESS_SPAN,
        forall|a: u32, b: u32|
            pairs2.contains(a) && pairs2.contains(b) && a != b ==> a % ADDRESS_SPAN != b
                % ADDRESS_SPAN,
        entry as int % ADDRESS_SPAN as int == i,
        forall|e: u32|
            pairs2.contains(e) <==> (e == entry || (pairs.contains(e) && e as int
                % ADDRESS_SPAN as int != i)),
    ensures
        covered(pairs2, i),
        exception_of(pairs2, i) == entry,
        forall|j: int|
            j != i ==> (#[trigger] covered(pairs2, j) <==> covered(pairs, j)) && (covered(pairs, j)
                ==> exception_of(pairs2, j) == exception_of(pairs, j)),
{
    assert(pairs2.contains(entry));
    assert forall|j: int| j != i implies (#[trigger] covered(pairs2, j) <==> covered(pairs, j))
        && (covered(pairs, j) ==> exception_of(pairs2, j) == exception_of(pairs, j)) by {
        if covered(pairs, j) {
            let e = exception_of(pairs, j);
            assert(pairs2.contains(e));
        }
        if covered(pairs2, j) {
            let e2 = exception_of(pairs2, j);
            assert(pairs.contains(e2));
        }
    }
}

/// What a search of the exception table for bucket `i` finds is the
/// exception of that bucket.
proof fn lemma_exception_found(table: &PairTable, found: Option<u32>, i: int)
    requires
        table.keyed_by_address(),
        0 <= i < ADDRESS_SPAN,
        covered(table.entries(), i),
        forall|a: u32, b: u32|
            table.contains(a) && table.contains(b) && a != b ==> key_of(a, true) != key_of(
                b,
                true,
            ),
        match found {
            Some(e) => table.contains(e) && key_of(e, true) == i,
            None => forall|e: u32| table.contains(e) ==> key_of(e, true) != i,
        },
    ensures
        found == Some(exception_of(table.entries(), i)),
{
    let chosen = exception_of(table.entries(), i);
    assert(table.contains(chosen));
    assert(key_of(chosen, true) == i);
}

/// What raising bucket `i` to `v` does to an array of width 4.
proof fn lemma_raise4(
    k: nat,
    before: Seq<u8>,
    after: Seq<u8>,
    pairs: Set<u32>,
    pairs2: Set<u32>,
    i: int,
    v: u8,
)
    requires
        well_packed(HllType::HLL4, k, before, pairs),
        k % 2 == 0,
        k <= ADDRESS_SPAN,
        0 <= i < k,
        register_of(HllType::HLL4, before, pairs, i) < v <= MAX_VALUE,
        after == bytes_with_nibble(
            before,
            i,
            if v < EXCEPTION {
                v
            } else {
                EXCEPTION
            },
        ),
        v < EXCEPTION ==> pairs2 == pairs,
        v >= EXCEPTION ==> {
            &&& covered(pairs2, i)
            &&& exception_of(pairs2, i) == (v as u32 * ADDRESS_SPAN + i) as u32
            &&& forall|e: u32|
                pairs2.contains(e) <==> (e == (v as u32 * ADDRESS_SPAN + i) as u32 || (
                pairs.contains(e) && e as int % ADDRESS_SPAN as int != i))
            &&& forall|j: int|
                j != i ==> (#[trigger] covered(pairs2, j) <==> covered(pairs, j)) && (covered(
                    pairs,
                    j,
                ) ==> exception_of(pairs2, j) == exception_of(pairs, j))
        },
    ensures
        well_packed(HllType::HLL4, k, after, pairs2),
        unpack(HllType::HLL4, k, after, pairs2) == unpack(HllType::HLL4, k, before, pairs).update(
            i,
            v,
        ),
{
    let n = if v < EXCEPTION {
        v
    } else {
        EXCEPTION
    };
    lemma_put4(before, i, n);
    assert(nibble(before, i) == EXCEPTION <==> covered(pairs, i));
    if nibble(before, i) == EXCEPTION {
        let e = exception_of(pairs, i);
        assert(pairs.contains(e));
    }
    assert forall|j: int| 0 <= j < k implies #[trigger] register_of(
        HllType::HLL4,
        after,
        pairs2,
        j,
    ) == (if j == i {
        v
    } else {
        register_of(HllType::HLL4, before, pairs, j)
    }) by {
        assert(nibble(after, j) == (if j == i {
            n
        } else {
            nibble(before, j)
        }));
        if j != i {
            assert(nibble(before, j) == EXCEPTION <==> covered(pairs, j));
            if v >= EXCEPTION {
                assert(covered(pairs2, j) <==> covered(pairs, j));
            }
        }
    }
    assert forall|j: int| 0 <= j < k implies #[trigger] register_of(
        HllType::HLL4,
        after,
        pairs2,
        j,
    ) <= MAX_VALUE by {
        assert(register_of(HllType::HLL4, before, pairs, j) <= MAX_VALUE);
    }
    assert forall|j: int| 0 <= j < k implies (#[trigger] nibble(after, j) == EXCEPTION <==> covered(
        pairs2,
        j,
    )) by {
        assert(nibble(after, j) == (if j == i {
            n
        } else {
            nibble(before, j)
        }));
        assert(nibble(before, j) == EXCEPTION <==> covered(pairs, j));
        if j != i && v >= EXCEPTION {
            assert(covered(pairs2, j) <==> covered(pairs, j));
        }
    }
    assert(unpack(HllType::HLL4, k, after, pairs2) =~= unpack(
        HllType::HLL4,
        k,
        before,
        pairs,
    ).update(i, v));
}

/// What raising bucket `i` to `v` does to an array of width 6.
proof fn lemma_raise6(k: nat, before: Seq<u8>, after: Seq<u8>, pairs: Set<u32>, i: int, v: u8)
    requires
        well_packed(HllType::HLL6, k, before, pairs),
        k % 4 == 0,
        0 <= i < k,
        v <= MAX_VALUE,
        after == bytes_with_word(
            before,
            3 * (i / 4),
            word_with(word24(before, 3 * (i / 4)), (i % 4) as u32, v),
        ),
    ensures
        well_packed(HllType::HLL6, k, after, pairs),
        unpack(HllType::HLL6, k, after, pairs) == unpack(HllType::HLL6, k, before, pairs).update(
            i,
            v,
        ),
{
    lemma_put6(before, i, v);
    assert forall|j: int| 0 <= j < k implies #[trigger] register_of(
        HllType::HLL6,
        after,
        pairs,
        j,
    ) == (if j == i {
        v
    } else {
        register_of(HllType::HLL6, before, pairs, j)
    }) by {
        assert(field6(word24(after, 3 * (j / 4)), j % 4) == (if j == i {
            v
        } else {
            field6(word24(before, 3 * (j / 4)), j % 4)
        }));
    }
    assert forall|j: int| 0 <= j < k implies #[trigger] register_of(
        HllType::HLL6,
        after,
        pairs,
        j,
    ) <= MAX_VALUE by {
        assert(register_of(HllType::HLL6, before, pairs, j) <= MAX_VALUE);
    }
    assert(unpack(HllType::HLL6, k, after, pairs) =~= unpack(
        HllType::HLL6,
        k,
        before,
        pairs,
    ).update(i, v));
}

/// What raising bucket `i` to `v` does to an array of width 8.
proof fn lemma_raise8(k: nat, before: Seq<u8>, pairs: Set<u32>, i: int, v: u8)
    requires
        well_packed(HllType::HLL8, k, before, pairs),
        0 <= i < k,
        v <= MAX_VALUE,
    ensures
        well_packed(HllType::HLL8, k, before.update(i, v), pairs),
        unpack(HllType::HLL8, k, before.update(i, v), pairs) == unpack(
            HllType::HLL8,
            k,
            before,
            pairs,
        ).update(i, v),
{
    let after = before.update(i, v);
    assert forall|j: int| 0 <= j < k implies #[trigger] register_of(
        HllType::HLL8,
        after,
        pairs,
        j,
    ) <= MAX_VALUE by {
        assert(register_of(HllType::HLL8, before, pairs, j) <= MAX_VALUE);
    }
    assert(unpack(HllType::HLL8, k, after, pairs) =~= unpack(
        HllType::HLL8,
        k,
        before,
        pairs,
    ).update(i, v));
}

/// A buffer of zeros is well packed and holds 0 in every bucket.
proof fn lemma_zeros(kind: HllType, k: nat, bytes: Seq<u8>, pairs: Set<u32>)
    requires
        k % 4 == 0,
        bytes.len() == kind.packed_len(k as int),
        forall|i: int| 0 <= i < bytes.len() ==> bytes[i] == 0u8,
        forall|e: u32| !pairs.contains(e),
    ensures
        well_packed(kind, k, bytes, pairs),
        unpack(kind, k, bytes, pairs) == Seq::new(k, |i: int| 0u8),
{
    lemma_zero_fields();
    assert forall|i: int| 0 <= i < k implies #[trigger] register_of(kind, bytes, pairs, i)
        == 0u8 && nibble(bytes, i) == 0u8 by {
        assert(bytes[i / 2] == 0u8);
        if kind == HllType::HLL6 {
            let at = 3 * (i / 4);
            assert(bytes[at] == 0u8 && bytes[at + 1] == 0u8 && bytes[at + 2] == 0u8);
            assert(word24(bytes, at) == 0u32);
            assert(field6(0u32, i % 4) == 0);
        }
    }
    if kind == HllType::HLL4 {
        assert forall|i: int| 0 <= i < k implies (#[trigger] nibble(bytes, i) == EXCEPTION
            <==> covered(pairs, i)) by {
            assert(register_of(kind, bytes, pairs, i) == 0u8);
        }
    }
    assert(unpack(kind, k, bytes, pairs) =~= Seq::new(k, |i: int| 0u8));
}

/// What has to hold of the parts of an array of each width.
proof fn lemma_from_parts(kind: HllType, k: nat, bytes: Seq<u8>, pairs: Set<u32>)
    requires
        bytes.len() == kind.packed_len(k as int),
        k % 4 == 0,
    ensures
        kind == HllType::HLL4 ==> (well_packed(kind, k, bytes, pairs) <==> {
            &&& forall|i: int|
                0 <= i < k ==> (#[trigger] nibble(bytes, i) == EXCEPTION <==> covered(pairs, i))
            &&& forall|e: u32| #[trigger]
                pairs.contains(e) ==> e % ADDRESS_SPAN < k && EXCEPTION <= e / ADDRESS_SPAN
                    <= MAX_VALUE
        }),
        kind != HllType::HLL4 ==> (well_packed(kind, k, bytes, pairs) <==> {
            &&& forall|e: u32| !pairs.contains(e)
            &&& forall|i: int|
                0 <= i < k ==> #[trigger] register_of(kind, bytes, Set::<u32>::empty(), i)
                    <= MAX_VALUE
        }),
{
    if kind == HllType::HLL4 {
        if {
            &&& forall|i: int|
                0 <= i < k ==> (#[trigger] nibble(bytes, i) == EXCEPTION <==> covered(pairs, i))
            &&& forall|e: u32| #[trigger]
                pairs.contains(e) ==> e % ADDRESS_SPAN < k && EXCEPTION <= e / ADDRESS_SPAN
                    <= MAX_VALUE
        } {
            assert forall|i: int| 0 <= i < k implies #[trigger] register_of(kind, bytes, pairs, i)
                <= MAX_VALUE by {
                lemma_nibbles(bytes[i / 2], 0);
                assert(nibble(bytes, i) == EXCEPTION <==> covered(pairs, i));
                if nibble(bytes, i) == EXCEPTION {
                    let e = exception_of(pairs, i);
                    assert(pairs.contains(e));
                }
            }
        }
    } else {
        assert forall|i: int| 0 <= i < k implies #[trigger] register_of(kind, bytes, pairs, i)
            == register_of(kind, bytes, Set::<u32>::empty(), i) by {}
        if well_packed(kind, k, bytes, pairs) {
            assert forall|i: int| 0 <= i < k implies #[trigger] register_of(
                kind,
                bytes,
                Set::<u32>::empty(),
                i,
            ) <= MAX_VALUE by {
                assert(register_of(kind, bytes, pairs, i) <= MAX_VALUE);
            }
        }
        if {
            &&& forall|e: u32| !pairs.contains(e)
            &&& forall|i: int|
                0 <= i < k ==> #[trigger] register_of(kind, bytes, Set::<u32>::empty(), i)
                    <= MAX_VALUE
        } {
            assert forall|i: int| 0 <= i < k implies #[trigger] register_of(kind, bytes, pairs, i)
                <= MAX_VALUE by {
                assert(register_of(kind, bytes, Set::<u32>::empty(), i) <= MAX_VALUE);
            }
        }
    }
}

/// Packed values with a base added to each.
pub open spec fn lifted_by(packed: Seq<u8>, base: u8) -> Seq<u8> {
    Seq::new(packed.len(), |i: int| (packed[i] + base) as u8)
}

/// The bucket array of a sketch in its packed form.
pub struct Registers {
    kind: HllType,
    lg_k: u8,
    base: u8,
    bytes: Vec<u8>,
    aux: PairTable,
}

impl View for Registers {
    type V = Seq<u8>;

    /// The values of the buckets, one for each.
    open spec fn view(&self) -> Seq<u8> {
        lifted_by(self.raw(), self.base())
    }
}

impl Clone for Registers {
    /// A copy with the same buckets.
    fn clone(&self) -> (copy: Self)
        ensures
            copy.kind() == self.kind(),
            copy.lg_k() == self.lg_k(),
            copy.base() == self.base(),
            copy.packed() == self.packed(),
            copy.exceptions().cells() == self.exceptions().cells(),
            copy.exceptions().entries() == self.exceptions().entries(),
            copy.raw() == self.raw(),
            copy@ == self@,
            self.wf() ==> copy.wf(),
    {
        let bytes: Vec<u8> = self.bytes.clone();
        let aux: PairTable = self.aux.clone();
        proof {
            assert(bytes@ =~= self.bytes@);
        }
        Registers { kind: self.kind, lg_k: self.lg_k, base: self.base, bytes, aux }
    }
}

impl Registers {
    /// The width of the packing.
    pub closed spec fn kind(&self) -> HllType {
        self.kind
    }

    /// The binary logarithm of the number of buckets.
    pub closed spec fn lg_k(&self) -> u8 {
        self.lg_k
    }

    /// The base from which the packed values are taken.
    pub closed spec fn base(&self) -> u8 {
        self.base
    }

    /// The packed buffer.
    pub closed spec fn packed(&self) -> Seq<u8> {
        self.bytes@
    }

    /// The exception table.
    pub closed spec fn exceptions(&self) -> PairTable {
        self.aux
    }

    /// The values as they are packed, before the base is added.
    pub open spec fn raw(&self) -> Seq<u8> {
        unpack(self.kind(), pow2(self.lg_k() as nat), self.packed(), self.exceptions().entries())
    }

    /// The invariant of the packed values.
    pub open spec fn raw_wf(&self) -> bool {
        &&& MIN_LG_CONFIG_K <= self.lg_k() <= MAX_LG_CONFIG_K
        &&& self.exceptions().wf()
        &&& self.exceptions().keyed_by_address()
        &&& well_packed(
            self.kind(),
            pow2(self.lg_k() as nat),
            self.packed(),
            self.exceptions().entries(),
        )
    }

    /// The invariant of the array.
    pub open spec fn wf(&self) -> bool {
        &&& self.raw_wf()
        &&& self.kind() != HllType::HLL4 ==> self.base() == 0
        &&& forall|i: int|
            0 <= i < pow2(self.lg_k() as nat) ==> #[trigger] self.raw()[i] + self.base()
                <= MAX_VALUE
    }

    /// The buckets of a well-formed array hold values that are no less
    /// than the base.
    pub proof fn lemma_values(&self)
        requires
            self.wf(),
        ensures
            self@.len() == pow2(self.lg_k() as nat),
            self.base() <= MAX_VALUE,
            forall|i: int| 0 <= i < self@.len() ==> self.base() <= #[trigger] self@[i] <= MAX_VALUE,
    {
        Self::lemma_bucket_count(self.lg_k());
        assert(self.raw()[0] + self.base() <= MAX_VALUE);
        assert forall|i: int| 0 <= i < self@.len() implies self.base() <= #[trigger] self@[i]
            <= MAX_VALUE by {
            assert(self.raw()[i] + self.base() <= MAX_VALUE);
        }
    }

    /// The number of buckets is a multiple of four between 128 and `2^21`.
    pub proof fn lemma_bucket_count(lg_k: u8)
        requires
            MIN_LG_CONFIG_K <= lg_k <= MAX_LG_CONFIG_K,
        ensures
            128 <= pow2(lg_k as nat) <= 0x20_0000,
            pow2(lg_k as nat) % 4 == 0,
    {
        lemma2_to64();
        if lg_k < 21 {
            lemma_pow2_strictly_increases(lg_k as nat, 21);
        }
        if lg_k > 7 {
            lemma_pow2_strictly_increases(7, lg_k as nat);
        }
        lemma_pow2_unfold(lg_k as nat);
        lemma_pow2_unfold((lg_k - 1) as nat);
    }

    /// An array of `2^lg_k` buckets that all hold `base`.
    fn new_at(kind: HllType, lg_k: u8, base: u8) -> (regs: Registers)
        requires
            MIN_LG_CONFIG_K <= lg_k <= MAX_LG_CONFIG_K,
            base <= MAX_VALUE,
            kind != HllType::HLL4 ==> base == 0,
        ensures
            regs.wf(),
            regs.kind() == kind,
            regs.lg_k() == lg_k,
            regs.base() == base,
            regs@ == Seq::new(pow2(lg_k as nat), |i: int| base),
    {
        proof {
            Self::lemma_bucket_count(lg_k);
        }
        let k: usize = bucket_count(lg_k) as usize;
        let len: usize = match kind {
            HllType::HLL4 => k / 2,
            HllType::HLL6 => 3 * (k / 4),
            HllType::HLL8 => k,
        };
        let bytes: Vec<u8> = vec![0u8; len];
        let aux: PairTable = PairTable::new(2, true);
        proof {
            lemma_zeros(kind, k as nat, bytes@, aux.entries());
        }
        let regs = Registers { kind, lg_k, base, bytes, aux };
        proof {
            assert(regs@ =~= Seq::new(pow2(lg_k as nat), |i: int| base));
        }
        regs
    }

    /// An array of `2^lg_k` buckets that all hold 0.
    pub fn new(kind: HllType, lg_k: u8) -> (regs: Registers)
        requires
            MIN_LG_CONFIG_K <= lg_k <= MAX_LG_CONFIG_K,
        ensures
            regs.wf(),
            regs.kind() == kind,
            regs.lg_k() == lg_k,
            regs.base() == 0,
            regs@ == Seq::new(pow2(lg_k as nat), |i: int| 0u8),
    {
        Registers::new_at(kind, lg_k, 0)
    }

    /// Whether every byte of a buffer of width 8 is a value.
    fn values_fit8(bytes: &Vec<u8>) -> (ok: bool)
        ensures
            ok == forall|i: int|
                0 <= i < bytes@.len() ==> #[trigger] register_of(
                    HllType::HLL8,
                    bytes@,
                    Set::<u32>::empty(),
                    i,
                ) <= MAX_VALUE,
    {
        let n: usize = bytes.len();
        let mut i: usize = 0;
        while i < n
            invariant
                n == bytes@.len(),
                i <= n,
                forall|j: int|
                    0 <= j < i ==> #[trigger] register_of(
                        HllType::HLL8,
                        bytes@,
                        Set::<u32>::empty(),
                        j,
                    ) <= MAX_VALUE,
            decreases n - i,
        {
            if bytes[i] > MAX_VALUE {
                proof {
                    assert(register_of(HllType::HLL8, bytes@, Set::<u32>::empty(), i as int)
                        > MAX_VALUE);
                }
                return false;
            }
            i = i + 1;
        }
        true
    }

    /// Whether every field of a buffer of width 6 is a value.
    fn values_fit6(bytes: &Vec<u8>, k: usize) -> (ok: bool)
        requires
            k % 4 == 0,
            bytes@.len() == 3 * (k / 4),
        ensures
            ok == forall|i: int|
                0 <= i < k ==> #[trigger] register_of(
                    HllType::HLL6,
                    bytes@,
                    Set::<u32>::empty(),
                    i,
                ) <= MAX_VALUE,
    {
        let mut i: usize = 0;
        while i < k
            invariant
                k % 4 == 0,
                bytes@.len() == 3 * (k / 4),
                i <= k,
                forall|j: int|
                    0 <= j < i ==> #[trigger] register_of(
                        HllType::HLL6,
                        bytes@,
                        Set::<u32>::empty(),
                        j,
                    ) <= MAX_VALUE,
            decreases k - i,
        {
            proof {
                lemma_get6(bytes@, i as int);
            }
            let at: usize = 3 * (i / 4);
            let r: u32 = (i % 4) as u32;
            let w: u32 = (bytes[at] as u32) | ((bytes[at + 1] as u32) << 8u32) | ((bytes[at
                + 2] as u32) << 16u32);
            let v: u8 = ((w >> (6 * r)) & 63) as u8;
            if v > MAX_VALUE {
                proof {
                    assert(register_of(HllType::HLL6, bytes@, Set::<u32>::empty(), i as int)
                        > MAX_VALUE);
                }
                return false;
            }
            i = i + 1;
        }
        true
    }

    /// Whether the fields of a buffer of width 4 that say "exception" are
    /// those of the buckets that have an entry in the table.
    fn marks_agree(bytes: &Vec<u8>, k: usize, aux: &PairTable) -> (ok: bool)
        requires
            k % 2 == 0,
            k <= ADDRESS_SPAN,
            bytes@.len() == k / 2,
            aux.wf(),
            aux.keyed_by_address(),
        ensures
            ok == forall|i: int|
                0 <= i < k ==> (#[trigger] nibble(bytes@, i) == EXCEPTION <==> covered(
                    aux.entries(),
                    i,
                )),
    {
        let mut i: usize = 0;
        while i < k
            invariant
                k % 2 == 0,
                k <= ADDRESS_SPAN,
                bytes@.len() == k / 2,
                aux.wf(),
                aux.keyed_by_address(),
                i <= k,
                forall|j: int|
                    0 <= j < i ==> (#[trigger] nibble(bytes@, j) == EXCEPTION <==> covered(
                        aux.entries(),
                        j,
                    )),
            decreases k - i,
        {
            let b: u8 = bytes[i / 2];
            let n: u8 = if i % 2 == 0 {
                b & 0x0F
            } else {
                b >> 4u8
            };
            let found = aux.find(i as u32);
            proof {
                if found is Some {
                    assert(aux.entries().contains(found->0));
                }
                if covered(aux.entries(), i as int) {
                    let e = exception_of(aux.entries(), i as int);
                    assert(aux.contains(e));
                    assert(key_of(e, true) == i);
                }
                assert(found.is_some() == covered(aux.entries(), i as int));
                assert(n == nibble(bytes@, i as int));
            }
            if (n == EXCEPTION) != found.is_some() {
                proof {
                    assert(!(nibble(bytes@, i as int) == EXCEPTION <==> covered(
                        aux.entries(),
                        i as int,
                    )));
                }
                return false;
            }
            i = i + 1;
        }
        true
    }

    /// Whether every entry of an exception table belongs to one of `k`
    /// buckets and holds a value that does not fit in four bits.
    fn pairs_fit(aux: &PairTable, k: usize) -> (ok: bool)
        requires
            aux.wf(),
            k <= ADDRESS_SPAN,
        ensures
            ok == forall|e: u32| #[trigger]
                aux.entries().contains(e) ==> e % ADDRESS_SPAN < k && EXCEPTION <= e
                    / ADDRESS_SPAN <= MAX_VALUE,
    {
        let n: usize = aux.capacity();
        let mut i: usize = 0;
        while i < n
            invariant
                n == aux.cells().len(),
                k <= ADDRESS_SPAN,
                i <= n,
                forall|j: int|
                    0 <= j < i && aux.cells()[j] != crate::table::EMPTY ==> #[trigger] aux.cells()[j]
                        % ADDRESS_SPAN < k && EXCEPTION <= aux.cells()[j] / ADDRESS_SPAN
                        <= MAX_VALUE,
            decreases n - i,
        {
            let e: u32 = aux.slot(i);
            if e != crate::table::EMPTY {
                if (e % ADDRESS_SPAN) as usize >= k || e / ADDRESS_SPAN < EXCEPTION as u32 || e
                    / ADDRESS_SPAN > MAX_VALUE as u32 {
                    proof {
                        assert(aux.cells()[i as int] == e);
                        assert(aux.contains(e));
                        assert(aux.entries().contains(e));
                    }
                    return false;
                }
            }
            i = i + 1;
        }
        proof {
            assert forall|e: u32| #[trigger] aux.entries().contains(e) implies e % ADDRESS_SPAN < k
                && EXCEPTION <= e / ADDRESS_SPAN <= MAX_VALUE by {
                assert(aux.contains(e));
                let j = choose|j: int| 0 <= j < aux.cells().len() && aux.cells()[j] == e;
                assert(aux.cells()[j] % ADDRESS_SPAN < k);
            }
        }
        true
    }

    /// Whether every packed value stays a value when the base is added.
    fn values_fit_base(&self) -> (ok: bool)
        requires
            self.raw_wf(),
        ensures
            ok == forall|i: int|
                0 <= i < pow2(self.lg_k as nat) ==> #[trigger] self.raw()[i] + self.base
                    <= MAX_VALUE,
    {
        proof {
            Self::lemma_bucket_count(self.lg_k);
        }
        let k: usize = bucket_count(self.lg_k) as usize;
        let mut i: usize = 0;
        while i < k
            invariant
                self.raw_wf(),
                k == pow2(self.lg_k as nat),
                i <= k,
                forall|j: int| 0 <= j < i ==> #[trigger] self.raw()[j] + self.base <= MAX_VALUE,
            decreases k - i,
        {
            let v: u8 = self.get_raw(i);
            if v > MAX_VALUE || self.base > MAX_VALUE - v {
                proof {
                    assert(!(self.raw()[i as int] + self.base <= MAX_VALUE));
                }
                return false;
            }
            i = i + 1;
        }
        true
    }

    /// An array around a base, a packed buffer and an exception table, if
    /// they are well packed.
    pub fn from_parts(kind: HllType, lg_k: u8, base: u8, bytes: Vec<u8>, aux: PairTable) -> (r:
        Option<Registers>)
        requires
            MIN_LG_CONFIG_K <= lg_k <= MAX_LG_CONFIG_K,
            aux.wf(),
            aux.keyed_by_address(),
        ensures
            match r {
                Some(regs) => {
                    &&& regs.wf()
                    &&& regs.kind() == kind
                    &&& regs.lg_k() == lg_k
                    &&& regs.base() == base
                    &&& regs.packed() == bytes@
                    &&& regs.exceptions() == aux
                },
                None => !(well_packed(kind, pow2(lg_k as nat), bytes@, aux.entries()) && (kind
                    != HllType::HLL4 ==> base == 0) && forall|i: int|
                    0 <= i < pow2(lg_k as nat) ==> #[trigger] unpack(
                        kind,
                        pow2(lg_k as nat),
                        bytes@,
                        aux.entries(),
                    )[i] + base <= MAX_VALUE),
            },
    {
        proof {
            Self::lemma_bucket_count(lg_k);
            aux.lemma_size();
        }
        let k: usize = bucket_count(lg_k) as usize;
        let len: usize = match kind {
            HllType::HLL4 => k / 2,
            HllType::HLL6 => 3 * (k / 4),
            HllType::HLL8 => k,
        };
        if bytes.len() != len {
            return None;
        }
        let ok: bool = match kind {
            HllType::HLL8 => base == 0 && aux.len() == 0 && Self::values_fit8(&bytes),
            HllType::HLL6 => base == 0 && aux.len() == 0 && Self::values_fit6(&bytes, k),
            HllType::HLL4 => Self::pairs_fit(&aux, k) && Self::marks_agree(&bytes, k, &aux),
        };
        proof {
            lemma_from_parts(kind, k as nat, bytes@, aux.entries());
            if kind != HllType::HLL4 {
                if aux.size() == 0 {
                    assert(aux.entries() =~= Set::<u32>::empty());
                } else {
                    assert(aux.entries().len() != 0);
                    assert(exists|e: u32| aux.entries().contains(e)) by {
                        if forall|e: u32| !aux.entries().contains(e) {
                            assert(aux.entries() =~= Set::<u32>::empty());
                        }
                    }
                }
            }
        }
        if !ok {
            return None;
        }
        let regs = Registers { kind, lg_k, base, bytes, aux };
        if regs.values_fit_base() {
            Some(regs)
        } else {
            None
        }
    }

    /// The base from which the packed values are taken.
    pub fn base_exec(&self) -> (base: u8)
        ensures
            base == self.base(),
    {
        self.base
    }

    /// The binary logarithm of the number of buckets.
    pub fn lg_k_exec(&self) -> (lg_k: u8)
        ensures
            lg_k == self.lg_k(),
    {
        self.lg_k
    }

    /// The width of the packing.
    pub fn kind_exec(&self) -> (kind: HllType)
        ensures
            kind == self.kind(),
    {
        self.kind
    }

    /// The packed buffer.
    pub fn packed_bytes(&self) -> (bytes: &Vec<u8>)
        ensures
            bytes@ == self.packed(),
    {
        &self.bytes
    }

    /// The exception table.
    pub fn exception_table(&self) -> (table: &PairTable)
        ensures
            *table == self.exceptions(),
    {
        &self.aux
    }

    fn get6(&self, i: usize) -> (v: u8)
        requires
            self.raw_wf(),
            self.kind == HllType::HLL6,
            i < pow2(self.lg_k as nat),
        ensures
            v == register_of(self.kind, self.bytes@, self.aux.entries(), i as int),
    {
        proof {
            Self::lemma_bucket_count(self.lg_k);
            lemma_get6(self.bytes@, i as int);
        }
        let at: usize = 3 * (i / 4);
        let r: u32 = (i % 4) as u32;
        let w: u32 = (self.bytes[at] as u32) | ((self.bytes[at + 1] as u32) << 8u32) | ((
        self.bytes[at + 2] as u32) << 16u32);
        ((w >> (6 * r)) & 63) as u8
    }

    fn get4(&self, i: usize) -> (v: u8)
        requires
            self.aux.wf(),
            self.aux.keyed_by_address(),
            self.kind == HllType::HLL4,
            i / 2 < self.bytes@.len(),
            i < ADDRESS_SPAN,
            nibble(self.bytes@, i as int) == EXCEPTION ==> covered(self.aux.entries(), i as int),
        ensures
            v == register_of(self.kind, self.bytes@, self.aux.entries(), i as int),
    {
        let b: u8 = self.bytes[i / 2];
        proof {
            lemma_nibbles(b, 0);
        }
        let n: u8 = if i % 2 == 0 {
            b & 0x0F
        } else {
            b >> 4u8
        };
        if n != EXCEPTION {
            return n;
        }
        let found = self.aux.find(i as u32);
        proof {
            self.aux.lemma_size();
            lemma_exception_found(&self.aux, found, i as int);
        }
        match found {
            Some(e) => (e / ADDRESS_SPAN) as u8,
            None => EXCEPTION,
        }
    }

    /// The value of bucket `i` as it is packed.
    fn get_raw(&self, i: usize) -> (v: u8)
        requires
            self.raw_wf(),
            i < pow2(self.lg_k() as nat),
        ensures
            v == self.raw()[i as int],
            v <= MAX_VALUE,
    {
        proof {
            Self::lemma_bucket_count(self.lg_k);
            assert(register_of(self.kind, self.bytes@, self.aux.entries(), i as int) <= MAX_VALUE);
        }
        match self.kind {
            HllType::HLL8 => self.bytes[i],
            HllType::HLL6 => self.get6(i),
            HllType::HLL4 => {
                proof {
                    assert(nibble(self.bytes@, i as int) == EXCEPTION <==> covered(
                        self.aux.entries(),
                        i as int,
                    ));
                }
                self.get4(i)
            },
        }
    }

    /// The value of bucket `i`.
    pub fn get(&self, i: usize) -> (v: u8)
        requires
            self.wf(),
            i < pow2(self.lg_k() as nat),
        ensures
            v == self@[i as int],
            self.base() <= v <= MAX_VALUE,
    {
        proof {
            Self::lemma_bucket_count(self.lg_k);
            assert(self.raw()[i as int] + self.base <= MAX_VALUE);
        }
        self.get_raw(i) + self.base
    }

    fn raise6(&mut self, i: usize, v: u8)
        requires
            old(self).raw_wf(),
            old(self).kind == HllType::HLL6,
            i < pow2(old(self).lg_k as nat),
            v <= MAX_VALUE,
        ensures
            final(self).raw_wf(),
            final(self).kind == old(self).kind,
            final(self).lg_k == old(self).lg_k,
            final(self).base == old(self).base,
            final(self).raw() == old(self).raw().update(i as int, v),
    {
        proof {
            Self::lemma_bucket_count(self.lg_k);
            lemma_get6(self.bytes@, i as int);
            lemma_field6_put(word24(self.bytes@, 3 * (i as int / 4)), (i % 4) as u32, v as u32, 0);
        }
        let at: usize = 3 * (i / 4);
        let r: u32 = (i % 4) as u32;
        let w: u32 = (self.bytes[at] as u32) | ((self.bytes[at + 1] as u32) << 8u32) | ((
        self.bytes[at + 2] as u32) << 16u32);
        let w2: u32 = (w & !(63u32 << (6 * r))) | ((v as u32) << (6 * r));
        proof {
            lemma_word24_split(w2);
            lemma_raise6(
                pow2(self.lg_k as nat),
                self.bytes@,
                bytes_with_word(self.bytes@, at as int, w2),
                self.aux.entries(),
                i as int,
                v,
            );
        }
        self.bytes.set(at, (w2 & 0xFF) as u8);
        self.bytes.set(at + 1, ((w2 >> 8u32) & 0xFF) as u8);
        self.bytes.set(at + 2, ((w2 >> 16u32) & 0xFF) as u8);
    }

    fn raise4(&mut self, i: usize, v: u8)
        requires
            old(self).raw_wf(),
            old(self).kind == HllType::HLL4,
            i < pow2(old(self).lg_k as nat),
            old(self).raw()[i as int] < v <= MAX_VALUE,
        ensures
            final(self).raw_wf(),
            final(self).kind == old(self).kind,
            final(self).lg_k == old(self).lg_k,
            final(self).base == old(self).base,
            final(self).raw() == old(self).raw().update(i as int, v),
    {
        let ghost k = pow2(self.lg_k as nat);
        let ghost before = self.bytes@;
        let ghost pairs = self.aux.entries();
        let n: u8 = if v < EXCEPTION {
            v
        } else {
            EXCEPTION
        };
        proof {
            Self::lemma_bucket_count(self.lg_k);
            self.aux.lemma_size();
            assert forall|e: u32| self.aux.contains(e) implies key_of(e, true) < k by {
                assert(pairs.contains(e));
            }
            self.aux.lemma_bounded_keys(k);
        }
        if v >= EXCEPTION {
            let entry: u32 = (v as u32) * ADDRESS_SPAN + (i as u32);
            let _ = self.aux.put(entry);
            proof {
                self.aux.lemma_size();
                let pairs2 = self.aux.entries();
                assert forall|a: u32, b: u32|
                    pairs.contains(a) && pairs.contains(b) && a != b implies a % ADDRESS_SPAN != b
                    % ADDRESS_SPAN by {
                    assert(key_of(a, true) != key_of(b, true));
                }
                assert forall|a: u32, b: u32|
                    pairs2.contains(a) && pairs2.contains(b) && a != b implies a % ADDRESS_SPAN
                    != b % ADDRESS_SPAN by {
                    assert(key_of(a, true) != key_of(b, true));
                }
                assert forall|e: u32|
                    pairs2.contains(e) <==> (e == entry || (pairs.contains(e) && e as int
                        % ADDRESS_SPAN as int != i)) by {
                    assert(key_of(e, true) == e % ADDRESS_SPAN);
                    assert(key_of(entry, true) == i);
                }
                lemma_exception_added(pairs, pairs2, entry, i as int);
            }
        }
        let at: usize = i / 2;
        let b: u8 = self.bytes[at];
        let b2: u8 = if i % 2 == 0 {
            (b & 0xF0) | n
        } else {
            (b & 0x0F) | (n << 4u8)
        };
        proof {
            lemma_raise4(
                k,
                before,
                bytes_with_nibble(before, i as int, n),
                pairs,
                self.aux.entries(),
                i as int,
                v,
            );
        }
        self.bytes.set(at, b2);
    }

    /// Sets the packed value of bucket `i`, which is less than `v`, to
    /// `v`.
    fn raise_raw(&mut self, i: usize, v: u8)
        requires
            old(self).raw_wf(),
            i < pow2(old(self).lg_k() as nat),
            old(self).raw()[i as int] < v <= MAX_VALUE,
        ensures
            final(self).raw_wf(),
            final(self).kind() == old(self).kind(),
            final(self).lg_k() == old(self).lg_k(),
            final(self).base() == old(self).base(),
            final(self).raw() == old(self).raw().update(i as int, v),
    {
        match self.kind {
            HllType::HLL8 => {
                proof {
                    Self::lemma_bucket_count(self.lg_k);
                    lemma_raise8(
                        pow2(self.lg_k as nat),
                        self.bytes@,
                        self.aux.entries(),
                        i as int,
                        v,
                    );
                }
                self.bytes.set(i, v);
            },
            HllType::HLL6 => self.raise6(i, v),
            HllType::HLL4 => self.raise4(i, v),
        }
    }

    /// Sets bucket `i`, which holds less than `v`, to `v`.
    pub fn raise(&mut self, i: usize, v: u8)
        requires
            old(self).wf(),
            i < pow2(old(self).lg_k() as nat),
            old(self)@[i as int] < v <= MAX_VALUE,
        ensures
            final(self).wf(),
            final(self).kind() == old(self).kind(),
            final(self).lg_k() == old(self).lg_k(),
            final(self).base() == old(self).base(),
            final(self)@ == old(self)@.update(i as int, v),
    {
        proof {
            Self::lemma_bucket_count(self.lg_k);
            assert(self.raw()[i as int] + self.base <= MAX_VALUE);
        }
        self.raise_raw(i, v - self.base);
        proof {
            assert forall|j: int| 0 <= j < pow2(self.lg_k as nat) implies #[trigger] self.raw()[j]
                + self.base <= MAX_VALUE by {
                if j != i {
                    assert(old(self).raw()[j] + self.base <= MAX_VALUE);
                }
            }
            assert(self@ =~= old(self)@.update(i as int, v));
        }
    }

    /// Takes the packed values of an array of width 4 from a new base,
    /// which no bucket is below. The values of the buckets stay as they
    /// are.
    pub fn rebase(&mut self, base: u8)
        requires
            old(self).wf(),
            old(self).kind() == HllType::HLL4,
            forall|i: int| 0 <= i < old(self)@.len() ==> old(self)@[i] >= base,
        ensures
            final(self).wf(),
            final(self).kind() == old(self).kind(),
            final(self).lg_k() == old(self).lg_k(),
            final(self).base() == base,
            final(self)@ == old(self)@,
    {
        proof {
            Self::lemma_bucket_count(self.lg_k);
            self.lemma_values();
            assert(base <= self@[0] <= MAX_VALUE);
        }
        let k: usize = bucket_count(self.lg_k) as usize;
        let mut fresh: Registers = Registers::new_at(self.kind, self.lg_k, base);
        let mut i: usize = 0;
        while i < k
            invariant
                self.wf(),
                fresh.wf(),
                fresh.kind() == self.kind(),
                fresh.lg_k() == self.lg_k(),
                fresh.base() == base,
                k == pow2(self.lg_k() as nat),
                k == self@.len(),
                k == fresh@.len(),
                i <= k,
                forall|j: int| 0 <= j < k ==> self@[j] >= base,
                forall|j: int| 0 <= j < i ==> fresh@[j] == self@[j],
                forall|j: int| i <= j < k ==> fresh@[j] == base,
            decreases k - i,
        {
            let v: u8 = self.get(i);
            if v > base {
                fresh.raise(i, v);
            }
            i = i + 1;
        }
        proof {
            assert(fresh@ =~= self@);
        }
        *self = fresh;
    }
}

} // verus!
