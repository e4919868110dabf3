//! What a HyperLogLog sketch is, said without its representation.
//!
//! A sketch in one of the warm-up modes is the set of the coupons it has
//! seen. A sketch in bucket mode is the sequence of its bucket values, with
//! the accumulator of the HIP estimator and the flag that says whether that
//! accumulator can still be trusted.
//!
//! Fractions are kept exactly, as integers in a fixed unit: the sum over the
//! buckets of `2^-value` in units of `2^-39`, the HIP accumulator in units of
//! `2^-24`.
use crate::hll::HllMode;
use crate::hll::HllType;
use crate::hll::MAX_LG_CONFIG_K;
use crate::hll::MAX_VALUE;
use crate::hll::MIN_LG_CONFIG_K;
use crate::hll::coupon_limit;
use crate::hll::coupon_slot;
use crate::hll::coupon_value;
use crate::hll::mode_for;
use crate::hll::valid_coupon;
use vstd::arithmetic::power2::lemma2_to64;
use vstd::arithmetic::power2::lemma2_to64_rest;
use vstd::arithmetic::power2::lemma_pow2_pos;
use vstd::arithmetic::power2::lemma_pow2_strictly_increases;
use vstd::arithmetic::power2::lemma_pow2_unfold;
use vstd::arithmetic::power2::pow2;
use vstd::prelude::*;

verus! {

/// One, in the unit of the HIP accumulator.
pub const HIP_ONE: u128 = 0x100_0000;

/// The weight `2^-v` of a bucket value, in units of `2^-39`.
pub open spec fn weight(v: u8) -> int {
    pow2((MAX_VALUE - v) as nat) as int
}

/// The sum of the weights of the first `n` buckets.
pub open spec fn weight_sum(buckets: Seq<u8>, n: int) -> int
    decreases n,
{
    if n <= 0 {
        0
    } else {
        weight_sum(buckets, n - 1) + weight(buckets[n - 1])
    }
}

/// The number of the first `n` buckets that hold `v`.
pub open spec fn count_at(buckets: Seq<u8>, v: u8, n: int) -> int
    decreases n,
{
    if n <= 0 {
        0
    } else {
        count_at(buckets, v, n - 1) + if buckets[n - 1] == v {
            1int
        } else {
            0int
        }
    }
}

/// The smallest value among the first `n` buckets; 255 where there is
/// none.
pub open spec fn least_of(buckets: Seq<u8>, n: int) -> u8
    decreases n,
{
    if n <= 0 {
        255
    } else if buckets[n - 1] < least_of(buckets, n - 1) {
        buckets[n - 1]
    } else {
        least_of(buckets, n - 1)
    }
}

/// The sum of the weights of all buckets.
pub open spec fn kxq_of(buckets: Seq<u8>) -> int {
    weight_sum(buckets, buckets.len() as int)
}

/// What one change of a bucket adds to the HIP accumulator: the number of
/// buckets over the sum of the weights as it was before the change.
pub open spec fn hip_step(lg_k: u8, kxq: int) -> int {
    pow2((lg_k + 63) as nat) as int / kxq
}

/// The bound that the HIP accumulator keeps.
pub open spec fn hip_bound(lg_k: u8, kxq: int) -> int {
    (pow2((lg_k + 39) as nat) - kxq) * 0x8000_0000_0000_0000 + 0x2000_0000_0000
}

/// Whether some coupon of the set falls into bucket `slot` with value `v`.
pub open spec fn hit(coupons: Set<u32>, lg_k: u8, slot: int, v: int) -> bool {
    exists|c: u32| coupons.contains(c) && coupon_slot(c, lg_k) == slot && coupon_value(c) == v
}

/// The largest value up to `v` with which a coupon of the set falls into
/// bucket `slot`, or 0.
pub open spec fn top_from(coupons: Set<u32>, lg_k: u8, slot: int, v: nat) -> nat
    decreases v,
{
    if v == 0 {
        0
    } else if hit(coupons, lg_k, slot, v as int) {
        v
    } else {
        top_from(coupons, lg_k, slot, (v - 1) as nat)
    }
}

/// The buckets that a set of coupons fills: each holds the largest value
/// among the coupons that fall into it.
pub open spec fn bucket_image(coupons: Set<u32>, lg_k: u8) -> Seq<u8> {
    Seq::new(pow2(lg_k as nat), |j: int| top_from(coupons, lg_k, j, MAX_VALUE as nat) as u8)
}

/// Buckets with bucket `slot` raised to `v` if it held less.
pub open spec fn raised(buckets: Seq<u8>, slot: int, v: u8) -> Seq<u8> {
    if buckets[slot] < v {
        buckets.update(slot, v)
    } else {
        buckets
    }
}

/// The state of a sketch.
pub struct HllView {
    /// The binary logarithm of the number of buckets.
    pub lg_config_k: u8,
    /// The width in which the buckets are packed.
    pub tgt_type: HllType,
    /// The representation.
    pub mode: HllMode,
    /// Whether buckets were changed other than by the sketch's own updates,
    /// so that the HIP accumulator no longer estimates anything.
    pub ooo: bool,
    /// The coupons seen, in the warm-up modes; empty in bucket mode.
    pub coupons: Set<u32>,
    /// The bucket values, in bucket mode; empty in the warm-up modes.
    pub buckets: Seq<u8>,
    /// The HIP accumulator, in units of `2^-24`; 0 in the warm-up modes.
    pub hip: nat,
}

impl HllView {
    /// The number of buckets.
    pub open spec fn k(self) -> nat {
        pow2(self.lg_config_k as nat)
    }

    /// Whether this is a state that a sketch can be in.
    pub open spec fn valid(self) -> bool {
        &&& MIN_LG_CONFIG_K <= self.lg_config_k <= MAX_LG_CONFIG_K
        &&& match self.mode {
            HllMode::Hll => {
                &&& self.coupons == Set::<u32>::empty()
                &&& self.buckets.len() == self.k()
                &&& forall|i: int| 0 <= i < self.buckets.len() ==> self.buckets[i] <= MAX_VALUE
                &&& self.hip <= hip_bound(self.lg_config_k, kxq_of(self.buckets))
            },
            _ => {
                &&& self.buckets == Seq::<u8>::empty()
                &&& self.hip == 0
                &&& !self.ooo
                &&& self.coupons.finite()
                &&& forall|c: u32| self.coupons.contains(c) ==> valid_coupon(c)
                &&& self.mode == mode_for(self.lg_config_k, self.coupons.len() as int)
            },
        }
    }

    /// The sketch that has seen nothing and starts in list mode.
    pub open spec fn empty(lg_config_k: u8, tgt_type: HllType) -> HllView {
        HllView {
            lg_config_k,
            tgt_type,
            mode: HllMode::List,
            ooo: false,
            coupons: Set::empty(),
            buckets: Seq::empty(),
            hip: 0,
        }
    }

    /// The sketch that has seen nothing and starts with its bucket array.
    pub open spec fn full_size(lg_config_k: u8, tgt_type: HllType) -> HllView {
        HllView {
            lg_config_k,
            tgt_type,
            mode: HllMode::Hll,
            ooo: false,
            coupons: Set::empty(),
            buckets: Seq::new(pow2(lg_config_k as nat), |i: int| 0u8),
            hip: 0,
        }
    }

    /// Whether the sketch has seen nothing.
    pub open spec fn is_empty(self) -> bool {
        match self.mode {
            HllMode::Hll => forall|i: int| 0 <= i < self.buckets.len() ==> self.buckets[i] == 0,
            _ => self.coupons.len() == 0,
        }
    }

    /// The bucket-mode sketch whose buckets are filled from a set of coupons.
    /// Its accumulator starts at their number, which is what the sketch
    /// estimated until then.
    pub open spec fn promoted(self, coupons: Set<u32>) -> HllView {
        HllView {
            mode: HllMode::Hll,
            coupons: Set::empty(),
            buckets: bucket_image(coupons, self.lg_config_k),
            hip: coupons.len() * (HIP_ONE as nat),
            ..self
        }
    }

    /// The sketch after it is shown a coupon in bucket mode. If the coupon
    /// raises its bucket, the accumulator grows by the step that belongs to
    /// the buckets as they were before.
    pub open spec fn lifted(self, coupon: u32) -> HllView {
        let slot = coupon_slot(coupon, self.lg_config_k);
        let v = coupon_value(coupon) as u8;
        if self.buckets[slot] < v {
            HllView {
                buckets: self.buckets.update(slot, v),
                hip: (self.hip + hip_step(self.lg_config_k, kxq_of(self.buckets))) as nat,
                ..self
            }
        } else {
            self
        }
    }

    /// The sketch after it is shown a coupon.
    pub open spec fn absorb(self, coupon: u32) -> HllView {
        match self.mode {
            HllMode::Hll => self.lifted(coupon),
            _ => if self.coupons.contains(coupon) {
                self
            } else if self.coupons.len() + 1 > coupon_limit(self.lg_config_k) {
                self.promoted(self.coupons.insert(coupon))
            } else {
                HllView {
                    mode: mode_for(self.lg_config_k, self.coupons.len() as int + 1),
                    coupons: self.coupons.insert(coupon),
                    ..self
                }
            },
        }
    }
}

/// The weight of a value is a power of two between 1 and `2^39`, and a
/// larger value weighs at most half as much.
pub proof fn lemma_weight(v: u8)
    requires
        v <= MAX_VALUE,
    ensures
        1 <= weight(v) <= 0x80_0000_0000,
        weight(0) == 0x80_0000_0000,
        forall|u: u8| v < u <= MAX_VALUE ==> 2 * #[trigger] weight(u) <= weight(v),
{
    lemma2_to64();
    lemma2_to64_rest();
    lemma_pow2_pos((MAX_VALUE - v) as nat);
    if v > 0 {
        lemma_pow2_strictly_increases((MAX_VALUE - v) as nat, 39);
    }
    assert forall|u: u8| v < u <= MAX_VALUE implies 2 * #[trigger] weight(u) <= weight(v) by {
        lemma_pow2_unfold((MAX_VALUE - u + 1) as nat);
        if v + 1 < u {
            lemma_pow2_strictly_increases((MAX_VALUE - u + 1) as nat, (MAX_VALUE - v) as nat);
        }
    }
}

/// The sum of the weights lies between the number of buckets and `2^39`
/// times that number.
pub proof fn lemma_weight_sum_bounds(buckets: Seq<u8>, n: int)
    requires
        0 <= n <= buckets.len(),
        forall|i: int| 0 <= i < buckets.len() ==> buckets[i] <= MAX_VALUE,
    ensures
        n <= weight_sum(buckets, n) <= n * 0x80_0000_0000,
    decreases n,
{
    if n > 0 {
        lemma_weight_sum_bounds(buckets, n - 1);
        lemma_weight(buckets[n - 1]);
    }
}

/// What the change of one bucket does to the sum of the weights.
pub proof fn lemma_weight_sum_update(buckets: Seq<u8>, i: int, v: u8, n: int)
    requires
        0 <= i < buckets.len(),
        0 <= n <= buckets.len(),
    ensures
        weight_sum(buckets.update(i, v), n) == weight_sum(buckets, n) + if i < n {
            weight(v) - weight(buckets[i])
        } else {
            0
        },
    decreases n,
{
    if n > 0 {
        lemma_weight_sum_update(buckets, i, v, n - 1);
    }
}

/// What the change of one bucket does to the number of buckets with a value.
pub proof fn lemma_count_update(buckets: Seq<u8>, i: int, v: u8, at: u8, n: int)
    requires
        0 <= i < buckets.len(),
        0 <= n <= buckets.len(),
    ensures
        count_at(buckets.update(i, v), at, n) == count_at(buckets, at, n) + if i < n {
            (if v == at {
                1int
            } else {
                0int
            }) - (if buckets[i] == at {
                1int
            } else {
                0int
            })
        } else {
            0
        },
        0 <= count_at(buckets, at, n) <= n,
    decreases n,
{
    if n > 0 {
        lemma_count_update(buckets, i, v, at, n - 1);
    }
}

/// The smallest value is a value that some bucket holds and none is
/// below.
pub proof fn lemma_least(buckets: Seq<u8>, n: int, least: u8)
    requires
        0 <= n <= buckets.len(),
        forall|i: int| 0 <= i < n ==> buckets[i] >= least,
        count_at(buckets, least, n) > 0,
    ensures
        least_of(buckets, n) == least,
    decreases n,
{
    if n > 0 {
        if count_at(buckets, least, n - 1) > 0 {
            lemma_least(buckets, n - 1, least);
        } else {
            lemma_least_above(buckets, n - 1, least);
        }
    }
}

/// The smallest value is no less than a value that no bucket is below.
pub proof fn lemma_least_above(buckets: Seq<u8>, n: int, least: u8)
    requires
        0 <= n <= buckets.len(),
        forall|i: int| 0 <= i < n ==> buckets[i] >= least,
    ensures
        least_of(buckets, n) >= least,
    decreases n,
{
    if n > 0 {
        lemma_least_above(buckets, n - 1, least);
    }
}

/// Buckets that all hold 0 weigh `2^39` each.
pub proof fn lemma_zero_buckets(buckets: Seq<u8>, n: int)
    requires
        0 <= n <= buckets.len(),
        forall|i: int| 0 <= i < buckets.len() ==> buckets[i] == 0,
    ensures
        weight_sum(buckets, n) == n * 0x80_0000_0000,
        count_at(buckets, 0, n) == n,
    decreases n,
{
    if n > 0 {
        lemma_zero_buckets(buckets, n - 1);
        lemma_weight(0);
    }
}

/// The largest value of a bucket is 0 or the value of a coupon that falls
/// into the bucket, and no coupon that falls into it has a larger one.
pub proof fn lemma_top(coupons: Set<u32>, lg_k: u8, slot: int, v: nat)
    ensures
        top_from(coupons, lg_k, slot, v) <= v,
        top_from(coupons, lg_k, slot, v) == 0 || hit(
            coupons,
            lg_k,
            slot,
            top_from(coupons, lg_k, slot, v) as int,
        ),
        forall|c: u32|
            coupons.contains(c) && coupon_slot(c, lg_k) == slot && 1 <= coupon_value(c) <= v
                ==> coupon_value(c) <= top_from(coupons, lg_k, slot, v),
    decreases v,
{
    if v > 0 {
        lemma_top(coupons, lg_k, slot, (v - 1) as nat);
    }
}

/// One more coupon raises its own bucket to its value, if that is larger,
/// and leaves the other buckets as they are.
pub proof fn lemma_top_insert(coupons: Set<u32>, lg_k: u8, slot: int, v: nat, c: u32)
    requires
        valid_coupon(c),
    ensures
        top_from(coupons.insert(c), lg_k, slot, v) == if coupon_slot(c, lg_k) == slot
            && coupon_value(c) <= v && coupon_value(c) > top_from(coupons, lg_k, slot, v) {
            coupon_value(c) as nat
        } else {
            top_from(coupons, lg_k, slot, v)
        },
    decreases v,
{
    if v > 0 {
        lemma_top_insert(coupons, lg_k, slot, (v - 1) as nat, c);
        lemma_top(coupons, lg_k, slot, (v - 1) as nat);
        let more = coupons.insert(c);
        if hit(coupons, lg_k, slot, v as int) {
            let w = choose|w: u32|
                coupons.contains(w) && coupon_slot(w, lg_k) == slot && coupon_value(w) == v;
            assert(more.contains(w));
            assert(hit(more, lg_k, slot, v as int));
        } else if coupon_slot(c, lg_k) == slot && coupon_value(c) == v {
            assert(more.contains(c));
            assert(hit(more, lg_k, slot, v as int));
        } else {
            if hit(more, lg_k, slot, v as int) {
                let w = choose|w: u32|
                    more.contains(w) && coupon_slot(w, lg_k) == slot && coupon_value(w) == v;
                assert(coupons.contains(w));
            }
        }
    }
}

/// The buckets of a set with one more coupon are the buckets of the set
/// with that coupon's bucket raised to its value.
pub proof fn lemma_image_insert(coupons: Set<u32>, lg_k: u8, c: u32)
    requires
        valid_coupon(c),
    ensures
        bucket_image(coupons.insert(c), lg_k) == raised(
            bucket_image(coupons, lg_k),
            coupon_slot(c, lg_k),
            coupon_value(c) as u8,
        ),
{
    lemma_pow2_pos(lg_k as nat);
    let slot = coupon_slot(c, lg_k);
    let a = bucket_image(coupons.insert(c), lg_k);
    let b = raised(bucket_image(coupons, lg_k), slot, coupon_value(c) as u8);
    assert forall|j: int| 0 <= j < a.len() implies a[j] == b[j] by {
        lemma_top_insert(coupons, lg_k, j, MAX_VALUE as nat, c);
        lemma_top(coupons, lg_k, j, MAX_VALUE as nat);
    }
    assert(a =~= b);
}

/// No coupons fill no bucket.
pub proof fn lemma_image_empty(lg_k: u8)
    ensures
        bucket_image(Set::<u32>::empty(), lg_k) == Seq::new(pow2(lg_k as nat), |i: int| 0u8),
{
    let a = bucket_image(Set::<u32>::empty(), lg_k);
    assert forall|j: int| 0 <= j < a.len() implies a[j] == 0u8 by {
        lemma_top(Set::<u32>::empty(), lg_k, j, MAX_VALUE as nat);
    }
    assert(a =~= Seq::new(pow2(lg_k as nat), |i: int| 0u8));
}

/// Buckets that all hold 0.
pub open spec fn zeros(k: nat) -> Seq<u8> {
    Seq::new(k, |i: int| 0u8)
}

/// The larger of two bucket values.
pub open spec fn larger(a: u8, b: u8) -> u8 {
    if a < b {
        b
    } else {
        a
    }
}

/// Two bucket arrays of one length merged: each bucket holds the larger of
/// the two values.
pub open spec fn joined(a: Seq<u8>, b: Seq<u8>) -> Seq<u8> {
    Seq::new(a.len(), |i: int| larger(a[i], b[i]))
}

/// The first `n` of the given buckets folded into `2^lg_k` buckets: bucket
/// `i` is shown to bucket `i mod 2^lg_k`.
pub open spec fn folded_upto(buckets: Seq<u8>, lg_k: u8, n: nat) -> Seq<u8>
    decreases n,
{
    if n == 0 {
        zeros(pow2(lg_k as nat))
    } else {
        raised(
            folded_upto(buckets, lg_k, (n - 1) as nat),
            (n - 1) % (pow2(lg_k as nat) as int),
            buckets[n - 1],
        )
    }
}

/// The given buckets folded into `2^lg_k` buckets: each bucket holds the
/// largest value of those that fall onto it.
pub open spec fn folded(buckets: Seq<u8>, lg_k: u8) -> Seq<u8> {
    folded_upto(buckets, lg_k, buckets.len())
}

impl HllView {
    /// Whether the sketch is in one of the warm-up modes.
    pub open spec fn holds_coupons(self) -> bool {
        self.mode != HllMode::Hll
    }

    /// What the sketch has seen, as `2^lg_k` buckets.
    pub open spec fn buckets_at(self, lg_k: u8) -> Seq<u8> {
        if self.holds_coupons() {
            bucket_image(self.coupons, lg_k)
        } else {
            folded(self.buckets, lg_k)
        }
    }

    /// The state of a union that holds this and is shown `src`, where both
    /// have seen something. The result has the fewer buckets of the two. It
    /// keeps coupons if both did and their coupons together are few enough;
    /// else it is the bucket-wise maximum of the two, and out of order.
    pub open spec fn combined(self, src: HllView) -> HllView {
        let lg_k = if src.lg_config_k < self.lg_config_k {
            src.lg_config_k
        } else {
            self.lg_config_k
        };
        let all = self.coupons.union(src.coupons);
        if self.holds_coupons() && src.holds_coupons() && all.len() <= coupon_limit(lg_k) {
            HllView {
                lg_config_k: lg_k,
                tgt_type: self.tgt_type,
                mode: mode_for(lg_k, all.len() as int),
                ooo: false,
                coupons: all,
                buckets: Seq::empty(),
                hip: 0,
            }
        } else {
            HllView {
                lg_config_k: lg_k,
                tgt_type: self.tgt_type,
                mode: HllMode::Hll,
                ooo: true,
                coupons: Set::empty(),
                buckets: joined(self.buckets_at(lg_k), src.buckets_at(lg_k)),
                hip: 0,
            }
        }
    }

    /// The state of a union that has seen nothing and is shown `src`, which
    /// has seen something. A bucket array that need not be folded is taken
    /// as it is, with its accumulator.
    pub open spec fn adopted(self, src: HllView) -> HllView {
        if !src.holds_coupons() && src.lg_config_k <= self.lg_config_k {
            HllView { tgt_type: self.tgt_type, ..src }
        } else {
            self.combined(src)
        }
    }

    /// The state of a union that holds this and is shown `src`.
    pub open spec fn merged(self, src: HllView) -> HllView {
        if src.is_empty() {
            self
        } else if self.is_empty() {
            self.adopted(src)
        } else {
            self.combined(src)
        }
    }
}

/// Raising a bucket of one of two merged arrays raises the bucket of the
/// merged array.
pub proof fn lemma_joined_raised(a: Seq<u8>, b: Seq<u8>, slot: int, v: u8)
    requires
        a.len() == b.len(),
        0 <= slot < a.len(),
    ensures
        joined(a, raised(b, slot, v)) == raised(joined(a, b), slot, v),
        joined(raised(a, slot, v), b) == raised(joined(a, b), slot, v),
        raised(a, slot, v).len() == a.len(),
{
    assert(joined(a, raised(b, slot, v)) =~= raised(joined(a, b), slot, v));
    assert(joined(raised(a, slot, v), b) =~= raised(joined(a, b), slot, v));
}

/// Merging with buckets that all hold 0 changes nothing, and merging is
/// the same in both directions.
pub proof fn lemma_joined(a: Seq<u8>, b: Seq<u8>)
    requires
        a.len() == b.len(),
    ensures
        joined(a, zeros(a.len())) == a,
        joined(zeros(a.len()), a) == a,
        joined(a, b) == joined(b, a),
        joined(a, b).len() == a.len(),
{
    assert(joined(a, zeros(a.len())) =~= a);
    assert(joined(zeros(a.len()), a) =~= a);
    assert(joined(a, b) =~= joined(b, a));
}

/// Folded buckets are `2^lg_k` buckets that hold values.
pub proof fn lemma_folded_upto(buckets: Seq<u8>, lg_k: u8, n: nat)
    requires
        n <= buckets.len(),
        forall|i: int| 0 <= i < buckets.len() ==> buckets[i] <= MAX_VALUE,
    ensures
        folded_upto(buckets, lg_k, n).len() == pow2(lg_k as nat),
        forall|j: int|
            0 <= j < pow2(lg_k as nat) ==> #[trigger] folded_upto(buckets, lg_k, n)[j]
                <= MAX_VALUE,
    decreases n,
{
    lemma_pow2_pos(lg_k as nat);
    if n > 0 {
        lemma_folded_upto(buckets, lg_k, (n - 1) as nat);
    }
}

/// The buckets that coupons fill are `2^lg_k` buckets that hold values.
pub proof fn lemma_image_values(coupons: Set<u32>, lg_k: u8)
    ensures
        bucket_image(coupons, lg_k).len() == pow2(lg_k as nat),
        forall|j: int|
            0 <= j < pow2(lg_k as nat) ==> #[trigger] bucket_image(coupons, lg_k)[j]
                <= MAX_VALUE,
{
    assert forall|j: int| 0 <= j < pow2(lg_k as nat) implies #[trigger] bucket_image(
        coupons,
        lg_k,
    )[j] <= MAX_VALUE by {
        lemma_top(coupons, lg_k, j, MAX_VALUE as nat);
    }
}

/// Whether a sketch that started with nothing holds exactly the coupons
/// of a set: as its coupons, or, if they were too many, as the buckets they
/// fill.
pub open spec fn holds_all(v: HllView, all: Set<u32>) -> bool {
    &&& all.finite()
    &&& forall|c: u32| all.contains(c) ==> valid_coupon(c)
    &&& if v.holds_coupons() {
        v.coupons == all
    } else {
        all.len() > coupon_limit(v.lg_config_k) && v.buckets == bucket_image(
            all,
            v.lg_config_k,
        )
    }
}

/// A sketch that holds exactly the coupons of a set and is shown one more
/// holds exactly the coupons of the set with that one.
pub proof fn lemma_absorb_holds(v: HllView, all: Set<u32>, c: u32)
    requires
        holds_all(v, all),
        valid_coupon(c),
    ensures
        holds_all(v.absorb(c), all.insert(c)),
        v.absorb(c).lg_config_k == v.lg_config_k,
        v.absorb(c).tgt_type == v.tgt_type,
{
    broadcast use vstd::set::group_set_axioms;

    lemma_image_insert(all, v.lg_config_k, c);
    lemma_image_values(all, v.lg_config_k);
    lemma_pow2_pos(v.lg_config_k as nat);
    let more = all.insert(c);
    let after = v.absorb(c);
    assert(more.finite());
    assert forall|e: u32| more.contains(e) implies valid_coupon(e) by {
        if e != c {
            assert(all.contains(e));
        }
    }
    if v.holds_coupons() {
        if all.contains(c) {
            assert(more =~= all);
        } else {
            assert(more.len() == all.len() + 1);
        }
    } else {
        assert(after.buckets == raised(
            v.buckets,
            coupon_slot(c, v.lg_config_k),
            coupon_value(c) as u8,
        ));
        assert(more.len() >= all.len());
    }
}

/// The buckets that two sets of coupons fill together are the two arrays
/// that each fills, merged.
pub proof fn lemma_image_union(a: Set<u32>, b: Set<u32>, lg_k: u8)
    requires
        forall|c: u32| a.contains(c) ==> valid_coupon(c),
        forall|c: u32| b.contains(c) ==> valid_coupon(c),
    ensures
        bucket_image(a.union(b), lg_k) == joined(bucket_image(a, lg_k), bucket_image(b, lg_k)),
{
    let both = a.union(b);
    let x = bucket_image(both, lg_k);
    let y = joined(bucket_image(a, lg_k), bucket_image(b, lg_k));
    assert forall|j: int| 0 <= j < x.len() implies x[j] == y[j] by {
        let top = MAX_VALUE as nat;
        lemma_top(both, lg_k, j, top);
        lemma_top(a, lg_k, j, top);
        lemma_top(b, lg_k, j, top);
        let t = top_from(both, lg_k, j, top);
        let ta = top_from(a, lg_k, j, top);
        let tb = top_from(b, lg_k, j, top);
        if t != 0 {
            let c = choose|c: u32|
                both.contains(c) && coupon_slot(c, lg_k) == j && coupon_value(c) == t;
            if a.contains(c) {
                assert(coupon_value(c) <= ta);
            } else {
                assert(coupon_value(c) <= tb);
            }
        }
        if ta != 0 {
            let c = choose|c: u32|
                a.contains(c) && coupon_slot(c, lg_k) == j && coupon_value(c) == ta;
            assert(both.contains(c));
        }
        if tb != 0 {
            let c = choose|c: u32|
                b.contains(c) && coupon_slot(c, lg_k) == j && coupon_value(c) == tb;
            assert(both.contains(c));
        }
    }
    assert(x =~= y);
}

} // verus!
