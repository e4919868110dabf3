//! What holds of every HyperLogLog sketch and every union.
use crate::error::SketchError;
use crate::hll::HllMode;
use crate::hll::HllType;
use crate::hll::LIST_CAPACITY;
use crate::hll::MAX_LG_CONFIG_K;
use crate::hll::MAX_VALUE;
use crate::hll::MIN_LG_CONFIG_K;
use crate::hll::coupon_limit;
use crate::hll::coupon_slot;
use crate::hll::coupon_value;
use crate::hll::dump::dump_of;
use crate::hll::estimate::HllEstimate;
use crate::hll::image::decode;
use crate::hll::mode_for;
use crate::hll::model::HIP_ONE;
use crate::hll::model::HllView;
use crate::hll::model::bucket_image;
use crate::hll::model::count_at;
use crate::hll::model::folded;
use crate::hll::model::folded_upto;
use crate::hll::model::hip_step;
use crate::hll::model::joined;
use crate::hll::model::kxq_of;
use crate::hll::model::lemma_count_update;
use crate::hll::model::lemma_folded_upto;
use crate::hll::model::lemma_image_values;
use crate::hll::model::lemma_joined;
use crate::hll::model::lemma_top;
use crate::hll::model::lemma_weight;
use crate::hll::model::lemma_weight_sum_bounds;
use crate::hll::model::lemma_weight_sum_update;
use crate::hll::model::top_from;
use crate::hll::registers::Registers;
use crate::hll::sketch::HllSketch;
use crate::hll::valid_coupon;
use vstd::arithmetic::div_mod::lemma_mod_mod;
use vstd::arithmetic::div_mod::lemma_multiply_divide_le;
use vstd::arithmetic::power2::lemma2_to64_rest;
use vstd::arithmetic::power2::lemma_pow2_adds;
use vstd::arithmetic::power2::lemma_pow2_pos;
use vstd::arithmetic::power2::lemma_pow2_strictly_increases;
use vstd::arithmetic::power2::pow2;
use vstd::prelude::*;
use vstd::set_lib::lemma_len_subset;

verus! {

/// The estimate of a sketch that is not out of order, in units of `2^-24`.
pub open spec fn estimate_units(v: HllView) -> nat {
    if v.holds_coupons() {
        v.coupons.len() * (HIP_ONE as nat)
    } else {
        v.hip
    }
}

/// The place of a mode in the life of a sketch.
pub open spec fn mode_rank(mode: HllMode) -> int {
    match mode {
        HllMode::List => 0,
        HllMode::CouponSet => 1,
        HllMode::Hll => 2,
    }
}

/// An image is read back as the sketch that was written, whichever of the
/// two forms it has: if `image` decodes to the state `written`, as the
/// images that a sketch in that state writes do, and `read` is what reading
/// the image gives, then `read` is a sketch in the state `written`, with
/// the same estimates and the same dump.
pub proof fn lemma_round_trip(written: HllView, image: Seq<u8>, read: Result<HllView, SketchError>)
    requires
        decode(image) == Some(written),
        match read {
            Ok(v) => decode(image) == Some(v),
            Err(e) => e == SketchError::CorruptData && decode(image) is None,
        },
    ensures
        read == Ok::<HllView, SketchError>(written),
        read->Ok_0.estimate() == written.estimate(),
        read->Ok_0.composite_estimate() == written.composite_estimate(),
        forall|summary: bool, detail: bool, aux_detail: bool, all: bool|
            #[trigger] dump_of(read->Ok_0, summary, detail, aux_detail, all) == dump_of(
                written,
                summary,
                detail,
                aux_detail,
                all,
            ),
{
}

/// The limit on the number of coupons does not grow when the number of
/// buckets shrinks.
pub proof fn lemma_limit_grows(small: u8, large: u8)
    requires
        MIN_LG_CONFIG_K <= small <= large <= MAX_LG_CONFIG_K,
    ensures
        7 <= coupon_limit(small) <= coupon_limit(large),
{
    HllSketch::lemma_limit(small);
    HllSketch::lemma_limit(large);
    if 8 <= small && small < large {
        lemma_pow2_strictly_increases((small - 5) as nat, (large - 5) as nat);
    }
}

/// A sketch that is shown a coupon stays in a valid state.
pub proof fn lemma_absorb_valid(v: HllView, coupon: u32)
    requires
        v.valid(),
        valid_coupon(coupon),
    ensures
        v.absorb(coupon).valid(),
{
    broadcast use vstd::set::group_set_axioms;

    let lg_k = v.lg_config_k;
    let after = v.absorb(coupon);
    HllSketch::lemma_limit(lg_k);
    Registers::lemma_bucket_count(lg_k);
    lemma2_to64_rest();
    lemma_pow2_adds(lg_k as nat, 39);
    lemma_pow2_adds(lg_k as nat, 63);
    if v.holds_coupons() {
        if !v.coupons.contains(coupon) {
            let all = v.coupons.insert(coupon);
            if v.coupons.len() + 1 > coupon_limit(lg_k) {
                lemma_image_values(all, lg_k);
                lemma_weight_sum_bounds(after.buckets, after.buckets.len() as int);
                assert(all.len() * 0x100_0000 <= 0x2000_0000_0000) by (nonlinear_arith)
                    requires
                        all.len() <= 0x30001,
                ;
            }
        }
    } else {
        let slot = coupon_slot(coupon, lg_k);
        let value = coupon_value(coupon) as u8;
        lemma_pow2_pos(lg_k as nat);
        if v.buckets[slot] < value {
            let n = v.buckets.len() as int;
            let kxq = kxq_of(v.buckets);
            lemma_weight(v.buckets[slot]);
            lemma_weight(value);
            lemma_weight_sum_update(v.buckets, slot, value, n);
            lemma_weight_sum_bounds(v.buckets, n);
            lemma_multiply_divide_le(
                pow2((lg_k + 63) as nat) as int,
                kxq,
                0x8000_0000_0000_0000,
            );
        }
    }
}

/// A sketch never goes back and never loses what it has seen. When it is
/// shown a coupon,
/// - its mode stays or moves on from list to hash set to bucket array;
/// - it keeps the coupons it holds, if it still holds coupons;
/// - no bucket goes down, the sum of the bucket weights does not go up and
///   the number of buckets at 0 does not go up, if it was in bucket mode;
/// - the estimate of a sketch that is not out of order does not go down.
pub proof fn lemma_absorb_grows(v: HllView, coupon: u32)
    requires
        v.valid(),
        valid_coupon(coupon),
    ensures
        mode_rank(v.mode) <= mode_rank(v.absorb(coupon).mode),
        v.absorb(coupon).ooo == v.ooo,
        v.absorb(coupon).holds_coupons() ==> v.coupons.subset_of(v.absorb(coupon).coupons),
        !v.holds_coupons() ==> {
            &&& v.absorb(coupon).buckets.len() == v.buckets.len()
            &&& forall|i: int|
                0 <= i < v.buckets.len() ==> v.buckets[i] <= #[trigger] v.absorb(coupon).buckets[i]
            &&& kxq_of(v.absorb(coupon).buckets) <= kxq_of(v.buckets)
            &&& count_at(v.absorb(coupon).buckets, 0, v.buckets.len() as int) <= count_at(
                v.buckets,
                0,
                v.buckets.len() as int,
            )
        },
        estimate_units(v) <= estimate_units(v.absorb(coupon)),
{
    broadcast use vstd::set::group_set_axioms;

    let lg_k = v.lg_config_k;
    HllSketch::lemma_limit(lg_k);
    lemma_pow2_pos(lg_k as nat);
    if v.holds_coupons() {
        if !v.coupons.contains(coupon) {
            assert(v.coupons.len() * (HIP_ONE as nat) <= (v.coupons.len() + 1) * (HIP_ONE as nat))
                by (nonlinear_arith);
        }
    } else {
        let slot = coupon_slot(coupon, lg_k);
        let value = coupon_value(coupon) as u8;
        if v.buckets[slot] < value {
            let n = v.buckets.len() as int;
            lemma_weight(v.buckets[slot]);
            lemma_weight_sum_update(v.buckets, slot, value, n);
            lemma_count_update(v.buckets, slot, value, 0, n);
            Registers::lemma_bucket_count(lg_k);
            lemma_weight_sum_bounds(v.buckets, n);
            assert(hip_step(lg_k, kxq_of(v.buckets)) >= 0) by (nonlinear_arith)
                requires
                    hip_step(lg_k, kxq_of(v.buckets)) == pow2((lg_k + 63) as nat) as int / kxq_of(
                        v.buckets,
                    ),
                    kxq_of(v.buckets) > 0,
                    pow2((lg_k + 63) as nat) >= 0,
            ;
        }
    }
}

/// A sketch changes its mode at fixed numbers of coupons, and loses nothing
/// when it does. When a sketch that holds coupons is shown one that it does
/// not hold yet,
/// - it is a list again if it then holds fewer than 8, and a hash set if
///   it holds 8 or more but no more than the limit, with the new coupon
///   beside the old ones;
/// - it leaves the warm-up modes if it held as many as the limit allows:
///   then every coupon stands in its bucket with its value or a larger one,
///   and the estimate is the number of coupons, one more than before.
pub proof fn lemma_transition(v: HllView, coupon: u32)
    requires
        v.valid(),
        v.holds_coupons(),
        valid_coupon(coupon),
        !v.coupons.contains(coupon),
    ensures
        v.coupons.len() < coupon_limit(v.lg_config_k) ==> {
            &&& v.absorb(coupon).coupons == v.coupons.insert(coupon)
            &&& v.absorb(coupon).mode == if v.coupons.len() + 1 < LIST_CAPACITY {
                HllMode::List
            } else {
                HllMode::CouponSet
            }
            &&& v.absorb(coupon).estimate() == HllEstimate::Exact {
                count: (v.coupons.len() + 1) as u64,
            }
        },
        v.coupons.len() == coupon_limit(v.lg_config_k) ==> {
            &&& v.absorb(coupon).mode == HllMode::Hll
            &&& v.absorb(coupon).buckets == bucket_image(
                v.coupons.insert(coupon),
                v.lg_config_k,
            )
            &&& forall|c: u32|
                v.coupons.insert(coupon).contains(c) ==> coupon_value(c) <= (v.absorb(
                    coupon,
                ).buckets[coupon_slot(c, v.lg_config_k)])
            &&& v.absorb(coupon).estimate() == HllEstimate::Hip {
                accum: ((v.coupons.len() + 1) * HIP_ONE) as u128,
            }
            &&& v.absorb(coupon).estimate().floor_of() == Some(v.coupons.len() as int + 1)
        },
        v.coupons.len() <= coupon_limit(v.lg_config_k),
{
    broadcast use vstd::set::group_set_axioms;

    let lg_k = v.lg_config_k;
    let all = v.coupons.insert(coupon);
    HllSketch::lemma_limit(lg_k);
    lemma_pow2_pos(lg_k as nat);
    if v.coupons.len() == coupon_limit(lg_k) {
        assert forall|c: u32| all.contains(c) implies coupon_value(c) <= (v.absorb(
            coupon,
        ).buckets[coupon_slot(c, lg_k)]) by {
            let slot = coupon_slot(c, lg_k);
            lemma_top(all, lg_k, slot, MAX_VALUE as nat);
            assert(valid_coupon(c)) by {
                if c != coupon {
                    assert(v.coupons.contains(c));
                }
            }
            assert(0 <= slot < pow2(lg_k as nat));
            assert(bucket_image(all, lg_k)[slot] == top_from(all, lg_k, slot, MAX_VALUE as nat));
            assert(coupon_value(c) <= top_from(all, lg_k, slot, MAX_VALUE as nat));
        }
        assert((all.len() * 0x100_0000) / 0x100_0000 == all.len()) by (nonlinear_arith);
        assert(all.len() * 0x100_0000 <= 0x30001 * 0x100_0000) by (nonlinear_arith)
            requires
                all.len() <= 0x30001,
        ;
    }
}

/// Whether `t` is the largest of the values that fall onto bucket `j` when
/// the first `n` of the given buckets are folded into `k` buckets, or 0
/// where none falls onto it.
pub open spec fn tops_fold(buckets: Seq<u8>, k: int, n: nat, j: int, t: u8) -> bool {
    &&& forall|i: int| 0 <= i < n && i % k == j ==> #[trigger] buckets[i] <= t
    &&& (t == 0 || exists|i: int| 0 <= i < n && i % k == j && #[trigger] buckets[i] == t)
}

/// Whether `t` is the largest value among the coupons of a set that fall
/// into bucket `j` of `2^lg_k`, or 0 where none does.
pub open spec fn tops_image(coupons: Set<u32>, lg_k: u8, j: int, t: u8) -> bool {
    &&& forall|c: u32|
        coupons.contains(c) && coupon_slot(c, lg_k) == j ==> coupon_value(c) <= t
    &&& (t == 0 || exists|c: u32|
        coupons.contains(c) && coupon_slot(c, lg_k) == j && coupon_value(c) == t)
}

/// A bucket of a folded array holds the largest of the values that fall
/// onto it.
pub proof fn lemma_folded_tops(buckets: Seq<u8>, lg_k: u8, n: nat, j: int)
    requires
        n <= buckets.len(),
        0 <= j < pow2(lg_k as nat),
    ensures
        folded_upto(buckets, lg_k, n).len() == pow2(lg_k as nat),
        tops_fold(buckets, pow2(lg_k as nat) as int, n, j, folded_upto(buckets, lg_k, n)[j]),
    decreases n,
{
    let k = pow2(lg_k as nat) as int;
    if n > 0 {
        lemma_folded_tops(buckets, lg_k, (n - 1) as nat, j);
        let prev = folded_upto(buckets, lg_k, (n - 1) as nat);
        let now = folded_upto(buckets, lg_k, n);
        let t = now[j];
        let at = (n - 1) % k;
        if prev[j] != 0 {
            let i = choose|i: int| 0 <= i < n - 1 && i % k == j && #[trigger] buckets[i] == prev[j];
            assert(buckets[i] == prev[j]);
        }
        if at == j {
            assert(buckets[n - 1] <= t);
        }
        assert forall|i: int| 0 <= i < n && i % k == j implies #[trigger] buckets[i] <= t by {
            if i < n - 1 {
                assert(buckets[i] <= prev[j]);
            }
        }
        if t != 0 {
            if at == j && prev[j] < buckets[n - 1] {
                assert(buckets[n - 1] == t);
            } else {
                let i = choose|i: int|
                    0 <= i < n - 1 && i % k == j && #[trigger] buckets[i] == prev[j];
                assert(buckets[i] == t);
            }
        }
    }
}

/// A bucket that coupons fill holds the largest value among the coupons
/// that fall into it.
pub proof fn lemma_image_tops(coupons: Set<u32>, lg_k: u8, j: int)
    requires
        forall|c: u32| coupons.contains(c) ==> valid_coupon(c),
        0 <= j < pow2(lg_k as nat),
    ensures
        tops_image(coupons, lg_k, j, bucket_image(coupons, lg_k)[j]),
{
    lemma_top(coupons, lg_k, j, MAX_VALUE as nat);
    let t = top_from(coupons, lg_k, j, MAX_VALUE as nat);
    assert forall|c: u32| coupons.contains(c) && coupon_slot(c, lg_k) == j implies coupon_value(c)
        <= t by {
        assert(valid_coupon(c));
    }
}

/// Folding into fewer buckets in two steps is folding in one.
pub proof fn lemma_fold_fold(buckets: Seq<u8>, lg_mid: u8, lg_k: u8)
    requires
        lg_k <= lg_mid,
    ensures
        folded(folded(buckets, lg_mid), lg_k) == folded(buckets, lg_k),
{
    let k = pow2(lg_k as nat) as int;
    let mid = pow2(lg_mid as nat) as int;
    let times = pow2((lg_mid - lg_k) as nat) as int;
    lemma_pow2_pos(lg_k as nat);
    lemma_pow2_pos(lg_mid as nat);
    lemma_pow2_pos((lg_mid - lg_k) as nat);
    lemma_pow2_adds(lg_k as nat, (lg_mid - lg_k) as nat);
    assert(mid == k * times);
    let g = folded(buckets, lg_mid);
    let x = folded(g, lg_k);
    let y = folded(buckets, lg_k);
    lemma_folded_tops(buckets, lg_mid, buckets.len(), 0);
    lemma_folded_tops(g, lg_k, g.len(), 0);
    lemma_folded_tops(buckets, lg_k, buckets.len(), 0);
    assert forall|j: int| 0 <= j < k implies x[j] == y[j] by {
        lemma_folded_tops(g, lg_k, g.len(), j);
        lemma_folded_tops(buckets, lg_k, buckets.len(), j);
        if x[j] != 0 {
            let m = choose|m: int| 0 <= m < g.len() && m % k == j && #[trigger] g[m] == x[j];
            lemma_folded_tops(buckets, lg_mid, buckets.len(), m);
            let i = choose|i: int|
                0 <= i < buckets.len() && i % mid == m && #[trigger] buckets[i] == g[m];
            lemma_mod_mod(i, k, times);
            assert(buckets[i] <= y[j]);
        }
        if y[j] != 0 {
            let i = choose|i: int|
                0 <= i < buckets.len() && i % k == j && #[trigger] buckets[i] == y[j];
            let m = i % mid;
            lemma_mod_mod(i, k, times);
            lemma_folded_tops(buckets, lg_mid, buckets.len(), m);
            assert(buckets[i] <= g[m]);
            assert(g[m] <= x[j]);
        }
    }
    assert(x =~= y);
}

/// Folding the buckets that coupons fill gives the buckets that the
/// coupons fill when there are fewer buckets from the start.
pub proof fn lemma_fold_image(coupons: Set<u32>, lg_mid: u8, lg_k: u8)
    requires
        lg_k <= lg_mid,
        forall|c: u32| coupons.contains(c) ==> valid_coupon(c),
    ensures
        folded(bucket_image(coupons, lg_mid), lg_k) == bucket_image(coupons, lg_k),
{
    let k = pow2(lg_k as nat) as int;
    let mid = pow2(lg_mid as nat) as int;
    let times = pow2((lg_mid - lg_k) as nat) as int;
    lemma_pow2_pos(lg_k as nat);
    lemma_pow2_pos(lg_mid as nat);
    lemma_pow2_pos((lg_mid - lg_k) as nat);
    lemma_pow2_adds(lg_k as nat, (lg_mid - lg_k) as nat);
    assert(mid == k * times);
    let g = bucket_image(coupons, lg_mid);
    let x = folded(g, lg_k);
    let y = bucket_image(coupons, lg_k);
    lemma_folded_tops(g, lg_k, g.len(), 0);
    assert forall|j: int| 0 <= j < k implies x[j] == y[j] by {
        lemma_folded_tops(g, lg_k, g.len(), j);
        lemma_image_tops(coupons, lg_k, j);
        if x[j] != 0 {
            let m = choose|m: int| 0 <= m < g.len() && m % k == j && #[trigger] g[m] == x[j];
            lemma_image_tops(coupons, lg_mid, m);
            let c = choose|c: u32|
                coupons.contains(c) && coupon_slot(c, lg_mid) == m && coupon_value(c) == g[m];
            lemma_mod_mod(c as int, k, times);
            assert(coupon_slot(c, lg_k) == j);
        }
        if y[j] != 0 {
            let c = choose|c: u32|
                coupons.contains(c) && coupon_slot(c, lg_k) == j && coupon_value(c) == y[j];
            let m = coupon_slot(c, lg_mid);
            lemma_mod_mod(c as int, k, times);
            lemma_image_tops(coupons, lg_mid, m);
            assert(coupon_value(c) <= g[m]);
            assert(g[m] <= x[j]);
        }
    }
    assert(x =~= y);
}

/// What a sketch that has seen something has seen leaves a bucket above 0,
/// at any number of buckets up to its own.
pub proof fn lemma_seen_something(v: HllView, lg_k: u8)
    requires
        v.valid(),
        !v.is_empty(),
        lg_k <= v.lg_config_k,
    ensures
        v.buckets_at(lg_k).len() == pow2(lg_k as nat),
        exists|j: int| 0 <= j < pow2(lg_k as nat) && #[trigger] v.buckets_at(lg_k)[j] != 0,
{
    broadcast use vstd::set::group_set_axioms;

    let k = pow2(lg_k as nat) as int;
    lemma_pow2_pos(lg_k as nat);
    if v.holds_coupons() {
        let c = v.coupons.choose();
        assert(v.coupons.contains(c)) by {
            if v.coupons =~= Set::<u32>::empty() {
            }
        }
        let j = coupon_slot(c, lg_k);
        lemma_image_values(v.coupons, lg_k);
        lemma_image_tops(v.coupons, lg_k, j);
        assert(valid_coupon(c));
        assert(v.buckets_at(lg_k)[j] != 0);
    } else {
        let i = choose|i: int| 0 <= i < v.buckets.len() && v.buckets[i] != 0;
        let j = i % k;
        lemma_folded_tops(v.buckets, lg_k, v.buckets.len(), j);
        assert(v.buckets[i] <= v.buckets_at(lg_k)[j]);
        assert(v.buckets_at(lg_k)[j] != 0);
    }
}

/// Folding two merged arrays is merging the two folded arrays.
pub proof fn lemma_fold_joined(x: Seq<u8>, y: Seq<u8>, lg_k: u8)
    requires
        x.len() == y.len(),
    ensures
        folded(joined(x, y), lg_k) == joined(folded(x, lg_k), folded(y, lg_k)),
{
    let k = pow2(lg_k as nat) as int;
    lemma_pow2_pos(lg_k as nat);
    let both = joined(x, y);
    let f = folded(both, lg_k);
    let fx = folded(x, lg_k);
    let fy = folded(y, lg_k);
    lemma_folded_tops(both, lg_k, both.len(), 0);
    lemma_folded_tops(x, lg_k, x.len(), 0);
    lemma_folded_tops(y, lg_k, y.len(), 0);
    let g = joined(fx, fy);
    assert forall|j: int| 0 <= j < k implies f[j] == g[j] by {
        lemma_folded_tops(both, lg_k, both.len(), j);
        lemma_folded_tops(x, lg_k, x.len(), j);
        lemma_folded_tops(y, lg_k, y.len(), j);
        if f[j] != 0 {
            let i = choose|i: int| 0 <= i < both.len() && i % k == j && #[trigger] both[i] == f[j];
            assert(x[i] <= fx[j]);
            assert(y[i] <= fy[j]);
        }
        if fx[j] != 0 {
            let i = choose|i: int| 0 <= i < x.len() && i % k == j && #[trigger] x[i] == fx[j];
            assert(both[i] <= f[j]);
        }
        if fy[j] != 0 {
            let i = choose|i: int| 0 <= i < y.len() && i % k == j && #[trigger] y[i] == fy[j];
            assert(both[i] <= f[j]);
        }
    }
    assert(f =~= g);
}

/// The state of a union after it has combined sketches, put together from
/// what it has seen.
pub open spec fn rebuilt(
    lg_k: u8,
    tgt_type: HllType,
    holds_coupons: bool,
    coupons: Set<u32>,
    buckets: Seq<u8>,
) -> HllView {
    if holds_coupons {
        HllView {
            lg_config_k: lg_k,
            tgt_type,
            mode: mode_for(lg_k, coupons.len() as int),
            ooo: false,
            coupons,
            buckets: Seq::empty(),
            hip: 0,
        }
    } else {
        HllView {
            lg_config_k: lg_k,
            tgt_type,
            mode: HllMode::Hll,
            ooo: true,
            coupons: Set::empty(),
            buckets,
            hip: 0,
        }
    }
}

/// What a union holds after it is shown a sketch, where the two are
/// combined: it has the fewer buckets of the two; it holds coupons if both
/// did and their coupons together are within the limit, and then it holds
/// the coupons of both; it has seen what both have seen; and it is in a
/// valid state.
pub proof fn lemma_combined(held: HllView, src: HllView)
    requires
        held.valid(),
        src.valid(),
    ensures
        ({
            let both = held.combined(src);
            let lg_k = if src.lg_config_k < held.lg_config_k {
                src.lg_config_k
            } else {
                held.lg_config_k
            };
            &&& both.valid()
            &&& both.lg_config_k == lg_k
            &&& both.tgt_type == held.tgt_type
            &&& both.holds_coupons() <==> held.holds_coupons() && src.holds_coupons()
                && held.coupons.union(src.coupons).len() <= coupon_limit(lg_k)
            &&& both.holds_coupons() ==> both.coupons == held.coupons.union(src.coupons)
            &&& forall|lg: u8|
                lg <= lg_k ==> #[trigger] both.buckets_at(lg) == joined(
                    held.buckets_at(lg),
                    src.buckets_at(lg),
                )
            &&& !held.is_empty() || !src.is_empty() ==> !both.is_empty()
            &&& both == rebuilt(
                lg_k,
                held.tgt_type,
                both.holds_coupons(),
                both.coupons,
                both.buckets_at(lg_k),
            )
        }),
{
    broadcast use vstd::set::group_set_axioms;

    let both = held.combined(src);
    let lg_k = both.lg_config_k;
    if !both.holds_coupons() {
        lemma_at_values(held, lg_k);
        lemma_at_values(src, lg_k);
        lemma_joined(held.buckets_at(lg_k), src.buckets_at(lg_k));
        lemma_fold_same(both.buckets, lg_k);
    }
    let all = held.coupons.union(src.coupons);
    HllSketch::lemma_limit(lg_k);
    Registers::lemma_bucket_count(lg_k);
    lemma2_to64_rest();
    lemma_pow2_adds(lg_k as nat, 39);
    let x = held.buckets_at(lg_k);
    let y = src.buckets_at(lg_k);
    lemma_at_values(held, lg_k);
    lemma_at_values(src, lg_k);
    lemma_joined(x, y);
    if both.holds_coupons() {
        assert forall|c: u32| all.contains(c) implies valid_coupon(c) by {
            if held.coupons.contains(c) {
            } else {
                assert(src.coupons.contains(c));
            }
        }
        assert forall|lg: u8| lg <= lg_k implies #[trigger] both.buckets_at(lg) == joined(
            held.buckets_at(lg),
            src.buckets_at(lg),
        ) by {
            crate::hll::model::lemma_image_union(held.coupons, src.coupons, lg);
        }
        if !held.is_empty() {
            lemma_len_subset(held.coupons, all);
        }
        if !src.is_empty() {
            lemma_len_subset(src.coupons, all);
        }
    } else {
        assert forall|i: int| 0 <= i < both.buckets.len() implies both.buckets[i]
            <= MAX_VALUE by {
            assert(x[i] <= MAX_VALUE);
            assert(y[i] <= MAX_VALUE);
        }
        lemma_weight_sum_bounds(both.buckets, both.buckets.len() as int);
        assert forall|lg: u8| lg <= lg_k implies #[trigger] both.buckets_at(lg) == joined(
            held.buckets_at(lg),
            src.buckets_at(lg),
        ) by {
            lemma_fold_joined(x, y, lg);
            lemma_at_folded(held, lg_k, lg);
            lemma_at_folded(src, lg_k, lg);
        }
        if !held.is_empty() {
            lemma_seen_something(held, lg_k);
            let j = choose|j: int| 0 <= j < pow2(lg_k as nat) && #[trigger] x[j] != 0;
            assert(both.buckets[j] != 0);
        }
        if !src.is_empty() {
            lemma_seen_something(src, lg_k);
            let j = choose|j: int| 0 <= j < pow2(lg_k as nat) && #[trigger] y[j] != 0;
            assert(both.buckets[j] != 0);
        }
    }
}

/// What a sketch has seen, as `2^lg_k` buckets, is `2^lg_k` values.
pub proof fn lemma_at_values(v: HllView, lg_k: u8)
    requires
        v.valid(),
    ensures
        v.buckets_at(lg_k).len() == pow2(lg_k as nat),
        forall|j: int| 0 <= j < pow2(lg_k as nat) ==> #[trigger] v.buckets_at(lg_k)[j] <= MAX_VALUE,
{
    if v.holds_coupons() {
        lemma_image_values(v.coupons, lg_k);
    } else {
        lemma_folded_upto(v.buckets, lg_k, v.buckets.len());
    }
}

/// What a sketch has seen as a number of buckets, folded into fewer, is
/// what it has seen as the fewer buckets.
pub proof fn lemma_at_folded(v: HllView, lg_mid: u8, lg_k: u8)
    requires
        v.valid(),
        lg_k <= lg_mid,
    ensures
        folded(v.buckets_at(lg_mid), lg_k) == v.buckets_at(lg_k),
{
    if v.holds_coupons() {
        lemma_fold_image(v.coupons, lg_mid, lg_k);
    } else {
        lemma_fold_fold(v.buckets, lg_mid, lg_k);
    }
}

/// What a union that has seen nothing holds after it is shown a sketch that
/// has seen something: it has the fewer buckets of the two, has seen
/// something, holds the coupons of the sketch if it holds coupons, has
/// seen what the sketch has seen, and is in a valid state.
pub proof fn lemma_adopted(fresh: HllView, a: HllView)
    requires
        fresh.valid(),
        fresh.holds_coupons(),
        fresh.is_empty(),
        a.valid(),
        !a.is_empty(),
    ensures
        ({
            let held = fresh.adopted(a);
            let lg_k = if a.lg_config_k < fresh.lg_config_k {
                a.lg_config_k
            } else {
                fresh.lg_config_k
            };
            &&& held.valid()
            &&& held.lg_config_k == lg_k
            &&& held.tgt_type == fresh.tgt_type
            &&& !held.is_empty()
            &&& held.holds_coupons() <==> a.holds_coupons() && a.coupons.len() <= coupon_limit(
                lg_k,
            )
            &&& held.holds_coupons() ==> held.coupons == a.coupons
            &&& forall|lg: u8| lg <= lg_k ==> #[trigger] held.buckets_at(lg) == a.buckets_at(lg)
        }),
{
    broadcast use vstd::set::group_set_axioms;

    let held = fresh.adopted(a);
    let lg_k = held.lg_config_k;
    assert(fresh.coupons =~= Set::<u32>::empty());
    if !a.holds_coupons() && a.lg_config_k <= fresh.lg_config_k {
        let i = choose|i: int| 0 <= i < a.buckets.len() && a.buckets[i] != 0;
        assert(held.buckets[i] != 0);
        assert(!held.is_empty());
    } else {
        lemma_combined(fresh, a);
        assert(fresh.coupons.union(a.coupons) =~= a.coupons);
        assert forall|lg: u8| lg <= lg_k implies #[trigger] held.buckets_at(lg) == a.buckets_at(
            lg,
        ) by {
            lemma_at_values(a, lg);
            crate::hll::model::lemma_image_empty(lg);
            lemma_joined(a.buckets_at(lg), a.buckets_at(lg));
        }
    }
}

/// Two unions that have combined sketches are in the same state if they
/// have the same number of buckets of the same width and have seen the
/// same.
proof fn lemma_same_state(
    left: HllView,
    right: HllView,
    lg_k: u8,
    tgt_type: HllType,
    holds: bool,
    all: Set<u32>,
    seen: Seq<u8>,
)
    requires
        left == rebuilt(lg_k, tgt_type, left.holds_coupons(), left.coupons, left.buckets_at(lg_k)),
        right == rebuilt(
            lg_k,
            tgt_type,
            right.holds_coupons(),
            right.coupons,
            right.buckets_at(lg_k),
        ),
        left.holds_coupons() == holds,
        right.holds_coupons() == holds,
        holds ==> left.coupons == all && right.coupons == all,
        left.buckets_at(lg_k) == seen,
        right.buckets_at(lg_k) == seen,
    ensures
        left == right,
{
}

/// The commutation of a union that has seen nothing.
proof fn lemma_commutes_fresh(held: HllView, a: HllView, b: HllView)
    requires
        held.valid(),
        held.is_empty(),
        held.holds_coupons(),
        a.valid(),
        b.valid(),
        !a.is_empty(),
        !b.is_empty(),
    ensures
        held.merged(a).merged(b) == held.merged(b).merged(a),
{
    broadcast use vstd::set::group_set_axioms;

    lemma_adopted(held, a);
    lemma_adopted(held, b);
    let held_a = held.adopted(a);
    let held_b = held.adopted(b);
    lemma_combined(held_a, b);
    lemma_combined(held_b, a);
    let left = held_a.combined(b);
    let right = held_b.combined(a);
    let lg_k = left.lg_config_k;
    let y = a.buckets_at(lg_k);
    let z = b.buckets_at(lg_k);
    lemma_at_values(a, lg_k);
    lemma_at_values(b, lg_k);
    lemma_joined(y, z);
    assert(held_a.buckets_at(lg_k) == y);
    assert(held_b.buckets_at(lg_k) == z);
    let all = a.coupons.union(b.coupons);
    assert(all =~= b.coupons.union(a.coupons));
    if a.holds_coupons() && b.holds_coupons() {
        lemma_len_subset(a.coupons, all);
        lemma_len_subset(b.coupons, all);
        lemma_limit_grows(lg_k, held_a.lg_config_k);
        lemma_limit_grows(lg_k, held_b.lg_config_k);
    }
    let holds = a.holds_coupons() && b.holds_coupons() && all.len() <= coupon_limit(lg_k);
    assert(left.holds_coupons() == holds);
    assert(right.holds_coupons() == holds);
    lemma_same_state(left, right, lg_k, held.tgt_type, holds, all, joined(y, z));
}

/// The commutation of a union that has seen something.
proof fn lemma_commutes_held(held: HllView, a: HllView, b: HllView)
    requires
        held.valid(),
        !held.is_empty(),
        a.valid(),
        b.valid(),
        !a.is_empty(),
        !b.is_empty(),
    ensures
        held.merged(a).merged(b) == held.merged(b).merged(a),
{
    broadcast use vstd::set::group_set_axioms;

    lemma_combined(held, a);
    lemma_combined(held, b);
    let held_a = held.combined(a);
    let held_b = held.combined(b);
    lemma_combined(held_a, b);
    lemma_combined(held_b, a);
    let left = held_a.combined(b);
    let right = held_b.combined(a);
    let lg_k = left.lg_config_k;
    let x = held.buckets_at(lg_k);
    let y = a.buckets_at(lg_k);
    let z = b.buckets_at(lg_k);
    lemma_at_values(held, lg_k);
    lemma_at_values(a, lg_k);
    lemma_at_values(b, lg_k);
    assert(held_a.buckets_at(lg_k) == joined(x, y));
    assert(held_b.buckets_at(lg_k) == joined(x, z));
    assert(joined(joined(x, y), z) =~= joined(joined(x, z), y));
    let part_a = held.coupons.union(a.coupons);
    let part_b = held.coupons.union(b.coupons);
    let all = part_a.union(b.coupons);
    assert(all =~= part_b.union(a.coupons));
    if held.holds_coupons() && a.holds_coupons() && b.holds_coupons() {
        lemma_len_subset(part_a, all);
        lemma_len_subset(part_b, all);
        lemma_limit_grows(lg_k, held_a.lg_config_k);
        lemma_limit_grows(lg_k, held_b.lg_config_k);
    }
    let holds = held.holds_coupons() && a.holds_coupons() && b.holds_coupons() && all.len()
        <= coupon_limit(lg_k);
    assert(left.holds_coupons() == holds);
    assert(right.holds_coupons() == holds);
    lemma_same_state(left, right, lg_k, held.tgt_type, holds, all, joined(joined(x, y), z));
}

/// A union that is shown two sketches holds the same whichever it is shown
/// first: the same mode and number of buckets, the same coupons or
/// buckets, and so the same estimate. This holds of a union that has seen
/// nothing and of one that has already been shown sketches or items.
pub proof fn lemma_union_commutes(held: HllView, a: HllView, b: HllView)
    requires
        held.valid(),
        held.is_empty() ==> held.holds_coupons(),
        a.valid(),
        b.valid(),
    ensures
        held.merged(a).merged(b) == held.merged(b).merged(a),
        held.merged(a).merged(b).estimate() == held.merged(b).merged(a).estimate(),
{
    if a.is_empty() || b.is_empty() {
    } else if held.is_empty() {
        lemma_adopted(held, a);
        lemma_adopted(held, b);
        lemma_commutes_fresh(held, a, b);
    } else {
        lemma_combined(held, a);
        lemma_combined(held, b);
        lemma_commutes_held(held, a, b);
    }
}

/// Folding into the number of buckets that there are changes nothing.
pub proof fn lemma_fold_same(buckets: Seq<u8>, lg_k: u8)
    requires
        buckets.len() == pow2(lg_k as nat),
    ensures
        folded(buckets, lg_k) == buckets,
{
    let k = pow2(lg_k as nat) as int;
    lemma_pow2_pos(lg_k as nat);
    lemma_folded_tops(buckets, lg_k, buckets.len(), 0);
    let f = folded(buckets, lg_k);
    assert forall|j: int| 0 <= j < k implies f[j] == buckets[j] by {
        lemma_folded_tops(buckets, lg_k, buckets.len(), j);
        vstd::arithmetic::div_mod::lemma_small_mod(j as nat, k as nat);
        assert(buckets[j] <= f[j]);
        if f[j] != 0 {
            let i = choose|i: int|
                0 <= i < buckets.len() && i % k == j && #[trigger] buckets[i] == f[j];
            vstd::arithmetic::div_mod::lemma_small_mod(i as nat, k as nat);
        }
    }
    assert(f =~= buckets);
}

/// A union loses nothing: after it is shown a sketch it is in a valid
/// state, and no bucket of what it has seen is below what it had seen
/// before, or below what the sketch has seen, at the number of buckets that
/// it has then.
pub proof fn lemma_union_holds(held: HllView, src: HllView)
    requires
        held.valid(),
        held.is_empty() ==> held.holds_coupons(),
        src.valid(),
    ensures
        held.merged(src).valid(),
        forall|j: int|
            0 <= j < pow2(held.merged(src).lg_config_k as nat) ==> held.buckets_at(
                held.merged(src).lg_config_k,
            )[j] <= #[trigger] held.merged(src).buckets_at(held.merged(src).lg_config_k)[j],
        forall|j: int|
            0 <= j < pow2(held.merged(src).lg_config_k as nat) && !src.is_empty()
                ==> src.buckets_at(held.merged(src).lg_config_k)[j] <= #[trigger] held.merged(
                src,
            ).buckets_at(held.merged(src).lg_config_k)[j],
{
    broadcast use vstd::set::group_set_axioms;

    let after = held.merged(src);
    let lg_k = after.lg_config_k;
    lemma_at_values(held, lg_k);
    lemma_at_values(src, lg_k);
    if src.is_empty() {
    } else if held.is_empty() {
        lemma_adopted(held, src);
        assert(held.coupons =~= Set::<u32>::empty());
        crate::hll::model::lemma_image_empty(lg_k);
        assert(after.buckets_at(lg_k) == src.buckets_at(lg_k));
    } else {
        lemma_combined(held, src);
        assert(after.buckets_at(lg_k) == joined(held.buckets_at(lg_k), src.buckets_at(lg_k)));
    }
}

/// A union never gains buckets: after it is shown a sketch it has no more
/// buckets than it had, and no more than the sketch if the sketch has seen
/// something. A sketch that has seen nothing changes nothing.
pub proof fn lemma_union_shrinks(held: HllView, src: HllView)
    ensures
        held.merged(src).lg_config_k <= held.lg_config_k,
        !src.is_empty() ==> held.merged(src).lg_config_k <= src.lg_config_k,
        src.is_empty() ==> held.merged(src) == held,
        held.merged(src).tgt_type == held.tgt_type,
{
}

} // verus!
