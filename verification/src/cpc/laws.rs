//! What holds of every CPC sketch and every union.
use crate::cpc::Flavor;
use crate::cpc::MAX_LG_K;
use crate::cpc::MAX_OFFSET;
use crate::cpc::dump::dump_of;
use crate::cpc::flavor_of;
use crate::cpc::image::decode;
use crate::cpc::model::CpcView;
use crate::cpc::model::hip_step;
use crate::cpc::model::kxp_of;
use crate::cpc::model::lemma_kxp;
use crate::cpc::pair_col;
use crate::cpc::pair_row;
use crate::cpc::union::lemma_reduce_valid;
use crate::cpc::union::reduce_pair;
use crate::cpc::union::reduced;
use crate::cpc::valid_pair;
use crate::cpc::window_offset_of;
use crate::error::SketchError;
use vstd::arithmetic::div_mod::lemma_div_is_ordered;
use vstd::arithmetic::div_mod::lemma_mod_mod;
use vstd::arithmetic::div_mod::lemma_multiply_divide_le;
use vstd::arithmetic::power2::lemma_pow2_adds;
use vstd::arithmetic::power2::lemma_pow2_pos;
use vstd::arithmetic::power2::pow2;
use vstd::prelude::*;

verus! {

/// The place of a flavor in the life of a sketch.
pub open spec fn flavor_rank(flavor: Flavor) -> int {
    match flavor {
        Flavor::Empty => 0,
        Flavor::Sparse => 1,
        Flavor::Hybrid => 2,
        Flavor::Pinned => 3,
        Flavor::Sliding => 4,
    }
}

/// An image is read back as the sketch that was written: if `image`
/// decodes to the state `written`, as the image that a sketch in that state
/// writes does, and `read` is what reading the image gives, then `read` is
/// a sketch in the state `written`, with the same estimate and the same
/// dump.
pub proof fn lemma_round_trip(written: CpcView, image: Seq<u8>, read: Result<CpcView, SketchError>)
    requires
        decode(image) == Some(written),
        match read {
            Ok(v) => decode(image) == Some(v),
            Err(e) => e == SketchError::CorruptData && decode(image) is None,
        },
    ensures
        read == Ok::<CpcView, SketchError>(written),
        read->Ok_0.estimate() == written.estimate(),
        dump_of(read->Ok_0) == dump_of(written),
{
}

/// The flavor and the window offset follow from the number of coupons,
/// and more coupons never bring an earlier flavor or a smaller offset back.
/// The sparse flavors end where the coupons reach three thirty-seconds of
/// the number of rows.
pub proof fn lemma_flavor_grows(lg_k: u8, fewer: int, more: int)
    requires
        lg_k <= MAX_LG_K,
        0 <= fewer <= more,
    ensures
        flavor_rank(flavor_of(lg_k, fewer)) <= flavor_rank(flavor_of(lg_k, more)),
        0 <= window_offset_of(lg_k, fewer) <= window_offset_of(lg_k, more) <= MAX_OFFSET,
        flavor_of(lg_k, fewer).is_sparse() <==> 32 * fewer < 3 * pow2(lg_k as nat),
        flavor_of(lg_k, fewer) != Flavor::Sliding ==> window_offset_of(lg_k, fewer) == 0,
{
    lemma_pow2_pos(lg_k as nat);
    let k = pow2(lg_k as nat) as int;
    let a = 8 * fewer - 19 * k;
    let b = 8 * more - 19 * k;
    if a >= 0 {
        lemma_div_is_ordered(a, b, 8 * k);
        assert(a / (8 * k) >= 0) by (nonlinear_arith)
            requires
                a >= 0,
                k > 0,
        ;
    }
    if b >= 0 {
        assert(b / (8 * k) >= 0) by (nonlinear_arith)
            requires
                b >= 0,
                k > 0,
        ;
    }
    if 8 * fewer < 27 * k && a >= 0 {
        assert(a / (8 * k) == 0) by (nonlinear_arith)
            requires
                0 <= a < 8 * k,
                k > 0,
        ;
    }
}

/// A sketch never loses a coupon. When it is shown a pair,
/// - it stays in a valid state;
/// - it holds the coupons it held, and the pair;
/// - its flavor stays or moves on, and its window does not move back;
/// - the chance of a new coupon does not grow;
/// - the HIP accumulator does not go down, and grows by a whole step if
///   the pair is new.
pub proof fn lemma_absorb_grows(v: CpcView, pair: u32)
    requires
        v.valid(),
        valid_pair(pair, v.lg_k),
    ensures
        v.absorb(pair).valid(),
        v.absorb(pair).coupons == v.coupons.insert(pair),
        v.coupons.subset_of(v.absorb(pair).coupons),
        v.coupons.len() <= v.absorb(pair).coupons.len() <= v.coupons.len() + 1,
        flavor_rank(v.flavor()) <= flavor_rank(v.absorb(pair).flavor()),
        v.window_offset() <= v.absorb(pair).window_offset(),
        kxp_of(v.absorb(pair).coupons, v.lg_k) <= kxp_of(v.coupons, v.lg_k),
        v.hip <= v.absorb(pair).hip,
        !v.coupons.contains(pair) ==> v.absorb(pair).hip == v.hip + hip_step(
            v.lg_k,
            kxp_of(v.coupons, v.lg_k),
        ) && hip_step(v.lg_k, kxp_of(v.coupons, v.lg_k)) >= 0x100_0000,
{
    broadcast use vstd::set::group_set_axioms;

    let after = v.absorb(pair);
    lemma_flavor_grows(v.lg_k, v.coupons.len() as int, after.coupons.len() as int);
    if v.coupons.contains(pair) {
        assert(v.coupons.insert(pair) =~= v.coupons);
    } else {
        lemma_kxp(v.coupons, v.lg_k, pair);
        let kxp = kxp_of(v.coupons, v.lg_k);
        let unit = pow2((v.lg_k + 62) as nat) as int;
        let step = hip_step(v.lg_k, kxp);
        assert(unit <= kxp * unit) by (nonlinear_arith)
            requires
                kxp >= 1,
                unit >= 0,
        ;
        lemma_multiply_divide_le(unit, kxp, unit);
        assert(step >= 0x100_0000) by (nonlinear_arith)
            requires
                step == unit / kxp,
                0 < kxp <= pow2(v.lg_k as nat) * 0x40_0000_0000,
                unit == pow2(v.lg_k as nat) * 0x4000_0000_0000_0000,
                pow2(v.lg_k as nat) > 0,
        ;
        assert((v.coupons.len() + 1) * unit == v.coupons.len() * unit + unit)
            by (nonlinear_arith);
        assert forall|p: u32| after.coupons.contains(p) implies valid_pair(p, v.lg_k) by {
            if p != pair {
                assert(v.coupons.contains(p));
            }
        }
    }
}

/// Folding in two steps is folding in one.
pub proof fn lemma_reduce_twice(pair: u32, from: u8, lg_mid: u8, lg_k: u8)
    requires
        lg_k <= lg_mid <= from <= MAX_LG_K,
        valid_pair(pair, from),
    ensures
        reduce_pair(reduce_pair(pair, lg_mid), lg_k) == reduce_pair(pair, lg_k),
{
    let k = pow2(lg_k as nat) as int;
    let times = pow2((lg_mid - lg_k) as nat) as int;
    lemma_pow2_pos(lg_k as nat);
    lemma_pow2_pos((lg_mid - lg_k) as nat);
    lemma_pow2_adds(lg_k as nat, (lg_mid - lg_k) as nat);
    lemma_reduce_valid(pair, from, lg_mid);
    lemma_reduce_valid(pair, from, lg_k);
    lemma_reduce_valid(reduce_pair(pair, lg_mid), lg_mid, lg_k);
    lemma_mod_mod(pair_row(pair), k, times);
    let mid = reduce_pair(pair, lg_mid);
    assert(pair_row(mid) == pair_row(pair) % (k * times));
    assert(pair_col(mid) == pair_col(pair));
}

/// Folding the coupons of a matrix in two steps is folding them in one.
pub proof fn lemma_reduced_twice(coupons: Set<u32>, from: u8, lg_mid: u8, lg_k: u8)
    requires
        lg_k <= lg_mid <= from <= MAX_LG_K,
        forall|p: u32| coupons.contains(p) ==> valid_pair(p, from),
    ensures
        reduced(reduced(coupons, lg_mid), lg_k) == reduced(coupons, lg_k),
{
    let x = reduced(reduced(coupons, lg_mid), lg_k);
    let y = reduced(coupons, lg_k);
    assert forall|q: u32| x.contains(q) == y.contains(q) by {
        if x.contains(q) {
            let m = choose|m: u32| reduced(coupons, lg_mid).contains(m) && reduce_pair(m, lg_k) == q;
            let p = choose|p: u32| coupons.contains(p) && reduce_pair(p, lg_mid) == m;
            lemma_reduce_twice(p, from, lg_mid, lg_k);
        }
        if y.contains(q) {
            let p = choose|p: u32| coupons.contains(p) && reduce_pair(p, lg_k) == q;
            lemma_reduce_twice(p, from, lg_mid, lg_k);
            assert(reduced(coupons, lg_mid).contains(reduce_pair(p, lg_mid)));
        }
    }
    assert(x =~= y);
}

/// Folding the coupons of two matrices together is folding each.
pub proof fn lemma_reduced_union(a: Set<u32>, b: Set<u32>, lg_k: u8)
    ensures
        reduced(a.union(b), lg_k) == reduced(a, lg_k).union(reduced(b, lg_k)),
        reduced(Set::<u32>::empty(), lg_k) == Set::<u32>::empty(),
{
    let x = reduced(a.union(b), lg_k);
    let y = reduced(a, lg_k).union(reduced(b, lg_k));
    assert forall|q: u32| x.contains(q) == y.contains(q) by {
        if x.contains(q) {
            let p = choose|p: u32| a.union(b).contains(p) && reduce_pair(p, lg_k) == q;
            if a.contains(p) {
                assert(reduced(a, lg_k).contains(q));
            } else {
                assert(reduced(b, lg_k).contains(q));
            }
        }
        if reduced(a, lg_k).contains(q) {
            let p = choose|p: u32| a.contains(p) && reduce_pair(p, lg_k) == q;
            assert(a.union(b).contains(p));
        }
        if reduced(b, lg_k).contains(q) {
            let p = choose|p: u32| b.contains(p) && reduce_pair(p, lg_k) == q;
            assert(a.union(b).contains(p));
        }
    }
    assert(x =~= y);
    assert(reduced(Set::<u32>::empty(), lg_k) =~= Set::<u32>::empty());
}

/// A union that is shown two sketches holds the same whichever it is
/// shown first, and so gives the same estimate.
pub proof fn lemma_union_commutes(held: CpcView, a: CpcView, b: CpcView)
    requires
        held.valid(),
        a.valid(),
        b.valid(),
    ensures
        held.merged_with(a).merged_with(b) == held.merged_with(b).merged_with(a),
        held.merged_with(a).merged_with(b).estimate() == held.merged_with(b).merged_with(
            a,
        ).estimate(),
{
    broadcast use vstd::set::group_set_axioms;

    if a.coupons.len() != 0 && b.coupons.len() != 0 {
        let with_a = held.merged_with(a);
        let with_b = held.merged_with(b);
        let last = with_a.merged_with(b).lg_k;
        assert(last == with_b.merged_with(a).lg_k);
        lemma_reduced_union(
            reduced(held.coupons, with_a.lg_k),
            reduced(a.coupons, with_a.lg_k),
            last,
        );
        lemma_reduced_union(
            reduced(held.coupons, with_b.lg_k),
            reduced(b.coupons, with_b.lg_k),
            last,
        );
        lemma_reduced_twice(held.coupons, held.lg_k, with_a.lg_k, last);
        lemma_reduced_twice(held.coupons, held.lg_k, with_b.lg_k, last);
        lemma_reduced_twice(a.coupons, a.lg_k, with_a.lg_k, last);
        lemma_reduced_twice(b.coupons, b.lg_k, with_b.lg_k, last);
        assert(with_a.merged_with(b).coupons =~= with_b.merged_with(a).coupons);
    }
}

/// A union never gains rows, and holds what it held and what it is shown:
/// every coupon of either is found among its coupons, folded into its
/// rows.
pub proof fn lemma_union_holds(held: CpcView, src: CpcView)
    requires
        held.valid(),
        src.valid(),
    ensures
        held.merged_with(src).lg_k <= held.lg_k,
        src.coupons.len() != 0 ==> held.merged_with(src).lg_k <= src.lg_k,
        forall|p: u32|
            held.coupons.contains(p) ==> held.merged_with(src).coupons.contains(
                reduce_pair(p, held.merged_with(src).lg_k),
            ),
        forall|p: u32|
            src.coupons.contains(p) ==> held.merged_with(src).coupons.contains(
                reduce_pair(p, held.merged_with(src).lg_k),
            ),
{
    broadcast use vstd::set::group_set_axioms;

    let after = held.merged_with(src);
    if src.coupons.len() == 0 {
        assert(src.coupons =~= Set::<u32>::empty());
        assert forall|p: u32| held.coupons.contains(p) implies after.coupons.contains(
            reduce_pair(p, after.lg_k),
        ) by {
            lemma_reduce_valid(p, held.lg_k, held.lg_k);
        }
    } else {
        assert forall|p: u32| held.coupons.contains(p) implies after.coupons.contains(
            reduce_pair(p, after.lg_k),
        ) by {
            assert(reduced(held.coupons, after.lg_k).contains(reduce_pair(p, after.lg_k)));
        }
        assert forall|p: u32| src.coupons.contains(p) implies after.coupons.contains(
            reduce_pair(p, after.lg_k),
        ) by {
            assert(reduced(src.coupons, after.lg_k).contains(reduce_pair(p, after.lg_k)));
        }
    }
}

} // verus!
