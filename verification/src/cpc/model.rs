//! What a CPC sketch is, said without its representation.
//!
//! A sketch is the set of the coupons it has collected, with the
//! accumulator of the HIP estimator and the flag that says whether the
//! sketch came out of a union, in which case the accumulator estimates
//! nothing.
//!
//! Fractions are kept exactly, as integers in a fixed unit: the chance
//! that the next item brings a new coupon in units of `2^-38` of a row,
//! the HIP accumulator in units of `2^-24`.
use crate::cpc::Flavor;
use crate::cpc::MAX_COLUMN;
use crate::cpc::MAX_LG_K;
use crate::cpc::MIN_LG_K;
use crate::cpc::ROW_STRIDE;
use crate::cpc::flavor_of;
use crate::cpc::pair_col;
use crate::cpc::valid_pair;
use crate::cpc::window_offset_of;
use vstd::arithmetic::power2::lemma2_to64;
use vstd::arithmetic::power2::lemma2_to64_rest;
use vstd::arithmetic::power2::lemma_pow2_adds;
use vstd::arithmetic::power2::lemma_pow2_pos;
use vstd::arithmetic::power2::lemma_pow2_strictly_increases;
use vstd::arithmetic::power2::lemma_pow2_unfold;
use vstd::arithmetic::power2::pow2;
use vstd::prelude::*;
use vstd::set_lib::lemma_int_range;
use vstd::set_lib::lemma_len_subset;
use vstd::set_lib::lemma_map_size;
use vstd::set_lib::set_int_range;

verus! {

/// The chance that an item falls into a given row and into column `col`,
/// in units of `2^-38` of a row: `2^-(col + 1)`, and for the last column,
/// which takes all that is left, `2^-38`.
pub open spec fn cell_weight(col: int) -> int {
    if col >= MAX_COLUMN {
        1
    } else {
        pow2((37 - col) as nat) as int
    }
}

/// The sum of the weights of the coupons of a set among the pairs below
/// `n`.
pub open spec fn mass_upto(coupons: Set<u32>, n: nat) -> int
    decreases n,
{
    if n == 0 {
        0
    } else {
        mass_upto(coupons, (n - 1) as nat) + if coupons.contains((n - 1) as u32) {
            cell_weight((n - 1) % (ROW_STRIDE as int))
        } else {
            0
        }
    }
}

/// The chance that the next item brings a coupon that a sketch does not
/// hold yet, times the number of rows, in units of `2^-38`.
pub open spec fn kxp_of(coupons: Set<u32>, lg_k: u8) -> int {
    pow2((lg_k + 38) as nat) - mass_upto(coupons, (ROW_STRIDE * pow2(lg_k as nat)) as nat)
}

/// What a new coupon adds to the HIP accumulator: the number of rows over
/// the chance of a new coupon as it was before.
pub open spec fn hip_step(lg_k: u8, kxp: int) -> int {
    pow2((lg_k + 62) as nat) as int / kxp
}

/// The state of a sketch.
pub struct CpcView {
    /// The binary logarithm of the number of rows.
    pub lg_k: u8,
    /// The seed under which items are hashed.
    pub seed: u64,
    /// The coupons collected.
    pub coupons: Set<u32>,
    /// The HIP accumulator, in units of `2^-24`.
    pub hip: nat,
    /// Whether the sketch came out of a union.
    pub merged: bool,
}

impl CpcView {
    /// The number of rows.
    pub open spec fn k(self) -> nat {
        pow2(self.lg_k as nat)
    }

    /// Whether this is a state that a sketch can be in.
    pub open spec fn valid(self) -> bool {
        &&& MIN_LG_K <= self.lg_k <= MAX_LG_K
        &&& self.coupons.finite()
        &&& forall|p: u32| self.coupons.contains(p) ==> valid_pair(p, self.lg_k)
        &&& self.hip <= self.coupons.len() * pow2((self.lg_k + 62) as nat)
    }

    /// The sketch that has collected nothing.
    pub open spec fn empty(lg_k: u8, seed: u64) -> CpcView {
        CpcView { lg_k, seed, coupons: Set::empty(), hip: 0, merged: false }
    }

    /// The number of coupons collected.
    pub open spec fn num_coupons(self) -> nat {
        self.coupons.len()
    }

    /// The flavor of the sketch.
    pub open spec fn flavor(self) -> Flavor {
        flavor_of(self.lg_k, self.coupons.len() as int)
    }

    /// The offset of the window of the sketch.
    pub open spec fn window_offset(self) -> int {
        window_offset_of(self.lg_k, self.coupons.len() as int)
    }

    /// The sketch after it is shown a pair. A pair that is new is
    /// collected, and feeds the accumulator with the step that belongs to
    /// the coupons as they were before.
    pub open spec fn absorb(self, pair: u32) -> CpcView {
        if self.coupons.contains(pair) {
            self
        } else {
            CpcView {
                coupons: self.coupons.insert(pair),
                hip: (self.hip + hip_step(self.lg_k, kxp_of(self.coupons, self.lg_k))) as nat,
                ..self
            }
        }
    }

    /// The sketch after a pair is added to it without word to the
    /// accumulator, as a union does.
    pub open spec fn with_pair(self, pair: u32) -> CpcView {
        CpcView { coupons: self.coupons.insert(pair), ..self }
    }
}

/// The weight of a cell is a power of two between 1 and `2^37`.
pub proof fn lemma_cell_weight(col: int)
    requires
        0 <= col <= MAX_COLUMN,
    ensures
        1 <= cell_weight(col) <= 0x20_0000_0000,
{
    lemma2_to64();
    lemma2_to64_rest();
    if 0 < col <= 37 {
        lemma_pow2_strictly_increases((37 - col) as nat, 37);
    }
    if col < MAX_COLUMN {
        lemma_pow2_pos((37 - col) as nat);
    }
}

/// The sum of the weights of the first `c` cells of a row, in the unit of
/// [`cell_weight`]: what the rest of the row still weighs is `2^(38 - c)`,
/// and nothing after the last column.
pub open spec fn row_weight_upto(c: int) -> int {
    if c > MAX_COLUMN {
        0x40_0000_0000
    } else {
        0x40_0000_0000 - pow2((38 - c) as nat)
    }
}

/// The weights of the coupons among the pairs below `n` sum to no more
/// than the weights of all cells below `n`.
pub proof fn lemma_mass_bound(coupons: Set<u32>, lg_k: u8, n: nat)
    requires
        forall|p: u32| coupons.contains(p) ==> pair_col(p) <= MAX_COLUMN,
        n <= 0x1_0000_0000,
    ensures
        0 <= mass_upto(coupons, n) <= (n / 64) * 0x40_0000_0000 + row_weight_upto(n as int % 64),
    decreases n,
{
    lemma2_to64();
    lemma2_to64_rest();
    if n > 0 {
        lemma_mass_bound(coupons, lg_k, (n - 1) as nat);
        let p = (n - 1) as u32;
        let c = (n - 1) % 64;
        if c <= MAX_COLUMN {
            lemma_cell_weight(c);
            if c < MAX_COLUMN {
                lemma_pow2_unfold((38 - c) as nat);
            }
        }
        if coupons.contains(p) {
            assert(pair_col(p) == c);
        }
    }
}

/// A pair that is new adds its weight to the sum of the weights.
pub proof fn lemma_mass_insert(coupons: Set<u32>, pair: u32, n: nat)
    requires
        n <= 0x1_0000_0000,
    ensures
        mass_upto(coupons.insert(pair), n) == mass_upto(coupons, n) + if pair < n
            && !coupons.contains(pair) {
            cell_weight(pair_col(pair))
        } else {
            0
        },
    decreases n,
{
    if n > 0 {
        lemma_mass_insert(coupons, pair, (n - 1) as nat);
    }
}

/// No coupons weigh nothing.
pub proof fn lemma_mass_empty(n: nat)
    ensures
        mass_upto(Set::<u32>::empty(), n) == 0,
    decreases n,
{
    if n > 0 {
        lemma_mass_empty((n - 1) as nat);
    }
}

/// A set of pairs of a matrix is finite if it is a set of pairs at all,
/// and has no more elements than the matrix has places.
pub proof fn lemma_pairs_bounded(coupons: Set<u32>, lg_k: u8)
    requires
        lg_k <= MAX_LG_K,
        coupons.finite(),
        forall|p: u32| coupons.contains(p) ==> valid_pair(p, lg_k),
    ensures
        coupons.len() <= 64 * pow2(lg_k as nat),
        64 * pow2(lg_k as nat) <= 0x1_0000_0000,
{
    lemma2_to64();
    if lg_k < 26 {
        lemma_pow2_strictly_increases(lg_k as nat, 26);
    }
    let bound = 64 * pow2(lg_k as nat) as int;
    let f = |p: u32| p as int;
    let image = coupons.map(f);
    assert(vstd::relations::injective_on(f, coupons));
    lemma_map_size(coupons, image, f);
    lemma_int_range(0, bound);
    assert(image.subset_of(set_int_range(0, bound))) by {
        assert forall|i: int| image.contains(i) implies set_int_range(0, bound).contains(i) by {
            let p = choose|p: u32| coupons.contains(p) && f(p) == i;
            assert(valid_pair(p, lg_k));
        }
    }
    lemma_len_subset(image, set_int_range(0, bound));
}

/// What is left of the chance of a new coupon is at least the weight of
/// any cell that is still free, and at most the number of rows.
pub proof fn lemma_kxp(coupons: Set<u32>, lg_k: u8, pair: u32)
    requires
        lg_k <= MAX_LG_K,
        forall|p: u32| coupons.contains(p) ==> valid_pair(p, lg_k),
        valid_pair(pair, lg_k),
        !coupons.contains(pair),
    ensures
        1 <= cell_weight(pair_col(pair)) <= kxp_of(coupons, lg_k) <= pow2((lg_k + 38) as nat),
        kxp_of(coupons.insert(pair), lg_k) == kxp_of(coupons, lg_k) - cell_weight(pair_col(pair)),
        pow2((lg_k + 38) as nat) == pow2(lg_k as nat) * 0x40_0000_0000,
        pow2((lg_k + 62) as nat) == pow2(lg_k as nat) * 0x4000_0000_0000_0000,
        pow2(lg_k as nat) <= 0x400_0000,
{
    lemma2_to64();
    lemma2_to64_rest();
    if lg_k < 26 {
        lemma_pow2_strictly_increases(lg_k as nat, 26);
    }
    lemma_pow2_adds(lg_k as nat, 38);
    lemma_pow2_adds(lg_k as nat, 62);
    let n = (ROW_STRIDE * pow2(lg_k as nat)) as nat;
    let more = coupons.insert(pair);
    assert forall|p: u32| more.contains(p) implies pair_col(p) <= MAX_COLUMN by {
        if p != pair {
            assert(coupons.contains(p));
        }
    }
    assert forall|p: u32| coupons.contains(p) implies pair_col(p) <= MAX_COLUMN by {
        assert(valid_pair(p, lg_k));
    }
    lemma_mass_bound(more, lg_k, n);
    lemma_mass_bound(coupons, lg_k, n);
    lemma_mass_insert(coupons, pair, n);
    lemma_cell_weight(pair_col(pair));
    assert(n / 64 == pow2(lg_k as nat));
    assert(n as int % 64 == 0);
    assert(row_weight_upto(0) == 0);
}

} // verus!
