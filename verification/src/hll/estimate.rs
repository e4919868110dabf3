//! What the estimate of a sketch and its error bounds are computed from.
//!
//! The estimators of a sketch in bucket mode are functions over the reals.
//! The library hands out their exact arguments and leaves the evaluation in
//! floating point to its user.
use crate::hll::HllMode;
use crate::hll::model::HIP_ONE;
use crate::hll::model::HllView;
use crate::hll::model::count_at;
use crate::hll::model::kxq_of;
use vstd::prelude::*;

verus! {

/// The estimate of a sketch, as the numbers that determine it.
#[derive(Clone, Copy, Debug, PartialEq, Eq, Structural)]
pub enum HllEstimate {
    /// The sketch still holds its coupons: the estimate is their number.
    Exact {
        /// The number of distinct coupons seen.
        count: u64,
    },
    /// The HIP estimate: the accumulator, in units of `2^-24`.
    Hip {
        /// The accumulator.
        accum: u128,
    },
    /// The composite estimate, which is a function of the bucket values
    /// alone and stays valid when sketches are merged.
    Composite {
        /// The binary logarithm of the number of buckets.
        lg_config_k: u8,
        /// The number of buckets that hold 0.
        zero_buckets: u32,
        /// The sum over the buckets of `2^-value`, in units of `2^-39`.
        kxq: u64,
    },
}

impl HllEstimate {
    /// The estimate rounded down, where integers suffice to compute it.
    pub open spec fn floor_of(self) -> Option<int> {
        match self {
            HllEstimate::Exact { count } => Some(count as int),
            HllEstimate::Hip { accum } => Some(accum as int / HIP_ONE as int),
            HllEstimate::Composite { .. } => None,
        }
    }

    /// The estimate rounded down, where integers suffice to compute it.
    pub fn floor(self) -> (f: Option<u128>)
        ensures
            match f {
                Some(n) => self.floor_of() == Some(n as int),
                None => self.floor_of() is None,
            },
    {
        match self {
            HllEstimate::Exact { count } => Some(count as u128),
            HllEstimate::Hip { accum } => Some(accum / HIP_ONE),
            HllEstimate::Composite { .. } => None,
        }
    }
}

/// An error bound of a sketch, as the numbers that determine it: the bound
/// is the estimate scaled by the relative error that belongs to the other
/// four fields.
#[derive(Clone, Copy, Debug, PartialEq, Eq, Structural)]
pub struct HllBound {
    /// The estimate that the bound is a bound of.
    pub estimate: HllEstimate,
    /// The binary logarithm of the number of buckets.
    pub lg_config_k: u8,
    /// The number of standard deviations, from 1 to 3.
    pub num_std_dev: u8,
    /// Whether this is the upper bound.
    pub upper: bool,
    /// Whether the sketch has lost its HIP estimate to a merge.
    pub unioned: bool,
}

impl HllView {
    /// The composite estimate of the sketch.
    pub open spec fn composite_estimate(self) -> HllEstimate {
        match self.mode {
            HllMode::Hll => HllEstimate::Composite {
                lg_config_k: self.lg_config_k,
                zero_buckets: count_at(self.buckets, 0, self.buckets.len() as int) as u32,
                kxq: kxq_of(self.buckets) as u64,
            },
            _ => HllEstimate::Exact { count: self.coupons.len() as u64 },
        }
    }

    /// The estimate of the sketch: exact while it holds coupons, then the
    /// HIP estimate for as long as that is valid, else the composite one.
    pub open spec fn estimate(self) -> HllEstimate {
        match self.mode {
            HllMode::Hll => if self.ooo {
                self.composite_estimate()
            } else {
                HllEstimate::Hip { accum: self.hip as u128 }
            },
            _ => HllEstimate::Exact { count: self.coupons.len() as u64 },
        }
    }

    /// An error bound of the sketch.
    pub open spec fn bound(self, num_std_dev: u8, upper: bool) -> HllBound {
        HllBound {
            estimate: self.estimate(),
            lg_config_k: self.lg_config_k,
            num_std_dev,
            upper,
            unioned: self.ooo,
        }
    }
}

} // verus!
