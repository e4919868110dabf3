//! What the estimate of a sketch and its error bounds are computed from.
//!
//! The estimators are functions over the reals. The library hands out
//! their exact arguments and leaves the evaluation in floating point to
//! its user.
use crate::cpc::model::CpcView;
use crate::hll::model::HIP_ONE;
use vstd::prelude::*;

verus! {

/// The estimate of a sketch, as the numbers that determine it.
#[derive(Clone, Copy, Debug, PartialEq, Eq, Structural)]
pub enum CpcEstimate {
    /// The HIP estimate: the accumulator, in units of `2^-24`.
    Hip {
        /// The accumulator.
        accum: u128,
    },
    /// The estimate of a sketch that came out of a union: the number of
    /// distinct items that is most likely to leave this number of coupons
    /// in a matrix of this number of rows.
    Icon {
        /// The binary logarithm of the number of rows.
        lg_k: u8,
        /// The number of coupons collected.
        num_coupons: u64,
    },
}

impl CpcEstimate {
    /// The estimate rounded down, where integers suffice to compute it.
    pub open spec fn floor_of(self) -> Option<int> {
        match self {
            CpcEstimate::Hip { accum } => Some(accum as int / HIP_ONE as int),
            CpcEstimate::Icon { .. } => None,
        }
    }

    /// The estimate rounded down, where integers suffice to compute it.
    pub fn floor(self) -> (f: Option<u128>)
        ensures
            match f {
                Some(n) => self.floor_of() == Some(n as int),
                None => self.floor_of() is None,
            },
    {
        match self {
            CpcEstimate::Hip { accum } => Some(accum / HIP_ONE),
            CpcEstimate::Icon { .. } => None,
        }
    }
}

/// An error bound of a sketch, as the numbers that determine it: the bound
/// is the estimate scaled by the relative error that belongs to the other
/// fields.
#[derive(Clone, Copy, Debug, PartialEq, Eq, Structural)]
pub struct CpcBound {
    /// The estimate that the bound is a bound of.
    pub estimate: CpcEstimate,
    /// The binary logarithm of the number of rows.
    pub lg_k: u8,
    /// The width of the confidence interval, from 1 to 3.
    pub kappa: u32,
    /// Whether this is the upper bound.
    pub upper: bool,
}

impl CpcView {
    /// The estimate of the sketch: the HIP estimate, or, for a sketch that
    /// came out of a union, the one that the number of coupons gives.
    pub open spec fn estimate(self) -> CpcEstimate {
        if self.merged {
            CpcEstimate::Icon { lg_k: self.lg_k, num_coupons: self.coupons.len() as u64 }
        } else {
            CpcEstimate::Hip { accum: self.hip as u128 }
        }
    }

    /// An error bound of the sketch.
    pub open spec fn bound(self, kappa: u32, upper: bool) -> CpcBound {
        CpcBound { estimate: self.estimate(), lg_k: self.lg_k, kappa, upper }
    }
}

} // verus!
