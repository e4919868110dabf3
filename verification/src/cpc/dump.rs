//! The state of a sketch written out for a reader.
use crate::cpc::Flavor;
use crate::cpc::model::CpcView;
use crate::cpc::model::kxp_of;
use crate::cpc::sketch::CpcSketch;
use crate::text::number_line;
use crate::text::push_number_line;
use crate::text::push_truth_line;
use crate::text::truth_line;
use vstd::prelude::*;
use vstd::string::StringExecFns;

verus! {

/// The name of a flavor.
pub open spec fn flavor_line(f: Flavor) -> Seq<char> {
    match f {
        Flavor::Empty => "  flavor: EMPTY\n"@,
        Flavor::Sparse => "  flavor: SPARSE\n"@,
        Flavor::Hybrid => "  flavor: HYBRID\n"@,
        Flavor::Pinned => "  flavor: PINNED\n"@,
        Flavor::Sliding => "  flavor: SLIDING\n"@,
    }
}

/// The summary of a sketch.
pub open spec fn dump_of(v: CpcView) -> Seq<char> {
    "### CPC sketch summary:\n"@ + number_line("  lg k: "@, v.lg_k as nat) + number_line(
        "  seed: "@,
        v.seed as nat,
    ) + number_line("  coupons: "@, v.coupons.len()) + flavor_line(v.flavor()) + number_line(
        "  window offset: "@,
        v.window_offset() as nat,
    ) + truth_line("  merged: "@, v.merged) + number_line(
        "  kxp: "@,
        kxp_of(v.coupons, v.lg_k) as nat,
    ) + number_line("  hip accumulator: "@, v.hip)
}

impl CpcSketch {
    /// Writes the state of the sketch out for a reader.
    pub fn to_string(&self) -> (s: String)
        requires
            self.wf(),
        ensures
            s@ == dump_of(self@),
    {
        let mut out: String = String::new();
        out.append("### CPC sketch summary:\n");
        push_number_line(&mut out, "  lg k: ", self.get_lg_k() as u128);
        push_number_line(&mut out, "  seed: ", self.get_seed() as u128);
        push_number_line(&mut out, "  coupons: ", self.get_num_coupons() as u128);
        match self.get_flavor() {
            Flavor::Empty => out.append("  flavor: EMPTY\n"),
            Flavor::Sparse => out.append("  flavor: SPARSE\n"),
            Flavor::Hybrid => out.append("  flavor: HYBRID\n"),
            Flavor::Pinned => out.append("  flavor: PINNED\n"),
            Flavor::Sliding => out.append("  flavor: SLIDING\n"),
        }
        push_number_line(&mut out, "  window offset: ", self.get_window_offset() as u128);
        push_truth_line(&mut out, "  merged: ", self.is_merged());
        push_number_line(&mut out, "  kxp: ", self.get_kxp());
        push_number_line(&mut out, "  hip accumulator: ", self.get_hip_accum());
        proof {
            assert(out@ =~= dump_of(self@));
        }
        out
    }
}

} // verus!
