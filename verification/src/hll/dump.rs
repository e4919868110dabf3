//! The state of a sketch written out for a reader.
//!
//! The dump has up to three parts: a summary, the data, and the values that
//! a sketch of four-bit buckets keeps as exceptions. Coupons are listed in
//! rising order, buckets in the order of their numbers, so that sketches in
//! the same state give the same dump.
use crate::hll::HllMode;
use crate::hll::HllType;
use crate::hll::array::HllArray;
use crate::hll::bucket_count;
use crate::hll::coupon_address;
use crate::hll::coupon_value;
use crate::hll::model::HllView;
use crate::hll::model::count_at;
use crate::hll::model::kxq_of;
use crate::hll::model::least_of;
use crate::hll::registers::EXCEPTION;
use crate::hll::sketch::HllSketch;
use crate::sort::rising_from_list;
use crate::sort::rising_from_table;
use crate::sort::rising_of;
use crate::table::ADDRESS_SPAN;
use crate::text::number_line;
use crate::text::pair_line;
use crate::text::push_number_line;
use crate::text::push_pair_line;
use crate::text::push_truth_line;
use crate::text::truth_line;
use vstd::prelude::*;
use vstd::string::StringExecFns;

verus! {

/// The name of a bucket width.
pub open spec fn width_line(t: HllType) -> Seq<char> {
    match t {
        HllType::HLL4 => "  target type: HLL_4\n"@,
        HllType::HLL6 => "  target type: HLL_6\n"@,
        HllType::HLL8 => "  target type: HLL_8\n"@,
    }
}

/// The name of a mode.
pub open spec fn mode_line(m: HllMode) -> Seq<char> {
    match m {
        HllMode::List => "  mode: LIST\n"@,
        HllMode::CouponSet => "  mode: SET\n"@,
        HllMode::Hll => "  mode: HLL\n"@,
    }
}

/// The numbers that the estimate of a sketch follows from.
pub open spec fn summary_numbers(v: HllView) -> Seq<char> {
    if v.holds_coupons() {
        number_line("  coupons: "@, v.coupons.len())
    } else {
        number_line("  hip accumulator: "@, v.hip) + number_line(
            "  kxq: "@,
            kxq_of(v.buckets) as nat,
        ) + number_line("  zero buckets: "@, count_at(v.buckets, 0, v.buckets.len() as int) as nat)
    }
}

/// The start of the summary: what kind of sketch this is.
pub open spec fn summary_head(v: HllView) -> Seq<char> {
    "### HLL sketch summary:\n"@ + number_line("  lg config k: "@, v.lg_config_k as nat)
        + width_line(v.tgt_type) + mode_line(v.mode)
}

/// The middle of the summary: the flags.
pub open spec fn summary_flags(v: HllView) -> Seq<char> {
    truth_line("  out of order: "@, v.ooo) + truth_line("  empty: "@, v.is_empty())
}

/// The summary of a sketch.
pub open spec fn summary_of(v: HllView) -> Seq<char> {
    summary_head(v) + summary_flags(v) + summary_numbers(v)
}

/// The first `n` coupons of a sequence, a line each: the address and the
/// value.
pub open spec fn coupon_lines(coupons: Seq<u32>, n: nat) -> Seq<char>
    decreases n,
{
    if n == 0 {
        Seq::empty()
    } else {
        coupon_lines(coupons, (n - 1) as nat) + pair_line(
            coupon_address(coupons[n - 1]) as nat,
            coupon_value(coupons[n - 1]) as nat,
        )
    }
}

/// Those of the first `n` buckets that hold at least `least`, a line each:
/// the number of the bucket and its value.
pub open spec fn bucket_lines(buckets: Seq<u8>, n: nat, least: u8) -> Seq<char>
    decreases n,
{
    if n == 0 {
        Seq::empty()
    } else if buckets[n - 1] >= least {
        bucket_lines(buckets, (n - 1) as nat, least) + pair_line(
            (n - 1) as nat,
            buckets[n - 1] as nat,
        )
    } else {
        bucket_lines(buckets, (n - 1) as nat, least)
    }
}

/// The data of a sketch: its coupons, or its buckets, those at 0 only if
/// `all` are asked for.
pub open spec fn detail_of(v: HllView, all: bool) -> Seq<char> {
    "### HLL sketch data detail:\n"@ + if v.holds_coupons() {
        coupon_lines(rising_of(v.coupons), v.coupons.len())
    } else {
        bucket_lines(
            v.buckets,
            v.buckets.len(),
            if all {
                0
            } else {
                1
            },
        )
    }
}

/// The values that do not fit in four bits, for a sketch of four-bit
/// buckets in bucket mode: those that are 15 or more above the smallest.
/// Nothing for another sketch.
pub open spec fn aux_detail_of(v: HllView) -> Seq<char> {
    if v.mode == HllMode::Hll && v.tgt_type == HllType::HLL4 {
        "### HLL sketch aux detail:\n"@ + bucket_lines(
            v.buckets,
            v.buckets.len(),
            (least_of(v.buckets, v.buckets.len() as int) + EXCEPTION) as u8,
        )
    } else {
        Seq::empty()
    }
}

/// The dump of a sketch with the parts that are asked for.
pub open spec fn dump_of(v: HllView, summary: bool, detail: bool, aux_detail: bool, all: bool) -> Seq<
    char,
> {
    (if summary {
        summary_of(v)
    } else {
        Seq::empty()
    }) + (if detail {
        detail_of(v, all)
    } else {
        Seq::empty()
    }) + (if aux_detail {
        aux_detail_of(v)
    } else {
        Seq::empty()
    })
}

/// Appends a line for each coupon of a sequence.
fn push_coupons(out: &mut String, coupons: &Vec<u32>)
    ensures
        final(out)@ == old(out)@ + coupon_lines(coupons@, coupons@.len()),
{
    let n: usize = coupons.len();
    let mut i: usize = 0;
    proof {
        assert(out@ =~= old(out)@ + coupon_lines(coupons@, 0));
    }
    while i < n
        invariant
            n == coupons@.len(),
            i <= n,
            out@ == old(out)@ + coupon_lines(coupons@, i as nat),
        decreases n - i,
    {
        let c: u32 = coupons[i];
        push_pair_line(out, (c % ADDRESS_SPAN) as u128, (c / ADDRESS_SPAN) as u128);
        proof {
            assert(out@ =~= old(out)@ + coupon_lines(coupons@, (i + 1) as nat));
        }
        i = i + 1;
    }
}

/// Appends a line for each bucket of an array that holds at least
/// `least`.
fn push_buckets(out: &mut String, array: &HllArray, least: u8)
    requires
        array.wf(),
    ensures
        final(out)@ == old(out)@ + bucket_lines(array.buckets(), array.buckets().len(), least),
{
    proof {
        array.lemma_sizes();
    }
    let n: usize = bucket_count(array.regs().lg_k_exec()) as usize;
    let mut i: usize = 0;
    proof {
        assert(out@ =~= old(out)@ + bucket_lines(array.buckets(), 0, least));
    }
    while i < n
        invariant
            array.wf(),
            n == array.buckets().len(),
            i <= n,
            out@ == old(out)@ + bucket_lines(array.buckets(), i as nat, least),
        decreases n - i,
    {
        let v: u8 = array.get(i);
        if v >= least {
            push_pair_line(out, i as u128, v as u128);
        }
        proof {
            assert(out@ =~= old(out)@ + bucket_lines(array.buckets(), (i + 1) as nat, least));
        }
        i = i + 1;
    }
}

impl HllSketch {
    /// Appends the start of the summary.
    fn push_summary_head(&self, out: &mut String)
        ensures
            final(out)@ == old(out)@ + summary_head(self@),
    {
        out.append("### HLL sketch summary:\n");
        push_number_line(out, "  lg config k: ", self.get_lg_config_k() as u128);
        match self.get_target_type() {
            HllType::HLL4 => out.append("  target type: HLL_4\n"),
            HllType::HLL6 => out.append("  target type: HLL_6\n"),
            HllType::HLL8 => out.append("  target type: HLL_8\n"),
        }
        match self.get_mode() {
            HllMode::List => out.append("  mode: LIST\n"),
            HllMode::CouponSet => out.append("  mode: SET\n"),
            HllMode::Hll => out.append("  mode: HLL\n"),
        }
        proof {
            assert(out@ =~= old(out)@ + summary_head(self@));
        }
    }

    /// Appends the flags of the summary.
    fn push_summary_flags(&self, out: &mut String)
        requires
            self.wf(),
        ensures
            final(out)@ == old(out)@ + summary_flags(self@),
    {
        push_truth_line(out, "  out of order: ", self.is_out_of_order());
        push_truth_line(out, "  empty: ", self.is_empty());
        proof {
            assert(out@ =~= old(out)@ + summary_flags(self@));
        }
    }

    /// Appends the numbers of the summary.
    fn push_summary_numbers(&self, out: &mut String)
        requires
            self.wf(),
        ensures
            final(out)@ == old(out)@ + summary_numbers(self@),
    {
        proof {
            self.lemma_parts();
        }
        match self.array_ref() {
            None => {
                push_number_line(out, "  coupons: ", self.coupon_count() as u128);
            },
            Some(array) => {
                proof {
                    array.lemma_sizes();
                }
                push_number_line(out, "  hip accumulator: ", array.hip_accum());
                push_number_line(out, "  kxq: ", array.kxq() as u128);
                push_number_line(out, "  zero buckets: ", array.zero_buckets() as u128);
                proof {
                    assert(out@ =~= old(out)@ + summary_numbers(self@));
                }
            },
        }
    }

    /// Appends the summary.
    fn push_summary(&self, out: &mut String)
        requires
            self.wf(),
        ensures
            final(out)@ == old(out)@ + summary_of(self@),
    {
        self.push_summary_head(out);
        self.push_summary_flags(out);
        self.push_summary_numbers(out);
        proof {
            assert(out@ =~= old(out)@ + summary_of(self@));
        }
    }

    /// Appends the data.
    fn push_detail(&self, out: &mut String, all: bool)
        requires
            self.wf(),
        ensures
            final(out)@ == old(out)@ + detail_of(self@, all),
    {
        proof {
            self.lemma_parts();
            self.lemma_valid();
        }
        out.append("### HLL sketch data detail:\n");
        match self.array_ref() {
            Some(array) => push_buckets(
                out,
                array,
                if all {
                    0
                } else {
                    1
                },
            ),
            None => {
                let coupons: Vec<u32> = match self.get_mode() {
                    HllMode::List => rising_from_list(self.list_ref()),
                    _ => rising_from_table(self.table_ref()),
                };
                proof {
                    assert(coupons@.no_duplicates()) by {
                        assert forall|i: int, j: int|
                            0 <= i < coupons@.len() && 0 <= j < coupons@.len() && i
                                != j implies coupons@[i] != coupons@[j] by {
                            if i < j {
                                assert(coupons@[i] < coupons@[j]);
                            } else {
                                assert(coupons@[j] < coupons@[i]);
                            }
                        }
                    }
                    coupons@.unique_seq_to_set();
                }
                push_coupons(out, &coupons);
            },
        }
        proof {
            assert(out@ =~= old(out)@ + detail_of(self@, all));
        }
    }

    /// Appends the exceptions.
    fn push_aux_detail(&self, out: &mut String)
        requires
            self.wf(),
        ensures
            final(out)@ == old(out)@ + aux_detail_of(self@),
    {
        proof {
            self.lemma_parts();
        }
        match (self.array_ref(), self.get_target_type()) {
            (Some(array), HllType::HLL4) => {
                out.append("### HLL sketch aux detail:\n");
                push_buckets(out, array, array.cur_min() + EXCEPTION);
                proof {
                    assert(out@ =~= old(out)@ + aux_detail_of(self@));
                }
            },
            _ => {
                proof {
                    assert(out@ =~= old(out)@ + aux_detail_of(self@));
                }
            },
        }
    }

    /// Writes the state of the sketch out for a reader: the summary, the
    /// data and the exceptions, as far as they are asked for. With `all`,
    /// the data of a sketch in bucket mode lists the buckets at 0 too.
    pub fn to_string(&self, summary: bool, detail: bool, aux_detail: bool, all: bool) -> (s: String)
        requires
            self.wf(),
        ensures
            s@ == dump_of(self@, summary, detail, aux_detail, all),
    {
        let mut out: String = String::new();
        if summary {
            self.push_summary(&mut out);
        }
        if detail {
            self.push_detail(&mut out, all);
        }
        if aux_detail {
            self.push_aux_detail(&mut out);
        }
        proof {
            assert(out@ =~= dump_of(self@, summary, detail, aux_detail, all));
        }
        out
    }
}

} // verus!
