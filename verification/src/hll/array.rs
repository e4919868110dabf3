//! The bucket array with the statistics that are kept beside it.
//!
//! Beside the packed buckets stand the sum of their weights, the smallest
//! value that any bucket holds with the number of buckets that hold it, and
//! the accumulator of the HIP estimator. The first three follow from the
//! buckets and are brought up to date with every change.
use crate::hll::HllType;
use crate::hll::MAX_LG_CONFIG_K;
use crate::hll::MAX_VALUE;
use crate::hll::MIN_LG_CONFIG_K;
use crate::hll::bucket_count;
use crate::hll::model::count_at;
use crate::hll::model::hip_bound;
use crate::hll::model::hip_step;
use crate::hll::model::kxq_of;
use crate::hll::model::least_of;
use crate::hll::model::lemma_least;
use crate::hll::model::lemma_count_update;
use crate::hll::model::lemma_weight;
use crate::hll::model::lemma_weight_sum_bounds;
use crate::hll::model::lemma_weight_sum_update;
use crate::hll::model::lemma_zero_buckets;
use crate::hll::model::raised;
use crate::hll::model::weight;
use crate::hll::model::weight_sum;
use crate::hll::registers::Registers;
use vstd::arithmetic::div_mod::lemma_multiply_divide_le;
use vstd::arithmetic::power2::lemma2_to64;
use vstd::arithmetic::power2::lemma2_to64_rest;
use vstd::arithmetic::power2::lemma_pow2_adds;
use vstd::arithmetic::power2::pow2;
use vstd::prelude::*;

verus! {

/// How much room the accumulator bound leaves for the count of coupons that
/// a sketch brings along when it leaves the warm-up modes.
pub const HIP_SLACK: u128 = 0x2000_0000_0000;

/// Two to the power 63.
pub const TWO_63: u128 = 0x8000_0000_0000_0000;

/// The weight of a value.
pub fn weigh(v: u8) -> (w: u64)
    requires
        v <= MAX_VALUE,
    ensures
        w == weight(v),
        1 <= w <= 0x80_0000_0000,
{
    proof {
        lemma_weight(v);
        vstd::bits::lemma_u64_shl_is_mul(1u64, (MAX_VALUE - v) as u64);
    }
    1u64 << ((MAX_VALUE - v) as u64)
}

proof fn lemma_count_none(buckets: Seq<u8>, v: u8, n: int)
    requires
        0 <= n <= buckets.len(),
        forall|j: int| 0 <= j < n ==> buckets[j] != v,
    ensures
        count_at(buckets, v, n) == 0,
    decreases n,
{
    if n > 0 {
        lemma_count_none(buckets, v, n - 1);
    }
}

/// The facts about powers of two that the accumulator needs.
proof fn lemma_scale(lg_k: u8)
    requires
        MIN_LG_CONFIG_K <= lg_k <= MAX_LG_CONFIG_K,
    ensures
        128 <= pow2(lg_k as nat) <= 0x20_0000,
        pow2((lg_k + 39) as nat) == pow2(lg_k as nat) * 0x80_0000_0000,
        pow2((lg_k + 63) as nat) == pow2(lg_k as nat) * 0x8000_0000_0000_0000,
{
    Registers::lemma_bucket_count(lg_k);
    lemma2_to64_rest();
    lemma_pow2_adds(lg_k as nat, 39);
    lemma_pow2_adds(lg_k as nat, 63);
}

/// The smallest value among the buckets and the number of buckets that
/// hold it.
fn survey(regs: &Registers) -> (r: (u8, u32))
    requires
        regs.wf(),
    ensures
        r.0 <= MAX_VALUE,
        forall|i: int| 0 <= i < regs@.len() ==> regs@[i] >= r.0,
        r.1 == count_at(regs@, r.0, regs@.len() as int),
        r.1 > 0,
{
    proof {
        Registers::lemma_bucket_count(regs.lg_k());
    }
    let k: usize = bucket_count(regs.lg_k_exec()) as usize;
    let mut least: u8 = regs.get(0);
    let mut count: u32 = 1;
    let mut i: usize = 1;
    proof {
        lemma_count_none(regs@, least, 0);
    }
    while i < k
        invariant
            regs.wf(),
            k == regs@.len(),
            k <= 0x20_0000,
            1 <= i <= k,
            least <= MAX_VALUE,
            forall|j: int| 0 <= j < i ==> regs@[j] >= least,
            count == count_at(regs@, least, i as int),
            0 < count <= i,
        decreases k - i,
    {
        let v: u8 = regs.get(i);
        if v < least {
            proof {
                lemma_count_none(regs@, v, i as int);
            }
            least = v;
            count = 1;
        } else if v == least {
            count = count + 1;
        }
        i = i + 1;
    }
    (least, count)
}

/// The sum of the weights of the buckets.
fn weigh_all(regs: &Registers) -> (kxq: u64)
    requires
        regs.wf(),
    ensures
        kxq == kxq_of(regs@),
{
    proof {
        Registers::lemma_bucket_count(regs.lg_k());
    }
    let k: usize = bucket_count(regs.lg_k_exec()) as usize;
    let mut kxq: u64 = 0;
    let mut i: usize = 0;
    while i < k
        invariant
            regs.wf(),
            k == regs@.len(),
            k <= 0x20_0000,
            i <= k,
            kxq == weight_sum(regs@, i as int),
            kxq <= i * 0x80_0000_0000,
        decreases k - i,
    {
        let w: u64 = weigh(regs.get(i));
        kxq = kxq + w;
        i = i + 1;
    }
    kxq
}

/// The bucket array of a sketch with its running statistics.
pub struct HllArray {
    regs: Registers,
    cur_min: u8,
    num_at_cur_min: u32,
    kxq: u64,
    hip_accum: u128,
}

impl Clone for HllArray {
    /// A copy with the same buckets and the same accumulator.
    fn clone(&self) -> (copy: Self)
        ensures
            copy.kind() == self.kind(),
            copy.lg_k() == self.lg_k(),
            copy.buckets() == self.buckets(),
            copy.hip() == self.hip(),
            copy.registers().packed() == self.registers().packed(),
            copy.registers().base() == self.registers().base(),
            copy.registers().exceptions().cells() == self.registers().exceptions().cells(),
            self.wf() ==> copy.wf(),
    {
        HllArray {
            regs: self.regs.clone(),
            cur_min: self.cur_min,
            num_at_cur_min: self.num_at_cur_min,
            kxq: self.kxq,
            hip_accum: self.hip_accum,
        }
    }
}

impl HllArray {
    /// The packed buckets.
    pub closed spec fn registers(&self) -> Registers {
        self.regs
    }

    /// The values of the buckets.
    pub open spec fn buckets(&self) -> Seq<u8> {
        self.registers()@
    }

    /// The width of the packing.
    pub open spec fn kind(&self) -> HllType {
        self.registers().kind()
    }

    /// The binary logarithm of the number of buckets.
    pub open spec fn lg_k(&self) -> u8 {
        self.registers().lg_k()
    }

    /// The HIP accumulator, in units of `2^-24`.
    pub closed spec fn hip(&self) -> nat {
        self.hip_accum as nat
    }

    /// The sum of the weights that the array keeps.
    pub closed spec fn kept_kxq(&self) -> int {
        self.kxq as int
    }

    /// The smallest value that the array keeps.
    pub closed spec fn kept_min(&self) -> u8 {
        self.cur_min
    }

    /// The number of buckets at the smallest value that the array keeps.
    pub closed spec fn kept_num_at_min(&self) -> int {
        self.num_at_cur_min as int
    }

    /// Whether the statistics are those of the buckets.
    pub open spec fn stats_agree(&self) -> bool {
        &&& self.kept_kxq() == kxq_of(self.buckets())
        &&& self.kept_min() <= MAX_VALUE
        &&& forall|i: int| 0 <= i < self.buckets().len() ==> self.buckets()[i] >= self.kept_min()
        &&& self.kept_num_at_min() == count_at(
            self.buckets(),
            self.kept_min(),
            self.buckets().len() as int,
        )
        &&& self.kept_num_at_min() > 0
    }

    /// The invariant of the array.
    pub open spec fn wf(&self) -> bool {
        &&& self.registers().wf()
        &&& self.stats_agree()
        &&& self.kind() == HllType::HLL4 ==> self.registers().base() == self.kept_min()
        &&& self.hip() <= hip_bound(self.lg_k(), kxq_of(self.buckets()))
    }

    /// What follows from the invariant about the size of things.
    pub proof fn lemma_sizes(&self)
        requires
            self.wf(),
        ensures
            self.buckets().len() == pow2(self.lg_k() as nat),
            128 <= self.buckets().len() <= 0x20_0000,
            forall|i: int| 0 <= i < self.buckets().len() ==> self.buckets()[i] <= MAX_VALUE,
            self.buckets().len() <= kxq_of(self.buckets()) <= self.buckets().len()
                * 0x80_0000_0000,
            hip_bound(self.lg_k(), kxq_of(self.buckets())) < 0x1000_0000_0000_0000_0000_0000_0000_0000,
            self.kept_min() == least_of(self.buckets(), self.buckets().len() as int),
    {
        lemma_least(self.regs@, self.regs@.len() as int, self.cur_min);
        lemma_scale(self.regs.lg_k());
        self.regs.lemma_values();
        let b = self.regs@;
        lemma_weight_sum_bounds(b, b.len() as int);
    }

    /// An array of `2^lg_k` buckets that all hold 0.
    pub fn new(kind: HllType, lg_k: u8) -> (array: HllArray)
        requires
            MIN_LG_CONFIG_K <= lg_k <= MAX_LG_CONFIG_K,
        ensures
            array.wf(),
            array.kind() == kind,
            array.lg_k() == lg_k,
            array.buckets() == Seq::new(pow2(lg_k as nat), |i: int| 0u8),
            array.hip() == 0,
    {
        let regs: Registers = Registers::new(kind, lg_k);
        let k: u32 = bucket_count(lg_k);
        proof {
            lemma_scale(lg_k);
            lemma_zero_buckets(regs@, regs@.len() as int);
        }
        HllArray {
            regs,
            cur_min: 0,
            num_at_cur_min: k,
            kxq: (k as u64) * 0x80_0000_0000,
            hip_accum: 0,
        }
    }

    /// An array around packed buckets, with the given accumulator if the
    /// buckets admit it.
    pub fn from_registers(regs: Registers, hip: u128) -> (array: Option<HllArray>)
        requires
            regs.wf(),
        ensures
            match array {
                Some(a) => a.wf() && a.kind() == regs.kind() && a.lg_k() == regs.lg_k()
                    && a.buckets() == regs@ && a.hip() == hip,
                None => hip > hip_bound(regs.lg_k(), kxq_of(regs@)),
            },
    {
        let mut regs = regs;
        let kxq: u64 = weigh_all(&regs);
        let (least, count) = survey(&regs);
        match regs.kind_exec() {
            HllType::HLL4 => {
                if regs.base_exec() != least {
                    regs.rebase(least);
                }
            },
            _ => {},
        }
        let k: u32 = bucket_count(regs.lg_k_exec());
        proof {
            lemma_scale(regs.lg_k());
            regs.lemma_values();
            lemma_weight_sum_bounds(regs@, regs@.len() as int);
        }
        let room: u128 = ((k as u64) * 0x80_0000_0000 - kxq) as u128;
        let bound: u128 = room * TWO_63 + HIP_SLACK;
        if hip > bound {
            None
        } else {
            Some(HllArray { regs, cur_min: least, num_at_cur_min: count, kxq, hip_accum: hip })
        }
    }

    /// The packed buckets.
    pub fn regs(&self) -> (regs: &Registers)
        ensures
            *regs == self.registers(),
    {
        &self.regs
    }

    /// The value of bucket `slot`.
    pub fn get(&self, slot: usize) -> (v: u8)
        requires
            self.wf(),
            slot < self.buckets().len(),
        ensures
            v == self.buckets()[slot as int],
            v <= MAX_VALUE,
    {
        self.regs.get(slot)
    }

    /// The HIP accumulator, in units of `2^-24`.
    pub fn hip_accum(&self) -> (h: u128)
        ensures
            h == self.hip(),
    {
        self.hip_accum
    }

    /// The sum of the weights of the buckets, in units of `2^-39`.
    pub fn kxq(&self) -> (kxq: u64)
        requires
            self.wf(),
        ensures
            kxq == kxq_of(self.buckets()),
    {
        self.kxq
    }

    /// The smallest value that any bucket holds.
    pub fn cur_min(&self) -> (least: u8)
        requires
            self.wf(),
        ensures
            least <= MAX_VALUE,
            least == self.kept_min(),
            least == least_of(self.buckets(), self.buckets().len() as int),
            forall|i: int| 0 <= i < self.buckets().len() ==> self.buckets()[i] >= least,
            count_at(self.buckets(), least, self.buckets().len() as int) > 0,
    {
        proof {
            self.lemma_sizes();
        }
        self.cur_min
    }

    /// The number of buckets that hold the smallest value.
    pub fn num_at_cur_min(&self) -> (n: u32)
        requires
            self.wf(),
        ensures
            n == count_at(self.buckets(), self.kept_min(), self.buckets().len() as int),
            n > 0,
    {
        self.num_at_cur_min
    }

    /// The number of buckets that hold 0.
    pub fn zero_buckets(&self) -> (n: u32)
        requires
            self.wf(),
        ensures
            n == count_at(self.buckets(), 0, self.buckets().len() as int),
    {
        if self.cur_min == 0 {
            self.num_at_cur_min
        } else {
            proof {
                lemma_count_none(self.regs@, 0, self.regs@.len() as int);
            }
            0
        }
    }

    /// Puts the accumulator to a given value within its bound.
    pub fn set_hip(&mut self, hip: u128)
        requires
            old(self).wf(),
            hip <= hip_bound(old(self).lg_k(), kxq_of(old(self).buckets())),
        ensures
            final(self).wf(),
            final(self).registers() == old(self).registers(),
            final(self).hip() == hip,
    {
        self.hip_accum = hip;
    }

    /// A copy with the same buckets and the same accumulator, packed in
    /// another width.
    pub fn repacked(&self, kind: HllType) -> (copy: HllArray)
        requires
            self.wf(),
        ensures
            copy.wf(),
            copy.kind() == kind,
            copy.lg_k() == self.lg_k(),
            copy.buckets() == self.buckets(),
            copy.hip() == self.hip(),
    {
        let lg_k: u8 = self.regs.lg_k_exec();
        let mut copy: HllArray = HllArray::new(kind, lg_k);
        let k: usize = bucket_count(lg_k) as usize;
        let mut i: usize = 0;
        proof {
            self.lemma_sizes();
        }
        while i < k
            invariant
                self.wf(),
                copy.wf(),
                copy.kind() == kind,
                copy.lg_k() == self.lg_k(),
                copy.hip() == 0,
                k == self.buckets().len(),
                k == copy.buckets().len(),
                i <= k,
                forall|j: int| 0 <= j < i ==> copy.buckets()[j] == self.buckets()[j],
                forall|j: int| i <= j < k ==> copy.buckets()[j] == 0,
            decreases k - i,
        {
            let v: u8 = self.regs.get(i);
            let _ = copy.lift(i, v, false);
            i = i + 1;
        }
        proof {
            assert(copy.buckets() =~= self.buckets());
        }
        copy.set_hip(self.hip_accum);
        copy
    }

    /// Shows bucket `slot` the value `v`: the bucket is raised to it if it
    /// held less. With `step`, a raise also feeds the accumulator, from the
    /// sum of the weights as it was before the raise.
    pub fn lift(&mut self, slot: usize, v: u8, step: bool) -> (changed: bool)
        requires
            old(self).wf(),
            slot < old(self).buckets().len(),
            v <= MAX_VALUE,
        ensures
            final(self).wf(),
            final(self).kind() == old(self).kind(),
            final(self).lg_k() == old(self).lg_k(),
            changed == (old(self).buckets()[slot as int] < v),
            final(self).buckets() == raised(old(self).buckets(), slot as int, v),
            final(self).hip() == old(self).hip() + if changed && step {
                hip_step(old(self).lg_k(), kxq_of(old(self).buckets()))
            } else {
                0
            },
    {
        let held: u8 = self.regs.get(slot);
        if v <= held {
            return false;
        }
        let ghost before = self.regs@;
        let ghost n = before.len() as int;
        proof {
            self.lemma_sizes();
            lemma_scale(self.regs.lg_k());
            lemma_weight(held);
            lemma_weight(v);
            lemma_weight_sum_update(before, slot as int, v, n);
            lemma_weight_sum_update(before, slot as int, MAX_VALUE, n);
            lemma_count_update(before, slot as int, v, self.cur_min, n);
            assert forall|i: int| 0 <= i < n implies #[trigger] before.update(slot as int, v)[i]
                <= MAX_VALUE by {}
            assert forall|i: int| 0 <= i < n implies #[trigger] before.update(
                slot as int,
                MAX_VALUE,
            )[i] <= MAX_VALUE by {}
            lemma2_to64();
            assert(weight(MAX_VALUE) == 1);
            lemma_weight_sum_bounds(before.update(slot as int, MAX_VALUE), n);
            lemma_weight_sum_bounds(before.update(slot as int, v), n);
        }
        if step {
            let k: u32 = bucket_count(self.regs.lg_k_exec());
            let top: u128 = (k as u128) * TWO_63;
            let inc: u128 = top / (self.kxq as u128);
            proof {
                lemma_multiply_divide_le(top as int, self.kxq as int, TWO_63 as int);
                assert(hip_step(self.regs.lg_k(), kxq_of(before)) == inc);
            }
            self.hip_accum = self.hip_accum + inc;
        }
        self.kxq = self.kxq - weigh(held) + weigh(v);
        self.regs.raise(slot, v);
        if held == self.cur_min {
            self.num_at_cur_min = self.num_at_cur_min - 1;
            if self.num_at_cur_min == 0 {
                let (least, count) = survey(&self.regs);
                self.cur_min = least;
                self.num_at_cur_min = count;
                match self.regs.kind_exec() {
                    HllType::HLL4 => self.regs.rebase(least),
                    _ => {},
                }
            }
        }
        true
    }
}

} // verus!
