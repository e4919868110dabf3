//! The union of HyperLogLog sketches.
use crate::error::SketchError;
use crate::hash::DEFAULT_SEED;
use crate::hash::hash_of_bytes;
use crate::hash::hash_of_word;
use crate::hash::signed16;
use crate::hash::signed32;
use crate::hash::signed8;
use crate::hash::word_of_i64;
use crate::hll::DEFAULT_LG_CONFIG_K;
use crate::hll::HllMode;
use crate::hll::HllType;
use crate::hll::MAX_LG_CONFIG_K;
use crate::hll::MIN_LG_CONFIG_K;
use crate::hll::array::HllArray;
use crate::hll::bucket_count;
use crate::hll::coupon_of_hash;
use crate::hll::estimate::HllBound;
use crate::hll::estimate::HllEstimate;
use crate::hll::model::HllView;
use crate::hll::model::bucket_image;
use crate::hll::model::folded;
use crate::hll::model::folded_upto;
use crate::hll::model::holds_all;
use crate::hll::model::joined;
use crate::hll::model::lemma_absorb_holds;
use crate::hll::model::lemma_folded_upto;
use crate::hll::model::lemma_image_empty;
use crate::hll::model::lemma_image_insert;
use crate::hll::model::lemma_image_union;
use crate::hll::model::lemma_image_values;
use crate::hll::model::lemma_joined;
use crate::hll::model::lemma_joined_raised;
use crate::hll::sketch::HllSketch;
use crate::hll::valid_coupon;
use crate::table::ADDRESS_SPAN;
use crate::table::EMPTY;
use crate::table::PairTable;
use crate::table::gathered;
use vstd::arithmetic::power2::pow2;
use vstd::prelude::*;
use vstd::seq_lib::seq_to_set_is_finite;
use vstd::string::StringSliceAdditionalSpecFns;

verus! {

/// Shows an array the coupons of a list.
fn pour_list(array: &mut HllArray, list: &Vec<u32>)
    requires
        old(array).wf(),
        forall|i: int| 0 <= i < list@.len() ==> valid_coupon(list@[i]),
    ensures
        final(array).wf(),
        final(array).kind() == old(array).kind(),
        final(array).lg_k() == old(array).lg_k(),
        final(array).hip() == old(array).hip(),
        final(array).buckets() == joined(
            old(array).buckets(),
            bucket_image(list@.to_set(), old(array).lg_k()),
        ),
{
    let lg_k: u8 = array.regs().lg_k_exec();
    let k: u32 = bucket_count(lg_k);
    let n: usize = list.len();
    let mut i: usize = 0;
    proof {
        array.lemma_sizes();
        lemma_image_empty(lg_k);
        lemma_joined(array.buckets(), array.buckets());
        assert(list@.take(0).to_set() =~= Set::<u32>::empty());
    }
    while i < n
        invariant
            array.wf(),
            array.kind() == old(array).kind(),
            array.lg_k() == lg_k,
            lg_k == old(array).lg_k(),
            array.hip() == old(array).hip(),
            k == pow2(lg_k as nat),
            k == old(array).buckets().len(),
            n == list@.len(),
            i <= n,
            forall|i: int| 0 <= i < list@.len() ==> valid_coupon(list@[i]),
            array.buckets() == joined(
                old(array).buckets(),
                bucket_image(list@.take(i as int).to_set(), lg_k),
            ),
        decreases n - i,
    {
        let coupon: u32 = list[i];
        proof {
            array.lemma_sizes();
            let seen = list@.take(i as int).to_set();
            assert(list@.take(i as int + 1) =~= list@.take(i as int).push(coupon));
            list@.take(i as int).lemma_push_to_set_commute(coupon);
            lemma_image_insert(seen, lg_k, coupon);
            lemma_image_values(seen, lg_k);
            lemma_joined_raised(
                old(array).buckets(),
                bucket_image(seen, lg_k),
                (coupon % k) as int,
                (coupon / ADDRESS_SPAN) as u8,
            );
        }
        let _ = array.lift((coupon % k) as usize, (coupon / ADDRESS_SPAN) as u8, false);
        i = i + 1;
    }
    proof {
        assert(list@.take(n as int) =~= list@);
    }
}

/// Shows an array the coupons of a hash set.
fn pour_table(array: &mut HllArray, table: &PairTable)
    requires
        old(array).wf(),
        table.wf(),
        forall|e: u32| table.contains(e) ==> valid_coupon(e),
    ensures
        final(array).wf(),
        final(array).kind() == old(array).kind(),
        final(array).lg_k() == old(array).lg_k(),
        final(array).hip() == old(array).hip(),
        final(array).buckets() == joined(
            old(array).buckets(),
            bucket_image(table.entries(), old(array).lg_k()),
        ),
{
    let lg_k: u8 = array.regs().lg_k_exec();
    let k: u32 = bucket_count(lg_k);
    let n: usize = table.capacity();
    let mut i: usize = 0;
    proof {
        array.lemma_sizes();
        lemma_image_empty(lg_k);
        lemma_joined(array.buckets(), array.buckets());
    }
    while i < n
        invariant
            array.wf(),
            array.kind() == old(array).kind(),
            array.lg_k() == lg_k,
            lg_k == old(array).lg_k(),
            array.hip() == old(array).hip(),
            k == pow2(lg_k as nat),
            k == old(array).buckets().len(),
            n == table.cells().len(),
            i <= n,
            forall|e: u32| table.contains(e) ==> valid_coupon(e),
            array.buckets() == joined(
                old(array).buckets(),
                bucket_image(gathered(table.cells(), i as int), lg_k),
            ),
        decreases n - i,
    {
        let entry: u32 = table.slot(i);
        if entry != EMPTY {
            proof {
                array.lemma_sizes();
                let seen = gathered(table.cells(), i as int);
                assert(table.cells()[i as int] == entry);
                assert(table.contains(entry));
                assert(valid_coupon(entry));
                lemma_image_insert(seen, lg_k, entry);
                lemma_image_values(seen, lg_k);
                lemma_joined_raised(
                    old(array).buckets(),
                    bucket_image(seen, lg_k),
                    (entry % k) as int,
                    (entry / ADDRESS_SPAN) as u8,
                );
            }
            let _ = array.lift((entry % k) as usize, (entry / ADDRESS_SPAN) as u8, false);
        }
        i = i + 1;
    }
    proof {
        table.lemma_gathered_entries();
    }
}

/// Shows an array the buckets of an array that has no fewer buckets, each
/// folded onto the bucket it falls on.
fn pour_array(array: &mut HllArray, src: &HllArray)
    requires
        old(array).wf(),
        src.wf(),
        old(array).lg_k() <= src.lg_k(),
    ensures
        final(array).wf(),
        final(array).kind() == old(array).kind(),
        final(array).lg_k() == old(array).lg_k(),
        final(array).hip() == old(array).hip(),
        final(array).buckets() == joined(
            old(array).buckets(),
            folded(src.buckets(), old(array).lg_k()),
        ),
{
    let lg_k: u8 = array.regs().lg_k_exec();
    let k: usize = bucket_count(lg_k) as usize;
    let n: usize = bucket_count(src.regs().lg_k_exec()) as usize;
    let mut i: usize = 0;
    proof {
        array.lemma_sizes();
        src.lemma_sizes();
        lemma_joined(array.buckets(), array.buckets());
    }
    while i < n
        invariant
            array.wf(),
            src.wf(),
            array.kind() == old(array).kind(),
            array.lg_k() == lg_k,
            lg_k == old(array).lg_k(),
            array.hip() == old(array).hip(),
            k == pow2(lg_k as nat),
            k == old(array).buckets().len(),
            k > 0,
            n == src.buckets().len(),
            i <= n,
            forall|j: int| 0 <= j < src.buckets().len() ==> src.buckets()[j] <= crate::hll::MAX_VALUE,
            array.buckets() == joined(
                old(array).buckets(),
                folded_upto(src.buckets(), lg_k, i as nat),
            ),
        decreases n - i,
    {
        let v: u8 = src.get(i);
        proof {
            array.lemma_sizes();
            lemma_folded_upto(src.buckets(), lg_k, i as nat);
            lemma_joined_raised(
                old(array).buckets(),
                folded_upto(src.buckets(), lg_k, i as nat),
                (i % k) as int,
                v,
            );
        }
        let _ = array.lift(i % k, v, false);
        i = i + 1;
    }
}

/// Shows an array what a sketch has seen.
fn pour_sketch(array: &mut HllArray, sketch: &HllSketch)
    requires
        old(array).wf(),
        sketch.wf(),
        old(array).lg_k() <= sketch@.lg_config_k,
    ensures
        final(array).wf(),
        final(array).kind() == old(array).kind(),
        final(array).lg_k() == old(array).lg_k(),
        final(array).hip() == old(array).hip(),
        final(array).buckets() == joined(
            old(array).buckets(),
            sketch@.buckets_at(old(array).lg_k()),
        ),
{
    proof {
        sketch.lemma_parts();
    }
    match sketch.array_ref() {
        Some(src) => pour_array(array, src),
        None => match sketch.get_mode() {
            HllMode::List => pour_list(array, sketch.list_ref()),
            _ => pour_table(array, sketch.table_ref()),
        },
    }
}

/// Shows a sketch the coupons of a list.
fn feed_list(target: &mut HllSketch, list: &Vec<u32>, Ghost(before): Ghost<Set<u32>>)
    requires
        old(target).wf(),
        holds_all(old(target)@, before),
        forall|i: int| 0 <= i < list@.len() ==> valid_coupon(list@[i]),
    ensures
        final(target).wf(),
        final(target)@.lg_config_k == old(target)@.lg_config_k,
        final(target)@.tgt_type == old(target)@.tgt_type,
        holds_all(final(target)@, before.union(list@.to_set())),
{
    broadcast use seq_to_set_is_finite;

    let n: usize = list.len();
    let mut i: usize = 0;
    proof {
        assert(list@.take(0).to_set() =~= Set::<u32>::empty());
        assert(before.union(Set::<u32>::empty()) =~= before);
    }
    while i < n
        invariant
            target.wf(),
            target@.lg_config_k == old(target)@.lg_config_k,
            target@.tgt_type == old(target)@.tgt_type,
            n == list@.len(),
            i <= n,
            forall|i: int| 0 <= i < list@.len() ==> valid_coupon(list@[i]),
            holds_all(target@, before.union(list@.take(i as int).to_set())),
        decreases n - i,
    {
        let coupon: u32 = list[i];
        proof {
            let seen = list@.take(i as int).to_set();
            assert(list@.take(i as int + 1) =~= list@.take(i as int).push(coupon));
            list@.take(i as int).lemma_push_to_set_commute(coupon);
            lemma_absorb_holds(target@, before.union(seen), coupon);
            assert(before.union(seen).insert(coupon) =~= before.union(seen.insert(coupon)));
        }
        target.update_coupon(coupon);
        i = i + 1;
    }
    proof {
        assert(list@.take(n as int) =~= list@);
    }
}

/// Shows a sketch the coupons of a hash set.
fn feed_table(target: &mut HllSketch, table: &PairTable, Ghost(before): Ghost<Set<u32>>)
    requires
        old(target).wf(),
        holds_all(old(target)@, before),
        table.wf(),
        forall|e: u32| table.contains(e) ==> valid_coupon(e),
    ensures
        final(target).wf(),
        final(target)@.lg_config_k == old(target)@.lg_config_k,
        final(target)@.tgt_type == old(target)@.tgt_type,
        holds_all(final(target)@, before.union(table.entries())),
{
    let n: usize = table.capacity();
    let mut i: usize = 0;
    proof {
        table.lemma_gathered_entries();
        assert(before.union(Set::<u32>::empty()) =~= before);
    }
    while i < n
        invariant
            target.wf(),
            target@.lg_config_k == old(target)@.lg_config_k,
            target@.tgt_type == old(target)@.tgt_type,
            n == table.cells().len(),
            i <= n,
            forall|e: u32| table.contains(e) ==> valid_coupon(e),
            holds_all(target@, before.union(gathered(table.cells(), i as int))),
        decreases n - i,
    {
        let entry: u32 = table.slot(i);
        if entry != EMPTY {
            proof {
                let seen = gathered(table.cells(), i as int);
                assert(table.cells()[i as int] == entry);
                assert(table.contains(entry));
                assert(valid_coupon(entry));
                lemma_absorb_holds(target@, before.union(seen), entry);
                assert(before.union(seen).insert(entry) =~= before.union(seen.insert(entry)));
            }
            target.update_coupon(entry);
        }
        i = i + 1;
    }
}

/// Shows a sketch the coupons of a sketch in one of the warm-up modes.
fn feed_sketch(target: &mut HllSketch, src: &HllSketch, Ghost(before): Ghost<Set<u32>>)
    requires
        old(target).wf(),
        holds_all(old(target)@, before),
        src.wf(),
        src@.holds_coupons(),
    ensures
        final(target).wf(),
        final(target)@.lg_config_k == old(target)@.lg_config_k,
        final(target)@.tgt_type == old(target)@.tgt_type,
        holds_all(final(target)@, before.union(src@.coupons)),
{
    proof {
        src.lemma_parts();
    }
    match src.get_mode() {
        HllMode::List => feed_list(target, src.list_ref(), Ghost(before)),
        _ => feed_table(target, src.table_ref(), Ghost(before)),
    }
}

/// The sketch that a union holding `held` becomes when it is shown `src`.
fn combine(held: &HllSketch, src: &HllSketch) -> (r: HllSketch)
    requires
        held.wf(),
        src.wf(),
    ensures
        r.wf(),
        r@ == held@.combined(src@),
{
    let lg_k: u8 = if src.get_lg_config_k() < held.get_lg_config_k() {
        src.get_lg_config_k()
    } else {
        held.get_lg_config_k()
    };
    let kind: HllType = held.get_target_type();
    proof {
        held.lemma_parts();
        src.lemma_parts();
        held.lemma_valid();
        src.lemma_valid();
    }
    let both_hold_coupons: bool = match (held.get_mode(), src.get_mode()) {
        (HllMode::Hll, _) => false,
        (_, HllMode::Hll) => false,
        _ => true,
    };
    if both_hold_coupons {
        let mut target: HllSketch = HllSketch::new(lg_k, kind, false).unwrap();
        proof {
            assert(Set::<u32>::empty().union(held@.coupons) =~= held@.coupons);
        }
        feed_sketch(&mut target, held, Ghost(Set::<u32>::empty()));
        feed_sketch(&mut target, src, Ghost(held@.coupons));
        proof {
            target.lemma_valid();
            lemma_image_union(held@.coupons, src@.coupons, lg_k);
        }
        match target.get_mode() {
            HllMode::Hll => target.set_merged(),
            _ => {},
        }
        target
    } else {
        let mut array: HllArray = HllArray::new(kind, lg_k);
        proof {
            array.lemma_sizes();
        }
        pour_sketch(&mut array, held);
        pour_sketch(&mut array, src);
        proof {
            lemma_pow2_pos_len(held@, lg_k);
            lemma_pow2_pos_len(src@, lg_k);
            lemma_joined(held@.buckets_at(lg_k), src@.buckets_at(lg_k));
            lemma_joined(held@.buckets_at(lg_k), held@.buckets_at(lg_k));
        }
        HllSketch::from_array(array, true)
    }
}

/// What a sketch has seen, as `2^lg_k` buckets, is `2^lg_k` buckets.
proof fn lemma_pow2_pos_len(v: HllView, lg_k: u8)
    requires
        v.valid(),
    ensures
        v.buckets_at(lg_k).len() == pow2(lg_k as nat),
{
    if v.holds_coupons() {
        lemma_image_values(v.coupons, lg_k);
    } else {
        lemma_folded_upto(v.buckets, lg_k, v.buckets.len());
    }
}

/// The union of HyperLogLog sketches: it is shown sketches, and items, and
/// hands out a sketch of all it was shown.
///
/// The union is made for at most `2^lg_max_k` buckets. A sketch with fewer
/// buckets brings the union down to its number, for good.
pub struct HllUnion {
    lg_max_k: u8,
    gadget: HllSketch,
}

impl View for HllUnion {
    type V = HllView;

    /// The state of the sketch that the union holds.
    closed spec fn view(&self) -> HllView {
        self.gadget@
    }
}

impl HllUnion {
    /// The largest binary logarithm of the number of buckets.
    pub closed spec fn lg_max_k(&self) -> u8 {
        self.lg_max_k
    }

    /// The invariant of the union.
    pub closed spec fn wf(&self) -> bool {
        &&& MIN_LG_CONFIG_K <= self.lg_max_k <= MAX_LG_CONFIG_K
        &&& self.gadget.wf()
        &&& self.gadget@.tgt_type == HllType::HLL8
        &&& self.gadget@.lg_config_k <= self.lg_max_k
    }

    /// The sketch that a well-formed union holds is in a valid state, has
    /// buckets of eight bits, and no more of them than the union allows.
    pub proof fn lemma_valid(&self)
        requires
            self.wf(),
        ensures
            self@.valid(),
            self@.tgt_type == HllType::HLL8,
            self@.lg_config_k <= self.lg_max_k(),
            MIN_LG_CONFIG_K <= self.lg_max_k() <= MAX_LG_CONFIG_K,
    {
        self.gadget.lemma_valid();
    }

    /// Creates a union for at most `2^lg_max_k` buckets.
    pub fn new(lg_max_k: u8) -> (r: Result<HllUnion, SketchError>)
        ensures
            match r {
                Ok(u) => {
                    &&& MIN_LG_CONFIG_K <= lg_max_k <= MAX_LG_CONFIG_K
                    &&& u.wf()
                    &&& u.lg_max_k() == lg_max_k
                    &&& u@ == HllView::empty(lg_max_k, HllType::HLL8)
                },
                Err(e) => {
                    &&& e == SketchError::InvalidConfig
                    &&& !(MIN_LG_CONFIG_K <= lg_max_k <= MAX_LG_CONFIG_K)
                },
            },
    {
        match HllSketch::new(lg_max_k, HllType::HLL8, false) {
            Ok(gadget) => Ok(HllUnion { lg_max_k, gadget }),
            Err(e) => Err(e),
        }
    }

    /// Shows the union a sketch.
    pub fn update_sketch(&mut self, sketch: &HllSketch)
        requires
            old(self).wf(),
            sketch.wf(),
        ensures
            final(self).wf(),
            final(self).lg_max_k() == old(self).lg_max_k(),
            final(self)@ == old(self)@.merged(sketch@),
    {
        if sketch.is_empty() {
            return;
        }
        proof {
            sketch.lemma_parts();
        }
        if self.gadget.is_empty() {
            match sketch.get_mode() {
                HllMode::Hll => {
                    if sketch.get_lg_config_k() <= self.gadget.get_lg_config_k() {
                        self.gadget = sketch.clone_with_type(HllType::HLL8);
                        return;
                    }
                },
                _ => {},
            }
        }
        self.gadget = combine(&self.gadget, sketch);
    }

    /// A sketch of all that the union was shown, with buckets of the given
    /// width. The union is not changed and can be shown more.
    pub fn get_result(&self, tgt_type: HllType) -> (sketch: HllSketch)
        requires
            self.wf(),
        ensures
            sketch.wf(),
            sketch@ == (HllView { tgt_type, ..self@ }),
    {
        self.gadget.clone_with_type(tgt_type)
    }

    /// Forgets everything: the union is as it was made.
    pub fn reset(&mut self)
        requires
            old(self).wf(),
        ensures
            final(self).wf(),
            final(self).lg_max_k() == old(self).lg_max_k(),
            final(self)@ == HllView::empty(old(self).lg_max_k(), HllType::HLL8),
    {
        self.gadget = HllSketch::new(self.lg_max_k, HllType::HLL8, false).unwrap();
    }

    /// The binary logarithm of the number of buckets that the union has
    /// now.
    pub fn get_lg_config_k(&self) -> (lg_k: u8)
        ensures
            lg_k == self@.lg_config_k,
    {
        self.gadget.get_lg_config_k()
    }

    /// The bucket width of the sketch that the union holds: eight bits.
    pub fn get_target_type(&self) -> (t: HllType)
        ensures
            t == self@.tgt_type,
    {
        self.gadget.get_target_type()
    }

    /// Whether the union was shown nothing.
    pub fn is_empty(&self) -> (empty: bool)
        requires
            self.wf(),
        ensures
            empty == self@.is_empty(),
    {
        self.gadget.is_empty()
    }

    /// The estimate of the number of distinct items that the union was
    /// shown.
    pub fn get_estimate(&self) -> (e: HllEstimate)
        requires
            self.wf(),
        ensures
            e == self@.estimate(),
    {
        self.gadget.get_estimate()
    }

    /// The composite estimate.
    pub fn get_composite_estimate(&self) -> (e: HllEstimate)
        requires
            self.wf(),
        ensures
            e == self@.composite_estimate(),
    {
        self.gadget.get_composite_estimate()
    }

    /// The lower error bound at the given number of standard deviations.
    pub fn get_lower_bound(&self, num_std_dev: u8) -> (r: Result<HllBound, SketchError>)
        requires
            self.wf(),
        ensures
            match r {
                Ok(b) => 1 <= num_std_dev <= 3 && b == self@.bound(num_std_dev, false),
                Err(e) => e == SketchError::InvalidConfig && !(1 <= num_std_dev <= 3),
            },
    {
        self.gadget.get_lower_bound(num_std_dev)
    }

    /// The upper error bound at the given number of standard deviations.
    pub fn get_upper_bound(&self, num_std_dev: u8) -> (r: Result<HllBound, SketchError>)
        requires
            self.wf(),
        ensures
            match r {
                Ok(b) => 1 <= num_std_dev <= 3 && b == self@.bound(num_std_dev, true),
                Err(e) => e == SketchError::InvalidConfig && !(1 <= num_std_dev <= 3),
            },
    {
        self.gadget.get_upper_bound(num_std_dev)
    }

    /// Shows the union the hash of an item.
    pub fn update(&mut self, hash: u64)
        requires
            old(self).wf(),
        ensures
            final(self).wf(),
            final(self).lg_max_k() == old(self).lg_max_k(),
            final(self)@ == old(self)@.absorb(coupon_of_hash(hash)),
    {
        proof {
            lemma_absorb_keeps(self.gadget@, coupon_of_hash(hash));
        }
        self.gadget.update(hash);
    }

    /// Shows the union a string. An empty string is no item and changes
    /// nothing.
    pub fn update_string(&mut self, datum: &str)
        requires
            old(self).wf(),
        ensures
            final(self).wf(),
            final(self).lg_max_k() == old(self).lg_max_k(),
            final(self)@ == if datum@.len() == 0 {
                old(self)@
            } else {
                old(self)@.absorb(coupon_of_hash(hash_of_bytes(datum.spec_bytes(), DEFAULT_SEED)))
            },
    {
        proof {
            lemma_absorb_keeps(
                self.gadget@,
                coupon_of_hash(hash_of_bytes(datum.spec_bytes(), DEFAULT_SEED)),
            );
        }
        self.gadget.update_string(datum);
    }

    /// Shows the union an unsigned 64-bit integer.
    pub fn update_u64(&mut self, datum: u64)
        requires
            old(self).wf(),
        ensures
            final(self).wf(),
            final(self).lg_max_k() == old(self).lg_max_k(),
            final(self)@ == old(self)@.absorb(coupon_of_hash(hash_of_word(datum, DEFAULT_SEED))),
    {
        proof {
            lemma_absorb_keeps(self.gadget@, coupon_of_hash(hash_of_word(datum, DEFAULT_SEED)));
        }
        self.gadget.update_u64(datum);
    }

    /// Shows the union a signed 64-bit integer.
    pub fn update_i64(&mut self, datum: i64)
        requires
            old(self).wf(),
        ensures
            final(self).wf(),
            final(self).lg_max_k() == old(self).lg_max_k(),
            final(self)@ == old(self)@.absorb(
                coupon_of_hash(hash_of_word(word_of_i64(datum), DEFAULT_SEED)),
            ),
    {
        proof {
            lemma_absorb_keeps(
                self.gadget@,
                coupon_of_hash(hash_of_word(word_of_i64(datum), DEFAULT_SEED)),
            );
        }
        self.gadget.update_i64(datum);
    }

    /// Shows the union a signed 32-bit integer.
    pub fn update_i32(&mut self, datum: i32)
        requires
            old(self).wf(),
        ensures
            final(self).wf(),
            final(self).lg_max_k() == old(self).lg_max_k(),
            final(self)@ == old(self)@.absorb(
                coupon_of_hash(hash_of_word(word_of_i64(datum as i64), DEFAULT_SEED)),
            ),
    {
        self.update_i64(datum as i64);
    }

    /// Shows the union a signed 16-bit integer.
    pub fn update_i16(&mut self, datum: i16)
        requires
            old(self).wf(),
        ensures
            final(self).wf(),
            final(self).lg_max_k() == old(self).lg_max_k(),
            final(self)@ == old(self)@.absorb(
                coupon_of_hash(hash_of_word(word_of_i64(datum as i64), DEFAULT_SEED)),
            ),
    {
        self.update_i64(datum as i64);
    }

    /// Shows the union a signed 8-bit integer.
    pub fn update_i8(&mut self, datum: i8)
        requires
            old(self).wf(),
        ensures
            final(self).wf(),
            final(self).lg_max_k() == old(self).lg_max_k(),
            final(self)@ == old(self)@.absorb(
                coupon_of_hash(hash_of_word(word_of_i64(datum as i64), DEFAULT_SEED)),
            ),
    {
        self.update_i64(datum as i64);
    }

    /// Shows the union an unsigned 32-bit integer, which counts as the
    /// signed integer with the same 32 bits.
    pub fn update_u32(&mut self, datum: u32)
        requires
            old(self).wf(),
        ensures
            final(self).wf(),
            final(self).lg_max_k() == old(self).lg_max_k(),
            final(self)@ == old(self)@.absorb(
                coupon_of_hash(hash_of_word(word_of_i64(signed32(datum) as i64), DEFAULT_SEED)),
            ),
    {
        self.update_i64(crate::hash::to_signed32(datum) as i64);
    }

    /// Shows the union an unsigned 16-bit integer, which counts as the
    /// signed integer with the same 16 bits.
    pub fn update_u16(&mut self, datum: u16)
        requires
            old(self).wf(),
        ensures
            final(self).wf(),
            final(self).lg_max_k() == old(self).lg_max_k(),
            final(self)@ == old(self)@.absorb(
                coupon_of_hash(hash_of_word(word_of_i64(signed16(datum) as i64), DEFAULT_SEED)),
            ),
    {
        self.update_i64(crate::hash::to_signed16(datum) as i64);
    }

    /// Shows the union an unsigned 8-bit integer, which counts as the
    /// signed integer with the same 8 bits.
    pub fn update_u8(&mut self, datum: u8)
        requires
            old(self).wf(),
        ensures
            final(self).wf(),
            final(self).lg_max_k() == old(self).lg_max_k(),
            final(self)@ == old(self)@.absorb(
                coupon_of_hash(hash_of_word(word_of_i64(signed8(datum) as i64), DEFAULT_SEED)),
            ),
    {
        self.update_i64(crate::hash::to_signed8(datum) as i64);
    }
}

impl Default for HllUnion {
    /// A union for at most `2^12` buckets.
    fn default() -> (u: HllUnion)
        ensures
            u.wf(),
            u.lg_max_k() == DEFAULT_LG_CONFIG_K,
            u@ == HllView::empty(DEFAULT_LG_CONFIG_K, HllType::HLL8),
    {
        HllUnion::new(DEFAULT_LG_CONFIG_K).unwrap()
    }
}

/// Showing a sketch a coupon changes neither the number of its buckets nor
/// their width.
pub proof fn lemma_absorb_keeps(v: HllView, coupon: u32)
    ensures
        v.absorb(coupon).lg_config_k == v.lg_config_k,
        v.absorb(coupon).tgt_type == v.tgt_type,
{
}

} // verus!
