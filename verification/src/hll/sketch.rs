//! The HyperLogLog sketch.
use crate::error::SketchError;
use crate::hash::DEFAULT_SEED;
use crate::hash::hash_bytes;
use crate::hash::hash_of_bytes;
use crate::hash::hash_of_word;
use crate::hash::hash_word;
use crate::hash::i64_word;
use crate::hash::signed16;
use crate::hash::signed32;
use crate::hash::signed8;
use crate::hash::to_signed16;
use crate::hash::to_signed32;
use crate::hash::to_signed8;
use crate::hash::word_of_i64;
use crate::hll::DEFAULT_LG_CONFIG_K;
use crate::hll::HllMode;
use crate::hll::HllType;
use crate::hll::LIST_CAPACITY;
use crate::hll::MAX_LG_CONFIG_K;
use crate::hll::MIN_LG_CONFIG_K;
use crate::hll::array::HllArray;
use crate::hll::bucket_count;
use crate::hll::coupon_cap;
use crate::hll::coupon_limit;
use crate::hll::coupon_of_hash;
use crate::hll::estimate::HllBound;
use crate::hll::estimate::HllEstimate;
use crate::hll::make_coupon;
use crate::hll::model::HIP_ONE;
use crate::hll::model::HllView;
use crate::hll::model::bucket_image;
use crate::hll::model::count_at;
use crate::hll::model::kxq_of;
use crate::hll::model::least_of;
use crate::hll::model::lemma_image_empty;
use crate::hll::model::lemma_image_insert;
use crate::hll::valid_coupon;
use crate::table::ADDRESS_SPAN;
use crate::table::EMPTY;
use crate::table::PairTable;
use crate::table::gathered;
use crate::table::key_of;
use vstd::arithmetic::power2::lemma2_to64;
use vstd::arithmetic::power2::lemma_pow2_strictly_increases;
use vstd::arithmetic::power2::pow2;
use vstd::prelude::*;
use vstd::seq_lib::seq_to_set_is_finite;
use vstd::string::StringSliceAdditionalSpecFns;

verus! {

/// The binary logarithm of the number of slots that the hash set starts
/// with.
pub const LG_INIT_SET_SLOTS: u8 = 5;

/// A HyperLogLog sketch: a summary of a stream from which the number of
/// distinct items in the stream can be estimated.
pub struct HllSketch {
    lg_config_k: u8,
    tgt_type: HllType,
    mode: HllMode,
    ooo: bool,
    list: Vec<u32>,
    set: PairTable,
    array: Option<HllArray>,
}

impl View for HllSketch {
    type V = HllView;

    /// The state of the sketch.
    closed spec fn view(&self) -> HllView {
        HllView {
            lg_config_k: self.lg_config_k,
            tgt_type: self.tgt_type,
            mode: self.mode,
            ooo: self.ooo,
            coupons: match self.mode {
                HllMode::List => self.list@.to_set(),
                HllMode::CouponSet => self.set.entries(),
                HllMode::Hll => Set::empty(),
            },
            buckets: match self.array {
                Some(a) => a.buckets(),
                None => Seq::empty(),
            },
            hip: match self.array {
                Some(a) => a.hip(),
                None => 0,
            },
        }
    }
}

/// The buckets filled from the coupons of a list.
fn replay_list(list: &Vec<u32>, kind: HllType, lg_k: u8) -> (array: HllArray)
    requires
        MIN_LG_CONFIG_K <= lg_k <= MAX_LG_CONFIG_K,
        forall|i: int| 0 <= i < list@.len() ==> valid_coupon(list@[i]),
    ensures
        array.wf(),
        array.kind() == kind,
        array.lg_k() == lg_k,
        array.buckets() == bucket_image(list@.to_set(), lg_k),
        array.hip() == 0,
{
    let mut array: HllArray = HllArray::new(kind, lg_k);
    let k: u32 = bucket_count(lg_k);
    let n: usize = list.len();
    let mut i: usize = 0;
    proof {
        lemma_image_empty(lg_k);
        assert(list@.take(0).to_set() =~= Set::<u32>::empty());
    }
    while i < n
        invariant
            array.wf(),
            array.kind() == kind,
            array.lg_k() == lg_k,
            array.hip() == 0,
            k == pow2(lg_k as nat),
            n == list@.len(),
            i <= n,
            forall|i: int| 0 <= i < list@.len() ==> valid_coupon(list@[i]),
            array.buckets() == bucket_image(list@.take(i as int).to_set(), lg_k),
        decreases n - i,
    {
        let coupon: u32 = list[i];
        proof {
            array.lemma_sizes();
            assert(list@.take(i as int + 1) =~= list@.take(i as int).push(coupon));
            list@.take(i as int).lemma_push_to_set_commute(coupon);
            lemma_image_insert(list@.take(i as int).to_set(), lg_k, coupon);
        }
        let _ = array.lift((coupon % k) as usize, (coupon / ADDRESS_SPAN) as u8, false);
        i = i + 1;
    }
    proof {
        assert(list@.take(n as int) =~= list@);
    }
    array
}

/// The buckets filled from the coupons of a hash set.
fn replay_table(table: &PairTable, kind: HllType, lg_k: u8) -> (array: HllArray)
    requires
        MIN_LG_CONFIG_K <= lg_k <= MAX_LG_CONFIG_K,
        table.wf(),
        forall|e: u32| table.contains(e) ==> valid_coupon(e),
    ensures
        array.wf(),
        array.kind() == kind,
        array.lg_k() == lg_k,
        array.buckets() == bucket_image(table.entries(), lg_k),
        array.hip() == 0,
{
    let mut array: HllArray = HllArray::new(kind, lg_k);
    let k: u32 = bucket_count(lg_k);
    let n: usize = table.capacity();
    let mut i: usize = 0;
    proof {
        lemma_image_empty(lg_k);
    }
    while i < n
        invariant
            array.wf(),
            array.kind() == kind,
            array.lg_k() == lg_k,
            array.hip() == 0,
            k == pow2(lg_k as nat),
            n == table.cells().len(),
            i <= n,
            forall|e: u32| table.contains(e) ==> valid_coupon(e),
            array.buckets() == bucket_image(gathered(table.cells(), i as int), lg_k),
        decreases n - i,
    {
        let entry: u32 = table.slot(i);
        if entry != EMPTY {
            proof {
                array.lemma_sizes();
                assert(table.cells()[i as int] == entry);
                assert(table.contains(entry));
                assert(valid_coupon(entry));
                lemma_image_insert(gathered(table.cells(), i as int), lg_k, entry);
            }
            let _ = array.lift((entry % k) as usize, (entry / ADDRESS_SPAN) as u8, false);
        }
        i = i + 1;
    }
    proof {
        table.lemma_gathered_entries();
    }
    array
}

impl HllSketch {
    /// The invariant of the sketch.
    pub closed spec fn wf(&self) -> bool {
        &&& MIN_LG_CONFIG_K <= self.lg_config_k <= MAX_LG_CONFIG_K
        &&& self.set.wf()
        &&& !self.set.keyed_by_address()
        &&& match self.mode {
            HllMode::List => {
                &&& self.array is None
                &&& !self.ooo
                &&& self.list@.no_duplicates()
                &&& self.list@.len() < LIST_CAPACITY
                &&& forall|i: int| 0 <= i < self.list@.len() ==> valid_coupon(self.list@[i])
                &&& self.set.size() == 0
            },
            HllMode::CouponSet => {
                &&& self.array is None
                &&& !self.ooo
                &&& self.list@.len() == 0
                &&& LIST_CAPACITY <= self.set.size() <= coupon_limit(self.lg_config_k)
                &&& forall|e: u32| self.set.contains(e) ==> valid_coupon(e)
            },
            HllMode::Hll => {
                &&& self.array is Some
                &&& self.array->0.wf()
                &&& self.array->0.kind() == self.tgt_type
                &&& self.array->0.lg_k() == self.lg_config_k
                &&& self.list@.len() == 0
                &&& self.set.size() == 0
            },
        }
    }

    /// The coupons of the list, in the order they came.
    pub closed spec fn coupon_list(&self) -> Seq<u32> {
        self.list@
    }

    /// The hash set of the coupons.
    pub closed spec fn coupon_table(&self) -> PairTable {
        self.set
    }

    /// The bucket array, in bucket mode.
    pub closed spec fn bucket_array(&self) -> Option<HllArray> {
        self.array
    }

    /// How the state of a sketch follows from its parts.
    pub proof fn lemma_parts(&self)
        requires
            self.wf(),
        ensures
            MIN_LG_CONFIG_K <= self@.lg_config_k <= MAX_LG_CONFIG_K,
            self@.mode != HllMode::Hll ==> !self@.ooo && self@.buckets == Seq::<u8>::empty()
                && self@.hip == 0 && self.bucket_array() is None,
            self@.mode == HllMode::List ==> {
                &&& self@.coupons == self.coupon_list().to_set()
                &&& self.coupon_list().no_duplicates()
                &&& self.coupon_list().len() < LIST_CAPACITY
                &&& forall|i: int|
                    0 <= i < self.coupon_list().len() ==> valid_coupon(self.coupon_list()[i])
            },
            self@.mode == HllMode::CouponSet ==> {
                &&& self@.coupons == self.coupon_table().entries()
                &&& self.coupon_table().wf()
                &&& !self.coupon_table().keyed_by_address()
                &&& self@.lg_config_k >= 8
                &&& LIST_CAPACITY <= self.coupon_table().size() <= coupon_limit(
                    self@.lg_config_k,
                )
                &&& forall|e: u32| self.coupon_table().contains(e) ==> valid_coupon(e)
            },
            self@.mode == HllMode::Hll ==> {
                &&& self.bucket_array() is Some
                &&& self.bucket_array()->0.wf()
                &&& self.bucket_array()->0.kind() == self@.tgt_type
                &&& self.bucket_array()->0.lg_k() == self@.lg_config_k
                &&& self@.buckets == self.bucket_array()->0.buckets()
                &&& self@.hip == self.bucket_array()->0.hip()
                &&& self@.coupons == Set::<u32>::empty()
            },
    {
        Self::lemma_limit(self.lg_config_k);
    }

    /// The coupons of the list.
    pub fn list_ref(&self) -> (list: &Vec<u32>)
        ensures
            list@ == self.coupon_list(),
    {
        &self.list
    }

    /// The hash set of the coupons.
    pub fn table_ref(&self) -> (table: &PairTable)
        ensures
            *table == self.coupon_table(),
    {
        &self.set
    }

    /// The bucket array, in bucket mode.
    pub fn array_ref(&self) -> (array: &Option<HllArray>)
        ensures
            *array == self.bucket_array(),
    {
        &self.array
    }

    /// The sketch that holds the coupons of a list.
    pub fn from_list(lg_config_k: u8, tgt_type: HllType, list: Vec<u32>) -> (s: HllSketch)
        requires
            MIN_LG_CONFIG_K <= lg_config_k <= MAX_LG_CONFIG_K,
            list@.no_duplicates(),
            list@.len() < LIST_CAPACITY,
            forall|i: int| 0 <= i < list@.len() ==> valid_coupon(list@[i]),
        ensures
            s.wf(),
            s@ == (HllView {
                coupons: list@.to_set(),
                ..HllView::empty(lg_config_k, tgt_type)
            }),
    {
        HllSketch {
            lg_config_k,
            tgt_type,
            mode: HllMode::List,
            ooo: false,
            list,
            set: PairTable::new(2, false),
            array: None,
        }
    }

    /// The sketch that holds the coupons of a hash set.
    pub fn from_table(lg_config_k: u8, tgt_type: HllType, table: PairTable) -> (s: HllSketch)
        requires
            8 <= lg_config_k <= MAX_LG_CONFIG_K,
            table.wf(),
            !table.keyed_by_address(),
            LIST_CAPACITY <= table.size() <= coupon_limit(lg_config_k),
            forall|e: u32| table.contains(e) ==> valid_coupon(e),
        ensures
            s.wf(),
            s@ == (HllView {
                mode: HllMode::CouponSet,
                coupons: table.entries(),
                ..HllView::empty(lg_config_k, tgt_type)
            }),
    {
        HllSketch {
            lg_config_k,
            tgt_type,
            mode: HllMode::CouponSet,
            ooo: false,
            list: Vec::new(),
            set: table,
            array: None,
        }
    }

    /// The sketch around a bucket array.
    pub fn from_array(array: HllArray, ooo: bool) -> (s: HllSketch)
        requires
            array.wf(),
        ensures
            s.wf(),
            s@ == (HllView {
                lg_config_k: array.lg_k(),
                tgt_type: array.kind(),
                mode: HllMode::Hll,
                ooo,
                coupons: Set::empty(),
                buckets: array.buckets(),
                hip: array.hip(),
            }),
    {
        let lg_config_k: u8 = array.regs().lg_k_exec();
        let tgt_type: HllType = array.regs().kind_exec();
        HllSketch {
            lg_config_k,
            tgt_type,
            mode: HllMode::Hll,
            ooo,
            list: Vec::new(),
            set: PairTable::new(2, false),
            array: Some(array),
        }
    }

    /// A well-formed sketch is in a valid state.
    pub proof fn lemma_valid(&self)
        requires
            self.wf(),
        ensures
            self@.valid(),
    {
        broadcast use seq_to_set_is_finite;

        match self.mode {
            HllMode::List => {
                self.list@.unique_seq_to_set();
                Self::lemma_limit(self.lg_config_k);
                assert forall|c: u32| self.list@.to_set().contains(c) implies valid_coupon(c) by {
                    let i = choose|i: int| 0 <= i < self.list@.len() && self.list@[i] == c;
                    assert(valid_coupon(self.list@[i]));
                }
            },
            HllMode::CouponSet => {
                self.set.lemma_size();
            },
            HllMode::Hll => {
                self.array->0.lemma_sizes();
            },
        }
    }

    /// The limit on the number of coupons is 7 for the smallest sketches and
    /// at least 24 for the others.
    pub proof fn lemma_limit(lg_k: u8)
        requires
            MIN_LG_CONFIG_K <= lg_k <= MAX_LG_CONFIG_K,
        ensures
            lg_k < 8 ==> coupon_limit(lg_k) == 7,
            lg_k >= 8 ==> 24 <= coupon_limit(lg_k) <= 0x30000,
    {
        lemma2_to64();
        if lg_k >= 8 {
            if lg_k > 8 {
                lemma_pow2_strictly_increases(3, (lg_k - 5) as nat);
            }
            if lg_k < 21 {
                lemma_pow2_strictly_increases((lg_k - 5) as nat, 16);
            }
        }
    }

    /// Creates a sketch of `2^lg_config_k` buckets that has seen nothing.
    ///
    /// With `start_full_size` the bucket array is there from the start;
    /// without it the sketch starts as a list of coupons.
    pub fn new(lg_config_k: u8, tgt_type: HllType, start_full_size: bool) -> (r: Result<
        HllSketch,
        SketchError,
    >)
        ensures
            match r {
                Ok(s) => {
                    &&& MIN_LG_CONFIG_K <= lg_config_k <= MAX_LG_CONFIG_K
                    &&& s.wf()
                    &&& s@ == if start_full_size {
                        HllView::full_size(lg_config_k, tgt_type)
                    } else {
                        HllView::empty(lg_config_k, tgt_type)
                    }
                },
                Err(e) => {
                    &&& e == SketchError::InvalidConfig
                    &&& !(MIN_LG_CONFIG_K <= lg_config_k <= MAX_LG_CONFIG_K)
                },
            },
    {
        if lg_config_k < MIN_LG_CONFIG_K || lg_config_k > MAX_LG_CONFIG_K {
            return Err(SketchError::InvalidConfig);
        }
        let set: PairTable = PairTable::new(2, false);
        let list: Vec<u32> = Vec::new();
        if start_full_size {
            let array: HllArray = HllArray::new(tgt_type, lg_config_k);
            Ok(
                HllSketch {
                    lg_config_k,
                    tgt_type,
                    mode: HllMode::Hll,
                    ooo: false,
                    list,
                    set,
                    array: Some(array),
                },
            )
        } else {
            let s = HllSketch {
                lg_config_k,
                tgt_type,
                mode: HllMode::List,
                ooo: false,
                list,
                set,
                array: None,
            };
            proof {
                assert(s@.coupons =~= Set::<u32>::empty());
            }
            Ok(s)
        }
    }

    /// Leaves the warm-up modes: the coupons of the list are replayed into
    /// a new bucket array.
    fn promote_list(&mut self)
        requires
            old(self).mode == HllMode::List,
            old(self).array is None,
            MIN_LG_CONFIG_K <= old(self).lg_config_k <= MAX_LG_CONFIG_K,
            old(self).set.wf(),
            !old(self).set.keyed_by_address(),
            old(self).set.size() == 0,
            old(self).list@.no_duplicates(),
            old(self).list@.len() <= LIST_CAPACITY,
            forall|i: int| 0 <= i < old(self).list@.len() ==> valid_coupon(old(self).list@[i]),
        ensures
            final(self).wf(),
            final(self)@ == (HllView { coupons: old(self).list@.to_set(), ..old(self)@ }).promoted(
                old(self).list@.to_set(),
            ),
    {
        let mut array: HllArray = replay_list(&self.list, self.tgt_type, self.lg_config_k);
        let count: u128 = self.list.len() as u128;
        proof {
            array.lemma_sizes();
            self.list@.unique_seq_to_set();
        }
        array.set_hip(count * HIP_ONE);
        self.array = Some(array);
        self.list = Vec::new();
        self.mode = HllMode::Hll;
    }

    /// Leaves the warm-up modes: the coupons of the hash set are replayed
    /// into a new bucket array.
    fn promote_set(&mut self)
        requires
            old(self).mode == HllMode::CouponSet,
            old(self).array is None,
            MIN_LG_CONFIG_K <= old(self).lg_config_k <= MAX_LG_CONFIG_K,
            old(self).set.wf(),
            !old(self).set.keyed_by_address(),
            old(self).list@.len() == 0,
            old(self).set.size() <= 0x30001,
            forall|e: u32| old(self).set.contains(e) ==> valid_coupon(e),
        ensures
            final(self).wf(),
            final(self)@ == old(self)@.promoted(old(self).set.entries()),
    {
        let mut array: HllArray = replay_table(&self.set, self.tgt_type, self.lg_config_k);
        let count: u128 = self.set.len() as u128;
        proof {
            array.lemma_sizes();
            self.set.lemma_size();
        }
        array.set_hip(count * HIP_ONE);
        self.array = Some(array);
        self.set = PairTable::new(2, false);
        self.mode = HllMode::Hll;
    }

    /// Moves the coupons of the full list into a new hash set.
    fn list_to_set(&mut self)
        requires
            old(self).mode == HllMode::List,
            old(self).array is None,
            !old(self).ooo,
            8 <= old(self).lg_config_k <= MAX_LG_CONFIG_K,
            old(self).list@.no_duplicates(),
            old(self).list@.len() == LIST_CAPACITY,
            forall|i: int| 0 <= i < old(self).list@.len() ==> valid_coupon(old(self).list@[i]),
        ensures
            final(self).wf(),
            final(self)@ == (HllView {
                mode: HllMode::CouponSet,
                coupons: old(self).list@.to_set(),
                ..old(self)@
            }),
    {
        let mut table: PairTable = PairTable::new(LG_INIT_SET_SLOTS, false);
        let n: usize = self.list.len();
        let mut i: usize = 0;
        while i < n
            invariant
                table.wf(),
                !table.keyed_by_address(),
                n == self.list@.len(),
                n == LIST_CAPACITY,
                i <= n,
                self.list@.no_duplicates(),
                table.size() == i,
                forall|e: u32|
                    table.contains(e) <==> exists|j: int| 0 <= j < i && self.list@[j] == e,
                forall|i: int| 0 <= i < self.list@.len() ==> valid_coupon(self.list@[i]),
            decreases n - i,
        {
            let coupon: u32 = self.list[i];
            let ghost prior = table;
            let prev = table.put(coupon);
            proof {
                if prev is Some {
                    let p = prev->0;
                    assert(prior.contains(p));
                    let j = choose|j: int| 0 <= j < i && self.list@[j] == p;
                    assert(self.list@[j] == self.list@[i as int]);
                }
                assert forall|e: u32|
                    table.contains(e) <==> exists|j: int| 0 <= j < i + 1 && self.list@[j] == e by {
                    if table.contains(e) {
                        if e == coupon {
                            assert(self.list@[i as int] == e);
                        } else {
                            assert(prior.contains(e));
                            let j = choose|j: int| 0 <= j < i && self.list@[j] == e;
                            assert(self.list@[j] == e);
                        }
                    }
                    if exists|j: int| 0 <= j < i + 1 && self.list@[j] == e {
                        let j = choose|j: int| 0 <= j < i + 1 && self.list@[j] == e;
                        if j < i {
                            assert(prior.contains(e));
                        }
                    }
                }
            }
            i = i + 1;
        }
        proof {
            Self::lemma_limit(self.lg_config_k);
            assert forall|e: u32| table.contains(e) implies valid_coupon(e) by {
                let j = choose|j: int| 0 <= j < n && self.list@[j] == e;
                assert(valid_coupon(self.list@[j]));
            }
            assert forall|e: u32| table.entries().contains(e) <==> self.list@.to_set().contains(
                e,
            ) by {
                if table.contains(e) {
                    let j = choose|j: int| 0 <= j < n && self.list@[j] == e;
                    assert(self.list@[j] == e);
                }
                if self.list@.contains(e) {
                    let j = choose|j: int| 0 <= j < self.list@.len() && self.list@[j] == e;
                    assert(self.list@[j] == e);
                }
            }
            assert(table.entries() =~= self.list@.to_set());
        }
        self.set = table;
        self.list = Vec::new();
        self.mode = HllMode::CouponSet;
    }

    fn update_list(&mut self, coupon: u32)
        requires
            old(self).wf(),
            old(self).mode == HllMode::List,
            valid_coupon(coupon),
        ensures
            final(self).wf(),
            final(self)@ == old(self)@.absorb(coupon),
    {
        let n: usize = self.list.len();
        let mut i: usize = 0;
        while i < n
            invariant
                *self == *old(self),
                self.wf(),
                self.mode == HllMode::List,
                n == self.list@.len(),
                i <= n,
                forall|j: int| 0 <= j < i ==> self.list@[j] != coupon,
            decreases n - i,
        {
            if self.list[i] == coupon {
                proof {
                    assert(self.list@.contains(coupon));
                }
                return;
            }
            i = i + 1;
        }
        proof {
            self.list@.unique_seq_to_set();
            self.list@.lemma_push_to_set_commute(coupon);
            Self::lemma_limit(self.lg_config_k);
            assert(!self.list@.to_set().contains(coupon)) by {
                if self.list@.contains(coupon) {
                    let j = choose|j: int| 0 <= j < self.list@.len() && self.list@[j] == coupon;
                    assert(self.list@[j] != coupon);
                }
            }
        }
        self.list.push(coupon);
        proof {
            self.list@.unique_seq_to_set();
        }
        if n + 1 == LIST_CAPACITY {
            if self.lg_config_k < 8 {
                self.promote_list();
            } else {
                self.list_to_set();
            }
        }
    }

    fn update_set(&mut self, coupon: u32)
        requires
            old(self).wf(),
            old(self).mode == HllMode::CouponSet,
            valid_coupon(coupon),
        ensures
            final(self).wf(),
            final(self)@ == old(self)@.absorb(coupon),
    {
        proof {
            self.set.lemma_size();
            Self::lemma_limit(self.lg_config_k);
        }
        let prev = self.set.put(coupon);
        proof {
            self.set.lemma_size();
        }
        if prev.is_some() {
            proof {
                assert(prev->0 == coupon);
                assert(self.set.entries() =~= old(self).set.entries());
            }
            return;
        }
        proof {
            assert(!old(self).set.entries().contains(coupon)) by {
                if old(self).set.contains(coupon) {
                    assert(key_of(coupon, false) == coupon);
                }
            }
            assert(self.set.entries() =~= old(self).set.entries().insert(coupon));
        }
        let limit: u32 = coupon_cap(self.lg_config_k);
        if self.set.len() > limit as usize {
            self.promote_set();
        }
    }

    fn update_array(&mut self, coupon: u32)
        requires
            old(self).wf(),
            old(self).mode == HllMode::Hll,
            valid_coupon(coupon),
        ensures
            final(self).wf(),
            final(self)@ == old(self)@.absorb(coupon),
    {
        let k: u32 = bucket_count(self.lg_config_k);
        let mut array: HllArray = self.array.take().unwrap();
        proof {
            array.lemma_sizes();
        }
        let _ = array.lift((coupon % k) as usize, (coupon / ADDRESS_SPAN) as u8, true);
        self.array = Some(array);
    }

    /// Shows the sketch a coupon.
    pub fn update_coupon(&mut self, coupon: u32)
        requires
            old(self).wf(),
            valid_coupon(coupon),
        ensures
            final(self).wf(),
            final(self)@ == old(self)@.absorb(coupon),
    {
        match self.mode {
            HllMode::List => self.update_list(coupon),
            HllMode::CouponSet => self.update_set(coupon),
            HllMode::Hll => self.update_array(coupon),
        }
    }

    /// Shows the sketch the hash of an item.
    pub fn update(&mut self, hash: u64)
        requires
            old(self).wf(),
        ensures
            final(self).wf(),
            final(self)@ == old(self)@.absorb(coupon_of_hash(hash)),
    {
        let coupon: u32 = make_coupon(hash);
        self.update_coupon(coupon);
    }

    /// The binary logarithm of the number of buckets.
    pub fn get_lg_config_k(&self) -> (lg_k: u8)
        ensures
            lg_k == self@.lg_config_k,
    {
        self.lg_config_k
    }

    /// The width in which the buckets are packed.
    pub fn get_target_type(&self) -> (t: HllType)
        ensures
            t == self@.tgt_type,
    {
        self.tgt_type
    }

    /// The representation the sketch is in.
    pub fn get_mode(&self) -> (m: HllMode)
        ensures
            m == self@.mode,
    {
        self.mode
    }

    /// Whether buckets were changed other than by the sketch's own updates.
    pub fn is_out_of_order(&self) -> (ooo: bool)
        ensures
            ooo == self@.ooo,
    {
        self.ooo
    }

    /// The sum over the buckets of `2^-value`, in units of `2^-39`, in
    /// bucket mode.
    pub fn get_kxq(&self) -> (kxq: Option<u64>)
        requires
            self.wf(),
        ensures
            match kxq {
                Some(sum) => self@.mode == HllMode::Hll && sum == kxq_of(self@.buckets),
                None => self@.mode != HllMode::Hll,
            },
    {
        match &self.array {
            Some(array) => Some(array.kxq()),
            None => None,
        }
    }

    /// The smallest value that any bucket holds, in bucket mode.
    pub fn get_cur_min(&self) -> (least: Option<u8>)
        requires
            self.wf(),
        ensures
            match least {
                Some(m) => self@.mode == HllMode::Hll && m == least_of(
                    self@.buckets,
                    self@.buckets.len() as int,
                ),
                None => self@.mode != HllMode::Hll,
            },
    {
        match &self.array {
            Some(array) => Some(array.cur_min()),
            None => None,
        }
    }

    /// The number of buckets that hold the smallest value, in bucket mode.
    pub fn get_num_at_cur_min(&self) -> (n: Option<u32>)
        requires
            self.wf(),
        ensures
            match n {
                Some(n) => self@.mode == HllMode::Hll && n == count_at(
                    self@.buckets,
                    least_of(self@.buckets, self@.buckets.len() as int),
                    self@.buckets.len() as int,
                ),
                None => self@.mode != HllMode::Hll,
            },
    {
        match &self.array {
            Some(array) => {
                proof {
                    array.lemma_sizes();
                }
                Some(array.num_at_cur_min())
            },
            None => None,
        }
    }

    /// The number of coupons held, in the warm-up modes; 0 in bucket mode.
    pub fn coupon_count(&self) -> (n: usize)
        requires
            self.wf(),
        ensures
            n == self@.coupons.len(),
            n <= 0x30000,
    {
        proof {
            Self::lemma_limit(self.lg_config_k);
        }
        match self.mode {
            HllMode::List => {
                proof {
                    self.list@.unique_seq_to_set();
                }
                self.list.len()
            },
            HllMode::CouponSet => {
                proof {
                    self.set.lemma_size();
                }
                self.set.len()
            },
            HllMode::Hll => 0,
        }
    }

    /// Whether the sketch is held in a form that cannot be updated. A
    /// sketch in memory never is.
    pub fn is_compact(&self) -> (compact: bool)
        ensures
            !compact,
    {
        false
    }

    /// Whether the sketch has seen nothing.
    pub fn is_empty(&self) -> (empty: bool)
        requires
            self.wf(),
        ensures
            empty == self@.is_empty(),
    {
        match &self.array {
            None => self.coupon_count() == 0,
            Some(array) => {
                let zeros: u32 = array.zero_buckets();
                let k: u32 = bucket_count(self.lg_config_k);
                proof {
                    array.lemma_sizes();
                    lemma_all_zero(array.buckets(), array.buckets().len() as int);
                    assert(self.mode == HllMode::Hll);
                    assert(self@.buckets == array.buckets());
                    assert(k == array.buckets().len());
                    assert((zeros == k) == self@.is_empty());
                }
                zeros == k
            },
        }
    }

    /// The composite estimate, which does not depend on the order in which
    /// the sketch came to its state.
    pub fn get_composite_estimate(&self) -> (e: HllEstimate)
        requires
            self.wf(),
        ensures
            e == self@.composite_estimate(),
    {
        match &self.array {
            None => HllEstimate::Exact { count: self.coupon_count() as u64 },
            Some(array) => {
                proof {
                    array.lemma_sizes();
                }
                HllEstimate::Composite {
                    lg_config_k: self.lg_config_k,
                    zero_buckets: array.zero_buckets(),
                    kxq: array.kxq(),
                }
            },
        }
    }

    /// The estimate of the number of distinct items seen.
    pub fn get_estimate(&self) -> (e: HllEstimate)
        requires
            self.wf(),
        ensures
            e == self@.estimate(),
    {
        match &self.array {
            None => HllEstimate::Exact { count: self.coupon_count() as u64 },
            Some(array) => {
                if self.ooo {
                    self.get_composite_estimate()
                } else {
                    HllEstimate::Hip { accum: array.hip_accum() }
                }
            },
        }
    }

    /// The lower error bound at the given number of standard deviations.
    pub fn get_lower_bound(&self, num_std_dev: u8) -> (r: Result<HllBound, SketchError>)
        requires
            self.wf(),
        ensures
            match r {
                Ok(b) => 1 <= num_std_dev <= 3 && b == self@.bound(num_std_dev, false),
                Err(e) => e == SketchError::InvalidConfig && !(1 <= num_std_dev <= 3),
            },
    {
        if num_std_dev < 1 || num_std_dev > 3 {
            return Err(SketchError::InvalidConfig);
        }
        Ok(
            HllBound {
                estimate: self.get_estimate(),
                lg_config_k: self.lg_config_k,
                num_std_dev,
                upper: false,
                unioned: self.ooo,
            },
        )
    }

    /// The upper error bound at the given number of standard deviations.
    pub fn get_upper_bound(&self, num_std_dev: u8) -> (r: Result<HllBound, SketchError>)
        requires
            self.wf(),
        ensures
            match r {
                Ok(b) => 1 <= num_std_dev <= 3 && b == self@.bound(num_std_dev, true),
                Err(e) => e == SketchError::InvalidConfig && !(1 <= num_std_dev <= 3),
            },
    {
        if num_std_dev < 1 || num_std_dev > 3 {
            return Err(SketchError::InvalidConfig);
        }
        Ok(
            HllBound {
                estimate: self.get_estimate(),
                lg_config_k: self.lg_config_k,
                num_std_dev,
                upper: true,
                unioned: self.ooo,
            },
        )
    }

    /// Forgets everything seen: the sketch is a list without coupons again.
    pub fn reset(&mut self)
        requires
            old(self).wf(),
        ensures
            final(self).wf(),
            final(self)@ == HllView::empty(old(self)@.lg_config_k, old(self)@.tgt_type),
    {
        self.list = Vec::new();
        self.set = PairTable::new(2, false);
        self.array = None;
        self.mode = HllMode::List;
        self.ooo = false;
        proof {
            assert(self@.coupons =~= Set::<u32>::empty());
        }
    }

    /// Marks a sketch in bucket mode as the result of a merge: it is out of
    /// order from now on, and its accumulator is put to 0.
    pub fn set_merged(&mut self)
        requires
            old(self).wf(),
            old(self)@.mode == HllMode::Hll,
        ensures
            final(self).wf(),
            final(self)@ == (HllView { ooo: true, hip: 0, ..old(self)@ }),
    {
        let mut array: HllArray = self.array.take().unwrap();
        proof {
            array.lemma_sizes();
        }
        array.set_hip(0);
        self.array = Some(array);
        self.ooo = true;
    }

    /// A copy of the sketch that packs its buckets in another width.
    pub fn clone_with_type(&self, tgt_type: HllType) -> (copy: HllSketch)
        requires
            self.wf(),
        ensures
            copy.wf(),
            copy@ == (HllView { tgt_type, ..self@ }),
    {
        let list: Vec<u32> = self.list.clone();
        let set: PairTable = self.set.clone();
        let array: Option<HllArray> = match &self.array {
            None => None,
            Some(array) => Some(array.repacked(tgt_type)),
        };
        proof {
            assert(list@ =~= self.list@);
        }
        HllSketch {
            lg_config_k: self.lg_config_k,
            tgt_type,
            mode: self.mode,
            ooo: self.ooo,
            list,
            set,
            array,
        }
    }

    /// Shows the sketch a string. An empty string is no item and changes
    /// nothing.
    pub fn update_string(&mut self, datum: &str)
        requires
            old(self).wf(),
        ensures
            final(self).wf(),
            final(self)@ == if datum@.len() == 0 {
                old(self)@
            } else {
                old(self)@.absorb(coupon_of_hash(hash_of_bytes(datum.spec_bytes(), DEFAULT_SEED)))
            },
    {
        if datum.is_empty() {
            return;
        }
        self.update(hash_bytes(datum.as_bytes(), DEFAULT_SEED));
    }

    /// Shows the sketch an unsigned 64-bit integer.
    pub fn update_u64(&mut self, datum: u64)
        requires
            old(self).wf(),
        ensures
            final(self).wf(),
            final(self)@ == old(self)@.absorb(coupon_of_hash(hash_of_word(datum, DEFAULT_SEED))),
    {
        self.update(hash_word(datum, DEFAULT_SEED));
    }

    /// Shows the sketch a signed 64-bit integer.
    pub fn update_i64(&mut self, datum: i64)
        requires
            old(self).wf(),
        ensures
            final(self).wf(),
            final(self)@ == old(self)@.absorb(
                coupon_of_hash(hash_of_word(word_of_i64(datum), DEFAULT_SEED)),
            ),
    {
        self.update(hash_word(i64_word(datum), DEFAULT_SEED));
    }

    /// Shows the sketch a signed 32-bit integer.
    pub fn update_i32(&mut self, datum: i32)
        requires
            old(self).wf(),
        ensures
            final(self).wf(),
            final(self)@ == old(self)@.absorb(
                coupon_of_hash(hash_of_word(word_of_i64(datum as i64), DEFAULT_SEED)),
            ),
    {
        self.update_i64(datum as i64);
    }

    /// Shows the sketch a signed 16-bit integer.
    pub fn update_i16(&mut self, datum: i16)
        requires
            old(self).wf(),
        ensures
            final(self).wf(),
            final(self)@ == old(self)@.absorb(
                coupon_of_hash(hash_of_word(word_of_i64(datum as i64), DEFAULT_SEED)),
            ),
    {
        self.update_i64(datum as i64);
    }

    /// Shows the sketch a signed 8-bit integer.
    pub fn update_i8(&mut self, datum: i8)
        requires
            old(self).wf(),
        ensures
            final(self).wf(),
            final(self)@ == old(self)@.absorb(
                coupon_of_hash(hash_of_word(word_of_i64(datum as i64), DEFAULT_SEED)),
            ),
    {
        self.update_i64(datum as i64);
    }

    /// Shows the sketch an unsigned 32-bit integer, which counts as the
    /// signed integer with the same 32 bits.
    pub fn update_u32(&mut self, datum: u32)
        requires
            old(self).wf(),
        ensures
            final(self).wf(),
            final(self)@ == old(self)@.absorb(
                coupon_of_hash(hash_of_word(word_of_i64(signed32(datum) as i64), DEFAULT_SEED)),
            ),
    {
        self.update_i64(to_signed32(datum) as i64);
    }

    /// Shows the sketch an unsigned 16-bit integer, which counts as the
    /// signed integer with the same 16 bits.
    pub fn update_u16(&mut self, datum: u16)
        requires
            old(self).wf(),
        ensures
            final(self).wf(),
            final(self)@ == old(self)@.absorb(
                coupon_of_hash(hash_of_word(word_of_i64(signed16(datum) as i64), DEFAULT_SEED)),
            ),
    {
        self.update_i64(to_signed16(datum) as i64);
    }

    /// Shows the sketch an unsigned 8-bit integer, which counts as the
    /// signed integer with the same 8 bits.
    pub fn update_u8(&mut self, datum: u8)
        requires
            old(self).wf(),
        ensures
            final(self).wf(),
            final(self)@ == old(self)@.absorb(
                coupon_of_hash(hash_of_word(word_of_i64(signed8(datum) as i64), DEFAULT_SEED)),
            ),
    {
        self.update_i64(to_signed8(datum) as i64);
    }
}

impl Default for HllSketch {
    /// A sketch of `2^12` buckets of four bits that starts as a list.
    fn default() -> (s: HllSketch)
        ensures
            s.wf(),
            s@ == HllView::empty(DEFAULT_LG_CONFIG_K, HllType::HLL4),
    {
        let r = HllSketch::new(DEFAULT_LG_CONFIG_K, HllType::HLL4, false);
        r.unwrap()
    }
}

impl Clone for HllSketch {
    /// An independent copy in the same state.
    fn clone(&self) -> (copy: HllSketch)
        ensures
            self.wf() ==> copy.wf(),
            copy@ == self@,
    {
        let list: Vec<u32> = self.list.clone();
        let set: PairTable = self.set.clone();
        let array: Option<HllArray> = match &self.array {
            None => None,
            Some(array) => Some(array.clone()),
        };
        proof {
            assert(list@ =~= self.list@);
        }
        HllSketch {
            lg_config_k: self.lg_config_k,
            tgt_type: self.tgt_type,
            mode: self.mode,
            ooo: self.ooo,
            list,
            set,
            array,
        }
    }
}

/// All buckets hold 0 exactly when the number of buckets that hold 0 is the
/// number of buckets.
proof fn lemma_all_zero(buckets: Seq<u8>, n: int)
    requires
        0 <= n <= buckets.len(),
    ensures
        0 <= count_at(buckets, 0, n) <= n,
        count_at(buckets, 0, n) == n <==> forall|i: int| 0 <= i < n ==> buckets[i] == 0,
    decreases n,
{
    if n > 0 {
        lemma_all_zero(buckets, n - 1);
        if count_at(buckets, 0, n) == n {
            assert forall|i: int| 0 <= i < n implies buckets[i] == 0 by {
                if i < n - 1 {
                }
            }
        }
    }
}

} // verus!
