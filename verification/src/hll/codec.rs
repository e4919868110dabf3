//! Writing a sketch to bytes and reading it back.
use crate::error::SketchError;
use crate::hll::HllMode;
use crate::hll::HllType;
use crate::hll::LIST_CAPACITY;
use crate::hll::MAX_LG_CONFIG_K;
use crate::hll::MAX_VALUE;
use crate::hll::MIN_LG_CONFIG_K;
use crate::hll::array::HllArray;
use crate::hll::bucket_count;
use crate::hll::coupon_cap;
use crate::hll::coupon_limit;
use crate::hll::image::FAMILY_ID;
use crate::hll::image::FLAG_COMPACT;
use crate::hll::image::FLAG_OUT_OF_ORDER;
use crate::hll::image::SERIAL_VERSION;
use crate::hll::image::array_buckets;
use crate::hll::image::array_ok;
use crate::hll::image::array_packed;
use crate::hll::image::array_packed_len;
use crate::hll::image::array_pairs;
use crate::hll::image::array_raw;
use crate::hll::image::array_words;
use crate::hll::image::compact_of;
use crate::hll::image::decode;
use crate::hll::image::header_ok;
use crate::hll::image::list_ok;
use crate::hll::image::list_words;
use crate::hll::image::mode_of;
use crate::hll::image::set_ok;
use crate::hll::image::set_words;
use crate::hll::image::table_words;
use crate::hll::image::type_of;
use crate::hll::image::write_preamble;
use crate::hll::model::HllView;
use crate::hll::registers::Registers;
use crate::hll::sketch::HllSketch;
use crate::hll::valid_coupon;
use crate::table::ADDRESS_SPAN;
use crate::table::EMPTY;
use crate::table::PairTable;
use crate::table::distinct_keys;
use crate::table::gathered;
use crate::table::key_of;
use crate::table::occupied;
use crate::wire::push_wide;
use crate::wire::push_word;
use crate::wire::read_wide;
use crate::wire::read_word;
use crate::wire::wide_at;
use crate::wire::word_at;
use crate::wire::words_at;
use vstd::arithmetic::power2::lemma2_to64;
use vstd::arithmetic::power2::lemma_pow2_strictly_increases;
use vstd::arithmetic::power2::pow2;
use vstd::prelude::*;
use vstd::slice::slice_subrange;
use vstd::slice::slice_to_vec;

verus! {

/// The flags of an image.
fn flags_of(compact: bool, ooo: bool) -> (flags: u8)
    ensures
        flags <= 3,
        (flags % 2 == 1) == compact,
        (flags / 2 == 1) == ooo,
{
    let low: u8 = if compact {
        FLAG_COMPACT
    } else {
        0
    };
    let high: u8 = if ooo {
        FLAG_OUT_OF_ORDER
    } else {
        0
    };
    low + high
}

/// Whether a word is a coupon.
fn is_coupon(word: u32) -> (ok: bool)
    ensures
        ok == valid_coupon(word),
{
    let v: u32 = word / ADDRESS_SPAN;
    1 <= v && v <= MAX_VALUE as u32
}

/// The image of a sketch in list mode.
fn image_of_list(list: &Vec<u32>, lg_k: u8, kind: HllType, compact: bool) -> (img: Vec<u8>)
    requires
        MIN_LG_CONFIG_K <= lg_k <= MAX_LG_CONFIG_K,
        list@.no_duplicates(),
        list@.len() < LIST_CAPACITY,
        forall|i: int| 0 <= i < list@.len() ==> valid_coupon(list@[i]),
    ensures
        img@.len() == 8 + 4 * list@.len(),
        compact_of(img@) == compact,
        decode(img@) == Some(HllView { coupons: list@.to_set(), ..HllView::empty(lg_k, kind) }),
{
    let n: usize = list.len();
    let mut img: Vec<u8> = Vec::new();
    write_preamble(&mut img, HllMode::List, lg_k, flags_of(compact, false), kind, n as u8, 0);
    let ghost head = img@;
    let mut i: usize = 0;
    while i < n
        invariant
            n == list@.len(),
            n < LIST_CAPACITY,
            i <= n,
            head.len() == 8,
            img@.len() == 8 + 4 * i,
            forall|j: int| 0 <= j < 8 ==> img@[j] == head[j],
            forall|j: int| 0 <= j < i ==> word_at(img@, 8 + 4 * j) == list@[j],
        decreases n - i,
    {
        let ghost before = img@;
        push_word(&mut img, list[i]);
        proof {
            assert forall|j: int| 0 <= j < i + 1 implies word_at(img@, 8 + 4 * j) == list@[j] by {
                if j < i {
                    assert(word_at(before, 8 + 4 * j) == list@[j]);
                }
            }
        }
        i = i + 1;
    }
    proof {
        assert(list_words(img@) =~= list@);
    }
    img
}

/// The image of a sketch in hash set mode.
fn image_of_set(table: &PairTable, lg_k: u8, kind: HllType, compact: bool) -> (img: Vec<u8>)
    requires
        8 <= lg_k <= MAX_LG_CONFIG_K,
        table.wf(),
        !table.keyed_by_address(),
        LIST_CAPACITY <= table.size() <= coupon_limit(lg_k),
        forall|e: u32| table.contains(e) ==> valid_coupon(e),
    ensures
        img@.len() == 12 + 4 * if compact {
            table.size()
        } else {
            table.cells().len()
        },
        compact_of(img@) == compact,
        decode(img@) == Some(
            HllView {
                mode: HllMode::CouponSet,
                coupons: table.entries(),
                ..HllView::empty(lg_k, kind)
            },
        ),
{
    proof {
        table.lemma_size();
        HllSketch::lemma_limit(lg_k);
    }
    let extra: u8 = if compact {
        0
    } else {
        table.lg_capacity()
    };
    let mut img: Vec<u8> = Vec::new();
    write_preamble(&mut img, HllMode::CouponSet, lg_k, flags_of(compact, false), kind, extra, 0);
    let ghost head = img@;
    push_word(&mut img, table.len() as u32);
    let ghost mid = img@;
    if compact {
        table.write_entries(&mut img);
    } else {
        table.write_cells(&mut img);
    }
    proof {
        assert(forall|j: int| 0 <= j < 8 ==> img@[j] == head[j]);
        assert(word_at(img@, 8) == word_at(mid, 8));
        assert(table_words(img@, table.size()) == if compact {
            table.size()
        } else {
            table.cells().len()
        });
        assert forall|e: u32|
            gathered(set_words(img@), set_words(img@).len() as int).contains(e) implies valid_coupon(
            e,
        ) by {
            assert(table.entries().contains(e));
        }
    }
    img
}

/// The start of the image of a sketch in bucket mode: the preamble, the
/// accumulator and the packed buckets.
fn array_head(array: &HllArray, flags: u8, extra: u8) -> (img: Vec<u8>)
    requires
        array.wf(),
    ensures
        img@.len() == 24 + array.registers().packed().len(),
        img@[0] == FAMILY_ID,
        img@[1] == SERIAL_VERSION,
        img@[2] == 2,
        img@[3] == array.lg_k(),
        img@[4] == flags,
        img@[5] == array.kind().code_of(),
        img@[6] == extra,
        img@[7] == array.registers().base(),
        wide_at(img@, 8) == array.hip(),
        img@.subrange(24, img@.len() as int) == array.registers().packed(),
{
    let regs: &Registers = array.regs();
    let packed: &Vec<u8> = regs.packed_bytes();
    let mut img: Vec<u8> = Vec::new();
    write_preamble(
        &mut img,
        HllMode::Hll,
        regs.lg_k_exec(),
        flags,
        regs.kind_exec(),
        extra,
        regs.base_exec(),
    );
    push_wide(&mut img, array.hip_accum());
    let ghost with_hip = img@;
    let plen: usize = packed.len();
    let mut i: usize = 0;
    while i < plen
        invariant
            plen == packed@.len(),
            i <= plen,
            with_hip.len() == 24,
            img@.len() == 24 + i,
            forall|j: int| 0 <= j < 24 ==> img@[j] == with_hip[j],
            forall|j: int| 0 <= j < i ==> img@[24 + j] == packed@[j],
        decreases plen - i,
    {
        img.push(packed[i]);
        i = i + 1;
    }
    proof {
        assert(wide_at(img@, 8) == wide_at(with_hip, 8));
        assert(img@.subrange(24, img@.len() as int) =~= packed@);
    }
    img
}

/// A byte string that is put together like the image of a bucket array
/// is the image of that array.
proof fn lemma_array_image(img: Seq<u8>, array: &HllArray, ooo: bool, compact: bool, n: nat)
    requires
        array.wf(),
        array.registers().exceptions().size() <= pow2(array.lg_k() as nat),
        img.len() == 28 + array.registers().packed().len() + 4 * n,
        img[0] == FAMILY_ID,
        img[1] == SERIAL_VERSION,
        img[2] == 2,
        img[3] == array.lg_k(),
        img[4] <= 3,
        (img[4] % 2 == 1) == compact,
        (img[4] / 2 == 1) == ooo,
        img[5] == array.kind().code_of(),
        compact ==> img[6] == 0 && n == array.registers().exceptions().size(),
        !compact ==> 2 <= img[6] <= 28 && n == pow2(img[6] as nat),
        img[7] == array.registers().base(),
        wide_at(img, 8) == array.hip(),
        img.subrange(24, 24 + array.registers().packed().len() as int) == array.registers().packed(),
        word_at(img, 24 + array.registers().packed().len() as int) == array.registers().exceptions().size(),
        distinct_keys(words_at(img, 28 + array.registers().packed().len() as int, n), true),
        gathered(words_at(img, 28 + array.registers().packed().len() as int, n), n as int)
            == array.registers().exceptions().entries(),
        occupied(words_at(img, 28 + array.registers().packed().len() as int, n), n as int)
            == array.registers().exceptions().size(),
    ensures
        decode(img) == Some(
            HllView {
                lg_config_k: array.lg_k(),
                tgt_type: array.kind(),
                mode: HllMode::Hll,
                ooo,
                coupons: Set::empty(),
                buckets: array.buckets(),
                hip: array.hip(),
            },
        ),
{
    array.lemma_sizes();
    array.registers().lemma_values();
    Registers::lemma_bucket_count(array.lg_k());
    assert(type_of(img) == array.kind());
    assert(array_packed_len(img) == array.registers().packed().len());
    assert(table_words(img, array.registers().exceptions().size()) == n);
    assert(array_words(img) == words_at(img, 28 + array.registers().packed().len() as int, n));
    assert(array_pairs(img) == array.registers().exceptions().entries());
    assert(array_packed(img) == array.registers().packed());
    assert(array_raw(img) == array.registers().raw());
    assert(array_buckets(img) == array.buckets());
    assert(header_ok(img));
    assert(array_ok(img));
}

/// The image of a sketch in bucket mode.
fn image_of_array(array: &HllArray, ooo: bool, compact: bool) -> (img: Vec<u8>)
    requires
        array.wf(),
    ensures
        img@.len() == 28 + array.registers().packed().len() + 4 * if compact {
            array.registers().exceptions().size()
        } else {
            array.registers().exceptions().cells().len()
        },
        compact_of(img@) == compact,
        decode(img@) == Some(
            HllView {
                lg_config_k: array.lg_k(),
                tgt_type: array.kind(),
                mode: HllMode::Hll,
                ooo,
                coupons: Set::empty(),
                buckets: array.buckets(),
                hip: array.hip(),
            },
        ),
{
    let table: &PairTable = array.regs().exception_table();
    proof {
        array.lemma_sizes();
        table.lemma_size();
        lemma_exception_count(array);
    }
    let extra: u8 = if compact {
        0
    } else {
        table.lg_capacity()
    };
    let mut img: Vec<u8> = array_head(array, flags_of(compact, ooo), extra);
    let ghost head = img@;
    push_word(&mut img, table.len() as u32);
    let ghost with_count = img@;
    if compact {
        table.write_entries(&mut img);
    } else {
        table.write_cells(&mut img);
    }
    proof {
        let plen = array.registers().packed().len() as int;
        let n: nat = if compact {
            table.size()
        } else {
            table.cells().len()
        };
        assert(forall|j: int| 0 <= j < 24 + plen ==> img@[j] == head[j]);
        assert(wide_at(img@, 8) == wide_at(head, 8));
        assert(img@.subrange(24, 24 + plen) =~= head.subrange(24, 24 + plen));
        assert(word_at(img@, 24 + plen) == word_at(with_count, 24 + plen));
        lemma_array_image(img@, array, ooo, compact, n);
    }
    img
}

/// An exception table holds no more entries than there are buckets.
proof fn lemma_exception_count(array: &HllArray)
    requires
        array.wf(),
    ensures
        array.registers().exceptions().size() <= pow2(array.lg_k() as nat),
{
    let table = array.registers().exceptions();
    let k = pow2(array.lg_k() as nat);
    table.lemma_size();
    if array.kind() == HllType::HLL4 {
        assert forall|e: u32| table.contains(e) implies key_of(e, true) < k by {
            assert(table.entries().contains(e));
        }
        table.lemma_bounded_keys(k);
    } else {
        assert(table.entries() =~= Set::<u32>::empty());
    }
}

/// Reads the image of a list.
fn parse_list(bytes: &[u8]) -> (r: Option<Vec<u32>>)
    requires
        header_ok(bytes@),
        mode_of(bytes@) == HllMode::List,
    ensures
        match r {
            Some(list) => list_ok(bytes@) && list@ == list_words(bytes@),
            None => !list_ok(bytes@),
        },
{
    let n: usize = bytes[6] as usize;
    if bytes[4] / 2 == 1 || n >= LIST_CAPACITY || bytes.len() != 8 + 4 * n {
        return None;
    }
    let ghost words = list_words(bytes@);
    let mut list: Vec<u32> = Vec::new();
    let mut i: usize = 0;
    while i < n
        invariant
            n == bytes@[6],
            n < LIST_CAPACITY,
            bytes@.len() == 8 + 4 * n,
            words == list_words(bytes@),
            i <= n,
            list@ == words.take(i as int),
            list@.no_duplicates(),
            forall|j: int| 0 <= j < i ==> valid_coupon(#[trigger] words[j]),
        decreases n - i,
    {
        let w: u32 = read_word(bytes, 8 + 4 * i);
        assert(w == words[i as int]);
        if !is_coupon(w) {
            return None;
        }
        let mut j: usize = 0;
        while j < i
            invariant
                i < n,
                n == words.len(),
                n == bytes@[6],
                words == list_words(bytes@),
                j <= i,
                list@ == words.take(i as int),
                w == words[i as int],
                forall|m: int| 0 <= m < j ==> words[m] != w,
            decreases i - j,
        {
            if list[j] == w {
                proof {
                    assert(list@[j as int] == words[j as int]);
                    assert(words[j as int] == words[i as int]);
                    assert(!words.no_duplicates());
                }
                return None;
            }
            j = j + 1;
        }
        list.push(w);
        proof {
            assert(list@ =~= words.take(i as int + 1));
        }
        i = i + 1;
    }
    proof {
        assert(words.take(n as int) =~= words);
    }
    Some(list)
}

/// The number of words that the table of an image takes.
fn table_len(bytes: &[u8], count: u32) -> (n: usize)
    requires
        header_ok(bytes@),
        mode_of(bytes@) != HllMode::List,
    ensures
        n == table_words(bytes@, count as nat),
        n <= 0x1000_0000 || n == count,
{
    if bytes[4] % 2 == 1 {
        count as usize
    } else {
        proof {
            lemma2_to64();
            if bytes@[6] < 28 {
                lemma_pow2_strictly_increases(bytes@[6] as nat, 28);
            }
            vstd::bits::lemma_u32_shl_is_mul(1u32, bytes@[6] as u32);
        }
        (1u32 << (bytes[6] as u32)) as usize
    }
}

/// Whether every entry of a table is a coupon.
fn all_coupons(table: &PairTable) -> (ok: bool)
    requires
        table.wf(),
    ensures
        ok == forall|e: u32| table.entries().contains(e) ==> valid_coupon(e),
{
    let n: usize = table.capacity();
    let mut i: usize = 0;
    while i < n
        invariant
            n == table.cells().len(),
            i <= n,
            forall|j: int|
                0 <= j < i && table.cells()[j] != EMPTY ==> valid_coupon(
                    #[trigger] table.cells()[j],
                ),
        decreases n - i,
    {
        let e: u32 = table.slot(i);
        if e != EMPTY && !is_coupon(e) {
            proof {
                assert(table.cells()[i as int] == e);
                assert(table.contains(e));
                assert(table.entries().contains(e));
            }
            return false;
        }
        i = i + 1;
    }
    proof {
        assert forall|e: u32| table.entries().contains(e) implies valid_coupon(e) by {
            assert(table.contains(e));
            let j = choose|j: int| 0 <= j < table.cells().len() && table.cells()[j] == e;
            assert(valid_coupon(table.cells()[j]));
        }
    }
    true
}

/// Reads the image of a hash set.
fn parse_set(bytes: &[u8]) -> (r: Option<PairTable>)
    requires
        header_ok(bytes@),
        mode_of(bytes@) == HllMode::CouponSet,
    ensures
        match r {
            Some(table) => {
                &&& set_ok(bytes@)
                &&& table.wf()
                &&& !table.keyed_by_address()
                &&& table.size() == word_at(bytes@, 8)
                &&& table.entries() == gathered(set_words(bytes@), set_words(bytes@).len() as int)
            },
            None => !set_ok(bytes@),
        },
{
    let len: usize = bytes.len();
    let lg_k: u8 = bytes[3];
    if bytes[4] / 2 == 1 || lg_k < 8 || len < 12 {
        return None;
    }
    let count: u32 = read_word(bytes, 8);
    let limit: u32 = coupon_cap(lg_k);
    if count < LIST_CAPACITY as u32 || count > limit {
        return None;
    }
    let n: usize = table_len(bytes, count);
    if (len - 12) % 4 != 0 || (len - 12) / 4 != n {
        return None;
    }
    let table = match PairTable::collect(bytes, 12, n, false, limit as usize) {
        Some(table) => table,
        None => {
            return None;
        },
    };
    if table.len() != count as usize {
        return None;
    }
    if !all_coupons(&table) {
        return None;
    }
    Some(table)
}

/// Reads the image of a bucket array.
fn parse_array(bytes: &[u8]) -> (r: Option<HllArray>)
    requires
        header_ok(bytes@),
        mode_of(bytes@) == HllMode::Hll,
    ensures
        match r {
            Some(array) => {
                &&& array_ok(bytes@)
                &&& array.wf()
                &&& array.kind() == type_of(bytes@)
                &&& array.lg_k() == bytes@[3]
                &&& array.buckets() == array_buckets(bytes@)
                &&& array.hip() == wide_at(bytes@, 8)
            },
            None => !array_ok(bytes@),
        },
{
    let len: usize = bytes.len();
    let lg_k: u8 = bytes[3];
    let kind: HllType = match HllType::from_code(bytes[5]) {
        Some(kind) => kind,
        None => {
            return None;
        },
    };
    proof {
        Registers::lemma_bucket_count(lg_k);
    }
    let k: usize = bucket_count(lg_k) as usize;
    let plen: usize = match kind {
        HllType::HLL4 => k / 2,
        HllType::HLL6 => 3 * (k / 4),
        HllType::HLL8 => k,
    };
    if len < 28 + plen {
        return None;
    }
    let hip: u128 = read_wide(bytes, 8);
    let count: u32 = read_word(bytes, 24 + plen);
    if count as usize > k {
        return None;
    }
    let n: usize = table_len(bytes, count);
    let rest: usize = len - 28 - plen;
    if rest % 4 != 0 || rest / 4 != n {
        return None;
    }
    let table = match PairTable::collect(bytes, 28 + plen, n, true, k) {
        Some(table) => table,
        None => {
            return None;
        },
    };
    if table.len() != count as usize {
        return None;
    }
    let packed: Vec<u8> = slice_to_vec(slice_subrange(bytes, 24, 24 + plen));
    let regs = match Registers::from_parts(kind, lg_k, bytes[7], packed, table) {
        Some(regs) => regs,
        None => {
            return None;
        },
    };
    HllArray::from_registers(regs, hip)
}

impl HllSketch {
    /// The number of bytes of the compact image.
    pub open spec fn compact_bytes(&self) -> nat {
        match self@.mode {
            HllMode::List => 8 + 4 * self.coupon_list().len(),
            HllMode::CouponSet => 12 + 4 * self.coupon_table().size(),
            HllMode::Hll => 28 + self.bucket_array()->0.registers().packed().len() + 4
                * self.bucket_array()->0.registers().exceptions().size(),
        }
    }

    /// The number of bytes of the updatable image.
    pub open spec fn updatable_bytes(&self) -> nat {
        match self@.mode {
            HllMode::List => 8 + 4 * self.coupon_list().len(),
            HllMode::CouponSet => 12 + 4 * self.coupon_table().cells().len(),
            HllMode::Hll => 28 + self.bucket_array()->0.registers().packed().len() + 4
                * self.bucket_array()->0.registers().exceptions().cells().len(),
        }
    }

    /// An image is never longer than this.
    pub proof fn lemma_image_bytes(&self)
        requires
            self.wf(),
        ensures
            8 <= self.compact_bytes() <= self.updatable_bytes() <= 0x5000_0000,
    {
        self.lemma_parts();
        match self@.mode {
            HllMode::List => {},
            HllMode::CouponSet => {
                self.coupon_table().lemma_size();
            },
            HllMode::Hll => {
                self.bucket_array()->0.lemma_sizes();
                self.bucket_array()->0.registers().exceptions().lemma_size();
                Registers::lemma_bucket_count(self@.lg_config_k);
            },
        }
    }

    /// The image of the sketch, compact or updatable.
    fn image(&self, compact: bool) -> (img: Vec<u8>)
        requires
            self.wf(),
        ensures
            decode(img@) == Some(self@),
            compact_of(img@) == compact,
            img@.len() == if compact {
                self.compact_bytes()
            } else {
                self.updatable_bytes()
            },
    {
        proof {
            self.lemma_parts();
        }
        match self.array_ref() {
            Some(array) => image_of_array(array, self.is_out_of_order(), compact),
            None => match self.get_mode() {
                HllMode::List => image_of_list(
                    self.list_ref(),
                    self.get_lg_config_k(),
                    self.get_target_type(),
                    compact,
                ),
                _ => image_of_set(
                    self.table_ref(),
                    self.get_lg_config_k(),
                    self.get_target_type(),
                    compact,
                ),
            },
        }
    }

    /// Writes the sketch to bytes in the compact form, behind
    /// `header_size_bytes` bytes of zeros that the caller may fill.
    pub fn serialize_compact(&self, header_size_bytes: usize) -> (bytes: Vec<u8>)
        requires
            self.wf(),
            header_size_bytes + self.compact_bytes() <= usize::MAX,
        ensures
            bytes@.len() == header_size_bytes + self.compact_bytes(),
            forall|j: int| 0 <= j < header_size_bytes ==> bytes@[j] == 0,
            compact_of(bytes@.skip(header_size_bytes as int)),
            decode(bytes@.skip(header_size_bytes as int)) == Some(self@),
    {
        let img: Vec<u8> = self.image(true);
        if header_size_bytes == 0 {
            proof {
                assert(img@.skip(0) =~= img@);
            }
            return img;
        }
        let mut bytes: Vec<u8> = vec![0u8; header_size_bytes];
        let n: usize = img.len();
        let mut i: usize = 0;
        while i < n
            invariant
                n == img@.len(),
                header_size_bytes + n <= usize::MAX,
                i <= n,
                bytes@.len() == header_size_bytes + i,
                forall|j: int| 0 <= j < header_size_bytes ==> bytes@[j] == 0,
                forall|j: int| 0 <= j < i ==> bytes@[header_size_bytes + j] == img@[j],
            decreases n - i,
        {
            bytes.push(img[i]);
            i = i + 1;
        }
        proof {
            assert(bytes@.skip(header_size_bytes as int) =~= img@);
        }
        bytes
    }

    /// Writes the sketch to bytes in the updatable form, which keeps the
    /// tables as they lie in memory.
    pub fn serialize_updatable(&self) -> (bytes: Vec<u8>)
        requires
            self.wf(),
        ensures
            bytes@.len() == self.updatable_bytes(),
            !compact_of(bytes@),
            decode(bytes@) == Some(self@),
    {
        self.image(false)
    }

    /// The number of bytes that [`HllSketch::serialize_compact`] writes
    /// after the caller's header.
    pub fn get_compact_serialization_bytes(&self) -> (n: u32)
        requires
            self.wf(),
        ensures
            n == self.compact_bytes(),
    {
        proof {
            self.lemma_parts();
            self.lemma_image_bytes();
        }
        match self.array_ref() {
            Some(array) => (28 + array.regs().packed_bytes().len() + 4
                * array.regs().exception_table().len()) as u32,
            None => match self.get_mode() {
                HllMode::List => (8 + 4 * self.list_ref().len()) as u32,
                _ => (12 + 4 * self.table_ref().len()) as u32,
            },
        }
    }

    /// The number of bytes that [`HllSketch::serialize_updatable`] writes.
    pub fn get_updatable_serialization_bytes(&self) -> (n: u32)
        requires
            self.wf(),
        ensures
            n == self.updatable_bytes(),
    {
        proof {
            self.lemma_parts();
            self.lemma_image_bytes();
        }
        match self.array_ref() {
            Some(array) => (28 + array.regs().packed_bytes().len() + 4
                * array.regs().exception_table().capacity()) as u32,
            None => match self.get_mode() {
                HllMode::List => (8 + 4 * self.list_ref().len()) as u32,
                _ => (12 + 4 * self.table_ref().capacity()) as u32,
            },
        }
    }

    /// Reads a sketch from an image, compact or updatable.
    pub fn deserialize(bytes: &[u8]) -> (r: Result<HllSketch, SketchError>)
        ensures
            match r {
                Ok(s) => s.wf() && decode(bytes@) == Some(s@),
                Err(e) => e == SketchError::CorruptData && decode(bytes@) is None,
            },
    {
        if bytes.len() < 8 {
            return Err(SketchError::CorruptData);
        }
        if bytes[0] != FAMILY_ID || bytes[1] != SERIAL_VERSION || bytes[2] > 2 || bytes[3]
            < MIN_LG_CONFIG_K || bytes[3] > MAX_LG_CONFIG_K || bytes[4] > 3 || bytes[5] > 2
            || bytes[7] > MAX_VALUE {
            return Err(SketchError::CorruptData);
        }
        if (bytes[2] != 2 || bytes[5] != 0) && bytes[7] != 0 {
            return Err(SketchError::CorruptData);
        }
        if bytes[2] != 0 {
            if bytes[4] % 2 == 1 {
                if bytes[6] != 0 {
                    return Err(SketchError::CorruptData);
                }
            } else if bytes[6] < 2 || bytes[6] > 28 {
                return Err(SketchError::CorruptData);
            }
        }
        let lg_k: u8 = bytes[3];
        let kind: HllType = match HllType::from_code(bytes[5]) {
            Some(kind) => kind,
            None => {
                return Err(SketchError::CorruptData);
            },
        };
        if bytes[2] == 0 {
            match parse_list(bytes) {
                Some(list) => Ok(HllSketch::from_list(lg_k, kind, list)),
                None => Err(SketchError::CorruptData),
            }
        } else if bytes[2] == 1 {
            match parse_set(bytes) {
                Some(table) => Ok(HllSketch::from_table(lg_k, kind, table)),
                None => Err(SketchError::CorruptData),
            }
        } else {
            match parse_array(bytes) {
                Some(array) => Ok(HllSketch::from_array(array, bytes[4] / 2 == 1)),
                None => Err(SketchError::CorruptData),
            }
        }
    }
}

} // verus!
