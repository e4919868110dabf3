//! Writing a sketch to bytes and reading it back.
use crate::cpc::Flavor;
use crate::cpc::MAX_COLUMN;
use crate::cpc::MAX_LG_K;
use crate::cpc::MAX_OFFSET;
use crate::cpc::MIN_LG_K;
use crate::cpc::ROW_STRIDE;
use crate::cpc::flavor_for;
use crate::cpc::image::FAMILY_ID;
use crate::cpc::image::SERIAL_VERSION;
use crate::cpc::image::decode;
use crate::cpc::image::dense_count;
use crate::cpc::image::dense_ok;
use crate::cpc::image::dense_set;
use crate::cpc::image::dense_window;
use crate::cpc::image::dense_words;
use crate::cpc::image::header_ok;
use crate::cpc::image::sparse_ok;
use crate::cpc::image::sparse_words;
use crate::cpc::model::CpcView;
use crate::cpc::pair_col;
use crate::cpc::pair_row;
use crate::cpc::row_count;
use crate::cpc::sketch::CpcSketch;
use crate::cpc::valid_pair;
use crate::cpc::window::in_window;
use crate::cpc::window::lemma_compress;
use crate::cpc::window::lemma_surprises_short;
use crate::cpc::window::surprises;
use crate::cpc::window::take_surprises;
use crate::cpc::window::take_window;
use crate::cpc::window::window_member;
use crate::cpc::window::window_set;
use crate::cpc::window::window_set_upto;
use crate::cpc::window::words_fit;
use crate::cpc::window_offset_for;
use crate::error::SketchError;
use crate::table::EMPTY;
use crate::table::distinct_keys;
use crate::table::gathered;
use crate::table::key_of;
use crate::table::lemma_gathered_words;
use crate::wire::long_at;
use crate::wire::push_long;
use crate::wire::push_wide;
use crate::wire::push_word;
use crate::wire::read_long;
use crate::wire::read_wide;
use crate::wire::read_word;
use crate::wire::wide_at;
use crate::wire::word_at;
use crate::wire::words_at;
use vstd::arithmetic::power2::lemma2_to64;
use vstd::arithmetic::power2::lemma2_to64_rest;
use vstd::arithmetic::power2::lemma_pow2_adds;
use vstd::arithmetic::power2::lemma_pow2_strictly_increases;
use vstd::arithmetic::power2::pow2;
use vstd::prelude::*;

verus! {

/// Writes the forty bytes of a header into an empty buffer.
fn write_header(
    out: &mut Vec<u8>,
    flavor: Flavor,
    lg_k: u8,
    merged: bool,
    offset: u8,
    seed: u64,
    num_coupons: u64,
    hip: u128,
)
    requires
        old(out)@.len() == 0,
    ensures
        final(out)@.len() == 40,
        final(out)@[0] == FAMILY_ID,
        final(out)@[1] == SERIAL_VERSION,
        final(out)@[2] == flavor.code_of(),
        final(out)@[3] == lg_k,
        final(out)@[4] == if merged {
            1u8
        } else {
            0u8
        },
        final(out)@[5] == offset,
        final(out)@[6] == 0,
        final(out)@[7] == 0,
        long_at(final(out)@, 8) == seed,
        long_at(final(out)@, 16) == num_coupons,
        wide_at(final(out)@, 24) == hip,
{
    out.push(FAMILY_ID);
    out.push(SERIAL_VERSION);
    out.push(flavor.code());
    out.push(lg_k);
    out.push(if merged {
        1u8
    } else {
        0u8
    });
    out.push(offset);
    out.push(0u8);
    out.push(0u8);
    push_long(out, seed);
    let ghost with_seed = out@;
    push_long(out, num_coupons);
    let ghost with_count = out@;
    push_wide(out, hip);
    proof {
        assert(long_at(out@, 8) == long_at(with_seed, 8));
        assert(long_at(out@, 16) == long_at(with_count, 16));
    }
}

/// Appends bytes.
fn write_bytes(out: &mut Vec<u8>, bytes: &Vec<u8>)
    ensures
        final(out)@ == old(out)@ + bytes@,
{
    let n: usize = bytes.len();
    let mut i: usize = 0;
    proof {
        assert(out@ =~= old(out)@ + bytes@.take(0));
    }
    while i < n
        invariant
            n == bytes@.len(),
            i <= n,
            out@ == old(out)@ + bytes@.take(i as int),
        decreases n - i,
    {
        out.push(bytes[i]);
        proof {
            assert(out@ =~= old(out)@ + bytes@.take(i as int + 1));
        }
        i = i + 1;
    }
    proof {
        assert(bytes@.take(n as int) =~= bytes@);
    }
}

/// Appends words.
fn write_words(out: &mut Vec<u8>, words: &Vec<u32>)
    ensures
        final(out)@.len() == old(out)@.len() + 4 * words@.len(),
        forall|j: int| 0 <= j < old(out)@.len() ==> final(out)@[j] == old(out)@[j],
        words_at(final(out)@, old(out)@.len() as int, words@.len()) == words@,
{
    let n: usize = words.len();
    let ghost base = out@.len() as int;
    let mut i: usize = 0;
    while i < n
        invariant
            n == words@.len(),
            i <= n,
            base == old(out)@.len(),
            out@.len() == base + 4 * i,
            forall|j: int| 0 <= j < base ==> out@[j] == old(out)@[j],
            forall|j: int| 0 <= j < i ==> word_at(out@, base + 4 * j) == words@[j],
        decreases n - i,
    {
        let ghost before = out@;
        push_word(out, words[i]);
        proof {
            assert forall|j: int| 0 <= j < i + 1 implies word_at(out@, base + 4 * j)
                == words@[j] by {
                if j < i {
                    assert(word_at(before, base + 4 * j) == words@[j]);
                }
            }
        }
        i = i + 1;
    }
    proof {
        assert(words_at(out@, base, n as nat) =~= words@);
    }
}

/// A byte string that is put together like the image of a window and its
/// surprising bits is the image of what they hold.
proof fn lemma_dense_image(img: Seq<u8>, window: Seq<u8>, words: Seq<u32>, lg_k: u8)
    requires
        MIN_LG_K <= lg_k <= MAX_LG_K,
        window.len() == pow2(lg_k as nat),
        img[3] == lg_k,
        img.len() == 40 + window.len() + 4 * words.len(),
        img.subrange(40, 40 + window.len() as int) == window,
        words_at(img, 40 + window.len() as int, words.len()) == words,
    ensures
        dense_words(img) == words,
        dense_window(img) == window,
        dense_set(img) == window_set(lg_k, window, words, img[5] as int),
        img.len() >= 40 + pow2(lg_k as nat),
        (img.len() - 40 - pow2(lg_k as nat)) % 4 == 0,
{
    assert(dense_count(img) == words.len());
}

/// Whether a word is the pair of a bit of the matrix.
fn is_pair(word: u32, lg_k: u8) -> (ok: bool)
    requires
        lg_k <= MAX_LG_K,
    ensures
        ok == valid_pair(word, lg_k),
{
    let k: u64 = row_count(lg_k);
    ((word / ROW_STRIDE) as u64) < k && word % ROW_STRIDE <= MAX_COLUMN as u32
}

impl CpcSketch {
    /// The surprising bits as the image lists them.
    pub open spec fn image_words(&self) -> Seq<u32> {
        if self.matrix().len() != 0 {
            surprises(self.matrix(), self@.window_offset())
        } else {
            self.surprise_words()
        }
    }

    /// The number of bytes of the image.
    pub open spec fn image_bytes(&self) -> nat {
        if self@.flavor().is_sparse() {
            40 + 4 * self.pair_table().size()
        } else {
            40 + pow2(self@.lg_k as nat) + 4 * self.image_words().len()
        }
    }

    /// Writes the sketch to bytes.
    pub fn serialize(&self) -> (bytes: Vec<u8>)
        requires
            self.wf(),
        ensures
            bytes@.len() == self.image_bytes(),
            decode(bytes@) == Some(self@),
    {
        proof {
            self.lemma_parts();
        }
        let lg_k: u8 = self.get_lg_k();
        let count: u64 = self.get_num_coupons();
        let offset: u8 = self.get_window_offset();
        let rows: &Vec<u64> = self.rows_ref();
        let mut img: Vec<u8> = Vec::new();
        write_header(
            &mut img,
            self.get_flavor(),
            lg_k,
            self.is_merged(),
            offset,
            self.get_seed(),
            count,
            self.get_hip_accum(),
        );
        let ghost head = img@;
        if rows.len() != 0 {
            let window: Vec<u8> = take_window(rows, offset);
            let words: Vec<u32> = match take_surprises(rows, offset, usize::MAX) {
                Some(words) => words,
                None => Vec::new(),
            };
            proof {
                lemma_compress(rows@, lg_k, offset);
                lemma_surprises_short(rows@, offset as int, (64 * rows@.len()) as nat);
            }
            write_bytes(&mut img, &window);
            write_words(&mut img, &words);
            proof {
                assert(forall|j: int| 0 <= j < 40 ==> img@[j] == head[j]);
                assert(long_at(img@, 8) == long_at(head, 8));
                assert(long_at(img@, 16) == long_at(head, 16));
                assert(wide_at(img@, 24) == wide_at(head, 24));
                assert(img@.subrange(40, 40 + window@.len() as int) =~= window@);
                lemma_dense_image(img@, window@, words@, lg_k);
                assert(header_ok(img@));
                assert(dense_ok(img@));
            }
        } else if self.window_ref().len() != 0 {
            let window: &Vec<u8> = self.window_ref();
            let words: &Vec<u32> = self.words_ref();
            write_bytes(&mut img, window);
            write_words(&mut img, words);
            proof {
                assert(forall|j: int| 0 <= j < 40 ==> img@[j] == head[j]);
                assert(long_at(img@, 8) == long_at(head, 8));
                assert(long_at(img@, 16) == long_at(head, 16));
                assert(wide_at(img@, 24) == wide_at(head, 24));
                assert(img@.subrange(40, 40 + window@.len() as int) =~= window@);
                lemma_dense_image(img@, window@, words@, lg_k);
                assert(header_ok(img@));
                assert(dense_ok(img@));
            }
        } else {
            self.table_ref().write_entries(&mut img);
            proof {
                assert(forall|j: int| 0 <= j < 40 ==> img@[j] == head[j]);
                assert(long_at(img@, 8) == long_at(head, 8));
                assert(long_at(img@, 16) == long_at(head, 16));
                assert(wide_at(img@, 24) == wide_at(head, 24));
                assert(header_ok(img@));
                assert(sparse_ok(img@));
            }
        }
        img
    }

    /// Reads the coupons of the image of a sparse sketch into a sketch
    /// that has collected nothing.
    fn read_sparse(&mut self, bytes: &[u8]) -> (ok: bool)
        requires
            header_ok(bytes@),
            bytes@[2] <= 1,
            old(self).wf(),
            old(self)@ == CpcView::empty(bytes@[3], long_at(bytes@, 8)),
        ensures
            ok == sparse_ok(bytes@),
            ok ==> final(self).wf() && final(self)@ == (CpcView {
                coupons: gathered(sparse_words(bytes@), sparse_words(bytes@).len() as int),
                ..old(self)@
            }),
    {
        let len: usize = bytes.len();
        let lg_k: u8 = bytes[3];
        let count: u64 = read_long(bytes, 16);
        proof {
            lemma2_to64();
            if lg_k < 26 {
                lemma_pow2_strictly_increases(lg_k as nat, 26);
            }
        }
        if (len - 40) % 4 != 0 || ((len - 40) / 4) as u64 != count {
            return false;
        }
        let n: usize = (len - 40) / 4;
        let ghost words = sparse_words(bytes@);
        let mut i: usize = 0;
        proof {
            assert(self@.coupons =~= gathered(words, 0));
        }
        while i < n
            invariant
                self.wf(),
                header_ok(bytes@),
                self@.lg_k == lg_k,
                lg_k == bytes@[3],
                self@.seed == old(self)@.seed,
                self@.hip == 0,
                !self@.merged,
                words == sparse_words(bytes@),
                words.len() == n,
                n == long_at(bytes@, 16),
                len == bytes@.len(),
                bytes@.len() == 40 + 4 * n,
                i <= n,
                self@.coupons == gathered(words, i as int),
                self@.coupons.len() == i,
                forall|j: int| 0 <= j < i ==> valid_pair(#[trigger] words[j], lg_k),
                forall|a: int, b: int| 0 <= a < b < i ==> words[a] != words[b],
            decreases n - i,
        {
            let w: u32 = read_word(bytes, 40 + 4 * i);
            assert(w == words[i as int]);
            if !is_pair(w, lg_k) {
                proof {
                    lemma_gathered_words(words, n as int);
                    if w != EMPTY {
                        assert(gathered(words, n as int).contains(w));
                    }
                }
                return false;
            }
            proof {
                lemma_gathered_words(words, i as int);
            }
            self.update_pair(w, false);
            if self.get_num_coupons() != (i + 1) as u64 {
                proof {
                    reveal(distinct_keys);
                    assert(gathered(words, i as int).contains(w));
                    let a = choose|a: int| 0 <= a < i && words[a] == w;
                    assert(key_of(words[a], false) == key_of(words[i as int], false));
                }
                return false;
            }
            proof {
                broadcast use vstd::set::group_set_axioms;

                assert(!gathered(words, i as int).contains(w));
                assert forall|a: int, b: int| 0 <= a < b < i + 1 implies words[a] != words[b] by {
                    if b == i {
                        assert(words[a] != EMPTY);
                    }
                }
            }
            i = i + 1;
        }
        proof {
            reveal(distinct_keys);
            lemma_gathered_words(words, n as int);
            assert forall|p: u32| gathered(words, n as int).contains(p) implies valid_pair(
                p,
                lg_k,
            ) by {
                let j = choose|j: int| 0 <= j < n && words[j] == p;
                assert(valid_pair(words[j], lg_k));
            }
            assert forall|j: int| 0 <= j < n implies words[j] != EMPTY by {
                assert(valid_pair(words[j], lg_k));
            }
        }
        true
    }

    /// Reads the coupons of the image of a sketch that is not sparse into
    /// a sketch that has collected nothing.
    fn read_dense(&mut self, bytes: &[u8]) -> (ok: bool)
        requires
            header_ok(bytes@),
            bytes@[2] >= 2,
            old(self).wf(),
            old(self)@ == CpcView::empty(bytes@[3], long_at(bytes@, 8)),
        ensures
            ok == dense_ok(bytes@),
            ok ==> final(self).wf() && final(self)@ == (CpcView {
                coupons: dense_set(bytes@),
                ..old(self)@
            }),
    {
        let len: usize = bytes.len();
        let lg_k: u8 = bytes[3];
        let offset: u64 = bytes[5] as u64;
        let k: usize = row_count(lg_k) as usize;
        if len < 40 + k || (len - 40 - k) % 4 != 0 {
            return false;
        }
        let n: usize = (len - 40 - k) / 4;
        if !fit_words(bytes, n) {
            return false;
        }
        let ghost words = dense_words(bytes@);
        let ghost window = dense_window(bytes@);
        let total: u64 = 64 * (k as u64);
        let mut p: u64 = 0;
        let mut next: usize = 0;
        proof {
            assert(self@.coupons =~= window_set_upto(lg_k, window, words, offset as int, 0));
        }
        while p < total
            invariant
                self.wf(),
                header_ok(bytes@),
                self@.lg_k == lg_k,
                lg_k == bytes@[3],
                offset == bytes@[5],
                self@.seed == old(self)@.seed,
                self@.hip == 0,
                !self@.merged,
                k == pow2(lg_k as nat),
                total == 64 * k,
                total <= 0x1_0000_0000,
                len == bytes@.len(),
                len == 40 + k + 4 * n,
                words == dense_words(bytes@),
                window == dense_window(bytes@),
                words.len() == n,
                words_fit(words, lg_k, offset as int),
                p <= total,
                next <= n,
                forall|j: int| 0 <= j < next ==> words[j] < p,
                forall|j: int| next <= j < n ==> words[j] >= p,
                self@.coupons == window_set_upto(lg_k, window, words, offset as int, p as int),
            decreases total - p,
        {
            let r: usize = (p / 64) as usize;
            let c: u64 = p % 64;
            let pair: u32 = p as u32;
            let mut set: bool = false;
            if c <= MAX_COLUMN as u64 {
                if c >= offset && c < offset + 8 {
                    set = (bytes[40 + r] >> ((c - offset) as u8)) & 1 == 1;
                    assert(window[r as int] == bytes@[40 + r]);
                } else {
                    let at_next: bool = next < n && read_word(bytes, 40 + k + 4 * next) == pair;
                    proof {
                        if next < n {
                            assert(words[next as int] == word_at(bytes@, 40 + k + 4 * next));
                        }
                        if words.contains(pair) {
                            let j = choose|j: int| 0 <= j < words.len() && words[j] == pair;
                            if next < j {
                                assert(words[next as int] < words[j]);
                            }
                        }
                        assert(at_next == words.contains(pair));
                    }
                    if at_next {
                        proof {
                            assert forall|j: int| next + 1 <= j < n implies words[j] >= p + 1 by {
                                assert(words[next as int] < words[j]);
                            }
                        }
                        next = next + 1;
                    }
                    set = if c < offset {
                        !at_next
                    } else {
                        at_next
                    };
                }
            }
            proof {
                assert(set == (valid_pair(pair, lg_k) && window_member(
                    window,
                    words,
                    offset as int,
                    pair,
                )));
                assert forall|j: int| next <= j < n implies words[j] >= p + 1 by {
                    if words[j] == p {
                        assert(valid_pair(words[j], lg_k));
                        assert(!in_window(pair_col(words[j]), offset as int));
                    }
                }
                let before = window_set_upto(lg_k, window, words, offset as int, p as int);
                let after = window_set_upto(lg_k, window, words, offset as int, p + 1);
                if set {
                    assert(after =~= before.insert(pair));
                } else {
                    assert(after =~= before);
                }
            }
            if set {
                self.update_pair(pair, false);
            }
            p = p + 1;
        }
        proof {
            assert(window_set_upto(lg_k, window, words, offset as int, total as int)
                =~= dense_set(bytes@));
            self.lemma_parts();
            assert(dense_set(bytes@).finite());
        }
        self.get_num_coupons() == read_long(bytes, 16)
    }

    /// Reads a sketch from an image.
    pub fn deserialize(bytes: &[u8]) -> (r: Result<CpcSketch, SketchError>)
        ensures
            match r {
                Ok(s) => s.wf() && decode(bytes@) == Some(s@),
                Err(e) => e == SketchError::CorruptData && decode(bytes@) is None,
            },
    {
        if bytes.len() < 40 {
            return Err(SketchError::CorruptData);
        }
        if bytes[0] != FAMILY_ID || bytes[1] != SERIAL_VERSION || bytes[2] > 4 || bytes[3]
            < MIN_LG_K || bytes[3] > MAX_LG_K || bytes[4] > 1 || bytes[5] > MAX_OFFSET || bytes[6]
            != 0 || bytes[7] != 0 {
            return Err(SketchError::CorruptData);
        }
        let lg_k: u8 = bytes[3];
        let seed: u64 = read_long(bytes, 8);
        let count: u64 = read_long(bytes, 16);
        let hip: u128 = read_wide(bytes, 24);
        if count > 0x1_0000_0000 {
            return Err(SketchError::CorruptData);
        }
        if flavor_for(lg_k, count).code() != bytes[2] || window_offset_for(lg_k, count)
            != bytes[5] {
            return Err(SketchError::CorruptData);
        }
        proof {
            lemma2_to64();
            lemma2_to64_rest();
            lemma_pow2_adds(lg_k as nat, 62);
        }
        let unit: u128 = (row_count(lg_k) as u128) * 0x4000_0000_0000_0000;
        assert(count * unit <= 0x1_0000_0000 * unit) by (nonlinear_arith)
            requires
                count <= 0x1_0000_0000,
                unit >= 0,
        ;
        if hip > (count as u128) * unit {
            return Err(SketchError::CorruptData);
        }
        let mut sketch: CpcSketch = match CpcSketch::new(lg_k, seed) {
            Ok(sketch) => sketch,
            Err(_) => {
                return Err(SketchError::CorruptData);
            },
        };
        let ok: bool = if bytes[2] <= 1 {
            sketch.read_sparse(bytes)
        } else {
            sketch.read_dense(bytes)
        };
        if !ok {
            return Err(SketchError::CorruptData);
        }
        proof {
            if bytes@[2] <= 1 {
                lemma_gathered_words(sparse_words(bytes@), sparse_words(bytes@).len() as int);
                reveal(distinct_keys);
                assert(sketch@.coupons.len() == count);
            }
        }
        sketch.set_accum(hip, bytes[4] == 1);
        Ok(sketch)
    }
}

/// Whether the surprising bits of an image are written as they must be:
/// in rising order, each a pair of the matrix, none in the window.
fn fit_words(bytes: &[u8], n: usize) -> (ok: bool)
    requires
        header_ok(bytes@),
        bytes@.len() == 40 + pow2(bytes@[3] as nat) + 4 * n,
    ensures
        ok == words_fit(dense_words(bytes@), bytes@[3], bytes@[5] as int),
{
    let len: usize = bytes.len();
    let lg_k: u8 = bytes[3];
    let offset: u32 = bytes[5] as u32;
    let k: usize = row_count(lg_k) as usize;
    let ghost words = dense_words(bytes@);
    let mut j: usize = 0;
    let mut prev: u32 = 0;
    while j < n
        invariant
            header_ok(bytes@),
            lg_k == bytes@[3],
            offset == bytes@[5],
            k == pow2(lg_k as nat),
            len == bytes@.len(),
            len == 40 + k + 4 * n,
            words == dense_words(bytes@),
            words.len() == n,
            j <= n,
            j > 0 ==> prev == words[j - 1],
            forall|a: int, b: int| 0 <= a < b < j ==> words[a] < words[b],
            forall|i: int|
                0 <= i < j ==> valid_pair(#[trigger] words[i], lg_k) && !in_window(
                    pair_col(words[i]),
                    offset as int,
                ),
        decreases n - j,
    {
        let w: u32 = read_word(bytes, 40 + k + 4 * j);
        assert(w == words[j as int]);
        let c: u32 = w % ROW_STRIDE;
        if !is_pair(w, lg_k) || (c >= offset && c < offset + 8) {
            return false;
        }
        if j > 0 && prev >= w {
            proof {
                assert(!(words[j - 1] < words[j as int]));
            }
            return false;
        }
        proof {
            assert forall|a: int, b: int| 0 <= a < b < j + 1 implies words[a] < words[b] by {
                if b == j && a < j - 1 {
                    assert(words[a] < words[j - 1]);
                }
            }
        }
        prev = w;
        j = j + 1;
    }
    true
}

} // verus!
