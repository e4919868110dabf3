//! The CPC sketch.
use crate::cpc::DEFAULT_LG_K;
use crate::cpc::Flavor;
use crate::cpc::MAX_COLUMN;
use crate::cpc::MAX_LG_K;
use crate::cpc::MAX_OFFSET;
use crate::cpc::MIN_LG_K;
use crate::cpc::ROW_STRIDE;
use crate::cpc::estimate::CpcBound;
use crate::cpc::estimate::CpcEstimate;
use crate::cpc::flavor_for;
use crate::cpc::make_pair;
use crate::cpc::model::CpcView;
use crate::cpc::model::cell_weight;
use crate::cpc::model::hip_step;
use crate::cpc::model::kxp_of;
use crate::cpc::model::lemma_cell_weight;
use crate::cpc::model::lemma_kxp;
use crate::cpc::model::lemma_mass_empty;
use crate::cpc::model::lemma_pairs_bounded;
use crate::cpc::pair_col;
use crate::cpc::pair_of_hash;
use crate::cpc::pair_row;
use crate::cpc::row_count;
use crate::cpc::valid_pair;
use crate::cpc::window::expand;
use crate::cpc::window::lemma_compress;
use crate::cpc::window::lemma_row_set;
use crate::cpc::window::lemma_rows_empty;
use crate::cpc::window::lemma_set_bit;
use crate::cpc::window::lemma_window_put;
use crate::cpc::window::lemma_words_put;
use crate::cpc::window::matrix_set;
use crate::cpc::window::surprises;
use crate::cpc::window::take_surprises;
use crate::cpc::window::take_window;
use crate::cpc::window::window_of;
use crate::cpc::window::window_set;
use crate::cpc::window::words_fit;
use crate::cpc::window_offset_for;
use crate::cpc::window_offset_of;
use crate::error::SketchError;
use crate::hash::DEFAULT_SEED;
use crate::hash::hash_bytes;
use crate::hash::hash_of_bytes;
use crate::hash::hash_of_word;
use crate::hash::hash_word;
use crate::hash::i64_word;
use crate::hash::signed16;
use crate::hash::signed32;
use crate::hash::signed8;
use crate::hash::to_signed16;
use crate::hash::to_signed32;
use crate::hash::to_signed8;
use crate::hash::word_of_i64;
use crate::sort::insert_rising;
use crate::sort::lower_bound;
use crate::sort::remove_rising;
use crate::table::EMPTY;
use crate::table::PairTable;
use crate::table::gathered;
use crate::table::key_of;
use vstd::arithmetic::div_mod::lemma_multiply_divide_le;
use vstd::arithmetic::power2::lemma2_to64;
use vstd::arithmetic::power2::lemma2_to64_rest;
use vstd::arithmetic::power2::lemma_pow2_strictly_increases;
use vstd::arithmetic::power2::pow2;
use vstd::prelude::*;
use vstd::string::StringSliceAdditionalSpecFns;

verus! {

/// Two to the power 62.
pub const TWO_62: u128 = 0x4000_0000_0000_0000;

/// The weight of the cells of a column.
fn weigh_cell(col: u32) -> (w: u128)
    requires
        col <= MAX_COLUMN,
    ensures
        w == cell_weight(col as int),
        1 <= w <= 0x20_0000_0000,
{
    proof {
        lemma_cell_weight(col as int);
    }
    if col >= MAX_COLUMN as u32 {
        1
    } else {
        proof {
            vstd::bits::lemma_u64_shl_is_mul(1u64, (37 - col) as u64);
        }
        (1u64 << ((37 - col) as u64)) as u128
    }
}

/// A CPC sketch: a summary of a stream from which the number of distinct
/// items in the stream can be estimated.
///
/// The sketch holds its coupons in one of three forms: as a table of
/// pairs, while it is sparse; as a window with the list of the surprising
/// bits; or, where the surprising bits are too many to be held as a list,
/// as the matrix itself, a word for each row.
pub struct CpcSketch {
    lg_k: u8,
    seed: u64,
    merged: bool,
    num_coupons: u64,
    table: PairTable,
    window: Vec<u8>,
    words: Vec<u32>,
    offset: u8,
    rows: Vec<u64>,
    kxp: u128,
    hip_accum: u128,
}

impl View for CpcSketch {
    type V = CpcView;

    /// The state of the sketch.
    closed spec fn view(&self) -> CpcView {
        CpcView {
            lg_k: self.lg_k,
            seed: self.seed,
            coupons: if self.rows@.len() != 0 {
                matrix_set(self.rows@)
            } else if self.window@.len() != 0 {
                window_set(self.lg_k, self.window@, self.words@, self.offset as int)
            } else {
                self.table.entries()
            },
            hip: self.hip_accum as nat,
            merged: self.merged,
        }
    }
}

impl CpcSketch {
    /// The table of pairs, which holds the coupons of a sparse sketch.
    pub closed spec fn pair_table(&self) -> PairTable {
        self.table
    }

    /// The words of the rows of the matrix, where the sketch holds the
    /// matrix itself.
    pub closed spec fn matrix(&self) -> Seq<u64> {
        self.rows@
    }

    /// The window, where the sketch holds a window.
    pub closed spec fn window_bytes(&self) -> Seq<u8> {
        self.window@
    }

    /// The surprising bits, where the sketch holds a window.
    pub closed spec fn surprise_words(&self) -> Seq<u32> {
        self.words@
    }

    /// The offset of the window that the sketch holds.
    pub closed spec fn held_offset(&self) -> u8 {
        self.offset
    }

    /// The invariant of the sketch.
    pub closed spec fn wf(&self) -> bool {
        let k = pow2(self.lg_k as nat);
        &&& MIN_LG_K <= self.lg_k <= MAX_LG_K
        &&& self.table.wf()
        &&& !self.table.keyed_by_address()
        &&& self@.coupons.finite()
        &&& self@.coupons.len() == self.num_coupons
        &&& forall|p: u32| self@.coupons.contains(p) ==> valid_pair(p, self.lg_k)
        &&& self.kxp == kxp_of(self@.coupons, self.lg_k)
        &&& self.hip_accum <= self.num_coupons * pow2((self.lg_k + 62) as nat)
        &&& if self.rows@.len() != 0 {
            &&& self.rows@.len() == k
            &&& self.window@.len() == 0
            &&& self.words@.len() == 0
            &&& self.table.size() == 0
            &&& 32 * self.num_coupons >= 3 * k
            &&& forall|r: int| 0 <= r < k ==> #[trigger] self.rows@[r] < 0x80_0000_0000
        } else if self.window@.len() != 0 {
            &&& self.window@.len() == k
            &&& self.table.size() == 0
            &&& 32 * self.num_coupons >= 3 * k
            &&& self.offset == window_offset_of(self.lg_k, self.num_coupons as int)
            &&& words_fit(self.words@, self.lg_k, self.offset as int)
        } else {
            &&& self.words@.len() == 0
            &&& 32 * self.num_coupons < 3 * k
        }
    }

    /// How the state of a sketch follows from its parts, and what holds of
    /// them.
    pub proof fn lemma_parts(&self)
        requires
            self.wf(),
        ensures
            self@.valid(),
            self.pair_table().wf(),
            !self.pair_table().keyed_by_address(),
            self@.flavor().is_sparse() <==> self.matrix().len() == 0 && self.window_bytes().len()
                == 0,
            self.matrix().len() == 0 && self.window_bytes().len() == 0 ==> self@.coupons
                == self.pair_table().entries() && self.pair_table().size()
                == self@.coupons.len(),
            self.window_bytes().len() != 0 ==> {
                &&& self.matrix().len() == 0
                &&& self.window_bytes().len() == pow2(self@.lg_k as nat)
                &&& self.held_offset() == self@.window_offset()
                &&& self.held_offset() <= MAX_OFFSET
                &&& words_fit(self.surprise_words(), self@.lg_k, self.held_offset() as int)
                &&& self@.coupons == window_set(
                    self@.lg_k,
                    self.window_bytes(),
                    self.surprise_words(),
                    self.held_offset() as int,
                )
            },
            self.matrix().len() != 0 ==> self@.coupons == matrix_set(self.matrix())
                && self.matrix().len() == pow2(self@.lg_k as nat) && forall|r: int|
                0 <= r < self.matrix().len() ==> #[trigger] self.matrix()[r] < 0x80_0000_0000,
            self@.coupons.len() <= 64 * pow2(self@.lg_k as nat),
            64 * pow2(self@.lg_k as nat) <= 0x1_0000_0000,
    {
        lemma_pairs_bounded(self@.coupons, self.lg_k);
        if self.rows@.len() == 0 && self.window@.len() == 0 {
            self.table.lemma_size();
        }
    }

    /// Creates a sketch of `2^lg_k` rows that has collected nothing and
    /// hashes its items under `seed`.
    pub fn new(lg_k: u8, seed: u64) -> (r: Result<CpcSketch, SketchError>)
        ensures
            match r {
                Ok(s) => {
                    &&& MIN_LG_K <= lg_k <= MAX_LG_K
                    &&& s.wf()
                    &&& s@ == CpcView::empty(lg_k, seed)
                },
                Err(e) => e == SketchError::InvalidConfig && !(MIN_LG_K <= lg_k <= MAX_LG_K),
            },
    {
        if lg_k < MIN_LG_K || lg_k > MAX_LG_K {
            return Err(SketchError::InvalidConfig);
        }
        let k: u64 = row_count(lg_k);
        let table: PairTable = PairTable::new(2, false);
        proof {
            lemma2_to64();
            lemma2_to64_rest();
            vstd::arithmetic::power2::lemma_pow2_adds(lg_k as nat, 38);
            lemma_mass_empty((ROW_STRIDE * pow2(lg_k as nat)) as nat);
            lemma_pow2_strictly_increases(3, lg_k as nat);
        }
        let s = CpcSketch {
            lg_k,
            seed,
            merged: false,
            num_coupons: 0,
            table,
            window: Vec::new(),
            words: Vec::new(),
            offset: 0,
            rows: Vec::new(),
            kxp: (k as u128) * 0x40_0000_0000,
            hip_accum: 0,
        };
        Ok(s)
    }

    /// The largest number of surprising bits that the sketch holds as a
    /// list: half the number of rows.
    fn surprise_limit(&self) -> (limit: usize)
        requires
            MIN_LG_K <= self.lg_k <= MAX_LG_K,
        ensures
            limit == pow2(self.lg_k as nat) / 2,
    {
        (row_count(self.lg_k) / 2) as usize
    }

    /// Leaves the sparse form: the pairs of the table are set as bits in a
    /// new matrix.
    fn densify(&mut self)
        requires
            old(self).rows@.len() == 0,
            MIN_LG_K <= old(self).lg_k <= MAX_LG_K,
            old(self).table.wf(),
            forall|p: u32| old(self).table.contains(p) ==> valid_pair(p, old(self).lg_k),
        ensures
            final(self).rows@.len() == pow2(old(self).lg_k as nat),
            matrix_set(final(self).rows@) == old(self).table.entries(),
            forall|r: int|
                0 <= r < final(self).rows@.len() ==> #[trigger] final(self).rows@[r]
                    < 0x80_0000_0000,
            final(self).table.wf(),
            !final(self).table.keyed_by_address(),
            final(self).table.size() == 0,
            final(self).lg_k == old(self).lg_k,
            final(self).seed == old(self).seed,
            final(self).merged == old(self).merged,
            final(self).num_coupons == old(self).num_coupons,
            final(self).kxp == old(self).kxp,
            final(self).hip_accum == old(self).hip_accum,
            final(self).window == old(self).window,
            final(self).words == old(self).words,
            final(self).offset == old(self).offset,
    {
        let k: usize = row_count(self.lg_k) as usize;
        let mut rows: Vec<u64> = vec![0u64; k];
        let n: usize = self.table.capacity();
        let mut i: usize = 0;
        proof {
            lemma_rows_empty(rows@);
        }
        while i < n
            invariant
                *self == *old(self),
                n == self.table.cells().len(),
                i <= n,
                k == pow2(self.lg_k as nat),
                rows@.len() == k,
                forall|p: u32| self.table.contains(p) ==> valid_pair(p, self.lg_k),
                forall|r: int| 0 <= r < k ==> #[trigger] rows@[r] < 0x80_0000_0000,
                matrix_set(rows@) == gathered(self.table.cells(), i as int),
            decreases n - i,
        {
            let pair: u32 = self.table.slot(i);
            if pair != EMPTY {
                proof {
                    assert(self.table.cells()[i as int] == pair);
                    assert(self.table.contains(pair));
                    assert(valid_pair(pair, self.lg_k));
                    lemma_row_set(rows@, pair);
                    lemma_set_bit(rows@[pair_row(pair)], pair_col(pair) as u64, 0);
                }
                let r: usize = (pair / ROW_STRIDE) as usize;
                let c: u32 = pair % ROW_STRIDE;
                let row: u64 = rows[r];
                rows.set(r, row | (1u64 << (c as u64)));
            }
            i = i + 1;
        }
        proof {
            self.table.lemma_gathered_entries();
        }
        self.rows = rows;
        self.table = PairTable::new(2, false);
    }

    /// Goes from the matrix to the window at the offset that belongs to
    /// the number of coupons, if the surprising bits are few enough to be
    /// held as a list: no more than half as many as there are rows. Then
    /// the sketch holds the window of the matrix at that offset and the
    /// list of its surprising bits, and the matrix no more. Else it holds
    /// the matrix as before. The coupons stay the same either way.
    fn settle(&mut self)
        requires
            old(self).wf(),
            old(self).rows@.len() != 0,
        ensures
            final(self).wf(),
            final(self)@ == old(self)@,
            ({
                let offset = old(self)@.window_offset();
                let words = surprises(old(self).matrix(), offset);
                if words.len() <= pow2(old(self)@.lg_k as nat) / 2 {
                    &&& final(self).matrix().len() == 0
                    &&& final(self).window_bytes() == window_of(old(self).matrix(), offset)
                    &&& final(self).surprise_words() == words
                    &&& final(self).held_offset() == offset
                } else {
                    &&& final(self).matrix() == old(self).matrix()
                    &&& final(self).window_bytes().len() == 0
                    &&& final(self).surprise_words().len() == 0
                }
            }),
    {
        proof {
            self.lemma_parts();
        }
        let offset: u8 = window_offset_for(self.lg_k, self.num_coupons);
        let limit: usize = self.surprise_limit();
        match take_surprises(&self.rows, offset, limit) {
            None => {},
            Some(words) => {
                let window: Vec<u8> = take_window(&self.rows, offset);
                proof {
                    lemma_compress(self.rows@, self.lg_k, offset);
                }
                self.window = window;
                self.words = words;
                self.offset = offset;
                self.rows = Vec::new();
            },
        }
    }

    /// Goes from the window to the matrix.
    fn unsettle(&mut self)
        requires
            old(self).wf(),
            old(self).rows@.len() == 0,
            old(self).window@.len() != 0,
        ensures
            final(self).wf(),
            final(self)@ == old(self)@,
            final(self).rows@.len() != 0,
    {
        let rows: Vec<u64> = expand(&self.window, &self.words, self.offset, self.lg_k);
        proof {
            lemma_kxp_bounds(self.lg_k);
        }
        self.rows = rows;
        self.window = Vec::new();
        self.words = Vec::new();
    }

    /// Counts a pair that was just collected and was not held before.
    fn count_new(&mut self, pair: u32, step: bool, Ghost(before): Ghost<Set<u32>>)
        requires
            MIN_LG_K <= old(self).lg_k <= MAX_LG_K,
            before.finite(),
            before.len() == old(self).num_coupons,
            forall|p: u32| before.contains(p) ==> valid_pair(p, old(self).lg_k),
            valid_pair(pair, old(self).lg_k),
            !before.contains(pair),
            old(self).kxp == kxp_of(before, old(self).lg_k),
            old(self).hip_accum <= old(self).num_coupons * pow2((old(self).lg_k + 62) as nat),
        ensures
            final(self).lg_k == old(self).lg_k,
            final(self).seed == old(self).seed,
            final(self).merged == old(self).merged,
            final(self).table == old(self).table,
            final(self).rows == old(self).rows,
            final(self).window == old(self).window,
            final(self).words == old(self).words,
            final(self).offset == old(self).offset,
            final(self).num_coupons == old(self).num_coupons + 1,
            final(self).num_coupons == before.insert(pair).len(),
            final(self).num_coupons <= 0x1_0000_0000,
            before.insert(pair).finite(),
            forall|p: u32| before.insert(pair).contains(p) ==> valid_pair(p, old(self).lg_k),
            final(self).kxp == kxp_of(before.insert(pair), old(self).lg_k),
            final(self).hip_accum == old(self).hip_accum + if step {
                hip_step(old(self).lg_k, kxp_of(before, old(self).lg_k))
            } else {
                0
            },
            final(self).hip_accum <= final(self).num_coupons * pow2((old(self).lg_k + 62) as nat),
    {
        broadcast use vstd::set::group_set_axioms;

        let k: u64 = row_count(self.lg_k);
        let ghost unit = pow2((self.lg_k + 62) as nat) as int;
        proof {
            lemma_kxp(before, self.lg_k, pair);
            let more = before.insert(pair);
            assert forall|p: u32| more.contains(p) implies valid_pair(p, self.lg_k) by {
                if p != pair {
                    assert(before.contains(p));
                }
            }
            lemma_pairs_bounded(more, self.lg_k);
            assert((self.num_coupons + 1) * unit == self.num_coupons * unit + unit)
                by (nonlinear_arith);
            assert(self.num_coupons * unit <= 0x1_0000_0000 * unit) by (nonlinear_arith)
                requires
                    self.num_coupons <= 0x1_0000_0000,
                    unit >= 0,
            ;
        }
        if step {
            let top: u128 = (k as u128) * TWO_62;
            let inc: u128 = top / self.kxp;
            proof {
                assert(top <= self.kxp * top) by (nonlinear_arith)
                    requires
                        self.kxp >= 1,
                        top >= 0,
                ;
                lemma_multiply_divide_le(top as int, self.kxp as int, top as int);
            }
            self.hip_accum = self.hip_accum + inc;
        }
        self.kxp = self.kxp - weigh_cell(pair % ROW_STRIDE);
        self.num_coupons = self.num_coupons + 1;
    }

    /// Shows a sparse sketch a pair.
    fn update_sparse(&mut self, pair: u32, step: bool)
        requires
            old(self).wf(),
            old(self).rows@.len() == 0,
            old(self).window@.len() == 0,
            valid_pair(pair, old(self)@.lg_k),
        ensures
            final(self).wf(),
            final(self)@ == if step {
                old(self)@.absorb(pair)
            } else {
                old(self)@.with_pair(pair)
            },
    {
        broadcast use vstd::set::group_set_axioms;

        let ghost before = self@.coupons;
        proof {
            self.table.lemma_size();
            lemma_kxp_bounds(self.lg_k);
        }
        let prev = self.table.put(pair);
        if prev.is_some() {
            proof {
                assert(prev->0 == pair);
                assert(self.table.entries() =~= before);
                assert(before.insert(pair) =~= before);
            }
            return;
        }
        proof {
            assert(!before.contains(pair)) by {
                if old(self).table.contains(pair) {
                    assert(key_of(pair, false) == pair);
                }
            }
            assert(self.table.entries() =~= before.insert(pair));
        }
        self.count_new(pair, step, Ghost(before));
        let k: u64 = row_count(self.lg_k);
        if 32 * self.num_coupons >= 3 * k {
            proof {
                assert forall|p: u32| self.table.contains(p) implies valid_pair(p, self.lg_k) by {
                    assert(before.insert(pair).contains(p));
                }
            }
            self.densify();
            self.settle();
        }
    }

    /// Shows a sketch that holds the matrix a pair.
    fn update_matrix(&mut self, pair: u32, step: bool)
        requires
            old(self).wf(),
            old(self).rows@.len() != 0,
            valid_pair(pair, old(self)@.lg_k),
        ensures
            final(self).wf(),
            final(self)@ == if step {
                old(self)@.absorb(pair)
            } else {
                old(self)@.with_pair(pair)
            },
    {
        broadcast use vstd::set::group_set_axioms;

        let ghost before = self@.coupons;
        proof {
            lemma_row_set(self.rows@, pair);
            lemma_set_bit(self.rows@[pair_row(pair)], pair_col(pair) as u64, 0);
            lemma_pairs_bounded(before, self.lg_k);
        }
        let r: usize = (pair / ROW_STRIDE) as usize;
        let c: u32 = pair % ROW_STRIDE;
        let row: u64 = self.rows[r];
        let mask: u64 = 1u64 << (c as u64);
        if row & mask != 0 {
            proof {
                assert(before.insert(pair) =~= before);
            }
            return;
        }
        let was: u8 = window_offset_for(self.lg_k, self.num_coupons);
        self.rows.set(r, row | mask);
        self.count_new(pair, step, Ghost(before));
        // The way back to the window is tried where the window moves, and
        // once in as many new coupons as there are rows.
        if window_offset_for(self.lg_k, self.num_coupons) != was || self.num_coupons % row_count(
            self.lg_k,
        ) == 0 {
            self.settle();
        }
    }

    /// Counts a pair that was just collected by a sketch that holds a
    /// window, and moves the window if it is due.
    fn count_windowed(&mut self, pair: u32, step: bool, Ghost(before): Ghost<Set<u32>>)
        requires
            MIN_LG_K <= old(self).lg_k <= MAX_LG_K,
            old(self).table.wf(),
            !old(self).table.keyed_by_address(),
            old(self).table.size() == 0,
            old(self).rows@.len() == 0,
            old(self).window@.len() == pow2(old(self).lg_k as nat),
            old(self).offset == window_offset_of(old(self).lg_k, old(self).num_coupons as int),
            words_fit(old(self).words@, old(self).lg_k, old(self).offset as int),
            32 * old(self).num_coupons >= 3 * pow2(old(self).lg_k as nat),
            before.finite(),
            before.len() == old(self).num_coupons,
            forall|p: u32| before.contains(p) ==> valid_pair(p, old(self).lg_k),
            valid_pair(pair, old(self).lg_k),
            !before.contains(pair),
            window_set(
                old(self).lg_k,
                old(self).window@,
                old(self).words@,
                old(self).offset as int,
            ) == before.insert(pair),
            old(self).kxp == kxp_of(before, old(self).lg_k),
            old(self).hip_accum <= old(self).num_coupons * pow2((old(self).lg_k + 62) as nat),
        ensures
            final(self).wf(),
            final(self)@ == (CpcView {
                lg_k: old(self).lg_k,
                seed: old(self).seed,
                coupons: before.insert(pair),
                hip: (old(self).hip_accum + if step {
                    hip_step(old(self).lg_k, kxp_of(before, old(self).lg_k))
                } else {
                    0
                }) as nat,
                merged: old(self).merged,
            }),
    {
        proof {
            lemma_kxp_bounds(self.lg_k);
        }
        self.count_new(pair, step, Ghost(before));
        if window_offset_for(self.lg_k, self.num_coupons) != self.offset {
            let rows: Vec<u64> = expand(&self.window, &self.words, self.offset, self.lg_k);
            self.rows = rows;
            self.window = Vec::new();
            self.words = Vec::new();
            self.settle();
        }
    }

    /// Shows a sketch that holds a window a pair.
    fn update_window(&mut self, pair: u32, step: bool)
        requires
            old(self).wf(),
            old(self).rows@.len() == 0,
            old(self).window@.len() != 0,
            valid_pair(pair, old(self)@.lg_k),
        ensures
            final(self).wf(),
            final(self)@ == if step {
                old(self)@.absorb(pair)
            } else {
                old(self)@.with_pair(pair)
            },
    {
        broadcast use vstd::set::group_set_axioms;

        let ghost before = self@.coupons;
        let r: usize = (pair / ROW_STRIDE) as usize;
        let c: u32 = pair % ROW_STRIDE;
        let offset: u32 = self.offset as u32;
        proof {
            lemma_kxp_bounds(self.lg_k);
            lemma_flavor_offset(self.lg_k, self.num_coupons as int);
        }
        if c >= offset && c < offset + 8 {
            proof {
                lemma_window_put(self.lg_k, self.window@, self.words@, self.offset as int, pair);
            }
            let byte: u8 = self.window[r];
            let mask: u8 = 1u8 << ((c - offset) as u8);
            if byte & mask != 0 {
                proof {
                    assert(before.insert(pair) =~= before);
                }
                return;
            }
            self.window.set(r, byte | mask);
            self.count_windowed(pair, step, Ghost(before));
        } else if c < offset {
            let ghost words = self.words@;
            let found: bool = remove_rising(&mut self.words, pair);
            if !found {
                proof {
                    assert(self.words@ =~= words) by {
                        crate::sort::lemma_rising_same(self.words@, words);
                    }
                    assert(before.insert(pair) =~= before);
                }
                return;
            }
            proof {
                lemma_words_put(
                    self.lg_k,
                    self.window@,
                    words,
                    self.words@,
                    self.offset as int,
                    pair,
                );
            }
            self.count_windowed(pair, step, Ghost(before));
        } else {
            let at: usize = lower_bound(&self.words, pair);
            if at < self.words.len() && self.words[at] == pair {
                proof {
                    assert(before.insert(pair) =~= before);
                }
                return;
            }
            if self.words.len() >= self.surprise_limit() {
                self.unsettle();
                self.update_matrix(pair, step);
                return;
            }
            let ghost words = self.words@;
            let _ = insert_rising(&mut self.words, pair);
            proof {
                lemma_words_put(
                    self.lg_k,
                    self.window@,
                    words,
                    self.words@,
                    self.offset as int,
                    pair,
                );
            }
            self.count_windowed(pair, step, Ghost(before));
        }
    }

    /// Shows the sketch a pair. With `step`, a pair that is new feeds the
    /// accumulator.
    pub fn update_pair(&mut self, pair: u32, step: bool)
        requires
            old(self).wf(),
            valid_pair(pair, old(self)@.lg_k),
        ensures
            final(self).wf(),
            final(self)@ == if step {
                old(self)@.absorb(pair)
            } else {
                old(self)@.with_pair(pair)
            },
    {
        if self.rows.len() != 0 {
            self.update_matrix(pair, step);
        } else if self.window.len() != 0 {
            self.update_window(pair, step);
        } else {
            self.update_sparse(pair, step);
        }
    }

    /// The binary logarithm of the number of rows.
    pub fn get_lg_k(&self) -> (lg_k: u8)
        ensures
            lg_k == self@.lg_k,
    {
        self.lg_k
    }

    /// The seed under which items are hashed.
    pub fn get_seed(&self) -> (seed: u64)
        ensures
            seed == self@.seed,
    {
        self.seed
    }

    /// Whether the sketch came out of a union.
    pub fn is_merged(&self) -> (merged: bool)
        ensures
            merged == self@.merged,
    {
        self.merged
    }

    /// The number of coupons collected.
    pub fn get_num_coupons(&self) -> (n: u64)
        requires
            self.wf(),
        ensures
            n == self@.coupons.len(),
            n <= 0x1_0000_0000,
    {
        proof {
            self.lemma_parts();
        }
        self.num_coupons
    }

    /// The flavor of the sketch.
    pub fn get_flavor(&self) -> (f: Flavor)
        requires
            self.wf(),
        ensures
            f == self@.flavor(),
    {
        flavor_for(self.lg_k, self.get_num_coupons())
    }

    /// The offset of the window of the sketch.
    pub fn get_window_offset(&self) -> (offset: u8)
        requires
            self.wf(),
        ensures
            offset == self@.window_offset(),
    {
        window_offset_for(self.lg_k, self.get_num_coupons())
    }

    /// Whether the sketch has collected nothing.
    pub fn is_empty(&self) -> (empty: bool)
        requires
            self.wf(),
        ensures
            empty == (self@.coupons.len() == 0),
    {
        self.num_coupons == 0
    }

    /// The accumulator of the HIP estimator, in units of `2^-24`.
    pub fn get_hip_accum(&self) -> (hip: u128)
        ensures
            hip == self@.hip,
    {
        self.hip_accum
    }

    /// The chance that the next item brings a new coupon, times the number
    /// of rows, in units of `2^-38`.
    pub fn get_kxp(&self) -> (kxp: u128)
        requires
            self.wf(),
        ensures
            kxp == kxp_of(self@.coupons, self@.lg_k),
    {
        self.kxp
    }

    /// Whether the sketch holds a window and the list of the surprising
    /// bits.
    pub fn holds_window(&self) -> (yes: bool)
        ensures
            yes == (self.window_bytes().len() != 0),
    {
        self.window.len() != 0
    }

    /// Whether the sketch holds the matrix itself.
    pub fn holds_matrix(&self) -> (yes: bool)
        ensures
            yes == (self.matrix().len() != 0),
    {
        self.rows.len() != 0
    }

    /// The table of pairs.
    pub fn table_ref(&self) -> (table: &PairTable)
        ensures
            *table == self.pair_table(),
    {
        &self.table
    }

    /// The words of the rows of the matrix.
    pub fn rows_ref(&self) -> (rows: &Vec<u64>)
        ensures
            rows@ == self.matrix(),
    {
        &self.rows
    }

    /// The window.
    pub fn window_ref(&self) -> (window: &Vec<u8>)
        ensures
            window@ == self.window_bytes(),
    {
        &self.window
    }

    /// The surprising bits.
    pub fn words_ref(&self) -> (words: &Vec<u32>)
        ensures
            words@ == self.surprise_words(),
    {
        &self.words
    }

    /// The estimate of the number of distinct items seen.
    pub fn get_estimate(&self) -> (e: CpcEstimate)
        requires
            self.wf(),
        ensures
            e == self@.estimate(),
    {
        if self.merged {
            CpcEstimate::Icon { lg_k: self.lg_k, num_coupons: self.get_num_coupons() }
        } else {
            CpcEstimate::Hip { accum: self.hip_accum }
        }
    }

    /// The lower error bound for a confidence interval of width `kappa`.
    pub fn get_lower_bound(&self, kappa: u32) -> (r: Result<CpcBound, SketchError>)
        requires
            self.wf(),
        ensures
            match r {
                Ok(b) => 1 <= kappa <= 3 && b == self@.bound(kappa, false),
                Err(e) => e == SketchError::InvalidConfig && !(1 <= kappa <= 3),
            },
    {
        if kappa < 1 || kappa > 3 {
            return Err(SketchError::InvalidConfig);
        }
        Ok(CpcBound { estimate: self.get_estimate(), lg_k: self.lg_k, kappa, upper: false })
    }

    /// The upper error bound for a confidence interval of width `kappa`.
    pub fn get_upper_bound(&self, kappa: u32) -> (r: Result<CpcBound, SketchError>)
        requires
            self.wf(),
        ensures
            match r {
                Ok(b) => 1 <= kappa <= 3 && b == self@.bound(kappa, true),
                Err(e) => e == SketchError::InvalidConfig && !(1 <= kappa <= 3),
            },
    {
        if kappa < 1 || kappa > 3 {
            return Err(SketchError::InvalidConfig);
        }
        Ok(CpcBound { estimate: self.get_estimate(), lg_k: self.lg_k, kappa, upper: true })
    }

    /// Puts the accumulator to a given value within its bound, and says
    /// whether the sketch came out of a union.
    pub fn set_accum(&mut self, hip: u128, merged: bool)
        requires
            old(self).wf(),
            hip <= old(self)@.coupons.len() * pow2((old(self)@.lg_k + 62) as nat),
        ensures
            final(self).wf(),
            final(self)@ == (CpcView { hip: hip as nat, merged, ..old(self)@ }),
    {
        self.hip_accum = hip;
        self.merged = merged;
    }

    /// Shows the sketch a string. An empty string is no item and changes
    /// nothing.
    pub fn update_string(&mut self, datum: &str)
        requires
            old(self).wf(),
        ensures
            final(self).wf(),
            final(self)@ == if datum@.len() == 0 {
                old(self)@
            } else {
                old(self)@.absorb(
                    pair_of_hash(
                        hash_of_bytes(datum.spec_bytes(), old(self)@.seed),
                        old(self)@.lg_k,
                    ),
                )
            },
    {
        if datum.is_empty() {
            return;
        }
        self.update(hash_bytes(datum.as_bytes(), self.seed));
    }

    /// Shows the sketch an unsigned 64-bit integer.
    pub fn update_u64(&mut self, datum: u64)
        requires
            old(self).wf(),
        ensures
            final(self).wf(),
            final(self)@ == old(self)@.absorb(
                pair_of_hash(hash_of_word(datum, old(self)@.seed), old(self)@.lg_k),
            ),
    {
        self.update(hash_word(datum, self.seed));
    }

    /// Shows the sketch a signed 64-bit integer.
    pub fn update_i64(&mut self, datum: i64)
        requires
            old(self).wf(),
        ensures
            final(self).wf(),
            final(self)@ == old(self)@.absorb(
                pair_of_hash(hash_of_word(word_of_i64(datum), old(self)@.seed), old(self)@.lg_k),
            ),
    {
        self.update(hash_word(i64_word(datum), self.seed));
    }

    /// Shows the sketch a signed 32-bit integer.
    pub fn update_i32(&mut self, datum: i32)
        requires
            old(self).wf(),
        ensures
            final(self).wf(),
            final(self)@ == old(self)@.absorb(
                pair_of_hash(
                    hash_of_word(word_of_i64(datum as i64), old(self)@.seed),
                    old(self)@.lg_k,
                ),
            ),
    {
        self.update_i64(datum as i64);
    }

    /// Shows the sketch a signed 16-bit integer.
    pub fn update_i16(&mut self, datum: i16)
        requires
            old(self).wf(),
        ensures
            final(self).wf(),
            final(self)@ == old(self)@.absorb(
                pair_of_hash(
                    hash_of_word(word_of_i64(datum as i64), old(self)@.seed),
                    old(self)@.lg_k,
                ),
            ),
    {
        self.update_i64(datum as i64);
    }

    /// Shows the sketch a signed 8-bit integer.
    pub fn update_i8(&mut self, datum: i8)
        requires
            old(self).wf(),
        ensures
            final(self).wf(),
            final(self)@ == old(self)@.absorb(
                pair_of_hash(
                    hash_of_word(word_of_i64(datum as i64), old(self)@.seed),
                    old(self)@.lg_k,
                ),
            ),
    {
        self.update_i64(datum as i64);
    }

    /// Shows the sketch an unsigned 32-bit integer, which counts as the
    /// signed integer with the same 32 bits.
    pub fn update_u32(&mut self, datum: u32)
        requires
            old(self).wf(),
        ensures
            final(self).wf(),
            final(self)@ == old(self)@.absorb(
                pair_of_hash(
                    hash_of_word(word_of_i64(signed32(datum) as i64), old(self)@.seed),
                    old(self)@.lg_k,
                ),
            ),
    {
        self.update_i64(to_signed32(datum) as i64);
    }

    /// Shows the sketch an unsigned 16-bit integer, which counts as the
    /// signed integer with the same 16 bits.
    pub fn update_u16(&mut self, datum: u16)
        requires
            old(self).wf(),
        ensures
            final(self).wf(),
            final(self)@ == old(self)@.absorb(
                pair_of_hash(
                    hash_of_word(word_of_i64(signed16(datum) as i64), old(self)@.seed),
                    old(self)@.lg_k,
                ),
            ),
    {
        self.update_i64(to_signed16(datum) as i64);
    }

    /// Shows the sketch an unsigned 8-bit integer, which counts as the
    /// signed integer with the same 8 bits.
    pub fn update_u8(&mut self, datum: u8)
        requires
            old(self).wf(),
        ensures
            final(self).wf(),
            final(self)@ == old(self)@.absorb(
                pair_of_hash(
                    hash_of_word(word_of_i64(signed8(datum) as i64), old(self)@.seed),
                    old(self)@.lg_k,
                ),
            ),
    {
        self.update_i64(to_signed8(datum) as i64);
    }

    /// Shows the sketch the hash of an item.
    pub fn update(&mut self, hash: u64)
        requires
            old(self).wf(),
        ensures
            final(self).wf(),
            final(self)@ == old(self)@.absorb(pair_of_hash(hash, old(self)@.lg_k)),
    {
        let pair: u32 = make_pair(hash, self.lg_k);
        self.update_pair(pair, true);
    }
}

impl Default for CpcSketch {
    /// A sketch of `2^11` rows under the default seed.
    fn default() -> (s: CpcSketch)
        ensures
            s.wf(),
            s@ == CpcView::empty(DEFAULT_LG_K, DEFAULT_SEED),
    {
        CpcSketch::new(DEFAULT_LG_K, DEFAULT_SEED).unwrap()
    }
}

impl Clone for CpcSketch {
    /// An independent copy in the same state.
    fn clone(&self) -> (copy: CpcSketch)
        ensures
            self.wf() ==> copy.wf(),
            copy@ == self@,
    {
        let rows: Vec<u64> = self.rows.clone();
        let window: Vec<u8> = self.window.clone();
        let words: Vec<u32> = self.words.clone();
        let table: PairTable = self.table.clone();
        proof {
            assert(rows@ =~= self.rows@);
            assert(window@ =~= self.window@);
            assert(words@ =~= self.words@);
        }
        CpcSketch {
            lg_k: self.lg_k,
            seed: self.seed,
            merged: self.merged,
            num_coupons: self.num_coupons,
            table,
            window,
            words,
            offset: self.offset,
            rows,
            kxp: self.kxp,
            hip_accum: self.hip_accum,
        }
    }
}

/// The offset of the window is at most 31.
proof fn lemma_flavor_offset(lg_k: u8, c: int)
    requires
        lg_k <= MAX_LG_K,
        0 <= c,
    ensures
        0 <= window_offset_of(lg_k, c) <= MAX_OFFSET,
{
    vstd::arithmetic::power2::lemma_pow2_pos(lg_k as nat);
    let k = pow2(lg_k as nat) as int;
    let over = 8 * c - 19 * k;
    if over >= 0 {
        assert(over / (8 * k) >= 0) by (nonlinear_arith)
            requires
                over >= 0,
                k > 0,
        ;
    }
}

/// The facts about powers of two that the sparse flavors need.
proof fn lemma_kxp_bounds(lg_k: u8)
    requires
        MIN_LG_K <= lg_k <= MAX_LG_K,
    ensures
        16 <= pow2(lg_k as nat) <= 0x400_0000,
{
    lemma2_to64();
    if lg_k < 26 {
        lemma_pow2_strictly_increases(lg_k as nat, 26);
    }
    if lg_k > 4 {
        lemma_pow2_strictly_increases(4, lg_k as nat);
    }
}

} // verus!
