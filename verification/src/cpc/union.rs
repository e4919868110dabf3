//! The union of CPC sketches.
use crate::cpc::DEFAULT_LG_K;
use crate::cpc::MAX_COLUMN;
use crate::cpc::MAX_LG_K;
use crate::cpc::MIN_LG_K;
use crate::cpc::ROW_STRIDE;
use crate::cpc::model::CpcView;
use crate::cpc::pair_col;
use crate::cpc::pair_row;
use crate::cpc::row_count;
use crate::cpc::sketch::CpcSketch;
use crate::cpc::valid_pair;
use crate::cpc::window::expand;
use crate::cpc::window::matrix_set;
use crate::error::SketchError;
use crate::hash::DEFAULT_SEED;
use crate::table::EMPTY;
use crate::table::PairTable;
use crate::table::gathered;
use vstd::arithmetic::power2::lemma2_to64;
use vstd::arithmetic::power2::lemma_pow2_pos;
use vstd::arithmetic::power2::lemma_pow2_strictly_increases;
use vstd::arithmetic::power2::pow2;
use vstd::prelude::*;

verus! {

/// The pair of the bit onto which a bit falls when the matrix is folded
/// into `2^lg_k` rows: the same column, in the row that the low `lg_k` bits
/// of its row name.
pub open spec fn reduce_pair(pair: u32, lg_k: u8) -> u32 {
    ((pair_row(pair) % (pow2(lg_k as nat) as int)) * ROW_STRIDE + pair_col(pair)) as u32
}

/// The coupons of a matrix folded into `2^lg_k` rows.
pub open spec fn reduced(coupons: Set<u32>, lg_k: u8) -> Set<u32> {
    Set::new(|q: u32| exists|p: u32| coupons.contains(p) && reduce_pair(p, lg_k) == q)
}

/// The coupons of a set among the pairs below `n`.
pub open spec fn below(coupons: Set<u32>, n: int) -> Set<u32> {
    Set::new(|q: u32| q < n && coupons.contains(q))
}

impl CpcView {
    /// The union that has been shown nothing.
    pub open spec fn empty_union(lg_k: u8, seed: u64) -> CpcView {
        CpcView { merged: true, ..CpcView::empty(lg_k, seed) }
    }

    /// The state of a union that holds this and is shown `src`. A sketch
    /// without coupons changes nothing. Else the result has the fewer rows
    /// of the two, and holds the coupons of both, folded into its rows.
    pub open spec fn merged_with(self, src: CpcView) -> CpcView {
        if src.coupons.len() == 0 {
            self
        } else {
            let lg_k = if src.lg_k < self.lg_k {
                src.lg_k
            } else {
                self.lg_k
            };
            CpcView {
                lg_k,
                seed: self.seed,
                coupons: reduced(self.coupons, lg_k).union(reduced(src.coupons, lg_k)),
                hip: 0,
                merged: true,
            }
        }
    }
}

/// A folded pair is the pair of a bit of the folded matrix.
pub proof fn lemma_reduce_valid(pair: u32, from: u8, lg_k: u8)
    requires
        lg_k <= from <= MAX_LG_K,
        valid_pair(pair, from),
    ensures
        valid_pair(reduce_pair(pair, lg_k), lg_k),
        reduce_pair(pair, lg_k) as int == (pair_row(pair) % (pow2(lg_k as nat) as int)) * 64
            + pair_col(pair),
        lg_k == from ==> reduce_pair(pair, lg_k) == pair,
{
    lemma2_to64();
    lemma_pow2_pos(lg_k as nat);
    if lg_k < 26 {
        lemma_pow2_strictly_increases(lg_k as nat, 26);
    }
    if lg_k == from {
        vstd::arithmetic::div_mod::lemma_small_mod(pair_row(pair) as nat, pow2(lg_k as nat));
    }
}

/// Folding leaves a matrix that already has the smaller number of rows as
/// it is.
pub proof fn lemma_reduced_same(coupons: Set<u32>, lg_k: u8)
    requires
        lg_k <= MAX_LG_K,
        forall|p: u32| coupons.contains(p) ==> valid_pair(p, lg_k),
    ensures
        reduced(coupons, lg_k) == coupons,
{
    assert forall|q: u32| reduced(coupons, lg_k).contains(q) == coupons.contains(q) by {
        if reduced(coupons, lg_k).contains(q) {
            let p = choose|p: u32| coupons.contains(p) && reduce_pair(p, lg_k) == q;
            lemma_reduce_valid(p, lg_k, lg_k);
        }
        if coupons.contains(q) {
            lemma_reduce_valid(q, lg_k, lg_k);
        }
    }
    assert(reduced(coupons, lg_k) =~= coupons);
}

/// One more coupon adds its folded pair to the folded coupons.
pub proof fn lemma_reduced_insert(coupons: Set<u32>, pair: u32, lg_k: u8)
    ensures
        reduced(coupons.insert(pair), lg_k) == reduced(coupons, lg_k).insert(
            reduce_pair(pair, lg_k),
        ),
{
    let a = reduced(coupons.insert(pair), lg_k);
    let b = reduced(coupons, lg_k).insert(reduce_pair(pair, lg_k));
    assert forall|q: u32| a.contains(q) == b.contains(q) by {
        if a.contains(q) {
            let p = choose|p: u32| coupons.insert(pair).contains(p) && reduce_pair(p, lg_k) == q;
            if p != pair {
                assert(coupons.contains(p));
            }
        }
        if b.contains(q) {
            if q == reduce_pair(pair, lg_k) {
                assert(coupons.insert(pair).contains(pair));
            } else {
                let p = choose|p: u32| coupons.contains(p) && reduce_pair(p, lg_k) == q;
                assert(coupons.insert(pair).contains(p));
            }
        }
    }
    assert(a =~= b);
}

/// Shows a sketch the coupons of a table, folded into its rows.
fn pour_table(target: &mut CpcSketch, table: &PairTable, Ghost(from): Ghost<u8>)
    requires
        old(target).wf(),
        table.wf(),
        old(target)@.lg_k <= from <= MAX_LG_K,
        forall|p: u32| table.contains(p) ==> valid_pair(p, from),
    ensures
        final(target).wf(),
        final(target)@ == (CpcView {
            coupons: old(target)@.coupons.union(reduced(table.entries(), old(target)@.lg_k)),
            ..old(target)@
        }),
{
    let lg_k: u8 = target.get_lg_k();
    let k: u32 = row_count(lg_k) as u32;
    let n: usize = table.capacity();
    let mut i: usize = 0;
    proof {
        assert(reduced(gathered(table.cells(), 0), lg_k) =~= Set::<u32>::empty());
        assert(target@.coupons.union(Set::<u32>::empty()) =~= target@.coupons);
    }
    while i < n
        invariant
            target.wf(),
            table.wf(),
            lg_k == old(target)@.lg_k,
            k == pow2(lg_k as nat),
            lg_k <= from <= MAX_LG_K,
            n == table.cells().len(),
            i <= n,
            forall|p: u32| table.contains(p) ==> valid_pair(p, from),
            target@ == (CpcView {
                coupons: old(target)@.coupons.union(
                    reduced(gathered(table.cells(), i as int), lg_k),
                ),
                ..old(target)@
            }),
        decreases n - i,
    {
        let pair: u32 = table.slot(i);
        if pair != EMPTY {
            proof {
                let seen = gathered(table.cells(), i as int);
                assert(table.cells()[i as int] == pair);
                assert(table.contains(pair));
                lemma_reduce_valid(pair, from, lg_k);
                lemma_reduced_insert(seen, pair, lg_k);
                assert(old(target)@.coupons.union(reduced(seen, lg_k)).insert(
                    reduce_pair(pair, lg_k),
                ) =~= old(target)@.coupons.union(
                    reduced(seen, lg_k).insert(reduce_pair(pair, lg_k)),
                ));
            }
            let folded: u32 = ((pair / ROW_STRIDE) % k) * ROW_STRIDE + pair % ROW_STRIDE;
            target.update_pair(folded, false);
        }
        i = i + 1;
    }
    proof {
        table.lemma_gathered_entries();
    }
}

/// Shows a sketch the coupons of a matrix, folded into its rows.
fn pour_rows(target: &mut CpcSketch, rows: &Vec<u64>, Ghost(from): Ghost<u8>)
    requires
        old(target).wf(),
        old(target)@.lg_k <= from <= MAX_LG_K,
        rows@.len() == pow2(from as nat),
    ensures
        final(target).wf(),
        final(target)@ == (CpcView {
            coupons: old(target)@.coupons.union(reduced(matrix_set(rows@), old(target)@.lg_k)),
            ..old(target)@
        }),
{
    let lg_k: u8 = target.get_lg_k();
    let k: u32 = row_count(lg_k) as u32;
    proof {
        lemma2_to64();
        if from < 26 {
            lemma_pow2_strictly_increases(from as nat, 26);
        }
    }
    let total: u64 = 64 * (rows.len() as u64);
    let mut p: u64 = 0;
    proof {
        assert(reduced(below(matrix_set(rows@), 0), lg_k) =~= Set::<u32>::empty());
        assert(target@.coupons.union(Set::<u32>::empty()) =~= target@.coupons);
    }
    while p < total
        invariant
            target.wf(),
            lg_k == old(target)@.lg_k,
            k == pow2(lg_k as nat),
            lg_k <= from <= MAX_LG_K,
            rows@.len() == pow2(from as nat),
            total == 64 * rows@.len(),
            total <= 0x1_0000_0000,
            p <= total,
            target@ == (CpcView {
                coupons: old(target)@.coupons.union(
                    reduced(below(matrix_set(rows@), p as int), lg_k),
                ),
                ..old(target)@
            }),
        decreases total - p,
    {
        let r: usize = (p / 64) as usize;
        let c: u64 = p % 64;
        let pair: u32 = p as u32;
        let ghost seen = below(matrix_set(rows@), p as int);
        let set: bool = c <= MAX_COLUMN as u64 && (rows[r] >> c) & 1 == 1;
        proof {
            assert(set == matrix_set(rows@).contains(pair));
            if set {
                assert(below(matrix_set(rows@), p + 1) =~= seen.insert(pair));
                assert(valid_pair(pair, from));
                lemma_reduce_valid(pair, from, lg_k);
                lemma_reduced_insert(seen, pair, lg_k);
                assert(old(target)@.coupons.union(reduced(seen, lg_k)).insert(
                    reduce_pair(pair, lg_k),
                ) =~= old(target)@.coupons.union(
                    reduced(seen, lg_k).insert(reduce_pair(pair, lg_k)),
                ));
            } else {
                assert(below(matrix_set(rows@), p + 1) =~= seen);
            }
        }
        if set {
            let folded: u32 = ((pair / ROW_STRIDE) % k) * ROW_STRIDE + pair % ROW_STRIDE;
            target.update_pair(folded, false);
        }
        p = p + 1;
    }
    proof {
        assert(below(matrix_set(rows@), total as int) =~= matrix_set(rows@));
    }
}

/// Shows a sketch the coupons of another, folded into its rows.
fn pour_sketch(target: &mut CpcSketch, src: &CpcSketch)
    requires
        old(target).wf(),
        src.wf(),
        old(target)@.lg_k <= src@.lg_k,
    ensures
        final(target).wf(),
        final(target)@ == (CpcView {
            coupons: old(target)@.coupons.union(reduced(src@.coupons, old(target)@.lg_k)),
            ..old(target)@
        }),
{
    proof {
        src.lemma_parts();
    }
    let rows: &Vec<u64> = src.rows_ref();
    if rows.len() != 0 {
        pour_rows(target, rows, Ghost(src@.lg_k));
    } else if src.window_ref().len() != 0 {
        let matrix: Vec<u64> = expand(
            src.window_ref(),
            src.words_ref(),
            src.get_window_offset(),
            src.get_lg_k(),
        );
        pour_rows(target, &matrix, Ghost(src@.lg_k));
    } else {
        proof {
            assert forall|p: u32| src.pair_table().contains(p) implies valid_pair(
                p,
                src@.lg_k,
            ) by {
                assert(src@.coupons.contains(p));
            }
        }
        pour_table(target, src.table_ref(), Ghost(src@.lg_k));
    }
}

/// The union of CPC sketches: it is shown sketches and hands out a sketch
/// of all it was shown.
pub struct CpcUnion {
    held: CpcSketch,
}

impl View for CpcUnion {
    type V = CpcView;

    /// The state of the sketch that the union holds.
    closed spec fn view(&self) -> CpcView {
        self.held@
    }
}

impl CpcUnion {
    /// The invariant of the union.
    pub closed spec fn wf(&self) -> bool {
        &&& self.held.wf()
        &&& self.held@.merged
        &&& self.held@.hip == 0
    }

    /// The sketch that a well-formed union holds is in a valid state and
    /// is marked as come out of a union.
    pub proof fn lemma_valid(&self)
        requires
            self.wf(),
        ensures
            self@.valid(),
            self@.merged,
            self@.hip == 0,
    {
        self.held.lemma_parts();
    }

    /// Creates a union for at most `2^lg_k` rows, of sketches that hash
    /// their items under `seed`.
    pub fn new(lg_k: u8, seed: u64) -> (r: Result<CpcUnion, SketchError>)
        ensures
            match r {
                Ok(u) => {
                    &&& MIN_LG_K <= lg_k <= MAX_LG_K
                    &&& u.wf()
                    &&& u@ == CpcView::empty_union(lg_k, seed)
                },
                Err(e) => e == SketchError::InvalidConfig && !(MIN_LG_K <= lg_k <= MAX_LG_K),
            },
    {
        match CpcSketch::new(lg_k, seed) {
            Ok(mut held) => {
                proof {
                    held.lemma_parts();
                }
                held.set_accum(0, true);
                Ok(CpcUnion { held })
            },
            Err(e) => Err(e),
        }
    }

    /// Shows the union a sketch, which must hash its items under the seed
    /// of the union.
    pub fn update_sketch(&mut self, sketch: &CpcSketch)
        requires
            old(self).wf(),
            sketch.wf(),
            sketch@.seed == old(self)@.seed,
        ensures
            final(self).wf(),
            final(self)@ == old(self)@.merged_with(sketch@),
    {
        if sketch.is_empty() {
            return;
        }
        proof {
            self.held.lemma_parts();
            sketch.lemma_parts();
        }
        let seed: u64 = self.held.get_seed();
        if sketch.get_lg_k() < self.held.get_lg_k() {
            let mut fresh: CpcSketch = CpcSketch::new(sketch.get_lg_k(), seed).unwrap();
            pour_sketch(&mut fresh, &self.held);
            proof {
                assert(Set::<u32>::empty().union(reduced(self.held@.coupons, sketch@.lg_k))
                    =~= reduced(self.held@.coupons, sketch@.lg_k));
            }
            pour_sketch(&mut fresh, sketch);
            self.held = fresh;
        } else {
            proof {
                lemma_reduced_same(self.held@.coupons, self.held@.lg_k);
            }
            pour_sketch(&mut self.held, sketch);
        }
        proof {
            self.held.lemma_parts();
        }
        self.held.set_accum(0, true);
    }

    /// A sketch of all that the union was shown. The union is not changed
    /// and can be shown more.
    pub fn get_result(&self) -> (sketch: CpcSketch)
        requires
            self.wf(),
        ensures
            sketch.wf(),
            sketch@ == self@,
    {
        self.held.clone()
    }

    /// The binary logarithm of the number of rows that the union has now.
    pub fn get_lg_k(&self) -> (lg_k: u8)
        ensures
            lg_k == self@.lg_k,
    {
        self.held.get_lg_k()
    }

    /// The seed of the union.
    pub fn get_seed(&self) -> (seed: u64)
        ensures
            seed == self@.seed,
    {
        self.held.get_seed()
    }
}

impl Default for CpcUnion {
    /// A union for at most `2^11` rows under the default seed.
    fn default() -> (u: CpcUnion)
        ensures
            u.wf(),
            u@ == CpcView::empty_union(DEFAULT_LG_K, DEFAULT_SEED),
    {
        CpcUnion::new(DEFAULT_LG_K, DEFAULT_SEED).unwrap()
    }
}

} // verus!
