//! The window of a matrix and the bits that surprise.
//!
//! Most of what a matrix holds lies in a few columns: to the left of them
//! nearly every bit is set, to the right of them hardly any. So a matrix is
//! held as a window of eight columns, a byte for each row, and the list of
//! the bits that are not what their place makes one expect: the zeros to
//! the left of the window and the ones to the right of it. The list is kept
//! in rising order of the pairs.
use crate::cpc::MAX_COLUMN;
use crate::cpc::MAX_LG_K;
use crate::cpc::MAX_OFFSET;
use crate::cpc::MIN_LG_K;
use crate::cpc::WINDOW_WIDTH;
use crate::cpc::pair_col;
use crate::cpc::pair_row;
use crate::cpc::row_count;
use crate::cpc::valid_pair;
use crate::sort::rising;
use vstd::arithmetic::power2::lemma2_to64;
use vstd::arithmetic::power2::lemma_pow2_strictly_increases;
use vstd::arithmetic::power2::pow2;
use vstd::prelude::*;

verus! {

/// Whether bit `col` of the word of a row is set.
pub open spec fn bit_of(row: u64, col: int) -> bool {
    (row >> (col as u64)) & 1 == 1
}

/// The coupons that the rows of a matrix hold.
pub open spec fn matrix_set(rows: Seq<u64>) -> Set<u32> {
    Set::new(
        |p: u32| pair_row(p) < rows.len() && pair_col(p) <= MAX_COLUMN && bit_of(
            rows[pair_row(p)],
            pair_col(p),
        ),
    )
}

/// Whether a column lies in the window at the given offset.
pub open spec fn in_window(col: int, offset: int) -> bool {
    offset <= col < offset + WINDOW_WIDTH
}

/// Whether the window holds the bit of a pair whose column lies in it.
pub open spec fn window_bit(window: Seq<u8>, offset: int, pair: u32) -> bool {
    (window[pair_row(pair)] >> ((pair_col(pair) - offset) as u8)) & 1 == 1
}

/// Whether the bit of a pair is set, by a window and a list of surprising
/// bits.
pub open spec fn window_member(window: Seq<u8>, words: Seq<u32>, offset: int, pair: u32) -> bool {
    let col = pair_col(pair);
    if col < offset {
        !words.contains(pair)
    } else if col < offset + WINDOW_WIDTH {
        window_bit(window, offset, pair)
    } else {
        words.contains(pair)
    }
}

/// The coupons that a window and a list of surprising bits hold.
pub open spec fn window_set(lg_k: u8, window: Seq<u8>, words: Seq<u32>, offset: int) -> Set<u32> {
    Set::new(|p: u32| valid_pair(p, lg_k) && window_member(window, words, offset, p))
}

/// The coupons that a window and a list of surprising bits hold among the
/// pairs below `n`.
pub open spec fn window_set_upto(
    lg_k: u8,
    window: Seq<u8>,
    words: Seq<u32>,
    offset: int,
    n: int,
) -> Set<u32> {
    Set::new(|p: u32| p < n && valid_pair(p, lg_k) && window_member(window, words, offset, p))
}

/// Whether a list can be the list of the surprising bits of a matrix: it
/// is in rising order, and each word is the pair of a bit of the matrix
/// outside the window.
pub open spec fn words_fit(words: Seq<u32>, lg_k: u8, offset: int) -> bool {
    &&& rising(words)
    &&& forall|j: int|
        0 <= j < words.len() ==> valid_pair(#[trigger] words[j], lg_k) && !in_window(
            pair_col(words[j]),
            offset,
        )
}

/// The window of a matrix: of each row the eight bits from the offset on.
pub open spec fn window_of(rows: Seq<u64>, offset: int) -> Seq<u8> {
    Seq::new(rows.len(), |r: int| ((rows[r] >> (offset as u64)) & 0xFF) as u8)
}

/// Whether a bit of the matrix is not what one expects of its place: a
/// zero in a column before the window, or a one in a column after it.
pub open spec fn surprising(rows: Seq<u64>, offset: int, pair: int) -> bool {
    let r = pair / 64;
    let c = pair % 64;
    &&& c <= MAX_COLUMN
    &&& 0 <= r < rows.len()
    &&& ((c < offset && !bit_of(rows[r], c)) || (c >= offset + WINDOW_WIDTH && bit_of(rows[r], c)))
}

/// The surprising bits among the pairs below `n`, in rising order.
pub open spec fn surprises_upto(rows: Seq<u64>, offset: int, n: nat) -> Seq<u32>
    decreases n,
{
    if n == 0 {
        Seq::empty()
    } else if surprising(rows, offset, n - 1) {
        surprises_upto(rows, offset, (n - 1) as nat).push((n - 1) as u32)
    } else {
        surprises_upto(rows, offset, (n - 1) as nat)
    }
}

/// The surprising bits of a matrix, in rising order.
pub open spec fn surprises(rows: Seq<u64>, offset: int) -> Seq<u32> {
    surprises_upto(rows, offset, (64 * rows.len()) as nat)
}

/// The surprising bits below `n` are the pairs below `n` that are
/// surprising, each once, in rising order.
pub proof fn lemma_surprises(rows: Seq<u64>, offset: int, n: nat)
    requires
        n <= 64 * rows.len() <= 0x1_0000_0000,
    ensures
        surprises_upto(rows, offset, n).len() <= n,
        forall|j: int|
            0 <= j < surprises_upto(rows, offset, n).len() ==> (#[trigger] surprises_upto(
                rows,
                offset,
                n,
            )[j]) < n && surprising(rows, offset, surprises_upto(rows, offset, n)[j] as int),
        rising(surprises_upto(rows, offset, n)),
        forall|p: u32|
            p < n && surprising(rows, offset, p as int) ==> surprises_upto(
                rows,
                offset,
                n,
            ).contains(p),
    decreases n,
{
    if n > 0 {
        lemma_surprises(rows, offset, (n - 1) as nat);
        let prev = surprises_upto(rows, offset, (n - 1) as nat);
        let now = surprises_upto(rows, offset, n);
        if surprising(rows, offset, n - 1) {
            assert forall|i: int, j: int| 0 <= i < j < now.len() implies now[i] < now[j] by {
                if j < prev.len() {
                    assert(prev[i] < prev[j]);
                } else {
                    assert(prev[i] < n - 1);
                }
            }
            assert forall|p: u32| p < n && surprising(rows, offset, p as int) implies now.contains(
                p,
            ) by {
                if p < n - 1 {
                    let j = choose|j: int| 0 <= j < prev.len() && prev[j] == p;
                    assert(now[j] == p);
                } else {
                    assert(now[now.len() - 1] == p);
                }
            }
        }
    }
}

pub proof fn lemma_window_bit(row: u64, o: u64, c: u64)
    by (bit_vector)
    requires
        o <= 31,
        o <= c < o + 8,
    ensures
        ((((row >> o) & 0xFF) as u8 >> ((c - o) as u8)) & 1u8 == 1u8) == ((row >> c) & 1u64
            == 1u64),
        (row >> o) & 0xFF < 256,
{
}

pub proof fn lemma_set_bit(row: u64, c: u64, j: u64)
    by (bit_vector)
    requires
        c < 39,
        j < 64,
    ensures
        ((row | (1u64 << c)) >> j) & 1 == (if j == c {
            1u64
        } else {
            (row >> j) & 1
        }),
        (row & (1u64 << c) != 0) == ((row >> c) & 1 == 1),
        (0u64 >> j) & 1 == 0,
        row < 0x80_0000_0000 ==> (row | (1u64 << c)) < 0x80_0000_0000,
{
}

pub proof fn lemma_byte_bit(b: u8, k: u8, j: u8)
    by (bit_vector)
    requires
        k < 8,
        j < 8,
    ensures
        ((b | (1u8 << k)) >> j) & 1 == (if j == k {
            1u8
        } else {
            (b >> j) & 1
        }),
        (b & (1u8 << k) != 0) == ((b >> k) & 1 == 1),
{
}

/// Setting a bit of a row adds its pair to the coupons of the matrix.
pub proof fn lemma_row_set(rows: Seq<u64>, pair: u32)
    requires
        pair_row(pair) < rows.len(),
        pair_col(pair) <= MAX_COLUMN,
    ensures
        matrix_set(rows).contains(pair) == (rows[pair_row(pair)] & (1u64 << (pair_col(
            pair,
        ) as u64)) != 0),
        matrix_set(
            rows.update(
                pair_row(pair),
                rows[pair_row(pair)] | (1u64 << (pair_col(pair) as u64)),
            ),
        ) == matrix_set(rows).insert(pair),
{
    let r = pair_row(pair);
    let c = pair_col(pair) as u64;
    let row = rows[r];
    let after = rows.update(r, row | (1u64 << c));
    lemma_set_bit(row, c, c);
    assert forall|q: u32| matrix_set(after).contains(q) == matrix_set(rows).insert(pair).contains(
        q,
    ) by {
        if pair_row(q) == r && pair_col(q) <= MAX_COLUMN {
            lemma_set_bit(row, c, pair_col(q) as u64);
        }
    }
    assert(matrix_set(after) =~= matrix_set(rows).insert(pair));
}

/// Rows that are all 0 hold no coupons.
pub proof fn lemma_rows_empty(rows: Seq<u64>)
    requires
        forall|r: int| 0 <= r < rows.len() ==> rows[r] == 0,
    ensures
        matrix_set(rows) == Set::<u32>::empty(),
{
    assert forall|q: u32| !matrix_set(rows).contains(q) by {
        if pair_row(q) < rows.len() && pair_col(q) <= MAX_COLUMN {
            lemma_set_bit(0, 0, pair_col(q) as u64);
        }
    }
    assert(matrix_set(rows) =~= Set::<u32>::empty());
}

/// The window of a matrix and the list of its surprising bits hold the
/// coupons of the matrix.
pub proof fn lemma_compress(rows: Seq<u64>, lg_k: u8, offset: u8)
    requires
        MIN_LG_K <= lg_k <= MAX_LG_K,
        offset <= MAX_OFFSET,
        rows.len() == pow2(lg_k as nat),
    ensures
        64 * rows.len() <= 0x1_0000_0000,
        words_fit(surprises(rows, offset as int), lg_k, offset as int),
        window_set(lg_k, window_of(rows, offset as int), surprises(rows, offset as int), offset as int)
            == matrix_set(rows),
{
    lemma2_to64();
    if lg_k < 26 {
        lemma_pow2_strictly_increases(lg_k as nat, 26);
    }
    let s = surprises(rows, offset as int);
    let w = window_of(rows, offset as int);
    let n = (64 * rows.len()) as nat;
    lemma_surprises(rows, offset as int, n);
    assert forall|j: int| 0 <= j < s.len() implies valid_pair(#[trigger] s[j], lg_k) && !in_window(
        pair_col(s[j]),
        offset as int,
    ) by {
        assert(surprising(rows, offset as int, s[j] as int));
    }
    assert forall|p: u32|
        window_set(lg_k, w, s, offset as int).contains(p) == matrix_set(rows).contains(p) by {
        if valid_pair(p, lg_k) {
            let r = pair_row(p);
            let c = pair_col(p);
            if in_window(c, offset as int) {
                lemma_window_bit(rows[r], offset as u64, c as u64);
            } else {
                if s.contains(p) {
                    let j = choose|j: int| 0 <= j < s.len() && s[j] == p;
                    assert(surprising(rows, offset as int, s[j] as int));
                }
                if surprising(rows, offset as int, p as int) {
                    assert(s.contains(p));
                }
            }
        }
    }
    assert(window_set(lg_k, w, s, offset as int) =~= matrix_set(rows));
}

/// The window of a matrix.
pub fn take_window(rows: &Vec<u64>, offset: u8) -> (window: Vec<u8>)
    requires
        offset <= MAX_OFFSET,
    ensures
        window@ == window_of(rows@, offset as int),
{
    let n: usize = rows.len();
    let mut window: Vec<u8> = Vec::new();
    let mut r: usize = 0;
    while r < n
        invariant
            n == rows@.len(),
            r <= n,
            offset <= MAX_OFFSET,
            window@.len() == r,
            forall|i: int|
                0 <= i < r ==> #[trigger] window@[i] == ((rows@[i] >> (offset as u64))
                    & 0xFF) as u8,
        decreases n - r,
    {
        proof {
            lemma_window_bit(rows@[r as int], offset as u64, offset as u64);
        }
        window.push(((rows[r] >> (offset as u64)) & 0xFF) as u8);
        r = r + 1;
    }
    proof {
        assert(window@ =~= window_of(rows@, offset as int));
    }
    window
}

/// The list of the surprising bits of a matrix, as long as there are no
/// more than `limit` of them.
pub fn take_surprises(rows: &Vec<u64>, offset: u8, limit: usize) -> (words: Option<Vec<u32>>)
    requires
        offset <= MAX_OFFSET,
        64 * rows@.len() <= 0x1_0000_0000,
    ensures
        match words {
            Some(words) => words@ == surprises(rows@, offset as int) && words@.len() <= limit,
            None => surprises(rows@, offset as int).len() > limit,
        },
{
    let total: u64 = 64 * (rows.len() as u64);
    let mut words: Vec<u32> = Vec::new();
    let mut p: u64 = 0;
    while p < total
        invariant
            total == 64 * rows@.len(),
            total <= 0x1_0000_0000,
            p <= total,
            offset <= MAX_OFFSET,
            words@ == surprises_upto(rows@, offset as int, p as nat),
            words@.len() <= limit,
        decreases total - p,
    {
        let r: usize = (p / 64) as usize;
        let c: u64 = p % 64;
        if c <= MAX_COLUMN as u64 {
            let set: bool = (rows[r] >> c) & 1 == 1;
            if (c < offset as u64 && !set) || (c >= offset as u64 + 8 && set) {
                if words.len() >= limit {
                    proof {
                        lemma_surprises_grow(rows@, offset as int, (p + 1) as nat, total as nat);
                    }
                    return None;
                }
                words.push(p as u32);
            }
        }
        p = p + 1;
    }
    Some(words)
}

/// The list of the surprising bits only grows with the pairs that are
/// looked at.
pub proof fn lemma_surprises_grow(rows: Seq<u64>, offset: int, m: nat, n: nat)
    requires
        m <= n,
    ensures
        surprises_upto(rows, offset, m).len() <= surprises_upto(rows, offset, n).len(),
    decreases n - m,
{
    if m < n {
        lemma_surprises_grow(rows, offset, m, (n - 1) as nat);
    }
}

/// The surprising bits are fewer than the pairs that are looked at, once
/// a whole row is looked at: the last pair of a row is no bit of the
/// matrix.
pub proof fn lemma_surprises_short(rows: Seq<u64>, offset: int, n: nat)
    requires
        n >= 64,
    ensures
        surprises_upto(rows, offset, n).len() < n,
    decreases n,
{
    if n == 64 {
        lemma_surprises_count(rows, offset, 63);
    } else {
        lemma_surprises_short(rows, offset, (n - 1) as nat);
    }
}

/// There are no more surprising bits than pairs that are looked at.
pub proof fn lemma_surprises_count(rows: Seq<u64>, offset: int, n: nat)
    ensures
        surprises_upto(rows, offset, n).len() <= n,
    decreases n,
{
    if n > 0 {
        lemma_surprises_count(rows, offset, (n - 1) as nat);
    }
}

/// The matrix that a window and a list of surprising bits hold.
pub fn expand(window: &Vec<u8>, words: &Vec<u32>, offset: u8, lg_k: u8) -> (rows: Vec<u64>)
    requires
        MIN_LG_K <= lg_k <= MAX_LG_K,
        offset <= MAX_OFFSET,
        window@.len() == pow2(lg_k as nat),
        words_fit(words@, lg_k, offset as int),
    ensures
        rows@.len() == pow2(lg_k as nat),
        matrix_set(rows@) == window_set(lg_k, window@, words@, offset as int),
        forall|r: int| 0 <= r < rows@.len() ==> #[trigger] rows@[r] < 0x80_0000_0000,
{
    let k: usize = row_count(lg_k) as usize;
    let n: usize = words.len();
    let mut rows: Vec<u64> = vec![0u64; k];
    let total: u64 = 64 * (k as u64);
    let mut p: u64 = 0;
    let mut next: usize = 0;
    proof {
        lemma_rows_empty(rows@);
        assert(matrix_set(rows@) =~= window_set_upto(lg_k, window@, words@, offset as int, 0));
    }
    while p < total
        invariant
            MIN_LG_K <= lg_k <= MAX_LG_K,
            offset <= MAX_OFFSET,
            k == pow2(lg_k as nat),
            window@.len() == k,
            rows@.len() == k,
            total == 64 * k,
            total <= 0x1_0000_0000,
            n == words@.len(),
            words_fit(words@, lg_k, offset as int),
            p <= total,
            next <= n,
            forall|j: int| 0 <= j < next ==> words@[j] < p,
            forall|j: int| next <= j < n ==> words@[j] >= p,
            forall|r: int| 0 <= r < k ==> #[trigger] rows@[r] < 0x80_0000_0000,
            matrix_set(rows@) == window_set_upto(lg_k, window@, words@, offset as int, p as int),
        decreases total - p,
    {
        let r: usize = (p / 64) as usize;
        let c: u64 = p % 64;
        let pair: u32 = p as u32;
        let mut set: bool = false;
        if c <= MAX_COLUMN as u64 {
            if c >= offset as u64 && c < offset as u64 + 8 {
                set = (window[r] >> ((c - offset as u64) as u8)) & 1 == 1;
            } else {
                let at_next: bool = next < n && words[next] == pair;
                proof {
                    if words@.contains(pair) {
                        let j = choose|j: int| 0 <= j < words@.len() && words@[j] == pair;
                        if next < j {
                            assert(words@[next as int] < words@[j]);
                        }
                    }
                    assert(at_next == words@.contains(pair));
                }
                if at_next {
                    proof {
                        assert forall|j: int| next + 1 <= j < n implies words@[j] >= p + 1 by {
                            assert(words@[next as int] < words@[j]);
                        }
                    }
                    next = next + 1;
                }
                set = if c < offset as u64 {
                    !at_next
                } else {
                    at_next
                };
            }
        }
        proof {
            assert(set == (valid_pair(pair, lg_k) && window_member(
                window@,
                words@,
                offset as int,
                pair,
            )));
            assert forall|j: int| next <= j < n implies words@[j] >= p + 1 by {
                if words@[j] == p {
                    assert(valid_pair(words@[j], lg_k));
                    assert(!in_window(pair_col(words@[j]), offset as int));
                }
            }
            let before = window_set_upto(lg_k, window@, words@, offset as int, p as int);
            let after = window_set_upto(lg_k, window@, words@, offset as int, p + 1);
            if set {
                assert(after =~= before.insert(pair));
                lemma_row_set(rows@, pair);
                lemma_set_bit(rows@[r as int], c, 0);
            } else {
                assert(after =~= before);
            }
        }
        if set {
            let row: u64 = rows[r];
            rows.set(r, row | (1u64 << c));
        }
        p = p + 1;
    }
    proof {
        assert(window_set_upto(lg_k, window@, words@, offset as int, total as int) =~= window_set(
            lg_k,
            window@,
            words@,
            offset as int,
        ));
    }
    rows
}

/// A window with one more bit set holds one more coupon.
pub proof fn lemma_window_put(lg_k: u8, window: Seq<u8>, words: Seq<u32>, offset: int, pair: u32)
    requires
        valid_pair(pair, lg_k),
        window.len() == pow2(lg_k as nat),
        0 <= offset <= MAX_OFFSET,
        in_window(pair_col(pair), offset),
    ensures
        window_set(lg_k, window, words, offset).contains(pair) == (window[pair_row(pair)] & (1u8
            << ((pair_col(pair) - offset) as u8)) != 0),
        window_set(
            lg_k,
            window.update(
                pair_row(pair),
                window[pair_row(pair)] | (1u8 << ((pair_col(pair) - offset) as u8)),
            ),
            words,
            offset,
        ) == window_set(lg_k, window, words, offset).insert(pair),
{
    let r = pair_row(pair);
    let k = (pair_col(pair) - offset) as u8;
    let b = window[r];
    let after = window.update(r, b | (1u8 << k));
    lemma_byte_bit(b, k, k);
    let x = window_set(lg_k, after, words, offset);
    let y = window_set(lg_k, window, words, offset).insert(pair);
    assert forall|q: u32| x.contains(q) == y.contains(q) by {
        if valid_pair(q, lg_k) && pair_row(q) == r && in_window(pair_col(q), offset) {
            lemma_byte_bit(b, k, (pair_col(q) - offset) as u8);
        }
    }
    assert(x =~= y);
}

/// A list of surprising bits with a pair put in or taken out holds one
/// more coupon: a one to the right of the window that is put in, or a zero
/// to the left of it that is taken out.
pub proof fn lemma_words_put(
    lg_k: u8,
    window: Seq<u8>,
    words: Seq<u32>,
    after: Seq<u32>,
    offset: int,
    pair: u32,
)
    requires
        valid_pair(pair, lg_k),
        !in_window(pair_col(pair), offset),
        words_fit(words, lg_k, offset),
        rising(after),
        pair_col(pair) < offset ==> forall|e: u32|
            after.contains(e) <==> (e != pair && words.contains(e)),
        pair_col(pair) >= offset ==> forall|e: u32|
            after.contains(e) <==> (e == pair || words.contains(e)),
    ensures
        words_fit(after, lg_k, offset),
        window_set(lg_k, window, after, offset) == window_set(lg_k, window, words, offset).insert(
            pair,
        ),
{
    assert forall|j: int| 0 <= j < after.len() implies valid_pair(#[trigger] after[j], lg_k)
        && !in_window(pair_col(after[j]), offset) by {
        assert(after.contains(after[j]));
        if after[j] != pair {
            assert(words.contains(after[j]));
            let i = choose|i: int| 0 <= i < words.len() && words[i] == after[j];
            assert(valid_pair(words[i], lg_k));
        }
    }
    let x = window_set(lg_k, window, after, offset);
    let y = window_set(lg_k, window, words, offset).insert(pair);
    assert forall|q: u32| x.contains(q) == y.contains(q) by {
        if valid_pair(q, lg_k) {
        }
    }
    assert(x =~= y);
}

} // verus!
