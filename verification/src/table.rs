//! An open-addressed hash table of 32-bit entries.
//!
//! Both sketch families keep the rare things they cannot afford to store
//! densely in a table of this kind. An entry is found again by its key, which
//! is either the whole entry or its low 26 bits; no two entries of a table
//! share a key. Collisions are resolved by linear probing, and the table
//! doubles before it is more than three quarters full.
use crate::wire::push_word;
use crate::wire::read_word;
use crate::wire::word_at;
use crate::wire::words_at;
use vstd::arithmetic::power2::lemma2_to64;
use vstd::arithmetic::power2::lemma_pow2_strictly_increases;
use vstd::arithmetic::power2::lemma_pow2_unfold;
use vstd::arithmetic::power2::pow2;
use vstd::prelude::*;
use vstd::relations::injective_on;
use vstd::set_lib::lemma_int_range;
use vstd::set_lib::lemma_len_subset;
use vstd::set_lib::lemma_map_size;
use vstd::set_lib::set_int_range;

verus! {

/// The word that marks a free slot. No entry may equal it.
pub const EMPTY: u32 = 0xFFFF_FFFF;

/// Two to the power 26: the span of the address part of an entry.
pub const ADDRESS_SPAN: u32 = 0x400_0000;

/// The number of entries that a table may reach but not pass.
pub const MAX_ENTRIES: usize = 0xC00_0000;

/// The binary logarithm of the largest number of slots.
pub const MAX_LG_SLOTS: u8 = 28;

/// The key by which an entry is found.
pub open spec fn key_of(entry: u32, by_address: bool) -> u32 {
    if by_address {
        entry % ADDRESS_SPAN
    } else {
        entry
    }
}

/// The bits of a key scrambled, so that keys that differ little spread out.
pub open spec fn scatter(key: u32) -> u32 {
    let m = key.wrapping_mul(0x9E37_79B1);
    m ^ (m >> 15u32)
}

/// The slot at which the search for a key starts in a table of `len` slots.
pub open spec fn home_of(key: u32, len: int) -> int {
    (scatter(key) as int) % len
}

/// Whether slot `j` is passed before slot `i` on the way that starts at
/// slot `h` and wraps round at the end of the table.
pub open spec fn precedes(h: int, i: int, j: int) -> bool {
    if h <= i {
        h <= j < i
    } else {
        j >= h || j < i
    }
}

/// The number of the first `n` slots that hold an entry.
pub open spec fn occupied(cells: Seq<u32>, n: int) -> int
    decreases n,
{
    if n <= 0 {
        0
    } else {
        occupied(cells, n - 1) + if cells[n - 1] != EMPTY {
            1int
        } else {
            0int
        }
    }
}

/// The entries held in the first `n` slots.
pub open spec fn gathered(cells: Seq<u32>, n: int) -> Set<u32>
    decreases n,
{
    if n <= 0 {
        Set::empty()
    } else if cells[n - 1] != EMPTY {
        gathered(cells, n - 1).insert(cells[n - 1])
    } else {
        gathered(cells, n - 1)
    }
}

proof fn lemma_occupied_bounds(cells: Seq<u32>, n: int)
    requires
        0 <= n <= cells.len(),
    ensures
        0 <= occupied(cells, n) <= n,
        (forall|i: int| 0 <= i < n ==> cells[i] != EMPTY) ==> occupied(cells, n) == n,
    decreases n,
{
    if n > 0 {
        lemma_occupied_bounds(cells, n - 1);
    }
}

proof fn lemma_occupied_grows(cells: Seq<u32>, m: int, n: int)
    requires
        0 <= m <= n <= cells.len(),
    ensures
        occupied(cells, m) <= occupied(cells, n),
    decreases n - m,
{
    if m < n {
        lemma_occupied_grows(cells, m, n - 1);
    }
}

proof fn lemma_occupied_update(cells: Seq<u32>, at: int, entry: u32, n: int)
    requires
        0 <= at < cells.len(),
        0 <= n <= cells.len(),
        entry != EMPTY,
    ensures
        occupied(cells.update(at, entry), n) == occupied(cells, n) + if at < n && cells[at]
            == EMPTY {
            1int
        } else {
            0int
        },
    decreases n,
{
    if n > 0 {
        lemma_occupied_update(cells, at, entry, n - 1);
    }
}

proof fn lemma_gathered(cells: Seq<u32>, n: int)
    requires
        0 <= n <= cells.len(),
    ensures
        gathered(cells, n).finite(),
        forall|e: u32|
            gathered(cells, n).contains(e) <==> (e != EMPTY && exists|i: int|
                0 <= i < n && cells[i] == e),
        (forall|i: int, j: int|
            0 <= i < j < n && cells[i] != EMPTY && cells[j] != EMPTY ==> cells[i] != cells[j])
            ==> gathered(cells, n).len() == occupied(cells, n),
    decreases n,
{
    if n > 0 {
        lemma_gathered(cells, n - 1);
        let last = cells[n - 1];
        assert forall|e: u32|
            gathered(cells, n).contains(e) <==> (e != EMPTY && exists|i: int|
                0 <= i < n && cells[i] == e) by {
            if gathered(cells, n).contains(e) {
                if e == last && last != EMPTY {
                    assert(cells[n - 1] == e);
                } else {
                    let i = choose|i: int| 0 <= i < n - 1 && cells[i] == e;
                    assert(cells[i] == e);
                }
            }
            if e != EMPTY && exists|i: int| 0 <= i < n && cells[i] == e {
                let i = choose|i: int| 0 <= i < n && cells[i] == e;
                if i < n - 1 {
                    assert(gathered(cells, n - 1).contains(e));
                }
            }
        }
        if forall|i: int, j: int|
            0 <= i < j < n && cells[i] != EMPTY && cells[j] != EMPTY ==> cells[i] != cells[j] {
            if last != EMPTY {
                if gathered(cells, n - 1).contains(last) {
                    let i = choose|i: int| 0 <= i < n - 1 && cells[i] == last;
                    assert(cells[i] != cells[n - 1]);
                }
            }
        }
    }
}

/// The entries gathered from slots are the words in them other than
/// [`EMPTY`]; they are finitely many, and as many as there are occupied
/// slots if no two slots hold the same entry.
pub proof fn lemma_gathered_words(cells: Seq<u32>, n: int)
    requires
        0 <= n <= cells.len(),
    ensures
        gathered(cells, n).finite(),
        forall|e: u32|
            gathered(cells, n).contains(e) <==> (e != EMPTY && exists|i: int|
                0 <= i < n && cells[i] == e),
        0 <= occupied(cells, n) <= n,
        (forall|i: int| 0 <= i < n ==> cells[i] != EMPTY) <==> occupied(cells, n) == n,
        (forall|i: int, j: int|
            0 <= i < j < n && cells[i] != EMPTY && cells[j] != EMPTY ==> cells[i] != cells[j])
            ==> gathered(cells, n).len() == occupied(cells, n),
    decreases n,
{
    lemma_gathered(cells, n);
    lemma_occupied_bounds(cells, n);
    if n > 0 {
        lemma_gathered_words(cells, n - 1);
        lemma_occupied_bounds(cells, n - 1);
    }
}

/// Whether the slots hold `entry`.
pub open spec fn held(cells: Seq<u32>, entry: u32) -> bool {
    entry != EMPTY && exists|i: int| 0 <= i < cells.len() && cells[i] == entry
}

/// Whether no entry in the slots has this key.
pub open spec fn key_free(cells: Seq<u32>, by_address: bool, key: u32) -> bool {
    forall|i: int|
        0 <= i < cells.len() && cells[i] != EMPTY ==> key_of(#[trigger] cells[i], by_address)
            != key
}

/// Whether no two entries in the slots share a key.
#[verifier::opaque]
pub open spec fn distinct_keys(cells: Seq<u32>, by_address: bool) -> bool {
    forall|i: int, j: int|
        0 <= i < j < cells.len() && cells[i] != EMPTY && cells[j] != EMPTY ==> key_of(
            #[trigger] cells[i],
            by_address,
        ) != key_of(#[trigger] cells[j], by_address)
}

/// Whether every entry is reached from its home slot without passing a
/// free slot.
#[verifier::opaque]
pub open spec fn paths_filled(cells: Seq<u32>, by_address: bool) -> bool {
    forall|i: int, j: int|
        0 <= i < cells.len() && 0 <= j < cells.len() && cells[i] != EMPTY && precedes(
            home_of(key_of(#[trigger] cells[i], by_address), cells.len() as int),
            i,
            j,
        ) ==> #[trigger] cells[j] != EMPTY
}

proof fn lemma_key_free(cells: Seq<u32>, by_address: bool, key: u32)
    requires
        key_free(cells, by_address, key),
    ensures
        forall|e: u32| held(cells, e) ==> key_of(e, by_address) != key,
{
    assert forall|e: u32| held(cells, e) implies key_of(e, by_address) != key by {
        let i = choose|i: int| 0 <= i < cells.len() && cells[i] == e;
        assert(key_of(cells[i], by_address) != key);
    }
}

proof fn lemma_all_free(cells: Seq<u32>, n: int)
    requires
        0 <= n <= cells.len(),
        forall|i: int| 0 <= i < n ==> cells[i] == EMPTY,
    ensures
        occupied(cells, n) == 0,
    decreases n,
{
    if n > 0 {
        lemma_all_free(cells, n - 1);
    }
}

proof fn lemma_some_free(cells: Seq<u32>) -> (z: int)
    requires
        occupied(cells, cells.len() as int) < cells.len(),
    ensures
        0 <= z < cells.len(),
        cells[z] == EMPTY,
{
    lemma_occupied_bounds(cells, cells.len() as int);
    choose|z: int| 0 <= z < cells.len() && cells[z] == EMPTY
}

proof fn lemma_absent(cells: Seq<u32>, by_address: bool, key: u32, pos: int)
    requires
        paths_filled(cells, by_address),
        0 <= pos < cells.len(),
        cells[pos] == EMPTY,
        forall|j: int|
            0 <= j < cells.len() && precedes(home_of(key, cells.len() as int), pos, j)
                ==> cells[j] != EMPTY && key_of(cells[j], by_address) != key,
    ensures
        key_free(cells, by_address, key),
{
    reveal(paths_filled);
    let h = home_of(key, cells.len() as int);
    assert forall|i: int| 0 <= i < cells.len() && cells[i] != EMPTY implies key_of(
        #[trigger] cells[i],
        by_address,
    ) != key by {
        if key_of(cells[i], by_address) == key {
            if !precedes(h, pos, i) {
                assert(precedes(h, i, pos));
                assert(cells[pos] != EMPTY);
            }
        }
    }
}

proof fn lemma_place(cells: Seq<u32>, by_address: bool, pos: int, entry: u32)
    requires
        distinct_keys(cells, by_address),
        paths_filled(cells, by_address),
        0 <= pos < cells.len(),
        cells[pos] == EMPTY,
        entry != EMPTY,
        key_free(cells, by_address, key_of(entry, by_address)),
        forall|j: int|
            0 <= j < cells.len() && precedes(
                home_of(key_of(entry, by_address), cells.len() as int),
                pos,
                j,
            ) ==> cells[j] != EMPTY,
    ensures
        distinct_keys(cells.update(pos, entry), by_address),
        paths_filled(cells.update(pos, entry), by_address),
        forall|e: u32| #[trigger]
            held(cells.update(pos, entry), e) <==> (e == entry || held(cells, e)),
{
    reveal(distinct_keys);
    reveal(paths_filled);
    let after = cells.update(pos, entry);
    assert forall|i: int, j: int|
        0 <= i < j < after.len() && after[i] != EMPTY && after[j] != EMPTY implies key_of(
        #[trigger] after[i],
        by_address,
    ) != key_of(#[trigger] after[j], by_address) by {
        if i != pos && j != pos {
            assert(key_of(cells[i], by_address) != key_of(cells[j], by_address));
        } else if i == pos {
            assert(key_of(cells[j], by_address) != key_of(entry, by_address));
        } else {
            assert(key_of(cells[i], by_address) != key_of(entry, by_address));
        }
    }
    assert forall|i: int, j: int|
        0 <= i < after.len() && 0 <= j < after.len() && after[i] != EMPTY && precedes(
            home_of(key_of(#[trigger] after[i], by_address), after.len() as int),
            i,
            j,
        ) implies #[trigger] after[j] != EMPTY by {
        if j != pos {
            if i != pos {
                assert(cells[i] != EMPTY);
                assert(cells[j] != EMPTY);
            }
        }
    }
    assert forall|e: u32| held(after, e) <==> (e == entry || held(cells, e)) by {
        if held(after, e) {
            let i = choose|i: int| 0 <= i < after.len() && after[i] == e;
            if i != pos {
                assert(cells[i] == e);
            }
        }
        if e == entry {
            assert(after[pos] == e);
        }
        if held(cells, e) {
            let i = choose|i: int| 0 <= i < cells.len() && cells[i] == e;
            assert(after[i] == e);
        }
    }
}

proof fn lemma_replace(cells: Seq<u32>, by_address: bool, pos: int, entry: u32)
    requires
        distinct_keys(cells, by_address),
        paths_filled(cells, by_address),
        0 <= pos < cells.len(),
        cells[pos] != EMPTY,
        entry != EMPTY,
        key_of(cells[pos], by_address) == key_of(entry, by_address),
    ensures
        distinct_keys(cells.update(pos, entry), by_address),
        paths_filled(cells.update(pos, entry), by_address),
        forall|e: u32| #[trigger]
            held(cells.update(pos, entry), e) <==> (e == entry || (held(cells, e) && key_of(
                e,
                by_address,
            ) != key_of(entry, by_address))),
{
    reveal(distinct_keys);
    reveal(paths_filled);
    let after = cells.update(pos, entry);
    assert forall|i: int, j: int|
        0 <= i < j < after.len() && after[i] != EMPTY && after[j] != EMPTY implies key_of(
        #[trigger] after[i],
        by_address,
    ) != key_of(#[trigger] after[j], by_address) by {
        assert(key_of(cells[i], by_address) != key_of(cells[j], by_address));
    }
    assert forall|i: int, j: int|
        0 <= i < after.len() && 0 <= j < after.len() && after[i] != EMPTY && precedes(
            home_of(key_of(#[trigger] after[i], by_address), after.len() as int),
            i,
            j,
        ) implies #[trigger] after[j] != EMPTY by {
        assert(cells[i] != EMPTY);
        assert(key_of(cells[i], by_address) == key_of(after[i], by_address));
        assert(cells[j] != EMPTY);
    }
    assert forall|e: u32|
        held(after, e) <==> (e == entry || (held(cells, e) && key_of(e, by_address) != key_of(
            entry,
            by_address,
        ))) by {
        if held(after, e) {
            let i = choose|i: int| 0 <= i < after.len() && after[i] == e;
            if i != pos {
                assert(cells[i] == e);
                if i < pos {
                    assert(key_of(cells[i], by_address) != key_of(cells[pos], by_address));
                } else {
                    assert(key_of(cells[pos], by_address) != key_of(cells[i], by_address));
                }
            }
        }
        if e == entry {
            assert(after[pos] == e);
        }
        if held(cells, e) && key_of(e, by_address) != key_of(entry, by_address) {
            let i = choose|i: int| 0 <= i < cells.len() && cells[i] == e;
            assert(after[i] == e);
        }
    }
}

/// An open-addressed table of entries, no two of which share a key.
pub struct PairTable {
    slots: Vec<u32>,
    lg_slots: u8,
    count: usize,
    by_address: bool,
}

impl Clone for PairTable {
    /// A copy with the same slots.
    fn clone(&self) -> (copy: Self)
        ensures
            copy.cells() == self.cells(),
            copy.keyed_by_address() == self.keyed_by_address(),
            copy.size() == self.size(),
            copy.entries() == self.entries(),
            self.wf() ==> copy.wf(),
    {
        let slots: Vec<u32> = self.slots.clone();
        let copy = PairTable {
            slots,
            lg_slots: self.lg_slots,
            count: self.count,
            by_address: self.by_address,
        };
        proof {
            assert(copy.slots@ =~= self.slots@);
            assert(copy.entries() =~= self.entries());
        }
        copy
    }
}

impl PairTable {
    /// The slots of the table, free ones included, in their order.
    pub closed spec fn cells(&self) -> Seq<u32> {
        self.slots@
    }

    /// Whether entries are keyed by their low 26 bits rather than as a whole.
    pub closed spec fn keyed_by_address(&self) -> bool {
        self.by_address
    }

    /// The number of entries held.
    pub closed spec fn size(&self) -> nat {
        self.count as nat
    }

    /// Whether the table holds `entry`.
    pub open spec fn contains(&self, entry: u32) -> bool {
        held(self.cells(), entry)
    }

    /// The set of the entries held.
    pub open spec fn entries(&self) -> Set<u32> {
        Set::new(|e: u32| self.contains(e))
    }

    /// The invariant of the table.
    pub closed spec fn wf(&self) -> bool {
        let cells = self.slots@;
        let len = cells.len() as int;
        &&& 2 <= self.lg_slots <= MAX_LG_SLOTS
        &&& len == pow2(self.lg_slots as nat)
        &&& 4 <= len <= 0x1000_0000
        &&& self.count == occupied(cells, len)
        &&& self.count * 4 <= len * 3
        &&& distinct_keys(cells, self.by_address)
        &&& paths_filled(cells, self.by_address)
    }

    /// The entries form a finite set, whose size is the count the table
    /// keeps; no two of them share a key.
    pub proof fn lemma_size(&self)
        requires
            self.wf(),
        ensures
            self.entries().finite(),
            self.entries().len() == self.size(),
            self.size() <= MAX_ENTRIES,
            4 <= self.cells().len() <= 0x1000_0000,
            self.size() < self.cells().len(),
            forall|a: u32, b: u32|
                self.contains(a) && self.contains(b) && a != b ==> key_of(
                    a,
                    self.keyed_by_address(),
                ) != key_of(b, self.keyed_by_address()),
    {
        reveal(distinct_keys);
        let cells = self.slots@;
        let len = cells.len() as int;
        lemma_gathered(cells, len);
        assert(self.entries() =~= gathered(cells, len));
        assert forall|a: u32, b: u32| self.contains(a) && self.contains(b) && a != b implies key_of(
            a,
            self.keyed_by_address(),
        ) != key_of(b, self.keyed_by_address()) by {
            let i = choose|i: int| 0 <= i < cells.len() && cells[i] == a;
            let j = choose|j: int| 0 <= j < cells.len() && cells[j] == b;
            if i < j {
                assert(key_of(cells[i], self.by_address) != key_of(cells[j], self.by_address));
            } else {
                assert(key_of(cells[j], self.by_address) != key_of(cells[i], self.by_address));
            }
        }
    }

    /// The entries of the table are what its slots hold, taken in order.
    pub proof fn lemma_gathered_entries(&self)
        ensures
            gathered(self.cells(), self.cells().len() as int) == self.entries(),
            forall|n: int|
                0 <= n <= self.cells().len() ==> #[trigger] gathered(self.cells(), n).finite(),
    {
        lemma_gathered(self.cells(), self.cells().len() as int);
        assert(self.entries() =~= gathered(self.cells(), self.cells().len() as int));
        assert forall|n: int| 0 <= n <= self.cells().len() implies #[trigger] gathered(
            self.cells(),
            n,
        ).finite() by {
            lemma_gathered(self.cells(), n);
        }
    }

    /// A table whose keys all lie below a bound holds no more entries than
    /// the bound.
    pub proof fn lemma_bounded_keys(&self, bound: nat)
        requires
            self.wf(),
            forall|e: u32|
                self.contains(e) ==> key_of(e, self.keyed_by_address()) < bound,
        ensures
            self.size() <= bound,
    {
        self.lemma_size();
        let by_address = self.by_address;
        let f = |e: u32| key_of(e, by_address) as int;
        let keys = self.entries().map(f);
        assert(injective_on(f, self.entries()));
        lemma_map_size(self.entries(), keys, f);
        lemma_int_range(0, bound as int);
        assert(keys.subset_of(set_int_range(0, bound as int)));
        lemma_len_subset(keys, set_int_range(0, bound as int));
    }

    fn with_slots(lg_slots: u8, by_address: bool) -> (table: PairTable)
        requires
            2 <= lg_slots <= MAX_LG_SLOTS,
        ensures
            table.wf(),
            table.by_address == by_address,
            table.lg_slots == lg_slots,
            table.count == 0,
            table.slots@.len() == pow2(lg_slots as nat),
            forall|i: int| 0 <= i < table.slots@.len() ==> table.slots@[i] == EMPTY,
    {
        proof {
            lemma2_to64();
            if lg_slots < 28 {
                lemma_pow2_strictly_increases(lg_slots as nat, 28);
            }
            lemma_pow2_strictly_increases(1, lg_slots as nat);
            vstd::bits::lemma_u32_shl_is_mul(1u32, lg_slots as u32);
        }
        let len: u32 = 1u32 << (lg_slots as u32);
        let slots: Vec<u32> = vec![EMPTY; len as usize];
        let table = PairTable { slots, lg_slots, count: 0, by_address };
        proof {
            reveal(distinct_keys);
            reveal(paths_filled);
            lemma_all_free(table.slots@, table.slots@.len() as int);
        }
        table
    }

    /// A table with `2^lg_slots` free slots.
    pub fn new(lg_slots: u8, by_address: bool) -> (table: PairTable)
        requires
            2 <= lg_slots <= MAX_LG_SLOTS,
        ensures
            table.wf(),
            table.keyed_by_address() == by_address,
            table.size() == 0,
            table.cells().len() == pow2(lg_slots as nat),
            forall|e: u32| !table.contains(e),
            table.entries() == Set::<u32>::empty(),
    {
        let table = PairTable::with_slots(lg_slots, by_address);
        proof {
            assert(table.entries() =~= Set::<u32>::empty());
        }
        table
    }

    /// The binary logarithm of the number of slots.
    pub fn lg_capacity(&self) -> (lg: u8)
        requires
            self.wf(),
        ensures
            2 <= lg <= MAX_LG_SLOTS,
            pow2(lg as nat) == self.cells().len(),
    {
        self.lg_slots
    }

    /// The number of slots, free ones included.
    pub fn capacity(&self) -> (n: usize)
        ensures
            n == self.cells().len(),
    {
        self.slots.len()
    }

    /// What slot `i` holds: an entry, or [`EMPTY`].
    pub fn slot(&self, i: usize) -> (e: u32)
        requires
            i < self.cells().len(),
        ensures
            e == self.cells()[i as int],
    {
        self.slots[i]
    }

    /// The number of entries held.
    pub fn len(&self) -> (n: usize)
        ensures
            n == self.size(),
    {
        self.count
    }

    fn key(&self, entry: u32) -> (k: u32)
        ensures
            k == key_of(entry, self.by_address),
    {
        if self.by_address {
            entry % ADDRESS_SPAN
        } else {
            entry
        }
    }

    /// Walks the probe path of `key` to the slot that holds it, or else to
    /// the first free slot.
    fn locate(&self, key: u32) -> (pos: usize)
        requires
            self.wf(),
        ensures
            pos < self.slots@.len(),
            self.slots@[pos as int] == EMPTY || key_of(self.slots@[pos as int], self.by_address)
                == key,
            self.slots@[pos as int] == EMPTY ==> key_free(self.slots@, self.by_address, key),
            forall|j: int|
                0 <= j < self.slots@.len() && precedes(
                    home_of(key, self.slots@.len() as int),
                    pos as int,
                    j,
                ) ==> self.slots@[j] != EMPTY,
    {
        let len: usize = self.slots.len();
        let m: u32 = key.wrapping_mul(0x9E37_79B1);
        let h: usize = ((m ^ (m >> 15u32)) as usize) % len;
        let ghost z: int = lemma_some_free(self.slots@);
        let by_address: bool = self.by_address;
        let mut pos: usize = h;
        let mut wrapped: bool = false;
        let mut done: bool = false;
        while !done
            invariant
                len == self.slots@.len(),
                by_address == self.by_address,
                pos < len,
                h < len,
                0 <= z < len,
                self.slots@[z] == EMPTY,
                wrapped ==> pos < h,
                !wrapped ==> pos >= h,
                done ==> (self.slots@[pos as int] == EMPTY || key_of(
                    self.slots@[pos as int],
                    by_address,
                ) == key),
                forall|j: int|
                    0 <= j < len && precedes(h as int, pos as int, j) ==> #[trigger] self.slots@[j]
                        != EMPTY && key_of(self.slots@[j], by_address) != key,
            decreases
                    (if done {
                        0int
                    } else if wrapped {
                        1 + h - pos
                    } else {
                        1 + len - pos + h
                    }),
        {
            let e: u32 = self.slots[pos];
            let k: u32 = if by_address {
                e % ADDRESS_SPAN
            } else {
                e
            };
            if e == EMPTY || k == key {
                done = true;
            } else {
                proof {
                    // A full round would have passed the free slot `z`.
                    if (pos + 1 == len && h == 0) || (wrapped && pos + 1 == h) {
                        assert(z == pos || precedes(h as int, pos as int, z));
                    }
                }
                if pos + 1 == len {
                    pos = 0;
                    wrapped = true;
                } else {
                    pos = pos + 1;
                }
            }
        }
        proof {
            if self.slots@[pos as int] == EMPTY {
                lemma_absent(self.slots@, self.by_address, key, pos as int);
            }
        }
        pos
    }

    /// Looks up the entry with the given key.
    pub fn find(&self, key: u32) -> (found: Option<u32>)
        requires
            self.wf(),
        ensures
            match found {
                Some(e) => self.contains(e) && key_of(e, self.keyed_by_address()) == key,
                None => forall|e: u32|
                    self.contains(e) ==> key_of(e, self.keyed_by_address()) != key,
            },
    {
        let pos: usize = self.locate(key);
        let e: u32 = self.slots[pos];
        if e == EMPTY {
            proof {
                lemma_key_free(self.slots@, self.by_address, key);
            }
            None
        } else {
            assert(self.cells()[pos as int] == e);
            Some(e)
        }
    }

    /// Writes `entry` into the free slot at the end of its probe path.
    fn place(&mut self, entry: u32)
        requires
            old(self).wf(),
            entry != EMPTY,
            key_free(old(self).slots@, old(self).by_address, key_of(entry, old(self).by_address)),
            (old(self).count + 1) * 4 <= old(self).slots@.len() * 3,
        ensures
            final(self).wf(),
            final(self).by_address == old(self).by_address,
            final(self).lg_slots == old(self).lg_slots,
            final(self).count == old(self).count + 1,
            forall|e: u32|
                held(final(self).slots@, e) <==> (e == entry || held(old(self).slots@, e)),
    {
        let key: u32 = self.key(entry);
        let pos: usize = self.locate(key);
        proof {
            lemma_occupied_update(self.slots@, pos as int, entry, self.slots@.len() as int);
            lemma_place(self.slots@, self.by_address, pos as int, entry);
        }
        let ghost before = self.slots@;
        self.slots.set(pos, entry);
        self.count = self.count + 1;
        proof {
            assert(self.slots@ == before.update(pos as int, entry));
            assert forall|e: u32| held(self.slots@, e) <==> (e == entry || held(before, e)) by {
                assert(held(before.update(pos as int, entry), e) <==> (e == entry || held(
                    before,
                    e,
                )));
            }
        }
    }

    /// Doubles the number of slots and puts every entry where it now belongs.
    fn grow(&mut self)
        requires
            old(self).wf(),
            old(self).lg_slots < MAX_LG_SLOTS,
        ensures
            final(self).wf(),
            final(self).by_address == old(self).by_address,
            final(self).lg_slots == old(self).lg_slots + 1,
            final(self).count == old(self).count,
            final(self).slots@.len() == 2 * old(self).slots@.len(),
            forall|e: u32| held(final(self).slots@, e) <==> held(old(self).slots@, e),
    {
        let mut fresh: PairTable = PairTable::with_slots(self.lg_slots + 1, self.by_address);
        proof {
            lemma_pow2_unfold((self.lg_slots + 1) as nat);
        }
        let len: usize = self.slots.len();
        let mut i: usize = 0;
        while i < len
            invariant
                self.wf(),
                fresh.wf(),
                i <= len,
                len == self.slots@.len(),
                fresh.slots@.len() == 2 * len,
                fresh.by_address == self.by_address,
                fresh.lg_slots == self.lg_slots + 1,
                fresh.count == occupied(self.slots@, i as int),
                forall|e: u32|
                    held(fresh.slots@, e) <==> (e != EMPTY && exists|j: int|
                        0 <= j < i && self.slots@[j] == e),
            decreases len - i,
        {
            let e: u32 = self.slots[i];
            if e != EMPTY {
                proof {
                    reveal(distinct_keys);
                    lemma_occupied_grows(self.slots@, i as int + 1, len as int);
                    assert forall|n: int|
                        0 <= n < fresh.slots@.len() && fresh.slots@[n] != EMPTY implies key_of(
                        #[trigger] fresh.slots@[n],
                        fresh.by_address,
                    ) != key_of(e, fresh.by_address) by {
                        let f = fresh.slots@[n];
                        assert(held(fresh.slots@, f));
                        let j = choose|j: int| 0 <= j < i && self.slots@[j] == f;
                        assert(key_of(self.slots@[j], self.by_address) != key_of(
                            self.slots@[i as int],
                            self.by_address,
                        ));
                    }
                }
                let ghost prior = fresh.slots@;
                fresh.place(e);
                proof {
                    assert forall|f: u32|
                        held(fresh.slots@, f) <==> (f != EMPTY && exists|j: int|
                            0 <= j < i + 1 && self.slots@[j] == f) by {
                        if held(fresh.slots@, f) {
                            if f == e {
                                assert(self.slots@[i as int] == f);
                            } else {
                                assert(held(prior, f));
                                let j = choose|j: int| 0 <= j < i && self.slots@[j] == f;
                                assert(self.slots@[j] == f);
                            }
                        }
                        if f != EMPTY && exists|j: int| 0 <= j < i + 1 && self.slots@[j] == f {
                            let j = choose|j: int| 0 <= j < i + 1 && self.slots@[j] == f;
                            if j < i {
                                assert(held(prior, f));
                            }
                        }
                    }
                }
            }
            i = i + 1;
        }
        proof {
            assert forall|e: u32| held(fresh.slots@, e) <==> held(self.slots@, e) by {
                if held(fresh.slots@, e) {
                    let j = choose|j: int| 0 <= j < len && self.slots@[j] == e;
                    assert(self.slots@[j] == e);
                }
                if held(self.slots@, e) {
                    let j = choose|j: int| 0 <= j < self.slots@.len() && self.slots@[j] == e;
                    assert(self.slots@[j] == e);
                }
            }
        }
        *self = fresh;
    }

    /// Builds a table from the `n` words of a buffer that start at `at`;
    /// words that are [`EMPTY`] stand for free slots and are passed over.
    /// There is no table if two of the others share a key, or if there are
    /// more than `cap` of them.
    pub fn collect(bytes: &[u8], at: usize, n: usize, by_address: bool, cap: usize) -> (r: Option<
        PairTable,
    >)
        requires
            at + 4 * n <= bytes@.len(),
            cap < MAX_ENTRIES,
        ensures
            match r {
                Some(t) => {
                    &&& t.wf()
                    &&& t.keyed_by_address() == by_address
                    &&& distinct_keys(words_at(bytes@, at as int, n as nat), by_address)
                    &&& t.entries() == gathered(words_at(bytes@, at as int, n as nat), n as int)
                    &&& t.size() == occupied(words_at(bytes@, at as int, n as nat), n as int)
                    &&& t.size() <= cap
                },
                None => !distinct_keys(words_at(bytes@, at as int, n as nat), by_address)
                    || occupied(words_at(bytes@, at as int, n as nat), n as int) > cap,
            },
    {
        let ghost words = words_at(bytes@, at as int, n as nat);
        let len: usize = bytes.len();
        let mut table: PairTable = PairTable::with_slots(5, by_address);
        let mut i: usize = 0;
        proof {
            assert(table.entries() =~= gathered(words, 0));
        }
        while i < n
            invariant
                table.wf(),
                table.by_address == by_address,
                words == words_at(bytes@, at as int, n as nat),
                at + 4 * n <= bytes@.len(),
                len == bytes@.len(),
                cap < MAX_ENTRIES,
                i <= n,
                table.count == occupied(words, i as int),
                table.count <= cap,
                table.entries() == gathered(words, i as int),
                forall|a: int, b: int|
                    0 <= a < b < i && words[a] != EMPTY && words[b] != EMPTY ==> key_of(
                        #[trigger] words[a],
                        by_address,
                    ) != key_of(#[trigger] words[b], by_address),
            decreases n - i,
        {
            let w: u32 = read_word(bytes, at + 4 * i);
            assert(w == words[i as int]);
            if w != EMPTY {
                if table.count >= cap {
                    proof {
                        lemma_occupied_grows(words, i as int + 1, n as int);
                    }
                    return None;
                }
                let ghost prior = table;
                let prev = table.put(w);
                proof {
                    lemma_gathered(words, i as int);
                }
                if prev.is_some() {
                    proof {
                        reveal(distinct_keys);
                        let p = prev->0;
                        assert(prior.entries().contains(p));
                        let a = choose|a: int| 0 <= a < i && words[a] == p;
                        assert(key_of(words[a], by_address) == key_of(
                            words[i as int],
                            by_address,
                        ));
                    }
                    return None;
                }
                proof {
                    assert forall|a: int, b: int|
                        0 <= a < b < i + 1 && words[a] != EMPTY && words[b] != EMPTY implies key_of(
                        #[trigger] words[a],
                        by_address,
                    ) != key_of(#[trigger] words[b], by_address) by {
                        if b == i {
                            assert(gathered(words, i as int).contains(words[a]));
                            assert(prior.contains(words[a]));
                        }
                    }
                    assert(table.entries() =~= gathered(words, i as int + 1));
                }
            }
            i = i + 1;
        }
        proof {
            reveal(distinct_keys);
        }
        Some(table)
    }

    /// Appends the slots of the table, free ones included, as words.
    pub fn write_cells(&self, out: &mut Vec<u8>)
        requires
            self.wf(),
            old(out)@.len() + 4 * self.cells().len() <= usize::MAX,
        ensures
            final(out)@.len() == old(out)@.len() + 4 * self.cells().len(),
            forall|j: int| 0 <= j < old(out)@.len() ==> final(out)@[j] == old(out)@[j],
            words_at(final(out)@, old(out)@.len() as int, self.cells().len()) == self.cells(),
            distinct_keys(self.cells(), self.keyed_by_address()),
            gathered(self.cells(), self.cells().len() as int) == self.entries(),
            occupied(self.cells(), self.cells().len() as int) == self.size(),
    {
        let n: usize = self.slots.len();
        let ghost base = out@.len() as int;
        let mut i: usize = 0;
        while i < n
            invariant
                n == self.slots@.len(),
                i <= n,
                base == old(out)@.len(),
                base + 4 * n <= usize::MAX,
                out@.len() == base + 4 * i,
                forall|j: int| 0 <= j < base ==> out@[j] == old(out)@[j],
                forall|j: int| 0 <= j < i ==> word_at(out@, base + 4 * j) == self.slots@[j],
            decreases n - i,
        {
            let ghost before = out@;
            push_word(out, self.slots[i]);
            proof {
                assert forall|j: int| 0 <= j < i + 1 implies word_at(out@, base + 4 * j)
                    == self.slots@[j] by {
                    if j < i {
                        assert(word_at(before, base + 4 * j) == self.slots@[j]);
                    }
                }
            }
            i = i + 1;
        }
        proof {
            assert(words_at(out@, base, n as nat) =~= self.slots@);
            self.lemma_gathered_entries();
        }
    }

    /// Appends the entries of the table as words, in the order of their
    /// slots.
    pub fn write_entries(&self, out: &mut Vec<u8>)
        requires
            self.wf(),
            old(out)@.len() + 4 * self.size() <= usize::MAX,
        ensures
            final(out)@.len() == old(out)@.len() + 4 * self.size(),
            forall|j: int| 0 <= j < old(out)@.len() ==> final(out)@[j] == old(out)@[j],
            distinct_keys(
                words_at(final(out)@, old(out)@.len() as int, self.size()),
                self.keyed_by_address(),
            ),
            gathered(
                words_at(final(out)@, old(out)@.len() as int, self.size()),
                self.size() as int,
            ) == self.entries(),
            occupied(
                words_at(final(out)@, old(out)@.len() as int, self.size()),
                self.size() as int,
            ) == self.size(),
    {
        let n: usize = self.slots.len();
        let ghost base = out@.len() as int;
        let ghost mut source: Seq<int> = Seq::empty();
        let mut i: usize = 0;
        let mut m: usize = 0;
        proof {
            lemma_occupied_bounds(self.slots@, n as int);
        }
        while i < n
            invariant
                self.wf(),
                n == self.slots@.len(),
                i <= n,
                base == old(out)@.len(),
                base + 4 * self.count <= usize::MAX,
                m == occupied(self.slots@, i as int),
                m <= self.count,
                out@.len() == base + 4 * m,
                source.len() == m,
                forall|j: int| 0 <= j < base ==> out@[j] == old(out)@[j],
                forall|j: int|
                    0 <= j < m ==> 0 <= #[trigger] source[j] < i && word_at(out@, base + 4 * j)
                        == self.slots@[source[j]] && self.slots@[source[j]] != EMPTY,
                forall|a: int, b: int| 0 <= a < b < m ==> source[a] < source[b],
                forall|c: int|
                    0 <= c < i && self.slots@[c] != EMPTY ==> exists|j: int|
                        0 <= j < m && source[j] == c,
            decreases n - i,
        {
            let e: u32 = self.slots[i];
            proof {
                lemma_occupied_grows(self.slots@, i as int + 1, n as int);
            }
            if e != EMPTY {
                let ghost before = out@;
                let ghost before_source = source;
                push_word(out, e);
                proof {
                    source = source.push(i as int);
                    assert forall|j: int| 0 <= j < m + 1 implies 0 <= #[trigger] source[j] < i + 1
                        && word_at(out@, base + 4 * j) == self.slots@[source[j]]
                        && self.slots@[source[j]] != EMPTY by {
                        if j < m {
                            assert(source[j] == before_source[j]);
                            assert(word_at(before, base + 4 * j) == self.slots@[before_source[j]]);
                        }
                    }
                    assert forall|c: int| 0 <= c < i + 1 && self.slots@[c] != EMPTY implies exists|
                        j: int,
                    |
                        0 <= j < m + 1 && source[j] == c by {
                        if c < i {
                            let j = choose|j: int| 0 <= j < m && before_source[j] == c;
                            assert(source[j] == c);
                        } else {
                            assert(source[m as int] == c);
                        }
                    }
                }
                m = m + 1;
            } else {
                proof {
                    assert forall|c: int| 0 <= c < i + 1 && self.slots@[c] != EMPTY implies exists|
                        j: int,
                    |
                        0 <= j < m && source[j] == c by {
                        if c < i {
                        }
                    }
                }
            }
            i = i + 1;
        }
        proof {
            reveal(distinct_keys);
            let words = words_at(out@, base, self.count as nat);
            assert forall|j: int| 0 <= j < m implies words[j] == self.slots@[source[j]] by {
                assert(0 <= source[j] < n);
            }
            assert forall|a: int, b: int|
                0 <= a < b < words.len() && words[a] != EMPTY && words[b] != EMPTY implies key_of(
                #[trigger] words[a],
                self.by_address,
            ) != key_of(#[trigger] words[b], self.by_address) by {
                assert(source[a] < source[b]);
                assert(words[a] == self.slots@[source[a]]);
                assert(words[b] == self.slots@[source[b]]);
                assert(key_of(self.slots@[source[a]], self.by_address) != key_of(
                    self.slots@[source[b]],
                    self.by_address,
                ));
            }
            lemma_gathered(words, m as int);
            lemma_gathered(self.slots@, n as int);
            assert forall|e: u32| gathered(words, m as int).contains(e) <==> self.entries().contains(
                e,
            ) by {
                if gathered(words, m as int).contains(e) {
                    let j = choose|j: int| 0 <= j < m && words[j] == e;
                    assert(self.slots@[source[j]] == e);
                }
                if self.contains(e) {
                    let c = choose|c: int| 0 <= c < self.cells().len() && self.cells()[c] == e;
                    let j = choose|j: int| 0 <= j < m && source[j] == c;
                    assert(words[j] == e);
                }
            }
            assert(gathered(words, m as int) =~= self.entries());
            assert forall|j: int| 0 <= j < m implies words[j] != EMPTY by {
                assert(words[j] == self.slots@[source[j]]);
            }
            lemma_occupied_bounds(words, m as int);
        }
    }

    /// Stores `entry`, in place of the entry that had its key if there was
    /// one, and returns that entry.
    pub fn put(&mut self, entry: u32) -> (prev: Option<u32>)
        requires
            old(self).wf(),
            entry != EMPTY,
            old(self).size() < MAX_ENTRIES,
        ensures
            final(self).wf(),
            final(self).keyed_by_address() == old(self).keyed_by_address(),
            match prev {
                Some(p) => old(self).contains(p) && key_of(p, old(self).keyed_by_address())
                    == key_of(entry, old(self).keyed_by_address()),
                None => forall|e: u32|
                    old(self).contains(e) ==> key_of(e, old(self).keyed_by_address()) != key_of(
                        entry,
                        old(self).keyed_by_address(),
                    ),
            },
            forall|e: u32|
                final(self).contains(e) <==> (e == entry || (old(self).contains(e) && key_of(
                    e,
                    old(self).keyed_by_address(),
                ) != key_of(entry, old(self).keyed_by_address()))),
            final(self).size() == old(self).size() + if prev is None {
                1nat
            } else {
                0nat
            },
    {
        let key: u32 = self.key(entry);
        let pos: usize = self.locate(key);
        let cur: u32 = self.slots[pos];
        if cur != EMPTY {
            proof {
                lemma_occupied_update(self.slots@, pos as int, entry, self.slots@.len() as int);
                lemma_replace(self.slots@, self.by_address, pos as int, entry);
                assert(self.slots@[pos as int] == cur);
            }
            self.slots.set(pos, entry);
            return Some(cur);
        }
        if (self.count + 1) * 4 > self.slots.len() * 3 {
            proof {
                lemma2_to64();
            }
            self.grow();
            proof {
                assert forall|n: int|
                    0 <= n < self.slots@.len() && self.slots@[n] != EMPTY implies key_of(
                    #[trigger] self.slots@[n],
                    self.by_address,
                ) != key by {
                    let f = self.slots@[n];
                    assert(held(self.slots@, f));
                    assert(held(old(self).slots@, f));
                    let j = choose|j: int|
                        0 <= j < old(self).slots@.len() && old(self).slots@[j] == f;
                    assert(key_of(old(self).slots@[j], self.by_address) != key);
                }
            }
        }
        self.place(entry);
        proof {
            lemma_key_free(old(self).slots@, self.by_address, key);
        }
        None
    }
}

} // verus!
