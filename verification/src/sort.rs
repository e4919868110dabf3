//! Sets of words put in rising order.
//!
//! The entries of a hash table lie in an order that depends on how the
//! table came about. Where the order shows, as in a dump, the entries are
//! put in rising order first, which depends on the set alone.
use crate::table::EMPTY;
use crate::table::PairTable;
use crate::table::gathered;
use vstd::prelude::*;

verus! {

/// Whether each word of a sequence is less than those after it.
pub open spec fn rising(s: Seq<u32>) -> bool {
    forall|i: int, j: int| 0 <= i < j < s.len() ==> s[i] < s[j]
}

/// The words of a finite set in rising order.
pub open spec fn rising_of(set: Set<u32>) -> Seq<u32> {
    choose|s: Seq<u32>| rising(s) && s.to_set() == set
}

/// Two sequences in rising order that hold the same words are the same.
pub proof fn lemma_rising_unique(a: Seq<u32>, b: Seq<u32>)
    requires
        rising(a),
        rising(b),
        a.to_set() == b.to_set(),
    ensures
        a == b,
    decreases a.len(),
{
    if a.len() == 0 {
        if b.len() > 0 {
            assert(b.to_set().contains(b[0]));
            assert(a.contains(b[0]));
        }
        assert(a =~= b);
    } else {
        assert(a.to_set().contains(a[0]));
        assert(b.contains(a[0]));
        let j = choose|j: int| 0 <= j < b.len() && b[j] == a[0];
        assert(b.to_set().contains(b[0]));
        assert(a.contains(b[0]));
        let i = choose|i: int| 0 <= i < a.len() && a[i] == b[0];
        assert(i == 0 && j == 0) by {
            if i > 0 {
                assert(a[0] < a[i]);
                if j > 0 {
                    assert(b[0] < b[j]);
                }
            }
        }
        let x = a.drop_first();
        let y = b.drop_first();
        assert forall|e: u32| x.to_set().contains(e) == y.to_set().contains(e) by {
            if x.contains(e) {
                let m = choose|m: int| 0 <= m < x.len() && x[m] == e;
                assert(a[m + 1] == e);
                assert(a[0] < a[m + 1]);
                assert(a.to_set().contains(e));
                assert(b.contains(e));
                let n = choose|n: int| 0 <= n < b.len() && b[n] == e;
                assert(y[n - 1] == e);
            }
            if y.contains(e) {
                let n = choose|n: int| 0 <= n < y.len() && y[n] == e;
                assert(b[n + 1] == e);
                assert(b[0] < b[n + 1]);
                assert(b.to_set().contains(e));
                assert(a.contains(e));
                let m = choose|m: int| 0 <= m < a.len() && a[m] == e;
                assert(x[m - 1] == e);
            }
        }
        assert(x.to_set() =~= y.to_set());
        assert(rising(x)) by {
            assert forall|p: int, q: int| 0 <= p < q < x.len() implies x[p] < x[q] by {
                assert(a[p + 1] < a[q + 1]);
            }
        }
        assert(rising(y)) by {
            assert forall|p: int, q: int| 0 <= p < q < y.len() implies y[p] < y[q] by {
                assert(b[p + 1] < b[q + 1]);
            }
        }
        lemma_rising_unique(x, y);
        assert(a =~= seq![a[0]] + x);
        assert(b =~= seq![b[0]] + y);
    }
}

/// Two sequences in rising order that hold the same words are the same.
pub proof fn lemma_rising_same(a: Seq<u32>, b: Seq<u32>)
    requires
        rising(a),
        rising(b),
        forall|e: u32| a.contains(e) <==> b.contains(e),
    ensures
        a == b,
{
    assert(a.to_set() =~= b.to_set());
    lemma_rising_unique(a, b);
}

/// A sequence in rising order is the rising order of the set of its
/// words.
pub proof fn lemma_rising_of(s: Seq<u32>)
    requires
        rising(s),
    ensures
        rising_of(s.to_set()) == s,
{
    let chosen = rising_of(s.to_set());
    assert(rising(s) && s.to_set() == s.to_set());
    lemma_rising_unique(chosen, s);
}

/// The number of the words of a sequence in rising order that are less
/// than `x`: the place at which `x` stands, or would stand.
pub fn lower_bound(v: &Vec<u32>, x: u32) -> (at: usize)
    requires
        rising(v@),
    ensures
        at <= v@.len(),
        forall|i: int| 0 <= i < at ==> v@[i] < x,
        forall|i: int| at <= i < v@.len() ==> v@[i] >= x,
        v@.contains(x) <==> (at < v@.len() && v@[at as int] == x),
{
    let n: usize = v.len();
    let mut low: usize = 0;
    let mut high: usize = n;
    while low < high
        invariant
            n == v@.len(),
            rising(v@),
            low <= high <= n,
            forall|i: int| 0 <= i < low ==> v@[i] < x,
            forall|i: int| high <= i < n ==> v@[i] >= x,
        decreases high - low,
    {
        let mid: usize = low + (high - low) / 2;
        if v[mid] < x {
            proof {
                assert forall|i: int| 0 <= i < mid + 1 implies v@[i] < x by {
                    if i < mid {
                        assert(v@[i] < v@[mid as int]);
                    }
                }
            }
            low = mid + 1;
        } else {
            proof {
                assert forall|i: int| mid <= i < n implies v@[i] >= x by {
                    if mid < i {
                        assert(v@[mid as int] < v@[i]);
                    }
                }
            }
            high = mid;
        }
    }
    proof {
        if v@.contains(x) {
            let i = choose|i: int| 0 <= i < v@.len() && v@[i] == x;
            if low < i {
                assert(v@[low as int] < v@[i]);
            }
        }
    }
    low
}

/// Puts a word into a sequence in rising order, unless it is there, and
/// says whether it was put.
pub fn insert_rising(v: &mut Vec<u32>, x: u32) -> (novel: bool)
    requires
        rising(old(v)@),
    ensures
        rising(final(v)@),
        novel == !old(v)@.contains(x),
        final(v)@.to_set() == old(v)@.to_set().insert(x),
        forall|e: u32| final(v)@.contains(e) <==> (e == x || old(v)@.contains(e)),
        final(v)@.len() == old(v)@.len() + if novel {
            1int
        } else {
            0int
        },
{
    let at: usize = lower_bound(v, x);
    if at < v.len() && v[at] == x {
        proof {
            assert(v@.to_set().insert(x) =~= v@.to_set());
        }
        return false;
    }
    let ghost before = v@;
    v.insert(at, x);
    proof {
        let after = v@;
        assert forall|i: int, j: int| 0 <= i < j < after.len() implies after[i] < after[j] by {
            if j < at {
                assert(before[i] < before[j]);
            } else if j == at {
            } else if i < at {
                assert(before[i] < before[j - 1] || i == j - 1);
            } else if i == at {
                assert(before[j - 1] >= x);
                assert(before[j - 1] != x) by {
                    if j - 1 > at {
                        assert(before[at as int] < before[j - 1]);
                    }
                }
            } else {
                assert(before[i - 1] < before[j - 1]);
            }
        }
        assert forall|e: u32| after.contains(e) <==> (e == x || before.contains(e)) by {
            if after.contains(e) {
                let i = choose|i: int| 0 <= i < after.len() && after[i] == e;
                if i < at {
                    assert(before[i] == e);
                } else if i > at {
                    assert(before[i - 1] == e);
                }
            }
            if e == x {
                assert(after[at as int] == x);
            }
            if before.contains(e) {
                let i = choose|i: int| 0 <= i < before.len() && before[i] == e;
                if i < at {
                    assert(after[i] == e);
                } else {
                    assert(after[i + 1] == e);
                }
            }
        }
        assert(after.to_set() =~= before.to_set().insert(x));
    }
    true
}

/// Takes a word out of a sequence in rising order, if it is there, and
/// says whether it was.
pub fn remove_rising(v: &mut Vec<u32>, x: u32) -> (found: bool)
    requires
        rising(old(v)@),
    ensures
        rising(final(v)@),
        found == old(v)@.contains(x),
        forall|e: u32| final(v)@.contains(e) <==> (e != x && old(v)@.contains(e)),
        final(v)@.len() == old(v)@.len() - if found {
            1int
        } else {
            0int
        },
{
    let at: usize = lower_bound(v, x);
    if at >= v.len() || v[at] != x {
        return false;
    }
    let ghost before = v@;
    let _ = v.remove(at);
    proof {
        let after = v@;
        assert forall|i: int, j: int| 0 <= i < j < after.len() implies after[i] < after[j] by {
            let a = if i < at {
                i
            } else {
                i + 1
            };
            let b = if j < at {
                j
            } else {
                j + 1
            };
            assert(before[a] < before[b]);
        }
        assert forall|e: u32| after.contains(e) <==> (e != x && before.contains(e)) by {
            if after.contains(e) {
                let i = choose|i: int| 0 <= i < after.len() && after[i] == e;
                let a = if i < at {
                    i
                } else {
                    i + 1
                };
                assert(before[a] == e);
                if a < at {
                    assert(before[a] < before[at as int]);
                } else {
                    assert(before[at as int] < before[a]);
                }
            }
            if e != x && before.contains(e) {
                let a = choose|a: int| 0 <= a < before.len() && before[a] == e;
                if a < at {
                    assert(after[a] == e);
                } else {
                    assert(after[a - 1] == e);
                }
            }
        }
    }
    true
}

/// The words of a list in rising order.
pub fn rising_from_list(list: &Vec<u32>) -> (r: Vec<u32>)
    ensures
        r@ == rising_of(list@.to_set()),
        rising(r@),
        r@.to_set() == list@.to_set(),
{
    let mut r: Vec<u32> = Vec::new();
    let n: usize = list.len();
    let mut i: usize = 0;
    proof {
        assert(r@.to_set() =~= list@.take(0).to_set());
    }
    while i < n
        invariant
            n == list@.len(),
            i <= n,
            rising(r@),
            r@.to_set() == list@.take(i as int).to_set(),
        decreases n - i,
    {
        proof {
            assert(list@.take(i as int + 1) =~= list@.take(i as int).push(list@[i as int]));
            list@.take(i as int).lemma_push_to_set_commute(list@[i as int]);
        }
        let _ = insert_rising(&mut r, list[i]);
        i = i + 1;
    }
    proof {
        assert(list@.take(n as int) =~= list@);
        lemma_rising_of(r@);
    }
    r
}

/// The entries of a table in rising order.
pub fn rising_from_table(table: &PairTable) -> (r: Vec<u32>)
    ensures
        r@ == rising_of(table.entries()),
        rising(r@),
        r@.to_set() == table.entries(),
{
    let mut r: Vec<u32> = Vec::new();
    let n: usize = table.capacity();
    let mut i: usize = 0;
    proof {
        assert(r@.to_set() =~= gathered(table.cells(), 0));
    }
    while i < n
        invariant
            n == table.cells().len(),
            i <= n,
            rising(r@),
            r@.to_set() == gathered(table.cells(), i as int),
        decreases n - i,
    {
        let e: u32 = table.slot(i);
        if e != EMPTY {
            let _ = insert_rising(&mut r, e);
        }
        i = i + 1;
    }
    proof {
        table.lemma_gathered_entries();
        lemma_rising_of(r@);
    }
    r
}

} // verus!
