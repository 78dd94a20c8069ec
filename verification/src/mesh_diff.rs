//! Diffing data structure for a keyed mesh of drawable primitives.
//!
//! A mesh is a bag of primitives, each belonging to a non-unique key.  The
//! differ stores the last committed state as a dense array of entries plus an
//! ordered index from entry to slot, accepts whole-key overwrites through
//! [`MeshDiffer::stage`], and on [`MeshDiffer::commit`] emits a [`MeshPatch`]:
//! the new length of the dense array together with an index-sorted list of
//! slot writes that brings the previous committed state up to date.

use crate::pool::{Pool, PoolLogic};
use vstd::prelude::*;

verus! {

/// The internal sortable unit: a key, a primitive value, and an ordinal.
///
/// The ordinal tells apart repeated copies of an identical primitive under
/// the same key, so that the order on entries is strict even when payload
/// values collide.
#[derive(Clone, Copy, PartialEq, Eq, Structural, Debug, Hash)]
pub struct Entry {
    pub key: u64,
    pub prim: u64,
    pub ordinal: usize,
}

impl Entry {
    /// Construct an entry from its three components.
    pub fn new(key: u64, prim: u64, ordinal: usize) -> (e: Entry)
        ensures
            e == (Entry { key, prim, ordinal }),
    {
        Entry { key, prim, ordinal }
    }

    /// The primitive payload carried by this entry.
    pub fn primitive(&self) -> (p: u64)
        ensures
            p == self.prim,
    {
        self.prim
    }
}

/// Strict total order on entries: by key, then primitive, then ordinal.
pub open spec fn entry_lt(a: Entry, b: Entry) -> bool {
    ||| a.key < b.key
    ||| (a.key == b.key && a.prim < b.prim)
    ||| (a.key == b.key && a.prim == b.prim && a.ordinal < b.ordinal)
}

/// A sequence of entries in strictly increasing entry order.
pub open spec fn entries_sorted(s: Seq<Entry>) -> bool {
    forall|i: int, j: int| 0 <= i < j < s.len() ==> entry_lt(s[i], s[j])
}

/// A sequence of keys in strictly increasing order.
pub open spec fn keys_sorted(s: Seq<u64>) -> bool {
    forall|i: int, j: int| 0 <= i < j < s.len() ==> s[i] < s[j]
}

/// Exec comparison that mirrors `entry_lt`.
fn entry_lt_exec(a: &Entry, b: &Entry) -> (r: bool)
    ensures
        r == entry_lt(*a, *b),
{
    if a.key != b.key {
        a.key < b.key
    } else if a.prim != b.prim {
        a.prim < b.prim
    } else {
        a.ordinal < b.ordinal
    }
}

/// Inserting into a sequence inserts into its set of elements.
proof fn lemma_to_set_insert<A>(s: Seq<A>, j: int, x: A)
    requires
        0 <= j <= s.len(),
    ensures
        s.insert(j, x).to_set() == s.to_set().insert(x),
{
    s.insert_ensures(j, x);
    assert forall|y: A| s.insert(j, x).to_set().contains(y) implies s.to_set().insert(x).contains(
        y,
    ) by {
        let i = choose|i: int| 0 <= i < s.insert(j, x).len() && s.insert(j, x)[i] == y;
        if i < j {
            assert(s[i] == y);
        } else if i == j {
        } else {
            assert(s[i - 1] == y);
        }
    }
    assert forall|y: A| s.to_set().insert(x).contains(y) implies s.insert(j, x).to_set().contains(
        y,
    ) by {
        if y == x {
            assert(s.insert(j, x)[j] == y);
        } else {
            let i = choose|i: int| 0 <= i < s.len() && s[i] == y;
            if i < j {
                assert(s.insert(j, x)[i] == y);
            } else {
                assert(s.insert(j, x)[i + 1] == y);
            }
        }
    }
    assert(s.insert(j, x).to_set() =~= s.to_set().insert(x));
}

/// Removing position `j` from a duplicate-free sequence removes exactly
/// the element at `j` from its set of elements.
proof fn lemma_to_set_remove<A>(s: Seq<A>, j: int)
    requires
        0 <= j < s.len(),
        s.no_duplicates(),
    ensures
        s.remove(j).to_set() == s.to_set().remove(s[j]),
        s.remove(j).no_duplicates(),
{
    s.remove_ensures(j);
    assert forall|y: A| s.remove(j).to_set().contains(y) implies s.to_set().remove(s[j]).contains(
        y,
    ) by {
        let i = choose|i: int| 0 <= i < s.remove(j).len() && s.remove(j)[i] == y;
        if i < j {
            assert(s[i] == y);
        } else {
            assert(s[i + 1] == y);
        }
    }
    assert forall|y: A| s.to_set().remove(s[j]).contains(y) implies s.remove(j).to_set().contains(
        y,
    ) by {
        let i = choose|i: int| 0 <= i < s.len() && s[i] == y;
        if i < j {
            assert(s.remove(j)[i] == y);
        } else {
            assert(s.remove(j)[i - 1] == y);
        }
    }
    assert(s.remove(j).to_set() =~= s.to_set().remove(s[j]));
    assert forall|p: int, q: int| 0 <= p < q < s.remove(j).len() implies s.remove(j)[p] != s.remove(
        j,
    )[q] by {
        let p0: int = if p < j { p } else { p + 1 };
        let q0: int = if q < j { q } else { q + 1 };
        assert(s.remove(j)[p] == s[p0]);
        assert(s.remove(j)[q] == s[q0]);
    }
}

/// Updating a slot of a duplicate-free sequence with a value it does not
/// already hold swaps one element of its set for another.
proof fn lemma_to_set_update<A>(s: Seq<A>, j: int, x: A)
    requires
        0 <= j < s.len(),
        s.no_duplicates(),
        !s.to_set().contains(x),
    ensures
        s.update(j, x).to_set() == s.to_set().remove(s[j]).insert(x),
        s.update(j, x).no_duplicates(),
{
    assert forall|y: A|
        s.update(j, x).to_set().contains(y) implies s.to_set().remove(s[j]).insert(x).contains(
        y,
    ) by {
        let i = choose|i: int| 0 <= i < s.update(j, x).len() && s.update(j, x)[i] == y;
        if i != j {
            assert(s[i] == y);
            assert(y != s[j]);
        }
    }
    assert forall|y: A|
        s.to_set().remove(s[j]).insert(x).contains(y) implies s.update(j, x).to_set().contains(
        y,
    ) by {
        if y == x {
            assert(s.update(j, x)[j] == y);
        } else {
            let i = choose|i: int| 0 <= i < s.len() && s[i] == y;
            assert(s.update(j, x)[i] == y);
        }
    }
    assert(s.update(j, x).to_set() =~= s.to_set().remove(s[j]).insert(x));
}

/// Pushing onto a sequence adds the element to its set of elements.
proof fn lemma_to_set_push<A>(s: Seq<A>, x: A)
    ensures
        s.push(x).to_set() == s.to_set().insert(x),
{
    assert forall|y: A| s.push(x).to_set().contains(y) implies s.to_set().insert(x).contains(y) by {
        let i = choose|i: int| 0 <= i < s.push(x).len() && s.push(x)[i] == y;
        if i < s.len() {
            assert(s[i] == y);
        }
    }
    assert forall|y: A| s.to_set().insert(x).contains(y) implies s.push(x).to_set().contains(y) by {
        if y == x {
            assert(s.push(x)[s.len() as int] == y);
        } else {
            let i = choose|i: int| 0 <= i < s.len() && s[i] == y;
            assert(s.push(x)[i] == y);
        }
    }
    assert(s.push(x).to_set() =~= s.to_set().insert(x));
}

/// Dropping the last element of a duplicate-free sequence removes it from
/// the set of elements.
proof fn lemma_to_set_drop_last<A>(s: Seq<A>)
    requires
        s.len() > 0,
        s.no_duplicates(),
    ensures
        s.drop_last().to_set() == s.to_set().remove(s.last()),
{
    assert(s.drop_last() == s.remove(s.len() - 1));
    lemma_to_set_remove(s, s.len() - 1);
}

broadcast use {vstd::seq_lib::group_to_multiset_ensures, vstd::multiset::group_multiset_axioms};

/// Copy `v` without the entries of one key, preserving order.
fn remove_key_entries(v: &Vec<Entry>, key: u64) -> (out: Vec<Entry>)
    requires
        entries_sorted(v@),
    ensures
        entries_sorted(out@),
        forall|e: Entry|
            out@.to_set().contains(e) <==> (v@.to_set().contains(e) && e.key != key),
{
    let mut out: Vec<Entry> = Vec::new();
    let mut i: usize = 0;
    while i < v.len()
        invariant
            i <= v.len(),
            entries_sorted(v@),
            entries_sorted(out@),
            forall|e: Entry|
                out@.to_set().contains(e) <==> (v@.subrange(0, i as int).to_set().contains(e)
                    && e.key != key),
            out@.len() == 0 || (exists|j: int| 0 <= j < i && out@.last() == v@[j]),
        decreases v.len() - i,
    {
        let e = v[i];
        proof {
            assert(v@.subrange(0, i as int + 1) =~= v@.subrange(0, i as int).push(v@[i as int]));
            lemma_to_set_push(v@.subrange(0, i as int), v@[i as int]);
        }
        if e.key != key {
            proof {
                if out@.len() > 0 {
                    let j = choose|j: int| 0 <= j < i && out@.last() == v@[j];
                    assert(entry_lt(v@[j], v@[i as int]));
                }
                lemma_to_set_push(out@, e);
            }
            let ghost prev = out@;
            out.push(e);
            proof {
                assert forall|p: int, q: int| 0 <= p < q < out@.len() implies entry_lt(
                    out@[p],
                    out@[q],
                ) by {
                    if q < out@.len() - 1 {
                        assert(entry_lt(prev[p], prev[q]));
                    } else {
                        if p < prev.len() - 1 {
                            assert(entry_lt(prev[p], prev.last()));
                        }
                    }
                }
                assert(out@.last() == v@[i as int]);
            }
        }
        i += 1;
    }
    proof {
        assert(v@.subrange(0, v@.len() as int) =~= v@);
    }
    out
}

/// Insert an entry that is not yet present into a sorted vector.
fn insert_entry_sorted(v: &mut Vec<Entry>, e: Entry)
    requires
        entries_sorted(old(v)@),
        !old(v)@.to_set().contains(e),
    ensures
        entries_sorted(final(v)@),
        final(v)@.to_set() == old(v)@.to_set().insert(e),
{
    let mut pos: usize = 0;
    while pos < v.len() && entry_lt_exec(&v[pos], &e)
        invariant
            pos <= v.len(),
            v@ == old(v)@,
            forall|j: int| 0 <= j < pos ==> entry_lt(v@[j], e),
        decreases v.len() - pos,
    {
        pos += 1;
    }
    proof {
        assert forall|j: int| pos <= j < v@.len() implies entry_lt(e, v@[j]) by {
            assert(v@.contains(v@[j]));
            assert(v@.to_set().contains(v@[j]));
            if j > pos {
                assert(entry_lt(v@[pos as int], v@[j]));
            }
        }
        old(v)@.insert_ensures(pos as int, e);
        lemma_to_set_insert(old(v)@, pos as int, e);
    }
    let ghost prev = v@;
    v.insert(pos, e);
    proof {
        assert forall|p: int, q: int| 0 <= p < q < v@.len() implies entry_lt(v@[p], v@[q]) by {
            if p < pos && q < pos {
            } else if p < pos && q == pos {
            } else if p < pos && q > pos {
                assert(v@[q] == prev[q - 1]);
            } else if p == pos {
                assert(v@[q] == prev[q - 1]);
            } else {
                assert(v@[p] == prev[p - 1]);
                assert(v@[q] == prev[q - 1]);
            }
        }
    }
}

/// Insert a key into a sorted key vector, if it is not already there.
fn insert_key_sorted(v: &mut Vec<u64>, key: u64)
    requires
        keys_sorted(old(v)@),
    ensures
        keys_sorted(final(v)@),
        final(v)@.to_set() == old(v)@.to_set().insert(key),
{
    let mut pos: usize = 0;
    while pos < v.len() && v[pos] < key
        invariant
            pos <= v.len(),
            v@ == old(v)@,
            forall|j: int| 0 <= j < pos ==> v@[j] < key,
        decreases v.len() - pos,
    {
        pos += 1;
    }
    if pos < v.len() && v[pos] == key {
        proof {
            assert(v@.contains(v@[pos as int]));
            assert(v@.to_set().contains(key));
            assert(final(v)@.to_set() =~= old(v)@.to_set().insert(key));
        }
        return ;
    }
    proof {
        assert forall|j: int| pos <= j < v@.len() implies key < v@[j] by {
            if j > pos {
                assert(v@[pos as int] < v@[j]);
            }
        }
        old(v)@.insert_ensures(pos as int, key);
        lemma_to_set_insert(old(v)@, pos as int, key);
    }
    let ghost prev = v@;
    v.insert(pos, key);
    proof {
        assert forall|p: int, q: int| 0 <= p < q < v@.len() implies v@[p] < v@[q] by {
            if p < pos && q > pos {
                assert(v@[q] == prev[q - 1]);
            } else if p == pos && q > pos {
                assert(v@[q] == prev[q - 1]);
            } else if p > pos {
                assert(v@[p] == prev[p - 1]);
                assert(v@[q] == prev[q - 1]);
            }
        }
    }
}

/// Some position in `[lo, hi)` of the index holds entry `e`.
pub open spec fn range_has_entry(t: Seq<(Entry, usize)>, lo: int, hi: int, e: Entry) -> bool {
    exists|k: int| lo <= k < hi && t[k].0 == e
}

/// Some position in `[lo, hi)` of the sequence holds entry `e`.
pub open spec fn seq_range_has(s: Seq<Entry>, lo: int, hi: int, e: Entry) -> bool {
    exists|k: int| lo <= k < hi && s[k] == e
}

/// Slot `s` occurs in the slot list.
pub open spec fn slot_in(ws: Seq<usize>, s: int) -> bool {
    exists|k: int| 0 <= k < ws.len() && ws[k] as int == s
}

/// The half-open range of positions whose entries carry `key`, in a vector
/// sorted by entry order (where the key is the most significant component).
fn entry_key_range(v: &Vec<Entry>, key: u64) -> (r: (usize, usize))
    requires
        entries_sorted(v@),
    ensures
        r.0 <= r.1 <= v@.len(),
        forall|j: int| r.0 <= j < r.1 ==> v@[j].key == key,
        forall|j: int| 0 <= j < r.0 ==> v@[j].key != key,
        forall|j: int| r.1 <= j < v@.len() ==> v@[j].key != key,
{
    let mut lo: usize = 0;
    while lo < v.len() && v[lo].key < key
        invariant
            lo <= v@.len(),
            entries_sorted(v@),
            forall|j: int| 0 <= j < lo ==> v@[j].key < key,
        decreases v@.len() - lo,
    {
        lo = lo + 1;
    }
    let mut hi: usize = lo;
    while hi < v.len() && v[hi].key == key
        invariant
            lo <= hi <= v@.len(),
            entries_sorted(v@),
            forall|j: int| 0 <= j < lo ==> v@[j].key < key,
            forall|j: int| lo <= j < hi ==> v@[j].key == key,
            lo < v@.len() ==> v@[lo as int].key >= key,
        decreases v@.len() - hi,
    {
        hi = hi + 1;
    }
    proof {
        assert forall|j: int| hi <= j < v@.len() implies v@[j].key != key by {
            assert(hi < v@.len());
            assert(v@[hi as int].key >= key) by {
                if hi > lo {
                    assert(v@[hi as int - 1].key == key);
                    assert(entry_lt(v@[hi as int - 1], v@[hi as int]));
                }
            }
            if j > hi {
                assert(entry_lt(v@[hi as int], v@[j]));
            }
        }
    }
    (lo, hi)
}

/// Same as `entry_key_range`, for the (entry, slot) index.
fn pair_key_range(t: &Vec<(Entry, usize)>, key: u64) -> (r: (usize, usize))
    requires
        pairs_sorted(t@),
    ensures
        r.0 <= r.1 <= t@.len(),
        forall|j: int| r.0 <= j < r.1 ==> t@[j].0.key == key,
        forall|j: int| 0 <= j < r.0 ==> t@[j].0.key != key,
        forall|j: int| r.1 <= j < t@.len() ==> t@[j].0.key != key,
{
    let mut lo: usize = 0;
    while lo < t.len() && t[lo].0.key < key
        invariant
            lo <= t@.len(),
            pairs_sorted(t@),
            forall|j: int| 0 <= j < lo ==> t@[j].0.key < key,
        decreases t@.len() - lo,
    {
        lo = lo + 1;
    }
    let mut hi: usize = lo;
    while hi < t.len() && t[hi].0.key == key
        invariant
            lo <= hi <= t@.len(),
            pairs_sorted(t@),
            forall|j: int| 0 <= j < lo ==> t@[j].0.key < key,
            forall|j: int| lo <= j < hi ==> t@[j].0.key == key,
            lo < t@.len() ==> t@[lo as int].0.key >= key,
        decreases t@.len() - hi,
    {
        hi = hi + 1;
    }
    proof {
        assert forall|j: int| hi <= j < t@.len() implies t@[j].0.key != key by {
            assert(hi < t@.len());
            assert(t@[hi as int].0.key >= key) by {
                if hi > lo {
                    assert(t@[hi as int - 1].0.key == key);
                    assert(entry_lt(t@[hi as int - 1].0, t@[hi as int].0));
                }
            }
            if j > hi {
                assert(entry_lt(t@[hi as int].0, t@[j].0));
            }
        }
    }
    (lo, hi)
}

/// Position of the pair binding entry `e` in the index.
fn tree_position(t: &Vec<(Entry, usize)>, e: &Entry) -> (j: usize)
    requires
        pairs_sorted(t@),
        range_has_entry(t@, 0, t@.len() as int, *e),
    ensures
        j < t@.len(),
        t@[j as int].0 == *e,
{
    let n = t.len();
    let mut j: usize = 0;
    loop
        invariant
            n == t@.len(),
            j <= n,
            pairs_sorted(t@),
            range_has_entry(t@, 0, t@.len() as int, *e),
            forall|k: int| 0 <= k < j ==> t@[k].0 != *e,
        decreases t@.len() - j,
    {
        proof {
            if j == n {
                let k = choose|k: int| 0 <= k < t@.len() && t@[k].0 == *e;
                assert(false);
            }
        }
        if t[j].0.key == e.key && t[j].0.prim == e.prim && t[j].0.ordinal == e.ordinal {
            return j;
        }
        j = j + 1;
    }
}

/// A sorted index has pairwise distinct pairs.
proof fn lemma_pairs_sorted_no_duplicates(t: Seq<(Entry, usize)>)
    requires
        pairs_sorted(t),
    ensures
        t.no_duplicates(),
{
    assert forall|i: int, j: int| 0 <= i < t.len() && 0 <= j < t.len() && i != j implies t[i]
        != t[j] by {
        if i < j {
            assert(entry_lt(t[i].0, t[j].0));
        } else {
            assert(entry_lt(t[j].0, t[i].0));
        }
    }
}

/// Insert a pair whose entry is not yet present into the sorted index.
fn tree_insert_pair(t: &mut Vec<(Entry, usize)>, e: Entry, slot: usize)
    requires
        pairs_sorted(old(t)@),
        !range_has_entry(old(t)@, 0, old(t)@.len() as int, e),
    ensures
        pairs_sorted(final(t)@),
        final(t)@.to_set() == old(t)@.to_set().insert((e, slot)),
        final(t)@.len() == old(t)@.len() + 1,
{
    let mut pos: usize = 0;
    while pos < t.len() && entry_lt_exec(&t[pos].0, &e)
        invariant
            pos <= t@.len(),
            t@ == old(t)@,
            forall|j: int| 0 <= j < pos ==> entry_lt(t@[j].0, e),
        decreases t@.len() - pos,
    {
        pos = pos + 1;
    }
    proof {
        assert forall|j: int| pos <= j < t@.len() implies entry_lt(e, t@[j].0) by {
            assert(t@[j].0 != e);
            if j > pos {
                assert(entry_lt(t@[pos as int].0, t@[j].0));
            }
        }
        old(t)@.insert_ensures(pos as int, (e, slot));
        lemma_to_set_insert(old(t)@, pos as int, (e, slot));
    }
    let ghost prev = t@;
    t.insert(pos, (e, slot));
    proof {
        assert forall|p: int, q: int| 0 <= p < q < t@.len() implies entry_lt(t@[p].0, t@[q].0) by {
            if p < pos && q > pos {
                assert(t@[q] == prev[q - 1]);
            } else if p == pos {
                assert(t@[q] == prev[q - 1]);
            } else if p > pos {
                assert(t@[p] == prev[p - 1]);
                assert(t@[q] == prev[q - 1]);
            }
        }
    }
}

/// Append a slot to a strictly sorted slot list, keeping it sorted.
fn insert_slot_sorted(ws: &mut Vec<usize>, slot: usize)
    requires
        forall|i: int, j: int| 0 <= i < j < old(ws)@.len() ==> old(ws)@[i] < old(ws)@[j],
    ensures
        forall|i: int, j: int| 0 <= i < j < final(ws)@.len() ==> final(ws)@[i] < final(ws)@[j],
        forall|s: int| slot_in(final(ws)@, s) <==> (slot_in(old(ws)@, s) || s == slot as int),
        final(ws)@.len() <= old(ws)@.len() + 1,
{
    let mut pos: usize = 0;
    while pos < ws.len() && ws[pos] < slot
        invariant
            pos <= ws@.len(),
            ws@ == old(ws)@,
            forall|j: int| 0 <= j < pos ==> ws@[j] < slot,
        decreases ws@.len() - pos,
    {
        pos = pos + 1;
    }
    if pos < ws.len() && ws[pos] == slot {
        proof {
            assert(slot_in(ws@, slot as int));
            assert forall|s: int|
                slot_in(final(ws)@, s) <==> (slot_in(old(ws)@, s) || s == slot as int) by {}
        }
        return ;
    }
    proof {
        assert forall|j: int| pos <= j < ws@.len() implies slot < ws@[j] by {
            if j > pos {
                assert(ws@[pos as int] < ws@[j]);
            }
        }
        old(ws)@.insert_ensures(pos as int, slot);
    }
    let ghost prev = ws@;
    ws.insert(pos, slot);
    proof {
        assert forall|p: int, q: int| 0 <= p < q < ws@.len() implies ws@[p] < ws@[q] by {
            if p < pos && q > pos {
                assert(ws@[q] == prev[q - 1]);
            } else if p == pos && q > pos {
                assert(ws@[q] == prev[q - 1]);
            } else if p > pos {
                assert(ws@[p] == prev[p - 1]);
                assert(ws@[q] == prev[q - 1]);
            }
        }
        assert forall|s: int| slot_in(ws@, s) implies (slot_in(prev, s) || s == slot as int) by {
            let k = choose|k: int| 0 <= k < ws@.len() && ws@[k] as int == s;
            if k < pos {
                assert(prev[k] as int == s);
            } else if k > pos {
                assert(prev[k - 1] as int == s);
            }
        }
        assert forall|s: int| (slot_in(prev, s) || s == slot as int) implies slot_in(ws@, s) by {
            if s == slot as int {
                assert(ws@[pos as int] as int == s);
            } else {
                let k = choose|k: int| 0 <= k < prev.len() && prev[k] as int == s;
                if k < pos {
                    assert(ws@[k] as int == s);
                } else {
                    assert(ws@[k + 1] as int == s);
                }
            }
        }
    }
}

/// Pushing a new element onto a duplicate-free sequence keeps it
/// duplicate-free.
proof fn lemma_no_dup_push<A>(s: Seq<A>, x: A)
    requires
        s.no_duplicates(),
        !s.contains(x),
    ensures
        s.push(x).no_duplicates(),
{
    assert forall|i: int, j: int|
        0 <= i < s.push(x).len() && 0 <= j < s.push(x).len() && i != j implies s.push(x)[i]
        != s.push(x)[j] by {
        if i < s.len() && j < s.len() {
        } else if i < s.len() {
            assert(s.contains(s[i])) by {
                assert(s[i] == s[i]);
            }
        } else {
            assert(s.contains(s[j])) by {
                assert(s[j] == s[j]);
            }
        }
    }
}

/// Extending a range of the index by one position adds exactly that
/// position's entry to what the range holds.
proof fn lemma_pair_range_extend(t: Seq<(Entry, usize)>, lo: int, hi: int)
    requires
        0 <= lo <= hi < t.len(),
    ensures
        forall|e: Entry|
            range_has_entry(t, lo, hi + 1, e) <==> (range_has_entry(t, lo, hi, e) || e == t[hi].0),
{
    assert forall|e: Entry|
        range_has_entry(t, lo, hi + 1, e) <==> (range_has_entry(t, lo, hi, e) || e == t[hi].0) by {
        if range_has_entry(t, lo, hi + 1, e) {
            let k = choose|k: int| lo <= k < hi + 1 && t[k].0 == e;
            if k < hi {
                assert(range_has_entry(t, lo, hi, e));
            }
        }
        if range_has_entry(t, lo, hi, e) {
            let k = choose|k: int| lo <= k < hi && t[k].0 == e;
            assert(lo <= k < hi + 1 && t[k].0 == e);
        }
        if e == t[hi].0 {
            assert(lo <= hi < hi + 1 && t[hi].0 == e);
        }
    }
}

/// Extending a range of an entry sequence by one position adds exactly that
/// position's entry to what the range holds.
proof fn lemma_entry_range_extend(s: Seq<Entry>, lo: int, hi: int)
    requires
        0 <= lo <= hi < s.len(),
    ensures
        forall|e: Entry|
            seq_range_has(s, lo, hi + 1, e) <==> (seq_range_has(s, lo, hi, e) || e == s[hi]),
{
    assert forall|e: Entry|
        seq_range_has(s, lo, hi + 1, e) <==> (seq_range_has(s, lo, hi, e) || e == s[hi]) by {
        if seq_range_has(s, lo, hi + 1, e) {
            let k = choose|k: int| lo <= k < hi + 1 && s[k] == e;
            if k < hi {
                assert(seq_range_has(s, lo, hi, e));
            }
        }
        if seq_range_has(s, lo, hi, e) {
            let k = choose|k: int| lo <= k < hi && s[k] == e;
            assert(lo <= k < hi + 1 && s[k] == e);
        }
        if e == s[hi] {
            assert(lo <= hi < hi + 1 && s[hi] == e);
        }
    }
}

/// Merge-walk one key's baseline range against its staged range.  Entries
/// present only in the staged range are appended to `added`; entries present
/// only in the baseline range are appended to `removed`.
#[verifier::rlimit(30)]
fn merge_diff_key(
    tree: &Vec<(Entry, usize)>,
    t_lo: usize,
    t_hi: usize,
    alter: &Vec<Entry>,
    a_lo: usize,
    a_hi: usize,
    added: &mut Vec<Entry>,
    removed: &mut Vec<Entry>,
)
    requires
        pairs_sorted(tree@),
        t_lo <= t_hi <= tree@.len(),
        entries_sorted(alter@),
        a_lo <= a_hi <= alter@.len(),
        old(added)@.no_duplicates(),
        old(removed)@.no_duplicates(),
        forall|x: Entry| #[trigger]
            old(added)@.to_set().contains(x) ==> !seq_range_has(
                alter@,
                a_lo as int,
                a_hi as int,
                x,
            ),
        forall|x: Entry| #[trigger]
            old(removed)@.to_set().contains(x) ==> !range_has_entry(
                tree@,
                t_lo as int,
                t_hi as int,
                x,
            ),
    ensures
        final(added)@.no_duplicates(),
        final(removed)@.no_duplicates(),
        forall|e: Entry| #[trigger]
            final(added)@.to_set().contains(e) <==> (old(added)@.to_set().contains(e) || (
            seq_range_has(alter@, a_lo as int, a_hi as int, e) && !range_has_entry(
                tree@,
                t_lo as int,
                t_hi as int,
                e,
            ))),
        forall|e: Entry| #[trigger]
            final(removed)@.to_set().contains(e) <==> (old(removed)@.to_set().contains(e) || (
            range_has_entry(tree@, t_lo as int, t_hi as int, e) && !seq_range_has(
                alter@,
                a_lo as int,
                a_hi as int,
                e,
            ))),
{
    let ghost added0 = added@;
    let ghost removed0 = removed@;
    let mut p: usize = t_lo;
    let mut q: usize = a_lo;
    while p < t_hi || q < a_hi
        invariant
            pairs_sorted(tree@),
            t_lo <= p <= t_hi <= tree@.len(),
            entries_sorted(alter@),
            a_lo <= q <= a_hi <= alter@.len(),
            added@.no_duplicates(),
            removed@.no_duplicates(),
            forall|x: Entry| #[trigger]
                added0.to_set().contains(x) ==> !seq_range_has(
                    alter@,
                    a_lo as int,
                    a_hi as int,
                    x,
                ),
            forall|x: Entry| #[trigger]
                removed0.to_set().contains(x) ==> !range_has_entry(
                    tree@,
                    t_lo as int,
                    t_hi as int,
                    x,
                ),
            forall|e: Entry| #[trigger]
                added@.to_set().contains(e) <==> (added0.to_set().contains(e) || (seq_range_has(
                    alter@,
                    a_lo as int,
                    q as int,
                    e,
                ) && !range_has_entry(tree@, t_lo as int, t_hi as int, e))),
            forall|e: Entry| #[trigger]
                removed@.to_set().contains(e) <==> (removed0.to_set().contains(e) || (
                range_has_entry(tree@, t_lo as int, p as int, e) && !seq_range_has(
                    alter@,
                    a_lo as int,
                    a_hi as int,
                    e,
                ))),
            q < a_hi ==> forall|k: int| t_lo <= k < p ==> entry_lt(tree@[k].0, alter@[q as int]),
            p < t_hi ==> forall|k: int| a_lo <= k < q ==> entry_lt(alter@[k], tree@[p as int].0),
        decreases (t_hi - p) + (a_hi - q),
    {
        let do_equal: bool;
        let do_removed: bool;
        if p < t_hi && q < a_hi {
            let te = tree[p].0;
            let ae = alter[q];
            if te.key == ae.key && te.prim == ae.prim && te.ordinal == ae.ordinal {
                do_equal = true;
                do_removed = false;
            } else if entry_lt_exec(&te, &ae) {
                do_equal = false;
                do_removed = true;
            } else {
                do_equal = false;
                do_removed = false;
            }
        } else if p < t_hi {
            do_equal = false;
            do_removed = true;
        } else {
            do_equal = false;
            do_removed = false;
        }
        if do_equal {
            let ghost te = tree@[p as int].0;
            proof {
                lemma_pair_range_extend(tree@, t_lo as int, p as int);
                lemma_entry_range_extend(alter@, a_lo as int, q as int);
                assert(seq_range_has(alter@, a_lo as int, a_hi as int, te)) by {
                    assert(a_lo <= q < a_hi && alter@[q as int] == te);
                }
                assert(range_has_entry(tree@, t_lo as int, t_hi as int, te)) by {
                    assert(t_lo <= p < t_hi && tree@[p as int].0 == te);
                }
            }
            p = p + 1;
            q = q + 1;
            proof {
                if q < a_hi {
                    assert forall|k: int| t_lo <= k < p implies entry_lt(
                        tree@[k].0,
                        alter@[q as int],
                    ) by {
                        assert(entry_lt(alter@[q as int - 1], alter@[q as int]));
                        if k < p - 1 {
                            assert(entry_lt(tree@[k].0, alter@[q as int - 1]));
                        }
                    }
                }
                if p < t_hi {
                    assert forall|k: int| a_lo <= k < q implies entry_lt(
                        alter@[k],
                        tree@[p as int].0,
                    ) by {
                        assert(entry_lt(tree@[p as int - 1].0, tree@[p as int].0));
                        if k < q - 1 {
                            assert(entry_lt(alter@[k], tree@[p as int - 1].0));
                        }
                    }
                }
            }
        } else if do_removed {
            let re = tree[p].0;
            proof {
                assert(range_has_entry(tree@, t_lo as int, t_hi as int, re)) by {
                    assert(t_lo <= p < t_hi && tree@[p as int].0 == re);
                }
                assert(!seq_range_has(alter@, a_lo as int, a_hi as int, re)) by {
                    if seq_range_has(alter@, a_lo as int, a_hi as int, re) {
                        let k = choose|k: int| a_lo <= k < a_hi && alter@[k] == re;
                        if k < q {
                            assert(entry_lt(alter@[k], tree@[p as int].0));
                        } else {
                            assert(q < a_hi);
                            assert(entry_lt(re, alter@[q as int]));
                            if k > q {
                                assert(entry_lt(alter@[q as int], alter@[k]));
                            }
                        }
                    }
                }
                assert(!removed@.to_set().contains(re)) by {
                    if removed@.to_set().contains(re) {
                        if !removed0.to_set().contains(re) {
                            let k = choose|k: int| t_lo <= k < p && tree@[k].0 == re;
                            assert(entry_lt(tree@[k].0, tree@[p as int].0));
                        }
                    }
                }
                assert(!removed@.contains(re));
                lemma_no_dup_push(removed@, re);
                lemma_to_set_push(removed@, re);
                lemma_pair_range_extend(tree@, t_lo as int, p as int);
            }
            removed.push(re);
            p = p + 1;
            proof {
                if q < a_hi {
                    assert forall|k: int| t_lo <= k < p implies entry_lt(
                        tree@[k].0,
                        alter@[q as int],
                    ) by {
                        if k < p - 1 {
                            assert(entry_lt(tree@[k].0, alter@[q as int]));
                        } else {
                            assert(entry_lt(re, alter@[q as int]));
                        }
                    }
                }
                if p < t_hi {
                    assert forall|k: int| a_lo <= k < q implies entry_lt(
                        alter@[k],
                        tree@[p as int].0,
                    ) by {
                        assert(entry_lt(tree@[p as int - 1].0, tree@[p as int].0));
                        assert(entry_lt(alter@[k], tree@[p as int - 1].0));
                    }
                }
            }
        } else {
            let ae = alter[q];
            proof {
                assert(seq_range_has(alter@, a_lo as int, a_hi as int, ae)) by {
                    assert(a_lo <= q < a_hi && alter@[q as int] == ae);
                }
                assert(!range_has_entry(tree@, t_lo as int, t_hi as int, ae)) by {
                    if range_has_entry(tree@, t_lo as int, t_hi as int, ae) {
                        let k = choose|k: int| t_lo <= k < t_hi && tree@[k].0 == ae;
                        if k < p {
                            assert(entry_lt(tree@[k].0, alter@[q as int]));
                        } else {
                            assert(p < t_hi);
                            assert(!entry_lt(tree@[p as int].0, ae));
                            assert(tree@[p as int].0 != ae);
                            if k > p {
                                assert(entry_lt(tree@[p as int].0, tree@[k].0));
                            }
                        }
                    }
                }
                assert(!added@.to_set().contains(ae)) by {
                    if added@.to_set().contains(ae) {
                        if !added0.to_set().contains(ae) {
                            let k = choose|k: int| a_lo <= k < q && alter@[k] == ae;
                            assert(entry_lt(alter@[k], alter@[q as int]));
                        }
                    }
                }
                assert(!added@.contains(ae));
                lemma_no_dup_push(added@, ae);
                lemma_to_set_push(added@, ae);
                lemma_entry_range_extend(alter@, a_lo as int, q as int);
            }
            added.push(ae);
            q = q + 1;
            proof {
                if q < a_hi {
                    assert forall|k: int| t_lo <= k < p implies entry_lt(
                        tree@[k].0,
                        alter@[q as int],
                    ) by {
                        assert(entry_lt(alter@[q as int - 1], alter@[q as int]));
                        assert(entry_lt(tree@[k].0, alter@[q as int - 1]));
                    }
                }
                if p < t_hi {
                    assert forall|k: int| a_lo <= k < q implies entry_lt(
                        alter@[k],
                        tree@[p as int].0,
                    ) by {
                        if k < q - 1 {
                            assert(entry_lt(alter@[k], tree@[p as int].0));
                        } else {
                            assert(entry_lt(ae, tree@[p as int].0));
                        }
                    }
                }
            }
        }
    }
}

/// The ordered index and the dense array are exact inverses of each other:
/// every index pair points at its own entry's slot, and every slot of the
/// array is backed by an index pair.
pub open spec fn index_wf(t: Seq<(Entry, usize)>, a: Seq<Entry>) -> bool {
    &&& pairs_sorted(t)
    &&& t.len() == a.len()
    &&& forall|p: (Entry, usize)| #[trigger]
        t.to_set().contains(p) ==> p.1 < a.len() && a[p.1 as int] == p.0
    &&& forall|i: int| 0 <= i < a.len() ==> #[trigger] tree_maps(t, a[i], i)
}

/// Under `index_wf`, the index holds exactly the entries of the array.
proof fn lemma_index_entries_eq_array(t: Seq<(Entry, usize)>, a: Seq<Entry>)
    requires
        index_wf(t, a),
    ensures
        forall|e: Entry|
            #![trigger range_has_entry(t, 0, t.len() as int, e)]
            #![trigger a.to_set().contains(e)]
            range_has_entry(t, 0, t.len() as int, e) <==> a.to_set().contains(e),
{
    assert forall|e: Entry|
        range_has_entry(t, 0, t.len() as int, e) <==> a.to_set().contains(e) by {
        if range_has_entry(t, 0, t.len() as int, e) {
            let k = choose|k: int| 0 <= k < t.len() && t[k].0 == e;
            assert(t.to_set().contains(t[k])) by {
                assert(t.contains(t[k]));
            }
            assert(a[t[k].1 as int] == e);
            assert(a.contains(e));
        }
        if a.to_set().contains(e) {
            let i = choose|i: int| 0 <= i < a.len() && a[i] == e;
            assert(tree_maps(t, a[i], i));
            let k = choose|k: int| 0 <= k < t.len() && t[k].0 == a[i] && t[k].1 as int == i;
            assert(range_has_entry(t, 0, t.len() as int, e));
        }
    }
}

/// Under `index_wf` the dense array never holds the same entry twice.
proof fn lemma_array_no_duplicates(t: Seq<(Entry, usize)>, a: Seq<Entry>)
    requires
        index_wf(t, a),
    ensures
        a.no_duplicates(),
{
    assert forall|i: int, j: int| 0 <= i < a.len() && 0 <= j < a.len() && i != j implies a[i]
        != a[j] by {
        if a[i] == a[j] {
            assert(tree_maps(t, a[i], i));
            assert(tree_maps(t, a[j], j));
            let k1 = choose|k: int| 0 <= k < t.len() && t[k].0 == a[i] && t[k].1 as int == i;
            let k2 = choose|k: int| 0 <= k < t.len() && t[k].0 == a[j] && t[k].1 as int == j;
            assert(k1 != k2);
            if k1 < k2 {
                assert(entry_lt(t[k1].0, t[k2].0));
            } else {
                assert(entry_lt(t[k2].0, t[k1].0));
            }
        }
    }
}

/// Removing a position from a sorted index keeps it sorted.
proof fn lemma_pairs_sorted_remove(t: Seq<(Entry, usize)>, j: int)
    requires
        pairs_sorted(t),
        0 <= j < t.len(),
    ensures
        pairs_sorted(t.remove(j)),
{
    t.remove_ensures(j);
    assert forall|p: int, q: int| 0 <= p < q < t.remove(j).len() implies entry_lt(
        t.remove(j)[p].0,
        t.remove(j)[q].0,
    ) by {
        let p0: int = if p < j {
            p
        } else {
            p + 1
        };
        let q0: int = if q < j {
            q
        } else {
            q + 1
        };
        assert(t.remove(j)[p] == t[p0]);
        assert(t.remove(j)[q] == t[q0]);
        assert(entry_lt(t[p0].0, t[q0].0));
    }
}

/// Index surgery: replacing the entry at one slot keeps the index and the
/// array exact inverses.
proof fn lemma_index_replace(
    t1: Seq<(Entry, usize)>,
    a1: Seq<Entry>,
    rm: Entry,
    ad: Entry,
    slot: usize,
    t2: Seq<(Entry, usize)>,
    a2: Seq<Entry>,
)
    requires
        index_wf(t1, a1),
        slot < a1.len(),
        a1[slot as int] == rm,
        !a1.to_set().contains(ad),
        pairs_sorted(t2),
        t2.to_set() == t1.to_set().remove((rm, slot)).insert((ad, slot)),
        t2.len() == t1.len(),
        a2 == a1.update(slot as int, ad),
    ensures
        index_wf(t2, a2),
        a2.to_set() == a1.to_set().remove(rm).insert(ad),
{
    lemma_array_no_duplicates(t1, a1);
    lemma_to_set_update(a1, slot as int, ad);
    assert forall|p: (Entry, usize)| #[trigger] t2.to_set().contains(p) implies p.1 < a2.len()
        && a2[p.1 as int] == p.0 by {
        if p == (ad, slot) {
        } else {
            assert(t1.to_set().contains(p));
            if p.1 == slot {
                assert(a1[p.1 as int] == rm);
                assert(p == (rm, slot));
                assert(false);
            }
        }
    }
    assert forall|i: int| 0 <= i < a2.len() implies #[trigger] tree_maps(t2, a2[i], i) by {
        if i == slot {
            assert(t2.to_set().contains((ad, slot)));
            assert(t2.contains((ad, slot)));
            let k = choose|k: int| 0 <= k < t2.len() && t2[k] == (ad, slot);
            assert(t2[k].0 == a2[i] && t2[k].1 as int == i);
        } else {
            assert(tree_maps(t1, a1[i], i));
            let k = choose|k: int| 0 <= k < t1.len() && t1[k].0 == a1[i] && t1[k].1 as int == i;
            let p = t1[k];
            assert(t1.to_set().contains(p)) by {
                assert(t1.contains(p));
            }
            assert(p != (rm, slot));
            assert(t2.to_set().contains(p));
            assert(t2.contains(p));
            let k2 = choose|k2: int| 0 <= k2 < t2.len() && t2[k2] == p;
            assert(t2[k2].0 == a2[i] && t2[k2].1 as int == i);
        }
    }
}

/// Index surgery: appending an entry at the end keeps the index and the
/// array exact inverses.
proof fn lemma_index_append(
    t1: Seq<(Entry, usize)>,
    a1: Seq<Entry>,
    ad: Entry,
    slot: usize,
    t2: Seq<(Entry, usize)>,
    a2: Seq<Entry>,
)
    requires
        index_wf(t1, a1),
        slot as int == a1.len(),
        !a1.to_set().contains(ad),
        pairs_sorted(t2),
        t2.to_set() == t1.to_set().insert((ad, slot)),
        t2.len() == t1.len() + 1,
        a2 == a1.push(ad),
    ensures
        index_wf(t2, a2),
        a2.to_set() == a1.to_set().insert(ad),
{
    lemma_to_set_push(a1, ad);
    assert forall|p: (Entry, usize)| #[trigger] t2.to_set().contains(p) implies p.1 < a2.len()
        && a2[p.1 as int] == p.0 by {
        if p == (ad, slot) {
            assert(a2[slot as int] == ad);
        } else {
            assert(t1.to_set().contains(p));
            assert(a2[p.1 as int] == a1[p.1 as int]);
        }
    }
    assert forall|i: int| 0 <= i < a2.len() implies #[trigger] tree_maps(t2, a2[i], i) by {
        if i == slot as int {
            assert(t2.to_set().contains((ad, slot)));
            assert(t2.contains((ad, slot)));
            let k = choose|k: int| 0 <= k < t2.len() && t2[k] == (ad, slot);
            assert(t2[k].0 == a2[i] && t2[k].1 as int == i);
        } else {
            assert(tree_maps(t1, a1[i], i));
            let k = choose|k: int| 0 <= k < t1.len() && t1[k].0 == a1[i] && t1[k].1 as int == i;
            let p = t1[k];
            assert(t1.to_set().contains(p)) by {
                assert(t1.contains(p));
            }
            assert(t2.to_set().contains(p));
            assert(t2.contains(p));
            let k2 = choose|k2: int| 0 <= k2 < t2.len() && t2[k2] == p;
            assert(t2[k2].0 == a2[i] && t2[k2].1 as int == i);
        }
    }
}

/// Index surgery: dropping the last slot keeps the index and the array
/// exact inverses.
proof fn lemma_index_pop(
    t1: Seq<(Entry, usize)>,
    a1: Seq<Entry>,
    rm: Entry,
    slot: usize,
    t2: Seq<(Entry, usize)>,
    a2: Seq<Entry>,
)
    requires
        index_wf(t1, a1),
        slot as int == a1.len() - 1,
        a1[slot as int] == rm,
        pairs_sorted(t2),
        t2.to_set() == t1.to_set().remove((rm, slot)),
        t2.len() == t1.len() - 1,
        a2 == a1.drop_last(),
    ensures
        index_wf(t2, a2),
        a2.to_set() == a1.to_set().remove(rm),
{
    lemma_array_no_duplicates(t1, a1);
    lemma_to_set_drop_last(a1);
    assert forall|p: (Entry, usize)| #[trigger] t2.to_set().contains(p) implies p.1 < a2.len()
        && a2[p.1 as int] == p.0 by {
        assert(t1.to_set().contains(p));
        if p.1 == slot {
            assert(p == (rm, slot));
            assert(false);
        }
        assert(a2[p.1 as int] == a1[p.1 as int]);
    }
    assert forall|i: int| 0 <= i < a2.len() implies #[trigger] tree_maps(t2, a2[i], i) by {
        assert(tree_maps(t1, a1[i], i));
        let k = choose|k: int| 0 <= k < t1.len() && t1[k].0 == a1[i] && t1[k].1 as int == i;
        let p = t1[k];
        assert(t1.to_set().contains(p)) by {
            assert(t1.contains(p));
        }
        assert(p != (rm, slot));
        assert(t2.to_set().contains(p));
        assert(t2.contains(p));
        let k2 = choose|k2: int| 0 <= k2 < t2.len() && t2[k2] == p;
        assert(t2[k2].0 == a2[i] && t2[k2].1 as int == i);
    }
}

/// Index surgery for swap-remove: the last entry moves into the freed slot
/// and the array shrinks by one.
proof fn lemma_index_relocate(
    t1: Seq<(Entry, usize)>,
    a1: Seq<Entry>,
    rm: Entry,
    slot: usize,
    moved: Entry,
    t2: Seq<(Entry, usize)>,
    a2: Seq<Entry>,
)
    requires
        index_wf(t1, a1),
        (slot as int) < a1.len() - 1,
        a1[slot as int] == rm,
        moved == a1[a1.len() - 1],
        pairs_sorted(t2),
        t2.to_set() == t1.to_set().remove((rm, slot)).remove(
            (moved, (a1.len() - 1) as usize),
        ).insert((moved, slot)),
        t2.len() == t1.len() - 1,
        a2 == a1.drop_last().update(slot as int, moved),
    ensures
        index_wf(t2, a2),
        a2.to_set() == a1.to_set().remove(rm),
{
    lemma_array_no_duplicates(t1, a1);
    let last = a1.len() - 1;
    assert(moved != rm);
    lemma_to_set_drop_last(a1);
    assert(!a1.drop_last().to_set().contains(moved));
    lemma_to_set_update(a1.drop_last(), slot as int, moved);
    assert(a2.to_set() =~= a1.to_set().remove(rm));
    assert forall|p: (Entry, usize)| #[trigger] t2.to_set().contains(p) implies p.1 < a2.len()
        && a2[p.1 as int] == p.0 by {
        if p == (moved, slot) {
        } else {
            assert(t1.to_set().contains(p));
            if p.1 == slot {
                assert(p == (rm, slot));
                assert(false);
            }
            if p.1 as int == last {
                assert(a1[p.1 as int] == moved);
                assert(p == (moved, (a1.len() - 1) as usize));
                assert(false);
            }
            assert(a2[p.1 as int] == a1[p.1 as int]);
        }
    }
    assert forall|i: int| 0 <= i < a2.len() implies #[trigger] tree_maps(t2, a2[i], i) by {
        if i == slot {
            assert(t2.to_set().contains((moved, slot)));
            assert(t2.contains((moved, slot)));
            let k = choose|k: int| 0 <= k < t2.len() && t2[k] == (moved, slot);
            assert(t2[k].0 == a2[i] && t2[k].1 as int == i);
        } else {
            assert(tree_maps(t1, a1[i], i));
            let k = choose|k: int| 0 <= k < t1.len() && t1[k].0 == a1[i] && t1[k].1 as int == i;
            let p = t1[k];
            assert(t1.to_set().contains(p)) by {
                assert(t1.contains(p));
            }
            assert(p != (rm, slot));
            assert(p != (moved, (a1.len() - 1) as usize)) by {
                if p == (moved, (a1.len() - 1) as usize) {
                    assert(p.1 as int == last && i != last);
                }
            }
            assert(t2.to_set().contains(p));
            assert(t2.contains(p));
            let k2 = choose|k2: int| 0 <= k2 < t2.len() && t2[k2] == p;
            assert(t2[k2].0 == a2[i] && t2[k2].1 as int == i);
        }
    }
}

/// Instructions for modifying a dense-array representation from one commit
/// to the next.
#[derive(Clone, Debug)]
pub struct MeshPatch {
    /// The new length of the dense array.
    pub new_len: usize,
    /// Primitive values to write at certain slots; corresponds to
    /// `writes_indices`.
    pub writes_data: Vec<u64>,
    /// Slots to write at, strictly ascending; corresponds to `writes_data`.
    pub writes_indices: Vec<usize>,
}

/// What makes a patch a faithful description of the step from the dense
/// array `before` to the dense array `after`: it carries the new length,
/// its writes hit only live slots and carry exactly the new primitive
/// there, its slots are strictly ascending, and every slot it does not
/// mention is unchanged.
pub open spec fn patch_describes(patch: MeshPatch, before: Seq<Entry>, after: Seq<Entry>) -> bool {
    &&& patch.new_len == after.len()
    &&& patch.writes_data@.len() == patch.writes_indices@.len()
    &&& forall|k: int|
        0 <= k < patch.writes_indices@.len() ==> (#[trigger] patch.writes_indices@[k] as int)
            < after.len() && patch.writes_data@[k] == after[patch.writes_indices@[k] as int].prim
    &&& forall|p: int, q: int|
        0 <= p < q < patch.writes_indices@.len() ==> patch.writes_indices@[p]
            < patch.writes_indices@[q]
    &&& forall|s: int|
        0 <= s < after.len() && s < before.len() && !slot_in(patch.writes_indices@, s)
            ==> after[s] == before[s]
    &&& forall|s: int| before.len() <= s < after.len() ==> slot_in(patch.writes_indices@, s)
}

/// Location of a span of contiguous writes in a [`MeshPatch`]: `len` writes
/// whose source positions start at `src_start` and whose destination slots
/// start at `dst_start`, both advancing in lockstep.
#[derive(Copy, Clone, Debug, PartialEq, Eq, Structural)]
pub struct Contiguous {
    pub src_start: usize,
    pub dst_start: usize,
    pub len: usize,
}

/// The runs are the maximal contiguous spans of the write list: non-empty,
/// covering all of `indices` in order, each matching destinations that
/// advance by exactly one per write, and none extendable to the left.
pub open spec fn runs_cover(indices: Seq<usize>, runs: Seq<Contiguous>) -> bool {
    &&& forall|r: int| 0 <= r < runs.len() ==> (#[trigger] runs[r]).len >= 1
    &&& (runs.len() == 0 ==> indices.len() == 0)
    &&& (runs.len() > 0 ==> runs[0].src_start == 0 && runs[runs.len() - 1].src_start + runs[
        runs.len() - 1
    ].len == indices.len())
    &&& forall|r: int|
        0 <= r < runs.len() - 1 ==> (#[trigger] runs[r + 1]).src_start == runs[r].src_start
            + runs[r].len
    &&& forall|r: int, off: int|
        #![trigger runs[r].src_start + off]
        0 <= r < runs.len() && 0 <= off < runs[r].len ==> runs[r].src_start + off < indices.len()
            && indices[runs[r].src_start + off] as int == runs[r].dst_start + off
    &&& forall|r: int|
        1 <= r < runs.len() ==> indices[(#[trigger] runs[r]).src_start as int] as int != indices[
            runs[r].src_start - 1
        ] as int + 1
}

impl MeshPatch {
    /// Group the patch's writes into non-empty maximal spans of contiguous
    /// writes, in order.  One bulk copy per span suffices to apply the
    /// whole write list.
    pub fn iter_contiguous(&self) -> (runs: Vec<Contiguous>)
        ensures
            runs_cover(self.writes_indices@, runs@),
    {
        let n = self.writes_indices.len();
        let mut runs: Vec<Contiguous> = Vec::new();
        let mut curr: usize = 0;
        while curr < n
            invariant
                curr <= n,
                n == self.writes_indices@.len(),
                runs@.len() == 0 ==> curr == 0,
                runs@.len() > 0 ==> runs@[0].src_start == 0 && runs@[runs@.len() - 1].src_start
                    + runs@[runs@.len() - 1].len == curr,
                forall|r: int| 0 <= r < runs@.len() ==> (#[trigger] runs@[r]).len >= 1,
                forall|r: int|
                    0 <= r < runs@.len() - 1 ==> (#[trigger] runs@[r + 1]).src_start
                        == runs@[r].src_start + runs@[r].len,
                forall|r: int, off: int|
                    #![trigger runs@[r].src_start + off]
                    0 <= r < runs@.len() && 0 <= off < runs@[r].len ==> runs@[r].src_start + off
                        < n && self.writes_indices@[runs@[r].src_start + off] as int
                        == runs@[r].dst_start + off,
                forall|r: int|
                    1 <= r < runs@.len() ==> self.writes_indices@[(
                    #[trigger] runs@[r]).src_start as int] as int != self.writes_indices@[runs@[
                        r
                    ].src_start - 1] as int + 1,
                curr > 0 && curr < n ==> self.writes_indices@[curr as int] as int
                    != self.writes_indices@[curr - 1] as int + 1,
            decreases n - curr,
        {
            let start = curr;
            let dst = self.writes_indices[curr];
            let mut len: usize = 1;
            while curr + len < n && (self.writes_indices[curr + len] as u128) == (dst as u128) + (
            len as u128)
                invariant
                    curr < n,
                    n == self.writes_indices@.len(),
                    1 <= len <= n - curr,
                    dst == self.writes_indices@[curr as int],
                    forall|off: int|
                        #![trigger self.writes_indices@[curr + off]]
                        0 <= off < len ==> self.writes_indices@[curr + off] as int == dst + off,
                decreases n - curr - len,
            {
                len = len + 1;
            }
            let ghost prev = runs@;
            proof {
                if curr + len < n {
                    assert((self.writes_indices@[curr + len] as u128) != (dst as u128) + (
                    len as u128));
                    let off1: int = len - 1;
                    assert(self.writes_indices@[curr + off1] as int == dst + off1);
                    assert(self.writes_indices@[curr + len] as int != self.writes_indices@[curr
                        + len - 1] as int + 1);
                }
            }
            runs.push(Contiguous { src_start: start, dst_start: dst, len });
            curr = curr + len;
            proof {
                assert(runs@[runs@.len() - 1] == (Contiguous { src_start: start, dst_start: dst, len }));
                assert forall|r: int, off: int|
                    #![trigger runs@[r].src_start + off]
                    0 <= r < runs@.len() && 0 <= off < runs@[r].len implies runs@[r].src_start
                    + off < n && self.writes_indices@[runs@[r].src_start + off] as int
                    == runs@[r].dst_start + off by {
                    if r < runs@.len() - 1 {
                        assert(runs@[r] == prev[r]);
                    }
                }
            }
        }
        runs
    }
}

/// The entries that staging `prims` under `key` produces: one entry per
/// occurrence, with the copies of a primitive numbered 0, 1, ... by ordinal.
pub open spec fn staged_entry_set(key: u64, prims: Seq<u64>) -> Set<Entry> {
    Set::new(|e: Entry| e.key == key && e.ordinal < prims.to_multiset().count(e.prim))
}

/// What one `stage` call does to the overlay: the key's entries are fully
/// replaced, every other key is untouched.
pub open spec fn stage_model(overlay: Set<Entry>, key: u64, prims: Seq<u64>) -> Set<Entry> {
    Set::new(
        |e: Entry|
            if e.key == key {
                staged_entry_set(key, prims).contains(e)
            } else {
                overlay.contains(e)
            },
    )
}

/// Idempotent restage: staging a key twice with the same primitives leaves
/// the overlay exactly as staging it once does.
pub proof fn lemma_restage_idempotent(overlay: Set<Entry>, key: u64, prims: Seq<u64>)
    ensures
        stage_model(stage_model(overlay, key, prims), key, prims) == stage_model(
            overlay,
            key,
            prims,
        ),
{
    assert(stage_model(stage_model(overlay, key, prims), key, prims) =~= stage_model(
        overlay,
        key,
        prims,
    ));
}

/// Staging a key whose overlay content already equals the staged entries
/// leaves the overlay unchanged.
pub proof fn lemma_stage_same_overlay(overlay: Set<Entry>, key: u64, prims: Seq<u64>)
    requires
        forall|e: Entry|
            e.key == key ==> (overlay.contains(e) <==> staged_entry_set(key, prims).contains(e)),
    ensures
        stage_model(overlay, key, prims) == overlay,
{
    assert(stage_model(overlay, key, prims) =~= overlay);
}

/// After a commit the differ is converged: the desired content of the new
/// state is exactly the new baseline, so a second commit — with no staging
/// in between, or after restaging keys with unchanged content — produces a
/// patch with no writes and an unchanged length.
pub proof fn lemma_commit_converges(before: MeshDiffer, after: MeshDiffer)
    requires
        after.overlay() == before.overlay(),
        after.touched() == before.touched(),
        after.baseline().to_set() == before.desired(),
    ensures
        after.desired() == after.baseline().to_set(),
{
    assert(after.desired() =~= before.desired());
}

/// Resize a plain array of primitive values to a new length: truncate, or
/// pad with zeroes.
pub open spec fn resize_values(values: Seq<u64>, new_len: int) -> Seq<u64> {
    if new_len <= values.len() {
        values.subrange(0, new_len)
    } else {
        values + Seq::new((new_len - values.len()) as nat, |i: int| 0u64)
    }
}

/// Perform the first `k` of the patch's writes on a plain array of
/// primitive values.
pub open spec fn write_values(values: Seq<u64>, data: Seq<u64>, indices: Seq<usize>, k: int) -> Seq<
    u64,
>
    decreases k,
{
    if k <= 0 {
        values
    } else {
        write_values(values, data, indices, k - 1).update(indices[k - 1] as int, data[k - 1])
    }
}

/// Apply a patch to a plain array of primitive values: resize to the new
/// length, then perform every write at its slot.
pub open spec fn apply_patch_values(values: Seq<u64>, patch: MeshPatch) -> Seq<u64> {
    write_values(
        resize_values(values, patch.new_len as int),
        patch.writes_data@,
        patch.writes_indices@,
        patch.writes_indices@.len() as int,
    )
}

proof fn lemma_write_values_char(values: Seq<u64>, data: Seq<u64>, indices: Seq<usize>, k: int)
    requires
        0 <= k <= indices.len(),
        data.len() == indices.len(),
        forall|j: int| 0 <= j < indices.len() ==> (#[trigger] indices[j] as int) < values.len(),
        forall|p: int, q: int| 0 <= p < q < indices.len() ==> indices[p] < indices[q],
    ensures
        write_values(values, data, indices, k).len() == values.len(),
        forall|j: int|
            0 <= j < k ==> write_values(values, data, indices, k)[#[trigger] indices[j] as int]
                == data[j],
        forall|s: int|
            0 <= s < values.len() && !(exists|j: int| 0 <= j < k && indices[j] as int == s)
                ==> write_values(values, data, indices, k)[s] == values[s],
    decreases k,
{
    if k > 0 {
        lemma_write_values_char(values, data, indices, k - 1);
        let prev = write_values(values, data, indices, k - 1);
        let curr = write_values(values, data, indices, k);
        assert forall|j: int| 0 <= j < k implies curr[#[trigger] indices[j] as int]
            == data[j] by {
            if j < k - 1 {
                assert(indices[j] < indices[k - 1]);
                assert(prev[indices[j] as int] == data[j]);
            }
        }
        assert forall|s: int|
            0 <= s < values.len() && !(exists|j: int| 0 <= j < k && indices[j] as int == s) implies
            curr[s] == values[s] by {
            assert(!(exists|j: int| 0 <= j < k - 1 && indices[j] as int == s));
            assert(indices[k - 1] as int != s);
        }
    }
}

/// Half of multiset equivalence: applying a faithful patch to the plain
/// array holding the primitive values of the old baseline yields exactly
/// the primitive values of the new baseline, slot by slot.
pub proof fn lemma_patch_rebuilds_values(patch: MeshPatch, before: Seq<Entry>, after: Seq<Entry>)
    requires
        patch_describes(patch, before, after),
    ensures
        apply_patch_values(before.map_values(|e: Entry| e.prim), patch) == after.map_values(
            |e: Entry| e.prim,
        ),
{
    let vals0 = before.map_values(|e: Entry| e.prim);
    let resized = resize_values(vals0, patch.new_len as int);
    let data = patch.writes_data@;
    let indices = patch.writes_indices@;
    let result = apply_patch_values(vals0, patch);
    assert(resized.len() == patch.new_len as int);
    lemma_write_values_char(resized, data, indices, indices.len() as int);
    assert forall|s: int| 0 <= s < result.len() implies result[s] == after.map_values(
        |e: Entry| e.prim,
    )[s] by {
        if exists|j: int| 0 <= j < indices.len() && indices[j] as int == s {
            let j = choose|j: int| 0 <= j < indices.len() && indices[j] as int == s;
            assert(result[indices[j] as int] == data[j]);
            assert(data[j] == after[indices[j] as int].prim);
        } else {
            assert(result[s] == resized[s]);
            assert(!slot_in(indices, s));
            if s < before.len() {
                assert(after[s] == before[s]);
                assert(resized[s] == vals0[s]);
            } else {
                assert(slot_in(indices, s));
            }
        }
    }
    assert(result =~= after.map_values(|e: Entry| e.prim));
}

/// Two duplicate-free sequences over the same set of elements hold the
/// same multiset of elements: the dense array's contents are, up to order,
/// exactly the desired entries.
pub proof fn lemma_nodup_same_set_same_multiset<A>(a: Seq<A>, b: Seq<A>)
    requires
        a.no_duplicates(),
        b.no_duplicates(),
        a.to_set() == b.to_set(),
    ensures
        a.to_multiset() == b.to_multiset(),
{
    a.lemma_multiset_has_no_duplicates();
    b.lemma_multiset_has_no_duplicates();
    a.to_multiset_ensures();
    b.to_multiset_ensures();
    assert forall|x: A| a.to_multiset().count(x) == b.to_multiset().count(x) by {
        if a.contains(x) {
            assert(a.to_set().contains(x));
            assert(b.contains(x));
            assert(a.to_multiset().count(x) == 1 && b.to_multiset().count(x) == 1);
        } else {
            assert(!b.to_set().contains(x)) by {
                if b.to_set().contains(x) {
                    assert(a.to_set().contains(x));
                }
            }
            assert(a.to_multiset().count(x) == 0 && b.to_multiset().count(x) == 0);
        }
    }
    assert(a.to_multiset() =~= b.to_multiset());
}

/// Mapping a sequence commutes with removing a position.
proof fn lemma_map_values_remove<A, B>(s: Seq<A>, f: spec_fn(A) -> B, i: int)
    requires
        0 <= i < s.len(),
    ensures
        s.remove(i).map_values(f) == s.map_values(f).remove(i),
{
    s.remove_ensures(i);
    s.map_values(f).remove_ensures(i);
    assert(s.remove(i).map_values(f) =~= s.map_values(f).remove(i));
}

/// The other half of multiset equivalence, per key: any duplicate-free
/// enumeration of the entries staged for one key carries, primitive by
/// primitive, exactly the multiset of primitives that was staged.
pub proof fn lemma_staged_entries_carry_exact_prims(key: u64, prims: Seq<u64>, entries: Seq<Entry>)
    requires
        prims.len() <= usize::MAX,
        entries.no_duplicates(),
        entries.to_set() == staged_entry_set(key, prims),
    ensures
        entries.map_values(|e: Entry| e.prim).to_multiset() == prims.to_multiset(),
    decreases prims.len(),
{
    let f = |e: Entry| e.prim;
    if prims.len() == 0 {
        assert(entries.len() == 0) by {
            if entries.len() > 0 {
                assert(entries.contains(entries[0]));
                assert(entries.to_set().contains(entries[0]));
            }
        }
        assert(entries.map_values(f).to_multiset() =~= prims.to_multiset());
    } else {
        let rest = prims.drop_last();
        let p = prims.last();
        assert(prims =~= rest.push(p));
        let c = rest.to_multiset().count(p);
        let e_new = Entry { key, prim: p, ordinal: c as usize };
        assert(c <= rest.len()) by {
            rest.to_multiset_ensures();
            assert(rest.to_multiset().count(p) <= rest.to_multiset().len());
        }
        assert(c < usize::MAX);
        assert(prims.to_multiset().count(p) == c + 1);
        // the staged set grows by exactly the entry with the next ordinal
        assert forall|e: Entry| #[trigger]
            staged_entry_set(key, prims).contains(e) <==> (staged_entry_set(
                key,
                rest,
            ).contains(e) || e == e_new) by {
            if e.prim == p {
            } else {
                assert(prims.to_multiset().count(e.prim) == rest.to_multiset().count(e.prim));
            }
        }
        assert(entries.to_set().contains(e_new));
        assert(entries.contains(e_new));
        let i = choose|i: int| 0 <= i < entries.len() && entries[i] == e_new;
        let smaller = entries.remove(i);
        lemma_to_set_remove(entries, i);
        assert(smaller.to_set() =~= staged_entry_set(key, rest)) by {
            assert forall|e: Entry| #[trigger] smaller.to_set().contains(e) implies staged_entry_set(
                key,
                rest,
            ).contains(e) by {
                assert(e != e_new);
            }
            assert forall|e: Entry| #[trigger]
                staged_entry_set(key, rest).contains(e) implies smaller.to_set().contains(e) by {
                assert(e != e_new) by {
                    if e == e_new {
                        assert(rest.to_multiset().count(p) > c);
                    }
                }
                assert(entries.to_set().contains(e));
            }
        }
        lemma_staged_entries_carry_exact_prims(key, rest, smaller);
        lemma_map_values_remove(entries, f, i);
        entries.map_values(f).to_multiset_ensures();
        assert(entries.map_values(f).remove(i).to_multiset() =~= entries.map_values(
            f,
        ).to_multiset().remove(entries.map_values(f)[i]));
        assert(entries.map_values(f)[i] == p);
        rest.to_multiset_ensures();
        assert(prims.to_multiset() =~= rest.to_multiset().insert(p));
        assert(entries.map_values(f).to_multiset() =~= smaller.map_values(f).to_multiset().insert(
            p,
        )) by {
            assert(smaller.map_values(f).to_multiset() == entries.map_values(
                f,
            ).to_multiset().remove(p));
            assert(entries.map_values(f).to_multiset().contains(p)) by {
                entries.map_values(f).to_multiset_ensures();
                assert(entries.map_values(f).contains(p)) by {
                    assert(entries.map_values(f)[i] == p);
                }
            }
        }
        assert(entries.map_values(f).to_multiset() =~= prims.to_multiset());
    }
}

/// Membership and duplicate-freedom of a filtered sequence.
proof fn lemma_filter_props<A>(s: Seq<A>, pred: spec_fn(A) -> bool)
    ensures
        forall|x: A| #[trigger] s.filter(pred).contains(x) <==> (s.contains(x) && pred(x)),
        s.no_duplicates() ==> s.filter(pred).no_duplicates(),
    decreases s.len(),
{
    reveal(Seq::filter);
    if s.len() == 0 {
        assert forall|x: A| #[trigger] s.filter(pred).contains(x) implies (s.contains(x) && pred(
            x,
        )) by {}
    } else {
        let rest = s.drop_last();
        let last = s.last();
        lemma_filter_props(rest, pred);
        assert forall|x: A| #[trigger] s.filter(pred).contains(x) implies (s.contains(x) && pred(
            x,
        )) by {
            let i = choose|i: int| 0 <= i < s.filter(pred).len() && s.filter(pred)[i] == x;
            if pred(last) && i == s.filter(pred).len() - 1 {
                assert(x == last);
                assert(s[s.len() - 1] == x);
            } else {
                assert(rest.filter(pred)[i] == x);
                assert(rest.filter(pred).contains(x));
                assert(rest.contains(x));
                let j = choose|j: int| 0 <= j < rest.len() && rest[j] == x;
                assert(s[j] == x);
            }
        }
        assert forall|x: A| s.contains(x) && pred(x) implies #[trigger] s.filter(pred).contains(
            x,
        ) by {
            let i = choose|i: int| 0 <= i < s.len() && s[i] == x;
            if i == s.len() - 1 {
                assert(s.filter(pred).last() == x);
            } else {
                assert(rest[i] == x);
                assert(rest.contains(x));
                assert(rest.filter(pred).contains(x));
                let j = choose|j: int|
                    0 <= j < rest.filter(pred).len() && rest.filter(pred)[j] == x;
                assert(s.filter(pred)[j] == x);
            }
        }
        if s.no_duplicates() {
            assert(rest.no_duplicates()) by {
                assert forall|p: int, q: int|
                    0 <= p < rest.len() && 0 <= q < rest.len() && p != q implies rest[p]
                    != rest[q] by {
                    assert(rest[p] == s[p] && rest[q] == s[q]);
                }
            }
            if pred(last) {
                assert(!rest.filter(pred).contains(last)) by {
                    if rest.filter(pred).contains(last) {
                        assert(rest.contains(last));
                        let j = choose|j: int| 0 <= j < rest.len() && rest[j] == last;
                        assert(s[j] == s[s.len() - 1]);
                    }
                }
                lemma_no_dup_push(rest.filter(pred), last);
            }
        }
    }
}

/// Multiset equivalence, stated of the differ itself: after a commit that
/// made the baseline match the desired content, the slots holding a
/// touched key carry, up to order, exactly the primitives staged for it.
pub proof fn lemma_committed_key_contents(d: MeshDiffer, key: u64, prims: Seq<u64>)
    requires
        prims.len() <= usize::MAX,
        d.baseline().no_duplicates(),
        d.baseline().to_set() == d.desired(),
        d.touched().contains(key),
        forall|e: Entry|
            e.key == key ==> (d.overlay().contains(e) <==> staged_entry_set(
                key,
                prims,
            ).contains(e)),
    ensures
        d.baseline().filter(|e: Entry| e.key == key).map_values(|e: Entry| e.prim).to_multiset()
            == prims.to_multiset(),
{
    let pred = |e: Entry| e.key == key;
    let slice = d.baseline().filter(pred);
    lemma_filter_props(d.baseline(), pred);
    assert(slice.to_set() =~= staged_entry_set(key, prims)) by {
        assert forall|e: Entry| #[trigger] slice.to_set().contains(e) implies staged_entry_set(
            key,
            prims,
        ).contains(e) by {
            assert(slice.contains(e));
            assert(d.baseline().contains(e));
            assert(d.baseline().to_set().contains(e));
            assert(d.desired().contains(e));
        }
        assert forall|e: Entry| #[trigger]
            staged_entry_set(key, prims).contains(e) implies slice.to_set().contains(e) by {
            assert(d.overlay().contains(e));
            assert(d.desired().contains(e));
            assert(d.baseline().to_set().contains(e));
            assert(d.baseline().contains(e));
            assert(slice.contains(e));
        }
    }
    lemma_staged_entries_carry_exact_prims(key, prims, slice);
}

/// The untouched half of multiset equivalence: a commit leaves the
/// contents of every key that was never staged exactly as they were, up
/// to order.
pub proof fn lemma_commit_keeps_untouched_key(before: MeshDiffer, after: MeshDiffer, key: u64)
    requires
        before.inv(),
        !before.touched().contains(key),
        after.baseline().to_set() == before.desired(),
        after.baseline().no_duplicates(),
    ensures
        after.baseline().filter(|e: Entry| e.key == key).to_multiset() == before.baseline().filter(
            |e: Entry| e.key == key,
        ).to_multiset(),
{
    let pred = |e: Entry| e.key == key;
    before.lemma_overlay_keys_touched();
    before.lemma_baseline_no_duplicates();
    lemma_filter_props(before.baseline(), pred);
    lemma_filter_props(after.baseline(), pred);
    assert(after.baseline().filter(pred).to_set() =~= before.baseline().filter(pred).to_set()) by {
        assert forall|e: Entry| #[trigger]
            after.baseline().filter(pred).to_set().contains(e) implies before.baseline().filter(
            pred,
        ).to_set().contains(e) by {
            assert(after.baseline().filter(pred).contains(e));
            assert(after.baseline().contains(e));
            assert(after.baseline().to_set().contains(e));
            assert(before.desired().contains(e));
            assert(!before.overlay().contains(e));
            assert(before.baseline().to_set().contains(e));
            assert(before.baseline().contains(e));
            assert(before.baseline().filter(pred).contains(e));
        }
        assert forall|e: Entry| #[trigger]
            before.baseline().filter(pred).to_set().contains(e) implies after.baseline().filter(
            pred,
        ).to_set().contains(e) by {
            assert(before.baseline().filter(pred).contains(e));
            assert(before.baseline().contains(e));
            assert(before.baseline().to_set().contains(e));
            assert(before.desired().contains(e));
            assert(after.baseline().to_set().contains(e));
            assert(after.baseline().contains(e));
            assert(after.baseline().filter(pred).contains(e));
        }
    }
    lemma_nodup_same_set_same_multiset(
        after.baseline().filter(pred),
        before.baseline().filter(pred),
    );
}

/// The entries a batch of (key, primitive) pairs produces: one entry per
/// occurrence of a pair, with copies numbered 0, 1, ... by ordinal.
pub open spec fn paired_entry_set(pairs: Seq<(u64, u64)>) -> Set<Entry> {
    Set::new(|e: Entry| e.ordinal < pairs.to_multiset().count((e.key, e.prim)))
}

/// Pool logic for the differ's scratch vectors: a fresh vector is empty.
pub struct VecPool;

impl PoolLogic<Vec<Entry>> for VecPool {
    open spec fn is_fresh(&self, elem: Vec<Entry>) -> bool {
        elem@.len() == 0
    }

    fn create(&self) -> (elem: Vec<Entry>)
        ensures
            self.is_fresh(elem),
    {
        Vec::new()
    }

    fn recycle(&self, elem: &mut Vec<Entry>)
        ensures
            self.is_fresh(*final(elem)),
    {
        elem.clear()
    }
}

/// How many scratch vectors a differ keeps around for reuse.
pub const VEC_POOL_SIZE: usize = 3;

/// A sequence of (entry, slot) pairs in strictly increasing entry order.
pub open spec fn pairs_sorted(t: Seq<(Entry, usize)>) -> bool {
    forall|i: int, j: int| 0 <= i < j < t.len() ==> entry_lt(t[i].0, t[j].0)
}

/// The index holds a pair binding entry `e` to slot `i`.
pub open spec fn tree_maps(t: Seq<(Entry, usize)>, e: Entry, i: int) -> bool {
    exists|k: int| 0 <= k < t.len() && t[k].0 == e && t[k].1 as int == i
}

/// Data structure which stores a mesh and tracks changes.
///
/// The mesh is a bag of primitives, each belonging to some non-unique key.
/// Two core operations:
///
/// 1. [`MeshDiffer::stage`]: record the full desired content for one key,
///    overriding anything staged for that key before.
/// 2. [`MeshDiffer::commit`]: produce a [`MeshPatch`] with instructions for
///    modifying a dense-array representation from the state at the previous
///    commit to the current staged state.
pub struct MeshDiffer {
    /// Baseline index: entry -> dense slot, ordered by entry.
    tree: Vec<(Entry, usize)>,
    /// Exact inverse of `tree`: the dense array of committed entries.
    array: Vec<Entry>,
    /// Staged overlay: desired entries for every key ever staged, ordered.
    alter_entries: Vec<Entry>,
    /// Every key ever staged, ordered.
    alter_keys: Vec<u64>,
    /// Scratch vectors reused across commits.
    entry_vec_pool: Pool<Vec<Entry>, VecPool>,
}

impl MeshDiffer {
    /// The dense array of the last committed state, slot by slot.
    pub closed spec fn baseline(self) -> Seq<Entry> {
        self.array@
    }

    /// The staged overlay: the full desired content of every touched key.
    pub closed spec fn overlay(self) -> Set<Entry> {
        self.alter_entries@.to_set()
    }

    /// The set of keys that have ever been staged.
    pub closed spec fn touched(self) -> Set<u64> {
        self.alter_keys@.to_set()
    }

    /// Structural invariant tying the ordered index to the dense array and
    /// keeping the overlay ordered and consistent with the touched keys.
    pub closed spec fn inv(self) -> bool {
        &&& index_wf(self.tree@, self.array@)
        &&& entries_sorted(self.alter_entries@)
        &&& keys_sorted(self.alter_keys@)
        &&& forall|e: Entry| #[trigger]
            self.alter_entries@.to_set().contains(e) ==> self.alter_keys@.to_set().contains(e.key)
    }

    /// The content the baseline should have after the next commit: staged
    /// entries of touched keys, committed entries of untouched keys.
    pub open spec fn desired(self) -> Set<Entry> {
        Set::new(
            |e: Entry|
                self.overlay().contains(e) || (self.baseline().to_set().contains(e)
                    && !self.touched().contains(e.key)),
        )
    }

    /// Entries the next commit must add to the baseline.
    pub open spec fn added_of(self) -> Set<Entry> {
        self.desired().difference(self.baseline().to_set())
    }

    /// Entries the next commit must remove from the baseline.
    pub open spec fn removed_of(self) -> Set<Entry> {
        self.baseline().to_set().difference(self.desired())
    }

    /// Every staged entry belongs to a touched key.
    pub proof fn lemma_overlay_keys_touched(self)
        requires
            self.inv(),
        ensures
            forall|e: Entry| #[trigger] self.overlay().contains(e) ==> self.touched().contains(
                e.key,
            ),
    {
    }

    /// The committed dense array never holds the same entry twice.
    pub proof fn lemma_baseline_no_duplicates(self)
        requires
            self.inv(),
        ensures
            self.baseline().no_duplicates(),
    {
        assert forall|i: int, j: int|
            0 <= i < self.array@.len() && 0 <= j < self.array@.len() && i != j implies self.array@[i]
            != self.array@[j] by {
            if self.array@[i] == self.array@[j] {
                assert(tree_maps(self.tree@, self.array@[i], i));
                assert(tree_maps(self.tree@, self.array@[j], j));
                let j1 = choose|k: int|
                    0 <= k < self.tree@.len() && self.tree@[k].0 == self.array@[i]
                        && self.tree@[k].1 as int == i;
                let j2 = choose|k: int|
                    0 <= k < self.tree@.len() && self.tree@[k].0 == self.array@[j]
                        && self.tree@[k].1 as int == j;
                assert(j1 != j2);
                if j1 < j2 {
                    assert(entry_lt(self.tree@[j1].0, self.tree@[j2].0));
                } else if j2 < j1 {
                    assert(entry_lt(self.tree@[j2].0, self.tree@[j1].0));
                }
            }
        }
    }

    /// Create an empty mesh.
    pub fn new() -> (d: MeshDiffer)
        ensures
            d.inv(),
            d.baseline() == Seq::<Entry>::empty(),
            d.overlay() == Set::<Entry>::empty(),
            d.touched() == Set::<u64>::empty(),
    {
        let d = MeshDiffer {
            tree: Vec::new(),
            array: Vec::new(),
            alter_entries: Vec::new(),
            alter_keys: Vec::new(),
            entry_vec_pool: Pool::new(VecPool, VEC_POOL_SIZE),
        };
        proof {
            assert(d.baseline() =~= Seq::<Entry>::empty());
            assert(d.overlay() =~= Set::<Entry>::empty());
            assert(d.touched() =~= Set::<u64>::empty());
        }
        d
    }

    /// Insert a `key -> [primitives]` entry, overriding any existing entry.
    ///
    /// An empty vector of primitives means "delete this key's contents".
    /// Repeated copies of the same primitive are kept apart by ordinals, so
    /// all of them survive into the staged overlay.
    pub fn stage(&mut self, key: u64, primitives: Vec<u64>)
        requires
            old(self).inv(),
        ensures
            final(self).inv(),
            final(self).baseline() == old(self).baseline(),
            final(self).touched() == old(self).touched().insert(key),
            final(self).overlay() == stage_model(old(self).overlay(), key, primitives@),
    {
        let kept = remove_key_entries(&self.alter_entries, key);
        self.alter_entries = kept;
        insert_key_sorted(&mut self.alter_keys, key);
        proof {
            assert(self.touched() =~= old(self).touched().insert(key));
        }
        let ghost kept_set = self.alter_entries@.to_set();
        let ghost keys_now = self.alter_keys@;
        let mut idx: usize = 0;
        while idx < primitives.len()
            invariant
                idx <= primitives.len(),
                self.tree@ == old(self).tree@,
                self.array@ == old(self).array@,
                self.alter_keys@ == keys_now,
                keys_sorted(keys_now),
                keys_now.to_set().contains(key),
                entries_sorted(self.alter_entries@),
                forall|e: Entry| #[trigger]
                    self.alter_entries@.to_set().contains(e) <==> (kept_set.contains(e) || (e.key
                        == key && e.ordinal < primitives@.subrange(
                        0,
                        idx as int,
                    ).to_multiset().count(e.prim))),
                forall|e: Entry| #[trigger]
                    kept_set.contains(e) ==> e.key != key && keys_now.to_set().contains(e.key),
            decreases primitives.len() - idx,
        {
            let p = primitives[idx];
            let mut c: usize = 0;
            let mut j: usize = 0;
            while j < idx
                invariant
                    j <= idx <= primitives@.len(),
                    c <= j,
                    c == primitives@.subrange(0, j as int).to_multiset().count(p),
                decreases idx - j,
            {
                proof {
                    assert(primitives@.subrange(0, j as int + 1) =~= primitives@.subrange(
                        0,
                        j as int,
                    ).push(primitives@[j as int]));
                }
                if primitives[j] == p {
                    c = c + 1;
                }
                j = j + 1;
            }
            let e = Entry { key, prim: p, ordinal: c };
            proof {
                assert(!self.alter_entries@.to_set().contains(e));
            }
            insert_entry_sorted(&mut self.alter_entries, e);
            proof {
                let pre = primitives@.subrange(0, idx as int);
                let post = primitives@.subrange(0, idx as int + 1);
                assert(post =~= pre.push(primitives@[idx as int]));
                assert forall|x: Entry| #[trigger]
                    self.alter_entries@.to_set().contains(x) <==> (kept_set.contains(x) || (x.key
                        == key && x.ordinal < post.to_multiset().count(x.prim))) by {
                    if x == e {
                        assert(post.to_multiset().count(p) == pre.to_multiset().count(p) + 1);
                    } else {
                        if x.prim == p {
                            assert(post.to_multiset().count(x.prim) == pre.to_multiset().count(
                                x.prim,
                            ) + 1);
                        } else {
                            assert(post.to_multiset().count(x.prim) == pre.to_multiset().count(
                                x.prim,
                            ));
                        }
                    }
                }
            }
            idx = idx + 1;
        }
        proof {
            assert(primitives@.subrange(0, primitives@.len() as int) =~= primitives@);
            assert(self.overlay() =~= stage_model(old(self).overlay(), key, primitives@));
            assert forall|e: Entry| #[trigger]
                self.alter_entries@.to_set().contains(e) implies self.alter_keys@.to_set().contains(
                e.key,
            ) by {}
        }
    }

    /// Walk every touched key and collect the entries that the next commit
    /// must add to, and remove from, the committed baseline.
    #[verifier::rlimit(30)]
    fn collect_diff(&mut self) -> (r: (Vec<Entry>, Vec<Entry>))
        requires
            old(self).inv(),
        ensures
            final(self).inv(),
            final(self).tree@ == old(self).tree@,
            final(self).array@ == old(self).array@,
            final(self).alter_entries@ == old(self).alter_entries@,
            final(self).alter_keys@ == old(self).alter_keys@,
            r.0@.no_duplicates(),
            r.1@.no_duplicates(),
            r.0@.to_set() == old(self).added_of(),
            r.1@.to_set() == old(self).removed_of(),
    {
        let mut added = self.entry_vec_pool.get().take();
        let mut removed = self.entry_vec_pool.get().take();
        let ghost tree0 = self.tree@;
        let ghost array0 = self.array@;
        let ghost alter0 = self.alter_entries@;
        let ghost keys0 = self.alter_keys@;
        proof {
            lemma_index_entries_eq_array(tree0, array0);
        }
        let mut ki: usize = 0;
        while ki < self.alter_keys.len()
            invariant
                ki <= keys0.len(),
                self.tree@ == tree0,
                self.array@ == array0,
                self.alter_entries@ == alter0,
                self.alter_keys@ == keys0,
                index_wf(tree0, array0),
                entries_sorted(alter0),
                keys_sorted(keys0),
                forall|e: Entry| #[trigger]
                    alter0.to_set().contains(e) ==> keys0.to_set().contains(e.key),
                forall|e: Entry|
                    #![trigger range_has_entry(tree0, 0, tree0.len() as int, e)]
                    #![trigger array0.to_set().contains(e)]
                    range_has_entry(tree0, 0, tree0.len() as int, e) <==> array0.to_set().contains(
                        e,
                    ),
                added@.no_duplicates(),
                removed@.no_duplicates(),
                forall|e: Entry| #[trigger]
                    added@.to_set().contains(e) <==> (alter0.to_set().contains(e)
                        && keys0.subrange(0, ki as int).to_set().contains(e.key)
                        && !array0.to_set().contains(e)),
                forall|e: Entry| #[trigger]
                    removed@.to_set().contains(e) <==> (array0.to_set().contains(e)
                        && keys0.subrange(0, ki as int).to_set().contains(e.key)
                        && !alter0.to_set().contains(e)),
            decreases keys0.len() - ki,
        {
            let key = self.alter_keys[ki];
            let tr = pair_key_range(&self.tree, key);
            let ar = entry_key_range(&self.alter_entries, key);
            let ghost pre = keys0.subrange(0, ki as int);
            let ghost post = keys0.subrange(0, ki as int + 1);
            proof {
                assert(post =~= pre.push(keys0[ki as int]));
                lemma_to_set_push(pre, keys0[ki as int]);
                // keys in the processed prefix are strictly below the current key
                assert forall|x: u64| #[trigger] pre.to_set().contains(x) implies x < key by {
                    let j = choose|j: int| 0 <= j < pre.len() && pre[j] == x;
                    assert(keys0[j] == x);
                }
                // what the merge sees in the two ranges is exactly this key's slice
                assert forall|x: Entry| #[trigger]
                    added@.to_set().contains(x) implies !seq_range_has(
                    alter0,
                    ar.0 as int,
                    ar.1 as int,
                    x,
                ) by {
                    if seq_range_has(alter0, ar.0 as int, ar.1 as int, x) {
                        let k = choose|k: int| ar.0 <= k < ar.1 && alter0[k] == x;
                        assert(x.key == key);
                    }
                }
                assert forall|x: Entry| #[trigger]
                    removed@.to_set().contains(x) implies !range_has_entry(
                    tree0,
                    tr.0 as int,
                    tr.1 as int,
                    x,
                ) by {
                    if range_has_entry(tree0, tr.0 as int, tr.1 as int, x) {
                        let k = choose|k: int| tr.0 <= k < tr.1 && tree0[k].0 == x;
                        assert(x.key == key);
                    }
                }
            }
            let ghost added_pre = added@;
            let ghost removed_pre = removed@;
            merge_diff_key(
                &self.tree,
                tr.0,
                tr.1,
                &self.alter_entries,
                ar.0,
                ar.1,
                &mut added,
                &mut removed,
            );
            proof {
                // a range hit is exactly whole-sequence membership at this key
                assert forall|e: Entry|
                    #![trigger seq_range_has(alter0, ar.0 as int, ar.1 as int, e)]
                    seq_range_has(alter0, ar.0 as int, ar.1 as int, e) <==> (
                alter0.to_set().contains(e) && e.key == key) by {
                    if seq_range_has(alter0, ar.0 as int, ar.1 as int, e) {
                        let k = choose|k: int| ar.0 <= k < ar.1 && alter0[k] == e;
                        assert(alter0.contains(e));
                    }
                    if alter0.to_set().contains(e) && e.key == key {
                        let k = choose|k: int| 0 <= k < alter0.len() && alter0[k] == e;
                        assert(ar.0 <= k < ar.1) by {
                            if k < ar.0 || k >= ar.1 {
                                assert(alter0[k].key != key);
                            }
                        }
                        assert(seq_range_has(alter0, ar.0 as int, ar.1 as int, e));
                    }
                }
                assert forall|e: Entry|
                    #![trigger range_has_entry(tree0, tr.0 as int, tr.1 as int, e)]
                    range_has_entry(tree0, tr.0 as int, tr.1 as int, e) <==> (
                array0.to_set().contains(e) && e.key == key) by {
                    if range_has_entry(tree0, tr.0 as int, tr.1 as int, e) {
                        let k = choose|k: int| tr.0 <= k < tr.1 && tree0[k].0 == e;
                        assert(range_has_entry(tree0, 0, tree0.len() as int, e));
                    }
                    if array0.to_set().contains(e) && e.key == key {
                        let k = choose|k: int| 0 <= k < tree0.len() && tree0[k].0 == e;
                        assert(tr.0 <= k < tr.1) by {
                            if k < tr.0 || k >= tr.1 {
                                assert(tree0[k].0.key != key);
                            }
                        }
                        assert(range_has_entry(tree0, tr.0 as int, tr.1 as int, e));
                    }
                }
                // re-shape the merge postcondition into the prefix invariant
                assert forall|e: Entry| #[trigger]
                    added@.to_set().contains(e) <==> (alter0.to_set().contains(e)
                        && post.to_set().contains(e.key) && !array0.to_set().contains(e)) by {
                    if added@.to_set().contains(e) {
                        if added_pre.to_set().contains(e) {
                        }
                    } else {
                        if alter0.to_set().contains(e) && post.to_set().contains(e.key)
                            && !array0.to_set().contains(e) {
                            if e.key == key {
                                assert(seq_range_has(alter0, ar.0 as int, ar.1 as int, e));
                            } else {
                                assert(pre.to_set().contains(e.key));
                            }
                        }
                    }
                }
                assert forall|e: Entry| #[trigger]
                    removed@.to_set().contains(e) <==> (array0.to_set().contains(e)
                        && post.to_set().contains(e.key) && !alter0.to_set().contains(e)) by {
                    if removed@.to_set().contains(e) {
                        if removed_pre.to_set().contains(e) {
                        }
                    } else {
                        if array0.to_set().contains(e) && post.to_set().contains(e.key)
                            && !alter0.to_set().contains(e) {
                            if e.key == key {
                                assert(range_has_entry(tree0, tr.0 as int, tr.1 as int, e));
                            } else {
                                assert(pre.to_set().contains(e.key));
                            }
                        }
                    }
                }
            }
            ki = ki + 1;
        }
        proof {
            assert(keys0.subrange(0, keys0.len() as int) =~= keys0);
            assert(added@.to_set() =~= old(self).added_of()) by {
                assert forall|e: Entry| #[trigger] added@.to_set().contains(e) implies old(
                    self,
                ).added_of().contains(e) by {}
                assert forall|e: Entry| #[trigger] old(self).added_of().contains(e) implies
                    added@.to_set().contains(e) by {}
            }
            assert(removed@.to_set() =~= old(self).removed_of()) by {
                assert forall|e: Entry| #[trigger] removed@.to_set().contains(e) implies old(
                    self,
                ).removed_of().contains(e) by {}
                assert forall|e: Entry| #[trigger] old(self).removed_of().contains(e) implies
                    removed@.to_set().contains(e) by {}
            }
        }
        (added, removed)
    }

    /// Apply a collected diff to the baseline: pair up additions with
    /// removals to reuse slots, append leftover additions at the end, and
    /// swap-remove leftover removals so the array stays dense.  Returns the
    /// sorted list of slots whose content changed.
    #[verifier::rlimit(80)]
    fn apply_diff(&mut self, added: &Vec<Entry>, removed: &Vec<Entry>) -> (ws: Vec<usize>)
        requires
            old(self).inv(),
            added@.no_duplicates(),
            removed@.no_duplicates(),
            forall|x: Entry| #[trigger]
                added@.to_set().contains(x) ==> !old(self).array@.to_set().contains(x),
            forall|x: Entry| #[trigger]
                removed@.to_set().contains(x) ==> old(self).array@.to_set().contains(x),
            forall|x: Entry| #[trigger]
                added@.to_set().contains(x) ==> !removed@.to_set().contains(x),
        ensures
            final(self).inv(),
            final(self).alter_entries@ == old(self).alter_entries@,
            final(self).alter_keys@ == old(self).alter_keys@,
            final(self).array@.to_set() == old(self).array@.to_set().difference(
                removed@.to_set(),
            ).union(added@.to_set()),
            final(self).array@.len() + removed@.len() == old(self).array@.len() + added@.len(),
            forall|p: int, q: int| 0 <= p < q < ws@.len() ==> ws@[p] < ws@[q],
            ws@.len() <= added@.len() + removed@.len(),
            forall|s: int|
                0 <= s < final(self).array@.len() && s < old(self).array@.len() && !slot_in(ws@, s)
                    ==> final(self).array@[s] == old(self).array@[s],
            forall|s: int|
                old(self).array@.len() <= s < final(self).array@.len() ==> slot_in(ws@, s),
    {
        let ghost arr0 = self.array@;
        let ghost alt0 = self.alter_entries@;
        let ghost keys0 = self.alter_keys@;
        let mut ws: Vec<usize> = Vec::new();
        let a_len = added.len();
        let r_len = removed.len();
        let m = if a_len < r_len {
            a_len
        } else {
            r_len
        };
        let mut i: usize = 0;
        while i < m
            invariant
                i <= m,
                m <= a_len,
                m <= r_len,
                m == a_len || m == r_len,
                a_len == added@.len(),
                r_len == removed@.len(),
                added@.no_duplicates(),
                removed@.no_duplicates(),
                forall|x: Entry| #[trigger]
                    added@.to_set().contains(x) ==> !arr0.to_set().contains(x),
                forall|x: Entry| #[trigger] removed@.to_set().contains(x) ==> arr0.to_set().contains(x),
                forall|x: Entry| #[trigger]
                    added@.to_set().contains(x) ==> !removed@.to_set().contains(x),
                index_wf(self.tree@, self.array@),
                self.alter_entries@ == alt0,
                self.alter_keys@ == keys0,
                self.array@.len() == arr0.len(),
                forall|e: Entry| #[trigger]
                    self.array@.to_set().contains(e) <==> ((arr0.to_set().contains(e)
                        && !removed@.subrange(0, i as int).to_set().contains(e))
                        || added@.subrange(0, i as int).to_set().contains(e)),
                forall|p: int, q: int| 0 <= p < q < ws@.len() ==> ws@[p] < ws@[q],
                ws@.len() <= i,
                forall|s: int|
                    0 <= s < self.array@.len() && s < arr0.len() && !slot_in(ws@, s)
                        ==> self.array@[s] == arr0[s],
                forall|s: int| arr0.len() <= s < self.array@.len() ==> slot_in(ws@, s),
            decreases m - i,
        {
            let ad = added[i];
            let rm = removed[i];
            let ghost rpre = removed@.subrange(0, i as int);
            let ghost apre = added@.subrange(0, i as int);
            proof {
                assert(removed@.to_set().contains(rm)) by {
                    assert(removed@.contains(rm));
                }
                assert(added@.to_set().contains(ad)) by {
                    assert(added@.contains(ad));
                }
                assert(!rpre.to_set().contains(rm)) by {
                    if rpre.to_set().contains(rm) {
                        let k = choose|k: int| 0 <= k < rpre.len() && rpre[k] == rm;
                        assert(removed@[k] == removed@[i as int]);
                    }
                }
                assert(!apre.to_set().contains(ad)) by {
                    if apre.to_set().contains(ad) {
                        let k = choose|k: int| 0 <= k < apre.len() && apre[k] == ad;
                        assert(added@[k] == added@[i as int]);
                    }
                }
                assert(self.array@.to_set().contains(rm));
                assert(!self.array@.to_set().contains(ad));
                lemma_index_entries_eq_array(self.tree@, self.array@);
            }
            let j = tree_position(&self.tree, &rm);
            let slot = self.tree[j].1;
            let ghost t1 = self.tree@;
            let ghost a1 = self.array@;
            proof {
                assert(t1.to_set().contains(t1[j as int])) by {
                    assert(t1.contains(t1[j as int]));
                }
                assert(slot < a1.len() && a1[slot as int] == rm);
                lemma_pairs_sorted_no_duplicates(t1);
                lemma_to_set_remove(t1, j as int);
                lemma_pairs_sorted_remove(t1, j as int);
            }
            self.tree.remove(j);
            proof {
                assert(!range_has_entry(self.tree@, 0, self.tree@.len() as int, ad)) by {
                    if range_has_entry(self.tree@, 0, self.tree@.len() as int, ad) {
                        let k = choose|k: int|
                            0 <= k < self.tree@.len() && self.tree@[k].0 == ad;
                        let p = self.tree@[k];
                        assert(self.tree@.to_set().contains(p)) by {
                            assert(self.tree@.contains(p));
                        }
                        assert(t1.to_set().contains(p));
                        assert(a1[p.1 as int] == ad);
                        assert(a1.to_set().contains(ad)) by {
                            assert(a1.contains(ad));
                        }
                    }
                }
            }
            tree_insert_pair(&mut self.tree, ad, slot);
            proof {
                lemma_array_no_duplicates(t1, a1);
                lemma_to_set_update(a1, slot as int, ad);
            }
            self.array[slot] = ad;
            insert_slot_sorted(&mut ws, slot);
            i = i + 1;
            proof {
                lemma_index_replace(t1, a1, rm, ad, slot, self.tree@, self.array@);
                let rpost = removed@.subrange(0, i as int);
                let apost = added@.subrange(0, i as int);
                assert(rpost =~= rpre.push(rm));
                assert(apost =~= apre.push(ad));
                lemma_to_set_push(rpre, rm);
                lemma_to_set_push(apre, ad);
                assert(ad != rm);
                assert forall|e: Entry| #[trigger]
                    self.array@.to_set().contains(e) <==> ((arr0.to_set().contains(e)
                        && !rpost.to_set().contains(e)) || apost.to_set().contains(e)) by {
                    if e == ad {
                    } else if e == rm {
                        assert(!apost.to_set().contains(rm)) by {
                            if apost.to_set().contains(rm) {
                                let k = choose|k: int| 0 <= k < apost.len() && apost[k] == rm;
                                assert(added@.to_set().contains(rm)) by {
                                    assert(added@.contains(rm));
                                }
                            }
                        }
                    } else {
                    }
                }
                assert forall|s: int|
                    0 <= s < self.array@.len() && s < arr0.len() && !slot_in(ws@, s) implies
                    self.array@[s] == arr0[s] by {
                    assert(s != slot as int);
                    assert(self.array@[s] == a1[s]);
                }
            }
        }
        // phase 2: more additions than removals; append the rest at the end
        while i < a_len
            invariant
                m <= i <= a_len,
                m <= r_len,
                m == a_len || m == r_len,
                i > m ==> m == r_len,
                a_len == added@.len(),
                r_len == removed@.len(),
                added@.no_duplicates(),
                removed@.no_duplicates(),
                forall|x: Entry| #[trigger]
                    added@.to_set().contains(x) ==> !arr0.to_set().contains(x),
                forall|x: Entry| #[trigger] removed@.to_set().contains(x) ==> arr0.to_set().contains(x),
                forall|x: Entry| #[trigger]
                    added@.to_set().contains(x) ==> !removed@.to_set().contains(x),
                index_wf(self.tree@, self.array@),
                self.alter_entries@ == alt0,
                self.alter_keys@ == keys0,
                self.array@.len() + m == arr0.len() + i,
                arr0.len() <= self.array@.len(),
                forall|e: Entry| #[trigger]
                    self.array@.to_set().contains(e) <==> ((arr0.to_set().contains(e)
                        && !removed@.subrange(0, m as int).to_set().contains(e))
                        || added@.subrange(0, i as int).to_set().contains(e)),
                forall|p: int, q: int| 0 <= p < q < ws@.len() ==> ws@[p] < ws@[q],
                ws@.len() <= i,
                forall|s: int|
                    0 <= s < self.array@.len() && s < arr0.len() && !slot_in(ws@, s)
                        ==> self.array@[s] == arr0[s],
                forall|s: int| arr0.len() <= s < self.array@.len() ==> slot_in(ws@, s),
            decreases a_len - i,
        {
            let ad = added[i];
            let ghost apre = added@.subrange(0, i as int);
            proof {
                assert(added@.to_set().contains(ad)) by {
                    assert(added@.contains(ad));
                }
                assert(!apre.to_set().contains(ad)) by {
                    if apre.to_set().contains(ad) {
                        let k = choose|k: int| 0 <= k < apre.len() && apre[k] == ad;
                        assert(added@[k] == added@[i as int]);
                    }
                }
                assert(!self.array@.to_set().contains(ad));
                lemma_index_entries_eq_array(self.tree@, self.array@);
                assert(!range_has_entry(self.tree@, 0, self.tree@.len() as int, ad));
            }
            let slot = self.array.len();
            let ghost t1 = self.tree@;
            let ghost a1 = self.array@;
            self.array.push(ad);
            tree_insert_pair(&mut self.tree, ad, slot);
            insert_slot_sorted(&mut ws, slot);
            i = i + 1;
            proof {
                lemma_index_append(t1, a1, ad, slot, self.tree@, self.array@);
                let apost = added@.subrange(0, i as int);
                assert(apost =~= apre.push(ad));
                lemma_to_set_push(apre, ad);
                assert forall|e: Entry| #[trigger]
                    self.array@.to_set().contains(e) <==> ((arr0.to_set().contains(e)
                        && !removed@.subrange(0, m as int).to_set().contains(e))
                        || apost.to_set().contains(e)) by {}
                assert forall|s: int|
                    0 <= s < self.array@.len() && s < arr0.len() && !slot_in(ws@, s) implies
                    self.array@[s] == arr0[s] by {
                    assert(s < a1.len());
                    assert(s != slot as int);
                    assert(self.array@[s] == a1[s]);
                }
            }
        }
        // phase 3: more removals than additions; swap-remove the rest
        if i < r_len {
        while i < r_len
            invariant
                m <= i <= r_len,
                m <= a_len,
                m == a_len || m == r_len,
                i > m ==> m == a_len,
                a_len == added@.len(),
                r_len == removed@.len(),
                added@.no_duplicates(),
                removed@.no_duplicates(),
                forall|x: Entry| #[trigger]
                    added@.to_set().contains(x) ==> !arr0.to_set().contains(x),
                forall|x: Entry| #[trigger] removed@.to_set().contains(x) ==> arr0.to_set().contains(x),
                forall|x: Entry| #[trigger]
                    added@.to_set().contains(x) ==> !removed@.to_set().contains(x),
                index_wf(self.tree@, self.array@),
                self.alter_entries@ == alt0,
                self.alter_keys@ == keys0,
                self.array@.len() + i == arr0.len() + a_len,
                forall|e: Entry| #[trigger]
                    self.array@.to_set().contains(e) <==> ((arr0.to_set().contains(e)
                        && !removed@.subrange(0, i as int).to_set().contains(e))
                        || added@.subrange(0, a_len as int).to_set().contains(e)),
                forall|p: int, q: int| 0 <= p < q < ws@.len() ==> ws@[p] < ws@[q],
                ws@.len() <= i,
                forall|s: int|
                    0 <= s < self.array@.len() && s < arr0.len() && !slot_in(ws@, s)
                        ==> self.array@[s] == arr0[s],
                forall|s: int| arr0.len() <= s < self.array@.len() ==> slot_in(ws@, s),
            decreases r_len - i,
        {
            let rm = removed[i];
            let ghost rpre = removed@.subrange(0, i as int);
            proof {
                assert(removed@.to_set().contains(rm)) by {
                    assert(removed@.contains(rm));
                }
                assert(!rpre.to_set().contains(rm)) by {
                    if rpre.to_set().contains(rm) {
                        let k = choose|k: int| 0 <= k < rpre.len() && rpre[k] == rm;
                        assert(removed@[k] == removed@[i as int]);
                    }
                }
                assert(!added@.subrange(0, a_len as int).to_set().contains(rm)) by {
                    if added@.subrange(0, a_len as int).to_set().contains(rm) {
                        let k = choose|k: int|
                            0 <= k < a_len && added@.subrange(0, a_len as int)[k] == rm;
                        assert(added@.to_set().contains(rm)) by {
                            assert(added@.contains(rm));
                        }
                    }
                }
                assert(self.array@.to_set().contains(rm));
                assert(self.array@.contains(rm));
                assert(self.array@.len() > 0) by {
                    let ii = choose|ii: int| 0 <= ii < self.array@.len() && self.array@[ii] == rm;
                }
                lemma_index_entries_eq_array(self.tree@, self.array@);
            }
            let j = tree_position(&self.tree, &rm);
            let slot = self.tree[j].1;
            let ghost t1 = self.tree@;
            let ghost a1 = self.array@;
            proof {
                assert(t1.to_set().contains(t1[j as int])) by {
                    assert(t1.contains(t1[j as int]));
                }
                assert(slot < a1.len() && a1[slot as int] == rm);
                lemma_pairs_sorted_no_duplicates(t1);
                lemma_to_set_remove(t1, j as int);
                lemma_pairs_sorted_remove(t1, j as int);
                lemma_array_no_duplicates(t1, a1);
            }
            self.tree.remove(j);
            let last = self.array.len() - 1;
            if slot == last {
                self.array.pop();
                proof {
                    assert(self.array@ =~= a1.drop_last());
                    lemma_index_pop(t1, a1, rm, slot, self.tree@, self.array@);
                }
            } else {
                let moved = self.array[last];
                proof {
                    assert(tree_maps(t1, a1[last as int], last as int));
                    let k = choose|k: int|
                        0 <= k < t1.len() && t1[k].0 == a1[last as int] && t1[k].1 as int
                            == last as int;
                    let pm = t1[k];
                    assert(t1.to_set().contains(pm)) by {
                        assert(t1.contains(pm));
                    }
                    assert(pm != t1[j as int]);
                    assert(self.tree@.to_set().contains(pm));
                    assert(self.tree@.contains(pm));
                    let k2 = choose|k2: int| 0 <= k2 < self.tree@.len() && self.tree@[k2] == pm;
                    assert(range_has_entry(self.tree@, 0, self.tree@.len() as int, moved)) by {
                        assert(self.tree@[k2].0 == moved);
                    }
                }
                let j2 = tree_position(&self.tree, &moved);
                let slot2 = self.tree[j2].1;
                let ghost t2 = self.tree@;
                proof {
                    assert(t2.to_set().contains(t2[j2 as int])) by {
                        assert(t2.contains(t2[j2 as int]));
                    }
                    assert(t1.to_set().contains(t2[j2 as int]));
                    assert(a1[slot2 as int] == moved);
                    assert(slot2 as int == last as int) by {
                        if slot2 as int != last as int {
                            assert(a1[slot2 as int] == a1[last as int]);
                        }
                    }
                    lemma_pairs_sorted_no_duplicates(t2);
                    lemma_to_set_remove(t2, j2 as int);
                    lemma_pairs_sorted_remove(t2, j2 as int);
                }
                self.tree.remove(j2);
                proof {
                    assert(!range_has_entry(self.tree@, 0, self.tree@.len() as int, moved)) by {
                        if range_has_entry(self.tree@, 0, self.tree@.len() as int, moved) {
                            let k = choose|k: int|
                                0 <= k < self.tree@.len() && self.tree@[k].0 == moved;
                            let p = self.tree@[k];
                            assert(self.tree@.to_set().contains(p)) by {
                                assert(self.tree@.contains(p));
                            }
                            assert(t2.to_set().contains(p));
                            assert(t1.to_set().contains(p));
                            assert(a1[p.1 as int] == moved);
                            assert(p.1 as int == last as int) by {
                                if p.1 as int != last as int {
                                    assert(a1[p.1 as int] == a1[last as int]);
                                }
                            }
                            assert(p == (moved, (a1.len() - 1) as usize));
                        }
                    }
                }
                self.array.pop();
                self.array[slot] = moved;
                tree_insert_pair(&mut self.tree, moved, slot);
                insert_slot_sorted(&mut ws, slot);
                proof {
                    assert(self.array@ =~= a1.drop_last().update(slot as int, moved));
                    assert(self.tree@.to_set() =~= t1.to_set().remove((rm, slot)).remove(
                        (moved, (a1.len() - 1) as usize),
                    ).insert((moved, slot)));
                    lemma_index_relocate(t1, a1, rm, slot, moved, self.tree@, self.array@);
                }
            }
            i = i + 1;
            proof {
                let rpost = removed@.subrange(0, i as int);
                assert(rpost =~= rpre.push(rm));
                lemma_to_set_push(rpre, rm);
                assert forall|e: Entry| #[trigger]
                    self.array@.to_set().contains(e) <==> ((arr0.to_set().contains(e)
                        && !rpost.to_set().contains(e)) || added@.subrange(
                        0,
                        a_len as int,
                    ).to_set().contains(e)) by {}
                assert forall|s: int|
                    0 <= s < self.array@.len() && s < arr0.len() && !slot_in(ws@, s) implies
                    self.array@[s] == arr0[s] by {
                    assert(s < a1.len());
                    if s != slot as int {
                        assert(self.array@[s] == a1[s]);
                    }
                }
            }
        }
        }
        proof {
            assert(added@.subrange(0, a_len as int) =~= added@);
            if i == r_len {
                assert(removed@.subrange(0, r_len as int) =~= removed@);
            } else {
                assert(m == r_len);
                assert(removed@.subrange(0, m as int) =~= removed@);
            }
            assert(self.array@.to_set() =~= arr0.to_set().difference(removed@.to_set()).union(
                added@.to_set(),
            ));
        }
        ws
    }

    /// Generate a [`MeshPatch`] that modifies the previously committed
    /// state into the current staged state.
    ///
    /// The baseline is brought in line with the overlay for every touched
    /// key; untouched keys keep their committed entries and their slots.
    /// The overlay and the touched-key set are left as they are.  The patch
    /// never holds more writes than there are added plus removed entries,
    /// and a commit with nothing to do yields a patch with no writes.
    #[verifier::rlimit(60)]
    #[must_use]
    pub fn commit(&mut self) -> (patch: MeshPatch)
        requires
            old(self).inv(),
        ensures
            final(self).inv(),
            final(self).overlay() == old(self).overlay(),
            final(self).touched() == old(self).touched(),
            final(self).baseline().to_set() == old(self).desired(),
            final(self).baseline().no_duplicates(),
            final(self).baseline().len() == old(self).desired().len(),
            patch_describes(patch, old(self).baseline(), final(self).baseline()),
            patch.writes_indices@.len() <= old(self).added_of().len() + old(
                self,
            ).removed_of().len(),
            old(self).desired() == old(self).baseline().to_set() ==> patch.writes_indices@.len()
                == 0 && patch.new_len == old(self).baseline().len(),
    {
        let (added, removed) = self.collect_diff();
        let ghost base0 = self.array@;
        proof {
            added@.unique_seq_to_set();
            removed@.unique_seq_to_set();
            assert forall|x: Entry| #[trigger] added@.to_set().contains(x) implies !self
                .array@
                .to_set()
                .contains(x) by {}
            assert forall|x: Entry| #[trigger] removed@.to_set().contains(x) implies self
                .array@
                .to_set()
                .contains(x) by {}
            assert forall|x: Entry| #[trigger] added@.to_set().contains(x) implies !removed@
                .to_set()
                .contains(x) by {}
        }
        let ws = self.apply_diff(&added, &removed);
        let ghost a_count = added@.len();
        let ghost r_count = removed@.len();
        self.entry_vec_pool.put(added);
        self.entry_vec_pool.put(removed);
        let new_len = self.array.len();
        let mut writes_data: Vec<u64> = Vec::new();
        let mut writes_indices: Vec<usize> = Vec::new();
        let mut w: usize = 0;
        while w < ws.len()
            invariant
                w <= ws@.len(),
                new_len == self.array@.len(),
                forall|p: int, q: int| 0 <= p < q < ws@.len() ==> ws@[p] < ws@[q],
                writes_indices@.len() == writes_data@.len(),
                writes_indices@.len() <= w,
                forall|k: int|
                    0 <= k < writes_indices@.len() ==> (#[trigger] writes_indices@[k] as int)
                        < new_len && writes_data@[k] == self.array@[writes_indices@[k] as int].prim,
                forall|p: int, q: int|
                    0 <= p < q < writes_indices@.len() ==> writes_indices@[p] < writes_indices@[q],
                forall|s: int|
                    slot_in(writes_indices@, s) <==> (exists|k: int|
                        0 <= k < w && ws@[k] as int == s && s < new_len),
                writes_indices@.len() > 0 ==> exists|k2: int|
                    0 <= k2 < w && writes_indices@.last() == ws@[k2],
            decreases ws@.len() - w,
        {
            let s = ws[w];
            let ghost ind_pre = writes_indices@;
            if s < new_len {
                writes_data.push(self.array[s].prim);
                writes_indices.push(s);
                proof {
                    if ind_pre.len() > 0 {
                        let k2 = choose|k2: int| 0 <= k2 < w && ind_pre.last() == ws@[k2];
                        assert(ws@[k2] < ws@[w as int]);
                    }
                    assert forall|p: int, q: int|
                        0 <= p < q < writes_indices@.len() implies writes_indices@[p]
                        < writes_indices@[q] by {
                        if q < writes_indices@.len() - 1 {
                            assert(ind_pre[p] < ind_pre[q]);
                        } else {
                            if p < ind_pre.len() - 1 {
                                assert(ind_pre[p] < ind_pre.last());
                            }
                        }
                    }
                }
            }
            w = w + 1;
            proof {
                assert forall|s2: int|
                    slot_in(writes_indices@, s2) <==> (exists|k: int|
                        0 <= k < w && ws@[k] as int == s2 && s2 < new_len) by {
                    if slot_in(writes_indices@, s2) {
                        let k = choose|k: int|
                            0 <= k < writes_indices@.len() && writes_indices@[k] as int == s2;
                        if k < ind_pre.len() {
                            assert(slot_in(ind_pre, s2));
                            let k0 = choose|k0: int| 0 <= k0 < w - 1 && ws@[k0] as int == s2
                                && s2 < new_len;
                            assert(0 <= k0 < w && ws@[k0] as int == s2 && s2 < new_len);
                        } else {
                            assert(ws@[w - 1] as int == s2 && s2 < new_len);
                        }
                    }
                    if exists|k: int| 0 <= k < w && ws@[k] as int == s2 && s2 < new_len {
                        let k = choose|k: int| 0 <= k < w && ws@[k] as int == s2 && s2 < new_len;
                        if k < w - 1 {
                            assert(slot_in(ind_pre, s2));
                            let k1 = choose|k1: int|
                                0 <= k1 < ind_pre.len() && ind_pre[k1] as int == s2;
                            assert(writes_indices@[k1] as int == s2);
                        } else {
                            if ws@[w - 1] as int == s2 && s2 < new_len {
                                assert(writes_indices@[writes_indices@.len() - 1] as int == s2);
                            }
                        }
                    }
                }
            }
        }
        let patch = MeshPatch { new_len, writes_data, writes_indices };
        proof {
            lemma_array_no_duplicates(self.tree@, self.array@);
            // slot density: the dense array has exactly one slot per live entry
            self.array@.unique_seq_to_set();
            // the new baseline holds exactly the desired entries
            assert(self.array@.to_set() =~= old(self).desired()) by {
                assert(self.array@.to_set() == base0.to_set().difference(
                    old(self).removed_of(),
                ).union(old(self).added_of()));
            }
            // every slot the patch does not mention is unchanged
            assert forall|s: int|
                0 <= s < self.array@.len() && s < base0.len() && !slot_in(
                    patch.writes_indices@,
                    s,
                ) implies self.array@[s] == base0[s] by {
                assert(!slot_in(ws@, s)) by {
                    if slot_in(ws@, s) {
                        let k = choose|k: int| 0 <= k < ws@.len() && ws@[k] as int == s;
                        assert(0 <= k < ws@.len() && ws@[k] as int == s && s < new_len);
                        assert(slot_in(patch.writes_indices@, s));
                    }
                }
            }
            // every newly created slot got its entry written
            assert forall|s: int|
                base0.len() <= s < self.array@.len() implies slot_in(
                patch.writes_indices@,
                s,
            ) by {
                assert(slot_in(ws@, s));
                let k = choose|k: int| 0 <= k < ws@.len() && ws@[k] as int == s;
                assert(0 <= k < ws@.len() && ws@[k] as int == s && s < new_len);
            }
            // write-count accounting
            assert(patch.writes_indices@.len() <= a_count + r_count);
            if old(self).desired() == old(self).baseline().to_set() {
                assert(old(self).added_of() =~= Set::<Entry>::empty());
                assert(old(self).removed_of() =~= Set::<Entry>::empty());
                assert(a_count == 0 && r_count == 0);
            }
        }
        patch
    }

    /// Build a differ whose committed baseline already holds the given
    /// (key, primitive) pairs, with nothing staged.  Repeated pairs get
    /// distinct ordinals, exactly as staging them would.
    pub fn from_pairs(pairs: &Vec<(u64, u64)>) -> (d: MeshDiffer)
        ensures
            d.inv(),
            d.baseline().to_set() == paired_entry_set(pairs@),
            d.overlay() == Set::<Entry>::empty(),
            d.touched() == Set::<u64>::empty(),
    {
        let mut entries: Vec<Entry> = Vec::new();
        let mut i: usize = 0;
        while i < pairs.len()
            invariant
                i <= pairs@.len(),
                entries_sorted(entries@),
                forall|e: Entry| #[trigger]
                    entries@.to_set().contains(e) <==> e.ordinal < pairs@.subrange(
                        0,
                        i as int,
                    ).to_multiset().count((e.key, e.prim)),
            decreases pairs@.len() - i,
        {
            let (k, p) = pairs[i];
            let mut c: usize = 0;
            let mut j: usize = 0;
            while j < i
                invariant
                    j <= i <= pairs@.len(),
                    c <= j,
                    (k, p) == pairs@[i as int],
                    c == pairs@.subrange(0, j as int).to_multiset().count((k, p)),
                decreases i - j,
            {
                proof {
                    assert(pairs@.subrange(0, j as int + 1) =~= pairs@.subrange(0, j as int).push(
                        pairs@[j as int],
                    ));
                }
                if pairs[j].0 == k && pairs[j].1 == p {
                    c = c + 1;
                }
                j = j + 1;
            }
            let e = Entry { key: k, prim: p, ordinal: c };
            proof {
                assert(!entries@.to_set().contains(e));
            }
            insert_entry_sorted(&mut entries, e);
            proof {
                let pre = pairs@.subrange(0, i as int);
                let post = pairs@.subrange(0, i as int + 1);
                assert(post =~= pre.push(pairs@[i as int]));
                assert forall|x: Entry| #[trigger]
                    entries@.to_set().contains(x) <==> x.ordinal < post.to_multiset().count(
                        (x.key, x.prim),
                    ) by {
                    if (x.key, x.prim) == (k, p) {
                        assert(post.to_multiset().count((k, p)) == pre.to_multiset().count((k, p))
                            + 1);
                    } else {
                        assert(post.to_multiset().count((x.key, x.prim)) == pre.to_multiset().count(
                            (x.key, x.prim),
                        ));
                    }
                }
            }
            i = i + 1;
        }
        let mut tree: Vec<(Entry, usize)> = Vec::new();
        let mut t: usize = 0;
        while t < entries.len()
            invariant
                t <= entries@.len(),
                tree@.len() == t,
                forall|j2: int|
                    0 <= j2 < t ==> (#[trigger] tree@[j2]).0 == entries@[j2] && tree@[j2].1 as int
                        == j2,
            decreases entries@.len() - t,
        {
            tree.push((entries[t], t));
            t = t + 1;
        }
        let d = MeshDiffer {
            tree,
            array: entries,
            alter_entries: Vec::new(),
            alter_keys: Vec::new(),
            entry_vec_pool: Pool::new(VecPool, VEC_POOL_SIZE),
        };
        proof {
            assert(pairs@.subrange(0, pairs@.len() as int) =~= pairs@);
            assert(pairs_sorted(d.tree@));
            assert forall|pr: (Entry, usize)| #[trigger] d.tree@.to_set().contains(pr) implies pr.1
                < d.array@.len() && d.array@[pr.1 as int] == pr.0 by {
                assert(d.tree@.contains(pr));
                let j2 = choose|j2: int| 0 <= j2 < d.tree@.len() && d.tree@[j2] == pr;
            }
            assert forall|i2: int| 0 <= i2 < d.array@.len() implies #[trigger] tree_maps(
                d.tree@,
                d.array@[i2],
                i2,
            ) by {
                assert(d.tree@[i2].0 == d.array@[i2] && d.tree@[i2].1 as int == i2);
            }
            assert(d.baseline().to_set() =~= paired_entry_set(pairs@));
            assert(d.overlay() =~= Set::<Entry>::empty());
            assert(d.touched() =~= Set::<u64>::empty());
        }
        d
    }

}

} // verus!
