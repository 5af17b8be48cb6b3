//! A store held in memory as a vector of entries sorted by key.
use crate::database::{
    entry_view, is_range_listing, pairs_view, strictly_ascending, without_range, Database, DbError,
};
use crate::order::{byte_lt, compare_bytes, in_range, lemma_lt_total, lemma_order_facts, Cmp};
use vstd::prelude::*;
use vstd::slice::slice_to_vec;

verus! {

/// The map that a key-sorted sequence of entries stands for.
pub open spec fn entries_map(s: Seq<(Seq<u8>, Seq<u8>)>) -> Map<Seq<u8>, Seq<u8>> {
    Map::new(
        |k: Seq<u8>| exists|i: int| 0 <= i < s.len() && #[trigger] s[i].0 == k,
        |k: Seq<u8>| s[choose|i: int| 0 <= i < s.len() && #[trigger] s[i].0 == k].1,
    )
}

/// Each entry of a key-sorted sequence is what the map holds under its key.
proof fn lemma_entries_map_index(s: Seq<(Seq<u8>, Seq<u8>)>, i: int)
    requires
        strictly_ascending(s),
        0 <= i < s.len(),
    ensures
        entries_map(s).contains_key(s[i].0),
        entries_map(s)[s[i].0] == s[i].1,
{
    lemma_order_facts();
    let k = s[i].0;
    assert(exists|x: int| 0 <= x < s.len() && #[trigger] s[x].0 == k);
    let j = choose|x: int| 0 <= x < s.len() && #[trigger] s[x].0 == k;
    if j < i {
        assert(byte_lt(s[j].0, s[i].0));
    } else if j > i {
        assert(byte_lt(s[i].0, s[j].0));
    }
}

pub proof fn lemma_entries_map_all(s: Seq<(Seq<u8>, Seq<u8>)>)
    requires
        strictly_ascending(s),
    ensures
        forall|i: int|
            0 <= i < s.len() ==> {
                &&& entries_map(s).contains_key(#[trigger] s[i].0)
                &&& entries_map(s)[s[i].0] == s[i].1
            },
{
    assert forall|i: int| 0 <= i < s.len() implies {
        &&& entries_map(s).contains_key(#[trigger] s[i].0)
        &&& entries_map(s)[s[i].0] == s[i].1
    } by {
        lemma_entries_map_index(s, i);
    }
}

/// A store that keeps its entries in memory, sorted by key.
#[derive(Clone, Debug)]
pub struct MemoryDatabase {
    entries: Vec<(Vec<u8>, Vec<u8>)>,
}

fn copy_bytes(b: &Vec<u8>) -> (r: Vec<u8>)
    ensures
        r@ == b@,
{
    slice_to_vec(b.as_slice())
}

impl MemoryDatabase {
    /// The entries in key order.
    pub closed spec fn entry_seq(&self) -> Seq<(Seq<u8>, Seq<u8>)> {
        pairs_view(self.entries@)
    }

    /// The first position whose key is not below `key`.
    fn lower_bound(&self, key: &[u8]) -> (i: usize)
        requires
            strictly_ascending(self.entry_seq()),
        ensures
            i <= self.entry_seq().len(),
            forall|j: int| 0 <= j < i ==> byte_lt(#[trigger] self.entry_seq()[j].0, key@),
            forall|j: int|
                i <= j < self.entry_seq().len() ==> !byte_lt(
                    #[trigger] self.entry_seq()[j].0,
                    key@,
                ),
    {
        let ghost s = self.entry_seq();
        proof {
            lemma_order_facts();
        }
        let mut lo: usize = 0;
        let mut hi: usize = self.entries.len();
        while lo < hi
            invariant
                s == self.entry_seq(),
                s.len() == self.entries@.len(),
                strictly_ascending(s),
                lo <= hi <= s.len(),
                forall|j: int| 0 <= j < lo ==> byte_lt(#[trigger] s[j].0, key@),
                forall|j: int| hi <= j < s.len() ==> !byte_lt(#[trigger] s[j].0, key@),
                forall|a: Seq<u8>, b: Seq<u8>, c: Seq<u8>|
                    #[trigger] byte_lt(a, b) && #[trigger] byte_lt(b, c) ==> byte_lt(a, c),
            decreases hi - lo,
        {
            let mid = lo + (hi - lo) / 2;
            assert(s[mid as int].0 == self.entries@[mid as int].0@);
            if compare_bytes(self.entries[mid].0.as_slice(), key) == Cmp::Less {
                assert forall|j: int| 0 <= j < mid + 1 implies byte_lt(#[trigger] s[j].0, key@) by {
                    if j < mid {
                        assert(byte_lt(s[j].0, s[mid as int].0));
                    }
                }
                lo = mid + 1;
            } else {
                assert forall|j: int| mid <= j < s.len() implies !byte_lt(#[trigger] s[j].0, key@) by {
                    if j > mid {
                        assert(byte_lt(s[mid as int].0, s[j].0));
                    }
                }
                hi = mid;
            }
        }
        lo
    }

    /// The positions `[lo, hi)` are exactly those whose key lies in
    /// `[start, end)`.
    fn range_bounds(&self, start: &[u8], end: &[u8]) -> (r: (usize, usize))
        requires
            strictly_ascending(self.entry_seq()),
        ensures
            r.0 <= r.1 <= self.entry_seq().len(),
            forall|j: int|
                0 <= j < self.entry_seq().len() ==> (in_range(
                    #[trigger] self.entry_seq()[j].0,
                    start@,
                    end@,
                ) <==> r.0 <= j < r.1),
            forall|j: int| 0 <= j < r.0 ==> byte_lt(#[trigger] self.entry_seq()[j].0, start@),
            forall|j: int|
                r.1 <= j < self.entry_seq().len() ==> !byte_lt(
                    #[trigger] self.entry_seq()[j].0,
                    end@,
                ),
    {
        let ghost s = self.entry_seq();
        proof {
            lemma_order_facts();
        }
        let lo = self.lower_bound(start);
        let mut hi = lo;
        while hi < self.entries.len() && compare_bytes(self.entries[hi].0.as_slice(), end)
            == Cmp::Less
            invariant
                s == self.entry_seq(),
                s.len() == self.entries@.len(),
                lo <= hi <= s.len(),
                forall|j: int| lo <= j < hi ==> byte_lt(#[trigger] s[j].0, end@),
            decreases s.len() - hi,
        {
            assert(s[hi as int].0 == self.entries@[hi as int].0@);
            hi = hi + 1;
        }
        if hi < self.entries.len() {
            assert(s[hi as int].0 == self.entries@[hi as int].0@);
        }
        assert forall|j: int| hi <= j < s.len() implies !byte_lt(#[trigger] s[j].0, end@) by {
            if j > hi {
                assert(byte_lt(s[hi as int].0, s[j].0));
            }
        }
        (lo, hi)
    }
}

impl Database for MemoryDatabase {
    open spec fn wf(&self) -> bool {
        strictly_ascending(self.entry_seq())
    }

    open spec fn contents(&self) -> Map<Seq<u8>, Seq<u8>> {
        entries_map(self.entry_seq())
    }

    /// Nothing is buffered: what is held is all there is.
    open spec fn durable(&self) -> Map<Seq<u8>, Seq<u8>> {
        self.contents()
    }

    /// Creates an empty store; the location is not used.
    fn open(path: &str) -> (r: Result<Self, DbError>)
        ensures
            r matches Ok(s) && s.wf() && s.contents() == Map::<Seq<u8>, Seq<u8>>::empty(),
    {
        Ok(MemoryDatabase::new())
    }

    fn close(&mut self) -> (r: Result<(), DbError>)
        ensures
            r is Ok,
    {
        Ok(())
    }

    fn add(&mut self, key: &[u8], value: &[u8]) -> (r: Result<(), DbError>)
        ensures
            r is Ok,
    {
        let ghost s = self.entry_seq();
        let ghost m = self.contents();
        proof {
            lemma_order_facts();
            lemma_entries_map_all(s);
        }
        let i = self.lower_bound(key);
        let k = slice_to_vec(key);
        let v = slice_to_vec(value);
        let found = i < self.entries.len() && compare_bytes(self.entries[i].0.as_slice(), key)
            == Cmp::Equal;
        if found {
            assert(s[i as int].0 == self.entries@[i as int].0@);
            assert(s[i as int].0 == key@);
            self.entries.set(i, (k, v));
            let ghost s2 = self.entry_seq();
            assert(s2 =~= s.update(i as int, (key@, value@)));
            assert forall|j: int| 0 <= j < s2.len() implies #[trigger] s2[j].0 == s[j].0 by {}
            assert(strictly_ascending(s2));
            proof {
                lemma_entries_map_all(s2);
            }
            assert forall|x: Seq<u8>| #[trigger]
                self.contents().contains_key(x) <==> m.insert(key@, value@).contains_key(x) by {
                if self.contents().contains_key(x) {
                    let j = choose|j: int| 0 <= j < s2.len() && #[trigger] s2[j].0 == x;
                    assert(s2[j].0 == s[j].0);
                }
                if m.contains_key(x) {
                    let j = choose|j: int| 0 <= j < s.len() && #[trigger] s[j].0 == x;
                    assert(s2[j].0 == s[j].0);
                }
            }
            assert forall|x: Seq<u8>| #[trigger] self.contents().contains_key(x) implies self.contents()[x]
                == m.insert(key@, value@)[x] by {
                let j = choose|j: int| 0 <= j < s2.len() && #[trigger] s2[j].0 == x;
                assert(s2[j].0 == s[j].0);
            }
            assert(self.contents() =~= m.insert(key@, value@));
        } else {
            assert forall|j: int| i <= j < s.len() implies byte_lt(key@, #[trigger] s[j].0) by {
                if j > i {
                    assert(byte_lt(s[i as int].0, s[j].0));
                }
                lemma_lt_total(key@, s[j].0);
                if j == i {
                    assert(s[i as int].0 == self.entries@[i as int].0@);
                }
            }
            self.entries.insert(i, (k, v));
            let ghost s2 = self.entry_seq();
            assert(s2 =~= s.insert(i as int, (key@, value@)));
            assert(s2[i as int].0 == key@);
            assert forall|a: int, b: int| 0 <= a < b < s2.len() implies byte_lt(
                #[trigger] s2[a].0,
                #[trigger] s2[b].0,
            ) by {
                if b < i {
                } else if a < i && b == i {
                } else if a < i {
                    assert(byte_lt(s[a].0, s[b - 1].0));
                } else if a == i {
                    assert(s2[b].0 == s[b - 1].0);
                } else {
                    assert(byte_lt(s[a - 1].0, s[b - 1].0));
                }
            }
            proof {
                lemma_entries_map_all(s2);
            }
            assert forall|x: Seq<u8>| #[trigger]
                self.contents().contains_key(x) <==> m.insert(key@, value@).contains_key(x) by {
                if self.contents().contains_key(x) {
                    let j = choose|j: int| 0 <= j < s2.len() && #[trigger] s2[j].0 == x;
                    if j < i {
                        assert(s2[j] == s[j]);
                    } else if j > i {
                        assert(s2[j] == s[j - 1]);
                    }
                }
                if m.contains_key(x) {
                    let j = choose|j: int| 0 <= j < s.len() && #[trigger] s[j].0 == x;
                    if j < i {
                        assert(s2[j] == s[j]);
                    } else {
                        assert(s2[j + 1] == s[j]);
                    }
                }
            }
            assert forall|x: Seq<u8>| #[trigger] self.contents().contains_key(x) implies self.contents()[x]
                == m.insert(key@, value@)[x] by {
                let j = choose|j: int| 0 <= j < s2.len() && #[trigger] s2[j].0 == x;
                if j < i {
                    assert(s2[j] == s[j]);
                } else if j > i {
                    assert(s2[j] == s[j - 1]);
                }
            }
            assert(self.contents() =~= m.insert(key@, value@));
        }
        Ok(())
    }

    fn select(&self, key: &[u8]) -> (r: Result<Option<Vec<u8>>, DbError>)
        ensures
            r is Ok,
    {
        let ghost s = self.entry_seq();
        proof {
            lemma_order_facts();
            lemma_entries_map_all(s);
        }
        let i = self.lower_bound(key);
        if i < self.entries.len() && compare_bytes(self.entries[i].0.as_slice(), key)
            == Cmp::Equal {
            let v = copy_bytes(&self.entries[i].1);
            assert(s[i as int] == entry_view(self.entries@[i as int]));
            assert(s[i as int].0 == key@);
            assert(self.contents()[key@] == v@);
            Ok(Some(v))
        } else {
            proof {
                if self.contents().contains_key(key@) {
                    let j = choose|j: int| 0 <= j < s.len() && #[trigger] s[j].0 == key@;
                    if j > i {
                        assert(byte_lt(s[i as int].0, s[j].0));
                    }
                    assert(s[i as int].0 == self.entries@[i as int].0@);
                }
            }
            Ok(None)
        }
    }

    fn remove(&mut self, key: &[u8]) -> (r: Result<(), DbError>)
        ensures
            r is Ok,
    {
        let ghost s = self.entry_seq();
        let ghost m = self.contents();
        proof {
            lemma_order_facts();
            lemma_entries_map_all(s);
        }
        let i = self.lower_bound(key);
        if i < self.entries.len() && compare_bytes(self.entries[i].0.as_slice(), key)
            == Cmp::Equal {
            assert(s[i as int].0 == key@);
            self.entries.remove(i);
            let ghost s2 = self.entry_seq();
            assert(s2 =~= s.remove(i as int));
            assert forall|a: int, b: int| 0 <= a < b < s2.len() implies byte_lt(
                #[trigger] s2[a].0,
                #[trigger] s2[b].0,
            ) by {
                if b < i {
                } else if a < i {
                    assert(byte_lt(s[a].0, s[b + 1].0));
                } else {
                    assert(byte_lt(s[a + 1].0, s[b + 1].0));
                }
            }
            proof {
                lemma_entries_map_all(s2);
            }
            assert forall|x: Seq<u8>| #[trigger]
                self.contents().contains_key(x) <==> m.remove(key@).contains_key(x) by {
                if self.contents().contains_key(x) {
                    let j = choose|j: int| 0 <= j < s2.len() && #[trigger] s2[j].0 == x;
                    if j < i {
                        assert(s2[j] == s[j]);
                        assert(byte_lt(s[j].0, s[i as int].0));
                    } else {
                        assert(s2[j] == s[j + 1]);
                        assert(byte_lt(s[i as int].0, s[j + 1].0));
                    }
                }
                if m.remove(key@).contains_key(x) {
                    let j = choose|j: int| 0 <= j < s.len() && #[trigger] s[j].0 == x;
                    if j < i {
                        assert(s2[j] == s[j]);
                    } else {
                        assert(j != i);
                        assert(s2[j - 1] == s[j]);
                    }
                }
            }
            assert forall|x: Seq<u8>| #[trigger] self.contents().contains_key(x) implies self.contents()[x]
                == m.remove(key@)[x] by {
                let j = choose|j: int| 0 <= j < s2.len() && #[trigger] s2[j].0 == x;
                if j < i {
                    assert(s2[j] == s[j]);
                } else {
                    assert(s2[j] == s[j + 1]);
                }
            }
            assert(self.contents() =~= m.remove(key@));
        } else {
            assert forall|x: Seq<u8>| #[trigger] m.contains_key(x) implies x != key@ by {
                let j = choose|j: int| 0 <= j < s.len() && #[trigger] s[j].0 == x;
                if j > i {
                    assert(byte_lt(s[i as int].0, s[j].0));
                }
                if i < s.len() {
                    assert(s[i as int].0 == self.entries@[i as int].0@);
                }
            }
            assert(self.contents() =~= m.remove(key@));
        }
        Ok(())
    }

    fn select_range(&self, start: &[u8], end: &[u8]) -> (r: Result<
        Vec<(Vec<u8>, Vec<u8>)>,
        DbError,
    >)
        ensures
            r is Ok,
    {
        let ghost s = self.entry_seq();
        let (lo, hi) = self.range_bounds(start, end);
        let mut out: Vec<(Vec<u8>, Vec<u8>)> = Vec::new();
        let mut i = lo;
        while i < hi
            invariant
                s == self.entry_seq(),
                s.len() == self.entries@.len(),
                lo <= i <= hi <= s.len(),
                pairs_view(out@) =~= s.subrange(lo as int, i as int),
            decreases hi - i,
        {
            let k = copy_bytes(&self.entries[i].0);
            let v = copy_bytes(&self.entries[i].1);
            assert(s[i as int] == entry_view(self.entries@[i as int]));
            let ghost prev = out@;
            let ghost e = (k@, v@);
            assert(s[i as int] == e);
            out.push((k, v));
            assert(pairs_view(out@) =~= pairs_view(prev).push(e));
            i = i + 1;
        }
        proof {
            self.lemma_subrange_listing(start@, end@, lo as int, hi as int);
        }
        Ok(out)
    }

    fn remove_range(&mut self, start: &[u8], end: &[u8]) -> (r: Result<
        Vec<(Vec<u8>, Vec<u8>)>,
        DbError,
    >)
        ensures
            r is Ok,
    {
        let ghost s = self.entry_seq();
        let ghost m = self.contents();
        let (lo, hi) = self.range_bounds(start, end);
        proof {
            self.lemma_subrange_listing(start@, end@, lo as int, hi as int);
            lemma_order_facts();
            lemma_entries_map_all(s);
        }
        let mut tail = self.entries.split_off(hi);
        let removed = self.entries.split_off(lo);
        self.entries.append(&mut tail);
        let ghost s2 = self.entry_seq();
        assert(pairs_view(removed@) =~= s.subrange(lo as int, hi as int));
        assert(s2 =~= s.subrange(0, lo as int) + s.subrange(hi as int, s.len() as int));
        assert forall|a: int, b: int| 0 <= a < b < s2.len() implies byte_lt(
            #[trigger] s2[a].0,
            #[trigger] s2[b].0,
        ) by {
            let a0 = if a < lo { a } else { a + (hi - lo) };
            let b0 = if b < lo { b } else { b + (hi - lo) };
            assert(s2[a] == s[a0]);
            assert(s2[b] == s[b0]);
            assert(byte_lt(s[a0].0, s[b0].0));
        }
        proof {
            lemma_entries_map_all(s2);
        }
        let ghost w = without_range(m, start@, end@);
        assert forall|x: Seq<u8>| #[trigger] self.contents().contains_key(x) <==> w.contains_key(
            x,
        ) by {
            if self.contents().contains_key(x) {
                let j = choose|j: int| 0 <= j < s2.len() && #[trigger] s2[j].0 == x;
                let j0 = if j < lo { j } else { j + (hi - lo) };
                assert(s2[j] == s[j0]);
            }
            if w.contains_key(x) {
                let j = choose|j: int| 0 <= j < s.len() && #[trigger] s[j].0 == x;
                if j < lo {
                    assert(s2[j] == s[j]);
                } else {
                    assert(s2[j - (hi - lo)] == s[j]);
                }
            }
        }
        assert forall|x: Seq<u8>| #[trigger] self.contents().contains_key(x) implies self.contents()[x]
            == w[x] by {
            let j = choose|j: int| 0 <= j < s2.len() && #[trigger] s2[j].0 == x;
            let j0 = if j < lo { j } else { j + (hi - lo) };
            assert(s2[j] == s[j0]);
        }
        assert(self.contents() =~= w);
        Ok(removed)
    }

    fn flush(&mut self) -> (r: Result<(), DbError>)
        ensures
            r is Ok,
    {
        Ok(())
    }
}

impl MemoryDatabase {
    /// The entries in key order; they are what the store holds.
    pub proof fn lemma_entry_seq(&self)
        requires
            self.wf(),
        ensures
            strictly_ascending(self.entry_seq()),
            entries_map(self.entry_seq()) == self.contents(),
    {
    }

    /// An empty store.
    pub fn new() -> (r: Self)
        ensures
            r.wf(),
            r.contents() == Map::<Seq<u8>, Seq<u8>>::empty(),
    {
        let s = MemoryDatabase { entries: Vec::new() };
        assert(s.contents() =~= Map::<Seq<u8>, Seq<u8>>::empty());
        s
    }

    /// A copy of every entry, ascending by key.
    pub fn entries(&self) -> (r: Vec<(Vec<u8>, Vec<u8>)>)
        ensures
            pairs_view(r@) == self.entry_seq(),
    {
        let ghost s = self.entry_seq();
        let mut out: Vec<(Vec<u8>, Vec<u8>)> = Vec::new();
        let mut i: usize = 0;
        while i < self.entries.len()
            invariant
                s == self.entry_seq(),
                s.len() == self.entries@.len(),
                i <= s.len(),
                pairs_view(out@) =~= s.subrange(0, i as int),
            decreases s.len() - i,
        {
            let k = copy_bytes(&self.entries[i].0);
            let v = copy_bytes(&self.entries[i].1);
            assert(s[i as int] == entry_view(self.entries@[i as int]));
            let ghost prev = out@;
            let ghost e = (k@, v@);
            out.push((k, v));
            assert(pairs_view(out@) =~= pairs_view(prev).push(e));
            i = i + 1;
        }
        assert(s.subrange(0, i as int) =~= s);
        out
    }

    /// The positions `[lo, hi)` that `range_bounds` picks list the interval.
    proof fn lemma_subrange_listing(&self, start: Seq<u8>, end: Seq<u8>, lo: int, hi: int)
        requires
            self.wf(),
            0 <= lo <= hi <= self.entry_seq().len(),
            forall|j: int|
                0 <= j < self.entry_seq().len() ==> (in_range(
                    #[trigger] self.entry_seq()[j].0,
                    start,
                    end,
                ) <==> lo <= j < hi),
        ensures
            is_range_listing(self.contents(), start, end, self.entry_seq().subrange(lo, hi)),
    {
        let s = self.entry_seq();
        let r = s.subrange(lo, hi);
        lemma_entries_map_all(s);
        assert forall|i: int, j: int| 0 <= i < j < r.len() implies byte_lt(
            #[trigger] r[i].0,
            #[trigger] r[j].0,
        ) by {
            assert(r[i] == s[i + lo] && r[j] == s[j + lo]);
        }
        assert forall|i: int| 0 <= i < r.len() implies {
            &&& in_range(#[trigger] r[i].0, start, end)
            &&& self.contents().contains_key(r[i].0)
            &&& self.contents()[r[i].0] == r[i].1
        } by {
            assert(r[i] == s[i + lo]);
        }
        assert forall|k: Seq<u8>|
            self.contents().contains_key(k) && in_range(k, start, end) implies exists|i: int|
            0 <= i < r.len() && #[trigger] r[i].0 == k by {
            let j = choose|j: int| 0 <= j < s.len() && #[trigger] s[j].0 == k;
            assert(r[j - lo] == s[j]);
        }
    }
}

} // verus!
