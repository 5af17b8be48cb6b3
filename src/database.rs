//! The ordered store contract that every backend honours, stated over a map
//! from keys to values.
use crate::order::{byte_lt, in_range, lemma_lt_total, lemma_order_facts};
use vstd::prelude::*;
use vstd::utf8::encode_utf8;

verus! {

/// A backend failure: the operation was not applied.
#[derive(Clone, Debug, PartialEq, Eq)]
pub struct DbError {
    pub message: String,
}

impl DbError {
    pub fn new(message: String) -> (r: DbError)
        ensures
            r.message@ == message@,
    {
        DbError { message }
    }

    /// The text of the failure.
    pub fn to_string(&self) -> (r: String)
        ensures
            r@ == self.message@,
    {
        self.message.clone()
    }
}

/// The bytes of a failure's message, as it is sent to a client.
pub open spec fn message_bytes(e: DbError) -> Seq<u8> {
    encode_utf8(e.message@)
}

/// The value stored under `k`, if any.
pub open spec fn lookup(m: Map<Seq<u8>, Seq<u8>>, k: Seq<u8>) -> Option<Seq<u8>> {
    if m.contains_key(k) {
        Some(m[k])
    } else {
        None
    }
}

pub open spec fn opt_bytes_view(o: Option<Vec<u8>>) -> Option<Seq<u8>> {
    match o {
        Some(v) => Some(v@),
        None => None,
    }
}

pub open spec fn entry_view(e: (Vec<u8>, Vec<u8>)) -> (Seq<u8>, Seq<u8>) {
    (e.0@, e.1@)
}

pub open spec fn pairs_view(v: Seq<(Vec<u8>, Vec<u8>)>) -> Seq<(Seq<u8>, Seq<u8>)> {
    v.map_values(|e: (Vec<u8>, Vec<u8>)| entry_view(e))
}

/// Keys strictly increase along `r`.
pub open spec fn strictly_ascending(r: Seq<(Seq<u8>, Seq<u8>)>) -> bool {
    forall|i: int, j: int| 0 <= i < j < r.len() ==> byte_lt(#[trigger] r[i].0, #[trigger] r[j].0)
}

/// `r` lists, in ascending key order, exactly the entries of `m` whose key
/// lies in `[start, end)`.
pub open spec fn is_range_listing(
    m: Map<Seq<u8>, Seq<u8>>,
    start: Seq<u8>,
    end: Seq<u8>,
    r: Seq<(Seq<u8>, Seq<u8>)>,
) -> bool {
    &&& strictly_ascending(r)
    &&& forall|i: int|
        0 <= i < r.len() ==> {
            &&& in_range(#[trigger] r[i].0, start, end)
            &&& m.contains_key(r[i].0)
            &&& m[r[i].0] == r[i].1
        }
    &&& forall|k: Seq<u8>|
        m.contains_key(k) && in_range(k, start, end) ==> exists|i: int|
            0 <= i < r.len() && #[trigger] r[i].0 == k
}

/// `m` with every entry whose key lies in `[start, end)` taken out.
pub open spec fn without_range(m: Map<Seq<u8>, Seq<u8>>, start: Seq<u8>, end: Seq<u8>) -> Map<
    Seq<u8>,
    Seq<u8>,
> {
    Map::new(|k: Seq<u8>| m.contains_key(k) && !in_range(k, start, end), |k: Seq<u8>| m[k])
}

/// An ordered key-value store over byte strings. Every operation either
/// succeeds with the effect stated, or fails and leaves the contents as they
/// were.
pub trait Database: Sized {
    /// The store's internal invariant.
    ///
    /// `wf`, `contents` and `durable` have constant defaults only so that a
    /// store written outside the verifier can implement the trait. No
    /// contract of this trait holds of a store that keeps them: every
    /// verified implementation defines all three.
    open spec fn wf(&self) -> bool {
        true
    }

    /// The entries currently held, keyed by key.
    open spec fn contents(&self) -> Map<Seq<u8>, Seq<u8>> {
        Map::empty()
    }

    /// The entries that persistent state holds: what opening the store's
    /// location again would find.
    open spec fn durable(&self) -> Map<Seq<u8>, Seq<u8>> {
        Map::empty()
    }

    /// Opens or creates a store at a backend-specific location.
    fn open(path: &str) -> (r: Result<Self, DbError>)
        ensures
            r matches Ok(s) ==> s.wf(),
    ;

    /// Makes every change durable and releases backend resources.
    fn close(&mut self) -> (r: Result<(), DbError>)
        requires
            old(self).wf(),
        ensures
            final(self).wf(),
            final(self).contents() == old(self).contents(),
            r is Ok ==> final(self).durable() == final(self).contents(),
    ;

    /// Inserts `key` with `value`, replacing any earlier value.
    fn add(&mut self, key: &[u8], value: &[u8]) -> (r: Result<(), DbError>)
        requires
            old(self).wf(),
        ensures
            final(self).wf(),
            r is Ok ==> final(self).contents() == old(self).contents().insert(key@, value@),
            r is Err ==> final(self).contents() == old(self).contents(),
    ;

    /// The value stored under `key`, or `None`.
    fn select(&self, key: &[u8]) -> (r: Result<Option<Vec<u8>>, DbError>)
        requires
            self.wf(),
        ensures
            r matches Ok(o) ==> opt_bytes_view(o) == lookup(self.contents(), key@),
    ;

    /// Deletes the entry under `key`; nothing happens where there is none.
    fn remove(&mut self, key: &[u8]) -> (r: Result<(), DbError>)
        requires
            old(self).wf(),
        ensures
            final(self).wf(),
            r is Ok ==> final(self).contents() == old(self).contents().remove(key@),
            r is Err ==> final(self).contents() == old(self).contents(),
    ;

    /// Every entry whose key lies in `[start, end)`, ascending by key.
    fn select_range(&self, start: &[u8], end: &[u8]) -> (r: Result<
        Vec<(Vec<u8>, Vec<u8>)>,
        DbError,
    >)
        requires
            self.wf(),
        ensures
            r matches Ok(v) ==> is_range_listing(self.contents(), start@, end@, pairs_view(v@)),
    ;

    /// Removes every entry whose key lies in `[start, end)` and returns them,
    /// ascending by key.
    fn remove_range(&mut self, start: &[u8], end: &[u8]) -> (r: Result<
        Vec<(Vec<u8>, Vec<u8>)>,
        DbError,
    >)
        requires
            old(self).wf(),
        ensures
            final(self).wf(),
            r matches Ok(v) ==> {
                &&& is_range_listing(old(self).contents(), start@, end@, pairs_view(v@))
                &&& final(self).contents() == without_range(old(self).contents(), start@, end@)
            },
            r is Err ==> final(self).contents() == old(self).contents(),
    ;

    /// Makes every earlier change durable.
    fn flush(&mut self) -> (r: Result<(), DbError>)
        requires
            old(self).wf(),
        ensures
            final(self).wf(),
            final(self).contents() == old(self).contents(),
            r is Ok ==> final(self).durable() == final(self).contents(),
    ;
}

/// After `add(k, v)`, `select(k)` yields `v`.
pub proof fn law_add_then_select(m: Map<Seq<u8>, Seq<u8>>, k: Seq<u8>, v: Seq<u8>)
    ensures
        lookup(m.insert(k, v), k) == Some(v),
{
}

/// After `remove(k)`, `select(k)` yields nothing, whatever was stored.
pub proof fn law_remove_then_select(m: Map<Seq<u8>, Seq<u8>>, k: Seq<u8>)
    ensures
        lookup(m.remove(k), k) is None,
{
}

/// Adding the same entry twice leaves the contents as adding it once.
pub proof fn law_add_idempotent(m: Map<Seq<u8>, Seq<u8>>, k: Seq<u8>, v: Seq<u8>)
    ensures
        m.insert(k, v).insert(k, v) == m.insert(k, v),
{
    assert(m.insert(k, v).insert(k, v) =~= m.insert(k, v));
}

/// A range listing holds only keys of the interval, each pair of neighbours
/// in strictly increasing byte order.
pub proof fn law_range_listing_bounds(
    m: Map<Seq<u8>, Seq<u8>>,
    start: Seq<u8>,
    end: Seq<u8>,
    r: Seq<(Seq<u8>, Seq<u8>)>,
)
    requires
        is_range_listing(m, start, end, r),
    ensures
        forall|i: int| 0 <= i < r.len() ==> in_range(#[trigger] r[i].0, start, end),
        forall|i: int| 0 <= i < r.len() - 1 ==> byte_lt(#[trigger] r[i].0, r[i + 1].0),
{
    assert forall|i: int| 0 <= i < r.len() - 1 implies byte_lt(#[trigger] r[i].0, r[i + 1].0) by {
        assert(byte_lt(r[i].0, r[i + 1].0));
    }
}

/// Two listings of the same entries over the same interval are equal.
pub proof fn lemma_range_listing_unique(
    m: Map<Seq<u8>, Seq<u8>>,
    start: Seq<u8>,
    end: Seq<u8>,
    r1: Seq<(Seq<u8>, Seq<u8>)>,
    r2: Seq<(Seq<u8>, Seq<u8>)>,
)
    requires
        is_range_listing(m, start, end, r1),
        is_range_listing(m, start, end, r2),
    ensures
        r1 == r2,
    decreases r1.len() + r2.len(),
{
    lemma_order_facts();
    if r1.len() == 0 {
        if r2.len() > 0 {
            assert(m.contains_key(r2[0].0) && in_range(r2[0].0, start, end));
        }
        assert(r1 =~= r2);
        return;
    }
    if r2.len() == 0 {
        assert(m.contains_key(r1[0].0) && in_range(r1[0].0, start, end));
        return;
    }
    // The first entries agree: each is the least key of the other listing.
    let k1 = r1[0].0;
    let k2 = r2[0].0;
    assert(m.contains_key(k1) && in_range(k1, start, end));
    assert(m.contains_key(k2) && in_range(k2, start, end));
    let j = choose|j: int| 0 <= j < r2.len() && #[trigger] r2[j].0 == k1;
    let i = choose|i: int| 0 <= i < r1.len() && #[trigger] r1[i].0 == k2;
    if k1 != k2 {
        assert(j > 0 && i > 0);
        assert(byte_lt(k2, k1));
        assert(byte_lt(k1, k2));
    }
    assert(r1[0] == r2[0]);
    // The rest lists the same entries over keys above the first.
    let t1 = r1.drop_first();
    let t2 = r2.drop_first();
    let m2 = m.remove(k1);
    assert forall|k: Seq<u8>| m2.contains_key(k) && in_range(k, start, end) implies exists|x: int|
        0 <= x < t1.len() && #[trigger] t1[x].0 == k by {
        let x = choose|x: int| 0 <= x < r1.len() && #[trigger] r1[x].0 == k;
        assert(x > 0);
        assert(t1[x - 1].0 == k);
    }
    assert forall|k: Seq<u8>| m2.contains_key(k) && in_range(k, start, end) implies exists|x: int|
        0 <= x < t2.len() && #[trigger] t2[x].0 == k by {
        let x = choose|x: int| 0 <= x < r2.len() && #[trigger] r2[x].0 == k;
        assert(x > 0);
        assert(t2[x - 1].0 == k);
    }
    assert forall|x: int| 0 <= x < t1.len() implies m2.contains_key(#[trigger] t1[x].0) by {
        assert(byte_lt(r1[0].0, r1[x + 1].0));
    }
    assert forall|x: int| 0 <= x < t2.len() implies m2.contains_key(#[trigger] t2[x].0) by {
        assert(byte_lt(r2[0].0, r2[x + 1].0));
    }
    assert(is_range_listing(m2, start, end, t1));
    assert(is_range_listing(m2, start, end, t2));
    lemma_range_listing_unique(m2, start, end, t1, t2);
    assert(r1 =~= seq![r1[0]] + t1);
    assert(r2 =~= seq![r2[0]] + t2);
}

/// What `remove_range` returns is exactly what `select_range` returns on the
/// same contents, and afterwards the interval lists nothing.
pub proof fn law_remove_range_matches_select_range(
    m: Map<Seq<u8>, Seq<u8>>,
    start: Seq<u8>,
    end: Seq<u8>,
    selected: Seq<(Seq<u8>, Seq<u8>)>,
    removed: Seq<(Seq<u8>, Seq<u8>)>,
    after: Seq<(Seq<u8>, Seq<u8>)>,
)
    requires
        is_range_listing(m, start, end, selected),
        is_range_listing(m, start, end, removed),
        is_range_listing(without_range(m, start, end), start, end, after),
    ensures
        removed == selected,
        after.len() == 0,
{
    lemma_range_listing_unique(m, start, end, selected, removed);
    if after.len() > 0 {
        assert(without_range(m, start, end).contains_key(after[0].0));
    }
}

/// An empty or inverted interval lists nothing.
pub proof fn law_empty_interval(
    m: Map<Seq<u8>, Seq<u8>>,
    start: Seq<u8>,
    end: Seq<u8>,
    r: Seq<(Seq<u8>, Seq<u8>)>,
)
    requires
        !byte_lt(start, end),
        is_range_listing(m, start, end, r),
    ensures
        r.len() == 0,
{
    lemma_order_facts();
    if r.len() > 0 {
        let k = r[0].0;
        assert(in_range(k, start, end));
        lemma_lt_total(start, end);
        if start != end {
            assert(byte_lt(end, start));
            assert(byte_lt(k, start));
        }
    }
}

} // verus!
