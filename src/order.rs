//! Unsigned byte-lexicographic order on byte strings.
use vstd::prelude::*;

verus! {

/// `a` sorts strictly before `b`: at the first differing position the byte of
/// `a` is smaller, or `a` is a proper prefix of `b`.
pub open spec fn byte_lt(a: Seq<u8>, b: Seq<u8>) -> bool
    decreases a.len(),
{
    if b.len() == 0 {
        false
    } else if a.len() == 0 {
        true
    } else if a[0] != b[0] {
        a[0] < b[0]
    } else {
        byte_lt(a.drop_first(), b.drop_first())
    }
}

/// Outcome of a three-way comparison.
#[derive(Clone, Copy, Debug, PartialEq, Eq, Structural)]
pub enum Cmp {
    Less,
    Equal,
    Greater,
}

/// `k` lies in the half-open interval `[start, end)`.
pub open spec fn in_range(k: Seq<u8>, start: Seq<u8>, end: Seq<u8>) -> bool {
    !byte_lt(k, start) && byte_lt(k, end)
}

pub proof fn lemma_lt_irreflexive(a: Seq<u8>)
    ensures
        !byte_lt(a, a),
    decreases a.len(),
{
    if a.len() > 0 {
        lemma_lt_irreflexive(a.drop_first());
    }
}

pub proof fn lemma_lt_transitive(a: Seq<u8>, b: Seq<u8>, c: Seq<u8>)
    requires
        byte_lt(a, b),
        byte_lt(b, c),
    ensures
        byte_lt(a, c),
    decreases a.len(),
{
    if a.len() > 0 && a[0] == b[0] && b[0] == c[0] {
        lemma_lt_transitive(a.drop_first(), b.drop_first(), c.drop_first());
    }
}

pub proof fn lemma_lt_total(a: Seq<u8>, b: Seq<u8>)
    ensures
        a == b || byte_lt(a, b) || byte_lt(b, a),
    decreases a.len(),
{
    if a.len() > 0 && b.len() > 0 && a[0] == b[0] {
        lemma_lt_total(a.drop_first(), b.drop_first());
        if a.drop_first() == b.drop_first() {
            assert(a =~= seq![a[0]] + a.drop_first());
            assert(b =~= seq![b[0]] + b.drop_first());
        }
    } else if a.len() == 0 && b.len() == 0 {
        assert(a =~= b);
    }
}

/// The order is a strict total order.
pub proof fn lemma_order_facts()
    ensures
        forall|a: Seq<u8>| !#[trigger] byte_lt(a, a),
        forall|a: Seq<u8>, b: Seq<u8>, c: Seq<u8>|
            #[trigger] byte_lt(a, b) && #[trigger] byte_lt(b, c) ==> byte_lt(a, c),
        forall|a: Seq<u8>, b: Seq<u8>|
            a != b ==> #[trigger] byte_lt(a, b) || #[trigger] byte_lt(b, a),
        forall|a: Seq<u8>, b: Seq<u8>| #[trigger] byte_lt(a, b) ==> !byte_lt(b, a),
{
    assert forall|a: Seq<u8>| !#[trigger] byte_lt(a, a) by {
        lemma_lt_irreflexive(a);
    }
    assert forall|a: Seq<u8>, b: Seq<u8>, c: Seq<u8>|
        #[trigger] byte_lt(a, b) && #[trigger] byte_lt(b, c) implies byte_lt(a, c) by {
        lemma_lt_transitive(a, b, c);
    }
    assert forall|a: Seq<u8>, b: Seq<u8>|
        a != b implies #[trigger] byte_lt(a, b) || #[trigger] byte_lt(b, a) by {
        lemma_lt_total(a, b);
    }
    assert forall|a: Seq<u8>, b: Seq<u8>| #[trigger] byte_lt(a, b) implies !byte_lt(b, a) by {
        if byte_lt(b, a) {
            lemma_lt_transitive(a, b, a);
            lemma_lt_irreflexive(a);
        }
    }
}

proof fn lemma_lt_step(a: Seq<u8>, b: Seq<u8>, i: int)
    requires
        0 <= i < a.len(),
        i < b.len(),
        a[i] == b[i],
    ensures
        byte_lt(a.skip(i), b.skip(i)) == byte_lt(a.skip(i + 1), b.skip(i + 1)),
{
    assert(a.skip(i).drop_first() =~= a.skip(i + 1));
    assert(b.skip(i).drop_first() =~= b.skip(i + 1));
}

/// Three-way comparison of two byte strings in byte-lexicographic order.
pub fn compare_bytes(a: &[u8], b: &[u8]) -> (r: Cmp)
    ensures
        (r == Cmp::Less) == byte_lt(a@, b@),
        (r == Cmp::Equal) == (a@ == b@),
        (r == Cmp::Greater) == byte_lt(b@, a@),
{
    proof {
        lemma_order_facts();
        assert(a@.skip(0) =~= a@);
        assert(b@.skip(0) =~= b@);
    }
    let mut i: usize = 0;
    while i < a.len() && i < b.len()
        invariant
            i <= a@.len(),
            i <= b@.len(),
            a@.subrange(0, i as int) =~= b@.subrange(0, i as int),
            byte_lt(a@, b@) == byte_lt(a@.skip(i as int), b@.skip(i as int)),
            byte_lt(b@, a@) == byte_lt(b@.skip(i as int), a@.skip(i as int)),
            forall|a: Seq<u8>| !#[trigger] byte_lt(a, a),
            forall|a: Seq<u8>, b: Seq<u8>| #[trigger] byte_lt(a, b) ==> !byte_lt(b, a),
        decreases a@.len() - i,
    {
        if a[i] < b[i] {
            assert(a@ != b@);
            return Cmp::Less;
        } else if a[i] > b[i] {
            assert(a@ != b@);
            return Cmp::Greater;
        }
        proof {
            lemma_lt_step(a@, b@, i as int);
            lemma_lt_step(b@, a@, i as int);
        }
        i = i + 1;
    }
    if a.len() < b.len() {
        assert(a@.len() != b@.len());
        Cmp::Less
    } else if a.len() > b.len() {
        assert(a@.len() != b@.len());
        Cmp::Greater
    } else {
        assert(a@ =~= a@.subrange(0, i as int));
        assert(b@ =~= b@.subrange(0, i as int));
        Cmp::Equal
    }
}

} // verus!
