//! The text form of a store: one `key,value` line per entry. Lines are
//! separated by `\n`; a `\r` that ends a line is dropped; a line with other
//! than exactly one `,`, or whose value would end in `\r`, holds no entry; a
//! later line for a key replaces an earlier one. Only clean entries (see
//! `clean_record`) are written, so that every entry written reads back.
use crate::database::{pairs_view, strictly_ascending, without_range, Database, DbError};
use crate::memory::{entries_map, lemma_entries_map_all, MemoryDatabase};
use crate::order::lemma_order_facts;
use vstd::prelude::*;
use vstd::string::StringExecFns;
use vstd::slice::{slice_subrange, slice_to_vec};

verus! {

/// `l` holds a comma at `c` and nowhere else.
pub open spec fn only_comma_at(l: Seq<u8>, c: int) -> bool {
    &&& 0 <= c < l.len()
    &&& l[c] == 44u8
    &&& forall|j: int| 0 <= j < l.len() && j != c ==> l[j] != 44u8
}

/// `l` without one `\r` at its end.
pub open spec fn trim_cr(l: Seq<u8>) -> Seq<u8> {
    if l.len() > 0 && l.last() == 13u8 {
        l.drop_last()
    } else {
        l
    }
}

/// A field that holds neither `,` nor `\n`.
pub open spec fn clean_field(f: Seq<u8>) -> bool {
    forall|i: int| 0 <= i < f.len() ==> f[i] != 44u8 && f[i] != 10u8
}

/// An entry whose line reads back as the same entry.
pub open spec fn clean_record(r: (Seq<u8>, Seq<u8>)) -> bool {
    &&& clean_field(r.0)
    &&& clean_field(r.1)
    &&& (r.1.len() > 0 ==> r.1.last() != 13u8)
}

/// The entry that one line holds, if any: the line without a final `\r`
/// must hold exactly one `,`, and the entry must be clean.
pub open spec fn line_record(l: Seq<u8>) -> Option<(Seq<u8>, Seq<u8>)> {
    let m = trim_cr(l);
    if exists|c: int| only_comma_at(m, c) {
        let c = choose|c: int| only_comma_at(m, c);
        let r = (m.subrange(0, c), m.subrange(c + 1, m.len() as int));
        if clean_record(r) {
            Some(r)
        } else {
            None
        }
    } else {
        None
    }
}

/// The entries of the lines of `t` from position `i` on, where the current
/// line began at `start`.
pub open spec fn records_scan(t: Seq<u8>, start: int, i: int) -> Seq<(Seq<u8>, Seq<u8>)>
    decreases t.len() - i,
{
    if i >= t.len() {
        if 0 <= start < t.len() {
            match line_record(t.subrange(start, t.len() as int)) {
                Some(r) => seq![r],
                None => Seq::empty(),
            }
        } else {
            Seq::empty()
        }
    } else if t[i] == 10u8 {
        let rest = records_scan(t, i + 1, i + 1);
        match line_record(t.subrange(start, i)) {
            Some(r) => seq![r] + rest,
            None => rest,
        }
    } else {
        records_scan(t, start, i + 1)
    }
}

/// The entries of the lines of `t`, in the order of the lines.
pub open spec fn csv_records(t: Seq<u8>) -> Seq<(Seq<u8>, Seq<u8>)> {
    records_scan(t, 0, 0)
}

/// The line of one entry.
pub open spec fn record_line(r: (Seq<u8>, Seq<u8>)) -> Seq<u8> {
    r.0 + seq![44u8] + r.1 + seq![10u8]
}

/// The text of a sequence of entries, one line each.
pub open spec fn csv_text(rs: Seq<(Seq<u8>, Seq<u8>)>) -> Seq<u8>
    decreases rs.len(),
{
    if rs.len() == 0 {
        Seq::empty()
    } else {
        csv_text(rs.drop_last()) + record_line(rs.last())
    }
}

fn clean_field_exec(f: &[u8]) -> (r: bool)
    ensures
        r == clean_field(f@),
{
    let mut i: usize = 0;
    while i < f.len()
        invariant
            i <= f@.len(),
            forall|j: int| 0 <= j < i ==> f@[j] != 44u8 && f@[j] != 10u8,
        decreases f@.len() - i,
    {
        if f[i] == 44u8 || f[i] == 10u8 {
            return false;
        }
        i = i + 1;
    }
    true
}

/// Whether an entry can be written as a line and read back unchanged.
pub fn csv_storable(key: &[u8], value: &[u8]) -> (r: bool)
    ensures
        r == clean_record((key@, value@)),
{
    clean_field_exec(key) && clean_field_exec(value) && (value.len() == 0 || value[value.len()
        - 1] != 13u8)
}

/// Every entry of `m` is clean.
pub open spec fn csv_clean(m: Map<Seq<u8>, Seq<u8>>) -> bool {
    forall|k: Seq<u8>| #[trigger] m.contains_key(k) ==> clean_record((k, m[k]))
}

/// Adds an entry to a store kept as CSV text, or refuses it where it cannot
/// be written and read back.
pub fn csv_add(db: &mut MemoryDatabase, key: &[u8], value: &[u8]) -> (r: Result<(), DbError>)
    requires
        old(db).wf(),
    ensures
        final(db).wf(),
        r is Ok <==> clean_record((key@, value@)),
        r is Ok ==> final(db).contents() == old(db).contents().insert(key@, value@),
        r is Err ==> final(db).contents() == old(db).contents(),
        csv_clean(old(db).contents()) ==> csv_clean(final(db).contents()),
{
    if csv_storable(key, value) {
        let r = db.add(key, value);
        assert(r is Ok);
        r
    } else {
        Err(DbError::new(String::from_str("entry holds a comma or a line break")))
    }
}

/// The entry that the line `t[start..end)` holds, if any.
fn split_record(t: &[u8], start: usize, end: usize) -> (r: Option<(Vec<u8>, Vec<u8>)>)
    requires
        start <= end <= t@.len(),
    ensures
        match r {
            Some(p) => line_record(t@.subrange(start as int, end as int)) == Some((p.0@, p.1@)),
            None => line_record(t@.subrange(start as int, end as int)) is None,
        },
{
    let ghost l = t@.subrange(start as int, end as int);
    let stop = if end > start && t[end - 1] == 13u8 {
        end - 1
    } else {
        end
    };
    let ghost m = t@.subrange(start as int, stop as int);
    assert(m =~= trim_cr(l));
    let mut first: usize = stop;
    let mut many = false;
    let mut i = start;
    while i < stop
        invariant
            start <= i <= stop <= end <= t@.len(),
            m == t@.subrange(start as int, stop as int),
            first == stop ==> forall|j: int| start <= j < i ==> t@[j] != 44u8,
            first != stop ==> start <= first < i && t@[first as int] == 44u8 && forall|j: int|
                start <= j < first ==> t@[j] != 44u8,
            first != stop && !many ==> forall|j: int|
                start <= j < i && j != first ==> t@[j] != 44u8,
            many ==> first != stop && exists|j: int|
                start <= j < i && j != first && #[trigger] t@[j] == 44u8,
        decreases stop - i,
    {
        if t[i] == 44u8 {
            if first == stop {
                first = i;
            } else {
                many = true;
            }
        }
        i = i + 1;
    }
    if first == stop || many {
        proof {
            assert forall|c: int| !only_comma_at(m, c) by {
                if only_comma_at(m, c) {
                    assert(m[c] == t@[start + c]);
                    if many {
                        let j = choose|j: int|
                            start <= j < stop && j != first && #[trigger] t@[j] == 44u8;
                        assert(m[first - start] == t@[first as int]);
                        assert(m[j - start] == t@[j]);
                    }
                }
            }
        }
        return None;
    }
    let ghost c = first - start;
    assert(only_comma_at(m, c)) by {
        assert forall|j: int| 0 <= j < m.len() && j != c implies m[j] != 44u8 by {
            assert(m[j] == t@[start + j]);
        }
    }
    proof {
        let c2 = choose|x: int| only_comma_at(m, x);
        if c2 != c {
            assert(m[c2] == 44u8);
        }
    }
    let key = slice_to_vec(slice_subrange(t, start, first));
    let value = slice_to_vec(slice_subrange(t, first + 1, stop));
    assert(key@ =~= m.subrange(0, c));
    assert(value@ =~= m.subrange(c + 1, m.len() as int));
    if csv_storable(key.as_slice(), value.as_slice()) {
        Some((key, value))
    } else {
        None
    }
}

/// The entries that a text holds, in the order of its lines.
pub fn parse_csv(t: &[u8]) -> (r: Vec<(Vec<u8>, Vec<u8>)>)
    ensures
        pairs_view(r@) == csv_records(t@),
{
    let mut out: Vec<(Vec<u8>, Vec<u8>)> = Vec::new();
    let mut start: usize = 0;
    let mut i: usize = 0;
    while i < t.len()
        invariant
            start <= i <= t@.len(),
            pairs_view(out@) + records_scan(t@, start as int, i as int) == csv_records(t@),
        decreases t@.len() - i,
    {
        if t[i] == 10u8 {
            let ghost prev = out@;
            let rec = split_record(t, start, i);
            match rec {
                Some(p) => {
                    let ghost e = (p.0@, p.1@);
                    out.push(p);
                    assert(pairs_view(out@) =~= pairs_view(prev).push(e));
                    assert(pairs_view(out@) + records_scan(t@, i + 1, i + 1) =~= pairs_view(prev)
                        + (seq![e] + records_scan(t@, i + 1, i + 1)));
                },
                None => {},
            }
            start = i + 1;
        }
        i = i + 1;
    }
    if start < t.len() {
        let ghost prev = out@;
        match split_record(t, start, t.len()) {
            Some(p) => {
                let ghost e = (p.0@, p.1@);
                out.push(p);
                assert(pairs_view(out@) =~= pairs_view(prev).push(e));
            },
            None => {},
        }
    }
    assert(pairs_view(out@) =~= pairs_view(out@) + Seq::<(Seq<u8>, Seq<u8>)>::empty());
    out
}

/// The contents that loading entries in order gives: a later entry for a key
/// replaces an earlier one.
pub open spec fn records_map(rs: Seq<(Seq<u8>, Seq<u8>)>) -> Map<Seq<u8>, Seq<u8>>
    decreases rs.len(),
{
    if rs.len() == 0 {
        Map::empty()
    } else {
        records_map(rs.drop_last()).insert(rs.last().0, rs.last().1)
    }
}

/// A store holding the entries of a text.
pub fn load_csv(t: &[u8]) -> (r: MemoryDatabase)
    ensures
        r.wf(),
        r.contents() == records_map(csv_records(t@)),
        csv_clean(r.contents()),
{
    proof {
        lemma_scan_clean(t@, 0, 0);
        lemma_records_map_clean(csv_records(t@));
    }
    let records = parse_csv(t);
    let ghost rs = pairs_view(records@);
    let mut db = MemoryDatabase::new();
    assert(rs.subrange(0, 0) =~= Seq::<(Seq<u8>, Seq<u8>)>::empty());
    let mut i: usize = 0;
    while i < records.len()
        invariant
            rs == pairs_view(records@),
            i <= records@.len(),
            db.wf(),
            db.contents() == records_map(rs.subrange(0, i as int)),
        decreases records@.len() - i,
    {
        let _ = db.add(records[i].0.as_slice(), records[i].1.as_slice());
        assert(rs.subrange(0, i + 1).drop_last() =~= rs.subrange(0, i as int));
        assert(rs[i as int] == (records@[i as int].0@, records@[i as int].1@));
        i = i + 1;
    }
    assert(rs.subrange(0, i as int) =~= rs);
    db
}

/// The text of a store: one line per entry, ascending by key.
pub fn render_csv(db: &MemoryDatabase) -> (r: Vec<u8>)
    ensures
        r@ == csv_text(db.entry_seq()),
{
    let entries = db.entries();
    let ghost rs = pairs_view(entries@);
    let mut out: Vec<u8> = Vec::new();
    let mut i: usize = 0;
    assert(rs.subrange(0, 0) =~= Seq::<(Seq<u8>, Seq<u8>)>::empty());
    while i < entries.len()
        invariant
            rs == pairs_view(entries@),
            i <= entries@.len(),
            out@ == csv_text(rs.subrange(0, i as int)),
        decreases entries@.len() - i,
    {
        let ghost prev = out@;
        append(&mut out, entries[i].0.as_slice());
        out.push(44u8);
        append(&mut out, entries[i].1.as_slice());
        out.push(10u8);
        assert(rs[i as int] == (entries@[i as int].0@, entries@[i as int].1@));
        assert(rs.subrange(0, i + 1).drop_last() =~= rs.subrange(0, i as int));
        assert(out@ =~= prev + record_line(rs[i as int]));
        i = i + 1;
    }
    assert(rs.subrange(0, i as int) =~= rs);
    out
}

fn append(out: &mut Vec<u8>, b: &[u8])
    ensures
        final(out)@ == old(out)@ + b@,
{
    let mut i: usize = 0;
    while i < b.len()
        invariant
            i <= b@.len(),
            out@ == old(out)@ + b@.subrange(0, i as int),
        decreases b@.len() - i,
    {
        out.push(b[i]);
        i = i + 1;
        assert(b@.subrange(0, i as int) =~= b@.subrange(0, i - 1).push(b@[i - 1]));
    }
    assert(b@.subrange(0, i as int) =~= b@);
}

proof fn lemma_scan_shift(a: Seq<u8>, b: Seq<u8>, s: int, j: int)
    requires
        0 <= s <= j,
    ensures
        records_scan(a + b, a.len() + s, a.len() + j) == records_scan(b, s, j),
    decreases b.len() - j,
{
    let t = a + b;
    let n = a.len() as int;
    if j >= b.len() {
        if s < b.len() {
            assert(t.subrange(n + s, t.len() as int) =~= b.subrange(s, b.len() as int));
        }
    } else {
        assert(t[n + j] == b[j]);
        lemma_scan_shift(a, b, s, j + 1);
        lemma_scan_shift(a, b, j + 1, j + 1);
        assert(t.subrange(n + s, n + j) =~= b.subrange(s, j));
    }
}

proof fn lemma_scan_concat(a: Seq<u8>, b: Seq<u8>, s: int, j: int)
    requires
        a.len() > 0,
        a.last() == 10u8,
        0 <= s <= j <= a.len(),
        j == a.len() ==> s == j,
    ensures
        records_scan(a + b, s, j) == records_scan(a, s, j) + records_scan(b, 0, 0),
    decreases a.len() - j,
{
    let t = a + b;
    if j == a.len() {
        lemma_scan_shift(a, b, 0, 0);
        assert(records_scan(a, s, j) =~= Seq::<(Seq<u8>, Seq<u8>)>::empty());
        assert(records_scan(a, s, j) + records_scan(b, 0, 0) =~= records_scan(b, 0, 0));
    } else {
        assert(t[j] == a[j]);
        if a[j] == 10u8 {
            lemma_scan_concat(a, b, j + 1, j + 1);
            assert(t.subrange(s, j) =~= a.subrange(s, j));
            let rest_t = records_scan(t, j + 1, j + 1);
            let rest_a = records_scan(a, j + 1, j + 1);
            match line_record(a.subrange(s, j)) {
                Some(r) => {
                    assert(seq![r] + rest_t =~= seq![r] + rest_a + records_scan(b, 0, 0));
                },
                None => {},
            }
        } else {
            lemma_scan_concat(a, b, s, j + 1);
        }
    }
}

proof fn lemma_scan_skip(t: Seq<u8>, s: int, j: int, k: int)
    requires
        0 <= j <= k <= t.len(),
        forall|x: int| j <= x < k ==> t[x] != 10u8,
    ensures
        records_scan(t, s, j) == records_scan(t, s, k),
    decreases k - j,
{
    if j < k {
        lemma_scan_skip(t, s, j + 1, k);
    }
}

proof fn lemma_line_round_trip(r: (Seq<u8>, Seq<u8>))
    requires
        clean_record(r),
    ensures
        records_scan(record_line(r), 0, 0) == seq![r],
{
    let t = record_line(r);
    let n = t.len() as int;
    let l = r.0 + seq![44u8] + r.1;
    assert(t =~= l + seq![10u8]);
    assert forall|x: int| 0 <= x < n - 1 implies t[x] != 10u8 by {
        if x < r.0.len() {
            assert(t[x] == r.0[x]);
        } else if x > r.0.len() {
            assert(t[x] == r.1[x - r.0.len() - 1]);
        }
    }
    lemma_scan_skip(t, 0, 0, n - 1);
    assert(t.subrange(0, n - 1) =~= l);
    assert(trim_cr(l) == l) by {
        if r.1.len() > 0 {
            assert(l.last() == r.1.last());
        }
    }
    let c = r.0.len() as int;
    assert(only_comma_at(l, c)) by {
        assert forall|j: int| 0 <= j < l.len() && j != c implies l[j] != 44u8 by {
            if j < c {
                assert(l[j] == r.0[j]);
            } else {
                assert(l[j] == r.1[j - c - 1]);
            }
        }
    }
    let c2 = choose|x: int| only_comma_at(l, x);
    if c2 != c {
        assert(l[c] == 44u8);
    }
    assert(l.subrange(0, c) =~= r.0);
    assert(l.subrange(c + 1, l.len() as int) =~= r.1);
    assert(records_scan(t, n, n) =~= Seq::<(Seq<u8>, Seq<u8>)>::empty());
    assert(seq![r] + records_scan(t, n, n) =~= seq![r]);
}

proof fn lemma_csv_text_ends_in_newline(rs: Seq<(Seq<u8>, Seq<u8>)>)
    requires
        rs.len() > 0,
    ensures
        csv_text(rs).len() > 0,
        csv_text(rs).last() == 10u8,
{
}

/// Reading back the text of clean entries gives the same entries, in the
/// same order.
pub proof fn law_csv_round_trip(rs: Seq<(Seq<u8>, Seq<u8>)>)
    requires
        forall|i: int| 0 <= i < rs.len() ==> clean_record(#[trigger] rs[i]),
    ensures
        csv_records(csv_text(rs)) == rs,
    decreases rs.len(),
{
    if rs.len() == 0 {
        assert(csv_records(csv_text(rs)) =~= rs);
    } else {
        let init = rs.drop_last();
        let r = rs.last();
        assert(clean_record(rs[rs.len() - 1]));
        law_csv_round_trip(init);
        lemma_line_round_trip(r);
        if init.len() == 0 {
            assert(csv_text(rs) =~= record_line(r));
            assert(rs =~= seq![r]);
        } else {
            lemma_csv_text_ends_in_newline(init);
            lemma_scan_concat(csv_text(init), record_line(r), 0, 0);
            assert(rs =~= init + seq![r]);
        }
    }
}

proof fn lemma_records_map_sorted(rs: Seq<(Seq<u8>, Seq<u8>)>)
    requires
        strictly_ascending(rs),
    ensures
        records_map(rs) == entries_map(rs),
    decreases rs.len(),
{
    if rs.len() > 0 {
        let init = rs.drop_last();
        let r = rs.last();
        assert(strictly_ascending(init));
        lemma_records_map_sorted(init);
        lemma_entries_map_all(rs);
        lemma_entries_map_all(init);
        lemma_order_facts();
        let m = entries_map(rs);
        let m0 = entries_map(init).insert(r.0, r.1);
        assert forall|k: Seq<u8>| #[trigger] m.contains_key(k) <==> m0.contains_key(k) by {
            if m.contains_key(k) {
                let j = choose|j: int| 0 <= j < rs.len() && #[trigger] rs[j].0 == k;
                if j < rs.len() - 1 {
                    assert(init[j] == rs[j]);
                }
            }
            if entries_map(init).contains_key(k) {
                let j = choose|j: int| 0 <= j < init.len() && #[trigger] init[j].0 == k;
                assert(init[j] == rs[j]);
            }
        }
        assert forall|k: Seq<u8>| #[trigger] m.contains_key(k) implies m[k] == m0[k] by {
            let j = choose|j: int| 0 <= j < rs.len() && #[trigger] rs[j].0 == k;
            if j < rs.len() - 1 {
                assert(init[j] == rs[j]);
                assert(rs[j].0 != r.0);
            }
        }
        assert(m =~= m0);
    }
}

/// Loading the text of a store whose keys and values are clean gives the
/// same contents.
pub proof fn law_csv_store_round_trip(db: MemoryDatabase)
    requires
        db.wf(),
        csv_clean(db.contents()),
    ensures
        records_map(csv_records(csv_text(db.entry_seq()))) == db.contents(),
{
    let rs = db.entry_seq();
    db.lemma_entry_seq();
    lemma_entries_map_all(rs);
    assert forall|i: int| 0 <= i < rs.len() implies clean_record(#[trigger] rs[i]) by {
        assert(db.contents().contains_key(rs[i].0));
    }
    law_csv_round_trip(rs);
    lemma_records_map_sorted(rs);
}

proof fn lemma_scan_clean(t: Seq<u8>, start: int, i: int)
    ensures
        forall|x: int|
            0 <= x < records_scan(t, start, i).len() ==> clean_record(
                #[trigger] records_scan(t, start, i)[x],
            ),
    decreases t.len() - i,
{
    if i < t.len() {
        if t[i] == 10u8 {
            lemma_scan_clean(t, i + 1, i + 1);
            let rest = records_scan(t, i + 1, i + 1);
            match line_record(t.subrange(start, i)) {
                Some(r) => {
                    assert(records_scan(t, start, i) == seq![r] + rest);
                    assert forall|x: int| 0 <= x < (seq![r] + rest).len() implies clean_record(
                        #[trigger] (seq![r] + rest)[x],
                    ) by {
                        if x > 0 {
                            assert((seq![r] + rest)[x] == rest[x - 1]);
                        }
                    }
                },
                None => {
                    assert(records_scan(t, start, i) == rest);
                },
            }
        } else {
            lemma_scan_clean(t, start, i + 1);
            assert(records_scan(t, start, i) == records_scan(t, start, i + 1));
        }
    } else if 0 <= start < t.len() {
        match line_record(t.subrange(start, t.len() as int)) {
            Some(r) => {
                assert(records_scan(t, start, i) == seq![r]);
                assert(seq![r][0] == r);
            },
            None => {},
        }
    }
}

proof fn lemma_records_map_clean(rs: Seq<(Seq<u8>, Seq<u8>)>)
    requires
        forall|x: int| 0 <= x < rs.len() ==> clean_record(#[trigger] rs[x]),
    ensures
        csv_clean(records_map(rs)),
    decreases rs.len(),
{
    if rs.len() > 0 {
        assert forall|x: int| 0 <= x < rs.drop_last().len() implies clean_record(
            #[trigger] rs.drop_last()[x],
        ) by {
            assert(rs.drop_last()[x] == rs[x]);
        }
        lemma_records_map_clean(rs.drop_last());
        assert(clean_record(rs[rs.len() - 1]));
    }
}

/// Removing entries keeps a store clean, so every store that the CSV form
/// reaches through `load_csv`, `csv_add`, `remove` and `remove_range` is
/// clean and reads back whole.
pub proof fn law_csv_clean_kept(
    m: Map<Seq<u8>, Seq<u8>>,
    k: Seq<u8>,
    start: Seq<u8>,
    end: Seq<u8>,
)
    requires
        csv_clean(m),
    ensures
        csv_clean(m.remove(k)),
        csv_clean(without_range(m, start, end)),
{
}

} // verus!
