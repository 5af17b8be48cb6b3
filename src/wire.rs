//! The byte framing of requests and responses. Every byte string travels as
//! a blob: its length as four little-endian bytes, then its bytes.
use crate::database::pairs_view;
use crate::server::{Request, Response};
use vstd::bytes::{
    lemma_auto_spec_u32_to_from_le_bytes, spec_u32_from_le_bytes, spec_u32_to_le_bytes,
    u32_from_le_bytes, u32_to_le_bytes,
};
use vstd::prelude::*;
use vstd::slice::{slice_subrange, slice_to_vec};

verus! {

/// A byte string whose length fits the four-byte prefix.
pub open spec fn fits(b: Seq<u8>) -> bool {
    b.len() <= u32::MAX
}

/// A byte string framed by its length.
pub open spec fn blob(b: Seq<u8>) -> Seq<u8> {
    spec_u32_to_le_bytes(b.len() as u32) + b
}

/// A tag byte followed by one blob.
pub open spec fn one_blob(tag: u8, x: Seq<u8>) -> Seq<u8> {
    seq![tag] + blob(x)
}

/// A tag byte followed by two blobs.
pub open spec fn two_blobs(tag: u8, x: Seq<u8>, y: Seq<u8>) -> Seq<u8> {
    seq![tag] + blob(x) + blob(y)
}

/// The entries one after the other, key blob before value blob.
pub open spec fn pairs_bytes(ps: Seq<(Seq<u8>, Seq<u8>)>) -> Seq<u8>
    decreases ps.len(),
{
    if ps.len() == 0 {
        Seq::empty()
    } else {
        blob(ps[0].0) + blob(ps[0].1) + pairs_bytes(ps.drop_first())
    }
}

pub open spec fn pairs_fit(ps: Seq<(Seq<u8>, Seq<u8>)>) -> bool {
    &&& ps.len() <= u32::MAX
    &&& forall|i: int| 0 <= i < ps.len() ==> fits(#[trigger] ps[i].0) && fits(ps[i].1)
}

/// A tag byte, the number of entries, then the entries.
pub open spec fn pairs_frame(tag: u8, ps: Seq<(Seq<u8>, Seq<u8>)>) -> Seq<u8> {
    seq![tag] + spec_u32_to_le_bytes(ps.len() as u32) + pairs_bytes(ps)
}

pub open spec fn request_fits(r: Request) -> bool {
    match r {
        Request::Add { key, value } => fits(key@) && fits(value@),
        Request::Select { key } => fits(key@),
        Request::Remove { key } => fits(key@),
        Request::SelectRange { start, end } => fits(start@) && fits(end@),
        Request::RemoveRange { start, end } => fits(start@) && fits(end@),
        Request::Flush => true,
        Request::Helloworld { input } => fits(input@),
    }
}

/// The frame of a request.
pub open spec fn request_bytes(r: Request) -> Seq<u8> {
    match r {
        Request::Add { key, value } => two_blobs(0, key@, value@),
        Request::Select { key } => one_blob(1, key@),
        Request::Remove { key } => one_blob(2, key@),
        Request::SelectRange { start, end } => two_blobs(3, start@, end@),
        Request::RemoveRange { start, end } => two_blobs(4, start@, end@),
        Request::Flush => seq![5u8],
        Request::Helloworld { input } => one_blob(6, input@),
    }
}

pub open spec fn response_fits(r: Response) -> bool {
    match r {
        Response::Done => true,
        Response::Value(None) => true,
        Response::Value(Some(v)) => fits(v@),
        Response::Pairs(v) => pairs_fit(pairs_view(v@)),
        Response::Greeting(g) => fits(g@),
        Response::Failed(m) => fits(m@),
    }
}

/// The frame of a response.
pub open spec fn response_bytes(r: Response) -> Seq<u8> {
    match r {
        Response::Done => seq![0u8],
        Response::Value(None) => seq![1u8, 0u8],
        Response::Value(Some(v)) => seq![1u8, 1u8] + blob(v@),
        Response::Pairs(v) => pairs_frame(2, pairs_view(v@)),
        Response::Greeting(g) => one_blob(3, g@),
        Response::Failed(m) => one_blob(4, m@),
    }
}

/// `s` holds `blob(x)` starting at `pos`.
pub open spec fn blob_at(s: Seq<u8>, pos: int, x: Seq<u8>) -> bool {
    &&& 0 <= pos
    &&& pos + blob(x).len() <= s.len()
    &&& s.subrange(pos, pos + blob(x).len()) == blob(x)
}

proof fn lemma_pairs_bytes_push(ps: Seq<(Seq<u8>, Seq<u8>)>, e: (Seq<u8>, Seq<u8>))
    ensures
        pairs_bytes(ps.push(e)) == pairs_bytes(ps) + blob(e.0) + blob(e.1),
    decreases ps.len(),
{
    if ps.len() == 0 {
        assert(ps.push(e).drop_first() =~= Seq::<(Seq<u8>, Seq<u8>)>::empty());
        assert(pairs_bytes(ps.push(e).drop_first()) == Seq::<u8>::empty());
        assert(ps.push(e)[0] == e);
        assert(pairs_bytes(ps.push(e)) =~= pairs_bytes(ps) + blob(e.0) + blob(e.1));
    } else {
        lemma_pairs_bytes_push(ps.drop_first(), e);
        assert(ps.push(e).drop_first() =~= ps.drop_first().push(e));
        assert(pairs_bytes(ps.push(e)) =~= pairs_bytes(ps) + blob(e.0) + blob(e.1));
    }
}

fn put_bytes(out: &mut Vec<u8>, b: &[u8])
    ensures
        final(out)@ == old(out)@ + b@,
{
    let mut i: usize = 0;
    while i < b.len()
        invariant
            i <= b@.len(),
            out@ == old(out)@ + b@.subrange(0, i as int),
        decreases b@.len() - i,
    {
        out.push(b[i]);
        i = i + 1;
        assert(b@.subrange(0, i as int) =~= b@.subrange(0, i - 1).push(b@[i - 1]));
    }
    assert(b@.subrange(0, i as int) =~= b@);
}

fn put_blob(out: &mut Vec<u8>, b: &[u8])
    requires
        fits(b@),
    ensures
        final(out)@ == old(out)@ + blob(b@),
{
    proof {
        lemma_auto_spec_u32_to_from_le_bytes();
    }
    let n = u32_to_le_bytes(b.len() as u32);
    put_bytes(out, n.as_slice());
    put_bytes(out, b);
    assert(out@ =~= old(out)@ + blob(b@));
}

fn fits_exec(b: &[u8]) -> (r: bool)
    ensures
        r == fits(b@),
{
    b.len() as u64 <= 0xffff_ffffu64
}

/// Reads the blob that starts at `pos`, and the position after it.
fn read_blob(b: &[u8], pos: usize) -> (r: Option<(Vec<u8>, usize)>)
    requires
        pos <= b@.len(),
    ensures
        r matches Some((v, p)) ==> {
            &&& pos <= p <= b@.len()
            &&& fits(v@)
            &&& b@.subrange(pos as int, p as int) == blob(v@)
        },
        forall|x: Seq<u8>|
            fits(x) && #[trigger] blob_at(b@, pos as int, x) ==> (r matches Some((v, p)) && v@ == x
                && p == pos + blob(x).len()),
{
    proof {
        lemma_auto_spec_u32_to_from_le_bytes();
    }
    if b.len() - pos < 4 {
        proof {
            assert forall|x: Seq<u8>| fits(x) && #[trigger] blob_at(b@, pos as int, x) implies false by {
                assert(blob(x).len() >= 4);
            }
        }
        return None;
    }
    let n = u32_from_le_bytes(slice_subrange(b, pos, pos + 4));
    if b.len() - (pos + 4) < n as usize {
        proof {
            assert forall|x: Seq<u8>| fits(x) && #[trigger] blob_at(b@, pos as int, x) implies false by {
                assert(b@.subrange(pos as int, pos + 4) =~= blob(x).subrange(0, 4));
                assert(blob(x).subrange(0, 4) =~= spec_u32_to_le_bytes(x.len() as u32));
            }
        }
        return None;
    }
    let p = pos + 4 + n as usize;
    let v = slice_to_vec(slice_subrange(b, pos + 4, p));
    assert(v@.len() == n);
    assert(b@.subrange(pos as int, p as int) =~= b@.subrange(pos as int, pos + 4) + v@);
    assert(spec_u32_to_le_bytes(spec_u32_from_le_bytes(b@.subrange(pos as int, pos + 4)))
        == b@.subrange(pos as int, pos + 4));
    assert forall|x: Seq<u8>| fits(x) && #[trigger] blob_at(b@, pos as int, x) implies v@ == x
        && p == pos + blob(x).len() by {
        assert(b@.subrange(pos as int, pos + 4) =~= blob(x).subrange(0, 4));
        assert(blob(x).subrange(0, 4) =~= spec_u32_to_le_bytes(x.len() as u32));
        assert(v@ =~= blob(x).subrange(4, blob(x).len() as int));
    }
    Some((v, p))
}

/// Reads a frame that is a tag byte and one blob.
fn decode_one(b: &[u8]) -> (r: Option<Vec<u8>>)
    requires
        b@.len() >= 1,
    ensures
        r matches Some(x) ==> fits(x@) && one_blob(b@[0], x@) == b@,
        forall|x: Seq<u8>| fits(x) && #[trigger] one_blob(b@[0], x) == b@ ==> r is Some,
{
    let rb = read_blob(b, 1);
    proof {
        assert forall|x: Seq<u8>| fits(x) && #[trigger] one_blob(b@[0], x) == b@ implies rb matches Some((
            v,
            p,
        )) && p == b@.len() by {
            assert(b@.subrange(1, 1 + blob(x).len() as int) =~= blob(x));
            assert(blob_at(b@, 1, x));
        }
    }
    match rb {
        Some((x, p)) => {
            if p == b.len() {
                assert(b@ =~= one_blob(b@[0], x@));
                Some(x)
            } else {
                None
            }
        },
        None => None,
    }
}

/// Reads a frame that is a tag byte and two blobs.
fn decode_two(b: &[u8]) -> (r: Option<(Vec<u8>, Vec<u8>)>)
    requires
        b@.len() >= 1,
    ensures
        r matches Some((x, y)) ==> fits(x@) && fits(y@) && two_blobs(b@[0], x@, y@) == b@,
        forall|x: Seq<u8>, y: Seq<u8>|
            fits(x) && fits(y) && #[trigger] two_blobs(b@[0], x, y) == b@ ==> r is Some,
{
    let r1 = read_blob(b, 1);
    match r1 {
        Some((x, p)) => {
            let r2 = read_blob(b, p);
            proof {
                assert forall|x2: Seq<u8>, y: Seq<u8>|
                    fits(x2) && fits(y) && #[trigger] two_blobs(b@[0], x2, y) == b@ implies r2 matches Some((
                    w,
                    q,
                )) && q == b@.len() by {
                    assert(b@.subrange(1, 1 + blob(x2).len() as int) =~= blob(x2));
                    assert(blob_at(b@, 1, x2));
                    let p2: int = 1 + blob(x2).len() as int;
                    assert(b@.subrange(p2, p2 + blob(y).len() as int) =~= blob(y));
                    assert(blob_at(b@, p2, y));
                }
            }
            match r2 {
                Some((y, q)) => {
                    if q == b.len() {
                        assert(b@ =~= two_blobs(b@[0], x@, y@));
                        Some((x, y))
                    } else {
                        None
                    }
                },
                None => None,
            }
        },
        None => {
            proof {
                assert forall|x2: Seq<u8>, y: Seq<u8>|
                    fits(x2) && fits(y) && #[trigger] two_blobs(b@[0], x2, y) == b@ implies false by {
                    assert(b@.subrange(1, 1 + blob(x2).len() as int) =~= blob(x2));
                    assert(blob_at(b@, 1, x2));
                }
            }
            None
        },
    }
}

proof fn lemma_blob_at_split(s: Seq<u8>, pos: int, a: Seq<u8>, rest: Seq<u8>)
    requires
        0 <= pos <= s.len(),
        s.subrange(pos, s.len() as int) == blob(a) + rest,
    ensures
        blob_at(s, pos, a),
        s.subrange(pos + blob(a).len(), s.len() as int) == rest,
{
    let n = blob(a).len() as int;
    assert(s.subrange(pos, s.len() as int).len() == n + rest.len());
    assert forall|j: int| 0 <= j < n implies s.subrange(pos, pos + n)[j] == blob(a)[j] by {
        assert(s[pos + j] == s.subrange(pos, s.len() as int)[j]);
        assert((blob(a) + rest)[j] == blob(a)[j]);
    }
    assert(s.subrange(pos, pos + n) =~= blob(a));
    assert forall|j: int| 0 <= j < rest.len() implies s.subrange(pos + n, s.len() as int)[j]
        == rest[j] by {
        assert(s[pos + n + j] == s.subrange(pos, s.len() as int)[n + j]);
        assert((blob(a) + rest)[n + j] == rest[j]);
    }
    assert(s.subrange(pos + n, s.len() as int) =~= rest);
}

proof fn lemma_pairs_bytes_skip(ps: Seq<(Seq<u8>, Seq<u8>)>, i: int)
    requires
        0 <= i < ps.len(),
    ensures
        pairs_bytes(ps.skip(i)) == blob(ps[i].0) + blob(ps[i].1) + pairs_bytes(ps.skip(i + 1)),
{
    assert(ps.skip(i).drop_first() =~= ps.skip(i + 1));
    assert(ps.skip(i)[0] == ps[i]);
}

/// Reads a frame that is a tag byte, a count and that many entries.
fn decode_pairs(b: &[u8]) -> (r: Option<Vec<(Vec<u8>, Vec<u8>)>>)
    requires
        b@.len() >= 1,
    ensures
        r matches Some(v) ==> pairs_fit(pairs_view(v@)) && pairs_frame(b@[0], pairs_view(v@))
            == b@,
        forall|ps: Seq<(Seq<u8>, Seq<u8>)>|
            pairs_fit(ps) && #[trigger] pairs_frame(b@[0], ps) == b@ ==> r is Some,
{
    proof {
        lemma_auto_spec_u32_to_from_le_bytes();
    }
    let ghost has = exists|ps: Seq<(Seq<u8>, Seq<u8>)>|
        pairs_fit(ps) && #[trigger] pairs_frame(b@[0], ps) == b@;
    let ghost ps = choose|ps: Seq<(Seq<u8>, Seq<u8>)>|
        pairs_fit(ps) && #[trigger] pairs_frame(b@[0], ps) == b@;
    if b.len() < 5 {
        proof {
            if has {
                assert(pairs_frame(b@[0], ps).len() >= 5);
            }
        }
        return None;
    }
    let n = u32_from_le_bytes(slice_subrange(b, 1, 5));
    proof {
        if has {
            assert(b@.subrange(1, 5) =~= pairs_frame(b@[0], ps).subrange(1, 5));
            assert(pairs_frame(b@[0], ps).subrange(1, 5) =~= spec_u32_to_le_bytes(ps.len() as u32));
            assert(b@.subrange(5, b@.len() as int) =~= pairs_bytes(ps));
            assert(ps.skip(0) =~= ps);
        }
    }
    let mut out: Vec<(Vec<u8>, Vec<u8>)> = Vec::new();
    let mut pos: usize = 5;
    let mut i: u32 = 0;
    assert(b@.subrange(5, 5) =~= pairs_bytes(pairs_view(out@)));
    while i < n
        invariant
            5 <= pos <= b@.len(),
            i <= n,
            out@.len() == i,
            n == spec_u32_from_le_bytes(b@.subrange(1, 5)),
            forall|j: int|
                0 <= j < out@.len() ==> fits(#[trigger] pairs_view(out@)[j].0) && fits(
                    pairs_view(out@)[j].1,
                ),
            b@.subrange(5, pos as int) == pairs_bytes(pairs_view(out@)),
            has == exists|q: Seq<(Seq<u8>, Seq<u8>)>|
                pairs_fit(q) && #[trigger] pairs_frame(b@[0], q) == b@,
            has ==> {
                &&& pairs_fit(ps)
                &&& ps.len() == n
                &&& pairs_view(out@) == ps.subrange(0, i as int)
                &&& b@.subrange(pos as int, b@.len() as int) == pairs_bytes(ps.skip(i as int))
            },
        decreases n - i,
    {
        proof {
            if has {
                lemma_pairs_bytes_skip(ps, i as int);
                assert(blob(ps[i as int].0) + blob(ps[i as int].1) + pairs_bytes(ps.skip(i + 1))
                    =~= blob(ps[i as int].0) + (blob(ps[i as int].1) + pairs_bytes(
                    ps.skip(i + 1),
                )));
                lemma_blob_at_split(
                    b@,
                    pos as int,
                    ps[i as int].0,
                    blob(ps[i as int].1) + pairs_bytes(ps.skip(i + 1)),
                );
                assert(fits(ps[i as int].0) && fits(ps[i as int].1));
            }
        }
        let rk = read_blob(b, pos);
        let (k, p1) = match rk {
            Some(x) => x,
            None => {
                proof {
                    assert(!has);
                }
                return None;
            },
        };
        proof {
            if has {
                lemma_blob_at_split(b@, p1 as int, ps[i as int].1, pairs_bytes(ps.skip(i + 1)));
            }
        }
        let rv = read_blob(b, p1);
        let (v, p2) = match rv {
            Some(x) => x,
            None => {
                proof {
                    assert(!has);
                }
                return None;
            },
        };
        let ghost prev = out@;
        let ghost e = (k@, v@);
        out.push((k, v));
        proof {
            assert(pairs_view(out@) =~= pairs_view(prev).push(e));
            lemma_pairs_bytes_push(pairs_view(prev), e);
            assert(b@.subrange(5, p2 as int) =~= b@.subrange(5, pos as int) + b@.subrange(
                pos as int,
                p1 as int,
            ) + b@.subrange(p1 as int, p2 as int));
            if has {
                assert(pairs_view(out@) =~= ps.subrange(0, i + 1));
            }
        }
        pos = p2;
        i = i + 1;
    }
    if pos != b.len() {
        proof {
            if has {
                assert(ps.skip(i as int) =~= Seq::<(Seq<u8>, Seq<u8>)>::empty());
                assert(b@.subrange(pos as int, b@.len() as int).len() == 0);
            }
        }
        return None;
    }
    proof {
        assert(b@ =~= seq![b@[0]] + b@.subrange(1, 5) + b@.subrange(5, pos as int));
        assert(spec_u32_to_le_bytes(spec_u32_from_le_bytes(b@.subrange(1, 5))) == b@.subrange(1, 5));
        assert(pairs_view(out@).len() == n);
    }
    Some(out)
}

fn encode_one(tag: u8, x: &[u8]) -> (r: Option<Vec<u8>>)
    ensures
        r is Some <==> fits(x@),
        r matches Some(b) ==> b@ == one_blob(tag, x@),
{
    if !fits_exec(x) {
        return None;
    }
    let mut out: Vec<u8> = vec![tag];
    put_blob(&mut out, x);
    Some(out)
}

fn encode_two(tag: u8, x: &[u8], y: &[u8]) -> (r: Option<Vec<u8>>)
    ensures
        r is Some <==> fits(x@) && fits(y@),
        r matches Some(b) ==> b@ == two_blobs(tag, x@, y@),
{
    if !fits_exec(x) || !fits_exec(y) {
        return None;
    }
    let mut out: Vec<u8> = vec![tag];
    put_blob(&mut out, x);
    put_blob(&mut out, y);
    Some(out)
}

/// The frame of a request, or `None` where a byte string is too long for
/// its length prefix.
pub fn encode_request(req: &Request) -> (r: Option<Vec<u8>>)
    ensures
        r is Some <==> request_fits(*req),
        r matches Some(b) ==> b@ == request_bytes(*req),
{
    match req {
        Request::Add { key, value } => encode_two(0, key.as_slice(), value.as_slice()),
        Request::Select { key } => encode_one(1, key.as_slice()),
        Request::Remove { key } => encode_one(2, key.as_slice()),
        Request::SelectRange { start, end } => encode_two(3, start.as_slice(), end.as_slice()),
        Request::RemoveRange { start, end } => encode_two(4, start.as_slice(), end.as_slice()),
        Request::Flush => Some(vec![5u8]),
        Request::Helloworld { input } => encode_one(6, input.as_slice()),
    }
}

/// The request that a frame holds, or `None` where it holds none.
pub fn decode_request(b: &[u8]) -> (r: Option<Request>)
    ensures
        r matches Some(q) ==> request_fits(q) && request_bytes(q) == b@,
        forall|q: Request| request_fits(q) && #[trigger] request_bytes(q) == b@ ==> r is Some,
{
    if b.len() == 0 {
        proof {
            assert forall|q: Request| request_fits(q) && #[trigger] request_bytes(q) == b@ implies false by {
                assert(request_bytes(q).len() >= 1);
            }
        }
        return None;
    }
    let tag = b[0];
    let r = if tag == 0 || tag == 3 || tag == 4 {
        match decode_two(b) {
            Some((x, y)) => {
                if tag == 0 {
                    Some(Request::Add { key: x, value: y })
                } else if tag == 3 {
                    Some(Request::SelectRange { start: x, end: y })
                } else {
                    Some(Request::RemoveRange { start: x, end: y })
                }
            },
            None => None,
        }
    } else if tag == 1 || tag == 2 || tag == 6 {
        match decode_one(b) {
            Some(x) => {
                if tag == 1 {
                    Some(Request::Select { key: x })
                } else if tag == 2 {
                    Some(Request::Remove { key: x })
                } else {
                    Some(Request::Helloworld { input: x })
                }
            },
            None => None,
        }
    } else if tag == 5 && b.len() == 1 {
        assert(b@ =~= seq![5u8]);
        Some(Request::Flush)
    } else {
        None
    };
    proof {
        assert forall|q: Request| request_fits(q) && #[trigger] request_bytes(q) == b@ implies r is Some by {
            match q {
                Request::Add { key, value } => {
                    assert(two_blobs(b@[0], key@, value@) == b@);
                },
                Request::Select { key } => {
                    assert(one_blob(b@[0], key@) == b@);
                },
                Request::Remove { key } => {
                    assert(one_blob(b@[0], key@) == b@);
                },
                Request::SelectRange { start, end } => {
                    assert(two_blobs(b@[0], start@, end@) == b@);
                },
                Request::RemoveRange { start, end } => {
                    assert(two_blobs(b@[0], start@, end@) == b@);
                },
                Request::Flush => {
                    assert(b@.len() == 1);
                },
                Request::Helloworld { input } => {
                    assert(one_blob(b@[0], input@) == b@);
                },
            }
        }
    }
    r
}

proof fn lemma_pairs_fit_at(ps: Seq<(Seq<u8>, Seq<u8>)>, i: int)
    requires
        pairs_fit(ps),
        0 <= i < ps.len(),
    ensures
        fits(ps[i].0) && fits(ps[i].1),
{
}

fn pairs_fit_exec(v: &Vec<(Vec<u8>, Vec<u8>)>) -> (r: bool)
    ensures
        r == pairs_fit(pairs_view(v@)),
{
    let ghost pv = pairs_view(v@);
    if v.len() as u64 > 0xffff_ffffu64 {
        return false;
    }
    let mut i: usize = 0;
    while i < v.len()
        invariant
            i <= v@.len(),
            v@.len() <= u32::MAX,
            pv == pairs_view(v@),
            pv.len() == v@.len(),
            forall|j: int| 0 <= j < i ==> fits(#[trigger] pv[j].0) && fits(pv[j].1),
        decreases v@.len() - i,
    {
        let key_fits = v[i].0.len() as u64 <= 0xffff_ffffu64;
        let value_fits = v[i].1.len() as u64 <= 0xffff_ffffu64;
        assert(pv[i as int] == (v@[i as int].0@, v@[i as int].1@));
        if !key_fits || !value_fits {
            proof {
                if pairs_fit(pv) {
                    lemma_pairs_fit_at(pv, i as int);
                }
            }
            return false;
        }
        assert forall|j: int| 0 <= j < i + 1 implies fits(#[trigger] pv[j].0) && fits(pv[j].1) by {
            if j < i {
                assert(fits(pv[j].0));
            }
        }
        i = i + 1;
    }
    assert(pairs_fit(pv));
    true
}

fn encode_pairs(tag: u8, v: &Vec<(Vec<u8>, Vec<u8>)>) -> (r: Option<Vec<u8>>)
    ensures
        r is Some <==> pairs_fit(pairs_view(v@)),
        r matches Some(b) ==> b@ == pairs_frame(tag, pairs_view(v@)),
{
    if !pairs_fit_exec(v) {
        return None;
    }
    let mut out: Vec<u8> = vec![tag];
    let n = u32_to_le_bytes(v.len() as u32);
    put_bytes(&mut out, n.as_slice());
    let ghost head = out@;
    let mut i: usize = 0;
    assert(pairs_view(v@).subrange(0, 0) =~= Seq::<(Seq<u8>, Seq<u8>)>::empty());
    assert(out@ =~= head + pairs_bytes(pairs_view(v@).subrange(0, 0)));
    while i < v.len()
        invariant
            i <= v@.len(),
            pairs_fit(pairs_view(v@)),
            head == seq![tag] + spec_u32_to_le_bytes(v@.len() as u32),
            out@ == head + pairs_bytes(pairs_view(v@).subrange(0, i as int)),
        decreases v@.len() - i,
    {
        let ghost pv = pairs_view(v@);
        assert(pv[i as int] == (v@[i as int].0@, v@[i as int].1@));
        proof {
            lemma_pairs_fit_at(pv, i as int);
        }
        put_blob(&mut out, v[i].0.as_slice());
        put_blob(&mut out, v[i].1.as_slice());
        proof {
            lemma_pairs_bytes_push(pv.subrange(0, i as int), pv[i as int]);
            assert(pv.subrange(0, i + 1) =~= pv.subrange(0, i as int).push(pv[i as int]));
        }
        i = i + 1;
    }
    assert(pairs_view(v@).subrange(0, i as int) =~= pairs_view(v@));
    Some(out)
}

/// The frame of a response, or `None` where a byte string or the number of
/// entries is too large for its prefix.
pub fn encode_response(resp: &Response) -> (r: Option<Vec<u8>>)
    ensures
        r is Some <==> response_fits(*resp),
        r matches Some(b) ==> b@ == response_bytes(*resp),
{
    match resp {
        Response::Done => Some(vec![0u8]),
        Response::Value(None) => Some(vec![1u8, 0u8]),
        Response::Value(Some(v)) => {
            if !fits_exec(v.as_slice()) {
                return None;
            }
            let mut out: Vec<u8> = vec![1u8, 1u8];
            put_blob(&mut out, v.as_slice());
            Some(out)
        },
        Response::Pairs(v) => encode_pairs(2, v),
        Response::Greeting(g) => encode_one(3, g.as_slice()),
        Response::Failed(m) => encode_one(4, m.as_slice()),
    }
}

/// The response that a frame holds, or `None` where it holds none.
pub fn decode_response(b: &[u8]) -> (r: Option<Response>)
    ensures
        r matches Some(q) ==> response_fits(q) && response_bytes(q) == b@,
        forall|q: Response| response_fits(q) && #[trigger] response_bytes(q) == b@ ==> r is Some,
{
    if b.len() == 0 {
        proof {
            assert forall|q: Response| response_fits(q) && #[trigger] response_bytes(q) == b@ implies false by {
                assert(response_bytes(q).len() >= 1);
            }
        }
        return None;
    }
    let tag = b[0];
    let r = if tag == 0 && b.len() == 1 {
        assert(b@ =~= seq![0u8]);
        Some(Response::Done)
    } else if tag == 1 && b.len() == 2 && b[1] == 0 {
        assert(b@ =~= seq![1u8, 0u8]);
        Some(Response::Value(None))
    } else if tag == 1 && b.len() >= 2 && b[1] == 1 {
        let rb = read_blob(b, 2);
        proof {
            assert forall|x: Seq<u8>| fits(x) && #[trigger] blob(x) == b@.subrange(2, b@.len() as int) implies rb matches Some((
                w,
                p,
            )) && p == b@.len() by {
                assert(blob_at(b@, 2, x));
            }
        }
        match rb {
            Some((v, p)) => {
                if p == b.len() {
                    assert(b@ =~= seq![1u8, 1u8] + blob(v@));
                    Some(Response::Value(Some(v)))
                } else {
                    None
                }
            },
            None => None,
        }
    } else if tag == 2 {
        match decode_pairs(b) {
            Some(v) => Some(Response::Pairs(v)),
            None => None,
        }
    } else if tag == 3 || tag == 4 {
        match decode_one(b) {
            Some(x) => {
                if tag == 3 {
                    Some(Response::Greeting(x))
                } else {
                    Some(Response::Failed(x))
                }
            },
            None => None,
        }
    } else {
        None
    };
    proof {
        assert forall|q: Response| response_fits(q) && #[trigger] response_bytes(q) == b@ implies r is Some by {
            match q {
                Response::Done => {
                    assert(b@.len() == 1);
                },
                Response::Value(None) => {
                    assert(b@.len() == 2 && b@[1] == 0);
                },
                Response::Value(Some(v)) => {
                    assert(b@[1] == 1);
                    assert(blob(v@) =~= b@.subrange(2, b@.len() as int));
                },
                Response::Pairs(v) => {
                    assert(pairs_frame(b@[0], pairs_view(v@)) == b@);
                },
                Response::Greeting(g) => {
                    assert(one_blob(b@[0], g@) == b@);
                },
                Response::Failed(m) => {
                    assert(one_blob(b@[0], m@) == b@);
                },
            }
        }
    }
    r
}

/// `"response too large"`, as bytes: the failure sent in place of a
/// response that cannot be framed.
pub open spec fn too_large_message() -> Seq<u8> {
    seq![
        114u8, 101u8, 115u8, 112u8, 111u8, 110u8, 115u8, 101u8, 32u8, 116u8, 111u8, 111u8, 32u8,
        108u8, 97u8, 114u8, 103u8, 101u8,
    ]
}

/// The frame that answers a request: the response itself, or a failure
/// where the response is too large to frame.
pub fn response_frame(resp: &Response) -> (r: Vec<u8>)
    ensures
        response_fits(*resp) ==> r@ == response_bytes(*resp),
        !response_fits(*resp) ==> r@ == one_blob(4, too_large_message()),
{
    match encode_response(resp) {
        Some(b) => b,
        None => {
            let msg: Vec<u8> = vec![
                114u8, 101u8, 115u8, 112u8, 111u8, 110u8, 115u8, 101u8, 32u8, 116u8, 111u8,
                111u8, 32u8, 108u8, 97u8, 114u8, 103u8, 101u8,
            ];
            assert(msg@ =~= too_large_message());
            let mut out: Vec<u8> = vec![4u8];
            put_blob(&mut out, msg.as_slice());
            out
        },
    }
}

/// Two blobs framed at the same place hold the same bytes.
proof fn lemma_blob_unique(s: Seq<u8>, pos: int, x: Seq<u8>, y: Seq<u8>)
    requires
        fits(x),
        fits(y),
        blob_at(s, pos, x),
        blob_at(s, pos, y),
    ensures
        x == y,
{
    lemma_auto_spec_u32_to_from_le_bytes();
    assert(s.subrange(pos, pos + 4) =~= blob(x).subrange(0, 4));
    assert(s.subrange(pos, pos + 4) =~= blob(y).subrange(0, 4));
    assert(blob(x).subrange(0, 4) =~= spec_u32_to_le_bytes(x.len() as u32));
    assert(blob(y).subrange(0, 4) =~= spec_u32_to_le_bytes(y.len() as u32));
    assert(x.len() == y.len());
    assert(x =~= blob(x).subrange(4, blob(x).len() as int));
    assert(y =~= blob(y).subrange(4, blob(y).len() as int));
    assert(x =~= s.subrange(pos + 4, pos + 4 + x.len()));
}

proof fn lemma_one_blob_unique(t: u8, x: Seq<u8>, u: u8, y: Seq<u8>)
    requires
        fits(x),
        fits(y),
        one_blob(t, x) == one_blob(u, y),
    ensures
        t == u && x == y,
{
    let s = one_blob(t, x);
    assert(s[0] == t && one_blob(u, y)[0] == u);
    assert(s.subrange(1, 1 + blob(x).len() as int) =~= blob(x));
    assert(one_blob(u, y).subrange(1, 1 + blob(y).len() as int) =~= blob(y));
    lemma_blob_unique(s, 1, x, y);
}

proof fn lemma_two_blobs_unique(t: u8, x: Seq<u8>, y: Seq<u8>, u: u8, x2: Seq<u8>, y2: Seq<u8>)
    requires
        fits(x),
        fits(y),
        fits(x2),
        fits(y2),
        two_blobs(t, x, y) == two_blobs(u, x2, y2),
    ensures
        t == u && x == x2 && y == y2,
{
    let s = two_blobs(t, x, y);
    assert(s[0] == t && two_blobs(u, x2, y2)[0] == u);
    assert(s.subrange(1, 1 + blob(x).len() as int) =~= blob(x));
    assert(two_blobs(u, x2, y2).subrange(1, 1 + blob(x2).len() as int) =~= blob(x2));
    lemma_blob_unique(s, 1, x, x2);
    let p = 1 + blob(x).len() as int;
    assert(s.subrange(p, p + blob(y).len() as int) =~= blob(y));
    assert(two_blobs(u, x2, y2).subrange(p, p + blob(y2).len() as int) =~= blob(y2));
    lemma_blob_unique(s, p, y, y2);
}

/// The two requests are of one kind and carry the same bytes.
pub open spec fn same_request(a: Request, b: Request) -> bool {
    match (a, b) {
        (Request::Add { key: k1, value: v1 }, Request::Add { key: k2, value: v2 }) => k1@ == k2@
            && v1@ == v2@,
        (Request::Select { key: k1 }, Request::Select { key: k2 }) => k1@ == k2@,
        (Request::Remove { key: k1 }, Request::Remove { key: k2 }) => k1@ == k2@,
        (
            Request::SelectRange { start: s1, end: e1 },
            Request::SelectRange { start: s2, end: e2 },
        ) => s1@ == s2@ && e1@ == e2@,
        (
            Request::RemoveRange { start: s1, end: e1 },
            Request::RemoveRange { start: s2, end: e2 },
        ) => s1@ == s2@ && e1@ == e2@,
        (Request::Flush, Request::Flush) => true,
        (Request::Helloworld { input: i1 }, Request::Helloworld { input: i2 }) => i1@ == i2@,
        _ => false,
    }
}

proof fn lemma_request_tag(q: Request)
    ensures
        request_bytes(q).len() >= 1,
        request_bytes(q)[0] == match q {
            Request::Add { .. } => 0u8,
            Request::Select { .. } => 1u8,
            Request::Remove { .. } => 2u8,
            Request::SelectRange { .. } => 3u8,
            Request::RemoveRange { .. } => 4u8,
            Request::Flush => 5u8,
            Request::Helloworld { .. } => 6u8,
        },
{
    match q {
        Request::Add { key, value } => {
            assert((seq![0u8] + blob(key@) + blob(value@))[0] == 0u8);
        },
        Request::Select { key } => {
            assert((seq![1u8] + blob(key@))[0] == 1u8);
        },
        Request::Remove { key } => {
            assert((seq![2u8] + blob(key@))[0] == 2u8);
        },
        Request::SelectRange { start, end } => {
            assert((seq![3u8] + blob(start@) + blob(end@))[0] == 3u8);
        },
        Request::RemoveRange { start, end } => {
            assert((seq![4u8] + blob(start@) + blob(end@))[0] == 4u8);
        },
        Request::Flush => {},
        Request::Helloworld { input } => {
            assert((seq![6u8] + blob(input@))[0] == 6u8);
        },
    }
}

/// A frame holds at most one request: decoding the frame of a request gives
/// that request back.
pub proof fn law_request_frame_unique(a: Request, b: Request)
    requires
        request_fits(a),
        request_fits(b),
        request_bytes(a) == request_bytes(b),
    ensures
        same_request(a, b),
{
    lemma_request_tag(a);
    lemma_request_tag(b);
    match a {
        Request::Add { key, value } => match b {
            Request::Add { key: k2, value: v2 } => {
                lemma_two_blobs_unique(0, key@, value@, 0, k2@, v2@);
            },
            Request::SelectRange { start, end } => {
                lemma_two_blobs_unique(0, key@, value@, 3, start@, end@);
            },
            Request::RemoveRange { start, end } => {
                lemma_two_blobs_unique(0, key@, value@, 4, start@, end@);
            },
            _ => {},
        },
        Request::SelectRange { start, end } => match b {
            Request::SelectRange { start: s2, end: e2 } => {
                lemma_two_blobs_unique(3, start@, end@, 3, s2@, e2@);
            },
            _ => {},
        },
        Request::RemoveRange { start, end } => match b {
            Request::RemoveRange { start: s2, end: e2 } => {
                lemma_two_blobs_unique(4, start@, end@, 4, s2@, e2@);
            },
            _ => {},
        },
        Request::Select { key } => match b {
            Request::Select { key: k2 } => {
                lemma_one_blob_unique(1, key@, 1, k2@);
            },
            _ => {},
        },
        Request::Remove { key } => match b {
            Request::Remove { key: k2 } => {
                lemma_one_blob_unique(2, key@, 2, k2@);
            },
            _ => {},
        },
        Request::Helloworld { input } => match b {
            Request::Helloworld { input: i2 } => {
                lemma_one_blob_unique(6, input@, 6, i2@);
            },
            _ => {},
        },
        Request::Flush => {},
    }
}

proof fn lemma_pairs_bytes_unique(p1: Seq<(Seq<u8>, Seq<u8>)>, p2: Seq<(Seq<u8>, Seq<u8>)>)
    requires
        pairs_fit(p1),
        pairs_fit(p2),
        p1.len() == p2.len(),
        pairs_bytes(p1) == pairs_bytes(p2),
    ensures
        p1 == p2,
    decreases p1.len(),
{
    if p1.len() == 0 {
        assert(p1 =~= p2);
        return;
    }
    lemma_pairs_fit_at(p1, 0);
    lemma_pairs_fit_at(p2, 0);
    let s = pairs_bytes(p1);
    let r1 = pairs_bytes(p1.drop_first());
    let r2 = pairs_bytes(p2.drop_first());
    assert(s.subrange(0, s.len() as int) =~= blob(p1[0].0) + (blob(p1[0].1) + r1));
    assert(s.subrange(0, s.len() as int) =~= blob(p2[0].0) + (blob(p2[0].1) + r2));
    lemma_blob_at_split(s, 0, p1[0].0, blob(p1[0].1) + r1);
    lemma_blob_at_split(s, 0, p2[0].0, blob(p2[0].1) + r2);
    lemma_blob_unique(s, 0, p1[0].0, p2[0].0);
    let n = blob(p1[0].0).len() as int;
    lemma_blob_at_split(s, n, p1[0].1, r1);
    lemma_blob_at_split(s, n, p2[0].1, r2);
    lemma_blob_unique(s, n, p1[0].1, p2[0].1);
    assert forall|i: int| 0 <= i < p1.drop_first().len() implies fits(
        #[trigger] p1.drop_first()[i].0,
    ) && fits(p1.drop_first()[i].1) by {
        lemma_pairs_fit_at(p1, i + 1);
    }
    assert forall|i: int| 0 <= i < p2.drop_first().len() implies fits(
        #[trigger] p2.drop_first()[i].0,
    ) && fits(p2.drop_first()[i].1) by {
        lemma_pairs_fit_at(p2, i + 1);
    }
    lemma_pairs_bytes_unique(p1.drop_first(), p2.drop_first());
    assert(p1 =~= seq![p1[0]] + p1.drop_first());
    assert(p2 =~= seq![p2[0]] + p2.drop_first());
}

/// The two responses are of one kind and carry the same bytes.
pub open spec fn same_response(a: Response, b: Response) -> bool {
    match (a, b) {
        (Response::Done, Response::Done) => true,
        (Response::Value(o1), Response::Value(o2)) => match (o1, o2) {
            (None, None) => true,
            (Some(v1), Some(v2)) => v1@ == v2@,
            _ => false,
        },
        (Response::Pairs(v1), Response::Pairs(v2)) => pairs_view(v1@) == pairs_view(v2@),
        (Response::Greeting(g1), Response::Greeting(g2)) => g1@ == g2@,
        (Response::Failed(m1), Response::Failed(m2)) => m1@ == m2@,
        _ => false,
    }
}

proof fn lemma_response_tag(q: Response)
    ensures
        response_bytes(q).len() >= 1,
        response_bytes(q)[0] == match q {
            Response::Done => 0u8,
            Response::Value(_) => 1u8,
            Response::Pairs(_) => 2u8,
            Response::Greeting(_) => 3u8,
            Response::Failed(_) => 4u8,
        },
{
    match q {
        Response::Value(Some(v)) => {
            assert((seq![1u8, 1u8] + blob(v@))[0] == 1u8);
        },
        Response::Pairs(v) => {
            let pv = pairs_view(v@);
            assert((seq![2u8] + spec_u32_to_le_bytes(pv.len() as u32) + pairs_bytes(pv))[0]
                == 2u8);
        },
        Response::Greeting(g) => {
            assert((seq![3u8] + blob(g@))[0] == 3u8);
        },
        Response::Failed(m) => {
            assert((seq![4u8] + blob(m@))[0] == 4u8);
        },
        _ => {},
    }
}

/// A frame holds at most one response: decoding the frame of a response
/// gives that response back.
pub proof fn law_response_frame_unique(a: Response, b: Response)
    requires
        response_fits(a),
        response_fits(b),
        response_bytes(a) == response_bytes(b),
    ensures
        same_response(a, b),
{
    lemma_auto_spec_u32_to_from_le_bytes();
    lemma_response_tag(a);
    lemma_response_tag(b);
    let s = response_bytes(a);
    match (a, b) {
        (Response::Value(o1), Response::Value(o2)) => match (o1, o2) {
            (Some(v1), Some(v2)) => {
                assert(s.subrange(2, 2 + blob(v1@).len() as int) =~= blob(v1@));
                assert(s.subrange(2, 2 + blob(v2@).len() as int) =~= blob(v2@));
                lemma_blob_unique(s, 2, v1@, v2@);
            },
            (Some(v1), None) => {
                assert(s.len() == 2);
            },
            (None, Some(v2)) => {
                assert(s.len() == 2);
            },
            _ => {},
        },
        (Response::Pairs(v1), Response::Pairs(v2)) => {
            let p1 = pairs_view(v1@);
            let p2 = pairs_view(v2@);
            assert(s.subrange(1, 5) =~= spec_u32_to_le_bytes(p1.len() as u32));
            assert(response_bytes(b).subrange(1, 5) =~= spec_u32_to_le_bytes(p2.len() as u32));
            assert(p1.len() == p2.len());
            assert(s.subrange(5, s.len() as int) =~= pairs_bytes(p1));
            assert(response_bytes(b).subrange(5, s.len() as int) =~= pairs_bytes(p2));
            lemma_pairs_bytes_unique(p1, p2);
        },
        (Response::Greeting(g1), Response::Greeting(g2)) => {
            lemma_one_blob_unique(3, g1@, 3, g2@);
        },
        (Response::Failed(m1), Response::Failed(m2)) => {
            lemma_one_blob_unique(4, m1@, 4, m2@);
        },
        _ => {},
    }
}

} // verus!
