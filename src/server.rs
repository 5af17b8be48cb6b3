//! Dispatch of decoded requests to the one store that all sessions share.
use crate::database::{
    is_range_listing, lookup, message_bytes, opt_bytes_view, pairs_view, without_range, Database,
    DbError,
};
use crate::order::in_range;
use vstd::prelude::*;
use vstd::slice::slice_to_vec;

verus! {

/// A decoded request of a remote session.
#[derive(Clone, Debug, PartialEq, Eq)]
pub enum Request {
    Add { key: Vec<u8>, value: Vec<u8> },
    Select { key: Vec<u8> },
    Remove { key: Vec<u8> },
    SelectRange { start: Vec<u8>, end: Vec<u8> },
    RemoveRange { start: Vec<u8>, end: Vec<u8> },
    Flush,
    Helloworld { input: Vec<u8> },
}

/// The answer to one request.
#[derive(Clone, Debug, PartialEq, Eq)]
pub enum Response {
    /// The operation was applied and returns nothing.
    Done,
    /// The value found by a select, or `None` where the key is absent.
    Value(Option<Vec<u8>>),
    /// The entries of a range, ascending by key.
    Pairs(Vec<(Vec<u8>, Vec<u8>)>),
    /// The answer to a liveness check.
    Greeting(Vec<u8>),
    /// The store failed; the message says why. Nothing was applied.
    Failed(Vec<u8>),
}

/// `"Hello, "`, then the input, then `"!"`, as bytes.
pub open spec fn greeting_of(input: Seq<u8>) -> Seq<u8> {
    seq![72u8, 101u8, 108u8, 108u8, 111u8, 44u8, 32u8] + input + seq![33u8]
}

/// The greeting that answers a liveness check; it does not read the store.
pub fn greeting(input: &[u8]) -> (r: Vec<u8>)
    ensures
        r@ == greeting_of(input@),
{
    let mut out: Vec<u8> = vec![72u8, 101u8, 108u8, 108u8, 111u8, 44u8, 32u8];
    let mut i: usize = 0;
    while i < input.len()
        invariant
            i <= input@.len(),
            out@ == seq![72u8, 101u8, 108u8, 108u8, 111u8, 44u8, 32u8] + input@.subrange(
                0,
                i as int,
            ),
        decreases input@.len() - i,
    {
        out.push(input[i]);
        i = i + 1;
        assert(input@.subrange(0, i as int) =~= input@.subrange(0, i - 1).push(input@[i - 1]));
    }
    out.push(33u8);
    assert(input@.subrange(0, i as int) =~= input@);
    out
}

/// Does `req`, when applied, change what is stored under `k`?
pub open spec fn touches(req: Request, k: Seq<u8>) -> bool {
    match req {
        Request::Add { key, .. } => key@ == k,
        Request::Remove { key } => key@ == k,
        Request::RemoveRange { start, end } => in_range(k, start@, end@),
        _ => false,
    }
}

/// The answer `resp` to `req`, and the move of the contents from `m` to
/// `m2`, are what the store contract allows: each request is exactly one
/// store operation, and a failure applies nothing.
pub open spec fn handled(
    m: Map<Seq<u8>, Seq<u8>>,
    m2: Map<Seq<u8>, Seq<u8>>,
    req: Request,
    resp: Response,
) -> bool {
    match req {
        Request::Add { key, value } => {
            ||| resp is Done && m2 == m.insert(key@, value@)
            ||| resp is Failed && m2 == m
        },
        Request::Select { key } => m2 == m && {
            ||| resp matches Response::Value(o) && opt_bytes_view(o) == lookup(m, key@)
            ||| resp is Failed
        },
        Request::Remove { key } => {
            ||| resp is Done && m2 == m.remove(key@)
            ||| resp is Failed && m2 == m
        },
        Request::SelectRange { start, end } => m2 == m && {
            ||| resp matches Response::Pairs(v) && is_range_listing(
                m,
                start@,
                end@,
                pairs_view(v@),
            )
            ||| resp is Failed
        },
        Request::RemoveRange { start, end } => {
            ||| resp matches Response::Pairs(v) && is_range_listing(
                m,
                start@,
                end@,
                pairs_view(v@),
            ) && m2 == without_range(m, start@, end@)
            ||| resp is Failed && m2 == m
        },
        Request::Flush => m2 == m && (resp is Done || resp is Failed),
        Request::Helloworld { input } => m2 == m && (resp matches Response::Greeting(g) && g@
            == greeting_of(input@)),
    }
}

/// The answer to a store operation that returns nothing: `Done`, or the
/// failure with its message.
pub fn unit_response(r: Result<(), DbError>) -> (resp: Response)
    ensures
        match r {
            Ok(()) => resp is Done,
            Err(e) => resp matches Response::Failed(m) && m@ == message_bytes(e),
        },
{
    match r {
        Ok(()) => Response::Done,
        Err(e) => failure(e),
    }
}

/// The answer to a select: the value found, or the failure with its message.
pub fn value_response(r: Result<Option<Vec<u8>>, DbError>) -> (resp: Response)
    ensures
        match r {
            Ok(o) => resp == Response::Value(o),
            Err(e) => resp matches Response::Failed(m) && m@ == message_bytes(e),
        },
{
    match r {
        Ok(o) => Response::Value(o),
        Err(e) => failure(e),
    }
}

/// The answer to a range operation: the entries, or the failure with its
/// message.
pub fn pairs_response(r: Result<Vec<(Vec<u8>, Vec<u8>)>, DbError>) -> (resp: Response)
    ensures
        match r {
            Ok(v) => resp == Response::Pairs(v),
            Err(e) => resp matches Response::Failed(m) && m@ == message_bytes(e),
        },
{
    match r {
        Ok(v) => Response::Pairs(v),
        Err(e) => failure(e),
    }
}

/// A store failure as an answer that carries its message.
fn failure(e: DbError) -> (r: Response)
    ensures
        r matches Response::Failed(m) && m@ == message_bytes(e),
{
    Response::Failed(slice_to_vec(e.message.as_str().as_bytes()))
}

/// The request handler that every session of one server shares; it owns the
/// store, so each request runs with exclusive access to it.
pub struct VerseDbServer<T: Database> {
    store: T,
}

impl<T: Database> VerseDbServer<T> {
    pub open spec fn wf(&self) -> bool {
        self.store_spec().wf()
    }

    pub open spec fn contents(&self) -> Map<Seq<u8>, Seq<u8>> {
        self.store_spec().contents()
    }

    pub open spec fn durable(&self) -> Map<Seq<u8>, Seq<u8>> {
        self.store_spec().durable()
    }

    pub closed spec fn store_spec(&self) -> T {
        self.store
    }

    pub fn new(store: T) -> (r: Self)
        ensures
            r.store_spec() == store,
            r.contents() == store.contents(),
            r.wf() == store.wf(),
    {
        VerseDbServer { store }
    }

    /// The store, for reading.
    pub fn store(&self) -> (r: &T)
        ensures
            *r == self.store_spec(),
            r.contents() == self.contents(),
    {
        &self.store
    }

    /// Gives the store back.
    pub fn into_store(self) -> (r: T)
        ensures
            r == self.store_spec(),
    {
        self.store
    }

    /// Runs one request against the store as one store operation.
    pub fn handle(&mut self, req: &Request) -> (resp: Response)
        requires
            old(self).wf(),
        ensures
            final(self).wf(),
            handled(old(self).contents(), final(self).contents(), *req, resp),
            req is Flush && resp is Done ==> final(self).durable() == final(self).contents(),
    {
        match req {
            Request::Add { key, value } => unit_response(
                self.store.add(key.as_slice(), value.as_slice()),
            ),
            Request::Select { key } => value_response(self.store.select(key.as_slice())),
            Request::Remove { key } => unit_response(self.store.remove(key.as_slice())),
            Request::SelectRange { start, end } => pairs_response(
                self.store.select_range(start.as_slice(), end.as_slice()),
            ),
            Request::RemoveRange { start, end } => pairs_response(
                self.store.remove_range(start.as_slice(), end.as_slice()),
            ),
            Request::Flush => unit_response(self.store.flush()),
            Request::Helloworld { input } => Response::Greeting(greeting(input.as_slice())),
        }
    }
}

/// Requests that do not touch key `k`, from any sessions and in any
/// interleaving, leave what a select of `k` finds unchanged.
pub proof fn law_disjoint_requests_keep_key(
    states: Seq<Map<Seq<u8>, Seq<u8>>>,
    reqs: Seq<Request>,
    resps: Seq<Response>,
    k: Seq<u8>,
)
    requires
        states.len() == reqs.len() + 1,
        resps.len() == reqs.len(),
        forall|i: int|
            0 <= i < reqs.len() ==> handled(states[i], states[i + 1], #[trigger] reqs[i], resps[i]),
        forall|i: int| 0 <= i < reqs.len() ==> !touches(#[trigger] reqs[i], k),
    ensures
        lookup(states.last(), k) == lookup(states[0], k),
    decreases reqs.len(),
{
    if reqs.len() > 0 {
        let n = reqs.len() - 1;
        law_disjoint_requests_keep_key(
            states.drop_last(),
            reqs.drop_last(),
            resps.drop_last(),
            k,
        );
        assert(handled(states[n], states[n + 1], reqs[n], resps[n]));
        assert(!touches(reqs[n], k));
        assert(lookup(states[n + 1], k) == lookup(states[n], k));
    }
}

/// A session that adds `(k, v)` and then selects `k` finds `v`, whatever
/// other sessions did in between on other keys.
pub proof fn law_own_write_visible(
    m: Map<Seq<u8>, Seq<u8>>,
    key: Vec<u8>,
    value: Vec<u8>,
    states: Seq<Map<Seq<u8>, Seq<u8>>>,
    reqs: Seq<Request>,
    resps: Seq<Response>,
)
    requires
        states.len() == reqs.len() + 1,
        resps.len() == reqs.len(),
        handled(m, states[0], Request::Add { key, value }, Response::Done),
        forall|i: int|
            0 <= i < reqs.len() ==> handled(states[i], states[i + 1], #[trigger] reqs[i], resps[i]),
        forall|i: int| 0 <= i < reqs.len() ==> !touches(#[trigger] reqs[i], key@),
    ensures
        lookup(states.last(), key@) == Some(value@),
{
    law_disjoint_requests_keep_key(states, reqs, resps, key@);
}

} // verus!
