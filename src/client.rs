//! The client side of one session: it frames each request and checks that the
//! response frame answers it.
use crate::server::{Request, Response};
use crate::wire::{decode_response, encode_request, request_bytes, request_fits, response_bytes, response_fits};
use vstd::prelude::*;

verus! {

/// What went wrong with a remote call.
#[derive(Clone, Debug, PartialEq, Eq)]
pub enum ClientError {
    /// The server's store failed; the message it sent.
    Remote(Vec<u8>),
    /// The frame holds no response.
    Malformed,
    /// The response does not answer the pending request, or none is pending.
    Unexpected,
    /// A request is still waiting for its response.
    Busy,
    /// A byte string is too long to frame.
    TooLarge,
}

/// The kind of answer that a request waits for.
#[derive(Clone, Copy, Debug, PartialEq, Eq, Structural)]
pub enum Expect {
    Unit,
    Value,
    Pairs,
    Greeting,
}

pub open spec fn expect_of(req: Request) -> Expect {
    match req {
        Request::Add { .. } => Expect::Unit,
        Request::Select { .. } => Expect::Value,
        Request::Remove { .. } => Expect::Unit,
        Request::SelectRange { .. } => Expect::Pairs,
        Request::RemoveRange { .. } => Expect::Pairs,
        Request::Flush => Expect::Unit,
        Request::Helloworld { .. } => Expect::Greeting,
    }
}

/// `resp` is an answer of kind `e`.
pub open spec fn answers(e: Expect, resp: Response) -> bool {
    match resp {
        Response::Done => e == Expect::Unit,
        Response::Value(_) => e == Expect::Value,
        Response::Pairs(_) => e == Expect::Pairs,
        Response::Greeting(_) => e == Expect::Greeting,
        Response::Failed(_) => false,
    }
}

/// `frame` holds some response.
pub open spec fn holds_response(frame: Seq<u8>) -> bool {
    exists|q: Response| response_fits(q) && #[trigger] response_bytes(q) == frame
}

fn expect_for(req: &Request) -> (e: Expect)
    ensures
        e == expect_of(*req),
{
    match req {
        Request::Add { .. } => Expect::Unit,
        Request::Select { .. } => Expect::Value,
        Request::Remove { .. } => Expect::Unit,
        Request::SelectRange { .. } => Expect::Pairs,
        Request::RemoveRange { .. } => Expect::Pairs,
        Request::Flush => Expect::Unit,
        Request::Helloworld { .. } => Expect::Greeting,
    }
}

/// One session's client stub. Requests of a session are answered in the
/// order they were sent, so it keeps one request in flight at a time.
pub struct VerseDbClient {
    awaiting: Option<Expect>,
}

impl VerseDbClient {
    /// The kind of answer that the request in flight waits for.
    pub closed spec fn awaiting(&self) -> Option<Expect> {
        self.awaiting
    }

    pub fn new() -> (r: Self)
        ensures
            r.awaiting() is None,
    {
        VerseDbClient { awaiting: None }
    }

    /// A request is in flight.
    pub fn is_busy(&self) -> (r: bool)
        ensures
            r == self.awaiting() is Some,
    {
        self.awaiting.is_some()
    }

    /// Frames `req` to be sent as the next request of the session.
    pub fn send(&mut self, req: &Request) -> (r: Result<Vec<u8>, ClientError>)
        ensures
            old(self).awaiting() is Some ==> r == Err::<Vec<u8>, ClientError>(ClientError::Busy)
                && final(self).awaiting() == old(self).awaiting(),
            old(self).awaiting() is None && !request_fits(*req) ==> r == Err::<
                Vec<u8>,
                ClientError,
            >(ClientError::TooLarge) && final(self).awaiting() is None,
            old(self).awaiting() is None && request_fits(*req) ==> (r matches Ok(b) && b@
                == request_bytes(*req)) && final(self).awaiting() == Some(expect_of(*req)),
    {
        if self.awaiting.is_some() {
            return Err(ClientError::Busy);
        }
        match encode_request(req) {
            Some(b) => {
                self.awaiting = Some(expect_for(req));
                Ok(b)
            },
            None => Err(ClientError::TooLarge),
        }
    }

    /// Takes the frame that answers the request in flight.
    pub fn receive(&mut self, frame: &[u8]) -> (r: Result<Response, ClientError>)
        ensures
            final(self).awaiting() is None,
            old(self).awaiting() is None ==> r == Err::<Response, ClientError>(
                ClientError::Unexpected,
            ),
            old(self).awaiting() is Some ==> match r {
                Ok(q) => response_fits(q) && response_bytes(q) == frame@ && answers(
                    old(self).awaiting()->Some_0,
                    q,
                ),
                Err(ClientError::Remote(m)) => response_fits(Response::Failed(m)) && response_bytes(
                    Response::Failed(m),
                ) == frame@,
                Err(ClientError::Malformed) => !holds_response(frame@),
                Err(ClientError::Unexpected) => exists|q: Response|
                    response_fits(q) && #[trigger] response_bytes(q) == frame@ && !answers(
                        old(self).awaiting()->Some_0,
                        q,
                    ) && !(q is Failed),
                _ => false,
            },
    {
        let e = match self.awaiting {
            Some(e) => e,
            None => {
                return Err(ClientError::Unexpected);
            },
        };
        self.awaiting = None;
        match decode_response(frame) {
            None => Err(ClientError::Malformed),
            Some(Response::Failed(m)) => Err(ClientError::Remote(m)),
            Some(q) => {
                let ok = match &q {
                    Response::Done => e == Expect::Unit,
                    Response::Value(_) => e == Expect::Value,
                    Response::Pairs(_) => e == Expect::Pairs,
                    Response::Greeting(_) => e == Expect::Greeting,
                    Response::Failed(_) => false,
                };
                if ok {
                    Ok(q)
                } else {
                    Err(ClientError::Unexpected)
                }
            },
        }
    }
}

} // verus!
