//! The opening exchange of a connection: the first request must be a
//! greeting, which is answered by exactly one welcome.
use vstd::prelude::*;
use crate::message::{Request, Response};

verus! {

/// Faults of a connection at the protocol level.
#[derive(Clone, Copy, Debug, PartialEq, Eq, Structural)]
pub enum ServerError {
    /// No client connected.
    ClientMissing,
    /// The first message from the client was not a greeting.
    UnexpectedMessage(Request),
    /// The connection closed before the client sent anything.
    ConnectionClosed,
}

/// The reply owed to the first request of a connection (`None` when the
/// inbound sequence ended before any request).
pub fn greet(first: Option<Request>) -> (r: Result<Response, ServerError>)
    ensures
        first is None ==> r == Err::<Response, ServerError>(ServerError::ConnectionClosed),
        first == Some(Request::Greeting) ==> r == Ok::<Response, ServerError>(Response::Welcome),
{
    match first {
        None => Err(ServerError::ConnectionClosed),
        Some(Request::Greeting) => Ok(Response::Welcome),
    }
}

} // verus!
