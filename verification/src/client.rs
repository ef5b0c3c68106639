//! The pure half of the client: lifting decoded responses into results.
//!
//! The transport half — connecting, writing command bytes, receiving
//! response bytes — lives with the caller that owns the socket; these
//! functions decide what a received response means for the caller.

use vstd::prelude::*;
use crate::error::Error;
use crate::protocol::{Response, ResponseView};
use crate::value::Value;

verus! {

/// What a decoded response means: a payload is data, null is absence,
/// and a peer-reported error surfaces as a typed `DatabaseError`.
pub fn response_to_value(response: Result<Response, Error>) -> (r: Result<Option<Value>, Error>)
    ensures
        match response {
            Ok(resp) => match resp@ {
                ResponseView::Payload(v) => r matches Ok(Some(out)) && out@ == v,
                ResponseView::Null => r == Ok::<Option<Value>, Error>(None),
                ResponseView::Error(m) => (r matches Err(e) && e matches Error::DatabaseError {
                    msg,
                } && msg@ == m),
            },
            Err(e) => r == Err::<Option<Value>, Error>(e),
        },
{
    match response {
        Ok(Response::Payload(val)) => Ok(Some(val)),
        Ok(Response::Null) => Ok(None),
        Ok(Response::Error(msg)) => Err(Error::DatabaseError { msg }),
        Err(e) => Err(e),
    }
}

/// Folds "the stream ended before any response" into the error taxonomy:
/// a missing response is a closed connection, everything else goes
/// through [`response_to_value`].
pub fn flatten_response_to_option(result: Result<Option<Response>, Error>) -> (r: Result<
    Option<Value>,
    Error,
>)
    ensures
        match result {
            Ok(Some(resp)) => match resp@ {
                ResponseView::Payload(v) => r matches Ok(Some(out)) && out@ == v,
                ResponseView::Null => r == Ok::<Option<Value>, Error>(None),
                ResponseView::Error(m) => (r matches Err(e) && e matches Error::DatabaseError {
                    msg,
                } && msg@ == m),
            },
            Ok(None) => r == Err::<Option<Value>, Error>(Error::ConnectionClosed),
            Err(e) => r == Err::<Option<Value>, Error>(e),
        },
{
    match result {
        Ok(Some(resp)) => response_to_value(Ok(resp)),
        Ok(None) => Err(Error::ConnectionClosed),
        Err(e) => Err(e),
    }
}

} // verus!
