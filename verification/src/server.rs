//! The decisions of a connection that serves one request: when to stop
//! reading, and what to write back.

use crate::http::{response_bytes, HttpRequestMessage, HttpResponseMessage};
use crate::parser::{bytes_needed, feed, HttpParser, HttpParserError};
use crate::router::{dispatch, first_match, HttpRoute, HttpRouterError};
use crate::text::utf8;
use vstd::prelude::*;

verus! {

/// Gives the parser what was read from the connection, and tells whether the
/// reading is over: it is when the peer has closed the connection, which an
/// empty read shows, or when the message needs no more bytes.
pub fn receive(parser: &mut HttpParser, chunk: &[u8]) -> (r: Result<bool, HttpParserError>)
    requires
        old(parser).wf(),
    ensures
        final(parser).wf(),
        final(parser)@ == feed(old(parser)@, chunk@).state,
        final(parser)@.msg is Request <==> old(parser)@.msg is Request,
        match r {
            Ok(done) => feed(old(parser)@, chunk@).error is None && done == (chunk@.len() == 0
                || bytes_needed(final(parser)@) == 0),
            Err(e) => feed(old(parser)@, chunk@).error == Some(e@),
        },
{
    if chunk.len() == 0 {
        return Ok(true);
    }
    match parser.parse_bytes(chunk) {
        Ok(_) => Ok(parser.read_how_many_bytes() == 0),
        Err(e) => Err(e),
    }
}

/// The bytes to write back for what a route answered: the response in wire
/// format, and nothing for a failure.
pub open spec fn reply_bytes(answer: Result<HttpResponseMessage, HttpRouterError>) -> Option<
    Seq<u8>,
> {
    match answer {
        Ok(response) => Some(response_bytes(response@)),
        Err(_) => None,
    }
}

/// The bytes to write back for what a route answered.
pub fn reply(answer: Result<HttpResponseMessage, HttpRouterError>) -> (r: Option<Vec<u8>>)
    ensures
        match reply_bytes(answer) {
            Some(bytes) => r matches Some(out) && out@ == bytes,
            None => r is None,
        },
{
    match answer {
        Ok(response) => Some(response.to_bytes()),
        Err(_) => None,
    }
}

/// The bytes to write back for a request: the response of the first route
/// that matches it, in wire format. Nothing is written where no route
/// matches or the handler fails.
pub fn respond<R: HttpRoute>(routes: &Vec<R>, request: &HttpRequestMessage) -> (r: Option<Vec<u8>>)
    requires
        forall|i: int|
            0 <= i < routes@.len() && first_match(routes@, request.method, utf8(request.url@))
                == Some(i) ==> (#[trigger] routes@[i]).accepts(request),
    ensures
        match first_match(routes@, request.method, utf8(request.url@)) {
            Some(i) => exists|answer: Result<HttpResponseMessage, HttpRouterError>|
                routes@[i].answers(request, answer) && match reply_bytes(answer) {
                    Some(bytes) => r matches Some(out) && out@ == bytes,
                    None => r is None,
                },
            None => r is None,
        },
{
    let answer = dispatch(routes, request);
    proof {
        if first_match(routes@, request.method, utf8(request.url@)) is Some {
            let i = first_match(routes@, request.method, utf8(request.url@))->0;
            assert(routes@[i].answers(request, answer));
        }
    }
    reply(answer)
}

} // verus!
