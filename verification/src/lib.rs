//! An incremental HTTP/1.1 message parser, the message model it fills, and a
//! request router with fixed and pattern routes.
//!
//! Text is modelled throughout by its UTF-8 encoding: the model of a `String`
//! is the byte sequence that encodes it.

pub mod chunks;
pub mod form;
pub mod http;
pub mod parser;
pub mod roundtrip;
pub mod router;
pub mod server;
pub mod strmap;
pub mod text;
pub mod url;

pub use crate::form::{
    from_hex, lossy_utf8_percent_decode, parse_urlencoded_form, percent_decode, percent_decode_str,
    percent_decode_to, BodyFormParser,
};
pub use crate::http::{
    HttpContentType, HttpHeaders, HttpMessage, HttpMethod, HttpRequestMessage, HttpResponseMessage,
};
pub use crate::parser::{HttpParser, HttpParserError, HttpParserState};
pub use crate::router::{
    dispatch, http_router, surface, DynamicUrl, HttpRoute, HttpRouteDynamicUrl, HttpRouteEntry,
    HttpRouterError, HttpRouteStaticUrl, UrlSegment,
};
pub use crate::server::{receive, reply, respond};
pub use crate::strmap::StringMap;
pub use crate::url::Url;
