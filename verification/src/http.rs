//! HTTP requests and responses, their headers, and their wire format.

use crate::strmap::{listing, StringMap};
use crate::text::{
    decimal_digits, lit, parse_decimal, parse_unsigned, push_bytes, push_decimal, starts_with_bytes,
    utf8,
};
use vstd::prelude::*;
use vstd::string::*;

verus! {

/// The request methods that a message can carry.
#[derive(Debug, Copy, Clone, PartialEq, Eq, Structural)]
pub enum HttpMethod {
    Get,
    Post,
    Head,
    Put,
    Delete,
    Options,
    Notify,
    MSearch,
}

/// The token that stands for a method on the wire.
pub open spec fn method_name(m: HttpMethod) -> Seq<char> {
    match m {
        HttpMethod::Get => "GET"@,
        HttpMethod::Post => "POST"@,
        HttpMethod::Head => "HEAD"@,
        HttpMethod::Put => "PUT"@,
        HttpMethod::Delete => "DELETE"@,
        HttpMethod::Options => "OPTIONS"@,
        HttpMethod::Notify => "NOTIFY"@,
        HttpMethod::MSearch => "M-SEARCH"@,
    }
}

impl HttpMethod {
    /// The token that stands for the method on the wire.
    pub fn as_str(&self) -> (r: &'static str)
        ensures
            r@ == method_name(*self),
    {
        match *self {
            HttpMethod::Get => "GET",
            HttpMethod::Post => "POST",
            HttpMethod::Head => "HEAD",
            HttpMethod::Put => "PUT",
            HttpMethod::Delete => "DELETE",
            HttpMethod::Options => "OPTIONS",
            HttpMethod::Notify => "NOTIFY",
            HttpMethod::MSearch => "M-SEARCH",
        }
    }

    /// The token that stands for the method on the wire, as owned text.
    pub fn to_string(&self) -> (r: String)
        ensures
            r@ == method_name(*self),
    {
        self.as_str().to_owned()
    }
}

/// What a message's `Content-Type` header says of its body.
#[derive(Debug, PartialEq, Eq, Structural)]
pub enum HttpContentType {
    Unknown,
    UrlEncodedForm,
}

/// The line end of the wire format: carriage return, line feed.
pub open spec fn crlf() -> Seq<u8> {
    lit("\r\n")
}

/// The header lines of a message: for each pair in turn the key, a colon
/// and a space, the value, and a line end.
pub open spec fn header_block(pairs: Seq<(Seq<u8>, Seq<u8>)>) -> Seq<u8>
    decreases pairs.len(),
{
    if pairs.len() == 0 {
        Seq::empty()
    } else {
        header_block(pairs.drop_last()) + pairs.last().0 + lit(": ") + pairs.last().1 + crlf()
    }
}

/// The length that the `Content-Length` header gives, where it is present
/// and a decimal number that fits 32 bits.
pub open spec fn content_length_of(headers: Map<Seq<u8>, Seq<u8>>) -> Option<u32> {
    if headers.contains_key(lit("Content-Length")) {
        match parse_unsigned(headers[lit("Content-Length")], 0xffff_ffff) {
            Some(n) => Some(n as u32),
            None => None,
        }
    } else {
        None
    }
}

/// The content type that the `Content-Type` header gives: a form where its
/// value begins with the media type of URL-encoded forms.
pub open spec fn content_type_of(headers: Map<Seq<u8>, Seq<u8>>) -> HttpContentType {
    if headers.contains_key(lit("Content-Type")) && lit(
        "application/x-www-form-urlencoded",
    ).is_prefix_of(headers[lit("Content-Type")]) {
        HttpContentType::UrlEncodedForm
    } else {
        HttpContentType::Unknown
    }
}

/// Access to a message's headers, and what is derived from them.
pub trait HttpHeaders {
    /// The headers as a map from key to value.
    spec fn header_map(&self) -> Map<Seq<u8>, Seq<u8>>;

    /// The headers.
    fn get_raw_headers(&self) -> (r: &StringMap)
        ensures
            r@ == self.header_map(),
    ;

    /// The value of the header `key`, compared byte for byte.
    fn get_raw_header(&self, key: &str) -> (r: Option<&String>)
        ensures
            match r {
                Some(v) => self.header_map().contains_pair(key.spec_bytes(), utf8(v@)),
                None => !self.header_map().contains_key(key.spec_bytes()),
            },
    {
        self.get_raw_headers().get(key)
    }

    /// The declared body length.
    fn content_length(&self) -> (r: Option<u32>)
        ensures
            r == content_length_of(self.header_map()),
    {
        match self.get_raw_header("Content-Length") {
            Some(v) => match parse_decimal(v.as_str().as_bytes(), 0xffff_ffff) {
                Some(n) => Some(n as u32),
                None => None,
            },
            None => None,
        }
    }

    /// The declared content type.
    fn content_type(&self) -> (r: HttpContentType)
        ensures
            r == content_type_of(self.header_map()),
    {
        match self.get_raw_header("Content-Type") {
            Some(v) => {
                if starts_with_bytes(
                    v.as_str().as_bytes(),
                    "application/x-www-form-urlencoded".as_bytes(),
                ) {
                    HttpContentType::UrlEncodedForm
                } else {
                    HttpContentType::Unknown
                }
            },
            None => HttpContentType::Unknown,
        }
    }
}

/// Appends the header lines of `headers` to `out`, in increasing key order.
pub fn push_headers(out: &mut Vec<u8>, headers: &StringMap)
    ensures
        final(out)@ == old(out)@ + header_block(listing(headers@)),
{
    let n = headers.len();
    let ghost pairs = listing(headers@);
    let mut i: usize = 0;
    proof {
        assert(pairs.subrange(0, 0) =~= Seq::empty());
        assert(out@ =~= old(out)@ + header_block(pairs.subrange(0, 0)));
    }
    while i < n
        invariant
            0 <= i <= n,
            n == pairs.len(),
            pairs == listing(headers@),
            out@ == old(out)@ + header_block(pairs.subrange(0, i as int)),
        decreases n - i,
    {
        let ghost before = out@;
        push_bytes(out, headers.key_at(i).as_str().as_bytes());
        push_bytes(out, ": ".as_bytes());
        push_bytes(out, headers.value_at(i).as_str().as_bytes());
        push_bytes(out, "\r\n".as_bytes());
        proof {
            let next = pairs.subrange(0, i + 1);
            assert(next.drop_last() =~= pairs.subrange(0, i as int));
            assert(next.last() == pairs[i as int]);
            assert(out@ =~= before + pairs[i as int].0 + lit(": ") + pairs[i as int].1 + crlf());
            assert(out@ =~= old(out)@ + header_block(next));
        }
        i += 1;
    }
    proof {
        assert(pairs.subrange(0, n as int) =~= pairs);
    }
}

/// What a request holds, text as its UTF-8 bytes.
pub struct RequestModel {
    pub method: HttpMethod,
    pub http_version: Seq<u8>,
    pub url: Seq<u8>,
    pub headers: Map<Seq<u8>, Seq<u8>>,
    pub body: Seq<u8>,
}

/// What a response holds, text as its UTF-8 bytes.
pub struct ResponseModel {
    pub response_code: u16,
    pub response_status: Seq<u8>,
    pub http_version: Seq<u8>,
    pub headers: Map<Seq<u8>, Seq<u8>>,
    pub body: Seq<u8>,
}

/// What a message holds.
pub enum MessageModel {
    Request(RequestModel),
    Response(ResponseModel),
}

/// The request line: the method, the URL and the version, with a space
/// between them.
pub open spec fn request_start(m: RequestModel) -> Seq<u8> {
    utf8(method_name(m.method)) + lit(" ") + m.url + lit(" HTTP/") + m.http_version
}

/// The status line: the version, the status code in decimal digits and the
/// status text, with a space between them.
pub open spec fn response_start(m: ResponseModel) -> Seq<u8> {
    lit("HTTP/") + m.http_version + lit(" ") + decimal_digits(m.response_code as nat) + lit(" ")
        + m.response_status
}

/// The wire format of a request: the request line, the header lines in
/// increasing key order, an empty line, the body.
pub open spec fn request_bytes(m: RequestModel) -> Seq<u8> {
    request_start(m) + crlf() + header_block(listing(m.headers)) + crlf() + m.body
}

/// The wire format of a response: the status line, the header lines in
/// increasing key order, an empty line, the body.
pub open spec fn response_bytes(m: ResponseModel) -> Seq<u8> {
    response_start(m) + crlf() + header_block(listing(m.headers)) + crlf() + m.body
}

/// An HTTP request.
#[derive(Debug, PartialEq, Eq)]
pub struct HttpRequestMessage {
    pub method: HttpMethod,
    pub http_version: String,
    pub url: String,
    pub headers: StringMap,
    pub body: Vec<u8>,
}

impl View for HttpRequestMessage {
    type V = RequestModel;

    open spec fn view(&self) -> RequestModel {
        RequestModel {
            method: self.method,
            http_version: utf8(self.http_version@),
            url: utf8(self.url@),
            headers: self.headers@,
            body: self.body@,
        }
    }
}

impl HttpRequestMessage {
    /// A GET request with no version, no URL, no headers and no body.
    pub fn empty() -> (r: HttpRequestMessage)
        ensures
            r@ == (RequestModel {
                method: HttpMethod::Get,
                http_version: Seq::empty(),
                url: Seq::empty(),
                headers: Map::empty(),
                body: Seq::empty(),
            }),
    {
        HttpRequestMessage {
            method: HttpMethod::Get,
            http_version: String::new(),
            url: String::new(),
            headers: StringMap::new(),
            body: Vec::new(),
        }
    }

    /// An HTTP/1.1 GET request for `url` with a `Host` header.
    pub fn new_get(url: &str, host: &str) -> (r: HttpRequestMessage)
        ensures
            r@ == (RequestModel {
                method: HttpMethod::Get,
                http_version: lit("1.1"),
                url: url.spec_bytes(),
                headers: Map::<Seq<u8>, Seq<u8>>::empty().insert(lit("Host"), host.spec_bytes()),
                body: Seq::empty(),
            }),
    {
        let mut headers = StringMap::new();
        headers.insert("Host".to_owned(), host.to_owned());
        HttpRequestMessage {
            method: HttpMethod::Get,
            http_version: "1.1".to_owned(),
            url: url.to_owned(),
            headers: headers,
            body: Vec::new(),
        }
    }

    /// The request in wire format.
    pub fn to_bytes(&self) -> (r: Vec<u8>)
        ensures
            r@ == request_bytes(self@),
    {
        let mut ret: Vec<u8> = Vec::new();
        push_bytes(&mut ret, self.method.as_str().as_bytes());
        push_bytes(&mut ret, " ".as_bytes());
        push_bytes(&mut ret, self.url.as_str().as_bytes());
        push_bytes(&mut ret, " HTTP/".as_bytes());
        push_bytes(&mut ret, self.http_version.as_str().as_bytes());
        push_bytes(&mut ret, "\r\n".as_bytes());
        let ghost line = ret@;
        proof {
            assert(line =~= request_start(self@) + crlf());
        }
        push_headers(&mut ret, &self.headers);
        push_bytes(&mut ret, "\r\n".as_bytes());
        let ghost head = ret@;
        proof {
            assert(head =~= line + header_block(listing(self@.headers)) + crlf());
        }
        push_bytes(&mut ret, self.body.as_slice());
        ret
    }
}

impl HttpHeaders for HttpRequestMessage {
    open spec fn header_map(&self) -> Map<Seq<u8>, Seq<u8>> {
        self.headers@
    }

    fn get_raw_headers(&self) -> (r: &StringMap) {
        &self.headers
    }
}

/// An HTTP response.
#[derive(Debug, PartialEq, Eq)]
pub struct HttpResponseMessage {
    pub response_code: u16,
    pub response_status: String,
    pub http_version: String,
    pub headers: StringMap,
    pub body: Vec<u8>,
}

impl View for HttpResponseMessage {
    type V = ResponseModel;

    open spec fn view(&self) -> ResponseModel {
        ResponseModel {
            response_code: self.response_code,
            response_status: utf8(self.response_status@),
            http_version: utf8(self.http_version@),
            headers: self.headers@,
            body: self.body@,
        }
    }
}

/// A `200 OK` HTTP/1.1 response with one header, `Content-Type`, and a body.
pub open spec fn ok_response(content_type: Seq<u8>, body: Seq<u8>) -> ResponseModel {
    ResponseModel {
        response_code: 200,
        response_status: lit("OK"),
        http_version: lit("1.1"),
        headers: Map::<Seq<u8>, Seq<u8>>::empty().insert(lit("Content-Type"), content_type),
        body: body,
    }
}

impl HttpResponseMessage {
    /// A response with code 0, no status text, no version, no headers and no
    /// body.
    pub fn empty() -> (r: HttpResponseMessage)
        ensures
            r@ == (ResponseModel {
                response_code: 0,
                response_status: Seq::empty(),
                http_version: Seq::empty(),
                headers: Map::empty(),
                body: Seq::empty(),
            }),
    {
        HttpResponseMessage {
            response_code: 0,
            response_status: String::new(),
            http_version: String::new(),
            headers: StringMap::new(),
            body: Vec::new(),
        }
    }

    /// The response in wire format.
    pub fn to_bytes(&self) -> (r: Vec<u8>)
        ensures
            r@ == response_bytes(self@),
    {
        let mut ret: Vec<u8> = Vec::new();
        push_bytes(&mut ret, "HTTP/".as_bytes());
        push_bytes(&mut ret, self.http_version.as_str().as_bytes());
        push_bytes(&mut ret, " ".as_bytes());
        push_decimal(&mut ret, self.response_code as u64);
        push_bytes(&mut ret, " ".as_bytes());
        push_bytes(&mut ret, self.response_status.as_str().as_bytes());
        push_bytes(&mut ret, "\r\n".as_bytes());
        let ghost line = ret@;
        proof {
            assert(line =~= response_start(self@) + crlf());
        }
        push_headers(&mut ret, &self.headers);
        push_bytes(&mut ret, "\r\n".as_bytes());
        let ghost head = ret@;
        proof {
            assert(head =~= line + header_block(listing(self@.headers)) + crlf());
        }
        push_bytes(&mut ret, self.body.as_slice());
        ret
    }

    /// A `200 OK` response whose body is `body` and whose content type is
    /// `content_type`.
    fn ok_with(content_type: &str, body: &str) -> (r: HttpResponseMessage)
        ensures
            r@ == ok_response(content_type.spec_bytes(), body.spec_bytes()),
    {
        let mut headers = StringMap::new();
        headers.insert("Content-Type".to_owned(), content_type.to_owned());
        let mut bytes: Vec<u8> = Vec::new();
        push_bytes(&mut bytes, body.as_bytes());
        HttpResponseMessage {
            response_code: 200,
            response_status: "OK".to_owned(),
            http_version: "1.1".to_owned(),
            headers: headers,
            body: bytes,
        }
    }

    /// A `200 OK` response that carries `body` as HTML.
    pub fn html_utf8(body: &str) -> (r: HttpResponseMessage)
        ensures
            r@ == ok_response(lit("text/html; charset=UTF-U8"), body.spec_bytes()),
    {
        HttpResponseMessage::ok_with("text/html; charset=UTF-U8", body)
    }

    /// A `200 OK` response that carries `body` as plain text.
    pub fn text_utf8(body: &str) -> (r: HttpResponseMessage)
        ensures
            r@ == ok_response(lit("text/plain; charset=UTF-8"), body.spec_bytes()),
    {
        HttpResponseMessage::ok_with("text/plain; charset=UTF-8", body)
    }

    /// A `200 OK` response that carries `body` as JSON.
    pub fn json_utf8(body: &str) -> (r: HttpResponseMessage)
        ensures
            r@ == ok_response(lit("application/json; charset=UTF-8"), body.spec_bytes()),
    {
        HttpResponseMessage::ok_with("application/json; charset=UTF-8", body)
    }
}

impl HttpHeaders for HttpResponseMessage {
    open spec fn header_map(&self) -> Map<Seq<u8>, Seq<u8>> {
        self.headers@
    }

    fn get_raw_headers(&self) -> (r: &StringMap) {
        &self.headers
    }
}

/// A request or a response.
#[derive(Debug, PartialEq, Eq)]
pub enum HttpMessage {
    Request(HttpRequestMessage),
    Response(HttpResponseMessage),
}

impl View for HttpMessage {
    type V = MessageModel;

    open spec fn view(&self) -> MessageModel {
        match *self {
            HttpMessage::Request(r) => MessageModel::Request(r@),
            HttpMessage::Response(r) => MessageModel::Response(r@),
        }
    }
}

impl MessageModel {
    /// The body of the message.
    pub open spec fn body(self) -> Seq<u8> {
        match self {
            MessageModel::Request(r) => r.body,
            MessageModel::Response(r) => r.body,
        }
    }

    /// The headers of the message.
    pub open spec fn headers(self) -> Map<Seq<u8>, Seq<u8>> {
        match self {
            MessageModel::Request(r) => r.headers,
            MessageModel::Response(r) => r.headers,
        }
    }

    /// The message with `body` as its body.
    pub open spec fn with_body(self, body: Seq<u8>) -> MessageModel {
        match self {
            MessageModel::Request(r) => MessageModel::Request(RequestModel { body: body, ..r }),
            MessageModel::Response(r) => MessageModel::Response(ResponseModel { body: body, ..r }),
        }
    }

    /// The message with `headers` as its headers.
    pub open spec fn with_headers(self, headers: Map<Seq<u8>, Seq<u8>>) -> MessageModel {
        match self {
            MessageModel::Request(r) => MessageModel::Request(
                RequestModel { headers: headers, ..r },
            ),
            MessageModel::Response(r) => MessageModel::Response(
                ResponseModel { headers: headers, ..r },
            ),
        }
    }

    /// The message with `more` added to the end of its body.
    pub open spec fn with_more_body(self, more: Seq<u8>) -> MessageModel {
        match self {
            MessageModel::Request(r) => MessageModel::Request(
                RequestModel { body: r.body + more, ..r },
            ),
            MessageModel::Response(r) => MessageModel::Response(
                ResponseModel { body: r.body + more, ..r },
            ),
        }
    }

    /// The message with `value` stored under the header `key`.
    pub open spec fn with_header(self, key: Seq<u8>, value: Seq<u8>) -> MessageModel {
        match self {
            MessageModel::Request(r) => MessageModel::Request(
                RequestModel { headers: r.headers.insert(key, value), ..r },
            ),
            MessageModel::Response(r) => MessageModel::Response(
                ResponseModel { headers: r.headers.insert(key, value), ..r },
            ),
        }
    }
}

impl HttpMessage {
    /// The body of the message.
    pub fn get_body(&self) -> (r: &Vec<u8>)
        ensures
            r@ == self@.body(),
    {
        match self {
            HttpMessage::Request(r) => &r.body,
            HttpMessage::Response(r) => &r.body,
        }
    }

    /// The body of the message, for writing: the message holds in the end
    /// what the caller leaves in it, and is otherwise unchanged.
    pub fn get_body_mut(&mut self) -> (r: &mut Vec<u8>)
        ensures
            r@ == old(self)@.body(),
            final(self)@ == old(self)@.with_body(final(r)@),
    {
        match self {
            HttpMessage::Request(r) => &mut r.body,
            HttpMessage::Response(r) => &mut r.body,
        }
    }
}

impl HttpHeaders for HttpMessage {
    open spec fn header_map(&self) -> Map<Seq<u8>, Seq<u8>> {
        self@.headers()
    }

    fn get_raw_headers(&self) -> (r: &StringMap) {
        match self {
            HttpMessage::Request(r) => &r.headers,
            HttpMessage::Response(r) => &r.headers,
        }
    }
}

} // verus!
