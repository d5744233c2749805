//! The incremental parser: it takes a message in pieces of any size and
//! fills in a request or a response line by line.

use crate::http::{
    content_length_of, crlf, HttpHeaders, HttpMessage, HttpMethod, HttpRequestMessage,
    HttpResponseMessage, MessageModel, RequestModel, ResponseModel,
};
use crate::text::{
    bytes_eq, ends_with_bytes, find_bytes, find_bytes_from, find_first, find_from, find_last,
    lemma_ascii_boundary, lemma_find_back_from_greatest, lemma_find_from_least,
    lemma_lit_colon_space, lemma_lit_crlf, lemma_lit_space, lit, parse_decimal, parse_unsigned,
    push_bytes, rfind_bytes, starts_with_bytes, str_from_utf8, str_slice, utf8,
};
use vstd::prelude::*;
use vstd::slice::*;
use vstd::string::*;
use vstd::utf8::*;

verus! {

/// What `parse_bytes` reports on success.
#[derive(Debug, PartialEq, Eq)]
pub enum HttpParserState {
    MoreDataRequired,
    Complete,
}

/// Why a line could not be parsed.
#[derive(Debug, PartialEq, Eq)]
pub enum HttpParserError {
    /// The line, or the URL cut out of it, is not UTF-8.
    InvalidString,
    /// A header line without a colon and a space.
    HeaderError,
    /// A start line that is no request line or status line; it carries the
    /// line.
    LineParseError(String),
}

/// A parse error, the line it carries as bytes.
pub enum ErrorModel {
    InvalidString,
    HeaderError,
    LineParseError(Seq<u8>),
}

impl View for HttpParserError {
    type V = ErrorModel;

    open spec fn view(&self) -> ErrorModel {
        match *self {
            HttpParserError::InvalidString => ErrorModel::InvalidString,
            HttpParserError::HeaderError => ErrorModel::HeaderError,
            HttpParserError::LineParseError(line) => ErrorModel::LineParseError(utf8(line@)),
        }
    }
}

/// The method whose token begins the line, and the length of that token.
/// The tokens are tried in a fixed order.
pub open spec fn request_method(line: Seq<u8>) -> Option<(HttpMethod, int)> {
    if lit("GET").is_prefix_of(line) {
        Some((HttpMethod::Get, lit("GET").len() as int))
    } else if lit("HEAD").is_prefix_of(line) {
        Some((HttpMethod::Head, lit("HEAD").len() as int))
    } else if lit("POST").is_prefix_of(line) {
        Some((HttpMethod::Post, lit("POST").len() as int))
    } else if lit("NOTIFY").is_prefix_of(line) {
        Some((HttpMethod::Notify, lit("NOTIFY").len() as int))
    } else if lit("M-SEARCH").is_prefix_of(line) {
        Some((HttpMethod::MSearch, lit("M-SEARCH").len() as int))
    } else {
        None
    }
}

/// The version that the end of a request line gives.
pub open spec fn request_version(line: Seq<u8>) -> Option<Seq<u8>> {
    if lit("HTTP/1.1").is_suffix_of(line) {
        Some(lit("1.1"))
    } else if lit("HTTP/1.0").is_suffix_of(line) || lit("HTTP/1").is_suffix_of(line) {
        Some(lit("1.0"))
    } else {
        None
    }
}

/// What follows the method token and the one byte after it.
pub open spec fn after_method(line: Seq<u8>, token_len: int) -> Seq<u8> {
    if token_len < line.len() {
        line.subrange(token_len + 1, line.len() as int)
    } else {
        Seq::empty()
    }
}

/// The request that a request line makes of `old`.
///
/// The line must be UTF-8 and begin with a method token. The URL is what
/// stands between the byte after the token and the byte before the last
/// `HTTP/1`; a line without that marker, or with nothing before it, is
/// refused, and so is a URL that is not UTF-8. The version is set where the
/// line ends in a known version, and kept otherwise.
pub open spec fn request_line(old: RequestModel, line: Seq<u8>) -> Result<RequestModel, ErrorModel> {
    if !valid_utf8(line) {
        Err(ErrorModel::InvalidString)
    } else {
        match request_method(line) {
            None => Err(ErrorModel::LineParseError(line)),
            Some((method, token_len)) => {
                let middle = after_method(line, token_len);
                match find_last(middle, lit("HTTP/1")) {
                    None => Err(ErrorModel::LineParseError(line)),
                    Some(mark) => {
                        if mark == 0 {
                            Err(ErrorModel::LineParseError(line))
                        } else if !valid_utf8(middle.subrange(0, mark - 1)) {
                            Err(ErrorModel::InvalidString)
                        } else {
                            Ok(
                                RequestModel {
                                    method: method,
                                    http_version: match request_version(line) {
                                        Some(v) => v,
                                        None => old.http_version,
                                    },
                                    url: middle.subrange(0, mark - 1),
                                    ..old
                                },
                            )
                        }
                    },
                }
            },
        }
    }
}

/// The version that the first field of a status line gives.
pub open spec fn response_version(field: Seq<u8>) -> Option<Seq<u8>> {
    if field == lit("HTTP/1.1") {
        Some(lit("1.1"))
    } else if field == lit("HTTP/1.0") || field == lit("HTTP/1") {
        Some(lit("1.0"))
    } else {
        None
    }
}

/// The response that a status line makes of `old`.
///
/// The line must be UTF-8 and hold two spaces: before the first stands the
/// version, between the first and the second the status code, a decimal
/// number that fits 16 bits, and after the second the status text.
pub open spec fn response_line(old: ResponseModel, line: Seq<u8>) -> Result<
    ResponseModel,
    ErrorModel,
> {
    if !valid_utf8(line) {
        Err(ErrorModel::InvalidString)
    } else {
        match find_first(line, lit(" ")) {
            None => Err(ErrorModel::LineParseError(line)),
            Some(a) => match find_from(line, lit(" "), a + 1) {
                None => Err(ErrorModel::LineParseError(line)),
                Some(b) => match (
                    response_version(line.subrange(0, a)),
                    parse_unsigned(line.subrange(a + 1, b), 0xffff),
                ) {
                    (Some(version), Some(code)) => Ok(
                        ResponseModel {
                            response_code: code as u16,
                            response_status: line.subrange(b + 1, line.len() as int),
                            http_version: version,
                            ..old
                        },
                    ),
                    _ => Err(ErrorModel::LineParseError(line)),
                },
            },
        }
    }
}

/// The key and the value of a header line: what stands before and after the
/// first colon followed by a space.
pub open spec fn header_line(line: Seq<u8>) -> Result<(Seq<u8>, Seq<u8>), ErrorModel> {
    if !valid_utf8(line) {
        Err(ErrorModel::InvalidString)
    } else {
        match find_first(line, lit(": ")) {
            None => Err(ErrorModel::HeaderError),
            Some(sep) => Ok((line.subrange(0, sep), line.subrange(sep + 2, line.len() as int))),
        }
    }
}

/// The message after the line with number `index`: line 0 is the start line,
/// every other line a header.
pub open spec fn apply_line(msg: MessageModel, index: nat, line: Seq<u8>) -> Result<
    MessageModel,
    ErrorModel,
> {
    if index == 0 {
        match msg {
            MessageModel::Request(r) => match request_line(r, line) {
                Ok(m) => Ok(MessageModel::Request(m)),
                Err(e) => Err(e),
            },
            MessageModel::Response(r) => match response_line(r, line) {
                Ok(m) => Ok(MessageModel::Response(m)),
                Err(e) => Err(e),
            },
        }
    } else {
        match header_line(line) {
            Ok((key, value)) => Ok(msg.with_header(key, value)),
            Err(e) => Err(e),
        }
    }
}

/// The state of a parser.
pub struct ParserModel {
    /// The bytes taken in and not yet made into a line.
    pub pending: Seq<u8>,
    /// The number of lines read, the empty line that ends the headers among
    /// them.
    pub lines: nat,
    /// Whether the empty line that ends the headers was read.
    pub headers_done: bool,
    /// The message as far as it is read.
    pub msg: MessageModel,
}

/// A parser state, and the error that ended the parsing, if any.
pub struct FeedOutcome {
    pub state: ParserModel,
    pub error: Option<ErrorModel>,
}

/// Reads the complete lines at the front of the pending bytes, one after the
/// other, up to the empty line, the first line in error, or the last line
/// end. A line in error is taken off the pending bytes and changes nothing
/// else. (A line end that is found lies within the pending bytes: the test
/// for it is there for the recursion's sake.)
#[verifier::opaque]
pub open spec fn scan(m: ParserModel) -> FeedOutcome
    decreases m.pending.len(),
{
    match find_first(m.pending, crlf()) {
        None => FeedOutcome { state: m, error: None },
        Some(end) => {
            if 0 <= end && end + 2 <= m.pending.len() {
                let line = m.pending.subrange(0, end);
                let rest = m.pending.subrange(end + 2, m.pending.len() as int);
                if end == 0 {
                    FeedOutcome {
                        state: ParserModel {
                            pending: rest,
                            lines: m.lines + 1,
                            headers_done: true,
                            ..m
                        },
                        error: None,
                    }
                } else {
                    match apply_line(m.msg, m.lines, line) {
                        Err(e) => FeedOutcome {
                            state: ParserModel { pending: rest, ..m },
                            error: Some(e),
                        },
                        Ok(msg) => scan(
                            ParserModel { pending: rest, lines: m.lines + 1, msg: msg, ..m },
                        ),
                    }
                }
            } else {
                FeedOutcome { state: m, error: None }
            }
        },
    }
}

/// Once the headers are done, what is pending belongs to the body.
pub open spec fn flush(m: ParserModel) -> ParserModel {
    if m.headers_done {
        ParserModel { pending: Seq::empty(), msg: m.msg.with_more_body(m.pending), ..m }
    } else {
        m
    }
}

/// The parser after it was given `data`. Nothing changes on empty data.
/// Otherwise the data joins the pending bytes; while the headers are not
/// done the complete lines are read; and once they are done all that is
/// pending goes to the body.
pub open spec fn feed(m: ParserModel, data: Seq<u8>) -> FeedOutcome {
    if data.len() == 0 {
        FeedOutcome { state: m, error: None }
    } else {
        let taken = ParserModel { pending: m.pending + data, ..m };
        let read = if taken.headers_done {
            FeedOutcome { state: taken, error: None }
        } else {
            scan(taken)
        };
        if read.error is Some {
            read
        } else {
            FeedOutcome { state: flush(read.state), error: None }
        }
    }
}

/// A parser that has read nothing and fills `msg`.
pub open spec fn fresh(msg: MessageModel) -> ParserModel {
    ParserModel { pending: Seq::empty(), lines: 0, headers_done: false, msg: msg }
}

/// Whether a parser has read all that it can of what it was given: with the
/// headers done nothing is pending, and before that no complete line is.
pub open spec fn settled(m: ParserModel) -> bool {
    if m.headers_done {
        m.pending.len() == 0
    } else {
        find_first(m.pending, crlf()) is None
    }
}

/// How many more bytes the message needs: 1 while the headers are not done;
/// then 0 for a GET or HEAD request; else what is missing of the declared
/// `Content-Length`; and 1 where no length is declared.
pub open spec fn bytes_needed(m: ParserModel) -> nat {
    if m.lines > 0 && m.headers_done {
        if m.msg matches MessageModel::Request(r) && (r.method == HttpMethod::Get || r.method
            == HttpMethod::Head) {
            0
        } else {
            match content_length_of(m.msg.headers()) {
                Some(n) => if n > m.msg.body().len() {
                    (n - m.msg.body().len()) as nat
                } else {
                    0
                },
                None => 1,
            }
        }
    } else {
        1
    }
}

/// Reading lines leaves a request a request and a response a response.
pub proof fn lemma_scan_keeps_kind(m: ParserModel)
    ensures
        scan(m).state.msg is Request <==> m.msg is Request,
    decreases m.pending.len(),
{
    reveal(scan);
    match find_first(m.pending, crlf()) {
        None => {},
        Some(end) => {
            if 0 <= end && end + 2 <= m.pending.len() && end != 0 {
                let line = m.pending.subrange(0, end);
                let rest = m.pending.subrange(end + 2, m.pending.len() as int);
                match apply_line(m.msg, m.lines, line) {
                    Err(e) => {},
                    Ok(msg) => {
                        lemma_scan_keeps_kind(
                            ParserModel { pending: rest, lines: m.lines + 1, msg: msg, ..m },
                        );
                    },
                }
            }
        },
    }
}

/// Whatever a parser is given, a parser for a request stays one, and a
/// parser for a response stays one.
pub proof fn lemma_feed_keeps_kind(m: ParserModel, data: Seq<u8>)
    ensures
        feed(m, data).state.msg is Request <==> m.msg is Request,
{
    lemma_scan_keeps_kind(ParserModel { pending: m.pending + data, ..m });
}

/// A GET or HEAD request needs no body once its headers are done, whatever
/// its headers say.
pub proof fn lemma_get_and_head_need_no_body(m: ParserModel)
    requires
        m.headers_done,
        m.lines > 0,
        m.msg matches MessageModel::Request(r) && (r.method == HttpMethod::Get || r.method
            == HttpMethod::Head),
    ensures
        bytes_needed(m) == 0,
{
}

/// Once the headers are done, every byte given to the parser is added to
/// the body, and nothing else changes.
pub proof fn lemma_body_grows(m: ParserModel, more: Seq<u8>)
    requires
        settled(m),
        m.headers_done,
    ensures
        feed(m, more).error is None,
        feed(m, more).state == (ParserModel { msg: m.msg.with_more_body(more), ..m }),
        feed(m, more).state.msg.body() == m.msg.body() + more,
        feed(m, more).state.msg.headers() == m.msg.headers(),
{
    assert(m.pending + more =~= more);
    assert(m.pending =~= Seq::<u8>::empty());
    if more.len() == 0 {
        assert(m.msg.body() + more =~= m.msg.body());
    }
}

/// The declared length drives the completion of the body: with the headers
/// done and a `Content-Length` of `n`, a message that is no GET or HEAD
/// request needs what is missing of `n` bytes, so none from the moment that
/// the body holds `n` bytes.
pub proof fn lemma_content_length_drives_completion(m: ParserModel, n: u32)
    requires
        m.headers_done,
        m.lines > 0,
        !(m.msg matches MessageModel::Request(r) && (r.method == HttpMethod::Get || r.method
            == HttpMethod::Head)),
        content_length_of(m.msg.headers()) == Some(n),
    ensures
        m.msg.body().len() <= n ==> bytes_needed(m) == n - m.msg.body().len(),
        m.msg.body().len() >= n ==> bytes_needed(m) == 0,
{
}

/// Reads a request line into `msg`. On an error `msg` is unchanged.
fn parse_first_request_line(msg: &mut HttpRequestMessage, line: &[u8]) -> (r: Result<
    (),
    HttpParserError,
>)
    ensures
        match request_line(old(msg)@, line@) {
            Ok(m) => r is Ok && final(msg)@ == m,
            Err(e) => r matches Err(x) && x@ == e && *final(msg) == *old(msg),
        },
{
    let text = match str_from_utf8(line) {
        Some(s) => s,
        None => {
            return Err(HttpParserError::InvalidString);
        },
    };
    let method: HttpMethod;
    let token_len: usize;
    if starts_with_bytes(line, "GET".as_bytes()) {
        method = HttpMethod::Get;
        token_len = "GET".len();
    } else if starts_with_bytes(line, "HEAD".as_bytes()) {
        method = HttpMethod::Head;
        token_len = "HEAD".len();
    } else if starts_with_bytes(line, "POST".as_bytes()) {
        method = HttpMethod::Post;
        token_len = "POST".len();
    } else if starts_with_bytes(line, "NOTIFY".as_bytes()) {
        method = HttpMethod::Notify;
        token_len = "NOTIFY".len();
    } else if starts_with_bytes(line, "M-SEARCH".as_bytes()) {
        method = HttpMethod::MSearch;
        token_len = "M-SEARCH".len();
    } else {
        return Err(HttpParserError::LineParseError(text.to_owned()));
    }
    let from: usize = if token_len < line.len() {
        token_len + 1
    } else {
        line.len()
    };
    let middle = slice_subrange(line, from, line.len());
    proof {
        assert(middle@ =~= after_method(line@, token_len as int));
    }
    let mark: usize = match rfind_bytes(middle, "HTTP/1".as_bytes()) {
        Some(l) => l,
        None => {
            return Err(HttpParserError::LineParseError(text.to_owned()));
        },
    };
    if mark == 0 {
        return Err(HttpParserError::LineParseError(text.to_owned()));
    }
    proof {
        lemma_find_back_from_greatest(
            middle@,
            lit("HTTP/1"),
            middle@.len() - lit("HTTP/1").len(),
        );
    }
    let url = match str_from_utf8(slice_subrange(middle, 0, mark - 1)) {
        Some(s) => s.to_owned(),
        None => {
            return Err(HttpParserError::InvalidString);
        },
    };
    if ends_with_bytes(line, "HTTP/1.1".as_bytes()) {
        msg.http_version = "1.1".to_owned();
    } else if ends_with_bytes(line, "HTTP/1.0".as_bytes()) || ends_with_bytes(
        line,
        "HTTP/1".as_bytes(),
    ) {
        msg.http_version = "1.0".to_owned();
    }
    msg.method = method;
    msg.url = url;
    Ok(())
}

/// Reads a status line into `msg`. On an error `msg` is unchanged.
fn parse_first_response_line(msg: &mut HttpResponseMessage, line: &[u8]) -> (r: Result<
    (),
    HttpParserError,
>)
    ensures
        match response_line(old(msg)@, line@) {
            Ok(m) => r is Ok && final(msg)@ == m,
            Err(e) => r matches Err(x) && x@ == e && *final(msg) == *old(msg),
        },
{
    let text = match str_from_utf8(line) {
        Some(s) => s,
        None => {
            return Err(HttpParserError::InvalidString);
        },
    };
    let len: usize = line.len();
    let a: usize = match find_bytes(line, " ".as_bytes()) {
        Some(a) => a,
        None => {
            return Err(HttpParserError::LineParseError(text.to_owned()));
        },
    };
    proof {
        lemma_lit_space();
        lemma_find_from_least(line@, lit(" "), 0);
    }
    let b: usize = match find_bytes_from(line, " ".as_bytes(), a + 1) {
        Some(b) => b,
        None => {
            return Err(HttpParserError::LineParseError(text.to_owned()));
        },
    };
    proof {
        lemma_find_from_least(line@, lit(" "), a + 1);
    }
    let field = slice_subrange(line, 0, a);
    let version: &str;
    if bytes_eq(field, "HTTP/1.1".as_bytes()) {
        version = "1.1";
    } else if bytes_eq(field, "HTTP/1.0".as_bytes()) || bytes_eq(field, "HTTP/1".as_bytes()) {
        version = "1.0";
    } else {
        return Err(HttpParserError::LineParseError(text.to_owned()));
    }
    let code: u16 = match parse_decimal(slice_subrange(line, a + 1, b), 0xffff) {
        Some(n) => n as u16,
        None => {
            return Err(HttpParserError::LineParseError(text.to_owned()));
        },
    };
    proof {
        assert(line@.subrange(b as int, b + 1) == lit(" "));
        assert(line@[b as int] == line@.subrange(b as int, b + 1)[0]);
        lemma_ascii_boundary(line@, b as int);
        is_char_boundary_start_end_of_seq(line@);
    }
    let status = str_slice(text, b + 1, len);
    msg.http_version = version.to_owned();
    msg.response_code = code;
    msg.response_status = status.to_owned();
    Ok(())
}

/// Reads a header line into the headers of `msg`. On an error `msg` is
/// unchanged.
fn parse_header_line(msg: &mut HttpMessage, line: &[u8]) -> (r: Result<(), HttpParserError>)
    ensures
        match header_line(line@) {
            Ok((key, value)) => r is Ok && final(msg)@ == old(msg)@.with_header(key, value),
            Err(e) => r matches Err(x) && x@ == e && *final(msg) == *old(msg),
        },
{
    let text = match str_from_utf8(line) {
        Some(s) => s,
        None => {
            return Err(HttpParserError::InvalidString);
        },
    };
    let len: usize = line.len();
    let sep: usize = match find_bytes(line, ": ".as_bytes()) {
        Some(i) => i,
        None => {
            return Err(HttpParserError::HeaderError);
        },
    };
    proof {
        lemma_lit_colon_space();
        lemma_find_from_least(line@, lit(": "), 0);
        let found = line@.subrange(sep as int, sep + 2);
        assert(found == lit(": "));
        assert(line@[sep as int] == found[0]);
        assert(line@[sep + 1] == found[1]);
        lemma_ascii_boundary(line@, sep as int);
        lemma_ascii_boundary(line@, sep + 1);
        is_char_boundary_start_end_of_seq(line@);
    }
    let key = str_slice(text, 0, sep).to_owned();
    let value = str_slice(text, sep + 2, len).to_owned();
    match msg {
        HttpMessage::Request(r) => {
            r.headers.insert(key, value);
        },
        HttpMessage::Response(r) => {
            r.headers.insert(key, value);
        },
    }
    Ok(())
}

/// An incremental parser for one message.
pub struct HttpParser {
    buffer: Vec<u8>,
    pos: usize,
    line_num: usize,
    headers_parsed: bool,
    msg: HttpMessage,
}

impl View for HttpParser {
    type V = ParserModel;

    closed spec fn view(&self) -> ParserModel {
        ParserModel {
            pending: self.buffer@.subrange(self.pos as int, self.buffer@.len() as int),
            lines: self.line_num as nat,
            headers_done: self.headers_parsed,
            msg: self.msg@,
        }
    }
}

impl HttpParser {
    /// Whether the cursor lies in the buffer and the line count is in step
    /// with it.
    pub closed spec fn wf(&self) -> bool {
        &&& self.pos <= self.buffer@.len()
        &&& !self.headers_parsed ==> 2 * self.line_num <= self.pos
    }

    /// A parser that fills `msg`.
    pub fn new(msg: HttpMessage) -> (r: HttpParser)
        ensures
            r.wf(),
            settled(r@),
            r@ == fresh(msg@),
    {
        let r = HttpParser {
            buffer: Vec::new(),
            pos: 0,
            line_num: 0,
            headers_parsed: false,
            msg: msg,
        };
        proof {
            assert(r@.pending =~= Seq::<u8>::empty());
            lemma_lit_crlf();
        }
        r
    }

    /// A parser for a request.
    pub fn new_request() -> (r: HttpParser)
        ensures
            r.wf(),
            settled(r@),
            r@ == fresh(
                MessageModel::Request(
                    RequestModel {
                        method: HttpMethod::Get,
                        http_version: Seq::empty(),
                        url: Seq::empty(),
                        headers: Map::empty(),
                        body: Seq::empty(),
                    },
                ),
            ),
    {
        HttpParser::new(HttpMessage::Request(HttpRequestMessage::empty()))
    }

    /// A parser for a response.
    pub fn new_response() -> (r: HttpParser)
        ensures
            r.wf(),
            settled(r@),
            r@ == fresh(
                MessageModel::Response(
                    ResponseModel {
                        response_code: 0,
                        response_status: Seq::empty(),
                        http_version: Seq::empty(),
                        headers: Map::empty(),
                        body: Seq::empty(),
                    },
                ),
            ),
    {
        HttpParser::new(HttpMessage::Response(HttpResponseMessage::empty()))
    }

    /// Whether a line was read.
    pub fn is_first_line_parsed(&self) -> (r: bool)
        ensures
            r == (self@.lines > 0),
    {
        self.line_num > 0
    }

    /// Whether the empty line that ends the headers was read.
    pub fn are_headers_parsed(&self) -> (r: bool)
        ensures
            r == self@.headers_done,
    {
        self.headers_parsed
    }

    /// How many more bytes the message needs; 0 says that it is complete.
    pub fn read_how_many_bytes(&self) -> (r: u32)
        ensures
            r == bytes_needed(self@),
    {
        if self.is_first_line_parsed() && self.are_headers_parsed() {
            match &self.msg {
                HttpMessage::Request(req) => {
                    if req.method == HttpMethod::Get || req.method == HttpMethod::Head {
                        return 0;
                    }
                },
                HttpMessage::Response(_) => {},
            }
            match self.msg.content_length() {
                Some(len) => {
                    let have: usize = self.msg.get_body().len();
                    if have >= len as usize {
                        return 0;
                    }
                    return len - have as u32;
                },
                None => {},
            }
        }
        1
    }

    /// Reads the next complete line of the pending bytes, if there is one.
    /// `Ok(true)` says that a start line or a header was read and more lines
    /// may follow.
    fn read_line(&mut self) -> (r: Result<bool, HttpParserError>)
        requires
            old(self).wf(),
            !old(self)@.headers_done,
        ensures
            final(self).wf(),
            final(self)@.pending.len() <= old(self)@.pending.len(),
            r == Ok::<bool, HttpParserError>(false) ==> final(self)@.headers_done || settled(
                final(self)@,
            ),
            match r {
                Ok(true) => !final(self)@.headers_done && scan(final(self)@) == scan(old(self)@)
                    && final(self)@.pending.len() < old(self)@.pending.len(),
                Ok(false) => scan(old(self)@) == (FeedOutcome { state: final(self)@, error: None }),
                Err(e) => scan(old(self)@) == (FeedOutcome {
                    state: final(self)@,
                    error: Some(e@),
                }),
            },
    {
        proof {
            reveal(scan);
        }
        let start: usize = self.pos;
        let pending = slice_subrange(self.buffer.as_slice(), start, self.buffer.len());
        let end: usize = match find_bytes(pending, "\r\n".as_bytes()) {
            None => {
                return Ok(false);
            },
            Some(end) => end,
        };
        let ghost prev = self@;
        proof {
            lemma_lit_crlf();
            lemma_find_from_least(pending@, crlf(), 0);
            assert(self.buffer@.subrange(start + end + 2, self.buffer@.len() as int)
                =~= pending@.subrange(end + 2, pending@.len() as int));
        }
        self.pos = start + end + 2;
        if end == 0 {
            self.line_num = self.line_num + 1;
            self.headers_parsed = true;
            return Ok(false);
        }
        let line = slice_subrange(pending, 0, end);
        let res = if self.line_num == 0 {
            match &mut self.msg {
                HttpMessage::Request(m) => parse_first_request_line(m, line),
                HttpMessage::Response(m) => parse_first_response_line(m, line),
            }
        } else {
            parse_header_line(&mut self.msg, line)
        };
        match res {
            Err(e) => {
                return Err(e);
            },
            Ok(()) => {},
        }
        self.line_num = self.line_num + 1;
        Ok(true)
    }

    /// Takes in the next piece of the message.
    ///
    /// The parser moves to the state that `feed` gives. The result is
    /// `MoreDataRequired` unless a line was in error; `read_how_many_bytes`
    /// tells whether the message is complete.
    pub fn parse_bytes(&mut self, data: &[u8]) -> (r: Result<HttpParserState, HttpParserError>)
        requires
            old(self).wf(),
        ensures
            final(self).wf(),
            final(self)@ == feed(old(self)@, data@).state,
            final(self)@.msg is Request <==> old(self)@.msg is Request,
            r is Ok && settled(old(self)@) ==> settled(final(self)@),
            match r {
                Ok(state) => state is MoreDataRequired && feed(old(self)@, data@).error is None,
                Err(e) => feed(old(self)@, data@).error == Some(e@),
            },
    {
        proof {
            lemma_feed_keeps_kind(old(self)@, data@);
        }
        if data.len() == 0 {
            return Ok(HttpParserState::MoreDataRequired);
        }
        push_bytes(&mut self.buffer, data);
        let ghost taken = ParserModel { pending: old(self)@.pending + data@, ..old(self)@ };
        proof {
            assert(self@.pending =~= taken.pending);
            assert(self@ == taken);
        }
        if !self.headers_parsed {
            let ghost target = scan(taken);
            let mut more: bool = true;
            while more
                invariant
                    self.wf(),
                    data@.len() != 0,
                    !old(self)@.headers_done,
                    taken == (ParserModel { pending: old(self)@.pending + data@, ..old(self)@ }),
                    target == scan(taken),
                    feed(old(self)@, data@).state.msg is Request <==> old(self)@.msg is Request,
                    more ==> !self@.headers_done && scan(self@) == target,
                    !more ==> self@.headers_done || settled(self@),
                    !more ==> target == (FeedOutcome { state: self@, error: None }),
                decreases self@.pending.len() + (if more { 1int } else { 0int }),
            {
                match self.read_line() {
                    Ok(again) => {
                        more = again;
                    },
                    Err(e) => {
                        return Err(e);
                    },
                }
            }
        }
        if self.headers_parsed {
            let ghost read = self@;
            let rest = slice_subrange(self.buffer.as_slice(), self.pos, self.buffer.len());
            match &mut self.msg {
                HttpMessage::Request(m) => {
                    push_bytes(&mut m.body, rest);
                },
                HttpMessage::Response(m) => {
                    push_bytes(&mut m.body, rest);
                },
            }
            self.buffer.clear();
            self.pos = 0;
            proof {
                assert(self@.pending =~= Seq::<u8>::empty());
                assert(self@ == flush(read));
            }
        }
        Ok(HttpParserState::MoreDataRequired)
    }

    /// The message as far as it is read.
    pub fn get_message(&self) -> (r: &HttpMessage)
        ensures
            r@ == self@.msg,
    {
        &self.msg
    }

    /// The request as far as it is read, where the parser reads a request.
    pub fn get_request(&self) -> (r: Option<&HttpRequestMessage>)
        ensures
            match self@.msg {
                MessageModel::Request(m) => r matches Some(x) && x@ == m,
                MessageModel::Response(_) => r is None,
            },
    {
        match &self.msg {
            HttpMessage::Request(m) => Some(m),
            HttpMessage::Response(_) => None,
        }
    }

    /// The request, where the parser read a request.
    pub fn into_request(self) -> (r: Option<HttpRequestMessage>)
        ensures
            match self@.msg {
                MessageModel::Request(m) => r matches Some(x) && x@ == m,
                MessageModel::Response(_) => r is None,
            },
    {
        match self.msg {
            HttpMessage::Request(m) => Some(m),
            HttpMessage::Response(_) => None,
        }
    }

    /// The response as far as it is read, where the parser reads a response.
    pub fn get_response(&self) -> (r: Option<&HttpResponseMessage>)
        ensures
            match self@.msg {
                MessageModel::Response(m) => r matches Some(x) && x@ == m,
                MessageModel::Request(_) => r is None,
            },
    {
        match &self.msg {
            HttpMessage::Response(m) => Some(m),
            HttpMessage::Request(_) => None,
        }
    }

    /// The response, where the parser read a response.
    pub fn into_response(self) -> (r: Option<HttpResponseMessage>)
        ensures
            match self@.msg {
                MessageModel::Response(m) => r matches Some(x) && x@ == m,
                MessageModel::Request(_) => r is None,
            },
    {
        match self.msg {
            HttpMessage::Response(m) => Some(m),
            HttpMessage::Request(_) => None,
        }
    }
}

} // verus!
