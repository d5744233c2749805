use core_mini_http::http::{HttpHeaders, HttpMessage, HttpMethod, HttpRequestMessage};
use core_mini_http::parser::{HttpParser, HttpParserError, HttpParserState};

fn feed_whole(parser: &mut HttpParser, bytes: &[u8]) -> Result<HttpParserState, HttpParserError> {
    parser.parse_bytes(bytes)
}

fn feed_in_pieces(
    parser: &mut HttpParser,
    bytes: &[u8],
    size: usize,
) -> Result<HttpParserState, HttpParserError> {
    let mut last = Ok(HttpParserState::MoreDataRequired);
    for piece in bytes.chunks(size) {
        last = parser.parse_bytes(piece);
        if last.is_err() {
            return last;
        }
    }
    last
}

#[test]
fn test_request_parsing() {
    let msg = "GET /index.html HTTP/1.1\r\nHost: www.example.com\r\n\r\nbody";

    let mut parser = HttpParser::new_request();
    let bytes: Vec<u8> = msg.bytes().collect();
    parser.parse_bytes(&bytes).unwrap();

    let req = parser.get_request().unwrap();
    println!("parsed: {:?}", req);
    assert_eq!(req.method, HttpMethod::Get);
    assert_eq!(req.url, "/index.html");
    assert_eq!(req.http_version, "1.1");
    assert_eq!(req.get_raw_header("Host").unwrap(), "www.example.com");
    assert_eq!(req.headers.len(), 1);
    assert_eq!(req.body, b"body".to_vec());
}

#[test]
fn test_response_parsing() {
    let msg = b"HTTP/1.1 200 OK\r\n\
Date: Mon, 23 May 2005 22:38:34 GMT\r\n\
Server: Apache/1.3.3.7 (Unix) (Red-Hat/Linux)\r\n\
Last-Modified: Wed, 08 Jan 2003 23:11:55 GMT\r\n\
ETag: \"3f80f-1b6-3e1cb03b\"\r\n\
Content-Type: text/html; charset=UTF-8\r\n\
Content-Length: 138\r\n\
Accept-Ranges: bytes\r\n\
Connection: close\r\n\
\r\n\
<html>\r\n\
<head>\r\n\
  <title>An Example Page</title>\r\n\
</head>\r\n\
<body>\r\n\
  Hello World, this is a very simple HTML document.\r\n\
</body>\r\n\
</html>";

    let mut parser = HttpParser::new_response();
    parser.parse_bytes(msg).unwrap();

    let resp = parser.get_response().unwrap();
    println!("parsed: {:?}", resp);
    assert_eq!(resp.response_code, 200);
    assert_eq!(resp.response_status, "OK");
    assert_eq!(resp.http_version, "1.1");
    assert_eq!(resp.headers.len(), 8);
    assert_eq!(resp.get_raw_header("ETag").unwrap(), "\"3f80f-1b6-3e1cb03b\"");
    assert_eq!(resp.get_raw_header("Date").unwrap(), "Mon, 23 May 2005 22:38:34 GMT");
    assert_eq!(resp.content_length(), Some(138));
    assert_eq!(resp.body.len(), 132);
    assert!(resp.body.starts_with(b"<html>\r\n<head>"));
    assert!(resp.body.ends_with(b"</html>"));
    assert_eq!(parser.read_how_many_bytes(), 6);
}

#[test]
fn malformed_start_line_is_refused() {
    let mut parser = HttpParser::new_request();
    let r = parser.parse_bytes(b"GARBAGE /x HTTP/1.1\r\n\r\n");
    assert_eq!(r, Err(HttpParserError::LineParseError("GARBAGE /x HTTP/1.1".to_string())));
    assert!(!parser.is_first_line_parsed());
    assert!(!parser.are_headers_parsed());
    assert_eq!(parser.get_request().unwrap().headers.len(), 0);
    assert_eq!(parser.read_how_many_bytes(), 1);
}

#[test]
fn parse_bytes_reports_more_data_required() {
    let mut parser = HttpParser::new_request();
    assert_eq!(parser.parse_bytes(b""), Ok(HttpParserState::MoreDataRequired));
    assert_eq!(parser.parse_bytes(b"GET /x HT"), Ok(HttpParserState::MoreDataRequired));
    assert_eq!(parser.parse_bytes(b"TP/1.1\r\n\r\n"), Ok(HttpParserState::MoreDataRequired));
    assert_eq!(parser.read_how_many_bytes(), 0);
    assert_eq!(parser.parse_bytes(b""), Ok(HttpParserState::MoreDataRequired));
    assert_eq!(parser.read_how_many_bytes(), 0);
}

#[test]
fn one_piece_and_many_pieces_give_the_same_request() {
    let bytes = b"POST /submit?a=1 HTTP/1.0\r\nHost: example.org\r\nContent-Length: 11\r\nX-Empty: \r\n\r\nhello\r\nworld";
    let mut whole = HttpParser::new_request();
    assert!(feed_whole(&mut whole, bytes).is_ok());
    assert_eq!(whole.read_how_many_bytes(), 0);
    for size in 1..bytes.len() {
        let mut pieces = HttpParser::new_request();
        assert!(feed_in_pieces(&mut pieces, bytes, size).is_ok());
        assert_eq!(pieces.get_request(), whole.get_request());
        assert_eq!(pieces.read_how_many_bytes(), 0);
        assert_eq!(pieces.is_first_line_parsed(), whole.is_first_line_parsed());
        assert_eq!(pieces.are_headers_parsed(), whole.are_headers_parsed());
    }
    let req = whole.into_request().unwrap();
    assert_eq!(req.method, HttpMethod::Post);
    assert_eq!(req.url, "/submit?a=1");
    assert_eq!(req.http_version, "1.0");
    assert_eq!(req.get_raw_header("X-Empty").unwrap(), "");
    assert_eq!(req.body, b"hello\r\nworld".to_vec());
}

#[test]
fn one_piece_and_many_pieces_give_the_same_response() {
    let bytes = b"HTTP/1.0 404 Not Found\r\nContent-Length: 3\r\nServer: x\r\n\r\nabc";
    let mut whole = HttpParser::new_response();
    assert!(feed_whole(&mut whole, bytes).is_ok());
    for size in 1..bytes.len() {
        let mut pieces = HttpParser::new_response();
        assert!(feed_in_pieces(&mut pieces, bytes, size).is_ok());
        assert_eq!(pieces.get_response(), whole.get_response());
        assert_eq!(pieces.read_how_many_bytes(), 0);
    }
    let resp = whole.into_response().unwrap();
    assert_eq!(resp.response_code, 404);
    assert_eq!(resp.response_status, "Not Found");
    assert_eq!(resp.http_version, "1.0");
    assert_eq!(resp.body, b"abc".to_vec());
}

#[test]
fn one_piece_and_many_pieces_give_the_same_error() {
    let bytes = b"GET / HTTP/1.1\r\nHost: a\r\nbroken header\r\n\r\n";
    let mut whole = HttpParser::new_request();
    assert_eq!(feed_whole(&mut whole, bytes), Err(HttpParserError::HeaderError));
    for size in 1..bytes.len() {
        let mut pieces = HttpParser::new_request();
        assert_eq!(feed_in_pieces(&mut pieces, bytes, size), Err(HttpParserError::HeaderError));
        assert_eq!(pieces.get_request(), whole.get_request());
    }
}

#[test]
fn get_needs_no_body_whatever_the_content_length() {
    let mut parser = HttpParser::new_request();
    parser.parse_bytes(b"GET /a HTTP/1.1\r\nContent-Length: 50\r\n").unwrap();
    assert_eq!(parser.read_how_many_bytes(), 1);
    parser.parse_bytes(b"\r\n").unwrap();
    assert_eq!(parser.read_how_many_bytes(), 0);
    let req = parser.get_request().unwrap();
    assert_eq!(req.content_length(), Some(50));
    assert!(req.body.is_empty());
}

#[test]
fn head_needs_no_body_whatever_the_content_length() {
    let mut parser = HttpParser::new_request();
    parser.parse_bytes(b"HEAD /a HTTP/1.1\r\nContent-Length: 50\r\n\r\n").unwrap();
    assert_eq!(parser.get_request().unwrap().method, HttpMethod::Head);
    assert_eq!(parser.read_how_many_bytes(), 0);
    assert!(parser.get_message().get_body().is_empty());
}

#[test]
fn content_length_drives_body_completion() {
    let mut parser = HttpParser::new_request();
    parser.parse_bytes(b"POST /form HTTP/1.1\r\nContent-Length: 5\r\n\r\n").unwrap();
    assert_eq!(parser.read_how_many_bytes(), 5);
    parser.parse_bytes(b"ab").unwrap();
    assert_eq!(parser.read_how_many_bytes(), 3);
    parser.parse_bytes(b"cde").unwrap();
    assert_eq!(parser.read_how_many_bytes(), 0);
    assert_eq!(parser.get_request().unwrap().body, b"abcde".to_vec());
    parser.parse_bytes(b"fg").unwrap();
    assert_eq!(parser.read_how_many_bytes(), 0);
    assert_eq!(parser.get_request().unwrap().body, b"abcdefg".to_vec());
}

#[test]
fn body_without_content_length_is_never_complete() {
    let mut parser = HttpParser::new_request();
    parser.parse_bytes(b"POST /form HTTP/1.1\r\nHost: a\r\n\r\nabc").unwrap();
    assert_eq!(parser.read_how_many_bytes(), 1);
    parser.parse_bytes(b"more\r\nand more\r\n\r\n").unwrap();
    assert_eq!(parser.read_how_many_bytes(), 1);
    assert_eq!(parser.get_request().unwrap().body, b"abcmore\r\nand more\r\n\r\n".to_vec());
}

#[test]
fn content_length_that_is_no_number_counts_as_absent() {
    let mut parser = HttpParser::new_response();
    parser.parse_bytes(b"HTTP/1.1 200 OK\r\nContent-Length: 12a\r\n\r\n").unwrap();
    assert_eq!(parser.get_response().unwrap().content_length(), None);
    assert_eq!(parser.read_how_many_bytes(), 1);
    let mut negative = HttpParser::new_response();
    negative.parse_bytes(b"HTTP/1.1 200 OK\r\nContent-Length: -1\r\n\r\n").unwrap();
    assert_eq!(negative.read_how_many_bytes(), 1);
    let mut large = HttpParser::new_response();
    large.parse_bytes(b"HTTP/1.1 200 OK\r\nContent-Length: 4294967296\r\n\r\n").unwrap();
    assert_eq!(large.read_how_many_bytes(), 1);
    let mut most = HttpParser::new_response();
    most.parse_bytes(b"HTTP/1.1 200 OK\r\nContent-Length: 4294967295\r\n\r\nx").unwrap();
    assert_eq!(most.read_how_many_bytes(), 4294967294);
    let mut plus = HttpParser::new_response();
    plus.parse_bytes(b"HTTP/1.1 200 OK\r\nContent-Length: +007\r\n\r\nx").unwrap();
    assert_eq!(plus.read_how_many_bytes(), 6);
}

#[test]
fn response_with_zero_content_length_is_complete_at_once() {
    let mut parser = HttpParser::new_response();
    parser.parse_bytes(b"HTTP/1.1 204 No Content\r\nContent-Length: 0\r\n\r\n").unwrap();
    assert_eq!(parser.read_how_many_bytes(), 0);
    let resp = parser.get_response().unwrap();
    assert_eq!(resp.response_code, 204);
    assert_eq!(resp.response_status, "No Content");
}

#[test]
fn sentinel_while_the_headers_are_open() {
    let mut parser = HttpParser::new_request();
    assert_eq!(parser.read_how_many_bytes(), 1);
    parser.parse_bytes(b"POST / HTTP/1.1\r").unwrap();
    assert!(!parser.is_first_line_parsed());
    assert_eq!(parser.read_how_many_bytes(), 1);
    parser.parse_bytes(b"\nContent-Length: 0\r\n").unwrap();
    assert!(parser.is_first_line_parsed());
    assert!(!parser.are_headers_parsed());
    assert_eq!(parser.read_how_many_bytes(), 1);
    parser.parse_bytes(b"\r").unwrap();
    assert_eq!(parser.read_how_many_bytes(), 1);
    parser.parse_bytes(b"\n").unwrap();
    assert!(parser.are_headers_parsed());
    assert_eq!(parser.read_how_many_bytes(), 0);
}

#[test]
fn empty_first_line_ends_the_headers() {
    let mut parser = HttpParser::new_request();
    parser.parse_bytes(b"\r\nGET / HTTP/1.1\r\n").unwrap();
    assert!(parser.is_first_line_parsed());
    assert!(parser.are_headers_parsed());
    let req = parser.get_request().unwrap();
    assert_eq!(req.url, "");
    assert_eq!(req.body, b"GET / HTTP/1.1\r\n".to_vec());
    assert_eq!(parser.read_how_many_bytes(), 0);
}

#[test]
fn method_tokens() {
    let cases: Vec<(&[u8], HttpMethod)> = vec![
        (b"GET /a HTTP/1.1\r\n", HttpMethod::Get),
        (b"HEAD /a HTTP/1.1\r\n", HttpMethod::Head),
        (b"POST /a HTTP/1.1\r\n", HttpMethod::Post),
        (b"NOTIFY /a HTTP/1.1\r\n", HttpMethod::Notify),
        (b"M-SEARCH /a HTTP/1.1\r\n", HttpMethod::MSearch),
    ];
    for (line, method) in cases {
        let mut parser = HttpParser::new_request();
        parser.parse_bytes(line).unwrap();
        let req = parser.get_request().unwrap();
        assert_eq!(req.method, method);
        assert_eq!(req.url, "/a");
        assert_eq!(req.http_version, "1.1");
    }
    for line in [&b"PUT /a HTTP/1.1\r\n"[..], b"DELETE /a HTTP/1.1\r\n", b"OPTIONS /a HTTP/1.1\r\n", b"get /a HTTP/1.1\r\n"] {
        let mut parser = HttpParser::new_request();
        let text = String::from_utf8(line[..line.len() - 2].to_vec()).unwrap();
        assert_eq!(parser.parse_bytes(line), Err(HttpParserError::LineParseError(text)));
    }
}

#[test]
fn request_versions() {
    let mut one = HttpParser::new_request();
    one.parse_bytes(b"GET /a HTTP/1\r\n").unwrap();
    assert_eq!(one.get_request().unwrap().http_version, "1.0");
    assert_eq!(one.get_request().unwrap().url, "/a");
    let mut zero = HttpParser::new_request();
    zero.parse_bytes(b"GET /a HTTP/1.0\r\n").unwrap();
    assert_eq!(zero.get_request().unwrap().http_version, "1.0");
    let mut other = HttpParser::new_request();
    other.parse_bytes(b"GET /a HTTP/1.7\r\n").unwrap();
    assert_eq!(other.get_request().unwrap().http_version, "");
    assert_eq!(other.get_request().unwrap().url, "/a");
}

#[test]
fn request_url_runs_to_the_last_marker() {
    let mut parser = HttpParser::new_request();
    parser.parse_bytes(b"GET /a HTTP/1 b HTTP/1.1\r\n").unwrap();
    assert_eq!(parser.get_request().unwrap().url, "/a HTTP/1 b");
    let mut tight = HttpParser::new_request();
    tight.parse_bytes(b"GETX/aXHTTP/1.1\r\n").unwrap();
    assert_eq!(tight.get_request().unwrap().method, HttpMethod::Get);
    assert_eq!(tight.get_request().unwrap().url, "/a");
    let mut unicode = HttpParser::new_request();
    unicode.parse_bytes("GET /caf\u{e9} HTTP/1.1\r\n".as_bytes()).unwrap();
    assert_eq!(unicode.get_request().unwrap().url, "/caf\u{e9}");
}

#[test]
fn request_lines_without_a_url_are_refused() {
    for line in ["GET", "GET ", "GET /index.html", "GET HTTP/1.1", "POST HTTP/1.1 "] {
        let mut parser = HttpParser::new_request();
        let mut bytes = line.as_bytes().to_vec();
        bytes.extend_from_slice(b"\r\n");
        assert_eq!(
            parser.parse_bytes(&bytes),
            Err(HttpParserError::LineParseError(line.to_string()))
        );
        assert_eq!(parser.get_request().unwrap(), &HttpRequestMessage::empty());
    }
}

#[test]
fn lines_that_are_not_text_are_refused() {
    let mut start = HttpParser::new_request();
    assert_eq!(start.parse_bytes(b"GET /\xff HTTP/1.1\r\n"), Err(HttpParserError::InvalidString));
    let mut header = HttpParser::new_request();
    assert_eq!(
        header.parse_bytes(b"GET / HTTP/1.1\r\nHost: \xc3\r\n"),
        Err(HttpParserError::InvalidString)
    );
    let mut status = HttpParser::new_response();
    assert_eq!(status.parse_bytes(b"HTTP/1.1 200 \xe9\r\n"), Err(HttpParserError::InvalidString));
    let mut cut = HttpParser::new_request();
    assert_eq!(
        cut.parse_bytes("GET /\u{e9}HTTP/1.1\r\n".as_bytes()),
        Err(HttpParserError::InvalidString)
    );
}

#[test]
fn header_lines() {
    let mut parser = HttpParser::new_request();
    parser.parse_bytes(b"GET / HTTP/1.1\r\nA: 1\r\nB: x: y\r\nA: 2\r\na: 3\r\n: v\r\n").unwrap();
    let req = parser.get_request().unwrap();
    assert_eq!(req.headers.len(), 4);
    assert_eq!(req.get_raw_header("A").unwrap(), "2");
    assert_eq!(req.get_raw_header("a").unwrap(), "3");
    assert_eq!(req.get_raw_header("B").unwrap(), "x: y");
    assert_eq!(req.get_raw_header("").unwrap(), "v");
    assert_eq!(req.get_raw_header("C"), None);
    let mut no_space = HttpParser::new_request();
    assert_eq!(
        no_space.parse_bytes(b"GET / HTTP/1.1\r\nHost:example\r\n"),
        Err(HttpParserError::HeaderError)
    );
    assert!(no_space.is_first_line_parsed());
    assert_eq!(no_space.get_request().unwrap().headers.len(), 0);
}

#[test]
fn status_lines() {
    let mut parser = HttpParser::new_response();
    parser.parse_bytes(b"HTTP/1 301 Moved  Permanently \r\n").unwrap();
    let resp = parser.get_response().unwrap();
    assert_eq!(resp.http_version, "1.0");
    assert_eq!(resp.response_code, 301);
    assert_eq!(resp.response_status, "Moved  Permanently ");
    let mut empty_text = HttpParser::new_response();
    empty_text.parse_bytes(b"HTTP/1.1 65535 \r\n").unwrap();
    assert_eq!(empty_text.get_response().unwrap().response_code, 65535);
    assert_eq!(empty_text.get_response().unwrap().response_status, "");
    for line in [
        "HTTP/1.1 200",
        "HTTP/1.1",
        "HTTP/2 200 OK",
        "http/1.1 200 OK",
        "HTTP/1.1 65536 OK",
        "HTTP/1.1 2x0 OK",
        "HTTP/1.1  200 OK",
        " HTTP/1.1 200 OK",
    ] {
        let mut bad = HttpParser::new_response();
        let mut bytes = line.as_bytes().to_vec();
        bytes.extend_from_slice(b"\r\n");
        assert_eq!(bad.parse_bytes(&bytes), Err(HttpParserError::LineParseError(line.to_string())));
        assert_eq!(bad.get_response().unwrap().response_code, 0);
        assert_eq!(bad.get_response().unwrap().http_version, "");
    }
}

#[test]
fn parser_accessors_follow_the_kind_of_message() {
    let request = HttpParser::new_request();
    assert!(request.get_request().is_some());
    assert!(request.get_response().is_none());
    assert!(matches!(request.get_message(), HttpMessage::Request(_)));
    assert!(request.into_response().is_none());
    let response = HttpParser::new_response();
    assert!(response.get_response().is_some());
    assert!(response.get_request().is_none());
    assert!(matches!(response.get_message(), HttpMessage::Response(_)));
    assert!(response.into_request().is_none());
    let mut preset = HttpRequestMessage::empty();
    preset.http_version = "0.9".to_string();
    let mut kept = HttpParser::new(HttpMessage::Request(preset));
    kept.parse_bytes(b"GET /a HTTP/1.7\r\n").unwrap();
    assert_eq!(kept.get_request().unwrap().http_version, "0.9");
    assert_eq!(kept.into_request().unwrap().url, "/a");
}

#[test]
fn a_lone_carriage_return_is_part_of_the_line() {
    let mut parser = HttpParser::new_request();
    parser.parse_bytes(b"GET /a\rb HTTP/1.1\r\nK: v\rw\r\n\r\n").unwrap();
    let req = parser.get_request().unwrap();
    assert_eq!(req.url, "/a\rb");
    assert_eq!(req.get_raw_header("K").unwrap(), "v\rw");
}
