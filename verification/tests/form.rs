use core_mini_http::form::{
    from_hex, lossy_utf8_percent_decode, parse_urlencoded_form, percent_decode, percent_decode_str,
    percent_decode_to, BodyFormParser,
};
use core_mini_http::http::HttpRequestMessage;
use core_mini_http::strmap::StringMap;

fn map_of(pairs: &[(&str, &str)]) -> StringMap {
    let mut map = StringMap::new();
    for (k, v) in pairs {
        map.insert(k.to_string(), v.to_string());
    }
    map
}

#[test]
fn test_form_parser() {
    let f = "ssid=test&submit=Connect";
    let p = parse_urlencoded_form(&f);
    println!("p: {:?}", p);
    assert_eq!(p, map_of(&[("ssid", "test"), ("submit", "Connect")]));

    let f = "ssid=rock+%26+roll&submit=Connect";
    let p = parse_urlencoded_form(&f);
    println!("p: {:?}", p);
    assert_eq!(p, map_of(&[("ssid", "rock & roll"), ("submit", "Connect")]));

    let f = "ssid=%26%23269%3B%9E%26%23263%3B%26%23273%3B%9A%26%23269%3B&submit=Connect";
    let p = parse_urlencoded_form(&f);
    println!("p: {:?}", p);
    assert_eq!(
        p,
        map_of(&[
            ("ssid", "&#269;\u{fffd}&#263;&#273;\u{fffd}&#269;"),
            ("submit", "Connect"),
        ])
    );
}

#[test]
fn form_fields_need_exactly_one_equals_sign() {
    assert_eq!(parse_urlencoded_form(""), StringMap::new());
    assert_eq!(parse_urlencoded_form("a"), StringMap::new());
    assert_eq!(parse_urlencoded_form("a=b=c"), StringMap::new());
    assert_eq!(parse_urlencoded_form("a=b=c&d=e&&f"), map_of(&[("d", "e")]));
    assert_eq!(parse_urlencoded_form("a="), map_of(&[("a", "")]));
    assert_eq!(parse_urlencoded_form("=b"), map_of(&[("", "b")]));
    assert_eq!(parse_urlencoded_form("="), map_of(&[("", "")]));
    assert_eq!(parse_urlencoded_form("a=1&a=2"), map_of(&[("a", "2")]));
    assert_eq!(parse_urlencoded_form("a%3Db=c%26d"), map_of(&[("a=b", "c&d")]));
    assert_eq!(parse_urlencoded_form("b=2&a=1&+=+"), map_of(&[(" ", " "), ("a", "1"), ("b", "2")]));
}

#[test]
fn hexadecimal_digits() {
    assert_eq!(from_hex(b'0'), Some(0));
    assert_eq!(from_hex(b'9'), Some(9));
    assert_eq!(from_hex(b'A'), Some(10));
    assert_eq!(from_hex(b'F'), Some(15));
    assert_eq!(from_hex(b'a'), Some(10));
    assert_eq!(from_hex(b'f'), Some(15));
    assert_eq!(from_hex(b'G'), None);
    assert_eq!(from_hex(b'g'), None);
    assert_eq!(from_hex(b'/'), None);
    assert_eq!(from_hex(b':'), None);
    assert_eq!(from_hex(b'@'), None);
    assert_eq!(from_hex(b'`'), None);
    assert_eq!(from_hex(0), None);
    assert_eq!(from_hex(255), None);
}

#[test]
fn percent_decoding() {
    assert_eq!(percent_decode(b""), b"".to_vec());
    assert_eq!(percent_decode(b"abc"), b"abc".to_vec());
    assert_eq!(percent_decode(b"%41"), b"A".to_vec());
    assert_eq!(percent_decode(b"%41%42c"), b"ABc".to_vec());
    assert_eq!(percent_decode(b"a%20b+c"), b"a b+c".to_vec());
    assert_eq!(percent_decode(b"%ff%00%7F%e9"), vec![0xff, 0x00, 0x7f, 0xe9]);
    assert_eq!(percent_decode(b"%"), b"%".to_vec());
    assert_eq!(percent_decode(b"%4"), b"%4".to_vec());
    assert_eq!(percent_decode(b"a%4"), b"a%4".to_vec());
    assert_eq!(percent_decode(b"%4g1"), b"%4g1".to_vec());
    assert_eq!(percent_decode(b"%g41"), b"%g41".to_vec());
    assert_eq!(percent_decode(b"%%41"), b"%A".to_vec());
    assert_eq!(percent_decode(b"%2541"), b"%41".to_vec());
    let mut out = b"x=".to_vec();
    percent_decode_to(b"%31%32", &mut out);
    percent_decode_to(b"", &mut out);
    percent_decode_to(b"3", &mut out);
    assert_eq!(out, b"x=123".to_vec());
}

#[test]
fn lenient_decoding() {
    assert_eq!(percent_decode_str("rock+%26+roll"), "rock & roll");
    assert_eq!(percent_decode_str("%2B+%2b"), "+ +");
    assert_eq!(percent_decode_str("caf%C3%A9"), "caf\u{e9}");
    assert_eq!(percent_decode_str("caf\u{e9}"), "caf\u{e9}");
    assert_eq!(percent_decode_str("%9E"), "\u{fffd}");
    assert_eq!(percent_decode_str("a%C3"), "a\u{fffd}");
    assert_eq!(percent_decode_str(""), "");
    assert_eq!(lossy_utf8_percent_decode(b"rock+%26+roll"), "rock+&+roll");
    assert_eq!(lossy_utf8_percent_decode(b"%e2%82%ac"), "\u{20ac}");
    assert_eq!(lossy_utf8_percent_decode(b"\xff%41"), "\u{fffd}A");
    assert_eq!(lossy_utf8_percent_decode(b"%F0%9F%98"), "\u{fffd}");
}

#[test]
fn form_in_a_request_body() {
    let mut req = HttpRequestMessage::new_get("/form", "localhost");
    assert_eq!(BodyFormParser::parse(&req), StringMap::new());
    req.body = b"ssid=rock+%26+roll&submit=Connect".to_vec();
    assert_eq!(
        BodyFormParser::parse(&req),
        map_of(&[("ssid", "rock & roll"), ("submit", "Connect")])
    );
    req.body = b"ssid=\xff&submit=Connect".to_vec();
    assert_eq!(BodyFormParser::parse(&req), StringMap::new());
    req.body = b"ssid=%ff&submit=Connect".to_vec();
    assert_eq!(
        BodyFormParser::parse(&req),
        map_of(&[("ssid", "\u{fffd}"), ("submit", "Connect")])
    );
}
