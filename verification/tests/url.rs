use core_mini_http::url::Url;

fn parts(scheme: &str, port: Option<u16>, host: &str, full_path: &str) -> Option<Url> {
    Some(Url {
        scheme: scheme.to_string(),
        port: port,
        host: host.to_string(),
        full_path: full_path.to_string(),
    })
}

#[test]
fn test_url_parser() {
    let url_str = "http://clients3.google.com/generate_204";
    let url = Url::parse(url_str);
    println!("url: {:?}", url);
    assert_eq!(url, parts("http", Some(80), "clients3.google.com", "/generate_204"));

    let url_str = "http://clients3.google.com";
    let url = Url::parse(url_str);
    println!("url: {:?}", url);
    assert_eq!(url, parts("http", Some(80), "clients3.google.com", ""));

    let url_str = "http://clients3.google.com:8080/";
    let url = Url::parse(url_str);
    println!("url: {:?}", url);
    assert_eq!(url, parts("http", Some(8080), "clients3.google.com", "/"));
}

#[test]
fn url_without_scheme_mark() {
    assert_eq!(Url::parse(""), None);
    assert_eq!(Url::parse("clients3.google.com/generate_204"), None);
    assert_eq!(Url::parse("http:/x"), None);
    assert_eq!(Url::parse("http//x"), None);
}

#[test]
fn url_ports() {
    assert_eq!(Url::parse("https://example.org/a/b?c=d"), parts("https", Some(443), "example.org", "/a/b?c=d"));
    assert_eq!(Url::parse("ftp://example.org/a"), parts("ftp", None, "example.org", "/a"));
    assert_eq!(Url::parse("HTTP://example.org/a"), parts("HTTP", None, "example.org", "/a"));
    assert_eq!(Url::parse("ftp://example.org:21"), parts("ftp", Some(21), "example.org", ""));
    assert_eq!(Url::parse("http://h:0/"), parts("http", Some(0), "h", "/"));
    assert_eq!(Url::parse("http://h:65535/"), parts("http", Some(65535), "h", "/"));
    assert_eq!(Url::parse("http://h:65536/"), parts("http", Some(80), "h:65536", "/"));
    assert_eq!(Url::parse("http://h:/"), parts("http", Some(80), "h:", "/"));
    assert_eq!(Url::parse("http://h:8a/"), parts("http", Some(80), "h:8a", "/"));
    assert_eq!(Url::parse("ws://h:x/"), parts("ws", None, "h:x", "/"));
    assert_eq!(Url::parse("http://a:b:80/"), parts("http", Some(80), "a:b:80", "/"));
    assert_eq!(Url::parse("http://h:+81/p"), parts("http", Some(81), "h", "/p"));
}

#[test]
fn url_edges() {
    assert_eq!(Url::parse("://"), parts("", None, "", ""));
    assert_eq!(Url::parse("http://"), parts("http", Some(80), "", ""));
    assert_eq!(Url::parse("http:///path"), parts("http", Some(80), "", "/path"));
    assert_eq!(Url::parse("a://b://c"), parts("a", None, "b:", "//c"));
    assert_eq!(Url::parse("http://h/p:80"), parts("http", Some(80), "h", "/p:80"));
    assert_eq!(
        Url::parse("http://caf\u{e9}.example/\u{20ac}"),
        parts("http", Some(80), "caf\u{e9}.example", "/\u{20ac}")
    );
}
