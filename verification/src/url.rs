//! Absolute URLs: scheme, host, port and path.

use crate::text::{
    bytes_eq, find_bytes, find_first, lemma_ascii_boundary, lemma_find_from_least, lemma_lit_colon,
    lemma_lit_scheme_mark, lemma_lit_slash, lit, parse_decimal, parse_unsigned, str_slice, utf8,
};
use vstd::prelude::*;
use vstd::slice::*;
use vstd::string::*;
use vstd::utf8::*;

verus! {

/// The parts of an absolute URL.
#[derive(Debug, PartialEq, Eq)]
pub struct Url {
    pub scheme: String,
    pub port: Option<u16>,
    pub host: String,
    pub full_path: String,
}

/// The parts of an absolute URL, text as bytes.
pub struct UrlModel {
    pub scheme: Seq<u8>,
    pub port: Option<u16>,
    pub host: Seq<u8>,
    pub full_path: Seq<u8>,
}

impl View for Url {
    type V = UrlModel;

    open spec fn view(&self) -> UrlModel {
        UrlModel {
            scheme: utf8(self.scheme@),
            port: self.port,
            host: utf8(self.host@),
            full_path: utf8(self.full_path@),
        }
    }
}

/// The port that a scheme stands for.
pub open spec fn default_port(scheme: Seq<u8>) -> Option<u16> {
    if scheme == lit("http") {
        Some(80u16)
    } else if scheme == lit("https") {
        Some(443u16)
    } else {
        None
    }
}

/// The host and the port that the part of a URL between `://` and the path
/// gives: where a colon is followed by a decimal number that fits 16 bits,
/// the host ends at the first colon and the number is the port.
pub open spec fn host_and_port(authority: Seq<u8>) -> (Seq<u8>, Option<u16>) {
    match find_first(authority, lit(":")) {
        Some(colon) => match parse_unsigned(
            authority.subrange(colon + 1, authority.len() as int),
            0xffff,
        ) {
            Some(port) => (authority.subrange(0, colon), Some(port as u16)),
            None => (authority, None),
        },
        None => (authority, None),
    }
}

/// The parts of the URL `url`: the scheme stands before the first `://`, the
/// host and an optional port after it up to the first slash, and the path
/// begins at that slash. Without a port in the URL the scheme gives it.
pub open spec fn parse_url(url: Seq<u8>) -> Option<UrlModel> {
    match find_first(url, lit("://")) {
        None => None,
        Some(mark) => {
            let scheme = url.subrange(0, mark);
            let rest = url.subrange(mark + 3, url.len() as int);
            let (authority, path) = match find_first(rest, lit("/")) {
                Some(slash) => (rest.subrange(0, slash), rest.subrange(slash, rest.len() as int)),
                None => (rest, Seq::<u8>::empty()),
            };
            let (host, port) = host_and_port(authority);
            Some(
                UrlModel {
                    scheme: scheme,
                    port: match port {
                        Some(p) => Some(p),
                        None => default_port(scheme),
                    },
                    host: host,
                    full_path: path,
                },
            )
        },
    }
}

impl Url {
    /// The parts of `url`; `None` where it has no `://`.
    pub fn parse(url: &str) -> (r: Option<Url>)
        ensures
            match parse_url(url.spec_bytes()) {
                Some(parts) => r matches Some(u) && u@ == parts,
                None => r is None,
            },
    {
        let bytes = url.as_bytes();
        let len: usize = bytes.len();
        let mark: usize = match find_bytes(bytes, "://".as_bytes()) {
            Some(i) => i,
            None => {
                return None;
            },
        };
        proof {
            lemma_lit_scheme_mark();
            lemma_lit_slash();
            lemma_lit_colon();
            encode_utf8_valid_utf8(url@);
            is_char_boundary_start_end_of_seq(bytes@);
            lemma_find_from_least(bytes@, lit("://"), 0);
            let found = bytes@.subrange(mark as int, mark + 3);
            assert(bytes@[mark as int] == found[0]);
            assert(bytes@[mark + 1] == found[1]);
            assert(bytes@[mark + 2] == found[2]);
            lemma_ascii_boundary(bytes@, mark as int);
            lemma_ascii_boundary(bytes@, mark + 2);
        }
        let scheme = str_slice(url, 0, mark);
        let start: usize = mark + 3;
        let rest = slice_subrange(bytes, start, len);
        let host_end: usize = match find_bytes(rest, "/".as_bytes()) {
            Some(slash) => {
                proof {
                    lemma_find_from_least(rest@, lit("/"), 0);
                    let found = rest@.subrange(slash as int, slash + 1);
                    assert(rest@[slash as int] == found[0]);
                    lemma_ascii_boundary(bytes@, start + slash);
                    assert(rest@.subrange(0, slash as int) =~= bytes@.subrange(
                        start as int,
                        start + slash,
                    ));
                    assert(rest@.subrange(slash as int, rest@.len() as int) =~= bytes@.subrange(
                        start + slash,
                        len as int,
                    ));
                }
                start + slash
            },
            None => {
                proof {
                    assert(bytes@.subrange(len as int, len as int) =~= Seq::<u8>::empty());
                }
                len
            },
        };
        let path = str_slice(url, host_end, len);
        let authority = slice_subrange(bytes, start, host_end);
        let mut port: Option<u16> = None;
        let mut host = str_slice(url, start, host_end);
        match find_bytes(authority, ":".as_bytes()) {
            Some(colon) => {
                proof {
                    lemma_find_from_least(authority@, lit(":"), 0);
                    let found = authority@.subrange(colon as int, colon + 1);
                    assert(authority@[colon as int] == found[0]);
                    lemma_ascii_boundary(bytes@, start + colon);
                    assert(authority@.subrange(0, colon as int) =~= bytes@.subrange(
                        start as int,
                        start + colon,
                    ));
                }
                let digits = slice_subrange(authority, colon + 1, authority.len());
                match parse_decimal(digits, 0xffff) {
                    Some(p) => {
                        port = Some(p as u16);
                        host = str_slice(url, start, start + colon);
                    },
                    None => {},
                }
            },
            None => {},
        }
        if port.is_none() {
            if bytes_eq(scheme.as_bytes(), "http".as_bytes()) {
                port = Some(80);
            } else if bytes_eq(scheme.as_bytes(), "https".as_bytes()) {
                port = Some(443);
            }
        }
        Some(
            Url {
                scheme: scheme.to_owned(),
                port: port,
                host: host.to_owned(),
                full_path: path.to_owned(),
            },
        )
    }
}

} // verus!
