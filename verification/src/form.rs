//! Percent-decoding and URL-encoded forms.

use crate::http::HttpRequestMessage;
use crate::strmap::StringMap;
use crate::text::{lemma_lit_amp, lemma_lit_equals, lit, split, split_str, str_from_utf8, utf8};
use vstd::prelude::*;
use vstd::string::*;
use vstd::utf8::*;

verus! {

/// The value of a hexadecimal digit.
pub open spec fn hex_value(byte: u8) -> Option<u8> {
    if 0x30 <= byte && byte <= 0x39 {
        Some((byte - 0x30) as u8)
    } else if 0x41 <= byte && byte <= 0x46 {
        Some((byte - 0x41 + 10) as u8)
    } else if 0x61 <= byte && byte <= 0x66 {
        Some((byte - 0x61 + 10) as u8)
    } else {
        None
    }
}

/// The value of a hexadecimal digit.
pub fn from_hex(byte: u8) -> (r: Option<u8>)
    ensures
        r == hex_value(byte),
{
    if 0x30 <= byte && byte <= 0x39 {
        Some(byte - 0x30)
    } else if 0x41 <= byte && byte <= 0x46 {
        Some(byte - 0x41 + 10)
    } else if 0x61 <= byte && byte <= 0x66 {
        Some(byte - 0x61 + 10)
    } else {
        None
    }
}

/// Whether `s` begins with a percent sign and two hexadecimal digits.
pub open spec fn escape_at_front(s: Seq<u8>) -> bool {
    s.len() >= 3 && s[0] == 0x25 && hex_value(s[1]) is Some && hex_value(s[2]) is Some
}

/// The bytes that `s` stands for: each escape, a percent sign and two
/// hexadecimal digits, is the byte with that value, and every other byte is
/// itself.
pub open spec fn percent_decoded(s: Seq<u8>) -> Seq<u8>
    decreases s.len(),
{
    if s.len() == 0 {
        Seq::empty()
    } else if escape_at_front(s) {
        seq![(hex_value(s[1])->0 * 16 + hex_value(s[2])->0) as u8] + percent_decoded(
            s.subrange(3, s.len() as int),
        )
    } else {
        seq![s[0]] + percent_decoded(s.subrange(1, s.len() as int))
    }
}

/// Percent-decodes `input` and appends the result to `output`.
pub fn percent_decode_to(input: &[u8], output: &mut Vec<u8>)
    ensures
        final(output)@ == old(output)@ + percent_decoded(input@),
{
    let mut i: usize = 0;
    proof {
        assert(input@.subrange(0, input@.len() as int) =~= input@);
    }
    while i < input.len()
        invariant
            0 <= i <= input@.len(),
            output@ + percent_decoded(input@.subrange(i as int, input@.len() as int)) == old(
                output,
            )@ + percent_decoded(input@),
        decreases input@.len() - i,
    {
        let ghost rest = input@.subrange(i as int, input@.len() as int);
        let ghost before = output@;
        let c: u8 = input[i];
        proof {
            assert(rest[0] == c);
        }
        if c == 0x25 && input.len() - i >= 3 {
            proof {
                assert(rest[1] == input@[i + 1]);
                assert(rest[2] == input@[i + 2]);
            }
            match (from_hex(input[i + 1]), from_hex(input[i + 2])) {
                (Some(h), Some(l)) => {
                    output.push(h * 0x10 + l);
                    proof {
                        assert(rest.subrange(3, rest.len() as int) =~= input@.subrange(
                            i + 3,
                            input@.len() as int,
                        ));
                        assert(output@ + percent_decoded(rest.subrange(3, rest.len() as int))
                            =~= before + percent_decoded(rest));
                    }
                    i += 3;
                    continue ;
                },
                _ => {},
            }
        }
        output.push(c);
        proof {
            assert(rest.subrange(1, rest.len() as int) =~= input@.subrange(
                i + 1,
                input@.len() as int,
            ));
            assert(output@ + percent_decoded(rest.subrange(1, rest.len() as int)) =~= before
                + percent_decoded(rest));
        }
        i += 1;
    }
}

/// The bytes that `input` stands for.
pub fn percent_decode(input: &[u8]) -> (r: Vec<u8>)
    ensures
        r@ == percent_decoded(input@),
{
    let mut output: Vec<u8> = Vec::new();
    percent_decode_to(input, &mut output);
    output
}

/// `s` with a space in place of each plus sign.
pub open spec fn plus_as_space(s: Seq<u8>) -> Seq<u8> {
    Seq::new(s.len(), |i: int| if s[i] == 0x2b { 0x20u8 } else { s[i] })
}

/// `input` with a space in place of each plus sign.
fn replace_plus(input: &[u8]) -> (r: Vec<u8>)
    ensures
        r@ == plus_as_space(input@),
{
    let mut out: Vec<u8> = Vec::new();
    let mut i: usize = 0;
    while i < input.len()
        invariant
            0 <= i <= input@.len(),
            out@ == plus_as_space(input@).subrange(0, i as int),
        decreases input@.len() - i,
    {
        let b: u8 = input[i];
        out.push(if b == 0x2b { 0x20 } else { b });
        i += 1;
        proof {
            assert(out@ =~= plus_as_space(input@).subrange(0, i as int));
        }
    }
    proof {
        assert(out@ =~= plus_as_space(input@));
    }
    out
}

/// The text that `String::from_utf8_lossy` makes of a byte string.
pub uninterp spec fn utf8_lossy(bytes: Seq<u8>) -> Seq<char>;

/// Decodes `bytes` as UTF-8 with `String::from_utf8_lossy`, which puts the
/// replacement character in place of what is not UTF-8. The result depends
/// on the bytes alone; valid UTF-8 is decoded as it is.
#[verifier::external_body]
fn string_from_utf8_lossy(bytes: &[u8]) -> (r: String)
    ensures
        r@ == utf8_lossy(bytes@),
        valid_utf8(bytes@) ==> r@ == decode_utf8(bytes@),
{
    String::from_utf8_lossy(bytes).into_owned()
}

/// The text that a form writes as `raw`: plus signs are spaces, escapes are
/// decoded, and the bytes are read as UTF-8, leniently.
pub open spec fn form_text(raw: Seq<u8>) -> Seq<char> {
    utf8_lossy(percent_decoded(plus_as_space(raw)))
}

/// The text that a form writes as `input`.
pub fn percent_decode_str(input: &str) -> (r: String)
    ensures
        r@ == form_text(input.spec_bytes()),
{
    let plain = replace_plus(input.as_bytes());
    let decoded = percent_decode(plain.as_slice());
    string_from_utf8_lossy(decoded.as_slice())
}

/// Percent-decodes `input` and reads the result as UTF-8, leniently.
pub fn lossy_utf8_percent_decode(input: &[u8]) -> (r: String)
    ensures
        r@ == utf8_lossy(percent_decoded(input@)),
{
    let decoded = percent_decode(input);
    string_from_utf8_lossy(decoded.as_slice())
}

/// The entries that the fields of a form make, in turn: a field with
/// exactly one equals sign stores what follows the sign under what stands
/// before it; any other field is passed over.
pub open spec fn form_fields(fields: Seq<Seq<u8>>) -> Map<Seq<u8>, Seq<u8>>
    decreases fields.len(),
{
    if fields.len() == 0 {
        Map::empty()
    } else {
        let before = form_fields(fields.drop_last());
        let pair = split(fields.last(), lit("="));
        if pair.len() == 2 {
            before.insert(utf8(form_text(pair[0])), utf8(form_text(pair[1])))
        } else {
            before
        }
    }
}

/// The entries of a URL-encoded form: its fields stand between ampersands.
pub open spec fn urlencoded_form(body: Seq<u8>) -> Map<Seq<u8>, Seq<u8>> {
    form_fields(split(body, lit("&")))
}

/// The entries of the URL-encoded form `body`.
pub fn parse_urlencoded_form(body: &str) -> (r: StringMap)
    ensures
        r@ == urlencoded_form(body.spec_bytes()),
{
    proof {
        lemma_lit_amp();
        lemma_lit_equals();
    }
    let fields = split_str(body, "&");
    let ghost parts = split(body.spec_bytes(), lit("&"));
    let mut map = StringMap::new();
    let mut i: usize = 0;
    proof {
        assert(parts.subrange(0, 0) =~= Seq::<Seq<u8>>::empty());
    }
    while i < fields.len()
        invariant
            0 <= i <= fields@.len(),
            fields@.len() == parts.len(),
            forall|j: int| 0 <= j < fields@.len() ==> (#[trigger] fields@[j]).spec_bytes() == parts[j],
            map@ == form_fields(parts.subrange(0, i as int)),
            lit("=").len() == 1,
            lit("=")[0] == 0x3d,
        decreases fields@.len() - i,
    {
        let field: &str = fields[i];
        let pair = split_str(field, "=");
        proof {
            let next = parts.subrange(0, i + 1);
            assert(next.drop_last() =~= parts.subrange(0, i as int));
            assert(next.last() == parts[i as int]);
        }
        if pair.len() == 2 {
            let key = percent_decode_str(pair[0]);
            let value = percent_decode_str(pair[1]);
            map.insert(key, value);
        }
        i += 1;
    }
    proof {
        assert(parts.subrange(0, parts.len() as int) =~= parts);
    }
    map
}

/// Reads the body of a request as a URL-encoded form.
pub struct BodyFormParser;

impl BodyFormParser {
    /// The entries of the form in the body of `req`; none where the body is
    /// not UTF-8.
    pub fn parse(req: &HttpRequestMessage) -> (r: StringMap)
        ensures
            r@ == if valid_utf8(req.body@) {
                urlencoded_form(req.body@)
            } else {
                Map::<Seq<u8>, Seq<u8>>::empty()
            },
    {
        match str_from_utf8(req.body.as_slice()) {
            Some(body) => parse_urlencoded_form(body),
            None => StringMap::new(),
        }
    }
}

} // verus!
