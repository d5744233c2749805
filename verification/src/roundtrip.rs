//! What the parser reads from a message in wire format: a message whose
//! lines can be read back is read as it was written, and a start line
//! without a method is refused.

use crate::chunks::{feed_all, joined, lemma_feed_pieces};
use crate::http::{
    content_length_of, crlf, header_block, method_name, request_bytes, request_start,
    response_bytes, response_start, HttpMethod, MessageModel, RequestModel, ResponseModel,
};
use crate::parser::{
    after_method, apply_line, bytes_needed, feed, flush, fresh, header_line, request_line,
    request_method, request_version, response_line, response_version, scan, ErrorModel, FeedOutcome,
    ParserModel,
};
use crate::strmap::{is_listing, lemma_listing_drop_last, lemma_listing_exists, listing};
use crate::text::{
    all_digits, decimal_digits, decimal_value, find_back_from, find_first, find_last, is_digit,
    lemma_find_from_least, lemma_find_from_unique, lemma_lit_colon_space, lemma_lit_crlf,
    lemma_lit_space, lit, occurs_at, parse_unsigned, utf8,
};
use vstd::prelude::*;
use vstd::string::*;
use vstd::utf8::*;

verus! {

/// Whether no line end stands in `s`.
pub open spec fn crlf_free(s: Seq<u8>) -> bool {
    forall|i: int| 0 <= i && i + 1 < s.len() ==> !(#[trigger] s[i] == 0x0d && s[i + 1] == 0x0a)
}

/// Text without a line end, followed by a line end, has its first line end
/// where the text ends.
pub proof fn lemma_line_end(line: Seq<u8>, rest: Seq<u8>)
    requires
        crlf_free(line),
    ensures
        find_first(line + crlf() + rest, crlf()) == Some(line.len() as int),
        (line + crlf() + rest).subrange(0, line.len() as int) == line,
        (line + crlf() + rest).subrange(
            line.len() as int + 2,
            (line + crlf() + rest).len() as int,
        )
            == rest,
{
    lemma_lit_crlf();
    let all = line + crlf() + rest;
    let n = line.len() as int;
    assert(all.subrange(n, n + 2) =~= crlf());
    assert forall|j: int| 0 <= j < n implies !occurs_at(all, crlf(), j) by {
        if occurs_at(all, crlf(), j) {
            let found = all.subrange(j, j + 2);
            assert(found[0] == all[j]);
            assert(found[1] == all[j + 1]);
            if j + 1 < n {
                assert(line[j] == all[j]);
                assert(line[j + 1] == all[j + 1]);
            } else {
                assert(all[j + 1] == crlf()[0]);
            }
        }
    }
    lemma_find_from_unique(all, crlf(), 0, n);
    assert(all.subrange(0, n) =~= line);
    assert(all.subrange(n + 2, all.len() as int) =~= rest);
}

/// The decimal digits of a number are digits, and denote the number.
pub proof fn lemma_decimal_digits(n: nat)
    ensures
        decimal_digits(n).len() > 0,
        all_digits(decimal_digits(n)),
        decimal_value(decimal_digits(n)) == n,
    decreases n,
{
    if n < 10 {
        let d = decimal_digits(n);
        assert(d.drop_last() =~= Seq::<u8>::empty());
        assert(decimal_value(d.drop_last()) == 0);
        assert(d.last() == (0x30 + n) as u8);
    } else {
        lemma_decimal_digits(n / 10);
        let d = decimal_digits(n);
        let head = decimal_digits(n / 10);
        assert(d.drop_last() =~= head);
        assert(d.last() == (0x30 + n % 10) as u8);
        assert forall|i: int| 0 <= i < d.len() implies is_digit(#[trigger] d[i]) by {
            if i < head.len() {
                assert(d[i] == head[i]);
            }
        }
    }
}

/// Reading the decimal digits of a number gives the number.
pub proof fn lemma_parse_decimal_digits(n: nat, max: nat)
    requires
        n <= max,
    ensures
        parse_unsigned(decimal_digits(n), max) == Some(n),
{
    lemma_decimal_digits(n);
    assert(is_digit(decimal_digits(n)[0]));
}

/// Whether a key and a value can stand in a header line and be read back:
/// both are UTF-8 without a line end, and the key holds no colon followed by
/// a space.
pub open spec fn plain_header(key: Seq<u8>, value: Seq<u8>) -> bool {
    &&& valid_utf8(key)
    &&& valid_utf8(value)
    &&& crlf_free(key)
    &&& crlf_free(value)
    &&& find_first(key, lit(": ")) is None
}

/// Whether every entry of `headers` can stand in a header line and be read
/// back.
pub open spec fn plain_headers(headers: Map<Seq<u8>, Seq<u8>>) -> bool {
    forall|key: Seq<u8>| #[trigger] headers.contains_key(key) ==> plain_header(key, headers[key])
}

/// A header line is read back as its key and its value.
pub proof fn lemma_header_line_read_back(key: Seq<u8>, value: Seq<u8>)
    requires
        plain_header(key, value),
    ensures
        header_line(key + lit(": ") + value) == Ok::<(Seq<u8>, Seq<u8>), ErrorModel>(
            (key, value),
        ),
        crlf_free(key + lit(": ") + value),
        (key + lit(": ") + value).len() > 0,
{
    lemma_lit_colon_space();
    let sep = lit(": ");
    let line = key + sep + value;
    let n = key.len() as int;
    encode_utf8_valid_utf8(": "@);
    valid_utf8_concat(key, sep);
    valid_utf8_concat(key + sep, value);
    assert(line.subrange(n, n + 2) =~= sep);
    lemma_find_from_least(key, sep, 0);
    assert forall|j: int| 0 <= j < n implies !occurs_at(line, sep, j) by {
        if occurs_at(line, sep, j) {
            let found = line.subrange(j, j + 2);
            assert(found[0] == line[j]);
            assert(found[1] == line[j + 1]);
            if j + 1 < n {
                assert(key.subrange(j, j + 2) =~= found);
                assert(occurs_at(key, sep, j));
            } else {
                assert(line[j + 1] == sep[0]);
            }
        }
    }
    lemma_find_from_unique(line, sep, 0, n);
    assert(line.subrange(0, n) =~= key);
    assert(line.subrange(n + 2, line.len() as int) =~= value);
    assert forall|i: int| 0 <= i && i + 1 < line.len() implies !(#[trigger] line[i] == 0x0d
        && line[i + 1] == 0x0a) by {
        if i + 1 < n {
            assert(key[i] == line[i] && key[i + 1] == line[i + 1]);
        } else if i >= n + 2 {
            assert(value[i - n - 2] == line[i] && value[i + 1 - n - 2] == line[i + 1]);
        } else if i == n - 1 {
            assert(line[i + 1] == sep[0]);
        } else if i == n {
            assert(line[i] == sep[0]);
        } else {
            assert(line[i] == sep[1]);
        }
    }
}

/// The header lines begin with the line of the first pair.
pub proof fn lemma_header_block_front(pairs: Seq<(Seq<u8>, Seq<u8>)>)
    requires
        pairs.len() > 0,
    ensures
        header_block(pairs) == pairs[0].0 + lit(": ") + pairs[0].1 + crlf() + header_block(
            pairs.drop_first(),
        ),
    decreases pairs.len(),
{
    let first = pairs[0].0 + lit(": ") + pairs[0].1 + crlf();
    if pairs.len() == 1 {
        assert(pairs.drop_last() =~= Seq::<(Seq<u8>, Seq<u8>)>::empty());
        assert(pairs.drop_first() =~= Seq::<(Seq<u8>, Seq<u8>)>::empty());
        assert(header_block(pairs) =~= first + header_block(pairs.drop_first()));
    } else {
        let init = pairs.drop_last();
        let tail = pairs.drop_first();
        lemma_header_block_front(init);
        assert(init.drop_first() =~= tail.drop_last());
        assert(init[0] == pairs[0]);
        assert(tail.last() == pairs.last());
        let last = pairs.last().0 + lit(": ") + pairs.last().1 + crlf();
        assert(header_block(pairs) =~= header_block(init) + last);
        assert(header_block(tail) =~= header_block(tail.drop_last()) + last);
        assert(header_block(pairs) =~= first + header_block(tail));
    }
}

/// The headers `onto` with the pairs stored in turn.
pub open spec fn stored(onto: Map<Seq<u8>, Seq<u8>>, pairs: Seq<(Seq<u8>, Seq<u8>)>) -> Map<
    Seq<u8>,
    Seq<u8>,
>
    decreases pairs.len(),
{
    if pairs.len() == 0 {
        onto
    } else {
        stored(onto, pairs.drop_last()).insert(pairs.last().0, pairs.last().1)
    }
}

/// Storing the first pair and then the others is storing all in turn.
pub proof fn lemma_stored_front(onto: Map<Seq<u8>, Seq<u8>>, pairs: Seq<(Seq<u8>, Seq<u8>)>)
    requires
        pairs.len() > 0,
    ensures
        stored(onto.insert(pairs[0].0, pairs[0].1), pairs.drop_first()) == stored(onto, pairs),
    decreases pairs.len(),
{
    let first = onto.insert(pairs[0].0, pairs[0].1);
    if pairs.len() == 1 {
        assert(pairs.drop_first() =~= Seq::<(Seq<u8>, Seq<u8>)>::empty());
        assert(pairs.drop_last() =~= Seq::<(Seq<u8>, Seq<u8>)>::empty());
        assert(stored(first, pairs.drop_first()) == first);
        assert(stored(onto, pairs.drop_last()) == onto);
        assert(pairs.last() == pairs[0]);
    } else {
        let init = pairs.drop_last();
        let tail = pairs.drop_first();
        lemma_stored_front(onto, init);
        assert(init.drop_first() =~= tail.drop_last());
        assert(init[0] == pairs[0]);
        assert(tail.last() == pairs.last());
        assert(stored(first, tail) == stored(first, tail.drop_last()).insert(
            tail.last().0,
            tail.last().1,
        ));
        assert(stored(onto, pairs) == stored(onto, init).insert(pairs.last().0, pairs.last().1));
    }
}

/// Storing the listing of a map in the empty map gives the map.
pub proof fn lemma_stored_listing(pairs: Seq<(Seq<u8>, Seq<u8>)>, m: Map<Seq<u8>, Seq<u8>>)
    requires
        is_listing(pairs, m),
    ensures
        stored(Map::empty(), pairs) == m,
    decreases pairs.len(),
{
    if pairs.len() == 0 {
        assert forall|k: Seq<u8>| !m.contains_key(k) by {
            if m.contains_key(k) {
                let i = choose|i: int| 0 <= i < pairs.len() && #[trigger] pairs[i].0 == k;
            }
        }
        assert(m =~= Map::<Seq<u8>, Seq<u8>>::empty());
    } else {
        let last = pairs.last();
        lemma_listing_drop_last(pairs, m);
        lemma_stored_listing(pairs.drop_last(), m.remove(last.0));
        assert(m.contains_pair(pairs[pairs.len() - 1].0, pairs[pairs.len() - 1].1));
        assert(m.remove(last.0).insert(last.0, last.1) =~= m);
    }
}

/// The header lines of pairs that can be read back, an empty line and a
/// body are read as those headers, stored in turn, and that body.
pub proof fn lemma_scan_headers(m: ParserModel, pairs: Seq<(Seq<u8>, Seq<u8>)>, body: Seq<u8>)
    requires
        !m.headers_done,
        m.lines >= 1,
        m.pending == header_block(pairs) + crlf() + body,
        forall|i: int| 0 <= i < pairs.len() ==> plain_header(#[trigger] pairs[i].0, pairs[i].1),
    ensures
        scan(m) == (FeedOutcome {
            state: ParserModel {
                pending: body,
                lines: m.lines + pairs.len() + 1,
                headers_done: true,
                msg: m.msg.with_headers(stored(m.msg.headers(), pairs)),
            },
            error: None,
        }),
    decreases pairs.len(),
{
    reveal(scan);
    lemma_lit_crlf();
    if pairs.len() == 0 {
        let none = Seq::<u8>::empty();
        assert(m.pending =~= none + crlf() + body);
        lemma_line_end(none, body);
        assert(m.msg.with_headers(m.msg.headers()) == m.msg);
    } else {
        let key = pairs[0].0;
        let value = pairs[0].1;
        let line = key + lit(": ") + value;
        let tail = pairs.drop_first();
        let rest = header_block(tail) + crlf() + body;
        lemma_header_block_front(pairs);
        lemma_header_line_read_back(key, value);
        assert(m.pending =~= line + crlf() + rest);
        lemma_line_end(line, rest);
        let next = ParserModel {
            pending: rest,
            lines: m.lines + 1,
            msg: m.msg.with_header(key, value),
            ..m
        };
        assert(apply_line(m.msg, m.lines, line) == Ok::<MessageModel, ErrorModel>(
            m.msg.with_header(key, value),
        ));
        assert forall|i: int| 0 <= i < tail.len() implies plain_header(
            #[trigger] tail[i].0,
            tail[i].1,
        ) by {
            assert(tail[i] == pairs[i + 1]);
        }
        lemma_scan_headers(next, tail, body);
        lemma_stored_front(m.msg.headers(), pairs);
        assert(next.msg.headers() == m.msg.headers().insert(key, value));
        assert(next.msg.with_headers(stored(next.msg.headers(), tail)) == m.msg.with_headers(
            stored(m.msg.headers(), pairs),
        ));
    }
}

/// Whether every byte is below 0x80.
pub open spec fn is_ascii_bytes(s: Seq<u8>) -> bool {
    forall|i: int| 0 <= i < s.len() ==> #[trigger] s[i] < 0x80
}

/// Bytes below 0x80 are UTF-8.
pub proof fn lemma_ascii_is_utf8(s: Seq<u8>)
    requires
        is_ascii_bytes(s),
    ensures
        valid_utf8(s),
    decreases s.len(),
{
    if s.len() > 0 {
        let rest = pop_first_scalar(s);
        assert(s[0] < 0x80);
        assert(rest =~= s.subrange(1, s.len() as int));
        assert forall|i: int| 0 <= i < rest.len() implies #[trigger] rest[i] < 0x80 by {
            assert(rest[i] == s[i + 1]);
        }
        lemma_ascii_is_utf8(rest);
        let c = s[0];
        assert(codepoint_width_1(c) < 0x80) by (bit_vector)
            requires
                c < 0x80,
                codepoint_width_1(c) == (c & 0x7f) as u32,
        ;
    }
}

/// What the version texts are, byte for byte.
pub proof fn lemma_lit_versions()
    ensures
        lit("HTTP/") == seq![0x48u8, 0x54u8, 0x54u8, 0x50u8, 0x2fu8],
        lit(" HTTP/") == seq![0x20u8, 0x48u8, 0x54u8, 0x54u8, 0x50u8, 0x2fu8],
        lit("1.1") == seq![0x31u8, 0x2eu8, 0x31u8],
        lit("1.0") == seq![0x31u8, 0x2eu8, 0x30u8],
        lit("HTTP/1") == seq![0x48u8, 0x54u8, 0x54u8, 0x50u8, 0x2fu8, 0x31u8],
        lit("HTTP/1.1") == seq![0x48u8, 0x54u8, 0x54u8, 0x50u8, 0x2fu8, 0x31u8, 0x2eu8, 0x31u8],
        lit("HTTP/1.0") == seq![0x48u8, 0x54u8, 0x54u8, 0x50u8, 0x2fu8, 0x31u8, 0x2eu8, 0x30u8],
{
    reveal_strlit("HTTP/");
    reveal_strlit(" HTTP/");
    reveal_strlit("1.1");
    reveal_strlit("1.0");
    reveal_strlit("HTTP/1");
    reveal_strlit("HTTP/1.1");
    reveal_strlit("HTTP/1.0");
    is_ascii_chars_encode_utf8("HTTP/"@);
    is_ascii_chars_encode_utf8(" HTTP/"@);
    is_ascii_chars_encode_utf8("1.1"@);
    is_ascii_chars_encode_utf8("1.0"@);
    is_ascii_chars_encode_utf8("HTTP/1"@);
    is_ascii_chars_encode_utf8("HTTP/1.1"@);
    is_ascii_chars_encode_utf8("HTTP/1.0"@);
    assert(lit("HTTP/") =~= seq![0x48u8, 0x54u8, 0x54u8, 0x50u8, 0x2fu8]);
    assert(lit(" HTTP/") =~= seq![0x20u8, 0x48u8, 0x54u8, 0x54u8, 0x50u8, 0x2fu8]);
    assert(lit("1.1") =~= seq![0x31u8, 0x2eu8, 0x31u8]);
    assert(lit("1.0") =~= seq![0x31u8, 0x2eu8, 0x30u8]);
    assert(lit("HTTP/1") =~= seq![0x48u8, 0x54u8, 0x54u8, 0x50u8, 0x2fu8, 0x31u8]);
    assert(lit("HTTP/1.1") =~= seq![
        0x48u8,
        0x54u8,
        0x54u8,
        0x50u8,
        0x2fu8,
        0x31u8,
        0x2eu8,
        0x31u8,
    ]);
    assert(lit("HTTP/1.0") =~= seq![
        0x48u8,
        0x54u8,
        0x54u8,
        0x50u8,
        0x2fu8,
        0x31u8,
        0x2eu8,
        0x30u8,
    ]);
}

/// Whether a response has a status line that can be read back: the version
/// is 1.0 or 1.1, and the status text is UTF-8 without a line end.
pub open spec fn plain_status(m: ResponseModel) -> bool {
    &&& m.http_version == lit("1.1") || m.http_version == lit("1.0")
    &&& valid_utf8(m.response_status)
    &&& crlf_free(m.response_status)
}

/// A status line is read back as its version, its code and its text.
pub proof fn lemma_status_line_read_back(m: ResponseModel, old: ResponseModel)
    requires
        plain_status(m),
    ensures
        response_line(old, response_start(m)) == Ok::<ResponseModel, ErrorModel>(
            ResponseModel {
                response_code: m.response_code,
                response_status: m.response_status,
                http_version: m.http_version,
                ..old
            },
        ),
        crlf_free(response_start(m)),
        response_start(m).len() > 0,
{
    lemma_lit_versions();
    lemma_lit_space();
    lemma_decimal_digits(m.response_code as nat);
    lemma_parse_decimal_digits(m.response_code as nat, 0xffff);
    let sp = lit(" ");
    let head = lit("HTTP/") + m.http_version;
    let digits = decimal_digits(m.response_code as nat);
    let text = m.response_status;
    let line = response_start(m);
    let a = head.len() as int;
    let b = a + 1 + digits.len();
    assert(a == 8);
    assert(line =~= head + sp + digits + sp + text);
    assert(line.len() == b + 1 + text.len());
    assert forall|i: int| 0 <= i < line.len() implies #[trigger] line[i] == (if i < a {
        head[i]
    } else if i == a {
        0x20u8
    } else if i < b {
        digits[i - a - 1]
    } else if i == b {
        0x20u8
    } else {
        text[i - b - 1]
    }) by {}
    assert forall|i: int| 0 <= i < a implies head[i] != 0x20 && head[i] < 0x80 && head[i] != 0x0d by {}
    assert forall|i: int| 0 <= i < digits.len() implies digits[i] != 0x20 && digits[i] < 0x80
        && digits[i] != 0x0d by {
        assert(is_digit(digits[i]));
    }
    // The line is UTF-8.
    assert(is_ascii_bytes(head + sp + digits + sp)) by {
        let front = head + sp + digits + sp;
        assert forall|i: int| 0 <= i < front.len() implies #[trigger] front[i] < 0x80 by {
            assert(front[i] == line[i]);
        }
    }
    lemma_ascii_is_utf8(head + sp + digits + sp);
    valid_utf8_concat(head + sp + digits + sp, text);
    // The first space ends the version.
    assert(line.subrange(a, a + 1) =~= sp);
    assert forall|j: int| 0 <= j < a implies !occurs_at(line, sp, j) by {
        if occurs_at(line, sp, j) {
            assert(line.subrange(j, j + 1)[0] == line[j]);
        }
    }
    lemma_find_from_unique(line, sp, 0, a);
    // The second space ends the code.
    assert(line.subrange(b, b + 1) =~= sp);
    assert forall|j: int| a + 1 <= j < b implies !occurs_at(line, sp, j) by {
        if occurs_at(line, sp, j) {
            assert(line.subrange(j, j + 1)[0] == line[j]);
        }
    }
    lemma_find_from_unique(line, sp, a + 1, b);
    assert(line.subrange(0, a) =~= head);
    assert(line.subrange(a + 1, b) =~= digits);
    assert(line.subrange(b + 1, line.len() as int) =~= text);
    if m.http_version == lit("1.1") {
        assert(head =~= lit("HTTP/1.1"));
    } else {
        assert(head =~= lit("HTTP/1.0"));
        assert(lit("HTTP/1.0")[7] != lit("HTTP/1.1")[7]);
    }
    assert(response_version(head) == Some(m.http_version));
    // No line end stands in the line.
    assert forall|i: int| 0 <= i && i + 1 < line.len() implies !(#[trigger] line[i] == 0x0d
        && line[i + 1] == 0x0a) by {
        if i > b {
            assert(text[i - b - 1] == line[i] && text[i - b] == line[i + 1]);
        }
    }
}

/// A start line, header lines, an empty line and a body, given to a parser
/// that has read nothing and holds no headers and no body, are read as the
/// message that the start line makes, with those headers and that body.
pub proof fn lemma_message_read_back(
    from: MessageModel,
    start: Seq<u8>,
    first: MessageModel,
    headers: Map<Seq<u8>, Seq<u8>>,
    body: Seq<u8>,
)
    requires
        crlf_free(start),
        start.len() > 0,
        apply_line(from, 0, start) == Ok::<MessageModel, ErrorModel>(first),
        first.headers() == Map::<Seq<u8>, Seq<u8>>::empty(),
        first.body() == Seq::<u8>::empty(),
        headers.dom().finite(),
        plain_headers(headers),
    ensures
        feed(fresh(from), start + crlf() + header_block(listing(headers)) + crlf() + body) == (
        FeedOutcome {
            state: ParserModel {
                pending: Seq::empty(),
                lines: listing(headers).len() + 2,
                headers_done: true,
                msg: first.with_headers(headers).with_body(body),
            },
            error: None,
        }),
{
    reveal(scan);
    lemma_lit_crlf();
    lemma_listing_exists(headers);
    let pairs = listing(headers);
    let rest = header_block(pairs) + crlf() + body;
    let data = start + crlf() + header_block(pairs) + crlf() + body;
    let taken = ParserModel { pending: fresh(from).pending + data, ..fresh(from) };
    assert(taken.pending =~= start + crlf() + rest);
    lemma_line_end(start, rest);
    let next = ParserModel { pending: rest, lines: 1, msg: first, ..taken };
    assert(scan(taken) == scan(next));
    assert forall|i: int| 0 <= i < pairs.len() implies plain_header(
        #[trigger] pairs[i].0,
        pairs[i].1,
    ) by {
        assert(headers.contains_pair(pairs[i].0, pairs[i].1));
        assert(headers.contains_key(pairs[i].0));
    }
    lemma_scan_headers(next, pairs, body);
    lemma_stored_listing(pairs, headers);
    let read = scan(next).state;
    assert(first.body() + body =~= body);
    assert(flush(read).msg == first.with_headers(headers).with_body(body));
}

/// Header round-trip: the wire format of a response whose status line and
/// headers can be read back, given in one piece to a parser that has read
/// nothing and holds no headers and no body, is read as that response: the
/// same status line, the same headers and the same body.
pub proof fn lemma_response_read_back(m: ResponseModel, from: ResponseModel)
    requires
        plain_status(m),
        plain_headers(m.headers),
        m.headers.dom().finite(),
        from.headers == Map::<Seq<u8>, Seq<u8>>::empty(),
        from.body == Seq::<u8>::empty(),
    ensures
        feed(fresh(MessageModel::Response(from)), response_bytes(m)) == (FeedOutcome {
            state: ParserModel {
                pending: Seq::empty(),
                lines: listing(m.headers).len() + 2,
                headers_done: true,
                msg: MessageModel::Response(m),
            },
            error: None,
        }),
{
    lemma_status_line_read_back(m, from);
    let first = MessageModel::Response(
        ResponseModel {
            response_code: m.response_code,
            response_status: m.response_status,
            http_version: m.http_version,
            ..from
        },
    );
    lemma_message_read_back(
        MessageModel::Response(from),
        response_start(m),
        first,
        m.headers,
        m.body,
    );
}

/// What the method tokens are, byte for byte.
pub proof fn lemma_lit_methods()
    ensures
        lit("GET") == seq![0x47u8, 0x45u8, 0x54u8],
        lit("HEAD") == seq![0x48u8, 0x45u8, 0x41u8, 0x44u8],
        lit("POST") == seq![0x50u8, 0x4fu8, 0x53u8, 0x54u8],
        lit("NOTIFY") == seq![0x4eu8, 0x4fu8, 0x54u8, 0x49u8, 0x46u8, 0x59u8],
        lit("M-SEARCH") == seq![0x4du8, 0x2du8, 0x53u8, 0x45u8, 0x41u8, 0x52u8, 0x43u8, 0x48u8],
{
    reveal_strlit("GET");
    reveal_strlit("HEAD");
    reveal_strlit("POST");
    reveal_strlit("NOTIFY");
    reveal_strlit("M-SEARCH");
    is_ascii_chars_encode_utf8("GET"@);
    is_ascii_chars_encode_utf8("HEAD"@);
    is_ascii_chars_encode_utf8("POST"@);
    is_ascii_chars_encode_utf8("NOTIFY"@);
    is_ascii_chars_encode_utf8("M-SEARCH"@);
    assert(lit("GET") =~= seq![0x47u8, 0x45u8, 0x54u8]);
    assert(lit("HEAD") =~= seq![0x48u8, 0x45u8, 0x41u8, 0x44u8]);
    assert(lit("POST") =~= seq![0x50u8, 0x4fu8, 0x53u8, 0x54u8]);
    assert(lit("NOTIFY") =~= seq![0x4eu8, 0x4fu8, 0x54u8, 0x49u8, 0x46u8, 0x59u8]);
    assert(lit("M-SEARCH") =~= seq![
        0x4du8,
        0x2du8,
        0x53u8,
        0x45u8,
        0x41u8,
        0x52u8,
        0x43u8,
        0x48u8,
    ]);
}

/// Whether a request has a request line that can be read back: the method
/// is one that the parser knows, the version is 1.0 or 1.1, and the URL is
/// UTF-8 without a line end.
pub open spec fn plain_request_line(m: RequestModel) -> bool {
    &&& parsed_method(m.method)
    &&& m.http_version == lit("1.1") || m.http_version == lit("1.0")
    &&& valid_utf8(m.url)
    &&& crlf_free(m.url)
}

/// Whether a method is one whose token the parser knows.
pub open spec fn parsed_method(method: HttpMethod) -> bool {
    method == HttpMethod::Get || method == HttpMethod::Head || method == HttpMethod::Post
        || method == HttpMethod::Notify || method == HttpMethod::MSearch
}

/// A line that begins with the token of a method that the parser knows is
/// read as a line of that method.
pub proof fn lemma_method_read_back(method: HttpMethod, line: Seq<u8>)
    requires
        parsed_method(method),
        utf8(method_name(method)).is_prefix_of(line),
    ensures
        request_method(line) == Some((method, utf8(method_name(method)).len() as int)),
        is_ascii_bytes(utf8(method_name(method))),
        forall|i: int|
            0 <= i < utf8(method_name(method)).len() ==> utf8(method_name(method))[i] != 0x0d,
{
    lemma_lit_methods();
    let token = utf8(method_name(method));
    assert(line.subrange(0, token.len() as int)[0] == line[0]);
    if line.len() >= 4 {
        assert(line.subrange(0, 4)[0] == line[0]);
    }
    if line.len() >= 6 {
        assert(line.subrange(0, 6)[0] == line[0]);
    }
}

/// The end of a request line: a space, the version marker and the version.
pub open spec fn version_tail(version: Seq<u8>) -> Seq<u8> {
    lit(" HTTP/") + version
}

/// In a URL followed by the end of a request line, the last version marker
/// is the one of that end, and the line ends in its version.
pub proof fn lemma_version_read_back(front: Seq<u8>, url: Seq<u8>, version: Seq<u8>)
    requires
        version == lit("1.1") || version == lit("1.0"),
    ensures
        find_last(url + version_tail(version), lit("HTTP/1")) == Some(url.len() as int + 1),
        request_version(front + version_tail(version)) == Some(version),
        version_tail(version).len() == 9,
        is_ascii_bytes(version_tail(version)),
        forall|i: int|
            0 <= i < 9 ==> version_tail(version)[i] != 0x0d && version_tail(version)[i] != 0x0a,
        version_tail(version)[0] == 0x20,
{
    lemma_lit_versions();
    let tail = version_tail(version);
    let mark = lit("HTTP/1");
    let middle = url + tail;
    let u = url.len() as int;
    assert(tail.len() == 9);
    assert(middle.subrange(u + 1, u + 7) =~= mark);
    assert(!occurs_at(middle, mark, u + 2)) by {
        assert(middle.subrange(u + 2, u + 8)[0] == middle[u + 2]);
    }
    assert(!occurs_at(middle, mark, u + 3)) by {
        assert(middle.subrange(u + 3, u + 9)[0] == middle[u + 3]);
    }
    assert(find_back_from(middle, mark, u + 3) == find_back_from(middle, mark, u + 2));
    assert(find_back_from(middle, mark, u + 2) == find_back_from(middle, mark, u + 1));
    let line = front + tail;
    let n = line.len() as int;
    if version == lit("1.1") {
        assert(line.subrange(n - 8, n) =~= lit("HTTP/1.1"));
    } else {
        assert(line.subrange(n - 8, n) =~= lit("HTTP/1.0"));
        assert(lit("HTTP/1.0")[7] != lit("HTTP/1.1")[7]);
        assert(line.subrange(n - 8, n)[7] == lit("HTTP/1.0")[7]);
    }
}

/// A request line is read back as its method, its URL and its version.
pub proof fn lemma_request_line_read_back(m: RequestModel, old: RequestModel)
    requires
        plain_request_line(m),
    ensures
        request_line(old, request_start(m)) == Ok::<RequestModel, ErrorModel>(
            RequestModel { method: m.method, http_version: m.http_version, url: m.url, ..old },
        ),
        crlf_free(request_start(m)),
        request_start(m).len() > 0,
{
    lemma_lit_space();
    let sp = lit(" ");
    let token = utf8(method_name(m.method));
    let tail = version_tail(m.http_version);
    let line = request_start(m);
    let t = token.len() as int;
    let u = m.url.len() as int;
    assert(line =~= token + sp + m.url + tail);
    assert(line.subrange(0, t) =~= token);
    lemma_method_read_back(m.method, line);
    lemma_version_read_back(token + sp + m.url, m.url, m.http_version);
    assert(line.len() == t + 1 + u + 9);
    // The line is UTF-8.
    assert(is_ascii_bytes(token + sp));
    lemma_ascii_is_utf8(token + sp);
    lemma_ascii_is_utf8(tail);
    valid_utf8_concat(token + sp, m.url);
    valid_utf8_concat(token + sp + m.url, tail);
    // What follows the token and the space is the URL and the version.
    assert(after_method(line, t) =~= m.url + tail);
    assert((m.url + tail).subrange(0, u) =~= m.url);
    // No line end stands in the line.
    assert forall|i: int| 0 <= i && i + 1 < line.len() implies !(#[trigger] line[i] == 0x0d
        && line[i + 1] == 0x0a) by {
        if i < t {
            assert(line[i] == token[i]);
        } else if i == t {
            assert(line[i] == sp[0]);
        } else if i + 1 < t + 1 + u {
            assert(m.url[i - t - 1] == line[i] && m.url[i - t] == line[i + 1]);
        } else if i + 1 == t + 1 + u {
            assert(line[i + 1] == tail[0]);
        } else {
            assert(line[i] == tail[i - t - 1 - u]);
        }
    }
}

/// The wire format of a request whose request line and headers can be read
/// back, given in one piece to a parser that has read nothing and holds no
/// headers and no body, is read as that request.
pub proof fn lemma_request_read_back(m: RequestModel, from: RequestModel)
    requires
        plain_request_line(m),
        plain_headers(m.headers),
        m.headers.dom().finite(),
        from.headers == Map::<Seq<u8>, Seq<u8>>::empty(),
        from.body == Seq::<u8>::empty(),
    ensures
        feed(fresh(MessageModel::Request(from)), request_bytes(m)) == (FeedOutcome {
            state: ParserModel {
                pending: Seq::empty(),
                lines: listing(m.headers).len() + 2,
                headers_done: true,
                msg: MessageModel::Request(m),
            },
            error: None,
        }),
{
    lemma_request_line_read_back(m, from);
    let first = MessageModel::Request(
        RequestModel { method: m.method, http_version: m.http_version, url: m.url, ..from },
    );
    lemma_message_read_back(MessageModel::Request(from), request_start(m), first, m.headers, m.body);
}

/// Whether a response can be read back from its wire format.
pub open spec fn plain_response(m: ResponseModel) -> bool {
    plain_status(m) && plain_headers(m.headers) && m.headers.dom().finite()
}

/// Whether a request can be read back from its wire format.
pub open spec fn plain_request(m: RequestModel) -> bool {
    plain_request_line(m) && plain_headers(m.headers) && m.headers.dom().finite()
}

/// A response that can be read back, given in its wire format in any number
/// of pieces of any size to a parser that has read nothing, is read as that
/// response; and where its `Content-Length` is no more than the length of
/// its body, the parser then needs no more bytes.
pub proof fn lemma_response_in_pieces(m: ResponseModel, from: ResponseModel, pieces: Seq<Seq<u8>>)
    requires
        plain_response(m),
        from.headers == Map::<Seq<u8>, Seq<u8>>::empty(),
        from.body == Seq::<u8>::empty(),
        joined(pieces) == response_bytes(m),
    ensures
        feed_all(fresh(MessageModel::Response(from)), pieces).error is None,
        feed_all(fresh(MessageModel::Response(from)), pieces).state.msg == MessageModel::Response(
            m,
        ),
        feed_all(fresh(MessageModel::Response(from)), pieces).state.headers_done,
        content_length_of(m.headers) matches Some(n) && n <= m.body.len() ==> bytes_needed(
            feed_all(fresh(MessageModel::Response(from)), pieces).state,
        ) == 0,
{
    lemma_lit_crlf();
    lemma_response_read_back(m, from);
    lemma_feed_pieces(fresh(MessageModel::Response(from)), pieces);
}

/// A request that can be read back, given in its wire format in any number
/// of pieces of any size to a parser that has read nothing, is read as that
/// request; and where it is a GET or HEAD request, or its `Content-Length`
/// is no more than the length of its body, the parser then needs no more
/// bytes.
pub proof fn lemma_request_in_pieces(m: RequestModel, from: RequestModel, pieces: Seq<Seq<u8>>)
    requires
        plain_request(m),
        from.headers == Map::<Seq<u8>, Seq<u8>>::empty(),
        from.body == Seq::<u8>::empty(),
        joined(pieces) == request_bytes(m),
    ensures
        feed_all(fresh(MessageModel::Request(from)), pieces).error is None,
        feed_all(fresh(MessageModel::Request(from)), pieces).state.msg == MessageModel::Request(m),
        feed_all(fresh(MessageModel::Request(from)), pieces).state.headers_done,
        m.method == HttpMethod::Get || m.method == HttpMethod::Head || (content_length_of(
            m.headers,
        ) matches Some(n) && n <= m.body.len()) ==> bytes_needed(
            feed_all(fresh(MessageModel::Request(from)), pieces).state,
        ) == 0,
{
    lemma_lit_crlf();
    lemma_request_read_back(m, from);
    lemma_feed_pieces(fresh(MessageModel::Request(from)), pieces);
}

/// Malformed start line: a parser for a request that has read nothing and
/// is given a line of text that begins with no method token refuses it with
/// `LineParseError`, which carries the line. No line is counted as read, and
/// the request is unchanged.
pub proof fn lemma_unknown_method_is_refused(from: RequestModel, line: Seq<u8>, rest: Seq<u8>)
    requires
        valid_utf8(line),
        crlf_free(line),
        line.len() > 0,
        request_method(line) is None,
    ensures
        feed(fresh(MessageModel::Request(from)), line + crlf() + rest) == (FeedOutcome {
            state: ParserModel { pending: rest, ..fresh(MessageModel::Request(from)) },
            error: Some(ErrorModel::LineParseError(line)),
        }),
{
    reveal(scan);
    lemma_lit_crlf();
    let start = fresh(MessageModel::Request(from));
    let data = line + crlf() + rest;
    assert(start.pending + data =~= data);
    lemma_line_end(line, rest);
}

} // verus!
