//! Searching, slicing and number conversion on UTF-8 encoded text.

use vstd::prelude::*;
use vstd::slice::*;
use vstd::string::*;
use vstd::utf8::*;

verus! {

/// The bytes that encode a string.
pub open spec fn utf8(s: Seq<char>) -> Seq<u8> {
    encode_utf8(s)
}

/// The bytes that encode a piece of text given as a literal.
pub open spec fn lit(s: &str) -> Seq<u8> {
    s.spec_bytes()
}

/// Whether `needle` stands in `hay` at index `i`.
pub open spec fn occurs_at(hay: Seq<u8>, needle: Seq<u8>, i: int) -> bool {
    0 <= i && i + needle.len() <= hay.len() && hay.subrange(i, i + needle.len()) == needle
}

/// The least index at or after `from` where `needle` stands in `hay`.
pub open spec fn find_from(hay: Seq<u8>, needle: Seq<u8>, from: int) -> Option<int>
    decreases hay.len() - from + 1,
{
    if from < 0 || from + needle.len() > hay.len() {
        None
    } else if occurs_at(hay, needle, from) {
        Some(from)
    } else {
        find_from(hay, needle, from + 1)
    }
}

/// The index of the first occurrence of `needle` in `hay`.
pub open spec fn find_first(hay: Seq<u8>, needle: Seq<u8>) -> Option<int> {
    find_from(hay, needle, 0)
}

/// The greatest index at or before `from` where `needle` stands in `hay`.
pub open spec fn find_back_from(hay: Seq<u8>, needle: Seq<u8>, from: int) -> Option<int>
    decreases from + 1,
{
    if from < 0 {
        None
    } else if occurs_at(hay, needle, from) {
        Some(from)
    } else {
        find_back_from(hay, needle, from - 1)
    }
}

/// The index of the last occurrence of `needle` in `hay`.
pub open spec fn find_last(hay: Seq<u8>, needle: Seq<u8>) -> Option<int> {
    find_back_from(hay, needle, hay.len() - needle.len())
}

/// `find_from` returns an occurrence, and no occurrence lies between `from`
/// and it; it returns `None` only where there is no occurrence from `from` on.
pub proof fn lemma_find_from_least(hay: Seq<u8>, needle: Seq<u8>, from: int)
    requires
        0 <= from,
    ensures
        match find_from(hay, needle, from) {
            Some(i) => from <= i && occurs_at(hay, needle, i) && forall|j: int|
                from <= j < i ==> !occurs_at(hay, needle, j),
            None => forall|j: int| from <= j ==> !occurs_at(hay, needle, j),
        },
    decreases hay.len() - from + 1,
{
    if from + needle.len() > hay.len() {
    } else if occurs_at(hay, needle, from) {
    } else {
        lemma_find_from_least(hay, needle, from + 1);
    }
}

/// An index that is an occurrence with none before it (from `from` on) is
/// what `find_from` returns.
pub proof fn lemma_find_from_unique(hay: Seq<u8>, needle: Seq<u8>, from: int, i: int)
    requires
        0 <= from <= i,
        occurs_at(hay, needle, i),
        forall|j: int| from <= j < i ==> !occurs_at(hay, needle, j),
    ensures
        find_from(hay, needle, from) == Some(i),
    decreases i - from,
{
    if from < i {
        lemma_find_from_unique(hay, needle, from + 1, i);
    }
}

/// `find_back_from` returns an occurrence, and no occurrence lies between
/// it and `from`.
pub proof fn lemma_find_back_from_greatest(hay: Seq<u8>, needle: Seq<u8>, from: int)
    ensures
        match find_back_from(hay, needle, from) {
            Some(i) => 0 <= i <= from && occurs_at(hay, needle, i) && forall|j: int|
                i < j <= from ==> !occurs_at(hay, needle, j),
            None => forall|j: int| 0 <= j <= from ==> !occurs_at(hay, needle, j),
        },
    decreases from + 1,
{
    if from < 0 {
    } else if occurs_at(hay, needle, from) {
    } else {
        lemma_find_back_from_greatest(hay, needle, from - 1);
    }
}

/// Whether `needle` stands in `hay` at index `i`.
pub fn matches_at(hay: &[u8], needle: &[u8], i: usize) -> (r: bool)
    ensures
        r == occurs_at(hay@, needle@, i as int),
{
    if needle.len() > hay.len() || i > hay.len() - needle.len() {
        return false;
    }
    let mut k: usize = 0;
    while k < needle.len()
        invariant
            0 <= k <= needle.len(),
            i + needle.len() <= hay.len(),
            forall|j: int| 0 <= j < k ==> hay@[i + j] == needle@[j],
        decreases needle.len() - k,
    {
        if hay[i + k] != needle[k] {
            proof {
                assert(hay@.subrange(i as int, i + needle@.len())[k as int] == hay@[i + k]);
            }
            return false;
        }
        k += 1;
    }
    proof {
        assert(hay@.subrange(i as int, i + needle@.len()) =~= needle@);
    }
    true
}

/// The first occurrence of `needle` in `hay` at or after `from`.
pub fn find_bytes_from(hay: &[u8], needle: &[u8], from: usize) -> (r: Option<usize>)
    ensures
        match r {
            Some(i) => find_from(hay@, needle@, from as int) == Some(i as int),
            None => find_from(hay@, needle@, from as int) is None,
        },
{
    if needle.len() > hay.len() || from > hay.len() - needle.len() {
        return None;
    }
    let last: usize = hay.len() - needle.len();
    let mut i: usize = from;
    loop
        invariant
            from <= i <= last,
            last == hay.len() - needle.len(),
            find_from(hay@, needle@, from as int) == find_from(hay@, needle@, i as int),
        decreases last - i,
    {
        if matches_at(hay, needle, i) {
            return Some(i);
        }
        if i == last {
            assert(find_from(hay@, needle@, i + 1) is None);
            return None;
        }
        i += 1;
    }
}

/// The first occurrence of `needle` in `hay`.
pub fn find_bytes(hay: &[u8], needle: &[u8]) -> (r: Option<usize>)
    ensures
        match r {
            Some(i) => find_first(hay@, needle@) == Some(i as int),
            None => find_first(hay@, needle@) is None,
        },
{
    find_bytes_from(hay, needle, 0)
}

/// The last occurrence of `needle` in `hay`.
pub fn rfind_bytes(hay: &[u8], needle: &[u8]) -> (r: Option<usize>)
    ensures
        match r {
            Some(i) => find_last(hay@, needle@) == Some(i as int),
            None => find_last(hay@, needle@) is None,
        },
{
    if needle.len() > hay.len() {
        return None;
    }
    let mut i: usize = hay.len() - needle.len();
    loop
        invariant
            i <= hay.len() - needle.len(),
            needle.len() <= hay.len(),
            find_last(hay@, needle@) == find_back_from(hay@, needle@, i as int),
        decreases i,
    {
        if matches_at(hay, needle, i) {
            return Some(i);
        }
        if i == 0 {
            assert(find_back_from(hay@, needle@, -1) is None);
            return None;
        }
        i -= 1;
    }
}

/// Whether `hay` begins with `prefix`.
pub fn starts_with_bytes(hay: &[u8], prefix: &[u8]) -> (r: bool)
    ensures
        r == prefix@.is_prefix_of(hay@),
{
    matches_at(hay, prefix, 0)
}

/// Whether `hay` ends with `suffix`.
pub fn ends_with_bytes(hay: &[u8], suffix: &[u8]) -> (r: bool)
    ensures
        r == suffix@.is_suffix_of(hay@),
{
    if suffix.len() > hay.len() {
        return false;
    }
    matches_at(hay, suffix, hay.len() - suffix.len())
}

/// Whether two byte strings are equal.
pub fn bytes_eq(a: &[u8], b: &[u8]) -> (r: bool)
    ensures
        r == (a@ == b@),
{
    if a.len() != b.len() {
        return false;
    }
    let r = matches_at(a, b, 0);
    proof {
        assert(a@.subrange(0, a@.len() as int) =~= a@);
    }
    r
}

/// Whether a byte is an ASCII decimal digit.
pub open spec fn is_digit(b: u8) -> bool {
    0x30 <= b && b <= 0x39
}

/// Whether every byte is an ASCII decimal digit.
pub open spec fn all_digits(d: Seq<u8>) -> bool {
    forall|i: int| 0 <= i < d.len() ==> is_digit(#[trigger] d[i])
}

/// The number that a string of decimal digits denotes.
pub open spec fn decimal_value(d: Seq<u8>) -> nat
    decreases d.len(),
{
    if d.len() == 0 {
        0
    } else {
        decimal_value(d.drop_last()) * 10 + (d.last() - 0x30) as nat
    }
}

/// The number that `s` denotes: an optional `+`, then one or more decimal
/// digits whose value is at most `max`. `None` for anything else.
pub open spec fn parse_unsigned(s: Seq<u8>, max: nat) -> Option<nat> {
    let d = if s.len() > 0 && s[0] == 0x2b {
        s.subrange(1, s.len() as int)
    } else {
        s
    };
    if d.len() > 0 && all_digits(d) && decimal_value(d) <= max {
        Some(decimal_value(d))
    } else {
        None
    }
}

/// The decimal digits of `n`, without leading zeros.
pub open spec fn decimal_digits(n: nat) -> Seq<u8>
    decreases n,
{
    if n < 10 {
        seq![(0x30 + n) as u8]
    } else {
        decimal_digits(n / 10).push((0x30 + n % 10) as u8)
    }
}

/// A prefix of a digit string denotes no more than the whole.
pub proof fn lemma_decimal_value_prefix(d: Seq<u8>, k: int)
    requires
        0 <= k <= d.len(),
    ensures
        decimal_value(d.subrange(0, k)) <= decimal_value(d),
    decreases d.len(),
{
    if k == d.len() {
        assert(d.subrange(0, k) =~= d);
    } else {
        lemma_decimal_value_prefix(d.drop_last(), k);
        assert(d.drop_last().subrange(0, k) =~= d.subrange(0, k));
    }
}

/// Reads an unsigned decimal number of at most `max`.
pub fn parse_decimal(bytes: &[u8], max: u64) -> (r: Option<u64>)
    ensures
        match r {
            Some(v) => parse_unsigned(bytes@, max as nat) == Some(v as nat),
            None => parse_unsigned(bytes@, max as nat) is None,
        },
{
    let start: usize = if bytes.len() > 0 && bytes[0] == 0x2b {
        1
    } else {
        0
    };
    if start == bytes.len() {
        return None;
    }
    let ghost d = bytes@.subrange(start as int, bytes@.len() as int);
    proof {
        if start == 0 {
            assert(d =~= bytes@);
        }
    }
    let mut acc: u64 = 0;
    let mut i: usize = start;
    while i < bytes.len()
        invariant
            start <= i <= bytes.len(),
            d == bytes@.subrange(start as int, bytes@.len() as int),
            start == 0 ==> d == bytes@,
            start == 1 <==> bytes@.len() > 0 && bytes@[0] == 0x2b,
            start == 0 || start == 1,
            all_digits(d.subrange(0, i - start)),
            acc == decimal_value(d.subrange(0, i - start)),
            acc <= max,
        decreases bytes.len() - i,
    {
        let b: u8 = bytes[i];
        if b < 0x30 || b > 0x39 {
            proof {
                assert(d[i - start] == b);
            }
            return None;
        }
        let digit: u64 = (b - 0x30) as u64;
        proof {
            let next = d.subrange(0, i + 1 - start);
            assert(next.drop_last() =~= d.subrange(0, i - start));
            assert(next.last() == b);
            assert(decimal_value(next) == acc * 10 + digit);
            assert forall|j: int| 0 <= j < next.len() implies is_digit(#[trigger] next[j]) by {
                if j < i - start {
                    assert(d.subrange(0, i - start)[j] == next[j]);
                }
            }
            lemma_decimal_value_prefix(d, i + 1 - start);
        }
        let tens: u64 = match acc.checked_mul(10) {
            Some(t) => t,
            None => {
                return None;
            },
        };
        acc = match tens.checked_add(digit) {
            Some(sum) => sum,
            None => {
                return None;
            },
        };
        if acc > max {
            return None;
        }
        i += 1;
    }
    proof {
        assert(d.subrange(0, d.len() as int) =~= d);
    }
    Some(acc)
}

/// Appends the decimal digits of `n` to `out`.
pub fn push_decimal(out: &mut Vec<u8>, n: u64)
    ensures
        final(out)@ == old(out)@ + decimal_digits(n as nat),
    decreases n,
{
    if n >= 10 {
        push_decimal(out, n / 10);
    }
    let digit: u8 = (n % 10) as u8;
    out.push(0x30 + digit);
    proof {
        if n >= 10 {
            assert(final(out)@ =~= old(out)@ + decimal_digits(n as nat));
        } else {
            assert(final(out)@ =~= old(out)@ + decimal_digits(n as nat));
        }
    }
}

/// Appends `bytes` to `out`.
pub fn push_bytes(out: &mut Vec<u8>, bytes: &[u8])
    ensures
        final(out)@ == old(out)@ + bytes@,
{
    let mut i: usize = 0;
    while i < bytes.len()
        invariant
            0 <= i <= bytes.len(),
            out@ == old(out)@ + bytes@.subrange(0, i as int),
        decreases bytes.len() - i,
    {
        out.push(bytes[i]);
        i += 1;
        proof {
            assert(out@ =~= old(out)@ + bytes@.subrange(0, i as int));
        }
    }
    proof {
        assert(bytes@.subrange(0, bytes@.len() as int) =~= bytes@);
    }
}

/// In valid UTF-8 a byte below 0x80 is a character of its own: the text can
/// be cut before it and after it.
pub proof fn lemma_ascii_boundary(bytes: Seq<u8>, i: int)
    requires
        valid_utf8(bytes),
        0 <= i < bytes.len(),
        bytes[i] < 0x80,
    ensures
        is_char_boundary(bytes, i),
        is_char_boundary(bytes, i + 1),
{
    is_char_boundary_iff_not_is_continuation_byte(bytes, i);
    valid_utf8_split(bytes, i);
    let suffix = bytes.subrange(i, bytes.len() as int);
    assert(suffix[0] == bytes[i]);
    assert(pop_first_scalar(suffix) =~= bytes.subrange(i + 1, bytes.len() as int));
    if i + 1 < bytes.len() {
        let rest = bytes.subrange(i + 1, bytes.len() as int);
        assert(valid_utf8(rest));
        assert(rest[0] == bytes[i + 1]);
        assert(valid_first_scalar(rest));
        is_char_boundary_iff_not_is_continuation_byte(bytes, i + 1);
    } else {
        is_char_boundary_start_end_of_seq(bytes);
    }
}

/// A boundary of the whole text that lies in a prefix cut at a boundary is a
/// boundary of that prefix.
pub proof fn lemma_boundary_in_prefix(bytes: Seq<u8>, from: int, to: int)
    requires
        valid_utf8(bytes),
        0 <= from <= to <= bytes.len(),
        is_char_boundary(bytes, from),
        is_char_boundary(bytes, to),
    ensures
        valid_utf8(bytes.subrange(0, to)),
        is_char_boundary(bytes.subrange(0, to), from),
{
    valid_utf8_split(bytes, to);
    let prefix = bytes.subrange(0, to);
    if from < to {
        is_char_boundary_iff_not_is_continuation_byte(bytes, from);
        assert(prefix[from] == bytes[from]);
        is_char_boundary_iff_not_is_continuation_byte(prefix, from);
    } else {
        is_char_boundary_start_end_of_seq(prefix);
    }
}

/// Checks that `bytes` is UTF-8 and hands it back as text. Calls
/// `core::str::from_utf8`: the result is `Some` exactly for valid UTF-8, and
/// the text is then encoded by the very bytes given.
#[verifier::external_body]
pub(crate) fn str_from_utf8<'a>(bytes: &'a [u8]) -> (r: Option<&'a str>)
    ensures
        r is Some <==> valid_utf8(bytes@),
        r matches Some(s) ==> s.spec_bytes() == bytes@,
{
    core::str::from_utf8(bytes).ok()
}

/// The part of `s` between two character boundaries.
pub fn str_slice<'a>(s: &'a str, from: usize, to: usize) -> (r: &'a str)
    requires
        from <= to <= s.spec_bytes().len(),
        is_char_boundary(s.spec_bytes(), from as int),
        is_char_boundary(s.spec_bytes(), to as int),
    ensures
        r.spec_bytes() == s.spec_bytes().subrange(from as int, to as int),
{
    proof {
        encode_utf8_valid_utf8(s@);
        lemma_boundary_in_prefix(s.spec_bytes(), from as int, to as int);
    }
    let (head, _) = s.split_at(to);
    let (_, r) = head.split_at(from);
    proof {
        assert(r.spec_bytes() =~= s.spec_bytes().subrange(from as int, to as int));
    }
    r
}

/// The pieces of `s` between the occurrences of `sep`, from left to right.
/// Text without `sep` is one piece; so is empty text.
pub open spec fn split(s: Seq<u8>, sep: Seq<u8>) -> Seq<Seq<u8>>
    decreases s.len(),
{
    match find_first(s, sep) {
        Some(i) => {
            if sep.len() > 0 && 0 <= i && i + sep.len() <= s.len() {
                seq![s.subrange(0, i)] + split(s.subrange(i + sep.len(), s.len() as int), sep)
            } else {
                seq![s]
            }
        },
        None => seq![s],
    }
}

/// The pieces of `s` between the occurrences of the one-byte text `sep`.
pub(crate) fn split_str<'a>(s: &'a str, sep: &str) -> (r: Vec<&'a str>)
    requires
        sep.spec_bytes().len() == 1,
        sep.spec_bytes()[0] < 0x80,
    ensures
        r@.len() == split(s.spec_bytes(), sep.spec_bytes()).len(),
        forall|i: int|
            0 <= i < r@.len() ==> (#[trigger] r@[i]).spec_bytes() == split(
                s.spec_bytes(),
                sep.spec_bytes(),
            )[i],
{
    let bytes = s.as_bytes();
    let len: usize = bytes.len();
    let ghost whole = split(bytes@, sep.spec_bytes());
    let mut out: Vec<&'a str> = Vec::new();
    let mut start: usize = 0;
    proof {
        encode_utf8_valid_utf8(s@);
        is_char_boundary_start_end_of_seq(bytes@);
        assert(bytes@.subrange(0, len as int) =~= bytes@);
    }
    loop
        invariant
            0 <= start <= len,
            len == bytes@.len(),
            bytes@ == s.spec_bytes(),
            valid_utf8(bytes@),
            is_char_boundary(bytes@, start as int),
            is_char_boundary(bytes@, len as int),
            sep.spec_bytes().len() == 1,
            sep.spec_bytes()[0] < 0x80,
            whole == split(bytes@, sep.spec_bytes()),
            whole.len() == out@.len() + split(
                bytes@.subrange(start as int, len as int),
                sep.spec_bytes(),
            ).len(),
            forall|i: int| 0 <= i < out@.len() ==> (#[trigger] out@[i]).spec_bytes() == whole[i],
            forall|i: int|
                out@.len() <= i < whole.len() ==> whole[i] == split(
                    bytes@.subrange(start as int, len as int),
                    sep.spec_bytes(),
                )[i - out@.len()],
        decreases len - start,
    {
        let rest = slice_subrange(bytes, start, len);
        match find_bytes(rest, sep.as_bytes()) {
            None => {
                out.push(str_slice(s, start, len));
                return out;
            },
            Some(i) => {
                proof {
                    lemma_find_from_least(rest@, sep.spec_bytes(), 0);
                    let found = rest@.subrange(i as int, i + 1);
                    assert(rest@[i as int] == found[0]);
                    lemma_ascii_boundary(bytes@, start + i);
                    assert(rest@.subrange(i + 1, rest@.len() as int) =~= bytes@.subrange(
                        start + i + 1,
                        len as int,
                    ));
                    assert(rest@.subrange(0, i as int) =~= bytes@.subrange(
                        start as int,
                        start + i,
                    ));
                }
                out.push(str_slice(s, start, start + i));
                start = start + i + 1;
            },
        }
    }
}

/// The text of one space is the byte 0x20.
pub proof fn lemma_lit_space()
    ensures
        lit(" ") == seq![0x20u8],
        lit(" ").len() == 1,
        lit(" ")[0] == 0x20,
{
    reveal_strlit(" ");
    is_ascii_chars_encode_utf8(" "@);
    assert(lit(" ") =~= seq![0x20u8]);
}

/// The text of a colon and a space is the bytes 0x3a, 0x20.
pub proof fn lemma_lit_colon_space()
    ensures
        lit(": ") == seq![0x3au8, 0x20u8],
        lit(": ").len() == 2,
        lit(": ")[0] == 0x3a,
        lit(": ")[1] == 0x20,
{
    reveal_strlit(": ");
    is_ascii_chars_encode_utf8(": "@);
    assert(lit(": ") =~= seq![0x3au8, 0x20u8]);
}

/// The text of a line end is the bytes 0x0d, 0x0a.
pub proof fn lemma_lit_crlf()
    ensures
        lit("\r\n") == seq![0x0du8, 0x0au8],
        lit("\r\n").len() == 2,
        lit("\r\n")[0] == 0x0d,
        lit("\r\n")[1] == 0x0a,
{
    reveal_strlit("\r\n");
    is_ascii_chars_encode_utf8("\r\n"@);
    assert(lit("\r\n") =~= seq![0x0du8, 0x0au8]);
}

/// The text of a slash is the byte 0x2f.
pub proof fn lemma_lit_slash()
    ensures
        lit("/") == seq![0x2fu8],
        lit("/").len() == 1,
        lit("/")[0] == 0x2f,
{
    reveal_strlit("/");
    is_ascii_chars_encode_utf8("/"@);
    assert(lit("/") =~= seq![0x2fu8]);
}

/// The text of a colon is the byte 0x3a.
pub proof fn lemma_lit_colon()
    ensures
        lit(":") == seq![0x3au8],
        lit(":").len() == 1,
        lit(":")[0] == 0x3a,
{
    reveal_strlit(":");
    is_ascii_chars_encode_utf8(":"@);
    assert(lit(":") =~= seq![0x3au8]);
}

/// The text of an ampersand is the byte 0x26.
pub proof fn lemma_lit_amp()
    ensures
        lit("&") == seq![0x26u8],
        lit("&").len() == 1,
        lit("&")[0] == 0x26,
{
    reveal_strlit("&");
    is_ascii_chars_encode_utf8("&"@);
    assert(lit("&") =~= seq![0x26u8]);
}

/// The text of an equals sign is the byte 0x3d.
pub proof fn lemma_lit_equals()
    ensures
        lit("=") == seq![0x3du8],
        lit("=").len() == 1,
        lit("=")[0] == 0x3d,
{
    reveal_strlit("=");
    is_ascii_chars_encode_utf8("="@);
    assert(lit("=") =~= seq![0x3du8]);
}

/// The text `://` is the bytes 0x3a, 0x2f, 0x2f.
pub proof fn lemma_lit_scheme_mark()
    ensures
        lit("://") == seq![0x3au8, 0x2fu8, 0x2fu8],
        lit("://").len() == 3,
        lit("://")[0] == 0x3a,
        lit("://")[1] == 0x2f,
        lit("://")[2] == 0x2f,
{
    reveal_strlit("://");
    is_ascii_chars_encode_utf8("://"@);
    assert(lit("://") =~= seq![0x3au8, 0x2fu8, 0x2fu8]);
}

} // verus!
