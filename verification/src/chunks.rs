//! What the parser reads does not depend on how the bytes are cut into
//! pieces.

use crate::http::crlf;
use crate::parser::{apply_line, feed, flush, scan, settled, FeedOutcome, ParserModel};
use crate::text::{
    find_first, lemma_find_from_least, lemma_find_from_unique, lemma_lit_crlf, occurs_at,
};
use vstd::prelude::*;

verus! {

/// The parser `m` with `more` added to its pending bytes.
pub open spec fn with_pending(m: ParserModel, more: Seq<u8>) -> ParserModel {
    ParserModel { pending: m.pending + more, ..m }
}

/// The parser after it was given the pieces one after the other, up to the
/// first piece that ends in an error.
pub open spec fn feed_all(m: ParserModel, pieces: Seq<Seq<u8>>) -> FeedOutcome
    decreases pieces.len(),
{
    if pieces.len() == 0 {
        FeedOutcome { state: m, error: None }
    } else {
        let first = feed(m, pieces[0]);
        if first.error is Some {
            first
        } else {
            feed_all(first.state, pieces.drop_first())
        }
    }
}

/// The pieces joined into one.
pub open spec fn joined(pieces: Seq<Seq<u8>>) -> Seq<u8>
    decreases pieces.len(),
{
    if pieces.len() == 0 {
        Seq::empty()
    } else {
        pieces[0] + joined(pieces.drop_first())
    }
}

/// The first occurrence of `needle` in `hay` is its first occurrence in
/// `hay` followed by anything.
pub proof fn lemma_find_first_extend(hay: Seq<u8>, more: Seq<u8>, needle: Seq<u8>)
    requires
        find_first(hay, needle) is Some,
    ensures
        find_first(hay + more, needle) == find_first(hay, needle),
{
    let i = find_first(hay, needle)->0;
    let n = needle.len() as int;
    lemma_find_from_least(hay, needle, 0);
    assert((hay + more).subrange(i, i + n) =~= hay.subrange(i, i + n));
    assert forall|j: int| 0 <= j < i implies !occurs_at(hay + more, needle, j) by {
        if occurs_at(hay + more, needle, j) {
            assert((hay + more).subrange(j, j + n) =~= hay.subrange(j, j + n));
            assert(occurs_at(hay, needle, j));
        }
    }
    lemma_find_from_unique(hay + more, needle, 0, i);
}

/// How reading lines goes on when more bytes follow the pending ones: an
/// error stays the error; after the end of the headers the new bytes are
/// pending; and otherwise the reading goes on from where it stopped, where
/// no complete line was left.
pub proof fn lemma_scan_extend(m: ParserModel, more: Seq<u8>)
    requires
        !m.headers_done,
    ensures
        scan(m).error is Some ==> scan(with_pending(m, more)).error == scan(m).error,
        scan(m).error is None && scan(m).state.headers_done ==> scan(with_pending(m, more)) == (
        FeedOutcome { state: with_pending(scan(m).state, more), error: None }),
        scan(m).error is None && !scan(m).state.headers_done ==> scan(with_pending(m, more))
            == scan(with_pending(scan(m).state, more)) && find_first(
            scan(m).state.pending,
            crlf(),
        ) is None,
    decreases m.pending.len(),
{
    reveal(scan);
    lemma_lit_crlf();
    let ext = with_pending(m, more);
    match find_first(m.pending, crlf()) {
        None => {},
        Some(end) => {
            lemma_find_from_least(m.pending, crlf(), 0);
            lemma_find_first_extend(m.pending, more, crlf());
            let line = m.pending.subrange(0, end);
            let rest = m.pending.subrange(end + 2, m.pending.len() as int);
            assert(ext.pending.subrange(0, end) =~= line);
            assert(ext.pending.subrange(end + 2, ext.pending.len() as int) =~= rest + more);
            if end == 0 {
            } else {
                match apply_line(m.msg, m.lines, line) {
                    Err(e) => {},
                    Ok(msg) => {
                        let next = ParserModel { pending: rest, lines: m.lines + 1, msg: msg, ..m };
                        lemma_scan_extend(next, more);
                        assert(with_pending(next, more) == (ParserModel {
                            pending: rest + more,
                            lines: m.lines + 1,
                            msg: msg,
                            ..ext
                        }));
                    },
                }
            }
        },
    }
}

/// Chunk-boundary independence, for two pieces: a parser that has settled
/// reaches the same state, or the same error, whether it is given `a` and
/// then `b` or both at once. After a piece without error it has settled
/// again.
pub proof fn lemma_feed_split(m: ParserModel, a: Seq<u8>, b: Seq<u8>)
    requires
        settled(m),
    ensures
        feed(m, a).error is Some ==> feed(m, a + b).error == feed(m, a).error,
        feed(m, a).error is None ==> feed(feed(m, a).state, b) == feed(m, a + b),
        feed(m, a).error is None ==> settled(feed(m, a).state),
{
    if a.len() == 0 {
        assert(a + b =~= b);
    } else if m.headers_done {
        assert(m.pending + a =~= a);
        let s1 = feed(m, a).state;
        assert(s1.pending + b =~= b);
        assert(m.pending + (a + b) =~= a + b);
        assert(m.msg.body() + a + b =~= m.msg.body() + (a + b));
        if b.len() == 0 {
            assert(a + b =~= a);
        }
    } else {
        let taken = with_pending(m, a);
        lemma_scan_extend(taken, b);
        assert(taken.pending + b =~= m.pending + (a + b));
        assert(with_pending(taken, b) == with_pending(m, a + b));
        let read = scan(taken);
        if read.error is None {
            if b.len() == 0 {
                assert(a + b =~= a);
            } else if read.state.headers_done {
                let s1 = flush(read.state);
                assert(s1.pending + b =~= b);
                assert(read.state.msg.body() + read.state.pending + b =~= read.state.msg.body() + (
                read.state.pending + b));
            } else {
            }
        }
    }
}

/// Chunk-boundary independence: a parser that has settled, as a new parser
/// has, reaches the same state whether it is given a message in any number
/// of pieces of any size or in one piece; and where a line is in error, it
/// reports that error either way.
pub proof fn lemma_feed_pieces(m: ParserModel, pieces: Seq<Seq<u8>>)
    requires
        settled(m),
    ensures
        feed_all(m, pieces).error == feed(m, joined(pieces)).error,
        feed_all(m, pieces).error is None ==> feed_all(m, pieces).state == feed(
            m,
            joined(pieces),
        ).state && settled(feed_all(m, pieces).state),
    decreases pieces.len(),
{
    if pieces.len() == 0 {
    } else {
        let rest = pieces.drop_first();
        lemma_feed_split(m, pieces[0], joined(rest));
        let first = feed(m, pieces[0]);
        if first.error is None {
            lemma_feed_pieces(first.state, rest);
        }
    }
}

} // verus!
