//! What holds of the framer over several feeds and for every message.

use vstd::prelude::*;

use crate::ascii;
use crate::net::http;
use crate::net::http::framing;
use crate::net::http::framing::{AuthorityHeader, Body, Kind, RewritePolicy};
use crate::net::ip::SocketAddrV4;

verus! {

/// Splitting the input of a body anywhere changes nothing: what the whole input gives is what the
/// first piece gives, followed by what the bytes it left and the second piece give.
pub proof fn law_body_in_pieces(body: Body, s1: Seq<u8>, s2: Seq<u8>)
    requires
        framing::advance(body, s1).error is None,
    ensures
        ({
            let first = framing::advance(body, s1);
            framing::advance(body, s1 + s2) == framing::behind(
                framing::advance(first.body, s1.skip(first.taken) + s2),
                first.taken,
            )
        }),
    decreases s1.len(), 2int,
{
    assert(s1.skip(0) + s2 =~= s1 + s2);
    if s1.len() > 0 {
        match body {
            Body::Ended => {},
            Body::Length(n) => {
                if n > s1.len() {
                    assert(s1.skip(s1.len() as int) + s2 =~= s2);
                }
            },
            Body::UntilClose => {
                assert(s1.skip(s1.len() as int) + s2 =~= s2);
            },
            Body::Chunk(n) => {
                pieces_chunk(n, s1, s2);
            },
            Body::ChunkSize => {
                pieces_chunk_size(s1, s2);
            },
            Body::Trailers => {
                pieces_trailers(s1, s2);
            },
        }
    }
}

/// What [`law_body_in_pieces`] states.
spec fn in_pieces(body: Body, s1: Seq<u8>, s2: Seq<u8>) -> bool {
    let first = framing::advance(body, s1);
    framing::advance(body, s1 + s2) == framing::behind(
        framing::advance(first.body, s1.skip(first.taken) + s2),
        first.taken,
    )
}

proof fn pieces_chunk(n: nat, s1: Seq<u8>, s2: Seq<u8>)
    requires
        s1.len() > 0,
        framing::advance(Body::Chunk(n), s1).error is None,
    ensures
        in_pieces(Body::Chunk(n), s1, s2),
    decreases s1.len(), 1int,
{
    let s = s1 + s2;
    if n > s1.len() {
        assert(s1.skip(s1.len() as int) + s2 =~= s2);
        if n <= s.len() {
            assert(s.skip(n as int) =~= s2.skip(n - s1.len()));
        }
    } else if n > 0 {
        lemma_behind_prefix(Body::ChunkSize, s1, s2, n as int);
    } else {
        assert(s1.skip(0) + s2 =~= s);
    }
}

proof fn pieces_chunk_size(s1: Seq<u8>, s2: Seq<u8>)
    requires
        s1.len() > 0,
        framing::advance(Body::ChunkSize, s1).error is None,
    ensures
        in_pieces(Body::ChunkSize, s1, s2),
    decreases s1.len(), 1int,
{
    let s = s1 + s2;
    assert(s1.skip(0) + s2 =~= s);
    if let Some(i) = ascii::find(s1, framing::crlf()) {
        ascii::lemma_find(s1, framing::crlf());
        ascii::lemma_find_extends(s1, s2, framing::crlf());
        assert(s.take(i) =~= s1.take(i));
        let size: nat = framing::chunk_size(s1.take(i))->0;
        if size == 0 {
            lemma_behind_prefix(Body::Trailers, s1, s2, i + 2);
        } else {
            lemma_behind_prefix(Body::Chunk(size + 2), s1, s2, i + 2);
        }
    }
}

proof fn pieces_trailers(s1: Seq<u8>, s2: Seq<u8>)
    requires
        s1.len() > 0,
        framing::advance(Body::Trailers, s1).error is None,
    ensures
        in_pieces(Body::Trailers, s1, s2),
    decreases s1.len(), 1int,
{
    let s = s1 + s2;
    assert(s1.skip(0) + s2 =~= s);
    if let Some(i) = ascii::find(s1, framing::crlf()) {
        ascii::lemma_find(s1, framing::crlf());
        ascii::lemma_find_extends(s1, s2, framing::crlf());
        if i > 0 {
            lemma_behind_prefix(Body::Trailers, s1, s2, i + 2);
        }
    }
}

/// [`law_body_in_pieces`] behind the first `n` bytes.
proof fn lemma_behind_prefix(body: Body, s1: Seq<u8>, s2: Seq<u8>, n: int)
    requires
        0 < n <= s1.len(),
        framing::advance(body, s1.skip(n)).error is None,
    ensures
        ({
            let first = framing::advance(body, s1.skip(n));
            framing::advance(body, (s1 + s2).skip(n)) == framing::behind(
                framing::advance(first.body, s1.skip(first.taken + n) + s2),
                first.taken,
            )
        }),
    decreases s1.len(), 0int,
{
    let t = s1.skip(n);
    law_body_in_pieces(body, t, s2);
    lemma_taken(body, t);
    let first = framing::advance(body, t);
    assert((s1 + s2).skip(n) =~= t + s2);
    assert(t.skip(first.taken) =~= s1.skip(first.taken + n));
}

/// A body takes no more than there is.
proof fn lemma_taken(body: Body, s: Seq<u8>)
    ensures
        0 <= framing::advance(body, s).taken <= s.len(),
    decreases s.len(),
{
    ascii::lemma_find(s, framing::crlf());
    if s.len() > 0 {
        match body {
            Body::Chunk(n) => {
                if 0 < n <= s.len() {
                    lemma_taken(Body::ChunkSize, s.skip(n as int));
                }
            },
            Body::ChunkSize => {
                if let Some(i) = ascii::find(s, framing::crlf()) {
                    lemma_taken(Body::Trailers, s.skip(i + 2));
                    if let Some(size) = framing::chunk_size(s.take(i)) {
                        lemma_taken(Body::Chunk(size + 2), s.skip(i + 2));
                    }
                }
            },
            Body::Trailers => {
                if let Some(i) = ascii::find(s, framing::crlf()) {
                    lemma_taken(Body::Trailers, s.skip(i + 2));
                }
            },
            _ => {},
        }
    }
}

/// Empty lines in front are skipped the same when more bytes follow what comes behind them.
proof fn lemma_blank_run_extends(s1: Seq<u8>, s2: Seq<u8>)
    requires
        framing::blank_run(s1) + 2 <= s1.len(),
    ensures
        framing::blank_run(s1 + s2) == framing::blank_run(s1),
    decreases s1.len(),
{
    let crlf = framing::crlf();
    if crlf.is_prefix_of(s1) {
        lemma_blank_run_extends(s1.skip(2), s2);
        assert((s1 + s2).skip(2) =~= s1.skip(2) + s2);
        assert(crlf =~= (s1 + s2).subrange(0, 2));
    } else {
        assert((s1 + s2).subrange(0, 2) =~= s1.subrange(0, 2));
    }
}

proof fn lemma_blank_run_bound(s: Seq<u8>)
    ensures
        0 <= framing::blank_run(s) <= s.len(),
    decreases s.len(),
{
    if framing::crlf().is_prefix_of(s) {
        lemma_blank_run_bound(s.skip(2));
    }
}

/// Segmentation does not matter to a body that streams across feeds: feeding the whole input gives
/// the header, body and consumed bytes of feeding a first piece of it and then the rest, and the
/// same error where the second feed is refused.
pub proof fn law_feed_in_pieces(
    kind: Kind,
    policy: RewritePolicy,
    body: Body,
    s1: Seq<u8>,
    s2: Seq<u8>,
)
    requires
        framing::fed(kind, policy, body, s1).error is None,
        framing::fed(kind, policy, body, s1).rest !is Ended,
    ensures
        ({
            let first = framing::fed(kind, policy, body, s1);
            let second = framing::fed(kind, policy, first.rest, s1.skip(first.consumed) + s2);
            let whole = framing::fed(kind, policy, body, s1 + s2);
            &&& whole.error == second.error
            &&& whole.rest == second.rest
            &&& whole.error is None ==> {
                &&& whole.header == first.header
                &&& whole.body == first.body + second.body
                &&& whole.consumed == first.consumed + second.consumed
                &&& whole.application_url == first.application_url
            }
        }),
{
    if body is Ended {
        lemma_header_feed_in_pieces(kind, policy, s1, s2);
    } else {
        lemma_feed_body_in_pieces(Seq::empty(), None, 0, body, s1, s2);
    }
}

/// The case of [`law_feed_in_pieces`] whose first piece completes a header.
#[verifier::spinoff_prover]
#[verifier::rlimit(40)]
proof fn lemma_header_feed_in_pieces(kind: Kind, policy: RewritePolicy, s1: Seq<u8>, s2: Seq<u8>)
    requires
        framing::fed(kind, policy, Body::Ended, s1).error is None,
        framing::fed(kind, policy, Body::Ended, s1).rest !is Ended,
    ensures
        ({
            let first = framing::fed(kind, policy, Body::Ended, s1);
            let second = framing::fed(kind, policy, first.rest, s1.skip(first.consumed) + s2);
            let whole = framing::fed(kind, policy, Body::Ended, s1 + s2);
            &&& whole.error == second.error
            &&& whole.rest == second.rest
            &&& whole.error is None ==> {
                &&& whole.header == first.header
                &&& whole.body == first.body + second.body
                &&& whole.consumed == first.consumed + second.consumed
                &&& whole.application_url == first.application_url
            }
        }),
{
    lemma_header_extends(kind, policy, s1, s2);
    let blank: int = framing::blank_run(s1);
    let rest = s1.skip(blank);
    let end: int = framing::header_end(rest)->0;
    let t = rest.skip(end);
    let block = rest.take(end);
    let after = header_body(kind, block);
    let header = framing::rewritten_block(framing::lines(block), kind, policy);
    let url = (framing::scan_block(block, kind)->Ok_0).application_url;
    let first = framing::fed(kind, policy, Body::Ended, s1);
    assert(first == framing::feed_body(header, url, blank + end, after, t));
    assert(framing::fed(kind, policy, Body::Ended, s1 + s2) == framing::feed_body(
        header,
        url,
        blank + end,
        after,
        t + s2,
    ));
    lemma_feed_body_in_pieces(header, url, blank + end, after, t, s2);
    lemma_taken(after, t);
    let taken: int = framing::advance(after, t).taken;
    assert(s1.skip(blank + end + taken) =~= t.skip(taken));
    assert(framing::fed(kind, policy, first.rest, s1.skip(first.consumed) + s2)
        == framing::feed_body(
        Seq::empty(),
        None,
        0,
        framing::advance(after, t).body,
        t.skip(taken) + s2,
    ));
}

/// The body that a header block announces.
spec fn header_body(kind: Kind, block: Seq<u8>) -> Body {
    let scan = framing::scan_block(block, kind)->Ok_0;
    framing::body_after(kind, framing::status_of(block, kind), scan.length, scan.chunked)
}

/// A header block that is complete is read the same when more bytes follow it.
proof fn lemma_header_extends(kind: Kind, policy: RewritePolicy, s1: Seq<u8>, s2: Seq<u8>)
    requires
        framing::header_end(s1.skip(framing::blank_run(s1))) is Some,
    ensures
        ({
            let blank: int = framing::blank_run(s1);
            let rest = s1.skip(blank);
            let end: int = framing::header_end(rest)->0;
            &&& 0 <= blank
            &&& 4 <= end
            &&& blank + end <= s1.len()
            &&& framing::blank_run(s1 + s2) == blank
            &&& (s1 + s2).skip(blank) == rest + s2
            &&& framing::header_end(rest + s2) == Some(end)
            &&& (rest + s2).take(end) == rest.take(end)
            &&& (rest + s2).skip(end) == rest.skip(end) + s2
        }),
{
    let blank: int = framing::blank_run(s1);
    lemma_blank_run_bound(s1);
    let rest = s1.skip(blank);
    let end: int = framing::header_end(rest)->0;
    ascii::lemma_find(rest, framing::header_terminator());
    lemma_blank_run_extends(s1, s2);
    assert((s1 + s2).skip(blank) =~= rest + s2);
    ascii::lemma_find_extends(rest, s2, framing::header_terminator());
    assert((rest + s2).take(end) =~= rest.take(end));
    assert((rest + s2).skip(end) =~= rest.skip(end) + s2);
}

proof fn lemma_feed_body_in_pieces(
    header: Seq<u8>,
    application_url: Option<SocketAddrV4>,
    n: int,
    body: Body,
    s1: Seq<u8>,
    s2: Seq<u8>,
)
    requires
        framing::advance(body, s1).error is None,
    ensures
        ({
            let a = framing::advance(body, s1);
            let first = framing::feed_body(header, application_url, n, body, s1);
            let second = framing::feed_body(Seq::empty(), None, 0, a.body, s1.skip(a.taken) + s2);
            let whole = framing::feed_body(header, application_url, n, body, s1 + s2);
            &&& whole.error == second.error
            &&& whole.rest == second.rest
            &&& whole.error is None ==> {
                &&& whole.header == first.header
                &&& whole.body == first.body + second.body
                &&& whole.consumed == first.consumed + second.consumed
                &&& whole.application_url == first.application_url
            }
        }),
{
    law_body_in_pieces(body, s1, s2);
    lemma_taken(body, s1);
    let a = framing::advance(body, s1);
    lemma_taken(a.body, s1.skip(a.taken) + s2);
    lemma_pieces_join(s1, s2, a.taken, framing::advance(a.body, s1.skip(a.taken) + s2).taken);
}

proof fn lemma_pieces_join(t: Seq<u8>, s2: Seq<u8>, k: int, m: int)
    requires
        0 <= k <= t.len(),
    ensures
        0 <= m <= (t.skip(k) + s2).len() ==> (t + s2).take(k + m) == t.take(k) + (t.skip(k)
            + s2).take(m),
{
    if 0 <= m <= (t.skip(k) + s2).len() {
        assert((t + s2).take(k + m) =~= t.take(k) + (t.skip(k) + s2).take(m));
    }
}

/// The header block at the front of `s`, terminated or not, is longer than the cap.
pub open spec fn over_cap(s: Seq<u8>) -> bool {
    let rest = s.skip(framing::blank_run(s));
    match framing::header_end(rest) {
        Some(end) => end > framing::MAX_HEADER,
        None => rest.len() > framing::MAX_HEADER,
    }
}

/// The cap on a header block does not depend on how the input is cut: a block above it is refused, and
/// still is with whatever follows.
pub proof fn law_header_cap_ignores_segmentation(
    kind: Kind,
    policy: RewritePolicy,
    s1: Seq<u8>,
    s2: Seq<u8>,
)
    requires
        over_cap(s1),
    ensures
        over_cap(s1 + s2),
        framing::fed(kind, policy, Body::Ended, s1).error == Some(
            framing::FramingError::HeaderTooLong,
        ),
        framing::fed(kind, policy, Body::Ended, s1 + s2).error == Some(
            framing::FramingError::HeaderTooLong,
        ),
{
    let term = framing::header_terminator();
    let blank: int = framing::blank_run(s1);
    lemma_blank_run_bound(s1);
    let rest = s1.skip(blank);
    ascii::lemma_find(rest, term);
    lemma_blank_run_extends(s1, s2);
    assert((s1 + s2).skip(blank) =~= rest + s2);
    ascii::lemma_find(rest + s2, term);
    if framing::header_end(rest) is Some {
        ascii::lemma_find_extends(rest, s2, term);
    } else if let Some(i) = ascii::find(rest + s2, term) {
        if i + 4 <= rest.len() {
            assert(rest.subrange(i, i + 4) =~= (rest + s2).subrange(i, i + 4));
        }
    }
}

/// A message that is complete stays what it is whatever follows it.
pub proof fn law_complete_message_ignores_what_follows(
    kind: Kind,
    policy: RewritePolicy,
    body: Body,
    s1: Seq<u8>,
    s2: Seq<u8>,
)
    requires
        framing::fed(kind, policy, body, s1).error is None,
        framing::fed(kind, policy, body, s1).rest is Ended,
        framing::fed(kind, policy, body, s1).consumed > 0,
    ensures
        framing::fed(kind, policy, body, s1 + s2) == framing::fed(kind, policy, body, s1),
{
    if body is Ended {
        lemma_header_extends(kind, policy, s1, s2);
        let rest = s1.skip(framing::blank_run(s1));
        let end: int = framing::header_end(rest)->0;
        lemma_ended_body_extends(header_body(kind, rest.take(end)), rest.skip(end), s2);
    } else {
        lemma_ended_body_extends(body, s1, s2);
    }
}

proof fn lemma_ended_body_extends(body: Body, s1: Seq<u8>, s2: Seq<u8>)
    requires
        framing::advance(body, s1).error is None,
        framing::advance(body, s1).body is Ended,
    ensures
        framing::advance(body, s1 + s2) == framing::advance(body, s1),
        (s1 + s2).take(framing::advance(body, s1).taken) == s1.take(
            framing::advance(body, s1).taken,
        ),
{
    law_body_in_pieces(body, s1, s2);
    lemma_taken(body, s1);
    let a = framing::advance(body, s1);
    assert((s1 + s2).take(a.taken) =~= s1.take(a.taken));
}

/// A feed that consumes nothing leaves the framer as it was, so the owner may read more and feed
/// again.
pub proof fn law_nothing_consumed_changes_nothing(
    kind: Kind,
    policy: RewritePolicy,
    body: Body,
    input: Seq<u8>,
)
    requires
        framing::fed(kind, policy, body, input).error is None,
        framing::fed(kind, policy, body, input).consumed == 0,
        body != Body::Length(0),
    ensures
        framing::fed(kind, policy, body, input).rest == body,
        framing::fed(kind, policy, body, input).header.len() == 0,
        framing::fed(kind, policy, body, input).body.len() == 0,
        framing::fed(kind, policy, body, input).application_url is None,
{
    lemma_taken(body, input);
    if body is Ended {
        let blank: int = framing::blank_run(input);
        lemma_blank_run_bound(input);
        let rest = input.skip(blank);
        ascii::lemma_find(rest, framing::header_terminator());
        if let Some(end) = framing::header_end(rest) {
            let block = rest.take(end);
            if let Ok(scan) = framing::scan_block(block, kind) {
                lemma_taken(
                    framing::body_after(
                        kind,
                        framing::status_of(block, kind),
                        scan.length,
                        scan.chunked,
                    ),
                    rest.skip(end),
                );
            }
        }
    } else {
        ascii::lemma_find(input, framing::crlf());
        if let Some(i) = ascii::find(input, framing::crlf()) {
            lemma_taken(Body::Trailers, input.skip(i + 2));
            if let Some(size) = framing::chunk_size(input.take(i)) {
                lemma_taken(Body::Chunk(size + 2), input.skip(i + 2));
            }
        }
        if let Body::Chunk(n) = body {
            if 0 < n <= input.len() {
                lemma_taken(Body::ChunkSize, input.skip(n as int));
            }
        }
    }
}

/// A feed that streams a body has no header and reports nothing.
pub proof fn law_streamed_body_has_no_header(
    kind: Kind,
    policy: RewritePolicy,
    body: Body,
    input: Seq<u8>,
)
    requires
        body !is Ended,
    ensures
        framing::fed(kind, policy, body, input).header.len() == 0,
        framing::fed(kind, policy, body, input).application_url is None,
{
}

/// A feed accounts for every byte: what it consumed is the empty lines and the header block of a
/// message that starts, followed by exactly the body it forwards.
pub proof fn law_body_is_the_input_behind_the_header(
    kind: Kind,
    policy: RewritePolicy,
    body: Body,
    input: Seq<u8>,
)
    requires
        framing::fed(kind, policy, body, input).error is None,
    ensures
        ({
            let f = framing::fed(kind, policy, body, input);
            &&& 0 <= f.body.len() <= f.consumed <= input.len()
            &&& f.body == input.subrange(f.consumed - f.body.len(), f.consumed)
        }),
{
    let f = framing::fed(kind, policy, body, input);
    if body is Ended {
        let blank: int = framing::blank_run(input);
        lemma_blank_run_bound(input);
        let rest = input.skip(blank);
        ascii::lemma_find(rest, framing::header_terminator());
        if let Some(end) = framing::header_end(rest) {
            let block = rest.take(end);
            if let Ok(scan) = framing::scan_block(block, kind) {
                lemma_taken(
                    framing::body_after(
                        kind,
                        framing::status_of(block, kind),
                        scan.length,
                        scan.chunked,
                    ),
                    rest.skip(end),
                );
            }
        }
    } else {
        lemma_taken(body, input);
    }
    assert(f.body =~= input.subrange(f.consumed - f.body.len(), f.consumed));
}

/// A request never reports an endpoint: a client cannot name the one that the proxy dials.
pub proof fn law_requests_report_no_endpoint(policy: RewritePolicy, body: Body, input: Seq<u8>)
    ensures
        framing::fed(Kind::Request, policy, body, input).application_url is None,
{
    let rest = input.skip(framing::blank_run(input));
    if let Some(end) = framing::header_end(rest) {
        lemma_request_scan(framing::lines(rest.take(end)));
    }
}

proof fn lemma_request_scan(ls: Seq<Seq<u8>>)
    ensures
        framing::scan_lines(ls, Kind::Request) matches Ok(scan) ==> scan.application_url is None,
    decreases ls.len(),
{
    if ls.len() > 1 {
        lemma_request_scan(ls.drop_last());
    }
}

/// The policy that rewrites nothing.
pub open spec fn no_targets() -> RewritePolicy {
    RewritePolicy { host: None, application_url: None, location: None }
}

/// Every line with its CRLF behind it.
spec fn joined(ls: Seq<Seq<u8>>) -> Seq<u8>
    decreases ls.len(),
{
    if ls.len() == 0 {
        Seq::empty()
    } else {
        joined(ls.drop_last()) + ls.last() + framing::crlf()
    }
}

proof fn lemma_joined_first(x: Seq<u8>, ls: Seq<Seq<u8>>)
    ensures
        joined(seq![x] + ls) == x + framing::crlf() + joined(ls),
    decreases ls.len(),
{
    let all = seq![x] + ls;
    if ls.len() == 0 {
        reveal_with_fuel(joined, 2);
        assert(all.drop_last() =~= Seq::<Seq<u8>>::empty());
        assert(joined(all) =~= x + framing::crlf() + joined(ls));
    } else {
        lemma_joined_first(x, ls.drop_last());
        assert(all.drop_last() =~= seq![x] + ls.drop_last());
        assert(joined(all) =~= x + framing::crlf() + joined(ls));
    }
}

/// Bytes that end with a line's end are their lines put together again.
proof fn lemma_lines_join(s: Seq<u8>)
    requires
        s.len() == 0 || (s.len() >= 2 && s.skip(s.len() - 2) == framing::crlf()),
    ensures
        joined(framing::lines(s)) == s,
    decreases s.len(),
{
    let crlf = framing::crlf();
    if s.len() > 0 {
        ascii::lemma_find(s, crlf);
        assert(s.subrange(s.len() - 2, s.len() - 2 + crlf.len()) =~= s.skip(s.len() - 2));
        let i: int = ascii::find(s, crlf)->0;
        let t = s.skip(i + 2);
        if t.len() == 1 {
            assert(s[i + 1] == 0x0a);
            assert(s.skip(s.len() - 2)[0] == s[i + 1]);
        }
        if t.len() >= 2 {
            assert(t.skip(t.len() - 2) =~= s.skip(s.len() - 2));
        }
        lemma_lines_join(t);
        lemma_joined_first(s.take(i), framing::lines(t));
        assert(s.take(i) + crlf + t =~= s) by {
            assert(s.subrange(i, i + 2) =~= crlf);
            assert forall|k: int| 0 <= k < s.len() implies (s.take(i) + crlf + t)[k] == s[k] by {
                if i <= k < i + 2 {
                    assert(s.subrange(i, i + 2)[k - i] == s[k]);
                }
            }
        }
    }
}

proof fn lemma_no_targets_joins(ls: Seq<Seq<u8>>, kind: Kind)
    ensures
        framing::rewritten_block(ls, kind, no_targets()) == joined(ls),
    decreases ls.len(),
{
    if ls.len() == 1 {
        reveal_with_fuel(joined, 2);
        assert(ls.drop_last() =~= Seq::<Seq<u8>>::empty());
        assert(joined(ls) =~= ls[0] + framing::crlf());
    } else if ls.len() > 1 {
        lemma_no_targets_joins(ls.drop_last(), kind);
    }
}

/// A framer with nothing to rewrite forwards every header block byte for byte.
pub proof fn law_no_targets_forward_verbatim(kind: Kind, s: Seq<u8>)
    requires
        framing::header_end(s) is Some,
    ensures
        ({
            let block = s.take(framing::header_end(s)->0);
            framing::rewritten_block(framing::lines(block), kind, no_targets()) == block
        }),
{
    let end: int = framing::header_end(s)->0;
    let block = s.take(end);
    ascii::lemma_find(s, framing::header_terminator());
    assert(s.subrange(end - 4, end) == framing::header_terminator());
    assert(s.subrange(end - 4, end)[2] == s[end - 2] && s.subrange(end - 4, end)[3] == s[end - 1]);
    assert(block.skip(block.len() - 2) =~= framing::crlf());
    lemma_lines_join(block);
    lemma_no_targets_joins(framing::lines(block), kind);
}

/// The header that `header` is, naming `endpoint` instead.
pub open spec fn naming(header: AuthorityHeader, endpoint: SocketAddrV4) -> AuthorityHeader {
    match header {
        AuthorityHeader::Host(_) => AuthorityHeader::Host(endpoint),
        AuthorityHeader::ApplicationUrl(_) => AuthorityHeader::ApplicationUrl(endpoint),
        AuthorityHeader::Location(_) => AuthorityHeader::Location(endpoint),
    }
}

/// A rewritten line is the same header, naming the target in place of the endpoint it named, with
/// everything before and behind the authority as it was.
pub proof fn law_rewritten_line_names_the_target(line: Seq<u8>, kind: Kind, policy: RewritePolicy)
    requires
        framing::authority_field(line, kind) is Some,
        policy.target((framing::authority_field(line, kind)->0).0) is Some,
        policy.target((framing::authority_field(line, kind)->0).0)->0.port != 0,
    ensures
        ({
            let (header, from, to) = framing::authority_field(line, kind)->0;
            let target = policy.target(header)->0;
            let new = framing::rewritten(line, kind, policy);
            let end: int = from + target.text().len();
            &&& framing::authority_field(new, kind) == Some((naming(header, target), from, end))
            &&& new.take(from) == line.take(from)
            &&& new.skip(end) == line.skip(to)
        }),
{
    reveal_strlit("Host:");
    reveal_strlit("Application-URL:");
    reveal_strlit("Location:");
    let (header, from, to) = framing::authority_field(line, kind)->0;
    let target = policy.target(header)->0;
    match header {
        AuthorityHeader::Host(_) => {
            lemma_rewritten_value(line, ascii::bytes("Host:"@), true, target);
        },
        AuthorityHeader::ApplicationUrl(_) => {
            lemma_rewritten_value(line, ascii::bytes("Application-URL:"@), false, target);
        },
        AuthorityHeader::Location(_) => {
            let new = framing::rewritten(line, kind, policy);
            lemma_rewritten_value(line, ascii::bytes("Location:"@), false, target);
            lemma_first_letters(new);
        },
    }
}

/// No line starts with both `Location:` and `Application-URL:`.
proof fn lemma_first_letters(line: Seq<u8>)
    ensures
        ascii::after_prefix(line, ascii::bytes("Location:"@)) is Some ==> ascii::after_prefix(
            line,
            ascii::bytes("Application-URL:"@),
        ) is None,
{
    reveal_strlit("Application-URL:");
    reveal_strlit("Location:");
    let l = ascii::bytes("Location:"@);
    let a = ascii::bytes("Application-URL:"@);
    if ascii::after_prefix(line, l) is Some && ascii::after_prefix(line, a) is Some {
        assert(ascii::folded(line.take(l.len() as int))[0] == ascii::folded(l)[0]);
        assert(ascii::folded(line.take(a.len() as int))[0] == ascii::folded(a)[0]);
    }
}

#[verifier::spinoff_prover]
#[verifier::rlimit(60)]
proof fn lemma_rewritten_value(line: Seq<u8>, prefix: Seq<u8>, bare: bool, target: SocketAddrV4)
    requires
        target.port != 0,
        ascii::after_prefix(line, prefix) is Some,
        framing::value_authority(line, ascii::after_prefix(line, prefix)->0, bare) is Some,
    ensures
        ({
            let value = ascii::after_prefix(line, prefix)->0;
            let (_, from, to) = framing::value_authority(line, value, bare)->0;
            let text = ascii::bytes(target.text());
            let new = line.take(from) + text + line.skip(to);
            &&& ascii::after_prefix(new, prefix) is Some
            &&& framing::value_authority(new, ascii::after_prefix(new, prefix)->0, bare) == Some(
                (target, from, from + text.len()),
            )
            &&& new.take(from) == line.take(from)
            &&& new.skip(from + text.len()) == line.skip(to)
        }),
{
    reveal_strlit("http://");
    let p: int = prefix.len() as int;
    let value = ascii::after_prefix(line, prefix)->0;
    let (_, from, to) = framing::value_authority(line, value, bare)->0;
    let text = ascii::bytes(target.text());
    let new = line.take(from) + text + line.skip(to);
    let trimmed = ascii::trimmed_start(value);
    let at: int = line.len() - trimmed.len();
    let offset: int = from - at;
    ascii::lemma_trimmed_start(value);
    let rest = trimmed.skip(offset);
    ascii::lemma_run_until(rest, http::ends_authority());
    let len: int = to - from;
    assert(len == ascii::run_until(rest, http::ends_authority()));
    http::lemma_endpoint_text_bytes(target);
    http::law_endpoint_text_reads_back(target);
    // The prefix is untouched.
    assert(new.take(p) =~= line.take(p));
    let new_value = new.skip(p);
    // So is the white space behind it, and what follows that is no white space.
    let new_trimmed = new.skip(at);
    assert(new_value.skip(at - p) =~= new_trimmed);
    assert forall|i: int| 0 <= i < at - p implies ascii::is_space(#[trigger] new_value[i]) by {
        assert(new_value[i] == value[i]);
    }
    if offset > 0 {
        assert(new_trimmed[0] == trimmed[0]);
    } else {
        assert(new_trimmed[0] == text[0]);
    }
    lemma_trimmed_start_is(new_value, at - p);
    // The scheme in front of the authority is untouched.
    assert(new_trimmed.take(offset) =~= trimmed.take(offset));
    assert(http::authority_start(new_trimmed, bare) == Some(offset));
    // The authority is the target's text.
    let new_rest = new_trimmed.skip(offset);
    assert(new_rest =~= text + line.skip(to));
    assert forall|i: int| 0 <= i < text.len() implies !http::ends_authority()(
        #[trigger] new_rest[i],
    ) by {
        assert(new_rest[i] == text[i]);
    }
    if to < line.len() {
        assert(new_rest[text.len() as int] == line[to]);
        assert(rest[len] == line[to]);
    }
    ascii::lemma_run_until_is(new_rest, http::ends_authority(), text.len() as int);
    assert(new_rest.take(text.len() as int) =~= text);
    assert(new.take(from) =~= line.take(from));
    assert(new.skip(from + text.len()) =~= line.skip(to));
}

/// Where the white space in front ends, trimming ends.
proof fn lemma_trimmed_start_is(s: Seq<u8>, n: int)
    requires
        0 <= n <= s.len(),
        forall|i: int| 0 <= i < n ==> ascii::is_space(#[trigger] s[i]),
        n < s.len() ==> !ascii::is_space(s[n]),
    ensures
        ascii::trimmed_start(s) == s.skip(n),
    decreases n,
{
    if n > 0 {
        let t = s.skip(1);
        assert forall|i: int| 0 <= i < n - 1 implies ascii::is_space(#[trigger] t[i]) by {
            assert(t[i] == s[i + 1]);
        }
        if n < s.len() {
            assert(t[n - 1] == s[n]);
        }
        assert(ascii::is_space(s[0]));
        lemma_trimmed_start_is(t, n - 1);
        assert(t.skip(n - 1) =~= s.skip(n));
    } else {
        assert(s.skip(0) =~= s);
    }
}

} // verus!
