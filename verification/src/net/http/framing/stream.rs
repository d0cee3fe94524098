//! What an owner forwards of a whole stream: it keeps the bytes that were not consumed and, after
//! every arrival, feeds until nothing is consumed.

use vstd::prelude::*;

use crate::ascii;
use crate::net::http::framing;
use crate::net::http::framing::laws;
use crate::net::http::framing::{Body, Feed, FramingError, Kind, RewritePolicy};
use crate::net::ip::SocketAddrV4;

verus! {

/// What a run of feeds comes to.
#[verifier::ext_equal]
pub struct Run {
    /// The bytes to forward: each feed's header, then its body.
    pub out: Seq<u8>,
    /// The endpoints that were reported.
    pub urls: Seq<SocketAddrV4>,
    /// What is left of the message's body.
    pub body: Body,
    /// The bytes that were not consumed.
    pub left: Seq<u8>,
    /// The error that stopped it.
    pub error: Option<FramingError>,
}

/// What one feed yields, [`framing::fed`]; the proofs on runs go by what holds of every feed.
#[verifier::opaque]
pub open spec fn one_feed(kind: Kind, policy: RewritePolicy, body: Body, s: Seq<u8>) -> Feed {
    framing::fed(kind, policy, body, s)
}

/// The endpoint that a feed reports, if any.
pub open spec fn reported(f: Feed) -> Seq<SocketAddrV4> {
    match f.application_url {
        Some(endpoint) => seq![endpoint],
        None => Seq::empty(),
    }
}

impl Run {
    /// This run behind what one feed forwards.
    pub open spec fn behind(self, f: Feed) -> Run {
        Run { out: f.header + f.body + self.out, urls: reported(f) + self.urls, ..self }
    }

    /// This run, and the next behind it.
    pub open spec fn then_run(self, next: Run) -> Run {
        Run { out: self.out + next.out, urls: self.urls + next.urls, ..next }
    }

    /// The same error; without one, the same throughout.
    pub open spec fn agrees(self, other: Run) -> bool {
        &&& self.error == other.error
        &&& self.error is None ==> self == other
    }
}

/// Feed `s` until nothing is consumed, with `body` left of the message before.
pub open spec fn run(kind: Kind, policy: RewritePolicy, body: Body, s: Seq<u8>) -> Run
    decreases s.len(),
{
    let f = one_feed(kind, policy, body, s);
    if f.error is None && 0 < f.consumed <= s.len() {
        run(kind, policy, f.rest, s.skip(f.consumed)).behind(f)
    } else {
        Run {
            out: f.header + f.body,
            urls: reported(f),
            body: f.rest,
            left: s,
            error: f.error,
        }
    }
}

/// Serve a stream that arrives in pieces, with `left` not consumed before.
pub open spec fn served(
    kind: Kind,
    policy: RewritePolicy,
    body: Body,
    left: Seq<u8>,
    arrivals: Seq<Seq<u8>>,
) -> Run
    decreases arrivals.len(),
{
    if arrivals.len() == 0 {
        Run { out: Seq::empty(), urls: Seq::empty(), body, left, error: None }
    } else {
        let first = run(kind, policy, body, left + arrivals[0]);
        if first.error is Some {
            first
        } else {
            first.then_run(served(kind, policy, first.body, first.left, arrivals.skip(1)))
        }
    }
}

/// The pieces one behind the other.
pub open spec fn whole(arrivals: Seq<Seq<u8>>) -> Seq<u8>
    decreases arrivals.len(),
{
    if arrivals.len() == 0 {
        Seq::empty()
    } else {
        arrivals[0] + whole(arrivals.skip(1))
    }
}

/// A body of a known length never has nothing left.
proof fn lemma_advance_leaves_some(body: Body, s: Seq<u8>)
    requires
        body != Body::Length(0),
    ensures
        framing::advance(body, s).body != Body::Length(0),
    decreases s.len(),
{
    if s.len() > 0 {
        match body {
            Body::Chunk(n) => {
                if 0 < n <= s.len() {
                    lemma_advance_leaves_some(Body::ChunkSize, s.skip(n as int));
                }
            },
            Body::ChunkSize => {
                if let Some(i) = ascii::find(s, framing::crlf()) {
                    if 0 <= i && i + 2 <= s.len() {
                        lemma_advance_leaves_some(Body::Trailers, s.skip(i + 2));
                        if let Some(size) = framing::chunk_size(s.take(i)) {
                            lemma_advance_leaves_some(Body::Chunk(size + 2), s.skip(i + 2));
                        }
                    }
                }
            },
            Body::Trailers => {
                if let Some(i) = ascii::find(s, framing::crlf()) {
                    if 0 <= i && i + 2 <= s.len() {
                        lemma_advance_leaves_some(Body::Trailers, s.skip(i + 2));
                    }
                }
            },
            _ => {},
        }
    }
}

/// What holds of one feed.
proof fn lemma_feed(kind: Kind, policy: RewritePolicy, body: Body, s: Seq<u8>)
    requires
        body != Body::Length(0),
    ensures
        ({
            let f = one_feed(kind, policy, body, s);
            &&& f.rest != Body::Length(0)
            &&& f.error is None ==> 0 <= f.consumed <= s.len()
            &&& body !is Ended ==> f.header.len() == 0 && f.application_url is None
            &&& f.error is None && f.consumed == 0 ==> f.rest == body && f.header.len() == 0
                && f.body.len() == 0 && f.application_url is None
        }),
{
    reveal(one_feed);
    let f = framing::fed(kind, policy, body, s);
    lemma_feed_leaves_some(kind, policy, body, s);
    if f.error is None {
        laws::law_body_is_the_input_behind_the_header(kind, policy, body, s);
        if f.consumed == 0 {
            laws::law_nothing_consumed_changes_nothing(kind, policy, body, s);
        }
    }
    if body !is Ended {
        laws::law_streamed_body_has_no_header(kind, policy, body, s);
    }
}

/// What holds of a feed of the first bytes, one of what it left and the bytes that follow, and one of
/// both.
proof fn lemma_feeds(kind: Kind, policy: RewritePolicy, body: Body, s1: Seq<u8>, s2: Seq<u8>)
    requires
        one_feed(kind, policy, body, s1).error is None,
        0 < one_feed(kind, policy, body, s1).consumed <= s1.len(),
    ensures
        ({
            let f = one_feed(kind, policy, body, s1);
            let second = one_feed(kind, policy, f.rest, s1.skip(f.consumed) + s2);
            let both = one_feed(kind, policy, body, s1 + s2);
            if f.rest is Ended {
                both == f
            } else {
                &&& both.error == second.error
                &&& both.rest == second.rest
                &&& both.error is None ==> {
                    &&& both.header == f.header
                    &&& both.body == f.body + second.body
                    &&& both.consumed == f.consumed + second.consumed
                    &&& both.application_url == f.application_url
                }
            }
        }),
{
    reveal(one_feed);
    if framing::fed(kind, policy, body, s1).rest is Ended {
        laws::law_complete_message_ignores_what_follows(kind, policy, body, s1, s2);
    } else {
        laws::law_feed_in_pieces(kind, policy, body, s1, s2);
    }
}

proof fn lemma_feed_leaves_some(kind: Kind, policy: RewritePolicy, body: Body, s: Seq<u8>)
    requires
        body != Body::Length(0),
    ensures
        framing::fed(kind, policy, body, s).rest != Body::Length(0),
{
    if body is Ended {
        let rest = s.skip(framing::blank_run(s));
        if let Some(end) = framing::header_end(rest) {
            let block = rest.take(end);
            if let Ok(scan) = framing::scan_block(block, kind) {
                lemma_advance_leaves_some(
                    framing::body_after(
                        kind,
                        framing::status_of(block, kind),
                        scan.length,
                        scan.chunked,
                    ),
                    rest.skip(end),
                );
            }
        }
    } else {
        lemma_advance_leaves_some(body, s);
    }
}

proof fn lemma_run_leaves_some(kind: Kind, policy: RewritePolicy, body: Body, s: Seq<u8>)
    requires
        body != Body::Length(0),
    ensures
        run(kind, policy, body, s).body != Body::Length(0),
    decreases s.len(),
{
    lemma_feed(kind, policy, body, s);
    let f = one_feed(kind, policy, body, s);
    if f.error is None && 0 < f.consumed <= s.len() {
        lemma_run_leaves_some(kind, policy, f.rest, s.skip(f.consumed));
    }
}

/// Two feeds forward what one feed of both does.
proof fn lemma_two_feeds(f: Feed, second: Feed, both: Feed, later: Run)
    requires
        second.header.len() == 0,
        second.application_url is None,
        both.header == f.header,
        both.body == f.body + second.body,
        both.application_url == f.application_url,
    ensures
        later.behind(both) == later.behind(second).behind(f),
{
    assert(both.header + both.body + later.out =~= f.header + f.body + (second.header + second.body
        + later.out));
    assert(reported(both) + later.urls =~= reported(f) + (reported(second) + later.urls));
}

/// A feed that consumes something may be made of the first bytes alone; a run then goes on with what
/// it left and the bytes that follow.
proof fn lemma_first_feed(kind: Kind, policy: RewritePolicy, body: Body, s1: Seq<u8>, s2: Seq<u8>)
    requires
        body != Body::Length(0),
        one_feed(kind, policy, body, s1).error is None,
        0 < one_feed(kind, policy, body, s1).consumed <= s1.len(),
    ensures
        ({
            let f = one_feed(kind, policy, body, s1);
            run(kind, policy, body, s1 + s2).agrees(
                run(kind, policy, f.rest, s1.skip(f.consumed) + s2).behind(f),
            )
        }),
{
    let f = one_feed(kind, policy, body, s1);
    let s = s1 + s2;
    let t = s1.skip(f.consumed) + s2;
    let both = one_feed(kind, policy, body, s);
    let second = one_feed(kind, policy, f.rest, t);
    assert(s.skip(f.consumed) =~= t);
    lemma_feed(kind, policy, body, s1);
    lemma_feed(kind, policy, body, s);
    lemma_feeds(kind, policy, body, s1, s2);
    if f.rest !is Ended && second.error is None {
        lemma_feed(kind, policy, f.rest, t);
        lemma_two_feeds(f, second, both, run(kind, policy, second.rest, s.skip(both.consumed)));
        assert(s.skip(both.consumed) =~= t.skip(second.consumed));
        if second.consumed == 0 {
            let next = run(kind, policy, f.rest, t);
            assert(t.skip(0) =~= t);
            assert(next.behind(second) =~= next);
        }
    }
}

/// Cutting a stream changes nothing, as long as the first piece is not refused: what the whole comes to
/// is what the first piece comes to, and then what the bytes it left and the second piece come to. The
/// error is the same; without one, so is everything.
pub proof fn law_stream_in_two_pieces(
    kind: Kind,
    policy: RewritePolicy,
    body: Body,
    s1: Seq<u8>,
    s2: Seq<u8>,
)
    requires
        body != Body::Length(0),
        run(kind, policy, body, s1).error is None,
    ensures
        ({
            let first = run(kind, policy, body, s1);
            run(kind, policy, body, s1 + s2).agrees(
                first.then_run(run(kind, policy, first.body, first.left + s2)),
            )
        }),
    decreases s1.len(),
{
    let f = one_feed(kind, policy, body, s1);
    let first = run(kind, policy, body, s1);
    let next = run(kind, policy, first.body, first.left + s2);
    lemma_feed(kind, policy, body, s1);
    if 0 < f.consumed <= s1.len() {
        let t = s1.skip(f.consumed);
        lemma_first_feed(kind, policy, body, s1, s2);
        law_stream_in_two_pieces(kind, policy, f.rest, t, s2);
        let inner = run(kind, policy, f.rest, t);
        assert(inner.then_run(next).behind(f) =~= first.then_run(next));
    } else {
        assert(first.out =~= Seq::empty());
        assert(first.then_run(next) =~= next);
    }
}

/// Serving a stream in pieces, from where nothing more can be consumed, comes to what one arrival of
/// everything comes to.
proof fn lemma_served_is_run(
    kind: Kind,
    policy: RewritePolicy,
    body: Body,
    left: Seq<u8>,
    arrivals: Seq<Seq<u8>>,
)
    requires
        body != Body::Length(0),
        run(kind, policy, body, left) == (Run {
            out: Seq::empty(),
            urls: Seq::empty(),
            body,
            left,
            error: None,
        }),
        served(kind, policy, body, left, arrivals).error is None,
    ensures
        run(kind, policy, body, left + whole(arrivals)) == served(
            kind,
            policy,
            body,
            left,
            arrivals,
        ),
    decreases arrivals.len(),
{
    if arrivals.len() == 0 {
        assert(left + whole(arrivals) =~= left);
    } else {
        let s = left + arrivals[0];
        let later = whole(arrivals.skip(1));
        let first = run(kind, policy, body, s);
        lemma_run_leaves_some(kind, policy, body, s);
        lemma_run_settles(kind, policy, body, s);
        lemma_served_is_run(kind, policy, first.body, first.left, arrivals.skip(1));
        law_stream_in_two_pieces(kind, policy, body, s, later);
        assert(left + whole(arrivals) =~= s + later);
    }
}

/// Feeding again what a run left consumes nothing.
proof fn lemma_run_settles(kind: Kind, policy: RewritePolicy, body: Body, s: Seq<u8>)
    requires
        body != Body::Length(0),
        run(kind, policy, body, s).error is None,
    ensures
        ({
            let r = run(kind, policy, body, s);
            run(kind, policy, r.body, r.left) == (Run {
                out: Seq::empty(),
                urls: Seq::empty(),
                body: r.body,
                left: r.left,
                error: None,
            })
        }),
    decreases s.len(),
{
    let f = one_feed(kind, policy, body, s);
    lemma_feed(kind, policy, body, s);
    if 0 < f.consumed <= s.len() {
        lemma_run_settles(kind, policy, f.rest, s.skip(f.consumed));
    } else {
        assert(f.header + f.body =~= Seq::empty());
    }
}

/// Segmentation does not matter to a whole stream: two owners that serve the same bytes from fresh
/// framers, cut at different places, forward the same bytes, report the same endpoints, and have the
/// same bytes left, where neither is refused. Either comes to what one arrival of everything comes to.
pub proof fn law_segmentation_does_not_matter(
    kind: Kind,
    policy: RewritePolicy,
    arrivals: Seq<Seq<u8>>,
    others: Seq<Seq<u8>>,
)
    requires
        whole(arrivals) == whole(others),
        served(kind, policy, Body::Ended, Seq::empty(), arrivals).error is None,
        served(kind, policy, Body::Ended, Seq::empty(), others).error is None,
    ensures
        served(kind, policy, Body::Ended, Seq::empty(), arrivals) == served(
            kind,
            policy,
            Body::Ended,
            Seq::empty(),
            others,
        ),
        served(kind, policy, Body::Ended, Seq::empty(), arrivals) == run(
            kind,
            policy,
            Body::Ended,
            whole(arrivals),
        ),
{
    let none = Seq::<u8>::empty();
    let r = run(kind, policy, Body::Ended, none);
    reveal(one_feed);
    ascii::lemma_find(none.skip(0), framing::header_terminator());
    assert(framing::blank_run(none) == 0);
    assert(none.skip(0) =~= none);
    assert(r.out =~= none);
    lemma_served_is_run(kind, policy, Body::Ended, none, arrivals);
    lemma_served_is_run(kind, policy, Body::Ended, none, others);
    assert(none + whole(arrivals) =~= whole(arrivals));
}

} // verus!
