//! WS-Discovery (WSD) wire helpers: the multicast group, port and TTL, and a classifier that sorts a
//! SOAP-over-UDP datagram into an announcement (`Hello` / `Bye`) or a search (`Probe` / `Resolve`)
//! by its WS-Addressing `Action` URI.

pub mod laws;

use vstd::prelude::*;

use crate::ascii;
use crate::net::http;
use crate::net::ip::{Ipv4Addr, Ipv6Addr};

verus! {

/// WSD runs SOAP-over-UDP on port 3702, re-emitted at TTL 1: a single hop onto the egress link.
pub const WSD_PORT: u16 = 3702;

pub const WSD_TTL: u8 = 1;

/// 239.255.255.250, shared with SSDP.
#[verifier::allow_in_spec]
pub fn wsd_group_v4() -> (r: Ipv4Addr)
    returns
        (Ipv4Addr { a: 239, b: 255, c: 255, d: 250 }),
{
    Ipv4Addr { a: 239, b: 255, c: 255, d: 250 }
}

/// ff02::c. Unlike SSDP, WSD uses only the link-local IPv6 scope.
#[verifier::allow_in_spec]
pub fn wsd_group_v6() -> (r: Ipv6Addr)
    returns
        (Ipv6Addr { s0: 0xff02, s1: 0, s2: 0, s3: 0, s4: 0, s5: 0, s6: 0, s7: 0x0c }),
{
    Ipv6Addr { s0: 0xff02, s1: 0, s2: 0, s3: 0, s4: 0, s5: 0, s6: 0, s7: 0x0c }
}

/// What a WSD datagram on the group is, by its `Action` message type. The unicast reply types
/// (`ProbeMatches` / `ResolveMatches`) never reach the group, so they classify as neither.
#[derive(Clone, Copy, PartialEq, Eq, Structural, Debug)]
pub enum WsdKind {
    /// A device presence announcement: `Hello` or `Bye`.
    Announcement,
    /// A client discovery request: `Probe` or `Resolve`.
    Search,
}

/// The bytes behind the last `sep`; all of them where there is none.
pub open spec fn after_last(s: Seq<u8>, sep: u8) -> Seq<u8> {
    match ascii::last_of(s, sep) {
        Some(i) => s.skip(i + 1),
        None => s,
    }
}

/// The bytes that end an element's name within its tag.
pub open spec fn ends_name() -> spec_fn(u8) -> bool {
    |b: u8| ascii::is_space(b) || b == '/' as u8
}

/// The name of the element that a tag opens, without its namespace prefix.
pub open spec fn local_name(tag: Seq<u8>) -> Seq<u8> {
    after_last(tag.take(ascii::run_until(tag, ends_name()) as int), ':' as u8)
}

/// Whether a tag opens an element: it is no closing tag, declaration, comment or doctype.
pub open spec fn opens_element(tag: Seq<u8>) -> bool {
    !(tag.len() > 0 && (tag[0] == '/' as u8 || tag[0] == '?' as u8 || tag[0] == '!' as u8))
}

/// The last segment of the URI in front of the next tag.
pub open spec fn uri_segment(s: Seq<u8>) -> Option<Seq<u8>> {
    let segment = after_last(ascii::trimmed(ascii::before(s, '<' as u8)), '/' as u8);
    if segment.len() == 0 {
        None
    } else {
        Some(segment)
    }
}

/// The last segment of the URI that the first `Action` element of `s` holds.
pub open spec fn action(s: Seq<u8>) -> Option<Seq<u8>>
    decreases s.len(),
{
    match ascii::first_of(s, '<' as u8) {
        None => None,
        Some(open) => {
            let inner = s.skip(open + 1);
            match ascii::first_of(inner, '>' as u8) {
                None => None,
                Some(close) => {
                    let tag = inner.take(close);
                    let rest = inner.skip(close + 1);
                    if opens_element(tag) && ascii::folded(local_name(tag)) == ascii::folded(
                        ascii::bytes("Action"@),
                    ) {
                        uri_segment(rest)
                    } else if 0 <= open < s.len() && 0 <= close < inner.len() {
                        action(rest)
                    } else {
                        None
                    }
                },
            }
        },
    }
}

/// What the message of a WSD datagram is.
pub open spec fn kind(payload: Seq<u8>) -> Option<WsdKind> {
    match action(payload) {
        Some(segment) => if segment == ascii::bytes("Hello"@) || segment == ascii::bytes("Bye"@) {
            Some(WsdKind::Announcement)
        } else if segment == ascii::bytes("Probe"@) || segment == ascii::bytes("Resolve"@) {
            Some(WsdKind::Search)
        } else {
            None
        },
        None => None,
    }
}

/// What is found in `s` is found at the same place with more behind it.
proof fn lemma_first_of_extends(s: Seq<u8>, t: Seq<u8>, b: u8)
    requires
        ascii::first_of(s, b) is Some,
    ensures
        ascii::first_of(s + t, b) == ascii::first_of(s, b),
{
    ascii::lemma_run_until(s, ascii::only(b));
    ascii::lemma_run_until_is(s + t, ascii::only(b), ascii::run_until(s, ascii::only(b)) as int);
}

/// The body is not read: once the tag behind the `Action` has begun, nothing that follows changes what
/// the message is.
pub proof fn law_the_body_is_not_read(s: Seq<u8>, t: Seq<u8>)
    requires
        s.len() > 0,
        s.last() == '<' as u8,
        action(s) is Some,
    ensures
        action(s + t) == action(s),
        kind(s + t) == kind(s),
    decreases s.len(),
{
    let lt = '<' as u8;
    let gt = '>' as u8;
    let open: int = ascii::first_of(s, lt)->0;
    ascii::lemma_run_until(s, ascii::only(lt));
    let inner = s.skip(open + 1);
    let close: int = ascii::first_of(inner, gt)->0;
    ascii::lemma_run_until(inner, ascii::only(gt));
    let rest = inner.skip(close + 1);
    assert(inner.last() == s.last());
    assert(rest.len() > 0 && rest.last() == lt);
    lemma_first_of_extends(s, t, lt);
    assert((s + t).skip(open + 1) =~= inner + t);
    lemma_first_of_extends(inner, t, gt);
    assert((inner + t).take(close) =~= inner.take(close));
    assert((inner + t).skip(close + 1) =~= rest + t);
    if opens_element(inner.take(close)) && ascii::folded(local_name(inner.take(close)))
        == ascii::folded(ascii::bytes("Action"@)) {
        ascii::lemma_run_until(rest, ascii::only(lt));
        lemma_first_of_extends(rest, t, lt);
        assert(ascii::before(rest + t, lt) =~= ascii::before(rest, lt));
    } else {
        law_the_body_is_not_read(rest, t);
    }
}

/// Classify a WSD SOAP-over-UDP datagram by the final path segment of its WS-Addressing `Action` URI
/// (namespace-agnostic: the 2005/04 and 2009/01 discovery namespaces differ only in the URI prefix).
/// `None` for a reply type (`ProbeMatches` / `ResolveMatches`, unicast and not expected on the
/// group), a missing `Action`, or non-WSD junk.
pub fn classify(payload: &[u8]) -> (r: Option<WsdKind>)
    ensures
        r == kind(payload@),
{
    proof {
        reveal_strlit("Hello");
        reveal_strlit("Bye");
        reveal_strlit("Probe");
        reveal_strlit("Resolve");
    }
    match action_segment(payload) {
        Some(segment) => if ascii::eq_bytes(segment, ascii::ascii_bytes("Hello"))
            || ascii::eq_bytes(segment, ascii::ascii_bytes("Bye")) {
            Some(WsdKind::Announcement)
        } else if ascii::eq_bytes(segment, ascii::ascii_bytes("Probe")) || ascii::eq_bytes(
            segment,
            ascii::ascii_bytes("Resolve"),
        ) {
            Some(WsdKind::Search)
        } else {
            None
        },
        None => None,
    }
}

/// See [`after_last`].
fn rcut(s: &[u8], sep: u8) -> (r: &[u8])
    ensures
        r@ == after_last(s@, sep),
{
    match ascii::rfind_byte(s, sep) {
        Some(i) => ascii::skip(s, i + 1),
        None => s,
    }
}

/// See [`local_name`].
fn tag_local_name(tag: &[u8]) -> (r: &[u8])
    ensures
        r@ == local_name(tag@),
{
    let mut i: usize = 0;
    while i < tag.len() && !ascii::is_space_byte(tag[i]) && tag[i] != '/' as u8
        invariant
            i <= tag@.len(),
            forall|j: int| 0 <= j < i ==> !ends_name()(#[trigger] tag@[j]),
        decreases tag@.len() - i,
    {
        i += 1;
    }
    proof {
        ascii::lemma_run_until_is(tag@, ends_name(), i as int);
    }
    rcut(ascii::take(tag, i), ':' as u8)
}

/// The final `/`-delimited segment of the first `Action` element's URI (the WS-Addressing message
/// type), or `None` when there is no such element. Walks the payload element by element so the match
/// is scoped to the `Action` tag: tolerant of the namespace prefix (`a:` / `wsa:` / none) and of tag
/// attributes, and never fooled by the token appearing in the body.
pub fn action_segment(payload: &[u8]) -> (r: Option<&[u8]>)
    ensures
        match r {
            Some(segment) => action(payload@) == Some(segment@),
            None => action(payload@) is None,
        },
{
    proof {
        reveal_strlit("Action");
    }
    let mut rest = payload;
    loop
        invariant
            action(payload@) == action(rest@),
            vstd::utf8::is_ascii_chars("Action"@),
        decreases rest@.len(),
    {
        let open: usize = match ascii::find_byte(rest, '<' as u8) {
            Some(open) => open,
            None => return None,
        };
        let inner = ascii::skip(rest, open + 1);
        let close: usize = match ascii::find_byte(inner, '>' as u8) {
            Some(close) => close,
            None => return None,
        };
        let tag = ascii::take(inner, close);
        rest = ascii::skip(inner, close + 1);
        // A closing tag, the XML declaration, or a comment or doctype is not an opening element.
        let opens = !(tag.len() > 0 && (tag[0] == '/' as u8 || tag[0] == '?' as u8 || tag[0] == '!'
            as u8));
        if opens && ascii::eq_ignore_case(tag_local_name(tag), ascii::ascii_bytes("Action")) {
            let uri = ascii::trim(http::cut(rest, '<' as u8));
            let segment = rcut(uri, '/' as u8);
            return if segment.len() == 0 {
                None
            } else {
                Some(segment)
            };
        }
    }
}

} // verus!
