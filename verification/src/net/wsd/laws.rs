//! What a WSD message is, over the markup that a sender writes.

use vstd::prelude::*;

use crate::ascii;
use crate::net::http::framing::messages;
use crate::net::wsd;
use crate::net::wsd::WsdKind;

verus! {

/// No byte of `s` is `b`.
pub open spec fn free_of(s: Seq<u8>, b: u8) -> bool {
    forall|i: int| 0 <= i < s.len() ==> #[trigger] s[i] != b
}

/// What stands between `<` and `>`: a namespace prefix with its colon, or none, an element's name, and
/// behind it nothing, or a blank or a slash and more.
pub open spec fn is_tag(prefix: Seq<u8>, name: Seq<u8>, more: Seq<u8>) -> bool {
    &&& prefix.len() > 0 ==> prefix.last() == 58 && prefix[0] != 33 && prefix[0] != 63
    &&& forall|i: int|
        0 <= i < prefix.len() ==> !messages::blank(#[trigger] prefix[i]) && prefix[i] != 47
    &&& name.len() > 0 && name[0] != 33 && name[0] != 63
    &&& forall|i: int|
        0 <= i < name.len() ==> !messages::blank(#[trigger] name[i]) && name[i] != 47 && name[i]
            != 58
    &&& more.len() > 0 ==> messages::blank(more[0]) || more[0] == 47
    &&& free_of(prefix, 62) && free_of(name, 62) && free_of(more, 62)
}

/// The text with an element's tag behind it, and more behind that.
pub open spec fn tagged(text: Seq<u8>, tag: Seq<u8>, rest: Seq<u8>) -> Seq<u8> {
    text + seq![60u8] + tag + seq![62u8] + rest
}

proof fn lemma_first(s: Seq<u8>, b: u8, n: int)
    requires
        0 <= n < s.len(),
        s[n] == b,
        forall|i: int| 0 <= i < n ==> #[trigger] s[i] != b,
    ensures
        ascii::first_of(s, b) == Some(n),
{
    ascii::lemma_run_until_is(s, ascii::only(b), n);
}

proof fn lemma_tag_split(text: Seq<u8>, tag: Seq<u8>, rest: Seq<u8>)
    requires
        free_of(text, 60),
        free_of(tag, 62),
    ensures
        ({
            let s = tagged(text, tag, rest);
            let inner = tag + seq![62u8] + rest;
            &&& ascii::first_of(s, 60) == Some(text.len() as int)
            &&& s.skip(text.len() as int + 1) == inner
            &&& ascii::first_of(inner, 62) == Some(tag.len() as int)
            &&& inner.take(tag.len() as int) == tag
            &&& inner.skip(tag.len() as int + 1) == rest
        }),
{
    let s = tagged(text, tag, rest);
    let inner = tag + seq![62u8] + rest;
    assert forall|i: int| 0 <= i < text.len() implies #[trigger] s[i] != 60 by {
        assert(s[i] == text[i]);
    }
    lemma_first(s, 60, text.len() as int);
    assert(s.skip(text.len() as int + 1) =~= inner);
    assert forall|i: int| 0 <= i < tag.len() implies #[trigger] inner[i] != 62 by {
        assert(inner[i] == tag[i]);
    }
    lemma_first(inner, 62, tag.len() as int);
    assert(inner.take(tag.len() as int) =~= tag);
    assert(inner.skip(tag.len() as int + 1) =~= rest);
}

proof fn lemma_local_name(prefix: Seq<u8>, name: Seq<u8>, more: Seq<u8>)
    requires
        is_tag(prefix, name, more),
    ensures
        wsd::local_name(prefix + name + more) == name,
        wsd::opens_element(prefix + name + more),
        free_of(prefix + name + more, 62),
{
    let tag = prefix + name + more;
    let full = prefix + name;
    let n: int = full.len() as int;
    assert forall|i: int| 0 <= i < n implies !wsd::ends_name()(#[trigger] tag[i]) by {
        if i < prefix.len() {
            assert(tag[i] == prefix[i]);
        } else {
            assert(tag[i] == name[i - prefix.len()]);
        }
    }
    if n < tag.len() {
        assert(tag[n] == more[0]);
    }
    ascii::lemma_run_until_is(tag, wsd::ends_name(), n);
    assert(tag.take(n) =~= full);
    lemma_after_last(prefix, name, 58);
    if prefix.len() > 0 {
        assert(tag[0] == prefix[0]);
    } else {
        assert(tag[0] == name[0]);
        assert(name[0] != 47);
    }
    assert forall|i: int| 0 <= i < tag.len() implies #[trigger] tag[i] != 62 by {
        if i < prefix.len() {
            assert(tag[i] == prefix[i]);
        } else if i < n {
            assert(tag[i] == name[i - prefix.len()]);
        } else {
            assert(tag[i] == more[i - n]);
        }
    }
}

proof fn lemma_after_last(front: Seq<u8>, last: Seq<u8>, b: u8)
    requires
        front.len() > 0 ==> front.last() == b,
        free_of(last, b),
    ensures
        wsd::after_last(front + last, b) == last,
{
    let s = front + last;
    ascii::lemma_last_of(s, b);
    match ascii::last_of(s, b) {
        Some(i) => {
            if i >= front.len() {
                assert(s[i] == last[i - front.len()]);
            }
            if front.len() > 0 {
                assert(s[front.len() - 1] == b);
            }
            assert(s.skip(i + 1) =~= last);
        },
        None => {
            if front.len() > 0 {
                assert(s[front.len() - 1] == b);
            }
            assert(s =~= last);
        },
    }
}

/// A message is what the last segment of its first `Action` says, whatever the element's namespace
/// prefix, the case of its name and its attributes, whatever the URI in front of the segment and the
/// blanks around it, and whatever follows: an announcement for `Hello` and `Bye`, a search for `Probe`
/// and `Resolve`, and nothing we handle for another.
pub proof fn law_an_action_says_what_the_message_is(
    text: Seq<u8>,
    prefix: Seq<u8>,
    name: Seq<u8>,
    more: Seq<u8>,
    uri: Seq<u8>,
    i: int,
    base: Seq<u8>,
    segment: Seq<u8>,
    rest: Seq<u8>,
)
    requires
        free_of(text, 60),
        is_tag(prefix, name, more),
        messages::same_letters(name, ascii::bytes("Action"@)),
        free_of(uri, 60),
        messages::wraps(uri, i, base + segment),
        base.len() > 0 ==> base.last() == 47,
        segment.len() > 0,
        free_of(segment, 47),
    ensures
        ({
            let s = tagged(text, prefix + name + more, uri + seq![60u8] + rest);
            &&& wsd::action(s) == Some(segment)
            &&& wsd::kind(s) == Some(WsdKind::Announcement) <==> segment == ascii::bytes("Hello"@)
                || segment == ascii::bytes("Bye"@)
            &&& wsd::kind(s) == Some(WsdKind::Search) <==> segment == ascii::bytes("Probe"@)
                || segment == ascii::bytes("Resolve"@)
        }),
{
    reveal_strlit("Hello");
    reveal_strlit("Bye");
    reveal_strlit("Probe");
    reveal_strlit("Resolve");
    let tag = prefix + name + more;
    let behind = uri + seq![60u8] + rest;
    lemma_local_name(prefix, name, more);
    lemma_tag_split(text, tag, behind);
    messages::lemma_same_letters(name, ascii::bytes("Action"@));
    assert forall|k: int| 0 <= k < uri.len() implies #[trigger] behind[k] != 60 by {
        assert(behind[k] == uri[k]);
    }
    ascii::lemma_run_until_is(behind, ascii::only(60), uri.len() as int);
    assert(ascii::before(behind, 60) =~= uri);
    messages::lemma_wrapped(uri, i, base + segment);
    lemma_after_last(base, segment, 47);
    let hello = ascii::bytes("Hello"@);
    let bye = ascii::bytes("Bye"@);
    let probe = ascii::bytes("Probe"@);
    let resolve = ascii::bytes("Resolve"@);
    assert(hello[0] == 72 && bye[0] == 66 && probe[0] == 80 && resolve[0] == 82);
}

/// Another element in front, a closing tag, a declaration, a comment or a doctype says nothing: the
/// message is what the markup behind it says.
pub proof fn law_other_markup_is_passed_over(
    text: Seq<u8>,
    prefix: Seq<u8>,
    name: Seq<u8>,
    more: Seq<u8>,
    mark: Seq<u8>,
    rest: Seq<u8>,
)
    requires
        free_of(text, 60),
        is_tag(prefix, name, more),
        !messages::same_letters(name, ascii::bytes("Action"@)),
        mark.len() > 0 && (mark[0] == 47 || mark[0] == 63 || mark[0] == 33),
        free_of(mark, 62),
    ensures
        wsd::action(tagged(text, prefix + name + more, rest)) == wsd::action(rest),
        wsd::action(tagged(text, mark, rest)) == wsd::action(rest),
{
    lemma_local_name(prefix, name, more);
    lemma_tag_split(text, prefix + name + more, rest);
    messages::lemma_same_letters(name, ascii::bytes("Action"@));
    lemma_tag_split(text, mark, rest);
}

/// A message without an element is none of ours, and neither is one whose `Action` holds no segment.
pub proof fn law_no_action_is_no_message(
    text: Seq<u8>,
    prefix: Seq<u8>,
    name: Seq<u8>,
    more: Seq<u8>,
    uri: Seq<u8>,
    i: int,
    base: Seq<u8>,
    rest: Seq<u8>,
)
    requires
        free_of(text, 60),
        is_tag(prefix, name, more),
        messages::same_letters(name, ascii::bytes("Action"@)),
        free_of(uri, 60),
        messages::wraps(uri, i, base),
        base.last() == 47,
    ensures
        wsd::action(text) is None,
        wsd::kind(text) is None,
        wsd::kind(tagged(text, prefix + name + more, uri + seq![60u8] + rest)) is None,
{
    ascii::lemma_run_until(text, ascii::only(60));
    let behind = uri + seq![60u8] + rest;
    lemma_local_name(prefix, name, more);
    lemma_tag_split(text, prefix + name + more, behind);
    messages::lemma_same_letters(name, ascii::bytes("Action"@));
    assert forall|k: int| 0 <= k < uri.len() implies #[trigger] behind[k] != 60 by {
        assert(behind[k] == uri[k]);
    }
    ascii::lemma_run_until_is(behind, ascii::only(60), uri.len() as int);
    assert(ascii::before(behind, 60) =~= uri);
    messages::lemma_wrapped(uri, i, base);
    lemma_after_last(base, Seq::empty(), 47);
    assert(base + Seq::<u8>::empty() =~= base);
}

} // verus!
