//! How long a device says it is there, over the directives that it writes.

use vstd::prelude::*;

use crate::ascii;
use crate::net::http::framing::messages;
use crate::net::http::laws as http_laws;
use crate::net::ip::SocketAddrV4;
use crate::net::ssdp::dial;
use crate::net::wsd::laws as markup;
use crate::number;

verus! {

/// `left`, an equals sign and `right`, where `left` is a name with blanks around it.
pub open spec fn is_setting(left: Seq<u8>, i: int, name: Seq<u8>, right: Seq<u8>) -> bool {
    &&& messages::wraps(left, i, name)
    &&& markup::free_of(left, 61)
    &&& markup::free_of(left, 44)
    &&& markup::free_of(right, 44)
}

/// A name and its value with an equals sign between them.
pub open spec fn setting(left: Seq<u8>, right: Seq<u8>) -> Seq<u8> {
    left + seq![61u8] + right
}

proof fn lemma_directive(d: Seq<u8>, more: Seq<u8>)
    requires
        markup::free_of(d, 44),
    ensures
        ascii::before(d, 44) == d,
        ascii::first_of(d, 44) is None,
        ascii::before(d + seq![44u8] + more, 44) == d,
        ascii::first_of(d + seq![44u8] + more, 44) == Some(d.len() as int),
        (d + seq![44u8] + more).skip(d.len() as int + 1) == more,
{
    let s = d + seq![44u8] + more;
    ascii::lemma_run_until_is(d, ascii::only(44), d.len() as int);
    assert(ascii::before(d, 44) =~= d);
    assert forall|k: int| 0 <= k < d.len() implies #[trigger] s[k] != 44 by {
        assert(s[k] == d[k]);
    }
    ascii::lemma_run_until_is(s, ascii::only(44), d.len() as int);
    assert(ascii::before(s, 44) =~= d);
    assert(s.skip(d.len() as int + 1) =~= more);
}

proof fn lemma_setting(left: Seq<u8>, i: int, name: Seq<u8>, right: Seq<u8>)
    requires
        is_setting(left, i, name, right),
    ensures
        ({
            let d = setting(left, right);
            &&& markup::free_of(d, 44)
            &&& ascii::first_of(d, 61) == Some(left.len() as int)
            &&& ascii::trimmed(d.take(left.len() as int)) == name
            &&& d.skip(left.len() as int + 1) == right
        }),
{
    let d = setting(left, right);
    assert forall|k: int| 0 <= k < d.len() implies #[trigger] d[k] != 44 by {
        if k < left.len() {
            assert(d[k] == left[k]);
        } else if k > left.len() {
            assert(d[k] == right[k - left.len() - 1]);
        }
    }
    assert forall|k: int| 0 <= k < left.len() implies #[trigger] d[k] != 61 by {
        assert(d[k] == left[k]);
    }
    ascii::lemma_run_until_is(d, ascii::only(61), left.len() as int);
    assert(d.take(left.len() as int) =~= left);
    messages::lemma_wrapped(left, i, name);
    assert(d.skip(left.len() as int + 1) =~= right);
}

/// The first `max-age` counts, whatever the case of its name, the blanks around its name and around its
/// number, and whatever directives follow. A number that does not fit 32 bits is none.
pub proof fn law_the_first_max_age_counts(
    left: Seq<u8>,
    i: int,
    name: Seq<u8>,
    right: Seq<u8>,
    k: int,
    digits: Seq<u8>,
    more: Seq<u8>,
)
    requires
        is_setting(left, i, name, right),
        messages::same_letters(name, ascii::bytes("max-age"@)),
        messages::wraps(right, k, digits),
        messages::is_numeral(digits, 10),
    ensures
        messages::numeral(digits, 10) <= 0xffff_ffff ==> {
            &&& dial::max_age(setting(left, right)) == Some(messages::numeral(digits, 10) as nat)
            &&& dial::max_age(setting(left, right) + seq![44u8] + more) == Some(
                messages::numeral(digits, 10) as nat,
            )
        },
        messages::numeral(digits, 10) > 0xffff_ffff ==> {
            &&& dial::max_age(setting(left, right)) is None
            &&& dial::max_age(setting(left, right) + seq![44u8] + more) is None
        },
{
    let d = setting(left, right);
    lemma_setting(left, i, name, right);
    lemma_directive(d, more);
    messages::lemma_same_letters(name, ascii::bytes("max-age"@));
    messages::lemma_wrapped(right, k, digits);
    messages::lemma_numeral(digits, 10);
    assert(messages::digit(digits[0]) < 10);
    assert(number::unsigned(digits, 10) == number::number(digits, 10));
}

/// A directive that is no `max-age`, with a value or without, is passed over.
pub proof fn law_another_directive_is_passed_over(
    left: Seq<u8>,
    i: int,
    name: Seq<u8>,
    right: Seq<u8>,
    flag: Seq<u8>,
    more: Seq<u8>,
)
    requires
        is_setting(left, i, name, right),
        !messages::same_letters(name, ascii::bytes("max-age"@)),
        markup::free_of(flag, 61),
        markup::free_of(flag, 44),
    ensures
        dial::max_age(setting(left, right)) is None,
        dial::max_age(setting(left, right) + seq![44u8] + more) == dial::max_age(more),
        dial::max_age(flag) is None,
        dial::max_age(flag + seq![44u8] + more) == dial::max_age(more),
{
    let d = setting(left, right);
    lemma_setting(left, i, name, right);
    lemma_directive(d, more);
    lemma_directive(flag, more);
    messages::lemma_same_letters(name, ascii::bytes("max-age"@));
    ascii::lemma_run_until_is(flag, ascii::only(61), flag.len() as int);
}

/// A `max-age` whose value is no number says nothing, and hides what follows.
pub proof fn law_a_max_age_of_no_number_is_none(
    left: Seq<u8>,
    i: int,
    name: Seq<u8>,
    right: Seq<u8>,
    k: int,
    core: Seq<u8>,
    more: Seq<u8>,
)
    requires
        is_setting(left, i, name, right),
        messages::same_letters(name, ascii::bytes("max-age"@)),
        messages::wraps(right, k, core),
        core[0] != 43,
        !messages::is_numeral(core, 10),
    ensures
        dial::max_age(setting(left, right) + seq![44u8] + more) is None,
{
    let d = setting(left, right);
    lemma_setting(left, i, name, right);
    lemma_directive(d, more);
    messages::lemma_same_letters(name, ascii::bytes("max-age"@));
    messages::lemma_wrapped(right, k, core);
    messages::lemma_numeral(core, 10);
}

/// A payload names the DIAL service where the service type stands in it, in any case of its letters, with
/// anything in front and behind.
pub proof fn law_a_named_service_is_found(before: Seq<u8>, word: Seq<u8>, needle: Seq<u8>, after: Seq<u8>)
    requires
        messages::same_letters(word, needle),
    ensures
        dial::contains_folded(before + word + after, needle),
{
    let all = before + word + after;
    let i: int = before.len() as int;
    messages::lemma_same_letters(word, needle);
    assert(all.subrange(i, i + needle.len()) =~= word);
}

/// The `LOCATION` that counts is the first, and what is spliced over is the endpoint in it: the span is
/// that of its text in the whole payload.
pub proof fn law_the_endpoint_of_the_first_location(
    head: Seq<u8>,
    pad: Seq<u8>,
    scheme: Seq<u8>,
    text: Seq<u8>,
    tail: Seq<u8>,
    end: Seq<u8>,
    e: SocketAddrV4,
    rest: Seq<u8>,
)
    requires
        http_laws::is_field(
            head,
            ascii::bytes("LOCATION"@),
            pad,
            scheme + text + tail,
            end,
        ),
        messages::same_letters(scheme, ascii::bytes("http://"@)),
        messages::names(text, e),
        messages::may_follow(tail),
    ensures
        ({
            let line = http_laws::field_line(head, pad, scheme + text + tail, end);
            let payload = line + seq![10u8] + rest;
            let at: int = head.len() as int + 1 + pad.len() + scheme.len();
            &&& dial::location_authority(payload) == Some((e, at, text.len() as int))
            &&& payload.subrange(at, at + text.len()) == text
            &&& dial::location(payload) == Some(scheme + text + tail)
        }),
{
    let url = scheme + text + tail;
    let line = http_laws::field_line(head, pad, url, end);
    let payload = line + seq![10u8] + rest;
    let at: int = head.len() as int + 1 + pad.len() + scheme.len();
    http_laws::law_the_first_field_of_a_name_counts(
        head,
        ascii::bytes("LOCATION"@),
        pad,
        url,
        end,
        rest,
    );
    messages::lemma_authority(Seq::empty(), scheme, text, tail, e, false);
    assert(payload.subrange(at, at + text.len()) =~= text);
}

/// A line that is no `LOCATION` only moves the span.
pub proof fn law_a_line_in_front_moves_the_span(line: Seq<u8>, rest: Seq<u8>)
    requires
        markup::free_of(line, 10),
        !(line.len() > 8 && messages::same_letters(line.take(8), ascii::bytes("LOCATION"@))
            && line[8] == 58),
    ensures
        dial::location(line + seq![10u8] + rest) == dial::location(rest),
        dial::location_authority(rest) is None ==> dial::location_authority(
            line + seq![10u8] + rest,
        ) is None,
        dial::location_authority(rest) matches Some((e, at, len)) ==> dial::location_authority(
            line + seq![10u8] + rest,
        ) == Some((e, line.len() + 1 + at, len)),
{
    reveal_strlit("LOCATION");
    assert(ascii::bytes("LOCATION"@).len() == 8);
    http_laws::law_another_line_is_passed_over(line, ascii::bytes("LOCATION"@), rest);
}

} // verus!
