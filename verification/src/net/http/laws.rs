//! What a field and a URL say, over the bytes that a sender writes.

use vstd::prelude::*;

use crate::ascii;
use crate::net::http;
use crate::net::http::framing::messages;
use crate::net::ip;
use crate::net::ip::{IpAddr, Ipv4Addr, Ipv6Addr};
use crate::net::wsd::laws as markup;

verus! {

/// A line of a field: its name in any case, a colon, blanks, a value that does not start with one, and
/// a return or none.
pub open spec fn is_field(
    head: Seq<u8>,
    name: Seq<u8>,
    pad: Seq<u8>,
    value: Seq<u8>,
    end: Seq<u8>,
) -> bool {
    &&& messages::same_letters(head, name)
    &&& messages::blanks(pad)
    &&& value.len() > 0 && !messages::blank(value[0]) && value.last() != 13
    &&& end.len() == 0 || end == seq![13u8]
    &&& markup::free_of(head, 10) && markup::free_of(pad, 10) && markup::free_of(value, 10)
}

/// The line of a field.
pub open spec fn field_line(head: Seq<u8>, pad: Seq<u8>, value: Seq<u8>, end: Seq<u8>) -> Seq<u8> {
    head + seq![58u8] + pad + value + end
}

proof fn lemma_line(line: Seq<u8>, rest: Seq<u8>)
    requires
        markup::free_of(line, 10),
    ensures
        ascii::before(line, 10) == line,
        ascii::first_of(line, 10) is None,
        ascii::before(line + seq![10u8] + rest, 10) == line,
        ascii::first_of(line + seq![10u8] + rest, 10) == Some(line.len() as int),
        (line + seq![10u8] + rest).skip(line.len() as int + 1) == rest,
{
    let s = line + seq![10u8] + rest;
    ascii::lemma_run_until_is(line, ascii::only(10), line.len() as int);
    assert(ascii::before(line, 10) =~= line);
    assert forall|k: int| 0 <= k < line.len() implies #[trigger] s[k] != 10 by {
        assert(s[k] == line[k]);
    }
    ascii::lemma_run_until_is(s, ascii::only(10), line.len() as int);
    assert(ascii::before(s, 10) =~= line);
    assert(s.skip(line.len() as int + 1) =~= rest);
}

proof fn lemma_field(head: Seq<u8>, name: Seq<u8>, pad: Seq<u8>, value: Seq<u8>, end: Seq<u8>)
    requires
        is_field(head, name, pad, value, end),
    ensures
        ({
            let line = field_line(head, pad, value, end);
            &&& markup::free_of(line, 10)
            &&& http::field_value(line, name) == Some(value)
            &&& http::without_cr(line).len() == head.len() + 1 + pad.len() + value.len()
        }),
{
    let line = field_line(head, pad, value, end);
    let core = head + seq![58u8] + pad + value;
    assert(core.last() == value.last());
    if end.len() == 0 {
        assert(line =~= core);
    } else {
        assert(line.last() == 13);
        assert(line.drop_last() =~= core);
    }
    assert(http::without_cr(line) == core);
    messages::lemma_same_letters(head, name);
    assert(core.take(name.len() as int) =~= head);
    let rest = core.skip(name.len() as int);
    assert(rest[0] == 58);
    assert(rest.skip(1) =~= pad + value);
    messages::lemma_pad(pad, value);
    assert forall|k: int| 0 <= k < line.len() implies #[trigger] line[k] != 10 by {
        let n: int = head.len() as int;
        let m: int = n + 1 + pad.len();
        let l: int = m + value.len();
        if k < n {
            assert(line[k] == head[k]);
        } else if n < k && k < m {
            assert(line[k] == pad[k - n - 1]);
        } else if m <= k && k < l {
            assert(line[k] == value[k - m]);
        }
    }
}

/// The first field of a name gives the value, without the blanks in front and the return behind, and
/// where it starts; what follows its line does not matter.
pub proof fn law_the_first_field_of_a_name_counts(
    head: Seq<u8>,
    name: Seq<u8>,
    pad: Seq<u8>,
    value: Seq<u8>,
    end: Seq<u8>,
    rest: Seq<u8>,
)
    requires
        is_field(head, name, pad, value, end),
    ensures
        ({
            let line = field_line(head, pad, value, end);
            let at: int = head.len() as int + 1 + pad.len();
            &&& http::first_value(line + seq![10u8] + rest, name) == Some(value)
            &&& http::first_value_at(line + seq![10u8] + rest, name) == Some(at)
            &&& http::first_value(line, name) == Some(value)
            &&& http::first_value_at(line, name) == Some(at)
        }),
{
    let line = field_line(head, pad, value, end);
    lemma_field(head, name, pad, value, end);
    lemma_line(line, rest);
}

/// A line that is no field of a name is passed over.
pub proof fn law_another_line_is_passed_over(line: Seq<u8>, name: Seq<u8>, rest: Seq<u8>)
    requires
        markup::free_of(line, 10),
        !(line.len() > name.len() && messages::same_letters(line.take(name.len() as int), name)
            && line[name.len() as int] == 58),
    ensures
        http::first_value(line + seq![10u8] + rest, name) == http::first_value(rest, name),
        http::first_value(line, name) is None,
        http::first_value_at(line, name) is None,
        http::first_value_at(rest, name) is None ==> http::first_value_at(
            line + seq![10u8] + rest,
            name,
        ) is None,
        http::first_value_at(rest, name) matches Some(at) ==> http::first_value_at(
            line + seq![10u8] + rest,
            name,
        ) == Some(line.len() + 1 + at),
{
    lemma_line(line, rest);
    let core = http::without_cr(line);
    let n: int = name.len() as int;
    if core.len() >= n {
        messages::lemma_same_letters(core.take(n), name);
        assert(core.take(n) =~= line.take(n));
        if core.len() > n {
            assert(core.skip(n)[0] == line[n]);
        }
    }
}

/// What ends a host: a port, or what may follow an endpoint.
pub open spec fn may_follow_host(tail: Seq<u8>) -> bool {
    messages::may_follow(tail) || tail[0] == 58
}

/// Either scheme, in any case.
pub open spec fn is_scheme(scheme: Seq<u8>) -> bool {
    messages::same_letters(scheme, ascii::bytes("http://"@)) || messages::same_letters(
        scheme,
        ascii::bytes("https://"@),
    )
}

proof fn lemma_scheme(scheme: Seq<u8>, rest: Seq<u8>)
    requires
        is_scheme(scheme),
    ensures
        http::after_scheme(scheme + rest) == Some(rest),
{
    reveal_strlit("http://");
    reveal_strlit("https://");
    let url = scheme + rest;
    let plain = ascii::bytes("http://"@);
    let secure = ascii::bytes("https://"@);
    assert(plain.len() == 7 && secure.len() == 8);
    assert(url.take(scheme.len() as int) =~= scheme);
    assert(url.skip(scheme.len() as int) =~= rest);
    messages::lemma_same_letters(scheme, plain);
    messages::lemma_same_letters(scheme, secure);
    if messages::same_letters(scheme, secure) {
        let front = url.take(7);
        messages::lemma_same_letters(front, plain);
        assert(front[4] == scheme[4]);
        assert(messages::same_letter(scheme[4], secure[4]));
        assert(secure[4] == 115 && plain[4] == 58);
        if messages::same_letters(front, plain) {
            assert(messages::same_letter(front[4], plain[4]));
        }
    }
}

/// The host of a URL of either scheme is the IPv4 address in front of its port or path, or the IPv6
/// address in brackets, up to a zone.
pub proof fn law_the_host_of_a_url(
    scheme: Seq<u8>,
    v4: Ipv4Addr,
    tail: Seq<u8>,
    text: Seq<u8>,
    v6: Ipv6Addr,
    zone: Seq<u8>,
    more: Seq<u8>,
)
    requires
        is_scheme(scheme),
        may_follow_host(tail),
        ip::ipv6(text) == Some(v6.groups()),
        markup::free_of(text, 93) && markup::free_of(text, 37),
        zone.len() == 0 || zone[0] == 37,
        markup::free_of(zone, 93),
    ensures
        http::host_ip(scheme + (ascii::bytes(v4.text()) + tail)) == Some(IpAddr::V4(v4)),
        http::host_ip(scheme + (seq![91u8] + text + zone + seq![93u8] + more)) == Some(
            IpAddr::V6(v6),
        ),
{
    let dotted = ascii::bytes(v4.text());
    let rest = dotted + tail;
    lemma_scheme(scheme, rest);
    ip::lemma_text_bytes(v4);
    ip::law_ipv4_text_reads_back(v4);
    assert(rest[0] == dotted[0]);
    assert forall|i: int| 0 <= i < dotted.len() implies !http::ends_host()(#[trigger] rest[i]) by {
        assert(rest[i] == dotted[i]);
    }
    if tail.len() > 0 {
        assert(rest[dotted.len() as int] == tail[0]);
    }
    ascii::lemma_run_until_is(rest, http::ends_host(), dotted.len() as int);
    assert(rest.take(dotted.len() as int) =~= dotted);
    let quoted = seq![91u8] + text + zone + seq![93u8] + more;
    lemma_scheme(scheme, quoted);
    let inner = quoted.skip(1);
    let host = text + zone;
    let n: int = host.len() as int;
    assert forall|i: int| 0 <= i < n implies #[trigger] inner[i] != 93 by {
        if i < text.len() {
            assert(inner[i] == text[i]);
        } else {
            assert(inner[i] == zone[i - text.len()]);
        }
    }
    assert(inner[n] == 93);
    ascii::lemma_run_until_is(inner, ascii::only(93), n);
    assert(inner.take(n) =~= host);
    assert forall|i: int| 0 <= i < text.len() implies #[trigger] host[i] != 37 by {
        assert(host[i] == text[i]);
    }
    if zone.len() > 0 {
        assert(host[text.len() as int] == zone[0]);
    }
    ascii::lemma_run_until_is(host, ascii::only(37), text.len() as int);
    assert(ascii::before(host, 37) =~= text);
    let g = v6.groups();
    assert(v6.s0 == g[0] && v6.s1 == g[1] && v6.s2 == g[2] && v6.s3 == g[3]);
    assert(v6.s4 == g[4] && v6.s5 == g[5] && v6.s6 == g[6] && v6.s7 == g[7]);
}

/// A URL of another scheme has no host for us.
pub proof fn law_another_scheme_has_no_host(url: Seq<u8>)
    requires
        url.len() > 0,
        !messages::same_letter(url[0], 104),
    ensures
        http::host_ip(url) is None,
        http::authority(url, false) is None,
{
    reveal_strlit("http://");
    reveal_strlit("https://");
    let plain = ascii::bytes("http://"@);
    let secure = ascii::bytes("https://"@);
    assert(plain[0] == 104 && secure[0] == 104);
    messages::lemma_same_letters(url.take(7), plain);
    messages::lemma_same_letters(url.take(8), secure);
    if messages::same_letters(url.take(7), plain) && url.len() >= 7 {
        assert(messages::same_letter(url.take(7)[0], plain[0]));
    }
    if messages::same_letters(url.take(8), secure) && url.len() >= 8 {
        assert(messages::same_letter(url.take(8)[0], secure[0]));
    }
}

} // verus!
