//! HTTP/1.1 message helpers shared by the header rewrites of the DIAL proxy and the SSDP `LOCATION`
//! rewrite (SSDP is HTTP over UDP). The streaming framer is in [`framing`].

pub mod framing;
pub mod laws;

use vstd::prelude::*;

use crate::ascii;
use crate::net::ip;
use crate::net::ip::{IpAddr, SocketAddrV4};
use crate::number;

verus! {

/// A parsed authority and the span of its `host[:port]` text within the source value, for a caller
/// to splice a replacement over.
#[derive(Clone, Copy, PartialEq, Eq, Structural, Debug)]
pub struct Authority {
    pub endpoint: SocketAddrV4,
    pub offset: usize,
    pub len: usize,
}

/// The bytes that end an authority.
pub open spec fn ends_authority() -> spec_fn(u8) -> bool {
    |b: u8|
        b == '/' as u8 || b == '?' as u8 || b == '#' as u8 || b == ' ' as u8 || b == '\t' as u8
            || b == '\r' as u8
}

/// The port that `s` writes; zero is no port.
pub open spec fn port(s: Seq<u8>) -> Option<u16> {
    match number::at_most(number::unsigned(s, 10), 0xffff) {
        Some(v) if v != 0 => Some(v as u16),
        _ => None,
    }
}

/// The endpoint that `host[:port]` names, at port 80 where it names none. The host is an IPv4
/// address.
pub open spec fn host_port(s: Seq<u8>) -> Option<SocketAddrV4> {
    match ascii::last_of(s, ':' as u8) {
        Some(colon) => match (ip::ipv4(s.take(colon)), port(s.skip(colon + 1))) {
            (Some(ip), Some(port)) => Some(SocketAddrV4 { ip, port }),
            _ => None,
        },
        None => match ip::ipv4(s) {
            Some(ip) => Some(SocketAddrV4 { ip, port: 80 }),
            None => None,
        },
    }
}

/// Where the authority of `value` starts: at its front when `bare`, behind `http://` otherwise.
pub open spec fn authority_start(value: Seq<u8>, bare: bool) -> Option<int> {
    if bare {
        Some(0)
    } else if ascii::after_prefix(value, ascii::bytes("http://"@)) is Some {
        Some(7)
    } else {
        None
    }
}

/// The endpoint that the authority of `value` names, and the span of its text.
pub open spec fn authority(value: Seq<u8>, bare: bool) -> Option<(SocketAddrV4, int, int)> {
    match authority_start(value, bare) {
        Some(offset) => {
            let rest = value.skip(offset);
            let len: int = ascii::run_until(rest, ends_authority()) as int;
            match host_port(rest.take(len)) {
                Some(endpoint) => Some((endpoint, offset, len)),
                None => None,
            }
        },
        None => None,
    }
}

/// Whether `b` ends an authority.
fn is_authority_end(b: u8) -> (r: bool)
    ensures
        r == ends_authority()(b),
{
    b == '/' as u8 || b == '?' as u8 || b == '#' as u8 || b == ' ' as u8 || b == '\t' as u8 || b
        == '\r' as u8
}

/// The text of an endpoint with a port is read back as that endpoint.
pub proof fn law_endpoint_text_reads_back(t: SocketAddrV4)
    requires
        t.port != 0,
    ensures
        host_port(ascii::bytes(t.text())) == Some(t),
{
    let s = ascii::bytes(t.text());
    let n: int = t.ip.text().len() as int;
    let p = number::decimal(t.port as nat);
    ip::lemma_decimal_digits(t.port as nat);
    number::lemma_written_reads_back(t.port as nat, 10);
    ip::law_ipv4_text_reads_back(t.ip);
    assert(s.take(n) =~= ascii::bytes(t.ip.text()));
    assert(s.skip(n + 1) =~= ascii::bytes(p));
    assert(s[n] == ':' as u8);
    ascii::lemma_last_of(s, ':' as u8);
    assert forall|j: int| n < j < s.len() implies #[trigger] s[j] != ':' as u8 by {
        assert(s[j] == ascii::bytes(p)[j - n - 1]);
    }
    assert(ascii::last_of(s, ':' as u8) == Some(n));
    assert(ascii::bytes(p)[0] != '+' as u8);
}

/// The text of an endpoint holds nothing that ends an authority or that trimming takes, and starts
/// with a digit.
pub proof fn lemma_endpoint_text_bytes(t: SocketAddrV4)
    ensures
        t.text().len() > 0,
        !ascii::is_space(ascii::bytes(t.text())[0]),
        forall|i: int|
            0 <= i < t.text().len() ==> !ends_authority()(#[trigger] ascii::bytes(t.text())[i]),
{
    let s = ascii::bytes(t.text());
    let n: int = t.ip.text().len() as int;
    let p = number::decimal(t.port as nat);
    ip::lemma_text_bytes(t.ip);
    ip::lemma_decimal_digits(t.port as nat);
    assert forall|i: int| 0 <= i < t.text().len() implies !ends_authority()(#[trigger] s[i]) by {
        if i < n {
            assert(s[i] == ascii::bytes(t.ip.text())[i]);
        } else if i > n {
            assert(s[i] == ascii::bytes(p)[i - n - 1]);
        }
    }
    assert(s[0] == ascii::bytes(t.ip.text())[0]);
}

/// How many bytes of `s` stand before the end of its authority.
fn authority_len(s: &[u8]) -> (r: usize)
    ensures
        r == ascii::run_until(s@, ends_authority()),
        r <= s@.len(),
{
    let mut i: usize = 0;
    while i < s.len() && !is_authority_end(s[i])
        invariant
            i <= s@.len(),
            forall|j: int| 0 <= j < i ==> !ends_authority()(#[trigger] s@[j]),
        decreases s@.len() - i,
    {
        i += 1;
    }
    proof {
        ascii::lemma_run_until_is(s@, ends_authority(), i as int);
    }
    i
}

/// The port that `s` writes.
fn parse_port(s: &[u8]) -> (r: Option<u16>)
    ensures
        r == port(s@),
{
    match number::parse_unsigned(s, 10, 0xffff) {
        Some(v) if v != 0 => Some(v as u16),
        _ => None,
    }
}

/// See [`host_port`].
fn parse_host_port(s: &[u8]) -> (r: Option<SocketAddrV4>)
    ensures
        r == host_port(s@),
{
    match ascii::rfind_byte(s, ':' as u8) {
        Some(colon) => match (
            ip::parse_ipv4(ascii::take(s, colon)),
            parse_port(ascii::skip(s, colon + 1)),
        ) {
            (Some(ip), Some(port)) => Some(SocketAddrV4 { ip, port }),
            _ => None,
        },
        None => match ip::parse_ipv4(s) {
            Some(ip) => Some(SocketAddrV4 { ip, port: 80 }),
            None => None,
        },
    }
}

/// `bare` (a `Host` header) takes the whole value as the authority; otherwise `value` must be an
/// `http://` URL. Hostnames and IPv6 are rejected: DIAL is IPv4-only.
pub fn parse_authority(value: &[u8], bare: bool) -> (r: Option<Authority>)
    ensures
        match r {
            Some(a) => authority(value@, bare) == Some((a.endpoint, a.offset as int, a.len as int))
                && a.offset + a.len <= value@.len() <= usize::MAX,
            None => authority(value@, bare) is None,
        },
{
    proof {
        reveal_strlit("http://");
    }
    let offset: usize = if bare {
        0
    } else {
        match strip_prefix_ignore_ascii_case(value, ascii::ascii_bytes("http://")) {
            Some(_) => 7,
            None => return None,
        }
    };
    let rest = ascii::skip(value, offset);
    let len: usize = authority_len(rest);
    assert(value.len() == value@.len());
    match parse_host_port(ascii::take(rest, len)) {
        Some(endpoint) => Some(Authority { endpoint, offset, len }),
        None => None,
    }
}

/// The bytes that end the host of a URL.
pub open spec fn ends_host() -> spec_fn(u8) -> bool {
    |b: u8| b == ':' as u8 || ends_authority()(b)
}

/// What stands behind the scheme of an `http://` or `https://` URL.
pub open spec fn after_scheme(url: Seq<u8>) -> Option<Seq<u8>> {
    match ascii::after_prefix(url, ascii::bytes("http://"@)) {
        Some(rest) => Some(rest),
        None => ascii::after_prefix(url, ascii::bytes("https://"@)),
    }
}

/// The address that the host of a URL writes: an IPv6 address in brackets, up to a zone that a `%`
/// starts, or an IPv4 address.
pub open spec fn host_ip(url: Seq<u8>) -> Option<IpAddr> {
    match after_scheme(url) {
        None => None,
        Some(rest) => if rest.len() > 0 && rest[0] == '[' as u8 {
            match ascii::first_of(rest.skip(1), ']' as u8) {
                None => None,
                Some(close) => {
                    let host = ascii::before(rest.skip(1).take(close), '%' as u8);
                    match ip::ipv6(host) {
                        Some(g) => Some(
                            IpAddr::V6(
                                ip::Ipv6Addr {
                                    s0: g[0],
                                    s1: g[1],
                                    s2: g[2],
                                    s3: g[3],
                                    s4: g[4],
                                    s5: g[5],
                                    s6: g[6],
                                    s7: g[7],
                                },
                            ),
                        ),
                        None => None,
                    }
                },
            }
        } else {
            match ip::ipv4(rest.take(ascii::run_until(rest, ends_host()) as int)) {
                Some(v4) => Some(IpAddr::V4(v4)),
                None => None,
            }
        },
    }
}

/// How many bytes of `s` stand before the end of its host.
fn host_len(s: &[u8]) -> (r: usize)
    ensures
        r == ascii::run_until(s@, ends_host()),
        r <= s@.len(),
{
    let mut i: usize = 0;
    while i < s.len() && s[i] != ':' as u8 && !is_authority_end(s[i])
        invariant
            i <= s@.len(),
            forall|j: int| 0 <= j < i ==> !ends_host()(#[trigger] s@[j]),
        decreases s@.len() - i,
    {
        i += 1;
    }
    proof {
        ascii::lemma_run_until_is(s@, ends_host(), i as int);
    }
    i
}

/// The IP-literal host of an `http://` / `https://` URL; `None` for a hostname. A bracketed IPv6
/// host may carry a zone suffix (`%` or URL-encoded `%25`, as WSDAPI advertises), cut before the
/// parse.
pub fn url_host_ip(url: &[u8]) -> (r: Option<IpAddr>)
    ensures
        r == host_ip(url@),
{
    proof {
        reveal_strlit("http://");
        reveal_strlit("https://");
    }
    let rest: &[u8] = match strip_prefix_ignore_ascii_case(url, ascii::ascii_bytes("http://")) {
        Some(rest) => rest,
        None => match strip_prefix_ignore_ascii_case(url, ascii::ascii_bytes("https://")) {
            Some(rest) => rest,
            None => return None,
        },
    };
    if rest.len() > 0 && rest[0] == '[' as u8 {
        let inner = ascii::skip(rest, 1);
        let host = match ascii::find_byte(inner, ']' as u8) {
            Some(close) => ascii::take(inner, close),
            None => return None,
        };
        let host = cut(host, '%' as u8);
        return match ip::parse_ipv6(host) {
            Some(v6) => {
                let ghost g = v6.groups();
                assert(v6.s0 == g[0] && v6.s1 == g[1] && v6.s2 == g[2] && v6.s3 == g[3]);
                assert(v6.s4 == g[4] && v6.s5 == g[5] && v6.s6 == g[6] && v6.s7 == g[7]);
                Some(IpAddr::V6(v6))
            },
            None => None,
        };
    }
    match ip::parse_ipv4(ascii::take(rest, host_len(rest))) {
        Some(v4) => Some(IpAddr::V4(v4)),
        None => None,
    }
}

/// The bytes before the first `sep`; all of them where there is none.
pub fn cut(s: &[u8], sep: u8) -> (r: &[u8])
    ensures
        r@ == ascii::before(s@, sep),
{
    proof {
        ascii::lemma_run_until(s@, ascii::only(sep));
    }
    match ascii::find_byte(s, sep) {
        Some(i) => ascii::take(s, i),
        None => {
            assert(s@.take(s@.len() as int) =~= s@);
            s
        },
    }
}

/// A line without the carriage return that may end it.
pub open spec fn without_cr(line: Seq<u8>) -> Seq<u8> {
    if line.len() > 0 && line.last() == '\r' as u8 {
        line.drop_last()
    } else {
        line
    }
}

/// The value that a header line gives `name`.
pub open spec fn field_value(line: Seq<u8>, name: Seq<u8>) -> Option<Seq<u8>> {
    match ascii::after_prefix(without_cr(line), name) {
        Some(rest) if rest.len() > 0 && rest[0] == ':' as u8 => Some(
            ascii::trimmed_start(rest.skip(1)),
        ),
        _ => None,
    }
}

/// The value of the first line of `message` that gives `name` one.
pub open spec fn first_value(message: Seq<u8>, name: Seq<u8>) -> Option<Seq<u8>>
    decreases message.len(),
{
    match (field_value(ascii::before(message, '\n' as u8), name), ascii::first_of(message, '\n' as u8)) {
        (Some(value), _) => Some(value),
        (None, Some(i)) => if 0 <= i < message.len() {
            first_value(message.skip(i + 1), name)
        } else {
            None
        },
        (None, None) => None,
    }
}

/// Where the value of the first line of `message` that gives `name` one starts.
pub open spec fn first_value_at(message: Seq<u8>, name: Seq<u8>) -> Option<int>
    decreases message.len(),
{
    let line = ascii::before(message, '\n' as u8);
    match (field_value(line, name), ascii::first_of(message, '\n' as u8)) {
        (Some(value), _) => Some(without_cr(line).len() - value.len()),
        (None, Some(i)) => if 0 <= i < message.len() {
            match first_value_at(message.skip(i + 1), name) {
                Some(at) => Some(i + 1 + at),
                None => None,
            }
        } else {
            None
        },
        (None, None) => None,
    }
}

/// The span, in `line`, of the value that it gives `name`.
fn line_value(line: &[u8], name: &[u8]) -> (r: Option<(usize, usize)>)
    ensures
        match r {
            Some((from, to)) => {
                &&& from <= to <= line@.len() <= usize::MAX
                &&& field_value(line@, name@) == Some(line@.subrange(from as int, to as int))
                &&& to == without_cr(line@).len()
            },
            None => field_value(line@, name@) is None,
        },
{
    let n: usize = line.len();
    let end: usize = if n > 0 && line[n - 1] == '\r' as u8 {
        n - 1
    } else {
        n
    };
    let body = ascii::take(line, end);
    assert(body@ =~= without_cr(line@));
    match strip_prefix_ignore_ascii_case(body, name) {
        Some(rest) => if rest.len() > 0 && rest[0] == ':' as u8 {
            let value = ascii::trim_start(ascii::skip(rest, 1));
            proof {
                ascii::lemma_trimmed_start(rest@.skip(1));
            }
            let from: usize = end - value.len();
            assert(value@ =~= line@.subrange(from as int, end as int));
            Some((from, end))
        } else {
            None
        },
        None => None,
    }
}

/// The span, in `message`, of the value of the first header named `name`, case-insensitively.
pub fn find_header(message: &[u8], name: &[u8]) -> (r: Option<(usize, usize)>)
    ensures
        match r {
            Some((from, to)) => {
                &&& from <= to <= message@.len() <= usize::MAX
                &&& first_value_at(message@, name@) == Some(from as int)
                &&& first_value(message@, name@) == Some(
                    message@.subrange(from as int, to as int),
                )
            },
            None => first_value(message@, name@) is None && first_value_at(message@, name@) is None,
        },
{
    let mut at: usize = 0;
    assert(message@.skip(0) =~= message@);
    loop
        invariant
            at <= message@.len(),
            first_value(message@, name@) == first_value(message@.skip(at as int), name@),
            match first_value_at(message@.skip(at as int), name@) {
                Some(k) => first_value_at(message@, name@) == Some(at + k),
                None => first_value_at(message@, name@) is None,
            },
        decreases message@.len() - at,
    {
        let rest = ascii::skip(message, at);
        let line = cut(rest, '\n' as u8);
        proof {
            ascii::lemma_run_until(rest@, ascii::only('\n' as u8));
        }
        if let Some((from, to)) = line_value(line, name) {
            assert(message.len() == message@.len());
            assert(line@.subrange(from as int, to as int) =~= message@.subrange(at + from, at + to));
            return Some((at + from, at + to));
        }
        match ascii::find_byte(rest, '\n' as u8) {
            Some(i) => {
                assert(message.len() == message@.len());
                assert(rest@.skip(i + 1) =~= message@.skip(at + i + 1));
                at = at + i + 1;
            },
            None => {
                return None;
            },
        }
    }
}

/// The value of the first header named `name`, case-insensitively.
pub fn header_value<'a>(message: &'a [u8], name: &[u8]) -> (r: Option<&'a [u8]>)
    ensures
        match r {
            Some(v) => first_value(message@, name@) == Some(v@),
            None => first_value(message@, name@) is None,
        },
{
    match find_header(message, name) {
        Some((from, to)) => Some(&message[from..to]),
        None => None,
    }
}

/// What is left of `line` behind `prefix`, if it starts with it in any case.
pub fn strip_prefix_ignore_ascii_case<'a>(line: &'a [u8], prefix: &[u8]) -> (r: Option<&'a [u8]>)
    ensures
        match r {
            Some(rest) => ascii::after_prefix(line@, prefix@) == Some(rest@),
            None => ascii::after_prefix(line@, prefix@) is None,
        },
{
    if line.len() < prefix.len() {
        return None;
    }
    if ascii::eq_ignore_case(ascii::take(line, prefix.len()), prefix) {
        Some(ascii::skip(line, prefix.len()))
    } else {
        None
    }
}

} // verus!
