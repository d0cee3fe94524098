//! DIAL (Discovery and Launch) detection and `LOCATION`-authority parsing for the SSDP-side proxy
//! hook.

pub mod laws;

use vstd::prelude::*;

use crate::ascii;
use crate::net::http;
use crate::net::http::{parse_authority, Authority};
use crate::net::ip::SocketAddrV4;
use crate::number;

verus! {

/// Whether `needle` occurs in `haystack` but for the case of letters.
pub open spec fn contains_folded(haystack: Seq<u8>, needle: Seq<u8>) -> bool {
    exists|i: int|
        0 <= i && i + needle.len() <= haystack.len() && ascii::folded(
            #[trigger] haystack.subrange(i, i + needle.len()),
        ) == ascii::folded(needle)
}

/// Whether `payload` names the DIAL service type. The version behind it is left out, so any version
/// matches.
pub fn is_dial_service_message(payload: &[u8]) -> (r: bool)
    ensures
        r == contains_folded(payload@, ascii::bytes("urn:dial-multiscreen-org:service:dial"@)),
{
    proof {
        reveal_strlit("urn:dial-multiscreen-org:service:dial");
    }
    contains_ignore_ascii_case(
        payload,
        ascii::ascii_bytes("urn:dial-multiscreen-org:service:dial"),
    )
}

/// The endpoint that the `LOCATION` of `payload` names, and the span of its text in `payload`.
pub open spec fn location_authority(payload: Seq<u8>) -> Option<(SocketAddrV4, int, int)> {
    match (
        http::first_value(payload, ascii::bytes("LOCATION"@)),
        http::first_value_at(payload, ascii::bytes("LOCATION"@)),
    ) {
        (Some(url), Some(at)) => match http::authority(url, false) {
            Some((endpoint, offset, len)) => Some((endpoint, at + offset, len)),
            None => None,
        },
        _ => None,
    }
}

/// The span is relative to the whole `payload`, for the SSDP path to splice over. `None` for a
/// non-rewritable `LOCATION` (forward unchanged).
pub fn parse_dial_location_authority(payload: &[u8]) -> (r: Option<Authority>)
    ensures
        match r {
            Some(a) => location_authority(payload@) == Some(
                (a.endpoint, a.offset as int, a.len as int),
            ) && a.offset + a.len <= payload@.len(),
            None => location_authority(payload@) is None,
        },
{
    proof {
        reveal_strlit("LOCATION");
    }
    match http::find_header(payload, ascii::ascii_bytes("LOCATION")) {
        Some((from, to)) => match parse_authority(&payload[from..to], false) {
            Some(found) => Some(
                Authority {
                    endpoint: found.endpoint,
                    offset: from + found.offset,
                    len: found.len,
                },
            ),
            None => None,
        },
        None => None,
    }
}

/// The `LOCATION` of `payload`, if it is not empty.
pub open spec fn location(payload: Seq<u8>) -> Option<Seq<u8>> {
    match http::first_value(payload, ascii::bytes("LOCATION"@)) {
        Some(url) if url.len() > 0 => Some(url),
        _ => None,
    }
}

/// The rewrite and the log that reports a rejection both read this, so the log cannot name a header
/// the rewrite never saw.
pub fn dial_location_value(payload: &[u8]) -> (r: Option<&[u8]>)
    ensures
        match r {
            Some(url) => location(payload@) == Some(url@),
            None => location(payload@) is None,
        },
{
    proof {
        reveal_strlit("LOCATION");
    }
    match http::header_value(payload, ascii::ascii_bytes("LOCATION")) {
        Some(url) => if url.len() == 0 {
            None
        } else {
            Some(url)
        },
        None => None,
    }
}

/// A message has a `LOCATION` authority only where it has a `LOCATION`: what is rewritten is what is
/// logged.
pub proof fn law_rewritten_location_is_the_logged_one(payload: Seq<u8>)
    requires
        location_authority(payload) is Some,
    ensures
        location(payload) is Some,
        http::authority(location(payload)->0, false) is Some,
        (http::authority(location(payload)->0, false)->0).0 == (location_authority(payload)->0).0,
{
    reveal_strlit("http://");
}

/// The number that the first `max-age` directive gives; nothing where it gives none.
pub open spec fn max_age(value: Seq<u8>) -> Option<nat>
    decreases value.len(),
{
    let directive = ascii::before(value, ',' as u8);
    match ascii::first_of(directive, '=' as u8) {
        Some(eq) if ascii::folded(ascii::trimmed(directive.take(eq))) == ascii::folded(
            ascii::bytes("max-age"@),
        ) => number::at_most(
            number::unsigned(ascii::trimmed(directive.skip(eq + 1)), 10),
            u32::MAX as nat,
        ),
        _ => match ascii::first_of(value, ',' as u8) {
            Some(i) => if 0 <= i < value.len() {
                max_age(value.skip(i + 1))
            } else {
                None
            },
            None => None,
        },
    }
}

/// The number of seconds that the `CACHE-CONTROL` of `payload` gives it to live.
pub fn parse_cache_control_max_age(payload: &[u8]) -> (r: Option<u32>)
    ensures
        match http::first_value(payload@, ascii::bytes("CACHE-CONTROL"@)) {
            Some(value) => match r {
                Some(v) => max_age(value) == Some(v as nat),
                None => max_age(value) is None,
            },
            None => r is None,
        },
{
    proof {
        reveal_strlit("CACHE-CONTROL");
    }
    match http::header_value(payload, ascii::ascii_bytes("CACHE-CONTROL")) {
        Some(value) => max_age_seconds(value),
        None => None,
    }
}

/// White space around the `=` is tolerated: HTTP's grammar has none, but UDA 1.2.2's example reads
/// `max-age = 1800` and devices copy it verbatim.
pub fn max_age_seconds(value: &[u8]) -> (r: Option<u32>)
    ensures
        match r {
            Some(v) => max_age(value@) == Some(v as nat),
            None => max_age(value@) is None,
        },
{
    proof {
        reveal_strlit("max-age");
    }
    let mut rest = value;
    loop
        invariant
            max_age(value@) == max_age(rest@),
            vstd::utf8::is_ascii_chars("max-age"@),
        decreases rest@.len(),
    {
        let directive = http::cut(rest, ',' as u8);
        if let Some(eq) = ascii::find_byte(directive, '=' as u8) {
            let name = ascii::trim(ascii::take(directive, eq));
            if ascii::eq_ignore_case(name, ascii::ascii_bytes("max-age")) {
                let digits = ascii::trim(ascii::skip(directive, eq + 1));
                return match number::parse_unsigned(digits, 10, u32::MAX as u64) {
                    Some(v) => Some(v as u32),
                    None => None,
                };
            }
        }
        match ascii::find_byte(rest, ',' as u8) {
            Some(i) => {
                rest = ascii::skip(rest, i + 1);
            },
            None => {
                return None;
            },
        }
    }
}

/// See [`contains_folded`].
pub fn contains_ignore_ascii_case(haystack: &[u8], needle: &[u8]) -> (r: bool)
    ensures
        r == contains_folded(haystack@, needle@),
{
    let n: usize = needle.len();
    if n > haystack.len() {
        return false;
    }
    let mut i: usize = 0;
    while i <= haystack.len() - n
        invariant
            n == needle@.len(),
            n <= haystack@.len(),
            i <= haystack@.len() - n + 1,
            forall|j: int|
                0 <= j < i ==> ascii::folded(#[trigger] haystack@.subrange(j, j + n))
                    != ascii::folded(needle@),
        decreases haystack@.len() - n + 1 - i,
    {
        let window = &haystack[i..i + n];
        if ascii::eq_ignore_case(window, needle) {
            assert(ascii::folded(haystack@.subrange(i as int, i + n)) == ascii::folded(needle@));
            return true;
        }
        if i == haystack.len() - n {
            return false;
        }
        i += 1;
    }
    false
}

} // verus!
