//! mDNS wire constants and the query/response classifier that acts as the reflector's directional
//! gate.

pub mod laws;

use vstd::prelude::*;

use crate::ascii;
use crate::net;
use crate::net::ip;
use crate::net::ip::{IpAddr, Ipv4Addr, Ipv6Addr};

verus! {

/// RFC 6762.
pub const MDNS_PORT: u16 = 5353;

/// mDNS is sent at IP TTL 255: a send-side SHOULD in RFC 6762 section 11. The reflector re-emits a
/// fresh link-local message, so it sets 255 rather than preserving the captured TTL.
pub const MDNS_TTL: u8 = 255;

/// 224.0.0.251.
#[verifier::allow_in_spec]
pub fn mdns_group_v4() -> (r: Ipv4Addr)
    returns
        (Ipv4Addr { a: 224, b: 0, c: 0, d: 251 }),
{
    Ipv4Addr { a: 224, b: 0, c: 0, d: 251 }
}

/// ff02::fb. Link-local scope, not site-local.
#[verifier::allow_in_spec]
pub fn mdns_group_v6() -> (r: Ipv6Addr)
    returns
        (Ipv6Addr { s0: 0xff02, s1: 0, s2: 0, s3: 0, s4: 0, s5: 0, s6: 0, s7: 0xfb }),
{
    Ipv6Addr { s0: 0xff02, s1: 0, s2: 0, s3: 0, s4: 0, s5: 0, s6: 0, s7: 0xfb }
}

/// An mDNS message is a query or a response, per the QR bit of its DNS header. Unsolicited
/// announcements count as responses (RFC 6762 section 8.3). This split is the reflector's
/// directional gate: queries reflect source to target, responses target to source.
#[derive(Clone, Copy, PartialEq, Eq, Structural, Debug)]
pub enum MdnsKind {
    Query,
    Response,
}

/// The fixed DNS header is 12 bytes (RFC 1035 section 4.1.1).
pub const DNS_HEADER_LEN: usize = 12;

/// The high byte of the flags field; the QR bit is its top bit.
pub const FLAGS_HIGH: usize = 2;

/// The A / AAAA record types (RFC 1035 section 3.4.1, RFC 3596 section 2.1).
pub const TYPE_A: u16 = 1;

pub const TYPE_AAAA: u16 = 28;

/// What the header of `payload` says the message is: the QR bit is the top bit of its flags.
pub open spec fn kind(payload: Seq<u8>) -> Option<MdnsKind> {
    if payload.len() < DNS_HEADER_LEN {
        None
    } else if payload[FLAGS_HIGH as int] >= 0x80 {
        Some(MdnsKind::Response)
    } else {
        Some(MdnsKind::Query)
    }
}

/// Classify a payload by the QR bit of its fixed 12-byte DNS header. `None` when the payload is too
/// short to hold that header; that is anomalous on the dedicated mDNS group, so the caller surfaces
/// it. Header-only: no question or record parsing.
pub fn classify(payload: &[u8]) -> (r: Option<MdnsKind>)
    ensures
        r == kind(payload@),
{
    if payload.len() < DNS_HEADER_LEN {
        return None;
    }
    if payload[FLAGS_HIGH] >= 0x80 {
        Some(MdnsKind::Response)
    } else {
        Some(MdnsKind::Query)
    }
}

/// The length of the domain name at the front of `s`: labels of at most 63 bytes, each behind its
/// length, up to an empty one or a two-byte pointer to the rest (RFC 1035 sections 3.1 and 4.1.4).
pub open spec fn name_len(s: Seq<u8>) -> Option<int>
    decreases s.len(),
{
    if s.len() == 0 {
        None
    } else if s[0] == 0 {
        Some(1)
    } else if s[0] <= 0x3f {
        let n: int = 1 + s[0];
        if n > s.len() {
            None
        } else {
            match name_len(s.skip(n)) {
                Some(rest) => Some(n + rest),
                None => None,
            }
        }
    } else if s[0] >= 0xc0 && s.len() >= 2 {
        Some(2)
    } else {
        None
    }
}

/// What is behind the first `n` bytes; nothing where there are fewer.
pub open spec fn behind(s: Seq<u8>, n: int) -> Seq<u8> {
    if n <= s.len() {
        s.skip(n)
    } else {
        Seq::empty()
    }
}

/// What is behind `n` questions: each a name, a type and a class.
pub open spec fn after_questions(s: Seq<u8>, n: nat) -> Option<Seq<u8>>
    decreases n,
{
    if n == 0 {
        Some(s)
    } else {
        match name_len(s) {
            Some(len) => after_questions(behind(s, len + 4), (n - 1) as nat),
            None => None,
        }
    }
}

/// How long the record at the front of `s` is: its name, ten fixed bytes, and the data whose length
/// the last two of those give (RFC 1035 section 4.1.3).
pub open spec fn record_len(s: Seq<u8>) -> Option<int> {
    match name_len(s) {
        Some(n) if n + 10 <= s.len() && n + 10 + ip::be16(s, n + 8) <= s.len() => Some(
            n + 10 + ip::be16(s, n + 8),
        ),
        _ => None,
    }
}

/// The address that the record at the front of `s` holds: an A or AAAA record of address-sized data.
pub open spec fn record_address(s: Seq<u8>) -> Option<IpAddr> {
    let n: int = name_len(s)->0;
    if ip::be16(s, n) == TYPE_A && ip::be16(s, n + 8) == 4 {
        Some(IpAddr::V4(ip::ipv4_at(s, n + 10)))
    } else if ip::be16(s, n) == TYPE_AAAA && ip::be16(s, n + 8) == 16 {
        Some(IpAddr::V6(ip::ipv6_at(s, n + 10)))
    } else {
        None
    }
}

/// The addresses that the `n` records of `s` hold; nothing where one is cut short.
pub open spec fn record_addresses(s: Seq<u8>, n: nat) -> Option<Seq<IpAddr>>
    decreases n,
{
    if n == 0 {
        Some(Seq::empty())
    } else {
        match record_len(s) {
            Some(len) => match (record_addresses(s.skip(len), (n - 1) as nat), record_address(s)) {
                (Some(rest), Some(ip)) => Some(seq![ip] + rest),
                (Some(rest), None) => Some(rest),
                (None, _) => None,
            },
            None => None,
        }
    }
}

/// The addresses that the answer, authority and additional records of a message hold; nothing where
/// the message is malformed.
pub open spec fn addresses(payload: Seq<u8>) -> Option<Seq<IpAddr>> {
    if payload.len() < DNS_HEADER_LEN {
        None
    } else {
        match after_questions(payload.skip(12), ip::be16(payload, 4) as nat) {
            Some(records) => record_addresses(
                records,
                (ip::be16(payload, 6) + ip::be16(payload, 8) + ip::be16(payload, 10)) as nat,
            ),
            None => None,
        }
    }
}

/// Whether a message is well-formed, holds an address, and holds link-local ones alone.
pub open spec fn only_link_local(payload: Seq<u8>) -> bool {
    match addresses(payload) {
        Some(ips) => ips.len() > 0 && forall|i: int|
            0 <= i < ips.len() ==> net::link_local(#[trigger] ips[i]),
        None => false,
    }
}

/// A malformed message is never suppressed, nor one without an address; one routable address rescues
/// the message.
pub proof fn law_a_message_of_use_is_not_suppressed(payload: Seq<u8>)
    requires
        match addresses(payload) {
            Some(ips) => ips.len() == 0 || exists|i: int|
                0 <= i < ips.len() && !net::link_local(#[trigger] ips[i]),
            None => true,
        },
    ensures
        !only_link_local(payload),
{
}

/// Whether the message carries at least one A/AAAA record and every one is link-local. Callers apply
/// it to responses only: a query's records are known-answer cache state, not an advertisement. No
/// address records, a routable address, or malformation all read as `false`.
pub fn advertises_only_link_local(payload: &[u8]) -> (r: bool)
    ensures
        r == only_link_local(payload@),
{
    match only_link_local_records(payload) {
        Some(r) => r,
        None => false,
    }
}

/// The record walk behind [`advertises_only_link_local`]: `None` on truncation or an undefined label
/// type before an address that is not link-local.
fn only_link_local_records(payload: &[u8]) -> (r: Option<bool>)
    ensures
        r == Some(true) <==> only_link_local(payload@),
        r is None ==> addresses(payload@) is None,
{
    if payload.len() < DNS_HEADER_LEN {
        return None;
    }
    let mut rest = ascii::skip(payload, DNS_HEADER_LEN);
    // The question section leads and carries no rdata; walk over it to reach the records.
    let questions: u16 = ip::read16(payload, 4);
    let mut i: u16 = 0;
    while i < questions
        invariant
            i <= questions,
            payload@.len() >= 12,
            questions == ip::be16(payload@, 4),
            after_questions(payload@.skip(12), questions as nat) == after_questions(
                rest@,
                (questions - i) as nat,
            ),
        decreases questions - i,
    {
        let len: usize = match skip_name(rest) {
            Some(len) => len,
            None => return None,
        };
        // The type and the class.
        let left: usize = rest.len() - len;
        rest = if left >= 4 {
            ascii::skip(rest, len + 4)
        } else {
            assert(rest@.skip(rest@.len() as int) =~= Seq::<u8>::empty());
            ascii::skip(rest, rest.len())
        };
        i += 1;
    }
    // Answer, authority and additional: address records may sit in any of them.
    let records: u32 = ip::read16(payload, 6) as u32 + ip::read16(payload, 8) as u32 + ip::read16(
        payload,
        10,
    ) as u32;
    let ghost all = record_addresses(rest@, records as nat);
    let mut saw_address = false;
    let mut i: u32 = 0;
    let ghost mut seen: Seq<IpAddr> = Seq::empty();
    proof {
        if all is Some {
            assert(all->0 =~= seen + all->0);
        }
    }
    while i < records
        invariant
            i <= records,
            addresses(payload@) == all,
            match record_addresses(rest@, (records - i) as nat) {
                Some(ips) => all == Some(seen + ips),
                None => all is None,
            },
            saw_address == (seen.len() > 0),
            forall|j: int| 0 <= j < seen.len() ==> net::link_local(#[trigger] seen[j]),
        decreases records - i,
    {
        let n: usize = match skip_name(rest) {
            Some(n) => n,
            None => return None,
        };
        if rest.len() - n < 10 {
            return None;
        }
        let rtype: u16 = ip::read16(rest, n);
        let rdlength: u16 = ip::read16(rest, n + 8);
        if rest.len() - (n + 10) < rdlength as usize {
            return None;
        }
        let ip: Option<IpAddr> = if rtype == TYPE_A && rdlength == 4 {
            Some(IpAddr::V4(ip::read_ipv4(rest, n + 10)))
        } else if rtype == TYPE_AAAA && rdlength == 16 {
            Some(IpAddr::V6(ip::read_ipv6(rest, n + 10)))
        } else {
            // Any other type, or an A/AAAA whose data is not address-sized, holds no address.
            None
        };
        assert(ip == record_address(rest@));
        let len: usize = n + 10 + rdlength as usize;
        let ghost tail = record_addresses(rest@.skip(len as int), (records - i - 1) as nat);
        match ip {
            Some(ip) => {
                proof {
                    if all is Some {
                        assert(seen + (seq![ip] + tail->0) =~= seen.push(ip) + tail->0);
                        assert((seen.push(ip) + tail->0)[seen.len() as int] == ip);
                    }
                }
                if !net::is_link_local(ip) {
                    return Some(false);
                }
                saw_address = true;
                proof {
                    seen = seen.push(ip);
                }
            },
            None => {},
        }
        rest = ascii::skip(rest, len);
        i += 1;
    }
    proof {
        if all is Some {
            assert(all->0 =~= seen);
        }
    }
    Some(saw_address)
}

/// The length of the (possibly compressed) domain name at the front of `s`. `None` on truncation or
/// an undefined label type. A pointer ends the name in place, and is never followed.
pub fn skip_name(s: &[u8]) -> (r: Option<usize>)
    ensures
        match r {
            Some(n) => name_len(s@) == Some(n as int) && 1 <= n <= s@.len(),
            None => name_len(s@) is None,
        },
{
    let mut at: usize = 0;
    assert(s@.skip(0) =~= s@);
    while at < s.len()
        invariant
            at <= s@.len(),
            match name_len(s@.skip(at as int)) {
                Some(n) => name_len(s@) == Some(at + n),
                None => name_len(s@) is None,
            },
        decreases s@.len() - at,
    {
        let len: u8 = s[at];
        if len == 0 {
            return Some(at + 1);
        }
        if len <= 0x3f {
            if s.len() - at < 1 + len as usize {
                return None;
            }
            assert(s@.skip(at as int).skip(1 + len) =~= s@.skip(at + 1 + len));
            at = at + 1 + len as usize;
        } else if len >= 0xc0 {
            if s.len() - at < 2 {
                return None;
            }
            return Some(at + 2);
        } else {
            return None;
        }
    }
    None
}

} // verus!
