//! The wire layer: on-the-wire formats and the classes of address that matter to them.

pub mod http;
pub mod ip;
pub mod mac;
pub mod mdns;
pub mod packet;
pub mod port_reservation;
pub mod route_query;
pub mod ssdp;
pub mod stream_buffer;
pub mod tcp;
pub mod uninit_buf;
pub mod wsd;

use vstd::prelude::*;

use crate::net::ip::{IpAddr, Ipv4Addr, Ipv6Addr};

verus! {

/// Link-layer framing of a captured or injected frame, reported per interface by the capture layer.
/// Ethernet; BSD `DLT_NULL` (loopback and tunnel interfaces); on Linux the bare IP packet a tunnel
/// (`WireGuard`, tun) carries, with no link header at all.
#[derive(Clone, Copy, PartialEq, Eq, Structural, Debug)]
pub enum LinkType {
    Ethernet,
    DltNull,
    RawIp,
}

/// Ethernet link header: dst MAC(6) + src MAC(6) + ethertype(2).
pub const ETHERNET_HEADER_SIZE: usize = 14;

/// The IPv6 base header.
pub const IPV6_HEADER_SIZE: usize = 40;

pub const UDP_HEADER_SIZE: usize = 8;

/// The largest frame the daemon builds, captures or forwards; every frame-path buffer is sized from
/// it. Clears a 1514-byte Ethernet frame with headroom for a baby-jumbo MTU.
pub const MAX_FRAME_LEN: usize = 2048;

/// The largest UDP payload that still fits [`MAX_FRAME_LEN`] under the worst-case header stack.
pub const MAX_UDP_PAYLOAD_LEN: usize = MAX_FRAME_LEN - (ETHERNET_HEADER_SIZE + IPV6_HEADER_SIZE
    + UDP_HEADER_SIZE);

/// The largest interface MTU whose full-size packets still fit [`MAX_FRAME_LEN`] once framed. An MTU
/// counts L3 bytes; Ethernet's link header is the binding case.
pub const MAX_MTU: usize = MAX_FRAME_LEN - ETHERNET_HEADER_SIZE;

/// The IPv4 address that `v6` maps: `::ffff:a.b.c.d`.
pub open spec fn mapped(v6: Ipv6Addr) -> Option<Ipv4Addr> {
    if v6.s0 == 0 && v6.s1 == 0 && v6.s2 == 0 && v6.s3 == 0 && v6.s4 == 0 && v6.s5 == 0xffff {
        Some(
            Ipv4Addr {
                a: (v6.s6 / 256) as u8,
                b: (v6.s6 % 256) as u8,
                c: (v6.s7 / 256) as u8,
                d: (v6.s7 % 256) as u8,
            },
        )
    } else {
        None
    }
}

/// See [`mapped`].
pub fn to_ipv4_mapped(v6: Ipv6Addr) -> (r: Option<Ipv4Addr>)
    ensures
        r == mapped(v6),
{
    if v6.s0 == 0 && v6.s1 == 0 && v6.s2 == 0 && v6.s3 == 0 && v6.s4 == 0 && v6.s5 == 0xffff {
        Some(
            Ipv4Addr {
                a: (v6.s6 / 256) as u8,
                b: (v6.s6 % 256) as u8,
                c: (v6.s7 / 256) as u8,
                d: (v6.s7 % 256) as u8,
            },
        )
    } else {
        None
    }
}

/// The address as the family it really is of: a v4-mapped IPv6 address is an IPv4 address.
pub open spec fn unmapped(ip: IpAddr) -> IpAddr {
    match ip {
        IpAddr::V4(_) => ip,
        IpAddr::V6(v6) => match mapped(v6) {
            Some(v4) => IpAddr::V4(v4),
            None => ip,
        },
    }
}

/// 169.254.0.0/16 or fe80::/10.
pub open spec fn link_local(ip: IpAddr) -> bool {
    match unmapped(ip) {
        IpAddr::V4(v4) => v4.a == 169 && v4.b == 254,
        IpAddr::V6(v6) => 0xfe80 <= v6.s0 <= 0xfebf,
    }
}

/// Whether `ip` is of the link alone. A v4-mapped IPv6 address is judged by its IPv4 rules.
pub fn is_link_local(ip: IpAddr) -> (r: bool)
    ensures
        r == link_local(ip),
{
    match ip {
        IpAddr::V4(v4) => v4.a == 169 && v4.b == 254,
        IpAddr::V6(v6) => match to_ipv4_mapped(v6) {
            Some(v4) => v4.a == 169 && v4.b == 254,
            None => v6.is_unicast_link_local(),
        },
    }
}

/// Loopback, unspecified, multicast, or the IPv4 limited broadcast.
pub open spec fn never_a_peer(ip: IpAddr) -> bool {
    match unmapped(ip) {
        IpAddr::V4(v4) => v4.a == 127 || v4 == Ipv4Addr::unspecified() || 224 <= v4.a <= 239 || v4
            == Ipv4Addr::broadcast(),
        IpAddr::V6(v6) => v6 == Ipv6Addr::loopback() || v6 == Ipv6Addr::unspecified() || v6.s0
            >= 0xff00,
    }
}

/// Whether `ip` can never name another single host: loopback, unspecified, multicast, the IPv4
/// limited broadcast. A v4-mapped IPv6 address is judged by its IPv4 rules. A directed IPv4
/// broadcast is indistinguishable from a host address without the mask and reads as `false`.
pub fn is_never_a_peer(ip: IpAddr) -> (r: bool)
    ensures
        r == never_a_peer(ip),
{
    match ip {
        IpAddr::V4(v4) => v4_never_a_peer(v4),
        IpAddr::V6(v6) => match to_ipv4_mapped(v6) {
            Some(v4) => v4_never_a_peer(v4),
            None => v6 == Ipv6Addr::loopback() || v6 == Ipv6Addr::unspecified()
                || v6.is_multicast(),
        },
    }
}

fn v4_never_a_peer(v4: Ipv4Addr) -> (r: bool)
    ensures
        r == never_a_peer(IpAddr::V4(v4)),
{
    v4.a == 127 || v4.is_unspecified() || v4.is_multicast() || v4.is_broadcast()
}

/// The IPv6 address that maps `v4`.
pub open spec fn mapping(v4: Ipv4Addr) -> Ipv6Addr {
    Ipv6Addr {
        s0: 0,
        s1: 0,
        s2: 0,
        s3: 0,
        s4: 0,
        s5: 0xffff,
        s6: (v4.a * 256 + v4.b) as u16,
        s7: (v4.c * 256 + v4.d) as u16,
    }
}

/// A v4-mapped address is judged as the IPv4 address it maps.
pub proof fn law_mapped_addresses_are_judged_as_ipv4(v4: Ipv4Addr)
    ensures
        link_local(IpAddr::V6(mapping(v4))) == link_local(IpAddr::V4(v4)),
        never_a_peer(IpAddr::V6(mapping(v4))) == never_a_peer(IpAddr::V4(v4)),
{
}

/// A link-local address names a host.
pub proof fn law_link_local_addresses_are_peers(ip: IpAddr)
    requires
        link_local(ip),
    ensures
        !never_a_peer(ip),
{
}

/// What names no other single host: in IPv4 127.0.0.0/8, 0.0.0.0, 224.0.0.0/4 and 255.255.255.255, also
/// as they are mapped into IPv6; in IPv6 `::`, `::1` and ff00::/8.
pub proof fn law_what_is_never_a_peer(v4: Ipv4Addr, v6: Ipv6Addr)
    ensures
        never_a_peer(IpAddr::V4(v4)) <==> {
            ||| v4.a == 127
            ||| 224 <= v4.a <= 239
            ||| v4.a == 0 && v4.b == 0 && v4.c == 0 && v4.d == 0
            ||| v4.a == 255 && v4.b == 255 && v4.c == 255 && v4.d == 255
        },
        v6.s0 >= 0xff00 ==> never_a_peer(IpAddr::V6(v6)),
        0 < v6.s0 < 0xff00 ==> !never_a_peer(IpAddr::V6(v6)),
        v6.s0 == 0 && v6.s1 == 0 && v6.s2 == 0 && v6.s3 == 0 && v6.s4 == 0 && v6.s5 != 0xffff ==> (
        never_a_peer(IpAddr::V6(v6)) <==> v6.s5 == 0 && v6.s6 == 0 && v6.s7 <= 1),
        link_local(IpAddr::V4(v4)) <==> v4.a == 169 && v4.b == 254,
        v6.s0 != 0 ==> (link_local(IpAddr::V6(v6)) <==> 0xfe80 <= v6.s0 <= 0xfebf),
{
}

/// The sizes fit each other: a full-size packet of the largest MTU, and the largest payload under its
/// longest headers, are just the largest frame.
pub proof fn law_the_sizes_fit_a_frame()
    ensures
        MAX_FRAME_LEN == 2048,
        MAX_MTU + 14 == MAX_FRAME_LEN,
        MAX_UDP_PAYLOAD_LEN + 8 + 40 + 14 == MAX_FRAME_LEN,
{
}

} // verus!
