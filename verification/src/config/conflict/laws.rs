//! What two entries may carry, said of the datagrams themselves.

use vstd::prelude::*;

use crate::config;
use crate::config::conflict;
use crate::config::conflict::{Destination, FlowClass, Passage, Protocol, Reach};
use crate::config::error::Fault;
use crate::config::value::{AddressFamily, Port};
use crate::config::Entry;
use crate::net::ip::{IpAddr, Ipv4Addr, Ipv6Addr};
use crate::net::{mdns, ssdp, wsd};

verus! {

/// A flow of the protocol carries the datagram.
pub open spec fn some_carries(s: Seq<FlowClass>, protocol: Protocol, p: Passage) -> bool {
    exists|i: int| 0 <= i < s.len() && (#[trigger] s[i]).protocol == protocol && s[i].carries(p)
}

/// The entry relays the datagram as one of the protocol.
pub open spec fn relays(e: Entry, protocol: Protocol, p: Passage) -> bool {
    some_carries(conflict::flows(e), protocol, p)
}

/// The datagram passes from the entry's source to its target.
pub open spec fn forth(e: Entry, p: Passage) -> bool {
    p.ingress == e.source_if && p.egress == e.target_if
}

/// The datagram passes from the entry's target to its source.
pub open spec fn back(e: Entry, p: Passage) -> bool {
    p.ingress == e.target_if && p.egress == e.source_if
}

/// The datagram goes to an IPv4 address.
pub open spec fn to_v4(p: Passage, a: u8, b: u8, c: u8, d: u8) -> bool {
    p.destination == Destination::To(IpAddr::V4(Ipv4Addr { a, b, c, d }))
}

/// The datagram goes to an IPv6 address with zeros between its first and last group.
pub open spec fn to_v6(p: Passage, first: u16, last: u16) -> bool {
    p.destination == Destination::To(
        IpAddr::V6(Ipv6Addr { s0: first, s1: 0, s2: 0, s3: 0, s4: 0, s5: 0, s6: 0, s7: last }),
    )
}

proof fn lemma_joined(a: Seq<FlowClass>, b: Seq<FlowClass>, protocol: Protocol, p: Passage)
    ensures
        some_carries(a + b, protocol, p) <==> some_carries(a, protocol, p) || some_carries(
            b,
            protocol,
            p,
        ),
{
    let s = a + b;
    if some_carries(a, protocol, p) {
        let i: int = choose|i: int|
            0 <= i < a.len() && (#[trigger] a[i]).protocol == protocol && a[i].carries(p);
        assert(s[i] == a[i]);
    }
    if some_carries(b, protocol, p) {
        let i: int = choose|i: int|
            0 <= i < b.len() && (#[trigger] b[i]).protocol == protocol && b[i].carries(p);
        assert(s[a.len() + i] == b[i]);
    }
    if some_carries(s, protocol, p) {
        let i: int = choose|i: int|
            0 <= i < s.len() && (#[trigger] s[i]).protocol == protocol && s[i].carries(p);
        if i < a.len() {
            assert(a[i] == s[i]);
        } else {
            assert(b[i - a.len()] == s[i]);
        }
    }
}

proof fn lemma_discovery(
    e: Entry,
    of: Protocol,
    port: u16,
    groups: Seq<IpAddr>,
    protocol: Protocol,
    p: Passage,
)
    ensures
        some_carries(conflict::discovery(e, of, port, groups), protocol, p) <==> {
            &&& protocol == of
            &&& forth(e, p) || back(e, p)
            &&& p.port == port
            &&& exists|k: int|
                0 <= k < groups.len() && p.destination == Destination::To(#[trigger] groups[k])
                    && e.address_family.uses(groups[k])
        },
    decreases groups.len(),
{
    if groups.len() > 0 {
        let t = groups.drop_last();
        let g = groups.last();
        lemma_discovery(e, of, port, t, protocol, p);
        assert(groups[groups.len() - 1] == g);
        assert forall|k: int| 0 <= k < t.len() implies groups[k] == #[trigger] t[k] by {}
        assert forall|k: int| 0 <= k < t.len() implies t[k] == #[trigger] groups[k] by {}
        if e.address_family.uses(g) {
            let reach = Reach::Group(g);
            let two = seq![
                FlowClass { protocol: of, ingress: e.source_if, egress: e.target_if, port, reach },
                FlowClass { protocol: of, ingress: e.target_if, egress: e.source_if, port, reach },
            ];
            lemma_joined(conflict::discovery(e, of, port, t), two, protocol, p);
            assert(two[0].carries(p) || two[1].carries(p) <==> (forth(e, p) || back(e, p)) && p.port
                == port && p.destination == Destination::To(g));
            assert(some_carries(two, protocol, p) <==> protocol == of && (two[0].carries(p)
                || two[1].carries(p)));
        }
    }
}

proof fn lemma_destinations(ports: Seq<Port>, groups: Seq<IpAddr>, broadcast: bool, port: u16, d: Destination)
    ensures
        (exists|k: int|
            0 <= k < conflict::destinations(ports, groups, broadcast).len() && (
            #[trigger] conflict::destinations(ports, groups, broadcast)[k]).0 == port
                && conflict::destinations(ports, groups, broadcast)[k].1.admits(d)) <==> {
            &&& ports.contains(Port { number: port })
            &&& match d {
                Destination::To(ip) => groups.contains(ip),
                Destination::Broadcast => broadcast,
            }
        },
    decreases ports.len(),
{
    let all = conflict::destinations(ports, groups, broadcast);
    let wanted = match d {
        Destination::To(ip) => groups.contains(ip),
        Destination::Broadcast => broadcast,
    };
    if ports.len() > 0 {
        let t = ports.drop_last();
        let some = conflict::destinations(t, groups, broadcast);
        let last = conflict::port_destinations(ports.last().number, groups, broadcast);
        lemma_destinations(t, groups, broadcast, port, d);
        assert(ports[ports.len() - 1] == ports.last());
        assert forall|k: int| 0 <= k < t.len() implies ports[k] == #[trigger] t[k] by {}
        if ports.contains(Port { number: port }) && ports.last().number != port {
            let k: int = choose|k: int| 0 <= k < ports.len() && ports[k] == Port { number: port };
            assert(t[k] == ports[k]);
        }
        assert((exists|k: int|
            0 <= k < last.len() && (#[trigger] last[k]).0 == port && last[k].1.admits(d))
            <==> ports.last().number == port && wanted) by {
            if ports.last().number == port && wanted {
                match d {
                    Destination::To(ip) => {
                        let k: int = choose|k: int| 0 <= k < groups.len() && groups[k] == ip;
                        assert(last[k] == (port, Reach::Group(ip)));
                    },
                    Destination::Broadcast => {
                        assert(last[groups.len() as int] == (port, Reach::Broadcast));
                    },
                }
            }
        }
        if exists|k: int| 0 <= k < all.len() && (#[trigger] all[k]).0 == port && all[k].1.admits(d) {
            let k: int = choose|k: int|
                0 <= k < all.len() && (#[trigger] all[k]).0 == port && all[k].1.admits(d);
            if k < some.len() {
                assert(some[k] == all[k]);
            } else {
                assert(last[k - some.len()] == all[k]);
            }
        }
        if exists|k: int|
            0 <= k < some.len() && (#[trigger] some[k]).0 == port && some[k].1.admits(d) {
            let k: int = choose|k: int|
                0 <= k < some.len() && (#[trigger] some[k]).0 == port && some[k].1.admits(d);
            assert(all[k] == some[k]);
        }
        if exists|k: int|
            0 <= k < last.len() && (#[trigger] last[k]).0 == port && last[k].1.admits(d) {
            let k: int = choose|k: int|
                0 <= k < last.len() && (#[trigger] last[k]).0 == port && last[k].1.admits(d);
            assert(all[some.len() + k] == last[k]);
        }
    }
}

/// What a Wake-on-LAN flow of one direction carries: any datagram of the family on its ports.
spec fn wakes(e: Entry, p: Passage) -> bool {
    &&& e.wol is Some
    &&& e.wol->0.contains(Port { number: p.port })
    &&& match p.destination {
        Destination::To(IpAddr::V4(_)) => e.address_family != AddressFamily::Ipv6,
        Destination::To(IpAddr::V6(_)) => e.address_family != AddressFamily::Ipv4,
        Destination::Broadcast => e.address_family != AddressFamily::Ipv6,
    }
}

/// What a relay flow of one direction carries: what goes to one of its groups, or a broadcast.
spec fn transports(e: Entry, p: Passage) -> bool {
    &&& e.udp is Some
    &&& e.udp->0.ports.contains(Port { number: p.port })
    &&& match p.destination {
        Destination::To(ip) => e.udp->0.groups is Some && e.udp->0.groups->0.contains(ip),
        Destination::Broadcast => e.udp->0.broadcast,
    }
}

proof fn lemma_direction(
    e: Entry,
    ingress: Seq<char>,
    egress: Seq<char>,
    protocol: Protocol,
    p: Passage,
)
    ensures
        some_carries(conflict::direction_flows(e, ingress, egress), protocol, p) <==> {
            &&& p.ingress == ingress && p.egress == egress
            &&& (protocol == Protocol::Wol && wakes(e, p)) || (protocol == Protocol::Udp
                && transports(e, p))
        },
{
    let wol = match e.wol {
        Some(ports) => conflict::wol_flows(e.address_family, ingress, egress, ports),
        None => Seq::empty(),
    };
    let udp = match e.udp {
        Some(udp) => conflict::relay_flows(
            ingress,
            egress,
            conflict::destinations(udp.ports, config::items(udp.groups), udp.broadcast),
        ),
        None => Seq::empty(),
    };
    lemma_joined(wol, udp, protocol, p);
    assert(some_carries(wol, protocol, p) <==> p.ingress == ingress && p.egress == egress
        && protocol == Protocol::Wol && wakes(e, p)) by {
        if some_carries(wol, protocol, p) {
            let i: int = choose|i: int|
                0 <= i < wol.len() && (#[trigger] wol[i]).protocol == protocol && wol[i].carries(p);
            assert(e.wol->0[i] == Port { number: p.port });
        }
        if wakes(e, p) {
            let i: int = choose|i: int|
                0 <= i < e.wol->0.len() && e.wol->0[i] == Port { number: p.port };
            assert(wol[i].port == p.port);
            assert(wol[i].reach.admits(p.destination));
        }
    }
    assert(some_carries(udp, protocol, p) <==> p.ingress == ingress && p.egress == egress
        && protocol == Protocol::Udp && transports(e, p)) by {
        if let Some(r) = e.udp {
            let groups = config::items(r.groups);
            lemma_destinations(r.ports, groups, r.broadcast, p.port, p.destination);
            let to = conflict::destinations(r.ports, groups, r.broadcast);
            if some_carries(udp, protocol, p) {
                let i: int = choose|i: int|
                    0 <= i < udp.len() && (#[trigger] udp[i]).protocol == protocol && udp[i].carries(
                        p,
                    );
                assert(to[i].0 == p.port && to[i].1.admits(p.destination));
            }
            if transports(e, p) {
                let i: int = choose|i: int|
                    0 <= i < to.len() && (#[trigger] to[i]).0 == p.port && to[i].1.admits(
                        p.destination,
                    );
                assert(udp[i].port == p.port && udp[i].reach == to[i].1);
            }
        }
    }
}

/// What an entry relays, datagram by datagram: the discovery protocols that it enables to their groups
/// and ports, both ways; and, from its source to its target (both ways where it is bidirectional), any
/// datagram on a wake-up port and whatever goes to a relayed group or broadcast on a relayed port.
pub proof fn law_what_an_entry_relays(e: Entry, p: Passage)
    ensures
        relays(e, Protocol::Mdns, p) <==> {
            &&& e.mdns
            &&& forth(e, p) || back(e, p)
            &&& p.port == 5353
            &&& (e.address_family != AddressFamily::Ipv6 && to_v4(p, 224, 0, 0, 251)) || (
            e.address_family != AddressFamily::Ipv4 && to_v6(p, 0xff02, 0xfb))
        },
        relays(e, Protocol::Ssdp, p) <==> {
            &&& e.ssdp is Some
            &&& forth(e, p) || back(e, p)
            &&& p.port == 1900
            &&& (e.address_family != AddressFamily::Ipv6 && to_v4(p, 239, 255, 255, 250)) || (
            e.address_family != AddressFamily::Ipv4 && (to_v6(p, 0xff02, 0xc) || to_v6(
                p,
                0xff05,
                0xc,
            )))
        },
        relays(e, Protocol::Wsd, p) <==> {
            &&& e.wsd
            &&& forth(e, p) || back(e, p)
            &&& p.port == 3702
            &&& (e.address_family != AddressFamily::Ipv6 && to_v4(p, 239, 255, 255, 250)) || (
            e.address_family != AddressFamily::Ipv4 && to_v6(p, 0xff02, 0xc))
        },
        relays(e, Protocol::Wol, p) <==> {
            &&& e.wol is Some
            &&& forth(e, p) || (e.bidirectional && back(e, p))
            &&& e.wol->0.contains(Port { number: p.port })
            &&& match p.destination {
                Destination::To(IpAddr::V4(_)) => e.address_family != AddressFamily::Ipv6,
                Destination::To(IpAddr::V6(_)) => e.address_family != AddressFamily::Ipv4,
                Destination::Broadcast => e.address_family != AddressFamily::Ipv6,
            }
        },
        relays(e, Protocol::Udp, p) <==> {
            &&& e.udp is Some
            &&& forth(e, p) || (e.bidirectional && back(e, p))
            &&& e.udp->0.ports.contains(Port { number: p.port })
            &&& match p.destination {
                Destination::To(ip) => e.udp->0.groups is Some && e.udp->0.groups->0.contains(ip),
                Destination::Broadcast => e.udp->0.broadcast,
            }
        },
{
    lemma_relays(e, Protocol::Mdns, p);
    lemma_relays(e, Protocol::Ssdp, p);
    lemma_relays(e, Protocol::Wsd, p);
    lemma_relays(e, Protocol::Wol, p);
    lemma_relays(e, Protocol::Udp, p);
    let m = conflict::mdns_groups();
    assert(m[0] == IpAddr::V4(Ipv4Addr { a: 224, b: 0, c: 0, d: 251 }));
    assert(m[1] is V6);
    let s = conflict::ssdp_groups();
    assert(s[0] is V4);
    assert(s[1] is V6);
    assert(s[2] is V6);
    let w = conflict::wsd_groups();
    assert(w[0] is V4);
    assert(w[1] is V6);
}

spec fn among(e: Entry, groups: Seq<IpAddr>, p: Passage) -> bool {
    exists|k: int|
        0 <= k < groups.len() && p.destination == Destination::To(#[trigger] groups[k])
            && e.address_family.uses(groups[k])
}

proof fn lemma_relays(e: Entry, protocol: Protocol, p: Passage)
    ensures
        relays(e, protocol, p) <==> match protocol {
            Protocol::Mdns => e.mdns && (forth(e, p) || back(e, p)) && p.port == mdns::MDNS_PORT
                && among(e, conflict::mdns_groups(), p),
            Protocol::Ssdp => e.ssdp is Some && (forth(e, p) || back(e, p)) && p.port
                == ssdp::SSDP_PORT && among(e, conflict::ssdp_groups(), p),
            Protocol::Wsd => e.wsd && (forth(e, p) || back(e, p)) && p.port == wsd::WSD_PORT
                && among(e, conflict::wsd_groups(), p),
            Protocol::Wol => (forth(e, p) || (e.bidirectional && back(e, p))) && wakes(e, p),
            Protocol::Udp => (forth(e, p) || (e.bidirectional && back(e, p))) && transports(e, p),
        },
{
    let mdns = if e.mdns {
        conflict::discovery(e, Protocol::Mdns, mdns::MDNS_PORT, conflict::mdns_groups())
    } else {
        Seq::empty()
    };
    let ssdp = if e.ssdp is Some {
        conflict::discovery(e, Protocol::Ssdp, ssdp::SSDP_PORT, conflict::ssdp_groups())
    } else {
        Seq::empty()
    };
    let wsd = if e.wsd {
        conflict::discovery(e, Protocol::Wsd, wsd::WSD_PORT, conflict::wsd_groups())
    } else {
        Seq::empty()
    };
    let there = conflict::direction_flows(e, e.source_if, e.target_if);
    let again = if e.bidirectional {
        conflict::direction_flows(e, e.target_if, e.source_if)
    } else {
        Seq::empty()
    };
    lemma_discovery(
        e,
        Protocol::Mdns,
        mdns::MDNS_PORT,
        conflict::mdns_groups(),
        protocol,
        p,
    );
    lemma_discovery(
        e,
        Protocol::Ssdp,
        ssdp::SSDP_PORT,
        conflict::ssdp_groups(),
        protocol,
        p,
    );
    lemma_discovery(e, Protocol::Wsd, wsd::WSD_PORT, conflict::wsd_groups(), protocol, p);
    lemma_direction(e, e.source_if, e.target_if, protocol, p);
    lemma_direction(e, e.target_if, e.source_if, protocol, p);
    lemma_joined(mdns, ssdp, protocol, p);
    lemma_joined(mdns + ssdp, wsd, protocol, p);
    lemma_joined(mdns + ssdp + wsd, there, protocol, p);
    lemma_joined(mdns + ssdp + wsd + there, again, protocol, p);
}

/// Both entries relay over some pair of interfaces, in the same direction.
pub open spec fn one_direction(a: Entry, b: Entry) -> bool {
    ||| a.source_if == b.source_if && a.target_if == b.target_if
    ||| (a.bidirectional || b.bidirectional) && a.source_if == b.target_if && a.target_if
        == b.source_if
}

/// A device exists that both entries select.
pub open spec fn one_device(a: Entry, b: Entry) -> bool {
    ||| a.macs is None
    ||| b.macs is None
    ||| exists|i: int| 0 <= i < a.macs->0.len() && b.macs->0.contains(#[trigger] a.macs->0[i])
}

/// An IP version exists that both entries handle.
pub open spec fn one_version(a: Entry, b: Entry) -> bool {
    !(a.address_family == AddressFamily::Ipv4 && b.address_family == AddressFamily::Ipv6) && !(
    a.address_family == AddressFamily::Ipv6 && b.address_family == AddressFamily::Ipv4)
}

proof fn lemma_shared(a: Entry, b: Entry)
    ensures
        crate::unique_list::shared(conflict::directions(a), conflict::directions(b))
            == one_direction(a, b),
        conflict::common_mac(a.macs, b.macs) == one_device(a, b),
        conflict::common_family(a.address_family, b.address_family) == one_version(a, b),
{
    let m = conflict::directions(a);
    let t = conflict::directions(b);
    assert(m[0] == (a.source_if, a.target_if));
    assert(t[0] == (b.source_if, b.target_if));
    if a.bidirectional {
        assert(m[1] == (a.target_if, a.source_if));
    }
    if b.bidirectional {
        assert(t[1] == (b.target_if, b.source_if));
    }
    if one_direction(a, b) {
        if a.source_if == b.source_if && a.target_if == b.target_if {
            assert(t.contains(m[0]));
        } else if a.bidirectional {
            assert(m[1] == t[0]);
            assert(t.contains(m[1]));
        } else {
            assert(m[0] == t[1]);
            assert(t.contains(m[0]));
        }
    }
}

/// Two entries that relay over one pair of interfaces in the same direction, select a common device
/// and handle a common IP version conflict where both enable mDNS, both SSDP, both WS-Discovery, or
/// both wake up on a common port.
pub proof fn law_a_protocol_of_both_is_a_conflict(a: Entry, b: Entry)
    requires
        one_direction(a, b),
        one_device(a, b),
        one_version(a, b),
        ({
            ||| a.mdns && b.mdns
            ||| a.ssdp is Some && b.ssdp is Some
            ||| a.wsd && b.wsd
            ||| a.wol is Some && b.wol is Some && exists|i: int|
                0 <= i < a.wol->0.len() && b.wol->0.contains(#[trigger] a.wol->0[i])
        }),
    ensures
        conflict::conflict(a, b) is Some,
{
    lemma_shared(a, b);
}

/// One datagram would go out twice: both entries relay it, and either one does so through its UDP
/// relay, which takes any datagram, or both do so as one protocol, in a common direction and for a
/// common device.
pub open spec fn twice(a: Entry, b: Entry, one: Protocol, other: Protocol, p: Passage) -> bool {
    &&& relays(a, one, p)
    &&& relays(b, other, p)
    &&& one == Protocol::Udp || other == Protocol::Udp || (one == other && one_direction(a, b)
        && one_device(a, b))
}

/// One datagram would go out twice, one entry relaying it as the protocol and the other as the same or
/// through its UDP relay.
pub open spec fn twice_as(a: Entry, b: Entry, of: Protocol, p: Passage) -> bool {
    ||| twice(a, b, of, of, p)
    ||| twice(a, b, of, Protocol::Udp, p)
    ||| twice(a, b, Protocol::Udp, of, p)
}

proof fn lemma_common_flow(s: Seq<FlowClass>, t: Seq<FlowClass>)
    ensures
        conflict::relay_overlap(s, t) matches Some((protocol, port)) ==> exists|p: Passage|
            #[trigger] some_carries(s, Protocol::Udp, p) && some_carries(t, protocol, p) && p.port
                == port,
        conflict::relay_overlap(s, t) is None ==> forall|q: Protocol, p: Passage|
            !(#[trigger] some_carries(t, q, p) && some_carries(s, Protocol::Udp, p)),
    decreases t.len(),
{
    if t.len() > 0 {
        let rest = t.skip(1);
        lemma_common_flow(s, rest);
        if conflict::doubled(s, t[0]) {
            let i: int = choose|i: int|
                0 <= i < s.len() && (#[trigger] s[i]).protocol == Protocol::Udp && s[i].overlaps(
                    t[0],
                );
            conflict::law_overlap_is_a_common_datagram(s[i], t[0]);
            let p = choose|p: Passage| #[trigger] s[i].carries(p) && t[0].carries(p);
            assert(some_carries(s, Protocol::Udp, p));
            assert(some_carries(t, t[0].protocol, p));
        } else {
            if let Some((protocol, port)) = conflict::relay_overlap(s, rest) {
                let p = choose|p: Passage|
                    #[trigger] some_carries(s, Protocol::Udp, p) && some_carries(rest, protocol, p)
                        && p.port == port;
                let j: int = choose|j: int|
                    0 <= j < rest.len() && (#[trigger] rest[j]).protocol == protocol
                        && rest[j].carries(p);
                assert(t[j + 1] == rest[j]);
                assert(some_carries(t, protocol, p));
            } else {
                assert forall|q: Protocol, p: Passage| !(#[trigger] some_carries(t, q, p)
                    && some_carries(s, Protocol::Udp, p)) by {
                    if some_carries(t, q, p) && some_carries(s, Protocol::Udp, p) {
                        let j: int = choose|j: int|
                            0 <= j < t.len() && (#[trigger] t[j]).protocol == q && t[j].carries(p);
                        let i: int = choose|i: int|
                            0 <= i < s.len() && (#[trigger] s[i]).protocol == Protocol::Udp
                                && s[i].carries(p);
                        conflict::law_overlap_is_a_common_datagram(s[i], t[0]);
                        if j > 0 {
                            assert(rest[j - 1] == t[j]);
                            assert(some_carries(rest, q, p));
                        }
                    }
                }
            }
        }
    }
}

proof fn lemma_shared_protocol_meets(a: Entry, b: Entry, of: Protocol)
    requires
        conflict::shared_protocol(a, b) == Some(of),
    ensures
        exists|p: Passage| #[trigger] twice(a, b, of, of, p),
{
    lemma_shared(a, b);
    let v4 = a.address_family != AddressFamily::Ipv6 && b.address_family != AddressFamily::Ipv6;
    let (ingress, egress) = if forth_of(a, b) {
        (a.source_if, a.target_if)
    } else if b.bidirectional {
        (a.source_if, a.target_if)
    } else {
        (a.target_if, a.source_if)
    };
    let port: u16 = match of {
        Protocol::Wol => {
            let i: int = choose|i: int|
                0 <= i < a.wol->0.len() && b.wol->0.contains(#[trigger] a.wol->0[i]);
            a.wol->0[i].number
        },
        Protocol::Mdns => 5353,
        Protocol::Ssdp => 1900,
        _ => 3702,
    };
    let ip = if v4 {
        if of == Protocol::Mdns {
            IpAddr::V4(Ipv4Addr { a: 224, b: 0, c: 0, d: 251 })
        } else {
            IpAddr::V4(Ipv4Addr { a: 239, b: 255, c: 255, d: 250 })
        }
    } else {
        let last: u16 = if of == Protocol::Mdns {
            0xfb
        } else {
            0xc
        };
        IpAddr::V6(Ipv6Addr { s0: 0xff02, s1: 0, s2: 0, s3: 0, s4: 0, s5: 0, s6: 0, s7: last })
    };
    let p = Passage { ingress, egress, port, destination: Destination::To(ip) };
    law_what_an_entry_relays(a, p);
    law_what_an_entry_relays(b, p);
    if of == Protocol::Wol {
        let i: int = choose|i: int|
            0 <= i < a.wol->0.len() && b.wol->0.contains(#[trigger] a.wol->0[i]);
        assert(a.wol->0[i] == Port { number: port });
        assert(a.wol->0.contains(Port { number: port }));
    }
    assert(twice(a, b, of, of, p));
}

spec fn forth_of(a: Entry, b: Entry) -> bool {
    a.source_if == b.source_if && a.target_if == b.target_if
}

/// Two entries conflict when, and only when, some datagram would go out twice; the conflict is named
/// after the protocol that one of them relays it as, the other relaying it as the same or through its
/// UDP relay.
pub proof fn law_a_conflict_is_a_datagram_sent_twice(a: Entry, b: Entry)
    ensures
        conflict::conflict(a, b) is Some <==> exists|one: Protocol, other: Protocol, p: Passage|
            twice(a, b, one, other, p),
        conflict::conflict(a, b) matches Some(of) ==> exists|p: Passage|
            #[trigger] twice_as(a, b, of, p),
{
    lemma_shared(a, b);
    lemma_common_flow(conflict::flows(a), conflict::flows(b));
    lemma_common_flow(conflict::flows(b), conflict::flows(a));
    if let Some(of) = conflict::shared_protocol(a, b) {
        lemma_shared_protocol_meets(a, b, of);
        let p = choose|p: Passage| #[trigger] twice(a, b, of, of, p);
        assert(twice_as(a, b, of, p));
    } else if let Some((of, port)) = conflict::relay_overlap(
        conflict::flows(a),
        conflict::flows(b),
    ) {
        let p = choose|p: Passage|
            #[trigger] some_carries(conflict::flows(a), Protocol::Udp, p) && some_carries(
                conflict::flows(b),
                of,
                p,
            ) && p.port == port;
        assert(twice(a, b, Protocol::Udp, of, p));
        assert(twice_as(a, b, of, p));
    } else if let Some((of, port)) = conflict::relay_overlap(
        conflict::flows(b),
        conflict::flows(a),
    ) {
        let p = choose|p: Passage|
            #[trigger] some_carries(conflict::flows(b), Protocol::Udp, p) && some_carries(
                conflict::flows(a),
                of,
                p,
            ) && p.port == port;
        assert(twice(a, b, of, Protocol::Udp, p));
        assert(twice_as(a, b, of, p));
    }
    if exists|one: Protocol, other: Protocol, p: Passage| twice(a, b, one, other, p) {
        let (one, other, p) = choose|one: Protocol, other: Protocol, p: Passage|
            twice(a, b, one, other, p);
        law_what_an_entry_relays(a, p);
        law_what_an_entry_relays(b, p);
        if one == Protocol::Udp {
            assert(some_carries(conflict::flows(b), other, p) && some_carries(
                conflict::flows(a),
                Protocol::Udp,
                p,
            ));
        } else if other == Protocol::Udp {
            assert(some_carries(conflict::flows(a), one, p) && some_carries(
                conflict::flows(b),
                Protocol::Udp,
                p,
            ));
        } else if one == Protocol::Wol {
            let i: int = choose|i: int|
                0 <= i < a.wol->0.len() && a.wol->0[i] == Port { number: p.port };
            assert(b.wol->0.contains(a.wol->0[i]));
        }
    }
}

proof fn lemma_without_relay(s: Seq<FlowClass>, q: Protocol, p: Passage)
    ensures
        some_carries(conflict::without_relay(s), q, p) <==> q != Protocol::Udp && some_carries(
            s,
            q,
            p,
        ),
    decreases s.len(),
{
    if s.len() > 0 {
        lemma_without_relay(s.drop_last(), q, p);
        let one = seq![s.last()];
        assert(s =~= s.drop_last() + one);
        lemma_joined(s.drop_last(), one, q, p);
        assert(one[0] == s.last());
        if s.last().protocol != Protocol::Udp {
            assert(conflict::without_relay(s) =~= conflict::without_relay(s.drop_last()) + one);
            lemma_joined(conflict::without_relay(s.drop_last()), one, q, p);
        }
    }
}

/// An entry's own UDP relay duplicates another of its protocols when, and only when, a datagram exists
/// that both relay; what is told is that protocol and the datagram's port.
pub proof fn law_a_relay_duplicates_what_it_also_carries(e: Entry)
    ensures
        conflict::relay_duplicates(e) matches Some((of, port)) ==> of != Protocol::Udp && exists|
            p: Passage,
        | #[trigger] relays(e, Protocol::Udp, p) && relays(e, of, p) && p.port == port,
        conflict::relay_duplicates(e) is None ==> forall|of: Protocol, p: Passage|
            of != Protocol::Udp ==> !(#[trigger] relays(e, of, p) && relays(e, Protocol::Udp, p)),
{
    let s = conflict::flows(e);
    let t = conflict::without_relay(s);
    lemma_common_flow(s, t);
    if let Some((of, port)) = conflict::relay_duplicates(e) {
        let p = choose|p: Passage|
            #[trigger] some_carries(s, Protocol::Udp, p) && some_carries(t, of, p) && p.port == port;
        lemma_without_relay(s, of, p);
        assert(relays(e, Protocol::Udp, p));
    } else {
        assert forall|of: Protocol, p: Passage| of != Protocol::Udp implies !(#[trigger] relays(
            e,
            of,
            p,
        ) && relays(e, Protocol::Udp, p)) by {
            lemma_without_relay(s, of, p);
            assert(!(some_carries(t, of, p) && some_carries(s, Protocol::Udp, p)));
        }
    }
}

proof fn lemma_row_fault(s: Seq<Entry>, i: int, j: int)
    requires
        0 <= i < j,
    ensures
        conflict::row_fault(s, i, j) matches Some(fault) ==> exists|k: int|
            j <= k < s.len() && #[trigger] conflict::pair_fault(s[i], s[k]) == Some(fault),
    decreases s.len() - j,
{
    if j < s.len() {
        lemma_row_fault(s, i, j + 1);
        assert(conflict::pair_fault(s[i], s[j]) is Some || conflict::pair_fault(s[i], s[j]) is None);
    }
}

proof fn lemma_fault_from(s: Seq<Entry>, from: int)
    requires
        0 <= from,
    ensures
        conflict::conflicts_from(s, from) matches Some(fault) ==> exists|i: int, j: int|
            0 <= i < j < s.len() && #[trigger] conflict::pair_fault(s[i], s[j]) == Some(fault),
    decreases s.len() - from,
{
    if from < s.len() {
        lemma_row_fault(s, from, from + 1);
        lemma_fault_from(s, from + 1);
    }
}

/// A list of entries is refused only for two entries of it: of one name, or in a conflict, which is
/// told with their names in the order they are listed and the interfaces of the first.
pub proof fn law_a_refusal_names_two_entries(s: Seq<Entry>)
    ensures
        conflict::conflicts_from(s, 0) matches Some(fault) ==> exists|i: int, j: int|
            0 <= i < j < s.len() && match fault {
                Fault::DuplicateReflectorName { name } => #[trigger] s[i].name == name
                    && #[trigger] s[j].name == name,
                Fault::ConflictingReflectors { protocol, first, second, source_if, target_if } => {
                    &&& first == s[i].name && second == s[j].name && first != second
                    &&& source_if == s[i].source_if && target_if == s[i].target_if
                    &&& conflict::conflict(s[i], s[j]) == Some(protocol)
                },
                _ => false,
            },
{
    lemma_fault_from(s, 0);
    if let Some(fault) = conflict::conflicts_from(s, 0) {
        let (i, j): (int, int) = choose|i: int, j: int|
            0 <= i < j < s.len() && #[trigger] conflict::pair_fault(s[i], s[j]) == Some(fault);
        assert(s[i].name == s[i].name && s[j].name == s[j].name);
    }
}

} // verus!
