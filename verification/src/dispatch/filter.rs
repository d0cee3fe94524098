//! Which packets a registration takes.

use vstd::prelude::*;

use crate::config::value::AddressFamily;
use crate::interface::InterfaceAddresses;
use crate::linear_map::MapKey;
use crate::net::ip::{IpAddr, Ipv4Addr};
use crate::net::mac::{MacAddr, MacSet};
use crate::net::packet::Packet;

verus! {

/// A non-empty set of one filter field's accepted values, so a single registration can span several:
/// mDNS's two multicast groups, or `WoL`'s ports. A one-element set pins a single value.
#[derive(Clone, PartialEq, Eq, Debug)]
pub struct FilterSet<T> {
    pub values: Vec<T>,
}

impl MapKey for u16 {
    type Id = u16;

    open spec fn id(&self) -> u16 {
        *self
    }

    fn same(&self, other: &Self) -> (r: bool) {
        *self == *other
    }
}

impl MapKey for IpAddr {
    type Id = IpAddr;

    open spec fn id(&self) -> IpAddr {
        *self
    }

    fn same(&self, other: &Self) -> (r: bool) {
        *self == *other
    }
}

impl<T> FilterSet<T> {
    /// The set of one value.
    pub fn one(value: T) -> (r: Self)
        ensures
            r.values@ == seq![value],
    {
        let mut values: Vec<T> = Vec::new();
        values.push(value);
        assert(values@ =~= seq![value]);
        FilterSet { values }
    }

    /// The set of the listed values.
    pub fn of(values: Vec<T>) -> (r: Self)
        ensures
            r.values@ == values@,
    {
        FilterSet { values }
    }
}

impl<T: MapKey> FilterSet<T> {
    /// One of the values is `id`.
    pub open spec fn has(&self, id: T::Id) -> bool {
        exists|i: int| 0 <= i < self.values@.len() && (#[trigger] self.values@[i]).id() == id
    }

    pub fn contains(&self, value: &T) -> (r: bool)
        ensures
            r == self.has(value.id()),
    {
        let mut i: usize = 0;
        while i < self.values.len()
            invariant
                i <= self.values@.len(),
                forall|j: int| 0 <= j < i ==> (#[trigger] self.values@[j]).id() != value.id(),
            decreases self.values@.len() - i,
        {
            if self.values[i].same(value) {
                assert(self.values@[i as int].id() == value.id());
                return true;
            }
            i += 1;
        }
        false
    }
}

/// The `dst_ip` filter set: the multicast groups one handler serves.
pub type IpSet = FilterSet<IpAddr>;

/// The `dst_port` filter set: the ports one handler serves.
pub type PortSet = FilterSet<u16>;

/// An optional-field packet filter: an unset field matches anything. A `src_mac`/`dst_mac` filter
/// never matches a packet from a link without L2 addresses. `dst_ip`/`dst_port` match membership in
/// their [`FilterSet`].
pub struct Filter {
    pub src_ip: Option<IpAddr>,
    pub dst_ip: Option<IpSet>,
    pub src_port: Option<u16>,
    pub dst_port: Option<PortSet>,
    /// Allow-set on the source MAC: the packet's source must be a member.
    pub src_mac: Option<MacSet>,
    pub dst_mac: Option<MacAddr>,
    /// Require an IPv4 broadcast destination, see [`Packet::is_broadcast`].
    pub broadcast: bool,
    /// Widen `dst_ip` to the ingress interface's own addresses of these families: an answer sent to
    /// this host.
    pub dst_own: Option<AddressFamily>,
}

impl Default for Filter {
    /// Matches anything.
    fn default() -> (r: Self)
        ensures
            r.takes_all(),
            r.dst_own is None,
    {
        Filter {
            src_ip: None,
            dst_ip: None,
            src_port: None,
            dst_port: None,
            src_mac: None,
            dst_mac: None,
            broadcast: false,
            dst_own: None,
        }
    }
}

/// The directed broadcast of the ingress, where it has one.
pub open spec fn directed_broadcast(ingress: Option<InterfaceAddresses>) -> Option<Ipv4Addr> {
    match ingress {
        Some(addrs) => addrs.directed_broadcast(),
        None => None,
    }
}

impl Filter {
    /// No field is set.
    pub open spec fn takes_all(&self) -> bool {
        &&& self.src_ip is None
        &&& self.dst_ip is None
        &&& self.src_port is None
        &&& self.dst_port is None
        &&& self.src_mac is None
        &&& self.dst_mac is None
        &&& !self.broadcast
    }

    /// `ip` is an address of the ingress that `dst_own` admits.
    pub open spec fn is_own(&self, ip: IpAddr, ingress: Option<InterfaceAddresses>) -> bool {
        &&& self.dst_own matches Some(family) && family.uses(ip)
        &&& ingress matches Some(addrs) && addrs.holds(ip)
    }

    /// The packet satisfies every set field.
    pub open spec fn accepts(&self, p: Packet, ingress: Option<InterfaceAddresses>) -> bool {
        &&& self.broadcast ==> p.broadcast(directed_broadcast(ingress))
        &&& self.src_ip matches Some(ip) ==> p.source.ip == ip
        &&& self.dst_ip matches Some(set) ==> set.has(p.dest.ip) || self.is_own(p.dest.ip, ingress)
        &&& self.src_port matches Some(port) ==> p.source.port == port
        &&& self.dst_port matches Some(set) ==> set.has(p.dest.port)
        &&& self.src_mac matches Some(set) ==> p.src_mac is Some && set@.contains(p.src_mac->0)
        &&& self.dst_mac matches Some(mac) ==> p.dst_mac == Some(mac)
    }

    /// Whether `p` satisfies every set field (an unset field matches anything), given the ingress's
    /// addresses: its directed broadcast for the `broadcast` field on a link without MACs, its own
    /// addresses for `dst_own`.
    pub fn matches(&self, p: &Packet, ingress: Option<InterfaceAddresses>) -> (r: bool)
        ensures
            r == self.accepts(*p, ingress),
    {
        if self.broadcast {
            let directed = match ingress {
                Some(addrs) => addrs.v4_directed_broadcast(),
                None => None,
            };
            if !p.is_broadcast(directed) {
                return false;
            }
        }
        if let Some(ip) = self.src_ip {
            if p.source.ip != ip {
                return false;
            }
        }
        if let Some(set) = &self.dst_ip {
            if !set.contains(&p.dest.ip) {
                let own = match (self.dst_own, ingress) {
                    (Some(family), Some(addrs)) => family.uses(p.dest.ip) && addrs.has(p.dest.ip),
                    _ => false,
                };
                if !own {
                    return false;
                }
            }
        }
        if let Some(port) = self.src_port {
            if p.source.port != port {
                return false;
            }
        }
        if let Some(set) = &self.dst_port {
            if !set.contains(&p.dest.port) {
                return false;
            }
        }
        if let Some(set) = &self.src_mac {
            match p.src_mac {
                Some(mac) => {
                    if !set.contains(&mac) {
                        return false;
                    }
                },
                None => return false,
            }
        }
        if let Some(mac) = self.dst_mac {
            match p.dst_mac {
                Some(own) => own == mac,
                None => false,
            }
        } else {
            true
        }
    }
}

/// An unset filter takes every packet.
pub proof fn law_unset_filter_takes_every_packet(
    filter: Filter,
    p: Packet,
    ingress: Option<InterfaceAddresses>,
)
    requires
        filter.takes_all(),
    ensures
        filter.accepts(p, ingress),
{
}

/// A filter on MACs takes no packet of a link without them.
pub proof fn law_mac_filter_needs_a_mac(
    filter: Filter,
    p: Packet,
    ingress: Option<InterfaceAddresses>,
)
    requires
        filter.src_mac is Some && p.src_mac is None || filter.dst_mac is Some && p.dst_mac is None,
    ensures
        !filter.accepts(p, ingress),
{
}

/// A filter on broadcasts takes no packet to a group and none of IPv6.
pub proof fn law_broadcast_filter_leaves_groups(
    filter: Filter,
    p: Packet,
    ingress: Option<InterfaceAddresses>,
)
    requires
        filter.broadcast,
        match p.dest.ip {
            IpAddr::V4(v4) => 224 <= v4.a <= 239,
            IpAddr::V6(_) => true,
        },
    ensures
        !filter.accepts(p, ingress),
{
}

/// Whether a captured frame is one of our own re-emits handed back by the link: its source MAC is
/// the ingress interface's own. The all-zero address is exempt: Linux reports it as a loopback's
/// hardware address and every loopback frame carries it, so it identifies nothing.
#[verifier::allow_in_spec]
pub fn is_own_echo(src_mac: Option<MacAddr>, own_mac: Option<MacAddr>) -> (r: bool)
    returns
        (match (src_mac, own_mac) {
            (Some(src), Some(own)) => src == own && !own.is_unspecified(),
            _ => false,
        }),
{
    match (src_mac, own_mac) {
        (Some(src), Some(own)) => src == own && !own.is_unspecified(),
        _ => false,
    }
}

/// A filter takes a packet when, and only when, the packet has every value that is asked of it: the
/// addresses, ports and MACs; for a broadcast an IPv4 destination that is no group, on the all-ones MAC,
/// or, where the link has no MACs, the limited broadcast or the link's own; and in place of a listed
/// destination an address of the ingress itself, of a family that is asked for.
pub proof fn law_a_filter_asks_for_each_value(
    filter: Filter,
    p: Packet,
    ingress: Option<InterfaceAddresses>,
)
    ensures
        filter.accepts(p, ingress) <==> {
            &&& filter.src_ip is Some ==> p.source.ip == filter.src_ip->0
            &&& filter.src_port is Some ==> p.source.port == filter.src_port->0
            &&& filter.dst_port is Some ==> filter.dst_port->0.values@.contains(p.dest.port)
            &&& filter.src_mac is Some ==> p.src_mac is Some && filter.src_mac->0@.contains(
                p.src_mac->0,
            )
            &&& filter.dst_mac is Some ==> p.dst_mac is Some && p.dst_mac->0 == filter.dst_mac->0
            &&& filter.dst_ip is Some ==> filter.dst_ip->0.values@.contains(p.dest.ip) || (
            filter.dst_own is Some && ingress is Some && match p.dest.ip {
                IpAddr::V4(v4) => filter.dst_own->0 != AddressFamily::Ipv6 && ingress->0.v4 == Some(
                    v4,
                ),
                IpAddr::V6(v6) => filter.dst_own->0 != AddressFamily::Ipv4 && (ingress->0.v6
                    == Some(v6) || ingress->0.v6_routable == Some(v6)),
            })
            &&& filter.broadcast ==> match (p.dest.ip, p.dst_mac) {
                (IpAddr::V4(v4), Some(mac)) => (v4.a < 224 || v4.a > 239) && mac == (MacAddr {
                    o0: 255,
                    o1: 255,
                    o2: 255,
                    o3: 255,
                    o4: 255,
                    o5: 255,
                }),
                (IpAddr::V4(v4), None) => (v4.a < 224 || v4.a > 239) && (v4 == (Ipv4Addr {
                    a: 255,
                    b: 255,
                    c: 255,
                    d: 255,
                }) || (ingress is Some && ingress->0.directed_broadcast() == Some(v4))),
                _ => false,
            }
        },
{
    if filter.dst_port is Some {
        let set = filter.dst_port->0;
        if set.has(p.dest.port) {
            let i: int = choose|i: int|
                0 <= i < set.values@.len() && (#[trigger] set.values@[i]).id() == p.dest.port;
            assert(set.values@[i] == p.dest.port);
        }
        if set.values@.contains(p.dest.port) {
            let i: int = choose|i: int| 0 <= i < set.values@.len() && set.values@[i] == p.dest.port;
            assert(set.values@[i].id() == p.dest.port);
        }
    }
    if filter.dst_ip is Some {
        let set = filter.dst_ip->0;
        if set.has(p.dest.ip) {
            let i: int = choose|i: int|
                0 <= i < set.values@.len() && (#[trigger] set.values@[i]).id() == p.dest.ip;
            assert(set.values@[i] == p.dest.ip);
        }
        if set.values@.contains(p.dest.ip) {
            let i: int = choose|i: int| 0 <= i < set.values@.len() && set.values@[i] == p.dest.ip;
            assert(set.values@[i].id() == p.dest.ip);
        }
    }
}

/// A frame is taken for our own where it comes from the ingress's own MAC, but for the all-zero one.
pub proof fn law_an_echo_has_the_own_mac(src: MacAddr, own: MacAddr)
    ensures
        is_own_echo(Some(src), Some(own)) <==> src == own && own != (MacAddr {
            o0: 0,
            o1: 0,
            o2: 0,
            o3: 0,
            o4: 0,
            o5: 0,
        }),
        !is_own_echo(None, Some(own)),
        !is_own_echo(Some(src), None),
{
}

} // verus!
