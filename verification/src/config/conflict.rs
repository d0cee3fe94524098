//! The cross-reflector rule: no two entries may reflect the same packet twice. Each entry is
//! expanded into the classes of datagrams it relays ([`Flow`]s), and two entries conflict when a
//! datagram exists in a flow of each.

pub mod laws;

use vstd::prelude::*;

use crate::config;
use crate::config::error::{ConfigError, Fault};
use crate::config::value::{AddressFamily, InterfaceName, Port};
use crate::config::{Entry, Reflector, UdpRelay};
use crate::net::ip::IpAddr;
use crate::net::mac::{MacAddr, MacSet};
use crate::net::mdns::{mdns_group_v4, mdns_group_v6, MDNS_PORT};
use crate::net::ssdp::{
    ssdp_group_v4, ssdp_group_v6_link_local, ssdp_group_v6_site_local, SSDP_PORT,
};
use crate::net::wsd::{wsd_group_v4, wsd_group_v6, WSD_PORT};
use crate::unique_list;

verus! {

/// A reflected discovery protocol, named in an error.
#[derive(Clone, Copy, PartialEq, Eq, Structural, Debug)]
pub enum Protocol {
    Wol,
    Mdns,
    Ssdp,
    Wsd,
    Udp,
}

impl Protocol {
    pub open spec fn name(self) -> Seq<char> {
        match self {
            Protocol::Wol => "WoL"@,
            Protocol::Mdns => "mDNS"@,
            Protocol::Ssdp => "SSDP"@,
            Protocol::Wsd => "WSD"@,
            Protocol::Udp => "UDP relay"@,
        }
    }

    pub fn as_str(&self) -> (r: &'static str)
        ensures
            r@ == self.name(),
    {
        match self {
            Protocol::Wol => "WoL",
            Protocol::Mdns => "mDNS",
            Protocol::Ssdp => "SSDP",
            Protocol::Wsd => "WSD",
            Protocol::Udp => "UDP relay",
        }
    }
}

/// The destinations a protocol's filter admits on one port.
#[derive(Clone, Copy, PartialEq, Eq, Structural, Debug)]
pub enum Reach {
    /// Any address the family uses: the Wake-on-LAN filter pins the port alone.
    Any(AddressFamily),
    Group(IpAddr),
    /// The limited broadcast and the segment's directed one.
    Broadcast,
}

/// Where a datagram is sent.
pub enum Destination {
    To(IpAddr),
    /// The limited broadcast or the segment's directed one.
    Broadcast,
}

/// Two address families carry a common IP version.
pub open spec fn common_family(a: AddressFamily, b: AddressFamily) -> bool {
    (a.uses_ipv4() && b.uses_ipv4()) || (a.uses_ipv6() && b.uses_ipv6())
}

/// Two address families overlap when they both carry the same IP version.
pub fn families_overlap(a: AddressFamily, b: AddressFamily) -> (r: bool)
    ensures
        r == common_family(a, b),
{
    (a.uses_ipv4() && b.uses_ipv4()) || (a.uses_ipv6() && b.uses_ipv6())
}

/// Two MAC selections share an address, or one takes any.
pub open spec fn common_mac(a: Option<Seq<MacAddr>>, b: Option<Seq<MacAddr>>) -> bool {
    match (a, b) {
        (Some(a), Some(b)) => unique_list::shared(a, b),
        _ => true,
    }
}

/// Two MAC selections overlap when they share at least one address, or either is absent (an absent
/// filter matches any device).
pub fn macs_overlap(a: &Option<MacSet>, b: &Option<MacSet>) -> (r: bool)
    ensures
        r == common_mac(config::listed(*a), config::listed(*b)),
{
    match (a, b) {
        (Some(a), Some(b)) => a.shares(b),
        _ => true,
    }
}

impl Reach {
    /// A datagram to `d` is admitted.
    pub open spec fn admits(self, d: Destination) -> bool {
        match (self, d) {
            (Reach::Any(family), Destination::To(ip)) => family.uses(ip),
            (Reach::Any(family), Destination::Broadcast) => family.uses_ipv4(),
            (Reach::Group(group), Destination::To(ip)) => ip == group,
            (Reach::Group(_), Destination::Broadcast) => false,
            (Reach::Broadcast, Destination::To(_)) => false,
            (Reach::Broadcast, Destination::Broadcast) => true,
        }
    }

    /// A destination exists that both admit.
    pub open spec fn meets(self, other: Reach) -> bool {
        exists|d: Destination| #[trigger] self.admits(d) && other.admits(d)
    }

    /// Whether a datagram exists that both admit.
    pub fn overlaps(self, other: Reach) -> (r: bool)
        ensures
            r == self.meets(other),
    {
        proof {
            lemma_meets(self, other);
        }
        match (self, other) {
            (Reach::Any(a), Reach::Any(b)) => families_overlap(a, b),
            (Reach::Any(family), Reach::Group(group)) => family.uses(group),
            (Reach::Group(group), Reach::Any(family)) => family.uses(group),
            (Reach::Any(family), Reach::Broadcast) => family.uses_ipv4(),
            (Reach::Broadcast, Reach::Any(family)) => family.uses_ipv4(),
            (Reach::Group(a), Reach::Group(b)) => a == b,
            (Reach::Broadcast, Reach::Broadcast) => true,
            (Reach::Group(_), Reach::Broadcast) => false,
            (Reach::Broadcast, Reach::Group(_)) => false,
        }
    }
}

/// When two reaches meet, case by case.
proof fn lemma_meets(a: Reach, b: Reach)
    ensures
        a.meets(b) == match (a, b) {
            (Reach::Any(f), Reach::Any(g)) => common_family(f, g),
            (Reach::Any(f), Reach::Group(group)) => f.uses(group),
            (Reach::Group(group), Reach::Any(f)) => f.uses(group),
            (Reach::Any(f), Reach::Broadcast) => f.uses_ipv4(),
            (Reach::Broadcast, Reach::Any(f)) => f.uses_ipv4(),
            (Reach::Group(x), Reach::Group(y)) => x == y,
            (Reach::Broadcast, Reach::Broadcast) => true,
            _ => false,
        },
{
    let v4 = Destination::To(IpAddr::V4(mdns_group_v4()));
    let v6 = Destination::To(IpAddr::V6(mdns_group_v6()));
    assert(a.admits(v4) && b.admits(v4) ==> a.meets(b));
    assert(a.admits(v6) && b.admits(v6) ==> a.meets(b));
    assert(a.admits(Destination::Broadcast) && b.admits(Destination::Broadcast) ==> a.meets(b));
    match a {
        Reach::Group(x) => {
            assert(a.admits(Destination::To(x)));
        },
        _ => {},
    }
    match b {
        Reach::Group(y) => {
            assert(a.admits(Destination::To(y)) && b.admits(Destination::To(y)) ==> a.meets(b));
        },
        _ => {},
    }
    if a.meets(b) {
        let d = choose|d: Destination| #[trigger] a.admits(d) && b.admits(d);
        match d {
            Destination::To(ip) => {
                match ip {
                    IpAddr::V4(_) => {},
                    IpAddr::V6(_) => {},
                }
            },
            Destination::Broadcast => {},
        }
    }
}

/// A class of datagrams an entry relays: those to `port` and `reach` arriving on `ingress`,
/// re-emitted on `egress`.
#[derive(Clone, Copy, PartialEq, Eq, Debug)]
pub struct Flow<'a> {
    pub protocol: Protocol,
    pub ingress: &'a InterfaceName,
    pub egress: &'a InterfaceName,
    pub port: u16,
    pub reach: Reach,
}

/// What a [`Flow`] is.
pub struct FlowClass {
    pub protocol: Protocol,
    pub ingress: Seq<char>,
    pub egress: Seq<char>,
    pub port: u16,
    pub reach: Reach,
}

/// A datagram on its way from one interface to another.
pub struct Passage {
    pub ingress: Seq<char>,
    pub egress: Seq<char>,
    pub port: u16,
    pub destination: Destination,
}

impl FlowClass {
    /// The datagram belongs to the flow.
    pub open spec fn carries(self, p: Passage) -> bool {
        &&& p.ingress == self.ingress
        &&& p.egress == self.egress
        &&& p.port == self.port
        &&& self.reach.admits(p.destination)
    }

    /// The flows share a leg and a port, and their reaches meet.
    pub open spec fn overlaps(self, other: FlowClass) -> bool {
        &&& self.ingress == other.ingress
        &&& self.egress == other.egress
        &&& self.port == other.port
        &&& self.reach.meets(other.reach)
    }
}

/// Two flows overlap when, and only when, a datagram exists in both.
pub proof fn law_overlap_is_a_common_datagram(a: FlowClass, b: FlowClass)
    ensures
        a.overlaps(b) <==> exists|p: Passage| #[trigger] a.carries(p) && b.carries(p),
        a.overlaps(b) == b.overlaps(a),
{
    if a.overlaps(b) {
        let d = choose|d: Destination| #[trigger] a.reach.admits(d) && b.reach.admits(d);
        let p = Passage { ingress: a.ingress, egress: a.egress, port: a.port, destination: d };
        assert(a.carries(p) && b.carries(p));
    }
    if exists|p: Passage| #[trigger] a.carries(p) && b.carries(p) {
        let p = choose|p: Passage| #[trigger] a.carries(p) && b.carries(p);
        assert(a.reach.admits(p.destination));
    }
    lemma_meets(a.reach, b.reach);
    lemma_meets(b.reach, a.reach);
}

impl<'a> View for Flow<'a> {
    type V = FlowClass;

    open spec fn view(&self) -> FlowClass {
        FlowClass {
            protocol: self.protocol,
            ingress: self.ingress@,
            egress: self.egress@,
            port: self.port,
            reach: self.reach,
        }
    }
}

impl<'a> Flow<'a> {
    /// Whether a datagram exists in both flows.
    pub fn overlaps(&self, other: &Flow) -> (r: bool)
        ensures
            r == self@.overlaps(other@),
    {
        self.ingress.same(other.ingress) && self.egress.same(other.egress) && self.port
            == other.port && self.reach.overlaps(other.reach)
    }
}

/// What the flows are.
pub open spec fn classes<'a>(s: Seq<Flow<'a>>) -> Seq<FlowClass> {
    Seq::new(s.len(), |i: int| s[i]@)
}

/// A relayed port's destinations: each group, then the broadcast where it is relayed.
pub open spec fn port_destinations(port: u16, groups: Seq<IpAddr>, broadcast: bool) -> Seq<
    (u16, Reach),
> {
    let to_groups = Seq::new(groups.len(), |i: int| (port, Reach::Group(groups[i])));
    if broadcast {
        to_groups.push((port, Reach::Broadcast))
    } else {
        to_groups
    }
}

/// The destinations of each port in order.
pub open spec fn destinations(ports: Seq<Port>, groups: Seq<IpAddr>, broadcast: bool) -> Seq<
    (u16, Reach),
>
    decreases ports.len(),
{
    if ports.len() == 0 {
        Seq::empty()
    } else {
        destinations(ports.drop_last(), groups, broadcast) + port_destinations(
            ports.last().number,
            groups,
            broadcast,
        )
    }
}

/// The addresses of an optional list, none where there is no list.
fn group_slice(groups: &Option<crate::config::value::GroupList>) -> (r: &[IpAddr])
    ensures
        r@ == config::items(config::listed(*groups)),
{
    match groups {
        Some(list) => list.items.as_slice(),
        None => {
            let r: &[IpAddr] = &[];
            assert(r@ =~= Seq::<IpAddr>::empty());
            r
        },
    }
}

impl UdpRelay {
    /// Each port with each destination that the relay captures on it.
    pub fn destinations(&self) -> (r: Vec<(u16, Reach)>)
        ensures
            r@ == destinations(self@.ports, config::items(self@.groups), self@.broadcast),
    {
        let groups = group_slice(&self.groups);
        let mut r: Vec<(u16, Reach)> = Vec::new();
        let mut i: usize = 0;
        while i < self.ports.items.len()
            invariant
                i <= self.ports@.len(),
                groups@ == config::items(self@.groups),
                r@ == destinations(self.ports@.take(i as int), groups@, self.broadcast),
            decreases self.ports@.len() - i,
        {
            let port: u16 = self.ports.items[i].number;
            let ghost before = r@;
            let mut j: usize = 0;
            while j < groups.len()
                invariant
                    j <= groups@.len(),
                    r@ == before + port_destinations(port, groups@.take(j as int), false),
                decreases groups@.len() - j,
            {
                r.push((port, Reach::Group(groups[j])));
                assert(port_destinations(port, groups@.take(j as int + 1), false)
                    =~= port_destinations(port, groups@.take(j as int), false).push(
                    (port, Reach::Group(groups@[j as int])),
                ));
                j += 1;
            }
            assert(groups@.take(j as int) =~= groups@);
            if self.broadcast {
                r.push((port, Reach::Broadcast));
            }
            assert(r@ =~= before + port_destinations(port, groups@, self.broadcast));
            assert(self.ports@.take(i as int + 1).drop_last() =~= self.ports@.take(i as int));
            i += 1;
        }
        assert(self.ports@.take(i as int) =~= self.ports@);
        r
    }
}

/// The flows of a discovery protocol: both legs for each group of a family that the entry uses.
pub open spec fn discovery(e: Entry, protocol: Protocol, port: u16, groups: Seq<IpAddr>) -> Seq<
    FlowClass,
>
    decreases groups.len(),
{
    if groups.len() == 0 {
        Seq::empty()
    } else {
        let before = discovery(e, protocol, port, groups.drop_last());
        if e.address_family.uses(groups.last()) {
            let reach = Reach::Group(groups.last());
            before + seq![
                FlowClass { protocol, ingress: e.source_if, egress: e.target_if, port, reach },
                FlowClass { protocol, ingress: e.target_if, egress: e.source_if, port, reach },
            ]
        } else {
            before
        }
    }
}

/// Where mDNS messages go.
pub open spec fn mdns_groups() -> Seq<IpAddr> {
    seq![IpAddr::V4(mdns_group_v4()), IpAddr::V6(mdns_group_v6())]
}

/// Where SSDP messages go.
pub open spec fn ssdp_groups() -> Seq<IpAddr> {
    seq![
        IpAddr::V4(ssdp_group_v4()),
        IpAddr::V6(ssdp_group_v6_link_local()),
        IpAddr::V6(ssdp_group_v6_site_local()),
    ]
}

/// Where WS-Discovery messages go.
pub open spec fn wsd_groups() -> Seq<IpAddr> {
    seq![IpAddr::V4(wsd_group_v4()), IpAddr::V6(wsd_group_v6())]
}

/// The flows of the discovery protocols that the entry enables.
pub open spec fn discovery_flows(e: Entry) -> Seq<FlowClass> {
    (if e.mdns {
        discovery(e, Protocol::Mdns, MDNS_PORT, mdns_groups())
    } else {
        Seq::empty()
    }) + (if e.ssdp is Some {
        discovery(e, Protocol::Ssdp, SSDP_PORT, ssdp_groups())
    } else {
        Seq::empty()
    }) + (if e.wsd {
        discovery(e, Protocol::Wsd, WSD_PORT, wsd_groups())
    } else {
        Seq::empty()
    })
}

/// The Wake-on-LAN flows of one direction: any destination on each port.
pub open spec fn wol_flows(
    family: AddressFamily,
    ingress: Seq<char>,
    egress: Seq<char>,
    ports: Seq<Port>,
) -> Seq<FlowClass> {
    Seq::new(
        ports.len(),
        |i: int|
            FlowClass {
                protocol: Protocol::Wol,
                ingress,
                egress,
                port: ports[i].number,
                reach: Reach::Any(family),
            },
    )
}

/// The relay's flows of one direction.
pub open spec fn relay_flows(
    ingress: Seq<char>,
    egress: Seq<char>,
    to: Seq<(u16, Reach)>,
) -> Seq<FlowClass> {
    Seq::new(
        to.len(),
        |i: int|
            FlowClass {
                protocol: Protocol::Udp,
                ingress,
                egress,
                port: to[i].0,
                reach: to[i].1,
            },
    )
}

/// The Wake-on-LAN and relay flows of one direction.
pub open spec fn direction_flows(e: Entry, ingress: Seq<char>, egress: Seq<char>) -> Seq<FlowClass> {
    (match e.wol {
        Some(ports) => wol_flows(e.address_family, ingress, egress, ports),
        None => Seq::empty(),
    }) + (match e.udp {
        Some(udp) => relay_flows(
            ingress,
            egress,
            destinations(udp.ports, config::items(udp.groups), udp.broadcast),
        ),
        None => Seq::empty(),
    })
}

/// The `(source, target)` pairs an entry relays over: its own, plus the reverse when
/// bidirectional.
pub open spec fn directions(e: Entry) -> Seq<(Seq<char>, Seq<char>)> {
    if e.bidirectional {
        seq![(e.source_if, e.target_if), (e.target_if, e.source_if)]
    } else {
        seq![(e.source_if, e.target_if)]
    }
}

/// Every flow the entry's protocols relay. mDNS, SSDP and WSD capture on both interfaces whatever
/// the entry's direction, queries on the source and responses on the target, for the groups of the
/// families the entry uses; Wake-on-LAN admits anything on its ports and the relay its groups and
/// broadcast, each on the entry's directions.
pub open spec fn flows(e: Entry) -> Seq<FlowClass> {
    discovery_flows(e) + direction_flows(e, e.source_if, e.target_if) + (if e.bidirectional {
        direction_flows(e, e.target_if, e.source_if)
    } else {
        Seq::empty()
    })
}

/// A relay flow of `mine` overlaps `other`.
pub open spec fn doubled(mine: Seq<FlowClass>, other: FlowClass) -> bool {
    exists|i: int|
        0 <= i < mine.len() && (#[trigger] mine[i]).protocol == Protocol::Udp && mine[i].overlaps(
            other,
        )
}

/// The first of `others` whose datagrams a relay flow of `mine` would carry a second time, as its
/// protocol and port.
pub open spec fn relay_overlap(mine: Seq<FlowClass>, others: Seq<FlowClass>) -> Option<
    (Protocol, u16),
>
    decreases others.len(),
{
    if others.len() == 0 {
        None
    } else if doubled(mine, others[0]) {
        Some((others[0].protocol, others[0].port))
    } else {
        relay_overlap(mine, others.skip(1))
    }
}

/// The flows that are not the relay's.
pub open spec fn without_relay(s: Seq<FlowClass>) -> Seq<FlowClass>
    decreases s.len(),
{
    if s.len() == 0 {
        Seq::empty()
    } else {
        let before = without_relay(s.drop_last());
        if s.last().protocol == Protocol::Udp {
            before
        } else {
            before.push(s.last())
        }
    }
}

/// The protocol and port the entry's own UDP relay would carry a second time, if any.
pub open spec fn relay_duplicates(e: Entry) -> Option<(Protocol, u16)> {
    relay_overlap(flows(e), without_relay(flows(e)))
}

/// A protocol both enable on a shared direction with overlapping MAC selection and address family
/// (for `WoL`, also a shared port).
pub open spec fn shared_protocol(a: Entry, b: Entry) -> Option<Protocol> {
    if !unique_list::shared(directions(a), directions(b)) || !common_mac(a.macs, b.macs)
        || !common_family(a.address_family, b.address_family) {
        None
    } else if a.wol is Some && b.wol is Some && unique_list::shared(a.wol->0, b.wol->0) {
        Some(Protocol::Wol)
    } else if a.mdns && b.mdns {
        Some(Protocol::Mdns)
    } else if a.ssdp is Some && b.ssdp is Some {
        Some(Protocol::Ssdp)
    } else if a.wsd && b.wsd {
        Some(Protocol::Wsd)
    } else {
        None
    }
}

/// The protocol on which two entries would reflect the same packet twice, if any: a protocol both
/// enable, or a flow of one the UDP relay of the other overlaps.
pub open spec fn conflict(a: Entry, b: Entry) -> Option<Protocol> {
    match shared_protocol(a, b) {
        Some(protocol) => Some(protocol),
        None => match relay_overlap(flows(a), flows(b)) {
            Some((protocol, _)) => Some(protocol),
            None => match relay_overlap(flows(b), flows(a)) {
                Some((protocol, _)) => Some(protocol),
                None => None,
            },
        },
    }
}

/// What is wrong between two entries, the first listed in front of the second.
pub open spec fn pair_fault(a: Entry, b: Entry) -> Option<Fault> {
    if a.name == b.name {
        Some(Fault::DuplicateReflectorName { name: a.name })
    } else {
        match conflict(a, b) {
            Some(protocol) => Some(
                Fault::ConflictingReflectors {
                    protocol,
                    first: a.name,
                    second: b.name,
                    source_if: a.source_if,
                    target_if: a.target_if,
                },
            ),
            None => None,
        }
    }
}

/// The first thing wrong between the entry at `i` and those from `j` on.
pub open spec fn row_fault(s: Seq<Entry>, i: int, j: int) -> Option<Fault>
    decreases s.len() - j,
{
    if j >= s.len() {
        None
    } else {
        match pair_fault(s[i], s[j]) {
            Some(fault) => Some(fault),
            None => row_fault(s, i, j + 1),
        }
    }
}

/// The first thing wrong between an entry from `i` on and one behind it.
pub open spec fn conflicts_from(s: Seq<Entry>, i: int) -> Option<Fault>
    decreases s.len() - i,
{
    if i >= s.len() {
        None
    } else {
        match row_fault(s, i, i + 1) {
            Some(fault) => Some(fault),
            None => conflicts_from(s, i + 1),
        }
    }
}

proof fn lemma_relay_overlap(mine: Seq<FlowClass>, others: Seq<FlowClass>, n: int)
    requires
        0 <= n <= others.len(),
        forall|i: int| 0 <= i < n ==> !doubled(mine, #[trigger] others[i]),
        n < others.len() ==> doubled(mine, others[n]),
    ensures
        relay_overlap(mine, others) == if n < others.len() {
            Some((others[n].protocol, others[n].port))
        } else {
            None
        },
    decreases n,
{
    if n > 0 {
        let t = others.skip(1);
        assert(!doubled(mine, others[0]));
        assert forall|i: int| 0 <= i < n - 1 implies !doubled(mine, #[trigger] t[i]) by {
            assert(t[i] == others[i + 1]);
        }
        lemma_relay_overlap(mine, t, n - 1);
    }
}

/// There is an overlap when, and only when, some flow of the others is doubled.
pub proof fn lemma_overlap_exists(mine: Seq<FlowClass>, others: Seq<FlowClass>)
    ensures
        relay_overlap(mine, others) is Some <==> exists|j: int|
            0 <= j < others.len() && doubled(mine, #[trigger] others[j]),
    decreases others.len(),
{
    if others.len() > 0 {
        let t = others.skip(1);
        lemma_overlap_exists(mine, t);
        if doubled(mine, others[0]) {
        } else {
            if exists|j: int| 0 <= j < others.len() && doubled(mine, #[trigger] others[j]) {
                let j: int = choose|j: int|
                    0 <= j < others.len() && doubled(mine, #[trigger] others[j]);
                assert(t[j - 1] == others[j]);
            }
            if exists|j: int| 0 <= j < t.len() && doubled(mine, #[trigger] t[j]) {
                let j: int = choose|j: int| 0 <= j < t.len() && doubled(mine, #[trigger] t[j]);
                assert(t[j] == others[j + 1]);
            }
        }
    }
}

/// Appending a flow appends what it is.
proof fn lemma_classes_push<'a>(s: Seq<Flow<'a>>, f: Flow<'a>)
    ensures
        classes(s.push(f)) == classes(s).push(f@),
{
    assert(classes(s.push(f)) =~= classes(s).push(f@));
}

/// The first of `others` that a relay flow of `mine` doubles, as its protocol and port.
fn first_doubled(mine: &Vec<Flow>, others: &Vec<Flow>) -> (r: Option<(Protocol, u16)>)
    ensures
        r == relay_overlap(classes(mine@), classes(others@)),
{
    let ghost m = classes(mine@);
    let ghost o = classes(others@);
    let mut j: usize = 0;
    while j < others.len()
        invariant
            j <= others@.len(),
            m == classes(mine@),
            o == classes(others@),
            forall|i: int| 0 <= i < j ==> !doubled(m, #[trigger] o[i]),
        decreases others@.len() - j,
    {
        let mut i: usize = 0;
        while i < mine.len()
            invariant
                i <= mine@.len(),
                j < others@.len(),
                m == classes(mine@),
                o == classes(others@),
                forall|k: int| 0 <= k < j ==> !doubled(m, #[trigger] o[k]),
                forall|k: int|
                    0 <= k < i ==> !((#[trigger] m[k]).protocol == Protocol::Udp && m[k].overlaps(
                        o[j as int],
                    )),
            decreases mine@.len() - i,
        {
            assert(m[i as int] == mine@[i as int]@);
            assert(o[j as int] == others@[j as int]@);
            if mine[i].protocol == Protocol::Udp && mine[i].overlaps(&others[j]) {
                assert(doubled(m, o[j as int]));
                proof {
                    lemma_relay_overlap(m, o, j as int);
                }
                return Some((others[j].protocol, others[j].port));
            }
            i += 1;
        }
        assert(!doubled(m, o[j as int]));
        j += 1;
    }
    proof {
        lemma_relay_overlap(m, o, j as int);
    }
    None
}

impl Reflector {
    /// The `(source, target)` pairs this entry relays over: its own, plus the reverse when
    /// bidirectional.
    pub fn directions(&self) -> (r: Vec<(&InterfaceName, &InterfaceName)>)
        ensures
            r@.len() == directions(self@).len(),
            forall|i: int|
                0 <= i < r@.len() ==> directions(self@)[i] == ((#[trigger] r@[i]).0@, r@[i].1@),
    {
        let mut r: Vec<(&InterfaceName, &InterfaceName)> = Vec::new();
        r.push((&self.source_if, &self.target_if));
        if self.bidirectional {
            r.push((&self.target_if, &self.source_if));
        }
        r
    }

    /// Append the flows of a discovery protocol.
    fn push_discovery<'a>(
        &'a self,
        flows: &mut Vec<Flow<'a>>,
        protocol: Protocol,
        port: u16,
        groups: &[IpAddr],
    )
        ensures
            classes(final(flows)@) == classes(old(flows)@) + discovery(
                self@,
                protocol,
                port,
                groups@,
            ),
    {
        let mut i: usize = 0;
        assert(classes(flows@) =~= classes(flows@) + discovery(
            self@,
            protocol,
            port,
            groups@.take(0),
        ));
        while i < groups.len()
            invariant
                i <= groups@.len(),
                classes(flows@) == classes(old(flows)@) + discovery(
                    self@,
                    protocol,
                    port,
                    groups@.take(i as int),
                ),
            decreases groups@.len() - i,
        {
            let group: IpAddr = groups[i];
            let ghost t = groups@.take(i as int + 1);
            assert(t.drop_last() =~= groups@.take(i as int));
            assert(t.last() == group);
            if self.address_family.uses(group) {
                let there = Flow {
                    protocol,
                    ingress: &self.source_if,
                    egress: &self.target_if,
                    port,
                    reach: Reach::Group(group),
                };
                let back = Flow {
                    protocol,
                    ingress: &self.target_if,
                    egress: &self.source_if,
                    port,
                    reach: Reach::Group(group),
                };
                proof {
                    lemma_classes_push(flows@, there);
                    lemma_classes_push(flows@.push(there), back);
                }
                flows.push(there);
                flows.push(back);
                assert(classes(flows@) =~= classes(old(flows)@) + discovery(
                    self@,
                    protocol,
                    port,
                    t,
                ));
            }
            i += 1;
        }
        assert(groups@.take(i as int) =~= groups@);
    }

    /// Append the Wake-on-LAN and relay flows of one direction.
    fn push_direction<'a>(
        &'a self,
        flows: &mut Vec<Flow<'a>>,
        ingress: &'a InterfaceName,
        egress: &'a InterfaceName,
    )
        ensures
            classes(final(flows)@) == classes(old(flows)@) + direction_flows(
                self@,
                ingress@,
                egress@,
            ),
    {
        let ghost start = classes(flows@);
        let ghost family = self.address_family;
        let ghost wol_part = match self@.wol {
            Some(ports) => wol_flows(family, ingress@, egress@, ports),
            None => Seq::empty(),
        };
        match &self.wol {
            Some(wol) => {
                let mut i: usize = 0;
                assert(classes(flows@) =~= start + wol_flows(
                    family,
                    ingress@,
                    egress@,
                    wol.ports@.take(0),
                ));
                while i < wol.ports.items.len()
                    invariant
                        i <= wol.ports@.len(),
                        family == self.address_family,
                        classes(flows@) == start + wol_flows(
                            family,
                            ingress@,
                            egress@,
                            wol.ports@.take(i as int),
                        ),
                    decreases wol.ports@.len() - i,
                {
                    let flow = Flow {
                        protocol: Protocol::Wol,
                        ingress,
                        egress,
                        port: wol.ports.items[i].number,
                        reach: Reach::Any(self.address_family),
                    };
                    proof {
                        lemma_classes_push(flows@, flow);
                    }
                    flows.push(flow);
                    assert(classes(flows@) =~= start + wol_flows(
                        family,
                        ingress@,
                        egress@,
                        wol.ports@.take(i as int + 1),
                    ));
                    i += 1;
                }
                assert(wol.ports@.take(i as int) =~= wol.ports@);
            },
            None => {},
        }
        assert(classes(flows@) =~= start + wol_part);
        match &self.udp {
            Some(udp) => {
                let to = udp.destinations();
                let ghost middle = classes(flows@);
                let mut i: usize = 0;
                assert(classes(flows@) =~= middle + relay_flows(ingress@, egress@, to@.take(0)));
                while i < to.len()
                    invariant
                        i <= to@.len(),
                        classes(flows@) == middle + relay_flows(
                            ingress@,
                            egress@,
                            to@.take(i as int),
                        ),
                    decreases to@.len() - i,
                {
                    let flow = Flow {
                        protocol: Protocol::Udp,
                        ingress,
                        egress,
                        port: to[i].0,
                        reach: to[i].1,
                    };
                    proof {
                        lemma_classes_push(flows@, flow);
                    }
                    flows.push(flow);
                    assert(classes(flows@) =~= middle + relay_flows(
                        ingress@,
                        egress@,
                        to@.take(i as int + 1),
                    ));
                    i += 1;
                }
                assert(to@.take(i as int) =~= to@);
            },
            None => {},
        }
        assert(classes(flows@) =~= start + direction_flows(self@, ingress@, egress@));
    }

    /// Every flow the entry's protocols relay.
    pub fn flows(&self) -> (r: Vec<Flow>)
        ensures
            classes(r@) == flows(self@),
    {
        let mut r: Vec<Flow> = Vec::new();
        assert(classes(r@) =~= Seq::<FlowClass>::empty());
        if self.mdns {
            let groups = [IpAddr::V4(mdns_group_v4()), IpAddr::V6(mdns_group_v6())];
            assert(groups@ =~= mdns_groups());
            self.push_discovery(&mut r, Protocol::Mdns, MDNS_PORT, &groups);
        }
        if self.ssdp.is_some() {
            let groups = [
                IpAddr::V4(ssdp_group_v4()),
                IpAddr::V6(ssdp_group_v6_link_local()),
                IpAddr::V6(ssdp_group_v6_site_local()),
            ];
            assert(groups@ =~= ssdp_groups());
            self.push_discovery(&mut r, Protocol::Ssdp, SSDP_PORT, &groups);
        }
        if self.wsd {
            let groups = [IpAddr::V4(wsd_group_v4()), IpAddr::V6(wsd_group_v6())];
            assert(groups@ =~= wsd_groups());
            self.push_discovery(&mut r, Protocol::Wsd, WSD_PORT, &groups);
        }
        assert(classes(r@) =~= discovery_flows(self@));
        self.push_direction(&mut r, &self.source_if, &self.target_if);
        if self.bidirectional {
            self.push_direction(&mut r, &self.target_if, &self.source_if);
        }
        assert(classes(r@) =~= flows(self@));
        r
    }

    /// The protocol on which `self` and `other` would reflect the same packet twice, if any: a
    /// protocol both enable, or a flow of one the UDP relay of the other overlaps. Two discovery
    /// protocols on one port don't duplicate: each classifier admits only its own messages. The
    /// relay admits every datagram it captures, so it duplicates any protocol capturing the same on
    /// the same leg, and the conflict is named after that protocol.
    pub fn conflicts_with(&self, other: &Reflector) -> (r: Option<Protocol>)
        ensures
            r == conflict(self@, other@),
    {
        match self.shared_protocol(other) {
            Some(protocol) => return Some(protocol),
            None => {},
        }
        match self.relay_overlap(&other.flows()) {
            Some((protocol, _)) => Some(protocol),
            None => match other.relay_overlap(&self.flows()) {
                Some((protocol, _)) => Some(protocol),
                None => None,
            },
        }
    }

    /// A protocol both enable on a shared direction with overlapping MAC selection and address
    /// family (for `WoL`, also a shared port).
    pub fn shared_protocol(&self, other: &Reflector) -> (r: Option<Protocol>)
        ensures
            r == shared_protocol(self@, other@),
    {
        if !self.shares_direction(other) {
            return None;
        }
        if !macs_overlap(&self.macs, &other.macs) || !families_overlap(
            self.address_family,
            other.address_family,
        ) {
            return None;
        }
        match (&self.wol, &other.wol) {
            (Some(a), Some(b)) => {
                if a.ports.shares(&b.ports) {
                    return Some(Protocol::Wol);
                }
            },
            _ => {},
        }
        if self.mdns && other.mdns {
            return Some(Protocol::Mdns);
        }
        if self.ssdp.is_some() && other.ssdp.is_some() {
            return Some(Protocol::Ssdp);
        }
        if self.wsd && other.wsd {
            return Some(Protocol::Wsd);
        }
        None
    }

    /// Whether both relay over some pair of interfaces, in the same direction.
    fn shares_direction(&self, other: &Reflector) -> (r: bool)
        ensures
            r == unique_list::shared(directions(self@), directions(other@)),
    {
        let mine = self.directions();
        let theirs = other.directions();
        let ghost m = directions(self@);
        let ghost t = directions(other@);
        let mut i: usize = 0;
        while i < mine.len()
            invariant
                i <= mine@.len() == m.len(),
                theirs@.len() == t.len(),
                m == directions(self@),
                t == directions(other@),
                forall|k: int| 0 <= k < m.len() ==> m[k] == ((#[trigger] mine@[k]).0@, mine@[k].1@),
                forall|k: int|
                    0 <= k < t.len() ==> t[k] == ((#[trigger] theirs@[k]).0@, theirs@[k].1@),
                forall|k: int| 0 <= k < i ==> !t.contains(#[trigger] m[k]),
            decreases mine@.len() - i,
        {
            let mut j: usize = 0;
            while j < theirs.len()
                invariant
                    i < mine@.len() == m.len(),
                    j <= theirs@.len() == t.len(),
                    m == directions(self@),
                    t == directions(other@),
                    forall|k: int|
                        0 <= k < m.len() ==> m[k] == ((#[trigger] mine@[k]).0@, mine@[k].1@),
                    forall|k: int|
                        0 <= k < t.len() ==> t[k] == ((#[trigger] theirs@[k]).0@, theirs@[k].1@),
                    forall|k: int| 0 <= k < i ==> !t.contains(#[trigger] m[k]),
                    forall|k: int| 0 <= k < j ==> #[trigger] t[k] != m[i as int],
                decreases theirs@.len() - j,
            {
                assert(m[i as int] == (mine@[i as int].0@, mine@[i as int].1@));
                assert(t[j as int] == (theirs@[j as int].0@, theirs@[j as int].1@));
                if mine[i].0.same(theirs[j].0) && mine[i].1.same(theirs[j].1) {
                    assert(t.contains(m[i as int]));
                    return true;
                }
                j += 1;
            }
            i += 1;
        }
        false
    }

    /// The first of `others` whose datagrams the entry's UDP relay would carry a second time, as
    /// its protocol and port.
    pub fn relay_overlap(&self, others: &Vec<Flow>) -> (r: Option<(Protocol, u16)>)
        ensures
            r == relay_overlap(flows(self@), classes(others@)),
    {
        let mine = self.flows();
        first_doubled(&mine, others)
    }

    /// The protocol and port the entry's own UDP relay would carry a second time, if any.
    pub fn relay_duplicates(&self) -> (r: Option<(Protocol, u16)>)
        ensures
            r == relay_duplicates(self@),
    {
        let flows = self.flows();
        let ghost all = classes(flows@);
        let mut others: Vec<Flow> = Vec::new();
        let mut i: usize = 0;
        assert(classes(others@) =~= without_relay(all.take(0)));
        while i < flows.len()
            invariant
                i <= flows@.len(),
                all == classes(flows@),
                classes(others@) == without_relay(all.take(i as int)),
            decreases flows@.len() - i,
        {
            let flow = flows[i];
            let ghost t = all.take(i as int + 1);
            assert(t.drop_last() =~= all.take(i as int));
            assert(t.last() == flow@);
            if flow.protocol != Protocol::Udp {
                proof {
                    lemma_classes_push(others@, flow);
                }
                others.push(flow);
            }
            i += 1;
        }
        assert(all.take(i as int) =~= all);
        self.relay_overlap(&others)
    }
}

/// Two entries conflict in either order alike.
pub proof fn law_conflict_is_symmetric(a: Entry, b: Entry)
    ensures
        conflict(a, b) is Some <==> conflict(b, a) is Some,
        shared_protocol(a, b) == shared_protocol(b, a),
{
    unique_list::law_sharing_is_symmetric(directions(a), directions(b));
    match (a.macs, b.macs) {
        (Some(x), Some(y)) => unique_list::law_sharing_is_symmetric(x, y),
        _ => {},
    }
    match (a.wol, b.wol) {
        (Some(x), Some(y)) => unique_list::law_sharing_is_symmetric(x, y),
        _ => {},
    }
}

/// Where two entries do not conflict, no datagram passes both through the UDP relay of one and in
/// any flow of the other.
pub proof fn law_no_conflict_relays_nothing_twice(a: Entry, b: Entry, i: int, j: int, p: Passage)
    requires
        conflict(a, b) is None,
        0 <= i < flows(a).len(),
        0 <= j < flows(b).len(),
        flows(a)[i].protocol == Protocol::Udp || flows(b)[j].protocol == Protocol::Udp,
    ensures
        !(flows(a)[i].carries(p) && flows(b)[j].carries(p)),
{
    let f = flows(a)[i];
    let g = flows(b)[j];
    law_overlap_is_a_common_datagram(f, g);
    if f.carries(p) && g.carries(p) {
        assert(f.overlaps(g) && g.overlaps(f));
        if f.protocol == Protocol::Udp {
            assert(doubled(flows(a), g));
            lemma_overlap_exists(flows(a), flows(b));
        } else {
            assert(doubled(flows(b), f));
            lemma_overlap_exists(flows(b), flows(a));
        }
    }
}

proof fn lemma_row(s: Seq<Entry>, i: int, j: int)
    requires
        row_fault(s, i, j) is None,
    ensures
        forall|k: int| j <= k < s.len() ==> pair_fault(s[i], #[trigger] s[k]) is None,
    decreases s.len() - j,
{
    if j < s.len() {
        lemma_row(s, i, j + 1);
    }
}

/// In a list without conflicts no two entries share a name or conflict.
pub proof fn law_accepted_entries_never_conflict(s: Seq<Entry>, i: int, j: int)
    requires
        conflicts_from(s, 0) is None,
        0 <= i < j < s.len(),
    ensures
        s[i].name != s[j].name,
        conflict(s[i], s[j]) is None,
{
    lemma_rows(s, 0, i);
    lemma_row(s, i, i + 1);
    assert(pair_fault(s[i], s[j]) is None);
}

proof fn lemma_rows(s: Seq<Entry>, from: int, i: int)
    requires
        conflicts_from(s, from) is None,
        from <= i < s.len(),
    ensures
        row_fault(s, i, i + 1) is None,
    decreases i - from,
{
    if from < i {
        lemma_rows(s, from + 1, i);
    }
}

/// What the entries are.
pub open spec fn entries(s: Seq<Reflector>) -> Seq<Entry> {
    Seq::new(s.len(), |i: int| s[i]@)
}

/// Reject any pair of reflectors that share a name or would reflect the same packet twice. Names
/// are in canonical form, so comparing them catches keys that only differ in case or whitespace.
pub fn check_conflicts(reflectors: &Vec<Reflector>) -> (r: Result<(), ConfigError>)
    ensures
        match r {
            Ok(_) => conflicts_from(entries(reflectors@), 0) is None,
            Err(e) => conflicts_from(entries(reflectors@), 0) == Some(e@),
        },
{
    let ghost s = entries(reflectors@);
    let mut i: usize = 0;
    while i < reflectors.len()
        invariant
            i <= reflectors@.len(),
            s == entries(reflectors@),
            conflicts_from(s, 0) == conflicts_from(s, i as int),
        decreases reflectors@.len() - i,
    {
        let mut j: usize = i + 1;
        while j < reflectors.len()
            invariant
                i < j <= reflectors@.len(),
                s == entries(reflectors@),
                conflicts_from(s, 0) == conflicts_from(s, i as int),
                row_fault(s, i as int, i + 1) == row_fault(s, i as int, j as int),
            decreases reflectors@.len() - j,
        {
            let a = &reflectors[i];
            let b = &reflectors[j];
            assert(s[i as int] == a@ && s[j as int] == b@);
            if a.name.same(&b.name) {
                return Err(ConfigError::DuplicateReflectorName { name: a.name.clone() });
            }
            match a.conflicts_with(b) {
                Some(protocol) => {
                    return Err(
                        ConfigError::ConflictingReflectors {
                            protocol,
                            first: a.name.clone(),
                            second: b.name.clone(),
                            source_if: a.source_if.clone(),
                            target_if: a.target_if.clone(),
                        },
                    );
                },
                None => {},
            }
            j += 1;
        }
        i += 1;
    }
    Ok(())
}

} // verus!
