//! Configuration loading and validation.
//!
//! A document is decoded into a raw form (`RawConfig`/`RawReflector`) and then validated into the
//! strongly-typed [`Config`]. Typed values make illegal states unrepresentable ([`Wol::ports`]
//! exists only when `WoL` is enabled).
//!
//! Submodules: value types in `value`, errors in `error`, the decoded form in `raw`, the
//! document in `document` and its schema in `schema`. What does not fit the schema is reported with
//! its line and column. Rules on one entry live in `Reflector::try_from`, those
//! between entries in `conflict`; sources are combined in [`Config::from_sources`].

pub mod conflict;
pub mod document;
pub mod error;
pub mod raw;
pub mod schema;
pub mod value;

use std::str::FromStr;

use vstd::prelude::*;

use crate::config::document::Value;
use crate::config::error::{ConfigError, Fault, ParseValueError};
use crate::config::raw::{RawConfig, RawEntry, RawReflector, RawSettings};
use crate::config::schema::{Misfit, Unfit};
use crate::config::value::{
    AddressFamily, GroupList, InterfaceName, LogLevel, ParseLogLevelError, PeerList, Port, PortList,
    Ports, ReflectorName,
};
use crate::net::ip::IpAddr;
use crate::net::mac::{MacAddr, MacSet};
use crate::text;

verus! {

/// Wake-on-LAN settings (present only when `WoL` is enabled for the reflector).
#[derive(PartialEq, Eq, Debug)]
pub struct Wol {
    /// UDP destination ports whose magic packets are reflected.
    pub ports: PortList,
}

/// The ports a `wol = true` entry relays when `wol_ports` is absent.
pub open spec fn wol_default_ports() -> Seq<Port> {
    seq![Port { number: 7 }, Port { number: 9 }]
}

impl Wol {
    pub fn default_ports() -> (r: PortList)
        ensures
            r@ == wol_default_ports(),
            r.wf(),
    {
        let mut items: Vec<Port> = Vec::new();
        items.push(Port { number: 7 });
        items.push(Port { number: 9 });
        assert(items@ =~= wol_default_ports());
        proof {
            crate::unique_list::lemma_two_items::<Ports>(Port { number: 7 }, Port { number: 9 });
        }
        PortList { items }
    }
}

/// The transparent UDP relay's settings (present only when `udp_ports` is set).
#[derive(PartialEq, Eq, Debug)]
pub struct UdpRelay {
    /// Destination ports whose datagrams are relayed as sent.
    pub ports: PortList,
    /// Multicast groups to join and relay on those ports.
    pub groups: Option<GroupList>,
    /// Whether broadcasts on those ports are relayed too.
    pub broadcast: bool,
}

/// SSDP settings (present only when SSDP is enabled for the reflector).
#[derive(Clone, Copy, PartialEq, Eq, Structural, Debug)]
pub struct Ssdp {
    /// Whether the DIAL HTTP proxy is layered on top of SSDP.
    pub dial: bool,
}

/// One reflector: bridges `source_if` → `target_if` for the enabled protocols.
#[derive(PartialEq, Eq, Debug)]
pub struct Reflector {
    /// Display name for logs, from the `[reflectors.<name>]` key or the environment.
    pub name: ReflectorName,
    /// Interface to listen on.
    pub source_if: InterfaceName,
    /// Interface to emit on (always different from `source_if`).
    pub target_if: InterfaceName,
    /// The hosts behind `source_if` / `target_if` when that interface has no broadcast domain:
    /// a group or broadcast re-emitted there goes to each of them as unicast instead.
    pub source_peers: Option<PeerList>,
    pub target_peers: Option<PeerList>,
    /// Optional device allow-filter; `None` matches any device, `Some` a non-empty set.
    pub macs: Option<MacSet>,
    /// IP-version policy for this reflector.
    pub address_family: AddressFamily,
    /// Wake-on-LAN settings, or `None` when `WoL` is disabled.
    pub wol: Option<Wol>,
    pub mdns: bool,
    /// SSDP settings, or `None` when SSDP is disabled.
    pub ssdp: Option<Ssdp>,
    /// Whether WS-Discovery (WSD) is enabled.
    pub wsd: bool,
    /// Also relay every enabled protocol target → source: the entry is built a second time with
    /// its interfaces swapped.
    pub bidirectional: bool,
    /// The transparent UDP relay, or `None` when `udp_ports` is unset.
    pub udp: Option<UdpRelay>,
}

/// What a UDP relay is set to.
pub struct Relay {
    pub ports: Seq<Port>,
    pub groups: Option<Seq<IpAddr>>,
    pub broadcast: bool,
}

/// What a reflector is set to.
pub struct Entry {
    pub name: Seq<char>,
    pub source_if: Seq<char>,
    pub target_if: Seq<char>,
    pub source_peers: Option<Seq<IpAddr>>,
    pub target_peers: Option<Seq<IpAddr>>,
    pub macs: Option<Seq<MacAddr>>,
    pub address_family: AddressFamily,
    pub wol: Option<Seq<Port>>,
    pub mdns: bool,
    pub ssdp: Option<Ssdp>,
    pub wsd: bool,
    pub bidirectional: bool,
    pub udp: Option<Relay>,
}

/// The items of an optional list.
pub open spec fn listed<R: crate::unique_list::ListRule>(
    list: Option<crate::unique_list::UniqueList<R>>,
) -> Option<Seq<R::Item>> {
    match list {
        Some(list) => Some(list@),
        None => None,
    }
}

/// The items of an optional list, none where there is no list.
pub open spec fn items<T>(list: Option<Seq<T>>) -> Seq<T> {
    match list {
        Some(list) => list,
        None => Seq::empty(),
    }
}

/// An optional list is one that its rule accepts.
pub open spec fn list_wf<R: crate::unique_list::ListRule>(
    list: Option<crate::unique_list::UniqueList<R>>,
) -> bool {
    match list {
        Some(list) => list.wf(),
        None => true,
    }
}

impl View for UdpRelay {
    type V = Relay;

    open spec fn view(&self) -> Relay {
        Relay { ports: self.ports@, groups: listed(self.groups), broadcast: self.broadcast }
    }
}

impl View for Reflector {
    type V = Entry;

    open spec fn view(&self) -> Entry {
        Entry {
            name: self.name@,
            source_if: self.source_if@,
            target_if: self.target_if@,
            source_peers: listed(self.source_peers),
            target_peers: listed(self.target_peers),
            macs: listed(self.macs),
            address_family: self.address_family,
            wol: match self.wol {
                Some(wol) => Some(wol.ports@),
                None => None,
            },
            mdns: self.mdns,
            ssdp: self.ssdp,
            wsd: self.wsd,
            bidirectional: self.bidirectional,
            udp: match self.udp {
                Some(udp) => Some(udp@),
                None => None,
            },
        }
    }
}

impl Entry {
    /// The entry with its interfaces swapped.
    pub open spec fn reversed(self) -> Entry {
        Entry {
            source_if: self.target_if,
            target_if: self.source_if,
            source_peers: self.target_peers,
            target_peers: self.source_peers,
            ..self
        }
    }
}

/// Reversing twice gives the entry back.
pub proof fn law_reversing_twice_is_the_entry(e: Entry)
    ensures
        e.reversed().reversed() == e,
{
}

/// The same list again, if there is one.
fn copied<R: crate::unique_list::ListRule>(
    list: &Option<crate::unique_list::UniqueList<R>>,
) -> (r: Option<crate::unique_list::UniqueList<R>>)
    ensures
        listed(r) == listed(*list),
        list_wf(*list) ==> list_wf(r),
{
    match list {
        Some(list) => Some(list.copied()),
        None => None,
    }
}

impl Reflector {
    /// Each list of the entry is one that its rule accepts.
    pub open spec fn wf(&self) -> bool {
        &&& list_wf(self.source_peers)
        &&& list_wf(self.target_peers)
        &&& list_wf(self.macs)
        &&& self.wol matches Some(wol) ==> wol.ports.wf()
        &&& self.udp matches Some(udp) ==> udp.ports.wf() && list_wf(udp.groups)
    }

    /// This entry with its interfaces swapped: the second leg of a bidirectional entry, built
    /// exactly like the first.
    pub fn reversed(&self) -> (r: Reflector)
        ensures
            r@ == self@.reversed(),
            self.wf() ==> r.wf(),
    {
        let wol: Option<Wol> = match &self.wol {
            Some(wol) => Some(Wol { ports: wol.ports.copied() }),
            None => None,
        };
        let udp: Option<UdpRelay> = match &self.udp {
            Some(udp) => Some(
                UdpRelay {
                    ports: udp.ports.copied(),
                    groups: copied(&udp.groups),
                    broadcast: udp.broadcast,
                },
            ),
            None => None,
        };
        Reflector {
            name: self.name.clone(),
            source_if: self.target_if.clone(),
            target_if: self.source_if.clone(),
            source_peers: copied(&self.target_peers),
            target_peers: copied(&self.source_peers),
            macs: copied(&self.macs),
            address_family: self.address_family,
            wol,
            mdns: self.mdns,
            ssdp: self.ssdp,
            wsd: self.wsd,
            bidirectional: self.bidirectional,
            udp,
        }
    }
}

/// The first address of a family that is not used, if any.
pub open spec fn foreign(family: AddressFamily, s: Seq<IpAddr>) -> Option<IpAddr>
    decreases s.len(),
{
    if s.len() == 0 {
        None
    } else if !family.uses(s[0]) {
        Some(s[0])
    } else {
        foreign(family, s.skip(1))
    }
}

/// The first listed peer of a family the entry's `address_family` does not use, if any.
pub open spec fn foreign_peer(raw: RawEntry) -> Option<IpAddr> {
    match foreign(raw.address_family, items(raw.source_peers)) {
        Some(peer) => Some(peer),
        None => foreign(raw.address_family, items(raw.target_peers)),
    }
}

/// The peers parameter an mDNS entry's answers would go to, if any: `source_peers`, or
/// `target_peers` once the entry is bidirectional.
pub open spec fn answered_peers(raw: RawEntry) -> Option<Seq<char>> {
    if !raw.mdns {
        None
    } else if raw.source_peers is Some {
        Some("source_peers"@)
    } else if raw.bidirectional && raw.target_peers is Some {
        Some("target_peers"@)
    } else {
        None
    }
}

/// What is wrong with the entry's peers: one of a family it does not use, or peers where an mDNS
/// answer goes.
pub open spec fn peers_fault(raw: RawEntry, name: Seq<char>) -> Option<Fault> {
    match foreign_peer(raw) {
        Some(peer) => Some(Fault::PeerFamily { name, peer }),
        None => match answered_peers(raw) {
            Some(param) => Some(Fault::MdnsAnswersToPeers { name, param }),
            None => None,
        },
    }
}

/// The UDP relay that the entry sets, if any.
pub open spec fn relay(raw: RawEntry, name: Seq<char>) -> Result<Option<Relay>, Fault> {
    match raw.udp_ports {
        None => if raw.udp_groups is None && !raw.udp_broadcast {
            Ok(None)
        } else {
            Err(Fault::UdpRelayWithoutPorts { name })
        },
        Some(ports) => if raw.udp_groups is None && !raw.udp_broadcast {
            Err(Fault::UdpRelayNoDestination { name })
        } else if raw.udp_broadcast && !raw.address_family.uses_ipv4() {
            Err(Fault::UdpBroadcastFamily { name })
        } else {
            match foreign(raw.address_family, items(raw.udp_groups)) {
                Some(group) => Err(Fault::UdpGroupFamily { name, group }),
                None => Ok(
                    Some(Relay { ports, groups: raw.udp_groups, broadcast: raw.udp_broadcast }),
                ),
            }
        },
    }
}

/// What is wrong with the protocols that the entry enables beside its relay.
pub open spec fn protocol_fault(raw: RawEntry, udp: Option<Relay>, name: Seq<char>) -> Option<
    Fault,
> {
    let discovers = raw.wol || raw.mdns || raw.ssdp || raw.wsd;
    if !discovers && udp is None {
        Some(Fault::NoProtocol { name })
    } else if raw.wol_ports is Some && !raw.wol {
        Some(Fault::WolPortsWithoutWol { name })
    } else if raw.macs is Some && !discovers {
        Some(Fault::MacsUnused { name })
    } else if raw.dial && !raw.ssdp {
        Some(Fault::DialWithoutSsdp { name })
    } else if raw.dial && !raw.address_family.uses_ipv4() {
        Some(Fault::DialRequiresIpv4 { name })
    } else {
        None
    }
}

/// The entry that the raw one sets, under its name and with its relay.
pub open spec fn settled(raw: RawEntry, udp: Option<Relay>, name: Seq<char>) -> Entry {
    Entry {
        name,
        source_if: raw.source_if,
        target_if: raw.target_if,
        source_peers: raw.source_peers,
        target_peers: raw.target_peers,
        macs: raw.macs,
        address_family: raw.address_family,
        wol: if raw.wol {
            match raw.wol_ports {
                Some(ports) => Some(ports),
                None => Some(wol_default_ports()),
            }
        } else {
            None
        },
        mdns: raw.mdns,
        ssdp: if raw.ssdp {
            Some(Ssdp { dial: raw.dial })
        } else {
            None
        },
        wsd: raw.wsd,
        bidirectional: raw.bidirectional,
        udp,
    }
}

/// The entry that a raw one under the name `name` is, or the first rule that it breaks.
pub open spec fn named_entry(raw: RawEntry, name: Seq<char>) -> Result<Entry, Fault> {
    match peers_fault(raw, name) {
        Some(fault) => Err(fault),
        None => if raw.source_if == raw.target_if {
            Err(Fault::SameInterface { name, value: raw.source_if })
        } else {
            match relay(raw, name) {
                Err(fault) => Err(fault),
                Ok(udp) => match protocol_fault(raw, udp, name) {
                    Some(fault) => Err(fault),
                    None => match conflict::relay_duplicates(settled(raw, udp, name)) {
                        Some((protocol, port)) => Err(
                            Fault::UdpRelayDuplicates { name, port, protocol },
                        ),
                        None => Ok(settled(raw, udp, name)),
                    },
                },
            }
        },
    }
}

/// The entry that a raw one under the table key `key` is, or the first rule that it breaks. A name
/// set by the environment stands in the key's place.
pub open spec fn entry(key: Seq<char>, raw: RawEntry) -> Result<Entry, Fault> {
    match raw.name {
        Some(name) => named_entry(raw, name),
        None => if text::trimmed(key).len() == 0 {
            Err(Fault::EmptyReflectorName { key })
        } else {
            named_entry(raw, value::canonical_name(key))
        },
    }
}

/// An accepted entry emits on another interface than it listens on, enables a protocol, applies its
/// MAC filter, has IPv4 for DIAL, and neither its peers nor its groups are of a family it does not
/// use.
pub proof fn law_accepted_entry_is_consistent(key: Seq<char>, raw: RawEntry)
    requires
        entry(key, raw) is Ok,
    ensures
        ({
            let e = entry(key, raw)->Ok_0;
            &&& e.source_if != e.target_if
            &&& e.wol is Some || e.mdns || e.ssdp is Some || e.wsd || e.udp is Some
            &&& e.macs is Some ==> e.wol is Some || e.mdns || e.ssdp is Some || e.wsd
            &&& e.ssdp matches Some(ssdp) ==> ssdp.dial ==> e.address_family.uses_ipv4()
            &&& forall|i: int|
                0 <= i < items(e.source_peers).len() ==> e.address_family.uses(
                    #[trigger] items(e.source_peers)[i],
                )
            &&& forall|i: int|
                0 <= i < items(e.target_peers).len() ==> e.address_family.uses(
                    #[trigger] items(e.target_peers)[i],
                )
            &&& e.udp matches Some(udp) ==> {
                &&& udp.groups is Some || udp.broadcast
                &&& udp.broadcast ==> e.address_family.uses_ipv4()
                &&& forall|i: int|
                    0 <= i < items(udp.groups).len() ==> e.address_family.uses(
                        #[trigger] items(udp.groups)[i],
                    )
            }
            &&& conflict::relay_duplicates(e) is None
        }),
{
    lemma_foreign(raw.address_family, items(raw.source_peers));
    lemma_foreign(raw.address_family, items(raw.target_peers));
    lemma_foreign(raw.address_family, items(raw.udp_groups));
}

proof fn lemma_foreign(family: AddressFamily, s: Seq<IpAddr>)
    ensures
        foreign(family, s) is None ==> forall|i: int|
            0 <= i < s.len() ==> family.uses(#[trigger] s[i]),
    decreases s.len(),
{
    if s.len() > 0 && family.uses(s[0]) {
        let t = s.skip(1);
        lemma_foreign(family, t);
        if foreign(family, s) is None {
            assert forall|i: int| 0 <= i < s.len() implies family.uses(#[trigger] s[i]) by {
                if i > 0 {
                    assert(s[i] == t[i - 1]);
                }
            }
        }
    }
}

/// See [`foreign`].
fn find_foreign(family: AddressFamily, s: &[IpAddr]) -> (r: Option<IpAddr>)
    ensures
        r == foreign(family, s@),
{
    let mut i: usize = 0;
    assert(s@.skip(0) =~= s@);
    while i < s.len()
        invariant
            i <= s@.len(),
            foreign(family, s@) == foreign(family, s@.skip(i as int)),
        decreases s@.len() - i,
    {
        if !family.uses(s[i]) {
            return Some(s[i]);
        }
        assert(s@.skip(i as int).skip(1) =~= s@.skip(i as int + 1));
        i += 1;
    }
    None
}

/// The first of the list that is of a family not used, if there is a list.
fn find_foreign_in<R: crate::unique_list::ListRule<Item = IpAddr>>(
    family: AddressFamily,
    list: &Option<crate::unique_list::UniqueList<R>>,
) -> (r: Option<IpAddr>)
    ensures
        r == foreign(family, items(listed(*list))),
{
    match list {
        Some(list) => find_foreign(family, list.items.as_slice()),
        None => None,
    }
}

/// The first listed peer of a family the entry's `address_family` does not use, if any.
pub fn peer_of_unused_family(raw: &RawReflector) -> (r: Option<IpAddr>)
    ensures
        r == foreign_peer(raw@),
{
    match find_foreign_in(raw.address_family, &raw.source_peers) {
        Some(peer) => Some(peer),
        None => find_foreign_in(raw.address_family, &raw.target_peers),
    }
}

/// The peers parameter an mDNS entry's answers would go to, if any: `source_peers`, or
/// `target_peers` once the entry is bidirectional. A client takes a unicast answer only to a
/// question it asked with the unicast-response bit (RFC 6762 §5.4), so such peers get nothing.
pub fn mdns_answers_to_peers(raw: &RawReflector) -> (r: Option<&'static str>)
    ensures
        match r {
            Some(param) => answered_peers(raw@) == Some(param@),
            None => answered_peers(raw@) is None,
        },
{
    if !raw.mdns {
        return None;
    }
    if raw.source_peers.is_some() {
        Some("source_peers")
    } else if raw.bidirectional && raw.target_peers.is_some() {
        Some("target_peers")
    } else {
        None
    }
}

/// The peers checks: every peer of a family the entry uses, and none where an mDNS answer goes.
pub fn check_peers(raw: &RawReflector, name: &ReflectorName) -> (r: Result<(), ConfigError>)
    ensures
        match r {
            Ok(_) => peers_fault(raw@, name@) is None,
            Err(e) => peers_fault(raw@, name@) == Some(e@),
        },
{
    match peer_of_unused_family(raw) {
        Some(peer) => return Err(ConfigError::PeerFamily { name: name.clone(), peer }),
        None => {},
    }
    match mdns_answers_to_peers(raw) {
        Some(param) => return Err(ConfigError::MdnsAnswersToPeers { name: name.clone(), param }),
        None => {},
    }
    Ok(())
}

/// The UDP relay that the settings make. The relay's own checks come first: an entry that sets only
/// `udp_groups` is a relay missing its ports, not an entry with no protocol.
fn check_relay(
    family: AddressFamily,
    ports: Option<PortList>,
    groups: Option<GroupList>,
    broadcast: bool,
    name: &ReflectorName,
) -> (r: Result<Option<UdpRelay>, ConfigError>)
    ensures
        forall|raw: RawEntry|
            raw.address_family == family && raw.udp_ports == listed(ports) && raw.udp_groups
                == listed(groups) && raw.udp_broadcast == broadcast ==> match r {
                Ok(udp) => #[trigger] relay(raw, name@) == Ok::<_, Fault>(relay_view(udp)),
                Err(e) => relay(raw, name@) == Err::<Option<Relay>, _>(e@),
            },
        r matches Ok(Some(udp)) ==> listed(Some(udp.ports)) == listed(ports) && (list_wf(ports)
            ==> udp.ports.wf()) && (list_wf(groups) ==> list_wf(udp.groups)),
{
    match ports {
        None => if groups.is_none() && !broadcast {
            Ok(None)
        } else {
            Err(ConfigError::UdpRelayWithoutPorts { name: name.clone() })
        },
        Some(ports) => {
            if groups.is_none() && !broadcast {
                return Err(ConfigError::UdpRelayNoDestination { name: name.clone() });
            }
            if broadcast && !family.uses_ipv4() {
                return Err(ConfigError::UdpBroadcastFamily { name: name.clone() });
            }
            match find_foreign_in(family, &groups) {
                Some(group) => Err(ConfigError::UdpGroupFamily { name: name.clone(), group }),
                None => Ok(Some(UdpRelay { ports, groups, broadcast })),
            }
        },
    }
}

/// What an optional relay is set to.
pub open spec fn relay_view(udp: Option<UdpRelay>) -> Option<Relay> {
    match udp {
        Some(udp) => Some(udp@),
        None => None,
    }
}

impl Reflector {
    /// Validate an entry under its table key.
    pub fn try_from(keyed: (String, RawReflector)) -> (r: Result<Self, ConfigError>)
        ensures
            match r {
                Ok(reflector) => entry(keyed.0@, keyed.1@) == Ok::<_, Fault>(reflector@) && (
                keyed.1.wf() ==> reflector.wf()),
                Err(e) => entry(keyed.0@, keyed.1@) == Err::<Entry, _>(e@),
            },
    {
        let (key, raw) = keyed;
        let ghost view = raw@;
        // A name from the environment is already validated; the table key is validated here.
        let name: ReflectorName = match &raw.name {
            Some(name) => name.clone(),
            None => match ReflectorName::from_str(key.as_str()) {
                Ok(name) => name,
                Err(_) => return Err(ConfigError::EmptyReflectorName { key }),
            },
        };
        match check_peers(&raw, &name) {
            Ok(_) => {},
            Err(e) => return Err(e),
        }
        if raw.source_if.same(&raw.target_if) {
            return Err(ConfigError::SameInterface { name, value: raw.source_if });
        }
        let udp: Option<UdpRelay> = match check_relay(
            raw.address_family,
            raw.udp_ports,
            raw.udp_groups,
            raw.udp_broadcast,
            &name,
        ) {
            Ok(udp) => udp,
            Err(e) => {
                assert(relay(view, name@) == Err::<Option<Relay>, _>(e@));
                return Err(e);
            },
        };
        assert(relay(view, name@) == Ok::<_, Fault>(relay_view(udp)));
        let discovers = raw.wol || raw.mdns || raw.ssdp || raw.wsd;
        if !discovers && udp.is_none() {
            return Err(ConfigError::NoProtocol { name });
        }
        if raw.wol_ports.is_some() && !raw.wol {
            return Err(ConfigError::WolPortsWithoutWol { name });
        }
        if raw.macs.is_some() && !discovers {
            return Err(ConfigError::MacsUnused { name });
        }
        if raw.dial && !raw.ssdp {
            return Err(ConfigError::DialWithoutSsdp { name });
        }
        if raw.dial && !raw.address_family.uses_ipv4() {
            return Err(ConfigError::DialRequiresIpv4 { name });
        }
        let wol: Option<Wol> = if raw.wol {
            let ports = match raw.wol_ports {
                Some(ports) => ports,
                None => Wol::default_ports(),
            };
            Some(Wol { ports })
        } else {
            None
        };
        let ssdp: Option<Ssdp> = if raw.ssdp {
            Some(Ssdp { dial: raw.dial })
        } else {
            None
        };
        let reflector = Reflector {
            name,
            source_if: raw.source_if,
            target_if: raw.target_if,
            source_peers: raw.source_peers,
            target_peers: raw.target_peers,
            macs: raw.macs,
            address_family: raw.address_family,
            wol,
            mdns: raw.mdns,
            ssdp,
            wsd: raw.wsd,
            bidirectional: raw.bidirectional,
            udp,
        };
        assert(reflector@ == settled(view, relay_view(udp), name@));
        match reflector.relay_duplicates() {
            Some((protocol, port)) => Err(
                ConfigError::UdpRelayDuplicates { name: reflector.name, port, protocol },
            ),
            None => Ok(reflector),
        }
    }
}

/// A fully-validated configuration.
#[derive(PartialEq, Eq, Debug)]
pub struct Config {
    pub log_level: LogLevel,
    /// Seconds between memory-footprint diagnostics, or `None` to disable them.
    pub debug_memory_interval: Option<u64>,
    /// Seconds between per-interface packet counters in the log, or `None` to disable them.
    pub counter_interval: Option<u64>,
    pub reflectors: Vec<Reflector>,
}

/// What a [`Config`] is set to.
pub struct Settings {
    pub log_level: LogLevel,
    pub debug_memory_interval: Option<u64>,
    pub counter_interval: Option<u64>,
    pub reflectors: Seq<Entry>,
}

impl View for Config {
    type V = Settings;

    open spec fn view(&self) -> Settings {
        Settings {
            log_level: self.log_level,
            debug_memory_interval: self.debug_memory_interval,
            counter_interval: self.counter_interval,
            reflectors: conflict::entries(self.reflectors@),
        }
    }
}

/// One year. A diagnostic cadence beyond this is a typo; reject it with a clear error.
pub const MAX_INTERVAL_SECS: u64 = 60 * 60 * 24 * 365;

/// A positive-seconds report interval; `0` or absent disables the report.
pub open spec fn interval(secs: Option<u64>, field: Seq<char>) -> Result<Option<u64>, Fault> {
    match secs {
        Some(s) => if s > MAX_INTERVAL_SECS {
            Err(Fault::IntervalTooLarge { field, secs: s, max: MAX_INTERVAL_SECS })
        } else if s > 0 {
            Ok(Some(s))
        } else {
            Ok(None)
        },
        None => Ok(None),
    }
}

/// A positive-seconds report interval; `0` or absent disables the report. `field` is the
/// configuration key, named in the error for an over-large value.
pub fn interval_from(secs: Option<u64>, field: &'static str) -> (r: Result<
    Option<u64>,
    ConfigError,
>)
    ensures
        match r {
            Ok(v) => interval(secs, field@) == Ok::<_, Fault>(v),
            Err(e) => interval(secs, field@) == Err::<Option<u64>, _>(e@),
        },
{
    match secs {
        Some(s) => if s > MAX_INTERVAL_SECS {
            Err(ConfigError::IntervalTooLarge { field, secs: s, max: MAX_INTERVAL_SECS })
        } else if s > 0 {
            Ok(Some(s))
        } else {
            Ok(None)
        },
        None => Ok(None),
    }
}

/// The entries in order, or what is wrong with the first that breaks a rule.
pub open spec fn all_entries(s: Seq<(Seq<char>, RawEntry)>) -> Result<Seq<Entry>, Fault>
    decreases s.len(),
{
    if s.len() == 0 {
        Ok(Seq::empty())
    } else {
        match all_entries(s.drop_last()) {
            Err(fault) => Err(fault),
            Ok(before) => match entry(s.last().0, s.last().1) {
                Err(fault) => Err(fault),
                Ok(e) => Ok(before.push(e)),
            },
        }
    }
}

/// The configuration that a raw one is, or the first rule that it breaks.
pub open spec fn settings(raw: RawSettings) -> Result<Settings, Fault> {
    match all_entries(raw.reflectors) {
        Err(fault) => Err(fault),
        Ok(reflectors) => if reflectors.len() == 0 {
            Err(Fault::NoReflectors)
        } else {
            match conflict::conflicts_from(reflectors, 0) {
                Some(fault) => Err(fault),
                None => match interval(
                    raw.debug_memory_interval_secs,
                    "debug_memory_interval_secs"@,
                ) {
                    Err(fault) => Err(fault),
                    Ok(debug_memory_interval) => match interval(
                        raw.counters_interval_secs,
                        "counters_interval_secs"@,
                    ) {
                        Err(fault) => Err(fault),
                        Ok(counter_interval) => Ok(
                            Settings {
                                log_level: level_or_default(raw.log_level),
                                debug_memory_interval,
                                counter_interval,
                                reflectors,
                            },
                        ),
                    },
                },
            }
        },
    }
}

proof fn lemma_entries_before(s: Seq<(Seq<char>, RawEntry)>, n: int)
    requires
        0 <= n <= s.len(),
        all_entries(s.take(n)) is Err,
    ensures
        all_entries(s) == all_entries(s.take(n)),
    decreases s.len() - n,
{
    if n < s.len() {
        assert(s.take(n + 1).drop_last() =~= s.take(n));
        lemma_entries_before(s, n + 1);
    } else {
        assert(s.take(n) =~= s);
    }
}

impl Config {
    /// Validate the whole configuration.
    pub fn try_from(raw: RawConfig) -> (r: Result<Self, ConfigError>)
        ensures
            match r {
                Ok(config) => settings(raw@) == Ok::<_, Fault>(config@),
                Err(e) => settings(raw@) == Err::<Settings, _>(e@),
            },
            r matches Ok(config) ==> raw.wf() ==> reflectors_wf(config.reflectors@),
    {
        let ghost all = raw@.reflectors;
        let mut reflectors: Vec<Reflector> = Vec::new();
        let mut rest = raw.reflectors;
        let ghost mut n: int = 0;
        assert(all.skip(0) =~= all);
        assert(conflict::entries(reflectors@) =~= Seq::empty());
        while rest.len() > 0
            invariant
                all == raw@.reflectors,
                0 <= n <= all.len(),
                raw::keyed(rest@) == all.skip(n),
                raw.wf() ==> raw::all_wf(rest@),
                raw.wf() ==> reflectors_wf(reflectors@),
                all_entries(all.take(n)) == Ok::<_, Fault>(conflict::entries(reflectors@)),
            decreases rest@.len(),
        {
            let ghost before = rest@;
            let keyed = rest.remove(0);
            assert(raw::keyed(before)[0] == (keyed.0@, keyed.1@));
            assert(raw::keyed(rest@) =~= raw::keyed(before).skip(1));
            assert(all.skip(n).skip(1) =~= all.skip(n + 1));
            assert(all[n] == all.skip(n)[0]);
            assert(all.take(n + 1).drop_last() =~= all.take(n));
            assert(raw.wf() ==> keyed.1.wf());
            match Reflector::try_from(keyed) {
                Ok(reflector) => {
                    assert(conflict::entries(reflectors@.push(reflector)) =~= conflict::entries(
                        reflectors@,
                    ).push(reflector@));
                    reflectors.push(reflector);
                },
                Err(e) => {
                    proof {
                        lemma_entries_before(all, n + 1);
                    }
                    return Err(e);
                },
            }
            proof {
                n = n + 1;
            }
        }
        assert(all.skip(n).len() == 0);
        assert(all.take(n) =~= all);
        assert(conflict::entries(reflectors@).len() == reflectors@.len());
        if reflectors.len() == 0 {
            return Err(ConfigError::NoReflectors);
        }
        match conflict::check_conflicts(&reflectors) {
            Ok(_) => {},
            Err(e) => return Err(e),
        }
        let debug_memory_interval: Option<u64> = match interval_from(
            raw.debug_memory_interval_secs,
            "debug_memory_interval_secs",
        ) {
            Ok(v) => v,
            Err(e) => return Err(e),
        };
        let counter_interval: Option<u64> = match interval_from(
            raw.counters_interval_secs,
            "counters_interval_secs",
        ) {
            Ok(v) => v,
            Err(e) => return Err(e),
        };
        let log_level = match raw.log_level {
            Some(level) => level,
            None => LogLevel::default(),
        };
        Ok(Config { log_level, debug_memory_interval, counter_interval, reflectors })
    }
}

/// The configuration that a raw one from a file makes together with one from the environment, or
/// the first rule that they break.
pub open spec fn combined(file: RawSettings, env: RawSettings) -> Result<Settings, Fault> {
    let (reflectors, fault) = raw::merged(file.reflectors, env.reflectors);
    match fault {
        Some(fault) => Err(fault),
        None => settings(
            RawSettings {
                log_level: raw::or(env.log_level, file.log_level),
                debug_memory_interval_secs: raw::or(
                    env.debug_memory_interval_secs,
                    file.debug_memory_interval_secs,
                ),
                counters_interval_secs: raw::or(
                    env.counters_interval_secs,
                    file.counters_interval_secs,
                ),
                reflectors,
            },
        ),
    }
}

/// The environment overrides the file, which overrides the default; a reflector that both define is
/// rejected.
pub proof fn law_the_environment_takes_precedence(file: RawSettings, env: RawSettings)
    ensures
        combined(file, env) matches Ok(s) ==> {
            &&& s.log_level == level_or_default(
                if env.log_level is Some {
                    env.log_level
                } else {
                    file.log_level
                },
            )
            &&& Ok::<_, Fault>(s.debug_memory_interval) == interval(
                if env.debug_memory_interval_secs is Some {
                    env.debug_memory_interval_secs
                } else {
                    file.debug_memory_interval_secs
                },
                "debug_memory_interval_secs"@,
            )
            &&& Ok::<_, Fault>(s.counter_interval) == interval(
                if env.counters_interval_secs is Some {
                    env.counters_interval_secs
                } else {
                    file.counters_interval_secs
                },
                "counters_interval_secs"@,
            )
        },
        forall|j: int|
            0 <= j < env.reflectors.len() && raw::taken(
                file.reflectors,
                (#[trigger] env.reflectors[j]).0,
            ) ==> combined(file, env) is Err,
{
    assert forall|j: int|
        0 <= j < env.reflectors.len() && raw::taken(
            file.reflectors,
            (#[trigger] env.reflectors[j]).0,
        ) implies combined(file, env) is Err by {
        raw::law_a_name_in_both_sources_is_rejected(file.reflectors, env.reflectors, j);
    }
}

/// A raw configuration that says nothing.
pub open spec fn nothing() -> RawSettings {
    RawSettings {
        log_level: None,
        debug_memory_interval_secs: None,
        counters_interval_secs: None,
        reflectors: Seq::empty(),
    }
}

/// What does not fit the schema, said of its place in the text.
pub open spec fn schema_fault(text: Seq<char>, u: Unfit) -> Fault {
    Fault::Parse { message: document::located(text, u.span, u.what) }
}

fn schema_error(text: &str, m: Misfit) -> (r: ConfigError)
    ensures
        r@ == schema_fault(text@, m@),
{
    ConfigError::Parse { message: document::locate(text, m.span, m.what.as_str()) }
}

/// Every list of every reflector is one that its rule accepts.
pub open spec fn reflectors_wf(s: Seq<Reflector>) -> bool {
    forall|i: int| 0 <= i < s.len() ==> (#[trigger] s[i]).wf()
}

impl Config {
    /// Build a configuration from an optional document, with the text it was read from, plus what
    /// the environment sets.
    ///
    /// The environment takes precedence over the file for the global settings; reflectors from the
    /// two sources are combined, and a name defined by both is rejected.
    pub fn from_document(document: Option<(&str, &Value)>, env: RawConfig) -> (r: Result<
        Self,
        ConfigError,
    >)
        ensures
            match document {
                None => match r {
                    Ok(config) => combined(nothing(), env@) == Ok::<_, Fault>(config@),
                    Err(e) => combined(nothing(), env@) == Err::<Settings, _>(e@),
                },
                Some((text, value)) => match schema::settings_of(value@) {
                    Err(u) => r matches Err(e) && e@ == schema_fault(text@, u),
                    Ok(file) => match r {
                        Ok(config) => combined(file, env@) == Ok::<_, Fault>(config@),
                        Err(e) => combined(file, env@) == Err::<Settings, _>(e@),
                    },
                },
            },
            r matches Ok(config) ==> env.wf() ==> reflectors_wf(config.reflectors@),
    {
        let mut raw: RawConfig = match document {
            Some((text, value)) => match schema::decode(value) {
                Ok(raw) => raw,
                Err(m) => return Err(schema_error(text, m)),
            },
            None => RawConfig::empty(),
        };
        match raw.merge_env(env) {
            Ok(_) => Config::try_from(raw),
            Err(e) => Err(e),
        }
    }

    /// Build a configuration from optional TOML text plus what the environment sets.
    pub fn from_sources(toml_text: Option<&str>, env: RawConfig) -> (r: Result<Self, ConfigError>)
        ensures
            match toml_text {
                None => match r {
                    Ok(config) => combined(nothing(), env@) == Ok::<_, Fault>(config@),
                    Err(e) => combined(nothing(), env@) == Err::<Settings, _>(e@),
                },
                Some(text) => match document::toml_parsed(text@) {
                    Err(message) => r matches Err(e) && e@ == (Fault::Parse { message }),
                    Ok(doc) => match schema::settings_of(doc) {
                        Err(u) => r matches Err(e) && e@ == schema_fault(text@, u),
                        Ok(file) => match r {
                            Ok(config) => combined(file, env@) == Ok::<_, Fault>(config@),
                            Err(e) => combined(file, env@) == Err::<Settings, _>(e@),
                        },
                    },
                },
            },
            r matches Ok(config) ==> env.wf() ==> reflectors_wf(config.reflectors@),
    {
        match toml_text {
            Some(text) => match document::parse_document(text) {
                Ok(value) => Config::from_document(Some((text, &value)), env),
                Err(message) => Err(ConfigError::Parse { message }),
            },
            None => Config::from_document(None, env),
        }
    }
}

/// In an accepted configuration no two reflectors share a name or conflict.
pub proof fn law_accepted_configuration_has_no_conflicts(raw: RawSettings, i: int, j: int)
    requires
        settings(raw) is Ok,
        0 <= i < j < (settings(raw)->Ok_0).reflectors.len(),
    ensures
        ({
            let s = (settings(raw)->Ok_0).reflectors;
            &&& s[i].name != s[j].name
            &&& conflict::conflict(s[i], s[j]) is None
        }),
{
    conflict::law_accepted_entries_never_conflict((settings(raw)->Ok_0).reflectors, i, j);
}

/// The variable that sets the log level.
pub open spec fn log_level_var() -> Seq<char> {
    "NETFLECTOR_LOG_LEVEL"@
}

/// The level that a document sets, or the default.
pub open spec fn level_or_default(level: Option<LogLevel>) -> LogLevel {
    match level {
        Some(level) => level,
        None => LogLevel::Info,
    }
}

/// Resolve just the log level from the value of `NETFLECTOR_LOG_LEVEL` and a document, before the
/// full configuration is decoded. The environment overrides the file, which overrides the default.
///
/// Deliberately lightweight: it reads only the variable and the document's top-level `log_level`,
/// so it can't fail on a reflector error that should instead surface from the full decode.
pub fn log_level_from(env: Option<&str>, document: Option<(&str, &Value)>) -> (r: Result<
    LogLevel,
    ConfigError,
>)
    ensures
        match env {
            Some(name) => match value::log_level(name@) {
                Some(level) => r == Ok::<_, ConfigError>(level),
                None => r matches Err(e) && e@ == (Fault::EnvBadValue {
                    var: log_level_var(),
                    value: name@,
                    source: ParseValueError::LogLevel(ParseLogLevelError).text(),
                }),
            },
            None => match document {
                None => r == Ok::<_, ConfigError>(LogLevel::Info),
                Some((text, value)) => match schema::level_of(value@) {
                    Err(u) => r matches Err(e) && e@ == schema_fault(text@, u),
                    Ok(level) => r == Ok::<_, ConfigError>(level_or_default(level)),
                },
            },
        },
{
    match env {
        Some(name) => match LogLevel::from_str(name) {
            Ok(level) => Ok(level),
            Err(e) => Err(
                ConfigError::EnvBadValue {
                    var: "NETFLECTOR_LOG_LEVEL".to_owned(),
                    value: name.to_owned(),
                    source: ParseValueError::LogLevel(e),
                },
            ),
        },
        None => match document {
            None => Ok(LogLevel::default()),
            Some((text, value)) => match schema::decode_level(value) {
                Ok(Some(level)) => Ok(level),
                Ok(None) => Ok(LogLevel::default()),
                Err(m) => Err(schema_error(text, m)),
            },
        },
    }
}

/// Resolve just the log level from the value of `NETFLECTOR_LOG_LEVEL` and TOML text. The text is
/// not read where the variable is set.
pub fn resolve_log_level(toml_text: Option<&str>, env: Option<&str>) -> (r: Result<
    LogLevel,
    ConfigError,
>)
    ensures
        match (env, toml_text) {
            (Some(name), _) => match value::log_level(name@) {
                Some(level) => r == Ok::<_, ConfigError>(level),
                None => r matches Err(e) && e@ == (Fault::EnvBadValue {
                    var: log_level_var(),
                    value: name@,
                    source: ParseValueError::LogLevel(ParseLogLevelError).text(),
                }),
            },
            (None, None) => r == Ok::<_, ConfigError>(LogLevel::Info),
            (None, Some(text)) => match document::toml_parsed(text@) {
                Err(message) => r matches Err(e) && e@ == (Fault::Parse { message }),
                Ok(doc) => match schema::level_of(doc) {
                    Err(u) => r matches Err(e) && e@ == schema_fault(text@, u),
                    Ok(level) => r == Ok::<_, ConfigError>(level_or_default(level)),
                },
            },
        },
{
    if env.is_some() {
        return log_level_from(env, None);
    }
    match toml_text {
        Some(text) => match document::parse_document(text) {
            Ok(value) => log_level_from(None, Some((text, &value))),
            Err(message) => Err(ConfigError::Parse { message }),
        },
        None => log_level_from(None, None),
    }
}

/// The texts of a list's items.
pub open spec fn item_texts<T: crate::unique_list::ListItem>(s: Seq<T>) -> Seq<Seq<char>> {
    Seq::new(s.len(), |i: int| s[i].item_text())
}

/// The enabled protocols of an entry, one text each.
pub open spec fn protocols(e: Entry) -> Seq<Seq<char>> {
    (match e.wol {
        Some(ports) => seq!["wol("@ + text::joined(item_texts(ports), ","@) + ")"@],
        None => Seq::empty(),
    }) + (if e.mdns {
        seq!["mdns"@]
    } else {
        Seq::empty()
    }) + (match e.ssdp {
        Some(ssdp) => if ssdp.dial {
            seq!["ssdp+dial"@]
        } else {
            seq!["ssdp"@]
        },
        None => Seq::empty(),
    }) + (if e.wsd {
        seq!["wsd"@]
    } else {
        Seq::empty()
    }) + (match e.udp {
        Some(udp) => seq![
            "udp("@ + text::joined(item_texts(udp.ports), ","@) + " on "@ + text::joined(
                item_texts(items(udp.groups)) + if udp.broadcast {
                    seq!["broadcast"@]
                } else {
                    Seq::empty()
                },
                ","@,
            ) + ")"@,
        ],
        None => Seq::empty(),
    })
}

/// The texts of the items.
fn texts<T: crate::unique_list::ListItem>(s: &[T]) -> (r: Vec<String>)
    ensures
        text::views(r@) == item_texts(s@),
{
    let mut r: Vec<String> = Vec::new();
    let mut i: usize = 0;
    while i < s.len()
        invariant
            i <= s@.len(),
            text::views(r@) == item_texts(s@.take(i as int)),
        decreases s@.len() - i,
    {
        let mut v: Vec<char> = Vec::new();
        s[i].push_item(&mut v);
        assert(v@ =~= s@[i as int].item_text());
        let t = text::string(&v);
        push_part(&mut r, t);
        assert(item_texts(s@.take(i as int + 1)) =~= item_texts(s@.take(i as int)).push(
            s@[i as int].item_text(),
        ));
        i += 1;
    }
    assert(s@.take(i as int) =~= s@);
    r
}

fn push_part(parts: &mut Vec<String>, part: String)
    ensures
        text::views(final(parts)@) == text::views(old(parts)@).push(part@),
{
    parts.push(part);
    assert(text::views(parts@) =~= text::views(old(parts)@).push(part@));
}

/// The enabled protocols of `reflector` as a comma-separated summary for logging, with `WoL` ports,
/// the SSDP DIAL flag, and the relay's ports and destinations.
pub fn protocol_list(reflector: &Reflector) -> (r: String)
    ensures
        r@ == text::joined(protocols(reflector@), ", "@),
{
    let mut parts: Vec<String> = Vec::new();
    assert(text::views(parts@) =~= Seq::empty());
    match &reflector.wol {
        Some(wol) => {
            let ports = texts(wol.ports.items.as_slice());
            let mut part = "wol(".to_owned();
            part.append(text::join(&ports, ",").as_str());
            part.append(")");
            push_part(&mut parts, part);
        },
        None => {},
    }
    if reflector.mdns {
        push_part(&mut parts, "mdns".to_owned());
    }
    match &reflector.ssdp {
        Some(ssdp) => if ssdp.dial {
            push_part(&mut parts, "ssdp+dial".to_owned());
        } else {
            push_part(&mut parts, "ssdp".to_owned());
        },
        None => {},
    }
    if reflector.wsd {
        push_part(&mut parts, "wsd".to_owned());
    }
    match &reflector.udp {
        Some(udp) => {
            let ports = texts(udp.ports.items.as_slice());
            let mut destinations: Vec<String> = match &udp.groups {
                Some(groups) => texts(groups.items.as_slice()),
                None => Vec::new(),
            };
            assert(text::views(destinations@) =~= item_texts(items(udp@.groups)));
            if udp.broadcast {
                push_part(&mut destinations, "broadcast".to_owned());
            }
            assert(text::views(destinations@) =~= item_texts(items(udp@.groups)) + if udp.broadcast {
                seq!["broadcast"@]
            } else {
                Seq::empty()
            });
            let mut part = "udp(".to_owned();
            part.append(text::join(&ports, ",").as_str());
            part.append(" on ");
            part.append(text::join(&destinations, ",").as_str());
            part.append(")");
            push_part(&mut parts, part);
        },
        None => {},
    }
    assert(text::views(parts@) =~= protocols(reflector@));
    text::join(&parts, ", ")
}

/// How a family is written in the log.
pub open spec fn family_name(family: AddressFamily) -> Seq<char> {
    match family {
        AddressFamily::Default => "Default"@,
        AddressFamily::Dual => "Dual"@,
        AddressFamily::Ipv4 => "Ipv4"@,
        AddressFamily::Ipv6 => "Ipv6"@,
    }
}

/// The log line of an entry that was accepted.
pub open spec fn entry_text(e: Entry) -> Seq<char> {
    "reflector "@ + e.name + ": "@ + e.source_if + (if e.bidirectional {
        " <-> "@
    } else {
        " -> "@
    }) + e.target_if + " ["@ + text::joined(protocols(e), ", "@) + "] family="@ + family_name(
        e.address_family,
    )
}

/// See [`entry_text`].
pub fn entry_line(reflector: &Reflector) -> (r: String)
    ensures
        r@ == entry_text(reflector@),
{
    let mut line = "reflector ".to_owned();
    line.append(reflector.name.as_str());
    line.append(": ");
    line.append(reflector.source_if.as_str());
    line.append(if reflector.bidirectional { " <-> " } else { " -> " });
    line.append(reflector.target_if.as_str());
    line.append(" [");
    line.append(protocol_list(reflector).as_str());
    line.append("] family=");
    line.append(
        match reflector.address_family {
            AddressFamily::Default => "Default",
            AddressFamily::Dual => "Dual",
            AddressFamily::Ipv4 => "Ipv4",
            AddressFamily::Ipv6 => "Ipv6",
        },
    );
    line
}

/// Every listed address is of an IP version that the family handles.
pub open spec fn all_of_family(family: AddressFamily, s: Option<Seq<IpAddr>>) -> bool {
    s matches Some(list) ==> forall|i: int|
        0 <= i < list.len() ==> {
            &&& #[trigger] list[i] is V4 ==> family != AddressFamily::Ipv6
            &&& list[i] is V6 ==> family != AddressFamily::Ipv4
        }
}

proof fn lemma_all_of_family(family: AddressFamily, s: Option<Seq<IpAddr>>)
    ensures
        foreign(family, items(s)) is None <==> all_of_family(family, s),
{
    lemma_foreign(family, items(s));
    lemma_not_foreign(family, items(s));
    if let Some(list) = s {
        if foreign(family, list) is None {
            assert forall|i: int| 0 <= i < list.len() implies {
                &&& #[trigger] list[i] is V4 ==> family != AddressFamily::Ipv6
                &&& list[i] is V6 ==> family != AddressFamily::Ipv4
            } by {
                assert(family.uses(list[i]));
            }
        }
        if all_of_family(family, s) {
            assert forall|i: int| 0 <= i < list.len() implies family.uses(#[trigger] list[i]) by {
                assert(list[i] is V4 || list[i] is V6);
            }
        }
    }
}

proof fn lemma_not_foreign(family: AddressFamily, s: Seq<IpAddr>)
    ensures
        (forall|i: int| 0 <= i < s.len() ==> family.uses(#[trigger] s[i])) ==> foreign(family, s)
            is None,
    decreases s.len(),
{
    if s.len() > 0 && forall|i: int| 0 <= i < s.len() ==> family.uses(#[trigger] s[i]) {
        let t = s.skip(1);
        assert(family.uses(s[0]));
        assert forall|i: int| 0 <= i < t.len() implies family.uses(#[trigger] t[i]) by {
            assert(t[i] == s[i + 1]);
        }
        lemma_not_foreign(family, t);
    }
}

/// A raw entry is accepted when, and only when, it keeps every rule: no peer or relayed group of an IP
/// version it does not handle; no peers where its mDNS answers go; two different interfaces; relay
/// ports exactly where something is relayed on them; a relayed broadcast and DIAL only with IPv4; some
/// protocol; wake-up ports only with wake-ups, MACs only with a protocol that looks at them, DIAL only
/// with SSDP; and a relay that carries nothing another of its protocols carries.
pub proof fn law_an_entry_is_accepted_where_it_keeps_every_rule(raw: RawEntry, name: Seq<char>)
    ensures
        named_entry(raw, name) is Ok <==> {
            &&& all_of_family(raw.address_family, raw.source_peers)
            &&& all_of_family(raw.address_family, raw.target_peers)
            &&& !(raw.mdns && raw.source_peers is Some)
            &&& !(raw.mdns && raw.bidirectional && raw.target_peers is Some)
            &&& raw.source_if != raw.target_if
            &&& raw.udp_ports is Some <==> raw.udp_groups is Some || raw.udp_broadcast
            &&& raw.udp_broadcast ==> raw.address_family != AddressFamily::Ipv6
            &&& all_of_family(raw.address_family, raw.udp_groups)
            &&& raw.wol || raw.mdns || raw.ssdp || raw.wsd || raw.udp_ports is Some
            &&& raw.wol_ports is Some ==> raw.wol
            &&& raw.macs is Some ==> raw.wol || raw.mdns || raw.ssdp || raw.wsd
            &&& raw.dial ==> raw.ssdp && raw.address_family != AddressFamily::Ipv6
            &&& conflict::relay_duplicates(accepted_entry(raw, name)) is None
        },
        named_entry(raw, name) matches Ok(e) ==> e == accepted_entry(raw, name),
{
    lemma_all_of_family(raw.address_family, raw.source_peers);
    lemma_all_of_family(raw.address_family, raw.target_peers);
    lemma_all_of_family(raw.address_family, raw.udp_groups);
    let ports = wol_default_ports();
    assert(ports =~= seq![Port { number: 7 }, Port { number: 9 }]);
}

/// What an accepted entry holds: what was set; wake-ups on ports 7 and 9 where none are set; DIAL with
/// SSDP; and a relay where its ports are set.
pub open spec fn accepted_entry(raw: RawEntry, name: Seq<char>) -> Entry {
    Entry {
        name,
        source_if: raw.source_if,
        target_if: raw.target_if,
        source_peers: raw.source_peers,
        target_peers: raw.target_peers,
        macs: raw.macs,
        address_family: raw.address_family,
        wol: if !raw.wol {
            None
        } else if raw.wol_ports is Some {
            raw.wol_ports
        } else {
            Some(seq![Port { number: 7 }, Port { number: 9 }])
        },
        mdns: raw.mdns,
        ssdp: if raw.ssdp {
            Some(Ssdp { dial: raw.dial })
        } else {
            None
        },
        wsd: raw.wsd,
        bidirectional: raw.bidirectional,
        udp: if raw.udp_ports is Some {
            Some(
                Relay {
                    ports: raw.udp_ports->0,
                    groups: raw.udp_groups,
                    broadcast: raw.udp_broadcast,
                },
            )
        } else {
            None
        },
    }
}

/// The reverse of an entry listens where the entry emits and emits where it listens, with the peers of
/// each side, and is else the same.
pub proof fn law_the_reverse_swaps_the_sides(e: Entry)
    ensures
        ({
            let r = e.reversed();
            &&& r.source_if == e.target_if && r.target_if == e.source_if
            &&& r.source_peers == e.target_peers && r.target_peers == e.source_peers
            &&& r.name == e.name && r.macs == e.macs && r.address_family == e.address_family
            &&& r.wol == e.wol && r.mdns == e.mdns && r.ssdp == e.ssdp && r.wsd == e.wsd
            &&& r.bidirectional == e.bidirectional && r.udp == e.udp
        }),
{
}

/// An entry goes by the name that the environment gives it, and else by its key, without the blanks
/// around it and in small letters; a key of blanks alone is refused.
pub proof fn law_what_an_entry_is_called(key: Seq<char>, raw: RawEntry, name: Seq<char>)
    ensures
        raw.name == Some(name) ==> entry(key, raw) == named_entry(raw, name),
        raw.name is None && text::trimmed(key).len() > 0 ==> entry(key, raw) == named_entry(
            raw,
            text::folded(text::trimmed(key)),
        ),
        raw.name is None && text::trimmed(key).len() == 0 ==> entry(key, raw) == Err::<Entry, _>(
            Fault::EmptyReflectorName { key },
        ),
        entry(key, raw) matches Ok(e) ==> e.name == (if raw.name is Some {
            raw.name->0
        } else {
            text::folded(text::trimmed(key))
        }),
{
}

/// A report is made every so many seconds, up to a year of them; none where they are 0 or not set.
pub proof fn law_how_often_a_report_is_made(secs: u64, field: Seq<char>)
    ensures
        0 < secs <= 31_536_000 ==> interval(Some(secs), field) == Ok::<_, Fault>(Some(secs)),
        interval(Some(0), field) == Ok::<_, Fault>(None::<u64>),
        interval(None, field) == Ok::<_, Fault>(None::<u64>),
        secs > 31_536_000 ==> interval(Some(secs), field) is Err,
{
}

/// The entries of a configuration are those of its keys, in their order, and there is at least one.
pub proof fn law_every_entry_is_taken_in_order(s: Seq<(Seq<char>, RawEntry)>)
    ensures
        all_entries(s) is Ok <==> forall|i: int|
            0 <= i < s.len() ==> entry((#[trigger] s[i]).0, s[i].1) is Ok,
        all_entries(s) matches Ok(all) ==> {
            &&& all.len() == s.len()
            &&& forall|i: int|
                0 <= i < s.len() ==> entry((#[trigger] s[i]).0, s[i].1) == Ok::<_, Fault>(all[i])
        },
    decreases s.len(),
{
    if s.len() > 0 {
        let t = s.drop_last();
        law_every_entry_is_taken_in_order(t);
        assert(s[s.len() - 1] == s.last());
        if all_entries(t) is Err {
            let i: int = choose|i: int|
                0 <= i < t.len() && !(entry((#[trigger] t[i]).0, t[i].1) is Ok);
            assert(s[i] == t[i]);
        } else {
            assert forall|i: int| 0 <= i < t.len() implies entry(
                (#[trigger] s[i]).0,
                s[i].1,
            ) is Ok by {
                assert(s[i] == t[i]);
                assert(entry(t[i].0, t[i].1) is Ok);
            }
            if let Ok(all) = all_entries(s) {
                assert forall|i: int| 0 <= i < s.len() implies entry(
                    (#[trigger] s[i]).0,
                    s[i].1,
                ) == Ok::<_, Fault>(all[i]) by {
                    if i < t.len() {
                        assert(s[i] == t[i]);
                        assert(entry(t[i].0, t[i].1) == Ok::<_, Fault>((all_entries(t)->Ok_0)[i]));
                    }
                }
            }
        }
    }
}

/// A configuration is accepted where it has a reflector, every one is accepted, no two conflict, and no
/// interval is above a year. It logs from `Info` on where it does not say from where.
pub proof fn law_which_configurations_are_accepted(raw: RawSettings)
    ensures
        settings(raw) is Ok <==> {
            &&& raw.reflectors.len() > 0
            &&& all_entries(raw.reflectors) is Ok
            &&& conflict::conflicts_from(all_entries(raw.reflectors)->Ok_0, 0) is None
            &&& raw.debug_memory_interval_secs matches Some(s) ==> s <= 31_536_000
            &&& raw.counters_interval_secs matches Some(s) ==> s <= 31_536_000
        },
        settings(raw) matches Ok(s) ==> {
            &&& Ok::<_, Fault>(s.reflectors) == all_entries(raw.reflectors)
            &&& s.log_level == (if raw.log_level is Some {
                raw.log_level->0
            } else {
                LogLevel::Info
            })
            &&& s.debug_memory_interval == (if raw.debug_memory_interval_secs == Some(0u64) {
                None
            } else {
                raw.debug_memory_interval_secs
            })
            &&& s.counter_interval == (if raw.counters_interval_secs == Some(0u64) {
                None
            } else {
                raw.counters_interval_secs
            })
        },
{
    law_every_entry_is_taken_in_order(raw.reflectors);
}

/// The summary of an entry has a part for each protocol that it enables.
pub proof fn law_the_summary_has_every_protocol(e: Entry)
    ensures
        protocols(e).len() == (if e.wol is Some {
            1int
        } else {
            0
        }) + (if e.mdns {
            1int
        } else {
            0
        }) + (if e.ssdp is Some {
            1int
        } else {
            0
        }) + (if e.wsd {
            1int
        } else {
            0
        }) + (if e.udp is Some {
            1int
        } else {
            0
        }),
        e.mdns ==> protocols(e).contains("mdns"@),
        e.wsd ==> protocols(e).contains("wsd"@),
        e.ssdp == Some(Ssdp { dial: true }) ==> protocols(e).contains("ssdp+dial"@),
        e.ssdp == Some(Ssdp { dial: false }) ==> protocols(e).contains("ssdp"@),
{
    let p = protocols(e);
    let a: int = if e.wol is Some {
        1
    } else {
        0
    };
    let b: int = a + if e.mdns {
        1int
    } else {
        0
    };
    let c: int = b + if e.ssdp is Some {
        1int
    } else {
        0
    };
    if e.mdns {
        assert(p[a] == "mdns"@);
    }
    if let Some(ssdp) = e.ssdp {
        assert(p[b] == if ssdp.dial {
            "ssdp+dial"@
        } else {
            "ssdp"@
        });
    }
    if e.wsd {
        assert(p[c] == "wsd"@);
    }
}

} // verus!
