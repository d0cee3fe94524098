//! Interface address resolution: the source MAC / IPv4 / IPv6 an interface currently has. Any may
//! be absent (a loopback link has no MAC, a link may be single-family).

pub mod address_monitor;
pub mod getifaddrs;
pub mod interface_monitor;
pub mod rtnetlink;
pub mod wire;

use vstd::prelude::*;

use crate::errno::Errno;
use crate::net::ip::{IpAddr, Ipv4Addr, Ipv6Addr};
use crate::net::mac::MacAddr;
use crate::number;
use crate::text;
use crate::unique_list::ListItem;

verus! {

/// An interface's current source addresses; any may be absent. A sender reaches a v6 source only
/// through [`v6`](Self::v6), naming the destination's scope.
#[derive(Clone, Copy, PartialEq, Eq, Structural, Debug)]
pub struct InterfaceAddresses {
    pub mac: Option<MacAddr>,
    pub v4: Option<Ipv4Addr>,
    pub v4_prefix: Option<u8>,
    pub v6: Option<Ipv6Addr>,
    pub v6_routable: Option<Ipv6Addr>,
}

/// No addresses.
pub open spec fn no_addresses() -> InterfaceAddresses {
    InterfaceAddresses { mac: None, v4: None, v4_prefix: None, v6: None, v6_routable: None }
}

impl Default for InterfaceAddresses {
    fn default() -> (r: Self)
        ensures
            r == no_addresses(),
    {
        InterfaceAddresses { mac: None, v4: None, v4_prefix: None, v6: None, v6_routable: None }
    }
}

/// The number of the last address of the subnet of `addr` with that prefix length.
pub open spec fn last_of_subnet(addr: u32, prefix: u8) -> u32 {
    addr | (u32::MAX >> prefix)
}

/// The last address of a subnet shares the network part, and its host part is all ones.
pub proof fn law_last_of_subnet(addr: u32, prefix: u8)
    requires
        1 <= prefix <= 30,
    ensures
        last_of_subnet(addr, prefix) >> ((32 - prefix) as u8) == addr >> ((32 - prefix) as u8),
        last_of_subnet(addr, prefix) & (u32::MAX >> prefix) == u32::MAX >> prefix,
{
    let host: u8 = (32 - prefix) as u8;
    assert((addr | (0xffff_ffffu32 >> prefix)) >> host == addr >> host) by (bit_vector)
        requires
            1 <= prefix <= 30,
            host == 32 - prefix,
    ;
    assert((addr | (0xffff_ffffu32 >> prefix)) & (0xffff_ffffu32 >> prefix) == 0xffff_ffffu32
        >> prefix) by (bit_vector);
}

impl InterfaceAddresses {
    pub fn mac(&self) -> (r: Option<MacAddr>)
        ensures
            r == self.mac,
    {
        self.mac
    }

    pub fn v4(&self) -> (r: Option<Ipv4Addr>)
        ensures
            r == self.v4,
    {
        self.v4
    }

    /// The v4 subnet has a directed broadcast: its prefix is known, and is no /31 or /32.
    pub open spec fn has_directed_broadcast(self) -> bool {
        self.v4 is Some && self.v4_prefix is Some && self.v4_prefix->0 <= 30
    }

    /// The directed broadcast of the v4 subnet.
    pub open spec fn directed_broadcast(self) -> Option<Ipv4Addr> {
        if self.has_directed_broadcast() {
            Some(Ipv4Addr::of_bits(last_of_subnet((self.v4->0).bits(), self.v4_prefix->0)))
        } else {
            None
        }
    }

    /// The directed broadcast of the v4 subnet; a /31 or /32 has none.
    pub fn v4_directed_broadcast(&self) -> (r: Option<Ipv4Addr>)
        ensures
            r == self.directed_broadcast(),
    {
        match (self.v4, self.v4_prefix) {
            (Some(addr), Some(prefix)) => {
                if prefix > 30 {
                    return None;
                }
                Some(Ipv4Addr::from_bits(addr.to_bits() | (u32::MAX >> prefix)))
            },
            _ => None,
        }
    }

    /// The v6 source for a destination of a scope: the address for it, else the other scope's.
    pub open spec fn source_v6(self, scope: Ipv6Scope) -> Option<Ipv6Addr> {
        match scope {
            Ipv6Scope::LinkLocal => self.v6,
            Ipv6Scope::Routable => if self.v6_routable is Some {
                self.v6_routable
            } else {
                self.v6
            },
        }
    }

    /// The v6 source for a destination of `dest_scope`, falling back to the other scope's address
    /// when the matching one is absent: a scope mismatch beats dropping the send.
    pub fn v6(&self, dest_scope: Ipv6Scope) -> (r: Option<Ipv6Addr>)
        ensures
            r == self.source_v6(dest_scope),
    {
        match dest_scope {
            Ipv6Scope::LinkLocal => self.v6,
            Ipv6Scope::Routable => if self.v6_routable.is_some() {
                self.v6_routable
            } else {
                self.v6
            },
        }
    }

    /// `ip` is one of the addresses.
    pub open spec fn holds(self, ip: IpAddr) -> bool {
        match ip {
            IpAddr::V4(v4) => self.v4 == Some(v4),
            IpAddr::V6(v6) => self.v6 == Some(v6) || self.v6_routable == Some(v6),
        }
    }

    pub fn has(&self, ip: IpAddr) -> (r: bool)
        ensures
            r == self.holds(ip),
    {
        match ip {
            IpAddr::V4(v4) => match self.v4 {
                Some(own) => own == v4,
                None => false,
            },
            IpAddr::V6(v6) => {
                let link = match self.v6 {
                    Some(own) => own == v6,
                    None => false,
                };
                let routable = match self.v6_routable {
                    Some(own) => own == v6,
                    None => false,
                };
                link || routable
            },
        }
    }

    pub fn has_v4(&self) -> (r: bool)
        ensures
            r == (self.v4 is Some),
    {
        self.v4.is_some()
    }

    /// `v6` is set whenever any usable v6 exists, so this covers both scopes.
    pub fn has_v6(&self) -> (r: bool)
        ensures
            r == (self.v6 is Some),
    {
        self.v6.is_some()
    }

    /// The addresses for the log.
    pub open spec fn text(self) -> Seq<char> {
        "mac "@ + (match self.mac {
            Some(mac) => mac.text(),
            None => "none"@,
        }) + ", v4 "@ + (match self.v4 {
            Some(v4) => match self.v4_prefix {
                Some(prefix) => v4.text() + "/"@ + number::decimal(prefix as nat),
                None => v4.text(),
            },
            None => "none"@,
        }) + ", v6 "@ + (match self.v6 {
            Some(v6) => v6.text(),
            None => "none"@,
        }) + ", v6-routable "@ + (match self.v6_routable {
            Some(v6) => v6.text(),
            None => "none"@,
        })
    }

    /// The addresses for the log.
    pub fn to_text(&self) -> (r: String)
        ensures
            r@ == self.text(),
    {
        let mut out: Vec<char> = Vec::new();
        text::push_str(&mut out, "mac ");
        match self.mac {
            Some(mac) => mac.push_text(&mut out),
            None => text::push_str(&mut out, "none"),
        }
        text::push_str(&mut out, ", v4 ");
        match self.v4 {
            Some(v4) => {
                let ghost before = out@;
                v4.push_text(&mut out);
                match self.v4_prefix {
                    Some(prefix) => {
                        text::push_str(&mut out, "/");
                        number::push_written(&mut out, prefix as u64, 10);
                        assert(out@ =~= before + (v4.text() + "/"@ + number::decimal(
                            prefix as nat,
                        )));
                    },
                    None => {},
                }
            },
            None => text::push_str(&mut out, "none"),
        }
        text::push_str(&mut out, ", v6 ");
        match self.v6 {
            Some(v6) => v6.push_text(&mut out),
            None => text::push_str(&mut out, "none"),
        }
        text::push_str(&mut out, ", v6-routable ");
        match self.v6_routable {
            Some(v6) => v6.push_text(&mut out),
            None => text::push_str(&mut out, "none"),
        }
        assert(out@ =~= self.text());
        text::string(&out)
    }
}

/// Which source fields a refresh changed, so a caller reacts only to the family it depends on.
#[derive(Clone, Copy, PartialEq, Eq, Structural, Debug)]
pub struct AddressChange {
    pub mac: bool,
    pub v4: bool,
    pub v6: bool,
}

impl Default for AddressChange {
    fn default() -> (r: Self)
        ensures
            r == (AddressChange { mac: false, v4: false, v6: false }),
    {
        AddressChange { mac: false, v4: false, v6: false }
    }
}

/// What differs between two sets of addresses.
pub open spec fn change(old: InterfaceAddresses, new: InterfaceAddresses) -> AddressChange {
    AddressChange {
        mac: old.mac != new.mac,
        v4: old.v4 != new.v4,
        v6: old.v6 != new.v6 || old.v6_routable != new.v6_routable,
    }
}

/// What is not an address, such as the MTU, is no address change, and a change is one of some address.
pub proof fn law_a_change_is_of_an_address(old: InterfaceAddresses, new: InterfaceAddresses)
    ensures
        change(old, new) == (AddressChange { mac: false, v4: false, v6: false }) <==> old.mac
            == new.mac && old.v4 == new.v4 && old.v6 == new.v6 && old.v6_routable
            == new.v6_routable,
{
}

/// An IPv6 destination's scope, coarsened to what source selection needs.
#[derive(Clone, Copy, PartialEq, Eq, Structural, Debug)]
pub enum Ipv6Scope {
    LinkLocal,
    /// Anything beyond the link: site-local, ULA or global.
    Routable,
}

/// A multicast group of link-local scope: `ffx2::`.
pub open spec fn link_local_group(addr: Ipv6Addr) -> bool {
    addr.is_multicast() && addr.s0 % 16 == 2
}

/// The multicast test is not redundant: the scope nibble alone also matches unicasts like `fd02::`.
pub fn is_multicast_link_local(addr: Ipv6Addr) -> (r: bool)
    ensures
        r == link_local_group(addr),
{
    addr.is_multicast() && addr.s0 % 16 == 2
}

impl Ipv6Scope {
    /// The scope of a destination.
    pub open spec fn scope(addr: Ipv6Addr) -> Ipv6Scope {
        if link_local_group(addr) || addr.is_unicast_link_local() {
            Ipv6Scope::LinkLocal
        } else {
            Ipv6Scope::Routable
        }
    }

    pub fn of(addr: Ipv6Addr) -> (r: Self)
        ensures
            r == Self::scope(addr),
    {
        if is_multicast_link_local(addr) || addr.is_unicast_link_local() {
            Ipv6Scope::LinkLocal
        } else {
            Ipv6Scope::Routable
        }
    }
}

/// What the system says of an interface now.
#[derive(Clone, Copy, PartialEq, Eq, Structural, Debug)]
pub struct Resolved {
    pub addrs: InterfaceAddresses,
    pub mtu: Option<u32>,
}

/// One configured interface. `ifindex` caches what `name` resolves to, 0 while it resolves to
/// nothing.
#[derive(Debug)]
pub struct Interface {
    pub name: String,
    pub ifindex: u32,
    pub addrs: InterfaceAddresses,
    /// Outside [`InterfaceAddresses`] on purpose: a bare MTU change must not read as an address
    /// change (which clears sessions).
    pub mtu: Option<u32>,
}

/// The text of an address of either family.
pub open spec fn v4_ip(a: Option<Ipv4Addr>) -> Option<IpAddr> {
    match a {
        Some(v4) => Some(IpAddr::V4(v4)),
        None => None,
    }
}

pub open spec fn v6_ip(a: Option<Ipv6Addr>) -> Option<IpAddr> {
    match a {
        Some(v6) => Some(IpAddr::V6(v6)),
        None => None,
    }
}

fn as_v4_ip(a: Option<Ipv4Addr>) -> (r: Option<IpAddr>)
    ensures
        r == v4_ip(a),
{
    match a {
        Some(v4) => Some(IpAddr::V4(v4)),
        None => None,
    }
}

fn as_v6_ip(a: Option<Ipv6Addr>) -> (r: Option<IpAddr>)
    ensures
        r == v6_ip(a),
{
    match a {
        Some(v6) => Some(IpAddr::V6(v6)),
        None => None,
    }
}

/// The log line of a field that changed.
pub open spec fn field_change<A: ListItem>(
    iface: Seq<char>,
    family: Seq<char>,
    old: Option<A>,
    new: Option<A>,
) -> Option<Seq<char>> {
    let head = "interface "@ + iface + ": "@;
    match (old, new) {
        (None, Some(now)) => Some(head + "gained "@ + family + " "@ + now.item_text()),
        (Some(was), None) => Some(head + "lost "@ + family + " (was "@ + was.item_text() + ")"@),
        (Some(was), Some(now)) => if was == now {
            None
        } else {
            Some(head + family + " changed "@ + was.item_text() + " -> "@ + now.item_text())
        },
        (None, None) => None,
    }
}

/// The log line of a field that changed; `None` where it did not.
pub fn log_field_change<A: ListItem>(iface: &str, family: &str, old: Option<A>, new: Option<A>) -> (r:
    Option<String>)
    ensures
        match r {
            Some(line) => field_change(iface@, family@, old, new) == Some(line@),
            None => field_change(iface@, family@, old, new) is None,
        },
        r is Some <==> old != new,
{
    let mut out: Vec<char> = Vec::new();
    text::push_str(&mut out, "interface ");
    text::push_str(&mut out, iface);
    text::push_str(&mut out, ": ");
    assert(out@ =~= "interface "@ + iface@ + ": "@);
    match (old, new) {
        (None, Some(now)) => {
            text::push_str(&mut out, "gained ");
            text::push_str(&mut out, family);
            text::push_str(&mut out, " ");
            now.push_item(&mut out);
        },
        (Some(was), None) => {
            text::push_str(&mut out, "lost ");
            text::push_str(&mut out, family);
            text::push_str(&mut out, " (was ");
            was.push_item(&mut out);
            text::push_str(&mut out, ")");
        },
        (Some(was), Some(now)) => {
            if was.same(&now) {
                return None;
            }
            text::push_str(&mut out, family);
            text::push_str(&mut out, " changed ");
            was.push_item(&mut out);
            text::push_str(&mut out, " -> ");
            now.push_item(&mut out);
        },
        (None, None) => return None,
    }
    Some(text::string(&out))
}

impl Interface {
    /// An interface that has not been resolved yet.
    pub fn open(name: &str, ifindex: Option<u32>) -> (r: Self)
        ensures
            r.name@ == name@,
            r.ifindex == match ifindex {
                Some(i) => i,
                None => 0,
            },
            r.addrs == no_addresses(),
            r.mtu is None,
    {
        Interface {
            name: name.to_owned(),
            ifindex: match ifindex {
                Some(i) => i,
                None => 0,
            },
            addrs: InterfaceAddresses::default(),
            mtu: None,
        }
    }

    /// Take what the system says now, and report which source fields changed and the log lines.
    pub fn refresh(&mut self, resolved: Resolved) -> (r: (AddressChange, Vec<String>))
        ensures
            r.0 == change(old(self).addrs, resolved.addrs),
            final(self).addrs == resolved.addrs,
            final(self).mtu == resolved.mtu,
            final(self).name == old(self).name,
            final(self).ifindex == old(self).ifindex,
            text::views(r.1@) == change_lines(old(self).name@, old(self).addrs, resolved.addrs),
    {
        let mut lines: Vec<String> = Vec::new();
        let ghost name = self.name@;
        let ghost before = self.addrs;
        assert(text::views(lines@) =~= Seq::empty());
        let v6 = log_field_change(
            self.name.as_str(),
            "IPv6",
            as_v6_ip(self.addrs.v6),
            as_v6_ip(resolved.addrs.v6),
        );
        let v6_changed = v6.is_some();
        push_line(&mut lines, v6);
        let routable = log_field_change(
            self.name.as_str(),
            "IPv6 routable",
            as_v6_ip(self.addrs.v6_routable),
            as_v6_ip(resolved.addrs.v6_routable),
        );
        let routable_changed = routable.is_some();
        push_line(&mut lines, routable);
        let mac = log_field_change(self.name.as_str(), "MAC", self.addrs.mac, resolved.addrs.mac);
        let mac_changed = mac.is_some();
        push_line(&mut lines, mac);
        let v4 = log_field_change(
            self.name.as_str(),
            "IPv4",
            as_v4_ip(self.addrs.v4),
            as_v4_ip(resolved.addrs.v4),
        );
        let v4_changed = v4.is_some();
        push_line(&mut lines, v4);
        self.addrs = resolved.addrs;
        self.mtu = resolved.mtu;
        assert(text::views(lines@) =~= change_lines(name, before, resolved.addrs));
        (
            AddressChange {
                mac: mac_changed,
                v4: v4_changed,
                v6: v6_changed || routable_changed,
            },
            lines,
        )
    }
}

/// The line, if there is one.
pub open spec fn line(l: Option<Seq<char>>) -> Seq<Seq<char>> {
    match l {
        Some(l) => seq![l],
        None => Seq::empty(),
    }
}

/// The log lines of what differs between two sets of addresses.
pub open spec fn change_lines(
    name: Seq<char>,
    old: InterfaceAddresses,
    new: InterfaceAddresses,
) -> Seq<Seq<char>> {
    line(field_change(name, "IPv6"@, v6_ip(old.v6), v6_ip(new.v6))) + line(
        field_change(
            name,
            "IPv6 routable"@,
            v6_ip(old.v6_routable),
            v6_ip(new.v6_routable),
        ),
    ) + line(field_change(name, "MAC"@, old.mac, new.mac)) + line(
        field_change(name, "IPv4"@, v4_ip(old.v4), v4_ip(new.v4)),
    )
}

/// Append the line, if there is one.
fn push_line(lines: &mut Vec<String>, l: Option<String>)
    ensures
        text::views(final(lines)@) == text::views(old(lines)@) + line(
            match l {
                Some(l) => Some(l@),
                None => None,
            },
        ),
{
    match l {
        Some(l) => lines.push(l),
        None => {},
    }
    assert(text::views(lines@) =~= text::views(old(lines)@) + line(
        match l {
            Some(l) => Some(l@),
            None => None,
        },
    ));
}

/// What a name lookup says: the index, nothing, or that it could not run. Only the resource errors
/// say that it could not run; anything else reads as absent, so an unlisted error can't mask a
/// removed interface.
pub open spec fn looked_up(index: u32, errno: Errno) -> Result<Option<u32>, Errno> {
    if index != 0 {
        Ok(Some(index))
    } else if errno == Errno::TooManyOpenFiles || errno == Errno::FileTableFull || errno
        == Errno::NoMemory || errno == Errno::NoBufferSpace {
        Err(errno)
    } else {
        Ok(None)
    }
}

/// Tells "no such interface" apart from a lookup that could not run, from the index that
/// `if_nametoindex` returned, 0 for a failure, and the error that came with it.
pub fn if_index_checked(index: u32, errno: Errno) -> (r: Result<Option<u32>, Errno>)
    ensures
        r == looked_up(index, errno),
{
    if index != 0 {
        return Ok(Some(index));
    }
    match errno {
        Errno::TooManyOpenFiles | Errno::FileTableFull | Errno::NoMemory
        | Errno::NoBufferSpace => Err(errno),
        _ => Ok(None),
    }
}

/// `None` if the name names no interface or the lookup itself failed. A caller that acts
/// destructively on absence wants [`if_index_checked`] instead.
pub fn if_index(index: u32, errno: Errno) -> (r: Option<u32>)
    ensures
        r == match looked_up(index, errno) {
            Ok(found) => found,
            Err(_) => None,
        },
{
    match if_index_checked(index, errno) {
        Ok(found) => found,
        Err(_) => None,
    }
}

/// How good a v6 source is, worst to best. Link-local is preferred because netflector reflects
/// link-local service traffic.
#[derive(Clone, Copy, PartialEq, Eq, Structural, PartialOrd, Ord, Debug)]
pub enum V6Rank {
    NotASource,
    Global,
    UniqueLocal,
    LinkLocal,
}

impl V6Rank {
    /// The place in the order, worst first.
    #[verifier::allow_in_spec]
    pub fn place(self) -> (r: u8)
        returns
            (match self {
                V6Rank::NotASource => 0u8,
                V6Rank::Global => 1u8,
                V6Rank::UniqueLocal => 2u8,
                V6Rank::LinkLocal => 3u8,
            }),
    {
        match self {
            V6Rank::NotASource => 0,
            V6Rank::Global => 1,
            V6Rank::UniqueLocal => 2,
            V6Rank::LinkLocal => 3,
        }
    }
}

/// The rank of an address.
pub open spec fn rank(addr: Ipv6Addr) -> V6Rank {
    if addr.is_multicast() || addr == Ipv6Addr::unspecified() || addr == Ipv6Addr::loopback() {
        V6Rank::NotASource
    } else if addr.is_unicast_link_local() {
        V6Rank::LinkLocal
    } else if addr.is_unique_local() {
        V6Rank::UniqueLocal
    } else {
        V6Rank::Global
    }
}

pub fn v6_rank(addr: Ipv6Addr) -> (r: V6Rank)
    ensures
        r == rank(addr),
{
    if addr.is_multicast() || addr == Ipv6Addr::unspecified() || addr == Ipv6Addr::loopback() {
        V6Rank::NotASource
    } else if addr.is_unicast_link_local() {
        V6Rank::LinkLocal
    } else if addr.is_unique_local() {
        V6Rank::UniqueLocal
    } else {
        V6Rank::Global
    }
}

/// Picks the best-overall v6 source (link-local preferred) and the best non-link-local one while a
/// backend scans an interface's usable addresses.
#[derive(Clone, Copy, PartialEq, Eq, Structural, Debug)]
pub struct V6Pick {
    pub best_rank: V6Rank,
    pub best_routable_rank: V6Rank,
}

/// Nothing picked yet.
pub open spec fn no_pick() -> V6Pick {
    V6Pick { best_rank: V6Rank::NotASource, best_routable_rank: V6Rank::NotASource }
}

impl Default for V6Pick {
    fn default() -> (r: Self)
        ensures
            r == no_pick(),
    {
        V6Pick { best_rank: V6Rank::NotASource, best_routable_rank: V6Rank::NotASource }
    }
}

/// Addresses together with what was picked for them.
pub struct Picked {
    pub addrs: InterfaceAddresses,
    pub pick: V6Pick,
}

/// The picks after one more usable address: it is taken where none was yet, or where it outranks
/// the one taken.
pub open spec fn considered(p: Picked, addr: Ipv6Addr) -> Picked {
    let r = rank(addr);
    if r == V6Rank::NotASource {
        p
    } else {
        let better = p.addrs.v6 is None || r.place() > p.pick.best_rank.place();
        let routable = r != V6Rank::LinkLocal && (p.addrs.v6_routable is None || r.place()
            > p.pick.best_routable_rank.place());
        Picked {
            addrs: InterfaceAddresses {
                v6: if better {
                    Some(addr)
                } else {
                    p.addrs.v6
                },
                v6_routable: if routable {
                    Some(addr)
                } else {
                    p.addrs.v6_routable
                },
                ..p.addrs
            },
            pick: V6Pick {
                best_rank: if better {
                    r
                } else {
                    p.pick.best_rank
                },
                best_routable_rank: if routable {
                    r
                } else {
                    p.pick.best_routable_rank
                },
            },
        }
    }
}

impl V6Pick {
    pub fn consider(&mut self, addrs: &mut InterfaceAddresses, addr: Ipv6Addr)
        ensures
            considered((Picked { addrs: *old(addrs), pick: *old(self) }), addr) == (Picked {
                addrs: *final(addrs),
                pick: *final(self),
            }),
    {
        let rank = v6_rank(addr);
        if rank == V6Rank::NotASource {
            return;
        }
        if addrs.v6.is_none() || rank.place() > self.best_rank.place() {
            addrs.v6 = Some(addr);
            self.best_rank = rank;
        }
        if rank != V6Rank::LinkLocal && (addrs.v6_routable.is_none() || rank.place()
            > self.best_routable_rank.place()) {
            addrs.v6_routable = Some(addr);
            self.best_routable_rank = rank;
        }
    }
}

/// The picks after a scan of addresses, from none.
pub open spec fn picked(list: Seq<Ipv6Addr>) -> Picked
    decreases list.len(),
{
    if list.len() == 0 {
        Picked { addrs: no_addresses(), pick: no_pick() }
    } else {
        considered(picked(list.drop_last()), list.last())
    }
}

/// `v6` is the first of its rank among the scanned addresses.
pub open spec fn first_of_rank(list: Seq<Ipv6Addr>, v6: Ipv6Addr) -> bool {
    exists|i: int|
        0 <= i < list.len() && #[trigger] list[i] == v6 && forall|j: int|
            0 <= j < i ==> rank(#[trigger] list[j]) != rank(v6)
}

proof fn lemma_first_of_rank_stays(list: Seq<Ipv6Addr>, v6: Ipv6Addr)
    requires
        list.len() > 0,
        first_of_rank(list.drop_last(), v6),
    ensures
        first_of_rank(list, v6),
{
    let t = list.drop_last();
    let i: int = choose|i: int|
        0 <= i < t.len() && #[trigger] t[i] == v6 && forall|j: int|
            0 <= j < i ==> rank(#[trigger] t[j]) != rank(v6);
    assert(list[i] == v6);
    assert forall|j: int| 0 <= j < i implies rank(#[trigger] list[j]) != rank(v6) by {
        assert(t[j] == list[j]);
    }
}

/// An address of fe80::/10.
pub open spec fn within_the_link(a: Ipv6Addr) -> bool {
    0xfe80 <= a.s0 <= 0xfebf
}

/// An address of fc00::/7.
pub open spec fn within_the_site(a: Ipv6Addr) -> bool {
    0xfc00 <= a.s0 <= 0xfdff
}

/// No multicast address, and neither `::` nor `::1`.
pub open spec fn of_one_host(a: Ipv6Addr) -> bool {
    a.s0 < 0xff00 && !(a.s0 == 0 && a.s1 == 0 && a.s2 == 0 && a.s3 == 0 && a.s4 == 0 && a.s5 == 0
        && a.s6 == 0 && a.s7 <= 1)
}

/// What is picked as the source: an address of the link where one was scanned, else one of the site,
/// else any other that names one host; the routable source likewise, but never one of the link. There
/// is none only where no scanned address would do.
pub proof fn law_the_nearest_source_is_preferred(list: Seq<Ipv6Addr>, a: Ipv6Addr)
    requires
        list.contains(a),
        of_one_host(a),
    ensures
        ({
            let p = picked(list).addrs;
            &&& p.v6 matches Some(x) && list.contains(x) && of_one_host(x) && (within_the_link(a)
                ==> within_the_link(x)) && (within_the_site(a) ==> within_the_link(x)
                || within_the_site(x))
            &&& !within_the_link(a) ==> (p.v6_routable matches Some(x) && list.contains(x)
                && of_one_host(x) && !within_the_link(x) && (within_the_site(a)
                ==> within_the_site(x)))
        }),
{
    law_the_best_source_is_picked(list);
    let i: int = choose|i: int| 0 <= i < list.len() && list[i] == a;
    assert(rank(list[i]) != V6Rank::NotASource);
}

/// Where no scanned address names one host, there is no source; where all that do are of the link, there
/// is no routable one.
pub proof fn law_no_source_without_an_address(list: Seq<Ipv6Addr>)
    ensures
        (forall|i: int| 0 <= i < list.len() ==> !of_one_host(#[trigger] list[i]))
            ==> picked(list).addrs.v6 is None,
        (forall|i: int|
            0 <= i < list.len() ==> !of_one_host(#[trigger] list[i]) || within_the_link(list[i]))
            ==> picked(list).addrs.v6_routable is None,
{
    law_the_best_source_is_picked(list);
    let p = picked(list).addrs;
    if let Some(x) = p.v6 {
        let i: int = choose|i: int| 0 <= i < list.len() && list[i] == x;
        assert(of_one_host(list[i]));
    }
    if let Some(x) = p.v6_routable {
        let i: int = choose|i: int| 0 <= i < list.len() && list[i] == x;
        assert(of_one_host(list[i]) && !within_the_link(list[i]));
    }
}

/// After any scan, the source is one of the scanned addresses, none outranks it and it is the first of
/// its rank; the routable source likewise among those beyond the link. There is none only where no
/// address is a source.
pub proof fn law_the_best_source_is_picked(list: Seq<Ipv6Addr>)
    ensures
        ({
            let p = picked(list);
            &&& match p.addrs.v6 {
                Some(v6) => {
                    &&& list.contains(v6)
                    &&& first_of_rank(list, v6)
                    &&& rank(v6) == p.pick.best_rank
                    &&& rank(v6) != V6Rank::NotASource
                },
                None => true,
            }
            &&& match p.addrs.v6_routable {
                Some(v6) => {
                    &&& list.contains(v6)
                    &&& first_of_rank(list, v6)
                    &&& rank(v6) == p.pick.best_routable_rank
                    &&& rank(v6) != V6Rank::NotASource
                    &&& rank(v6) != V6Rank::LinkLocal
                    &&& p.addrs.v6 is Some
                },
                None => true,
            }
            &&& forall|i: int|
                0 <= i < list.len() && rank(#[trigger] list[i]) != V6Rank::NotASource
                    ==> p.addrs.v6 is Some && rank(list[i]).place() <= p.pick.best_rank.place()
            &&& forall|i: int|
                0 <= i < list.len() && rank(#[trigger] list[i]) != V6Rank::NotASource && rank(
                    list[i],
                ) != V6Rank::LinkLocal ==> p.addrs.v6_routable is Some && rank(list[i]).place()
                    <= p.pick.best_routable_rank.place()
        }),
    decreases list.len(),
{
    if list.len() > 0 {
        let t = list.drop_last();
        law_the_best_source_is_picked(t);
        let before = picked(t);
        let p = picked(list);
        assert(list.last() == list[list.len() - 1]);
        assert forall|j: int| 0 <= j < t.len() implies t[j] == list[j] by {}
        if p.addrs.v6 != before.addrs.v6 || p.addrs.v6_routable != before.addrs.v6_routable {
            assert forall|j: int| 0 <= j < t.len() implies rank(#[trigger] list[j]) != rank(
                list.last(),
            ) by {
                assert(t[j] == list[j]);
            }
        }
        match before.addrs.v6 {
            Some(v6) => {
                let i: int = choose|i: int| 0 <= i < t.len() && t[i] == v6;
                assert(list[i] == v6);
                lemma_first_of_rank_stays(list, v6);
            },
            None => {},
        }
        match before.addrs.v6_routable {
            Some(v6) => {
                let i: int = choose|i: int| 0 <= i < t.len() && t[i] == v6;
                assert(list[i] == v6);
                lemma_first_of_rank_stays(list, v6);
            },
            None => {},
        }
        assert forall|i: int|
            0 <= i < list.len() && rank(#[trigger] list[i])
                != V6Rank::NotASource implies p.addrs.v6 is Some && rank(list[i]).place()
            <= p.pick.best_rank.place() by {
            if i < t.len() {
                assert(t[i] == list[i]);
            }
        }
        assert forall|i: int|
            0 <= i < list.len() && rank(#[trigger] list[i]) != V6Rank::NotASource && rank(list[i])
                != V6Rank::LinkLocal implies p.addrs.v6_routable is Some && rank(list[i]).place()
            <= p.pick.best_routable_rank.place() by {
            if i < t.len() {
                assert(t[i] == list[i]);
            }
        }
    }
}

/// A subnet has a directed broadcast where its prefix is known and leaves at least two bits to its
/// hosts.
pub proof fn law_which_subnet_has_a_directed_broadcast(a: InterfaceAddresses)
    ensures
        a.directed_broadcast() is Some <==> a.v4 is Some && a.v4_prefix is Some && (a.v4_prefix->0)
            < 31,
{
}

/// A send is from an address of its destination's scope where there is one, and from one of the other
/// scope else.
pub proof fn law_a_send_is_from_the_scope_of_its_destination(a: InterfaceAddresses)
    ensures
        a.source_v6(Ipv6Scope::LinkLocal) == a.v6,
        a.v6_routable is Some ==> a.source_v6(Ipv6Scope::Routable) == a.v6_routable,
        a.v6_routable is None ==> a.source_v6(Ipv6Scope::Routable) == a.v6,
{
}

/// What is of the link: fe80::/10, and the groups of link-local scope; all else is beyond it.
pub proof fn law_which_destinations_are_of_the_link(a: Ipv6Addr)
    ensures
        Ipv6Scope::scope(a) == Ipv6Scope::LinkLocal <==> 0xfe80 <= a.s0 <= 0xfebf || (a.s0 >= 0xff00
            && a.s0 % 16 == 2),
{
}

/// A lookup that found an index gives it; one that ran out of something says so; any other found
/// nothing.
pub proof fn law_a_lookup_tells_absence_from_failure(index: u32, e: Errno)
    ensures
        index != 0 ==> looked_up(index, e) == Ok::<_, Errno>(Some(index)),
        looked_up(0, e) is Err <==> e == Errno::TooManyOpenFiles || e == Errno::FileTableFull || e
            == Errno::NoMemory || e == Errno::NoBufferSpace,
        looked_up(0, e) matches Err(said) ==> said == e,
        looked_up(0, e) matches Ok(found) ==> found is None,
{
}

/// A line is written of a field where it changed, and of none that did not.
pub proof fn law_a_line_for_every_field_that_changed(
    name: Seq<char>,
    old: InterfaceAddresses,
    new: InterfaceAddresses,
)
    ensures
        change_lines(name, old, new).len() == (if old.v6 != new.v6 {
            1int
        } else {
            0
        }) + (if old.v6_routable != new.v6_routable {
            1int
        } else {
            0
        }) + (if old.mac != new.mac {
            1int
        } else {
            0
        }) + (if old.v4 != new.v4 {
            1int
        } else {
            0
        }),
{
}

} // verus!
