//! The dispatcher's interface table: every interface with its multicast joiner, and every capture
//! linked to its interface, all addressed by `Copy` index keys.
//!
//! The caller asks the system; what it answered comes in with the call.

pub mod repair;

use vstd::prelude::*;

use std::collections::hash_map::DefaultHasher;
use std::hash::Hasher;
use vstd::std_specs::hash::DefaultHasherAdditionalSpecFns;

use crate::capture::Capture;
use crate::dispatch::counters;
use crate::dispatch::counters::{CaptureCounters, Counts, Outcome};
use crate::dispatch::multicast;
use crate::dispatch::multicast::{Attempt, Memberships, MulticastJoiner, Report};
use crate::dispatch::CaptureKey;
use crate::errno::Errno;
use crate::interface;
use crate::interface::{AddressChange, Interface, InterfaceAddresses, Resolved};
use crate::net::ip::IpAddr;
use crate::net::LinkType;
use crate::text;

verus! {

/// A `Copy` index into the table's interface entries; insert-only, so stable.
#[derive(Clone, Copy, PartialEq, Eq, Structural, Debug)]
pub struct InterfaceKey {
    pub index: u32,
}

/// A stale entry from [`stale_interfaces`](InterfaceTable::stale_interfaces).
#[derive(Clone, Copy, PartialEq, Eq, Structural, Debug)]
pub struct StaleInterface {
    pub key: InterfaceKey,
    /// The cached identity; 0 while parked absent.
    pub cached: u32,
    /// What the name resolves to now; 0 for nothing.
    pub cur: u32,
}

/// `capture` is `None` while taken out for its drain; the rest stays resident, so addresses resolve
/// and outcomes record mid-drain.
#[derive(Debug)]
pub struct CaptureEntry {
    pub capture: Option<Capture>,
    pub interface: InterfaceKey,
    pub counters: CaptureCounters,
    /// The packet last sent here (numbered from 1) and a hash of each frame sent for it.
    pub sent_packet: u64,
    pub sent: Vec<u64>,
}

#[derive(Debug)]
pub struct InterfaceEntry {
    pub interface: Interface,
    pub joiner: MulticastJoiner,
}

#[derive(Debug)]
pub struct InterfaceTable {
    pub entries: Vec<InterfaceEntry>,
    pub captures: Vec<CaptureEntry>,
    pub join_groups: bool,
}

/// What the table knows of an interface.
#[verifier::ext_equal]
pub struct Link {
    pub name: Seq<char>,
    pub ifindex: u32,
    pub addrs: InterfaceAddresses,
    pub mtu: Option<u32>,
    pub joiner: Memberships,
}

/// What the table knows of a capture that is in place.
#[verifier::ext_equal]
pub struct Tap {
    pub fd: i32,
    pub link_type: LinkType,
    pub name: Seq<char>,
}

/// What the table keeps for a capture.
#[verifier::ext_equal]
pub struct Row {
    pub capture: Option<Tap>,
    pub interface: InterfaceKey,
    pub counts: Counts,
    pub sent_packet: u64,
    pub sent: Seq<u64>,
}

/// What the table holds.
#[verifier::ext_equal]
pub struct Table {
    pub links: Seq<Link>,
    pub rows: Seq<Row>,
    pub join_groups: bool,
}

impl View for InterfaceEntry {
    type V = Link;

    open spec fn view(&self) -> Link {
        Link {
            name: self.interface.name@,
            ifindex: self.interface.ifindex,
            addrs: self.interface.addrs,
            mtu: self.interface.mtu,
            joiner: self.joiner@,
        }
    }
}

/// What there is to know of a capture.
pub open spec fn tap(capture: Option<Capture>) -> Option<Tap> {
    match capture {
        Some(c) => Some(Tap { fd: c.fd, link_type: c.link_type, name: c.name@ }),
        None => None,
    }
}

impl View for CaptureEntry {
    type V = Row;

    open spec fn view(&self) -> Row {
        Row {
            capture: tap(self.capture),
            interface: self.interface,
            counts: self.counters@,
            sent_packet: self.sent_packet,
            sent: self.sent@,
        }
    }
}

/// What the entries hold.
pub open spec fn links(entries: Seq<InterfaceEntry>) -> Seq<Link> {
    Seq::new(entries.len(), |i: int| entries[i]@)
}

/// What the captures' entries hold.
pub open spec fn rows(captures: Seq<CaptureEntry>) -> Seq<Row> {
    Seq::new(captures.len(), |i: int| captures[i]@)
}

impl View for InterfaceTable {
    type V = Table;

    open spec fn view(&self) -> Table {
        Table {
            links: links(self.entries@),
            rows: rows(self.captures@),
            join_groups: self.join_groups,
        }
    }
}

/// What stands for a frame among those sent.
pub open spec fn digest(frame: Seq<u8>) -> u64 {
    DefaultHasher::spec_finish(seq![frame])
}

fn hash(frame: &[u8]) -> (r: u64)
    ensures
        r == digest(frame@),
{
    let mut hasher = DefaultHasher::new();
    hasher.write(frame);
    assert(hasher@ =~= seq![frame@]);
    hasher.finish()
}

/// The first interface at a kernel index; the number of interfaces where there is none.
pub open spec fn at_ifindex(links: Seq<Link>, ifindex: u32) -> int
    decreases links.len(),
{
    if links.len() == 0 || links[0].ifindex == ifindex {
        0
    } else {
        1 + at_ifindex(links.skip(1), ifindex)
    }
}

/// The first interface of a name; the number of interfaces where there is none.
pub open spec fn of_name(links: Seq<Link>, name: Seq<char>) -> int
    decreases links.len(),
{
    if links.len() == 0 || links[0].name == name {
        0
    } else {
        1 + of_name(links.skip(1), name)
    }
}

/// `at_ifindex` is the first of its kind.
pub proof fn lemma_at_ifindex(links: Seq<Link>, ifindex: u32)
    ensures
        0 <= at_ifindex(links, ifindex) <= links.len(),
        forall|i: int|
            0 <= i < at_ifindex(links, ifindex) ==> (#[trigger] links[i]).ifindex != ifindex,
        at_ifindex(links, ifindex) < links.len() ==> links[at_ifindex(links, ifindex)].ifindex
            == ifindex,
    decreases links.len(),
{
    if links.len() > 0 && links[0].ifindex != ifindex {
        let t = links.skip(1);
        lemma_at_ifindex(t, ifindex);
        assert forall|i: int| 0 <= i < at_ifindex(links, ifindex) implies (#[trigger]
        links[i]).ifindex != ifindex by {
            if i > 0 {
                assert(links[i] == t[i - 1]);
            }
        }
    }
}

/// `of_name` is the first of its kind.
pub proof fn lemma_of_name(links: Seq<Link>, name: Seq<char>)
    ensures
        0 <= of_name(links, name) <= links.len(),
        forall|i: int| 0 <= i < of_name(links, name) ==> (#[trigger] links[i]).name != name,
        of_name(links, name) < links.len() ==> links[of_name(links, name)].name == name,
    decreases links.len(),
{
    if links.len() > 0 && links[0].name != name {
        let t = links.skip(1);
        lemma_of_name(t, name);
        assert forall|i: int| 0 <= i < of_name(links, name) implies (#[trigger] links[i]).name
            != name by {
            if i > 0 {
                assert(links[i] == t[i - 1]);
            }
        }
    }
}

/// The keys of the captures of an interface, in order.
pub open spec fn captures_on(rows: Seq<Row>, interface: InterfaceKey) -> Seq<CaptureKey>
    decreases rows.len(),
{
    if rows.len() == 0 {
        Seq::empty()
    } else {
        let before = captures_on(rows.drop_last(), interface);
        if rows.last().interface == interface {
            before.push(CaptureKey { index: (rows.len() - 1) as u32 })
        } else {
            before
        }
    }
}

impl Row {
    /// An equal frame went out for the packet.
    pub open spec fn has_sent(self, packet: u64, frame: Seq<u8>) -> bool {
        self.sent_packet == packet && self.sent.contains(digest(frame))
    }

    /// With a frame that went out for the packet; what went out for another is forgotten.
    pub open spec fn sending(self, packet: u64, frame: Seq<u8>) -> Row {
        Row {
            sent_packet: packet,
            sent: (if self.sent_packet == packet {
                self.sent
            } else {
                Seq::empty()
            }).push(digest(frame)),
            ..self
        }
    }
}

/// A frame counts as sent from when it goes out until the first frame of another packet does, and
/// nothing is taken for sent that did not go out.
pub proof fn law_a_sent_frame_is_known_until_the_next_packet(
    row: Row,
    packet: u64,
    frame: Seq<u8>,
    later: u64,
    other: Seq<u8>,
)
    ensures
        row.sending(packet, frame).has_sent(packet, frame),
        row.sending(packet, frame).sending(packet, other).has_sent(packet, frame),
        later != packet ==> !row.sending(packet, frame).has_sent(later, other),
        later != packet ==> !row.sending(packet, frame).sending(later, other).has_sent(
            packet,
            frame,
        ),
        row.sending(packet, frame).has_sent(packet, other) ==> digest(other) == digest(frame)
            || row.has_sent(packet, other),
{
    let a = row.sending(packet, frame);
    assert(a.sent[a.sent.len() - 1] == digest(frame));
    let b = a.sending(packet, other);
    assert(b.sent[a.sent.len() - 1] == digest(frame));
    if a.has_sent(packet, other) && digest(other) != digest(frame) {
        let k: int = choose|k: int| 0 <= k < a.sent.len() && a.sent[k] == digest(other);
        assert(k < a.sent.len() - 1);
        assert(row.sent[k] == digest(other));
    }
}

/// What the system said of one name: nothing, if the lookup could not run.
pub open spec fn current_index(lookup: Result<Option<u32>, Errno>) -> Option<u32> {
    match lookup {
        Ok(Some(index)) => Some(index),
        Ok(None) => Some(0),
        Err(_) => None,
    }
}

/// The row's capture is in place on that interface, and bound to another index.
pub open spec fn detached(row: Row, bound: Option<u32>, interface: InterfaceKey, cur: u32) -> bool {
    row.interface == interface && row.capture is Some && bound != Some(cur)
}

/// One of the captures is on that interface, in place, and bound to another index.
pub open spec fn any_detached(
    rows: Seq<Row>,
    bound: Seq<Option<u32>>,
    interface: InterfaceKey,
    cur: u32,
) -> bool {
    exists|j: int| 0 <= j < rows.len() && detached(#[trigger] rows[j], bound[j], interface, cur)
}

/// How an interface is stale, if it is.
pub open spec fn staleness(
    link: Link,
    key: InterfaceKey,
    lookup: Result<Option<u32>, Errno>,
    rows: Seq<Row>,
    bound: Seq<Option<u32>>,
) -> Option<StaleInterface> {
    match current_index(lookup) {
        Some(cur) => if cur != link.ifindex || cur != 0 && any_detached(rows, bound, key, cur) {
            Some(StaleInterface { key, cached: link.ifindex, cur })
        } else {
            None
        },
        None => None,
    }
}

/// The stale ones among the first `n` interfaces.
pub open spec fn stale(
    t: Table,
    lookups: Seq<Result<Option<u32>, Errno>>,
    bound: Seq<Option<u32>>,
    n: nat,
) -> Seq<StaleInterface>
    decreases n,
{
    if n == 0 {
        Seq::empty()
    } else {
        let before = stale(t, lookups, bound, (n - 1) as nat);
        match staleness(
            t.links[n - 1],
            InterfaceKey { index: (n - 1) as u32 },
            lookups[n - 1],
            t.rows,
            bound,
        ) {
            Some(s) => before.push(s),
            None => before,
        }
    }
}

impl Link {
    /// With what the system says now; a failed resolution leaves it as it was.
    pub open spec fn resolved(self, refreshed: Result<Resolved, Errno>) -> Link {
        match refreshed {
            Ok(r) => Link { addrs: r.addrs, mtu: r.mtu, ..self },
            Err(_) => self,
        }
    }

    /// With its groups attempted again, unless it is parked absent.
    pub open spec fn rejoined(self, attempts: Seq<Attempt>) -> Link {
        if self.ifindex != 0 {
            Link { joiner: self.joiner.rejoined(attempts), ..self }
        } else {
            self
        }
    }

    /// Which source fields change with what the system says now.
    pub open spec fn change(self, refreshed: Result<Resolved, Errno>) -> Result<
        AddressChange,
        Errno,
    > {
        match refreshed {
            Ok(r) => Ok(interface::change(self.addrs, r.addrs)),
            Err(e) => Err(e),
        }
    }

    /// The log lines of what changes with what the system says now.
    pub open spec fn lines(self, refreshed: Result<Resolved, Errno>) -> Seq<Seq<char>> {
        match refreshed {
            Ok(r) => interface::change_lines(self.name, self.addrs, r.addrs),
            Err(_) => Seq::empty(),
        }
    }

    /// What is to be logged of the groups that were attempted again.
    pub open spec fn reports(self, attempts: Seq<Attempt>) -> Seq<Report> {
        if self.ifindex != 0 {
            self.joiner.rejoin_reports(attempts)
        } else {
            Seq::empty()
        }
    }

    /// What comes of refreshing it; its groups are attempted again if `tried`.
    pub open spec fn said(
        self,
        refreshed: Result<Resolved, Errno>,
        attempts: Seq<Attempt>,
        tried: bool,
    ) -> Said {
        Said {
            ifindex: self.ifindex,
            change: self.change(refreshed),
            lines: self.lines(refreshed),
            reports: if tried {
                self.reports(attempts)
            } else {
                Seq::empty()
            },
        }
    }

    /// Re-pointed at a kernel index, on fresh sockets.
    pub open spec fn pointed(self, cur: u32) -> Link {
        Link { ifindex: cur, joiner: self.joiner.without_sockets(), ..self }
    }

    /// Re-pointed at a kernel index, resolved and re-joined; a failed resolution keeps the identity.
    pub open spec fn rebound(
        self,
        cur: u32,
        refreshed: Result<Resolved, Errno>,
        attempts: Seq<Attempt>,
    ) -> Link {
        let after = self.pointed(cur).resolved(refreshed).rejoined(attempts);
        match refreshed {
            Ok(_) => after,
            Err(_) => Link { ifindex: self.ifindex, ..after },
        }
    }
}

impl Table {
    /// Nothing is counted beyond the message types, and no joiner lists a group twice.
    pub open spec fn wf(self) -> bool {
        &&& forall|i: int|
            0 <= i < self.rows.len() ==> (#[trigger] self.rows[i]).counts.types.len()
                == counters::MESSAGE_TYPE_COUNT
        &&& forall|i: int| 0 <= i < self.links.len() ==> (#[trigger] self.links[i]).joiner.wf()
        &&& self.rows.len() <= u32::MAX
        &&& self.links.len() <= u32::MAX
    }

    pub open spec fn with_link(self, i: int, link: Link) -> Table {
        Table { links: self.links.update(i, link), ..self }
    }

    pub open spec fn with_row(self, i: int, row: Row) -> Table {
        Table { rows: self.rows.update(i, row), ..self }
    }

    /// The interface of a capture.
    pub open spec fn interface_at(self, capture: CaptureKey) -> Option<InterfaceKey> {
        if capture.index < self.rows.len() {
            Some(self.rows[capture.index as int].interface)
        } else {
            None
        }
    }

    /// What is known of the interface behind a capture.
    pub open spec fn link_at(self, capture: CaptureKey) -> Option<Link> {
        match self.interface_at(capture) {
            Some(key) => if key.index < self.links.len() {
                Some(self.links[key.index as int])
            } else {
                None
            },
            None => None,
        }
    }

    /// The addresses behind a capture.
    pub open spec fn addrs_at(self, capture: CaptureKey) -> Option<InterfaceAddresses> {
        match self.link_at(capture) {
            Some(link) => Some(link.addrs),
            None => None,
        }
    }

    /// The MTU behind a capture.
    pub open spec fn mtu_at(self, capture: CaptureKey) -> Option<u32> {
        match self.link_at(capture) {
            Some(link) => link.mtu,
            None => None,
        }
    }

    /// The capture behind a key, where it is in place.
    pub open spec fn capture_at(self, capture: CaptureKey) -> Option<Tap> {
        if capture.index < self.rows.len() {
            self.rows[capture.index as int].capture
        } else {
            None
        }
    }

    /// The captures on the first interface at a kernel index.
    pub open spec fn keys_at(self, ifindex: u32) -> Seq<CaptureKey> {
        let i: int = at_ifindex(self.links, ifindex);
        if i < self.links.len() {
            captures_on(self.rows, InterfaceKey { index: i as u32 })
        } else {
            Seq::empty()
        }
    }

    /// An interface is parked absent.
    pub open spec fn has_absent(self) -> bool {
        exists|i: int| 0 <= i < self.links.len() && (#[trigger] self.links[i]).ifindex == 0
    }

    /// Every capture on the first interface at `ifindex` is still bound to it.
    pub open spec fn attached(self, ifindex: u32, bound: Seq<Option<u32>>) -> bool {
        let i: int = at_ifindex(self.links, ifindex);
        i < self.links.len() ==> !any_detached(
            self.rows,
            bound,
            InterfaceKey { index: i as u32 },
            ifindex,
        )
    }

    /// With the interface re-pointed, resolved and re-joined.
    pub open spec fn rebound(
        self,
        key: InterfaceKey,
        cur: u32,
        refreshed: Result<Resolved, Errno>,
        attempts: Seq<Attempt>,
    ) -> Table {
        let i: int = key.index as int;
        self.with_link(i, self.links[i].rebound(cur, refreshed, attempts))
    }

    /// With the capture re-bound to the interface of its name.
    pub open spec fn capture_rebound(self, key: CaptureKey, rebind: Result<LinkType, Errno>) -> Table {
        match (self.capture_at(key), rebind) {
            (Some(tap), Ok(link_type)) => self.with_row(
                key.index as int,
                Row {
                    capture: Some(Tap { link_type, ..tap }),
                    ..self.rows[key.index as int]
                },
            ),
            _ => self,
        }
    }
}

/// Refreshing one entry: what changed, the log lines and what came of the re-joins.
#[derive(Debug)]
pub struct Refreshed {
    pub ifindex: u32,
    pub change: Result<AddressChange, Errno>,
    pub lines: Vec<String>,
    pub reports: Vec<Report>,
}

/// What the system says of one interface, and what came of asking for its groups again.
#[derive(Debug)]
pub struct Answer {
    pub refreshed: Result<Resolved, Errno>,
    pub attempts: Vec<Attempt>,
}

/// What came of refreshing one entry.
#[verifier::ext_equal]
pub struct Said {
    pub ifindex: u32,
    pub change: Result<AddressChange, Errno>,
    pub lines: Seq<Seq<char>>,
    pub reports: Seq<Report>,
}

impl View for Refreshed {
    type V = Said;

    open spec fn view(&self) -> Said {
        Said {
            ifindex: self.ifindex,
            change: self.change,
            lines: text::views(self.lines@),
            reports: self.reports@,
        }
    }
}

impl InterfaceTable {
    pub fn new() -> (r: Self)
        ensures
            r@.wf(),
            r@ == (Table { links: Seq::empty(), rows: Seq::empty(), join_groups: true }),
    {
        let r = InterfaceTable { entries: Vec::new(), captures: Vec::new(), join_groups: true };
        assert(r@ =~= Table { links: Seq::empty(), rows: Seq::empty(), join_groups: true });
        r
    }

    /// A table whose interfaces join no multicast group: `--no-join`.
    pub fn without_group_joins() -> (r: Self)
        ensures
            r@.wf(),
            r@ == (Table { links: Seq::empty(), rows: Seq::empty(), join_groups: false }),
    {
        let r = InterfaceTable { entries: Vec::new(), captures: Vec::new(), join_groups: false };
        assert(r@ =~= Table { links: Seq::empty(), rows: Seq::empty(), join_groups: false });
        r
    }

    /// Startup-only.
    fn add_interface(&mut self, interface: Interface) -> (r: InterfaceKey)
        requires
            old(self)@.wf(),
            old(self)@.links.len() < u32::MAX,
        ensures
            final(self)@.wf(),
            r.index == old(self)@.links.len(),
            final(self)@ == (Table {
                links: old(self)@.links.push(opened_link(interface, old(self)@.join_groups)),
                ..old(self)@
            }),
    {
        assert(self.entries@.len() == self@.links.len());
        let key = InterfaceKey { index: self.entries.len() as u32 };
        let joiner = if self.join_groups {
            MulticastJoiner::new()
        } else {
            MulticastJoiner::inert()
        };
        self.entries.push(InterfaceEntry { interface, joiner });
        assert(self@.links =~= old(self)@.links.push(
            opened_link(interface, old(self)@.join_groups),
        ));
        key
    }

    /// The key of the interface of that name.
    pub fn find_interface(&self, name: &str) -> (r: Option<InterfaceKey>)
        requires
            self@.wf(),
        ensures
            match r {
                Some(key) => key.index == of_name(self@.links, name@) && key.index
                    < self@.links.len(),
                None => of_name(self@.links, name@) == self@.links.len(),
            },
    {
        proof {
            lemma_of_name(self@.links, name@);
        }
        let wanted = name.to_owned();
        let mut i: usize = 0;
        while i < self.entries.len()
            invariant
                self@.wf(),
                wanted@ == name@,
                i <= of_name(self@.links, name@) <= self@.links.len(),
                of_name(self@.links, name@) < self@.links.len() ==> self@.links[of_name(
                    self@.links,
                    name@,
                )].name == name@,
                forall|j: int|
                    0 <= j < of_name(self@.links, name@) ==> (#[trigger] self@.links[j]).name
                        != name@,
            decreases self.entries@.len() - i,
        {
            assert(self@.links[i as int] == self.entries@[i as int]@);
            if self.entries[i].interface.name == wanted {
                return Some(InterfaceKey { index: i as u32 });
            }
            i += 1;
        }
        None
    }

    /// The key of the interface of `opened`'s name, which is added where there is none. A caller
    /// opens one only where [`find_interface`](Self::find_interface) finds nothing.
    pub fn find_or_add_interface(&mut self, opened: Interface) -> (r: InterfaceKey)
        requires
            old(self)@.wf(),
            old(self)@.links.len() < u32::MAX,
        ensures
            final(self)@.wf(),
            r.index == of_name(old(self)@.links, opened.name@),
            final(self)@ == (if r.index < old(self)@.links.len() {
                old(self)@
            } else {
                Table {
                    links: old(self)@.links.push(opened_link(opened, old(self)@.join_groups)),
                    ..old(self)@
                }
            }),
    {
        proof {
            lemma_of_name(self@.links, opened.name@);
        }
        match self.find_interface(opened.name.as_str()) {
            Some(key) => key,
            None => self.add_interface(opened),
        }
    }

    /// Where a group is to be joined on `interface`, by the kernel's index; `None` where it is not
    /// to be asked for: never join on index 0, which lets the kernel pick an arbitrary interface,
    /// nor for a table that joins nothing.
    pub fn join_index(&self, interface: InterfaceKey) -> (r: Option<u32>)
        requires
            interface.index < self@.links.len(),
        ensures
            r == ({
                let link = self@.links[interface.index as int];
                if link.ifindex != 0 && link.joiner.joins {
                    Some(link.ifindex)
                } else {
                    None
                }
            }),
    {
        let entry = &self.entries[interface.index as usize];
        if entry.interface.ifindex != 0 && entry.joiner.joins {
            Some(entry.interface.ifindex)
        } else {
            None
        }
    }

    /// Join `group` on `interface`, `attempt` saying what came of it, and record it for the replay
    /// on later address changes. While the interface is parked absent the group is recorded alone; a
    /// table that joins nothing asks for nothing.
    pub fn join_on(&mut self, interface: InterfaceKey, group: IpAddr, attempt: Attempt) -> (r: Result<
        (),
        Errno,
    >)
        requires
            old(self)@.wf(),
            interface.index < old(self)@.links.len(),
        ensures
            final(self)@.wf(),
            ({
                let i: int = interface.index as int;
                let link = old(self)@.links[i];
                &&& final(self)@ == old(self)@.with_link(
                    i,
                    Link {
                        joiner: if link.ifindex != 0 {
                            link.joiner.joined(group, attempt)
                        } else {
                            link.joiner.recorded(group)
                        },
                        ..link
                    },
                )
                &&& r == (if link.ifindex != 0 && link.joiner.joins {
                    multicast::landed(attempt)
                } else {
                    Ok(())
                })
            }),
    {
        let i: usize = interface.index as usize;
        assert(self@.links[i as int] == self.entries@[i as int]@);
        let r = if self.entries[i].interface.ifindex != 0 {
            self.entries[i].joiner.join(group, attempt)
        } else {
            let _ = self.entries[i].joiner.record(group);
            Ok(())
        };
        assert(self@.links =~= old(self)@.links.update(i as int, self.entries@[i as int]@));
        assert(self@.rows =~= old(self)@.rows);
        r
    }

    /// Whether an equal frame already went out on `egress` for the packet.
    pub fn was_sent(&self, egress: CaptureKey, packet: u64, frame: &[u8]) -> (r: bool)
        ensures
            r == (egress.index < self@.rows.len() && self@.rows[egress.index as int].has_sent(
                packet,
                frame@,
            )),
    {
        if egress.index as usize >= self.captures.len() {
            return false;
        }
        let entry = &self.captures[egress.index as usize];
        if entry.sent_packet != packet {
            return false;
        }
        let wanted: u64 = hash(frame);
        let mut i: usize = 0;
        while i < entry.sent.len()
            invariant
                egress.index < self@.rows.len(),
                self@.rows[egress.index as int] == entry@,
                entry.sent_packet == packet,
                wanted == digest(frame@),
                i <= entry.sent@.len(),
                forall|j: int| 0 <= j < i ==> #[trigger] entry.sent@[j] != wanted,
            decreases entry.sent@.len() - i,
        {
            if entry.sent[i] == wanted {
                assert(entry.sent@[i as int] == wanted);
                return true;
            }
            i += 1;
        }
        false
    }

    /// The frame went out on `egress` for the packet; an unknown egress changes nothing.
    pub fn record_sent(&mut self, egress: CaptureKey, packet: u64, frame: &[u8])
        requires
            old(self)@.wf(),
        ensures
            final(self)@.wf(),
            final(self)@ == (if egress.index < old(self)@.rows.len() {
                old(self)@.with_row(
                    egress.index as int,
                    old(self)@.rows[egress.index as int].sending(packet, frame@),
                )
            } else {
                old(self)@
            }),
    {
        let i: usize = egress.index as usize;
        if i < self.captures.len() {
            assert(self@.rows[i as int] == self.captures@[i as int]@);
            if self.captures[i].sent_packet != packet {
                self.captures[i].sent_packet = packet;
                self.captures[i].sent = Vec::new();
            }
            let wanted: u64 = hash(frame);
            self.captures[i].sent.push(wanted);
            assert(self.captures@[i as int]@ =~= old(self)@.rows[i as int].sending(packet, frame@));
            assert(self@.rows =~= old(self)@.rows.update(i as int, self.captures@[i as int]@));
            assert(self@.links =~= old(self)@.links);
        }
    }

    /// Startup-only.
    pub fn add_capture(&mut self, capture: Option<Capture>, interface: InterfaceKey) -> (r:
        CaptureKey)
        requires
            old(self)@.wf(),
            old(self)@.rows.len() < u32::MAX,
        ensures
            final(self)@.wf(),
            r.index == old(self)@.rows.len(),
            final(self)@ == (Table {
                rows: old(self)@.rows.push(
                    Row {
                        capture: tap(capture),
                        interface,
                        counts: counters::nothing_counted(),
                        sent_packet: 0,
                        sent: Seq::empty(),
                    },
                ),
                ..old(self)@
            }),
    {
        assert(self.captures@.len() == self@.rows.len());
        let key = CaptureKey { index: self.captures.len() as u32 };
        self.captures.push(
            CaptureEntry {
                capture,
                interface,
                counters: CaptureCounters::new(),
                sent_packet: 0,
                sent: Vec::new(),
            },
        );
        assert(self@.rows =~= old(self)@.rows.push(self.captures@[key.index as int]@));
        assert(self.captures@[key.index as int]@.sent =~= Seq::empty());
        key
    }

    pub fn interface_of(&self, capture: CaptureKey) -> (r: Option<InterfaceKey>)
        ensures
            r == self@.interface_at(capture),
    {
        if (capture.index as usize) < self.captures.len() {
            Some(self.captures[capture.index as usize].interface)
        } else {
            None
        }
    }

    /// 0 while the interface is parked absent.
    pub fn ifindex_of(&self, capture: CaptureKey) -> (r: Option<u32>)
        ensures
            r == match self@.link_at(capture) {
                Some(link) => Some(link.ifindex),
                None => None,
            },
    {
        match self.interface_of(capture) {
            Some(interface) => self.interface_index(interface),
            None => None,
        }
    }

    pub fn interface_name(&self, interface: InterfaceKey) -> (r: Option<&str>)
        ensures
            match r {
                Some(name) => interface.index < self@.links.len() && name@
                    == self@.links[interface.index as int].name,
                None => interface.index >= self@.links.len(),
            },
    {
        if (interface.index as usize) < self.entries.len() {
            Some(self.entries[interface.index as usize].interface.name.as_str())
        } else {
            None
        }
    }

    pub fn interface_index(&self, interface: InterfaceKey) -> (r: Option<u32>)
        ensures
            r == if interface.index < self@.links.len() {
                Some(self@.links[interface.index as int].ifindex)
            } else {
                None
            },
    {
        if (interface.index as usize) < self.entries.len() {
            Some(self.entries[interface.index as usize].interface.ifindex)
        } else {
            None
        }
    }

    pub fn egress_addrs(&self, capture: CaptureKey) -> (r: Option<InterfaceAddresses>)
        ensures
            r == self@.addrs_at(capture),
    {
        match self.interface_of(capture) {
            Some(interface) => if (interface.index as usize) < self.entries.len() {
                Some(self.entries[interface.index as usize].interface.addrs)
            } else {
                None
            },
            None => None,
        }
    }

    pub fn mtu_of(&self, capture: CaptureKey) -> (r: Option<u32>)
        ensures
            r == self@.mtu_at(capture),
    {
        match self.interface_of(capture) {
            Some(interface) => if (interface.index as usize) < self.entries.len() {
                self.entries[interface.index as usize].interface.mtu
            } else {
                None
            },
            None => None,
        }
    }

    pub fn capture(&self, capture: CaptureKey) -> (r: Option<&Capture>)
        ensures
            match r {
                Some(c) => self@.capture_at(capture) == tap(Some(*c)),
                None => self@.capture_at(capture) is None,
            },
    {
        if (capture.index as usize) < self.captures.len() {
            assert(self@.rows[capture.index as int] == self.captures@[capture.index as int]@);
            self.captures[capture.index as usize].capture.as_ref()
        } else {
            None
        }
    }

    /// In range, whether or not taken out.
    pub fn contains(&self, capture: CaptureKey) -> (r: bool)
        ensures
            r == (capture.index < self@.rows.len()),
    {
        (capture.index as usize) < self.captures.len()
    }

    /// `None`: out of range, or already taken out.
    pub fn take(&mut self, capture: CaptureKey) -> (r: Option<Capture>)
        requires
            old(self)@.wf(),
        ensures
            final(self)@.wf(),
            tap(r) == old(self)@.capture_at(capture),
            final(self)@ == (if capture.index < old(self)@.rows.len() {
                old(self)@.with_row(
                    capture.index as int,
                    Row { capture: None, ..old(self)@.rows[capture.index as int] },
                )
            } else {
                old(self)@
            }),
    {
        let i: usize = capture.index as usize;
        if i < self.captures.len() {
            assert(self@.rows[i as int] == self.captures@[i as int]@);
            let r = self.captures[i].capture.take();
            assert(self@.rows =~= old(self)@.rows.update(i as int, self.captures@[i as int]@));
            assert(self@.links =~= old(self)@.links);
            r
        } else {
            None
        }
    }

    /// Put a capture back; `false` where there is no such place.
    pub fn restore(&mut self, capture: CaptureKey, value: Capture) -> (r: bool)
        requires
            old(self)@.wf(),
        ensures
            final(self)@.wf(),
            r == (capture.index < old(self)@.rows.len()),
            final(self)@ == (if r {
                old(self)@.with_row(
                    capture.index as int,
                    Row { capture: tap(Some(value)), ..old(self)@.rows[capture.index as int] },
                )
            } else {
                old(self)@
            }),
    {
        let i: usize = capture.index as usize;
        if i < self.captures.len() {
            assert(self@.rows[i as int] == self.captures@[i as int]@);
            self.captures[i].capture = Some(value);
            assert(self@.rows =~= old(self)@.rows.update(i as int, self.captures@[i as int]@));
            assert(self@.links =~= old(self)@.links);
            true
        } else {
            false
        }
    }

    /// The row exists: the record methods only see keys the drain or the reconcile resolved.
    pub fn record(&mut self, capture: CaptureKey, outcome: Outcome)
        requires
            old(self)@.wf(),
            capture.index < old(self)@.rows.len(),
            old(self)@.rows[capture.index as int].counts.bucket(outcome) < u64::MAX,
        ensures
            final(self)@.wf(),
            final(self)@ == ({
                let row = old(self)@.rows[capture.index as int];
                old(self)@.with_row(
                    capture.index as int,
                    Row { counts: row.counts.counted(outcome), ..row },
                )
            }),
    {
        let i: usize = capture.index as usize;
        assert(self@.rows[i as int] == self.captures@[i as int]@);
        self.captures[i].counters.record(outcome);
        assert(self@.rows =~= old(self)@.rows.update(i as int, self.captures@[i as int]@));
        assert(self@.links =~= old(self)@.links);
    }

    pub fn record_recovery(&mut self, capture: CaptureKey)
        requires
            old(self)@.wf(),
            capture.index < old(self)@.rows.len(),
            old(self)@.rows[capture.index as int].counts.recoveries < u64::MAX,
        ensures
            final(self)@.wf(),
            final(self)@ == old(self)@.recovered(capture),
    {
        let i: usize = capture.index as usize;
        assert(self@.rows[i as int] == self.captures@[i as int]@);
        self.captures[i].counters.record_recovery();
        assert(self@.rows =~= old(self)@.rows.update(i as int, self.captures@[i as int]@));
        assert(self@.links =~= old(self)@.links);
    }

    pub fn record_oversized(&mut self, capture: CaptureKey, n: u64)
        requires
            old(self)@.wf(),
            capture.index < old(self)@.rows.len(),
            old(self)@.rows[capture.index as int].counts.oversized + n <= u64::MAX,
        ensures
            final(self)@.wf(),
            final(self)@ == ({
                let row = old(self)@.rows[capture.index as int];
                old(self)@.with_row(
                    capture.index as int,
                    Row {
                        counts: Counts {
                            oversized: (row.counts.oversized + n) as u64,
                            ..row.counts
                        },
                        ..row
                    },
                )
            }),
    {
        let i: usize = capture.index as usize;
        assert(self@.rows[i as int] == self.captures@[i as int]@);
        self.captures[i].counters.record_oversized(n);
        assert(self@.rows =~= old(self)@.rows.update(i as int, self.captures@[i as int]@));
        assert(self@.links =~= old(self)@.links);
    }

    pub fn record_echo(&mut self, capture: CaptureKey)
        requires
            old(self)@.wf(),
            capture.index < old(self)@.rows.len(),
            old(self)@.rows[capture.index as int].counts.echoed < u64::MAX,
        ensures
            final(self)@.wf(),
            final(self)@ == ({
                let row = old(self)@.rows[capture.index as int];
                old(self)@.with_row(
                    capture.index as int,
                    Row {
                        counts: Counts { echoed: (row.counts.echoed + 1) as u64, ..row.counts },
                        ..row
                    },
                )
            }),
    {
        let i: usize = capture.index as usize;
        assert(self@.rows[i as int] == self.captures@[i as int]@);
        self.captures[i].counters.record_echo();
        assert(self@.rows =~= old(self)@.rows.update(i as int, self.captures@[i as int]@));
        assert(self@.links =~= old(self)@.links);
    }
}

impl Table {
    /// With one more recovery counted on a capture.
    pub open spec fn recovered(self, capture: CaptureKey) -> Table {
        let row = self.rows[capture.index as int];
        self.with_row(
            capture.index as int,
            Row {
                counts: Counts { recoveries: (row.counts.recoveries + 1) as u64, ..row.counts },
                ..row
            },
        )
    }
}

/// A freshly opened interface, nothing joined.
pub open spec fn opened_link(opened: Interface, joins: bool) -> Link {
    Link {
        name: opened.name@,
        ifindex: opened.ifindex,
        addrs: opened.addrs,
        mtu: opened.mtu,
        joiner: multicast::no_memberships(joins),
    }
}

/// An interface is stale where its name is at another index than is recorded, or is gone, or where a
/// capture of it that is in place is bound elsewhere. What cannot be looked up is left alone, and so
/// is what is recorded as absent and still is.
pub proof fn law_what_is_stale(
    link: Link,
    key: InterfaceKey,
    cur: u32,
    e: Errno,
    rows: Seq<Row>,
    bound: Seq<Option<u32>>,
)
    ensures
        staleness(link, key, Err(e), rows, bound) is None,
        staleness(link, key, Ok(None), rows, bound) is Some <==> link.ifindex != 0,
        cur != 0 ==> (staleness(link, key, Ok(Some(cur)), rows, bound) is Some <==> link.ifindex
            != cur || exists|j: int|
            0 <= j < rows.len() && (#[trigger] rows[j]).interface == key && rows[j].capture is Some
                && bound[j] != Some(cur)),
        staleness(link, key, Ok(None), rows, bound) matches Some(s) ==> s.key == key && s.cached
            == link.ifindex && s.cur == 0,
        staleness(link, key, Ok(Some(cur)), rows, bound) matches Some(s) ==> s.key == key && s.cached
            == link.ifindex && s.cur == cur,
{
    if any_detached(rows, bound, key, cur) {
        let j: int = choose|j: int|
            0 <= j < rows.len() && detached(#[trigger] rows[j], bound[j], key, cur);
        assert(rows[j].interface == key);
    }
    if exists|j: int|
        0 <= j < rows.len() && (#[trigger] rows[j]).interface == key && rows[j].capture is Some
            && bound[j] != Some(cur) {
        let j: int = choose|j: int|
            0 <= j < rows.len() && (#[trigger] rows[j]).interface == key && rows[j].capture is Some
                && bound[j] != Some(cur);
        assert(detached(rows[j], bound[j], key, cur));
    }
}

/// The stale interfaces are listed once each, in order, and no other is.
pub proof fn law_every_stale_interface_is_listed(
    t: Table,
    lookups: Seq<Result<Option<u32>, Errno>>,
    bound: Seq<Option<u32>>,
    n: nat,
)
    requires
        n <= t.links.len() <= u32::MAX,
    ensures
        ({
            let all = stale(t, lookups, bound, n);
            &&& forall|k: int|
                0 <= k < all.len() ==> (#[trigger] all[k]).key.index < n && staleness(
                    t.links[all[k].key.index as int],
                    all[k].key,
                    lookups[all[k].key.index as int],
                    t.rows,
                    bound,
                ) == Some(all[k])
            &&& forall|a: int, b: int|
                0 <= a < b < all.len() ==> (#[trigger] all[a]).key.index < (
                #[trigger] all[b]).key.index
            &&& forall|i: int|
                0 <= i < n && staleness(
                    #[trigger] t.links[i],
                    InterfaceKey { index: i as u32 },
                    lookups[i],
                    t.rows,
                    bound,
                ) is Some ==> exists|k: int| 0 <= k < all.len() && (#[trigger] all[k]).key.index == i
        }),
    decreases n,
{
    if n > 0 {
        let m = (n - 1) as nat;
        law_every_stale_interface_is_listed(t, lookups, bound, m);
        let before = stale(t, lookups, bound, m);
        let all = stale(t, lookups, bound, n);
        assert forall|k: int| 0 <= k < before.len() implies all[k] == before[k] by {}
        assert forall|i: int|
            0 <= i < n && staleness(
                #[trigger] t.links[i],
                InterfaceKey { index: i as u32 },
                lookups[i],
                t.rows,
                bound,
            ) is Some implies exists|k: int|
            0 <= k < all.len() && (#[trigger] all[k]).key.index == i by {
            if i < m {
                let k: int = choose|k: int|
                    0 <= k < before.len() && (#[trigger] before[k]).key.index == i;
                assert(all[k] == before[k]);
            } else {
                assert(all[all.len() - 1].key.index == i);
            }
        }
    }
}

/// What is known of a capture's interface is what is recorded of the interface that its row names.
pub proof fn law_a_capture_has_what_its_interface_has(t: Table, c: CaptureKey)
    ensures
        c.index >= t.rows.len() ==> t.addrs_at(c) is None && t.mtu_at(c) is None && t.capture_at(c)
            is None && t.interface_at(c) is None,
        c.index < t.rows.len() ==> {
            let i: int = t.rows[c.index as int].interface.index as int;
            &&& t.capture_at(c) == t.rows[c.index as int].capture
            &&& i < t.links.len() ==> t.addrs_at(c) == Some(t.links[i].addrs) && t.mtu_at(c)
                == t.links[i].mtu
            &&& i >= t.links.len() ==> t.addrs_at(c) is None && t.mtu_at(c) is None
        },
{
}

/// An interface's groups are attempted again only while it is there; one that is re-pointed has fresh
/// sockets, and wants what it wanted.
pub proof fn law_a_repointed_interface_wants_what_it_wanted(
    link: Link,
    cur: u32,
    attempts: Seq<Attempt>,
)
    ensures
        link.pointed(cur).ifindex == cur,
        !link.pointed(cur).joiner.v4 && !link.pointed(cur).joiner.v6,
        link.pointed(cur).joiner.desired == link.joiner.desired,
        link.pointed(cur).addrs == link.addrs,
        link.ifindex == 0 ==> link.rejoined(attempts) == link,
        link.ifindex != 0 ==> link.rejoined(attempts).joiner == link.joiner.rejoined(attempts),
{
}

} // verus!
