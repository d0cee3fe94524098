//! Packet dispatch: the routing layer between captures and reflectors.
//!
//! [`PacketDispatcher`] is the single owner of every interface [`Capture`] (each linked to its
//! interface and addressed by a `Copy` [`CaptureKey`]) and of the routing registrations. When an
//! interface's fd is readable, a drain takes that capture *out* of the table, reads it, and offers
//! each parsed [`Packet`] to every registration whose [`Filter`] matches. A matching reflector
//! re-emits on the opposite interface, keyed.
//!
//! The caller holds the handlers and does the reads and sends; the dispatcher decides which handler
//! is next, what is counted and when the work of an event is done. Taking the ingress capture out
//! makes a drain of it from inside a handler a refused one. `egress == ingress` can't arise:
//! reflectors bridge A→B, never A→A. If it did, the key resolves to the taken-out slot and the send
//! is a logged drop.

pub mod counters;
pub mod dial_context;
pub mod egress;
pub mod filter;
pub mod interface_table;
pub mod lifecycle;
pub mod multicast;
pub mod routing;

use vstd::prelude::*;

use crate::capture::Capture;
use crate::dispatch::dial_context::DialContext;
use crate::dispatch::egress::Egress;
use crate::dispatch::filter::Filter;
use crate::dispatch::interface_table::{InterfaceTable, Table};
use crate::dispatch::lifecycle::InterfaceLifecycle;
use crate::dispatch::multicast::Attempt;
use crate::errno::Errno;
use crate::interface::{Interface, InterfaceAddresses};
use crate::linear_map;
use crate::linear_map::LinearMap;
use crate::net::ip::IpAddr;
use crate::net::packet::Packet;
use crate::net::LinkType;

verus! {

/// The most frames drained per readable event before yielding, so a flooded interface can't starve
/// the others. `AF_PACKET` stops here and the level-triggered wait re-reports the rest; BPF finishes
/// its current userland batch past this, since the wait won't re-fire for those already-read records.
pub const MAX_FRAMES_PER_EVENT: u32 = 64;

/// The reactor tag for the interface monitor's fd. A [`CaptureKey`] packs a `u32`, so `u64::MAX`
/// never collides with a real capture.
pub const MONITOR_TAG: u64 = 0xffff_ffff_ffff_ffff;

/// A `Copy` handle to a capture the dispatcher owns: an index into the interface table's captures.
/// A newtype, not a bare alias, so it can't be passed where an
/// [`InterfaceKey`](interface_table::InterfaceKey) or a reactor key is expected, where it would
/// silently miss instead of failing to compile. Captures are insert-only, so the index is a stable
/// identity (no generation).
#[derive(Clone, Copy, PartialEq, Eq, Structural, Debug)]
pub struct CaptureKey {
    pub index: u32,
}

impl CaptureKey {
    /// Pack into the reactor's opaque tag, recoverable via [`from_u64`](Self::from_u64).
    #[verifier::allow_in_spec]
    pub fn to_u64(self) -> (r: u64)
        returns
            self.index as u64,
    {
        self.index as u64
    }

    /// The key that a tag packs: its low half.
    pub open spec fn unpacked(packed: u64) -> CaptureKey {
        CaptureKey { index: (packed % 0x1_0000_0000) as u32 }
    }

    /// Reconstruct a key packed by [`to_u64`](Self::to_u64).
    pub fn from_u64(packed: u64) -> (r: Self)
        ensures
            r == Self::unpacked(packed),
    {
        CaptureKey { index: (packed % 0x1_0000_0000) as u32 }
    }
}

/// A packed key is recovered, and is never the monitor's tag.
pub proof fn law_packed_key_is_recovered(key: CaptureKey)
    ensures
        CaptureKey::unpacked(key.to_u64()) == key,
        key.to_u64() != MONITOR_TAG,
{
}

/// A `Copy` handle to a routing registration, newtyped so it can't be confused with a reactor key or
/// a [`CaptureKey`]. Never given out twice.
#[derive(Clone, Copy, PartialEq, Eq, Structural, Debug)]
pub struct RegistrationKey {
    pub id: u64,
}

/// One routing registration: the ingress it applies to and its filter. The caller holds the reflector
/// it gates.
pub struct Registration {
    pub ingress: CaptureKey,
    pub filter: Filter,
}

impl Registration {
    /// The registration takes the packet.
    pub open spec fn applies(
        &self,
        ingress: CaptureKey,
        packet: Packet,
        addrs: Option<InterfaceAddresses>,
    ) -> bool {
        self.ingress == ingress && self.filter.accepts(packet, addrs)
    }
}

/// The periodic counter-summary schedule: log every capture's counts every `interval`, in
/// nanoseconds.
#[derive(Clone, Copy, PartialEq, Eq, Structural, Debug)]
pub struct CounterReport {
    pub interval: u64,
    pub next: u64,
}

/// The keys of the registrations, in order.
pub open spec fn live_keys(registrations: Seq<(u64, Registration)>) -> Seq<RegistrationKey> {
    Seq::new(registrations.len(), |i: int| RegistrationKey { id: registrations[i].0 })
}

/// Owns the interface table and the routing registrations.
pub struct PacketDispatcher {
    pub table: InterfaceTable,
    pub registrations: LinearMap<u64, Registration>,
    /// The number of the next registration.
    pub next_registration: u64,
    /// The address-change monitor and the recreation reconcile.
    pub lifecycle: InterfaceLifecycle,
    /// The DIAL proxy registry, shared across the SSDP advertisement/response reflectors. Empty unless
    /// a DIAL reflector is configured.
    pub dial: DialContext,
    /// The duplicate-send scope of the packet being routed.
    pub egress: Egress,
    /// The periodic counter-summary schedule, or `None` when the summary is disabled.
    pub report: Option<CounterReport>,
}

impl PacketDispatcher {
    /// The table is in order, no key has two registrations, none was given out that is still to be
    /// given, and no device has two proxies.
    pub open spec fn wf(&self) -> bool {
        &&& self.table@.wf()
        &&& linear_map::unique(self.registrations.entries@)
        &&& forall|i: int|
            0 <= i < self.registrations.entries@.len() ==> (
            #[trigger] self.registrations.entries@[i]).0 < self.next_registration
        &&& self.dial.wf()
    }

    /// Everything but the table stays.
    pub open spec fn same_but_table(&self, other: &PacketDispatcher) -> bool {
        &&& self.registrations == other.registrations
        &&& self.next_registration == other.next_registration
        &&& self.lifecycle == other.lifecycle
        &&& self.dial == other.dial
        &&& self.egress == other.egress
        &&& self.report == other.report
    }

    /// Everything but the registrations stays.
    pub open spec fn same_but_registrations(&self, other: &PacketDispatcher) -> bool {
        &&& self.table == other.table
        &&& self.lifecycle == other.lifecycle
        &&& self.dial == other.dial
        &&& self.egress == other.egress
        &&& self.report == other.report
    }

    /// A dispatcher with no captures yet, at `now`, with the monitor's fd where it opened.
    pub fn new(monitor_fd: Option<i32>, now: u64) -> (r: Self)
        requires
            now + lifecycle::RECONCILE_TICK <= u64::MAX,
        ensures
            r.wf(),
            r.is_fresh(monitor_fd, now, true),
    {
        Self::with_table(InterfaceTable::new(), monitor_fd, now)
    }

    /// A dispatcher that joins no multicast group: `--no-join`.
    pub fn without_group_joins(monitor_fd: Option<i32>, now: u64) -> (r: Self)
        requires
            now + lifecycle::RECONCILE_TICK <= u64::MAX,
        ensures
            r.wf(),
            r.is_fresh(monitor_fd, now, false),
    {
        Self::with_table(InterfaceTable::without_group_joins(), monitor_fd, now)
    }

    /// Nothing is captured, registered, proxied, sent or reported yet.
    pub open spec fn is_fresh(&self, monitor_fd: Option<i32>, now: u64, joins: bool) -> bool {
        &&& self.table@ == (Table {
            links: Seq::empty(),
            rows: Seq::empty(),
            join_groups: joins,
        })
        &&& self.registrations.entries@.len() == 0
        &&& self.next_registration == 0
        &&& self.lifecycle.monitor_fd == monitor_fd
        &&& self.lifecycle.max_seen_ifindex == 0
        &&& self.lifecycle.next_reconcile == now + lifecycle::RECONCILE_TICK
        &&& self.dial.proxies.entries@.len() == 0
        &&& self.egress == (Egress { packet: 0, routing: false })
        &&& self.report is None
    }

    fn with_table(table: InterfaceTable, monitor_fd: Option<i32>, now: u64) -> (r: Self)
        requires
            now + lifecycle::RECONCILE_TICK <= u64::MAX,
            table@.wf(),
            table@.links.len() == 0,
            table@.rows.len() == 0,
        ensures
            r.wf(),
            r.is_fresh(monitor_fd, now, table@.join_groups),
    {
        assert(table@.links =~= Seq::empty());
        assert(table@.rows =~= Seq::empty());
        PacketDispatcher {
            table,
            registrations: LinearMap::new(),
            next_registration: 0,
            lifecycle: InterfaceLifecycle::new(monitor_fd, now),
            dial: DialContext::new(),
            egress: Egress::new(),
            report: None,
        }
    }

    /// Enable the periodic counter summary: log each capture's counts every `interval`, first firing
    /// `interval` after `now`. The counters accrue regardless, so this controls only whether they are
    /// reported.
    pub fn enable_counter_report(&mut self, interval: u64, now: u64)
        requires
            old(self).wf(),
            now + interval <= u64::MAX,
        ensures
            final(self).wf(),
            final(self).report == Some(CounterReport { interval, next: (now + interval) as u64 }),
            final(self).table == old(self).table,
            final(self).registrations == old(self).registrations,
            final(self).next_registration == old(self).next_registration,
            final(self).lifecycle == old(self).lifecycle,
            final(self).dial == old(self).dial,
            final(self).egress == old(self).egress,
    {
        self.report = Some(CounterReport { interval, next: now + interval });
    }

    /// Hand a capture to the dispatcher; the returned key is how reflectors send on it. The capture's
    /// interface is found or created from its name, `opened`, so captures on the same interface share
    /// one record.
    pub fn add_capture(&mut self, capture: Capture, opened: Interface) -> (r: CaptureKey)
        requires
            old(self).wf(),
            old(self).table@.links.len() < u32::MAX,
            old(self).table@.rows.len() < u32::MAX,
        ensures
            final(self).wf(),
            r.index == old(self).table@.rows.len(),
            ({
                let before = old(self).table@;
                let at: int = interface_table::of_name(before.links, opened.name@);
                let links = if at < before.links.len() {
                    before.links
                } else {
                    before.links.push(interface_table::opened_link(opened, before.join_groups))
                };
                &&& final(self).table@ == (Table {
                    links,
                    rows: before.rows.push(
                        interface_table::Row {
                            capture: interface_table::tap(Some(capture)),
                            interface: interface_table::InterfaceKey { index: at as u32 },
                            counts: counters::nothing_counted(),
                            sent_packet: 0,
                            sent: Seq::empty(),
                        },
                    ),
                    join_groups: before.join_groups,
                })
                &&& final(self).lifecycle.max_seen_ifindex == (if links[at].ifindex
                    > old(self).lifecycle.max_seen_ifindex {
                    links[at].ifindex
                } else {
                    old(self).lifecycle.max_seen_ifindex
                })
                &&& final(self).lifecycle.next_reconcile == old(self).lifecycle.next_reconcile
                &&& final(self).lifecycle.monitor_fd == old(self).lifecycle.monitor_fd
            }),
            final(self).registrations == old(self).registrations,
            final(self).next_registration == old(self).next_registration,
            final(self).dial == old(self).dial,
            final(self).egress == old(self).egress,
            final(self).report == old(self).report,
    {
        proof {
            interface_table::lemma_of_name(self.table@.links, opened.name@);
        }
        let interface = self.table.find_or_add_interface(opened);
        let key = self.table.add_capture(Some(capture), interface);
        if let Some(ifindex) = self.table.interface_index(interface) {
            self.lifecycle.saw_interface(ifindex);
        }
        key
    }

    /// Each capture's fd and tag, for the reactor to watch; the address monitor's fd, when it opened,
    /// rides along under [`MONITOR_TAG`].
    pub fn capture_watches(&self) -> (r: Vec<(i32, u64)>)
        requires
            self.wf(),
        ensures
            r@ == interface_table::repair::watches_of(self.table@.rows, self.table@.rows.len()) + (
            match self.lifecycle.monitor_fd {
                Some(fd) => seq![(fd, MONITOR_TAG)],
                None => Seq::empty(),
            }),
    {
        let mut watches = self.table.capture_watches();
        let ghost before = watches@;
        if let Some(fd) = self.lifecycle.monitor_fd {
            watches.push((fd, MONITOR_TAG));
            assert(watches@ =~= before + seq![(fd, MONITOR_TAG)]);
        }
        watches
    }

    /// Register a handler, gated by `filter`, for packets captured on `ingress`. The returned key
    /// removes it again via [`unregister`](Self::unregister).
    pub fn register(&mut self, ingress: CaptureKey, filter: Filter) -> (r: RegistrationKey)
        requires
            old(self).wf(),
            old(self).next_registration < u64::MAX,
        ensures
            final(self).wf(),
            r.id == old(self).next_registration,
            final(self).next_registration == old(self).next_registration + 1,
            final(self).registrations.entries@ == old(self).registrations.entries@.push(
                (r.id, Registration { ingress, filter }),
            ),
            final(self).same_but_registrations(old(self)),
    {
        let id: u64 = self.next_registration;
        let ghost before = self.registrations.entries@;
        proof {
            linear_map::lemma_position_is(before, id, before.len() as int);
            linear_map::law_put_keeps_keys_unique(before, id, Registration { ingress, filter });
        }
        self.next_registration = id + 1;
        let _ = self.registrations.insert(id, Registration { ingress, filter });
        RegistrationKey { id }
    }

    /// Remove the registration `key` addresses; a stale key is a safe no-op.
    pub fn unregister(&mut self, key: RegistrationKey)
        requires
            old(self).wf(),
        ensures
            final(self).wf(),
            final(self).registrations.entries@ == linear_map::without(
                old(self).registrations.entries@,
                key.id,
            ),
            final(self).next_registration == old(self).next_registration,
            final(self).same_but_registrations(old(self)),
    {
        let ghost before = self.registrations.entries@;
        proof {
            linear_map::law_removed_key_is_gone(before, key.id);
            linear_map::lemma_position(before, key.id);
            let p: int = linear_map::position(before, key.id) as int;
            let after = linear_map::without(before, key.id);
            assert forall|i: int| 0 <= i < after.len() implies (#[trigger] after[i]).0
                < self.next_registration by {
                if p < before.len() && i >= p {
                    assert(after[i] == before[i + 1]);
                } else {
                    assert(after[i] == before[i]);
                }
            }
        }
        let _ = self.registrations.remove(&key.id);
    }

    /// How many registrations are live.
    pub fn registration_count(&self) -> (r: usize)
        ensures
            r == self.registrations.entries@.len(),
    {
        self.registrations.len()
    }

    /// Whether the registration is live.
    pub fn is_registered(&self, key: RegistrationKey) -> (r: bool)
        ensures
            r == (linear_map::lookup(self.registrations.entries@, key.id) is Some),
    {
        self.registrations.get(&key.id).is_some()
    }

    /// The keys of the live registrations, in order: whom to tell of a change, one by one. See
    /// [`next_live`](Self::next_live).
    pub fn snapshot(&self) -> (r: Vec<RegistrationKey>)
        ensures
            r@ == live_keys(self.registrations.entries@),
    {
        let mut keys: Vec<RegistrationKey> = Vec::new();
        let mut i: usize = 0;
        while i < self.registrations.entries.len()
            invariant
                i <= self.registrations.entries@.len(),
                keys@.len() == i,
                forall|j: int|
                    0 <= j < i ==> (#[trigger] keys@[j]).id == self.registrations.entries@[j].0,
            decreases self.registrations.entries@.len() - i,
        {
            keys.push(RegistrationKey { id: self.registrations.entries[i].0 });
            i += 1;
        }
        assert(keys@ =~= live_keys(self.registrations.entries@));
        keys
    }

    /// Where `group` is to be asked for, behind `capture`: the kernel's index. `None`: nowhere.
    pub fn join_index(&self, capture: CaptureKey) -> (r: Option<u32>)
        ensures
            r == match self.table@.link_at(capture) {
                Some(link) => if link.ifindex != 0 && link.joiner.joins {
                    Some(link.ifindex)
                } else {
                    None
                },
                None => None,
            },
    {
        match self.table.interface_of(capture) {
            Some(interface) => if (interface.index as usize) < self.table.entries.len() {
                self.table.join_index(interface)
            } else {
                None
            },
            None => None,
        }
    }

    /// Join `group`'s multicast membership on the interface behind `capture`, so the raw capture is
    /// admitted the group's frames; `attempt` says what came of asking for it. Records the group for
    /// re-attempt when the interface's addresses next change. An unknown capture joins nothing. A
    /// family with no address yet comes back as its error, and is recorded and retried on the next
    /// address-up event.
    pub fn join_group(&mut self, capture: CaptureKey, group: IpAddr, attempt: Attempt) -> (r: Result<
        (),
        Errno,
    >)
        requires
            old(self).wf(),
        ensures
            final(self).wf(),
            final(self).same_but_table(old(self)),
            match old(self).table@.link_at(capture) {
                Some(link) => {
                    let i: int = old(self).table@.rows[capture.index as int].interface.index as int;
                    &&& final(self).table@ == old(self).table@.with_link(
                        i,
                        interface_table::Link {
                            joiner: if link.ifindex != 0 {
                                link.joiner.joined(group, attempt)
                            } else {
                                link.joiner.recorded(group)
                            },
                            ..link
                        },
                    )
                    &&& r == (if link.ifindex != 0 && link.joiner.joins {
                        multicast::landed(attempt)
                    } else {
                        Ok(())
                    })
                },
                None => r is Ok && final(self).table@ == old(self).table@,
            },
    {
        match self.table.interface_of(capture) {
            Some(interface) => if (interface.index as usize) < self.table.entries.len() {
                self.table.join_on(interface, group, attempt)
            } else {
                Ok(())
            },
            None => Ok(()),
        }
    }

    /// The MTU of the interface behind `capture`, as of its last resolution.
    pub fn interface_mtu(&self, capture: CaptureKey) -> (r: Option<u32>)
        ensures
            r == self.table@.mtu_at(capture),
    {
        self.table.mtu_of(capture)
    }

    /// The current source addresses of the interface behind `egress`, for a reflector building a
    /// frame.
    pub fn egress_addrs(&self, egress: CaptureKey) -> (r: Option<InterfaceAddresses>)
        ensures
            r == self.table@.addrs_at(egress),
    {
        self.table.egress_addrs(egress)
    }

    /// The name of the interface behind `target`: the egress pin of a DIAL proxy.
    pub fn target_name(&self, target: CaptureKey) -> (r: Option<&str>)
        ensures
            match r {
                Some(name) => self.table@.link_at(target) matches Some(link) && name@ == link.name,
                None => self.table@.link_at(target) is None,
            },
    {
        match self.table.interface_of(target) {
            Some(interface) => self.table.interface_name(interface),
            None => None,
        }
    }

    /// The kernel ifindex of the interface behind `capture`: the table's cached identity, re-pointed
    /// by the reconcile when the interface is recreated (0 while it is parked absent). `None` if the
    /// key is unknown.
    pub fn capture_ifindex(&self, capture: CaptureKey) -> (r: Option<u32>)
        ensures
            r == match self.table@.link_at(capture) {
                Some(link) => Some(link.ifindex),
                None => None,
            },
    {
        self.table.ifindex_of(capture)
    }

    /// The link-layer framing of the capture behind `egress`, to pick the matching frame builder.
    /// `None` if the key is unknown or its capture is currently taken out (mid-drain).
    pub fn link_type(&self, egress: CaptureKey) -> (r: Option<LinkType>)
        ensures
            r == match self.table@.capture_at(egress) {
                Some(tap) => Some(tap.link_type),
                None => None,
            },
    {
        match self.table.capture(egress) {
            Some(capture) => Some(capture.link_type),
            None => None,
        }
    }
}

/// A fresh dispatcher captures nothing, offers a packet to nobody, proxies nothing and reports nothing,
/// and first looks for recreated interfaces half a minute later.
pub proof fn law_a_fresh_dispatcher_does_nothing(
    d: PacketDispatcher,
    monitor_fd: Option<i32>,
    now: u64,
    joins: bool,
    key: CaptureKey,
    id: u64,
)
    requires
        d.is_fresh(monitor_fd, now, joins),
    ensures
        d.table@.capture_at(key) is None,
        d.table@.addrs_at(key) is None,
        !d.table@.has_absent(),
        d.table@.join_groups == joins,
        linear_map::lookup(d.registrations.entries@, id) is None,
        live_keys(d.registrations.entries@).len() == 0,
        d.next_registration == 0,
        d.dial.proxies.entries@.len() == 0,
        !d.egress.routing,
        d.report is None,
        d.lifecycle.monitor_fd == monitor_fd,
        d.lifecycle.max_seen_ifindex == 0,
        d.lifecycle.next_reconcile == now + 30_000_000_000,
{
}

/// What is told to stay does.
pub proof fn law_what_stays_is_the_same(a: PacketDispatcher, b: PacketDispatcher)
    ensures
        a.same_but_table(&b) <==> a == (PacketDispatcher { table: a.table, ..b }),
        a.same_but_registrations(&b) <==> a == (PacketDispatcher {
            registrations: a.registrations,
            next_registration: a.next_registration,
            ..b
        }),
{
}

/// The tag of a capture is its index, and a tag is the capture's of its low half.
pub proof fn law_the_tag_of_a_capture_is_its_index(key: CaptureKey, high: u32)
    ensures
        key.to_u64() == key.index,
        high < 0xffff_ffff ==> CaptureKey::unpacked((high * 0x1_0000_0000 + key.index) as u64) == key,
{
    if high < 0xffff_ffff {
        assert((high * 0x1_0000_0000 + key.index) % 0x1_0000_0000 == key.index);
    }
}

} // verus!
