//! Packets through the dispatcher: drains, routes, deadlines and interface changes.

use netflector::capture::Capture;
use netflector::dispatch::counters::{MessageType, Outcome};
use netflector::dispatch::egress::send;
use netflector::dispatch::filter::{Filter, FilterSet};
use netflector::dispatch::interface_table::InterfaceKey;
use netflector::dispatch::lifecycle::{Rebuild, RECONCILE_RETRY, RECONCILE_TICK};
use netflector::dispatch::multicast::Attempt;
use netflector::dispatch::routing::{
    DrainRefusal, DrainStep, HandlerDeadline, ReadEvent, Readable, RebuildWork,
};
use netflector::dispatch::{
    CaptureKey, PacketDispatcher, RegistrationKey, MAX_FRAMES_PER_EVENT, MONITOR_TAG,
};
use netflector::errno::Errno;
use netflector::interface::{Interface, InterfaceAddresses, Resolved};
use netflector::net::ip::{IpAddr, Ipv4Addr};
use netflector::net::mac::MacAddr;
use netflector::net::packet::{Packet, SocketAddr};
use netflector::net::LinkType;

const LOOPBACK: u32 = 1;

const SECOND: u64 = 1_000_000_000;

fn dispatcher() -> PacketDispatcher {
    PacketDispatcher::new(None, 0)
}

fn loopback() -> Interface {
    let mut interface = Interface::open("lo", Some(LOOPBACK));
    interface.refresh(resolved(Some(Ipv4Addr::new(127, 0, 0, 1))));
    interface
}

fn resolved(v4: Option<Ipv4Addr>) -> Resolved {
    Resolved {
        addrs: InterfaceAddresses {
            v4,
            ..InterfaceAddresses::default()
        },
        mtu: None,
    }
}

/// An entry with no capture in it, on the first interface.
fn add_empty(d: &mut PacketDispatcher) -> CaptureKey {
    d.table.add_capture(None, InterfaceKey { index: 0 })
}

fn counts(d: &PacketDispatcher, key: CaptureKey, ty: MessageType) -> (u64, u64, u64, u64) {
    d.table.typed_counts(key, ty)
}

/// A v4 UDP packet; the default filter matches it.
fn probe_packet(payload: &[u8]) -> Packet<'_> {
    Packet {
        source: SocketAddr::new(IpAddr::V4(Ipv4Addr::new(10, 0, 0, 1)), 5),
        dest: SocketAddr::new(IpAddr::V4(Ipv4Addr::new(10, 0, 0, 2)), 9),
        ttl: 64,
        dst_mac: None,
        src_mac: None,
        payload,
    }
}

/// Route a packet, asking `handler` for the outcome of each registration it is offered to.
fn route(
    d: &mut PacketDispatcher,
    ingress: CaptureKey,
    packet: &Packet,
    mut handler: impl FnMut(RegistrationKey, &mut PacketDispatcher) -> Outcome,
) {
    let Some(mut route) = d.begin_route(ingress, packet) else {
        return;
    };
    while let Some(key) = d.next_match(&mut route, packet) {
        let outcome = handler(key, d);
        route.fold(outcome);
    }
    d.end_route(route);
}

/// Reconcile against the name's current index.
fn reconcile(d: &mut PacketDispatcher, index: Option<u32>, now: u64) -> Vec<RebuildWork> {
    let bound = vec![None; d.table.captures.len()];
    let stale = d.table.stale_interfaces(&vec![Ok(index)], &bound);
    let v4 = index.map(|_| Ipv4Addr::new(127, 0, 0, 1));
    let rebuilds = stale
        .iter()
        .map(|s| Rebuild {
            refreshed: Ok(resolved(v4)),
            attempts: Vec::new(),
            rebinds: d
                .table
                .captures_of(s.key)
                .iter()
                .map(|_| Ok(LinkType::Ethernet))
                .collect(),
        })
        .collect();
    d.reconcile_interfaces(&stale, &rebuilds, now, &Vec::new())
}

fn is_stale(d: &PacketDispatcher, index: Option<u32>) -> bool {
    let bound = vec![None; d.table.captures.len()];
    !d.table
        .stale_interfaces(&vec![Ok(index)], &bound)
        .is_empty()
}

#[test]
fn reconcile_repairs_a_moved_identity_and_arms_the_slow_tick() {
    let mut d = dispatcher();
    d.table.find_or_add_interface(loopback());
    d.table.entries[0].interface.ifindex = LOOPBACK + 1000;
    assert!(is_stale(&d, Some(LOOPBACK)));

    reconcile(&mut d, Some(LOOPBACK), 0);

    assert!(
        !is_stale(&d, Some(LOOPBACK)),
        "the moved identity is repaired"
    );
    assert!(
        d.lifecycle.next_reconcile() > RECONCILE_RETRY,
        "a healthy table re-arms the slow tick, not the retry"
    );
    assert_eq!(d.lifecycle.next_reconcile(), RECONCILE_TICK);
}

#[test]
fn reconcile_parks_a_vanished_interface_and_keeps_the_fast_retry() {
    let mut d = dispatcher();
    d.table.find_or_add_interface(loopback());

    let works = reconcile(&mut d, None, 0);

    assert!(works[0].rebuilt.removed);
    assert!(
        !is_stale(&d, None),
        "a parked entry is quiescent, not perpetually stale"
    );
    assert!(d.table.any_absent());
    assert!(
        d.lifecycle.next_reconcile() <= RECONCILE_RETRY,
        "an absent interface keeps the fast retry cadence"
    );
    // The interface "returns" (the name resolves again): the next pass rebuilds it.
    reconcile(&mut d, Some(LOOPBACK), SECOND);
    assert!(
        !d.table.any_absent(),
        "the returned interface is re-pointed"
    );
    assert!(
        d.lifecycle.next_reconcile() > SECOND + RECONCILE_RETRY,
        "recovery re-arms the slow tick"
    );
}

#[test]
fn reconcile_counts_a_recovery_on_the_interface_captures() {
    let mut d = dispatcher();
    d.table.find_or_add_interface(loopback());
    let capture = add_empty(&mut d);
    assert_eq!(d.table.captures[0].counters.recoveries(), 0);
    d.table.entries[0].interface.ifindex = LOOPBACK + 1000;

    let works = reconcile(&mut d, Some(LOOPBACK), 0);

    assert_eq!(works[0].rebuilt.captures, [capture]);
    assert!(works[0].rebuilt.complete);
    assert_eq!(
        d.table.captures[0].counters.recoveries(),
        1,
        "the completed recovery is counted on the interface's capture row"
    );
}

#[test]
fn unregister_stops_routing_to_a_handler() {
    let mut d = dispatcher();
    let ingress = add_empty(&mut d);
    let mut seen = 0;
    let key = d.register(ingress, Filter::default());
    route(&mut d, ingress, &probe_packet(b"a"), |_, _| {
        seen += 1;
        Outcome::Reflected(MessageType::MdnsQuery)
    });
    assert_eq!(seen, 1, "the registration should route once");
    assert!(d.is_registered(key));

    d.unregister(key);
    route(&mut d, ingress, &probe_packet(b"b"), |_, _| {
        seen += 1;
        Outcome::Reflected(MessageType::MdnsQuery)
    });
    assert_eq!(seen, 1, "an unregistered handler is no longer routed to");
    d.unregister(key); // the now-stale key removes nothing
    assert_eq!(d.registration_count(), 0);
}

#[test]
fn route_folds_matched_outcomes_and_records_once() {
    let mut d = dispatcher();
    let ingress = add_empty(&mut d);
    // Mirrored a->b / b->a reflectors both match here: one reflects the query, its mirror skips it.
    let reflects = d.register(ingress, Filter::default());
    let skips = d.register(ingress, Filter::default());
    // A third handler whose filter never matches (wrong dst port) must not reach the count.
    d.register(
        ingress,
        Filter {
            dst_port: Some(FilterSet::one(4242)),
            ..Filter::default()
        },
    );

    route(&mut d, ingress, &probe_packet(b"q"), |key, _| {
        if key == reflects {
            Outcome::Reflected(MessageType::MdnsQuery)
        } else if key == skips {
            Outcome::Skipped(MessageType::MdnsQuery)
        } else {
            Outcome::Reflected(MessageType::SsdpSearch)
        }
    });

    // The reflect wins the fold and is counted once; the skip is shadowed, not a second count.
    assert_eq!(counts(&d, ingress, MessageType::MdnsQuery), (1, 0, 0, 0));
    // The unmatched handler contributed nothing.
    assert_eq!(counts(&d, ingress, MessageType::SsdpSearch), (0, 0, 0, 0));
}

#[test]
fn route_drops_our_own_echoed_frames_before_any_handler() {
    let mut d = dispatcher();
    let interface = d.table.find_or_add_interface(loopback());
    let own = MacAddr::from([0x02, 0, 0, 0, 0, 1]);
    d.table.entries[0].interface.addrs = InterfaceAddresses {
        mac: Some(own),
        v4: Some(Ipv4Addr::new(127, 0, 0, 1)),
        ..InterfaceAddresses::default()
    };
    let ingress = add_empty(&mut d);
    assert_eq!(d.table.interface_of(ingress), Some(interface));
    d.register(ingress, Filter::default());

    let mut echo = probe_packet(b"ours");
    echo.src_mac = Some(own);
    route(&mut d, ingress, &echo, |_, _| {
        Outcome::Reflected(MessageType::MdnsQuery)
    });
    assert_eq!(d.table.captures[0].counters.echoed(), 1);
    assert_eq!(
        counts(&d, ingress, MessageType::MdnsQuery),
        (0, 0, 0, 0),
        "the handler never ran"
    );

    let mut peer = probe_packet(b"theirs");
    peer.src_mac = Some(MacAddr::from([0x02, 0, 0, 0, 0, 2]));
    route(&mut d, ingress, &peer, |_, _| {
        Outcome::Reflected(MessageType::MdnsQuery)
    });
    assert_eq!(counts(&d, ingress, MessageType::MdnsQuery), (1, 0, 0, 0));
    assert_eq!(d.table.captures[0].counters.echoed(), 1);
}

#[test]
fn route_folds_fan_out_reflects_and_records_once() {
    let mut d = dispatcher();
    let ingress = add_empty(&mut d);
    // A source fanned out to two targets (a->b, a->c) puts two reflecting handlers on the shared
    // ingress; both reflect the same query.
    d.register(ingress, Filter::default());
    d.register(ingress, Filter::default());

    route(&mut d, ingress, &probe_packet(b"q"), |_, _| {
        Outcome::Reflected(MessageType::MdnsQuery)
    });

    // One packet, one count per ingress: the two reflects fold to a single reflected count.
    assert_eq!(counts(&d, ingress, MessageType::MdnsQuery), (1, 0, 0, 0));
}

#[test]
fn counter_report_fires_on_its_interval() {
    let mut d = dispatcher();
    let now = 0;
    let handlers = Vec::new();
    assert_eq!(
        d.next_deadline(&handlers),
        Some(d.lifecycle.next_reconcile()),
        "until enabled, the only standing deadline is the reconcile tick"
    );

    // Shorter than the reconcile tick, so the report deadline is the sooner at each assert.
    let interval = 5 * SECOND;
    d.enable_counter_report(interval, now);
    assert_eq!(d.next_deadline(&handlers), Some(now + interval));

    // Firing the report at its deadline reschedules it exactly one interval out.
    assert!(d.report_if_due(now + interval - 1).is_none());
    assert!(d.report_if_due(now + interval).is_some());
    assert_eq!(
        d.next_deadline(&handlers),
        Some(now + interval + interval)
    );
}

#[test]
fn reports_the_soonest_deadline_and_sweeps_only_the_due_one() {
    let mut d = dispatcher();
    let ingress = CaptureKey::from_u64(0);
    let base = SECOND;
    let due = d.register(ingress, Filter::default());
    let future = d.register(ingress, Filter::default());
    let handlers = vec![
        HandlerDeadline {
            key: due,
            deadline: Some(base),
        },
        HandlerDeadline {
            key: future,
            deadline: Some(base + 10 * SECOND),
        },
    ];

    // The dispatcher hands the reactor the soonest registration deadline.
    assert_eq!(d.next_deadline(&handlers), Some(base));

    // A sweep fires only the registration whose deadline has come due.
    assert_eq!(PacketDispatcher::due(&handlers, base + SECOND), [due]);
    assert!(!d.reconcile_due(base));
    assert!(d.reconcile_due(RECONCILE_TICK));
}

#[test]
fn a_mid_route_registration_is_not_fed_the_in_flight_frame() {
    let mut d = dispatcher();
    let ingress = add_empty(&mut d);
    let registrar = d.register(ingress, Filter::default());
    let mut late: Vec<RegistrationKey> = Vec::new();
    let mut seen = Vec::new();

    route(&mut d, ingress, &probe_packet(b"x"), |key, d| {
        if key == registrar {
            late.push(d.register(ingress, Filter::default()));
        } else {
            seen.push(b"x".to_vec());
        }
        Outcome::Filtered
    });
    assert!(
        seen.is_empty(),
        "a registration born this route must not see the in-flight frame",
    );
    // It does receive the next frame.
    route(&mut d, ingress, &probe_packet(b"y"), |key, _| {
        if late.contains(&key) {
            seen.push(b"y".to_vec());
        }
        Outcome::Filtered
    });
    assert_eq!(seen, [b"y".to_vec()]);
}

#[test]
fn a_registration_removed_mid_route_is_skipped() {
    let mut d = dispatcher();
    let ingress = add_empty(&mut d);
    d.register(ingress, Filter::default());
    let second = d.register(ingress, Filter::default());
    let mut calls = 0;
    route(&mut d, ingress, &probe_packet(b"x"), |_, d| {
        calls += 1;
        d.unregister(second);
        Outcome::Filtered
    });
    assert_eq!(calls, 1);
    assert_eq!(d.snapshot().len(), 1);
}

#[test]
fn a_registration_removed_in_a_sweep_has_no_turn() {
    let mut d = dispatcher();
    let ingress = CaptureKey::from_u64(0);
    let keys: Vec<RegistrationKey> = (0..4).map(|_| d.register(ingress, Filter::default())).collect();
    let handlers: Vec<HandlerDeadline> = keys
        .iter()
        .map(|&key| HandlerDeadline { key, deadline: Some(SECOND) })
        .collect();
    let due = PacketDispatcher::due(&handlers, SECOND);
    assert_eq!(due, keys);

    let mut at = 0;
    let mut called = Vec::new();
    while let Some(key) = d.next_live(&due, &mut at) {
        called.push(key);
        if key == keys[0] {
            // The first one removes itself and the two behind it, and adds one that is not due.
            d.unregister(keys[0]);
            d.unregister(keys[1]);
            d.unregister(keys[2]);
            d.register(ingress, Filter::default());
        }
    }
    assert_eq!(called, [keys[0], keys[3]]);
    assert_eq!(at, due.len());

    let mut beyond = 9;
    assert_eq!(d.next_live(&due, &mut beyond), None);
    assert_eq!(beyond, due.len());
    assert_eq!(d.next_live(&vec![], &mut beyond), None);
    assert_eq!(beyond, 0);
}

/// A dispatcher with one capture on the loopback.
fn with_capture() -> (PacketDispatcher, CaptureKey) {
    let mut d = dispatcher();
    let key = d.add_capture(Capture::new(4, LinkType::Ethernet, "lo"), loopback());
    (d, key)
}

#[test]
fn reentrant_drain_on_the_same_ingress_hits_the_guard() {
    let (mut d, ingress) = with_capture();
    let mut drain = d.begin_drain(ingress).unwrap();
    let mut calls = 0;
    for _ in 0..2 {
        assert_eq!(
            d.on_read(&mut drain, ReadEvent::Frame, 0),
            DrainStep::Route
        );
        d.register(ingress, Filter::default());
        route(&mut d, ingress, &probe_packet(b"p"), |key, d| {
            if key.id == 0 {
                calls += 1;
            }
            assert_eq!(d.begin_drain(ingress), Err(DrainRefusal::AlreadyDraining));
            Outcome::Filtered
        });
    }
    assert_eq!(
        d.on_read(&mut drain, ReadEvent::WouldBlock, 0),
        DrainStep::Done
    );
    d.end_drain(drain);
    assert_eq!(
        calls, 2,
        "both probes should route via the outer drain; the re-entrant call must no-op"
    );
    assert!(d.begin_drain(ingress).is_ok());
}

#[test]
fn a_drain_stops_at_its_budget_unless_frames_are_held_back() {
    let (mut d, ingress) = with_capture();
    let mut drain = d.begin_drain(ingress).unwrap();
    while drain.wants_more(false) {
        d.on_read(&mut drain, ReadEvent::Oversized, 0);
    }
    assert_eq!(drain.drained, MAX_FRAMES_PER_EVENT);
    assert!(drain.wants_more(true));
    d.end_drain(drain);
    assert_eq!(
        d.counter_lines(),
        [format!("counters lo: oversized={MAX_FRAMES_PER_EVENT}")]
    );
}

#[test]
fn a_read_that_lost_its_interface_pulls_the_reconcile_forward() {
    let (mut d, ingress) = with_capture();
    let mut drain = d.begin_drain(ingress).unwrap();
    assert_eq!(
        d.on_read(&mut drain, ReadEvent::Failed(Errno::NoMemory), 7),
        DrainStep::Abandoned
    );
    assert_eq!(d.lifecycle.next_reconcile(), RECONCILE_TICK);
    assert_eq!(
        d.on_read(&mut drain, ReadEvent::Failed(Errno::NetworkDown), 7),
        DrainStep::LostInterface
    );
    assert_eq!(d.lifecycle.next_reconcile(), 7);
}

#[test]
fn unknown_capture_key_is_a_safe_no_op() {
    let mut d = dispatcher();
    let bogus = CaptureKey::from_u64(999);
    assert_eq!(d.begin_drain(bogus), Err(DrainRefusal::OutOfRange));
    assert!(d.egress_addrs(bogus).is_none());
    assert!(d.link_type(bogus).is_none());
    assert!(send(&d.table, bogus, Ok(())).is_ok());
    assert!(d.target_name(bogus).is_none());
    assert!(d.capture_ifindex(bogus).is_none());
    assert!(d.interface_mtu(bogus).is_none());
}

#[test]
fn ingress_resolves_and_drops_while_taken_out() {
    let (mut d, ingress) = with_capture();
    assert_eq!(d.link_type(ingress), Some(LinkType::Ethernet));
    let drain = d.begin_drain(ingress).unwrap();
    let addrs = d.egress_addrs(ingress).and_then(|a| a.v4());
    assert_eq!(
        addrs,
        Some(Ipv4Addr::new(127, 0, 0, 1)),
        "ingress addresses must resolve while the capture is taken out"
    );
    assert!(
        send(&d.table, ingress, Err(Errno::NetworkDown)).is_ok(),
        "send to the taken-out ingress must drop (Ok), not fail"
    );
    assert_eq!(d.link_type(ingress), None);
    d.end_drain(drain);
    assert_eq!(d.link_type(ingress), Some(LinkType::Ethernet));
}

#[test]
fn monitor_fd_is_watched_under_the_sentinel_tag() {
    let d = PacketDispatcher::new(Some(3), 0);
    let watches = d.capture_watches();
    // No captures were added, so the monitor fd is the sole watch, under MONITOR_TAG.
    assert_eq!(watches.len(), 1, "only the monitor fd should be watched");
    assert_eq!(
        watches[0].1, MONITOR_TAG,
        "the monitor fd must carry MONITOR_TAG"
    );
    assert!(dispatcher().capture_watches().is_empty());
}

#[test]
fn a_tag_is_the_monitors_or_a_captures() {
    assert_eq!(
        PacketDispatcher::on_readable(MONITOR_TAG),
        Readable::Monitor
    );
    let key = CaptureKey { index: 7 };
    assert_eq!(
        PacketDispatcher::on_readable(key.to_u64()),
        Readable::Capture(key)
    );
}

#[test]
fn join_group_ignores_an_unknown_capture() {
    let mut d = dispatcher();
    let group = IpAddr::V4(Ipv4Addr::new(224, 0, 0, 251));
    assert!(d
        .join_group(CaptureKey { index: 9999 }, group, Attempt::Joined)
        .is_ok());
    assert_eq!(d.join_index(CaptureKey { index: 9999 }), None);
}

#[test]
fn a_group_is_joined_where_the_interface_is_and_recorded_where_it_is_not() {
    let (mut d, capture) = with_capture();
    let group = IpAddr::V4(Ipv4Addr::new(224, 0, 0, 251));
    assert_eq!(d.join_index(capture), Some(LOOPBACK));
    assert_eq!(
        d.join_group(capture, group, Attempt::Refused(Errno::AddrNotAvailable)),
        Err(Errno::AddrNotAvailable)
    );
    d.table.entries[0].interface.ifindex = 0;
    assert_eq!(d.join_index(capture), None);
    assert!(d
        .join_group(capture, group, Attempt::Refused(Errno::AddrNotAvailable))
        .is_ok());
    let mut inert = PacketDispatcher::without_group_joins(None, 0);
    let capture = inert.add_capture(Capture::new(4, LinkType::Ethernet, "lo"), loopback());
    assert_eq!(inert.join_index(capture), None);
    assert_eq!(inert.target_name(capture), Some("lo"));
}
