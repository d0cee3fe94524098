//! The interface table: what it holds, and how its interfaces are repaired.

use netflector::capture::Capture;
use netflector::dispatch::counters::MessageType;
use netflector::dispatch::interface_table::{Answer, InterfaceKey, InterfaceTable, StaleInterface};
use netflector::dispatch::lifecycle::{collect, moved_line, rejoin_lines, InterfaceLifecycle, Platform};
use netflector::dispatch::multicast::{Attempt, RejoinCounts};
use netflector::dispatch::CaptureKey;
use netflector::errno::Errno;
use netflector::interface::interface_monitor::InterfaceEvent;
use netflector::interface::{Interface, InterfaceAddresses, Resolved};
use netflector::net::ip::{parse_ip, IpAddr, Ipv4Addr};
use netflector::net::LinkType;

const LOOPBACK: u32 = 1;

fn loopback() -> Interface {
    let mut interface = Interface::open("lo", Some(LOOPBACK));
    interface.refresh(resolved());
    interface
}

fn resolved() -> Resolved {
    Resolved {
        addrs: InterfaceAddresses {
            v4: Some(Ipv4Addr::new(127, 0, 0, 1)),
            v4_prefix: Some(8),
            ..InterfaceAddresses::default()
        },
        mtu: Some(65536),
    }
}

fn groups() -> [IpAddr; 2] {
    [
        IpAddr::V4(Ipv4Addr::new(224, 0, 0, 251)),
        parse_ip(b"ff02::fb").unwrap(),
    ]
}

/// An entry with no capture in it.
fn add_empty(table: &mut InterfaceTable) -> CaptureKey {
    table.add_capture(None, InterfaceKey { index: 0 })
}

fn unbound(table: &InterfaceTable) -> Vec<Option<u32>> {
    vec![None; table.captures.len()]
}

#[test]
fn was_sent_remembers_every_frame_of_the_packet_being_routed() {
    let mut table = InterfaceTable::new();
    let egress = add_empty(&mut table);
    let other = add_empty(&mut table);
    // Nothing recorded yet: a failed send leaves it that way, so a retry goes out.
    assert!(!table.was_sent(egress, 1, b"first"));
    table.record_sent(egress, 1, b"first");
    table.record_sent(egress, 1, b"second");
    assert!(table.was_sent(egress, 1, b"first"));
    assert!(table.was_sent(egress, 1, b"second"));
    // Another egress, other bytes, or the next packet: not a sent frame.
    assert!(!table.was_sent(other, 1, b"first"));
    assert!(!table.was_sent(egress, 1, b"third"));
    assert!(!table.was_sent(egress, 2, b"first"));
    // The next packet's first frame clears the previous packet's.
    table.record_sent(egress, 2, b"third");
    assert!(table.was_sent(egress, 2, b"third"));
    assert!(!table.was_sent(egress, 1, b"first"));
    assert!(!table.was_sent(CaptureKey::from_u64(999), 2, b"third"));
    table.record_sent(CaptureKey::from_u64(999), 2, b"third"); // an unknown key is a no-op
}

#[test]
fn refresh_by_ifindex_targets_the_matching_interface() {
    let mut table = InterfaceTable::new();
    table.find_or_add_interface(loopback());
    let change = table
        .refresh_by_ifindex(LOOPBACK, Ok(resolved()), &Vec::new())
        .expect("the loopback interface matches its ifindex and re-resolves")
        .change
        .unwrap();
    assert!(
        !change.v4,
        "re-resolving the unchanged loopback reports no v4 move",
    );
    assert!(
        table
            .refresh_by_ifindex(u32::MAX, Ok(resolved()), &Vec::new())
            .is_none(),
        "an ifindex we don't watch should refresh nothing",
    );
}

#[test]
fn join_on_records_a_membership_and_refresh_re_attempts_it() {
    let mut table = InterfaceTable::new();
    let iface = table.find_or_add_interface(loopback());
    for group in groups() {
        assert_eq!(table.join_index(iface), Some(LOOPBACK));
        table.join_on(iface, group, Attempt::Joined).unwrap();
    }
    // The recorded memberships survive a refresh, re-attempted idempotently.
    let answers = vec![Answer {
        refreshed: Ok(resolved()),
        attempts: vec![Attempt::Joined, Attempt::Refused(Errno::AddrInUse)],
    }];
    let results = table.refresh_all(&answers);
    assert!(
        results.iter().all(|r| r.change.is_ok()),
        "re-resolving every interface succeeds",
    );
    assert_eq!(table.entries[0].joiner.desired.len(), 2);
}

#[test]
fn stale_interfaces_flags_and_rebind_repairs_a_moved_index() {
    let mut table = InterfaceTable::new();
    let key = table.find_or_add_interface(loopback());
    let lookups = vec![Ok(Some(LOOPBACK))];
    assert!(
        table.stale_interfaces(&lookups, &Vec::new()).is_empty(),
        "a fresh entry is healthy"
    );
    // A recreation: the kernel identity moved while the cache kept the old index.
    table.entries[0].interface.ifindex = LOOPBACK + 1000;
    assert_eq!(
        table.stale_interfaces(&lookups, &Vec::new()),
        [StaleInterface {
            key,
            cached: LOOPBACK + 1000,
            cur: LOOPBACK
        }]
    );
    table
        .rebind_interface(key, LOOPBACK, Ok(resolved()), &Vec::new())
        .0
        .unwrap();
    assert!(
        table.stale_interfaces(&lookups, &Vec::new()).is_empty(),
        "the rebuild repaired the identity"
    );
    assert_eq!(table.entries[0].interface.ifindex, LOOPBACK);
}

#[test]
fn a_capture_that_left_its_interface_makes_it_stale() {
    let mut table = InterfaceTable::new();
    let key = table.find_or_add_interface(loopback());
    table.add_capture(Some(Capture::new(4, LinkType::Ethernet, "lo")), key);
    let lookups = vec![Ok(Some(LOOPBACK))];
    assert!(table
        .stale_interfaces(&lookups, &vec![Some(LOOPBACK)])
        .is_empty());
    assert!(table.probe_by_ifindex(LOOPBACK, &vec![Some(LOOPBACK)]));
    assert_eq!(
        table.stale_interfaces(&lookups, &vec![Some(77)]),
        [StaleInterface {
            key,
            cached: LOOPBACK,
            cur: LOOPBACK
        }]
    );
    assert!(!table.probe_by_ifindex(LOOPBACK, &vec![Some(77)]));
    // A lookup that failed says nothing of the interface.
    assert!(table
        .stale_interfaces(&vec![Err(Errno::NoMemory)], &vec![Some(77)])
        .is_empty());
}

#[test]
fn rebind_to_absent_parks_the_entry() {
    let mut table = InterfaceTable::new();
    let key = table.find_or_add_interface(loopback());
    let gone = vec![Ok(None)];
    assert_eq!(
        table.stale_interfaces(&gone, &Vec::new()),
        [StaleInterface {
            key,
            cached: LOOPBACK,
            cur: 0
        }]
    );
    let nothing = Resolved {
        addrs: InterfaceAddresses::default(),
        mtu: None,
    };
    table
        .rebind_interface(key, 0, Ok(nothing), &Vec::new())
        .0
        .unwrap();
    assert!(
        table.entries[0].interface.addrs.v4().is_none(),
        "a parked entry's addresses clear, so nothing is sent from it"
    );
    assert!(
        table.stale_interfaces(&gone, &Vec::new()).is_empty(),
        "a parked entry matches its (absent) identity"
    );
    assert!(table.any_absent());
}

#[test]
fn refresh_all_does_not_rejoin_a_parked_interface() {
    let mut table = InterfaceTable::new();
    let key = table.find_or_add_interface(loopback());
    table.join_on(key, groups()[0], Attempt::Joined).unwrap();
    let nothing = Resolved {
        addrs: InterfaceAddresses::default(),
        mtu: None,
    };
    table
        .rebind_interface(key, 0, Ok(nothing), &Vec::new())
        .0
        .unwrap();
    table.refresh_all(&vec![Answer {
        refreshed: Ok(nothing),
        attempts: Vec::new(),
    }]);
    assert!(
        table.entries[0].joiner.is_socketless(),
        "a parked interface's joiner stays socket-less through the overflow refresh"
    );
}

#[test]
fn captures_of_maps_the_reverse_link_and_empty_slots_rebind_as_noops() {
    let mut table = InterfaceTable::new();
    let a = add_empty(&mut table);
    let b = add_empty(&mut table);
    assert_eq!(table.captures_of(InterfaceKey { index: 0 }), [a, b]);
    assert!(table.captures_of(InterfaceKey { index: 1 }).is_empty());
    // Empty slots and out-of-range keys report Ok(false): not an error and not a success.
    assert_eq!(table.rebind_capture(a, Ok(LinkType::Ethernet)), Ok(false));
    assert_eq!(
        table.rebind_capture(CaptureKey { index: 99 }, Ok(LinkType::Ethernet)),
        Ok(false)
    );
}

#[test]
fn a_rebound_capture_takes_the_new_framing() {
    let mut table = InterfaceTable::new();
    let key = table.find_or_add_interface(loopback());
    let capture = table.add_capture(Some(Capture::new(4, LinkType::Ethernet, "lo")), key);
    assert_eq!(
        table.rebind_capture(capture, Err(Errno::NoDevice)),
        Err(Errno::NoDevice)
    );
    assert_eq!(
        table.capture(capture).unwrap().link_type(),
        LinkType::Ethernet
    );
    assert_eq!(table.rebind_capture(capture, Ok(LinkType::RawIp)), Ok(true));
    assert_eq!(table.capture(capture).unwrap().link_type(), LinkType::RawIp);
    assert_eq!(table.capture_watches(), [(4, 0)]);
}

#[test]
fn find_or_add_interface_dedups_by_name() {
    let mut table = InterfaceTable::new();
    let first = table.find_or_add_interface(loopback());
    let second = table.find_or_add_interface(loopback());
    assert_eq!(first, second, "the same name resolves to one interface key");
}

#[test]
fn capture_accessors_reject_an_out_of_range_key() {
    let mut table = InterfaceTable::new();
    let forged = CaptureKey { index: 0 }; // nothing added yet
    assert!(!table.contains(forged));
    assert!(table.interface_of(forged).is_none());
    assert!(table.ifindex_of(forged).is_none());
    assert!(table.capture(forged).is_none());
    assert!(table.egress_addrs(forged).is_none());
    assert!(table.take(forged).is_none());
}

#[test]
fn counter_rows_name_the_interface_of_each_capture() {
    let mut table = InterfaceTable::new();
    let key = table.find_or_add_interface(loopback());
    let capture = table.add_capture(None, key);
    table.record_echo(capture);
    table.record_oversized(capture, 3);
    let rows = table.counter_rows();
    assert_eq!(rows.len(), 1);
    assert_eq!(rows[0].0, "lo");
    assert_eq!(rows[0].1.echoed(), 1);
    assert_eq!(
        table.typed_counts(capture, MessageType::MdnsQuery),
        (0, 0, 0, 0)
    );
}

/// A table of `lo` with one empty capture, and its lifecycle.
fn watched() -> (InterfaceTable, InterfaceLifecycle, CaptureKey) {
    let mut table = InterfaceTable::new();
    table.find_or_add_interface(loopback());
    let capture = add_empty(&mut table);
    let mut lifecycle = InterfaceLifecycle::new(Some(3), 0);
    lifecycle.saw_interface(LOOPBACK);
    (table, lifecycle, capture)
}

const NETLINK: Platform = Platform {
    indexes_monotonic: true,
    lifecycle_events: true,
};

#[test]
fn events_of_one_wakeup_coalesce_per_index() {
    let events = vec![
        InterfaceEvent::Address(5),
        InterfaceEvent::Link(5),
        InterfaceEvent::Address(7),
        InterfaceEvent::Address(5),
    ];
    let collected = collect(&events);
    assert_eq!(collected.changed.entries, [(5, true), (7, false)]);
    assert!(!collected.overflow);
    assert!(collect(&vec![InterfaceEvent::Overflow]).overflow);
}

#[test]
fn a_moved_v4_touches_the_captures_and_an_unmoved_one_does_not() {
    let (mut table, mut lifecycle, capture) = watched();
    let bound = unbound(&table);
    let events = collect(&vec![InterfaceEvent::Address(LOOPBACK)]);
    let same = vec![Answer {
        refreshed: Ok(resolved()),
        attempts: Vec::new(),
    }];
    let changes = lifecycle.drain(&mut table, &events, &same, &bound, NETLINK);
    assert!(changes.v4_moved.is_empty());
    assert!(changes.touched.is_empty());
    assert!(!changes.reconcile);
    let mut moved = resolved();
    moved.addrs.v4 = Some(Ipv4Addr::new(10, 0, 0, 1));
    let answers = vec![Answer {
        refreshed: Ok(moved),
        attempts: Vec::new(),
    }];
    let changes = lifecycle.drain(&mut table, &events, &answers, &bound, NETLINK);
    assert_eq!(changes.v4_moved, [capture]);
    assert_eq!(changes.touched, [capture]);
}

#[test]
fn a_failed_refresh_touches_the_captures() {
    let (mut table, mut lifecycle, capture) = watched();
    let bound = unbound(&table);
    let events = collect(&vec![InterfaceEvent::Overflow]);
    let answers = vec![Answer {
        refreshed: Err(Errno::NoMemory),
        attempts: Vec::new(),
    }];
    let changes = lifecycle.drain(&mut table, &events, &answers, &bound, NETLINK);
    assert_eq!(changes.v4_moved, [capture]);
    assert!(changes.reconcile, "an overflow may hide a recreation");
}

#[test]
fn an_index_beyond_the_ceiling_may_be_a_recreation() {
    let (mut table, mut lifecycle, _) = watched();
    let bound = unbound(&table);
    let events = collect(&vec![InterfaceEvent::Link(9)]);
    let answers = vec![Answer {
        refreshed: Ok(resolved()),
        attempts: Vec::new(),
    }];
    let changes = lifecycle.drain(&mut table, &events, &answers, &bound, NETLINK);
    assert!(changes.reconcile);
    assert_eq!(lifecycle.max_seen_ifindex, 9);
}

#[test]
fn a_move_is_told_by_what_became_of_the_interface() {
    let key = InterfaceKey { index: 0 };
    let stale = |cached, cur| StaleInterface { key, cached, cur };
    assert_eq!(
        moved_line("eth0", stale(5, 0)),
        "interface eth0 is gone (was ifindex 5); parking until it returns"
    );
    assert_eq!(
        moved_line("eth0", stale(0, 6)),
        "interface eth0: returned as ifindex 6; re-binding"
    );
    assert_eq!(
        moved_line("eth0", stale(5, 6)),
        "interface eth0: recreated (ifindex 5 -> 6); re-binding"
    );
}

#[test]
fn rejoins_that_did_not_land_are_told_by_kind() {
    assert!(rejoin_lines("eth0", RejoinCounts::default()).is_empty());
    assert_eq!(
        rejoin_lines(
            "eth0",
            RejoinCounts {
                joined: 1,
                deferred: 2,
                failed: 3
            }
        ),
        [
            "3 group membership(s) on eth0 did not re-join; that traffic is not reflected until they do",
            "2 group membership(s) on eth0 not re-joined yet; retrying on its next address event",
        ]
    );
}
