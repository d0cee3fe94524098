//! Dumps and notifications of the Linux routing socket.

use netflector::interface::interface_monitor::rtnetlink::{
    for_each_change, sender_ok, INDEXES_MONOTONIC, LIFECYCLE_EVENTS,
};
use netflector::interface::interface_monitor::InterfaceEvent;
use netflector::interface::rtnetlink::{
    dump_request, resolve, rtattrs, scan_addr, scan_link, walk_dump, Dump, DumpStep, DUMP_DEADLINE, IFADDRMSG,
    IFINFOMSG, NLMSG_DONE, NLMSG_ERROR,
};
use netflector::interface::wire::{read_u16, read_u32, Order};
use netflector::interface::{InterfaceAddresses, V6Pick};
use netflector::libcex::nl_align;
use netflector::net::ip::{Ipv4Addr, Ipv6Addr};
use netflector::net::mac::MacAddr;

const HEADER: usize = 16;

fn native() -> Order {
    if u16::from_ne_bytes([1, 0]) == 1 {
        Order::Little
    } else {
        Order::Big
    }
}

/// Serialize `[len:u16][type:u16][value]` attributes, each padded to 4 bytes, onto `buf`.
fn push_attrs(buf: &mut Vec<u8>, attrs: &[(u16, &[u8])]) {
    for &(attr_type, value) in attrs {
        let len = u16::try_from(4 + value.len()).unwrap();
        buf.extend_from_slice(&len.to_ne_bytes());
        buf.extend_from_slice(&attr_type.to_ne_bytes());
        buf.extend_from_slice(value);
        while buf.len() % 4 != 0 {
            buf.push(0);
        }
    }
}

/// A new-address message: a zeroed header, an ifaddrmsg (family/flags/index), then `attrs`.
fn addr_msg(family: i32, index: u32, flags: u8, attrs: &[(u16, &[u8])]) -> Vec<u8> {
    addr_msg_prefixed(family, index, 0, flags, attrs)
}

/// [`addr_msg`] with the prefix length set.
fn addr_msg_prefixed(
    family: i32,
    index: u32,
    prefixlen: u8,
    flags: u8,
    attrs: &[(u16, &[u8])],
) -> Vec<u8> {
    let mut m = vec![0u8; HEADER];
    m.push(u8::try_from(family).unwrap());
    m.extend_from_slice(&[prefixlen, flags, 0]);
    m.extend_from_slice(&index.to_ne_bytes());
    push_attrs(&mut m, attrs);
    m
}

/// A new-link message: a zeroed header, an ifinfomsg (index), then `attrs`.
fn link_msg(index: i32, attrs: &[(u16, &[u8])]) -> Vec<u8> {
    let mut m = vec![0u8; HEADER];
    m.extend_from_slice(&[0, 0]);
    m.extend_from_slice(&0u16.to_ne_bytes());
    m.extend_from_slice(&index.to_ne_bytes());
    m.extend_from_slice(&[0u8; 8]);
    push_attrs(&mut m, attrs);
    m
}

/// A message with its header's length and type set from `body`, padded.
fn nl_message(msg_type: u16, body: &[u8]) -> Vec<u8> {
    let len = HEADER + body.len();
    let mut m = vec![0u8; nl_align(len)];
    m[0..4].copy_from_slice(&u32::try_from(len).unwrap().to_ne_bytes());
    m[4..6].copy_from_slice(&msg_type.to_ne_bytes());
    m[HEADER..HEADER + body.len()].copy_from_slice(body);
    m
}

fn ifaddrmsg(index: u32) -> Vec<u8> {
    let mut b = vec![0u8; IFADDRMSG];
    b[4..8].copy_from_slice(&index.to_ne_bytes());
    b
}

fn ifinfomsg(index: i32) -> Vec<u8> {
    let mut b = vec![0u8; IFINFOMSG];
    b[4..8].copy_from_slice(&index.to_ne_bytes());
    b
}

/// A netlink socket address with `pid` as its port.
fn sockaddr_with_pid(pid: u32) -> Vec<u8> {
    let mut b = vec![0u8; 128];
    b[4..8].copy_from_slice(&pid.to_ne_bytes());
    b
}

#[test]
fn read_at_bounds_checks_the_read() {
    let buf = [1u8, 2, 3, 4, 5];
    assert_eq!(
        read_u32(native(), &buf, 1),
        Some(u32::from_ne_bytes([2, 3, 4, 5]))
    );
    assert_eq!(read_u32(native(), &buf, 2), None);
    assert_eq!(read_u16(native(), &buf, usize::MAX), None);
}

#[test]
fn each_order_reads_its_own_way() {
    let buf = [1u8, 2, 3, 4];
    assert_eq!(read_u16(Order::Little, &buf, 0), Some(0x0201));
    assert_eq!(read_u16(Order::Big, &buf, 0), Some(0x0102));
    assert_eq!(read_u32(Order::Little, &buf, 0), Some(0x0403_0201));
    assert_eq!(read_u32(Order::Big, &buf, 0), Some(0x0102_0304));
}

#[test]
fn walk_dump_stops_at_a_length_that_would_overflow_the_offset() {
    let mut buf = nl_message(libc::RTM_NEWADDR, &[0u8; IFADDRMSG]);
    let second = buf.len();
    buf.extend(nl_message(libc::RTM_NEWADDR, &[0u8; IFADDRMSG]));
    buf[second..second + 4].copy_from_slice(&u32::MAX.to_ne_bytes());
    let (found, step) = walk_dump(native(), &buf, libc::RTM_NEWADDR);
    assert!(matches!(step, DumpStep::More));
    assert_eq!(found.len(), 1);
}

#[test]
fn walk_dump_surfaces_the_nlmsg_error_errno() {
    let buf = nl_message(NLMSG_ERROR, &(-libc::EPERM).to_ne_bytes());
    match walk_dump(native(), &buf, libc::RTM_NEWADDR).1 {
        DumpStep::Failed(e) => assert_eq!(e, Some(libc::EPERM)),
        _ => panic!("expected DumpStep::Failed carrying the errno"),
    }
}

#[test]
fn walk_dump_ends_at_the_done_message_and_passes_other_replies() {
    let mut buf = nl_message(libc::RTM_NEWLINK, &ifinfomsg(3));
    buf.extend(nl_message(libc::RTM_NEWADDR, &ifaddrmsg(5)));
    buf.extend(nl_message(NLMSG_DONE, &[0u8; 4]));
    buf.extend(nl_message(libc::RTM_NEWADDR, &ifaddrmsg(6)));
    let (found, step) = walk_dump(native(), &buf, libc::RTM_NEWADDR);
    assert!(matches!(step, DumpStep::Done));
    assert_eq!(found.len(), 1);
    assert_eq!(found[0], &nl_message(libc::RTM_NEWADDR, &ifaddrmsg(5))[..]);
}

#[test]
fn rtattrs_walks_tlvs_and_stops_at_a_bad_length() {
    let mut buf = Vec::new();
    push_attrs(&mut buf, &[(1, &[0xaa, 0xbb]), (2, &[0xcc])]);
    let got: Vec<(u16, Vec<u8>)> = rtattrs(native(), &buf, 0)
        .into_iter()
        .map(|(t, v)| (t, v.to_vec()))
        .collect();
    assert_eq!(got, vec![(1, vec![0xaa, 0xbb]), (2, vec![0xcc])]);

    // A final header whose length runs past the buffer ends the walk after the good ones.
    let mut bad = buf.clone();
    bad.extend_from_slice(&[0xff, 0xff, 0x00, 0x00]);
    assert_eq!(rtattrs(native(), &bad, 0).len(), 2);
}

#[test]
fn scan_addr_records_a_usable_v4() {
    let msg = addr_msg(libc::AF_INET, 5, 0, &[(libc::IFA_ADDRESS, &[10, 0, 0, 1])]);
    let mut addrs = InterfaceAddresses::default();
    scan_addr(native(), &msg, 5, &mut addrs, &mut V6Pick::default());
    assert_eq!(addrs.v4, Some(Ipv4Addr::new(10, 0, 0, 1)));
}

#[test]
fn scan_addr_records_the_v4_prefix() {
    let msg = addr_msg_prefixed(
        libc::AF_INET,
        5,
        24,
        0,
        &[(libc::IFA_ADDRESS, &[192, 0, 2, 2])],
    );
    let mut addrs = InterfaceAddresses::default();
    scan_addr(native(), &msg, 5, &mut addrs, &mut V6Pick::default());
    assert_eq!(
        addrs.v4_directed_broadcast(),
        Some(Ipv4Addr::new(192, 0, 2, 255))
    );
}

#[test]
fn scan_addr_prefers_ifa_local_over_ifa_address() {
    // On point-to-point links IFA_ADDRESS is the peer; IFA_LOCAL is ours.
    let msg = addr_msg(
        libc::AF_INET,
        5,
        0,
        &[
            (libc::IFA_ADDRESS, &[10, 0, 0, 2]),
            (libc::IFA_LOCAL, &[10, 0, 0, 1]),
        ],
    );
    let mut addrs = InterfaceAddresses::default();
    scan_addr(native(), &msg, 5, &mut addrs, &mut V6Pick::default());
    assert_eq!(addrs.v4, Some(Ipv4Addr::new(10, 0, 0, 1)));
}

#[test]
fn scan_addr_skips_an_unusable_v4() {
    // IFA_FLAGS carrying TENTATIVE (0x40) supersedes the 8-bit flags and disqualifies it.
    let msg = addr_msg(
        libc::AF_INET,
        5,
        0,
        &[
            (libc::IFA_ADDRESS, &[10, 0, 0, 1]),
            (libc::IFA_FLAGS, &0x40u32.to_ne_bytes()),
        ],
    );
    let mut addrs = InterfaceAddresses::default();
    scan_addr(native(), &msg, 5, &mut addrs, &mut V6Pick::default());
    assert_eq!(addrs.v4, None);
}

#[test]
fn scan_addr_ignores_a_different_ifindex() {
    let msg = addr_msg(libc::AF_INET, 99, 0, &[(libc::IFA_ADDRESS, &[10, 0, 0, 1])]);
    let mut addrs = InterfaceAddresses::default();
    scan_addr(native(), &msg, 5, &mut addrs, &mut V6Pick::default());
    assert_eq!(addrs.v4, None);
}

#[test]
fn scan_addr_records_a_usable_v6() {
    let v6 = Ipv6Addr::new(0xfe80, 0, 0, 0, 0, 0, 0, 1);
    let octets = [0xfe, 0x80, 0, 0, 0, 0, 0, 0, 0, 0, 0, 0, 0, 0, 0, 1];
    let msg = addr_msg(libc::AF_INET6, 5, 0, &[(libc::IFA_ADDRESS, &octets)]);
    let mut addrs = InterfaceAddresses::default();
    scan_addr(native(), &msg, 5, &mut addrs, &mut V6Pick::default());
    assert_eq!(addrs.v6, Some(v6));
}

#[test]
fn scan_link_records_the_mac_only_for_the_right_index() {
    let mac = [0x02, 0, 0, 0, 0, 0x2a];
    let msg = link_msg(5, &[(libc::IFLA_ADDRESS, &mac)]);
    let mut addrs = InterfaceAddresses::default();
    let mut mtu = None;
    scan_link(native(), &msg, 5, &mut addrs, &mut mtu);
    assert_eq!(addrs.mac, Some(MacAddr::from(mac)));

    let mut other = InterfaceAddresses::default();
    scan_link(native(), &msg, 6, &mut other, &mut mtu);
    assert_eq!(other.mac, None);
}

#[test]
fn scan_link_records_the_mtu_beside_the_mac() {
    let mac = [0x02, 0, 0, 0, 0, 0x2a];
    let msg = link_msg(
        5,
        &[
            (libc::IFLA_ADDRESS, &mac),
            (libc::IFLA_MTU, &1500u32.to_ne_bytes()),
        ],
    );
    let mut addrs = InterfaceAddresses::default();
    let mut mtu = None;
    scan_link(native(), &msg, 5, &mut addrs, &mut mtu);
    assert_eq!(addrs.mac, Some(MacAddr::from(mac)));
    assert_eq!(mtu, Some(1500));
}

#[test]
fn resolve_folds_every_message_of_the_dumps() {
    let addrs = vec![
        addr_msg_prefixed(libc::AF_INET, 5, 16, 0, &[(libc::IFA_ADDRESS, &[10, 1, 2, 3])]),
        addr_msg(libc::AF_INET, 9, 0, &[(libc::IFA_ADDRESS, &[10, 9, 9, 9])]),
    ];
    let links = vec![link_msg(
        5,
        &[
            (libc::IFLA_ADDRESS, &[2, 0, 0, 0, 0, 7]),
            (libc::IFLA_MTU, &9000u32.to_ne_bytes()),
        ],
    )];
    let r = resolve(native(), 5, &addrs, &links);
    assert_eq!(r.addrs.v4, Some(Ipv4Addr::new(10, 1, 2, 3)));
    assert_eq!(
        r.addrs.v4_directed_broadcast(),
        Some(Ipv4Addr::new(10, 1, 255, 255))
    );
    assert_eq!(r.addrs.mac, Some(MacAddr::from([2, 0, 0, 0, 0, 7])));
    assert_eq!(r.mtu, Some(9000));
    // Index 0 names no interface.
    let none = resolve(native(), 0, &addrs, &links);
    assert_eq!(none.addrs, InterfaceAddresses::default());
    assert_eq!(none.mtu, None);
}

#[test]
fn a_dump_request_is_a_header_and_a_zeroed_body() {
    let r = dump_request(Order::Little, libc::RTM_GETADDR, IFADDRMSG);
    let mut want = vec![24, 0, 0, 0, 22, 0, 0x01, 0x03, 1, 0, 0, 0, 0, 0, 0, 0];
    want.extend_from_slice(&[0u8; IFADDRMSG]);
    assert_eq!(r, want);
}

#[test]
fn a_dump_takes_datagrams_of_the_kernel_alone() {
    let mut dump = Dump::new(libc::RTM_NEWADDR, 0);
    let forged = nl_message(libc::RTM_NEWADDR, &ifaddrmsg(9));
    assert!(matches!(dump.on_datagram(native(), 1234, &forged), DumpStep::More));
    assert!(dump.messages.is_empty());
    let mut real = nl_message(libc::RTM_NEWADDR, &ifaddrmsg(5));
    real.extend(nl_message(NLMSG_DONE, &[0u8; 4]));
    assert!(matches!(dump.on_datagram(native(), 0, &real), DumpStep::Done));
    assert_eq!(dump.messages.len(), 1);
}

#[test]
fn a_dump_is_given_up_at_its_deadline() {
    let dump = Dump::new(libc::RTM_NEWADDR, 7);
    assert_eq!(dump.expired(7 + DUMP_DEADLINE - 1), None);
    assert_eq!(
        dump.expired(7 + DUMP_DEADLINE),
        Some("the netlink dump did not finish within its deadline")
    );
}

#[test]
fn sender_ok_accepts_only_the_kernel() {
    assert!(sender_ok(native(), &sockaddr_with_pid(0), 12));
    assert!(!sender_ok(native(), &sockaddr_with_pid(1234), 12));
    assert!(!sender_ok(native(), &sockaddr_with_pid(0), 4));
}

#[test]
fn reports_index_of_addr_and_link_messages() {
    let mut buf = nl_message(libc::RTM_NEWADDR, &ifaddrmsg(7));
    buf.extend(nl_message(libc::RTM_DELLINK, &ifinfomsg(9)));
    assert_eq!(
        for_each_change(native(), &buf),
        [InterfaceEvent::Address(7), InterfaceEvent::Link(9)]
    );
}

#[test]
fn ignores_other_message_types() {
    // NLMSG_DONE (3) and any non-addr/link type carry no interface index for us.
    let buf = nl_message(3, &ifaddrmsg(5));
    assert!(for_each_change(native(), &buf).is_empty());
}

#[test]
fn skips_a_body_too_short_for_its_struct() {
    let buf = nl_message(libc::RTM_NEWADDR, &[0u8; 2]);
    assert!(for_each_change(native(), &buf).is_empty());
}

#[test]
fn rtnetlink_never_forwards_index_zero() {
    let buf = nl_message(libc::RTM_NEWADDR, &ifaddrmsg(0));
    assert!(for_each_change(native(), &buf).is_empty());
}

#[test]
fn rtnetlink_stops_at_a_message_claiming_a_length_past_the_buffer() {
    let mut buf = nl_message(libc::RTM_NEWADDR, &ifaddrmsg(7));
    buf[0..4].copy_from_slice(&9999u32.to_ne_bytes());
    assert!(for_each_change(native(), &buf).is_empty());
}

#[test]
fn stops_at_a_length_that_would_overflow_the_offset() {
    let mut buf = nl_message(libc::RTM_NEWADDR, &ifaddrmsg(7));
    let second = buf.len();
    buf.extend(nl_message(libc::RTM_NEWADDR, &ifaddrmsg(9)));
    buf[second..second + 4].copy_from_slice(&u32::MAX.to_ne_bytes());
    assert_eq!(
        for_each_change(native(), &buf),
        [InterfaceEvent::Address(7)]
    );
}

#[test]
fn netlink_hands_out_rising_indexes_and_lifecycle_events() {
    assert!(INDEXES_MONOTONIC);
    assert!(LIFECYCLE_EVENTS);
}
