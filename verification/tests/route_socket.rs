//! Notifications of the BSD routing socket, and the addresses `getifaddrs` lists.

use netflector::errno::Errno;
use netflector::interface::address_monitor;
use netflector::interface::getifaddrs::{
    canonical_v6, inet6_socket, no_ipv6_stack, prefix_len, read_mac, read_v4, resolve, Addr, IfAddr,
    SDL_ALEN, SDL_DATA, SDL_NLEN, SIN_ADDR,
};
use netflector::interface::interface_monitor::route::{
    for_each_change, ANNOUNCE_INDEX_OFFSET, INDEX_OFFSET, RTM_ADD, RTM_IFANNOUNCE, RTM_IFINFO,
    RTM_NEWADDR,
};
use netflector::interface::interface_monitor::{
    Action, Drain, InterfaceEvent, Received, MAX_CONSECUTIVE_OVERFLOWS,
};
use netflector::interface::wire::Order;
use netflector::net::ip::{Ipv4Addr, Ipv6Addr};
use netflector::net::mac::MacAddr;

const ORDER: Order = Order::Little;

/// A routing message of `msglen` bytes: header (msglen, type) plus `index` at its fixed
/// offset, the rest zero.
fn message(msg_type: u8, index: u16, msglen: usize) -> Vec<u8> {
    let mut m = vec![0u8; msglen];
    m[0..2].copy_from_slice(&u16::try_from(msglen).unwrap().to_le_bytes());
    m[3] = msg_type;
    m[INDEX_OFFSET..INDEX_OFFSET + 2].copy_from_slice(&index.to_le_bytes());
    m
}

/// What both monitors see in `buf`.
fn seen(buf: &[u8]) -> (Vec<InterfaceEvent>, Vec<u32>) {
    (
        for_each_change(ORDER, buf, false),
        address_monitor::for_each_change(ORDER, buf),
    )
}

#[test]
fn route_reports_index_of_address_and_link_messages() {
    let mut buf = message(RTM_NEWADDR, 7, 20);
    buf.extend(message(RTM_IFINFO, 9, 24));
    let (events, indexes) = seen(&buf);
    assert_eq!(
        events,
        [InterfaceEvent::Address(7), InterfaceEvent::Address(9)]
    );
    assert_eq!(indexes, [7, 9]);
}

#[test]
fn announce_messages_report_a_link_event() {
    let mut m = vec![0u8; 24];
    m[0..2].copy_from_slice(&24u16.to_le_bytes());
    m[3] = RTM_IFANNOUNCE;
    m[ANNOUNCE_INDEX_OFFSET..ANNOUNCE_INDEX_OFFSET + 2].copy_from_slice(&7u16.to_le_bytes());
    assert_eq!(for_each_change(ORDER, &m, true), [InterfaceEvent::Link(7)]);
    // A system without announcements has no such type.
    assert!(for_each_change(ORDER, &m, false).is_empty());
}

#[test]
fn route_ignores_unsubscribed_types() {
    let buf = message(RTM_ADD, 5, 20);
    let (events, indexes) = seen(&buf);
    assert!(events.is_empty());
    assert!(indexes.is_empty());
}

#[test]
fn route_ignores_message_too_short_for_the_index() {
    let mut buf = vec![0u8; INDEX_OFFSET];
    buf[0..2].copy_from_slice(&u16::try_from(INDEX_OFFSET).unwrap().to_le_bytes());
    buf[3] = RTM_NEWADDR;
    let (events, indexes) = seen(&buf);
    assert!(events.is_empty());
    assert!(indexes.is_empty());
}

#[test]
fn route_never_forwards_index_zero() {
    let buf = message(RTM_NEWADDR, 0, 20);
    let (events, indexes) = seen(&buf);
    assert!(events.is_empty());
    assert!(indexes.is_empty());
}

#[test]
fn route_stops_at_a_message_claiming_a_length_past_the_buffer() {
    let mut buf = message(RTM_NEWADDR, 7, 20);
    buf[0..2].copy_from_slice(&9999u16.to_le_bytes());
    let (events, indexes) = seen(&buf);
    assert!(events.is_empty());
    assert!(indexes.is_empty());
}

#[test]
fn a_burst_of_overflows_ends_the_drain() {
    let mut drain = Drain::new();
    assert!(matches!(
        drain.step(Received::Failed(Errno::NoBufferSpace)),
        Action::ReportOverflow
    ));
    for _ in 2..MAX_CONSECUTIVE_OVERFLOWS {
        assert!(matches!(
            drain.step(Received::Failed(Errno::NoBufferSpace)),
            Action::Continue
        ));
    }
    assert!(matches!(
        drain.step(Received::Failed(Errno::NoBufferSpace)),
        Action::Done
    ));
}

#[test]
fn a_datagram_starts_the_burst_anew() {
    let mut drain = Drain::new();
    drain.step(Received::Failed(Errno::NoBufferSpace));
    assert_eq!(drain.overflows, 1);
    assert!(matches!(drain.step(Received::Datagram(20)), Action::Walk));
    assert_eq!(drain.overflows, 0);
    assert!(matches!(drain.step(Received::WouldBlock), Action::Done));
}

#[test]
fn only_a_missing_ipv6_stack_reads_as_no_v6() {
    assert!(no_ipv6_stack(Errno::FamilyNotSupported));
    assert!(no_ipv6_stack(Errno::ProtocolNotSupported));
    // Pressure errnos fail the resolve instead of committing a false v6 loss.
    assert!(!no_ipv6_stack(Errno::TooManyOpenFiles));
    assert!(!no_ipv6_stack(Errno::NoBufferSpace));
    assert_eq!(inet6_socket(Ok(())), Ok(true));
    assert_eq!(inet6_socket(Err(Errno::FamilyNotSupported)), Ok(false));
    assert_eq!(
        inet6_socket(Err(Errno::TooManyOpenFiles)),
        Err(Errno::TooManyOpenFiles)
    );
}

#[test]
fn canonical_v6_strips_the_embedded_scope_from_link_local() {
    let embedded = [
        0xfe, 0x80, 0x00, 0x07, 0, 0, 0, 0, 0, 0, 0, 0, 0x02, 0x11, 0x22, 0x33,
    ];
    assert_eq!(
        canonical_v6(embedded),
        Ipv6Addr::new(0xfe80, 0, 0, 0, 0, 0, 0x0211, 0x2233)
    );
    // A non-link-local address is untouched.
    let global = [0x20, 0x01, 0x0d, 0xb8, 0, 0, 0, 0, 0, 0, 0, 0, 0, 0, 0, 1];
    assert_eq!(
        canonical_v6(global),
        Ipv6Addr::new(0x2001, 0x0db8, 0, 0, 0, 0, 0, 1)
    );
}

/// A raw link-layer socket address: an `nlen`-byte name then `mac`, with `alen`/`sdl_len` as given.
fn dl_bytes(name: &[u8], mac: &[u8], alen: u8, sdl_len: u8) -> [u8; 32] {
    let mut buf = [0u8; 32];
    buf[0] = sdl_len;
    buf[1] = 18;
    buf[SDL_NLEN] = u8::try_from(name.len()).unwrap();
    buf[SDL_ALEN] = alen;
    buf[SDL_DATA..SDL_DATA + name.len()].copy_from_slice(name);
    buf[SDL_DATA + name.len()..SDL_DATA + name.len() + mac.len()].copy_from_slice(mac);
    buf
}

#[test]
fn read_mac_extracts_the_address_after_the_name() {
    let mac = [0x02, 0x11, 0x22, 0x33, 0x44, 0x55];
    let len = u8::try_from(SDL_DATA + 3 + 6).unwrap();
    let buf = dl_bytes(b"en0", &mac, 6, len);
    assert_eq!(read_mac(&buf[..usize::from(len)]), Some(MacAddr::from(mac)));
}

#[test]
fn read_v4_zero_fills_a_netmask_cut_short_after_its_last_set_byte() {
    let mut sa = [0u8; 16];
    sa[0] = 7;
    sa[SIN_ADDR..SIN_ADDR + 3].copy_from_slice(&[0xff, 0xff, 0xff]);
    assert_eq!(read_v4(&sa[..7]), Ipv4Addr::new(255, 255, 255, 0));
    // One that stops before the address is the all-zero mask.
    assert_eq!(read_v4(&sa[..SIN_ADDR]), Ipv4Addr::new(0, 0, 0, 0));
}

#[test]
fn prefix_len_reads_a_contiguous_mask_only() {
    assert_eq!(prefix_len(Ipv4Addr::new(255, 255, 255, 0)), Some(24));
    assert_eq!(prefix_len(Ipv4Addr::new(255, 255, 255, 252)), Some(30));
    assert_eq!(prefix_len(Ipv4Addr::new(255, 255, 255, 255)), Some(32));
    assert_eq!(prefix_len(Ipv4Addr::new(0, 0, 0, 0)), Some(0));
    assert_eq!(prefix_len(Ipv4Addr::new(255, 0, 255, 0)), None);
}

#[test]
fn read_mac_is_none_without_a_link_address() {
    // Loopback carries a name but no address (alen 0).
    let len = u8::try_from(SDL_DATA + 3).unwrap();
    let buf = dl_bytes(b"lo0", &[], 0, len);
    assert_eq!(read_mac(&buf[..usize::from(len)]), None);
}

#[test]
fn read_mac_is_none_when_the_address_runs_past_the_sockaddr() {
    // The address length claims 6, but the sockaddr stops short of the MAC.
    let mac = [0x02, 0x11, 0x22, 0x33, 0x44, 0x55];
    let short = u8::try_from(SDL_DATA + 3 + 3).unwrap();
    let buf = dl_bytes(b"en0", &mac, 6, short);
    assert_eq!(read_mac(&buf[..usize::from(short)]), None);
}

#[test]
fn resolve_reads_the_entries_of_the_named_interface() {
    let mut sa = vec![0u8; 16];
    sa[SIN_ADDR..SIN_ADDR + 4].copy_from_slice(&[192, 0, 2, 2]);
    let mut mask = vec![0u8; 7];
    mask[SIN_ADDR..7].copy_from_slice(&[255, 255, 255]);
    let list = vec![
        IfAddr {
            name: "en1".to_string(),
            addr: Addr::Inet {
                sa: vec![0, 0, 0, 0, 10, 0, 0, 1],
                netmask: None,
            },
        },
        IfAddr {
            name: "en0".to_string(),
            addr: Addr::Inet {
                sa,
                netmask: Some(mask),
            },
        },
        IfAddr {
            name: "en0".to_string(),
            addr: Addr::Link {
                sa: dl_bytes(b"en0", &[2, 0, 0, 0, 0, 1], 6, 17)[..17].to_vec(),
                mtu: Some(1500),
            },
        },
    ];
    let r = resolve("en0", &list);
    assert_eq!(r.addrs.v4, Some(Ipv4Addr::new(192, 0, 2, 2)));
    assert_eq!(
        r.addrs.v4_directed_broadcast(),
        Some(Ipv4Addr::new(192, 0, 2, 255))
    );
    assert_eq!(r.addrs.mac, Some(MacAddr::from([2, 0, 0, 0, 0, 1])));
    assert_eq!(r.mtu, Some(1500));
}
