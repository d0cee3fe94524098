//! An interface's addresses and how its v6 sources are picked.

use netflector::errno::Errno;
use netflector::interface::{
    if_index, if_index_checked, v6_rank, AddressChange, Interface, InterfaceAddresses, Ipv6Scope,
    Resolved, V6Pick,
};
use netflector::net::ip::{parse_ipv6, Ipv4Addr, Ipv6Addr};
use netflector::net::mac::MacAddr;

fn v6(text: &str) -> Ipv6Addr {
    parse_ipv6(text.as_bytes()).unwrap()
}

fn addresses(
    mac: Option<MacAddr>,
    v4: Option<Ipv4Addr>,
    v6: Option<Ipv6Addr>,
    v6_routable: Option<Ipv6Addr>,
) -> InterfaceAddresses {
    InterfaceAddresses {
        mac,
        v4,
        v4_prefix: None,
        v6,
        v6_routable,
    }
}

fn with_v4_prefix(mut addrs: InterfaceAddresses, prefix: u8) -> InterfaceAddresses {
    addrs.v4_prefix = Some(prefix);
    addrs
}

fn loopback() -> Resolved {
    Resolved {
        addrs: addresses(None, Some(Ipv4Addr::new(127, 0, 0, 1)), None, None),
        mtu: Some(65536),
    }
}

#[test]
fn v4_broadcast_needs_a_prefix_short_enough_for_one() {
    let base = addresses(None, Some(Ipv4Addr::new(192, 0, 2, 2)), None, None);
    assert_eq!(
        base.v4_directed_broadcast(),
        None,
        "no prefix, no broadcast"
    );
    assert_eq!(
        with_v4_prefix(base, 24).v4_directed_broadcast(),
        Some(Ipv4Addr::new(192, 0, 2, 255))
    );
    assert_eq!(
        with_v4_prefix(base, 30).v4_directed_broadcast(),
        Some(Ipv4Addr::new(192, 0, 2, 3))
    );
    assert_eq!(
        with_v4_prefix(base, 0).v4_directed_broadcast(),
        Some(Ipv4Addr::broadcast())
    );
    // Point-to-point prefixes have no directed broadcast.
    assert_eq!(with_v4_prefix(base, 31).v4_directed_broadcast(), None);
    assert_eq!(with_v4_prefix(base, 32).v4_directed_broadcast(), None);
}

#[test]
fn v6_rank_orders_link_local_above_ula_above_global() {
    let ll: Ipv6Addr = v6("fe80::1");
    let ula: Ipv6Addr = v6("fc00::1");
    let global: Ipv6Addr = v6("2001:db8::1");
    assert!(v6_rank(ll) > v6_rank(ula));
    assert!(v6_rank(ula) > v6_rank(global));
    assert!(v6_rank(global) > v6_rank(Ipv6Addr::loopback()));
}

#[test]
fn ipv6_scope_of_reads_multicast_and_unicast() {
    // Link-local-scoped multicast (ff02::) and link-local unicast (fe80::) are LinkLocal; the
    // site-local SSDP group (ff05::) and a global address are wider (Routable).
    assert_eq!(
        Ipv6Scope::of(v6("ff02::c")),
        Ipv6Scope::LinkLocal
    );
    assert_eq!(
        Ipv6Scope::of(v6("fe80::1")),
        Ipv6Scope::LinkLocal
    );
    assert_eq!(
        Ipv6Scope::of(v6("ff05::c")),
        Ipv6Scope::Routable
    );
    assert_eq!(
        Ipv6Scope::of(v6("2001:db8::1")),
        Ipv6Scope::Routable
    );
    // A ULA whose second byte's low nibble is 2 (fd02::) must not be mistaken for a link-local
    // multicast group; the `is_multicast` half of is_multicast_link_local guards exactly this.
    assert_eq!(
        Ipv6Scope::of(v6("fd02::1")),
        Ipv6Scope::Routable
    );
}

#[test]
fn v6_picks_by_scope_and_falls_back() {
    let both = InterfaceAddresses {
        v6: Some(v6("fe80::1")),
        v6_routable: Some(v6("2001:db8::1")),
        ..Default::default()
    };
    assert_eq!(both.v6(Ipv6Scope::LinkLocal), both.v6);
    assert_eq!(both.v6(Ipv6Scope::Routable), both.v6_routable);
    // No routable address: a wider destination falls back to the link-local one (prior behavior).
    let link_only = InterfaceAddresses {
        v6: Some(v6("fe80::1")),
        ..Default::default()
    };
    assert_eq!(link_only.v6(Ipv6Scope::Routable), link_only.v6);
    // No v6 at all: nothing to source.
    assert_eq!(InterfaceAddresses::default().v6(Ipv6Scope::Routable), None);
}

#[test]
fn v6_pick_tracks_best_overall_and_best_routable() {
    let mut addrs = InterfaceAddresses::default();
    let mut pick = V6Pick::default();
    pick.consider(&mut addrs, v6("2001:db8::1")); // global
    pick.consider(&mut addrs, v6("fc00::1")); // ULA, outranks global
    pick.consider(&mut addrs, v6("fe80::1")); // link-local, best overall
    assert_eq!(
        addrs.v6,
        Some(v6("fe80::1")),
        "best overall is the link-local"
    );
    assert_eq!(
        addrs.v6_routable,
        Some(v6("fc00::1")),
        "best non-link-local is the ULA"
    );
}

#[test]
fn refresh_reports_which_source_fields_changed() {
    let mut iface = Interface::open("lo", Some(1));
    iface.refresh(loopback());
    // Taking addresses that are already current reports nothing moved.
    let (change, lines) = iface.refresh(loopback());
    assert_eq!(change, AddressChange::default());
    assert!(lines.is_empty());
    // With a stale v4 cached, the next refresh (back to the real 127.0.0.1) reports a v4 move, and
    // only v4. This is the flag the DIAL eviction depends on.
    iface.addrs.v4 = Some(Ipv4Addr::new(10, 0, 0, 1));
    let (change, lines) = iface.refresh(loopback());
    assert_eq!(
        change,
        AddressChange {
            v4: true,
            ..AddressChange::default()
        },
    );
    assert_eq!(lines, ["interface lo: IPv4 changed 10.0.0.1 -> 127.0.0.1"]);
    // A stale v6 is reported independently of v4, so a routine v6 rotation can't masquerade as the
    // v4 change that would evict a DIAL proxy.
    iface.addrs.v6 = Some(v6("2001:db8::1"));
    let (change, lines) = iface.refresh(loopback());
    assert!(change.v6, "the differing v6 is reported");
    assert!(!change.v4, "but it does not look like a v4 change");
    assert_eq!(lines, ["interface lo: lost IPv6 (was 2001:db8::1)"]);
}

#[test]
fn a_refresh_takes_the_mtu_and_logs_what_was_gained() {
    let mut iface = Interface::open("lo", Some(1));
    let (_, lines) = iface.refresh(loopback());
    assert_eq!(iface.mtu, Some(65536));
    assert_eq!(lines, ["interface lo: gained IPv4 127.0.0.1"]);
}

#[test]
fn unknown_interface_has_no_addresses() {
    let iface = Interface::open("nonexistent-xyz-999", None);
    assert_eq!(iface.addrs, InterfaceAddresses::default());
    assert_eq!(iface.ifindex, 0);
}

#[test]
fn a_name_that_resolves_to_nothing_is_absent_not_an_error() {
    assert!(matches!(
        if_index_checked(1, Errno::Other(0)),
        Ok(Some(index)) if index != 0
    ));
    // No such interface is no failed lookup.
    assert!(matches!(if_index_checked(0, Errno::NoDevice), Ok(None)));
    assert!(matches!(if_index_checked(0, Errno::InvalidArgument), Ok(None)));
}

#[test]
fn a_lookup_that_could_not_run_says_nothing() {
    for errno in [
        Errno::TooManyOpenFiles,
        Errno::FileTableFull,
        Errno::NoMemory,
        Errno::NoBufferSpace,
    ] {
        assert_eq!(if_index_checked(0, errno), Err(errno));
        assert_eq!(if_index(0, errno), None);
    }
    assert_eq!(if_index(3, Errno::NoMemory), Some(3));
}

#[test]
fn addresses_are_written_for_the_log() {
    let none = InterfaceAddresses::default();
    assert_eq!(none.to_text(), "mac none, v4 none, v6 none, v6-routable none");
    let some = with_v4_prefix(
        addresses(
            Some(MacAddr::from([2, 0, 0, 0, 0, 1])),
            Some(Ipv4Addr::new(192, 0, 2, 2)),
            Some(v6("fe80::1")),
            Some(v6("2001:db8::1")),
        ),
        24,
    );
    assert_eq!(
        some.to_text(),
        "mac 02:00:00:00:00:01, v4 192.0.2.2/24, v6 fe80::1, v6-routable 2001:db8::1"
    );
}
