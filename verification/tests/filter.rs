//! Which packets a registration takes.

use netflector::config::value::AddressFamily;
use netflector::dispatch::filter::{is_own_echo, Filter, FilterSet};
use netflector::interface::InterfaceAddresses;
use netflector::net::ip::{parse_ip, parse_ipv6, IpAddr, Ipv4Addr, Ipv6Addr};
use netflector::net::mac::{MacAddr, MacSet};
use netflector::net::packet::{Packet, SocketAddr};

fn ip(text: &str) -> IpAddr {
    parse_ip(text.as_bytes()).unwrap()
}

fn v6(text: &str) -> Ipv6Addr {
    parse_ipv6(text.as_bytes()).unwrap()
}

/// `host:port`, or `[host]:port` for IPv6.
fn sock(text: &str) -> SocketAddr {
    let (host, port) = text.rsplit_once(':').unwrap();
    let host = host.trim_start_matches('[').trim_end_matches(']');
    SocketAddr::new(ip(host), port.parse().unwrap())
}

fn packet(
    source: &str,
    dest: &str,
    dst_mac: Option<MacAddr>,
    src_mac: Option<MacAddr>,
) -> Packet<'static> {
    Packet {
        source: sock(source),
        dest: sock(dest),
        ttl: 64,
        dst_mac,
        src_mac,
        payload: b"",
    }
}

#[test]
fn wildcard_filter_matches_anything() {
    assert!(Filter::default().matches(&packet("10.0.0.1:1", "10.0.0.2:2", None, None), None));
}

#[test]
fn filter_matches_destination_group_and_port() {
    let f = Filter {
        dst_ip: Some(FilterSet::one(ip("224.0.0.251"))),
        dst_port: Some(FilterSet::one(5353)),
        ..Filter::default()
    };
    assert!(f.matches(
        &packet("10.0.0.1:5353", "224.0.0.251:5353", None, None),
        None
    ));
    // Wrong group, and wrong port, each miss.
    assert!(!f.matches(
        &packet("10.0.0.1:5353", "224.0.0.252:5353", None, None),
        None
    ));
    assert!(!f.matches(
        &packet("10.0.0.1:5353", "224.0.0.251:1900", None, None),
        None
    ));
}

#[test]
fn filter_dst_own_widens_dst_ip_to_the_ingress_addresses() {
    let group = ip("224.0.0.251");
    let ingress = InterfaceAddresses {
        mac: None,
        v4: Some(Ipv4Addr::new(10, 0, 0, 1)),
        v4_prefix: None,
        v6: Some(v6("fe80::1")),
        v6_routable: Some(v6("fd00::1")),
    };
    let widened = |family: AddressFamily| Filter {
        dst_ip: Some(FilterSet::one(group)),
        dst_own: Some(family),
        ..Filter::default()
    };
    let dual = widened(AddressFamily::Dual);
    assert!(dual.matches(
        &packet("10.0.0.2:1", "224.0.0.251:9", None, None),
        Some(ingress)
    ));
    // Every address the ingress owns, in either family.
    for own in ["10.0.0.1:9", "[fe80::1]:9", "[fd00::1]:9"] {
        assert!(dual.matches(&packet("10.0.0.2:1", own, None, None), Some(ingress)));
    }
    // Only the families the widening names: an answer of the other family is not taken.
    let v4_only = widened(AddressFamily::Ipv4);
    assert!(v4_only.matches(
        &packet("10.0.0.2:1", "10.0.0.1:9", None, None),
        Some(ingress)
    ));
    assert!(!v4_only.matches(
        &packet("[fe80::2]:1", "[fe80::1]:9", None, None),
        Some(ingress)
    ));
    let v6_only = widened(AddressFamily::Ipv6);
    assert!(v6_only.matches(
        &packet("[fe80::2]:1", "[fd00::1]:9", None, None),
        Some(ingress)
    ));
    assert!(!v6_only.matches(
        &packet("10.0.0.2:1", "10.0.0.1:9", None, None),
        Some(ingress)
    ));
    // Another host's address, and an ingress with no known addresses, both miss.
    assert!(!dual.matches(
        &packet("10.0.0.2:1", "10.0.0.3:9", None, None),
        Some(ingress)
    ));
    assert!(!dual.matches(&packet("10.0.0.2:1", "10.0.0.1:9", None, None), None));
    // Without the widening the group alone matches.
    let group_only = Filter {
        dst_ip: Some(FilterSet::one(group)),
        ..Filter::default()
    };
    assert!(!group_only.matches(
        &packet("10.0.0.2:1", "10.0.0.1:9", None, None),
        Some(ingress)
    ));
}

#[test]
fn filter_broadcast_takes_the_all_ones_mac_or_the_limited_broadcast() {
    let f = Filter {
        broadcast: true,
        ..Filter::default()
    };
    let all_ones = Some(MacAddr::broadcast());
    let unicast = Some(MacAddr::from([0x02, 0, 0, 0, 0, 1]));
    // The ingress owns 10.0.0.1/24, so its directed broadcast is 10.0.0.255.
    let own = Some(InterfaceAddresses {
        v4: Some(Ipv4Addr::new(10, 0, 0, 1)),
        v4_prefix: Some(24),
        ..InterfaceAddresses::default()
    });
    // On the all-ones MAC every subnet's directed broadcast qualifies, the limited one too.
    assert!(f.matches(&packet("10.0.0.1:1", "10.0.0.255:9", all_ones, None), own));
    assert!(f.matches(&packet("10.0.1.1:1", "10.0.1.255:9", all_ones, None), own));
    assert!(f.matches(
        &packet("10.0.0.1:1", "255.255.255.255:9", all_ones, None),
        own
    ));
    // Without MACs the address decides: the limited broadcast, or the link's own.
    assert!(f.matches(&packet("10.0.0.1:1", "255.255.255.255:9", None, None), own));
    assert!(f.matches(&packet("10.0.0.1:1", "10.0.0.255:9", None, None), own));
    assert!(!f.matches(&packet("10.0.1.1:1", "10.0.1.255:9", None, None), own));
    assert!(!f.matches(&packet("10.0.0.1:1", "10.0.0.255:9", None, None), None));
    // The frame decides, not the address's shape: a broadcast-looking address on a unicast frame is
    // unicast, a unicast-looking one on the all-ones MAC is a broadcast of a subnet the sender knows.
    assert!(!f.matches(&packet("10.0.0.1:1", "10.0.0.255:9", unicast, None), own));
    assert!(f.matches(&packet("10.0.0.1:1", "10.0.0.2:9", all_ones, None), own));
    assert!(!f.matches(&packet("10.0.0.1:1", "224.0.0.251:9", None, None), own));
    // A group on the all-ones MAC is still a group: the group handler's, not this one's.
    assert!(!f.matches(&packet("10.0.0.1:1", "224.0.0.251:9", all_ones, None), own));
    assert!(!f.matches(&packet("[fe80::1]:1", "[ff02::1]:9", all_ones, None), own));
}

#[test]
fn filter_dst_ip_set_matches_any_group() {
    // One handler spanning the v4 and v6 mDNS groups: either destination matches.
    let f = Filter {
        dst_ip: Some(FilterSet::of(vec![ip("224.0.0.251"), ip("ff02::fb")])),
        dst_port: Some(FilterSet::one(5353)),
        ..Filter::default()
    };
    assert!(f.matches(
        &packet("10.0.0.1:5353", "224.0.0.251:5353", None, None),
        None
    ));
    assert!(f.matches(
        &packet("[fe80::1]:5353", "[ff02::fb]:5353", None, None),
        None
    ));
    // A group outside the set, and a member on the wrong port, each miss.
    assert!(!f.matches(
        &packet("10.0.0.1:5353", "239.255.255.250:5353", None, None),
        None
    ));
    assert!(!f.matches(
        &packet("10.0.0.1:5353", "224.0.0.251:1900", None, None),
        None
    ));
}

#[test]
fn filter_dst_port_set_matches_any_port() {
    // One handler spanning WoL ports 7 and 9: either destination port matches.
    let f = Filter {
        dst_port: Some(FilterSet::of(vec![7u16, 9])),
        ..Filter::default()
    };
    assert!(f.matches(&packet("10.0.0.1:1", "255.255.255.255:7", None, None), None));
    assert!(f.matches(&packet("10.0.0.1:1", "255.255.255.255:9", None, None), None));
    // A port outside the set misses.
    assert!(!f.matches(&packet("10.0.0.1:1", "255.255.255.255:8", None, None), None));
}

#[test]
fn filter_matches_source_mac_and_excludes_others() {
    let device = MacAddr::from([0x02, 0, 0, 0, 0, 0x01]);
    let f = Filter {
        src_mac: Some(MacSet::try_from(vec![device]).unwrap()),
        ..Filter::default()
    };
    assert!(f.matches(
        &packet("10.0.0.1:5353", "10.0.0.2:5353", None, Some(device)),
        None
    ));
    // A different device, and a packet without MACs, both miss.
    let other = MacAddr::from([0x02, 0, 0, 0, 0, 0x02]);
    assert!(!f.matches(
        &packet("10.0.0.1:5353", "10.0.0.2:5353", None, Some(other)),
        None
    ));
    assert!(!f.matches(&packet("10.0.0.1:5353", "10.0.0.2:5353", None, None), None));
}

#[test]
fn filter_source_mac_set_matches_any_member() {
    let a = MacAddr::from([0x02, 0, 0, 0, 0, 0x01]);
    let b = MacAddr::from([0x02, 0, 0, 0, 0, 0x02]);
    let f = Filter {
        src_mac: Some(MacSet::try_from(vec![a, b]).unwrap()),
        ..Filter::default()
    };
    assert!(f.matches(
        &packet("10.0.0.1:5353", "10.0.0.2:5353", None, Some(a)),
        None
    ));
    assert!(f.matches(
        &packet("10.0.0.1:5353", "10.0.0.2:5353", None, Some(b)),
        None
    ));
    // A device outside the set misses.
    let other = MacAddr::from([0x02, 0, 0, 0, 0, 0x03]);
    assert!(!f.matches(
        &packet("10.0.0.1:5353", "10.0.0.2:5353", None, Some(other)),
        None
    ));
}

#[test]
fn filter_matches_destination_mac_and_excludes_others() {
    let device = MacAddr::from([0x02, 0, 0, 0, 0, 0x0a]);
    let f = Filter {
        dst_mac: Some(device),
        ..Filter::default()
    };
    assert!(f.matches(
        &packet("10.0.0.1:5353", "10.0.0.2:5353", Some(device), None),
        None
    ));
    let other = MacAddr::from([0x02, 0, 0, 0, 0, 0x0b]);
    assert!(!f.matches(
        &packet("10.0.0.1:5353", "10.0.0.2:5353", Some(other), None),
        None
    ));
    assert!(!f.matches(&packet("10.0.0.1:5353", "10.0.0.2:5353", None, None), None));
}

// An IP filter is family-specific: a v4 criterion can't match a v6 packet, or vice versa.
#[test]
fn filter_ip_does_not_match_across_families() {
    let v4 = Filter {
        dst_ip: Some(FilterSet::one(ip("224.0.0.251"))),
        ..Filter::default()
    };
    assert!(!v4.matches(
        &packet("[fe80::1]:5353", "[ff02::fb]:5353", None, None),
        None
    ));
    let v6 = Filter {
        dst_ip: Some(FilterSet::one(ip("ff02::fb"))),
        ..Filter::default()
    };
    assert!(!v6.matches(
        &packet("10.0.0.1:5353", "224.0.0.251:5353", None, None),
        None
    ));
}

#[test]
fn filter_matches_the_source_address_and_port() {
    let f = Filter {
        src_ip: Some(ip("10.0.0.1")),
        src_port: Some(5),
        ..Filter::default()
    };
    assert!(f.matches(&packet("10.0.0.1:5", "10.0.0.2:9", None, None), None));
    assert!(!f.matches(&packet("10.0.0.3:5", "10.0.0.2:9", None, None), None));
    assert!(!f.matches(&packet("10.0.0.1:6", "10.0.0.2:9", None, None), None));
}

#[test]
fn is_own_echo_matches_the_ingress_mac_except_all_zeros() {
    let own = MacAddr::from([0x02, 0, 0, 0, 0, 1]);
    let other = MacAddr::from([0x02, 0, 0, 0, 0, 2]);
    assert!(is_own_echo(Some(own), Some(own)));
    assert!(!is_own_echo(Some(other), Some(own)));
    // A frame without MACs; an interface without one owns nothing.
    assert!(!is_own_echo(None, Some(own)));
    assert!(!is_own_echo(Some(own), None));
    // Linux loopback: zeros on both sides identify nothing.
    let zero = MacAddr::from([0; 6]);
    assert!(!is_own_echo(Some(zero), Some(zero)));
}
