//! The classes of address.

use netflector::net::ip::{parse_ip, IpAddr};
use netflector::net::{is_link_local, is_never_a_peer};

fn ip(text: &str) -> IpAddr {
    parse_ip(text.as_bytes()).unwrap()
}

#[test]
fn link_local_covers_both_families_and_nothing_routable() {
    assert!(is_link_local(ip("169.254.7.9")));
    assert!(is_link_local(ip("fe80::1")));
    assert!(!is_link_local(ip("192.168.1.1")));
    assert!(!is_link_local(ip("2001:db8::1")));
    // A v4-mapped address is judged by its IPv4 rules.
    assert!(is_link_local(ip("::ffff:169.254.7.9")));
    assert!(!is_link_local(ip("::ffff:192.168.1.1")));
    // Adjacent special ranges don't leak in: loopback and unique-local are not link-local.
    assert!(!is_link_local(ip("127.0.0.1")));
    assert!(!is_link_local(ip("fd00::1")));
}

#[test]
fn never_a_peer_covers_the_non_host_classes_and_nothing_else() {
    assert!(is_never_a_peer(ip("127.0.0.1")));
    assert!(is_never_a_peer(ip("0.0.0.0")));
    assert!(is_never_a_peer(ip("239.255.255.250")));
    assert!(is_never_a_peer(ip("255.255.255.255")));
    assert!(is_never_a_peer(ip("::1")));
    assert!(is_never_a_peer(ip("::")));
    assert!(is_never_a_peer(ip("ff02::c")));
    // A v4-mapped address is judged by its IPv4 rules.
    assert!(is_never_a_peer(ip("::ffff:127.0.0.1")));
    assert!(!is_never_a_peer(ip("::ffff:192.168.1.1")));
    // Host addresses stay peers, link-local and a maskless directed broadcast included.
    assert!(!is_never_a_peer(ip("192.168.1.1")));
    assert!(!is_never_a_peer(ip("169.254.7.9")));
    assert!(!is_never_a_peer(ip("fe80::1")));
    assert!(!is_never_a_peer(ip("192.168.1.255")));
}
