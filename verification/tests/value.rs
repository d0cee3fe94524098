//! The values of a configuration, read from text.

use netflector::config::value::{
    AddressFamily as F, GroupList, InterfaceName, LogLevel, ParseAddressFamilyError,
    ParseInterfaceNameError, ParseLogLevelError, ParseReflectorNameError, PeerList, Port, PortList,
    ReflectorName,
};
use netflector::net::ip::{parse_ip, IpAddr};
use netflector::unique_list::ListError;

fn ip(text: &str) -> IpAddr {
    parse_ip(text.as_bytes()).unwrap()
}

fn ip_text(ip: &IpAddr) -> String {
    let mut out: Vec<char> = Vec::new();
    ip.push_text(&mut out);
    out.into_iter().collect()
}

#[test]
fn peer_list_takes_unicast_addresses_only() {
    let peers: PeerList = "10.10.10.2, fd00::2".parse().unwrap();
    assert_eq!(peers.len(), 2);
    for bad in [
        "239.255.90.90",
        "255.255.255.255",
        "0.0.0.0",
        "ff02::1",
        "::",
    ] {
        assert!(matches!(
            bad.parse::<PeerList>(),
            Err(ListError::Refused { .. })
        ));
    }
    assert!(matches!(
        "10.10.10.2,10.10.10.2".parse::<PeerList>(),
        Err(ListError::Duplicate { .. })
    ));
    assert!(matches!(
        "".parse::<PeerList>(),
        Err(ListError::Invalid { .. })
    ));
    assert!(matches!(
        PeerList::try_from(Vec::new()),
        Err(ListError::Empty { .. })
    ));
}

#[test]
fn address_family_uses_and_requires() {
    // Uses: which families the reflector handles. Default and Dual handle both.
    assert_eq!(
        (F::Default.uses_ipv4(), F::Default.uses_ipv6()),
        (true, true)
    );
    assert_eq!((F::Dual.uses_ipv4(), F::Dual.uses_ipv6()), (true, true));
    assert_eq!((F::Ipv4.uses_ipv4(), F::Ipv4.uses_ipv6()), (true, false));
    assert_eq!((F::Ipv6.uses_ipv4(), F::Ipv6.uses_ipv6()), (false, true));
    // Requires: which must be present at startup. Default requires v4 only (v6 best-effort).
    assert_eq!(
        (F::Default.requires_ipv4(), F::Default.requires_ipv6()),
        (true, false)
    );
    assert_eq!(
        (F::Dual.requires_ipv4(), F::Dual.requires_ipv6()),
        (true, true)
    );
    assert_eq!(
        (F::Ipv4.requires_ipv4(), F::Ipv4.requires_ipv6()),
        (true, false)
    );
    assert_eq!(
        (F::Ipv6.requires_ipv4(), F::Ipv6.requires_ipv6()),
        (false, true)
    );
}

#[test]
fn log_level_parses_via_fromstr() {
    assert_eq!("off".parse::<LogLevel>().unwrap(), LogLevel::Off);
    assert_eq!("ERROR".parse::<LogLevel>().unwrap(), LogLevel::Error);
    assert_eq!("Warn".parse::<LogLevel>().unwrap(), LogLevel::Warn);
    assert_eq!("INFO".parse::<LogLevel>().unwrap(), LogLevel::Info);
    assert_eq!("debug".parse::<LogLevel>().unwrap(), LogLevel::Debug);
    assert_eq!("Trace".parse::<LogLevel>().unwrap(), LogLevel::Trace);
    assert_eq!("verbose".parse::<LogLevel>(), Err(ParseLogLevelError));
}

#[test]
fn interface_name_parses_via_fromstr() {
    assert_eq!("en0".parse::<InterfaceName>().unwrap().as_str(), "en0");
    assert_eq!("".parse::<InterfaceName>(), Err(ParseInterfaceNameError));
    // Whitespace is rejected: a padded name misses the interface and dodges SameInterface.
    assert_eq!(
        " en0 ".parse::<InterfaceName>(),
        Err(ParseInterfaceNameError)
    );
    assert_eq!(
        "e n0".parse::<InterfaceName>(),
        Err(ParseInterfaceNameError)
    );
}

#[test]
fn reflector_name_parses_via_fromstr() {
    assert_eq!("  tv  ".parse::<ReflectorName>().unwrap().as_str(), "tv");
    // Canonicalized to lowercase, so casing is not part of the identity.
    assert_eq!("TV".parse::<ReflectorName>().unwrap().as_str(), "tv");
    assert_eq!("".parse::<ReflectorName>(), Err(ParseReflectorNameError));
    assert_eq!("   ".parse::<ReflectorName>(), Err(ParseReflectorNameError));
}

#[test]
fn port_list_parses_via_fromstr() {
    let ports = "7, 9, 4000".parse::<PortList>().unwrap();
    assert_eq!(
        ports.items.iter().map(|p| p.get()).collect::<Vec<_>>(),
        [7, 9, 4000]
    );
    assert!(matches!(
        "7,7".parse::<PortList>(),
        Err(ListError::Duplicate { item, .. }) if item.get() == 7
    ));
    assert!(matches!(
        "0".parse::<PortList>(),
        Err(ListError::Invalid { .. })
    ));
    assert!(matches!(
        "abc".parse::<PortList>(),
        Err(ListError::Invalid { .. })
    ));
}

#[test]
fn group_list_parses_multicast_groups_only() {
    let groups = "239.255.90.90, ff12::8384".parse::<GroupList>().unwrap();
    assert_eq!(
        groups.items.iter().map(ip_text).collect::<Vec<_>>(),
        ["239.255.90.90", "ff12::8384"]
    );
    let unicast: IpAddr = ip("192.0.2.1");
    assert!(matches!(
        "192.0.2.1".parse::<GroupList>(),
        Err(ListError::Refused { item, .. }) if item == unicast
    ));
    let group: IpAddr = ip("239.255.90.90");
    assert!(matches!(
        "239.255.90.90,239.255.90.90".parse::<GroupList>(),
        Err(ListError::Duplicate { item, .. }) if item == group
    ));
    assert!(matches!(
        "roon".parse::<GroupList>(),
        Err(ListError::Invalid { .. })
    ));
    assert!(matches!(
        GroupList::try_from(Vec::<IpAddr>::new()),
        Err(ListError::Empty { .. })
    ));
}

#[test]
fn address_family_parses_via_fromstr() {
    assert_eq!("default".parse::<F>().unwrap(), F::Default);
    assert_eq!("DUAL".parse::<F>().unwrap(), F::Dual);
    assert_eq!("ipv4".parse::<F>().unwrap(), F::Ipv4);
    assert_eq!("IPv6".parse::<F>().unwrap(), F::Ipv6);
    assert_eq!("both".parse::<F>(), Err(ParseAddressFamilyError));
}

#[test]
fn port_list_rejects_an_empty_list() {
    // FromStr can't yield an empty list, so Empty is reachable only via the TryFrom path.
    assert!(matches!(
        PortList::try_from(Vec::<Port>::new()),
        Err(ListError::Empty { .. })
    ));
}

#[test]
fn a_canonical_name_is_its_own_canonical_form() {
    let once = "  Living Room TV ".parse::<ReflectorName>().unwrap();
    let twice = once.as_str().parse::<ReflectorName>().unwrap();
    assert_eq!(once.as_str(), "living room tv");
    assert_eq!(twice.as_str(), once.as_str());
}
