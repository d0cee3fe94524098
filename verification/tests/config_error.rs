//! What each configuration error says.

use netflector::config::conflict::Protocol;
use netflector::config::error::{
    ConfigError, ParseBoolError, ParseIntegerError, ParseValueError, RequiredField,
};
use netflector::config::value::{
    InterfaceName, LogLevel, ParseAddressFamilyError, ParseInterfaceNameError,
    ParseReflectorNameError, Port, ReflectorName,
};
use netflector::net::ip::parse_ip;
use netflector::net::mac::parse_mac;
use netflector::unique_list::ListError;

fn name(text: &str) -> ReflectorName {
    text.parse().unwrap()
}

fn iface(text: &str) -> InterfaceName {
    text.parse().unwrap()
}

#[test]
fn a_document_or_file_error_says_what_went_wrong() {
    assert_eq!(
        ConfigError::Parse {
            message: "expected `=`".to_string()
        }
        .text(),
        "invalid configuration: expected `=`"
    );
    assert_eq!(
        ConfigError::ReadFile {
            path: "/etc/netflector.toml".to_string(),
            message: "permission denied".to_string()
        }
        .text(),
        "cannot read config file \"/etc/netflector.toml\": permission denied"
    );
    assert_eq!(
        ConfigError::NoReflectors.text(),
        "must define at least one reflector"
    );
    assert_eq!(
        ConfigError::IntervalTooLarge {
            field: "counters_interval_secs",
            secs: 90000,
            max: 86400
        }
        .text(),
        "counters_interval_secs = 90000 is too large; the maximum is 86400 seconds"
    );
}

#[test]
fn a_reflector_error_names_the_reflector() {
    assert_eq!(
        ConfigError::EmptyReflectorName {
            key: "  ".to_string()
        }
        .text(),
        "reflector name \"  \" is empty or whitespace-only"
    );
    assert_eq!(
        ConfigError::SameInterface {
            name: name("tv"),
            value: iface("lan")
        }
        .text(),
        "reflector \"tv\" source_if and target_if must differ (both are \"lan\")"
    );
    assert_eq!(
        ConfigError::NoProtocol { name: name("tv") }.text(),
        "reflector \"tv\" enables no protocol (set wol, mdns, ssdp, wsd, or udp_ports)"
    );
    assert_eq!(
        ConfigError::UdpRelayWithoutPorts { name: name("tv") }.text(),
        "reflector \"tv\" sets udp_groups or udp_broadcast but not udp_ports"
    );
    assert_eq!(
        ConfigError::UdpRelayNoDestination { name: name("tv") }.text(),
        "reflector \"tv\" sets udp_ports but neither udp_groups nor udp_broadcast"
    );
    assert_eq!(
        ConfigError::UdpGroupFamily {
            name: name("tv"),
            group: parse_ip(b"ff02::fb").unwrap()
        }
        .text(),
        "reflector \"tv\" lists UDP group ff02::fb, whose family its address_family does not use"
    );
    assert_eq!(
        ConfigError::PeerFamily {
            name: name("tv"),
            peer: parse_ip(b"10.0.0.9").unwrap()
        }
        .text(),
        "reflector \"tv\" lists peer 10.0.0.9, whose family its address_family does not use"
    );
    assert_eq!(
        ConfigError::UdpBroadcastFamily { name: name("tv") }.text(),
        "reflector \"tv\" sets udp_broadcast but its address_family has no IPv4"
    );
    assert_eq!(
        ConfigError::UdpRelayDuplicates {
            name: name("tv"),
            port: 5353,
            protocol: Protocol::Mdns
        }
        .text(),
        "reflector \"tv\" would relay mDNS on port 5353 twice, through udp_ports as well"
    );
    assert_eq!(
        ConfigError::WolPortsWithoutWol { name: name("tv") }.text(),
        "reflector \"tv\" sets wol_ports but does not enable wol"
    );
    assert_eq!(
        ConfigError::MacsUnused { name: name("tv") }.text(),
        "reflector \"tv\" lists macs but enables only the UDP relay, which does not apply them"
    );
    assert_eq!(
        ConfigError::DialWithoutSsdp { name: name("tv") }.text(),
        "reflector \"tv\" sets dial but does not enable ssdp"
    );
    assert_eq!(
        ConfigError::MdnsAnswersToPeers {
            name: name("tv"),
            param: "source_peers"
        }
        .text(),
        "reflector \"tv\" enables mdns with source_peers, but a client takes a unicast mDNS answer \
         only to a question it asked with the unicast-response bit"
    );
    assert_eq!(
        ConfigError::DialRequiresIpv4 { name: name("tv") }.text(),
        "reflector \"tv\" enables dial but the address family has no IPv4 (DIAL is IPv4-only)"
    );
    assert_eq!(
        ConfigError::DuplicateReflector {
            name: "TV".to_string()
        }
        .text(),
        "reflector \"TV\" is defined in both the configuration file and the environment"
    );
    assert_eq!(
        ConfigError::DuplicateReflectorName { name: name("tv") }.text(),
        "reflector name \"tv\" is used by more than one reflector (names are compared \
         case-insensitively and trimmed)"
    );
    assert_eq!(
        ConfigError::ConflictingReflectors {
            protocol: Protocol::Ssdp,
            first: name("a"),
            second: name("b"),
            source_if: iface("lan"),
            target_if: iface("iot")
        }
        .text(),
        "reflectors \"a\" and \"b\" both reflect SSDP on lan -> iot with overlapping MAC selection \
         and address family"
    );
}

#[test]
fn an_environment_error_names_the_variable() {
    let var = "NETFLECTOR_TV_MDNS".to_string();
    assert_eq!(
        ConfigError::EnvMalformedVar {
            var: "NETFLECTOR_TV".to_string()
        }
        .text(),
        "environment variable \"NETFLECTOR_TV\" is malformed (expected NETFLECTOR_<tag>_<param>)"
    );
    assert_eq!(
        ConfigError::EnvInvalidTag {
            var: var.clone(),
            tag: "-".to_string()
        }
        .text(),
        "environment variable \"NETFLECTOR_TV_MDNS\" has invalid tag \"-\" (tags must be non-empty \
         and alphanumeric)"
    );
    assert_eq!(
        ConfigError::EnvReservedTag { var: var.clone() }.text(),
        "environment variable \"NETFLECTOR_TV_MDNS\" uses a reserved tag (log, debug, and counters \
         are globals)"
    );
    assert_eq!(
        ConfigError::EnvUnknownParam {
            var: var.clone(),
            param: "colour".to_string()
        }
        .text(),
        "environment variable \"NETFLECTOR_TV_MDNS\" sets unknown parameter \"colour\""
    );
    assert_eq!(
        ConfigError::EnvDuplicateParam {
            var: var.clone(),
            param: "mdns".to_string()
        }
        .text(),
        "environment variable \"NETFLECTOR_TV_MDNS\" sets \"mdns\", which another variable already \
         set (names are case-insensitive)"
    );
    assert_eq!(
        ConfigError::EnvBadValue {
            var,
            value: "maybe".to_string(),
            source: ParseValueError::Bool(ParseBoolError)
        }
        .text(),
        "environment variable \"NETFLECTOR_TV_MDNS\" has invalid value \"maybe\": expected true, \
         false, 1, or 0"
    );
    assert_eq!(
        ConfigError::EnvMissingField {
            name: "tv".to_string(),
            field: RequiredField::SourceIf
        }
        .text(),
        "reflector \"tv\" (from the environment) has no source_if"
    );
    assert_eq!(RequiredField::TargetIf.as_str(), "target_if");
}

#[test]
fn a_value_error_says_what_was_expected() {
    let level = "loud".parse::<LogLevel>().unwrap_err();
    assert_eq!(
        ParseValueError::LogLevel(level).to_text(),
        "expected one of: off, error, warn, info, debug, trace"
    );
    assert_eq!(
        ParseValueError::AddressFamily(ParseAddressFamilyError).to_text(),
        "expected one of: default, dual, ipv4, ipv6"
    );
    assert_eq!(
        ParseValueError::Interface(ParseInterfaceNameError).to_text(),
        "interface name must not be empty or contain whitespace"
    );
    assert_eq!(
        ParseValueError::ReflectorName(ParseReflectorNameError).to_text(),
        "reflector name must not be empty or whitespace-only"
    );
    assert_eq!(
        ParseValueError::Integer(ParseIntegerError::Empty).to_text(),
        "cannot parse integer from empty string"
    );
    assert_eq!(
        ParseValueError::Integer(ParseIntegerError::InvalidDigit).to_text(),
        "x".parse::<u64>().unwrap_err().to_string()
    );
    assert_eq!(
        ParseValueError::Integer(ParseIntegerError::TooLarge).to_text(),
        "99999999999999999999".parse::<u64>().unwrap_err().to_string()
    );
    assert_eq!(
        ParseValueError::Ports(ListError::Duplicate {
            noun: "port".to_string(),
            item: Port::new(9).unwrap()
        })
        .to_text(),
        "duplicate port 9"
    );
    assert_eq!(
        ParseValueError::Macs(ListError::Duplicate {
            noun: "MAC address".to_string(),
            item: parse_mac(b"02:00:00:00:00:01").unwrap()
        })
        .to_text(),
        "duplicate MAC address 02:00:00:00:00:01"
    );
    assert_eq!(
        ParseValueError::Addresses(ListError::Refused {
            noun: "peer address".to_string(),
            item: parse_ip(b"224.0.0.1").unwrap(),
            reason: "is not unicast".to_string()
        })
        .to_text(),
        "peer address 224.0.0.1 is not unicast"
    );
}
