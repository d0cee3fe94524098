//! The kinds of mDNS message, and which advertise nothing that can be reached.

use netflector::net::mdns::{
    advertises_only_link_local, classify, skip_name, MdnsKind, DNS_HEADER_LEN, FLAGS_HIGH, TYPE_A,
    TYPE_AAAA,
};

const QR_BIT: u8 = 0x80;

const ANCOUNT_AT: usize = 6;

/// 12-byte header with `flags_high` at offset 2, plus `tail`.
fn message(flags_high: u8, tail: &[u8]) -> Vec<u8> {
    let mut m = vec![0u8; DNS_HEADER_LEN];
    m[FLAGS_HIGH] = flags_high;
    m.extend_from_slice(tail);
    m
}

#[test]
fn classifies_by_the_qr_bit_only() {
    assert_eq!(classify(&message(0x00, b"")), Some(MdnsKind::Query)); // QR=0
    assert_eq!(classify(&message(0x84, b"q")), Some(MdnsKind::Response)); // QR=1, AA
    // Only the QR bit is read; the other flag bits don't change the verdict.
    assert_eq!(classify(&message(0x7f, b"")), Some(MdnsKind::Query));
    assert_eq!(classify(&message(0xff, b"")), Some(MdnsKind::Response));
}

#[test]
fn rejects_a_payload_too_short_for_a_dns_header() {
    assert_eq!(classify(b""), None);
    assert_eq!(classify(&[0u8; DNS_HEADER_LEN - 1]), None);
    // Exactly the header length suffices (an all-zero header is a query).
    assert_eq!(classify(&[0u8; DNS_HEADER_LEN]), Some(MdnsKind::Query));
}

// --- Real on-the-wire packets, verbatim from captures ---

/// Real mDNS reverse-PTR query for a link-local IPv6 address (Wireshark `test/captures/
/// dns-mdns.pcap`, frame 22). QR=0.
const MDNS_QUERY_PTR_LINKLOCAL: [u8; 90] = [
    0x5f, 0x1d, 0x00, 0x00, 0x00, 0x01, 0x00, 0x00, 0x00, 0x00, 0x00, 0x00, 0x01, 0x35, 0x01,
    0x65, 0x01, 0x63, 0x01, 0x31, 0x01, 0x34, 0x01, 0x39, 0x01, 0x65, 0x01, 0x66, 0x01, 0x66,
    0x01, 0x66, 0x01, 0x61, 0x01, 0x64, 0x01, 0x39, 0x01, 0x30, 0x01, 0x32, 0x01, 0x62, 0x01,
    0x30, 0x01, 0x30, 0x01, 0x30, 0x01, 0x30, 0x01, 0x30, 0x01, 0x30, 0x01, 0x30, 0x01, 0x30,
    0x01, 0x30, 0x01, 0x30, 0x01, 0x30, 0x01, 0x30, 0x01, 0x30, 0x01, 0x38, 0x01, 0x65, 0x01,
    0x66, 0x03, 0x69, 0x70, 0x36, 0x04, 0x61, 0x72, 0x70, 0x61, 0x00, 0x00, 0x0c, 0x00, 0x01,
];

/// Real Apple/Bonjour mDNS response advertising `_smb._tcp` + `_afpovertcp._tcp` for host
/// "Gourmandise" (scapy `test/scapy/layers/dns.uts`, stored as the bare DNS message). QR=1.
const MDNS_RESPONSE_BONJOUR: [u8; 249] = [
    0x00, 0x00, 0x84, 0x00, 0x00, 0x00, 0x00, 0x02, 0x00, 0x00, 0x00, 0x06, 0x0b, 0x47, 0x6f,
    0x75, 0x72, 0x6d, 0x61, 0x6e, 0x64, 0x69, 0x73, 0x65, 0x04, 0x5f, 0x73, 0x6d, 0x62, 0x04,
    0x5f, 0x74, 0x63, 0x70, 0x05, 0x6c, 0x6f, 0x63, 0x61, 0x6c, 0x00, 0x00, 0x21, 0x80, 0x01,
    0x00, 0x00, 0x00, 0x78, 0x00, 0x14, 0x00, 0x00, 0x00, 0x00, 0x01, 0xbd, 0x0b, 0x47, 0x6f,
    0x75, 0x72, 0x6d, 0x61, 0x6e, 0x64, 0x69, 0x73, 0x65, 0xc0, 0x22, 0x0b, 0x47, 0x6f, 0x75,
    0x72, 0x6d, 0x61, 0x6e, 0x64, 0x69, 0x73, 0x65, 0x0b, 0x5f, 0x61, 0x66, 0x70, 0x6f, 0x76,
    0x65, 0x72, 0x74, 0x63, 0x70, 0xc0, 0x1d, 0x00, 0x21, 0x80, 0x01, 0x00, 0x00, 0x00, 0x78,
    0x00, 0x08, 0x00, 0x00, 0x00, 0x00, 0x02, 0x24, 0xc0, 0x39, 0xc0, 0x39, 0x00, 0x1c, 0x80,
    0x01, 0x00, 0x00, 0x00, 0x78, 0x00, 0x10, 0xfe, 0x80, 0x00, 0x00, 0x00, 0x00, 0x00, 0x00,
    0x00, 0x73, 0x23, 0x99, 0xca, 0xf7, 0xea, 0xdc, 0xc0, 0x39, 0x00, 0x01, 0x80, 0x01, 0x00,
    0x00, 0x00, 0x78, 0x00, 0x04, 0xc0, 0xa8, 0x01, 0x78, 0xc0, 0x39, 0x00, 0x1c, 0x80, 0x01,
    0x00, 0x00, 0x00, 0x78, 0x00, 0x10, 0x2a, 0x01, 0xcb, 0x00, 0x0b, 0x44, 0x1f, 0x00, 0x18,
    0x6b, 0xb1, 0x99, 0x90, 0xdf, 0x84, 0x2e, 0xc0, 0x0c, 0x00, 0x2f, 0x80, 0x01, 0x00, 0x00,
    0x00, 0x78, 0x00, 0x09, 0xc0, 0x0c, 0x00, 0x05, 0x00, 0x00, 0x80, 0x00, 0x40, 0xc0, 0x47,
    0x00, 0x2f, 0x80, 0x01, 0x00, 0x00, 0x00, 0x78, 0x00, 0x09, 0xc0, 0x47, 0x00, 0x05, 0x00,
    0x00, 0x80, 0x00, 0x40, 0xc0, 0x39, 0x00, 0x2f, 0x80, 0x01, 0x00, 0x00, 0x00, 0x78, 0x00,
    0x08, 0xc0, 0x39, 0x00, 0x04, 0x40, 0x00, 0x00, 0x08,
];

/// Real AirPlay/RAOP mDNS response for `_raop._tcp.local` "Freebox Server" (scapy
/// `test/scapy/layers/dns.uts`, the Ethernet/IPv4/UDP frame prefix stripped to the UDP
/// payload). QR=1.
const MDNS_RESPONSE_RAOP: [u8; 295] = [
    0x00, 0x00, 0x84, 0x00, 0x00, 0x00, 0x00, 0x04, 0x00, 0x00, 0x00, 0x00, 0x05, 0x5f, 0x72,
    0x61, 0x6f, 0x70, 0x04, 0x5f, 0x74, 0x63, 0x70, 0x05, 0x6c, 0x6f, 0x63, 0x61, 0x6c, 0x00,
    0x00, 0x0c, 0x00, 0x01, 0x00, 0x00, 0x11, 0x94, 0x00, 0x1e, 0x1b, 0x31, 0x34, 0x30, 0x43,
    0x37, 0x36, 0x38, 0x46, 0x46, 0x45, 0x32, 0x38, 0x40, 0x46, 0x72, 0x65, 0x65, 0x62, 0x6f,
    0x78, 0x20, 0x53, 0x65, 0x72, 0x76, 0x65, 0x72, 0xc0, 0x0c, 0xc0, 0x28, 0x00, 0x10, 0x80,
    0x01, 0x00, 0x00, 0x11, 0x94, 0x00, 0xa0, 0x09, 0x74, 0x78, 0x74, 0x76, 0x65, 0x72, 0x73,
    0x3d, 0x31, 0x08, 0x76, 0x73, 0x3d, 0x31, 0x39, 0x30, 0x2e, 0x39, 0x04, 0x63, 0x68, 0x3d,
    0x32, 0x08, 0x73, 0x72, 0x3d, 0x34, 0x34, 0x31, 0x30, 0x30, 0x05, 0x73, 0x73, 0x3d, 0x31,
    0x36, 0x08, 0x70, 0x77, 0x3d, 0x66, 0x61, 0x6c, 0x73, 0x65, 0x06, 0x65, 0x74, 0x3d, 0x30,
    0x2c, 0x31, 0x04, 0x65, 0x6b, 0x3d, 0x31, 0x0a, 0x74, 0x70, 0x3d, 0x54, 0x43, 0x50, 0x2c,
    0x55, 0x44, 0x50, 0x13, 0x61, 0x6d, 0x3d, 0x46, 0x72, 0x65, 0x65, 0x62, 0x6f, 0x78, 0x53,
    0x65, 0x72, 0x76, 0x65, 0x72, 0x31, 0x2c, 0x32, 0x0a, 0x63, 0x6e, 0x3d, 0x30, 0x2c, 0x31,
    0x2c, 0x32, 0x2c, 0x33, 0x06, 0x6d, 0x64, 0x3d, 0x30, 0x2c, 0x32, 0x07, 0x73, 0x66, 0x3d,
    0x30, 0x78, 0x34, 0x34, 0x0b, 0x66, 0x74, 0x3d, 0x30, 0x78, 0x42, 0x46, 0x30, 0x41, 0x30,
    0x30, 0x08, 0x73, 0x76, 0x3d, 0x66, 0x61, 0x6c, 0x73, 0x65, 0x07, 0x64, 0x61, 0x3d, 0x74,
    0x72, 0x75, 0x65, 0x08, 0x76, 0x6e, 0x3d, 0x36, 0x35, 0x35, 0x33, 0x37, 0x04, 0x76, 0x76,
    0x3d, 0x32, 0xc0, 0x28, 0x00, 0x21, 0x80, 0x01, 0x00, 0x00, 0x00, 0x78, 0x00, 0x19, 0x00,
    0x00, 0x00, 0x00, 0x13, 0x88, 0x10, 0x46, 0x72, 0x65, 0x65, 0x62, 0x6f, 0x78, 0x2d, 0x53,
    0x65, 0x72, 0x76, 0x65, 0x72, 0x2d, 0x33, 0xc0, 0x17, 0xc1, 0x04, 0x00, 0x01, 0x80, 0x01,
    0x00, 0x00, 0x00, 0x78, 0x00, 0x04, 0xc0, 0xa8, 0x00, 0xfe,
];

#[test]
fn classifies_real_on_the_wire_packets() {
    // classify reads only the QR bit of the header: queries carry QR=0, responses QR=1.
    assert_eq!(classify(&MDNS_QUERY_PTR_LINKLOCAL), Some(MdnsKind::Query));
    assert_eq!(classify(&MDNS_RESPONSE_BONJOUR), Some(MdnsKind::Response));
    assert_eq!(classify(&MDNS_RESPONSE_RAOP), Some(MdnsKind::Response));
}

/// A response whose answer section holds `records`, each `(rtype, rdata)` under the name `x.`,
/// IN class, TTL 120.
fn response_with_records(records: &[(u16, &[u8])]) -> Vec<u8> {
    let mut m = vec![0u8; DNS_HEADER_LEN];
    m[FLAGS_HIGH] = QR_BIT;
    m[ANCOUNT_AT + 1] =
        u8::try_from(records.len()).expect("test record count fits ANCOUNT's low byte");
    for (rtype, rdata) in records {
        m.extend_from_slice(&[0x01, b'x', 0x00]);
        m.extend_from_slice(&rtype.to_be_bytes());
        m.extend_from_slice(&[0x00, 0x01]);
        m.extend_from_slice(&[0, 0, 0, 120]);
        m.extend_from_slice(&u16::try_from(rdata.len()).unwrap().to_be_bytes());
        m.extend_from_slice(rdata);
    }
    m
}

const A_LINK_LOCAL: (u16, &[u8]) = (TYPE_A, &[169, 254, 1, 2]);
const A_ROUTABLE: (u16, &[u8]) = (TYPE_A, &[192, 168, 1, 9]);
const AAAA_LINK_LOCAL: (u16, &[u8]) = (
    TYPE_AAAA,
    &[0xfe, 0x80, 0, 0, 0, 0, 0, 0, 0, 0, 0, 0, 0, 0, 0, 1],
);
const AAAA_ROUTABLE: (u16, &[u8]) = (
    TYPE_AAAA,
    &[0x20, 0x01, 0x0d, 0xb8, 0, 0, 0, 0, 0, 0, 0, 0, 0, 0, 0, 1],
);
const TXT: (u16, &[u8]) = (16, b"vers=1");

#[test]
fn suppresses_only_when_every_address_is_link_local() {
    assert!(advertises_only_link_local(&response_with_records(&[
        A_LINK_LOCAL
    ])));
    assert!(advertises_only_link_local(&response_with_records(&[
        AAAA_LINK_LOCAL
    ])));
    assert!(advertises_only_link_local(&response_with_records(&[
        A_LINK_LOCAL,
        AAAA_LINK_LOCAL
    ])));
    // One routable address of either family rescues the message: the client can use it.
    assert!(!advertises_only_link_local(&response_with_records(&[
        A_LINK_LOCAL,
        A_ROUTABLE
    ])));
    assert!(!advertises_only_link_local(&response_with_records(&[
        AAAA_LINK_LOCAL,
        AAAA_ROUTABLE
    ])));
    // Other record types don't veto: a bundled advertisement (PTR/SRV/TXT beside the
    // addresses) whose only addresses are link-local is exactly the dead-service case.
    assert!(advertises_only_link_local(&response_with_records(&[
        TXT,
        A_LINK_LOCAL
    ])));
    // No address records at all is not an advertisement of dead endpoints.
    assert!(!advertises_only_link_local(&response_with_records(&[TXT])));
    assert!(!advertises_only_link_local(&response_with_records(&[])));
}

#[test]
fn suppression_skips_names_with_compression_pointers() {
    // Second record's name is a pointer to the first's (offset 12): the walker must step the
    // 2-byte pointer, not chase it.
    let mut m = response_with_records(&[A_LINK_LOCAL]);
    m[ANCOUNT_AT + 1] = 2;
    m.extend_from_slice(&[0xc0, 0x0c]);
    m.extend_from_slice(&TYPE_A.to_be_bytes());
    m.extend_from_slice(&[0x00, 0x01, 0, 0, 0, 120, 0x00, 0x04, 169, 254, 3, 4]);
    assert!(advertises_only_link_local(&m));
}

#[test]
fn a_malformed_message_is_never_suppressed() {
    // Truncated rdata: the record claims 4 bytes and the payload ends.
    let mut m = response_with_records(&[A_LINK_LOCAL]);
    m.truncate(m.len() - 2);
    assert!(!advertises_only_link_local(&m));
    // An undefined label type (0x40) aborts the walk.
    let mut m = response_with_records(&[A_LINK_LOCAL]);
    m[DNS_HEADER_LEN] = 0x40;
    assert!(!advertises_only_link_local(&m));
    assert!(!advertises_only_link_local(b""));
}

#[test]
fn real_responses_with_a_routable_address_are_not_suppressed() {
    // Bonjour: fe80:: AAAA + routable A + global AAAA (mixed); RAOP: one routable A.
    assert!(!advertises_only_link_local(&MDNS_RESPONSE_BONJOUR));
    assert!(!advertises_only_link_local(&MDNS_RESPONSE_RAOP));
    // The reverse-PTR query carries no address records.
    assert!(!advertises_only_link_local(&MDNS_QUERY_PTR_LINKLOCAL));
}

#[test]
fn a_name_ends_at_its_root_label_or_pointer() {
    assert_eq!(skip_name(&[1, b'x', 0, 9]), Some(3));
    assert_eq!(skip_name(&[1, b'x', 0xc0, 0x0c, 9]), Some(4));
    assert_eq!(skip_name(&[0xc0]), None);
    assert_eq!(skip_name(&[5, b'x']), None);
    assert_eq!(skip_name(&[0x40]), None);
}
