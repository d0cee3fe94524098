//! Authorities and hosts of URLs.

use netflector::net::http::{
    cut, find_header, header_value, parse_authority, strip_prefix_ignore_ascii_case, url_host_ip,
};
use netflector::net::ip::{parse_ip, parse_ipv4, IpAddr, SocketAddrV4};

fn v4(text: &str) -> SocketAddrV4 {
    let (host, port) = text.split_once(':').unwrap();
    SocketAddrV4::new(parse_ipv4(host.as_bytes()).unwrap(), port.parse().unwrap())
}

fn ip(text: &str) -> IpAddr {
    parse_ip(text.as_bytes()).unwrap()
}

#[test]
fn parses_an_http_url_authority() {
    let a = parse_authority(b"http://10.0.0.7/dd.xml", false).unwrap();
    assert_eq!(a.endpoint, v4("10.0.0.7:80"));
    assert_eq!(
        &b"http://10.0.0.7/dd.xml"[a.offset..a.offset + a.len],
        b"10.0.0.7"
    );
    let a = parse_authority(b"http://192.168.1.50:8080/x", false).unwrap();
    assert_eq!(a.endpoint, v4("192.168.1.50:8080"));
}

#[test]
fn authority_terminates_at_space_or_cr() {
    let a = parse_authority(b"http://10.0.0.7:8080 HTTP/1.1", false).unwrap();
    assert_eq!(a.endpoint, v4("10.0.0.7:8080"));
    assert_eq!(a.len, "10.0.0.7:8080".len());
    assert_eq!(
        parse_authority(b"http://10.0.0.7\r", false)
            .unwrap()
            .endpoint,
        v4("10.0.0.7:80")
    );
}

#[test]
fn authority_terminates_at_query_or_fragment() {
    // A pathless URL with a query or fragment: the authority ends at '?'/'#' (RFC 3986), so the
    // host:port is still parsed and rewritten instead of poisoning the port parse.
    let a = parse_authority(b"http://10.0.0.7:8008?token=x", false).unwrap();
    assert_eq!(a.endpoint, v4("10.0.0.7:8008"));
    assert_eq!(a.len, "10.0.0.7:8008".len());
    let a = parse_authority(b"http://10.0.0.7#frag", false).unwrap();
    assert_eq!(a.endpoint, v4("10.0.0.7:80"));
    assert_eq!(a.len, "10.0.0.7".len());
}

#[test]
fn url_host_ip_reads_both_schemes_and_families() {
    assert_eq!(
        url_host_ip(b"http://169.254.1.2:8080/desc.xml"),
        Some(ip("169.254.1.2"))
    );
    assert_eq!(
        url_host_ip(b"https://192.168.0.2:5357/x"),
        Some(ip("192.168.0.2"))
    );
    assert_eq!(
        url_host_ip(b"HTTP://10.0.0.7"),
        Some(ip("10.0.0.7"))
    );
    assert_eq!(
        url_host_ip(b"http://[fe80::1]:5357/a"),
        Some(ip("fe80::1"))
    );
}

#[test]
fn url_host_ip_terminates_at_query_or_fragment() {
    // A pathless URL with a query or fragment, as in the parse_authority case above.
    assert_eq!(
        url_host_ip(b"http://169.254.1.2?token=x"),
        Some(ip("169.254.1.2"))
    );
    assert_eq!(
        url_host_ip(b"http://10.0.0.7#frag"),
        Some(ip("10.0.0.7"))
    );
    // With a port, the port ends at the same delimiters; the host is unaffected.
    assert_eq!(
        url_host_ip(b"http://10.0.0.7:8008?token=x"),
        Some(ip("10.0.0.7"))
    );
}

#[test]
fn url_host_ip_cuts_an_ipv6_zone_before_the_parse() {
    // WSDAPI advertises zoned link-local XAddrs; both the raw and the URL-encoded percent cut.
    assert_eq!(
        url_host_ip(b"http://[fe80::1%25eth0]:5357/a"),
        Some(ip("fe80::1"))
    );
    assert_eq!(
        url_host_ip(b"http://[fe80::1%eth0]/a"),
        Some(ip("fe80::1"))
    );
}

#[test]
fn url_host_ip_rejects_hostnames_and_non_urls() {
    assert_eq!(url_host_ip(b"http://printer.local:80/x"), None);
    assert_eq!(url_host_ip(b"urn:uuid:1234"), None);
    assert_eq!(url_host_ip(b"http://"), None);
    assert_eq!(url_host_ip(b"http://[fe80::1"), None); // unclosed bracket
    assert_eq!(url_host_ip(b""), None);
}

#[test]
fn parse_authority_handles_a_bare_host_value() {
    let a = parse_authority(b"192.168.1.5:1900", true).unwrap();
    assert_eq!(a.endpoint, v4("192.168.1.5:1900"));
    assert_eq!((a.offset, a.len), (0, "192.168.1.5:1900".len()));
}

#[test]
fn rejects_non_http_non_ipv4_or_malformed_authorities() {
    assert!(parse_authority(b"https://10.0.0.1/x", false).is_none()); // not http
    assert!(parse_authority(b"http://tv.local/x", false).is_none()); // hostname, not IPv4
    assert!(parse_authority(b"http://10.0.0.1:0/x", false).is_none()); // port 0
    assert!(parse_authority(b"http://10.0.0.1:80x/x", false).is_none()); // trailing junk on port
}

#[test]
fn strip_prefix_matches_case_insensitively() {
    assert_eq!(
        strip_prefix_ignore_ascii_case(b"Host: x", b"host:"),
        Some(&b" x"[..])
    );
    assert!(strip_prefix_ignore_ascii_case(b"X", b"host:").is_none()); // shorter than the prefix
    assert!(strip_prefix_ignore_ascii_case(b"HosX: x", b"host:").is_none()); // mismatch
}

#[test]
fn a_cut_ends_before_the_first_separator() {
    assert_eq!(cut(b"a;b;c", b';'), b"a");
    assert_eq!(cut(b"abc", b';'), b"abc");
}

#[test]
fn the_first_header_of_a_name_is_found() {
    let message = b"HTTP/1.1 200 OK\r\nServer:  x\r\nserver: y\r\n\r\n";
    assert_eq!(header_value(message, b"SERVER"), Some(&b"x"[..]));
    let (from, to) = find_header(message, b"SERVER").unwrap();
    assert_eq!(&message[from..to], b"x");
    assert_eq!(header_value(message, b"DATE"), None);
}
