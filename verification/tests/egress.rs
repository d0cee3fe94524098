//! Sending a frame once per routed packet, and a datagram to each peer.

use netflector::capture::Capture;
use netflector::dispatch::egress::{
    build_parts, egress_name, oversize_context, peer_copies, Egress, PeerDelivery, SendError,
};
use netflector::dispatch::interface_table::InterfaceTable;
use netflector::dispatch::CaptureKey;
use netflector::errno::Errno;
use netflector::interface::Interface;
use netflector::net::ip::{parse_ip, IpAddr, Ipv4Addr};
use netflector::net::packet::SocketAddr;
use netflector::net::LinkType;

fn table() -> (InterfaceTable, CaptureKey) {
    let mut table = InterfaceTable::new();
    let interface = table.find_or_add_interface(Interface::open("tun0", Some(9)));
    let key = table.add_capture(Some(Capture::new(4, LinkType::RawIp, "tun0")), interface);
    (table, key)
}

fn ip(text: &str) -> IpAddr {
    parse_ip(text.as_bytes()).unwrap()
}

/// The frame that carries `payload` to `dst`, as far as telling two apart goes.
fn frame(dst: SocketAddr, payload: &[u8]) -> Vec<u8> {
    let mut bytes = format!("{dst:?}").into_bytes();
    bytes.extend_from_slice(payload);
    bytes
}

/// Fan `payload` out to the peers; the destinations whose frames went out.
fn fan_out(
    scope: &Egress,
    table: &mut InterfaceTable,
    egress: CaptureKey,
    peers: &[IpAddr],
    dst: SocketAddr,
    payload: &[u8],
) -> Vec<SocketAddr> {
    let mut delivery = PeerDelivery::new();
    let mut out = Vec::new();
    for copy in peer_copies(&peers.to_vec(), dst) {
        let bytes = frame(copy, payload);
        if scope.would_send(table, egress, &bytes) {
            out.push(copy);
        }
        delivery
            .copy(scope, table, egress, &bytes, Ok(()))
            .unwrap();
    }
    delivery.result().unwrap();
    out
}

#[test]
fn oversize_context_rewords_only_emsgsize() {
    // The reworded message is the feature: it must name the frame length, the interface, and the MTU
    // when known.
    let e = oversize_context(Errno::MessageTooLong, "vxlan0", 1500, Some(1370));
    let SendError::TooLong(text) = e else {
        panic!("EMSGSIZE must be reworded");
    };
    assert!(
        text.contains("1500") && text.contains("vxlan0") && text.contains("1370"),
        "{text}"
    );
    assert_eq!(
        text,
        "a frame of 1500 bytes exceeds what vxlan0 (MTU 1370) can carry"
    );
    // Any other error passes through untouched.
    let other = oversize_context(Errno::NetworkDown, "x0", 9, None);
    assert_eq!(other, SendError::Os(Errno::NetworkDown));
    assert_eq!(
        oversize_context(Errno::MessageTooLong, "x0", 9, None),
        SendError::TooLong("a frame of 9 bytes exceeds what x0 can carry".to_owned())
    );
}

// Peers behind a raw IP link: a group send fans out to one unicast copy per peer of the group's
// family, at the group's port, and a second relay of the same packet adds nothing.
#[test]
fn group_sends_fan_out_to_the_peers_of_a_raw_ip_link() {
    let (mut table, egress) = table();
    let peers = [
        ip("10.99.200.2"),
        ip("10.99.200.3"),
        ip("fd00:99::2"),
    ];
    let group = SocketAddr::new(ip("239.255.90.90"), 9003);
    // Two handlers relaying one routed packet: the second fan-out duplicates the first.
    let mut scope = Egress::new();
    scope.begin_packet();
    let mut delivered = Vec::new();
    for _ in 0..2 {
        delivered.extend(fan_out(&scope, &mut table, egress, &peers, group, b"sood"));
    }
    let to = |peer: &str| SocketAddr::new(ip(peer), 9003);
    assert_eq!(delivered, [to("10.99.200.2"), to("10.99.200.3")]);
}

// Two entries whose peer lists overlap relay one packet: each peer gets it once, whatever the lists'
// order or other members.
#[test]
fn overlapping_peer_lists_deliver_to_each_peer_once() {
    let (mut table, egress) = table();
    let peer = |host: u8| IpAddr::V4(Ipv4Addr::new(10, 99, 200, host));
    let (x, y, z) = (peer(2), peer(3), peer(4));
    let group = SocketAddr::new(ip("239.255.90.90"), 9003);
    let mut scope = Egress::new();
    scope.begin_packet();
    let mut delivered = Vec::new();
    for list in [[x, y], [y, z]] {
        delivered.extend(fan_out(&scope, &mut table, egress, &list, group, b"sood"));
    }
    let delivered: Vec<IpAddr> = delivered.into_iter().map(|dest| dest.ip).collect();
    assert_eq!(delivered, [x, y, z]);
}

// 10.0.1.2 and 10.1.1.1 sum to the same checksum words; each peer must still get its copy.
#[test]
fn peers_whose_frames_share_a_checksum_each_get_a_copy() {
    let (mut table, egress) = table();
    let peers = [ip("10.0.1.2"), ip("10.1.1.1")];
    let group = SocketAddr::new(ip("239.255.90.90"), 9003);
    let mut scope = Egress::new();
    scope.begin_packet();
    let delivered: Vec<IpAddr> = fan_out(&scope, &mut table, egress, &peers, group, b"sood")
        .into_iter()
        .map(|dest| dest.ip)
        .collect();
    assert_eq!(delivered, peers);
}

// The other peers still get theirs: the send counts as delivered. Only when every copy fails does the
// send fail.
#[test]
fn a_peer_without_an_endpoint_costs_only_its_own_copy() {
    let (mut table, egress) = table();
    let scope = Egress::new();
    let mut delivery = PeerDelivery::new();
    let unreachable = delivery.copy(&scope, &mut table, egress, b"a", Err(Errno::HostUnreachable));
    assert_eq!(unreachable, Err(Errno::HostUnreachable));
    let reachable = delivery.copy(&scope, &mut table, egress, b"b", Ok(()));
    assert_eq!(reachable, Ok(true));
    assert_eq!(delivery.result(), Ok(()));

    let mut only_unreachable = PeerDelivery::new();
    let _ = only_unreachable.copy(&scope, &mut table, egress, b"a", Err(Errno::HostUnreachable));
    assert_eq!(only_unreachable.result(), Err(Errno::HostUnreachable));
    // No copy at all is no failure.
    assert_eq!(PeerDelivery::new().result(), Ok(()));
}

#[test]
fn a_failed_frame_is_tried_again_and_a_sent_one_is_not() {
    let (mut table, egress) = table();
    let mut scope = Egress::new();
    scope.begin_packet();
    assert_eq!(
        scope.send_built(&mut table, egress, b"f", Err(Errno::NoBufferSpace)),
        Err(Errno::NoBufferSpace)
    );
    assert_eq!(scope.send_built(&mut table, egress, b"f", Ok(())), Ok(true));
    assert_eq!(scope.send_built(&mut table, egress, b"f", Ok(())), Ok(false));
    // The next packet's equal frame goes out.
    scope.end_packet();
    scope.begin_packet();
    assert_eq!(scope.send_built(&mut table, egress, b"f", Ok(())), Ok(true));
}

#[test]
fn outside_routing_nothing_is_a_duplicate() {
    let (mut table, egress) = table();
    let scope = Egress::new();
    for _ in 0..3 {
        assert!(scope.would_send(&table, egress, b"f"));
        assert_eq!(scope.send_built(&mut table, egress, b"f", Ok(())), Ok(true));
    }
}

#[test]
fn an_unknown_or_drained_egress_is_a_drop() {
    let (mut table, egress) = table();
    assert!(build_parts(&table, egress).is_some());
    assert_eq!(egress_name(&table, egress), "tun0");
    let taken = table.take(egress);
    assert!(taken.is_some());
    assert!(build_parts(&table, egress).is_none());
    let scope = Egress::new();
    assert!(!scope.would_send(&table, egress, b"f"));
    assert_eq!(
        scope.send_built(&mut table, egress, b"f", Err(Errno::NetworkDown)),
        Ok(true)
    );
    let bogus = CaptureKey::from_u64(999);
    assert!(build_parts(&table, bogus).is_none());
    assert_eq!(egress_name(&table, bogus), "?");
}
