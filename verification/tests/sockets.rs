//! What the TCP, routing and reservation sockets' results come to.

use netflector::errno::Errno;
use netflector::interface::wire::Order;
use netflector::net::ip::{IpAddr, Ipv4Addr, SocketAddrV4};
use netflector::net::packet::SocketAddr;
use netflector::net::port_reservation::{drop_all, PortReservation};
use netflector::net::route_query::{
    build_request, is_our_reply, write_error, QueryStep, RouteQuery, RtMsgHdr, HEADER_LEN,
    REPLY_DEADLINE, REQUEST_LEN, REQUEST_SEQ, RTF_BLACKHOLE, RTM_GET, RTM_VERSION,
};
use netflector::net::tcp::{accept_fd, connect_v4, local_addr_v4, nothing_to_accept, TcpSocket};

const PID: u32 = 4321;

fn at(port: u16) -> SocketAddrV4 {
    SocketAddrV4::new(Ipv4Addr::new(127, 0, 0, 1), port)
}

#[test]
fn nothing_pending_and_a_client_that_died_first_both_read_as_no_connection() {
    for errno in [
        Errno::WouldBlock,
        Errno::ConnectionAborted,
        Errno::ProtocolError,
        Errno::NetworkDown,
        Errno::NetworkUnreachable,
        Errno::HostDown,
        Errno::HostUnreachable,
        Errno::NoProtocolOption,
        Errno::NotSupported,
    ] {
        assert!(
            nothing_to_accept(errno),
            "{errno:?} leaves no connection to take, so accept reports None"
        );
        assert_eq!(accept_fd(Err(errno)), Ok(None));
    }
}

#[test]
fn an_accept_that_leaves_the_connection_queued_reaches_the_caller() {
    // Nothing drained the connection on these, so a level-triggered readiness re-fires on it
    // forever; the caller has to see the error and shed the listener.
    for errno in [
        Errno::TooManyOpenFiles,
        Errno::FileTableFull,
        Errno::NoBufferSpace,
        Errno::InvalidArgument,
    ] {
        assert!(
            !nothing_to_accept(errno),
            "{errno:?} leaves the connection queued and must not be swallowed"
        );
        assert_eq!(accept_fd(Err(errno)), Err(errno));
    }
    assert!(!nothing_to_accept(Errno::Other(0)));
    assert_eq!(accept_fd(Ok(7)), Ok(Some(7)));
}

#[test]
fn a_connect_in_progress_is_connecting_until_it_finishes() {
    assert_eq!(connect_v4(Ok(())), Ok(false));
    assert_eq!(connect_v4(Err(Errno::InProgress)), Ok(true));
    assert_eq!(
        TcpSocket::connect(3, at(40000), Err(Errno::NetworkUnreachable)),
        Err(Errno::NetworkUnreachable)
    );
    let mut socket = TcpSocket::connect(3, at(40000), Err(Errno::InProgress)).unwrap();
    assert!(socket.is_connecting());
    assert_eq!(
        socket.finish_connect(Some(Errno::HostUnreachable)),
        Err(Errno::HostUnreachable)
    );
    assert!(socket.is_connecting());
    assert_eq!(socket.finish_connect(None), Ok(()));
    assert!(!socket.is_connecting());
    assert_eq!(socket.local_addr(), at(40000));
}

#[test]
fn an_accepted_connection_is_at_the_listeners_address() {
    let listener = TcpSocket::listen(3, at(8008));
    let accepted = listener.accept(9);
    assert_eq!(accepted.fd, 9);
    assert_eq!(accepted.local_addr(), at(8008));
    assert!(!accepted.is_connecting());
}

#[test]
fn only_an_ipv4_socket_has_an_ipv4_address() {
    let v4 = SocketAddr::new(IpAddr::V4(Ipv4Addr::new(127, 0, 0, 1)), 9);
    assert_eq!(local_addr_v4(v4), Some(at(9)));
    let v6 = SocketAddr::new(
        IpAddr::V6(netflector::net::ip::Ipv6Addr::loopback()),
        9,
    );
    assert_eq!(local_addr_v4(v6), None);
}

/// A header matching every field [`is_our_reply`] keys on.
fn our_reply() -> RtMsgHdr {
    RtMsgHdr {
        version: RTM_VERSION,
        msg_type: RTM_GET,
        index: 0,
        flags: 0,
        pid: PID,
        seq: REQUEST_SEQ,
        errno: 0,
    }
}

#[test]
fn recognises_our_own_reply() {
    assert!(is_our_reply(our_reply(), PID));
}

#[test]
fn skips_another_process_reply() {
    let hdr = RtMsgHdr {
        pid: PID + 1,
        ..our_reply()
    };
    assert!(!is_our_reply(hdr, PID));
}

#[test]
fn skips_a_kernel_broadcast() {
    // An unsolicited announcement carries its own message type and seq 0.
    let hdr = RtMsgHdr {
        msg_type: 0xc,
        seq: 0,
        ..our_reply()
    };
    assert!(!is_our_reply(hdr, PID));
}

#[test]
fn skips_another_message_type() {
    let hdr = RtMsgHdr {
        msg_type: 0xd,
        ..our_reply()
    };
    assert!(!is_our_reply(hdr, PID));
}

#[test]
fn skips_a_foreign_sequence() {
    let hdr = RtMsgHdr {
        seq: REQUEST_SEQ + 1,
        ..our_reply()
    };
    assert!(!is_our_reply(hdr, PID));
}

#[test]
fn skips_another_protocol_version() {
    let hdr = RtMsgHdr {
        version: RTM_VERSION - 1,
        ..our_reply()
    };
    assert!(!is_our_reply(hdr, PID));
}

/// The request as the kernel answers it: with the route's interface, flags and error.
fn reply(index: u16, flags: u32, errno: u32) -> Vec<u8> {
    let mut m = build_request(Order::Little, Ipv4Addr::new(10, 0, 0, 7), PID);
    m[4..6].copy_from_slice(&index.to_le_bytes());
    m[8..12].copy_from_slice(&flags.to_le_bytes());
    m[24..28].copy_from_slice(&errno.to_le_bytes());
    m
}

fn query() -> RouteQuery {
    RouteQuery::new(Ipv4Addr::new(10, 0, 0, 7), 0)
}

#[test]
fn a_request_asks_for_its_destination() {
    let m = reply(0, 0, 0);
    assert_eq!(m.len(), REQUEST_LEN);
    assert_eq!(m[0..4], [168, 0, RTM_VERSION, RTM_GET]);
    assert_eq!(m[16..20], PID.to_le_bytes());
    assert_eq!(
        m[HEADER_LEN..HEADER_LEN + 8],
        [16, 2, 0, 0, 10, 0, 0, 7]
    );
}

#[test]
fn a_reply_names_the_interface() {
    let mut q = query();
    assert_eq!(
        q.on_read(Order::Little, Some(&reply(5, 0, 0)), PID),
        QueryStep::Answer(5)
    );
}

#[test]
fn a_foreign_message_is_stepped_over_and_counted() {
    let mut q = query();
    assert_eq!(
        q.on_read(Order::Little, Some(&reply(5, 0, 0)), PID + 1),
        QueryStep::Again
    );
    assert_eq!(q.skipped, 1);
    assert_eq!(
        q.expired(REPLY_DEADLINE),
        Some("no answer for 10.0.0.7 in 5s, after 1 other messages".to_string())
    );
    assert_eq!(q.expired(REPLY_DEADLINE - 1), None);
}

#[test]
fn a_reply_that_reaches_nothing_is_refused() {
    assert_eq!(
        query().on_read(Order::Little, Some(&reply(5, 0, 3)), PID),
        QueryStep::Os(3)
    );
    assert!(matches!(
        query().on_read(Order::Little, Some(&reply(5, RTF_BLACKHOLE, 0)), PID),
        QueryStep::Refused(_)
    ));
    assert!(matches!(
        query().on_read(Order::Little, None, PID),
        QueryStep::Refused(_)
    ));
}

#[test]
fn a_write_to_nowhere_is_no_route() {
    let dst = Ipv4Addr::new(10, 0, 0, 7);
    assert_eq!(
        write_error(dst, Errno::NoSuchProcess),
        Some("no route to 10.0.0.7".to_string())
    );
    assert_eq!(write_error(dst, Errno::NoMemory), None);
}

#[test]
fn a_reservation_holds_the_port_it_was_given() {
    let ip = IpAddr::V4(Ipv4Addr::new(127, 0, 0, 1));
    let held = PortReservation::create(5, ip, 49152);
    assert_eq!(held.port(), 49152);
    assert_eq!(held.source(), SocketAddr::new(ip, 49152));
    let insn = drop_all();
    assert_eq!((insn.code, insn.jt, insn.jf, insn.k), (6, 0, 0, 0));
}
