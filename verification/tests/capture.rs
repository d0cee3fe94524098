//! The decisions around opening a capture and reading it.

use netflector::capture::{
    attached, drop_outgoing_filter, install_filter, link_type_of, lost_interface, next_frame,
    resolve_ifindex, send_outcome, BpfInsn, Read,
};
use netflector::errno::Errno;
use netflector::net::LinkType;

const fn insn(code: u16, jt: u8, jf: u8, k: u32) -> BpfInsn {
    BpfInsn { code, jt, jf, k }
}

/// Load the packet type, drop what is outgoing.
const PROLOGUE: [BpfInsn; 3] = [
    insn(0x28, 0, 0, 0xffff_f004),
    insn(0x15, 0, 1, 4),
    insn(0x06, 0, 0, 0),
];

const ETHERNET: [BpfInsn; 2] = [insn(0x28, 0, 0, 12), insn(0x06, 0, 0, 0xffff_ffff)];

const RAW_IP: [BpfInsn; 1] = [insn(0x06, 0, 0, 0xffff_ffff)];

#[test]
fn drop_outgoing_filter_prepends_the_prologue() {
    for classifier in [&ETHERNET[..], &RAW_IP[..]] {
        let filter = drop_outgoing_filter(&PROLOGUE, classifier);
        assert_eq!(&filter[..PROLOGUE.len()], &PROLOGUE);
        assert_eq!(&filter[PROLOGUE.len()..], classifier);
    }
}

#[test]
fn the_prologue_stands_in_for_the_kernels_option() {
    assert_eq!(install_filter(&PROLOGUE, &RAW_IP, true), RAW_IP);
    assert_eq!(install_filter(&PROLOGUE, &RAW_IP, false).len(), 4);
}

#[test]
fn hardware_types_frame_as_ethernet_or_raw_ip() {
    assert_eq!(link_type_of(1), Ok(LinkType::Ethernet));
    assert_eq!(link_type_of(772), Ok(LinkType::Ethernet));
    assert_eq!(link_type_of(0xfffe), Ok(LinkType::RawIp));
    assert_eq!(
        link_type_of(768),
        Err("hardware type 768 is neither Ethernet nor a raw IP link".to_owned())
    );
}

#[test]
fn an_oversized_frame_is_dropped_not_cut() {
    assert_eq!(next_frame(2048, 2048), Read::Frame(2048));
    assert_eq!(next_frame(2049, 2048), Read::Oversized);
}

#[test]
fn a_dead_binding_is_not_attached() {
    assert!(attached(Some(3), 3));
    assert!(!attached(Some(4), 3));
    assert!(!attached(Some(-1), u32::MAX));
    assert!(!attached(None, 3));
}

#[test]
fn only_enetdown_says_the_interface_is_lost() {
    assert!(lost_interface(Errno::NetworkDown));
    assert!(!lost_interface(Errno::InvalidArgument));
}

#[test]
fn an_index_that_is_missing_or_too_large_is_refused() {
    assert_eq!(resolve_ifindex("eth0", Some(7)), Ok(7));
    assert_eq!(
        resolve_ifindex("eth0", None),
        Err("interface eth0 not found".to_owned())
    );
    assert_eq!(
        resolve_ifindex("eth0", Some(u32::MAX)),
        Err("interface index too large".to_owned())
    );
}

#[test]
fn a_short_send_is_an_error() {
    assert_eq!(send_outcome(60, 60), Ok(()));
    assert_eq!(
        send_outcome(59, 60),
        Err("short send to AF_PACKET socket".to_owned())
    );
}
