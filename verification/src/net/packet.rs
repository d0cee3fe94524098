//! A UDP datagram as it was captured.

use vstd::prelude::*;

use crate::net::ip::{IpAddr, Ipv4Addr};
use crate::net::mac::MacAddr;

verus! {

/// An address and port of either family.
#[derive(Clone, Copy, PartialEq, Eq, Structural, Debug)]
pub struct SocketAddr {
    pub ip: IpAddr,
    pub port: u16,
}

impl SocketAddr {
    pub fn new(ip: IpAddr, port: u16) -> (r: Self)
        ensures
            r == (SocketAddr { ip, port }),
    {
        SocketAddr { ip, port }
    }
}

/// A captured datagram. The MACs are absent on a link without L2 addresses.
#[derive(Clone, Copy, PartialEq, Eq, Debug)]
pub struct Packet<'a> {
    pub source: SocketAddr,
    pub dest: SocketAddr,
    pub ttl: u8,
    pub dst_mac: Option<MacAddr>,
    pub src_mac: Option<MacAddr>,
    pub payload: &'a [u8],
}

impl<'a> Packet<'a> {
    /// Sent to the IPv4 broadcast. On a link with MACs the frame decides, and every address but a
    /// group's qualifies on the all-ones MAC; on one without, the address does: the limited
    /// broadcast, or the link's own directed one.
    pub open spec fn broadcast(&self, directed: Option<Ipv4Addr>) -> bool {
        match self.dest.ip {
            IpAddr::V4(v4) => !(224 <= v4.a <= 239) && match self.dst_mac {
                Some(mac) => mac == MacAddr::broadcast(),
                None => v4 == Ipv4Addr::broadcast() || directed == Some(v4),
            },
            IpAddr::V6(_) => false,
        }
    }

    /// Whether the destination is an IPv4 broadcast, on a link whose directed one is `directed`.
    pub fn is_broadcast(&self, directed: Option<Ipv4Addr>) -> (r: bool)
        ensures
            r == self.broadcast(directed),
    {
        match self.dest.ip {
            IpAddr::V4(v4) => {
                if v4.is_multicast() {
                    return false;
                }
                match self.dst_mac {
                    Some(mac) => mac == MacAddr::broadcast(),
                    None => v4.is_broadcast() || match directed {
                        Some(own) => own == v4,
                        None => false,
                    },
                }
            },
            IpAddr::V6(_) => false,
        }
    }
}

} // verus!
