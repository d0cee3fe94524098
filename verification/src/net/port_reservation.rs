//! A held, never-read UDP socket that keeps an ephemeral port claimed. The SSDP search reflector
//! re-emits an M-SEARCH from it so devices unicast their `200 OK` back; without the socket the kernel
//! answers with an ICMP port-unreachable. The raw capture reads the actual datagram; on Linux a
//! drop-all BPF filter makes this socket enqueue nothing.

use vstd::prelude::*;

use crate::capture::BpfInsn;
use crate::net::ip::IpAddr;
use crate::net::packet::SocketAddr;

verus! {

/// The port is free again once the socket behind `fd` is closed.
#[derive(Clone, Copy, PartialEq, Eq, Structural, Debug)]
pub struct PortReservation {
    pub fd: i32,
    pub source: SocketAddr,
}

impl PortReservation {
    /// The reservation of the port that the system assigned on `addr`.
    pub fn create(fd: i32, addr: IpAddr, port: u16) -> (r: Self)
        ensures
            r == (PortReservation { fd, source: SocketAddr { ip: addr, port } }),
    {
        PortReservation { fd, source: SocketAddr::new(addr, port) }
    }

    pub fn port(&self) -> (r: u16)
        ensures
            r == self.source.port,
    {
        self.source.port
    }

    pub fn source(&self) -> (r: SocketAddr)
        ensures
            r == self.source,
    {
        self.source
    }
}

/// A single `BPF_RET | BPF_K` returning 0: accept zero bytes, i.e. drop every packet.
#[verifier::allow_in_spec]
pub fn drop_all() -> (r: BpfInsn)
    returns
        (BpfInsn { code: 6, jt: 0, jf: 0, k: 0 }),
{
    BpfInsn { code: 6, jt: 0, jf: 0, k: 0 }
}

} // verus!
