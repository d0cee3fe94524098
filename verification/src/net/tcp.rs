//! A non-blocking IPv4 TCP socket for the DIAL application proxy: what is known of one, and the
//! decisions on what the system answers. The system calls are the caller's.

use vstd::prelude::*;

use crate::errno::Errno;
use crate::net::ip::{IpAddr, SocketAddrV4};
use crate::net::packet::SocketAddr;

verus! {

/// A DIAL listener fields a few short-lived client fetches; 16 is ample.
pub const LISTEN_BACKLOG: i32 = 16;

/// A listener, an accepted connection, or an outbound connection still completing its non-blocking
/// `connect`.
#[derive(Clone, Copy, PartialEq, Eq, Structural, Debug)]
pub struct TcpSocket {
    pub fd: i32,
    pub local_addr: SocketAddrV4,
    pub connecting: bool,
}

/// The listener's connection is gone, or there was none.
pub open spec fn gone(err: Errno) -> bool {
    ||| err == Errno::WouldBlock
    ||| err == Errno::ConnectionAborted
    ||| err == Errno::ProtocolError
    ||| err == Errno::NetworkDown
    ||| err == Errno::NetworkUnreachable
    ||| err == Errno::HostDown
    ||| err == Errno::HostUnreachable
    ||| err == Errno::NoProtocolOption
    ||| err == Errno::NotSupported
}

/// Whether a failed `accept` left nothing to take: nothing was pending (`EAGAIN`), or the pending
/// connection is already gone (the peer aborted after the handshake, or an error queued against that
/// connection surfaced here). The kernel has dropped it, so the readiness clears on its own;
/// `accept(2)` says to treat these like `EAGAIN`.
///
/// Not a catch-all: `EMFILE`/`ENFILE` fail before a descriptor exists and leave the connection queued,
/// so a level-triggered listener re-fires on it forever. Those must reach the caller so it can shed
/// the listener.
pub fn nothing_to_accept(err: Errno) -> (r: bool)
    ensures
        r == gone(err),
{
    matches!(
        err,
        Errno::WouldBlock | Errno::ConnectionAborted | Errno::ProtocolError | Errno::NetworkDown
            | Errno::NetworkUnreachable | Errno::HostDown | Errno::HostUnreachable
            | Errno::NoProtocolOption | Errno::NotSupported
    )
}

/// Take what `accept` gave: the new fd; `None` when there is nothing to take.
pub fn accept_fd(accepted: Result<i32, Errno>) -> (r: Result<Option<i32>, Errno>)
    ensures
        r == match accepted {
            Ok(fd) => Ok(Some(fd)),
            Err(e) => if gone(e) {
                Ok(None)
            } else {
                Err(e)
            },
        },
{
    match accepted {
        Ok(fd) => Ok(Some(fd)),
        Err(e) => if nothing_to_accept(e) {
            Ok(None)
        } else {
            Err(e)
        },
    }
}

/// Take what `connect` gave: `true` if the connect is still in progress (`EINPROGRESS`), `false` if it
/// completed at once (loopback).
pub fn connect_v4(connected: Result<(), Errno>) -> (r: Result<bool, Errno>)
    ensures
        r == match connected {
            Ok(()) => Ok(false),
            Err(e) => if e == Errno::InProgress {
                Ok(true)
            } else {
                Err(e)
            },
        },
{
    match connected {
        Ok(()) => Ok(false),
        Err(e) => if e == Errno::InProgress {
            Ok(true)
        } else {
            Err(e)
        },
    }
}

/// The IPv4 address of a socket; `None` for a socket of the other family.
pub fn local_addr_v4(addr: SocketAddr) -> (r: Option<SocketAddrV4>)
    ensures
        r == match addr.ip {
            IpAddr::V4(ip) => Some(SocketAddrV4 { ip, port: addr.port }),
            IpAddr::V6(_) => None,
        },
{
    match addr.ip {
        IpAddr::V4(ip) => Some(SocketAddrV4::new(ip, addr.port)),
        IpAddr::V6(_) => None,
    }
}

impl TcpSocket {
    /// A socket that listens at `local_addr`.
    pub fn listen(fd: i32, local_addr: SocketAddrV4) -> (r: Self)
        ensures
            r == (TcpSocket { fd, local_addr, connecting: false }),
    {
        TcpSocket { fd, local_addr, connecting: false }
    }

    /// The connection on `fd` that the listener accepted: at the listener's address, established.
    pub fn accept(&self, fd: i32) -> (r: Self)
        ensures
            r == (TcpSocket { fd, local_addr: self.local_addr, connecting: false }),
    {
        TcpSocket { fd, local_addr: self.local_addr, connecting: false }
    }

    /// A socket that connects from `local_addr`, given what `connect` gave. It is
    /// [`is_connecting`](Self::is_connecting) until a writable edge and
    /// [`finish_connect`](Self::finish_connect).
    pub fn connect(fd: i32, local_addr: SocketAddrV4, connected: Result<(), Errno>) -> (r: Result<
        Self,
        Errno,
    >)
        ensures
            match r {
                Ok(socket) => {
                    &&& socket.fd == fd
                    &&& socket.local_addr == local_addr
                    &&& connected is Ok && !socket.connecting || connected == Err::<(), Errno>(
                        Errno::InProgress,
                    ) && socket.connecting
                },
                Err(e) => e != Errno::InProgress && connected == Err::<(), Errno>(e),
            },
    {
        match connect_v4(connected) {
            Ok(connecting) => Ok(TcpSocket { fd, local_addr, connecting }),
            Err(e) => Err(e),
        }
    }

    pub fn local_addr(&self) -> (r: SocketAddrV4)
        ensures
            r == self.local_addr,
    {
        self.local_addr
    }

    pub fn is_connecting(&self) -> (r: bool)
        ensures
            r == self.connecting,
    {
        self.connecting
    }

    /// Call after the writable edge, with the error that the system holds for the socket, if any. The
    /// connect's own error leaves the socket connecting.
    pub fn finish_connect(&mut self, so_error: Option<Errno>) -> (r: Result<(), Errno>)
        ensures
            r == match so_error {
                Some(e) => Err(e),
                None => Ok(()),
            },
            *final(self) == (if so_error is None {
                TcpSocket { connecting: false, ..*old(self) }
            } else {
                *old(self)
            }),
    {
        match so_error {
            Some(e) => Err(e),
            None => {
                self.connecting = false;
                Ok(())
            },
        }
    }
}

/// A failed `accept` is passed over where the connection is gone; whatever else failed, the caller is
/// told, so that a listener which cannot get a descriptor is shed.
pub proof fn law_a_shortage_reaches_the_caller(e: Errno)
    ensures
        gone(e) ==> e == Errno::WouldBlock || e == Errno::ConnectionAborted || e
            == Errno::ProtocolError || e == Errno::NetworkDown || e == Errno::NetworkUnreachable || e
            == Errno::HostDown || e == Errno::HostUnreachable || e == Errno::NoProtocolOption || e
            == Errno::NotSupported,
        gone(Errno::WouldBlock) && gone(Errno::ConnectionAborted) && gone(Errno::ProtocolError),
        gone(Errno::NetworkDown) && gone(Errno::NetworkUnreachable) && gone(Errno::HostDown),
        gone(Errno::HostUnreachable) && gone(Errno::NoProtocolOption) && gone(Errno::NotSupported),
{
}

} // verus!
