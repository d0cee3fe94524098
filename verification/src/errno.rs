//! The system errors that a decision depends on.

use vstd::prelude::*;

verus! {

/// A system error. `Other` carries the number of one that no decision depends on.
#[derive(Clone, Copy, PartialEq, Eq, Structural, Debug)]
pub enum Errno {
    /// `EADDRINUSE`
    AddrInUse,
    /// `EADDRNOTAVAIL`
    AddrNotAvailable,
    /// `ENOBUFS`
    NoBufferSpace,
    /// `ETOOMANYREFS`
    TooManyReferences,
    /// `EMSGSIZE`
    MessageTooLong,
    /// `EMFILE`
    TooManyOpenFiles,
    /// `ENFILE`
    FileTableFull,
    /// `ENOMEM`
    NoMemory,
    /// `EAFNOSUPPORT`
    FamilyNotSupported,
    /// `EPROTONOSUPPORT`
    ProtocolNotSupported,
    /// `ENOPROTOOPT`
    NoProtocolOption,
    /// `EOPNOTSUPP`
    NotSupported,
    /// `ENOSYS`
    NotImplemented,
    /// `ECONNABORTED`
    ConnectionAborted,
    /// `EAGAIN` and `EWOULDBLOCK`
    WouldBlock,
    /// `EINTR`
    Interrupted,
    /// `EINPROGRESS`
    InProgress,
    /// `ENETDOWN`
    NetworkDown,
    /// `ENETUNREACH`
    NetworkUnreachable,
    /// `EHOSTDOWN`
    HostDown,
    /// `EHOSTUNREACH`
    HostUnreachable,
    /// `ENXIO`
    NoSuchDevice,
    /// `ENODEV`
    NoDevice,
    /// `ESRCH`
    NoSuchProcess,
    /// `EINVAL`
    InvalidArgument,
    /// `EPROTO`
    ProtocolError,
    /// `EPERM`
    NotPermitted,
    Other(i32),
}

} // verus!
