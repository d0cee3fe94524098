//! Interface change monitoring: what a routing socket's notifications say, and when to stop reading
//! them. Best-effort: a read error leaves the last addresses in place.

pub mod route;
pub mod rtnetlink;

use vstd::prelude::*;

use crate::errno::Errno;

verus! {

/// The kernel clears the overflow flag on the next read, so an unbroken run of overflows means the
/// socket is wedged: stop rather than spin; a level-triggered wait re-fires later.
pub const MAX_CONSECUTIVE_OVERFLOWS: u32 = 16;

/// A change that a notification announces.
#[derive(Clone, Copy, PartialEq, Eq, Structural, Debug)]
pub enum InterfaceEvent {
    /// An address-level change on this kernel index.
    Address(u32),
    /// A link lifecycle event on this kernel index.
    Link(u32),
    /// Notifications were dropped: every interface may be stale.
    Overflow,
}

/// What one read of the socket returned.
#[derive(Clone, Copy, PartialEq, Eq, Structural, Debug)]
pub enum Received {
    /// Nothing is queued.
    WouldBlock,
    /// A datagram of so many bytes.
    Datagram(usize),
    Failed(Errno),
}

/// What to do after a read.
#[derive(Clone, Copy, PartialEq, Eq, Structural, Debug)]
pub enum Action {
    /// Report an overflow, and read on.
    ReportOverflow,
    /// Read on.
    Continue,
    /// Walk the datagram for changes, and read on.
    Walk,
    /// The drain is over.
    Done,
    /// The drain failed.
    Fail(Errno),
}

/// What to do after a read that follows `overflows` overflows in a row, and how many there are now.
/// An overflow is reported once per burst, and too long a burst ends the drain; a datagram of 0
/// bytes reads as drained.
pub open spec fn after_read(overflows: u32, received: Received) -> (u32, Action) {
    match received {
        Received::Failed(Errno::NoBufferSpace) => {
            let n: u32 = (overflows + 1) as u32;
            (
                n,
                if n == 1 {
                    Action::ReportOverflow
                } else if n >= MAX_CONSECUTIVE_OVERFLOWS {
                    Action::Done
                } else {
                    Action::Continue
                },
            )
        },
        Received::Failed(e) => (0, Action::Fail(e)),
        Received::WouldBlock => (0, Action::Done),
        Received::Datagram(n) => (
            0,
            if n == 0 {
                Action::Done
            } else {
                Action::Walk
            },
        ),
    }
}

/// A drain of the socket under way.
#[derive(Clone, Copy, PartialEq, Eq, Structural, Debug)]
pub struct Drain {
    pub overflows: u32,
}

impl Drain {
    /// The burst is shorter than one that ends the drain.
    pub open spec fn wf(&self) -> bool {
        self.overflows < MAX_CONSECUTIVE_OVERFLOWS
    }

    pub fn new() -> (r: Self)
        ensures
            r.wf(),
            r.overflows == 0,
    {
        Drain { overflows: 0 }
    }

    /// What to do after a read.
    pub fn step(&mut self, received: Received) -> (r: Action)
        requires
            old(self).wf(),
        ensures
            (final(self).overflows, r) == after_read(old(self).overflows, received),
            final(self).wf() || r == Action::Done,
    {
        match received {
            Received::Failed(e) => {
                if e == Errno::NoBufferSpace {
                    self.overflows = self.overflows + 1;
                    if self.overflows == 1 {
                        Action::ReportOverflow
                    } else if self.overflows >= MAX_CONSECUTIVE_OVERFLOWS {
                        Action::Done
                    } else {
                        Action::Continue
                    }
                } else {
                    self.overflows = 0;
                    Action::Fail(e)
                }
            },
            Received::WouldBlock => {
                self.overflows = 0;
                Action::Done
            },
            Received::Datagram(n) => {
                self.overflows = 0;
                if n == 0 {
                    Action::Done
                } else {
                    Action::Walk
                }
            },
        }
    }
}

/// The overflows in a row after `n` more reads that all overflow.
pub open spec fn after_overflows(n: nat) -> (u32, Action)
    decreases n,
{
    if n == 0 {
        (0, Action::Continue)
    } else {
        after_read(after_overflows((n - 1) as nat).0, Received::Failed(Errno::NoBufferSpace))
    }
}

/// A socket that only overflows is reported once and given up after a bounded number of reads.
pub proof fn law_a_wedged_socket_is_reported_once_and_left(n: nat)
    requires
        1 <= n <= MAX_CONSECUTIVE_OVERFLOWS,
    ensures
        after_overflows(n).0 == n,
        after_overflows(n).1 == Action::ReportOverflow <==> n == 1,
        after_overflows(n).1 == Action::Done <==> n == MAX_CONSECUTIVE_OVERFLOWS,
    decreases n,
{
    if n > 1 {
        law_a_wedged_socket_is_reported_once_and_left((n - 1) as nat);
    } else {
        assert(after_overflows(0) == (0u32, Action::Continue));
    }
}

/// What ends a drain: nothing to read, an empty datagram, the sixteenth overflow in a row, or a failure,
/// which is told. A datagram is walked, and the first overflow of a burst is reported.
pub proof fn law_what_a_read_leads_to(overflows: u32, n: usize, e: Errno)
    requires
        overflows < 16,
    ensures
        after_read(overflows, Received::WouldBlock) == (0u32, Action::Done),
        n > 0 ==> after_read(overflows, Received::Datagram(n)) == (0u32, Action::Walk),
        after_read(overflows, Received::Datagram(0)) == (0u32, Action::Done),
        e != Errno::NoBufferSpace ==> after_read(overflows, Received::Failed(e)) == (
            0u32,
            Action::Fail(e),
        ),
        ({
            let (more, action) = after_read(overflows, Received::Failed(Errno::NoBufferSpace));
            &&& more == overflows + 1
            &&& action == Action::ReportOverflow <==> overflows == 0
            &&& action == Action::Done <==> overflows == 15
            &&& action == Action::Continue <==> 0 < overflows < 15
        }),
{
}

} // verus!
