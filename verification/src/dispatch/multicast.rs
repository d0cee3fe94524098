//! Multicast group membership for the capture interfaces: the kernel admits a group's frames to the
//! raw capture only once the interface joins it. One unbound datagram socket per family per
//! interface, so Linux's `net.ipv4.igmp_max_memberships` (default 20, unraisable on a locked-down
//! router) is never reached; unbound, the kernel queues it no datagrams.
//!
//! The caller opens the sockets and asks the kernel; what it answered comes in as an [`Attempt`].

use vstd::prelude::*;

use crate::errno::Errno;
use crate::net::ip::IpAddr;

verus! {

/// How a [`rejoin`](MulticastJoiner::rejoin) landed; the three sum to the desired-group count. Only
/// a deferral (no address of its family yet) has a known trigger that resolves it.
#[derive(Clone, Copy, PartialEq, Eq, Structural, Debug)]
pub struct RejoinCounts {
    pub joined: usize,
    pub deferred: usize,
    pub failed: usize,
}

impl Default for RejoinCounts {
    fn default() -> (r: Self)
        ensures
            r == (RejoinCounts { joined: 0, deferred: 0, failed: 0 }),
    {
        RejoinCounts { joined: 0, deferred: 0, failed: 0 }
    }
}

/// `reported`: the current failure episode has been logged; cleared when the group joins.
#[derive(Clone, Copy, PartialEq, Eq, Structural, Debug)]
pub struct Desired {
    pub group: IpAddr,
    pub reported: bool,
}

/// What came of asking the kernel to join a group.
#[derive(Clone, Copy, PartialEq, Eq, Structural, Debug)]
pub enum Attempt {
    /// The family's socket was missing and could not be opened.
    NoSocket(Errno),
    /// The kernel joined it on the family's socket, which was opened where it was missing.
    Joined,
    /// The kernel refused on the family's socket, which was opened where it was missing.
    Refused(Errno),
}

/// What to log of one re-join.
#[derive(Clone, Copy, PartialEq, Eq, Structural, Debug)]
pub enum Report {
    /// It joined, as before.
    Quiet,
    /// It joined after a reported failure.
    Recovered,
    /// No address of its family yet: its address event is coming.
    Deferred(Errno),
    /// The first failure of an episode.
    Failed(Errno),
    /// A failure that was reported already.
    StillFailing(Errno),
}

/// Every target returns `EADDRINUSE` for an any-source re-join of a held membership; the idempotent
/// replay relies on it.
#[verifier::allow_in_spec]
pub fn already_member(err: Errno) -> (r: bool)
    returns
        err == Errno::AddrInUse,
{
    matches!(err, Errno::AddrInUse)
}

/// The environment can't join at all: QEMU user-mode returns `ENOPROTOOPT` for `MCAST_JOIN_GROUP`.
#[verifier::allow_in_spec]
pub fn join_unsupported(err: Errno) -> (r: bool)
    returns
        err == Errno::NoProtocolOption || err == Errno::NotSupported || err
            == Errno::NotImplemented,
{
    matches!(err, Errno::NoProtocolOption | Errno::NotSupported | Errno::NotImplemented)
}

/// The socket holds as many memberships as the system allows: `ENOBUFS` on Linux
/// (`net.ipv4.igmp_max_memberships`), `ETOOMANYREFS` on the BSDs.
#[verifier::allow_in_spec]
pub fn join_capped(err: Errno) -> (r: bool)
    returns
        err == Errno::NoBufferSpace || err == Errno::TooManyReferences,
{
    matches!(err, Errno::NoBufferSpace | Errno::TooManyReferences)
}

/// `EADDRNOTAVAIL`: the interface has no address of the group's family yet; the address event that
/// supplies one resolves it.
#[verifier::allow_in_spec]
pub fn join_deferrable(err: Errno) -> (r: bool)
    returns
        err == Errno::AddrNotAvailable,
{
    matches!(err, Errno::AddrNotAvailable)
}

/// What an attempt comes to: a held membership counts as joined.
pub open spec fn landed(attempt: Attempt) -> Result<(), Errno> {
    match attempt {
        Attempt::NoSocket(e) => Err(e),
        Attempt::Joined => Ok(()),
        Attempt::Refused(e) => if already_member(e) {
            Ok(())
        } else {
            Err(e)
        },
    }
}

/// What to log of a re-join, given whether a failure has been reported.
pub open spec fn report(reported: bool, attempt: Attempt) -> Report {
    match landed(attempt) {
        Ok(()) => if reported {
            Report::Recovered
        } else {
            Report::Quiet
        },
        Err(e) => if join_deferrable(e) {
            Report::Deferred(e)
        } else if reported {
            Report::StillFailing(e)
        } else {
            Report::Failed(e)
        },
    }
}

/// Whether a failure has been reported, after a re-join.
pub open spec fn reported_after(reported: bool, attempt: Attempt) -> bool {
    match landed(attempt) {
        Ok(()) => false,
        Err(e) => reported || !join_deferrable(e),
    }
}

/// The counts with one attempt more.
pub open spec fn tallied(counts: RejoinCounts, attempt: Attempt) -> RejoinCounts {
    match landed(attempt) {
        Ok(()) => RejoinCounts { joined: (counts.joined + 1) as usize, ..counts },
        Err(e) => if join_deferrable(e) {
            RejoinCounts { deferred: (counts.deferred + 1) as usize, ..counts }
        } else {
            RejoinCounts { failed: (counts.failed + 1) as usize, ..counts }
        },
    }
}

/// The counts of a run of attempts.
pub open spec fn tally(attempts: Seq<Attempt>) -> RejoinCounts
    decreases attempts.len(),
{
    if attempts.len() == 0 {
        RejoinCounts { joined: 0, deferred: 0, failed: 0 }
    } else {
        tallied(tally(attempts.drop_last()), attempts.last())
    }
}

/// The counts of a run of attempts sum to how many there were.
pub proof fn law_rejoin_counts_sum_to_the_attempts(attempts: Seq<Attempt>)
    requires
        attempts.len() <= usize::MAX,
    ensures
        tally(attempts).joined + tally(attempts).deferred + tally(attempts).failed
            == attempts.len(),
    decreases attempts.len(),
{
    if attempts.len() > 0 {
        law_rejoin_counts_sum_to_the_attempts(attempts.drop_last());
    }
}

/// Whether a failure has been reported after a run of attempts, none being reported before it.
pub open spec fn reported_through(attempts: Seq<Attempt>) -> bool
    decreases attempts.len(),
{
    attempts.len() > 0 && reported_after(reported_through(attempts.drop_last()), attempts.last())
}

/// A failure is warned of once per episode: between two warnings of one group's re-joins lies a
/// join.
pub proof fn law_a_failure_is_reported_once_per_episode(attempts: Seq<Attempt>, i: int, j: int)
    requires
        0 <= i < j < attempts.len(),
        report(reported_through(attempts.take(i)), attempts[i]) is Failed,
        report(reported_through(attempts.take(j)), attempts[j]) is Failed,
    ensures
        exists|k: int| i < k < j && landed(#[trigger] attempts[k]) is Ok,
{
    assert(attempts.take(i + 1).drop_last() =~= attempts.take(i));
    if forall|k: int| i < k < j ==> landed(#[trigger] attempts[k]) is Err {
        lemma_reported_until_joined(attempts, i + 1, j);
    }
}

/// A reported failure stays reported as long as nothing joins.
proof fn lemma_reported_until_joined(attempts: Seq<Attempt>, i: int, j: int)
    requires
        0 <= i <= j <= attempts.len(),
        reported_through(attempts.take(i)),
        forall|k: int| i <= k < j ==> landed(#[trigger] attempts[k]) is Err,
    ensures
        reported_through(attempts.take(j)),
    decreases j - i,
{
    if i < j {
        lemma_reported_until_joined(attempts, i, j - 1);
        assert(attempts.take(j).drop_last() =~= attempts.take(j - 1));
    }
}

/// One interface's memberships: which families have a socket, opened on first join, and the groups
/// wanted.
#[derive(PartialEq, Eq, Debug)]
pub struct MulticastJoiner {
    pub v4: bool,
    pub v6: bool,
    pub desired: Vec<Desired>,
    pub joins: bool,
}

/// Where the group is in the list; the list's length where it is not.
pub open spec fn wanted_at(desired: Seq<Desired>, group: IpAddr) -> int
    decreases desired.len(),
{
    if desired.len() == 0 || desired[0].group == group {
        0
    } else {
        1 + wanted_at(desired.skip(1), group)
    }
}

/// The list with the group.
pub open spec fn wanted(desired: Seq<Desired>, group: IpAddr) -> Seq<Desired> {
    if wanted_at(desired, group) < desired.len() {
        desired
    } else {
        desired.push(Desired { group, reported: false })
    }
}

/// No group is listed twice.
pub open spec fn groups_unique(desired: Seq<Desired>) -> bool {
    forall|i: int, j: int| 0 <= i < j < desired.len() ==> #[trigger] desired[i].group
        != #[trigger] desired[j].group
}

/// `wanted_at` is the group's first place.
pub proof fn lemma_wanted_at(desired: Seq<Desired>, group: IpAddr)
    ensures
        0 <= wanted_at(desired, group) <= desired.len(),
        forall|i: int|
            0 <= i < wanted_at(desired, group) ==> (#[trigger] desired[i]).group != group,
        wanted_at(desired, group) < desired.len() ==> desired[wanted_at(desired, group)].group
            == group,
    decreases desired.len(),
{
    if desired.len() > 0 && desired[0].group != group {
        let t = desired.skip(1);
        lemma_wanted_at(t, group);
        assert forall|i: int| 0 <= i < wanted_at(desired, group) implies (#[trigger]
        desired[i]).group != group by {
            if i > 0 {
                assert(desired[i] == t[i - 1]);
            }
        }
    }
}

/// Recording a group keeps each listed once, and lists it.
pub proof fn law_recorded_group_is_listed_once(desired: Seq<Desired>, group: IpAddr)
    requires
        groups_unique(desired),
    ensures
        groups_unique(wanted(desired, group)),
        wanted_at(wanted(desired, group), group) == wanted_at(desired, group),
        wanted_at(desired, group) < wanted(desired, group).len(),
        wanted(wanted(desired, group), group) == wanted(desired, group),
{
    lemma_wanted_at(desired, group);
    let t = wanted(desired, group);
    lemma_wanted_at(t, group);
    let p: int = wanted_at(desired, group);
    let q: int = wanted_at(t, group);
    if q < p {
        assert(t[q] == desired[q]);
    } else if p < q {
        assert(t[p].group == group);
    }
}

/// The list after a run of re-joins, one per group.
pub open spec fn replayed(desired: Seq<Desired>, attempts: Seq<Attempt>) -> Seq<Desired> {
    Seq::new(
        desired.len(),
        |i: int|
            if i < attempts.len() {
                Desired { reported: reported_after(desired[i].reported, attempts[i]), ..desired[i] }
            } else {
                desired[i]
            },
    )
}

/// What to log of a run of re-joins, one per group.
pub open spec fn reports(desired: Seq<Desired>, attempts: Seq<Attempt>) -> Seq<Report> {
    Seq::new(attempts.len(), |i: int| report(desired[i].reported, attempts[i]))
}

/// The group's family has a socket after the attempt.
pub open spec fn opens(group: IpAddr, attempt: Attempt, v4: bool) -> bool {
    (group is V4) == v4 && !(attempt is NoSocket)
}

/// One of the attempts opened a socket of the family.
pub open spec fn any_opens(desired: Seq<Desired>, attempts: Seq<Attempt>, v4: bool) -> bool {
    exists|i: int|
        0 <= i < attempts.len() && opens((#[trigger] desired[i]).group, attempts[i], v4)
}

/// The list after joining a group.
pub open spec fn joined_list(desired: Seq<Desired>, group: IpAddr, attempt: Attempt) -> Seq<
    Desired,
> {
    let list = wanted(desired, group);
    let i: int = wanted_at(desired, group);
    match landed(attempt) {
        Err(e) => if join_deferrable(e) {
            list
        } else {
            list.update(i, Desired { group, reported: true })
        },
        Ok(()) => list,
    }
}

/// What a joiner holds.
#[verifier::ext_equal]
pub struct Memberships {
    pub v4: bool,
    pub v6: bool,
    pub desired: Seq<Desired>,
    pub joins: bool,
}

impl View for MulticastJoiner {
    type V = Memberships;

    open spec fn view(&self) -> Memberships {
        Memberships { v4: self.v4, v6: self.v6, desired: self.desired@, joins: self.joins }
    }
}

/// Nothing joined and nothing wanted.
pub open spec fn no_memberships(joins: bool) -> Memberships {
    Memberships { v4: false, v6: false, desired: Seq::empty(), joins }
}

impl Memberships {
    /// No group is listed twice, and what joins nothing has no socket.
    pub open spec fn wf(self) -> bool {
        &&& groups_unique(self.desired)
        &&& !self.joins ==> !self.v4 && !self.v6
    }

    /// The groups that a re-join attempts.
    pub open spec fn replay(self) -> Seq<IpAddr> {
        if self.joins {
            self.desired.map_values(|d: Desired| d.group)
        } else {
            Seq::empty()
        }
    }

    /// Both join or neither does, and they want equally many groups.
    pub open spec fn wants_as_many(self, other: Memberships) -> bool {
        self.joins == other.joins && self.desired.len() == other.desired.len()
    }

    /// There is an attempt for each group, where groups are attempted at all.
    pub open spec fn takes(self, attempts: Seq<Attempt>) -> bool {
        self.joins ==> attempts.len() == self.desired.len()
    }

    /// With a group recorded.
    pub open spec fn recorded(self, group: IpAddr) -> Memberships {
        Memberships { desired: wanted(self.desired, group), ..self }
    }

    /// With a group joined, or not.
    pub open spec fn joined(self, group: IpAddr, attempt: Attempt) -> Memberships {
        if self.joins {
            Memberships {
                v4: self.v4 || opens(group, attempt, true),
                v6: self.v6 || opens(group, attempt, false),
                desired: joined_list(self.desired, group, attempt),
                ..self
            }
        } else {
            self
        }
    }

    /// With every group attempted again, if it joins any.
    pub open spec fn rejoined(self, attempts: Seq<Attempt>) -> Memberships {
        if self.joins {
            Memberships {
                v4: self.v4 || any_opens(self.desired, attempts, true),
                v6: self.v6 || any_opens(self.desired, attempts, false),
                desired: replayed(self.desired, attempts),
                ..self
            }
        } else {
            self
        }
    }

    /// How the attempts at its groups landed; nothing is attempted where it joins none.
    pub open spec fn rejoin_counts(self, attempts: Seq<Attempt>) -> RejoinCounts {
        if self.joins {
            tally(attempts)
        } else {
            RejoinCounts { joined: 0, deferred: 0, failed: 0 }
        }
    }

    /// What to log of the attempts at its groups.
    pub open spec fn rejoin_reports(self, attempts: Seq<Attempt>) -> Seq<Report> {
        if self.joins {
            reports(self.desired, attempts)
        } else {
            Seq::empty()
        }
    }

    /// With the sockets gone.
    pub open spec fn without_sockets(self) -> Memberships {
        Memberships { v4: false, v6: false, ..self }
    }
}

/// What joins nothing never opens a socket, whatever is asked of it and whatever was recorded.
pub proof fn law_what_joins_nothing_stays_so(
    m: Memberships,
    group: IpAddr,
    attempt: Attempt,
    attempts: Seq<Attempt>,
)
    requires
        m.wf(),
        !m.joins,
    ensures
        m.joined(group, attempt) == m,
        m.rejoined(attempts) == m,
        m.rejoin_counts(attempts) == (RejoinCounts { joined: 0, deferred: 0, failed: 0 }),
        m.without_sockets() == m,
        m.recorded(group).wf() && !m.recorded(group).joins,
        m.recorded(group).rejoined(attempts) == m.recorded(group),
        m.recorded(group).rejoin_counts(attempts) == m.rejoin_counts(attempts),
{
    law_recorded_group_is_listed_once(m.desired, group);
}

impl MulticastJoiner {
    pub fn new() -> (r: Self)
        ensures
            r@.wf(),
            r@ == no_memberships(true),
    {
        MulticastJoiner { v4: false, v6: false, desired: Vec::new(), joins: true }
    }

    /// Joins nothing: `--no-join`.
    pub fn inert() -> (r: Self)
        ensures
            r@.wf(),
            r@ == no_memberships(false),
    {
        let r = MulticastJoiner { v4: false, v6: false, desired: Vec::new(), joins: false };
        assert(r@ =~= no_memberships(false));
        r
    }

    /// No family socket is open: nothing joined since the last reset.
    pub fn is_socketless(&self) -> (r: bool)
        ensures
            r == (!self@.v4 && !self@.v6),
    {
        !self.v4 && !self.v6
    }

    /// Record `group` for a later [`rejoin`](Self::rejoin) without joining: the parked-interface
    /// path. Returns its index in the desired list.
    pub fn record(&mut self, group: IpAddr) -> (r: usize)
        requires
            old(self)@.wf(),
        ensures
            final(self)@.wf(),
            final(self)@ == old(self)@.recorded(group),
            r == wanted_at(old(self)@.desired, group),
            r < final(self)@.desired.len(),
    {
        proof {
            lemma_wanted_at(self.desired@, group);
            law_recorded_group_is_listed_once(self.desired@, group);
        }
        let mut i: usize = 0;
        while i < self.desired.len()
            invariant
                *self == *old(self),
                old(self)@.wf(),
                i <= self.desired@.len(),
                i <= wanted_at(self.desired@, group) <= self.desired@.len(),
                wanted_at(self.desired@, group) < self.desired@.len() ==> self.desired@[wanted_at(
                    self.desired@,
                    group,
                )].group == group,
                forall|j: int|
                    0 <= j < wanted_at(self.desired@, group) ==> (#[trigger] self.desired@[j]).group
                        != group,
                groups_unique(wanted(self.desired@, group)),
            decreases self.desired@.len() - i,
        {
            if self.desired[i].group == group {
                return i;
            }
            i += 1;
        }
        self.desired.push(Desired { group, reported: false });
        self.desired.len() - 1
    }

    /// Whether the family of `group` has a socket; a join opens one where it has not.
    pub fn has_socket(&self, group: IpAddr) -> (r: bool)
        ensures
            r == (if group is V4 {
                self@.v4
            } else {
                self@.v6
            }),
    {
        match group {
            IpAddr::V4(_) => self.v4,
            IpAddr::V6(_) => self.v6,
        }
    }

    /// Take what came of asking the kernel.
    fn apply(&mut self, group: IpAddr, attempt: Attempt) -> (r: Result<(), Errno>)
        ensures
            r == landed(attempt),
            final(self).v4 == (old(self).v4 || opens(group, attempt, true)),
            final(self).v6 == (old(self).v6 || opens(group, attempt, false)),
            final(self).desired == old(self).desired,
            final(self).joins == old(self).joins,
    {
        if let Attempt::NoSocket(e) = attempt {
            return Err(e);
        }
        match group {
            IpAddr::V4(_) => {
                self.v4 = true;
            },
            IpAddr::V6(_) => {
                self.v6 = true;
            },
        }
        match attempt {
            Attempt::Refused(e) => if already_member(e) {
                Ok(())
            } else {
                Err(e)
            },
            _ => Ok(()),
        }
    }

    /// Join `group` and record it for later replays. Idempotent: the kernel keys memberships by
    /// group and interface. A joiner that joins nothing is not to be asked for: whatever the attempt
    /// says, nothing changes. An error other than a deferral is marked reported: the caller's log is
    /// the report, and the replay repeats it at debug.
    pub fn join(&mut self, group: IpAddr, attempt: Attempt) -> (r: Result<(), Errno>)
        requires
            old(self)@.wf(),
        ensures
            final(self)@.wf(),
            final(self)@ == old(self)@.joined(group, attempt),
            r == (if old(self)@.joins {
                landed(attempt)
            } else {
                Ok(())
            }),
    {
        if !self.joins {
            return Ok(());
        }
        let index: usize = self.record(group);
        let result = self.apply(group, attempt);
        proof {
            law_recorded_group_is_listed_once(old(self).desired@, group);
            lemma_wanted_at(self.desired@, group);
        }
        if let Err(e) = result {
            if !join_deferrable(e) {
                let d = self.desired[index];
                self.desired.set(index, Desired { group: d.group, reported: true });
            }
        }
        assert(self@ =~= old(self)@.joined(group, attempt));
        result
    }

    /// Forget the sockets so the next join starts fresh. Memberships keyed to a destroyed
    /// interface's index are never scrubbed from a surviving socket, and on Linux still count toward
    /// `igmp_max_memberships`; dropping them releases them all. `desired` survives for the replay.
    pub fn reset(&mut self)
        ensures
            final(self)@ == old(self)@.without_sockets(),
    {
        self.v4 = false;
        self.v6 = false;
    }

    /// The groups that a [`rejoin`](Self::rejoin) is to ask for, in order; none where it joins
    /// nothing.
    pub fn replay(&self) -> (r: Vec<IpAddr>)
        ensures
            r@ == self@.replay(),
    {
        let mut out: Vec<IpAddr> = Vec::new();
        if !self.joins {
            return out;
        }
        let mut i: usize = 0;
        while i < self.desired.len()
            invariant
                i <= self.desired@.len(),
                out@ == self.desired@.take(i as int).map_values(|d: Desired| d.group),
            decreases self.desired@.len() - i,
        {
            out.push(self.desired[i].group);
            assert(out@ =~= self.desired@.take(i as int + 1).map_values(|d: Desired| d.group));
            i += 1;
        }
        assert(self.desired@.take(i as int) =~= self.desired@);
        out
    }

    /// Re-attempt every recorded membership, `attempts` saying what came of each in order. A
    /// deferrable failure is logged at debug (its address event is coming); anything else is warned
    /// of once per failure episode, and its end is logged when the group finally joins. A joiner that
    /// joins nothing attempts nothing, whatever was recorded.
    pub fn rejoin(&mut self, attempts: &Vec<Attempt>) -> (r: (RejoinCounts, Vec<Report>))
        requires
            old(self)@.wf(),
            old(self)@.takes(attempts@),
        ensures
            final(self)@.wf(),
            final(self)@ == old(self)@.rejoined(attempts@),
            r.0 == old(self)@.rejoin_counts(attempts@),
            r.0.joined + r.0.deferred + r.0.failed == (if old(self)@.joins {
                old(self)@.desired.len()
            } else {
                0
            }),
            r.1@ == old(self)@.rejoin_reports(attempts@),
    {
        let mut counts = RejoinCounts::default();
        let mut out: Vec<Report> = Vec::new();
        if !self.joins {
            return (counts, out);
        }
        let mut i: usize = 0;
        let ghost before = self.desired@;
        assert(self.desired@ =~= replayed(before, attempts@.take(0)));
        while i < attempts.len()
            invariant
                i <= attempts@.len(),
                before == old(self).desired@,
                groups_unique(before),
                attempts@.len() == before.len(),
                counts == tally(attempts@.take(i as int)),
                self.desired@ == replayed(before, attempts@.take(i as int)),
                out@ == reports(before, attempts@.take(i as int)),
                self.v4 == (old(self).v4 || any_opens(before, attempts@.take(i as int), true)),
                self.v6 == (old(self).v6 || any_opens(before, attempts@.take(i as int), false)),
                self.joins == old(self).joins,
            decreases attempts@.len() - i,
        {
            let ghost done = attempts@.take(i as int);
            let ghost more = attempts@.take(i as int + 1);
            proof {
                assert(more.drop_last() =~= done);
                assert(more.last() == attempts@[i as int]);
                assert(attempts.len() == attempts@.len());
                law_rejoin_counts_sum_to_the_attempts(done);
            }
            let group = self.desired[i].group;
            let reported = self.desired[i].reported;
            let attempt = attempts[i];
            match self.apply(group, attempt) {
                Ok(()) => {
                    counts.joined += 1;
                    if reported {
                        self.desired.set(i, Desired { group, reported: false });
                        out.push(Report::Recovered);
                    } else {
                        out.push(Report::Quiet);
                    }
                },
                Err(e) => {
                    if join_deferrable(e) {
                        counts.deferred += 1;
                        out.push(Report::Deferred(e));
                    } else {
                        counts.failed += 1;
                        if reported {
                            out.push(Report::StillFailing(e));
                        } else {
                            self.desired.set(i, Desired { group, reported: true });
                            out.push(Report::Failed(e));
                        }
                    }
                },
            }
            proof {
                assert(self.desired@ =~= replayed(before, more));
                assert(out@ =~= reports(before, more));
                lemma_any_opens(before, attempts@, i as int, true);
                lemma_any_opens(before, attempts@, i as int, false);
            }
            i += 1;
        }
        proof {
            assert(attempts@.take(i as int) =~= attempts@);
            assert(attempts.len() == attempts@.len());
            law_rejoin_counts_sum_to_the_attempts(attempts@);
        }
        proof {
            assert(self@ =~= old(self)@.rejoined(attempts@));
        }
        (counts, out)
    }
}

/// Whether any of the first `i + 1` attempts opened a socket.
proof fn lemma_any_opens(desired: Seq<Desired>, attempts: Seq<Attempt>, i: int, v4: bool)
    requires
        0 <= i < attempts.len(),
    ensures
        any_opens(desired, attempts.take(i + 1), v4) == (any_opens(desired, attempts.take(i), v4)
            || opens(desired[i].group, attempts[i], v4)),
{
    let a = attempts.take(i);
    let b = attempts.take(i + 1);
    if any_opens(desired, a, v4) {
        let k: int = choose|k: int|
            0 <= k < a.len() && opens((#[trigger] desired[k]).group, a[k], v4);
        assert(opens(desired[k].group, b[k], v4));
    }
    if opens(desired[i].group, attempts[i], v4) {
        assert(opens(desired[i].group, b[i], v4));
    }
    if any_opens(desired, b, v4) {
        let k: int = choose|k: int|
            0 <= k < b.len() && opens((#[trigger] desired[k]).group, b[k], v4);
        if k < i {
            assert(opens(desired[k].group, a[k], v4));
        }
    }
}

/// The attempt left the group joined: the kernel joined it, or held the membership already.
pub open spec fn is_joined(a: Attempt) -> bool {
    a == Attempt::Joined || a == Attempt::Refused(Errno::AddrInUse)
}

/// The attempt found no address of the group's family.
pub open spec fn is_deferred(a: Attempt) -> bool {
    a == Attempt::Refused(Errno::AddrNotAvailable) || a == Attempt::NoSocket(
        Errno::AddrNotAvailable,
    )
}

/// The counts are how many attempts left their group joined, found no address yet, and failed otherwise.
pub proof fn law_each_attempt_is_counted_as_what_it_came_to(attempts: Seq<Attempt>)
    requires
        attempts.len() <= usize::MAX,
    ensures
        tally(attempts).joined == attempts.filter(|a: Attempt| is_joined(a)).len(),
        tally(attempts).deferred == attempts.filter(|a: Attempt| is_deferred(a)).len(),
        tally(attempts).failed == attempts.filter(
            |a: Attempt| !is_joined(a) && !is_deferred(a),
        ).len(),
    decreases attempts.len(),
{
    reveal(Seq::filter);
    law_rejoin_counts_sum_to_the_attempts(attempts);
    if attempts.len() > 0 {
        law_each_attempt_is_counted_as_what_it_came_to(attempts.drop_last());
        law_rejoin_counts_sum_to_the_attempts(attempts.drop_last());
    }
}

/// What is logged of a re-join: that it came back, once, after a failure that was reported; that it waits
/// for an address; and a failure, loud the first time. A failure stays reported until the group joins,
/// and waiting for an address is none.
pub proof fn law_what_is_logged_of_a_rejoin(reported: bool, a: Attempt)
    ensures
        report(reported, a) is Quiet <==> is_joined(a) && !reported,
        report(reported, a) is Recovered <==> is_joined(a) && reported,
        report(reported, a) is Deferred <==> is_deferred(a),
        report(reported, a) is Failed <==> !is_joined(a) && !is_deferred(a) && !reported,
        report(reported, a) is StillFailing <==> !is_joined(a) && !is_deferred(a) && reported,
        reported_after(reported, a) <==> !is_joined(a) && (reported || !is_deferred(a)),
{
}

/// A re-join leaves a family's socket where there was one, and opens one where an attempt at a group of
/// that family got as far as the kernel; the groups stay what they were.
pub proof fn law_a_rejoin_keeps_the_groups(m: Memberships, attempts: Seq<Attempt>)
    requires
        m.joins,
        attempts.len() == m.desired.len(),
    ensures
        ({
            let after = m.rejoined(attempts);
            &&& after.joins
            &&& after.desired.len() == m.desired.len()
            &&& forall|i: int|
                0 <= i < m.desired.len() ==> (#[trigger] after.desired[i]).group
                    == m.desired[i].group
            &&& after.v4 <==> m.v4 || exists|i: int|
                0 <= i < attempts.len() && m.desired[i].group is V4 && !((#[trigger] attempts[i])
                    is NoSocket)
            &&& after.v6 <==> m.v6 || exists|i: int|
                0 <= i < attempts.len() && m.desired[i].group is V6 && !((#[trigger] attempts[i])
                    is NoSocket)
        }),
{
    let after = m.rejoined(attempts);
    if any_opens(m.desired, attempts, true) {
        let i: int = choose|i: int|
            0 <= i < attempts.len() && opens((#[trigger] m.desired[i]).group, attempts[i], true);
        assert(!(attempts[i] is NoSocket));
    }
    if any_opens(m.desired, attempts, false) {
        let i: int = choose|i: int|
            0 <= i < attempts.len() && opens((#[trigger] m.desired[i]).group, attempts[i], false);
        assert(!(attempts[i] is NoSocket));
    }
    if exists|i: int|
        0 <= i < attempts.len() && m.desired[i].group is V4 && !((#[trigger] attempts[i])
            is NoSocket) {
        let i: int = choose|i: int|
            0 <= i < attempts.len() && m.desired[i].group is V4 && !((#[trigger] attempts[i])
                is NoSocket);
        assert(opens(m.desired[i].group, attempts[i], true));
    }
    if exists|i: int|
        0 <= i < attempts.len() && m.desired[i].group is V6 && !((#[trigger] attempts[i])
            is NoSocket) {
        let i: int = choose|i: int|
            0 <= i < attempts.len() && m.desired[i].group is V6 && !((#[trigger] attempts[i])
                is NoSocket);
        assert(opens(m.desired[i].group, attempts[i], false));
    }
}

/// Joining a group records it where it was not, leaves every other as it was, and marks it as reported
/// where it failed for another reason than the want of an address.
pub proof fn law_joining_records_the_group(m: Memberships, group: IpAddr, a: Attempt)
    requires
        m.wf(),
        m.joins,
    ensures
        ({
            let after = m.joined(group, a);
            &&& exists|i: int| 0 <= i < after.desired.len() && (#[trigger] after.desired[i]).group
                == group
            &&& forall|i: int|
                0 <= i < m.desired.len() && (#[trigger] m.desired[i]).group != group
                    ==> after.desired[i] == m.desired[i]
            &&& after.desired.len() <= m.desired.len() + 1
            &&& forall|i: int|
                0 <= i < after.desired.len() && (#[trigger] after.desired[i]).group == group
                    && !is_joined(a) && !is_deferred(a) ==> after.desired[i].reported
            &&& after.v4 <==> m.v4 || (group is V4 && !(a is NoSocket))
            &&& after.v6 <==> m.v6 || (group is V6 && !(a is NoSocket))
        }),
{
    lemma_wanted_at(m.desired, group);
    let after = m.joined(group, a);
    let p: int = wanted_at(m.desired, group);
    assert(after.desired[p].group == group);
    assert forall|i: int|
        0 <= i < after.desired.len() && (#[trigger] after.desired[i]).group == group && !is_joined(a)
            && !is_deferred(a) implies after.desired[i].reported by {
        if i != p && p < m.desired.len() {
            assert(m.desired[i].group == group);
            assert(m.desired[i].group != m.desired[p].group);
        }
        if i != p && p == m.desired.len() {
            assert(m.desired[i].group != group);
        }
    }
}

} // verus!
