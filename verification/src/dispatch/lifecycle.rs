//! Interface lifecycle: keeping the table current as addresses change and as the kernel destroys and
//! recreates interfaces. The monitor drain refreshes what a notification names; the reconcile
//! re-points a stale entry at its name's current interface (or parks it absent) and re-binds its
//! captures in place.
//!
//! Instants are nanoseconds on the monotonic clock.

use vstd::prelude::*;

use crate::dispatch::interface_table;
use crate::dispatch::interface_table::repair;
use crate::dispatch::interface_table::{
    Answer, InterfaceKey, InterfaceTable, Link, Refreshed, Said, StaleInterface, Table,
};
use crate::dispatch::multicast::{Attempt, RejoinCounts, Report};
use crate::dispatch::CaptureKey;
use crate::errno::Errno;
use crate::interface::interface_monitor::InterfaceEvent;
use crate::interface::Resolved;
use crate::linear_map;
use crate::linear_map::LinearMap;
use crate::net::LinkType;
use crate::number;
use crate::text;

pub mod laws;

verus! {

/// The reconcile's periodic floor: an interface recreation whose every event was lost (macOS's
/// silent route-socket overflow) is still detected.
pub const RECONCILE_TICK: u64 = 30_000_000_000;

/// The reconcile cadence while an interface is parked absent or a rebuild step failed.
pub const RECONCILE_RETRY: u64 = 1_000_000_000;

/// What a monitor drain found, as the captures on the interfaces concerned.
#[derive(Debug)]
pub struct Changes {
    /// The interface moved (or failed to re-resolve) its IPv4 address; DIAL proxies bind v4.
    pub v4_moved: Vec<CaptureKey>,
    /// The interface moved an address of either family.
    pub touched: Vec<CaptureKey>,
    /// An event that can announce a destroyed or recreated interface arrived.
    pub reconcile: bool,
    /// What came of each refresh, for the log.
    pub refreshed: Vec<Refreshed>,
}

/// One interface the reconcile rebuilt (or parked absent), with its captures.
#[derive(Debug)]
pub struct Rebuilt {
    pub captures: Vec<CaptureKey>,
    pub removed: bool,
    /// Every step of the rebuild succeeded, and the recovery was counted.
    pub complete: bool,
    /// How the re-joins landed, or why the interface did not resolve.
    pub counts: Result<RejoinCounts, Errno>,
    /// The log lines of the addresses that changed.
    pub lines: Vec<String>,
    /// What to log of each re-join.
    pub reports: Vec<Report>,
}

/// What the events of one wakeup come to.
pub struct Collected {
    /// Each kernel index, and whether a Link event named it.
    pub changed: LinearMap<u32, bool>,
    pub overflow: bool,
}

/// The indexes with one event more.
pub open spec fn noted(changed: Seq<(u32, bool)>, event: InterfaceEvent) -> Seq<(u32, bool)> {
    match event {
        InterfaceEvent::Overflow => changed,
        InterfaceEvent::Address(ifindex) => linear_map::put(
            changed,
            ifindex,
            linear_map::lookup(changed, ifindex) == Some(true),
        ),
        InterfaceEvent::Link(ifindex) => linear_map::put(changed, ifindex, true),
    }
}

/// The indexes of a run of events, in the order they were first named, each with whether a Link
/// event named it.
pub open spec fn indexes(events: Seq<InterfaceEvent>) -> Seq<(u32, bool)>
    decreases events.len(),
{
    if events.len() == 0 {
        Seq::empty()
    } else {
        noted(indexes(events.drop_last()), events.last())
    }
}

/// Each index is listed once.
pub proof fn law_each_index_is_listed_once(events: Seq<InterfaceEvent>)
    ensures
        linear_map::unique(indexes(events)),
    decreases events.len(),
{
    if events.len() > 0 {
        law_each_index_is_listed_once(events.drop_last());
        let before = indexes(events.drop_last());
        match events.last() {
            InterfaceEvent::Overflow => {},
            InterfaceEvent::Address(ifindex) => linear_map::law_put_keeps_keys_unique(
                before,
                ifindex,
                linear_map::lookup(before, ifindex) == Some(true),
            ),
            InterfaceEvent::Link(ifindex) => linear_map::law_put_keeps_keys_unique(
                before,
                ifindex,
                true,
            ),
        }
    }
}

/// Collect the events of one wakeup: each index once, and whether any event was an overflow.
pub fn collect(events: &Vec<InterfaceEvent>) -> (r: Collected)
    ensures
        r.changed.entries@ == indexes(events@),
        r.overflow == events@.contains(InterfaceEvent::Overflow),
{
    let mut changed: LinearMap<u32, bool> = LinearMap::new();
    let mut overflow = false;
    let mut i: usize = 0;
    while i < events.len()
        invariant
            i <= events@.len(),
            changed.entries@ == indexes(events@.take(i as int)),
            overflow == events@.take(i as int).contains(InterfaceEvent::Overflow),
        decreases events@.len() - i,
    {
        let ghost done = events@.take(i as int);
        let ghost more = events@.take(i as int + 1);
        proof {
            assert(more.drop_last() =~= done);
            assert(more.last() == events@[i as int]);
            assert(more =~= done.push(events@[i as int]));
            if done.contains(InterfaceEvent::Overflow) {
                let k: int = choose|k: int| 0 <= k < done.len() && done[k] == InterfaceEvent::Overflow;
                assert(more[k] == InterfaceEvent::Overflow);
            }
            if events@[i as int] == InterfaceEvent::Overflow {
                assert(more[i as int] == InterfaceEvent::Overflow);
            } else if more.contains(InterfaceEvent::Overflow) {
                let k: int = choose|k: int| 0 <= k < more.len() && more[k] == InterfaceEvent::Overflow;
                assert(done[k] == InterfaceEvent::Overflow);
            }
        }
        match events[i] {
            InterfaceEvent::Overflow => {
                overflow = true;
            },
            InterfaceEvent::Address(ifindex) => {
                let was: bool = match changed.get(&ifindex) {
                    Some(link) => *link,
                    None => false,
                };
                let _ = changed.insert(ifindex, was);
            },
            InterfaceEvent::Link(ifindex) => {
                let _ = changed.insert(ifindex, true);
            },
        }
        i += 1;
    }
    assert(events@.take(i as int) =~= events@);
    Collected { changed, overflow }
}

/// The largest of a ceiling and the indexes.
pub open spec fn raised(ceiling: u32, changed: Seq<(u32, bool)>) -> u32
    decreases changed.len(),
{
    if changed.len() == 0 {
        ceiling
    } else {
        let before = raised(ceiling, changed.drop_last());
        if changed.last().0 > before {
            changed.last().0
        } else {
            before
        }
    }
}

/// How a platform's monitor behaves.
#[derive(Clone, Copy, PartialEq, Eq, Structural, Debug)]
pub struct Platform {
    /// A new interface never gets an index that an earlier one had.
    pub indexes_monotonic: bool,
    /// The monitor announces interfaces coming and going.
    pub lifecycle_events: bool,
}

/// What a drain has come to.
#[verifier::ext_equal]
pub struct Drained {
    pub table: Table,
    pub v4_moved: Seq<u32>,
    pub touched: Seq<u32>,
    pub reconcile: bool,
    pub said: Seq<Said>,
}

/// `s`, and `x` if `more`.
pub open spec fn also(s: Seq<u32>, x: u32, more: bool) -> Seq<u32> {
    if more {
        s.push(x)
    } else {
        s
    }
}

/// A change of the IPv4 address; one that could not be confirmed to have survived counts as moved.
pub open spec fn moved_v4(link: Link, refreshed: Result<Resolved, Errno>) -> bool {
    match link.change(refreshed) {
        Ok(change) => change.v4,
        Err(_) => true,
    }
}

/// A change of an address of either family.
pub open spec fn moved(link: Link, refreshed: Result<Resolved, Errno>) -> bool {
    match link.change(refreshed) {
        Ok(change) => change.v4 || change.v6,
        Err(_) => true,
    }
}

/// An event on an index that no watched interface has announces one of ours, recreated. With
/// monotonic indexes a Link event above the ceiling is a creation; where indexes are reused, any
/// Link event reconciles; without lifecycle events, any event does.
pub open spec fn may_be_ours(ifindex: u32, is_link: bool, ceiling: u32, platform: Platform) -> bool {
    !platform.lifecycle_events || is_link && (platform.indexes_monotonic ==> ifindex > ceiling)
}

impl Drained {
    /// With one more index refreshed.
    pub open spec fn with(
        self,
        ifindex: u32,
        is_link: bool,
        refreshed: Result<Resolved, Errno>,
        attempts: Seq<Attempt>,
        bound: Seq<Option<u32>>,
        ceiling: u32,
        platform: Platform,
    ) -> Drained {
        let i: int = interface_table::at_ifindex(self.table.links, ifindex);
        if i < self.table.links.len() {
            let link = self.table.links[i];
            let table = if refreshed is Ok {
                self.table.with_link(i, link.resolved(refreshed).rejoined(attempts))
            } else {
                self.table
            };
            Drained {
                table,
                v4_moved: also(self.v4_moved, ifindex, moved_v4(link, refreshed)),
                touched: also(self.touched, ifindex, moved(link, refreshed)),
                reconcile: self.reconcile || is_link || refreshed is Err || !table.attached(
                    ifindex,
                    bound,
                ),
                said: self.said.push(link.said(refreshed, attempts, refreshed is Ok)),
            }
        } else {
            Drained {
                reconcile: self.reconcile || may_be_ours(ifindex, is_link, ceiling, platform),
                ..self
            }
        }
    }
}

/// The first `n` indexes refreshed.
pub open spec fn drained(
    table: Table,
    changed: Seq<(u32, bool)>,
    answers: Seq<Answer>,
    bound: Seq<Option<u32>>,
    ceiling: u32,
    platform: Platform,
    n: nat,
) -> Drained
    decreases n,
{
    if n == 0 {
        Drained {
            table,
            v4_moved: Seq::empty(),
            touched: Seq::empty(),
            reconcile: false,
            said: Seq::empty(),
        }
    } else {
        drained(table, changed, answers, bound, ceiling, platform, (n - 1) as nat).with(
            changed[n - 1].0,
            changed[n - 1].1,
            answers[n - 1].refreshed,
            answers[n - 1].attempts@,
            bound,
            ceiling,
            platform,
        )
    }
}

/// The indexes of the first `n` interfaces that moved their IPv4 address, or any if `!v4`.
pub open spec fn moved_among(links: Seq<Link>, answers: Seq<Answer>, v4: bool, n: nat) -> Seq<u32>
    decreases n,
{
    if n == 0 {
        Seq::empty()
    } else {
        also(
            moved_among(links, answers, v4, (n - 1) as nat),
            links[n - 1].ifindex,
            if v4 {
                moved_v4(links[n - 1], answers[n - 1].refreshed)
            } else {
                moved(links[n - 1], answers[n - 1].refreshed)
            },
        )
    }
}

/// Every interface refreshed: the overflow response.
pub open spec fn drained_all(table: Table, answers: Seq<Answer>) -> Drained {
    Drained {
        table: Table {
            links: Seq::new(
                table.links.len(),
                |i: int|
                    table.links[i].resolved(answers[i].refreshed).rejoined(answers[i].attempts@),
            ),
            ..table
        },
        v4_moved: moved_among(table.links, answers, true, table.links.len()),
        touched: moved_among(table.links, answers, false, table.links.len()),
        reconcile: true,
        said: Seq::new(
            table.links.len(),
            |i: int| table.links[i].said(answers[i].refreshed, answers[i].attempts@, true),
        ),
    }
}

/// The captures at each of the indexes, in order.
pub open spec fn captures_among(table: Table, ifindexes: Seq<u32>) -> Seq<CaptureKey>
    decreases ifindexes.len(),
{
    if ifindexes.len() == 0 {
        Seq::empty()
    } else {
        captures_among(table, ifindexes.drop_last()) + table.keys_at(ifindexes.last())
    }
}

fn captures_for(table: &InterfaceTable, ifindexes: &Vec<u32>) -> (r: Vec<CaptureKey>)
    requires
        table@.wf(),
    ensures
        r@ == captures_among(table@, ifindexes@),
{
    let mut out: Vec<CaptureKey> = Vec::new();
    let mut i: usize = 0;
    while i < ifindexes.len()
        invariant
            table@.wf(),
            i <= ifindexes@.len(),
            out@ == captures_among(table@, ifindexes@.take(i as int)),
        decreases ifindexes@.len() - i,
    {
        assert(ifindexes@.take(i as int + 1).drop_last() =~= ifindexes@.take(i as int));
        let mut keys = table.captures_at_ifindex(ifindexes[i]);
        out.append(&mut keys);
        i += 1;
    }
    assert(ifindexes@.take(i as int) =~= ifindexes@);
    out
}

impl Changes {
    /// These are the changes that a drain came to.
    pub open spec fn are(self, d: Drained) -> bool {
        &&& self.v4_moved@ == captures_among(d.table, d.v4_moved)
        &&& self.touched@ == captures_among(d.table, d.touched)
        &&& self.reconcile == d.reconcile
        &&& self.refreshed@.len() == d.said.len()
        &&& forall|i: int|
            0 <= i < d.said.len() ==> (#[trigger] self.refreshed@[i])@ == d.said[i]
    }
}

#[derive(Debug)]
pub struct InterfaceLifecycle {
    /// `None` is a degraded mode: addresses stay at their startup values.
    pub monitor_fd: Option<i32>,
    /// The largest kernel ifindex seen. Where indexes are monotonic, an unknown-index Link event at
    /// or below this is churn on an unwatched interface, not a creation.
    pub max_seen_ifindex: u32,
    pub next_reconcile: u64,
}

impl InterfaceLifecycle {
    /// The monitor is opened before the first capture resolves, so a change during startup is queued
    /// rather than missed.
    pub fn new(monitor_fd: Option<i32>, now: u64) -> (r: Self)
        requires
            now + RECONCILE_TICK <= u64::MAX,
        ensures
            r.monitor_fd == monitor_fd,
            r.max_seen_ifindex == 0,
            r.next_reconcile == now + RECONCILE_TICK,
    {
        InterfaceLifecycle {
            monitor_fd,
            max_seen_ifindex: 0,
            next_reconcile: now + RECONCILE_TICK,
        }
    }

    pub fn saw_interface(&mut self, ifindex: u32)
        ensures
            final(self).max_seen_ifindex == (if ifindex > old(self).max_seen_ifindex {
                ifindex
            } else {
                old(self).max_seen_ifindex
            }),
            final(self).monitor_fd == old(self).monitor_fd,
            final(self).next_reconcile == old(self).next_reconcile,
    {
        if ifindex > self.max_seen_ifindex {
            self.max_seen_ifindex = ifindex;
        }
    }

    pub fn next_reconcile(&self) -> (r: u64)
        ensures
            r == self.next_reconcile,
    {
        self.next_reconcile
    }

    pub fn reconcile_now(&mut self, now: u64)
        ensures
            final(self).next_reconcile == now,
            final(self).monitor_fd == old(self).monitor_fd,
            final(self).max_seen_ifindex == old(self).max_seen_ifindex,
    {
        self.next_reconcile = now;
    }

    /// Raise the ceiling to the largest of the indexes.
    fn saw_all(&mut self, changed: &Vec<(u32, bool)>)
        ensures
            final(self).max_seen_ifindex == raised(old(self).max_seen_ifindex, changed@),
            final(self).monitor_fd == old(self).monitor_fd,
            final(self).next_reconcile == old(self).next_reconcile,
    {
        let mut i: usize = 0;
        while i < changed.len()
            invariant
                i <= changed@.len(),
                self.max_seen_ifindex == raised(
                    old(self).max_seen_ifindex,
                    changed@.take(i as int),
                ),
                self.monitor_fd == old(self).monitor_fd,
                self.next_reconcile == old(self).next_reconcile,
            decreases changed@.len() - i,
        {
            assert(changed@.take(i as int + 1).drop_last() =~= changed@.take(i as int));
            let (ifindex, _) = changed[i];
            self.saw_interface(ifindex);
            i += 1;
        }
        assert(changed@.take(i as int) =~= changed@);
    }

    /// Take the events of a wakeup and re-resolve each interface a notification names, once per
    /// interface, `answers` saying what came of each; an overflow re-resolves every interface, with
    /// an answer for each. Best-effort: a failure keeps the last-known addresses. `bound` is the
    /// kernel index each capture is bound to. [`Changes::reconcile`] is set by anything that can
    /// announce a destroyed or recreated interface: a Link event on a watched interface, an unknown
    /// index that reads as a creation, an overflow, or a capture whose kernel binding died behind a
    /// matched index. The ceiling is compared before this batch raises it, or a creation's own Link
    /// event would slip past.
    pub fn drain(
        &mut self,
        table: &mut InterfaceTable,
        events: &Collected,
        answers: &Vec<Answer>,
        bound: &Vec<Option<u32>>,
        platform: Platform,
    ) -> (r: Changes)
        requires
            old(table)@.wf(),
            bound@.len() == old(table)@.rows.len(),
            events.overflow ==> answers_fit_all(old(table)@, answers@),
            !events.overflow ==> answers_fit(old(table)@, events.changed.entries@, answers@),
        ensures
            final(table)@.wf(),
            final(self).max_seen_ifindex == raised(
                old(self).max_seen_ifindex,
                events.changed.entries@,
            ),
            final(self).monitor_fd == old(self).monitor_fd,
            final(self).next_reconcile == old(self).next_reconcile,
            ({
                let d = if events.overflow {
                    drained_all(old(table)@, answers@)
                } else {
                    drained(
                        old(table)@,
                        events.changed.entries@,
                        answers@,
                        bound@,
                        old(self).max_seen_ifindex,
                        platform,
                        events.changed.entries@.len(),
                    )
                };
                final(table)@ == d.table && r.are(d)
            }),
    {
        let prior_ceiling: u32 = self.max_seen_ifindex;
        self.saw_all(&events.changed.entries);
        if events.overflow {
            refresh_every(table, answers)
        } else {
            refresh_named(table, &events.changed, answers, bound, prior_ceiling, platform)
        }
    }
}

/// There is an answer for each interface, with an attempt for each of its groups.
pub open spec fn answers_fit_all(t: Table, answers: Seq<Answer>) -> bool {
    &&& answers.len() == t.links.len()
    &&& forall|i: int|
        0 <= i < t.links.len() && (#[trigger] t.links[i]).ifindex != 0
            ==> t.links[i].joiner.takes(answers[i].attempts@)
}

/// There is an answer for each index, with an attempt for each group of the interface there.
pub open spec fn answers_fit(t: Table, changed: Seq<(u32, bool)>, answers: Seq<Answer>) -> bool {
    &&& answers.len() == changed.len()
    &&& forall|k: int|
        0 <= k < changed.len() ==> {
            let i: int = interface_table::at_ifindex(t.links, (#[trigger] changed[k]).0);
            i < t.links.len() && answers[k].refreshed is Ok && changed[k].0 != 0
                ==> t.links[i].joiner.takes(answers[k].attempts@)
        }
}

/// Re-resolve every interface.
fn refresh_every(table: &mut InterfaceTable, answers: &Vec<Answer>) -> (r: Changes)
    requires
        old(table)@.wf(),
        answers_fit_all(old(table)@, answers@),
    ensures
        final(table)@.wf(),
        final(table)@ == drained_all(old(table)@, answers@).table,
        r.are(drained_all(old(table)@, answers@)),
{
    let ghost before = table@;
    let ghost d = drained_all(before, answers@);
    let refreshed = table.refresh_all(answers);
    assert(table@ =~= d.table);
    let mut v4_moved: Vec<u32> = Vec::new();
    let mut touched: Vec<u32> = Vec::new();
    let mut i: usize = 0;
    while i < refreshed.len()
        invariant
            i <= refreshed@.len(),
            refreshed@.len() == before.links.len(),
            answers@.len() == before.links.len(),
            forall|j: int|
                0 <= j < before.links.len() ==> (#[trigger] refreshed@[j])@
                    == before.links[j].said(answers@[j].refreshed, answers@[j].attempts@, true),
            v4_moved@ == moved_among(before.links, answers@, true, i as nat),
            touched@ == moved_among(before.links, answers@, false, i as nat),
        decreases refreshed@.len() - i,
    {
        let ifindex: u32 = refreshed[i].ifindex;
        assert(refreshed@[i as int]@.ifindex == ifindex);
        assert(refreshed@[i as int]@.change == refreshed@[i as int].change);
        match &refreshed[i].change {
            Ok(change) => {
                if change.v4 {
                    v4_moved.push(ifindex);
                }
                if change.v4 || change.v6 {
                    touched.push(ifindex);
                }
            },
            Err(_) => {
                v4_moved.push(ifindex);
                touched.push(ifindex);
            },
        }
        i += 1;
    }
    Changes {
        v4_moved: captures_for(table, &v4_moved),
        touched: captures_for(table, &touched),
        reconcile: true,
        refreshed,
    }
}

/// A table's interfaces keep their indexes and their wanted groups.
pub open spec fn same_identities(a: Table, b: Table) -> bool {
    &&& a.links.len() == b.links.len()
    &&& a.rows == b.rows
    &&& forall|i: int|
        0 <= i < a.links.len() ==> (#[trigger] a.links[i]).ifindex == b.links[i].ifindex
            && a.links[i].joiner.wants_as_many(b.links[i].joiner)
}

/// The first interface at an index is the same where the indexes are.
proof fn lemma_same_place(a: Seq<Link>, b: Seq<Link>, ifindex: u32)
    requires
        a.len() == b.len(),
        forall|i: int| 0 <= i < a.len() ==> (#[trigger] a[i]).ifindex == b[i].ifindex,
    ensures
        interface_table::at_ifindex(a, ifindex) == interface_table::at_ifindex(b, ifindex),
{
    interface_table::lemma_at_ifindex(a, ifindex);
    interface_table::lemma_at_ifindex(b, ifindex);
    let p: int = interface_table::at_ifindex(a, ifindex);
    let q: int = interface_table::at_ifindex(b, ifindex);
    if p < q {
        assert(a[p].ifindex == b[p].ifindex);
    } else if q < p {
        assert(a[q].ifindex == b[q].ifindex);
    }
}

/// A drain keeps the interfaces' indexes and their wanted groups.
proof fn lemma_drained_identities(
    table: Table,
    changed: Seq<(u32, bool)>,
    answers: Seq<Answer>,
    bound: Seq<Option<u32>>,
    ceiling: u32,
    platform: Platform,
    n: nat,
)
    requires
        n <= changed.len(),
    ensures
        same_identities(
            table,
            drained(table, changed, answers, bound, ceiling, platform, n).table,
        ),
    decreases n,
{
    if n > 0 {
        lemma_drained_identities(
            table,
            changed,
            answers,
            bound,
            ceiling,
            platform,
            (n - 1) as nat,
        );
        let d = drained(table, changed, answers, bound, ceiling, platform, (n - 1) as nat);
        interface_table::lemma_at_ifindex(d.table.links, changed[n - 1].0);
    }
}

/// Re-resolve the interfaces at the named indexes.
fn refresh_named(
    table: &mut InterfaceTable,
    changed: &LinearMap<u32, bool>,
    answers: &Vec<Answer>,
    bound: &Vec<Option<u32>>,
    ceiling: u32,
    platform: Platform,
) -> (r: Changes)
    requires
        old(table)@.wf(),
        bound@.len() == old(table)@.rows.len(),
        answers_fit(old(table)@, changed.entries@, answers@),
    ensures
        final(table)@.wf(),
        ({
            let d = drained(
                old(table)@,
                changed.entries@,
                answers@,
                bound@,
                ceiling,
                platform,
                changed.entries@.len(),
            );
            final(table)@ == d.table && r.are(d)
        }),
{
    let ghost before = table@;
    let mut v4_moved: Vec<u32> = Vec::new();
    let mut touched: Vec<u32> = Vec::new();
    let mut reconcile = false;
    let mut refreshed: Vec<Refreshed> = Vec::new();
    let mut i: usize = 0;
    while i < changed.entries.len()
        invariant
            i <= changed.entries@.len(),
            table@.wf(),
            bound@.len() == before.rows.len(),
            answers_fit(before, changed.entries@, answers@),
            before == old(table)@,
            ({
                let d = drained(
                    before,
                    changed.entries@,
                    answers@,
                    bound@,
                    ceiling,
                    platform,
                    i as nat,
                );
                &&& table@ == d.table
                &&& v4_moved@ == d.v4_moved
                &&& touched@ == d.touched
                &&& reconcile == d.reconcile
                &&& refreshed@.len() == d.said.len()
                &&& forall|k: int|
                    0 <= k < d.said.len() ==> (#[trigger] refreshed@[k])@ == d.said[k]
            }),
        decreases changed.entries@.len() - i,
    {
        let (ifindex, is_link) = changed.entries[i];
        let ghost d = drained(
            before,
            changed.entries@,
            answers@,
            bound@,
            ceiling,
            platform,
            i as nat,
        );
        let ghost at: int = interface_table::at_ifindex(table@.links, ifindex);
        proof {
            lemma_drained_identities(
                before,
                changed.entries@,
                answers@,
                bound@,
                ceiling,
                platform,
                i as nat,
            );
            lemma_same_place(before.links, table@.links, ifindex);
            interface_table::lemma_at_ifindex(table@.links, ifindex);
            assert(changed.entries@[i as int] == (ifindex, is_link));
        }
        let said: Result<Resolved, Errno> = match &answers[i].refreshed {
            Ok(resolved) => Ok(*resolved),
            Err(e) => Err(*e),
        };
        match table.refresh_by_ifindex(ifindex, said, &answers[i].attempts) {
            Some(one) => {
                assert(one@.change == one.change);
                match &one.change {
                    Ok(change) => {
                        if change.v4 {
                            v4_moved.push(ifindex);
                        }
                        // A bare Link event (carrier, MTU, flags) must not clear sessions.
                        if change.v4 || change.v6 {
                            touched.push(ifindex);
                        }
                        if is_link || !table.probe_by_ifindex(ifindex, bound) {
                            reconcile = true;
                        }
                    },
                    Err(_) => {
                        v4_moved.push(ifindex);
                        touched.push(ifindex);
                        reconcile = true;
                        assert(table@.links =~= d.table.links);
                    },
                }
                refreshed.push(one);
            },
            None => {
                let creation = if platform.indexes_monotonic {
                    is_link && ifindex > ceiling
                } else {
                    is_link
                };
                if creation || !platform.lifecycle_events {
                    reconcile = true;
                }
            },
        }
        i += 1;
    }
    Changes {
        v4_moved: captures_for(table, &v4_moved),
        touched: captures_for(table, &touched),
        reconcile,
        refreshed,
    }
}

/// What the system says of one stale interface: what it resolves to, what came of asking for its
/// groups on fresh sockets, and what came of re-binding each of its captures in order.
#[derive(Debug)]
pub struct Rebuild {
    pub refreshed: Result<Resolved, Errno>,
    pub attempts: Vec<Attempt>,
    pub rebinds: Vec<Result<LinkType, Errno>>,
}

/// The first `n` captures re-bound.
pub open spec fn captures_rebound(
    t: Table,
    keys: Seq<CaptureKey>,
    rebinds: Seq<Result<LinkType, Errno>>,
    n: nat,
) -> Table
    decreases n,
{
    if n == 0 {
        t
    } else {
        captures_rebound(t, keys, rebinds, (n - 1) as nat).capture_rebound(
            keys[n - 1],
            rebinds[n - 1],
        )
    }
}

/// A capture that is in place was not re-bound.
pub open spec fn any_rebind_failed(
    t: Table,
    keys: Seq<CaptureKey>,
    rebinds: Seq<Result<LinkType, Errno>>,
    n: nat,
) -> bool {
    exists|k: int|
        0 <= k < n && t.capture_at(#[trigger] keys[k]) is Some && rebinds[k] is Err
}

/// A recovery counted on the first `n` captures.
pub open spec fn captures_recovered(t: Table, keys: Seq<CaptureKey>, n: nat) -> Table
    decreases n,
{
    if n == 0 {
        t
    } else {
        captures_recovered(t, keys, (n - 1) as nat).recovered(keys[n - 1])
    }
}

/// What the reconcile has come to.
#[verifier::ext_equal]
pub struct Repaired {
    pub table: Table,
    /// A step failed.
    pub pending: bool,
}

/// A step of the rebuild failed: the interface did not resolve, or, unless it is gone, a capture was
/// not re-bound.
pub open spec fn rebuild_failed(t: Table, stale: StaleInterface, rebuild: Rebuild) -> bool {
    let keys = interface_table::captures_on(t.rows, stale.key);
    rebuild.refreshed is Err || stale.cur != 0 && any_rebind_failed(
        t,
        keys,
        rebuild.rebinds@,
        keys.len(),
    )
}

/// The table with one stale interface rebuilt, or parked absent.
pub open spec fn rebuilt_table(t: Table, stale: StaleInterface, rebuild: Rebuild) -> Table {
    let keys = interface_table::captures_on(t.rows, stale.key);
    let pointed = t.rebound(stale.key, stale.cur, rebuild.refreshed, rebuild.attempts@);
    if stale.cur == 0 {
        pointed
    } else {
        let bound = captures_rebound(pointed, keys, rebuild.rebinds@, keys.len());
        if rebuild_failed(t, stale, rebuild) {
            bound
        } else {
            captures_recovered(bound, keys, keys.len())
        }
    }
}

/// The first `n` stale interfaces rebuilt.
pub open spec fn repaired(
    t: Table,
    stale: Seq<StaleInterface>,
    rebuilds: Seq<Rebuild>,
    n: nat,
) -> Repaired
    decreases n,
{
    if n == 0 {
        Repaired { table: t, pending: false }
    } else {
        let before = repaired(t, stale, rebuilds, (n - 1) as nat);
        Repaired {
            table: rebuilt_table(before.table, stale[n - 1], rebuilds[n - 1]),
            pending: before.pending || rebuild_failed(
                before.table,
                stale[n - 1],
                rebuilds[n - 1],
            ),
        }
    }
}

/// When the pass after one at `now` that came to `end` is due.
pub open spec fn rearmed(now: u64, end: Repaired) -> int {
    now + (if end.pending || end.table.has_absent() {
        RECONCILE_RETRY
    } else {
        RECONCILE_TICK
    })
}

impl Rebuilt {
    /// This is what rebuilding the interface of a table comes to.
    pub open spec fn is_of(self, t: Table, stale: StaleInterface, rebuild: Rebuild) -> bool {
        let link = t.links[stale.key.index as int];
        &&& self.captures@ == interface_table::captures_on(t.rows, stale.key)
        &&& self.removed == (stale.cur == 0)
        &&& self.complete == (stale.cur != 0 && !rebuild_failed(t, stale, rebuild))
        &&& self.counts == match rebuild.refreshed {
            Ok(_) => Ok(
                if stale.cur != 0 {
                    link.joiner.rejoin_counts(rebuild.attempts@)
                } else {
                    RejoinCounts { joined: 0, deferred: 0, failed: 0 }
                },
            ),
            Err(e) => Err(e),
        }
        &&& text::views(self.lines@) == link.lines(rebuild.refreshed)
        &&& self.reports@ == link.pointed(stale.cur).reports(rebuild.attempts@)
    }
}

/// The answers fit the stale interfaces: an attempt for each group and a re-bind for each capture,
/// unless the interface is gone.
pub open spec fn rebuilds_fit(t: Table, stale: Seq<StaleInterface>, rebuilds: Seq<Rebuild>) -> bool {
    &&& rebuilds.len() == stale.len()
    &&& forall|k: int|
        0 <= k < stale.len() ==> {
            let s = #[trigger] stale[k];
            &&& s.key.index < t.links.len()
            &&& s.cur != 0 ==> {
                &&& t.links[s.key.index as int].joiner.takes(rebuilds[k].attempts@)
                &&& rebuilds[k].rebinds@.len()
                    == interface_table::captures_on(t.rows, s.key).len()
            }
        }
}

/// Every capture's recoveries can be counted `n` times more.
pub open spec fn room_for_recoveries(t: Table, n: int) -> bool {
    forall|j: int|
        0 <= j < t.rows.len() ==> (#[trigger] t.rows[j]).counts.recoveries + n <= u64::MAX
}

/// A table keeps its interfaces' wanted groups and its captures' places; each capture's recoveries
/// grew by no more than `n`.
pub open spec fn same_shape(a: Table, b: Table, n: int) -> bool {
    &&& a.links.len() == b.links.len()
    &&& a.rows.len() == b.rows.len()
    &&& forall|i: int|
        0 <= i < a.links.len() ==> (#[trigger] a.links[i]).joiner.wants_as_many(b.links[i].joiner)
    &&& forall|j: int|
        0 <= j < a.rows.len() ==> (#[trigger] a.rows[j]).interface == b.rows[j].interface
    &&& forall|j: int|
        0 <= j < a.rows.len() ==> (#[trigger] b.rows[j]).counts.recoveries
            <= a.rows[j].counts.recoveries + n
}

/// The captures of an interface depend on the captures' places alone.
proof fn lemma_same_captures(
    a: Seq<interface_table::Row>,
    b: Seq<interface_table::Row>,
    key: InterfaceKey,
)
    requires
        a.len() == b.len(),
        forall|j: int| 0 <= j < a.len() ==> (#[trigger] a[j]).interface == b[j].interface,
    ensures
        interface_table::captures_on(a, key) == interface_table::captures_on(b, key),
    decreases a.len(),
{
    if a.len() > 0 {
        assert forall|j: int| 0 <= j < a.len() - 1 implies (#[trigger] a.drop_last()[j]).interface
            == b.drop_last()[j].interface by {
            assert(a[j].interface == b[j].interface);
        }
        lemma_same_captures(a.drop_last(), b.drop_last(), key);
        assert(a[a.len() - 1].interface == b[b.len() - 1].interface);
    }
}

/// The captures of an interface come in increasing order.
proof fn lemma_captures_increase(rows: Seq<interface_table::Row>, key: InterfaceKey)
    requires
        rows.len() <= u32::MAX,
    ensures
        forall|i: int, j: int|
            0 <= i < j < interface_table::captures_on(rows, key).len() ==> (
            #[trigger] interface_table::captures_on(rows, key)[i]).index < (
            #[trigger] interface_table::captures_on(rows, key)[j]).index,
    decreases rows.len(),
{
    if rows.len() > 0 {
        lemma_captures_increase(rows.drop_last(), key);
        repair::lemma_captures_on_interface(rows.drop_last(), key);
        let before = interface_table::captures_on(rows.drop_last(), key);
        let all = interface_table::captures_on(rows, key);
        assert forall|i: int, j: int| 0 <= i < j < all.len() implies (#[trigger] all[i]).index < (
        #[trigger] all[j]).index by {
            assert(all[i] == before[i]);
            if j < before.len() {
                assert(all[j] == before[j]);
            }
        }
    }
}

/// Re-bind each of the captures.
fn rebind_all(
    table: &mut InterfaceTable,
    keys: &Vec<CaptureKey>,
    rebinds: &Vec<Result<LinkType, Errno>>,
) -> (failed: bool)
    requires
        old(table)@.wf(),
        rebinds@.len() == keys@.len(),
    ensures
        final(table)@.wf(),
        final(table)@ == captures_rebound(old(table)@, keys@, rebinds@, keys@.len()),
        failed == any_rebind_failed(old(table)@, keys@, rebinds@, keys@.len()),
        same_shape(old(table)@, final(table)@, 0),
        final(table)@.links == old(table)@.links,
{
    let ghost before = table@;
    let mut failed = false;
    let mut i: usize = 0;
    while i < keys.len()
        invariant
            before == old(table)@,
            table@.wf(),
            i <= keys@.len(),
            rebinds@.len() == keys@.len(),
            table@ == captures_rebound(before, keys@, rebinds@, i as nat),
            table@.links == before.links,
            same_shape(before, table@, 0),
            forall|j: int|
                0 <= j < before.rows.len() ==> ((#[trigger] table@.rows[j]).capture is Some)
                    == (before.rows[j].capture is Some),
            failed == any_rebind_failed(before, keys@, rebinds@, i as nat),
        decreases keys@.len() - i,
    {
        let ghost prior = table@;
        let key = keys[i];
        let said: Result<LinkType, Errno> = match &rebinds[i] {
            Ok(link_type) => Ok(*link_type),
            Err(e) => Err(*e),
        };
        let got = table.rebind_capture(key, said);
        proof {
            assert((before.capture_at(key) is Some) == (prior.capture_at(key) is Some)) by {
                if key.index < before.rows.len() {
                    assert((prior.rows[key.index as int].capture is Some) == (
                    before.rows[key.index as int].capture is Some));
                }
            }
            assert(keys@[i as int] == key);
            if before.capture_at(key) is Some && rebinds@[i as int] is Err {
                assert(any_rebind_failed(before, keys@, rebinds@, (i + 1) as nat));
            }
            if any_rebind_failed(before, keys@, rebinds@, i as nat) {
                let k: int = choose|k: int|
                    0 <= k < i && before.capture_at(#[trigger] keys@[k]) is Some && rebinds@[k] is Err;
                assert(before.capture_at(keys@[k]) is Some && rebinds@[k] is Err);
            }
            if any_rebind_failed(before, keys@, rebinds@, (i + 1) as nat) {
                let k: int = choose|k: int|
                    0 <= k < i + 1 && before.capture_at(#[trigger] keys@[k]) is Some
                        && rebinds@[k] is Err;
                if k < i {
                    assert(before.capture_at(keys@[k]) is Some && rebinds@[k] is Err);
                }
            }
            assert forall|j: int| 0 <= j < before.rows.len() implies ({
                &&& (#[trigger] table@.rows[j]).interface == prior.rows[j].interface
                &&& table@.rows[j].counts == prior.rows[j].counts
                &&& (table@.rows[j].capture is Some) == (prior.rows[j].capture is Some)
            }) by {}
            assert forall|j: int| 0 <= j < before.rows.len() implies (
            #[trigger] before.rows[j]).interface == table@.rows[j].interface by {
                assert(prior.rows[j].interface == table@.rows[j].interface);
            }
        }
        if got.is_err() {
            failed = true;
        }
        i += 1;
    }
    failed
}

/// Count a recovery on each of the captures of an interface.
fn record_recoveries(table: &mut InterfaceTable, keys: &Vec<CaptureKey>, interface: InterfaceKey)
    requires
        old(table)@.wf(),
        keys@ == interface_table::captures_on(old(table)@.rows, interface),
        room_for_recoveries(old(table)@, 1),
    ensures
        final(table)@.wf(),
        final(table)@ == captures_recovered(old(table)@, keys@, keys@.len()),
        same_shape(old(table)@, final(table)@, 1),
        final(table)@.links == old(table)@.links,
{
    let ghost before = table@;
    proof {
        repair::lemma_captures_on_interface(before.rows, interface);
        lemma_captures_increase(before.rows, interface);
    }
    let mut i: usize = 0;
    while i < keys.len()
        invariant
            before == old(table)@,
            table@.wf(),
            i <= keys@.len(),
            keys@ == interface_table::captures_on(before.rows, interface),
            room_for_recoveries(before, 1),
            forall|k: int| 0 <= k < keys@.len() ==> (#[trigger] keys@[k]).index < before.rows.len(),
            forall|k: int, m: int|
                0 <= k < m < keys@.len() ==> (#[trigger] keys@[k]).index < (
                #[trigger] keys@[m]).index,
            table@ == captures_recovered(before, keys@, i as nat),
            table@.links == before.links,
            same_shape(before, table@, 1),
            forall|k: int|
                i <= k < keys@.len() ==> table@.rows[(#[trigger] keys@[k]).index as int]
                    == before.rows[keys@[k].index as int],
        decreases keys@.len() - i,
    {
        let ghost prior = table@;
        let key = keys[i];
        assert(keys@[i as int] == key);
        assert(table@.rows[key.index as int] == before.rows[key.index as int]);
        table.record_recovery(key);
        proof {
            assert forall|k: int| i < k < keys@.len() implies table@.rows[(
            #[trigger] keys@[k]).index as int] == before.rows[keys@[k].index as int] by {
                assert(keys@[i as int].index < keys@[k].index);
            }
            assert forall|j: int| 0 <= j < before.rows.len() implies (
            #[trigger] before.rows[j]).interface == table@.rows[j].interface by {
                assert(before.rows[j].interface == prior.rows[j].interface);
            }
            assert forall|j: int| 0 <= j < before.rows.len() implies (
            #[trigger] table@.rows[j]).counts.recoveries <= before.rows[j].counts.recoveries
                + 1 by {
                assert(prior.rows[j].counts.recoveries <= before.rows[j].counts.recoveries + 1);
            }
        }
        i += 1;
    }
}

/// Rebuild one stale interface: re-point it at its name's current interface (or park it absent) and
/// re-bind its captures behind their stable keys.
fn rebuild_one(table: &mut InterfaceTable, stale: StaleInterface, rebuild: &Rebuild) -> (r: Rebuilt)
    requires
        old(table)@.wf(),
        stale.key.index < old(table)@.links.len(),
        stale.cur != 0 ==> {
            &&& old(table)@.links[stale.key.index as int].joiner.takes(rebuild.attempts@)
            &&& rebuild.rebinds@.len()
                == interface_table::captures_on(old(table)@.rows, stale.key).len()
        },
        room_for_recoveries(old(table)@, 1),
    ensures
        final(table)@.wf(),
        final(table)@ == rebuilt_table(old(table)@, stale, *rebuild),
        r.is_of(old(table)@, stale, *rebuild),
        same_shape(old(table)@, final(table)@, 1),
{
    let ghost before = table@;
    let captures = table.captures_of(stale.key);
    let said: Result<Resolved, Errno> = match &rebuild.refreshed {
        Ok(resolved) => Ok(*resolved),
        Err(e) => Err(*e),
    };
    let (counts, lines, reports) = table.rebind_interface(
        stale.key,
        stale.cur,
        said,
        &rebuild.attempts,
    );
    let ghost pointed = table@;
    assert(pointed.rows == before.rows);
    let mut failed = counts.is_err();
    let mut complete = false;
    if stale.cur != 0 {
        let stuck = rebind_all(table, &captures, &rebuild.rebinds);
        proof {
            assert forall|k: int| 0 <= k < captures@.len() implies (pointed.capture_at(
                #[trigger] captures@[k],
            ) is Some) == (before.capture_at(captures@[k]) is Some) by {}
            assert(stuck == any_rebind_failed(
                before,
                captures@,
                rebuild.rebinds@,
                captures@.len(),
            )) by {
                if any_rebind_failed(before, captures@, rebuild.rebinds@, captures@.len()) {
                    let k: int = choose|k: int|
                        0 <= k < captures@.len() && before.capture_at(#[trigger] captures@[k]) is Some
                            && rebuild.rebinds@[k] is Err;
                    assert(pointed.capture_at(captures@[k]) is Some);
                }
                if stuck {
                    let k: int = choose|k: int|
                        0 <= k < captures@.len() && pointed.capture_at(#[trigger] captures@[k]) is Some
                            && rebuild.rebinds@[k] is Err;
                    assert(before.capture_at(captures@[k]) is Some);
                }
            }
        }
        failed = failed || stuck;
        if !failed {
            proof {
                lemma_same_captures(before.rows, table@.rows, stale.key);
                assert forall|j: int| 0 <= j < table@.rows.len() implies (
                #[trigger] table@.rows[j]).counts.recoveries + 1 <= u64::MAX by {
                    assert(before.rows[j].counts.recoveries + 1 <= u64::MAX);
                }
            }
            record_recoveries(table, &captures, stale.key);
            complete = true;
        }
    }
    Rebuilt { captures, removed: stale.cur == 0, complete, counts, lines, reports }
}

impl InterfaceLifecycle {
    /// Repair every stale interface, `rebuilds` saying what came of each: re-point it at its name's
    /// current interface (or park it absent) and re-bind its captures behind their stable keys.
    /// Re-arms the next pass at [`RECONCILE_TICK`], or [`RECONCILE_RETRY`] while an interface is
    /// absent or a step failed. Parked interfaces are not in the stale list; the fast cadence picks
    /// up their return.
    pub fn reconcile(
        &mut self,
        table: &mut InterfaceTable,
        stale: &Vec<StaleInterface>,
        rebuilds: &Vec<Rebuild>,
        now: u64,
    ) -> (r: Vec<Rebuilt>)
        requires
            old(table)@.wf(),
            rebuilds_fit(old(table)@, stale@, rebuilds@),
            room_for_recoveries(old(table)@, stale@.len() as int),
            now + RECONCILE_TICK <= u64::MAX,
        ensures
            final(table)@.wf(),
            final(self).monitor_fd == old(self).monitor_fd,
            final(self).max_seen_ifindex == old(self).max_seen_ifindex,
            ({
                let end = repaired(old(table)@, stale@, rebuilds@, stale@.len());
                &&& final(table)@ == end.table
                &&& final(self).next_reconcile == rearmed(now, end)
            }),
            r@.len() == stale@.len(),
            forall|k: int|
                0 <= k < stale@.len() ==> (#[trigger] r@[k]).is_of(
                    repaired(old(table)@, stale@, rebuilds@, k as nat).table,
                    stale@[k],
                    rebuilds@[k],
                ),
    {
        let ghost before = table@;
        let mut pending = false;
        let mut out: Vec<Rebuilt> = Vec::new();
        let mut i: usize = 0;
        while i < stale.len()
            invariant
                i <= stale@.len(),
                before == old(table)@,
                table@.wf(),
                rebuilds_fit(before, stale@, rebuilds@),
                room_for_recoveries(before, stale@.len() as int),
                self.monitor_fd == old(self).monitor_fd,
                self.max_seen_ifindex == old(self).max_seen_ifindex,
                table@ == repaired(before, stale@, rebuilds@, i as nat).table,
                pending == repaired(before, stale@, rebuilds@, i as nat).pending,
                same_shape(before, table@, i as int),
                out@.len() == i,
                forall|k: int|
                    0 <= k < i ==> (#[trigger] out@[k]).is_of(
                        repaired(before, stale@, rebuilds@, k as nat).table,
                        stale@[k],
                        rebuilds@[k],
                    ),
            decreases stale@.len() - i,
        {
            let ghost prior = table@;
            let one = stale[i];
            proof {
                assert(stale@[i as int] == one);
                lemma_same_captures(before.rows, prior.rows, one.key);
                assert(before.links[one.key.index as int].joiner.wants_as_many(
                    prior.links[one.key.index as int].joiner,
                ));
                assert forall|j: int| 0 <= j < prior.rows.len() implies (
                #[trigger] prior.rows[j]).counts.recoveries + 1 <= u64::MAX by {
                    assert(before.rows[j].counts.recoveries + stale@.len() <= u64::MAX);
                }
            }
            let rebuilt = rebuild_one(table, one, &rebuilds[i]);
            let failed = if one.cur == 0 {
                rebuilt.counts.is_err()
            } else {
                !rebuilt.complete
            };
            pending = pending || failed;
            let ghost done = out@;
            out.push(rebuilt);
            proof {
                assert forall|k: int| 0 <= k < done.len() implies out@[k] == done[k] by {}
                assert forall|k: int| 0 <= k < before.links.len() implies (
                #[trigger] before.links[k]).joiner.wants_as_many(table@.links[k].joiner) by {
                    assert(before.links[k].joiner.wants_as_many(prior.links[k].joiner));
                }
                assert forall|j: int| 0 <= j < before.rows.len() implies (
                #[trigger] before.rows[j]).interface == table@.rows[j].interface by {
                    assert(before.rows[j].interface == prior.rows[j].interface);
                }
                assert forall|j: int| 0 <= j < before.rows.len() implies (
                #[trigger] table@.rows[j]).counts.recoveries <= before.rows[j].counts.recoveries
                    + (i + 1) by {
                    assert(prior.rows[j].counts.recoveries <= before.rows[j].counts.recoveries
                        + i);
                }
            }
            i += 1;
        }
        let retry = pending || table.any_absent();
        self.next_reconcile = now + if retry {
            RECONCILE_RETRY
        } else {
            RECONCILE_TICK
        };
        out
    }
}

/// What the log says of a stale interface before it is rebuilt.
pub open spec fn moved_text(name: Seq<char>, stale: StaleInterface) -> Seq<char> {
    let was = number::decimal(stale.cached as nat);
    let now = number::decimal(stale.cur as nat);
    if stale.cur == 0 {
        "interface "@ + name + " is gone (was ifindex "@ + was + "); parking until it returns"@
    } else if stale.cached == 0 {
        "interface "@ + name + ": returned as ifindex "@ + now + "; re-binding"@
    } else {
        "interface "@ + name + ": recreated (ifindex "@ + was + " -> "@ + now + "); re-binding"@
    }
}

/// What the log says of a stale interface before it is rebuilt.
pub fn moved_line(name: &str, stale: StaleInterface) -> (r: String)
    ensures
        r@ == moved_text(name@, stale),
{
    let mut line = "interface ".to_owned();
    line.append(name);
    if stale.cur == 0 {
        line.append(" is gone (was ifindex ");
        text::push_decimal(&mut line, stale.cached as u64);
        line.append("); parking until it returns");
    } else if stale.cached == 0 {
        line.append(": returned as ifindex ");
        text::push_decimal(&mut line, stale.cur as u64);
        line.append("; re-binding");
    } else {
        line.append(": recreated (ifindex ");
        text::push_decimal(&mut line, stale.cached as u64);
        line.append(" -> ");
        text::push_decimal(&mut line, stale.cur as u64);
        line.append("); re-binding");
    }
    line
}

/// What the log warns of after the groups of an interface were attempted again. Both kinds are
/// retried on every address event, but only a deferral has a trigger to promise.
pub open spec fn rejoin_texts(name: Seq<char>, counts: RejoinCounts) -> Seq<Seq<char>> {
    (if counts.failed > 0 {
        seq![
            number::decimal(counts.failed as nat) + " group membership(s) on "@ + name
                + " did not re-join; that traffic is not reflected until they do"@,
        ]
    } else {
        Seq::empty()
    }) + (if counts.deferred > 0 {
        seq![
            number::decimal(counts.deferred as nat) + " group membership(s) on "@ + name
                + " not re-joined yet; retrying on its next address event"@,
        ]
    } else {
        Seq::empty()
    })
}

/// What the log warns of after the groups of an interface were attempted again.
pub fn rejoin_lines(name: &str, counts: RejoinCounts) -> (r: Vec<String>)
    ensures
        text::views(r@) == rejoin_texts(name@, counts),
{
    let mut lines: Vec<String> = Vec::new();
    if counts.failed > 0 {
        let mut line = String::new();
        text::push_decimal(&mut line, counts.failed as u64);
        line.append(" group membership(s) on ");
        line.append(name);
        line.append(" did not re-join; that traffic is not reflected until they do");
        assert(line@ =~= number::decimal(counts.failed as nat) + " group membership(s) on "@ + name@
            + " did not re-join; that traffic is not reflected until they do"@);
        lines.push(line);
    }
    if counts.deferred > 0 {
        let mut line = String::new();
        text::push_decimal(&mut line, counts.deferred as u64);
        line.append(" group membership(s) on ");
        line.append(name);
        line.append(" not re-joined yet; retrying on its next address event");
        assert(line@ =~= number::decimal(counts.deferred as nat) + " group membership(s) on "@ + name@
            + " not re-joined yet; retrying on its next address event"@);
        lines.push(line);
    }
    assert(text::views(lines@) =~= rejoin_texts(name@, counts));
    lines
}

/// A rebuild whose interface resolved leaves nothing stale, once its captures are bound to it.
pub proof fn law_rebuilt_interface_is_no_longer_stale(
    t: Table,
    stale: StaleInterface,
    rebuild: Rebuild,
    lookup: Result<Option<u32>, Errno>,
    bound: Seq<Option<u32>>,
)
    requires
        t.wf(),
        stale.key.index < t.links.len(),
        rebuild.refreshed is Ok,
        interface_table::current_index(lookup) == Some(stale.cur),
        forall|j: int|
            0 <= j < t.rows.len() && (#[trigger] t.rows[j]).interface == stale.key ==> bound[j]
                == Some(stale.cur),
    ensures
        ({
            let after = rebuilt_table(t, stale, rebuild);
            interface_table::staleness(
                after.links[stale.key.index as int],
                stale.key,
                lookup,
                after.rows,
                bound,
            ) is None
        }),
{
    let after = rebuilt_table(t, stale, rebuild);
    lemma_rebuilt_rows(t, stale, rebuild);
    if interface_table::any_detached(after.rows, bound, stale.key, stale.cur) {
        let j: int = choose|j: int|
            0 <= j < after.rows.len() && interface_table::detached(
                #[trigger] after.rows[j],
                bound[j],
                stale.key,
                stale.cur,
            );
        assert(t.rows[j].interface == after.rows[j].interface);
    }
}

/// A rebuild whose interface did not resolve leaves it stale, for the retry to find: committed, it
/// would scan as healthy while carrying the old interface's addresses.
pub proof fn law_unresolved_interface_stays_stale(
    t: Table,
    stale: StaleInterface,
    rebuild: Rebuild,
    lookup: Result<Option<u32>, Errno>,
    bound: Seq<Option<u32>>,
)
    requires
        t.wf(),
        stale.key.index < t.links.len(),
        t.links[stale.key.index as int].ifindex == stale.cached,
        stale.cached != stale.cur,
        rebuild.refreshed is Err,
        interface_table::current_index(lookup) == Some(stale.cur),
    ensures
        ({
            let after = rebuilt_table(t, stale, rebuild);
            &&& interface_table::staleness(
                after.links[stale.key.index as int],
                stale.key,
                lookup,
                after.rows,
                bound,
            ) == Some(stale)
            &&& after.links[stale.key.index as int].addrs
                == t.links[stale.key.index as int].addrs
        }),
{
    lemma_rebuilt_rows(t, stale, rebuild);
}

/// A rebuild changes the rebuilt interface alone, and no capture's place.
proof fn lemma_rebuilt_rows(t: Table, stale: StaleInterface, rebuild: Rebuild)
    requires
        t.wf(),
        stale.key.index < t.links.len(),
    ensures
        ({
            let after = rebuilt_table(t, stale, rebuild);
            &&& after.links == t.rebound(
                stale.key,
                stale.cur,
                rebuild.refreshed,
                rebuild.attempts@,
            ).links
            &&& after.rows.len() == t.rows.len()
            &&& forall|j: int|
                0 <= j < t.rows.len() ==> (#[trigger] after.rows[j]).interface
                    == t.rows[j].interface
        }),
{
    let keys = interface_table::captures_on(t.rows, stale.key);
    let pointed = t.rebound(stale.key, stale.cur, rebuild.refreshed, rebuild.attempts@);
    repair::lemma_captures_on_interface(t.rows, stale.key);
    lemma_captures_rebound(pointed, keys, rebuild.rebinds@, keys.len());
    let bound = captures_rebound(pointed, keys, rebuild.rebinds@, keys.len());
    lemma_captures_recovered(bound, keys, keys.len());
}

proof fn lemma_captures_rebound(
    t: Table,
    keys: Seq<CaptureKey>,
    rebinds: Seq<Result<LinkType, Errno>>,
    n: nat,
)
    requires
        n <= keys.len(),
    ensures
        ({
            let after = captures_rebound(t, keys, rebinds, n);
            &&& after.links == t.links
            &&& after.rows.len() == t.rows.len()
            &&& forall|j: int|
                0 <= j < t.rows.len() ==> (#[trigger] after.rows[j]).interface
                    == t.rows[j].interface
        }),
    decreases n,
{
    if n > 0 {
        lemma_captures_rebound(t, keys, rebinds, (n - 1) as nat);
    }
}

proof fn lemma_captures_recovered(t: Table, keys: Seq<CaptureKey>, n: nat)
    requires
        n <= keys.len(),
        forall|k: int| 0 <= k < keys.len() ==> (#[trigger] keys[k]).index < t.rows.len(),
    ensures
        ({
            let after = captures_recovered(t, keys, n);
            &&& after.links == t.links
            &&& after.rows.len() == t.rows.len()
            &&& forall|j: int|
                0 <= j < t.rows.len() ==> (#[trigger] after.rows[j]).interface
                    == t.rows[j].interface
        }),
    decreases n,
{
    if n > 0 {
        lemma_captures_recovered(t, keys, (n - 1) as nat);
        let before = captures_recovered(t, keys, (n - 1) as nat);
        assert(keys[n - 1].index < before.rows.len());
    }
}

/// An interface that is parked absent holds no membership, is quiescent while its name resolves to
/// nothing, and keeps the fast cadence armed.
pub proof fn law_parked_interface_is_quiescent(
    t: Table,
    stale: StaleInterface,
    rebuild: Rebuild,
    bound: Seq<Option<u32>>,
)
    requires
        t.wf(),
        stale.key.index < t.links.len(),
        stale.cur == 0,
        rebuild.refreshed is Ok,
    ensures
        ({
            let after = rebuilt_table(t, stale, rebuild);
            let link = after.links[stale.key.index as int];
            &&& !link.joiner.v4 && !link.joiner.v6
            &&& link.joiner.desired == t.links[stale.key.index as int].joiner.desired
            &&& link.addrs == (rebuild.refreshed->Ok_0).addrs
            &&& interface_table::staleness(link, stale.key, Ok(None), after.rows, bound) is None
            &&& after.has_absent()
        }),
{
    let after = rebuilt_table(t, stale, rebuild);
    assert(after.links[stale.key.index as int].ifindex == 0);
}

/// An event that moved no address touches no session: a bare Link event (carrier, MTU, flags) does
/// not clear any.
pub proof fn law_unmoved_addresses_touch_nothing(
    d: Drained,
    ifindex: u32,
    is_link: bool,
    resolved: Resolved,
    attempts: Seq<Attempt>,
    bound: Seq<Option<u32>>,
    ceiling: u32,
    platform: Platform,
)
    requires
        ({
            let i: int = interface_table::at_ifindex(d.table.links, ifindex);
            i < d.table.links.len() && d.table.links[i].addrs == resolved.addrs
        }),
    ensures
        ({
            let after = d.with(ifindex, is_link, Ok(resolved), attempts, bound, ceiling, platform);
            after.touched == d.touched && after.v4_moved == d.v4_moved
        }),
{
}

/// An interface whose IPv4 address moved is among those touched.
pub proof fn law_moved_v4_is_touched(
    table: Table,
    changed: Seq<(u32, bool)>,
    answers: Seq<Answer>,
    bound: Seq<Option<u32>>,
    ceiling: u32,
    platform: Platform,
    n: nat,
)
    requires
        n <= changed.len(),
    ensures
        ({
            let d = drained(table, changed, answers, bound, ceiling, platform, n);
            forall|x: u32| #[trigger] d.v4_moved.contains(x) ==> d.touched.contains(x)
        }),
    decreases n,
{
    if n > 0 {
        law_moved_v4_is_touched(table, changed, answers, bound, ceiling, platform, (n - 1) as nat);
        let before = drained(table, changed, answers, bound, ceiling, platform, (n - 1) as nat);
        let d = drained(table, changed, answers, bound, ceiling, platform, n);
        assert forall|x: u32| #[trigger] d.v4_moved.contains(x) implies d.touched.contains(x) by {
            if before.v4_moved.contains(x) {
                let k: int = choose|k: int| 0 <= k < before.touched.len() && before.touched[k] == x;
                assert(d.touched[k] == x);
            } else {
                let k: int = choose|k: int| 0 <= k < d.v4_moved.len() && d.v4_moved[k] == x;
                if k < before.v4_moved.len() {
                    assert(before.v4_moved[k] == x);
                }
                assert(d.touched[d.touched.len() - 1] == x);
            }
        }
    }
}

/// The ceiling never falls, and no index of a batch is above it afterwards.
pub proof fn law_ceiling_covers_what_was_seen(ceiling: u32, changed: Seq<(u32, bool)>)
    ensures
        raised(ceiling, changed) >= ceiling,
        forall|k: int|
            0 <= k < changed.len() ==> (#[trigger] changed[k]).0 <= raised(ceiling, changed),
    decreases changed.len(),
{
    if changed.len() > 0 {
        law_ceiling_covers_what_was_seen(ceiling, changed.drop_last());
        assert forall|k: int| 0 <= k < changed.len() implies (#[trigger] changed[k]).0 <= raised(
            ceiling,
            changed,
        ) by {
            if k < changed.len() - 1 {
                assert(changed.drop_last()[k] == changed[k]);
            }
        }
    }
}

} // verus!
