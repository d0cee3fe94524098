//! Keeping the table current: finding the entries whose interface moved, and re-pointing, resolving
//! and re-joining them.

use vstd::prelude::*;

use crate::dispatch::counters;
use crate::dispatch::counters::{CaptureCounters, Counts, MessageType};
use crate::dispatch::interface_table;
use crate::dispatch::interface_table::{
    Answer, InterfaceKey, InterfaceTable, Refreshed, Row, StaleInterface,
};
use crate::dispatch::multicast;
use crate::dispatch::multicast::{Attempt, RejoinCounts, Report};
use crate::dispatch::CaptureKey;
use crate::errno::Errno;
use crate::interface::{AddressChange, Resolved};
use crate::net::LinkType;
use crate::text;

verus! {

/// The names and counts of the captures whose interface is known, in order.
pub open spec fn counter_rows_of(t: interface_table::Table, n: nat) -> Seq<(Seq<char>, Counts)>
    decreases n,
{
    if n == 0 {
        Seq::empty()
    } else {
        let before = counter_rows_of(t, (n - 1) as nat);
        let row = t.rows[n - 1];
        if row.interface.index < t.links.len() {
            before.push((t.links[row.interface.index as int].name, row.counts))
        } else {
            before
        }
    }
}

/// The fds and tags of the captures in place, in order.
pub open spec fn watches_of(rows: Seq<Row>, n: nat) -> Seq<(i32, u64)>
    decreases n,
{
    if n == 0 {
        Seq::empty()
    } else {
        let before = watches_of(rows, (n - 1) as nat);
        match rows[n - 1].capture {
            Some(tap) => before.push((tap.fd, (n - 1) as u64)),
            None => before,
        }
    }
}

/// The captures of an interface among the first `n`.
proof fn lemma_captures_on(rows: Seq<Row>, interface: InterfaceKey, n: int)
    requires
        0 <= n < rows.len(),
    ensures
        interface_table::captures_on(rows.take(n + 1), interface) == (if rows[n].interface
            == interface {
            interface_table::captures_on(rows.take(n), interface).push(
                CaptureKey { index: n as u32 },
            )
        } else {
            interface_table::captures_on(rows.take(n), interface)
        }),
{
    assert(rows.take(n + 1).drop_last() =~= rows.take(n));
}

/// The captures of an interface are in the table, and on it.
pub proof fn lemma_captures_on_interface(rows: Seq<Row>, interface: InterfaceKey)
    requires
        rows.len() <= u32::MAX,
    ensures
        forall|i: int|
            0 <= i < interface_table::captures_on(rows, interface).len() ==> {
                let key = #[trigger] interface_table::captures_on(rows, interface)[i];
                key.index < rows.len() && rows[key.index as int].interface == interface
            },
    decreases rows.len(),
{
    if rows.len() > 0 {
        lemma_captures_on_interface(rows.drop_last(), interface);
        let all = interface_table::captures_on(rows, interface);
        let before = interface_table::captures_on(rows.drop_last(), interface);
        assert forall|i: int| 0 <= i < all.len() implies {
            let key = #[trigger] all[i];
            key.index < rows.len() && rows[key.index as int].interface == interface
        } by {
            if i < before.len() {
                assert(all[i] == before[i]);
            }
        }
    }
}

impl InterfaceTable {
    /// Whether a capture in place on that interface is bound to another index.
    fn has_detached(&self, bound: &Vec<Option<u32>>, interface: InterfaceKey, cur: u32) -> (r: bool)
        requires
            bound@.len() == self@.rows.len(),
        ensures
            r == interface_table::any_detached(self@.rows, bound@, interface, cur),
    {
        let mut j: usize = 0;
        while j < self.captures.len()
            invariant
                bound@.len() == self@.rows.len(),
                j <= self@.rows.len(),
                forall|k: int|
                    0 <= k < j ==> !interface_table::detached(
                        #[trigger] self@.rows[k],
                        bound@[k],
                        interface,
                        cur,
                    ),
            decreases self@.rows.len() - j,
        {
            assert(self@.rows[j as int] == self.captures@[j as int]@);
            let entry = &self.captures[j];
            let same = match bound[j] {
                Some(index) => index == cur,
                None => false,
            };
            if entry.interface == interface && entry.capture.is_some() && !same {
                assert(interface_table::detached(self@.rows[j as int], bound@[j as int], interface, cur));
                return true;
            }
            j += 1;
        }
        false
    }

    /// Every interface whose kernel identity no longer matches the cache: the identity moved (caught
    /// by the name lookups, one per interface), or a capture's binding died behind an unchanged
    /// identity (an index reused by the recreation, caught by the index each capture is bound to). A
    /// parked entry (cached 0, name still resolving to nothing) is quiescent, not stale. A failed
    /// lookup says nothing; reading it as 0 would park a healthy entry.
    pub fn stale_interfaces(
        &self,
        lookups: &Vec<Result<Option<u32>, Errno>>,
        bound: &Vec<Option<u32>>,
    ) -> (r: Vec<StaleInterface>)
        requires
            self@.wf(),
            lookups@.len() == self@.links.len(),
            bound@.len() == self@.rows.len(),
        ensures
            r@ == interface_table::stale(self@, lookups@, bound@, self@.links.len()),
            forall|i: int| 0 <= i < r@.len() ==> (#[trigger] r@[i]).key.index < self@.links.len(),
    {
        let mut out: Vec<StaleInterface> = Vec::new();
        let mut i: usize = 0;
        while i < self.entries.len()
            invariant
                self@.wf(),
                lookups@.len() == self@.links.len(),
                bound@.len() == self@.rows.len(),
                i <= self@.links.len(),
                out@ == interface_table::stale(self@, lookups@, bound@, i as nat),
                forall|k: int|
                    0 <= k < out@.len() ==> (#[trigger] out@[k]).key.index < self@.links.len(),
            decreases self@.links.len() - i,
        {
            assert(self@.links[i as int] == self.entries@[i as int]@);
            let key = InterfaceKey { index: i as u32 };
            let cached: u32 = self.entries[i].interface.ifindex;
            let found: Option<u32> = match &lookups[i] {
                Ok(Some(index)) => Some(*index),
                Ok(None) => Some(0),
                Err(_) => None,
            };
            if let Some(cur) = found {
                if cur != cached || cur != 0 && self.has_detached(bound, key, cur) {
                    out.push(StaleInterface { key, cached, cur });
                }
            }
            i += 1;
        }
        out
    }

    /// Where the first interface at a kernel index is.
    pub fn position_at(&self, ifindex: u32) -> (r: Option<InterfaceKey>)
        requires
            self@.wf(),
        ensures
            match r {
                Some(key) => key.index == interface_table::at_ifindex(self@.links, ifindex)
                    && key.index < self@.links.len(),
                None => interface_table::at_ifindex(self@.links, ifindex) == self@.links.len(),
            },
    {
        proof {
            interface_table::lemma_at_ifindex(self@.links, ifindex);
        }
        let mut i: usize = 0;
        while i < self.entries.len()
            invariant
                self@.wf(),
                i <= interface_table::at_ifindex(self@.links, ifindex) <= self@.links.len(),
                interface_table::at_ifindex(self@.links, ifindex) < self@.links.len()
                    ==> self@.links[interface_table::at_ifindex(self@.links, ifindex)].ifindex
                    == ifindex,
                forall|j: int|
                    0 <= j < interface_table::at_ifindex(self@.links, ifindex) ==> (#[trigger]
                    self@.links[j]).ifindex != ifindex,
            decreases self@.links.len() - i,
        {
            assert(self@.links[i as int] == self.entries@[i as int]@);
            if self.entries[i].interface.ifindex == ifindex {
                return Some(InterfaceKey { index: i as u32 });
            }
            i += 1;
        }
        None
    }

    /// Whether every capture on the interface at `ifindex` is still attached (vacuously true with no
    /// match), given the index each capture is bound to: catches an index reused by a recreation as
    /// its first events arrive.
    pub fn probe_by_ifindex(&self, ifindex: u32, bound: &Vec<Option<u32>>) -> (r: bool)
        requires
            self@.wf(),
            bound@.len() == self@.rows.len(),
        ensures
            r == self@.attached(ifindex, bound@),
    {
        match self.position_at(ifindex) {
            Some(key) => !self.has_detached(bound, key, ifindex),
            None => true,
        }
    }

    /// Whether any interface is parked absent (ifindex 0).
    pub fn any_absent(&self) -> (r: bool)
        ensures
            r == self@.has_absent(),
    {
        let mut i: usize = 0;
        while i < self.entries.len()
            invariant
                i <= self@.links.len(),
                forall|j: int| 0 <= j < i ==> (#[trigger] self@.links[j]).ifindex != 0,
            decreases self@.links.len() - i,
        {
            assert(self@.links[i as int] == self.entries@[i as int]@);
            if self.entries[i].interface.ifindex == 0 {
                return true;
            }
            i += 1;
        }
        false
    }

    /// Take what the system says now of one interface.
    fn resolve_entry(&mut self, i: usize, refreshed: Result<Resolved, Errno>) -> (r: (
        Result<AddressChange, Errno>,
        Vec<String>,
    ))
        requires
            old(self)@.wf(),
            i < old(self)@.links.len(),
        ensures
            final(self)@.wf(),
            final(self)@ == old(self)@.with_link(
                i as int,
                old(self)@.links[i as int].resolved(refreshed),
            ),
            r.0 == old(self)@.links[i as int].change(refreshed),
            text::views(r.1@) == old(self)@.links[i as int].lines(refreshed),
    {
        assert(self@.links[i as int] == self.entries@[i as int]@);
        match refreshed {
            Ok(resolved) => {
                let (change, lines) = self.entries[i].interface.refresh(resolved);
                assert(self@.links =~= old(self)@.links.update(i as int, self.entries@[i as int]@));
                assert(self@.rows =~= old(self)@.rows);
                (Ok(change), lines)
            },
            Err(e) => {
                assert(self@.links =~= old(self)@.links.update(i as int, self@.links[i as int]));
                let lines: Vec<String> = Vec::new();
                assert(text::views(lines@) =~= Seq::empty());
                (Err(e), lines)
            },
        }
    }

    /// Attempt one interface's groups again.
    fn rejoin_entry(&mut self, i: usize, attempts: &Vec<Attempt>) -> (r: (RejoinCounts, Vec<Report>))
        requires
            old(self)@.wf(),
            i < old(self)@.links.len(),
            old(self)@.links[i as int].ifindex != 0 ==> old(self)@.links[i as int].joiner.takes(
                attempts@,
            ),
        ensures
            final(self)@.wf(),
            final(self)@ == old(self)@.with_link(
                i as int,
                old(self)@.links[i as int].rejoined(attempts@),
            ),
            ({
                let link = old(self)@.links[i as int];
                &&& r.0 == (if link.ifindex != 0 {
                    link.joiner.rejoin_counts(attempts@)
                } else {
                    RejoinCounts { joined: 0, deferred: 0, failed: 0 }
                })
                &&& r.1@ == link.reports(attempts@)
            }),
    {
        assert(self@.links[i as int] == self.entries@[i as int]@);
        if self.entries[i].interface.ifindex != 0 {
            let r = self.entries[i].joiner.rejoin(attempts);
            assert(self@.links =~= old(self)@.links.update(i as int, self.entries@[i as int]@));
            assert(self@.rows =~= old(self)@.rows);
            r
        } else {
            assert(self@.links =~= old(self)@.links.update(i as int, self@.links[i as int]));
            let none: Vec<Report> = Vec::new();
            assert(none@ =~= Seq::empty());
            (RejoinCounts::default(), none)
        }
    }

    /// Re-resolve the interface at kernel index `ifindex` in place; `None` for one we don't watch. A
    /// deferred join (no address of its family yet) may be viable once it resolved. `ifindex` is
    /// never 0 here: both monitor backends drop index-0 notifications, and an overflow goes to
    /// [`refresh_all`](Self::refresh_all). A 0 would match the first parked entry.
    pub fn refresh_by_ifindex(
        &mut self,
        ifindex: u32,
        refreshed: Result<Resolved, Errno>,
        attempts: &Vec<Attempt>,
    ) -> (r: Option<Refreshed>)
        requires
            old(self)@.wf(),
            ({
                let i: int = interface_table::at_ifindex(old(self)@.links, ifindex);
                i < old(self)@.links.len() && refreshed is Ok && ifindex != 0 ==> old(
                    self,
                )@.links[i].joiner.takes(attempts@)
            }),
        ensures
            final(self)@.wf(),
            ({
                let i: int = interface_table::at_ifindex(old(self)@.links, ifindex);
                let link = old(self)@.links[i];
                if i < old(self)@.links.len() {
                    &&& final(self)@ == old(self)@.with_link(
                        i,
                        if refreshed is Ok {
                            link.resolved(refreshed).rejoined(attempts@)
                        } else {
                            link
                        },
                    )
                    &&& r matches Some(got) && got@ == link.said(refreshed, attempts@, refreshed is Ok)
                } else {
                    r is None && final(self)@ == old(self)@
                }
            }),
    {
        proof {
            interface_table::lemma_at_ifindex(self@.links, ifindex);
        }
        match self.position_at(ifindex) {
            None => None,
            Some(key) => {
                let i: usize = key.index as usize;
                let (change, lines) = self.resolve_entry(i, refreshed);
                if refreshed.is_err() {
                    assert(self@.links =~= old(self)@.links.update(i as int, old(self)@.links[i as int]));
                    let reports: Vec<Report> = Vec::new();
                    assert(reports@ =~= Seq::empty());
                    return Some(Refreshed { ifindex, change, lines, reports });
                }
                let (_, reports) = self.rejoin_entry(i, attempts);
                assert(self@.links =~= old(self)@.links.update(i as int, self@.links[i as int]));
                Some(Refreshed { ifindex, change, lines, reports })
            },
        }
    }

    /// Re-resolve every interface in place (the overflow response), `answers` saying what came of
    /// each; a per-interface failure is returned, not fatal. A parked interface's groups are left
    /// alone.
    pub fn refresh_all(
        &mut self,
        answers: &Vec<Answer>,
    ) -> (r: Vec<Refreshed>)
        requires
            old(self)@.wf(),
            answers@.len() == old(self)@.links.len(),
            forall|i: int|
                0 <= i < old(self)@.links.len() && (#[trigger] old(self)@.links[i]).ifindex != 0
                    ==> old(self)@.links[i].joiner.takes(answers@[i].attempts@),
        ensures
            final(self)@.wf(),
            final(self)@.rows == old(self)@.rows,
            final(self)@.join_groups == old(self)@.join_groups,
            final(self)@.links.len() == old(self)@.links.len(),
            r@.len() == old(self)@.links.len(),
            forall|i: int|
                #![trigger final(self)@.links[i]]
                #![trigger r@[i]]
                0 <= i < old(self)@.links.len() ==> {
                    let link = old(self)@.links[i];
                    &&& final(self)@.links[i] == link.resolved(answers@[i].refreshed).rejoined(
                        answers@[i].attempts@,
                    )
                    &&& r@[i]@ == link.said(answers@[i].refreshed, answers@[i].attempts@, true)
                },
    {
        let mut out: Vec<Refreshed> = Vec::new();
        let mut i: usize = 0;
        let ghost before = self@;
        while i < self.entries.len()
            invariant
                self@.wf(),
                before == old(self)@,
                answers@.len() == before.links.len(),
                forall|i: int|
                    0 <= i < before.links.len() && (#[trigger] before.links[i]).ifindex != 0
                        ==> before.links[i].joiner.takes(answers@[i].attempts@),
                self@.rows == before.rows,
                self@.join_groups == before.join_groups,
                self@.links.len() == before.links.len(),
                i <= before.links.len(),
                out@.len() == i,
                forall|j: int|
                    i <= j < before.links.len() ==> #[trigger] self@.links[j] == before.links[j],
                forall|j: int|
                    #![trigger self@.links[j]]
                    #![trigger out@[j]]
                    0 <= j < i ==> {
                        let link = before.links[j];
                        &&& self@.links[j] == link.resolved(answers@[j].refreshed).rejoined(
                            answers@[j].attempts@,
                        )
                        &&& out@[j]@ == link.said(answers@[j].refreshed, answers@[j].attempts@, true)
                    },
            decreases before.links.len() - i,
        {
            let ghost prior = self@;
            assert(prior.links[i as int] == before.links[i as int]);
            assert(self@.links[i as int] == self.entries@[i as int]@);
            let ifindex: u32 = self.entries[i].interface.ifindex;
            let said: Result<Resolved, Errno> = match &answers[i].refreshed {
                Ok(resolved) => Ok(*resolved),
                Err(e) => Err(*e),
            };
            let (change, lines) = self.resolve_entry(i, said);
            let (_, reports) = self.rejoin_entry(i, &answers[i].attempts);
            let ghost done = out@;
            out.push(Refreshed { ifindex, change, lines, reports });
            assert forall|j: int| 0 <= j < done.len() implies out@[j] == done[j] by {}
            assert forall|j: int| 0 <= j < before.links.len() && j != i implies self@.links[j]
                == prior.links[j] by {}
            i += 1;
        }
        out
    }

    /// Re-point interface `key` at kernel index `cur` (0 = parked absent), take its addresses as
    /// resolved and re-join its groups on fresh sockets. No join while absent: a join on index 0 lets
    /// the kernel pick an arbitrary interface. The resolution still counts while absent, so the
    /// addresses clear and the egress gate closes. Captures re-bind separately
    /// ([`rebind_capture`](Self::rebind_capture)).
    ///
    /// A failed resolution is returned, and the identity is rolled back so the entry stays visibly
    /// stale and the retry re-runs the rebuild; committed, it would scan as healthy while carrying
    /// the old interface's addresses. The joins are replayed either way: a transient resolver error
    /// must not leave the interface deaf.
    pub fn rebind_interface(
        &mut self,
        key: InterfaceKey,
        cur: u32,
        refreshed: Result<Resolved, Errno>,
        attempts: &Vec<Attempt>,
    ) -> (r: (Result<RejoinCounts, Errno>, Vec<String>, Vec<Report>))
        requires
            old(self)@.wf(),
            key.index < old(self)@.links.len(),
            cur != 0 ==> old(self)@.links[key.index as int].joiner.takes(attempts@),
        ensures
            final(self)@.wf(),
            final(self)@ == old(self)@.rebound(key, cur, refreshed, attempts@),
            r.0 == match refreshed {
                Ok(_) => Ok(
                    if cur != 0 {
                        old(self)@.links[key.index as int].joiner.rejoin_counts(attempts@)
                    } else {
                        RejoinCounts { joined: 0, deferred: 0, failed: 0 }
                    },
                ),
                Err(e) => Err(e),
            },
            text::views(r.1@) == old(self)@.links[key.index as int].lines(refreshed),
            r.2@ == old(self)@.links[key.index as int].pointed(cur).reports(attempts@),
    {
        let i: usize = key.index as usize;
        let ghost before = self@;
        assert(self@.links[i as int] == self.entries@[i as int]@);
        let previous: u32 = self.entries[i].interface.ifindex;
        self.entries[i].interface.ifindex = cur;
        self.entries[i].joiner.reset();
        assert(self@.links =~= before.links.update(i as int, before.links[i as int].pointed(cur)));
        assert(self@.rows =~= before.rows);
        let (change, lines) = self.resolve_entry(i, refreshed);
        let (counts, reports) = self.rejoin_entry(i, attempts);
        let ghost joined = self@;
        assert(joined.links =~= before.links.update(i as int, joined.links[i as int]));
        match change {
            Ok(_) => {
                assert(self@ =~= before.rebound(key, cur, refreshed, attempts@));
                (Ok(counts), lines, reports)
            },
            Err(e) => {
                assert(self@.links[i as int] == self.entries@[i as int]@);
                self.entries[i].interface.ifindex = previous;
                assert(self@.links =~= joined.links.update(i as int, self.entries@[i as int]@));
                assert(self@.rows =~= joined.rows);
                assert(self@ =~= before.rebound(key, cur, refreshed, attempts@));
                (Err(e), lines, reports)
            },
        }
    }

    pub fn captures_of(&self, interface: InterfaceKey) -> (r: Vec<CaptureKey>)
        requires
            self@.wf(),
        ensures
            r@ == interface_table::captures_on(self@.rows, interface),
    {
        let mut out: Vec<CaptureKey> = Vec::new();
        let mut i: usize = 0;
        assert(self@.rows.take(0) =~= Seq::empty());
        while i < self.captures.len()
            invariant
                self@.wf(),
                i <= self@.rows.len(),
                out@ == interface_table::captures_on(self@.rows.take(i as int), interface),
            decreases self@.rows.len() - i,
        {
            assert(self@.rows[i as int] == self.captures@[i as int]@);
            proof {
                lemma_captures_on(self@.rows, interface, i as int);
            }
            if self.captures[i].interface == interface {
                out.push(CaptureKey { index: i as u32 });
            }
            i += 1;
        }
        assert(self@.rows.take(i as int) =~= self@.rows);
        out
    }

    pub fn captures_at_ifindex(&self, ifindex: u32) -> (r: Vec<CaptureKey>)
        requires
            self@.wf(),
        ensures
            r@ == self@.keys_at(ifindex),
    {
        match self.position_at(ifindex) {
            Some(key) => self.captures_of(key),
            None => {
                let none: Vec<CaptureKey> = Vec::new();
                assert(none@ =~= Seq::empty());
                none
            },
        }
    }

    /// Re-bind the capture behind `key` in place, `rebind` saying what came of it: same fd, same
    /// slot, so held keys and the reactor's watch stay valid. `Ok(false)`: no capture in the slot. A
    /// failed re-bind retries when the next scan flags the entry again.
    pub fn rebind_capture(&mut self, key: CaptureKey, rebind: Result<LinkType, Errno>) -> (r: Result<
        bool,
        Errno,
    >)
        requires
            old(self)@.wf(),
        ensures
            final(self)@.wf(),
            final(self)@ == old(self)@.capture_rebound(key, rebind),
            r == (if old(self)@.capture_at(key) is None {
                Ok(false)
            } else {
                match rebind {
                    Ok(_) => Ok(true),
                    Err(e) => Err(e),
                }
            }),
    {
        let i: usize = key.index as usize;
        if i >= self.captures.len() {
            return Ok(false);
        }
        assert(self@.rows[i as int] == self.captures@[i as int]@);
        match self.captures[i].capture.take() {
            Some(mut capture) => {
                let r = match rebind {
                    Ok(link_type) => {
                        capture.link_type = link_type;
                        Ok(true)
                    },
                    Err(e) => Err(e),
                };
                self.captures[i].capture = Some(capture);
                assert(self@.rows =~= old(self)@.rows.update(i as int, self.captures@[i as int]@));
                assert(self@.links =~= old(self)@.links);
                assert(self@ =~= old(self)@.capture_rebound(key, rebind));
                r
            },
            None => {
                assert(self@.rows =~= old(self)@.rows);
                assert(self@.links =~= old(self)@.links);
                Ok(false)
            },
        }
    }

    /// Each capture in place with its fd and its tag.
    pub fn capture_watches(&self) -> (r: Vec<(i32, u64)>)
        requires
            self@.wf(),
        ensures
            r@ == watches_of(self@.rows, self@.rows.len()),
    {
        let mut out: Vec<(i32, u64)> = Vec::new();
        let mut i: usize = 0;
        while i < self.captures.len()
            invariant
                self@.wf(),
                i <= self@.rows.len(),
                out@ == watches_of(self@.rows, i as nat),
            decreases self@.rows.len() - i,
        {
            assert(self@.rows[i as int] == self.captures@[i as int]@);
            if let Some(capture) = &self.captures[i].capture {
                out.push((capture.fd, CaptureKey { index: i as u32 }.to_u64()));
            }
            i += 1;
        }
        out
    }

    /// The captures' interface names and counts.
    pub fn counter_rows(&self) -> (r: Vec<(&str, &CaptureCounters)>)
        requires
            self@.wf(),
        ensures
            counters::counts_of(r@) == counter_rows_of(self@, self@.rows.len()),
            forall|i: int| 0 <= i < r@.len() ==> (#[trigger] r@[i]).1.wf(),
    {
        let mut out: Vec<(&str, &CaptureCounters)> = Vec::new();
        let mut i: usize = 0;
        assert(counters::counts_of(out@) =~= Seq::empty());
        while i < self.captures.len()
            invariant
                self@.wf(),
                i <= self@.rows.len(),
                counters::counts_of(out@) == counter_rows_of(self@, i as nat),
                forall|i: int| 0 <= i < out@.len() ==> (#[trigger] out@[i]).1.wf(),
            decreases self@.rows.len() - i,
        {
            assert(self@.rows[i as int] == self.captures@[i as int]@);
            let entry = &self.captures[i];
            if let Some(name) = self.interface_name(entry.interface) {
                let ghost before = out@;
                out.push((name, &entry.counters));
                assert(counters::counts_of(out@) =~= counters::counts_of(before).push(
                    (name@, entry.counters@),
                ));
            }
            i += 1;
        }
        out
    }

    /// The counts recorded for a message type on a capture's row: reflected, skipped, dropped,
    /// stalled.
    pub fn typed_counts(&self, capture: CaptureKey, ty: MessageType) -> (r: (u64, u64, u64, u64))
        requires
            self@.wf(),
            capture.index < self@.rows.len(),
        ensures
            r == ({
                let c = self@.rows[capture.index as int].counts.types[ty.place()];
                (c.reflected, c.skipped, c.dropped, c.stalled)
            }),
    {
        assert(self@.rows[capture.index as int] == self.captures@[capture.index as int]@);
        self.captures[capture.index as usize].counters.typed(ty)
    }
}

/// Every capture in place is watched under its own key, and no other is; a capture taken out is not.
pub proof fn law_what_is_in_place_is_watched(rows: Seq<Row>, n: nat, j: int)
    requires
        n <= rows.len() <= u32::MAX,
        0 <= j < n,
    ensures
        rows[j].capture matches Some(tap) ==> watches_of(rows, n).contains((tap.fd, j as u64)),
        rows[j].capture is None ==> forall|fd: i32|
            !#[trigger] watches_of(rows, n).contains((fd, j as u64)),
    decreases n,
{
    let all = watches_of(rows, n);
    let before = watches_of(rows, (n - 1) as nat);
    if j == n - 1 {
        lemma_watched_below(rows, (n - 1) as nat);
        if rows[j].capture is Some {
            assert(all[all.len() - 1] == ((rows[j].capture->0).fd, j as u64));
        }
    } else {
        law_what_is_in_place_is_watched(rows, (n - 1) as nat, j);
        if let Some(tap) = rows[j].capture {
            let k: int = choose|k: int|
                0 <= k < before.len() && before[k] == (tap.fd, j as u64);
            assert(all[k] == (tap.fd, j as u64));
        } else {
            assert forall|fd: i32| !#[trigger] all.contains((fd, j as u64)) by {
                if all.contains((fd, j as u64)) {
                    let k: int = choose|k: int| 0 <= k < all.len() && all[k] == (fd, j as u64);
                    assert(k < before.len());
                    assert(before[k] == (fd, j as u64));
                    assert(before.contains((fd, j as u64)));
                }
            }
        }
    }
}

proof fn lemma_watched_below(rows: Seq<Row>, n: nat)
    requires
        n <= rows.len() <= u32::MAX,
    ensures
        forall|k: int| 0 <= k < watches_of(rows, n).len() ==> (#[trigger] watches_of(rows, n)[k]).1 < n,
    decreases n,
{
    if n > 0 {
        lemma_watched_below(rows, (n - 1) as nat);
        let all = watches_of(rows, n);
        let before = watches_of(rows, (n - 1) as nat);
        assert forall|k: int| 0 <= k < all.len() implies (#[trigger] all[k]).1 < n by {
            if k < before.len() {
                assert(all[k] == before[k]);
            }
        }
    }
}

/// Every capture of a known interface has its counts told under the interface's name, in the order of the
/// captures.
pub proof fn law_every_capture_has_its_counts_told(t: interface_table::Table, n: nat, j: int)
    requires
        n <= t.rows.len(),
        0 <= j < n,
        t.rows[j].interface.index < t.links.len(),
    ensures
        counter_rows_of(t, n).contains(
            (t.links[t.rows[j].interface.index as int].name, t.rows[j].counts),
        ),
        counter_rows_of(t, n).len() <= n,
        (forall|i: int| 0 <= i < n ==> (#[trigger] t.rows[i]).interface.index < t.links.len())
            ==> counter_rows_of(t, n).len() == n && counter_rows_of(t, n)[j] == (
            t.links[t.rows[j].interface.index as int].name,
            t.rows[j].counts,
        ),
    decreases n,
{
    let m = (n - 1) as nat;
    let told = (t.links[t.rows[j].interface.index as int].name, t.rows[j].counts);
    let before = counter_rows_of(t, m);
    let all = counter_rows_of(t, n);
    lemma_rows_told(t, m);
    if j == m {
        assert(all[all.len() - 1] == told);
    } else {
        law_every_capture_has_its_counts_told(t, m, j);
        let k: int = choose|k: int| 0 <= k < before.len() && before[k] == told;
        assert(all[k] == told);
    }
}

proof fn lemma_rows_told(t: interface_table::Table, n: nat)
    requires
        n <= t.rows.len(),
    ensures
        counter_rows_of(t, n).len() <= n,
        (forall|i: int| 0 <= i < n ==> (#[trigger] t.rows[i]).interface.index < t.links.len())
            ==> counter_rows_of(t, n).len() == n,
    decreases n,
{
    if n > 0 {
        lemma_rows_told(t, (n - 1) as nat);
        let row = t.rows[n - 1];
    }
}

} // verus!
