//! What the lifecycle does to an interface and its captures, over the tables before and after.

use vstd::prelude::*;

use crate::dispatch::interface_table;
use crate::dispatch::interface_table::repair;
use crate::dispatch::interface_table::{Answer, InterfaceKey, Row, StaleInterface, Table};
use crate::dispatch::lifecycle;
use crate::dispatch::lifecycle::{Drained, Platform, Rebuild, Repaired};
use crate::dispatch::multicast::Attempt;
use crate::dispatch::CaptureKey;
use crate::errno::Errno;
use crate::interface::interface_monitor::InterfaceEvent;
use crate::interface::{InterfaceAddresses, Resolved};
use crate::linear_map;
use crate::net::LinkType;

verus! {

/// An index is collected where an event names it, as a link's where a Link event does, whatever else
/// names it and in whatever order.
pub proof fn law_what_is_collected_was_named(events: Seq<InterfaceEvent>, ifindex: u32)
    ensures
        linear_map::lookup(lifecycle::indexes(events), ifindex) is Some <==> events.contains(
            InterfaceEvent::Address(ifindex),
        ) || events.contains(InterfaceEvent::Link(ifindex)),
        linear_map::lookup(lifecycle::indexes(events), ifindex) == Some(true) <==> events.contains(
            InterfaceEvent::Link(ifindex),
        ),
    decreases events.len(),
{
    let address = InterfaceEvent::Address(ifindex);
    let link = InterfaceEvent::Link(ifindex);
    if events.len() == 0 {
        assert(lifecycle::indexes(events) =~= Seq::empty());
    } else {
        let rest = events.drop_last();
        let last = events.last();
        law_what_is_collected_was_named(rest, ifindex);
        lemma_contains_last(events, address);
        lemma_contains_last(events, link);
        let before = lifecycle::indexes(rest);
        match last {
            InterfaceEvent::Overflow => {},
            InterfaceEvent::Address(x) => {
                let value = linear_map::lookup(before, x) == Some(true);
                if x == ifindex {
                    linear_map::law_lookup_finds_what_was_put(before, x, value);
                } else {
                    linear_map::law_put_leaves_other_keys(before, x, value, ifindex);
                }
            },
            InterfaceEvent::Link(x) => {
                if x == ifindex {
                    linear_map::law_lookup_finds_what_was_put(before, x, true);
                } else {
                    linear_map::law_put_leaves_other_keys(before, x, true, ifindex);
                }
            },
        }
    }
}

proof fn lemma_contains_last<T>(s: Seq<T>, x: T)
    requires
        s.len() > 0,
    ensures
        s.contains(x) <==> s.drop_last().contains(x) || s.last() == x,
{
    let t = s.drop_last();
    if t.contains(x) {
        let k: int = choose|k: int| 0 <= k < t.len() && t[k] == x;
        assert(s[k] == x);
    }
    if s.last() == x {
        assert(s[s.len() - 1] == x);
    }
    if s.contains(x) && s.last() != x {
        let k: int = choose|k: int| 0 <= k < s.len() && s[k] == x;
        assert(t[k] == x);
    }
}

/// The address that an interface's refresh gave is another IPv4 address than it had, or none was to be
/// had.
pub open spec fn lost_v4(had: InterfaceAddresses, refreshed: Result<Resolved, Errno>) -> bool {
    refreshed matches Ok(r) ==> r.addrs.v4 != had.v4
}

/// The refresh gave another source address of some family, or none was to be had.
pub open spec fn lost_any(had: InterfaceAddresses, refreshed: Result<Resolved, Errno>) -> bool {
    refreshed matches Ok(r) ==> r.addrs.v4 != had.v4 || r.addrs.v6 != had.v6
        || r.addrs.v6_routable != had.v6_routable
}

/// A refreshed interface has the addresses and the MTU that it resolved to, and those that it had
/// where it did not resolve; nothing else about the interfaces changes but that its groups are
/// attempted again. It counts as moved where its addresses are others or are not known, and calls
/// for a reconcile where a Link event named it, where it did not resolve, and where a capture of it
/// that is in place is bound elsewhere.
pub proof fn law_a_named_interface_is_refreshed(
    d: Drained,
    i: int,
    ifindex: u32,
    is_link: bool,
    refreshed: Result<Resolved, Errno>,
    attempts: Seq<Attempt>,
    bound: Seq<Option<u32>>,
    ceiling: u32,
    platform: Platform,
)
    requires
        0 <= i < d.table.links.len() <= u32::MAX,
        d.table.links[i].ifindex == ifindex,
        forall|j: int| 0 <= j < i ==> (#[trigger] d.table.links[j]).ifindex != ifindex,
    ensures
        ({
            let after = d.with(ifindex, is_link, refreshed, attempts, bound, ceiling, platform);
            let had = d.table.links[i];
            let has = after.table.links[i];
            &&& after.table.rows == d.table.rows
            &&& after.table.links.len() == d.table.links.len()
            &&& forall|j: int|
                0 <= j < d.table.links.len() && j != i ==> #[trigger] after.table.links[j]
                    == d.table.links[j]
            &&& refreshed is Err ==> has == had
            &&& refreshed matches Ok(r) ==> {
                &&& has.addrs == r.addrs
                &&& has.mtu == r.mtu
                &&& has.name == had.name
                &&& has.ifindex == ifindex
                &&& ifindex != 0 ==> has.joiner == had.joiner.rejoined(attempts)
                &&& ifindex == 0 ==> has.joiner == had.joiner
            }
            &&& after.v4_moved == (if lost_v4(had.addrs, refreshed) {
                d.v4_moved + seq![ifindex]
            } else {
                d.v4_moved
            })
            &&& after.touched == (if lost_any(had.addrs, refreshed) {
                d.touched + seq![ifindex]
            } else {
                d.touched
            })
            &&& after.reconcile <==> d.reconcile || is_link || refreshed is Err || exists|j: int|
                0 <= j < d.table.rows.len() && (#[trigger] d.table.rows[j]).interface.index == i
                    && d.table.rows[j].capture is Some && bound[j] != Some(ifindex)
        }),
{
    interface_table::lemma_at_ifindex(d.table.links, ifindex);
    let p: int = interface_table::at_ifindex(d.table.links, ifindex);
    if p < i {
        assert(d.table.links[p].ifindex != ifindex);
    } else if i < p {
        assert(d.table.links[i].ifindex != ifindex);
    }
    let after = d.with(ifindex, is_link, refreshed, attempts, bound, ceiling, platform);
    lemma_same_indexes(d.table.links, after.table.links, i, ifindex);
    let key = InterfaceKey { index: i as u32 };
    assert(d.v4_moved.push(ifindex) =~= d.v4_moved + seq![ifindex]);
    assert(d.touched.push(ifindex) =~= d.touched + seq![ifindex]);
    if interface_table::any_detached(d.table.rows, bound, key, ifindex) {
        let j: int = choose|j: int|
            0 <= j < d.table.rows.len() && interface_table::detached(
                #[trigger] d.table.rows[j],
                bound[j],
                key,
                ifindex,
            );
        assert(d.table.rows[j].interface.index == i);
    }
    if exists|j: int|
        0 <= j < d.table.rows.len() && (#[trigger] d.table.rows[j]).interface.index == i
            && d.table.rows[j].capture is Some && bound[j] != Some(ifindex) {
        let j: int = choose|j: int|
            0 <= j < d.table.rows.len() && (#[trigger] d.table.rows[j]).interface.index == i
                && d.table.rows[j].capture is Some && bound[j] != Some(ifindex);
        assert(d.table.rows[j].interface == key);
        assert(interface_table::detached(d.table.rows[j], bound[j], key, ifindex));
    }
}

proof fn lemma_same_indexes(
    a: Seq<interface_table::Link>,
    b: Seq<interface_table::Link>,
    i: int,
    ifindex: u32,
)
    requires
        a.len() == b.len(),
        0 <= i < a.len(),
        a[i].ifindex == ifindex,
        forall|j: int| 0 <= j < a.len() ==> (#[trigger] b[j]).ifindex == a[j].ifindex,
        interface_table::at_ifindex(a, ifindex) == i,
    ensures
        interface_table::at_ifindex(b, ifindex) == i,
{
    interface_table::lemma_at_ifindex(a, ifindex);
    interface_table::lemma_at_ifindex(b, ifindex);
    let q: int = interface_table::at_ifindex(b, ifindex);
    if q < i {
        assert(a[q].ifindex != ifindex);
        assert(b[q].ifindex == a[q].ifindex);
    } else if i < q {
        assert(b[i].ifindex != ifindex);
    }
}

/// An index of no interface of the table changes nothing but, where it may announce one, the call for
/// a reconcile: any event where the platform tells of no interface coming or going, else a Link event,
/// and where indexes only grow one above all that were seen.
pub proof fn law_an_unknown_index_may_be_a_creation(
    d: Drained,
    ifindex: u32,
    is_link: bool,
    refreshed: Result<Resolved, Errno>,
    attempts: Seq<Attempt>,
    bound: Seq<Option<u32>>,
    ceiling: u32,
    platform: Platform,
)
    requires
        forall|j: int| 0 <= j < d.table.links.len() ==> (#[trigger] d.table.links[j]).ifindex
            != ifindex,
    ensures
        ({
            let after = d.with(ifindex, is_link, refreshed, attempts, bound, ceiling, platform);
            &&& after.table == d.table
            &&& after.v4_moved == d.v4_moved
            &&& after.touched == d.touched
            &&& after.said == d.said
            &&& !platform.lifecycle_events ==> after.reconcile
            &&& platform.lifecycle_events && !is_link ==> after.reconcile == d.reconcile
            &&& platform.lifecycle_events && is_link && !platform.indexes_monotonic
                ==> after.reconcile
            &&& platform.lifecycle_events && is_link && platform.indexes_monotonic && ifindex
                > ceiling ==> after.reconcile
            &&& platform.lifecycle_events && is_link && platform.indexes_monotonic && ifindex
                <= ceiling ==> after.reconcile == d.reconcile
        }),
{
    interface_table::lemma_at_ifindex(d.table.links, ifindex);
}

/// An overflow refreshes every interface and calls for a reconcile; the interfaces told of are those
/// whose addresses are others, or are not known.
pub proof fn law_an_overflow_refreshes_every_interface(t: Table, answers: Seq<Answer>)
    requires
        answers.len() == t.links.len(),
    ensures
        ({
            let after = lifecycle::drained_all(t, answers);
            &&& after.reconcile
            &&& after.table.rows == t.rows
            &&& after.table.links.len() == t.links.len()
            &&& forall|i: int|
                0 <= i < t.links.len() ==> {
                    let has = #[trigger] after.table.links[i];
                    &&& has.name == t.links[i].name
                    &&& has.ifindex == t.links[i].ifindex
                    &&& answers[i].refreshed matches Ok(r) ==> has.addrs == r.addrs && has.mtu
                        == r.mtu
                    &&& answers[i].refreshed is Err ==> has.addrs == t.links[i].addrs && has.mtu
                        == t.links[i].mtu
                }
            &&& forall|x: u32|
                after.v4_moved.contains(x) <==> exists|i: int|
                    0 <= i < t.links.len() && (#[trigger] t.links[i]).ifindex == x && lost_v4(
                        t.links[i].addrs,
                        answers[i].refreshed,
                    )
            &&& forall|x: u32|
                after.touched.contains(x) <==> exists|i: int|
                    0 <= i < t.links.len() && (#[trigger] t.links[i]).ifindex == x && lost_any(
                        t.links[i].addrs,
                        answers[i].refreshed,
                    )
        }),
{
    assert forall|x: u32|
        lifecycle::moved_among(t.links, answers, true, t.links.len()).contains(x) <==> exists|i: int|
            0 <= i < t.links.len() && (#[trigger] t.links[i]).ifindex == x && lost_v4(
                t.links[i].addrs,
                answers[i].refreshed,
            ) by {
        lemma_moved_v4_among(t, answers, t.links.len(), x);
    }
    assert forall|x: u32|
        lifecycle::moved_among(t.links, answers, false, t.links.len()).contains(x) <==> exists|
            i: int,
        |
            0 <= i < t.links.len() && (#[trigger] t.links[i]).ifindex == x && lost_any(
                t.links[i].addrs,
                answers[i].refreshed,
            ) by {
        lemma_moved_among(t, answers, t.links.len(), x);
    }
}

proof fn lemma_moved_v4_among(t: Table, answers: Seq<Answer>, n: nat, x: u32)
    requires
        n <= t.links.len(),
    ensures
        lifecycle::moved_among(t.links, answers, true, n).contains(x) <==> exists|i: int|
            0 <= i < n && (#[trigger] t.links[i]).ifindex == x && lost_v4(
                t.links[i].addrs,
                answers[i].refreshed,
            ),
    decreases n,
{
    let all = lifecycle::moved_among(t.links, answers, true, n);
    if n > 0 {
        let m = (n - 1) as nat;
        lemma_moved_v4_among(t, answers, m, x);
        let before = lifecycle::moved_among(t.links, answers, true, m);
        let pushed = lost_v4(t.links[n - 1].addrs, answers[n - 1].refreshed);
        if pushed {
            lemma_contains_last(all, x);
            assert(all.drop_last() =~= before);
        }
        if all.contains(x) && !before.contains(x) {
            assert(t.links[n - 1].ifindex == x);
        }
    }
}

proof fn lemma_moved_among(t: Table, answers: Seq<Answer>, n: nat, x: u32)
    requires
        n <= t.links.len(),
    ensures
        lifecycle::moved_among(t.links, answers, false, n).contains(x) <==> exists|i: int|
            0 <= i < n && (#[trigger] t.links[i]).ifindex == x && lost_any(
                t.links[i].addrs,
                answers[i].refreshed,
            ),
    decreases n,
{
    let all = lifecycle::moved_among(t.links, answers, false, n);
    if n > 0 {
        let m = (n - 1) as nat;
        lemma_moved_among(t, answers, m, x);
        let before = lifecycle::moved_among(t.links, answers, false, m);
        let pushed = lost_any(t.links[n - 1].addrs, answers[n - 1].refreshed);
        if pushed {
            lemma_contains_last(all, x);
            assert(all.drop_last() =~= before);
        }
        if all.contains(x) && !before.contains(x) {
            assert(t.links[n - 1].ifindex == x);
        }
    }
}

/// The captures of an interface are those whose row names it, each once, in order.
pub proof fn law_the_captures_of_an_interface(rows: Seq<Row>, interface: InterfaceKey, c: CaptureKey)
    requires
        rows.len() <= u32::MAX,
    ensures
        interface_table::captures_on(rows, interface).contains(c) <==> c.index < rows.len()
            && rows[c.index as int].interface == interface,
        forall|i: int, j: int|
            0 <= i < j < interface_table::captures_on(rows, interface).len() ==> (
            #[trigger] interface_table::captures_on(rows, interface)[i]).index < (
            #[trigger] interface_table::captures_on(rows, interface)[j]).index,
    decreases rows.len(),
{
    let all = interface_table::captures_on(rows, interface);
    repair::lemma_captures_on_interface(rows, interface);
    if rows.len() > 0 {
        let fewer = rows.drop_last();
        law_the_captures_of_an_interface(fewer, interface, c);
        let before = interface_table::captures_on(fewer, interface);
        repair::lemma_captures_on_interface(fewer, interface);
        let at = CaptureKey { index: (rows.len() - 1) as u32 };
        if rows.last().interface == interface {
            lemma_contains_last(all, c);
            assert(all.drop_last() =~= before);
        }
        assert forall|i: int, j: int| 0 <= i < j < all.len() implies (#[trigger] all[i]).index < (
        #[trigger] all[j]).index by {
            assert(all[i] == before[i]);
            if j < before.len() {
                assert(all[j] == before[j]);
            } else {
                assert(before[i].index < fewer.len());
            }
        }
    }
}

/// The captures at some indexes are those on the first interface at one of them.
pub proof fn law_the_captures_at_some_indexes(t: Table, ifindexes: Seq<u32>, c: CaptureKey)
    requires
        t.wf(),
    ensures
        lifecycle::captures_among(t, ifindexes).contains(c) <==> exists|k: int|
            0 <= k < ifindexes.len() && c.index < t.rows.len()
                && t.rows[c.index as int].interface.index == interface_table::at_ifindex(
                t.links,
                #[trigger] ifindexes[k],
            ) && t.rows[c.index as int].interface.index < t.links.len(),
    decreases ifindexes.len(),
{
    let all = lifecycle::captures_among(t, ifindexes);
    if ifindexes.len() > 0 {
        let fewer = ifindexes.drop_last();
        law_the_captures_at_some_indexes(t, fewer, c);
        let before = lifecycle::captures_among(t, fewer);
        let more = t.keys_at(ifindexes.last());
        assert(all == before + more);
        interface_table::lemma_at_ifindex(t.links, ifindexes.last());
        let i: int = interface_table::at_ifindex(t.links, ifindexes.last());
        if i < t.links.len() {
            law_the_captures_of_an_interface(t.rows, InterfaceKey { index: i as u32 }, c);
        }
        if before.contains(c) {
            let p: int = choose|p: int| 0 <= p < before.len() && before[p] == c;
            assert(all[p] == c);
            let k: int = choose|k: int|
                0 <= k < fewer.len() && c.index < t.rows.len()
                    && t.rows[c.index as int].interface.index == interface_table::at_ifindex(
                    t.links,
                    #[trigger] fewer[k],
                ) && t.rows[c.index as int].interface.index < t.links.len();
            assert(ifindexes[k] == fewer[k]);
        }
        if more.contains(c) {
            let p: int = choose|p: int| 0 <= p < more.len() && more[p] == c;
            assert(all[before.len() + p] == c);
            assert(ifindexes[ifindexes.len() - 1] == ifindexes.last());
        }
        if all.contains(c) {
            let p: int = choose|p: int| 0 <= p < all.len() && all[p] == c;
            if p < before.len() {
                assert(before[p] == c);
            } else {
                assert(more[p - before.len()] == c);
            }
        }
        if exists|k: int|
            0 <= k < ifindexes.len() && c.index < t.rows.len()
                && t.rows[c.index as int].interface.index == interface_table::at_ifindex(
                t.links,
                #[trigger] ifindexes[k],
            ) && t.rows[c.index as int].interface.index < t.links.len() {
            let k: int = choose|k: int|
                0 <= k < ifindexes.len() && c.index < t.rows.len()
                    && t.rows[c.index as int].interface.index == interface_table::at_ifindex(
                    t.links,
                    #[trigger] ifindexes[k],
                ) && t.rows[c.index as int].interface.index < t.links.len();
            if k < fewer.len() {
                assert(fewer[k] == ifindexes[k]);
                assert(before.contains(c));
            } else {
                assert(more.contains(c));
            }
        }
    }
}

/// A stale interface that resolves is at the index and has the addresses and the MTU it resolved to;
/// one that does not keeps its index, for the next pass to find it stale again. No other interface
/// changes, and no capture of another interface.
pub proof fn law_a_rebuild_moves_one_interface(t: Table, stale: StaleInterface, rebuild: Rebuild)
    requires
        t.wf(),
        stale.key.index < t.links.len(),
    ensures
        ({
            let after = lifecycle::rebuilt_table(t, stale, rebuild);
            let i: int = stale.key.index as int;
            &&& after.links.len() == t.links.len()
            &&& after.rows.len() == t.rows.len()
            &&& forall|k: int|
                0 <= k < t.links.len() && k != i ==> #[trigger] after.links[k] == t.links[k]
            &&& after.links[i].name == t.links[i].name
            &&& rebuild.refreshed matches Ok(r) ==> {
                &&& after.links[i].ifindex == stale.cur
                &&& after.links[i].addrs == r.addrs
                &&& after.links[i].mtu == r.mtu
            }
            &&& rebuild.refreshed is Err ==> {
                &&& after.links[i].ifindex == t.links[i].ifindex
                &&& after.links[i].addrs == t.links[i].addrs
                &&& after.links[i].mtu == t.links[i].mtu
            }
            &&& forall|j: int|
                0 <= j < t.rows.len() && (#[trigger] t.rows[j]).interface != stale.key
                    ==> after.rows[j] == t.rows[j]
        }),
{
    let keys = interface_table::captures_on(t.rows, stale.key);
    let pointed = t.rebound(stale.key, stale.cur, rebuild.refreshed, rebuild.attempts@);
    repair::lemma_captures_on_interface(t.rows, stale.key);
    let bound = lifecycle::captures_rebound(pointed, keys, rebuild.rebinds@, keys.len());
    assert forall|j: int|
        0 <= j < t.rows.len() && (#[trigger] t.rows[j]).interface != stale.key implies bound.rows[j]
        == t.rows[j] && lifecycle::captures_recovered(bound, keys, keys.len()).rows[j]
        == t.rows[j] by {
        lemma_rebound_elsewhere(pointed, keys, rebuild.rebinds@, keys.len(), j);
        lemma_recovered_elsewhere(bound, keys, keys.len(), j);
    }
    lemma_rebound_shape(pointed, keys, rebuild.rebinds@, keys.len());
    lemma_recovered_shape(bound, keys, keys.len());
}

proof fn lemma_rebound_shape(
    t: Table,
    keys: Seq<CaptureKey>,
    rebinds: Seq<Result<LinkType, Errno>>,
    n: nat,
)
    requires
        n <= keys.len(),
    ensures
        lifecycle::captures_rebound(t, keys, rebinds, n).links == t.links,
        lifecycle::captures_rebound(t, keys, rebinds, n).rows.len() == t.rows.len(),
    decreases n,
{
    if n > 0 {
        lemma_rebound_shape(t, keys, rebinds, (n - 1) as nat);
    }
}

proof fn lemma_recovered_shape(t: Table, keys: Seq<CaptureKey>, n: nat)
    requires
        n <= keys.len(),
        forall|k: int| 0 <= k < keys.len() ==> (#[trigger] keys[k]).index < t.rows.len(),
    ensures
        lifecycle::captures_recovered(t, keys, n).links == t.links,
        lifecycle::captures_recovered(t, keys, n).rows.len() == t.rows.len(),
    decreases n,
{
    if n > 0 {
        lemma_recovered_shape(t, keys, (n - 1) as nat);
        assert(keys[n - 1].index < t.rows.len());
    }
}

/// A row that is not among the first `n` keys is not re-bound.
proof fn lemma_rebound_elsewhere(
    t: Table,
    keys: Seq<CaptureKey>,
    rebinds: Seq<Result<LinkType, Errno>>,
    n: nat,
    j: int,
)
    requires
        n <= keys.len(),
        0 <= j < t.rows.len(),
        forall|k: int| 0 <= k < n ==> (#[trigger] keys[k]).index != j,
    ensures
        lifecycle::captures_rebound(t, keys, rebinds, n).rows[j] == t.rows[j],
        lifecycle::captures_rebound(t, keys, rebinds, n).rows.len() == t.rows.len(),
    decreases n,
{
    if n > 0 {
        lemma_rebound_elsewhere(t, keys, rebinds, (n - 1) as nat, j);
        assert(keys[n - 1].index != j);
    }
}

/// A row that is not among the first `n` keys counts no recovery.
proof fn lemma_recovered_elsewhere(t: Table, keys: Seq<CaptureKey>, n: nat, j: int)
    requires
        n <= keys.len(),
        0 <= j < t.rows.len(),
        forall|k: int| 0 <= k < keys.len() ==> (#[trigger] keys[k]).index < t.rows.len(),
        forall|k: int| 0 <= k < n ==> (#[trigger] keys[k]).index != j,
    ensures
        lifecycle::captures_recovered(t, keys, n).rows[j] == t.rows[j],
        lifecycle::captures_recovered(t, keys, n).rows.len() == t.rows.len(),
    decreases n,
{
    if n > 0 {
        lemma_recovered_elsewhere(t, keys, (n - 1) as nat, j);
        assert(keys[n - 1].index != j);
        assert(keys[n - 1].index < t.rows.len());
    }
}

/// Some capture of the interface that is in place could not be re-bound.
pub open spec fn a_capture_is_stuck(t: Table, stale: StaleInterface, rebuild: Rebuild) -> bool {
    exists|k: int|
        0 <= k < interface_table::captures_on(t.rows, stale.key).len() && t.rows[(
        #[trigger] interface_table::captures_on(t.rows, stale.key)[k]).index as int].capture is Some
            && rebuild.rebinds@[k] is Err
}

/// The captures of a stale interface: one in place that is re-bound has the framing of what it is
/// bound to now, its fd and its counts stay; one that is not in place, or whose re-bind failed, is as
/// it was. Each counts a recovery where the interface is back, resolved, and no capture is stuck.
pub proof fn law_a_rebuild_rebinds_the_captures(
    t: Table,
    stale: StaleInterface,
    rebuild: Rebuild,
    k: int,
)
    requires
        t.wf(),
        stale.key.index < t.links.len(),
        0 <= k < interface_table::captures_on(t.rows, stale.key).len(),
    ensures
        ({
            let key = interface_table::captures_on(t.rows, stale.key)[k];
            let had = t.rows[key.index as int];
            let has = lifecycle::rebuilt_table(t, stale, rebuild).rows[key.index as int];
            let whole = stale.cur != 0 && rebuild.refreshed is Ok && !a_capture_is_stuck(
                t,
                stale,
                rebuild,
            );
            &&& has.interface == had.interface
            &&& has.sent_packet == had.sent_packet && has.sent == had.sent
            &&& stale.cur == 0 ==> has == had
            &&& stale.cur != 0 && had.capture is Some && rebuild.rebinds@[k] is Ok ==> {
                &&& has.capture is Some
                &&& (has.capture->0).link_type == rebuild.rebinds@[k]->Ok_0
                &&& (has.capture->0).fd == (had.capture->0).fd
                &&& (has.capture->0).name == (had.capture->0).name
            }
            &&& had.capture is None || rebuild.rebinds@[k] is Err ==> has.capture == had.capture
            &&& has.counts.types == had.counts.types && has.counts.filtered == had.counts.filtered
                && has.counts.echoed == had.counts.echoed && has.counts.oversized
                == had.counts.oversized
            &&& !whole ==> has.counts.recoveries == had.counts.recoveries
            &&& whole && had.counts.recoveries < u64::MAX ==> has.counts.recoveries
                == had.counts.recoveries + 1
        }),
{
    let keys = interface_table::captures_on(t.rows, stale.key);
    let key = keys[k];
    let j: int = key.index as int;
    let pointed = t.rebound(stale.key, stale.cur, rebuild.refreshed, rebuild.attempts@);
    repair::lemma_captures_on_interface(t.rows, stale.key);
    law_the_captures_of_an_interface(t.rows, stale.key, key);
    let bound = lifecycle::captures_rebound(pointed, keys, rebuild.rebinds@, keys.len());
    if stale.cur != 0 {
        lemma_rebound_at(pointed, keys, rebuild.rebinds@, keys.len(), k);
        lemma_rebound_shape(pointed, keys, rebuild.rebinds@, keys.len());
        lemma_recovered_at(bound, keys, keys.len(), k);
        if lifecycle::any_rebind_failed(t, keys, rebuild.rebinds@, keys.len()) {
            let m: int = choose|m: int|
                0 <= m < keys.len() && t.capture_at(#[trigger] keys[m]) is Some
                    && rebuild.rebinds@[m] is Err;
            assert(t.rows[keys[m].index as int].capture is Some);
        }
        if a_capture_is_stuck(t, stale, rebuild) {
            let m: int = choose|m: int|
                0 <= m < interface_table::captures_on(t.rows, stale.key).len() && t.rows[(
                #[trigger] interface_table::captures_on(t.rows, stale.key)[m]).index as int].capture
                    is Some && rebuild.rebinds@[m] is Err;
            assert(t.capture_at(keys[m]) is Some);
        }
    }
}

proof fn lemma_rebound_at(
    t: Table,
    keys: Seq<CaptureKey>,
    rebinds: Seq<Result<LinkType, Errno>>,
    n: nat,
    k: int,
)
    requires
        0 <= k < n <= keys.len(),
        forall|m: int| 0 <= m < keys.len() ==> (#[trigger] keys[m]).index < t.rows.len(),
        forall|a: int, b: int|
            0 <= a < b < keys.len() ==> (#[trigger] keys[a]).index < (#[trigger] keys[b]).index,
    ensures
        lifecycle::captures_rebound(t, keys, rebinds, n).rows[keys[k].index as int]
            == t.capture_rebound(keys[k], rebinds[k]).rows[keys[k].index as int],
    decreases n,
{
    let m = (n - 1) as nat;
    let j: int = keys[k].index as int;
    let before = lifecycle::captures_rebound(t, keys, rebinds, m);
    lemma_rebound_shape(t, keys, rebinds, m);
    if k == n - 1 {
        assert forall|a: int| 0 <= a < m implies (#[trigger] keys[a]).index != j by {
            assert(keys[a].index < keys[k].index);
        }
        lemma_rebound_elsewhere(t, keys, rebinds, m, j);
    } else {
        lemma_rebound_at(t, keys, rebinds, m, k);
        assert(keys[k].index < keys[n - 1].index);
    }
}

proof fn lemma_recovered_at(t: Table, keys: Seq<CaptureKey>, n: nat, k: int)
    requires
        0 <= k < n <= keys.len(),
        forall|m: int| 0 <= m < keys.len() ==> (#[trigger] keys[m]).index < t.rows.len(),
        forall|a: int, b: int|
            0 <= a < b < keys.len() ==> (#[trigger] keys[a]).index < (#[trigger] keys[b]).index,
    ensures
        lifecycle::captures_recovered(t, keys, n).rows[keys[k].index as int] == t.recovered(
            keys[k],
        ).rows[keys[k].index as int],
    decreases n,
{
    let m = (n - 1) as nat;
    let j: int = keys[k].index as int;
    lemma_recovered_shape(t, keys, m);
    assert(keys[k].index < t.rows.len());
    assert(keys[n - 1].index < t.rows.len());
    if k == n - 1 {
        assert forall|a: int| 0 <= a < m implies (#[trigger] keys[a]).index != j by {
            assert(keys[a].index < keys[k].index);
        }
        lemma_recovered_elsewhere(t, keys, m, j);
    } else {
        lemma_recovered_at(t, keys, m, k);
        assert(keys[k].index < keys[n - 1].index);
    }
}

/// After a pass the next one comes a second later while an interface is absent or a step failed, and
/// half a minute later else.
pub proof fn law_the_next_pass_comes_soon_while_something_is_missing(now: u64, end: Repaired)
    ensures
        end.pending ==> lifecycle::rearmed(now, end) == now + 1_000_000_000,
        (exists|i: int|
            0 <= i < end.table.links.len() && (#[trigger] end.table.links[i]).ifindex == 0)
            ==> lifecycle::rearmed(now, end) == now + 1_000_000_000,
        !end.pending && (forall|i: int|
            0 <= i < end.table.links.len() ==> (#[trigger] end.table.links[i]).ifindex != 0)
            ==> lifecycle::rearmed(now, end) == now + 30_000_000_000,
{
}

/// A pass has a step pending where one of its rebuilds did not resolve or left a capture stuck.
pub proof fn law_a_failed_step_is_pending(
    t: Table,
    stale: Seq<StaleInterface>,
    rebuilds: Seq<Rebuild>,
    n: nat,
)
    requires
        n <= stale.len(),
    ensures
        lifecycle::repaired(t, stale, rebuilds, n).pending <==> exists|k: int|
            0 <= k < n && {
                let at = lifecycle::repaired(t, stale, rebuilds, k as nat).table;
                (#[trigger] rebuilds[k]).refreshed is Err || stale[k].cur != 0
                    && lifecycle::any_rebind_failed(
                    at,
                    interface_table::captures_on(at.rows, stale[k].key),
                    rebuilds[k].rebinds@,
                    interface_table::captures_on(at.rows, stale[k].key).len(),
                )
            },
    decreases n,
{
    if n > 0 {
        law_a_failed_step_is_pending(t, stale, rebuilds, (n - 1) as nat);
        let r = rebuilds[n - 1];
    }
}

} // verus!
