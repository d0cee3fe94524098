//! One event through the dispatcher: draining a capture, offering a packet to the registrations, and
//! the deadlines, interface changes and dumps that the reactor announces.
//!
//! Each starts with a call that returns its state, goes on with a call per thing that happened, and
//! ends with a call that takes the state back.

use vstd::prelude::*;

use crate::capture;
use crate::capture::Capture;
use crate::dispatch::counters;
use crate::dispatch::counters::{Counts, Outcome};
use crate::dispatch::dial_context;
use crate::dispatch::dial_context::{DialContext, DialEntry, DialProxyKey, Eviction};
use crate::dispatch::filter;
use crate::dispatch::interface_table;
use crate::dispatch::interface_table::repair;
use crate::dispatch::interface_table::{Answer, Row, StaleInterface};
use crate::dispatch::lifecycle;
use crate::dispatch::lifecycle::{Changes, Collected, Platform, Rebuild, Rebuilt};
use crate::dispatch::{
    CaptureKey, CounterReport, PacketDispatcher, Registration, RegistrationKey,
    MAX_FRAMES_PER_EVENT, MONITOR_TAG,
};
use crate::errno::Errno;
use crate::interface::InterfaceAddresses;
use crate::linear_map;
use crate::net::packet::Packet;
use crate::text;

verus! {

/// What an fd that is ready asks for.
#[derive(Clone, Copy, PartialEq, Eq, Structural, Debug)]
pub enum Readable {
    Monitor,
    Capture(CaptureKey),
}

/// Why a drain did not start.
#[derive(Clone, Copy, PartialEq, Eq, Structural, Debug)]
pub enum DrainRefusal {
    /// A reflector re-entered the drain on its own ingress, which it shouldn't.
    AlreadyDraining,
    /// A tag that names no capture reached us.
    OutOfRange,
}

/// A capture taken out for its drain, and what was read of it so far.
#[derive(PartialEq, Eq, Debug)]
pub struct Drain {
    pub ingress: CaptureKey,
    pub capture: Capture,
    pub drained: u32,
    pub oversized: u64,
}

/// What a read of a capture gave.
#[derive(Clone, Copy, PartialEq, Eq, Structural, Debug)]
pub enum ReadEvent {
    /// A frame to parse and route.
    Frame,
    /// A frame too large to forward, dropped and counted.
    Oversized,
    /// Nothing more for now.
    WouldBlock,
    Failed(Errno),
}

/// What the drain does next.
#[derive(Clone, Copy, PartialEq, Eq, Structural, Debug)]
pub enum DrainStep {
    /// Parse the frame and route it, then read on.
    Route,
    /// Read on.
    Again,
    /// The batch is done.
    Done,
    /// The capture lost its interface: the reconcile was pulled forward, and the batch is done.
    LostInterface,
    /// The batch is abandoned; other read errors say nothing about the interface and are left to the
    /// tick.
    Abandoned,
}

/// A packet on its way through the registrations.
#[derive(PartialEq, Eq, Debug)]
pub struct Route {
    pub ingress: CaptureKey,
    pub addrs: Option<InterfaceAddresses>,
    /// The registrations that were live when the packet came, in order.
    pub keys: Vec<RegistrationKey>,
    /// How many of them are done.
    pub at: usize,
    /// What the handlers did with it so far.
    pub outcome: Option<Outcome>,
}

/// The registration of the key is live and takes the packet.
pub open spec fn key_applies(
    registrations: Seq<(u64, Registration)>,
    key: RegistrationKey,
    ingress: CaptureKey,
    packet: Packet,
    addrs: Option<InterfaceAddresses>,
) -> bool {
    match linear_map::lookup(registrations, key.id) {
        Some(registration) => registration.applies(ingress, packet, addrs),
        None => false,
    }
}

/// The first place from `from` on whose registration is live and takes the packet; the number of keys
/// where there is none.
pub open spec fn next_place(
    registrations: Seq<(u64, Registration)>,
    route: Route,
    packet: Packet,
    from: int,
) -> int
    decreases route.keys@.len() - from,
{
    if from >= route.keys@.len() || key_applies(
        registrations,
        route.keys@[from],
        route.ingress,
        packet,
        route.addrs,
    ) {
        from
    } else {
        next_place(registrations, route, packet, from + 1)
    }
}

impl Drain {
    /// The batch goes on: the budget is not spent, or the capture holds frames that the wait would
    /// not re-report.
    #[verifier::allow_in_spec]
    pub fn wants_more(&self, has_buffered: bool) -> (r: bool)
        returns
            self.drained < MAX_FRAMES_PER_EVENT || has_buffered,
    {
        self.drained < MAX_FRAMES_PER_EVENT || has_buffered
    }
}

/// How much a run of reads drained; the batch is read only while it goes on.
pub open spec fn drained_of(reads: Seq<ReadEvent>, buffered: Seq<bool>) -> int
    decreases reads.len(),
{
    if reads.len() == 0 {
        0
    } else {
        let before = drained_of(reads.drop_last(), buffered);
        let goes_on = before < MAX_FRAMES_PER_EVENT || buffered[reads.len() - 1];
        let reads_on = reads.last() is Frame || reads.last() is Oversized;
        if goes_on && reads_on {
            before + 1
        } else {
            before
        }
    }
}

/// A flooded interface can't starve the others: where the capture holds nothing back, no more frames
/// are drained per event than the budget, dropped ones included.
pub proof fn law_a_drain_keeps_to_its_budget(reads: Seq<ReadEvent>, buffered: Seq<bool>)
    requires
        buffered.len() == reads.len(),
        forall|i: int| 0 <= i < buffered.len() ==> !#[trigger] buffered[i],
    ensures
        0 <= drained_of(reads, buffered) <= MAX_FRAMES_PER_EVENT,
    decreases reads.len(),
{
    if reads.len() > 0 {
        let fewer = buffered.drop_last();
        assert forall|i: int| 0 <= i < fewer.len() implies !#[trigger] fewer[i] by {
            assert(!buffered[i]);
        }
        law_a_drain_keeps_to_its_budget(reads.drop_last(), fewer);
        lemma_drained_prefix(reads.drop_last(), buffered);
        assert(!buffered[reads.len() - 1]);
    }
}

/// What was drained depends on the flags of the reads made alone.
proof fn lemma_drained_prefix(reads: Seq<ReadEvent>, buffered: Seq<bool>)
    requires
        reads.len() < buffered.len(),
    ensures
        drained_of(reads, buffered) == drained_of(reads, buffered.drop_last()),
    decreases reads.len(),
{
    if reads.len() > 0 {
        lemma_drained_prefix(reads.drop_last(), buffered);
    }
}

/// `next_place` is the first of its kind.
pub proof fn lemma_next_place(
    registrations: Seq<(u64, Registration)>,
    route: Route,
    packet: Packet,
    from: int,
)
    requires
        0 <= from <= route.keys@.len(),
    ensures
        from <= next_place(registrations, route, packet, from) <= route.keys@.len(),
        forall|i: int|
            from <= i < next_place(registrations, route, packet, from) ==> !key_applies(
                registrations,
                #[trigger] route.keys@[i],
                route.ingress,
                packet,
                route.addrs,
            ),
        next_place(registrations, route, packet, from) < route.keys@.len() ==> key_applies(
            registrations,
            route.keys@[next_place(registrations, route, packet, from)],
            route.ingress,
            packet,
            route.addrs,
        ),
    decreases route.keys@.len() - from,
{
    if from < route.keys@.len() && !key_applies(
        registrations,
        route.keys@[from],
        route.ingress,
        packet,
        route.addrs,
    ) {
        lemma_next_place(registrations, route, packet, from + 1);
    }
}

/// The keys a packet is offered to from a place on, where no handler changes the registrations.
pub open spec fn offered(
    registrations: Seq<(u64, Registration)>,
    route: Route,
    packet: Packet,
    from: int,
) -> Seq<RegistrationKey>
    decreases route.keys@.len() - from,
{
    let i: int = next_place(registrations, route, packet, from);
    if from < 0 || i < from || i >= route.keys@.len() {
        Seq::empty()
    } else {
        seq![route.keys@[i]] + offered(registrations, route, packet, i + 1)
    }
}

/// Where no handler changes the registrations, a packet is offered to every registration that takes
/// it, and to no other.
pub proof fn law_every_matching_registration_is_offered_the_packet(
    registrations: Seq<(u64, Registration)>,
    route: Route,
    packet: Packet,
    from: int,
)
    requires
        0 <= from <= route.keys@.len(),
    ensures
        forall|i: int|
            from <= i < route.keys@.len() && key_applies(
                registrations,
                #[trigger] route.keys@[i],
                route.ingress,
                packet,
                route.addrs,
            ) ==> offered(registrations, route, packet, from).contains(route.keys@[i]),
        forall|k: int|
            0 <= k < offered(registrations, route, packet, from).len() ==> key_applies(
                registrations,
                #[trigger] offered(registrations, route, packet, from)[k],
                route.ingress,
                packet,
                route.addrs,
            ),
    decreases route.keys@.len() - from,
{
    lemma_next_place(registrations, route, packet, from);
    let at: int = next_place(registrations, route, packet, from);
    let all = offered(registrations, route, packet, from);
    if at < route.keys@.len() {
        law_every_matching_registration_is_offered_the_packet(
            registrations,
            route,
            packet,
            at + 1,
        );
        let rest = offered(registrations, route, packet, at + 1);
        assert(all == seq![route.keys@[at]] + rest);
        assert forall|i: int|
            from <= i < route.keys@.len() && key_applies(
                registrations,
                #[trigger] route.keys@[i],
                route.ingress,
                packet,
                route.addrs,
            ) implies all.contains(route.keys@[i]) by {
            if i == at {
                assert(all[0] == route.keys@[i]);
            } else if i > at {
                let k: int = choose|k: int| 0 <= k < rest.len() && rest[k] == route.keys@[i];
                assert(all[k + 1] == route.keys@[i]);
            }
        }
        assert forall|k: int| 0 <= k < all.len() implies key_applies(
            registrations,
            #[trigger] all[k],
            route.ingress,
            packet,
            route.addrs,
        ) by {
            if k > 0 {
                assert(all[k] == rest[k - 1]);
            }
        }
    }
}

impl PacketDispatcher {
    /// [`MONITOR_TAG`] is the monitor's; any other tag is the ready capture's key.
    pub fn on_readable(user_data: u64) -> (r: Readable)
        ensures
            r == (if user_data == MONITOR_TAG {
                Readable::Monitor
            } else {
                Readable::Capture(CaptureKey::unpacked(user_data))
            }),
    {
        if user_data == MONITOR_TAG {
            Readable::Monitor
        } else {
            Readable::Capture(CaptureKey::from_u64(user_data))
        }
    }

    /// Take the ingress capture out for its drain.
    pub fn begin_drain(&mut self, ingress: CaptureKey) -> (r: Result<Drain, DrainRefusal>)
        requires
            old(self).wf(),
        ensures
            final(self).wf(),
            final(self).same_but_table(old(self)),
            match r {
                Ok(drain) => {
                    &&& ingress.index < old(self).table@.rows.len()
                    &&& interface_table::tap(Some(drain.capture)) == old(self).table@.capture_at(
                        ingress,
                    )
                    &&& drain.ingress == ingress
                    &&& drain.drained == 0
                    &&& drain.oversized == 0
                    &&& final(self).table@ == old(self).table@.with_row(
                        ingress.index as int,
                        Row { capture: None, ..old(self).table@.rows[ingress.index as int] },
                    )
                },
                Err(refusal) => {
                    &&& old(self).table@.capture_at(ingress) is None
                    &&& final(self).table@ == old(self).table@
                    &&& refusal == (if ingress.index < old(self).table@.rows.len() {
                        DrainRefusal::AlreadyDraining
                    } else {
                        DrainRefusal::OutOfRange
                    })
                },
            },
    {
        match self.table.take(ingress) {
            Some(capture) => Ok(Drain { ingress, capture, drained: 0, oversized: 0 }),
            None => {
                assert(self.table@.rows =~= old(self).table@.rows);
                if self.table.contains(ingress) {
                    Err(DrainRefusal::AlreadyDraining)
                } else {
                    Err(DrainRefusal::OutOfRange)
                }
            },
        }
    }

    /// Take what a read gave, at `now`. A read error is the expected first sign of an interface
    /// destruction: the reconcile is pulled forward, not run from here, mid-drain, with this capture
    /// taken out of its slot.
    pub fn on_read(&mut self, drain: &mut Drain, read: ReadEvent, now: u64) -> (r: DrainStep)
        requires
            old(self).wf(),
            old(drain).drained < u32::MAX,
            old(drain).oversized <= old(drain).drained,
        ensures
            final(self).wf(),
            final(self).table == old(self).table,
            final(self).registrations == old(self).registrations,
            final(self).next_registration == old(self).next_registration,
            final(self).dial == old(self).dial,
            final(self).egress == old(self).egress,
            final(self).report == old(self).report,
            final(self).lifecycle.monitor_fd == old(self).lifecycle.monitor_fd,
            final(self).lifecycle.max_seen_ifindex == old(self).lifecycle.max_seen_ifindex,
            final(self).lifecycle.next_reconcile == (if r == DrainStep::LostInterface {
                now
            } else {
                old(self).lifecycle.next_reconcile
            }),
            final(drain).ingress == old(drain).ingress,
            final(drain).capture == old(drain).capture,
            final(drain).drained == old(drain).drained + (if read is Frame || read is Oversized {
                1int
            } else {
                0int
            }),
            final(drain).oversized == old(drain).oversized + (if read is Oversized {
                1int
            } else {
                0int
            }),
            final(drain).oversized <= final(drain).drained,
            r == match read {
                ReadEvent::Frame => DrainStep::Route,
                ReadEvent::Oversized => DrainStep::Again,
                ReadEvent::WouldBlock => DrainStep::Done,
                ReadEvent::Failed(e) => if capture::lost_interface(e) {
                    DrainStep::LostInterface
                } else {
                    DrainStep::Abandoned
                },
            },
    {
        match read {
            ReadEvent::Frame => {
                drain.drained = drain.drained + 1;
                DrainStep::Route
            },
            ReadEvent::Oversized => {
                drain.drained = drain.drained + 1;
                drain.oversized = drain.oversized + 1;
                DrainStep::Again
            },
            ReadEvent::WouldBlock => DrainStep::Done,
            ReadEvent::Failed(e) => if capture::lost_interface(e) {
                self.lifecycle.reconcile_now(now);
                DrainStep::LostInterface
            } else {
                DrainStep::Abandoned
            },
        }
    }

    /// Count the oversized frames and put the capture back.
    pub fn end_drain(&mut self, drain: Drain)
        requires
            old(self).wf(),
            drain.ingress.index < old(self).table@.rows.len(),
            old(self).table@.rows[drain.ingress.index as int].counts.oversized + drain.oversized
                <= u64::MAX,
        ensures
            final(self).wf(),
            final(self).same_but_table(old(self)),
            final(self).table@ == ({
                let row = old(self).table@.rows[drain.ingress.index as int];
                old(self).table@.with_row(
                    drain.ingress.index as int,
                    Row {
                        capture: interface_table::tap(Some(drain.capture)),
                        counts: Counts {
                            oversized: (row.counts.oversized + drain.oversized) as u64,
                            ..row.counts
                        },
                        ..row
                    },
                )
            }),
    {
        if drain.oversized > 0 {
            self.table.record_oversized(drain.ingress, drain.oversized);
        }
        let _ = self.table.restore(drain.ingress, drain.capture);
        assert(self.table@.rows =~= old(self).table@.rows.update(
            drain.ingress.index as int,
            self.table@.rows[drain.ingress.index as int],
        ));
    }

    /// Start a packet captured on `ingress` through the registrations. `None`: it is our own re-emit
    /// handed back by the link (a hairpin bridge port, an access point that re-broadcasts a station's
    /// multicast), which arrives as an ordinary received frame, past the capture's outgoing drop, and
    /// which a same-direction handler on this ingress (the mirrored leg of a bidirectional pair)
    /// would relay again. Only its source MAC gives it away; it is counted and goes to no handler.
    ///
    /// The registrations live now are the ones that are offered it, so one born on the way is not fed
    /// the in-flight frame. Routing never nests: a handler sends but never routes.
    pub fn begin_route(&mut self, ingress: CaptureKey, packet: &Packet) -> (r: Option<Route>)
        requires
            old(self).wf(),
            ingress.index < old(self).table@.rows.len(),
            old(self).table@.rows[ingress.index as int].counts.echoed < u64::MAX,
            !old(self).egress.routing,
            old(self).egress.packet < u64::MAX,
        ensures
            final(self).wf(),
            final(self).registrations == old(self).registrations,
            final(self).next_registration == old(self).next_registration,
            final(self).lifecycle == old(self).lifecycle,
            final(self).dial == old(self).dial,
            final(self).report == old(self).report,
            ({
                let own = match old(self).table@.addrs_at(ingress) {
                    Some(addrs) => addrs.mac,
                    None => None,
                };
                let row = old(self).table@.rows[ingress.index as int];
                if filter::is_own_echo(packet.src_mac, own) {
                    &&& r is None
                    &&& final(self).egress == old(self).egress
                    &&& final(self).table@ == old(self).table@.with_row(
                        ingress.index as int,
                        Row {
                            counts: Counts {
                                echoed: (row.counts.echoed + 1) as u64,
                                ..row.counts
                            },
                            ..row
                        },
                    )
                } else {
                    &&& final(self).table == old(self).table
                    &&& final(self).egress.packet == old(self).egress.packet + 1
                    &&& final(self).egress.routing
                    &&& r matches Some(route) && {
                        &&& route.ingress == ingress
                        &&& route.addrs == old(self).table@.addrs_at(ingress)
                        &&& route.keys@ == crate::dispatch::live_keys(
                            old(self).registrations.entries@,
                        )
                        &&& route.at == 0
                        &&& route.outcome is None
                    }
                }
            }),
    {
        let addrs = self.table.egress_addrs(ingress);
        let own = match addrs {
            Some(addrs) => addrs.mac(),
            None => None,
        };
        if filter::is_own_echo(packet.src_mac, own) {
            self.table.record_echo(ingress);
            return None;
        }
        let keys = self.snapshot();
        self.egress.begin_packet();
        Some(Route { ingress, addrs, keys, at: 0, outcome: None })
    }

    /// The next registration that takes the packet, whose handler is then to be called and its outcome
    /// given to [`fold`](Route::fold). A registration that was removed on the way is skipped.
    pub fn next_match(&self, route: &mut Route, packet: &Packet) -> (r: Option<RegistrationKey>)
        requires
            old(route).at <= old(route).keys@.len(),
        ensures
            final(route).ingress == old(route).ingress,
            final(route).addrs == old(route).addrs,
            final(route).keys == old(route).keys,
            final(route).outcome == old(route).outcome,
            final(route).at <= final(route).keys@.len(),
            ({
                let i: int = next_place(
                    self.registrations.entries@,
                    *old(route),
                    *packet,
                    old(route).at as int,
                );
                match r {
                    Some(key) => i < old(route).keys@.len() && key == old(route).keys@[i]
                        && final(route).at == i + 1,
                    None => i == old(route).keys@.len() && final(route).at
                        == old(route).keys@.len(),
                }
            }),
    {
        let mut i: usize = route.at;
        proof {
            lemma_next_place(self.registrations.entries@, *route, *packet, route.at as int);
        }
        let ghost place: int = next_place(
            self.registrations.entries@,
            *route,
            *packet,
            route.at as int,
        );
        while i < route.keys.len()
            invariant
                *route == *old(route),
                i <= route.keys@.len(),
                i <= place <= route.keys@.len(),
                place == next_place(
                    self.registrations.entries@,
                    *old(route),
                    *packet,
                    old(route).at as int,
                ),
                place < route.keys@.len() ==> key_applies(
                    self.registrations.entries@,
                    route.keys@[place],
                    route.ingress,
                    *packet,
                    route.addrs,
                ),
                forall|j: int|
                    old(route).at <= j < place ==> !key_applies(
                        self.registrations.entries@,
                        #[trigger] route.keys@[j],
                        route.ingress,
                        *packet,
                        route.addrs,
                    ),
                old(route).at <= i,
            decreases route.keys@.len() - i,
        {
            let key = route.keys[i];
            let applies = match self.registrations.get(&key.id) {
                Some(registration) => registration.ingress == route.ingress
                    && registration.filter.matches(packet, route.addrs),
                None => false,
            };
            assert(applies == key_applies(
                self.registrations.entries@,
                route.keys@[i as int],
                route.ingress,
                *packet,
                route.addrs,
            ));
            if applies {
                route.at = i + 1;
                return Some(key);
            }
            i += 1;
        }
        route.at = i;
        None
    }

    /// One packet, one count: record the folded outcome on the ingress capture's row. A packet that
    /// matched no registration is not counted.
    pub fn end_route(&mut self, route: Route)
        requires
            old(self).wf(),
            route.ingress.index < old(self).table@.rows.len(),
            route.outcome matches Some(outcome) ==> old(
                self,
            ).table@.rows[route.ingress.index as int].counts.bucket(outcome) < u64::MAX,
        ensures
            final(self).wf(),
            final(self).registrations == old(self).registrations,
            final(self).next_registration == old(self).next_registration,
            final(self).lifecycle == old(self).lifecycle,
            final(self).dial == old(self).dial,
            final(self).report == old(self).report,
            final(self).egress.packet == old(self).egress.packet,
            !final(self).egress.routing,
            final(self).table@ == match route.outcome {
                Some(outcome) => {
                    let row = old(self).table@.rows[route.ingress.index as int];
                    old(self).table@.with_row(
                        route.ingress.index as int,
                        Row { counts: row.counts.counted(outcome), ..row },
                    )
                },
                None => old(self).table@,
            },
    {
        self.egress.end_packet();
        if let Some(outcome) = route.outcome {
            self.table.record(route.ingress, outcome);
        }
    }
}

impl Route {
    /// Fold a handler's outcome into the packet's running result (highest disposition wins). Returns
    /// whether the handlers disagree on the packet's message type, which can't happen under a valid
    /// config.
    pub fn fold(&mut self, outcome: Outcome) -> (r: bool)
        ensures
            final(self).ingress == old(self).ingress,
            final(self).addrs == old(self).addrs,
            final(self).keys == old(self).keys,
            final(self).at == old(self).at,
            final(self).outcome == Some(
                match old(self).outcome {
                    Some(prev) => prev.merged(outcome),
                    None => outcome,
                },
            ),
            r == match old(self).outcome {
                Some(prev) => prev.mismatch(outcome),
                None => false,
            },
    {
        match self.outcome {
            None => {
                self.outcome = Some(outcome);
                false
            },
            Some(prev) => {
                let (merged, anomalies) = prev.combine(outcome);
                self.outcome = Some(merged);
                anomalies.type_mismatch
            },
        }
    }
}

/// Folding the handlers' outcomes one by one comes to their fold.
pub proof fn law_one_packet_is_counted_once(outcomes: Seq<Outcome>, next: Outcome)
    ensures
        counters::folded(outcomes.push(next)) == Some(
            match counters::folded(outcomes) {
                Some(prev) => prev.merged(next),
                None => next,
            },
        ),
{
    assert(outcomes.push(next).drop_last() =~= outcomes);
}

/// A deadline of a registered handler.
#[derive(Clone, Copy, PartialEq, Eq, Structural, Debug)]
pub struct HandlerDeadline {
    pub key: RegistrationKey,
    pub deadline: Option<u64>,
}

/// The sooner of two deadlines.
pub open spec fn sooner(a: Option<u64>, b: Option<u64>) -> Option<u64> {
    match (a, b) {
        (Some(x), Some(y)) => if y < x {
            Some(y)
        } else {
            Some(x)
        },
        (Some(x), None) => Some(x),
        (None, y) => y,
    }
}

fn earlier(a: Option<u64>, b: Option<u64>) -> (r: Option<u64>)
    ensures
        r == sooner(a, b),
{
    match (a, b) {
        (Some(x), Some(y)) => if y < x {
            Some(y)
        } else {
            Some(x)
        },
        (Some(x), None) => Some(x),
        (None, y) => y,
    }
}

/// The soonest of the handlers' deadlines.
pub open spec fn soonest_deadline(handlers: Seq<HandlerDeadline>) -> Option<u64>
    decreases handlers.len(),
{
    if handlers.len() == 0 {
        None
    } else {
        sooner(soonest_deadline(handlers.drop_last()), handlers.last().deadline)
    }
}

/// No handler's deadline is sooner than the soonest, and the soonest is one of them.
pub proof fn law_no_deadline_is_sooner(handlers: Seq<HandlerDeadline>)
    ensures
        forall|i: int|
            0 <= i < handlers.len() && (#[trigger] handlers[i]).deadline is Some ==> {
                &&& soonest_deadline(handlers) is Some
                &&& soonest_deadline(handlers)->0 <= handlers[i].deadline->0
            },
        soonest_deadline(handlers) is Some ==> exists|i: int|
            0 <= i < handlers.len() && (#[trigger] handlers[i]).deadline == soonest_deadline(
                handlers,
            ),
    decreases handlers.len(),
{
    if handlers.len() > 0 {
        let t = handlers.drop_last();
        law_no_deadline_is_sooner(t);
        assert forall|i: int|
            0 <= i < handlers.len() && (#[trigger] handlers[i]).deadline is Some implies {
            &&& soonest_deadline(handlers) is Some
            &&& soonest_deadline(handlers)->0 <= handlers[i].deadline->0
        } by {
            if i < t.len() {
                assert(t[i] == handlers[i]);
            }
        }
        assert(handlers[handlers.len() - 1] == handlers.last());
        if soonest_deadline(t) is Some {
            let i: int = choose|i: int|
                0 <= i < t.len() && (#[trigger] t[i]).deadline == soonest_deadline(t);
            assert(handlers[i] == t[i]);
        }
    }
}

/// The handlers whose deadline has come, in order.
pub open spec fn due_keys(handlers: Seq<HandlerDeadline>, now: u64) -> Seq<RegistrationKey>
    decreases handlers.len(),
{
    if handlers.len() == 0 {
        Seq::empty()
    } else {
        let before = due_keys(handlers.drop_last(), now);
        match handlers.last().deadline {
            Some(d) => if d <= now {
                before.push(handlers.last().key)
            } else {
                before
            },
            None => before,
        }
    }
}

/// Every handler whose deadline has come is listed, and no other; once, where each handler is.
pub proof fn law_due_handlers_are_listed_once(handlers: Seq<HandlerDeadline>, now: u64)
    ensures
        forall|i: int|
            0 <= i < handlers.len() && (#[trigger] handlers[i]).deadline is Some
                && handlers[i].deadline->0 <= now ==> due_keys(handlers, now).contains(
                handlers[i].key,
            ),
        forall|k: int|
            0 <= k < due_keys(handlers, now).len() ==> exists|i: int|
                0 <= i < handlers.len() && (#[trigger] handlers[i]).key == (
                #[trigger] due_keys(handlers, now)[k]) && handlers[i].deadline is Some
                    && handlers[i].deadline->0 <= now,
        (forall|i: int, j: int|
            0 <= i < j < handlers.len() ==> (#[trigger] handlers[i]).key != (
            #[trigger] handlers[j]).key) ==> due_keys(handlers, now).no_duplicates(),
    decreases handlers.len(),
{
    if handlers.len() > 0 {
        let t = handlers.drop_last();
        law_due_handlers_are_listed_once(t, now);
        let before = due_keys(t, now);
        let all = due_keys(handlers, now);
        let last = handlers.last();
        assert(handlers[handlers.len() - 1] == last);
        assert forall|i: int| 0 <= i < t.len() implies t[i] == handlers[i] by {}
        assert forall|i: int|
            0 <= i < handlers.len() && (#[trigger] handlers[i]).deadline is Some
                && handlers[i].deadline->0 <= now implies all.contains(handlers[i].key) by {
            if i < t.len() {
                assert(t[i] == handlers[i]);
                let k: int = choose|k: int| 0 <= k < before.len() && before[k] == t[i].key;
                assert(all[k] == handlers[i].key);
            } else {
                assert(all[all.len() - 1] == handlers[i].key);
            }
        }
        assert forall|k: int| 0 <= k < all.len() implies exists|i: int|
            0 <= i < handlers.len() && (#[trigger] handlers[i]).key == (#[trigger] all[k])
                && handlers[i].deadline is Some && handlers[i].deadline->0 <= now by {
            if k < before.len() {
                assert(all[k] == before[k]);
                let i: int = choose|i: int|
                    0 <= i < t.len() && (#[trigger] t[i]).key == before[k] && t[i].deadline is Some
                        && t[i].deadline->0 <= now;
                assert(handlers[i] == t[i]);
            } else {
                assert(handlers[handlers.len() - 1].key == all[k]);
            }
        }
        if forall|i: int, j: int|
            0 <= i < j < handlers.len() ==> (#[trigger] handlers[i]).key != (
            #[trigger] handlers[j]).key {
            assert forall|i: int, j: int| 0 <= i < j < t.len() implies (#[trigger] t[i]).key != (
            #[trigger] t[j]).key by {
                assert(t[i] == handlers[i] && t[j] == handlers[j]);
            }
            if all.len() > before.len() {
                assert forall|k: int| 0 <= k < before.len() implies before[k] != last.key by {
                    let i: int = choose|i: int|
                        0 <= i < t.len() && (#[trigger] t[i]).key == before[k];
                    assert(handlers[i] == t[i]);
                    assert(handlers[i].key != handlers[handlers.len() - 1].key);
                }
            }
        }
    }
}

/// The first place from `from` on whose registration is live; the number of keys where there is none.
pub open spec fn next_live_place(
    registrations: Seq<(u64, Registration)>,
    keys: Seq<RegistrationKey>,
    from: int,
) -> int
    decreases keys.len() - from,
{
    if from >= keys.len() {
        keys.len() as int
    } else if linear_map::lookup(registrations, keys[from].id) is Some {
        from
    } else {
        next_live_place(registrations, keys, from + 1)
    }
}

/// Who is called next is registered at its turn, and everyone who is passed over is not.
pub proof fn law_only_the_registered_have_a_turn(
    registrations: Seq<(u64, Registration)>,
    keys: Seq<RegistrationKey>,
    from: int,
)
    requires
        0 <= from <= keys.len(),
    ensures
        ({
            let place: int = next_live_place(registrations, keys, from);
            &&& from <= place <= keys.len()
            &&& place < keys.len() ==> linear_map::lookup(registrations, keys[place].id) is Some
            &&& forall|i: int|
                from <= i < place ==> linear_map::lookup(
                    registrations,
                    (#[trigger] keys[i]).id,
                ) is None
        }),
    decreases keys.len() - from,
{
    if from < keys.len() && linear_map::lookup(registrations, keys[from].id) is None {
        law_only_the_registered_have_a_turn(registrations, keys, from + 1);
    }
}

/// What an interface change leaves to be done: the proxies to unregister, and whom to tell.
#[derive(Debug)]
pub struct ChangeWork {
    pub changes: Changes,
    pub evicted: Vec<(DialProxyKey, DialEntry)>,
}

/// What one rebuilt interface leaves to be done.
#[derive(Debug)]
pub struct RebuildWork {
    pub rebuilt: Rebuilt,
    pub evicted: Vec<(DialProxyKey, DialEntry)>,
}

/// Copy a list of keys.
fn copied(keys: &Vec<CaptureKey>) -> (r: Vec<CaptureKey>)
    ensures
        r@ == keys@,
{
    let mut out: Vec<CaptureKey> = Vec::new();
    let mut i: usize = 0;
    while i < keys.len()
        invariant
            i <= keys@.len(),
            out@ == keys@.take(i as int),
        decreases keys@.len() - i,
    {
        out.push(keys[i]);
        assert(out@ =~= keys@.take(i as int + 1));
        i += 1;
    }
    assert(keys@.take(i as int) =~= keys@);
    out
}

/// The proxy is bound to one of the captures.
pub open spec fn on_captures(entry: (DialProxyKey, DialEntry), captures: Seq<CaptureKey>) -> bool {
    captures.contains(entry.0.source) || captures.contains(entry.0.target)
}

/// The proxies bound to none of the captures, and live.
pub open spec fn off_captures(
    s: Seq<(DialProxyKey, DialEntry)>,
    live: Seq<u64>,
    captures: Seq<CaptureKey>,
) -> Seq<(DialProxyKey, DialEntry)>
    decreases s.len(),
{
    if s.len() == 0 {
        Seq::empty()
    } else {
        let before = off_captures(s.drop_last(), live, captures);
        if !on_captures(s.last(), captures) && live.contains(s.last().1.handler) {
            before.push(s.last())
        } else {
            before
        }
    }
}

/// The proxies bound to one of the captures.
pub open spec fn bound_to(s: Seq<(DialProxyKey, DialEntry)>, captures: Seq<CaptureKey>) -> Seq<
    (DialProxyKey, DialEntry),
>
    decreases s.len(),
{
    if s.len() == 0 {
        Seq::empty()
    } else {
        let before = bound_to(s.drop_last(), captures);
        if on_captures(s.last(), captures) {
            before.push(s.last())
        } else {
            before
        }
    }
}

proof fn lemma_evicted_by_captures(
    s: Seq<(DialProxyKey, DialEntry)>,
    live: Seq<u64>,
    captures: Vec<CaptureKey>,
)
    ensures
        dial_context::kept(s, live, Some(Eviction::Changed(captures))) == off_captures(
            s,
            live,
            captures@,
        ),
        dial_context::evicted(s, Some(Eviction::Changed(captures))) == bound_to(s, captures@),
    decreases s.len(),
{
    if s.len() > 0 {
        lemma_evicted_by_captures(s.drop_last(), live, captures);
    }
}

/// What was rebuilt.
pub open spec fn rebuilt_of(works: Seq<RebuildWork>) -> Seq<Rebuilt> {
    Seq::new(works.len(), |i: int| works[i].rebuilt)
}

/// The proxies left after the first `n` rebuilt interfaces.
pub open spec fn proxies_left(
    s: Seq<(DialProxyKey, DialEntry)>,
    live: Seq<u64>,
    rebuilt: Seq<Rebuilt>,
    n: nat,
) -> Seq<(DialProxyKey, DialEntry)>
    decreases n,
{
    if n == 0 {
        s
    } else {
        off_captures(
            proxies_left(s, live, rebuilt, (n - 1) as nat),
            live,
            rebuilt[n - 1].captures@,
        )
    }
}

/// Evict the proxies on the captures of each rebuilt interface.
fn evict_rebuilt(dial: &mut DialContext, rebuilt: Vec<Rebuilt>, live: &Vec<u64>) -> (r: Vec<
    RebuildWork,
>)
    requires
        old(dial).wf(),
    ensures
        final(dial).wf(),
        rebuilt_of(r@) == rebuilt@,
        forall|k: int|
            0 <= k < r@.len() ==> (#[trigger] r@[k]).evicted@ == bound_to(
                proxies_left(old(dial).proxies.entries@, live@, rebuilt@, k as nat),
                r@[k].rebuilt.captures@,
            ),
        final(dial).proxies.entries@ == proxies_left(
            old(dial).proxies.entries@,
            live@,
            rebuilt@,
            rebuilt@.len(),
        ),
{
    let ghost before = dial.proxies.entries@;
    let ghost all = rebuilt@;
    let mut rest = rebuilt;
    let mut out: Vec<RebuildWork> = Vec::new();
    while rest.len() > 0
        invariant
            dial.wf(),
            before == old(dial).proxies.entries@,
            out@.len() + rest@.len() == all.len(),
            forall|k: int| 0 <= k < out@.len() ==> (#[trigger] out@[k]).rebuilt == all[k],
            forall|k: int| 0 <= k < rest@.len() ==> #[trigger] rest@[k] == all[out@.len() + k],
            dial.proxies.entries@ == proxies_left(before, live@, all, out@.len()),
            forall|k: int|
                0 <= k < out@.len() ==> (#[trigger] out@[k]).evicted@ == bound_to(
                    proxies_left(before, live@, all, k as nat),
                    out@[k].rebuilt.captures@,
                ),
        decreases rest@.len(),
    {
        let ghost done = out@;
        let ghost waiting = rest@;
        assert(waiting[0] == all[done.len() as int]);
        let one = rest.remove(0);
        let captures = copied(&one.captures);
        proof {
            lemma_evicted_by_captures(dial.proxies.entries@, live@, captures);
        }
        let evicted = dial.evict_on_interface_change(live, captures);
        out.push(RebuildWork { rebuilt: one, evicted });
        proof {
            assert forall|k: int| 0 <= k < done.len() implies out@[k] == done[k] by {}
            assert forall|k: int| 0 <= k < rest@.len() implies #[trigger] rest@[k]
                == all[out@.len() + k] by {
                assert(rest@[k] == waiting[k + 1]);
            }
        }
    }
    assert(rebuilt_of(out@) =~= all);
    out
}

impl PacketDispatcher {
    /// The soonest deadline any registered handler keeps, of the DIAL proxies' graces, of the counter
    /// summary and of the interface reconcile; the reactor waits within it.
    pub fn next_deadline(&self, handlers: &Vec<HandlerDeadline>) -> (r: Option<u64>)
        ensures
            r == sooner(
                sooner(
                    sooner(
                        soonest_deadline(handlers@),
                        dial_context::soonest(self.dial.proxies.entries@),
                    ),
                    match self.report {
                        Some(report) => Some(report.next),
                        None => None,
                    },
                ),
                Some(self.lifecycle.next_reconcile),
            ),
            r is Some && r->0 <= self.lifecycle.next_reconcile,
    {
        let mut best: Option<u64> = None;
        let mut i: usize = 0;
        while i < handlers.len()
            invariant
                i <= handlers@.len(),
                best == soonest_deadline(handlers@.take(i as int)),
            decreases handlers@.len() - i,
        {
            assert(handlers@.take(i as int + 1).drop_last() =~= handlers@.take(i as int));
            best = earlier(best, handlers[i].deadline);
            i += 1;
        }
        assert(handlers@.take(i as int) =~= handlers@);
        best = earlier(best, self.dial.next_grace());
        best = earlier(
            best,
            match self.report {
                Some(report) => Some(report.next),
                None => None,
            },
        );
        earlier(best, Some(self.lifecycle.next_reconcile()))
    }

    /// The handlers whose deadline has come, to be called one by one: see
    /// [`next_live`](Self::next_live).
    pub fn due(handlers: &Vec<HandlerDeadline>, now: u64) -> (r: Vec<RegistrationKey>)
        ensures
            r@ == due_keys(handlers@, now),
    {
        let mut out: Vec<RegistrationKey> = Vec::new();
        let mut i: usize = 0;
        while i < handlers.len()
            invariant
                i <= handlers@.len(),
                out@ == due_keys(handlers@.take(i as int), now),
            decreases handlers@.len() - i,
        {
            assert(handlers@.take(i as int + 1).drop_last() =~= handlers@.take(i as int));
            if let Some(d) = handlers[i].deadline {
                if d <= now {
                    out.push(handlers[i].key);
                }
            }
            i += 1;
        }
        assert(handlers@.take(i as int) =~= handlers@);
        out
    }

    /// The next of a list of registrations to be called, one by one: the first from `at` on that is
    /// still registered, which passes over what an earlier handler unregistered. `at` is left behind
    /// it, and at the end where there is none.
    pub fn next_live(&self, keys: &Vec<RegistrationKey>, at: &mut usize) -> (r: Option<
        RegistrationKey,
    >)
        ensures
            ({
                let place: int = next_live_place(
                    self.registrations.entries@,
                    keys@,
                    *old(at) as int,
                );
                if place < keys@.len() {
                    r == Some(keys@[place]) && *final(at) == place + 1
                } else {
                    r is None && *final(at) == keys@.len()
                }
            }),
    {
        let mut i: usize = *at;
        while i < keys.len()
            invariant
                next_live_place(self.registrations.entries@, keys@, *old(at) as int)
                    == next_live_place(self.registrations.entries@, keys@, i as int),
            decreases keys@.len() - i,
        {
            if self.is_registered(keys[i]) {
                *at = i + 1;
                return Some(keys[i]);
            }
            i += 1;
        }
        *at = keys.len();
        None
    }

    /// The log lines of every capture's counts.
    pub fn counter_lines(&self) -> (r: Vec<String>)
        requires
            self.wf(),
        ensures
            text::views(r@) == counters::counters_lines(
                repair::counter_rows_of(self.table@, self.table@.rows.len()),
            ),
    {
        counters::log_counters(&self.table.counter_rows())
    }

    /// The periodic counter summary, when enabled and due; it is then due again an interval later.
    pub fn report_if_due(&mut self, now: u64) -> (r: Option<Vec<String>>)
        requires
            old(self).wf(),
            old(self).report matches Some(report) ==> now + report.interval <= u64::MAX,
        ensures
            final(self).wf(),
            final(self).table == old(self).table,
            final(self).registrations == old(self).registrations,
            final(self).next_registration == old(self).next_registration,
            final(self).lifecycle == old(self).lifecycle,
            final(self).dial == old(self).dial,
            final(self).egress == old(self).egress,
            match old(self).report {
                Some(report) => if now >= report.next {
                    &&& final(self).report == Some(
                        CounterReport { next: (now + report.interval) as u64, ..report },
                    )
                    &&& r matches Some(lines) && text::views(lines@) == counters::counters_lines(
                        repair::counter_rows_of(old(self).table@, old(self).table@.rows.len()),
                    )
                } else {
                    r is None && final(self).report == old(self).report
                },
                None => r is None && final(self).report is None,
            },
    {
        match self.report {
            Some(report) => if now >= report.next {
                let lines = self.counter_lines();
                self.report = Some(
                    CounterReport { interval: report.interval, next: now + report.interval },
                );
                Some(lines)
            } else {
                None
            },
            None => None,
        }
    }

    /// Evict the DIAL proxies whose grace has lapsed; the caller unregisters each.
    pub fn sweep_proxies(&mut self, now: u64, live: &Vec<u64>) -> (r: Vec<
        (DialProxyKey, DialEntry),
    >)
        requires
            old(self).wf(),
        ensures
            final(self).wf(),
            final(self).table == old(self).table,
            final(self).registrations == old(self).registrations,
            final(self).next_registration == old(self).next_registration,
            final(self).lifecycle == old(self).lifecycle,
            final(self).egress == old(self).egress,
            final(self).report == old(self).report,
            final(self).dial.proxies.entries@ == dial_context::kept(
                old(self).dial.proxies.entries@,
                live@,
                Some(Eviction::PastGrace(now)),
            ),
            r@ == dial_context::evicted(
                old(self).dial.proxies.entries@,
                Some(Eviction::PastGrace(now)),
            ),
    {
        self.dial.sweep(now, live)
    }

    /// Whether the interface reconcile tick has come: the detection floor for recreations whose events
    /// were lost, and the retry driver while one is mid-recovery.
    pub fn reconcile_due(&self, now: u64) -> (r: bool)
        ensures
            r == (now >= self.lifecycle.next_reconcile),
    {
        now >= self.lifecycle.next_reconcile()
    }

    /// Take the interface monitor's events, then act on what moved: evict the DIAL proxies whose
    /// interface lost the v4 address they bound. The caller unregisters them, tells every handler of
    /// the captures touched, and reconciles when an event may announce a recreation.
    pub fn refresh_changed_interfaces(
        &mut self,
        events: &Collected,
        answers: &Vec<Answer>,
        bound: &Vec<Option<u32>>,
        platform: Platform,
        live: &Vec<u64>,
    ) -> (r: ChangeWork)
        requires
            old(self).wf(),
            bound@.len() == old(self).table@.rows.len(),
            events.overflow ==> lifecycle::answers_fit_all(old(self).table@, answers@),
            !events.overflow ==> lifecycle::answers_fit(
                old(self).table@,
                events.changed.entries@,
                answers@,
            ),
        ensures
            final(self).wf(),
            final(self).registrations == old(self).registrations,
            final(self).next_registration == old(self).next_registration,
            final(self).egress == old(self).egress,
            final(self).report == old(self).report,
            final(self).lifecycle.max_seen_ifindex == lifecycle::raised(
                old(self).lifecycle.max_seen_ifindex,
                events.changed.entries@,
            ),
            final(self).lifecycle.next_reconcile == old(self).lifecycle.next_reconcile,
            final(self).lifecycle.monitor_fd == old(self).lifecycle.monitor_fd,
            ({
                let d = if events.overflow {
                    lifecycle::drained_all(old(self).table@, answers@)
                } else {
                    lifecycle::drained(
                        old(self).table@,
                        events.changed.entries@,
                        answers@,
                        bound@,
                        old(self).lifecycle.max_seen_ifindex,
                        platform,
                        events.changed.entries@.len(),
                    )
                };
                final(self).table@ == d.table && r.changes.are(d)
            }),
            final(self).dial.proxies.entries@ == off_captures(
                old(self).dial.proxies.entries@,
                live@,
                r.changes.v4_moved@,
            ),
            r.evicted@ == bound_to(old(self).dial.proxies.entries@, r.changes.v4_moved@),
    {
        let changes = self.lifecycle.drain(&mut self.table, events, answers, bound, platform);
        let moved = copied(&changes.v4_moved);
        proof {
            lemma_evicted_by_captures(self.dial.proxies.entries@, live@, moved);
        }
        let evicted = self.dial.evict_on_interface_change(live, moved);
        ChangeWork { changes, evicted }
    }

    /// Run the recreation reconcile at `now`, then evict the DIAL proxies on every rebuilt interface's
    /// captures: their mint-time snapshots belonged to the interface that was removed or recreated,
    /// whatever the new one resolves to. The caller unregisters them and tells every handler of the
    /// captures.
    pub fn reconcile_interfaces(
        &mut self,
        stale: &Vec<StaleInterface>,
        rebuilds: &Vec<Rebuild>,
        now: u64,
        live: &Vec<u64>,
    ) -> (r: Vec<RebuildWork>)
        requires
            old(self).wf(),
            lifecycle::rebuilds_fit(old(self).table@, stale@, rebuilds@),
            lifecycle::room_for_recoveries(old(self).table@, stale@.len() as int),
            now + lifecycle::RECONCILE_TICK <= u64::MAX,
        ensures
            final(self).wf(),
            final(self).registrations == old(self).registrations,
            final(self).next_registration == old(self).next_registration,
            final(self).egress == old(self).egress,
            final(self).report == old(self).report,
            final(self).lifecycle.monitor_fd == old(self).lifecycle.monitor_fd,
            final(self).lifecycle.max_seen_ifindex == old(self).lifecycle.max_seen_ifindex,
            ({
                let end = lifecycle::repaired(
                    old(self).table@,
                    stale@,
                    rebuilds@,
                    stale@.len(),
                );
                &&& final(self).table@ == end.table
                &&& final(self).lifecycle.next_reconcile == lifecycle::rearmed(now, end)
            }),
            r@.len() == stale@.len(),
            forall|k: int|
                0 <= k < stale@.len() ==> (#[trigger] r@[k]).rebuilt.is_of(
                    lifecycle::repaired(old(self).table@, stale@, rebuilds@, k as nat).table,
                    stale@[k],
                    rebuilds@[k],
                ),
            forall|k: int|
                0 <= k < r@.len() ==> (#[trigger] r@[k]).evicted@ == bound_to(
                    proxies_left(
                        old(self).dial.proxies.entries@,
                        live@,
                        rebuilt_of(r@),
                        k as nat,
                    ),
                    r@[k].rebuilt.captures@,
                ),
            final(self).dial.proxies.entries@ == proxies_left(
                old(self).dial.proxies.entries@,
                live@,
                rebuilt_of(r@),
                r@.len(),
            ),
    {
        let rebuilt = self.lifecycle.reconcile(&mut self.table, stale, rebuilds, now);
        let ghost all = rebuilt@;
        let out = evict_rebuilt(&mut self.dial, rebuilt, live);
        proof {
            assert(rebuilt_of(out@).len() == all.len());
            assert forall|k: int| 0 <= k < stale@.len() implies (#[trigger] out@[k]).rebuilt
                == all[k] by {
                assert(rebuilt_of(out@)[k] == all[k]);
            }
        }
        out
    }
}

/// A registration takes a packet where it is for the ingress and its filter takes the packet.
pub proof fn law_a_registration_is_of_one_ingress(
    registrations: Seq<(u64, Registration)>,
    key: RegistrationKey,
    ingress: CaptureKey,
    packet: Packet,
    addrs: Option<InterfaceAddresses>,
)
    ensures
        key_applies(registrations, key, ingress, packet, addrs) <==> {
            let r = linear_map::lookup(registrations, key.id);
            r is Some && (r->0).ingress == ingress && (r->0).filter.accepts(packet, addrs)
        },
{
}

/// The sooner of two deadlines is one of them, and is after neither.
pub proof fn law_the_sooner_is_the_least(a: Option<u64>, b: Option<u64>)
    ensures
        sooner(a, b) == a || sooner(a, b) == b,
        sooner(a, b) is None <==> a is None && b is None,
        a is Some ==> (sooner(a, b)->0) <= a->0,
        b is Some ==> (sooner(a, b)->0) <= b->0,
{
}

/// A change of captures evicts the proxies with one of them as source or target, and keeps the others
/// that are registered.
pub proof fn law_a_change_evicts_what_was_bound_to_it(
    s: Seq<(DialProxyKey, DialEntry)>,
    live: Seq<u64>,
    captures: Seq<CaptureKey>,
)
    ensures
        bound_to(s, captures) == s.filter(
            |e: (DialProxyKey, DialEntry)|
                captures.contains(e.0.source) || captures.contains(e.0.target),
        ),
        off_captures(s, live, captures) == s.filter(
            |e: (DialProxyKey, DialEntry)|
                !captures.contains(e.0.source) && !captures.contains(e.0.target) && live.contains(
                    e.1.handler,
                ),
        ),
    decreases s.len(),
{
    reveal(Seq::filter);
    if s.len() > 0 {
        law_a_change_evicts_what_was_bound_to_it(s.drop_last(), live, captures);
    }
}

/// No more than 64 frames are drained per event where the capture holds none back.
pub proof fn law_a_batch_is_sixty_four_frames(drain: Drain)
    ensures
        drain.wants_more(false) <==> drain.drained < 64,
        drain.wants_more(true),
{
}

} // verus!
