//! The egress path: injecting a frame on an interface, each distinct frame once per routed packet.
//!
//! The caller builds the frames and injects them; what came of an injection comes in with the call.

use vstd::prelude::*;

use crate::dispatch::interface_table::{InterfaceTable, Table};
use crate::dispatch::CaptureKey;
use crate::errno::Errno;
use crate::interface::InterfaceAddresses;
use crate::net::ip::IpAddr;
use crate::net::packet::SocketAddr;
use crate::net::LinkType;
use crate::number;
use crate::text;

verus! {

/// The duplicate-send scope of the packet being routed.
#[derive(Clone, Copy, PartialEq, Eq, Structural, Debug)]
pub struct Egress {
    /// The number of the packet being routed, from 1.
    pub packet: u64,
    /// A send outside routing (a timer, a session) is never a duplicate.
    pub routing: bool,
}

/// Why a frame did not go out.
#[derive(PartialEq, Eq, Debug)]
pub enum SendError {
    Os(Errno),
    /// The system refused the frame for its length; the text names it.
    TooLong(String),
}

/// An injection that is not refused as a duplicate changes what was sent.
pub open spec fn recorded(t: Table, e: Egress, egress: CaptureKey, frame: Seq<u8>) -> Table {
    if e.routing && egress.index < t.rows.len() {
        t.with_row(
            egress.index as int,
            t.rows[egress.index as int].sending(e.packet, frame),
        )
    } else {
        t
    }
}

/// An equal frame already went out for the packet being routed.
pub open spec fn duplicate(t: Table, e: Egress, egress: CaptureKey, frame: Seq<u8>) -> bool {
    e.routing && egress.index < t.rows.len() && t.rows[egress.index as int].has_sent(
        e.packet,
        frame,
    )
}

/// What an injection comes to: a drained or unknown egress drops the frame without an error.
pub open spec fn injected(t: Table, egress: CaptureKey, sent: Result<(), Errno>) -> Result<
    (),
    Errno,
> {
    if t.capture_at(egress) is Some {
        sent
    } else {
        Ok(())
    }
}

/// What comes of a frame: whether it went out, or the error.
pub open spec fn send_result(
    t: Table,
    e: Egress,
    egress: CaptureKey,
    frame: Seq<u8>,
    sent: Result<(), Errno>,
) -> Result<bool, Errno> {
    if duplicate(t, e, egress, frame) {
        Ok(false)
    } else {
        match injected(t, egress, sent) {
            Ok(()) => Ok(true),
            Err(err) => Err(err),
        }
    }
}

/// The table after a frame.
pub open spec fn send_table(
    t: Table,
    e: Egress,
    egress: CaptureKey,
    frame: Seq<u8>,
    sent: Result<(), Errno>,
) -> Table {
    if send_result(t, e, egress, frame, sent) == Ok::<bool, Errno>(true) {
        recorded(t, e, egress, frame)
    } else {
        t
    }
}

/// A frame goes out once per routed packet and egress; one that failed is tried again.
pub proof fn law_an_equal_frame_goes_out_once(
    t: Table,
    e: Egress,
    egress: CaptureKey,
    frame: Seq<u8>,
    sent: Result<(), Errno>,
    again: Result<(), Errno>,
)
    requires
        e.routing,
        egress.index < t.rows.len(),
        send_result(t, e, egress, frame, sent) is Ok,
    ensures
        send_result(send_table(t, e, egress, frame, sent), e, egress, frame, again) == Ok::<
            bool,
            Errno,
        >(false),
{
    if !duplicate(t, e, egress, frame) {
        let row = t.rows[egress.index as int];
        crate::dispatch::interface_table::law_a_sent_frame_is_known_until_the_next_packet(
            row,
            e.packet,
            frame,
            e.packet,
            frame,
        );
    }
}

/// A frame that failed leaves no trace, so the second to relay it tries again.
pub proof fn law_a_failed_frame_is_tried_again(
    t: Table,
    e: Egress,
    egress: CaptureKey,
    frame: Seq<u8>,
    sent: Result<(), Errno>,
    again: Result<(), Errno>,
)
    requires
        send_result(t, e, egress, frame, sent) is Err,
    ensures
        send_result(send_table(t, e, egress, frame, sent), e, egress, frame, again)
            == match again {
            Ok(()) => Ok::<bool, Errno>(true),
            Err(err) => Err(err),
        },
{
}

/// Outside routing nothing is a duplicate.
pub proof fn law_nothing_is_a_duplicate_outside_routing(
    t: Table,
    e: Egress,
    egress: CaptureKey,
    frame: Seq<u8>,
    sent: Result<(), Errno>,
)
    requires
        !e.routing,
    ensures
        send_result(t, e, egress, frame, sent) != Ok::<bool, Errno>(false),
        send_table(t, e, egress, frame, sent) == t,
{
}

impl Egress {
    pub fn new() -> (r: Self)
        ensures
            r == (Egress { packet: 0, routing: false }),
    {
        Egress { packet: 0, routing: false }
    }

    pub fn begin_packet(&mut self)
        requires
            old(self).packet < u64::MAX,
        ensures
            *final(self) == (Egress { packet: (old(self).packet + 1) as u64, routing: true }),
    {
        self.packet = self.packet + 1;
        self.routing = true;
    }

    pub fn end_packet(&mut self)
        ensures
            *final(self) == (Egress { routing: false, ..*old(self) }),
    {
        self.routing = false;
    }

    /// Whether the frame is to be injected: the egress is in place, and no equal frame already went
    /// out for this packet. Two entries whose legs coincide (per-device entries on one pair) both
    /// relay it.
    pub fn would_send(&self, table: &InterfaceTable, egress: CaptureKey, frame: &[u8]) -> (r: bool)
        ensures
            r == (table@.capture_at(egress) is Some && !duplicate(
                table@,
                *self,
                egress,
                frame@,
            )),
    {
        if self.routing && table.was_sent(egress, self.packet, frame) {
            return false;
        }
        table.capture(egress).is_some()
    }

    /// Take what came of injecting a frame: whether it went out. Skipped where an equal frame already
    /// went out for this packet. Recorded only once sent, so a failed send leaves the second to try.
    pub fn send_built(
        &self,
        table: &mut InterfaceTable,
        egress: CaptureKey,
        frame: &[u8],
        sent: Result<(), Errno>,
    ) -> (r: Result<bool, Errno>)
        requires
            old(table)@.wf(),
        ensures
            final(table)@.wf(),
            final(table)@ == send_table(old(table)@, *self, egress, frame@, sent),
            r == send_result(old(table)@, *self, egress, frame@, sent),
    {
        if self.routing && table.was_sent(egress, self.packet, frame) {
            return Ok(false);
        }
        let came = send(table, egress, sent);
        match came {
            Err(e) => Err(e),
            Ok(()) => {
                if self.routing {
                    table.record_sent(egress, self.packet, frame);
                }
                Ok(true)
            },
        }
    }
}

/// What came of injecting a frame; a drained or unknown egress is a logged drop, not an error.
pub fn send(table: &InterfaceTable, egress: CaptureKey, sent: Result<(), Errno>) -> (r: Result<
    (),
    Errno,
>)
    ensures
        r == injected(table@, egress, sent),
{
    if table.capture(egress).is_some() {
        sent
    } else {
        Ok(())
    }
}

/// What a frame for `egress` is built from. `None`: the egress is unknown or taken out for its drain,
/// and the datagram is dropped. The latter needs `egress == ingress`, which no reflector configures
/// (A -> B, never A -> A).
pub fn build_parts(table: &InterfaceTable, egress: CaptureKey) -> (r: Option<
    (InterfaceAddresses, LinkType),
>)
    ensures
        r == match (table@.addrs_at(egress), table@.capture_at(egress)) {
            (Some(addrs), Some(tap)) => Some((addrs, tap.link_type)),
            _ => None,
        },
{
    match (table.egress_addrs(egress), table.capture(egress)) {
        (Some(addrs), Some(capture)) => Some((addrs, capture.link_type)),
        _ => None,
    }
}

/// The peers of the destination's family, each at its port.
pub open spec fn copies(peers: Seq<IpAddr>, dst: SocketAddr) -> Seq<SocketAddr>
    decreases peers.len(),
{
    if peers.len() == 0 {
        Seq::empty()
    } else {
        let before = copies(peers.drop_last(), dst);
        if (peers.last() is V4) == (dst.ip is V4) {
            before.push(SocketAddr { ip: peers.last(), port: dst.port })
        } else {
            before
        }
    }
}

/// Where the unicast copies of a group or broadcast datagram go: one per peer of `dst`'s family, at
/// its port.
pub fn peer_copies(peers: &Vec<IpAddr>, dst: SocketAddr) -> (r: Vec<SocketAddr>)
    ensures
        r@ == copies(peers@, dst),
{
    let v4 = matches!(dst.ip, IpAddr::V4(_));
    let mut out: Vec<SocketAddr> = Vec::new();
    let mut i: usize = 0;
    while i < peers.len()
        invariant
            i <= peers@.len(),
            v4 == (dst.ip is V4),
            out@ == copies(peers@.take(i as int), dst),
        decreases peers@.len() - i,
    {
        assert(peers@.take(i as int + 1).drop_last() =~= peers@.take(i as int));
        let peer = peers[i];
        if matches!(peer, IpAddr::V4(_)) == v4 {
            out.push(SocketAddr::new(peer, dst.port));
        }
        i += 1;
    }
    assert(peers@.take(i as int) =~= peers@);
    out
}

/// The copies are the peers of the destination's family, each as often as it is listed and in that
/// order, at the destination's port: for either family, and no others.
pub proof fn law_each_peer_of_the_family_gets_a_copy(peers: Seq<IpAddr>, dst: SocketAddr)
    ensures
        dst.ip is V4 ==> copies(peers, dst) == peers.filter(|p: IpAddr| p is V4).map_values(
            |p: IpAddr| SocketAddr { ip: p, port: dst.port },
        ),
        dst.ip is V6 ==> copies(peers, dst) == peers.filter(|p: IpAddr| p is V6).map_values(
            |p: IpAddr| SocketAddr { ip: p, port: dst.port },
        ),
    decreases peers.len(),
{
    reveal(Seq::filter);
    let at = |p: IpAddr| SocketAddr { ip: p, port: dst.port };
    let v4 = |p: IpAddr| p is V4;
    let v6 = |p: IpAddr| p is V6;
    if peers.len() > 0 {
        let before = peers.drop_last();
        law_each_peer_of_the_family_gets_a_copy(before, dst);
        let kept = before.filter(v4);
        assert(kept.push(peers.last()).map_values(at) =~= kept.map_values(at).push(
            at(peers.last()),
        ));
        let kept = before.filter(v6);
        assert(kept.push(peers.last()).map_values(at) =~= kept.map_values(at).push(
            at(peers.last()),
        ));
    } else {
        assert(peers.filter(v4).map_values(at) =~= Seq::<SocketAddr>::empty());
        assert(peers.filter(v6).map_values(at) =~= Seq::<SocketAddr>::empty());
    }
}

/// A peer of the destination's family is among the copies, and a copy goes to such a peer.
pub proof fn law_a_copy_goes_to_a_listed_peer(peers: Seq<IpAddr>, dst: SocketAddr, to: SocketAddr)
    ensures
        copies(peers, dst).contains(to) <==> {
            &&& peers.contains(to.ip)
            &&& to.port == dst.port
            &&& (to.ip is V4 && dst.ip is V4) || (to.ip is V6 && dst.ip is V6)
        },
    decreases peers.len(),
{
    if peers.len() > 0 {
        let before = peers.drop_last();
        let all = copies(peers, dst);
        let some = copies(before, dst);
        law_a_copy_goes_to_a_listed_peer(before, dst, to);
        assert(peers[peers.len() - 1] == peers.last());
        if peers.contains(to.ip) && to.ip != peers.last() {
            let i: int = choose|i: int| 0 <= i < peers.len() && peers[i] == to.ip;
            assert(before[i] == to.ip);
        }
        if before.contains(to.ip) {
            let i: int = choose|i: int| 0 <= i < before.len() && before[i] == to.ip;
            assert(peers[i] == to.ip);
        }
        if some.contains(to) {
            let i: int = choose|i: int| 0 <= i < some.len() && some[i] == to;
            assert(all[i] == to);
        }
        if all.contains(to) && !some.contains(to) {
            let i: int = choose|i: int| 0 <= i < all.len() && all[i] == to;
            if i < some.len() {
                assert(some[i] == to);
            }
        }
        if all.len() > some.len() {
            assert(all[all.len() - 1].ip == peers.last());
        }
    }
}

/// On an egress that is in place, a frame that is no duplicate comes to what its injection did.
pub proof fn law_the_injection_decides(
    t: Table,
    e: Egress,
    egress: CaptureKey,
    frame: Seq<u8>,
    sent: Result<(), Errno>,
)
    requires
        t.capture_at(egress) is Some,
        !e.routing || !t.rows[egress.index as int].has_sent(e.packet, frame),
    ensures
        sent is Ok <==> send_result(t, e, egress, frame, sent) == Ok::<bool, Errno>(true),
        forall|err: Errno|
            sent == Err::<(), Errno>(err) <==> #[trigger] send_result(t, e, egress, frame, sent)
                == Err::<bool, Errno>(err),
{
}

/// How the copies of one datagram have gone out so far.
#[derive(Clone, Copy, PartialEq, Eq, Structural, Debug)]
pub struct PeerDelivery {
    pub delivered: bool,
    pub failure: Option<Errno>,
}

/// How a run of copies went out.
pub open spec fn delivery(results: Seq<Result<bool, Errno>>) -> PeerDelivery
    decreases results.len(),
{
    if results.len() == 0 {
        PeerDelivery { delivered: false, failure: None }
    } else {
        delivery(results.drop_last()).with(results.last())
    }
}

impl PeerDelivery {
    pub fn new() -> (r: Self)
        ensures
            r == delivery(Seq::empty()),
    {
        PeerDelivery { delivered: false, failure: None }
    }

    /// With one more copy.
    pub open spec fn with(self, result: Result<bool, Errno>) -> PeerDelivery {
        match result {
            Ok(_) => PeerDelivery { delivered: true, ..self },
            Err(e) => PeerDelivery { failure: Some(e), ..self },
        }
    }

    /// Take what came of one copy: see [`Egress::send_built`]. A copy an equal frame already went out
    /// for counts as delivered.
    pub fn copy(
        &mut self,
        scope: &Egress,
        table: &mut InterfaceTable,
        egress: CaptureKey,
        frame: &[u8],
        sent: Result<(), Errno>,
    ) -> (r: Result<bool, Errno>)
        requires
            old(table)@.wf(),
        ensures
            final(table)@.wf(),
            final(table)@ == send_table(old(table)@, *scope, egress, frame@, sent),
            r == send_result(old(table)@, *scope, egress, frame@, sent),
            *final(self) == old(self).with(r),
    {
        let r = scope.send_built(table, egress, frame, sent);
        match &r {
            Ok(_) => {
                self.delivered = true;
            },
            Err(e) => {
                self.failure = Some(*e);
            },
        }
        r
    }

    /// The last failure, where no copy went out at all.
    pub open spec fn outcome(self) -> Result<(), Errno> {
        match self.failure {
            Some(e) => if self.delivered {
                Ok(())
            } else {
                Err(e)
            },
            None => Ok(()),
        }
    }

    /// The last failure, where no copy went out at all. A peer the link cannot reach (a `WireGuard`
    /// peer without an endpoint) costs only its own copy.
    pub fn result(self) -> (r: Result<(), Errno>)
        ensures
            r == self.outcome(),
    {
        match self.failure {
            Some(e) => if self.delivered {
                Ok(())
            } else {
                Err(e)
            },
            None => Ok(()),
        }
    }
}

/// A delivery fails only where there were copies and every one of them failed, and then with the
/// last failure.
pub proof fn law_delivery_fails_only_where_every_copy_did(results: Seq<Result<bool, Errno>>)
    ensures
        delivery(results).delivered <==> exists|i: int|
            0 <= i < results.len() && #[trigger] results[i] is Ok,
        delivery(results).failure is Some <==> exists|i: int|
            0 <= i < results.len() && #[trigger] results[i] is Err,
        delivery(results).outcome() is Err <==> results.len() > 0 && forall|i: int|
            0 <= i < results.len() ==> #[trigger] results[i] is Err,
        delivery(results).outcome() matches Err(e) ==> results.last() == Err::<bool, Errno>(e),
    decreases results.len(),
{
    if results.len() > 0 {
        let before = results.drop_last();
        law_delivery_fails_only_where_every_copy_did(before);
        assert(results[results.len() - 1] == results.last());
        assert forall|i: int| 0 <= i < before.len() implies before[i] == results[i] by {}
        if exists|i: int| 0 <= i < before.len() && #[trigger] before[i] is Ok {
            let i: int = choose|i: int| 0 <= i < before.len() && #[trigger] before[i] is Ok;
            assert(results[i] is Ok);
        }
        if exists|i: int| 0 <= i < before.len() && #[trigger] before[i] is Err {
            let i: int = choose|i: int| 0 <= i < before.len() && #[trigger] before[i] is Err;
            assert(results[i] is Err);
        }
        if exists|i: int| 0 <= i < results.len() && #[trigger] results[i] is Ok {
            let i: int = choose|i: int| 0 <= i < results.len() && #[trigger] results[i] is Ok;
            if i < before.len() {
                assert(before[i] is Ok);
            }
        }
        if exists|i: int| 0 <= i < results.len() && #[trigger] results[i] is Err {
            let i: int = choose|i: int| 0 <= i < results.len() && #[trigger] results[i] is Err;
            if i < before.len() {
                assert(before[i] is Err);
            }
        }
    }
}

/// The name of the interface behind `egress`, for the log.
pub fn egress_name(table: &InterfaceTable, egress: CaptureKey) -> (r: &str)
    ensures
        r@ == match table@.link_at(egress) {
            Some(link) => link.name,
            None => "?"@,
        },
{
    match table.interface_of(egress) {
        Some(interface) => match table.interface_name(interface) {
            Some(name) => name,
            None => "?",
        },
        None => "?",
    }
}

/// Names the frame, the interface and its MTU, which the system's own message does not.
pub open spec fn too_long(if_name: Seq<char>, frame_len: nat, mtu: Option<u32>) -> Seq<char> {
    "a frame of "@ + number::decimal(frame_len) + " bytes exceeds what "@ + if_name + (match mtu {
        Some(mtu) => " (MTU "@ + number::decimal(mtu as nat) + ")"@,
        None => Seq::empty(),
    }) + " can carry"@
}

/// Re-word `EMSGSIZE` to name the frame, the interface and its MTU; the bare "Message too long"
/// names none.
pub fn oversize_context(e: Errno, if_name: &str, frame_len: usize, mtu: Option<u32>) -> (r: SendError)
    ensures
        match r {
            SendError::Os(same) => e != Errno::MessageTooLong && same == e,
            SendError::TooLong(said) => e == Errno::MessageTooLong && said@ == too_long(
                if_name@,
                frame_len as nat,
                mtu,
            ),
        },
{
    if e != Errno::MessageTooLong {
        return SendError::Os(e);
    }
    let mut line = "a frame of ".to_owned();
    text::push_decimal(&mut line, frame_len as u64);
    line.append(" bytes exceeds what ");
    line.append(if_name);
    match mtu {
        Some(mtu) => {
            line.append(" (MTU ");
            text::push_decimal(&mut line, mtu as u64);
            line.append(")");
        },
        None => {},
    }
    line.append(" can carry");
    assert(line@ =~= too_long(if_name@, frame_len as nat, mtu));
    SendError::TooLong(line)
}

} // verus!
