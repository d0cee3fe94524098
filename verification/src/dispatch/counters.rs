//! Observability counters: what netflector did with each packet, per message type and interface.
//!
//! A packet can match several handlers (mirrored `a→b`/`b→a` legs, a source fanned out to several
//! targets). Each returns an [`Outcome`]; the dispatcher folds them with [`Outcome::combine`] and
//! records one per ingress.

use vstd::prelude::*;

use crate::number;
use crate::text;

verus! {

/// A protocol and direction. Handlers report the packet's intrinsic type, not the leg they serve,
/// so every handler seeing one packet agrees on it.
#[derive(Clone, Copy, PartialEq, Eq, Structural, Debug)]
pub enum MessageType {
    MdnsQuery,
    MdnsResponse,
    SsdpAdvertisement,
    SsdpSearch,
    SsdpResponse,
    WsdAnnouncement,
    WsdSearch,
    WsdResponse,
    WakeOnLan,
    UdpDatagram,
}

/// How many message types there are.
pub const MESSAGE_TYPE_COUNT: usize = 10;

impl MessageType {
    /// The place among the types.
    pub open spec fn place(self) -> int {
        match self {
            MessageType::MdnsQuery => 0,
            MessageType::MdnsResponse => 1,
            MessageType::SsdpAdvertisement => 2,
            MessageType::SsdpSearch => 3,
            MessageType::SsdpResponse => 4,
            MessageType::WsdAnnouncement => 5,
            MessageType::WsdSearch => 6,
            MessageType::WsdResponse => 7,
            MessageType::WakeOnLan => 8,
            MessageType::UdpDatagram => 9,
        }
    }

    /// The type at a place.
    pub open spec fn at_place(i: int) -> MessageType {
        if i == 0 {
            MessageType::MdnsQuery
        } else if i == 1 {
            MessageType::MdnsResponse
        } else if i == 2 {
            MessageType::SsdpAdvertisement
        } else if i == 3 {
            MessageType::SsdpSearch
        } else if i == 4 {
            MessageType::SsdpResponse
        } else if i == 5 {
            MessageType::WsdAnnouncement
        } else if i == 6 {
            MessageType::WsdSearch
        } else if i == 7 {
            MessageType::WsdResponse
        } else if i == 8 {
            MessageType::WakeOnLan
        } else {
            MessageType::UdpDatagram
        }
    }

    /// The place among the types.
    pub fn index(self) -> (r: usize)
        ensures
            r == self.place(),
            r < MESSAGE_TYPE_COUNT,
    {
        match self {
            MessageType::MdnsQuery => 0,
            MessageType::MdnsResponse => 1,
            MessageType::SsdpAdvertisement => 2,
            MessageType::SsdpSearch => 3,
            MessageType::SsdpResponse => 4,
            MessageType::WsdAnnouncement => 5,
            MessageType::WsdSearch => 6,
            MessageType::WsdResponse => 7,
            MessageType::WakeOnLan => 8,
            MessageType::UdpDatagram => 9,
        }
    }

    /// The type at a place.
    pub fn from_index(i: usize) -> (r: Self)
        requires
            i < MESSAGE_TYPE_COUNT,
        ensures
            r == Self::at_place(i as int),
            r.place() == i,
    {
        match i {
            0 => MessageType::MdnsQuery,
            1 => MessageType::MdnsResponse,
            2 => MessageType::SsdpAdvertisement,
            3 => MessageType::SsdpSearch,
            4 => MessageType::SsdpResponse,
            5 => MessageType::WsdAnnouncement,
            6 => MessageType::WsdSearch,
            7 => MessageType::WsdResponse,
            8 => MessageType::WakeOnLan,
            _ => MessageType::UdpDatagram,
        }
    }

    /// The protocol and the direction, where it has one.
    pub open spec fn text(self) -> Seq<char> {
        match self {
            MessageType::MdnsQuery => "mDNS query"@,
            MessageType::MdnsResponse => "mDNS response"@,
            MessageType::SsdpAdvertisement => "SSDP advertisement"@,
            MessageType::SsdpSearch => "SSDP search"@,
            MessageType::SsdpResponse => "SSDP response"@,
            MessageType::WsdAnnouncement => "WSD announcement"@,
            MessageType::WsdSearch => "WSD search"@,
            MessageType::WsdResponse => "WSD response"@,
            MessageType::WakeOnLan => "WoL"@,
            MessageType::UdpDatagram => "UDP relay"@,
        }
    }

    /// The protocol and the direction, where it has one.
    pub fn as_str(&self) -> (r: &'static str)
        ensures
            r@ == self.text(),
    {
        match self {
            MessageType::MdnsQuery => "mDNS query",
            MessageType::MdnsResponse => "mDNS response",
            MessageType::SsdpAdvertisement => "SSDP advertisement",
            MessageType::SsdpSearch => "SSDP search",
            MessageType::SsdpResponse => "SSDP response",
            MessageType::WsdAnnouncement => "WSD announcement",
            MessageType::WsdSearch => "WSD search",
            MessageType::WsdResponse => "WSD response",
            MessageType::WakeOnLan => "WoL",
            MessageType::UdpDatagram => "UDP relay",
        }
    }

    /// The UDP relay's type yields to a protocol handler's verdict on the same packet.
    #[verifier::allow_in_spec]
    pub fn is_specific(self) -> (r: bool)
        returns
            self != MessageType::UdpDatagram,
    {
        match self {
            MessageType::UdpDatagram => false,
            _ => true,
        }
    }
}

/// Fold precedence for [`Outcome`], worst to best: a failed reflect outranks a correct
/// non-forward.
#[derive(Clone, Copy, PartialEq, Eq, Structural, PartialOrd, Ord, Debug)]
pub enum Disposition {
    Filtered,
    Skipped,
    Stalled,
    Dropped,
    Reflected,
}

impl Disposition {
    /// The place in the order, worst first.
    #[verifier::allow_in_spec]
    pub fn place(self) -> (r: u8)
        returns
            (match self {
                Disposition::Filtered => 0u8,
                Disposition::Skipped => 1u8,
                Disposition::Stalled => 2u8,
                Disposition::Dropped => 3u8,
                Disposition::Reflected => 4u8,
            }),
    {
        match self {
            Disposition::Filtered => 0,
            Disposition::Skipped => 1,
            Disposition::Stalled => 2,
            Disposition::Dropped => 3,
            Disposition::Reflected => 4,
        }
    }
}

/// Invariants an [`Outcome::combine`] fold can violate; never expected under a valid config.
#[derive(Clone, Copy, PartialEq, Eq, Structural, Debug)]
pub struct Anomalies {
    /// Two handlers classified one packet to different protocols; the relay's type doesn't count.
    pub type_mismatch: bool,
}

impl Default for Anomalies {
    fn default() -> (r: Self)
        ensures
            r == (Anomalies { type_mismatch: false }),
    {
        Anomalies { type_mismatch: false }
    }
}

/// What a handler did with a packet.
#[derive(Clone, Copy, PartialEq, Eq, Structural, Debug)]
pub enum Outcome {
    Reflected(MessageType),
    /// The wrong direction for this leg: not ours to forward.
    Skipped(MessageType),
    /// The right direction, but not re-emitted: a send error, a cap, a suppression.
    Dropped(MessageType),
    /// The right direction, but the egress has no source address of the family yet.
    Stalled(MessageType),
    /// Not a message we handle.
    Filtered,
}

impl Outcome {
    #[verifier::allow_in_spec]
    pub fn disposition(self) -> (r: Disposition)
        returns
            (match self {
                Outcome::Reflected(_) => Disposition::Reflected,
                Outcome::Dropped(_) => Disposition::Dropped,
                Outcome::Stalled(_) => Disposition::Stalled,
                Outcome::Skipped(_) => Disposition::Skipped,
                Outcome::Filtered => Disposition::Filtered,
            }),
    {
        match self {
            Outcome::Reflected(_) => Disposition::Reflected,
            Outcome::Dropped(_) => Disposition::Dropped,
            Outcome::Stalled(_) => Disposition::Stalled,
            Outcome::Skipped(_) => Disposition::Skipped,
            Outcome::Filtered => Disposition::Filtered,
        }
    }

    #[verifier::allow_in_spec]
    pub fn message_type(self) -> (r: Option<MessageType>)
        returns
            (match self {
                Outcome::Reflected(t) => Some(t),
                Outcome::Skipped(t) => Some(t),
                Outcome::Dropped(t) => Some(t),
                Outcome::Stalled(t) => Some(t),
                Outcome::Filtered => None,
            }),
    {
        match self {
            Outcome::Reflected(t) => Some(t),
            Outcome::Skipped(t) => Some(t),
            Outcome::Dropped(t) => Some(t),
            Outcome::Stalled(t) => Some(t),
            Outcome::Filtered => None,
        }
    }

    #[verifier::allow_in_spec]
    pub fn with_type(self, message_type: MessageType) -> (r: Outcome)
        returns
            (match self {
                Outcome::Reflected(_) => Outcome::Reflected(message_type),
                Outcome::Skipped(_) => Outcome::Skipped(message_type),
                Outcome::Dropped(_) => Outcome::Dropped(message_type),
                Outcome::Stalled(_) => Outcome::Stalled(message_type),
                Outcome::Filtered => Outcome::Filtered,
            }),
    {
        match self {
            Outcome::Reflected(_) => Outcome::Reflected(message_type),
            Outcome::Skipped(_) => Outcome::Skipped(message_type),
            Outcome::Dropped(_) => Outcome::Dropped(message_type),
            Outcome::Stalled(_) => Outcome::Stalled(message_type),
            Outcome::Filtered => Outcome::Filtered,
        }
    }

    /// The relay's handler gave it.
    pub open spec fn is_relayed(self) -> bool {
        self.message_type() == Some(MessageType::UdpDatagram)
    }

    /// The types differ, and neither is the relay's.
    pub open spec fn mismatch(self, other: Outcome) -> bool {
        match (self.message_type(), other.message_type()) {
            (Some(a), Some(b)) => a != b && a.is_specific() && b.is_specific(),
            _ => false,
        }
    }

    /// `other` goes before this one: its disposition is higher, or it is the same one under a type
    /// whose place is lower.
    pub open spec fn yields_to(self, other: Outcome) -> bool {
        let mine = self.disposition().place();
        let theirs = other.disposition().place();
        theirs > mine || theirs == mine && match (self.message_type(), other.message_type()) {
            (Some(a), Some(b)) => b.place() < a.place(),
            _ => false,
        }
    }

    /// The higher disposition, under the protocol's type when one side is the relay; of two
    /// protocols at one disposition, the type whose place is lower.
    pub open spec fn merged(self, other: Outcome) -> Outcome {
        let higher = if self.yields_to(other) {
            other
        } else {
            self
        };
        match (self.message_type(), other.message_type()) {
            (Some(a), Some(b)) => if a.is_specific() && !b.is_specific() {
                higher.with_type(a)
            } else if b.is_specific() && !a.is_specific() {
                higher.with_type(b)
            } else {
                higher
            },
            _ => higher,
        }
    }

    /// Fold another handler's outcome for the same packet: the higher disposition wins, under the
    /// protocol's type when one side is the relay. Order-independent: where two protocols disagree at
    /// one disposition, the type that is declared first wins.
    pub fn combine(self, other: Outcome) -> (r: (Outcome, Anomalies))
        ensures
            r == (self.merged(other), (Anomalies { type_mismatch: self.mismatch(other) })),
    {
        let types = (self.message_type(), other.message_type());
        let mine: u8 = self.disposition().place();
        let theirs: u8 = other.disposition().place();
        let lower = match types {
            (Some(a), Some(b)) => b.index() < a.index(),
            _ => false,
        };
        let merged = if theirs > mine || theirs == mine && lower {
            other
        } else {
            self
        };
        match types {
            (Some(a), Some(b)) => {
                let anomalies = Anomalies {
                    type_mismatch: a != b && a.is_specific() && b.is_specific(),
                };
                if a.is_specific() && !b.is_specific() {
                    (merged.with_type(a), anomalies)
                } else if b.is_specific() && !a.is_specific() {
                    (merged.with_type(b), anomalies)
                } else {
                    (merged, anomalies)
                }
            },
            _ => (merged, Anomalies { type_mismatch: false }),
        }
    }
}

/// Folding two outcomes gives the same in either order, and finds a disagreement in either order.
pub proof fn law_combine_is_order_independent(a: Outcome, b: Outcome)
    ensures
        a.merged(b) == b.merged(a),
        a.mismatch(b) == b.mismatch(a),
{
}

/// Folding three outcomes gives the same in either grouping, unless the relay's type meets two
/// protocols that disagree.
pub proof fn law_combine_is_grouping_independent(a: Outcome, b: Outcome, c: Outcome)
    requires
        ({
            ||| !a.mismatch(b) && !b.mismatch(c) && !a.mismatch(c)
            ||| !a.is_relayed() && !b.is_relayed() && !c.is_relayed()
        }),
    ensures
        a.merged(b).merged(c) == a.merged(b.merged(c)),
        !a.mismatch(b) && !b.mismatch(c) && !a.mismatch(c) ==> !a.merged(b).mismatch(c),
{
}

/// A fold is never worse than what was folded, and folding an outcome with itself changes nothing.
pub proof fn law_combine_keeps_the_best(a: Outcome, b: Outcome)
    ensures
        a.merged(b).disposition().place() >= a.disposition().place(),
        a.merged(b).disposition().place() >= b.disposition().place(),
        a.merged(a) == a,
        !a.mismatch(a),
{
}

/// The outcomes of the handlers of one packet, folded in order.
pub open spec fn folded(s: Seq<Outcome>) -> Option<Outcome>
    decreases s.len(),
{
    if s.len() == 0 {
        None
    } else {
        match folded(s.drop_last()) {
            None => Some(s.last()),
            Some(before) => Some(before.merged(s.last())),
        }
    }
}

/// Some outcome disagrees on the type with the fold of those in front of it.
pub open spec fn any_mismatch(s: Seq<Outcome>) -> bool
    decreases s.len(),
{
    s.len() > 0 && (any_mismatch(s.drop_last()) || match folded(s.drop_last()) {
        None => false,
        Some(before) => before.mismatch(s.last()),
    })
}

/// Fold the outcomes of the handlers of one packet: what to count, and whether two disagreed on its
/// type.
pub fn fold_outcomes(s: &Vec<Outcome>) -> (r: (Option<Outcome>, bool))
    ensures
        r.0 == folded(s@),
        r.1 == any_mismatch(s@),
{
    let mut sum: Option<Outcome> = None;
    let mut mismatch = false;
    let mut i: usize = 0;
    while i < s.len()
        invariant
            i <= s@.len(),
            sum == folded(s@.take(i as int)),
            mismatch == any_mismatch(s@.take(i as int)),
        decreases s@.len() - i,
    {
        let ghost t = s@.take(i as int + 1);
        assert(t.drop_last() =~= s@.take(i as int));
        assert(t.last() == s@[i as int]);
        match sum {
            None => {
                sum = Some(s[i]);
            },
            Some(before) => {
                let (merged, anomalies) = before.combine(s[i]);
                sum = Some(merged);
                if anomalies.type_mismatch {
                    mismatch = true;
                }
            },
        }
        i += 1;
    }
    assert(s@.take(i as int) =~= s@);
    (sum, mismatch)
}

#[derive(Clone, Copy, PartialEq, Eq, Structural, Debug)]
pub struct TypeCounters {
    pub reflected: u64,
    pub skipped: u64,
    pub dropped: u64,
    pub stalled: u64,
}

/// Nothing counted.
pub open spec fn no_counts() -> TypeCounters {
    TypeCounters { reflected: 0, skipped: 0, dropped: 0, stalled: 0 }
}

/// `label=count`, where anything was counted.
pub open spec fn labelled(label: Seq<char>, count: u64) -> Seq<Seq<char>> {
    if count > 0 {
        seq![label + number::decimal(count as nat)]
    } else {
        Seq::empty()
    }
}

/// Append `label=count`, where anything was counted.
fn push_labelled(parts: &mut Vec<String>, label: &str, count: u64)
    ensures
        text::views(final(parts)@) == text::views(old(parts)@) + labelled(label@, count),
{
    if count > 0 {
        let mut part = label.to_owned();
        text::push_decimal(&mut part, count);
        parts.push(part);
        assert(part@ =~= label@ + number::decimal(count as nat));
    }
    assert(text::views(parts@) =~= text::views(old(parts)@) + labelled(label@, count));
}

impl TypeCounters {
    /// The counts that are not 0, each with its label.
    pub open spec fn parts(self) -> Seq<Seq<char>> {
        labelled("reflected="@, self.reflected) + labelled("skipped="@, self.skipped) + labelled(
            "dropped="@,
            self.dropped,
        ) + labelled("stalled="@, self.stalled)
    }

    /// The counts that are not 0 in one text; `None` where all are.
    pub fn format_nonzero(&self) -> (r: Option<String>)
        ensures
            match r {
                Some(s) => self.parts().len() > 0 && s@ == text::joined(self.parts(), " "@),
                None => self.parts().len() == 0,
            },
    {
        let mut parts: Vec<String> = Vec::new();
        assert(text::views(parts@) =~= Seq::empty());
        push_labelled(&mut parts, "reflected=", self.reflected);
        push_labelled(&mut parts, "skipped=", self.skipped);
        push_labelled(&mut parts, "dropped=", self.dropped);
        push_labelled(&mut parts, "stalled=", self.stalled);
        assert(text::views(parts@) =~= self.parts());
        if parts.len() == 0 {
            None
        } else {
            Some(text::join(&parts, " "))
        }
    }
}

/// What was done on one capture.
#[derive(PartialEq, Eq, Debug)]
pub struct CaptureCounters {
    /// By message type.
    pub types: Vec<TypeCounters>,
    pub filtered: u64,
    /// Our own re-emits the link handed back, dropped before routing.
    pub echoed: u64,
    /// Completed interface rebuilds.
    pub recoveries: u64,
    /// Received frames too large to forward, dropped before parsing.
    pub oversized: u64,
}

/// The counts of a capture.
pub struct Counts {
    pub types: Seq<TypeCounters>,
    pub filtered: u64,
    pub echoed: u64,
    pub recoveries: u64,
    pub oversized: u64,
}

impl View for CaptureCounters {
    type V = Counts;

    open spec fn view(&self) -> Counts {
        Counts {
            types: self.types@,
            filtered: self.filtered,
            echoed: self.echoed,
            recoveries: self.recoveries,
            oversized: self.oversized,
        }
    }
}

/// Nothing counted on a capture.
pub open spec fn nothing_counted() -> Counts {
    Counts {
        types: Seq::new(MESSAGE_TYPE_COUNT as nat, |i: int| no_counts()),
        filtered: 0,
        echoed: 0,
        recoveries: 0,
        oversized: 0,
    }
}

impl Counts {
    /// The count that an outcome adds to.
    pub open spec fn bucket(self, outcome: Outcome) -> u64 {
        match outcome {
            Outcome::Reflected(t) => self.types[t.place()].reflected,
            Outcome::Skipped(t) => self.types[t.place()].skipped,
            Outcome::Dropped(t) => self.types[t.place()].dropped,
            Outcome::Stalled(t) => self.types[t.place()].stalled,
            Outcome::Filtered => self.filtered,
        }
    }

    /// One more outcome counted.
    pub open spec fn counted(self, outcome: Outcome) -> Counts {
        let n: u64 = (self.bucket(outcome) + 1) as u64;
        match outcome {
            Outcome::Reflected(t) => Counts {
                types: self.types.update(
                    t.place(),
                    TypeCounters { reflected: n, ..self.types[t.place()] },
                ),
                ..self
            },
            Outcome::Skipped(t) => Counts {
                types: self.types.update(
                    t.place(),
                    TypeCounters { skipped: n, ..self.types[t.place()] },
                ),
                ..self
            },
            Outcome::Dropped(t) => Counts {
                types: self.types.update(
                    t.place(),
                    TypeCounters { dropped: n, ..self.types[t.place()] },
                ),
                ..self
            },
            Outcome::Stalled(t) => Counts {
                types: self.types.update(
                    t.place(),
                    TypeCounters { stalled: n, ..self.types[t.place()] },
                ),
                ..self
            },
            Outcome::Filtered => Counts { filtered: n, ..self },
        }
    }

    /// The text of one type's counts, behind the type.
    pub open spec fn type_part(self, i: int) -> Seq<Seq<char>> {
        let parts = self.types[i].parts();
        if parts.len() > 0 {
            seq![MessageType::at_place(i).text() + " "@ + text::joined(parts, " "@)]
        } else {
            Seq::empty()
        }
    }

    /// The texts of the first `n` types' counts.
    pub open spec fn type_parts(self, n: nat) -> Seq<Seq<char>>
        decreases n,
    {
        if n == 0 {
            Seq::empty()
        } else {
            self.type_parts((n - 1) as nat) + self.type_part(n - 1)
        }
    }

    /// The counts that are not 0, the recoveries in front and those of the whole interface behind.
    pub open spec fn parts(self) -> Seq<Seq<char>> {
        labelled("recoveries="@, self.recoveries) + self.type_parts(MESSAGE_TYPE_COUNT as nat)
            + labelled("filtered="@, self.filtered) + labelled("echoed="@, self.echoed) + labelled(
            "oversized="@,
            self.oversized,
        )
    }
}

impl CaptureCounters {
    /// There are counts for each message type.
    pub open spec fn wf(&self) -> bool {
        self.types@.len() == MESSAGE_TYPE_COUNT
    }

    pub fn new() -> (r: Self)
        ensures
            r.wf(),
            r@ == nothing_counted(),
    {
        let mut types: Vec<TypeCounters> = Vec::new();
        let mut i: usize = 0;
        while i < MESSAGE_TYPE_COUNT
            invariant
                i <= MESSAGE_TYPE_COUNT,
                types@ == Seq::new(i as nat, |j: int| no_counts()),
            decreases MESSAGE_TYPE_COUNT - i,
        {
            types.push(TypeCounters { reflected: 0, skipped: 0, dropped: 0, stalled: 0 });
            assert(types@ =~= Seq::new((i + 1) as nat, |j: int| no_counts()));
            i += 1;
        }
        assert(types@ =~= nothing_counted().types);
        CaptureCounters { types, filtered: 0, echoed: 0, recoveries: 0, oversized: 0 }
    }

    pub fn record(&mut self, outcome: Outcome)
        requires
            old(self).wf(),
            old(self)@.bucket(outcome) < u64::MAX,
        ensures
            final(self).wf(),
            final(self)@ == old(self)@.counted(outcome),
    {
        match outcome {
            Outcome::Reflected(t) => {
                let i: usize = t.index();
                let c = self.types[i];
                self.types.set(i, TypeCounters { reflected: c.reflected + 1, ..c });
            },
            Outcome::Skipped(t) => {
                let i: usize = t.index();
                let c = self.types[i];
                self.types.set(i, TypeCounters { skipped: c.skipped + 1, ..c });
            },
            Outcome::Dropped(t) => {
                let i: usize = t.index();
                let c = self.types[i];
                self.types.set(i, TypeCounters { dropped: c.dropped + 1, ..c });
            },
            Outcome::Stalled(t) => {
                let i: usize = t.index();
                let c = self.types[i];
                self.types.set(i, TypeCounters { stalled: c.stalled + 1, ..c });
            },
            Outcome::Filtered => {
                self.filtered = self.filtered + 1;
            },
        }
    }

    pub fn record_recovery(&mut self)
        requires
            old(self).recoveries < u64::MAX,
        ensures
            final(self)@ == (Counts { recoveries: (old(self).recoveries + 1) as u64, ..old(self)@ }),
    {
        self.recoveries = self.recoveries + 1;
    }

    pub fn record_oversized(&mut self, n: u64)
        requires
            old(self).oversized + n <= u64::MAX,
        ensures
            final(self)@ == (Counts { oversized: (old(self).oversized + n) as u64, ..old(self)@ }),
    {
        self.oversized = self.oversized + n;
    }

    pub fn record_echo(&mut self)
        requires
            old(self).echoed < u64::MAX,
        ensures
            final(self)@ == (Counts { echoed: (old(self).echoed + 1) as u64, ..old(self)@ }),
    {
        self.echoed = self.echoed + 1;
    }

    /// The counts of one message type: reflected, skipped, dropped, stalled.
    pub fn typed(&self, t: MessageType) -> (r: (u64, u64, u64, u64))
        requires
            self.wf(),
        ensures
            r == ({
                let c = self@.types[t.place()];
                (c.reflected, c.skipped, c.dropped, c.stalled)
            }),
    {
        let c = self.types[t.index()];
        (c.reflected, c.skipped, c.dropped, c.stalled)
    }

    pub fn filtered(&self) -> (r: u64)
        ensures
            r == self@.filtered,
    {
        self.filtered
    }

    pub fn echoed(&self) -> (r: u64)
        ensures
            r == self@.echoed,
    {
        self.echoed
    }

    pub fn recoveries(&self) -> (r: u64)
        ensures
            r == self@.recoveries,
    {
        self.recoveries
    }

    /// e.g. `recoveries=1; mDNS query reflected=42 skipped=10; filtered=2`; `None` when idle.
    pub fn format_nonzero(&self) -> (r: Option<String>)
        requires
            self.wf(),
        ensures
            match r {
                Some(s) => self@.parts().len() > 0 && s@ == text::joined(self@.parts(), "; "@),
                None => self@.parts().len() == 0,
            },
    {
        let mut parts: Vec<String> = Vec::new();
        assert(text::views(parts@) =~= Seq::empty());
        push_labelled(&mut parts, "recoveries=", self.recoveries);
        let ghost first = text::views(parts@);
        let mut i: usize = 0;
        assert(first + self@.type_parts(0) =~= first);
        while i < MESSAGE_TYPE_COUNT
            invariant
                i <= MESSAGE_TYPE_COUNT,
                self.wf(),
                text::views(parts@) == first + self@.type_parts(i as nat),
            decreases MESSAGE_TYPE_COUNT - i,
        {
            let ghost before = parts@;
            match self.types[i].format_nonzero() {
                Some(fields) => {
                    let mut part = MessageType::from_index(i).as_str().to_owned();
                    part.append(" ");
                    part.append(fields.as_str());
                    parts.push(part);
                    assert(text::views(parts@) =~= text::views(before) + self@.type_part(i as int));
                },
                None => {
                    assert(text::views(parts@) =~= text::views(before) + self@.type_part(i as int));
                },
            }
            assert(first + self@.type_parts(i as nat) + self@.type_part(i as int) =~= first
                + self@.type_parts((i + 1) as nat));
            i += 1;
        }
        push_labelled(&mut parts, "filtered=", self.filtered);
        push_labelled(&mut parts, "echoed=", self.echoed);
        push_labelled(&mut parts, "oversized=", self.oversized);
        assert(text::views(parts@) =~= self@.parts());
        if parts.len() == 0 {
            None
        } else {
            Some(text::join(&parts, "; "))
        }
    }
}

/// The log line of an interface's counts, where anything was counted.
pub open spec fn counters_line(interface: Seq<char>, counts: Counts) -> Seq<Seq<char>> {
    if counts.parts().len() > 0 {
        seq!["counters "@ + interface + ": "@ + text::joined(counts.parts(), "; "@)]
    } else {
        Seq::empty()
    }
}

/// The log lines of several interfaces' counts.
pub open spec fn counters_lines(rows: Seq<(Seq<char>, Counts)>) -> Seq<Seq<char>>
    decreases rows.len(),
{
    if rows.len() == 0 {
        Seq::empty()
    } else {
        counters_lines(rows.drop_last()) + counters_line(rows.last().0, rows.last().1)
    }
}

/// The interfaces' names and counts.
pub open spec fn counts_of(rows: Seq<(&str, &CaptureCounters)>) -> Seq<(Seq<char>, Counts)> {
    rows.map_values(|row: (&str, &CaptureCounters)| (row.0@, row.1@))
}

/// The log lines of the interfaces' counts, one for each on which anything was counted.
pub fn log_counters(rows: &Vec<(&str, &CaptureCounters)>) -> (r: Vec<String>)
    requires
        forall|i: int| 0 <= i < rows@.len() ==> (#[trigger] rows@[i]).1.wf(),
    ensures
        text::views(r@) == counters_lines(counts_of(rows@)),
{
    let mut lines: Vec<String> = Vec::new();
    let mut i: usize = 0;
    assert(text::views(lines@) =~= Seq::empty());
    while i < rows.len()
        invariant
            i <= rows@.len(),
            forall|i: int| 0 <= i < rows@.len() ==> (#[trigger] rows@[i]).1.wf(),
            text::views(lines@) == counters_lines(counts_of(rows@.take(i as int))),
        decreases rows@.len() - i,
    {
        let ghost before = lines@;
        let (interface, counters) = rows[i];
        match counters.format_nonzero() {
            Some(summary) => {
                let mut line = "counters ".to_owned();
                line.append(interface);
                line.append(": ");
                line.append(summary.as_str());
                lines.push(line);
            },
            None => {},
        }
        assert(text::views(lines@) =~= text::views(before) + counters_line(
            interface@,
            counters@,
        ));
        let ghost t = counts_of(rows@.take(i as int + 1));
        assert(t.drop_last() =~= counts_of(rows@.take(i as int)));
        assert(t.last() == (interface@, counters@));
        i += 1;
    }
    assert(rows@.take(i as int) =~= rows@);
    lines
}

/// How a fold ranks two outcomes: a reflection above a drop, a drop above a stall, a stall above a
/// skip, and whatever was handled above what was not ours.
pub proof fn law_what_outranks_what(
    reflected: MessageType,
    dropped: MessageType,
    stalled: MessageType,
    skipped: MessageType,
)
    ensures
        Outcome::Reflected(reflected).merged(Outcome::Dropped(dropped)) is Reflected,
        Outcome::Reflected(reflected).merged(Outcome::Stalled(stalled)) is Reflected,
        Outcome::Reflected(reflected).merged(Outcome::Skipped(skipped)) is Reflected,
        Outcome::Reflected(reflected).merged(Outcome::Filtered) == Outcome::Reflected(reflected),
        Outcome::Dropped(dropped).merged(Outcome::Stalled(stalled)) is Dropped,
        Outcome::Dropped(dropped).merged(Outcome::Skipped(skipped)) is Dropped,
        Outcome::Dropped(dropped).merged(Outcome::Filtered) == Outcome::Dropped(dropped),
        Outcome::Stalled(stalled).merged(Outcome::Skipped(skipped)) is Stalled,
        Outcome::Stalled(stalled).merged(Outcome::Filtered) == Outcome::Stalled(stalled),
        Outcome::Skipped(skipped).merged(Outcome::Filtered) == Outcome::Skipped(skipped),
        Outcome::Filtered.merged(Outcome::Filtered) == Outcome::Filtered,
{
}

/// The type of a fold is the protocol's where one side is the relay's, and else that of the outcome
/// that outranks the other.
pub proof fn law_the_relay_yields_its_type(a: Outcome, b: Outcome, protocol: MessageType)
    requires
        b != Outcome::Filtered,
        b.message_type() == Some(MessageType::UdpDatagram),
        a.message_type() == Some(protocol),
    ensures
        a.merged(b).message_type() == Some(protocol),
        b.merged(a).message_type() == Some(protocol),
        !a.mismatch(b),
{
}

/// Two outcomes disagree where each is of a protocol, and not of the same.
pub proof fn law_two_protocols_disagree(a: MessageType, b: MessageType, x: Outcome, y: Outcome)
    requires
        x.message_type() == Some(a),
        y.message_type() == Some(b),
    ensures
        x.mismatch(y) <==> a != b && a != MessageType::UdpDatagram && b
            != MessageType::UdpDatagram,
        !x.mismatch(Outcome::Filtered),
        !Outcome::Filtered.mismatch(x),
{
}

/// An outcome is counted once, as what it is and under its type; every other count stays.
pub proof fn law_an_outcome_is_counted_as_what_it_is(c: Counts, t: MessageType, u: MessageType)
    requires
        c.types.len() == MESSAGE_TYPE_COUNT,
        c.bucket(Outcome::Reflected(t)) < u64::MAX,
        c.bucket(Outcome::Skipped(t)) < u64::MAX,
        c.bucket(Outcome::Dropped(t)) < u64::MAX,
        c.bucket(Outcome::Stalled(t)) < u64::MAX,
        c.filtered < u64::MAX,
    ensures
        ({
            let n = c.types[t.place()];
            &&& c.counted(Outcome::Reflected(t)).types[t.place()] == (TypeCounters {
                reflected: (n.reflected + 1) as u64,
                skipped: n.skipped,
                dropped: n.dropped,
                stalled: n.stalled,
            })
            &&& c.counted(Outcome::Skipped(t)).types[t.place()] == (TypeCounters {
                reflected: n.reflected,
                skipped: (n.skipped + 1) as u64,
                dropped: n.dropped,
                stalled: n.stalled,
            })
            &&& c.counted(Outcome::Dropped(t)).types[t.place()] == (TypeCounters {
                reflected: n.reflected,
                skipped: n.skipped,
                dropped: (n.dropped + 1) as u64,
                stalled: n.stalled,
            })
            &&& c.counted(Outcome::Stalled(t)).types[t.place()] == (TypeCounters {
                reflected: n.reflected,
                skipped: n.skipped,
                dropped: n.dropped,
                stalled: (n.stalled + 1) as u64,
            })
        }),
        c.counted(Outcome::Filtered) == (Counts { filtered: (c.filtered + 1) as u64, ..c }),
        forall|outcome: Outcome|
            #![trigger c.counted(outcome)]
            outcome.message_type() == Some(t) ==> {
                let after = c.counted(outcome);
                &&& after.types.len() == c.types.len()
                &&& after.filtered == c.filtered
                &&& after.echoed == c.echoed
                &&& after.recoveries == c.recoveries
                &&& after.oversized == c.oversized
                &&& u != t ==> after.types[u.place()] == c.types[u.place()]
            },
{
    assert(u != t ==> u.place() != t.place());
    assert(0 <= t.place() < 10 && 0 <= u.place() < 10);
}

/// A label stands in front of its count, and a count of nothing is left out.
pub proof fn law_what_is_not_counted_is_not_listed(c: TypeCounters, n: u64)
    requires
        n > 0,
    ensures
        labelled("x="@, 0).len() == 0,
        labelled("x="@, n) == seq!["x="@ + crate::number::decimal(n as nat)],
        c.parts().len() == 0 <==> c.reflected == 0 && c.skipped == 0 && c.dropped == 0 && c.stalled
            == 0,
{
}

/// An interface has a line in the summary where, and only where, something was counted on it.
pub proof fn law_a_line_where_something_was_counted(name: Seq<char>, c: Counts)
    requires
        c.types.len() == MESSAGE_TYPE_COUNT,
    ensures
        counters_line(name, c).len() == 0 <==> {
            &&& c.recoveries == 0 && c.filtered == 0 && c.echoed == 0 && c.oversized == 0
            &&& forall|i: int|
                0 <= i < 10 ==> (#[trigger] c.types[i]).reflected == 0 && c.types[i].skipped == 0
                    && c.types[i].dropped == 0 && c.types[i].stalled == 0
        },
        counters_line(name, c).len() <= 1,
{
    lemma_no_type_parts(c, 10);
}

proof fn lemma_no_type_parts(c: Counts, n: nat)
    requires
        n <= c.types.len(),
    ensures
        c.type_parts(n).len() == 0 <==> forall|i: int|
            0 <= i < n ==> (#[trigger] c.types[i]).reflected == 0 && c.types[i].skipped == 0
                && c.types[i].dropped == 0 && c.types[i].stalled == 0,
    decreases n,
{
    if n > 0 {
        lemma_no_type_parts(c, (n - 1) as nat);
        let last = c.types[n - 1];
    }
}

/// Each type has its own place, and each of the ten places its type.
pub proof fn law_each_type_has_its_own_place(t: MessageType, i: int)
    ensures
        0 <= t.place() < 10,
        MessageType::at_place(t.place()) == t,
        0 <= i < 10 ==> MessageType::at_place(i).place() == i,
        MESSAGE_TYPE_COUNT == 10,
{
}

} // verus!
