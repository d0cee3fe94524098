//! A routing socket. Only the interface index is read, at its fixed header offset.

use vstd::prelude::*;

use crate::interface::interface_monitor::InterfaceEvent;
use crate::interface::wire;
use crate::interface::wire::Order;

verus! {

/// The indexes of gone interfaces are used again.
pub const INDEXES_MONOTONIC: bool = false;

pub const RTM_ADD: u8 = 1;

pub const RTM_NEWADDR: u8 = 0xc;

pub const RTM_DELADDR: u8 = 0xd;

pub const RTM_IFINFO: u8 = 0xe;

/// An interface arrived or departed; not every system announces it.
pub const RTM_IFANNOUNCE: u8 = 0x11;

/// Where an address or link message holds the interface index.
pub const INDEX_OFFSET: usize = 12;

/// Where an announcement holds it.
pub const ANNOUNCE_INDEX_OFFSET: usize = 4;

/// The length of the message at `offset` and its type. Every message begins with its length, a
/// version and its type.
pub open spec fn message_at(o: Order, buf: Seq<u8>, offset: int) -> Option<(int, u8)> {
    if 0 <= offset && offset + 4 <= buf.len() {
        let len: int = wire::u16_at(o, buf, offset)->0 as int;
        if 4 <= len && offset + len <= buf.len() {
            Some((len, buf[offset + 3]))
        } else {
            None
        }
    } else {
        None
    }
}

/// The change that the message announces: an address or link message a change of the interface, an
/// announcement, where the system has those, a lifecycle event. Kernel indices are at least 1: a
/// message with no valid index announces none.
pub open spec fn event_at(
    o: Order,
    buf: Seq<u8>,
    offset: int,
    len: int,
    kind: u8,
    announces: bool,
) -> Option<InterfaceEvent> {
    if kind == RTM_NEWADDR || kind == RTM_DELADDR || kind == RTM_IFINFO {
        let index = wire::u16_at(o, buf, offset + INDEX_OFFSET)->0;
        if len >= INDEX_OFFSET + 2 && index != 0 {
            Some(InterfaceEvent::Address(index as u32))
        } else {
            None
        }
    } else if announces && kind == RTM_IFANNOUNCE {
        let index = wire::u16_at(o, buf, offset + ANNOUNCE_INDEX_OFFSET)->0;
        if len >= ANNOUNCE_INDEX_OFFSET + 2 && index != 0 {
            Some(InterfaceEvent::Link(index as u32))
        } else {
            None
        }
    } else {
        None
    }
}

/// The changes that the messages from `offset` on announce, up to where no whole message is left.
pub open spec fn changes(o: Order, buf: Seq<u8>, offset: int, announces: bool) -> Seq<
    InterfaceEvent,
>
    decreases wire::left(buf, offset),
{
    match message_at(o, buf, offset) {
        None => Seq::empty(),
        Some((len, kind)) => {
            let rest = changes(o, buf, offset + len, announces);
            match event_at(o, buf, offset, len, kind, announces) {
                Some(event) => seq![event] + rest,
                None => rest,
            }
        },
    }
}

/// No change names the index 0, which no interface has, or an overflow; without announcements none is
/// a lifecycle event.
pub proof fn law_every_change_names_an_interface(
    o: Order,
    buf: Seq<u8>,
    offset: int,
    announces: bool,
)
    ensures
        forall|i: int|
            0 <= i < changes(o, buf, offset, announces).len() ==> (match #[trigger] changes(
                o,
                buf,
                offset,
                announces,
            )[i] {
                InterfaceEvent::Address(index) => index != 0,
                InterfaceEvent::Link(index) => index != 0 && announces,
                InterfaceEvent::Overflow => false,
            }),
    decreases wire::left(buf, offset),
{
    if let Some((len, kind)) = message_at(o, buf, offset) {
        law_every_change_names_an_interface(o, buf, offset + len, announces);
    }
}

/// See [`event_at`].
fn read_event(o: Order, buf: &[u8], offset: usize, len: usize, kind: u8, announces: bool) -> (r:
    Option<InterfaceEvent>)
    requires
        4 <= len,
        offset + len <= buf@.len(),
    ensures
        r == event_at(o, buf@, offset as int, len as int, kind, announces),
{
    assert(buf.len() == buf@.len());
    let link = announces && kind == RTM_IFANNOUNCE;
    if !link && kind != RTM_NEWADDR && kind != RTM_DELADDR && kind != RTM_IFINFO {
        return None;
    }
    let at: usize = if link {
        ANNOUNCE_INDEX_OFFSET
    } else {
        INDEX_OFFSET
    };
    if len < at + 2 {
        return None;
    }
    match wire::read_u16(o, buf, offset + at) {
        Some(index) => if index == 0 {
            None
        } else if link {
            Some(InterfaceEvent::Link(index as u32))
        } else {
            Some(InterfaceEvent::Address(index as u32))
        },
        None => None,
    }
}

/// The changes that one read announces. `announces` says whether the system has lifecycle
/// announcements.
pub fn for_each_change(o: Order, buf: &[u8], announces: bool) -> (r: Vec<InterfaceEvent>)
    ensures
        r@ == changes(o, buf@, 0, announces),
{
    let mut found: Vec<InterfaceEvent> = Vec::new();
    let mut offset: usize = 0;
    let ghost all = changes(o, buf@, 0, announces);
    assert(found@ + all =~= all);
    assert(buf.len() == buf@.len());
    while buf.len() >= 4 && offset <= buf.len() - 4
        invariant
            buf@.len() <= usize::MAX,
            offset <= buf@.len(),
            all == changes(o, buf@, 0, announces),
            all == found@ + changes(o, buf@, offset as int, announces),
        decreases wire::left(buf@, offset as int),
    {
        let len: usize = match wire::read_u16(o, buf, offset) {
            Some(len) => len as usize,
            None => 0,
        };
        let kind: u8 = buf[offset + 3];
        if len < 4 || len > buf.len() - offset {
            assert(all =~= found@);
            return found;
        }
        let ghost rest = changes(o, buf@, offset + len, announces);
        match read_event(o, buf, offset, len, kind, announces) {
            Some(event) => {
                found.push(event);
            },
            None => {},
        }
        assert(all =~= found@ + rest);
        offset = offset + len;
    }
    assert(all =~= found@);
    found
}

/// A message as the system writes it: its length, a version, its type, and the rest.
pub open spec fn is_message(o: Order, m: Seq<u8>) -> bool {
    4 <= m.len() <= 0xffff && wire::pair(o, m[0], m[1]) == m.len()
}

/// What a message announces: an address or a link that came, went or changed, on the interface whose
/// index stands at its thirteenth byte, or, where the system announces those, an interface that did,
/// whose index stands at its fifth; nothing where it is cut or the index is none.
pub open spec fn announced(o: Order, m: Seq<u8>, announces: bool) -> Seq<InterfaceEvent> {
    if (m[3] == 12 || m[3] == 13 || m[3] == 14) && m.len() >= 14 && wire::pair(o, m[12], m[13])
        != 0 {
        seq![InterfaceEvent::Address(wire::pair(o, m[12], m[13]) as u32)]
    } else if announces && m[3] == 17 && m.len() >= 6 && wire::pair(o, m[4], m[5]) != 0 {
        seq![InterfaceEvent::Link(wire::pair(o, m[4], m[5]) as u32)]
    } else {
        Seq::empty()
    }
}

/// Every message is read, and what it announces is told in front of what those behind it do.
pub proof fn law_every_message_tells_its_change(
    o: Order,
    head: Seq<u8>,
    m: Seq<u8>,
    rest: Seq<u8>,
    announces: bool,
)
    requires
        is_message(o, m),
    ensures
        changes(o, head + m + rest, head.len() as int, announces) == announced(o, m, announces)
            + changes(o, head + m + rest, (head.len() + m.len()) as int, announces),
        changes(o, head, head.len() as int, announces) == Seq::<InterfaceEvent>::empty(),
{
    let buf = head + m + rest;
    let at: int = head.len() as int;
    assert(buf[at] == m[0] && buf[at + 1] == m[1] && buf[at + 3] == m[3]);
    assert(message_at(o, buf, at) == Some((m.len() as int, m[3])));
    if m.len() >= 14 {
        assert(buf[at + 12] == m[12] && buf[at + 13] == m[13]);
    }
    if m.len() >= 6 {
        assert(buf[at + 4] == m[4] && buf[at + 5] == m[5]);
    }
    let behind = changes(o, buf, at + m.len(), announces);
    assert(Seq::<InterfaceEvent>::empty() + behind =~= behind);
    assert(message_at(o, head, at) is None);
}

} // verus!
