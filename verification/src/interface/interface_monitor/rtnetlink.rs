//! An rtnetlink socket subscribed to the address and link change groups.

use vstd::prelude::*;

use crate::interface::interface_monitor::InterfaceEvent;
use crate::interface::rtnetlink;
use crate::interface::rtnetlink::laws;
use crate::interface::rtnetlink::laws::DumpMessage;
use crate::interface::rtnetlink::{
    HEADER, IFADDRMSG, IFINFOMSG, RTM_DELADDR, RTM_DELLINK, RTM_NEWADDR, RTM_NEWLINK,
};
use crate::interface::wire;
use crate::interface::wire::Order;
use crate::libcex;

verus! {

/// The indexes of new interfaces are above every one seen before.
pub const INDEXES_MONOTONIC: bool = true;

/// Links announce that they come and go.
pub const LIFECYCLE_EVENTS: bool = true;

/// The size of a netlink socket address, and where it holds the sender's port.
pub const SOCKADDR_NL: usize = 12;

pub const NL_PID: usize = 4;

/// The change that the message at `offset` announces. Kernel indices are at least 1: a message with
/// no valid index announces none.
pub open spec fn event_at(o: Order, buf: Seq<u8>, offset: int, len: int, kind: u16) -> Option<
    InterfaceEvent,
> {
    let index = wire::u32_at(o, buf, offset + HEADER + 4)->0;
    if kind == RTM_NEWADDR || kind == RTM_DELADDR {
        if len >= HEADER + IFADDRMSG && index != 0 {
            Some(InterfaceEvent::Address(index))
        } else {
            None
        }
    } else if kind == RTM_NEWLINK || kind == RTM_DELLINK {
        if len >= HEADER + IFINFOMSG && 0 < index <= i32::MAX {
            Some(InterfaceEvent::Link(index))
        } else {
            None
        }
    } else {
        None
    }
}

/// The changes that the messages from `offset` on announce, up to where no whole message is left.
pub open spec fn changes(o: Order, buf: Seq<u8>, offset: int) -> Seq<InterfaceEvent>
    decreases wire::left(buf, offset),
{
    match rtnetlink::message_at(o, buf, offset) {
        None => Seq::empty(),
        Some((len, kind)) => {
            let rest = changes(o, buf, offset + libcex::nl_aligned(len));
            match event_at(o, buf, offset, len, kind) {
                Some(event) => seq![event] + rest,
                None => rest,
            }
        },
    }
}

/// No change names the index 0, which no interface has, or an overflow.
pub proof fn law_every_change_names_an_interface(o: Order, buf: Seq<u8>, offset: int)
    ensures
        forall|i: int|
            0 <= i < changes(o, buf, offset).len() ==> (match #[trigger] changes(o, buf, offset)[i] {
                InterfaceEvent::Address(index) => index != 0,
                InterfaceEvent::Link(index) => index != 0,
                InterfaceEvent::Overflow => false,
            }),
    decreases wire::left(buf, offset),
{
    if let Some((len, kind)) = rtnetlink::message_at(o, buf, offset) {
        law_every_change_names_an_interface(o, buf, offset + libcex::nl_aligned(len));
    }
}

/// See [`event_at`].
fn read_event(o: Order, buf: &[u8], offset: usize, len: usize, kind: u16) -> (r: Option<
    InterfaceEvent,
>)
    requires
        HEADER <= len,
        offset + len <= buf@.len(),
    ensures
        r == event_at(o, buf@, offset as int, len as int, kind),
{
    assert(buf.len() == buf@.len());
    if len < HEADER + IFADDRMSG {
        return None;
    }
    let index: u32 = match wire::read_u32(o, buf, offset + HEADER + 4) {
        Some(index) => index,
        None => 0,
    };
    if kind == RTM_NEWADDR || kind == RTM_DELADDR {
        if index != 0 {
            Some(InterfaceEvent::Address(index))
        } else {
            None
        }
    } else if kind == RTM_NEWLINK || kind == RTM_DELLINK {
        if len >= HEADER + IFINFOMSG && 0 < index && index <= i32::MAX as u32 {
            Some(InterfaceEvent::Link(index))
        } else {
            None
        }
    } else {
        None
    }
}

/// The changes that one datagram announces: the index of each address and link message.
pub fn for_each_change(o: Order, buf: &[u8]) -> (r: Vec<InterfaceEvent>)
    ensures
        r@ == changes(o, buf@, 0),
{
    let mut found: Vec<InterfaceEvent> = Vec::new();
    let mut offset: usize = 0;
    let ghost all = changes(o, buf@, 0);
    assert(found@ + all =~= all);
    loop
        invariant
            all == changes(o, buf@, 0),
            all == found@ + changes(o, buf@, offset as int),
        decreases wire::left(buf@, offset as int),
    {
        assert(buf.len() == buf@.len());
        match rtnetlink::read_message(o, buf, offset) {
            None => {
                assert(all =~= found@);
                return found;
            },
            Some((len, kind)) => {
                let ghost next: int = offset + libcex::nl_aligned(len as int);
                let ghost rest = changes(o, buf@, next);
                match read_event(o, buf, offset, len, kind) {
                    Some(event) => {
                        found.push(event);
                    },
                    None => {},
                }
                assert(all =~= found@ + rest);
                if len > usize::MAX - 3 || libcex::nl_align(len) > usize::MAX - offset {
                    assert(rtnetlink::message_at(o, buf@, next) is None);
                    assert(all =~= found@);
                    return found;
                }
                offset = offset + libcex::nl_align(len);
            },
        }
    }
}

/// The kernel's netlink source address has port 0; another is a locally spoofed datagram (sending
/// one between processes needs no privilege). `src` holds the source address, of which the system
/// filled `len` bytes.
pub fn sender_ok(o: Order, src: &[u8], len: usize) -> (r: bool)
    ensures
        r == is_of_the_kernel(o, src@, len),
{
    if len < SOCKADDR_NL {
        return false;
    }
    match wire::read_u32(o, src, NL_PID) {
        Some(pid) => pid == 0,
        None => false,
    }
}

/// What a message announces: an address that came or went, or a link that did or changed, on the
/// interface whose index stands at the fifth byte of its body; nothing where the body is cut or the
/// index is none.
pub open spec fn announced(o: Order, m: DumpMessage) -> Seq<InterfaceEvent> {
    let b = m.body;
    let index = wire::quad(o, b[4], b[5], b[6], b[7]);
    if (m.kind == 20 || m.kind == 21) && b.len() >= 8 && index != 0 {
        seq![InterfaceEvent::Address(index)]
    } else if (m.kind == 16 || m.kind == 17) && b.len() >= 16 && 0 < index < 0x8000_0000 {
        seq![InterfaceEvent::Link(index)]
    } else {
        Seq::empty()
    }
}

/// What the messages of a datagram announce, in their order.
pub open spec fn all_announced(o: Order, s: Seq<DumpMessage>) -> Seq<InterfaceEvent>
    decreases s.len(),
{
    if s.len() == 0 {
        Seq::empty()
    } else {
        announced(o, s[0]) + all_announced(o, s.skip(1))
    }
}

/// Every message of a datagram is read, and what it announces is told, in order.
pub proof fn law_a_datagram_tells_every_change(o: Order, s: Seq<DumpMessage>)
    requires
        forall|i: int| 0 <= i < s.len() ==> (#[trigger] s[i]).wf(),
    ensures
        changes(o, laws::datagram(o, s), 0) == all_announced(o, s),
{
    let none = Seq::<u8>::empty();
    lemma_changes(o, none, s);
    assert(none + laws::datagram(o, s) =~= laws::datagram(o, s));
}

proof fn lemma_changes(o: Order, head: Seq<u8>, s: Seq<DumpMessage>)
    requires
        forall|i: int| 0 <= i < s.len() ==> (#[trigger] s[i]).wf(),
    ensures
        changes(o, head + laws::datagram(o, s), head.len() as int) == all_announced(o, s),
    decreases s.len(),
{
    let buf = head + laws::datagram(o, s);
    if s.len() == 0 {
        assert(buf =~= head);
        assert(rtnetlink::message_at(o, buf, head.len() as int) is None);
    } else {
        let m = s[0];
        let t = s.skip(1);
        assert forall|i: int| 0 <= i < t.len() implies (#[trigger] t[i]).wf() by {
            assert(t[i] == s[i + 1]);
        }
        let fill = laws::zeros(laws::padding(m.body.len()));
        let next = head + m.bytes(o) + fill;
        let more = fill + laws::datagram(o, t);
        assert(buf =~= head + m.bytes(o) + more);
        assert(buf =~= next + laws::datagram(o, t));
        laws::lemma_message_front(o, head, m, more);
        laws::lemma_filled_up(o, head, m);
        lemma_changes(o, next, t);
        lemma_announced(o, head, m, more);
        assert(seq![] + all_announced(o, t) =~= all_announced(o, t));
    }
}

proof fn lemma_announced(o: Order, head: Seq<u8>, m: DumpMessage, more: Seq<u8>)
    requires
        m.wf(),
    ensures
        announced(o, m) == match event_at(
            o,
            head + m.bytes(o) + more,
            head.len() as int,
            16 + m.body.len() as int,
            m.kind,
        ) {
            Some(e) => seq![e],
            None => Seq::empty(),
        },
{
    let buf = head + m.bytes(o) + more;
    laws::lemma_message_front(o, head, m, more);
    let at: int = head.len() as int + 20;
    if m.body.len() >= 8 {
        assert(buf[at] == m.body[4]);
        assert(buf[at + 1] == m.body[5]);
        assert(buf[at + 2] == m.body[6]);
        assert(buf[at + 3] == m.body[7]);
    }
}

/// A datagram is the kernel's where the system filled a whole address and its port, behind four bytes,
/// is 0.
pub open spec fn is_of_the_kernel(o: Order, src: Seq<u8>, len: usize) -> bool {
    len >= SOCKADDR_NL && wire::u32_at(o, src, NL_PID as int) == Some(0u32)
}

/// See [`is_of_the_kernel`]: twelve bytes, of which the fifth to the eighth are 0.
pub proof fn law_the_kernel_has_port_0(o: Order, src: Seq<u8>, len: usize)
    requires
        src.len() >= 12,
    ensures
        is_of_the_kernel(o, src, len) <==> len >= 12 && src[4] == 0 && src[5] == 0 && src[6] == 0
            && src[7] == 0,
{
}

} // verus!
