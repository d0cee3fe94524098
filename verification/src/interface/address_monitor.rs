//! Address-change notifications of a routing socket, as the indexes of the interfaces concerned.

use vstd::prelude::*;

use crate::interface::interface_monitor::route;
use crate::interface::interface_monitor::InterfaceEvent;
use crate::interface::wire::Order;

verus! {

/// The interface that an event concerns.
pub open spec fn index_of(e: InterfaceEvent) -> u32 {
    match e {
        InterfaceEvent::Address(i) => i,
        InterfaceEvent::Link(i) => i,
        InterfaceEvent::Overflow => 0,
    }
}

/// The interfaces that events concern.
pub open spec fn indexes(s: Seq<InterfaceEvent>) -> Seq<u32> {
    Seq::new(s.len(), |i: int| index_of(s[i]))
}

/// The index of each interface that a read announces an address or link change of. 0 names no
/// interface, so it is never among them.
pub fn for_each_change(o: Order, buf: &[u8]) -> (r: Vec<u32>)
    ensures
        r@ == indexes(route::changes(o, buf@, 0, false)),
        !r@.contains(0),
{
    let events = route::for_each_change(o, buf, false);
    proof {
        lemma_indexes_are_not_zero(o, buf@, 0);
    }
    let mut r: Vec<u32> = Vec::new();
    let mut i: usize = 0;
    while i < events.len()
        invariant
            i <= events@.len(),
            r@ == indexes(events@.take(i as int)),
        decreases events@.len() - i,
    {
        let index: u32 = match events[i] {
            InterfaceEvent::Address(n) => n,
            InterfaceEvent::Link(n) => n,
            InterfaceEvent::Overflow => 0,
        };
        r.push(index);
        assert(r@ =~= indexes(events@.take(i as int + 1)));
        i += 1;
    }
    assert(events@.take(i as int) =~= events@);
    r
}

proof fn lemma_indexes_are_not_zero(o: Order, buf: Seq<u8>, offset: int)
    ensures
        !indexes(route::changes(o, buf, offset, false)).contains(0),
    decreases crate::interface::wire::left(buf, offset),
{
    match route::message_at(o, buf, offset) {
        None => {},
        Some((len, kind)) => {
            let rest = route::changes(o, buf, offset + len, false);
            lemma_indexes_are_not_zero(o, buf, offset + len);
            match route::event_at(o, buf, offset, len, kind, false) {
                Some(event) => {
                    assert(indexes(seq![event] + rest) =~= seq![index_of(event)] + indexes(rest));
                },
                None => {},
            }
        },
    }
}

} // verus!
