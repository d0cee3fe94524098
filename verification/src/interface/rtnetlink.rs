//! Address resolution over rtnetlink: an `RTM_GETADDR` dump for the v4/v6 addresses and an
//! `RTM_GETLINK` dump for the MAC and MTU.

pub mod laws;

use vstd::prelude::*;

use crate::interface;
use crate::interface::wire;
use crate::interface::wire::Order;
use crate::interface::{InterfaceAddresses, Picked, Resolved, V6Pick};
use crate::libcex;
use crate::net::ip;
use crate::net::ip::Ipv4Addr;
use crate::net::mac::MacAddr;

verus! {

pub const RTM_NEWLINK: u16 = 16;

pub const RTM_DELLINK: u16 = 17;

pub const RTM_GETLINK: u16 = 18;

pub const RTM_NEWADDR: u16 = 20;

pub const RTM_DELADDR: u16 = 21;

pub const RTM_GETADDR: u16 = 22;

pub const NLMSG_ERROR: u16 = 2;

pub const NLMSG_DONE: u16 = 3;

/// `NLM_F_REQUEST | NLM_F_DUMP`
pub const DUMP_FLAGS: u16 = 0x301;

/// How long a read of a dump may wait. The kernel answers inside our own calls, so this and
/// [`DUMP_DEADLINE`] are not normal waits: they cap a reply dropped when the socket overflowed, or a
/// local process feeding us datagrams we discard, either of which would hold the caller up for good.
/// Nanoseconds.
pub const READ_TIMEOUT: u64 = 1_000_000_000;

/// How long a whole dump may take, in nanoseconds.
pub const DUMP_DEADLINE: u64 = 5_000_000_000;

/// What is said of a read that waited in vain.
pub const UNANSWERED: &'static str = "the netlink dump went unanswered";

/// What is said of a refused dump that names no error.
pub const NO_ERRNO: &'static str = "netlink dump failed (NLMSG_ERROR without an errno)";

/// The size of a message header: length, type, flags, sequence and sender.
pub const HEADER: usize = 16;

/// The size of an address message's body: family, prefix length, flags, scope and index.
pub const IFADDRMSG: usize = 8;

/// The size of a link message's body.
pub const IFINFOMSG: usize = 16;

pub const AF_INET: u8 = 2;

pub const AF_INET6: u8 = 10;

pub const IFA_ADDRESS: u16 = 1;

pub const IFA_LOCAL: u16 = 2;

pub const IFA_FLAGS: u16 = 8;

pub const IFLA_ADDRESS: u16 = 1;

pub const IFLA_MTU: u16 = 4;

/// `IFA_F_*` bits that disqualify an address as a source: tentative, deprecated, or a duplicate.
pub const IFA_F_UNUSABLE: u32 = 0x68;

/// An attribute's length with its header, and its type, where it lies within the message.
pub open spec fn attr_at(o: Order, msg: Seq<u8>, at: int) -> Option<(int, u16)> {
    match (wire::u16_at(o, msg, at), wire::u16_at(o, msg, at + 2)) {
        (Some(len), Some(kind)) => if 4 <= len && at + len <= msg.len() {
            Some((len as int, kind))
        } else {
            None
        },
        _ => None,
    }
}

/// The type-length-value attributes of a message from `at` on, up to the first malformed length.
pub open spec fn attrs(o: Order, msg: Seq<u8>, at: int) -> Seq<(u16, Seq<u8>)>
    decreases wire::left(msg, at),
{
    match attr_at(o, msg, at) {
        Some((len, kind)) => if len >= 4 {
            seq![(kind, msg.subrange(at + 4, at + len))] + attrs(
                o,
                msg,
                at + libcex::nl_aligned(len),
            )
        } else {
            Seq::empty()
        },
        None => Seq::empty(),
    }
}

/// The types and values of attributes.
pub open spec fn attr_views(s: Seq<(u16, &[u8])>) -> Seq<(u16, Seq<u8>)> {
    Seq::new(s.len(), |i: int| (s[i].0, s[i].1@))
}

/// The attributes of a message, stopping at the first malformed length as the kernel's own walk
/// does.
pub fn rtattrs<'a>(o: Order, msg: &'a [u8], from: usize) -> (r: Vec<(u16, &'a [u8])>)
    ensures
        attr_views(r@) == attrs(o, msg@, from as int),
{
    assert(msg.len() == msg@.len());
    let mut r: Vec<(u16, &'a [u8])> = Vec::new();
    let mut at: usize = from;
    let ghost all = attrs(o, msg@, from as int);
    assert(attr_views(r@) + all =~= all);
    let mut done = false;
    while !done
        invariant
            all == attrs(o, msg@, from as int),
            !done ==> all == attr_views(r@) + attrs(o, msg@, at as int),
            done ==> all == attr_views(r@),
        decreases wire::left(msg@, at as int), (if done { 0int } else { 1int }),
    {
        let ghost before = r@;
        let next: Option<(u16, u16)> = if at > msg.len() {
            None
        } else {
            let len: Option<u16> = wire::read_u16(o, msg, at);
            match len {
                Some(len) => match wire::read_u16(o, msg, at + 2) {
                    Some(kind) => Some((len, kind)),
                    None => None,
                },
                None => None,
            }
        };
        match next {
            Some((len, kind)) => {
                if len < 4 || len as usize > msg.len() - at {
                    done = true;
                    assert(attr_views(r@) + Seq::empty() =~= attr_views(r@));
                } else {
                    let end: usize = at + len as usize;
                    r.push((kind, vstd::slice::slice_subrange(msg, at + 4, end)));
                    let ghost tail = attrs(o, msg@, at + libcex::nl_aligned(len as int));
                    assert(attr_views(r@) + tail =~= attr_views(before) + (seq![
                        (kind, msg@.subrange(at + 4, end as int)),
                    ] + tail));
                    let step: usize = libcex::nl_align(len as usize);
                    if step > usize::MAX - at {
                        assert(attr_at(o, msg@, at + step) is None);
                        assert(attr_views(r@) + Seq::empty() =~= attr_views(r@));
                        done = true;
                    } else {
                        at = at + step;
                    }
                }
            },
            None => {
                done = true;
                assert(attr_views(r@) + Seq::empty() =~= attr_views(r@));
            },
        }
    }
    r
}

/// The value of the last attribute of a kind, `None` where there is none of that length (any, where
/// `len` is 0).
pub open spec fn last_value(s: Seq<(u16, Seq<u8>)>, kind: u16, len: nat) -> Option<Seq<u8>>
    decreases s.len(),
{
    if s.len() == 0 {
        None
    } else if s.last().0 == kind && (len == 0 || s.last().1.len() == len) {
        Some(s.last().1)
    } else {
        last_value(s.drop_last(), kind, len)
    }
}

/// See [`last_value`].
fn find_last<'a>(s: &Vec<(u16, &'a [u8])>, kind: u16, len: usize) -> (r: Option<&'a [u8]>)
    ensures
        match r {
            Some(v) => last_value(attr_views(s@), kind, len as nat) == Some(v@),
            None => last_value(attr_views(s@), kind, len as nat) is None,
        },
{
    let ghost all = attr_views(s@);
    let mut i: usize = s.len();
    assert(all.take(i as int) =~= all);
    while i > 0
        invariant
            i <= s@.len(),
            all == attr_views(s@),
            last_value(all, kind, len as nat) == last_value(all.take(i as int), kind, len as nat),
        decreases i,
    {
        let (k, v) = s[i - 1];
        assert(all.take(i as int).last() == (k, v@));
        assert(all.take(i as int).drop_last() =~= all.take(i - 1));
        if k == kind && (len == 0 || v.len() == len) {
            return Some(v);
        }
        i -= 1;
    }
    None
}

/// What an address message says of interface `ifindex`: the bytes of its address, its family, its
/// flags and its prefix length. The local address is preferred over the other, which on a
/// point-to-point link is the peer's; a full set of flags supersedes the short one.
pub struct AddrMessage {
    pub family: u8,
    pub prefix: u8,
    pub flags: u32,
    pub bytes: Seq<u8>,
}

pub open spec fn addr_message(o: Order, msg: Seq<u8>, ifindex: u32) -> Option<AddrMessage> {
    if msg.len() < HEADER + IFADDRMSG {
        None
    } else {
        let family = msg[HEADER as int];
        let list = attrs(o, msg, HEADER + IFADDRMSG);
        let flags = match last_value(list, IFA_FLAGS, 4) {
            Some(b) => wire::quad(o, b[0], b[1], b[2], b[3]),
            None => msg[HEADER + 2] as u32,
        };
        if wire::u32_at(o, msg, HEADER + 4) != Some(ifindex) || (family != AF_INET && family
            != AF_INET6) {
            None
        } else {
            match last_value(list, IFA_LOCAL, 0) {
                Some(bytes) => Some(AddrMessage { family, prefix: msg[HEADER + 1], flags, bytes }),
                None => match last_value(list, IFA_ADDRESS, 0) {
                    Some(bytes) => Some(
                        AddrMessage { family, prefix: msg[HEADER + 1], flags, bytes },
                    ),
                    None => None,
                },
            }
        }
    }
}

/// The addresses after one address message: a usable v4 is taken where there is none yet, a usable
/// v6 is considered.
pub open spec fn addr_scanned(o: Order, msg: Seq<u8>, ifindex: u32, p: Picked) -> Picked {
    match addr_message(o, msg, ifindex) {
        None => p,
        Some(m) => if m.flags & IFA_F_UNUSABLE != 0 {
            p
        } else if m.family == AF_INET {
            if m.bytes.len() == 4 && p.addrs.v4 is None {
                Picked {
                    addrs: InterfaceAddresses {
                        v4: Some(
                            Ipv4Addr { a: m.bytes[0], b: m.bytes[1], c: m.bytes[2], d: m.bytes[3] },
                        ),
                        v4_prefix: Some(m.prefix),
                        ..p.addrs
                    },
                    pick: p.pick,
                }
            } else {
                p
            }
        } else if m.bytes.len() == 16 {
            interface::considered(p, ip::ipv6_at(m.bytes, 0))
        } else {
            p
        },
    }
}

/// Record a usable address of `ifindex` from one `RTM_NEWADDR` (v4: first wins; v6: highest rank
/// wins).
pub fn scan_addr(
    o: Order,
    msg: &[u8],
    ifindex: u32,
    addrs: &mut InterfaceAddresses,
    v6_pick: &mut V6Pick,
)
    ensures
        addr_scanned(o, msg@, ifindex, (Picked { addrs: *old(addrs), pick: *old(v6_pick) })) == (
        Picked { addrs: *final(addrs), pick: *final(v6_pick) }),
{
    if msg.len() < HEADER + IFADDRMSG {
        return;
    }
    proof {
        lemma_last_value(attrs(o, msg@, HEADER + IFADDRMSG), IFA_FLAGS, 4);
    }
    let family: u8 = msg[HEADER];
    let index: Option<u32> = wire::read_u32(o, msg, HEADER + 4);
    let ours = match index {
        Some(i) => i == ifindex,
        None => false,
    };
    if !ours || (family != AF_INET && family != AF_INET6) {
        return;
    }
    let list = rtattrs(o, msg, HEADER + IFADDRMSG);
    let flags: u32 = match find_last(&list, IFA_FLAGS, 4) {
        Some(b) => match wire::read_u32(o, b, 0) {
            Some(flags) => flags,
            None => 0,
        },
        None => msg[HEADER + 2] as u32,
    };
    let bytes: &[u8] = match find_last(&list, IFA_LOCAL, 0) {
        Some(b) => b,
        None => match find_last(&list, IFA_ADDRESS, 0) {
            Some(b) => b,
            None => return,
        },
    };
    if flags & IFA_F_UNUSABLE != 0 {
        return;
    }
    if family == AF_INET {
        if bytes.len() == 4 && addrs.v4.is_none() {
            addrs.v4 = Some(Ipv4Addr::new(bytes[0], bytes[1], bytes[2], bytes[3]));
            addrs.v4_prefix = Some(msg[HEADER + 1]);
        }
    } else if bytes.len() == 16 {
        v6_pick.consider(addrs, ip::read_ipv6(bytes, 0));
    }
}

/// The addresses and MTU after the attributes of a link message: each MAC of six bytes and each MTU
/// of four replaces the one before.
pub open spec fn link_scanned(
    o: Order,
    msg: Seq<u8>,
    ifindex: u32,
    addrs: InterfaceAddresses,
    mtu: Option<u32>,
) -> (InterfaceAddresses, Option<u32>) {
    if msg.len() < HEADER + IFINFOMSG || wire::u32_at(o, msg, HEADER + 4) != Some(ifindex)
        || ifindex > i32::MAX {
        (addrs, mtu)
    } else {
        let list = attrs(o, msg, HEADER + IFINFOMSG);
        (
            match last_value(list, IFLA_ADDRESS, 6) {
                Some(b) => InterfaceAddresses {
                    mac: Some(
                        MacAddr { o0: b[0], o1: b[1], o2: b[2], o3: b[3], o4: b[4], o5: b[5] },
                    ),
                    ..addrs
                },
                None => addrs,
            },
            match last_value(list, IFLA_MTU, 4) {
                Some(b) => Some(wire::quad(o, b[0], b[1], b[2], b[3])),
                None => mtu,
            },
        )
    }
}

/// The last value of a length has that length.
proof fn lemma_last_value(s: Seq<(u16, Seq<u8>)>, kind: u16, len: nat)
    ensures
        last_value(s, kind, len) matches Some(v) ==> len > 0 ==> v.len() == len,
    decreases s.len(),
{
    if s.len() > 0 {
        lemma_last_value(s.drop_last(), kind, len);
    }
}

/// Record the MAC (`IFLA_ADDRESS`) and MTU of `ifindex` from one `RTM_NEWLINK`.
pub fn scan_link(
    o: Order,
    msg: &[u8],
    ifindex: u32,
    addrs: &mut InterfaceAddresses,
    mtu: &mut Option<u32>,
)
    ensures
        link_scanned(o, msg@, ifindex, *old(addrs), *old(mtu)) == (*final(addrs), *final(mtu)),
{
    if msg.len() < HEADER + IFINFOMSG || ifindex > i32::MAX as u32 {
        return;
    }
    let index: Option<u32> = wire::read_u32(o, msg, HEADER + 4);
    let ours = match index {
        Some(i) => i == ifindex,
        None => false,
    };
    if !ours {
        return;
    }
    let list = rtattrs(o, msg, HEADER + IFINFOMSG);
    proof {
        lemma_last_value(attr_views(list@), IFLA_ADDRESS, 6);
        lemma_last_value(attr_views(list@), IFLA_MTU, 4);
    }
    match find_last(&list, IFLA_ADDRESS, 6) {
        Some(b) => {
            addrs.mac = Some(
                MacAddr { o0: b[0], o1: b[1], o2: b[2], o3: b[3], o4: b[4], o5: b[5] },
            );
        },
        None => {},
    }
    match find_last(&list, IFLA_MTU, 4) {
        Some(b) => {
            *mtu = wire::read_u32(o, b, 0);
        },
        None => {},
    }
}

/// Where a walk of a datagram ended.
#[derive(Clone, Copy, PartialEq, Eq, Structural, Debug)]
pub enum DumpStep {
    /// `NLMSG_DONE`.
    Done,
    /// `NLMSG_ERROR`, with its error number where it has one.
    Failed(Option<i32>),
    /// The datagram was fully walked; read the next one.
    More,
}

/// The error number of an error message at `offset`: it is written negated, and 0 says none.
pub open spec fn error_number(o: Order, buf: Seq<u8>, offset: int) -> Option<i32> {
    match wire::u32_at(o, buf, offset + HEADER) {
        Some(n) => {
            let e = wire::signed(n);
            if e == 0 {
                None
            } else if e == i32::MIN {
                Some(i32::MAX)
            } else {
                Some((-e) as i32)
            }
        },
        None => None,
    }
}

/// The length of the message at `offset`, where it lies within the datagram, and its type.
pub open spec fn message_at(o: Order, buf: Seq<u8>, offset: int) -> Option<(int, u16)> {
    if 0 <= offset && offset + HEADER <= buf.len() {
        let len: int = wire::u32_at(o, buf, offset)->0 as int;
        if HEADER <= len && offset + len <= buf.len() {
            Some((len, wire::u16_at(o, buf, offset + 4)->0))
        } else {
            None
        }
    } else {
        None
    }
}

/// The messages of the reply type from `offset` on, and where the walk ends: at a done or an error
/// message, or where no whole message is left.
pub open spec fn walked(o: Order, buf: Seq<u8>, reply: u16, offset: int) -> (
    Seq<Seq<u8>>,
    DumpStep,
)
    decreases wire::left(buf, offset),
{
    match message_at(o, buf, offset) {
        None => (Seq::empty(), DumpStep::More),
        Some((len, kind)) => if kind == NLMSG_DONE {
            (Seq::empty(), DumpStep::Done)
        } else if kind == NLMSG_ERROR {
            (Seq::empty(), DumpStep::Failed(error_number(o, buf, offset)))
        } else {
            let (rest, end) = walked(o, buf, reply, offset + libcex::nl_aligned(len));
            if kind == reply {
                (seq![buf.subrange(offset, offset + len)] + rest, end)
            } else {
                (rest, end)
            }
        },
    }
}

/// What the slices hold.
pub open spec fn slice_views(s: Seq<&[u8]>) -> Seq<Seq<u8>> {
    Seq::new(s.len(), |i: int| s[i]@)
}

/// See [`error_number`].
fn nlmsg_error(o: Order, buf: &[u8], offset: usize) -> (r: Option<i32>)
    requires
        offset + HEADER <= buf@.len(),
    ensures
        r == error_number(o, buf@, offset as int),
{
    assert(buf.len() == buf@.len());
    match wire::read_u32(o, buf, offset + HEADER) {
        Some(n) => {
            let e: i32 = wire::to_signed(n);
            if e == 0 {
                None
            } else if e == i32::MIN {
                Some(i32::MAX)
            } else {
                Some(-e)
            }
        },
        None => None,
    }
}

/// See [`message_at`].
pub fn read_message(o: Order, buf: &[u8], offset: usize) -> (r: Option<(usize, u16)>)
    ensures
        match r {
            Some((len, kind)) => message_at(o, buf@, offset as int) == Some((len as int, kind)),
            None => message_at(o, buf@, offset as int) is None,
        },
{
    if offset > buf.len() || buf.len() - offset < HEADER {
        return None;
    }
    match (wire::read_u32(o, buf, offset), wire::read_u16(o, buf, offset + 4)) {
        (Some(len), Some(kind)) => {
            let len: usize = len as usize;
            if len < HEADER || len > buf.len() - offset {
                None
            } else {
                Some((len, kind))
            }
        },
        _ => None,
    }
}

/// Walk one dump datagram: its messages of `reply_type`, and where the walk ended.
pub fn walk_dump<'a>(o: Order, buf: &'a [u8], reply_type: u16) -> (r: (Vec<&'a [u8]>, DumpStep))
    ensures
        (slice_views(r.0@), r.1) == walked(o, buf@, reply_type, 0),
{
    let mut found: Vec<&'a [u8]> = Vec::new();
    let mut offset: usize = 0;
    let ghost all = walked(o, buf@, reply_type, 0);
    assert(slice_views(found@) + all.0 =~= all.0);
    loop
        invariant
            all == walked(o, buf@, reply_type, 0),
            all.0 == slice_views(found@) + walked(o, buf@, reply_type, offset as int).0,
            all.1 == walked(o, buf@, reply_type, offset as int).1,
        decreases wire::left(buf@, offset as int),
    {
        let ghost before = found@;
        assert(buf.len() == buf@.len());
        match read_message(o, buf, offset) {
            None => {
                assert(all.0 =~= slice_views(found@));
                return (found, DumpStep::More);
            },
            Some((len, kind)) => {
                if kind == NLMSG_DONE {
                    assert(all.0 =~= slice_views(found@));
                    return (found, DumpStep::Done);
                }
                if kind == NLMSG_ERROR {
                    assert(all.0 =~= slice_views(found@));
                    return (found, DumpStep::Failed(nlmsg_error(o, buf, offset)));
                }
                if kind == reply_type {
                    found.push(vstd::slice::slice_subrange(buf, offset, offset + len));
                }
                let ghost next: int = offset + libcex::nl_aligned(len as int);
                let ghost rest = walked(o, buf@, reply_type, next);
                assert(all.0 =~= slice_views(found@) + rest.0);
                assert(all.1 == rest.1);
                if len > usize::MAX - 3 || libcex::nl_align(len) > usize::MAX - offset {
                    assert(message_at(o, buf@, next) is None);
                    assert(all.0 =~= slice_views(found@));
                    return (found, DumpStep::More);
                }
                offset = offset + libcex::nl_align(len);
            },
        }
    }
}

/// The addresses after the address messages of a dump.
pub open spec fn addrs_scanned(o: Order, msgs: Seq<Seq<u8>>, ifindex: u32) -> Picked
    decreases msgs.len(),
{
    if msgs.len() == 0 {
        Picked { addrs: interface::no_addresses(), pick: interface::no_pick() }
    } else {
        addr_scanned(o, msgs.last(), ifindex, addrs_scanned(o, msgs.drop_last(), ifindex))
    }
}

/// The addresses and MTU after the link messages of a dump.
pub open spec fn links_scanned(
    o: Order,
    msgs: Seq<Seq<u8>>,
    ifindex: u32,
    addrs: InterfaceAddresses,
) -> (InterfaceAddresses, Option<u32>)
    decreases msgs.len(),
{
    if msgs.len() == 0 {
        (addrs, None)
    } else {
        let (a, mtu) = links_scanned(o, msgs.drop_last(), ifindex, addrs);
        link_scanned(o, msgs.last(), ifindex, a, mtu)
    }
}

/// What the dumps say of interface `ifindex`; index 0 is no interface.
pub open spec fn resolved(
    o: Order,
    ifindex: u32,
    addr_msgs: Seq<Seq<u8>>,
    link_msgs: Seq<Seq<u8>>,
) -> Resolved {
    if ifindex == 0 {
        Resolved { addrs: interface::no_addresses(), mtu: None }
    } else {
        let (addrs, mtu) = links_scanned(
            o,
            link_msgs,
            ifindex,
            addrs_scanned(o, addr_msgs, ifindex).addrs,
        );
        Resolved { addrs, mtu }
    }
}

/// What messages hold.
pub open spec fn message_views(s: Seq<Vec<u8>>) -> Seq<Seq<u8>> {
    Seq::new(s.len(), |i: int| s[i]@)
}

/// What the messages of an address dump and of a link dump say of interface `ifindex`.
pub fn resolve(o: Order, ifindex: u32, addr_msgs: &Vec<Vec<u8>>, link_msgs: &Vec<Vec<u8>>) -> (r:
    Resolved)
    ensures
        r == resolved(o, ifindex, message_views(addr_msgs@), message_views(link_msgs@)),
{
    if ifindex == 0 {
        return Resolved { addrs: InterfaceAddresses::default(), mtu: None };
    }
    let mut addrs = InterfaceAddresses::default();
    let mut v6_pick = V6Pick::default();
    let ghost am = message_views(addr_msgs@);
    let ghost lm = message_views(link_msgs@);
    let mut i: usize = 0;
    while i < addr_msgs.len()
        invariant
            i <= addr_msgs@.len(),
            am == message_views(addr_msgs@),
            addrs_scanned(o, am.take(i as int), ifindex) == (Picked { addrs, pick: v6_pick }),
        decreases addr_msgs@.len() - i,
    {
        assert(am.take(i as int + 1).drop_last() =~= am.take(i as int));
        assert(am.take(i as int + 1).last() == addr_msgs@[i as int]@);
        scan_addr(o, &addr_msgs[i], ifindex, &mut addrs, &mut v6_pick);
        i += 1;
    }
    assert(am.take(i as int) =~= am);
    let ghost first = addrs;
    let mut mtu: Option<u32> = None;
    let mut i: usize = 0;
    while i < link_msgs.len()
        invariant
            i <= link_msgs@.len(),
            lm == message_views(link_msgs@),
            links_scanned(o, lm.take(i as int), ifindex, first) == (addrs, mtu),
        decreases link_msgs@.len() - i,
    {
        assert(lm.take(i as int + 1).drop_last() =~= lm.take(i as int));
        assert(lm.take(i as int + 1).last() == link_msgs@[i as int]@);
        scan_link(o, &link_msgs[i], ifindex, &mut addrs, &mut mtu);
        i += 1;
    }
    assert(lm.take(i as int) =~= lm);
    Resolved { addrs, mtu }
}

/// The header of a dump request with a zeroed body of `body` bytes.
pub open spec fn request_bytes(o: Order, request_type: u16, body: nat) -> Seq<u8> {
    wire::u32_bytes(o, (HEADER + body) as u32) + wire::u16_bytes(o, request_type) + wire::u16_bytes(
        o,
        DUMP_FLAGS,
    ) + wire::u32_bytes(o, 1) + wire::u32_bytes(o, 0) + Seq::new(body, |i: int| 0u8)
}

/// A dump request with a zeroed body: for every interface, in either family.
pub fn dump_request(o: Order, request_type: u16, body: usize) -> (r: Vec<u8>)
    requires
        HEADER + body <= u32::MAX,
    ensures
        r@ == request_bytes(o, request_type, body as nat),
{
    let mut out: Vec<u8> = Vec::new();
    wire::push_u32(&mut out, o, (HEADER + body) as u32);
    wire::push_u16(&mut out, o, request_type);
    wire::push_u16(&mut out, o, DUMP_FLAGS);
    wire::push_u32(&mut out, o, 1);
    wire::push_u32(&mut out, o, 0);
    let ghost head = out@;
    let mut i: usize = 0;
    while i < body
        invariant
            i <= body,
            out@ == head + Seq::new(i as nat, |j: int| 0u8),
        decreases body - i,
    {
        out.push(0);
        assert(out@ =~= head + Seq::new((i + 1) as nat, |j: int| 0u8));
        i += 1;
    }
    assert(out@ =~= request_bytes(o, request_type, body as nat));
    out
}

/// A dump under way: the messages received so far, and when it is given up, in nanoseconds on the
/// monotonic clock.
#[derive(Debug)]
pub struct Dump {
    pub reply_type: u16,
    pub deadline: u64,
    pub messages: Vec<Vec<u8>>,
}

impl Dump {
    /// A dump, begun at `now`, whose replies are of `reply_type`.
    pub fn new(reply_type: u16, now: u64) -> (r: Self)
        requires
            now + DUMP_DEADLINE <= u64::MAX,
        ensures
            r.reply_type == reply_type,
            r.deadline == now + DUMP_DEADLINE,
            message_views(r.messages@) == Seq::<Seq<u8>>::empty(),
    {
        let r = Dump { reply_type, deadline: now + DUMP_DEADLINE, messages: Vec::new() };
        assert(message_views(r.messages@) =~= Seq::empty());
        r
    }

    /// Why the dump is given up, once its deadline has come; asked for before each read.
    pub fn expired(&self, now: u64) -> (r: Option<&'static str>)
        ensures
            match r {
                Some(said) => now >= self.deadline && said@
                    == "the netlink dump did not finish within its deadline"@,
                None => now < self.deadline,
            },
    {
        if now >= self.deadline {
            Some("the netlink dump did not finish within its deadline")
        } else {
            None
        }
    }

    /// Take one datagram. Only the kernel, port 0, may answer: a local process could send a
    /// spoofed reply to inject a bogus address.
    pub fn on_datagram(&mut self, o: Order, sender: u32, datagram: &[u8]) -> (r: DumpStep)
        ensures
            final(self).reply_type == old(self).reply_type,
            final(self).deadline == old(self).deadline,
            sender != 0 ==> r == DumpStep::More && message_views(final(self).messages@)
                == message_views(old(self).messages@),
            sender == 0 ==> ({
                let (found, end) = walked(o, datagram@, old(self).reply_type, 0);
                r == end && message_views(final(self).messages@) == message_views(
                    old(self).messages@,
                ) + found
            }),
    {
        if sender != 0 {
            return DumpStep::More;
        }
        let (found, end) = walk_dump(o, datagram, self.reply_type);
        let ghost before = message_views(self.messages@);
        let ghost all = slice_views(found@);
        let ghost reply = self.reply_type;
        let ghost deadline = self.deadline;
        assert(all.take(0) =~= Seq::empty());
        assert(before + all.take(0) =~= before);
        let mut i: usize = 0;
        while i < found.len()
            invariant
                i <= found@.len(),
                all == slice_views(found@),
                self.reply_type == reply,
                self.deadline == deadline,
                message_views(self.messages@) == before + all.take(i as int),
            decreases found@.len() - i,
        {
            let copy = copied(found[i]);
            let ghost earlier = self.messages@;
            self.messages.push(copy);
            assert(message_views(self.messages@) =~= message_views(earlier).push(copy@));
            assert(all.take(i as int + 1) =~= all.take(i as int).push(found@[i as int]@));
            assert(message_views(self.messages@) =~= before + all.take(i as int + 1));
            i += 1;
        }
        assert(all.take(i as int) =~= all);
        end
    }
}

/// The same bytes again.
fn copied(s: &[u8]) -> (r: Vec<u8>)
    ensures
        r@ == s@,
{
    let mut r: Vec<u8> = Vec::new();
    let mut i: usize = 0;
    while i < s.len()
        invariant
            i <= s@.len(),
            r@ == s@.take(i as int),
        decreases s@.len() - i,
    {
        r.push(s[i]);
        assert(s@.take(i as int + 1) =~= s@.take(i as int).push(s@[i as int]));
        i += 1;
    }
    assert(s@.take(i as int) =~= s@);
    r
}

} // verus!
