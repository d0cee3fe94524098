//! Which interface would the kernel route a destination through? A `PF_ROUTE` `RTM_GET` query.
//!
//! FreeBSD has no `SO_BINDTODEVICE`/`IP_BOUND_IF`, so the DIAL proxy checks the route instead of
//! pinning the connect. Weaker than a pin: it can't hold an established connection in place, and under
//! multipath the kernel reports the first nexthop while the connect hashes independently.
//!
//! The caller writes the request and reads the socket. Instants are nanoseconds on the monotonic
//! clock.

use vstd::prelude::*;

use crate::errno::Errno;
use crate::interface::wire;
use crate::interface::wire::Order;
use crate::net::ip::Ipv4Addr;
use crate::number;
use crate::text;

verus! {

/// Bound on the whole exchange. The kernel hands the reply to a software interrupt rather than
/// queueing it inline, so some wait is normal; this only caps the cases where it was dropped (the
/// netisr queue and the receive buffer both discard silently) or where the socket's own broadcasts
/// keep arriving faster than we step over them.
pub const REPLY_DEADLINE: u64 = 5_000_000_000;

/// Marks our request in the reply; the kernel's broadcasts carry 0.
pub const REQUEST_SEQ: u32 = 1;

/// `RTM_VERSION`
pub const RTM_VERSION: u8 = 5;

/// `RTM_GET`
pub const RTM_GET: u8 = 4;

/// `RTA_DST`
pub const RTA_DST: u32 = 1;

/// `AF_INET`
pub const AF_INET: u8 = 2;

/// `RTF_REJECT`
pub const RTF_REJECT: u32 = 0x8;

/// `RTF_BLACKHOLE`
pub const RTF_BLACKHOLE: u32 = 0x1000;

/// The fixed header of a routing message, with its metrics.
pub const HEADER_LEN: usize = 152;

/// The header and the one IPv4 socket address it names.
pub const REQUEST_LEN: usize = 168;

/// What a reply is recognised and read by.
#[derive(Clone, Copy, PartialEq, Eq, Structural, Debug)]
pub struct RtMsgHdr {
    pub version: u8,
    pub msg_type: u8,
    /// The route's interface.
    pub index: u16,
    pub flags: u32,
    pub pid: u32,
    pub seq: u32,
    pub errno: u32,
}

/// The header at the start of a message that holds one.
pub open spec fn header(o: Order, s: Seq<u8>) -> RtMsgHdr {
    RtMsgHdr {
        version: s[2],
        msg_type: s[3],
        index: wire::pair(o, s[4], s[5]),
        flags: wire::quad(o, s[8], s[9], s[10], s[11]),
        pid: wire::quad(o, s[16], s[17], s[18], s[19]),
        seq: wire::quad(o, s[20], s[21], s[22], s[23]),
        errno: wire::quad(o, s[24], s[25], s[26], s[27]),
    }
}

fn read_header(o: Order, buf: &[u8]) -> (r: Option<RtMsgHdr>)
    ensures
        r == (if buf@.len() < HEADER_LEN {
            None
        } else {
            Some(header(o, buf@))
        }),
{
    if buf.len() < HEADER_LEN {
        return None;
    }
    match (
        wire::read_u16(o, buf, 4),
        wire::read_u32(o, buf, 8),
        wire::read_u32(o, buf, 16),
        wire::read_u32(o, buf, 20),
        wire::read_u32(o, buf, 24),
    ) {
        (Some(index), Some(flags), Some(pid), Some(seq), Some(errno)) => Some(
            RtMsgHdr {
                version: buf[2],
                msg_type: buf[3],
                index,
                flags,
                pid,
                seq,
                errno,
            },
        ),
        _ => None,
    }
}

/// Whether `hdr` answers our own request, as process `pid`, rather than being one of the kernel's
/// broadcasts or another process's.
#[verifier::allow_in_spec]
pub fn is_our_reply(hdr: RtMsgHdr, pid: u32) -> (r: bool)
    returns
        hdr.version == RTM_VERSION && hdr.msg_type == RTM_GET && hdr.pid == pid && hdr.seq
            == REQUEST_SEQ,
{
    hdr.version == RTM_VERSION && hdr.msg_type == RTM_GET && hdr.pid == pid && hdr.seq
        == REQUEST_SEQ
}

/// A route of these flags drops what is sent on it.
pub open spec fn discards(flags: u32) -> bool {
    flags & (RTF_REJECT | RTF_BLACKHOLE) != 0
}

/// `n` zero bytes.
pub open spec fn zeros(n: nat) -> Seq<u8> {
    Seq::new(n, |i: int| 0u8)
}

/// An `RTM_GET` request for `dst`: the header, then the one socket address it names.
pub open spec fn request(o: Order, dst: Ipv4Addr, pid: u32) -> Seq<u8> {
    wire::u16_bytes(o, REQUEST_LEN as u16) + seq![RTM_VERSION, RTM_GET] + zeros(8) + wire::u32_bytes(
        o,
        RTA_DST,
    ) + wire::u32_bytes(o, pid) + wire::u32_bytes(o, REQUEST_SEQ) + zeros(128) + seq![
        16u8,
        AF_INET,
        0u8,
        0u8,
        dst.a,
        dst.b,
        dst.c,
        dst.d,
    ] + zeros(8)
}

fn push_zeros(out: &mut Vec<u8>, n: usize)
    ensures
        final(out)@ == old(out)@ + zeros(n as nat),
{
    let mut i: usize = 0;
    assert(out@ =~= old(out)@ + zeros(0));
    while i < n
        invariant
            i <= n,
            out@ == old(out)@ + zeros(i as nat),
        decreases n - i,
    {
        out.push(0);
        assert(out@ =~= old(out)@ + zeros((i + 1) as nat));
        i += 1;
    }
}

/// `RTA_DST` alone, without `RTA_NETMASK`, selects the longest-prefix match: the lookup a forwarded
/// packet gets rather than an exact-match one. A route has no port.
pub fn build_request(o: Order, dst: Ipv4Addr, pid: u32) -> (r: Vec<u8>)
    ensures
        r@ == request(o, dst, pid),
        r@.len() == REQUEST_LEN,
{
    let mut out: Vec<u8> = Vec::new();
    wire::push_u16(&mut out, o, REQUEST_LEN as u16);
    out.push(RTM_VERSION);
    out.push(RTM_GET);
    assert(out@ =~= wire::u16_bytes(o, REQUEST_LEN as u16) + seq![RTM_VERSION, RTM_GET]);
    push_zeros(&mut out, 8);
    wire::push_u32(&mut out, o, RTA_DST);
    wire::push_u32(&mut out, o, pid);
    wire::push_u32(&mut out, o, REQUEST_SEQ);
    push_zeros(&mut out, 128);
    let ghost before = out@;
    out.push(16);
    out.push(AF_INET);
    out.push(0);
    out.push(0);
    out.push(dst.a);
    out.push(dst.b);
    out.push(dst.c);
    out.push(dst.d);
    assert(out@ =~= before + seq![16u8, AF_INET, 0u8, 0u8, dst.a, dst.b, dst.c, dst.d]);
    push_zeros(&mut out, 8);
    out
}

/// A request, handed back by the kernel as it came, is recognised as ours.
pub proof fn law_our_request_is_recognised(o: Order, dst: Ipv4Addr, pid: u32)
    ensures
        is_our_reply(header(o, request(o, dst, pid)), pid),
{
    let s = request(o, dst, pid);
    let a = wire::u16_bytes(o, REQUEST_LEN as u16) + seq![RTM_VERSION, RTM_GET] + zeros(8);
    assert(a.len() == 12);
    let b = a + wire::u32_bytes(o, RTA_DST);
    assert(b.len() == 16);
    wire::law_numbers_read_back(o, pid, 0);
    wire::law_numbers_read_back(o, REQUEST_SEQ, 0);
    assert(s[2] == RTM_VERSION);
    assert(s[3] == RTM_GET);
    assert forall|i: int| 0 <= i < 4 implies s[16 + i] == wire::u32_bytes(o, pid)[i] by {}
    assert forall|i: int| 0 <= i < 4 implies s[20 + i] == wire::u32_bytes(o, REQUEST_SEQ)[i] by {}
    assert(s[16] == wire::u32_bytes(o, pid)[0]);
    assert(s[17] == wire::u32_bytes(o, pid)[1]);
    assert(s[18] == wire::u32_bytes(o, pid)[2]);
    assert(s[19] == wire::u32_bytes(o, pid)[3]);
    assert(s[20] == wire::u32_bytes(o, REQUEST_SEQ)[0]);
    assert(s[21] == wire::u32_bytes(o, REQUEST_SEQ)[1]);
    assert(s[22] == wire::u32_bytes(o, REQUEST_SEQ)[2]);
    assert(s[23] == wire::u32_bytes(o, REQUEST_SEQ)[3]);
}

/// A query that waits for its reply.
#[derive(Clone, Copy, PartialEq, Eq, Structural, Debug)]
pub struct RouteQuery {
    pub dst: Ipv4Addr,
    pub deadline: u64,
    /// The messages stepped over, so the deadline's text can tell a flooded socket from a silent one.
    pub skipped: u32,
}

/// What a read of the routing socket comes to.
#[derive(PartialEq, Eq, Debug)]
pub enum QueryStep {
    /// Read on.
    Again,
    /// The index of the interface.
    Answer(u32),
    /// The system's error number for the route.
    Os(i32),
    /// There is no answer to be had, and why.
    Refused(String),
}

/// The text of an address between two others.
pub open spec fn about(before: Seq<char>, dst: Ipv4Addr, after: Seq<char>) -> Seq<char> {
    before + dst.text() + after
}

fn say(before: &str, dst: Ipv4Addr, after: &str) -> (r: String)
    ensures
        r@ == about(before@, dst, after@),
{
    let mut out: Vec<char> = Vec::new();
    text::push_str(&mut out, before);
    dst.push_text(&mut out);
    text::push_str(&mut out, after);
    assert(out@ =~= about(before@, dst, after@));
    text::string(&out)
}

/// The kernel reports an unroutable destination by failing the write, not by replying.
pub fn write_error(dst: Ipv4Addr, e: Errno) -> (r: Option<String>)
    ensures
        match r {
            Some(said) => e == Errno::NoSuchProcess && said@ == about("no route to "@, dst, ""@),
            None => e != Errno::NoSuchProcess,
        },
{
    if e == Errno::NoSuchProcess {
        Some(say("no route to ", dst, ""))
    } else {
        None
    }
}

impl RouteQuery {
    pub fn new(dst: Ipv4Addr, now: u64) -> (r: Self)
        requires
            now + REPLY_DEADLINE <= u64::MAX,
        ensures
            r == (RouteQuery { dst, deadline: (now + REPLY_DEADLINE) as u64, skipped: 0 }),
    {
        RouteQuery { dst, deadline: now + REPLY_DEADLINE, skipped: 0 }
    }

    /// Why the query is over, once its deadline has come: an unanswered query is an error, so the
    /// caller refuses the connect rather than allowing it.
    pub fn expired(&self, now: u64) -> (r: Option<String>)
        ensures
            match r {
                Some(said) => now >= self.deadline && said@ == about(
                    "no answer for "@,
                    self.dst,
                    " in 5s, after "@ + number::decimal(self.skipped as nat) + " other messages"@,
                ),
                None => now < self.deadline,
            },
    {
        if now < self.deadline {
            return None;
        }
        let mut after = " in 5s, after ".to_owned();
        text::push_decimal(&mut after, self.skipped as u64);
        after.append(" other messages");
        Some(say("no answer for ", self.dst, after.as_str()))
    }

    /// What a message comes to.
    pub open spec fn heard(self, o: Order, message: Seq<u8>, pid: u32) -> bool {
        message.len() >= HEADER_LEN && is_our_reply(header(o, message), pid)
    }

    /// Take what a read gave; `None` for one that timed out. The kernel's broadcasts are stepped over.
    pub fn on_read(&mut self, o: Order, message: Option<&[u8]>, pid: u32) -> (r: QueryStep)
        requires
            old(self).skipped < u32::MAX,
        ensures
            final(self).dst == old(self).dst,
            final(self).deadline == old(self).deadline,
            final(self).skipped == old(self).skipped + (if r is Again {
                1int
            } else {
                0int
            }),
            match message {
                None => r matches QueryStep::Refused(said) && said@ == about(
                    "the routing socket did not answer which interface reaches "@,
                    old(self).dst,
                    ""@,
                ),
                Some(bytes) => {
                    let hdr = header(o, bytes@);
                    if !old(self).heard(o, bytes@, pid) {
                        r is Again
                    } else if hdr.errno != 0 {
                        r == QueryStep::Os(wire::signed(hdr.errno))
                    } else if discards(hdr.flags) {
                        r matches QueryStep::Refused(said) && said@ == about(
                            "the route to "@,
                            old(self).dst,
                            " discards traffic"@,
                        )
                    } else {
                        r == QueryStep::Answer(hdr.index as u32)
                    }
                },
            },
    {
        match message {
            None => QueryStep::Refused(
                say("the routing socket did not answer which interface reaches ", self.dst, ""),
            ),
            Some(bytes) => {
                match read_header(o, bytes) {
                    Some(hdr) => {
                        if !is_our_reply(hdr, pid) {
                            self.skipped = self.skipped + 1;
                            return QueryStep::Again;
                        }
                        if hdr.errno != 0 {
                            return QueryStep::Os(wire::to_signed(hdr.errno));
                        }
                        if hdr.flags & (RTF_REJECT | RTF_BLACKHOLE) != 0 {
                            return QueryStep::Refused(
                                say("the route to ", self.dst, " discards traffic"),
                            );
                        }
                        QueryStep::Answer(hdr.index as u32)
                    },
                    None => {
                        self.skipped = self.skipped + 1;
                        QueryStep::Again
                    },
                }
            },
        }
    }
}

/// A route drops traffic where it rejects it or is a black hole.
pub proof fn law_which_routes_discard(flags: u32)
    ensures
        discards(flags) <==> flags & 0x8 != 0 || flags & 0x1000 != 0,
{
    assert(flags & (0x8u32 | 0x1000u32) != 0 <==> flags & 0x8 != 0 || flags & 0x1000 != 0)
        by (bit_vector);
}

/// A message answers our query where it is of our version, a lookup, of our process, and carries our
/// mark; it has an answer to give only where it holds a whole header.
pub proof fn law_which_message_answers(q: RouteQuery, o: Order, m: Seq<u8>, pid: u32)
    ensures
        q.heard(o, m, pid) <==> m.len() >= 152 && m[2] == 5 && m[3] == 4 && wire::quad(
            o,
            m[16],
            m[17],
            m[18],
            m[19],
        ) == pid && wire::quad(o, m[20], m[21], m[22], m[23]) == 1,
{
}

/// A request is a whole header of 152 bytes and an IPv4 socket address of 16, which holds the
/// destination, and asks for it alone.
pub proof fn law_a_request_asks_for_the_destination(o: Order, dst: Ipv4Addr, pid: u32)
    ensures
        ({
            let s = request(o, dst, pid);
            &&& s.len() == 168
            &&& wire::pair(o, s[0], s[1]) == 168
            &&& s[2] == 5 && s[3] == 4
            &&& wire::quad(o, s[12], s[13], s[14], s[15]) == 1
            &&& s[152] == 16 && s[153] == 2
            &&& s[156] == dst.a && s[157] == dst.b && s[158] == dst.c && s[159] == dst.d
        }),
{
    let s = request(o, dst, pid);
    wire::law_numbers_read_back(o, RTA_DST, REQUEST_LEN as u16);
    let a = wire::u16_bytes(o, REQUEST_LEN as u16) + seq![RTM_VERSION, RTM_GET] + zeros(8);
    assert(a.len() == 12);
    assert(s[0] == wire::u16_bytes(o, REQUEST_LEN as u16)[0]);
    assert(s[1] == wire::u16_bytes(o, REQUEST_LEN as u16)[1]);
    assert(s[12] == wire::u32_bytes(o, RTA_DST)[0]);
    assert(s[13] == wire::u32_bytes(o, RTA_DST)[1]);
    assert(s[14] == wire::u32_bytes(o, RTA_DST)[2]);
    assert(s[15] == wire::u32_bytes(o, RTA_DST)[3]);
    let sa = seq![16u8, AF_INET, 0u8, 0u8, dst.a, dst.b, dst.c, dst.d];
    assert(s[152] == sa[0]);
    assert(s[153] == sa[1]);
    assert(s[156] == sa[4]);
    assert(s[157] == sa[5]);
    assert(s[158] == sa[6]);
    assert(s[159] == sa[7]);
}

} // verus!
