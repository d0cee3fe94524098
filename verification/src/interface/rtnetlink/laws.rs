//! What a dump of addresses and links comes to, said of the messages as the kernel writes them.

use vstd::prelude::*;

use crate::interface;
use crate::interface::rtnetlink;
use crate::interface::rtnetlink::DumpStep;
use crate::interface::wire;
use crate::interface::wire::Order;
use crate::interface::{InterfaceAddresses, Picked};
use crate::libcex;
use crate::net::ip::{Ipv4Addr, Ipv6Addr};
use crate::net::mac::MacAddr;

verus! {

/// Zeros.
pub open spec fn zeros(n: int) -> Seq<u8> {
    Seq::new(n as nat, |i: int| 0u8)
}

/// How many bytes fill the last of the words that `n` bytes take.
pub open spec fn padding(n: nat) -> int {
    (4 - n % 4) % 4
}

/// An attribute: its length with the four bytes in front, its type, and its value, filled up to a word.
pub open spec fn attr_bytes(o: Order, a: (u16, Seq<u8>)) -> Seq<u8> {
    wire::u16_bytes(o, (a.1.len() + 4) as u16) + wire::u16_bytes(o, a.0) + a.1 + zeros(
        padding(a.1.len()),
    )
}

/// Attributes one behind the other.
pub open spec fn attr_list(o: Order, s: Seq<(u16, Seq<u8>)>) -> Seq<u8>
    decreases s.len(),
{
    if s.len() == 0 {
        Seq::empty()
    } else {
        attr_bytes(o, s[0]) + attr_list(o, s.skip(1))
    }
}

/// The value of every attribute fits its length.
pub open spec fn attrs_fit(s: Seq<(u16, Seq<u8>)>) -> bool {
    forall|i: int| 0 <= i < s.len() ==> (#[trigger] s[i]).1.len() <= 0xfffb
}

proof fn lemma_aligned(n: nat)
    ensures
        libcex::nl_aligned(n as int) == n + padding(n),
{
}

proof fn lemma_u16_at(o: Order, a: Seq<u8>, n: u16, b: Seq<u8>)
    ensures
        wire::u16_at(o, a + wire::u16_bytes(o, n) + b, a.len() as int) == Some(n),
        wire::u16_bytes(o, n).len() == 2,
{
    let s = a + wire::u16_bytes(o, n) + b;
    let w = wire::u16_bytes(o, n);
    assert(s[a.len() as int] == w[0]);
    assert(s[a.len() as int + 1] == w[1]);
}

proof fn lemma_u32_at(o: Order, a: Seq<u8>, n: u32, b: Seq<u8>)
    ensures
        wire::u32_at(o, a + wire::u32_bytes(o, n) + b, a.len() as int) == Some(n),
        wire::u32_bytes(o, n).len() == 4,
{
    let s = a + wire::u32_bytes(o, n) + b;
    let w = wire::u32_bytes(o, n);
    wire::law_numbers_read_back(o, n, 0);
    assert(s[a.len() as int] == w[0]);
    assert(s[a.len() as int + 1] == w[1]);
    assert(s[a.len() as int + 2] == w[2]);
    assert(s[a.len() as int + 3] == w[3]);
}

/// The attribute that stands behind `head`.
proof fn lemma_attr_front(o: Order, head: Seq<u8>, a: (u16, Seq<u8>), tail: Seq<u8>)
    requires
        a.1.len() <= 0xfffb,
    ensures
        ({
            let msg = head + attr_bytes(o, a) + tail;
            let at: int = head.len() as int;
            let len: int = a.1.len() as int + 4;
            &&& rtnetlink::attr_at(o, msg, at) == Some((len, a.0))
            &&& msg.subrange(at + 4, at + len) == a.1
            &&& at + libcex::nl_aligned(len) == (head + attr_bytes(o, a)).len()
        }),
{
    let (kind, value) = a;
    let msg = head + attr_bytes(o, a) + tail;
    let at: int = head.len() as int;
    let len: u16 = (value.len() + 4) as u16;
    let pad = zeros(padding(value.len()));
    let after = wire::u16_bytes(o, kind) + value + pad + tail;
    lemma_u16_at(o, head, len, after);
    assert(msg =~= head + wire::u16_bytes(o, len) + after);
    let front = head + wire::u16_bytes(o, len);
    lemma_u16_at(o, front, kind, value + pad + tail);
    assert(msg =~= front + wire::u16_bytes(o, kind) + (value + pad + tail));
    lemma_aligned(len as nat);
    assert(padding(len as nat) == padding(value.len()));
    assert(msg.subrange(at + 4, at + len) =~= value);
}

/// Attributes behind anything are read back as they were written.
pub proof fn law_attributes_read_back(o: Order, head: Seq<u8>, s: Seq<(u16, Seq<u8>)>)
    requires
        attrs_fit(s),
    ensures
        rtnetlink::attrs(o, head + attr_list(o, s), head.len() as int) == s,
    decreases s.len(),
{
    let msg = head + attr_list(o, s);
    let at: int = head.len() as int;
    if s.len() > 0 {
        let rest = s.skip(1);
        assert forall|i: int| 0 <= i < rest.len() implies (#[trigger] rest[i]).1.len() <= 0xfffb by {
            assert(rest[i] == s[i + 1]);
        }
        assert(s[0].1.len() <= 0xfffb);
        let tail = attr_list(o, rest);
        lemma_attr_front(o, head, s[0], tail);
        let next = head + attr_bytes(o, s[0]);
        assert(msg =~= next + tail);
        law_attributes_read_back(o, next, rest);
        assert(rtnetlink::attrs(o, msg, at) == seq![s[0]] + rest);
        assert(seq![s[0]] + rest =~= s);
    } else {
        assert(msg =~= head);
    }
}

/// The last attribute of the kind has the value.
pub open spec fn last_says(s: Seq<(u16, Seq<u8>)>, kind: u16, value: Seq<u8>) -> bool {
    exists|i: int|
        0 <= i < s.len() && #[trigger] s[i] == (kind, value) && forall|j: int|
            i < j < s.len() ==> (#[trigger] s[j]).0 != kind
}

/// The last attribute of the kind and of that length has the value.
pub open spec fn last_says_of_len(s: Seq<(u16, Seq<u8>)>, kind: u16, value: Seq<u8>) -> bool {
    exists|i: int|
        0 <= i < s.len() && #[trigger] s[i] == (kind, value) && forall|j: int|
            i < j < s.len() ==> !((#[trigger] s[j]).0 == kind && s[j].1.len() == value.len())
}

/// No attribute is of the kind.
pub open spec fn none_says(s: Seq<(u16, Seq<u8>)>, kind: u16) -> bool {
    forall|i: int| 0 <= i < s.len() ==> (#[trigger] s[i]).0 != kind
}

/// No attribute is of the kind and of that length.
pub open spec fn none_says_of_len(s: Seq<(u16, Seq<u8>)>, kind: u16, len: nat) -> bool {
    forall|i: int| 0 <= i < s.len() ==> !((#[trigger] s[i]).0 == kind && s[i].1.len() == len)
}

proof fn lemma_last(s: Seq<(u16, Seq<u8>)>, kind: u16)
    ensures
        rtnetlink::last_value(s, kind, 0) is None <==> none_says(s, kind),
        forall|v: Seq<u8>|
            #[trigger] last_says(s, kind, v) <==> rtnetlink::last_value(s, kind, 0) == Some(v),
    decreases s.len(),
{
    if s.len() > 0 {
        let t = s.drop_last();
        lemma_last(t, kind);
        let n: int = s.len() - 1;
        assert(s[n] == s.last());
        assert forall|v: Seq<u8>|
            #[trigger] last_says(s, kind, v) <==> rtnetlink::last_value(s, kind, 0) == Some(v) by {
            if last_says(s, kind, v) {
                let i: int = choose|i: int|
                    0 <= i < s.len() && #[trigger] s[i] == (kind, v) && forall|j: int|
                        i < j < s.len() ==> (#[trigger] s[j]).0 != kind;
                if i < n {
                    assert(s[n].0 != kind);
                    assert(t[i] == (kind, v));
                    assert forall|j: int| i < j < t.len() implies (#[trigger] t[j]).0 != kind by {
                        assert(t[j] == s[j]);
                    }
                    assert(last_says(t, kind, v));
                }
            }
            if rtnetlink::last_value(s, kind, 0) == Some(v) {
                if s.last().0 == kind {
                    assert(s[n] == (kind, v));
                } else {
                    assert(last_says(t, kind, v));
                    let i: int = choose|i: int|
                        0 <= i < t.len() && #[trigger] t[i] == (kind, v) && forall|j: int|
                            i < j < t.len() ==> (#[trigger] t[j]).0 != kind;
                    assert(s[i] == (kind, v));
                    assert forall|j: int| i < j < s.len() implies (#[trigger] s[j]).0 != kind by {
                        if j < n {
                            assert(t[j] == s[j]);
                        }
                    }
                }
            }
        }
        if none_says(s, kind) {
            assert forall|i: int| 0 <= i < t.len() implies (#[trigger] t[i]).0 != kind by {
                assert(t[i] == s[i]);
            }
        }
        if rtnetlink::last_value(s, kind, 0) is None {
            assert forall|i: int| 0 <= i < s.len() implies (#[trigger] s[i]).0 != kind by {
                if i < n {
                    assert(t[i] == s[i]);
                }
            }
        }
    }
}

proof fn lemma_last_of_len(s: Seq<(u16, Seq<u8>)>, kind: u16, len: nat)
    requires
        len > 0,
    ensures
        rtnetlink::last_value(s, kind, len) is None <==> none_says_of_len(s, kind, len),
        forall|v: Seq<u8>|
            v.len() == len ==> (#[trigger] last_says_of_len(s, kind, v) <==> rtnetlink::last_value(
                s,
                kind,
                len,
            ) == Some(v)),
        rtnetlink::last_value(s, kind, len) matches Some(v) ==> v.len() == len,
    decreases s.len(),
{
    if s.len() > 0 {
        let t = s.drop_last();
        lemma_last_of_len(t, kind, len);
        let n: int = s.len() - 1;
        assert(s[n] == s.last());
        let hit = s.last().0 == kind && s.last().1.len() == len;
        assert forall|v: Seq<u8>| v.len() == len implies (#[trigger] last_says_of_len(s, kind, v)
            <==> rtnetlink::last_value(s, kind, len) == Some(v)) by {
            if last_says_of_len(s, kind, v) {
                let i: int = choose|i: int|
                    0 <= i < s.len() && #[trigger] s[i] == (kind, v) && forall|j: int|
                        i < j < s.len() ==> !((#[trigger] s[j]).0 == kind && s[j].1.len()
                            == v.len());
                if i < n {
                    assert(!(s[n].0 == kind && s[n].1.len() == len));
                    assert(t[i] == (kind, v));
                    assert forall|j: int| i < j < t.len() implies !((#[trigger] t[j]).0 == kind
                        && t[j].1.len() == v.len()) by {
                        assert(t[j] == s[j]);
                    }
                    assert(last_says_of_len(t, kind, v));
                }
            }
            if rtnetlink::last_value(s, kind, len) == Some(v) {
                if hit {
                    assert(s[n] == (kind, v));
                } else {
                    assert(last_says_of_len(t, kind, v));
                    let i: int = choose|i: int|
                        0 <= i < t.len() && #[trigger] t[i] == (kind, v) && forall|j: int|
                            i < j < t.len() ==> !((#[trigger] t[j]).0 == kind && t[j].1.len()
                                == v.len());
                    assert(s[i] == (kind, v));
                    assert forall|j: int| i < j < s.len() implies !((#[trigger] s[j]).0 == kind
                        && s[j].1.len() == v.len()) by {
                        if j < n {
                            assert(t[j] == s[j]);
                        }
                    }
                }
            }
        }
        if none_says_of_len(s, kind, len) {
            assert forall|i: int| 0 <= i < t.len() implies !((#[trigger] t[i]).0 == kind
                && t[i].1.len() == len) by {
                assert(t[i] == s[i]);
            }
        }
        if rtnetlink::last_value(s, kind, len) is None {
            assert forall|i: int| 0 <= i < s.len() implies !((#[trigger] s[i]).0 == kind
                && s[i].1.len() == len) by {
                if i < n {
                    assert(t[i] == s[i]);
                }
            }
        }
    }
}

/// An address message: the sixteen bytes of its header, its fixed part, and its attributes.
pub struct AddressMessage {
    pub head: Seq<u8>,
    pub family: u8,
    pub prefix: u8,
    pub flags: u8,
    pub scope: u8,
    pub index: u32,
    pub attrs: Seq<(u16, Seq<u8>)>,
}

impl AddressMessage {
    pub open spec fn wf(self) -> bool {
        self.head.len() == 16 && attrs_fit(self.attrs)
    }

    pub open spec fn bytes(self, o: Order) -> Seq<u8> {
        self.head + seq![self.family, self.prefix, self.flags, self.scope] + wire::u32_bytes(
            o,
            self.index,
        ) + attr_list(o, self.attrs)
    }

    /// The flags that count: those of the last full set, or of the short one where there is none.
    pub open spec fn flags_are(self, o: Order, n: u32) -> bool {
        ||| last_says_of_len(self.attrs, 8, wire::u32_bytes(o, n))
        ||| none_says_of_len(self.attrs, 8, 4) && n == self.flags as u32
    }

    /// The address that counts: the local one, or the other where there is none.
    pub open spec fn address_is(self, v: Seq<u8>) -> bool {
        ||| last_says(self.attrs, 2, v)
        ||| none_says(self.attrs, 2) && last_says(self.attrs, 1, v)
    }

    /// The message names no address.
    pub open spec fn no_address(self) -> bool {
        none_says(self.attrs, 2) && none_says(self.attrs, 1)
    }
}

/// Tentative, deprecated, or found to be a duplicate.
pub open spec fn unusable(flags: u32) -> bool {
    flags & 0x40 != 0 || flags & 0x20 != 0 || flags & 0x08 != 0
}

proof fn lemma_unusable(flags: u32)
    ensures
        unusable(flags) <==> flags & rtnetlink::IFA_F_UNUSABLE != 0,
{
    assert((flags & 0x40 != 0 || flags & 0x20 != 0 || flags & 0x08 != 0) <==> flags & 0x68 != 0)
        by (bit_vector);
}

proof fn lemma_front(o: Order, m: AddressMessage)
    requires
        m.wf(),
    ensures
        ({
            let msg = m.bytes(o);
            &&& msg.len() >= 24
            &&& msg[16] == m.family && msg[17] == m.prefix && msg[18] == m.flags
            &&& wire::u32_at(o, msg, 20) == Some(m.index)
            &&& rtnetlink::attrs(o, msg, 24) == m.attrs
        }),
{
    let msg = m.bytes(o);
    let fixed = m.head + seq![m.family, m.prefix, m.flags, m.scope];
    lemma_u32_at(o, fixed, m.index, attr_list(o, m.attrs));
    let front = fixed + wire::u32_bytes(o, m.index);
    law_attributes_read_back(o, front, m.attrs);
    assert(msg =~= front + attr_list(o, m.attrs));
    assert(msg[16] == m.family && msg[17] == m.prefix && msg[18] == m.flags);
}

/// The flags that count, as they are found.
spec fn flags_found(o: Order, m: AddressMessage) -> u32 {
    match rtnetlink::last_value(m.attrs, 8, 4) {
        Some(b) => wire::quad(o, b[0], b[1], b[2], b[3]),
        None => m.flags as u32,
    }
}

proof fn lemma_flags(o: Order, m: AddressMessage)
    ensures
        forall|n: u32| #[trigger] m.flags_are(o, n) <==> n == flags_found(o, m),
{
    lemma_last_of_len(m.attrs, 8, 4);
    assert forall|n: u32| #[trigger] m.flags_are(o, n) <==> n == flags_found(o, m) by {
        let w = wire::u32_bytes(o, n);
        wire::law_numbers_read_back(o, n, 0);
        assert(w.len() == 4);
        if let Some(b) = rtnetlink::last_value(m.attrs, 8, 4) {
            lemma_quad_bytes(o, b);
            assert(last_says_of_len(m.attrs, 8, w) <==> b == w);
        } else {
            assert(!last_says_of_len(m.attrs, 8, w));
        }
    }
}

proof fn lemma_message(o: Order, m: AddressMessage, ifindex: u32)
    requires
        m.wf(),
    ensures
        match rtnetlink::addr_message(o, m.bytes(o), ifindex) {
            Some(a) => {
                &&& m.index == ifindex && (m.family == 2 || m.family == 10)
                &&& a.family == m.family && a.prefix == m.prefix
                &&& forall|n: u32| #[trigger] m.flags_are(o, n) <==> n == a.flags
                &&& forall|v: Seq<u8>| #[trigger] m.address_is(v) <==> v == a.bytes
                &&& !m.no_address()
            },
            None => {
                ||| m.index != ifindex
                ||| m.family != 2 && m.family != 10
                ||| m.no_address()
            },
        },
        m.no_address() ==> forall|v: Seq<u8>| !#[trigger] m.address_is(v),
{
    lemma_front(o, m);
    lemma_last(m.attrs, 2);
    lemma_last(m.attrs, 1);
    lemma_flags(o, m);
}

proof fn lemma_quad_bytes(o: Order, b: Seq<u8>)
    requires
        b.len() == 4,
    ensures
        wire::u32_bytes(o, wire::quad(o, b[0], b[1], b[2], b[3])) == b,
{
    let n = wire::quad(o, b[0], b[1], b[2], b[3]);
    assert(wire::u32_bytes(o, n) =~= b) by {
        match o {
            Order::Little => {
                assert(n / 0x1_0000 == b[3] * 0x100 + b[2]);
                assert(n % 0x1_0000 == b[1] * 0x100 + b[0]);
            },
            Order::Big => {
                assert(n / 0x1_0000 == b[0] * 0x100 + b[1]);
                assert(n % 0x1_0000 == b[2] * 0x100 + b[3]);
            },
        }
    }
}

/// An address message changes nothing where it is of another interface or family, names no address, or
/// its flags disqualify the address: in either family alike.
pub proof fn law_an_unusable_address_is_passed_over(
    o: Order,
    m: AddressMessage,
    ifindex: u32,
    p: Picked,
    n: u32,
)
    requires
        m.wf(),
        m.flags_are(o, n),
        m.index != ifindex || (m.family != 2 && m.family != 10) || m.no_address() || unusable(n),
    ensures
        rtnetlink::addr_scanned(o, m.bytes(o), ifindex, p) == p,
{
    lemma_message(o, m, ifindex);
    lemma_unusable(n);
}

/// Sixteen bytes as an address.
pub open spec fn v6_of(v: Seq<u8>) -> Ipv6Addr {
    Ipv6Addr {
        s0: (v[0] * 256 + v[1]) as u16,
        s1: (v[2] * 256 + v[3]) as u16,
        s2: (v[4] * 256 + v[5]) as u16,
        s3: (v[6] * 256 + v[7]) as u16,
        s4: (v[8] * 256 + v[9]) as u16,
        s5: (v[10] * 256 + v[11]) as u16,
        s6: (v[12] * 256 + v[13]) as u16,
        s7: (v[14] * 256 + v[15]) as u16,
    }
}

/// The message gives interface `ifindex` an address of the family that can be a source.
pub open spec fn gives(o: Order, m: AddressMessage, ifindex: u32, family: u8, v: Seq<u8>) -> bool {
    &&& m.index == ifindex
    &&& m.family == family
    &&& m.address_is(v)
    &&& exists|n: u32| #[trigger] m.flags_are(o, n) && !unusable(n)
}

/// A usable IPv4 address is taken, with its prefix, where none was yet; a usable IPv6 address is
/// considered; an address of another length is neither.
pub proof fn law_a_usable_address_is_taken(
    o: Order,
    m: AddressMessage,
    ifindex: u32,
    p: Picked,
    v: Seq<u8>,
)
    requires
        m.wf(),
    ensures
        gives(o, m, ifindex, 2, v) ==> rtnetlink::addr_scanned(o, m.bytes(o), ifindex, p) == if v.len()
            == 4 && p.addrs.v4 is None {
            Picked {
                addrs: InterfaceAddresses {
                    v4: Some(Ipv4Addr { a: v[0], b: v[1], c: v[2], d: v[3] }),
                    v4_prefix: Some(m.prefix),
                    ..p.addrs
                },
                pick: p.pick,
            }
        } else {
            p
        },
        gives(o, m, ifindex, 10, v) ==> rtnetlink::addr_scanned(o, m.bytes(o), ifindex, p) == if v.len()
            == 16 {
            interface::considered(p, v6_of(v))
        } else {
            p
        },
{
    lemma_message(o, m, ifindex);
    if let Some(a) = rtnetlink::addr_message(o, m.bytes(o), ifindex) {
        lemma_unusable(a.flags);
        if gives(o, m, ifindex, 2, v) || gives(o, m, ifindex, 10, v) {
            let n: u32 = choose|n: u32| #[trigger] m.flags_are(o, n) && !unusable(n);
            assert(n == a.flags);
            assert(v == a.bytes);
        }
    }
}

/// The messages as they are written.
pub open spec fn written(o: Order, s: Seq<AddressMessage>) -> Seq<Seq<u8>> {
    Seq::new(s.len(), |i: int| s[i].bytes(o))
}

/// The message gives interface `ifindex` the IPv4 address.
#[verifier::opaque]
pub open spec fn gives_v4(o: Order, m: AddressMessage, ifindex: u32, a: Ipv4Addr) -> bool {
    gives(o, m, ifindex, 2, seq![a.a, a.b, a.c, a.d])
}

/// The message gives interface `ifindex` the IPv6 address.
#[verifier::opaque]
pub open spec fn gives_v6(o: Order, m: AddressMessage, ifindex: u32, a: Ipv6Addr) -> bool {
    exists|v: Seq<u8>| v.len() == 16 && v6_of(v) == a && #[trigger] gives(o, m, ifindex, 10, v)
}

/// What one message comes to, whatever it says.
proof fn lemma_one_scan(o: Order, m: AddressMessage, ifindex: u32, p: Picked)
    requires
        m.wf(),
    ensures
        ({
            let q = rtnetlink::addr_scanned(o, m.bytes(o), ifindex, p);
            &&& forall|a: Ipv4Addr| #[trigger]
                gives_v4(o, m, ifindex, a) ==> {
                    &&& same_picks(q, p)
                    &&& q.addrs.v4 == (if p.addrs.v4 is None {
                        Some(a)
                    } else {
                        p.addrs.v4
                    })
                    &&& q.addrs.v4_prefix == (if p.addrs.v4 is None {
                        Some(m.prefix)
                    } else {
                        p.addrs.v4_prefix
                    })
                }
            &&& forall|a: Ipv6Addr| #[trigger]
                gives_v6(o, m, ifindex, a) ==> q == interface::considered(p, a)
            &&& forall|a: Ipv4Addr, b: Ipv6Addr|
                !(#[trigger] gives_v4(o, m, ifindex, a) && #[trigger] gives_v6(o, m, ifindex, b))
            &&& (forall|a: Ipv4Addr| !#[trigger] gives_v4(o, m, ifindex, a)) && (forall|a: Ipv6Addr|
                !#[trigger] gives_v6(o, m, ifindex, a)) ==> q == p
        }),
{
    reveal(gives_v4);
    reveal(gives_v6);
    lemma_message(o, m, ifindex);
    assert forall|a: Ipv4Addr| #[trigger] gives_v4(o, m, ifindex, a) implies {
        let q = rtnetlink::addr_scanned(o, m.bytes(o), ifindex, p);
        &&& same_picks(q, p)
        &&& q.addrs.v4 == (if p.addrs.v4 is None {
            Some(a)
        } else {
            p.addrs.v4
        })
        &&& q.addrs.v4_prefix == (if p.addrs.v4 is None {
            Some(m.prefix)
        } else {
            p.addrs.v4_prefix
        })
    } by {
        law_a_usable_address_is_taken(o, m, ifindex, p, seq![a.a, a.b, a.c, a.d]);
    }
    assert forall|a: Ipv6Addr| #[trigger] gives_v6(o, m, ifindex, a) implies rtnetlink::addr_scanned(
        o,
        m.bytes(o),
        ifindex,
        p,
    ) == interface::considered(p, a) by {
        let v = choose|v: Seq<u8>|
            v.len() == 16 && v6_of(v) == a && #[trigger] gives(o, m, ifindex, 10, v);
        law_a_usable_address_is_taken(o, m, ifindex, p, v);
    }
    if let Some(a) = rtnetlink::addr_message(o, m.bytes(o), ifindex) {
        lemma_unusable(a.flags);
        assert(m.flags_are(o, a.flags));
        assert(m.address_is(a.bytes));
        if !unusable(a.flags) {
            law_a_usable_address_is_taken(o, m, ifindex, p, a.bytes);
            if m.family == 2 {
                assert(gives(o, m, ifindex, 2, a.bytes));
                if a.bytes.len() == 4 {
                    let x = Ipv4Addr { a: a.bytes[0], b: a.bytes[1], c: a.bytes[2], d: a.bytes[3] };
                    assert(seq![x.a, x.b, x.c, x.d] =~= a.bytes);
                    assert(gives_v4(o, m, ifindex, x));
                }
            } else {
                assert(gives(o, m, ifindex, 10, a.bytes));
                if a.bytes.len() == 16 {
                    assert(gives_v6(o, m, ifindex, v6_of(a.bytes)));
                }
            }
        }
    }
}

/// The IPv6 addresses that the messages give, in their order.
pub open spec fn given_v6(o: Order, s: Seq<AddressMessage>, ifindex: u32) -> Seq<Ipv6Addr>
    decreases s.len(),
{
    if s.len() == 0 {
        Seq::empty()
    } else if exists|a: Ipv6Addr| #[trigger] gives_v6(o, s.last(), ifindex, a) {
        given_v6(o, s.drop_last(), ifindex).push(
            choose|a: Ipv6Addr| #[trigger] gives_v6(o, s.last(), ifindex, a),
        )
    } else {
        given_v6(o, s.drop_last(), ifindex)
    }
}

/// The message at `i` is the first that gives an IPv4 address, and gives that one.
pub open spec fn first_at(o: Order, s: Seq<AddressMessage>, ifindex: u32, i: int, a: Ipv4Addr) -> bool {
    &&& 0 <= i < s.len()
    &&& gives_v4(o, s[i], ifindex, a)
    &&& forall|j: int, b: Ipv4Addr| 0 <= j < i ==> !#[trigger] gives_v4(o, s[j], ifindex, b)
}

/// The IPv4 address is that of the first message that gives one, with its prefix.
pub open spec fn first_v4(o: Order, s: Seq<AddressMessage>, ifindex: u32, p: Picked) -> bool {
    match p.addrs.v4 {
        Some(a) => exists|i: int|
            #[trigger] first_at(o, s, ifindex, i, a) && p.addrs.v4_prefix == Some(s[i].prefix),
        None => forall|i: int, a: Ipv4Addr|
            0 <= i < s.len() ==> !#[trigger] gives_v4(o, s[i], ifindex, a),
    }
}

proof fn lemma_first_v4(
    o: Order,
    s: Seq<AddressMessage>,
    ifindex: u32,
    before: Picked,
    after: Picked,
)
    requires
        s.len() > 0,
        first_v4(o, s.drop_last(), ifindex, before),
        forall|a: Ipv4Addr| #[trigger]
            gives_v4(o, s.last(), ifindex, a) && before.addrs.v4 is None ==> after.addrs.v4 == Some(
                a,
            ) && after.addrs.v4_prefix == Some(s.last().prefix),
        !(exists|a: Ipv4Addr| #[trigger] gives_v4(o, s.last(), ifindex, a)) || before.addrs.v4
            is Some ==> after.addrs.v4 == before.addrs.v4 && after.addrs.v4_prefix
            == before.addrs.v4_prefix,
    ensures
        first_v4(o, s, ifindex, after),
{
    let t = s.drop_last();
    let n: int = s.len() - 1;
    assert(s[n] == s.last());
    assert forall|j: int| 0 <= j < n implies #[trigger] s[j] == t[j] by {}
    if let Some(a) = before.addrs.v4 {
        let i: int = choose|i: int|
            #[trigger] first_at(o, t, ifindex, i, a) && before.addrs.v4_prefix == Some(t[i].prefix);
        assert forall|j: int, b: Ipv4Addr| 0 <= j < i implies !#[trigger] gives_v4(
            o,
            s[j],
            ifindex,
            b,
        ) by {
            assert(!gives_v4(o, t[j], ifindex, b));
        }
        assert(first_at(o, s, ifindex, i, a));
    } else {
        assert forall|j: int, b: Ipv4Addr| 0 <= j < n implies !#[trigger] gives_v4(
            o,
            s[j],
            ifindex,
            b,
        ) by {
            assert(!gives_v4(o, t[j], ifindex, b));
        }
        if exists|a: Ipv4Addr| #[trigger] gives_v4(o, s.last(), ifindex, a) {
            let a = choose|a: Ipv4Addr| #[trigger] gives_v4(o, s.last(), ifindex, a);
            assert(first_at(o, s, ifindex, n, a));
            assert(after.addrs.v4 == Some(a));
            assert(first_at(o, s, ifindex, n, after.addrs.v4->0) && after.addrs.v4_prefix == Some(
                s[n].prefix,
            ));
        } else {
            assert forall|j: int, b: Ipv4Addr| 0 <= j < s.len() implies !#[trigger] gives_v4(
                o,
                s[j],
                ifindex,
                b,
            ) by {
                assert(!gives_v4(o, s.last(), ifindex, b));
            }
        }
    }
}

/// The picks of both agree.
pub open spec fn same_picks(p: Picked, q: Picked) -> bool {
    p.addrs.v6 == q.addrs.v6 && p.addrs.v6_routable == q.addrs.v6_routable && p.pick == q.pick
}

proof fn lemma_same_picks(p: Picked, q: Picked, a: Ipv6Addr)
    requires
        same_picks(p, q),
    ensures
        same_picks(interface::considered(p, a), interface::considered(q, a)),
        interface::considered(p, a).addrs.v4 == p.addrs.v4,
        interface::considered(p, a).addrs.v4_prefix == p.addrs.v4_prefix,
{
}

/// A dump gives an interface the IPv4 address of the first usable message that has one, with that
/// message's prefix; and the picks of the usable IPv6 addresses, no others.
pub proof fn law_a_dump_yields_usable_addresses(o: Order, s: Seq<AddressMessage>, ifindex: u32)
    requires
        forall|i: int| 0 <= i < s.len() ==> (#[trigger] s[i]).wf(),
    ensures
        first_v4(o, s, ifindex, rtnetlink::addrs_scanned(o, written(o, s), ifindex)),
        same_picks(
            rtnetlink::addrs_scanned(o, written(o, s), ifindex),
            interface::picked(given_v6(o, s, ifindex)),
        ),
    decreases s.len(),
{
    let w = written(o, s);
    if s.len() > 0 {
        let t = s.drop_last();
        let m = s.last();
        assert(s[s.len() - 1] == m);
        assert(m.wf());
        assert forall|i: int| 0 <= i < t.len() implies (#[trigger] t[i]).wf() by {
            assert(t[i] == s[i]);
        }
        law_a_dump_yields_usable_addresses(o, t, ifindex);
        assert(w.drop_last() =~= written(o, t));
        let before = rtnetlink::addrs_scanned(o, written(o, t), ifindex);
        let after = rtnetlink::addrs_scanned(o, w, ifindex);
        assert(after == rtnetlink::addr_scanned(o, m.bytes(o), ifindex, before));
        lemma_one_scan(o, m, ifindex, before);
        let list = given_v6(o, t, ifindex);
        if exists|a: Ipv6Addr| #[trigger] gives_v6(o, m, ifindex, a) {
            let a = choose|a: Ipv6Addr| #[trigger] gives_v6(o, m, ifindex, a);
            lemma_same_picks(before, interface::picked(list), a);
            assert(list.push(a).drop_last() =~= list);
            assert(list.push(a).last() == a);
        }
        lemma_first_v4(o, s, ifindex, before, after);
    }
}

/// Every IPv6 address that the messages give, in their order, is one that a message gives.
pub proof fn law_a_given_address_is_of_a_message(o: Order, s: Seq<AddressMessage>, ifindex: u32)
    ensures
        forall|k: int|
            0 <= k < given_v6(o, s, ifindex).len() ==> exists|i: int|
                0 <= i < s.len() && gives_v6(
                    o,
                    #[trigger] s[i],
                    ifindex,
                    #[trigger] given_v6(o, s, ifindex)[k],
                ),
        forall|i: int, a: Ipv6Addr|
            0 <= i < s.len() && #[trigger] gives_v6(o, s[i], ifindex, a) ==> exists|b: Ipv6Addr|
                #[trigger] given_v6(o, s, ifindex).contains(b) && gives_v6(o, s[i], ifindex, b),
    decreases s.len(),
{
    if s.len() > 0 {
        let t = s.drop_last();
        law_a_given_address_is_of_a_message(o, t, ifindex);
        let all = given_v6(o, s, ifindex);
        let some = given_v6(o, t, ifindex);
        let n: int = s.len() - 1;
        assert(s[n] == s.last());
        assert forall|k: int| 0 <= k < all.len() implies exists|i: int|
            0 <= i < s.len() && gives_v6(o, #[trigger] s[i], ifindex, #[trigger] all[k]) by {
            if k < some.len() {
                assert(all[k] == some[k]);
                let i: int = choose|i: int|
                    0 <= i < t.len() && gives_v6(o, #[trigger] t[i], ifindex, some[k]);
                assert(s[i] == t[i]);
            } else {
                assert(gives_v6(o, s[n], ifindex, all[k]));
            }
        }
        assert forall|i: int, a: Ipv6Addr|
            0 <= i < s.len() && #[trigger] gives_v6(o, s[i], ifindex, a) implies exists|b: Ipv6Addr|
            #[trigger] all.contains(b) && gives_v6(o, s[i], ifindex, b) by {
            if i < n {
                assert(t[i] == s[i]);
                assert(gives_v6(o, t[i], ifindex, a));
                let b = choose|b: Ipv6Addr|
                    #[trigger] some.contains(b) && gives_v6(o, t[i], ifindex, b);
                let k: int = choose|k: int| 0 <= k < some.len() && some[k] == b;
                assert(all[k] == b);
                assert(all.contains(b));
            } else {
                assert(all[all.len() - 1] == all.last());
                assert(all.contains(all.last()));
            }
        }
    }
}

/// A link message: the sixteen bytes of its header, its fixed part, and its attributes.
pub struct LinkMessage {
    pub head: Seq<u8>,
    pub before: Seq<u8>,
    pub index: u32,
    pub behind: Seq<u8>,
    pub attrs: Seq<(u16, Seq<u8>)>,
}

impl LinkMessage {
    pub open spec fn wf(self) -> bool {
        self.head.len() == 16 && self.before.len() == 4 && self.behind.len() == 8 && attrs_fit(
            self.attrs,
        )
    }

    pub open spec fn bytes(self, o: Order) -> Seq<u8> {
        self.head + self.before + wire::u32_bytes(o, self.index) + self.behind + attr_list(
            o,
            self.attrs,
        )
    }
}

/// A link message of another interface changes nothing; one of this interface gives it the MAC of its
/// last attribute of type 1 and six bytes, and the MTU of its last one of type 4 and four bytes.
pub proof fn law_a_link_message_gives_mac_and_mtu(
    o: Order,
    m: LinkMessage,
    ifindex: u32,
    addrs: InterfaceAddresses,
    mtu: Option<u32>,
)
    requires
        m.wf(),
        ifindex <= i32::MAX,
    ensures
        ({
            let (a, u) = rtnetlink::link_scanned(o, m.bytes(o), ifindex, addrs, mtu);
            &&& m.index != ifindex ==> (a, u) == (addrs, mtu)
            &&& m.index == ifindex ==> {
                &&& a == (InterfaceAddresses { mac: a.mac, ..addrs })
                &&& forall|v: Seq<u8>|
                    v.len() == 6 && #[trigger] last_says_of_len(m.attrs, 1, v) ==> a.mac == Some(
                        MacAddr { o0: v[0], o1: v[1], o2: v[2], o3: v[3], o4: v[4], o5: v[5] },
                    )
                &&& none_says_of_len(m.attrs, 1, 6) ==> a.mac == addrs.mac
                &&& forall|n: u32|
                    #[trigger] last_says_of_len(m.attrs, 4, wire::u32_bytes(o, n)) ==> u == Some(n)
                &&& none_says_of_len(m.attrs, 4, 4) ==> u == mtu
            }
        }),
{
    lemma_link_front(o, m);
    let list = m.attrs;
    lemma_last_of_len(list, 1, 6);
    lemma_last_of_len(list, 4, 4);
    let (a, u) = rtnetlink::link_scanned(o, m.bytes(o), ifindex, addrs, mtu);
    if m.index == ifindex {
        assert(u == match rtnetlink::last_value(list, 4, 4) {
            Some(b) => Some(wire::quad(o, b[0], b[1], b[2], b[3])),
            None => mtu,
        });
        assert forall|n: u32| #[trigger]
            last_says_of_len(list, 4, wire::u32_bytes(o, n)) implies u == Some(n) by {
            let w = wire::u32_bytes(o, n);
            lemma_number(o, n);
            assert(rtnetlink::last_value(list, 4, 4) == Some(w));
        }
    }
}

proof fn lemma_number(o: Order, n: u32)
    ensures
        ({
            let w = wire::u32_bytes(o, n);
            w.len() == 4 && wire::quad(o, w[0], w[1], w[2], w[3]) == n
        }),
{
    wire::law_numbers_read_back(o, n, 0);
}

proof fn lemma_link_front(o: Order, m: LinkMessage)
    requires
        m.wf(),
    ensures
        m.bytes(o).len() >= 32,
        wire::u32_at(o, m.bytes(o), 20) == Some(m.index),
        rtnetlink::attrs(o, m.bytes(o), 32) == m.attrs,
{
    let msg = m.bytes(o);
    let fixed = m.head + m.before;
    lemma_u32_at(o, fixed, m.index, m.behind + attr_list(o, m.attrs));
    assert(msg =~= fixed + wire::u32_bytes(o, m.index) + (m.behind + attr_list(o, m.attrs)));
    let front = fixed + wire::u32_bytes(o, m.index) + m.behind;
    law_attributes_read_back(o, front, m.attrs);
    assert(msg =~= front + attr_list(o, m.attrs));
}

/// A message of a dump: its type, the ten bytes of its flags, sequence and sender, and its body.
pub struct DumpMessage {
    pub kind: u16,
    pub rest: Seq<u8>,
    pub body: Seq<u8>,
}

impl DumpMessage {
    pub open spec fn wf(self) -> bool {
        self.rest.len() == 10 && self.body.len() <= 0xffff
    }

    pub open spec fn bytes(self, o: Order) -> Seq<u8> {
        wire::u32_bytes(o, (16 + self.body.len()) as u32) + wire::u16_bytes(o, self.kind) + self.rest
            + self.body
    }
}

/// Messages one behind the other, each filled up to a word.
pub open spec fn datagram(o: Order, s: Seq<DumpMessage>) -> Seq<u8>
    decreases s.len(),
{
    if s.len() == 0 {
        Seq::empty()
    } else {
        s[0].bytes(o) + zeros(padding(s[0].body.len())) + datagram(o, s.skip(1))
    }
}

/// The messages of the reply's type, as they are written.
pub open spec fn replies(o: Order, s: Seq<DumpMessage>, reply: u16) -> Seq<Seq<u8>>
    decreases s.len(),
{
    if s.len() == 0 {
        Seq::empty()
    } else if s[0].kind == reply {
        seq![s[0].bytes(o)] + replies(o, s.skip(1), reply)
    } else {
        replies(o, s.skip(1), reply)
    }
}

pub proof fn lemma_message_front(o: Order, head: Seq<u8>, m: DumpMessage, more: Seq<u8>)
    requires
        m.wf(),
    ensures
        ({
            let buf = head + m.bytes(o) + more;
            let at: int = head.len() as int;
            &&& rtnetlink::message_at(o, buf, at) == Some((16 + m.body.len() as int, m.kind))
            &&& buf.subrange(at, at + 16 + m.body.len()) == m.bytes(o)
            &&& m.bytes(o).len() == 16 + m.body.len()
        }),
{
    let buf = head + m.bytes(o) + more;
    let len: u32 = (16 + m.body.len()) as u32;
    let after = wire::u16_bytes(o, m.kind) + m.rest + m.body + more;
    lemma_u32_at(o, head, len, after);
    assert(buf =~= head + wire::u32_bytes(o, len) + after);
    let front = head + wire::u32_bytes(o, len);
    lemma_u16_at(o, front, m.kind, m.rest + m.body + more);
    assert(buf =~= front + wire::u16_bytes(o, m.kind) + (m.rest + m.body + more));
    assert(buf.subrange(head.len() as int, head.len() as int + 16 + m.body.len()) =~= m.bytes(o));
}

/// The messages can be walked over: none ends the dump.
pub open spec fn go_on(s: Seq<DumpMessage>) -> bool {
    forall|i: int| 0 <= i < s.len() ==> (#[trigger] s[i]).wf() && s[i].kind != 2 && s[i].kind != 3
}

pub proof fn lemma_filled_up(o: Order, head: Seq<u8>, m: DumpMessage)
    requires
        m.wf(),
    ensures
        (head + m.bytes(o) + zeros(padding(m.body.len()))).len() == head.len() + libcex::nl_aligned(
            16 + m.body.len() as int,
        ),
{
    lemma_message_front(o, head, m, Seq::empty());
    lemma_aligned((16 + m.body.len()) as nat);
    assert(padding((16 + m.body.len()) as nat) == padding(m.body.len()));
}

/// See [`rtnetlink::walked`].
#[verifier::opaque]
spec fn walk(o: Order, buf: Seq<u8>, reply: u16, at: int) -> (Seq<Seq<u8>>, DumpStep) {
    rtnetlink::walked(o, buf, reply, at)
}

proof fn lemma_walk_is(o: Order, buf: Seq<u8>, reply: u16, at: int)
    ensures
        walk(o, buf, reply, at) == rtnetlink::walked(o, buf, reply, at),
{
    reveal(walk);
}

/// A message that does not end the dump is walked over.
proof fn lemma_step(o: Order, head: Seq<u8>, m: DumpMessage, reply: u16, tail: Seq<u8>)
    requires
        m.wf(),
        m.kind != 2,
        m.kind != 3,
    ensures
        ({
            let next = head + m.bytes(o) + zeros(padding(m.body.len()));
            let there = walk(o, next + tail, reply, next.len() as int);
            walk(o, next + tail, reply, head.len() as int) == if m.kind == reply {
                (seq![m.bytes(o)] + there.0, there.1)
            } else {
                there
            }
        }),
{
    reveal(walk);
    let pad = zeros(padding(m.body.len()));
    let next = head + m.bytes(o) + pad;
    lemma_message_front(o, head, m, pad + tail);
    assert(next + tail =~= head + m.bytes(o) + (pad + tail));
    lemma_filled_up(o, head, m);
}

/// Messages in front are walked over.
proof fn lemma_walk(o: Order, head: Seq<u8>, s: Seq<DumpMessage>, reply: u16, more: Seq<u8>)
    requires
        go_on(s),
    ensures
        ({
            let front = head + datagram(o, s);
            let there = walk(o, front + more, reply, front.len() as int);
            walk(o, front + more, reply, head.len() as int) == (
                replies(o, s, reply) + there.0,
                there.1,
            )
        }),
    decreases s.len(),
{
    let front = head + datagram(o, s);
    let there = walk(o, front + more, reply, front.len() as int);
    if s.len() > 0 {
        let m = s[0];
        assert(m.wf() && m.kind != 2 && m.kind != 3);
        let rest = s.skip(1);
        assert forall|i: int| 0 <= i < rest.len() implies (#[trigger] rest[i]).wf() && rest[i].kind
            != 2 && rest[i].kind != 3 by {
            assert(rest[i] == s[i + 1]);
        }
        let next = head + m.bytes(o) + zeros(padding(m.body.len()));
        let tail = datagram(o, rest);
        lemma_walk(o, next, rest, reply, more);
        lemma_step(o, head, m, reply, tail + more);
        assert(front =~= next + tail);
        assert(front + more =~= next + (tail + more));
        lemma_replies(o, s, reply, there.0);
    } else {
        assert(front =~= head);
        assert(replies(o, s, reply) + there.0 =~= there.0);
    }
}

proof fn lemma_replies(o: Order, s: Seq<DumpMessage>, reply: u16, more: Seq<Seq<u8>>)
    requires
        s.len() > 0,
    ensures
        replies(o, s, reply) + more == if s[0].kind == reply {
            seq![s[0].bytes(o)] + (replies(o, s.skip(1), reply) + more)
        } else {
            replies(o, s.skip(1), reply) + more
        },
{
    let rest = replies(o, s.skip(1), reply);
    assert(seq![s[0].bytes(o)] + rest + more =~= seq![s[0].bytes(o)] + (rest + more));
}

/// A datagram of a dump gives its messages of the reply's type, in their order, and the dump goes on.
pub proof fn law_a_datagram_gives_its_replies(o: Order, s: Seq<DumpMessage>, reply: u16)
    requires
        go_on(s),
    ensures
        rtnetlink::walked(o, datagram(o, s), reply, 0) == (replies(o, s, reply), DumpStep::More),
{
    reveal(walk);
    let none = Seq::<u8>::empty();
    lemma_walk(o, none, s, reply, none);
    assert(none + datagram(o, s) + none =~= datagram(o, s));
    assert(none + datagram(o, s) =~= datagram(o, s));
    assert(replies(o, s, reply) + Seq::<Seq<u8>>::empty() =~= replies(o, s, reply));
}

/// Behind a done message nothing is read, and the dump is done; behind an error message nothing is read
/// either, and the dump has failed with the number that the message has, negated.
#[verifier::spinoff_prover]
#[verifier::rlimit(60)]
pub proof fn law_a_dump_ends_at_its_last_message(
    o: Order,
    s: Seq<DumpMessage>,
    reply: u16,
    end: DumpMessage,
    more: Seq<u8>,
)
    requires
        go_on(s),
        end.wf(),
    ensures
        ({
            let w = rtnetlink::walked(o, datagram(o, s) + end.bytes(o) + more, reply, 0);
            &&& end.kind == 3 ==> w == (replies(o, s, reply), DumpStep::Done)
            &&& end.kind == 2 ==> w.0 == replies(o, s, reply) && w.1 is Failed
            &&& end.kind == 2 ==> forall|n: u32, tail: Seq<u8>|
                0x8000_0000 < n && end.body == #[trigger] (wire::u32_bytes(o, n) + tail) ==> w.1
                    == DumpStep::Failed(Some((0x1_0000_0000 - n) as i32))
        }),
{
    let none = Seq::<u8>::empty();
    let front = datagram(o, s);
    let buf = front + end.bytes(o) + more;
    lemma_walk(o, none, s, reply, end.bytes(o) + more);
    assert(none + front =~= front);
    assert(front + (end.bytes(o) + more) =~= buf);
    lemma_end(o, front, end, reply, more);
    assert(replies(o, s, reply) + Seq::<Seq<u8>>::empty() =~= replies(o, s, reply));
    lemma_walk_is(o, buf, reply, 0);
}

/// What the message that ends the dump comes to.
proof fn lemma_end(o: Order, front: Seq<u8>, end: DumpMessage, reply: u16, more: Seq<u8>)
    requires
        end.wf(),
    ensures
        ({
            let w = walk(o, front + end.bytes(o) + more, reply, front.len() as int);
            &&& end.kind == 3 ==> w == (Seq::<Seq<u8>>::empty(), DumpStep::Done)
            &&& end.kind == 2 ==> w.0 == Seq::<Seq<u8>>::empty() && w.1 is Failed
            &&& end.kind == 2 ==> forall|n: u32, tail: Seq<u8>|
                0x8000_0000 < n && end.body == #[trigger] (wire::u32_bytes(o, n) + tail) ==> w.1
                    == DumpStep::Failed(Some((0x1_0000_0000 - n) as i32))
        }),
{
    reveal(walk);
    lemma_message_front(o, front, end, more);
    assert forall|n: u32, tail: Seq<u8>|
        0x8000_0000 < n && end.body == #[trigger] (wire::u32_bytes(o, n)
            + tail) implies rtnetlink::error_number(
        o,
        front + end.bytes(o) + more,
        front.len() as int,
    ) == Some((0x1_0000_0000 - n) as i32) by {
        lemma_error(o, front, end, more, n, tail);
    }
}

proof fn lemma_error(
    o: Order,
    front: Seq<u8>,
    end: DumpMessage,
    more: Seq<u8>,
    n: u32,
    tail: Seq<u8>,
)
    requires
        end.wf(),
        end.body == wire::u32_bytes(o, n) + tail,
        0x8000_0000 < n,
    ensures
        rtnetlink::error_number(o, front + end.bytes(o) + more, front.len() as int) == Some(
            (0x1_0000_0000 - n) as i32,
        ),
{
    let len: u32 = (16 + end.body.len()) as u32;
    lemma_u32_at(o, Seq::empty(), len, Seq::empty());
    lemma_u16_at(o, Seq::empty(), end.kind, Seq::empty());
    let head = front + wire::u32_bytes(o, len) + wire::u16_bytes(o, end.kind) + end.rest;
    assert(head.len() == front.len() + 16);
    lemma_u32_at(o, head, n, tail + more);
    assert(front + end.bytes(o) + more =~= head + wire::u32_bytes(o, n) + (tail + more));
}

} // verus!
