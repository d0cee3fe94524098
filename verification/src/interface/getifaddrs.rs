//! Address resolution from a list of interface addresses: the v4 address, the MAC, the MTU and the
//! v6 candidates, whose flags drop tentative, duplicated and deprecated ones.

use vstd::prelude::*;

use crate::errno::Errno;
use crate::interface;
use crate::interface::{InterfaceAddresses, Picked, Resolved, V6Pick};
use crate::net::ip;
use crate::net::ip::{Ipv4Addr, Ipv6Addr};
use crate::net::mac::MacAddr;

verus! {

/// Where a `sockaddr_in` holds its address.
pub const SIN_ADDR: usize = 4;

/// Where a `sockaddr_dl` holds the length of its name, that of its address, and both.
pub const SDL_NLEN: usize = 5;

pub const SDL_ALEN: usize = 6;

pub const SDL_DATA: usize = 8;

/// `IN6_IFF_*` bits that disqualify a v6 address as a source: DAD in progress, DAD failed
/// (duplicate), or preferred-lifetime expired.
pub const IN6_IFF_UNUSABLE: i32 = 0x16;

/// One entry of the list: an interface and an address of it.
#[derive(Debug)]
pub struct IfAddr {
    pub name: String,
    pub addr: Addr,
}

/// An address of an interface, as the system writes it.
#[derive(Debug)]
pub enum Addr {
    /// The bytes of an IPv4 socket address, and those of its netmask.
    Inet { sa: Vec<u8>, netmask: Option<Vec<u8>> },
    /// The bytes of a link-layer socket address, and the MTU.
    Link { sa: Vec<u8>, mtu: Option<u32> },
    /// The octets of an IPv6 address, and its flags where they could be read.
    Inet6 { octets: [u8; 16], flags: Option<i32> },
    Other,
}

/// The octet of an IPv4 socket address's bytes, 0 where they stop before it.
pub open spec fn octet_or_zero(sa: Seq<u8>, i: int) -> u8 {
    if i < sa.len() {
        sa[i]
    } else {
        0
    }
}

/// The IPv4 address of a socket address's bytes.
pub open spec fn v4_of(sa: Seq<u8>) -> Ipv4Addr {
    Ipv4Addr {
        a: octet_or_zero(sa, 4),
        b: octet_or_zero(sa, 5),
        c: octet_or_zero(sa, 6),
        d: octet_or_zero(sa, 7),
    }
}

/// The IPv4 address of an IPv4 socket address's bytes. A netmask can stop after its last non-zero
/// byte, so a missing tail reads as zero.
pub fn read_v4(sa: &[u8]) -> (r: Ipv4Addr)
    ensures
        r == v4_of(sa@),
{
    let a: u8 = if sa.len() > SIN_ADDR {
        sa[SIN_ADDR]
    } else {
        0
    };
    let b: u8 = if sa.len() > SIN_ADDR + 1 {
        sa[SIN_ADDR + 1]
    } else {
        0
    };
    let c: u8 = if sa.len() > SIN_ADDR + 2 {
        sa[SIN_ADDR + 2]
    } else {
        0
    };
    let d: u8 = if sa.len() > SIN_ADDR + 3 {
        sa[SIN_ADDR + 3]
    } else {
        0
    };
    Ipv4Addr { a, b, c, d }
}

/// `2` to the power of `n`.
pub open spec fn power_of_two(n: nat) -> nat
    decreases n,
{
    if n == 0 {
        1
    } else {
        2 * power_of_two((n - 1) as nat)
    }
}

/// `mask` is `n` ones in front of zeros.
pub open spec fn is_mask(mask: u32, n: nat) -> bool {
    n <= 32 && mask == 0x1_0000_0000 - power_of_two((32 - n) as nat)
}

proof fn lemma_powers_ascend(a: nat, b: nat)
    requires
        a <= b,
    ensures
        power_of_two(a) <= power_of_two(b),
        a < b ==> power_of_two(a) < power_of_two(b),
    decreases b,
{
    lemma_power_is_positive(a);
    if a < b {
        lemma_powers_ascend(a, (b - 1) as nat);
    }
}

proof fn lemma_power_is_positive(n: nat)
    ensures
        power_of_two(n) >= 1,
    decreases n,
{
    if n > 0 {
        lemma_power_is_positive((n - 1) as nat);
    }
}

proof fn lemma_power_of_31()
    ensures
        power_of_two(31) == 0x8000_0000,
{
    reveal_with_fuel(power_of_two, 32);
}

/// Below 32, doubling stays within the addresses that there are.
proof fn lemma_doubling(n: nat)
    requires
        n <= 31,
    ensures
        power_of_two(n + 1) == 2 * power_of_two(n),
        power_of_two(n) <= 0x8000_0000,
        n < 31 ==> power_of_two(n + 1) <= 0x8000_0000,
{
    lemma_power_of_31();
    lemma_powers_ascend(n, 31);
    if n < 31 {
        lemma_powers_ascend(n + 1, 31);
    }
}

/// A mask has one length.
pub proof fn law_mask_has_one_length(mask: u32, n: nat, m: nat)
    requires
        is_mask(mask, n),
        is_mask(mask, m),
    ensures
        n == m,
{
    if n < m {
        lemma_powers_ascend((32 - m) as nat, (32 - n) as nat);
    } else if m < n {
        lemma_powers_ascend((32 - n) as nat, (32 - m) as nat);
    }
}

/// The prefix length a contiguous IPv4 netmask encodes, or `None` for a non-contiguous one.
pub fn prefix_len(mask: Ipv4Addr) -> (r: Option<u8>)
    ensures
        match r {
            Some(n) => is_mask(mask.bits(), n as nat),
            None => forall|n: nat| !is_mask(mask.bits(), n),
        },
{
    let bits: u64 = mask.to_bits() as u64;
    let mut hosts: u64 = 1;
    let mut n: u8 = 32;
    assert(power_of_two(0) == 1);
    loop
        invariant
            n <= 32,
            hosts == power_of_two((32 - n) as nat),
            hosts <= 0x1_0000_0000,
            n > 0 ==> hosts <= 0x8000_0000,
            bits == mask.bits(),
            forall|m: nat| n < m ==> !is_mask(mask.bits(), m),
        decreases n,
    {
        if bits + hosts == 0x1_0000_0000 {
            return Some(n);
        }
        assert(!is_mask(mask.bits(), n as nat));
        if n == 0 {
            return None;
        }
        proof {
            lemma_doubling((32 - n) as nat);
        }
        hosts = hosts * 2;
        n = n - 1;
    }
}

/// The MAC of a link-layer socket address's bytes: six behind the name, where there is one of six.
pub open spec fn mac_of(sa: Seq<u8>) -> Option<MacAddr> {
    if sa.len() <= 6 || sa[6] != 6 || 8 + sa[5] + 6 > sa.len() {
        None
    } else {
        let at: int = 8 + sa[5];
        Some(
            MacAddr {
                o0: sa[at],
                o1: sa[at + 1],
                o2: sa[at + 2],
                o3: sa[at + 3],
                o4: sa[at + 4],
                o5: sa[at + 5],
            },
        )
    }
}

/// The MAC of a link-layer socket address's bytes, or `None` if the link has none (loopback) or the
/// address would run past the socket address. It sits after the name.
pub fn read_mac(sa: &[u8]) -> (r: Option<MacAddr>)
    ensures
        r == mac_of(sa@),
{
    if sa.len() <= SDL_ALEN || sa[SDL_ALEN] != 6 {
        return None;
    }
    let at: usize = SDL_DATA + sa[SDL_NLEN] as usize;
    if sa.len() < at + 6 {
        return None;
    }
    Some(
        MacAddr {
            o0: sa[at],
            o1: sa[at + 1],
            o2: sa[at + 2],
            o3: sa[at + 3],
            o4: sa[at + 4],
            o5: sa[at + 5],
        },
    )
}

/// The address on the wire: of a link-local one the second group, where the system keeps the
/// interface index, is 0.
pub open spec fn on_the_wire(octets: Seq<u8>) -> Ipv6Addr {
    let addr = ip::ipv6_at(octets, 0);
    if addr.is_unicast_link_local() {
        Ipv6Addr { s1: 0, ..addr }
    } else {
        addr
    }
}

/// Canonicalize a link-local address: the system embeds the interface index in its second group, so
/// clear it to recover the address on the wire. A no-op for any other address.
pub fn canonical_v6(octets: [u8; 16]) -> (r: Ipv6Addr)
    ensures
        r == on_the_wire(octets@),
{
    let addr = ip::read_ipv6(&octets, 0);
    if addr.is_unicast_link_local() {
        Ipv6Addr { s1: 0, ..addr }
    } else {
        addr
    }
}

/// Whether a failure to open an IPv6 socket means the host has no IPv6 stack, the one case where an
/// absent socket is the truth rather than a transient failure.
pub fn no_ipv6_stack(e: Errno) -> (r: bool)
    ensures
        r == (e == Errno::FamilyNotSupported || e == Errno::ProtocolNotSupported),
{
    match e {
        Errno::FamilyNotSupported | Errno::ProtocolNotSupported => true,
        _ => false,
    }
}

/// What opening the socket for IPv6 flags means: whether there is one, or why the resolution fails.
/// Under pressure the host still has IPv6, and reading that as none would commit a false loss.
pub fn inet6_socket(opened: Result<(), Errno>) -> (r: Result<bool, Errno>)
    ensures
        r == match opened {
            Ok(_) => Ok(true),
            Err(e) => if e == Errno::FamilyNotSupported || e == Errno::ProtocolNotSupported {
                Ok(false)
            } else {
                Err(e)
            },
        },
{
    match opened {
        Ok(_) => Ok(true),
        Err(e) => if no_ipv6_stack(e) {
            Ok(false)
        } else {
            Err(e)
        },
    }
}

/// The addresses and the MTU so far.
pub struct Scanned {
    pub picked: Picked,
    pub mtu: Option<u32>,
}

/// The prefix length of a netmask.
pub open spec fn mask_prefix(netmask: Option<Vec<u8>>) -> Option<u8> {
    match netmask {
        Some(sa) => {
            let bits = v4_of(sa@).bits();
            if exists|n: nat| is_mask(bits, n) {
                Some((choose|n: nat| is_mask(bits, n)) as u8)
            } else {
                None
            }
        },
        None => None,
    }
}

/// The addresses and the MTU after one more address of the interface: the first v4 wins, the last
/// link-layer address and MTU, and a usable v6 is considered.
pub open spec fn scanned(s: Scanned, addr: Addr) -> Scanned {
    match addr {
        Addr::Inet { sa, netmask } => if s.picked.addrs.v4 is None {
            Scanned {
                picked: Picked {
                    addrs: InterfaceAddresses {
                        v4: Some(v4_of(sa@)),
                        v4_prefix: mask_prefix(netmask),
                        ..s.picked.addrs
                    },
                    pick: s.picked.pick,
                },
                mtu: s.mtu,
            }
        } else {
            s
        },
        Addr::Link { sa, mtu } => Scanned {
            picked: Picked {
                addrs: InterfaceAddresses { mac: mac_of(sa@), ..s.picked.addrs },
                pick: s.picked.pick,
            },
            mtu: if mtu is Some {
                mtu
            } else {
                s.mtu
            },
        },
        Addr::Inet6 { octets, flags } => match flags {
            Some(f) => if f & IN6_IFF_UNUSABLE == 0 {
                Scanned {
                    picked: interface::considered(s.picked, on_the_wire(octets@)),
                    mtu: s.mtu,
                }
            } else {
                s
            },
            None => s,
        },
        Addr::Other => s,
    }
}

/// The addresses and the MTU of interface `name` after the entries of a list.
pub open spec fn all_scanned(name: Seq<char>, list: Seq<IfAddr>) -> Scanned
    decreases list.len(),
{
    if list.len() == 0 {
        Scanned {
            picked: Picked { addrs: interface::no_addresses(), pick: interface::no_pick() },
            mtu: None,
        }
    } else {
        let before = all_scanned(name, list.drop_last());
        if list.last().name@ == name {
            scanned(before, list.last().addr)
        } else {
            before
        }
    }
}

/// Resolve `if_name`'s current source addresses and MTU from the list. An interface that is not in
/// it has none.
pub fn resolve(if_name: &str, list: &Vec<IfAddr>) -> (r: Resolved)
    ensures
        ({
            let s = all_scanned(if_name@, list@);
            r == (Resolved { addrs: s.picked.addrs, mtu: s.mtu })
        }),
{
    let wanted = if_name.to_owned();
    let mut addrs = InterfaceAddresses::default();
    let mut v6_pick = V6Pick::default();
    let mut mtu: Option<u32> = None;
    let mut i: usize = 0;
    while i < list.len()
        invariant
            i <= list@.len(),
            wanted@ == if_name@,
            all_scanned(if_name@, list@.take(i as int)) == (Scanned {
                picked: Picked { addrs, pick: v6_pick },
                mtu,
            }),
        decreases list@.len() - i,
    {
        let entry = &list[i];
        assert(list@.take(i as int + 1).drop_last() =~= list@.take(i as int));
        assert(list@.take(i as int + 1).last() == *entry);
        if entry.name == wanted {
            match &entry.addr {
                Addr::Inet { sa, netmask } => {
                    if addrs.v4.is_none() {
                        let prefix: Option<u8> = match netmask {
                            Some(mask) => prefix_len(read_v4(mask)),
                            None => None,
                        };
                        proof {
                            lemma_mask_prefix(*netmask, prefix);
                        }
                        addrs.v4 = Some(read_v4(sa));
                        addrs.v4_prefix = prefix;
                    }
                },
                Addr::Link { sa, mtu: m } => {
                    addrs.mac = read_mac(sa);
                    if m.is_some() {
                        mtu = *m;
                    }
                },
                Addr::Inet6 { octets, flags } => {
                    match flags {
                        Some(f) => {
                            if *f & IN6_IFF_UNUSABLE == 0 {
                                v6_pick.consider(&mut addrs, canonical_v6(*octets));
                            }
                        },
                        None => {},
                    }
                },
                Addr::Other => {},
            }
        }
        i += 1;
    }
    assert(list@.take(i as int) =~= list@);
    Resolved { addrs, mtu }
}

proof fn lemma_mask_prefix(netmask: Option<Vec<u8>>, prefix: Option<u8>)
    requires
        match netmask {
            Some(sa) => match prefix {
                Some(n) => is_mask(v4_of(sa@).bits(), n as nat),
                None => forall|n: nat| !is_mask(v4_of(sa@).bits(), n),
            },
            None => prefix is None,
        },
    ensures
        prefix == mask_prefix(netmask),
{
    match (netmask, prefix) {
        (Some(sa), Some(n)) => {
            let bits = v4_of(sa@).bits();
            let m = choose|m: nat| is_mask(bits, m);
            law_mask_has_one_length(bits, n as nat, m);
        },
        _ => {},
    }
}

/// An IPv6 address that is tentative, duplicated or deprecated, or whose flags could not be read, is
/// passed over, and one that is none of these is a candidate.
pub proof fn law_an_unusable_address_is_passed_over(s: Scanned, octets: [u8; 16], flags: i32)
    ensures
        flags & 0x02 != 0 || flags & 0x04 != 0 || flags & 0x10 != 0 ==> scanned(
            s,
            Addr::Inet6 { octets, flags: Some(flags) },
        ) == s,
        flags & 0x02 == 0 && flags & 0x04 == 0 && flags & 0x10 == 0 ==> scanned(
            s,
            Addr::Inet6 { octets, flags: Some(flags) },
        ).picked == interface::considered(s.picked, on_the_wire(octets@)),
        scanned(s, Addr::Inet6 { octets, flags: None }) == s,
        scanned(s, Addr::Other) == s,
{
    assert(flags & 0x16 == 0 <==> flags & 0x02 == 0 && flags & 0x04 == 0 && flags & 0x10 == 0)
        by (bit_vector);
}

/// The first IPv4 address stays, with the prefix of its mask; the MAC and the MTU are the last told.
pub proof fn law_the_first_ipv4_address_stays(
    s: Scanned,
    sa: Vec<u8>,
    netmask: Option<Vec<u8>>,
    mtu: Option<u32>,
)
    ensures
        s.picked.addrs.v4 is Some ==> scanned(s, Addr::Inet { sa, netmask }) == s,
        s.picked.addrs.v4 is None ==> {
            let after = scanned(s, Addr::Inet { sa, netmask });
            &&& after.picked.addrs.v4 == Some(v4_of(sa@))
            &&& after.picked.addrs.v4_prefix == mask_prefix(netmask)
            &&& after.picked.addrs.mac == s.picked.addrs.mac
            &&& after.picked.addrs.v6 == s.picked.addrs.v6
            &&& after.picked.addrs.v6_routable == s.picked.addrs.v6_routable
            &&& after.mtu == s.mtu
        },
        ({
            let after = scanned(s, Addr::Link { sa, mtu });
            &&& after.picked.addrs.mac == mac_of(sa@)
            &&& after.picked.addrs.v4 == s.picked.addrs.v4
            &&& after.picked.addrs.v6 == s.picked.addrs.v6
            &&& mtu is Some ==> after.mtu == mtu
            &&& mtu is None ==> after.mtu == s.mtu
        }),
{
}

/// Only the entries of the interface are read.
pub proof fn law_other_interfaces_are_not_read(name: Seq<char>, list: Seq<IfAddr>, more: IfAddr)
    ensures
        more.name@ != name ==> all_scanned(name, list.push(more)) == all_scanned(name, list),
        more.name@ == name ==> all_scanned(name, list.push(more)) == scanned(
            all_scanned(name, list),
            more.addr,
        ),
{
    assert(list.push(more).drop_last() =~= list);
}

/// An IPv4 socket address reads back as what it was written from, and a mask that stops early as one
/// with zeros behind.
pub proof fn law_a_written_address_reads_back(
    head: Seq<u8>,
    a: u8,
    b: u8,
    c: u8,
    d: u8,
    more: Seq<u8>,
)
    requires
        head.len() == 4,
    ensures
        v4_of(head + seq![a, b, c, d] + more) == (Ipv4Addr { a, b, c, d }),
        v4_of(head + seq![a, b, c]) == (Ipv4Addr { a, b, c, d: 0 }),
        v4_of(head + seq![a, b]) == (Ipv4Addr { a, b, c: 0, d: 0 }),
        v4_of(head + seq![a]) == (Ipv4Addr { a, b: 0, c: 0, d: 0 }),
        v4_of(head) == (Ipv4Addr { a: 0, b: 0, c: 0, d: 0 }),
{
}

/// A link-layer socket address with a name and six octets behind it gives those octets as the MAC; one
/// whose address is of another length, or cut, gives none.
pub proof fn law_a_written_mac_reads_back(
    head: Seq<u8>,
    alen: u8,
    slen: u8,
    name: Seq<u8>,
    mac: MacAddr,
    more: Seq<u8>,
)
    requires
        head.len() == 5,
        name.len() <= 255,
    ensures
        ({
            let fixed = head + seq![name.len() as u8, alen, slen] + name;
            &&& alen == 6 ==> mac_of(fixed + mac.octets() + more) == Some(mac)
            &&& alen != 6 ==> mac_of(fixed + mac.octets() + more) is None
            &&& mac_of(fixed + mac.octets().take(5)) is None
        }),
{
    let fixed = head + seq![name.len() as u8, alen, slen] + name;
    let all = fixed + mac.octets() + more;
    assert(mac.octets().len() == 6);
    assert(all[5] == name.len() && all[6] == alen);
    let at: int = 8 + name.len() as int;
    assert(fixed.len() == at);
    assert(all[at] == mac.octets()[0]);
    assert(all[at + 1] == mac.octets()[1]);
    assert(all[at + 2] == mac.octets()[2]);
    assert(all[at + 3] == mac.octets()[3]);
    assert(all[at + 4] == mac.octets()[4]);
    assert(all[at + 5] == mac.octets()[5]);
    let cut = fixed + mac.octets().take(5);
    assert(cut[5] == name.len() && cut[6] == alen);
}

/// Of a link-local address the interface index that the system keeps in it is cleared, and any other
/// address stays as it is.
pub proof fn law_the_index_in_a_link_local_address_is_cleared(octets: Seq<u8>)
    requires
        octets.len() == 16,
    ensures
        ({
            let read = ip::ipv6_at(octets, 0);
            let sent = on_the_wire(octets);
            &&& 0xfe80 <= read.s0 <= 0xfebf ==> sent == (Ipv6Addr { s1: 0, ..read })
            &&& !(0xfe80 <= read.s0 <= 0xfebf) ==> sent == read
        }),
{
}

/// The prefix of a mask of `n` ones is `n`, and a mask with a hole has none.
pub proof fn law_the_prefix_counts_the_ones(netmask: Vec<u8>, n: nat)
    ensures
        is_mask(v4_of(netmask@).bits(), n) ==> mask_prefix(Some(netmask)) == Some(n as u8),
        (forall|m: nat| !is_mask(v4_of(netmask@).bits(), m)) ==> mask_prefix(Some(netmask)) is None,
        mask_prefix(None) is None,
        n == 24 ==> power_of_two((32 - n) as nat) == 256,
{
    let bits = v4_of(netmask@).bits();
    if is_mask(bits, n) {
        let m: nat = choose|m: nat| is_mask(bits, m);
        law_mask_has_one_length(bits, n, m);
    }
    reveal_with_fuel(power_of_two, 9);
}

} // verus!
