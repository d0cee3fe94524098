//! IP addresses and their text forms.

pub mod display;
pub mod laws;

use vstd::prelude::*;

use crate::ascii;
use crate::number;

verus! {

/// An IPv4 address, `a.b.c.d`.
#[derive(Clone, Copy, PartialEq, Eq, Structural, Debug)]
pub struct Ipv4Addr {
    pub a: u8,
    pub b: u8,
    pub c: u8,
    pub d: u8,
}

/// An IPv4 address and a port.
#[derive(Clone, Copy, PartialEq, Eq, Structural, Debug)]
pub struct SocketAddrV4 {
    pub ip: Ipv4Addr,
    pub port: u16,
}

/// The four octets in dotted decimal.
pub open spec fn dotted(a: nat, b: nat, c: nat, d: nat) -> Seq<char> {
    number::decimal(a) + (seq!['.'] + (number::decimal(b) + (seq!['.'] + (number::decimal(c) + (
    seq!['.'] + number::decimal(d))))))
}

impl Ipv4Addr {
    /// The dotted decimal form.
    pub open spec fn text(self) -> Seq<char> {
        dotted(self.a as nat, self.b as nat, self.c as nat, self.d as nat)
    }

    /// The address as one number, most significant octet first.
    pub open spec fn bits(self) -> u32 {
        (self.a * 0x100_0000 + self.b * 0x1_0000 + self.c * 0x100 + self.d) as u32
    }

    pub fn new(a: u8, b: u8, c: u8, d: u8) -> (r: Self)
        ensures
            r == (Ipv4Addr { a, b, c, d }),
    {
        Ipv4Addr { a, b, c, d }
    }

    /// The limited broadcast address, 255.255.255.255.
    #[verifier::allow_in_spec]
    pub fn broadcast() -> (r: Self)
        returns
            (Ipv4Addr { a: 255, b: 255, c: 255, d: 255 }),
    {
        Ipv4Addr { a: 255, b: 255, c: 255, d: 255 }
    }

    /// The address that names no host, 0.0.0.0.
    #[verifier::allow_in_spec]
    pub fn unspecified() -> (r: Self)
        returns
            (Ipv4Addr { a: 0, b: 0, c: 0, d: 0 }),
    {
        Ipv4Addr { a: 0, b: 0, c: 0, d: 0 }
    }

    /// Append the dotted decimal form.
    pub fn push_text(&self, out: &mut Vec<char>)
        ensures
            final(out)@ == old(out)@ + self.text(),
    {
        number::push_written(out, self.a as u64, 10);
        out.push('.');
        number::push_written(out, self.b as u64, 10);
        out.push('.');
        number::push_written(out, self.c as u64, 10);
        out.push('.');
        number::push_written(out, self.d as u64, 10);
        assert(out@ =~= old(out)@ + self.text());
    }

    /// The address of a group: 224.0.0.0/4.
    pub fn is_multicast(&self) -> (r: bool)
        ensures
            r == (224 <= self.a <= 239),
    {
        224 <= self.a && self.a <= 239
    }

    /// The limited broadcast address.
    pub fn is_broadcast(&self) -> (r: bool)
        ensures
            r == (*self == Ipv4Addr::broadcast()),
    {
        self.a == 255 && self.b == 255 && self.c == 255 && self.d == 255
    }

    /// The all-zero address.
    pub fn is_unspecified(&self) -> (r: bool)
        ensures
            r == (*self == Ipv4Addr::unspecified()),
    {
        self.a == 0 && self.b == 0 && self.c == 0 && self.d == 0
    }

    /// See [`bits`](Self::bits).
    pub fn to_bits(&self) -> (r: u32)
        ensures
            r == self.bits(),
    {
        self.a as u32 * 0x100_0000 + self.b as u32 * 0x1_0000 + self.c as u32 * 0x100
            + self.d as u32
    }

    /// The address whose number is `bits`.
    pub open spec fn of_bits(bits: u32) -> Ipv4Addr {
        Ipv4Addr {
            a: (bits / 0x100_0000) as u8,
            b: (bits / 0x1_0000 % 0x100) as u8,
            c: (bits / 0x100 % 0x100) as u8,
            d: (bits % 0x100) as u8,
        }
    }

    /// The address whose number is `bits`.
    pub fn from_bits(bits: u32) -> (r: Self)
        ensures
            r == Self::of_bits(bits),
            r.bits() == bits,
    {
        Ipv4Addr {
            a: (bits / 0x100_0000) as u8,
            b: (bits / 0x1_0000 % 0x100) as u8,
            c: (bits / 0x100 % 0x100) as u8,
            d: (bits % 0x100) as u8,
        }
    }
}

/// The address that `s` writes in dotted decimal.
pub open spec fn ipv4(s: Seq<u8>) -> Option<Ipv4Addr> {
    if exists|x: Ipv4Addr| #[trigger] ascii::bytes(x.text()) == s {
        Some(choose|x: Ipv4Addr| #[trigger] ascii::bytes(x.text()) == s)
    } else {
        None
    }
}

impl SocketAddrV4 {
    /// `a.b.c.d:port`.
    pub open spec fn text(self) -> Seq<char> {
        self.ip.text() + seq![':'] + number::decimal(self.port as nat)
    }

    pub fn new(ip: Ipv4Addr, port: u16) -> (r: Self)
        ensures
            r == (SocketAddrV4 { ip, port }),
    {
        SocketAddrV4 { ip, port }
    }

    /// Append `a.b.c.d:port`.
    pub fn push_text(&self, out: &mut Vec<char>)
        ensures
            final(out)@ == old(out)@ + self.text(),
    {
        self.ip.push_text(out);
        out.push(':');
        number::push_written(out, self.port as u64, 10);
        assert(out@ =~= old(out)@ + self.text());
    }
}

/// Decimal digits hold no byte but `0` to `9`.
pub proof fn lemma_decimal_digits(n: nat)
    ensures
        forall|i: int|
            0 <= i < number::decimal(n).len() ==> '0' as u8 <= #[trigger] ascii::bytes(
                number::decimal(n),
            )[i] <= '9' as u8,
    decreases n,
{
    if n >= 10 {
        lemma_decimal_digits(n / 10);
        let w = number::decimal(n / 10);
        assert forall|i: int| 0 <= i < number::decimal(n).len() implies '0' as u8 <= #[trigger] ascii::bytes(
            number::decimal(n),
        )[i] <= '9' as u8 by {
            if i < w.len() {
                assert(ascii::bytes(number::decimal(n))[i] == ascii::bytes(w)[i]);
            } else {
                assert(number::decimal(n)[i] == number::digit_char(n % 10));
            }
        }
    }
}

/// The text of an address holds digits and dots alone, a digit first.
pub proof fn lemma_text_bytes(x: Ipv4Addr)
    ensures
        x.text().len() > 0,
        '0' as u8 <= ascii::bytes(x.text())[0] <= '9' as u8,
        forall|i: int|
            0 <= i < x.text().len() ==> ({
                let b = #[trigger] ascii::bytes(x.text())[i];
                b == '.' as u8 || '0' as u8 <= b <= '9' as u8
            }),
{
    lemma_decimal_digits(x.a as nat);
    lemma_decimal_digits(x.b as nat);
    lemma_decimal_digits(x.c as nat);
    lemma_decimal_digits(x.d as nat);
    number::lemma_written_reads_back(x.a as nat, 10);
    let t = x.text();
    let a = number::decimal(x.a as nat);
    let b = number::decimal(x.b as nat);
    let c = number::decimal(x.c as nat);
    let d = number::decimal(x.d as nat);
    assert forall|i: int| 0 <= i < t.len() implies ({
        let v = #[trigger] ascii::bytes(t)[i];
        v == '.' as u8 || '0' as u8 <= v <= '9' as u8
    }) by {
        let j: int = i - a.len() - 1;
        let k: int = j - b.len() - 1;
        let l: int = k - c.len() - 1;
        if i < a.len() {
            assert(ascii::bytes(t)[i] == ascii::bytes(a)[i]);
        } else if 0 <= j < b.len() {
            assert(ascii::bytes(t)[i] == ascii::bytes(b)[j]);
        } else if 0 <= k < c.len() {
            assert(ascii::bytes(t)[i] == ascii::bytes(c)[k]);
        } else if 0 <= l {
            assert(ascii::bytes(t)[i] == ascii::bytes(d)[l]);
        }
    }
    assert(ascii::bytes(t)[0] == ascii::bytes(a)[0]);
}

/// A decimal number in front of a dot ends at that dot.
proof fn lemma_first_field(n: nat, rest: Seq<char>)
    ensures
        ({
            let s = ascii::bytes(number::decimal(n) + (seq!['.'] + rest));
            let k: int = number::decimal(n).len() as int;
            &&& ascii::first_of(s, '.' as u8) == Some(k)
            &&& s.take(k) == ascii::bytes(number::decimal(n))
            &&& s.skip(k + 1) == ascii::bytes(rest)
        }),
{
    let t = number::decimal(n) + (seq!['.'] + rest);
    let s = ascii::bytes(t);
    let k: int = number::decimal(n).len() as int;
    lemma_decimal_digits(n);
    assert(s[k] == '.' as u8);
    assert forall|i: int| 0 <= i < k implies #[trigger] s[i] != '.' as u8 by {
        assert(s[i] == ascii::bytes(number::decimal(n))[i]);
    }
    ascii::lemma_run_until_is(s, ascii::only('.' as u8), k);
    assert(s.take(k) =~= ascii::bytes(number::decimal(n)));
    assert(s.skip(k + 1) =~= ascii::bytes(rest));
}

/// Two addresses with the same text are the same.
pub proof fn lemma_text_is_unique(x: Ipv4Addr, y: Ipv4Addr)
    requires
        ascii::bytes(x.text()) == ascii::bytes(y.text()),
    ensures
        x == y,
{
    let x3 = number::decimal(x.d as nat);
    let x2 = number::decimal(x.c as nat) + (seq!['.'] + x3);
    let x1 = number::decimal(x.b as nat) + (seq!['.'] + x2);
    let y3 = number::decimal(y.d as nat);
    let y2 = number::decimal(y.c as nat) + (seq!['.'] + y3);
    let y1 = number::decimal(y.b as nat) + (seq!['.'] + y2);
    lemma_first_field(x.a as nat, x1);
    lemma_first_field(y.a as nat, y1);
    lemma_first_field(x.b as nat, x2);
    lemma_first_field(y.b as nat, y2);
    lemma_first_field(x.c as nat, x3);
    lemma_first_field(y.c as nat, y3);
    number::lemma_written_reads_back(x.a as nat, 10);
    number::lemma_written_reads_back(y.a as nat, 10);
    number::lemma_written_reads_back(x.b as nat, 10);
    number::lemma_written_reads_back(y.b as nat, 10);
    number::lemma_written_reads_back(x.c as nat, 10);
    number::lemma_written_reads_back(y.c as nat, 10);
    number::lemma_written_reads_back(x.d as nat, 10);
    number::lemma_written_reads_back(y.d as nat, 10);
}

/// The text of an IPv4 address is read back as that address.
pub proof fn law_ipv4_text_reads_back(x: Ipv4Addr)
    ensures
        ipv4(ascii::bytes(x.text())) == Some(x),
{
    let y = choose|y: Ipv4Addr| #[trigger] ascii::bytes(y.text()) == ascii::bytes(x.text());
    lemma_text_is_unique(x, y);
}

/// The address that `s` writes in dotted decimal: four numbers of at most 255 without leading
/// zeros.
pub fn parse_ipv4(whole: &[u8]) -> (r: Option<Ipv4Addr>)
    ensures
        r == ipv4(whole@),
{
    let s = whole;
    let ghost good = ipv4(s@) is Some;
    let ghost x = ipv4(s@)->0;
    let ghost r3 = number::decimal(x.d as nat);
    let ghost r2 = number::decimal(x.c as nat) + (seq!['.'] + r3);
    let ghost r1 = number::decimal(x.b as nat) + (seq!['.'] + r2);
    proof {
        if good {
            lemma_first_field(x.a as nat, r1);
            number::lemma_written_reads_back(x.a as nat, 10);
        }
    }
    let i: usize = match ascii::find_byte(s, '.' as u8) {
        Some(i) => i,
        None => return None,
    };
    let a: u64 = match number::parse_number(ascii::take(s, i), 10, 255) {
        Some(a) => a,
        None => return None,
    };
    let s = ascii::skip(s, i + 1);
    proof {
        if good {
            lemma_first_field(x.b as nat, r2);
            number::lemma_written_reads_back(x.b as nat, 10);
        }
    }
    let i: usize = match ascii::find_byte(s, '.' as u8) {
        Some(i) => i,
        None => return None,
    };
    let b: u64 = match number::parse_number(ascii::take(s, i), 10, 255) {
        Some(b) => b,
        None => return None,
    };
    let s = ascii::skip(s, i + 1);
    proof {
        if good {
            lemma_first_field(x.c as nat, r3);
            number::lemma_written_reads_back(x.c as nat, 10);
            number::lemma_written_reads_back(x.d as nat, 10);
        }
    }
    let i: usize = match ascii::find_byte(s, '.' as u8) {
        Some(i) => i,
        None => return None,
    };
    let c: u64 = match number::parse_number(ascii::take(s, i), 10, 255) {
        Some(c) => c,
        None => return None,
    };
    let d: u64 = match number::parse_number(ascii::skip(s, i + 1), 10, 255) {
        Some(d) => d,
        None => return None,
    };
    let found = Ipv4Addr { a: a as u8, b: b as u8, c: c as u8, d: d as u8 };
    assert(good ==> found == x);
    let mut text: Vec<char> = Vec::new();
    found.push_text(&mut text);
    assert(text@ =~= found.text());
    if ascii::eq_text(whole, &text) {
        Some(found)
    } else {
        None
    }
}

/// An IPv6 address, as its eight groups.
#[derive(Clone, Copy, PartialEq, Eq, Structural, Debug)]
pub struct Ipv6Addr {
    pub s0: u16,
    pub s1: u16,
    pub s2: u16,
    pub s3: u16,
    pub s4: u16,
    pub s5: u16,
    pub s6: u16,
    pub s7: u16,
}

impl Ipv6Addr {
    /// The groups in order.
    pub open spec fn groups(self) -> Seq<u16> {
        seq![self.s0, self.s1, self.s2, self.s3, self.s4, self.s5, self.s6, self.s7]
    }

    pub fn new(s0: u16, s1: u16, s2: u16, s3: u16, s4: u16, s5: u16, s6: u16, s7: u16) -> (r: Self)
        ensures
            r == (Ipv6Addr { s0, s1, s2, s3, s4, s5, s6, s7 }),
    {
        Ipv6Addr { s0, s1, s2, s3, s4, s5, s6, s7 }
    }

    /// The address of the eight groups.
    pub fn from_groups(g: &Vec<u16>) -> (r: Self)
        requires
            g@.len() == 8,
        ensures
            r.groups() == g@,
    {
        let r = Ipv6Addr {
            s0: g[0],
            s1: g[1],
            s2: g[2],
            s3: g[3],
            s4: g[4],
            s5: g[5],
            s6: g[6],
            s7: g[7],
        };
        assert(r.groups() =~= g@);
        r
    }

    /// The address that names no host, `::`.
    #[verifier::allow_in_spec]
    pub fn unspecified() -> (r: Self)
        returns
            (Ipv6Addr { s0: 0, s1: 0, s2: 0, s3: 0, s4: 0, s5: 0, s6: 0, s7: 0 }),
    {
        Ipv6Addr { s0: 0, s1: 0, s2: 0, s3: 0, s4: 0, s5: 0, s6: 0, s7: 0 }
    }

    /// The loopback address, `::1`.
    #[verifier::allow_in_spec]
    pub fn loopback() -> (r: Self)
        returns
            (Ipv6Addr { s0: 0, s1: 0, s2: 0, s3: 0, s4: 0, s5: 0, s6: 0, s7: 1 }),
    {
        Ipv6Addr { s0: 0, s1: 0, s2: 0, s3: 0, s4: 0, s5: 0, s6: 0, s7: 1 }
    }

    /// The address of a group: ff00::/8.
    #[verifier::allow_in_spec]
    pub fn is_multicast(&self) -> (r: bool)
        returns
            self.s0 >= 0xff00,
    {
        self.s0 >= 0xff00
    }

    /// A unicast address of the link alone: fe80::/10.
    #[verifier::allow_in_spec]
    pub fn is_unicast_link_local(&self) -> (r: bool)
        returns
            0xfe80 <= self.s0 && self.s0 <= 0xfebf,
    {
        0xfe80 <= self.s0 && self.s0 <= 0xfebf
    }

    /// A unique local address: fc00::/7.
    #[verifier::allow_in_spec]
    pub fn is_unique_local(&self) -> (r: bool)
        returns
            0xfc00 <= self.s0 && self.s0 <= 0xfdff,
    {
        0xfc00 <= self.s0 && self.s0 <= 0xfdff
    }
}

/// An address of either family.
#[derive(Clone, Copy, PartialEq, Eq, Structural, Debug)]
pub enum IpAddr {
    V4(Ipv4Addr),
    V6(Ipv6Addr),
}

/// The group that one to four hexadecimal digits write.
pub open spec fn group(s: Seq<u8>) -> Option<u16> {
    if 1 <= s.len() <= 4 {
        match number::digits(s, 16) {
            Some(v) => Some(v as u16),
            None => None,
        }
    } else {
        None
    }
}

/// The groups that the fields of `s` between colons write. With `dotted` the last field may be an
/// IPv4 address in dotted decimal, which stands for two groups.
pub open spec fn group_run(s: Seq<u8>, dotted: bool) -> Option<Seq<u16>>
    decreases s.len(),
{
    match ascii::first_of(s, ':' as u8) {
        Some(i) => if 0 <= i < s.len() {
            match (group(s.take(i)), group_run(s.skip(i + 1), dotted)) {
                (Some(g), Some(rest)) => Some(seq![g] + rest),
                _ => None,
            }
        } else {
            None
        },
        None => match ipv4(s) {
            Some(v4) if dotted => Some(
                seq![(v4.a * 256 + v4.b) as u16, (v4.c * 256 + v4.d) as u16],
            ),
            _ => match group(s) {
                Some(g) => Some(seq![g]),
                None => None,
            },
        },
    }
}

/// The groups on one side of a `::`, which may be none at all.
pub open spec fn side(s: Seq<u8>, dotted: bool) -> Option<Seq<u16>> {
    if s.len() == 0 {
        Some(Seq::empty())
    } else {
        group_run(s, dotted)
    }
}

/// Where the first `::` is.
pub open spec fn gap(s: Seq<u8>) -> Option<int>
    decreases s.len(),
{
    if s.len() < 2 {
        None
    } else if s[0] == ':' as u8 && s[1] == ':' as u8 {
        Some(0)
    } else {
        match gap(s.skip(1)) {
            Some(i) => Some(i + 1),
            None => None,
        }
    }
}

/// The groups of the address that `s` writes: eight of them between colons, or fewer around one
/// `::` that stands for at least one group of zero.
pub open spec fn ipv6(s: Seq<u8>) -> Option<Seq<u16>> {
    match gap(s) {
        None => match group_run(s, true) {
            Some(g) if g.len() == 8 => Some(g),
            _ => None,
        },
        Some(k) => match (side(s.take(k), false), side(s.skip(k + 2), true)) {
            (Some(head), Some(tail)) if head.len() + tail.len() <= 7 => Some(
                head + Seq::new((8 - head.len() - tail.len()) as nat, |i: int| 0u16) + tail,
            ),
            _ => None,
        },
    }
}

/// See [`group`].
fn parse_group(s: &[u8]) -> (r: Option<u16>)
    ensures
        r == group(s@),
{
    if s.len() < 1 || s.len() > 4 {
        return None;
    }
    match number::parse_number(s, 16, 0xffff) {
        Some(v) => Some(v as u16),
        None => {
            proof {
                lemma_short_hex(s@);
            }
            None
        },
    }
}

/// Hexadecimal digits write less than the power of sixteen that has one digit more.
proof fn lemma_short_hex(s: Seq<u8>)
    ensures
        s.len() <= 4 && number::digits(s, 16) is Some ==> number::digits(s, 16)->0 <= 0xffff,
{
    reveal_with_fuel(number::digits, 5);
}

/// Append the groups of `s` to `out`; false where it writes none. See [`group_run`].
fn parse_group_run(s: &[u8], dotted: bool, out: &mut Vec<u16>) -> (r: bool)
    ensures
        match group_run(s@, dotted) {
            Some(g) => r && final(out)@ == old(out)@ + g,
            None => !r,
        },
    decreases s@.len(),
{
    match ascii::find_byte(s, ':' as u8) {
        Some(i) => match parse_group(ascii::take(s, i)) {
            Some(g) => {
                out.push(g);
                let r = parse_group_run(ascii::skip(s, i + 1), dotted, out);
                proof {
                    if group_run(s@.skip(i + 1), dotted) is Some {
                        let rest = group_run(s@.skip(i + 1), dotted)->0;
                        assert(old(out)@.push(g) + rest =~= old(out)@ + (seq![g] + rest));
                    }
                }
                r
            },
            None => false,
        },
        None => {
            if dotted {
                match parse_ipv4(s) {
                    Some(v4) => {
                        out.push(v4.a as u16 * 256 + v4.b as u16);
                        out.push(v4.c as u16 * 256 + v4.d as u16);
                        assert(out@ =~= old(out)@ + group_run(s@, dotted)->0);
                        return true;
                    },
                    None => {},
                }
            }
            match parse_group(s) {
                Some(g) => {
                    out.push(g);
                    assert(out@ =~= old(out)@ + group_run(s@, dotted)->0);
                    true
                },
                None => false,
            }
        },
    }
}

/// See [`side`].
fn parse_side(s: &[u8], dotted: bool) -> (r: Option<Vec<u16>>)
    ensures
        match r {
            Some(g) => side(s@, dotted) == Some(g@),
            None => side(s@, dotted) is None,
        },
{
    let mut out: Vec<u16> = Vec::new();
    if s.len() == 0 {
        assert(out@ =~= Seq::<u16>::empty());
        return Some(out);
    }
    if parse_group_run(s, dotted, &mut out) {
        assert(out@ =~= group_run(s@, dotted)->0);
        Some(out)
    } else {
        None
    }
}

/// See [`gap`].
fn find_gap(s: &[u8]) -> (r: Option<usize>)
    ensures
        match r {
            Some(i) => gap(s@) == Some(i as int) && i + 2 <= s@.len() <= usize::MAX,
            None => gap(s@) is None,
        },
{
    let mut i: usize = 0;
    assert(s@.skip(0) =~= s@);
    while s.len() - i >= 2
        invariant
            i <= s@.len(),
            match gap(s@.skip(i as int)) {
                Some(k) => gap(s@) == Some(k + i),
                None => gap(s@) is None,
            },
        decreases s@.len() - i,
    {
        if s[i] == ':' as u8 && s[i + 1] == ':' as u8 {
            return Some(i);
        }
        assert(s@.skip(i as int).skip(1) =~= s@.skip(i + 1));
        i += 1;
    }
    None
}

/// The IPv6 address that `s` writes.
pub fn parse_ipv6(s: &[u8]) -> (r: Option<Ipv6Addr>)
    ensures
        match r {
            Some(x) => ipv6(s@) == Some(x.groups()),
            None => ipv6(s@) is None,
        },
{
    match find_gap(s) {
        None => {
            let mut out: Vec<u16> = Vec::new();
            let read = parse_group_run(s, true, &mut out);
            if read {
                assert(out@ =~= group_run(s@, true)->0);
            }
            if read && out.len() == 8 {
                Some(Ipv6Addr::from_groups(&out))
            } else {
                None
            }
        },
        Some(k) => match (parse_side(ascii::take(s, k), false), parse_side(ascii::skip(s, k + 2), true)) {
            (Some(head), Some(tail)) => {
                if head.len() > 7 || tail.len() > 7 - head.len() {
                    return None;
                }
                let zeros: usize = 8 - head.len() - tail.len();
                let mut out: Vec<u16> = Vec::new();
                let mut i: usize = 0;
                while i < head.len()
                    invariant
                        i <= head@.len(),
                        out@ == head@.take(i as int),
                    decreases head@.len() - i,
                {
                    out.push(head[i]);
                    i += 1;
                    assert(out@ =~= head@.take(i as int));
                }
                i = 0;
                while i < zeros
                    invariant
                        i <= zeros,
                        out@ == head@ + Seq::new(i as nat, |j: int| 0u16),
                    decreases zeros - i,
                {
                    out.push(0);
                    i += 1;
                    assert(out@ =~= head@ + Seq::new(i as nat, |j: int| 0u16));
                }
                i = 0;
                let ghost front = out@;
                while i < tail.len()
                    invariant
                        i <= tail@.len(),
                        out@ == front + tail@.take(i as int),
                    decreases tail@.len() - i,
                {
                    out.push(tail[i]);
                    i += 1;
                    assert(out@ =~= front + tail@.take(i as int));
                }
                assert(tail@.take(i as int) =~= tail@);
                assert(out@ =~= ipv6(s@)->0);
                Some(Ipv6Addr::from_groups(&out))
            },
            _ => None,
        },
    }
}

/// The address of either family that `s` writes.
pub open spec fn ip(s: Seq<u8>) -> Option<IpAddr> {
    match ipv4(s) {
        Some(v4) => Some(IpAddr::V4(v4)),
        None => match ipv6(s) {
            Some(g) => Some(
                IpAddr::V6(
                    Ipv6Addr {
                        s0: g[0],
                        s1: g[1],
                        s2: g[2],
                        s3: g[3],
                        s4: g[4],
                        s5: g[5],
                        s6: g[6],
                        s7: g[7],
                    },
                ),
            ),
            None => None,
        },
    }
}

/// See [`ip`].
pub fn parse_ip(s: &[u8]) -> (r: Option<IpAddr>)
    ensures
        r == ip(s@),
{
    match parse_ipv4(s) {
        Some(v4) => Some(IpAddr::V4(v4)),
        None => match parse_ipv6(s) {
            Some(v6) => {
                let ghost g = v6.groups();
                assert(v6.s0 == g[0] && v6.s1 == g[1] && v6.s2 == g[2] && v6.s3 == g[3]);
                assert(v6.s4 == g[4] && v6.s5 == g[5] && v6.s6 == g[6] && v6.s7 == g[7]);
                Some(IpAddr::V6(v6))
            },
            None => None,
        },
    }
}

/// Two bytes as a number, most significant first.
pub open spec fn be16(s: Seq<u8>, at: int) -> int {
    s[at] * 256 + s[at + 1]
}

/// The IPv4 address whose octets are at `at`.
pub open spec fn ipv4_at(s: Seq<u8>, at: int) -> Ipv4Addr {
    Ipv4Addr { a: s[at], b: s[at + 1], c: s[at + 2], d: s[at + 3] }
}

/// The IPv6 address whose octets are at `at`.
pub open spec fn ipv6_at(s: Seq<u8>, at: int) -> Ipv6Addr {
    Ipv6Addr {
        s0: be16(s, at) as u16,
        s1: be16(s, at + 2) as u16,
        s2: be16(s, at + 4) as u16,
        s3: be16(s, at + 6) as u16,
        s4: be16(s, at + 8) as u16,
        s5: be16(s, at + 10) as u16,
        s6: be16(s, at + 12) as u16,
        s7: be16(s, at + 14) as u16,
    }
}

/// Two bytes at `at`, most significant first.
pub fn read16(s: &[u8], at: usize) -> (r: u16)
    requires
        at + 2 <= s@.len(),
    ensures
        r == be16(s@, at as int),
{
    s[at] as u16 * 256 + s[at + 1] as u16
}

/// The address at `at`.
pub fn read_ipv4(s: &[u8], at: usize) -> (r: Ipv4Addr)
    requires
        at + 4 <= s@.len(),
    ensures
        r == ipv4_at(s@, at as int),
{
    Ipv4Addr { a: s[at], b: s[at + 1], c: s[at + 2], d: s[at + 3] }
}

/// The address at `at`.
pub fn read_ipv6(s: &[u8], at: usize) -> (r: Ipv6Addr)
    requires
        at + 16 <= s@.len(),
    ensures
        r == ipv6_at(s@, at as int),
{
    assert(s.len() == s@.len());
    Ipv6Addr {
        s0: read16(s, at),
        s1: read16(s, at + 2),
        s2: read16(s, at + 4),
        s3: read16(s, at + 6),
        s4: read16(s, at + 8),
        s5: read16(s, at + 10),
        s6: read16(s, at + 12),
        s7: read16(s, at + 14),
    }
}

} // verus!
