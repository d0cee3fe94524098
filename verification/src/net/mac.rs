//! MAC addresses and sets of them.

use vstd::prelude::*;

use crate::ascii;
use crate::net::http::framing::messages;
use crate::number;
use crate::unique_list::{ListItem, ListRule, UniqueList};

verus! {

/// A 48-bit link-layer address, octet by octet.
#[derive(Clone, Copy, PartialEq, Eq, Structural, Debug)]
pub struct MacAddr {
    pub o0: u8,
    pub o1: u8,
    pub o2: u8,
    pub o3: u8,
    pub o4: u8,
    pub o5: u8,
}

/// Two hexadecimal digits, small letters.
pub open spec fn hex_pair(n: u8) -> Seq<char> {
    seq![number::digit_char((n / 16) as nat), number::digit_char((n % 16) as nat)]
}

/// The octet that two hexadecimal digits at `i` write.
pub open spec fn octet(s: Seq<u8>, i: int) -> Option<u8> {
    match (number::digit(s[i], 16), number::digit(s[i + 1], 16)) {
        (Some(high), Some(low)) => Some((16 * high + low) as u8),
        _ => None,
    }
}

/// The address that `s` writes: six pairs of hexadecimal digits with colons between.
pub open spec fn mac(s: Seq<u8>) -> Option<MacAddr> {
    let colon = ':' as u8;
    if s.len() == 17 && s[2] == colon && s[5] == colon && s[8] == colon && s[11] == colon && s[14]
        == colon {
        match (
            octet(s, 0),
            octet(s, 3),
            octet(s, 6),
            octet(s, 9),
            octet(s, 12),
            octet(s, 15),
        ) {
            (Some(o0), Some(o1), Some(o2), Some(o3), Some(o4), Some(o5)) => Some(
                MacAddr { o0, o1, o2, o3, o4, o5 },
            ),
            _ => None,
        }
    } else {
        None
    }
}

impl MacAddr {
    /// The octets in order.
    pub open spec fn octets(self) -> Seq<u8> {
        seq![self.o0, self.o1, self.o2, self.o3, self.o4, self.o5]
    }

    /// `aa:bb:cc:dd:ee:ff`.
    pub open spec fn text(self) -> Seq<char> {
        hex_pair(self.o0) + seq![':'] + hex_pair(self.o1) + seq![':'] + hex_pair(self.o2)
            + seq![':'] + hex_pair(self.o3) + seq![':'] + hex_pair(self.o4) + seq![':'] + hex_pair(
            self.o5,
        )
    }

    /// The address that every station receives.
    #[verifier::allow_in_spec]
    pub fn broadcast() -> (r: Self)
        returns
            (MacAddr { o0: 255, o1: 255, o2: 255, o3: 255, o4: 255, o5: 255 }),
    {
        MacAddr { o0: 255, o1: 255, o2: 255, o3: 255, o4: 255, o5: 255 }
    }

    /// The all-zero address.
    #[verifier::allow_in_spec]
    pub fn is_unspecified(self) -> (r: bool)
        returns
            self == (MacAddr { o0: 0, o1: 0, o2: 0, o3: 0, o4: 0, o5: 0 }),
    {
        self.o0 == 0 && self.o1 == 0 && self.o2 == 0 && self.o3 == 0 && self.o4 == 0 && self.o5 == 0
    }

    /// Append `aa:bb:cc:dd:ee:ff`.
    pub fn push_text(&self, out: &mut Vec<char>)
        ensures
            final(out)@ == old(out)@ + self.text(),
    {
        push_hex_pair(out, self.o0);
        out.push(':');
        push_hex_pair(out, self.o1);
        out.push(':');
        push_hex_pair(out, self.o2);
        out.push(':');
        push_hex_pair(out, self.o3);
        out.push(':');
        push_hex_pair(out, self.o4);
        out.push(':');
        push_hex_pair(out, self.o5);
        assert(out@ =~= old(out)@ + self.text());
    }
}

impl From<[u8; 6]> for MacAddr {
    fn from(o: [u8; 6]) -> (r: Self) {
        MacAddr { o0: o[0], o1: o[1], o2: o[2], o3: o[3], o4: o[4], o5: o[5] }
    }
}

impl vstd::std_specs::convert::FromSpecImpl<[u8; 6]> for MacAddr {
    open spec fn obeys_from_spec() -> bool {
        true
    }

    open spec fn from_spec(o: [u8; 6]) -> Self {
        MacAddr { o0: o@[0], o1: o@[1], o2: o@[2], o3: o@[3], o4: o@[4], o5: o@[5] }
    }
}

/// Append the two hexadecimal digits of `n`.
fn push_hex_pair(out: &mut Vec<char>, n: u8)
    ensures
        final(out)@ == old(out)@ + hex_pair(n),
{
    out.push(number::digit_of((n / 16) as u64));
    out.push(number::digit_of((n % 16) as u64));
    assert(out@ =~= old(out)@ + hex_pair(n));
}

/// The octet that two hexadecimal digits at `i` write.
fn read_octet(s: &[u8], i: usize) -> (r: Option<u8>)
    requires
        i + 1 < s@.len(),
    ensures
        r == octet(s@, i as int),
{
    match (number::digit_value(s[i], 16), number::digit_value(s[i + 1], 16)) {
        (Some(high), Some(low)) => Some((16 * high + low) as u8),
        _ => None,
    }
}

/// The address that `s` writes.
pub fn parse_mac(s: &[u8]) -> (r: Option<MacAddr>)
    ensures
        r == mac(s@),
{
    let colon: u8 = ':' as u8;
    if s.len() != 17 || s[2] != colon || s[5] != colon || s[8] != colon || s[11] != colon || s[14]
        != colon {
        return None;
    }
    match (
        read_octet(s, 0),
        read_octet(s, 3),
        read_octet(s, 6),
        read_octet(s, 9),
        read_octet(s, 12),
        read_octet(s, 15),
    ) {
        (Some(o0), Some(o1), Some(o2), Some(o3), Some(o4), Some(o5)) => Some(
            MacAddr { o0, o1, o2, o3, o4, o5 },
        ),
        _ => None,
    }
}

/// Two hexadecimal digits at `i` write their octet.
proof fn lemma_pair_at(s: Seq<char>, i: int, n: u8)
    requires
        0 <= i,
        i + 1 < s.len(),
        s[i] == hex_pair(n)[0],
        s[i + 1] == hex_pair(n)[1],
    ensures
        octet(ascii::bytes(s), i) == Some(n),
{
    number::lemma_digit_of_char((n / 16) as nat, 16);
    number::lemma_digit_of_char((n % 16) as nat, 16);
}

/// The text of a MAC address is read back as that address.
pub proof fn law_mac_text_reads_back(x: MacAddr)
    ensures
        mac(ascii::bytes(x.text())) == Some(x),
{
    let t = x.text();
    assert(t =~= seq![
        hex_pair(x.o0)[0], hex_pair(x.o0)[1], ':',
        hex_pair(x.o1)[0], hex_pair(x.o1)[1], ':',
        hex_pair(x.o2)[0], hex_pair(x.o2)[1], ':',
        hex_pair(x.o3)[0], hex_pair(x.o3)[1], ':',
        hex_pair(x.o4)[0], hex_pair(x.o4)[1], ':',
        hex_pair(x.o5)[0], hex_pair(x.o5)[1]
    ]);
    lemma_pair_at(t, 0, x.o0);
    lemma_pair_at(t, 3, x.o1);
    lemma_pair_at(t, 6, x.o2);
    lemma_pair_at(t, 9, x.o3);
    lemma_pair_at(t, 12, x.o4);
    lemma_pair_at(t, 15, x.o5);
}

impl ListItem for MacAddr {
    open spec fn reads(s: Seq<u8>) -> Option<Self> {
        mac(s)
    }

    open spec fn item_text(self) -> Seq<char> {
        self.text()
    }

    fn read(s: &[u8]) -> (r: Option<Self>) {
        parse_mac(s)
    }

    fn same(&self, other: &Self) -> (r: bool) {
        *self == *other
    }

    fn push_item(&self, out: &mut Vec<char>) {
        self.push_text(out)
    }
}

/// The rule for [`MacSet`]: any address.
#[derive(Clone, Copy, PartialEq, Eq, Debug)]
pub struct Macs;

impl ListRule for Macs {
    type Item = MacAddr;

    open spec fn noun() -> Seq<char> {
        "MAC address"@
    }

    open spec fn refusal(item: MacAddr) -> Option<Seq<char>> {
        None
    }

    fn noun_text() -> (r: &'static str) {
        "MAC address"
    }

    fn refuse(item: &MacAddr) -> (r: Option<&'static str>) {
        None
    }
}

/// A non-empty, duplicate-free list of MAC addresses.
pub type MacSet = UniqueList<Macs>;

/// Six pairs of hexadecimal digits of either case with colons between are the address of those octets.
pub proof fn law_six_pairs_are_an_address(s: Seq<u8>)
    requires
        s.len() == 17,
        s[2] == 58 && s[5] == 58 && s[8] == 58 && s[11] == 58 && s[14] == 58,
        forall|i: int| 0 <= i < 17 && i % 3 != 2 ==> messages::digit(#[trigger] s[i]) < 16,
    ensures
        mac(s) is Some,
        forall|k: int|
            0 <= k < 6 ==> #[trigger] (mac(s)->0).octets()[k] == 16 * messages::digit(s[3 * k])
                + messages::digit(s[3 * k + 1]),
{
    assert(messages::digit(s[0]) < 16 && messages::digit(s[1]) < 16 && messages::digit(s[3]) < 16
        && messages::digit(s[4]) < 16 && messages::digit(s[6]) < 16 && messages::digit(s[7]) < 16
        && messages::digit(s[9]) < 16 && messages::digit(s[10]) < 16 && messages::digit(s[12]) < 16
        && messages::digit(s[13]) < 16 && messages::digit(s[15]) < 16 && messages::digit(s[16])
        < 16);
    let o = (mac(s)->0).octets();
    assert forall|k: int| 0 <= k < 6 implies #[trigger] o[k] == 16 * messages::digit(s[3 * k])
        + messages::digit(s[3 * k + 1]) by {
        assert(k == 0 || k == 1 || k == 2 || k == 3 || k == 4 || k == 5);
    }
}

/// What is of another length, has something else than a colon between its pairs, or no digit in them, is
/// no address.
pub proof fn law_what_is_no_address(s: Seq<u8>)
    ensures
        s.len() != 17 ==> mac(s) is None,
        s.len() == 17 && !(s[2] == 58 && s[5] == 58 && s[8] == 58 && s[11] == 58 && s[14] == 58)
            ==> mac(s) is None,
        s.len() == 17 && (messages::digit(s[0]) == 16 || messages::digit(s[16]) == 16) ==> mac(s)
            is None,
{
}

} // verus!
