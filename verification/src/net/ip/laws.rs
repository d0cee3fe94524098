//! What the text of an IPv6 address says, over the groups that it writes.

use vstd::prelude::*;

use crate::ascii;
use crate::net;
use crate::net::http::framing::messages;
use crate::net::ip;
use crate::net::ip::display;
use crate::net::ip::{Ipv4Addr, Ipv6Addr};
use crate::number;

verus! {

/// A group as it is written: one to four hexadecimal digits.
pub open spec fn is_group(f: Seq<u8>) -> bool {
    f.len() <= 4 && messages::is_numeral(f, 16)
}

/// Each of them is a group.
pub open spec fn are_groups(fs: Seq<Seq<u8>>) -> bool {
    forall|i: int| 0 <= i < fs.len() ==> is_group(#[trigger] fs[i])
}

/// The number of a group.
pub open spec fn value(f: Seq<u8>) -> u16 {
    (messages::numeral(f, 16) as nat) as u16
}

/// The numbers of groups.
pub open spec fn values(fs: Seq<Seq<u8>>) -> Seq<u16> {
    Seq::new(fs.len(), |i: int| value(fs[i]))
}

/// Groups with colons between.
pub open spec fn colons(fs: Seq<Seq<u8>>) -> Seq<u8>
    decreases fs.len(),
{
    if fs.len() == 0 {
        Seq::empty()
    } else if fs.len() == 1 {
        fs[0]
    } else {
        fs[0] + seq![58u8] + colons(fs.skip(1))
    }
}

/// `n` groups of zero.
pub open spec fn zero_groups(n: int) -> Seq<u16> {
    Seq::new(n as nat, |i: int| 0u16)
}

/// The two groups that an IPv4 address stands for.
pub open spec fn halves(v4: Ipv4Addr) -> Seq<u16> {
    seq![(v4.a * 256 + v4.b) as u16, (v4.c * 256 + v4.d) as u16]
}

/// The text starts and ends with something else than a colon, and has no two in a row.
spec fn is_spaced(s: Seq<u8>) -> bool {
    &&& s.len() > 0
    &&& s[0] != 58
    &&& s.last() != 58
    &&& forall|i: int| 0 <= i < s.len() - 1 ==> !(#[trigger] s[i] == 58 && s[i + 1] == 58)
}

proof fn lemma_group(f: Seq<u8>)
    requires
        is_group(f),
    ensures
        ip::group(f) == Some(value(f)),
        is_spaced(f),
        forall|i: int| 0 <= i < f.len() ==> #[trigger] f[i] != 58 && f[i] != 46,
{
    messages::lemma_digits(f, 16);
    assert forall|i: int| 0 <= i < f.len() implies #[trigger] f[i] != 58 && f[i] != 46 by {
        assert(messages::digit(f[i]) < 16);
    }
    assert(f.last() == f[f.len() - 1]);
}

proof fn lemma_skip_groups(fs: Seq<Seq<u8>>)
    requires
        are_groups(fs),
        fs.len() > 0,
    ensures
        are_groups(fs.skip(1)),
        is_group(fs[0]),
        values(fs) == seq![value(fs[0])] + values(fs.skip(1)),
{
    let t = fs.skip(1);
    assert forall|i: int| 0 <= i < t.len() implies is_group(#[trigger] t[i]) by {
        assert(t[i] == fs[i + 1]);
    }
    assert(values(fs) =~= seq![value(fs[0])] + values(t));
}

proof fn lemma_spaced(fs: Seq<Seq<u8>>)
    requires
        are_groups(fs),
        fs.len() > 0,
    ensures
        is_spaced(colons(fs)),
    decreases fs.len(),
{
    lemma_skip_groups(fs);
    lemma_group(fs[0]);
    if fs.len() > 1 {
        let t = fs.skip(1);
        lemma_spaced(t);
        let s = colons(fs);
        let n: int = fs[0].len() as int;
        assert(s.last() == colons(t).last());
        assert forall|i: int| 0 <= i < s.len() - 1 implies !(#[trigger] s[i] == 58 && s[i + 1]
            == 58) by {
            if i < n {
                assert(s[i] == fs[0][i]);
            } else if i == n {
                assert(s[i + 1] == colons(t)[0]);
            } else {
                assert(s[i] == colons(t)[i - n - 1]);
                assert(s[i + 1] == colons(t)[i - n]);
            }
        }
    }
}

proof fn lemma_has_a_dot(s: Seq<u8>)
    requires
        ip::ipv4(s) is Some,
    ensures
        exists|i: int| 0 <= i < s.len() && #[trigger] s[i] == 46,
{
    let x: Ipv4Addr = choose|x: Ipv4Addr| #[trigger] ascii::bytes(x.text()) == s;
    let n: int = number::decimal(x.a as nat).len() as int;
    assert(x.text()[n] == '.');
    assert(s[n] == 46);
}

proof fn lemma_first_colon(front: Seq<u8>, rest: Seq<u8>)
    requires
        forall|i: int| 0 <= i < front.len() ==> #[trigger] front[i] != 58,
    ensures
        ascii::first_of(front, 58) is None,
        ascii::first_of(front + seq![58u8] + rest, 58) == Some(front.len() as int),
        (front + seq![58u8] + rest).take(front.len() as int) == front,
        (front + seq![58u8] + rest).skip(front.len() as int + 1) == rest,
{
    let s = front + seq![58u8] + rest;
    ascii::lemma_run_until_is(front, ascii::only(58), front.len() as int);
    assert forall|i: int| 0 <= i < front.len() implies #[trigger] s[i] != 58 by {
        assert(s[i] == front[i]);
    }
    ascii::lemma_run_until_is(s, ascii::only(58), front.len() as int);
    assert(s.take(front.len() as int) =~= front);
    assert(s.skip(front.len() as int + 1) =~= rest);
}

proof fn lemma_run(fs: Seq<Seq<u8>>, dotted: bool)
    requires
        are_groups(fs),
        fs.len() > 0,
    ensures
        ip::group_run(colons(fs), dotted) == Some(values(fs)),
    decreases fs.len(),
{
    lemma_skip_groups(fs);
    lemma_group(fs[0]);
    let t = fs.skip(1);
    lemma_first_colon(fs[0], colons(t));
    if fs.len() == 1 {
        if ip::ipv4(fs[0]) is Some {
            lemma_has_a_dot(fs[0]);
        }
        assert(values(fs) =~= seq![value(fs[0])]);
    } else {
        lemma_run(t, dotted);
    }
}

/// Groups, a colon and an IPv4 address.
pub open spec fn dotted_end(fs: Seq<Seq<u8>>, v4: Ipv4Addr) -> Seq<u8> {
    colons(fs) + seq![58u8] + ascii::bytes(v4.text())
}

proof fn lemma_dotted_run(fs: Seq<Seq<u8>>, v4: Ipv4Addr)
    requires
        are_groups(fs),
        fs.len() > 0,
    ensures
        ip::group_run(dotted_end(fs, v4), true) == Some(values(fs) + halves(v4)),
{
    let text = ascii::bytes(v4.text());
    lemma_dotted(v4);
    lemma_run_before(fs, text, v4);
}

/// The text of an IPv4 address is one field.
proof fn lemma_dotted(v4: Ipv4Addr)
    ensures
        ip::ipv4(ascii::bytes(v4.text())) == Some(v4),
        forall|i: int|
            0 <= i < ascii::bytes(v4.text()).len() ==> #[trigger] ascii::bytes(v4.text())[i] != 58,
        ascii::bytes(v4.text()).len() > 0,
{
    ip::lemma_text_bytes(v4);
    ip::law_ipv4_text_reads_back(v4);
}

proof fn lemma_run_before(fs: Seq<Seq<u8>>, text: Seq<u8>, v4: Ipv4Addr)
    requires
        are_groups(fs),
        fs.len() > 0,
        ip::ipv4(text) == Some(v4),
        forall|i: int| 0 <= i < text.len() ==> #[trigger] text[i] != 58,
    ensures
        ip::group_run(colons(fs) + seq![58u8] + text, true) == Some(values(fs) + halves(v4)),
    decreases fs.len(),
{
    lemma_skip_groups(fs);
    lemma_group(fs[0]);
    let t = fs.skip(1);
    lemma_first_colon(text, Seq::empty());
    assert(ip::group_run(text, true) == Some(halves(v4)));
    if fs.len() == 1 {
        lemma_first_colon(fs[0], text);
        assert(values(fs) =~= seq![value(fs[0])]);
    } else {
        let rest = colons(t) + seq![58u8] + text;
        assert(colons(fs) + seq![58u8] + text =~= fs[0] + seq![58u8] + rest);
        lemma_first_colon(fs[0], rest);
        lemma_run_before(t, text, v4);
        assert(seq![value(fs[0])] + (values(t) + halves(v4)) =~= values(fs) + halves(v4));
    }
}

proof fn lemma_no_gap(s: Seq<u8>)
    requires
        forall|i: int| 0 <= i < s.len() - 1 ==> !(#[trigger] s[i] == 58 && s[i + 1] == 58),
    ensures
        ip::gap(s) is None,
    decreases s.len(),
{
    if s.len() >= 2 {
        let t = s.skip(1);
        assert(!(s[0] == 58 && s[1] == 58));
        assert forall|i: int| 0 <= i < t.len() - 1 implies !(#[trigger] t[i] == 58 && t[i + 1]
            == 58) by {
            assert(t[i] == s[i + 1]);
            assert(t[i + 1] == s[i + 2]);
        }
        lemma_no_gap(t);
    }
}

proof fn lemma_gap(front: Seq<u8>, rest: Seq<u8>)
    requires
        front.len() == 0 || is_spaced(front),
    ensures
        ip::gap(front + seq![58u8, 58u8] + rest) == Some(front.len() as int),
{
    let s = front + seq![58u8, 58u8] + rest;
    assert(s.take(front.len() as int) =~= front);
    lemma_gap_at(s, front.len() as int, front);
}

proof fn lemma_gap_at(s: Seq<u8>, n: int, front: Seq<u8>)
    requires
        0 <= n < s.len() - 1,
        s[n] == 58 && s[n + 1] == 58,
        n == front.len(),
        s.take(n) == front,
        n > 0 ==> front.last() != 58,
        forall|i: int| 0 <= i < n - 1 ==> !(#[trigger] front[i] == 58 && front[i + 1] == 58),
    ensures
        ip::gap(s) == Some(n),
    decreases n,
{
    if n > 0 {
        let t = s.skip(1);
        let rest = front.skip(1);
        assert(s[0] == s.take(n)[0]);
        if n > 1 {
            assert(s[1] == s.take(n)[1]);
            assert(!(front[0] == 58 && front[1] == 58));
            assert(rest.last() == front.last());
        } else {
            assert(front.last() == front[0]);
        }
        assert(t.take(n - 1) =~= rest);
        assert forall|i: int| 0 <= i < n - 2 implies !(#[trigger] rest[i] == 58 && rest[i + 1]
            == 58) by {
            assert(rest[i] == front[i + 1]);
            assert(rest[i + 1] == front[i + 2]);
        }
        lemma_gap_at(t, n - 1, rest);
    }
}

/// Eight groups between colons are the address of those groups, and fewer or more are none; so are six
/// groups and an IPv4 address, which stands for the last two.
pub proof fn law_eight_groups_are_an_address(fs: Seq<Seq<u8>>, v4: Ipv4Addr)
    requires
        are_groups(fs),
        fs.len() > 0,
    ensures
        fs.len() == 8 ==> ip::ipv6(colons(fs)) == Some(values(fs)),
        fs.len() != 8 ==> ip::ipv6(colons(fs)) is None,
        fs.len() == 6 ==> ip::ipv6(dotted_end(fs, v4)) == Some(values(fs) + halves(v4)),
        fs.len() != 6 ==> ip::ipv6(dotted_end(fs, v4)) is None,
{
    lemma_spaced(fs);
    lemma_no_gap(colons(fs));
    lemma_run(fs, true);
    let s = dotted_end(fs, v4);
    let front = colons(fs);
    let text = ascii::bytes(v4.text());
    lemma_dotted(v4);
    assert forall|i: int| 0 <= i < s.len() - 1 implies !(#[trigger] s[i] == 58 && s[i + 1]
        == 58) by {
        if i < front.len() {
            assert(s[i] == front[i]);
            if i + 1 < front.len() {
                assert(s[i + 1] == front[i + 1]);
            }
        } else if i == front.len() {
            assert(s[i + 1] == text[0]);
        } else {
            assert(s[i] == text[i - front.len() - 1]);
        }
    }
    lemma_no_gap(s);
    lemma_dotted_run(fs, v4);
}

/// A double colon stands for as many groups of zero as are missing, at least one.
pub proof fn law_a_double_colon_stands_for_zeros(a: Seq<Seq<u8>>, b: Seq<Seq<u8>>, v4: Ipv4Addr)
    requires
        are_groups(a),
        are_groups(b),
    ensures
        ({
            let s = colons(a) + seq![58u8, 58u8] + colons(b);
            &&& a.len() + b.len() <= 7 ==> ip::ipv6(s) == Some(
                values(a) + zero_groups(8 - a.len() - b.len()) + values(b),
            )
            &&& a.len() + b.len() > 7 ==> ip::ipv6(s) is None
        }),
        b.len() > 0 ==> {
            let s = colons(a) + seq![58u8, 58u8] + dotted_end(b, v4);
            &&& a.len() + b.len() <= 5 ==> ip::ipv6(s) == Some(
                values(a) + zero_groups(6 - a.len() - b.len()) + (values(b) + halves(v4)),
            )
            &&& a.len() + b.len() > 5 ==> ip::ipv6(s) is None
        },
{
    lemma_double_colon(a, colons(b));
    lemma_double_colon(a, dotted_end(b, v4));
    lemma_side(b, true);
    if b.len() > 0 {
        lemma_dotted_run(b, v4);
        let tail = values(b) + halves(v4);
        if a.len() + b.len() <= 5 {
            assert(zero_groups(8 - a.len() - tail.len()) =~= zero_groups(6 - a.len() - b.len()));
        }
    }
}

proof fn lemma_side(fs: Seq<Seq<u8>>, dotted: bool)
    requires
        are_groups(fs),
    ensures
        ip::side(colons(fs), dotted) == Some(values(fs)),
{
    if fs.len() == 0 {
        assert(values(fs) =~= Seq::empty());
    } else {
        lemma_spaced(fs);
        lemma_run(fs, dotted);
    }
}

proof fn lemma_double_colon(a: Seq<Seq<u8>>, rest: Seq<u8>)
    requires
        are_groups(a),
    ensures
        ({
            let s = colons(a) + seq![58u8, 58u8] + rest;
            ip::ipv6(s) == match ip::side(rest, true) {
                Some(tail) if a.len() + tail.len() <= 7 => Some(
                    values(a) + zero_groups(8 - a.len() - tail.len()) + tail,
                ),
                _ => None,
            }
        }),
{
    let front = colons(a);
    let s = front + seq![58u8, 58u8] + rest;
    if a.len() > 0 {
        lemma_spaced(a);
    }
    lemma_gap(front, rest);
    lemma_side(a, false);
    assert(s.take(front.len() as int) =~= front);
    assert(s.skip(front.len() as int + 2) =~= rest);
}

/// The groups of an address as they are shown.
pub open spec fn shown(g: Seq<u16>) -> Seq<Seq<u8>> {
    Seq::new(g.len(), |i: int| ascii::bytes(number::hexadecimal(g[i] as nat)))
}

proof fn lemma_hex_len(n: nat)
    ensures
        n < 16 ==> number::hexadecimal(n).len() == 1,
        n < 256 ==> number::hexadecimal(n).len() <= 2,
        n < 4096 ==> number::hexadecimal(n).len() <= 3,
        n < 65536 ==> number::hexadecimal(n).len() <= 4,
    decreases n,
{
    if n >= 16 {
        lemma_hex_len(n / 16);
    }
}

proof fn lemma_shown(g: Seq<u16>)
    ensures
        are_groups(shown(g)),
        values(shown(g)) == g,
{
    let fs = shown(g);
    assert forall|i: int| 0 <= i < fs.len() implies is_group(#[trigger] fs[i]) && value(fs[i])
        == g[i] by {
        let n: nat = g[i] as nat;
        lemma_hex_len(n);
        number::lemma_written_reads_back(n, 16);
        messages::lemma_numeral(fs[i], 16);
    }
    assert(values(fs) =~= g);
}

proof fn lemma_colons_behind(fs: Seq<Seq<u8>>, f: Seq<u8>)
    requires
        fs.len() > 0,
    ensures
        colons(fs.push(f)) == colons(fs) + seq![58u8] + f,
    decreases fs.len(),
{
    let all = fs.push(f);
    assert(all.skip(1) =~= fs.skip(1).push(f));
    if fs.len() == 1 {
        assert(all.skip(1) =~= seq![f]);
        assert(colons(seq![f]) == f);
    } else {
        lemma_colons_behind(fs.skip(1), f);
        assert(colons(all) =~= colons(fs) + seq![58u8] + f);
    }
}

proof fn lemma_hex_groups(g: Seq<u16>)
    ensures
        ascii::bytes(display::hex_groups(g)) == colons(shown(g)),
    decreases g.len(),
{
    let text = ascii::bytes(display::hex_groups(g));
    if g.len() == 0 {
        assert(text =~= colons(shown(g)));
    } else if g.len() == 1 {
        assert(shown(g)[0] == ascii::bytes(number::hexadecimal(g[0] as nat)));
    } else {
        let t = g.drop_last();
        lemma_hex_groups(t);
        let last = ascii::bytes(number::hexadecimal(g.last() as nat));
        assert(shown(g) =~= shown(t).push(last));
        lemma_colons_behind(shown(t), last);
        assert(text =~= ascii::bytes(display::hex_groups(t)) + seq![58u8] + last);
    }
}

proof fn lemma_zeros_at(g: Seq<u16>, i: int)
    requires
        0 <= i <= g.len(),
    ensures
        i + display::zeros_at(g, i) <= g.len(),
        forall|k: int| i <= k < i + display::zeros_at(g, i) ==> #[trigger] g[k] == 0,
        i + display::zeros_at(g, i) < g.len() ==> g[i + display::zeros_at(g, i)] != 0,
    decreases g.len() - i,
{
    if i < g.len() && g[i] == 0 {
        lemma_zeros_at(g, i + 1);
    }
}

/// The run of zeros that is shortened is one of zeros alone, none is longer, and none as long stands in
/// front of it.
pub proof fn law_the_first_longest_run_is_shortened(g: Seq<u16>, n: nat, i: int, len: int)
    requires
        n <= g.len(),
        0 <= i < n,
        i + len <= g.len(),
        forall|k: int| i <= k < i + len ==> #[trigger] g[k] == 0,
    ensures
        ({
            let (start, best) = display::longest_zeros(g, n);
            &&& 0 <= start < n && start + best <= g.len()
            &&& forall|k: int| start <= k < start + best ==> #[trigger] g[k] == 0
            &&& len <= best
            &&& i < start ==> len < best
        }),
    decreases n,
{
    lemma_zeros_at(g, n - 1);
    let m = (n - 1) as nat;
    let here = display::zeros_at(g, n - 1);
    let before = display::longest_zeros(g, m);
    assert(display::longest_zeros(g, n) == if here > before.1 {
        (n - 1, here)
    } else {
        before
    });
    if m > 0 {
        if i < m {
            law_the_first_longest_run_is_shortened(g, m, i, len);
        } else {
            law_the_first_longest_run_is_shortened(g, m, 0, 0);
        }
    } else {
        assert(display::longest_zeros(g, 0) == (0int, 0nat));
    }
    if i == n - 1 && len > display::zeros_at(g, i) {
        assert(g[i + display::zeros_at(g, i)] == 0);
    }
}

/// A v4-mapped address is shown as `::ffff:` and the IPv4 address.
#[verifier::spinoff_prover]
proof fn lemma_mapped_text(x: Ipv6Addr, v4: Ipv4Addr)
    requires
        net::mapped(x) == Some(v4),
    ensures
        ip::ipv6(ascii::bytes(x.text())) == Some(x.groups()),
{
    reveal_strlit("::ffff:");
    let ffff = seq![102u8, 102u8, 102u8, 102u8];
    let none = Seq::<Seq<u8>>::empty();
    lemma_ffff(ffff);
    law_a_double_colon_stands_for_zeros(none, seq![ffff], v4);
    let text = ascii::bytes(x.text());
    let dotted = ascii::bytes(v4.text());
    let s = colons(none) + seq![58u8, 58u8] + dotted_end(seq![ffff], v4);
    assert(colons(seq![ffff]) == ffff);
    assert(ascii::bytes("::ffff:"@) =~= seq![58u8, 58u8] + ffff + seq![58u8]);
    assert(text =~= ascii::bytes("::ffff:"@) + dotted);
    assert(text =~= s);
    let g = x.groups();
    let all = values(none) + zero_groups(5) + (values(seq![ffff]) + halves(v4));
    assert(all.len() == 8);
    assert(all =~= g);
}

proof fn lemma_ffff(f: Seq<u8>)
    requires
        f == seq![102u8, 102u8, 102u8, 102u8],
    ensures
        is_group(f),
        value(f) == 65535,
{
    let a = f.drop_last();
    let b = a.drop_last();
    let c = b.drop_last();
    assert(c.drop_last().len() == 0);
    assert(messages::numeral(c.drop_last(), 16) == 0);
    assert(messages::numeral(c, 16) == 15);
    assert(messages::numeral(b, 16) == 255);
    assert(messages::numeral(a, 16) == 4095);
    assert(messages::numeral(f, 16) == 65535);
}

/// Groups with a run of zeros left out read back whole.
proof fn lemma_shortened_text(g: Seq<u16>, start: int, len: int)
    requires
        g.len() == 8,
        0 <= start,
        1 <= len,
        start + len <= 8,
        forall|k: int| start <= k < start + len ==> #[trigger] g[k] == 0,
    ensures
        ip::ipv6(
            ascii::bytes(
                display::hex_groups(g.take(start)) + seq![':', ':'] + display::hex_groups(
                    g.skip(start + len),
                ),
            ),
        ) == Some(g),
{
    let a = g.take(start);
    let b = g.skip(start + len);
    lemma_hex_groups(a);
    lemma_hex_groups(b);
    lemma_shown(a);
    lemma_shown(b);
    law_a_double_colon_stands_for_zeros(shown(a), shown(b), Ipv4Addr::unspecified());
    let front = display::hex_groups(a);
    let behind = display::hex_groups(b);
    assert(ascii::bytes(front + seq![':', ':'] + behind) =~= ascii::bytes(front) + seq![58u8, 58u8]
        + ascii::bytes(behind));
    assert(a + zero_groups(8 - a.len() - b.len()) + b =~= g);
}

/// Eight groups read back whole.
proof fn lemma_full_text(g: Seq<u16>)
    requires
        g.len() == 8,
    ensures
        ip::ipv6(ascii::bytes(display::hex_groups(g))) == Some(g),
{
    lemma_hex_groups(g);
    lemma_shown(g);
    law_eight_groups_are_an_address(shown(g), Ipv4Addr::unspecified());
}

/// The text of an IPv6 address reads back as that address.
#[verifier::spinoff_prover]
pub proof fn law_ipv6_text_reads_back(x: Ipv6Addr)
    ensures
        ip::ipv6(ascii::bytes(x.text())) == Some(x.groups()),
{
    match net::mapped(x) {
        Some(v4) => {
            lemma_mapped_text(x, v4);
        },
        None => {
            let g = x.groups();
            let (start, len) = display::longest_zeros(g, 8);
            law_the_first_longest_run_is_shortened(g, 8, 0, 0);
            if len > 1 {
                lemma_shortened_text(g, start, len as int);
            } else {
                lemma_full_text(g);
            }
        },
    }
}

} // verus!
