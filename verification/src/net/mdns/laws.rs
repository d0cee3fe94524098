//! What an mDNS message is judged by, said of messages as they are written.

use vstd::prelude::*;

use crate::net;
use crate::net::ip;
use crate::net::ip::{IpAddr, Ipv4Addr, Ipv6Addr};
use crate::net::mdns;
use crate::net::mdns::MdnsKind;

verus! {

/// A domain name: labels, and what ends them.
pub struct Name {
    pub labels: Seq<Seq<u8>>,
    pub end: Seq<u8>,
}

/// A question: a name, and the four bytes of its type and class.
pub struct Question {
    pub name: Name,
    pub fixed: Seq<u8>,
}

/// A record: a name, a type, the six bytes of its class and lifetime, and its data.
pub struct Record {
    pub name: Name,
    pub rtype: u16,
    pub fixed: Seq<u8>,
    pub data: Seq<u8>,
}

/// A message: the four bytes of its id and flags, and its four sections.
pub struct Message {
    pub start: Seq<u8>,
    pub questions: Seq<Question>,
    pub answers: Seq<Record>,
    pub authority: Seq<Record>,
    pub additional: Seq<Record>,
}

/// A number in two bytes, most significant first.
pub open spec fn two(n: nat) -> Seq<u8> {
    seq![(n / 256) as u8, (n % 256) as u8]
}

/// Each label behind its length, then what ends the name.
pub open spec fn name_bytes(labels: Seq<Seq<u8>>, end: Seq<u8>) -> Seq<u8>
    decreases labels.len(),
{
    if labels.len() == 0 {
        end
    } else {
        seq![labels[0].len() as u8] + labels[0] + name_bytes(labels.skip(1), end)
    }
}

/// Every label has 1 to 63 bytes, and an empty one or a pointer ends the name.
pub open spec fn is_name(labels: Seq<Seq<u8>>, end: Seq<u8>) -> bool {
    &&& forall|i: int| 0 <= i < labels.len() ==> 1 <= (#[trigger] labels[i]).len() <= 63
    &&& end == seq![0u8] || (end.len() == 2 && end[0] >= 0xc0)
}

impl Name {
    pub open spec fn wf(self) -> bool {
        is_name(self.labels, self.end)
    }

    pub open spec fn bytes(self) -> Seq<u8> {
        name_bytes(self.labels, self.end)
    }
}

impl Question {
    pub open spec fn wf(self) -> bool {
        self.name.wf() && self.fixed.len() == 4
    }

    pub open spec fn bytes(self) -> Seq<u8> {
        self.name.bytes() + self.fixed
    }
}

impl Record {
    pub open spec fn wf(self) -> bool {
        self.name.wf() && self.fixed.len() == 6 && self.data.len() <= 0xffff
    }

    pub open spec fn bytes(self) -> Seq<u8> {
        self.name.bytes() + two(self.rtype as nat) + self.fixed + two(self.data.len()) + self.data
    }

    /// The address that the record holds: four bytes under type 1, or sixteen under type 28.
    pub open spec fn address(self) -> Option<IpAddr> {
        let d = self.data;
        if self.rtype == 1 && d.len() == 4 {
            Some(IpAddr::V4(Ipv4Addr { a: d[0], b: d[1], c: d[2], d: d[3] }))
        } else if self.rtype == 28 && d.len() == 16 {
            Some(
                IpAddr::V6(
                    Ipv6Addr {
                        s0: (d[0] * 256 + d[1]) as u16,
                        s1: (d[2] * 256 + d[3]) as u16,
                        s2: (d[4] * 256 + d[5]) as u16,
                        s3: (d[6] * 256 + d[7]) as u16,
                        s4: (d[8] * 256 + d[9]) as u16,
                        s5: (d[10] * 256 + d[11]) as u16,
                        s6: (d[12] * 256 + d[13]) as u16,
                        s7: (d[14] * 256 + d[15]) as u16,
                    },
                ),
            )
        } else {
            None
        }
    }
}

pub open spec fn question_bytes(s: Seq<Question>) -> Seq<u8>
    decreases s.len(),
{
    if s.len() == 0 {
        Seq::empty()
    } else {
        s[0].bytes() + question_bytes(s.skip(1))
    }
}

pub open spec fn record_bytes(s: Seq<Record>) -> Seq<u8>
    decreases s.len(),
{
    if s.len() == 0 {
        Seq::empty()
    } else {
        s[0].bytes() + record_bytes(s.skip(1))
    }
}

impl Message {
    /// The records of every section.
    pub open spec fn records(self) -> Seq<Record> {
        self.answers + self.authority + self.additional
    }

    pub open spec fn wf(self) -> bool {
        &&& self.start.len() == 4
        &&& self.questions.len() <= 0xffff
        &&& self.answers.len() <= 0xffff
        &&& self.authority.len() <= 0xffff
        &&& self.additional.len() <= 0xffff
        &&& forall|i: int| 0 <= i < self.questions.len() ==> (#[trigger] self.questions[i]).wf()
        &&& forall|i: int| 0 <= i < self.records().len() ==> (#[trigger] self.records()[i]).wf()
    }

    pub open spec fn head(self) -> Seq<u8> {
        self.start + two(self.questions.len()) + two(self.answers.len()) + two(
            self.authority.len(),
        ) + two(self.additional.len())
    }

    pub open spec fn bytes(self) -> Seq<u8> {
        self.head() + question_bytes(self.questions) + record_bytes(self.records())
    }
}

/// Of 169.254.0.0/16, of fe80::/10, or of the former as it is mapped into IPv6.
pub open spec fn of_the_link(ip: IpAddr) -> bool {
    match ip {
        IpAddr::V4(v4) => v4.a == 169 && v4.b == 254,
        IpAddr::V6(v6) => (0xfe80 <= v6.s0 <= 0xfebf) || (v6.s0 == 0 && v6.s1 == 0 && v6.s2 == 0
            && v6.s3 == 0 && v6.s4 == 0 && v6.s5 == 0xffff && v6.s6 == 0xa9fe),
    }
}

proof fn lemma_of_the_link(ip: IpAddr)
    ensures
        net::link_local(ip) == of_the_link(ip),
{
    match ip {
        IpAddr::V4(_) => {},
        IpAddr::V6(v6) => {
            assert(v6.s6 == 0xa9fe <==> v6.s6 / 256 == 169 && v6.s6 % 256 == 254);
        },
    }
}

proof fn lemma_name(labels: Seq<Seq<u8>>, end: Seq<u8>, more: Seq<u8>)
    requires
        is_name(labels, end),
    ensures
        mdns::name_len(name_bytes(labels, end) + more) == Some(name_bytes(labels, end).len() as int),
        name_bytes(labels, end).len() >= 1,
    decreases labels.len(),
{
    let s = name_bytes(labels, end) + more;
    if labels.len() > 0 {
        let rest = labels.skip(1);
        assert forall|i: int| 0 <= i < rest.len() implies 1 <= (#[trigger] rest[i]).len() <= 63 by {
            assert(rest[i] == labels[i + 1]);
        }
        lemma_name(rest, end, more);
        let n: int = 1 + labels[0].len() as int;
        assert(s[0] == labels[0].len());
        assert(s.skip(n) =~= name_bytes(rest, end) + more);
    } else {
        assert(s[0] == end[0]);
    }
}

proof fn lemma_cut_name(labels: Seq<Seq<u8>>, end: Seq<u8>, k: int)
    requires
        is_name(labels, end),
        0 <= k < name_bytes(labels, end).len(),
    ensures
        mdns::name_len(name_bytes(labels, end).take(k)) is None,
    decreases labels.len(),
{
    let s = name_bytes(labels, end).take(k);
    if k > 0 {
        if labels.len() > 0 {
            let rest = labels.skip(1);
            assert forall|i: int| 0 <= i < rest.len() implies 1 <= (#[trigger] rest[i]).len()
                <= 63 by {
                assert(rest[i] == labels[i + 1]);
            }
            let n: int = 1 + labels[0].len() as int;
            assert(s[0] == labels[0].len());
            if n <= k {
                lemma_cut_name(rest, end, k - n);
                assert(s.skip(n) =~= name_bytes(rest, end).take(k - n));
            }
        } else {
            assert(s[0] == end[0]);
        }
    }
}

proof fn lemma_questions(s: Seq<Question>, more: Seq<u8>)
    requires
        forall|i: int| 0 <= i < s.len() ==> (#[trigger] s[i]).wf(),
    ensures
        mdns::after_questions(question_bytes(s) + more, s.len()) == Some(more),
    decreases s.len(),
{
    let all = question_bytes(s) + more;
    if s.len() > 0 {
        let rest = s.skip(1);
        assert forall|i: int| 0 <= i < rest.len() implies (#[trigger] rest[i]).wf() by {
            assert(rest[i] == s[i + 1]);
        }
        let q = s[0];
        assert(q.wf());
        lemma_questions(rest, more);
        lemma_name(q.name.labels, q.name.end, q.fixed + question_bytes(rest) + more);
        assert(all =~= q.name.bytes() + (q.fixed + question_bytes(rest) + more));
        let n: int = q.name.bytes().len() as int;
        assert(mdns::behind(all, n + 4) =~= question_bytes(rest) + more);
    } else {
        assert(all =~= more);
    }
}

proof fn lemma_cut_questions(s: Seq<Question>, k: int)
    requires
        forall|i: int| 0 <= i < s.len() ==> (#[trigger] s[i]).wf(),
        0 <= k < question_bytes(s).len(),
    ensures
        match mdns::after_questions(question_bytes(s).take(k), s.len()) {
            Some(left) => left.len() == 0,
            None => true,
        },
    decreases s.len(),
{
    let all = question_bytes(s).take(k);
    let rest = s.skip(1);
    assert forall|i: int| 0 <= i < rest.len() implies (#[trigger] rest[i]).wf() by {
        assert(rest[i] == s[i + 1]);
    }
    let q = s[0];
    assert(q.wf());
    let n: int = q.name.bytes().len() as int;
    if k < n {
        lemma_cut_name(q.name.labels, q.name.end, k);
        assert(all =~= q.name.bytes().take(k));
    } else {
        let more = (q.fixed + question_bytes(rest)).take(k - n);
        lemma_name(q.name.labels, q.name.end, more);
        assert(all =~= q.name.bytes() + more);
        if k < n + 4 {
            assert(mdns::behind(all, n + 4).len() == 0);
            let left = mdns::behind(all, n + 4);
            assert(mdns::name_len(left) is None);
            assert(mdns::after_questions(left, rest.len()) == Some(left) || mdns::after_questions(
                left,
                rest.len(),
            ) is None);
        } else {
            assert(mdns::behind(all, n + 4) =~= question_bytes(rest).take(k - n - 4));
            lemma_cut_questions(rest, k - n - 4);
        }
    }
}

proof fn lemma_two(n: nat)
    requires
        n <= 0xffff,
    ensures
        two(n)[0] * 256 + two(n)[1] == n,
{
}

/// What the front of a record's bytes says.
proof fn lemma_record_front(r: Record, more: Seq<u8>)
    requires
        r.wf(),
    ensures
        ({
            let s = r.bytes() + more;
            let n: int = r.name.bytes().len() as int;
            &&& mdns::name_len(s) == Some(n)
            &&& n >= 1
            &&& r.bytes().len() == n + 10 + r.data.len()
            &&& ip::be16(s, n) == r.rtype
            &&& ip::be16(s, n + 8) == r.data.len()
            &&& forall|i: int| 0 <= i < r.data.len() ==> s[n + 10 + i] == #[trigger] r.data[i]
        }),
{
    let s = r.bytes() + more;
    let n: int = r.name.bytes().len() as int;
    let t = two(r.rtype as nat) + r.fixed + two(r.data.len()) + r.data + more;
    lemma_name(r.name.labels, r.name.end, t);
    assert(s =~= r.name.bytes() + t);
    lemma_two(r.rtype as nat);
    lemma_two(r.data.len());
    assert(s[n] == two(r.rtype as nat)[0]);
    assert(s[n + 1] == two(r.rtype as nat)[1]);
    assert(s[n + 8] == two(r.data.len())[0]);
    assert(s[n + 9] == two(r.data.len())[1]);
    assert forall|i: int| 0 <= i < r.data.len() implies s[n + 10 + i] == #[trigger] r.data[i] by {}
}

proof fn lemma_record(r: Record, more: Seq<u8>)
    requires
        r.wf(),
    ensures
        mdns::record_len(r.bytes() + more) == Some(r.bytes().len() as int),
        mdns::record_address(r.bytes() + more) == r.address(),
{
    lemma_record_front(r, more);
    let s = r.bytes() + more;
    let n: int = r.name.bytes().len() as int;
    let d = r.data;
    if r.rtype == 1 && d.len() == 4 {
        assert(s[n + 10 + 0] == d[0] && s[n + 10 + 1] == d[1] && s[n + 10 + 2] == d[2] && s[n + 10
            + 3] == d[3]);
    } else if r.rtype == 28 && d.len() == 16 {
        assert(s[n + 10 + 0] == d[0] && s[n + 10 + 1] == d[1] && s[n + 10 + 2] == d[2] && s[n + 10
            + 3] == d[3]);
        assert(s[n + 10 + 4] == d[4] && s[n + 10 + 5] == d[5] && s[n + 10 + 6] == d[6] && s[n + 10
            + 7] == d[7]);
        assert(s[n + 10 + 8] == d[8] && s[n + 10 + 9] == d[9] && s[n + 10 + 10] == d[10] && s[n + 10
            + 11] == d[11]);
        assert(s[n + 10 + 12] == d[12] && s[n + 10 + 13] == d[13] && s[n + 10 + 14] == d[14] && s[n
            + 10 + 15] == d[15]);
    }
}

proof fn lemma_cut_record(r: Record, k: int)
    requires
        r.wf(),
        0 <= k < r.bytes().len(),
    ensures
        mdns::record_len(r.bytes().take(k)) is None,
{
    let s = r.bytes().take(k);
    let n: int = r.name.bytes().len() as int;
    if k < n {
        lemma_cut_name(r.name.labels, r.name.end, k);
        assert(s =~= r.name.bytes().take(k));
    } else {
        let t = (two(r.rtype as nat) + r.fixed + two(r.data.len()) + r.data).take(k - n);
        lemma_name(r.name.labels, r.name.end, t);
        assert(s =~= r.name.bytes() + t);
        lemma_record_front(r, Seq::empty());
        assert(r.bytes() + Seq::<u8>::empty() =~= r.bytes());
        if n + 10 <= k {
            assert(ip::be16(s, n + 8) == ip::be16(r.bytes(), n + 8));
        }
    }
}

/// The addresses that the records hold, in their order.
pub open spec fn addresses_of(s: Seq<Record>) -> Seq<IpAddr>
    decreases s.len(),
{
    if s.len() == 0 {
        Seq::empty()
    } else {
        match s[0].address() {
            Some(ip) => seq![ip] + addresses_of(s.skip(1)),
            None => addresses_of(s.skip(1)),
        }
    }
}

proof fn lemma_records(s: Seq<Record>, more: Seq<u8>)
    requires
        forall|i: int| 0 <= i < s.len() ==> (#[trigger] s[i]).wf(),
    ensures
        mdns::record_addresses(record_bytes(s) + more, s.len()) == Some(addresses_of(s)),
    decreases s.len(),
{
    if s.len() > 0 {
        let rest = s.skip(1);
        assert forall|i: int| 0 <= i < rest.len() implies (#[trigger] rest[i]).wf() by {
            assert(rest[i] == s[i + 1]);
        }
        let r = s[0];
        assert(r.wf());
        let all = record_bytes(s) + more;
        lemma_records(rest, more);
        lemma_record(r, record_bytes(rest) + more);
        assert(all =~= r.bytes() + (record_bytes(rest) + more));
        assert(all.skip(r.bytes().len() as int) =~= record_bytes(rest) + more);
    }
}

proof fn lemma_cut_records(s: Seq<Record>, k: int)
    requires
        forall|i: int| 0 <= i < s.len() ==> (#[trigger] s[i]).wf(),
        0 <= k < record_bytes(s).len(),
    ensures
        mdns::record_addresses(record_bytes(s).take(k), s.len()) is None,
    decreases s.len(),
{
    let all = record_bytes(s).take(k);
    let rest = s.skip(1);
    assert forall|i: int| 0 <= i < rest.len() implies (#[trigger] rest[i]).wf() by {
        assert(rest[i] == s[i + 1]);
    }
    let r = s[0];
    assert(r.wf());
    let n: int = r.bytes().len() as int;
    if k < n {
        lemma_cut_record(r, k);
        assert(all =~= r.bytes().take(k));
    } else {
        let more = record_bytes(rest).take(k - n);
        lemma_record(r, more);
        assert(all =~= r.bytes() + more);
        assert(all.skip(n) =~= more);
        lemma_cut_records(rest, k - n);
    }
}

proof fn lemma_addresses_of(s: Seq<Record>)
    ensures
        forall|ip: IpAddr|
            #[trigger] addresses_of(s).contains(ip) <==> exists|i: int|
                0 <= i < s.len() && (#[trigger] s[i]).address() == Some(ip),
    decreases s.len(),
{
    if s.len() > 0 {
        let rest = s.skip(1);
        lemma_addresses_of(rest);
        assert forall|ip: IpAddr|
            #[trigger] addresses_of(s).contains(ip) <==> exists|i: int|
                0 <= i < s.len() && (#[trigger] s[i]).address() == Some(ip) by {
            let all = addresses_of(s);
            let some = addresses_of(rest);
            if all.contains(ip) {
                let k: int = choose|k: int| 0 <= k < all.len() && all[k] == ip;
                if s[0].address() != Some(ip) {
                    if s[0].address() is Some {
                        assert(some[k - 1] == ip);
                    }
                    assert(some.contains(ip));
                    let i: int = choose|i: int|
                        0 <= i < rest.len() && (#[trigger] rest[i]).address() == Some(ip);
                    assert(s[i + 1].address() == Some(ip));
                }
            }
            if exists|i: int| 0 <= i < s.len() && (#[trigger] s[i]).address() == Some(ip) {
                let i: int = choose|i: int|
                    0 <= i < s.len() && (#[trigger] s[i]).address() == Some(ip);
                if i == 0 {
                    assert(all[0] == ip);
                } else {
                    assert(rest[i - 1].address() == Some(ip));
                    assert(some.contains(ip));
                    let k: int = choose|k: int| 0 <= k < some.len() && some[k] == ip;
                    if s[0].address() is Some {
                        assert(all[k + 1] == ip);
                    }
                }
            }
        }
    }
}

proof fn lemma_message_head(m: Message, more: Seq<u8>)
    requires
        m.wf(),
    ensures
        ({
            let s = m.head() + more;
            &&& m.head().len() == 12
            &&& ip::be16(s, 4) == m.questions.len()
            &&& ip::be16(s, 6) == m.answers.len()
            &&& ip::be16(s, 8) == m.authority.len()
            &&& ip::be16(s, 10) == m.additional.len()
            &&& s.skip(12) == more
        }),
{
    let s = m.head() + more;
    lemma_two(m.questions.len());
    lemma_two(m.answers.len());
    lemma_two(m.authority.len());
    lemma_two(m.additional.len());
    assert(s[4] == two(m.questions.len())[0] && s[5] == two(m.questions.len())[1]);
    assert(s[6] == two(m.answers.len())[0] && s[7] == two(m.answers.len())[1]);
    assert(s[8] == two(m.authority.len())[0] && s[9] == two(m.authority.len())[1]);
    assert(s[10] == two(m.additional.len())[0] && s[11] == two(m.additional.len())[1]);
    assert(s.skip(12) =~= more);
}

/// A message is suppressed when, and only when, a record of its answer, authority or additional section
/// holds an address and every address that one holds is of the link. Bytes behind the message do not
/// matter.
pub proof fn law_a_message_is_judged_by_its_address_records(m: Message, more: Seq<u8>)
    requires
        m.wf(),
    ensures
        mdns::only_link_local(m.bytes() + more) <==> {
            &&& exists|i: int|
                0 <= i < m.records().len() && (#[trigger] m.records()[i]).address() is Some
            &&& forall|i: int|
                0 <= i < m.records().len() ==> ((#[trigger] m.records()[i]).address() matches Some(ip)
                    ==> of_the_link(ip))
        },
        mdns::addresses(m.bytes() + more) == Some(addresses_of(m.records())),
{
    let rs = m.records();
    let s = m.bytes() + more;
    let tail = record_bytes(rs) + more;
    lemma_message_head(m, question_bytes(m.questions) + tail);
    assert(s =~= m.head() + (question_bytes(m.questions) + tail));
    lemma_questions(m.questions, tail);
    lemma_records(rs, more);
    lemma_addresses_of(rs);
    let ips = addresses_of(rs);
    assert(mdns::addresses(s) == Some(ips));
    if exists|i: int| 0 <= i < rs.len() && (#[trigger] rs[i]).address() is Some {
        let i: int = choose|i: int| 0 <= i < rs.len() && (#[trigger] rs[i]).address() is Some;
        assert(ips.contains(rs[i].address()->0));
    }
    assert forall|k: int| 0 <= k < ips.len() implies exists|i: int|
        0 <= i < rs.len() && (#[trigger] rs[i]).address() == Some(#[trigger] ips[k]) by {
        assert(ips.contains(ips[k]));
    }
    if ips.len() > 0 {
        assert(ips.contains(ips[0]));
    }
    if mdns::only_link_local(s) {
        assert forall|i: int| 0 <= i < rs.len() implies ((#[trigger] rs[i]).address() matches Some(ip)
            ==> of_the_link(ip)) by {
            if let Some(ip) = rs[i].address() {
                assert(ips.contains(ip));
                let k: int = choose|k: int| 0 <= k < ips.len() && ips[k] == ip;
                assert(net::link_local(ips[k]));
                lemma_of_the_link(ip);
            }
        }
    }
    if forall|i: int|
        0 <= i < rs.len() ==> ((#[trigger] rs[i]).address() matches Some(ip) ==> of_the_link(ip)) {
        assert forall|k: int| 0 <= k < ips.len() implies net::link_local(#[trigger] ips[k]) by {
            assert(ips.contains(ips[k]));
            let i: int = choose|i: int|
                0 <= i < rs.len() && (#[trigger] rs[i]).address() == Some(ips[k]);
            assert(rs[i].address() == Some(ips[k]));
            lemma_of_the_link(ips[k]);
        }
    }
}

/// One routable address, in whichever section, keeps the message from being suppressed.
pub proof fn law_one_routable_address_rescues_the_message(m: Message, i: int, more: Seq<u8>)
    requires
        m.wf(),
        0 <= i < m.records().len(),
        m.records()[i].address() matches Some(ip) && !of_the_link(ip),
    ensures
        !mdns::only_link_local(m.bytes() + more),
{
    law_a_message_is_judged_by_its_address_records(m, more);
}

/// Appending a record to a message adds the address that it holds, and no other, to those that the
/// message is judged by.
pub proof fn law_an_appended_record_adds_its_address(m: Message, r: Record)
    requires
        m.wf(),
        r.wf(),
        m.additional.len() < 0xffff,
    ensures
        ({
            let longer = Message { additional: m.additional.push(r), ..m };
            mdns::addresses(longer.bytes()) == Some(
                (mdns::addresses(m.bytes())->0) + (match r.address() {
                    Some(ip) => seq![ip],
                    None => Seq::empty(),
                }),
            )
        }),
{
    let longer = Message { additional: m.additional.push(r), ..m };
    let rs = m.records();
    assert(longer.records() =~= rs.push(r));
    assert forall|i: int| 0 <= i < longer.records().len() implies (
    #[trigger] longer.records()[i]).wf() by {
        if i < rs.len() {
            assert(longer.records()[i] == rs[i]);
        }
    }
    law_a_message_is_judged_by_its_address_records(m, Seq::empty());
    law_a_message_is_judged_by_its_address_records(longer, Seq::empty());
    assert(m.bytes() + Seq::<u8>::empty() =~= m.bytes());
    assert(longer.bytes() + Seq::<u8>::empty() =~= longer.bytes());
    lemma_addresses_push(rs, r);
}

proof fn lemma_addresses_push(s: Seq<Record>, r: Record)
    ensures
        addresses_of(s.push(r)) == addresses_of(s) + (match r.address() {
            Some(ip) => seq![ip],
            None => Seq::empty(),
        }),
    decreases s.len(),
{
    let all = s.push(r);
    if s.len() > 0 {
        assert(all.skip(1) =~= s.skip(1).push(r));
        lemma_addresses_push(s.skip(1), r);
    } else {
        assert(all.skip(1) =~= Seq::<Record>::empty());
        reveal_with_fuel(addresses_of, 2);
    }
    assert(addresses_of(all) =~= addresses_of(s) + (match r.address() {
        Some(ip) => seq![ip],
        None => Seq::empty(),
    }));
}

/// A message that is cut short is not suppressed.
pub proof fn law_a_cut_message_is_not_suppressed(m: Message, k: int)
    requires
        m.wf(),
        0 <= k < m.bytes().len(),
    ensures
        !mdns::only_link_local(m.bytes().take(k)),
{
    let rs = m.records();
    let s = m.bytes().take(k);
    let qs = question_bytes(m.questions);
    let q: int = 12 + qs.len() as int;
    lemma_message_head(m, qs + record_bytes(rs));
    assert(m.bytes() =~= m.head() + (qs + record_bytes(rs)));
    if k >= 12 {
        lemma_message_head(m, (qs + record_bytes(rs)).take(k - 12));
        assert(s =~= m.head() + (qs + record_bytes(rs)).take(k - 12));
        if k < q {
            assert((qs + record_bytes(rs)).take(k - 12) =~= qs.take(k - 12));
            lemma_cut_questions(m.questions, k - 12);
            if rs.len() > 0 {
                assert forall|t: Seq<u8>| t.len() == 0 implies #[trigger] mdns::record_addresses(
                    t,
                    rs.len(),
                ) is None by {
                    assert(mdns::name_len(t) is None);
                }
            }
        } else {
            let tail = record_bytes(rs).take(k - q);
            assert((qs + record_bytes(rs)).take(k - 12) =~= qs + tail);
            lemma_questions(m.questions, tail);
            lemma_cut_records(rs, k - q);
        }
    }
}

/// The top bit of the third byte tells a response from a query, and what is shorter than a header is
/// neither.
pub proof fn law_the_top_bit_tells_a_response(s: Seq<u8>)
    ensures
        s.len() < 12 <==> mdns::kind(s) is None,
        s.len() >= 12 ==> (s[2] & 0x80 != 0 <==> mdns::kind(s) == Some(MdnsKind::Response)),
        s.len() >= 12 ==> (s[2] & 0x80 == 0 <==> mdns::kind(s) == Some(MdnsKind::Query)),
{
    if s.len() >= 12 {
        let b = s[2];
        assert(b & 0x80 != 0 <==> b >= 0x80) by (bit_vector);
    }
}

} // verus!
