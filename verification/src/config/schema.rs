//! The schema of a configuration's document.
//!
//! Reflectors nest under `[reflectors.<name>]`; a key that the schema does not know is refused. A
//! reflector may also be an array of its values, in the order of the keys. What does not fit is said of
//! the place where it stands, with what was found there.

use std::str::FromStr;

use vstd::prelude::*;

use crate::config;
use crate::config::document;
use crate::config::document::{Doc, Field, Item, Kind, Pair, Span, Value};
use crate::config::error;
use crate::config::error::ParseValueError;
use crate::config::raw;
use crate::config::raw::{RawConfig, RawEntry, RawReflector, RawSettings};
use crate::config::value;
use crate::config::value::{
    AddressFamily, Groups, InterfaceName, LogLevel, ParseAddressFamilyError,
    ParseInterfaceNameError, ParseLogLevelError, Peers, Port, Ports,
};
use crate::net::ip::IpAddr;
use crate::net::mac::{MacAddr, Macs};
use crate::number;
use crate::text;
use crate::unique_list;
use crate::unique_list::{ListItem, ListRule, UniqueList};

verus! {

/// What does not fit the schema, and where it stands.
#[derive(Debug)]
pub struct Misfit {
    pub span: Span,
    pub what: String,
}

/// What a [`Misfit`] says.
pub struct Unfit {
    pub span: Span,
    pub what: Seq<char>,
}

impl View for Misfit {
    type V = Unfit;

    open spec fn view(&self) -> Unfit {
        Unfit { span: self.span, what: self.what@ }
    }
}

/// The value of the first field named `key`.
pub open spec fn field(t: Seq<Field>, key: Seq<char>) -> Option<Doc>
    decreases t.len(),
{
    if t.len() == 0 {
        None
    } else if t[0].key == key {
        Some(t[0].value)
    } else {
        field(t.skip(1), key)
    }
}

/// Why a value does not fit, if so.
pub open spec fn refusal<T>(r: Result<T, Unfit>) -> Option<Unfit> {
    match r {
        Ok(_) => None,
        Err(u) => Some(u),
    }
}

/// What was found, in what is said of a value where nothing may stand.
pub open spec fn found(refused: Seq<char>) -> Option<Seq<char>> {
    let head: int = "invalid type: "@.len() as int;
    let tail: int = refused.len() - ", expected unit"@.len();
    if head <= tail && refused.take(head) == "invalid type: "@ && refused.skip(tail)
        == ", expected unit"@ {
        Some(refused.subrange(head, tail))
    } else {
        None
    }
}

/// What is said of a value where another is expected; of one that is too large for any, the same.
pub open spec fn instead(refused: Seq<char>, invalid: Seq<char>, expected: Seq<char>) -> Seq<char> {
    match found(refused) {
        Some(value) => "invalid "@ + invalid + ": "@ + value + ", expected "@ + expected,
        None => refused,
    }
}

/// See [`instead`].
pub fn say_instead(refused: &str, invalid: &str, expected: &str) -> (r: String)
    ensures
        r@ == instead(refused@, invalid@, expected@),
{
    let all = text::chars(refused);
    let head: usize = text::chars("invalid type: ").len();
    let tail: usize = text::chars(", expected unit").len();
    if tail <= all.len() && head <= all.len() - tail {
        let end: usize = all.len() - tail;
        let s: &[char] = all.as_slice();
        let before: &[char] = vstd::slice::slice_subrange(s, 0, head);
        let behind: &[char] = vstd::slice::slice_subrange(s, end, all.len());
        assert(before@ =~= refused@.take(head as int));
        assert(behind@ =~= refused@.skip(end as int));
        if text::is(before, "invalid type: ") && text::is(behind, ", expected unit") {
            let mut what = "invalid ".to_owned();
            what.append(invalid);
            what.append(": ");
            text::push_chars(&mut what, vstd::slice::slice_subrange(s, head, end));
            what.append(", expected ");
            what.append(expected);
            return what;
        }
    }
    refused.to_owned()
}

/// A value is not of the kind that is expected.
pub open spec fn wrong_type(d: Doc, expected: Seq<char>) -> Unfit {
    Unfit { span: d.span, what: instead(d.refused, "type"@, expected) }
}

fn of_wrong_type(v: &Value, expected: &str) -> (r: Misfit)
    ensures
        r@ == wrong_type(v@, expected@),
{
    Misfit { span: v.span, what: say_instead(v.refused.as_str(), "type", expected) }
}

/// A value of the right kind that is not accepted.
fn not_accepted(v: &Value, what: String) -> (r: Misfit)
    ensures
        r@ == (Unfit { span: v@.span, what: what@ }),
{
    Misfit { span: v.span, what }
}

/// A flag.
pub open spec fn flag_value(d: Doc) -> Result<bool, Unfit> {
    match d.kind {
        Kind::Boolean(b) => Ok(b),
        _ => Err(wrong_type(d, "a boolean"@)),
    }
}

fn read_flag(v: &Value) -> (r: Result<bool, Misfit>)
    ensures
        match r {
            Ok(b) => flag_value(v@) == Ok::<_, Unfit>(b),
            Err(m) => flag_value(v@) == Err::<bool, _>(m@),
        },
{
    match &v.item {
        Item::Boolean(b) => Ok(*b),
        _ => Err(of_wrong_type(v, "a boolean")),
    }
}

/// The name of an interface.
pub open spec fn interface_value(d: Doc) -> Result<Seq<char>, Unfit> {
    match d.kind {
        Kind::Text(s) => if value::interface_name(s) {
            Ok(s)
        } else {
            Err(
                Unfit {
                    span: d.span,
                    what: ParseValueError::Interface(ParseInterfaceNameError).text(),
                },
            )
        },
        _ => Err(wrong_type(d, "a string"@)),
    }
}

fn read_interface(v: &Value) -> (r: Result<InterfaceName, Misfit>)
    ensures
        match r {
            Ok(name) => interface_value(v@) == Ok::<_, Unfit>(name@),
            Err(m) => interface_value(v@) == Err::<Seq<char>, _>(m@),
        },
{
    match &v.item {
        Item::Text(s) => match InterfaceName::from_str(s.as_str()) {
            Ok(name) => Ok(name),
            Err(e) => Err(not_accepted(v, ParseValueError::Interface(e).to_text())),
        },
        _ => Err(of_wrong_type(v, "a string")),
    }
}

/// An address family.
pub open spec fn family_value(d: Doc) -> Result<AddressFamily, Unfit> {
    match d.kind {
        Kind::Text(s) => match value::address_family(s) {
            Some(family) => Ok(family),
            None => Err(
                Unfit {
                    span: d.span,
                    what: ParseValueError::AddressFamily(ParseAddressFamilyError).text(),
                },
            ),
        },
        _ => Err(wrong_type(d, "a string"@)),
    }
}

fn read_family(v: &Value) -> (r: Result<AddressFamily, Misfit>)
    ensures
        match r {
            Ok(family) => family_value(v@) == Ok::<_, Unfit>(family),
            Err(m) => family_value(v@) == Err::<AddressFamily, _>(m@),
        },
{
    match &v.item {
        Item::Text(s) => match AddressFamily::from_str(s.as_str()) {
            Ok(family) => Ok(family),
            Err(e) => Err(not_accepted(v, ParseValueError::AddressFamily(e).to_text())),
        },
        _ => Err(of_wrong_type(v, "a string")),
    }
}

/// A log level.
pub open spec fn level_value(d: Doc) -> Result<LogLevel, Unfit> {
    match d.kind {
        Kind::Text(s) => match value::log_level(s) {
            Some(level) => Ok(level),
            None => Err(
                Unfit { span: d.span, what: ParseValueError::LogLevel(ParseLogLevelError).text() },
            ),
        },
        _ => Err(wrong_type(d, "a string"@)),
    }
}

fn read_level(v: &Value) -> (r: Result<LogLevel, Misfit>)
    ensures
        match r {
            Ok(level) => level_value(v@) == Ok::<_, Unfit>(level),
            Err(m) => level_value(v@) == Err::<LogLevel, _>(m@),
        },
{
    match &v.item {
        Item::Text(s) => match LogLevel::from_str(s.as_str()) {
            Ok(level) => Ok(level),
            Err(e) => Err(not_accepted(v, ParseValueError::LogLevel(e).to_text())),
        },
        _ => Err(of_wrong_type(v, "a string")),
    }
}

/// The number that digits of a base write, behind a sign that may be left out.
pub open spec fn integer(digits: Seq<char>, base: u32) -> Option<int> {
    match text::narrowed(digits) {
        Some(s) => if base < 2 || base > 16 {
            None
        } else if s.len() > 0 && s[0] == '-' as u8 {
            match number::number(s.skip(1), base as nat) {
                Some(n) => Some(-n),
                None => None,
            }
        } else {
            match number::unsigned(s, base as nat) {
                Some(n) => Some(n as int),
                None => None,
            }
        },
        None => None,
    }
}

/// The number that digits of a base write, where it is at least 0 and fits.
fn read_integer(digits: &String, base: u32) -> (r: Option<u64>)
    ensures
        match r {
            Some(n) => integer(digits@, base) == Some(n as int),
            None => match integer(digits@, base) {
                Some(n) => n < 0 || n > u64::MAX,
                None => true,
            },
        },
{
    let all = text::chars(digits.as_str());
    match text::narrow(&all) {
        Some(s) => if base < 2 || base > 16 {
            None
        } else if s.len() > 0 && s[0] == '-' as u8 {
            let rest = crate::ascii::skip(s.as_slice(), 1);
            number::parse_number(rest, base as u64, 0)
        } else {
            number::parse_unsigned(s.as_slice(), base as u64, u64::MAX)
        },
        None => None,
    }
}

/// Whether digits of a base write a number below 0 that fits.
fn is_negative(digits: &String, base: u32) -> (r: bool)
    ensures
        r == (integer(digits@, base) matches Some(n) && i64::MIN <= n < 0),
{
    let all = text::chars(digits.as_str());
    match text::narrow(&all) {
        Some(s) => if base < 2 || base > 16 || s.len() == 0 || s[0] != '-' as u8 {
            false
        } else {
            let rest = crate::ascii::skip(s.as_slice(), 1);
            match number::parse_number(rest, base as u64, 0x8000_0000_0000_0000) {
                Some(n) => n > 0,
                None => false,
            }
        },
        None => false,
    }
}

/// A number of seconds.
pub open spec fn seconds_value(d: Doc) -> Result<u64, Unfit> {
    match d.kind {
        Kind::Integer(digits, base) => match integer(digits, base) {
            Some(n) => if 0 <= n <= u64::MAX {
                Ok(n as u64)
            } else if i64::MIN <= n < 0 {
                Err(Unfit { span: d.span, what: instead(d.refused, "value"@, "u64"@) })
            } else {
                Err(wrong_type(d, "u64"@))
            },
            None => Err(wrong_type(d, "u64"@)),
        },
        _ => Err(wrong_type(d, "u64"@)),
    }
}

fn read_seconds(v: &Value) -> (r: Result<u64, Misfit>)
    ensures
        match r {
            Ok(n) => seconds_value(v@) == Ok::<_, Unfit>(n),
            Err(m) => seconds_value(v@) == Err::<u64, _>(m@),
        },
{
    match &v.item {
        Item::Integer(digits, base) => match read_integer(digits, *base) {
            Some(n) => Ok(n),
            None => if is_negative(digits, *base) {
                Err(not_accepted(v, say_instead(v.refused.as_str(), "value", "u64")))
            } else {
                Err(of_wrong_type(v, "u64"))
            },
        },
        _ => Err(of_wrong_type(v, "u64")),
    }
}

/// A list item that a document can hold.
pub trait Written: ListItem {
    /// The list item that a value writes.
    spec fn of(d: Doc) -> Option<Self>;

    /// The list item that a value writes, or nothing.
    fn from_value(v: &Value) -> (r: Option<Self>)
        ensures
            r == Self::of(v@),
    ;
}

/// The list item that a text writes.
pub open spec fn text_item<T: ListItem>(d: Doc) -> Option<T> {
    match d.kind {
        Kind::Text(s) => match text::narrowed(s) {
            Some(bytes) => T::reads(bytes),
            None => None,
        },
        _ => None,
    }
}

fn read_text_item<T: ListItem>(v: &Value) -> (r: Option<T>)
    ensures
        r == text_item::<T>(v@),
{
    match &v.item {
        Item::Text(s) => {
            let all = text::chars(s.as_str());
            match text::narrow(&all) {
                Some(bytes) => T::read(&bytes),
                None => None,
            }
        },
        _ => None,
    }
}

impl Written for IpAddr {
    open spec fn of(d: Doc) -> Option<Self> {
        text_item::<IpAddr>(d)
    }

    fn from_value(v: &Value) -> (r: Option<Self>) {
        read_text_item(v)
    }
}

impl Written for MacAddr {
    open spec fn of(d: Doc) -> Option<Self> {
        text_item::<MacAddr>(d)
    }

    fn from_value(v: &Value) -> (r: Option<Self>) {
        read_text_item(v)
    }
}

impl Written for Port {
    /// An integer from 1 to 65535.
    open spec fn of(d: Doc) -> Option<Self> {
        match d.kind {
            Kind::Integer(digits, base) => match integer(digits, base) {
                Some(n) => if 1 <= n <= 0xffff {
                    Some(Port { number: n as u16 })
                } else {
                    None
                },
                None => None,
            },
            _ => None,
        }
    }

    fn from_value(v: &Value) -> (r: Option<Self>) {
        match &v.item {
            Item::Integer(digits, base) => match read_integer(digits, *base) {
                Some(n) => if 1 <= n && n <= 0xffff {
                    Some(Port { number: n as u16 })
                } else {
                    None
                },
                None => None,
            },
            _ => None,
        }
    }
}

/// The place of the first value that writes no list item; the number of values where each writes one.
pub open spec fn first_unread<T: Written>(s: Seq<Doc>) -> nat
    decreases s.len(),
{
    if s.len() == 0 || T::of(s[0]) is None {
        0
    } else {
        1 + first_unread::<T>(s.skip(1))
    }
}

/// The list items that the values write.
pub open spec fn items_of<T: Written>(s: Seq<Doc>) -> Seq<T> {
    Seq::new(s.len(), |i: int| T::of(s[i])->0)
}

/// What is wrong with a list of items that its rule does not accept.
pub open spec fn list_fault<R: ListRule>(items: Seq<R::Item>) -> Seq<char> {
    let i: int = unique_list::first_fault::<R>(items) as int;
    if items.len() == 0 {
        "the "@ + R::noun() + " list is empty"@
    } else {
        match R::refusal(items[i]) {
            Some(reason) => R::noun() + " "@ + items[i].item_text() + " "@ + reason,
            None => "duplicate "@ + R::noun() + " "@ + items[i].item_text(),
        }
    }
}

/// A list of items that its rule accepts.
pub open spec fn list_value<R: ListRule>(d: Doc) -> Result<Seq<R::Item>, Unfit> where
    R::Item: Written,
 {
    match d.kind {
        Kind::Array(s) => {
            let i: int = first_unread::<R::Item>(s) as int;
            if i < s.len() {
                Err(Unfit { span: s[i].span, what: "invalid "@ + R::noun() })
            } else if unique_list::acceptable::<R>(items_of::<R::Item>(s)) {
                Ok(items_of::<R::Item>(s))
            } else {
                Err(Unfit { span: d.span, what: list_fault::<R>(items_of::<R::Item>(s)) })
            }
        },
        _ => Err(wrong_type(d, "a list"@)),
    }
}

/// The first unread value is behind those that were read.
proof fn lemma_first_unread<T: Written>(s: Seq<Doc>, n: int)
    requires
        0 <= n <= s.len(),
        forall|j: int| 0 <= j < n ==> T::of(#[trigger] s[j]) is Some,
        n == s.len() || T::of(s[n]) is None,
    ensures
        first_unread::<T>(s) == n,
    decreases s.len(),
{
    if n > 0 {
        let t = s.skip(1);
        assert forall|j: int| 0 <= j < n - 1 implies T::of(#[trigger] t[j]) is Some by {
            assert(t[j] == s[j + 1]);
        }
        lemma_first_unread::<T>(t, n - 1);
    }
}

fn read_list<R: ListRule>(v: &Value) -> (r: Result<UniqueList<R>, Misfit>) where R::Item: Written
    ensures
        match r {
            Ok(list) => list_value::<R>(v@) == Ok::<_, Unfit>(list@) && list.wf(),
            Err(m) => list_value::<R>(v@) == Err::<Seq<R::Item>, _>(m@),
        },
{
    match &v.item {
        Item::Array(values) => {
            let ghost docs = document::array(values@);
            assert(v@.kind->Array_0 =~= docs);
            let mut items: Vec<R::Item> = Vec::new();
            let mut i: usize = 0;
            while i < values.len()
                invariant
                    i <= values@.len() == docs.len(),
                    docs == document::array(values@),
                    v@.kind == Kind::Array(docs),
                    items@.len() == i,
                    forall|j: int| 0 <= j < i ==> R::Item::of(#[trigger] docs[j]) == Some(items@[j]),
                decreases values@.len() - i,
            {
                assert(docs[i as int] == values@[i as int]@);
                match R::Item::from_value(&values[i]) {
                    Some(item) => items.push(item),
                    None => {
                        proof {
                            lemma_first_unread::<R::Item>(docs, i as int);
                        }
                        let mut what = "invalid ".to_owned();
                        what.append(R::noun_text());
                        return Err(not_accepted(&values[i], what));
                    },
                }
                i += 1;
            }
            proof {
                lemma_first_unread::<R::Item>(docs, i as int);
                assert(items@ =~= items_of::<R::Item>(docs));
            }
            match UniqueList::<R>::try_from(items) {
                Ok(list) => Ok(list),
                Err(e) => Err(not_accepted(v, error::list_error_string(&e))),
            }
        },
        _ => Err(of_wrong_type(v, "a list")),
    }
}

/// What the value under a key is to be.
#[derive(Clone, Copy, PartialEq, Eq, Structural, Debug)]
pub enum Shape {
    Interface,
    Peers,
    Macs,
    Family,
    Flag,
    Ports,
    Groups,
    Level,
    Seconds,
    Reflectors,
    /// The schema does not know the key.
    Unknown,
}

/// What the value under a key of a reflector's table is to be.
pub open spec fn reflector_shape(key: Seq<char>) -> Shape {
    if key == "source_if"@ || key == "target_if"@ {
        Shape::Interface
    } else if key == "source_peers"@ || key == "target_peers"@ {
        Shape::Peers
    } else if key == "macs"@ {
        Shape::Macs
    } else if key == "address_family"@ {
        Shape::Family
    } else if key == "wol"@ || key == "mdns"@ || key == "ssdp"@ || key == "dial"@ || key == "wsd"@
        || key == "bidirectional"@ || key == "udp_broadcast"@ {
        Shape::Flag
    } else if key == "wol_ports"@ || key == "udp_ports"@ {
        Shape::Ports
    } else if key == "udp_groups"@ {
        Shape::Groups
    } else {
        Shape::Unknown
    }
}

fn shape_in_reflector(key: &str) -> (r: Shape)
    ensures
        r == reflector_shape(key@),
{
    let k = text::chars(key);
    if text::is(&k, "source_if") || text::is(&k, "target_if") {
        Shape::Interface
    } else if text::is(&k, "source_peers") || text::is(&k, "target_peers") {
        Shape::Peers
    } else if text::is(&k, "macs") {
        Shape::Macs
    } else if text::is(&k, "address_family") {
        Shape::Family
    } else if text::is(&k, "wol") || text::is(&k, "mdns") || text::is(&k, "ssdp") || text::is(
        &k,
        "dial",
    ) || text::is(&k, "wsd") || text::is(&k, "bidirectional") || text::is(&k, "udp_broadcast") {
        Shape::Flag
    } else if text::is(&k, "wol_ports") || text::is(&k, "udp_ports") {
        Shape::Ports
    } else if text::is(&k, "udp_groups") {
        Shape::Groups
    } else {
        Shape::Unknown
    }
}

/// What the value under a key of the whole document is to be.
pub open spec fn document_shape(key: Seq<char>) -> Shape {
    if key == "log_level"@ {
        Shape::Level
    } else if key == "debug_memory_interval_secs"@ || key == "counters_interval_secs"@ {
        Shape::Seconds
    } else if key == "reflectors"@ {
        Shape::Reflectors
    } else {
        Shape::Unknown
    }
}

fn shape_in_document(key: &str) -> (r: Shape)
    ensures
        r == document_shape(key@),
{
    let k = text::chars(key);
    if text::is(&k, "log_level") {
        Shape::Level
    } else if text::is(&k, "debug_memory_interval_secs") || text::is(&k, "counters_interval_secs") {
        Shape::Seconds
    } else if text::is(&k, "reflectors") {
        Shape::Reflectors
    } else {
        Shape::Unknown
    }
}

/// The schema does not know a key.
pub open spec fn unknown_text(key: Seq<char>, known: Seq<char>) -> Seq<char> {
    "unknown field `"@ + key + "`, expected one of "@ + known
}

fn say_unknown(key: &str, known: &str) -> (r: String)
    ensures
        r@ == unknown_text(key@, known@),
{
    let mut what = "unknown field `".to_owned();
    what.append(key);
    what.append("`, expected one of ");
    what.append(known);
    what
}

/// The schema does not know the key of a field.
pub open spec fn unknown_key(f: Field, known: Seq<char>) -> Unfit {
    Unfit { span: f.key_span, what: unknown_text(f.key, known) }
}

fn of_unknown_key(pair: &Pair, known: &str) -> (r: Misfit)
    ensures
        r@ == unknown_key(pair@, known@),
{
    Misfit { span: pair.key_span, what: say_unknown(pair.key.as_str(), known) }
}

/// A key that a table must have is not there.
pub open spec fn missing(span: Span, key: Seq<char>) -> Unfit {
    Unfit { span, what: "missing field `"@ + key + "`"@ }
}

fn of_missing(span: Span, key: &str) -> (r: Misfit)
    ensures
        r@ == missing(span, key@),
{
    let mut what = "missing field `".to_owned();
    what.append(key);
    what.append("`");
    Misfit { span, what }
}

/// The keys of a reflector's table.
pub open spec fn reflector_keys() -> Seq<char> {
    "`source_if`, `target_if`, `source_peers`, `target_peers`, `macs`, `address_family`, `wol`, `wol_ports`, `mdns`, `ssdp`, `dial`, `wsd`, `bidirectional`, `udp_ports`, `udp_groups`, `udp_broadcast`"@
}

/// The keys of the whole document.
pub open spec fn document_keys() -> Seq<char> {
    "`log_level`, `debug_memory_interval_secs`, `counters_interval_secs`, `reflectors`"@
}

/// Why a field of a reflector's table does not fit, if so.
pub open spec fn reflector_misfit(f: Field) -> Option<Unfit> {
    match reflector_shape(f.key) {
        Shape::Interface => refusal(interface_value(f.value)),
        Shape::Peers => refusal(list_value::<Peers>(f.value)),
        Shape::Macs => refusal(list_value::<Macs>(f.value)),
        Shape::Family => refusal(family_value(f.value)),
        Shape::Flag => refusal(flag_value(f.value)),
        Shape::Ports => refusal(list_value::<Ports>(f.value)),
        Shape::Groups => refusal(list_value::<Groups>(f.value)),
        _ => Some(unknown_key(f, reflector_keys())),
    }
}

fn misfit_in_reflector(pair: &Pair) -> (r: Option<Misfit>)
    ensures
        match r {
            Some(m) => reflector_misfit(pair@) == Some(m@),
            None => reflector_misfit(pair@) is None,
        },
{
    match shape_in_reflector(pair.key.as_str()) {
        Shape::Interface => read_interface(&pair.value).err(),
        Shape::Peers => read_list::<Peers>(&pair.value).err(),
        Shape::Macs => read_list::<Macs>(&pair.value).err(),
        Shape::Family => read_family(&pair.value).err(),
        Shape::Flag => read_flag(&pair.value).err(),
        Shape::Ports => read_list::<Ports>(&pair.value).err(),
        Shape::Groups => read_list::<Groups>(&pair.value).err(),
        _ => Some(
            of_unknown_key(
                pair,
                "`source_if`, `target_if`, `source_peers`, `target_peers`, `macs`, `address_family`, `wol`, `wol_ports`, `mdns`, `ssdp`, `dial`, `wsd`, `bidirectional`, `udp_ports`, `udp_groups`, `udp_broadcast`",
            ),
        ),
    }
}

/// Why the first field that does not fit does not, if there is one.
pub open spec fn first_misfit(t: Seq<Field>) -> Option<Unfit>
    decreases t.len(),
{
    if t.len() == 0 {
        None
    } else {
        match reflector_misfit(t[0]) {
            Some(u) => Some(u),
            None => first_misfit(t.skip(1)),
        }
    }
}

/// Where no field misfits, the value under a key fits.
proof fn lemma_field_fits(t: Seq<Field>, key: Seq<char>)
    requires
        first_misfit(t) is None,
        field(t, key) is Some,
    ensures
        exists|f: Field| f.key == key && f.value == field(t, key)->0 && #[trigger] reflector_misfit(f) is None,
    decreases t.len(),
{
    if t[0].key == key {
        assert(reflector_misfit(t[0]) is None);
    } else {
        lemma_field_fits(t.skip(1), key);
    }
}

/// The flag under `key`; an absent one is off.
pub open spec fn flag_at(t: Seq<Field>, key: Seq<char>) -> bool {
    match field(t, key) {
        Some(d) => flag_value(d)->Ok_0,
        None => false,
    }
}

/// The optional list under `key`.
pub open spec fn list_at<R: ListRule>(t: Seq<Field>, key: Seq<char>) -> Option<Seq<R::Item>> where
    R::Item: Written,
 {
    match field(t, key) {
        Some(d) => Some(list_value::<R>(d)->Ok_0),
        None => None,
    }
}

/// The address family under `key`.
pub open spec fn family_at(t: Seq<Field>, key: Seq<char>) -> AddressFamily {
    match field(t, key) {
        Some(d) => family_value(d)->Ok_0,
        None => AddressFamily::Default,
    }
}

/// The entry that a reflector's table writes, or the first thing in it that does not fit.
#[verifier::opaque]
pub open spec fn entry_of(t: Seq<Field>, span: Span) -> Result<RawEntry, Unfit> {
    match first_misfit(t) {
        Some(u) => Err(u),
        None => match (field(t, "source_if"@), field(t, "target_if"@)) {
            (None, _) => Err(missing(span, "source_if"@)),
            (_, None) => Err(missing(span, "target_if"@)),
            (Some(source_if), Some(target_if)) => Ok(
                RawEntry {
                    name: None,
                    source_if: interface_value(source_if)->Ok_0,
                    target_if: interface_value(target_if)->Ok_0,
                    source_peers: list_at::<Peers>(t, "source_peers"@),
                    target_peers: list_at::<Peers>(t, "target_peers"@),
                    macs: list_at::<Macs>(t, "macs"@),
                    address_family: family_at(t, "address_family"@),
                    wol: flag_at(t, "wol"@),
                    wol_ports: list_at::<Ports>(t, "wol_ports"@),
                    mdns: flag_at(t, "mdns"@),
                    ssdp: flag_at(t, "ssdp"@),
                    dial: flag_at(t, "dial"@),
                    wsd: flag_at(t, "wsd"@),
                    bidirectional: flag_at(t, "bidirectional"@),
                    udp_ports: list_at::<Ports>(t, "udp_ports"@),
                    udp_groups: list_at::<Groups>(t, "udp_groups"@),
                    udp_broadcast: flag_at(t, "udp_broadcast"@),
                },
            ),
        },
    }
}

/// The key of a reflector's table whose value stands at a place of a reflector's array.
pub open spec fn key_at(i: int) -> Seq<char> {
    if i == 0 {
        "source_if"@
    } else if i == 1 {
        "target_if"@
    } else if i == 2 {
        "source_peers"@
    } else if i == 3 {
        "target_peers"@
    } else if i == 4 {
        "macs"@
    } else if i == 5 {
        "address_family"@
    } else if i == 6 {
        "wol"@
    } else if i == 7 {
        "wol_ports"@
    } else if i == 8 {
        "mdns"@
    } else if i == 9 {
        "ssdp"@
    } else if i == 10 {
        "dial"@
    } else if i == 11 {
        "wsd"@
    } else if i == 12 {
        "bidirectional"@
    } else if i == 13 {
        "udp_ports"@
    } else if i == 14 {
        "udp_groups"@
    } else {
        "udp_broadcast"@
    }
}

fn name_at(i: usize) -> (r: &'static str)
    ensures
        r@ == key_at(i as int),
{
    match i {
        0 => "source_if",
        1 => "target_if",
        2 => "source_peers",
        3 => "target_peers",
        4 => "macs",
        5 => "address_family",
        6 => "wol",
        7 => "wol_ports",
        8 => "mdns",
        9 => "ssdp",
        10 => "dial",
        11 => "wsd",
        12 => "bidirectional",
        13 => "udp_ports",
        14 => "udp_groups",
        _ => "udp_broadcast",
    }
}

/// How many keys a reflector's table can have, and how many values its array is read for.
pub const REFLECTOR_KEYS: usize = 16;

/// How many values a reflector's array needs: all but the last, which is a flag.
pub const REFLECTOR_VALUES: usize = 15;

/// The first place from `n` on whose value a reflector's array cannot do without: the address family
/// and the flags may be left out.
pub open spec fn lacking(n: int) -> int {
    if n < 5 {
        n
    } else if n <= 7 {
        7
    } else if n <= 13 {
        13
    } else {
        14
    }
}

/// A reflector's array is too short.
pub open spec fn too_short(n: nat, span: Span) -> Unfit {
    Unfit {
        span,
        what: "invalid length "@ + number::decimal(lacking(n as int) as nat)
            + ", expected struct RawReflector with 16 elements"@,
    }
}

fn of_too_short(n: usize, span: Span) -> (r: Misfit)
    requires
        n < REFLECTOR_VALUES,
    ensures
        r@ == too_short(n as nat, span),
{
    let place: u64 = if n < 5 {
        n as u64
    } else if n <= 7 {
        7
    } else if n <= 13 {
        13
    } else {
        14
    };
    let mut what = "invalid length ".to_owned();
    text::push_decimal(&mut what, place);
    what.append(", expected struct RawReflector with 16 elements");
    Misfit { span, what }
}

/// Whether a value at a place of a reflector's array is one whose text is refused of the whole array:
/// the names of the interfaces, and the address family.
pub open spec fn refused_of_the_whole(i: int, d: Doc) -> bool {
    (i == 0 || i == 1 || i == 5) && d.kind is Text
}

/// The value at a place of a reflector's array, under its key.
pub open spec fn keyed_value(i: int, d: Doc, span: Span) -> Field {
    Field {
        key: key_at(i),
        key_span: d.span,
        value: Doc {
            span: if refused_of_the_whole(i, d) {
                span
            } else {
                d.span
            },
            refused: d.refused,
            kind: d.kind,
        },
    }
}

/// The values of a reflector's array, each under its key. What is beyond the keys is not looked at.
pub open spec fn keyed_values(s: Seq<Doc>, span: Span) -> Seq<Field> {
    Seq::new(
        if s.len() < REFLECTOR_KEYS {
            s.len()
        } else {
            REFLECTOR_KEYS as nat
        },
        |i: int| keyed_value(i, s[i], span),
    )
}

/// The entry that a reflector's array writes, its values in the order of the keys, or the first thing
/// in it that does not fit.
pub open spec fn sequence_of(s: Seq<Doc>, span: Span) -> Result<RawEntry, Unfit> {
    match first_misfit(keyed_values(s, span)) {
        Some(u) => Err(u),
        None => if s.len() < REFLECTOR_VALUES {
            Err(too_short(s.len(), span))
        } else {
            entry_of(keyed_values(s, span), span)
        },
    }
}

/// What a date or a time has for a key.
pub open spec fn date_key() -> Seq<char> {
    "$__toml_private_datetime"@
}

/// The entry that the value under a reflector's name writes.
pub open spec fn reflector_value(d: Doc) -> Result<RawEntry, Unfit> {
    match d.kind {
        Kind::Table(t) => entry_of(t, d.span),
        Kind::Array(s) => sequence_of(s, d.span),
        Kind::Date(_) => Err(
            Unfit { span: d.span, what: unknown_text(date_key(), reflector_keys()) },
        ),
        _ => Err(wrong_type(d, "struct RawReflector"@)),
    }
}

/// The entries under their keys, placed one after the other, or the first thing that does not fit.
pub open spec fn entries_of(t: Seq<Field>) -> Result<Seq<(Seq<char>, RawEntry)>, Unfit>
    decreases t.len(),
{
    if t.len() == 0 {
        Ok(Seq::empty())
    } else {
        match entries_of(t.drop_last()) {
            Err(u) => Err(u),
            Ok(before) => match reflector_value(t.last().value) {
                Ok(raw) => Ok(raw::placed(before, t.last().key, raw)),
                Err(u) => Err(u),
            },
        }
    }
}

/// The reflectors of a document.
pub open spec fn reflectors_value(d: Doc) -> Result<Seq<(Seq<char>, RawEntry)>, Unfit> {
    match d.kind {
        Kind::Table(t) => entries_of(t),
        Kind::Date(s) => Err(
            Unfit {
                span: d.span,
                what: "invalid type: string \""@ + s + "\", expected struct RawReflector"@,
            },
        ),
        _ => Err(wrong_type(d, "a map"@)),
    }
}

/// Why a field of the document does not fit, if so.
pub open spec fn document_misfit(f: Field) -> Option<Unfit> {
    match document_shape(f.key) {
        Shape::Level => refusal(level_value(f.value)),
        Shape::Seconds => refusal(seconds_value(f.value)),
        Shape::Reflectors => refusal(reflectors_value(f.value)),
        _ => Some(unknown_key(f, document_keys())),
    }
}

/// Why the first field of the document that does not fit does not, if there is one.
pub open spec fn first_document_misfit(t: Seq<Field>) -> Option<Unfit>
    decreases t.len(),
{
    if t.len() == 0 {
        None
    } else {
        match document_misfit(t[0]) {
            Some(u) => Some(u),
            None => first_document_misfit(t.skip(1)),
        }
    }
}

proof fn lemma_document_field_fits(t: Seq<Field>, key: Seq<char>)
    requires
        first_document_misfit(t) is None,
        field(t, key) is Some,
    ensures
        exists|f: Field| f.key == key && f.value == field(t, key)->0 && #[trigger] document_misfit(f) is None,
    decreases t.len(),
{
    if t[0].key == key {
        assert(document_misfit(t[0]) is None);
    } else {
        lemma_document_field_fits(t.skip(1), key);
    }
}

/// The number of seconds under `key`, if any.
pub open spec fn seconds_at(t: Seq<Field>, key: Seq<char>) -> Option<u64> {
    match field(t, key) {
        Some(d) => Some(seconds_value(d)->Ok_0),
        None => None,
    }
}

/// The configuration that a document writes, or the first thing in it that does not fit.
pub open spec fn settings_of(d: Doc) -> Result<RawSettings, Unfit> {
    match d.kind {
        Kind::Table(t) => match first_document_misfit(t) {
            Some(u) => Err(u),
            None => Ok(
                RawSettings {
                    log_level: match field(t, "log_level"@) {
                        Some(d) => Some(level_value(d)->Ok_0),
                        None => None,
                    },
                    debug_memory_interval_secs: seconds_at(t, "debug_memory_interval_secs"@),
                    counters_interval_secs: seconds_at(t, "counters_interval_secs"@),
                    reflectors: match field(t, "reflectors"@) {
                        Some(d) => reflectors_value(d)->Ok_0,
                        None => Seq::empty(),
                    },
                },
            ),
        },
        _ => Err(wrong_type(d, "struct RawConfig"@)),
    }
}

/// The log level that a document sets, all else in it aside.
pub open spec fn level_of(d: Doc) -> Result<Option<LogLevel>, Unfit> {
    match d.kind {
        Kind::Table(t) => match field(t, "log_level"@) {
            Some(v) => match level_value(v) {
                Ok(level) => Ok(Some(level)),
                Err(u) => Err(u),
            },
            None => Ok(None),
        },
        _ => Err(wrong_type(d, "struct RawConfig"@)),
    }
}

proof fn lemma_field_of_other_keys(t: Seq<Field>, other: Field, key: Seq<char>)
    requires
        other.key != key,
    ensures
        field(t.push(other), key) == field(t, key),
    decreases t.len(),
{
    if t.len() > 0 {
        assert(t.push(other).skip(1) =~= t.skip(1).push(other));
        lemma_field_of_other_keys(t.skip(1), other, key);
    } else {
        assert(t.push(other).skip(1) =~= t);
    }
}

/// The log level is read whatever else the document holds, so a fault in a reflector's table does not
/// hide it.
pub proof fn law_log_level_ignores_other_keys(d: Doc, t: Seq<Field>, other: Field)
    requires
        other.key != "log_level"@,
    ensures
        level_of(Doc { kind: Kind::Table(t.push(other)), ..d }) == level_of(
            Doc { kind: Kind::Table(t), ..d },
        ),
{
    lemma_field_of_other_keys(t, other, "log_level"@);
}

/// Where a document is accepted, its log level is the one that is read ahead of the rest.
pub proof fn law_accepted_level_is_the_one_read_ahead(d: Doc)
    requires
        settings_of(d) is Ok,
    ensures
        level_of(d) == Ok::<_, Unfit>((settings_of(d)->Ok_0).log_level),
{
    let t = d.kind->Table_0;
    if field(t, "log_level"@) is Some {
        lemma_document_field_fits(t, "log_level"@);
    }
}

/// The value of the first field named `key`.
fn find<'a>(t: &'a Vec<Pair>, key: &str) -> (r: Option<&'a Value>)
    ensures
        match r {
            Some(v) => field(document::table(t@), key@) == Some(v@),
            None => field(document::table(t@), key@) is None,
        },
{
    let wanted = key.to_owned();
    let ghost all = document::table(t@);
    let mut i: usize = 0;
    assert(all.skip(0) =~= all);
    while i < t.len()
        invariant
            i <= t@.len(),
            wanted@ == key@,
            all == document::table(t@),
            field(all, key@) == field(all.skip(i as int), key@),
        decreases t@.len() - i,
    {
        assert(all.skip(i as int)[0] == t@[i as int]@);
        if t[i].key == wanted {
            return Some(&t[i].value);
        }
        assert(all.skip(i as int).skip(1) =~= all.skip(i as int + 1));
        i += 1;
    }
    None
}

/// The flag under `key`, which fits.
fn find_flag(t: &Vec<Pair>, key: &str) -> (r: bool)
    requires
        first_misfit(document::table(t@)) is None,
        reflector_shape(key@) is Flag,
    ensures
        r == flag_at(document::table(t@), key@),
{
    match find(t, key) {
        Some(v) => {
            proof {
                lemma_field_fits(document::table(t@), key@);
            }
            read_flag(v).unwrap()
        },
        None => false,
    }
}

/// The list under `key`, which fits.
fn find_list<R: ListRule>(t: &Vec<Pair>, key: &str) -> (r: Option<UniqueList<R>>) where
    R::Item: Written,

    requires
        field(document::table(t@), key@) matches Some(d) ==> list_value::<R>(d) is Ok,
    ensures
        config::listed(r) == list_at::<R>(document::table(t@), key@),
        config::list_wf(r),
{
    match find(t, key) {
        Some(v) => read_list::<R>(v).ok(),
        None => None,
    }
}

/// The first field of a reflector's table that does not fit.
fn find_misfit(t: &Vec<Pair>) -> (r: Option<Misfit>)
    ensures
        match r {
            Some(m) => first_misfit(document::table(t@)) == Some(m@),
            None => first_misfit(document::table(t@)) is None,
        },
{
    let ghost all = document::table(t@);
    let mut i: usize = 0;
    assert(all.skip(0) =~= all);
    while i < t.len()
        invariant
            i <= t@.len() == all.len(),
            all == document::table(t@),
            first_misfit(all) == first_misfit(all.skip(i as int)),
        decreases t@.len() - i,
    {
        assert(all.skip(i as int)[0] == t@[i as int]@);
        assert(all.skip(i as int).skip(1) =~= all.skip(i as int + 1));
        match misfit_in_reflector(&t[i]) {
            Some(m) => return Some(m),
            None => {},
        }
        i += 1;
    }
    None
}

/// What the values under the keys of a reflector's table are to be.
proof fn lemma_reflector_shapes()
    ensures
        reflector_shape("source_if"@) is Interface,
        reflector_shape("target_if"@) is Interface,
        reflector_shape("source_peers"@) is Peers,
        reflector_shape("target_peers"@) is Peers,
        reflector_shape("macs"@) is Macs,
        reflector_shape("address_family"@) is Family,
        reflector_shape("wol"@) is Flag,
        reflector_shape("mdns"@) is Flag,
        reflector_shape("ssdp"@) is Flag,
        reflector_shape("dial"@) is Flag,
        reflector_shape("wsd"@) is Flag,
        reflector_shape("bidirectional"@) is Flag,
        reflector_shape("udp_broadcast"@) is Flag,
        reflector_shape("wol_ports"@) is Ports,
        reflector_shape("udp_ports"@) is Ports,
        reflector_shape("udp_groups"@) is Groups,
{
    reveal_strlit("source_if");
    reveal_strlit("target_if");
    reveal_strlit("source_peers");
    reveal_strlit("target_peers");
    reveal_strlit("macs");
    reveal_strlit("address_family");
    reveal_strlit("wol");
    reveal_strlit("mdns");
    reveal_strlit("ssdp");
    reveal_strlit("dial");
    reveal_strlit("wsd");
    reveal_strlit("bidirectional");
    reveal_strlit("udp_broadcast");
    reveal_strlit("wol_ports");
    reveal_strlit("udp_ports");
    reveal_strlit("udp_groups");
    assert("source_if"@.len() == 9);
    assert("target_if"@.len() == 9);
    assert("source_peers"@.len() == 12);
    assert("target_peers"@.len() == 12);
    assert("macs"@.len() == 4);
    assert("address_family"@.len() == 14);
    assert("wol"@.len() == 3);
    assert("mdns"@.len() == 4);
    assert("ssdp"@.len() == 4);
    assert("dial"@.len() == 4);
    assert("wsd"@.len() == 3);
    assert("bidirectional"@.len() == 13);
    assert("udp_broadcast"@.len() == 13);
    assert("wol_ports"@.len() == 9);
    assert("udp_ports"@.len() == 9);
    assert("udp_groups"@.len() == 10);
    assert("macs"@[1] == 'a');
    assert("mdns"@[1] == 'd');
    assert("ssdp"@[1] == 's');
    assert("dial"@[1] == 'i');
    assert("source_if"@[0] == 's');
    assert("target_if"@[0] == 't');
    assert("wol_ports"@[0] == 'w');
    assert("udp_ports"@[0] == 'u');
}

/// The list under a key that fits is accepted.
proof fn lemma_lists_fit(t: Seq<Field>)
    requires
        first_misfit(t) is None,
    ensures
        field(t, "source_peers"@) matches Some(d) ==> list_value::<Peers>(d) is Ok,
        field(t, "target_peers"@) matches Some(d) ==> list_value::<Peers>(d) is Ok,
        field(t, "macs"@) matches Some(d) ==> list_value::<Macs>(d) is Ok,
        field(t, "wol_ports"@) matches Some(d) ==> list_value::<Ports>(d) is Ok,
        field(t, "udp_ports"@) matches Some(d) ==> list_value::<Ports>(d) is Ok,
        field(t, "udp_groups"@) matches Some(d) ==> list_value::<Groups>(d) is Ok,
{
    lemma_reflector_shapes();
    if field(t, "source_peers"@) is Some {
        lemma_field_fits(t, "source_peers"@);
    }
    if field(t, "target_peers"@) is Some {
        lemma_field_fits(t, "target_peers"@);
    }
    if field(t, "macs"@) is Some {
        lemma_field_fits(t, "macs"@);
    }
    if field(t, "wol_ports"@) is Some {
        lemma_field_fits(t, "wol_ports"@);
    }
    if field(t, "udp_ports"@) is Some {
        lemma_field_fits(t, "udp_ports"@);
    }
    if field(t, "udp_groups"@) is Some {
        lemma_field_fits(t, "udp_groups"@);
    }
}

/// The entry that a reflector's table writes, which stands at `span`.
pub fn decode_reflector(t: &Vec<Pair>, span: Span) -> (r: Result<RawReflector, Misfit>)
    ensures
        match r {
            Ok(raw) => entry_of(document::table(t@), span) == Ok::<_, Unfit>(raw@) && raw.wf(),
            Err(m) => entry_of(document::table(t@), span) == Err::<RawEntry, _>(m@),
        },
{
    reveal(entry_of);
    if let Some(m) = find_misfit(t) {
        return Err(m);
    }
    let ghost all = document::table(t@);
    proof {
        lemma_reflector_shapes();
        lemma_lists_fit(all);
    }
    let source_if = match find(t, "source_if") {
        Some(v) => {
            proof {
                lemma_field_fits(all, "source_if"@);
            }
            read_interface(v).unwrap()
        },
        None => return Err(of_missing(span, "source_if")),
    };
    let target_if = match find(t, "target_if") {
        Some(v) => {
            proof {
                lemma_field_fits(all, "target_if"@);
            }
            read_interface(v).unwrap()
        },
        None => return Err(of_missing(span, "target_if")),
    };
    let address_family = match find(t, "address_family") {
        Some(v) => {
            proof {
                lemma_field_fits(all, "address_family"@);
            }
            read_family(v).unwrap()
        },
        None => AddressFamily::default(),
    };
    Ok(
        RawReflector {
            name: None,
            source_if,
            target_if,
            source_peers: find_list::<Peers>(t, "source_peers"),
            target_peers: find_list::<Peers>(t, "target_peers"),
            macs: find_list::<Macs>(t, "macs"),
            address_family,
            wol: find_flag(t, "wol"),
            wol_ports: find_list::<Ports>(t, "wol_ports"),
            mdns: find_flag(t, "mdns"),
            ssdp: find_flag(t, "ssdp"),
            dial: find_flag(t, "dial"),
            wsd: find_flag(t, "wsd"),
            bidirectional: find_flag(t, "bidirectional"),
            udp_ports: find_list::<Ports>(t, "udp_ports"),
            udp_groups: find_list::<Groups>(t, "udp_groups"),
            udp_broadcast: find_flag(t, "udp_broadcast"),
        },
    )
}

/// The value at a place of a reflector's array, under its key.
fn pair_at(i: usize, v: &Value, span: Span) -> (r: Pair)
    ensures
        r@ == keyed_value(i as int, v@, span),
{
    let said: Span = match &v.item {
        Item::Text(_) => if i == 0 || i == 1 || i == 5 {
            span
        } else {
            v.span
        },
        _ => v.span,
    };
    let copy = v.copied();
    let value = Value { span: said, refused: copy.refused, item: copy.item };
    Pair { key: name_at(i).to_owned(), key_span: v.span, value }
}

/// No two places of a reflector's array have the same key.
proof fn lemma_keys_differ()
    ensures
        forall|i: int, j: int| 0 <= i < j < REFLECTOR_KEYS ==> #[trigger] key_at(i) != #[trigger] key_at(j),
{
    reveal_strlit("source_if");
    reveal_strlit("target_if");
    reveal_strlit("source_peers");
    reveal_strlit("target_peers");
    reveal_strlit("macs");
    reveal_strlit("address_family");
    reveal_strlit("wol");
    reveal_strlit("wol_ports");
    reveal_strlit("mdns");
    reveal_strlit("ssdp");
    reveal_strlit("dial");
    reveal_strlit("wsd");
    reveal_strlit("bidirectional");
    reveal_strlit("udp_ports");
    reveal_strlit("udp_groups");
    reveal_strlit("udp_broadcast");
    assert("source_if"@.len() == 9);
    assert("target_if"@.len() == 9);
    assert("source_peers"@.len() == 12);
    assert("target_peers"@.len() == 12);
    assert("macs"@.len() == 4);
    assert("address_family"@.len() == 14);
    assert("wol"@.len() == 3);
    assert("wol_ports"@.len() == 9);
    assert("mdns"@.len() == 4);
    assert("ssdp"@.len() == 4);
    assert("dial"@.len() == 4);
    assert("wsd"@.len() == 3);
    assert("bidirectional"@.len() == 13);
    assert("udp_ports"@.len() == 9);
    assert("udp_groups"@.len() == 10);
    assert("udp_broadcast"@.len() == 13);
    assert("source_if"@[0] == 's');
    assert("target_if"@[0] == 't');
    assert("wol_ports"@[0] == 'w');
    assert("udp_ports"@[0] == 'u');
    assert("source_peers"@[0] == 's');
    assert("target_peers"@[0] == 't');
    assert("macs"@[1] == 'a');
    assert("mdns"@[1] == 'd');
    assert("ssdp"@[1] == 's');
    assert("dial"@[1] == 'i');
    assert("wol"@[1] == 'o');
    assert("wsd"@[1] == 's');
    assert("bidirectional"@[0] == 'b');
    assert("udp_broadcast"@[0] == 'u');
}

/// The value under the key of a place is the one at that place.
proof fn lemma_field_at(t: Seq<Field>, i: int, from: int)
    requires
        0 <= from <= i,
        from + t.len() <= REFLECTOR_KEYS,
        forall|j: int| 0 <= j < t.len() ==> (#[trigger] t[j]).key == key_at(from + j),
        i < REFLECTOR_KEYS,
    ensures
        field(t, key_at(i)) == (if i < from + t.len() {
            Some(t[i - from].value)
        } else {
            None
        }),
    decreases t.len(),
{
    lemma_keys_differ();
    if t.len() > 0 && from < i {
        let rest = t.skip(1);
        assert(t[0].key == key_at(from + 0));
        assert forall|j: int| 0 <= j < rest.len() implies (#[trigger] rest[j]).key == key_at(
            from + 1 + j,
        ) by {
            assert(rest[j] == t[j + 1]);
        }
        lemma_field_at(rest, i, from + 1);
    } else if t.len() > 0 {
        assert(t[0].key == key_at(from + 0));
    }
}

/// A value writes a list that its rule accepts.
pub open spec fn writes_list<R: ListRule>(d: Doc, list: Option<Seq<R::Item>>) -> bool where
    R::Item: Written,
 {
    list matches Some(items) && list_value::<R>(d) == Ok::<_, Unfit>(items)
}

/// A reflector's array is accepted where every value of it fits its key and it is long enough; the
/// entry then has each value from its place, and the last flag off where it is left out.
pub proof fn law_an_array_has_its_values_in_the_order_of_the_keys(s: Seq<Doc>, span: Span)
    ensures
        sequence_of(s, span) is Ok <==> first_misfit(keyed_values(s, span)) is None && s.len()
            >= REFLECTOR_VALUES,
        sequence_of(s, span) matches Ok(entry) ==> {
            &&& entry.name is None
            &&& interface_value(s[0]) == Ok::<_, Unfit>(entry.source_if)
            &&& interface_value(s[1]) == Ok::<_, Unfit>(entry.target_if)
            &&& writes_list::<Peers>(s[2], entry.source_peers)
            &&& writes_list::<Peers>(s[3], entry.target_peers)
            &&& writes_list::<Macs>(s[4], entry.macs)
            &&& family_value(s[5]) == Ok::<_, Unfit>(entry.address_family)
            &&& flag_value(s[6]) == Ok::<_, Unfit>(entry.wol)
            &&& writes_list::<Ports>(s[7], entry.wol_ports)
            &&& flag_value(s[8]) == Ok::<_, Unfit>(entry.mdns)
            &&& flag_value(s[9]) == Ok::<_, Unfit>(entry.ssdp)
            &&& flag_value(s[10]) == Ok::<_, Unfit>(entry.dial)
            &&& flag_value(s[11]) == Ok::<_, Unfit>(entry.wsd)
            &&& flag_value(s[12]) == Ok::<_, Unfit>(entry.bidirectional)
            &&& writes_list::<Ports>(s[13], entry.udp_ports)
            &&& writes_list::<Groups>(s[14], entry.udp_groups)
            &&& if s.len() > 15 {
                flag_value(s[15]) == Ok::<_, Unfit>(entry.udp_broadcast)
            } else {
                !entry.udp_broadcast
            }
        },
{
    reveal(entry_of);
    let t = keyed_values(s, span);
    if first_misfit(t) is None && s.len() >= REFLECTOR_VALUES {
        assert forall|j: int| 0 <= j < t.len() implies (#[trigger] t[j]).key == key_at(0 + j) by {}
        lemma_reflector_shapes();
        lemma_field_at(t, 0, 0);
        lemma_field_fits(t, "source_if"@);
        lemma_field_at(t, 1, 0);
        lemma_field_fits(t, "target_if"@);
        lemma_field_at(t, 2, 0);
        lemma_field_fits(t, "source_peers"@);
        lemma_field_at(t, 3, 0);
        lemma_field_fits(t, "target_peers"@);
        lemma_field_at(t, 4, 0);
        lemma_field_fits(t, "macs"@);
        lemma_field_at(t, 5, 0);
        lemma_field_fits(t, "address_family"@);
        lemma_field_at(t, 6, 0);
        lemma_field_fits(t, "wol"@);
        lemma_field_at(t, 7, 0);
        lemma_field_fits(t, "wol_ports"@);
        lemma_field_at(t, 8, 0);
        lemma_field_fits(t, "mdns"@);
        lemma_field_at(t, 9, 0);
        lemma_field_fits(t, "ssdp"@);
        lemma_field_at(t, 10, 0);
        lemma_field_fits(t, "dial"@);
        lemma_field_at(t, 11, 0);
        lemma_field_fits(t, "wsd"@);
        lemma_field_at(t, 12, 0);
        lemma_field_fits(t, "bidirectional"@);
        lemma_field_at(t, 13, 0);
        lemma_field_fits(t, "udp_ports"@);
        lemma_field_at(t, 14, 0);
        lemma_field_fits(t, "udp_groups"@);
        lemma_field_at(t, 15, 0);
        if s.len() > 15 {
            lemma_field_fits(t, "udp_broadcast"@);
        }
    }
}

/// The entry that a reflector's array writes, which stands at `span`.
pub fn decode_sequence(s: &Vec<Value>, span: Span) -> (r: Result<RawReflector, Misfit>)
    ensures
        match r {
            Ok(raw) => sequence_of(document::array(s@), span) == Ok::<_, Unfit>(raw@) && raw.wf(),
            Err(m) => sequence_of(document::array(s@), span) == Err::<RawEntry, _>(m@),
        },
{
    let ghost fields = keyed_values(document::array(s@), span);
    let mut t: Vec<Pair> = Vec::new();
    let mut i: usize = 0;
    while i < s.len() && i < REFLECTOR_KEYS
        invariant
            i <= s@.len(),
            i <= REFLECTOR_KEYS,
            t@.len() == i,
            fields == keyed_values(document::array(s@), span),
            forall|j: int| 0 <= j < i ==> (#[trigger] t@[j])@ == fields[j],
        decreases s@.len() - i,
    {
        t.push(pair_at(i, &s[i], span));
        i += 1;
    }
    assert(document::table(t@) =~= fields);
    if let Some(m) = find_misfit(&t) {
        return Err(m);
    }
    if s.len() < REFLECTOR_VALUES {
        return Err(of_too_short(s.len(), span));
    }
    decode_reflector(&t, span)
}

/// The entries that the tables under `reflectors` write, in the order of their keys.
fn read_reflectors(v: &Value) -> (r: Result<Vec<(String, RawReflector)>, Misfit>)
    ensures
        match r {
            Ok(list) => reflectors_value(v@) == Ok::<_, Unfit>(raw::keyed(list@)) && raw::all_wf(
                list@,
            ),
            Err(m) => reflectors_value(v@) == Err::<Seq<(Seq<char>, RawEntry)>, _>(m@),
        },
{
    match &v.item {
        Item::Table(t) => {
            assert(v@.kind->Table_0 =~= document::table(t@));
            read_entries(t)
        },
        Item::Date(s) => {
            let mut what = "invalid type: string \"".to_owned();
            what.append(s.as_str());
            what.append("\", expected struct RawReflector");
            Err(not_accepted(v, what))
        },
        _ => Err(of_wrong_type(v, "a map")),
    }
}

fn read_entries(t: &Vec<Pair>) -> (r: Result<Vec<(String, RawReflector)>, Misfit>)
    ensures
        match r {
            Ok(list) => entries_of(document::table(t@)) == Ok::<_, Unfit>(raw::keyed(list@))
                && raw::all_wf(list@),
            Err(m) => entries_of(document::table(t@)) == Err::<Seq<(Seq<char>, RawEntry)>, _>(m@),
        },
{
    let ghost all = document::table(t@);
    let mut list: Vec<(String, RawReflector)> = Vec::new();
    let mut i: usize = 0;
    assert(raw::keyed(list@) =~= Seq::empty());
    while i < t.len()
        invariant
            i <= t@.len() == all.len(),
            all == document::table(t@),
            entries_of(all.take(i as int)) == Ok::<_, Unfit>(raw::keyed(list@)),
            raw::all_wf(list@),
        decreases t@.len() - i,
    {
        assert(all.take(i as int + 1).drop_last() =~= all.take(i as int));
        assert(all[i as int] == t@[i as int]@);
        match read_reflector(&t[i].value) {
            Ok(raw) => raw::place(&mut list, t[i].key.clone(), raw),
            Err(m) => {
                proof {
                    lemma_entries_stop(all, i as int + 1);
                }
                return Err(m);
            },
        }
        i += 1;
    }
    assert(all.take(i as int) =~= all);
    Ok(list)
}

fn read_reflector(v: &Value) -> (r: Result<RawReflector, Misfit>)
    ensures
        match r {
            Ok(raw) => reflector_value(v@) == Ok::<_, Unfit>(raw@) && raw.wf(),
            Err(m) => reflector_value(v@) == Err::<RawEntry, _>(m@),
        },
{
    match &v.item {
        Item::Table(t) => {
            assert(v@.kind->Table_0 =~= document::table(t@));
            decode_reflector(t, v.span)
        },
        Item::Array(s) => {
            assert(v@.kind->Array_0 =~= document::array(s@));
            decode_sequence(s, v.span)
        },
        Item::Date(_) => Err(
            not_accepted(
                v,
                say_unknown(
                    "$__toml_private_datetime",
                    "`source_if`, `target_if`, `source_peers`, `target_peers`, `macs`, `address_family`, `wol`, `wol_ports`, `mdns`, `ssdp`, `dial`, `wsd`, `bidirectional`, `udp_ports`, `udp_groups`, `udp_broadcast`",
                ),
            ),
        ),
        _ => Err(of_wrong_type(v, "struct RawReflector")),
    }
}

proof fn lemma_entries_stop(t: Seq<Field>, n: int)
    requires
        0 <= n <= t.len(),
        entries_of(t.take(n)) is Err,
    ensures
        entries_of(t) == entries_of(t.take(n)),
    decreases t.len() - n,
{
    if n < t.len() {
        assert(t.take(n + 1).drop_last() =~= t.take(n));
        lemma_entries_stop(t, n + 1);
    } else {
        assert(t.take(n) =~= t);
    }
}

fn misfit_in_document(pair: &Pair) -> (r: Option<Misfit>)
    ensures
        match r {
            Some(m) => document_misfit(pair@) == Some(m@),
            None => document_misfit(pair@) is None,
        },
{
    match shape_in_document(pair.key.as_str()) {
        Shape::Level => read_level(&pair.value).err(),
        Shape::Seconds => read_seconds(&pair.value).err(),
        Shape::Reflectors => read_reflectors(&pair.value).err(),
        _ => Some(
            of_unknown_key(
                pair,
                "`log_level`, `debug_memory_interval_secs`, `counters_interval_secs`, `reflectors`",
            ),
        ),
    }
}

/// The first field of the document that does not fit.
fn find_document_misfit(t: &Vec<Pair>) -> (r: Option<Misfit>)
    ensures
        match r {
            Some(m) => first_document_misfit(document::table(t@)) == Some(m@),
            None => first_document_misfit(document::table(t@)) is None,
        },
{
    let ghost all = document::table(t@);
    let mut i: usize = 0;
    assert(all.skip(0) =~= all);
    while i < t.len()
        invariant
            i <= t@.len() == all.len(),
            all == document::table(t@),
            first_document_misfit(all) == first_document_misfit(all.skip(i as int)),
        decreases t@.len() - i,
    {
        assert(all.skip(i as int)[0] == t@[i as int]@);
        assert(all.skip(i as int).skip(1) =~= all.skip(i as int + 1));
        match misfit_in_document(&t[i]) {
            Some(m) => return Some(m),
            None => {},
        }
        i += 1;
    }
    None
}

/// What the values under the keys of the whole document are to be.
proof fn lemma_document_shapes()
    ensures
        document_shape("log_level"@) is Level,
        document_shape("debug_memory_interval_secs"@) is Seconds,
        document_shape("counters_interval_secs"@) is Seconds,
        document_shape("reflectors"@) is Reflectors,
{
    reveal_strlit("log_level");
    reveal_strlit("debug_memory_interval_secs");
    reveal_strlit("counters_interval_secs");
    reveal_strlit("reflectors");
    assert("log_level"@.len() == 9);
    assert("debug_memory_interval_secs"@.len() == 26);
    assert("counters_interval_secs"@.len() == 22);
    assert("reflectors"@.len() == 10);
}

/// The number of seconds under `key`, which fits.
fn find_seconds(t: &Vec<Pair>, key: &str) -> (r: Option<u64>)
    requires
        first_document_misfit(document::table(t@)) is None,
        document_shape(key@) is Seconds,
    ensures
        r == seconds_at(document::table(t@), key@),
{
    match find(t, key) {
        Some(v) => {
            proof {
                lemma_document_field_fits(document::table(t@), key@);
            }
            read_seconds(v).ok()
        },
        None => None,
    }
}

/// The configuration that a document writes, or the first thing in it that does not fit the schema.
pub fn decode(v: &Value) -> (r: Result<RawConfig, Misfit>)
    ensures
        match r {
            Ok(raw) => settings_of(v@) == Ok::<_, Unfit>(raw@) && raw.wf(),
            Err(m) => settings_of(v@) == Err::<RawSettings, _>(m@),
        },
{
    match &v.item {
        Item::Table(t) => {
            let ghost all = document::table(t@);
            assert(v@.kind->Table_0 =~= all);
            if let Some(m) = find_document_misfit(t) {
                return Err(m);
            }
            proof {
                lemma_document_shapes();
            }
            let log_level = match find(t, "log_level") {
                Some(v) => {
                    proof {
                        lemma_document_field_fits(all, "log_level"@);
                    }
                    read_level(v).ok()
                },
                None => None,
            };
            let reflectors = match find(t, "reflectors") {
                Some(v) => {
                    proof {
                        lemma_document_field_fits(all, "reflectors"@);
                    }
                    read_reflectors(v).unwrap()
                },
                None => Vec::new(),
            };
            assert(reflectors@.len() == 0 ==> raw::keyed(reflectors@) =~= Seq::empty());
            Ok(
                RawConfig {
                    log_level,
                    debug_memory_interval_secs: find_seconds(t, "debug_memory_interval_secs"),
                    counters_interval_secs: find_seconds(t, "counters_interval_secs"),
                    reflectors,
                },
            )
        },
        _ => Err(of_wrong_type(v, "struct RawConfig")),
    }
}

/// The log level that a document sets, all else in it aside.
pub fn decode_level(v: &Value) -> (r: Result<Option<LogLevel>, Misfit>)
    ensures
        match r {
            Ok(level) => level_of(v@) == Ok::<_, Unfit>(level),
            Err(m) => level_of(v@) == Err::<Option<LogLevel>, _>(m@),
        },
{
    match &v.item {
        Item::Table(t) => {
            assert(v@.kind->Table_0 =~= document::table(t@));
            match find(t, "log_level") {
                Some(v) => match read_level(v) {
                    Ok(level) => Ok(Some(level)),
                    Err(m) => Err(m),
                },
                None => Ok(None),
            }
        },
        _ => Err(of_wrong_type(v, "struct RawConfig")),
    }
}

/// The value of a key is that of the first field of the key.
pub proof fn law_the_first_field_of_a_key_counts(t: Seq<Field>, i: int, key: Seq<char>)
    requires
        0 <= i <= t.len(),
        forall|j: int| 0 <= j < i ==> (#[trigger] t[j]).key != key,
    ensures
        i < t.len() && t[i].key == key ==> field(t, key) == Some(t[i].value),
        i == t.len() ==> field(t, key) is None,
    decreases t.len(),
{
    if i > 0 {
        let rest = t.skip(1);
        assert(t[0].key != key);
        assert forall|j: int| 0 <= j < i - 1 implies (#[trigger] rest[j]).key != key by {
            assert(rest[j] == t[j + 1]);
        }
        law_the_first_field_of_a_key_counts(rest, i - 1, key);
        if i < t.len() {
            assert(rest[i - 1] == t[i]);
        }
    }
}

/// A value writes an optional list: none where it is not there.
pub open spec fn writes_optional_list<R: ListRule>(d: Option<Doc>, list: Option<Seq<R::Item>>) -> bool where
    R::Item: Written,
 {
    match d {
        Some(d) => writes_list::<R>(d, list),
        None => list is None,
    }
}

/// A value writes a flag: off where it is not there.
pub open spec fn writes_flag(d: Option<Doc>, flag: bool) -> bool {
    match d {
        Some(d) => d.kind == Kind::Boolean(flag),
        None => !flag,
    }
}

/// A reflector's table is accepted where every field of it fits and both interfaces are there; the entry
/// then has each value from under its own key.
#[verifier::rlimit(60)]
pub proof fn law_a_table_has_its_values_under_their_keys(t: Seq<Field>, span: Span)
    ensures
        entry_of(t, span) is Ok <==> first_misfit(t) is None && field(t, "source_if"@) is Some
            && field(t, "target_if"@) is Some,
        entry_of(t, span) matches Ok(entry) ==> {
            &&& entry.name is None
            &&& (field(t, "source_if"@)->0).kind == Kind::Text(entry.source_if)
            &&& (field(t, "target_if"@)->0).kind == Kind::Text(entry.target_if)
            &&& writes_optional_list::<Peers>(field(t, "source_peers"@), entry.source_peers)
            &&& writes_optional_list::<Peers>(field(t, "target_peers"@), entry.target_peers)
            &&& writes_optional_list::<Macs>(field(t, "macs"@), entry.macs)
            &&& match field(t, "address_family"@) {
                Some(d) => family_value(d) == Ok::<_, Unfit>(entry.address_family),
                None => entry.address_family == AddressFamily::Default,
            }
            &&& writes_flag(field(t, "wol"@), entry.wol)
            &&& writes_optional_list::<Ports>(field(t, "wol_ports"@), entry.wol_ports)
            &&& writes_flag(field(t, "mdns"@), entry.mdns)
            &&& writes_flag(field(t, "ssdp"@), entry.ssdp)
            &&& writes_flag(field(t, "dial"@), entry.dial)
            &&& writes_flag(field(t, "wsd"@), entry.wsd)
            &&& writes_flag(field(t, "bidirectional"@), entry.bidirectional)
            &&& writes_optional_list::<Ports>(field(t, "udp_ports"@), entry.udp_ports)
            &&& writes_optional_list::<Groups>(field(t, "udp_groups"@), entry.udp_groups)
            &&& writes_flag(field(t, "udp_broadcast"@), entry.udp_broadcast)
        },
{
    reveal(entry_of);
    lemma_reflector_shapes();
    if first_misfit(t) is None && field(t, "source_if"@) is Some && field(t, "target_if"@) is Some {
        lemma_field_fits(t, "source_if"@);
        lemma_field_fits(t, "target_if"@);
        if field(t, "source_peers"@) is Some {
            lemma_field_fits(t, "source_peers"@);
        }
        if field(t, "target_peers"@) is Some {
            lemma_field_fits(t, "target_peers"@);
        }
        if field(t, "macs"@) is Some {
            lemma_field_fits(t, "macs"@);
        }
        if field(t, "address_family"@) is Some {
            lemma_field_fits(t, "address_family"@);
        }
        if field(t, "wol"@) is Some {
            lemma_field_fits(t, "wol"@);
        }
        if field(t, "wol_ports"@) is Some {
            lemma_field_fits(t, "wol_ports"@);
        }
        if field(t, "mdns"@) is Some {
            lemma_field_fits(t, "mdns"@);
        }
        if field(t, "ssdp"@) is Some {
            lemma_field_fits(t, "ssdp"@);
        }
        if field(t, "dial"@) is Some {
            lemma_field_fits(t, "dial"@);
        }
        if field(t, "wsd"@) is Some {
            lemma_field_fits(t, "wsd"@);
        }
        if field(t, "bidirectional"@) is Some {
            lemma_field_fits(t, "bidirectional"@);
        }
        if field(t, "udp_ports"@) is Some {
            lemma_field_fits(t, "udp_ports"@);
        }
        if field(t, "udp_groups"@) is Some {
            lemma_field_fits(t, "udp_groups"@);
        }
        if field(t, "udp_broadcast"@) is Some {
            lemma_field_fits(t, "udp_broadcast"@);
        }
    }
}

/// A key that the schema does not know is refused, whatever its value, in a reflector's table and in the
/// whole document.
pub proof fn law_an_unknown_key_is_refused(f: Field)
    ensures
        f.key != "source_if"@ && f.key != "target_if"@ && f.key != "source_peers"@ && f.key
            != "target_peers"@ && f.key != "macs"@ && f.key != "address_family"@ && f.key != "wol"@
            && f.key != "wol_ports"@ && f.key != "mdns"@ && f.key != "ssdp"@ && f.key != "dial"@
            && f.key != "wsd"@ && f.key != "bidirectional"@ && f.key != "udp_ports"@ && f.key
            != "udp_groups"@ && f.key != "udp_broadcast"@ ==> reflector_misfit(f) is Some,
        f.key != "log_level"@ && f.key != "debug_memory_interval_secs"@ && f.key
            != "counters_interval_secs"@ && f.key != "reflectors"@ ==> document_misfit(f) is Some,
{
}

/// A table fits where each of its fields does.
pub proof fn law_a_table_fits_where_each_field_does(t: Seq<Field>)
    ensures
        first_misfit(t) is None <==> forall|i: int|
            0 <= i < t.len() ==> reflector_misfit(#[trigger] t[i]) is None,
        first_document_misfit(t) is None <==> forall|i: int|
            0 <= i < t.len() ==> document_misfit(#[trigger] t[i]) is None,
    decreases t.len(),
{
    if t.len() > 0 {
        let rest = t.skip(1);
        law_a_table_fits_where_each_field_does(rest);
        assert forall|i: int| 0 < i < t.len() implies #[trigger] t[i] == rest[i - 1] by {}
        assert forall|i: int| 0 <= i < rest.len() implies #[trigger] rest[i] == t[i + 1] by {}
    }
}

/// A value of a list is read whole or not at all: each of its values writes an item, and the items are
/// not refused, none is there twice, and there is one.
pub proof fn law_a_list_is_read_whole<R: ListRule>(d: Doc, s: Seq<Doc>) where R::Item: Written
    requires
        d.kind == Kind::Array(s),
    ensures
        list_value::<R>(d) is Ok <==> {
            &&& s.len() > 0
            &&& forall|i: int| 0 <= i < s.len() ==> R::Item::of(#[trigger] s[i]) is Some
            &&& items_of::<R::Item>(s).no_duplicates()
            &&& forall|i: int|
                0 <= i < s.len() ==> R::refusal(#[trigger] items_of::<R::Item>(s)[i]) is None
        },
        list_value::<R>(d) matches Ok(items) ==> items == items_of::<R::Item>(s),
{
    unique_list::law_which_lists_are_taken::<R>(items_of::<R::Item>(s));
    lemma_all_read::<R::Item>(s);
}

proof fn lemma_all_read<T: Written>(s: Seq<Doc>)
    ensures
        first_unread::<T>(s) <= s.len(),
        first_unread::<T>(s) == s.len() <==> forall|i: int|
            0 <= i < s.len() ==> T::of(#[trigger] s[i]) is Some,
    decreases s.len(),
{
    if s.len() > 0 {
        let t = s.skip(1);
        lemma_all_read::<T>(t);
        assert forall|i: int| 0 < i < s.len() implies #[trigger] s[i] == t[i - 1] by {}
        assert forall|i: int| 0 <= i < t.len() implies #[trigger] t[i] == s[i + 1] by {}
    }
}

/// What a document writes under the keys of the whole document.
pub proof fn law_what_a_document_sets(d: Doc, t: Seq<Field>)
    requires
        d.kind == Kind::Table(t),
        settings_of(d) is Ok,
    ensures
        ({
            let s = settings_of(d)->Ok_0;
            &&& match field(t, "log_level"@) {
                Some(v) => s.log_level is Some && level_value(v) == Ok::<_, Unfit>(s.log_level->0),
                None => s.log_level is None,
            }
            &&& match field(t, "debug_memory_interval_secs"@) {
                Some(v) => s.debug_memory_interval_secs is Some && seconds_value(v) == Ok::<
                    _,
                    Unfit,
                >(s.debug_memory_interval_secs->0),
                None => s.debug_memory_interval_secs is None,
            }
            &&& match field(t, "counters_interval_secs"@) {
                Some(v) => s.counters_interval_secs is Some && seconds_value(v) == Ok::<_, Unfit>(
                    s.counters_interval_secs->0,
                ),
                None => s.counters_interval_secs is None,
            }
            &&& match field(t, "reflectors"@) {
                Some(v) => reflectors_value(v) == Ok::<_, Unfit>(s.reflectors),
                None => s.reflectors.len() == 0,
            }
        }),
{
    reveal_strlit("log_level");
    reveal_strlit("debug_memory_interval_secs");
    reveal_strlit("counters_interval_secs");
    reveal_strlit("reflectors");
    assert("log_level"@.len() == 9 && "debug_memory_interval_secs"@.len() == 26
        && "counters_interval_secs"@.len() == 22 && "reflectors"@.len() == 10);
    if field(t, "log_level"@) is Some {
        lemma_document_field_fits(t, "log_level"@);
    }
    if field(t, "debug_memory_interval_secs"@) is Some {
        lemma_document_field_fits(t, "debug_memory_interval_secs"@);
    }
    if field(t, "counters_interval_secs"@) is Some {
        lemma_document_field_fits(t, "counters_interval_secs"@);
    }
    if field(t, "reflectors"@) is Some {
        lemma_document_field_fits(t, "reflectors"@);
    }
}

/// Of a reflector's array that is too short, the first value is named that it cannot do without: a flag
/// or the address family is not.
pub proof fn law_what_a_short_array_lacks(n: int, k: int)
    requires
        0 <= n < 15,
    ensures
        n <= lacking(n) < 15,
        !(lacking(n) == 5 || lacking(n) == 6 || 8 <= lacking(n) <= 12),
        n <= k < lacking(n) ==> k == 5 || k == 6 || 8 <= k <= 12,
{
}

/// A number is read in the base it is written in, a minus in front makes it negative, and a base that
/// there is none of reads nothing.
pub proof fn law_a_number_is_read_in_its_base(n: nat, base: u32, digits: Seq<char>)
    ensures
        2 <= base <= 16 ==> integer(number::written(n, base as nat), base) == Some(n as int),
        2 <= base <= 16 ==> integer(seq!['-'] + number::written(n, base as nat), base) == Some(-n),
        base < 2 || base > 16 ==> integer(digits, base) is None,
{
    if 2 <= base <= 16 {
        let w = number::written(n, base as nat);
        let s = crate::ascii::bytes(w);
        number::lemma_written_reads_back(n, base as nat);
        lemma_written_chars(n, base as nat);
        assert('0' <= w[0] && w[0] <= 'f');
        assert(s[0] == w[0] as u8);
        assert(s[0] >= '0' as u8);
        assert forall|i: int| 0 <= i < w.len() implies (#[trigger] w[i]) as u32 <= 127 by {
            assert(w[i] <= 'f');
        }
        assert(text::narrowed(w) == Some(s));
        let neg = seq!['-'] + w;
        assert(crate::ascii::bytes(neg).skip(1) =~= s);
        assert forall|i: int| 0 <= i < neg.len() implies (#[trigger] neg[i]) as u32 <= 127 by {
            if i > 0 {
                assert(neg[i] == w[i - 1]);
            }
        }
    }
}

proof fn lemma_written_chars(n: nat, base: nat)
    requires
        2 <= base <= 16,
    ensures
        number::written(n, base).len() > 0,
        forall|i: int|
            0 <= i < number::written(n, base).len() ==> '0' <= #[trigger] number::written(n, base)[i]
                && number::written(n, base)[i] <= 'f',
    decreases n,
{
    let w = number::written(n, base);
    if n >= base {
        let q: nat = n / base;
        assert(q < n) by (nonlinear_arith)
            requires
                q == n / base,
                2 <= base <= n,
        ;
        assert(n % base < base) by (nonlinear_arith)
            requires
                base >= 2,
        ;
        lemma_written_chars(q, base);
        let t = number::written(q, base);
        assert(w == t.push(number::digit_char(n % base)));
        assert forall|i: int| 0 <= i < w.len() implies '0' <= #[trigger] w[i] && w[i] <= 'f' by {
            if i < t.len() {
                assert(w[i] == t[i]);
            }
        }
    }
}

} // verus!
