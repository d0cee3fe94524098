//! Strongly-typed configuration values.
//!
//! Each type parses from a string; the types make illegal values unrepresentable.

use std::str::FromStr;

use vstd::prelude::*;

use crate::ascii;
use crate::net::ip;
use crate::net::ip::{IpAddr, Ipv4Addr};
use crate::number;
use crate::text;
use crate::unique_list::{ListItem, ListRule, UniqueList};

verus! {

/// Minimum severity a record must have to be logged; `Off` disables logging entirely. Ordered
/// most-restrictive to most-verbose.
#[derive(Clone, Copy, PartialEq, Eq, Structural, Debug)]
pub enum LogLevel {
    Off,
    Error,
    Warn,
    Info,
    Debug,
    Trace,
}

impl Default for LogLevel {
    fn default() -> (r: Self)
        ensures
            r == LogLevel::Info,
    {
        LogLevel::Info
    }
}

/// The text names no log level.
#[derive(Clone, Copy, PartialEq, Eq, Structural, Debug)]
pub struct ParseLogLevelError;

/// The log level that `s` names, in letters of either case.
pub open spec fn log_level(s: Seq<char>) -> Option<LogLevel> {
    let name = text::folded(s);
    if name == "off"@ {
        Some(LogLevel::Off)
    } else if name == "error"@ {
        Some(LogLevel::Error)
    } else if name == "warn"@ {
        Some(LogLevel::Warn)
    } else if name == "info"@ {
        Some(LogLevel::Info)
    } else if name == "debug"@ {
        Some(LogLevel::Debug)
    } else if name == "trace"@ {
        Some(LogLevel::Trace)
    } else {
        None
    }
}

impl FromStr for LogLevel {
    type Err = ParseLogLevelError;

    fn from_str(s: &str) -> (r: Result<Self, ParseLogLevelError>)
        ensures
            r == match log_level(s@) {
                Some(level) => Ok(level),
                None => Err(ParseLogLevelError),
            },
    {
        let all = text::chars(s);
        let name = text::fold(&all);
        if text::is(&name, "off") {
            Ok(LogLevel::Off)
        } else if text::is(&name, "error") {
            Ok(LogLevel::Error)
        } else if text::is(&name, "warn") {
            Ok(LogLevel::Warn)
        } else if text::is(&name, "info") {
            Ok(LogLevel::Info)
        } else if text::is(&name, "debug") {
            Ok(LogLevel::Debug)
        } else if text::is(&name, "trace") {
            Ok(LogLevel::Trace)
        } else {
            Err(ParseLogLevelError)
        }
    }
}

/// Which IP versions a reflector operates on.
#[derive(Clone, Copy, PartialEq, Eq, Structural, Debug)]
pub enum AddressFamily {
    Default,
    Dual,
    Ipv4,
    Ipv6,
}

impl Default for AddressFamily {
    fn default() -> (r: Self)
        ensures
            r == AddressFamily::Default,
    {
        AddressFamily::Default
    }
}

impl AddressFamily {
    #[verifier::allow_in_spec]
    pub fn uses_ipv4(self) -> (r: bool)
        returns
            self != AddressFamily::Ipv6,
    {
        matches!(self, AddressFamily::Default | AddressFamily::Dual | AddressFamily::Ipv4)
    }

    #[verifier::allow_in_spec]
    pub fn uses_ipv6(self) -> (r: bool)
        returns
            self != AddressFamily::Ipv4,
    {
        matches!(self, AddressFamily::Default | AddressFamily::Dual | AddressFamily::Ipv6)
    }

    /// Whether the policy handles `ip`'s IP version.
    #[verifier::allow_in_spec]
    pub fn uses(self, ip: IpAddr) -> (r: bool)
        returns
            (match ip {
                IpAddr::V4(_) => self.uses_ipv4(),
                IpAddr::V6(_) => self.uses_ipv6(),
            }),
    {
        match ip {
            IpAddr::V4(_) => self.uses_ipv4(),
            IpAddr::V6(_) => self.uses_ipv6(),
        }
    }

    /// A v4 source must be present at startup, else the reflector fails to build. Same set as
    /// `uses_ipv4`, but distinct in meaning: `Default` requires v4 while treating v6 as
    /// best-effort.
    #[verifier::allow_in_spec]
    pub fn requires_ipv4(self) -> (r: bool)
        returns
            self != AddressFamily::Ipv6,
    {
        matches!(self, AddressFamily::Default | AddressFamily::Dual | AddressFamily::Ipv4)
    }

    /// A v6 source must be present at startup, else the reflector fails to build: only `Dual` and
    /// `Ipv6`. Unlike `uses_ipv6`, `Default` reflects v6 when available but starts without it.
    #[verifier::allow_in_spec]
    pub fn requires_ipv6(self) -> (r: bool)
        returns
            self == AddressFamily::Dual || self == AddressFamily::Ipv6,
    {
        matches!(self, AddressFamily::Dual | AddressFamily::Ipv6)
    }
}

/// A family that must be present at startup is one that the reflector handles.
pub proof fn law_required_families_are_used(family: AddressFamily)
    ensures
        family.requires_ipv4() ==> family.uses_ipv4(),
        family.requires_ipv6() ==> family.uses_ipv6(),
        family.uses_ipv4() || family.uses_ipv6(),
{
}

/// The text names no address family.
#[derive(Clone, Copy, PartialEq, Eq, Structural, Debug)]
pub struct ParseAddressFamilyError;

/// The address family that `s` names, in letters of either case.
pub open spec fn address_family(s: Seq<char>) -> Option<AddressFamily> {
    let name = text::folded(s);
    if name == "default"@ {
        Some(AddressFamily::Default)
    } else if name == "dual"@ {
        Some(AddressFamily::Dual)
    } else if name == "ipv4"@ {
        Some(AddressFamily::Ipv4)
    } else if name == "ipv6"@ {
        Some(AddressFamily::Ipv6)
    } else {
        None
    }
}

impl FromStr for AddressFamily {
    type Err = ParseAddressFamilyError;

    fn from_str(s: &str) -> (r: Result<Self, ParseAddressFamilyError>)
        ensures
            r == match address_family(s@) {
                Some(family) => Ok(family),
                None => Err(ParseAddressFamilyError),
            },
    {
        let all = text::chars(s);
        let name = text::fold(&all);
        if text::is(&name, "default") {
            Ok(AddressFamily::Default)
        } else if text::is(&name, "dual") {
            Ok(AddressFamily::Dual)
        } else if text::is(&name, "ipv4") {
            Ok(AddressFamily::Ipv4)
        } else if text::is(&name, "ipv6") {
            Ok(AddressFamily::Ipv6)
        } else {
            Err(ParseAddressFamilyError)
        }
    }
}

/// A network interface name: non-empty and whitespace-free. OS interface names never contain
/// whitespace; a padded one would miss the interface and slip past the `source_if`/`target_if`
/// equality check.
#[derive(PartialEq, Eq, Debug)]
pub struct InterfaceName {
    pub name: String,
}

/// The text names no interface.
#[derive(Clone, Copy, PartialEq, Eq, Structural, Debug)]
pub struct ParseInterfaceNameError;

/// `s` can be the name of an interface.
pub open spec fn interface_name(s: Seq<char>) -> bool {
    s.len() > 0 && !text::has_space(s)
}

impl View for InterfaceName {
    type V = Seq<char>;

    open spec fn view(&self) -> Seq<char> {
        self.name@
    }
}

impl InterfaceName {
    pub fn as_str(&self) -> (r: &str)
        ensures
            r@ == self@,
    {
        self.name.as_str()
    }

    /// Whether both are the same name.
    pub fn same(&self, other: &Self) -> (r: bool)
        ensures
            r == (self@ == other@),
    {
        self.name == other.name
    }
}

impl Clone for InterfaceName {
    fn clone(&self) -> (r: Self)
        ensures
            r@ == self@,
    {
        InterfaceName { name: self.name.clone() }
    }
}

impl FromStr for InterfaceName {
    type Err = ParseInterfaceNameError;

    fn from_str(s: &str) -> (r: Result<Self, ParseInterfaceNameError>)
        ensures
            match r {
                Ok(name) => interface_name(s@) && name@ == s@,
                Err(_) => !interface_name(s@),
            },
    {
        let all = text::chars(s);
        if all.len() == 0 || text::contains_space(&all) {
            return Err(ParseInterfaceNameError);
        }
        Ok(InterfaceName { name: s.to_owned() })
    }
}

/// A reflector's name: surrounding whitespace trimmed and ASCII-lowercased (names are the
/// reflector's case-insensitive identity), never empty.
#[derive(PartialEq, Eq, Debug)]
pub struct ReflectorName {
    pub name: String,
}

/// The text is empty or nothing but whitespace.
#[derive(Clone, Copy, PartialEq, Eq, Structural, Debug)]
pub struct ParseReflectorNameError;

/// The canonical form of the name that `s` writes.
pub open spec fn canonical_name(s: Seq<char>) -> Seq<char> {
    text::folded(text::trimmed(s))
}

proof fn lemma_trimmed_start(s: Seq<char>)
    ensures
        text::trimmed_start(s).len() > 0 ==> !text::is_space(text::trimmed_start(s)[0]),
    decreases s.len(),
{
    if s.len() > 0 && text::is_space(s[0]) {
        lemma_trimmed_start(s.skip(1));
    }
}

proof fn lemma_trimmed_end(s: Seq<char>)
    ensures
        text::trimmed_end(s).len() <= s.len(),
        text::trimmed_end(s) == s.take(text::trimmed_end(s).len() as int),
        text::trimmed_end(s).len() > 0 ==> !text::is_space(text::trimmed_end(s).last()),
    decreases s.len(),
{
    if s.len() > 0 && text::is_space(s.last()) {
        let t = s.drop_last();
        lemma_trimmed_end(t);
        let n: int = text::trimmed_end(s).len() as int;
        assert(t.take(n) =~= s.take(n));
    } else {
        assert(s.take(s.len() as int) =~= s);
    }
}

/// The canonical form is its own canonical form, so comparing the forms compares the names.
pub proof fn law_canonical_name_is_stable(s: Seq<char>)
    ensures
        canonical_name(canonical_name(s)) == canonical_name(s),
{
    let a = text::trimmed_start(s);
    let b = text::trimmed(s);
    lemma_trimmed_start(s);
    lemma_trimmed_end(a);
    let c = canonical_name(s);
    if b.len() > 0 {
        assert(b[0] == a[0]);
        assert(c[0] == text::lower(b[0]));
        assert(c.last() == text::lower(b.last()));
    }
    assert(text::trimmed_start(c) == c);
    assert(text::trimmed_end(c) == c);
    assert(text::folded(c) =~= c);
}

impl View for ReflectorName {
    type V = Seq<char>;

    open spec fn view(&self) -> Seq<char> {
        self.name@
    }
}

impl ReflectorName {
    pub fn as_str(&self) -> (r: &str)
        ensures
            r@ == self@,
    {
        self.name.as_str()
    }

    /// Whether both are the same name.
    pub fn same(&self, other: &Self) -> (r: bool)
        ensures
            r == (self@ == other@),
    {
        self.name == other.name
    }
}

impl Clone for ReflectorName {
    fn clone(&self) -> (r: Self)
        ensures
            r@ == self@,
    {
        ReflectorName { name: self.name.clone() }
    }
}

impl FromStr for ReflectorName {
    type Err = ParseReflectorNameError;

    fn from_str(s: &str) -> (r: Result<Self, ParseReflectorNameError>)
        ensures
            match r {
                Ok(name) => text::trimmed(s@).len() > 0 && name@ == canonical_name(s@),
                Err(_) => text::trimmed(s@).len() == 0,
            },
    {
        let all = text::chars(s);
        let trimmed = text::trim(&all);
        if trimmed.len() == 0 {
            return Err(ParseReflectorNameError);
        }
        let name = text::fold(trimmed);
        Ok(ReflectorName { name: text::string(&name) })
    }
}

/// A UDP port; 0 is none.
#[derive(Clone, Copy, PartialEq, Eq, Structural, Debug)]
pub struct Port {
    pub number: u16,
}

impl Port {
    /// The port of that number, unless it is 0.
    pub fn new(number: u16) -> (r: Option<Self>)
        ensures
            r == if number == 0 {
                None::<Port>
            } else {
                Some(Port { number })
            },
    {
        if number == 0 {
            None
        } else {
            Some(Port { number })
        }
    }

    #[verifier::allow_in_spec]
    pub fn get(self) -> (r: u16)
        returns
            self.number,
    {
        self.number
    }
}

impl ListItem for Port {
    /// A decimal number from 1 to 65535, a plus sign in front allowed.
    open spec fn reads(s: Seq<u8>) -> Option<Self> {
        match number::at_most(number::unsigned(s, 10), 0xffff) {
            Some(n) if n > 0 => Some(Port { number: n as u16 }),
            _ => None,
        }
    }

    open spec fn item_text(self) -> Seq<char> {
        number::decimal(self.number as nat)
    }

    fn read(s: &[u8]) -> (r: Option<Self>) {
        match number::parse_unsigned(s, 10, 0xffff) {
            Some(n) => if n > 0 {
                Some(Port { number: n as u16 })
            } else {
                None
            },
            None => None,
        }
    }

    fn same(&self, other: &Self) -> (r: bool) {
        *self == *other
    }

    fn push_item(&self, out: &mut Vec<char>) {
        number::push_written(out, self.number as u64, 10)
    }
}

/// The rule for [`PortList`]: any UDP port.
#[derive(Clone, Copy, PartialEq, Eq, Debug)]
pub struct Ports;

impl ListRule for Ports {
    type Item = Port;

    open spec fn noun() -> Seq<char> {
        "port"@
    }

    open spec fn refusal(item: Port) -> Option<Seq<char>> {
        if item.number == 0 {
            Some("is not a port"@)
        } else {
            None
        }
    }

    fn noun_text() -> (r: &'static str) {
        "port"
    }

    fn refuse(item: &Port) -> (r: Option<&'static str>) {
        if item.number == 0 {
            Some("is not a port")
        } else {
            None
        }
    }
}

/// A non-empty, duplicate-free list of UDP ports.
pub type PortList = UniqueList<Ports>;

impl ListItem for IpAddr {
    open spec fn reads(s: Seq<u8>) -> Option<Self> {
        ip::ip(s)
    }

    open spec fn item_text(self) -> Seq<char> {
        self.text()
    }

    fn read(s: &[u8]) -> (r: Option<Self>) {
        ip::parse_ip(s)
    }

    fn same(&self, other: &Self) -> (r: bool) {
        *self == *other
    }

    fn push_item(&self, out: &mut Vec<char>) {
        self.push_text(out)
    }
}

/// The address of a group, in either family.
pub open spec fn multicast(ip: IpAddr) -> bool {
    match ip {
        IpAddr::V4(v4) => 224 <= v4.a <= 239,
        IpAddr::V6(v6) => v6.is_multicast(),
    }
}

/// The address of one host, in either family.
pub open spec fn unicast(ip: IpAddr) -> bool {
    match ip {
        IpAddr::V4(v4) => !(224 <= v4.a <= 239) && v4 != Ipv4Addr::broadcast() && v4
            != Ipv4Addr::unspecified(),
        IpAddr::V6(v6) => !v6.is_multicast() && v6 != ip::Ipv6Addr::unspecified(),
    }
}

/// The rule for [`GroupList`]: multicast addresses of either family.
#[derive(Clone, Copy, PartialEq, Eq, Debug)]
pub struct Groups;

impl ListRule for Groups {
    type Item = IpAddr;

    open spec fn noun() -> Seq<char> {
        "group"@
    }

    open spec fn refusal(item: IpAddr) -> Option<Seq<char>> {
        if multicast(item) {
            None
        } else {
            Some("is not a multicast address"@)
        }
    }

    fn noun_text() -> (r: &'static str) {
        "group"
    }

    fn refuse(item: &IpAddr) -> (r: Option<&'static str>) {
        let is_group = match item {
            IpAddr::V4(v4) => v4.is_multicast(),
            IpAddr::V6(v6) => v6.is_multicast(),
        };
        if is_group {
            None
        } else {
            Some("is not a multicast address")
        }
    }
}

/// A non-empty, duplicate-free list of multicast groups, of either family.
pub type GroupList = UniqueList<Groups>;

/// The rule for [`PeerList`]: unicast addresses of either family.
#[derive(Clone, Copy, PartialEq, Eq, Debug)]
pub struct Peers;

impl ListRule for Peers {
    type Item = IpAddr;

    open spec fn noun() -> Seq<char> {
        "peer"@
    }

    open spec fn refusal(item: IpAddr) -> Option<Seq<char>> {
        if unicast(item) {
            None
        } else {
            Some("is not a unicast address"@)
        }
    }

    fn noun_text() -> (r: &'static str) {
        "peer"
    }

    fn refuse(item: &IpAddr) -> (r: Option<&'static str>) {
        let is_host = match item {
            IpAddr::V4(v4) => !v4.is_multicast() && !v4.is_broadcast() && !v4.is_unspecified(),
            IpAddr::V6(v6) => !v6.is_multicast() && *v6 != ip::Ipv6Addr::unspecified(),
        };
        if is_host {
            None
        } else {
            Some("is not a unicast address")
        }
    }
}

/// A non-empty, duplicate-free list of unicast addresses, of either family: the hosts behind an
/// interface that has no broadcast domain.
pub type PeerList = UniqueList<Peers>;

/// What each word names, in letters of either case.
pub proof fn law_what_the_words_name(s: Seq<char>)
    ensures
        text::folded(s) == "off"@ <==> log_level(s) == Some(LogLevel::Off),
        text::folded(s) == "error"@ <==> log_level(s) == Some(LogLevel::Error),
        text::folded(s) == "warn"@ <==> log_level(s) == Some(LogLevel::Warn),
        text::folded(s) == "info"@ <==> log_level(s) == Some(LogLevel::Info),
        text::folded(s) == "debug"@ <==> log_level(s) == Some(LogLevel::Debug),
        text::folded(s) == "trace"@ <==> log_level(s) == Some(LogLevel::Trace),
        text::folded(s) == "default"@ <==> address_family(s) == Some(AddressFamily::Default),
        text::folded(s) == "dual"@ <==> address_family(s) == Some(AddressFamily::Dual),
        text::folded(s) == "ipv4"@ <==> address_family(s) == Some(AddressFamily::Ipv4),
        text::folded(s) == "ipv6"@ <==> address_family(s) == Some(AddressFamily::Ipv6),
{
    reveal_strlit("off");
    reveal_strlit("error");
    reveal_strlit("warn");
    reveal_strlit("info");
    reveal_strlit("debug");
    reveal_strlit("trace");
    reveal_strlit("default");
    reveal_strlit("dual");
    reveal_strlit("ipv4");
    reveal_strlit("ipv6");
    let name = text::folded(s);
    assert("off"@.len() == 3 && "error"@.len() == 5 && "warn"@.len() == 4 && "info"@.len() == 4
        && "debug"@.len() == 5 && "trace"@.len() == 5 && "default"@.len() == 7 && "dual"@.len() == 4
        && "ipv4"@.len() == 4 && "ipv6"@.len() == 4);
    assert("error"@[0] == 'e' && "debug"@[0] == 'd' && "trace"@[0] == 't' && "warn"@[0] == 'w'
        && "info"@[0] == 'i' && "dual"@[0] == 'd' && "ipv4"@[3] == '4' && "ipv6"@[3] == '6'
        && "ipv4"@[0] == 'i' && "ipv6"@[0] == 'i');
}

/// Which policy handles which family, and which must be there at the start: IPv4 for all but one, IPv6
/// only for two.
pub proof fn law_what_each_family_asks(family: AddressFamily)
    ensures
        !family.uses_ipv4() <==> family == AddressFamily::Ipv6,
        !family.uses_ipv6() <==> family == AddressFamily::Ipv4,
        !family.requires_ipv4() <==> family == AddressFamily::Ipv6,
        !family.requires_ipv6() <==> family == AddressFamily::Ipv4 || family
            == AddressFamily::Default,
{
}

/// Which addresses are groups and which are hosts: in IPv4 224.0.0.0/4, and all else but 0.0.0.0 and
/// 255.255.255.255; in IPv6 ff00::/8, and all else but `::`.
pub proof fn law_groups_and_hosts(v4: Ipv4Addr, v6: ip::Ipv6Addr)
    ensures
        multicast(IpAddr::V4(v4)) <==> 224 <= v4.a < 240,
        multicast(IpAddr::V6(v6)) <==> v6.s0 >= 0xff00,
        unicast(IpAddr::V4(v4)) <==> !(224 <= v4.a < 240) && !(v4.a == 0 && v4.b == 0 && v4.c == 0
            && v4.d == 0) && !(v4.a == 255 && v4.b == 255 && v4.c == 255 && v4.d == 255),
        unicast(IpAddr::V6(v6)) <==> v6.s0 < 0xff00 && !(v6.s0 == 0 && v6.s1 == 0 && v6.s2 == 0
            && v6.s3 == 0 && v6.s4 == 0 && v6.s5 == 0 && v6.s6 == 0 && v6.s7 == 0),
{
}

/// A port is written as its number, any number from 1 to 65535 is one, and nothing else is.
pub proof fn law_a_port_is_its_number(n: nat)
    ensures
        0 < n <= 65535 ==> Port::reads(ascii::bytes(number::decimal(n))) == Some(
            Port { number: n as u16 },
        ),
        n == 0 || n > 65535 ==> Port::reads(ascii::bytes(number::decimal(n))) is None,
{
    number::lemma_written_reads_back(n, 10);
    ip::lemma_decimal_digits(n);
    let s = ascii::bytes(number::decimal(n));
    assert(number::unsigned(s, 10) == number::number(s, 10));
}

} // verus!
