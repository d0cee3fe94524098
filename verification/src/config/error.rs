//! Configuration errors and their texts.

use vstd::prelude::*;

use crate::config::conflict::Protocol;
use crate::config::value::{
    InterfaceName, ParseAddressFamilyError, ParseInterfaceNameError, ParseLogLevelError,
    ParseReflectorNameError, Port, ReflectorName,
};
use crate::net::ip::IpAddr;
use crate::net::mac::MacAddr;
use crate::number;
use crate::text;
use crate::unique_list::ListError;

verus! {

/// Why a configuration is not accepted. A malformed document, or a value of the wrong type or
/// form in it, is a [`ConfigError::Parse`]; the other variants are rules on whole entries.
#[derive(Debug)]
pub enum ConfigError {
    Parse { message: String },
    ReadFile { path: String, message: String },
    NoReflectors,
    EmptyReflectorName { key: String },
    SameInterface { name: ReflectorName, value: InterfaceName },
    NoProtocol { name: ReflectorName },
    UdpRelayWithoutPorts { name: ReflectorName },
    UdpRelayNoDestination { name: ReflectorName },
    UdpGroupFamily { name: ReflectorName, group: IpAddr },
    PeerFamily { name: ReflectorName, peer: IpAddr },
    UdpBroadcastFamily { name: ReflectorName },
    UdpRelayDuplicates { name: ReflectorName, port: u16, protocol: Protocol },
    WolPortsWithoutWol { name: ReflectorName },
    MacsUnused { name: ReflectorName },
    DialWithoutSsdp { name: ReflectorName },
    MdnsAnswersToPeers { name: ReflectorName, param: &'static str },
    DialRequiresIpv4 { name: ReflectorName },
    DuplicateReflector { name: String },
    DuplicateReflectorName { name: ReflectorName },
    ConflictingReflectors {
        protocol: Protocol,
        first: ReflectorName,
        second: ReflectorName,
        source_if: InterfaceName,
        target_if: InterfaceName,
    },
    EnvMalformedVar { var: String },
    EnvInvalidTag { var: String, tag: String },
    EnvReservedTag { var: String },
    EnvUnknownParam { var: String, param: String },
    EnvDuplicateParam { var: String, param: String },
    EnvBadValue { var: String, value: String, source: ParseValueError },
    EnvMissingField { name: String, field: RequiredField },
    IntervalTooLarge { field: &'static str, secs: u64, max: u64 },
}

/// What a [`ConfigError`] says.
pub enum Fault {
    Parse { message: Seq<char> },
    ReadFile { path: Seq<char>, message: Seq<char> },
    NoReflectors,
    EmptyReflectorName { key: Seq<char> },
    SameInterface { name: Seq<char>, value: Seq<char> },
    NoProtocol { name: Seq<char> },
    UdpRelayWithoutPorts { name: Seq<char> },
    UdpRelayNoDestination { name: Seq<char> },
    UdpGroupFamily { name: Seq<char>, group: IpAddr },
    PeerFamily { name: Seq<char>, peer: IpAddr },
    UdpBroadcastFamily { name: Seq<char> },
    UdpRelayDuplicates { name: Seq<char>, port: u16, protocol: Protocol },
    WolPortsWithoutWol { name: Seq<char> },
    MacsUnused { name: Seq<char> },
    DialWithoutSsdp { name: Seq<char> },
    MdnsAnswersToPeers { name: Seq<char>, param: Seq<char> },
    DialRequiresIpv4 { name: Seq<char> },
    DuplicateReflector { name: Seq<char> },
    DuplicateReflectorName { name: Seq<char> },
    ConflictingReflectors {
        protocol: Protocol,
        first: Seq<char>,
        second: Seq<char>,
        source_if: Seq<char>,
        target_if: Seq<char>,
    },
    EnvMalformedVar { var: Seq<char> },
    EnvInvalidTag { var: Seq<char>, tag: Seq<char> },
    EnvReservedTag { var: Seq<char> },
    EnvUnknownParam { var: Seq<char>, param: Seq<char> },
    EnvDuplicateParam { var: Seq<char>, param: Seq<char> },
    EnvBadValue { var: Seq<char>, value: Seq<char>, source: Seq<char> },
    EnvMissingField { name: Seq<char>, field: RequiredField },
    IntervalTooLarge { field: Seq<char>, secs: u64, max: u64 },
}

#[derive(Clone, Copy, PartialEq, Eq, Structural, Debug)]
pub enum RequiredField {
    SourceIf,
    TargetIf,
}

impl RequiredField {
    pub open spec fn name(self) -> Seq<char> {
        match self {
            RequiredField::SourceIf => "source_if"@,
            RequiredField::TargetIf => "target_if"@,
        }
    }

    pub fn as_str(&self) -> (r: &'static str)
        ensures
            r@ == self.name(),
    {
        match self {
            RequiredField::SourceIf => "source_if",
            RequiredField::TargetIf => "target_if",
        }
    }
}

/// The text is neither true, false, 1 nor 0.
#[derive(Clone, Copy, PartialEq, Eq, Structural, Debug)]
pub struct ParseBoolError;

/// The text is no number, or one out of range.
#[derive(Clone, Copy, PartialEq, Eq, Structural, Debug)]
pub enum ParseIntegerError {
    Empty,
    InvalidDigit,
    TooLarge,
}

impl ParseIntegerError {
    pub open spec fn text(self) -> Seq<char> {
        match self {
            ParseIntegerError::Empty => "cannot parse integer from empty string"@,
            ParseIntegerError::InvalidDigit => "invalid digit found in string"@,
            ParseIntegerError::TooLarge => "number too large to fit in target type"@,
        }
    }

    pub fn as_str(&self) -> (r: &'static str)
        ensures
            r@ == self.text(),
    {
        match self {
            ParseIntegerError::Empty => "cannot parse integer from empty string",
            ParseIntegerError::InvalidDigit => "invalid digit found in string",
            ParseIntegerError::TooLarge => "number too large to fit in target type",
        }
    }
}

/// The parse errors of the value types.
#[derive(Debug)]
pub enum ParseValueError {
    LogLevel(ParseLogLevelError),
    AddressFamily(ParseAddressFamilyError),
    Macs(ListError<MacAddr>),
    Interface(ParseInterfaceNameError),
    Ports(ListError<Port>),
    Addresses(ListError<IpAddr>),
    ReflectorName(ParseReflectorNameError),
    Bool(ParseBoolError),
    Integer(ParseIntegerError),
}

/// The texts one behind the other.
fn joined2(a: &str, b: &str) -> (r: String)
    ensures
        r@ == a@ + b@,
{
    let mut out = a.to_owned();
    out.append(b);
    out
}

fn joined3(a: &str, b: &str, c: &str) -> (r: String)
    ensures
        r@ == a@ + b@ + c@,
{
    let mut out = a.to_owned();
    out.append(b);
    out.append(c);
    out
}

fn joined4(a: &str, b: &str, c: &str, d: &str) -> (r: String)
    ensures
        r@ == a@ + b@ + c@ + d@,
{
    let mut out = joined3(a, b, c);
    out.append(d);
    out
}

fn joined5(a: &str, b: &str, c: &str, d: &str, e: &str) -> (r: String)
    ensures
        r@ == a@ + b@ + c@ + d@ + e@,
{
    let mut out = joined3(a, b, c);
    out.append(d);
    out.append(e);
    out
}

/// The text of an address.
fn address_text(ip: &IpAddr) -> (r: String)
    ensures
        r@ == ip.text(),
{
    let mut v: Vec<char> = Vec::new();
    ip.push_text(&mut v);
    assert(v@ =~= ip.text());
    text::string(&v)
}

/// A number in decimal.
fn decimal_text(n: u64) -> (r: String)
    ensures
        r@ == number::decimal(n as nat),
{
    let mut r = String::new();
    text::push_decimal(&mut r, n);
    assert(r@ =~= number::decimal(n as nat));
    r
}

/// What a list error says of its items.
pub open spec fn list_error_text<T: crate::unique_list::ListItem>(e: ListError<T>) -> Seq<char> {
    match e {
        ListError::Empty { noun } => "the "@ + noun@ + " list is empty"@,
        ListError::Invalid { noun, text } => "invalid "@ + noun@ + " \""@ + text@ + "\""@,
        ListError::Refused { noun, item, reason } => noun@ + " "@ + item.item_text() + " "@
            + reason@,
        ListError::Duplicate { noun, item } => "duplicate "@ + noun@ + " "@ + item.item_text(),
    }
}

fn item_string<T: crate::unique_list::ListItem>(item: &T) -> (r: String)
    ensures
        r@ == item.item_text(),
{
    let mut v: Vec<char> = Vec::new();
    item.push_item(&mut v);
    assert(v@ =~= item.item_text());
    text::string(&v)
}

/// See [`list_error_text`].
pub fn list_error_string<T: crate::unique_list::ListItem>(e: &ListError<T>) -> (r: String)
    ensures
        r@ == list_error_text(*e),
{
    match e {
        ListError::Empty { noun } => joined3("the ", noun.as_str(), " list is empty"),
        ListError::Invalid { noun, text } => joined5(
            "invalid ",
            noun.as_str(),
            " \"",
            text.as_str(),
            "\"",
        ),
        ListError::Refused { noun, item, reason } => joined5(
            noun.as_str(),
            " ",
            item_string(item).as_str(),
            " ",
            reason.as_str(),
        ),
        ListError::Duplicate { noun, item } => joined4(
            "duplicate ",
            noun.as_str(),
            " ",
            item_string(item).as_str(),
        ),
    }
}

impl ParseValueError {
    pub open spec fn text(self) -> Seq<char> {
        match self {
            ParseValueError::LogLevel(_) => "expected one of: off, error, warn, info, debug, trace"@,
            ParseValueError::AddressFamily(_) => "expected one of: default, dual, ipv4, ipv6"@,
            ParseValueError::Macs(e) => list_error_text(e),
            ParseValueError::Interface(_) => {
                "interface name must not be empty or contain whitespace"@
            },
            ParseValueError::Ports(e) => list_error_text(e),
            ParseValueError::Addresses(e) => list_error_text(e),
            ParseValueError::ReflectorName(_) => {
                "reflector name must not be empty or whitespace-only"@
            },
            ParseValueError::Bool(_) => "expected true, false, 1, or 0"@,
            ParseValueError::Integer(e) => e.text(),
        }
    }

    pub fn to_text(&self) -> (r: String)
        ensures
            r@ == self.text(),
    {
        match self {
            ParseValueError::LogLevel(_) => {
                "expected one of: off, error, warn, info, debug, trace".to_owned()
            },
            ParseValueError::AddressFamily(_) => {
                "expected one of: default, dual, ipv4, ipv6".to_owned()
            },
            ParseValueError::Macs(e) => list_error_string(e),
            ParseValueError::Interface(_) => {
                "interface name must not be empty or contain whitespace".to_owned()
            },
            ParseValueError::Ports(e) => list_error_string(e),
            ParseValueError::Addresses(e) => list_error_string(e),
            ParseValueError::ReflectorName(_) => {
                "reflector name must not be empty or whitespace-only".to_owned()
            },
            ParseValueError::Bool(_) => "expected true, false, 1, or 0".to_owned(),
            ParseValueError::Integer(e) => e.as_str().to_owned(),
        }
    }
}

impl View for ConfigError {
    type V = Fault;

    open spec fn view(&self) -> Fault {
        match *self {
            ConfigError::Parse { message } => Fault::Parse { message: message@ },
            ConfigError::ReadFile { path, message } => Fault::ReadFile {
                path: path@,
                message: message@,
            },
            ConfigError::NoReflectors => Fault::NoReflectors,
            ConfigError::EmptyReflectorName { key } => Fault::EmptyReflectorName { key: key@ },
            ConfigError::SameInterface { name, value } => Fault::SameInterface {
                name: name@,
                value: value@,
            },
            ConfigError::NoProtocol { name } => Fault::NoProtocol { name: name@ },
            ConfigError::UdpRelayWithoutPorts { name } => Fault::UdpRelayWithoutPorts {
                name: name@,
            },
            ConfigError::UdpRelayNoDestination { name } => Fault::UdpRelayNoDestination {
                name: name@,
            },
            ConfigError::UdpGroupFamily { name, group } => Fault::UdpGroupFamily {
                name: name@,
                group,
            },
            ConfigError::PeerFamily { name, peer } => Fault::PeerFamily { name: name@, peer },
            ConfigError::UdpBroadcastFamily { name } => Fault::UdpBroadcastFamily { name: name@ },
            ConfigError::UdpRelayDuplicates { name, port, protocol } => Fault::UdpRelayDuplicates {
                name: name@,
                port,
                protocol,
            },
            ConfigError::WolPortsWithoutWol { name } => Fault::WolPortsWithoutWol { name: name@ },
            ConfigError::MacsUnused { name } => Fault::MacsUnused { name: name@ },
            ConfigError::DialWithoutSsdp { name } => Fault::DialWithoutSsdp { name: name@ },
            ConfigError::MdnsAnswersToPeers { name, param } => Fault::MdnsAnswersToPeers {
                name: name@,
                param: param@,
            },
            ConfigError::DialRequiresIpv4 { name } => Fault::DialRequiresIpv4 { name: name@ },
            ConfigError::DuplicateReflector { name } => Fault::DuplicateReflector { name: name@ },
            ConfigError::DuplicateReflectorName { name } => Fault::DuplicateReflectorName {
                name: name@,
            },
            ConfigError::ConflictingReflectors {
                protocol,
                first,
                second,
                source_if,
                target_if,
            } => Fault::ConflictingReflectors {
                protocol,
                first: first@,
                second: second@,
                source_if: source_if@,
                target_if: target_if@,
            },
            ConfigError::EnvMalformedVar { var } => Fault::EnvMalformedVar { var: var@ },
            ConfigError::EnvInvalidTag { var, tag } => Fault::EnvInvalidTag {
                var: var@,
                tag: tag@,
            },
            ConfigError::EnvReservedTag { var } => Fault::EnvReservedTag { var: var@ },
            ConfigError::EnvUnknownParam { var, param } => Fault::EnvUnknownParam {
                var: var@,
                param: param@,
            },
            ConfigError::EnvDuplicateParam { var, param } => Fault::EnvDuplicateParam {
                var: var@,
                param: param@,
            },
            ConfigError::EnvBadValue { var, value, source } => Fault::EnvBadValue {
                var: var@,
                value: value@,
                source: source.text(),
            },
            ConfigError::EnvMissingField { name, field } => Fault::EnvMissingField {
                name: name@,
                field,
            },
            ConfigError::IntervalTooLarge { field, secs, max } => Fault::IntervalTooLarge {
                field: field@,
                secs,
                max,
            },
        }
    }
}

/// `reflector "name"` and what is wrong with it.
pub open spec fn of_reflector(name: Seq<char>, what: Seq<char>) -> Seq<char> {
    "reflector \""@ + name + what
}

/// `environment variable "var"` and what is wrong with it.
pub open spec fn of_variable(var: Seq<char>, what: Seq<char>) -> Seq<char> {
    "environment variable \""@ + var + what
}

impl Fault {
    /// The message for the log.
    pub open spec fn text(self) -> Seq<char> {
        match self {
            Fault::Parse { message } => "invalid configuration: "@ + message,
            Fault::ReadFile { path, message } => "cannot read config file \""@ + path + "\": "@
                + message,
            Fault::NoReflectors => "must define at least one reflector"@,
            Fault::EmptyReflectorName { key } => "reflector name \""@ + key
                + "\" is empty or whitespace-only"@,
            Fault::SameInterface { name, value } => "reflector \""@ + name
                + "\" source_if and target_if must differ (both are \""@ + value + "\")"@,
            Fault::NoProtocol { name } => of_reflector(
                name,
                "\" enables no protocol (set wol, mdns, ssdp, wsd, or udp_ports)"@,
            ),
            Fault::UdpRelayWithoutPorts { name } => of_reflector(
                name,
                "\" sets udp_groups or udp_broadcast but not udp_ports"@,
            ),
            Fault::UdpRelayNoDestination { name } => of_reflector(
                name,
                "\" sets udp_ports but neither udp_groups nor udp_broadcast"@,
            ),
            Fault::UdpGroupFamily { name, group } => "reflector \""@ + name
                + "\" lists UDP group "@ + group.text()
                + ", whose family its address_family does not use"@,
            Fault::PeerFamily { name, peer } => "reflector \""@ + name + "\" lists peer "@
                + peer.text() + ", whose family its address_family does not use"@,
            Fault::UdpBroadcastFamily { name } => of_reflector(
                name,
                "\" sets udp_broadcast but its address_family has no IPv4"@,
            ),
            Fault::UdpRelayDuplicates { name, port, protocol } => ("reflector \""@ + name
                + "\" would relay "@ + protocol.name() + " on port "@) + number::decimal(
                port as nat,
            ) + " twice, through udp_ports as well"@,
            Fault::WolPortsWithoutWol { name } => of_reflector(
                name,
                "\" sets wol_ports but does not enable wol"@,
            ),
            Fault::MacsUnused { name } => of_reflector(
                name,
                "\" lists macs but enables only the UDP relay, which does not apply them"@,
            ),
            Fault::DialWithoutSsdp { name } => of_reflector(
                name,
                "\" sets dial but does not enable ssdp"@,
            ),
            Fault::MdnsAnswersToPeers { name, param } => "reflector \""@ + name
                + "\" enables mdns with "@ + param
                + ", but a client takes a unicast mDNS answer only to a question it asked with the unicast-response bit"@,
            Fault::DialRequiresIpv4 { name } => of_reflector(
                name,
                "\" enables dial but the address family has no IPv4 (DIAL is IPv4-only)"@,
            ),
            Fault::DuplicateReflector { name } => of_reflector(
                name,
                "\" is defined in both the configuration file and the environment"@,
            ),
            Fault::DuplicateReflectorName { name } => "reflector name \""@ + name
                + "\" is used by more than one reflector (names are compared case-insensitively and trimmed)"@,
            Fault::ConflictingReflectors { protocol, first, second, source_if, target_if } => ((
            "reflectors \""@ + first + "\" and \""@ + second + "\" both reflect "@)
                + protocol.name() + " on "@) + (source_if + " -> "@ + target_if)
                + " with overlapping MAC selection and address family"@,
            Fault::EnvMalformedVar { var } => of_variable(
                var,
                "\" is malformed (expected NETFLECTOR_<tag>_<param>)"@,
            ),
            Fault::EnvInvalidTag { var, tag } => "environment variable \""@ + var
                + "\" has invalid tag \""@ + tag + "\" (tags must be non-empty and alphanumeric)"@,
            Fault::EnvReservedTag { var } => of_variable(
                var,
                "\" uses a reserved tag (log, debug, and counters are globals)"@,
            ),
            Fault::EnvUnknownParam { var, param } => "environment variable \""@ + var
                + "\" sets unknown parameter \""@ + param + "\""@,
            Fault::EnvDuplicateParam { var, param } => "environment variable \""@ + var
                + "\" sets \""@ + param
                + "\", which another variable already set (names are case-insensitive)"@,
            Fault::EnvBadValue { var, value, source } => ("environment variable \""@ + var
                + "\" has invalid value \""@ + value + "\": "@) + source,
            Fault::EnvMissingField { name, field } => "reflector \""@ + name
                + "\" (from the environment) has no "@ + field.name(),
            Fault::IntervalTooLarge { field, secs, max } => (field + " = "@ + number::decimal(
                secs as nat,
            ) + " is too large; the maximum is "@ + number::decimal(max as nat)) + " seconds"@
               ,
        }
    }
}

fn of_reflector_text(name: &ReflectorName, what: &str) -> (r: String)
    ensures
        r@ == of_reflector(name@, what@),
{
    joined3("reflector \"", name.as_str(), what)
}

fn of_variable_text(var: &String, what: &str) -> (r: String)
    ensures
        r@ == of_variable(var@, what@),
{
    joined3("environment variable \"", var.as_str(), what)
}

impl ConfigError {
    /// The message for the log.
    pub fn text(&self) -> (r: String)
        ensures
            r@ == self@.text(),
    {
        match self {
            ConfigError::Parse { message } => joined2("invalid configuration: ", message.as_str()),
            ConfigError::ReadFile { path, message } => joined4(
                "cannot read config file \"",
                path.as_str(),
                "\": ",
                message.as_str(),
            ),
            ConfigError::NoReflectors => "must define at least one reflector".to_owned(),
            ConfigError::EmptyReflectorName { key } => joined3(
                "reflector name \"",
                key.as_str(),
                "\" is empty or whitespace-only",
            ),
            ConfigError::SameInterface { name, value } => joined5(
                "reflector \"",
                name.as_str(),
                "\" source_if and target_if must differ (both are \"",
                value.as_str(),
                "\")",
            ),
            ConfigError::NoProtocol { name } => of_reflector_text(
                name,
                "\" enables no protocol (set wol, mdns, ssdp, wsd, or udp_ports)",
            ),
            ConfigError::UdpRelayWithoutPorts { name } => of_reflector_text(
                name,
                "\" sets udp_groups or udp_broadcast but not udp_ports",
            ),
            ConfigError::UdpRelayNoDestination { name } => of_reflector_text(
                name,
                "\" sets udp_ports but neither udp_groups nor udp_broadcast",
            ),
            ConfigError::UdpGroupFamily { name, group } => joined5(
                "reflector \"",
                name.as_str(),
                "\" lists UDP group ",
                address_text(group).as_str(),
                ", whose family its address_family does not use",
            ),
            ConfigError::PeerFamily { name, peer } => joined5(
                "reflector \"",
                name.as_str(),
                "\" lists peer ",
                address_text(peer).as_str(),
                ", whose family its address_family does not use",
            ),
            ConfigError::UdpBroadcastFamily { name } => of_reflector_text(
                name,
                "\" sets udp_broadcast but its address_family has no IPv4",
            ),
            ConfigError::UdpRelayDuplicates { name, port, protocol } => {
                let head = joined5(
                    "reflector \"",
                    name.as_str(),
                    "\" would relay ",
                    protocol.as_str(),
                    " on port ",
                );
                joined3(
                    head.as_str(),
                    decimal_text(*port as u64).as_str(),
                    " twice, through udp_ports as well",
                )
            },
            ConfigError::WolPortsWithoutWol { name } => of_reflector_text(
                name,
                "\" sets wol_ports but does not enable wol",
            ),
            ConfigError::MacsUnused { name } => of_reflector_text(
                name,
                "\" lists macs but enables only the UDP relay, which does not apply them",
            ),
            ConfigError::DialWithoutSsdp { name } => of_reflector_text(
                name,
                "\" sets dial but does not enable ssdp",
            ),
            ConfigError::MdnsAnswersToPeers { name, param } => joined5(
                "reflector \"",
                name.as_str(),
                "\" enables mdns with ",
                param,
                ", but a client takes a unicast mDNS answer only to a question it asked with the unicast-response bit",
            ),
            ConfigError::DialRequiresIpv4 { name } => of_reflector_text(
                name,
                "\" enables dial but the address family has no IPv4 (DIAL is IPv4-only)",
            ),
            ConfigError::DuplicateReflector { name } => joined3(
                "reflector \"",
                name.as_str(),
                "\" is defined in both the configuration file and the environment",
            ),
            ConfigError::DuplicateReflectorName { name } => joined3(
                "reflector name \"",
                name.as_str(),
                "\" is used by more than one reflector (names are compared case-insensitively and trimmed)",
            ),
            ConfigError::ConflictingReflectors { protocol, first, second, source_if, target_if } => {
                let names = joined5(
                    "reflectors \"",
                    first.as_str(),
                    "\" and \"",
                    second.as_str(),
                    "\" both reflect ",
                );
                let head = joined3(names.as_str(), protocol.as_str(), " on ");
                let pair = joined3(source_if.as_str(), " -> ", target_if.as_str());
                joined3(
                    head.as_str(),
                    pair.as_str(),
                    " with overlapping MAC selection and address family",
                )
            },
            ConfigError::EnvMalformedVar { var } => of_variable_text(
                var,
                "\" is malformed (expected NETFLECTOR_<tag>_<param>)",
            ),
            ConfigError::EnvInvalidTag { var, tag } => joined5(
                "environment variable \"",
                var.as_str(),
                "\" has invalid tag \"",
                tag.as_str(),
                "\" (tags must be non-empty and alphanumeric)",
            ),
            ConfigError::EnvReservedTag { var } => of_variable_text(
                var,
                "\" uses a reserved tag (log, debug, and counters are globals)",
            ),
            ConfigError::EnvUnknownParam { var, param } => joined5(
                "environment variable \"",
                var.as_str(),
                "\" sets unknown parameter \"",
                param.as_str(),
                "\"",
            ),
            ConfigError::EnvDuplicateParam { var, param } => joined5(
                "environment variable \"",
                var.as_str(),
                "\" sets \"",
                param.as_str(),
                "\", which another variable already set (names are case-insensitive)",
            ),
            ConfigError::EnvBadValue { var, value, source } => {
                let head = joined5(
                    "environment variable \"",
                    var.as_str(),
                    "\" has invalid value \"",
                    value.as_str(),
                    "\": ",
                );
                joined2(head.as_str(), source.to_text().as_str())
            },
            ConfigError::EnvMissingField { name, field } => joined4(
                "reflector \"",
                name.as_str(),
                "\" (from the environment) has no ",
                field.as_str(),
            ),
            ConfigError::IntervalTooLarge { field, secs, max } => {
                let head = joined5(
                    field,
                    " = ",
                    decimal_text(*secs).as_str(),
                    " is too large; the maximum is ",
                    decimal_text(*max).as_str(),
                );
                joined2(head.as_str(), " seconds")
            },
        }
    }
}

} // verus!
