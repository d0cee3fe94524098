//! The crate-wide error type: the program prints its text.

use vstd::prelude::*;

use crate::config::error::ConfigError;

verus! {

/// Anything that can go wrong while configuring or running netflector.
#[derive(Debug)]
pub struct Error {
    pub kind: ErrorKind,
}

#[derive(Debug)]
pub enum ErrorKind {
    Usage(UsageError),
    Config(ConfigError),
    /// A setup failure, so that it does not read as a reactor error.
    Capture { iface: String, source: String },
    Reflector { name: String, source: String },
    Reactor(String),
}

/// The command line was misused.
#[derive(PartialEq, Eq, Debug)]
pub enum UsageError {
    TooManyArgs(String),
    UnknownOption(String),
}

impl UsageError {
    pub open spec fn text(self) -> Seq<char> {
        match self {
            UsageError::TooManyArgs(arg) => "unexpected extra argument \""@ + arg@
                + "\"; try `netflector --help`"@,
            UsageError::UnknownOption(arg) => "unknown option \""@ + arg@
                + "\"; try `netflector --help`"@,
        }
    }

    pub fn to_text(&self) -> (r: String)
        ensures
            r@ == self.text(),
    {
        match self {
            UsageError::TooManyArgs(arg) => {
                let mut r = "unexpected extra argument \"".to_owned();
                r.append(arg.as_str());
                r.append("\"; try `netflector --help`");
                r
            },
            UsageError::UnknownOption(arg) => {
                let mut r = "unknown option \"".to_owned();
                r.append(arg.as_str());
                r.append("\"; try `netflector --help`");
                r
            },
        }
    }
}

impl Error {
    pub fn usage(source: UsageError) -> (r: Self)
        ensures
            r.kind == ErrorKind::Usage(source),
    {
        Error { kind: ErrorKind::Usage(source) }
    }

    pub fn config(source: ConfigError) -> (r: Self)
        ensures
            r.kind == ErrorKind::Config(source),
    {
        Error { kind: ErrorKind::Config(source) }
    }

    pub fn capture(iface: &str, source: String) -> (r: Self)
        ensures
            r.kind matches ErrorKind::Capture { iface: i, source: s } && i@ == iface@ && s == source,
    {
        Error { kind: ErrorKind::Capture { iface: iface.to_owned(), source } }
    }

    pub fn reflector(name: &str, source: String) -> (r: Self)
        ensures
            r.kind matches ErrorKind::Reflector { name: n, source: s } && n@ == name@ && s
                == source,
    {
        Error { kind: ErrorKind::Reflector { name: name.to_owned(), source } }
    }

    pub fn reactor(source: String) -> (r: Self)
        ensures
            r.kind == ErrorKind::Reactor(source),
    {
        Error { kind: ErrorKind::Reactor(source) }
    }

    /// The message for the log.
    pub open spec fn text(self) -> Seq<char> {
        match self.kind {
            ErrorKind::Usage(source) => source.text(),
            ErrorKind::Config(source) => "config: "@ + source@.text(),
            ErrorKind::Capture { iface, source } => "cannot capture on "@ + iface@ + ": "@
                + source@,
            ErrorKind::Reflector { name, source } => "reflector \""@ + name@ + "\": "@ + source@,
            ErrorKind::Reactor(source) => "reactor: "@ + source@,
        }
    }

    /// The message for the log.
    pub fn to_text(&self) -> (r: String)
        ensures
            r@ == self.text(),
    {
        match &self.kind {
            ErrorKind::Usage(source) => source.to_text(),
            ErrorKind::Config(source) => {
                let mut r = "config: ".to_owned();
                r.append(source.text().as_str());
                r
            },
            ErrorKind::Capture { iface, source } => {
                let mut r = "cannot capture on ".to_owned();
                r.append(iface.as_str());
                r.append(": ");
                r.append(source.as_str());
                r
            },
            ErrorKind::Reflector { name, source } => {
                let mut r = "reflector \"".to_owned();
                r.append(name.as_str());
                r.append("\": ");
                r.append(source.as_str());
                r
            },
            ErrorKind::Reactor(source) => {
                let mut r = "reactor: ".to_owned();
                r.append(source.as_str());
                r
            },
        }
    }
}

} // verus!
