//! Error values of the parsers and of the engine.

use vstd::prelude::*;
use vstd::string::*;

verus! {

/// Why a source text could not be parsed.
#[derive(Debug)]
pub enum ParseError {
    /// The source cannot be consumed.
    InvalidSource(String),
    /// The source uses a construct that the parser does not support.
    UnsupportedFeature(String),
}

impl ParseError {
    pub fn invalid_source(message: String) -> (e: ParseError)
        ensures
            e == ParseError::InvalidSource(message),
    {
        ParseError::InvalidSource(message)
    }

    pub fn unsupported_feature(message: String) -> (e: ParseError)
        ensures
            e == ParseError::UnsupportedFeature(message),
    {
        ParseError::UnsupportedFeature(message)
    }

    /// The text of the error.
    pub open spec fn message_spec(self) -> Seq<char> {
        match self {
            ParseError::InvalidSource(m) => "Invalid source: "@ + m@,
            ParseError::UnsupportedFeature(m) => "Unsupported feature: "@ + m@,
        }
    }

    /// The text of the error, for reports.
    pub fn message(&self) -> (s: String)
        ensures
            s@ == self.message_spec(),
    {
        match self {
            ParseError::InvalidSource(m) => String::from_str("Invalid source: ").concat(m.as_str()),
            ParseError::UnsupportedFeature(m) => String::from_str("Unsupported feature: ").concat(
                m.as_str(),
            ),
        }
    }
}

/// The class of an engine error.
#[derive(Clone, Copy, Debug, PartialEq, Eq, Structural)]
pub enum ErrorKind {
    /// Invalid configuration or glob pattern.
    Config,
    /// A file or the cache could not be read or written.
    Io,
    /// A parser could not consume its input.
    Parse,
    /// A rule could not be loaded, or failed.
    Plugin,
    /// An invariant of the engine was violated.
    Internal,
}

/// A structured engine error.
#[derive(Debug)]
pub struct LinterError {
    pub kind: ErrorKind,
    pub message: String,
}

impl LinterError {
    pub fn config(message: String) -> (e: LinterError)
        ensures
            e.kind == ErrorKind::Config,
            e.message@ == message@,
    {
        LinterError { kind: ErrorKind::Config, message }
    }

    pub fn file(message: String) -> (e: LinterError)
        ensures
            e.kind == ErrorKind::Io,
            e.message@ == message@,
    {
        LinterError { kind: ErrorKind::Io, message }
    }

    pub fn parse(message: String) -> (e: LinterError)
        ensures
            e.kind == ErrorKind::Parse,
            e.message@ == message@,
    {
        LinterError { kind: ErrorKind::Parse, message }
    }

    pub fn plugin(message: String) -> (e: LinterError)
        ensures
            e.kind == ErrorKind::Plugin,
            e.message@ == message@,
    {
        LinterError { kind: ErrorKind::Plugin, message }
    }

    pub fn internal(message: String) -> (e: LinterError)
        ensures
            e.kind == ErrorKind::Internal,
            e.message@ == message@,
    {
        LinterError { kind: ErrorKind::Internal, message }
    }
}

} // verus!
