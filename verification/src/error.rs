//! The ways in which a directive can be rejected.

use vstd::prelude::*;

verus! {

/// Why a directive was rejected.
#[derive(Debug, PartialEq, Eq)]
pub enum ParseError {
    /// A parameter is not of the form `key = value`.
    ExpectedStringIdent { after: String },
    /// A parameter goes on after its value.
    UnexpectedToken { token: String },
    /// A parameter has a key that no unit knows.
    UnexpectedParam { param: String },
    /// A required parameter was not given.
    ParamMissing { param: String },
}

/// The mathematical model of a `ParseError`.
pub enum ParseFault {
    ExpectedStringIdent { after: Seq<char> },
    UnexpectedToken { token: Seq<char> },
    UnexpectedParam { param: Seq<char> },
    ParamMissing { param: Seq<char> },
}

impl View for ParseError {
    type V = ParseFault;

    open spec fn view(&self) -> ParseFault {
        match *self {
            ParseError::ExpectedStringIdent { after } => ParseFault::ExpectedStringIdent {
                after: after@,
            },
            ParseError::UnexpectedToken { token } => ParseFault::UnexpectedToken { token: token@ },
            ParseError::UnexpectedParam { param } => ParseFault::UnexpectedParam { param: param@ },
            ParseError::ParamMissing { param } => ParseFault::ParamMissing { param: param@ },
        }
    }
}

} // verus!
