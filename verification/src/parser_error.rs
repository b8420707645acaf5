//! The parser's two-kind error taxonomy.

use vstd::prelude::*;
use vstd::string::StringExecFns;

verus! {

/// What went wrong during a parse: a lexeme that does not fit the current
/// grammar position, or no lexeme where one was required.
#[derive(Debug, Clone, Copy, PartialEq, Eq, Structural)]
pub enum ParserErrorKind {
    UnexpectedToken,
    UnexpectedEOF,
}

/// A terminal parse error; the first one encountered aborts the whole parse.
#[derive(Debug, Clone, Copy, PartialEq, Eq, Structural)]
pub struct ParserError {
    pub kind: ParserErrorKind,
}

impl ParserError {
    pub fn new(kind: ParserErrorKind) -> (r: Self)
        ensures
            r.kind == kind,
    {
        ParserError { kind }
    }

    /// The error's display text: the name of its kind.
    pub fn message(&self) -> (r: String)
        ensures
            self.kind is UnexpectedToken ==> r@ == "UnexpectedToken"@,
            self.kind is UnexpectedEOF ==> r@ == "UnexpectedEOF"@,
    {
        match self.kind {
            ParserErrorKind::UnexpectedToken => String::from_str("UnexpectedToken"),
            ParserErrorKind::UnexpectedEOF => String::from_str("UnexpectedEOF"),
        }
    }
}

} // verus!
