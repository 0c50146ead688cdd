//! The error type every stage surfaces: parse errors, type errors of
//! argument conversion, and evaluation errors. Each carries a message and,
//! where one is known, the offending span.

use vstd::prelude::*;
use vstd::string::StringExecFns;

use crate::lexer::Span;

verus! {

#[derive(Debug, PartialEq)]
pub enum Error {
    Parse(String, Option<Span>),
    Type(String, Option<Span>),
    Eval(String, Option<Span>),
}

impl Error {
    /// A readable rendering: the error's category followed by its message.
    pub fn describe(&self) -> (r: String)
        ensures
            match self {
                Error::Parse(m, _) => r@ == "Parse error: "@ + m@,
                Error::Type(m, _) => r@ == "Type error: "@ + m@,
                Error::Eval(m, _) => r@ == "Eval error: "@ + m@,
            },
    {
        match self {
            Error::Parse(m, _) => String::from_str("Parse error: ").concat(m.as_str()),
            Error::Type(m, _) => String::from_str("Type error: ").concat(m.as_str()),
            Error::Eval(m, _) => String::from_str("Eval error: ").concat(m.as_str()),
        }
    }
}

} // verus!
