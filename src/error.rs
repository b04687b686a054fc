//! The errors of scanning, compiling and running.
use crate::value::ValueTypeError;
use vstd::prelude::*;

verus! {

/// Where a compile error was found: at the end of the input, or at a token.
#[derive(Debug, PartialEq, Eq)]
pub enum Site {
    End,
    Lexeme(Vec<u8>),
}

#[derive(Debug)]
pub enum Error {
    /// A malformed token.
    ScanError { line: u32, msg: &'static str },
    /// The first error that compiling reported.
    CompileError { line: u32, site: Site, msg: &'static str },
    /// The machine met code that it cannot run.
    RuntimeError { msg: &'static str },
    /// An operand of the wrong kind.
    TypeError { msg: &'static str, line: u32, source: ValueTypeError },
    /// The parser is missing a token it needs.
    ParseError { msg: &'static str },
    /// A token has no parse rule of the kind needed.
    ParseRuleError { msg: &'static str },
    /// A number literal that could not be read as a number. The compiler
    /// takes numbers from the reader its caller supplies and does not give
    /// this error itself.
    ParseFloatError { line: u32, msg: &'static str },
}

} // verus!
