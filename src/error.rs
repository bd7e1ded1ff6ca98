//! Failures of reading and evaluating an expression.
use vstd::prelude::*;

verus! {

/// Every way in which reading or evaluating an expression can fail.
pub enum Error {
    /// Text made of digits and points that is no number (`1.2.3`, `.`).
    InvalidNumber(String),
    /// A `)` without its `(`, or a `(` that is never closed.
    MismatchedParentheses,
    /// An operator symbol with no precedence, such as a lone `^`.
    UnknownOperator(String),
    /// An operator or a function applied without enough operands.
    MissingOperand,
    /// A postfix sequence that leaves no tree, or more than one.
    InvalidTree,
    /// A parenthesis in a postfix sequence.
    UnexpectedParenthesis,
    /// A function name other than `sin`, `cos`, `sqrt` and `log`.
    UnknownFunction(String),
}

/// What an [`Error`] says, with its texts as character sequences.
pub ghost enum Fault {
    InvalidNumber(Seq<char>),
    MismatchedParentheses,
    UnknownOperator(Seq<char>),
    MissingOperand,
    InvalidTree,
    UnexpectedParenthesis,
    UnknownFunction(Seq<char>),
}

impl View for Error {
    type V = Fault;

    open spec fn view(&self) -> Fault {
        match self {
            Error::InvalidNumber(t) => Fault::InvalidNumber(t@),
            Error::MismatchedParentheses => Fault::MismatchedParentheses,
            Error::UnknownOperator(t) => Fault::UnknownOperator(t@),
            Error::MissingOperand => Fault::MissingOperand,
            Error::InvalidTree => Fault::InvalidTree,
            Error::UnexpectedParenthesis => Fault::UnexpectedParenthesis,
            Error::UnknownFunction(t) => Fault::UnknownFunction(t@),
        }
    }
}

} // verus!
