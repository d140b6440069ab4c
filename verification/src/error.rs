//! The ways in which evaluation, matching, rewriting and loading can fail.

use vstd::prelude::*;

verus! {

/// The mathematical view of an [`Error`].
pub enum Failure {
    UnboundVariable(Seq<char>),
    TypeMismatch,
    TableIndexOutOfRange,
    TablePatternForbidden,
    InvalidRuleLine,
    InvalidExpression,
    NonTerminating,
    Overflow,
}

/// A failure of the engine. None of them is recovered from silently.
#[derive(Debug)]
pub enum Error {
    /// A name was referred to that the environment does not bind.
    UnboundVariable(String),
    /// A number was expected where a value of another shape was found.
    TypeMismatch,
    /// An operand of a table lookup is no integer from 1 to 3.
    TableIndexOutOfRange,
    /// A table lookup stands on the pattern side of a rule.
    TablePatternForbidden,
    /// A line of a rule text is not of the form `pattern = replacement`.
    InvalidRuleLine,
    /// A source text is no expression of the grammar.
    InvalidExpression,
    /// Rule applications nested deeper than the limit that was given.
    NonTerminating,
    /// An integer of the result does not fit in the machine's numbers.
    Overflow,
}

impl View for Error {
    type V = Failure;

    open spec fn view(&self) -> Failure {
        match self {
            Error::UnboundVariable(name) => Failure::UnboundVariable(name@),
            Error::TypeMismatch => Failure::TypeMismatch,
            Error::TableIndexOutOfRange => Failure::TableIndexOutOfRange,
            Error::TablePatternForbidden => Failure::TablePatternForbidden,
            Error::InvalidRuleLine => Failure::InvalidRuleLine,
            Error::InvalidExpression => Failure::InvalidExpression,
            Error::NonTerminating => Failure::NonTerminating,
            Error::Overflow => Failure::Overflow,
        }
    }
}

impl Clone for Error {
    fn clone(&self) -> (res: Error)
        ensures
            res@ == self@,
    {
        match self {
            Error::UnboundVariable(name) => Error::UnboundVariable(name.clone()),
            Error::TypeMismatch => Error::TypeMismatch,
            Error::TableIndexOutOfRange => Error::TableIndexOutOfRange,
            Error::TablePatternForbidden => Error::TablePatternForbidden,
            Error::InvalidRuleLine => Error::InvalidRuleLine,
            Error::InvalidExpression => Error::InvalidExpression,
            Error::NonTerminating => Error::NonTerminating,
            Error::Overflow => Error::Overflow,
        }
    }
}

impl PartialEq for Error {
    fn eq(&self, other: &Error) -> (res: bool) {
        match self {
            Error::UnboundVariable(name) => match other {
                Error::UnboundVariable(other_name) => *name == *other_name,
                _ => false,
            },
            Error::TypeMismatch => matches!(other, Error::TypeMismatch),
            Error::TableIndexOutOfRange => matches!(other, Error::TableIndexOutOfRange),
            Error::TablePatternForbidden => matches!(other, Error::TablePatternForbidden),
            Error::InvalidRuleLine => matches!(other, Error::InvalidRuleLine),
            Error::InvalidExpression => matches!(other, Error::InvalidExpression),
            Error::NonTerminating => matches!(other, Error::NonTerminating),
            Error::Overflow => matches!(other, Error::Overflow),
        }
    }
}

impl vstd::std_specs::cmp::PartialEqSpecImpl for Error {
    open spec fn obeys_eq_spec() -> bool {
        true
    }

    open spec fn eq_spec(&self, other: &Error) -> bool {
        self@ == other@
    }
}

} // verus!
