use vstd::prelude::*;

verus! {

/// Everything the pipeline can reject; no stage panics.
#[derive(Debug, PartialEq, Eq)]
pub enum Error {
    /// A lexeme that matches no known category, carrying the offending text.
    InvalidToken(String),
    /// Mismatched or missing parentheses during infix-to-postfix conversion.
    UnbalancedParens,
    /// A function was applied to fewer operands than its declared arity.
    ArityMismatch,
    /// More than one operand was left when a statement's tree was complete.
    DanglingOperands,
    /// A statement held no tokens at all.
    EmptyExpression,
    /// A variable was read before any value was bound to it.
    UndefinedVariable,
    /// An operand of an operator or an assignment produced no value.
    MissingOperand,
    /// The target of an assignment or a declaration is not a variable.
    InvalidAssignmentTarget,
    /// An expression tree is nested beyond the evaluator's depth ceiling.
    TooDeep,
}

/// The mathematical value of an [`Error`].
pub ghost enum ErrV {
    InvalidToken(Seq<char>),
    UnbalancedParens,
    ArityMismatch,
    DanglingOperands,
    EmptyExpression,
    UndefinedVariable,
    MissingOperand,
    InvalidAssignmentTarget,
    TooDeep,
}

impl View for Error {
    type V = ErrV;

    open spec fn view(&self) -> ErrV {
        match self {
            Error::InvalidToken(s) => ErrV::InvalidToken(s@),
            Error::UnbalancedParens => ErrV::UnbalancedParens,
            Error::ArityMismatch => ErrV::ArityMismatch,
            Error::DanglingOperands => ErrV::DanglingOperands,
            Error::EmptyExpression => ErrV::EmptyExpression,
            Error::UndefinedVariable => ErrV::UndefinedVariable,
            Error::MissingOperand => ErrV::MissingOperand,
            Error::InvalidAssignmentTarget => ErrV::InvalidAssignmentTarget,
            Error::TooDeep => ErrV::TooDeep,
        }
    }
}

impl Clone for Error {
    fn clone(&self) -> (r: Error)
        ensures
            r == *self,
    {
        match self {
            Error::InvalidToken(s) => Error::InvalidToken(s.clone()),
            Error::UnbalancedParens => Error::UnbalancedParens,
            Error::ArityMismatch => Error::ArityMismatch,
            Error::DanglingOperands => Error::DanglingOperands,
            Error::EmptyExpression => Error::EmptyExpression,
            Error::UndefinedVariable => Error::UndefinedVariable,
            Error::MissingOperand => Error::MissingOperand,
            Error::InvalidAssignmentTarget => Error::InvalidAssignmentTarget,
            Error::TooDeep => Error::TooDeep,
        }
    }
}

} // verus!
