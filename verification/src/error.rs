use vstd::prelude::*;

verus! {

/// An error of any stage: the byte offset it refers to and its kind.
#[derive(Debug, Clone, Copy, PartialEq)]
pub struct KError<T> {
    pub location: usize,
    pub code: T,
}

/// Why an integer literal has no value: it lies beyond the largest or
/// below the least 64-bit integer.
#[derive(Debug, Clone, Copy, PartialEq, Eq, Structural)]
pub enum IntErrorKind {
    PosOverflow,
    NegOverflow,
}

/// What can go wrong while reading tokens.
#[derive(Debug, Clone, Copy, PartialEq, Eq, Structural)]
pub enum LexerErrorCode {
    UnterminatedString,
    UnterminatedEscape,
    UnterminatedFloatExponent,
    UnrecognizedEscape,
    UnrecognizedToken,
    InvalidNumber,
    /// A piece of a float literal is not a decimal number.
    ParseFloatError,
    /// A piece of an integer literal does not fit in 64 bits.
    ParseIntError(IntErrorKind),
}

/// What can go wrong while building the syntax tree.
#[derive(Debug, Clone, Copy, PartialEq, Eq, Structural)]
pub enum ParserErrorCode {
    UnclosedParens,
    UnclosedBrackets,
    UnexpectedToken,
}

/// What can go wrong while evaluating.
#[derive(Debug, Clone, Copy, PartialEq, Eq, Structural)]
pub enum RuntimeErrorCode {
    /// Two lists of different lengths were combined element by element.
    Length,
    /// The verb is known but has no behaviour at this arity.
    Nyi,
    /// The verb was applied to the wrong number of arguments.
    Rank,
    /// An operand has a kind the verb does not accept.
    Type,
    /// The target of an assignment is not a name.
    NameExpected,
    /// An assignment or conditional lacks an expression.
    ExpressionExpected,
    /// A name was read that has no binding.
    UndefinedVariable,
}

pub type LexerError = KError<LexerErrorCode>;

pub type ParserError = KError<ParserErrorCode>;

pub type RuntimeError = KError<RuntimeErrorCode>;

impl KError<RuntimeErrorCode> {
    pub fn new(location: usize, code: RuntimeErrorCode) -> (e: Self)
        ensures
            e.location == location,
            e.code == code,
    {
        Self { location, code }
    }
}

} // verus!
