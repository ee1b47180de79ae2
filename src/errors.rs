use vstd::prelude::*;

verus! {

/// Why a piece of source text could not be turned into a token.
#[derive(Debug, Clone, PartialEq, Eq)]
pub enum TokenizationErrorKind {
    EmptyString,
    NotANumber,
    UnexpectedChar(char),
    UnspportedSyntax(String),
}

/// A failure of the lexer, with the text it was reading and an optional
/// explanation.
#[derive(Debug, Clone, PartialEq, Eq)]
pub struct TokenizationError {
    pub kind: TokenizationErrorKind,
    pub token_str: Option<String>,
    pub message: Option<String>,
}

impl TokenizationError {
    pub fn new(
        kind: TokenizationErrorKind,
        token_str: Option<String>,
        message: Option<String>,
    ) -> (r: TokenizationError)
        ensures
            r.kind == kind,
            r.token_str == token_str,
            r.message == message,
    {
        TokenizationError { kind, token_str, message }
    }
}

/// A statement that does not follow the grammar.
#[derive(Debug, Clone, PartialEq, Eq)]
pub enum ParsingError {
    UnmatchedOpenParen,
    UnmatchedCloseParen,
    UnexpectedEndOfInput,
    IncompleteStatement,
    InvalidArithmaticExpression,
    EmptyMatrixElement,
    DimensionsMismatch(usize, usize),
    UnexpectedToken { expected: Option<String>, found: Option<String> },
}

/// A statement that parsed but cannot be evaluated.
#[derive(Debug, PartialEq, Eq)]
pub enum EvaluationError {
    NonexistantVar(String),
    NestedMatrices,
    InconsistantMatrixWidth(usize, usize),
    DimensionsMismatch((usize, usize), (usize, usize)),
    NoninvertibleDivisorMatrix,
    InvalidArithmaticExpression,
    AssignmentToNonVariable,
}

} // verus!
