use vstd::prelude::*;
use crate::token::Span;

verus! {

/// Errors found while reading the source text into tokens.
#[derive(Debug, PartialEq)]
pub enum LexerError {
    UnexpectedCharacter { ch: char, line: usize, col: usize, span: Span },
    UnterminatedString { line: usize, col: usize, span: Span },
    UnterminatedChar { line: usize, col: usize, span: Span },
    InvalidEscapeSequence { ch: char, line: usize, col: usize, span: Span },
    InvalidNumberLiteral { value: String, line: usize, col: usize, span: Span },
    InvalidIntSuffix { suffix: String, line: usize, col: usize, span: Span },
    EmptyCharLiteral { line: usize, col: usize, span: Span },
    MultiCharLiteral { line: usize, col: usize, span: Span },
}

impl LexerError {
    /// The span that every variant records.
    pub open spec fn spec_span(&self) -> Span {
        match *self {
            LexerError::UnexpectedCharacter { span, .. } => span,
            LexerError::UnterminatedString { span, .. } => span,
            LexerError::UnterminatedChar { span, .. } => span,
            LexerError::InvalidEscapeSequence { span, .. } => span,
            LexerError::InvalidNumberLiteral { span, .. } => span,
            LexerError::InvalidIntSuffix { span, .. } => span,
            LexerError::EmptyCharLiteral { span, .. } => span,
            LexerError::MultiCharLiteral { span, .. } => span,
        }
    }

    /// Where in the source the error was found.
    pub fn span(&self) -> (s: &Span)
        ensures
            *s == self.spec_span(),
    {
        match self {
            LexerError::UnexpectedCharacter { span, .. } => span,
            LexerError::UnterminatedString { span, .. } => span,
            LexerError::UnterminatedChar { span, .. } => span,
            LexerError::InvalidEscapeSequence { span, .. } => span,
            LexerError::InvalidNumberLiteral { span, .. } => span,
            LexerError::InvalidIntSuffix { span, .. } => span,
            LexerError::EmptyCharLiteral { span, .. } => span,
            LexerError::MultiCharLiteral { span, .. } => span,
        }
    }
}

} // verus!
