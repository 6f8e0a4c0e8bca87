use vstd::prelude::*;
use crate::token::Span;

verus! {

/// Errors found while building the syntax tree.
#[derive(Debug)]
pub enum ParseError {
    ExpectedToken { expected: String, found: String, span: Span },
    UnexpectedToken { token: String, span: Span },
    ExpectedIdentifier { found: String, span: Span },
    ExpectedType { span: Span },
    ExpectedExpression { span: Span },
    ExpectedBlock { span: Span },
    UnexpectedEOF,
    InvalidAnnotation { span: Span },
    ExpectedSemicolon { span: Span },
}

} // verus!
