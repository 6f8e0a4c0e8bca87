use vstd::prelude::*;
use crate::token::Span;

verus! {

/// Problems found by semantic analysis. `UnusedVariable` is a warning; the
/// others are errors.
#[derive(Debug, Clone)]
pub enum SemanticError {
    TypeMismatch { expected: String, found: String, span: Span },
    InvalidOperator { op: String, left: String, right: String, span: Span },
    UndefinedVariable { name: String, span: Span },
    UndefinedFunction { name: String, span: Span },
    UndefinedContract { name: String, span: Span },
    AlreadyDeclared { name: String, span: Span },
    ImmutableAssignment { name: String, span: Span },
    ImmutableBorrow { name: String, span: Span },
    ArgumentCountMismatch { name: String, expected: usize, found: usize, span: Span },
    MissingReturn { name: String, return_type: String, span: Span },
    ReturnTypeMismatch { name: String, expected: String, found: String, span: Span },
    UndefinedField { field: String, contract: String, span: Span },
    UndefinedMethod { method: String, contract: String, span: Span },
    BreakOutsideLoop { span: Span },
    ContinueOutsideLoop { span: Span },
    UnusedVariable { name: String, line: usize },
}

impl SemanticError {
    /// Is this a warning rather than an error?
    pub fn is_warning(&self) -> (b: bool)
        ensures
            b == (*self is UnusedVariable),
    {
        matches!(self, SemanticError::UnusedVariable { .. })
    }
}

} // verus!
