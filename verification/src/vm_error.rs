use vstd::prelude::*;

verus! {

/// Errors of the machine that runs compiled programs.
#[derive(Debug, Clone)]
pub enum VMError {
    StackUnderflow,
    DivisionByZero,
    TypeError { message: String },
    UndefinedVariable { name: String },
    ChunkNotFound { name: String },
    Panic { message: String },
    InfiniteLoop,
    ImmutableVariable { name: String },
}

} // verus!
