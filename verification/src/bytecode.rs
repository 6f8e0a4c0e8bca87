use vstd::prelude::*;
use crate::ast::quotient_toward_zero;

verus! {

broadcast use vstd::std_specs::vec::group_vec_axioms;

/// A constant of a compiled program. A floating-point constant carries the
/// digits of its literal; the machine that runs the program reads them.
#[derive(Debug, Clone)]
pub enum Constant {
    Int8(i8),
    Int16(i16),
    Int32(i32),
    Int64(i64),
    UInt8(u8),
    UInt16(u16),
    UInt32(u32),
    UInt64(u64),
    Float32 { literal: String },
    Float64 { literal: String },
    Bool(bool),
    Char(char),
    StringVal(String),
    Void,
    /// A path such as `ExitCode::Success`, by its segments.
    Path(Vec<String>),
}

/// The instructions of the stack machine.
#[derive(Debug, Clone)]
pub enum OpCode {
    /// Push a constant.
    PushConst(Constant),
    /// Push the value of a variable.
    Load(String),
    /// Pop a value into a variable.
    Store(String),
    /// Pop a value into a mutable variable.
    StoreMut(String),
    Add,
    Sub,
    Mul,
    Div,
    Mod,
    Negate,
    Equal,
    NotEqual,
    LessThan,
    LessEqual,
    GreaterThan,
    GreaterEqual,
    Not,
    And,
    Or,
    /// Continue at the given instruction.
    Jump(usize),
    /// Pop a value; continue at the given instruction if it is false.
    JumpIfFalse(usize),
    /// Pop a value; continue at the given instruction if it is true.
    JumpIfTrue(usize),
    /// Call a built-in function (name, number of arguments).
    CallBuiltin(String, usize),
    /// Call a user function (name, number of arguments).
    Call(String, usize),
    /// Call a method (name, number of arguments).
    CallMethod(String, usize),
    Return,
    Pop,
    Dup,
    /// Build a structure (type name, number of fields).
    MakeStruct(String, usize),
    GetField(String),
    SetField(String),
    Halt,
    Nop,
}

/// What an instruction that takes two operands leaves on the stack when the
/// operands are the integers `a` (pushed first) and `b`, as the machine
/// computes it, leaving aside the width it wraps at: `Add`, `Sub`, `Mul`
/// the sum, difference and product; `Div` the quotient toward zero and `Mod`
/// the remainder with the sign of `a` (0 for a zero divisor); the
/// comparisons, `And` and `Or` 1 for true and 0 for false, an operand
/// counting as true when it is not zero. Other instructions take no two
/// operands.
pub open spec fn two_operand_result(code: OpCode, a: int, b: int) -> Option<int> {
    match code {
        OpCode::Add => Some(a + b),
        OpCode::Sub => Some(a - b),
        OpCode::Mul => Some(a * b),
        OpCode::Div => Some(if b == 0 { 0 } else { quotient_toward_zero(a, b) }),
        OpCode::Mod => Some(if b == 0 { 0 } else { a - b * quotient_toward_zero(a, b) }),
        OpCode::Equal => Some(if a == b { 1 } else { 0 }),
        OpCode::NotEqual => Some(if a != b { 1 } else { 0 }),
        OpCode::LessThan => Some(if a < b { 1 } else { 0 }),
        OpCode::LessEqual => Some(if a <= b { 1 } else { 0 }),
        OpCode::GreaterThan => Some(if a > b { 1 } else { 0 }),
        OpCode::GreaterEqual => Some(if a >= b { 1 } else { 0 }),
        OpCode::And => Some(if a != 0 && b != 0 { 1 } else { 0 }),
        OpCode::Or => Some(if a != 0 || b != 0 { 1 } else { 0 }),
        _ => None,
    }
}

/// Jumps and the place they lead to.
pub open spec fn jump_target(op: OpCode) -> Option<usize> {
    match op {
        OpCode::Jump(t) => Some(t),
        OpCode::JumpIfFalse(t) => Some(t),
        OpCode::JumpIfTrue(t) => Some(t),
        _ => None,
    }
}

/// The instruction `op` with its jump target replaced by `target`.
pub open spec fn retargeted(op: OpCode, target: usize) -> OpCode {
    match op {
        OpCode::Jump(_) => OpCode::Jump(target),
        OpCode::JumpIfFalse(_) => OpCode::JumpIfFalse(target),
        OpCode::JumpIfTrue(_) => OpCode::JumpIfTrue(target),
        _ => op,
    }
}

/// The compiled code of one function, with the source line of each
/// instruction.
#[derive(Debug, Clone)]
pub struct Chunk {
    pub name: String,
    pub params: Vec<String>,
    pub code: Vec<OpCode>,
    pub lines: Vec<usize>,
}

impl Chunk {
    /// One source line per instruction.
    pub open spec fn wf(&self) -> bool {
        self.code@.len() == self.lines@.len()
    }

    /// Every jump leads to an instruction of the chunk or just past its end.
    pub open spec fn jumps_in_range(&self) -> bool {
        forall|i: int| 0 <= i < self.code@.len() ==> (#[trigger] jump_target(self.code@[i]) matches Some(t) ==> t
            <= self.code@.len())
    }

    /// An empty chunk named `name`, without parameters.
    pub fn new(name: String) -> (c: Self)
        ensures
            c.name == name,
            c.params@.len() == 0,
            c.code@.len() == 0,
            c.lines@.len() == 0,
    {
        Chunk { name, params: Vec::new(), code: Vec::new(), lines: Vec::new() }
    }

    /// An empty chunk named `name` with the given parameter names.
    pub fn with_params(name: String, params: Vec<String>) -> (c: Self)
        ensures
            c.name == name,
            c.params == params,
            c.code@.len() == 0,
            c.lines@.len() == 0,
    {
        Chunk { name, params, code: Vec::new(), lines: Vec::new() }
    }

    /// Appends an instruction from source line `line` and gives its index.
    pub fn emit(&mut self, op: OpCode, line: usize) -> (idx: usize)
        ensures
            idx == old(self).code@.len(),
            final(self).code@ == old(self).code@.push(op),
            final(self).lines@ == old(self).lines@.push(line),
            final(self).name == old(self).name,
            final(self).params == old(self).params,
    {
        let idx = self.code.len();
        self.code.push(op);
        self.lines.push(line);
        idx
    }

    /// Sets the target of the jump at `idx`.
    pub fn patch_jump(&mut self, idx: usize, target: usize)
        requires
            idx < old(self).code@.len(),
            jump_target(old(self).code@[idx as int]) is Some,
        ensures
            final(self).code@ == old(self).code@.update(idx as int, retargeted(old(self).code@[idx as int], target)),
            final(self).lines == old(self).lines,
            final(self).name == old(self).name,
            final(self).params == old(self).params,
    {
        let op = match &self.code[idx] {
            OpCode::Jump(_) => OpCode::Jump(target),
            OpCode::JumpIfFalse(_) => OpCode::JumpIfFalse(target),
            _ => OpCode::JumpIfTrue(target),
        };
        self.code.set(idx, op);
    }

    /// Number of instructions.
    pub fn len(&self) -> (n: usize)
        ensures
            n == self.code@.len(),
    {
        self.code.len()
    }
}

/// The chunks of a whole program and the name of its entry function.
#[derive(Debug, Clone)]
pub struct CompiledProgram {
    pub chunks: Vec<Chunk>,
    pub entry_point: Option<String>,
}

impl CompiledProgram {
    pub fn new() -> (p: Self)
        ensures
            p.chunks@.len() == 0,
            p.entry_point is None,
    {
        CompiledProgram { chunks: Vec::new(), entry_point: None }
    }

    pub fn add_chunk(&mut self, chunk: Chunk)
        ensures
            final(self).chunks@ == old(self).chunks@.push(chunk),
            final(self).entry_point == old(self).entry_point,
    {
        self.chunks.push(chunk);
    }

    /// The name of the function a run starts from: the entry point, or
    /// `main` when none is named.
    pub open spec fn entry_name(&self) -> Seq<char> {
        match self.entry_point {
            Some(e) => e@,
            None => "main"@,
        }
    }

    /// Some chunk is named `name`.
    pub open spec fn has_chunk(&self, name: Seq<char>) -> bool {
        exists|i: int| 0 <= i < self.chunks@.len() && (#[trigger] self.chunks@[i]).name@ == name
    }

    /// `c` is the first chunk named `name`.
    pub open spec fn first_chunk_named(&self, name: Seq<char>, c: Chunk) -> bool {
        exists|i: int| {
            &&& 0 <= i < self.chunks@.len()
            &&& c == self.chunks@[i]
            &&& c.name@ == name
            &&& forall|j: int| 0 <= j < i ==> (#[trigger] self.chunks@[j]).name@ != name
        }
    }

    /// The name of the entry function, `main` when none is named.
    pub fn entry_name_of(&self) -> (r: String)
        ensures
            r@ == self.entry_name(),
    {
        match &self.entry_point {
            Some(e) => e.clone(),
            None => crate::text::owned("main"),
        }
    }

    /// The chunk a run starts in: the first named `Main::` and the entry
    /// name, or else the first named the entry name.
    pub fn entry_chunk(&self) -> (r: Option<&Chunk>)
        ensures
            self.has_chunk("Main::"@ + self.entry_name()) ==> (r matches Some(c) && self.first_chunk_named(
                "Main::"@ + self.entry_name(),
                *c,
            )),
            !self.has_chunk("Main::"@ + self.entry_name()) && self.has_chunk(self.entry_name()) ==> (r matches Some(c)
                && self.first_chunk_named(self.entry_name(), *c)),
            !self.has_chunk("Main::"@ + self.entry_name()) && !self.has_chunk(self.entry_name()) ==> r is None,
    {
        let entry = self.entry_name_of();
        let mut qualified = crate::text::owned("Main::");
        let chars = crate::text::str_chars(entry.as_str());
        let mut i: usize = 0;
        while i < chars.len()
            invariant
                i <= chars@.len(),
                chars@ == entry@,
                qualified@ == "Main::"@ + entry@.take(i as int),
            decreases chars.len() - i,
        {
            crate::text::push_char(&mut qualified, chars[i]);
            proof {
                assert(entry@.take(i + 1) =~= entry@.take(i as int).push(chars@[i as int]));
                assert("Main::"@ + entry@.take(i + 1) =~= ("Main::"@ + entry@.take(i as int)).push(chars@[i as int]));
            }
            i += 1;
        }
        proof {
            assert(entry@.take(i as int) =~= entry@);
        }
        match self.find_chunk(qualified.as_str()) {
            Some(c) => Some(c),
            None => self.find_chunk(entry.as_str()),
        }
    }

    /// The first chunk named `name`.
    pub fn find_chunk(&self, name: &str) -> (r: Option<&Chunk>)
        ensures
            match r {
                Some(c) => exists|i: int| {
                    &&& 0 <= i < self.chunks@.len()
                    &&& *c == self.chunks@[i]
                    &&& c.name@ == name@
                    &&& forall|j: int| 0 <= j < i ==> (#[trigger] self.chunks@[j]).name@ != name@
                },
                None => forall|j: int| 0 <= j < self.chunks@.len() ==> (#[trigger] self.chunks@[j]).name@ != name@,
            },
    {
        let mut i: usize = 0;
        while i < self.chunks.len()
            invariant
                i <= self.chunks@.len(),
                forall|j: int| 0 <= j < i ==> (#[trigger] self.chunks@[j]).name@ != name@,
            decreases self.chunks.len() - i,
        {
            if crate::text::str_eq(self.chunks[i].name.as_str(), name) {
                return Some(&self.chunks[i]);
            }
            i += 1;
        }
        None
    }
}

} // verus!
