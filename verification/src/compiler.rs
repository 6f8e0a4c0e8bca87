use vstd::prelude::*;
use crate::ast::{Program, Declaration, ContractDecl, ContractMember, FnDecl, Stmt, MatchArm, MatchPattern, Expr, NamedArg, BinOp, UnaryOp, method_fns, program_fns, lemma_program_fns_step, lemma_program_fns_one};
use crate::bytecode::{Constant, OpCode, Chunk, CompiledProgram, jump_target, retargeted};
use crate::analyzer::joined;
use crate::text::{str_eq, owned};
use vstd::string::StringExecFns;

verus! {

broadcast use vstd::std_specs::vec::group_vec_axioms;

// ── The code an expression compiles to ──

/// The constant an integer literal compiles to: the value cut to the width
/// its suffix names (`Int64` without a suffix or for an unknown one).
pub open spec fn int_constant(value: i128, suffix: Option<String>) -> Constant {
    match suffix {
        Some(s) => if s@ == "i8"@ {
            Constant::Int8(value as i8)
        } else if s@ == "i16"@ {
            Constant::Int16(value as i16)
        } else if s@ == "i32"@ {
            Constant::Int32(value as i32)
        } else if s@ == "i64"@ {
            Constant::Int64(value as i64)
        } else if s@ == "u8"@ {
            Constant::UInt8(value as u8)
        } else if s@ == "u16"@ {
            Constant::UInt16(value as u16)
        } else if s@ == "u32"@ {
            Constant::UInt32(value as u32)
        } else if s@ == "u64"@ {
            Constant::UInt64(value as u64)
        } else {
            Constant::Int64(value as i64)
        },
        None => Constant::Int64(value as i64),
    }
}

/// A floating-point literal compiles to a 32-bit constant when suffixed
/// `f32`, to a 64-bit one otherwise.
pub open spec fn float_constant(literal: String, suffix: Option<String>) -> Constant {
    if suffix matches Some(s) && s@ == "f32"@ {
        Constant::Float32 { literal }
    } else {
        Constant::Float64 { literal }
    }
}

/// The instruction of a binary operator.
pub open spec fn binop_code(op: BinOp) -> OpCode {
    match op {
        BinOp::Add => OpCode::Add,
        BinOp::Sub => OpCode::Sub,
        BinOp::Mul => OpCode::Mul,
        BinOp::Div => OpCode::Div,
        BinOp::Mod => OpCode::Mod,
        BinOp::Eq => OpCode::Equal,
        BinOp::NotEq => OpCode::NotEqual,
        BinOp::Lt => OpCode::LessThan,
        BinOp::LtEq => OpCode::LessEqual,
        BinOp::Gt => OpCode::GreaterThan,
        BinOp::GtEq => OpCode::GreaterEqual,
        BinOp::And => OpCode::And,
        BinOp::Or => OpCode::Or,
    }
}

/// Functions that the machine provides itself.
pub open spec fn builtin_fn(name: Seq<char>) -> bool {
    ||| name == "StreamWriter::acquire"@
    ||| name == "StreamWriter::emit"@
    ||| name == "StreamWriter::release"@
    ||| name == "String::from"@
    ||| name == "String::format"@
    ||| name == "Vector::new"@
    ||| name == "Vector::with_capacity"@
    ||| name == "ExitCode::Success"@
    ||| name == "ExitCode::Failure"@
    ||| name == "panic!"@
    ||| name == "assert"@
    ||| name == "Checked::add"@
}

/// The name under which a callee is called: a name, a path joined with
/// `::`, or `unknown`.
pub open spec fn callee_name(callee: Expr) -> Seq<char> {
    match callee {
        Expr::Identifier { name, .. } => name@,
        Expr::PathExpr { segments, .. } => joined(segments@),
        _ => "unknown"@,
    }
}

/// Number of instructions an expression compiles to.
pub open spec fn expr_code_len(e: Expr) -> nat
    decreases e,
{
    match e {
        Expr::Binary { left, right, .. } => expr_code_len(*left) + expr_code_len(*right) + 1,
        Expr::Unary { op, operand, .. } => expr_code_len(*operand) + if op is Negate || op is Not {
            1nat
        } else {
            0nat
        },
        Expr::MethodCall { object, args, .. } => expr_code_len(*object) + args_code_len(args@) + 1,
        Expr::FnCall { args, .. } => args_code_len(args@) + 1,
        Expr::FieldAccess { object, .. } => expr_code_len(*object) + 1,
        Expr::Grouped { inner, .. } => expr_code_len(*inner),
        Expr::WithErrorHandler { expr, .. } => expr_code_len(*expr),
        Expr::StructInit { fields, .. } => fields_code_len(fields@) + 1,
        _ => 1,
    }
}

/// Number of instructions the argument values compile to.
pub open spec fn args_code_len(args: Seq<NamedArg>) -> nat
    decreases args,
{
    if args.len() == 0 {
        0
    } else {
        args_code_len(args.drop_last()) + expr_code_len(args.last().value)
    }
}

/// Number of instructions the field values compile to.
pub open spec fn fields_code_len(fields: Seq<(String, Expr)>) -> nat
    decreases fields,
{
    if fields.len() == 0 {
        0
    } else {
        fields_code_len(fields.drop_last()) + expr_code_len(fields.last().1)
    }
}

/// `code` is the code of expression `e`: operands first, left to right,
/// then the operation; argument labels are dropped.
pub open spec fn emits_expr(e: Expr, code: Seq<OpCode>) -> bool
    decreases e,
{
    &&& code.len() == expr_code_len(e)
    &&& match e {
        Expr::IntLiteral { value, suffix, .. } => code[0] == OpCode::PushConst(int_constant(value, suffix)),
        Expr::FloatLiteral { literal, suffix, .. } => code[0] == OpCode::PushConst(float_constant(literal, suffix)),
        Expr::StringLiteral { value, .. } => code[0] == OpCode::PushConst(Constant::StringVal(value)),
        Expr::CharLiteral { value, .. } => code[0] == OpCode::PushConst(Constant::Char(value)),
        Expr::BoolLiteral { value, .. } => code[0] == OpCode::PushConst(Constant::Bool(value)),
        Expr::Identifier { name, .. } => code[0] == OpCode::Load(name),
        Expr::SelfValue { .. } => code[0] matches OpCode::Load(n) && n@ == "self"@,
        Expr::PathExpr { segments, .. } => code[0] matches OpCode::PushConst(Constant::Path(p)) && p@ == segments@,
        Expr::Binary { left, op, right, .. } => {
            let l = expr_code_len(*left);
            &&& emits_expr(*left, code.take(l as int))
            &&& emits_expr(*right, code.subrange(l as int, code.len() - 1))
            &&& code.last() == binop_code(op)
        },
        Expr::Unary { op, operand, .. } => {
            let l = expr_code_len(*operand);
            &&& emits_expr(*operand, code.take(l as int))
            &&& op is Negate ==> code.last() == OpCode::Negate
            &&& op is Not ==> code.last() == OpCode::Not
        },
        Expr::MethodCall { object, method, args, .. } => {
            let l = expr_code_len(*object);
            &&& emits_expr(*object, code.take(l as int))
            &&& emits_args(args@, code.subrange(l as int, code.len() - 1))
            &&& code.last() == OpCode::CallMethod(method, args@.len() as usize)
        },
        Expr::FnCall { callee, args, .. } => {
            &&& emits_args(args@, code.drop_last())
            &&& match code.last() {
                OpCode::CallBuiltin(n, k) => builtin_fn(n@) && n@ == callee_name(*callee) && k == args@.len(),
                OpCode::Call(n, k) => !builtin_fn(n@) && n@ == callee_name(*callee) && k == args@.len(),
                _ => false,
            }
        },
        Expr::FieldAccess { object, field, .. } => {
            &&& emits_expr(*object, code.drop_last())
            &&& code.last() == OpCode::GetField(field)
        },
        Expr::Grouped { inner, .. } => emits_expr(*inner, code),
        Expr::WithErrorHandler { expr, .. } => emits_expr(*expr, code),
        Expr::StructInit { type_path, fields, .. } => {
            &&& emits_fields(fields@, code.drop_last())
            &&& code.last() matches OpCode::MakeStruct(n, k) && n@ == joined(type_path@) && k == fields@.len()
        },
    }
}

/// `ls` are the source lines of the code of expression `e`: each
/// instruction carries the line of the expression (or operation) that
/// produces it.
pub open spec fn lines_expr(e: Expr, ls: Seq<usize>) -> bool
    decreases e,
{
    &&& ls.len() == expr_code_len(e)
    &&& match e {
        Expr::IntLiteral { span, .. } => ls[0] == span.line,
        Expr::FloatLiteral { span, .. } => ls[0] == span.line,
        Expr::StringLiteral { span, .. } => ls[0] == span.line,
        Expr::CharLiteral { span, .. } => ls[0] == span.line,
        Expr::BoolLiteral { span, .. } => ls[0] == span.line,
        Expr::Identifier { span, .. } => ls[0] == span.line,
        Expr::SelfValue { span } => ls[0] == span.line,
        Expr::PathExpr { span, .. } => ls[0] == span.line,
        Expr::Binary { left, right, span, .. } => {
            let l = expr_code_len(*left);
            &&& lines_expr(*left, ls.take(l as int))
            &&& lines_expr(*right, ls.subrange(l as int, ls.len() - 1))
            &&& ls.last() == span.line
        },
        Expr::Unary { op, operand, span } => {
            let l = expr_code_len(*operand);
            &&& lines_expr(*operand, ls.take(l as int))
            &&& (op is Negate || op is Not) ==> ls.last() == span.line
        },
        Expr::MethodCall { object, args, span, .. } => {
            let l = expr_code_len(*object);
            &&& lines_expr(*object, ls.take(l as int))
            &&& lines_args(args@, ls.subrange(l as int, ls.len() - 1))
            &&& ls.last() == span.line
        },
        Expr::FnCall { args, span, .. } => lines_args(args@, ls.drop_last()) && ls.last() == span.line,
        Expr::FieldAccess { object, span, .. } => lines_expr(*object, ls.drop_last()) && ls.last() == span.line,
        Expr::Grouped { inner, .. } => lines_expr(*inner, ls),
        Expr::WithErrorHandler { expr, .. } => lines_expr(*expr, ls),
        Expr::StructInit { fields, span, .. } => lines_fields(fields@, ls.drop_last()) && ls.last() == span.line,
    }
}

/// `ls` are the source lines of the code of a statement that compiles
/// without jumps: its expression's lines, then the statement's own line for
/// the instruction it adds (`break` and `continue` add one at line 0); other
/// statements are not constrained here.
pub open spec fn lines_simple_stmt(s: Stmt, ls: Seq<usize>) -> bool {
    match s {
        Stmt::Let { initializer, span, .. } => ls.len() > 0 && lines_expr(initializer, ls.drop_last()) && ls.last()
            == span.line,
        Stmt::Return { value, span } => ls.len() > 0 && ls.last() == span.line && match value {
            Some(e) => lines_expr(e, ls.drop_last()),
            None => ls.drop_last() == seq![span.line],
        },
        Stmt::Expression { expr, span } => ls.len() > 0 && lines_expr(expr, ls.drop_last()) && ls.last() == span.line,
        Stmt::Assignment { target, value, span } => if target is Identifier {
            ls.len() > 0 && lines_expr(value, ls.drop_last()) && ls.last() == span.line
        } else {
            lines_expr(value, ls)
        },
        Stmt::Break { .. } => ls == seq![0usize],
        Stmt::Continue { .. } => ls == seq![0usize],
        _ => true,
    }
}

/// `ls` are the source lines of the code of the argument values, in order.
pub open spec fn lines_args(args: Seq<NamedArg>, ls: Seq<usize>) -> bool
    decreases args,
{
    &&& ls.len() == args_code_len(args)
    &&& args.len() > 0 ==> {
        let l = args_code_len(args.drop_last());
        &&& lines_args(args.drop_last(), ls.take(l as int))
        &&& lines_expr(args.last().value, ls.skip(l as int))
    }
}

/// `ls` are the source lines of the code of the field values, in order.
pub open spec fn lines_fields(fields: Seq<(String, Expr)>, ls: Seq<usize>) -> bool
    decreases fields,
{
    &&& ls.len() == fields_code_len(fields)
    &&& fields.len() > 0 ==> {
        let l = fields_code_len(fields.drop_last());
        &&& lines_fields(fields.drop_last(), ls.take(l as int))
        &&& lines_expr(fields.last().1, ls.skip(l as int))
    }
}

/// `code` is the code of the argument values, in order.
pub open spec fn emits_args(args: Seq<NamedArg>, code: Seq<OpCode>) -> bool
    decreases args,
{
    &&& code.len() == args_code_len(args)
    &&& args.len() > 0 ==> {
        let l = args_code_len(args.drop_last());
        &&& emits_args(args.drop_last(), code.take(l as int))
        &&& emits_expr(args.last().value, code.skip(l as int))
    }
}

/// `code` is the code of the field values, in order.
pub open spec fn emits_fields(fields: Seq<(String, Expr)>, code: Seq<OpCode>) -> bool
    decreases fields,
{
    &&& code.len() == fields_code_len(fields)
    &&& fields.len() > 0 ==> {
        let l = fields_code_len(fields.drop_last());
        &&& emits_fields(fields.drop_last(), code.take(l as int))
        &&& emits_expr(fields.last().1, code.skip(l as int))
    }
}

// ── The code a statement compiles to ──

/// Number of instructions a statement compiles to.
pub open spec fn stmt_code_len(s: Stmt) -> nat
    decreases s,
{
    match s {
        Stmt::Let { initializer, .. } => expr_code_len(initializer) + 1,
        Stmt::Return { value, .. } => match value {
            Some(e) => expr_code_len(e) + 1,
            None => 2,
        },
        Stmt::Expression { expr, .. } => expr_code_len(expr) + 1,
        Stmt::Assignment { target, value, .. } => expr_code_len(value) + if target is Identifier {
            1nat
        } else {
            0nat
        },
        Stmt::If { condition, then_block, else_if_blocks, else_block, .. } => expr_code_len(condition) + 1
            + block_code_len(then_block@) + 1 + elifs_code_len(else_if_blocks@) + match else_block {
            Some(b) => block_code_len(b@),
            None => 0,
        },
        Stmt::While { condition, body, .. } => expr_code_len(condition) + 1 + block_code_len(body@) + 1,
        Stmt::Match { value, arms, .. } => expr_code_len(value) + arms_code_len(arms@),
        Stmt::Guard { condition, else_block, .. } => expr_code_len(condition) + 1 + block_code_len(else_block@),
        Stmt::Break { .. } => 1,
        Stmt::Continue { .. } => 1,
    }
}

/// Number of instructions a block compiles to.
pub open spec fn block_code_len(b: Seq<Stmt>) -> nat
    decreases b,
{
    if b.len() == 0 {
        0
    } else {
        block_code_len(b.drop_last()) + stmt_code_len(b.last())
    }
}

/// Number of instructions the `else if` branches compile to.
pub open spec fn elifs_code_len(bs: Seq<(Expr, Vec<Stmt>)>) -> nat
    decreases bs,
{
    if bs.len() == 0 {
        0
    } else {
        elifs_code_len(bs.drop_last()) + expr_code_len(bs.last().0) + 1 + block_code_len(bs.last().1@) + 1
    }
}

/// Number of instructions the arms of a `match` compile to.
pub open spec fn arms_code_len(arms: Seq<MatchArm>) -> nat
    decreases arms,
{
    if arms.len() == 0 {
        0
    } else {
        arms_code_len(arms.drop_last()) + match arms.last().pattern {
            MatchPattern::Literal(e) => expr_code_len(e) + 5 + block_code_len(arms.last().body@),
            MatchPattern::Default => 1 + block_code_len(arms.last().body@),
            MatchPattern::Variant { .. } => block_code_len(arms.last().body@),
        }
    }
}

/// `code` is the code of statement `s` placed at position `base` of its
/// chunk. An `if` tests its condition, jumps over the `then` block when it is
/// false, and the `then` block and each `else if` block end with a jump to
/// the end of the whole `if`; a `while` tests its condition, leaves the loop
/// when it is false and jumps back to the test after the body; a `match`
/// leaves the value on the stack for its arms; a `guard` jumps over its
/// `else` block when its condition holds.
pub open spec fn emits_stmt(s: Stmt, base: int, code: Seq<OpCode>) -> bool
    decreases s,
{
    &&& code.len() == stmt_code_len(s)
    &&& match s {
        Stmt::If { condition, then_block, else_if_blocks, else_block, .. } => {
            let n1 = expr_code_len(condition) as int;
            let t = block_code_len(then_block@) as int;
            let a = n1 + 1 + t + 1;
            let e = elifs_code_len(else_if_blocks@) as int;
            &&& emits_expr(condition, code.take(n1))
            &&& code[n1] == OpCode::JumpIfFalse((base + a) as usize)
            &&& emits_block(then_block@, base + n1 + 1, code.subrange(n1 + 1, n1 + 1 + t))
            &&& code[n1 + 1 + t] == OpCode::Jump((base + code.len()) as usize)
            &&& emits_elifs(else_if_blocks@, base + a, base + code.len(), code.subrange(a, a + e))
            &&& match else_block {
                Some(b) => emits_block(b@, base + a + e, code.skip(a + e)),
                None => true,
            }
        },
        Stmt::While { condition, body, .. } => {
            let n1 = expr_code_len(condition) as int;
            let t = block_code_len(body@) as int;
            &&& emits_expr(condition, code.take(n1))
            &&& code[n1] == OpCode::JumpIfFalse((base + code.len()) as usize)
            &&& emits_block(body@, base + n1 + 1, code.subrange(n1 + 1, n1 + 1 + t))
            &&& code.last() == OpCode::Jump(base as usize)
        },
        Stmt::Match { value, arms, .. } => {
            let n1 = expr_code_len(value) as int;
            &&& emits_expr(value, code.take(n1))
            &&& emits_arms(arms@, base + n1, base + code.len(), code.skip(n1))
        },
        Stmt::Guard { condition, else_block, .. } => {
            let n1 = expr_code_len(condition) as int;
            &&& emits_expr(condition, code.take(n1))
            &&& code[n1] == OpCode::JumpIfTrue((base + code.len()) as usize)
            &&& emits_block(else_block@, base + n1 + 1, code.skip(n1 + 1))
        },
        _ => emits_simple_stmt(s, code),
    }
}

/// `code` is the code of the statements of a block, in order, placed at
/// position `base`.
pub open spec fn emits_block(b: Seq<Stmt>, base: int, code: Seq<OpCode>) -> bool
    decreases b,
{
    &&& code.len() == block_code_len(b)
    &&& b.len() > 0 ==> {
        let l = block_code_len(b.drop_last()) as int;
        &&& emits_block(b.drop_last(), base, code.take(l))
        &&& emits_stmt(b.last(), base + l, code.skip(l))
    }
}

/// `code` is the code of the `else if` branches placed at position `base`,
/// each ending with a jump to `end`.
pub open spec fn emits_elifs(bs: Seq<(Expr, Vec<Stmt>)>, base: int, end: int, code: Seq<OpCode>) -> bool
    decreases bs,
{
    &&& code.len() == elifs_code_len(bs)
    &&& bs.len() > 0 ==> {
        let l = elifs_code_len(bs.drop_last()) as int;
        let c = code.skip(l);
        let n1 = expr_code_len(bs.last().0) as int;
        let t = block_code_len(bs.last().1@) as int;
        &&& emits_elifs(bs.drop_last(), base, end, code.take(l))
        &&& emits_expr(bs.last().0, c.take(n1))
        &&& c[n1] == OpCode::JumpIfFalse((base + code.len()) as usize)
        &&& emits_block(bs.last().1@, base + l + n1 + 1, c.subrange(n1 + 1, n1 + 1 + t))
        &&& c.last() == OpCode::Jump(end as usize)
    }
}

/// `code` is the code of the arms of a `match` placed at position `base`.
/// A `case` arm compares a copy of the value with its own and jumps to the
/// next arm when they differ; otherwise it drops the value, runs its body
/// and jumps to `end`. A `default` arm drops the value and runs its body; a
/// variant arm runs its body.
pub open spec fn emits_arms(arms: Seq<MatchArm>, base: int, end: int, code: Seq<OpCode>) -> bool
    decreases arms,
{
    &&& code.len() == arms_code_len(arms)
    &&& arms.len() > 0 ==> {
        let l = arms_code_len(arms.drop_last()) as int;
        let c = code.skip(l);
        let t = block_code_len(arms.last().body@) as int;
        &&& emits_arms(arms.drop_last(), base, end, code.take(l))
        &&& match arms.last().pattern {
            MatchPattern::Literal(e) => {
                let n1 = expr_code_len(e) as int;
                &&& c[0] == OpCode::Dup
                &&& emits_expr(e, c.subrange(1, 1 + n1))
                &&& c[1 + n1] == OpCode::Equal
                &&& c[2 + n1] == OpCode::JumpIfFalse((base + code.len()) as usize)
                &&& c[3 + n1] == OpCode::Pop
                &&& emits_block(arms.last().body@, base + l + 4 + n1, c.subrange(4 + n1, 4 + n1 + t))
                &&& c.last() == OpCode::Jump(end as usize)
            },
            MatchPattern::Default => {
                &&& c[0] == OpCode::Pop
                &&& emits_block(arms.last().body@, base + l + 1, c.skip(1))
            },
            MatchPattern::Variant { .. } => emits_block(arms.last().body@, base + l, c),
        }
    }
}

/// Position `i` is listed in `pending`.
pub open spec fn listed(pending: Seq<usize>, i: int) -> bool {
    exists|k: int| 0 <= k < pending.len() && #[trigger] pending[k] == i
}

/// `code` with the jumps at the positions listed in `pending` sent to
/// `target`.
pub open spec fn patched(code: Seq<OpCode>, pending: Seq<usize>, target: usize) -> Seq<OpCode> {
    Seq::new(
        code.len(),
        |i: int|
            if listed(pending, i) {
                retargeted(code[i], target)
            } else {
                code[i]
            },
    )
}

/// Patching leaves alone a region that holds no pending position.
proof fn lemma_patched_outside(x: Seq<OpCode>, p: Seq<usize>, t: usize, i: int, j: int)
    requires
        0 <= i <= j <= x.len(),
        forall|k: int| 0 <= k < p.len() ==> !(i <= #[trigger] p[k] < j),
    ensures
        patched(x, p, t).subrange(i, j) == x.subrange(i, j),
{
    assert forall|m: int| i <= m < j implies #[trigger] patched(x, p, t)[m] == x[m] by {
        if listed(p, m) {
            let k = choose|k: int| 0 <= k < p.len() && #[trigger] p[k] == m;
            assert(!(i <= p[k] < j));
        }
    }
    assert(patched(x, p, t).subrange(i, j) =~= x.subrange(i, j));
}

/// One more pending position outside a region leaves the region's patched
/// code as it was.
proof fn lemma_patched_push(x: Seq<OpCode>, y: Seq<OpCode>, p: Seq<usize>, v: usize, t: usize, i: int, j: int)
    requires
        0 <= i <= j <= x.len(),
        j <= y.len(),
        x.subrange(i, j) == y.subrange(i, j),
        !(i <= v < j),
    ensures
        patched(y, p.push(v), t).subrange(i, j) == patched(x, p, t).subrange(i, j),
{
    assert forall|m: int| i <= m < j implies #[trigger] patched(y, p.push(v), t)[m] == patched(x, p, t)[m] by {
        assert(x[m] == x.subrange(i, j)[m - i]);
        assert(y[m] == y.subrange(i, j)[m - i]);
        if listed(p.push(v), m) {
            let k = choose|k: int| 0 <= k < p.push(v).len() && #[trigger] p.push(v)[k] == m;
            if k == p.len() {
                assert(p.push(v)[k] == v);
            }
            assert(p[k] == m);
        }
        if listed(p, m) {
            let k = choose|k: int| 0 <= k < p.len() && #[trigger] p[k] == m;
            assert(p.push(v)[k] == m);
        }
    }
    assert(patched(y, p.push(v), t).subrange(i, j) =~= patched(x, p, t).subrange(i, j));
}

/// Patching with the same pending positions keeps a region on which two
/// codes agree.
proof fn lemma_patched_same(x: Seq<OpCode>, y: Seq<OpCode>, p: Seq<usize>, t: usize, i: int, j: int)
    requires
        0 <= i <= j <= x.len(),
        j <= y.len(),
        x.subrange(i, j) == y.subrange(i, j),
    ensures
        patched(y, p, t).subrange(i, j) == patched(x, p, t).subrange(i, j),
{
    assert forall|m: int| i <= m < j implies #[trigger] patched(y, p, t)[m] == patched(x, p, t)[m] by {
        assert(x[m] == x.subrange(i, j)[m - i]);
        assert(y[m] == y.subrange(i, j)[m - i]);
    }
    assert(patched(y, p, t).subrange(i, j) =~= patched(x, p, t).subrange(i, j));
}

/// No instruction of `code` is a jump.
pub open spec fn no_jumps(code: Seq<OpCode>) -> bool {
    forall|i: int| 0 <= i < code.len() ==> jump_target(#[trigger] code[i]) is None
}

/// `after` is `before` with instructions appended.
pub open spec fn extends_code(before: Chunk, after: Chunk) -> bool {
    &&& after.wf()
    &&& after.name == before.name
    &&& after.params == before.params
    &&& before.code@.len() <= after.code@.len()
    &&& after.code@.take(before.code@.len() as int) == before.code@
}

/// Every jump from position `lo` on leads to a position in `lo ..= hi`.
pub open spec fn jumps_within(code: Seq<OpCode>, lo: int, hi: int) -> bool {
    forall|i: int| lo <= i < code.len() ==> (#[trigger] jump_target(code[i]) matches Some(t) ==> lo <= t <= hi)
}

/// The code of the statements that compile without jumps: a `let`,
/// `return`, expression statement, assignment, `break` or `continue`.
pub open spec fn emits_simple_stmt(s: Stmt, code: Seq<OpCode>) -> bool {
    match s {
        Stmt::Let { mutable, name, initializer, .. } => {
            &&& emits_expr(initializer, code.drop_last())
            &&& code.len() > 0
            &&& code.last() == if mutable {
                OpCode::StoreMut(name)
            } else {
                OpCode::Store(name)
            }
        },
        Stmt::Return { value, .. } => code.len() > 0 && code.last() == OpCode::Return && match value {
            Some(e) => emits_expr(e, code.drop_last()),
            None => code.drop_last() == seq![OpCode::PushConst(Constant::Void)],
        },
        Stmt::Expression { expr, .. } => code.len() > 0 && emits_expr(expr, code.drop_last()) && code.last() == OpCode::Pop,
        Stmt::Assignment { target, value, .. } => match target {
            Expr::Identifier { name, .. } => code.len() > 0 && emits_expr(value, code.drop_last()) && code.last()
                == OpCode::Store(name),
            _ => emits_expr(value, code),
        },
        Stmt::Break { .. } => code == seq![OpCode::Nop],
        Stmt::Continue { .. } => code == seq![OpCode::Nop],
        _ => true,
    }
}


/// Jumps stay within `lo ..= hi` when the code grows past them.
proof fn lemma_jumps_within_grow(a: Seq<OpCode>, b: Seq<OpCode>, lo: int, hi: int, hi2: int)
    requires
        jumps_within(a, lo, hi),
        a.len() <= b.len(),
        b.take(a.len() as int) == a,
        jumps_within(b, a.len() as int, hi2),
        0 <= lo <= a.len(),
        hi <= hi2,
    ensures
        jumps_within(b, lo, hi2),
{
    assert forall|i: int| lo <= i < b.len() implies (#[trigger] jump_target(b[i]) matches Some(t) ==> lo <= t
        <= hi2) by {
        if i < a.len() {
            assert(b[i] == b.take(a.len() as int)[i]);
        }
    }
}

/// Code without jumps keeps all jumps within any range.
proof fn lemma_no_jumps_within(code: Seq<OpCode>, n0: int, hi: int)
    requires
        0 <= n0 <= code.len(),
        no_jumps(code.skip(n0)),
    ensures
        jumps_within(code, n0, hi),
{
    assert forall|i: int| n0 <= i < code.len() implies (#[trigger] jump_target(code[i]) matches Some(t) ==> n0
        <= t <= hi) by {
        assert(code[i] == code.skip(n0)[i - n0]);
    }
}

/// A compiled function: it ends in `return` and its jumps stay inside it.
pub open spec fn well_compiled(c: Chunk) -> bool {
    &&& c.wf()
    &&& c.code@.len() > 0
    &&& c.code@.last() == OpCode::Return
    &&& c.jumps_in_range()
}

/// Every jump from position `lo` on leads into `lo ..= code.len()`, except
/// the jumps at the positions listed in `pending`, whose targets are not
/// set yet.
pub open spec fn jumps_ok_except(code: Seq<OpCode>, lo: int, pending: Seq<usize>) -> bool {
    &&& forall|k: int| 0 <= k < pending.len() ==> lo <= #[trigger] pending[k] < code.len() && jump_target(
        code[pending[k] as int],
    ) is Some
    &&& forall|i: int| lo <= i < code.len() ==> (#[trigger] jump_target(code[i]) matches Some(t) ==> (lo <= t <= code.len()
        || pending.contains(i as usize)))
}

/// Appending code whose jumps stay within it keeps the other jumps as they
/// were.
proof fn lemma_pending_grow(a: Seq<OpCode>, b: Seq<OpCode>, lo: int, pending: Seq<usize>)
    requires
        jumps_ok_except(a, lo, pending),
        a.len() <= b.len(),
        b.take(a.len() as int) == a,
        jumps_within(b, a.len() as int, b.len() as int),
        0 <= lo <= a.len(),
    ensures
        jumps_ok_except(b, lo, pending),
{
    assert forall|k: int| 0 <= k < pending.len() implies lo <= #[trigger] pending[k] < b.len() && jump_target(
        b[pending[k] as int],
    ) is Some by {
        assert(b[pending[k] as int] == b.take(a.len() as int)[pending[k] as int]);
    }
    assert forall|i: int| lo <= i < b.len() implies (#[trigger] jump_target(b[i]) matches Some(t) ==> (lo <= t
        <= b.len() || pending.contains(i as usize))) by {
        if i < a.len() {
            assert(b[i] == b.take(a.len() as int)[i]);
        }
    }
}

/// Appending a jump whose target is still to be set, at position `idx`.
proof fn lemma_pending_push(a: Seq<OpCode>, op: OpCode, idx: usize, lo: int, pending: Seq<usize>)
    requires
        jumps_ok_except(a, lo, pending),
        jump_target(op) is Some,
        0 <= lo <= a.len(),
        idx == a.len(),
    ensures
        jumps_ok_except(a.push(op), lo, pending.push(idx)),
{
    let b = a.push(op);
    let p2 = pending.push(idx);
    assert forall|k: int| 0 <= k < p2.len() implies lo <= #[trigger] p2[k] < b.len() && jump_target(
        b[p2[k] as int],
    ) is Some by {
        if k < pending.len() {
            assert(p2[k] == pending[k]);
            assert(b[pending[k] as int] == a[pending[k] as int]);
        }
    }
    assert forall|i: int| lo <= i < b.len() implies (#[trigger] jump_target(b[i]) matches Some(t) ==> (lo <= t
        <= b.len() || p2.contains(i as usize))) by {
        if i < a.len() {
            assert(b[i] == a[i]);
            if pending.contains(i as usize) {
                let k = choose|k: int| 0 <= k < pending.len() && pending[k] == i as usize;
                assert(p2[k] == i as usize);
            }
        } else {
            assert(p2[pending.len() as int] == i as usize);
        }
    }
}

/// A retargeted jump jumps to its new target.
proof fn lemma_retargeted(op: OpCode, target: usize)
    requires
        jump_target(op) is Some,
    ensures
        jump_target(retargeted(op, target)) == Some(target),
{
}

/// Setting the target of a pending jump to a place in range.
proof fn lemma_pending_patch(
    code: Seq<OpCode>,
    lo: int,
    pending: Seq<usize>,
    p: int,
    target: usize,
    rest: Seq<usize>,
)
    requires
        jumps_ok_except(code, lo, pending),
        0 <= lo <= p < code.len(),
        code.len() <= usize::MAX,
        jump_target(code[p]) is Some,
        lo <= target <= code.len(),
        forall|i: usize| #[trigger] pending.contains(i) && i != p ==> rest.contains(i),
        forall|k: int| 0 <= k < rest.len() ==> lo <= #[trigger] rest[k] < code.len() && jump_target(
            code[rest[k] as int],
        ) is Some,
    ensures
        jumps_ok_except(code.update(p, retargeted(code[p], target)), lo, rest),
{
    let c2 = code.update(p, retargeted(code[p], target));
    lemma_retargeted(code[p], target);
    assert forall|k: int| 0 <= k < rest.len() implies lo <= #[trigger] rest[k] < c2.len() && jump_target(
        c2[rest[k] as int],
    ) is Some by {
        if rest[k] as int != p {
            assert(c2[rest[k] as int] == code[rest[k] as int]);
        }
    }
    assert forall|i: int| lo <= i < c2.len() implies (#[trigger] jump_target(c2[i]) matches Some(t) ==> (lo <= t
        <= c2.len() || rest.contains(i as usize))) by {
        if i != p {
            assert(c2[i] == code[i]);
            assert((i as usize) as int == i);
            if jump_target(code[i]) is Some && !(lo <= jump_target(code[i])->0 <= code.len()) {
                assert(pending.contains(i as usize));
                assert(rest.contains(i as usize));
            }
        }
    }
}

/// An instruction that is no jump, appended, keeps the jumps as they were.
proof fn lemma_plain_push(a: Seq<OpCode>, op: OpCode, lo: int, pending: Seq<usize>)
    requires
        jumps_ok_except(a, lo, pending),
        jump_target(op) is None,
        0 <= lo <= a.len(),
    ensures
        jumps_ok_except(a.push(op), lo, pending),
{
    let b = a.push(op);
    assert(b.take(a.len() as int) =~= a);
    assert forall|i: int| a.len() <= i < b.len() implies (#[trigger] jump_target(b[i]) matches Some(t) ==> a.len()
        <= t <= b.len()) by {}
    lemma_pending_grow(a, b, lo, pending);
}

/// With nothing pending, all jumps are within range.
proof fn lemma_pending_none(code: Seq<OpCode>, lo: int)
    ensures
        jumps_ok_except(code, lo, Seq::empty()) <==> jumps_within(code, lo, code.len() as int),
{
}

/// After an expression's code and one more instruction that is no jump.
proof fn lemma_one_more(c0: Seq<OpCode>, c1: Seq<OpCode>, op: OpCode)
    requires
        c0.len() <= c1.len(),
        c1.take(c0.len() as int) == c0,
        no_jumps(c1.skip(c0.len() as int)),
        jump_target(op) is None,
    ensures
        c1.push(op).take(c0.len() as int) == c0,
        c1.push(op).skip(c0.len() as int).len() > 0,
        c1.push(op).skip(c0.len() as int).drop_last() == c1.skip(c0.len() as int),
        c1.push(op).skip(c0.len() as int).last() == op,
        jumps_within(c1.push(op), c0.len() as int, c1.push(op).len() as int),
{
    let c2 = c1.push(op);
    assert(c2.take(c0.len() as int) =~= c0);
    assert(c2.skip(c0.len() as int).drop_last() =~= c1.skip(c0.len() as int));
    assert forall|i: int| c0.len() <= i < c2.len() implies (#[trigger] jump_target(c2[i]) matches Some(t) ==> c0.len()
        <= t <= c2.len()) by {
        if i < c1.len() {
            assert(c2[i] == c1.skip(c0.len() as int)[i - c0.len()]);
        }
    }
}

/// A prefix of a prefix.
proof fn lemma_take_prefix(a: Seq<OpCode>, b: Seq<OpCode>, n: int)
    requires
        0 <= n <= a.len() <= b.len(),
        b.take(a.len() as int) == a,
    ensures
        b.take(n) == a.take(n),
{
    assert(b.take(n) =~= a.take(n));
}

/// The entry point that module directives set: the value of the last
/// directive whose path ends in `entry`, or `initial` if there is none.
pub open spec fn entry_of(dirs: Seq<crate::ast::ModuleDirective>, initial: Option<String>) -> Option<String>
    decreases dirs.len(),
{
    if dirs.len() == 0 {
        initial
    } else {
        let d = dirs.last();
        if d.path@.len() > 0 && d.path@.last()@ == "entry"@ {
            Some(d.value)
        } else {
            entry_of(dirs.drop_last(), initial)
        }
    }
}

/// Names of the chunks of a contract's methods, qualified by the contract's
/// name (`Main::main`).
pub open spec fn method_chunk_names(contract: Seq<char>, members: Seq<ContractMember>) -> Seq<Seq<char>>
    decreases members.len(),
{
    if members.len() == 0 {
        Seq::empty()
    } else {
        let rest = method_chunk_names(contract, members.drop_last());
        match members.last() {
            ContractMember::Method(m) => rest.push(contract + "::"@ + m.name@),
            _ => rest,
        }
    }
}

/// Names of the chunks compiled from the declarations, in order: one per
/// contract method and one per free function; enumerations have none.
pub open spec fn chunk_names(decls: Seq<Declaration>) -> Seq<Seq<char>>
    decreases decls.len(),
{
    if decls.len() == 0 {
        Seq::empty()
    } else {
        let rest = chunk_names(decls.drop_last());
        match decls.last() {
            Declaration::Contract(c) => rest + method_chunk_names(c.name@, c.members@),
            Declaration::Function(f) => rest.push(f.name@),
            Declaration::Enumeration(_) => rest,
        }
    }
}

/// The chunk names of declarations followed by one more.
proof fn lemma_chunk_names_step(decls: Seq<Declaration>, d: Declaration)
    ensures
        chunk_names(decls.push(d)) == chunk_names(decls) + chunk_names(seq![d]),
{
    assert(decls.push(d).drop_last() =~= decls);
    assert(seq![d].drop_last() =~= Seq::<Declaration>::empty());
    assert(decls.push(d).last() == d);
    assert(seq![d].last() == d);
    let e = Seq::<Seq<char>>::empty();
    assert(chunk_names(Seq::<Declaration>::empty()) == e);
    match d {
        Declaration::Contract(c) => {
            assert(e + method_chunk_names(c.name@, c.members@) =~= method_chunk_names(c.name@, c.members@));
        },
        Declaration::Function(f) => {
            assert(chunk_names(decls).push(f.name@) =~= chunk_names(decls) + e.push(f.name@));
        },
        Declaration::Enumeration(_) => {
            assert(chunk_names(decls) =~= chunk_names(decls) + e);
        },
    }
}

/// The chunk names of a single declaration.
proof fn lemma_chunk_names_one(d: Declaration)
    ensures
        chunk_names(seq![d]) == match d {
            Declaration::Contract(c) => method_chunk_names(c.name@, c.members@),
            Declaration::Function(f) => seq![f.name@],
            Declaration::Enumeration(_) => Seq::<Seq<char>>::empty(),
        },
{
    let one = seq![d];
    assert(one.drop_last() =~= Seq::<Declaration>::empty());
    assert(one.last() == d);
    let e = Seq::<Seq<char>>::empty();
    assert(chunk_names(Seq::<Declaration>::empty()) == e);
    assert(chunk_names(one) == match d {
        Declaration::Contract(c) => chunk_names(one.drop_last()) + method_chunk_names(c.name@, c.members@),
        Declaration::Function(f) => chunk_names(one.drop_last()).push(f.name@),
        Declaration::Enumeration(_) => chunk_names(one.drop_last()),
    });
    match d {
        Declaration::Contract(c) => {
            assert(e + method_chunk_names(c.name@, c.members@) =~= method_chunk_names(c.name@, c.members@));
        },
        Declaration::Function(f) => {
            assert(e.push(f.name@) =~= seq![f.name@]);
        },
        Declaration::Enumeration(_) => {},
    }
}

/// `code` is the code of function `f`: its arguments stored into its
/// parameters, last parameter first; the code of its body; and, unless that
/// code ends in `return`, `Void` returned.
pub open spec fn emits_function(f: FnDecl, code: Seq<OpCode>) -> bool {
    let p = f.params@.len() as int;
    let b = block_code_len(f.body@) as int;
    &&& p + b <= code.len()
    &&& forall|i: int| 0 <= i < p ==> #[trigger] code[i] == OpCode::Store(f.params@[p - 1 - i].name)
    &&& emits_block(f.body@, p, code.subrange(p, p + b))
    &&& if p + b > 0 && code[p + b - 1] == OpCode::Return {
        code.len() == p + b
    } else {
        code.skip(p + b) == seq![OpCode::PushConst(Constant::Void), OpCode::Return]
    }
}

/// The chunks from position `n0` on are compiled from the functions `fs`,
/// one each, in order, and take no parameters.
pub open spec fn compiled_from(chunks: Seq<Chunk>, n0: int, fs: Seq<FnDecl>) -> bool {
    &&& chunks.len() == n0 + fs.len()
    &&& forall|j: int| n0 <= j < chunks.len() ==> {
        &&& (#[trigger] chunks[j]).params@.len() == 0
        &&& emits_function(fs[j - n0], chunks[j].code@)
    }
}

/// The names of a list of chunks.
pub open spec fn names_of(chunks: Seq<Chunk>) -> Seq<Seq<char>> {
    chunks.map_values(|c: Chunk| c.name@)
}

/// A copy of a list of strings.
fn copy_strings(v: &Vec<String>) -> (r: Vec<String>)
    ensures
        r@ == v@,
{
    let mut r: Vec<String> = Vec::new();
    let mut i: usize = 0;
    while i < v.len()
        invariant
            i <= v.len(),
            r@ == v@.take(i as int),
        decreases v.len() - i,
    {
        r.push(v[i].clone());
        i += 1;
        assert(r@ =~= v@.take(i as int));
    }
    assert(v@.take(i as int) =~= v@);
    r
}

/// The constant of an integer literal.
fn int_constant_of(value: i128, suffix: &Option<String>) -> (c: Constant)
    ensures
        c == int_constant(value, *suffix),
{
    match suffix {
        Some(s) => {
            let s = s.as_str();
            if str_eq(s, "i8") {
                Constant::Int8(value as i8)
            } else if str_eq(s, "i16") {
                Constant::Int16(value as i16)
            } else if str_eq(s, "i32") {
                Constant::Int32(value as i32)
            } else if str_eq(s, "i64") {
                Constant::Int64(value as i64)
            } else if str_eq(s, "u8") {
                Constant::UInt8(value as u8)
            } else if str_eq(s, "u16") {
                Constant::UInt16(value as u16)
            } else if str_eq(s, "u32") {
                Constant::UInt32(value as u32)
            } else if str_eq(s, "u64") {
                Constant::UInt64(value as u64)
            } else {
                Constant::Int64(value as i64)
            }
        },
        None => Constant::Int64(value as i64),
    }
}

/// The constant of a floating-point literal.
fn float_constant_of(literal: &String, suffix: &Option<String>) -> (c: Constant)
    ensures
        c == float_constant(*literal, *suffix),
{
    let is_f32 = match suffix {
        Some(s) => str_eq(s.as_str(), "f32"),
        None => false,
    };
    if is_f32 {
        Constant::Float32 { literal: literal.clone() }
    } else {
        Constant::Float64 { literal: literal.clone() }
    }
}

/// The instruction of a binary operator.
fn binop_instruction(op: BinOp) -> (r: OpCode)
    ensures
        r == binop_code(op),
{
    match op {
        BinOp::Add => OpCode::Add,
        BinOp::Sub => OpCode::Sub,
        BinOp::Mul => OpCode::Mul,
        BinOp::Div => OpCode::Div,
        BinOp::Mod => OpCode::Mod,
        BinOp::Eq => OpCode::Equal,
        BinOp::NotEq => OpCode::NotEqual,
        BinOp::Lt => OpCode::LessThan,
        BinOp::LtEq => OpCode::LessEqual,
        BinOp::Gt => OpCode::GreaterThan,
        BinOp::GtEq => OpCode::GreaterEqual,
        BinOp::And => OpCode::And,
        BinOp::Or => OpCode::Or,
    }
}

/// The code of one more `else if` branch: its condition at `c0.len()`, the
/// jump over its block at `jif`, its block, and the jump to the end at `je`.
#[verifier::rlimit(50)]
proof fn lemma_elif_step(
    bs: Seq<(Expr, Vec<Stmt>)>,
    i: int,
    base0: int,
    end: usize,
    c0: Seq<OpCode>,
    c1: Seq<OpCode>,
    c2: Seq<OpCode>,
    c4: Seq<OpCode>,
    ej0: Seq<usize>,
    jif: int,
    je: int,
)
    requires
        0 <= i < bs.len(),
        0 <= base0 <= c0.len(),
        emits_elifs(bs.take(i), base0, end as int, patched(c0, ej0, end).skip(base0)),
        forall|k: int| 0 <= k < ej0.len() ==> #[trigger] ej0[k] < c0.len(),
        c0.len() <= c1.len(),
        c1.take(c0.len() as int) == c0,
        emits_expr(bs[i].0, c1.skip(c0.len() as int)),
        jif == c1.len(),
        jif < c2.len(),
        c2.take(jif) == c1,
        emits_block(bs[i].1@, jif + 1, c2.skip(jif + 1)),
        je == c2.len(),
        je + 1 <= usize::MAX,
        c4 == c2.push(OpCode::Jump(0)).update(jif, OpCode::JumpIfFalse((je + 1) as usize)),
    ensures
        emits_elifs(bs.take(i + 1), base0, end as int, patched(c4, ej0.push(je as usize), end).skip(base0)),
{
    let p4 = patched(c4, ej0.push(je as usize), end);
    let code = p4.skip(base0);
    let b1 = bs.take(i + 1);
    assert(b1.drop_last() =~= bs.take(i));
    assert(b1.last() == bs[i]);
    let l = elifs_code_len(bs.take(i)) as int;
    assert(l == c0.len() - base0);
    let n0 = c0.len() as int;
    assert(c4.subrange(base0, n0) =~= c0.subrange(base0, n0));
    lemma_patched_push(c0, c4, ej0, je as usize, end, base0, n0);
    assert(code.take(l) =~= p4.subrange(base0, n0));
    assert(patched(c0, ej0, end).skip(base0) =~= patched(c0, ej0, end).subrange(base0, n0));
    let q = ej0.push(je as usize);
    assert forall|k: int| 0 <= k < q.len() implies !(n0 <= #[trigger] q[k] < jif) by {
        if k < ej0.len() {
            assert(q[k] == ej0[k]);
        }
    }
    assert forall|k: int| 0 <= k < q.len() implies !(jif + 1 <= #[trigger] q[k] < je) by {
        if k < ej0.len() {
            assert(q[k] == ej0[k]);
        }
    }
    lemma_patched_outside(c4, q, end, n0, jif);
    lemma_patched_outside(c4, q, end, jif + 1, je);
    let c = code.skip(l);
    let n1 = expr_code_len(bs[i].0) as int;
    assert(c1.skip(n0).len() == n1);
    assert(c.take(n1) =~= p4.subrange(n0, jif));
    assert(c4.subrange(n0, jif) =~= c1.skip(n0)) by {
        assert forall|m: int| n0 <= m < jif implies c4[m] == c1[m] by {
            assert(c2.take(jif)[m] == c2[m]);
        }
    }
    assert(!listed(q, jif)) by {
        if listed(q, jif) {
            let k = choose|k: int| 0 <= k < q.len() && #[trigger] q[k] == jif;
            if k < ej0.len() {
                assert(q[k] == ej0[k]);
            }
        }
    }
    assert(c[n1] == p4[jif]);
    assert(p4[jif] == c4[jif]);
    assert(listed(q, je)) by {
        assert(q[ej0.len() as int] == je);
    }
    assert(c.last() == p4[je]);
    let t = block_code_len(bs[i].1@) as int;
    assert(c2.skip(jif + 1).len() == t);
    assert(c.subrange(n1 + 1, n1 + 1 + t) =~= p4.subrange(jif + 1, je));
    assert(c4.subrange(jif + 1, je) =~= c2.skip(jif + 1));
    assert(emits_elifs(b1, base0, end as int, code));
}

/// The code of one more `case` arm: a copy of the value at `c0.len()`, its
/// value, the comparison, the jump to the next arm at `skip`, the drop, its
/// body, and the jump to the end at `je`.
#[verifier::rlimit(50)]
proof fn lemma_case_step(
    arms: Seq<MatchArm>,
    i: int,
    base0: int,
    end: usize,
    c0: Seq<OpCode>,
    c1: Seq<OpCode>,
    c2: Seq<OpCode>,
    c4: Seq<OpCode>,
    ej0: Seq<usize>,
    skip: int,
    je: int,
)
    requires
        0 <= i < arms.len(),
        arms[i].pattern is Literal,
        0 <= base0 <= c0.len(),
        emits_arms(arms.take(i), base0, end as int, patched(c0, ej0, end).skip(base0)),
        forall|k: int| 0 <= k < ej0.len() ==> #[trigger] ej0[k] < c0.len(),
        c0.len() + 1 <= c1.len(),
        c1.take(c0.len() as int + 1) == c0.push(OpCode::Dup),
        emits_expr(arms[i].pattern->Literal_0, c1.skip(c0.len() as int + 1)),
        skip == c1.len() + 1,
        skip + 1 < c2.len(),
        c2.take(skip + 2) == c1.push(OpCode::Equal).push(OpCode::JumpIfFalse(0)).push(OpCode::Pop),
        emits_block(arms[i].body@, skip + 2, c2.skip(skip + 2)),
        je == c2.len(),
        je + 1 <= usize::MAX,
        c4 == c2.push(OpCode::Jump(0)).update(skip, OpCode::JumpIfFalse((je + 1) as usize)),
    ensures
        emits_arms(arms.take(i + 1), base0, end as int, patched(c4, ej0.push(je as usize), end).skip(base0)),
{
    let p4 = patched(c4, ej0.push(je as usize), end);
    let code = p4.skip(base0);
    let a1 = arms.take(i + 1);
    assert(a1.drop_last() =~= arms.take(i));
    assert(a1.last() == arms[i]);
    let l = arms_code_len(arms.take(i)) as int;
    assert(l == c0.len() - base0);
    let n0 = c0.len() as int;
    assert(c4.subrange(base0, n0) =~= c0.subrange(base0, n0)) by {
        assert forall|m: int| base0 <= m < n0 implies c4[m] == c0[m] by {
            assert(c1.take(n0 + 1)[m] == c1[m]);
            assert(c2.take(skip + 2)[m] == c2[m]);
        }
    }
    lemma_patched_push(c0, c4, ej0, je as usize, end, base0, n0);
    assert(code.take(l) =~= p4.subrange(base0, n0));
    assert(patched(c0, ej0, end).skip(base0) =~= patched(c0, ej0, end).subrange(base0, n0));
    let q = ej0.push(je as usize);
    assert forall|k: int| 0 <= k < q.len() implies !(n0 <= #[trigger] q[k] < je) by {
        if k < ej0.len() {
            assert(q[k] == ej0[k]);
        }
    }
    lemma_patched_outside(c4, q, end, n0, je);
    let c = code.skip(l);
    let e = arms[i].pattern->Literal_0;
    let n1 = expr_code_len(e) as int;
    assert(c1.skip(n0 + 1).len() == n1);
    assert forall|m: int| n0 <= m < je implies #[trigger] p4[m] == c4[m] by {
        assert(p4.subrange(n0, je)[m - n0] == c4.subrange(n0, je)[m - n0]);
    }
    assert(c[0] == c4[n0]);
    assert(c4[n0] == c2[n0]);
    assert(c2[n0] == c2.take(skip + 2)[n0]);
    assert(c2.take(skip + 2)[n0] == c1[n0]);
    assert(c1[n0] == c1.take(n0 + 1)[n0]);
    assert(c0.push(OpCode::Dup)[n0] == OpCode::Dup);
    assert(c.subrange(1, 1 + n1) =~= c1.skip(n0 + 1)) by {
        assert forall|m: int| 0 <= m < n1 implies #[trigger] c.subrange(1, 1 + n1)[m] == c1.skip(n0 + 1)[m] by {
            assert(c2.take(skip + 2)[n0 + 1 + m] == c2[n0 + 1 + m]);
        }
    }
    assert(c[1 + n1] == c2.take(skip + 2)[skip - 1]);
    assert(c[3 + n1] == c2.take(skip + 2)[skip + 1]);
    assert(c[2 + n1] == c4[skip]);
    assert(listed(q, je)) by {
        assert(q[ej0.len() as int] == je);
    }
    assert(c.last() == p4[je]);
    let t = block_code_len(arms[i].body@) as int;
    assert(c2.skip(skip + 2).len() == t);
    assert(c.subrange(4 + n1, 4 + n1 + t) =~= c2.skip(skip + 2));
    assert(code.take(l) == patched(c0, ej0, end).skip(base0));
    assert(emits_arms(a1.drop_last(), base0, end as int, code.take(l)));
    assert(c[0] == OpCode::Dup);
    assert(emits_expr(e, c.subrange(1, 1 + n1)));
    assert(c[1 + n1] == OpCode::Equal);
    assert(c[2 + n1] == OpCode::JumpIfFalse((base0 + code.len()) as usize));
    assert(c[3 + n1] == OpCode::Pop);
    assert(emits_block(arms[i].body@, base0 + l + 4 + n1, c.subrange(4 + n1, 4 + n1 + t)));
    assert(c.last() == OpCode::Jump(end));
    assert(code.len() == arms_code_len(a1));
    assert(emits_arms(a1, base0, end as int, code));
}

/// The code of one more `default` or variant arm: for `default`, the drop
/// at `c0.len()`; then its body.
proof fn lemma_plain_arm_step(
    arms: Seq<MatchArm>,
    i: int,
    base0: int,
    end: usize,
    c0: Seq<OpCode>,
    c2: Seq<OpCode>,
    ej0: Seq<usize>,
)
    requires
        0 <= i < arms.len(),
        !(arms[i].pattern is Literal),
        0 <= base0 <= c0.len(),
        emits_arms(arms.take(i), base0, end as int, patched(c0, ej0, end).skip(base0)),
        forall|k: int| 0 <= k < ej0.len() ==> #[trigger] ej0[k] < c0.len(),
        arms[i].pattern is Default ==> {
            &&& c0.len() < c2.len()
            &&& c2.take(c0.len() as int + 1) == c0.push(OpCode::Pop)
            &&& emits_block(arms[i].body@, c0.len() as int + 1, c2.skip(c0.len() as int + 1))
        },
        arms[i].pattern is Variant ==> {
            &&& c0.len() <= c2.len()
            &&& c2.take(c0.len() as int) == c0
            &&& emits_block(arms[i].body@, c0.len() as int, c2.skip(c0.len() as int))
        },
    ensures
        emits_arms(arms.take(i + 1), base0, end as int, patched(c2, ej0, end).skip(base0)),
{
    let p2 = patched(c2, ej0, end);
    let code = p2.skip(base0);
    let a1 = arms.take(i + 1);
    assert(a1.drop_last() =~= arms.take(i));
    assert(a1.last() == arms[i]);
    let l = arms_code_len(arms.take(i)) as int;
    assert(l == c0.len() - base0);
    let n0 = c0.len() as int;
    assert(c2.subrange(base0, n0) =~= c0.subrange(base0, n0)) by {
        assert forall|m: int| base0 <= m < n0 implies c2[m] == c0[m] by {
            if arms[i].pattern is Default {
                assert(c2.take(n0 + 1)[m] == c2[m]);
            } else {
                assert(c2.take(n0)[m] == c2[m]);
            }
        }
    }
    lemma_patched_same(c0, c2, ej0, end, base0, n0);
    assert(code.take(l) =~= p2.subrange(base0, n0));
    assert(patched(c0, ej0, end).skip(base0) =~= patched(c0, ej0, end).subrange(base0, n0));
    lemma_patched_outside(c2, ej0, end, n0, c2.len() as int);
    let c = code.skip(l);
    assert(c =~= p2.subrange(n0, c2.len() as int));
    if arms[i].pattern is Default {
        assert(c[0] == c2[n0]);
        assert(c2.take(n0 + 1)[n0] == c2[n0]);
        assert(c.skip(1) =~= c2.skip(n0 + 1));
    } else {
        assert(c =~= c2.skip(n0));
    }
    assert(emits_arms(a1, base0, end as int, code));
}

/// The code of an `if`: its condition, the jump over the `then` block at
/// `jif`, the `then` block, the jump to the end at `jend` (the first of the
/// jumps `ej` sent to the end), the `else if` branches and the `else` block;
/// all jumps to the end are then set.
#[verifier::rlimit(50)]
proof fn lemma_if_code(
    s: Stmt,
    n0: int,
    c1: Seq<OpCode>,
    c2: Seq<OpCode>,
    c3: Seq<OpCode>,
    c5: Seq<OpCode>,
    c6: Seq<OpCode>,
    ej: Seq<usize>,
    jif: int,
    jend: int,
)
    requires
        s is If,
        0 <= n0 <= c1.len(),
        emits_expr(s->If_condition, c1.skip(n0)),
        jif == c1.len(),
        jif < c2.len(),
        c2.take(jif) == c1,
        emits_block(s->If_then_block@, jif + 1, c2.skip(jif + 1)),
        jend == c2.len(),
        c3 == c2.push(OpCode::Jump(0)).update(jif, OpCode::JumpIfFalse((jend + 1) as usize)),
        c3.len() <= c5.len(),
        c5.take(c3.len() as int) == c3,
        ej.len() >= 1,
        ej[0] == jend,
        forall|k: int| 1 <= k < ej.len() ==> c3.len() <= #[trigger] ej[k] < c5.len(),
        emits_elifs(s->If_else_if_blocks@, c3.len() as int, c6.len() as int, patched(c5, ej, c6.len() as usize).skip(c3.len() as int)),
        c5.len() <= c6.len(),
        c6.take(c5.len() as int) == c5,
        match s->If_else_block {
            Some(b) => emits_block(b@, c5.len() as int, c6.skip(c5.len() as int)),
            None => c6.len() == c5.len(),
        },
        c6.len() <= usize::MAX,
    ensures
        emits_stmt(s, n0, patched(c6, ej, c6.len() as usize).skip(n0)),
{
    let end = c6.len() as usize;
    let f = patched(c6, ej, end);
    let code = f.skip(n0);
    let n3 = c3.len() as int;
    let n5 = c5.len() as int;
    // Where the pending jumps are.
    assert forall|k: int| 0 <= k < ej.len() implies !(n0 <= #[trigger] ej[k] < jend) by {}
    assert forall|k: int| 0 <= k < ej.len() implies !(jend + 1 <= #[trigger] ej[k] < n3) by {}
    assert forall|k: int| 0 <= k < ej.len() implies !(n5 <= #[trigger] ej[k] < c6.len()) by {}
    lemma_patched_outside(c6, ej, end, n0, jend);
    lemma_patched_outside(c6, ej, end, n5, c6.len() as int);
    assert forall|m: int| 0 <= m < n3 implies #[trigger] c6[m] == c3[m] by {
        assert(c6.take(n5)[m] == c6[m]);
        assert(c5.take(n3)[m] == c5[m]);
    }
    assert forall|m: int| 0 <= m < jif implies #[trigger] c3[m] == c1[m] by {
        assert(c2.take(jif)[m] == c2[m]);
    }
    // The condition.
    let n1 = expr_code_len(s->If_condition) as int;
    assert(c1.skip(n0).len() == n1);
    assert(code.take(n1) =~= c1.skip(n0)) by {
        assert forall|m: int| 0 <= m < n1 implies #[trigger] code.take(n1)[m] == c1.skip(n0)[m] by {
            assert(f.subrange(n0, jend)[m] == c6.subrange(n0, jend)[m]);
        }
    }
    // The jump over the `then` block.
    assert(!listed(ej, jif)) by {
        if listed(ej, jif) {
            let k = choose|k: int| 0 <= k < ej.len() && #[trigger] ej[k] == jif;
        }
    }
    assert(code[n1] == f[jif]);
    assert(f[jif] == c6[jif]);
    // The `then` block.
    let t = block_code_len(s->If_then_block@) as int;
    assert(c2.skip(jif + 1).len() == t);
    assert(code.subrange(n1 + 1, n1 + 1 + t) =~= c2.skip(jif + 1)) by {
        assert forall|m: int| 0 <= m < t implies #[trigger] code.subrange(n1 + 1, n1 + 1 + t)[m] == c2.skip(jif + 1)[m] by {
            assert(f.subrange(n0, jend)[jif + 1 + m - n0] == c6.subrange(n0, jend)[jif + 1 + m - n0]);
            assert(c6[jif + 1 + m] == c3[jif + 1 + m]);
        }
    }
    // The jump to the end.
    assert(listed(ej, jend)) by {
        assert(ej[0] == jend);
    }
    assert(code[n1 + 1 + t] == f[jend]);
    assert(c6[jend] == c3[jend]);
    // The `else if` branches.
    let e = elifs_code_len(s->If_else_if_blocks@) as int;
    let a = n1 + 1 + t + 1;
    assert(patched(c5, ej, end).skip(n3).len() == e);
    assert(c5.subrange(n3, n5) =~= c6.subrange(n3, n5)) by {
        assert forall|m: int| n3 <= m < n5 implies c5[m] == c6[m] by {
            assert(c6.take(n5)[m] == c6[m]);
        }
    }
    lemma_patched_same(c5, c6, ej, end, n3, n5);
    assert(code.subrange(a, a + e) =~= patched(c5, ej, end).skip(n3)) by {
        assert forall|m: int| 0 <= m < e implies #[trigger] code.subrange(a, a + e)[m] == patched(c5, ej, end).skip(n3)[m] by {
            assert(f.subrange(n3, n5)[m] == patched(c5, ej, end).subrange(n3, n5)[m]);
        }
    }
    // The `else` block.
    match s->If_else_block {
        Some(b) => {
            assert(code.skip(a + e) =~= c6.skip(n5)) by {
                assert forall|m: int| 0 <= m < c6.len() - n5 implies #[trigger] code.skip(a + e)[m] == c6.skip(n5)[m] by {
                    assert(f.subrange(n5, c6.len() as int)[m] == c6.subrange(n5, c6.len() as int)[m]);
                }
            }
        },
        None => {},
    }
    assert(code.len() == stmt_code_len(s));
}

/// The code of a `while`: its condition, the exit jump at `jif`, the body,
/// and the jump back to the condition.
proof fn lemma_while_code(s: Stmt, n0: int, c1: Seq<OpCode>, c2: Seq<OpCode>, c4: Seq<OpCode>, jif: int)
    requires
        s is While,
        0 <= n0 <= c1.len(),
        emits_expr(s->While_condition, c1.skip(n0)),
        jif == c1.len(),
        jif < c2.len(),
        c2.take(jif) == c1,
        emits_block(s->While_body@, jif + 1, c2.skip(jif + 1)),
        c2.len() + 1 <= usize::MAX,
        c4 == c2.push(OpCode::Jump(n0 as usize)).update(jif, OpCode::JumpIfFalse((c2.len() + 1) as usize)),
    ensures
        emits_stmt(s, n0, c4.skip(n0)),
{
    let code = c4.skip(n0);
    let n1 = expr_code_len(s->While_condition) as int;
    assert(c1.skip(n0).len() == n1);
    assert(code.take(n1) =~= c1.skip(n0)) by {
        assert forall|m: int| 0 <= m < n1 implies #[trigger] code.take(n1)[m] == c1.skip(n0)[m] by {
            assert(c2.take(jif)[n0 + m] == c2[n0 + m]);
        }
    }
    let t = block_code_len(s->While_body@) as int;
    assert(c2.skip(jif + 1).len() == t);
    assert(code.subrange(n1 + 1, n1 + 1 + t) =~= c2.skip(jif + 1));
    assert(code.len() == stmt_code_len(s));
}

/// The code of a `guard`: its condition, the jump over the `else` block at
/// `jit`, and the `else` block.
proof fn lemma_guard_code(s: Stmt, n0: int, c1: Seq<OpCode>, c2: Seq<OpCode>, c3: Seq<OpCode>, jit: int)
    requires
        s is Guard,
        0 <= n0 <= c1.len(),
        emits_expr(s->Guard_condition, c1.skip(n0)),
        jit == c1.len(),
        jit < c2.len(),
        c2.take(jit) == c1,
        emits_block(s->Guard_else_block@, jit + 1, c2.skip(jit + 1)),
        c2.len() <= usize::MAX,
        c3 == c2.update(jit, OpCode::JumpIfTrue(c2.len() as usize)),
    ensures
        emits_stmt(s, n0, c3.skip(n0)),
{
    let code = c3.skip(n0);
    let n1 = expr_code_len(s->Guard_condition) as int;
    assert(c1.skip(n0).len() == n1);
    assert(code.take(n1) =~= c1.skip(n0)) by {
        assert forall|m: int| 0 <= m < n1 implies #[trigger] code.take(n1)[m] == c1.skip(n0)[m] by {
            assert(c2.take(jit)[n0 + m] == c2[n0 + m]);
        }
    }
    assert(code.skip(n1 + 1) =~= c2.skip(jit + 1));
    assert(code.len() == stmt_code_len(s));
}

/// The code of a `match`: the value, then the arms, with all jumps to the
/// end set.
proof fn lemma_match_code(s: Stmt, n0: int, c1: Seq<OpCode>, c6: Seq<OpCode>, ej: Seq<usize>)
    requires
        s is Match,
        0 <= n0 <= c1.len(),
        emits_expr(s->Match_value, c1.skip(n0)),
        c1.len() <= c6.len(),
        c6.take(c1.len() as int) == c1,
        forall|k: int| 0 <= k < ej.len() ==> c1.len() <= #[trigger] ej[k],
        emits_arms(s->Match_arms@, c1.len() as int, c6.len() as int, patched(c6, ej, c6.len() as usize).skip(c1.len() as int)),
        c6.len() <= usize::MAX,
    ensures
        emits_stmt(s, n0, patched(c6, ej, c6.len() as usize).skip(n0)),
{
    let end = c6.len() as usize;
    let f = patched(c6, ej, end);
    let code = f.skip(n0);
    let n1 = expr_code_len(s->Match_value) as int;
    let n = c1.len() as int;
    assert(c1.skip(n0).len() == n1);
    assert forall|k: int| 0 <= k < ej.len() implies !(n0 <= #[trigger] ej[k] < n) by {}
    lemma_patched_outside(c6, ej, end, n0, n);
    assert(code.take(n1) =~= c1.skip(n0)) by {
        assert forall|m: int| 0 <= m < n1 implies #[trigger] code.take(n1)[m] == c1.skip(n0)[m] by {
            assert(f.subrange(n0, n)[m] == c6.subrange(n0, n)[m]);
            assert(c6.take(n)[n0 + m] == c6[n0 + m]);
        }
    }
    assert(code.skip(n1) =~= f.skip(n));
    assert(code.len() == stmt_code_len(s));
}

/// Appending `extra` to code that `before` is a prefix of keeps it a prefix
/// and puts `extra` at the end.
proof fn lemma_lines_step(before: Seq<usize>, mid: Seq<usize>, after: Seq<usize>)
    requires
        before.len() <= mid.len() <= after.len(),
        mid.take(before.len() as int) == before,
        after.take(mid.len() as int) == mid,
    ensures
        after.take(before.len() as int) == before,
        after.skip(before.len() as int).take(mid.len() - before.len()) == mid.skip(before.len() as int),
        after.skip(before.len() as int).skip(mid.len() - before.len()) == after.skip(mid.len() as int),
{
    assert(after.take(before.len() as int) =~= mid.take(before.len() as int));
    assert(after.skip(before.len() as int).take(mid.len() - before.len()) =~= mid.skip(before.len() as int));
    assert(after.skip(before.len() as int).skip(mid.len() - before.len()) =~= after.skip(mid.len() as int));
}

proof fn lemma_code_step(before: Seq<OpCode>, mid: Seq<OpCode>, after: Seq<OpCode>)
    requires
        before.len() <= mid.len() <= after.len(),
        mid.take(before.len() as int) == before,
        after.take(mid.len() as int) == mid,
    ensures
        after.take(before.len() as int) == before,
        after.skip(before.len() as int).take(mid.len() - before.len()) == mid.skip(before.len() as int),
        after.skip(before.len() as int).skip(mid.len() - before.len()) == after.skip(mid.len() as int),
{
    assert(after.take(before.len() as int) =~= mid.take(before.len() as int));
    assert(after.skip(before.len() as int).take(mid.len() - before.len()) =~= mid.skip(before.len() as int));
    assert(after.skip(before.len() as int).skip(mid.len() - before.len()) =~= after.skip(mid.len() as int));
}

/// Compiles programs to chunks of instructions.
pub struct Compiler {
    program: CompiledProgram,
}

impl Compiler {
    /// Is `name` a function the machine provides itself?
    fn is_builtin_fn(&self, name: &str) -> (b: bool)
        ensures
            b == builtin_fn(name@),
    {
        str_eq(name, "StreamWriter::acquire") || str_eq(name, "StreamWriter::emit") || str_eq(
            name,
            "StreamWriter::release",
        ) || str_eq(name, "String::from") || str_eq(name, "String::format") || str_eq(name, "Vector::new")
            || str_eq(name, "Vector::with_capacity") || str_eq(name, "ExitCode::Success") || str_eq(
            name,
            "ExitCode::Failure",
        ) || str_eq(name, "panic!") || str_eq(name, "assert") || str_eq(name, "Checked::add")
    }

    /// Appends the code of an expression: its operands' code, left to
    /// right, then the operation.
    #[verifier::spinoff_prover]
    #[verifier::rlimit(100)]
    fn compile_expr(&self, expr: &Expr, chunk: &mut Chunk)
        requires
            old(chunk).wf(),
        ensures
            extends_code(*old(chunk), *final(chunk)),
            emits_expr(*expr, final(chunk).code@.skip(old(chunk).code@.len() as int)),
            no_jumps(final(chunk).code@.skip(old(chunk).code@.len() as int)),
            final(chunk).lines@.take(old(chunk).lines@.len() as int) == old(chunk).lines@,
            lines_expr(*expr, final(chunk).lines@.skip(old(chunk).lines@.len() as int)),
        decreases expr, 0nat,
    {
        let ghost c0 = chunk.code@;
        let ghost n0 = c0.len();
        let ghost d0 = chunk.lines@;
        match expr {
            Expr::IntLiteral { value, suffix, span } => {
                let c = int_constant_of(*value, suffix);
                chunk.emit(OpCode::PushConst(c), span.line);
            },
            Expr::FloatLiteral { literal, suffix, span } => {
                let c = float_constant_of(literal, suffix);
                chunk.emit(OpCode::PushConst(c), span.line);
            },
            Expr::StringLiteral { value, span } => {
                chunk.emit(OpCode::PushConst(Constant::StringVal(value.clone())), span.line);
            },
            Expr::CharLiteral { value, span } => {
                chunk.emit(OpCode::PushConst(Constant::Char(*value)), span.line);
            },
            Expr::BoolLiteral { value, span } => {
                chunk.emit(OpCode::PushConst(Constant::Bool(*value)), span.line);
            },
            Expr::Identifier { name, span } => {
                chunk.emit(OpCode::Load(name.clone()), span.line);
            },
            Expr::SelfValue { span } => {
                chunk.emit(OpCode::Load(owned("self")), span.line);
            },
            Expr::PathExpr { segments, span } => {
                chunk.emit(OpCode::PushConst(Constant::Path(copy_strings(segments))), span.line);
            },
            Expr::Binary { left, op, right, span } => {
                self.compile_expr(left, chunk);
                let ghost c1 = chunk.code@;
                let ghost d1 = chunk.lines@;
                self.compile_expr(right, chunk);
                let ghost c2 = chunk.code@;
                let ghost d2 = chunk.lines@;
                chunk.emit(binop_instruction(*op), span.line);
                proof {
                    let c3 = chunk.code@;
                    lemma_code_step(c0, c1, c2);
                    assert(c3.take(c2.len() as int) =~= c2);
                    lemma_code_step(c0, c2, c3);
                    let s = c3.skip(n0 as int);
                    assert(s.take(expr_code_len(**left) as int) =~= c1.skip(n0 as int));
                    assert(s.subrange(expr_code_len(**left) as int, s.len() - 1) =~= c2.skip(c1.len() as int));
                    let d3 = chunk.lines@;
                    assert(d3.take(d2.len() as int) =~= d2);
                    lemma_lines_step(d0, d1, d2);
                    lemma_lines_step(d0, d2, d3);
                    let ls = d3.skip(n0 as int);
                    assert(ls.take(expr_code_len(**left) as int) =~= d1.skip(n0 as int));
                    assert(ls.subrange(expr_code_len(**left) as int, ls.len() - 1) =~= d2.skip(d1.len() as int));
                    assert forall|i: int| 0 <= i < s.len() implies jump_target(#[trigger] s[i]) is None by {
                        if i < c1.len() - n0 {
                            assert(s[i] == c1.skip(n0 as int)[i]);
                        } else if i < c2.len() - n0 {
                            assert(s[i] == c2.skip(c1.len() as int)[i - (c1.len() - n0)]);
                        }
                    }
                }
            },
            Expr::Unary { op, operand, span } => {
                self.compile_expr(operand, chunk);
                let ghost c1 = chunk.code@;
                let ghost d1 = chunk.lines@;
                match op {
                    UnaryOp::Negate => {
                        chunk.emit(OpCode::Negate, span.line);
                    },
                    UnaryOp::Not => {
                        chunk.emit(OpCode::Not, span.line);
                    },
                    _ => {},
                }
                proof {
                    let c2 = chunk.code@;
                    assert(c2.take(c1.len() as int) =~= c1);
                    lemma_code_step(c0, c1, c2);
                    let s = c2.skip(n0 as int);
                    assert(s.take(expr_code_len(**operand) as int) =~= c1.skip(n0 as int));
                    let d2 = chunk.lines@;
                    assert(d2.take(d1.len() as int) =~= d1);
                    lemma_lines_step(d0, d1, d2);
                    let ls = d2.skip(n0 as int);
                    assert(ls.take(expr_code_len(**operand) as int) =~= d1.skip(n0 as int));
                    assert forall|i: int| 0 <= i < s.len() implies jump_target(#[trigger] s[i]) is None by {
                        if i < c1.len() - n0 {
                            assert(s[i] == c1.skip(n0 as int)[i]);
                        }
                    }
                }
            },
            Expr::MethodCall { object, method, args, span } => {
                self.compile_expr(object, chunk);
                let ghost c1 = chunk.code@;
                let ghost d1 = chunk.lines@;
                self.compile_args(args, chunk);
                let ghost c2 = chunk.code@;
                let ghost d2 = chunk.lines@;
                chunk.emit(OpCode::CallMethod(method.clone(), args.len()), span.line);
                proof {
                    let c3 = chunk.code@;
                    lemma_code_step(c0, c1, c2);
                    assert(c3.take(c2.len() as int) =~= c2);
                    lemma_code_step(c0, c2, c3);
                    let s = c3.skip(n0 as int);
                    assert(s.take(expr_code_len(**object) as int) =~= c1.skip(n0 as int));
                    assert(s.subrange(expr_code_len(**object) as int, s.len() - 1) =~= c2.skip(c1.len() as int));
                    let d3 = chunk.lines@;
                    assert(d3.take(d2.len() as int) =~= d2);
                    lemma_lines_step(d0, d1, d2);
                    lemma_lines_step(d0, d2, d3);
                    let ls = d3.skip(n0 as int);
                    assert(ls.take(expr_code_len(**object) as int) =~= d1.skip(n0 as int));
                    assert(ls.subrange(expr_code_len(**object) as int, ls.len() - 1) =~= d2.skip(d1.len() as int));
                    assert forall|i: int| 0 <= i < s.len() implies jump_target(#[trigger] s[i]) is None by {
                        if i < c1.len() - n0 {
                            assert(s[i] == c1.skip(n0 as int)[i]);
                        } else if i < c2.len() - n0 {
                            assert(s[i] == c2.skip(c1.len() as int)[i - (c1.len() - n0)]);
                        }
                    }
                }
            },
            Expr::FnCall { callee, args, span } => {
                let fn_name = match &**callee {
                    Expr::Identifier { name, .. } => name.clone(),
                    Expr::PathExpr { segments, .. } => crate::analyzer::join_path(segments),
                    _ => owned("unknown"),
                };
                self.compile_args(args, chunk);
                let ghost c1 = chunk.code@;
                let ghost d1 = chunk.lines@;
                if self.is_builtin_fn(fn_name.as_str()) {
                    chunk.emit(OpCode::CallBuiltin(fn_name, args.len()), span.line);
                } else {
                    chunk.emit(OpCode::Call(fn_name, args.len()), span.line);
                }
                proof {
                    let c2 = chunk.code@;
                    assert(c2.take(c1.len() as int) =~= c1);
                    lemma_code_step(c0, c1, c2);
                    let s = c2.skip(n0 as int);
                    assert(s.drop_last() =~= c1.skip(n0 as int));
                    let d2 = chunk.lines@;
                    assert(d2.take(d1.len() as int) =~= d1);
                    lemma_lines_step(d0, d1, d2);
                    assert(d2.skip(n0 as int).drop_last() =~= d1.skip(n0 as int));
                    assert forall|i: int| 0 <= i < s.len() implies jump_target(#[trigger] s[i]) is None by {
                        if i < c1.len() - n0 {
                            assert(s[i] == c1.skip(n0 as int)[i]);
                        }
                    }
                }
            },
            Expr::FieldAccess { object, field, span } => {
                self.compile_expr(object, chunk);
                let ghost c1 = chunk.code@;
                let ghost d1 = chunk.lines@;
                chunk.emit(OpCode::GetField(field.clone()), span.line);
                proof {
                    let c2 = chunk.code@;
                    assert(c2.take(c1.len() as int) =~= c1);
                    lemma_code_step(c0, c1, c2);
                    let s = c2.skip(n0 as int);
                    assert(s.drop_last() =~= c1.skip(n0 as int));
                    let d2 = chunk.lines@;
                    assert(d2.take(d1.len() as int) =~= d1);
                    lemma_lines_step(d0, d1, d2);
                    assert(d2.skip(n0 as int).drop_last() =~= d1.skip(n0 as int));
                    assert forall|i: int| 0 <= i < s.len() implies jump_target(#[trigger] s[i]) is None by {
                        if i < c1.len() - n0 {
                            assert(s[i] == c1.skip(n0 as int)[i]);
                        }
                    }
                }
            },
            Expr::Grouped { inner, .. } => {
                self.compile_expr(inner, chunk);
            },
            Expr::WithErrorHandler { expr: inner, .. } => {
                self.compile_expr(inner, chunk);
            },
            Expr::StructInit { type_path, fields, span } => {
                self.compile_field_values(fields, chunk);
                let ghost c1 = chunk.code@;
                let ghost d1 = chunk.lines@;
                let name = crate::analyzer::join_path(type_path);
                chunk.emit(OpCode::MakeStruct(name, fields.len()), span.line);
                proof {
                    let c2 = chunk.code@;
                    assert(c2.take(c1.len() as int) =~= c1);
                    lemma_code_step(c0, c1, c2);
                    let s = c2.skip(n0 as int);
                    assert(s.drop_last() =~= c1.skip(n0 as int));
                    let d2 = chunk.lines@;
                    assert(d2.take(d1.len() as int) =~= d1);
                    lemma_lines_step(d0, d1, d2);
                    assert(d2.skip(n0 as int).drop_last() =~= d1.skip(n0 as int));
                    assert forall|i: int| 0 <= i < s.len() implies jump_target(#[trigger] s[i]) is None by {
                        if i < c1.len() - n0 {
                            assert(s[i] == c1.skip(n0 as int)[i]);
                        }
                    }
                }
            },
        }
        proof {
            assert(chunk.code@.take(n0 as int) =~= c0);
            assert(chunk.lines@.take(n0 as int) =~= d0);
        }
    }

    /// Appends the code of each argument's value, in order.
    fn compile_args(&self, args: &Vec<NamedArg>, chunk: &mut Chunk)
        requires
            old(chunk).wf(),
        ensures
            extends_code(*old(chunk), *final(chunk)),
            emits_args(args@, final(chunk).code@.skip(old(chunk).code@.len() as int)),
            no_jumps(final(chunk).code@.skip(old(chunk).code@.len() as int)),
            final(chunk).lines@.take(old(chunk).lines@.len() as int) == old(chunk).lines@,
            lines_args(args@, final(chunk).lines@.skip(old(chunk).lines@.len() as int)),
        decreases args, 0nat,
    {
        let ghost c0 = chunk.code@;
        let ghost n0 = c0.len();
        let ghost d0 = chunk.lines@;
        let mut i: usize = 0;
        proof {
            assert(chunk.code@.take(n0 as int) =~= c0);
            assert(chunk.lines@.take(n0 as int) =~= d0);
            assert(args@.take(0) =~= Seq::<NamedArg>::empty());
        }
        while i < args.len()
            invariant
                i <= args.len(),
                chunk.wf(),
                chunk.name == old(chunk).name,
                chunk.params == old(chunk).params,
                n0 == old(chunk).code@.len(),
                c0 == old(chunk).code@,
                n0 <= chunk.code@.len(),
                chunk.code@.take(n0 as int) == c0,
                d0 == old(chunk).lines@,
                chunk.lines@.take(n0 as int) == d0,
                lines_args(args@.take(i as int), chunk.lines@.skip(n0 as int)),
                emits_args(args@.take(i as int), chunk.code@.skip(n0 as int)),
                no_jumps(chunk.code@.skip(n0 as int)),
            decreases args.len() - i,
        {
            proof {
                assert(decreases_to!(args => args[i as int]));
                assert(decreases_to!(args[i as int] => args[i as int].value));
            }
            let ghost c1 = chunk.code@;
            let ghost d1 = chunk.lines@;
            self.compile_expr(&args[i].value, chunk);
            proof {
                let c2 = chunk.code@;
                lemma_code_step(c0, c1, c2);
                let pre = args@.take(i as int);
                let now = args@.take(i + 1);
                assert(now.drop_last() =~= pre);
                assert(now.last() == args@[i as int]);
                let s = c2.skip(n0 as int);
                let d2 = chunk.lines@;
                lemma_lines_step(d0, d1, d2);
                let ls = d2.skip(n0 as int);
                assert(ls.take(d1.len() - n0) =~= d1.skip(n0 as int));
                assert(ls.skip(d1.len() - n0) =~= d2.skip(d1.len() as int));
                assert(s.take(c1.len() - n0) =~= c1.skip(n0 as int));
                assert(s.skip(c1.len() - n0) =~= c2.skip(c1.len() as int));
                assert forall|k: int| 0 <= k < s.len() implies jump_target(#[trigger] s[k]) is None by {
                    if k < c1.len() - n0 {
                        assert(s[k] == c1.skip(n0 as int)[k]);
                    } else {
                        assert(s[k] == c2.skip(c1.len() as int)[k - (c1.len() - n0)]);
                    }
                }
            }
            i += 1;
        }
        proof {
            assert(args@.take(i as int) =~= args@);
        }
    }

    /// Appends the code of each field value, in order.
    fn compile_field_values(&self, fields: &Vec<(String, Expr)>, chunk: &mut Chunk)
        requires
            old(chunk).wf(),
        ensures
            extends_code(*old(chunk), *final(chunk)),
            emits_fields(fields@, final(chunk).code@.skip(old(chunk).code@.len() as int)),
            no_jumps(final(chunk).code@.skip(old(chunk).code@.len() as int)),
            final(chunk).lines@.take(old(chunk).lines@.len() as int) == old(chunk).lines@,
            lines_fields(fields@, final(chunk).lines@.skip(old(chunk).lines@.len() as int)),
        decreases fields, 0nat,
    {
        let ghost c0 = chunk.code@;
        let ghost n0 = c0.len();
        let ghost d0 = chunk.lines@;
        let mut i: usize = 0;
        proof {
            assert(chunk.code@.take(n0 as int) =~= c0);
            assert(chunk.lines@.take(n0 as int) =~= d0);
            assert(fields@.take(0) =~= Seq::<(String, Expr)>::empty());
        }
        while i < fields.len()
            invariant
                i <= fields.len(),
                chunk.wf(),
                chunk.name == old(chunk).name,
                chunk.params == old(chunk).params,
                n0 == old(chunk).code@.len(),
                c0 == old(chunk).code@,
                n0 <= chunk.code@.len(),
                chunk.code@.take(n0 as int) == c0,
                d0 == old(chunk).lines@,
                chunk.lines@.take(n0 as int) == d0,
                lines_fields(fields@.take(i as int), chunk.lines@.skip(n0 as int)),
                emits_fields(fields@.take(i as int), chunk.code@.skip(n0 as int)),
                no_jumps(chunk.code@.skip(n0 as int)),
            decreases fields.len() - i,
        {
            proof {
                assert(decreases_to!(fields => fields[i as int]));
                assert(decreases_to!(fields[i as int] => fields[i as int].1));
            }
            let ghost c1 = chunk.code@;
            let ghost d1 = chunk.lines@;
            self.compile_expr(&fields[i].1, chunk);
            proof {
                let c2 = chunk.code@;
                lemma_code_step(c0, c1, c2);
                let pre = fields@.take(i as int);
                let now = fields@.take(i + 1);
                assert(now.drop_last() =~= pre);
                assert(now.last() == fields@[i as int]);
                let s = c2.skip(n0 as int);
                let d2 = chunk.lines@;
                lemma_lines_step(d0, d1, d2);
                let ls = d2.skip(n0 as int);
                assert(ls.take(d1.len() - n0) =~= d1.skip(n0 as int));
                assert(ls.skip(d1.len() - n0) =~= d2.skip(d1.len() as int));
                assert(s.take(c1.len() - n0) =~= c1.skip(n0 as int));
                assert(s.skip(c1.len() - n0) =~= c2.skip(c1.len() as int));
                assert forall|k: int| 0 <= k < s.len() implies jump_target(#[trigger] s[k]) is None by {
                    if k < c1.len() - n0 {
                        assert(s[k] == c1.skip(n0 as int)[k]);
                    } else {
                        assert(s[k] == c2.skip(c1.len() as int)[k - (c1.len() - n0)]);
                    }
                }
            }
            i += 1;
        }
        proof {
            assert(fields@.take(i as int) =~= fields@);
        }
    }
}

impl Compiler {
    /// Appends the code of each statement of a block, in order.
    fn compile_block(&self, block: &Vec<Stmt>, chunk: &mut Chunk)
        requires
            old(chunk).wf(),
        ensures
            extends_code(*old(chunk), *final(chunk)),
            jumps_within(final(chunk).code@, old(chunk).code@.len() as int, final(chunk).code@.len() as int),
            emits_block(block@, old(chunk).code@.len() as int, final(chunk).code@.skip(old(chunk).code@.len() as int)),
        decreases block, 1nat,
    {
        let ghost c0 = chunk.code@;
        proof {
            assert(chunk.code@.take(c0.len() as int) =~= c0);
            assert(block@.take(0) =~= Seq::<Stmt>::empty());
            assert(chunk.code@.skip(c0.len() as int) =~= Seq::<OpCode>::empty());
        }
        let mut i: usize = 0;
        while i < block.len()
            invariant
                i <= block.len(),
                c0 == old(chunk).code@,
                extends_code(*old(chunk), *chunk),
                jumps_within(chunk.code@, c0.len() as int, chunk.code@.len() as int),
                emits_block(block@.take(i as int), c0.len() as int, chunk.code@.skip(c0.len() as int)),
            decreases block.len() - i,
        {
            proof {
                assert(decreases_to!(block => block[i as int]));
            }
            let ghost c1 = chunk.code@;
            self.compile_statement(&block[i], chunk);
            proof {
                let c2 = chunk.code@;
                lemma_code_step(c0, c1, c2);
                lemma_jumps_within_grow(c1, c2, c0.len() as int, c1.len() as int, c2.len() as int);
                let b1 = block@.take(i + 1);
                assert(b1.drop_last() =~= block@.take(i as int));
                assert(b1.last() == block@[i as int]);
                let l = block_code_len(block@.take(i as int)) as int;
                assert(l == c1.len() - c0.len());
                assert(emits_block(b1, c0.len() as int, c2.skip(c0.len() as int)));
            }
            i += 1;
        }
        proof {
            assert(block@.take(i as int) =~= block@);
        }
    }

    /// Appends the code of a block after a pending jump; the pending jumps
    /// stay pending and all others stay in range.
    fn compile_block_pending(
        &self,
        block: &Vec<Stmt>,
        chunk: &mut Chunk,
        Ghost(lo): Ghost<int>,
        Ghost(pending): Ghost<Seq<usize>>,
    )
        requires
            old(chunk).wf(),
            0 <= lo <= old(chunk).code@.len(),
            jumps_ok_except(old(chunk).code@, lo, pending),
        ensures
            extends_code(*old(chunk), *final(chunk)),
            jumps_ok_except(final(chunk).code@, lo, pending),
            emits_block(block@, old(chunk).code@.len() as int, final(chunk).code@.skip(old(chunk).code@.len() as int)),
        decreases block, 2nat,
    {
        let ghost c0 = chunk.code@;
        self.compile_block(block, chunk);
        proof {
            lemma_pending_grow(c0, chunk.code@, lo, pending);
        }
    }

    /// Sets the target of every jump listed in `pending` to `target`.
    fn patch_all(&self, chunk: &mut Chunk, pending: &Vec<usize>, target: usize, Ghost(lo): Ghost<int>)
        requires
            old(chunk).wf(),
            0 <= lo <= target <= old(chunk).code@.len(),
            old(chunk).code@.len() <= usize::MAX,
            jumps_ok_except(old(chunk).code@, lo, pending@),
        ensures
            final(chunk).wf(),
            final(chunk).name == old(chunk).name,
            final(chunk).params == old(chunk).params,
            final(chunk).code@.len() == old(chunk).code@.len(),
            final(chunk).code@.take(lo) == old(chunk).code@.take(lo),
            jumps_within(final(chunk).code@, lo, final(chunk).code@.len() as int),
            final(chunk).code@ == patched(old(chunk).code@, pending@, target),
    {
        let mut k: usize = 0;
        proof {
            assert(chunk.code@ =~= patched(old(chunk).code@, pending@.take(0), target));
        }
        proof {
            assert(pending@.skip(0) =~= pending@);
        }
        while k < pending.len()
            invariant
                k <= pending.len(),
                chunk.wf(),
                chunk.name == old(chunk).name,
                chunk.params == old(chunk).params,
                chunk.code@.len() == old(chunk).code@.len(),
                chunk.code@.len() <= usize::MAX,
                chunk.code@.take(lo) == old(chunk).code@.take(lo),
                0 <= lo <= target <= chunk.code@.len(),
                jumps_ok_except(chunk.code@, lo, pending@.skip(k as int)),
                forall|j: int| 0 <= j < pending@.len() ==> lo <= #[trigger] pending@[j] < chunk.code@.len()
                    && jump_target(chunk.code@[pending@[j] as int]) is Some,
                chunk.code@ == patched(old(chunk).code@, pending@.take(k as int), target),
            decreases pending.len() - k,
        {
            let p = pending[k];
            let ghost c1 = chunk.code@;
            let ghost rest = pending@.skip(k + 1);
            let ghost now = pending@.skip(k as int);
            proof {
                assert(now[0] == p);
                assert forall|i: usize| #[trigger] now.contains(i) && i != p implies rest.contains(i) by {
                    let j = choose|j: int| 0 <= j < now.len() && now[j] == i;
                    assert(j != 0);
                    assert(rest[j - 1] == i);
                }
            }
            chunk.patch_jump(p, target);
            proof {
                let c2 = chunk.code@;
                assert forall|j: int| 0 <= j < rest.len() implies lo <= #[trigger] rest[j] < c1.len() && jump_target(
                    c1[rest[j] as int],
                ) is Some by {
                    assert(rest[j] == pending@[k + 1 + j]);
                }
                lemma_pending_patch(c1, lo, now, p as int, target, rest);
                assert(c2.take(lo) =~= c1.take(lo));
                assert forall|j: int| 0 <= j < pending@.len() implies lo <= #[trigger] pending@[j] < c2.len()
                    && jump_target(c2[pending@[j] as int]) is Some by {
                    if pending@[j] as int == p as int {
                        lemma_retargeted(c1[p as int], target);
                    } else {
                        assert(c2[pending@[j] as int] == c1[pending@[j] as int]);
                    }
                }
                let o = old(chunk).code@;
                let tk = pending@.take(k as int);
                let tk1 = pending@.take(k + 1);
                assert(tk1 =~= tk.push(p));
                assert forall|i: int| 0 <= i < c2.len() implies #[trigger] c2[i] == patched(o, tk1, target)[i] by {
                    if i == p as int {
                        assert(tk1[k as int] == p);
                        assert(listed(tk1, i));
                    } else {
                        assert(c2[i] == c1[i]);
                        if listed(tk, i) {
                            let j = choose|j: int| 0 <= j < tk.len() && #[trigger] tk[j] == i;
                            assert(tk1[j] == i);
                        }
                        if listed(tk1, i) {
                            let j = choose|j: int| 0 <= j < tk1.len() && #[trigger] tk1[j] == i;
                            assert(j < k);
                            assert(tk[j] == i);
                        }
                    }
                }
                assert(c2 =~= patched(o, tk1, target));
            }
            k += 1;
        }
        proof {
            assert(pending@.take(k as int) =~= pending@);
            assert(pending@.skip(k as int) =~= Seq::<usize>::empty());
            lemma_pending_none(chunk.code@, lo);
        }
    }

    /// Appends the code of the `else if` branches. Each branch tests its
    /// condition, jumps over its block when false, and ends with a jump to
    /// the end of the whole `if`, listed in `end_jumps` until it is set.
    #[verifier::spinoff_prover]
    #[verifier::rlimit(60)]
    fn compile_else_ifs(
        &self,
        bs: &Vec<(Expr, Vec<Stmt>)>,
        chunk: &mut Chunk,
        end_jumps: &mut Vec<usize>,
        Ghost(lo): Ghost<int>,
        Ghost(end): Ghost<usize>,
        span: crate::token::Span,
    )
        requires
            old(chunk).wf(),
            0 <= lo <= old(chunk).code@.len(),
            jumps_ok_except(old(chunk).code@, lo, old(end_jumps)@),
        ensures
            extends_code(*old(chunk), *final(chunk)),
            jumps_ok_except(final(chunk).code@, lo, final(end_jumps)@),
            final(end_jumps)@.len() >= old(end_jumps)@.len(),
            final(end_jumps)@.take(old(end_jumps)@.len() as int) == old(end_jumps)@,
            forall|k: int| old(end_jumps)@.len() <= k < final(end_jumps)@.len() ==> old(chunk).code@.len()
                <= #[trigger] final(end_jumps)@[k],
            emits_elifs(
                bs@,
                old(chunk).code@.len() as int,
                end as int,
                patched(final(chunk).code@, final(end_jumps)@, end).skip(old(chunk).code@.len() as int),
            ),
        decreases bs, 0nat,
    {
        let ghost base0 = chunk.code@.len() as int;
        let ghost ej0 = end_jumps@;
        let mut i: usize = 0;
        proof {
            assert(chunk.code@.take(base0) =~= old(chunk).code@);
            assert(end_jumps@.take(ej0.len() as int) =~= ej0);
            assert(bs@.take(0) =~= Seq::<(Expr, Vec<Stmt>)>::empty());
            assert(patched(chunk.code@, end_jumps@, end).skip(base0) =~= Seq::<OpCode>::empty());
        }
        while i < bs.len()
            invariant
                i <= bs.len(),
                0 <= lo <= old(chunk).code@.len(),
                base0 == old(chunk).code@.len(),
                ej0 == old(end_jumps)@,
                extends_code(*old(chunk), *chunk),
                jumps_ok_except(chunk.code@, lo, end_jumps@),
                end_jumps@.len() >= ej0.len(),
                end_jumps@.take(ej0.len() as int) == ej0,
                forall|k: int| ej0.len() <= k < end_jumps@.len() ==> base0 <= #[trigger] end_jumps@[k],
                emits_elifs(bs@.take(i as int), base0, end as int, patched(chunk.code@, end_jumps@, end).skip(base0)),
            decreases bs.len() - i,
        {
            proof {
                assert(decreases_to!(bs => bs[i as int]));
                assert(decreases_to!(bs[i as int] => bs[i as int].0));
                assert(decreases_to!(bs[i as int] => bs[i as int].1));
            }
            let ghost c0 = chunk.code@;
            let ghost ejs = end_jumps@;
            self.compile_expr(&bs[i].0, chunk);
            let ghost c1 = chunk.code@;
            proof {
                lemma_no_jumps_within(c1, c0.len() as int, c1.len() as int);
                lemma_pending_grow(c0, c1, lo, end_jumps@);
                lemma_take_prefix(c0, c1, lo);
            }
            let jif = chunk.emit(OpCode::JumpIfFalse(0), span.line);
            proof {
                lemma_pending_push(c1, chunk.code@.last(), jif, lo, end_jumps@);
                assert(chunk.code@.take(lo) =~= c1.take(lo));
            }
            let ghost with_jif = end_jumps@.push(jif);
            let ghost c1p = chunk.code@;
            self.compile_block_pending(&bs[i].1, chunk, Ghost(lo), Ghost(with_jif));
            let ghost c2 = chunk.code@;
            proof {
                lemma_take_prefix(c1p, c2, lo);
            }
            let je = chunk.emit(OpCode::Jump(0), span.line);
            proof {
                lemma_pending_push(c2, chunk.code@.last(), je, lo, with_jif);
                assert(chunk.code@.take(lo) =~= c2.take(lo));
            }
            end_jumps.push(je);
            let ghost c3 = chunk.code@;
            let ghost all = with_jif.push(je);
            proof {
                assert(all[all.len() - 2] == jif);
                assert(jump_target(c3[jif as int]) is Some);
            }
            let here = chunk.len();
            chunk.patch_jump(jif, here);
            proof {
                assert forall|x: usize| #[trigger] all.contains(x) && x != jif implies end_jumps@.contains(x) by {
                    let j = choose|j: int| 0 <= j < all.len() && all[j] == x;
                    if j < end_jumps@.len() - 1 {
                        assert(end_jumps@[j] == x);
                    } else {
                        assert(end_jumps@[end_jumps@.len() - 1] == x);
                    }
                }
                assert forall|j: int| 0 <= j < end_jumps@.len() implies lo <= #[trigger] end_jumps@[j] < c3.len()
                    && jump_target(c3[end_jumps@[j] as int]) is Some by {
                    if j < end_jumps@.len() - 1 {
                        assert(end_jumps@[j] == all[j]);
                    } else {
                        assert(end_jumps@[j] == all[all.len() - 1]);
                    }
                }
                lemma_pending_patch(c3, lo, all, jif as int, here, end_jumps@);
                assert(chunk.code@.take(lo) =~= c3.take(lo));
                let c4 = chunk.code@;
                assert(c1p[jif as int] == OpCode::JumpIfFalse(0));
                assert(c2[jif as int] == c2.take(c1p.len() as int)[jif as int]);
                assert(c3[jif as int] == OpCode::JumpIfFalse(0));
                assert(c4 == c2.push(OpCode::Jump(0)).update(jif as int, OpCode::JumpIfFalse((je + 1) as usize)));
                assert(c2.take(jif as int) =~= c1) by {
                    assert forall|m: int| 0 <= m < jif implies c2.take(jif as int)[m] == c1[m] by {
                        assert(c2[m] == c2.take(c1p.len() as int)[m]);
                    }
                }
                assert forall|k: int| 0 <= k < ejs.len() implies #[trigger] ejs[k] < c0.len() by {}
                lemma_elif_step(bs@, i as int, base0, end, c0, c1, c2, c4, ejs, jif as int, je as int);
                assert(bs@.take(i + 1) =~= bs@.take(i + 1));
                assert(chunk.code@.take(base0) =~= old(chunk).code@) by {
                    assert(c0.take(base0) == old(chunk).code@);
                    assert forall|m: int| 0 <= m < base0 implies chunk.code@.take(base0)[m] == old(chunk).code@[m] by {
                        assert(c1[m] == c1.take(c0.len() as int)[m]);
                        assert(c0[m] == c0.take(base0)[m]);
                        assert(c2[m] == c2.take(c1p.len() as int)[m]);
                    }
                }
                assert(end_jumps@.take(ej0.len() as int) =~= ej0) by {
                    assert(end_jumps@ == ejs.push(je));
                    assert forall|m: int| 0 <= m < ej0.len() implies end_jumps@.take(ej0.len() as int)[m] == ej0[m] by {
                        assert(ejs.take(ej0.len() as int)[m] == ejs[m]);
                    }
                }
                assert forall|k: int| ej0.len() <= k < end_jumps@.len() implies base0 <= #[trigger] end_jumps@[k] by {
                    if k < ejs.len() {
                        assert(end_jumps@[k] == ejs[k]);
                    }
                }
            }
            i += 1;
        }
        proof {
            assert(bs@.take(i as int) =~= bs@);
        }
    }

    /// Appends the code of the arms of a `match`. The matched value is on
    /// the stack; a `case` arm compares a copy of it with its value and jumps
    /// over its body when they differ, and ends with a jump to the end of the
    /// `match`, listed in `end_jumps` until it is set.
    #[verifier::spinoff_prover]
    #[verifier::rlimit(60)]
    fn compile_arms(
        &self,
        arms: &Vec<MatchArm>,
        chunk: &mut Chunk,
        end_jumps: &mut Vec<usize>,
        Ghost(lo): Ghost<int>,
        Ghost(end): Ghost<usize>,
        span: crate::token::Span,
    )
        requires
            old(chunk).wf(),
            0 <= lo <= old(chunk).code@.len(),
            jumps_ok_except(old(chunk).code@, lo, old(end_jumps)@),
        ensures
            extends_code(*old(chunk), *final(chunk)),
            jumps_ok_except(final(chunk).code@, lo, final(end_jumps)@),
            final(end_jumps)@.len() >= old(end_jumps)@.len(),
            final(end_jumps)@.take(old(end_jumps)@.len() as int) == old(end_jumps)@,
            forall|k: int| old(end_jumps)@.len() <= k < final(end_jumps)@.len() ==> old(chunk).code@.len()
                <= #[trigger] final(end_jumps)@[k],
            emits_arms(
                arms@,
                old(chunk).code@.len() as int,
                end as int,
                patched(final(chunk).code@, final(end_jumps)@, end).skip(old(chunk).code@.len() as int),
            ),
        decreases arms, 0nat,
    {
        let ghost base0 = chunk.code@.len() as int;
        let ghost ej0 = end_jumps@;
        let mut i: usize = 0;
        proof {
            assert(chunk.code@.take(base0) =~= old(chunk).code@);
            assert(end_jumps@.take(ej0.len() as int) =~= ej0);
            assert(arms@.take(0) =~= Seq::<MatchArm>::empty());
            assert(patched(chunk.code@, end_jumps@, end).skip(base0) =~= Seq::<OpCode>::empty());
        }
        while i < arms.len()
            invariant
                i <= arms.len(),
                0 <= lo <= old(chunk).code@.len(),
                base0 == old(chunk).code@.len(),
                ej0 == old(end_jumps)@,
                extends_code(*old(chunk), *chunk),
                jumps_ok_except(chunk.code@, lo, end_jumps@),
                end_jumps@.len() >= ej0.len(),
                end_jumps@.take(ej0.len() as int) == ej0,
                forall|k: int| ej0.len() <= k < end_jumps@.len() ==> base0 <= #[trigger] end_jumps@[k],
                emits_arms(arms@.take(i as int), base0, end as int, patched(chunk.code@, end_jumps@, end).skip(base0)),
            decreases arms.len() - i,
        {
            proof {
                assert(decreases_to!(arms => arms[i as int]));
                assert(decreases_to!(arms[i as int] => arms[i as int].body));
                assert(decreases_to!(arms[i as int] => arms[i as int].pattern));
            }
            let ghost c0 = chunk.code@;
            let ghost ejs = end_jumps@;
            proof {
                assert forall|k: int| 0 <= k < ejs.len() implies #[trigger] ejs[k] < c0.len() by {}
            }
            match &arms[i].pattern {
                MatchPattern::Literal(lit) => {
                    proof {
                        assert(decreases_to!(arms[i as int].pattern => arms[i as int].pattern->Literal_0));
                    }
                    chunk.emit(OpCode::Dup, span.line);
                    proof {
                        lemma_plain_push(c0, chunk.code@.last(), lo, end_jumps@);
                        assert(chunk.code@.take(lo) =~= c0.take(lo));
                    }
                    let ghost d0 = chunk.code@;
                    self.compile_expr(lit, chunk);
                    proof {
                        lemma_no_jumps_within(chunk.code@, d0.len() as int, chunk.code@.len() as int);
                        lemma_pending_grow(d0, chunk.code@, lo, end_jumps@);
                        lemma_take_prefix(d0, chunk.code@, lo);
                    }
                    let ghost d1 = chunk.code@;
                    chunk.emit(OpCode::Equal, span.line);
                    proof {
                        lemma_plain_push(d1, chunk.code@.last(), lo, end_jumps@);
                        assert(chunk.code@.take(lo) =~= d1.take(lo));
                    }
                    let ghost d2 = chunk.code@;
                    let skip = chunk.emit(OpCode::JumpIfFalse(0), span.line);
                    proof {
                        lemma_pending_push(d2, chunk.code@.last(), skip, lo, end_jumps@);
                        assert(chunk.code@.take(lo) =~= d2.take(lo));
                    }
                    let ghost with_skip = end_jumps@.push(skip);
                    let ghost d3 = chunk.code@;
                    chunk.emit(OpCode::Pop, span.line);
                    proof {
                        lemma_plain_push(d3, chunk.code@.last(), lo, with_skip);
                        assert(chunk.code@.take(lo) =~= d3.take(lo));
                    }
                    let ghost d3p = chunk.code@;
                    self.compile_block_pending(&arms[i].body, chunk, Ghost(lo), Ghost(with_skip));
                    let ghost d4 = chunk.code@;
                    proof {
                        lemma_take_prefix(d3p, d4, lo);
                    }
                    let end_jump = chunk.emit(OpCode::Jump(0), span.line);
                    proof {
                        lemma_pending_push(d4, chunk.code@.last(), end_jump, lo, with_skip);
                        assert(chunk.code@.take(lo) =~= d4.take(lo));
                    }
                    end_jumps.push(end_jump);
                    let ghost d5 = chunk.code@;
                    let ghost all = with_skip.push(end_jump);
                    proof {
                        assert(all[all.len() - 2] == skip);
                        assert(jump_target(d5[skip as int]) is Some);
                    }
                    let here = chunk.len();
                    chunk.patch_jump(skip, here);
                    proof {
                        assert forall|x: usize| #[trigger] all.contains(x) && x != skip implies end_jumps@.contains(x) by {
                            let j = choose|j: int| 0 <= j < all.len() && all[j] == x;
                            if j < end_jumps@.len() - 1 {
                                assert(end_jumps@[j] == x);
                            } else {
                                assert(end_jumps@[end_jumps@.len() - 1] == x);
                            }
                        }
                        assert forall|j: int| 0 <= j < end_jumps@.len() implies lo <= #[trigger] end_jumps@[j]
                            < d5.len() && jump_target(d5[end_jumps@[j] as int]) is Some by {
                            if j < end_jumps@.len() - 1 {
                                assert(end_jumps@[j] == all[j]);
                            } else {
                                assert(end_jumps@[j] == all[all.len() - 1]);
                            }
                        }
                        lemma_pending_patch(d5, lo, all, skip as int, here, end_jumps@);
                        assert(chunk.code@.take(lo) =~= d5.take(lo));
                        let c4 = chunk.code@;
                        assert(d4[skip as int] == d4.take(d3p.len() as int)[skip as int]);
                        assert(d5[skip as int] == OpCode::JumpIfFalse(0));
                        assert(c4 == d4.push(OpCode::Jump(0)).update(skip as int, OpCode::JumpIfFalse((end_jump + 1) as usize)));
                        assert(d0.take(c0.len() as int + 1) =~= c0.push(OpCode::Dup));
                        assert(d1.take(c0.len() as int + 1) =~= c0.push(OpCode::Dup)) by {
                            assert forall|m: int| 0 <= m < c0.len() + 1 implies d1.take(c0.len() as int + 1)[m] == d0[m] by {
                                assert(d1[m] == d1.take(d0.len() as int)[m]);
                            }
                        }
                        assert(d4.take(skip + 2) =~= d1.push(OpCode::Equal).push(OpCode::JumpIfFalse(0)).push(OpCode::Pop)) by {
                            assert forall|m: int| 0 <= m < skip + 2 implies d4.take(skip + 2)[m] == d3p[m] by {
                                assert(d4[m] == d4.take(d3p.len() as int)[m]);
                            }
                        }
                        assert(d1.skip(c0.len() as int + 1) == d1.skip(d0.len() as int));
                        lemma_case_step(arms@, i as int, base0, end, c0, d1, d4, c4, ejs, skip as int, end_jump as int);
                        assert(end_jumps@ == ejs.push(end_jump));
                        assert forall|m: int| 0 <= m < c0.len() implies #[trigger] c4[m] == c0[m] by {
                            assert(d4.take(skip + 2)[m] == d4[m]);
                            assert(d1.take(c0.len() as int + 1)[m] == d1[m]);
                        }
                        assert(c4.take(c0.len() as int) =~= c0);
                    }
                },
                MatchPattern::Default => {
                    chunk.emit(OpCode::Pop, span.line);
                    proof {
                        lemma_plain_push(c0, chunk.code@.last(), lo, end_jumps@);
                        assert(chunk.code@.take(lo) =~= c0.take(lo));
                    }
                    let ghost e0 = chunk.code@;
                    self.compile_block_pending(&arms[i].body, chunk, Ghost(lo), Ghost(end_jumps@));
                    proof {
                        lemma_take_prefix(e0, chunk.code@, lo);
                        let c2 = chunk.code@;
                        assert(c2.take(c0.len() as int + 1) =~= c0.push(OpCode::Pop)) by {
                            assert forall|m: int| 0 <= m < c0.len() + 1 implies c2.take(c0.len() as int + 1)[m] == e0[m] by {
                                assert(c2[m] == c2.take(e0.len() as int)[m]);
                            }
                        }
                        lemma_plain_arm_step(arms@, i as int, base0, end, c0, c2, ejs);
                        assert forall|m: int| 0 <= m < c0.len() implies #[trigger] c2[m] == c0[m] by {
                            assert(c2.take(c0.len() as int + 1)[m] == c2[m]);
                        }
                        assert(c2.take(c0.len() as int) =~= c0);
                    }
                },
                MatchPattern::Variant { .. } => {
                    self.compile_block_pending(&arms[i].body, chunk, Ghost(lo), Ghost(end_jumps@));
                    proof {
                        lemma_take_prefix(c0, chunk.code@, lo);
                        lemma_plain_arm_step(arms@, i as int, base0, end, c0, chunk.code@, ejs);
                    }
                },
            }
            proof {
                let c = chunk.code@;
                assert(c.take(c0.len() as int) == c0);
                assert(c.take(base0) =~= old(chunk).code@) by {
                    assert forall|m: int| 0 <= m < base0 implies c.take(base0)[m] == old(chunk).code@[m] by {
                        assert(c[m] == c.take(c0.len() as int)[m]);
                        assert(c0[m] == c0.take(base0)[m]);
                    }
                }
                assert(end_jumps@.take(ej0.len() as int) =~= ej0) by {
                    assert forall|m: int| 0 <= m < ej0.len() implies end_jumps@.take(ej0.len() as int)[m] == ej0[m] by {
                        assert(ejs.take(ej0.len() as int)[m] == ejs[m]);
                        assert(end_jumps@[m] == ejs[m]);
                    }
                }
                assert forall|k: int| ej0.len() <= k < end_jumps@.len() implies base0 <= #[trigger] end_jumps@[k] by {
                    if k < ejs.len() {
                        assert(end_jumps@[k] == ejs[k]);
                    }
                }
            }
            i += 1;
        }
        proof {
            assert(arms@.take(i as int) =~= arms@);
        }
    }

    /// Appends the code of an `if` statement.
    #[verifier::spinoff_prover]
    #[verifier::rlimit(60)]
    fn compile_if(&self, stmt: &Stmt, chunk: &mut Chunk)
        requires
            old(chunk).wf(),
            stmt is If,
        ensures
            extends_code(*old(chunk), *final(chunk)),
            jumps_within(final(chunk).code@, old(chunk).code@.len() as int, final(chunk).code@.len() as int),
            emits_stmt(*stmt, old(chunk).code@.len() as int, final(chunk).code@.skip(old(chunk).code@.len() as int)),
        decreases stmt, 1nat,
    {
        let ghost c0 = chunk.code@;
        let ghost n0 = c0.len() as int;
        if let Stmt::If { condition, then_block, else_if_blocks, else_block, span } = stmt {
            let ghost end = (n0 + stmt_code_len(*stmt)) as usize;
            self.compile_expr(condition, chunk);
            let ghost c1 = chunk.code@;
            proof {
                lemma_no_jumps_within(c1, n0, c1.len() as int);
                lemma_pending_none(c1, n0);
            }
            let jump_if_false = chunk.emit(OpCode::JumpIfFalse(0), span.line);
            proof {
                lemma_pending_push(c1, chunk.code@.last(), jump_if_false, n0, Seq::empty());
                assert(chunk.code@.take(n0) =~= c0);
            }
            let ghost p1 = Seq::<usize>::empty().push(jump_if_false);
            let ghost c1p = chunk.code@;
            self.compile_block_pending(then_block, chunk, Ghost(n0), Ghost(p1));
            let ghost c2 = chunk.code@;
            proof {
                lemma_take_prefix(c1p, c2, n0);
            }
            let jump_end = chunk.emit(OpCode::Jump(0), span.line);
            proof {
                lemma_pending_push(c2, chunk.code@.last(), jump_end, n0, p1);
                assert(chunk.code@.take(n0) =~= c0);
            }
            let ghost c3pre = chunk.code@;
            let here = chunk.len();
            chunk.patch_jump(jump_if_false, here);
            let mut end_jumps: Vec<usize> = Vec::new();
            end_jumps.push(jump_end);
            let ghost c3 = chunk.code@;
            proof {
                let all = p1.push(jump_end);
                assert forall|x: usize| #[trigger] all.contains(x) && x != jump_if_false implies end_jumps@.contains(
                    x,
                ) by {
                    let j = choose|j: int| 0 <= j < all.len() && all[j] == x;
                    assert(j == 1);
                    assert(end_jumps@[0] == x);
                }
                assert(end_jumps@[0] == jump_end);
                lemma_pending_patch(c3pre, n0, all, jump_if_false as int, here, end_jumps@);
                assert(chunk.code@.take(n0) =~= c0);
                assert(c1p[jump_if_false as int] == OpCode::JumpIfFalse(0));
                assert(c2[jump_if_false as int] == c2.take(c1p.len() as int)[jump_if_false as int]);
                assert(c3 == c2.push(OpCode::Jump(0)).update(
                    jump_if_false as int,
                    OpCode::JumpIfFalse((jump_end + 1) as usize),
                ));
                assert(c2.take(jump_if_false as int) =~= c1) by {
                    assert forall|m: int| 0 <= m < jump_if_false implies c2.take(jump_if_false as int)[m] == c1[m] by {
                        assert(c2[m] == c2.take(c1p.len() as int)[m]);
                    }
                }
            }
            self.compile_else_ifs(else_if_blocks, chunk, &mut end_jumps, Ghost(n0), Ghost(end), *span);
            let ghost c5 = chunk.code@;
            if let Some(b) = else_block {
                self.compile_block_pending(b, chunk, Ghost(n0), Ghost(end_jumps@));
                proof {
                    lemma_take_prefix(c5, chunk.code@, n0);
                }
            }
            let ghost c6 = chunk.code@;
            let end_pos = chunk.len();
            proof {
                let n3 = c3.len() as int;
                lemma_take_prefix(c3, c5, n0);
                assert(c6.take(c5.len() as int) =~= c5);
                lemma_take_prefix(c5, c6, n0);
                assert(patched(c5, end_jumps@, end).skip(n3).len() == elifs_code_len(else_if_blocks@));
                assert(c6.len() == end);
                assert(c6.take(c5.len() as int) =~= c5);
                assert(end_jumps@[0] == jump_end);
                assert forall|k: int| 1 <= k < end_jumps@.len() implies n3 <= #[trigger] end_jumps@[k] < c5.len() by {}
            }
            self.patch_all(chunk, &end_jumps, end_pos, Ghost(n0));
            proof {
                lemma_if_code(*stmt, n0, c1, c2, c3, c5, c6, end_jumps@, jump_if_false as int, jump_end as int);
            }
        }
    }

    /// Appends the code of a `while` loop.
    fn compile_while(&self, stmt: &Stmt, chunk: &mut Chunk)
        requires
            old(chunk).wf(),
            stmt is While,
        ensures
            extends_code(*old(chunk), *final(chunk)),
            jumps_within(final(chunk).code@, old(chunk).code@.len() as int, final(chunk).code@.len() as int),
            emits_stmt(*stmt, old(chunk).code@.len() as int, final(chunk).code@.skip(old(chunk).code@.len() as int)),
        decreases stmt, 1nat,
    {
        let ghost c0 = chunk.code@;
        let ghost n0 = c0.len() as int;
        if let Stmt::While { condition, body, span } = stmt {
            let start = chunk.len();
            self.compile_expr(condition, chunk);
            let ghost c1 = chunk.code@;
            proof {
                lemma_no_jumps_within(c1, n0, c1.len() as int);
                lemma_pending_none(c1, n0);
            }
            let exit_jump = chunk.emit(OpCode::JumpIfFalse(0), span.line);
            proof {
                lemma_pending_push(c1, chunk.code@.last(), exit_jump, n0, Seq::empty());
                assert(chunk.code@.take(n0) =~= c0);
            }
            let ghost p1 = Seq::<usize>::empty().push(exit_jump);
            let ghost c1p = chunk.code@;
            self.compile_block_pending(body, chunk, Ghost(n0), Ghost(p1));
            let ghost c2 = chunk.code@;
            proof {
                lemma_take_prefix(c1p, c2, n0);
            }
            chunk.emit(OpCode::Jump(start), span.line);
            let ghost c3 = chunk.code@;
            proof {
                assert(c3.take(n0) =~= c0);
                assert forall|i: int| n0 <= i < c3.len() implies (#[trigger] jump_target(c3[i]) matches Some(t)
                    ==> (n0 <= t <= c3.len() || p1.contains(i as usize))) by {
                    if i < c2.len() {
                        assert(c3[i] == c2[i]);
                    }
                }
                assert forall|k: int| 0 <= k < p1.len() implies n0 <= #[trigger] p1[k] < c3.len() && jump_target(
                    c3[p1[k] as int],
                ) is Some by {
                    assert(c3[p1[k] as int] == c2[p1[k] as int]);
                }
            }
            let end = chunk.len();
            chunk.patch_jump(exit_jump, end);
            proof {
                lemma_pending_patch(c3, n0, p1, exit_jump as int, end, Seq::empty());
                lemma_pending_none(chunk.code@, n0);
                assert(chunk.code@.take(n0) =~= c0);
                assert(c1p[exit_jump as int] == OpCode::JumpIfFalse(0));
                assert(c2[exit_jump as int] == c2.take(c1p.len() as int)[exit_jump as int]);
                assert(c2.take(exit_jump as int) =~= c1) by {
                    assert forall|m: int| 0 <= m < exit_jump implies c2.take(exit_jump as int)[m] == c1[m] by {
                        assert(c2[m] == c2.take(c1p.len() as int)[m]);
                    }
                }
                lemma_while_code(*stmt, n0, c1, c2, chunk.code@, exit_jump as int);
            }
        }
    }

    /// Appends the code of a `match` statement.
    #[verifier::spinoff_prover]
    #[verifier::rlimit(60)]
    fn compile_match(&self, stmt: &Stmt, chunk: &mut Chunk)
        requires
            old(chunk).wf(),
            stmt is Match,
        ensures
            extends_code(*old(chunk), *final(chunk)),
            jumps_within(final(chunk).code@, old(chunk).code@.len() as int, final(chunk).code@.len() as int),
            emits_stmt(*stmt, old(chunk).code@.len() as int, final(chunk).code@.skip(old(chunk).code@.len() as int)),
        decreases stmt, 1nat,
    {
        let ghost c0 = chunk.code@;
        let ghost n0 = c0.len() as int;
        if let Stmt::Match { value, arms, span } = stmt {
            let ghost end = (n0 + stmt_code_len(*stmt)) as usize;
            self.compile_expr(value, chunk);
            let ghost c1 = chunk.code@;
            proof {
                lemma_no_jumps_within(c1, n0, c1.len() as int);
                lemma_pending_none(c1, n0);
            }
            let mut end_jumps: Vec<usize> = Vec::new();
            proof {
                assert(end_jumps@ =~= Seq::<usize>::empty());
            }
            self.compile_arms(arms, chunk, &mut end_jumps, Ghost(n0), Ghost(end), *span);
            let ghost c6 = chunk.code@;
            let end_pos = chunk.len();
            proof {
                lemma_take_prefix(c1, c6, n0);
                assert(patched(c6, end_jumps@, end).skip(c1.len() as int).len() == arms_code_len(arms@));
                assert(c6.len() == end);
                assert forall|k: int| 0 <= k < end_jumps@.len() implies c1.len() <= #[trigger] end_jumps@[k] by {}
            }
            self.patch_all(chunk, &end_jumps, end_pos, Ghost(n0));
            proof {
                assert(c6.take(c1.len() as int) =~= c1);
                lemma_match_code(*stmt, n0, c1, c6, end_jumps@);
            }
        }
    }

    /// Appends the code of a `guard` statement.
    fn compile_guard(&self, stmt: &Stmt, chunk: &mut Chunk)
        requires
            old(chunk).wf(),
            stmt is Guard,
        ensures
            extends_code(*old(chunk), *final(chunk)),
            jumps_within(final(chunk).code@, old(chunk).code@.len() as int, final(chunk).code@.len() as int),
            emits_stmt(*stmt, old(chunk).code@.len() as int, final(chunk).code@.skip(old(chunk).code@.len() as int)),
        decreases stmt, 1nat,
    {
        let ghost c0 = chunk.code@;
        let ghost n0 = c0.len() as int;
        if let Stmt::Guard { condition, else_block, span } = stmt {
            self.compile_expr(condition, chunk);
            let ghost c1 = chunk.code@;
            proof {
                lemma_no_jumps_within(c1, n0, c1.len() as int);
                lemma_pending_none(c1, n0);
            }
            let skip = chunk.emit(OpCode::JumpIfTrue(0), span.line);
            proof {
                lemma_pending_push(c1, chunk.code@.last(), skip, n0, Seq::empty());
                assert(chunk.code@.take(n0) =~= c0);
            }
            let ghost p1 = Seq::<usize>::empty().push(skip);
            let ghost c1p = chunk.code@;
            self.compile_block_pending(else_block, chunk, Ghost(n0), Ghost(p1));
            let ghost c2 = chunk.code@;
            proof {
                lemma_take_prefix(c1p, c2, n0);
            }
            let end = chunk.len();
            chunk.patch_jump(skip, end);
            proof {
                lemma_pending_patch(c2, n0, p1, skip as int, end, Seq::empty());
                lemma_pending_none(chunk.code@, n0);
                assert(chunk.code@.take(n0) =~= c0);
                assert(c1p[skip as int] == OpCode::JumpIfTrue(0));
                assert(c2[skip as int] == c2.take(c1p.len() as int)[skip as int]);
                assert(c2.take(skip as int) =~= c1) by {
                    assert forall|m: int| 0 <= m < skip implies c2.take(skip as int)[m] == c1[m] by {
                        assert(c2[m] == c2.take(c1p.len() as int)[m]);
                    }
                }
                lemma_guard_code(*stmt, n0, c1, c2, chunk.code@, skip as int);
            }
        }
    }

    /// Appends the code of a statement. Conditions jump over the code they
    /// guard; every jump stays inside the statement's code.
    fn compile_statement(&self, stmt: &Stmt, chunk: &mut Chunk)
        requires
            old(chunk).wf(),
        ensures
            extends_code(*old(chunk), *final(chunk)),
            jumps_within(final(chunk).code@, old(chunk).code@.len() as int, final(chunk).code@.len() as int),
            emits_stmt(*stmt, old(chunk).code@.len() as int, final(chunk).code@.skip(old(chunk).code@.len() as int)),
            lines_simple_stmt(*stmt, final(chunk).lines@.skip(old(chunk).lines@.len() as int)),
        decreases stmt, 2nat,
    {
        let ghost c0 = chunk.code@;
        let ghost n0 = c0.len() as int;
        let ghost d0 = chunk.lines@;
        match stmt {
            Stmt::Let { mutable, name, initializer, span, .. } => {
                self.compile_expr(initializer, chunk);
                let ghost c1 = chunk.code@;
                let ghost d1 = chunk.lines@;
                if *mutable {
                    chunk.emit(OpCode::StoreMut(name.clone()), span.line);
                } else {
                    chunk.emit(OpCode::Store(name.clone()), span.line);
                }
                proof {
                    lemma_one_more(c0, c1, chunk.code@.last());
                    assert(chunk.lines@.skip(d0.len() as int).drop_last() =~= d1.skip(d0.len() as int));
                }
            },
            Stmt::Return { value, span } => {
                match value {
                    Some(e) => {
                        self.compile_expr(e, chunk);
                    },
                    None => {
                        chunk.emit(OpCode::PushConst(Constant::Void), span.line);
                        proof {
                            assert(chunk.code@.skip(n0) =~= seq![OpCode::PushConst(Constant::Void)]);
                            assert(chunk.lines@.skip(d0.len() as int) =~= seq![span.line]);
                            assert(chunk.code@.take(n0) =~= c0);
                            assert forall|i: int| 0 <= i < chunk.code@.skip(n0).len() implies jump_target(
                                #[trigger] chunk.code@.skip(n0)[i],
                            ) is None by {}
                        }
                    },
                }
                let ghost c1 = chunk.code@;
                let ghost d1 = chunk.lines@;
                chunk.emit(OpCode::Return, span.line);
                proof {
                    lemma_one_more(c0, c1, chunk.code@.last());
                    assert(chunk.lines@.skip(d0.len() as int).drop_last() =~= d1.skip(d0.len() as int));
                }
            },
            Stmt::Expression { expr, span } => {
                self.compile_expr(expr, chunk);
                let ghost c1 = chunk.code@;
                let ghost d1 = chunk.lines@;
                chunk.emit(OpCode::Pop, span.line);
                proof {
                    lemma_one_more(c0, c1, chunk.code@.last());
                    assert(chunk.lines@.skip(d0.len() as int).drop_last() =~= d1.skip(d0.len() as int));
                }
            },
            Stmt::Assignment { target, value, span } => {
                self.compile_expr(value, chunk);
                let ghost c1 = chunk.code@;
                let ghost d1 = chunk.lines@;
                if let Expr::Identifier { name, .. } = target {
                    chunk.emit(OpCode::Store(name.clone()), span.line);
                    proof {
                        lemma_one_more(c0, c1, chunk.code@.last());
                        assert(chunk.lines@.skip(d0.len() as int).drop_last() =~= d1.skip(d0.len() as int));
                    }
                } else {
                    proof {
                        lemma_no_jumps_within(chunk.code@, n0, chunk.code@.len() as int);
                    }
                }
            },
            Stmt::If { .. } => self.compile_if(stmt, chunk),
            Stmt::While { .. } => self.compile_while(stmt, chunk),
            Stmt::Match { .. } => self.compile_match(stmt, chunk),
            Stmt::Guard { .. } => self.compile_guard(stmt, chunk),
            Stmt::Break { .. } | Stmt::Continue { .. } => {
                chunk.emit(OpCode::Nop, 0);
                proof {
                    assert(chunk.code@.skip(n0) =~= seq![OpCode::Nop]);
                    assert(chunk.lines@.skip(d0.len() as int) =~= seq![0usize]);
                    assert(chunk.code@.take(n0) =~= c0);
                    assert forall|i: int| n0 <= i < chunk.code@.len() implies (#[trigger] jump_target(
                        chunk.code@[i],
                    ) matches Some(t) ==> n0 <= t <= chunk.code@.len()) by {}
                }
            },
        }
    }
}

impl Compiler {
    /// A compiler with nothing compiled yet.
    pub fn new() -> (c: Self)
        ensures
            c.compiled().chunks@.len() == 0,
            c.compiled().entry_point is None,
    {
        Compiler { program: CompiledProgram::new() }
    }

    /// What has been compiled so far.
    pub closed spec fn compiled(&self) -> CompiledProgram {
        self.program
    }

    /// Compiles a function body into a chunk named `name`: the arguments
    /// are stored into the parameters (last parameter first), then the body
    /// runs; a body that does not end in `return` returns `Void`.
    fn compile_chunk(&self, name: String, func: &FnDecl) -> (chunk: Chunk)
        ensures
            chunk.name == name,
            well_compiled(chunk),
            chunk.params@.len() == 0,
            func.params@.len() <= chunk.code@.len(),
            forall|i: int| 0 <= i < func.params@.len() ==> #[trigger] chunk.code@[i] == OpCode::Store(
                func.params@[func.params@.len() - 1 - i].name,
            ),
            emits_function(*func, chunk.code@),
    {
        let mut chunk = Chunk::new(name);
        let mut k = func.params.len();
        while k > 0
            invariant
                k <= func.params@.len(),
                chunk.wf(),
                chunk.name == name,
                chunk.params@.len() == 0,
                chunk.code@.len() == func.params@.len() - k,
                forall|i: int| 0 <= i < chunk.code@.len() ==> #[trigger] chunk.code@[i] == OpCode::Store(
                    func.params@[func.params@.len() - 1 - i].name,
                ),
            decreases k,
        {
            k -= 1;
            chunk.emit(OpCode::Store(func.params[k].name.clone()), func.span.line);
        }
        let ghost c0 = chunk.code@;
        proof {
            assert forall|i: int| 0 <= i < c0.len() implies (#[trigger] jump_target(c0[i]) matches Some(t) ==> 0 <= t
                <= c0.len()) by {}
        }
        self.compile_block(&func.body, &mut chunk);
        let ghost cb = chunk.code@;
        proof {
            lemma_jumps_within_grow(c0, chunk.code@, 0, c0.len() as int, chunk.code@.len() as int);
            assert forall|i: int| 0 <= i < c0.len() implies #[trigger] chunk.code@[i] == c0[i] by {
                assert(chunk.code@.take(c0.len() as int)[i] == chunk.code@[i]);
            }
        }
        let ends_in_return = chunk.code.len() > 0 && matches!(chunk.code[chunk.code.len() - 1], OpCode::Return);
        if !ends_in_return {
            let ghost c1 = chunk.code@;
            chunk.emit(OpCode::PushConst(Constant::Void), func.span.line);
            chunk.emit(OpCode::Return, func.span.line);
            proof {
                let c2 = chunk.code@;
                assert forall|i: int| 0 <= i < c2.len() implies (#[trigger] jump_target(c2[i]) matches Some(t) ==> 0
                    <= t <= c2.len()) by {
                    if i < c1.len() {
                        assert(c2[i] == c1[i]);
                    }
                }
                assert forall|i: int| 0 <= i < c0.len() implies #[trigger] c2[i] == c0[i] by {
                    assert(c2[i] == c1[i]);
                }
            }
        }
        proof {
            assert forall|i: int| 0 <= i < chunk.code@.len() implies (#[trigger] jump_target(chunk.code@[i]) matches Some(
                t,
            ) ==> t <= chunk.code@.len()) by {}
            let c = chunk.code@;
            let p = func.params@.len() as int;
            let b = block_code_len(func.body@) as int;
            assert(cb.len() == p + b);
            assert(c.subrange(p, p + b) =~= cb.skip(p)) by {
                assert forall|m: int| 0 <= m < b implies #[trigger] c.subrange(p, p + b)[m] == cb.skip(p)[m] by {
                    if !ends_in_return {
                        assert(c[p + m] == cb[p + m]);
                    }
                }
            }
            if !ends_in_return {
                assert(c.skip(p + b) =~= seq![OpCode::PushConst(Constant::Void), OpCode::Return]);
                if p + b > 0 {
                    assert(c[p + b - 1] == cb[p + b - 1]);
                }
            }
            assert(emits_function(*func, c));
        }
        chunk
    }

    /// Compiles a free function into a chunk named after it.
    fn compile_function(&self, func: &FnDecl) -> (chunk: Chunk)
        ensures
            chunk.name == func.name,
            well_compiled(chunk),
            chunk.params@.len() == 0,
            emits_function(*func, chunk.code@),
    {
        self.compile_chunk(func.name.clone(), func)
    }

    /// Compiles each method of a contract into a chunk named
    /// `Contract::method`.
    fn compile_contract(&mut self, contract: &ContractDecl)
        ensures
            final(self).compiled().entry_point == old(self).compiled().entry_point,
            final(self).compiled().chunks@.len() >= old(self).compiled().chunks@.len(),
            final(self).compiled().chunks@.take(old(self).compiled().chunks@.len() as int) == old(
                self,
            ).compiled().chunks@,
            forall|i: int| old(self).compiled().chunks@.len() <= i < final(self).compiled().chunks@.len()
                ==> well_compiled(#[trigger] final(self).compiled().chunks@[i]),
            names_of(final(self).compiled().chunks@) == names_of(old(self).compiled().chunks@) + method_chunk_names(
                contract.name@,
                contract.members@,
            ),
            compiled_from(final(self).compiled().chunks@, old(self).compiled().chunks@.len() as int, method_fns(contract.members@)),
    {
        let ghost n0 = self.program.chunks@.len();
        let mut i: usize = 0;
        proof {
            assert(self.program.chunks@.take(n0 as int) =~= old(self).program.chunks@);
            assert(contract.members@.take(0) =~= Seq::<ContractMember>::empty());
            assert(names_of(self.program.chunks@) =~= names_of(old(self).program.chunks@) + method_chunk_names(
                contract.name@,
                contract.members@.take(0),
            ));
        }
        while i < contract.members.len()
            invariant
                i <= contract.members.len(),
                n0 == old(self).program.chunks@.len(),
                self.program.entry_point == old(self).program.entry_point,
                n0 <= self.program.chunks@.len(),
                self.program.chunks@.take(n0 as int) == old(self).program.chunks@,
                forall|j: int| n0 <= j < self.program.chunks@.len() ==> well_compiled(#[trigger] self.program.chunks@[j]),
                names_of(self.program.chunks@) == names_of(old(self).program.chunks@) + method_chunk_names(
                    contract.name@,
                    contract.members@.take(i as int),
                ),
                compiled_from(self.program.chunks@, n0 as int, method_fns(contract.members@.take(i as int))),
            decreases contract.members.len() - i,
        {
            let ghost before = self.program.chunks@;
            proof {
                assert(contract.members@.take(i + 1).drop_last() =~= contract.members@.take(i as int));
            }
            if let ContractMember::Method(method) = &contract.members[i] {
                let mut qualified_name = contract.name.clone();
                qualified_name.append("::");
                qualified_name.append(method.name.as_str());
                let chunk = self.compile_chunk(qualified_name, method);
                self.program.add_chunk(chunk);
                proof {
                    assert(self.program.chunks@.take(n0 as int) =~= before.take(n0 as int));
                    assert(names_of(self.program.chunks@) =~= names_of(before).push(chunk.name@));
                    let fs = method_fns(contract.members@.take(i as int));
                    assert(method_fns(contract.members@.take(i + 1)) == fs.push(*method));
                    assert forall|j: int| n0 <= j < self.program.chunks@.len() implies {
                        &&& (#[trigger] self.program.chunks@[j]).params@.len() == 0
                        &&& emits_function(fs.push(*method)[j - n0], self.program.chunks@[j].code@)
                    } by {
                        if j < before.len() {
                            assert(self.program.chunks@[j] == before[j]);
                            assert(fs.push(*method)[j - n0] == fs[j - n0]);
                        }
                    }
                }
            } else {
                proof {
                    assert(method_fns(contract.members@.take(i + 1)) == method_fns(contract.members@.take(i as int)));
                }
            }
            i += 1;
        }
        proof {
            assert(contract.members@.take(i as int) =~= contract.members@);
        }
    }

    /// Compiles a declaration; an enumeration yields no chunk.
    fn compile_declaration(&mut self, decl: &Declaration)
        ensures
            final(self).compiled().entry_point == old(self).compiled().entry_point,
            final(self).compiled().chunks@.len() >= old(self).compiled().chunks@.len(),
            final(self).compiled().chunks@.take(old(self).compiled().chunks@.len() as int) == old(
                self,
            ).compiled().chunks@,
            forall|i: int| old(self).compiled().chunks@.len() <= i < final(self).compiled().chunks@.len()
                ==> well_compiled(#[trigger] final(self).compiled().chunks@[i]),
            names_of(final(self).compiled().chunks@) == names_of(old(self).compiled().chunks@) + chunk_names(
                seq![*decl],
            ),
            compiled_from(final(self).compiled().chunks@, old(self).compiled().chunks@.len() as int, program_fns(seq![*decl])),
    {
        proof {
            lemma_chunk_names_one(*decl);
            lemma_program_fns_one(*decl);
        }
        match decl {
            Declaration::Contract(c) => {
                self.compile_contract(c);
            },
            Declaration::Function(f) => {
                let chunk = self.compile_function(f);
                self.program.add_chunk(chunk);
                proof {
                    assert(self.program.chunks@.take(old(self).program.chunks@.len() as int)
                        =~= old(self).program.chunks@);
                    assert(names_of(self.program.chunks@) =~= names_of(old(self).program.chunks@) + seq![chunk.name@]);
                    assert(self.program.chunks@[old(self).program.chunks@.len() as int] == chunk);
                }
            },
            Declaration::Enumeration(_) => {
                proof {
                    assert(self.program.chunks@.take(self.program.chunks@.len() as int) =~= self.program.chunks@);
                    assert(names_of(self.program.chunks@) =~= names_of(self.program.chunks@) + Seq::empty());
                }
            },
        }
    }

    /// Compiles a program: the entry point is the value of the last module
    /// directive whose path ends in `entry`, and each declaration adds its
    /// chunks in order: one per contract method, named `Contract::method`,
    /// and one per free function. Each chunk holds the code of its function
    /// (`emits_function`), ends in `return`, and its jumps stay inside it.
    pub fn compile(self, ast: &Program) -> (r: CompiledProgram)
        ensures
            r.entry_point == entry_of(ast.module_directives@, self.compiled().entry_point),
            r.chunks@.take(self.compiled().chunks@.len() as int) == self.compiled().chunks@,
            forall|i: int| self.compiled().chunks@.len() <= i < r.chunks@.len() ==> well_compiled(
                #[trigger] r.chunks@[i],
            ),
            names_of(r.chunks@) == names_of(self.compiled().chunks@) + chunk_names(ast.declarations@),
            compiled_from(r.chunks@, self.compiled().chunks@.len() as int, program_fns(ast.declarations@)),
    {
        let mut c = self;
        let dirs = &ast.module_directives;
        let mut i: usize = 0;
        while i < dirs.len()
            invariant
                i <= dirs.len(),
                dirs == &ast.module_directives,
                c.program.chunks == self.program.chunks,
                c.program.entry_point == entry_of(dirs@.take(i as int), self.program.entry_point),
            decreases dirs.len() - i,
        {
            proof {
                assert(dirs@.take(i + 1).drop_last() =~= dirs@.take(i as int));
            }
            let d = &dirs[i];
            if d.path.len() > 0 && str_eq(d.path[d.path.len() - 1].as_str(), "entry") {
                c.program.entry_point = Some(d.value.clone());
            }
            i += 1;
        }
        proof {
            assert(dirs@.take(i as int) =~= dirs@);
        }
        let ghost n0 = c.program.chunks@.len();
        let decls = &ast.declarations;
        let mut k: usize = 0;
        proof {
            assert(c.program.chunks@.take(n0 as int) =~= self.program.chunks@);
            assert(decls@.take(0) =~= Seq::<Declaration>::empty());
            assert(names_of(c.program.chunks@) =~= names_of(self.program.chunks@) + Seq::empty());
        }
        while k < decls.len()
            invariant
                k <= decls.len(),
                decls == &ast.declarations,
                n0 == self.program.chunks@.len(),
                c.program.entry_point == entry_of(ast.module_directives@, self.program.entry_point),
                n0 <= c.program.chunks@.len(),
                c.program.chunks@.take(n0 as int) == self.program.chunks@,
                forall|j: int| n0 <= j < c.program.chunks@.len() ==> well_compiled(#[trigger] c.program.chunks@[j]),
                names_of(c.program.chunks@) == names_of(self.program.chunks@) + chunk_names(decls@.take(k as int)),
                compiled_from(c.program.chunks@, n0 as int, program_fns(decls@.take(k as int))),
            decreases decls.len() - k,
        {
            let ghost before = c.program.chunks@;
            c.compile_declaration(&decls[k]);
            proof {
                let now = decls@.take(k + 1);
                assert(now =~= decls@.take(k as int).push(decls@[k as int]));
                lemma_chunk_names_step(decls@.take(k as int), decls@[k as int]);
                lemma_program_fns_step(decls@.take(k as int), decls@[k as int]);
                let fa = program_fns(decls@.take(k as int));
                let fb = program_fns(seq![decls@[k as int]]);
                assert(program_fns(now) == fa + fb);
                assert forall|j: int| n0 <= j < c.program.chunks@.len() implies {
                    &&& (#[trigger] c.program.chunks@[j]).params@.len() == 0
                    &&& emits_function((fa + fb)[j - n0], c.program.chunks@[j].code@)
                } by {
                    if j < before.len() {
                        assert(c.program.chunks@[j] == c.program.chunks@.take(before.len() as int)[j]);
                        assert((fa + fb)[j - n0] == fa[j - n0]);
                    } else {
                        assert((fa + fb)[j - n0] == fb[j - before.len()]);
                    }
                }
                assert(c.program.chunks@.take(n0 as int) =~= before.take(n0 as int));
                assert forall|j: int| n0 <= j < c.program.chunks@.len() implies well_compiled(
                    #[trigger] c.program.chunks@[j],
                ) by {
                    if j < before.len() {
                        assert(c.program.chunks@[j] == c.program.chunks@.take(before.len() as int)[j]);
                    }
                }
            }
            k += 1;
        }
        proof {
            assert(decls@.take(k as int) =~= decls@);
        }
        c.program
    }
}

} // verus!
