use vstd::prelude::*;
use crate::token::Span;
use crate::text::owned;

verus! {

/// A whole source file.
#[derive(Debug)]
pub struct Program {
    pub module_directives: Vec<ModuleDirective>,
    pub require_statements: Vec<RequireStatement>,
    pub declarations: Vec<Declaration>,
}

/// `#![module::entry(main)]`
#[derive(Debug)]
pub struct ModuleDirective {
    pub path: Vec<String>,
    pub value: String,
    pub span: Span,
}

/// `@require core::io::{ StreamWriter, BufferMode };`
#[derive(Debug)]
pub struct RequireStatement {
    pub module_segments: Vec<String>,
    pub imports: Vec<String>,
    pub span: Span,
}

#[derive(Debug)]
pub enum Declaration {
    Contract(ContractDecl),
    Function(FnDecl),
    Enumeration(EnumDecl),
}

/// `contract Main :: EntryPoint, Displayable { ... }`
#[derive(Debug)]
pub struct ContractDecl {
    pub name: String,
    pub traits: Vec<String>,
    pub members: Vec<ContractMember>,
    pub span: Span,
}

#[derive(Debug)]
pub enum ContractMember {
    Field(FieldDecl),
    Method(FnDecl),
}

/// `@visibility(private) field name: String;`
#[derive(Debug)]
pub struct FieldDecl {
    pub annotations: Vec<Annotation>,
    pub name: String,
    pub type_expr: TypeExpr,
    pub span: Span,
}

#[derive(Debug)]
pub struct FnDecl {
    pub annotations: Vec<Annotation>,
    pub name: String,
    pub params: Vec<Param>,
    pub return_type: TypeExpr,
    pub body: Vec<Stmt>,
    pub span: Span,
}

#[derive(Debug)]
pub struct Param {
    pub name: String,
    pub type_expr: TypeExpr,
    pub span: Span,
}

#[derive(Debug)]
pub struct EnumDecl {
    pub name: String,
    pub traits: Vec<String>,
    pub variants: Vec<EnumVariant>,
    pub methods: Vec<FnDecl>,
    pub span: Span,
}

#[derive(Debug)]
pub struct EnumVariant {
    pub name: String,
    pub fields: Vec<FieldDecl>,
    pub span: Span,
}

/// `@static`, `@visibility(public)`
#[derive(Debug)]
pub struct Annotation {
    pub name: String,
    pub args: Vec<Expr>,
    pub span: Span,
}

#[derive(Debug)]
pub enum TypeExpr {
    /// `Int32`, `String`, `Bool`, `Void`, ...
    Named(String, Span),
    /// `Vector<Int32>`, `Result<String, Error>`
    Generic { base: String, type_args: Vec<TypeExpr>, span: Span },
    /// `&String`, `&mut Int32`
    Reference { mutable: bool, inner: Box<TypeExpr>, span: Span },
    /// `Tuple<Int32, String>`
    Tuple { elements: Vec<TypeExpr>, span: Span },
    /// `Closure<(Int32) -> Int32>`
    Closure { params: Vec<TypeExpr>, return_type: Box<TypeExpr>, span: Span },
    /// `Self`
    SelfType(Span),
}

#[derive(Debug)]
pub enum Stmt {
    /// `let x: Int32 = 42i32;`
    Let {
        mutable: bool,
        name: String,
        type_expr: TypeExpr,
        initializer: Expr,
        error_handler: Option<ErrorHandler>,
        span: Span,
    },
    /// `return ExitCode::Success(0x00);`
    Return { value: Option<Expr>, span: Span },
    /// `guard condition else { ... };`
    Guard { condition: Expr, else_block: Vec<Stmt>, span: Span },
    /// `if (condition: ...) => { } else => { };`
    If {
        condition: Expr,
        then_block: Vec<Stmt>,
        else_if_blocks: Vec<(Expr, Vec<Stmt>)>,
        else_block: Option<Vec<Stmt>>,
        span: Span,
    },
    /// `while (condition: ...) => { ... };`
    While { condition: Expr, body: Vec<Stmt>, span: Span },
    /// `match (value: x) => { case(...) => { }, ... };`
    Match { value: Expr, arms: Vec<MatchArm>, span: Span },
    Break { span: Span },
    Continue { span: Span },
    /// `foo.bar();`
    Expression { expr: Expr, span: Span },
    /// `x = 10;`
    Assignment { target: Expr, value: Expr, span: Span },
}

#[derive(Debug)]
pub struct MatchArm {
    pub pattern: MatchPattern,
    pub body: Vec<Stmt>,
    pub span: Span,
}

#[derive(Debug)]
pub enum MatchPattern {
    /// `case(42i32)`
    Literal(Expr),
    /// `case(Self::ConnectionRefused(h, p, _))`
    Variant { path: Vec<String>, bindings: Vec<String> },
    /// `default`
    Default,
}

/// `=> |err| { ... }`
#[derive(Debug)]
pub struct ErrorHandler {
    pub param: String,
    pub body: Vec<Stmt>,
    pub span: Span,
}

/// Expressions. A floating-point literal carries its digits as written
/// (underscores removed).
#[derive(Debug)]
pub enum Expr {
    IntLiteral { value: i128, suffix: Option<String>, span: Span },
    FloatLiteral { literal: String, suffix: Option<String>, span: Span },
    StringLiteral { value: String, span: Span },
    CharLiteral { value: char, span: Span },
    BoolLiteral { value: bool, span: Span },
    Identifier { name: String, span: Span },
    SelfValue { span: Span },
    /// `ExitCode::Success`, `core::io::StreamWriter`
    PathExpr { segments: Vec<String>, span: Span },
    Binary { left: Box<Expr>, op: BinOp, right: Box<Expr>, span: Span },
    Unary { op: UnaryOp, operand: Box<Expr>, span: Span },
    /// `StreamWriter::acquire(target: StdOut)`, `writer.emit(payload: x)`
    MethodCall { object: Box<Expr>, method: String, args: Vec<NamedArg>, span: Span },
    /// `foo(bar, baz)`
    FnCall { callee: Box<Expr>, args: Vec<NamedArg>, span: Span },
    FieldAccess { object: Box<Expr>, field: String, span: Span },
    /// `expr => |err| { ... }`
    WithErrorHandler { expr: Box<Expr>, handler: ErrorHandler, span: Span },
    /// `Self { name: name, age: age }`
    StructInit { type_path: Vec<String>, fields: Vec<(String, Expr)>, span: Span },
    /// `(expr)`
    Grouped { inner: Box<Expr>, span: Span },
}

/// An argument, with its label when it has one.
#[derive(Debug)]
pub struct NamedArg {
    pub name: Option<String>,
    pub value: Expr,
    pub span: Span,
}

#[derive(Debug, Clone, Copy, PartialEq, Eq, Structural)]
pub enum BinOp {
    Add,
    Sub,
    Mul,
    Div,
    Mod,
    Eq,
    NotEq,
    Lt,
    LtEq,
    Gt,
    GtEq,
    And,
    Or,
}

#[derive(Debug, Clone, Copy, PartialEq, Eq, Structural)]
pub enum UnaryOp {
    Negate,
    Not,
    Ref,
    RefMut,
    Deref,
}

/// The name of the kind of expression `e`, as its variant is named.
pub open spec fn expr_kind_name(e: Expr) -> Seq<char> {
    match e {
        Expr::IntLiteral { .. } => "IntLiteral"@,
        Expr::FloatLiteral { .. } => "FloatLiteral"@,
        Expr::StringLiteral { .. } => "StringLiteral"@,
        Expr::CharLiteral { .. } => "CharLiteral"@,
        Expr::BoolLiteral { .. } => "BoolLiteral"@,
        Expr::Identifier { .. } => "Identifier"@,
        Expr::SelfValue { .. } => "SelfValue"@,
        Expr::PathExpr { .. } => "PathExpr"@,
        Expr::Binary { .. } => "Binary"@,
        Expr::Unary { .. } => "Unary"@,
        Expr::MethodCall { .. } => "MethodCall"@,
        Expr::FnCall { .. } => "FnCall"@,
        Expr::FieldAccess { .. } => "FieldAccess"@,
        Expr::WithErrorHandler { .. } => "WithErrorHandler"@,
        Expr::StructInit { .. } => "StructInit"@,
        Expr::Grouped { .. } => "Grouped"@,
    }
}

impl Expr {
    /// The name of this expression's kind, as its variant is named: the text
    /// with which its `Debug` rendering begins.
    pub fn kind_name(&self) -> (s: String)
        ensures
            s@ == expr_kind_name(*self),
    {
        let r = match self {
            Expr::IntLiteral { .. } => owned("IntLiteral"),
            Expr::FloatLiteral { .. } => owned("FloatLiteral"),
            Expr::StringLiteral { .. } => owned("StringLiteral"),
            Expr::CharLiteral { .. } => owned("CharLiteral"),
            Expr::BoolLiteral { .. } => owned("BoolLiteral"),
            Expr::Identifier { .. } => owned("Identifier"),
            Expr::SelfValue { .. } => owned("SelfValue"),
            Expr::PathExpr { .. } => owned("PathExpr"),
            Expr::Binary { .. } => owned("Binary"),
            Expr::Unary { .. } => owned("Unary"),
            Expr::MethodCall { .. } => owned("MethodCall"),
            Expr::FnCall { .. } => owned("FnCall"),
            Expr::FieldAccess { .. } => owned("FieldAccess"),
            Expr::WithErrorHandler { .. } => owned("WithErrorHandler"),
            Expr::StructInit { .. } => owned("StructInit"),
            Expr::Grouped { .. } => owned("Grouped"),
        };
        r
    }
}

/// How tightly a binary operator binds: `||` loosest, then `&&`, the
/// comparisons, `+ -`, and `* / %` tightest.
pub open spec fn binding(op: BinOp) -> int {
    match op {
        BinOp::Or => 1,
        BinOp::And => 2,
        BinOp::Eq | BinOp::NotEq | BinOp::Lt | BinOp::LtEq | BinOp::Gt | BinOp::GtEq => 3,
        BinOp::Add | BinOp::Sub => 4,
        BinOp::Mul | BinOp::Div | BinOp::Mod => 5,
    }
}

/// How a binary operator is written in source text.
pub open spec fn binop_symbol(op: BinOp) -> Seq<char> {
    match op {
        BinOp::Add => seq!['+'],
        BinOp::Sub => seq!['-'],
        BinOp::Mul => seq!['*'],
        BinOp::Div => seq!['/'],
        BinOp::Mod => seq!['%'],
        BinOp::Eq => seq!['=', '='],
        BinOp::NotEq => seq!['!', '='],
        BinOp::Lt => seq!['<'],
        BinOp::LtEq => seq!['<', '='],
        BinOp::Gt => seq!['>'],
        BinOp::GtEq => seq!['>', '='],
        BinOp::And => seq!['&', '&'],
        BinOp::Or => seq!['|', '|'],
    }
}

/// The quotient of `a` by `b`, rounded toward zero (`b` not zero).
pub open spec fn quotient_toward_zero(a: int, b: int) -> int {
    let q = (if a < 0 { -a } else { a }) / (if b < 0 { -b } else { b });
    if (a < 0) == (b < 0) {
        q
    } else {
        -q
    }
}

/// What a binary operator means on two integer operands, leaving aside the
/// width they wrap at: the sum, difference, product, quotient (toward zero)
/// and remainder (with the sign of `a`); a comparison or a logical operator
/// gives 1 for true and 0 for false, an operand counting as true when it is
/// not zero. Division and remainder by zero have no value.
pub open spec fn int_operator_value(op: BinOp, a: int, b: int) -> Option<int> {
    match op {
        BinOp::Add => Some(a + b),
        BinOp::Sub => Some(a - b),
        BinOp::Mul => Some(a * b),
        BinOp::Div => if b == 0 {
            None
        } else {
            Some(quotient_toward_zero(a, b))
        },
        BinOp::Mod => if b == 0 {
            None
        } else {
            Some(a - b * quotient_toward_zero(a, b))
        },
        BinOp::Eq => Some(if a == b { 1 } else { 0 }),
        BinOp::NotEq => Some(if a != b { 1 } else { 0 }),
        BinOp::Lt => Some(if a < b { 1 } else { 0 }),
        BinOp::LtEq => Some(if a <= b { 1 } else { 0 }),
        BinOp::Gt => Some(if a > b { 1 } else { 0 }),
        BinOp::GtEq => Some(if a >= b { 1 } else { 0 }),
        BinOp::And => Some(if a != 0 && b != 0 { 1 } else { 0 }),
        BinOp::Or => Some(if a != 0 || b != 0 { 1 } else { 0 }),
    }
}

/// Along its chain of binary operators, `e` groups by binding strength and
/// to the left: no operator binds more loosely than `min`, the left operand
/// of an operator binds at least as tightly as it, and the right operand
/// strictly more tightly.
pub open spec fn grouped_by_binding(e: Expr, min: int) -> bool
    decreases e,
{
    match e {
        Expr::Binary { left, op, right, .. } => {
            &&& binding(op) >= min
            &&& grouped_by_binding(*left, binding(op))
            &&& grouped_by_binding(*right, binding(op) + 1)
        },
        _ => true,
    }
}

/// `e` groups by binding strength at its top, and so does every
/// expression nested in it, at any depth.
pub open spec fn well_grouped(e: Expr) -> bool
    decreases e, 1nat,
{
    grouped_by_binding(e, 1) && inner_grouped(e)
}

/// Every expression nested in `e` below its chain of binary operators is
/// well grouped.
pub open spec fn inner_grouped(e: Expr) -> bool
    decreases e, 0nat,
{
    match e {
        Expr::Binary { left, right, .. } => inner_grouped(*left) && inner_grouped(*right),
        Expr::Unary { operand, .. } => well_grouped(*operand),
        Expr::MethodCall { object, args, .. } => well_grouped(*object) && args_grouped(args@),
        Expr::FnCall { callee, args, .. } => well_grouped(*callee) && args_grouped(args@),
        Expr::FieldAccess { object, .. } => well_grouped(*object),
        Expr::WithErrorHandler { expr, handler, .. } => well_grouped(*expr) && block_grouped(handler.body@),
        Expr::StructInit { fields, .. } => fields_grouped(fields@),
        Expr::Grouped { inner, .. } => well_grouped(*inner),
        _ => true,
    }
}

/// Every argument value is well grouped.
pub open spec fn args_grouped(args: Seq<NamedArg>) -> bool
    decreases args, 0nat,
{
    args.len() == 0 || (args_grouped(args.drop_last()) && well_grouped(args.last().value))
}

/// Every field value is well grouped.
pub open spec fn fields_grouped(fields: Seq<(String, Expr)>) -> bool
    decreases fields, 0nat,
{
    fields.len() == 0 || (fields_grouped(fields.drop_last()) && well_grouped(fields.last().1))
}

/// Every expression in the block is well grouped.
pub open spec fn block_grouped(b: Seq<Stmt>) -> bool
    decreases b, 0nat,
{
    b.len() == 0 || (block_grouped(b.drop_last()) && stmt_grouped(b.last()))
}

/// Every expression in the statement, and in the blocks it holds, is well
/// grouped.
pub open spec fn stmt_grouped(s: Stmt) -> bool
    decreases s, 0nat,
{
    match s {
        Stmt::Let { initializer, error_handler, .. } => well_grouped(initializer) && match error_handler {
            Some(h) => block_grouped(h.body@),
            None => true,
        },
        Stmt::Return { value, .. } => match value {
            Some(v) => well_grouped(v),
            None => true,
        },
        Stmt::Guard { condition, else_block, .. } => well_grouped(condition) && block_grouped(else_block@),
        Stmt::If { condition, then_block, else_if_blocks, else_block, .. } => {
            &&& well_grouped(condition)
            &&& block_grouped(then_block@)
            &&& elifs_grouped(else_if_blocks@)
            &&& match else_block {
                Some(b) => block_grouped(b@),
                None => true,
            }
        },
        Stmt::While { condition, body, .. } => well_grouped(condition) && block_grouped(body@),
        Stmt::Match { value, arms, .. } => well_grouped(value) && arms_grouped(arms@),
        Stmt::Expression { expr, .. } => well_grouped(expr),
        Stmt::Assignment { target, value, .. } => well_grouped(target) && well_grouped(value),
        Stmt::Break { .. } => true,
        Stmt::Continue { .. } => true,
    }
}

/// The conditions and blocks of the `else if` branches are well grouped.
pub open spec fn elifs_grouped(bs: Seq<(Expr, Vec<Stmt>)>) -> bool
    decreases bs, 0nat,
{
    bs.len() == 0 || (elifs_grouped(bs.drop_last()) && well_grouped(bs.last().0) && block_grouped(bs.last().1@))
}

/// The `case` values and bodies of the arms are well grouped.
pub open spec fn arms_grouped(arms: Seq<MatchArm>) -> bool
    decreases arms, 0nat,
{
    arms.len() == 0 || {
        &&& arms_grouped(arms.drop_last())
        &&& match arms.last().pattern {
            MatchPattern::Literal(e) => well_grouped(e),
            _ => true,
        }
        &&& block_grouped(arms.last().body@)
    }
}

/// Every expression in the bodies of the declaration's functions is well
/// grouped.
pub open spec fn decl_grouped(d: Declaration) -> bool {
    match d {
        Declaration::Contract(c) => forall|j: int|
            0 <= j < c.members@.len() ==> (#[trigger] c.members@[j] matches ContractMember::Method(m) ==> block_grouped(
                m.body@,
            )),
        Declaration::Function(f) => block_grouped(f.body@),
        Declaration::Enumeration(e) => forall|j: int| 0 <= j < e.methods@.len() ==> block_grouped(#[trigger] e.methods@[j].body@),
    }
}

/// Every expression in the bodies of the program's functions is well
/// grouped: operators group by binding strength and to the left.
pub open spec fn program_grouped(p: Program) -> bool {
    forall|i: int| 0 <= i < p.declarations@.len() ==> decl_grouped(#[trigger] p.declarations@[i])
}

// ── The functions of a program ──

/// The methods of a contract, in order.
pub open spec fn method_fns(members: Seq<ContractMember>) -> Seq<FnDecl>
    decreases members.len(),
{
    if members.len() == 0 {
        Seq::empty()
    } else {
        let rest = method_fns(members.drop_last());
        match members.last() {
            ContractMember::Method(m) => rest.push(m),
            _ => rest,
        }
    }
}

/// The functions of the declarations, in order: each contract's methods
/// and each free function.
pub open spec fn program_fns(decls: Seq<Declaration>) -> Seq<FnDecl>
    decreases decls.len(),
{
    if decls.len() == 0 {
        Seq::empty()
    } else {
        let rest = program_fns(decls.drop_last());
        match decls.last() {
            Declaration::Contract(c) => rest + method_fns(c.members@),
            Declaration::Function(f) => rest.push(f),
            Declaration::Enumeration(_) => rest,
        }
    }
}

/// The functions of declarations followed by one more.
pub proof fn lemma_program_fns_step(decls: Seq<Declaration>, d: Declaration)
    ensures
        program_fns(decls.push(d)) == program_fns(decls) + program_fns(seq![d]),
{
    assert(decls.push(d).drop_last() =~= decls);
    assert(seq![d].drop_last() =~= Seq::<Declaration>::empty());
    assert(decls.push(d).last() == d);
    assert(seq![d].last() == d);
    let e = Seq::<FnDecl>::empty();
    assert(program_fns(Seq::<Declaration>::empty()) == e);
    match d {
        Declaration::Contract(c) => {
            assert(e + method_fns(c.members@) =~= method_fns(c.members@));
        },
        Declaration::Function(f) => {
            assert(program_fns(decls).push(f) =~= program_fns(decls) + e.push(f));
        },
        Declaration::Enumeration(_) => {
            assert(program_fns(decls) =~= program_fns(decls) + e);
        },
    }
}

/// The functions of a single declaration.
pub proof fn lemma_program_fns_one(d: Declaration)
    ensures
        program_fns(seq![d]) == match d {
            Declaration::Contract(c) => method_fns(c.members@),
            Declaration::Function(f) => seq![f],
            Declaration::Enumeration(_) => Seq::<FnDecl>::empty(),
        },
{
    let one = seq![d];
    assert(one.drop_last() =~= Seq::<Declaration>::empty());
    assert(one.last() == d);
    let e = Seq::<FnDecl>::empty();
    assert(program_fns(Seq::<Declaration>::empty()) == e);
    match d {
        Declaration::Contract(c) => {
            assert(e + method_fns(c.members@) =~= method_fns(c.members@));
        },
        Declaration::Function(f) => {
            assert(e.push(f) =~= seq![f]);
        },
        Declaration::Enumeration(_) => {},
    }
}

} // verus!
