use vstd::prelude::*;
use crate::ast::{
    Program, Declaration, ContractDecl, ContractMember, FieldDecl, FnDecl, Param, TypeExpr, Stmt, MatchArm,
    MatchPattern, Expr, BinOp, UnaryOp, NamedArg, ErrorHandler, method_fns, program_fns, lemma_program_fns_one, lemma_program_fns_step,
};
use crate::token::Span;
use crate::types::{ChronosType, type_of_name, same_type, type_text, assignable};
use crate::symbol_table::{
    Symbol, SymbolKind, FunctionSignature, ContractInfo, ScopeType, Scope, SymbolTable, lookup_in_scopes,
    scope_defining, marked_used,
};
use crate::keyed::{keyed_get, find_keyed, lemma_find_keyed_range, lemma_find_keyed_same_keys, Keyed};
use crate::semantic_error::SemanticError;
use crate::text::{str_eq, owned};
use vstd::string::StringExecFns;

verus! {

broadcast use vstd::std_specs::vec::group_vec_axioms;

// ── What the analyzer computes, stated over the syntax tree ──

/// Names that need no declaration: the library's built-in values, types
/// and functions.
pub open spec fn known_builtin(name: Seq<char>) -> bool {
    ||| name == "StdOut"@
    ||| name == "StdErr"@
    ||| name == "StdIn"@
    ||| name == "Encoding"@
    ||| name == "LineEnding"@
    ||| name == "Allocator"@
    ||| name == "HeapRegion"@
    ||| name == "Lifetime"@
    ||| name == "Duration"@
    ||| name == "ThreadPriority"@
    ||| name == "Range"@
    ||| name == "USize"@
    ||| name == "Checked"@
    ||| name == "panic"@
    ||| name == "assert"@
    ||| name == "StreamWriter"@
    ||| name == "StreamReader"@
    ||| name == "BufferMode"@
    ||| name == "Borrow"@
    ||| name == "Tuple"@
    ||| name == "ExitCode"@
    ||| name == "Vector"@
    ||| name == "Result"@
    ||| name == "Optional"@
    ||| name == "Bool"@
    ||| name == "Closure"@
    ||| name == "CaptureMode"@
    ||| name == "String"@
    ||| name == "Mutex"@
    ||| name == "MutexPolicy"@
    ||| name == "Thread"@
    ||| name == "Channel"@
    ||| name == "TcpStream"@
}

/// The library's built-in names: its standard streams and the values,
/// types and functions that every program can use without declaring them.
pub open spec fn builtin_names() -> Set<Seq<char>> {
    set![
        "StdOut"@,
        "StdErr"@,
        "StdIn"@,
        "Encoding"@,
        "LineEnding"@,
        "Allocator"@,
        "HeapRegion"@,
        "Lifetime"@,
        "Duration"@,
        "ThreadPriority"@,
        "Range"@,
        "USize"@,
        "Checked"@,
        "panic"@,
        "assert"@,
        "StreamWriter"@,
        "StreamReader"@,
        "BufferMode"@,
        "Borrow"@,
        "Tuple"@,
        "ExitCode"@,
        "Vector"@,
        "Result"@,
        "Optional"@,
        "Bool"@,
        "Closure"@,
        "CaptureMode"@,
        "String"@,
        "Mutex"@,
        "MutexPolicy"@,
        "Thread"@,
        "Channel"@,
        "TcpStream"@,
    ]
}

/// `t` is the type that the type expression `te` denotes: built-in names
/// give built-in types (other names stay unresolved), `Result<T, E>`,
/// `Optional<T>` and `Tuple<...>` give their own types, other generic names
/// a generic type, and references, tuples and closures their parts resolved.
pub open spec fn resolves_to(te: TypeExpr, t: ChronosType) -> bool
    decreases te,
{
    match te {
        TypeExpr::Named(n, _) => if type_of_name(n@) is Unresolved {
            t is Unresolved && t->Unresolved_0@ == n@
        } else {
            t == type_of_name(n@)
        },
        TypeExpr::Generic { base, type_args, .. } => if base@ == "Result"@ && type_args@.len() == 2 {
            t matches ChronosType::Result { ok_type, err_type } && resolves_all(type_args@, seq![*ok_type, *err_type])
        } else if base@ == "Optional"@ && type_args@.len() == 1 {
            t matches ChronosType::Optional { inner } && resolves_all(type_args@, seq![*inner])
        } else if base@ == "Tuple"@ {
            t matches ChronosType::Tuple { elements } && resolves_all(type_args@, elements@)
        } else {
            t matches ChronosType::Generic { base: b, type_args: args } && b == base && resolves_all(type_args@, args@)
        },
        TypeExpr::Reference { mutable, inner, .. } => t matches ChronosType::Reference { mutable: m, inner: i }
            && m == mutable && resolves_to(*inner, *i),
        TypeExpr::Tuple { elements, .. } => t matches ChronosType::Tuple { elements: es } && resolves_all(elements@, es@),
        TypeExpr::Closure { params, return_type, .. } => t matches ChronosType::Closure { params: ps, return_type: r }
            && resolves_all(params@, ps@) && resolves_to(*return_type, *r),
        TypeExpr::SelfType(_) => t is SelfType,
    }
}

/// Each type expression of `tes` resolves to the type at the same position
/// of `ts`.
pub open spec fn resolves_all(tes: Seq<TypeExpr>, ts: Seq<ChronosType>) -> bool
    decreases tes,
{
    if tes.len() != ts.len() {
        false
    } else if tes.len() == 0 {
        true
    } else {
        resolves_all(tes.drop_last(), ts.drop_last()) && resolves_to(tes.last(), ts.last())
    }
}

/// The type of an integer literal with the given suffix (`Int64` without
/// one; `Error` for an unknown suffix).
pub open spec fn int_literal_type(suffix: Option<String>) -> ChronosType {
    match suffix {
        None => ChronosType::Int64,
        Some(s) => if s@ == "i8"@ {
            ChronosType::Int8
        } else if s@ == "i16"@ {
            ChronosType::Int16
        } else if s@ == "i32"@ {
            ChronosType::Int32
        } else if s@ == "i64"@ {
            ChronosType::Int64
        } else if s@ == "u8"@ {
            ChronosType::UInt8
        } else if s@ == "u16"@ {
            ChronosType::UInt16
        } else if s@ == "u32"@ {
            ChronosType::UInt32
        } else if s@ == "u64"@ {
            ChronosType::UInt64
        } else {
            ChronosType::Error
        },
    }
}

/// The type of a floating-point literal with the given suffix (`Float64`
/// without one; `Error` for an unknown suffix).
pub open spec fn float_literal_type(suffix: Option<String>) -> ChronosType {
    match suffix {
        None => ChronosType::Float64,
        Some(s) => if s@ == "f32"@ {
            ChronosType::Float32
        } else if s@ == "f64"@ {
            ChronosType::Float64
        } else {
            ChronosType::Error
        },
    }
}

/// The parts joined with `::`.
pub open spec fn joined(parts: Seq<String>) -> Seq<char>
    decreases parts.len(),
{
    if parts.len() == 0 {
        Seq::empty()
    } else if parts.len() == 1 {
        parts[0]@
    } else {
        joined(parts.drop_last()) + "::"@ + parts.last()@
    }
}

/// Operators whose result is a truth value.
pub open spec fn yields_bool(op: BinOp) -> bool {
    !(op is Add || op is Sub || op is Mul || op is Div || op is Mod)
}

/// What dereferencing a value of type `t` gives: the referenced type, or
/// `t` itself when it is no reference.
pub open spec fn deref_type(t: ChronosType) -> ChronosType {
    match t {
        ChronosType::Reference { inner, .. } => *inner,
        _ => t,
    }
}

/// `t` is the type inferred for `e`, in the scopes `scopes` and with the
/// contracts `contracts` registered. A variable has the type it was
/// declared with; a path starting with a contract's name has that
/// contract's type; calls and unknown forms stay unresolved.
pub open spec fn infers(scopes: Seq<Scope>, contracts: Seq<ContractInfo>, e: Expr, t: ChronosType) -> bool
    decreases e,
{
    match e {
        Expr::IntLiteral { suffix, .. } => t == int_literal_type(suffix),
        Expr::FloatLiteral { suffix, .. } => t == float_literal_type(suffix),
        Expr::StringLiteral { .. } => t is StringType,
        Expr::CharLiteral { .. } => t is Char,
        Expr::BoolLiteral { .. } => t is Bool,
        Expr::Identifier { name, .. } => match lookup_in_scopes(scopes, name@) {
            Some(sym) => same_type(t, sym.symbol_type),
            None => t is Unresolved && t->Unresolved_0@ == name@,
        },
        Expr::PathExpr { segments, .. } => if segments@.len() == 0 {
            t is Error
        } else if keyed_get(contracts, segments@[0]@) is Some {
            t is Contract && t->Contract_0@ == segments@[0]@
        } else {
            t is Unresolved && t->Unresolved_0@ == joined(segments@)
        },
        Expr::Binary { left, op, .. } => if yields_bool(op) {
            t is Bool
        } else {
            infers(scopes, contracts, *left, t)
        },
        Expr::Unary { op, operand, .. } => match op {
            UnaryOp::Not => t is Bool,
            UnaryOp::Ref => t matches ChronosType::Reference { mutable, inner } && !mutable && infers(
                scopes,
                contracts,
                *operand,
                *inner,
            ),
            UnaryOp::RefMut => t matches ChronosType::Reference { mutable, inner } && mutable && infers(
                scopes,
                contracts,
                *operand,
                *inner,
            ),
            UnaryOp::Deref => exists|u: ChronosType|
                #![trigger deref_type(u)]
                infers(scopes, contracts, *operand, u) && t == deref_type(u),
            UnaryOp::Negate => infers(scopes, contracts, *operand, t),
        },
        Expr::MethodCall { .. } => t is Unresolved && t->Unresolved_0@ == "method_return"@,
        Expr::FnCall { .. } => t is Unresolved && t->Unresolved_0@ == "fn_return"@,
        Expr::Grouped { inner, .. } => infers(scopes, contracts, *inner, t),
        Expr::SelfValue { .. } => t is SelfType,
        _ => t is Unresolved && t->Unresolved_0@ == "unknown"@,
    }
}

/// Every path through the block ends in `return`: its last statement does.
pub open spec fn block_returns(b: Seq<Stmt>) -> bool
    decreases b,
{
    if b.len() == 0 {
        false
    } else {
        stmt_returns(b.last())
    }
}

/// `return` returns; an `if` returns when all its branches return and it
/// has an `else`; a `match` returns when it has arms, all return, and one
/// is `default`; nothing else does.
pub open spec fn stmt_returns(s: Stmt) -> bool
    decreases s,
{
    match s {
        Stmt::Return { .. } => true,
        Stmt::If { then_block, else_if_blocks, else_block, .. } => {
            &&& block_returns(then_block@)
            &&& branches_return(else_if_blocks@)
            &&& match else_block {
                Some(b) => block_returns(b@),
                None => false,
            }
        },
        Stmt::Match { arms, .. } => {
            &&& arms@.len() > 0
            &&& arms_return(arms@)
            &&& exists|i: int| 0 <= i < arms@.len() && (#[trigger] arms@[i]).pattern is Default
        },
        _ => false,
    }
}

/// Every `else if` block returns.
pub open spec fn branches_return(bs: Seq<(Expr, Vec<Stmt>)>) -> bool
    decreases bs,
{
    if bs.len() == 0 {
        true
    } else {
        branches_return(bs.drop_last()) && block_returns(bs.last().1@)
    }
}

/// Every arm's body returns.
pub open spec fn arms_return(arms: Seq<MatchArm>) -> bool
    decreases arms,
{
    if arms.len() == 0 {
        true
    } else {
        arms_return(arms.drop_last()) && block_returns(arms.last().body@)
    }
}

/// The type of an integer literal with the given suffix.
fn int_suffix_type(suffix: &Option<String>) -> (t: ChronosType)
    ensures
        t == int_literal_type(*suffix),
{
    match suffix {
        None => ChronosType::Int64,
        Some(s) => {
            let s = s.as_str();
            if str_eq(s, "i8") {
                ChronosType::Int8
            } else if str_eq(s, "i16") {
                ChronosType::Int16
            } else if str_eq(s, "i32") {
                ChronosType::Int32
            } else if str_eq(s, "i64") {
                ChronosType::Int64
            } else if str_eq(s, "u8") {
                ChronosType::UInt8
            } else if str_eq(s, "u16") {
                ChronosType::UInt16
            } else if str_eq(s, "u32") {
                ChronosType::UInt32
            } else if str_eq(s, "u64") {
                ChronosType::UInt64
            } else {
                ChronosType::Error
            }
        },
    }
}

/// The type of a floating-point literal with the given suffix.
fn float_suffix_type(suffix: &Option<String>) -> (t: ChronosType)
    ensures
        t == float_literal_type(*suffix),
{
    match suffix {
        None => ChronosType::Float64,
        Some(s) => {
            let s = s.as_str();
            if str_eq(s, "f32") {
                ChronosType::Float32
            } else if str_eq(s, "f64") {
                ChronosType::Float64
            } else {
                ChronosType::Error
            }
        },
    }
}

// ── What checking an expression reports ──

/// The operators that compute a number (whose left operand must be numeric).
pub open spec fn arithmetic(op: BinOp) -> bool {
    op is Add || op is Sub || op is Mul || op is Div || op is Mod
}

/// A type that an arithmetic operand may have without a report: a numeric
/// type, or one not known (an error, or not yet resolved).
pub open spec fn operand_accepted(t: ChronosType) -> bool {
    t.spec_is_numeric() || t is Error || t is Unresolved
}

/// The report for the operator `op` between `left` and `right`: an
/// arithmetic operator whose left operand has a type that is not accepted
/// is reported with the operator's symbol and the texts of both operand
/// types; otherwise nothing.
pub open spec fn operator_reports(
    scopes: Seq<Scope>,
    contracts: Seq<ContractInfo>,
    left: Expr,
    right: Expr,
    op: BinOp,
    span: Span,
    es: Seq<SemanticError>,
) -> bool {
    exists|lt: ChronosType, rt: ChronosType|
        #![trigger infers(scopes, contracts, left, lt), infers(scopes, contracts, right, rt)]
        infers(scopes, contracts, left, lt) && infers(scopes, contracts, right, rt) && if arithmetic(op)
            && !operand_accepted(lt) {
            es.len() == 1 && (es[0] matches SemanticError::InvalidOperator { op: o, left: l, right: r, span: sp } && o@
                == binop_text(op) && l@ == type_text(lt) && r@ == type_text(rt) && sp == span)
        } else {
            es.len() == 0
        }
}

/// `es` are the reports, in order, that checking the expression `e` gives
/// in the scopes `scopes` with the contracts `contracts` registered: a name
/// that is neither declared nor built in is undefined; the operands of an
/// operator are checked left to right, then the operator; the object or
/// callee of a call before its arguments; a field value, an operand, an
/// inner expression as such. An error handler reports, after the guarded
/// expression, what its block reports when analysed in a new block scope
/// (over the scopes as checking left them, which differ only in `used`
/// flags) that holds the handler's parameter.
pub open spec fn expr_reports(scopes: Seq<Scope>, contracts: Seq<ContractInfo>, e: Expr, es: Seq<SemanticError>) -> bool
    decreases e, 1nat,
{
    match e {
        Expr::Identifier { name, span } => es == if lookup_in_scopes(scopes, name@) is None && !known_builtin(name@) {
            seq![SemanticError::UndefinedVariable { name, span }]
        } else {
            Seq::<SemanticError>::empty()
        },
        Expr::Binary { left, op, right, span } => exists|k: int, m: int|
            #![trigger es.take(k), es.subrange(k, m)]
            {
                &&& 0 <= k <= m <= es.len()
                &&& expr_reports(scopes, contracts, *left, es.take(k))
                &&& expr_reports(scopes, contracts, *right, es.subrange(k, m))
                &&& operator_reports(scopes, contracts, *left, *right, op, span, es.skip(m))
            },
        Expr::Unary { operand, .. } => expr_reports(scopes, contracts, *operand, es),
        Expr::MethodCall { object, args, .. } => exists|k: int|
            #![trigger es.take(k)]
            0 <= k <= es.len() && expr_reports(scopes, contracts, *object, es.take(k)) && args_reports(
                scopes,
                contracts,
                args@,
                es.skip(k),
            ),
        Expr::FnCall { callee, args, .. } => exists|k: int|
            #![trigger es.take(k)]
            0 <= k <= es.len() && expr_reports(scopes, contracts, *callee, es.take(k)) && args_reports(
                scopes,
                contracts,
                args@,
                es.skip(k),
            ),
        Expr::FieldAccess { object, .. } => expr_reports(scopes, contracts, *object, es),
        Expr::Grouped { inner, .. } => expr_reports(scopes, contracts, *inner, es),
        Expr::StructInit { fields, .. } => fields_reports(scopes, contracts, fields@, es),
        Expr::WithErrorHandler { expr, handler, .. } => exists|
            k: int,
            s1: Seq<Scope>,
            u0: Seq<Scope>,
            u1: Seq<Scope>,
            u2: Seq<Scope>,
        |
            #![trigger es.take(k), same_but_used(scopes, s1), opened(s1, ScopeType::Block, u0), handler_defined(u0, handler, u1), same_depth(u1, u2)]
            {
                &&& 0 <= k <= es.len()
                &&& expr_reports(scopes, contracts, *expr, es.take(k))
                &&& same_but_used(scopes, s1)
                &&& opened(s1, ScopeType::Block, u0)
                &&& handler_defined(u0, handler, u1)
                &&& same_depth(u1, u2)
                &&& block_reports(u1, contracts, handler.body@, es.skip(k), u2)
            },
        _ => es.len() == 0,
    }
}

/// The scopes `a` and `b` differ at most in `used` flags.
pub open spec fn same_but_used(a: Seq<Scope>, b: Seq<Scope>) -> bool {
    &&& a.len() == b.len()
    &&& forall|i: int|
        0 <= i < a.len() ==> (#[trigger] a[i]).scope_type == b[i].scope_type && a[i].symbols@.len()
            == b[i].symbols@.len()
    &&& forall|i: int, j: int|
        0 <= i < a.len() && 0 <= j < a[i].symbols@.len() ==> marked_used(#[trigger] a[i].symbols@[j])
            == marked_used(#[trigger] b[i].symbols@[j])
}

/// `u1` is `u0` with the parameter of the error handler `h` defined in the
/// innermost scope: its name, an unresolved type `Error`, not mutable,
/// initialized, unused, at the handler's position; every other name is
/// found there as before.
pub open spec fn handler_defined(u0: Seq<Scope>, h: ErrorHandler, u1: Seq<Scope>) -> bool {
    &&& u0.len() > 0
    &&& u1.len() == u0.len()
    &&& u1.drop_last() == u0.drop_last()
    &&& u1.last().scope_type == u0.last().scope_type
    &&& keyed_get(u1.last().symbols@, h.param@) matches Some(p) && {
        &&& p.name == h.param
        &&& p.symbol_type matches ChronosType::Unresolved(n) && n@ == "Error"@
        &&& p.kind == SymbolKind::Parameter
        &&& !p.mutable
        &&& p.initialized
        &&& !p.used
        &&& p.line == h.span.line
        &&& p.column == h.span.column
    }
    &&& forall|k: Seq<char>| k != h.param@ ==> #[trigger] keyed_get(u1.last().symbols@, k) == keyed_get(u0.last().symbols@, k)
}

/// `es` are the reports of the argument values, in order.
pub open spec fn args_reports(scopes: Seq<Scope>, contracts: Seq<ContractInfo>, args: Seq<NamedArg>, es: Seq<SemanticError>) -> bool
    decreases args, 0nat,
{
    if args.len() == 0 {
        es.len() == 0
    } else {
        exists|k: int|
            #![trigger es.take(k)]
            0 <= k <= es.len() && args_reports(scopes, contracts, args.drop_last(), es.take(k)) && expr_reports(
                scopes,
                contracts,
                args.last().value,
                es.skip(k),
            )
    }
}

/// `es` are the reports of the field values, in order.
pub open spec fn fields_reports(
    scopes: Seq<Scope>,
    contracts: Seq<ContractInfo>,
    fields: Seq<(String, Expr)>,
    es: Seq<SemanticError>,
) -> bool
    decreases fields, 0nat,
{
    if fields.len() == 0 {
        es.len() == 0
    } else {
        exists|k: int|
            #![trigger es.take(k)]
            0 <= k <= es.len() && fields_reports(scopes, contracts, fields.drop_last(), es.take(k)) && expr_reports(
                scopes,
                contracts,
                fields.last().1,
                es.skip(k),
            )
    }
}

/// After only `used` flags were set, a name is found exactly where it was,
/// with the same type and mutability.
proof fn lemma_lookup_marked(a: Seq<Scope>, b: Seq<Scope>, name: Seq<char>)
    requires
        only_marked(a, b),
    ensures
        lookup_in_scopes(a, name) is None <==> lookup_in_scopes(b, name) is None,
        lookup_in_scopes(a, name) matches Some(s) ==> (lookup_in_scopes(b, name) matches Some(t) && t.symbol_type
            == s.symbol_type && t.mutable == s.mutable),
    decreases a.len(),
{
    if a.len() > 0 {
        let n = a.len() - 1;
        assert(marked_scope(a[n], b[n]));
        lemma_marked_scope_keys(a.last(), b.last(), name);
        assert(only_marked(a.drop_last(), b.drop_last())) by {
            assert forall|i: int| 0 <= i < a.drop_last().len() implies marked_scope(
                #[trigger] a.drop_last()[i],
                b.drop_last()[i],
            ) by {
                assert(marked_scope(a[i], b[i]));
            }
        }
        lemma_lookup_marked(a.drop_last(), b.drop_last(), name);
        if keyed_get(a.last().symbols@, name) is Some {
            lemma_marked_scope_get(a.last(), b.last(), name);
        }
    }
}

/// Inference sees the same types after only `used` flags were set.
proof fn lemma_infers_marked(a: Seq<Scope>, b: Seq<Scope>, c: Seq<ContractInfo>, e: Expr, t: ChronosType)
    requires
        only_marked(a, b),
    ensures
        infers(a, c, e, t) <==> infers(b, c, e, t),
    decreases e,
{
    match e {
        Expr::Identifier { name, .. } => {
            lemma_lookup_marked(a, b, name@);
        },
        Expr::Binary { left, op, .. } => {
            lemma_infers_marked(a, b, c, *left, t);
        },
        Expr::Unary { op, operand, .. } => {
            match op {
                UnaryOp::Ref | UnaryOp::RefMut => {
                    if t is Reference {
                        lemma_infers_marked(a, b, c, *operand, *t->Reference_inner);
                    }
                },
                UnaryOp::Deref => {
                    if infers(a, c, e, t) {
                        let u = choose|u: ChronosType| #![trigger deref_type(u)] infers(a, c, *operand, u) && t == deref_type(u);
                        lemma_infers_marked(a, b, c, *operand, u);
                    }
                    if infers(b, c, e, t) {
                        let u = choose|u: ChronosType| #![trigger deref_type(u)] infers(b, c, *operand, u) && t == deref_type(u);
                        lemma_infers_marked(a, b, c, *operand, u);
                    }
                },
                UnaryOp::Negate => {
                    lemma_infers_marked(a, b, c, *operand, t);
                },
                _ => {},
            }
        },
        Expr::Grouped { inner, .. } => {
            lemma_infers_marked(a, b, c, *inner, t);
        },
        _ => {},
    }
}

/// The operator's report is the same after only `used` flags were set.
proof fn lemma_operator_marked(
    a: Seq<Scope>,
    b: Seq<Scope>,
    c: Seq<ContractInfo>,
    left: Expr,
    right: Expr,
    op: BinOp,
    span: Span,
    es: Seq<SemanticError>,
)
    requires
        only_marked(a, b),
    ensures
        operator_reports(a, c, left, right, op, span, es) <==> operator_reports(b, c, left, right, op, span, es),
{
    if operator_reports(a, c, left, right, op, span, es) {
        let (lt, rt) = choose|lt: ChronosType, rt: ChronosType|
            #![trigger infers(a, c, left, lt), infers(a, c, right, rt)]
            infers(a, c, left, lt) && infers(a, c, right, rt) && if arithmetic(op) && !operand_accepted(lt) {
                es.len() == 1 && (es[0] matches SemanticError::InvalidOperator { op: o, left: l, right: r, span: sp }
                    && o@ == binop_text(op) && l@ == type_text(lt) && r@ == type_text(rt) && sp == span)
            } else {
                es.len() == 0
            };
        lemma_infers_marked(a, b, c, left, lt);
        lemma_infers_marked(a, b, c, right, rt);
    }
    if operator_reports(b, c, left, right, op, span, es) {
        let (lt, rt) = choose|lt: ChronosType, rt: ChronosType|
            #![trigger infers(b, c, left, lt), infers(b, c, right, rt)]
            infers(b, c, left, lt) && infers(b, c, right, rt) && if arithmetic(op) && !operand_accepted(lt) {
                es.len() == 1 && (es[0] matches SemanticError::InvalidOperator { op: o, left: l, right: r, span: sp }
                    && o@ == binop_text(op) && l@ == type_text(lt) && r@ == type_text(rt) && sp == span)
            } else {
                es.len() == 0
            };
        lemma_infers_marked(a, b, c, left, lt);
        lemma_infers_marked(a, b, c, right, rt);
    }
}

/// Setting `used` flags keeps scopes the same but for those flags.
proof fn lemma_marked_same(a: Seq<Scope>, b: Seq<Scope>)
    requires
        only_marked(a, b),
    ensures
        same_but_used(a, b),
{
    assert forall|i: int| 0 <= i < a.len() implies (#[trigger] a[i]).scope_type == b[i].scope_type && a[i].symbols@.len()
        == b[i].symbols@.len() by {
        assert(marked_scope(a[i], b[i]));
    }
    assert forall|i: int, j: int| 0 <= i < a.len() && 0 <= j < a[i].symbols@.len() implies marked_used(
        #[trigger] a[i].symbols@[j],
    ) == marked_used(#[trigger] b[i].symbols@[j]) by {
        assert(marked_scope(a[i], b[i]));
        let x = a[i].symbols@[j];
        assert(marked_used(marked_used(x)) == marked_used(x));
    }
}

/// `same_but_used` is symmetric.
proof fn lemma_same_but_used_sym(a: Seq<Scope>, b: Seq<Scope>)
    requires
        same_but_used(a, b),
    ensures
        same_but_used(b, a),
{
    assert forall|i: int, j: int| 0 <= i < b.len() && 0 <= j < b[i].symbols@.len() implies marked_used(
        #[trigger] b[i].symbols@[j],
    ) == marked_used(#[trigger] a[i].symbols@[j]) by {
        assert(a[i].symbols@.len() == b[i].symbols@.len());
    }
}

/// Scopes the same but for `used` flags as two others that are so with each
/// other are so with both.
proof fn lemma_same_but_used_trans(a: Seq<Scope>, b: Seq<Scope>, c: Seq<Scope>)
    requires
        same_but_used(a, b),
        same_but_used(a, c),
    ensures
        same_but_used(b, c),
{
    assert forall|i: int| 0 <= i < b.len() implies (#[trigger] b[i]).scope_type == c[i].scope_type && b[i].symbols@.len()
        == c[i].symbols@.len() by {
        assert(a[i].scope_type == b[i].scope_type);
        assert(a[i].scope_type == c[i].scope_type);
    }
    assert forall|i: int, j: int| 0 <= i < b.len() && 0 <= j < b[i].symbols@.len() implies marked_used(
        #[trigger] b[i].symbols@[j],
    ) == marked_used(#[trigger] c[i].symbols@[j]) by {
        assert(a[i].symbols@.len() == b[i].symbols@.len());
        assert(marked_used(a[i].symbols@[j]) == marked_used(b[i].symbols@[j]));
        assert(marked_used(a[i].symbols@[j]) == marked_used(c[i].symbols@[j]));
    }
}

/// Checking an expression reports the same after only `used` flags were
/// set.
#[verifier::spinoff_prover]
proof fn lemma_reports_marked(a: Seq<Scope>, b: Seq<Scope>, c: Seq<ContractInfo>, e: Expr, es: Seq<SemanticError>)
    requires
        only_marked(a, b),
    ensures
        expr_reports(a, c, e, es) <==> expr_reports(b, c, e, es),
    decreases e, 1nat,
{
    match e {
        Expr::Identifier { name, .. } => {
            lemma_lookup_marked(a, b, name@);
        },
        Expr::Binary { left, op, right, span } => {
            if expr_reports(a, c, e, es) {
                let (k, m) = choose|k: int, m: int|
                    #![trigger es.take(k), es.subrange(k, m)]
                    {
                        &&& 0 <= k <= m <= es.len()
                        &&& expr_reports(a, c, *left, es.take(k))
                        &&& expr_reports(a, c, *right, es.subrange(k, m))
                        &&& operator_reports(a, c, *left, *right, op, span, es.skip(m))
                    };
                lemma_reports_marked(a, b, c, *left, es.take(k));
                lemma_reports_marked(a, b, c, *right, es.subrange(k, m));
                lemma_operator_marked(a, b, c, *left, *right, op, span, es.skip(m));
            }
            if expr_reports(b, c, e, es) {
                let (k, m) = choose|k: int, m: int|
                    #![trigger es.take(k), es.subrange(k, m)]
                    {
                        &&& 0 <= k <= m <= es.len()
                        &&& expr_reports(b, c, *left, es.take(k))
                        &&& expr_reports(b, c, *right, es.subrange(k, m))
                        &&& operator_reports(b, c, *left, *right, op, span, es.skip(m))
                    };
                lemma_reports_marked(a, b, c, *left, es.take(k));
                lemma_reports_marked(a, b, c, *right, es.subrange(k, m));
                lemma_operator_marked(a, b, c, *left, *right, op, span, es.skip(m));
            }
        },
        Expr::Unary { operand, .. } => {
            lemma_reports_marked(a, b, c, *operand, es);
        },
        Expr::MethodCall { object, args, .. } => {
            if expr_reports(a, c, e, es) {
                let k = choose|k: int| #![trigger es.take(k)] 0 <= k <= es.len() && expr_reports(a, c, *object, es.take(k))
                    && args_reports(a, c, args@, es.skip(k));
                lemma_reports_marked(a, b, c, *object, es.take(k));
                lemma_args_marked(a, b, c, args@, es.skip(k));
            }
            if expr_reports(b, c, e, es) {
                let k = choose|k: int| #![trigger es.take(k)] 0 <= k <= es.len() && expr_reports(b, c, *object, es.take(k))
                    && args_reports(b, c, args@, es.skip(k));
                lemma_reports_marked(a, b, c, *object, es.take(k));
                lemma_args_marked(a, b, c, args@, es.skip(k));
            }
        },
        Expr::FnCall { callee, args, .. } => {
            if expr_reports(a, c, e, es) {
                let k = choose|k: int| #![trigger es.take(k)] 0 <= k <= es.len() && expr_reports(a, c, *callee, es.take(k))
                    && args_reports(a, c, args@, es.skip(k));
                lemma_reports_marked(a, b, c, *callee, es.take(k));
                lemma_args_marked(a, b, c, args@, es.skip(k));
            }
            if expr_reports(b, c, e, es) {
                let k = choose|k: int| #![trigger es.take(k)] 0 <= k <= es.len() && expr_reports(b, c, *callee, es.take(k))
                    && args_reports(b, c, args@, es.skip(k));
                lemma_reports_marked(a, b, c, *callee, es.take(k));
                lemma_args_marked(a, b, c, args@, es.skip(k));
            }
        },
        Expr::FieldAccess { object, .. } => {
            lemma_reports_marked(a, b, c, *object, es);
        },
        Expr::Grouped { inner, .. } => {
            lemma_reports_marked(a, b, c, *inner, es);
        },
        Expr::StructInit { fields, .. } => {
            lemma_fields_marked(a, b, c, fields@, es);
        },
        Expr::WithErrorHandler { expr: inner, handler, .. } => {
            lemma_marked_same(a, b);
            if expr_reports(a, c, e, es) {
                let (k, s1, u0, u1, u2) = choose|k: int, s1: Seq<Scope>, u0: Seq<Scope>, u1: Seq<Scope>, u2: Seq<Scope>|
                    #![trigger es.take(k), same_but_used(a, s1), opened(s1, ScopeType::Block, u0), handler_defined(u0, handler, u1), same_depth(u1, u2)]
                    {
                        &&& 0 <= k <= es.len()
                        &&& expr_reports(a, c, *inner, es.take(k))
                        &&& same_but_used(a, s1)
                        &&& opened(s1, ScopeType::Block, u0)
                        &&& handler_defined(u0, handler, u1)
                        &&& same_depth(u1, u2)
                        &&& block_reports(u1, c, handler.body@, es.skip(k), u2)
                    };
                lemma_reports_marked(a, b, c, *inner, es.take(k));
                lemma_same_but_used_trans(a, b, s1);
            }
            if expr_reports(b, c, e, es) {
                let (k, s1, u0, u1, u2) = choose|k: int, s1: Seq<Scope>, u0: Seq<Scope>, u1: Seq<Scope>, u2: Seq<Scope>|
                    #![trigger es.take(k), same_but_used(b, s1), opened(s1, ScopeType::Block, u0), handler_defined(u0, handler, u1), same_depth(u1, u2)]
                    {
                        &&& 0 <= k <= es.len()
                        &&& expr_reports(b, c, *inner, es.take(k))
                        &&& same_but_used(b, s1)
                        &&& opened(s1, ScopeType::Block, u0)
                        &&& handler_defined(u0, handler, u1)
                        &&& same_depth(u1, u2)
                        &&& block_reports(u1, c, handler.body@, es.skip(k), u2)
                    };
                lemma_reports_marked(a, b, c, *inner, es.take(k));
                lemma_same_but_used_sym(a, b);
                lemma_same_but_used_trans(b, a, s1);
            }
        },
        _ => {},
    }
}

/// As `lemma_reports_marked`, for argument values.
proof fn lemma_args_marked(a: Seq<Scope>, b: Seq<Scope>, c: Seq<ContractInfo>, args: Seq<NamedArg>, es: Seq<SemanticError>)
    requires
        only_marked(a, b),
    ensures
        args_reports(a, c, args, es) <==> args_reports(b, c, args, es),
    decreases args, 0nat,
{
    if args.len() > 0 {
        if args_reports(a, c, args, es) {
            let k = choose|k: int| #![trigger es.take(k)] 0 <= k <= es.len() && args_reports(a, c, args.drop_last(), es.take(k))
                && expr_reports(a, c, args.last().value, es.skip(k));
            lemma_args_marked(a, b, c, args.drop_last(), es.take(k));
            lemma_reports_marked(a, b, c, args.last().value, es.skip(k));
        }
        if args_reports(b, c, args, es) {
            let k = choose|k: int| #![trigger es.take(k)] 0 <= k <= es.len() && args_reports(b, c, args.drop_last(), es.take(k))
                && expr_reports(b, c, args.last().value, es.skip(k));
            lemma_args_marked(a, b, c, args.drop_last(), es.take(k));
            lemma_reports_marked(a, b, c, args.last().value, es.skip(k));
        }
    }
}

/// As `lemma_reports_marked`, for field values.
proof fn lemma_fields_marked(
    a: Seq<Scope>,
    b: Seq<Scope>,
    c: Seq<ContractInfo>,
    fields: Seq<(String, Expr)>,
    es: Seq<SemanticError>,
)
    requires
        only_marked(a, b),
    ensures
        fields_reports(a, c, fields, es) <==> fields_reports(b, c, fields, es),
    decreases fields, 0nat,
{
    if fields.len() > 0 {
        if fields_reports(a, c, fields, es) {
            let k = choose|k: int| #![trigger es.take(k)] 0 <= k <= es.len() && fields_reports(a, c, fields.drop_last(), es.take(k))
                && expr_reports(a, c, fields.last().1, es.skip(k));
            lemma_fields_marked(a, b, c, fields.drop_last(), es.take(k));
            lemma_reports_marked(a, b, c, fields.last().1, es.skip(k));
        }
        if fields_reports(b, c, fields, es) {
            let k = choose|k: int| #![trigger es.take(k)] 0 <= k <= es.len() && fields_reports(b, c, fields.drop_last(), es.take(k))
                && expr_reports(b, c, fields.last().1, es.skip(k));
            lemma_fields_marked(a, b, c, fields.drop_last(), es.take(k));
            lemma_reports_marked(a, b, c, fields.last().1, es.skip(k));
        }
    }
}

/// Errors appended after errors appended: the first additions stay in
/// place.
proof fn lemma_appends_prefix(a: Seq<SemanticError>, b: Seq<SemanticError>)
    requires
        a.len() <= b.len(),
        b.take(a.len() as int) == a,
    ensures
        forall|n: int| 0 <= n <= a.len() ==> #[trigger] b.skip(n).take(a.len() - n) == a.skip(n),
{
    assert forall|n: int| 0 <= n <= a.len() implies #[trigger] b.skip(n).take(a.len() - n) == a.skip(n) by {
        assert(b.skip(n).take(a.len() - n) =~= a.skip(n));
    }
}

/// Reports `b.skip(a.len())` appended to `a`, then more appended: the first
/// ones stand right after `a`.
proof fn lemma_condition_reports(a: Seq<SemanticError>, b: Seq<SemanticError>, c: Seq<SemanticError>)
    requires
        a.len() <= b.len() <= c.len(),
        c.take(b.len() as int) == b,
    ensures
        c.subrange(a.len() as int, b.len() as int) == b.skip(a.len() as int),
{
    assert(c.subrange(a.len() as int, b.len() as int) =~= b.skip(a.len() as int));
}

// ── What analysing statements reports ──

/// Two scope stacks of the same depth.
pub open spec fn same_depth(a: Seq<Scope>, b: Seq<Scope>) -> bool {
    a.len() == b.len()
}

/// `u` is `s` with a new innermost scope of kind `ty` and no symbols.
pub open spec fn opened(s: Seq<Scope>, ty: ScopeType, u: Seq<Scope>) -> bool {
    &&& u.len() == s.len() + 1
    &&& u.drop_last() == s
    &&& u.last().scope_type == ty
    &&& u.last().symbols@.len() == 0
}

/// `m` is `s` with a variable `name` of type `d` defined in the innermost
/// scope, at the position of `span`; every other name is found there as
/// before.
pub open spec fn defines_variable(s: Seq<Scope>, m: Seq<Scope>, name: String, d: ChronosType, mutable: bool, span: Span) -> bool {
    &&& s.len() > 0
    &&& m.len() == s.len()
    &&& m.drop_last() == s.drop_last()
    &&& m.last().scope_type == s.last().scope_type
    &&& keyed_get(m.last().symbols@, name@) == Some(
        Symbol {
            name,
            symbol_type: d,
            kind: SymbolKind::Variable,
            mutable,
            initialized: true,
            used: false,
            line: span.line,
            column: span.column,
        },
    )
    &&& forall|k: Seq<char>| k != name@ ==> #[trigger] keyed_get(m.last().symbols@, k) == keyed_get(s.last().symbols@, k)
}

/// `es` are the reports, in order, of analysing the statement `st` in the
/// scopes `s` (contracts `c` registered), after which the scopes are `t`.
/// `let` reports a name already defined in the innermost scope; otherwise it
/// reports a declared type that cannot hold the initializer's type, defines
/// the variable, and then checks the initializer. `break` and `continue`
/// outside a loop are reported; an assignment to a name that is undefined or
/// immutable is reported before its value is checked. The blocks of `guard`,
/// `if`, `while` and `match` are analysed in scopes of their own, after the
/// condition or value. Checking only ever sets `used` flags (`only_marked`).
pub open spec fn stmt_reports(s: Seq<Scope>, c: Seq<ContractInfo>, st: Stmt, es: Seq<SemanticError>, t: Seq<Scope>) -> bool
    decreases st, 2nat,
{
    match st {
        Stmt::Let { mutable, name, type_expr, initializer, span, .. } => if keyed_get(s.last().symbols@, name@) is Some {
            es == seq![SemanticError::AlreadyDeclared { name, span }] && t == s
        } else {
            exists|d: ChronosType, u: ChronosType, m: Seq<Scope>|
                #![trigger resolves_to(type_expr, d), infers(s, c, initializer, u), defines_variable(s, m, name, d, mutable, span)]
                resolves_to(type_expr, d) && infers(s, c, initializer, u) && defines_variable(s, m, name, d, mutable, span)
                    && only_marked(m, t) && if assignable(d, u) {
                    expr_reports(m, c, initializer, es)
                } else {
                    &&& es.len() > 0
                    &&& es[0] matches SemanticError::TypeMismatch { expected, found, span: sp }
                    &&& expected@ == type_text(d)
                    &&& found@ == type_text(u)
                    &&& sp == span
                    &&& expr_reports(m, c, initializer, es.skip(1))
                }
        },
        Stmt::Return { value, .. } => only_marked(s, t) && match value {
            Some(v) => expr_reports(s, c, v, es),
            None => es.len() == 0,
        },
        Stmt::Expression { expr, .. } => only_marked(s, t) && expr_reports(s, c, expr, es),
        Stmt::Assignment { target, value, span } => {
            let flagged = target matches Expr::Identifier { name, .. } && (lookup_in_scopes(s, name@) is None
                || !lookup_in_scopes(s, name@)->0.mutable);
            &&& only_marked(s, t)
            &&& if flagged {
                &&& es.len() > 0
                &&& target matches Expr::Identifier { name, .. } && es[0] == if lookup_in_scopes(s, name@) is None {
                    SemanticError::UndefinedVariable { name, span }
                } else {
                    SemanticError::ImmutableAssignment { name, span }
                }
                &&& expr_reports(s, c, value, es.skip(1))
            } else {
                expr_reports(s, c, value, es)
            }
        },
        Stmt::Break { span } => only_marked(s, t) && es == if exists|i: int|
            0 <= i < s.len() && #[trigger] s[i].scope_type is Loop {
            Seq::<SemanticError>::empty()
        } else {
            seq![SemanticError::BreakOutsideLoop { span }]
        },
        Stmt::Continue { span } => only_marked(s, t) && es == if exists|i: int|
            0 <= i < s.len() && #[trigger] s[i].scope_type is Loop {
            Seq::<SemanticError>::empty()
        } else {
            seq![SemanticError::ContinueOutsideLoop { span }]
        },
        Stmt::Guard { condition, else_block, .. } => exists|k: int, s1: Seq<Scope>|
            #![trigger es.take(k), only_marked(s, s1)]
            0 <= k <= es.len() && expr_reports(s, c, condition, es.take(k)) && only_marked(s, s1) && scoped_reports(
                s1,
                c,
                ScopeType::Block,
                else_block@,
                es.skip(k),
                t,
            ),
        Stmt::While { condition, body, .. } => exists|k: int, s1: Seq<Scope>|
            #![trigger es.take(k), only_marked(s, s1)]
            0 <= k <= es.len() && expr_reports(s, c, condition, es.take(k)) && only_marked(s, s1) && scoped_reports(
                s1,
                c,
                ScopeType::Loop,
                body@,
                es.skip(k),
                t,
            ),
        Stmt::Match { value, arms, .. } => exists|k: int, s1: Seq<Scope>|
            #![trigger es.take(k), only_marked(s, s1)]
            0 <= k <= es.len() && expr_reports(s, c, value, es.take(k)) && only_marked(s, s1) && arms_reports(
                s1,
                c,
                arms@,
                es.skip(k),
                t,
            ),
        Stmt::If { condition, then_block, else_if_blocks, else_block, .. } => exists|
            k1: int,
            k2: int,
            k3: int,
            s1: Seq<Scope>,
            s2: Seq<Scope>,
            s3: Seq<Scope>,
        |
            #![trigger es.take(k1), only_marked(s, s1), es.subrange(k1, k2), same_depth(s2, s3), es.skip(k3)]
            {
                &&& 0 <= k1 <= k2 <= k3 <= es.len()
                &&& same_depth(s2, s3)
                &&& expr_reports(s, c, condition, es.take(k1))
                &&& only_marked(s, s1)
                &&& scoped_reports(s1, c, ScopeType::Block, then_block@, es.subrange(k1, k2), s2)
                &&& elifs_reports(s2, c, else_if_blocks@, es.subrange(k2, k3), s3)
                &&& match else_block {
                    Some(b) => scoped_reports(s3, c, ScopeType::Block, b@, es.skip(k3), t),
                    None => es.skip(k3).len() == 0 && t == s3,
                }
            },
    }
}

/// `es` are the reports of analysing the block `b` in a new innermost scope
/// of kind `ty` on top of `s`; the scope is closed afterwards, leaving `t`.
pub open spec fn scoped_reports(
    s: Seq<Scope>,
    c: Seq<ContractInfo>,
    ty: ScopeType,
    b: Seq<Stmt>,
    es: Seq<SemanticError>,
    t: Seq<Scope>,
) -> bool
    decreases b, 1nat,
{
    exists|u0: Seq<Scope>, u: Seq<Scope>|
        #![trigger opened(s, ty, u0), u.drop_last()]
        opened(s, ty, u0) && u.len() > 0 && t == u.drop_last() && block_reports(u0, c, b, es, u)
}

/// `es` are the reports of analysing the statements of `b` in turn, from
/// the scopes `s` to the scopes `t`.
pub open spec fn block_reports(s: Seq<Scope>, c: Seq<ContractInfo>, b: Seq<Stmt>, es: Seq<SemanticError>, t: Seq<Scope>) -> bool
    decreases b, 0nat,
{
    if b.len() == 0 {
        es.len() == 0 && t == s
    } else {
        exists|k: int, m: Seq<Scope>|
            #![trigger es.take(k), same_depth(s, m)]
            0 <= k <= es.len() && same_depth(s, m) && block_reports(s, c, b.drop_last(), es.take(k), m) && stmt_reports(
                m,
                c,
                b.last(),
                es.skip(k),
                t,
            )
    }
}

/// `es` are the reports of the `else if` branches `bs`, each condition
/// checked and its block analysed in a scope of its own.
pub open spec fn elifs_reports(
    s: Seq<Scope>,
    c: Seq<ContractInfo>,
    bs: Seq<(Expr, Vec<Stmt>)>,
    es: Seq<SemanticError>,
    t: Seq<Scope>,
) -> bool
    decreases bs, 0nat,
{
    if bs.len() == 0 {
        es.len() == 0 && t == s
    } else {
        exists|k: int, k2: int, m: Seq<Scope>, m2: Seq<Scope>|
            #![trigger es.take(k), es.subrange(k, k2), only_marked(m, m2)]
            0 <= k <= k2 <= es.len() && elifs_reports(s, c, bs.drop_last(), es.take(k), m) && expr_reports(
                m,
                c,
                bs.last().0,
                es.subrange(k, k2),
            ) && only_marked(m, m2) && scoped_reports(m2, c, ScopeType::Block, bs.last().1@, es.skip(k2), t)
    }
}

/// `es` are the reports of the match arms, each body analysed in a scope of
/// its own.
pub open spec fn arms_reports(s: Seq<Scope>, c: Seq<ContractInfo>, arms: Seq<MatchArm>, es: Seq<SemanticError>, t: Seq<Scope>) -> bool
    decreases arms, 0nat,
{
    if arms.len() == 0 {
        es.len() == 0 && t == s
    } else {
        exists|k: int, m: Seq<Scope>|
            #![trigger es.take(k), same_depth(s, m)]
            0 <= k <= es.len() && same_depth(s, m) && arms_reports(s, c, arms.drop_last(), es.take(k), m)
                && scoped_reports(m, c, ScopeType::Block, arms.last().body@, es.skip(k), t)
    }
}

// ── What analysing declarations reports ──

/// The symbol that defines the parameter `p`, of type `t`.
pub open spec fn param_symbol(p: Param, t: ChronosType) -> Symbol {
    Symbol {
        name: p.name,
        symbol_type: t,
        kind: SymbolKind::Parameter,
        mutable: false,
        initialized: true,
        used: false,
        line: p.span.line,
        column: p.span.column,
    }
}

/// No parameter after `ps[j]` has its name.
pub open spec fn last_param_named(ps: Seq<Param>, j: int) -> bool {
    forall|m: int| j < m < ps.len() ==> (#[trigger] ps[m]).name@ != ps[j].name@
}

/// `t` is `s` with the parameters `ps` defined, in order, in the innermost
/// scope: each name is bound to its last parameter, at its resolved type;
/// names of no parameter are found there as before.
pub open spec fn params_defined(s: Seq<Scope>, ps: Seq<Param>, t: Seq<Scope>) -> bool {
    &&& s.len() > 0
    &&& t.len() == s.len()
    &&& t.drop_last() == s.drop_last()
    &&& t.last().scope_type == s.last().scope_type
    &&& forall|j: int|
        #![trigger ps[j]]
        0 <= j < ps.len() && last_param_named(ps, j) ==> exists|d: ChronosType|
            #[trigger] resolves_to(ps[j].type_expr, d) && keyed_get(t.last().symbols@, ps[j].name@) == Some(
                param_symbol(ps[j], d),
            )
    &&& forall|k: Seq<char>|
        (forall|j: int| 0 <= j < ps.len() ==> (#[trigger] ps[j]).name@ != k) ==> #[trigger] keyed_get(
            t.last().symbols@,
            k,
        ) == keyed_get(s.last().symbols@, k)
}

/// `es` is what the end of a function's analysis reports: a missing
/// `return` when its return type is not `Void` and its body does not return
/// on every path, and nothing otherwise.
pub open spec fn missing_reports(f: FnDecl, es: Seq<SemanticError>) -> bool {
    if missing_return(f) {
        &&& es.len() == 1
        &&& es[0] matches SemanticError::MissingReturn { name, return_type: rt, span }
        &&& name@ == f.name@
        &&& span == f.span
        &&& exists|t: ChronosType| #[trigger] resolves_to(f.return_type, t) && rt@ == type_text(t)
    } else {
        es.len() == 0
    }
}

/// `es` are the reports of analysing the function `f` in the scopes `s`: a
/// new function scope is opened, the parameters are defined there, the body
/// is analysed, a missing `return` is reported last, and the scope is closed,
/// leaving `t`.
#[verifier::opaque]
pub open spec fn fn_reports(s: Seq<Scope>, c: Seq<ContractInfo>, f: FnDecl, es: Seq<SemanticError>, t: Seq<Scope>) -> bool {
    exists|u0: Seq<Scope>, u1: Seq<Scope>, u2: Seq<Scope>, k: int|
        #![trigger opened(s, ScopeType::Function(f.name), u0), params_defined(u0, f.params@, u1), u2.drop_last(), es.take(k)]
        {
            &&& opened(s, ScopeType::Function(f.name), u0)
            &&& params_defined(u0, f.params@, u1)
            &&& 0 <= k <= es.len()
            &&& block_reports(u1, c, f.body@, es.take(k), u2)
            &&& u2.len() > 0
            &&& t == u2.drop_last()
            &&& missing_reports(f, es.skip(k))
        }
}

/// The symbol that defines the contract field `f`, of type `t`.
pub open spec fn field_symbol(f: FieldDecl, t: ChronosType) -> Symbol {
    Symbol {
        name: f.name,
        symbol_type: t,
        kind: SymbolKind::Field,
        mutable: true,
        initialized: false,
        used: false,
        line: f.span.line,
        column: f.span.column,
    }
}

/// No field among the members after `ms[j]` has its name.
pub open spec fn last_field_named(ms: Seq<ContractMember>, j: int) -> bool {
    forall|m: int| j < m < ms.len() && (#[trigger] ms[m]) is Field ==> ms[m]->Field_0.name@ != ms[j]->Field_0.name@
}

/// `t` is `s` with the fields among the members `ms` defined, in order, in
/// the innermost scope.
pub open spec fn fields_defined(s: Seq<Scope>, ms: Seq<ContractMember>, t: Seq<Scope>) -> bool {
    &&& s.len() > 0
    &&& t.len() == s.len()
    &&& t.drop_last() == s.drop_last()
    &&& t.last().scope_type == s.last().scope_type
    &&& forall|j: int|
        #![trigger ms[j]]
        0 <= j < ms.len() && ms[j] is Field && last_field_named(ms, j) ==> exists|d: ChronosType|
            #[trigger] resolves_to(ms[j]->Field_0.type_expr, d) && keyed_get(t.last().symbols@, ms[j]->Field_0.name@)
                == Some(field_symbol(ms[j]->Field_0, d))
    &&& forall|k: Seq<char>|
        (forall|j: int| 0 <= j < ms.len() && (#[trigger] ms[j]) is Field ==> ms[j]->Field_0.name@ != k)
            ==> #[trigger] keyed_get(t.last().symbols@, k) == keyed_get(s.last().symbols@, k)
}

/// `es` are the reports of analysing, in turn, the methods among the
/// members `ms`, from the scopes `s` to the scopes `t`.
#[verifier::opaque]
pub open spec fn methods_reports(s: Seq<Scope>, c: Seq<ContractInfo>, ms: Seq<ContractMember>, es: Seq<SemanticError>, t: Seq<Scope>) -> bool
    decreases ms,
{
    if ms.len() == 0 {
        es.len() == 0 && t == s
    } else {
        exists|k: int, m: Seq<Scope>|
            #![trigger es.take(k), same_depth(s, m)]
            0 <= k <= es.len() && same_depth(s, m) && methods_reports(s, c, ms.drop_last(), es.take(k), m) && match ms.last() {
                ContractMember::Method(f) => fn_reports(m, c, f, es.skip(k), t),
                ContractMember::Field(_) => es.skip(k).len() == 0 && t == m,
            }
    }
}

/// `es` are the reports of analysing the contract `ct` in the scopes `s`: a
/// contract scope is opened, its fields defined there, its methods analysed
/// in turn, and the scope closed, leaving `t`.
pub open spec fn contract_reports(s: Seq<Scope>, c: Seq<ContractInfo>, ct: ContractDecl, es: Seq<SemanticError>, t: Seq<Scope>) -> bool {
    exists|u0: Seq<Scope>, u1: Seq<Scope>, u2: Seq<Scope>|
        #![trigger opened(s, ScopeType::Contract(ct.name), u0), fields_defined(u0, ct.members@, u1), u2.drop_last()]
        {
            &&& opened(s, ScopeType::Contract(ct.name), u0)
            &&& fields_defined(u0, ct.members@, u1)
            &&& methods_reports(u1, c, ct.members@, es, u2)
            &&& u2.len() > 0
            &&& t == u2.drop_last()
        }
}

/// `es` are the reports of analysing the declaration `d`; an enumeration
/// reports nothing.
pub open spec fn decl_reports(s: Seq<Scope>, c: Seq<ContractInfo>, d: Declaration, es: Seq<SemanticError>, t: Seq<Scope>) -> bool {
    match d {
        Declaration::Contract(ct) => contract_reports(s, c, ct, es, t),
        Declaration::Function(f) => fn_reports(s, c, f, es, t),
        Declaration::Enumeration(_) => es.len() == 0 && t == s,
    }
}

/// `es` are the reports of analysing the declarations `ds` in turn, from
/// the scopes `s` to the scopes `t`.
#[verifier::opaque]
pub open spec fn program_reports(s: Seq<Scope>, c: Seq<ContractInfo>, ds: Seq<Declaration>, es: Seq<SemanticError>, t: Seq<Scope>) -> bool
    decreases ds.len(),
{
    if ds.len() == 0 {
        es.len() == 0 && t == s
    } else {
        exists|k: int, m: Seq<Scope>|
            #![trigger es.take(k), same_depth(s, m)]
            0 <= k <= es.len() && same_depth(s, m) && program_reports(s, c, ds.drop_last(), es.take(k), m) && decl_reports(
                m,
                c,
                ds.last(),
                es.skip(k),
                t,
            )
    }
}

/// Where the declaration `d` stands.
pub open spec fn declared_span(d: Declaration) -> Span {
    match d {
        Declaration::Contract(c) => c.span,
        Declaration::Function(f) => f.span,
        Declaration::Enumeration(e) => e.span,
    }
}

/// The kind of symbol that the declaration `d` defines.
pub open spec fn declared_kind(d: Declaration) -> SymbolKind {
    match d {
        Declaration::Contract(_) => SymbolKind::Contract,
        Declaration::Function(_) => SymbolKind::Function,
        Declaration::Enumeration(_) => SymbolKind::Enumeration,
    }
}

/// `t` is the type of the symbol that the declaration `d` defines: the
/// contract or enumeration itself, or a function's resolved return type.
pub open spec fn declared_type(d: Declaration, t: ChronosType) -> bool {
    match d {
        Declaration::Contract(c) => t == ChronosType::Contract(c.name),
        Declaration::Function(f) => resolves_to(f.return_type, t),
        Declaration::Enumeration(e) => t == ChronosType::Enum(e.name),
    }
}

/// The symbol that the declaration `d` defines, of type `t`.
pub open spec fn decl_symbol(d: Declaration, t: ChronosType) -> Symbol {
    Symbol {
        name: declared_name(d),
        symbol_type: t,
        kind: declared_kind(d),
        mutable: false,
        initialized: true,
        used: false,
        line: declared_span(d).line,
        column: declared_span(d).column,
    }
}

/// No declaration after `ds[j]` has its name.
pub open spec fn last_decl_named(ds: Seq<Declaration>, j: int) -> bool {
    forall|m: int| j < m < ds.len() ==> declared_name(#[trigger] ds[m])@ != declared_name(ds[j])@
}

/// `t` is `s` with a symbol for each declaration of `ds` defined, in order,
/// in the innermost scope.
pub open spec fn decls_defined(s: Seq<Scope>, ds: Seq<Declaration>, t: Seq<Scope>) -> bool {
    &&& s.len() > 0
    &&& t.len() == s.len()
    &&& t.drop_last() == s.drop_last()
    &&& t.last().scope_type == s.last().scope_type
    &&& forall|j: int|
        #![trigger ds[j]]
        0 <= j < ds.len() && last_decl_named(ds, j) ==> exists|d: ChronosType|
            #[trigger] declared_type(ds[j], d) && keyed_get(t.last().symbols@, declared_name(ds[j])@) == Some(
                decl_symbol(ds[j], d),
            )
    &&& forall|k: Seq<char>|
        (forall|j: int| 0 <= j < ds.len() ==> declared_name(#[trigger] ds[j])@ != k) ==> #[trigger] keyed_get(
            t.last().symbols@,
            k,
        ) == keyed_get(s.last().symbols@, k)
}

/// No declarations: nothing reported, scopes unchanged.
proof fn lemma_program_none(s: Seq<Scope>, c: Seq<ContractInfo>, es: Seq<SemanticError>)
    requires
        es.len() == 0,
    ensures
        program_reports(s, c, Seq::<Declaration>::empty(), es, s),
{
    reveal(program_reports);
}

/// One more declaration analysed: the reports of the declarations so far,
/// then those of the next one.
proof fn lemma_program_step(
    s: Seq<Scope>,
    c: Seq<ContractInfo>,
    ds: Seq<Declaration>,
    k: int,
    n0: int,
    before: Seq<SemanticError>,
    after: Seq<SemanticError>,
    m: Seq<Scope>,
    t: Seq<Scope>,
)
    requires
        0 <= k < ds.len(),
        0 <= n0 <= before.len() <= after.len(),
        after.take(before.len() as int) == before,
        same_depth(s, m),
        program_reports(s, c, ds.take(k), before.skip(n0), m),
        decl_reports(m, c, ds[k], after.skip(before.len() as int), t),
    ensures
        program_reports(s, c, ds.take(k + 1), after.skip(n0), t),
{
    reveal(program_reports);
    let es = after.skip(n0);
    let kk = before.len() - n0;
    assert(es.take(kk) =~= before.skip(n0));
    assert(es.skip(kk) =~= after.skip(before.len() as int));
    assert(ds.take(k + 1).drop_last() =~= ds.take(k));
    assert(ds.take(k + 1).last() == ds[k]);
}

/// No members: nothing reported, scopes unchanged.
proof fn lemma_methods_none(s: Seq<Scope>, c: Seq<ContractInfo>, es: Seq<SemanticError>)
    requires
        es.len() == 0,
    ensures
        methods_reports(s, c, Seq::<ContractMember>::empty(), es, s),
{
    reveal(methods_reports);
}

/// One more member analysed: the reports of the members so far, then those
/// of the next one.
proof fn lemma_methods_step(
    s: Seq<Scope>,
    c: Seq<ContractInfo>,
    ms: Seq<ContractMember>,
    k: int,
    n0: int,
    before: Seq<SemanticError>,
    after: Seq<SemanticError>,
    m: Seq<Scope>,
    t: Seq<Scope>,
)
    requires
        0 <= k < ms.len(),
        0 <= n0 <= before.len() <= after.len(),
        after.take(before.len() as int) == before,
        same_depth(s, m),
        methods_reports(s, c, ms.take(k), before.skip(n0), m),
        match ms[k] {
            ContractMember::Method(f) => fn_reports(m, c, f, after.skip(before.len() as int), t),
            ContractMember::Field(_) => after == before && t == m,
        },
    ensures
        methods_reports(s, c, ms.take(k + 1), after.skip(n0), t),
{
    reveal(methods_reports);
    let es = after.skip(n0);
    let kk = before.len() - n0;
    assert(es.take(kk) =~= before.skip(n0));
    assert(es.skip(kk) =~= after.skip(before.len() as int));
    assert(ms.take(k + 1).drop_last() =~= ms.take(k));
    assert(ms.take(k + 1).last() == ms[k]);
}

// ── What analysis may change ──

/// `b` is the scope `a` with at most some `used` flags set.
pub open spec fn marked_scope(a: Scope, b: Scope) -> bool {
    &&& b.scope_type == a.scope_type
    &&& b.symbols@.len() == a.symbols@.len()
    &&& forall|j: int| 0 <= j < a.symbols@.len() ==> (#[trigger] b.symbols@[j] == a.symbols@[j] || b.symbols@[j]
        == marked_used(a.symbols@[j]))
}

/// The scopes `after` are the scopes `before`, with at most some `used`
/// flags set.
pub open spec fn only_marked(before: Seq<Scope>, after: Seq<Scope>) -> bool {
    &&& after.len() == before.len()
    &&& forall|i: int| 0 <= i < before.len() ==> marked_scope(#[trigger] before[i], after[i])
}

/// As `only_marked` for all scopes but the innermost, which may also gain
/// definitions but keeps its kind.
pub open spec fn scopes_kept(before: Seq<Scope>, after: Seq<Scope>) -> bool {
    &&& before.len() > 0
    &&& after.len() == before.len()
    &&& only_marked(before.drop_last(), after.drop_last())
    &&& after.last().scope_type == before.last().scope_type
}

/// `after` is `before` with errors (never warnings) appended.
pub open spec fn appends_reports(before: Seq<SemanticError>, after: Seq<SemanticError>) -> bool {
    &&& before.len() <= after.len()
    &&& after.take(before.len() as int) == before
    &&& forall|i: int| before.len() <= i < after.len() ==> !((#[trigger] after[i]) is UnusedVariable)
}

/// `after` is `before` with errors appended that statements and expressions
/// give: never warnings, never a missing `return` (which only a whole
/// function gives).
pub open spec fn appends_errors(before: Seq<SemanticError>, after: Seq<SemanticError>) -> bool {
    &&& appends_reports(before, after)
    &&& forall|i: int| before.len() <= i < after.len() ==> !((#[trigger] after[i]) is MissingReturn)
}

/// A function whose return type is not `Void` and whose body does not end
/// in `return` on every path.
pub open spec fn missing_return(f: FnDecl) -> bool {
    !(names_void(f.return_type) || block_returns(f.body@))
}

/// The errors from position `n` on report a missing `return` exactly for
/// the functions `fs` that miss one: by name and at the function's span.
pub open spec fn reports_missing(errs: Seq<SemanticError>, n: int, fs: Seq<FnDecl>) -> bool {
    &&& forall|i: int|
        #![trigger fs[i]]
        0 <= i < fs.len() && missing_return(fs[i]) ==> exists|k: int|
            #![trigger errs[k]]
            n <= k < errs.len() && errs[k] is MissingReturn && errs[k]->MissingReturn_name@ == fs[i].name@
                && errs[k]->MissingReturn_span == fs[i].span
    &&& forall|k: int|
        #![trigger errs[k]]
        n <= k < errs.len() && errs[k] is MissingReturn ==> exists|i: int|
            #![trigger fs[i]]
            0 <= i < fs.len() && missing_return(fs[i]) && errs[k]->MissingReturn_name@ == fs[i].name@
                && errs[k]->MissingReturn_span == fs[i].span
}

/// Missing returns reported for `fa` up to `m`, then for `fb`, are reported
/// for `fa + fb`.
proof fn lemma_reports_missing_concat(
    e1: Seq<SemanticError>,
    e2: Seq<SemanticError>,
    n: int,
    fa: Seq<FnDecl>,
    fb: Seq<FnDecl>,
)
    requires
        0 <= n <= e1.len() <= e2.len(),
        e2.take(e1.len() as int) == e1,
        reports_missing(e1, n, fa),
        reports_missing(e2, e1.len() as int, fb),
    ensures
        reports_missing(e2, n, fa + fb),
{
    let f = fa + fb;
    assert forall|i: int| #![trigger f[i]] 0 <= i < f.len() && missing_return(f[i]) implies exists|k: int|
        #![trigger e2[k]]
        n <= k < e2.len() && e2[k] is MissingReturn && e2[k]->MissingReturn_name@ == f[i].name@
            && e2[k]->MissingReturn_span == f[i].span by {
        if i < fa.len() {
            assert(f[i] == fa[i]);
            let k = choose|k: int| #![trigger e1[k]] n <= k < e1.len() && e1[k] is MissingReturn
                && e1[k]->MissingReturn_name@ == fa[i].name@ && e1[k]->MissingReturn_span == fa[i].span;
            assert(e2[k] == e2.take(e1.len() as int)[k]);
        } else {
            assert(f[i] == fb[i - fa.len()]);
            let j = i - fa.len();
            assert(missing_return(fb[j]));
            let k = choose|k: int| #![trigger e2[k]] e1.len() <= k < e2.len() && e2[k] is MissingReturn
                && e2[k]->MissingReturn_name@ == fb[j].name@ && e2[k]->MissingReturn_span == fb[j].span;
        }
    }
    assert forall|k: int| #![trigger e2[k]] n <= k < e2.len() && e2[k] is MissingReturn implies exists|i: int|
        #![trigger f[i]]
        0 <= i < f.len() && missing_return(f[i]) && e2[k]->MissingReturn_name@ == f[i].name@
            && e2[k]->MissingReturn_span == f[i].span by {
        if k < e1.len() {
            assert(e2[k] == e2.take(e1.len() as int)[k]);
            assert(e1[k] is MissingReturn);
            let i = choose|i: int| #![trigger fa[i]] 0 <= i < fa.len() && missing_return(fa[i])
                && e1[k]->MissingReturn_name@ == fa[i].name@ && e1[k]->MissingReturn_span == fa[i].span;
            assert(f[i] == fa[i]);
        } else {
            let j = choose|j: int| #![trigger fb[j]] 0 <= j < fb.len() && missing_return(fb[j])
                && e2[k]->MissingReturn_name@ == fb[j].name@ && e2[k]->MissingReturn_span == fb[j].span;
            assert(f[fa.len() + j] == fb[j]);
        }
    }
}

/// Errors that report no missing `return` report it for no function.
proof fn lemma_reports_missing_none(errs: Seq<SemanticError>, n: int, fs: Seq<FnDecl>)
    requires
        0 <= n <= errs.len(),
        forall|k: int| n <= k < errs.len() ==> !((#[trigger] errs[k]) is MissingReturn),
        forall|i: int| 0 <= i < fs.len() ==> !missing_return(#[trigger] fs[i]),
    ensures
        reports_missing(errs, n, fs),
{
}

proof fn lemma_only_marked_refl(a: Seq<Scope>)
    ensures
        only_marked(a, a),
{
}

proof fn lemma_only_marked_trans(a: Seq<Scope>, b: Seq<Scope>, c: Seq<Scope>)
    requires
        only_marked(a, b),
        only_marked(b, c),
    ensures
        only_marked(a, c),
{
    assert forall|i: int| 0 <= i < a.len() implies marked_scope(#[trigger] a[i], c[i]) by {
        assert(marked_scope(a[i], b[i]));
        assert(marked_scope(b[i], c[i]));
        assert forall|j: int| 0 <= j < a[i].symbols@.len() implies (#[trigger] c[i].symbols@[j] == a[i].symbols@[j]
            || c[i].symbols@[j] == marked_used(a[i].symbols@[j])) by {
            assert(b[i].symbols@[j] == a[i].symbols@[j] || b[i].symbols@[j] == marked_used(a[i].symbols@[j]));
            assert(c[i].symbols@[j] == b[i].symbols@[j] || c[i].symbols@[j] == marked_used(b[i].symbols@[j]));
        }
    }
}

proof fn lemma_only_marked_kept(a: Seq<Scope>, b: Seq<Scope>)
    requires
        only_marked(a, b),
        a.len() > 0,
    ensures
        scopes_kept(a, b),
{
    assert(marked_scope(a[a.len() - 1], b[a.len() - 1]));
    assert forall|i: int| 0 <= i < a.drop_last().len() implies marked_scope(
        #[trigger] a.drop_last()[i],
        b.drop_last()[i],
    ) by {
        assert(marked_scope(a[i], b[i]));
    }
}

proof fn lemma_scopes_kept_trans(a: Seq<Scope>, b: Seq<Scope>, c: Seq<Scope>)
    requires
        scopes_kept(a, b),
        scopes_kept(b, c),
    ensures
        scopes_kept(a, c),
{
    lemma_only_marked_trans(a.drop_last(), b.drop_last(), c.drop_last());
}

proof fn lemma_reports_trans(a: Seq<SemanticError>, b: Seq<SemanticError>, c: Seq<SemanticError>)
    requires
        appends_reports(a, b),
        appends_reports(b, c),
    ensures
        appends_reports(a, c),
{
    assert(c.take(a.len() as int) =~= c.take(b.len() as int).take(a.len() as int));
    assert forall|i: int| a.len() <= i < c.len() implies !((#[trigger] c[i]) is UnusedVariable) by {
        if i < b.len() {
            assert(c[i] == c.take(b.len() as int)[i]);
            assert(b[i] == c[i]);
        }
    }
}

proof fn lemma_appends_trans(a: Seq<SemanticError>, b: Seq<SemanticError>, c: Seq<SemanticError>)
    requires
        appends_errors(a, b),
        appends_errors(b, c),
    ensures
        appends_errors(a, c),
{
    lemma_reports_trans(a, b, c);
    assert forall|i: int| a.len() <= i < c.len() implies !((#[trigger] c[i]) is MissingReturn) by {
        if i < b.len() {
            assert(c[i] == c.take(b.len() as int)[i]);
            assert(b[i] == c[i]);
        }
    }
}

proof fn lemma_appends_keeps(a: Seq<SemanticError>, b: Seq<SemanticError>, i: int)
    requires
        appends_errors(a, b),
        0 <= i < a.len(),
    ensures
        b[i] == a[i],
{
    assert(b.take(a.len() as int)[i] == b[i]);
}

/// A symbol found in a scope is still found, perhaps marked used, after
/// only `used` flags were set.
proof fn lemma_marked_scope_get(a: Scope, b: Scope, name: Seq<char>)
    requires
        marked_scope(a, b),
        keyed_get(a.symbols@, name) is Some,
    ensures
        keyed_get(b.symbols@, name) matches Some(t) && (t == keyed_get(a.symbols@, name)->0 || t == marked_used(
            keyed_get(a.symbols@, name)->0,
        )),
{
    lemma_marked_scope_keys(a, b, name);
    lemma_find_keyed_range(a.symbols@, name);
    let k = find_keyed(a.symbols@, name)->0;
    assert(b.symbols@[k] == a.symbols@[k] || b.symbols@[k] == marked_used(a.symbols@[k]));
}

proof fn lemma_appends_push(a: Seq<SemanticError>, e: SemanticError)
    requires
        !(e is UnusedVariable),
        !(e is MissingReturn),
    ensures
        appends_errors(a, a.push(e)),
{
    assert(a.push(e).take(a.len() as int) =~= a);
}

/// Marking a symbol used, as `SymbolTable::mark_used` does, only sets a flag.
proof fn lemma_mark_used_frame(before: Seq<Scope>, after: Seq<Scope>, name: Seq<char>)
    requires
        after.len() == before.len(),
        scope_defining(before, name) is None ==> after == before,
        scope_defining(before, name) matches Some(j) ==> {
            &&& forall|i: int| 0 <= i < before.len() && i != j ==> #[trigger] after[i] == before[i]
            &&& after[j].scope_type == before[j].scope_type
            &&& after[j].symbols@ == before[j].symbols@.update(
                find_keyed(before[j].symbols@, name)->0,
                marked_used(keyed_get(before[j].symbols@, name)->0),
            )
        },
    ensures
        only_marked(before, after),
{
    lemma_scope_defining_range(before, name);
    if let Some(j) = scope_defining(before, name) {
        lemma_find_keyed_range(before[j].symbols@, name);
        assert forall|i: int| 0 <= i < before.len() implies marked_scope(#[trigger] before[i], after[i]) by {
            if i != j {
                assert(after[i] == before[i]);
            } else {
                let k = find_keyed(before[j].symbols@, name)->0;
                assert forall|m: int| 0 <= m < before[i].symbols@.len() implies (#[trigger] after[i].symbols@[m]
                    == before[i].symbols@[m] || after[i].symbols@[m] == marked_used(before[i].symbols@[m])) by {
                    if m == k {
                        assert(after[i].symbols@[m] == marked_used(before[i].symbols@[m]));
                    } else {
                        assert(after[i].symbols@[m] == before[i].symbols@[m]);
                    }
                }
            }
        }
    }
}

/// The scope that defines a name is one of the scopes, and defines it.
proof fn lemma_scope_defining_range(scopes: Seq<Scope>, name: Seq<char>)
    ensures
        scope_defining(scopes, name) matches Some(j) ==> 0 <= j < scopes.len() && keyed_get(
            scopes[j].symbols@,
            name,
        ) is Some,
    decreases scopes.len(),
{
    if scopes.len() > 0 {
        lemma_scope_defining_range(scopes.drop_last(), name);
    }
}

/// Setting `used` flags changes no name, so every name found in a scope is
/// still found there.
proof fn lemma_marked_scope_keys(a: Scope, b: Scope, name: Seq<char>)
    requires
        marked_scope(a, b),
    ensures
        find_keyed(a.symbols@, name) == find_keyed(b.symbols@, name),
        keyed_get(a.symbols@, name) is Some <==> keyed_get(b.symbols@, name) is Some,
{
    assert forall|j: int| 0 <= j < a.symbols@.len() implies (#[trigger] a.symbols@[j]).key() == b.symbols@[j].key() by {
        assert(b.symbols@[j] == a.symbols@[j] || b.symbols@[j] == marked_used(a.symbols@[j]));
    }
    lemma_find_keyed_same_keys(a.symbols@, b.symbols@, name);
}


/// The parts of `parts`, joined with `::`.
pub(crate) fn join_path(parts: &Vec<String>) -> (r: String)
    ensures
        r@ == joined(parts@),
{
    let mut s = String::new();
    let mut i: usize = 0;
    while i < parts.len()
        invariant
            i <= parts.len(),
            s@ == joined(parts@.take(i as int)),
        decreases parts.len() - i,
    {
        if i > 0 {
            s.append("::");
        }
        s.append(parts[i].as_str());
        proof {
            assert(parts@.take(i + 1).drop_last() =~= parts@.take(i as int));
            if i == 0 {
                assert(parts@.take(0) =~= Seq::<String>::empty());
            }
        }
        i += 1;
    }
    assert(parts@.take(i as int) =~= parts@);
    s
}

/// `branches_return` holds exactly when each `else if` block returns.
proof fn lemma_branches_return(bs: Seq<(Expr, Vec<Stmt>)>)
    ensures
        branches_return(bs) <==> forall|j: int| 0 <= j < bs.len() ==> block_returns((#[trigger] bs[j]).1@),
    decreases bs.len(),
{
    if bs.len() > 0 {
        let d = bs.drop_last();
        lemma_branches_return(d);
        assert forall|j: int| 0 <= j < d.len() implies #[trigger] d[j] == bs[j] by {}
        assert(bs.last() == bs[bs.len() - 1]);
        if forall|j: int| 0 <= j < bs.len() ==> block_returns((#[trigger] bs[j]).1@) {
            assert forall|j: int| 0 <= j < d.len() implies block_returns((#[trigger] d[j]).1@) by {
                assert(d[j] == bs[j]);
            }
        }
        if branches_return(bs) {
            assert forall|j: int| 0 <= j < bs.len() implies block_returns((#[trigger] bs[j]).1@) by {
                if j < bs.len() - 1 {
                    assert(d[j] == bs[j]);
                }
            }
        }
    }
}

/// `arms_return` holds exactly when each arm's body returns.
proof fn lemma_arms_return(arms: Seq<MatchArm>)
    ensures
        arms_return(arms) <==> forall|j: int| 0 <= j < arms.len() ==> block_returns((#[trigger] arms[j]).body@),
    decreases arms.len(),
{
    if arms.len() > 0 {
        let d = arms.drop_last();
        lemma_arms_return(d);
        assert forall|j: int| 0 <= j < d.len() implies #[trigger] d[j] == arms[j] by {}
        assert(arms.last() == arms[arms.len() - 1]);
        if forall|j: int| 0 <= j < arms.len() ==> block_returns((#[trigger] arms[j]).body@) {
            assert forall|j: int| 0 <= j < d.len() implies block_returns((#[trigger] d[j]).body@) by {
                assert(d[j] == arms[j]);
            }
        }
        if arms_return(arms) {
            assert forall|j: int| 0 <= j < arms.len() implies block_returns((#[trigger] arms[j]).body@) by {
                if j < arms.len() - 1 {
                    assert(d[j] == arms[j]);
                }
            }
        }
    }
}

/// The semantic analyzer: a symbol table and the problems found so far.
pub struct Analyzer {
    pub symbol_table: SymbolTable,
    pub errors: Vec<SemanticError>,
    pub warnings: Vec<SemanticError>,
}

impl Analyzer {
    /// An analyzer with only the global scope and nothing found yet.
    pub fn new() -> (a: Self)
        ensures
            a.symbol_table.wf(),
            a.symbol_table.stack().len() == 1,
            a.symbol_table.stack()[0].scope_type is Global,
            a.symbol_table.stack()[0].symbols@.len() == 0,
            a.symbol_table.contract_list().len() == 0,
            a.symbol_table.function_list().len() == 0,
            a.errors@.len() == 0,
            a.warnings@.len() == 0,
    {
        Analyzer { symbol_table: SymbolTable::new(), errors: Vec::new(), warnings: Vec::new() }
    }

    /// Is `name` one of the built-in names that need no declaration?
    pub fn is_known_builtin(&self, name: &str) -> (b: bool)
        ensures
            b == known_builtin(name@),
    {
        str_eq(name, "StdOut") || str_eq(name, "StdErr") || str_eq(name, "StdIn") || str_eq(name, "Encoding")
            || str_eq(name, "LineEnding") || str_eq(name, "Allocator") || str_eq(name, "HeapRegion") || str_eq(
            name,
            "Lifetime",
        ) || str_eq(name, "Duration") || str_eq(name, "ThreadPriority") || str_eq(name, "Range") || str_eq(
            name,
            "USize",
        ) || str_eq(name, "Checked") || str_eq(name, "panic") || str_eq(name, "assert") || str_eq(
            name,
            "StreamWriter",
        ) || str_eq(name, "StreamReader") || str_eq(name, "BufferMode") || str_eq(name, "Borrow") || str_eq(
            name,
            "Tuple",
        ) || str_eq(name, "ExitCode") || str_eq(name, "Vector") || str_eq(name, "Result") || str_eq(
            name,
            "Optional",
        ) || str_eq(name, "Bool") || str_eq(name, "Closure") || str_eq(name, "CaptureMode") || str_eq(
            name,
            "String",
        ) || str_eq(name, "Mutex") || str_eq(name, "MutexPolicy") || str_eq(name, "Thread") || str_eq(
            name,
            "Channel",
        ) || str_eq(name, "TcpStream")
    }

    /// The type that a type expression denotes.
    pub fn resolve_type(&self, type_expr: &TypeExpr) -> (t: ChronosType)
        ensures
            resolves_to(*type_expr, t),
        decreases type_expr,
    {
        match type_expr {
            TypeExpr::Named(name, _) => ChronosType::from_name(name.as_str()),
            TypeExpr::Generic { base, type_args, .. } => {
                let mut resolved = self.resolve_all(type_args);
                if str_eq(base.as_str(), "Result") && resolved.len() == 2 {
                    let ghost both = resolved@;
                    let err = resolved.pop().unwrap();
                    let ok = resolved.pop().unwrap();
                    assert(both =~= seq![ok, err]);
                    ChronosType::Result { ok_type: Box::new(ok), err_type: Box::new(err) }
                } else if str_eq(base.as_str(), "Optional") && resolved.len() == 1 {
                    let ghost one = resolved@;
                    let inner = resolved.pop().unwrap();
                    assert(one =~= seq![inner]);
                    ChronosType::Optional { inner: Box::new(inner) }
                } else if str_eq(base.as_str(), "Tuple") {
                    ChronosType::Tuple { elements: resolved }
                } else {
                    ChronosType::Generic { base: base.clone(), type_args: resolved }
                }
            },
            TypeExpr::Reference { mutable, inner, .. } => {
                let i = self.resolve_type(inner);
                ChronosType::Reference { mutable: *mutable, inner: Box::new(i) }
            },
            TypeExpr::Tuple { elements, .. } => {
                let es = self.resolve_all(elements);
                ChronosType::Tuple { elements: es }
            },
            TypeExpr::Closure { params, return_type, .. } => {
                let ps = self.resolve_all(params);
                let r = self.resolve_type(return_type);
                ChronosType::Closure { params: ps, return_type: Box::new(r) }
            },
            TypeExpr::SelfType(_) => ChronosType::SelfType,
        }
    }

    /// The types of a list of type expressions, in order.
    fn resolve_all(&self, tes: &Vec<TypeExpr>) -> (ts: Vec<ChronosType>)
        ensures
            resolves_all(tes@, ts@),
        decreases tes,
    {
        let mut ts: Vec<ChronosType> = Vec::new();
        let mut i: usize = 0;
        while i < tes.len()
            invariant
                i <= tes.len(),
                resolves_all(tes@.take(i as int), ts@),
            decreases tes.len() - i,
        {
            proof {
                assert(decreases_to!(tes => tes[i as int]));
            }
            let t = self.resolve_type(&tes[i]);
            let ghost prev = ts@;
            ts.push(t);
            proof {
                assert(tes@.take(i + 1).drop_last() =~= tes@.take(i as int));
                assert(ts@.drop_last() =~= prev);
            }
            i += 1;
        }
        assert(tes@.take(i as int) =~= tes@);
        ts
    }

    /// The type of an expression, as far as it can be known before running
    /// the program.
    fn infer_expr_type(&self, expr: &Expr) -> (t: ChronosType)
        ensures
            infers(self.symbol_table.stack(), self.symbol_table.contract_list(), *expr, t),
        decreases expr,
    {
        match expr {
            Expr::IntLiteral { suffix, .. } => int_suffix_type(suffix),
            Expr::FloatLiteral { suffix, .. } => float_suffix_type(suffix),
            Expr::StringLiteral { .. } => ChronosType::StringType,
            Expr::CharLiteral { .. } => ChronosType::Char,
            Expr::BoolLiteral { .. } => ChronosType::Bool,
            Expr::Identifier { name, .. } => match self.symbol_table.lookup(name.as_str()) {
                Some(sym) => sym.symbol_type.duplicate(),
                None => ChronosType::Unresolved(name.clone()),
            },
            Expr::PathExpr { segments, .. } => {
                if segments.len() == 0 {
                    ChronosType::Error
                } else if self.symbol_table.has_contract(segments[0].as_str()) {
                    ChronosType::Contract(segments[0].clone())
                } else {
                    ChronosType::Unresolved(join_path(segments))
                }
            },
            Expr::Grouped { inner, .. } => self.infer_expr_type(inner),
            Expr::Binary { left, op, .. } => match op {
                BinOp::Add | BinOp::Sub | BinOp::Mul | BinOp::Div | BinOp::Mod => self.infer_expr_type(left),
                _ => ChronosType::Bool,
            },
            Expr::Unary { op, operand, .. } => match op {
                UnaryOp::Not => ChronosType::Bool,
                UnaryOp::Ref => {
                    let inner = self.infer_expr_type(operand);
                    ChronosType::Reference { mutable: false, inner: Box::new(inner) }
                },
                UnaryOp::RefMut => {
                    let inner = self.infer_expr_type(operand);
                    ChronosType::Reference { mutable: true, inner: Box::new(inner) }
                },
                UnaryOp::Deref => {
                    let inner = self.infer_expr_type(operand);
                    let ghost u = inner;
                    let t = match inner {
                        ChronosType::Reference { inner: i, .. } => *i,
                        other => other,
                    };
                    assert(infers(self.symbol_table.stack(), self.symbol_table.contract_list(), **operand, u)
                        && t == deref_type(u));
                    t
                },
                UnaryOp::Negate => self.infer_expr_type(operand),
            },
            Expr::MethodCall { .. } => ChronosType::Unresolved(owned("method_return")),
            Expr::FnCall { .. } => ChronosType::Unresolved(owned("fn_return")),
            Expr::SelfValue { .. } => ChronosType::SelfType,
            _ => ChronosType::Unresolved(owned("unknown")),
        }
    }

    /// Does every path through the block end in `return`?
    fn block_guarantees_return(&self, block: &Vec<Stmt>) -> (r: bool)
        ensures
            r == block_returns(block@),
        decreases block,
    {
        if block.len() == 0 {
            false
        } else {
            proof {
                assert(decreases_to!(block => block[block.len() - 1]));
            }
            self.statement_guarantees_return(&block[block.len() - 1])
        }
    }

    /// Does every path through the statement end in `return`?
    fn statement_guarantees_return(&self, stmt: &Stmt) -> (r: bool)
        ensures
            r == stmt_returns(*stmt),
        decreases stmt,
    {
        match stmt {
            Stmt::Return { .. } => true,
            Stmt::If { then_block, else_if_blocks, else_block, .. } => {
                if !self.block_guarantees_return(then_block) {
                    return false;
                }
                if !self.branches_guarantee_return(else_if_blocks) {
                    return false;
                }
                match else_block {
                    Some(b) => self.block_guarantees_return(b),
                    None => false,
                }
            },
            Stmt::Match { arms, .. } => {
                if arms.len() == 0 {
                    return false;
                }
                self.arms_guarantee_return(arms)
            },
            _ => false,
        }
    }

    /// Does every `else if` block end in `return`?
    fn branches_guarantee_return(&self, bs: &Vec<(Expr, Vec<Stmt>)>) -> (r: bool)
        ensures
            r == branches_return(bs@),
        decreases bs,
    {
        let mut i: usize = 0;
        while i < bs.len()
            invariant
                i <= bs.len(),
                forall|j: int| 0 <= j < i ==> block_returns((#[trigger] bs@[j]).1@),
            decreases bs.len() - i,
        {
            proof {
                assert(decreases_to!(bs => bs[i as int]));
                assert(decreases_to!(bs[i as int] => bs[i as int].1));
            }
            if !self.block_guarantees_return(&bs[i].1) {
                proof {
                    lemma_branches_return(bs@);
                }
                return false;
            }
            i += 1;
        }
        proof {
            lemma_branches_return(bs@);
        }
        true
    }

    /// Do all arms end in `return`, with a `default` among them?
    fn arms_guarantee_return(&self, arms: &Vec<MatchArm>) -> (r: bool)
        ensures
            r == (arms_return(arms@) && exists|i: int| 0 <= i < arms@.len() && (#[trigger] arms@[i]).pattern is Default),
        decreases arms,
    {
        let mut has_default = false;
        let mut i: usize = 0;
        while i < arms.len()
            invariant
                i <= arms.len(),
                forall|j: int| 0 <= j < i ==> block_returns((#[trigger] arms@[j]).body@),
                has_default <==> exists|j: int| 0 <= j < i && (#[trigger] arms@[j]).pattern is Default,
            decreases arms.len() - i,
        {
            if matches!(arms[i].pattern, MatchPattern::Default) {
                has_default = true;
            }
            proof {
                assert(decreases_to!(arms => arms[i as int]));
                assert(decreases_to!(arms[i as int] => arms[i as int].body));
            }
            if !self.block_guarantees_return(&arms[i].body) {
                proof {
                    lemma_arms_return(arms@);
                }
                return false;
            }
            i += 1;
        }
        proof {
            lemma_arms_return(arms@);
        }
        has_default
    }
}

/// The `Debug` name of an arithmetic or comparison operator (`"Add"`).
pub open spec fn binop_text(op: BinOp) -> Seq<char> {
    match op {
        BinOp::Add => "Add"@,
        BinOp::Sub => "Sub"@,
        BinOp::Mul => "Mul"@,
        BinOp::Div => "Div"@,
        BinOp::Mod => "Mod"@,
        BinOp::Eq => "Eq"@,
        BinOp::NotEq => "NotEq"@,
        BinOp::Lt => "Lt"@,
        BinOp::LtEq => "LtEq"@,
        BinOp::Gt => "Gt"@,
        BinOp::GtEq => "GtEq"@,
        BinOp::And => "And"@,
        BinOp::Or => "Or"@,
    }
}

/// The name of an operator, as in diagnostics.
fn binop_name(op: BinOp) -> (s: String)
    ensures
        s@ == binop_text(op),
{
    match op {
        BinOp::Add => owned("Add"),
        BinOp::Sub => owned("Sub"),
        BinOp::Mul => owned("Mul"),
        BinOp::Div => owned("Div"),
        BinOp::Mod => owned("Mod"),
        BinOp::Eq => owned("Eq"),
        BinOp::NotEq => owned("NotEq"),
        BinOp::Lt => owned("Lt"),
        BinOp::LtEq => owned("LtEq"),
        BinOp::Gt => owned("Gt"),
        BinOp::GtEq => owned("GtEq"),
        BinOp::And => owned("And"),
        BinOp::Or => owned("Or"),
    }
}

/// The type expression is the name `Void`.
pub open spec fn names_void(te: TypeExpr) -> bool {
    te matches TypeExpr::Named(n, _) && n@ == "Void"@
}

/// A resolved type is `Void` exactly when it was written `Void`.
proof fn lemma_resolves_void(te: TypeExpr, t: ChronosType)
    requires
        resolves_to(te, t),
    ensures
        t is Void <==> names_void(te),
{
    match te {
        TypeExpr::Named(n, _) => {
            reveal_strlit("Void");
            reveal_strlit("Int8");
            reveal_strlit("Int16");
            reveal_strlit("Int32");
            reveal_strlit("Int64");
            reveal_strlit("UInt8");
            reveal_strlit("UInt16");
            reveal_strlit("UInt32");
            reveal_strlit("UInt64");
            reveal_strlit("Float32");
            reveal_strlit("Float64");
            reveal_strlit("Bool");
            reveal_strlit("Char");
            reveal_strlit("String");
            reveal_strlit("Self");
            if n@ == "Void"@ {
                assert("Void"@[0] != "Int8"@[0] || "Void"@.len() != "Int8"@.len());
                assert("Void"@[0] != "Int16"@[0] || "Void"@.len() != "Int16"@.len());
                assert("Void"@[0] != "Int32"@[0] || "Void"@.len() != "Int32"@.len());
                assert("Void"@[0] != "Int64"@[0] || "Void"@.len() != "Int64"@.len());
                assert("Void"@[0] != "UInt8"@[0] || "Void"@.len() != "UInt8"@.len());
                assert("Void"@[0] != "UInt16"@[0] || "Void"@.len() != "UInt16"@.len());
                assert("Void"@[0] != "UInt32"@[0] || "Void"@.len() != "UInt32"@.len());
                assert("Void"@[0] != "UInt64"@[0] || "Void"@.len() != "UInt64"@.len());
                assert("Void"@[0] != "Float32"@[0] || "Void"@.len() != "Float32"@.len());
                assert("Void"@[0] != "Float64"@[0] || "Void"@.len() != "Float64"@.len());
                assert("Void"@[0] != "Bool"@[0] || "Void"@.len() != "Bool"@.len());
                assert("Void"@[0] != "Char"@[0] || "Void"@.len() != "Char"@.len());
                assert("Void"@[0] != "String"@[0] || "Void"@.len() != "String"@.len());
                assert(type_of_name(n@) is Void);
            } else {
                assert(!(type_of_name(n@) is Void));
            }
        },
        _ => {},
    }
}

/// The field members, in order.
pub open spec fn field_decls(ms: Seq<ContractMember>) -> Seq<FieldDecl>
    decreases ms.len(),
{
    if ms.len() == 0 {
        Seq::empty()
    } else {
        let rest = field_decls(ms.drop_last());
        match ms.last() {
            ContractMember::Field(f) => rest.push(f),
            _ => rest,
        }
    }
}

/// `info` records the contract declaration `c`: its name, its traits, its
/// field members in order (each name with its resolved type) and its methods
/// in order (each signature describing the method).
pub open spec fn describes_contract(c: ContractDecl, info: ContractInfo) -> bool {
    &&& info.name == c.name
    &&& info.traits@ == c.traits@
    &&& info.fields@.len() == field_decls(c.members@).len()
    &&& forall|i: int| 0 <= i < info.fields@.len() ==> (#[trigger] info.fields@[i]).0 == field_decls(c.members@)[i].name
        && resolves_to(field_decls(c.members@)[i].type_expr, info.fields@[i].1)
    &&& info.methods@.len() == method_fns(c.members@).len()
    &&& forall|i: int| 0 <= i < info.methods@.len() ==> describes_function(method_fns(c.members@)[i], #[trigger] info.methods@[i])
}

/// No contract declared after position `i` has the name of the one at `i`.
pub open spec fn last_contract_named(decls: Seq<Declaration>, i: int) -> bool {
    forall|j: int| i < j < decls.len() && (#[trigger] decls[j]) is Contract ==> declared_name(decls[j])@
        != declared_name(decls[i])@
}

/// `sig` records the function `f`: its name, parameter names and resolved
/// types, resolved return type and annotation names.
pub open spec fn describes_function(f: FnDecl, sig: FunctionSignature) -> bool {
    &&& sig.name == f.name
    &&& sig.params@.len() == f.params@.len()
    &&& forall|i: int| 0 <= i < f.params@.len() ==> (#[trigger] sig.params@[i]).0 == f.params@[i].name
        && resolves_to(f.params@[i].type_expr, sig.params@[i].1)
    &&& resolves_to(f.return_type, sig.return_type)
    &&& sig.annotations@.len() == f.annotations@.len()
    &&& forall|i: int| 0 <= i < f.annotations@.len() ==> (#[trigger] sig.annotations@[i]) == f.annotations@[i].name
}

/// The name a declaration introduces.
pub open spec fn declared_name(d: Declaration) -> String {
    match d {
        Declaration::Contract(c) => c.name,
        Declaration::Function(f) => f.name,
        Declaration::Enumeration(e) => e.name,
    }
}

impl Analyzer {
    /// What analysing an expression may change: `used` flags of symbols in
    /// open scopes, and errors appended; registrations and warnings stay.
    pub open spec fn marks_only(&self, before: Analyzer) -> bool {
        &&& self.symbol_table.contract_list() == before.symbol_table.contract_list()
        &&& self.symbol_table.function_list() == before.symbol_table.function_list()
        &&& only_marked(before.symbol_table.stack(), self.symbol_table.stack())
        &&& appends_errors(before.errors@, self.errors@)
        &&& self.warnings == before.warnings
    }

    /// As `marks_only`, and the innermost scope may gain definitions.
    pub open spec fn defines_inner(&self, before: Analyzer) -> bool {
        &&& self.symbol_table.contract_list() == before.symbol_table.contract_list()
        &&& self.symbol_table.function_list() == before.symbol_table.function_list()
        &&& scopes_kept(before.symbol_table.stack(), self.symbol_table.stack())
        &&& appends_errors(before.errors@, self.errors@)
        &&& self.warnings == before.warnings
    }

    /// As `marks_only`, and the errors appended may report missing returns.
    pub open spec fn marks_only_fn(&self, before: Analyzer) -> bool {
        &&& self.symbol_table.contract_list() == before.symbol_table.contract_list()
        &&& self.symbol_table.function_list() == before.symbol_table.function_list()
        &&& only_marked(before.symbol_table.stack(), self.symbol_table.stack())
        &&& appends_reports(before.errors@, self.errors@)
        &&& self.warnings == before.warnings
    }

    /// As `defines_inner`, and the errors appended may report missing
    /// returns.
    pub open spec fn defines_inner_fn(&self, before: Analyzer) -> bool {
        &&& self.symbol_table.contract_list() == before.symbol_table.contract_list()
        &&& self.symbol_table.function_list() == before.symbol_table.function_list()
        &&& scopes_kept(before.symbol_table.stack(), self.symbol_table.stack())
        &&& appends_reports(before.errors@, self.errors@)
        &&& self.warnings == before.warnings
    }

    proof fn lemma_marks_trans(a: Analyzer, b: Analyzer, c: Analyzer)
        requires
            b.marks_only(a),
            c.marks_only(b),
        ensures
            c.marks_only(a),
    {
        lemma_only_marked_trans(a.symbol_table.stack(), b.symbol_table.stack(), c.symbol_table.stack());
        lemma_appends_trans(a.errors@, b.errors@, c.errors@);
    }

    proof fn lemma_defines_trans(a: Analyzer, b: Analyzer, c: Analyzer)
        requires
            b.defines_inner(a),
            c.defines_inner(b),
        ensures
            c.defines_inner(a),
    {
        lemma_scopes_kept_trans(a.symbol_table.stack(), b.symbol_table.stack(), c.symbol_table.stack());
        lemma_appends_trans(a.errors@, b.errors@, c.errors@);
    }

    proof fn lemma_marks_refl(a: Analyzer)
        ensures
            a.marks_only(a),
    {
        lemma_only_marked_refl(a.symbol_table.stack());
        assert(a.errors@.take(a.errors@.len() as int) =~= a.errors@);
    }

    proof fn lemma_marks_defines(a: Analyzer, b: Analyzer)
        requires
            b.marks_only(a),
            a.symbol_table.wf(),
        ensures
            b.defines_inner(a),
    {
        lemma_only_marked_kept(a.symbol_table.stack(), b.symbol_table.stack());
    }

    /// Records an error.
    fn push_error(&mut self, e: SemanticError)
        requires
            !(e is UnusedVariable),
            !(e is MissingReturn),
        ensures
            final(self).errors@ == old(self).errors@.push(e),
            final(self).symbol_table == old(self).symbol_table,
            final(self).marks_only(*old(self)),
    {
        self.errors.push(e);
        proof {
            lemma_appends_push(old(self).errors@, e);
            lemma_only_marked_refl(self.symbol_table.stack());
        }
    }

    /// Marks the symbol named `name` as used.
    fn mark(&mut self, name: &str)
        ensures
            final(self).marks_only(*old(self)),
            final(self).errors == old(self).errors,
    {
        self.symbol_table.mark_used(name);
        proof {
            lemma_mark_used_frame(old(self).symbol_table.stack(), self.symbol_table.stack(), name@);
            assert(self.errors@.take(self.errors@.len() as int) =~= self.errors@);
        }
    }

    /// Is any open scope a loop body?
    fn is_inside_loop(&self) -> (b: bool)
        ensures
            b == exists|i: int|
                0 <= i < self.symbol_table.stack().len() && #[trigger] self.symbol_table.stack()[i].scope_type is Loop,
    {
        self.symbol_table.is_inside_loop()
    }

    /// Checks an expression: names must be declared (or built in), and the
    /// left operand of an arithmetic operator must be numeric.
    #[verifier::spinoff_prover]
    fn check_expr(&mut self, expr: &Expr)
        requires
            old(self).symbol_table.wf(),
        ensures
            final(self).marks_only(*old(self)),
            *expr matches Expr::Identifier { name, span } ==> if lookup_in_scopes(
                old(self).symbol_table.stack(),
                name@,
            ) is None && !known_builtin(name@) {
                final(self).errors@ == old(self).errors@.push(SemanticError::UndefinedVariable { name, span })
            } else {
                final(self).errors == old(self).errors
            },
            expr_reports(
                old(self).symbol_table.stack(),
                old(self).symbol_table.contract_list(),
                *expr,
                final(self).errors@.skip(old(self).errors@.len() as int),
            ),
        decreases expr, 0nat,
    {
        let ghost n0 = self.errors@.len() as int;
        let ghost sc = self.symbol_table.stack();
        let ghost cs = self.symbol_table.contract_list();
        match expr {
            Expr::Identifier { name, span } => {
                if self.symbol_table.lookup(name.as_str()).is_none() && !self.is_known_builtin(name.as_str()) {
                    self.push_error(SemanticError::UndefinedVariable { name: name.clone(), span: *span });
                } else {
                    self.mark(name.as_str());
                }
                proof {
                    assert(self.errors@.skip(n0) =~= if lookup_in_scopes(sc, name@) is None && !known_builtin(name@) {
                        seq![SemanticError::UndefinedVariable { name: *name, span: *span }]
                    } else {
                        Seq::<SemanticError>::empty()
                    });
                }
            },
            Expr::Binary { left, right, op, span } => {
                let ghost s0 = *self;
                self.check_expr(left);
                let ghost s1 = *self;
                self.check_expr(right);
                let ghost s2 = *self;
                proof {
                    Self::lemma_marks_trans(s0, s1, *self);
                }
                let left_type = self.infer_expr_type(left);
                let right_type = self.infer_expr_type(right);
                match op {
                    BinOp::Add | BinOp::Sub | BinOp::Mul | BinOp::Div | BinOp::Mod => {
                        if !left_type.is_numeric() && !matches!(left_type, ChronosType::Error) && !matches!(
                            left_type,
                            ChronosType::Unresolved(_),
                        ) {
                            let ghost s2 = *self;
                            self.push_error(
                                SemanticError::InvalidOperator {
                                    op: binop_name(*op),
                                    left: left_type.to_text(),
                                    right: right_type.to_text(),
                                    span: *span,
                                },
                            );
                            proof {
                                Self::lemma_marks_trans(s0, s2, *self);
                            }
                        }
                    },
                    _ => {},
                }
                proof {
                    let es = self.errors@.skip(n0);
                    let k = s1.errors@.len() - n0;
                    let m = s2.errors@.len() - n0;
                    lemma_appends_prefix(s1.errors@, s2.errors@);
                    assert(self.errors@.take(s2.errors@.len() as int) =~= s2.errors@);
                    lemma_appends_prefix(s2.errors@, self.errors@);
                    assert(es.take(k) =~= s1.errors@.skip(n0));
                    assert(es.subrange(k, m) =~= s2.errors@.skip(s1.errors@.len() as int));
                    assert(es.skip(m) =~= self.errors@.skip(s2.errors@.len() as int));
                    lemma_reports_marked(sc, s1.symbol_table.stack(), cs, **right, es.subrange(k, m));
                    lemma_infers_marked(sc, s2.symbol_table.stack(), cs, **left, left_type);
                    lemma_infers_marked(sc, s2.symbol_table.stack(), cs, **right, right_type);
                    assert(operator_reports(sc, cs, **left, **right, *op, *span, es.skip(m)));
                }
            },
            Expr::Unary { operand, .. } => {
                self.check_expr(operand);
            },
            Expr::MethodCall { object, args, .. } => {
                let ghost s0 = *self;
                self.check_expr(object);
                let ghost s1 = *self;
                self.check_args(args);
                proof {
                    Self::lemma_marks_trans(s0, s1, *self);
                    let es = self.errors@.skip(n0);
                    let k = s1.errors@.len() - n0;
                    lemma_appends_prefix(s1.errors@, self.errors@);
                    assert(es.take(k) =~= s1.errors@.skip(n0));
                    assert(es.skip(k) =~= self.errors@.skip(s1.errors@.len() as int));
                    lemma_args_marked(sc, s1.symbol_table.stack(), cs, args@, es.skip(k));
                }
            },
            Expr::FnCall { callee, args, .. } => {
                let ghost s0 = *self;
                self.check_expr(callee);
                let ghost s1 = *self;
                self.check_args(args);
                proof {
                    Self::lemma_marks_trans(s0, s1, *self);
                    let es = self.errors@.skip(n0);
                    let k = s1.errors@.len() - n0;
                    lemma_appends_prefix(s1.errors@, self.errors@);
                    assert(es.take(k) =~= s1.errors@.skip(n0));
                    assert(es.skip(k) =~= self.errors@.skip(s1.errors@.len() as int));
                    lemma_args_marked(sc, s1.symbol_table.stack(), cs, args@, es.skip(k));
                }
            },
            Expr::FieldAccess { object, .. } => {
                self.check_expr(object);
            },
            Expr::WithErrorHandler { expr: inner, handler, .. } => {
                let ghost s0 = *self;
                self.check_expr(inner);
                let ghost s1 = *self;
                self.symbol_table.push_scope(ScopeType::Block);
                let ghost s_push = *self;
                let param = Symbol {
                    name: handler.param.clone(),
                    symbol_type: ChronosType::Unresolved(owned("Error")),
                    kind: SymbolKind::Parameter,
                    mutable: false,
                    initialized: true,
                    used: false,
                    line: handler.span.line,
                    column: handler.span.column,
                };
                self.symbol_table.define(param);
                let ghost s2 = *self;
                proof {
                    lemma_only_marked_refl(s1.symbol_table.stack());
                    assert(s2.symbol_table.stack().drop_last() == s1.symbol_table.stack());
                }
                self.analyze_block(&handler.body);
                let ghost s3 = *self;
                self.symbol_table.pop_scope();
                proof {
                    assert(scopes_kept(s2.symbol_table.stack(), s3.symbol_table.stack()));
                    assert(self.symbol_table.stack() == s3.symbol_table.stack().drop_last());
                    assert(only_marked(s1.symbol_table.stack(), self.symbol_table.stack()));
                    assert(self.marks_only(s1));
                    Self::lemma_marks_trans(s0, s1, *self);
                    let es = self.errors@.skip(n0);
                    let k = s1.errors@.len() - n0;
                    lemma_appends_prefix(s1.errors@, self.errors@);
                    assert(es.take(k) =~= s1.errors@.skip(n0));
                    lemma_marked_same(s0.symbol_table.stack(), s1.symbol_table.stack());
                    assert(s2.errors@ == s1.errors@);
                    assert(es.skip(k) =~= s3.errors@.skip(s2.errors@.len() as int));
                    assert(opened(s1.symbol_table.stack(), ScopeType::Block, s_push.symbol_table.stack()));
                    assert(handler_defined(s_push.symbol_table.stack(), *handler, s2.symbol_table.stack()));
                    assert(same_depth(s2.symbol_table.stack(), s3.symbol_table.stack()));
                }
            },
            Expr::Grouped { inner, .. } => {
                self.check_expr(inner);
            },
            Expr::StructInit { fields, .. } => {
                self.check_field_values(fields);
            },
            _ => {
                proof {
                    lemma_only_marked_refl(self.symbol_table.stack());
                    assert(self.errors@.take(self.errors@.len() as int) =~= self.errors@);
                    assert(self.errors@.skip(n0).len() == 0);
                }
            },
        }
    }

    /// Checks the value of each argument.
    fn check_args(&mut self, args: &Vec<crate::ast::NamedArg>)
        requires
            old(self).symbol_table.wf(),
        ensures
            final(self).marks_only(*old(self)),
            args_reports(
                old(self).symbol_table.stack(),
                old(self).symbol_table.contract_list(),
                args@,
                final(self).errors@.skip(old(self).errors@.len() as int),
            ),
        decreases args, 0nat,
    {
        let ghost n0 = self.errors@.len() as int;
        let ghost sc = self.symbol_table.stack();
        let ghost cs = self.symbol_table.contract_list();
        proof {
            lemma_only_marked_refl(self.symbol_table.stack());
            assert(self.errors@.take(self.errors@.len() as int) =~= self.errors@);
            assert(args@.take(0) =~= Seq::<NamedArg>::empty());
        }
        let mut i: usize = 0;
        while i < args.len()
            invariant
                i <= args.len(),
                self.marks_only(*old(self)),
                old(self).symbol_table.wf(),
                n0 == old(self).errors@.len(),
                sc == old(self).symbol_table.stack(),
                cs == old(self).symbol_table.contract_list(),
                args_reports(sc, cs, args@.take(i as int), self.errors@.skip(n0)),
            decreases args.len() - i,
        {
            proof {
                assert(decreases_to!(args => args[i as int]));
                assert(decreases_to!(args[i as int] => args[i as int].value));
            }
            let ghost before = *self;
            self.check_expr(&args[i].value);
            proof {
                Self::lemma_marks_trans(*old(self), before, *self);
                let es = self.errors@.skip(n0);
                let k = before.errors@.len() - n0;
                lemma_appends_prefix(before.errors@, self.errors@);
                assert(es.take(k) =~= before.errors@.skip(n0));
                assert(es.skip(k) =~= self.errors@.skip(before.errors@.len() as int));
                lemma_reports_marked(sc, before.symbol_table.stack(), cs, args[i as int].value, es.skip(k));
                assert(args@.take(i + 1).drop_last() =~= args@.take(i as int));
                assert(args@.take(i + 1).last() == args@[i as int]);
            }
            i += 1;
        }
        proof {
            assert(args@.take(i as int) =~= args@);
        }
    }

    /// Checks the value of each `field: value` pair.
    fn check_field_values(&mut self, fields: &Vec<(String, Expr)>)
        requires
            old(self).symbol_table.wf(),
        ensures
            final(self).marks_only(*old(self)),
            fields_reports(
                old(self).symbol_table.stack(),
                old(self).symbol_table.contract_list(),
                fields@,
                final(self).errors@.skip(old(self).errors@.len() as int),
            ),
        decreases fields, 0nat,
    {
        let ghost n0 = self.errors@.len() as int;
        let ghost sc = self.symbol_table.stack();
        let ghost cs = self.symbol_table.contract_list();
        proof {
            lemma_only_marked_refl(self.symbol_table.stack());
            assert(self.errors@.take(self.errors@.len() as int) =~= self.errors@);
            assert(fields@.take(0) =~= Seq::<(String, Expr)>::empty());
        }
        let mut i: usize = 0;
        while i < fields.len()
            invariant
                i <= fields.len(),
                self.marks_only(*old(self)),
                old(self).symbol_table.wf(),
                n0 == old(self).errors@.len(),
                sc == old(self).symbol_table.stack(),
                cs == old(self).symbol_table.contract_list(),
                fields_reports(sc, cs, fields@.take(i as int), self.errors@.skip(n0)),
            decreases fields.len() - i,
        {
            proof {
                assert(decreases_to!(fields => fields[i as int]));
                assert(decreases_to!(fields[i as int] => fields[i as int].1));
            }
            let ghost before = *self;
            self.check_expr(&fields[i].1);
            proof {
                Self::lemma_marks_trans(*old(self), before, *self);
                let es = self.errors@.skip(n0);
                let k = before.errors@.len() - n0;
                lemma_appends_prefix(before.errors@, self.errors@);
                assert(es.take(k) =~= before.errors@.skip(n0));
                assert(es.skip(k) =~= self.errors@.skip(before.errors@.len() as int));
                lemma_reports_marked(sc, before.symbol_table.stack(), cs, fields[i as int].1, es.skip(k));
                assert(fields@.take(i + 1).drop_last() =~= fields@.take(i as int));
                assert(fields@.take(i + 1).last() == fields@[i as int]);
            }
            i += 1;
        }
        proof {
            assert(fields@.take(i as int) =~= fields@);
        }
    }

    /// Analyses each statement of a block, in the current scope.
    fn analyze_block(&mut self, block: &Vec<Stmt>)
        requires
            old(self).symbol_table.wf(),
        ensures
            final(self).defines_inner(*old(self)),
            block_reports(
                old(self).symbol_table.stack(),
                old(self).symbol_table.contract_list(),
                block@,
                final(self).errors@.skip(old(self).errors@.len() as int),
                final(self).symbol_table.stack(),
            ),
        decreases block, 0nat,
    {
        let ghost n0 = self.errors@.len() as int;
        let ghost sc = self.symbol_table.stack();
        let ghost cs = self.symbol_table.contract_list();
        proof {
            lemma_only_marked_refl(self.symbol_table.stack().drop_last());
            assert(self.errors@.take(self.errors@.len() as int) =~= self.errors@);
            assert(block@.take(0) =~= Seq::<Stmt>::empty());
            assert(self.errors@.skip(n0).len() == 0);
        }
        let mut i: usize = 0;
        while i < block.len()
            invariant
                i <= block.len(),
                self.defines_inner(*old(self)),
                old(self).symbol_table.wf(),
                n0 == old(self).errors@.len(),
                sc == old(self).symbol_table.stack(),
                cs == old(self).symbol_table.contract_list(),
                block_reports(sc, cs, block@.take(i as int), self.errors@.skip(n0), self.symbol_table.stack()),
            decreases block.len() - i,
        {
            proof {
                assert(decreases_to!(block => block[i as int]));
            }
            let ghost before = *self;
            self.analyze_statement(&block[i]);
            proof {
                Self::lemma_defines_trans(*old(self), before, *self);
                let es = self.errors@.skip(n0);
                let k = before.errors@.len() - n0;
                lemma_appends_prefix(before.errors@, self.errors@);
                assert(es.take(k) =~= before.errors@.skip(n0));
                assert(es.skip(k) =~= self.errors@.skip(before.errors@.len() as int));
                assert(block@.take(i + 1).drop_last() =~= block@.take(i as int));
                assert(block@.take(i + 1).last() == block@[i as int]);
                assert(same_depth(sc, before.symbol_table.stack()));
            }
            i += 1;
        }
        proof {
            assert(block@.take(i as int) =~= block@);
        }
    }

    /// Analyses a block in a new scope of the given kind, closed afterwards.
    fn analyze_scoped_block(&mut self, scope_type: ScopeType, block: &Vec<Stmt>)
        requires
            old(self).symbol_table.wf(),
        ensures
            final(self).marks_only(*old(self)),
            scoped_reports(
                old(self).symbol_table.stack(),
                old(self).symbol_table.contract_list(),
                scope_type,
                block@,
                final(self).errors@.skip(old(self).errors@.len() as int),
                final(self).symbol_table.stack(),
            ),
        decreases block, 1nat,
    {
        let ghost ty = scope_type;
        self.symbol_table.push_scope(scope_type);
        let ghost s1 = *self;
        proof {
            assert(self.symbol_table.stack().drop_last() == old(self).symbol_table.stack());
            assert(opened(old(self).symbol_table.stack(), ty, s1.symbol_table.stack()));
        }
        self.analyze_block(block);
        let ghost s2 = *self;
        self.symbol_table.pop_scope();
        proof {
            assert(scopes_kept(s1.symbol_table.stack(), s2.symbol_table.stack()));
            assert(self.symbol_table.stack() == s2.symbol_table.stack().drop_last());
        }
    }

    /// Analyses a statement.
    #[verifier::spinoff_prover]
    #[verifier::rlimit(80)]
    fn analyze_statement(&mut self, stmt: &Stmt)
        requires
            old(self).symbol_table.wf(),
        ensures
            final(self).defines_inner(*old(self)),
            stmt_reports(
                old(self).symbol_table.stack(),
                old(self).symbol_table.contract_list(),
                *stmt,
                final(self).errors@.skip(old(self).errors@.len() as int),
                final(self).symbol_table.stack(),
            ),
        decreases stmt, 0nat,
    {
        let ghost s0 = *self;
        proof {
            lemma_only_marked_refl(self.symbol_table.stack());
            assert(self.errors@.take(self.errors@.len() as int) =~= self.errors@);
            assert(self.marks_only(s0));
        }
        match stmt {
            Stmt::Let { mutable, name, type_expr, initializer, span, .. } => {
                if self.symbol_table.lookup_current_scope(name.as_str()).is_some() {
                    self.push_error(SemanticError::AlreadyDeclared { name: name.clone(), span: *span });
                    proof {
                        Self::lemma_marks_defines(s0, *self);
                        assert(self.errors@.skip(s0.errors@.len() as int) =~= seq![
                            SemanticError::AlreadyDeclared { name: *name, span: *span },
                        ]);
                        assert(stmt_reports(
                        s0.symbol_table.stack(),
                        s0.symbol_table.contract_list(),
                        *stmt,
                        self.errors@.skip(s0.errors@.len() as int),
                        self.symbol_table.stack(),
                    ));
                    }
                    return;
                }
                let declared_type = self.resolve_type(type_expr);
                let init_type = self.infer_expr_type(initializer);
                let ghost d = declared_type;
                let ghost u = init_type;
                if !declared_type.is_assignable_from(&init_type) {
                    self.push_error(
                        SemanticError::TypeMismatch {
                            expected: declared_type.to_text(),
                            found: init_type.to_text(),
                            span: *span,
                        },
                    );
                }
                let ghost s1 = *self;
                let sym = Symbol {
                    name: name.clone(),
                    symbol_type: declared_type,
                    kind: SymbolKind::Variable,
                    mutable: *mutable,
                    initialized: true,
                    used: false,
                    line: span.line,
                    column: span.column,
                };
                self.symbol_table.define(sym);
                let ghost s2 = *self;
                proof {
                    Self::lemma_marks_defines(s0, s1);
                    lemma_only_marked_refl(s1.symbol_table.stack().drop_last());
                    assert(self.errors@.take(self.errors@.len() as int) =~= self.errors@);
                    assert(s2.defines_inner(s1));
                    Self::lemma_defines_trans(s0, s1, s2);
                }
                self.check_expr(initializer);
                proof {
                    lemma_reports_marked(
                        s2.symbol_table.stack(),
                        self.symbol_table.stack(),
                        s0.symbol_table.contract_list(),
                        *initializer,
                        self.errors@.skip(s1.errors@.len() as int),
                    );
                    Self::lemma_marks_defines(s2, *self);
                    Self::lemma_defines_trans(s0, s2, *self);
                    let st2 = s2.symbol_table.stack();
                    let st3 = self.symbol_table.stack();
                    assert(marked_scope(st2[st2.len() - 1], st3[st2.len() - 1]));
                    lemma_marked_scope_get(st2.last(), st3.last(), name@);
                    if !assignable(d, u) {
                        lemma_appends_keeps(s1.errors@, self.errors@, s0.errors@.len() as int);
                    }
                    assert(resolves_to(*type_expr, d) && infers(
                        s0.symbol_table.stack(),
                        s0.symbol_table.contract_list(),
                        *initializer,
                        u,
                    ));
                    let es = self.errors@.skip(s0.errors@.len() as int);
                    if !assignable(d, u) {
                        assert(es.skip(1) =~= self.errors@.skip(s0.errors@.len() as int + 1));
                    } else {
                        assert(es =~= self.errors@.skip(s2.errors@.len() as int));
                    }
                    assert(defines_variable(
                        s0.symbol_table.stack(),
                        st2,
                        *name,
                        d,
                        *mutable,
                        *span,
                    ));
                    assert(only_marked(st2, st3));
                    assert(stmt_reports(
                        s0.symbol_table.stack(),
                        s0.symbol_table.contract_list(),
                        *stmt,
                        self.errors@.skip(s0.errors@.len() as int),
                        self.symbol_table.stack(),
                    ));
                }
            },
            Stmt::Return { value, .. } => {
                if let Some(e) = value {
                    self.check_expr(e);
                }
                proof {
                    Self::lemma_marks_defines(s0, *self);
                    assert(stmt_reports(
                        s0.symbol_table.stack(),
                        s0.symbol_table.contract_list(),
                        *stmt,
                        self.errors@.skip(s0.errors@.len() as int),
                        self.symbol_table.stack(),
                    ));
                }
            },
            Stmt::Guard { condition, else_block, .. } => {
                let _cond_type = self.infer_expr_type(condition);
                self.check_expr(condition);
                let ghost s1 = *self;
                self.analyze_scoped_block(ScopeType::Block, else_block);
                proof {
                    Self::lemma_marks_trans(s0, s1, *self);
                    Self::lemma_marks_defines(s0, *self);
                    lemma_condition_reports(s0.errors@, s1.errors@, self.errors@);
                    let n = s0.errors@.len() as int;
                    let es = self.errors@.skip(n);
                    let k = s1.errors@.len() - n;
                    lemma_appends_prefix(s1.errors@, self.errors@);
                    assert(es.take(k) =~= s1.errors@.skip(n));
                    assert(es.skip(k) =~= self.errors@.skip(s1.errors@.len() as int));
                    assert(only_marked(s0.symbol_table.stack(), s1.symbol_table.stack()));
                    assert(expr_reports(s0.symbol_table.stack(), s0.symbol_table.contract_list(), *condition, es.take(k)));
                    assert(stmt_reports(
                        s0.symbol_table.stack(),
                        s0.symbol_table.contract_list(),
                        *stmt,
                        self.errors@.skip(s0.errors@.len() as int),
                        self.symbol_table.stack(),
                    ));
                }
            },
            Stmt::If { condition, then_block, else_if_blocks, else_block, .. } => {
                self.check_expr(condition);
                let ghost s1 = *self;
                let ghost e1 = self.errors@;
                self.analyze_scoped_block(ScopeType::Block, then_block);
                let ghost s2 = *self;
                self.analyze_else_ifs(else_if_blocks);
                let ghost s3 = *self;
                proof {
                    Self::lemma_marks_trans(s0, s1, s2);
                    Self::lemma_marks_trans(s0, s2, s3);
                    Self::lemma_marks_refl(s3);
                }
                if let Some(b) = else_block {
                    self.analyze_scoped_block(ScopeType::Block, b);
                }
                proof {
                    Self::lemma_marks_trans(s0, s3, *self);
                    Self::lemma_marks_defines(s0, *self);
                    Self::lemma_marks_trans(s1, s2, s3);
                    Self::lemma_marks_trans(s1, s3, *self);
                    Self::lemma_marks_trans(s2, s3, *self);
                    lemma_condition_reports(s0.errors@, e1, self.errors@);
                    let n = s0.errors@.len() as int;
                    let es = self.errors@.skip(n);
                    let k1 = s1.errors@.len() - n;
                    let k2 = s2.errors@.len() - n;
                    let k3 = s3.errors@.len() - n;
                    lemma_appends_prefix(s1.errors@, self.errors@);
                    lemma_appends_prefix(s2.errors@, self.errors@);
                    lemma_appends_prefix(s3.errors@, self.errors@);
                    assert(es.take(k1) =~= s1.errors@.skip(n));
                    assert(es.subrange(k1, k2) =~= s2.errors@.skip(s1.errors@.len() as int));
                    assert(es.subrange(k2, k3) =~= s3.errors@.skip(s2.errors@.len() as int));
                    assert(es.skip(k3) =~= self.errors@.skip(s3.errors@.len() as int));
                    assert(only_marked(s0.symbol_table.stack(), s1.symbol_table.stack()));
                    assert(same_depth(s2.symbol_table.stack(), s3.symbol_table.stack()));
                    assert(expr_reports(s0.symbol_table.stack(), s0.symbol_table.contract_list(), *condition, es.take(k1)));
                    assert(stmt_reports(
                        s0.symbol_table.stack(),
                        s0.symbol_table.contract_list(),
                        *stmt,
                        self.errors@.skip(s0.errors@.len() as int),
                        self.symbol_table.stack(),
                    ));
                }
            },
            Stmt::While { condition, body, .. } => {
                self.check_expr(condition);
                let ghost s1 = *self;
                self.analyze_scoped_block(ScopeType::Loop, body);
                proof {
                    Self::lemma_marks_trans(s0, s1, *self);
                    Self::lemma_marks_defines(s0, *self);
                    lemma_condition_reports(s0.errors@, s1.errors@, self.errors@);
                    let n = s0.errors@.len() as int;
                    let es = self.errors@.skip(n);
                    let k = s1.errors@.len() - n;
                    lemma_appends_prefix(s1.errors@, self.errors@);
                    assert(es.take(k) =~= s1.errors@.skip(n));
                    assert(es.skip(k) =~= self.errors@.skip(s1.errors@.len() as int));
                    assert(only_marked(s0.symbol_table.stack(), s1.symbol_table.stack()));
                    assert(expr_reports(s0.symbol_table.stack(), s0.symbol_table.contract_list(), *condition, es.take(k)));
                    assert(stmt_reports(
                        s0.symbol_table.stack(),
                        s0.symbol_table.contract_list(),
                        *stmt,
                        self.errors@.skip(s0.errors@.len() as int),
                        self.symbol_table.stack(),
                    ));
                }
            },
            Stmt::Match { value, arms, .. } => {
                self.check_expr(value);
                let ghost s1 = *self;
                self.analyze_arms(arms);
                proof {
                    Self::lemma_marks_trans(s0, s1, *self);
                    Self::lemma_marks_defines(s0, *self);
                    lemma_condition_reports(s0.errors@, s1.errors@, self.errors@);
                    let n = s0.errors@.len() as int;
                    let es = self.errors@.skip(n);
                    let k = s1.errors@.len() - n;
                    lemma_appends_prefix(s1.errors@, self.errors@);
                    assert(es.take(k) =~= s1.errors@.skip(n));
                    assert(es.skip(k) =~= self.errors@.skip(s1.errors@.len() as int));
                    assert(only_marked(s0.symbol_table.stack(), s1.symbol_table.stack()));
                    assert(expr_reports(s0.symbol_table.stack(), s0.symbol_table.contract_list(), *value, es.take(k)));
                    assert(stmt_reports(
                        s0.symbol_table.stack(),
                        s0.symbol_table.contract_list(),
                        *stmt,
                        self.errors@.skip(s0.errors@.len() as int),
                        self.symbol_table.stack(),
                    ));
                }
            },
            Stmt::Assignment { target, value, span } => {
                if let Expr::Identifier { name, .. } = target {
                    match self.symbol_table.lookup(name.as_str()) {
                        Some(sym) => {
                            if !sym.mutable {
                                self.push_error(
                                    SemanticError::ImmutableAssignment { name: name.clone(), span: *span },
                                );
                            }
                        },
                        None => {
                            self.push_error(SemanticError::UndefinedVariable { name: name.clone(), span: *span });
                        },
                    }
                    let ghost s1 = *self;
                    self.mark(name.as_str());
                    proof {
                        Self::lemma_marks_trans(s0, s1, *self);
                    }
                }
                let ghost s2 = *self;
                self.check_expr(value);
                proof {
                    lemma_reports_marked(
                        s0.symbol_table.stack(),
                        s2.symbol_table.stack(),
                        s0.symbol_table.contract_list(),
                        *value,
                        self.errors@.skip(s2.errors@.len() as int),
                    );
                    Self::lemma_marks_trans(s0, s2, *self);
                    Self::lemma_marks_defines(s0, *self);
                    let n = s0.errors@.len() as int;
                    if s2.errors@.len() > s0.errors@.len() {
                        lemma_appends_keeps(s2.errors@, self.errors@, n);
                        assert(self.errors@.skip(n).skip(1) =~= self.errors@.skip(n + 1));
                        assert(self.errors@.skip(n)[0] == self.errors@[n]);
                    }
                    assert(stmt_reports(
                        s0.symbol_table.stack(),
                        s0.symbol_table.contract_list(),
                        *stmt,
                        self.errors@.skip(s0.errors@.len() as int),
                        self.symbol_table.stack(),
                    ));
                }
            },
            Stmt::Expression { expr, .. } => {
                self.check_expr(expr);
                proof {
                    Self::lemma_marks_defines(s0, *self);
                    assert(stmt_reports(
                        s0.symbol_table.stack(),
                        s0.symbol_table.contract_list(),
                        *stmt,
                        self.errors@.skip(s0.errors@.len() as int),
                        self.symbol_table.stack(),
                    ));
                }
            },
            Stmt::Break { span } => {
                if !self.is_inside_loop() {
                    self.push_error(SemanticError::BreakOutsideLoop { span: *span });
                }
                proof {
                    Self::lemma_marks_defines(s0, *self);
                    assert(self.errors@.skip(s0.errors@.len() as int) =~= if self.errors@.len() == s0.errors@.len() {
                        Seq::<SemanticError>::empty()
                    } else {
                        seq![SemanticError::BreakOutsideLoop { span: *span }]
                    });
                    assert(stmt_reports(
                        s0.symbol_table.stack(),
                        s0.symbol_table.contract_list(),
                        *stmt,
                        self.errors@.skip(s0.errors@.len() as int),
                        self.symbol_table.stack(),
                    ));
                }
            },
            Stmt::Continue { span } => {
                if !self.is_inside_loop() {
                    self.push_error(SemanticError::ContinueOutsideLoop { span: *span });
                }
                proof {
                    Self::lemma_marks_defines(s0, *self);
                    assert(self.errors@.skip(s0.errors@.len() as int) =~= if self.errors@.len() == s0.errors@.len() {
                        Seq::<SemanticError>::empty()
                    } else {
                        seq![SemanticError::ContinueOutsideLoop { span: *span }]
                    });
                    assert(stmt_reports(
                        s0.symbol_table.stack(),
                        s0.symbol_table.contract_list(),
                        *stmt,
                        self.errors@.skip(s0.errors@.len() as int),
                        self.symbol_table.stack(),
                    ));
                }
            },
        }
    }

    /// Checks each `else if` condition and analyses its block in a scope of
    /// its own.
    fn analyze_else_ifs(&mut self, bs: &Vec<(Expr, Vec<Stmt>)>)
        requires
            old(self).symbol_table.wf(),
        ensures
            final(self).marks_only(*old(self)),
            elifs_reports(
                old(self).symbol_table.stack(),
                old(self).symbol_table.contract_list(),
                bs@,
                final(self).errors@.skip(old(self).errors@.len() as int),
                final(self).symbol_table.stack(),
            ),
        decreases bs, 0nat,
    {
        let ghost n0 = self.errors@.len() as int;
        let ghost sc = self.symbol_table.stack();
        let ghost cs = self.symbol_table.contract_list();
        proof {
            lemma_only_marked_refl(self.symbol_table.stack());
            assert(self.errors@.take(self.errors@.len() as int) =~= self.errors@);
            assert(bs@.take(0) =~= Seq::<(Expr, Vec<Stmt>)>::empty());
            assert(self.errors@.skip(n0).len() == 0);
        }
        let mut i: usize = 0;
        while i < bs.len()
            invariant
                i <= bs.len(),
                self.marks_only(*old(self)),
                old(self).symbol_table.wf(),
                n0 == old(self).errors@.len(),
                sc == old(self).symbol_table.stack(),
                cs == old(self).symbol_table.contract_list(),
                elifs_reports(sc, cs, bs@.take(i as int), self.errors@.skip(n0), self.symbol_table.stack()),
            decreases bs.len() - i,
        {
            proof {
                assert(decreases_to!(bs => bs[i as int]));
                assert(decreases_to!(bs[i as int] => bs[i as int].0));
                assert(decreases_to!(bs[i as int] => bs[i as int].1));
            }
            let ghost before = *self;
            self.check_expr(&bs[i].0);
            let ghost mid = *self;
            self.analyze_scoped_block(ScopeType::Block, &bs[i].1);
            proof {
                Self::lemma_marks_trans(before, mid, *self);
                Self::lemma_marks_trans(*old(self), before, *self);
                let es = self.errors@.skip(n0);
                let k = before.errors@.len() - n0;
                let k2 = mid.errors@.len() - n0;
                lemma_appends_prefix(before.errors@, mid.errors@);
                lemma_appends_prefix(mid.errors@, self.errors@);
                lemma_appends_prefix(before.errors@, self.errors@);
                assert(es.take(k) =~= before.errors@.skip(n0));
                assert(es.subrange(k, k2) =~= mid.errors@.skip(before.errors@.len() as int));
                assert(es.skip(k2) =~= self.errors@.skip(mid.errors@.len() as int));
                assert(bs@.take(i + 1).drop_last() =~= bs@.take(i as int));
                assert(bs@.take(i + 1).last() == bs@[i as int]);
            }
            i += 1;
        }
        proof {
            assert(bs@.take(i as int) =~= bs@);
        }
    }

    /// Analyses each arm's body in a scope of its own.
    fn analyze_arms(&mut self, arms: &Vec<MatchArm>)
        requires
            old(self).symbol_table.wf(),
        ensures
            final(self).marks_only(*old(self)),
            arms_reports(
                old(self).symbol_table.stack(),
                old(self).symbol_table.contract_list(),
                arms@,
                final(self).errors@.skip(old(self).errors@.len() as int),
                final(self).symbol_table.stack(),
            ),
        decreases arms, 0nat,
    {
        let ghost n0 = self.errors@.len() as int;
        let ghost sc = self.symbol_table.stack();
        let ghost cs = self.symbol_table.contract_list();
        proof {
            lemma_only_marked_refl(self.symbol_table.stack());
            assert(self.errors@.take(self.errors@.len() as int) =~= self.errors@);
            assert(arms@.take(0) =~= Seq::<MatchArm>::empty());
            assert(self.errors@.skip(n0).len() == 0);
        }
        let mut i: usize = 0;
        while i < arms.len()
            invariant
                i <= arms.len(),
                self.marks_only(*old(self)),
                old(self).symbol_table.wf(),
                n0 == old(self).errors@.len(),
                sc == old(self).symbol_table.stack(),
                cs == old(self).symbol_table.contract_list(),
                arms_reports(sc, cs, arms@.take(i as int), self.errors@.skip(n0), self.symbol_table.stack()),
            decreases arms.len() - i,
        {
            proof {
                assert(decreases_to!(arms => arms[i as int]));
                assert(decreases_to!(arms[i as int] => arms[i as int].body));
            }
            let ghost before = *self;
            self.analyze_scoped_block(ScopeType::Block, &arms[i].body);
            proof {
                Self::lemma_marks_trans(*old(self), before, *self);
                let es = self.errors@.skip(n0);
                let k = before.errors@.len() - n0;
                lemma_appends_prefix(before.errors@, self.errors@);
                assert(es.take(k) =~= before.errors@.skip(n0));
                assert(es.skip(k) =~= self.errors@.skip(before.errors@.len() as int));
                assert(arms@.take(i + 1).drop_last() =~= arms@.take(i as int));
                assert(arms@.take(i + 1).last() == arms@[i as int]);
                assert(same_depth(sc, before.symbol_table.stack()));
            }
            i += 1;
        }
        proof {
            assert(arms@.take(i as int) =~= arms@);
        }
    }
}

impl Analyzer {
    /// Reports a missing `return` when the declared return type is not
    /// `Void` and the body does not end in `return` on every path.
    fn check_return(&mut self, fn_name: &str, return_type: &TypeExpr, body: &Vec<Stmt>, span: Span)
        ensures
            final(self).warnings == old(self).warnings,
            final(self).symbol_table == old(self).symbol_table,
            names_void(*return_type) || block_returns(body@) ==> final(self).errors == old(self).errors,
            !(names_void(*return_type) || block_returns(body@)) ==> {
                &&& final(self).errors@.len() == old(self).errors@.len() + 1
                &&& final(self).errors@.drop_last() == old(self).errors@
                &&& final(self).errors@.last() matches SemanticError::MissingReturn { name, return_type: rt, span: sp }
                &&& name@ == fn_name@
                &&& sp == span
                &&& exists|t: ChronosType| #[trigger] resolves_to(*return_type, t) && rt@ == type_text(t)
            },
    {
        let expected = self.resolve_type(return_type);
        proof {
            lemma_resolves_void(*return_type, expected);
            Self::lemma_marks_refl(*self);
        }
        if matches!(expected, ChronosType::Void) {
            return;
        }
        let guaranteed = self.block_guarantees_return(body);
        if !guaranteed {
            self.errors.push(
                SemanticError::MissingReturn { name: owned(fn_name), return_type: expected.to_text(), span },
            );
            assert(self.errors@.drop_last() =~= old(self).errors@);
        }
    }

    /// Defines each parameter in the current scope.
    pub fn register_params(&mut self, params: &Vec<Param>)
        requires
            old(self).symbol_table.wf(),
        ensures
            final(self).defines_inner(*old(self)),
            final(self).errors == old(self).errors,
            forall|i: int| 0 <= i < params@.len() ==> (keyed_get(
                final(self).symbol_table.stack().last().symbols@,
                (#[trigger] params@[i]).name@,
            ) matches Some(s) && s.kind == SymbolKind::Parameter && !s.mutable && s.initialized),
            params_defined(old(self).symbol_table.stack(), params@, final(self).symbol_table.stack()),
    {
        proof {
            lemma_only_marked_refl(self.symbol_table.stack().drop_last());
            assert(self.errors@.take(self.errors@.len() as int) =~= self.errors@);
            assert(params@.take(0) =~= Seq::<Param>::empty());
        }
        let mut i: usize = 0;
        while i < params.len()
            invariant
                i <= params.len(),
                self.defines_inner(*old(self)),
                self.errors == old(self).errors,
                self.symbol_table.wf(),
                old(self).symbol_table.wf(),
                forall|j: int| 0 <= j < i ==> (keyed_get(
                    self.symbol_table.stack().last().symbols@,
                    (#[trigger] params@[j]).name@,
                ) matches Some(s) && s.kind == SymbolKind::Parameter && !s.mutable && s.initialized),
                params_defined(old(self).symbol_table.stack(), params@.take(i as int), self.symbol_table.stack()),
            decreases params.len() - i,
        {
            let param = &params[i];
            let ty = self.resolve_type(&param.type_expr);
            let ghost before = *self;
            self.symbol_table.define(
                Symbol {
                    name: param.name.clone(),
                    symbol_type: ty,
                    kind: SymbolKind::Parameter,
                    mutable: false,
                    initialized: true,
                    used: false,
                    line: param.span.line,
                    column: param.span.column,
                },
            );
            proof {
                lemma_only_marked_refl(before.symbol_table.stack().drop_last());
                Self::lemma_defines_trans(*old(self), before, *self);
                assert forall|j: int| 0 <= j <= i implies (keyed_get(
                    self.symbol_table.stack().last().symbols@,
                    (#[trigger] params@[j]).name@,
                ) matches Some(s) && s.kind == SymbolKind::Parameter && !s.mutable && s.initialized) by {
                    if params@[j].name@ != params@[i as int].name@ {
                        assert(keyed_get(self.symbol_table.stack().last().symbols@, params@[j].name@) == keyed_get(
                            before.symbol_table.stack().last().symbols@,
                            params@[j].name@,
                        ));
                    }
                }
                let s0 = old(self).symbol_table.stack();
                let sb = before.symbol_table.stack();
                let sa = self.symbol_table.stack();
                let pa = params@.take(i as int);
                let pb = params@.take(i + 1);
                let p = params@[i as int];
                assert(pb[i as int] == p);
                assert forall|j: int| 0 <= j < pb.len() && last_param_named(pb, j) implies exists|d: ChronosType|
                    #[trigger] resolves_to(pb[j].type_expr, d) && keyed_get(sa.last().symbols@, pb[j].name@) == Some(
                        param_symbol(pb[j], d),
                    ) by {
                    if j == i {
                        assert(resolves_to(p.type_expr, ty));
                        assert(keyed_get(sa.last().symbols@, p.name@) == Some(param_symbol(p, ty)));
                    } else {
                        assert(pb[j] == pa[j]);
                        assert(pb[i as int].name@ != pb[j].name@);
                        assert forall|m: int| j < m < pa.len() implies (#[trigger] pa[m]).name@ != pa[j].name@ by {
                            assert(pa[m] == pb[m]);
                        }
                        assert(last_param_named(pa, j));
                        assert(keyed_get(sa.last().symbols@, pa[j].name@) == keyed_get(sb.last().symbols@, pa[j].name@));
                    }
                }
                assert forall|k: Seq<char>| (forall|j: int| 0 <= j < pb.len() ==> (#[trigger] pb[j]).name@ != k) implies #[trigger] keyed_get(
                    sa.last().symbols@,
                    k,
                ) == keyed_get(s0.last().symbols@, k) by {
                    assert(pb[i as int].name@ != k);
                    assert forall|j: int| 0 <= j < pa.len() implies (#[trigger] pa[j]).name@ != k by {
                        assert(pa[j] == pb[j]);
                    }
                    assert(keyed_get(sa.last().symbols@, k) == keyed_get(sb.last().symbols@, k));
                }
            }
            i += 1;
        }
        proof {
            assert(params@.take(i as int) =~= params@);
        }
    }

    /// Analyses a function: its parameters and body in a scope of its own,
    /// and its return paths.
    fn analyze_function_body(&mut self, f: &FnDecl)
        requires
            old(self).symbol_table.wf(),
        ensures
            final(self).marks_only_fn(*old(self)),
            reports_missing(final(self).errors@, old(self).errors@.len() as int, seq![*f]),
            fn_reports(
                old(self).symbol_table.stack(),
                old(self).symbol_table.contract_list(),
                *f,
                final(self).errors@.skip(old(self).errors@.len() as int),
                final(self).symbol_table.stack(),
            ),
    {
        self.symbol_table.push_scope(ScopeType::Function(f.name.clone()));
        let ghost s1 = *self;
        proof {
            assert(self.symbol_table.stack().drop_last() == old(self).symbol_table.stack());
            lemma_only_marked_refl(s1.symbol_table.stack().drop_last());
        }
        self.register_params(&f.params);
        let ghost s2 = *self;
        self.analyze_block(&f.body);
        let ghost s3 = *self;
        self.check_return(f.name.as_str(), &f.return_type, &f.body, f.span);
        proof {
            Self::lemma_defines_trans(s1, s2, s3);
        }
        let ghost s4 = *self;
        self.symbol_table.pop_scope();
        proof {
            assert(scopes_kept(s1.symbol_table.stack(), s4.symbol_table.stack()));
            assert(self.symbol_table.stack() == s4.symbol_table.stack().drop_last());
            let n = old(self).errors@.len();
            let m = s3.errors@.len();
            let e = self.errors@;
            assert(s1.errors@ == old(self).errors@);
            assert(e.take(m as int) =~= s3.errors@);
            assert(e.take(n as int) =~= old(self).errors@) by {
                assert(s3.errors@.take(n as int) == old(self).errors@);
                assert forall|j: int| 0 <= j < n implies e.take(n as int)[j] == old(self).errors@[j] by {
                    assert(e[j] == e.take(m as int)[j]);
                    assert(s3.errors@[j] == s3.errors@.take(n as int)[j]);
                }
            }
            assert forall|j: int| n <= j < e.len() implies !((#[trigger] e[j]) is UnusedVariable) by {
                if j < m {
                    assert(e[j] == e.take(m as int)[j]);
                }
            }
            let fs = seq![*f];
            assert(fs[0] == *f);
            assert forall|k: int| #![trigger e[k]] n <= k < e.len() && e[k] is MissingReturn implies exists|i: int|
                #![trigger fs[i]]
                0 <= i < fs.len() && missing_return(fs[i]) && e[k]->MissingReturn_name@ == fs[i].name@
                    && e[k]->MissingReturn_span == fs[i].span by {
                if k < m {
                    assert(e[k] == e.take(m as int)[k]);
                    assert(!(s3.errors@[k] is MissingReturn));
                } else {
                    assert(missing_return(fs[0]));
                }
            }
            if missing_return(*f) {
                assert(e[e.len() - 1] is MissingReturn);
            }
            let es = e.skip(n as int);
            let k = m - n;
            assert(s2.errors@ == old(self).errors@);
            assert(es.take(k) =~= s3.errors@.skip(s2.errors@.len() as int));
            assert(es.skip(k) =~= e.skip(m as int));
            if missing_return(*f) {
                assert(e.skip(m as int) =~= seq![e[m as int]]);
            } else {
                assert(e.skip(m as int).len() == 0);
            }
            assert(opened(old(self).symbol_table.stack(), ScopeType::Function(f.name), s1.symbol_table.stack()));
            assert(params_defined(s1.symbol_table.stack(), f.params@, s2.symbol_table.stack()));
            assert(missing_reports(*f, es.skip(k)));
            assert(self.symbol_table.stack() == s4.symbol_table.stack().drop_last());
            reveal(fn_reports);
        }
    }

    /// Analyses a method of a contract.
    fn analyze_method(&mut self, method: &FnDecl)
        requires
            old(self).symbol_table.wf(),
        ensures
            final(self).marks_only_fn(*old(self)),
            reports_missing(final(self).errors@, old(self).errors@.len() as int, seq![*method]),
            fn_reports(
                old(self).symbol_table.stack(),
                old(self).symbol_table.contract_list(),
                *method,
                final(self).errors@.skip(old(self).errors@.len() as int),
                final(self).symbol_table.stack(),
            ),
    {
        self.analyze_function_body(method);
    }

    /// Analyses a contract: its fields are defined in a scope of the
    /// contract, then each method is analysed there.
    fn analyze_contract(&mut self, contract: &ContractDecl)
        requires
            old(self).symbol_table.wf(),
        ensures
            final(self).marks_only_fn(*old(self)),
            reports_missing(final(self).errors@, old(self).errors@.len() as int, method_fns(contract.members@)),
            contract_reports(
                old(self).symbol_table.stack(),
                old(self).symbol_table.contract_list(),
                *contract,
                final(self).errors@.skip(old(self).errors@.len() as int),
                final(self).symbol_table.stack(),
            ),
    {
        self.symbol_table.push_scope(ScopeType::Contract(contract.name.clone()));
        let ghost s1 = *self;
        proof {
            assert(self.symbol_table.stack().drop_last() == old(self).symbol_table.stack());
            lemma_only_marked_refl(s1.symbol_table.stack().drop_last());
            assert(self.errors@.take(self.errors@.len() as int) =~= self.errors@);
            assert(contract.members@.take(0) =~= Seq::<ContractMember>::empty());
        }
        let mut i: usize = 0;
        while i < contract.members.len()
            invariant
                i <= contract.members.len(),
                self.defines_inner(s1),
                self.errors == s1.errors,
                self.symbol_table.wf(),
                s1.symbol_table.wf(),
                fields_defined(s1.symbol_table.stack(), contract.members@.take(i as int), self.symbol_table.stack()),
            decreases contract.members.len() - i,
        {
            let ghost before = *self;
            let ghost ma = contract.members@.take(i as int);
            let ghost mb = contract.members@.take(i + 1);
            proof {
                assert(mb[i as int] == contract.members@[i as int]);
                assert forall|j: int| 0 <= j < ma.len() implies #[trigger] ma[j] == mb[j] by {}
            }
            if let ContractMember::Field(f) = &contract.members[i] {
                let ty = self.resolve_type(&f.type_expr);
                let ghost before = *self;
                self.symbol_table.define(
                    Symbol {
                        name: f.name.clone(),
                        symbol_type: ty,
                        kind: SymbolKind::Field,
                        mutable: true,
                        initialized: false,
                        used: false,
                        line: f.span.line,
                        column: f.span.column,
                    },
                );
                proof {
                    lemma_only_marked_refl(before.symbol_table.stack().drop_last());
                    assert(self.errors@.take(self.errors@.len() as int) =~= self.errors@);
                    Self::lemma_defines_trans(s1, before, *self);
                    let s0 = s1.symbol_table.stack();
                    let sb = before.symbol_table.stack();
                    let sa = self.symbol_table.stack();
                    assert forall|j: int| 0 <= j < mb.len() && mb[j] is Field && last_field_named(mb, j) implies exists|d: ChronosType|
                        #[trigger] resolves_to(mb[j]->Field_0.type_expr, d) && keyed_get(sa.last().symbols@, mb[j]->Field_0.name@)
                            == Some(field_symbol(mb[j]->Field_0, d)) by {
                        if j == i {
                            assert(resolves_to(f.type_expr, ty));
                            assert(keyed_get(sa.last().symbols@, f.name@) == Some(field_symbol(*f, ty)));
                        } else {
                            assert(mb[i as int] is Field);
                            assert(mb[i as int]->Field_0.name@ != mb[j]->Field_0.name@);
                            assert forall|m: int| j < m < ma.len() && (#[trigger] ma[m]) is Field implies ma[m]->Field_0.name@ != ma[j]->Field_0.name@ by {
                                assert(ma[m] == mb[m]);
                            }
                            assert(last_field_named(ma, j));
                            assert(keyed_get(sa.last().symbols@, ma[j]->Field_0.name@) == keyed_get(sb.last().symbols@, ma[j]->Field_0.name@));
                        }
                    }
                    assert forall|k: Seq<char>| (forall|j: int| 0 <= j < mb.len() && (#[trigger] mb[j]) is Field ==> mb[j]->Field_0.name@ != k)
                        implies #[trigger] keyed_get(sa.last().symbols@, k) == keyed_get(s0.last().symbols@, k) by {
                        assert(mb[i as int] is Field);
                        assert(mb[i as int]->Field_0.name@ != k);
                        assert forall|j: int| 0 <= j < ma.len() && (#[trigger] ma[j]) is Field implies ma[j]->Field_0.name@ != k by {
                            assert(ma[j] == mb[j]);
                        }
                        assert(keyed_get(sa.last().symbols@, k) == keyed_get(sb.last().symbols@, k));
                    }
                }
            } else {
                proof {
                    let sa = self.symbol_table.stack();
                    let s0 = s1.symbol_table.stack();
                    assert forall|j: int| 0 <= j < mb.len() && mb[j] is Field && last_field_named(mb, j) implies exists|d: ChronosType|
                        #[trigger] resolves_to(mb[j]->Field_0.type_expr, d) && keyed_get(sa.last().symbols@, mb[j]->Field_0.name@)
                            == Some(field_symbol(mb[j]->Field_0, d)) by {
                        assert(j != i);
                        assert forall|m: int| j < m < ma.len() && (#[trigger] ma[m]) is Field implies ma[m]->Field_0.name@ != ma[j]->Field_0.name@ by {
                            assert(ma[m] == mb[m]);
                        }
                        assert(last_field_named(ma, j));
                    }
                    assert forall|k: Seq<char>| (forall|j: int| 0 <= j < mb.len() && (#[trigger] mb[j]) is Field ==> mb[j]->Field_0.name@ != k)
                        implies #[trigger] keyed_get(sa.last().symbols@, k) == keyed_get(s0.last().symbols@, k) by {
                        assert forall|j: int| 0 <= j < ma.len() && (#[trigger] ma[j]) is Field implies ma[j]->Field_0.name@ != k by {
                            assert(ma[j] == mb[j]);
                        }
                    }
                }
            }
            i += 1;
        }
        proof {
            assert(contract.members@.take(i as int) =~= contract.members@);
        }
        let ghost sm = *self;
        self.analyze_methods(&contract.members);
        let ghost s2 = *self;
        self.symbol_table.pop_scope();
        proof {
            assert(self.symbol_table.stack() == s2.symbol_table.stack().drop_last());
            lemma_scopes_kept_trans(s1.symbol_table.stack(), sm.symbol_table.stack(), s2.symbol_table.stack());
            lemma_reports_trans(s1.errors@, sm.errors@, s2.errors@);
            assert(s1.errors@ == old(self).errors@);
            assert(opened(old(self).symbol_table.stack(), ScopeType::Contract(contract.name), s1.symbol_table.stack()));
            assert(fields_defined(s1.symbol_table.stack(), contract.members@, sm.symbol_table.stack()));
        }
    }

    /// Analyses, in turn, the methods among the members of a contract.
    fn analyze_methods(&mut self, members: &Vec<ContractMember>)
        requires
            old(self).symbol_table.wf(),
        ensures
            final(self).defines_inner_fn(*old(self)),
            final(self).symbol_table.wf(),
            reports_missing(final(self).errors@, old(self).errors@.len() as int, method_fns(members@)),
            methods_reports(
                old(self).symbol_table.stack(),
                old(self).symbol_table.contract_list(),
                members@,
                final(self).errors@.skip(old(self).errors@.len() as int),
                final(self).symbol_table.stack(),
            ),
    {
        let ghost n0 = self.errors@.len() as int;
        let ghost sc = self.symbol_table.stack();
        let ghost cs = self.symbol_table.contract_list();
        proof {
            lemma_only_marked_refl(self.symbol_table.stack().drop_last());
            assert(self.errors@.take(self.errors@.len() as int) =~= self.errors@);
            assert(members@.take(0) =~= Seq::<ContractMember>::empty());
            lemma_methods_none(sc, cs, self.errors@.skip(n0));
            lemma_reports_missing_none(self.errors@, n0, Seq::<FnDecl>::empty());
        }
        let mut k: usize = 0;
        while k < members.len()
            invariant
                k <= members.len(),
                old(self).symbol_table.wf(),
                self.defines_inner_fn(*old(self)),
                self.symbol_table.wf(),
                n0 == old(self).errors@.len(),
                sc == old(self).symbol_table.stack(),
                cs == old(self).symbol_table.contract_list(),
                reports_missing(self.errors@, n0, method_fns(members@.take(k as int))),
                methods_reports(sc, cs, members@.take(k as int), self.errors@.skip(n0), self.symbol_table.stack()),
            decreases members.len() - k,
        {
            let ghost before = *self;
            proof {
                assert(members@.take(k + 1).drop_last() =~= members@.take(k as int));
            }
            if let ContractMember::Method(m) = &members[k] {
                self.analyze_method(m);
                proof {
                    lemma_only_marked_kept(before.symbol_table.stack(), self.symbol_table.stack());
                    lemma_scopes_kept_trans(sc, before.symbol_table.stack(), self.symbol_table.stack());
                    lemma_reports_trans(old(self).errors@, before.errors@, self.errors@);
                    lemma_reports_missing_concat(before.errors@, self.errors@, n0,
                        method_fns(members@.take(k as int)), seq![*m]);
                    assert(method_fns(members@.take(k + 1)) =~= method_fns(members@.take(k as int)) + seq![*m]);
                    lemma_methods_step(
                        sc,
                        cs,
                        members@,
                        k as int,
                        n0,
                        before.errors@,
                        self.errors@,
                        before.symbol_table.stack(),
                        self.symbol_table.stack(),
                    );
                }
            } else {
                proof {
                    assert(method_fns(members@.take(k + 1)) == method_fns(members@.take(k as int)));
                    assert(self.errors@.take(self.errors@.len() as int) =~= self.errors@);
                    lemma_methods_step(
                        sc,
                        cs,
                        members@,
                        k as int,
                        n0,
                        before.errors@,
                        self.errors@,
                        before.symbol_table.stack(),
                        self.symbol_table.stack(),
                    );
                }
            }
            k += 1;
        }
        proof {
            assert(members@.take(k as int) =~= members@);
        }
    }

    /// Analyses a declaration; enumerations need no analysis.
    fn analyze_declaration(&mut self, decl: &Declaration)
        requires
            old(self).symbol_table.wf(),
        ensures
            final(self).marks_only_fn(*old(self)),
            reports_missing(final(self).errors@, old(self).errors@.len() as int, program_fns(seq![*decl])),
            decl_reports(
                old(self).symbol_table.stack(),
                old(self).symbol_table.contract_list(),
                *decl,
                final(self).errors@.skip(old(self).errors@.len() as int),
                final(self).symbol_table.stack(),
            ),
    {
        proof {
            lemma_program_fns_one(*decl);
        }
        match decl {
            Declaration::Contract(c) => self.analyze_contract(c),
            Declaration::Function(f) => self.analyze_function_body(f),
            Declaration::Enumeration(_) => {
                proof {
                    Self::lemma_marks_refl(*self);
                    lemma_reports_missing_none(self.errors@, self.errors@.len() as int, Seq::<FnDecl>::empty());
                    assert(self.errors@.skip(self.errors@.len() as int).len() == 0);
                }
            },
        }
    }
}

impl Analyzer {
    /// The signature of a function declaration.
    fn build_function_signature(&self, f: &FnDecl) -> (sig: FunctionSignature)
        ensures
            describes_function(*f, sig),
    {
        let mut params: Vec<(String, ChronosType)> = Vec::new();
        let mut i: usize = 0;
        while i < f.params.len()
            invariant
                i <= f.params.len(),
                params@.len() == i,
                forall|j: int| 0 <= j < i ==> (#[trigger] params@[j]).0 == f.params@[j].name && resolves_to(
                    f.params@[j].type_expr,
                    params@[j].1,
                ),
            decreases f.params.len() - i,
        {
            let t = self.resolve_type(&f.params[i].type_expr);
            params.push((f.params[i].name.clone(), t));
            i += 1;
        }
        let return_type = self.resolve_type(&f.return_type);
        let mut annotations: Vec<String> = Vec::new();
        let mut k: usize = 0;
        while k < f.annotations.len()
            invariant
                k <= f.annotations.len(),
                annotations@.len() == k,
                forall|j: int| 0 <= j < k ==> (#[trigger] annotations@[j]) == f.annotations@[j].name,
            decreases f.annotations.len() - k,
        {
            annotations.push(f.annotations[k].name.clone());
            k += 1;
        }
        FunctionSignature { name: f.name.clone(), params, return_type, annotations }
    }

    /// The record of a contract declaration: its fields with their types and
    /// the signatures of its methods.
    fn contract_info(&self, c: &ContractDecl) -> (info: ContractInfo)
        ensures
            describes_contract(*c, info),
    {
        let mut fields: Vec<(String, ChronosType)> = Vec::new();
        let mut methods: Vec<FunctionSignature> = Vec::new();
        let mut i: usize = 0;
        while i < c.members.len()
            invariant
                i <= c.members.len(),
                fields@.len() == field_decls(c.members@.take(i as int)).len(),
                forall|j: int| 0 <= j < fields@.len() ==> (#[trigger] fields@[j]).0 == field_decls(c.members@.take(i as int))[j].name
                    && resolves_to(field_decls(c.members@.take(i as int))[j].type_expr, fields@[j].1),
                methods@.len() == method_fns(c.members@.take(i as int)).len(),
                forall|j: int| 0 <= j < methods@.len() ==> describes_function(method_fns(c.members@.take(i as int))[j], #[trigger] methods@[j]),
            decreases c.members.len() - i,
        {
            proof {
                assert(c.members@.take(i + 1).drop_last() =~= c.members@.take(i as int));
            }
            let ghost fa = fields@;
            let ghost ma = methods@;
            match &c.members[i] {
                ContractMember::Field(f) => {
                    let ty = self.resolve_type(&f.type_expr);
                    fields.push((f.name.clone(), ty));
                    proof {
                        assert(field_decls(c.members@.take(i + 1)) == field_decls(c.members@.take(i as int)).push(*f));
                        assert(method_fns(c.members@.take(i + 1)) == method_fns(c.members@.take(i as int)));
                        assert(fields@.drop_last() == fa);
                    }
                },
                ContractMember::Method(m) => {
                    let sig = self.build_function_signature(m);
                    methods.push(sig);
                    proof {
                        assert(method_fns(c.members@.take(i + 1)) == method_fns(c.members@.take(i as int)).push(*m));
                        assert(field_decls(c.members@.take(i + 1)) == field_decls(c.members@.take(i as int)));
                        assert(methods@.drop_last() == ma);
                    }
                },
            }
            i += 1;
        }
        assert(c.members@.take(i as int) =~= c.members@);
        let mut traits: Vec<String> = Vec::new();
        let mut k: usize = 0;
        while k < c.traits.len()
            invariant
                k <= c.traits.len(),
                traits@ == c.traits@.take(k as int),
            decreases c.traits.len() - k,
        {
            traits.push(c.traits[k].clone());
            k += 1;
            assert(traits@ =~= c.traits@.take(k as int));
        }
        assert(c.traits@.take(k as int) =~= c.traits@);
        ContractInfo { name: c.name.clone(), traits, fields, methods }
    }

    /// First pass: registers every contract and free function, and defines
    /// a symbol for each declaration in the current scope.
    fn register_declarations(&mut self, program: &Program)
        requires
            old(self).symbol_table.wf(),
        ensures
            final(self).errors == old(self).errors,
            final(self).warnings == old(self).warnings,
            scopes_kept(old(self).symbol_table.stack(), final(self).symbol_table.stack()),
            forall|i: int| 0 <= i < program.declarations@.len() ==> keyed_get(
                final(self).symbol_table.stack().last().symbols@,
                declared_name(#[trigger] program.declarations@[i])@,
            ) is Some,
            forall|i: int| 0 <= i < program.declarations@.len() && (#[trigger] program.declarations@[i]) is Contract
                ==> keyed_get(final(self).symbol_table.contract_list(), declared_name(program.declarations@[i])@) is Some,
            forall|i: int| 0 <= i < program.declarations@.len() && (#[trigger] program.declarations@[i]) is Function
                ==> keyed_get(final(self).symbol_table.function_list(), declared_name(program.declarations@[i])@) is Some,
            forall|i: int| 0 <= i < program.declarations@.len() && (#[trigger] program.declarations@[i]) is Contract
                && last_contract_named(program.declarations@, i) ==> (keyed_get(
                final(self).symbol_table.contract_list(),
                declared_name(program.declarations@[i])@,
            ) matches Some(info) && describes_contract(program.declarations@[i]->Contract_0, info)),
            decls_defined(old(self).symbol_table.stack(), program.declarations@, final(self).symbol_table.stack()),
    {
        let decls = &program.declarations;
        proof {
            lemma_only_marked_refl(self.symbol_table.stack().drop_last());
            assert(decls@.take(0) =~= Seq::<Declaration>::empty());
        }
        let mut i: usize = 0;
        while i < decls.len()
            invariant
                i <= decls.len(),
                decls == &program.declarations,
                self.errors == old(self).errors,
                self.warnings == old(self).warnings,
                self.symbol_table.wf(),
                old(self).symbol_table.wf(),
                scopes_kept(old(self).symbol_table.stack(), self.symbol_table.stack()),
                forall|j: int| 0 <= j < i ==> keyed_get(
                    self.symbol_table.stack().last().symbols@,
                    declared_name(#[trigger] decls@[j])@,
                ) is Some,
                forall|j: int| 0 <= j < i && (#[trigger] decls@[j]) is Contract ==> keyed_get(
                    self.symbol_table.contract_list(),
                    declared_name(decls@[j])@,
                ) is Some,
                forall|j: int| 0 <= j < i && (#[trigger] decls@[j]) is Function ==> keyed_get(
                    self.symbol_table.function_list(),
                    declared_name(decls@[j])@,
                ) is Some,
                forall|j: int| 0 <= j < i && (#[trigger] decls@[j]) is Contract && last_contract_named(
                    decls@.take(i as int),
                    j,
                ) ==> (keyed_get(self.symbol_table.contract_list(), declared_name(decls@[j])@) matches Some(info)
                    && describes_contract(decls@[j]->Contract_0, info)),
                decls_defined(old(self).symbol_table.stack(), decls@.take(i as int), self.symbol_table.stack()),
            decreases decls.len() - i,
        {
            let ghost before = *self;
            let (name, symbol_type, kind, span) = match &decls[i] {
                Declaration::Contract(c) => {
                    let info = self.contract_info(c);
                    self.symbol_table.register_contract(info);
                    (c.name.clone(), ChronosType::Contract(c.name.clone()), SymbolKind::Contract, c.span)
                },
                Declaration::Function(f) => {
                    let sig = self.build_function_signature(f);
                    self.symbol_table.register_function(sig);
                    let t = self.resolve_type(&f.return_type);
                    (f.name.clone(), t, SymbolKind::Function, f.span)
                },
                Declaration::Enumeration(e) => {
                    (e.name.clone(), ChronosType::Enum(e.name.clone()), SymbolKind::Enumeration, e.span)
                },
            };
            let ghost registered = *self;
            self.symbol_table.define(
                Symbol {
                    name,
                    symbol_type,
                    kind,
                    mutable: false,
                    initialized: true,
                    used: false,
                    line: span.line,
                    column: span.column,
                },
            );
            proof {
                lemma_only_marked_refl(registered.symbol_table.stack().drop_last());
                lemma_scopes_kept_trans(
                    old(self).symbol_table.stack(),
                    registered.symbol_table.stack(),
                    self.symbol_table.stack(),
                );
                let d = decls@[i as int];
                assert forall|j: int| 0 <= j <= i implies keyed_get(
                    self.symbol_table.stack().last().symbols@,
                    declared_name(#[trigger] decls@[j])@,
                ) is Some by {
                    if declared_name(decls@[j])@ != declared_name(d)@ {
                        assert(keyed_get(self.symbol_table.stack().last().symbols@, declared_name(decls@[j])@)
                            == keyed_get(registered.symbol_table.stack().last().symbols@, declared_name(decls@[j])@));
                    }
                }
                assert forall|j: int| 0 <= j <= i && (#[trigger] decls@[j]) is Contract implies keyed_get(
                    self.symbol_table.contract_list(),
                    declared_name(decls@[j])@,
                ) is Some by {
                    if j < i && declared_name(decls@[j])@ != declared_name(d)@ {
                        assert(keyed_get(registered.symbol_table.contract_list(), declared_name(decls@[j])@)
                            == keyed_get(before.symbol_table.contract_list(), declared_name(decls@[j])@));
                    }
                }
                assert forall|j: int| 0 <= j <= i && (#[trigger] decls@[j]) is Function implies keyed_get(
                    self.symbol_table.function_list(),
                    declared_name(decls@[j])@,
                ) is Some by {
                    if j < i && declared_name(decls@[j])@ != declared_name(d)@ {
                        assert(keyed_get(registered.symbol_table.function_list(), declared_name(decls@[j])@)
                            == keyed_get(before.symbol_table.function_list(), declared_name(decls@[j])@));
                    }
                }
                assert forall|j: int| 0 <= j <= i && (#[trigger] decls@[j]) is Contract && last_contract_named(
                    decls@.take(i + 1),
                    j,
                ) implies (keyed_get(self.symbol_table.contract_list(), declared_name(decls@[j])@) matches Some(
                    info,
                ) && describes_contract(decls@[j]->Contract_0, info)) by {
                    if j < i {
                        assert(decls@.take(i + 1)[i as int] == d);
                        if d is Contract {
                            assert(declared_name(d)@ != declared_name(decls@[j])@);
                        }
                        assert forall|m: int| j < m < decls@.take(i as int).len() && (#[trigger] decls@.take(
                            i as int,
                        )[m]) is Contract implies declared_name(decls@.take(i as int)[m])@ != declared_name(
                            decls@.take(i as int)[j],
                        )@ by {
                            assert(decls@.take(i as int)[m] == decls@.take(i + 1)[m]);
                        }
                        assert(last_contract_named(decls@.take(i as int), j));
                        assert(keyed_get(registered.symbol_table.contract_list(), declared_name(decls@[j])@)
                            == keyed_get(before.symbol_table.contract_list(), declared_name(decls@[j])@));
                    }
                }
                let s0 = old(self).symbol_table.stack();
                let sb = registered.symbol_table.stack();
                let sa = self.symbol_table.stack();
                let da = decls@.take(i as int);
                let db = decls@.take(i + 1);
                assert(db[i as int] == d);
                assert(sb == before.symbol_table.stack());
                assert(declared_type(d, symbol_type));
                assert(keyed_get(sa.last().symbols@, declared_name(d)@) == Some(decl_symbol(d, symbol_type)));
                assert forall|j: int| 0 <= j < db.len() && last_decl_named(db, j) implies exists|t: ChronosType|
                    #[trigger] declared_type(db[j], t) && keyed_get(sa.last().symbols@, declared_name(db[j])@) == Some(
                        decl_symbol(db[j], t),
                    ) by {
                    if j < i {
                        assert(db[j] == da[j]);
                        assert(declared_name(db[i as int])@ != declared_name(db[j])@);
                        assert forall|m: int| j < m < da.len() implies declared_name(#[trigger] da[m])@ != declared_name(da[j])@ by {
                            assert(da[m] == db[m]);
                        }
                        assert(last_decl_named(da, j));
                        assert(keyed_get(sa.last().symbols@, declared_name(da[j])@) == keyed_get(sb.last().symbols@, declared_name(da[j])@));
                    }
                }
                assert forall|k: Seq<char>| (forall|j: int| 0 <= j < db.len() ==> declared_name(#[trigger] db[j])@ != k) implies #[trigger] keyed_get(
                    sa.last().symbols@,
                    k,
                ) == keyed_get(s0.last().symbols@, k) by {
                    assert(declared_name(db[i as int])@ != k);
                    assert forall|j: int| 0 <= j < da.len() implies declared_name(#[trigger] da[j])@ != k by {
                        assert(da[j] == db[j]);
                    }
                    assert(keyed_get(sa.last().symbols@, k) == keyed_get(sb.last().symbols@, k));
                }
            }
            i += 1;
        }
        proof {
            assert(decls@.take(i as int) =~= decls@);
        }
    }

    /// Analyses a whole program: registers its declarations, then analyses
    /// each of them. The result holds the symbol table and the errors and
    /// warnings, in the order found. A missing `return` is reported exactly
    /// for the functions and contract methods whose return type is not
    /// `Void` and whose body does not end in `return` on every path
    /// (`reports_missing`).
    pub fn analyze(self, program: &Program) -> (r: AnalysisResult)
        requires
            self.symbol_table.wf(),
        ensures
            r.warnings == self.warnings,
            appends_reports(self.errors@, r.errors@),
            reports_missing(r.errors@, self.errors@.len() as int, program_fns(program.declarations@)),
            r.symbol_table.stack().len() == self.symbol_table.stack().len(),
            forall|i: int| 0 <= i < program.declarations@.len() ==> keyed_get(
                r.symbol_table.stack().last().symbols@,
                declared_name(#[trigger] program.declarations@[i])@,
            ) is Some,
            forall|i: int| 0 <= i < program.declarations@.len() && (#[trigger] program.declarations@[i]) is Contract
                ==> keyed_get(r.symbol_table.contract_list(), declared_name(program.declarations@[i])@) is Some,
            forall|i: int| 0 <= i < program.declarations@.len() && (#[trigger] program.declarations@[i]) is Function
                ==> keyed_get(r.symbol_table.function_list(), declared_name(program.declarations@[i])@) is Some,
            forall|i: int| 0 <= i < program.declarations@.len() && (#[trigger] program.declarations@[i]) is Contract
                && last_contract_named(program.declarations@, i) ==> (keyed_get(
                r.symbol_table.contract_list(),
                declared_name(program.declarations@[i])@,
            ) matches Some(info) && describes_contract(program.declarations@[i]->Contract_0, info)),
            exists|m: Seq<Scope>|
                #[trigger] decls_defined(self.symbol_table.stack(), program.declarations@, m) && program_reports(
                    m,
                    r.symbol_table.contract_list(),
                    program.declarations@,
                    r.errors@.skip(self.errors@.len() as int),
                    r.symbol_table.stack(),
                ),
    {
        let mut a = self;
        a.register_declarations(program);
        let ghost registered = a;
        proof {
            Self::lemma_marks_refl(a);
            assert(program.declarations@.take(0) =~= Seq::<Declaration>::empty());
            lemma_reports_missing_none(a.errors@, a.errors@.len() as int, Seq::<FnDecl>::empty());
            lemma_program_none(a.symbol_table.stack(), a.symbol_table.contract_list(), a.errors@.skip(a.errors@.len() as int));
        }
        let mut i: usize = 0;
        while i < program.declarations.len()
            invariant
                i <= program.declarations.len(),
                a.marks_only_fn(registered),
                registered.symbol_table.wf(),
                reports_missing(a.errors@, registered.errors@.len() as int, program_fns(program.declarations@.take(i as int))),
                program_reports(
                    registered.symbol_table.stack(),
                    registered.symbol_table.contract_list(),
                    program.declarations@.take(i as int),
                    a.errors@.skip(registered.errors@.len() as int),
                    a.symbol_table.stack(),
                ),
            decreases program.declarations.len() - i,
        {
            let ghost before = a;
            a.analyze_declaration(&program.declarations[i]);
            proof {
                lemma_only_marked_trans(registered.symbol_table.stack(), before.symbol_table.stack(), a.symbol_table.stack());
                lemma_reports_trans(registered.errors@, before.errors@, a.errors@);
                let now = program.declarations@.take(i + 1);
                assert(now =~= program.declarations@.take(i as int).push(program.declarations@[i as int]));
                lemma_program_fns_step(program.declarations@.take(i as int), program.declarations@[i as int]);
                lemma_reports_missing_concat(before.errors@, a.errors@, registered.errors@.len() as int,
                    program_fns(program.declarations@.take(i as int)), program_fns(seq![program.declarations@[i as int]]));
                lemma_program_step(
                    registered.symbol_table.stack(),
                    registered.symbol_table.contract_list(),
                    program.declarations@,
                    i as int,
                    registered.errors@.len() as int,
                    before.errors@,
                    a.errors@,
                    before.symbol_table.stack(),
                    a.symbol_table.stack(),
                );
            }
            i += 1;
        }
        proof {
            let st0 = registered.symbol_table.stack();
            let st1 = a.symbol_table.stack();
            assert(marked_scope(st0[st0.len() - 1], st1[st0.len() - 1]));
            assert forall|j: int| 0 <= j < program.declarations@.len() implies keyed_get(
                st1.last().symbols@,
                declared_name(#[trigger] program.declarations@[j])@,
            ) is Some by {
                lemma_marked_scope_keys(st0.last(), st1.last(), declared_name(program.declarations@[j])@);
            }
            assert(program.declarations@.take(i as int) =~= program.declarations@);
            assert(self.errors@.take(self.errors@.len() as int) =~= self.errors@);
            assert(registered.errors == self.errors);
            assert(decls_defined(self.symbol_table.stack(), program.declarations@, st0));
        }
        AnalysisResult { symbol_table: a.symbol_table, errors: a.errors, warnings: a.warnings }
    }
}

/// The outcome of analysing a program.
pub struct AnalysisResult {
    pub symbol_table: SymbolTable,
    pub errors: Vec<SemanticError>,
    pub warnings: Vec<SemanticError>,
}

impl AnalysisResult {
    /// Was any error found?
    pub fn has_errors(&self) -> (b: bool)
        ensures
            b == (self.errors@.len() > 0),
    {
        self.errors.len() > 0
    }

    /// Was any warning found?
    pub fn has_warnings(&self) -> (b: bool)
        ensures
            b == (self.warnings@.len() > 0),
    {
        self.warnings.len() > 0
    }

    /// Did the program pass, with no error found?
    pub fn is_ok(&self) -> (b: bool)
        ensures
            b == (self.errors@.len() == 0),
    {
        self.errors.len() == 0
    }

    pub fn error_count(&self) -> (n: usize)
        ensures
            n == self.errors@.len(),
    {
        self.errors.len()
    }

    pub fn warning_count(&self) -> (n: usize)
        ensures
            n == self.warnings@.len(),
    {
        self.warnings.len()
    }
}

} // verus!
