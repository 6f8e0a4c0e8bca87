use vstd::prelude::*;
use crate::symbol_table::{Symbol, SymbolTable, Scope, ScopeType, lookup_in_scopes, scope_defining};
use crate::keyed::keyed_get;
use crate::token::{IntSuffix, FloatSuffix, int_suffix_text, float_suffix_text};
use crate::types::{ChronosType, type_of_name, type_text, assignable, law_primitive_name_roundtrip, law_assignable_reflexive};
use crate::analyzer::{int_literal_type, float_literal_type, known_builtin, builtin_names, expr_reports};
use crate::token::{Span, TokenKind, punct_text};
use crate::ast::{BinOp, Expr, binop_symbol, int_operator_value};
use crate::parser::binary_op;
use crate::bytecode::two_operand_result;
use crate::compiler::binop_code;
use crate::lexicon::{char_escape, string_escape};
use crate::symbol_table::ContractInfo;
use crate::semantic_error::SemanticError;
use crate::types::{same_type, lemma_same_types_pointwise, lemma_all_assignable_pointwise};

verus! {

/// A symbol just defined is what a lookup of its name finds, whatever outer
/// scopes define under that name.
///
/// `before` and `after` are the tables before and after
/// `SymbolTable::define(s)`, as its contract describes them.
pub proof fn law_define_then_lookup(before: SymbolTable, after: SymbolTable, s: Symbol)
    requires
        before.wf(),
        after.stack().len() == before.stack().len(),
        after.stack().drop_last() == before.stack().drop_last(),
        keyed_get(after.stack().last().symbols@, s.name@) == Some(s),
    ensures
        lookup_in_scopes(after.stack(), s.name@) == Some(s),
{
}

/// Closing a scope right after opening it gives back the same scopes.
///
/// `mid` is the table after `push_scope`, `after` the table after the
/// following `pop_scope`, as their contracts describe them.
pub proof fn law_push_pop_round_trip(before: SymbolTable, mid: SymbolTable, after: SymbolTable)
    requires
        before.wf(),
        mid.stack().len() == before.stack().len() + 1,
        mid.stack().drop_last() == before.stack(),
        mid.stack().len() > 1 ==> after.stack() == mid.stack().drop_last(),
    ensures
        after.stack() == before.stack(),
{
}

/// A definition made in an inner scope is found while that scope is open
/// and leaves no trace once it is closed: the outer scopes are as before.
///
/// `opened`, `defined` and `closed` are the tables after `push_scope`,
/// `define(s)` and `pop_scope`, as their contracts describe them.
pub proof fn law_inner_definitions_are_local(
    before: SymbolTable,
    opened: SymbolTable,
    defined: SymbolTable,
    closed: SymbolTable,
    s: Symbol,
)
    requires
        before.wf(),
        opened.stack().len() == before.stack().len() + 1,
        opened.stack().drop_last() == before.stack(),
        defined.stack().len() == opened.stack().len(),
        defined.stack().drop_last() == opened.stack().drop_last(),
        keyed_get(defined.stack().last().symbols@, s.name@) == Some(s),
        defined.stack().len() > 1 ==> closed.stack() == defined.stack().drop_last(),
    ensures
        lookup_in_scopes(defined.stack(), s.name@) == Some(s),
        closed.stack() == before.stack(),
        lookup_in_scopes(closed.stack(), s.name@) == lookup_in_scopes(before.stack(), s.name@),
{
}

/// The integer type that a literal suffix names (`i32` names `Int32`).
pub open spec fn int_suffix_type(x: IntSuffix) -> ChronosType {
    match x {
        IntSuffix::I8 => ChronosType::Int8,
        IntSuffix::I16 => ChronosType::Int16,
        IntSuffix::I32 => ChronosType::Int32,
        IntSuffix::I64 => ChronosType::Int64,
        IntSuffix::U8 => ChronosType::UInt8,
        IntSuffix::U16 => ChronosType::UInt16,
        IntSuffix::U32 => ChronosType::UInt32,
        IntSuffix::U64 => ChronosType::UInt64,
    }
}

/// The floating-point type that a literal suffix names.
pub open spec fn float_suffix_type(x: FloatSuffix) -> ChronosType {
    match x {
        FloatSuffix::F32 => ChronosType::Float32,
        FloatSuffix::F64 => ChronosType::Float64,
    }
}

/// An integer literal written with a suffix the lexer accepts has the
/// integer type that the suffix names, and a variable declared with that
/// type's name accepts it.
pub proof fn law_int_suffix_names_its_type(x: IntSuffix, s: String)
    requires
        s@ == int_suffix_text(x),
    ensures
        int_literal_type(Some(s)) == int_suffix_type(x),
        int_suffix_type(x).spec_is_integer(),
        assignable(type_of_name(type_text(int_suffix_type(x))), int_literal_type(Some(s))),
{
    reveal_strlit("i8");
    reveal_strlit("i16");
    reveal_strlit("i32");
    reveal_strlit("i64");
    reveal_strlit("u8");
    reveal_strlit("u16");
    reveal_strlit("u32");
    reveal_strlit("u64");
    assert("i8"@[0] == 'i' && "i8"@[1] == '8');
    assert("i16"@[0] == 'i' && "i16"@[1] == '1' && "i16"@[2] == '6');
    assert("i32"@[0] == 'i' && "i32"@[1] == '3' && "i32"@[2] == '2');
    assert("i64"@[0] == 'i' && "i64"@[1] == '6' && "i64"@[2] == '4');
    assert("u8"@[0] == 'u' && "u8"@[1] == '8');
    assert("u16"@[0] == 'u' && "u16"@[1] == '1' && "u16"@[2] == '6');
    assert("u32"@[0] == 'u' && "u32"@[1] == '3' && "u32"@[2] == '2');
    assert("u64"@[0] == 'u' && "u64"@[1] == '6' && "u64"@[2] == '4');
    law_primitive_name_roundtrip(int_suffix_type(x));
    law_assignable_reflexive(int_suffix_type(x));
}

/// A floating-point literal written with a suffix has the type that the
/// suffix names, and a variable declared with that type's name accepts it.
pub proof fn law_float_suffix_names_its_type(x: FloatSuffix, s: String)
    requires
        s@ == float_suffix_text(x),
    ensures
        float_literal_type(Some(s)) == float_suffix_type(x),
        float_suffix_type(x).spec_is_float(),
        assignable(type_of_name(type_text(float_suffix_type(x))), float_literal_type(Some(s))),
{
    reveal_strlit("f32");
    reveal_strlit("f64");
    assert("f32"@[1] == '3');
    assert("f64"@[1] == '6');
    law_primitive_name_roundtrip(float_suffix_type(x));
    law_assignable_reflexive(float_suffix_type(x));
}

/// Depth of the scope stack after opening (`true`) or closing (`false`) one
/// scope at depth `d`, as `push_scope` and `pop_scope` state it: closing
/// never removes the global scope.
pub open spec fn depth_step(d: nat, open: bool) -> nat {
    if open {
        d + 1
    } else if d > 1 {
        (d - 1) as nat
    } else {
        d
    }
}

/// Depth after the openings and closings `ops`, in order, from depth `d`.
pub open spec fn depth_after(d: nat, ops: Seq<bool>) -> nat
    decreases ops.len(),
{
    if ops.len() == 0 {
        d
    } else {
        depth_step(depth_after(d, ops.drop_last()), ops.last())
    }
}

/// How many of `ops` open a scope.
pub open spec fn openings(ops: Seq<bool>) -> nat
    decreases ops.len(),
{
    if ops.len() == 0 {
        0
    } else {
        openings(ops.drop_last()) + if ops.last() { 1nat } else { 0nat }
    }
}

/// How many of `ops` close a scope.
pub open spec fn closings(ops: Seq<bool>) -> nat
    decreases ops.len(),
{
    if ops.len() == 0 {
        0
    } else {
        closings(ops.drop_last()) + if ops.last() { 0nat } else { 1nat }
    }
}

/// Each step of `push_scope` and `pop_scope` is `depth_step`.
pub proof fn law_scope_calls_step(before: SymbolTable, pushed: SymbolTable, popped: SymbolTable)
    requires
        before.wf(),
        pushed.stack().len() == before.stack().len() + 1,
        before.stack().len() > 1 ==> popped.stack() == before.stack().drop_last(),
        before.stack().len() <= 1 ==> popped.stack() == before.stack(),
    ensures
        pushed.stack().len() == depth_step(before.stack().len(), true),
        popped.stack().len() == depth_step(before.stack().len(), false),
{
}

/// Opening and closing scopes never leaves the stack empty, and as long as no
/// closing is ever more than the openings before it (each closing matches
/// an opening), the depth is the starting depth plus the openings minus the
/// closings.
pub proof fn law_depth_counts(d: nat, ops: Seq<bool>)
    requires
        d >= 1,
    ensures
        depth_after(d, ops) >= 1,
        (forall|k: int| 0 <= k <= ops.len() ==> closings(#[trigger] ops.take(k)) <= openings(ops.take(k)))
            ==> depth_after(d, ops) == d + openings(ops) - closings(ops),
    decreases ops.len(),
{
    if ops.len() > 0 {
        let init = ops.drop_last();
        law_depth_counts(d, init);
        if forall|k: int| 0 <= k <= ops.len() ==> closings(#[trigger] ops.take(k)) <= openings(ops.take(k)) {
            assert forall|k: int| 0 <= k <= init.len() implies closings(#[trigger] init.take(k)) <= openings(init.take(k)) by {
                assert(init.take(k) =~= ops.take(k));
            }
            assert(ops.take(ops.len() as int) =~= ops);
            assert(closings(ops.take(ops.len() as int)) <= openings(ops.take(ops.len() as int)));
        }
    }
}

/// A call of a `SymbolTable` method as it bears on the scope stack:
/// `push_scope` of a kind, `pop_scope`, or any other method (`define`,
/// `mark_used`, `register_contract`, `register_function`, the lookups).
pub enum TableCall {
    Push(ScopeType),
    Pop,
    Other,
}

/// The kinds of the scopes, outermost first.
pub open spec fn scope_kinds(s: Seq<Scope>) -> Seq<ScopeType> {
    Seq::new(s.len(), |i: int| s[i].scope_type)
}

/// What a call does to the scopes, as the method's contract states it:
/// `push_scope` adds a scope of its kind, `pop_scope` removes the innermost
/// scope unless it is the only one, and every other method keeps the number
/// and the kinds of the scopes.
pub open spec fn call_effect(a: Seq<Scope>, c: TableCall, b: Seq<Scope>) -> bool {
    match c {
        TableCall::Push(t) => b.len() == a.len() + 1 && b.drop_last() == a && b.last().scope_type == t,
        TableCall::Pop => if a.len() > 1 {
            b == a.drop_last()
        } else {
            b == a
        },
        TableCall::Other => scope_kinds(b) == scope_kinds(a),
    }
}

/// The kinds of the open scopes after the calls `calls` from a new table:
/// the global scope, then one scope per `push_scope` that no `pop_scope`
/// has closed.
pub open spec fn kinds_after(calls: Seq<TableCall>) -> Seq<ScopeType>
    decreases calls.len(),
{
    if calls.len() == 0 {
        seq![ScopeType::Global]
    } else {
        let k = kinds_after(calls.drop_last());
        match calls.last() {
            TableCall::Push(t) => k.push(t),
            TableCall::Pop => if k.len() > 1 {
                k.drop_last()
            } else {
                k
            },
            TableCall::Other => k,
        }
    }
}

/// How many of `calls` open a scope.
pub open spec fn pushes(calls: Seq<TableCall>) -> nat
    decreases calls.len(),
{
    if calls.len() == 0 {
        0
    } else {
        pushes(calls.drop_last()) + if calls.last() is Push { 1nat } else { 0nat }
    }
}

/// How many of `calls` close a scope: the calls of `pop_scope` made while
/// more than the global scope was open (those that return `Some`).
pub open spec fn pops_taken(calls: Seq<TableCall>) -> nat
    decreases calls.len(),
{
    if calls.len() == 0 {
        0
    } else {
        pops_taken(calls.drop_last()) + if calls.last() is Pop && kinds_after(calls.drop_last()).len() > 1 {
            1nat
        } else {
            0nat
        }
    }
}

/// From a new table, whatever methods are called in whatever order, the
/// scopes open are the global scope (always the outermost, never closed)
/// and one scope per `push_scope` not yet closed by a `pop_scope`, in
/// order: the depth is at least one and is one plus the scopes opened
/// less those closed, and the current scope is the one opened last and
/// still open (the global scope if none is).
///
/// `ts[0]` is the table as `SymbolTable::new` leaves it and `ts[i + 1]` the
/// table after the call `calls[i]` on `ts[i]`, as its contract describes
/// it (`call_effect`).
pub proof fn law_scope_stack(ts: Seq<SymbolTable>, calls: Seq<TableCall>)
    requires
        ts.len() == calls.len() + 1,
        ts[0].stack().len() == 1,
        ts[0].stack()[0].scope_type is Global,
        forall|i: int| 0 <= i < calls.len() ==> call_effect(ts[i].stack(), #[trigger] calls[i], ts[i + 1].stack()),
    ensures
        scope_kinds(ts.last().stack()) == kinds_after(calls),
        ts.last().stack().len() >= 1,
        ts.last().stack()[0].scope_type is Global,
        ts.last().stack().last().scope_type == kinds_after(calls).last(),
        ts.last().stack().len() == 1 + pushes(calls) - pops_taken(calls),
    decreases calls.len(),
{
    if calls.len() == 0 {
        assert(scope_kinds(ts[0].stack()) =~= seq![ScopeType::Global]);
    } else {
        let n = calls.len() - 1;
        let init = ts.drop_last();
        let cs = calls.drop_last();
        assert forall|i: int| 0 <= i < cs.len() implies call_effect(init[i].stack(), #[trigger] cs[i], init[i + 1].stack()) by {
            assert(cs[i] == calls[i]);
            assert(init[i] == ts[i] && init[i + 1] == ts[i + 1]);
        }
        law_scope_stack(init, cs);
        let a = ts[n].stack();
        let b = ts[n + 1].stack();
        assert(init.last() == ts[n]);
        assert(call_effect(a, calls[n], b));
        assert(scope_kinds(a) == kinds_after(cs));
        assert(scope_kinds(a).len() == a.len());
        match calls[n] {
            TableCall::Push(t) => {
                assert(scope_kinds(b) =~= scope_kinds(a).push(t));
                assert(b[0] == a[0]);
            },
            TableCall::Pop => {
                if a.len() > 1 {
                    assert(scope_kinds(b) =~= scope_kinds(a).drop_last());
                    assert(b[0] == a[0]);
                }
            },
            TableCall::Other => {
                assert(scope_kinds(b)[0] == scope_kinds(a)[0]);
                assert(scope_kinds(b)[b.len() - 1] == scope_kinds(a)[a.len() - 1]);
            },
        }
    }
}

/// `define` keeps the number and the kinds of the scopes: `before` and
/// `after` are the tables before and after `define`, as its contract
/// describes them.
pub proof fn law_define_keeps_scopes(before: SymbolTable, after: SymbolTable)
    requires
        before.wf(),
        after.stack().len() == before.stack().len(),
        after.stack().drop_last() == before.stack().drop_last(),
        after.stack().last().scope_type == before.stack().last().scope_type,
    ensures
        call_effect(before.stack(), TableCall::Other, after.stack()),
{
    let a = before.stack();
    let b = after.stack();
    assert forall|i: int| 0 <= i < b.len() implies #[trigger] scope_kinds(b)[i] == scope_kinds(a)[i] by {
        if i < b.len() - 1 {
            assert(b.drop_last()[i] == a.drop_last()[i]);
        }
    }
    assert(scope_kinds(b) =~= scope_kinds(a));
}

/// `mark_used` keeps the number and the kinds of the scopes: `before` and
/// `after` are the tables before and after `mark_used(name)`, as its
/// contract describes them.
pub proof fn law_mark_used_keeps_scopes(before: SymbolTable, after: SymbolTable, name: Seq<char>)
    requires
        after.stack().len() == before.stack().len(),
        scope_defining(before.stack(), name) is None ==> after.stack() == before.stack(),
        scope_defining(before.stack(), name) matches Some(j) ==> {
            &&& forall|i: int| 0 <= i < before.stack().len() && i != j ==> #[trigger] after.stack()[i] == before.stack()[i]
            &&& after.stack()[j].scope_type == before.stack()[j].scope_type
        },
    ensures
        call_effect(before.stack(), TableCall::Other, after.stack()),
{
    let a = before.stack();
    let b = after.stack();
    assert forall|i: int| 0 <= i < b.len() implies #[trigger] scope_kinds(b)[i] == scope_kinds(a)[i] by {
        if let Some(j) = scope_defining(a, name) {
            if i != j {
                assert(b[i] == a[i]);
            }
        }
    }
    assert(scope_kinds(b) =~= scope_kinds(a));
}

/// Each operator token parses to the operator it spells: where a token
/// stands for a binary operator, its text is that operator's symbol (`%`
/// for the remainder, `/` for the quotient, ...).
pub proof fn law_operator_token_spells_its_operator(k: TokenKind)
    ensures
        binary_op(k) matches Some(op) ==> punct_text(k) == Some(binop_symbol(op)),
{
}

/// A token whose text is an operator's symbol stands for that operator.
pub proof fn law_operator_symbol_parses_to_its_operator(k: TokenKind, op: BinOp)
    requires
        punct_text(k) == Some(binop_symbol(op)),
    ensures
        binary_op(k) == Some(op),
{
    let t = punct_text(k)->0;
    let s = binop_symbol(op);
    assert(t.len() == s.len());
    assert(t[0] == s[0]);
    if t.len() > 1 {
        assert(t[1] == s[1]);
    }
}

/// Each binary operator compiles to the instruction that performs it: on
/// integer operands where the operator has a value, the instruction that
/// `binop_code` gives computes that value.
pub proof fn law_operator_compiles_to_its_operation(op: BinOp, a: int, b: int)
    ensures
        int_operator_value(op, a, b) matches Some(v) ==> two_operand_result(binop_code(op), a, b) == Some(v),
{
}

/// No two operators compile to the same instruction.
pub proof fn law_operators_compile_apart(op1: BinOp, op2: BinOp)
    ensures
        op1 != op2 ==> binop_code(op1) != binop_code(op2),
{
}

/// The names that need no declaration are exactly the library's built-in
/// names.
pub proof fn law_known_builtins_are_the_builtin_names(name: Seq<char>)
    ensures
        known_builtin(name) <==> builtin_names().contains(name),
{
}

/// A built-in name is accepted without declaration: in any scopes, an
/// identifier that names a built-in value gives no report, whether or not
/// anything of that name is declared.
pub proof fn law_builtin_name_needs_no_declaration(
    scopes: Seq<Scope>,
    contracts: Seq<ContractInfo>,
    name: String,
    span: Span,
    es: Seq<SemanticError>,
)
    requires
        builtin_names().contains(name@),
        expr_reports(scopes, contracts, Expr::Identifier { name, span }, es),
    ensures
        es.len() == 0,
{
}

/// An escape in a literal denotes the character it names, the same in
/// character and in string literals: where both kinds of literal accept an
/// escape they read it alike; a letter escape (`\n`, `\t`, `\r`) denotes a
/// control character, never the letter; `\0` denotes the NUL character;
/// and the escape of any other character (a quote, the backslash) denotes
/// that character.
pub proof fn law_escapes_denote_what_they_name(c: char)
    ensures
        char_escape(c) is Some && string_escape(c) is Some ==> char_escape(c) == string_escape(c),
        char_escape(c) matches Some(x) ==> (('a' <= c <= 'z') ==> (x as u32) < 32),
        string_escape(c) matches Some(x) ==> (('a' <= c <= 'z') ==> (x as u32) < 32),
        char_escape(c) matches Some(x) ==> (!('a' <= c <= 'z') && c != '0' ==> x == c),
        string_escape(c) matches Some(x) ==> (!('a' <= c <= 'z') && c != '0' ==> x == c),
        char_escape(c) is Some ==> string_escape(c) is Some || c == '\'',
        c == '0' ==> char_escape(c) == Some('\0') && string_escape(c) == Some('\0'),
{
}

/// Generic types are compatible only when their arguments are: a place of
/// type `a<xs..>` accepts a value of type `b<ys..>` exactly when the bases
/// agree, the argument lists have the same length, and each argument of
/// the place accepts the argument at the same position (`Vector<String>`
/// does not accept `Vector<Int32>`).
pub proof fn law_generic_assignable(a: String, xs: Vec<ChronosType>, b: String, ys: Vec<ChronosType>)
    ensures
        assignable(
            ChronosType::Generic { base: a, type_args: xs },
            ChronosType::Generic { base: b, type_args: ys },
        ) <==> (a@ == b@ && xs@.len() == ys@.len() && forall|i: int|
            0 <= i < xs@.len() ==> assignable(#[trigger] xs@[i], ys@[i])),
{
    let t = ChronosType::Generic { base: a, type_args: xs };
    let u = ChronosType::Generic { base: b, type_args: ys };
    lemma_all_assignable_pointwise(xs@, ys@);
    if same_type(t, u) {
        lemma_same_types_pointwise(xs@, ys@);
        assert forall|i: int| 0 <= i < xs@.len() implies assignable(#[trigger] xs@[i], ys@[i]) by {
            assert(same_type(xs@[i], ys@[i]));
        }
    }
}

/// Two primitive types are compatible only when they are the same type:
/// no integer, float, `Bool`, `Char`, `String` or `Void` accepts a value of
/// another of these types.
pub proof fn law_primitive_assignable(t: ChronosType, u: ChronosType)
    requires
        t.spec_is_primitive(),
        u.spec_is_primitive(),
    ensures
        assignable(t, u) <==> t == u,
{
}

/// A reference place accepts a reference value exactly when the inner
/// types are compatible and the place is not `&mut` while the value is a
/// shared `&`.
pub proof fn law_reference_assignable(m1: bool, i1: ChronosType, m2: bool, i2: ChronosType)
    ensures
        assignable(
            ChronosType::Reference { mutable: m1, inner: Box::new(i1) },
            ChronosType::Reference { mutable: m2, inner: Box::new(i2) },
        ) <==> ((!m1 || m2) && assignable(i1, i2)),
{
    if same_type(i1, i2) {
        assert(assignable(i1, i2));
    }
}

/// Contracts and enumerations are compatible by name, and a contract never
/// accepts an enumeration or the reverse.
pub proof fn law_named_types_assignable(a: String, b: String)
    ensures
        assignable(ChronosType::Contract(a), ChronosType::Contract(b)) <==> a@ == b@,
        assignable(ChronosType::Enum(a), ChronosType::Enum(b)) <==> a@ == b@,
        !assignable(ChronosType::Contract(a), ChronosType::Enum(b)),
        !assignable(ChronosType::Enum(a), ChronosType::Contract(b)),
{
}

} // verus!
