use vstd::prelude::*;
use crate::token::{Span, Token, TokenKind, IntSuffix, FloatSuffix, kind_tag, kind_name, carries_data, int_suffix_text, float_suffix_text};
use crate::ast::{
    Program, ModuleDirective, RequireStatement, Declaration, ContractDecl, ContractMember, FieldDecl,
    FnDecl, Param, EnumDecl, EnumVariant, Annotation, TypeExpr, Stmt, MatchArm, MatchPattern,
    ErrorHandler, Expr, NamedArg, BinOp, UnaryOp,
};
use crate::parse_error::ParseError;
use crate::ast::{
    grouped_by_binding, expr_kind_name, well_grouped, inner_grouped, args_grouped, fields_grouped, block_grouped,
    stmt_grouped, elifs_grouped, arms_grouped, decl_grouped, program_grouped,
};
use crate::text::{str_eq, owned};

verus! {

broadcast use vstd::std_specs::vec::group_vec_axioms;

/// Builds the syntax tree of a program from its tokens.
pub struct Parser {
    tokens: Vec<Token>,
    current: usize,
}

/// The comparison operator a token stands for, if any.
pub open spec fn comparison_op(k: TokenKind) -> Option<BinOp> {
    match k {
        TokenKind::EqEq => Some(BinOp::Eq),
        TokenKind::NotEq => Some(BinOp::NotEq),
        TokenKind::Lt => Some(BinOp::Lt),
        TokenKind::LtEq => Some(BinOp::LtEq),
        TokenKind::Gt => Some(BinOp::Gt),
        TokenKind::GtEq => Some(BinOp::GtEq),
        _ => None,
    }
}

/// The additive operator a token stands for, if any.
pub open spec fn additive_op(k: TokenKind) -> Option<BinOp> {
    match k {
        TokenKind::Plus => Some(BinOp::Add),
        TokenKind::Minus => Some(BinOp::Sub),
        _ => None,
    }
}

/// The multiplicative operator a token stands for, if any.
pub open spec fn multiplicative_op(k: TokenKind) -> Option<BinOp> {
    match k {
        TokenKind::Star => Some(BinOp::Mul),
        TokenKind::Slash => Some(BinOp::Div),
        TokenKind::Percent => Some(BinOp::Mod),
        _ => None,
    }
}

/// The prefix operator a token stands for, given the token after it
/// (`&mut` against `&`).
pub open spec fn prefix_op(k: TokenKind, after: TokenKind) -> Option<UnaryOp> {
    match k {
        TokenKind::Bang => Some(UnaryOp::Not),
        TokenKind::Minus => Some(UnaryOp::Negate),
        TokenKind::Star => Some(UnaryOp::Deref),
        TokenKind::Amp => if after is Mut {
            Some(UnaryOp::RefMut)
        } else {
            Some(UnaryOp::Ref)
        },
        _ => None,
    }
}

/// Tokens that can start a primary expression.
pub open spec fn starts_primary(k: TokenKind) -> bool {
    ||| k is LitInteger
    ||| k is LitFloat
    ||| k is LitString
    ||| k is LitChar
    ||| k is SelfValue
    ||| k is SelfType
    ||| k is Ident
    ||| k.spec_is_type_keyword()
    ||| k is LParen
    ||| k is Underscore
}

/// `e` is the primary expression that starts with token `t` (for `(`,
/// a parenthesised expression).
pub open spec fn primary_from(t: Token, e: Expr) -> bool {
    match t.kind {
        TokenKind::LitInteger { value, suffix } => e matches Expr::IntLiteral { value: v, suffix: s, span } && {
            &&& v == value
            &&& span == t.span
            &&& (s is Some <==> suffix is Some)
            &&& (s is Some ==> s->0@ == int_suffix_text(suffix->0))
        },
        TokenKind::LitFloat { literal, suffix } => e matches Expr::FloatLiteral { literal: l, suffix: s, span } && {
            &&& l == literal
            &&& span == t.span
            &&& (s is Some <==> suffix is Some)
            &&& (s is Some ==> s->0@ == float_suffix_text(suffix->0))
        },
        TokenKind::LitString(v) => e == (Expr::StringLiteral { value: v, span: t.span }),
        TokenKind::LitChar(c) => e == (Expr::CharLiteral { value: c, span: t.span }),
        TokenKind::SelfValue => e == (Expr::SelfValue { span: t.span }),
        TokenKind::SelfType => e matches Expr::Identifier { name, span } && name@ == "Self"@ && span == t.span,
        TokenKind::Ident(n) => e == (Expr::Identifier { name: n, span: t.span }),
        TokenKind::LParen => e matches Expr::Grouped { span, .. } && span == t.span,
        TokenKind::Underscore => e matches Expr::Identifier { name, span } && name@ == "_"@ && span == t.span,
        _ => t.kind.spec_is_type_keyword() && (e matches Expr::Identifier { name, span } && name@ == t.lexeme@
            && span == t.span),
    }
}

/// Tokens that extend an expression after an operand: the binary operators
/// and the postfix `::`, `.` and `(`.
pub open spec fn continues_expr(k: TokenKind) -> bool {
    ||| k is PipePipe
    ||| k is AmpAmp
    ||| comparison_op(k) is Some
    ||| additive_op(k) is Some
    ||| multiplicative_op(k) is Some
    ||| k is ColonColon
    ||| k is Dot
    ||| k is LParen
}

/// The token at `k` is on its own a whole expression: a one-token primary
/// expression (not `(`) that the token after it does not extend.
pub open spec fn lone_operand(toks: Seq<Token>, k: int) -> bool {
    &&& 0 <= k
    &&& k + 1 < toks.len()
    &&& starts_primary(toks[k].kind)
    &&& !(toks[k].kind is LParen)
    &&& !continues_expr(toks[k + 1].kind)
}

/// No expression starts with a token of kind `k`: it neither starts a
/// primary expression nor is a prefix operator.
pub open spec fn starts_no_expr(k: TokenKind) -> bool {
    &&& !starts_primary(k)
    &&& !(k is Bang)
    &&& !(k is Minus)
    &&& !(k is Star)
    &&& !(k is Amp)
}

/// `r` failed on the token at `i`, which is not the token expected there.
pub open spec fn unexpected_at<T>(r: Result<T, ParseError>, toks: Seq<Token>, i: int) -> bool {
    r matches Err(ParseError::ExpectedToken { found, span, .. }) && found == toks[i].lexeme && span == toks[i].span
}

/// The token at `k` names a type on its own: an identifier or a type
/// keyword other than `Self`, with no `<` after it.
pub open spec fn simple_type_at(toks: Seq<Token>, k: int) -> bool {
    &&& 0 <= k
    &&& k + 1 < toks.len()
    &&& toks[k].kind is Ident || toks[k].kind.spec_is_type_keyword()
    &&& !(toks[k].kind is SelfType)
    &&& !(toks[k].kind is Amp)
    &&& !(toks[k + 1].kind is Lt)
}

/// The tokens at `k` and `k + 1` are `{` and `}`: an empty block.
pub open spec fn empty_braces(toks: Seq<Token>, k: int) -> bool {
    &&& 0 <= k
    &&& k + 1 < toks.len()
    &&& toks[k].kind is LBrace
    &&& toks[k + 1].kind is RBrace
}

/// Where the value of an argument that starts at `i` starts: after
/// `name:` when the argument is named.
pub open spec fn arg_value_start(toks: Seq<Token>, i: int) -> int {
    if 0 <= i && i + 1 < toks.len() && toks[i].kind is Ident && toks[i + 1].kind is Colon {
        i + 2
    } else {
        i
    }
}

/// At `i` stands an argument, perhaps named, whose value is an expression
/// that `plain_expr_end` reads.
pub open spec fn plain_arg(toks: Seq<Token>, i: int) -> bool {
    plain_expr_end(toks, arg_value_start(toks, i)) is Some
}

/// Where an argument that `plain_arg` reads ends.
pub open spec fn plain_arg_end(toks: Seq<Token>, i: int) -> int {
    plain_expr_end(toks, arg_value_start(toks, i))->0
}

/// Where the `)` stands that closes arguments read from `i`, when they are
/// plain arguments separated by commas (a trailing comma allowed).
pub open spec fn args_end(toks: Seq<Token>, i: int) -> Option<int>
    decreases toks.len() - i, 6int, 0int,
{
    if !(0 <= i < toks.len()) {
        None
    } else if toks[i].kind is RParen {
        Some(i)
    } else {
        match bin_end(toks, arg_value_start(toks, i), 1) {
            Some(e) => if i < e < toks.len() && toks[e].kind is RParen {
                Some(e)
            } else if i < e && e + 1 < toks.len() && toks[e].kind is Comma {
                args_end(toks, e + 1)
            } else {
                None
            },
            None => None,
        }
    }
}

/// Where the arguments end after an argument that ended at `e`: at a `)`
/// there, or after a comma and more arguments.
pub open spec fn after_arg(toks: Seq<Token>, e: int) -> Option<int> {
    if 0 <= e < toks.len() && toks[e].kind is RParen {
        Some(e)
    } else if 0 <= e && e + 1 < toks.len() && toks[e].kind is Comma {
        args_end(toks, e + 1)
    } else {
        None
    }
}

/// Where the field values `name: x` (each perhaps followed by a comma) of
/// a struct value, read from `i`, end: at the closing `}`; each `x` is an
/// expression that `bin_end` reads.
pub open spec fn inits_end(toks: Seq<Token>, i: int) -> Option<int>
    decreases toks.len() - i, 6int, 0int,
{
    if !(0 <= i < toks.len()) {
        None
    } else if toks[i].kind is RBrace {
        Some(i)
    } else if i + 1 < toks.len() && toks[i].kind is Ident && toks[i + 1].kind is Colon {
        match bin_end(toks, i + 2, 1) {
            Some(e) => if i < e < toks.len() {
                if toks[e].kind is Comma {
                    inits_end(toks, e + 1)
                } else {
                    inits_end(toks, e)
                }
            } else {
                None
            },
            None => None,
        }
    } else {
        None
    }
}

/// Field values end at a `}` at or after where they start.
proof fn lemma_inits_end(toks: Seq<Token>, i: int)
    ensures
        inits_end(toks, i) matches Some(m) ==> i <= m < toks.len() && toks[m].kind is RBrace,
    decreases toks.len() - i,
{
    if 0 <= i < toks.len() && !(toks[i].kind is RBrace) && i + 1 < toks.len() && toks[i].kind is Ident && toks[i + 1].kind is Colon {
        if let Some(e) = bin_end(toks, i + 2, 1) {
            if i < e < toks.len() {
                if toks[e].kind is Comma {
                    lemma_inits_end(toks, e + 1);
                } else {
                    lemma_inits_end(toks, e);
                }
            }
        }
    }
}

/// Plain arguments end at a `)` at or after where they start.
proof fn lemma_args_end(toks: Seq<Token>, i: int)
    ensures
        args_end(toks, i) matches Some(m) ==> i <= m < toks.len() && toks[m].kind is RParen,
    decreases toks.len() - i,
{
    if 0 <= i < toks.len() && !(toks[i].kind is RParen) {
        if let Some(e) = bin_end(toks, arg_value_start(toks, i), 1) {
            if !(i < e < toks.len() && toks[e].kind is RParen) && i < e && e + 1 < toks.len() && toks[e].kind is Comma {
                lemma_args_end(toks, e + 1);
            }
        }
    }
}

/// Where a run of postfix suffixes read from `i` ends: `::name`, `.name`,
/// either perhaps called with plain arguments, calls `(...)` with plain
/// arguments, and struct values `::Name { ... }` with field values that
/// `inits_end` reads.
pub open spec fn suffixes_end(toks: Seq<Token>, i: int) -> Option<int>
    decreases toks.len() - i, 0int, 0int,
{
    if !(0 <= i < toks.len()) {
        None
    } else if toks[i].kind is LParen {
        match args_end(toks, i + 1) {
            Some(m) => if i < m && m + 1 < toks.len() {
                suffixes_end(toks, m + 1)
            } else {
                None
            },
            None => None,
        }
    } else if toks[i].kind is ColonColon || toks[i].kind is Dot {
        if i + 2 < toks.len() && toks[i + 1].kind is Ident {
            if toks[i + 2].kind is LParen {
                match args_end(toks, i + 3) {
                    Some(m) => if i < m && m + 1 < toks.len() {
                        suffixes_end(toks, m + 1)
                    } else {
                        None
                    },
                    None => None,
                }
            } else if toks[i].kind is ColonColon && toks[i + 2].kind is LBrace {
                match inits_end(toks, i + 3) {
                    Some(m) => if i < m && m + 1 < toks.len() {
                        suffixes_end(toks, m + 1)
                    } else {
                        None
                    },
                    None => None,
                }
            } else {
                suffixes_end(toks, i + 2)
            }
        } else {
            None
        }
    } else {
        Some(i)
    }
}

/// Where a postfix expression that starts at `k` ends, when it is a
/// one-token primary expression, or an expression that `bin_end` reads in
/// `(` and `)`, followed by suffixes that `suffixes_end` reads.
pub open spec fn postfix_end(toks: Seq<Token>, k: int) -> Option<int> {
    if 0 <= k < toks.len() && toks[k].kind is LParen {
        match bin_end(toks, k + 1, 1) {
            Some(e) => if k < e < toks.len() && toks[e].kind is RParen {
                suffixes_end(toks, e + 1)
            } else {
                None
            },
            None => None,
        }
    } else if 0 <= k < toks.len() && starts_primary(toks[k].kind) {
        suffixes_end(toks, k + 1)
    } else {
        None
    }
}

/// Where an operand that starts at `k` ends: prefix operators (`!`, `-`,
/// `*`, `&`, `&mut`) before a postfix expression that `postfix_end` reads
/// (written out here).
pub open spec fn plain_operand_end(toks: Seq<Token>, k: int) -> Option<int>
    decreases toks.len() - k, 0int, 1int,
{
    if 0 <= k && k + 1 < toks.len() && prefix_op(toks[k].kind, toks[k + 1].kind) is Some {
        if toks[k].kind is Amp && toks[k + 1].kind is Mut {
            plain_operand_end(toks, k + 2)
        } else {
            plain_operand_end(toks, k + 1)
        }
    } else if 0 <= k < toks.len() && toks[k].kind is LParen {
        match bin_end(toks, k + 1, 1) {
            Some(e) => if k < e < toks.len() && toks[e].kind is RParen {
                suffixes_end(toks, e + 1)
            } else {
                None
            },
            None => None,
        }
    } else if 0 <= k < toks.len() && starts_primary(toks[k].kind) {
        suffixes_end(toks, k + 1)
    } else {
        None
    }
}

/// An operand ends after its start, at a token.
proof fn lemma_operand_end(toks: Seq<Token>, k: int)
    ensures
        plain_operand_end(toks, k) matches Some(m) ==> 0 <= k < m < toks.len(),
    decreases toks.len() - k,
{
    if 0 <= k && k + 1 < toks.len() && prefix_op(toks[k].kind, toks[k + 1].kind) is Some {
        if toks[k].kind is Amp && toks[k + 1].kind is Mut {
            lemma_operand_end(toks, k + 2);
        } else {
            lemma_operand_end(toks, k + 1);
        }
    } else if 0 <= k < toks.len() && toks[k].kind is LParen {
        if let Some(e) = bin_end(toks, k + 1, 1) {
            if k < e < toks.len() && toks[e].kind is RParen {
                lemma_suffixes_end(toks, e + 1);
            }
        }
    } else if 0 <= k < toks.len() && starts_primary(toks[k].kind) {
        lemma_suffixes_end(toks, k + 1);
    }
}

/// The binary operators of binding level `l`: `||` at 1, `&&` at 2, the
/// comparisons at 3, `+ -` at 4 and `* / %` at 5.
pub open spec fn level_op(k: TokenKind, l: int) -> bool {
    if l == 1 {
        k is PipePipe
    } else if l == 2 {
        k is AmpAmp
    } else if l == 3 {
        comparison_op(k) is Some
    } else if l == 4 {
        additive_op(k) is Some
    } else {
        multiplicative_op(k) is Some
    }
}

/// Where an expression of binding level `l` (1 to 5) read from `i` ends:
/// expressions of the next level separated by operators of level `l`; at
/// level 6 and above, an operand that `plain_operand_end` reads.
pub open spec fn bin_end(toks: Seq<Token>, i: int, l: int) -> Option<int>
    decreases toks.len() - i, if 1 <= l <= 5 { 6 - l } else { 0 }, 2int,
{
    if !(1 <= l <= 5) {
        plain_operand_end(toks, i)
    } else {
        match bin_end(toks, i, l + 1) {
            Some(e) => if i < e < toks.len() {
                bin_rest(toks, e, l)
            } else {
                None
            },
            None => None,
        }
    }
}

/// Where an expression of level `l` ends whose first part ended at `e`:
/// while an operator of level `l` stands there, another part follows.
pub open spec fn bin_rest(toks: Seq<Token>, e: int, l: int) -> Option<int>
    decreases toks.len() - e, if 1 <= l <= 5 { 6 - l } else { 0 }, 0int,
{
    if 0 <= e < toks.len() && 1 <= l <= 5 && level_op(toks[e].kind, l) {
        match bin_end(toks, e + 1, l + 1) {
            Some(e2) => if e < e2 < toks.len() {
                bin_rest(toks, e2, l)
            } else {
                None
            },
            None => None,
        }
    } else {
        Some(e)
    }
}

/// Suffixes end at or after where they start, at a token.
proof fn lemma_suffixes_end(toks: Seq<Token>, i: int)
    ensures
        suffixes_end(toks, i) matches Some(m) ==> i <= m < toks.len(),
    decreases toks.len() - i,
{
    if 0 <= i < toks.len() {
        if toks[i].kind is LParen {
            lemma_args_end(toks, i + 1);
            if let Some(m) = args_end(toks, i + 1) {
                if i < m && m + 1 < toks.len() {
                    lemma_suffixes_end(toks, m + 1);
                }
            }
        } else if (toks[i].kind is ColonColon || toks[i].kind is Dot) && i + 2 < toks.len() && toks[i + 1].kind is Ident {
            if toks[i + 2].kind is LParen {
                lemma_args_end(toks, i + 3);
                if let Some(m) = args_end(toks, i + 3) {
                    if i < m && m + 1 < toks.len() {
                        lemma_suffixes_end(toks, m + 1);
                    }
                }
            } else if toks[i].kind is ColonColon && toks[i + 2].kind is LBrace {
                lemma_inits_end(toks, i + 3);
                if let Some(m) = inits_end(toks, i + 3) {
                    if i < m && m + 1 < toks.len() {
                        lemma_suffixes_end(toks, m + 1);
                    }
                }
            } else {
                lemma_suffixes_end(toks, i + 2);
            }
        }
    }
}

/// The rest of an expression ends at or after where it starts, at a token.
proof fn lemma_bin_rest(toks: Seq<Token>, e: int, l: int)
    requires
        0 <= e < toks.len(),
    ensures
        bin_rest(toks, e, l) matches Some(m) ==> e <= m < toks.len(),
    decreases toks.len() - e,
{
    if 1 <= l <= 5 && level_op(toks[e].kind, l) {
        if let Some(e2) = bin_end(toks, e + 1, l + 1) {
            if e < e2 < toks.len() {
                lemma_bin_rest(toks, e2, l);
            }
        }
    }
}

/// An expression read by `bin_end` starts with an operand that
/// `plain_operand_end` reads, and ends after its start, at a token.
proof fn lemma_bin_end(toks: Seq<Token>, i: int, l: int)
    ensures
        bin_end(toks, i, l) matches Some(m) ==> plain_operand_end(toks, i) is Some && i < m < toks.len(),
    decreases 6 - l,
{
    if !(1 <= l <= 5) {
        lemma_operand_end(toks, i);
    } else {
        lemma_bin_end(toks, i, l + 1);
        if let Some(e) = bin_end(toks, i, l + 1) {
            if i < e < toks.len() {
                lemma_bin_rest(toks, e, l);
            }
        }
    }
}

/// Where a whole expression that starts at `k` ends, when it is made of
/// operands that `plain_operand_end` reads and binary operators.
pub open spec fn plain_expr_end(toks: Seq<Token>, k: int) -> Option<int> {
    bin_end(toks, k, 1)
}

/// Where identifiers separated by `::`, read from `i`, end.
pub open spec fn ident_path_end(toks: Seq<Token>, i: int) -> Option<int>
    decreases toks.len() - i,
{
    if 0 <= i && i + 1 < toks.len() && toks[i].kind is Ident {
        if toks[i + 1].kind is ColonColon {
            ident_path_end(toks, i + 2)
        } else {
            Some(i + 1)
        }
    } else {
        None
    }
}

/// Where a module directive `#![a::b(value)]` that starts at `i` ends; the
/// value is a string or an identifier.
pub open spec fn directive_end(toks: Seq<Token>, i: int) -> Option<int> {
    if 0 <= i && i + 1 < toks.len() && toks[i].kind is HashBang && toks[i + 1].kind is LBracket {
        match ident_path_end(toks, i + 2) {
            Some(m) => if m + 3 < toks.len() && toks[m].kind is LParen && (toks[m + 1].kind is LitString
                || toks[m + 1].kind is Ident) && toks[m + 2].kind is RParen && toks[m + 3].kind is RBracket {
                Some(m + 4)
            } else {
                None
            },
            None => None,
        }
    } else {
        None
    }
}

/// The token is a name: an identifier or a type keyword.
pub open spec fn is_name(k: TokenKind) -> bool {
    k is Ident || k.spec_is_type_keyword()
}

/// Where the module path of a require statement, read from the name at
/// `i`, ends: at the `{` of its imports, after an optional `::`.
pub open spec fn module_path_end(toks: Seq<Token>, i: int) -> Option<int>
    decreases toks.len() - i,
{
    if 0 <= i && i + 2 < toks.len() && is_name(toks[i].kind) {
        if toks[i + 1].kind is LBrace {
            Some(i + 1)
        } else if toks[i + 1].kind is ColonColon {
            if toks[i + 2].kind is LBrace {
                Some(i + 2)
            } else {
                module_path_end(toks, i + 2)
            }
        } else {
            None
        }
    } else {
        None
    }
}

/// Where the imports of a require statement, read from the name at `i`,
/// end: at their `}`, names separated by commas, a trailing comma allowed.
pub open spec fn import_names_end(toks: Seq<Token>, i: int) -> Option<int>
    decreases toks.len() - i,
{
    if 0 <= i && i + 2 < toks.len() && is_name(toks[i].kind) {
        if toks[i + 1].kind is RBrace {
            Some(i + 1)
        } else if toks[i + 1].kind is Comma {
            if toks[i + 2].kind is RBrace {
                Some(i + 2)
            } else {
                import_names_end(toks, i + 2)
            }
        } else {
            None
        }
    } else {
        None
    }
}

/// Where a require statement `@require a::b::{ X, Y };` that starts at `i`
/// ends.
pub open spec fn require_end(toks: Seq<Token>, i: int) -> Option<int> {
    if 0 <= i && i + 2 < toks.len() && toks[i].kind is At && toks[i + 1].kind is Ident && toks[i + 1].kind->Ident_0@
        == "require"@ {
        match module_path_end(toks, i + 2) {
            Some(a) => if a + 1 < toks.len() && toks[a + 1].kind is RBrace {
                if a + 2 < toks.len() && toks[a + 2].kind is Semicolon {
                    Some(a + 3)
                } else {
                    None
                }
            } else {
                match import_names_end(toks, a + 1) {
                    Some(c) => if c + 1 < toks.len() && toks[c + 1].kind is Semicolon {
                        Some(c + 2)
                    } else {
                        None
                    },
                    None => None,
                }
            },
            None => None,
        }
    } else {
        None
    }
}

/// Where a plain type read from `i` ends: `&T` or `&mut T`, `Self`, or a
/// name (an identifier or a type keyword), perhaps with plain type
/// arguments `<A, B>`.
pub open spec fn plain_type_end(toks: Seq<Token>, i: int) -> Option<int>
    decreases toks.len() - i, 0int,
{
    if 0 <= i && i + 1 < toks.len() && toks[i].kind is Amp {
        if toks[i + 1].kind is Mut {
            plain_type_end(toks, i + 2)
        } else {
            plain_type_end(toks, i + 1)
        }
    } else if 0 <= i && i + 1 < toks.len() && toks[i].kind is SelfType {
        Some(i + 1)
    } else if 0 <= i && i + 1 < toks.len() && is_name(toks[i].kind) {
        if toks[i + 1].kind is Lt {
            match plain_types_end(toks, i + 2) {
                Some(g) => if g < toks.len() && toks[g].kind is Gt {
                    Some(g + 1)
                } else {
                    None
                },
                None => None,
            }
        } else {
            Some(i + 1)
        }
    } else {
        None
    }
}

/// Where plain types separated by commas, read from `i`, end.
pub open spec fn plain_types_end(toks: Seq<Token>, i: int) -> Option<int>
    decreases toks.len() - i, 1int,
{
    match plain_type_end(toks, i) {
        Some(e) => if i < e < toks.len() {
            types_rest(toks, e)
        } else {
            None
        },
        None => None,
    }
}

/// Where a list of types ends whose last type read so far ended at `e`.
pub open spec fn types_rest(toks: Seq<Token>, e: int) -> Option<int>
    decreases toks.len() - e, 2int,
{
    if 0 <= e && e + 1 < toks.len() && toks[e].kind is Comma {
        plain_types_end(toks, e + 1)
    } else {
        Some(e)
    }
}

/// Where a parameter `name: T` with a plain type, at `i`, ends.
pub open spec fn plain_param_end(toks: Seq<Token>, i: int) -> Option<int> {
    if 0 <= i && i + 1 < toks.len() && is_name(toks[i].kind) && toks[i + 1].kind is Colon {
        plain_type_end(toks, i + 2)
    } else {
        None
    }
}

/// Past a label `name:` at `c`, if one stands there.
pub open spec fn label_skip(toks: Seq<Token>, c: int) -> int {
    if 0 <= c && c + 1 < toks.len() && toks[c].kind is Ident && toks[c + 1].kind is Colon {
        c + 2
    } else {
        c
    }
}

/// Where a statement read from `i` ends that is plain: `let [mut] name: T =
/// x;` with a type that `plain_type_end` reads, `return;`, `return x;`,
/// `break;`, `continue;`, `x;`, `x = x;`, `let` and expression statements
/// with an error handler that `plain_handler_end` reads before the `;`,
/// `guard x else { ... };`, a loop
/// `while (label: x) => { ... };`, `if (label: x) => { ... }` with the
/// branches that `plain_elses_end` reads, or `match (label: x) => { arms }`
/// with arms that `plain_arms_end` reads (labels, `=>` and the final `;` of
/// a loop, `if` or `match` optional), whose blocks are plain and where `x`
/// is an expression that `plain_expr_end` reads.
pub open spec fn plain_stmt_end(toks: Seq<Token>, i: int) -> Option<int>
    decreases toks.len() - i, 0int,
{
    if !(0 <= i && i + 1 < toks.len()) {
        None
    } else if toks[i].kind is While {
        if toks[i + 1].kind is LParen {
            let c = label_skip(toks, i + 2);
            match plain_expr_end(toks, c) {
                Some(e) => if 0 <= e && e + 1 < toks.len() && toks[e].kind is RParen {
                    let b = if toks[e + 1].kind is FatArrow {
                        e + 2
                    } else {
                        e + 1
                    };
                    if i < b < toks.len() {
                        match plain_block_end(toks, b) {
                            Some(f) => if 0 <= f < toks.len() && toks[f].kind is Semicolon {
                                Some(f + 1)
                            } else {
                                Some(f)
                            },
                            None => None,
                        }
                    } else {
                        None
                    }
                } else {
                    None
                },
                None => None,
            }
        } else {
            None
        }
    } else if toks[i].kind is Guard {
        match plain_expr_end(toks, i + 1) {
            Some(e) => if i < e && e + 1 < toks.len() && toks[e].kind is Else {
                match plain_block_end(toks, e + 1) {
                    Some(f) => if 0 <= f < toks.len() && toks[f].kind is Semicolon {
                        Some(f + 1)
                    } else {
                        None
                    },
                    None => None,
                }
            } else {
                None
            },
            None => None,
        }
    } else if toks[i].kind is If || toks[i].kind is Match {
        if toks[i + 1].kind is LParen {
            let c = label_skip(toks, i + 2);
            match plain_expr_end(toks, c) {
                Some(e) => if 0 <= e && e + 1 < toks.len() && toks[e].kind is RParen {
                    let b = if toks[e + 1].kind is FatArrow {
                        e + 2
                    } else {
                        e + 1
                    };
                    let body = if toks[i].kind is If {
                        if i < b < toks.len() {
                            match plain_block_end(toks, b) {
                                Some(f) => if i < f < toks.len() {
                                    plain_elses_end(toks, f)
                                } else {
                                    None
                                },
                                None => None,
                            }
                        } else {
                            None
                        }
                    } else if i < b && b + 1 < toks.len() && toks[b].kind is LBrace {
                        match plain_arms_end(toks, b + 1) {
                            Some(f) => Some(f + 1),
                            None => None,
                        }
                    } else {
                        None
                    };
                    match body {
                        Some(f) => if 0 <= f < toks.len() && toks[f].kind is Semicolon {
                            Some(f + 1)
                        } else {
                            Some(f)
                        },
                        None => None,
                    }
                } else {
                    None
                },
                None => None,
            }
        } else {
            None
        }
    } else if toks[i].kind is Let {
        let n = if toks[i + 1].kind is Mut {
            i + 2
        } else {
            i + 1
        };
        if n + 1 < toks.len() && toks[n].kind is Ident && toks[n + 1].kind is Colon {
            match plain_type_end(toks, n + 2) {
                Some(t) => if 0 <= t < toks.len() && toks[t].kind is Eq {
                    match plain_expr_end(toks, t + 1) {
                        Some(e) => if 0 <= e < toks.len() && toks[e].kind is Semicolon {
                            Some(e + 1)
                        } else if i < e < toks.len() {
                            match plain_handler_end(toks, e) {
                                Some(g) => if 0 <= g < toks.len() && toks[g].kind is Semicolon {
                                    Some(g + 1)
                                } else {
                                    None
                                },
                                None => None,
                            }
                        } else {
                            None
                        },
                        None => None,
                    }
                } else {
                    None
                },
                None => None,
            }
        } else {
            None
        }
    } else if toks[i].kind is Return {
        if toks[i + 1].kind is Semicolon {
            Some(i + 2)
        } else {
            match plain_expr_end(toks, i + 1) {
                Some(e) => if toks[e].kind is Semicolon {
                    Some(e + 1)
                } else {
                    None
                },
                None => None,
            }
        }
    } else if toks[i].kind is Break || toks[i].kind is Continue {
        if toks[i + 1].kind is Semicolon {
            Some(i + 2)
        } else {
            None
        }
    } else {
        match plain_expr_end(toks, i) {
            Some(e) => if toks[e].kind is Semicolon {
                Some(e + 1)
            } else if toks[e].kind is Eq {
                match plain_expr_end(toks, e + 1) {
                    Some(e2) => if 0 <= e2 < toks.len() && toks[e2].kind is Semicolon {
                        Some(e2 + 1)
                    } else {
                        None
                    },
                    None => None,
                }
            } else if i < e < toks.len() {
                match plain_handler_end(toks, e) {
                    Some(g) => if 0 <= g < toks.len() && toks[g].kind is Semicolon {
                        Some(g + 1)
                    } else {
                        None
                    },
                    None => None,
                }
            } else {
                None
            },
            None => None,
        }
    }
}

/// Where an error handler `=> |name| { ... }` with a plain block, at `e`,
/// ends.
pub open spec fn plain_handler_end(toks: Seq<Token>, e: int) -> Option<int>
    decreases toks.len() - e, 0int,
{
    if 0 <= e && e + 4 < toks.len() && toks[e].kind is FatArrow && toks[e + 1].kind is Pipe && toks[e + 2].kind is Ident
        && toks[e + 3].kind is Pipe {
        plain_block_end(toks, e + 4)
    } else {
        None
    }
}

/// Where the plain statements read from `i` (comments between them
/// allowed) end: at the `}` after them.
pub open spec fn plain_stmts_end(toks: Seq<Token>, i: int) -> Option<int>
    decreases toks.len() - i, 1int,
{
    let j = comments_end(toks, i);
    if !(0 <= i <= j < toks.len()) {
        None
    } else if toks[j].kind is RBrace {
        Some(j)
    } else {
        match plain_stmt_end(toks, j) {
            Some(e) => if j < e < toks.len() {
                plain_stmts_end(toks, e)
            } else {
                None
            },
            None => None,
        }
    }
}

/// Where a block `{ ... }` of plain statements that starts at `i` ends.
pub open spec fn plain_block_end(toks: Seq<Token>, i: int) -> Option<int>
    decreases toks.len() - i, 2int,
{
    if 0 <= i && i + 1 < toks.len() && toks[i].kind is LBrace {
        match plain_stmts_end(toks, i + 1) {
            Some(c) => Some(c + 1),
            None => None,
        }
    } else {
        None
    }
}

/// Where the branches of an `if` read from `f` end: `else if (label: x)
/// => { ... }` any number of times, then perhaps `else => { ... }` (labels
/// and `=>` optional), with plain conditions and blocks.
pub open spec fn plain_elses_end(toks: Seq<Token>, f: int) -> Option<int>
    decreases toks.len() - f, 0int,
{
    if 0 <= f && f + 1 < toks.len() && toks[f].kind is Else {
        if toks[f + 1].kind is If {
            if f + 2 < toks.len() && toks[f + 2].kind is LParen {
                match plain_expr_end(toks, label_skip(toks, f + 3)) {
                    Some(e) => if f < e && e + 1 < toks.len() && toks[e].kind is RParen {
                        let b = if toks[e + 1].kind is FatArrow {
                            e + 2
                        } else {
                            e + 1
                        };
                        if b < toks.len() {
                            match plain_block_end(toks, b) {
                                Some(g) => if f < g < toks.len() {
                                    plain_elses_end(toks, g)
                                } else {
                                    None
                                },
                                None => None,
                            }
                        } else {
                            None
                        }
                    } else {
                        None
                    },
                    None => None,
                }
            } else {
                None
            }
        } else {
            let b = if toks[f + 1].kind is FatArrow {
                f + 2
            } else {
                f + 1
            };
            if b < toks.len() {
                plain_block_end(toks, b)
            } else {
                None
            }
        }
    } else {
        Some(f)
    }
}

/// Where a match arm read from `k` ends: `default` or `case(x)` with a
/// plain `x`, then `=>` (optional), a plain block and an optional `,`.
pub open spec fn plain_arm_end(toks: Seq<Token>, k: int) -> Option<int>
    decreases toks.len() - k, 0int,
{
    let p = if 0 <= k < toks.len() && toks[k].kind is Default {
        Some(k + 1)
    } else if 0 <= k && k + 1 < toks.len() && toks[k].kind is Case && toks[k + 1].kind is LParen {
        match plain_expr_end(toks, k + 2) {
            Some(e) => if 0 <= e < toks.len() && toks[e].kind is RParen {
                Some(e + 1)
            } else {
                None
            },
            None => None,
        }
    } else {
        None
    };
    match p {
        Some(p) => if k < p && p + 1 < toks.len() {
            let b = if toks[p].kind is FatArrow {
                p + 1
            } else {
                p
            };
            match plain_block_end(toks, b) {
                Some(g) => if 0 <= g < toks.len() && toks[g].kind is Comma {
                    Some(g + 1)
                } else {
                    Some(g)
                },
                None => None,
            }
        } else {
            None
        },
        None => None,
    }
}

/// Where the plain arms read from `i` (comments between them allowed) end:
/// at the `}` after them.
pub open spec fn plain_arms_end(toks: Seq<Token>, i: int) -> Option<int>
    decreases toks.len() - i, 1int,
{
    let j = comments_end(toks, i);
    if !(0 <= i <= j < toks.len()) {
        None
    } else if toks[j].kind is RBrace {
        Some(j)
    } else {
        match plain_arm_end(toks, j) {
            Some(e) => if j < e < toks.len() {
                plain_arms_end(toks, e)
            } else {
                None
            },
            None => None,
        }
    }
}

/// Where parameters `name: T`, with types that `plain_type_end` reads, separated by commas (a
/// trailing comma allowed), read from `i`, end: at the closing `)`.
pub open spec fn plain_params_end(toks: Seq<Token>, i: int) -> Option<int>
    decreases toks.len() - i,
{
    if !(0 <= i < toks.len()) {
        None
    } else if toks[i].kind is RParen {
        Some(i)
    } else {
        match plain_param_end(toks, i) {
            Some(e) => if i < e < toks.len() && toks[e].kind is RParen {
                Some(e)
            } else if i < e && e + 1 < toks.len() && toks[e].kind is Comma {
                plain_params_end(toks, e + 1)
            } else {
                None
            },
            None => None,
        }
    }
}

/// Where the parameters end after a parameter that ended at `e`: at a `)`
/// there, or after a comma and more parameters.
pub open spec fn after_param(toks: Seq<Token>, e: int) -> Option<int> {
    if 0 <= e < toks.len() && toks[e].kind is RParen {
        Some(e)
    } else if 0 <= e && e + 1 < toks.len() && toks[e].kind is Comma {
        plain_params_end(toks, e + 1)
    } else {
        None
    }
}

/// Plain parameters end at a `)` at or after where they start.
proof fn lemma_params_end(toks: Seq<Token>, i: int)
    ensures
        plain_params_end(toks, i) matches Some(m) ==> i <= m < toks.len() && toks[m].kind is RParen,
    decreases toks.len() - i,
{
    if 0 <= i < toks.len() && !(toks[i].kind is RParen) {
        if let Some(e) = plain_param_end(toks, i) {
            if i < e && e + 1 < toks.len() && !(toks[e].kind is RParen) && toks[e].kind is Comma {
                lemma_params_end(toks, e + 1);
            }
        }
    }
}

/// Where identifiers separated by commas, read from `i`, end.
pub open spec fn idents_comma_end(toks: Seq<Token>, i: int) -> Option<int>
    decreases toks.len() - i,
{
    if 0 <= i && i + 1 < toks.len() && toks[i].kind is Ident {
        if toks[i + 1].kind is Comma {
            idents_comma_end(toks, i + 2)
        } else {
            Some(i + 1)
        }
    } else {
        None
    }
}

/// Where plain expressions separated by commas (a trailing comma allowed),
/// read from `i`, end: at the closing `)`.
pub open spec fn exprs_end(toks: Seq<Token>, i: int) -> Option<int>
    decreases toks.len() - i,
{
    if !(0 <= i < toks.len()) {
        None
    } else if toks[i].kind is RParen {
        Some(i)
    } else {
        match plain_expr_end(toks, i) {
            Some(e) => if i < e < toks.len() && toks[e].kind is RParen {
                Some(e)
            } else if i < e && e + 1 < toks.len() && toks[e].kind is Comma {
                exprs_end(toks, e + 1)
            } else {
                None
            },
            None => None,
        }
    }
}

/// Where the expressions end after one that ended at `e`.
pub open spec fn after_expr(toks: Seq<Token>, e: int) -> Option<int> {
    if 0 <= e < toks.len() && toks[e].kind is RParen {
        Some(e)
    } else if 0 <= e && e + 1 < toks.len() && toks[e].kind is Comma {
        exprs_end(toks, e + 1)
    } else {
        None
    }
}

/// At `i`, `@` is followed by the identifier `require`.
pub open spec fn require_ahead(toks: Seq<Token>, i: int) -> bool {
    0 <= i && i + 1 < toks.len() && toks[i + 1].kind is Ident && toks[i + 1].kind->Ident_0@ == "require"@
}

/// Where a plain annotation `@name` or `@name(x, ...)` at `i` ends.
pub open spec fn plain_annotation_end(toks: Seq<Token>, i: int) -> Option<int> {
    if 0 <= i && i + 2 < toks.len() && toks[i].kind is At && toks[i + 1].kind is Ident {
        if toks[i + 2].kind is LParen {
            match exprs_end(toks, i + 3) {
                Some(c) => Some(c + 1),
                None => None,
            }
        } else {
            Some(i + 2)
        }
    } else {
        None
    }
}

/// Where the plain annotations read from `i` end (none when no `@` other
/// than that of a require statement stands there).
pub open spec fn plain_annotations_end(toks: Seq<Token>, i: int) -> Option<int>
    decreases toks.len() - i,
{
    if 0 <= i < toks.len() && toks[i].kind is At && !require_ahead(toks, i) {
        match plain_annotation_end(toks, i) {
            Some(e) => if i < e < toks.len() {
                plain_annotations_end(toks, e)
            } else {
                None
            },
            None => None,
        }
    } else if 0 <= i < toks.len() {
        Some(i)
    } else {
        None
    }
}

/// Plain expressions end at a `)` at or after where they start.
proof fn lemma_exprs_end(toks: Seq<Token>, i: int)
    ensures
        exprs_end(toks, i) matches Some(m) ==> i <= m < toks.len() && toks[m].kind is RParen,
    decreases toks.len() - i,
{
    if 0 <= i < toks.len() && !(toks[i].kind is RParen) {
        if let Some(e) = plain_expr_end(toks, i) {
            if i < e && e + 1 < toks.len() && !(toks[e].kind is RParen) && toks[e].kind is Comma {
                lemma_exprs_end(toks, e + 1);
            }
        }
    }
}

/// Where the trait list of a contract (`:: A, B`, or nothing), read from
/// `i`, ends.
pub open spec fn plain_traits_end(toks: Seq<Token>, i: int) -> Option<int> {
    if 0 <= i < toks.len() && toks[i].kind is ColonColon {
        idents_comma_end(toks, i + 1)
    } else if 0 <= i < toks.len() {
        Some(i)
    } else {
        None
    }
}

/// Where a field `field name: T;` with a type that `plain_type_end` reads,
/// at `i`, ends.
pub open spec fn plain_field_end(toks: Seq<Token>, i: int) -> Option<int> {
    if 0 <= i && i + 2 < toks.len() && toks[i].kind is Field && toks[i + 1].kind is Ident && toks[i + 2].kind is Colon {
        match plain_type_end(toks, i + 3) {
            Some(t) => if 0 <= t < toks.len() && toks[t].kind is Semicolon {
                Some(t + 1)
            } else {
                None
            },
            None => None,
        }
    } else {
        None
    }
}

/// Where a function `fn name(params) -> T { ... }` at `i` ends, with plain
/// parameters, a plain return type and a block of plain statements.
pub open spec fn plain_fn_end(toks: Seq<Token>, i: int) -> Option<int> {
    if 0 <= i && i + 3 < toks.len() && toks[i].kind is Fn && toks[i + 1].kind is Ident && toks[i + 2].kind is LParen {
        match plain_params_end(toks, i + 3) {
            Some(a) => if a + 2 < toks.len() && toks[a + 1].kind is Arrow {
                match plain_type_end(toks, a + 2) {
                    Some(t) => plain_block_end(toks, t),
                    None => None,
                }
            } else {
                None
            },
            None => None,
        }
    } else {
        None
    }
}

/// Where the members of a contract read from `i` end: plain fields and
/// functions, comments between them allowed, up to the closing `}`.
pub open spec fn plain_members_end(toks: Seq<Token>, i: int) -> Option<int>
    decreases toks.len() - i,
{
    let j = comments_end(toks, i);
    if !(0 <= i <= j < toks.len()) {
        None
    } else if toks[j].kind is RBrace {
        Some(j)
    } else {
        let m = match plain_annotations_end(toks, j) {
            Some(a) => if 0 <= a < toks.len() && toks[a].kind is Field {
                plain_field_end(toks, a)
            } else {
                plain_fn_end(toks, a)
            },
            None => None,
        };
        match m {
            Some(e) => if j < e < toks.len() {
                plain_members_end(toks, e)
            } else {
                None
            },
            None => None,
        }
    }
}

/// Where a contract `contract Name :: Traits { members }` at `i` ends, with
/// plain members.
pub open spec fn plain_contract_end(toks: Seq<Token>, i: int) -> Option<int> {
    if 0 <= i && i + 2 < toks.len() && toks[i].kind is Contract && toks[i + 1].kind is Ident {
        match plain_traits_end(toks, i + 2) {
            Some(t) => if t < toks.len() && toks[t].kind is LBrace {
                match plain_members_end(toks, t + 1) {
                    Some(c) => Some(c + 1),
                    None => None,
                }
            } else {
                None
            },
            None => None,
        }
    } else {
        None
    }
}

/// Where the fields of a variant read from `i` (comments between them
/// allowed) end: plain fields up to the closing `}`.
pub open spec fn plain_vfields_end(toks: Seq<Token>, i: int) -> Option<int>
    decreases toks.len() - i,
{
    let j = comments_end(toks, i);
    if !(0 <= i <= j < toks.len()) {
        None
    } else if toks[j].kind is RBrace {
        Some(j)
    } else {
        match plain_field_end(toks, j) {
            Some(e) => if j < e < toks.len() {
                plain_vfields_end(toks, e)
            } else {
                None
            },
            None => None,
        }
    }
}

/// Where a variant `variant Name`, perhaps with plain fields in `{ }` and
/// perhaps followed by a comma, at `i`, ends.
pub open spec fn plain_variant_end(toks: Seq<Token>, i: int) -> Option<int> {
    if 0 <= i && i + 2 < toks.len() && toks[i].kind is Variant && toks[i + 1].kind is Ident {
        let e = if toks[i + 2].kind is LBrace {
            match plain_vfields_end(toks, i + 3) {
                Some(c) => Some(c + 1),
                None => None,
            }
        } else {
            Some(i + 2)
        };
        match e {
            Some(e) => if 0 <= e < toks.len() && toks[e].kind is Comma {
                Some(e + 1)
            } else {
                Some(e)
            },
            None => None,
        }
    } else {
        None
    }
}

/// Where the entries of an enumeration read from `i` end: plain variants
/// and functions, with plain annotations, comments between them allowed,
/// up to the closing `}`.
pub open spec fn plain_entries_end(toks: Seq<Token>, i: int) -> Option<int>
    decreases toks.len() - i,
{
    let j = comments_end(toks, i);
    if !(0 <= i <= j < toks.len()) {
        None
    } else if toks[j].kind is RBrace {
        Some(j)
    } else {
        let m = match plain_annotations_end(toks, j) {
            Some(a) => if 0 <= a < toks.len() && toks[a].kind is Variant {
                plain_variant_end(toks, a)
            } else {
                plain_fn_end(toks, a)
            },
            None => None,
        };
        match m {
            Some(e) => if j < e < toks.len() {
                plain_entries_end(toks, e)
            } else {
                None
            },
            None => None,
        }
    }
}

/// Where an enumeration `enumeration Name :: Traits { entries }` at `i`
/// ends, with plain entries.
pub open spec fn plain_enum_end(toks: Seq<Token>, i: int) -> Option<int> {
    if 0 <= i && i + 2 < toks.len() && toks[i].kind is Enumeration && toks[i + 1].kind is Ident {
        match plain_traits_end(toks, i + 2) {
            Some(t) => if t < toks.len() && toks[t].kind is LBrace {
                match plain_entries_end(toks, t + 1) {
                    Some(c) => Some(c + 1),
                    None => None,
                }
            } else {
                None
            },
            None => None,
        }
    } else {
        None
    }
}

/// Where a plain declaration at `i` ends: plain annotations, then a
/// contract, a function or an enumeration.
pub open spec fn plain_decl_end(toks: Seq<Token>, i: int) -> Option<int> {
    match plain_annotations_end(toks, i) {
        Some(a) => if 0 <= a < toks.len() && toks[a].kind is Contract {
            plain_contract_end(toks, a)
        } else if 0 <= a < toks.len() && toks[a].kind is Fn {
            plain_fn_end(toks, a)
        } else if 0 <= a < toks.len() && toks[a].kind is Enumeration {
            plain_enum_end(toks, a)
        } else {
            None
        },
        None => None,
    }
}

/// Where a plain item at `i` ends: a module directive, a require statement
/// or a plain declaration (perhaps with annotations).
pub open spec fn plain_item_end(toks: Seq<Token>, i: int) -> Option<int> {
    if 0 <= i < toks.len() && toks[i].kind is HashBang {
        directive_end(toks, i)
    } else if 0 <= i < toks.len() && toks[i].kind is At && require_ahead(toks, i) {
        require_end(toks, i)
    } else {
        plain_decl_end(toks, i)
    }
}

/// From `i` to `EOF` stand only comments and plain items.
pub open spec fn plain_items(toks: Seq<Token>, i: int) -> bool
    decreases toks.len() - i,
{
    if !(0 <= i < toks.len()) {
        false
    } else if toks[i].kind is EOF {
        true
    } else if toks[i].kind is Comment {
        plain_items(toks, i + 1)
    } else {
        match plain_item_end(toks, i) {
            Some(e) => i < e < toks.len() && plain_items(toks, e),
            None => false,
        }
    }
}

/// From `i` up to `k` stand only comments and items that `plain_item_end`
/// reads, and `k` is where the next one starts.
pub open spec fn plain_prefix(toks: Seq<Token>, i: int, k: int) -> bool
    decreases toks.len() - i,
{
    if !(0 <= i <= k < toks.len()) {
        false
    } else if i == k {
        true
    } else if toks[i].kind is Comment {
        plain_prefix(toks, i + 1, k)
    } else {
        match plain_item_end(toks, i) {
            Some(e) => i < e <= k && plain_prefix(toks, e, k),
            None => false,
        }
    }
}

/// At `k` stands a token where no item can be read: one that starts no
/// item, or `contract` without a name after it.
pub open spec fn item_fails_at(toks: Seq<Token>, k: int) -> bool {
    &&& 0 <= k && k + 1 < toks.len()
    &&& !(toks[k].kind is Comment)
    &&& !starts_item(toks[k].kind) || (toks[k].kind is Contract && !(toks[k + 1].kind is Ident))
}

/// The first error that reading the item at `k` reports, where
/// `item_fails_at(toks, k)`.
pub open spec fn item_error(toks: Seq<Token>, k: int) -> ParseError {
    if toks[k].kind is Contract {
        ParseError::ExpectedIdentifier { found: toks[k + 1].lexeme, span: toks[k + 1].span }
    } else {
        ParseError::UnexpectedToken { token: toks[k].lexeme, span: toks[k].span }
    }
}

/// How many tokens past the one it names reading has gone when the error
/// `e` is reported: a token that was unexpected, or that starts no
/// expression, has been read.
pub open spec fn error_step(e: ParseError) -> int {
    match e {
        ParseError::UnexpectedToken { .. } => 1,
        ParseError::ExpectedExpression { .. } => 1,
        _ => 0,
    }
}

/// The error `e` names the token at `c`, at or after `start`: its span, and
/// its text where the error records the text found.
pub open spec fn names_token(toks: Seq<Token>, start: int, c: int, e: ParseError) -> bool {
    &&& start <= c < toks.len()
    &&& match e {
        ParseError::ExpectedToken { found, span, .. } => found == toks[c].lexeme && span == toks[c].span,
        ParseError::UnexpectedToken { token, span } => token == toks[c].lexeme && span == toks[c].span,
        ParseError::ExpectedIdentifier { found, span } => found == toks[c].lexeme && span == toks[c].span,
        ParseError::ExpectedExpression { span } => span == toks[c].span,
        _ => false,
    }
}

/// The error `e`, reported by reading that began at `start` and stopped at
/// `end`, names the token at `end - error_step(e)` (or at `end` itself, the
/// last token, which reading never passes).
pub open spec fn fails_at(toks: Seq<Token>, start: int, end: int, e: ParseError) -> bool {
    ||| names_token(toks, start, end - error_step(e), e)
    ||| end == toks.len() - 1 && names_token(toks, start, end, e)
}

/// Tokens that start an item at the top level.
pub open spec fn starts_top_item(k: TokenKind) -> bool {
    k is HashBang || k is At || k is Contract || k is Fn || k is Enumeration
}

/// The tokens from `i` to `k` spell an item: a module directive, a require
/// statement or a declaration.
pub open spec fn item_read(toks: Seq<Token>, i: int, k: int) -> bool {
    ||| exists|d: ModuleDirective| #[trigger] spells_directive(toks, i, k, d)
    ||| exists|q: RequireStatement| #[trigger] spells_require(toks, i, k, q)
    ||| exists|d: Declaration| #[trigger] spells_decl(toks, i, k, d)
}

/// `es` are the errors, in order, of reading the program from `i`: comments
/// are passed over; a token that starts no item is reported
/// (`UnexpectedToken`) and reading goes on after it; an item that
/// `plain_item_end` reads is read and reading goes on after it; an item
/// where `item_fails_at` holds is reported as `item_error` says, and reading
/// goes on where `sync_end` resumes after its first token; any other item
/// is either read whole (`item_read`), or fails with one error that names
/// the token where reading it stopped (`fails_at`), and reading goes on
/// where `sync_end` resumes from there; `EOF` ends the list.
pub open spec fn parse_errors_from(toks: Seq<Token>, i: int, es: Seq<ParseError>) -> bool
    decreases toks.len() - i,
{
    if !(0 <= i < toks.len()) || toks[i].kind is EOF {
        es.len() == 0
    } else if toks[i].kind is Comment {
        parse_errors_from(toks, i + 1, es)
    } else if !starts_top_item(toks[i].kind) {
        &&& es.len() > 0
        &&& es[0] == (ParseError::UnexpectedToken { token: toks[i].lexeme, span: toks[i].span })
        &&& parse_errors_from(toks, i + 1, es.drop_first())
    } else if plain_item_end(toks, i) matches Some(k) && i < k <= toks.len() {
        parse_errors_from(toks, plain_item_end(toks, i)->0, es)
    } else if item_fails_at(toks, i) {
        &&& es.len() > 0
        &&& es[0] == item_error(toks, i)
        &&& i < sync_end(toks, i + 1) <= toks.len()
        &&& parse_errors_from(toks, sync_end(toks, i + 1), es.drop_first())
    } else {
        ||| exists|k: int| #![trigger item_read(toks, i, k)] i < k <= toks.len() && item_read(toks, i, k) && parse_errors_from(toks, k, es)
        ||| es.len() > 0 && exists|m: int| #![trigger fails_at(toks, i, m, es[0])] fails_at(toks, i, m, es[0]) && i < sync_end(toks, m) <= toks.len()
            && parse_errors_from(toks, sync_end(toks, m), es.drop_first())
    }
}

/// After an item read whole from `i` to `k`, the errors from `i` are those
/// from `k`.
proof fn lemma_errors_after_item(toks: Seq<Token>, i: int, k: int)
    requires
        0 <= i < k <= toks.len(),
        !(toks[i].kind is EOF),
        !(toks[i].kind is Comment),
        starts_top_item(toks[i].kind),
        item_read(toks, i, k),
        plain_item_end(toks, i) matches Some(e) ==> e == k,
        !item_fails_at(toks, i),
    ensures
        forall|rest: Seq<ParseError>| #[trigger] parse_errors_from(toks, k, rest) ==> parse_errors_from(toks, i, rest),
{
}

/// After an item that fails with `e`, reading stopped at `m`, the errors
/// from `i` are `e` and then those from where `sync_end` resumes.
proof fn lemma_errors_after_failure(toks: Seq<Token>, i: int, m: int, e: ParseError)
    requires
        0 <= i < toks.len(),
        !(toks[i].kind is EOF),
        !(toks[i].kind is Comment),
        starts_top_item(toks[i].kind),
        fails_at(toks, i, m, e),
        i < sync_end(toks, m) <= toks.len(),
        !(plain_item_end(toks, i) matches Some(k) && i < k <= toks.len()),
        item_fails_at(toks, i) ==> e == item_error(toks, i) && m == i + 1,
    ensures
        forall|rest: Seq<ParseError>| #[trigger] parse_errors_from(toks, sync_end(toks, m), rest) ==> parse_errors_from(
            toks,
            i,
            seq![e] + rest,
        ),
{
    assert forall|rest: Seq<ParseError>| #[trigger] parse_errors_from(toks, sync_end(toks, m), rest) implies parse_errors_from(
        toks,
        i,
        seq![e] + rest,
    ) by {
        let es = seq![e] + rest;
        assert(es[0] == e);
        assert(es.drop_first() =~= rest);
    }
}

/// Errors found so far, `found`, then those from `j` give the errors from
/// `start`, when the errors from `i` lead to those from `j` after `d`.
proof fn lemma_errors_extend(toks: Seq<Token>, start: int, i: int, j: int, found: Seq<ParseError>, d: Seq<ParseError>)
    requires
        forall|rest: Seq<ParseError>| #[trigger] parse_errors_from(toks, i, rest) ==> parse_errors_from(toks, start, found + rest),
        forall|rest: Seq<ParseError>| #[trigger] parse_errors_from(toks, j, rest) ==> parse_errors_from(toks, i, d + rest),
    ensures
        forall|rest: Seq<ParseError>| #[trigger] parse_errors_from(toks, j, rest) ==> parse_errors_from(toks, start, (found + d) + rest),
{
    assert forall|rest: Seq<ParseError>| #[trigger] parse_errors_from(toks, j, rest) implies parse_errors_from(
        toks,
        start,
        (found + d) + rest,
    ) by {
        assert(parse_errors_from(toks, i, d + rest));
        assert(found + (d + rest) =~= (found + d) + rest);
    }
}

/// No item is read at a token where reading an item fails.
proof fn lemma_fails_not_plain(toks: Seq<Token>, k: int)
    requires
        item_fails_at(toks, k),
    ensures
        plain_item_end(toks, k) is None,
{
    assert(plain_annotations_end(toks, k) == Some(k));
}

/// Two places that plain items lead to from `i`, where reading fails at the
/// second, are the same.
proof fn lemma_prefix_unique(toks: Seq<Token>, i: int, k1: int, k2: int)
    requires
        plain_prefix(toks, i, k1),
        plain_prefix(toks, i, k2),
        item_fails_at(toks, k1),
        item_fails_at(toks, k2),
    ensures
        k1 == k2,
    decreases toks.len() - i,
{
    if i != k1 && i != k2 {
        if toks[i].kind is Comment {
            lemma_prefix_unique(toks, i + 1, k1, k2);
        } else {
            let e = plain_item_end(toks, i)->0;
            lemma_prefix_unique(toks, e, k1, k2);
        }
    } else if i == k1 && i != k2 {
        lemma_fails_not_plain(toks, k1);
    } else if i == k2 && i != k1 {
        lemma_fails_not_plain(toks, k2);
    }
}

/// Tokens at which reading resumes after an error: those that start a
/// declaration or a statement.
pub open spec fn starts_sync(k: TokenKind) -> bool {
    ||| k is Contract
    ||| k is Fn
    ||| k is Let
    ||| k is Return
    ||| k is If
    ||| k is Match
    ||| k is Guard
    ||| k is Enumeration
}

/// Where reading stops after an error, from `i`: just past the next `;`, or
/// at the next token that starts a declaration or statement, or at `EOF`.
pub open spec fn sync_end(toks: Seq<Token>, i: int) -> int
    decreases toks.len() - i,
{
    if 0 <= i < toks.len() && !(toks[i].kind is EOF) {
        if toks[i].kind is Semicolon {
            i + 1
        } else if starts_sync(toks[i].kind) {
            i
        } else {
            sync_end(toks, i + 1)
        }
    } else {
        i
    }
}

/// Index of the first token at or after `i` that is not a comment.
pub open spec fn comments_end(toks: Seq<Token>, i: int) -> int
    decreases toks.len() - i,
{
    if 0 <= i < toks.len() && toks[i].kind is Comment {
        comments_end(toks, i + 1)
    } else {
        i
    }
}

/// From `i`, comments run up to `comments_end(toks, i)`, where a token that
/// is no comment stands.
pub proof fn lemma_comments_end(toks: Seq<Token>, i: int)
    requires
        0 <= i < toks.len(),
        !(toks.last().kind is Comment),
    ensures
        i <= comments_end(toks, i) < toks.len(),
        !(toks[comments_end(toks, i)].kind is Comment),
        forall|j: int| i <= j < comments_end(toks, i) ==> (#[trigger] toks[j]).kind is Comment,
    decreases toks.len() - i,
{
    if toks[i].kind is Comment {
        lemma_comments_end(toks, i + 1);
    }
}

/// `t` names `n`: an identifier `n`, or a type keyword written `n`.
pub open spec fn names(t: Token, n: String) -> bool {
    t.kind == TokenKind::Ident(n) || (t.kind.spec_is_type_keyword() && n@ == t.lexeme@)
}

/// The type expression `t` starts as the token at `i` says: `&` gives a
/// reference (mutable when `mut` follows), `Self` the self type, and a name
/// a named type, generic exactly when `<` follows the name.
pub open spec fn type_from(toks: Seq<Token>, i: int, t: TypeExpr) -> bool {
    if toks[i].kind is Amp {
        t matches TypeExpr::Reference { mutable, span, .. } && span == toks[i].span
            && (mutable <==> toks[i + 1].kind is Mut)
    } else if toks[i].kind is SelfType {
        t == TypeExpr::SelfType(toks[i].span)
    } else {
        match t {
            TypeExpr::Named(n, span) => names(toks[i], n) && span == toks[i].span && !(toks[i + 1].kind is Lt),
            TypeExpr::Generic { base, type_args, span } => names(toks[i], base) && span == toks[i].span
                && toks[i + 1].kind is Lt && type_args@.len() > 0,
            _ => false,
        }
    }
}

/// The statement `s` is of the kind that its first token `k` announces.
pub open spec fn statement_from(k: TokenKind, s: Stmt) -> bool {
    match k {
        TokenKind::Let => s is Let,
        TokenKind::Return => s is Return,
        TokenKind::Guard => s is Guard,
        TokenKind::If => s is If,
        TokenKind::While => s is While,
        TokenKind::Match => s is Match,
        TokenKind::Break => s is Break,
        TokenKind::Continue => s is Continue,
        _ => s is Expression || s is Assignment,
    }
}

/// The binary operator a token stands for, if any.
pub open spec fn binary_op(k: TokenKind) -> Option<BinOp> {
    match k {
        TokenKind::PipePipe => Some(BinOp::Or),
        TokenKind::AmpAmp => Some(BinOp::And),
        _ => match comparison_op(k) {
            Some(op) => Some(op),
            None => match additive_op(k) {
                Some(op) => Some(op),
                None => multiplicative_op(k),
            },
        },
    }
}

/// The texts of a sequence of strings.
pub open spec fn texts(v: Seq<String>) -> Seq<Seq<char>> {
    v.map_values(|s: String| s@)
}

/// The path that `::name` extends after the expression `o`: a name is a
/// path of one segment, a path is itself, and any other expression stands
/// as one segment, the name of its kind.
pub open spec fn path_of(o: Expr) -> Seq<Seq<char>> {
    match o {
        Expr::Identifier { name, .. } => seq![name@],
        Expr::PathExpr { segments, .. } => texts(segments@),
        _ => seq![expr_kind_name(o)],
    }
}

/// The type path that `::Name { ... }` extends after the expression `o`: a
/// name, or the segments of a path; nothing for another expression.
pub open spec fn type_prefix(o: Expr) -> Seq<Seq<char>> {
    match o {
        Expr::Identifier { name, .. } => seq![name@],
        Expr::PathExpr { segments, .. } => texts(segments@),
        _ => Seq::empty(),
    }
}

/// The tokens `ts[i..j]` spell the expression `e`. A binary expression
/// carries its operator's span; a prefix expression, a literal, a name and
/// a parenthesised expression that of their first token; a call, a field
/// access, a path and a structure that of the token just after them.
pub open spec fn spells_expr(ts: Seq<Token>, i: int, j: int, e: Expr) -> bool
    decreases j - i, 0nat,
{
    &&& 0 <= i < j < ts.len()
    &&& match e {
        Expr::Binary { left, op, right, span } => exists|k: int|
            #![trigger ts[k]]
            i < k < j - 1 && binary_op(ts[k].kind) == Some(op) && ts[k].span == span && spells_expr(ts, i, k, *left)
                && spells_expr(ts, k + 1, j, *right),
        Expr::Unary { op, operand, span } => {
            &&& prefix_op(ts[i].kind, ts[i + 1].kind) == Some(op)
            &&& ts[i].span == span
            &&& (if op is RefMut { i + 2 < j } else { i + 1 < j })
            &&& spells_expr(ts, if op is RefMut { i + 2 } else { i + 1 }, j, *operand)
        },
        Expr::Grouped { inner, span } => {
            &&& ts[i].kind is LParen
            &&& ts[i].span == span
            &&& ts[j - 1].kind is RParen
            &&& spells_expr(ts, i + 1, j - 1, *inner)
        },
        Expr::MethodCall { object, method, args, span } => {
            &&& span == ts[j].span
            &&& ts[j - 1].kind is RParen
            &&& exists|k: int|
                #![trigger ts[k]]
                i < k && k + 3 <= j - 1 && (ts[k].kind is ColonColon || ts[k].kind is Dot) && ts[k + 1].kind
                    == TokenKind::Ident(method) && ts[k + 2].kind is LParen && spells_expr(ts, i, k, *object)
                    && spells_arg_list(ts, k + 3, j - 1, args@)
        },
        Expr::FnCall { callee, args, span } => {
            &&& span == ts[j].span
            &&& ts[j - 1].kind is RParen
            &&& exists|k: int|
                #![trigger ts[k]]
                i < k < j - 1 && ts[k].kind is LParen && spells_expr(ts, i, k, *callee) && spells_arg_list(
                    ts,
                    k + 1,
                    j - 1,
                    args@,
                )
        },
        Expr::FieldAccess { object, field, span } => {
            &&& span == ts[j].span
            &&& i < j - 2
            &&& ts[j - 2].kind is Dot
            &&& ts[j - 1].kind == TokenKind::Ident(field)
            &&& spells_expr(ts, i, j - 2, *object)
        },
        Expr::PathExpr { segments, span } => {
            &&& span == ts[j].span
            &&& i < j - 2
            &&& ts[j - 2].kind is ColonColon
            &&& ts[j - 1].kind is Ident
            &&& exists|o: Expr|
                #![trigger path_of(o)]
                spells_expr(ts, i, j - 2, o) && texts(segments@) == path_of(o).push(ts[j - 1].kind->Ident_0@)
        },
        Expr::StructInit { type_path, fields, span } => {
            &&& span == ts[j].span
            &&& ts[j - 1].kind is RBrace
            &&& exists|k: int, o: Expr|
                #![trigger ts[k], type_prefix(o)]
                i < k && k + 3 <= j - 1 && ts[k].kind is ColonColon && ts[k + 1].kind is Ident && ts[k + 2].kind is LBrace
                    && texts(type_path@) == type_prefix(o).push(ts[k + 1].kind->Ident_0@) && spells_expr(ts, i, k, o)
                    && spells_fields(ts, k + 3, j - 1, fields@)
        },
        Expr::WithErrorHandler { .. } => false,
        _ => j == i + 1 && primary_from(ts[i], e),
    }
}

/// The tokens `ts[i..j]` spell an argument: `name: value` or a value.
pub open spec fn spells_arg(ts: Seq<Token>, i: int, j: int, a: NamedArg) -> bool
    decreases j - i, 1nat,
{
    &&& 0 <= i < j < ts.len()
    &&& a.span == ts[i].span
    &&& match a.name {
        Some(n) => ts[i].kind == TokenKind::Ident(n) && ts[i + 1].kind is Colon && i + 2 < j && spells_expr(
            ts,
            i + 2,
            j,
            a.value,
        ),
        None => !(ts[i].kind is Ident && ts[i + 1].kind is Colon) && spells_expr(ts, i, j, a.value),
    }
}

/// The tokens `ts[i..j]` spell the arguments `args`, separated by commas.
pub open spec fn spells_args_sep(ts: Seq<Token>, i: int, j: int, args: Seq<NamedArg>) -> bool
    decreases j - i, 2nat,
{
    if args.len() == 1 {
        spells_arg(ts, i, j, args[0])
    } else {
        args.len() > 1 && exists|k: int|
            #![trigger ts[k]]
            i < k < j && ts[k].kind is Comma && spells_args_sep(ts, i, k, args.drop_last()) && spells_arg(
                ts,
                k + 1,
                j,
                args.last(),
            )
    }
}

/// The tokens `ts[i..j]` spell an argument list: nothing, or the arguments
/// separated by commas, perhaps with a comma after the last.
pub open spec fn spells_arg_list(ts: Seq<Token>, i: int, j: int, args: Seq<NamedArg>) -> bool
    decreases j - i, 3nat,
{
    if args.len() == 0 {
        i == j
    } else {
        ||| spells_args_sep(ts, i, j, args)
        ||| (i < j - 1 && ts[j - 1].kind is Comma && spells_args_sep(ts, i, j - 1, args))
    }
}

/// The tokens `ts[i..j]` spell a field initialiser `name: value`, perhaps
/// followed by a comma.
pub open spec fn spells_field(ts: Seq<Token>, i: int, j: int, f: (String, Expr)) -> bool
    decreases j - i, 1nat,
{
    &&& 0 <= i
    &&& i + 2 < j < ts.len()
    &&& ts[i].kind == TokenKind::Ident(f.0)
    &&& ts[i + 1].kind is Colon
    &&& (spells_expr(ts, i + 2, j, f.1) || (ts[j - 1].kind is Comma && spells_expr(ts, i + 2, j - 1, f.1)))
}

/// The tokens `ts[i..j]` spell the field initialisers `fields`, one after
/// the other.
pub open spec fn spells_fields(ts: Seq<Token>, i: int, j: int, fields: Seq<(String, Expr)>) -> bool
    decreases j - i, 2nat,
{
    if fields.len() == 0 {
        i == j
    } else {
        exists|k: int|
            #![trigger ts[k]]
            i <= k < j && spells_fields(ts, i, k, fields.drop_last()) && spells_field(ts, k, j, fields.last())
    }
}

/// The tokens `ts[i..j]` spell the type expression `t`: `&T`, `&mut T`,
/// `Self`, a name, or a name with type arguments `Name<T, ...>`; each
/// carries the span of its first token.
pub open spec fn spells_type(ts: Seq<Token>, i: int, j: int, t: TypeExpr) -> bool
    decreases j - i, 0nat,
{
    &&& 0 <= i < j < ts.len()
    &&& match t {
        TypeExpr::Reference { mutable, inner, span } => {
            &&& ts[i].kind is Amp
            &&& span == ts[i].span
            &&& (mutable <==> ts[i + 1].kind is Mut)
            &&& (if mutable { i + 2 < j } else { i + 1 < j })
            &&& spells_type(ts, if mutable { i + 2 } else { i + 1 }, j, *inner)
        },
        TypeExpr::SelfType(span) => ts[i].kind is SelfType && span == ts[i].span && j == i + 1,
        TypeExpr::Named(n, span) => names(ts[i], n) && span == ts[i].span && j == i + 1 && !(ts[j].kind is Lt),
        TypeExpr::Generic { base, type_args, span } => {
            &&& names(ts[i], base)
            &&& span == ts[i].span
            &&& ts[i + 1].kind is Lt
            &&& ts[j - 1].kind is Gt
            &&& i + 2 < j - 1
            &&& spells_types_sep(ts, i + 2, j - 1, type_args@)
        },
        _ => false,
    }
}

/// The tokens `ts[i..j]` spell the types `tys`, separated by commas.
pub open spec fn spells_types_sep(ts: Seq<Token>, i: int, j: int, tys: Seq<TypeExpr>) -> bool
    decreases j - i, 1nat,
{
    if tys.len() == 1 {
        spells_type(ts, i, j, tys[0])
    } else {
        tys.len() > 1 && exists|k: int|
            #![trigger ts[k]]
            i < k < j && ts[k].kind is Comma && spells_types_sep(ts, i, k, tys.drop_last()) && spells_type(
                ts,
                k + 1,
                j,
                tys.last(),
            )
    }
}

/// One more type after a comma, spelled.
pub proof fn lemma_spells_types_push(ts: Seq<Token>, i: int, k: int, j: int, tys: Seq<TypeExpr>, t: TypeExpr)
    requires
        0 <= i < k < j,
        tys.len() > 0,
        ts[k].kind is Comma,
        spells_types_sep(ts, i, k, tys),
        spells_type(ts, k + 1, j, t),
    ensures
        spells_types_sep(ts, i, j, tys.push(t)),
{
    assert(tys.push(t).drop_last() =~= tys);
}

/// Every token of `ts[i..j]` is a comment.
pub open spec fn comments_only(ts: Seq<Token>, i: int, j: int) -> bool {
    forall|x: int| i <= x < j ==> (#[trigger] ts[x]).kind is Comment
}

/// Where a condition starts after an optional `label:` at `i`.
pub open spec fn label_end(ts: Seq<Token>, i: int) -> int {
    if ts[i].kind is Ident && ts[i + 1].kind is Colon {
        i + 2
    } else {
        i
    }
}

/// Where reading goes on after an optional `=>` at `i`.
pub open spec fn arrow_end(ts: Seq<Token>, i: int) -> int {
    if ts[i].kind is FatArrow {
        i + 1
    } else {
        i
    }
}

/// Where reading goes on after an optional `;` at `i`.
pub open spec fn semi_end(ts: Seq<Token>, i: int) -> int {
    if ts[i].kind is Semicolon {
        i + 1
    } else {
        i
    }
}

/// Where reading goes on after an optional `,` at `i`.
pub open spec fn comma_end(ts: Seq<Token>, i: int) -> int {
    if ts[i].kind is Comma {
        i + 1
    } else {
        i
    }
}

/// The word `else`: the keyword, or a name spelled `else`.
pub open spec fn is_else_word(k: TokenKind) -> bool {
    k is Else || (k is Ident && k->Ident_0@ == "else"@)
}

/// Positions of an `if` statement from `i` to `j`: the condition ends at
/// `a` (a `)`), the first block at `d`, the `else if` branches at `m`, the
/// final `else` at `e`, and an optional `;` follows.
pub open spec fn if_shape(ts: Seq<Token>, i: int, a: int, d: int, m: int, e: int, j: int) -> bool {
    &&& label_end(ts, i + 2) < a
    &&& arrow_end(ts, a + 1) < d
    &&& d <= m <= e <= j
    &&& ts[a].kind is RParen
    &&& j == semi_end(ts, e)
}

/// Positions of a `match` statement from `i` to `j`: the value ends at `a`
/// (a `)`), `{` follows after an optional `=>`, the arms end at `m`, then
/// comments, `}` just before `e`, and an optional `;`.
pub open spec fn match_shape(ts: Seq<Token>, i: int, a: int, m: int, e: int, j: int) -> bool {
    &&& label_end(ts, i + 2) < a
    &&& arrow_end(ts, a + 1) < m < e <= j
    &&& ts[a].kind is RParen
    &&& ts[arrow_end(ts, a + 1)].kind is LBrace
    &&& comments_only(ts, m, e - 1)
    &&& ts[e - 1].kind is RBrace
    &&& j == semi_end(ts, e)
}

/// A block from `i` to `j` whose statements end at `k`: comments follow up
/// to the closing `}`.
pub open spec fn block_split(ts: Seq<Token>, i: int, k: int, j: int) -> bool {
    i + 1 <= k <= j - 1 && comments_only(ts, k, j - 1)
}

/// The tokens `ts[i..j]` spell the statement `s`. A statement carries the
/// span of its first token. Conditions of `if`, `while` and `match` stand in
/// parentheses, each optionally after a `label:`; the `=>` before their
/// blocks and the `;` after them are optional.
pub open spec fn spells_stmt(ts: Seq<Token>, i: int, j: int, s: Stmt) -> bool
    decreases j - i, 0nat,
{
    &&& 0 <= i < j < ts.len()
    &&& match s {
        Stmt::Let { mutable, name, type_expr, initializer, error_handler, span } => {
            let n = if mutable { i + 2 } else { i + 1 };
            &&& ts[i].kind is Let
            &&& span == ts[i].span
            &&& (mutable <==> ts[i + 1].kind is Mut)
            &&& ts[n].kind == TokenKind::Ident(name)
            &&& ts[n + 1].kind is Colon
            &&& ts[j - 1].kind is Semicolon
            &&& exists|a: int, b: int|
                #![trigger ts[a], ts[b]]
                n + 2 < a && a + 1 < b && b < j && ts[a].kind is Eq && (ts[b].kind is Semicolon || ts[b].kind is FatArrow)
                    && spells_type(ts, n + 2, a, type_expr) && spells_expr(ts, a + 1, b, initializer) && match error_handler {
                    None => b == j - 1,
                    Some(h) => b < j - 1 && spells_handler(ts, b, j - 1, h),
                }
        },
        Stmt::Return { value, span } => {
            &&& ts[i].kind is Return
            &&& span == ts[i].span
            &&& ts[j - 1].kind is Semicolon
            &&& match value {
                None => j == i + 2,
                Some(v) => i + 1 < j - 1 && !(ts[i + 1].kind is Semicolon) && spells_expr(ts, i + 1, j - 1, v),
            }
        },
        Stmt::Guard { condition, else_block, span } => {
            &&& ts[i].kind is Guard
            &&& span == ts[i].span
            &&& ts[j - 1].kind is Semicolon
            &&& exists|a: int|
                #![trigger ts[a]]
                i + 1 < a && a + 1 < j - 1 && spells_expr(ts, i + 1, a, condition) && is_else_word(ts[a].kind)
                    && spells_block(ts, a + 1, j - 1, else_block@)
        },
        Stmt::If { condition, then_block, else_if_blocks, else_block, span } => {
            &&& ts[i].kind is If
            &&& span == ts[i].span
            &&& ts[i + 1].kind is LParen
            &&& exists|a: int, d: int, m: int, e: int|
                #![trigger if_shape(ts, i, a, d, m, e, j)]
                if_shape(ts, i, a, d, m, e, j) && spells_expr(ts, label_end(ts, i + 2), a, condition) && spells_block(
                    ts,
                    arrow_end(ts, a + 1),
                    d,
                    then_block@,
                ) && spells_elifs(ts, d, m, else_if_blocks@) && spells_else(ts, m, e, else_block)
        },
        Stmt::While { condition, body, span } => {
            &&& ts[i].kind is While
            &&& span == ts[i].span
            &&& ts[i + 1].kind is LParen
            &&& exists|a: int, e: int|
                #![trigger ts[a], semi_end(ts, e)]
                label_end(ts, i + 2) < a && arrow_end(ts, a + 1) < e <= j && spells_expr(
                    ts,
                    label_end(ts, i + 2),
                    a,
                    condition,
                ) && ts[a].kind is RParen && spells_block(ts, arrow_end(ts, a + 1), e, body@) && j == semi_end(ts, e)
        },
        Stmt::Match { value, arms, span } => {
            &&& ts[i].kind is Match
            &&& span == ts[i].span
            &&& ts[i + 1].kind is LParen
            &&& exists|a: int, m: int, e: int|
                #![trigger match_shape(ts, i, a, m, e, j)]
                match_shape(ts, i, a, m, e, j) && spells_expr(ts, label_end(ts, i + 2), a, value) && spells_arms(
                    ts,
                    arrow_end(ts, a + 1) + 1,
                    m,
                    arms@,
                )
        },
        Stmt::Break { span } => ts[i].kind is Break && span == ts[i].span && ts[i + 1].kind is Semicolon && j == i + 2,
        Stmt::Continue { span } => ts[i].kind is Continue && span == ts[i].span && ts[i + 1].kind is Semicolon && j == i
            + 2,
        Stmt::Assignment { target, value, span } => {
            &&& span == ts[i].span
            &&& ts[j - 1].kind is Semicolon
            &&& exists|a: int|
                #![trigger ts[a]]
                i < a && a + 1 < j - 1 && spells_expr(ts, i, a, target) && ts[a].kind is Eq && spells_expr(
                    ts,
                    a + 1,
                    j - 1,
                    value,
                )
        },
        Stmt::Expression { expr, span } => {
            &&& span == ts[i].span
            &&& ts[j - 1].kind is Semicolon
            &&& match expr {
                Expr::WithErrorHandler { expr: inner, handler, span: hs } => hs == ts[i].span && exists|a: int|
                    #![trigger ts[a]]
                    i < a < j - 1 && ts[a].kind is FatArrow && spells_expr(ts, i, a, *inner) && spells_handler(
                        ts,
                        a,
                        j - 1,
                        handler,
                    ),
                _ => spells_expr(ts, i, j - 1, expr),
            }
        },
    }
}

/// The tokens `ts[i..j]` spell an error handler `=> |param| { ... }`.
pub open spec fn spells_handler(ts: Seq<Token>, i: int, j: int, h: ErrorHandler) -> bool
    decreases j - i, 0nat,
{
    &&& 0 <= i
    &&& i + 4 < j < ts.len()
    &&& ts[i].kind is FatArrow
    &&& h.span == ts[i].span
    &&& ts[i + 1].kind is Pipe
    &&& ts[i + 2].kind == TokenKind::Ident(h.param)
    &&& ts[i + 3].kind is Pipe
    &&& spells_block(ts, i + 4, j, h.body@)
}

/// The tokens `ts[i..j]` spell a block `{ ... }` of the statements `b`,
/// with comments before any of them and before the `}`.
pub open spec fn spells_block(ts: Seq<Token>, i: int, j: int, b: Seq<Stmt>) -> bool
    decreases j - i, 0nat,
{
    &&& 0 <= i < j - 1
    &&& j < ts.len()
    &&& ts[i].kind is LBrace
    &&& ts[j - 1].kind is RBrace
    &&& exists|k: int|
        #![trigger block_split(ts, i, k, j)]
        block_split(ts, i, k, j) && spells_stmts(ts, i + 1, k, b)
}

/// The tokens `ts[i..j]` spell the statements `b`, each after comments.
pub open spec fn spells_stmts(ts: Seq<Token>, i: int, j: int, b: Seq<Stmt>) -> bool
    decreases j - i, 1nat,
{
    if b.len() == 0 {
        i == j
    } else {
        exists|k: int, m: int|
            #![trigger comments_only(ts, k, m)]
            i <= k <= m < j && comments_only(ts, k, m) && spells_stmts(ts, i, k, b.drop_last()) && spells_stmt(
                ts,
                m,
                j,
                b.last(),
            )
    }
}

/// The tokens `ts[i..j]` spell the `else if` branches `bs`.
pub open spec fn spells_elifs(ts: Seq<Token>, i: int, j: int, bs: Seq<(Expr, Vec<Stmt>)>) -> bool
    decreases j - i, 1nat,
{
    if bs.len() == 0 {
        i == j
    } else {
        exists|k: int|
            #![trigger ts[k]]
            i <= k < j && ts[k].kind is Else && spells_elifs(ts, i, k, bs.drop_last()) && spells_elif(ts, k, j, bs.last())
    }
}

/// The tokens `ts[i..j]` spell `else if (cond) => { ... }`.
pub open spec fn spells_elif(ts: Seq<Token>, i: int, j: int, br: (Expr, Vec<Stmt>)) -> bool
    decreases j - i, 0nat,
{
    &&& 0 <= i < j < ts.len()
    &&& ts[i].kind is Else
    &&& ts[i + 1].kind is If
    &&& ts[i + 2].kind is LParen
    &&& exists|a: int|
        #![trigger ts[a]]
        label_end(ts, i + 3) < a && arrow_end(ts, a + 1) < j && spells_expr(ts, label_end(ts, i + 3), a, br.0)
            && ts[a].kind is RParen && spells_block(ts, arrow_end(ts, a + 1), j, br.1@)
}

/// The tokens `ts[i..j]` spell the final `else => { ... }`, or nothing when
/// no `else` follows.
pub open spec fn spells_else(ts: Seq<Token>, i: int, j: int, b: Option<Vec<Stmt>>) -> bool
    decreases j - i, 0nat,
{
    &&& 0 <= i <= j < ts.len()
    &&& match b {
        None => i == j && !(ts[i].kind is Else),
        Some(blk) => ts[i].kind is Else && !(ts[i + 1].kind is If) && i < arrow_end(ts, i + 1) < j && spells_block(
            ts,
            arrow_end(ts, i + 1),
            j,
            blk@,
        ),
    }
}

/// The tokens `ts[i..j]` spell the match arms `arms`, each after comments.
pub open spec fn spells_arms(ts: Seq<Token>, i: int, j: int, arms: Seq<MatchArm>) -> bool
    decreases j - i, 1nat,
{
    if arms.len() == 0 {
        i == j
    } else {
        exists|k: int, m: int|
            #![trigger comments_only(ts, k, m)]
            i <= k <= m < j && comments_only(ts, k, m) && spells_arms(ts, i, k, arms.drop_last()) && spells_arm(
                ts,
                m,
                j,
                arms.last(),
            )
    }
}

/// The tokens `ts[i..j]` spell a match arm: `default` or `case(value)`,
/// an optional `=>`, a block, and an optional `,`.
pub open spec fn spells_arm(ts: Seq<Token>, i: int, j: int, arm: MatchArm) -> bool
    decreases j - i, 0nat,
{
    &&& 0 <= i < j < ts.len()
    &&& arm.span == ts[i].span
    &&& exists|p: int, c: int|
        #![trigger arrow_end(ts, p), comma_end(ts, c)]
        i < p && arrow_end(ts, p) < c && j == comma_end(ts, c) && spells_block(ts, arrow_end(ts, p), c, arm.body@)
            && match arm.pattern {
            MatchPattern::Default => ts[i].kind is Default && p == i + 1,
            MatchPattern::Literal(e) => ts[i].kind is Case && ts[i + 1].kind is LParen && i + 2 < p - 1 && ts[p
                - 1].kind is RParen && spells_expr(ts, i + 2, p - 1, e),
            MatchPattern::Variant { .. } => false,
        }
}

/// One more statement after comments, spelled.
pub proof fn lemma_spells_stmts_push(ts: Seq<Token>, i: int, k: int, m: int, j: int, b: Seq<Stmt>, st: Stmt)
    requires
        i <= k <= m < j,
        spells_stmts(ts, i, k, b),
        comments_only(ts, k, m),
        spells_stmt(ts, m, j, st),
    ensures
        spells_stmts(ts, i, j, b.push(st)),
{
    assert(b.push(st).drop_last() =~= b);
    assert(ts[k] == ts[k] && ts[m] == ts[m]);
}

/// Statements and comments between braces spell a block.
pub proof fn lemma_spells_block(ts: Seq<Token>, i: int, k: int, j: int, b: Seq<Stmt>)
    requires
        0 <= i,
        i + 1 <= k <= j - 1,
        j < ts.len(),
        ts[i].kind is LBrace,
        ts[j - 1].kind is RBrace,
        spells_stmts(ts, i + 1, k, b),
        comments_only(ts, k, j - 1),
    ensures
        spells_block(ts, i, j, b),
{
    assert(block_split(ts, i, k, j));
}

/// One more `else if` branch, spelled.
pub proof fn lemma_spells_elifs_push(ts: Seq<Token>, i: int, k: int, j: int, bs: Seq<(Expr, Vec<Stmt>)>, br: (Expr, Vec<Stmt>))
    requires
        i <= k < j,
        spells_elifs(ts, i, k, bs),
        spells_elif(ts, k, j, br),
    ensures
        spells_elifs(ts, i, j, bs.push(br)),
{
    assert(bs.push(br).drop_last() =~= bs);
    assert(ts[k] == ts[k]);
}

/// One more match arm after comments, spelled.
pub proof fn lemma_spells_arms_push(ts: Seq<Token>, i: int, k: int, m: int, j: int, arms: Seq<MatchArm>, arm: MatchArm)
    requires
        i <= k <= m < j,
        spells_arms(ts, i, k, arms),
        comments_only(ts, k, m),
        spells_arm(ts, m, j, arm),
    ensures
        spells_arms(ts, i, j, arms.push(arm)),
{
    assert(arms.push(arm).drop_last() =~= arms);
    assert(ts[k] == ts[k] && ts[m] == ts[m]);
}

/// Comments up to `k`, then comments up to `m`: comments up to `m`.
pub proof fn lemma_comments_join(ts: Seq<Token>, i: int, k: int, m: int)
    requires
        i <= k <= m,
        comments_only(ts, i, k),
        comments_only(ts, k, m),
    ensures
        comments_only(ts, i, m),
{
    assert forall|x: int| i <= x < m implies (#[trigger] ts[x]).kind is Comment by {
        if x >= k {
            assert(ts[x].kind is Comment);
        }
    }
}

/// The tokens `ts[i..j]` spell the expressions `es`, separated by commas.
pub open spec fn spells_exprs_sep(ts: Seq<Token>, i: int, j: int, es: Seq<Expr>) -> bool
    decreases j - i,
{
    if es.len() == 1 {
        spells_expr(ts, i, j, es[0])
    } else {
        es.len() > 1 && exists|k: int|
            #![trigger ts[k]]
            i < k < j && ts[k].kind is Comma && spells_exprs_sep(ts, i, k, es.drop_last()) && spells_expr(
                ts,
                k + 1,
                j,
                es.last(),
            )
    }
}

/// The tokens `ts[i..j]` spell an expression list: nothing, or the
/// expressions separated by commas, perhaps with a comma after the last.
pub open spec fn spells_exprs_list(ts: Seq<Token>, i: int, j: int, es: Seq<Expr>) -> bool {
    if es.len() == 0 {
        i == j
    } else {
        ||| spells_exprs_sep(ts, i, j, es)
        ||| (i < j - 1 && ts[j - 1].kind is Comma && spells_exprs_sep(ts, i, j - 1, es))
    }
}

/// The tokens `ts[i..j]` spell an annotation `@name` or `@name(args)`.
pub open spec fn spells_annotation(ts: Seq<Token>, i: int, j: int, a: Annotation) -> bool {
    &&& 0 <= i
    &&& i + 2 <= j < ts.len()
    &&& ts[i].kind is At
    &&& a.span == ts[i].span
    &&& ts[i + 1].kind == TokenKind::Ident(a.name)
    &&& {
        ||| (j == i + 2 && !(ts[i + 2].kind is LParen) && a.args@.len() == 0)
        ||| (ts[i + 2].kind is LParen && i + 3 < j && ts[j - 1].kind is RParen && spells_exprs_list(
            ts,
            i + 3,
            j - 1,
            a.args@,
        ))
    }
}

/// The tokens `ts[i..j]` spell the annotations `anns`, one after the other.
pub open spec fn spells_annotations(ts: Seq<Token>, i: int, j: int, anns: Seq<Annotation>) -> bool
    decreases anns.len(),
{
    if anns.len() == 0 {
        i == j
    } else {
        exists|k: int|
            #![trigger ts[k]]
            i <= k < j && ts[k].kind is At && spells_annotations(ts, i, k, anns.drop_last()) && spells_annotation(
                ts,
                k,
                j,
                anns.last(),
            )
    }
}

/// `ts[i..k]` spell the annotations `anns` (which are read and not kept).
pub open spec fn annotations_at(ts: Seq<Token>, i: int, k: int, anns: Seq<Annotation>) -> bool {
    spells_annotations(ts, i, k, anns)
}

/// The tokens `ts[i..j]` are identifiers spelling `ns`, separated by tokens
/// of the kind `sep`.
pub open spec fn spells_idents_sep(ts: Seq<Token>, i: int, j: int, ns: Seq<String>, sep: TokenKind) -> bool
    decreases ns.len(),
{
    if ns.len() == 1 {
        j == i + 1 && ts[i].kind == TokenKind::Ident(ns[0])
    } else {
        ns.len() > 1 && i + 1 <= j - 2 && ts[j - 1].kind == TokenKind::Ident(ns.last()) && ts[j - 2].kind == sep
            && spells_idents_sep(ts, i, j - 2, ns.drop_last(), sep)
    }
}

/// The tokens `ts[i..j]` name `ns` (identifiers or type keywords),
/// separated by tokens of the kind `sep`.
pub open spec fn spells_names_sep(ts: Seq<Token>, i: int, j: int, ns: Seq<String>, sep: TokenKind) -> bool
    decreases ns.len(),
{
    if ns.len() == 1 {
        j == i + 1 && names(ts[i], ns[0])
    } else {
        ns.len() > 1 && i + 1 <= j - 2 && names(ts[j - 1], ns.last()) && ts[j - 2].kind == sep && spells_names_sep(
            ts,
            i,
            j - 2,
            ns.drop_last(),
            sep,
        )
    }
}

/// The tokens `ts[i..j]` spell a trait list `:: A, B`, or nothing when no
/// `::` stands at `i`.
pub open spec fn spells_traits(ts: Seq<Token>, i: int, j: int, traits: Seq<String>) -> bool {
    if traits.len() == 0 {
        i == j && !(ts[i].kind is ColonColon)
    } else {
        ts[i].kind is ColonColon && spells_idents_sep(ts, i + 1, j, traits, TokenKind::Comma)
    }
}

/// The tokens `ts[i..j]` spell a field declaration `field name: Type;`.
pub open spec fn spells_field_decl(ts: Seq<Token>, i: int, j: int, f: FieldDecl) -> bool {
    &&& 0 <= i
    &&& i + 3 < j - 1
    &&& j < ts.len()
    &&& ts[i].kind is Field
    &&& f.span == ts[i].span
    &&& ts[i + 1].kind == TokenKind::Ident(f.name)
    &&& ts[i + 2].kind is Colon
    &&& ts[j - 1].kind is Semicolon
    &&& spells_type(ts, i + 3, j - 1, f.type_expr)
}

/// The tokens `ts[i..j]` spell a parameter `name: Type`, after annotations
/// that are read and not kept.
pub open spec fn spells_param(ts: Seq<Token>, i: int, j: int, p: Param) -> bool {
    exists|k: int, anns: Seq<Annotation>|
        #![trigger annotations_at(ts, i, k, anns)]
        i <= k && k + 2 < j && annotations_at(ts, i, k, anns) && names(ts[k], p.name) && p.span == ts[k].span
            && ts[k + 1].kind is Colon && spells_type(ts, k + 2, j, p.type_expr)
}

/// The tokens `ts[i..j]` spell the parameters `ps`, separated by commas.
pub open spec fn spells_params_sep(ts: Seq<Token>, i: int, j: int, ps: Seq<Param>) -> bool
    decreases ps.len(),
{
    if ps.len() == 1 {
        spells_param(ts, i, j, ps[0])
    } else {
        ps.len() > 1 && exists|k: int|
            #![trigger ts[k]]
            i < k < j && ts[k].kind is Comma && spells_params_sep(ts, i, k, ps.drop_last()) && spells_param(
                ts,
                k + 1,
                j,
                ps.last(),
            )
    }
}

/// The tokens `ts[i..j]` spell a parameter list: nothing, or the
/// parameters separated by commas, perhaps with a comma after the last.
pub open spec fn spells_params_list(ts: Seq<Token>, i: int, j: int, ps: Seq<Param>) -> bool {
    if ps.len() == 0 {
        i == j
    } else {
        ||| spells_params_sep(ts, i, j, ps)
        ||| (i < j - 1 && ts[j - 1].kind is Comma && spells_params_sep(ts, i, j - 1, ps))
    }
}

/// The tokens `ts[i..j]` spell a function `fn name(params) -> Type { ... }`
/// (its annotations come before `i`).
pub open spec fn spells_function(ts: Seq<Token>, i: int, j: int, f: FnDecl) -> bool {
    &&& 0 <= i < j < ts.len()
    &&& ts[i].kind is Fn
    &&& f.span == ts[i].span
    &&& ts[i + 1].kind == TokenKind::Ident(f.name)
    &&& ts[i + 2].kind is LParen
    &&& exists|a: int, b: int|
        #![trigger ts[a], ts[b]]
        i + 3 <= a && a + 2 < b && ts[a].kind is RParen && ts[a + 1].kind is Arrow && ts[b].kind is LBrace
            && spells_params_list(ts, i + 3, a, f.params@) && spells_type(ts, a + 2, b, f.return_type)
            && spells_block(ts, b, j, f.body@)
}

/// The tokens `ts[i..j]` spell a contract member: annotations, then a field
/// or a method that keeps them.
pub open spec fn spells_member(ts: Seq<Token>, i: int, j: int, mem: ContractMember) -> bool {
    match mem {
        ContractMember::Field(f) => exists|k: int|
            #![trigger ts[k]]
            i <= k < j && ts[k].kind is Field && spells_annotations(ts, i, k, f.annotations@) && spells_field_decl(
                ts,
                k,
                j,
                f,
            ),
        ContractMember::Method(fd) => exists|k: int|
            #![trigger ts[k]]
            i <= k < j && ts[k].kind is Fn && spells_annotations(ts, i, k, fd.annotations@) && spells_function(
                ts,
                k,
                j,
                fd,
            ),
    }
}

/// The tokens `ts[i..j]` spell the members `ms`, each after comments.
pub open spec fn spells_members(ts: Seq<Token>, i: int, j: int, ms: Seq<ContractMember>) -> bool
    decreases ms.len(),
{
    if ms.len() == 0 {
        i == j
    } else {
        exists|k: int, m: int|
            #![trigger comments_only(ts, k, m)]
            i <= k <= m < j && comments_only(ts, k, m) && spells_members(ts, i, k, ms.drop_last()) && spells_member(
                ts,
                m,
                j,
                ms.last(),
            )
    }
}

/// The tokens `ts[i..j]` spell a contract `contract Name [:: T, ...] { ... }`.
pub open spec fn spells_contract(ts: Seq<Token>, i: int, j: int, c: ContractDecl) -> bool {
    &&& 0 <= i < j < ts.len()
    &&& ts[i].kind is Contract
    &&& c.span == ts[i].span
    &&& ts[i + 1].kind == TokenKind::Ident(c.name)
    &&& ts[j - 1].kind is RBrace
    &&& exists|t: int, k: int|
        #![trigger ts[t], block_split(ts, t, k, j)]
        i + 2 <= t && ts[t].kind is LBrace && block_split(ts, t, k, j) && spells_traits(ts, i + 2, t, c.traits@)
            && spells_members(ts, t + 1, k, c.members@)
}

/// The tokens `ts[i..j]` spell the fields of a variant, each after comments.
pub open spec fn spells_vfields(ts: Seq<Token>, i: int, j: int, fs: Seq<FieldDecl>) -> bool
    decreases fs.len(),
{
    if fs.len() == 0 {
        i == j
    } else {
        exists|k: int, m: int|
            #![trigger comments_only(ts, k, m)]
            i <= k <= m < j && comments_only(ts, k, m) && spells_vfields(ts, i, k, fs.drop_last())
                && fs.last().annotations@.len() == 0 && spells_field_decl(ts, m, j, fs.last())
    }
}

/// The tokens `ts[i..j]` spell a variant `variant Name [{ field ... }] [,]`.
pub open spec fn spells_variant(ts: Seq<Token>, i: int, j: int, v: EnumVariant) -> bool {
    &&& 0 <= i < j < ts.len()
    &&& ts[i].kind is Variant
    &&& v.span == ts[i].span
    &&& ts[i + 1].kind == TokenKind::Ident(v.name)
    &&& exists|e: int|
        #![trigger comma_end(ts, e)]
        i + 2 <= e && j == comma_end(ts, e) && ({
            ||| (e == i + 2 && !(ts[i + 2].kind is LBrace) && v.fields@.len() == 0)
            ||| (ts[i + 2].kind is LBrace && ts[e - 1].kind is RBrace && exists|k: int|
                #![trigger block_split(ts, i + 2, k, e)]
                block_split(ts, i + 2, k, e) && spells_vfields(ts, i + 3, k, v.fields@))
        })
}

/// The tokens `ts[i..j]` spell the entries of an enumeration, each after
/// comments: variants (after annotations that are read and not kept) and
/// methods (which keep theirs), in the order of each list.
pub open spec fn spells_entries(ts: Seq<Token>, i: int, j: int, vs: Seq<EnumVariant>, ms: Seq<FnDecl>) -> bool
    decreases vs.len() + ms.len(),
{
    if vs.len() + ms.len() == 0 {
        i == j
    } else {
        exists|k: int, m: int|
            #![trigger comments_only(ts, k, m)]
            i <= k <= m < j && comments_only(ts, k, m) && ({
                ||| (vs.len() > 0 && spells_entries(ts, i, k, vs.drop_last(), ms) && exists|n: int, anns: Seq<Annotation>|
                    #![trigger annotations_at(ts, m, n, anns)]
                    m <= n < j && annotations_at(ts, m, n, anns) && spells_variant(ts, n, j, vs.last()))
                ||| (ms.len() > 0 && spells_entries(ts, i, k, vs, ms.drop_last()) && exists|n: int|
                    #![trigger ts[n]]
                    m <= n < j && ts[n].kind is Fn && spells_annotations(ts, m, n, ms.last().annotations@)
                        && spells_function(ts, n, j, ms.last()))
            })
    }
}

/// The tokens `ts[i..j]` spell an enumeration `enumeration Name [:: T, ...]
/// { ... }`.
pub open spec fn spells_enum(ts: Seq<Token>, i: int, j: int, e: EnumDecl) -> bool {
    &&& 0 <= i < j < ts.len()
    &&& ts[i].kind is Enumeration
    &&& e.span == ts[i].span
    &&& ts[i + 1].kind == TokenKind::Ident(e.name)
    &&& ts[j - 1].kind is RBrace
    &&& exists|t: int, k: int|
        #![trigger ts[t], block_split(ts, t, k, j)]
        i + 2 <= t && ts[t].kind is LBrace && block_split(ts, t, k, j) && spells_traits(ts, i + 2, t, e.traits@)
            && spells_entries(ts, t + 1, k, e.variants@, e.methods@)
}

/// The tokens `ts[i..j]` spell a declaration, after its annotations: a
/// function keeps them; those of a contract or an enumeration are read and
/// not kept.
pub open spec fn spells_decl(ts: Seq<Token>, i: int, j: int, d: Declaration) -> bool {
    match d {
        Declaration::Contract(c) => exists|k: int, anns: Seq<Annotation>|
            #![trigger annotations_at(ts, i, k, anns)]
            i <= k < j && annotations_at(ts, i, k, anns) && spells_contract(ts, k, j, c),
        Declaration::Function(f) => exists|k: int|
            #![trigger ts[k]]
            i <= k < j && ts[k].kind is Fn && spells_annotations(ts, i, k, f.annotations@) && spells_function(
                ts,
                k,
                j,
                f,
            ),
        Declaration::Enumeration(e) => exists|k: int, anns: Seq<Annotation>|
            #![trigger annotations_at(ts, i, k, anns)]
            i <= k < j && annotations_at(ts, i, k, anns) && spells_enum(ts, k, j, e),
    }
}

/// The tokens `ts[i..j]` spell a module directive `#![a::b(value)]`, the
/// value a string literal or a name.
pub open spec fn spells_directive(ts: Seq<Token>, i: int, j: int, d: ModuleDirective) -> bool {
    &&& 0 <= i
    &&& i + 7 <= j < ts.len()
    &&& ts[i].kind is HashBang
    &&& d.span == ts[i].span
    &&& ts[i + 1].kind is LBracket
    &&& spells_idents_sep(ts, i + 2, j - 4, d.path@, TokenKind::ColonColon)
    &&& ts[j - 4].kind is LParen
    &&& (ts[j - 3].kind == TokenKind::LitString(d.value) || ts[j - 3].kind == TokenKind::Ident(d.value))
    &&& ts[j - 2].kind is RParen
    &&& ts[j - 1].kind is RBracket
}

/// The tokens `ts[i..j]` spell `@require a::b::{ X, Y };` (a `::` before
/// `{` and a comma after the last import are allowed).
pub open spec fn spells_require(ts: Seq<Token>, i: int, j: int, r: RequireStatement) -> bool {
    &&& 0 <= i
    &&& j < ts.len()
    &&& ts[i].kind is At
    &&& r.span == ts[i].span
    &&& ts[i + 1].kind is Ident
    &&& ts[i + 1].kind->Ident_0@ == "require"@
    &&& ts[j - 1].kind is Semicolon
    &&& ts[j - 2].kind is RBrace
    &&& exists|a: int|
        #![trigger ts[a]]
        i + 3 <= a && a + 1 <= j - 2 && ts[a].kind is LBrace && ({
            ||| spells_names_sep(ts, i + 2, a, r.module_segments@, TokenKind::ColonColon)
            ||| (ts[a - 1].kind is ColonColon && spells_names_sep(ts, i + 2, a - 1, r.module_segments@, TokenKind::ColonColon))
        }) && ({
            ||| (r.imports@.len() == 0 && a + 1 == j - 2)
            ||| (r.imports@.len() > 0 && spells_names_sep(ts, a + 1, j - 2, r.imports@, TokenKind::Comma))
            ||| (r.imports@.len() > 0 && ts[j - 3].kind is Comma && spells_names_sep(ts, a + 1, j - 3, r.imports@, TokenKind::Comma))
        })
}

/// The tokens `ts[i..j]` spell the items of a program, each after comments:
/// module directives, require statements and declarations, in the order of
/// each list.
pub open spec fn spells_items(
    ts: Seq<Token>,
    i: int,
    j: int,
    dirs: Seq<ModuleDirective>,
    reqs: Seq<RequireStatement>,
    decls: Seq<Declaration>,
) -> bool
    decreases dirs.len() + reqs.len() + decls.len(),
{
    if dirs.len() + reqs.len() + decls.len() == 0 {
        i == j
    } else {
        exists|k: int, m: int|
            #![trigger comments_only(ts, k, m)]
            i <= k <= m < j && comments_only(ts, k, m) && ({
                ||| (dirs.len() > 0 && spells_items(ts, i, k, dirs.drop_last(), reqs, decls) && spells_directive(
                    ts,
                    m,
                    j,
                    dirs.last(),
                ))
                ||| (reqs.len() > 0 && spells_items(ts, i, k, dirs, reqs.drop_last(), decls) && spells_require(
                    ts,
                    m,
                    j,
                    reqs.last(),
                ))
                ||| (decls.len() > 0 && spells_items(ts, i, k, dirs, reqs, decls.drop_last()) && spells_decl(
                    ts,
                    m,
                    j,
                    decls.last(),
                ))
            })
    }
}

/// Comments only from `k` up to an `EOF` token at `e`.
pub open spec fn program_end(ts: Seq<Token>, k: int, e: int) -> bool {
    0 <= k <= e < ts.len() && ts[e].kind is EOF && comments_only(ts, k, e)
}

/// The tokens from `i` spell the program `p`: its items, then comments, then
/// `EOF`.
pub open spec fn spells_program(ts: Seq<Token>, i: int, p: Program) -> bool {
    exists|k: int, e: int|
        #![trigger program_end(ts, k, e)]
        i <= k && program_end(ts, k, e) && spells_items(
            ts,
            i,
            k,
            p.module_directives@,
            p.require_statements@,
            p.declarations@,
        )
}

/// One more expression after a comma, spelled.
pub proof fn lemma_spells_exprs_push(ts: Seq<Token>, i: int, k: int, j: int, es: Seq<Expr>, e: Expr)
    requires
        0 <= i < k < j,
        es.len() > 0,
        ts[k].kind is Comma,
        spells_exprs_sep(ts, i, k, es),
        spells_expr(ts, k + 1, j, e),
    ensures
        spells_exprs_sep(ts, i, j, es.push(e)),
{
    assert(es.push(e).drop_last() =~= es);
}

/// One more annotation, spelled.
pub proof fn lemma_spells_annotations_push(ts: Seq<Token>, i: int, k: int, j: int, anns: Seq<Annotation>, a: Annotation)
    requires
        i <= k < j,
        spells_annotations(ts, i, k, anns),
        spells_annotation(ts, k, j, a),
    ensures
        spells_annotations(ts, i, j, anns.push(a)),
{
    assert(anns.push(a).drop_last() =~= anns);
}

/// One more identifier after a separator, spelled.
pub proof fn lemma_spells_idents_push(ts: Seq<Token>, i: int, j: int, ns: Seq<String>, n: String, sep: TokenKind)
    requires
        ns.len() > 0,
        spells_idents_sep(ts, i, j, ns, sep),
        ts[j].kind == sep,
        ts[j + 1].kind == TokenKind::Ident(n),
    ensures
        spells_idents_sep(ts, i, j + 2, ns.push(n), sep),
{
    assert(ns.push(n).drop_last() =~= ns);
    lemma_idents_sep_start(ts, i, j, ns, sep);
}

/// A run of separated identifiers ends after its start.
pub proof fn lemma_idents_sep_start(ts: Seq<Token>, i: int, j: int, ns: Seq<String>, sep: TokenKind)
    requires
        ns.len() > 0,
        spells_idents_sep(ts, i, j, ns, sep),
    ensures
        i + 1 <= j,
    decreases ns.len(),
{
    if ns.len() > 1 {
        lemma_idents_sep_start(ts, i, j - 2, ns.drop_last(), sep);
    }
}

/// One more name after a separator, spelled.
pub proof fn lemma_spells_names_push(ts: Seq<Token>, i: int, j: int, ns: Seq<String>, n: String, sep: TokenKind)
    requires
        ns.len() > 0,
        spells_names_sep(ts, i, j, ns, sep),
        ts[j].kind == sep,
        names(ts[j + 1], n),
    ensures
        spells_names_sep(ts, i, j + 2, ns.push(n), sep),
{
    assert(ns.push(n).drop_last() =~= ns);
    lemma_names_sep_start(ts, i, j, ns, sep);
}

/// A run of separated names ends after its start.
pub proof fn lemma_names_sep_start(ts: Seq<Token>, i: int, j: int, ns: Seq<String>, sep: TokenKind)
    requires
        ns.len() > 0,
        spells_names_sep(ts, i, j, ns, sep),
    ensures
        i + 1 <= j,
    decreases ns.len(),
{
    if ns.len() > 1 {
        lemma_names_sep_start(ts, i, j - 2, ns.drop_last(), sep);
    }
}

/// One more parameter after a comma, spelled.
pub proof fn lemma_spells_params_push(ts: Seq<Token>, i: int, k: int, j: int, ps: Seq<Param>, p: Param)
    requires
        0 <= i < k < j,
        ps.len() > 0,
        ts[k].kind is Comma,
        spells_params_sep(ts, i, k, ps),
        spells_param(ts, k + 1, j, p),
    ensures
        spells_params_sep(ts, i, j, ps.push(p)),
{
    assert(ps.push(p).drop_last() =~= ps);
}

/// A parameter after annotations, spelled.
pub proof fn lemma_spells_param(ts: Seq<Token>, i: int, k: int, j: int, anns: Seq<Annotation>, p: Param)
    requires
        i <= k,
        k + 2 < j,
        spells_annotations(ts, i, k, anns),
        names(ts[k], p.name),
        p.span == ts[k].span,
        ts[k + 1].kind is Colon,
        spells_type(ts, k + 2, j, p.type_expr),
    ensures
        spells_param(ts, i, j, p),
{
    assert(annotations_at(ts, i, k, anns));
}

/// One more member after comments, spelled.
pub proof fn lemma_spells_members_push(ts: Seq<Token>, i: int, k: int, m: int, j: int, ms: Seq<ContractMember>, mem: ContractMember)
    requires
        i <= k <= m < j,
        spells_members(ts, i, k, ms),
        comments_only(ts, k, m),
        spells_member(ts, m, j, mem),
    ensures
        spells_members(ts, i, j, ms.push(mem)),
{
    assert(ms.push(mem).drop_last() =~= ms);
}

/// One more variant field after comments, spelled.
pub proof fn lemma_spells_vfields_push(ts: Seq<Token>, i: int, k: int, m: int, j: int, fs: Seq<FieldDecl>, f: FieldDecl)
    requires
        i <= k <= m < j,
        spells_vfields(ts, i, k, fs),
        comments_only(ts, k, m),
        f.annotations@.len() == 0,
        spells_field_decl(ts, m, j, f),
    ensures
        spells_vfields(ts, i, j, fs.push(f)),
{
    assert(fs.push(f).drop_last() =~= fs);
}

/// One more variant after comments and annotations, spelled.
pub proof fn lemma_spells_entries_variant(
    ts: Seq<Token>,
    i: int,
    k: int,
    m: int,
    n: int,
    j: int,
    vs: Seq<EnumVariant>,
    ms: Seq<FnDecl>,
    anns: Seq<Annotation>,
    v: EnumVariant,
)
    requires
        i <= k <= m <= n < j,
        spells_entries(ts, i, k, vs, ms),
        comments_only(ts, k, m),
        spells_annotations(ts, m, n, anns),
        spells_variant(ts, n, j, v),
    ensures
        spells_entries(ts, i, j, vs.push(v), ms),
{
    assert(vs.push(v).drop_last() =~= vs);
    assert(annotations_at(ts, m, n, anns));
}

/// One more method after comments and its annotations, spelled.
pub proof fn lemma_spells_entries_method(
    ts: Seq<Token>,
    i: int,
    k: int,
    m: int,
    n: int,
    j: int,
    vs: Seq<EnumVariant>,
    ms: Seq<FnDecl>,
    f: FnDecl,
)
    requires
        i <= k <= m <= n < j,
        spells_entries(ts, i, k, vs, ms),
        comments_only(ts, k, m),
        ts[n].kind is Fn,
        spells_annotations(ts, m, n, f.annotations@),
        spells_function(ts, n, j, f),
    ensures
        spells_entries(ts, i, j, vs, ms.push(f)),
{
    assert(ms.push(f).drop_last() =~= ms);
}

/// One more module directive after comments, spelled.
pub proof fn lemma_spells_items_directive(
    ts: Seq<Token>,
    i: int,
    k: int,
    m: int,
    j: int,
    dirs: Seq<ModuleDirective>,
    reqs: Seq<RequireStatement>,
    decls: Seq<Declaration>,
    d: ModuleDirective,
)
    requires
        i <= k <= m < j,
        spells_items(ts, i, k, dirs, reqs, decls),
        comments_only(ts, k, m),
        spells_directive(ts, m, j, d),
    ensures
        spells_items(ts, i, j, dirs.push(d), reqs, decls),
{
    assert(dirs.push(d).drop_last() =~= dirs);
}

/// One more require statement after comments, spelled.
pub proof fn lemma_spells_items_require(
    ts: Seq<Token>,
    i: int,
    k: int,
    m: int,
    j: int,
    dirs: Seq<ModuleDirective>,
    reqs: Seq<RequireStatement>,
    decls: Seq<Declaration>,
    r: RequireStatement,
)
    requires
        i <= k <= m < j,
        spells_items(ts, i, k, dirs, reqs, decls),
        comments_only(ts, k, m),
        spells_require(ts, m, j, r),
    ensures
        spells_items(ts, i, j, dirs, reqs.push(r), decls),
{
    assert(reqs.push(r).drop_last() =~= reqs);
}

/// One more declaration after comments, spelled.
pub proof fn lemma_spells_items_decl(
    ts: Seq<Token>,
    i: int,
    k: int,
    m: int,
    j: int,
    dirs: Seq<ModuleDirective>,
    reqs: Seq<RequireStatement>,
    decls: Seq<Declaration>,
    d: Declaration,
)
    requires
        i <= k <= m < j,
        spells_items(ts, i, k, dirs, reqs, decls),
        comments_only(ts, k, m),
        spells_decl(ts, m, j, d),
    ensures
        spells_items(ts, i, j, dirs, reqs, decls.push(d)),
{
    assert(decls.push(d).drop_last() =~= decls);
}

/// An operator between two spelled operands spells the binary expression.
pub proof fn lemma_spells_binary(ts: Seq<Token>, i: int, k: int, j: int, l: Expr, op: BinOp, r: Expr, span: Span)
    requires
        0 <= i < k,
        k + 1 < j < ts.len(),
        binary_op(ts[k].kind) == Some(op),
        ts[k].span == span,
        spells_expr(ts, i, k, l),
        spells_expr(ts, k + 1, j, r),
    ensures
        spells_expr(ts, i, j, Expr::Binary { left: Box::new(l), op, right: Box::new(r), span }),
{

}

/// `object::method(args)` or `object.method(args)`, spelled.
pub proof fn lemma_spells_method(
    ts: Seq<Token>,
    i: int,
    k: int,
    j: int,
    object: Expr,
    method: String,
    args: Vec<NamedArg>,
    span: Span,
)
    requires
        0 <= i < k,
        k + 3 <= j - 1,
        j < ts.len(),
        ts[k].kind is ColonColon || ts[k].kind is Dot,
        ts[k + 1].kind == TokenKind::Ident(method),
        ts[k + 2].kind is LParen,
        ts[j - 1].kind is RParen,
        span == ts[j].span,
        spells_expr(ts, i, k, object),
        spells_arg_list(ts, k + 3, j - 1, args@),
    ensures
        spells_expr(ts, i, j, Expr::MethodCall { object: Box::new(object), method, args, span }),
{
}

/// `callee(args)`, spelled.
pub proof fn lemma_spells_call(ts: Seq<Token>, i: int, k: int, j: int, callee: Expr, args: Vec<NamedArg>, span: Span)
    requires
        0 <= i < k,
        k < j - 1,
        j < ts.len(),
        ts[k].kind is LParen,
        ts[j - 1].kind is RParen,
        span == ts[j].span,
        spells_expr(ts, i, k, callee),
        spells_arg_list(ts, k + 1, j - 1, args@),
    ensures
        spells_expr(ts, i, j, Expr::FnCall { callee: Box::new(callee), args, span }),
{
}

/// `object.field`, spelled.
pub proof fn lemma_spells_field(ts: Seq<Token>, i: int, j: int, object: Expr, field: String, span: Span)
    requires
        0 <= i < j - 2,
        j < ts.len(),
        ts[j - 2].kind is Dot,
        ts[j - 1].kind == TokenKind::Ident(field),
        span == ts[j].span,
        spells_expr(ts, i, j - 2, object),
    ensures
        spells_expr(ts, i, j, Expr::FieldAccess { object: Box::new(object), field, span }),
{
}

/// `object::name` read as a path, spelled.
pub proof fn lemma_spells_path(ts: Seq<Token>, i: int, j: int, object: Expr, segments: Vec<String>, span: Span)
    requires
        0 <= i < j - 2,
        j < ts.len(),
        ts[j - 2].kind is ColonColon,
        ts[j - 1].kind is Ident,
        span == ts[j].span,
        spells_expr(ts, i, j - 2, object),
        texts(segments@) == path_of(object).push(ts[j - 1].kind->Ident_0@),
    ensures
        spells_expr(ts, i, j, Expr::PathExpr { segments, span }),
{
}

/// `object::Name { fields }`, spelled.
pub proof fn lemma_spells_struct(
    ts: Seq<Token>,
    i: int,
    k: int,
    j: int,
    object: Expr,
    type_path: Vec<String>,
    fields: Vec<(String, Expr)>,
    span: Span,
)
    requires
        0 <= i < k,
        k + 3 <= j - 1,
        j < ts.len(),
        ts[k].kind is ColonColon,
        ts[k + 1].kind is Ident,
        ts[k + 2].kind is LBrace,
        ts[j - 1].kind is RBrace,
        span == ts[j].span,
        texts(type_path@) == type_prefix(object).push(ts[k + 1].kind->Ident_0@),
        spells_expr(ts, i, k, object),
        spells_fields(ts, k + 3, j - 1, fields@),
    ensures
        spells_expr(ts, i, j, Expr::StructInit { type_path, fields, span }),
{
}

/// One more argument after a comma, spelled.
pub proof fn lemma_spells_args_push(ts: Seq<Token>, i: int, k: int, j: int, args: Seq<NamedArg>, a: NamedArg)
    requires
        0 <= i < k < j,
        args.len() > 0,
        ts[k].kind is Comma,
        spells_args_sep(ts, i, k, args),
        spells_arg(ts, k + 1, j, a),
    ensures
        spells_args_sep(ts, i, j, args.push(a)),
{
    assert(args.push(a).drop_last() =~= args);
}

/// One more field initialiser, spelled.
pub proof fn lemma_spells_fields_push(ts: Seq<Token>, i: int, k: int, j: int, fields: Seq<(String, Expr)>, f: (String, Expr))
    requires
        i <= k < j,
        spells_fields(ts, i, k, fields),
        spells_field(ts, k, j, f),
    ensures
        spells_fields(ts, i, j, fields.push(f)),
{
    assert(fields.push(f).drop_last() =~= fields);
}

/// Tokens that may start a top-level item (or be read past there).
pub open spec fn starts_item(k: TokenKind) -> bool {
    ||| k is HashBang
    ||| k is At
    ||| k is Contract
    ||| k is Fn
    ||| k is Enumeration
    ||| k is EOF
    ||| k is Comment
}

impl Parser {
    /// The tokens being read.
    pub closed spec fn toks(&self) -> Seq<Token> {
        self.tokens@
    }

    /// Index of the next token to read.
    pub closed spec fn pos(&self) -> int {
        self.current as int
    }

    /// There is a next token, and the tokens end with `EOF`.
    pub open spec fn wf(&self) -> bool {
        &&& self.toks().len() > 0
        &&& 0 <= self.pos() < self.toks().len()
        &&& self.toks().last().kind is EOF
    }

    /// Kind of the next token.
    pub open spec fn next_kind(&self) -> TokenKind {
        self.toks()[self.pos()].kind
    }

    /// Number of tokens not yet read.
    pub open spec fn remaining(&self) -> nat {
        (self.toks().len() - self.pos()) as nat
    }

    /// Still reading the same tokens, never backwards.
    pub open spec fn kept(&self, o: &Parser) -> bool {
        &&& self.wf()
        &&& self.toks() == o.toks()
        &&& self.pos() >= o.pos()
    }

    /// Kept, and at least one token read.
    pub open spec fn moved(&self, o: &Parser) -> bool {
        self.kept(o) && self.pos() > o.pos()
    }

    /// A parser at the first of `tokens`, which must end with `EOF`.
    pub fn new(tokens: Vec<Token>) -> (p: Self)
        requires
            tokens@.len() > 0,
            tokens@.last().kind is EOF,
        ensures
            p.wf(),
            p.toks() == tokens@,
            p.pos() == 0,
    {
        Parser { tokens, current: 0 }
    }

    /// The next token.
    fn peek(&self) -> (t: &Token)
        requires
            self.wf(),
        ensures
            *t == self.toks()[self.pos()],
    {
        &self.tokens[self.current]
    }

    fn is_at_end(&self) -> (b: bool)
        requires
            self.wf(),
        ensures
            b == (self.next_kind() is EOF),
    {
        matches!(self.tokens[self.current].kind, TokenKind::EOF)
    }

    /// Is the next token of the same kind as `kind`?
    fn check(&self, kind: &TokenKind) -> (b: bool)
        requires
            self.wf(),
        ensures
            b == (kind_tag(self.next_kind()) == kind_tag(*kind)),
            !carries_data(*kind) ==> (b == (self.next_kind() == *kind)),
    {
        self.tokens[self.current].kind.same_kind(kind)
    }

    fn current_span(&self) -> (s: Span)
        requires
            self.wf(),
        ensures
            s == self.toks()[self.pos()].span,
    {
        self.tokens[self.current].span
    }

    /// Moves past the next token; the final `EOF` is never passed.
    fn advance(&mut self)
        requires
            old(self).wf(),
        ensures
            final(self).kept(old(self)),
            !(old(self).next_kind() is EOF) ==> final(self).pos() == old(self).pos() + 1,
            final(self).pos() <= old(self).pos() + 1,
            final(self).pos() == if old(self).pos() + 1 < old(self).toks().len() { old(self).pos() + 1 } else { old(self).pos() },
    {
        if self.current < self.tokens.len() - 1 {
            self.current += 1;
        }
    }

    /// The token after the next one is the identifier `require`.
    pub open spec fn next_is_require_spec(&self) -> bool {
        self.pos() + 1 < self.toks().len() && self.toks()[self.pos() + 1].kind is Ident
            && self.toks()[self.pos() + 1].kind->Ident_0@ == "require"@
    }

    /// Whether the token after the next one is the identifier `require`.
    fn next_is_require(&self) -> (b: bool)
        requires
            self.wf(),
        ensures
            b == self.next_is_require_spec(),
    {
        if self.current < self.tokens.len() - 1 {
            if let TokenKind::Ident(s) = &self.tokens[self.current + 1].kind {
                return str_eq(s.as_str(), "require");
            }
        }
        false
    }

    /// The next token is an identifier followed by `:`.
    pub open spec fn named_arg_ahead(&self) -> bool {
        self.next_kind() is Ident && self.pos() + 1 < self.toks().len() && self.toks()[self.pos() + 1].kind is Colon
    }

    /// Is the next token an identifier followed by `:`?
    fn is_named_arg_ahead(&self) -> (b: bool)
        requires
            self.wf(),
        ensures
            b == self.named_arg_ahead(),
    {
        if let TokenKind::Ident(_) = &self.tokens[self.current].kind {
            if self.current < self.tokens.len() - 1 {
                return matches!(self.tokens[self.current + 1].kind, TokenKind::Colon);
            }
        }
        false
    }

    /// The error for a next token that is not what was expected.
    fn unexpected_here(&self, expected: String) -> (e: ParseError)
        requires
            self.wf(),
        ensures
            e == (ParseError::ExpectedToken {
                expected,
                found: self.toks()[self.pos()].lexeme,
                span: self.toks()[self.pos()].span,
            }),
    {
        let tok = self.peek();
        ParseError::ExpectedToken { expected, found: tok.lexeme.clone(), span: tok.span }
    }

    /// Reads a token of the kind of `kind`, or fails without reading.
    fn expect(&mut self, kind: TokenKind) -> (r: Result<(), ParseError>)
        requires
            old(self).wf(),
            !(kind is EOF),
        ensures
            r matches Err(e) ==> fails_at(old(self).toks(), old(self).pos(), final(self).pos(), e),
            final(self).kept(old(self)),
            r is Ok <==> kind_tag(old(self).next_kind()) == kind_tag(kind),
            r is Ok ==> final(self).pos() == old(self).pos() + 1,
            r is Err ==> final(self).pos() == old(self).pos(),
            r matches Err(e) ==> e == (ParseError::ExpectedToken {
                expected: e->expected,
                found: old(self).toks()[old(self).pos()].lexeme,
                span: old(self).toks()[old(self).pos()].span,
            }) && e->expected@ == kind_name(kind),
    {
        if self.check(&kind) {
            self.advance();
            Ok(())
        } else {
            let name = kind.name();
            Err(self.unexpected_here(name))
        }
    }

    /// Reads an identifier and gives its name.
    fn expect_identifier(&mut self) -> (r: Result<String, ParseError>)
        requires
            old(self).wf(),
        ensures
            r matches Err(e) ==> fails_at(old(self).toks(), old(self).pos(), final(self).pos(), e),
            final(self).kept(old(self)),
            match r {
                Ok(n) => old(self).next_kind() == TokenKind::Ident(n) && final(self).pos() == old(self).pos() + 1,
                Err(e) => {
                    &&& !(old(self).next_kind() is Ident)
                    &&& final(self).pos() == old(self).pos()
                    &&& e == (ParseError::ExpectedIdentifier {
                        found: old(self).toks()[old(self).pos()].lexeme,
                        span: old(self).toks()[old(self).pos()].span,
                    })
                },
            },
    {
        let tok = self.peek();
        match &tok.kind {
            TokenKind::Ident(name) => {
                let n = name.clone();
                self.advance();
                Ok(n)
            },
            _ => Err(ParseError::ExpectedIdentifier { found: tok.lexeme.clone(), span: tok.span }),
        }
    }

    /// Reads an identifier or a type keyword (`Int32`, `String`, ...) and
    /// gives its text.
    fn expect_any_identifier(&mut self) -> (r: Result<String, ParseError>)
        requires
            old(self).wf(),
        ensures
            r matches Err(e) ==> fails_at(old(self).toks(), old(self).pos(), final(self).pos(), e),
            final(self).kept(old(self)),
            match r {
                Ok(n) => {
                    &&& final(self).pos() == old(self).pos() + 1
                    &&& (old(self).next_kind() == TokenKind::Ident(n)
                        || (old(self).next_kind().spec_is_type_keyword()
                            && n@ == old(self).toks()[old(self).pos()].lexeme@))
                },
                Err(e) => {
                    &&& !(old(self).next_kind() is Ident)
                    &&& !old(self).next_kind().spec_is_type_keyword()
                    &&& final(self).pos() == old(self).pos()
                    &&& e == (ParseError::ExpectedIdentifier {
                        found: old(self).toks()[old(self).pos()].lexeme,
                        span: old(self).toks()[old(self).pos()].span,
                    })
                },
            },
    {
        let tok = self.peek();
        match &tok.kind {
            TokenKind::Ident(name) => {
                let n = name.clone();
                self.advance();
                Ok(n)
            },
            _ => {
                if tok.kind.is_type_keyword() {
                    let n = tok.lexeme.clone();
                    self.advance();
                    Ok(n)
                } else {
                    Err(ParseError::ExpectedIdentifier { found: tok.lexeme.clone(), span: tok.span })
                }
            },
        }
    }

    /// Reads the word `expected` (an identifier, or the keyword `else` when
    /// `expected` is "else").
    fn expect_ident_matching(&mut self, expected: &str) -> (r: Result<(), ParseError>)
        requires
            old(self).wf(),
        ensures
            r matches Err(e) ==> fails_at(old(self).toks(), old(self).pos(), final(self).pos(), e),
            final(self).kept(old(self)),
            r is Ok <==> ((old(self).next_kind() is Ident && old(self).next_kind()->Ident_0@ == expected@)
                || (old(self).next_kind() is Else && expected@ == "else"@)),
            r is Ok ==> final(self).pos() == old(self).pos() + 1,
            r is Err ==> final(self).pos() == old(self).pos(),
    {
        let tok = self.peek();
        let matched = match &tok.kind {
            TokenKind::Ident(name) => str_eq(name.as_str(), expected),
            TokenKind::Else => str_eq(expected, "else"),
            _ => false,
        };
        if matched {
            self.advance();
            Ok(())
        } else {
            Err(ParseError::ExpectedToken { expected: owned(expected), found: tok.lexeme.clone(), span: tok.span })
        }
    }

    /// Reads a string literal, if the next token is one.
    fn try_string_literal(&mut self) -> (r: Option<String>)
        requires
            old(self).wf(),
        ensures
            final(self).kept(old(self)),
            match r {
                Some(s) => old(self).next_kind() == TokenKind::LitString(s) && final(self).pos() == old(self).pos() + 1,
                None => !(old(self).next_kind() is LitString) && final(self).pos() == old(self).pos(),
            },
    {
        let tok = self.peek();
        if let TokenKind::LitString(s) = &tok.kind {
            let val = s.clone();
            self.advance();
            Some(val)
        } else {
            None
        }
    }

    /// Reads past comments.
    fn skip_comments(&mut self)
        requires
            old(self).wf(),
        ensures
            final(self).kept(old(self)),
            final(self).pos() == comments_end(old(self).toks(), old(self).pos()),
            !(final(self).next_kind() is Comment),
    {
        while matches!(self.tokens[self.current].kind, TokenKind::Comment(_))
            invariant
                self.kept(old(self)),
                comments_end(self.toks(), self.pos()) == comments_end(old(self).toks(), old(self).pos()),
            decreases self.remaining(),
        {
            self.advance();
        }
    }

    /// After an error: reads past the next `;`, or up to the next token that
    /// starts a declaration or statement, or up to `EOF`.
    fn synchronize(&mut self)
        requires
            old(self).wf(),
        ensures
            final(self).kept(old(self)),
            final(self).pos() == sync_end(old(self).toks(), old(self).pos()),
    {
        while !self.is_at_end()
            invariant
                self.kept(old(self)),
                sync_end(self.toks(), self.pos()) == sync_end(old(self).toks(), old(self).pos()),
            decreases self.remaining(),
        {
            match &self.tokens[self.current].kind {
                TokenKind::Semicolon => {
                    self.advance();
                    return;
                },
                TokenKind::Contract | TokenKind::Fn | TokenKind::Let | TokenKind::Return | TokenKind::If
                | TokenKind::Match | TokenKind::Guard | TokenKind::Enumeration => {
                    return;
                },
                _ => {
                    self.advance();
                },
            }
        }
    }

    // ── Expressions: one function per binding level ──

    fn parse_expression(&mut self) -> (r: Result<Expr, ParseError>)
        requires
            old(self).wf(),
        ensures
            r matches Err(e) ==> fails_at(old(self).toks(), old(self).pos(), final(self).pos(), e),
            final(self).kept(old(self)),
            r matches Ok(e) ==> final(self).moved(old(self)) && well_grouped(e),
            r matches Ok(e) ==> spells_expr(old(self).toks(), old(self).pos(), final(self).pos(), e),
            lone_operand(old(self).toks(), old(self).pos()) ==> (r matches Ok(e) && primary_from(
                old(self).toks()[old(self).pos()],
                e,
            ) && final(self).pos() == old(self).pos() + 1),
            starts_no_expr(old(self).next_kind()) ==> r == Err::<Expr, ParseError>(
                ParseError::ExpectedExpression { span: old(self).toks()[old(self).pos()].span },
            ),
            bin_end(old(self).toks(), old(self).pos(), 1) matches Some(e) ==> (r is Ok && final(self).pos() == e),
        decreases old(self).remaining(), 9nat,
    {
        self.parse_or_expr()
    }

    fn parse_or_expr(&mut self) -> (r: Result<Expr, ParseError>)
        requires
            old(self).wf(),
        ensures
            r matches Err(e) ==> fails_at(old(self).toks(), old(self).pos(), final(self).pos(), e),
            final(self).kept(old(self)),
            r matches Ok(e) ==> final(self).moved(old(self)) && grouped_by_binding(e, 1) && inner_grouped(e),
            r matches Ok(e) ==> spells_expr(old(self).toks(), old(self).pos(), final(self).pos(), e),
            lone_operand(old(self).toks(), old(self).pos()) ==> (r matches Ok(e) && primary_from(
                old(self).toks()[old(self).pos()],
                e,
            ) && final(self).pos() == old(self).pos() + 1),
            starts_no_expr(old(self).next_kind()) ==> r == Err::<Expr, ParseError>(
                ParseError::ExpectedExpression { span: old(self).toks()[old(self).pos()].span },
            ),
            bin_end(old(self).toks(), old(self).pos(), 1) matches Some(e) ==> (r is Ok && final(self).pos() == e),
        decreases old(self).remaining(), 8nat,
    {
        let mut left = self.parse_and_expr()?;
        let ghost e0 = left;
        while self.check(&TokenKind::PipePipe)
            invariant
                self.moved(old(self)),
                lone_operand(old(self).toks(), old(self).pos()) ==> self.pos() == old(self).pos() + 1 && left == e0,
                bin_end(old(self).toks(), old(self).pos(), 1) is Some ==> bin_rest(old(self).toks(), self.pos(), 1) == bin_end(old(self).toks(), old(self).pos(), 1),
                !starts_no_expr(old(self).next_kind()),
                grouped_by_binding(left, 1),
                inner_grouped(left),
                spells_expr(self.toks(), old(self).pos(), self.pos(), left),
            decreases self.remaining(),
        {
            let span = self.current_span();
            let ghost k = self.pos();
            let ghost l0 = left;
            self.advance();
            let right = self.parse_and_expr()?;
            proof {
                lemma_spells_binary(self.toks(), old(self).pos(), k, self.pos(), l0, BinOp::Or, right, span);
            }
            left = Expr::Binary { left: Box::new(left), op: BinOp::Or, right: Box::new(right), span };
        }
        Ok(left)
    }

    fn parse_and_expr(&mut self) -> (r: Result<Expr, ParseError>)
        requires
            old(self).wf(),
        ensures
            r matches Err(e) ==> fails_at(old(self).toks(), old(self).pos(), final(self).pos(), e),
            final(self).kept(old(self)),
            r matches Ok(e) ==> final(self).moved(old(self)) && grouped_by_binding(e, 2) && inner_grouped(e),
            r matches Ok(e) ==> spells_expr(old(self).toks(), old(self).pos(), final(self).pos(), e),
            lone_operand(old(self).toks(), old(self).pos()) ==> (r matches Ok(e) && primary_from(
                old(self).toks()[old(self).pos()],
                e,
            ) && final(self).pos() == old(self).pos() + 1),
            starts_no_expr(old(self).next_kind()) ==> r == Err::<Expr, ParseError>(
                ParseError::ExpectedExpression { span: old(self).toks()[old(self).pos()].span },
            ),
            bin_end(old(self).toks(), old(self).pos(), 2) matches Some(e) ==> (r is Ok && final(self).pos() == e),
        decreases old(self).remaining(), 7nat,
    {
        let mut left = self.parse_comparison_expr()?;
        let ghost e0 = left;
        while self.check(&TokenKind::AmpAmp)
            invariant
                self.moved(old(self)),
                lone_operand(old(self).toks(), old(self).pos()) ==> self.pos() == old(self).pos() + 1 && left == e0,
                bin_end(old(self).toks(), old(self).pos(), 2) is Some ==> bin_rest(old(self).toks(), self.pos(), 2) == bin_end(old(self).toks(), old(self).pos(), 2),
                !starts_no_expr(old(self).next_kind()),
                grouped_by_binding(left, 2),
                inner_grouped(left),
                spells_expr(self.toks(), old(self).pos(), self.pos(), left),
            decreases self.remaining(),
        {
            let span = self.current_span();
            let ghost k = self.pos();
            let ghost l0 = left;
            self.advance();
            let right = self.parse_comparison_expr()?;
            proof {
                lemma_spells_binary(self.toks(), old(self).pos(), k, self.pos(), l0, BinOp::And, right, span);
            }
            left = Expr::Binary { left: Box::new(left), op: BinOp::And, right: Box::new(right), span };
        }
        Ok(left)
    }

    /// The comparison operator of the next token, if any.
    fn comparison_op_here(&self) -> (r: Option<BinOp>)
        requires
            self.wf(),
        ensures
            r == comparison_op(self.next_kind()),
    {
        match &self.tokens[self.current].kind {
            TokenKind::EqEq => Some(BinOp::Eq),
            TokenKind::NotEq => Some(BinOp::NotEq),
            TokenKind::Lt => Some(BinOp::Lt),
            TokenKind::LtEq => Some(BinOp::LtEq),
            TokenKind::Gt => Some(BinOp::Gt),
            TokenKind::GtEq => Some(BinOp::GtEq),
            _ => None,
        }
    }

    fn parse_comparison_expr(&mut self) -> (r: Result<Expr, ParseError>)
        requires
            old(self).wf(),
        ensures
            r matches Err(e) ==> fails_at(old(self).toks(), old(self).pos(), final(self).pos(), e),
            final(self).kept(old(self)),
            r matches Ok(e) ==> final(self).moved(old(self)) && grouped_by_binding(e, 3) && inner_grouped(e),
            r matches Ok(e) ==> spells_expr(old(self).toks(), old(self).pos(), final(self).pos(), e),
            lone_operand(old(self).toks(), old(self).pos()) ==> (r matches Ok(e) && primary_from(
                old(self).toks()[old(self).pos()],
                e,
            ) && final(self).pos() == old(self).pos() + 1),
            starts_no_expr(old(self).next_kind()) ==> r == Err::<Expr, ParseError>(
                ParseError::ExpectedExpression { span: old(self).toks()[old(self).pos()].span },
            ),
            bin_end(old(self).toks(), old(self).pos(), 3) matches Some(e) ==> (r is Ok && final(self).pos() == e),
        decreases old(self).remaining(), 6nat,
    {
        let mut left = self.parse_additive_expr()?;
        let ghost e0 = left;
        loop
            invariant
                self.moved(old(self)),
                lone_operand(old(self).toks(), old(self).pos()) ==> self.pos() == old(self).pos() + 1 && left == e0,
                bin_end(old(self).toks(), old(self).pos(), 3) is Some ==> bin_rest(old(self).toks(), self.pos(), 3) == bin_end(old(self).toks(), old(self).pos(), 3),
                !starts_no_expr(old(self).next_kind()),
                grouped_by_binding(left, 3),
                inner_grouped(left),
                spells_expr(self.toks(), old(self).pos(), self.pos(), left),
            ensures
                comparison_op(self.next_kind()) is None,
            decreases self.remaining(),
        {
            let op = match self.comparison_op_here() {
                Some(op) => op,
                None => {
                    break;
                },
            };
            let span = self.current_span();
            let ghost k = self.pos();
            let ghost l0 = left;
            self.advance();
            let right = self.parse_additive_expr()?;
            proof {
                lemma_spells_binary(self.toks(), old(self).pos(), k, self.pos(), l0, op, right, span);
            }
            left = Expr::Binary { left: Box::new(left), op, right: Box::new(right), span };
        }
        Ok(left)
    }

    /// The additive operator of the next token, if any.
    fn additive_op_here(&self) -> (r: Option<BinOp>)
        requires
            self.wf(),
        ensures
            r == additive_op(self.next_kind()),
    {
        match &self.tokens[self.current].kind {
            TokenKind::Plus => Some(BinOp::Add),
            TokenKind::Minus => Some(BinOp::Sub),
            _ => None,
        }
    }

    fn parse_additive_expr(&mut self) -> (r: Result<Expr, ParseError>)
        requires
            old(self).wf(),
        ensures
            r matches Err(e) ==> fails_at(old(self).toks(), old(self).pos(), final(self).pos(), e),
            final(self).kept(old(self)),
            r matches Ok(e) ==> final(self).moved(old(self)) && grouped_by_binding(e, 4) && inner_grouped(e),
            r matches Ok(e) ==> spells_expr(old(self).toks(), old(self).pos(), final(self).pos(), e),
            lone_operand(old(self).toks(), old(self).pos()) ==> (r matches Ok(e) && primary_from(
                old(self).toks()[old(self).pos()],
                e,
            ) && final(self).pos() == old(self).pos() + 1),
            starts_no_expr(old(self).next_kind()) ==> r == Err::<Expr, ParseError>(
                ParseError::ExpectedExpression { span: old(self).toks()[old(self).pos()].span },
            ),
            bin_end(old(self).toks(), old(self).pos(), 4) matches Some(e) ==> (r is Ok && final(self).pos() == e),
        decreases old(self).remaining(), 5nat,
    {
        let mut left = self.parse_multiplicative_expr()?;
        let ghost e0 = left;
        loop
            invariant
                self.moved(old(self)),
                lone_operand(old(self).toks(), old(self).pos()) ==> self.pos() == old(self).pos() + 1 && left == e0,
                bin_end(old(self).toks(), old(self).pos(), 4) is Some ==> bin_rest(old(self).toks(), self.pos(), 4) == bin_end(old(self).toks(), old(self).pos(), 4),
                !starts_no_expr(old(self).next_kind()),
                grouped_by_binding(left, 4),
                inner_grouped(left),
                spells_expr(self.toks(), old(self).pos(), self.pos(), left),
            ensures
                additive_op(self.next_kind()) is None,
            decreases self.remaining(),
        {
            let op = match self.additive_op_here() {
                Some(op) => op,
                None => {
                    break;
                },
            };
            let span = self.current_span();
            let ghost k = self.pos();
            let ghost l0 = left;
            self.advance();
            let right = self.parse_multiplicative_expr()?;
            proof {
                lemma_spells_binary(self.toks(), old(self).pos(), k, self.pos(), l0, op, right, span);
            }
            left = Expr::Binary { left: Box::new(left), op, right: Box::new(right), span };
        }
        Ok(left)
    }

    /// The multiplicative operator of the next token, if any.
    fn multiplicative_op_here(&self) -> (r: Option<BinOp>)
        requires
            self.wf(),
        ensures
            r == multiplicative_op(self.next_kind()),
    {
        match &self.tokens[self.current].kind {
            TokenKind::Star => Some(BinOp::Mul),
            TokenKind::Slash => Some(BinOp::Div),
            TokenKind::Percent => Some(BinOp::Mod),
            _ => None,
        }
    }

    fn parse_multiplicative_expr(&mut self) -> (r: Result<Expr, ParseError>)
        requires
            old(self).wf(),
        ensures
            r matches Err(e) ==> fails_at(old(self).toks(), old(self).pos(), final(self).pos(), e),
            final(self).kept(old(self)),
            r matches Ok(e) ==> final(self).moved(old(self)) && grouped_by_binding(e, 5) && inner_grouped(e),
            r matches Ok(e) ==> spells_expr(old(self).toks(), old(self).pos(), final(self).pos(), e),
            lone_operand(old(self).toks(), old(self).pos()) ==> (r matches Ok(e) && primary_from(
                old(self).toks()[old(self).pos()],
                e,
            ) && final(self).pos() == old(self).pos() + 1),
            starts_no_expr(old(self).next_kind()) ==> r == Err::<Expr, ParseError>(
                ParseError::ExpectedExpression { span: old(self).toks()[old(self).pos()].span },
            ),
            bin_end(old(self).toks(), old(self).pos(), 5) matches Some(e) ==> (r is Ok && final(self).pos() == e),
        decreases old(self).remaining(), 4nat,
    {
        let mut left = self.parse_unary_expr()?;
        let ghost e0 = left;
        loop
            invariant
                self.moved(old(self)),
                lone_operand(old(self).toks(), old(self).pos()) ==> self.pos() == old(self).pos() + 1 && left == e0,
                bin_end(old(self).toks(), old(self).pos(), 5) is Some ==> bin_rest(old(self).toks(), self.pos(), 5) == bin_end(old(self).toks(), old(self).pos(), 5),
                !starts_no_expr(old(self).next_kind()),
                grouped_by_binding(left, 5),
                inner_grouped(left),
                spells_expr(self.toks(), old(self).pos(), self.pos(), left),
            ensures
                multiplicative_op(self.next_kind()) is None,
            decreases self.remaining(),
        {
            let op = match self.multiplicative_op_here() {
                Some(op) => op,
                None => {
                    break;
                },
            };
            let span = self.current_span();
            let ghost k = self.pos();
            let ghost l0 = left;
            self.advance();
            let right = self.parse_unary_expr()?;
            proof {
                lemma_spells_binary(self.toks(), old(self).pos(), k, self.pos(), l0, op, right, span);
            }
            assert(grouped_by_binding(right, 6));
            left = Expr::Binary { left: Box::new(left), op, right: Box::new(right), span };
        }
        Ok(left)
    }

    /// A prefix operator (`!`, `-`, `*`, `&`, `&mut`) applied to a unary
    /// expression, or a postfix expression.
    #[verifier::spinoff_prover]
    fn parse_unary_expr(&mut self) -> (r: Result<Expr, ParseError>)
        requires
            old(self).wf(),
        ensures
            r matches Err(e) ==> fails_at(old(self).toks(), old(self).pos(), final(self).pos(), e),
            final(self).kept(old(self)),
            r matches Ok(e) ==> {
                &&& final(self).moved(old(self))
                &&& !(e is Binary)
                &&& inner_grouped(e)
                &&& match prefix_op(old(self).next_kind(), old(self).toks()[old(self).pos() + 1].kind) {
                    Some(op) => e matches Expr::Unary { op: o, span, .. } && o == op
                        && span == old(self).toks()[old(self).pos()].span,
                    None => !(e is Unary),
                }
            },
            r matches Ok(e) ==> spells_expr(old(self).toks(), old(self).pos(), final(self).pos(), e),
            lone_operand(old(self).toks(), old(self).pos()) ==> (r matches Ok(e) && primary_from(
                old(self).toks()[old(self).pos()],
                e,
            ) && final(self).pos() == old(self).pos() + 1),
            starts_no_expr(old(self).next_kind()) ==> r == Err::<Expr, ParseError>(
                ParseError::ExpectedExpression { span: old(self).toks()[old(self).pos()].span },
            ),
            bin_end(old(self).toks(), old(self).pos(), 6) matches Some(e) ==> (r is Ok && final(self).pos() == e),
        decreases old(self).remaining(), 3nat,
    {
        let span = self.current_span();
        let op = match &self.tokens[self.current].kind {
            TokenKind::Bang => Some(UnaryOp::Not),
            TokenKind::Minus => Some(UnaryOp::Negate),
            TokenKind::Star => Some(UnaryOp::Deref),
            TokenKind::Amp => {
                assert(self.current + 1 < self.tokens.len());
                if self.tokens[self.current + 1].kind.same_kind(&TokenKind::Mut) {
                    Some(UnaryOp::RefMut)
                } else {
                    Some(UnaryOp::Ref)
                }
            },
            _ => None,
        };
        let ghost p = self.pos();
        let ghost ts = self.toks();
        proof {
            assert(bin_end(ts, p, 6) == plain_operand_end(ts, p));
        }
        match op {
            Some(op) => {
                self.advance();
                if op == UnaryOp::RefMut {
                    self.advance();
                }
                proof {
                    let p2 = self.pos();
                    assert(plain_operand_end(ts, p) == plain_operand_end(ts, p2));
                    assert(bin_end(ts, p2, 6) == plain_operand_end(ts, p2));
                }
                let operand = self.parse_unary_expr()?;
                proof {
                    assert(grouped_by_binding(operand, 1));
                    assert(well_grouped(operand));
                }
                Ok(Expr::Unary { op, operand: Box::new(operand), span })
            },
            None => {
                proof {
                    assert(prefix_op(ts[p].kind, ts[p + 1].kind) is None);
                    assert(plain_operand_end(ts, p) == postfix_end(ts, p));
                }
                self.parse_postfix_expr()
            },
        }
    }

    /// A primary expression followed by any number of `::member`,
    /// `::method(args)`, `::Name { field: value, ... }`, `.field`,
    /// `.method(args)` and `(args)` suffixes.
    #[verifier::spinoff_prover]
    #[verifier::rlimit(60)]
    fn parse_postfix_expr(&mut self) -> (r: Result<Expr, ParseError>)
        requires
            old(self).wf(),
        ensures
            r matches Err(e) ==> fails_at(old(self).toks(), old(self).pos(), final(self).pos(), e),
            final(self).kept(old(self)),
            r matches Ok(e) ==> final(self).moved(old(self)) && !(e is Binary) && !(e is Unary) && inner_grouped(e),
            r matches Ok(e) ==> spells_expr(old(self).toks(), old(self).pos(), final(self).pos(), e),
            lone_operand(old(self).toks(), old(self).pos()) ==> (r matches Ok(e) && primary_from(
                old(self).toks()[old(self).pos()],
                e,
            ) && final(self).pos() == old(self).pos() + 1),
            !starts_primary(old(self).next_kind()) ==> r == Err::<Expr, ParseError>(
                ParseError::ExpectedExpression { span: old(self).toks()[old(self).pos()].span },
            ),
            postfix_end(old(self).toks(), old(self).pos()) matches Some(e) ==> (r is Ok && final(self).pos() == e),
        decreases old(self).remaining(), 2nat,
    {
        let mut expr = self.parse_primary_expr()?;
        let ghost e0 = expr;
        loop
            invariant
                self.moved(old(self)),
                lone_operand(old(self).toks(), old(self).pos()) ==> self.pos() == old(self).pos() + 1 && expr == e0,
                postfix_end(old(self).toks(), old(self).pos()) is Some ==> suffixes_end(old(self).toks(), self.pos()) == postfix_end(old(self).toks(), old(self).pos()),
                primary_from(old(self).toks()[old(self).pos()], e0),
                !(expr is Binary),
                !(expr is Unary),
                inner_grouped(expr),
                spells_expr(self.toks(), old(self).pos(), self.pos(), expr),
            ensures
                !(self.next_kind() is ColonColon) && !(self.next_kind() is Dot) && !(self.next_kind() is LParen),
            decreases self.remaining(),
        {
            let ghost k = self.pos();
            let ghost o0 = expr;
            proof {
                assert(grouped_by_binding(expr, 1));
                assert(well_grouped(expr));
                lemma_args_end(self.toks(), k + 1);
                lemma_args_end(self.toks(), k + 3);
                lemma_inits_end(self.toks(), k + 3);
            }
            if self.check(&TokenKind::ColonColon) {
                self.advance();
                let member = self.expect_identifier()?;
                if self.check(&TokenKind::LParen) {
                    self.advance();
                    let args = self.parse_arg_list()?;
                    let ghost m = self.pos();
                    self.expect(TokenKind::RParen)?;
                    let span = self.current_span();
                    proof {
                        crate::token::lemma_same_tag_dataless(self.toks()[m].kind, TokenKind::RParen);
                        lemma_spells_method(self.toks(), old(self).pos(), k, self.pos(), o0, member, args, span);
                    }
                    expr = Expr::MethodCall { object: Box::new(expr), method: member, args, span };
                } else if self.check(&TokenKind::LBrace) {
                    let ghost m0 = member@;
                    let mut type_path: Vec<String> = match expr {
                        Expr::Identifier { name, .. } => vec![name],
                        Expr::PathExpr { segments, .. } => segments,
                        _ => Vec::new(),
                    };
                    proof {
                        assert(texts(type_path@) =~= type_prefix(o0));
                    }
                    let ghost tp0 = type_path@;
                    type_path.push(member);
                    proof {
                        assert(type_path@ == tp0.push(member));
                        assert(texts(type_path@) =~= type_prefix(o0).push(m0));
                    }
                    self.advance();
                    let fields = self.parse_field_inits()?;
                    let ghost m = self.pos();
                    self.expect(TokenKind::RBrace)?;
                    let span = self.current_span();
                    proof {
                        crate::token::lemma_same_tag_dataless(self.toks()[m].kind, TokenKind::RBrace);
                        lemma_spells_struct(self.toks(), old(self).pos(), k, self.pos(), o0, type_path, fields, span);
                    }
                    expr = Expr::StructInit { type_path, fields, span };
                } else {
                    let span = self.current_span();
                    let ghost m0 = member@;
                    let mut segments: Vec<String> = match expr {
                        Expr::Identifier { name, .. } => vec![name],
                        Expr::PathExpr { segments, .. } => segments,
                        other => vec![other.kind_name()],
                    };
                    proof {
                        assert(texts(segments@) =~= path_of(o0));
                    }
                    let ghost sg0 = segments@;
                    segments.push(member);
                    proof {
                        assert(segments@ == sg0.push(member));
                        assert(texts(segments@) =~= path_of(o0).push(m0));
                        lemma_spells_path(self.toks(), old(self).pos(), self.pos(), o0, segments, span);
                    }
                    expr = Expr::PathExpr { segments, span };
                }
            } else if self.check(&TokenKind::Dot) {
                self.advance();
                let field = self.expect_identifier()?;
                if self.check(&TokenKind::LParen) {
                    self.advance();
                    let args = self.parse_arg_list()?;
                    let ghost m = self.pos();
                    self.expect(TokenKind::RParen)?;
                    let span = self.current_span();
                    proof {
                        crate::token::lemma_same_tag_dataless(self.toks()[m].kind, TokenKind::RParen);
                        lemma_spells_method(self.toks(), old(self).pos(), k, self.pos(), o0, field, args, span);
                    }
                    expr = Expr::MethodCall { object: Box::new(expr), method: field, args, span };
                } else {
                    let span = self.current_span();
                    proof {
                        lemma_spells_field(self.toks(), old(self).pos(), self.pos(), o0, field, span);
                    }
                    expr = Expr::FieldAccess { object: Box::new(expr), field, span };
                }
            } else if self.check(&TokenKind::LParen) {
                self.advance();
                let args = self.parse_arg_list()?;
                let ghost m = self.pos();
                self.expect(TokenKind::RParen)?;
                let span = self.current_span();
                proof {
                    crate::token::lemma_same_tag_dataless(self.toks()[m].kind, TokenKind::RParen);
                    lemma_spells_call(self.toks(), old(self).pos(), k, self.pos(), o0, args, span);
                }
                expr = Expr::FnCall { callee: Box::new(expr), args, span };
            } else {
                break;
            }
        }
        Ok(expr)
    }

    /// `field: value` pairs up to the closing `}` (not read), each
    /// optionally followed by a comma.
    #[verifier::spinoff_prover]
    fn parse_field_inits(&mut self) -> (r: Result<Vec<(String, Expr)>, ParseError>)
        requires
            old(self).wf(),
        ensures
            r matches Err(e) ==> fails_at(old(self).toks(), old(self).pos(), final(self).pos(), e),
            final(self).kept(old(self)),
            r matches Ok(fs) ==> fields_grouped(fs@),
            r matches Ok(fs) ==> spells_fields(old(self).toks(), old(self).pos(), final(self).pos(), fs@),
            old(self).next_kind() is RBrace || old(self).next_kind() is EOF ==> (r matches Ok(fs) && fs@.len() == 0
                && final(self).pos() == old(self).pos()),
            !(old(self).next_kind() is RBrace) && !(old(self).next_kind() is EOF) && !(old(self).next_kind() is Ident) ==> r
                == Err::<Vec<(String, Expr)>, ParseError>(
                ParseError::ExpectedIdentifier {
                    found: old(self).toks()[old(self).pos()].lexeme,
                    span: old(self).toks()[old(self).pos()].span,
                },
            ),
            inits_end(old(self).toks(), old(self).pos()) matches Some(m) ==> (r is Ok && final(self).pos() == m),
        decreases old(self).remaining(), 12nat,
    {
        let mut fields: Vec<(String, Expr)> = Vec::new();
        while !self.check(&TokenKind::RBrace) && !self.is_at_end()
            invariant
                self.kept(old(self)),
                inits_end(old(self).toks(), old(self).pos()) is Some ==> inits_end(self.toks(), self.pos()) == inits_end(old(self).toks(), old(self).pos()),
                fields_grouped(fields@),
                fields@.len() == 0 ==> self.pos() == old(self).pos(),
                fields@.len() > 0 ==> old(self).next_kind() is Ident,
                spells_fields(self.toks(), old(self).pos(), self.pos(), fields@),
            decreases self.remaining(),
        {
            let ghost k = self.pos();
            proof {
                lemma_bin_end(self.toks(), k + 2, 1);
            }
            let fname = self.expect_identifier()?;
            self.expect(TokenKind::Colon)?;
            let fvalue = self.parse_expression()?;
            let ghost before = fields@;
            fields.push((fname, fvalue));
            proof {
                assert(fields@.drop_last() =~= before);
            }
            let ghost vend = self.pos();
            if self.check(&TokenKind::Comma) {
                self.advance();
            }
            proof {
                if inits_end(old(self).toks(), old(self).pos()) is Some {
                    assert(inits_end(self.toks(), k) == inits_end(self.toks(), self.pos()));
                }
            }
            proof {
                crate::token::lemma_same_tag_dataless(self.toks()[k + 1].kind, TokenKind::Colon);
                lemma_spells_fields_push(self.toks(), old(self).pos(), k, self.pos(), before, fields@.last());
            }
        }
        Ok(fields)
    }

    /// A literal, `self`, `Self`, a name (type keywords included), `_`, or
    /// a parenthesised expression. Any other token is read and refused.
    #[verifier::spinoff_prover]
    fn parse_primary_expr(&mut self) -> (r: Result<Expr, ParseError>)
        requires
            old(self).wf(),
        ensures
            r matches Err(e) ==> fails_at(old(self).toks(), old(self).pos(), final(self).pos(), e),
            final(self).kept(old(self)),
            r is Ok ==> starts_primary(old(self).next_kind()),
            r matches Ok(e) ==> inner_grouped(e),
            match r {
                Ok(e) => final(self).moved(old(self)) && primary_from(old(self).toks()[old(self).pos()], e),
                Err(err) => !starts_primary(old(self).next_kind()) ==> err == (ParseError::ExpectedExpression {
                    span: old(self).toks()[old(self).pos()].span,
                }),
            },
            !starts_primary(old(self).next_kind()) ==> r is Err,
            starts_primary(old(self).next_kind()) && !(old(self).next_kind() is LParen) ==> r is Ok
                && final(self).pos() == old(self).pos() + 1,
            r matches Ok(e) ==> spells_expr(old(self).toks(), old(self).pos(), final(self).pos(), e),
            old(self).next_kind() is LParen ==> (bin_end(old(self).toks(), old(self).pos() + 1, 1) matches Some(e) ==> (
            old(self).toks()[e].kind is RParen ==> r is Ok && final(self).pos() == e + 1)),
        decreases old(self).remaining(), 1nat,
    {
        let span = self.current_span();
        let tok = &self.tokens[self.current];
        let e = match &tok.kind {
            TokenKind::LitInteger { value, suffix } => {
                let s = match suffix {
                    Some(x) => Some(x.to_text()),
                    None => None,
                };
                Expr::IntLiteral { value: *value, suffix: s, span }
            },
            TokenKind::LitFloat { literal, suffix } => {
                let s = match suffix {
                    Some(x) => Some(x.to_text()),
                    None => None,
                };
                Expr::FloatLiteral { literal: literal.clone(), suffix: s, span }
            },
            TokenKind::LitString(v) => Expr::StringLiteral { value: v.clone(), span },
            TokenKind::LitChar(c) => Expr::CharLiteral { value: *c, span },
            TokenKind::SelfValue => Expr::SelfValue { span },
            TokenKind::SelfType => Expr::Identifier { name: owned("Self"), span },
            TokenKind::Ident(n) => Expr::Identifier { name: n.clone(), span },
            TokenKind::Underscore => Expr::Identifier { name: owned("_"), span },
            TokenKind::LParen => {
                self.advance();
                let inner = self.parse_expression()?;
                self.expect(TokenKind::RParen)?;
                return Ok(Expr::Grouped { inner: Box::new(inner), span });
            },
            _ => {
                if tok.kind.is_type_keyword() {
                    Expr::Identifier { name: tok.lexeme.clone(), span }
                } else {
                    self.advance();
                    return Err(ParseError::ExpectedExpression { span });
                }
            },
        };
        self.advance();
        Ok(e)
    }

    /// Arguments up to the closing `)` (not read); a trailing comma is
    /// allowed.
    #[verifier::spinoff_prover]
    fn parse_arg_list(&mut self) -> (r: Result<Vec<NamedArg>, ParseError>)
        requires
            old(self).wf(),
        ensures
            r matches Err(e) ==> fails_at(old(self).toks(), old(self).pos(), final(self).pos(), e),
            final(self).kept(old(self)),
            r is Ok && old(self).next_kind() is RParen ==> final(self).pos() == old(self).pos(),
            r matches Ok(args) ==> (args@.len() == 0 <==> final(self).pos() == old(self).pos()),
            r matches Ok(args) ==> args_grouped(args@),
            r matches Ok(args) ==> spells_arg_list(old(self).toks(), old(self).pos(), final(self).pos(), args@),
            old(self).next_kind() is RParen ==> (r matches Ok(args) && args@.len() == 0),
            starts_no_expr(old(self).next_kind()) && !(old(self).next_kind() is RParen) ==> r == Err::<Vec<NamedArg>, ParseError>(
                ParseError::ExpectedExpression { span: old(self).toks()[old(self).pos()].span },
            ),
            lone_operand(old(self).toks(), old(self).pos()) && old(self).toks()[old(self).pos() + 1].kind is RParen ==> (r matches Ok(args)
                && args@.len() == 1 && args@[0].name is None && primary_from(old(self).toks()[old(self).pos()], args@[0].value)
                && final(self).pos() == old(self).pos() + 1),
            args_end(old(self).toks(), old(self).pos()) matches Some(e) ==> (r is Ok && final(self).pos() == e),
        decreases old(self).remaining(), 11nat,
    {
        let mut args: Vec<NamedArg> = Vec::new();
        if self.check(&TokenKind::RParen) {
            return Ok(args);
        }
        let first = self.parse_single_arg()?;
        args.push(first);
        proof {
            assert(args@.drop_last() =~= Seq::<NamedArg>::empty());
            assert(args_grouped(Seq::<NamedArg>::empty()));
            assert(args@[0] == first);
        }
        let ghost mut sep_end = self.pos();
        while self.check(&TokenKind::Comma)
            invariant
                self.moved(old(self)),
                args@.len() > 0,
                args_grouped(args@),
                old(self).pos() < sep_end < self.toks().len(),
                lone_operand(old(self).toks(), old(self).pos()) && old(self).toks()[old(self).pos() + 1].kind is RParen ==> self.pos() == old(self).pos() + 1
                    && args@.len() == 1 && args@[0].name is None && primary_from(old(self).toks()[old(self).pos()], args@[0].value),
                !(old(self).next_kind() is RParen),
                !starts_no_expr(old(self).next_kind()),
                args_end(old(self).toks(), old(self).pos()) is Some ==> after_arg(old(self).toks(), self.pos()) == args_end(old(self).toks(), old(self).pos()),
                spells_args_sep(self.toks(), old(self).pos(), sep_end, args@),
                self.pos() == sep_end || (self.pos() == sep_end + 1 && self.toks()[sep_end].kind is Comma
                    && self.next_kind() is RParen),
            ensures
                !(self.next_kind() is Comma),
            decreases self.remaining(),
        {
            let ghost k = self.pos();
            self.advance();
            if self.check(&TokenKind::RParen) {
                break;
            }
            let a = self.parse_single_arg()?;
            let ghost before = args@;
            args.push(a);
            proof {
                assert(args@.drop_last() =~= before);
                lemma_spells_args_push(self.toks(), old(self).pos(), k, self.pos(), before, a);
                sep_end = self.pos();
            }
        }
        Ok(args)
    }

    /// One argument, `name: value` or just `value`.
    #[verifier::spinoff_prover]
    fn parse_single_arg(&mut self) -> (r: Result<NamedArg, ParseError>)
        requires
            old(self).wf(),
        ensures
            r matches Err(e) ==> fails_at(old(self).toks(), old(self).pos(), final(self).pos(), e),
            final(self).kept(old(self)),
            r matches Ok(a) ==> {
                &&& final(self).moved(old(self))
                &&& a.span == old(self).toks()[old(self).pos()].span
                &&& (a.name is Some <==> old(self).named_arg_ahead())
                &&& (a.name matches Some(n) ==> old(self).next_kind() == TokenKind::Ident(n))
                &&& well_grouped(a.value)
            },
            r matches Ok(a) ==> spells_arg(old(self).toks(), old(self).pos(), final(self).pos(), a),
            !old(self).named_arg_ahead() && lone_operand(old(self).toks(), old(self).pos()) ==> (r matches Ok(a) && a.name is None
                && primary_from(old(self).toks()[old(self).pos()], a.value) && final(self).pos() == old(self).pos() + 1),
            starts_no_expr(old(self).next_kind()) ==> r == Err::<NamedArg, ParseError>(
                ParseError::ExpectedExpression { span: old(self).toks()[old(self).pos()].span },
            ),
            old(self).named_arg_ahead() && lone_operand(old(self).toks(), old(self).pos() + 2) ==> (r matches Ok(a) && a.name
                is Some && primary_from(old(self).toks()[old(self).pos() + 2], a.value) && final(self).pos() == old(self).pos()
                + 3),
            old(self).named_arg_ahead() && starts_no_expr(old(self).toks()[old(self).pos() + 2].kind) ==> r == Err::<NamedArg, ParseError>(
                ParseError::ExpectedExpression { span: old(self).toks()[old(self).pos() + 2].span },
            ),
            plain_arg(old(self).toks(), old(self).pos()) ==> (r is Ok && final(self).pos() == plain_arg_end(old(self).toks(), old(self).pos())),
        decreases old(self).remaining(), 10nat,
    {
        let span = self.current_span();
        if self.is_named_arg_ahead() {
            let name = self.expect_identifier()?;
            self.expect(TokenKind::Colon)?;
            let value = self.parse_expression()?;
            Ok(NamedArg { name: Some(name), value, span })
        } else {
            let value = self.parse_expression()?;
            Ok(NamedArg { name: None, value, span })
        }
    }

    // ── Types ──

    /// `&T`, `&mut T`, `Self`, a name, or a name with type arguments
    /// `Name<T, ...>`.
    #[verifier::spinoff_prover]
    fn parse_type_expr(&mut self) -> (r: Result<TypeExpr, ParseError>)
        requires
            old(self).wf(),
        ensures
            r matches Err(e) ==> fails_at(old(self).toks(), old(self).pos(), final(self).pos(), e),
            final(self).kept(old(self)),
            r matches Ok(t) ==> final(self).moved(old(self)) && type_from(old(self).toks(), old(self).pos(), t),
            r matches Ok(t) ==> spells_type(old(self).toks(), old(self).pos(), final(self).pos(), t),
            simple_type_at(old(self).toks(), old(self).pos()) ==> (r matches Ok(TypeExpr::Named(n, span)) && names(
                old(self).toks()[old(self).pos()],
                n,
            ) && span == old(self).toks()[old(self).pos()].span && final(self).pos() == old(self).pos() + 1),
            !(old(self).next_kind() is Amp) && !(old(self).next_kind() is SelfType) && !(old(self).next_kind() is Ident)
                && !old(self).next_kind().spec_is_type_keyword() ==> r == Err::<TypeExpr, ParseError>(
                ParseError::ExpectedIdentifier {
                    found: old(self).toks()[old(self).pos()].lexeme,
                    span: old(self).toks()[old(self).pos()].span,
                },
            ),
            plain_type_end(old(self).toks(), old(self).pos()) matches Some(e) ==> (r is Ok && final(self).pos() == e),
        decreases old(self).remaining(),
    {
        if self.check(&TokenKind::Amp) {
            let span = self.current_span();
            self.advance();
            let mutable = if self.check(&TokenKind::Mut) {
                self.advance();
                true
            } else {
                false
            };
            let inner = self.parse_type_expr()?;
            return Ok(TypeExpr::Reference { mutable, inner: Box::new(inner), span });
        }
        if self.check(&TokenKind::SelfType) {
            let span = self.current_span();
            self.advance();
            return Ok(TypeExpr::SelfType(span));
        }
        let span = self.current_span();
        let name = self.expect_any_identifier()?;
        if self.check(&TokenKind::Lt) {
            self.advance();
            let mut type_args: Vec<TypeExpr> = Vec::new();
            let ghost args_start = self.pos();
            let first = self.parse_type_expr()?;
            type_args.push(first);
            proof {
                assert(type_args@[0] == first);
            }
            while self.check(&TokenKind::Comma)
                invariant
                    self.moved(old(self)),
                    type_args@.len() > 0,
                    old(self).pos() + 2 == args_start < self.pos(),
                    !simple_type_at(old(self).toks(), old(self).pos()),
                    old(self).next_kind() is Ident || old(self).next_kind().spec_is_type_keyword(),
                    spells_types_sep(self.toks(), args_start, self.pos(), type_args@),
                    plain_type_end(old(self).toks(), old(self).pos()) is Some ==> types_rest(old(self).toks(), self.pos()) == plain_types_end(old(self).toks(), old(self).pos() + 2),
                    plain_type_end(old(self).toks(), old(self).pos()) is Some ==> plain_types_end(old(self).toks(), old(self).pos() + 2) is Some,
                decreases self.remaining(),
            {
                let ghost k = self.pos();
                self.advance();
                let t = self.parse_type_expr()?;
                let ghost before = type_args@;
                type_args.push(t);
                proof {
                    lemma_spells_types_push(self.toks(), args_start, k, self.pos(), before, t);
                }
            }
            let ghost m = self.pos();
            self.expect(TokenKind::Gt)?;
            proof {
                crate::token::lemma_same_tag_dataless(self.toks()[m].kind, TokenKind::Gt);
            }
            return Ok(TypeExpr::Generic { base: name, type_args, span });
        }
        Ok(TypeExpr::Named(name, span))
    }

    // ── Blocks and statements ──

    /// `{ statement ... }`
    #[verifier::spinoff_prover]
    #[verifier::rlimit(60)]
    fn parse_block(&mut self) -> (r: Result<Vec<Stmt>, ParseError>)
        requires
            old(self).wf(),
        ensures
            r matches Err(e) ==> fails_at(old(self).toks(), old(self).pos(), final(self).pos(), e),
            final(self).kept(old(self)),
            r is Ok ==> {
                &&& final(self).moved(old(self))
                &&& old(self).next_kind() is LBrace
                &&& final(self).toks()[final(self).pos() - 1].kind is RBrace
            },
            r matches Ok(b) ==> block_grouped(b@),
            r matches Ok(b) ==> spells_block(old(self).toks(), old(self).pos(), final(self).pos(), b@),
            !(old(self).next_kind() is LBrace) ==> unexpected_at(r, old(self).toks(), old(self).pos()),
            old(self).next_kind() is LBrace && old(self).toks()[old(self).pos() + 1].kind is RBrace ==> (r matches Ok(b)
                && b@.len() == 0 && final(self).pos() == old(self).pos() + 2),
            plain_block_end(old(self).toks(), old(self).pos()) matches Some(e) ==> (r is Ok && final(self).pos() == e),
        decreases old(self).remaining(), 30nat,
    {
        self.expect(TokenKind::LBrace)?;
        let mut stmts: Vec<Stmt> = Vec::new();
        let ghost mut stmts_end = self.pos();
        proof {
            crate::token::lemma_same_tag_dataless(old(self).next_kind(), TokenKind::LBrace);
        }
        while !self.check(&TokenKind::RBrace) && !self.is_at_end()
            invariant
                self.moved(old(self)),
                old(self).next_kind() is LBrace,
                block_grouped(stmts@),
                old(self).pos() + 1 <= stmts_end <= self.pos(),
                spells_stmts(self.toks(), old(self).pos() + 1, stmts_end, stmts@),
                old(self).toks()[old(self).pos() + 1].kind is RBrace ==> self.pos() == old(self).pos() + 1 && stmts@.len() == 0,
                comments_only(self.toks(), stmts_end, self.pos()),
                plain_block_end(old(self).toks(), old(self).pos()) is Some ==> plain_stmts_end(old(self).toks(), self.pos()) == plain_stmts_end(old(self).toks(), old(self).pos() + 1),
                plain_block_end(old(self).toks(), old(self).pos()) is Some ==> plain_stmts_end(old(self).toks(), old(self).pos() + 1) is Some,
            ensures
                self.next_kind() is RBrace || self.next_kind() is EOF,
            decreases self.remaining(),
        {
            let ghost p0 = self.pos();
            self.skip_comments();
            proof {
                let ce = self.pos();
                assert(comments_end(self.toks(), ce) == ce);
                if plain_block_end(old(self).toks(), old(self).pos()) is Some {
                    assert(plain_stmts_end(old(self).toks(), p0) == plain_stmts_end(old(self).toks(), ce));
                }
            }
            proof {
                lemma_comments_end(self.toks(), p0);
                lemma_comments_join(self.toks(), stmts_end, p0, self.pos());
            }
            if self.check(&TokenKind::RBrace) {
                break;
            }
            let ghost p1 = self.pos();
            let st = self.parse_statement()?;
            let ghost before = stmts@;
            stmts.push(st);
            proof {
                assert(stmts@.drop_last() =~= before);
                lemma_comments_end(self.toks(), p1);
                lemma_comments_join(self.toks(), stmts_end, p1, comments_end(self.toks(), p1));
                lemma_spells_stmts_push(
                    self.toks(),
                    old(self).pos() + 1,
                    stmts_end,
                    comments_end(self.toks(), p1),
                    self.pos(),
                    before,
                    st,
                );
                stmts_end = self.pos();
            }
        }
        proof {
            lemma_bin_end(self.toks(), self.pos(), 1);
            assert(comments_end(self.toks(), self.pos()) == self.pos());
            if self.next_kind() is EOF {
                assert(plain_stmt_end(self.toks(), self.pos()) is None);
            }
        }
        let ghost before = self.pos();
        self.expect(TokenKind::RBrace)?;
        assert(self.toks()[self.pos() - 1] == self.toks()[before]);
        proof {
            crate::token::lemma_same_tag_dataless(self.toks()[before].kind, TokenKind::RBrace);
            lemma_spells_block(self.toks(), old(self).pos(), stmts_end, self.pos(), stmts@);
        }
        Ok(stmts)
    }

    /// One statement, after any comments; its first token decides its kind.
    #[verifier::spinoff_prover]
    fn parse_statement(&mut self) -> (r: Result<Stmt, ParseError>)
        requires
            old(self).wf(),
        ensures
            r matches Err(e) ==> fails_at(old(self).toks(), old(self).pos(), final(self).pos(), e),
            final(self).kept(old(self)),
            r matches Ok(st) ==> final(self).moved(old(self)) && statement_from(
                old(self).toks()[comments_end(old(self).toks(), old(self).pos())].kind,
                st,
            ),
            r matches Ok(st) ==> stmt_grouped(st),
            r matches Ok(st) ==> spells_stmt(
                old(self).toks(),
                comments_end(old(self).toks(), old(self).pos()),
                final(self).pos(),
                st,
            ),
            old(self).toks()[comments_end(old(self).toks(), old(self).pos())].kind is Break && old(self).toks()[comments_end(old(self).toks(), old(self).pos()) + 1].kind is Semicolon ==> r == Ok::<Stmt, ParseError>(
                Stmt::Break { span: old(self).toks()[comments_end(old(self).toks(), old(self).pos())].span },
            ) && final(self).pos() == comments_end(old(self).toks(), old(self).pos()) + 2,
            old(self).toks()[comments_end(old(self).toks(), old(self).pos())].kind is Continue && old(self).toks()[comments_end(old(self).toks(), old(self).pos()) + 1].kind is Semicolon ==> r == Ok::<Stmt, ParseError>(
                Stmt::Continue { span: old(self).toks()[comments_end(old(self).toks(), old(self).pos())].span },
            ) && final(self).pos() == comments_end(old(self).toks(), old(self).pos()) + 2,
            old(self).toks()[comments_end(old(self).toks(), old(self).pos())].kind is Return && old(self).toks()[comments_end(old(self).toks(), old(self).pos()) + 1].kind is Semicolon ==> r == Ok::<Stmt, ParseError>(
                Stmt::Return { value: None, span: old(self).toks()[comments_end(old(self).toks(), old(self).pos())].span },
            ) && final(self).pos() == comments_end(old(self).toks(), old(self).pos()) + 2,
            lone_operand(old(self).toks(), comments_end(old(self).toks(), old(self).pos())) && old(self).toks()[comments_end(old(self).toks(), old(self).pos()) + 1].kind is Semicolon ==> (r matches Ok(Stmt::Expression { expr, span })
                && primary_from(old(self).toks()[comments_end(old(self).toks(), old(self).pos())], expr) && span == old(self).toks()[comments_end(old(self).toks(), old(self).pos())].span && final(self).pos() == comments_end(old(self).toks(), old(self).pos()) + 2),
            starts_no_expr(old(self).toks()[comments_end(old(self).toks(), old(self).pos())].kind) && !(old(self).toks()[comments_end(old(self).toks(), old(self).pos())].kind is Let) && !(old(self).toks()[comments_end(old(self).toks(), old(self).pos())].kind is Return) && !(old(self).toks()[comments_end(old(self).toks(), old(self).pos())].kind is Guard)
                && !(old(self).toks()[comments_end(old(self).toks(), old(self).pos())].kind is If) && !(old(self).toks()[comments_end(old(self).toks(), old(self).pos())].kind is While) && !(old(self).toks()[comments_end(old(self).toks(), old(self).pos())].kind is Match) && !(old(self).toks()[comments_end(old(self).toks(), old(self).pos())].kind is Break)
                && !(old(self).toks()[comments_end(old(self).toks(), old(self).pos())].kind is Continue) ==> r == Err::<Stmt, ParseError>(
                ParseError::ExpectedExpression { span: old(self).toks()[comments_end(old(self).toks(), old(self).pos())].span },
            ),
            plain_stmt_end(old(self).toks(), comments_end(old(self).toks(), old(self).pos())) matches Some(e) ==> (r is Ok && final(self).pos() == e),
        decreases old(self).remaining(), 29nat,
    {
        self.skip_comments();
        proof {
            lemma_bin_end(self.toks(), self.pos(), 1);
        }
        match &self.tokens[self.current].kind {
            TokenKind::Let => self.parse_let_statement(),
            TokenKind::Return => self.parse_return_statement(),
            TokenKind::Guard => self.parse_guard_statement(),
            TokenKind::If => self.parse_if_statement(),
            TokenKind::While => self.parse_while_statement(),
            TokenKind::Match => self.parse_match_statement(),
            TokenKind::Break => {
                let span = self.current_span();
                self.advance();
                self.expect(TokenKind::Semicolon)?;
                Ok(Stmt::Break { span })
            },
            TokenKind::Continue => {
                let span = self.current_span();
                self.advance();
                self.expect(TokenKind::Semicolon)?;
                Ok(Stmt::Continue { span })
            },
            _ => self.parse_expression_statement(),
        }
    }

    /// `let [mut] name: Type = value [=> |err| { ... }];`
    #[verifier::spinoff_prover]
    fn parse_let_statement(&mut self) -> (r: Result<Stmt, ParseError>)
        requires
            old(self).wf(),
        ensures
            r matches Err(e) ==> fails_at(old(self).toks(), old(self).pos(), final(self).pos(), e),
            final(self).kept(old(self)),
            r matches Ok(st) ==> {
                &&& final(self).moved(old(self))
                &&& old(self).next_kind() is Let
                &&& st matches Stmt::Let { mutable, name, span, .. } && {
                    &&& span == old(self).toks()[old(self).pos()].span
                    &&& (mutable <==> old(self).toks()[old(self).pos() + 1].kind is Mut)
                    &&& old(self).toks()[old(self).pos() + if mutable { 2int } else { 1int }].kind
                        == TokenKind::Ident(name)
                }
            },
            r matches Ok(st) ==> stmt_grouped(st),
            r matches Ok(st) ==> spells_stmt(old(self).toks(), old(self).pos(), final(self).pos(), st),
            !(old(self).next_kind() is Let) ==> unexpected_at(r, old(self).toks(), old(self).pos()),
            old(self).next_kind() is Let && !(old(self).toks()[old(self).pos() + 1].kind is Mut) && !(old(self).toks()[old(self).pos() + 1].kind is Ident) ==> r == Err::<
                Stmt,
                ParseError,
            >(ParseError::ExpectedIdentifier { found: old(self).toks()[old(self).pos() + 1].lexeme, span: old(self).toks()[old(self).pos() + 1].span }),
            old(self).next_kind() is Let && old(self).toks()[old(self).pos() + 1].kind is Ident && old(self).toks()[old(self).pos() + 2].kind is Colon && simple_type_at(
                old(self).toks(),
                old(self).pos() + 3,
            ) && old(self).toks()[old(self).pos() + 4].kind is Eq && lone_operand(old(self).toks(), old(self).pos() + 5) && old(self).toks()[old(self).pos() + 6].kind is Semicolon ==> (r matches Ok(
                Stmt::Let { mutable, name, type_expr: TypeExpr::Named(tn, tspan), initializer, error_handler, span },
            ) && !mutable && old(self).toks()[old(self).pos() + 1].kind == TokenKind::Ident(name) && names(old(self).toks()[old(self).pos() + 3], tn) && tspan == old(self).toks()[old(self).pos()
                + 3].span && primary_from(old(self).toks()[old(self).pos() + 5], initializer) && error_handler is None && span == old(self).toks()[old(self).pos()].span
                && final(self).pos() == old(self).pos() + 7),
            old(self).next_kind() is Let ==> (plain_stmt_end(old(self).toks(), old(self).pos()) matches Some(e) ==> (r is Ok && final(self).pos() == e)),
        decreases old(self).remaining(), 28nat,
    {
        let span = self.current_span();
        self.expect(TokenKind::Let)?;
        let mutable = if self.check(&TokenKind::Mut) {
            self.advance();
            true
        } else {
            false
        };
        let name = self.expect_identifier()?;
        self.expect(TokenKind::Colon)?;
        let type_expr = self.parse_type_expr()?;
        self.expect(TokenKind::Eq)?;
        let initializer = self.parse_expression()?;
        let error_handler = if self.check(&TokenKind::FatArrow) {
            Some(self.parse_error_handler()?)
        } else {
            None
        };
        self.expect(TokenKind::Semicolon)?;
        Ok(Stmt::Let { mutable, name, type_expr, initializer, error_handler, span })
    }

    /// `return [value];`
    fn parse_return_statement(&mut self) -> (r: Result<Stmt, ParseError>)
        requires
            old(self).wf(),
        ensures
            r matches Err(e) ==> fails_at(old(self).toks(), old(self).pos(), final(self).pos(), e),
            final(self).kept(old(self)),
            r matches Ok(st) ==> {
                &&& final(self).moved(old(self))
                &&& old(self).next_kind() is Return
                &&& st matches Stmt::Return { value, span } && {
                    &&& span == old(self).toks()[old(self).pos()].span
                    &&& (value is None <==> old(self).toks()[old(self).pos() + 1].kind is Semicolon)
                }
            },
            r matches Ok(st) ==> stmt_grouped(st),
            r matches Ok(st) ==> spells_stmt(old(self).toks(), old(self).pos(), final(self).pos(), st),
            !(old(self).next_kind() is Return) ==> unexpected_at(r, old(self).toks(), old(self).pos()),
            old(self).next_kind() is Return && old(self).toks()[old(self).pos() + 1].kind is Semicolon ==> r == Ok::<Stmt, ParseError>(
                Stmt::Return { value: None, span: old(self).toks()[old(self).pos()].span },
            ) && final(self).pos() == old(self).pos() + 2,
            old(self).next_kind() is Return && lone_operand(old(self).toks(), old(self).pos() + 1) && old(self).toks()[old(self).pos() + 2].kind is Semicolon ==> (r matches Ok(
                Stmt::Return { value: Some(e), span },
            ) && primary_from(old(self).toks()[old(self).pos() + 1], e) && span == old(self).toks()[old(self).pos()].span && final(self).pos() == old(self).pos() + 3),
            old(self).next_kind() is Return && lone_operand(old(self).toks(), old(self).pos() + 1) && !(old(self).toks()[old(self).pos() + 2].kind is Semicolon) ==> unexpected_at(
                r,
                old(self).toks(),
                old(self).pos() + 2,
            ),
            old(self).next_kind() is Return && starts_no_expr(old(self).toks()[old(self).pos() + 1].kind) && !(old(self).toks()[old(self).pos() + 1].kind is Semicolon) ==> r
                == Err::<Stmt, ParseError>(ParseError::ExpectedExpression { span: old(self).toks()[old(self).pos() + 1].span }),
            old(self).next_kind() is Return ==> (plain_stmt_end(old(self).toks(), old(self).pos()) matches Some(e) ==> (r is Ok && final(self).pos() == e)),
        decreases old(self).remaining(), 28nat,
    {
        let span = self.current_span();
        self.expect(TokenKind::Return)?;
        let value = if !self.check(&TokenKind::Semicolon) {
            Some(self.parse_expression()?)
        } else {
            None
        };
        self.expect(TokenKind::Semicolon)?;
        Ok(Stmt::Return { value, span })
    }

    /// `guard condition else { ... };`
    #[verifier::spinoff_prover]
    #[verifier::rlimit(40)]
    fn parse_guard_statement(&mut self) -> (r: Result<Stmt, ParseError>)
        requires
            old(self).wf(),
        ensures
            r matches Err(e) ==> fails_at(old(self).toks(), old(self).pos(), final(self).pos(), e),
            final(self).kept(old(self)),
            r matches Ok(st) ==> {
                &&& final(self).moved(old(self))
                &&& old(self).next_kind() is Guard
                &&& st matches Stmt::Guard { span, .. } && span == old(self).toks()[old(self).pos()].span
            },
            r matches Ok(st) ==> stmt_grouped(st),
            r matches Ok(st) ==> spells_stmt(old(self).toks(), old(self).pos(), final(self).pos(), st),
            !(old(self).next_kind() is Guard) ==> unexpected_at(r, old(self).toks(), old(self).pos()),
            old(self).next_kind() is Guard && starts_no_expr(old(self).toks()[old(self).pos() + 1].kind) ==> r == Err::<Stmt, ParseError>(
                ParseError::ExpectedExpression { span: old(self).toks()[old(self).pos() + 1].span },
            ),
            old(self).next_kind() is Guard && lone_operand(old(self).toks(), old(self).pos() + 1) && old(self).toks()[old(self).pos() + 2].kind is Else && empty_braces(
                old(self).toks(),
                old(self).pos() + 3,
            ) && old(self).toks()[old(self).pos() + 5].kind is Semicolon ==> (r matches Ok(Stmt::Guard { condition, else_block, span })
                && primary_from(old(self).toks()[old(self).pos() + 1], condition) && else_block@.len() == 0 && span == old(self).toks()[old(self).pos()].span && final(self).pos() == old(self).pos() + 6),
            old(self).next_kind() is Guard ==> (plain_stmt_end(old(self).toks(), old(self).pos()) matches Some(e) ==> (r is Ok && final(self).pos() == e)),
        decreases old(self).remaining(), 28nat,
    {
        let span = self.current_span();
        self.expect(TokenKind::Guard)?;
        let condition = self.parse_expression()?;
        self.expect_ident_matching("else")?;
        let else_block = self.parse_block()?;
        self.expect(TokenKind::Semicolon)?;
        Ok(Stmt::Guard { condition, else_block, span })
    }

    /// Reads an optional `label:` before a condition.
    fn skip_condition_label(&mut self)
        requires
            old(self).wf(),
        ensures
            final(self).kept(old(self)),
            old(self).named_arg_ahead() ==> final(self).pos() == old(self).pos() + 2,
            !old(self).named_arg_ahead() ==> final(self).pos() == old(self).pos(),
    {
        if self.is_named_arg_ahead() {
            self.advance();
            self.advance();
        }
    }

    /// Reads an optional `=>`.
    fn skip_fat_arrow(&mut self)
        requires
            old(self).wf(),
        ensures
            final(self).kept(old(self)),
            old(self).next_kind() is FatArrow ==> final(self).pos() == old(self).pos() + 1,
            !(old(self).next_kind() is FatArrow) ==> final(self).pos() == old(self).pos(),
    {
        if self.check(&TokenKind::FatArrow) {
            self.advance();
        }
    }

    /// `if (cond) => { ... } else if (cond) => { ... } else => { ... };`
    /// (the labels, the `=>` and the final `;` are optional).
    #[verifier::spinoff_prover]
    #[verifier::rlimit(80)]
    fn parse_if_statement(&mut self) -> (r: Result<Stmt, ParseError>)
        requires
            old(self).wf(),
        ensures
            r matches Err(e) ==> fails_at(old(self).toks(), old(self).pos(), final(self).pos(), e),
            final(self).kept(old(self)),
            r matches Ok(st) ==> {
                &&& final(self).moved(old(self))
                &&& old(self).next_kind() is If
                &&& st matches Stmt::If { span, .. } && span == old(self).toks()[old(self).pos()].span
            },
            r matches Ok(st) ==> stmt_grouped(st),
            r matches Ok(st) ==> spells_stmt(old(self).toks(), old(self).pos(), final(self).pos(), st),
            !(old(self).next_kind() is If) ==> unexpected_at(r, old(self).toks(), old(self).pos()),
            old(self).next_kind() is If && !(old(self).toks()[old(self).pos() + 1].kind is LParen) ==> unexpected_at(r, old(self).toks(), old(self).pos() + 1),
            old(self).next_kind() is If && old(self).toks()[old(self).pos() + 1].kind is LParen && starts_no_expr(old(self).toks()[old(self).pos() + 2].kind) ==> r == Err::<
                Stmt,
                ParseError,
            >(ParseError::ExpectedExpression { span: old(self).toks()[old(self).pos() + 2].span }),
            old(self).next_kind() is If && old(self).toks()[old(self).pos() + 1].kind is LParen && lone_operand(old(self).toks(), old(self).pos() + 2) && old(self).toks()[old(self).pos()
                + 3].kind is RParen && empty_braces(old(self).toks(), old(self).pos() + 4) && !(old(self).toks()[old(self).pos() + 6].kind is Else) && !(old(self).toks()[old(self).pos()
                + 6].kind is Semicolon) ==> (r matches Ok(
                Stmt::If { condition, then_block, else_if_blocks, else_block, span },
            ) && primary_from(old(self).toks()[old(self).pos() + 2], condition) && then_block@.len() == 0 && else_if_blocks@.len() == 0
                && else_block is None && span == old(self).toks()[old(self).pos()].span && final(self).pos() == old(self).pos() + 6),
            old(self).next_kind() is If ==> (plain_stmt_end(old(self).toks(), old(self).pos()) matches Some(e) ==> (r is Ok && final(self).pos() == e)),
        decreases old(self).remaining(), 28nat,
    {
        let span = self.current_span();
        self.expect(TokenKind::If)?;
        self.expect(TokenKind::LParen)?;
        let ghost c1 = self.pos();
        self.skip_condition_label();
        proof {
            assert(self.pos() == label_end(self.toks(), c1));
        }
        let condition = self.parse_expression()?;
        let ghost a = self.pos();
        self.expect(TokenKind::RParen)?;
        let ghost b1 = self.pos();
        self.skip_fat_arrow();
        proof {
            assert(self.pos() == arrow_end(self.toks(), b1));
        }
        let then_block = self.parse_block()?;
        let ghost d = self.pos();
        let ghost plain = plain_stmt_end(old(self).toks(), old(self).pos()) is Some;
        proof {
            if plain {
                assert(plain_elses_end(old(self).toks(), d) is Some);
            }
        }
        let mut else_if_blocks: Vec<(Expr, Vec<Stmt>)> = Vec::new();
        let mut else_block: Option<Vec<Stmt>> = None;
        let ghost mut m = self.pos();
        while self.check(&TokenKind::Else)
            invariant_except_break
                else_block is None,
                m == self.pos(),
                plain ==> plain_elses_end(self.toks(), self.pos()) == plain_elses_end(self.toks(), d),
            invariant
                plain == (plain_stmt_end(old(self).toks(), old(self).pos()) is Some),
                plain ==> plain_elses_end(self.toks(), d) is Some,
                plain ==> d < self.toks().len(),
                self.moved(old(self)),
                old(self).next_kind() is If,
                old(self).toks()[old(self).pos() + 1].kind is LParen,
                !starts_no_expr(old(self).toks()[old(self).pos() + 2].kind),
                lone_operand(old(self).toks(), old(self).pos() + 2) && old(self).toks()[old(self).pos() + 3].kind is RParen && empty_braces(old(self).toks(), old(self).pos() + 4) && !(old(self).toks()[old(self).pos() + 6].kind is Else) ==> d == old(self).pos() + 6 && self.pos() == d && else_if_blocks@.len() == 0 && else_block is None,
                elifs_grouped(else_if_blocks@),
                else_block matches Some(b) ==> block_grouped(b@),
                d <= m <= self.pos(),
                spells_elifs(self.toks(), d, m, else_if_blocks@),
            ensures
                self.moved(old(self)),
                old(self).toks()[old(self).pos() + 1].kind is LParen,
                !starts_no_expr(old(self).toks()[old(self).pos() + 2].kind),
                lone_operand(old(self).toks(), old(self).pos() + 2) && old(self).toks()[old(self).pos() + 3].kind is RParen && empty_braces(old(self).toks(), old(self).pos() + 4) && !(old(self).toks()[old(self).pos() + 6].kind is Else) ==> d == old(self).pos() + 6 && self.pos() == d && else_if_blocks@.len() == 0 && else_block is None,
                elifs_grouped(else_if_blocks@),
                else_block matches Some(b) ==> block_grouped(b@),
                d <= m <= self.pos(),
                spells_elifs(self.toks(), d, m, else_if_blocks@),
                else_block is None ==> m == self.pos() && !(self.next_kind() is Else),
                else_block is Some ==> spells_else(self.toks(), m, self.pos(), else_block),
                plain ==> plain_elses_end(self.toks(), d) == Some(self.pos()),
            decreases self.remaining(),
        {
            let ghost k = self.pos();
            proof {
                let ts = self.toks();
                let c = label_skip(ts, k + 3);
                let e = plain_expr_end(ts, c)->0;
                let b = arrow_end(ts, e + 1);
                let g = plain_block_end(ts, b)->0;
                let b2 = arrow_end(ts, k + 1);
                assert(plain ==> plain_elses_end(ts, k) is Some);
                assert(plain && ts[k + 1].kind is If ==> ts[k + 2].kind is LParen && plain_expr_end(ts, c) is Some);
                assert(plain && ts[k + 1].kind is If ==> label_end(ts, k + 3) == c);
                assert(plain && ts[k + 1].kind is If ==> ts[e].kind is RParen && plain_block_end(ts, b) is Some);
                assert(plain && ts[k + 1].kind is If ==> plain_elses_end(ts, k) == plain_elses_end(ts, g));
                assert(plain && !(ts[k + 1].kind is If) ==> plain_elses_end(ts, k) == plain_block_end(ts, b2));
            }
            self.advance();
            if self.check(&TokenKind::If) {
                self.advance();
                self.expect(TokenKind::LParen)?;
                let ghost c1 = self.pos();
                self.skip_condition_label();
                let ghost c2 = self.pos();
                proof {
                    assert(c2 == label_end(self.toks(), c1));
                }
                let cond = self.parse_expression()?;
                let ghost a2 = self.pos();
                self.expect(TokenKind::RParen)?;
                let ghost b1 = self.pos();
                self.skip_fat_arrow();
                proof {
                    assert(self.pos() == arrow_end(self.toks(), b1));
                }
                let block = self.parse_block()?;
                let ghost before = else_if_blocks@;
                else_if_blocks.push((cond, block));
                proof {
                    assert(else_if_blocks@.drop_last() =~= before);
                    let ts = self.toks();
                    crate::token::lemma_same_tag_dataless(ts[k + 2].kind, TokenKind::LParen);
                    crate::token::lemma_same_tag_dataless(ts[a2].kind, TokenKind::RParen);
                    assert(ts[a2].kind is RParen);
                    assert(spells_elif(ts, k, self.pos(), else_if_blocks@.last()));
                    lemma_spells_elifs_push(ts, d, k, self.pos(), before, else_if_blocks@.last());
                    m = self.pos();
                }
            } else {
                let ghost b1 = self.pos();
                self.skip_fat_arrow();
                proof {
                    assert(self.pos() == arrow_end(self.toks(), b1));
                    assert(!(self.toks()[k + 1].kind is If));
                }
                else_block = Some(self.parse_block()?);
                proof {
                    assert(spells_else(self.toks(), k, self.pos(), else_block));
                }
                break;
            }
        }
        let ghost e = self.pos();
        if self.check(&TokenKind::Semicolon) {
            self.advance();
        }
        proof {
            let ts = self.toks();
            let i = old(self).pos();
            crate::token::lemma_same_tag_dataless(ts[i + 1].kind, TokenKind::LParen);
            crate::token::lemma_same_tag_dataless(ts[a].kind, TokenKind::RParen);
            assert(if_shape(ts, i, a, d, m, e, self.pos()));
        }
        Ok(Stmt::If { condition, then_block, else_if_blocks, else_block, span })
    }

    /// `while (cond) => { ... };` (the label, the `=>` and the `;` are
    /// optional).
    #[verifier::spinoff_prover]
    fn parse_while_statement(&mut self) -> (r: Result<Stmt, ParseError>)
        requires
            old(self).wf(),
        ensures
            r matches Err(e) ==> fails_at(old(self).toks(), old(self).pos(), final(self).pos(), e),
            final(self).kept(old(self)),
            r matches Ok(st) ==> {
                &&& final(self).moved(old(self))
                &&& old(self).next_kind() is While
                &&& st matches Stmt::While { span, .. } && span == old(self).toks()[old(self).pos()].span
            },
            r matches Ok(st) ==> stmt_grouped(st),
            r matches Ok(st) ==> spells_stmt(old(self).toks(), old(self).pos(), final(self).pos(), st),
            !(old(self).next_kind() is While) ==> unexpected_at(r, old(self).toks(), old(self).pos()),
            old(self).next_kind() is While && !(old(self).toks()[old(self).pos() + 1].kind is LParen) ==> unexpected_at(r, old(self).toks(), old(self).pos() + 1),
            old(self).next_kind() is While && old(self).toks()[old(self).pos() + 1].kind is LParen && starts_no_expr(old(self).toks()[old(self).pos() + 2].kind) ==> r == Err::<
                Stmt,
                ParseError,
            >(ParseError::ExpectedExpression { span: old(self).toks()[old(self).pos() + 2].span }),
            old(self).next_kind() is While && old(self).toks()[old(self).pos() + 1].kind is LParen && lone_operand(old(self).toks(), old(self).pos() + 2) && old(self).toks()[old(self).pos()
                + 3].kind is RParen && empty_braces(old(self).toks(), old(self).pos() + 4) ==> (r matches Ok(Stmt::While { condition, body, span })
                && primary_from(old(self).toks()[old(self).pos() + 2], condition) && body@.len() == 0 && span == old(self).toks()[old(self).pos()].span && final(self).pos()
                == old(self).pos() + if old(self).toks()[old(self).pos() + 6].kind is Semicolon { 7int } else { 6int }),
            old(self).next_kind() is While ==> (plain_stmt_end(old(self).toks(), old(self).pos()) matches Some(e) ==> (r is Ok && final(self).pos() == e)),
        decreases old(self).remaining(), 28nat,
    {
        let span = self.current_span();
        self.expect(TokenKind::While)?;
        self.expect(TokenKind::LParen)?;
        let ghost c1 = self.pos();
        self.skip_condition_label();
        proof {
            assert(self.pos() == label_end(self.toks(), c1));
        }
        let condition = self.parse_expression()?;
        let ghost a = self.pos();
        self.expect(TokenKind::RParen)?;
        let ghost b1 = self.pos();
        self.skip_fat_arrow();
        proof {
            assert(self.pos() == arrow_end(self.toks(), b1));
        }
        let body = self.parse_block()?;
        let ghost e = self.pos();
        if self.check(&TokenKind::Semicolon) {
            self.advance();
        }
        proof {
            let ts = self.toks();
            let i = old(self).pos();
            crate::token::lemma_same_tag_dataless(ts[i + 1].kind, TokenKind::LParen);
            crate::token::lemma_same_tag_dataless(ts[a].kind, TokenKind::RParen);
            assert(ts[a].kind is RParen);
            assert(semi_end(ts, e) == self.pos());
            assert(label_end(ts, i + 2) < a && arrow_end(ts, a + 1) < e <= self.pos());
        }
        Ok(Stmt::While { condition, body, span })
    }

    /// `match (value) => { case(...) => { ... }, default => { ... } };`
    #[verifier::spinoff_prover]
    #[verifier::rlimit(60)]
    fn parse_match_statement(&mut self) -> (r: Result<Stmt, ParseError>)
        requires
            old(self).wf(),
        ensures
            r matches Err(e) ==> fails_at(old(self).toks(), old(self).pos(), final(self).pos(), e),
            final(self).kept(old(self)),
            r matches Ok(st) ==> {
                &&& final(self).moved(old(self))
                &&& old(self).next_kind() is Match
                &&& st matches Stmt::Match { span, .. } && span == old(self).toks()[old(self).pos()].span
            },
            r matches Ok(st) ==> stmt_grouped(st),
            r matches Ok(st) ==> spells_stmt(old(self).toks(), old(self).pos(), final(self).pos(), st),
            !(old(self).next_kind() is Match) ==> unexpected_at(r, old(self).toks(), old(self).pos()),
            old(self).next_kind() is Match && !(old(self).toks()[old(self).pos() + 1].kind is LParen) ==> unexpected_at(r, old(self).toks(), old(self).pos() + 1),
            old(self).next_kind() is Match && old(self).toks()[old(self).pos() + 1].kind is LParen && starts_no_expr(old(self).toks()[old(self).pos() + 2].kind) ==> r == Err::<
                Stmt,
                ParseError,
            >(ParseError::ExpectedExpression { span: old(self).toks()[old(self).pos() + 2].span }),
            old(self).next_kind() is Match && old(self).toks()[old(self).pos() + 1].kind is LParen && lone_operand(old(self).toks(), old(self).pos() + 2) && old(self).toks()[old(self).pos()
                + 3].kind is RParen && empty_braces(old(self).toks(), old(self).pos() + 4) ==> (r matches Ok(Stmt::Match { value, arms, span })
                && primary_from(old(self).toks()[old(self).pos() + 2], value) && arms@.len() == 0 && span == old(self).toks()[old(self).pos()].span && final(self).pos()
                == old(self).pos() + if old(self).toks()[old(self).pos() + 6].kind is Semicolon { 7int } else { 6int }),
            old(self).next_kind() is Match ==> (plain_stmt_end(old(self).toks(), old(self).pos()) matches Some(e) ==> (r is Ok && final(self).pos() == e)),
        decreases old(self).remaining(), 28nat,
    {
        let span = self.current_span();
        self.expect(TokenKind::Match)?;
        self.expect(TokenKind::LParen)?;
        let ghost c1 = self.pos();
        self.skip_condition_label();
        proof {
            assert(self.pos() == label_end(self.toks(), c1));
        }
        let value = self.parse_expression()?;
        let ghost a = self.pos();
        self.expect(TokenKind::RParen)?;
        let ghost b1 = self.pos();
        self.skip_fat_arrow();
        let ghost lb = self.pos();
        proof {
            assert(lb == arrow_end(self.toks(), b1));
        }
        self.expect(TokenKind::LBrace)?;
        proof {
            crate::token::lemma_same_tag_dataless(self.toks()[lb].kind, TokenKind::LBrace);
        }
        let mut arms: Vec<MatchArm> = Vec::new();
        let ghost mut arms_end = self.pos();
        let ghost plain = plain_stmt_end(old(self).toks(), old(self).pos()) is Some;
        proof {
            if plain {
                assert(plain_arms_end(self.toks(), lb + 1) is Some);
            }
        }
        while !self.check(&TokenKind::RBrace) && !self.is_at_end()
            invariant
                self.moved(old(self)),
                old(self).next_kind() is Match,
                arms_grouped(arms@),
                lb + 1 <= arms_end <= self.pos(),
                old(self).toks()[old(self).pos() + 1].kind is LParen,
                !starts_no_expr(old(self).toks()[old(self).pos() + 2].kind),
                lone_operand(old(self).toks(), old(self).pos() + 2) && old(self).toks()[old(self).pos() + 3].kind is RParen && empty_braces(old(self).toks(), old(self).pos() + 4) ==> self.pos() == old(self).pos() + 5 && arms@.len() == 0,
                spells_arms(self.toks(), lb + 1, arms_end, arms@),
                comments_only(self.toks(), arms_end, self.pos()),
                plain == (plain_stmt_end(old(self).toks(), old(self).pos()) is Some),
                plain ==> plain_arms_end(self.toks(), self.pos()) == plain_arms_end(self.toks(), lb + 1),
                plain ==> plain_arms_end(self.toks(), lb + 1) is Some,
            ensures
                self.next_kind() is RBrace || self.next_kind() is EOF,
            decreases self.remaining(),
        {
            let ghost p0 = self.pos();
            self.skip_comments();
            proof {
                let ce = self.pos();
                assert(comments_end(self.toks(), ce) == ce);
                if plain {
                    assert(plain_arms_end(self.toks(), p0) == plain_arms_end(self.toks(), ce));
                }
            }
            proof {
                lemma_comments_end(self.toks(), p0);
                lemma_comments_join(self.toks(), arms_end, p0, self.pos());
            }
            if self.check(&TokenKind::RBrace) {
                break;
            }
            let ghost p1 = self.pos();
            proof {
                assert(plain ==> plain_arm_end(self.toks(), p1) is Some);
            }
            let arm = self.parse_match_arm()?;
            proof {
                if plain {
                    assert(plain_arms_end(self.toks(), p1) == plain_arms_end(self.toks(), self.pos()));
                }
            }
            let ghost before = arms@;
            arms.push(arm);
            proof {
                let one = seq![arm];
                assert(one.drop_last() =~= Seq::<MatchArm>::empty());
                assert(one.last() == arm);
                assert(arms@.drop_last() =~= before);
                lemma_spells_arms_push(self.toks(), lb + 1, arms_end, p1, self.pos(), before, arm);
                arms_end = self.pos();
            }
        }
        let ghost rb = self.pos();
        proof {
            if plain {
                let ts = self.toks();
                assert(ts[rb].kind == self.next_kind());
                assert(comments_end(ts, rb) == rb);
                assert(plain_arm_end(ts, rb) is None || ts[rb].kind is RBrace);
                assert(ts[rb].kind is RBrace);
                assert(plain_arms_end(ts, rb) == Some(rb));
            }
        }
        self.expect(TokenKind::RBrace)?;
        let ghost e = self.pos();
        if self.check(&TokenKind::Semicolon) {
            self.advance();
        }
        proof {
            let ts = self.toks();
            let i = old(self).pos();
            crate::token::lemma_same_tag_dataless(ts[i + 1].kind, TokenKind::LParen);
            crate::token::lemma_same_tag_dataless(ts[a].kind, TokenKind::RParen);
            crate::token::lemma_same_tag_dataless(ts[rb].kind, TokenKind::RBrace);
            assert(match_shape(ts, i, a, arms_end, e, self.pos()));
        }
        Ok(Stmt::Match { value, arms, span })
    }

    /// `case(value) => { ... }` or `default => { ... }`, with an optional
    /// trailing comma. Any other first token is read and refused.
    #[verifier::spinoff_prover]
    fn parse_match_arm(&mut self) -> (r: Result<MatchArm, ParseError>)
        requires
            old(self).wf(),
        ensures
            r matches Err(e) ==> fails_at(old(self).toks(), old(self).pos(), final(self).pos(), e),
            final(self).kept(old(self)),
            r matches Ok(arm) ==> {
                &&& final(self).moved(old(self))
                &&& arm.span == old(self).toks()[old(self).pos()].span
                &&& (old(self).next_kind() is Default ==> arm.pattern is Default)
                &&& (old(self).next_kind() is Case ==> arm.pattern is Literal)
                &&& (old(self).next_kind() is Default || old(self).next_kind() is Case)
            },
            !(old(self).next_kind() is Default || old(self).next_kind() is Case) ==> (r matches Err(e) && e == (
            ParseError::UnexpectedToken {
                token: old(self).toks()[old(self).pos()].lexeme,
                span: old(self).toks()[old(self).pos()].span,
            })),
            r matches Ok(arm) ==> arms_grouped(seq![arm]),
            r matches Ok(arm) ==> spells_arm(old(self).toks(), old(self).pos(), final(self).pos(), arm),
            plain_arm_end(old(self).toks(), old(self).pos()) matches Some(e) ==> (r is Ok && final(self).pos() == e),
        decreases old(self).remaining(), 27nat,
    {
        let span = self.current_span();
        let pattern = if self.check(&TokenKind::Default) {
            self.advance();
            MatchPattern::Default
        } else if self.check(&TokenKind::Case) {
            self.advance();
            self.expect(TokenKind::LParen)?;
            let e = self.parse_expression()?;
            let ghost rp = self.pos();
            self.expect(TokenKind::RParen)?;
            proof {
                crate::token::lemma_same_tag_dataless(self.toks()[old(self).pos() + 1].kind, TokenKind::LParen);
                crate::token::lemma_same_tag_dataless(self.toks()[rp].kind, TokenKind::RParen);
            }
            MatchPattern::Literal(e)
        } else {
            let token = self.peek().lexeme.clone();
            self.advance();
            return Err(ParseError::UnexpectedToken { token, span });
        };
        let ghost p = self.pos();
        self.skip_fat_arrow();
        proof {
            assert(self.pos() == arrow_end(self.toks(), p));
        }
        let body = self.parse_block()?;
        let ghost c = self.pos();
        if self.check(&TokenKind::Comma) {
            self.advance();
        }
        let arm = MatchArm { pattern, body, span };
        proof {
            assert(self.pos() == comma_end(self.toks(), c));
            assert(spells_block(self.toks(), arrow_end(self.toks(), p), c, arm.body@));
        }
        proof {
            let one = seq![arm];
            assert(one.drop_last() =~= Seq::<MatchArm>::empty());
            assert(one.last() == arm);
            assert(arms_grouped(Seq::<MatchArm>::empty()));
        }
        Ok(arm)
    }

    /// `=> |param| { ... }`
    fn parse_error_handler(&mut self) -> (r: Result<ErrorHandler, ParseError>)
        requires
            old(self).wf(),
        ensures
            r matches Err(e) ==> fails_at(old(self).toks(), old(self).pos(), final(self).pos(), e),
            final(self).kept(old(self)),
            r matches Ok(h) ==> {
                &&& final(self).moved(old(self))
                &&& old(self).next_kind() is FatArrow
                &&& h.span == old(self).toks()[old(self).pos()].span
                &&& old(self).toks()[old(self).pos() + 2].kind == TokenKind::Ident(h.param)
            },
            r matches Ok(h) ==> block_grouped(h.body@),
            r matches Ok(h) ==> spells_handler(old(self).toks(), old(self).pos(), final(self).pos(), h),
            !(old(self).next_kind() is FatArrow) ==> unexpected_at(r, old(self).toks(), old(self).pos()),
            old(self).next_kind() is FatArrow && old(self).toks()[old(self).pos() + 1].kind is Pipe && old(self).toks()[old(self).pos() + 2].kind is Ident && old(self).toks()[old(self).pos()
                + 3].kind is Pipe && empty_braces(old(self).toks(), old(self).pos() + 4) ==> (r matches Ok(h) && h.body@.len() == 0 && final(self).pos() == old(self).pos() + 6),
            plain_handler_end(old(self).toks(), old(self).pos()) matches Some(g) ==> (r is Ok && final(self).pos() == g),
        decreases old(self).remaining(), 27nat,
    {
        let span = self.current_span();
        self.expect(TokenKind::FatArrow)?;
        self.expect(TokenKind::Pipe)?;
        let param = self.expect_identifier()?;
        self.expect(TokenKind::Pipe)?;
        let body = self.parse_block()?;
        Ok(ErrorHandler { param, body, span })
    }

    /// `expr;`, `target = value;`, or `expr => |err| { ... };`.
    #[verifier::spinoff_prover]
    #[verifier::rlimit(60)]
    fn parse_expression_statement(&mut self) -> (r: Result<Stmt, ParseError>)
        requires
            old(self).wf(),
        ensures
            r matches Err(e) ==> fails_at(old(self).toks(), old(self).pos(), final(self).pos(), e),
            final(self).kept(old(self)),
            r matches Ok(st) ==> {
                &&& final(self).moved(old(self))
                &&& match st {
                    Stmt::Assignment { span, .. } => span == old(self).toks()[old(self).pos()].span,
                    Stmt::Expression { span, .. } => span == old(self).toks()[old(self).pos()].span,
                    _ => false,
                }
            },
            r matches Ok(st) ==> stmt_grouped(st),
            r matches Ok(st) ==> spells_stmt(old(self).toks(), old(self).pos(), final(self).pos(), st),
            starts_no_expr(old(self).next_kind()) ==> r == Err::<Stmt, ParseError>(
                ParseError::ExpectedExpression { span: old(self).toks()[old(self).pos()].span },
            ),
            lone_operand(old(self).toks(), old(self).pos()) && old(self).toks()[old(self).pos() + 1].kind is Semicolon ==> (r matches Ok(Stmt::Expression { expr, span })
                && primary_from(old(self).toks()[old(self).pos()], expr) && span == old(self).toks()[old(self).pos()].span && final(self).pos() == old(self).pos() + 2),
            lone_operand(old(self).toks(), old(self).pos()) && !(old(self).toks()[old(self).pos() + 1].kind is Semicolon) && !(old(self).toks()[old(self).pos() + 1].kind is Eq) && !(old(self).toks()[old(self).pos()
                + 1].kind is FatArrow) ==> unexpected_at(r, old(self).toks(), old(self).pos() + 1),
            !(old(self).toks()[old(self).pos()].kind is Let) && !(old(self).toks()[old(self).pos()].kind is Return) && !(old(self).toks()[old(self).pos()].kind is Break) && !(old(self).toks()[old(self).pos()].kind is Continue) && !(old(self).toks()[old(self).pos()].kind is While) && !(old(self).toks()[old(self).pos()].kind is Guard) && !(old(self).toks()[old(self).pos()].kind is If) && !(old(self).toks()[old(self).pos()].kind is Match) ==> (plain_stmt_end(old(self).toks(), old(self).pos()) matches Some(e) ==> (r is Ok && final(self).pos() == e)),
        decreases old(self).remaining(), 28nat,
    {
        let span = self.current_span();
        let expr = self.parse_expression()?;
        if self.check(&TokenKind::Eq) {
            self.advance();
            let value = self.parse_expression()?;
            self.expect(TokenKind::Semicolon)?;
            return Ok(Stmt::Assignment { target: expr, value, span });
        }
        if self.check(&TokenKind::FatArrow) {
            let handler = self.parse_error_handler()?;
            let wrapped = Expr::WithErrorHandler { expr: Box::new(expr), handler, span };
            proof {
                assert(grouped_by_binding(wrapped, 1));
                assert(inner_grouped(wrapped));
                assert(well_grouped(wrapped));
            }
            self.expect(TokenKind::Semicolon)?;
            return Ok(Stmt::Expression { expr: wrapped, span });
        }
        self.expect(TokenKind::Semicolon)?;
        Ok(Stmt::Expression { expr, span })
    }

    // ── Top level ──

    /// The whole program. Each item that fails to parse leaves an error and
    /// the parser reads on from the next statement or declaration; the
    /// result is `Ok` only if no error was found. The errors handed back are,
    /// in order, those that `parse_errors_from` relates to the tokens: one
    /// per token that starts no item and one per item that fails (naming the
    /// token where reading the item stopped, `fails_at`), with reading
    /// resumed where `synchronize` stops; on success that list is empty. A parsed program is
    /// spelled by the tokens read, up to `EOF` (`spells_program`: every
    /// item, statement, type and expression, with its spans, stands for the
    /// tokens it came from), and every expression in it groups its operators
    /// by binding strength and to the left (`program_grouped`). Parsing
    /// succeeds on every program of the forms that `plain_items` describes:
    /// module directives, require statements, and contracts, functions and
    /// enumerations (with annotations) whose fields, parameters and types
    /// are names with type arguments, `Self` and references, and whose
    /// bodies hold `let` (also `mut`), `return`, `break`, `continue`,
    /// `guard`, `if` / `else if` / `else`, `while`, `match`, assignment and
    /// expression statements (with error handlers) over operands with
    /// prefix operators, parenthesised expressions, paths, field accesses,
    /// calls with named or plain arguments, struct values and binary
    /// operators.
    ///
    /// Where such items are followed by a token at which no item can be read
    /// (`item_fails_at`: one that starts no item, or `contract` without a
    /// name), the first error is the one `item_error` names, and it is the
    /// only one when that `contract` is the last token before `EOF`.
    pub fn parse(self) -> (r: Result<Program, Vec<ParseError>>)
        requires
            self.wf(),
        ensures
            r matches Err(es) ==> es@.len() > 0,
            r matches Ok(p) ==> program_grouped(p),
            r matches Ok(p) ==> spells_program(self.toks(), self.pos(), p),
            plain_items(self.toks(), self.pos()) ==> r is Ok,
            r matches Err(es) ==> parse_errors_from(self.toks(), self.pos(), es@),
            r is Ok ==> parse_errors_from(self.toks(), self.pos(), Seq::<ParseError>::empty()),
            ({
                let first = self.toks()[comments_end(self.toks(), self.pos())];
                &&& first.kind is EOF ==> (r matches Ok(p) && {
                    &&& p.module_directives@.len() == 0
                    &&& p.require_statements@.len() == 0
                    &&& p.declarations@.len() == 0
                })
                &&& !starts_item(first.kind) ==> (r matches Err(es) && es@[0] == (ParseError::UnexpectedToken {
                    token: first.lexeme,
                    span: first.span,
                }))
            }),            forall|k: int| #![trigger plain_prefix(self.toks(), self.pos(), k)]
                plain_prefix(self.toks(), self.pos(), k) && item_fails_at(self.toks(), k) ==> (r matches Err(es)
                    && es@[0] == item_error(self.toks(), k) && (self.toks()[k].kind is Contract && k + 2 == self.toks().len()
                    ==> es@.len() == 1)),
    {
        let mut p = self;
        let ghost start = p;
        let ghost ce = comments_end(start.toks(), start.pos());
        let mut errors: Vec<ParseError> = Vec::new();
        let mut module_directives: Vec<ModuleDirective> = Vec::new();
        let mut require_statements: Vec<RequireStatement> = Vec::new();
        let mut declarations: Vec<Declaration> = Vec::new();
        let ghost mut items_end = p.pos();
        let ghost has = exists|k: int| plain_prefix(start.toks(), start.pos(), k) && item_fails_at(start.toks(), k);
        let ghost kk = choose|k: int| plain_prefix(start.toks(), start.pos(), k) && item_fails_at(start.toks(), k);
        proof {
            lemma_comments_end(start.toks(), start.pos());
        }
        proof {
            assert forall|rest: Seq<ParseError>| #[trigger] parse_errors_from(start.toks(), p.pos(), rest) implies parse_errors_from(
                start.toks(),
                start.pos(),
                errors@ + rest,
            ) by {
                assert(errors@ + rest =~= rest);
            }
        }
        while !p.is_at_end()
            invariant
                forall|k: int| 0 <= k < declarations@.len() ==> decl_grouped(#[trigger] declarations@[k]),
                p.kept(&start),
                start.wf(),
                ce == comments_end(start.toks(), start.pos()),
                start.pos() <= ce < start.toks().len(),
                !(start.toks()[ce].kind is Comment),
                start.toks()[ce].kind is EOF ==> p.pos() <= ce,
                p.pos() <= ce ==> {
                    &&& comments_end(p.toks(), p.pos()) == ce
                    &&& errors@.len() == 0
                    &&& module_directives@.len() == 0
                    &&& require_statements@.len() == 0
                    &&& declarations@.len() == 0
                },
                !starts_item(start.toks()[ce].kind) && p.pos() > ce ==> errors@.len() > 0 && errors@[0] == (
                ParseError::UnexpectedToken { token: start.toks()[ce].lexeme, span: start.toks()[ce].span }),
                errors@.len() == 0 ==> {
                    &&& start.pos() <= items_end <= p.pos()
                    &&& spells_items(
                        p.toks(),
                        start.pos(),
                        items_end,
                        module_directives@,
                        require_statements@,
                        declarations@,
                    )
                    &&& comments_only(p.toks(), items_end, p.pos())
                },
                plain_items(start.toks(), start.pos()) ==> errors@.len() == 0 && plain_items(p.toks(), p.pos()),
                has ==> plain_prefix(start.toks(), start.pos(), kk) && item_fails_at(start.toks(), kk),
                has ==> (p.pos() <= kk && errors@.len() == 0 && plain_prefix(p.toks(), p.pos(), kk)) || (errors@.len() > 0
                    && errors@[0] == item_error(start.toks(), kk) && (start.toks()[kk].kind is Contract && kk + 2
                    == start.toks().len() ==> errors@.len() == 1 && p.pos() == kk + 1)),
                forall|rest: Seq<ParseError>| #[trigger] parse_errors_from(start.toks(), p.pos(), rest) ==> parse_errors_from(
                    start.toks(),
                    start.pos(),
                    errors@ + rest,
                ),
            decreases p.remaining(),
        {
            let ghost before = p;
            let ghost errs0 = errors@;
            let ghost before_p = p;
            let ghost dirs0 = module_directives@;
            let ghost reqs0 = require_statements@;
            let ghost decls0 = declarations@;
            proof {
                lemma_comments_end(p.toks(), p.pos());
            }
            match &p.tokens[p.current].kind {
                TokenKind::HashBang => {
                    match p.parse_module_directive() {
                        Ok(d) => {
                            module_directives.push(d);
                            proof {
                                assert(spells_directive(start.toks(), before_p.pos(), p.pos(), d));
                                lemma_errors_after_item(start.toks(), before_p.pos(), p.pos());
                                assert(errors@.skip(errs0.len() as int) =~= Seq::<ParseError>::empty());
                                assert forall|rest: Seq<ParseError>| #[trigger] parse_errors_from(start.toks(), p.pos(), rest) implies parse_errors_from(start.toks(), before_p.pos(), errors@.skip(errs0.len() as int) + rest) by {
                                    assert(errors@.skip(errs0.len() as int) + rest =~= rest);
                                }
                            }
                            proof {
                                if errors@.len() == 0 {
                                    lemma_spells_items_directive(
                                        p.toks(),
                                        start.pos(),
                                        items_end,
                                        before_p.pos(),
                                        p.pos(),
                                        dirs0,
                                        reqs0,
                                        decls0,
                                        d,
                                    );
                                    items_end = p.pos();
                                }
                            }
                        },
                        Err(e) => {
                            let ghost m = p.pos();
                            errors.push(e);
                            p.synchronize();
                            proof {
                                assert(p.pos() > before_p.pos());
                                lemma_errors_after_failure(start.toks(), before_p.pos(), m, e);
                                assert(errors@.skip(errs0.len() as int) =~= seq![e]);
                            }
                        },
                    }
                },
                TokenKind::At => {
                    if p.next_is_require() {
                        match p.parse_require_statement() {
                            Ok(req) => {
                                require_statements.push(req);
                                proof {
                                    assert(spells_require(start.toks(), before_p.pos(), p.pos(), req));
                                    lemma_errors_after_item(start.toks(), before_p.pos(), p.pos());
                                    assert(errors@.skip(errs0.len() as int) =~= Seq::<ParseError>::empty());
                                    assert forall|rest: Seq<ParseError>| #[trigger] parse_errors_from(start.toks(), p.pos(), rest) implies parse_errors_from(start.toks(), before_p.pos(), errors@.skip(errs0.len() as int) + rest) by {
                                        assert(errors@.skip(errs0.len() as int) + rest =~= rest);
                                    }
                                }
                                proof {
                                    if errors@.len() == 0 {
                                        lemma_spells_items_require(
                                            p.toks(),
                                            start.pos(),
                                            items_end,
                                            before_p.pos(),
                                            p.pos(),
                                            dirs0,
                                            reqs0,
                                            decls0,
                                            req,
                                        );
                                        items_end = p.pos();
                                    }
                                }
                            },
                            Err(e) => {
                                let ghost m = p.pos();
                                errors.push(e);
                                p.synchronize();
                                proof {
                                    assert(p.pos() > before_p.pos());
                                    lemma_errors_after_failure(start.toks(), before_p.pos(), m, e);
                                    assert(errors@.skip(errs0.len() as int) =~= seq![e]);
                                }
                            },
                        }
                    } else {
                        match p.parse_declaration() {
                            Ok(d) => {
                                let ghost before = declarations@;
                                declarations.push(d);
                                proof {
                                    assert(spells_decl(start.toks(), before_p.pos(), p.pos(), d));
                                    lemma_errors_after_item(start.toks(), before_p.pos(), p.pos());
                                    assert(errors@.skip(errs0.len() as int) =~= Seq::<ParseError>::empty());
                                    assert forall|rest: Seq<ParseError>| #[trigger] parse_errors_from(start.toks(), p.pos(), rest) implies parse_errors_from(start.toks(), before_p.pos(), errors@.skip(errs0.len() as int) + rest) by {
                                        assert(errors@.skip(errs0.len() as int) + rest =~= rest);
                                    }
                                }
                                proof {
                                    assert forall|k: int| 0 <= k < declarations@.len() implies decl_grouped(#[trigger] declarations@[k]) by {
                                        if k < before.len() {
                                            assert(declarations@[k] == before[k]);
                                        }
                                    }
                                    if errors@.len() == 0 {
                                        lemma_spells_items_decl(
                                            p.toks(),
                                            start.pos(),
                                            items_end,
                                            before_p.pos(),
                                            p.pos(),
                                            dirs0,
                                            reqs0,
                                            decls0,
                                            d,
                                        );
                                        items_end = p.pos();
                                    }
                                }
                            },
                            Err(e) => {
                                let ghost m = p.pos();
                                errors.push(e);
                                p.synchronize();
                                proof {
                                    assert(p.pos() > before_p.pos());
                                    lemma_errors_after_failure(start.toks(), before_p.pos(), m, e);
                                    assert(errors@.skip(errs0.len() as int) =~= seq![e]);
                                }
                            },
                        }
                    }
                },
                TokenKind::Contract | TokenKind::Fn | TokenKind::Enumeration => {
                    match p.parse_declaration() {
                        Ok(d) => {
                            let ghost before = declarations@;
                            declarations.push(d);
                            proof {
                                assert(spells_decl(start.toks(), before_p.pos(), p.pos(), d));
                                lemma_errors_after_item(start.toks(), before_p.pos(), p.pos());
                                assert(errors@.skip(errs0.len() as int) =~= Seq::<ParseError>::empty());
                                assert forall|rest: Seq<ParseError>| #[trigger] parse_errors_from(start.toks(), p.pos(), rest) implies parse_errors_from(start.toks(), before_p.pos(), errors@.skip(errs0.len() as int) + rest) by {
                                    assert(errors@.skip(errs0.len() as int) + rest =~= rest);
                                }
                            }
                            proof {
                                assert forall|k: int| 0 <= k < declarations@.len() implies decl_grouped(#[trigger] declarations@[k]) by {
                                    if k < before.len() {
                                        assert(declarations@[k] == before[k]);
                                    }
                                }
                                if errors@.len() == 0 {
                                    lemma_spells_items_decl(
                                        p.toks(),
                                        start.pos(),
                                        items_end,
                                        before_p.pos(),
                                        p.pos(),
                                        dirs0,
                                        reqs0,
                                        decls0,
                                        d,
                                    );
                                    items_end = p.pos();
                                }
                            }
                        },
                        Err(e) => {
                            let ghost m = p.pos();
                            errors.push(e);
                            p.synchronize();
                            proof {
                                assert(p.pos() > before_p.pos());
                                lemma_errors_after_failure(start.toks(), before_p.pos(), m, e);
                                assert(errors@.skip(errs0.len() as int) =~= seq![e]);
                            }
                        },
                    }
                },
                TokenKind::Comment(_) => {
                    p.advance();
                    proof {
                        assert(errors@.skip(errs0.len() as int) =~= Seq::<ParseError>::empty());
                        assert forall|rest: Seq<ParseError>| #[trigger] parse_errors_from(start.toks(), p.pos(), rest) implies parse_errors_from(start.toks(), before_p.pos(), errors@.skip(errs0.len() as int) + rest) by {
                            assert(errors@.skip(errs0.len() as int) + rest =~= rest);
                        }
                    }
                },
                _ => {
                    let token = p.peek().lexeme.clone();
                    let span = p.current_span();
                    p.advance();
                    errors.push(ParseError::UnexpectedToken { token, span });
                    proof {
                        let e = ParseError::UnexpectedToken { token, span };
                        assert(errors@.skip(errs0.len() as int) =~= seq![e]);
                        assert forall|rest: Seq<ParseError>| #[trigger] parse_errors_from(start.toks(), p.pos(), rest) implies parse_errors_from(start.toks(), before_p.pos(), errors@.skip(errs0.len() as int) + rest) by {
                            let es = seq![e] + rest;
                            assert(es[0] == e);
                            assert(es.drop_first() =~= rest);
                        }
                    }
                },
            }
            assert(p.pos() > before_p.pos());
            proof {
                lemma_errors_extend(start.toks(), start.pos(), before_p.pos(), p.pos(), errs0, errors@.skip(errs0.len() as int));
                assert(errs0 + errors@.skip(errs0.len() as int) =~= errors@);
            }
        }
        proof {
            lemma_comments_end(p.toks(), p.pos());
            if errors@.len() == 0 {
                assert(program_end(p.toks(), items_end, p.pos()));
            }
            assert(parse_errors_from(start.toks(), p.pos(), Seq::<ParseError>::empty()));
            assert(errors@ + Seq::<ParseError>::empty() =~= errors@);
            assert forall|k: int| #![trigger plain_prefix(start.toks(), start.pos(), k)]
                plain_prefix(start.toks(), start.pos(), k) && item_fails_at(start.toks(), k) implies errors@.len() > 0
                    && errors@[0] == item_error(start.toks(), k) && (start.toks()[k].kind is Contract && k + 2
                    == start.toks().len() ==> errors@.len() == 1) by {
                assert(has);
                lemma_prefix_unique(start.toks(), start.pos(), k, kk);
                if p.pos() <= kk && errors@.len() == 0 {
                    assert(p.next_kind() is EOF);
                    assert(!(p.toks()[p.pos()].kind is Comment));
                }
            }
        }
        if errors.len() == 0 {
            Ok(Program { module_directives, require_statements, declarations })
        } else {
            Err(errors)
        }
    }

    /// `#![path::to::key(value)]`, the value a string literal or a name.
    fn parse_module_directive(&mut self) -> (r: Result<ModuleDirective, ParseError>)
        requires
            old(self).wf(),
        ensures
            r matches Err(e) ==> fails_at(old(self).toks(), old(self).pos(), final(self).pos(), e),
            final(self).kept(old(self)),
            old(self).next_kind() is HashBang ==> final(self).moved(old(self)),
            r matches Ok(d) ==> {
                let t = final(self).toks();
                let end = final(self).pos();
                &&& old(self).next_kind() is HashBang
                &&& d.span == t[old(self).pos()].span
                &&& d.path@.len() > 0
                &&& t[old(self).pos() + 2].kind == TokenKind::Ident(d.path@[0])
                &&& t[end - 1].kind is RBracket
                &&& t[end - 2].kind is RParen
                &&& (t[end - 3].kind == TokenKind::LitString(d.value) || t[end - 3].kind == TokenKind::Ident(d.value))
            },
            r matches Ok(d) ==> spells_directive(old(self).toks(), old(self).pos(), final(self).pos(), d),
            directive_end(old(self).toks(), old(self).pos()) matches Some(e) ==> (r is Ok && final(self).pos() == e),
    {
        let span = self.current_span();
        self.expect(TokenKind::HashBang)?;
        self.expect(TokenKind::LBracket)?;
        let mut path: Vec<String> = Vec::new();
        let first = self.expect_identifier()?;
        path.push(first);
        proof {
            assert(path@[0] == first);
        }
        while self.check(&TokenKind::ColonColon)
            invariant
                self.moved(old(self)),
                path@.len() > 0,
                self.toks()[old(self).pos() + 2].kind == TokenKind::Ident(path@[0]),
                directive_end(old(self).toks(), old(self).pos()) is Some ==> ident_path_end(old(self).toks(), self.pos() - 1) == ident_path_end(old(self).toks(), old(self).pos() + 2),
                spells_idents_sep(self.toks(), old(self).pos() + 2, self.pos(), path@, TokenKind::ColonColon),
            decreases self.remaining(),
        {
            let ghost k = self.pos();
            proof {
                if directive_end(old(self).toks(), old(self).pos()) is Some {
                    assert(ident_path_end(old(self).toks(), self.pos() - 1) == ident_path_end(old(self).toks(), self.pos() + 1));
                }
            }
            self.advance();
            let seg = self.expect_identifier()?;
            let ghost before = path@;
            path.push(seg);
            proof {
                lemma_spells_idents_push(self.toks(), old(self).pos() + 2, k, before, seg, TokenKind::ColonColon);
                assert(path@[0] == before[0]);
            }
        }
        let ghost lp = self.pos();
        proof {
            lemma_idents_sep_start(self.toks(), old(self).pos() + 2, lp, path@, TokenKind::ColonColon);
        }
        self.expect(TokenKind::LParen)?;
        let ghost at_value = self.pos();
        let value = match self.try_string_literal() {
            Some(v) => v,
            None => self.expect_identifier()?,
        };
        let ghost rp = self.pos();
        self.expect(TokenKind::RParen)?;
        let ghost rb = self.pos();
        self.expect(TokenKind::RBracket)?;
        assert(self.pos() - 3 == at_value);
        proof {
            let ts = self.toks();
            let i = old(self).pos();
            crate::token::lemma_same_tag_dataless(ts[i].kind, TokenKind::HashBang);
            crate::token::lemma_same_tag_dataless(ts[i + 1].kind, TokenKind::LBracket);
            crate::token::lemma_same_tag_dataless(ts[lp].kind, TokenKind::LParen);
            crate::token::lemma_same_tag_dataless(ts[rp].kind, TokenKind::RParen);
            crate::token::lemma_same_tag_dataless(ts[rb].kind, TokenKind::RBracket);
        }
        Ok(ModuleDirective { path, value, span })
    }

    /// `@require a::b::{ X, Y };` (a trailing `::` before `{` and a
    /// trailing comma are allowed).
    fn parse_require_statement(&mut self) -> (r: Result<RequireStatement, ParseError>)
        requires
            old(self).wf(),
        ensures
            r matches Err(e) ==> fails_at(old(self).toks(), old(self).pos(), final(self).pos(), e),
            final(self).kept(old(self)),
            old(self).next_kind() is At ==> final(self).moved(old(self)),
            r matches Ok(req) ==> {
                let t = final(self).toks();
                let end = final(self).pos();
                &&& old(self).next_kind() is At
                &&& t[old(self).pos() + 1].kind is Ident && t[old(self).pos() + 1].kind->Ident_0@ == "require"@
                &&& req.span == t[old(self).pos()].span
                &&& req.module_segments@.len() > 0
                &&& names(t[old(self).pos() + 2], req.module_segments@[0])
                &&& t[end - 1].kind is Semicolon
                &&& t[end - 2].kind is RBrace
            },
            r matches Ok(req) ==> spells_require(old(self).toks(), old(self).pos(), final(self).pos(), req),
            require_end(old(self).toks(), old(self).pos()) matches Some(e) ==> (r is Ok && final(self).pos() == e),
    {
        let span = self.current_span();
        self.expect(TokenKind::At)?;
        proof {
            reveal_strlit("require");
            reveal_strlit("else");
            assert("require"@.len() != "else"@.len());
        }
        self.expect_ident_matching("require")?;
        let mut module_segments: Vec<String> = Vec::new();
        let first = self.expect_any_identifier()?;
        module_segments.push(first);
        proof {
            assert(module_segments@[0] == first);
        }
        let ghost mut seg_end = self.pos();
        while self.check(&TokenKind::ColonColon)
            invariant
                self.moved(old(self)),
                module_segments@.len() > 0,
                names(self.toks()[old(self).pos() + 2], module_segments@[0]),
                old(self).pos() + 3 <= seg_end < self.toks().len(),
                spells_names_sep(self.toks(), old(self).pos() + 2, seg_end, module_segments@, TokenKind::ColonColon),
                self.pos() == seg_end || (self.pos() == seg_end + 1 && self.toks()[seg_end].kind is ColonColon
                    && self.next_kind() is LBrace),
                require_end(old(self).toks(), old(self).pos()) is Some ==> module_path_end(old(self).toks(), seg_end - 1) == module_path_end(old(self).toks(), old(self).pos() + 2),
                require_end(old(self).toks(), old(self).pos()) is Some ==> module_path_end(old(self).toks(), old(self).pos() + 2) is Some,
                require_end(old(self).toks(), old(self).pos()) is Some && self.pos() == seg_end + 1 ==> module_path_end(old(self).toks(), old(self).pos() + 2) == Some(
                    self.pos(),
                ),
            ensures
                !(self.next_kind() is ColonColon),
            decreases self.remaining(),
        {
            let ghost k = self.pos();
            self.advance();
            if self.check(&TokenKind::LBrace) {
                break;
            }
            proof {
                if require_end(old(self).toks(), old(self).pos()) is Some {
                    assert(module_path_end(old(self).toks(), k - 1) == module_path_end(old(self).toks(), k + 1));
                }
            }
            let seg = self.expect_any_identifier()?;
            let ghost before = module_segments@;
            module_segments.push(seg);
            proof {
                lemma_spells_names_push(self.toks(), old(self).pos() + 2, k, before, seg, TokenKind::ColonColon);
                assert(module_segments@[0] == before[0]);
                seg_end = self.pos();
            }
        }
        let ghost a = self.pos();
        proof {
            if require_end(old(self).toks(), old(self).pos()) is Some {
                assert(module_path_end(old(self).toks(), old(self).pos() + 2) == Some(a));
            }
        }
        self.expect(TokenKind::LBrace)?;
        let mut imports: Vec<String> = Vec::new();
        let ghost mut imp_end = self.pos();
        if !self.check(&TokenKind::RBrace) {
            let first_import = self.expect_any_identifier()?;
            imports.push(first_import);
            proof {
                assert(imports@[0] == first_import);
                imp_end = self.pos();
            }
            while self.check(&TokenKind::Comma)
                invariant
                    self.moved(old(self)),
                    imports@.len() > 0,
                    a + 2 <= imp_end < self.toks().len(),
                    spells_names_sep(self.toks(), a + 1, imp_end, imports@, TokenKind::Comma),
                    self.pos() == imp_end || (self.pos() == imp_end + 1 && self.toks()[imp_end].kind is Comma
                        && self.next_kind() is RBrace),
                    require_end(old(self).toks(), old(self).pos()) is Some ==> module_path_end(old(self).toks(), old(self).pos() + 2) == Some(a),
                    require_end(old(self).toks(), old(self).pos()) is Some ==> !(old(self).toks()[a + 1].kind is RBrace),
                    require_end(old(self).toks(), old(self).pos()) is Some ==> import_names_end(old(self).toks(), imp_end - 1) == import_names_end(old(self).toks(), a + 1),
                    require_end(old(self).toks(), old(self).pos()) is Some ==> import_names_end(old(self).toks(), a + 1) is Some,
                    require_end(old(self).toks(), old(self).pos()) is Some && self.pos() == imp_end + 1 ==> import_names_end(old(self).toks(), a + 1) == Some(
                        self.pos(),
                    ),
                ensures
                    !(self.next_kind() is Comma),
                decreases self.remaining(),
            {
                let ghost k = self.pos();
                self.advance();
                if self.check(&TokenKind::RBrace) {
                    break;
                }
                proof {
                    if require_end(old(self).toks(), old(self).pos()) is Some {
                        assert(import_names_end(old(self).toks(), k - 1) == import_names_end(old(self).toks(), k + 1));
                    }
                }
                let name = self.expect_any_identifier()?;
                let ghost before = imports@;
                imports.push(name);
                proof {
                    lemma_spells_names_push(self.toks(), a + 1, k, before, name, TokenKind::Comma);
                    imp_end = self.pos();
                }
            }
        }
        let ghost at_close = self.pos();
        self.expect(TokenKind::RBrace)?;
        self.expect(TokenKind::Semicolon)?;
        assert(self.pos() - 2 == at_close);
        proof {
            let ts = self.toks();
            let i = old(self).pos();
            crate::token::lemma_same_tag_dataless(ts[i].kind, TokenKind::At);
            crate::token::lemma_same_tag_dataless(ts[a].kind, TokenKind::LBrace);
            crate::token::lemma_same_tag_dataless(ts[at_close].kind, TokenKind::RBrace);
            crate::token::lemma_same_tag_dataless(ts[at_close + 1].kind, TokenKind::Semicolon);
            assert(ts[a].kind is LBrace);
        }
        Ok(RequireStatement { module_segments, imports, span })
    }

    /// Annotations, then a contract, function or enumeration. The
    /// annotations of a contract are read and not kept.
    #[verifier::spinoff_prover]
    fn parse_declaration(&mut self) -> (r: Result<Declaration, ParseError>)
        requires
            old(self).wf(),
        ensures
            r matches Err(e) ==> fails_at(old(self).toks(), old(self).pos(), final(self).pos(), e),
            final(self).kept(old(self)),
            (old(self).next_kind() is At || old(self).next_kind() is Contract || old(self).next_kind() is Fn
                || old(self).next_kind() is Enumeration) ==> final(self).moved(old(self)),
            r is Ok ==> final(self).moved(old(self)),
            old(self).next_kind() is Contract ==> (r is Ok ==> r->Ok_0 is Contract),
            old(self).next_kind() is Fn ==> (r is Ok ==> r->Ok_0 is Function),
            old(self).next_kind() is Enumeration ==> (r is Ok ==> r->Ok_0 is Enumeration),
            r matches Ok(d) ==> decl_grouped(d),
            !(old(self).next_kind() is At || old(self).next_kind() is Contract || old(self).next_kind() is Fn
                || old(self).next_kind() is Enumeration) ==> (r matches Err(e) && e == (ParseError::UnexpectedToken {
                token: old(self).toks()[old(self).pos()].lexeme,
                span: old(self).toks()[old(self).pos()].span,
            })),
            r matches Ok(d) ==> spells_decl(old(self).toks(), old(self).pos(), final(self).pos(), d),
            plain_decl_end(old(self).toks(), old(self).pos()) matches Some(e) ==> (r is Ok && final(self).pos() == e),
            old(self).next_kind() is Contract && !(old(self).toks()[old(self).pos() + 1].kind is Ident) ==> r == Err::<Declaration, ParseError>(
                ParseError::ExpectedIdentifier { found: old(self).toks()[old(self).pos() + 1].lexeme, span: old(self).toks()[old(self).pos() + 1].span },
            ) && final(self).pos() == old(self).pos() + 1,
    {
        let annotations = self.parse_annotations()?;
        let ghost k = self.pos();
        match &self.tokens[self.current].kind {
            TokenKind::Contract => {
                let c = self.parse_contract()?;
                proof {
                    assert(annotations_at(self.toks(), old(self).pos(), k, annotations@));
                }
                Ok(Declaration::Contract(c))
            },
            TokenKind::Fn => {
                let f = self.parse_function(annotations)?;
                Ok(Declaration::Function(f))
            },
            TokenKind::Enumeration => {
                let e = self.parse_enumeration()?;
                proof {
                    assert(annotations_at(self.toks(), old(self).pos(), k, annotations@));
                }
                Ok(Declaration::Enumeration(e))
            },
            _ => {
                let token = self.peek().lexeme.clone();
                let span = self.current_span();
                self.advance();
                Err(ParseError::UnexpectedToken { token, span })
            },
        }
    }

    /// `@name` and `@name(args)` annotations, stopping before `@require`.
    fn parse_annotations(&mut self) -> (r: Result<Vec<Annotation>, ParseError>)
        requires
            old(self).wf(),
        ensures
            r matches Err(e) ==> fails_at(old(self).toks(), old(self).pos(), final(self).pos(), e),
            final(self).kept(old(self)),
            !(old(self).next_kind() is At) ==> (r matches Ok(v) && v@.len() == 0 && final(self).pos() == old(self).pos()),
            old(self).next_kind() is At && !old(self).next_is_require_spec() ==> final(self).moved(old(self)),
            r is Ok ==> !(final(self).next_kind() is At) || final(self).next_is_require_spec(),
            r is Err ==> final(self).moved(old(self)),
            r matches Ok(v) ==> spells_annotations(old(self).toks(), old(self).pos(), final(self).pos(), v@),
            plain_annotations_end(old(self).toks(), old(self).pos()) matches Some(e) ==> (r is Ok && final(self).pos() == e),
    {
        let mut annotations: Vec<Annotation> = Vec::new();
        while self.check(&TokenKind::At) && !self.next_is_require()
            invariant
                self.kept(old(self)),
                self.pos() == old(self).pos() ==> annotations@.len() == 0,
                !(old(self).next_kind() is At) ==> self.pos() == old(self).pos(),
                old(self).next_kind() is At && !old(self).next_is_require_spec() && self.pos() == old(self).pos()
                    ==> self.next_kind() is At && !self.next_is_require_spec(),
                spells_annotations(self.toks(), old(self).pos(), self.pos(), annotations@),
                plain_annotations_end(old(self).toks(), old(self).pos()) is Some ==> plain_annotations_end(old(self).toks(), self.pos()) == plain_annotations_end(old(self).toks(), old(self).pos()),
            decreases self.remaining(),
        {
            let ghost k = self.pos();
            let a = self.parse_single_annotation()?;
            let ghost before = annotations@;
            annotations.push(a);
            proof {
                lemma_spells_annotations_push(self.toks(), old(self).pos(), k, self.pos(), before, a);
            }
        }
        Ok(annotations)
    }

    /// `@name` or `@name(arg, ...)`.
    fn parse_single_annotation(&mut self) -> (r: Result<Annotation, ParseError>)
        requires
            old(self).wf(),
        ensures
            r matches Err(e) ==> fails_at(old(self).toks(), old(self).pos(), final(self).pos(), e),
            final(self).kept(old(self)),
            old(self).next_kind() is At ==> final(self).moved(old(self)),
            r matches Ok(a) ==> {
                &&& old(self).next_kind() is At
                &&& a.span == old(self).toks()[old(self).pos()].span
                &&& old(self).toks()[old(self).pos() + 1].kind == TokenKind::Ident(a.name)
            },
            r matches Ok(a) ==> spells_annotation(old(self).toks(), old(self).pos(), final(self).pos(), a),
            plain_annotation_end(old(self).toks(), old(self).pos()) matches Some(e) ==> (r is Ok && final(self).pos() == e),
    {
        let span = self.current_span();
        self.expect(TokenKind::At)?;
        let name = self.expect_identifier()?;
        let mut args: Vec<Expr> = Vec::new();
        if self.check(&TokenKind::LParen) {
            self.advance();
            let ghost list_start = self.pos();
            if !self.check(&TokenKind::RParen) {
                let first = self.parse_expression()?;
                args.push(first);
                proof {
                    assert(args@[0] == first);
                }
                let ghost mut sep_end = self.pos();
                while self.check(&TokenKind::Comma)
                    invariant
                        self.moved(old(self)),
                        args@.len() > 0,
                        0 <= list_start < sep_end < self.toks().len(),
                        spells_exprs_sep(self.toks(), list_start, sep_end, args@),
                        self.pos() == sep_end || (self.pos() == sep_end + 1 && self.toks()[sep_end].kind is Comma
                            && self.next_kind() is RParen),
                        list_start == old(self).pos() + 3,
                        plain_annotation_end(old(self).toks(), old(self).pos()) is Some ==> after_expr(old(self).toks(), self.pos()) == exprs_end(old(self).toks(), old(self).pos() + 3),
                        plain_annotation_end(old(self).toks(), old(self).pos()) is Some ==> exprs_end(old(self).toks(), old(self).pos() + 3) is Some,
                    ensures
                        !(self.next_kind() is Comma),
                    decreases self.remaining(),
                {
                    let ghost k = self.pos();
                    self.advance();
                    if self.check(&TokenKind::RParen) {
                        break;
                    }
                    let a = self.parse_expression()?;
                    let ghost before = args@;
                    args.push(a);
                    proof {
                        lemma_spells_exprs_push(self.toks(), list_start, k, self.pos(), before, a);
                        sep_end = self.pos();
                    }
                }
            }
            proof {
                lemma_exprs_end(old(self).toks(), old(self).pos() + 3);
            }
            let ghost rp = self.pos();
            self.expect(TokenKind::RParen)?;
            proof {
                crate::token::lemma_same_tag_dataless(self.toks()[rp].kind, TokenKind::RParen);
            }
        }
        Ok(Annotation { name, args, span })
    }

    /// `:: Name, Name, ...` after a contract or enumeration name, if present.
    fn parse_trait_list(&mut self) -> (r: Result<Vec<String>, ParseError>)
        requires
            old(self).wf(),
        ensures
            r matches Err(e) ==> fails_at(old(self).toks(), old(self).pos(), final(self).pos(), e),
            final(self).kept(old(self)),
            r matches Ok(v) ==> (v@.len() > 0 <==> old(self).next_kind() is ColonColon),
            !(old(self).next_kind() is ColonColon) ==> r is Ok && final(self).pos() == old(self).pos(),
            r matches Ok(v) ==> spells_traits(old(self).toks(), old(self).pos(), final(self).pos(), v@),
            plain_traits_end(old(self).toks(), old(self).pos()) matches Some(e) ==> (r is Ok && final(self).pos() == e),
    {
        let mut traits: Vec<String> = Vec::new();
        if self.check(&TokenKind::ColonColon) {
            self.advance();
            let first = self.expect_identifier()?;
            traits.push(first);
            proof {
                assert(traits@[0] == first);
            }
            while self.check(&TokenKind::Comma)
                invariant
                    self.moved(old(self)),
                    traits@.len() > 0,
                    old(self).next_kind() is ColonColon,
                    spells_idents_sep(self.toks(), old(self).pos() + 1, self.pos(), traits@, TokenKind::Comma),
                    plain_traits_end(old(self).toks(), old(self).pos()) is Some ==> idents_comma_end(old(self).toks(), self.pos() - 1) == idents_comma_end(old(self).toks(), old(self).pos() + 1),
                decreases self.remaining(),
            {
                let ghost k = self.pos();
                self.advance();
                proof {
                    if plain_traits_end(old(self).toks(), old(self).pos()) is Some {
                        assert(idents_comma_end(old(self).toks(), k - 1) == idents_comma_end(old(self).toks(), k + 1));
                    }
                }
                let t = self.expect_identifier()?;
                let ghost before = traits@;
                traits.push(t);
                proof {
                    lemma_spells_idents_push(self.toks(), old(self).pos() + 1, k, before, t, TokenKind::Comma);
                }
            }
        }
        Ok(traits)
    }

    /// `contract Name [:: Trait, ...] { field ... fn ... }`
    #[verifier::spinoff_prover]
    #[verifier::rlimit(60)]
    fn parse_contract(&mut self) -> (r: Result<ContractDecl, ParseError>)
        requires
            old(self).wf(),
        ensures
            r matches Err(e) ==> fails_at(old(self).toks(), old(self).pos(), final(self).pos(), e),
            final(self).kept(old(self)),
            old(self).next_kind() is Contract ==> final(self).moved(old(self)),
            r matches Ok(c) ==> {
                let t = final(self).toks();
                &&& old(self).next_kind() is Contract
                &&& c.span == t[old(self).pos()].span
                &&& t[old(self).pos() + 1].kind == TokenKind::Ident(c.name)
                &&& (c.traits@.len() > 0 <==> t[old(self).pos() + 2].kind is ColonColon)
                &&& t[final(self).pos() - 1].kind is RBrace
                &&& decl_grouped(Declaration::Contract(c))
            },
            r matches Ok(c) ==> spells_contract(old(self).toks(), old(self).pos(), final(self).pos(), c),
            plain_contract_end(old(self).toks(), old(self).pos()) matches Some(e) ==> (r is Ok && final(self).pos() == e),
            old(self).next_kind() is Contract && !(old(self).toks()[old(self).pos() + 1].kind is Ident) ==> r == Err::<ContractDecl, ParseError>(
                ParseError::ExpectedIdentifier { found: old(self).toks()[old(self).pos() + 1].lexeme, span: old(self).toks()[old(self).pos() + 1].span },
            ) && final(self).pos() == old(self).pos() + 1,
    {
        let span = self.current_span();
        self.expect(TokenKind::Contract)?;
        let name = self.expect_identifier()?;
        let traits = self.parse_trait_list()?;
        let ghost t = self.pos();
        self.expect(TokenKind::LBrace)?;
        proof {
            crate::token::lemma_same_tag_dataless(self.toks()[t].kind, TokenKind::LBrace);
        }
        let mut members: Vec<ContractMember> = Vec::new();
        let ghost mut mem_end = self.pos();
        while !self.check(&TokenKind::RBrace) && !self.is_at_end()
            invariant
                self.moved(old(self)),
                forall|j: int| 0 <= j < members@.len() ==> (#[trigger] members@[j] matches ContractMember::Method(m)
                    ==> block_grouped(m.body@)),
                t + 1 <= mem_end <= self.pos(),
                spells_members(self.toks(), t + 1, mem_end, members@),
                comments_only(self.toks(), mem_end, self.pos()),
                old(self).toks()[old(self).pos() + 1].kind is Ident,
                plain_contract_end(old(self).toks(), old(self).pos()) is Some ==> plain_traits_end(old(self).toks(), old(self).pos() + 2) == Some(t),
                plain_contract_end(old(self).toks(), old(self).pos()) is Some ==> plain_members_end(old(self).toks(), self.pos()) == plain_members_end(old(self).toks(), t + 1),
                plain_contract_end(old(self).toks(), old(self).pos()) is Some ==> plain_members_end(old(self).toks(), t + 1) is Some,
            ensures
                self.next_kind() is RBrace || self.next_kind() is EOF,
            decreases self.remaining(),
        {
            let ghost p0 = self.pos();
            self.skip_comments();
            proof {
                lemma_comments_end(self.toks(), p0);
                lemma_comments_join(self.toks(), mem_end, p0, self.pos());
                let ce = self.pos();
                assert(comments_end(self.toks(), ce) == ce);
                if plain_contract_end(old(self).toks(), old(self).pos()) is Some {
                    assert(plain_members_end(old(self).toks(), p0) == plain_members_end(old(self).toks(), ce));
                }
            }
            if self.check(&TokenKind::RBrace) {
                break;
            }
            let ghost p1 = self.pos();
            let annotations = self.parse_annotations()?;
            let ghost n = self.pos();
            let ghost before = members@;
            match &self.tokens[self.current].kind {
                TokenKind::Field => {
                    let f = self.parse_field(annotations)?;
                    members.push(ContractMember::Field(f));
                    proof {
                        assert(spells_member(self.toks(), p1, self.pos(), ContractMember::Field(f)));
                        lemma_spells_members_push(self.toks(), t + 1, mem_end, p1, self.pos(), before, ContractMember::Field(f));
                        mem_end = self.pos();
                    }
                },
                TokenKind::Fn => {
                    let m = self.parse_function(annotations)?;
                    members.push(ContractMember::Method(m));
                    proof {
                        assert(spells_member(self.toks(), p1, self.pos(), ContractMember::Method(m)));
                        lemma_spells_members_push(self.toks(), t + 1, mem_end, p1, self.pos(), before, ContractMember::Method(m));
                        mem_end = self.pos();
                    }
                },
                _ => {
                    let token = self.peek().lexeme.clone();
                    let tspan = self.current_span();
                    self.advance();
                    return Err(ParseError::UnexpectedToken { token, span: tspan });
                },
            }
        }
        let ghost at_close = self.pos();
        self.expect(TokenKind::RBrace)?;
        assert(self.toks()[self.pos() - 1] == self.toks()[at_close]);
        proof {
            crate::token::lemma_same_tag_dataless(self.toks()[old(self).pos()].kind, TokenKind::Contract);
            crate::token::lemma_same_tag_dataless(self.toks()[at_close].kind, TokenKind::RBrace);
            assert(block_split(self.toks(), t, mem_end, self.pos()));
        }
        Ok(ContractDecl { name, traits, members, span })
    }

    /// `field name: Type;`
    fn parse_field(&mut self, annotations: Vec<Annotation>) -> (r: Result<FieldDecl, ParseError>)
        requires
            old(self).wf(),
        ensures
            r matches Err(e) ==> fails_at(old(self).toks(), old(self).pos(), final(self).pos(), e),
            final(self).kept(old(self)),
            old(self).next_kind() is Field ==> final(self).moved(old(self)),
            r matches Ok(f) ==> {
                &&& old(self).next_kind() is Field
                &&& f.annotations == annotations
                &&& f.span == old(self).toks()[old(self).pos()].span
                &&& old(self).toks()[old(self).pos() + 1].kind == TokenKind::Ident(f.name)
            },
            r matches Ok(f) ==> spells_field_decl(old(self).toks(), old(self).pos(), final(self).pos(), f),
            plain_field_end(old(self).toks(), old(self).pos()) matches Some(e) ==> (r is Ok && final(self).pos() == e),
    {
        let span = self.current_span();
        self.expect(TokenKind::Field)?;
        let name = self.expect_identifier()?;
        self.expect(TokenKind::Colon)?;
        let type_expr = self.parse_type_expr()?;
        let ghost sc = self.pos();
        self.expect(TokenKind::Semicolon)?;
        proof {
            crate::token::lemma_same_tag_dataless(self.toks()[old(self).pos()].kind, TokenKind::Field);
            crate::token::lemma_same_tag_dataless(self.toks()[old(self).pos() + 2].kind, TokenKind::Colon);
            crate::token::lemma_same_tag_dataless(self.toks()[sc].kind, TokenKind::Semicolon);
        }
        Ok(FieldDecl { annotations, name, type_expr, span })
    }

    /// `fn name(params) -> Type { ... }`
    #[verifier::spinoff_prover]
    #[verifier::rlimit(40)]
    fn parse_function(&mut self, annotations: Vec<Annotation>) -> (r: Result<FnDecl, ParseError>)
        requires
            old(self).wf(),
        ensures
            r matches Err(e) ==> fails_at(old(self).toks(), old(self).pos(), final(self).pos(), e),
            final(self).kept(old(self)),
            old(self).next_kind() is Fn ==> final(self).moved(old(self)),
            r matches Ok(f) ==> {
                &&& old(self).next_kind() is Fn
                &&& f.annotations == annotations
                &&& f.span == old(self).toks()[old(self).pos()].span
                &&& old(self).toks()[old(self).pos() + 1].kind == TokenKind::Ident(f.name)
                &&& (f.params@.len() == 0 <==> old(self).toks()[old(self).pos() + 3].kind is RParen)
                &&& block_grouped(f.body@)
            },
            r matches Ok(f) ==> spells_function(old(self).toks(), old(self).pos(), final(self).pos(), f),
            plain_fn_end(old(self).toks(), old(self).pos()) matches Some(e) ==> (r is Ok && final(self).pos() == e),
    {
        let span = self.current_span();
        self.expect(TokenKind::Fn)?;
        let name = self.expect_identifier()?;
        self.expect(TokenKind::LParen)?;
        let params = self.parse_param_list()?;
        let ghost a = self.pos();
        proof {
            lemma_params_end(old(self).toks(), old(self).pos() + 3);
        }
        self.expect(TokenKind::RParen)?;
        self.expect(TokenKind::Arrow)?;
        let return_type = self.parse_type_expr()?;
        let ghost b = self.pos();
        let body = self.parse_block()?;
        proof {
            let ts = self.toks();
            let i = old(self).pos();
            crate::token::lemma_same_tag_dataless(ts[i].kind, TokenKind::Fn);
            crate::token::lemma_same_tag_dataless(ts[i + 2].kind, TokenKind::LParen);
            crate::token::lemma_same_tag_dataless(ts[a].kind, TokenKind::RParen);
            crate::token::lemma_same_tag_dataless(ts[a + 1].kind, TokenKind::Arrow);
            assert(ts[b].kind is LBrace);
        }
        Ok(FnDecl { annotations, name, params, return_type, body, span })
    }

    /// Reads annotations before a parameter; they are not kept.
    fn skip_param_annotations(&mut self) -> (r: Result<(), ParseError>)
        requires
            old(self).wf(),
        ensures
            r matches Err(e) ==> fails_at(old(self).toks(), old(self).pos(), final(self).pos(), e),
            final(self).kept(old(self)),
            !(old(self).next_kind() is At) ==> r is Ok && final(self).pos() == old(self).pos(),
            r is Ok ==> !(final(self).next_kind() is At),
            r is Ok && old(self).next_kind() is At ==> final(self).moved(old(self)),
            r is Ok ==> exists|anns: Seq<Annotation>|
                #[trigger] annotations_at(old(self).toks(), old(self).pos(), final(self).pos(), anns),
    {
        let ghost mut anns: Seq<Annotation> = Seq::empty();
        while self.check(&TokenKind::At)
            invariant
                self.kept(old(self)),
                old(self).next_kind() is At && self.pos() == old(self).pos() ==> self.next_kind() is At,
                !(old(self).next_kind() is At) ==> self.pos() == old(self).pos(),
                spells_annotations(self.toks(), old(self).pos(), self.pos(), anns),
            decreases self.remaining(),
        {
            let ghost k = self.pos();
            let a = self.parse_single_annotation()?;
            proof {
                lemma_spells_annotations_push(self.toks(), old(self).pos(), k, self.pos(), anns, a);
                anns = anns.push(a);
            }
        }
        proof {
            assert(annotations_at(old(self).toks(), old(self).pos(), self.pos(), anns));
        }
        Ok(())
    }

    /// Parameters up to the closing `)` (not read).
    fn parse_param_list(&mut self) -> (r: Result<Vec<Param>, ParseError>)
        requires
            old(self).wf(),
        ensures
            r matches Err(e) ==> fails_at(old(self).toks(), old(self).pos(), final(self).pos(), e),
            final(self).kept(old(self)),
            old(self).next_kind() is RParen ==> (r matches Ok(v) && v@.len() == 0 && final(self).pos() == old(self).pos()),
            r matches Ok(v) ==> (v@.len() == 0 ==> old(self).next_kind() is RParen),
            r matches Ok(v) ==> spells_params_list(old(self).toks(), old(self).pos(), final(self).pos(), v@),
            plain_params_end(old(self).toks(), old(self).pos()) matches Some(e) ==> (r is Ok && final(self).pos() == e),
    {
        let mut params: Vec<Param> = Vec::new();
        if self.check(&TokenKind::RParen) {
            return Ok(params);
        }
        self.skip_param_annotations()?;
        let ghost k0 = self.pos();
        let first = self.parse_single_param()?;
        params.push(first);
        proof {
            let anns = choose|anns: Seq<Annotation>| #[trigger] annotations_at(self.toks(), old(self).pos(), k0, anns);
            lemma_spells_param(self.toks(), old(self).pos(), k0, self.pos(), anns, first);
            assert(params@[0] == first);
        }
        let ghost mut sep_end = self.pos();
        while self.check(&TokenKind::Comma)
            invariant
                self.moved(old(self)),
                params@.len() > 0,
                !(old(self).next_kind() is RParen),
                old(self).pos() < sep_end < self.toks().len(),
                spells_params_sep(self.toks(), old(self).pos(), sep_end, params@),
                self.pos() == sep_end || (self.pos() == sep_end + 1 && self.toks()[sep_end].kind is Comma
                    && self.next_kind() is RParen),
                plain_params_end(old(self).toks(), old(self).pos()) is Some ==> after_param(old(self).toks(), self.pos()) == plain_params_end(old(self).toks(), old(self).pos()),
            ensures
                !(self.next_kind() is Comma),
            decreases self.remaining(),
        {
            let ghost k = self.pos();
            self.advance();
            if self.check(&TokenKind::RParen) {
                break;
            }
            self.skip_param_annotations()?;
            let ghost k1 = self.pos();
            let p = self.parse_single_param()?;
            let ghost before = params@;
            params.push(p);
            proof {
                let anns = choose|anns: Seq<Annotation>| #[trigger] annotations_at(self.toks(), k + 1, k1, anns);
                lemma_spells_param(self.toks(), k + 1, k1, self.pos(), anns, p);
                lemma_spells_params_push(self.toks(), old(self).pos(), k, self.pos(), before, p);
                sep_end = self.pos();
            }
        }
        Ok(params)
    }

    /// `name: Type` (the name may be a type keyword).
    fn parse_single_param(&mut self) -> (r: Result<Param, ParseError>)
        requires
            old(self).wf(),
        ensures
            r matches Err(e) ==> fails_at(old(self).toks(), old(self).pos(), final(self).pos(), e),
            final(self).kept(old(self)),
            r matches Ok(p) ==> {
                &&& final(self).moved(old(self))
                &&& p.span == old(self).toks()[old(self).pos()].span
                &&& names(old(self).toks()[old(self).pos()], p.name)
                &&& old(self).toks()[old(self).pos() + 1].kind is Colon
                &&& old(self).pos() + 2 < final(self).pos()
                &&& spells_type(old(self).toks(), old(self).pos() + 2, final(self).pos(), p.type_expr)
            },
            (old(self).next_kind() is Ident || old(self).next_kind().spec_is_type_keyword()) && old(self).toks()[old(self).pos()
                + 1].kind is Colon && simple_type_at(old(self).toks(), old(self).pos() + 2) ==> (r matches Ok(p) && p.type_expr
                matches TypeExpr::Named(n, span) && names(old(self).toks()[old(self).pos() + 2], n) && span == old(
                self,
            ).toks()[old(self).pos() + 2].span && final(self).pos() == old(self).pos() + 3),
            !(old(self).next_kind() is Ident) && !old(self).next_kind().spec_is_type_keyword() ==> r == Err::<Param, ParseError>(
                ParseError::ExpectedIdentifier {
                    found: old(self).toks()[old(self).pos()].lexeme,
                    span: old(self).toks()[old(self).pos()].span,
                },
            ),
            plain_param_end(old(self).toks(), old(self).pos()) matches Some(e) ==> (r is Ok && final(self).pos() == e),
    {
        let span = self.current_span();
        let name = self.expect_any_identifier()?;
        self.expect(TokenKind::Colon)?;
        proof {
            crate::token::lemma_same_tag_dataless(self.toks()[old(self).pos() + 1].kind, TokenKind::Colon);
        }
        let type_expr = self.parse_type_expr()?;
        Ok(Param { name, type_expr, span })
    }

    /// `enumeration Name [:: Trait, ...] { variant ... fn ... }`
    #[verifier::spinoff_prover]
    fn parse_enumeration(&mut self) -> (r: Result<EnumDecl, ParseError>)
        requires
            old(self).wf(),
        ensures
            r matches Err(e) ==> fails_at(old(self).toks(), old(self).pos(), final(self).pos(), e),
            final(self).kept(old(self)),
            old(self).next_kind() is Enumeration ==> final(self).moved(old(self)),
            r matches Ok(e) ==> {
                let t = final(self).toks();
                &&& old(self).next_kind() is Enumeration
                &&& e.span == t[old(self).pos()].span
                &&& t[old(self).pos() + 1].kind == TokenKind::Ident(e.name)
                &&& (e.traits@.len() > 0 <==> t[old(self).pos() + 2].kind is ColonColon)
                &&& t[final(self).pos() - 1].kind is RBrace
                &&& decl_grouped(Declaration::Enumeration(e))
            },
            r matches Ok(e) ==> spells_enum(old(self).toks(), old(self).pos(), final(self).pos(), e),
            plain_enum_end(old(self).toks(), old(self).pos()) matches Some(e) ==> (r is Ok && final(self).pos() == e),
    {
        let span = self.current_span();
        self.expect(TokenKind::Enumeration)?;
        let name = self.expect_identifier()?;
        let traits = self.parse_trait_list()?;
        let ghost t = self.pos();
        self.expect(TokenKind::LBrace)?;
        proof {
            crate::token::lemma_same_tag_dataless(self.toks()[t].kind, TokenKind::LBrace);
        }
        let mut variants: Vec<EnumVariant> = Vec::new();
        let mut methods: Vec<FnDecl> = Vec::new();
        let ghost mut ent_end = self.pos();
        while !self.check(&TokenKind::RBrace) && !self.is_at_end()
            invariant
                self.moved(old(self)),
                forall|j: int| 0 <= j < methods@.len() ==> block_grouped(#[trigger] methods@[j].body@),
                t + 1 <= ent_end <= self.pos(),
                spells_entries(self.toks(), t + 1, ent_end, variants@, methods@),
                comments_only(self.toks(), ent_end, self.pos()),
                plain_enum_end(old(self).toks(), old(self).pos()) is Some ==> plain_traits_end(old(self).toks(), old(self).pos() + 2) == Some(t),
                plain_enum_end(old(self).toks(), old(self).pos()) is Some ==> plain_entries_end(old(self).toks(), self.pos()) == plain_entries_end(old(self).toks(), t + 1),
                plain_enum_end(old(self).toks(), old(self).pos()) is Some ==> plain_entries_end(old(self).toks(), t + 1) is Some,
            ensures
                self.next_kind() is RBrace || self.next_kind() is EOF,
            decreases self.remaining(),
        {
            let ghost p0 = self.pos();
            self.skip_comments();
            proof {
                lemma_comments_end(self.toks(), p0);
                lemma_comments_join(self.toks(), ent_end, p0, self.pos());
                let ce = self.pos();
                assert(comments_end(self.toks(), ce) == ce);
                if plain_enum_end(old(self).toks(), old(self).pos()) is Some {
                    assert(plain_entries_end(old(self).toks(), p0) == plain_entries_end(old(self).toks(), ce));
                }
            }
            if self.check(&TokenKind::RBrace) {
                break;
            }
            let ghost p1 = self.pos();
            let annotations = self.parse_annotations()?;
            let ghost n = self.pos();
            let ghost vs0 = variants@;
            let ghost ms0 = methods@;
            match &self.tokens[self.current].kind {
                TokenKind::Variant => {
                    let v = self.parse_enum_variant()?;
                    variants.push(v);
                    proof {
                        lemma_spells_entries_variant(self.toks(), t + 1, ent_end, p1, n, self.pos(), vs0, ms0, annotations@, v);
                        ent_end = self.pos();
                    }
                },
                TokenKind::Fn => {
                    let m = self.parse_function(annotations)?;
                    methods.push(m);
                    proof {
                        lemma_spells_entries_method(self.toks(), t + 1, ent_end, p1, n, self.pos(), vs0, ms0, m);
                        ent_end = self.pos();
                    }
                },
                _ => {
                    let token = self.peek().lexeme.clone();
                    let tspan = self.current_span();
                    self.advance();
                    return Err(ParseError::UnexpectedToken { token, span: tspan });
                },
            }
        }
        let ghost at_close = self.pos();
        self.expect(TokenKind::RBrace)?;
        assert(self.toks()[self.pos() - 1] == self.toks()[at_close]);
        proof {
            crate::token::lemma_same_tag_dataless(self.toks()[old(self).pos()].kind, TokenKind::Enumeration);
            crate::token::lemma_same_tag_dataless(self.toks()[at_close].kind, TokenKind::RBrace);
            assert(block_split(self.toks(), t, ent_end, self.pos()));
        }
        Ok(EnumDecl { name, traits, variants, methods, span })
    }

    /// `variant Name [{ field ... }] [,]`
    #[verifier::spinoff_prover]
    fn parse_enum_variant(&mut self) -> (r: Result<EnumVariant, ParseError>)
        requires
            old(self).wf(),
        ensures
            r matches Err(e) ==> fails_at(old(self).toks(), old(self).pos(), final(self).pos(), e),
            final(self).kept(old(self)),
            r matches Ok(v) ==> {
                &&& final(self).moved(old(self))
                &&& old(self).next_kind() is Variant
                &&& v.span == old(self).toks()[old(self).pos()].span
                &&& old(self).toks()[old(self).pos() + 1].kind == TokenKind::Ident(v.name)
            },
            r matches Ok(v) ==> spells_variant(old(self).toks(), old(self).pos(), final(self).pos(), v),
            !(old(self).next_kind() is Variant) ==> unexpected_at(r, old(self).toks(), old(self).pos()),
            old(self).next_kind() is Variant && !(old(self).toks()[old(self).pos() + 1].kind is Ident) ==> r == Err::<EnumVariant, ParseError>(
                ParseError::ExpectedIdentifier { found: old(self).toks()[old(self).pos() + 1].lexeme, span: old(self).toks()[old(self).pos() + 1].span },
            ),
            old(self).next_kind() is Variant && old(self).toks()[old(self).pos() + 1].kind is Ident && !(old(self).toks()[old(self).pos() + 2].kind is LBrace) && !(old(self).toks()[old(self).pos()
                + 2].kind is Comma) ==> (r matches Ok(v) && v.fields@.len() == 0 && final(self).pos() == old(self).pos() + 2),
            plain_variant_end(old(self).toks(), old(self).pos()) matches Some(e) ==> (r is Ok && final(self).pos() == e),
    {
        let span = self.current_span();
        self.expect(TokenKind::Variant)?;
        let name = self.expect_identifier()?;
        let mut fields: Vec<FieldDecl> = Vec::new();
        let ghost lb = self.pos();
        let ghost mut f_end = self.pos() + 1;
        if self.check(&TokenKind::LBrace) {
            self.advance();
            while !self.check(&TokenKind::RBrace) && !self.is_at_end()
                invariant
                    self.moved(old(self)),
                    lb + 1 <= f_end <= self.pos(),
                    old(self).next_kind() is Variant,
                    old(self).toks()[old(self).pos() + 1].kind is Ident,
                    lb == old(self).pos() + 2,
                    old(self).toks()[lb].kind is LBrace,
                    spells_vfields(self.toks(), lb + 1, f_end, fields@),
                    comments_only(self.toks(), f_end, self.pos()),
                    plain_variant_end(old(self).toks(), old(self).pos()) is Some ==> plain_vfields_end(old(self).toks(), self.pos()) == plain_vfields_end(old(self).toks(), lb + 1),
                    plain_variant_end(old(self).toks(), old(self).pos()) is Some ==> plain_vfields_end(old(self).toks(), lb + 1) is Some,
                ensures
                    self.next_kind() is RBrace || self.next_kind() is EOF,
                decreases self.remaining(),
            {
                let ghost p0 = self.pos();
                self.skip_comments();
                proof {
                    lemma_comments_end(self.toks(), p0);
                    lemma_comments_join(self.toks(), f_end, p0, self.pos());
                    let ce = self.pos();
                    assert(comments_end(self.toks(), ce) == ce);
                    if plain_variant_end(old(self).toks(), old(self).pos()) is Some {
                        assert(plain_vfields_end(old(self).toks(), p0) == plain_vfields_end(old(self).toks(), ce));
                    }
                }
                if self.check(&TokenKind::RBrace) {
                    break;
                }
                let ghost p1 = self.pos();
                let f = self.parse_field(Vec::new())?;
                let ghost before = fields@;
                fields.push(f);
                proof {
                    lemma_spells_vfields_push(self.toks(), lb + 1, f_end, p1, self.pos(), before, f);
                    f_end = self.pos();
                }
            }
            let ghost rb = self.pos();
            self.expect(TokenKind::RBrace)?;
            proof {
                crate::token::lemma_same_tag_dataless(self.toks()[rb].kind, TokenKind::RBrace);
                assert(block_split(self.toks(), lb, f_end, self.pos()));
            }
        }
        let ghost e = self.pos();
        if self.check(&TokenKind::Comma) {
            self.advance();
        }
        proof {
            crate::token::lemma_same_tag_dataless(self.toks()[old(self).pos()].kind, TokenKind::Variant);
            assert(self.pos() == comma_end(self.toks(), e));
        }
        Ok(EnumVariant { name, fields, span })
    }
}

} // verus!
