use vstd::prelude::*;
use crate::text::str_eq;

verus! {

/// A position in the source text: the half-open range `start..end` of
/// character offsets, and the line and column at which it begins.
#[derive(Debug, Clone, Copy, PartialEq, Eq, Structural)]
pub struct Span {
    pub start: usize,
    pub end: usize,
    pub line: usize,
    pub column: usize,
}

impl Span {
    pub fn new(start: usize, end: usize, line: usize, column: usize) -> (s: Self)
        ensures
            s == (Span { start, end, line, column }),
    {
        Span { start, end, line, column }
    }

    /// Number of characters covered by the span.
    pub fn len(&self) -> (n: usize)
        requires
            self.start <= self.end,
        ensures
            n == self.end - self.start,
    {
        self.end - self.start
    }
}

/// Suffix of an integer literal (`42i32`).
#[derive(Debug, Clone, Copy, PartialEq, Eq, Structural)]
pub enum IntSuffix {
    I8,
    I16,
    I32,
    I64,
    U8,
    U16,
    U32,
    U64,
}

/// Suffix of a floating-point literal (`3.14f32`).
#[derive(Debug, Clone, Copy, PartialEq, Eq, Structural)]
pub enum FloatSuffix {
    F32,
    F64,
}

pub open spec fn int_suffix_text(s: IntSuffix) -> Seq<char> {
    match s {
        IntSuffix::I8 => "i8"@,
        IntSuffix::I16 => "i16"@,
        IntSuffix::I32 => "i32"@,
        IntSuffix::I64 => "i64"@,
        IntSuffix::U8 => "u8"@,
        IntSuffix::U16 => "u16"@,
        IntSuffix::U32 => "u32"@,
        IntSuffix::U64 => "u64"@,
    }
}

pub open spec fn float_suffix_text(s: FloatSuffix) -> Seq<char> {
    match s {
        FloatSuffix::F32 => "f32"@,
        FloatSuffix::F64 => "f64"@,
    }
}

impl IntSuffix {
    /// The suffix as written in source (`"i32"`).
    pub fn to_text(&self) -> (r: String)
        ensures
            r@ == int_suffix_text(*self),
    {
        let mut s = String::new();
        match self {
            IntSuffix::I8 => s.append("i8"),
            IntSuffix::I16 => s.append("i16"),
            IntSuffix::I32 => s.append("i32"),
            IntSuffix::I64 => s.append("i64"),
            IntSuffix::U8 => s.append("u8"),
            IntSuffix::U16 => s.append("u16"),
            IntSuffix::U32 => s.append("u32"),
            IntSuffix::U64 => s.append("u64"),
        }
        s
    }
}

impl FloatSuffix {
    /// The suffix as written in source (`"f64"`).
    pub fn to_text(&self) -> (r: String)
        ensures
            r@ == float_suffix_text(*self),
    {
        let mut s = String::new();
        match self {
            FloatSuffix::F32 => s.append("f32"),
            FloatSuffix::F64 => s.append("f64"),
        }
        s
    }
}

/// The kinds of tokens. A floating-point literal carries its digits as
/// written (underscores removed), e.g. `"3.14"`; turning them into a
/// machine float is left to the consumer.
#[derive(Debug, PartialEq)]
pub enum TokenKind {
    Contract,
    Fn,
    Let,
    Mut,
    Return,
    If,
    While,
    Else,
    Match,
    Case,
    Default,
    Guard,
    Field,
    Throw,
    Propagate,
    Break,
    Continue,
    Enumeration,
    Variant,
    SelfValue,
    SelfType,
    As,
    TyInt8,
    TyInt16,
    TyInt32,
    TyInt64,
    TyUInt8,
    TyUInt16,
    TyUInt32,
    TyUInt64,
    TyFloat32,
    TyFloat64,
    TyBool,
    TyChar,
    TyString,
    TyVoid,
    LitInteger { value: i128, suffix: Option<IntSuffix> },
    LitFloat { literal: String, suffix: Option<FloatSuffix> },
    LitString(String),
    LitChar(char),
    Ident(String),
    Plus,
    Minus,
    Star,
    Slash,
    Percent,
    Eq,
    EqEq,
    NotEq,
    Lt,
    LtEq,
    Gt,
    GtEq,
    Bang,
    Amp,
    AmpAmp,
    Pipe,
    PipePipe,
    LParen,
    RParen,
    LBrace,
    RBrace,
    LBracket,
    RBracket,
    Semicolon,
    Colon,
    ColonColon,
    Comma,
    Dot,
    DotDot,
    Arrow,
    FatArrow,
    At,
    HashBang,
    Underscore,
    Comment(String),
    EOF,
}

/// A token: its kind, where it stands, and the source text it was read from.
#[derive(Debug, PartialEq)]
pub struct Token {
    pub kind: TokenKind,
    pub span: Span,
    pub lexeme: String,
}

impl Token {
    pub fn new(kind: TokenKind, span: Span, lexeme: String) -> (t: Self)
        ensures
            t == (Token { kind, span, lexeme }),
    {
        Token { kind, span, lexeme }
    }
}

impl TokenKind {
    pub open spec fn spec_is_keyword(&self) -> bool {
        ||| *self is Contract
        ||| *self is Fn
        ||| *self is Let
        ||| *self is Mut
        ||| *self is Return
        ||| *self is If
        ||| *self is While
        ||| *self is Else
        ||| *self is Match
        ||| *self is Case
        ||| *self is Default
        ||| *self is Guard
        ||| *self is Field
        ||| *self is Throw
        ||| *self is Propagate
        ||| *self is Break
        ||| *self is Continue
        ||| *self is Enumeration
        ||| *self is Variant
        ||| *self is SelfValue
        ||| *self is SelfType
        ||| *self is As
    }

    pub open spec fn spec_is_type_keyword(&self) -> bool {
        ||| *self is TyInt8
        ||| *self is TyInt16
        ||| *self is TyInt32
        ||| *self is TyInt64
        ||| *self is TyUInt8
        ||| *self is TyUInt16
        ||| *self is TyUInt32
        ||| *self is TyUInt64
        ||| *self is TyFloat32
        ||| *self is TyFloat64
        ||| *self is TyBool
        ||| *self is TyChar
        ||| *self is TyString
        ||| *self is TyVoid
    }

    pub open spec fn spec_is_literal(&self) -> bool {
        ||| *self is LitInteger
        ||| *self is LitFloat
        ||| *self is LitString
        ||| *self is LitChar
    }

    /// Is this a language keyword (`contract`, `fn`, ...)?
    pub fn is_keyword(&self) -> (b: bool)
        ensures
            b == self.spec_is_keyword(),
    {
        match self {
            TokenKind::Contract
            | TokenKind::Fn
            | TokenKind::Let
            | TokenKind::Mut
            | TokenKind::Return
            | TokenKind::If
            | TokenKind::While
            | TokenKind::Else
            | TokenKind::Match
            | TokenKind::Case
            | TokenKind::Default
            | TokenKind::Guard
            | TokenKind::Field
            | TokenKind::Throw
            | TokenKind::Propagate
            | TokenKind::Break
            | TokenKind::Continue
            | TokenKind::Enumeration
            | TokenKind::Variant
            | TokenKind::SelfValue
            | TokenKind::SelfType
            | TokenKind::As => true,
            _ => false,
        }
    }

    /// Is this a built-in type keyword (`Int32`, `String`, ...)?
    pub fn is_type_keyword(&self) -> (b: bool)
        ensures
            b == self.spec_is_type_keyword(),
    {
        match self {
            TokenKind::TyInt8
            | TokenKind::TyInt16
            | TokenKind::TyInt32
            | TokenKind::TyInt64
            | TokenKind::TyUInt8
            | TokenKind::TyUInt16
            | TokenKind::TyUInt32
            | TokenKind::TyUInt64
            | TokenKind::TyFloat32
            | TokenKind::TyFloat64
            | TokenKind::TyBool
            | TokenKind::TyChar
            | TokenKind::TyString
            | TokenKind::TyVoid => true,
            _ => false,
        }
    }

    /// Is this a literal?
    pub fn is_literal(&self) -> (b: bool)
        ensures
            b == self.spec_is_literal(),
    {
        match self {
            TokenKind::LitInteger { .. } | TokenKind::LitFloat { .. } | TokenKind::LitString(_)
            | TokenKind::LitChar(_) => true,
            _ => false,
        }
    }
}

/// The keyword or type keyword spelled by `ident`, if any.
pub open spec fn keyword_of(ident: Seq<char>) -> Option<TokenKind> {
    if ident == "contract"@ {
        Some(TokenKind::Contract)
    }     else if ident == "fn"@ {
        Some(TokenKind::Fn)
    }     else if ident == "let"@ {
        Some(TokenKind::Let)
    }     else if ident == "mut"@ {
        Some(TokenKind::Mut)
    }     else if ident == "return"@ {
        Some(TokenKind::Return)
    }     else if ident == "if"@ {
        Some(TokenKind::If)
    }     else if ident == "while"@ {
        Some(TokenKind::While)
    }     else if ident == "else"@ {
        Some(TokenKind::Else)
    }     else if ident == "match"@ {
        Some(TokenKind::Match)
    }     else if ident == "case"@ {
        Some(TokenKind::Case)
    }     else if ident == "default"@ {
        Some(TokenKind::Default)
    }     else if ident == "guard"@ {
        Some(TokenKind::Guard)
    }     else if ident == "field"@ {
        Some(TokenKind::Field)
    }     else if ident == "throw"@ {
        Some(TokenKind::Throw)
    }     else if ident == "propagate"@ {
        Some(TokenKind::Propagate)
    }     else if ident == "break"@ {
        Some(TokenKind::Break)
    }     else if ident == "continue"@ {
        Some(TokenKind::Continue)
    }     else if ident == "enumeration"@ {
        Some(TokenKind::Enumeration)
    }     else if ident == "variant"@ {
        Some(TokenKind::Variant)
    }     else if ident == "self"@ {
        Some(TokenKind::SelfValue)
    }     else if ident == "Self"@ {
        Some(TokenKind::SelfType)
    }     else if ident == "as"@ {
        Some(TokenKind::As)
    }     else if ident == "Int8"@ {
        Some(TokenKind::TyInt8)
    }     else if ident == "Int16"@ {
        Some(TokenKind::TyInt16)
    }     else if ident == "Int32"@ {
        Some(TokenKind::TyInt32)
    }     else if ident == "Int64"@ {
        Some(TokenKind::TyInt64)
    }     else if ident == "UInt8"@ {
        Some(TokenKind::TyUInt8)
    }     else if ident == "UInt16"@ {
        Some(TokenKind::TyUInt16)
    }     else if ident == "UInt32"@ {
        Some(TokenKind::TyUInt32)
    }     else if ident == "UInt64"@ {
        Some(TokenKind::TyUInt64)
    }     else if ident == "Float32"@ {
        Some(TokenKind::TyFloat32)
    }     else if ident == "Float64"@ {
        Some(TokenKind::TyFloat64)
    }     else if ident == "Bool"@ {
        Some(TokenKind::TyBool)
    }     else if ident == "Char"@ {
        Some(TokenKind::TyChar)
    }     else if ident == "String"@ {
        Some(TokenKind::TyString)
    }     else if ident == "Void"@ {
        Some(TokenKind::TyVoid)
    } else {
        None
    }
}

/// The keyword or type keyword spelled by `ident`, if any.
pub fn lookup_keyword(ident: &str) -> (r: Option<TokenKind>)
    ensures
        r == keyword_of(ident@),
{
    if str_eq(ident, "contract") {
        Some(TokenKind::Contract)
    }     else if str_eq(ident, "fn") {
        Some(TokenKind::Fn)
    }     else if str_eq(ident, "let") {
        Some(TokenKind::Let)
    }     else if str_eq(ident, "mut") {
        Some(TokenKind::Mut)
    }     else if str_eq(ident, "return") {
        Some(TokenKind::Return)
    }     else if str_eq(ident, "if") {
        Some(TokenKind::If)
    }     else if str_eq(ident, "while") {
        Some(TokenKind::While)
    }     else if str_eq(ident, "else") {
        Some(TokenKind::Else)
    }     else if str_eq(ident, "match") {
        Some(TokenKind::Match)
    }     else if str_eq(ident, "case") {
        Some(TokenKind::Case)
    }     else if str_eq(ident, "default") {
        Some(TokenKind::Default)
    }     else if str_eq(ident, "guard") {
        Some(TokenKind::Guard)
    }     else if str_eq(ident, "field") {
        Some(TokenKind::Field)
    }     else if str_eq(ident, "throw") {
        Some(TokenKind::Throw)
    }     else if str_eq(ident, "propagate") {
        Some(TokenKind::Propagate)
    }     else if str_eq(ident, "break") {
        Some(TokenKind::Break)
    }     else if str_eq(ident, "continue") {
        Some(TokenKind::Continue)
    }     else if str_eq(ident, "enumeration") {
        Some(TokenKind::Enumeration)
    }     else if str_eq(ident, "variant") {
        Some(TokenKind::Variant)
    }     else if str_eq(ident, "self") {
        Some(TokenKind::SelfValue)
    }     else if str_eq(ident, "Self") {
        Some(TokenKind::SelfType)
    }     else if str_eq(ident, "as") {
        Some(TokenKind::As)
    }     else if str_eq(ident, "Int8") {
        Some(TokenKind::TyInt8)
    }     else if str_eq(ident, "Int16") {
        Some(TokenKind::TyInt16)
    }     else if str_eq(ident, "Int32") {
        Some(TokenKind::TyInt32)
    }     else if str_eq(ident, "Int64") {
        Some(TokenKind::TyInt64)
    }     else if str_eq(ident, "UInt8") {
        Some(TokenKind::TyUInt8)
    }     else if str_eq(ident, "UInt16") {
        Some(TokenKind::TyUInt16)
    }     else if str_eq(ident, "UInt32") {
        Some(TokenKind::TyUInt32)
    }     else if str_eq(ident, "UInt64") {
        Some(TokenKind::TyUInt64)
    }     else if str_eq(ident, "Float32") {
        Some(TokenKind::TyFloat32)
    }     else if str_eq(ident, "Float64") {
        Some(TokenKind::TyFloat64)
    }     else if str_eq(ident, "Bool") {
        Some(TokenKind::TyBool)
    }     else if str_eq(ident, "Char") {
        Some(TokenKind::TyChar)
    }     else if str_eq(ident, "String") {
        Some(TokenKind::TyString)
    }     else if str_eq(ident, "Void") {
        Some(TokenKind::TyVoid)
    } else {
        None
    }
}

/// The text of a punctuation or operator token.
pub open spec fn punct_text(k: TokenKind) -> Option<Seq<char>> {
    match k {
        TokenKind::Plus => Some(seq!['+']),
        TokenKind::Minus => Some(seq!['-']),
        TokenKind::Star => Some(seq!['*']),
        TokenKind::Slash => Some(seq!['/']),
        TokenKind::Percent => Some(seq!['%']),
        TokenKind::Eq => Some(seq!['=']),
        TokenKind::EqEq => Some(seq!['=', '=']),
        TokenKind::NotEq => Some(seq!['!', '=']),
        TokenKind::Lt => Some(seq!['<']),
        TokenKind::LtEq => Some(seq!['<', '=']),
        TokenKind::Gt => Some(seq!['>']),
        TokenKind::GtEq => Some(seq!['>', '=']),
        TokenKind::Bang => Some(seq!['!']),
        TokenKind::Amp => Some(seq!['&']),
        TokenKind::AmpAmp => Some(seq!['&', '&']),
        TokenKind::Pipe => Some(seq!['|']),
        TokenKind::PipePipe => Some(seq!['|', '|']),
        TokenKind::LParen => Some(seq!['(']),
        TokenKind::RParen => Some(seq![')']),
        TokenKind::LBrace => Some(seq!['{']),
        TokenKind::RBrace => Some(seq!['}']),
        TokenKind::LBracket => Some(seq!['[']),
        TokenKind::RBracket => Some(seq![']']),
        TokenKind::Semicolon => Some(seq![';']),
        TokenKind::Colon => Some(seq![':']),
        TokenKind::ColonColon => Some(seq![':', ':']),
        TokenKind::Comma => Some(seq![',']),
        TokenKind::Dot => Some(seq!['.']),
        TokenKind::DotDot => Some(seq!['.', '.']),
        TokenKind::Arrow => Some(seq!['-', '>']),
        TokenKind::FatArrow => Some(seq!['=', '>']),
        TokenKind::At => Some(seq!['@']),
        TokenKind::HashBang => Some(seq!['#', '!']),
        TokenKind::Underscore => Some(seq!['_']),
        _ => None,
    }
}


/// Kinds whose tokens carry data (a literal's value, a name, a comment).
pub open spec fn carries_data(k: TokenKind) -> bool {
    ||| k is LitInteger
    ||| k is LitFloat
    ||| k is LitString
    ||| k is LitChar
    ||| k is Ident
    ||| k is Comment
}

/// Two kinds with the same number are equal when the second carries no data.
pub proof fn lemma_same_tag_dataless(a: TokenKind, b: TokenKind)
    requires
        kind_tag(a) == kind_tag(b),
        !carries_data(b),
    ensures
        a == b,
{
}

/// A number for each kind of token, the same for all tokens of that kind.
pub open spec fn kind_tag(k: TokenKind) -> u8 {
    match k {
        TokenKind::Contract => 0,
        TokenKind::Fn => 1,
        TokenKind::Let => 2,
        TokenKind::Mut => 3,
        TokenKind::Return => 4,
        TokenKind::If => 5,
        TokenKind::While => 6,
        TokenKind::Else => 7,
        TokenKind::Match => 8,
        TokenKind::Case => 9,
        TokenKind::Default => 10,
        TokenKind::Guard => 11,
        TokenKind::Field => 12,
        TokenKind::Throw => 13,
        TokenKind::Propagate => 14,
        TokenKind::Break => 15,
        TokenKind::Continue => 16,
        TokenKind::Enumeration => 17,
        TokenKind::Variant => 18,
        TokenKind::SelfValue => 19,
        TokenKind::SelfType => 20,
        TokenKind::As => 21,
        TokenKind::TyInt8 => 22,
        TokenKind::TyInt16 => 23,
        TokenKind::TyInt32 => 24,
        TokenKind::TyInt64 => 25,
        TokenKind::TyUInt8 => 26,
        TokenKind::TyUInt16 => 27,
        TokenKind::TyUInt32 => 28,
        TokenKind::TyUInt64 => 29,
        TokenKind::TyFloat32 => 30,
        TokenKind::TyFloat64 => 31,
        TokenKind::TyBool => 32,
        TokenKind::TyChar => 33,
        TokenKind::TyString => 34,
        TokenKind::TyVoid => 35,
        TokenKind::LitInteger { .. } => 36,
        TokenKind::LitFloat { .. } => 37,
        TokenKind::LitString(..) => 38,
        TokenKind::LitChar(..) => 39,
        TokenKind::Ident(..) => 40,
        TokenKind::Plus => 41,
        TokenKind::Minus => 42,
        TokenKind::Star => 43,
        TokenKind::Slash => 44,
        TokenKind::Percent => 45,
        TokenKind::Eq => 46,
        TokenKind::EqEq => 47,
        TokenKind::NotEq => 48,
        TokenKind::Lt => 49,
        TokenKind::LtEq => 50,
        TokenKind::Gt => 51,
        TokenKind::GtEq => 52,
        TokenKind::Bang => 53,
        TokenKind::Amp => 54,
        TokenKind::AmpAmp => 55,
        TokenKind::Pipe => 56,
        TokenKind::PipePipe => 57,
        TokenKind::LParen => 58,
        TokenKind::RParen => 59,
        TokenKind::LBrace => 60,
        TokenKind::RBrace => 61,
        TokenKind::LBracket => 62,
        TokenKind::RBracket => 63,
        TokenKind::Semicolon => 64,
        TokenKind::Colon => 65,
        TokenKind::ColonColon => 66,
        TokenKind::Comma => 67,
        TokenKind::Dot => 68,
        TokenKind::DotDot => 69,
        TokenKind::Arrow => 70,
        TokenKind::FatArrow => 71,
        TokenKind::At => 72,
        TokenKind::HashBang => 73,
        TokenKind::Underscore => 74,
        TokenKind::Comment(..) => 75,
        TokenKind::EOF => 76,
    }
}

/// The name of a kind of token.
pub open spec fn kind_name(k: TokenKind) -> Seq<char> {
    match k {
        TokenKind::Contract => "Contract"@,
        TokenKind::Fn => "Fn"@,
        TokenKind::Let => "Let"@,
        TokenKind::Mut => "Mut"@,
        TokenKind::Return => "Return"@,
        TokenKind::If => "If"@,
        TokenKind::While => "While"@,
        TokenKind::Else => "Else"@,
        TokenKind::Match => "Match"@,
        TokenKind::Case => "Case"@,
        TokenKind::Default => "Default"@,
        TokenKind::Guard => "Guard"@,
        TokenKind::Field => "Field"@,
        TokenKind::Throw => "Throw"@,
        TokenKind::Propagate => "Propagate"@,
        TokenKind::Break => "Break"@,
        TokenKind::Continue => "Continue"@,
        TokenKind::Enumeration => "Enumeration"@,
        TokenKind::Variant => "Variant"@,
        TokenKind::SelfValue => "SelfValue"@,
        TokenKind::SelfType => "SelfType"@,
        TokenKind::As => "As"@,
        TokenKind::TyInt8 => "TyInt8"@,
        TokenKind::TyInt16 => "TyInt16"@,
        TokenKind::TyInt32 => "TyInt32"@,
        TokenKind::TyInt64 => "TyInt64"@,
        TokenKind::TyUInt8 => "TyUInt8"@,
        TokenKind::TyUInt16 => "TyUInt16"@,
        TokenKind::TyUInt32 => "TyUInt32"@,
        TokenKind::TyUInt64 => "TyUInt64"@,
        TokenKind::TyFloat32 => "TyFloat32"@,
        TokenKind::TyFloat64 => "TyFloat64"@,
        TokenKind::TyBool => "TyBool"@,
        TokenKind::TyChar => "TyChar"@,
        TokenKind::TyString => "TyString"@,
        TokenKind::TyVoid => "TyVoid"@,
        TokenKind::LitInteger { .. } => "LitInteger"@,
        TokenKind::LitFloat { .. } => "LitFloat"@,
        TokenKind::LitString(..) => "LitString"@,
        TokenKind::LitChar(..) => "LitChar"@,
        TokenKind::Ident(..) => "Ident"@,
        TokenKind::Plus => "Plus"@,
        TokenKind::Minus => "Minus"@,
        TokenKind::Star => "Star"@,
        TokenKind::Slash => "Slash"@,
        TokenKind::Percent => "Percent"@,
        TokenKind::Eq => "Eq"@,
        TokenKind::EqEq => "EqEq"@,
        TokenKind::NotEq => "NotEq"@,
        TokenKind::Lt => "Lt"@,
        TokenKind::LtEq => "LtEq"@,
        TokenKind::Gt => "Gt"@,
        TokenKind::GtEq => "GtEq"@,
        TokenKind::Bang => "Bang"@,
        TokenKind::Amp => "Amp"@,
        TokenKind::AmpAmp => "AmpAmp"@,
        TokenKind::Pipe => "Pipe"@,
        TokenKind::PipePipe => "PipePipe"@,
        TokenKind::LParen => "LParen"@,
        TokenKind::RParen => "RParen"@,
        TokenKind::LBrace => "LBrace"@,
        TokenKind::RBrace => "RBrace"@,
        TokenKind::LBracket => "LBracket"@,
        TokenKind::RBracket => "RBracket"@,
        TokenKind::Semicolon => "Semicolon"@,
        TokenKind::Colon => "Colon"@,
        TokenKind::ColonColon => "ColonColon"@,
        TokenKind::Comma => "Comma"@,
        TokenKind::Dot => "Dot"@,
        TokenKind::DotDot => "DotDot"@,
        TokenKind::Arrow => "Arrow"@,
        TokenKind::FatArrow => "FatArrow"@,
        TokenKind::At => "At"@,
        TokenKind::HashBang => "HashBang"@,
        TokenKind::Underscore => "Underscore"@,
        TokenKind::Comment(..) => "Comment"@,
        TokenKind::EOF => "EOF"@,
    }
}

impl TokenKind {
    /// The number of this kind of token (equal for equal kinds, whatever
    /// the data they carry).
    pub fn tag(&self) -> (t: u8)
        ensures
            t == kind_tag(*self),
    {
        match self {
            TokenKind::Contract => 0,
            TokenKind::Fn => 1,
            TokenKind::Let => 2,
            TokenKind::Mut => 3,
            TokenKind::Return => 4,
            TokenKind::If => 5,
            TokenKind::While => 6,
            TokenKind::Else => 7,
            TokenKind::Match => 8,
            TokenKind::Case => 9,
            TokenKind::Default => 10,
            TokenKind::Guard => 11,
            TokenKind::Field => 12,
            TokenKind::Throw => 13,
            TokenKind::Propagate => 14,
            TokenKind::Break => 15,
            TokenKind::Continue => 16,
            TokenKind::Enumeration => 17,
            TokenKind::Variant => 18,
            TokenKind::SelfValue => 19,
            TokenKind::SelfType => 20,
            TokenKind::As => 21,
            TokenKind::TyInt8 => 22,
            TokenKind::TyInt16 => 23,
            TokenKind::TyInt32 => 24,
            TokenKind::TyInt64 => 25,
            TokenKind::TyUInt8 => 26,
            TokenKind::TyUInt16 => 27,
            TokenKind::TyUInt32 => 28,
            TokenKind::TyUInt64 => 29,
            TokenKind::TyFloat32 => 30,
            TokenKind::TyFloat64 => 31,
            TokenKind::TyBool => 32,
            TokenKind::TyChar => 33,
            TokenKind::TyString => 34,
            TokenKind::TyVoid => 35,
            TokenKind::LitInteger { .. } => 36,
            TokenKind::LitFloat { .. } => 37,
            TokenKind::LitString(..) => 38,
            TokenKind::LitChar(..) => 39,
            TokenKind::Ident(..) => 40,
            TokenKind::Plus => 41,
            TokenKind::Minus => 42,
            TokenKind::Star => 43,
            TokenKind::Slash => 44,
            TokenKind::Percent => 45,
            TokenKind::Eq => 46,
            TokenKind::EqEq => 47,
            TokenKind::NotEq => 48,
            TokenKind::Lt => 49,
            TokenKind::LtEq => 50,
            TokenKind::Gt => 51,
            TokenKind::GtEq => 52,
            TokenKind::Bang => 53,
            TokenKind::Amp => 54,
            TokenKind::AmpAmp => 55,
            TokenKind::Pipe => 56,
            TokenKind::PipePipe => 57,
            TokenKind::LParen => 58,
            TokenKind::RParen => 59,
            TokenKind::LBrace => 60,
            TokenKind::RBrace => 61,
            TokenKind::LBracket => 62,
            TokenKind::RBracket => 63,
            TokenKind::Semicolon => 64,
            TokenKind::Colon => 65,
            TokenKind::ColonColon => 66,
            TokenKind::Comma => 67,
            TokenKind::Dot => 68,
            TokenKind::DotDot => 69,
            TokenKind::Arrow => 70,
            TokenKind::FatArrow => 71,
            TokenKind::At => 72,
            TokenKind::HashBang => 73,
            TokenKind::Underscore => 74,
            TokenKind::Comment(..) => 75,
            TokenKind::EOF => 76,
        }
    }

    /// Do both tokens belong to the same kind (ignoring the data they carry)?
    pub fn same_kind(&self, other: &TokenKind) -> (b: bool)
        ensures
            b == (kind_tag(*self) == kind_tag(*other)),
            !carries_data(*other) ==> (b == (*self == *other)),
    {
        proof {
            if kind_tag(*self) == kind_tag(*other) && !carries_data(*other) {
                lemma_same_tag_dataless(*self, *other);
            }
        }
        self.tag() == other.tag()
    }

    /// The name of the kind of token, as in `"LParen"`.
    pub fn name(&self) -> (s: String)
        ensures
            s@ == kind_name(*self),
    {
        let mut s = String::new();
        match self {
            TokenKind::Contract => s.append("Contract"),
            TokenKind::Fn => s.append("Fn"),
            TokenKind::Let => s.append("Let"),
            TokenKind::Mut => s.append("Mut"),
            TokenKind::Return => s.append("Return"),
            TokenKind::If => s.append("If"),
            TokenKind::While => s.append("While"),
            TokenKind::Else => s.append("Else"),
            TokenKind::Match => s.append("Match"),
            TokenKind::Case => s.append("Case"),
            TokenKind::Default => s.append("Default"),
            TokenKind::Guard => s.append("Guard"),
            TokenKind::Field => s.append("Field"),
            TokenKind::Throw => s.append("Throw"),
            TokenKind::Propagate => s.append("Propagate"),
            TokenKind::Break => s.append("Break"),
            TokenKind::Continue => s.append("Continue"),
            TokenKind::Enumeration => s.append("Enumeration"),
            TokenKind::Variant => s.append("Variant"),
            TokenKind::SelfValue => s.append("SelfValue"),
            TokenKind::SelfType => s.append("SelfType"),
            TokenKind::As => s.append("As"),
            TokenKind::TyInt8 => s.append("TyInt8"),
            TokenKind::TyInt16 => s.append("TyInt16"),
            TokenKind::TyInt32 => s.append("TyInt32"),
            TokenKind::TyInt64 => s.append("TyInt64"),
            TokenKind::TyUInt8 => s.append("TyUInt8"),
            TokenKind::TyUInt16 => s.append("TyUInt16"),
            TokenKind::TyUInt32 => s.append("TyUInt32"),
            TokenKind::TyUInt64 => s.append("TyUInt64"),
            TokenKind::TyFloat32 => s.append("TyFloat32"),
            TokenKind::TyFloat64 => s.append("TyFloat64"),
            TokenKind::TyBool => s.append("TyBool"),
            TokenKind::TyChar => s.append("TyChar"),
            TokenKind::TyString => s.append("TyString"),
            TokenKind::TyVoid => s.append("TyVoid"),
            TokenKind::LitInteger { .. } => s.append("LitInteger"),
            TokenKind::LitFloat { .. } => s.append("LitFloat"),
            TokenKind::LitString(..) => s.append("LitString"),
            TokenKind::LitChar(..) => s.append("LitChar"),
            TokenKind::Ident(..) => s.append("Ident"),
            TokenKind::Plus => s.append("Plus"),
            TokenKind::Minus => s.append("Minus"),
            TokenKind::Star => s.append("Star"),
            TokenKind::Slash => s.append("Slash"),
            TokenKind::Percent => s.append("Percent"),
            TokenKind::Eq => s.append("Eq"),
            TokenKind::EqEq => s.append("EqEq"),
            TokenKind::NotEq => s.append("NotEq"),
            TokenKind::Lt => s.append("Lt"),
            TokenKind::LtEq => s.append("LtEq"),
            TokenKind::Gt => s.append("Gt"),
            TokenKind::GtEq => s.append("GtEq"),
            TokenKind::Bang => s.append("Bang"),
            TokenKind::Amp => s.append("Amp"),
            TokenKind::AmpAmp => s.append("AmpAmp"),
            TokenKind::Pipe => s.append("Pipe"),
            TokenKind::PipePipe => s.append("PipePipe"),
            TokenKind::LParen => s.append("LParen"),
            TokenKind::RParen => s.append("RParen"),
            TokenKind::LBrace => s.append("LBrace"),
            TokenKind::RBrace => s.append("RBrace"),
            TokenKind::LBracket => s.append("LBracket"),
            TokenKind::RBracket => s.append("RBracket"),
            TokenKind::Semicolon => s.append("Semicolon"),
            TokenKind::Colon => s.append("Colon"),
            TokenKind::ColonColon => s.append("ColonColon"),
            TokenKind::Comma => s.append("Comma"),
            TokenKind::Dot => s.append("Dot"),
            TokenKind::DotDot => s.append("DotDot"),
            TokenKind::Arrow => s.append("Arrow"),
            TokenKind::FatArrow => s.append("FatArrow"),
            TokenKind::At => s.append("At"),
            TokenKind::HashBang => s.append("HashBang"),
            TokenKind::Underscore => s.append("Underscore"),
            TokenKind::Comment(..) => s.append("Comment"),
            TokenKind::EOF => s.append("EOF"),
        }
        s
    }
}

/// A keyword kind names a keyword and nothing else.
pub proof fn law_keyword_lookup_sound(ident: Seq<char>)
    ensures
        keyword_of(ident) matches Some(k) ==> k.spec_is_keyword() || k.spec_is_type_keyword(),
        keyword_of(ident) matches Some(k) ==> !k.spec_is_literal(),
{
}

} // verus!
