use vstd::prelude::*;
use crate::token::{TokenKind, Token, IntSuffix, FloatSuffix, keyword_of, punct_text, int_suffix_text, float_suffix_text};
use crate::text::{str_chars, chars_to_string};

verus! {

/// `char::is_alphanumeric` (Unicode alphabetic or numeric), named.
pub uninterp spec fn spec_is_alphanumeric(c: char) -> bool;

/// A character of the Unicode property `White_Space`.
pub open spec fn unicode_ws(c: char) -> bool {
    let u = c as u32;
    ||| 0x09 <= u <= 0x0d
    ||| u == 0x20
    ||| u == 0x85
    ||| u == 0xa0
    ||| u == 0x1680
    ||| 0x2000 <= u <= 0x200a
    ||| u == 0x2028
    ||| u == 0x2029
    ||| u == 0x202f
    ||| u == 0x205f
    ||| u == 0x3000
}

/// `s` without its leading white space.
pub open spec fn trim_start_ws(s: Seq<char>) -> Seq<char>
    decreases s.len(),
{
    if s.len() > 0 && unicode_ws(s[0]) {
        trim_start_ws(s.drop_first())
    } else {
        s
    }
}

/// `s` without its trailing white space.
pub open spec fn trim_end_ws(s: Seq<char>) -> Seq<char>
    decreases s.len(),
{
    if s.len() > 0 && unicode_ws(s.last()) {
        trim_end_ws(s.drop_last())
    } else {
        s
    }
}

/// `s` with white space removed at both ends.
pub open spec fn spec_trim(s: Seq<char>) -> Seq<char> {
    trim_end_ws(trim_start_ws(s))
}

/// Whether `c` is alphabetic or numeric in Unicode.
///
/// Trusted: `char::is_alphanumeric`; its result depends on `c` alone, and
/// an ASCII character is alphanumeric exactly when it is a letter
/// (alphabetic) or a digit (numeric): no other ASCII character is
/// alphabetic or numeric.
#[verifier::external_body]
pub(crate) fn is_alphanumeric(c: char) -> (b: bool)
    ensures
        b == spec_is_alphanumeric(c),
        (c as u32) < 128 ==> (b <==> ('a' <= c <= 'z' || 'A' <= c <= 'Z' || '0' <= c <= '9')),
{
    c.is_alphanumeric()
}

/// Whether `c` is a character of the Unicode property `White_Space`.
pub fn is_unicode_ws(c: char) -> (b: bool)
    ensures
        b == unicode_ws(c),
{
    let u = c as u32;
    (0x09 <= u && u <= 0x0d) || u == 0x20 || u == 0x85 || u == 0xa0 || u == 0x1680 || (0x2000 <= u && u <= 0x200a)
        || u == 0x2028 || u == 0x2029 || u == 0x202f || u == 0x205f || u == 0x3000
}

/// The string with leading and trailing white space (the characters of the
/// Unicode property `White_Space`) removed.
pub fn trim(s: &str) -> (r: String)
    ensures
        r@ == spec_trim(s@),
{
    let v = str_chars(s);
    let mut a: usize = 0;
    assert(s@.skip(0) =~= s@);
    while a < v.len() && is_unicode_ws(v[a])
        invariant
            a <= v@.len(),
            v@ == s@,
            trim_start_ws(s@) == trim_start_ws(s@.skip(a as int)),
        decreases v.len() - a,
    {
        assert(s@.skip(a as int).drop_first() =~= s@.skip(a + 1));
        a += 1;
    }
    proof {
        if a < v.len() {
            assert(s@.skip(a as int)[0] == v@[a as int]);
        } else {
            assert(s@.skip(a as int) =~= Seq::<char>::empty());
        }
        assert(trim_start_ws(s@) == v@.subrange(a as int, v@.len() as int));
    }
    let mut b: usize = v.len();
    while b > a && is_unicode_ws(v[b - 1])
        invariant
            a <= b <= v@.len(),
            trim_end_ws(v@.subrange(a as int, v@.len() as int)) == trim_end_ws(v@.subrange(a as int, b as int)),
        decreases b,
    {
        assert(v@.subrange(a as int, b as int).drop_last() =~= v@.subrange(a as int, b - 1));
        b -= 1;
    }
    proof {
        if b > a {
            assert(v@.subrange(a as int, b as int).last() == v@[b - 1]);
        } else {
            assert(v@.subrange(a as int, b as int) =~= Seq::<char>::empty());
        }
    }
    chars_to_string(&v, a, b)
}

pub open spec fn is_ws(c: char) -> bool {
    c == ' ' || c == '\t' || c == '\r' || c == '\n'
}

pub open spec fn is_digit(c: char) -> bool {
    '0' <= c && c <= '9'
}

pub open spec fn is_hex_digit(c: char) -> bool {
    ||| '0' <= c && c <= '9'
    ||| 'a' <= c && c <= 'f'
    ||| 'A' <= c && c <= 'F'
}

pub open spec fn is_ascii_letter(c: char) -> bool {
    ('a' <= c && c <= 'z') || ('A' <= c && c <= 'Z')
}

pub open spec fn digit_value(c: char) -> int {
    if '0' <= c && c <= '9' {
        c as int - '0' as int
    } else if 'a' <= c && c <= 'f' {
        c as int - 'a' as int + 10
    } else {
        c as int - 'A' as int + 10
    }
}

/// The characters of `s` with every `_` left out.
pub open spec fn strip_underscores(s: Seq<char>) -> Seq<char>
    decreases s.len(),
{
    if s.len() == 0 {
        s
    } else if s.last() == '_' {
        strip_underscores(s.drop_last())
    } else {
        strip_underscores(s.drop_last()).push(s.last())
    }
}

/// The number written by the digits `s` in base `radix`.
pub open spec fn digits_value(s: Seq<char>, radix: int) -> int
    decreases s.len(),
{
    if s.len() == 0 {
        0
    } else {
        digits_value(s.drop_last(), radix) * radix + digit_value(s.last())
    }
}

/// Digits and underscores only, starting with a digit.
/// A number never gets smaller when digits are added at its end.
pub proof fn lemma_digits_value_prefix(s: Seq<char>, radix: int, i: int)
    requires
        radix >= 1,
        0 <= i <= s.len(),
        forall|k: int| 0 <= k < s.len() ==> digit_value(#[trigger] s[k]) >= 0,
    ensures
        0 <= digits_value(s.take(i), radix) <= digits_value(s, radix),
    decreases s.len(),
{
    if i == s.len() {
        assert(s.take(i) =~= s);
        if s.len() > 0 {
            lemma_digits_value_prefix(s.drop_last(), radix, s.len() - 1);
            assert(s.drop_last().take(s.len() - 1) =~= s.drop_last());
            assert(digit_value(s[s.len() - 1]) >= 0);
            assert(digits_value(s.drop_last(), radix) * radix >= digits_value(s.drop_last(), radix)) by (nonlinear_arith)
                requires
                    digits_value(s.drop_last(), radix) >= 0,
                    radix >= 1,
            ;
        }
    } else {
        lemma_digits_value_prefix(s.drop_last(), radix, i);
        assert(s.drop_last().take(i) =~= s.take(i));
        lemma_digits_value_prefix(s.drop_last(), radix, s.len() - 1);
        assert(s.drop_last().take(s.len() - 1) =~= s.drop_last());
        assert(digit_value(s[s.len() - 1]) >= 0);
        assert(digits_value(s.drop_last(), radix) * radix >= digits_value(s.drop_last(), radix)) by (nonlinear_arith)
            requires
                digits_value(s.drop_last(), radix) >= 0,
                radix >= 1,
        ;
    }
}

pub open spec fn is_digit_run(s: Seq<char>) -> bool {
    &&& s.len() > 0
    &&& is_digit(s[0])
    &&& forall|i: int| 0 <= i < s.len() ==> is_digit(#[trigger] s[i]) || s[i] == '_'
}

/// The escape sequences of string literals: `\n \t \r \\ \" \0`.
pub open spec fn string_escape(c: char) -> Option<char> {
    if c == 'n' {
        Some('\n')
    } else if c == 't' {
        Some('\t')
    } else if c == 'r' {
        Some('\r')
    } else if c == '\\' {
        Some('\\')
    } else if c == '"' {
        Some('"')
    } else if c == '0' {
        Some('\0')
    } else {
        None
    }
}

/// The escape sequences of character literals: `\n \t \r \\ \' \0`.
pub open spec fn char_escape(c: char) -> Option<char> {
    if c == 'n' {
        Some('\n')
    } else if c == 't' {
        Some('\t')
    } else if c == 'r' {
        Some('\r')
    } else if c == '\\' {
        Some('\\')
    } else if c == '\'' {
        Some('\'')
    } else if c == '0' {
        Some('\0')
    } else {
        None
    }
}

/// The value of the body of a string literal (the text between the quotes),
/// or `None` when it holds a bare quote, a line break, a lone backslash or an
/// unknown escape.
pub open spec fn unescape(raw: Seq<char>) -> Option<Seq<char>>
    decreases raw.len(),
{
    if raw.len() == 0 {
        Some(Seq::empty())
    } else if raw[0] == '\\' {
        if raw.len() < 2 {
            None
        } else {
            match string_escape(raw[1]) {
                Some(c) => match unescape(raw.skip(2)) {
                    Some(v) => Some(seq![c] + v),
                    None => None,
                },
                None => None,
            }
        }
    } else if raw[0] == '"' || raw[0] == '\n' {
        None
    } else {
        match unescape(raw.skip(1)) {
            Some(v) => Some(seq![raw[0]] + v),
            None => None,
        }
    }
}

/// Reading two pieces of a string body one after the other reads their
/// concatenation.
pub proof fn lemma_unescape_append(p: Seq<char>, q: Seq<char>)
    requires
        unescape(p) is Some,
    ensures
        unescape(p + q) == (match unescape(q) {
            Some(w) => Some(unescape(p)->0 + w),
            None => None::<Seq<char>>,
        }),
    decreases p.len(),
{
    if p.len() == 0 {
        assert(p + q =~= q);
        assert(Seq::<char>::empty() + unescape(q)->0 =~= unescape(q)->0);
    } else if p[0] == '\\' {
        assert((p + q).skip(2) =~= p.skip(2) + q);
        lemma_unescape_append(p.skip(2), q);
        assert((p + q)[0] == p[0]);
        assert((p + q)[1] == p[1]);
        if unescape(q) is Some {
            let c = string_escape(p[1])->0;
            assert(seq![c] + (unescape(p.skip(2))->0 + unescape(q)->0)
                =~= (seq![c] + unescape(p.skip(2))->0) + unescape(q)->0);
        }
    } else {
        assert((p + q).skip(1) =~= p.skip(1) + q);
        lemma_unescape_append(p.skip(1), q);
        assert((p + q)[0] == p[0]);
        if unescape(q) is Some {
            assert(seq![p[0]] + (unescape(p.skip(1))->0 + unescape(q)->0)
                =~= (seq![p[0]] + unescape(p.skip(1))->0) + unescape(q)->0);
        }
    }
}

/// An identifier: an ASCII letter or `_`, then letters, digits and `_`; not a
/// keyword and not `_` alone.
pub open spec fn ident_lexeme(lx: Seq<char>) -> bool {
    &&& lx.len() > 0
    &&& (is_ascii_letter(lx[0]) || lx[0] == '_')
    &&& forall|i: int| 1 <= i < lx.len() ==> spec_is_alphanumeric(#[trigger] lx[i]) || lx[i] == '_'
    &&& keyword_of(lx) is None
    &&& lx != seq!['_']
}

/// A character literal for `c`: `'c'` or an escape `'\e'`.
pub open spec fn char_lexeme(lx: Seq<char>, c: char) -> bool {
    ||| {
        &&& lx.len() == 3
        &&& lx[0] == '\''
        &&& lx[1] == c
        &&& c != '\\'
        &&& c != '\''
        &&& lx[2] == '\''
    }
    ||| {
        &&& lx.len() == 4
        &&& lx[0] == '\''
        &&& lx[1] == '\\'
        &&& char_escape(lx[2]) == Some(c)
        &&& lx[3] == '\''
    }
}

/// An integer literal: `0x` or `0X` and hexadecimal digits (underscores
/// allowed, no suffix, at most `u64::MAX`), or decimal digits and underscores
/// with an optional suffix (at most `i128::MAX`).
pub open spec fn int_lexeme(lx: Seq<char>, value: i128, suffix: Option<IntSuffix>) -> bool {
    ||| {
        &&& lx.len() >= 2
        &&& lx[0] == '0'
        &&& (lx[1] == 'x' || lx[1] == 'X')
        &&& forall|i: int| 2 <= i < lx.len() ==> is_hex_digit(#[trigger] lx[i]) || lx[i] == '_'
        &&& strip_underscores(lx.skip(2)).len() > 0
        &&& value == digits_value(strip_underscores(lx.skip(2)), 16)
        &&& value <= u64::MAX
        &&& suffix is None
    }
    ||| exists|n: int| {
        &&& 0 < n <= lx.len()
        &&& #[trigger] is_digit_run(lx.take(n))
        &&& value == digits_value(strip_underscores(lx.take(n)), 10)
        &&& match suffix {
            None => n == lx.len(),
            Some(s) => lx.skip(n) == int_suffix_text(s),
        }
        &&& !(lx.len() >= 2 && lx[0] == '0' && (lx[1] == 'x' || lx[1] == 'X'))
    }
}

/// A floating-point literal whose digits (underscores removed) are `literal`:
/// digits, optionally a fraction `.digits`, and a suffix; without a suffix the
/// fraction is required.
pub open spec fn float_lexeme(lx: Seq<char>, literal: Seq<char>, suffix: Option<FloatSuffix>) -> bool {
    exists|n: int| {
        &&& 0 < n <= lx.len()
        &&& #[trigger] float_body(lx.take(n))
        &&& literal == strip_underscores(lx.take(n))
        &&& match suffix {
            None => n == lx.len() && lx.take(n).contains('.'),
            Some(s) => lx.skip(n) == float_suffix_text(s),
        }
    }
}

/// Digits and underscores starting with a digit, optionally followed by `.`,
/// a digit, and more digits and underscores.
pub open spec fn float_body(b: Seq<char>) -> bool {
    ||| is_digit_run(b)
    ||| exists|d: int| {
        &&& 0 < d < b.len() - 1
        &&& #[trigger] b[d] == '.'
        &&& is_digit_run(b.take(d))
        &&& is_digit_run(b.skip(d + 1))
    }
}

/// Spelled with ASCII letters and digits, starting with a letter.
pub open spec fn ascii_word(s: Seq<char>) -> bool {
    &&& s.len() > 0
    &&& is_ascii_letter(s[0])
    &&& forall|i: int| 0 <= i < s.len() ==> is_ascii_letter(#[trigger] s[i]) || is_digit(s[i])
}

/// Every keyword is spelled with ASCII letters and digits, starting with a
/// letter.
pub proof fn lemma_keyword_spelling(s: Seq<char>)
    requires
        keyword_of(s) is Some,
    ensures
        ascii_word(s),
{
    reveal_strlit("contract");
    reveal_strlit("fn");
    reveal_strlit("let");
    reveal_strlit("mut");
    reveal_strlit("return");
    reveal_strlit("if");
    reveal_strlit("while");
    reveal_strlit("else");
    reveal_strlit("match");
    reveal_strlit("case");
    reveal_strlit("default");
    reveal_strlit("guard");
    reveal_strlit("field");
    reveal_strlit("throw");
    reveal_strlit("propagate");
    reveal_strlit("break");
    reveal_strlit("continue");
    reveal_strlit("enumeration");
    reveal_strlit("variant");
    reveal_strlit("self");
    reveal_strlit("Self");
    reveal_strlit("as");
    reveal_strlit("Int8");
    reveal_strlit("Int16");
    reveal_strlit("Int32");
    reveal_strlit("Int64");
    reveal_strlit("UInt8");
    reveal_strlit("UInt16");
    reveal_strlit("UInt32");
    reveal_strlit("UInt64");
    reveal_strlit("Float32");
    reveal_strlit("Float64");
    reveal_strlit("Bool");
    reveal_strlit("Char");
    reveal_strlit("String");
    reveal_strlit("Void");
    assert(ascii_word("contract"@));
    assert(ascii_word("fn"@));
    assert(ascii_word("let"@));
    assert(ascii_word("mut"@));
    assert(ascii_word("return"@));
    assert(ascii_word("if"@));
    assert(ascii_word("while"@));
    assert(ascii_word("else"@));
    assert(ascii_word("match"@));
    assert(ascii_word("case"@));
    assert(ascii_word("default"@));
    assert(ascii_word("guard"@));
    assert(ascii_word("field"@));
    assert(ascii_word("throw"@));
    assert(ascii_word("propagate"@));
    assert(ascii_word("break"@));
    assert(ascii_word("continue"@));
    assert(ascii_word("enumeration"@));
    assert(ascii_word("variant"@));
    assert(ascii_word("self"@));
    assert(ascii_word("Self"@));
    assert(ascii_word("as"@));
    assert(ascii_word("Int8"@));
    assert(ascii_word("Int16"@));
    assert(ascii_word("Int32"@));
    assert(ascii_word("Int64"@));
    assert(ascii_word("UInt8"@));
    assert(ascii_word("UInt16"@));
    assert(ascii_word("UInt32"@));
    assert(ascii_word("UInt64"@));
    assert(ascii_word("Float32"@));
    assert(ascii_word("Float64"@));
    assert(ascii_word("Bool"@));
    assert(ascii_word("Char"@));
    assert(ascii_word("String"@));
    assert(ascii_word("Void"@));
}

/// Two token kinds are the same, their text compared by its characters.
pub open spec fn kind_agrees(a: TokenKind, b: TokenKind) -> bool {
    match (a, b) {
        (TokenKind::Ident(x), TokenKind::Ident(y)) => x@ == y@,
        (TokenKind::Comment(x), TokenKind::Comment(y)) => x@ == y@,
        (TokenKind::LitString(x), TokenKind::LitString(y)) => x@ == y@,
        (TokenKind::LitFloat { literal: x, suffix: s }, TokenKind::LitFloat { literal: y, suffix: t }) => x@ == y@
            && s == t,
        _ => a == b,
    }
}

/// What a token of the given kind must have been read from.
pub open spec fn lexeme_fits(kind: TokenKind, lx: Seq<char>) -> bool {
    match kind {
        TokenKind::Ident(s) => s@ == lx && ident_lexeme(lx),
        TokenKind::Comment(t) => {
            &&& lx.len() >= 2
            &&& lx[0] == '/'
            &&& lx[1] == '/'
            &&& !lx.contains('\n')
            &&& t@ == spec_trim(lx.skip(2))
        },
        TokenKind::LitString(v) => {
            &&& lx.len() >= 2
            &&& lx[0] == '"'
            &&& lx.last() == '"'
            &&& unescape(lx.subrange(1, lx.len() - 1)) == Some(v@)
        },
        TokenKind::LitChar(c) => char_lexeme(lx, c),
        TokenKind::LitInteger { value, suffix } => int_lexeme(lx, value, suffix),
        TokenKind::LitFloat { literal, suffix } => float_lexeme(lx, literal@, suffix),
        TokenKind::EOF => false,
        _ => keyword_of(lx) == Some(kind) || punct_text(kind) == Some(lx),
    }
}

/// A character that may stand inside a word: alphanumeric or `_`.
pub open spec fn word_char(c: char) -> bool {
    spec_is_alphanumeric(c) || c == '_'
}

/// A token of kind `kind` with lexeme `lx`, followed by the text `rest`, is
/// as long as it can be: `rest` does not begin with what would extend it
/// (more word characters after a word, `=` after `<`, digits after a number,
/// the rest of the line after a comment, ...).
pub open spec fn stops_before(kind: TokenKind, lx: Seq<char>, rest: Seq<char>) -> bool {
    rest.len() == 0 || {
        let c = rest[0];
        match kind {
            TokenKind::Ident(_) => !word_char(c),
            TokenKind::Underscore => !word_char(c),
            TokenKind::Comment(_) => c == '\n',
            TokenKind::LitString(_) => true,
            TokenKind::LitChar(_) => true,
            TokenKind::LitInteger { suffix, .. } => if lx.len() >= 2 && (lx[1] == 'x' || lx[1] == 'X') {
                !(is_hex_digit(c) || c == '_')
            } else if suffix is Some {
                !is_digit(c)
            } else {
                &&& !(is_digit(c) || c == '_' || c == 'i' || c == 'u' || c == 'f')
                &&& !(c == '.' && rest.len() > 1 && is_digit(rest[1]))
                &&& !(lx.len() == 1 && lx[0] == '0' && (c == 'x' || c == 'X'))
            },
            TokenKind::LitFloat { suffix, .. } => if suffix is Some {
                !is_digit(c)
            } else {
                !(is_digit(c) || c == '_' || c == 'i' || c == 'u' || c == 'f')
            },
            TokenKind::Colon => c != ':',
            TokenKind::Dot => c != '.',
            TokenKind::Minus => c != '>',
            TokenKind::Bang => c != '=',
            TokenKind::Lt => c != '=',
            TokenKind::Gt => c != '=',
            TokenKind::Amp => c != '&',
            TokenKind::Pipe => c != '|',
            TokenKind::Eq => c != '>' && c != '=',
            TokenKind::Slash => c != '/',
            _ => (kind.spec_is_keyword() || kind.spec_is_type_keyword()) ==> !word_char(c),
        }
    }
}

/// A token read from `src`: its lexeme is the text at its span, fits its
/// kind, and is as long as the text lets it be.
pub open spec fn token_fits(src: Seq<char>, t: Token) -> bool {
    &&& t.span.start < t.span.end <= src.len()
    &&& t.lexeme@ == src.subrange(t.span.start as int, t.span.end as int)
    &&& lexeme_fits(t.kind, t.lexeme@)
    &&& stops_before(t.kind, t.lexeme@, src.skip(t.span.end as int))
}

/// Position `j` lies inside one of the tokens.
pub open spec fn in_token(toks: Seq<Token>, j: int) -> bool {
    exists|i: int| 0 <= i < toks.len() && toks[i].span.start <= j < #[trigger] toks[i].span.end
}

/// Number of line breaks before position `n` that lie outside the tokens
/// (a line break inside a string literal does not start a new line).
pub open spec fn line_breaks(src: Seq<char>, toks: Seq<Token>, n: int) -> nat
    decreases n,
{
    if n <= 0 {
        0
    } else {
        line_breaks(src, toks, n - 1) + if src[n - 1] == '\n' && !in_token(toks, n - 1) {
            1nat
        } else {
            0nat
        }
    }
}

/// The position just after the last line break before `n` outside the
/// tokens, or 0.
pub open spec fn line_start(src: Seq<char>, toks: Seq<Token>, n: int) -> int
    decreases n,
{
    if n <= 0 {
        0
    } else if src[n - 1] == '\n' && !in_token(toks, n - 1) {
        n
    } else {
        line_start(src, toks, n - 1)
    }
}

/// The line (from 1) and column (from 1) of position `n`.
pub open spec fn at_position(src: Seq<char>, toks: Seq<Token>, n: int, line: int, column: int) -> bool {
    &&& line == 1 + line_breaks(src, toks, n)
    &&& column == 1 + n - line_start(src, toks, n)
}

/// Each token records the line and column where it starts.
pub open spec fn positioned(src: Seq<char>, toks: Seq<Token>) -> bool {
    forall|i: int|
        0 <= i < toks.len() ==> at_position(
            src,
            toks,
            (#[trigger] toks[i]).span.start as int,
            toks[i].span.line as int,
            toks[i].span.column as int,
        )
}

/// A token added at or after `n` changes nothing before `n`.
pub proof fn lemma_position_push(src: Seq<char>, toks: Seq<Token>, t: Token, n: int)
    requires
        0 <= n <= t.span.start,
    ensures
        line_breaks(src, toks.push(t), n) == line_breaks(src, toks, n),
        line_start(src, toks.push(t), n) == line_start(src, toks, n),
    decreases n,
{
    if n > 0 {
        lemma_position_push(src, toks, t, n - 1);
        let j = n - 1;
        let p = toks.push(t);
        if in_token(p, j) {
            let i = choose|i: int| 0 <= i < p.len() && p[i].span.start <= j < #[trigger] p[i].span.end;
            assert(i < toks.len());
            assert(toks[i] == p[i]);
        }
        if in_token(toks, j) {
            let i = choose|i: int| 0 <= i < toks.len() && toks[i].span.start <= j < #[trigger] toks[i].span.end;
            assert(p[i] == toks[i]);
        }
    }
}

/// Positions inside one token add no line break.
pub proof fn lemma_position_inside(src: Seq<char>, toks: Seq<Token>, k: int, a: int, b: int)
    requires
        0 <= k < toks.len(),
        0 <= toks[k].span.start <= a <= b <= toks[k].span.end,
    ensures
        line_breaks(src, toks, b) == line_breaks(src, toks, a),
        line_start(src, toks, b) == line_start(src, toks, a),
    decreases b - a,
{
    if b > a {
        lemma_position_inside(src, toks, k, a, b - 1);
        assert(in_token(toks, b - 1)) by {
            assert(toks[k].span.start <= b - 1 < toks[k].span.end);
        }
    }
}

/// Tokens read from `src`, in order and without overlap.
pub open spec fn tokens_fit(src: Seq<char>, toks: Seq<Token>) -> bool {
    &&& forall|i: int| 0 <= i < toks.len() ==> token_fits(src, #[trigger] toks[i])
    &&& forall|i: int, j: int| 0 <= i < j < toks.len() ==> #[trigger] toks[i].span.end <= #[trigger] toks[j].span.start
}

/// `toks` is a way to read all of `src` as tokens: each fits the text at its
/// span and is as long as the text lets it be, they come in order without
/// overlap, and every character outside them is white space.
pub open spec fn reads_as(src: Seq<char>, toks: Seq<Token>) -> bool {
    tokens_fit(src, toks) && covered(src, toks, src.len() as int)
}

/// Every character of `src` before `upto` is white space or lies in a token.
pub open spec fn covered(src: Seq<char>, toks: Seq<Token>, upto: int) -> bool {
    forall|j: int| 0 <= j < upto ==> is_ws(#[trigger] src[j])
        || exists|i: int| 0 <= i < toks.len() && toks[i].span.start <= j < #[trigger] toks[i].span.end
}

} // verus!
