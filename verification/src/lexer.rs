use vstd::prelude::*;
use crate::token::{Span, Token, TokenKind, IntSuffix, FloatSuffix, lookup_keyword, keyword_of, punct_text, int_suffix_text, float_suffix_text};
use crate::lex_error::LexerError;
use crate::lexicon::{
    lexeme_fits, stops_before, word_char, token_fits, tokens_fit, covered, is_ws, is_digit, is_hex_digit, is_ascii_letter,
    spec_is_alphanumeric, is_alphanumeric, trim, spec_trim, ident_lexeme, char_lexeme, char_escape,
    string_escape, unescape, lemma_unescape_append, strip_underscores, digits_value, digit_value, lemma_digits_value_prefix,
    is_digit_run, int_lexeme, float_lexeme, float_body, in_token, line_breaks, line_start, at_position,
    positioned, lemma_position_push, lemma_position_inside, kind_agrees, reads_as, ascii_word,
    lemma_keyword_spelling,
};
use crate::text::{push_char, chars_to_string, str_chars};

verus! {

broadcast use vstd::std_specs::vec::group_vec_axioms;

/// Reads CHRONOS source text into tokens.
pub struct Lexer {
    source: Vec<char>,
    tokens: Vec<Token>,
    errors: Vec<LexerError>,
    current: usize,
    start: usize,
    line: usize,
    column: usize,
    start_line: usize,
    start_column: usize,
}

impl Lexer {
    /// The characters being read.
    pub closed spec fn text(&self) -> Seq<char> {
        self.source@
    }

    /// The state between two tokens: everything before `start` is read, the
    /// tokens found so far fit the text, and, while no error was found,
    /// every character before `start` is white space or part of a token.
    pub closed spec fn wf(&self) -> bool {
        &&& self.source@.len() + 2 < usize::MAX
        &&& self.start <= self.current <= self.source@.len()
        &&& 1 <= self.line <= self.current + 1
        &&& 1 <= self.column <= self.current + 1
        &&& 1 <= self.start_line <= self.start + 1
        &&& 1 <= self.start_column <= self.start + 1
        &&& tokens_fit(self.source@, self.tokens@)
        &&& self.tokens@.len() > 0 ==> self.tokens@.last().span.end <= self.current
        &&& self.errors@.len() == 0 ==> covered(self.source@, self.tokens@, self.start as int)
    }

    /// A lexer positioned at the start of `source`.
    pub fn new(source: &str) -> (l: Self)
        requires
            source@.len() + 2 < usize::MAX,
        ensures
            l.wf(),
            l.is_fresh(),
            l.text() == source@,
    {
        Lexer {
            source: str_chars(source),
            tokens: Vec::new(),
            errors: Vec::new(),
            current: 0,
            start: 0,
            line: 1,
            column: 1,
            start_line: 1,
            start_column: 1,
        }
    }
}


/// Whether `c` is a decimal digit.
pub fn is_ascii_digit(c: char) -> (b: bool)
    ensures
        b == is_digit(c),
{
    '0' <= c && c <= '9'
}

/// Whether `c` is a hexadecimal digit.
pub fn is_ascii_hexdigit(c: char) -> (b: bool)
    ensures
        b == is_hex_digit(c),
{
    ('0' <= c && c <= '9') || ('a' <= c && c <= 'f') || ('A' <= c && c <= 'F')
}

/// The number written by decimal digits, if it is at most `i128::MAX`.
fn parse_decimal(ds: &Vec<char>) -> (r: Option<i128>)
    requires
        forall|i: int| 0 <= i < ds@.len() ==> is_digit(#[trigger] ds@[i]),
    ensures
        r matches Some(v) ==> v == digits_value(ds@, 10),
        r is None ==> digits_value(ds@, 10) > i128::MAX,
{
    let mut acc: i128 = 0;
    let mut i: usize = 0;
    while i < ds.len()
        invariant
            i <= ds@.len(),
            forall|k: int| 0 <= k < ds@.len() ==> is_digit(#[trigger] ds@[k]),
            acc == digits_value(ds@.take(i as int), 10),
        decreases ds.len() - i,
    {
        let c = ds[i];
        let d: i128 = (c as u32 - '0' as u32) as i128;
        assert(ds@.take(i + 1).drop_last() =~= ds@.take(i as int));
        assert(ds@.take(i + 1).last() == c);
        proof {
            lemma_digits_value_prefix(ds@, 10, i + 1);
            lemma_digits_value_prefix(ds@, 10, i as int);
        }
        match acc.checked_mul(10) {
            Some(m) => match m.checked_add(d) {
                Some(v) => {
                    acc = v;
                },
                None => {
                    return None;
                },
            },
            None => {
                return None;
            },
        }
        i += 1;
    }
    assert(ds@.take(i as int) =~= ds@);
    Some(acc)
}

/// The number written by hexadecimal digits, if there is at least one and it
/// is at most `u64::MAX`.
fn parse_hex(ds: &Vec<char>) -> (r: Option<u64>)
    requires
        forall|i: int| 0 <= i < ds@.len() ==> is_hex_digit(#[trigger] ds@[i]),
    ensures
        r matches Some(v) ==> ds@.len() > 0 && v == digits_value(ds@, 16),
        r is None ==> ds@.len() == 0 || digits_value(ds@, 16) > u64::MAX,
{
    if ds.len() == 0 {
        return None;
    }
    let mut acc: u64 = 0;
    let mut i: usize = 0;
    while i < ds.len()
        invariant
            i <= ds@.len(),
            forall|k: int| 0 <= k < ds@.len() ==> is_hex_digit(#[trigger] ds@[k]),
            acc == digits_value(ds@.take(i as int), 16),
        decreases ds.len() - i,
    {
        let c = ds[i];
        let d: u64 = if '0' <= c && c <= '9' {
            (c as u32 - '0' as u32) as u64
        } else if 'a' <= c && c <= 'f' {
            (c as u32 - 'a' as u32 + 10) as u64
        } else {
            (c as u32 - 'A' as u32 + 10) as u64
        };
        assert(ds@.take(i + 1).drop_last() =~= ds@.take(i as int));
        assert(ds@.take(i + 1).last() == c);
        proof {
            lemma_digits_value_prefix(ds@, 16, i + 1);
            lemma_digits_value_prefix(ds@, 16, i as int);
        }
        match acc.checked_mul(16) {
            Some(m) => match m.checked_add(d) {
                Some(v) => {
                    acc = v;
                },
                None => {
                    return None;
                },
            },
            None => {
                return None;
            },
        }
        i += 1;
    }
    assert(ds@.take(i as int) =~= ds@);
    Some(acc)
}

/// The characters `v[from..to]` other than `_`.
fn strip_range(v: &Vec<char>, from: usize, to: usize) -> (r: Vec<char>)
    requires
        from <= to <= v@.len(),
    ensures
        r@ == strip_underscores(v@.subrange(from as int, to as int)),
{
    let mut r: Vec<char> = Vec::new();
    let mut i = from;
    while i < to
        invariant
            from <= i <= to,
            to <= v@.len(),
            r@ == strip_underscores(v@.subrange(from as int, i as int)),
        decreases to - i,
    {
        assert(v@.subrange(from as int, i + 1).drop_last() =~= v@.subrange(from as int, i as int));
        if v[i] != '_' {
            r.push(v[i]);
        }
        i += 1;
    }
    r
}

/// Stripping underscores from digits and underscores leaves only digits.
proof fn lemma_strip_digits(s: Seq<char>, hex: bool)
    requires
        forall|i: int| 0 <= i < s.len() ==> (if hex { is_hex_digit(#[trigger] s[i]) } else { is_digit(s[i]) }) || s[i] == '_',
    ensures
        forall|i: int| 0 <= i < strip_underscores(s).len() ==>
            (if hex { is_hex_digit(#[trigger] strip_underscores(s)[i]) } else { is_digit(strip_underscores(s)[i]) }),
    decreases s.len(),
{
    if s.len() > 0 {
        assert forall|i: int| 0 <= i < s.drop_last().len() implies
            (if hex { is_hex_digit(#[trigger] s.drop_last()[i]) } else { is_digit(s.drop_last()[i]) }) || s.drop_last()[i] == '_' by {
            assert(s.drop_last()[i] == s[i]);
        }
        lemma_strip_digits(s.drop_last(), hex);
        let t = strip_underscores(s.drop_last());
        if s.last() != '_' {
            assert forall|i: int| 0 <= i < t.push(s.last()).len() implies
                (if hex { is_hex_digit(#[trigger] t.push(s.last())[i]) } else { is_digit(t.push(s.last())[i]) }) by {
                if i < t.len() {
                    assert(t.push(s.last())[i] == t[i]);
                }
            }
        }
    }
}

/// A digit run keeps a digit after its underscores are removed.
proof fn lemma_strip_nonempty(s: Seq<char>)
    requires
        s.len() > 0,
        s[0] != '_',
    ensures
        strip_underscores(s).len() > 0,
    decreases s.len(),
{
    if s.len() > 1 {
        assert(s.drop_last()[0] == s[0]);
        lemma_strip_nonempty(s.drop_last());
    }
}


/// What the first character of a lexeme says of its kind.
proof fn lemma_fits_first(kind: TokenKind, lx: Seq<char>)
    requires
        lexeme_fits(kind, lx),
    ensures
        lx.len() > 0,
        kind is Ident ==> is_ascii_letter(lx[0]) || lx[0] == '_',
        kind is Comment ==> lx[0] == '/',
        kind is LitString ==> lx[0] == '"',
        kind is LitChar ==> lx[0] == '\'',
        kind is LitInteger || kind is LitFloat ==> is_digit(lx[0]),
        !(kind is Ident || kind is Comment || kind is LitString || kind is LitChar || kind is LitInteger
            || kind is LitFloat || kind is EOF) ==> (keyword_of(lx) == Some(kind) && ascii_word(lx)) || punct_text(
            kind,
        ) == Some(lx),
{
    if keyword_of(lx) is Some {
        lemma_keyword_spelling(lx);
    }
    match kind {
        TokenKind::LitInteger { value, suffix } => {
            if !(lx.len() >= 2 && lx[0] == '0' && (lx[1] == 'x' || lx[1] == 'X')) {
                let n = choose|n: int| {
                    &&& 0 < n <= lx.len()
                    &&& #[trigger] is_digit_run(lx.take(n))
                    &&& value == digits_value(strip_underscores(lx.take(n)), 10)
                    &&& match suffix {
                        None => n == lx.len(),
                        Some(s) => lx.skip(n) == int_suffix_text(s),
                    }
                    &&& !(lx.len() >= 2 && lx[0] == '0' && (lx[1] == 'x' || lx[1] == 'X'))
                };
                assert(lx.take(n)[0] == lx[0]);
            }
        },
        TokenKind::LitFloat { literal, suffix } => {
            let n = choose|n: int| {
                &&& 0 < n <= lx.len()
                &&& #[trigger] float_body(lx.take(n))
                &&& literal@ == strip_underscores(lx.take(n))
                &&& match suffix {
                    None => n == lx.len() && lx.take(n).contains('.'),
                    Some(s) => lx.skip(n) == float_suffix_text(s),
                }
            };
            let b = lx.take(n);
            assert(b[0] == lx[0]);
            if !is_digit_run(b) {
                let d = choose|d: int| {
                    &&& 0 < d < b.len() - 1
                    &&& #[trigger] b[d] == '.'
                    &&& is_digit_run(b.take(d))
                    &&& is_digit_run(b.skip(d + 1))
                };
                assert(b.take(d)[0] == b[0]);
            }
        },
        _ => {},
    }
}

/// Inside a string body that reads well, a prefix that reads well is
/// followed by a character that may continue it: no bare quote, no line
/// break, and a backslash only before a known escape.
proof fn lemma_string_unit(body: Seq<char>, k: int)
    requires
        unescape(body) is Some,
        0 <= k < body.len(),
        unescape(body.take(k)) is Some,
    ensures
        body[k] != '"',
        body[k] != '\n',
        body[k] == '\\' ==> k + 1 < body.len() && string_escape(body[k + 1]) is Some,
{
    lemma_unescape_append(body.take(k), body.skip(k));
    assert(body.take(k) + body.skip(k) =~= body);
    assert(body.skip(k)[0] == body[k]);
    if body.skip(k).len() > 1 {
        assert(body.skip(k)[1] == body[k + 1]);
    }
}

/// A token that fits the text at `start`, where a word runs from `start` to
/// `end`, is that whole word: a name, `_`, or a keyword.
proof fn lemma_word_token(src: Seq<char>, start: int, end: int, t: Token)
    requires
        0 <= start < end <= src.len(),
        is_ascii_letter(src[start]) || src[start] == '_',
        forall|i: int| start < i < end ==> word_char(#[trigger] src[i]),
        end < src.len() ==> !word_char(src[end]) && !('a' <= src[end] <= 'z' || 'A' <= src[end] <= 'Z' || '0' <= src[end]
            <= '9'),
        token_fits(src, t),
        t.span.start == start,
    ensures
        t.span.end == end,
        ({
            let lx = t.lexeme@;
            ||| t.kind is Ident
            ||| t.kind is Underscore && lx == seq!['_']
            ||| keyword_of(lx) == Some(t.kind)
        }),
{
    let lx = t.lexeme@;
    let e = t.span.end as int;
    assert(lx[0] == src[start]);
    if keyword_of(lx) is Some {
        lemma_keyword_spelling(lx);
        crate::token::law_keyword_lookup_sound(lx);
    }
    if e < end {
        assert(word_char(src[e]));
        assert(src.skip(e)[0] == src[e]);
    } else if e > end {
        assert(lx[end - start] == src[end]);
    }
}

impl Lexer {
    /// `self` differs from `o` at most in the read position, the current line
    /// and column, the tokens and the errors.
    pub closed spec fn same_token_start(&self, o: &Lexer) -> bool {
        &&& self.source@ == o.source@
        &&& self.start == o.start
        &&& self.start_line == o.start_line
        &&& self.start_column == o.start_column
    }

    /// The line is unchanged and the column moved with the read position.
    pub closed spec fn same_line(&self, o: &Lexer) -> bool {
        &&& self.line == o.line
        &&& self.column + o.current == o.column + self.current
    }

    /// Only the read position moved, and the column with it.
    pub closed spec fn moved_only(&self, o: &Lexer) -> bool {
        &&& self.same_token_start(o)
        &&& self.tokens@ == o.tokens@
        &&& self.errors@ == o.errors@
        &&& self.same_line(o)
    }

    /// Exactly one token was added, and no error: a token of the kind of `t`
    /// (its text compared by characters) that ends where `t` ends.
    pub closed spec fn read_token_like(&self, o: &Lexer, t: Token) -> bool {
        &&& self.errors@ == o.errors@
        &&& self.tokens@.len() == o.tokens@.len() + 1
        &&& kind_agrees(self.tokens@.last().kind, t.kind)
        &&& self.tokens@.last().span.end == t.span.end
    }

    /// The span from the start of the current token to the read position.
    pub closed spec fn spec_current_span(&self) -> Span {
        Span { start: self.start, end: self.current, line: self.start_line, column: self.start_column }
    }

    /// One step of scanning ended well: either errors were added and no
    /// token, or exactly one token spanning `start..current`.
    pub closed spec fn scan_result(&self, o: &Lexer) -> bool {
        &&& self.same_line(o)
        &&& self.scan_outcome(o)
    }

    /// Errors were added and no token, or exactly one token spanning
    /// `start..current`.
    pub closed spec fn scan_outcome(&self, o: &Lexer) -> bool {
        ||| {
            &&& self.tokens@ == o.tokens@
            &&& self.errors@.len() > o.errors@.len()
            &&& self.errors@.take(o.errors@.len() as int) == o.errors@
        }
        ||| {
            &&& self.errors@ == o.errors@
            &&& self.tokens@.len() == o.tokens@.len() + 1
            &&& self.tokens@.drop_last() == o.tokens@
            &&& self.tokens@.last().span.start == o.start
            &&& self.tokens@.last().span.end == self.current
            &&& self.tokens@.last().span.line == o.start_line
            &&& self.tokens@.last().span.column == o.start_column
        }
    }

    fn is_at_end(&self) -> (b: bool)
        requires
            self.wf(),
        ensures
            b == (self.current >= self.source@.len()),
    {
        self.current >= self.source.len()
    }

    /// The character at the read position, or `'\0'` at the end.
    fn peek(&self) -> (c: char)
        requires
            self.wf(),
        ensures
            self.current < self.source@.len() ==> c == self.source@[self.current as int],
            self.current >= self.source@.len() ==> c == '\0',
    {
        if self.is_at_end() {
            '\0'
        } else {
            self.source[self.current]
        }
    }

    /// The character after the one at the read position.
    fn peek_next(&self) -> (c: Option<char>)
        requires
            self.wf(),
        ensures
            self.current + 1 < self.source@.len() ==> c == Some(self.source@[self.current + 1]),
            self.current + 1 >= self.source@.len() ==> c is None,
    {
        if self.current + 1 >= self.source.len() {
            None
        } else {
            Some(self.source[self.current + 1])
        }
    }

    /// Reads the character at the read position.
    fn advance(&mut self) -> (c: char)
        requires
            old(self).wf(),
            old(self).current < old(self).source@.len(),
        ensures
            final(self).wf(),
            final(self).moved_only(old(self)),
            final(self).current == old(self).current + 1,
            final(self).line == old(self).line,
            c == old(self).source@[old(self).current as int],
    {
        let c = self.source[self.current];
        self.current += 1;
        self.column += 1;
        c
    }

    /// Reads the next character if it is `expected`.
    fn match_char(&mut self, expected: char) -> (b: bool)
        requires
            old(self).wf(),
        ensures
            final(self).wf(),
            final(self).moved_only(old(self)),
            final(self).line == old(self).line,
            b == (old(self).current < old(self).source@.len() && old(self).source@[old(self).current as int] == expected),
            b ==> final(self).current == old(self).current + 1,
            !b ==> final(self).current == old(self).current,
    {
        if self.is_at_end() || self.source[self.current] != expected {
            false
        } else {
            self.current += 1;
            self.column += 1;
            true
        }
    }

    fn current_span(&self) -> (s: Span)
        ensures
            s == self.spec_current_span(),
    {
        Span::new(self.start, self.current, self.start_line, self.start_column)
    }

    /// Records an error; nothing else changes.
    fn push_error(&mut self, e: LexerError)
        requires
            old(self).wf(),
        ensures
            final(self).wf(),
            final(self).same_token_start(old(self)),
            final(self).current == old(self).current,
            final(self).tokens@ == old(self).tokens@,
            final(self).errors@ == old(self).errors@.push(e),
            final(self).errors@.take(old(self).errors@.len() as int) == old(self).errors@,
            final(self).same_line(old(self)),
    {
        self.errors.push(e);
        assert(self.errors@.take(old(self).errors@.len() as int) =~= old(self).errors@);
    }

    /// Records the token read from `start` to the read position.
    fn add_token(&mut self, kind: TokenKind)
        requires
            old(self).wf(),
            old(self).start < old(self).current,
            old(self).tokens@.len() > 0 ==> old(self).tokens@.last().span.end <= old(self).start,
            lexeme_fits(kind, old(self).source@.subrange(old(self).start as int, old(self).current as int)),
            stops_before(
                kind,
                old(self).source@.subrange(old(self).start as int, old(self).current as int),
                old(self).source@.skip(old(self).current as int),
            ),
        ensures
            final(self).wf(),
            final(self).same_token_start(old(self)),
            final(self).current == old(self).current,
            final(self).errors@ == old(self).errors@,
            final(self).tokens@.drop_last() == old(self).tokens@,
            final(self).tokens@.len() == old(self).tokens@.len() + 1,
            final(self).tokens@.last().span == old(self).spec_current_span(),
            final(self).tokens@.last().kind == kind,
            final(self).same_line(old(self)),
    {
        let lexeme = chars_to_string(&self.source, self.start, self.current);
        let span = self.current_span();
        let ghost before = self.tokens@;
        self.tokens.push(Token::new(kind, span, lexeme));
        proof {
            assert(self.tokens@.drop_last() =~= before);
            let n = before.len();
            assert forall|i: int, j: int| 0 <= i < j < self.tokens@.len() implies
                #[trigger] self.tokens@[i].span.end <= #[trigger] self.tokens@[j].span.start by {
                if j == n && i < n - 1 {
                    assert(before[i].span.end <= before[n - 1].span.start);
                }
            }
            assert forall|i: int| 0 <= i < self.tokens@.len() implies token_fits(self.source@, #[trigger] self.tokens@[i]) by {
                if i < n {
                    assert(self.tokens@[i] == before[i]);
                }
            }
            if self.errors@.len() == 0 {
                assert forall|j: int| 0 <= j < self.start implies is_ws(#[trigger] self.source@[j])
                    || exists|i: int| 0 <= i < self.tokens@.len() && self.tokens@[i].span.start <= j < #[trigger] self.tokens@[i].span.end by {
                    if !is_ws(self.source@[j]) {
                        let i = choose|i: int| 0 <= i < before.len() && before[i].span.start <= j < #[trigger] before[i].span.end;
                        assert(self.tokens@[i] == before[i]);
                    }
                }
            }
        }
    }
}


/// Where reading the body of a string literal from `i` on stops: at the
/// closing `"`, at a line break, at the end of the text (also right after a
/// final `\`), or just after an escape `\` with a character that names no
/// escape.
pub open spec fn string_stop(src: Seq<char>, i: int) -> int
    decreases src.len() - i,
{
    if i >= src.len() {
        src.len() as int
    } else if src[i] == '"' || src[i] == '\n' {
        i
    } else if src[i] == '\\' {
        if i + 1 >= src.len() {
            src.len() as int
        } else if string_escape(src[i + 1]) is None {
            i + 2
        } else {
            string_stop(src, i + 2)
        }
    } else {
        string_stop(src, i + 1)
    }
}

/// Reading the body of a string literal from `i` on stops at an escape that
/// names no character.
pub open spec fn string_bad_escape(src: Seq<char>, i: int) -> bool
    decreases src.len() - i,
{
    if i >= src.len() || src[i] == '"' || src[i] == '\n' {
        false
    } else if src[i] == '\\' {
        if i + 1 >= src.len() {
            false
        } else if string_escape(src[i + 1]) is None {
            true
        } else {
            string_bad_escape(src, i + 2)
        }
    } else {
        string_bad_escape(src, i + 1)
    }
}

/// The report for a string literal that starts at `st`, on line `line` and
/// column `col`, whose body is not closed: an escape that names no
/// character is reported with that character, on the line `esc_line`, at
/// its column (on that line, position `p` is at column `col_base + p`);
/// otherwise the literal is unterminated. Either way the span runs from `st`
/// to where reading stopped.
pub open spec fn string_report(src: Seq<char>, st: int, line: usize, col: usize, esc_line: usize, col_base: int) -> LexerError {
    let stop = string_stop(src, st + 1);
    let span = Span { start: st as usize, end: stop as usize, line, column: col };
    if string_bad_escape(src, st + 1) {
        LexerError::InvalidEscapeSequence { ch: src[stop - 1], line: esc_line, col: (col_base + stop - 1) as usize, span }
    } else {
        LexerError::UnterminatedString { line, col, span }
    }
}

/// The first `'` at or after `p`, or the end of the text.
pub open spec fn closing_quote(src: Seq<char>, p: int) -> int
    decreases src.len() - p,
{
    if p >= src.len() || src[p] == '\'' {
        p
    } else {
        closing_quote(src, p + 1)
    }
}

/// No `'` from `p` up to `q`, which is at the end or at a `'`.
proof fn lemma_closing_quote(src: Seq<char>, p: int, q: int)
    requires
        0 <= p <= q <= src.len(),
        forall|k: int| p <= k < q ==> #[trigger] src[k] != '\'',
        q < src.len() ==> src[q] == '\'',
    ensures
        closing_quote(src, p) == q,
    decreases q - p,
{
    if p < q {
        lemma_closing_quote(src, p + 1, q);
    }
}

/// The report for a character literal that starts at `st`, on line `line`
/// and column `col`, and cannot be read, together with where reading
/// stopped: nothing before the closing `'` (or the end) is an empty literal;
/// a `\` at the end, or one character and then the end, is unterminated; an
/// escape that names no character is reported with that character, on the
/// line `esc_line`, at its column (on that line, position `p` is at column
/// `col_base + p`); more than one character is reported up to and with the
/// next `'`. The span runs from `st` to where reading stopped.
pub open spec fn char_report(src: Seq<char>, st: int, line: usize, col: usize, esc_line: usize, col_base: int) -> LexerError {
    let b = st + 1;
    let sp = |end: int| Span { start: st as usize, end: end as usize, line, column: col };
    if b >= src.len() || src[b] == '\'' {
        LexerError::EmptyCharLiteral { line, col, span: sp(if b < src.len() { b + 1 } else { b }) }
    } else if src[b] == '\\' && b + 1 >= src.len() {
        LexerError::UnterminatedChar { line, col, span: sp(b + 1) }
    } else if src[b] == '\\' && char_escape(src[b + 1]) is None {
        LexerError::InvalidEscapeSequence { ch: src[b + 1], line: esc_line, col: (col_base + b + 1) as usize, span: sp(b + 2) }
    } else {
        let p = if src[b] == '\\' { b + 2 } else { b + 1 };
        if p >= src.len() {
            LexerError::UnterminatedChar { line, col, span: sp(p) }
        } else {
            let q = closing_quote(src, p);
            LexerError::MultiCharLiteral { line, col, span: sp(if q < src.len() { q + 1 } else { q }) }
        }
    }
}

impl Lexer {
    /// The first character of a token has just been read.
    pub closed spec fn at_token_start(&self) -> bool {
        &&& self.wf()
        &&& self.current == self.start + 1
        &&& self.tokens@.len() > 0 ==> self.tokens@.last().span.end <= self.start
    }

    /// A comment: `//` has been read; the rest of the line is its text.
    fn scan_comment(&mut self)
        requires
            old(self).wf(),
            old(self).current == old(self).start + 2,
            old(self).tokens@.len() > 0 ==> old(self).tokens@.last().span.end <= old(self).start,
            old(self).source@[old(self).start as int] == '/',
            old(self).source@[old(self).start + 1] == '/',
        ensures
            final(self).wf(),
            final(self).same_token_start(old(self)),
            final(self).current >= old(self).current,
            final(self).scan_result(old(self)),
            forall|t: Token| token_fits(old(self).source@, t) && t.span.start == old(self).start
                ==> final(self).read_token_like(old(self), t),
            final(self).errors@ == old(self).errors@,
    {
        let start = self.current;
        while !self.is_at_end() && self.peek() != '\n'
            invariant
                self.wf(),
                self.moved_only(old(self)),
                self.current >= start,
                start == old(self).current,
                forall|j: int| start <= j < self.current ==> #[trigger] self.source@[j] != '\n',
            decreases self.source@.len() - self.current,
        {
            self.advance();
        }
        let text = chars_to_string(&self.source, start, self.current);
        let trimmed = trim(text.as_str());
        proof {
            let lx = self.source@.subrange(self.start as int, self.current as int);
            assert(lx.skip(2) =~= text@);
            assert(lx[0] == self.source@[self.start as int]);
            assert(lx[1] == self.source@[self.start + 1]);
            assert(!lx.contains('\n')) by {
                if lx.contains('\n') {
                    let j = choose|j: int| 0 <= j < lx.len() && lx[j] == '\n';
                    assert(lx[j] == self.source@[self.start + j]);
                }
            }
        }
        let ghost src = self.source@;
        let ghost st = self.start as int;
        let ghost end = self.current as int;
        self.add_token(TokenKind::Comment(trimmed));
        proof {
            assert forall|t: Token| token_fits(src, t) && t.span.start == st implies self.read_token_like(old(self), t) by {
                let lx = t.lexeme@;
                lemma_fits_first(t.kind, lx);
                assert(lx[0] == src[st]);
                if t.kind is Comment {
                    let e = t.span.end as int;
                    if e < end {
                        assert(src.skip(e)[0] == src[e]);
                    } else if e > end {
                        assert(lx[end - st] == src[end]);
                        assert(lx.contains('\n'));
                    }
                    assert(lx =~= src.subrange(st, end));
                } else {
                    if keyword_of(lx) is Some {
                        lemma_keyword_spelling(lx);
                    }
                    assert(src.skip(t.span.end as int)[0] == src[t.span.end as int]);
                }
            }
        }
    }

    /// A string literal: the opening `"` has been read.
    fn scan_string(&mut self)
        requires
            old(self).at_token_start(),
            old(self).source@[old(self).start as int] == '"',
        ensures
            final(self).wf(),
            final(self).same_token_start(old(self)),
            final(self).current >= old(self).current,
            final(self).scan_result(old(self)),
            forall|t: Token| token_fits(old(self).source@, t) && t.span.start == old(self).start
                ==> final(self).read_token_like(old(self), t),
            final(self).errors@ != old(self).errors@ ==> final(self).errors@ == old(self).errors@.push(
                string_report(
                    old(self).source@,
                    old(self).start as int,
                    old(self).start_line,
                    old(self).start_column,
                    old(self).line,
                    old(self).column - old(self).current,
                ),
            ),
            final(self).errors@ != old(self).errors@ ==> final(self).current == final(self).errors@.last().spec_span().end,
    {
        let mut value = String::new();
        let body_start = self.current;
        let ghost src = self.source@;
        let ghost st = self.start as int;
        assert(self.source@.subrange(body_start as int, body_start as int) =~= Seq::<char>::empty());
        proof {
            assert forall|t: Token| token_fits(src, t) && t.span.start == st implies self.current < t.span.end && t.kind is LitString by {
                lemma_fits_first(t.kind, t.lexeme@);
                assert(t.lexeme@[0] == src[st]);
                if keyword_of(t.lexeme@) is Some {
                    lemma_keyword_spelling(t.lexeme@);
                }
            }
        }
        while !self.is_at_end() && self.peek() != '"'
            invariant
                self.wf(),
                self.moved_only(old(self)),
                self.current >= body_start,
                body_start == old(self).current,
                unescape(self.source@.subrange(body_start as int, self.current as int)) == Some(value@),
                src == self.source@,
                st == self.start,
                body_start == st + 1,
                forall|t: Token| token_fits(src, t) && t.span.start == st ==> self.current < t.span.end && t.kind is LitString,
                string_stop(src, st + 1) == string_stop(src, self.current as int),
                string_bad_escape(src, st + 1) == string_bad_escape(src, self.current as int),
            decreases self.source@.len() - self.current,
        {
            let ghost cur0 = self.current as int;
            proof {
                assert forall|t: Token| token_fits(src, t) && t.span.start == st implies cur0 < t.span.end - 1 && {
                    let body = src.subrange(body_start as int, t.span.end - 1);
                    let k = cur0 - body_start;
                    &&& body[k] == src[cur0]
                    &&& body[k] != '"'
                    &&& body[k] != '\n'
                    &&& (body[k] == '\\' ==> k + 1 < body.len() && string_escape(body[k + 1]) is Some
                        && body[k + 1] == src[cur0 + 1])
                } by {
                    let lx = t.lexeme@;
                    let e = t.span.end as int;
                    assert(lx.last() == src[e - 1]);
                    let body = src.subrange(body_start as int, e - 1);
                    assert(lx.subrange(1, lx.len() - 1) =~= body);
                    let k = cur0 - body_start;
                    assert(body.take(k) =~= src.subrange(body_start as int, cur0));
                    lemma_string_unit(body, k);
                }
            }
            if self.peek() == '\n' {
                let span = self.current_span();
                self.push_error(LexerError::UnterminatedString { line: self.start_line, col: self.start_column, span });
                proof {
                    assert forall|t: Token| token_fits(src, t) && t.span.start == st implies false by {}
                }
                return;
            }
            let ghost before = self.source@.subrange(body_start as int, self.current as int);
            let ghost at = self.current;
            if self.peek() == '\\' {
                self.advance();
                if self.is_at_end() {
                    let span = self.current_span();
                    self.push_error(LexerError::UnterminatedString { line: self.start_line, col: self.start_column, span });
                    proof {
                        assert forall|t: Token| token_fits(src, t) && t.span.start == st implies false by {}
                    }
                    return;
                }
                let escape = self.advance();
                let c = if escape == 'n' {
                    '\n'
                } else if escape == 't' {
                    '\t'
                } else if escape == 'r' {
                    '\r'
                } else if escape == '\\' {
                    '\\'
                } else if escape == '"' {
                    '"'
                } else if escape == '0' {
                    '\0'
                } else {
                    let span = self.current_span();
                    self.push_error(LexerError::InvalidEscapeSequence { ch: escape, line: self.line, col: self.column - 1, span });
                    proof {
                        assert forall|t: Token| token_fits(src, t) && t.span.start == st implies false by {}
                    }
                    return;
                };
                proof {
                    let unit = self.source@.subrange(at as int, self.current as int);
                    assert(unit[0] == '\\');
                    assert(unit[1] == escape);
                    assert(unit.skip(2) =~= Seq::<char>::empty());
                    assert(unescape(unit.skip(2)) == Some(Seq::<char>::empty()));
                    assert(string_escape(unit[1]) == Some(c));
                    assert(seq![c] + Seq::<char>::empty() =~= seq![c]);
                    assert(unescape(unit) == Some(seq![c]));
                    lemma_unescape_append(before, unit);
                    assert(before + unit =~= self.source@.subrange(body_start as int, self.current as int));
                }
                push_char(&mut value, c);
                proof {
                    assert(value@ =~= unescape(before)->0 + seq![c]);
                }
            } else {
                let c = self.advance();
                proof {
                    let unit = self.source@.subrange(at as int, self.current as int);
                    assert(unit[0] == c);
                    assert(unit.skip(1) =~= Seq::<char>::empty());
                    assert(unescape(unit.skip(1)) == Some(Seq::<char>::empty()));
                    assert(unit.len() == 1);
                    assert(c != '"' && c != '\n' && c != '\\');
                    assert(seq![c] + Seq::<char>::empty() =~= seq![c]);
                    assert(unescape(unit) == Some(seq![c]));
                    lemma_unescape_append(before, unit);
                    assert(before + unit =~= self.source@.subrange(body_start as int, self.current as int));
                }
                push_char(&mut value, c);
                proof {
                    assert(value@ =~= unescape(before)->0 + seq![c]);
                }
            }
        }
        if self.is_at_end() {
            let span = self.current_span();
            self.push_error(LexerError::UnterminatedString { line: self.start_line, col: self.start_column, span });
            proof {
                assert forall|t: Token| token_fits(src, t) && t.span.start == st implies false by {}
            }
            return;
        }
        proof {
            assert forall|t: Token| token_fits(src, t) && t.span.start == st implies self.current == t.span.end - 1 && (
            t.kind matches TokenKind::LitString(v) && v@ == value@) by {
                let lx = t.lexeme@;
                let e = t.span.end as int;
                assert(lx.last() == src[e - 1]);
                let body = src.subrange(body_start as int, e - 1);
                assert(lx.subrange(1, lx.len() - 1) =~= body);
                if self.current < e - 1 {
                    let k = self.current - body_start;
                    assert(body.take(k) =~= src.subrange(body_start as int, self.current as int));
                    lemma_string_unit(body, k);
                    assert(body[k] == src[self.current as int]);
                }
                assert(body =~= src.subrange(body_start as int, self.current as int));
            }
        }
        let ghost body_end = self.current;
        self.advance();
        proof {
            let lx = self.source@.subrange(self.start as int, self.current as int);
            assert(lx.subrange(1, lx.len() - 1) =~= self.source@.subrange(body_start as int, body_end as int));
            assert(lx[0] == self.source@[self.start as int]);
            assert(lx.last() == self.source@[body_end as int]);
        }
        self.add_token(TokenKind::LitString(value));
    }

    /// A character literal: the opening `'` has been read.
    fn scan_char(&mut self)
        requires
            old(self).at_token_start(),
            old(self).source@[old(self).start as int] == '\'',
        ensures
            final(self).wf(),
            final(self).same_token_start(old(self)),
            final(self).current >= old(self).current,
            final(self).scan_result(old(self)),
            forall|t: Token| token_fits(old(self).source@, t) && t.span.start == old(self).start
                ==> final(self).read_token_like(old(self), t),            final(self).errors@ != old(self).errors@ ==> final(self).errors@ == old(self).errors@.push(
                char_report(
                    old(self).source@,
                    old(self).start as int,
                    old(self).start_line,
                    old(self).start_column,
                    old(self).line,
                    old(self).column - old(self).current,
                ),
            ),
            final(self).errors@ != old(self).errors@ ==> final(self).current == final(self).errors@.last().spec_span().end,
    {
        let ghost src = self.source@;
        let ghost st = self.start as int;
        proof {
            assert forall|t: Token| token_fits(src, t) && t.span.start == st implies t.kind is LitChar && char_lexeme(
                t.lexeme@,
                t.kind->LitChar_0,
            ) && t.lexeme@ == src.subrange(st, t.span.end as int) by {
                lemma_fits_first(t.kind, t.lexeme@);
                assert(t.lexeme@[0] == src[st]);
                if keyword_of(t.lexeme@) is Some {
                    lemma_keyword_spelling(t.lexeme@);
                }
            }
        }
        if self.is_at_end() || self.peek() == '\'' {
            if !self.is_at_end() {
                self.advance();
            }
            let span = self.current_span();
            self.push_error(LexerError::EmptyCharLiteral { line: self.start_line, col: self.start_column, span });
            proof {
                assert forall|t: Token| token_fits(src, t) && t.span.start == st implies false by {
                    assert(t.lexeme@[1] == src[st + 1]);
                    if t.lexeme@.len() == 4 {
                        assert(t.lexeme@[2] == src[st + 2]);
                    }
                }
            }
            return;
        }
        let ch: char;
        let escaped: bool;
        let ghost first = self.source@[self.current as int];
        let ghost second = if self.current + 1 < self.source@.len() { self.source@[self.current + 1] } else { ' ' };
        if self.peek() == '\\' {
            self.advance();
            if self.is_at_end() {
                let span = self.current_span();
                self.push_error(LexerError::UnterminatedChar { line: self.start_line, col: self.start_column, span });
                proof {
                    assert forall|t: Token| token_fits(src, t) && t.span.start == st implies false by {
                        assert(t.lexeme@[1] == src[st + 1]);
                        if t.lexeme@.len() == 4 {
                            assert(t.lexeme@[2] == src[st + 2]);
                        }
                    }
                }
                return;
            }
            let escape = self.advance();
            ch = if escape == 'n' {
                '\n'
            } else if escape == 't' {
                '\t'
            } else if escape == 'r' {
                '\r'
            } else if escape == '\\' {
                '\\'
            } else if escape == '\'' {
                '\''
            } else if escape == '0' {
                '\0'
            } else {
                let span = self.current_span();
                self.push_error(LexerError::InvalidEscapeSequence { ch: escape, line: self.line, col: self.column - 1, span });
                proof {
                    assert forall|t: Token| token_fits(src, t) && t.span.start == st implies false by {
                        assert(t.lexeme@[1] == src[st + 1]);
                        if t.lexeme@.len() == 4 {
                            assert(t.lexeme@[2] == src[st + 2]);
                        }
                    }
                }
                return;
            };
            escaped = true;
            assert(char_escape(second) == Some(ch));
        } else {
            ch = self.advance();
            escaped = false;
        }
        let ghost p0 = self.current as int;
        if !self.is_at_end() && self.peek() != '\'' {
            while !self.is_at_end() && self.peek() != '\''
                invariant
                    self.wf(),
                    self.moved_only(old(self)),
                    self.current >= old(self).current,
                    self.current >= p0,
                    src == self.source@,
                    forall|k: int| p0 <= k < self.current ==> #[trigger] src[k] != '\'',
                decreases self.source@.len() - self.current,
            {
                self.advance();
            }
            proof {
                lemma_closing_quote(src, p0, self.current as int);
            }
            if !self.is_at_end() {
                self.advance();
            }
            let span = self.current_span();
            self.push_error(LexerError::MultiCharLiteral { line: self.start_line, col: self.start_column, span });
            proof {
                assert forall|t: Token| token_fits(src, t) && t.span.start == st implies false by {
                    assert(t.lexeme@[1] == src[st + 1]);
                    assert(t.lexeme@[2] == src[st + 2]);
                    if t.lexeme@.len() == 4 {
                        assert(t.lexeme@[3] == src[st + 3]);
                    }
                }
            }
            return;
        }
        if self.is_at_end() {
            let span = self.current_span();
            self.push_error(LexerError::UnterminatedChar { line: self.start_line, col: self.start_column, span });
            proof {
                assert forall|t: Token| token_fits(src, t) && t.span.start == st implies false by {
                    assert(t.lexeme@[1] == src[st + 1]);
                    if t.lexeme@.len() == 4 {
                        assert(t.lexeme@[2] == src[st + 2]);
                    }
                }
            }
            return;
        }
        self.advance();
        proof {
            let lx = self.source@.subrange(self.start as int, self.current as int);
            assert(lx[0] == self.source@[self.start as int]);
            assert(lx[1] == first);
            if escaped {
                assert(lx[2] == second);
                assert(lx[3] == self.source@[self.current - 1]);
            } else {
                assert(lx[2] == self.source@[self.current - 1]);
            }
            assert(char_lexeme(lx, ch));
        }
        let ghost end = self.current as int;
        self.add_token(TokenKind::LitChar(ch));
        proof {
            assert forall|t: Token| token_fits(src, t) && t.span.start == st implies self.read_token_like(old(self), t) by {
                assert(t.lexeme@[1] == src[st + 1]);
                assert(t.lexeme@[2] == src[st + 2]);
                if t.lexeme@.len() == 4 {
                    assert(t.lexeme@[3] == src[st + 3]);
                }
            }
        }
    }

    /// An identifier or keyword: its first character has been read.
    fn scan_identifier(&mut self)
        requires
            old(self).at_token_start(),
            is_ascii_letter(old(self).source@[old(self).start as int]) || old(self).source@[old(self).start as int] == '_',
        ensures
            final(self).wf(),
            final(self).same_token_start(old(self)),
            final(self).current >= old(self).current,
            final(self).scan_result(old(self)),
            forall|t: Token| token_fits(old(self).source@, t) && t.span.start == old(self).start
                ==> final(self).read_token_like(old(self), t),
            final(self).errors@ == old(self).errors@,
    {
        while !self.is_at_end() && (is_alphanumeric(self.peek()) || self.peek() == '_')
            invariant
                self.wf(),
                self.moved_only(old(self)),
                self.current >= old(self).current,
                forall|i: int| old(self).current <= i < self.current ==>
                    spec_is_alphanumeric(#[trigger] self.source@[i]) || self.source@[i] == '_',
            decreases self.source@.len() - self.current,
        {
            self.advance();
        }
        let text = chars_to_string(&self.source, self.start, self.current);
        let ghost lx = self.source@.subrange(self.start as int, self.current as int);
        assert(lx[0] == self.source@[self.start as int]);
        assert forall|i: int| 1 <= i < lx.len() implies spec_is_alphanumeric(#[trigger] lx[i]) || lx[i] == '_' by {
            assert(lx[i] == self.source@[self.start + i]);
        }
        let ghost end = self.current;
        proof {
            assert forall|i: int| self.start < i < end implies word_char(#[trigger] self.source@[i]) by {}
            assert(end < self.source@.len() ==> !word_char(self.source@[end as int]) && !('a' <= self.source@[end as int] <= 'z'
                || 'A' <= self.source@[end as int] <= 'Z' || '0' <= self.source@[end as int] <= '9'));
            assert forall|t: Token| token_fits(self.source@, t) && t.span.start == self.start implies t.span.end == end && {
                let lx = t.lexeme@;
                ||| t.kind is Ident
                ||| t.kind is Underscore && lx == seq!['_']
                ||| keyword_of(lx) == Some(t.kind)
            } by {
                lemma_word_token(self.source@, self.start as int, end as int, t);
            }
        }
        let single_underscore = self.current == self.start + 1 && self.source[self.start] == '_';
        let ghost src = self.source@;
        let ghost st = self.start as int;
        if single_underscore {
            assert(lx =~= seq!['_']);
            self.add_token(TokenKind::Underscore);
        } else {
            assert(lx != seq!['_']) by {
                if lx.len() == 1 {
                    assert(lx[0] == self.source@[self.start as int]);
                }
            }
            match lookup_keyword(text.as_str()) {
                Some(k) => self.add_token(k),
                None => {
                    self.add_token(TokenKind::Ident(text));
                },
            }
        }
        proof {
            assert forall|t: Token| token_fits(src, t) && t.span.start == st implies self.read_token_like(
                old(self),
                t,
            ) by {
                lemma_word_token(src, st, end as int, t);
                assert(t.lexeme@ =~= lx);
                if keyword_of(lx) is Some {
                    lemma_keyword_spelling(lx);
                }
            }
        }
    }
}


/// The integer suffix spelled by `s`, if any.
fn int_suffix_of(s: &str) -> (r: Option<IntSuffix>)
    ensures
        r matches Some(x) ==> s@ == int_suffix_text(x),
        forall|x: IntSuffix| s@ == int_suffix_text(x) ==> r == Some(x),
{
    let r = if crate::text::str_eq(s, "i8") {
        Some(IntSuffix::I8)
    } else if crate::text::str_eq(s, "i16") {
        Some(IntSuffix::I16)
    } else if crate::text::str_eq(s, "i32") {
        Some(IntSuffix::I32)
    } else if crate::text::str_eq(s, "i64") {
        Some(IntSuffix::I64)
    } else if crate::text::str_eq(s, "u8") {
        Some(IntSuffix::U8)
    } else if crate::text::str_eq(s, "u16") {
        Some(IntSuffix::U16)
    } else if crate::text::str_eq(s, "u32") {
        Some(IntSuffix::U32)
    } else if crate::text::str_eq(s, "u64") {
        Some(IntSuffix::U64)
    } else {
        None
    };
    proof {
        assert forall|x: IntSuffix| s@ == int_suffix_text(x) implies r == Some(x) by {
            lemma_int_suffix_text_distinct(x, r->0);
            lemma_int_suffix_shape(x);
        }
    }
    r
}

/// The float suffix spelled by `s`, if any.
fn float_suffix_of(s: &str) -> (r: Option<FloatSuffix>)
    ensures
        r matches Some(x) ==> s@ == float_suffix_text(x),
        forall|x: FloatSuffix| s@ == float_suffix_text(x) ==> r == Some(x),
{
    proof {
        reveal_strlit("f32");
        reveal_strlit("f64");
    }
    let r = if crate::text::str_eq(s, "f32") {
        Some(FloatSuffix::F32)
    } else if crate::text::str_eq(s, "f64") {
        Some(FloatSuffix::F64)
    } else {
        None
    };
    proof {
        assert forall|x: FloatSuffix| s@ == float_suffix_text(x) implies r == Some(x) by {
            if s@ == float_suffix_text(FloatSuffix::F32) && x == FloatSuffix::F64 {
                assert(float_suffix_text(FloatSuffix::F32)[1] != float_suffix_text(FloatSuffix::F64)[1]);
            }
        }
    }
    r
}

/// Integer suffixes are `i` or `u` followed by digits.
proof fn lemma_int_suffix_shape(x: IntSuffix)
    ensures
        int_suffix_text(x).len() >= 2,
        int_suffix_text(x)[0] == 'i' || int_suffix_text(x)[0] == 'u',
        forall|i: int| 1 <= i < int_suffix_text(x).len() ==> is_digit(#[trigger] int_suffix_text(x)[i]),
{
    reveal_strlit("i8");
    reveal_strlit("i16");
    reveal_strlit("i32");
    reveal_strlit("i64");
    reveal_strlit("u8");
    reveal_strlit("u16");
    reveal_strlit("u32");
    reveal_strlit("u64");
}

/// Float suffixes are `f` followed by digits.
proof fn lemma_float_suffix_shape(x: FloatSuffix)
    ensures
        float_suffix_text(x).len() >= 2,
        float_suffix_text(x)[0] == 'f',
        forall|i: int| 1 <= i < float_suffix_text(x).len() ==> is_digit(#[trigger] float_suffix_text(x)[i]),
{
    reveal_strlit("f32");
    reveal_strlit("f64");
}

/// Different integer suffixes are spelled differently.
proof fn lemma_int_suffix_text_distinct(x: IntSuffix, y: IntSuffix)
    ensures
        int_suffix_text(x) == int_suffix_text(y) ==> x == y,
{
    reveal_strlit("i8");
    reveal_strlit("i16");
    reveal_strlit("i32");
    reveal_strlit("i64");
    reveal_strlit("u8");
    reveal_strlit("u16");
    reveal_strlit("u32");
    reveal_strlit("u64");
    let a = int_suffix_text(x);
    let b = int_suffix_text(y);
    if a == b {
        assert(a.len() == b.len());
        assert(a[0] == b[0]);
        assert(a[1] == b[1]);
    }
}

/// A token that fits the text at `st`, where `0x` (or `0X`) starts and
/// hexadecimal digits and `_` run on to `hex_end`, is the hexadecimal integer
/// spelled by all of them.
proof fn lemma_hex_token(src: Seq<char>, st: int, hex_end: int, t: Token)
    requires
        token_fits(src, t),
        t.span.start == st,
        0 <= st,
        st + 2 <= hex_end <= src.len(),
        src[st] == '0',
        src[st + 1] == 'x' || src[st + 1] == 'X',
        forall|i: int| st + 2 <= i < hex_end ==> is_hex_digit(#[trigger] src[i]) || src[i] == '_',
        hex_end < src.len() ==> !(is_hex_digit(src[hex_end]) || src[hex_end] == '_'),
    ensures
        t.span.end == hex_end,
        t.kind matches TokenKind::LitInteger { value, suffix } && suffix is None && strip_underscores(
            src.subrange(st + 2, hex_end),
        ).len() > 0 && value == digits_value(strip_underscores(src.subrange(st + 2, hex_end)), 16) && value
            <= u64::MAX,
{
    let lx = t.lexeme@;
    let e = t.span.end as int;
    lemma_fits_first(t.kind, lx);
    assert(lx[0] == src[st]);
    if keyword_of(lx) is Some {
        lemma_keyword_spelling(lx);
    }
    if lx.len() >= 2 {
        assert(lx[1] == src[st + 1]);
    }
    if e < src.len() {
        assert(src.skip(e)[0] == src[e]);
    }
    match t.kind {
        TokenKind::LitInteger { value, suffix } => {
            if lx.len() >= 2 {
                if e < hex_end {
                    assert(src[e] == src.skip(e)[0]);
                } else if e > hex_end {
                    assert(lx[hex_end - st] == src[hex_end]);
                }
                assert(lx.skip(2) =~= src.subrange(st + 2, hex_end));
            } else {
                let n = choose|n: int| {
                    &&& 0 < n <= lx.len()
                    &&& #[trigger] is_digit_run(lx.take(n))
                    &&& value == digits_value(strip_underscores(lx.take(n)), 10)
                    &&& match suffix {
                        None => n == lx.len(),
                        Some(s) => lx.skip(n) == int_suffix_text(s),
                    }
                    &&& !(lx.len() >= 2 && lx[0] == '0' && (lx[1] == 'x' || lx[1] == 'X'))
                };
                if let Some(s) = suffix {
                    lemma_int_suffix_shape(s);
                }
            }
        },
        TokenKind::LitFloat { literal, suffix } => {
            let n = choose|n: int| {
                &&& 0 < n <= lx.len()
                &&& #[trigger] float_body(lx.take(n))
                &&& literal@ == strip_underscores(lx.take(n))
                &&& match suffix {
                    None => n == lx.len() && lx.take(n).contains('.'),
                    Some(s) => lx.skip(n) == float_suffix_text(s),
                }
            };
            let b = lx.take(n);
            if let Some(s) = suffix {
                lemma_float_suffix_shape(s);
                assert(lx.skip(n)[0] == lx[n]);
            }
            if n == 1 {
                if b.contains('.') {
                    let i = choose|i: int| 0 <= i < b.len() && b[i] == '.';
                }
            } else {
                assert(b[1] == lx[1]);
                if !is_digit_run(b) {
                    let d = choose|d: int| {
                        &&& 0 < d < b.len() - 1
                        &&& #[trigger] b[d] == '.'
                        &&& is_digit_run(b.take(d))
                        &&& is_digit_run(b.skip(d + 1))
                    };
                    if d > 1 {
                        assert(b.take(d)[1] == b[1]);
                    }
                }
            }
        },
        _ => {},
    }
}

/// A decimal number starts at `st` (not `0x`): digits and `_` run to
/// `int_end`, then, when `is_float`, a `.`, a digit, and digits and `_` to
/// `num_end`.
spec fn decimal_shape(src: Seq<char>, st: int, int_end: int, num_end: int, is_float: bool) -> bool {
    &&& 0 <= st < int_end <= num_end <= src.len()
    &&& is_digit(src[st])
    &&& !(st + 1 < src.len() && src[st] == '0' && (src[st + 1] == 'x' || src[st + 1] == 'X'))
    &&& forall|i: int| st <= i < int_end ==> is_digit(#[trigger] src[i]) || src[i] == '_'
    &&& int_end < src.len() ==> !is_digit(src[int_end]) && src[int_end] != '_'
    &&& is_float == (int_end + 1 < src.len() && src[int_end] == '.' && is_digit(src[int_end + 1]))
    &&& is_float ==> int_end + 1 < num_end
    &&& is_float ==> forall|i: int| int_end < i < num_end ==> is_digit(#[trigger] src[i]) || src[i] == '_'
    &&& is_float ==> (num_end < src.len() ==> !is_digit(src[num_end]) && src[num_end] != '_')
    &&& !is_float ==> num_end == int_end
}

/// A token that fits the text at `st`, where a decimal number is shaped as
/// `decimal_shape` says, is a number literal whose digits are exactly those
/// up to `num_end`, followed at most by a suffix.
proof fn lemma_decimal_token(src: Seq<char>, st: int, int_end: int, num_end: int, is_float: bool, t: Token)
    requires
        token_fits(src, t),
        t.span.start == st,
        decimal_shape(src, st, int_end, num_end, is_float),
    ensures
        num_end <= t.span.end,
        t.kind is LitInteger || t.kind is LitFloat,
        t.kind matches TokenKind::LitInteger { value, suffix } ==> {
            &&& !is_float
            &&& value == digits_value(strip_underscores(src.subrange(st, num_end)), 10)
            &&& suffix is None ==> t.span.end == num_end
            &&& suffix matches Some(s) ==> src.subrange(num_end, t.span.end as int) == int_suffix_text(s)
        },
        t.kind matches TokenKind::LitFloat { literal, suffix } ==> {
            &&& literal@ == strip_underscores(src.subrange(st, num_end))
            &&& suffix is None ==> t.span.end == num_end && is_float
            &&& suffix matches Some(s) ==> src.subrange(num_end, t.span.end as int) == float_suffix_text(s)
        },
        t.span.end == num_end ==> num_end == src.len() || !(src[num_end] == 'i' || src[num_end] == 'u' || src[num_end]
            == 'f'),
        t.span.end > num_end ==> t.span.end == src.len() || !is_digit(src[t.span.end as int]),
{
    lemma_decimal_token_parts(src, st, int_end, num_end, is_float, t);
}

/// A decimal number not followed by a suffix letter: a token that fits there
/// is the plain literal, a float exactly when a fraction was read.
proof fn lemma_decimal_plain(src: Seq<char>, st: int, int_end: int, num_end: int, is_float: bool, t: Token)
    requires
        token_fits(src, t),
        t.span.start == st,
        decimal_shape(src, st, int_end, num_end, is_float),
        num_end == src.len() || !(src[num_end] == 'i' || src[num_end] == 'u' || src[num_end] == 'f'),
    ensures
        t.span.end == num_end,
        is_float ==> (t.kind matches TokenKind::LitFloat { literal, suffix } && suffix is None && literal@
            == strip_underscores(src.subrange(st, num_end))),
        !is_float ==> (t.kind matches TokenKind::LitInteger { value, suffix } && suffix is None && value
            == digits_value(strip_underscores(src.subrange(st, num_end)), 10)),
{
    lemma_decimal_token(src, st, int_end, num_end, is_float, t);
    let e = t.span.end as int;
    match t.kind {
        TokenKind::LitInteger { suffix: Some(x), .. } => {
            lemma_int_suffix_shape(x);
            assert(src.subrange(num_end, e)[0] == src[num_end]);
        },
        TokenKind::LitFloat { suffix: Some(x), .. } => {
            lemma_float_suffix_shape(x);
            assert(src.subrange(num_end, e)[0] == src[num_end]);
        },
        _ => {},
    }
}

/// A decimal number followed by a suffix letter and digits up to `se`: a
/// token that fits there ends at `se`, and its suffix is that text, an
/// integer suffix (`i`, `u`) on a number without fraction or a float suffix.
proof fn lemma_decimal_suffixed(
    src: Seq<char>,
    st: int,
    int_end: int,
    num_end: int,
    is_float: bool,
    se: int,
    t: Token,
)
    requires
        token_fits(src, t),
        t.span.start == st,
        decimal_shape(src, st, int_end, num_end, is_float),
        num_end < se <= src.len(),
        src[num_end] == 'i' || src[num_end] == 'u' || src[num_end] == 'f',
        forall|i: int| num_end < i < se ==> is_digit(#[trigger] src[i]),
        se < src.len() ==> !is_digit(src[se]),
    ensures
        t.span.end == se,
        ({
            let digits = strip_underscores(src.subrange(st, num_end));
            let text = src.subrange(num_end, se);
            ||| t.kind is LitInteger && !is_float && src[num_end] != 'f' && (t.kind->LitInteger_suffix matches Some(x)
                && text == int_suffix_text(x)) && t.kind->value == digits_value(digits, 10)
            ||| t.kind is LitFloat && (is_float || src[num_end] == 'f') && (t.kind->LitFloat_suffix matches Some(x)
                && text == float_suffix_text(x)) && t.kind->literal@ == digits
        }),
{
    lemma_decimal_token(src, st, int_end, num_end, is_float, t);
    let e = t.span.end as int;
    match t.kind {
        TokenKind::LitInteger { suffix: Some(x), .. } => {
            lemma_int_suffix_shape(x);
            assert(src.subrange(num_end, e)[0] == src[num_end]);
            if e > se {
                assert(src.subrange(num_end, e)[se - num_end] == src[se]);
            }
            assert(src.subrange(num_end, e) =~= src.subrange(num_end, se));
        },
        TokenKind::LitFloat { suffix: Some(x), .. } => {
            lemma_float_suffix_shape(x);
            assert(src.subrange(num_end, e)[0] == src[num_end]);
            if e > se {
                assert(src.subrange(num_end, e)[se - num_end] == src[se]);
            }
            assert(src.subrange(num_end, e) =~= src.subrange(num_end, se));
        },
        _ => {},
    }
}

proof fn lemma_decimal_token_parts(src: Seq<char>, st: int, int_end: int, num_end: int, is_float: bool, t: Token)
    requires
        token_fits(src, t),
        t.span.start == st,
        0 <= st < int_end <= num_end <= src.len(),
        is_digit(src[st]),
        !(st + 1 < src.len() && src[st] == '0' && (src[st + 1] == 'x' || src[st + 1] == 'X')),
        forall|i: int| st <= i < int_end ==> is_digit(#[trigger] src[i]) || src[i] == '_',
        int_end < src.len() ==> !is_digit(src[int_end]) && src[int_end] != '_',
        is_float == (int_end + 1 < src.len() && src[int_end] == '.' && is_digit(src[int_end + 1])),
        is_float ==> int_end + 1 < num_end,
        is_float ==> forall|i: int| int_end < i < num_end ==> is_digit(#[trigger] src[i]) || src[i] == '_',
        is_float ==> (num_end < src.len() ==> !is_digit(src[num_end]) && src[num_end] != '_'),
        !is_float ==> num_end == int_end,
    ensures
        num_end <= t.span.end,
        t.kind is LitInteger || t.kind is LitFloat,
        t.kind matches TokenKind::LitInteger { value, suffix } ==> {
            &&& !is_float
            &&& value == digits_value(strip_underscores(src.subrange(st, num_end)), 10)
            &&& suffix is None ==> t.span.end == num_end
            &&& suffix matches Some(s) ==> src.subrange(num_end, t.span.end as int) == int_suffix_text(s)
        },
        t.kind matches TokenKind::LitFloat { literal, suffix } ==> {
            &&& literal@ == strip_underscores(src.subrange(st, num_end))
            &&& suffix is None ==> t.span.end == num_end && is_float
            &&& suffix matches Some(s) ==> src.subrange(num_end, t.span.end as int) == float_suffix_text(s)
        },
        t.span.end == num_end ==> num_end == src.len() || !(src[num_end] == 'i' || src[num_end] == 'u' || src[num_end]
            == 'f'),
        t.span.end > num_end ==> t.span.end == src.len() || !is_digit(src[t.span.end as int]),
{
    let lx = t.lexeme@;
    lemma_fits_first(t.kind, lx);
    assert(lx[0] == src[st]);
    if keyword_of(lx) is Some {
        lemma_keyword_spelling(lx);
    }
    if t.kind is LitInteger {
        lemma_decimal_int(src, st, int_end, num_end, is_float, t);
    } else if t.kind is LitFloat {
        lemma_decimal_float(src, st, int_end, num_end, is_float, t);
    }
}

/// The integer case of `lemma_decimal_token`.
#[verifier::spinoff_prover]
proof fn lemma_decimal_int(src: Seq<char>, st: int, int_end: int, num_end: int, is_float: bool, t: Token)
    requires
        token_fits(src, t),
        t.span.start == st,
        0 <= st < int_end <= num_end <= src.len(),
        is_digit(src[st]),
        !(st + 1 < src.len() && src[st] == '0' && (src[st + 1] == 'x' || src[st + 1] == 'X')),
        forall|i: int| st <= i < int_end ==> is_digit(#[trigger] src[i]) || src[i] == '_',
        int_end < src.len() ==> !is_digit(src[int_end]) && src[int_end] != '_',
        is_float == (int_end + 1 < src.len() && src[int_end] == '.' && is_digit(src[int_end + 1])),
        is_float ==> int_end + 1 < num_end,
        is_float ==> forall|i: int| int_end < i < num_end ==> is_digit(#[trigger] src[i]) || src[i] == '_',
        is_float ==> (num_end < src.len() ==> !is_digit(src[num_end]) && src[num_end] != '_'),
        !is_float ==> num_end == int_end,
        t.kind is LitInteger,
    ensures
        num_end <= t.span.end,
        t.kind matches TokenKind::LitInteger { value, suffix } ==> {
            &&& !is_float
            &&& value == digits_value(strip_underscores(src.subrange(st, num_end)), 10)
            &&& suffix is None ==> t.span.end == num_end
            &&& suffix matches Some(s) ==> src.subrange(num_end, t.span.end as int) == int_suffix_text(s)
        },
        t.span.end == num_end ==> num_end == src.len() || !(src[num_end] == 'i' || src[num_end] == 'u' || src[num_end]
            == 'f'),
        t.span.end > num_end ==> t.span.end == src.len() || !is_digit(src[t.span.end as int]),
{
    let lx = t.lexeme@;
    let e = t.span.end as int;
    assert(lx[0] == src[st]);
    if e < src.len() {
        assert(src.skip(e)[0] == src[e]);
    }
    if e + 1 < src.len() {
        assert(src.skip(e)[1] == src[e + 1]);
    }
    if lx.len() >= 2 {
        assert(lx[1] == src[st + 1]);
    }
    let value = t.kind->value;
    let suffix = t.kind->LitInteger_suffix;
    let n = choose|n: int| {
        &&& 0 < n <= lx.len()
        &&& #[trigger] is_digit_run(lx.take(n))
        &&& value == digits_value(strip_underscores(lx.take(n)), 10)
        &&& match suffix {
            None => n == lx.len(),
            Some(s) => lx.skip(n) == int_suffix_text(s),
        }
        &&& !(lx.len() >= 2 && lx[0] == '0' && (lx[1] == 'x' || lx[1] == 'X'))
    };
    let b = lx.take(n);
    assert(b =~= src.subrange(st, st + n));
    if st + n > int_end {
        assert(b[int_end - st] == src[int_end]);
    }
    if n >= 2 {
        assert(b[1] == lx[1]);
    }
    match suffix {
        None => {
            if st + n < int_end {
                assert(src[st + n] == src[e]);
            }
        },
        Some(s) => {
            lemma_int_suffix_shape(s);
            assert(lx.skip(n)[0] == lx[n]);
            assert(lx[n] == src[st + n]);
            assert(lx.skip(n) =~= src.subrange(num_end, e));
        },
    }
}

/// The floating-point case of `lemma_decimal_token`.
#[verifier::spinoff_prover]
proof fn lemma_decimal_float(src: Seq<char>, st: int, int_end: int, num_end: int, is_float: bool, t: Token)
    requires
        token_fits(src, t),
        t.span.start == st,
        0 <= st < int_end <= num_end <= src.len(),
        is_digit(src[st]),
        !(st + 1 < src.len() && src[st] == '0' && (src[st + 1] == 'x' || src[st + 1] == 'X')),
        forall|i: int| st <= i < int_end ==> is_digit(#[trigger] src[i]) || src[i] == '_',
        int_end < src.len() ==> !is_digit(src[int_end]) && src[int_end] != '_',
        is_float == (int_end + 1 < src.len() && src[int_end] == '.' && is_digit(src[int_end + 1])),
        is_float ==> int_end + 1 < num_end,
        is_float ==> forall|i: int| int_end < i < num_end ==> is_digit(#[trigger] src[i]) || src[i] == '_',
        is_float ==> (num_end < src.len() ==> !is_digit(src[num_end]) && src[num_end] != '_'),
        !is_float ==> num_end == int_end,
        t.kind is LitFloat,
    ensures
        num_end <= t.span.end,
        t.kind matches TokenKind::LitFloat { literal, suffix } ==> {
            &&& literal@ == strip_underscores(src.subrange(st, num_end))
            &&& suffix is None ==> t.span.end == num_end && is_float
            &&& suffix matches Some(s) ==> src.subrange(num_end, t.span.end as int) == float_suffix_text(s)
        },
        t.span.end == num_end ==> num_end == src.len() || !(src[num_end] == 'i' || src[num_end] == 'u' || src[num_end]
            == 'f'),
        t.span.end > num_end ==> t.span.end == src.len() || !is_digit(src[t.span.end as int]),
{
    let lx = t.lexeme@;
    let e = t.span.end as int;
    assert(lx[0] == src[st]);
    if e < src.len() {
        assert(src.skip(e)[0] == src[e]);
    }
    if e + 1 < src.len() {
        assert(src.skip(e)[1] == src[e + 1]);
    }
    let literal = t.kind->literal;
    let suffix = t.kind->LitFloat_suffix;
    let n = choose|n: int| {
        &&& 0 < n <= lx.len()
        &&& #[trigger] float_body(lx.take(n))
        &&& literal@ == strip_underscores(lx.take(n))
        &&& match suffix {
            None => n == lx.len() && lx.take(n).contains('.'),
            Some(s) => lx.skip(n) == float_suffix_text(s),
        }
    };
    let b = lx.take(n);
    assert(b =~= src.subrange(st, st + n));
    if let Some(s) = suffix {
        lemma_float_suffix_shape(s);
        assert(lx.skip(n)[0] == lx[n]);
        assert(lx[n] == src[st + n]);
        assert(lx.skip(n) =~= src.subrange(st + n, e));
    }
    if is_digit_run(b) {
        assert(!b.contains('.')) by {
            if b.contains('.') {
                let i = choose|i: int| 0 <= i < b.len() && b[i] == '.';
            }
        }
        if st + n > int_end {
            assert(b[int_end - st] == src[int_end]);
        }
    } else {
        let d = choose|d: int| {
            &&& 0 < d < b.len() - 1
            &&& #[trigger] b[d] == '.'
            &&& is_digit_run(b.take(d))
            &&& is_digit_run(b.skip(d + 1))
        };
        assert(b[d] == src[st + d]);
        if st + d > int_end {
            assert(b.take(d)[int_end - st] == src[int_end]);
        }
        assert(b.skip(d + 1)[0] == b[d + 1]);
        assert(b[d + 1] == src[st + d + 1]);
        if st + n > num_end {
            assert(b.skip(d + 1)[num_end - st - d - 1] == src[num_end]);
        }
        if st + n < num_end {
            assert(src[st + n] == src[e] || suffix is Some);
        }
    }
}

impl Lexer {
    /// Reads characters while they are digits or `_`.
    fn skip_digits(&mut self)
        requires
            old(self).wf(),
        ensures
            final(self).wf(),
            final(self).moved_only(old(self)),
            final(self).current >= old(self).current,
            forall|i: int| old(self).current <= i < final(self).current ==>
                is_digit(#[trigger] final(self).source@[i]) || final(self).source@[i] == '_',
            final(self).current < final(self).source@.len() ==>
                !is_digit(final(self).source@[final(self).current as int]) && final(self).source@[final(self).current as int] != '_',
    {
        while !self.is_at_end() && (is_ascii_digit(self.peek()) || self.peek() == '_')
            invariant
                self.wf(),
                self.moved_only(old(self)),
                self.current >= old(self).current,
                forall|i: int| old(self).current <= i < self.current ==>
                    is_digit(#[trigger] self.source@[i]) || self.source@[i] == '_',
            decreases self.source@.len() - self.current,
        {
            self.advance();
        }
    }

    /// A number literal: its first digit has been read.
    #[verifier::spinoff_prover]
    #[verifier::rlimit(80)]
    fn scan_number(&mut self)
        requires
            old(self).at_token_start(),
            is_digit(old(self).source@[old(self).start as int]),
        ensures
            final(self).wf(),
            final(self).same_token_start(old(self)),
            final(self).current >= old(self).current,
            final(self).scan_result(old(self)),
            forall|t: Token| token_fits(old(self).source@, t) && t.span.start == old(self).start
                ==> final(self).read_token_like(old(self), t),
            final(self).errors@ != old(self).errors@ ==> {
                &&& final(self).errors@.len() == old(self).errors@.len() + 1
                &&& final(self).errors@.drop_last() == old(self).errors@
                &&& number_report(
                    final(self).errors@.last(),
                    old(self).source@,
                    old(self).start as int,
                    old(self).start_line,
                    old(self).start_column,
                )
            },
            final(self).errors@ != old(self).errors@ ==> final(self).current == final(self).errors@.last().spec_span().end,
    {
        let start_pos = self.current - 1;
        let ghost src = self.source@;
        let ghost st = self.start as int;
        if self.source[start_pos] == '0' && !self.is_at_end() && (self.peek() == 'x' || self.peek() == 'X') {
            self.advance();
            let hex_start = self.current;
            while !self.is_at_end() && (is_ascii_hexdigit(self.peek()) || self.peek() == '_')
                invariant
                    self.wf(),
                    self.moved_only(old(self)),
                    self.current >= hex_start,
                    hex_start == old(self).current + 1,
                    forall|i: int| hex_start <= i < self.current ==>
                        is_hex_digit(#[trigger] self.source@[i]) || self.source@[i] == '_',
                decreases self.source@.len() - self.current,
            {
                self.advance();
            }
            proof {
                assert forall|k: int| hex_start <= k < self.current implies in_run(#[trigger] src[k], 0) by {}
                lemma_run_end(src, hex_start as int, self.current as int, 0);
            }
            let hex = strip_range(&self.source, hex_start, self.current);
            proof {
                let raw = self.source@.subrange(hex_start as int, self.current as int);
                assert forall|i: int| 0 <= i < raw.len() implies
                    (if true { is_hex_digit(#[trigger] raw[i]) } else { is_digit(raw[i]) }) || raw[i] == '_' by {
                    assert(raw[i] == self.source@[hex_start + i]);
                }
                lemma_strip_digits(raw, true);
            }
            match parse_hex(&hex) {
                Some(val) => {
                    proof {
                        let lx = self.source@.subrange(self.start as int, self.current as int);
                        assert(lx.skip(2) =~= self.source@.subrange(hex_start as int, self.current as int));
                        assert(lx[0] == self.source@[self.start as int]);
                        assert(lx[1] == self.source@[self.start + 1]);
                        assert forall|i: int| 2 <= i < lx.len() implies is_hex_digit(#[trigger] lx[i]) || lx[i] == '_' by {
                            assert(lx[i] == self.source@[self.start + i]);
                        }
                        assert(int_lexeme(lx, val as i128, None));
                    }
                    let ghost hex_end = self.current as int;
                    self.add_token(TokenKind::LitInteger { value: val as i128, suffix: None });
                    proof {
                        assert forall|t: Token| token_fits(src, t) && t.span.start == st implies self.read_token_like(
                            old(self),
                            t,
                        ) by {
                            lemma_hex_token(src, st, hex_end, t);
                        }
                    }
                },
                None => {
                    proof {
                        assert forall|t: Token| token_fits(src, t) && t.span.start == st implies false by {
                            lemma_hex_token(src, st, self.current as int, t);
                        }
                    }
                    let raw = chars_to_string(&self.source, start_pos, self.current);
                    let span = self.current_span();
                    self.push_error(LexerError::InvalidNumberLiteral {
                        value: raw,
                        line: self.start_line,
                        col: self.start_column,
                        span,
                    });
                },
            }
            return;
        }
        let ghost not_hex = !(self.current < self.source@.len() && self.source@[start_pos as int] == '0'
            && (self.source@[self.current as int] == 'x' || self.source@[self.current as int] == 'X'));
        self.skip_digits();
        let int_end = self.current;
        let mut is_float = false;
        if !self.is_at_end() && self.peek() == '.' && match self.peek_next() {
            Some(c) => is_ascii_digit(c),
            None => false,
        } {
            is_float = true;
            self.advance();
            self.skip_digits();
        }
        let num_end = self.current;
        proof {
            assert forall|i: int| st <= i < int_end implies is_digit(#[trigger] src[i]) || src[i] == '_' by {}
            assert(decimal_shape(src, st, int_end as int, num_end as int, is_float));
            assert forall|k: int| st <= k < int_end implies in_run(#[trigger] src[k], 1) by {}
            lemma_run_end(src, st, int_end as int, 1);
            if is_float {
                assert forall|k: int| int_end + 1 <= k < num_end implies in_run(#[trigger] src[k], 1) by {}
                lemma_run_end(src, int_end + 1, num_end as int, 1);
            }
        }
        let num_chars = strip_range(&self.source, start_pos, num_end);
        let num_str = chars_to_string(&num_chars, 0, num_chars.len());
        assert(num_str@ =~= num_chars@);
        let ghost body = self.source@.subrange(start_pos as int, num_end as int);
        proof {
            assert forall|i: int| 0 <= i < body.len() implies
                (if false { is_hex_digit(#[trigger] body[i]) } else { is_digit(body[i]) }) || body[i] == '_' || (is_float && i == int_end - start_pos) by {
                assert(body[i] == self.source@[start_pos + i]);
            }
        }
        let ghost fbody = float_body(body);
        proof {
            if is_float {
                let d = int_end - start_pos;
                assert(body[d] == '.');
                assert(body.take(d) =~= self.source@.subrange(start_pos as int, int_end as int));
                assert(body.skip(d + 1) =~= self.source@.subrange(int_end + 1, num_end as int));
                assert forall|i: int| 0 <= i < body.take(d).len() implies is_digit(#[trigger] body.take(d)[i]) || body.take(d)[i] == '_' by {
                    assert(body.take(d)[i] == self.source@[start_pos + i]);
                }
                assert forall|i: int| 0 <= i < body.skip(d + 1).len() implies is_digit(#[trigger] body.skip(d + 1)[i]) || body.skip(d + 1)[i] == '_' by {
                    assert(body.skip(d + 1)[i] == self.source@[int_end + 1 + i]);
                }
                assert(is_digit_run(body.take(d)));
                assert(is_digit_run(body.skip(d + 1)));
                assert(float_body(body));
                assert(body.contains('.'));
            } else {
                assert forall|i: int| 0 <= i < body.len() implies is_digit(#[trigger] body[i]) || body[i] == '_' by {
                    assert(body[i] == self.source@[start_pos + i]);
                }
                assert(is_digit_run(body));
                assert(float_body(body));
                lemma_strip_digits(body, false);
            }
        }
        if !self.is_at_end() && (self.peek() == 'i' || self.peek() == 'u' || self.peek() == 'f') {
            let suffix_start = self.current;
            let first = self.advance();
            while !self.is_at_end() && is_ascii_digit(self.peek())
                invariant
                    self.wf(),
                    self.moved_only(old(self)),
                    self.current > suffix_start,
                    suffix_start == num_end,
                    num_end >= old(self).current,
                    forall|i: int| suffix_start < i < self.current ==> is_digit(#[trigger] self.source@[i]),
                decreases self.source@.len() - self.current,
            {
                self.advance();
            }
            proof {
                assert forall|k: int| suffix_start + 1 <= k < self.current implies in_run(#[trigger] src[k], 2) by {}
                lemma_run_end(src, suffix_start + 1, self.current as int, 2);
            }
            let suffix_str = chars_to_string(&self.source, suffix_start, self.current);
            proof {
                let lx = self.source@.subrange(self.start as int, self.current as int);
                let n = num_end - self.start;
                assert(lx.take(n) =~= body);
                assert(lx.skip(n) =~= suffix_str@);
            }
            let ghost se = self.current as int;
            proof {
                assert forall|t: Token| token_fits(src, t) && t.span.start == st implies t.span.end == se && ({
                    ||| t.kind is LitInteger && !is_float && first != 'f' && (t.kind->LitInteger_suffix matches Some(x)
                        && suffix_str@ == int_suffix_text(x)) && t.kind->value == digits_value(num_chars@, 10)
                    ||| t.kind is LitFloat && (is_float || first == 'f') && (t.kind->LitFloat_suffix matches Some(x)
                        && suffix_str@ == float_suffix_text(x)) && t.kind->literal@ == num_chars@
                }) by {
                    lemma_decimal_suffixed(src, st, int_end as int, num_end as int, is_float, se, t);
                }
            }
            if is_float || first == 'f' {
                match float_suffix_of(suffix_str.as_str()) {
                    Some(fs) => {
                        proof {
                            let lx = self.source@.subrange(self.start as int, self.current as int);
                            let n = num_end - self.start;
                            assert(float_lexeme(lx, num_str@, Some(fs)));
                        }
                        self.add_token(TokenKind::LitFloat { literal: num_str, suffix: Some(fs) });
                    },
                    None => {
                        proof {
                            assert forall|t: Token| token_fits(src, t) && t.span.start == st implies false by {}
                        }
                        let span = self.current_span();
                        self.push_error(LexerError::InvalidIntSuffix {
                            suffix: suffix_str,
                            line: self.start_line,
                            col: self.start_column,
                            span,
                        });
                    },
                }
            } else {
                match int_suffix_of(suffix_str.as_str()) {
                    Some(is) => match parse_decimal(&num_chars) {
                        Some(val) => {
                            proof {
                                let lx = self.source@.subrange(self.start as int, self.current as int);
                                let n = num_end - self.start;
                                assert(lx[0] == self.source@[self.start as int]);
                                assert(lx.len() >= 2 ==> lx[1] == self.source@[self.start + 1]);
                                assert(is_digit_run(lx.take(n)));
                                assert(int_lexeme(lx, val, Some(is)));
                            }
                            self.add_token(TokenKind::LitInteger { value: val, suffix: Some(is) });
                        },
                        None => {
                            proof {
                                assert forall|t: Token| token_fits(src, t) && t.span.start == st implies false by {}
                            }
                            let span = self.current_span();
                            self.push_error(LexerError::InvalidNumberLiteral {
                                value: num_str,
                                line: self.start_line,
                                col: self.start_column,
                                span,
                            });
                        },
                    },
                    None => {
                        proof {
                            assert forall|t: Token| token_fits(src, t) && t.span.start == st implies false by {}
                        }
                        let span = self.current_span();
                        self.push_error(LexerError::InvalidIntSuffix {
                            suffix: suffix_str,
                            line: self.start_line,
                            col: self.start_column,
                            span,
                        });
                    },
                }
            }
        } else if is_float {
            proof {
                assert forall|t: Token| token_fits(src, t) && t.span.start == st implies t.span.end == num_end && (
                t.kind matches TokenKind::LitFloat { literal, suffix } && suffix is None && literal@ == num_chars@) by {
                    lemma_decimal_plain(src, st, int_end as int, num_end as int, is_float, t);
                }
            }
            proof {
                let lx = self.source@.subrange(self.start as int, self.current as int);
                let n = num_end - self.start;
                assert(lx.take(n) =~= body);
                assert(float_lexeme(lx, num_str@, None));
            }
            self.add_token(TokenKind::LitFloat { literal: num_str, suffix: None });
        } else {
            proof {
                assert forall|t: Token| token_fits(src, t) && t.span.start == st implies t.span.end == num_end && (
                t.kind matches TokenKind::LitInteger { value, suffix } && suffix is None && value == digits_value(
                    num_chars@,
                    10,
                )) by {
                    lemma_decimal_plain(src, st, int_end as int, num_end as int, is_float, t);
                }
            }
            match parse_decimal(&num_chars) {
                Some(val) => {
                    proof {
                        let lx = self.source@.subrange(self.start as int, self.current as int);
                        let n = num_end - self.start;
                        assert(lx.take(n) =~= body);
                        assert(lx[0] == self.source@[self.start as int]);
                        assert(lx.len() >= 2 ==> lx[1] == self.source@[self.start + 1]);
                        assert(int_lexeme(lx, val, None));
                    }
                    self.add_token(TokenKind::LitInteger { value: val, suffix: None });
                },
                None => {
                    proof {
                        assert forall|t: Token| token_fits(src, t) && t.span.start == st implies false by {}
                    }
                    let span = self.current_span();
                    self.push_error(LexerError::InvalidNumberLiteral {
                        value: num_str,
                        line: self.start_line,
                        col: self.start_column,
                        span,
                    });
                },
            }
        }
    }
}


/// A token fits the text at `i`.
pub open spec fn fits_at(src: Seq<char>, i: int) -> bool {
    exists|t: Token| token_fits(src, t) && t.span.start == i
}

/// Where the token that fits the text at `i` ends.
pub open spec fn fit_end(src: Seq<char>, i: int) -> int {
    (choose|t: Token| token_fits(src, t) && t.span.start == i).span.end as int
}

/// `c`, at `i`, is a character that starts no token: neither white space
/// nor the first character of any token, or `#` not followed by `!`.
pub open spec fn stray_at(src: Seq<char>, i: int) -> bool {
    let c = src[i];
    (!token_start_char(c) && !is_ws(c)) || (c == '#' && !next_is(src, i, '!'))
}

/// `es` are the errors, in order, that reading the text from `i`, at line
/// `line` and column `col`, reports. White space is passed over (a line
/// break starts the next line); where a token fits, it is read and reading
/// goes on after it; where none fits, the report is that of a string
/// literal (`string_report`), a character literal (`char_report`), a
/// number (`number_report`) or a stray character, by the first character,
/// and reading goes on where the report's span ends.
pub open spec fn lex_errors_from(src: Seq<char>, i: int, line: int, col: int, es: Seq<LexerError>) -> bool
    decreases src.len() - i,
{
    if !(0 <= i < src.len()) {
        es.len() == 0
    } else if is_ws(src[i]) {
        if src[i] == '\n' {
            lex_errors_from(src, i + 1, line + 1, 1, es)
        } else {
            lex_errors_from(src, i + 1, line, col + 1, es)
        }
    } else if fits_at(src, i) {
        let j = fit_end(src, i);
        i < j <= src.len() && lex_errors_from(src, j, line, col + j - i, es)
    } else {
        let c = src[i];
        es.len() > 0 && {
            let j = es[0].spec_span().end as int;
            &&& if c == '"' {
                es[0] == string_report(src, i, line as usize, col as usize, line as usize, col - i)
            } else if c == '\'' {
                es[0] == char_report(src, i, line as usize, col as usize, line as usize, col - i)
            } else if is_digit(c) {
                number_report(es[0], src, i, line as usize, col as usize)
            } else {
                es[0] == LexerError::UnexpectedCharacter {
                    ch: c,
                    line: line as usize,
                    col: col as usize,
                    span: Span { start: i as usize, end: (i + 1) as usize, line: line as usize, column: col as usize },
                }
            }
            &&& i < j <= src.len()
            &&& lex_errors_from(src, j, line, col + j - i, es.drop_first())
        }
    }
}

/// The text starts with a character that starts no token: neither white
/// space nor the first character of any token, or `#` not followed by `!`.
pub open spec fn starts_with_stray(src: Seq<char>) -> bool {
    src.len() > 0 && ((!token_start_char(src[0]) && !is_ws(src[0])) || (src[0] == '#' && !next_is(src, 0, '!')))
}

/// A character of a run: a hexadecimal digit or `_` (kind 0), a decimal
/// digit or `_` (kind 1), or a decimal digit (any other kind).
pub open spec fn in_run(c: char, kind: int) -> bool {
    if kind == 0 {
        is_hex_digit(c) || c == '_'
    } else if kind == 1 {
        is_digit(c) || c == '_'
    } else {
        is_digit(c)
    }
}

/// Where the run of characters of the given kind that starts at `i` ends.
pub open spec fn run_end(src: Seq<char>, i: int, kind: int) -> int
    decreases src.len() - i,
{
    if 0 <= i < src.len() && in_run(src[i], kind) {
        run_end(src, i + 1, kind)
    } else {
        i
    }
}

/// A run of the given kind from `i` to `j`, not continued at `j`, ends at `j`.
proof fn lemma_run_end(src: Seq<char>, i: int, j: int, kind: int)
    requires
        0 <= i <= j <= src.len(),
        forall|k: int| i <= k < j ==> in_run(#[trigger] src[k], kind),
        j < src.len() ==> !in_run(src[j], kind),
    ensures
        run_end(src, i, kind) == j,
    decreases j - i,
{
    if i < j {
        lemma_run_end(src, i + 1, j, kind);
    }
}

/// `e` is the report for a number literal that starts at `st`, on line
/// `line` and column `col`, and cannot be read. Reading takes `0x` and a
/// run of hexadecimal digits and `_`, whose text is reported as a literal
/// without a value; or digits and `_`, then `.` and more when a digit
/// follows the `.`, then a suffix (`i`, `u` or `f` and the digits after it).
/// A suffix after a fraction or starting with `f` that names no float type,
/// or one that names no integer type, is reported with its text; otherwise
/// the digits (without `_`) are reported as a literal whose value does not
/// fit. The span runs from `st` to where reading stopped.
/// Where reading a number literal that starts at `st` stops (see
/// `number_report`).
pub open spec fn number_stop(src: Seq<char>, st: int) -> int {
    let hex = st + 1 < src.len() && src[st] == '0' && (src[st + 1] == 'x' || src[st + 1] == 'X');
    let int_end = run_end(src, st, 1);
    let is_float = int_end + 1 < src.len() && src[int_end] == '.' && is_digit(src[int_end + 1]);
    let num_end = if is_float { run_end(src, int_end + 1, 1) } else { int_end };
    let suffixed = num_end < src.len() && (src[num_end] == 'i' || src[num_end] == 'u' || src[num_end] == 'f');
    if hex {
        run_end(src, st + 2, 0)
    } else if suffixed {
        run_end(src, num_end + 1, 2)
    } else {
        num_end
    }
}

pub open spec fn number_report(e: LexerError, src: Seq<char>, st: int, line: usize, col: usize) -> bool {
    let hex = st + 1 < src.len() && src[st] == '0' && (src[st + 1] == 'x' || src[st + 1] == 'X');
    let int_end = run_end(src, st, 1);
    let is_float = int_end + 1 < src.len() && src[int_end] == '.' && is_digit(src[int_end + 1]);
    let num_end = if is_float { run_end(src, int_end + 1, 1) } else { int_end };
    let suffixed = num_end < src.len() && (src[num_end] == 'i' || src[num_end] == 'u' || src[num_end] == 'f');
    let suffix_end = run_end(src, num_end + 1, 2);
    let suffix = src.subrange(num_end, suffix_end);
    let end = number_stop(src, st);
    let span = Span { start: st as usize, end: end as usize, line, column: col };
    if hex {
        e matches LexerError::InvalidNumberLiteral { value, line: l, col: c, span: sp }
            && value@ == src.subrange(st, end) && l == line && c == col && sp == span
    } else if suffixed && (is_float || src[num_end] == 'f' || !exists|x: IntSuffix| int_suffix_text(x) == suffix) {
        e matches LexerError::InvalidIntSuffix { suffix: sf, line: l, col: c, span: sp }
            && sf@ == suffix && l == line && c == col && sp == span
    } else {
        e matches LexerError::InvalidNumberLiteral { value, line: l, col: c, span: sp }
            && value@ == strip_underscores(src.subrange(st, num_end)) && l == line && c == col && sp == span
    }
}

/// A token read from `from` to `current`, recorded at the line and column
/// of `from`, keeps every token's position right and leaves the read
/// position at the same line, `current - from` columns further.
proof fn lemma_token_positions(
    src: Seq<char>,
    before: Seq<Token>,
    t: Token,
    from: int,
    current: int,
    line0: int,
    col0: int,
)
    requires
        at_position(src, before, from, line0, col0),
        positioned(src, before),
        forall|i: int| 0 <= i < before.len() ==> #[trigger] before[i].span.end <= from,
        forall|i: int| 0 <= i < before.len() ==> #[trigger] before[i].span.start < before[i].span.end,
        t.span.start == from,
        t.span.end == current,
        0 <= from < current,
        t.span.line == line0,
        t.span.column == col0,
    ensures
        at_position(src, before.push(t), current, line0, col0 + current - from),
        positioned(src, before.push(t)),
{
    let p = before.push(t);
    lemma_position_push(src, before, t, from);
    lemma_position_inside(src, p, before.len() as int, from, current);
    assert forall|i: int| 0 <= i < p.len() implies at_position(
        src,
        p,
        (#[trigger] p[i]).span.start as int,
        p[i].span.line as int,
        p[i].span.column as int,
    ) by {
        if i < before.len() {
            assert(p[i] == before[i]);
            lemma_position_push(src, before, t, before[i].span.start as int);
        }
    }
}

/// Characters that can start a token.
pub open spec fn token_start_char(c: char) -> bool {
    ||| is_ascii_letter(c) || c == '_' || is_digit(c) || c == '"' || c == '\'' || c == '/' || c == '#'
    ||| c == '(' || c == ')' || c == '{' || c == '}' || c == '[' || c == ']' || c == ';' || c == ','
    ||| c == '%' || c == '+' || c == '*' || c == '@' || c == ':' || c == '.' || c == '-' || c == '!'
    ||| c == '<' || c == '>' || c == '&' || c == '|' || c == '='
}

/// The character after position `i` is `c`.
pub open spec fn next_is(src: Seq<char>, i: int, c: char) -> bool {
    i + 1 < src.len() && src[i + 1] == c
}

/// What the first character of a token that fits the text at `st` says of
/// it: it is never white space, and a punctuation character fixes the token
/// (the longer spelling when the next character allows it).
#[verifier::spinoff_prover]
#[verifier::rlimit(60)]
proof fn lemma_punct_token(src: Seq<char>, st: int, t: Token)
    requires
        token_fits(src, t),
        t.span.start == st,
    ensures
        token_start_char(src[st]),
        src[st] == '(' ==> t.kind == TokenKind::LParen && t.span.end == st + 1,
        src[st] == ')' ==> t.kind == TokenKind::RParen && t.span.end == st + 1,
        src[st] == '{' ==> t.kind == TokenKind::LBrace && t.span.end == st + 1,
        src[st] == '}' ==> t.kind == TokenKind::RBrace && t.span.end == st + 1,
        src[st] == '[' ==> t.kind == TokenKind::LBracket && t.span.end == st + 1,
        src[st] == ']' ==> t.kind == TokenKind::RBracket && t.span.end == st + 1,
        src[st] == ';' ==> t.kind == TokenKind::Semicolon && t.span.end == st + 1,
        src[st] == ',' ==> t.kind == TokenKind::Comma && t.span.end == st + 1,
        src[st] == '%' ==> t.kind == TokenKind::Percent && t.span.end == st + 1,
        src[st] == '+' ==> t.kind == TokenKind::Plus && t.span.end == st + 1,
        src[st] == '*' ==> t.kind == TokenKind::Star && t.span.end == st + 1,
        src[st] == '@' ==> t.kind == TokenKind::At && t.span.end == st + 1,
        src[st] == ':' ==> if next_is(src, st, ':') {
            t.kind == TokenKind::ColonColon && t.span.end == st + 2
        } else {
            t.kind == TokenKind::Colon && t.span.end == st + 1
        },
        src[st] == '.' ==> if next_is(src, st, '.') {
            t.kind == TokenKind::DotDot && t.span.end == st + 2
        } else {
            t.kind == TokenKind::Dot && t.span.end == st + 1
        },
        src[st] == '-' ==> if next_is(src, st, '>') {
            t.kind == TokenKind::Arrow && t.span.end == st + 2
        } else {
            t.kind == TokenKind::Minus && t.span.end == st + 1
        },
        src[st] == '!' ==> if next_is(src, st, '=') {
            t.kind == TokenKind::NotEq && t.span.end == st + 2
        } else {
            t.kind == TokenKind::Bang && t.span.end == st + 1
        },
        src[st] == '<' ==> if next_is(src, st, '=') {
            t.kind == TokenKind::LtEq && t.span.end == st + 2
        } else {
            t.kind == TokenKind::Lt && t.span.end == st + 1
        },
        src[st] == '>' ==> if next_is(src, st, '=') {
            t.kind == TokenKind::GtEq && t.span.end == st + 2
        } else {
            t.kind == TokenKind::Gt && t.span.end == st + 1
        },
        src[st] == '&' ==> if next_is(src, st, '&') {
            t.kind == TokenKind::AmpAmp && t.span.end == st + 2
        } else {
            t.kind == TokenKind::Amp && t.span.end == st + 1
        },
        src[st] == '|' ==> if next_is(src, st, '|') {
            t.kind == TokenKind::PipePipe && t.span.end == st + 2
        } else {
            t.kind == TokenKind::Pipe && t.span.end == st + 1
        },
        src[st] == '=' ==> if next_is(src, st, '>') {
            t.kind == TokenKind::FatArrow && t.span.end == st + 2
        } else if next_is(src, st, '=') {
            t.kind == TokenKind::EqEq && t.span.end == st + 2
        } else {
            t.kind == TokenKind::Eq && t.span.end == st + 1
        },
        src[st] == '/' && !next_is(src, st, '/') ==> t.kind == TokenKind::Slash && t.span.end == st + 1,
        src[st] == '#' ==> next_is(src, st, '!') && t.kind == TokenKind::HashBang && t.span.end == st + 2,
{
    let lx = t.lexeme@;
    let e = t.span.end as int;
    lemma_fits_first(t.kind, lx);
    assert(lx[0] == src[st]);
    if keyword_of(lx) is Some {
        lemma_keyword_spelling(lx);
    }
    if lx.len() >= 2 {
        assert(lx[1] == src[st + 1]);
    }
    if e < src.len() {
        assert(src.skip(e)[0] == src[e]);
    }
}

/// In a reading of `src`, a position after the first `k` tokens and not
/// after the start of the next one, where that token does not start, is
/// white space.
proof fn lemma_between_tokens(src: Seq<char>, tt: Seq<Token>, k: int, from: int)
    requires
        reads_as(src, tt),
        0 <= k <= tt.len(),
        0 <= from < src.len(),
        k > 0 ==> tt[k - 1].span.end <= from,
        k < tt.len() ==> from < tt[k].span.start,
    ensures
        is_ws(src[from]),
{
    if !is_ws(src[from]) {
        let i = choose|i: int| 0 <= i < tt.len() && tt[i].span.start <= from < #[trigger] tt[i].span.end;
        assert(token_fits(src, tt[i]));
        if i < k {
            if i < k - 1 {
                assert(tt[i].span.end <= tt[k - 1].span.start);
                assert(token_fits(src, tt[k - 1]));
            }
        } else if i > k {
            assert(tt[k].span.end <= tt[i].span.start);
            assert(token_fits(src, tt[k]));
        }
    }
}

impl Lexer {
    /// One call of `scan_token`, from `pre` to `post`, reports what
    /// `lex_errors_from` says reading from `pre`'s position reports first,
    /// and leaves reading where the relation goes on.
    #[verifier::spinoff_prover]
    proof fn lemma_scan_reports(pre: Lexer, post: Lexer)
        requires
            pre.start_line == pre.line,
            pre.start_column == pre.column,
            pre.wf(),
            pre.current == pre.start,
            pre.current < pre.source@.len(),
            pre.tokens@.len() > 0 ==> pre.tokens@.last().span.end <= pre.start,
            post.wf(),
            post.same_token_start(&pre),
            post.current > pre.current,
            post.scan_result(&pre) || {
                &&& post.tokens@ == pre.tokens@
                &&& post.errors@ == pre.errors@
                &&& post.current == pre.start + 1
                &&& is_ws(pre.source@[pre.start as int])
                &&& pre.source@[pre.start as int] == '\n' ==> post.line == pre.line + 1
                    && post.column == 1
                &&& pre.source@[pre.start as int] != '\n' ==> post.same_line(&pre)
            },
            is_ws(pre.source@[pre.start as int]) ==> post.tokens@ == pre.tokens@
                && post.errors@ == pre.errors@ && post.current == pre.start + 1,
            forall|t: Token| token_fits(pre.source@, t) && t.span.start == pre.start
                ==> post.read_token_like(&pre, t),
            ({
                let c = pre.source@[pre.start as int];
                (!token_start_char(c) && !is_ws(c)) || (c == '#' && !next_is(pre.source@, pre.start as int, '!'))
                    ==> {
                    &&& post.errors@ == pre.errors@.push(LexerError::UnexpectedCharacter {
                        ch: c,
                        line: pre.start_line,
                        col: pre.start_column,
                        span: Span {
                            start: pre.start,
                            end: (pre.start + 1) as usize,
                            line: pre.start_line,
                            column: pre.start_column,
                        },
                    })
                    &&& post.tokens@ == pre.tokens@
                    &&& post.current == pre.start + 1
                    &&& post.errors@.len() == pre.errors@.len() + 1
                    &&& post.errors@.last() == LexerError::UnexpectedCharacter {
                        ch: c,
                        line: pre.start_line,
                        col: pre.start_column,
                        span: Span {
                            start: pre.start,
                            end: (pre.start + 1) as usize,
                            line: pre.start_line,
                            column: pre.start_column,
                        },
                    }
                }
            }),
            pre.source@[pre.start as int] == '"' && post.errors@ != pre.errors@
                ==> post.errors@ == pre.errors@.push(
                string_report(
                    pre.source@,
                    pre.start as int,
                    pre.start_line,
                    pre.start_column,
                    pre.line,
                    pre.column - pre.current,
                ),
            ),
            pre.source@[pre.start as int] == '\'' && post.errors@ != pre.errors@
                ==> post.errors@ == pre.errors@.push(
                char_report(
                    pre.source@,
                    pre.start as int,
                    pre.start_line,
                    pre.start_column,
                    pre.line,
                    pre.column - pre.current,
                ),
            ),
            is_digit(pre.source@[pre.start as int]) && post.errors@ != pre.errors@ ==> {
                &&& post.errors@.len() == pre.errors@.len() + 1
                &&& post.errors@.drop_last() == pre.errors@
                &&& number_report(
                    post.errors@.last(),
                    pre.source@,
                    pre.start as int,
                    pre.start_line,
                    pre.start_column,
                )
            },
            post.errors@ != pre.errors@ ==> post.current == post.errors@.last().spec_span().end,
            ({
                let c = pre.source@[pre.start as int];
                c != '"' && c != '\'' && !is_digit(c) && !((!token_start_char(c) && !is_ws(c)) || (c == '#' && !next_is(
                    pre.source@,
                    pre.start as int,
                    '!',
                ))) ==> post.errors@ == pre.errors@
            }),
        ensures
            post.errors@ == pre.errors@ + post.errors@.skip(pre.errors@.len() as int),
            forall|rest: Seq<LexerError>| #[trigger] lex_errors_from(post.source@, post.current as int, post.line as int, post.column as int, rest)
                ==> lex_errors_from(pre.source@, pre.current as int, pre.line as int, pre.column as int,
                    post.errors@.skip(pre.errors@.len() as int) + rest),
    {
        let src = pre.source@;
        let from = pre.start;
        let c = src[from as int];
        let n0 = pre.errors@.len() as int;
        let d = post.errors@.skip(n0);
        assert(post.source@ == src);
        if post.errors@ != pre.errors@ {
            if c == '"' {
                assert(post.errors@.len() == pre.errors@.len() + 1);
            } else if c == '\'' {
                assert(post.errors@.len() == pre.errors@.len() + 1);
            } else if is_digit(c) {
                assert(post.errors@.len() == pre.errors@.len() + 1);
            } else if stray_at(src, from as int) {
                assert(post.errors@.len() == pre.errors@.len() + 1);
            } else {
                assert(post.errors@ == pre.errors@);
            }
            assert(post.scan_result(&pre));
        }
        assert(post.errors@.take(n0) == pre.errors@) by {
            if post.errors@ != pre.errors@ {
                assert(post.scan_outcome(&pre));
            } else {
                assert(post.errors@.take(n0) =~= post.errors@);
            }
        }
        assert(pre.errors@ + d =~= post.errors@);
        assert forall|rest: Seq<LexerError>| #[trigger] lex_errors_from(src, post.current as int, post.line as int, post.column as int, rest)
            implies lex_errors_from(src, from as int, pre.line as int, pre.column as int, d + rest) by {
            if is_ws(c) {
                assert(d + rest =~= rest);
                assert(post.current == from + 1);
                assert(!post.scan_result(&pre));
                if c == '\n' {
                    assert(post.line == pre.line + 1 && post.column == 1);
                } else {
                    assert(post.line == pre.line && post.column == pre.column + 1);
                }
            } else if fits_at(src, from as int) {
                let t = choose|t: Token| token_fits(src, t) && t.span.start == from as int;
                assert(post.read_token_like(&pre, t));
                assert(post.scan_result(&pre));
                assert(d + rest =~= rest);
                assert(post.current == t.span.end);
                assert(fit_end(src, from as int) == post.current);
            } else {
                assert(post.scan_result(&pre));
                if post.errors@ == pre.errors@ {
                    assert(token_fits(src, post.tokens@.last()));
                    assert(false);
                }
                assert(d =~= seq![post.errors@.last()]);
                assert((d + rest).drop_first() =~= rest);
                assert((d + rest)[0] == post.errors@.last());
                assert(post.current == post.errors@.last().spec_span().end);
                assert(post.same_line(&pre));
                let e0 = (d + rest)[0];
                if c == '"' {
                    assert(e0 == string_report(src, from as int, pre.line, pre.column, pre.line, pre.column - from));
                } else if c == '\'' {
                    assert(e0 == char_report(src, from as int, pre.line, pre.column, pre.line, pre.column - from));
                } else if is_digit(c) {
                    assert(number_report(e0, src, from as int, pre.line, pre.column));
                } else {
                    assert(stray_at(src, from as int));
                    assert(e0 == LexerError::UnexpectedCharacter {
                        ch: c,
                        line: pre.line,
                        col: pre.column,
                        span: Span { start: from, end: (from + 1) as usize, line: pre.line, column: pre.column },
                    });
                }
                assert(lex_errors_from(src, post.current as int, pre.line as int, pre.column + post.current - from, (d + rest).drop_first()));
            }
        }
    }

    /// Reads one token, or white space, or records an error.
    #[verifier::spinoff_prover]
    #[verifier::rlimit(80)]
    fn scan_token(&mut self)
        requires
            old(self).wf(),
            old(self).current == old(self).start,
            old(self).current < old(self).source@.len(),
            old(self).tokens@.len() > 0 ==> old(self).tokens@.last().span.end <= old(self).start,
        ensures
            final(self).wf(),
            final(self).same_token_start(old(self)),
            final(self).current > old(self).current,
            final(self).scan_result(old(self)) || {
                &&& final(self).tokens@ == old(self).tokens@
                &&& final(self).errors@ == old(self).errors@
                &&& final(self).current == old(self).start + 1
                &&& is_ws(old(self).source@[old(self).start as int])
                &&& old(self).source@[old(self).start as int] == '\n' ==> final(self).line == old(self).line + 1
                    && final(self).column == 1
                &&& old(self).source@[old(self).start as int] != '\n' ==> final(self).same_line(old(self))
            },
            is_ws(old(self).source@[old(self).start as int]) ==> final(self).tokens@ == old(self).tokens@
                && final(self).errors@ == old(self).errors@ && final(self).current == old(self).start + 1,
            forall|t: Token| token_fits(old(self).source@, t) && t.span.start == old(self).start
                ==> final(self).read_token_like(old(self), t),
            ({
                let c = old(self).source@[old(self).start as int];
                (!token_start_char(c) && !is_ws(c)) || (c == '#' && !next_is(old(self).source@, old(self).start as int, '!'))
                    ==> {
                    &&& final(self).errors@ == old(self).errors@.push(LexerError::UnexpectedCharacter {
                        ch: c,
                        line: old(self).start_line,
                        col: old(self).start_column,
                        span: Span {
                            start: old(self).start,
                            end: (old(self).start + 1) as usize,
                            line: old(self).start_line,
                            column: old(self).start_column,
                        },
                    })
                    &&& final(self).tokens@ == old(self).tokens@
                    &&& final(self).current == old(self).start + 1
                    &&& final(self).errors@.len() == old(self).errors@.len() + 1
                    &&& final(self).errors@.last() == LexerError::UnexpectedCharacter {
                        ch: c,
                        line: old(self).start_line,
                        col: old(self).start_column,
                        span: Span {
                            start: old(self).start,
                            end: (old(self).start + 1) as usize,
                            line: old(self).start_line,
                            column: old(self).start_column,
                        },
                    }
                }
            }),
            old(self).source@[old(self).start as int] == '"' && final(self).errors@ != old(self).errors@
                ==> final(self).errors@ == old(self).errors@.push(
                string_report(
                    old(self).source@,
                    old(self).start as int,
                    old(self).start_line,
                    old(self).start_column,
                    old(self).line,
                    old(self).column - old(self).current,
                ),
            ),
            old(self).source@[old(self).start as int] == '\'' && final(self).errors@ != old(self).errors@
                ==> final(self).errors@ == old(self).errors@.push(
                char_report(
                    old(self).source@,
                    old(self).start as int,
                    old(self).start_line,
                    old(self).start_column,
                    old(self).line,
                    old(self).column - old(self).current,
                ),
            ),
            is_digit(old(self).source@[old(self).start as int]) && final(self).errors@ != old(self).errors@ ==> {
                &&& final(self).errors@.len() == old(self).errors@.len() + 1
                &&& final(self).errors@.drop_last() == old(self).errors@
                &&& number_report(
                    final(self).errors@.last(),
                    old(self).source@,
                    old(self).start as int,
                    old(self).start_line,
                    old(self).start_column,
                )
            },
            final(self).errors@ != old(self).errors@ ==> final(self).current == final(self).errors@.last().spec_span().end,
            ({
                let c = old(self).source@[old(self).start as int];
                c != '"' && c != '\'' && !is_digit(c) && !((!token_start_char(c) && !is_ws(c)) || (c == '#' && !next_is(
                    old(self).source@,
                    old(self).start as int,
                    '!',
                ))) ==> final(self).errors@ == old(self).errors@
            }),
    {
        let ghost src = self.source@;
        let ghost st = self.start as int;
        let ch = self.advance();
        let ghost lx1 = self.source@.subrange(self.start as int, self.current as int);
        assert(lx1 =~= seq![ch]);
        if ch == ' ' || ch == '\t' || ch == '\r' {
        } else if ch == '\n' {
            self.line += 1;
            self.column = 1;
        } else if ch == '(' {
            self.add_token(TokenKind::LParen);
        } else if ch == ')' {
            self.add_token(TokenKind::RParen);
        } else if ch == '{' {
            self.add_token(TokenKind::LBrace);
        } else if ch == '}' {
            self.add_token(TokenKind::RBrace);
        } else if ch == '[' {
            self.add_token(TokenKind::LBracket);
        } else if ch == ']' {
            self.add_token(TokenKind::RBracket);
        } else if ch == ';' {
            self.add_token(TokenKind::Semicolon);
        } else if ch == ',' {
            self.add_token(TokenKind::Comma);
        } else if ch == '%' {
            self.add_token(TokenKind::Percent);
        } else if ch == '+' {
            self.add_token(TokenKind::Plus);
        } else if ch == '*' {
            self.add_token(TokenKind::Star);
        } else if ch == '@' {
            self.add_token(TokenKind::At);
        } else if ch == ':' {
            if self.match_char(':') {
                assert(self.source@.subrange(self.start as int, self.current as int) =~= seq![':', ':']);
                self.add_token(TokenKind::ColonColon);
            } else {
                self.add_token(TokenKind::Colon);
            }
        } else if ch == '.' {
            if self.match_char('.') {
                assert(self.source@.subrange(self.start as int, self.current as int) =~= seq!['.', '.']);
                self.add_token(TokenKind::DotDot);
            } else {
                self.add_token(TokenKind::Dot);
            }
        } else if ch == '-' {
            if self.match_char('>') {
                assert(self.source@.subrange(self.start as int, self.current as int) =~= seq!['-', '>']);
                self.add_token(TokenKind::Arrow);
            } else {
                self.add_token(TokenKind::Minus);
            }
        } else if ch == '!' {
            if self.match_char('=') {
                assert(self.source@.subrange(self.start as int, self.current as int) =~= seq!['!', '=']);
                self.add_token(TokenKind::NotEq);
            } else {
                self.add_token(TokenKind::Bang);
            }
        } else if ch == '<' {
            if self.match_char('=') {
                assert(self.source@.subrange(self.start as int, self.current as int) =~= seq!['<', '=']);
                self.add_token(TokenKind::LtEq);
            } else {
                self.add_token(TokenKind::Lt);
            }
        } else if ch == '>' {
            if self.match_char('=') {
                assert(self.source@.subrange(self.start as int, self.current as int) =~= seq!['>', '=']);
                self.add_token(TokenKind::GtEq);
            } else {
                self.add_token(TokenKind::Gt);
            }
        } else if ch == '&' {
            if self.match_char('&') {
                assert(self.source@.subrange(self.start as int, self.current as int) =~= seq!['&', '&']);
                self.add_token(TokenKind::AmpAmp);
            } else {
                self.add_token(TokenKind::Amp);
            }
        } else if ch == '|' {
            if self.match_char('|') {
                assert(self.source@.subrange(self.start as int, self.current as int) =~= seq!['|', '|']);
                self.add_token(TokenKind::PipePipe);
            } else {
                self.add_token(TokenKind::Pipe);
            }
        } else if ch == '=' {
            if self.match_char('>') {
                assert(self.source@.subrange(self.start as int, self.current as int) =~= seq!['=', '>']);
                self.add_token(TokenKind::FatArrow);
            } else if self.match_char('=') {
                assert(self.source@.subrange(self.start as int, self.current as int) =~= seq!['=', '=']);
                self.add_token(TokenKind::EqEq);
            } else {
                self.add_token(TokenKind::Eq);
            }
        } else if ch == '/' {
            if self.match_char('/') {
                self.scan_comment();
            } else {
                self.add_token(TokenKind::Slash);
            }
        } else if ch == '#' {
            if self.match_char('!') {
                assert(self.source@.subrange(self.start as int, self.current as int) =~= seq!['#', '!']);
                self.add_token(TokenKind::HashBang);
            } else {
                let span = self.current_span();
                self.push_error(LexerError::UnexpectedCharacter {
                    ch: '#',
                    line: self.start_line,
                    col: self.start_column,
                    span,
                });
            }
        } else if ch == '"' {
            self.scan_string();
        } else if ch == '\'' {
            self.scan_char();
        } else if '0' <= ch && ch <= '9' {
            self.scan_number();
        } else if ('a' <= ch && ch <= 'z') || ('A' <= ch && ch <= 'Z') || ch == '_' {
            self.scan_identifier();
        } else {
            let span = self.current_span();
            self.push_error(LexerError::UnexpectedCharacter {
                ch,
                line: self.start_line,
                col: self.start_column,
                span,
            });
        }
        proof {
            assert forall|t: Token| token_fits(src, t) && t.span.start == st implies self.read_token_like(old(self), t) by {
                lemma_punct_token(src, st, t);
            }
        }
    }

    /// Reads the whole text.
    pub closed spec fn is_fresh(&self) -> bool {
        &&& self.current == 0
        &&& self.start == 0
        &&& self.tokens@.len() == 0
        &&& self.errors@.len() == 0
        &&& self.line == 1
        &&& self.column == 1
    }

    /// Reads the whole source into tokens, ending with an `EOF` token at the
    /// end of the text; or hands back every error found.
    ///
    /// On success the tokens before `EOF` are read from the text in order and
    /// without overlap, each lexeme being the text at the token's span,
    /// fitting the token's kind (`lexeme_fits`) and as long as the text lets
    /// it be (`stops_before`), and every character outside the tokens is
    /// white space. Each token, and `EOF`, records the line and column where
    /// it starts, counting the line breaks outside tokens (`positioned`).
    ///
    /// It fails only on a text that no sequence of tokens reads
    /// (`reads_as`): whenever one does, the result is `Ok`. The errors it
    /// hands back are, in order, exactly those that `lex_errors_from` gives
    /// for the whole text: reading goes on after each error, where the
    /// report's span ends; on success that list is empty.
    #[verifier::spinoff_prover]
    #[verifier::rlimit(80)]
    pub fn tokenize(self) -> (r: Result<Vec<Token>, Vec<LexerError>>)
        requires
            self.wf(),
            self.is_fresh(),
        ensures
            match r {
                Ok(toks) => {
                    &&& toks@.len() >= 1
                    &&& toks@.last().kind is EOF
                    &&& toks@.last().span.start == self.text().len()
                    &&& toks@.last().span.end == self.text().len()
                    &&& toks@.last().lexeme@.len() == 0
                    &&& tokens_fit(self.text(), toks@.drop_last())
                    &&& covered(self.text(), toks@.drop_last(), self.text().len() as int)
                    &&& positioned(self.text(), toks@.drop_last())
                    &&& at_position(
                        self.text(),
                        toks@.drop_last(),
                        self.text().len() as int,
                        toks@.last().span.line as int,
                        toks@.last().span.column as int,
                    )
                },
                Err(errs) => errs@.len() > 0,
            },
            (exists|ts: Seq<Token>| reads_as(self.text(), ts)) ==> r is Ok,
            r matches Err(es) ==> lex_errors_from(self.text(), 0, 1, 1, es@),
            r is Ok ==> lex_errors_from(self.text(), 0, 1, 1, Seq::<LexerError>::empty()),
            starts_with_stray(self.text()) ==> (r matches Err(es) && es@[0] == LexerError::UnexpectedCharacter {
                ch: self.text()[0],
                line: 1,
                col: 1,
                span: Span { start: 0, end: 1, line: 1, column: 1 },
            }),
    {
        let mut lx = self;
        let ghost src = lx.source@;
        let ghost e0 = LexerError::UnexpectedCharacter {
            ch: src[0],
            line: 1,
            col: 1,
            span: Span { start: 0, end: 1, line: 1, column: 1 },
        };
        let ghost readable = exists|ts: Seq<Token>| reads_as(src, ts);
        let ghost tt: Seq<Token> = choose|ts: Seq<Token>| reads_as(src, ts);
        let ghost mut k: int = 0;
        proof {
            assert forall|rest: Seq<LexerError>| #[trigger] lex_errors_from(src, lx.current as int, lx.line as int, lx.column as int, rest)
                implies lex_errors_from(src, 0, 1, 1, lx.errors@ + rest) by {
                assert(lx.errors@ + rest =~= rest);
            }
        }
        while !lx.is_at_end()
            invariant
                lx.wf(),
                lx.source@ == src,
                readable ==> reads_as(src, tt),
                readable ==> lx.errors@.len() == 0,
                readable ==> 0 <= k == lx.tokens@.len() <= tt.len(),
                readable ==> (k > 0 ==> tt[k - 1].span.end <= lx.current),
                readable ==> (k < tt.len() ==> lx.current <= tt[k].span.start),
                lx.start <= lx.current,
                lx.tokens@.len() > 0 ==> lx.tokens@.last().span.end <= lx.current,
                lx.errors@.len() == 0 ==> covered(lx.source@, lx.tokens@, lx.current as int),
                lx.errors@.len() == 0 ==> at_position(src, lx.tokens@, lx.current as int, lx.line as int, lx.column as int),
                lx.errors@.len() == 0 ==> positioned(src, lx.tokens@),
                e0 == (LexerError::UnexpectedCharacter {
                    ch: src[0],
                    line: 1,
                    col: 1,
                    span: Span { start: 0, end: 1, line: 1, column: 1 },
                }),
                starts_with_stray(src) ==> (lx.current == 0 && lx.errors@.len() == 0 && lx.line == 1 && lx.column == 1)
                    || (lx.errors@.len() > 0 && lx.errors@[0] == e0),
                forall|rest: Seq<LexerError>| #[trigger] lex_errors_from(src, lx.current as int, lx.line as int, lx.column as int, rest)
                    ==> lex_errors_from(src, 0, 1, 1, lx.errors@ + rest),
            decreases lx.source@.len() - lx.current,
        {
            lx.start = lx.current;
            lx.start_line = lx.line;
            lx.start_column = lx.column;
            let ghost before = lx.tokens@;
            let ghost from = lx.current;
            let ghost pre = lx;
            let ghost at_next = readable && k < tt.len() && tt[k].span.start == from;
            proof {
                if readable && !at_next {
                    lemma_between_tokens(src, tt, k, from as int);
                }
                if at_next {
                    assert(token_fits(src, tt[k]));
                }
            }
            lx.scan_token();
            proof {
                if starts_with_stray(src) {
                    if pre.errors@.len() == 0 {
                        assert(pre.start == 0 && pre.start_line == 1 && pre.start_column == 1);
                        assert(pre.source@ == src);
                        let c = pre.source@[pre.start as int];
                        assert(c == src[0]);
                        assert((!token_start_char(c) && !is_ws(c)) || (c == '#' && !next_is(pre.source@, pre.start as int, '!')));
                        assert(Span { start: pre.start, end: (pre.start + 1) as usize, line: pre.start_line, column: pre.start_column }
                            == Span { start: 0, end: 1, line: 1, column: 1 });
                        assert(lx.errors@ == pre.errors@.push(LexerError::UnexpectedCharacter {
                            ch: c,
                            line: pre.start_line,
                            col: pre.start_column,
                            span: Span {
                                start: pre.start,
                                end: (pre.start + 1) as usize,
                                line: pre.start_line,
                                column: pre.start_column,
                            },
                        }));
                        assert(lx.errors@ == pre.errors@.push(e0));
                    } else if lx.errors@ != pre.errors@ {
                        assert(lx.scan_outcome(&pre));
                        assert(lx.errors@.take(pre.errors@.len() as int)[0] == lx.errors@[0]);
                    }
                }
            }
            proof {
                if at_next {
                    k = k + 1;
                    if k < tt.len() {
                        assert(tt[k - 1].span.end <= tt[k].span.start);
                    }
                }
            }
            proof {
                if lx.errors@.len() == 0 {
                    assert(pre.errors@.len() == 0) by {
                        if pre.errors@.len() > 0 {
                            assert(lx.scan_outcome(&pre) ==> lx.errors@.len() >= pre.errors@.len());
                        }
                    }
                    assert forall|i: int| 0 <= i < before.len() implies #[trigger] before[i].span.end <= from by {
                        if i < before.len() - 1 {
                            assert(before[i].span.end <= before[before.len() - 1].span.start);
                        }
                    }
                    if lx.tokens@.len() == before.len() + 1 {
                        lemma_token_positions(src, before, lx.tokens@.last(), from as int, lx.current as int,
                            pre.line as int, pre.column as int);
                        assert(lx.tokens@ == before.push(lx.tokens@.last()));
                    } else {
                        assert(!in_token(before, from as int)) by {
                            if in_token(before, from as int) {
                                let i = choose|i: int| 0 <= i < before.len() && before[i].span.start <= from < #[trigger] before[i].span.end;
                            }
                        }
                    }
                }
            }
            proof {
                if lx.errors@.len() == 0 {
                    assert forall|j: int| 0 <= j < lx.current implies is_ws(#[trigger] lx.source@[j])
                        || exists|i: int| 0 <= i < lx.tokens@.len() && lx.tokens@[i].span.start <= j < #[trigger] lx.tokens@[i].span.end by {
                        if j < from {
                            if !is_ws(lx.source@[j]) {
                                let i = choose|i: int| 0 <= i < before.len() && before[i].span.start <= j < #[trigger] before[i].span.end;
                                assert(lx.tokens@[i] == before[i]);
                            }
                        } else if lx.tokens@.len() == before.len() + 1 {
                            let k = before.len() as int;
                            assert(lx.tokens@[k].span.start <= j < lx.tokens@[k].span.end);
                        }
                    }
                }
            }
            proof {
                Self::lemma_scan_reports(pre, lx);
                let d = lx.errors@.skip(pre.errors@.len() as int);
                assert forall|rest: Seq<LexerError>| #[trigger] lex_errors_from(src, lx.current as int, lx.line as int, lx.column as int, rest)
                    implies lex_errors_from(src, 0, 1, 1, lx.errors@ + rest) by {
                    assert(lex_errors_from(src, pre.current as int, pre.line as int, pre.column as int, d + rest));
                    assert(pre.errors@ + (d + rest) =~= lx.errors@ + rest);
                }
            }
        }
        let eof_span = Span::new(lx.current, lx.current, lx.line, lx.column);
        proof {
            assert(lx.current == src.len());
            assert(lex_errors_from(src, lx.current as int, lx.line as int, lx.column as int, Seq::<LexerError>::empty()));
            assert(lx.errors@ + Seq::<LexerError>::empty() =~= lx.errors@);
            assert(lex_errors_from(src, 0, 1, 1, lx.errors@));
        }
        let ghost toks_before = lx.tokens@;
        lx.tokens.push(Token::new(TokenKind::EOF, eof_span, String::new()));
        assert(lx.tokens@.drop_last() =~= toks_before);
        if lx.errors.len() == 0 {
            Ok(lx.tokens)
        } else {
            Err(lx.errors)
        }
    }
}

} // verus!
