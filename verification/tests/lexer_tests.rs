use chronos::lexer::Lexer;
use chronos::lex_error::LexerError;
use chronos::token::{lookup_keyword, FloatSuffix, IntSuffix, Span, Token, TokenKind};

fn lex(input: &str) -> Vec<Token> {
    Lexer::new(input).tokenize().expect("Lexer should not fail")
}

fn kinds(input: &str) -> Vec<TokenKind> {
    lex(input).into_iter().map(|t| t.kind).collect()
}

fn lex_errors(input: &str) -> Vec<LexerError> {
    match Lexer::new(input).tokenize() {
        Ok(_) => panic!("expected lexer errors"),
        Err(errors) => errors,
    }
}

#[test]
fn test_empty() {
    assert_eq!(kinds(""), vec![TokenKind::EOF]);
}

#[test]
fn test_keywords() {
    assert_eq!(
        kinds("contract fn let mut return"),
        vec![
            TokenKind::Contract,
            TokenKind::Fn,
            TokenKind::Let,
            TokenKind::Mut,
            TokenKind::Return,
            TokenKind::EOF,
        ]
    );
}

#[test]
fn test_type_keywords() {
    assert_eq!(
        kinds("Int32 Float64 Bool String Void"),
        vec![
            TokenKind::TyInt32,
            TokenKind::TyFloat64,
            TokenKind::TyBool,
            TokenKind::TyString,
            TokenKind::TyVoid,
            TokenKind::EOF,
        ]
    );
}

#[test]
fn test_integer_with_suffix() {
    assert_eq!(
        kinds("42i32"),
        vec![TokenKind::LitInteger { value: 42, suffix: Some(IntSuffix::I32) }, TokenKind::EOF]
    );
}

#[test]
fn test_integer_with_underscores() {
    assert_eq!(
        kinds("100_000u64"),
        vec![TokenKind::LitInteger { value: 100_000, suffix: Some(IntSuffix::U64) }, TokenKind::EOF]
    );
}

#[test]
fn test_hex_literal() {
    assert_eq!(kinds("0xFF"), vec![TokenKind::LitInteger { value: 255, suffix: None }, TokenKind::EOF]);
}

#[test]
fn test_float_with_suffix() {
    let ks = kinds("3.14f32");
    assert_eq!(ks.len(), 2);
    match &ks[0] {
        TokenKind::LitFloat { literal, suffix } => {
            assert_eq!(literal.parse::<f64>().unwrap(), 3.14);
            assert_eq!(*suffix, Some(FloatSuffix::F32));
        }
        other => panic!("expected a float literal, got {:?}", other),
    }
    assert_eq!(ks[1], TokenKind::EOF);
}

#[test]
fn test_string_literal() {
    assert_eq!(
        kinds("\"hello world\""),
        vec![TokenKind::LitString("hello world".to_string()), TokenKind::EOF]
    );
}

#[test]
fn test_string_escape() {
    assert_eq!(
        kinds("\"line1\\nline2\""),
        vec![TokenKind::LitString("line1\nline2".to_string()), TokenKind::EOF]
    );
}

#[test]
fn test_char_literal() {
    assert_eq!(kinds("'A'"), vec![TokenKind::LitChar('A'), TokenKind::EOF]);
}

#[test]
fn test_operators() {
    assert_eq!(
        kinds(":: -> => == !="),
        vec![
            TokenKind::ColonColon,
            TokenKind::Arrow,
            TokenKind::FatArrow,
            TokenKind::EqEq,
            TokenKind::NotEq,
            TokenKind::EOF,
        ]
    );
}

#[test]
fn lexer_test_module_directive() {
    assert_eq!(
        kinds("#![module::entry(main)]"),
        vec![
            TokenKind::HashBang,
            TokenKind::LBracket,
            TokenKind::Ident("module".to_string()),
            TokenKind::ColonColon,
            TokenKind::Ident("entry".to_string()),
            TokenKind::LParen,
            TokenKind::Ident("main".to_string()),
            TokenKind::RParen,
            TokenKind::RBracket,
            TokenKind::EOF,
        ]
    );
}

#[test]
fn test_annotation() {
    assert_eq!(
        kinds("@require"),
        vec![TokenKind::At, TokenKind::Ident("require".to_string()), TokenKind::EOF]
    );
}

#[test]
fn lexer_test_let_statement() {
    assert_eq!(
        kinds("let x: Int32 = 42i32;"),
        vec![
            TokenKind::Let,
            TokenKind::Ident("x".to_string()),
            TokenKind::Colon,
            TokenKind::TyInt32,
            TokenKind::Eq,
            TokenKind::LitInteger { value: 42, suffix: Some(IntSuffix::I32) },
            TokenKind::Semicolon,
            TokenKind::EOF,
        ]
    );
}

#[test]
fn test_contract_declaration() {
    assert_eq!(
        kinds("contract Main :: EntryPoint {"),
        vec![
            TokenKind::Contract,
            TokenKind::Ident("Main".to_string()),
            TokenKind::ColonColon,
            TokenKind::Ident("EntryPoint".to_string()),
            TokenKind::LBrace,
            TokenKind::EOF,
        ]
    );
}

#[test]
fn test_comment_skipped_as_token() {
    let tokens = lex("let x // this is a comment\n");
    let non_comment: Vec<&TokenKind> = tokens
        .iter()
        .map(|t| &t.kind)
        .filter(|k| !matches!(k, TokenKind::Comment(_) | TokenKind::EOF))
        .collect();
    assert_eq!(non_comment.len(), 2);
}

// ── Further cases ──

#[test]
fn eof_token_sits_at_end_of_text() {
    let tokens = lex("let x");
    let last = tokens.last().unwrap();
    assert_eq!(last.kind, TokenKind::EOF);
    assert_eq!(last.span.start, 5);
    assert_eq!(last.span.end, 5);
    assert_eq!(last.lexeme, "");
}

#[test]
fn lexemes_are_the_source_text() {
    let tokens = lex("let  answer: Int64 = 0x2A;");
    let lexemes: Vec<&str> = tokens.iter().map(|t| t.lexeme.as_str()).collect();
    assert_eq!(lexemes, vec!["let", "answer", ":", "Int64", "=", "0x2A", ";", ""]);
    assert_eq!(tokens[1].span.start, 5);
    assert_eq!(tokens[1].span.end, 11);
    assert_eq!(tokens[5].kind, TokenKind::LitInteger { value: 42, suffix: None });
}

#[test]
fn keyword_lookup_distinguishes_names() {
    assert_eq!(lookup_keyword("enumeration"), Some(TokenKind::Enumeration));
    assert_eq!(lookup_keyword("UInt16"), Some(TokenKind::TyUInt16));
    assert_eq!(lookup_keyword("contracts"), None);
}

#[test]
fn every_integer_suffix_is_read() {
    let ks = kinds("1i8 2i16 3i64 4u8 5u16 6u32");
    let suffixes: Vec<Option<IntSuffix>> = ks
        .iter()
        .filter_map(|k| match k {
            TokenKind::LitInteger { suffix, .. } => Some(*suffix),
            _ => None,
        })
        .collect();
    assert_eq!(
        suffixes,
        vec![
            Some(IntSuffix::I8),
            Some(IntSuffix::I16),
            Some(IntSuffix::I64),
            Some(IntSuffix::U8),
            Some(IntSuffix::U16),
            Some(IntSuffix::U32),
        ]
    );
}

#[test]
fn float_without_suffix_keeps_digits() {
    let ks = kinds("2.5");
    match &ks[0] {
        TokenKind::LitFloat { literal, suffix } => {
            assert_eq!(literal, "2.5");
            assert_eq!(*suffix, None);
        }
        other => panic!("expected a float literal, got {:?}", other),
    }
}

#[test]
fn punctuation_tokens() {
    assert_eq!(
        kinds("&& || .. @ _ %"),
        vec![
            TokenKind::AmpAmp,
            TokenKind::PipePipe,
            TokenKind::DotDot,
            TokenKind::At,
            TokenKind::Underscore,
            TokenKind::Percent,
            TokenKind::EOF,
        ]
    );
}

#[test]
fn unexpected_character_is_reported() {
    let errors = lex_errors("let $");
    assert!(matches!(errors[0], LexerError::UnexpectedCharacter { ch: '$', .. }));
}

#[test]
fn unterminated_string_is_reported() {
    let errors = lex_errors("\"abc");
    assert!(matches!(errors[0], LexerError::UnterminatedString { .. }));
}

#[test]
fn unterminated_char_is_reported() {
    let errors = lex_errors("'a");
    assert!(matches!(errors[0], LexerError::UnterminatedChar { .. }));
}

#[test]
fn empty_char_literal_is_reported() {
    let errors = lex_errors("''");
    assert!(matches!(errors[0], LexerError::EmptyCharLiteral { .. }));
}

#[test]
fn invalid_escape_is_reported() {
    let errors = lex_errors("\"a\\qb\"");
    assert!(matches!(errors[0], LexerError::InvalidEscapeSequence { ch: 'q', .. }));
}

#[test]
fn invalid_int_suffix_is_reported() {
    let errors = lex_errors("5i7");
    assert!(matches!(errors[0], LexerError::InvalidIntSuffix { .. }));
}

#[test]
fn error_span_is_reported() {
    let errors = lex_errors("$");
    assert_eq!(*errors[0].span(), Span::new(0, 1, 1, 1));
}

#[test]
fn tokens_record_line_and_column() {
    let toks = lex("let x\n  y");
    assert_eq!((toks[0].span.line, toks[0].span.column), (1, 1));
    assert_eq!((toks[1].span.line, toks[1].span.column), (1, 5));
    assert_eq!((toks[2].span.line, toks[2].span.column), (2, 3));
    assert_eq!(toks[3].kind, TokenKind::EOF);
    assert_eq!((toks[3].span.line, toks[3].span.column), (2, 4));
}

#[test]
fn lines_count_blank_lines_and_comments() {
    let toks = lex("a\n\n  // note\n\tb");
    assert_eq!((toks[0].span.line, toks[0].span.column), (1, 1));
    assert_eq!((toks[1].span.line, toks[1].span.column), (3, 3));
    assert_eq!((toks[2].span.line, toks[2].span.column), (4, 2));
}

#[test]
fn operators_take_the_longest_match() {
    assert_eq!(
        kinds("== => = :: : -> - != ! <= < >= > && & || |"),
        vec![
            TokenKind::EqEq,
            TokenKind::FatArrow,
            TokenKind::Eq,
            TokenKind::ColonColon,
            TokenKind::Colon,
            TokenKind::Arrow,
            TokenKind::Minus,
            TokenKind::NotEq,
            TokenKind::Bang,
            TokenKind::LtEq,
            TokenKind::Lt,
            TokenKind::GtEq,
            TokenKind::Gt,
            TokenKind::AmpAmp,
            TokenKind::Amp,
            TokenKind::PipePipe,
            TokenKind::Pipe,
            TokenKind::EOF,
        ]
    );
}

#[test]
fn words_and_numbers_are_read_whole() {
    let toks = lex("letter 1234 12.5 0xFF_FF");
    assert_eq!(toks[0].kind, TokenKind::Ident("letter".to_string()));
    assert_eq!(toks[1].kind, TokenKind::LitInteger { value: 1234, suffix: None });
    assert_eq!(toks[2].kind, TokenKind::LitFloat { literal: "12.5".to_string(), suffix: None });
    assert_eq!(toks[3].kind, TokenKind::LitInteger { value: 0xFFFF, suffix: None });
    assert_eq!(toks.len(), 5);
}

#[test]
fn comment_text_is_trimmed() {
    let toks = lex("//   spaced out   \nx");
    assert_eq!(toks[0].kind, TokenKind::Comment("spaced out".to_string()));
    assert_eq!(toks[0].lexeme, "//   spaced out   ");
}

#[test]
fn identifiers_may_continue_with_unicode_letters() {
    let toks = lex("café x");
    assert_eq!(toks[0].kind, TokenKind::Ident("café".to_string()));
    assert_eq!(toks[1].kind, TokenKind::Ident("x".to_string()));
}

#[test]
fn string_values_are_built_from_their_characters() {
    let toks = lex("\"ab\\tc\"");
    assert_eq!(toks[0].kind, TokenKind::LitString("ab\tc".to_string()));
}

#[test]
fn hex_prefix_without_digits_is_reported() {
    let errors = lex_errors("0xg");
    assert!(matches!(errors[0], LexerError::InvalidNumberLiteral { .. }));
    let errors = lex_errors("0x");
    assert!(matches!(errors[0], LexerError::InvalidNumberLiteral { .. }));
}

#[test]
fn integer_too_large_is_reported() {
    let errors = lex_errors("170141183460469231731687303715884105728");
    assert!(matches!(errors[0], LexerError::InvalidNumberLiteral { .. }));
    assert_eq!(
        kinds("170141183460469231731687303715884105727"),
        vec![
            TokenKind::LitInteger { value: 170141183460469231731687303715884105727, suffix: None },
            TokenKind::EOF,
        ]
    );
}

#[test]
fn number_followed_by_range_is_not_a_float() {
    assert_eq!(
        kinds("1..2"),
        vec![
            TokenKind::LitInteger { value: 1, suffix: None },
            TokenKind::DotDot,
            TokenKind::LitInteger { value: 2, suffix: None },
            TokenKind::EOF,
        ]
    );
}

#[test]
fn stray_first_character_is_the_first_error() {
    match Lexer::new("#").tokenize() {
        Err(errors) => match &errors[0] {
            LexerError::UnexpectedCharacter { ch, line, col, span } => {
                assert_eq!(*ch, '#');
                assert_eq!((*line, *col), (1, 1));
                assert_eq!((span.start, span.end, span.line, span.column), (0, 1, 1, 1));
            }
            other => panic!("expected an unexpected character, got {:?}", other),
        },
        Ok(_) => panic!("expected an error"),
    }
}

#[test]
fn invalid_suffix_reports_the_whole_literal() {
    match Lexer::new("7i7").tokenize() {
        Err(errors) => match &errors[0] {
            LexerError::InvalidIntSuffix { suffix, line, col, span } => {
                assert_eq!(suffix, "i7");
                assert_eq!((*line, *col), (1, 1));
                assert_eq!((span.start, span.end), (0, 3));
            }
            other => panic!("expected an invalid suffix, got {:?}", other),
        },
        Ok(_) => panic!("expected an error"),
    }
}

#[test]
fn unterminated_string_is_reported_at_its_start() {
    assert_eq!(
        lex_errors("\"abc"),
        vec![LexerError::UnterminatedString { line: 1, col: 1, span: Span::new(0, 4, 1, 1) }]
    );
    assert_eq!(
        lex_errors("x \"ab\nc"),
        vec![LexerError::UnterminatedString { line: 1, col: 3, span: Span::new(2, 5, 1, 3) }]
    );
}

#[test]
fn unknown_string_escape_is_reported_at_the_escape() {
    assert_eq!(
        lex_errors("\"a\\q"),
        vec![LexerError::InvalidEscapeSequence { ch: 'q', line: 1, col: 4, span: Span::new(0, 4, 1, 1) }]
    );
}

#[test]
fn character_literal_errors() {
    assert_eq!(
        lex_errors("''"),
        vec![LexerError::EmptyCharLiteral { line: 1, col: 1, span: Span::new(0, 2, 1, 1) }]
    );
    assert_eq!(
        lex_errors("'ab'"),
        vec![LexerError::MultiCharLiteral { line: 1, col: 1, span: Span::new(0, 4, 1, 1) }]
    );
    assert_eq!(
        lex_errors("'a"),
        vec![LexerError::UnterminatedChar { line: 1, col: 1, span: Span::new(0, 2, 1, 1) }]
    );
}

#[test]
fn number_errors_name_their_text() {
    match &lex_errors("1.5i32")[0] {
        LexerError::InvalidIntSuffix { suffix, span, .. } => {
            assert_eq!(suffix, "i32");
            assert_eq!((span.start, span.end), (0, 6));
        }
        other => panic!("expected an invalid suffix, got {:?}", other),
    }
    match &lex_errors("0x")[0] {
        LexerError::InvalidNumberLiteral { value, span, .. } => {
            assert_eq!(value, "0x");
            assert_eq!((span.start, span.end), (0, 2));
        }
        other => panic!("expected an invalid literal, got {:?}", other),
    }
    match &lex_errors("3f16")[0] {
        LexerError::InvalidIntSuffix { suffix, .. } => assert_eq!(suffix, "f16"),
        other => panic!("expected an invalid suffix, got {:?}", other),
    }
}

#[test]
fn scanning_goes_on_after_an_error() {
    assert_eq!(lex_errors("#;#").len(), 2);
}

#[test]
fn trim_removes_unicode_white_space_at_both_ends() {
    assert_eq!(chronos::lexicon::trim("\u{3000} a b \t\n"), "a b");
    assert_eq!(chronos::lexicon::trim("   "), "");
    assert!(chronos::lexicon::is_unicode_ws('\u{a0}'));
    assert!(!chronos::lexicon::is_unicode_ws('x'));
}

#[test]
fn placeholders_are_filled_in_turn() {
    let parts = vec!["a".to_string(), "{}".to_string(), "c".to_string()];
    assert_eq!(chronos::text::fill_placeholders("x{}y{}", &parts), "xayc");
    assert_eq!(chronos::text::fill_placeholders("{}{}", &vec!["1".to_string()]), "1{}");
    assert_eq!(chronos::text::fill_placeholders("none", &vec!["1".to_string()]), "none");
}
