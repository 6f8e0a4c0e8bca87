use chronos::analyzer::{AnalysisResult, Analyzer};
use chronos::lexer::Lexer;
use chronos::parser::Parser;
use chronos::semantic_error::SemanticError;
use chronos::token::{lookup_keyword, Token, TokenKind};

fn analyze_body(body: &str) -> AnalysisResult {
    let src = format!("contract Main :: EntryPoint {{ fn main() -> Void {{ {} }} }}", body);
    let tokens = Lexer::new(&src).tokenize().expect("Lexer failed");
    let program = Parser::new(tokens).parse().expect("Parser failed");
    Analyzer::new().analyze(&program)
}

#[test]
fn every_int_suffix_names_the_declared_type() {
    let cases = [
        ("Int8", "i8"),
        ("Int16", "i16"),
        ("Int32", "i32"),
        ("Int64", "i64"),
        ("UInt8", "u8"),
        ("UInt16", "u16"),
        ("UInt32", "u32"),
        ("UInt64", "u64"),
    ];
    for (ty, suffix) in cases {
        let r = analyze_body(&format!("let x: {} = 7{};", ty, suffix));
        assert!(r.is_ok(), "{} with {}: {:?}", ty, suffix, r.errors);
    }
}

#[test]
fn every_float_suffix_names_the_declared_type() {
    for (ty, suffix) in [("Float32", "f32"), ("Float64", "f64")] {
        let r = analyze_body(&format!("let x: {} = 1.5{};", ty, suffix));
        assert!(r.is_ok(), "{} with {}: {:?}", ty, suffix, r.errors);
    }
}

#[test]
fn a_suffix_of_another_type_is_a_mismatch() {
    let r = analyze_body("let x: Int8 = 7u8;");
    assert!(matches!(r.errors[0], SemanticError::TypeMismatch { .. }));
}

#[test]
fn analysis_never_warns() {
    let r = analyze_body("let unused: Int32 = 1i32; let y: String = 2i32;");
    assert!(!r.has_warnings());
    assert_eq!(r.warning_count(), 0);
    assert!(r.has_errors());
}

#[test]
fn keywords_found_by_lookup_are_keywords() {
    for word in [
        "contract", "fn", "let", "mut", "return", "if", "else", "match", "while", "enumeration", "Int32", "Bool",
        "Void", "String",
    ] {
        let kind = lookup_keyword(word).expect("a keyword");
        assert!(kind.is_keyword() || kind.is_type_keyword(), "{}", word);
        assert!(!kind.is_literal(), "{}", word);
    }
    assert_eq!(lookup_keyword("main"), None);
}

#[test]
fn tokens_end_with_eof_at_the_end_of_the_text() {
    let src = "let x: Int32 = 1i32;";
    let tokens: Vec<Token> = Lexer::new(src).tokenize().expect("Lexer failed");
    let last = tokens.last().unwrap();
    assert_eq!(last.kind, TokenKind::EOF);
    assert_eq!(last.span.start, src.len());
    assert_eq!(last.span.end, src.len());
    assert_eq!(last.lexeme, "");
    for t in &tokens[..tokens.len() - 1] {
        assert_eq!(&src[t.span.start..t.span.end], t.lexeme);
    }
}
