use chronos::analyzer::{AnalysisResult, Analyzer};
use chronos::lexer::Lexer;
use chronos::parser::Parser;
use chronos::semantic_error::SemanticError;

fn analyze_source(input: &str) -> AnalysisResult {
    let tokens = Lexer::new(input).tokenize().expect("Lexer failed");
    let program = Parser::new(tokens).parse().expect("Parser failed");
    Analyzer::new().analyze(&program)
}

fn in_main(body: &str) -> String {
    format!("contract Main :: EntryPoint {{ fn main() -> Void {{ {} }} }}", body)
}

#[test]
fn test_valid_let_int() {
    let result = analyze_source(
        r#"
            contract Main :: EntryPoint {
                fn main() -> Void {
                    let x: Int32 = 42i32;
                }
            }
        "#,
    );
    assert!(result.is_ok(), "Errors: {:?}", result.errors);
}

#[test]
fn test_valid_let_string() {
    let result = analyze_source(
        r#"
            contract Main :: EntryPoint {
                fn main() -> Void {
                    let name: String = "CHRONOS";
                }
            }
        "#,
    );
    assert!(result.is_ok(), "Errors: {:?}", result.errors);
}

#[test]
fn test_type_mismatch_int_to_string() {
    let result = analyze_source(
        r#"
            contract Main :: EntryPoint {
                fn main() -> Void {
                    let name: String = 42i32;
                }
            }
        "#,
    );
    assert!(result.has_errors());
    assert!(matches!(result.errors[0], SemanticError::TypeMismatch { .. }));
}

#[test]
fn test_type_mismatch_string_to_int() {
    let result = analyze_source(
        r#"
            contract Main :: EntryPoint {
                fn main() -> Void {
                    let x: Int32 = "hello";
                }
            }
        "#,
    );
    assert!(result.has_errors());
    assert!(matches!(result.errors[0], SemanticError::TypeMismatch { .. }));
}

#[test]
fn test_duplicate_variable() {
    let result = analyze_source(
        r#"
            contract Main :: EntryPoint {
                fn main() -> Void {
                    let x: Int32 = 42i32;
                    let x: Int32 = 100i32;
                }
            }
        "#,
    );
    assert!(result.has_errors());
    assert!(matches!(result.errors[0], SemanticError::AlreadyDeclared { .. }));
}

#[test]
fn test_missing_return() {
    let result = analyze_source(
        r#"
            contract Main :: EntryPoint {
                fn main() -> ExitCode {
                    let x: Int32 = 42i32;
                }
            }
        "#,
    );
    assert!(result.has_errors());
    assert!(matches!(result.errors[0], SemanticError::MissingReturn { .. }));
}

#[test]
fn test_void_function_no_return() {
    let result = analyze_source(
        r#"
            contract Main :: EntryPoint {
                fn main() -> Void {
                    let x: Int32 = 42i32;
                }
            }
        "#,
    );
    assert!(result.is_ok(), "Errors: {:?}", result.errors);
}

#[test]
fn test_contract_registered() {
    let result = analyze_source(
        r#"
            contract Main :: EntryPoint {
                field name: String;
                fn main() -> Void {
                    return;
                }
            }
        "#,
    );
    assert!(result.is_ok(), "Errors: {:?}", result.errors);
    assert!(result.symbol_table.has_contract("Main"));
    let info = result.symbol_table.get_contract("Main").unwrap();
    assert_eq!(info.fields.len(), 1);
    assert_eq!(info.methods.len(), 1);
}

#[test]
fn test_multiple_contracts() {
    let result = analyze_source(
        r#"
            contract Animal :: Displayable {
                field name: String;
                fn get_name() -> String {
                    return self.name;
                }
            }
            contract Main :: EntryPoint {
                fn main() -> Void {
                    let x: Int32 = 42i32;
                }
            }
        "#,
    );
    assert!(result.is_ok(), "Errors: {:?}", result.errors);
    assert!(result.symbol_table.has_contract("Animal"));
    assert!(result.symbol_table.has_contract("Main"));
}

#[test]
fn test_function_with_params() {
    let result = analyze_source(
        r#"
            contract Main :: EntryPoint {
                fn main(args: Vector<String>) -> Void {
                    let x: Int32 = 42i32;
                }
            }
        "#,
    );
    assert!(result.is_ok(), "Errors: {:?}", result.errors);
}

#[test]
fn test_float_type_match() {
    let result = analyze_source(
        r#"
            contract Main :: EntryPoint {
                fn main() -> Void {
                    let pi: Float64 = 3.14f64;
                    let e: Float32 = 2.71f32;
                }
            }
        "#,
    );
    assert!(result.is_ok(), "Errors: {:?}", result.errors);
}

#[test]
fn test_float_type_mismatch() {
    let result = analyze_source(
        r#"
            contract Main :: EntryPoint {
                fn main() -> Void {
                    let pi: Float32 = 3.14f64;
                }
            }
        "#,
    );
    assert!(result.has_errors());
    assert!(matches!(result.errors[0], SemanticError::TypeMismatch { .. }));
}

#[test]
fn test_if_else_guaranteed_return() {
    let result = analyze_source(
        r#"
            fn classify(n: Int32) -> Int32 {
                if (condition: n > 0i32) => {
                    return 1i32;
                } else => {
                    return 0i32;
                };
            }
        "#,
    );
    assert!(result.is_ok(), "Errors: {:?}", result.errors);
}

#[test]
fn test_match_guaranteed_return() {
    let result = analyze_source(
        r#"
            fn test(n: Int32) -> Int32 {
                match (value: n) => {
                    case(1i32) => {
                        return 11i32;
                    },
                    default => {
                        return 99i32;
                    }
                };
            }
        "#,
    );
    assert!(result.is_ok(), "Errors: {:?}", result.errors);
}

#[test]
fn test_while_loop() {
    let result = analyze_source(
        r#"
            contract Main :: EntryPoint {
                fn main() -> Void {
                    let x: Int32 = 10i32;
                    while (condition: x > 0i32) => {
                        break;
                    };
                }
            }
        "#,
    );
    assert!(result.is_ok(), "Errors: {:?}", result.errors);
}

// ── Further cases ──

#[test]
fn type_mismatch_names_both_types() {
    let result = analyze_source(&in_main("let x: Int32 = \"hello\";"));
    match &result.errors[0] {
        SemanticError::TypeMismatch { expected, found, .. } => {
            assert_eq!(expected, "Int32");
            assert_eq!(found, "String");
        }
        other => panic!("expected a type mismatch, got {:?}", other),
    }
}

#[test]
fn undefined_variable_is_reported() {
    let result = analyze_source(&in_main("let x: Int32 = y;"));
    assert_eq!(result.error_count(), 1);
    match &result.errors[0] {
        SemanticError::UndefinedVariable { name, .. } => assert_eq!(name, "y"),
        other => panic!("expected an undefined variable, got {:?}", other),
    }
}

#[test]
fn builtin_names_need_no_declaration() {
    let result = analyze_source(&in_main("let w: StreamWriter = StreamWriter;"));
    assert!(result.is_ok(), "Errors: {:?}", result.errors);
}

#[test]
fn assignment_to_immutable_is_reported() {
    let result = analyze_source(&in_main("let x: Int32 = 1i32; x = 2i32;"));
    match &result.errors[0] {
        SemanticError::ImmutableAssignment { name, .. } => assert_eq!(name, "x"),
        other => panic!("expected an immutable assignment, got {:?}", other),
    }
    let result = analyze_source(&in_main("let mut x: Int32 = 1i32; x = 2i32;"));
    assert!(result.is_ok(), "Errors: {:?}", result.errors);
}

#[test]
fn assignment_to_undeclared_is_reported() {
    let result = analyze_source(&in_main("z = 2i32;"));
    assert!(matches!(&result.errors[0], SemanticError::UndefinedVariable { name, .. } if name == "z"));
}

#[test]
fn break_outside_loop_is_reported() {
    let result = analyze_source(&in_main("break;"));
    assert!(matches!(result.errors[0], SemanticError::BreakOutsideLoop { .. }));
    let result = analyze_source(&in_main("continue;"));
    assert!(matches!(result.errors[0], SemanticError::ContinueOutsideLoop { .. }));
}

#[test]
fn arithmetic_on_strings_is_reported() {
    let result = analyze_source(&in_main("let s: String = \"a\" + \"b\";"));
    match &result.errors[0] {
        SemanticError::InvalidOperator { op, left, right, .. } => {
            assert_eq!(op, "Add");
            assert_eq!(left, "String");
            assert_eq!(right, "String");
        }
        other => panic!("expected an invalid operator, got {:?}", other),
    }
}

#[test]
fn missing_return_names_the_function() {
    let result = analyze_source("fn compute() -> Int64 { let x: Int64 = 1; }");
    match &result.errors[0] {
        SemanticError::MissingReturn { name, return_type, .. } => {
            assert_eq!(name, "compute");
            assert_eq!(return_type, "Int64");
        }
        other => panic!("expected a missing return, got {:?}", other),
    }
}

#[test]
fn if_without_else_does_not_guarantee_return() {
    let result = analyze_source("fn f(n: Int32) -> Int32 { if (n > 0i32) => { return 1i32; }; }");
    assert!(matches!(result.errors[0], SemanticError::MissingReturn { .. }));
}

#[test]
fn match_without_default_does_not_guarantee_return() {
    let result =
        analyze_source("fn f(n: Int32) -> Int32 { match (n) => { case(1i32) => { return 1i32; } }; }");
    assert!(matches!(result.errors[0], SemanticError::MissingReturn { .. }));
}

#[test]
fn analysis_reports_no_warnings() {
    let result = analyze_source(&in_main("let unused: Int32 = 1i32;"));
    assert!(!result.has_warnings());
    assert_eq!(result.warning_count(), 0);
    assert!(result.errors.iter().all(|e| !e.is_warning()));
}

#[test]
fn only_unused_variable_is_a_warning() {
    let warning = SemanticError::UnusedVariable { name: "x".to_string(), line: 3 };
    assert!(warning.is_warning());
    let error = SemanticError::BreakOutsideLoop { span: chronos::token::Span::new(0, 5, 1, 1) };
    assert!(!error.is_warning());
}

#[test]
fn declarations_are_defined_globally() {
    let result = analyze_source("fn helper() -> Void { return; } enumeration Mode { variant On }");
    assert!(result.is_ok(), "Errors: {:?}", result.errors);
    assert_eq!(result.symbol_table.depth(), 1);
    assert!(result.symbol_table.lookup("helper").is_some());
    assert!(result.symbol_table.lookup("Mode").is_some());
    assert!(result.symbol_table.functions.iter().any(|f| f.name == "helper"));
}

#[test]
fn result_counts_agree() {
    let result = analyze_source(&in_main("let a: Int32 = b; let c: Int32 = d;"));
    assert_eq!(result.error_count(), 2);
    assert!(!result.is_ok());
    assert!(result.has_errors());
}

#[test]
fn missing_return_reported_once_per_function_that_misses_it() {
    let result = analyze_source(
        r#"
            fn good(n: Int32) -> Int32 {
                return n;
            }
            fn bad(n: Int32) -> Int32 {
                let x: Int32 = n;
            }
            contract Shape :: Displayable {
                fn area() -> Int64 {
                    let y: Int64 = 1;
                }
                fn show() -> Void {
                    let z: Int64 = 2;
                }
            }
        "#,
    );
    let missing: Vec<String> = result
        .errors
        .iter()
        .filter_map(|e| match e {
            SemanticError::MissingReturn { name, .. } => Some(name.clone()),
            _ => None,
        })
        .collect();
    assert_eq!(missing, vec!["bad".to_string(), "area".to_string()]);
}

#[test]
fn error_handler_block_is_analysed_with_its_parameter() {
    let result = analyze_source(&in_main("Channel => |err| { err; };"));
    assert!(result.is_ok(), "Errors: {:?}", result.errors);
    let result = analyze_source(&in_main("Channel => |err| { missing; };"));
    assert_eq!(result.errors.len(), 1);
    match &result.errors[0] {
        SemanticError::UndefinedVariable { name, .. } => assert_eq!(name, "missing"),
        other => panic!("expected an undefined variable, got {:?}", other),
    }
}
