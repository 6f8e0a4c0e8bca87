use chronos::ast::{BinOp, ContractMember, Declaration, Expr, MatchPattern, Program, Stmt, TypeExpr, UnaryOp};
use chronos::lexer::Lexer;
use chronos::parse_error::ParseError;
use chronos::parser::Parser;

fn parse(input: &str) -> Program {
    let tokens = Lexer::new(input).tokenize().expect("Lexer failed");
    Parser::new(tokens).parse().expect("Parser failed")
}

fn parse_errors(input: &str) -> Vec<ParseError> {
    let tokens = Lexer::new(input).tokenize().expect("Lexer failed");
    match Parser::new(tokens).parse() {
        Ok(_) => panic!("expected parse errors"),
        Err(errors) => errors,
    }
}

/// The initializer of the first statement of the first method of the first
/// contract, which must be a `let`.
fn first_initializer(prog: &Program) -> &Expr {
    match &prog.declarations[0] {
        Declaration::Contract(c) => match &c.members[0] {
            ContractMember::Method(m) => match &m.body[0] {
                Stmt::Let { initializer, .. } => initializer,
                _ => panic!("Expected let"),
            },
            _ => panic!("Expected method"),
        },
        _ => panic!("Expected contract"),
    }
}

fn in_main(body: &str) -> String {
    format!("contract Main :: EntryPoint {{ fn main() -> Void {{ {} }} }}", body)
}

#[test]
fn parser_test_module_directive() {
    let prog = parse("#![module::entry(main)]");
    assert_eq!(prog.module_directives.len(), 1);
    assert_eq!(prog.module_directives[0].path, vec!["module", "entry"]);
    assert_eq!(prog.module_directives[0].value, "main");
}

#[test]
fn test_require_statement() {
    let prog = parse("@require core::io::{ StreamWriter, BufferMode };");
    assert_eq!(prog.require_statements.len(), 1);
    assert_eq!(prog.require_statements[0].module_segments, vec!["core", "io"]);
    assert_eq!(prog.require_statements[0].imports, vec!["StreamWriter", "BufferMode"]);
}

#[test]
fn test_empty_contract() {
    let prog = parse("contract Main :: EntryPoint { }");
    assert_eq!(prog.declarations.len(), 1);
    match &prog.declarations[0] {
        Declaration::Contract(c) => {
            assert_eq!(c.name, "Main");
            assert_eq!(c.traits, vec!["EntryPoint"]);
        }
        _ => panic!("Expected contract"),
    }
}

#[test]
fn test_contract_with_field() {
    let prog = parse(
        r#"
            contract Animal :: Displayable {
                field name: String;
            }
        "#,
    );
    match &prog.declarations[0] {
        Declaration::Contract(c) => {
            assert_eq!(c.members.len(), 1);
            match &c.members[0] {
                ContractMember::Field(f) => {
                    assert_eq!(f.name, "name");
                }
                _ => panic!("Expected field"),
            }
        }
        _ => panic!("Expected contract"),
    }
}

#[test]
fn test_function_in_contract() {
    let prog = parse(
        r#"
            contract Main :: EntryPoint {
                fn main(args: Vector<String>) -> ExitCode {
                    return ExitCode::Success(0x00);
                }
            }
        "#,
    );
    match &prog.declarations[0] {
        Declaration::Contract(c) => {
            assert_eq!(c.members.len(), 1);
            match &c.members[0] {
                ContractMember::Method(m) => {
                    assert_eq!(m.name, "main");
                    assert_eq!(m.params.len(), 1);
                    assert_eq!(m.params[0].name, "args");
                }
                _ => panic!("Expected method"),
            }
        }
        _ => panic!("Expected contract"),
    }
}

#[test]
fn parser_test_let_statement() {
    let prog = parse(
        r#"
            contract Main :: EntryPoint {
                fn main() -> Void {
                    let x: Int32 = 42i32;
                }
            }
        "#,
    );
    match &prog.declarations[0] {
        Declaration::Contract(c) => match &c.members[0] {
            ContractMember::Method(m) => {
                assert_eq!(m.body.len(), 1);
                match &m.body[0] {
                    Stmt::Let { name, mutable, .. } => {
                        assert_eq!(name, "x");
                        assert_eq!(*mutable, false);
                    }
                    _ => panic!("Expected let"),
                }
            }
            _ => panic!("Expected method"),
        },
        _ => panic!("Expected contract"),
    }
}

#[test]
fn test_annotated_function() {
    let prog = parse(
        r#"
            contract Main :: EntryPoint {
                @static
                @throws(IOError)
                fn main() -> Void {
                    return;
                }
            }
        "#,
    );
    match &prog.declarations[0] {
        Declaration::Contract(c) => match &c.members[0] {
            ContractMember::Method(m) => {
                assert_eq!(m.annotations.len(), 2);
                assert_eq!(m.annotations[0].name, "static");
                assert_eq!(m.annotations[1].name, "throws");
            }
            _ => panic!("Expected method"),
        },
        _ => panic!("Expected contract"),
    }
}

#[test]
fn test_method_call_expression() {
    let prog = parse(
        r#"
            contract Main :: EntryPoint {
                fn main() -> Void {
                    let x: Int32 = Checked::add(left: 1i32, right: 2i32);
                }
            }
        "#,
    );
    match first_initializer(&prog) {
        Expr::MethodCall { method, args, .. } => {
            assert_eq!(method, "add");
            assert_eq!(args.len(), 2);
        }
        other => panic!("Expected method call, got {:?}", other),
    }
}

#[test]
fn test_binary_expression() {
    let prog = parse(
        r#"
            contract Main :: EntryPoint {
                fn main() -> Void {
                    let result: Bool = x > 0i32;
                }
            }
        "#,
    );
    match first_initializer(&prog) {
        Expr::Binary { op, .. } => {
            assert_eq!(*op, BinOp::Gt);
        }
        _ => panic!("Expected binary expr"),
    }
}

#[test]
fn test_full_program() {
    let prog = parse(
        r#"
            #![module::entry(main)]
            @require core::io::{ StreamWriter, BufferMode };
            @require core::types::{ String, Int32, ExitCode };

            contract Main :: EntryPoint {
                @static
                fn main(args: Vector<String>) -> ExitCode {
                    let x: Int32 = 42i32;
                    let name: String = "CHRONOS";
                    return ExitCode::Success(0x00);
                }
            }
        "#,
    );
    assert_eq!(prog.module_directives.len(), 1);
    assert_eq!(prog.require_statements.len(), 2);
    assert_eq!(prog.declarations.len(), 1);
}

// ── Further cases ──

#[test]
fn multiplication_binds_tighter_than_addition() {
    let prog = parse(&in_main("let r: Int64 = 1 + 2 * 3;"));
    match first_initializer(&prog) {
        Expr::Binary { op: BinOp::Add, right, .. } => {
            assert!(matches!(**right, Expr::Binary { op: BinOp::Mul, .. }));
        }
        other => panic!("expected an addition at the top, got {:?}", other),
    }
}

#[test]
fn subtraction_groups_to_the_left() {
    let prog = parse(&in_main("let r: Int64 = 10 - 4 - 3;"));
    match first_initializer(&prog) {
        Expr::Binary { op: BinOp::Sub, left, right, .. } => {
            assert!(matches!(**left, Expr::Binary { op: BinOp::Sub, .. }));
            assert!(matches!(**right, Expr::IntLiteral { value: 3, .. }));
        }
        other => panic!("expected a subtraction at the top, got {:?}", other),
    }
}

#[test]
fn or_binds_loosest() {
    let prog = parse(&in_main("let r: Bool = a && b || c == d;"));
    match first_initializer(&prog) {
        Expr::Binary { op: BinOp::Or, left, right, .. } => {
            assert!(matches!(**left, Expr::Binary { op: BinOp::And, .. }));
            assert!(matches!(**right, Expr::Binary { op: BinOp::Eq, .. }));
        }
        other => panic!("expected `||` at the top, got {:?}", other),
    }
}

#[test]
fn prefix_operators() {
    let prog = parse(&in_main("let r: Int64 = -x;"));
    assert!(matches!(first_initializer(&prog), Expr::Unary { op: UnaryOp::Negate, .. }));
    let prog = parse(&in_main("let r: Int64 = &mut x;"));
    assert!(matches!(first_initializer(&prog), Expr::Unary { op: UnaryOp::RefMut, .. }));
    let prog = parse(&in_main("let r: Bool = !done;"));
    assert!(matches!(first_initializer(&prog), Expr::Unary { op: UnaryOp::Not, .. }));
}

#[test]
fn literals_keep_their_suffix_text() {
    let prog = parse(&in_main("let r: UInt8 = 7u8;"));
    match first_initializer(&prog) {
        Expr::IntLiteral { value, suffix, .. } => {
            assert_eq!(*value, 7);
            assert_eq!(suffix.as_deref(), Some("u8"));
        }
        other => panic!("expected an integer literal, got {:?}", other),
    }
    let prog = parse(&in_main("let r: Float64 = 1.5f64;"));
    match first_initializer(&prog) {
        Expr::FloatLiteral { literal, suffix, .. } => {
            assert_eq!(literal, "1.5");
            assert_eq!(suffix.as_deref(), Some("f64"));
        }
        other => panic!("expected a float literal, got {:?}", other),
    }
}

#[test]
fn struct_init_and_paths() {
    let prog = parse(&in_main("let p: Self = Self::Point { x: 1, y: 2 };"));
    match first_initializer(&prog) {
        Expr::StructInit { type_path, fields, .. } => {
            assert_eq!(type_path, &vec!["Self".to_string(), "Point".to_string()]);
            assert_eq!(fields.len(), 2);
            assert_eq!(fields[1].0, "y");
        }
        other => panic!("expected a struct literal, got {:?}", other),
    }
    let prog = parse(&in_main("let m: ExitCode = ExitCode::Success;"));
    match first_initializer(&prog) {
        Expr::PathExpr { segments, .. } => assert_eq!(segments, &vec!["ExitCode".to_string(), "Success".to_string()]),
        other => panic!("expected a path, got {:?}", other),
    }
}

#[test]
fn named_and_positional_arguments() {
    let prog = parse(&in_main("let r: Int32 = f(a: 1, 2);"));
    match first_initializer(&prog) {
        Expr::FnCall { args, .. } => {
            assert_eq!(args.len(), 2);
            assert_eq!(args[0].name.as_deref(), Some("a"));
            assert_eq!(args[1].name, None);
        }
        other => panic!("expected a call, got {:?}", other),
    }
}

#[test]
fn generic_and_reference_types() {
    let prog = parse("fn f(v: &mut Vector<Int32>) -> Result<Int32, String> { return v; }");
    match &prog.declarations[0] {
        Declaration::Function(f) => {
            match &f.params[0].type_expr {
                TypeExpr::Reference { mutable: true, inner, .. } => match &**inner {
                    TypeExpr::Generic { base, type_args, .. } => {
                        assert_eq!(base, "Vector");
                        assert_eq!(type_args.len(), 1);
                    }
                    other => panic!("expected a generic type, got {:?}", other),
                },
                other => panic!("expected a reference type, got {:?}", other),
            }
            assert!(matches!(&f.return_type, TypeExpr::Generic { type_args, .. } if type_args.len() == 2));
        }
        _ => panic!("Expected function"),
    }
}

#[test]
fn control_flow_statements() {
    let prog = parse(
        r#"fn f(n: Int32) -> Int32 {
            if (condition: n > 0i32) => { return 1i32; } else if (n < 0i32) => { return 2i32; } else => { return 0i32; };
            match (value: n) => { case(1i32) => { return 3i32; }, default => { return 4i32; } };
            while (condition: n > 0i32) => { break; };
            guard n > 0i32 else { return 5i32; };
            x = 3i32;
        }"#,
    );
    match &prog.declarations[0] {
        Declaration::Function(f) => {
            assert_eq!(f.body.len(), 5);
            match &f.body[0] {
                Stmt::If { else_if_blocks, else_block, .. } => {
                    assert_eq!(else_if_blocks.len(), 1);
                    assert!(else_block.is_some());
                }
                other => panic!("expected if, got {:?}", other),
            }
            match &f.body[1] {
                Stmt::Match { arms, .. } => {
                    assert_eq!(arms.len(), 2);
                    assert!(matches!(arms[0].pattern, MatchPattern::Literal(_)));
                    assert!(matches!(arms[1].pattern, MatchPattern::Default));
                }
                other => panic!("expected match, got {:?}", other),
            }
            assert!(matches!(f.body[2], Stmt::While { .. }));
            assert!(matches!(f.body[3], Stmt::Guard { .. }));
            assert!(matches!(f.body[4], Stmt::Assignment { .. }));
        }
        _ => panic!("Expected function"),
    }
}

#[test]
fn error_handler_on_let() {
    let prog = parse(&in_main("let f: File = open(path: p) => |err| { return; };"));
    match &prog.declarations[0] {
        Declaration::Contract(c) => match &c.members[0] {
            ContractMember::Method(m) => match &m.body[0] {
                Stmt::Let { error_handler: Some(h), .. } => assert_eq!(h.param, "err"),
                other => panic!("expected a let with a handler, got {:?}", other),
            },
            _ => panic!("Expected method"),
        },
        _ => panic!("Expected contract"),
    }
}

#[test]
fn enumeration_with_variants() {
    let prog = parse("enumeration Color :: Displayable { variant Red, variant Rgb { field r: UInt8; } }");
    match &prog.declarations[0] {
        Declaration::Enumeration(e) => {
            assert_eq!(e.name, "Color");
            assert_eq!(e.variants.len(), 2);
            assert_eq!(e.variants[1].fields.len(), 1);
        }
        _ => panic!("Expected enumeration"),
    }
}

#[test]
fn empty_token_list_parses_to_empty_program() {
    let prog = parse("// only a comment\n");
    assert_eq!(prog.module_directives.len(), 0);
    assert_eq!(prog.require_statements.len(), 0);
    assert_eq!(prog.declarations.len(), 0);
}

#[test]
fn stray_token_at_top_level_is_unexpected() {
    let errors = parse_errors("let x: Int32 = 1;");
    match &errors[0] {
        ParseError::UnexpectedToken { token, .. } => assert_eq!(token, "let"),
        other => panic!("expected an unexpected token, got {:?}", other),
    }
}

#[test]
fn missing_semicolon_is_expected_token() {
    let errors = parse_errors(&in_main("let x: Int32 = 1 }"));
    assert!(matches!(&errors[0], ParseError::ExpectedToken { expected, .. } if expected == "Semicolon"));
}

#[test]
fn missing_identifier_is_reported() {
    let errors = parse_errors("contract { }");
    assert!(matches!(&errors[0], ParseError::ExpectedIdentifier { found, .. } if found == "{"));
}

#[test]
fn missing_expression_is_reported() {
    let errors = parse_errors(&in_main("let x: Int32 = ;"));
    assert!(matches!(&errors[0], ParseError::ExpectedExpression { .. }));
}

#[test]
fn precedence_holds_inside_call_arguments() {
    let prog = parse(&in_main("let r: Int64 = f(x: 1 + 2 * 3);"));
    match first_initializer(&prog) {
        Expr::FnCall { args, .. } => match &args[0].value {
            Expr::Binary { op: BinOp::Add, right, .. } => {
                assert!(matches!(**right, Expr::Binary { op: BinOp::Mul, .. }));
            }
            other => panic!("expected an addition, got {:?}", other),
        },
        other => panic!("expected a call, got {:?}", other),
    }
}

#[test]
fn precedence_holds_inside_nested_blocks() {
    let prog = parse(&in_main("while (condition: a - b - c > 0) => { let q: Bool = x || y && z; };"));
    match &prog.declarations[0] {
        Declaration::Contract(c) => match &c.members[0] {
            ContractMember::Method(m) => match &m.body[0] {
                Stmt::While { condition, body, .. } => {
                    match condition {
                        Expr::Binary { op: BinOp::Gt, left, .. } => {
                            assert!(matches!(**left, Expr::Binary { op: BinOp::Sub, .. }));
                        }
                        other => panic!("expected a comparison, got {:?}", other),
                    }
                    match &body[0] {
                        Stmt::Let { initializer: Expr::Binary { op: BinOp::Or, right, .. }, .. } => {
                            assert!(matches!(**right, Expr::Binary { op: BinOp::And, .. }));
                        }
                        other => panic!("expected an or, got {:?}", other),
                    }
                }
                _ => panic!("Expected while"),
            },
            _ => panic!("Expected method"),
        },
        _ => panic!("Expected contract"),
    }
}

#[test]
fn path_after_a_non_name_keeps_its_debug_text() {
    let prog = parse(&in_main("let r: Int64 = (a)::b;"));
    match first_initializer(&prog) {
        Expr::PathExpr { segments, .. } => {
            assert_eq!(segments.len(), 2);
            assert!(segments[0].starts_with("Grouped"));
            assert_eq!(segments[1], "b");
        }
        other => panic!("expected a path, got {:?}", other),
    }
}

/// The statements of `fn main` in the `Main` contract.
fn main_body(prog: &Program) -> &Vec<Stmt> {
    match &prog.declarations[0] {
        Declaration::Contract(c) => match &c.members[0] {
            ContractMember::Method(m) => &m.body,
            _ => panic!("Expected method"),
        },
        _ => panic!("Expected contract"),
    }
}

#[test]
fn let_without_a_name_reports_the_token_after_let() {
    let errors = parse_errors(&in_main("let = 5;"));
    assert!(matches!(&errors[0], ParseError::ExpectedIdentifier { found, .. } if found == "="));
}

#[test]
fn return_of_a_non_expression_is_reported() {
    let errors = parse_errors(&in_main("return ) ;"));
    assert!(matches!(&errors[0], ParseError::ExpectedExpression { .. }));
}

#[test]
fn minimal_statements_parse_to_their_shapes() {
    let prog = parse(&in_main("break; continue; return; x; while (flag) { } if (flag) { } guard ok else { };"));
    let body = main_body(&prog);
    assert_eq!(body.len(), 7);
    assert!(matches!(body[0], Stmt::Break { .. }));
    assert!(matches!(body[1], Stmt::Continue { .. }));
    assert!(matches!(body[2], Stmt::Return { value: None, .. }));
    match &body[3] {
        Stmt::Expression { expr: Expr::Identifier { name, .. }, .. } => assert_eq!(name, "x"),
        other => panic!("expected an expression statement, got {:?}", other),
    }
    match &body[4] {
        Stmt::While { condition: Expr::Identifier { name, .. }, body, .. } => {
            assert_eq!(name, "flag");
            assert!(body.is_empty());
        }
        other => panic!("expected a while loop, got {:?}", other),
    }
    match &body[5] {
        Stmt::If { then_block, else_if_blocks, else_block, .. } => {
            assert!(then_block.is_empty());
            assert!(else_if_blocks.is_empty());
            assert!(else_block.is_none());
        }
        other => panic!("expected an if, got {:?}", other),
    }
    match &body[6] {
        Stmt::Guard { condition: Expr::Identifier { name, .. }, else_block, .. } => {
            assert_eq!(name, "ok");
            assert!(else_block.is_empty());
        }
        other => panic!("expected a guard, got {:?}", other),
    }
}


#[test]
fn path_after_a_non_name_starts_with_the_kind_of_that_expression() {
    let prog = parse(&in_main("let y: Int32 = self::x;"));
    match first_initializer(&prog) {
        Expr::PathExpr { segments, .. } => {
            assert_eq!(segments, &vec!["SelfValue".to_string(), "x".to_string()]);
        }
        other => panic!("expected a path, got {:?}", other),
    }
}

#[test]
fn annotated_method_with_generic_parameter_parses() {
    let prog = parse(
        "contract Main :: EntryPoint { @static @throws(IOError) fn main(args: Vector<String>) -> ExitCode { \
         let x: Int32 = 42i32; while (condition: x > 0i32) => { break; }; return ExitCode::Success(0x00); } }",
    );
    match &prog.declarations[0] {
        Declaration::Contract(c) => match &c.members[0] {
            ContractMember::Method(m) => {
                assert_eq!(m.annotations.len(), 2);
                assert_eq!(m.params.len(), 1);
                assert_eq!(m.body.len(), 3);
                assert!(matches!(m.body[1], Stmt::While { .. }));
            }
            _ => panic!("Expected method"),
        },
        _ => panic!("Expected contract"),
    }
}

#[test]
fn statements_of_every_kind_parse() {
    let prog = parse(
        "fn f() -> Void { let mut x: Int32 = -1; guard x > 0 else { return; }; \
         if (x > 1) => { x = 2; } else if (c: x > 2) { x = 3; } else => { x = 4; }; \
         match (x) => { case(1) => { return; }, default => { } }; \
         print(label: !true, mode: Mode::Fast, n: x + 1); }",
    );
    match &prog.declarations[0] {
        Declaration::Function(f) => assert_eq!(f.body.len(), 5),
        _ => panic!("expected a function"),
    }
}

#[test]
fn a_failing_item_after_a_parsed_one_is_the_only_error() {
    let errors = parse_errors("fn f() -> Void { } contract");
    assert_eq!(errors.len(), 1);
    assert!(matches!(errors[0], ParseError::ExpectedIdentifier { .. }));
}

#[test]
fn the_hello_world_program_parses() {
    let prog = parse(
        r#"
#![module::entry(main)]
@require core::io::{ StreamWriter, BufferMode };
@require core::types::{ String, ExitCode };

contract Main :: EntryPoint {

    @static
    @throws(IOError, RuntimeException)
    fn main(args: Vector<String>) -> ExitCode {

        let writer: StreamWriter = StreamWriter::acquire(
            target: StdOut,
            mode: BufferMode::LineBuffered,
            encoding: Encoding::UTF8
        );

        writer.emit(
            payload: "Hello, World!",
            terminate: LineEnding::LF
        );

        writer.release();
        return ExitCode::Success(0x00);
    }
}
"#,
    );
    assert_eq!(prog.module_directives.len(), 1);
    assert_eq!(prog.require_statements.len(), 2);
    assert_eq!(prog.declarations.len(), 1);
}

#[test]
fn annotated_enumerations_parse() {
    let prog = parse(
        "@static fn f(x: &mut Self) -> Void { let p: Point = Point::Origin { x: 1, y: (2 + 3) * 4 }; } \
         enumeration Color :: Show { variant Red, variant Rgb { field r: UInt8; field g: UInt8; }, fn name() -> String { return \"c\"; } }",
    );
    assert_eq!(prog.declarations.len(), 2);
}

#[test]
fn every_failing_item_is_reported() {
    let errors = parse_errors("contract { } contract { }");
    assert_eq!(errors.len(), 2);
    assert!(matches!(errors[0], ParseError::ExpectedIdentifier { .. }));
    assert!(matches!(errors[1], ParseError::ExpectedIdentifier { .. }));
    let errors = parse_errors("x fn f() -> Void { } y");
    assert_eq!(errors.len(), 2);
    assert!(matches!(errors[0], ParseError::UnexpectedToken { .. }));
    assert!(matches!(errors[1], ParseError::UnexpectedToken { .. }));
}
