use chronos::bytecode::{Chunk, CompiledProgram, OpCode};
use chronos::compiler::Compiler;
use chronos::lexer::Lexer;
use chronos::parser::Parser;

fn compile(input: &str) -> CompiledProgram {
    let tokens = Lexer::new(input).tokenize().expect("Lexer failed");
    let program = Parser::new(tokens).parse().expect("Parser failed");
    Compiler::new().compile(&program)
}

fn listing(chunk: &Chunk) -> Vec<String> {
    chunk.code.iter().map(|op| format!("{:?}", op)).collect()
}

fn chunk<'a>(program: &'a CompiledProgram, name: &str) -> &'a Chunk {
    program.find_chunk(name).expect("chunk not found")
}

fn jump_target(op: &OpCode) -> Option<usize> {
    match op {
        OpCode::Jump(t) | OpCode::JumpIfFalse(t) | OpCode::JumpIfTrue(t) => Some(*t),
        _ => None,
    }
}

/// Every chunk ends in `Return`, has a line per instruction, and its jumps
/// stay inside it.
fn assert_well_compiled(program: &CompiledProgram) {
    for c in &program.chunks {
        assert!(matches!(c.code.last(), Some(OpCode::Return)), "chunk {} does not end in Return", c.name);
        assert_eq!(c.code.len(), c.lines.len());
        for op in &c.code {
            if let Some(t) = jump_target(op) {
                assert!(t <= c.code.len(), "jump out of chunk {}", c.name);
            }
        }
    }
}

#[test]
fn test_entry_point_and_method_chunk() {
    let program = compile(
        r#"
        #![module::entry(main)]
        contract Main :: EntryPoint {
            fn main() -> Void {
                let x: Int32 = 42i32;
            }
        }
        "#,
    );
    assert_eq!(program.entry_point.as_deref(), Some("main"));
    assert_eq!(program.chunks.len(), 1);
    let main = chunk(&program, "Main::main");
    assert_eq!(listing(main), vec!["PushConst(Int32(42))", "Store(\"x\")", "PushConst(Void)", "Return"]);
    assert_well_compiled(&program);
}

#[test]
fn test_no_entry_directive() {
    let program = compile("fn helper() -> Void { }");
    assert!(program.entry_point.is_none());
    assert_eq!(listing(chunk(&program, "helper")), vec!["PushConst(Void)", "Return"]);
}

#[test]
fn test_params_stored_in_reverse() {
    let program = compile(
        r#"
        fn add(a: Int32, b: Int32) -> Int32 {
            return a + b;
        }
        "#,
    );
    assert_eq!(
        listing(chunk(&program, "add")),
        vec!["Store(\"b\")", "Store(\"a\")", "Load(\"a\")", "Load(\"b\")", "Add", "Return"]
    );
    assert_well_compiled(&program);
}

#[test]
fn test_if_else_jumps() {
    let program = compile(
        r#"
        fn classify(n: Int32) -> Int32 {
            if (condition: n > 0i32) => {
                return 1i32;
            } else => {
                return 0i32;
            };
        }
        "#,
    );
    assert_eq!(
        listing(chunk(&program, "classify")),
        vec![
            "Store(\"n\")",
            "Load(\"n\")",
            "PushConst(Int32(0))",
            "GreaterThan",
            "JumpIfFalse(8)",
            "PushConst(Int32(1))",
            "Return",
            "Jump(10)",
            "PushConst(Int32(0))",
            "Return",
        ]
    );
    assert_well_compiled(&program);
}

#[test]
fn test_while_loop_compiles_to_backward_jump() {
    let program = compile(
        r#"
        contract Main :: EntryPoint {
            fn main() -> Void {
                let x: Int32 = 10i32;
                while (condition: x > 0i32) => {
                    break;
                };
            }
        }
        "#,
    );
    let main = chunk(&program, "Main::main");
    assert_eq!(
        listing(main),
        vec![
            "PushConst(Int32(10))",
            "Store(\"x\")",
            "Load(\"x\")",
            "PushConst(Int32(0))",
            "GreaterThan",
            "JumpIfFalse(8)",
            "Nop",
            "Jump(2)",
            "PushConst(Void)",
            "Return",
        ]
    );
    assert_well_compiled(&program);
}

#[test]
fn test_match_compiles_each_literal_arm() {
    let program = compile(
        r#"
        fn test(n: Int32) -> Int32 {
            match (value: n) => {
                case(1i32) => {
                    return 11i32;
                },
                default => {
                    return 99i32;
                }
            };
        }
        "#,
    );
    assert_eq!(
        listing(chunk(&program, "test")),
        vec![
            "Store(\"n\")",
            "Load(\"n\")",
            "Dup",
            "PushConst(Int32(1))",
            "Equal",
            "JumpIfFalse(10)",
            "Pop",
            "PushConst(Int32(11))",
            "Return",
            "Jump(13)",
            "Pop",
            "PushConst(Int32(99))",
            "Return",
        ]
    );
    assert_well_compiled(&program);
}

#[test]
fn test_builtin_and_user_calls() {
    let program = compile(
        r#"
        fn helper() -> Void { }
        fn main() -> Void {
            let w: Void = StreamWriter::acquire();
            assert(ok: true);
            helper();
        }
        "#,
    );
    assert_eq!(program.chunks.len(), 2);
    assert_eq!(program.chunks[0].name, "helper");
    assert_eq!(program.chunks[1].name, "main");
    assert_eq!(
        listing(chunk(&program, "main")),
        vec![
            "Load(\"StreamWriter\")",
            "CallMethod(\"acquire\", 0)",
            "Store(\"w\")",
            "Load(\"true\")",
            "CallBuiltin(\"assert\", 1)",
            "Pop",
            "Call(\"helper\", 0)",
            "Pop",
            "PushConst(Void)",
            "Return",
        ]
    );
    assert_well_compiled(&program);
}

#[test]
fn test_chunk_names_in_declaration_order() {
    let program = compile(
        r#"
        contract Animal :: Displayable {
            field name: String;
            fn speak() -> Void { }
            fn eat() -> Void { }
        }
        enumeration Color :: Displayable { variant Red, variant Green }
        fn main() -> Void { }
        "#,
    );
    let names: Vec<&str> = program.chunks.iter().map(|c| c.name.as_str()).collect();
    assert_eq!(names, vec!["Animal::speak", "Animal::eat", "main"]);
    assert_well_compiled(&program);
}

#[test]
fn test_find_chunk_absent() {
    let program = compile("fn main() -> Void { }");
    assert!(program.find_chunk("Main::main").is_none());
    assert!(program.find_chunk("main").is_some());
}
