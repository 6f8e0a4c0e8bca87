use chronos::cli::{parse_command, Command};
use chronos::repl::{wrap_for_display, wrap_for_run, ReplAction, ReplSession};

fn args(xs: &[&str]) -> Vec<String> {
    xs.iter().map(|s| s.to_string()).collect()
}

#[test]
fn test_blank_line_is_skipped() {
    let mut s = ReplSession::new();
    assert!(matches!(s.step("   \n"), ReplAction::Skip));
    assert!(s.history.is_empty());
    assert_eq!(s.line_num, 1);
}

#[test]
fn test_input_is_trimmed_recorded_and_numbered() {
    let mut s = ReplSession::new();
    match s.step("  let x: Int32 = 1i32;  \n") {
        ReplAction::Execute { source, line } => {
            assert_eq!(source, "let x: Int32 = 1i32;");
            assert_eq!(line, 1);
        }
        _ => panic!("expected Execute"),
    }
    match s.step("let y: Int32 = 2i32;") {
        ReplAction::Execute { line, .. } => assert_eq!(line, 2),
        _ => panic!("expected Execute"),
    }
    assert_eq!(s.history, vec!["let x: Int32 = 1i32;".to_string(), "let y: Int32 = 2i32;".to_string()]);
    assert_eq!(s.line_num, 3);
}

#[test]
fn test_quit_commands() {
    for cmd in [":quit", ":q", ":exit"] {
        let mut s = ReplSession::new();
        assert!(matches!(s.step(cmd), ReplAction::Quit));
    }
}

#[test]
fn test_help_and_history_commands() {
    let mut s = ReplSession::new();
    assert!(matches!(s.step(":help"), ReplAction::Help));
    assert!(matches!(s.step(":h"), ReplAction::Help));
    assert!(matches!(s.step(":history"), ReplAction::ShowHistory));
    assert!(s.history.is_empty());
}

#[test]
fn test_clear_resets_history_and_numbering() {
    let mut s = ReplSession::new();
    s.step("a;");
    s.step("b;");
    assert!(matches!(s.step(":clear"), ReplAction::Cleared));
    assert!(s.history.is_empty());
    assert_eq!(s.line_num, 1);
}

#[test]
fn test_tokens_and_ast_need_previous_input() {
    let mut s = ReplSession::new();
    assert!(matches!(s.step(":tokens"), ReplAction::NoPreviousInput));
    assert!(matches!(s.step(":ast"), ReplAction::NoPreviousInput));
    s.step("first;");
    s.step("second;");
    match s.step(":tokens") {
        ReplAction::ShowTokens(src) => assert_eq!(src, "second;"),
        _ => panic!("expected ShowTokens"),
    }
    match s.step(":ast") {
        ReplAction::ShowAst(src) => assert_eq!(src, "second;"),
        _ => panic!("expected ShowAst"),
    }
    assert_eq!(s.history.len(), 2);
    assert_eq!(s.line_num, 3);
}

#[test]
fn test_unknown_command() {
    let mut s = ReplSession::new();
    match s.step("  :frobnicate ") {
        ReplAction::UnknownCommand(c) => assert_eq!(c, ":frobnicate"),
        _ => panic!("expected UnknownCommand"),
    }
    assert!(s.history.is_empty());
}

#[test]
fn test_wrapped_input_texts() {
    assert_eq!(
        wrap_for_run("x;"),
        "\n        #![module::entry(main)]\n        contract Main :: EntryPoint {\n            fn main() -> Void {\n                x;\n            }\n        }\n        "
    );
    assert_eq!(
        wrap_for_display("x;"),
        "#![module::entry(main)]\n        contract Main :: EntryPoint {\n            fn main() -> Void {\n                x;\n            }\n        }"
    );
}

#[test]
fn test_command_without_arguments_shows_usage() {
    assert!(matches!(parse_command(&args(&["chronos"])), Command::Usage));
    assert!(matches!(parse_command(&args(&["chronos", "--help"])), Command::Usage));
    assert!(matches!(parse_command(&args(&["chronos", "-h"])), Command::Usage));
}

#[test]
fn test_version_and_repl_commands() {
    assert!(matches!(parse_command(&args(&["chronos", "--version"])), Command::Version));
    assert!(matches!(parse_command(&args(&["chronos", "-v"])), Command::Version));
    assert!(matches!(parse_command(&args(&["chronos", "--repl"])), Command::Repl));
    assert!(matches!(parse_command(&args(&["chronos", "repl"])), Command::Repl));
}

#[test]
fn test_stage_commands_take_a_file() {
    assert!(matches!(parse_command(&args(&["chronos", "--lex", "a.chrn"])), Command::Lex(f) if f == "a.chrn"));
    assert!(matches!(parse_command(&args(&["chronos", "--parse", "a.chrn"])), Command::Parse(f) if f == "a.chrn"));
    assert!(matches!(parse_command(&args(&["chronos", "--analyze", "a.chrn"])), Command::Analyze(f) if f == "a.chrn"));
    assert!(matches!(parse_command(&args(&["chronos", "--bytecode", "a.chrn"])), Command::Bytecode(f) if f == "a.chrn"));
    assert!(matches!(parse_command(&args(&["chronos", "--run", "a.chrn"])), Command::Run(f) if f == "a.chrn"));
}

#[test]
fn test_stage_command_without_file() {
    assert!(matches!(parse_command(&args(&["chronos", "--lex"])), Command::MissingFile(o) if o == "--lex"));
    assert!(matches!(parse_command(&args(&["chronos", "--run"])), Command::MissingFile(o) if o == "--run"));
}

#[test]
fn test_plain_file_is_run() {
    assert!(matches!(parse_command(&args(&["chronos", "prog.chrn"])), Command::Run(f) if f == "prog.chrn"));
}
