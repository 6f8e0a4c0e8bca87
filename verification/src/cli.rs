use vstd::prelude::*;
use crate::text::str_eq;

verus! {

/// What a command line asks for.
#[derive(Debug)]
pub enum Command {
    /// Show the banner and the usage text.
    Usage,
    /// Show the version.
    Version,
    /// Start the interactive session.
    Repl,
    /// Show the tokens of a file.
    Lex(String),
    /// Show the declarations of a file.
    Parse(String),
    /// Show the semantic analysis of a file.
    Analyze(String),
    /// Show the compiled code of a file.
    Bytecode(String),
    /// Run a file.
    Run(String),
    /// A stage option (`--lex`, ...) given without a file name.
    MissingFile(String),
}

/// The stage options that take a file name.
pub open spec fn stage_option(a: Seq<char>) -> bool {
    a == "--lex"@ || a == "--parse"@ || a == "--analyze"@ || a == "--bytecode"@ || a == "--run"@
}

/// The command of a command line (`args[0]` is the program's name): no
/// argument, `--help` or `-h` ask for the usage text, `--version` or `-v`
/// for the version, `--repl` or `repl` for a session; `--lex`, `--parse`,
/// `--analyze`, `--bytecode` and `--run` take the next argument as the
/// file; any other first argument is a file to run.
pub fn parse_command(args: &Vec<String>) -> (c: Command)
    ensures
        args@.len() < 2 ==> c is Usage,
        args@.len() >= 2 ==> {
            let a = args@[1]@;
            &&& (a == "--help"@ || a == "-h"@) ==> c is Usage
            &&& (a == "--version"@ || a == "-v"@) ==> c is Version
            &&& (a == "--repl"@ || a == "repl"@) ==> c is Repl
            &&& stage_option(a) && args@.len() < 3 ==> (c matches Command::MissingFile(f) && f@ == a)
            &&& stage_option(a) && args@.len() >= 3 ==> {
                let f = args@[2];
                &&& a == "--lex"@ ==> c == Command::Lex(f)
                &&& a == "--parse"@ ==> c == Command::Parse(f)
                &&& a == "--analyze"@ ==> c == Command::Analyze(f)
                &&& a == "--bytecode"@ ==> c == Command::Bytecode(f)
                &&& a == "--run"@ ==> c == Command::Run(f)
            }
            &&& !(a == "--help"@ || a == "-h"@ || a == "--version"@ || a == "-v"@ || a == "--repl"@ || a
                == "repl"@ || stage_option(a)) ==> c == Command::Run(args@[1])
        },
{
    proof {
        reveal_strlit("--help");
        reveal_strlit("-h");
        reveal_strlit("--version");
        reveal_strlit("-v");
        reveal_strlit("--repl");
        reveal_strlit("repl");
        reveal_strlit("--lex");
        reveal_strlit("--parse");
        reveal_strlit("--analyze");
        reveal_strlit("--bytecode");
        reveal_strlit("--run");
        assert("--help"@.len() == 6 && "--help"@[2] == 'h');
        assert("-h"@.len() == 2 && "-h"@[1] == 'h');
        assert("--version"@.len() == 9 && "--version"@[2] == 'v');
        assert("-v"@.len() == 2 && "-v"@[1] == 'v');
        assert("--repl"@.len() == 6 && "--repl"@[2] == 'r');
        assert("repl"@.len() == 4 && "repl"@[0] == 'r');
        assert("--lex"@.len() == 5 && "--lex"@[2] == 'l');
        assert("--parse"@.len() == 7 && "--parse"@[2] == 'p');
        assert("--analyze"@.len() == 9 && "--analyze"@[2] == 'a');
        assert("--bytecode"@.len() == 10 && "--bytecode"@[2] == 'b');
        assert("--run"@.len() == 5 && "--run"@[2] == 'r');
    }
    if args.len() < 2 {
        return Command::Usage;
    }
    let a = args[1].as_str();
    if str_eq(a, "--help") || str_eq(a, "-h") {
        Command::Usage
    } else if str_eq(a, "--version") || str_eq(a, "-v") {
        Command::Version
    } else if str_eq(a, "--repl") || str_eq(a, "repl") {
        Command::Repl
    } else if str_eq(a, "--lex") || str_eq(a, "--parse") || str_eq(a, "--analyze") || str_eq(a, "--bytecode")
        || str_eq(a, "--run") {
        if args.len() < 3 {
            return Command::MissingFile(args[1].clone());
        }
        let f = args[2].clone();
        if str_eq(a, "--lex") {
            Command::Lex(f)
        } else if str_eq(a, "--parse") {
            Command::Parse(f)
        } else if str_eq(a, "--analyze") {
            Command::Analyze(f)
        } else if str_eq(a, "--bytecode") {
            Command::Bytecode(f)
        } else {
            Command::Run(f)
        }
    } else {
        Command::Run(args[1].clone())
    }
}

} // verus!
