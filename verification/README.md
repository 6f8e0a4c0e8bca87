# chronos

The front end of the CHRONOS language (lexer, parser, semantic analyzer,
bytecode compiler, symbol table and the decisions of the REPL), written in
Verus: each function states what it does in `requires` / `ensures`, and Verus
proves it.

## Layout

- `src/token.rs`, `src/lexicon.rs`, `src/lexer.rs`: tokens, the character
  classes and spellings of the language, and the lexer (`Lexer::tokenize`),
  whose errors are stated exactly (`lex_errors_from`).
- `src/ast.rs`, `src/parser.rs`: the syntax tree and the recursive-descent
  parser (`Parser::parse`), with the grammar written as spec functions
  (`spells_program` and the relations it uses), the programs on which
  parsing succeeds (`plain_items`) and the errors it reports
  (`parse_errors_from`).
- `src/types.rs`, `src/symbol_table.rs`, `src/keyed.rs`, `src/analyzer.rs`:
  types, scopes and the semantic analysis (`Analyzer::analyze`), whose
  reports are stated exactly (`program_reports`).
- `src/bytecode.rs`, `src/compiler.rs`: instructions and the compiler.
- `src/vm_control.rs`: what the machine does next (run, return, stop).
- `src/repl.rs`, `src/cli.rs`: what a REPL line or a command line asks for.
- `src/laws.rs`: laws that relate several functions.
- `tests/`: tests of the library.
- `app/`: the program around the library: the command line, file input, the
  REPL loop, and the virtual machine and its values (which compute with
  floating point, so they stay outside the verified library).
