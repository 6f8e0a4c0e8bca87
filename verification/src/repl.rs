use vstd::prelude::*;
use crate::lexicon::{trim, spec_trim};
use crate::text::str_eq;
use vstd::string::{StringExecFns, StrSliceExecFns};

verus! {

broadcast use vstd::std_specs::vec::group_vec_axioms;

/// What the interactive session does with a line of input.
#[derive(Debug)]
pub enum ReplAction {
    /// Nothing to do (a blank line).
    Skip,
    /// Leave the session.
    Quit,
    /// Show the list of commands.
    Help,
    /// Show the inputs run so far.
    ShowHistory,
    /// The history was cleared.
    Cleared,
    /// Show the tokens of this input.
    ShowTokens(String),
    /// Show the syntax tree of this input.
    ShowAst(String),
    /// `:tokens` or `:ast` before any input was run.
    NoPreviousInput,
    /// A command that does not exist.
    UnknownCommand(String),
    /// Run this input as the body of `main`; `line` counts the inputs run.
    Execute { source: String, line: usize },
}

/// The state of an interactive session: the inputs run so far and the
/// number the next one gets.
pub struct ReplSession {
    pub history: Vec<String>,
    pub line_num: usize,
}

/// Text before and after an input run in the session.
pub open spec fn run_prefix() -> Seq<char> {
    "\n        #![module::entry(main)]\n        contract Main :: EntryPoint {\n            fn main() -> Void {\n                "@
}

pub open spec fn run_suffix() -> Seq<char> {
    "\n            }\n        }\n        "@
}

/// Text before and after an input whose tokens or tree are shown.
pub open spec fn show_prefix() -> Seq<char> {
    "#![module::entry(main)]\n        contract Main :: EntryPoint {\n            fn main() -> Void {\n                "@
}

pub open spec fn show_suffix() -> Seq<char> {
    "\n            }\n        }"@
}

/// An input wrapped as the body of the entry function `main` of a contract
/// `Main`, to be run.
pub fn wrap_for_run(input: &str) -> (r: String)
    ensures
        r@ == run_prefix() + input@ + run_suffix(),
{
    let mut s = String::new();
    s.append("\n        #![module::entry(main)]\n        contract Main :: EntryPoint {\n            fn main() -> Void {\n                ");
    s.append(input);
    s.append("\n            }\n        }\n        ");
    s
}

/// An input wrapped as the body of `main`, to show its tokens or tree.
pub fn wrap_for_display(input: &str) -> (r: String)
    ensures
        r@ == show_prefix() + input@ + show_suffix(),
{
    let mut s = String::new();
    s.append("#![module::entry(main)]\n        contract Main :: EntryPoint {\n            fn main() -> Void {\n                ");
    s.append(input);
    s.append("\n            }\n        }");
    s
}

impl ReplSession {
    /// A session with no input yet; the first input is number 1.
    pub fn new() -> (s: Self)
        ensures
            s.history@.len() == 0,
            s.line_num == 1,
    {
        ReplSession { history: Vec::new(), line_num: 1 }
    }

    /// Decides what a line of input does, and records it. The line is
    /// trimmed first; a blank line does nothing. A line starting with `:` is
    /// a command (`:quit`/`:q`/`:exit`, `:help`/`:h`, `:history`, `:clear`,
    /// `:tokens`, `:ast`); any other line is added to the history and run,
    /// and the next input gets the next number.
    pub fn step(&mut self, line: &str) -> (a: ReplAction)
        requires
            old(self).line_num < usize::MAX,
        ensures
            ({
                let input = spec_trim(line@);
                let h = old(self).history@;
                if input.len() == 0 {
                    a is Skip && *final(self) == *old(self)
                } else if input[0] == ':' {
                    &&& (input == ":quit"@ || input == ":q"@ || input == ":exit"@) ==> a is Quit && *final(self)
                        == *old(self)
                    &&& (input == ":help"@ || input == ":h"@) ==> a is Help && *final(self) == *old(self)
                    &&& input == ":history"@ ==> a is ShowHistory && *final(self) == *old(self)
                    &&& input == ":clear"@ ==> a is Cleared && final(self).history@.len() == 0
                        && final(self).line_num == 1
                    &&& input == ":tokens"@ ==> *final(self) == *old(self) && if h.len() == 0 {
                        a is NoPreviousInput
                    } else {
                        a == ReplAction::ShowTokens(h.last())
                    }
                    &&& input == ":ast"@ ==> *final(self) == *old(self) && if h.len() == 0 {
                        a is NoPreviousInput
                    } else {
                        a == ReplAction::ShowAst(h.last())
                    }
                    &&& !(input == ":quit"@ || input == ":q"@ || input == ":exit"@ || input == ":help"@ || input
                        == ":h"@ || input == ":history"@ || input == ":clear"@ || input == ":tokens"@ || input
                        == ":ast"@) ==> (a matches ReplAction::UnknownCommand(c) && c@ == input) && *final(self)
                        == *old(self)
                } else {
                    &&& a matches ReplAction::Execute { source, line: n } && source@ == input && n
                        == old(self).line_num
                    &&& final(self).history@.len() == h.len() + 1
                    &&& final(self).history@.drop_last() == h
                    &&& final(self).history@.last()@ == input
                    &&& final(self).line_num == old(self).line_num + 1
                }
            }),
    {
        let input = trim(line);
        proof {
            reveal_strlit(":quit");
            reveal_strlit(":q");
            reveal_strlit(":exit");
            reveal_strlit(":help");
            reveal_strlit(":h");
            reveal_strlit(":history");
            reveal_strlit(":clear");
            reveal_strlit(":tokens");
            reveal_strlit(":ast");
            assert(":quit"@.len() == 5 && ":quit"@[1] == 'q');
            assert(":q"@.len() == 2 && ":q"@[1] == 'q');
            assert(":exit"@.len() == 5 && ":exit"@[1] == 'e');
            assert(":help"@.len() == 5 && ":help"@[1] == 'h');
            assert(":h"@.len() == 2 && ":h"@[1] == 'h');
            assert(":history"@.len() == 8 && ":history"@[1] == 'h');
            assert(":clear"@.len() == 6 && ":clear"@[1] == 'c');
            assert(":tokens"@.len() == 7 && ":tokens"@[1] == 't');
            assert(":ast"@.len() == 4 && ":ast"@[1] == 'a');
        }
        if input.as_str().is_empty() {
            return ReplAction::Skip;
        }
        if starts_with_colon(input.as_str()) {
            let cmd = input.as_str();
            if str_eq(cmd, ":quit") || str_eq(cmd, ":q") || str_eq(cmd, ":exit") {
                return ReplAction::Quit;
            }
            if str_eq(cmd, ":help") || str_eq(cmd, ":h") {
                return ReplAction::Help;
            }
            if str_eq(cmd, ":history") {
                return ReplAction::ShowHistory;
            }
            if str_eq(cmd, ":clear") {
                self.history.clear();
                self.line_num = 1;
                return ReplAction::Cleared;
            }
            if str_eq(cmd, ":tokens") {
                if self.history.len() == 0 {
                    return ReplAction::NoPreviousInput;
                }
                return ReplAction::ShowTokens(self.history[self.history.len() - 1].clone());
            }
            if str_eq(cmd, ":ast") {
                if self.history.len() == 0 {
                    return ReplAction::NoPreviousInput;
                }
                return ReplAction::ShowAst(self.history[self.history.len() - 1].clone());
            }
            return ReplAction::UnknownCommand(input);
        }
        let n = self.line_num;
        self.history.push(input.clone());
        self.line_num = self.line_num + 1;
        ReplAction::Execute { source: input, line: n }
    }
}

/// Whether a non-empty string starts with `:`.
fn starts_with_colon(s: &str) -> (b: bool)
    requires
        s@.len() > 0,
    ensures
        b == (s@[0] == ':'),
{
    s.get_char(0) == ':'
}

} // verus!
