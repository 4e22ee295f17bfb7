//! The inspect-fs builtin: inspect the shell's filesystem using S-expressions.
//!
//! The expressions themselves are evaluated by whoever runs the command: the command asks for it by
//! an `Action`, and goes on when it is handed the `Reply`.

use crate::env::Environment;
use crate::env;
use crate::fs::Filesystem;
use crate::text;
use vstd::prelude::*;

verus! {

broadcast use vstd::string::group_string_axioms;

pub const USAGE: &'static str =
    "Usage: inspect-fs [-h]\n\nInspect and manipulate the shell's filesystem interactively.\n\nOptions:\n  -h, --help        Print help information\n\nREPL Commands:\n  :help, :h, :?     Show help\n  :quit, :q, :exit  Exit the REPL\n  :tree             Show filesystem tree\n  :usage            Show filesystem usage\n  :fns              List available Lisp functions\n\nLisp Functions:\n  (fs-read path)           Read file contents\n  (fs-write path content)  Write to file\n  (fs-mkdir path)          Create directory\n  (fs-unlink path)         Remove file\n  (fs-tree)                Get filesystem tree\n  (fs-exists? path)        Check if path exists\n  ... and many more (type :fns in REPL)";

pub const REPL_HELP: &'static str =
    "Commands:\n  :help, :h, :?      Show this help\n  :quit, :q, :exit   Exit the REPL\n  :tree              Show filesystem tree\n  :usage             Show filesystem usage\n  :fns               List available Lisp functions\n\nLisp evaluation:\n  Type any S-expression to evaluate it.\n\nExamples:\n  (fs-write \"/hello.txt\" \"Hello, World!\")\n  (fs-read \"/hello.txt\")\n  (fs-mkdir \"/mydir\")\n  (fs-tree)\n  (fs-exists? \"/hello.txt\")";

pub const FUNCTIONS: &'static str =
    "Filesystem Functions:\n  (fs-stat path)           Get file metadata\n  (fs-lstat path)          Get metadata (no symlink follow)\n  (fs-read path)           Read file contents\n  (fs-write path content)  Write to file\n  (fs-append path content) Append to file\n  (fs-mkdir path)          Create directory\n  (fs-mkdir-all path)      Create directory with parents\n  (fs-unlink path)         Remove file\n  (fs-rmdir path)          Remove empty directory\n  (fs-readdir path)        List directory\n  (fs-exists? path)        Check if path exists\n  (fs-is-dir? path)        Check if path is directory\n  (fs-symlink target link) Create symlink\n  (fs-readlink path)       Read symlink target\n  (fs-link src dst)        Create hard link\n  (fs-rename src dst)      Rename file/directory\n  (fs-tree)                Get filesystem tree\n  (fs-free-blocks)         Get free block count\n  (fs-total-blocks)        Get total block count\n  (fs-usage-percent)       Get usage percentage\n  (fs-clean)               Run garbage collection";

/// The expression that `:tree` stands for.
pub const TREE: &'static str = "(fs-tree)";

/// The expression that `:usage` stands for.
pub const USAGE_EXPRESSION: &'static str =
    "(list (list \"free\" (fs-free-blocks)) (list \"total\" (fs-total-blocks)) (list \"usage%\" (fs-usage-percent)))";

/// What is to be done next.
#[derive(Debug)]
pub enum Action {
    /// The command has ended with this exit code.
    Finish(i32),
    /// Evaluate an expression, and reply with its value.
    Evaluate(String),
    /// Evaluate an expression that stands for a command.
    EvaluateCommand(String),
}

/// The mathematical counterpart of `Action`.
pub ghost enum ActionView {
    Finish(int),
    Evaluate(Seq<char>),
    EvaluateCommand(Seq<char>),
}

impl View for Action {
    type V = ActionView;

    open spec fn view(&self) -> ActionView {
        match self {
            Action::Finish(code) => ActionView::Finish(*code as int),
            Action::Evaluate(s) => ActionView::Evaluate(s@),
            Action::EvaluateCommand(s) => ActionView::EvaluateCommand(s@),
        }
    }
}

/// What an expression came to.
#[derive(Debug)]
pub enum Reply {
    /// Its value.
    Value(String),
    /// Why it has none.
    Failed(String),
    /// Why it is no expression.
    Unparsable(String),
}

/// The mathematical counterpart of `Reply`.
pub ghost enum ReplyView {
    Value(Seq<char>),
    Failed(Seq<char>),
    Unparsable(Seq<char>),
}

impl View for Reply {
    type V = ReplyView;

    open spec fn view(&self) -> ReplyView {
        match self {
            Reply::Value(s) => ReplyView::Value(s@),
            Reply::Failed(s) => ReplyView::Failed(s@),
            Reply::Unparsable(s) => ReplyView::Unparsable(s@),
        }
    }
}

/// Whether an argument asks for help.
pub open spec fn asks_help(arg: Seq<char>) -> bool {
    arg == "-h"@ || arg == "--help"@
}

/// Whether one of the arguments asks for help.
pub open spec fn help_wanted(args: Seq<Seq<char>>) -> bool {
    exists|i: int| 1 <= i < args.len() && asks_help(#[trigger] args[i])
}

/// What a line that begins with a colon leads to.
pub ghost enum Handled {
    /// The next line.
    Next,
    /// The end.
    Quit,
    /// An expression.
    Ask(Seq<char>),
}

/// What a line that begins with a colon leads to.
pub enum Step {
    Next,
    Quit,
    Ask(String),
}

impl View for Step {
    type V = Handled;

    open spec fn view(&self) -> Handled {
        match self {
            Step::Next => Handled::Next,
            Step::Quit => Handled::Quit,
            Step::Ask(s) => Handled::Ask(s@),
        }
    }
}

/// What a line that begins with a colon does.
pub open spec fn handled<FS>(v: env::EnvView<FS>, line: Seq<char>) -> (env::EnvView<FS>, Handled) {
    if line == ":help"@ || line == ":h"@ || line == ":?"@ {
        (v.write_line(REPL_HELP@), Handled::Next)
    } else if line == ":quit"@ || line == ":q"@ || line == ":exit"@ {
        (v, Handled::Quit)
    } else if line == ":tree"@ {
        (v, Handled::Ask(TREE@))
    } else if line == ":usage"@ {
        (v, Handled::Ask(USAGE_EXPRESSION@))
    } else if line == ":fns"@ {
        (v.write_line(FUNCTIONS@), Handled::Next)
    } else {
        (v.error_line("Unknown command: "@ + line), Handled::Next)
    }
}

/// Handles a line that begins with a colon.
pub fn handle_command<FS: Filesystem>(env: &mut Environment<FS>, line: &str) -> (r: Step)
    ensures
        (final(env)@, r@) == handled(old(env)@, line@),
{
    if text::same(line, ":help") || text::same(line, ":h") || text::same(line, ":?") {
        env.write_line(REPL_HELP);
        Step::Next
    } else if text::same(line, ":quit") || text::same(line, ":q") || text::same(line, ":exit") {
        Step::Quit
    } else if text::same(line, ":tree") {
        Step::Ask(TREE.to_owned())
    } else if text::same(line, ":usage") {
        Step::Ask(USAGE_EXPRESSION.to_owned())
    } else if text::same(line, ":fns") {
        env.write_line(FUNCTIONS);
        Step::Next
    } else {
        let mut m = "Unknown command: ".to_owned();
        m.append(line);
        env.error_line(m.as_str());
        Step::Next
    }
}

/// What the lines that are typed in lead to: the end, or the next request.
pub open spec fn prompted<FS: Filesystem>(v: env::EnvView<FS>) -> (env::EnvView<FS>, ActionView)
    decreases v.stdin.len(),
{
    let w = v.write("> "@);
    if v.stdin.len() == 0 {
        (w, ActionView::Finish(0))
    } else {
        let line = text::trim(v.stdin[0]);
        let x = env::EnvView { stdin: v.stdin.skip(1), ..w };
        if line.len() == 0 {
            prompted(x)
        } else if line[0] == ':' {
            match handled(x, line) {
                (y, Handled::Quit) => (y, ActionView::Finish(0)),
                (y, Handled::Ask(s)) => (y, ActionView::EvaluateCommand(s)),
                (y, Handled::Next) => prompted(env::EnvView { stdin: x.stdin, ..y }),
            }
        } else {
            (x, ActionView::Evaluate(line))
        }
    }
}

/// Reads lines up to one that ends the command or asks for something.
pub fn prompt<FS: Filesystem>(env: &mut Environment<FS>) -> (r: Action)
    ensures
        (final(env)@, r@) == prompted(old(env)@),
{
    loop
        invariant
            prompted(env@) == prompted(old(env)@),
        decreases env@.stdin.len(),
    {
        env.write_str("> ");
        let line = match env.stdin.read_line() {
            Some(line) => line,
            None => {
                return Action::Finish(0);
            },
        };
        let line = text::trimmed(line.as_str());
        let v = text::chars(line.as_str());
        if v.len() > 0 {
            if v[0] == ':' {
                match handle_command(env, line.as_str()) {
                    Step::Quit => {
                        return Action::Finish(0);
                    },
                    Step::Ask(s) => {
                        return Action::EvaluateCommand(s);
                    },
                    Step::Next => {},
                }
            } else {
                return Action::Evaluate(line);
            }
        }
    }
}

/// What the command does first.
pub open spec fn spec_bin<FS: Filesystem>(v: env::EnvView<FS>) -> (env::EnvView<FS>, ActionView) {
    if help_wanted(v.args) {
        (v.error_line(USAGE@), ActionView::Finish(0))
    } else {
        prompted(
            v.write_line(
                "Inspecting shell filesystem. Type :help for commands, :quit to exit."@,
            ).write_line(""@),
        )
    }
}

/// The inspect-fs builtin: inspect the shell's filesystem using S-expressions.
pub fn bin<FS: Filesystem>(env: &mut Environment<FS>) -> (r: Action)
    requires
        old(env)@.args.len() > 0,
    ensures
        (final(env)@, r@) == spec_bin(old(env)@),
{
    assert(env@.args == env.args.deep_view());
    let mut i: usize = 1;
    while i < env.args.len()
        invariant
            1 <= i,
            env@ == old(env)@,
            env@.args == env.args.deep_view(),
            forall|j: int| 1 <= j < i && j < env@.args.len() ==> !asks_help(
                #[trigger] env@.args[j],
            ),
        decreases env.args.len() - i,
    {
        if text::same(env.args[i].as_str(), "-h") || text::same(env.args[i].as_str(), "--help") {
            assert(asks_help(env@.args[i as int]));
            env.error_line(USAGE);
            return Action::Finish(0);
        }
        i += 1;
    }
    env.write_line("Inspecting shell filesystem. Type :help for commands, :quit to exit.");
    env.write_line("");
    prompt(env)
}

/// What a reply leads to. That an expression which stands for a command is none is not reported.
pub open spec fn resumed<FS: Filesystem>(
    v: env::EnvView<FS>,
    for_command: bool,
    reply: ReplyView,
) -> (env::EnvView<FS>, ActionView) {
    prompted(
        match reply {
            ReplyView::Value(s) => v.write_line(s),
            ReplyView::Failed(m) => v.error_line("Error: "@ + m),
            ReplyView::Unparsable(m) => if for_command {
                v
            } else {
                v.error_line("Parse error: "@ + m)
            },
        },
    )
}

/// Goes on with the reply to what was asked for last; `for_command` tells whether that stood for a
/// command.
pub fn resume<FS: Filesystem>(env: &mut Environment<FS>, for_command: bool, reply: Reply) -> (r:
    Action)
    ensures
        (final(env)@, r@) == resumed(old(env)@, for_command, reply@),
{
    match reply {
        Reply::Value(s) => {
            env.write_line(s.as_str());
        },
        Reply::Failed(e) => {
            let mut m = "Error: ".to_owned();
            m.append(e.as_str());
            env.error_line(m.as_str());
        },
        Reply::Unparsable(e) => {
            if !for_command {
                let mut m = "Parse error: ".to_owned();
                m.append(e.as_str());
                env.error_line(m.as_str());
            }
        },
    }
    prompt(env)
}

// ---------------------------------------------------------------------------------------------
// Laws
// ---------------------------------------------------------------------------------------------

/// Where no line is left, the command ends, whatever was replied.
pub proof fn lemma_end_of_input<FS: Filesystem>(
    v: env::EnvView<FS>,
    for_command: bool,
    reply: ReplyView,
)
    requires
        v.stdin.len() == 0,
    ensures
        resumed(v, for_command, reply).1 == ActionView::Finish(0),
{
}

/// A line that begins with no colon is handed on as it is, without the white space around it.
pub proof fn lemma_expression_handed_on<FS: Filesystem>(v: env::EnvView<FS>)
    requires
        v.stdin.len() > 0,
        text::trim(v.stdin[0]).len() > 0,
        text::trim(v.stdin[0])[0] != ':',
    ensures
        prompted(v).1 == ActionView::Evaluate(text::trim(v.stdin[0])),
{
}

} // verus!
