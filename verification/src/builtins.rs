//! The commands by their names.

use crate::env::{Environment, Error, ExitCode};
use crate::env;
use crate::fs::Filesystem;
use crate::host::{Host, Services};
use crate::host;
use crate::markdownsp::Evaluator;
use crate::number;
use crate::text;
use crate::{
    base64, cat, comm, du, echo, grep, head, ln, markdownsp, mkdir, mktemp, nl, readlink, rm, rmdir,
    shuf, sort, split,
};
use vstd::prelude::*;

verus! {

broadcast use vstd::string::group_string_axioms;

/// A command.
#[derive(Debug, Clone, Copy, PartialEq, Eq, Structural)]
pub enum Builtin {
    Base64,
    Basename,
    Cat,
    Comm,
    Cp,
    Cut,
    Date,
    Du,
    Echo,
    Env,
    Exit,
    Expand,
    False,
    Fold,
    Grep,
    Head,
    Ln,
    Ls,
    Mkdir,
    Mktemp,
    Mv,
    Nl,
    Paste,
    Printf,
    Pwd,
    Readlink,
    Realpath,
    Rm,
    Rmdir,
    Sequence,
    Sh,
    Shuf,
    Sort,
    Split,
    Stat,
    Tail,
    Tee,
    Test,
    Touch,
    Tr,
    True,
    Truncate,
    Uname,
    Unexpand,
    Uniq,
    Wc,
    Which,
    Yes,
    Markdownsp,
}

/// A name that a command goes by, with its path and what stands in the file at that path.
#[derive(Debug, Clone, Copy)]
pub struct Entry {
    pub name: &'static str,
    pub path: &'static str,
    pub contents: &'static str,
    pub builtin: Builtin,
}

/// Canonical command names, their paths, and their documentation contents.
pub open spec fn entries() -> Seq<Entry> {
    seq![
        Entry {
            name: "base64",
            path: "/usr/bin/base64",
            contents: "//! The base64 command: encode or decode data using Base64 encoding (RFC 4648).",
            builtin: Builtin::Base64,
        },
        Entry {
            name: "basename",
            path: "/usr/bin/basename",
            contents: "//! The basename command: strip directory and suffix from filenames.",
            builtin: Builtin::Basename,
        },
        Entry {
            name: "cat",
            path: "/bin/cat",
            contents: "//! The cat command: concatenate and print files.",
            builtin: Builtin::Cat,
        },
        Entry {
            name: "comm",
            path: "/usr/bin/comm",
            contents: "//! The comm command: select or reject lines common to two files.",
            builtin: Builtin::Comm,
        },
        Entry {
            name: "cp",
            path: "/bin/cp",
            contents: "//! The cp utility: copy files.",
            builtin: Builtin::Cp,
        },
        Entry {
            name: "cut",
            path: "/usr/bin/cut",
            contents: "//! The cut utility: cut out selected portions of each line of a file.",
            builtin: Builtin::Cut,
        },
        Entry {
            name: "date",
            path: "/bin/date",
            contents: "//! The date command: display or set date and time.",
            builtin: Builtin::Date,
        },
        Entry {
            name: "du",
            path: "/usr/bin/du",
            contents: "//! The du command: display disk usage statistics.",
            builtin: Builtin::Du,
        },
        Entry {
            name: "echo",
            path: "/bin/echo",
            contents: "//! The echo command: write arguments to standard output.",
            builtin: Builtin::Echo,
        },
        Entry {
            name: "env",
            path: "/usr/bin/env",
            contents: "//! The env command: set environment and execute command, or print environment.",
            builtin: Builtin::Env,
        },
        Entry {
            name: "exit",
            path: "exit",
            contents: "",
            builtin: Builtin::Exit,
        },
        Entry {
            name: "expand",
            path: "/usr/bin/expand",
            contents: "//! The expand utility converts tabs to spaces.",
            builtin: Builtin::Expand,
        },
        Entry {
            name: "false",
            path: "/bin/false",
            contents: "",
            builtin: Builtin::False,
        },
        Entry {
            name: "fold",
            path: "/usr/bin/fold",
            contents: "//! The fold utility: wrap lines to a specified width.",
            builtin: Builtin::Fold,
        },
        Entry {
            name: "grep",
            path: "/usr/bin/grep",
            contents: "//! The grep command: file pattern searcher.",
            builtin: Builtin::Grep,
        },
        Entry {
            name: "egrep",
            path: "/usr/bin/egrep",
            contents: "",
            builtin: Builtin::Grep,
        },
        Entry {
            name: "fgrep",
            path: "/usr/bin/fgrep",
            contents: "",
            builtin: Builtin::Grep,
        },
        Entry {
            name: "head",
            path: "/usr/bin/head",
            contents: "//! The head command: display first lines of a file.",
            builtin: Builtin::Head,
        },
        Entry {
            name: "ln",
            path: "/bin/ln",
            contents: "//! The ln utility: create links between files.",
            builtin: Builtin::Ln,
        },
        Entry {
            name: "ls",
            path: "/bin/ls",
            contents: "//! The ls command: list directory contents.",
            builtin: Builtin::Ls,
        },
        Entry {
            name: "mkdir",
            path: "/bin/mkdir",
            contents: "//! The mkdir command: create directories.",
            builtin: Builtin::Mkdir,
        },
        Entry {
            name: "mktemp",
            path: "/usr/bin/mktemp",
            contents: "//! The mktemp command: create temporary files or directories.",
            builtin: Builtin::Mktemp,
        },
        Entry {
            name: "mv",
            path: "/bin/mv",
            contents: "//! The mv utility: move files.",
            builtin: Builtin::Mv,
        },
        Entry {
            name: "nl",
            path: "/usr/bin/nl",
            contents: "//! The nl command: line numbering filter.",
            builtin: Builtin::Nl,
        },
        Entry {
            name: "paste",
            path: "/usr/bin/paste",
            contents: "//! The paste utility: merge corresponding or subsequent lines of files.",
            builtin: Builtin::Paste,
        },
        Entry {
            name: "printf",
            path: "/usr/bin/printf",
            contents: "//! The printf command: format and print data.",
            builtin: Builtin::Printf,
        },
        Entry {
            name: "pwd",
            path: "/bin/pwd",
            contents: "//! The pwd command: print working directory name.",
            builtin: Builtin::Pwd,
        },
        Entry {
            name: "readlink",
            path: "/usr/bin/readlink",
            contents: "//! The readlink command: print the target of a symbolic link.",
            builtin: Builtin::Readlink,
        },
        Entry {
            name: "realpath",
            path: "/bin/realpath",
            contents: "//! The realpath command: return resolved physical path.",
            builtin: Builtin::Realpath,
        },
        Entry {
            name: "rm",
            path: "/bin/rm",
            contents: "//! The rm command: remove directory entries.",
            builtin: Builtin::Rm,
        },
        Entry {
            name: "rmdir",
            path: "/bin/rmdir",
            contents: "//! The rmdir command: remove empty directories.",
            builtin: Builtin::Rmdir,
        },
        Entry {
            name: "seq",
            path: "/usr/bin/seq",
            contents: "//! The seq utility: print sequences of numbers.",
            builtin: Builtin::Sequence,
        },
        Entry {
            name: "sh",
            path: "/bin/sh",
            contents: "",
            builtin: Builtin::Sh,
        },
        Entry {
            name: "shuf",
            path: "/usr/bin/shuf",
            contents: "//! The shuf command: generate random permutations.",
            builtin: Builtin::Shuf,
        },
        Entry {
            name: "sort",
            path: "/usr/bin/sort",
            contents: "//! The sort command: sort lines of text files.",
            builtin: Builtin::Sort,
        },
        Entry {
            name: "split",
            path: "/usr/bin/split",
            contents: "//! The split command: split a file into pieces.",
            builtin: Builtin::Split,
        },
        Entry {
            name: "stat",
            path: "/usr/bin/stat",
            contents: "//! The stat command: display file status.",
            builtin: Builtin::Stat,
        },
        Entry {
            name: "tail",
            path: "/usr/bin/tail",
            contents: "//! The tail command: display the last part of a file.",
            builtin: Builtin::Tail,
        },
        Entry {
            name: "tee",
            path: "/usr/bin/tee",
            contents: "//! The tee command: duplicate standard input.",
            builtin: Builtin::Tee,
        },
        Entry {
            name: "test",
            path: "/usr/bin/test",
            contents: "//! The test command: condition evaluation utility.\n//!\n//! Evaluates conditional expressions and returns 0 (true) or 1 (false).",
            builtin: Builtin::Test,
        },
        Entry {
            name: "[",
            path: "/usr/bin/[",
            contents: "//! The [ command: condition evaluation utility (alias for test).\n//!\n//! Evaluates conditional expressions and returns 0 (true) or 1 (false).\n//! Requires a closing ] as the last argument.",
            builtin: Builtin::Test,
        },
        Entry {
            name: "touch",
            path: "/usr/bin/touch",
            contents: "//! The touch command: change file access and modification times.",
            builtin: Builtin::Touch,
        },
        Entry {
            name: "tr",
            path: "/usr/bin/tr",
            contents: "//! The tr utility: translate, squeeze, and/or delete characters.",
            builtin: Builtin::Tr,
        },
        Entry {
            name: "true",
            path: "/bin/true",
            contents: "",
            builtin: Builtin::True,
        },
        Entry {
            name: "truncate",
            path: "/usr/bin/truncate",
            contents: "//! The truncate command: truncate or extend a file to a specified size.",
            builtin: Builtin::Truncate,
        },
        Entry {
            name: "uname",
            path: "/usr/bin/uname",
            contents: "//! The uname command: print eudaemonsh system identification.",
            builtin: Builtin::Uname,
        },
        Entry {
            name: "unexpand",
            path: "/usr/bin/unexpand",
            contents: "//! The unexpand utility converts spaces to tabs.",
            builtin: Builtin::Unexpand,
        },
        Entry {
            name: "uniq",
            path: "/usr/bin/uniq",
            contents: "//! The uniq command: report or filter out repeated lines in a file.",
            builtin: Builtin::Uniq,
        },
        Entry {
            name: "unlink",
            path: "/bin/unlink",
            contents: "",
            builtin: Builtin::Rm,
        },
        Entry {
            name: "wc",
            path: "/usr/bin/wc",
            contents: "//! The wc command: word, line, character, and byte count.",
            builtin: Builtin::Wc,
        },
        Entry {
            name: "which",
            path: "/usr/bin/which",
            contents: "//! The which command: locate a command.",
            builtin: Builtin::Which,
        },
        Entry {
            name: "yes",
            path: "/usr/bin/yes",
            contents: "//! The yes utility: be repetitively affirmative.",
            builtin: Builtin::Yes,
        },
        Entry {
            name: "markdownsp",
            path: "/usr/bin/markdownsp",
            contents: "//! The markdownsp command: a lisp REPL for markdown documents.\n//!\n//! This command launches an interactive S-expression REPL that allows\n//! parsing, querying, and manipulating markdown documents in the current directory.",
            builtin: Builtin::Markdownsp,
        },
    ]
}

/// Canonical command names, their paths, and their documentation contents.
pub fn builtin_commands() -> (r: Vec<Entry>)
    ensures
        r@ == entries(),
{
    vec![
        Entry {
            name: "base64",
            path: "/usr/bin/base64",
            contents: "//! The base64 command: encode or decode data using Base64 encoding (RFC 4648).",
            builtin: Builtin::Base64,
        },
        Entry {
            name: "basename",
            path: "/usr/bin/basename",
            contents: "//! The basename command: strip directory and suffix from filenames.",
            builtin: Builtin::Basename,
        },
        Entry {
            name: "cat",
            path: "/bin/cat",
            contents: "//! The cat command: concatenate and print files.",
            builtin: Builtin::Cat,
        },
        Entry {
            name: "comm",
            path: "/usr/bin/comm",
            contents: "//! The comm command: select or reject lines common to two files.",
            builtin: Builtin::Comm,
        },
        Entry {
            name: "cp",
            path: "/bin/cp",
            contents: "//! The cp utility: copy files.",
            builtin: Builtin::Cp,
        },
        Entry {
            name: "cut",
            path: "/usr/bin/cut",
            contents: "//! The cut utility: cut out selected portions of each line of a file.",
            builtin: Builtin::Cut,
        },
        Entry {
            name: "date",
            path: "/bin/date",
            contents: "//! The date command: display or set date and time.",
            builtin: Builtin::Date,
        },
        Entry {
            name: "du",
            path: "/usr/bin/du",
            contents: "//! The du command: display disk usage statistics.",
            builtin: Builtin::Du,
        },
        Entry {
            name: "echo",
            path: "/bin/echo",
            contents: "//! The echo command: write arguments to standard output.",
            builtin: Builtin::Echo,
        },
        Entry {
            name: "env",
            path: "/usr/bin/env",
            contents: "//! The env command: set environment and execute command, or print environment.",
            builtin: Builtin::Env,
        },
        Entry {
            name: "exit",
            path: "exit",
            contents: "",
            builtin: Builtin::Exit,
        },
        Entry {
            name: "expand",
            path: "/usr/bin/expand",
            contents: "//! The expand utility converts tabs to spaces.",
            builtin: Builtin::Expand,
        },
        Entry {
            name: "false",
            path: "/bin/false",
            contents: "",
            builtin: Builtin::False,
        },
        Entry {
            name: "fold",
            path: "/usr/bin/fold",
            contents: "//! The fold utility: wrap lines to a specified width.",
            builtin: Builtin::Fold,
        },
        Entry {
            name: "grep",
            path: "/usr/bin/grep",
            contents: "//! The grep command: file pattern searcher.",
            builtin: Builtin::Grep,
        },
        Entry {
            name: "egrep",
            path: "/usr/bin/egrep",
            contents: "",
            builtin: Builtin::Grep,
        },
        Entry {
            name: "fgrep",
            path: "/usr/bin/fgrep",
            contents: "",
            builtin: Builtin::Grep,
        },
        Entry {
            name: "head",
            path: "/usr/bin/head",
            contents: "//! The head command: display first lines of a file.",
            builtin: Builtin::Head,
        },
        Entry {
            name: "ln",
            path: "/bin/ln",
            contents: "//! The ln utility: create links between files.",
            builtin: Builtin::Ln,
        },
        Entry {
            name: "ls",
            path: "/bin/ls",
            contents: "//! The ls command: list directory contents.",
            builtin: Builtin::Ls,
        },
        Entry {
            name: "mkdir",
            path: "/bin/mkdir",
            contents: "//! The mkdir command: create directories.",
            builtin: Builtin::Mkdir,
        },
        Entry {
            name: "mktemp",
            path: "/usr/bin/mktemp",
            contents: "//! The mktemp command: create temporary files or directories.",
            builtin: Builtin::Mktemp,
        },
        Entry {
            name: "mv",
            path: "/bin/mv",
            contents: "//! The mv utility: move files.",
            builtin: Builtin::Mv,
        },
        Entry {
            name: "nl",
            path: "/usr/bin/nl",
            contents: "//! The nl command: line numbering filter.",
            builtin: Builtin::Nl,
        },
        Entry {
            name: "paste",
            path: "/usr/bin/paste",
            contents: "//! The paste utility: merge corresponding or subsequent lines of files.",
            builtin: Builtin::Paste,
        },
        Entry {
            name: "printf",
            path: "/usr/bin/printf",
            contents: "//! The printf command: format and print data.",
            builtin: Builtin::Printf,
        },
        Entry {
            name: "pwd",
            path: "/bin/pwd",
            contents: "//! The pwd command: print working directory name.",
            builtin: Builtin::Pwd,
        },
        Entry {
            name: "readlink",
            path: "/usr/bin/readlink",
            contents: "//! The readlink command: print the target of a symbolic link.",
            builtin: Builtin::Readlink,
        },
        Entry {
            name: "realpath",
            path: "/bin/realpath",
            contents: "//! The realpath command: return resolved physical path.",
            builtin: Builtin::Realpath,
        },
        Entry {
            name: "rm",
            path: "/bin/rm",
            contents: "//! The rm command: remove directory entries.",
            builtin: Builtin::Rm,
        },
        Entry {
            name: "rmdir",
            path: "/bin/rmdir",
            contents: "//! The rmdir command: remove empty directories.",
            builtin: Builtin::Rmdir,
        },
        Entry {
            name: "seq",
            path: "/usr/bin/seq",
            contents: "//! The seq utility: print sequences of numbers.",
            builtin: Builtin::Sequence,
        },
        Entry {
            name: "sh",
            path: "/bin/sh",
            contents: "",
            builtin: Builtin::Sh,
        },
        Entry {
            name: "shuf",
            path: "/usr/bin/shuf",
            contents: "//! The shuf command: generate random permutations.",
            builtin: Builtin::Shuf,
        },
        Entry {
            name: "sort",
            path: "/usr/bin/sort",
            contents: "//! The sort command: sort lines of text files.",
            builtin: Builtin::Sort,
        },
        Entry {
            name: "split",
            path: "/usr/bin/split",
            contents: "//! The split command: split a file into pieces.",
            builtin: Builtin::Split,
        },
        Entry {
            name: "stat",
            path: "/usr/bin/stat",
            contents: "//! The stat command: display file status.",
            builtin: Builtin::Stat,
        },
        Entry {
            name: "tail",
            path: "/usr/bin/tail",
            contents: "//! The tail command: display the last part of a file.",
            builtin: Builtin::Tail,
        },
        Entry {
            name: "tee",
            path: "/usr/bin/tee",
            contents: "//! The tee command: duplicate standard input.",
            builtin: Builtin::Tee,
        },
        Entry {
            name: "test",
            path: "/usr/bin/test",
            contents: "//! The test command: condition evaluation utility.\n//!\n//! Evaluates conditional expressions and returns 0 (true) or 1 (false).",
            builtin: Builtin::Test,
        },
        Entry {
            name: "[",
            path: "/usr/bin/[",
            contents: "//! The [ command: condition evaluation utility (alias for test).\n//!\n//! Evaluates conditional expressions and returns 0 (true) or 1 (false).\n//! Requires a closing ] as the last argument.",
            builtin: Builtin::Test,
        },
        Entry {
            name: "touch",
            path: "/usr/bin/touch",
            contents: "//! The touch command: change file access and modification times.",
            builtin: Builtin::Touch,
        },
        Entry {
            name: "tr",
            path: "/usr/bin/tr",
            contents: "//! The tr utility: translate, squeeze, and/or delete characters.",
            builtin: Builtin::Tr,
        },
        Entry {
            name: "true",
            path: "/bin/true",
            contents: "",
            builtin: Builtin::True,
        },
        Entry {
            name: "truncate",
            path: "/usr/bin/truncate",
            contents: "//! The truncate command: truncate or extend a file to a specified size.",
            builtin: Builtin::Truncate,
        },
        Entry {
            name: "uname",
            path: "/usr/bin/uname",
            contents: "//! The uname command: print eudaemonsh system identification.",
            builtin: Builtin::Uname,
        },
        Entry {
            name: "unexpand",
            path: "/usr/bin/unexpand",
            contents: "//! The unexpand utility converts spaces to tabs.",
            builtin: Builtin::Unexpand,
        },
        Entry {
            name: "uniq",
            path: "/usr/bin/uniq",
            contents: "//! The uniq command: report or filter out repeated lines in a file.",
            builtin: Builtin::Uniq,
        },
        Entry {
            name: "unlink",
            path: "/bin/unlink",
            contents: "",
            builtin: Builtin::Rm,
        },
        Entry {
            name: "wc",
            path: "/usr/bin/wc",
            contents: "//! The wc command: word, line, character, and byte count.",
            builtin: Builtin::Wc,
        },
        Entry {
            name: "which",
            path: "/usr/bin/which",
            contents: "//! The which command: locate a command.",
            builtin: Builtin::Which,
        },
        Entry {
            name: "yes",
            path: "/usr/bin/yes",
            contents: "//! The yes utility: be repetitively affirmative.",
            builtin: Builtin::Yes,
        },
        Entry {
            name: "markdownsp",
            path: "/usr/bin/markdownsp",
            contents: "//! The markdownsp command: a lisp REPL for markdown documents.\n//!\n//! This command launches an interactive S-expression REPL that allows\n//! parsing, querying, and manipulating markdown documents in the current directory.",
            builtin: Builtin::Markdownsp,
        },
    ]
}

/// The command that goes by a name among the entries from `i` on: the first whose name or path it
/// is.
pub open spec fn found(list: Seq<Entry>, name: Seq<char>, i: int) -> Option<Builtin>
    decreases list.len() - i,
{
    if i < 0 || i >= list.len() {
        None
    } else if name == list[i].name@ || name == list[i].path@ {
        Some(list[i].builtin)
    } else {
        found(list, name, i + 1)
    }
}

/// The command that goes by a name.
pub open spec fn lookup(name: Seq<char>) -> Option<Builtin> {
    found(entries(), name, 0)
}

/// Looks up a builtin binary by name.
pub fn lookup_bin(bin: &str) -> (r: Result<Builtin, Error>)
    ensures
        match r {
            Ok(b) => lookup(bin@) == Some(b),
            Err(e) => lookup(bin@) is None && e@ == env::ErrorView::UnknownBinary(bin@),
        },
{
    let list = builtin_commands();
    let mut i: usize = 0;
    while i < list.len()
        invariant
            i <= list@.len(),
            found(list@, bin@, i as int) == found(list@, bin@, 0),
            list@ == entries(),
        decreases list.len() - i,
    {
        if text::same(bin, list[i].name) || text::same(bin, list[i].path) {
            return Ok(list[i].builtin);
        }
        i += 1;
    }
    Err(Error::UnknownBinary(bin.to_owned()))
}

// ---------------------------------------------------------------------------------------------
// The smallest commands
// ---------------------------------------------------------------------------------------------

/// The true builtin: do nothing, successfully.
///
/// Returns exit code 0.
pub fn true_bin<FS: Filesystem>(env: &mut Environment<FS>) -> (r: Result<ExitCode, Error>)
    ensures
        final(env)@ == old(env)@,
        env::outcome(r) == Ok::<int, env::ErrorView>(0),
{
    Ok(ExitCode::new(0))
}

/// The false builtin: do nothing, unsuccessfully.
///
/// Returns exit code 1.
pub fn false_bin<FS: Filesystem>(env: &mut Environment<FS>) -> (r: Result<ExitCode, Error>)
    ensures
        final(env)@ == old(env)@,
        env::outcome(r) == Ok::<int, env::ErrorView>(1),
{
    Ok(ExitCode::new(1))
}

/// What `exit` does: the shell is told to end, unless the argument is no number of eight bits.
pub open spec fn exited<FS>(v: env::EnvView<FS>) -> (env::EnvView<FS>, int) {
    let ended = env::EnvView { exit_signaled: true, ..v };
    if v.args.len() > 1 {
        match text::signed(v.args[1], 127) {
            Some(n) => (ended, n),
            None => (v.error_line("exit: "@ + v.args[1] + ": numeric argument required"@), 2),
        }
    } else {
        (ended, 0)
    }
}

/// The exit builtin: exit the shell with an optional exit code.
///
/// Usage:
///   exit [n]
///
/// If n is omitted, the exit code is 0.
pub fn exit_bin<FS: Filesystem>(env: &mut Environment<FS>) -> (r: Result<ExitCode, Error>)
    ensures
        (final(env)@, env::outcome(r)) == (
            exited(old(env)@).0,
            Ok::<int, env::ErrorView>(exited(old(env)@).1),
        ),
{
    assert(env@.args == env.args.deep_view());
    if env.args.len() > 1 {
        match text::parse_signed(env.args[1].as_str(), 127) {
            Some(n) => {
                env.exit_signaled = true;
                Ok(ExitCode::new(n as i32))
            },
            None => {
                let mut m = "exit: ".to_owned();
                m.append(env.args[1].as_str());
                m.append(": numeric argument required");
                env.error_line(m.as_str());
                Ok(ExitCode::new(2))
            },
        }
    } else {
        env.exit_signaled = true;
        Ok(ExitCode::new(0))
    }
}

/// The pwd builtin: print the working directory.
pub fn pwd_bin<FS: Filesystem>(env: &mut Environment<FS>) -> (r: Result<ExitCode, Error>)
    ensures
        final(env)@ == old(env)@.write_line(old(env)@.cwd),
        env::outcome(r) == Ok::<int, env::ErrorView>(0),
{
    let cwd = env.cwd.clone();
    env.write_line(cwd.as_str());
    Ok(ExitCode::new(0))
}

// ---------------------------------------------------------------------------------------------
// Running a command
// ---------------------------------------------------------------------------------------------

/// What a command other than the shell does. A command that is not at hand is unknown.
pub open spec fn ran<FS: Filesystem>(b: Builtin, v: env::EnvView<FS>, host: Services<FS>) -> (
    env::EnvView<FS>,
    Result<int, env::ErrorView>,
) {
    match b {
        Builtin::Base64 => base64::spec_bin(v),
        Builtin::Cat => cat::spec_bin(v),
        Builtin::Comm => comm::spec_bin(v),
        Builtin::Du => du::spec_bin(v),
        Builtin::Echo => echo::spec_bin(v),
        Builtin::Grep => grep::spec_bin(v),
        Builtin::Head => head::spec_bin(v),
        Builtin::Ln => ln::spec_bin(v),
        Builtin::Markdownsp => markdownsp::spec_bin(v, host.eval),
        Builtin::Mkdir => mkdir::spec_bin(v),
        Builtin::Mktemp => mktemp::spec_bin(v),
        Builtin::Nl => nl::spec_bin(v),
        Builtin::Readlink => readlink::spec_bin(v),
        Builtin::Rm => rm::spec_bin(v),
        Builtin::Rmdir => rmdir::spec_bin(v),
        Builtin::Shuf => shuf::spec_bin(v),
        Builtin::Split => split::spec_bin(v),
        Builtin::Sort => sort::spec_bin(v, host.num),
        Builtin::True => (v, Ok(0)),
        Builtin::False => (v, Ok(1)),
        Builtin::Pwd => (v.write_line(v.cwd), Ok(0)),
        Builtin::Exit => {
            let (w, code) = exited(v);
            (w, Ok(code))
        },
        _ => (v, Err(env::ErrorView::UnknownBinary(v.args[0]))),
    }
}

/// Runs a command other than the shell.
pub fn run<FS: Filesystem, N: Fn(&str, u32) -> Option<i64>, E: Evaluator<FS>>(
    b: Builtin,
    env: &mut Environment<FS>,
    host: &Host<N, E>,
) -> (r: Result<ExitCode, Error>)
    requires
        old(env)@.args.len() > 0,
        number::is_reader(host.num),
    ensures
        (final(env)@, env::outcome(r)) == ran(b, old(env)@, host::services(*host)),
{
    assert(env@.args == env.args.deep_view());
    match b {
        Builtin::Base64 => base64::bin(env),
        Builtin::Cat => cat::bin(env),
        Builtin::Comm => comm::bin(env),
        Builtin::Du => du::bin(env),
        Builtin::Echo => echo::bin(env),
        Builtin::Grep => grep::bin(env),
        Builtin::Head => head::bin(env),
        Builtin::Ln => ln::bin(env),
        Builtin::Markdownsp => markdownsp::bin(env, &host.eval),
        Builtin::Mkdir => mkdir::bin(env),
        Builtin::Mktemp => mktemp::bin(env),
        Builtin::Nl => nl::bin(env),
        Builtin::Readlink => readlink::bin(env),
        Builtin::Rm => rm::bin(env),
        Builtin::Rmdir => rmdir::bin(env),
        Builtin::Shuf => shuf::bin(env),
        Builtin::Split => split::bin(env),
        Builtin::Sort => sort::bin(env, &host.num),
        Builtin::True => true_bin(env),
        Builtin::False => false_bin(env),
        Builtin::Pwd => pwd_bin(env),
        Builtin::Exit => exit_bin(env),
        _ => Err(Error::UnknownBinary(env.args[0].clone())),
    }
}

// ---------------------------------------------------------------------------------------------
// Laws
// ---------------------------------------------------------------------------------------------

/// The character so many places before the last, as a number; 0 where there is none.
spec fn back(s: Seq<char>, j: int) -> int {
    if j < s.len() {
        s[s.len() - 1 - j] as int
    } else {
        0
    }
}

/// A number by which the names and the paths of the commands can be told apart.
spec fn tally(s: Seq<char>) -> int {
    2 * s.len() + back(s, 0) + 11 * back(s, 1) + 32 * back(s, 4)
}

/// The entry whose name or path has a tally.
spec fn holder(n: int) -> int {
    if n == 3762 || n == 3780 {
        0
    } else if n == 4548 || n == 4566 {
        1
    } else if n == 1189 || n == 4719 {
        2
    } else if n == 1316 || n == 2838 {
        3
    } else if n == 1205 || n == 4575 {
        4
    } else if n == 1409 || n == 4947 {
        5
    } else if n == 1385 || n == 2899 {
        6
    } else if n == 1221 || n == 4599 {
        7
    } else if n == 1263 || n == 2777 {
        8
    } else if n == 1334 || n == 4872 {
        9
    } else if n == 1279 {
        10
    } else if n == 5162 || n == 5180 {
        11
    } else if n == 4640 || n == 4650 {
        12
    } else if n == 1296 || n == 2818 {
        13
    } else if n == 1231 || n == 2753 {
        14
    } else if n == 4465 || n == 4483 {
        15
    } else if n == 4497 || n == 4515 {
        16
    } else if n == 1175 || n == 2697 {
        17
    } else if n == 1302 || n == 4672 {
        18
    } else if n == 1307 || n == 4677 {
        19
    } else if n == 4767 || n == 4777 {
        20
    } else if n == 4747 || n == 4765 {
        21
    } else if n == 1321 || n == 4691 {
        22
    } else if n == 1322 || n == 4700 {
        23
    } else if n == 4971 || n == 4989 {
        24
    } else if n == 5038 || n == 5056 {
        25
    } else if n == 1415 || n == 4945 {
        26
    } else if n == 4533 || n == 4551 {
        27
    } else if n == 4852 || n == 4862 {
        28
    } else if n == 1367 || n == 4737 {
        29
    } else if n == 4927 || n == 4937 {
        30
    } else if n == 1230 || n == 4768 {
        31
    } else if n == 1373 || n == 4743 {
        32
    } else if n == 1397 || n == 2919 {
        33
    } else if n == 1378 || n == 2900 {
        34
    } else if n == 4961 || n == 4979 {
        35
    } else if n == 1191 || n == 2713 {
        36
    } else if n == 1271 || n == 2793 {
        37
    } else if n == 1218 || n == 4756 {
        38
    } else if n == 1389 || n == 2911 {
        39
    } else if n == 93 || n == 3764 {
        40
    } else if n == 4915 || n == 4933 {
        41
    } else if n == 1394 || n == 4772 {
        42
    } else if n == 1396 || n == 2910 {
        43
    } else if n == 4913 || n == 4931 {
        44
    } else if n == 5054 || n == 5072 {
        45
    } else if n == 5166 || n == 5184 {
        46
    } else if n == 1276 || n == 2798 {
        47
    } else if n == 4849 || n == 4859 {
        48
    } else if n == 1412 || n == 4790 {
        49
    } else if n == 5011 || n == 5029 {
        50
    } else if n == 1232 || n == 4770 {
        51
    } else if n == 4949 || n == 4967 {
        52
    } else {
        -1
    }
}

proof fn lemma_holders_0(k: int)
    requires
        0 <= k < 9,
    ensures
        holder(tally(entries()[k].name@)) == k,
        holder(tally(entries()[k].path@)) == k,
{
    let e = entries();
    if k == 0 {
        reveal_strlit("base64");
        reveal_strlit("/usr/bin/base64");
        assert(e[0].name@ == "base64"@);
        assert(e[0].path@ == "/usr/bin/base64"@);
        assert(tally("base64"@) == 3762);
        assert(tally("/usr/bin/base64"@) == 3780);
    } else if k == 1 {
        reveal_strlit("basename");
        reveal_strlit("/usr/bin/basename");
        assert(e[1].name@ == "basename"@);
        assert(e[1].path@ == "/usr/bin/basename"@);
        assert(tally("basename"@) == 4548);
        assert(tally("/usr/bin/basename"@) == 4566);
    } else if k == 2 {
        reveal_strlit("cat");
        reveal_strlit("/bin/cat");
        assert(e[2].name@ == "cat"@);
        assert(e[2].path@ == "/bin/cat"@);
        assert(tally("cat"@) == 1189);
        assert(tally("/bin/cat"@) == 4719);
    } else if k == 3 {
        reveal_strlit("comm");
        reveal_strlit("/usr/bin/comm");
        assert(e[3].name@ == "comm"@);
        assert(e[3].path@ == "/usr/bin/comm"@);
        assert(tally("comm"@) == 1316);
        assert(tally("/usr/bin/comm"@) == 2838);
    } else if k == 4 {
        reveal_strlit("cp");
        reveal_strlit("/bin/cp");
        assert(e[4].name@ == "cp"@);
        assert(e[4].path@ == "/bin/cp"@);
        assert(tally("cp"@) == 1205);
        assert(tally("/bin/cp"@) == 4575);
    } else if k == 5 {
        reveal_strlit("cut");
        reveal_strlit("/usr/bin/cut");
        assert(e[5].name@ == "cut"@);
        assert(e[5].path@ == "/usr/bin/cut"@);
        assert(tally("cut"@) == 1409);
        assert(tally("/usr/bin/cut"@) == 4947);
    } else if k == 6 {
        reveal_strlit("date");
        reveal_strlit("/bin/date");
        assert(e[6].name@ == "date"@);
        assert(e[6].path@ == "/bin/date"@);
        assert(tally("date"@) == 1385);
        assert(tally("/bin/date"@) == 2899);
    } else if k == 7 {
        reveal_strlit("du");
        reveal_strlit("/usr/bin/du");
        assert(e[7].name@ == "du"@);
        assert(e[7].path@ == "/usr/bin/du"@);
        assert(tally("du"@) == 1221);
        assert(tally("/usr/bin/du"@) == 4599);
    } else if k == 8 {
        reveal_strlit("echo");
        reveal_strlit("/bin/echo");
        assert(e[8].name@ == "echo"@);
        assert(e[8].path@ == "/bin/echo"@);
        assert(tally("echo"@) == 1263);
        assert(tally("/bin/echo"@) == 2777);
    }
}

proof fn lemma_holders_9(k: int)
    requires
        9 <= k < 18,
    ensures
        holder(tally(entries()[k].name@)) == k,
        holder(tally(entries()[k].path@)) == k,
{
    let e = entries();
    if k == 9 {
        reveal_strlit("env");
        reveal_strlit("/usr/bin/env");
        assert(e[9].name@ == "env"@);
        assert(e[9].path@ == "/usr/bin/env"@);
        assert(tally("env"@) == 1334);
        assert(tally("/usr/bin/env"@) == 4872);
    } else if k == 10 {
        reveal_strlit("exit");
        assert(e[10].name@ == "exit"@);
        assert(e[10].path@ == "exit"@);
        assert(tally("exit"@) == 1279);
    } else if k == 11 {
        reveal_strlit("expand");
        reveal_strlit("/usr/bin/expand");
        assert(e[11].name@ == "expand"@);
        assert(e[11].path@ == "/usr/bin/expand"@);
        assert(tally("expand"@) == 5162);
        assert(tally("/usr/bin/expand"@) == 5180);
    } else if k == 12 {
        reveal_strlit("false");
        reveal_strlit("/bin/false");
        assert(e[12].name@ == "false"@);
        assert(e[12].path@ == "/bin/false"@);
        assert(tally("false"@) == 4640);
        assert(tally("/bin/false"@) == 4650);
    } else if k == 13 {
        reveal_strlit("fold");
        reveal_strlit("/usr/bin/fold");
        assert(e[13].name@ == "fold"@);
        assert(e[13].path@ == "/usr/bin/fold"@);
        assert(tally("fold"@) == 1296);
        assert(tally("/usr/bin/fold"@) == 2818);
    } else if k == 14 {
        reveal_strlit("grep");
        reveal_strlit("/usr/bin/grep");
        assert(e[14].name@ == "grep"@);
        assert(e[14].path@ == "/usr/bin/grep"@);
        assert(tally("grep"@) == 1231);
        assert(tally("/usr/bin/grep"@) == 2753);
    } else if k == 15 {
        reveal_strlit("egrep");
        reveal_strlit("/usr/bin/egrep");
        assert(e[15].name@ == "egrep"@);
        assert(e[15].path@ == "/usr/bin/egrep"@);
        assert(tally("egrep"@) == 4465);
        assert(tally("/usr/bin/egrep"@) == 4483);
    } else if k == 16 {
        reveal_strlit("fgrep");
        reveal_strlit("/usr/bin/fgrep");
        assert(e[16].name@ == "fgrep"@);
        assert(e[16].path@ == "/usr/bin/fgrep"@);
        assert(tally("fgrep"@) == 4497);
        assert(tally("/usr/bin/fgrep"@) == 4515);
    } else if k == 17 {
        reveal_strlit("head");
        reveal_strlit("/usr/bin/head");
        assert(e[17].name@ == "head"@);
        assert(e[17].path@ == "/usr/bin/head"@);
        assert(tally("head"@) == 1175);
        assert(tally("/usr/bin/head"@) == 2697);
    }
}

proof fn lemma_holders_18(k: int)
    requires
        18 <= k < 27,
    ensures
        holder(tally(entries()[k].name@)) == k,
        holder(tally(entries()[k].path@)) == k,
{
    let e = entries();
    if k == 18 {
        reveal_strlit("ln");
        reveal_strlit("/bin/ln");
        assert(e[18].name@ == "ln"@);
        assert(e[18].path@ == "/bin/ln"@);
        assert(tally("ln"@) == 1302);
        assert(tally("/bin/ln"@) == 4672);
    } else if k == 19 {
        reveal_strlit("ls");
        reveal_strlit("/bin/ls");
        assert(e[19].name@ == "ls"@);
        assert(e[19].path@ == "/bin/ls"@);
        assert(tally("ls"@) == 1307);
        assert(tally("/bin/ls"@) == 4677);
    } else if k == 20 {
        reveal_strlit("mkdir");
        reveal_strlit("/bin/mkdir");
        assert(e[20].name@ == "mkdir"@);
        assert(e[20].path@ == "/bin/mkdir"@);
        assert(tally("mkdir"@) == 4767);
        assert(tally("/bin/mkdir"@) == 4777);
    } else if k == 21 {
        reveal_strlit("mktemp");
        reveal_strlit("/usr/bin/mktemp");
        assert(e[21].name@ == "mktemp"@);
        assert(e[21].path@ == "/usr/bin/mktemp"@);
        assert(tally("mktemp"@) == 4747);
        assert(tally("/usr/bin/mktemp"@) == 4765);
    } else if k == 22 {
        reveal_strlit("mv");
        reveal_strlit("/bin/mv");
        assert(e[22].name@ == "mv"@);
        assert(e[22].path@ == "/bin/mv"@);
        assert(tally("mv"@) == 1321);
        assert(tally("/bin/mv"@) == 4691);
    } else if k == 23 {
        reveal_strlit("nl");
        reveal_strlit("/usr/bin/nl");
        assert(e[23].name@ == "nl"@);
        assert(e[23].path@ == "/usr/bin/nl"@);
        assert(tally("nl"@) == 1322);
        assert(tally("/usr/bin/nl"@) == 4700);
    } else if k == 24 {
        reveal_strlit("paste");
        reveal_strlit("/usr/bin/paste");
        assert(e[24].name@ == "paste"@);
        assert(e[24].path@ == "/usr/bin/paste"@);
        assert(tally("paste"@) == 4971);
        assert(tally("/usr/bin/paste"@) == 4989);
    } else if k == 25 {
        reveal_strlit("printf");
        reveal_strlit("/usr/bin/printf");
        assert(e[25].name@ == "printf"@);
        assert(e[25].path@ == "/usr/bin/printf"@);
        assert(tally("printf"@) == 5038);
        assert(tally("/usr/bin/printf"@) == 5056);
    } else if k == 26 {
        reveal_strlit("pwd");
        reveal_strlit("/bin/pwd");
        assert(e[26].name@ == "pwd"@);
        assert(e[26].path@ == "/bin/pwd"@);
        assert(tally("pwd"@) == 1415);
        assert(tally("/bin/pwd"@) == 4945);
    }
}

proof fn lemma_holders_27(k: int)
    requires
        27 <= k < 36,
    ensures
        holder(tally(entries()[k].name@)) == k,
        holder(tally(entries()[k].path@)) == k,
{
    let e = entries();
    if k == 27 {
        reveal_strlit("readlink");
        reveal_strlit("/usr/bin/readlink");
        assert(e[27].name@ == "readlink"@);
        assert(e[27].path@ == "/usr/bin/readlink"@);
        assert(tally("readlink"@) == 4533);
        assert(tally("/usr/bin/readlink"@) == 4551);
    } else if k == 28 {
        reveal_strlit("realpath");
        reveal_strlit("/bin/realpath");
        assert(e[28].name@ == "realpath"@);
        assert(e[28].path@ == "/bin/realpath"@);
        assert(tally("realpath"@) == 4852);
        assert(tally("/bin/realpath"@) == 4862);
    } else if k == 29 {
        reveal_strlit("rm");
        reveal_strlit("/bin/rm");
        assert(e[29].name@ == "rm"@);
        assert(e[29].path@ == "/bin/rm"@);
        assert(tally("rm"@) == 1367);
        assert(tally("/bin/rm"@) == 4737);
    } else if k == 30 {
        reveal_strlit("rmdir");
        reveal_strlit("/bin/rmdir");
        assert(e[30].name@ == "rmdir"@);
        assert(e[30].path@ == "/bin/rmdir"@);
        assert(tally("rmdir"@) == 4927);
        assert(tally("/bin/rmdir"@) == 4937);
    } else if k == 31 {
        reveal_strlit("seq");
        reveal_strlit("/usr/bin/seq");
        assert(e[31].name@ == "seq"@);
        assert(e[31].path@ == "/usr/bin/seq"@);
        assert(tally("seq"@) == 1230);
        assert(tally("/usr/bin/seq"@) == 4768);
    } else if k == 32 {
        reveal_strlit("sh");
        reveal_strlit("/bin/sh");
        assert(e[32].name@ == "sh"@);
        assert(e[32].path@ == "/bin/sh"@);
        assert(tally("sh"@) == 1373);
        assert(tally("/bin/sh"@) == 4743);
    } else if k == 33 {
        reveal_strlit("shuf");
        reveal_strlit("/usr/bin/shuf");
        assert(e[33].name@ == "shuf"@);
        assert(e[33].path@ == "/usr/bin/shuf"@);
        assert(tally("shuf"@) == 1397);
        assert(tally("/usr/bin/shuf"@) == 2919);
    } else if k == 34 {
        reveal_strlit("sort");
        reveal_strlit("/usr/bin/sort");
        assert(e[34].name@ == "sort"@);
        assert(e[34].path@ == "/usr/bin/sort"@);
        assert(tally("sort"@) == 1378);
        assert(tally("/usr/bin/sort"@) == 2900);
    } else if k == 35 {
        reveal_strlit("split");
        reveal_strlit("/usr/bin/split");
        assert(e[35].name@ == "split"@);
        assert(e[35].path@ == "/usr/bin/split"@);
        assert(tally("split"@) == 4961);
        assert(tally("/usr/bin/split"@) == 4979);
    }
}

proof fn lemma_holders_36(k: int)
    requires
        36 <= k < 45,
    ensures
        holder(tally(entries()[k].name@)) == k,
        holder(tally(entries()[k].path@)) == k,
{
    let e = entries();
    if k == 36 {
        reveal_strlit("stat");
        reveal_strlit("/usr/bin/stat");
        assert(e[36].name@ == "stat"@);
        assert(e[36].path@ == "/usr/bin/stat"@);
        assert(tally("stat"@) == 1191);
        assert(tally("/usr/bin/stat"@) == 2713);
    } else if k == 37 {
        reveal_strlit("tail");
        reveal_strlit("/usr/bin/tail");
        assert(e[37].name@ == "tail"@);
        assert(e[37].path@ == "/usr/bin/tail"@);
        assert(tally("tail"@) == 1271);
        assert(tally("/usr/bin/tail"@) == 2793);
    } else if k == 38 {
        reveal_strlit("tee");
        reveal_strlit("/usr/bin/tee");
        assert(e[38].name@ == "tee"@);
        assert(e[38].path@ == "/usr/bin/tee"@);
        assert(tally("tee"@) == 1218);
        assert(tally("/usr/bin/tee"@) == 4756);
    } else if k == 39 {
        reveal_strlit("test");
        reveal_strlit("/usr/bin/test");
        assert(e[39].name@ == "test"@);
        assert(e[39].path@ == "/usr/bin/test"@);
        assert(tally("test"@) == 1389);
        assert(tally("/usr/bin/test"@) == 2911);
    } else if k == 40 {
        reveal_strlit("[");
        reveal_strlit("/usr/bin/[");
        assert(e[40].name@ == "["@);
        assert(e[40].path@ == "/usr/bin/["@);
        assert(tally("["@) == 93);
        assert(tally("/usr/bin/["@) == 3764);
    } else if k == 41 {
        reveal_strlit("touch");
        reveal_strlit("/usr/bin/touch");
        assert(e[41].name@ == "touch"@);
        assert(e[41].path@ == "/usr/bin/touch"@);
        assert(tally("touch"@) == 4915);
        assert(tally("/usr/bin/touch"@) == 4933);
    } else if k == 42 {
        reveal_strlit("tr");
        reveal_strlit("/usr/bin/tr");
        assert(e[42].name@ == "tr"@);
        assert(e[42].path@ == "/usr/bin/tr"@);
        assert(tally("tr"@) == 1394);
        assert(tally("/usr/bin/tr"@) == 4772);
    } else if k == 43 {
        reveal_strlit("true");
        reveal_strlit("/bin/true");
        assert(e[43].name@ == "true"@);
        assert(e[43].path@ == "/bin/true"@);
        assert(tally("true"@) == 1396);
        assert(tally("/bin/true"@) == 2910);
    } else if k == 44 {
        reveal_strlit("truncate");
        reveal_strlit("/usr/bin/truncate");
        assert(e[44].name@ == "truncate"@);
        assert(e[44].path@ == "/usr/bin/truncate"@);
        assert(tally("truncate"@) == 4913);
        assert(tally("/usr/bin/truncate"@) == 4931);
    }
}

proof fn lemma_holders_45(k: int)
    requires
        45 <= k < 53,
    ensures
        holder(tally(entries()[k].name@)) == k,
        holder(tally(entries()[k].path@)) == k,
{
    let e = entries();
    if k == 45 {
        reveal_strlit("uname");
        reveal_strlit("/usr/bin/uname");
        assert(e[45].name@ == "uname"@);
        assert(e[45].path@ == "/usr/bin/uname"@);
        assert(tally("uname"@) == 5054);
        assert(tally("/usr/bin/uname"@) == 5072);
    } else if k == 46 {
        reveal_strlit("unexpand");
        reveal_strlit("/usr/bin/unexpand");
        assert(e[46].name@ == "unexpand"@);
        assert(e[46].path@ == "/usr/bin/unexpand"@);
        assert(tally("unexpand"@) == 5166);
        assert(tally("/usr/bin/unexpand"@) == 5184);
    } else if k == 47 {
        reveal_strlit("uniq");
        reveal_strlit("/usr/bin/uniq");
        assert(e[47].name@ == "uniq"@);
        assert(e[47].path@ == "/usr/bin/uniq"@);
        assert(tally("uniq"@) == 1276);
        assert(tally("/usr/bin/uniq"@) == 2798);
    } else if k == 48 {
        reveal_strlit("unlink");
        reveal_strlit("/bin/unlink");
        assert(e[48].name@ == "unlink"@);
        assert(e[48].path@ == "/bin/unlink"@);
        assert(tally("unlink"@) == 4849);
        assert(tally("/bin/unlink"@) == 4859);
    } else if k == 49 {
        reveal_strlit("wc");
        reveal_strlit("/usr/bin/wc");
        assert(e[49].name@ == "wc"@);
        assert(e[49].path@ == "/usr/bin/wc"@);
        assert(tally("wc"@) == 1412);
        assert(tally("/usr/bin/wc"@) == 4790);
    } else if k == 50 {
        reveal_strlit("which");
        reveal_strlit("/usr/bin/which");
        assert(e[50].name@ == "which"@);
        assert(e[50].path@ == "/usr/bin/which"@);
        assert(tally("which"@) == 5011);
        assert(tally("/usr/bin/which"@) == 5029);
    } else if k == 51 {
        reveal_strlit("yes");
        reveal_strlit("/usr/bin/yes");
        assert(e[51].name@ == "yes"@);
        assert(e[51].path@ == "/usr/bin/yes"@);
        assert(tally("yes"@) == 1232);
        assert(tally("/usr/bin/yes"@) == 4770);
    } else if k == 52 {
        reveal_strlit("markdownsp");
        reveal_strlit("/usr/bin/markdownsp");
        assert(e[52].name@ == "markdownsp"@);
        assert(e[52].path@ == "/usr/bin/markdownsp"@);
        assert(tally("markdownsp"@) == 4949);
        assert(tally("/usr/bin/markdownsp"@) == 4967);
    }
}

proof fn lemma_holders(k: int)
    requires
        0 <= k < entries().len(),
    ensures
        holder(tally(entries()[k].name@)) == k,
        holder(tally(entries()[k].path@)) == k,
{
    assert(entries().len() == 53);
    if k < 9 {
        lemma_holders_0(k);
    } else if k < 18 {
        lemma_holders_9(k);
    } else if k < 27 {
        lemma_holders_18(k);
    } else if k < 36 {
        lemma_holders_27(k);
    } else if k < 45 {
        lemma_holders_36(k);
    } else {
        lemma_holders_45(k);
    }
}

proof fn lemma_found(name: Seq<char>, k: int, i: int)
    requires
        0 <= i <= k < entries().len(),
        name == entries()[k].name@ || name == entries()[k].path@,
    ensures
        found(entries(), name, i) == Some(entries()[k].builtin),
    decreases k - i,
{
    lemma_holders(i);
    lemma_holders(k);
    if i < k {
        lemma_found(name, k, i + 1);
    }
}

/// Every command that is listed is found by its name and by its path: both give the command of its
/// entry.
pub proof fn lemma_listed_is_found(k: int)
    requires
        0 <= k < entries().len(),
    ensures
        lookup(entries()[k].name@) == Some(entries()[k].builtin),
        lookup(entries()[k].path@) == Some(entries()[k].builtin),
{
    lemma_found(entries()[k].name@, k, 0);
    lemma_found(entries()[k].path@, k, 0);
}

proof fn lemma_found_listed(list: Seq<Entry>, name: Seq<char>, i: int)
    requires
        0 <= i,
        found(list, name, i) is Some,
    ensures
        exists|k: int|
            i <= k < list.len() && (name == (#[trigger] list[k]).name@ || name == list[k].path@)
                && found(list, name, i) == Some(list[k].builtin),
    decreases list.len() - i,
{
    if i < list.len() {
        if name == list[i].name@ || name == list[i].path@ {
            assert(found(list, name, i) == Some(list[i].builtin));
        } else {
            lemma_found_listed(list, name, i + 1);
        }
    }
}

/// What is found is listed: by no name but those that are listed is a command found.
pub proof fn lemma_found_is_listed(name: Seq<char>)
    requires
        lookup(name) is Some,
    ensures
        exists|k: int|
            0 <= k < entries().len() && (name == (#[trigger] entries()[k]).name@ || name
                == entries()[k].path@) && lookup(name) == Some(entries()[k].builtin),
{
    lemma_found_listed(entries(), name, 0);
}

/// `exit` tells the shell to end exactly where its code is the one that was asked for, and never
/// writes to the output stream.
pub proof fn lemma_exit<FS>(v: env::EnvView<FS>)
    requires
        !v.exit_signaled,
        !v.merged,
    ensures
        exited(v).0.exit_signaled <==> v.args.len() <= 1 || text::signed(v.args[1], 127) is Some,
        exited(v).0.out == v.out,
        exited(v).0.fs == v.fs,
{
}

} // verus!
