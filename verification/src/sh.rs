//! The sh builtin: execute shell commands.

use crate::builtins::Builtin;
use crate::builtins;
use crate::echo;
use crate::env::{Environment, Error, ExitCode, StringStdioIn, StringStdioOut};
use crate::env;
use crate::fs::{Filesystem, FsError};
use crate::fs;
use crate::host::{Host, Services};
use crate::host;
use crate::markdownsp::Evaluator;
use crate::number;
use crate::options;
use crate::paths;
use crate::quoting;
use crate::syntax::{
    ChainOp, ChainedPipeline, OutputRedirect, Pipeline, RedirectMode, StderrRedirect,
};
use crate::syntax;
use crate::text;
use crate::vars::Vars;
use crate::vars;
use vstd::prelude::*;

verus! {

broadcast use vstd::string::group_string_axioms;

// ---------------------------------------------------------------------------------------------
// Variables
// ---------------------------------------------------------------------------------------------

/// With other variables of the shell.
pub open spec fn with_vars<FS>(
    v: env::EnvView<FS>,
    vars: Map<Seq<char>, Seq<char>>,
) -> env::EnvView<FS> {
    env::EnvView { vars, ..v }
}

/// With another environment for commands.
pub open spec fn with_env<FS>(
    v: env::EnvView<FS>,
    env: Map<Seq<char>, Seq<char>>,
) -> env::EnvView<FS> {
    env::EnvView { env, ..v }
}

/// What setting the variables from the argument at `i` on comes to: the first argument without a
/// `=` ends it.
pub open spec fn set_from<FS>(v: env::EnvView<FS>, args: Seq<Seq<char>>, i: int) -> (
    env::EnvView<FS>,
    int,
)
    decreases args.len() - i,
{
    if i < 0 || i >= args.len() {
        (v, 0)
    } else {
        match syntax::halves(args[i]) {
            Some((name, value)) => set_from(
                with_vars(v, v.vars.insert(name, value)),
                args,
                i + 1,
            ),
            None => (v.error_line("set: "@ + args[i] + ": not in NAME=VALUE format"@), 1),
        }
    }
}

/// Handles the `set` builtin: set shell variables.
///
/// Usage: set NAME=VALUE ...
pub fn handle_set<FS: Filesystem>(args: &Vec<String>, env: &mut Environment<FS>) -> (r: ExitCode)
    ensures
        (final(env)@, r.spec_code()) == set_from(old(env)@, args.deep_view(), 1),
{
    let ghost shown = args.deep_view();
    let mut i: usize = 1;
    while i < args.len()
        invariant
            1 <= i,
            shown == args.deep_view(),
            set_from(env@, shown, i as int) == set_from(old(env)@, shown, 1),
        decreases args.len() - i,
    {
        match syntax::split_at_equals(args[i].as_str()) {
            Some((name, value)) => {
                env.vars.insert(name.as_str(), value.as_str());
            },
            None => {
                let mut m = "set: ".to_owned();
                m.append(args[i].as_str());
                m.append(": not in NAME=VALUE format");
                env.error_line(m.as_str());
                return ExitCode::new(1);
            },
        }
        i += 1;
    }
    ExitCode::new(0)
}

/// What removing the variables from the argument at `i` on comes to.
pub open spec fn unset_from<FS>(v: env::EnvView<FS>, args: Seq<Seq<char>>, i: int) -> env::EnvView<
    FS,
>
    decreases args.len() - i,
{
    if i < 0 || i >= args.len() {
        v
    } else {
        unset_from(
            with_env(with_vars(v, v.vars.remove(args[i])), v.env.remove(args[i])),
            args,
            i + 1,
        )
    }
}

/// Handles the `unset` builtin: remove shell and environment variables.
///
/// Usage: unset NAME ...
pub fn handle_unset<FS: Filesystem>(args: &Vec<String>, env: &mut Environment<FS>) -> (r: ExitCode)
    ensures
        final(env)@ == unset_from(old(env)@, args.deep_view(), 1),
        r.spec_code() == 0,
{
    let ghost shown = args.deep_view();
    let mut i: usize = 1;
    while i < args.len()
        invariant
            1 <= i,
            shown == args.deep_view(),
            unset_from(env@, shown, i as int) == unset_from(old(env)@, shown, 1),
        decreases args.len() - i,
    {
        env.vars.remove(args[i].as_str());
        env.env.remove(args[i].as_str());
        i += 1;
    }
    ExitCode::new(0)
}

/// What one argument of `export` does: `NAME=VALUE` goes to the environment, and a bare `NAME` takes
/// a variable of the shell there with its value.
pub open spec fn exported<FS>(v: env::EnvView<FS>, arg: Seq<char>) -> env::EnvView<FS> {
    match syntax::halves(arg) {
        Some((name, value)) => with_env(
            with_vars(v, v.vars.remove(name)),
            v.env.insert(name, value),
        ),
        None => if v.vars.dom().contains(arg) {
            with_env(with_vars(v, v.vars.remove(arg)), v.env.insert(arg, v.vars[arg]))
        } else {
            v
        },
    }
}

/// What the arguments of `export` from `i` on do.
pub open spec fn export_from<FS>(v: env::EnvView<FS>, args: Seq<Seq<char>>, i: int) -> env::EnvView<
    FS,
>
    decreases args.len() - i,
{
    if i < 0 || i >= args.len() {
        v
    } else {
        export_from(exported(v, args[i]), args, i + 1)
    }
}

/// Handles the `export` builtin: export shell variables to the environment.
///
/// Usage: export NAME ...
///        export NAME=VALUE ...
///
/// If NAME=VALUE is given, sets the variable and exports it. If just NAME is given, moves the
/// variable from vars to env (if it exists in vars).
pub fn handle_export<FS: Filesystem>(args: &Vec<String>, env: &mut Environment<FS>) -> (r: ExitCode)
    ensures
        final(env)@ == export_from(old(env)@, args.deep_view(), 1),
        r.spec_code() == 0,
{
    let ghost shown = args.deep_view();
    let mut i: usize = 1;
    while i < args.len()
        invariant
            1 <= i,
            shown == args.deep_view(),
            export_from(env@, shown, i as int) == export_from(old(env)@, shown, 1),
        decreases args.len() - i,
    {
        let ghost before = env@;
        match syntax::split_at_equals(args[i].as_str()) {
            Some((name, value)) => {
                env.vars.remove(name.as_str());
                env.env.insert(name.as_str(), value.as_str());
            },
            None => {
                if let Some(value) = env.vars.remove(args[i].as_str()) {
                    env.env.insert(args[i].as_str(), value.as_str());
                } else {
                    assert(env@.vars =~= before.vars);
                }
            },
        }
        i += 1;
    }
    ExitCode::new(0)
}

/// The value of a variable, where it is set.
pub open spec fn value_of(m: Map<Seq<char>, Seq<char>>, name: Seq<char>) -> Option<Seq<char>> {
    if m.dom().contains(name) {
        Some(m[name])
    } else {
        None
    }
}

/// Where `cd` is told to go: to its argument, or else to `HOME`.
pub open spec fn cd_target<FS>(v: env::EnvView<FS>, args: Seq<Seq<char>>) -> Option<Seq<char>> {
    if args.len() > 1 {
        Some(args[1])
    } else {
        match value_of(v.env, "HOME"@) {
            Some(home) => Some(home),
            None => value_of(v.vars, "HOME"@),
        }
    }
}

/// What `cd` does.
pub open spec fn moved<FS: Filesystem>(v: env::EnvView<FS>, args: Seq<Seq<char>>) -> (
    env::EnvView<FS>,
    int,
) {
    match cd_target(v, args) {
        None => (v.error_line("cd: HOME not set"@), 1),
        Some(target) => {
            let path = paths::resolved(v.cwd, target);
            let w = v.asked(fs::Request::Exists(path));
            let x = w.asked(fs::Request::IsDir(path));
            if !v.fs.has(path) {
                (w.error_line("cd: "@ + target + ": No such file or directory"@), 1)
            } else if w.fs.has_dir(path) {
                (env::EnvView { cwd: path, ..x }, 0)
            } else {
                (x.error_line("cd: "@ + target + ": Not a directory"@), 1)
            }
        },
    }
}

/// Handles the `cd` builtin: change the current working directory.
///
/// Usage: cd [directory]
///
/// If directory is omitted, changes to the home directory (from $HOME). If $HOME is not set and no
/// directory is given, returns an error.
pub fn handle_cd<FS: Filesystem>(args: &Vec<String>, env: &mut Environment<FS>) -> (r: ExitCode)
    ensures
        (final(env)@, r.spec_code()) == moved(old(env)@, args.deep_view()),
{
    let target = if args.len() > 1 {
        args[1].clone()
    } else {
        let home = match env.env.get("HOME") {
            Some(home) => Some(home),
            None => env.vars.get("HOME"),
        };
        match home {
            Some(home) => home,
            None => {
                env.error_line("cd: HOME not set");
                return ExitCode::new(1);
            },
        }
    };
    let path = paths::resolve_path(env.cwd.as_str(), target.as_str());
    let mut m = "cd: ".to_owned();
    m.append(target.as_str());
    if !env.fs.path_exists(path.as_str()) {
        m.append(": No such file or directory");
        env.error_line(m.as_str());
        return ExitCode::new(1);
    }
    if env.fs.is_dir(path.as_str()) {
        env.cwd = path;
        ExitCode::new(0)
    } else {
        m.append(": Not a directory");
        env.error_line(m.as_str());
        ExitCode::new(1)
    }
}

// ---------------------------------------------------------------------------------------------
// Assignments before a command
// ---------------------------------------------------------------------------------------------

/// Where a name stands in a list of pairs, from `i` on.
pub open spec fn name_at(list: Seq<(Seq<char>, Seq<char>)>, name: Seq<char>, i: int) -> int
    decreases list.len() - i,
{
    if i < 0 || i >= list.len() {
        list.len() as int
    } else if list[i].0 == name {
        i
    } else {
        name_at(list, name, i + 1)
    }
}

/// A list of pairs with one name given a value: a name that is in the list keeps its place.
pub open spec fn put(
    list: Seq<(Seq<char>, Seq<char>)>,
    name: Seq<char>,
    value: Seq<char>,
) -> Seq<(Seq<char>, Seq<char>)> {
    let k = name_at(list, name, 0);
    if k < list.len() {
        list.update(k, (name, value))
    } else {
        list.push((name, value))
    }
}

fn put_pair(list: &mut Vec<(String, String)>, name: String, value: String)
    ensures
        final(list).deep_view() == put(old(list).deep_view(), name@, value@),
{
    let ghost shown = list.deep_view();
    let mut k: usize = 0;
    while k < list.len() && !text::same(list[k].0.as_str(), name.as_str())
        invariant
            k <= list@.len(),
            shown == list.deep_view(),
            shown == old(list).deep_view(),
            name_at(shown, name@, k as int) == name_at(shown, name@, 0),
        decreases list.len() - k,
    {
        k += 1;
    }
    if k < list.len() {
        list.set(k, (name, value));
        assert(list.deep_view() =~= shown.update(k as int, (name@, value@)));
    } else {
        list.push((name, value));
        assert(list.deep_view() =~= shown.push((name@, value@)));
    }
}

/// What is left of a command line once the assignments before the command were taken off, and those
/// assignments, behind those that were taken off before; or the words for what is wrong with it.
pub open spec fn unprefixed(s: Seq<char>, list: Seq<(Seq<char>, Seq<char>)>) -> Result<
    (Seq<char>, Seq<(Seq<char>, Seq<char>)>),
    Seq<char>,
>
    decreases s.len(),
{
    if s.len() == 0 {
        Ok((s, list))
    } else {
        match quoting::first_word(s) {
            Err(m) => Err(m),
            Ok(None) => Ok((s, list)),
            Ok(Some((word, rest))) => match syntax::assignment(word) {
                Some((name, value)) => if rest.len() < s.len() {
                    unprefixed(rest, put(list, name, value))
                } else {
                    Ok((rest, put(list, name, value)))
                },
                None => Ok((s, list)),
            },
        }
    }
}

pub open spec fn unprefixed_result(r: Result<(String, Vec<(String, String)>), String>) -> Result<
    (Seq<char>, Seq<(Seq<char>, Seq<char>)>),
    Seq<char>,
> {
    match r {
        Ok((s, list)) => Ok((s@, list.deep_view())),
        Err(m) => Err(m@),
    }
}

fn take_prefix(command: &str) -> (r: Result<(String, Vec<(String, String)>), String>)
    ensures
        unprefixed_result(r) == unprefixed(command@, Seq::empty()),
{
    let mut list: Vec<(String, String)> = Vec::new();
    let mut s = command.to_owned();
    assert(list.deep_view() =~= Seq::<(Seq<char>, Seq<char>)>::empty());
    while !s.as_str().is_empty()
        invariant
            unprefixed(s@, list.deep_view()) == unprefixed(command@, Seq::empty()),
        decreases s@.len(),
    {
        match quoting::take_word(s.as_str()) {
            Err(m) => {
                return Err(m);
            },
            Ok(None) => {
                return Ok((s, list));
            },
            Ok(Some((word, rest))) => match syntax::parse_assignment(word.as_str()) {
                Some((name, value)) => {
                    put_pair(&mut list, name, value);
                    s = rest;
                },
                None => {
                    return Ok((s, list));
                },
            },
        }
    }
    Ok((s, list))
}

fn insert_all(m: &mut Vars, pairs: &Vec<(String, String)>)
    ensures
        final(m)@ == old(m)@.union_prefer_right(vars::pairs_map(pairs.deep_view())),
{
    let ghost shown = pairs.deep_view();
    let mut i: usize = 0;
    assert(m@ =~= m@.union_prefer_right(vars::pairs_map(shown.take(0))));
    while i < pairs.len()
        invariant
            i <= pairs@.len(),
            shown == pairs.deep_view(),
            m@ == old(m)@.union_prefer_right(vars::pairs_map(shown.take(i as int))),
        decreases pairs.len() - i,
    {
        m.insert(pairs[i].0.as_str(), pairs[i].1.as_str());
        assert(shown.take(i + 1).drop_last() =~= shown.take(i as int));
        assert(m@ =~= old(m)@.union_prefer_right(vars::pairs_map(shown.take(i + 1))));
        i += 1;
    }
    assert(shown.take(i as int) =~= shown);
}

/// The values that variables in a command line stand for: those of assignments before the command
/// come first, then those of the shell, then those of the environment.
pub open spec fn visible<FS>(
    v: env::EnvView<FS>,
    list: Seq<(Seq<char>, Seq<char>)>,
) -> Map<Seq<char>, Seq<char>> {
    v.env.union_prefer_right(v.vars).union_prefer_right(vars::pairs_map(list))
}

fn visible_vars<FS>(env: &Environment<FS>, list: &Vec<(String, String)>) -> (r: Vars)
    ensures
        r@ == visible(env@, list.deep_view()),
{
    let mut m = env.env.copy();
    insert_all(&mut m, env.vars.pairs());
    insert_all(&mut m, list);
    m
}

/// What a line of assignments alone does, from the one at `i` on: each value is expanded, and the
/// variable set, before the next.
pub open spec fn assigned<FS>(
    v: env::EnvView<FS>,
    list: Seq<(Seq<char>, Seq<char>)>,
    i: int,
) -> (env::EnvView<FS>, Result<int, env::ErrorView>)
    decreases list.len() - i,
{
    if i < 0 || i >= list.len() {
        (v, Ok(0))
    } else {
        match quoting::expanded(visible(v, Seq::empty()), list[i].1, true, true, false) {
            Err(m) => (v, Err(env::ErrorView::Expansion(m))),
            Ok(s) => assigned(with_vars(v, v.vars.insert(list[i].0, s)), list, i + 1),
        }
    }
}

fn assign<FS>(env: &mut Environment<FS>, list: &Vec<(String, String)>) -> (r: Result<
    ExitCode,
    Error,
>)
    ensures
        (final(env)@, env::outcome(r)) == assigned(old(env)@, list.deep_view(), 0),
{
    let ghost shown = list.deep_view();
    let none: Vec<(String, String)> = Vec::new();
    assert(none.deep_view() =~= Seq::<(Seq<char>, Seq<char>)>::empty());
    let mut i: usize = 0;
    while i < list.len()
        invariant
            i <= list@.len(),
            shown == list.deep_view(),
            none.deep_view() == Seq::<(Seq<char>, Seq<char>)>::empty(),
            assigned(env@, shown, i as int) == assigned(old(env)@, shown, 0),
        decreases list.len() - i,
    {
        let values = visible_vars(env, &none);
        match quoting::expand(&values, list[i].1.as_str(), true, true, false) {
            Err(m) => {
                return Err(Error::Expansion(m));
            },
            Ok(s) => {
                env.vars.insert(list[i].0.as_str(), s.as_str());
            },
        }
        i += 1;
    }
    Ok(ExitCode::new(0))
}

// ---------------------------------------------------------------------------------------------
// One command and its streams
// ---------------------------------------------------------------------------------------------

/// Where the errors of a command go.
#[derive(Debug, Clone, Copy, PartialEq, Eq, Structural)]
pub enum ErrorStream {
    /// Where those of the shell go.
    Inherited,
    /// Into a text of their own.
    Captured,
    /// Where the output of the command goes.
    Merged,
}

/// What a command runs in: its own arguments and variables, with its input given where `stdin` is,
/// and its output captured where `out` is set.
pub open spec fn child<FS>(
    v: env::EnvView<FS>,
    args: Seq<Seq<char>>,
    vars: Map<Seq<char>, Seq<char>>,
    stdin: Option<Seq<Seq<char>>>,
    out: bool,
    err: ErrorStream,
) -> env::EnvView<FS> {
    env::EnvView {
        stdin: match stdin {
            Some(lines) => lines,
            None => v.stdin,
        },
        out: if out {
            Seq::empty()
        } else {
            v.out
        },
        err: match err {
            ErrorStream::Inherited => if out && v.merged {
                v.out
            } else {
                v.err
            },
            _ => Seq::empty(),
        },
        merged: match err {
            ErrorStream::Inherited => !out && v.merged,
            ErrorStream::Captured => false,
            ErrorStream::Merged => true,
        },
        args,
        vars,
        ..v
    }
}

/// The shell after a command that left its own surroundings as `d`: files, the seed and the wish to
/// end stay as the command left them; arguments, variables, environment and working directory are
/// those of the shell again.
pub open spec fn after_child<FS>(
    v: env::EnvView<FS>,
    d: env::EnvView<FS>,
    fed: bool,
    out: bool,
    err: ErrorStream,
) -> env::EnvView<FS> {
    env::EnvView {
        stdin: if fed {
            v.stdin
        } else {
            d.stdin
        },
        out: if !out {
            d.out
        } else if err == ErrorStream::Inherited && v.merged {
            d.err
        } else {
            v.out
        },
        err: if err == ErrorStream::Inherited && !(out && v.merged) {
            d.err
        } else {
            v.err
        },
        merged: v.merged,
        args: v.args,
        vars: v.vars,
        env: v.env,
        cwd: v.cwd,
        ..d
    }
}

/// What a command came to: the shell after it, its outcome, and what was captured of its output and
/// its errors.
pub ghost struct Ended<FS> {
    pub v: env::EnvView<FS>,
    pub outcome: Result<int, env::ErrorView>,
    pub out: Seq<char>,
    pub err: Seq<char>,
}

/// What running a command comes to. Shells inside each other are counted by `level`, and one more
/// than can be counted is not run.
pub open spec fn run_child<FS: Filesystem>(
    v: env::EnvView<FS>,
    b: Builtin,
    args: Seq<Seq<char>>,
    vars: Map<Seq<char>, Seq<char>>,
    stdin: Option<Seq<Seq<char>>>,
    out: bool,
    err: ErrorStream,
    host: Services<FS>,
    level: nat,
) -> Ended<FS>
    decreases usize::MAX - level, 0int, 0int,
{
    let c = child(v, args, vars, stdin, out, err);
    let (d, outcome) = if b == Builtin::Sh {
        if level < usize::MAX {
            shell_ran(c, host, level + 1)
        } else {
            (c, Err(env::ErrorView::UnknownBinary(args[0])))
        }
    } else {
        builtins::ran(b, c, host)
    };
    Ended {
        v: after_child(v, d, stdin is Some, out, err),
        outcome,
        out: if out {
            d.out
        } else {
            Seq::empty()
        },
        err: if err == ErrorStream::Inherited {
            Seq::empty()
        } else {
            d.err
        },
    }
}

/// What storing a text in the file that a redirection names comes to.
pub open spec fn stored<FS: Filesystem>(
    v: env::EnvView<FS>,
    redirect: syntax::RedirectView,
    s: Seq<char>,
) -> (env::EnvView<FS>, Result<(), fs::IoView>) {
    let path = paths::resolved(v.cwd, redirect.target);
    match redirect.mode {
        RedirectMode::Truncate => (
            v.asked(fs::Request::Write(path, s)),
            v.fs.writes(path, s),
        ),
        RedirectMode::Append => {
            let w = v.asked(fs::Request::Read(path));
            let all = match v.fs.reads(path) {
                Ok(before) => before + s,
                Err(_) => s,
            };
            (w.asked(fs::Request::Write(path, all)), w.fs.writes(path, all))
        },
    }
}

/// What storing a text comes to, where it is redirected.
pub open spec fn stored_if<FS: Filesystem>(
    v: env::EnvView<FS>,
    redirect: Option<syntax::RedirectView>,
    s: Seq<char>,
) -> (env::EnvView<FS>, Result<(), fs::IoView>) {
    match redirect {
        Some(r) => stored(v, r, s),
        None => (v, Ok(())),
    }
}

/// The outcome of a command whose streams were then stored: the first failure counts.
pub open spec fn combined(
    outcome: Result<int, env::ErrorView>,
    a: Result<(), fs::IoView>,
    b: Result<(), fs::IoView>,
) -> Result<int, env::ErrorView> {
    match outcome {
        Err(e) => Err(e),
        Ok(code) => match a {
            Err(e) => Err(env::ErrorView::Io(e)),
            Ok(_) => match b {
                Err(e) => Err(env::ErrorView::Io(e)),
                Ok(_) => Ok(code),
            },
        },
    }
}

/// The file that errors are redirected to.
pub open spec fn err_file(redirect: Option<syntax::StderrView>) -> Option<syntax::RedirectView> {
    match redirect {
        Some(syntax::StderrView::File(r)) => Some(r),
        _ => None,
    }
}

/// Where errors go that are redirected so.
pub open spec fn err_stream(redirect: Option<syntax::StderrView>) -> ErrorStream {
    match redirect {
        None => ErrorStream::Inherited,
        Some(syntax::StderrView::File(_)) => ErrorStream::Captured,
        Some(syntax::StderrView::ToStdout) => ErrorStream::Merged,
    }
}

/// The shell once the captured streams of a command were put where they belong.
pub open spec fn delivered<FS: Filesystem>(
    e: Ended<FS>,
    redirect_stdout: Option<syntax::RedirectView>,
    redirect_stderr: Option<syntax::StderrView>,
) -> (env::EnvView<FS>, Result<int, env::ErrorView>) {
    if redirect_stdout is None && redirect_stderr == Some(syntax::StderrView::ToStdout) {
        (
            if e.outcome is Ok {
                e.v.write(text::unlines(text::lines(e.out)))
            } else {
                e.v
            },
            e.outcome,
        )
    } else {
        let (w, a) = stored_if(e.v, redirect_stdout, e.out);
        let (x, b) = stored_if(w, err_file(redirect_stderr), e.err);
        (x, combined(e.outcome, a, b))
    }
}

/// What running a single command with redirections comes to.
pub open spec fn command_ran<FS: Filesystem>(
    v: env::EnvView<FS>,
    args: Seq<Seq<char>>,
    pairs: Seq<(Seq<char>, Seq<char>)>,
    redirect_stdout: Option<syntax::RedirectView>,
    redirect_stderr: Option<syntax::StderrView>,
    host: Services<FS>,
    level: nat,
) -> (env::EnvView<FS>, Result<int, env::ErrorView>)
    decreases usize::MAX - level, 1int, 0int,
{
    match builtins::lookup(args[0]) {
        None => (v, Err(env::ErrorView::UnknownBinary(args[0]))),
        Some(b) => delivered(
            run_child(
                v,
                b,
                args,
                v.vars.union_prefer_right(vars::pairs_map(pairs)),
                None,
                redirect_stdout is Some || redirect_stderr == Some(syntax::StderrView::ToStdout),
                err_stream(redirect_stderr),
                host,
                level,
            ),
            redirect_stdout,
            redirect_stderr,
        ),
    }
}

// ---------------------------------------------------------------------------------------------
// Pipelines, chains, lines and scripts
// ---------------------------------------------------------------------------------------------

/// What a pipeline of one command does. `cd`, `set`, `unset` and `export` change the shell itself.
pub open spec fn single_ran<FS: Filesystem>(
    v: env::EnvView<FS>,
    p: syntax::PipelineView,
    host: Services<FS>,
    level: nat,
) -> (env::EnvView<FS>, Result<int, env::ErrorView>)
    decreases usize::MAX - level, 2int, 0int,
{
    let args = p.commands[0];
    let n = syntax::leading(args, 0);
    let pairs = syntax::assignments(args, n);
    let w = with_vars(v, v.vars.union_prefer_right(vars::pairs_map(pairs)));
    let cmd = args.skip(n);
    if args.len() == 0 {
        (v, Ok(0))
    } else if n == args.len() {
        (w, Ok(0))
    } else if cmd[0] == "cd"@ {
        let (x, code) = moved(w, cmd);
        (x, Ok(code))
    } else if cmd[0] == "set"@ {
        let (x, code) = set_from(w, cmd, 1);
        (x, Ok(code))
    } else if cmd[0] == "unset"@ {
        (unset_from(w, cmd, 1), Ok(0))
    } else if cmd[0] == "export"@ {
        (export_from(w, cmd, 1), Ok(0))
    } else {
        command_ran(v, cmd, pairs, p.redirect_stdout, p.redirect_stderr, host, level)
    }
}

/// What the commands of a pipeline from `i` on do: each reads what the one before it wrote, and the
/// output and the errors of the last may be redirected. `fed` is what the command before wrote, and
/// `last` the exit code so far.
pub open spec fn piped_ran<FS: Filesystem>(
    v: env::EnvView<FS>,
    p: syntax::PipelineView,
    i: int,
    fed: Option<Seq<Seq<char>>>,
    last: int,
    host: Services<FS>,
    level: nat,
) -> (env::EnvView<FS>, Result<int, env::ErrorView>)
    decreases usize::MAX - level, 2int, p.commands.len() - i,
{
    if i < 0 || i >= p.commands.len() {
        (v, Ok(last))
    } else {
        let args = p.commands[i];
        let is_last = i == p.commands.len() - 1;
        if args.len() == 0 {
            piped_ran(v, p, i + 1, fed, last, host, level)
        } else if is_last && fed is None {
            (v, Ok(last))
        } else {
            if builtins::lookup(args[0]) is None {
                (v, Err(env::ErrorView::UnknownBinary(args[0])))
            } else {
                let e = run_child(
                    v,
                    builtins::lookup(args[0])->0,
                    args,
                    v.vars,
                    fed,
                    !is_last || p.redirect_stdout is Some || p.redirect_stderr == Some(
                        syntax::StderrView::ToStdout,
                    ),
                    if is_last {
                        err_stream(p.redirect_stderr)
                    } else {
                        ErrorStream::Inherited
                    },
                    host,
                    level,
                );
                if is_last {
                    delivered(e, p.redirect_stdout, p.redirect_stderr)
                } else {
                    match e.outcome {
                        Err(x) => (e.v, Err(x)),
                        Ok(code) => piped_ran(
                            e.v,
                            p,
                            i + 1,
                            Some(text::lines(e.out)),
                            code,
                            host,
                            level,
                        ),
                    }
                }
            }
        }
    }
}

/// What a pipeline does.
pub open spec fn pipeline_ran<FS: Filesystem>(
    v: env::EnvView<FS>,
    p: syntax::PipelineView,
    host: Services<FS>,
    level: nat,
) -> (env::EnvView<FS>, Result<int, env::ErrorView>)
    decreases usize::MAX - level, 3int, 0int,
{
    if p.commands.len() == 0 {
        (v, Ok(0))
    } else if p.commands.len() == 1 {
        single_ran(v, p, host, level)
    } else {
        piped_ran(v, p, 0, None, 0, host, level)
    }
}

/// Whether the pipeline behind an operator runs, given the exit code so far.
pub open spec fn due(op: Option<ChainOp>, last: int) -> bool {
    match op {
        Some(ChainOp::And) => last == 0,
        Some(ChainOp::Or) => last != 0,
        Some(ChainOp::Always) => true,
        None => true,
    }
}

/// What the pipelines of a chain from `i` on do; `last` is the exit code so far.
pub open spec fn chain_ran<FS: Filesystem>(
    v: env::EnvView<FS>,
    list: Seq<syntax::LinkView>,
    i: int,
    last: int,
    host: Services<FS>,
    level: nat,
) -> (env::EnvView<FS>, Result<int, env::ErrorView>)
    decreases usize::MAX - level, 4int, list.len() - i,
{
    if i < 0 || i >= list.len() {
        (v, Ok(last))
    } else if i > 0 && !due(list[i - 1].next_op, last) {
        chain_ran(v, list, i + 1, last, host, level)
    } else {
        match pipeline_ran(v, list[i].pipeline, host, level) {
            (w, Err(e)) => (w, Err(e)),
            (w, Ok(code)) => chain_ran(w, list, i + 1, code, host, level),
        }
    }
}

/// Assignments as words of a command line.
pub open spec fn assignment_words(list: Seq<(Seq<char>, Seq<char>)>) -> Seq<Seq<char>> {
    Seq::new(list.len(), |i: int| list[i].0 + "="@ + list[i].1)
}

/// Whether a word names a command that changes the shell itself.
pub open spec fn changes_shell(s: Seq<char>) -> bool {
    s == "cd"@ || s == "set"@ || s == "unset"@ || s == "export"@
}

/// Whether a pipeline is a single command that runs in an environment of its own.
pub open spec fn has_own_vars(p: syntax::PipelineView) -> bool {
    p.commands.len() == 1 && {
        let args = p.commands[0];
        let n = syntax::leading(args, 0);
        n < args.len() && !changes_shell(args[n])
    }
}

/// A chain with assignments put before its first command, where that stands in no pipeline with
/// others and runs in an environment of its own.
pub open spec fn with_assignments(
    links: Seq<syntax::LinkView>,
    list: Seq<(Seq<char>, Seq<char>)>,
) -> Seq<syntax::LinkView> {
    if links.len() > 0 && has_own_vars(links[0].pipeline) {
        let p = links[0].pipeline;
        let first = assignment_words(list) + p.commands[0];
        links.update(
            0,
            syntax::LinkView {
                pipeline: syntax::PipelineView { commands: p.commands.update(0, first), ..p },
                ..links[0]
            },
        )
    } else {
        links
    }
}

/// What the words of a command line do whose first command `list` is assigned for. The exit code
/// goes to the variable `?`.
pub open spec fn words_ran<FS: Filesystem>(
    v: env::EnvView<FS>,
    list: Seq<(Seq<char>, Seq<char>)>,
    args: Seq<Seq<char>>,
    host: Services<FS>,
    level: nat,
) -> (env::EnvView<FS>, Result<int, env::ErrorView>)
    decreases usize::MAX - level, 5int, 0int,
{
    if args.len() == 0 || args[0].len() == 0 {
        (v, Err(env::ErrorView::EmptyCommand))
    } else {
        match syntax::chain(args, 0, Seq::empty(), Seq::empty()) {
            Err(e) => (v, Err(e)),
            Ok(links) => match chain_ran(v, with_assignments(links, list), 0, 0, host, level) {
                (w, Err(e)) => (w, Err(e)),
                (w, Ok(code)) => (
                    with_vars(w, w.vars.insert("?"@, text::signed_decimal(code))),
                    Ok(code),
                ),
            },
        }
    }
}

/// What a command line does. Variables in it stand for their values, those that are assigned before
/// the command among them, and the assignments hold for the command that they stand before, where
/// that stands in no pipeline with others and is none that changes the shell itself.
pub open spec fn line_ran<FS: Filesystem>(
    v: env::EnvView<FS>,
    command: Seq<char>,
    host: Services<FS>,
    level: nat,
) -> (env::EnvView<FS>, Result<int, env::ErrorView>)
    decreases usize::MAX - level, 6int, 0int,
{
    match unprefixed(command, Seq::empty()) {
        Err(m) => (v, Err(env::ErrorView::Expansion(m))),
        Ok((rest, list)) => if rest.len() == 0 {
            if list.len() == 0 {
                (v, Err(env::ErrorView::EmptyCommand))
            } else {
                assigned(v, list, 0)
            }
        } else {
            match quoting::expanded(visible(v, list), rest, true, true, false) {
                Err(m) => (v, Err(env::ErrorView::Expansion(m))),
                Ok(s) => match quoting::words(s) {
                    Err(m) => (v, Err(env::ErrorView::Expansion(m))),
                    Ok(args) => words_ran(v, list, args, host, level),
                },
            }
        },
    }
}

/// Whether a line of a script is passed over: it is empty or a comment.
pub open spec fn is_passed(line: Seq<char>) -> bool {
    line.len() == 0 || line[0] == '#'
}

/// What the lines of a script from `i` on do; `last` is the exit code so far. The script ends where
/// the shell is told to end.
pub open spec fn lines_ran<FS: Filesystem>(
    v: env::EnvView<FS>,
    lines: Seq<Seq<char>>,
    i: int,
    last: int,
    host: Services<FS>,
    level: nat,
) -> (env::EnvView<FS>, Result<int, env::ErrorView>)
    decreases usize::MAX - level, 7int, lines.len() - i,
{
    if i < 0 || i >= lines.len() || v.exit_signaled {
        (v, Ok(last))
    } else {
        let line = text::trim(lines[i]);
        if is_passed(line) {
            lines_ran(v, lines, i + 1, last, host, level)
        } else {
            match line_ran(v, line, host, level) {
                (w, Err(e)) => (w, Err(e)),
                (w, Ok(code)) => lines_ran(w, lines, i + 1, code, host, level),
            }
        }
    }
}

/// What a script does.
pub open spec fn string_ran<FS: Filesystem>(
    v: env::EnvView<FS>,
    script: Seq<char>,
    host: Services<FS>,
    level: nat,
) -> (env::EnvView<FS>, Result<int, env::ErrorView>)
    decreases usize::MAX - level, 8int, 0int,
{
    lines_ran(v, text::lines(script), 0, 0, host, level)
}

/// What the script in a file does.
pub open spec fn script_ran<FS: Filesystem>(
    v: env::EnvView<FS>,
    path: Seq<char>,
    host: Services<FS>,
    level: nat,
) -> (env::EnvView<FS>, Result<int, env::ErrorView>)
    decreases usize::MAX - level, 9int, 0int,
{
    let w = v.asked(fs::Request::Read(path));
    match v.fs.reads(path) {
        Err(e) => (w.error_line("sh: "@ + path + ": "@ + e.message), Ok(127)),
        Ok(script) => string_ran(w, script, host, level),
    }
}

/// The surroundings of a shell that another one ran in: the variables, the environment, the
/// arguments and the working directory are its own again.
pub open spec fn restored<FS>(v: env::EnvView<FS>, w: env::EnvView<FS>) -> env::EnvView<FS> {
    env::EnvView { env: v.env, vars: v.vars, args: v.args, cwd: v.cwd, ..w }
}

/// What the command `sh` does.
pub open spec fn shell_ran<FS: Filesystem>(
    v: env::EnvView<FS>,
    host: Services<FS>,
    level: nat,
) -> (env::EnvView<FS>, Result<int, env::ErrorView>)
    decreases usize::MAX - level, 10int, 0int,
{
    if v.args.len() < 2 {
        (v.error_line("sh: usage: sh -c command | sh script"@), Ok(2))
    } else if v.args[1] == "-c"@ {
        if v.args.len() < 3 {
            (v.error_line("sh: -c: option requires an argument"@), Ok(2))
        } else {
            let (w, r) = line_ran(v, v.args[2], host, level);
            (restored(v, w), r)
        }
    } else {
        let (w, r) = script_ran(v, v.args[1], host, level);
        (restored(v, w), r)
    }
}

// ---------------------------------------------------------------------------------------------
// Running them
// ---------------------------------------------------------------------------------------------

/// What a command came to: its outcome, and what was captured of its output and its errors.
struct Finished {
    outcome: Result<ExitCode, Error>,
    out: String,
    err: String,
}

pub open spec fn opt_lines(o: Option<StringStdioIn>) -> Option<Seq<Seq<char>>> {
    match o {
        Some(s) => Some(s@),
        None => None,
    }
}

/// Runs a builtin, the shell among them.
fn dispatch<FS: Filesystem, N: Fn(&str, u32) -> Option<i64>, E: Evaluator<FS>>(
    b: Builtin,
    env: &mut Environment<FS>,
    host: &Host<N, E>,
    level: usize,
) -> (r: Result<ExitCode, Error>)
    requires
        old(env)@.args.len() > 0,
        number::is_reader(host.num),
    ensures
        (final(env)@, env::outcome(r)) == (if b == Builtin::Sh {
            if level < usize::MAX {
                shell_ran(old(env)@, host::services(*host), (level + 1) as nat)
            } else {
                (
                    old(env)@,
                    Err::<int, env::ErrorView>(
                        env::ErrorView::UnknownBinary(old(env)@.args[0]),
                    ),
                )
            }
        } else {
            builtins::ran(b, old(env)@, host::services(*host))
        }),
    decreases usize::MAX - level, 0int,
{
    assert(env@.args == env.args.deep_view());
    if b == Builtin::Sh {
        if level < usize::MAX {
            run_shell(env, host, level + 1)
        } else {
            Err(Error::UnknownBinary(env.args[0].clone()))
        }
    } else {
        builtins::run(b, env, host)
    }
}

/// Runs a command with its own arguments, variables and streams.
fn run_with<FS: Filesystem, N: Fn(&str, u32) -> Option<i64>, E: Evaluator<FS>>(
    env: &mut Environment<FS>,
    b: Builtin,
    args: Vec<String>,
    own_vars: Vars,
    stdin: Option<StringStdioIn>,
    out: bool,
    err: ErrorStream,
    host: &Host<N, E>,
    level: usize,
) -> (r: Finished)
    requires
        args@.len() > 0,
        number::is_reader(host.num),
    ensures
        ({
            let e = run_child(
                old(env)@,
                b,
                args.deep_view(),
                own_vars@,
                opt_lines(stdin),
                out,
                err,
                host::services(*host),
                level as nat,
            );
            e.v == final(env)@ && e.outcome == env::outcome(r.outcome) && e.out == r.out@ && e.err
                == r.err@
        }),
    decreases usize::MAX - level, 1int,
{
    let ghost v = env@;
    let ghost c = child(v, args.deep_view(), own_vars@, opt_lines(stdin), out, err);
    let fed = stdin.is_some();
    let mut args = args;
    let mut own_vars = own_vars;
    let outer_env = env.env.copy();
    let outer_cwd = env.cwd.clone();
    let outer_merged = env.merged;
    let apart = out && outer_merged && err == ErrorStream::Inherited;
    let mut input = match stdin {
        Some(s) => s,
        None => StringStdioIn::new(""),
    };
    let mut stdout = StringStdioOut::new();
    let mut stderr = StringStdioOut::new();
    std::mem::swap(&mut env.args, &mut args);
    std::mem::swap(&mut env.vars, &mut own_vars);
    if fed {
        std::mem::swap(&mut env.stdin, &mut input);
    }
    if out {
        std::mem::swap(&mut env.stdout, &mut stdout);
    }
    if err != ErrorStream::Inherited {
        std::mem::swap(&mut env.stderr, &mut stderr);
        env.merged = err == ErrorStream::Merged;
    } else if apart {
        std::mem::swap(&mut env.stderr, &mut stderr);
        std::mem::swap(&mut env.stderr, &mut stdout);
        env.merged = false;
    }
    assert(env@ =~= c);
    let outcome = dispatch(b, env, host, level);
    let ghost d = env@;
    if apart {
        std::mem::swap(&mut env.stderr, &mut stdout);
        std::mem::swap(&mut env.stderr, &mut stderr);
    } else if err != ErrorStream::Inherited {
        std::mem::swap(&mut env.stderr, &mut stderr);
    }
    if out {
        std::mem::swap(&mut env.stdout, &mut stdout);
    }
    if fed {
        std::mem::swap(&mut env.stdin, &mut input);
    }
    std::mem::swap(&mut env.args, &mut args);
    std::mem::swap(&mut env.vars, &mut own_vars);
    env.env = outer_env;
    env.cwd = outer_cwd;
    env.merged = outer_merged;
    assert(env@ =~= after_child(v, d, fed, out, err));
    let got_out = if out {
        stdout.text
    } else {
        String::new()
    };
    let got_err = if err != ErrorStream::Inherited {
        stderr.text
    } else {
        String::new()
    };
    Finished { outcome, out: got_out, err: got_err }
}

/// Stores a text in the file that a redirection names, where there is one.
pub fn store<FS: Filesystem>(
    env: &mut Environment<FS>,
    redirect: Option<&OutputRedirect>,
    s: &str,
) -> (r: Result<(), FsError>)
    ensures
        (final(env)@, fs::unit_result(r)) == stored_if(
            old(env)@,
            match redirect {
                Some(o) => Some(o@),
                None => None,
            },
            s@,
        ),
{
    match redirect {
        None => Ok(()),
        Some(o) => {
            let path = paths::resolve_path(env.cwd.as_str(), o.target.as_str());
            match o.mode {
                RedirectMode::Truncate => env.fs.write_string(path.as_str(), s),
                RedirectMode::Append => {
                    let mut all = match env.fs.read_to_string(path.as_str()) {
                        Ok(before) => before,
                        Err(_) => String::new(),
                    };
                    all.append(s);
                    assert(Seq::<char>::empty() + s@ =~= s@);
                    env.fs.write_string(path.as_str(), all.as_str())
                },
            }
        },
    }
}

/// Puts the captured streams of a command where they belong.
fn deliver<FS: Filesystem>(
    env: &mut Environment<FS>,
    done: Finished,
    redirect_stdout: Option<&OutputRedirect>,
    redirect_stderr: Option<&StderrRedirect>,
) -> (r: Result<ExitCode, Error>)
    ensures
        (final(env)@, env::outcome(r)) == delivered(
            Ended {
                v: old(env)@,
                outcome: env::outcome(done.outcome),
                out: done.out@,
                err: done.err@,
            },
            match redirect_stdout {
                Some(o) => Some(o@),
                None => None,
            },
            match redirect_stderr {
                Some(o) => Some(o@),
                None => None,
            },
        ),
{
    let to_stdout = match redirect_stderr {
        Some(StderrRedirect::ToStdout) => true,
        _ => false,
    };
    if redirect_stdout.is_none() && to_stdout {
        if done.outcome.is_ok() {
            let lines = text::lines_of(done.out.as_str());
            let mut s = String::new();
            text::add_ended(&mut s, &lines, '\n');
            proof {
                text::lemma_ended_is_unlines(lines.deep_view());
                assert(s@ =~= text::unlines(lines.deep_view()));
            }
            env.write_str(s.as_str());
        }
        return done.outcome;
    }
    let a = store(env, redirect_stdout, done.out.as_str());
    let file = match redirect_stderr {
        Some(StderrRedirect::File(o)) => Some(o),
        _ => None,
    };
    let b = store(env, file, done.err.as_str());
    match done.outcome {
        Err(e) => Err(e),
        Ok(code) => match a {
            Err(e) => Err(env::error_of(e)),
            Ok(_) => match b {
                Err(e) => Err(env::error_of(e)),
                Ok(_) => Ok(code),
            },
        },
    }
}

/// Where errors go that are redirected so, and whether that is where the output goes.
fn error_stream(redirect_stderr: Option<&StderrRedirect>) -> (r: (ErrorStream, bool))
    ensures
        r.0 == err_stream(
            match redirect_stderr {
                Some(o) => Some(o@),
                None => None,
            },
        ),
        r.1 == (match redirect_stderr {
            Some(o) => o@ == syntax::StderrView::ToStdout,
            None => false,
        }),
{
    match redirect_stderr {
        None => (ErrorStream::Inherited, false),
        Some(StderrRedirect::File(_)) => (ErrorStream::Captured, false),
        Some(StderrRedirect::ToStdout) => (ErrorStream::Merged, true),
    }
}

/// Runs a single command with stdout and stderr redirections.
///
/// This handles all combinations of:
/// - No redirection
/// - Stdout to file (truncate or append)
/// - Stderr to file (truncate or append)
/// - Stderr to stdout (2>&1)
///
/// The `prefix_assignments` parameter contains variable assignments that should be set in the
/// command's environment (but not persist in the shell). This implements the POSIX behavior where
/// `VAR=value cmd` sets VAR only for cmd's execution.
fn run_single_command<FS: Filesystem, N: Fn(&str, u32) -> Option<i64>, E: Evaluator<FS>>(
    args: Vec<String>,
    env: &mut Environment<FS>,
    redirect_stdout: Option<&OutputRedirect>,
    redirect_stderr: Option<&StderrRedirect>,
    prefix_assignments: &Vec<(String, String)>,
    host: &Host<N, E>,
    level: usize,
) -> (r: Result<ExitCode, Error>)
    requires
        args@.len() > 0,
        number::is_reader(host.num),
    ensures
        (final(env)@, env::outcome(r)) == command_ran(
            old(env)@,
            args.deep_view(),
            prefix_assignments.deep_view(),
            match redirect_stdout {
                Some(o) => Some(o@),
                None => None,
            },
            match redirect_stderr {
                Some(o) => Some(o@),
                None => None,
            },
            host::services(*host),
            level as nat,
        ),
    decreases usize::MAX - level, 2int,
{
    let b = match builtins::lookup_bin(args[0].as_str()) {
        Ok(b) => b,
        Err(e) => {
            return Err(e);
        },
    };
    let mut own_vars = env.vars.copy();
    insert_all(&mut own_vars, prefix_assignments);
    let (err, to_stdout) = error_stream(redirect_stderr);
    let out = redirect_stdout.is_some() || to_stdout;
    let done = run_with(env, b, args, own_vars, None, out, err, host, level);
    deliver(env, done, redirect_stdout, redirect_stderr)
}

/// Runs a pipeline of one command.
fn run_single<FS: Filesystem, N: Fn(&str, u32) -> Option<i64>, E: Evaluator<FS>>(
    pipeline: &Pipeline,
    env: &mut Environment<FS>,
    host: &Host<N, E>,
    level: usize,
) -> (r: Result<ExitCode, Error>)
    requires
        pipeline.commands@.len() == 1,
        number::is_reader(host.num),
    ensures
        (final(env)@, env::outcome(r)) == single_ran(
            old(env)@,
            pipeline@,
            host::services(*host),
            level as nat,
        ),
    decreases usize::MAX - level, 3int,
{
    let args = &pipeline.commands[0];
    assert(pipeline@.commands[0] == args.deep_view());
    if args.len() == 0 {
        return Ok(ExitCode::new(0));
    }
    let pairs = syntax::leading_assignments(args);
    let n = pairs.len();
    if n == args.len() {
        insert_all(&mut env.vars, &pairs);
        return Ok(ExitCode::new(0));
    }
    let cmd = options::copy_from(args, n);
    assert(cmd.deep_view().len() == args.deep_view().len() - n);
    if text::same(cmd[0].as_str(), "cd") {
        insert_all(&mut env.vars, &pairs);
        return Ok(handle_cd(&cmd, env));
    }
    if text::same(cmd[0].as_str(), "set") {
        insert_all(&mut env.vars, &pairs);
        return Ok(handle_set(&cmd, env));
    }
    if text::same(cmd[0].as_str(), "unset") {
        insert_all(&mut env.vars, &pairs);
        return Ok(handle_unset(&cmd, env));
    }
    if text::same(cmd[0].as_str(), "export") {
        insert_all(&mut env.vars, &pairs);
        return Ok(handle_export(&cmd, env));
    }
    run_single_command(
        cmd,
        env,
        pipeline.redirect_stdout.as_ref(),
        pipeline.redirect_stderr.as_ref(),
        &pairs,
        host,
        level,
    )
}

/// Runs a pipeline of several commands, one after another: each reads what the one before it wrote.
fn run_piped<FS: Filesystem, N: Fn(&str, u32) -> Option<i64>, E: Evaluator<FS>>(
    pipeline: &Pipeline,
    env: &mut Environment<FS>,
    host: &Host<N, E>,
    level: usize,
) -> (r: Result<ExitCode, Error>)
    requires
        number::is_reader(host.num),
    ensures
        (final(env)@, env::outcome(r)) == piped_ran(
            old(env)@,
            pipeline@,
            0,
            None,
            0,
            host::services(*host),
            level as nat,
        ),
    decreases usize::MAX - level, 3int,
{
    let ghost f = host::services(*host);
    let ghost shown = pipeline@;
    let mut fed: Option<StringStdioIn> = None;
    let mut last = ExitCode::new(0);
    let mut i: usize = 0;
    while i < pipeline.commands.len()
        invariant
            i <= pipeline.commands@.len(),
            shown == pipeline@,
            f == host::services(*host),
            number::is_reader(host.num),
            piped_ran(
                env@,
                shown,
                i as int,
                opt_lines(fed),
                last.spec_code(),
                f,
                level as nat,
            ) == piped_ran(old(env)@, pipeline@, 0, None, 0, f, level as nat),
        decreases pipeline.commands.len() - i,
    {
        assert(shown.commands[i as int] == pipeline.commands@[i as int].deep_view());
        let is_last = i == pipeline.commands.len() - 1;
        if pipeline.commands[i].len() > 0 {
            if is_last && fed.is_none() {
                return Ok(last);
            }
            let args = options::copy_from(&pipeline.commands[i], 0);
            assert(args.deep_view() =~= shown.commands[i as int]);
            let b = match builtins::lookup_bin(args[0].as_str()) {
                Ok(b) => b,
                Err(e) => {
                    return Err(e);
                },
            };
            let own_vars = env.vars.copy();
            let (last_err, to_stdout) = error_stream(pipeline.redirect_stderr.as_ref());
            let out = !is_last || pipeline.redirect_stdout.is_some() || to_stdout;
            let err = if is_last {
                last_err
            } else {
                ErrorStream::Inherited
            };
            let done = run_with(env, b, args, own_vars, fed, out, err, host, level);
            if is_last {
                return deliver(
                    env,
                    done,
                    pipeline.redirect_stdout.as_ref(),
                    pipeline.redirect_stderr.as_ref(),
                );
            }
            match done.outcome {
                Err(e) => {
                    return Err(e);
                },
                Ok(code) => {
                    last = code;
                },
            }
            fed = Some(StringStdioIn::new(done.out.as_str()));
        }
        i += 1;
    }
    Ok(last)
}

/// Runs a pipeline of commands connected by pipes.
fn run_pipeline<FS: Filesystem, N: Fn(&str, u32) -> Option<i64>, E: Evaluator<FS>>(
    pipeline: &Pipeline,
    env: &mut Environment<FS>,
    host: &Host<N, E>,
    level: usize,
) -> (r: Result<ExitCode, Error>)
    requires
        number::is_reader(host.num),
    ensures
        (final(env)@, env::outcome(r)) == pipeline_ran(
            old(env)@,
            pipeline@,
            host::services(*host),
            level as nat,
        ),
    decreases usize::MAX - level, 4int,
{
    if pipeline.commands.len() == 0 {
        Ok(ExitCode::new(0))
    } else if pipeline.commands.len() == 1 {
        run_single(pipeline, env, host, level)
    } else {
        run_piped(pipeline, env, host, level)
    }
}

fn is_due(op: Option<ChainOp>, last: ExitCode) -> (r: bool)
    ensures
        r == due(op, last.spec_code()),
{
    match op {
        Some(ChainOp::And) => last.code() == 0,
        Some(ChainOp::Or) => last.code() != 0,
        Some(ChainOp::Always) => true,
        None => true,
    }
}

/// Runs a chain of pipelines respecting && and || operators.
fn run_command_chain<FS: Filesystem, N: Fn(&str, u32) -> Option<i64>, E: Evaluator<FS>>(
    pipelines: &Vec<ChainedPipeline>,
    env: &mut Environment<FS>,
    host: &Host<N, E>,
    level: usize,
) -> (r: Result<ExitCode, Error>)
    requires
        number::is_reader(host.num),
    ensures
        (final(env)@, env::outcome(r)) == chain_ran(
            old(env)@,
            syntax::links(pipelines@),
            0,
            0,
            host::services(*host),
            level as nat,
        ),
    decreases usize::MAX - level, 5int,
{
    let ghost f = host::services(*host);
    let ghost list = syntax::links(pipelines@);
    let mut last = ExitCode::new(0);
    let mut i: usize = 0;
    while i < pipelines.len()
        invariant
            i <= pipelines@.len(),
            list == syntax::links(pipelines@),
            f == host::services(*host),
            number::is_reader(host.num),
            chain_ran(env@, list, i as int, last.spec_code(), f, level as nat) == chain_ran(
                old(env)@,
                list,
                0,
                0,
                f,
                level as nat,
            ),
        decreases pipelines.len() - i,
    {
        if i == 0 || is_due(pipelines[i - 1].next_op, last) {
            match run_pipeline(&pipelines[i].pipeline, env, host, level) {
                Err(e) => {
                    return Err(e);
                },
                Ok(code) => {
                    last = code;
                },
            }
        }
        i += 1;
    }
    Ok(last)
}

/// Runs the words of a command line whose first command `list` is assigned for.
fn run_words_at<FS: Filesystem, N: Fn(&str, u32) -> Option<i64>, E: Evaluator<FS>>(
    list: &Vec<(String, String)>,
    args: &Vec<String>,
    env: &mut Environment<FS>,
    host: &Host<N, E>,
    level: usize,
) -> (r: Result<ExitCode, Error>)
    requires
        number::is_reader(host.num),
    ensures
        (final(env)@, env::outcome(r)) == words_ran(
            old(env)@,
            list.deep_view(),
            args.deep_view(),
            host::services(*host),
            level as nat,
        ),
    decreases usize::MAX - level, 6int,
{
    if args.len() == 0 || args[0].as_str().is_empty() {
        return Err(Error::EmptyCommand);
    }
    let commands = match syntax::parse_command_chain(args) {
        Ok(commands) => commands,
        Err(e) => {
            return Err(e);
        },
    };
    let commands = assign_first(commands, list);
    let code = match run_command_chain(&commands, env, host, level) {
        Ok(code) => code,
        Err(e) => {
            return Err(e);
        },
    };
    let shown = text::to_signed_decimal(code.code() as i64);
    env.vars.insert("?", shown.as_str());
    Ok(code)
}

/// Puts assignments before the first command of a chain, where that stands in no pipeline with others
/// and runs in an environment of its own.
fn assign_first(links: Vec<ChainedPipeline>, list: &Vec<(String, String)>) -> (r: Vec<
    ChainedPipeline,
>)
    ensures
        syntax::links(r@) == with_assignments(syntax::links(links@), list.deep_view()),
{
    let ghost shown = syntax::links(links@);
    let mut links = links;
    if links.len() == 0 || links[0].pipeline.commands.len() != 1 {
        return links;
    }
    let ghost args = shown[0].pipeline.commands[0];
    assert(args == links@[0].pipeline.commands@[0].deep_view());
    let n = syntax::leading_assignments(&links[0].pipeline.commands[0]).len();
    if n == links[0].pipeline.commands[0].len() {
        return links;
    }
    assert(args[n as int] == links@[0].pipeline.commands@[0]@[n as int]@);
    let name = links[0].pipeline.commands[0][n].as_str();
    if text::same(name, "cd") || text::same(name, "set") || text::same(name, "unset")
        || text::same(name, "export") {
        return links;
    }
    let first = put_before(list, &links[0].pipeline.commands[0]);
    let mut link = links.remove(0);
    let ghost commands = link.pipeline.commands.deep_view();
    link.pipeline.commands.set(0, first);
    assert(link.pipeline.commands.deep_view() =~= commands.update(0, first.deep_view()));
    links.insert(0, link);
    assert(syntax::links(links@) =~= with_assignments(shown, list.deep_view()));
    links
}

/// Puts assignments before the words of a command.
fn put_before(list: &Vec<(String, String)>, args: &Vec<String>) -> (r: Vec<String>)
    ensures
        r.deep_view() == assignment_words(list.deep_view()) + args.deep_view(),
{
    let ghost shown = list.deep_view();
    let mut out: Vec<String> = Vec::new();
    let mut i: usize = 0;
    assert(out.deep_view() =~= assignment_words(shown.take(0)));
    while i < list.len()
        invariant
            i <= list@.len(),
            shown == list.deep_view(),
            out.deep_view() == assignment_words(shown.take(i as int)),
        decreases list.len() - i,
    {
        let ghost before = out.deep_view();
        let mut word = list[i].0.clone();
        word.append("=");
        word.append(list[i].1.as_str());
        out.push(word);
        assert(out.deep_view() =~= before.push(word@));
        assert(out.deep_view() =~= assignment_words(shown.take(i + 1)));
        i += 1;
    }
    assert(shown.take(i as int) =~= shown);
    let ghost all = args.deep_view();
    let mut k: usize = 0;
    assert(out.deep_view() =~= assignment_words(shown) + all.take(0));
    while k < args.len()
        invariant
            k <= args@.len(),
            all == args.deep_view(),
            out.deep_view() == assignment_words(shown) + all.take(k as int),
        decreases args.len() - k,
    {
        let ghost before = out.deep_view();
        let word = args[k].clone();
        out.push(word);
        assert(out.deep_view() =~= before.push(word@));
        assert(out.deep_view() =~= assignment_words(shown) + all.take(k + 1));
        k += 1;
    }
    assert(all.take(k as int) =~= all);
    out
}

/// Runs a single command line.
fn run_line<FS: Filesystem, N: Fn(&str, u32) -> Option<i64>, E: Evaluator<FS>>(
    command: &str,
    env: &mut Environment<FS>,
    host: &Host<N, E>,
    level: usize,
) -> (r: Result<ExitCode, Error>)
    requires
        number::is_reader(host.num),
    ensures
        (final(env)@, env::outcome(r)) == line_ran(
            old(env)@,
            command@,
            host::services(*host),
            level as nat,
        ),
    decreases usize::MAX - level, 7int,
{
    let (rest, list) = match take_prefix(command) {
        Ok(found) => found,
        Err(m) => {
            return Err(Error::Expansion(m));
        },
    };
    if rest.as_str().is_empty() {
        if list.len() == 0 {
            return Err(Error::EmptyCommand);
        }
        return assign(env, &list);
    }
    let values = visible_vars(env, &list);
    let s = match quoting::expand(&values, rest.as_str(), true, true, false) {
        Ok(s) => s,
        Err(m) => {
            return Err(Error::Expansion(m));
        },
    };
    let args = match quoting::split_words(s.as_str()) {
        Ok(args) => args,
        Err(m) => {
            return Err(Error::Expansion(m));
        },
    };
    run_words_at(&list, &args, env, host, level)
}

/// Runs the lines of a script.
fn run_lines<FS: Filesystem, N: Fn(&str, u32) -> Option<i64>, E: Evaluator<FS>>(
    script: &str,
    env: &mut Environment<FS>,
    host: &Host<N, E>,
    level: usize,
) -> (r: Result<ExitCode, Error>)
    requires
        number::is_reader(host.num),
    ensures
        (final(env)@, env::outcome(r)) == string_ran(
            old(env)@,
            script@,
            host::services(*host),
            level as nat,
        ),
    decreases usize::MAX - level, 8int,
{
    let ghost f = host::services(*host);
    let lines = text::lines_of(script);
    let ghost shown = lines.deep_view();
    let mut last = ExitCode::new(0);
    let mut i: usize = 0;
    while i < lines.len() && !env.is_exit_signaled()
        invariant
            i <= lines@.len(),
            shown == lines.deep_view(),
            shown == text::lines(script@),
            f == host::services(*host),
            number::is_reader(host.num),
            lines_ran(env@, shown, i as int, last.spec_code(), f, level as nat) == lines_ran(
                old(env)@,
                shown,
                0,
                0,
                f,
                level as nat,
            ),
        decreases lines.len() - i,
    {
        let line = text::trimmed(lines[i].as_str());
        let v = text::chars(line.as_str());
        if !(v.len() == 0 || v[0] == '#') {
            match run_line(line.as_str(), env, host, level) {
                Err(e) => {
                    return Err(e);
                },
                Ok(code) => {
                    last = code;
                },
            }
        }
        i += 1;
    }
    Ok(last)
}

/// Runs a script file.
fn run_file<FS: Filesystem, N: Fn(&str, u32) -> Option<i64>, E: Evaluator<FS>>(
    path: &str,
    env: &mut Environment<FS>,
    host: &Host<N, E>,
    level: usize,
) -> (r: Result<ExitCode, Error>)
    requires
        number::is_reader(host.num),
    ensures
        (final(env)@, env::outcome(r)) == script_ran(
            old(env)@,
            path@,
            host::services(*host),
            level as nat,
        ),
    decreases usize::MAX - level, 9int,
{
    match env.fs.read_to_string(path) {
        Ok(script) => run_lines(script.as_str(), env, host, level),
        Err(FsError::Io(e)) => {
            let mut m = "sh: ".to_owned();
            m.append(path);
            m.append(": ");
            m.append(e.message.as_str());
            env.error_line(m.as_str());
            Ok(ExitCode::new(127))
        },
    }
}

/// Runs the command `sh`.
fn run_shell<FS: Filesystem, N: Fn(&str, u32) -> Option<i64>, E: Evaluator<FS>>(
    env: &mut Environment<FS>,
    host: &Host<N, E>,
    level: usize,
) -> (r: Result<ExitCode, Error>)
    requires
        number::is_reader(host.num),
    ensures
        (final(env)@, env::outcome(r)) == shell_ran(
            old(env)@,
            host::services(*host),
            level as nat,
        ),
    decreases usize::MAX - level, 10int,
{
    let ghost v = env@;
    assert(env@.args == env.args.deep_view());
    if env.args.len() < 2 {
        env.error_line("sh: usage: sh -c command | sh script");
        return Ok(ExitCode::new(2));
    }
    let is_command = text::same(env.args[1].as_str(), "-c");
    if is_command && env.args.len() < 3 {
        env.error_line("sh: -c: option requires an argument");
        return Ok(ExitCode::new(2));
    }
    let outer_env = env.env.copy();
    let outer_vars = env.vars.copy();
    let outer_args = options::copy_texts(&env.args);
    let outer_cwd = env.cwd.clone();
    let r = if is_command {
        let command = env.args[2].clone();
        run_line(command.as_str(), env, host, level)
    } else {
        let path = env.args[1].clone();
        run_file(path.as_str(), env, host, level)
    };
    let ghost w = env@;
    env.env = outer_env;
    env.vars = outer_vars;
    env.args = outer_args;
    env.cwd = outer_cwd;
    assert(env@ =~= restored(v, w));
    r
}

// ---------------------------------------------------------------------------------------------
// The shell
// ---------------------------------------------------------------------------------------------

/// The sh builtin: execute shell commands.
///
/// Usage:
///   sh -c command_string [command_name [argument...]]
///   sh script_file [argument...]
pub fn bin<FS: Filesystem, N: Fn(&str, u32) -> Option<i64>, E: Evaluator<FS>>(
    env: &mut Environment<FS>,
    host: &Host<N, E>,
) -> (r: Result<ExitCode, Error>)
    requires
        number::is_reader(host.num),
    ensures
        (final(env)@, env::outcome(r)) == shell_ran(old(env)@, host::services(*host), 0),
{
    run_shell(env, host, 0)
}

/// Runs a script file, executing each line.
pub fn run_script<FS: Filesystem, N: Fn(&str, u32) -> Option<i64>, E: Evaluator<FS>>(
    path: &str,
    env: &mut Environment<FS>,
    host: &Host<N, E>,
) -> (r: Result<ExitCode, Error>)
    requires
        number::is_reader(host.num),
    ensures
        (final(env)@, env::outcome(r)) == script_ran(old(env)@, path@, host::services(*host), 0),
{
    run_file(path, env, host, 0)
}

/// Runs a script from a string, executing each line.
pub fn run_string<FS: Filesystem, N: Fn(&str, u32) -> Option<i64>, E: Evaluator<FS>>(
    script: &str,
    env: &mut Environment<FS>,
    host: &Host<N, E>,
) -> (r: Result<ExitCode, Error>)
    requires
        number::is_reader(host.num),
    ensures
        (final(env)@, env::outcome(r)) == string_ran(old(env)@, script@, host::services(*host), 0),
{
    run_lines(script, env, host, 0)
}

/// Runs a single command line with support for && and || operators.
pub fn run<FS: Filesystem, N: Fn(&str, u32) -> Option<i64>, E: Evaluator<FS>>(
    command: String,
    env: &mut Environment<FS>,
    host: &Host<N, E>,
) -> (r: Result<ExitCode, Error>)
    requires
        number::is_reader(host.num),
    ensures
        (final(env)@, env::outcome(r)) == line_ran(old(env)@, command@, host::services(*host), 0),
{
    run_line(command.as_str(), env, host, 0)
}

/// Whether a pipeline begins with a dialogue, which reads the input of the shell line by line.
pub open spec fn is_dialogue(p: syntax::PipelineView) -> bool {
    p.commands.len() > 0 && {
        let args = p.commands[0];
        let n = if p.commands.len() == 1 {
            syntax::leading(args, 0)
        } else {
            0
        };
        n < args.len() && builtins::lookup(args[n]) == Some(Builtin::Markdownsp)
    }
}

/// Whether a pipeline of a chain begins with a dialogue.
pub open spec fn has_dialogue(links: Seq<syntax::LinkView>) -> bool {
    exists|i: int| 0 <= i < links.len() && is_dialogue(#[trigger] links[i].pipeline)
}

/// Whether a command line opens a dialogue on the input of the shell.
pub open spec fn opened<FS>(v: env::EnvView<FS>, command: Seq<char>) -> bool {
    match unprefixed(command, Seq::empty()) {
        Err(_) => false,
        Ok((rest, list)) => rest.len() > 0 && match quoting::expanded(
            visible(v, list),
            rest,
            true,
            true,
            false,
        ) {
            Err(_) => false,
            Ok(s) => match quoting::words(s) {
                Err(_) => false,
                Ok(args) => match syntax::chain(args, 0, Seq::empty(), Seq::empty()) {
                    Err(_) => false,
                    Ok(links) => has_dialogue(links),
                },
            },
        },
    }
}

fn begins_dialogue(pipeline: &Pipeline) -> (r: bool)
    ensures
        r == is_dialogue(pipeline@),
{
    if pipeline.commands.len() == 0 {
        return false;
    }
    let ghost args = pipeline@.commands[0];
    assert(args == pipeline.commands@[0].deep_view());
    let n = if pipeline.commands.len() == 1 {
        syntax::leading_assignments(&pipeline.commands[0]).len()
    } else {
        0
    };
    if n == pipeline.commands[0].len() {
        return false;
    }
    assert(args[n as int] == pipeline.commands@[0]@[n as int]@);
    match builtins::lookup_bin(pipeline.commands[0][n].as_str()) {
        Ok(b) => b == Builtin::Markdownsp,
        Err(_) => false,
    }
}

/// Tells whether a command line opens a dialogue, so that its input can be made ready before the
/// line is run.
pub fn opens_dialogue<FS: Filesystem>(command: &str, env: &Environment<FS>) -> (r: bool)
    ensures
        r == opened(env@, command@),
{
    let (rest, list) = match take_prefix(command) {
        Ok(found) => found,
        Err(_) => {
            return false;
        },
    };
    if rest.as_str().is_empty() {
        return false;
    }
    let values = visible_vars(env, &list);
    let s = match quoting::expand(&values, rest.as_str(), true, true, false) {
        Ok(s) => s,
        Err(_) => {
            return false;
        },
    };
    let args = match quoting::split_words(s.as_str()) {
        Ok(args) => args,
        Err(_) => {
            return false;
        },
    };
    let links = match syntax::parse_command_chain(&args) {
        Ok(links) => links,
        Err(_) => {
            return false;
        },
    };
    let ghost shown = syntax::links(links@);
    let mut i: usize = 0;
    while i < links.len()
        invariant
            i <= links@.len(),
            shown == syntax::links(links@),
            opened(env@, command@) == has_dialogue(shown),
            forall|k: int| 0 <= k < i ==> !is_dialogue(#[trigger] shown[k].pipeline),
        decreases links.len() - i,
    {
        assert(shown[i as int].pipeline == links@[i as int].pipeline@);
        if begins_dialogue(&links[i].pipeline) {
            assert(has_dialogue(shown));
            return true;
        }
        i += 1;
    }
    false
}

/// Runs the words of a command line, in which quotes and variables were replaced.
pub fn run_words<FS: Filesystem, N: Fn(&str, u32) -> Option<i64>, E: Evaluator<FS>>(
    args: &Vec<String>,
    env: &mut Environment<FS>,
    host: &Host<N, E>,
) -> (r: Result<ExitCode, Error>)
    requires
        number::is_reader(host.num),
    ensures
        (final(env)@, env::outcome(r)) == words_ran(
            old(env)@,
            Seq::empty(),
            args.deep_view(),
            host::services(*host),
            0,
        ),
{
    let none: Vec<(String, String)> = Vec::new();
    assert(none.deep_view() =~= Seq::<(Seq<char>, Seq<char>)>::empty());
    run_words_at(&none, args, env, host, 0)
}

/// Runs a builtin by itself.
pub fn run_builtin<FS: Filesystem, N: Fn(&str, u32) -> Option<i64>, E: Evaluator<FS>>(
    b: Builtin,
    env: &mut Environment<FS>,
    host: &Host<N, E>,
) -> (r: Result<ExitCode, Error>)
    requires
        old(env)@.args.len() > 0,
        number::is_reader(host.num),
    ensures
        (final(env)@, env::outcome(r)) == (if b == Builtin::Sh {
            shell_ran(old(env)@, host::services(*host), 1)
        } else {
            builtins::ran(b, old(env)@, host::services(*host))
        }),
{
    dispatch(b, env, host, 0)
}

// ---------------------------------------------------------------------------------------------
// Laws
// ---------------------------------------------------------------------------------------------

/// A shell that runs inside another changes neither its variables nor its environment, arguments or
/// working directory.
pub proof fn lemma_shell_isolated<FS: Filesystem>(
    v: env::EnvView<FS>,
    host: Services<FS>,
    level: nat,
)
    ensures
        shell_ran(v, host, level).0.vars == v.vars,
        shell_ran(v, host, level).0.env == v.env,
        shell_ran(v, host, level).0.args == v.args,
        shell_ran(v, host, level).0.cwd == v.cwd,
{
}

/// A command changes neither the variables nor the environment, arguments or working directory of
/// the shell that runs it, whatever assignments stand before it and wherever its streams go.
pub proof fn lemma_command_isolated<FS: Filesystem>(
    v: env::EnvView<FS>,
    args: Seq<Seq<char>>,
    pairs: Seq<(Seq<char>, Seq<char>)>,
    redirect_stdout: Option<syntax::RedirectView>,
    redirect_stderr: Option<syntax::StderrView>,
    host: Services<FS>,
    level: nat,
)
    ensures
        ({
            let w = command_ran(
                v,
                args,
                pairs,
                redirect_stdout,
                redirect_stderr,
                host,
                level,
            ).0;
            w.vars == v.vars && w.env == v.env && w.args == v.args && w.cwd == v.cwd
        }),
{
}

/// Assignments before a command that does not change the shell hold while it runs.
pub proof fn lemma_assigned_for_command<FS: Filesystem>(
    v: env::EnvView<FS>,
    list: Seq<(Seq<char>, Seq<char>)>,
    link: syntax::LinkView,
    host: Services<FS>,
    level: nat,
)
    requires
        forall|i: int| 0 <= i < list.len() ==> syntax::is_var_name(#[trigger] list[i].0),
        link.pipeline.commands.len() == 1,
        link.pipeline.commands[0].len() > 0,
        syntax::assignment(link.pipeline.commands[0][0]) is None,
        !changes_shell(link.pipeline.commands[0][0]),
    ensures
        pipeline_ran(v, with_assignments(seq![link], list)[0].pipeline, host, level) == command_ran(
            v,
            link.pipeline.commands[0],
            list,
            link.pipeline.redirect_stdout,
            link.pipeline.redirect_stderr,
            host,
            level,
        ),
{
    let args = link.pipeline.commands[0];
    let words = assignment_words(list) + args;
    let n = list.len() as int;
    assert forall|i: int| 0 <= i < n implies #[trigger] syntax::assignment(words[i]) == Some(
        list[i],
    ) by {
        let (name, value) = list[i];
        assert(words[i] == name + "="@ + value);
        reveal_strlit("=");
        assert("="@ =~= seq!['=']);
        assert(syntax::is_var_name(list[i].0));
        lemma_halves(name, value);
    }
    assert(words[n] == args[0]);
    lemma_leading(words, n, 0);
    assert(words.skip(n) =~= args);
    assert(syntax::assignments(words, n) =~= list);
    assert(syntax::leading(args, 0) == 0);
    let q = with_assignments(seq![link], list)[0].pipeline;
    assert(q.commands =~= seq![words]);
    assert(single_ran(v, q, host, level) == command_ran(
        v,
        args,
        list,
        link.pipeline.redirect_stdout,
        link.pipeline.redirect_stderr,
        host,
        level,
    ));
}

proof fn lemma_leading(words: Seq<Seq<char>>, n: int, i: int)
    requires
        0 <= i <= n < words.len(),
        forall|k: int| 0 <= k < n ==> #[trigger] syntax::assignment(words[k]) is Some,
        syntax::assignment(words[n]) is None,
    ensures
        syntax::leading(words, i) == n - i,
    decreases n - i,
{
    if i < n {
        assert(syntax::assignment(words[i]) is Some);
        lemma_leading(words, n, i + 1);
    }
}

/// The commands of a pipeline change neither the variables nor the environment, arguments or working
/// directory of the shell that runs them.
pub proof fn lemma_pipeline_isolated<FS: Filesystem>(
    v: env::EnvView<FS>,
    p: syntax::PipelineView,
    i: int,
    fed: Option<Seq<Seq<char>>>,
    last: int,
    host: Services<FS>,
    level: nat,
)
    ensures
        ({
            let w = piped_ran(v, p, i, fed, last, host, level).0;
            w.vars == v.vars && w.env == v.env && w.args == v.args && w.cwd == v.cwd
        }),
    decreases p.commands.len() - i,
{
    reveal_with_fuel(piped_ran, 2);
    if 0 <= i < p.commands.len() {
        let args = p.commands[i];
        let is_last = i == p.commands.len() - 1;
        if args.len() == 0 {
            lemma_pipeline_isolated(v, p, i + 1, fed, last, host, level);
        } else if !is_last && builtins::lookup(args[0]) is Some {
            let e = run_child(
                v,
                builtins::lookup(args[0])->0,
                args,
                v.vars,
                fed,
                true,
                ErrorStream::Inherited,
                host,
                level,
            );
            if let Ok(code) = e.outcome {
                lemma_pipeline_isolated(e.v, p, i + 1, Some(text::lines(e.out)), code, host, level);
            }
        }
    }
}

/// Output that goes to a file does not go to the output stream of the shell.
pub proof fn lemma_redirected_output<FS: Filesystem>(
    v: env::EnvView<FS>,
    args: Seq<Seq<char>>,
    pairs: Seq<(Seq<char>, Seq<char>)>,
    redirect: syntax::RedirectView,
    host: Services<FS>,
    level: nat,
)
    requires
        !v.merged,
    ensures
        command_ran(v, args, pairs, Some(redirect), None, host, level).0.out == v.out,
{
}

/// Errors that go to a file do not go to the error stream of the shell.
pub proof fn lemma_redirected_errors<FS: Filesystem>(
    v: env::EnvView<FS>,
    args: Seq<Seq<char>>,
    pairs: Seq<(Seq<char>, Seq<char>)>,
    redirect_stdout: Option<syntax::RedirectView>,
    redirect: syntax::RedirectView,
    host: Services<FS>,
    level: nat,
)
    ensures
        command_ran(
            v,
            args,
            pairs,
            redirect_stdout,
            Some(syntax::StderrView::File(redirect)),
            host,
            level,
        ).0.err == v.err,
{
}

/// Errors of the last command of a pipeline that go to a file do not go to the error stream of the
/// shell.
pub proof fn lemma_piped_errors<FS: Filesystem>(
    v: env::EnvView<FS>,
    p: syntax::PipelineView,
    fed: Seq<Seq<char>>,
    last: int,
    redirect: syntax::RedirectView,
    host: Services<FS>,
    level: nat,
)
    requires
        p.commands.len() > 0,
        p.redirect_stderr == Some(syntax::StderrView::File(redirect)),
    ensures
        piped_ran(v, p, p.commands.len() - 1, Some(fed), last, host, level).0.err == v.err,
{
    reveal_with_fuel(piped_ran, 2);
}

/// After `&&` nothing runs where what came before failed, and after `||` nothing where it succeeded:
/// the exit code stays.
pub proof fn lemma_chain_skips<FS: Filesystem>(
    v: env::EnvView<FS>,
    first: syntax::PipelineView,
    second: syntax::PipelineView,
    op: ChainOp,
    host: Services<FS>,
    level: nat,
)
    requires
        pipeline_ran(v, first, host, level).1 is Ok,
        !due(Some(op), pipeline_ran(v, first, host, level).1->Ok_0),
    ensures
        chain_ran(
            v,
            seq![
                syntax::LinkView { pipeline: first, next_op: Some(op) },
                syntax::LinkView { pipeline: second, next_op: None },
            ],
            0,
            0,
            host,
            level,
        ) == pipeline_ran(v, first, host, level),
{
    let list = seq![
        syntax::LinkView { pipeline: first, next_op: Some(op) },
        syntax::LinkView { pipeline: second, next_op: None },
    ];
    let (w, done) = pipeline_ran(v, first, host, level);
    let code = done->Ok_0;
    assert(list[0].pipeline == first && list[1].pipeline == second);
    assert(chain_ran(w, list, 2, code, host, level) == (w, done));
    assert(chain_ran(w, list, 1, code, host, level) == (w, done));
    assert(chain_ran(v, list, 0, 0, host, level) == (w, done));
}

/// Where what stands behind an operator runs, it runs on what came before left, and its exit code
/// counts.
pub proof fn lemma_chain_goes_on<FS: Filesystem>(
    v: env::EnvView<FS>,
    first: syntax::PipelineView,
    second: syntax::PipelineView,
    op: ChainOp,
    host: Services<FS>,
    level: nat,
)
    requires
        pipeline_ran(v, first, host, level).1 is Ok,
        due(Some(op), pipeline_ran(v, first, host, level).1->Ok_0),
    ensures
        chain_ran(
            v,
            seq![
                syntax::LinkView { pipeline: first, next_op: Some(op) },
                syntax::LinkView { pipeline: second, next_op: None },
            ],
            0,
            0,
            host,
            level,
        ) == pipeline_ran(pipeline_ran(v, first, host, level).0, second, host, level),
{
    let list = seq![
        syntax::LinkView { pipeline: first, next_op: Some(op) },
        syntax::LinkView { pipeline: second, next_op: None },
    ];
    let (w, done) = pipeline_ran(v, first, host, level);
    let code = done->Ok_0;
    assert(list[0].pipeline == first && list[1].pipeline == second);
    let (x, last) = pipeline_ran(w, second, host, level);
    if let Ok(value) = last {
        assert(chain_ran(x, list, 2, value, host, level) == (x, last));
    }
    assert(chain_ran(w, list, 1, code, host, level) == (x, last));
    assert(chain_ran(v, list, 0, 0, host, level) == (x, last));
}

/// After a command line the variable `?` holds its exit code.
pub proof fn lemma_status<FS: Filesystem>(
    v: env::EnvView<FS>,
    list: Seq<(Seq<char>, Seq<char>)>,
    args: Seq<Seq<char>>,
    host: Services<FS>,
    level: nat,
)
    ensures
        words_ran(v, list, args, host, level).1 matches Ok(code) ==> value_of(
            words_ran(v, list, args, host, level).0.vars,
            "?"@,
        ) == Some(text::signed_decimal(code)),
{
}

/// What shvar has to make of `echo $?` for the status to be printed: its first word is `echo`, the
/// status is put in for the variable, and the line is taken apart at the space.
pub open spec fn puts_in_status(vars: Map<Seq<char>, Seq<char>>) -> bool {
    let line = "echo "@ + vars["?"@];
    &&& quoting::first_word("echo $?"@) matches Ok(Some((word, _))) && word == "echo"@
    &&& quoting::expanded(vars, "echo $?"@, true, true, false) == Ok::<Seq<char>, Seq<char>>(line)
    &&& quoting::words(line) == Ok::<Seq<Seq<char>>, Seq<char>>(seq!["echo"@, vars["?"@]])
}

/// After a command line with a command in it, `$?` is its exit code: where `$?` is replaced by the
/// variable of that name, `echo $?` prints the exit code in decimal and ends with 0.
pub proof fn lemma_status_echoed<FS: Filesystem>(
    v: env::EnvView<FS>,
    command: Seq<char>,
    host: Services<FS>,
    level: nat,
)
    requires
        unprefixed(command, Seq::empty()) matches Ok((rest, _)) && rest.len() > 0,
        line_ran(v, command, host, level).1 is Ok,
        puts_in_status(visible(line_ran(v, command, host, level).0, Seq::empty())),
    ensures
        ({
            let (w, r) = line_ran(v, command, host, level);
            let code = text::signed_decimal(r->Ok_0);
            &&& value_of(w.vars, "?"@) == Some(code)
            &&& line_ran(w, "echo $?"@, host, level) == (
                with_vars(w.write_line(code), w.vars.insert("?"@, text::signed_decimal(0))),
                Ok::<int, env::ErrorView>(0),
            )
        }),
{
    let (w, r) = line_ran(v, command, host, level);
    let code = text::signed_decimal(r->Ok_0);
    let none = Seq::<(Seq<char>, Seq<char>)>::empty();
    assert(value_of(w.vars, "?"@) == Some(code));
    assert(vars::pairs_map(none) == Map::<Seq<char>, Seq<char>>::empty());
    assert(visible(w, none)["?"@] == code);
    let args = seq!["echo"@, code];
    lemma_plain_code(r->Ok_0);
    reveal_strlit("echo");
    reveal_strlit("echo $?");
    reveal_strlit("=");
    assert(syntax::is_plain("echo"@));
    syntax::lemma_plain_is_no_mark("echo"@);
    syntax::lemma_plain_is_no_mark(code);
    assert forall|j: int| 0 <= j < args.len() implies !syntax::is_mark(#[trigger] args[j]) by {
        assert(args[j] == "echo"@ || args[j] == code);
    }
    syntax::lemma_plain_command(args);
    syntax::lemma_assignment("echo"@);
    assert(syntax::assignment("echo"@) is None) by {
        if let Some((name, value)) = syntax::assignment("echo"@) {
            assert("echo"@[name.len() as int] == '=');
        }
    }
    assert(unprefixed("echo $?"@, Seq::empty()) == Ok::<
        (Seq<char>, Seq<(Seq<char>, Seq<char>)>),
        Seq<char>,
    >(("echo $?"@, none)));
    lemma_echoed(w, code, host, level);
}

proof fn lemma_plain_code(n: int)
    ensures
        syntax::is_plain(text::signed_decimal(n)),
        text::signed_decimal(n).len() > 0,
        text::is_digit(text::signed_decimal(n).last()),
{
    let digits = if n < 0 {
        text::decimal((-n) as nat)
    } else {
        text::decimal(n as nat)
    };
    text::lemma_number_of_decimal(if n < 0 {
        (-n) as nat
    } else {
        n as nat
    });
    let s = text::signed_decimal(n);
    assert(text::is_digit(digits[digits.len() - 1]));
    assert(s.last() == digits.last());
    assert forall|i: int| 0 <= i < s.len() implies #[trigger] s[i] != '>' && s[i] != '|' && s[i]
        != '&' && s[i] != ';' by {
        if n < 0 {
            if i > 0 {
                assert(s[i] == digits[i - 1]);
                assert(text::is_digit(digits[i - 1]));
            }
        } else {
            assert(text::is_digit(digits[i]));
        }
    }
}

proof fn lemma_echoed<FS: Filesystem>(
    v: env::EnvView<FS>,
    word: Seq<char>,
    host: Services<FS>,
    level: nat,
)
    requires
        word.len() > 0,
        text::is_digit(word.last()),
        syntax::is_plain(word),
    ensures
        words_ran(v, Seq::empty(), seq!["echo"@, word], host, level) == (
            with_vars(v.write_line(word), v.vars.insert("?"@, text::signed_decimal(0))),
            Ok::<int, env::ErrorView>(0),
        ),
{
    let none = Seq::<(Seq<char>, Seq<char>)>::empty();
    let args = seq!["echo"@, word];
    reveal_strlit("echo");
    reveal_strlit("cd");
    reveal_strlit("set");
    reveal_strlit("unset");
    reveal_strlit("export");
    reveal_strlit("-n");
    reveal_strlit("\\c");
    assert(syntax::is_plain("echo"@));
    syntax::lemma_plain_is_no_mark("echo"@);
    syntax::lemma_plain_is_no_mark(word);
    assert forall|j: int| 0 <= j < args.len() implies !syntax::is_mark(#[trigger] args[j]) by {
        assert(args[j] == "echo"@ || args[j] == word);
    }
    syntax::lemma_plain_command(args);
    let p = syntax::PipelineView {
        commands: seq![args],
        redirect_stdout: None,
        redirect_stderr: None,
    };
    let link = syntax::LinkView { pipeline: p, next_op: None };
    let links = seq![link];
    assert(assignment_words(none) + args =~= args);
    assert(p.commands.update(0, args) =~= p.commands);
    assert(with_assignments(links, none) =~= links);
    syntax::lemma_assignment("echo"@);
    assert(syntax::assignment("echo"@) is None) by {
        if let Some((name, value)) = syntax::assignment("echo"@) {
            assert("echo"@[name.len() as int] == '=');
        }
    }
    assert(syntax::leading(args, 0) == 0);
    assert(args.skip(0) =~= args);
    assert(syntax::assignments(args, 0) =~= none);
    builtins::lemma_listed_is_found(8);
    assert(builtins::lookup("echo"@) == Some(Builtin::Echo));
    assert("echo"@ != "cd"@ && "echo"@ != "set"@ && "echo"@ != "unset"@ && "echo"@ != "export"@) by {
        assert("echo"@[0] == 'e');
        assert("echo"@[1] == 'c');
        assert("cd"@.len() == 2);
        assert("set"@.len() == 3);
        assert("unset"@.len() == 5);
        assert("export"@.len() == 6);
    }
    let c = child(
        v,
        args,
        v.vars.union_prefer_right(vars::pairs_map(none)),
        None,
        false,
        ErrorStream::Inherited,
    );
    let words = args.skip(1);
    assert(words =~= seq![word]);
    assert(word != "-n"@) by {
        assert("-n"@.last() == 'n');
    }
    assert(!text::ends_with(word, "\\c"@)) by {
        if text::ends_with(word, "\\c"@) {
            assert(word.skip(word.len() - 2)[1] == word.last());
        }
    }
    echo::lemma_plain_words(words);
    assert(text::join(words, " "@) == word);
    assert(builtins::ran(Builtin::Echo, c, host) == (
        c.write_line(word),
        Ok::<int, env::ErrorView>(0),
    ));
    let w = v.write_line(word);
    assert(command_ran(v, args, none, None, None, host, level) == (w, Ok::<int, env::ErrorView>(0)));
    assert(single_ran(v, p, host, level) == (w, Ok::<int, env::ErrorView>(0)));
    assert(pipeline_ran(v, p, host, level) == (w, Ok::<int, env::ErrorView>(0)));
    assert(chain_ran(w, links, 1, 0, host, level) == (w, Ok::<int, env::ErrorView>(0)));
    assert(chain_ran(v, links, 0, 0, host, level) == (w, Ok::<int, env::ErrorView>(0)));
}

/// A variable that was set has its value, and no other variable changes.
pub proof fn lemma_set<FS>(v: env::EnvView<FS>, name: Seq<char>, value: Seq<char>)
    requires
        !name.contains('='),
    ensures
        set_from(v, seq!["set"@, name + seq!['='] + value], 1) == (
            with_vars(v, v.vars.insert(name, value)),
            0int,
        ),
{
    lemma_halves(name, value);
    reveal_with_fuel(set_from, 2);
}

proof fn lemma_halves(name: Seq<char>, value: Seq<char>)
    requires
        !name.contains('='),
    ensures
        syntax::halves(name + seq!['='] + value) == Some((name, value)),
{
    let s = name + seq!['='] + value;
    assert forall|i: int| 0 <= i < name.len() implies s[i] != '=' by {
        assert(s[i] == name[i]);
        assert(name.contains(name[i]));
    }
    assert(s[name.len() as int] == '=');
    text::find_from_unique(s, '=', 0, name.len() as int);
    assert(s.take(name.len() as int) =~= name);
    assert(s.skip(name.len() as int + 1) =~= value);
}

/// A variable that was exported by its name alone has left the shell for the environment, with its
/// value.
pub proof fn lemma_export_moves<FS>(v: env::EnvView<FS>, name: Seq<char>)
    requires
        !name.contains('='),
        v.vars.dom().contains(name),
    ensures
        value_of(exported(v, name).env, name) == Some(v.vars[name]),
        value_of(exported(v, name).vars, name) is None,
{
    text::find_from_bounds(name, '=', 0);
    if syntax::halves(name) is Some {
        let k = text::find_from(name, '=', 0);
        assert(name.contains(name[k]));
    }
}

/// A variable that was removed is set neither in the shell nor in the environment.
pub proof fn lemma_unset<FS>(v: env::EnvView<FS>, args: Seq<Seq<char>>, i: int, k: int)
    requires
        0 <= i <= k < args.len(),
    ensures
        value_of(unset_from(v, args, i).vars, args[k]) is None,
        value_of(unset_from(v, args, i).env, args[k]) is None,
    decreases args.len() - i,
{
    let w = with_env(with_vars(v, v.vars.remove(args[i])), v.env.remove(args[i]));
    if i < k {
        lemma_unset(w, args, i + 1, k);
    } else {
        lemma_unset_keeps(w, args, i + 1, args[k]);
    }
}

proof fn lemma_unset_keeps<FS>(
    v: env::EnvView<FS>,
    args: Seq<Seq<char>>,
    i: int,
    name: Seq<char>,
)
    requires
        !v.vars.dom().contains(name),
        !v.env.dom().contains(name),
    ensures
        !unset_from(v, args, i).vars.dom().contains(name),
        !unset_from(v, args, i).env.dom().contains(name),
    decreases args.len() - i,
{
    if 0 <= i < args.len() {
        let w = with_env(with_vars(v, v.vars.remove(args[i])), v.env.remove(args[i]));
        lemma_unset_keeps(w, args, i + 1, name);
    }
}

/// A script that was told to end runs no further line.
pub proof fn lemma_exit_ends_script<FS: Filesystem>(
    v: env::EnvView<FS>,
    lines: Seq<Seq<char>>,
    i: int,
    last: int,
    host: Services<FS>,
    level: nat,
)
    requires
        v.exit_signaled,
    ensures
        lines_ran(v, lines, i, last, host, level) == (v, Ok::<int, env::ErrorView>(last)),
{
}

/// Empty lines and comments do nothing.
pub proof fn lemma_comments_do_nothing<FS: Filesystem>(
    v: env::EnvView<FS>,
    lines: Seq<Seq<char>>,
    i: int,
    last: int,
    host: Services<FS>,
    level: nat,
)
    requires
        0 <= i <= lines.len(),
        forall|j: int| i <= j < lines.len() ==> is_passed(text::trim(#[trigger] lines[j])),
    ensures
        lines_ran(v, lines, i, last, host, level) == (v, Ok::<int, env::ErrorView>(last)),
    decreases lines.len() - i,
{
    if i < lines.len() {
        lemma_comments_do_nothing(v, lines, i + 1, last, host, level);
    }
}

/// A script in two parts does what the first part does, and then, unless that failed, what the
/// second part does.
pub proof fn lemma_script_in_parts<FS: Filesystem>(
    v: env::EnvView<FS>,
    a: Seq<Seq<char>>,
    b: Seq<Seq<char>>,
    i: int,
    last: int,
    host: Services<FS>,
    level: nat,
)
    requires
        0 <= i <= a.len(),
    ensures
        lines_ran(v, a + b, i, last, host, level) == (match lines_ran(v, a, i, last, host, level) {
            (w, Err(e)) => (w, Err(e)),
            (w, Ok(code)) => lines_ran(w, b, 0, code, host, level),
        }),
    decreases a.len() - i,
{
    if i < a.len() {
        if !v.exit_signaled {
            assert((a + b)[i] == a[i]);
            let line = text::trim(a[i]);
            if is_passed(line) {
                lemma_script_in_parts(v, a, b, i + 1, last, host, level);
            } else if let (w, Ok(code)) = line_ran(v, line, host, level) {
                lemma_script_in_parts(w, a, b, i + 1, code, host, level);
            }
        }
    } else {
        lemma_lines_shifted(v, a, b, 0, last, host, level);
    }
}

proof fn lemma_lines_shifted<FS: Filesystem>(
    v: env::EnvView<FS>,
    a: Seq<Seq<char>>,
    b: Seq<Seq<char>>,
    j: int,
    last: int,
    host: Services<FS>,
    level: nat,
)
    requires
        0 <= j <= b.len(),
    ensures
        lines_ran(v, a + b, a.len() + j, last, host, level) == lines_ran(
            v,
            b,
            j,
            last,
            host,
            level,
        ),
    decreases b.len() - j,
{
    if j < b.len() && !v.exit_signaled {
        assert((a + b)[a.len() + j] == b[j]);
        let line = text::trim(b[j]);
        if is_passed(line) {
            lemma_lines_shifted(v, a, b, j + 1, last, host, level);
        } else if let (w, Ok(code)) = line_ran(v, line, host, level) {
            lemma_lines_shifted(w, a, b, j + 1, code, host, level);
        }
    }
}

/// Whether filesystems of a kind keep files: reading changes none, what was written is read again,
/// and writing one file changes no other.
pub open spec fn keeps_files<FS: Filesystem>() -> bool {
    &&& forall|s: FS, p: Seq<char>, q: Seq<char>| #[trigger]
        s.after(fs::Request::Read(q)).reads(p) == s.reads(p)
    &&& forall|s: FS, p: Seq<char>, t: Seq<char>|
        s.writes(p, t) is Ok ==> (#[trigger] s.after(fs::Request::Write(p, t))).reads(p) == Ok::<
            Seq<char>,
            fs::IoView,
        >(t)
    &&& forall|s: FS, p: Seq<char>, q: Seq<char>, t: Seq<char>|
        p != q ==> #[trigger] s.after(fs::Request::Write(p, t)).reads(q) == s.reads(q)
}

/// What a file holds; nothing where it cannot be read.
pub open spec fn held<FS: Filesystem>(s: FS, path: Seq<char>) -> Seq<char> {
    match s.reads(path) {
        Ok(t) => t,
        Err(_) => Seq::empty(),
    }
}

/// `> file` leaves in the file what is stored, and `>> file` what the file held before and, behind
/// that, what is stored. The file is the one that the name stands for in the working directory, and
/// no other file changes.
pub proof fn lemma_redirected_file<FS: Filesystem>(
    v: env::EnvView<FS>,
    cwd: Seq<Seq<char>>,
    names: Seq<Seq<char>>,
    from_root: bool,
    mode: RedirectMode,
    s: Seq<char>,
    other: Seq<char>,
)
    requires
        keeps_files::<FS>(),
        paths::plain(cwd),
        paths::plain(names),
        v.cwd == paths::rooted(cwd),
    ensures
        ({
            let target = if from_root {
                paths::rooted(names)
            } else {
                paths::slashed(names)
            };
            let path = if from_root {
                paths::rooted(names)
            } else {
                paths::rooted(cwd + names)
            };
            let (w, r) = stored(v, syntax::RedirectView { target, mode }, s);
            &&& r is Ok ==> held(w.fs, path) == if mode == RedirectMode::Append {
                held(v.fs, path) + s
            } else {
                s
            }
            &&& r is Ok ==> w.fs.reads(path) is Ok
            &&& other != path ==> w.fs.reads(other) == v.fs.reads(other)
            &&& w.out == v.out && w.err == v.err && w.vars == v.vars && w.cwd == v.cwd
        }),
{
    paths::lemma_resolved_names(cwd, names, v.cwd);
    assert(Seq::<char>::empty() + s =~= s);
}

/// What two command lines store in a file one after the other, the second with `>>`, stands in it in
/// that order.
pub proof fn lemma_appended_behind<FS: Filesystem>(
    v: env::EnvView<FS>,
    target: Seq<char>,
    a: Seq<char>,
    b: Seq<char>,
)
    requires
        keeps_files::<FS>(),
    ensures
        ({
            let to = syntax::RedirectView { target, mode: RedirectMode::Truncate };
            let behind = syntax::RedirectView { target, mode: RedirectMode::Append };
            let (w, r) = stored(v, to, a);
            let (x, q) = stored(w, behind, b);
            r is Ok && q is Ok ==> x.fs.reads(paths::resolved(v.cwd, target)) == Ok::<
                Seq<char>,
                fs::IoView,
            >(a + b)
        }),
{
}

/// What a command writes goes to the file that its output is redirected to: it is all that the file
/// holds, or stands behind what the command left there. So do its errors.
pub proof fn lemma_command_redirected<FS: Filesystem>(
    v: env::EnvView<FS>,
    args: Seq<Seq<char>>,
    pairs: Seq<(Seq<char>, Seq<char>)>,
    redirect: syntax::RedirectView,
    host: Services<FS>,
    level: nat,
)
    requires
        keeps_files::<FS>(),
        builtins::lookup(args[0]) is Some,
    ensures
        ({
            let b = builtins::lookup(args[0])->0;
            let vars = v.vars.union_prefer_right(vars::pairs_map(pairs));
            let e = run_child(v, b, args, vars, None, true, ErrorStream::Inherited, host, level);
            let f = run_child(v, b, args, vars, None, false, ErrorStream::Captured, host, level);
            let path = paths::resolved(v.cwd, redirect.target);
            let (w, r) = command_ran(v, args, pairs, Some(redirect), None, host, level);
            let (x, q) = command_ran(
                v,
                args,
                pairs,
                None,
                Some(syntax::StderrView::File(redirect)),
                host,
                level,
            );
            &&& r is Ok ==> r == e.outcome && w.fs.reads(path) == Ok::<Seq<char>, fs::IoView>(
                if redirect.mode == RedirectMode::Append {
                    held(e.v.fs, path) + e.out
                } else {
                    e.out
                },
            )
            &&& q is Ok ==> q == f.outcome && x.fs.reads(path) == Ok::<Seq<char>, fs::IoView>(
                if redirect.mode == RedirectMode::Append {
                    held(f.v.fs, path) + f.err
                } else {
                    f.err
                },
            )
        }),
{
    let vars = v.vars.union_prefer_right(vars::pairs_map(pairs));
    let b = builtins::lookup(args[0])->0;
    let e = run_child(v, b, args, vars, None, true, ErrorStream::Inherited, host, level);
    let f = run_child(v, b, args, vars, None, false, ErrorStream::Captured, host, level);
    assert(e.v.cwd == v.cwd && f.v.cwd == v.cwd);
    assert(Seq::<char>::empty() + e.out =~= e.out);
    assert(Seq::<char>::empty() + f.err =~= f.err);
}

/// Of two pipelines with an operator between them the second runs behind `&&` where the first gave
/// the exit code 0, behind `||` where it gave another, and behind `;` always. The exit code is that
/// of the last that ran.
#[verifier::rlimit(60)]
#[verifier::spinoff_prover]
pub proof fn lemma_chain_by_exit_code<FS: Filesystem>(
    v: env::EnvView<FS>,
    first: syntax::PipelineView,
    second: syntax::PipelineView,
    op: ChainOp,
    host: Services<FS>,
    level: nat,
    code: int,
)
    requires
        pipeline_ran(v, first, host, level).1 == Ok::<int, env::ErrorView>(code),
    ensures
        ({
            let list = seq![
                syntax::LinkView { pipeline: first, next_op: Some(op) },
                syntax::LinkView { pipeline: second, next_op: None },
            ];
            let one = pipeline_ran(v, first, host, level);
            let both = pipeline_ran(one.0, second, host, level);
            chain_ran(v, list, 0, 0, host, level) == match op {
                ChainOp::And => if code == 0 {
                    both
                } else {
                    one
                },
                ChainOp::Or => if code == 0 {
                    one
                } else {
                    both
                },
                ChainOp::Always => both,
            }
        }),
{
    let runs = match op {
        ChainOp::And => code == 0,
        ChainOp::Or => code != 0,
        ChainOp::Always => true,
    };
    assert(due(Some(op), code) == runs);
    if runs {
        lemma_chain_goes_on(v, first, second, op, host, level);
    } else {
        lemma_chain_skips(v, first, second, op, host, level);
    }
}

/// The second of two commands with `|` between them reads the lines that the first wrote, and these
/// are not printed. What the second writes is, and its exit code counts. Both see the variables and
/// the working directory of the shell, and neither changes them.
#[verifier::rlimit(60)]
#[verifier::spinoff_prover]
pub proof fn lemma_pipe_feeds<FS: Filesystem>(
    v: env::EnvView<FS>,
    a: Seq<Seq<char>>,
    b: Seq<Seq<char>>,
    x: Builtin,
    y: Builtin,
    host: Services<FS>,
    level: nat,
)
    requires
        !v.merged,
        a.len() > 0,
        b.len() > 0,
        builtins::lookup(a[0]) == Some(x),
        builtins::lookup(b[0]) == Some(y),
        x != Builtin::Sh,
        y != Builtin::Sh,
        builtins::ran(
            x,
            env::EnvView { out: Seq::empty(), args: a, ..v },
            host,
        ).1 is Ok,
    ensures
        ({
            let p = syntax::PipelineView {
                commands: seq![a, b],
                redirect_stdout: None,
                redirect_stderr: None,
            };
            let d = builtins::ran(x, (env::EnvView { out: Seq::empty(), args: a, ..v }), host).0;
            let (e, r) = builtins::ran(
                y,
                (env::EnvView {
                    stdin: text::lines(d.out),
                    out: v.out,
                    merged: false,
                    args: b,
                    vars: v.vars,
                    env: v.env,
                    cwd: v.cwd,
                    ..d
                }),
                host,
            );
            pipeline_ran(v, p, host, level) == (
                (env::EnvView {
                    stdin: d.stdin,
                    merged: false,
                    args: v.args,
                    vars: v.vars,
                    env: v.env,
                    cwd: v.cwd,
                    ..e
                }),
                r,
            )
        }),
{
    let p = syntax::PipelineView {
        commands: seq![a, b],
        redirect_stdout: None,
        redirect_stderr: None,
    };
    assert(p.commands[0] == a && p.commands[1] == b && p.commands.len() == 2);
    let e = run_child(
        v,
        x,
        a,
        v.vars,
        None,
        true,
        ErrorStream::Inherited,
        host,
        level,
    );
    lemma_piped_pair(v, p, a, b, x, y, host, level, e);
}

#[verifier::rlimit(60)]
#[verifier::spinoff_prover]
proof fn lemma_piped_pair<FS: Filesystem>(
    v: env::EnvView<FS>,
    p: syntax::PipelineView,
    a: Seq<Seq<char>>,
    b: Seq<Seq<char>>,
    x: Builtin,
    y: Builtin,
    host: Services<FS>,
    level: nat,
    e: Ended<FS>,
)
    requires
        p.commands == seq![a, b],
        p.redirect_stdout is None,
        p.redirect_stderr is None,
        a.len() > 0,
        b.len() > 0,
        builtins::lookup(a[0]) == Some(x),
        builtins::lookup(b[0]) == Some(y),
        e == run_child(
            v,
            x,
            a,
            v.vars,
            None,
            true,
            ErrorStream::Inherited,
            host,
            level,
        ),
        e.outcome is Ok,
    ensures
        ({
            let f = run_child(
                e.v,
                y,
                b,
                e.v.vars,
                Some(text::lines(e.out)),
                false,
                ErrorStream::Inherited,
                host,
                level,
            );
            pipeline_ran(v, p, host, level) == (f.v, f.outcome)
        }),
{
    reveal_with_fuel(piped_ran, 3);
    assert(p.commands[0] == a && p.commands[1] == b && p.commands.len() == 2);
}

/// With `2>&1` a command writes its errors where it writes its output, in the order in which they
/// come, and all of it is printed; the error stream of the shell gets nothing.
#[verifier::rlimit(60)]
#[verifier::spinoff_prover]
pub proof fn lemma_errors_join_output<FS: Filesystem>(
    v: env::EnvView<FS>,
    args: Seq<Seq<char>>,
    b: Builtin,
    host: Services<FS>,
    level: nat,
)
    requires
        builtins::lookup(args[0]) == Some(b),
        b != Builtin::Sh,
    ensures
        ({
            let c = env::EnvView { out: Seq::empty(), err: Seq::empty(), merged: true, args, ..v };
            let (d, r) = builtins::ran(b, c, host);
            let (w, s) = command_ran(
                v,
                args,
                Seq::empty(),
                None,
                Some(syntax::StderrView::ToStdout),
                host,
                level,
            );
            &&& s == r
            &&& w.err == v.err
            &&& r is Ok ==> w.out == v.out + text::unlines(text::lines(d.out))
            &&& w.fs == d.fs
            &&& w.cwd == v.cwd
            &&& w.vars == v.vars
        }),
{
    let none = Seq::<(Seq<char>, Seq<char>)>::empty();
    assert(vars::pairs_map(none) =~= Map::empty());
    assert(v.vars.union_prefer_right(vars::pairs_map(none)) =~= v.vars);
}

/// `cd` moves to the directory that its argument stands for in the present one, and changes nothing
/// else of the shell. It fails, with the exit code 1 and a message, where there is no such directory,
/// and then moves nowhere.
pub proof fn lemma_cd<FS: Filesystem>(
    v: env::EnvView<FS>,
    target: Seq<char>,
    more: Seq<Seq<char>>,
)
    requires
        !v.merged,
        forall|s: FS, p: Seq<char>, q: Seq<char>|
            (#[trigger] s.after(fs::Request::Exists(q)).has_dir(p)) == s.has_dir(p),
    ensures
        ({
            let path = paths::resolved(v.cwd, target);
            let (w, code) = moved(v, seq![seq!['c', 'd'], target] + more);
            &&& code == 0 || code == 1
            &&& code == 0 <==> v.fs.has(path) && v.fs.has_dir(path)
            &&& w.cwd == if code == 0 {
                path
            } else {
                v.cwd
            }
            &&& w.out == v.out
            &&& w.vars == v.vars
            &&& w.env == v.env
            &&& w.stdin == v.stdin
            &&& code == 0 <==> w.err == v.err
        }),
{
    let args = seq![seq!['c', 'd'], target] + more;
    assert(args[1] == target);
    let (w, code) = moved(v, args);
    if code == 1 {
        assert(w.err.len() > v.err.len());
    }
}

/// `cd` without an argument moves to the home directory: the one that the environment names, or else
/// the one that a variable of the shell names. Where neither does it fails.
pub proof fn lemma_cd_home<FS: Filesystem>(v: env::EnvView<FS>)
    ensures
        ({
            let home = seq!['H', 'O', 'M', 'E'];
            let cd = seq!['c', 'd'];
            &&& v.env.dom().contains(home) ==> moved(v, seq![cd]) == moved(
                v,
                seq![cd, v.env[home]],
            )
            &&& !v.env.dom().contains(home) && v.vars.dom().contains(home) ==> moved(v, seq![cd])
                == moved(v, seq![cd, v.vars[home]])
            &&& !v.env.dom().contains(home) && !v.vars.dom().contains(home) ==> moved(
                v,
                seq![cd],
            ).1 == 1 && moved(v, seq![cd]).0.cwd == v.cwd
        }),
{
    reveal_strlit("HOME");
    assert("HOME"@ =~= seq!['H', 'O', 'M', 'E']);
}

/// A name on a command line stands for the value assigned before the command, the later of two; or
/// else for that of the variable of the shell, or else for that in the environment.
pub proof fn lemma_visible_values<FS>(
    v: env::EnvView<FS>,
    list: Seq<(Seq<char>, Seq<char>)>,
    name: Seq<char>,
    value: Seq<char>,
)
    ensures
        visible(v, list.push((name, value)))[name] == value,
        visible(v, list.push((name, value))).dom().contains(name),
        (forall|i: int| 0 <= i < list.len() ==> #[trigger] list[i].0 != name) ==> {
            &&& v.vars.dom().contains(name) ==> visible(v, list)[name] == v.vars[name]
            &&& !v.vars.dom().contains(name) && v.env.dom().contains(name) ==> visible(
                v,
                list,
            )[name] == v.env[name]
            &&& visible(v, list).dom().contains(name) <==> v.vars.dom().contains(name)
                || v.env.dom().contains(name)
        },
{
    let more = list.push((name, value));
    assert(more.drop_last() =~= list);
    assert(vars::pairs_map(more) == vars::pairs_map(list).insert(name, value));
    if forall|i: int| 0 <= i < list.len() ==> #[trigger] list[i].0 != name {
        lemma_not_among(list, name);
    }
}

proof fn lemma_not_among(list: Seq<(Seq<char>, Seq<char>)>, name: Seq<char>)
    requires
        forall|i: int| 0 <= i < list.len() ==> #[trigger] list[i].0 != name,
    ensures
        !vars::pairs_map(list).dom().contains(name),
    decreases list.len(),
{
    if list.len() > 0 {
        let init = list.drop_last();
        assert forall|i: int| 0 <= i < init.len() implies #[trigger] init[i].0 != name by {
            assert(init[i] == list[i]);
        }
        assert(list[list.len() - 1].0 != name);
        lemma_not_among(init, name);
    }
}

/// `export NAME=VALUE` puts the value into the environment, in place of one there and of a variable
/// of the shell, and changes nothing under another name. A name alone that no variable has does
/// nothing.
pub proof fn lemma_export_assigns<FS>(
    v: env::EnvView<FS>,
    name: Seq<char>,
    value: Seq<char>,
    other: Seq<char>,
)
    requires
        !name.contains('='),
        other != name,
    ensures
        ({
            let w = exported(v, name + seq!['='] + value);
            &&& value_of(w.env, name) == Some(value)
            &&& value_of(w.vars, name) is None
            &&& value_of(w.env, other) == value_of(v.env, other)
            &&& value_of(w.vars, other) == value_of(v.vars, other)
            &&& w.out == v.out
            &&& w.err == v.err
        }),
        value_of(v.vars, name) is None ==> exported(v, name) == v,
{
    lemma_halves(name, value);
    text::find_from_bounds(name, '=', 0);
    if syntax::halves(name) is Some {
        let k = text::find_from(name, '=', 0);
        assert(name.contains(name[k]));
    }
}

/// `unset` leaves alone what it does not name.
pub proof fn lemma_unset_leaves_others<FS>(
    v: env::EnvView<FS>,
    args: Seq<Seq<char>>,
    i: int,
    other: Seq<char>,
)
    requires
        0 <= i,
        forall|k: int| i <= k < args.len() ==> #[trigger] args[k] != other,
    ensures
        value_of(unset_from(v, args, i).vars, other) == value_of(v.vars, other),
        value_of(unset_from(v, args, i).env, other) == value_of(v.env, other),
        unset_from(v, args, i).out == v.out,
    decreases args.len() - i,
{
    if i < args.len() {
        let w = with_env(with_vars(v, v.vars.remove(args[i])), v.env.remove(args[i]));
        assert(args[i] != other);
        lemma_unset_leaves_others(w, args, i + 1, other);
    }
}

} // verus!
