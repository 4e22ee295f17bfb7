//! The grammar of a command line: pipelines joined by `&&`, `||` and `;`, commands joined by `|`,
//! assignments and redirections.

use crate::env::Error;
use crate::env;
use crate::fs::{ErrorKind, IoError};
use crate::fs;
use crate::text;
use vstd::prelude::*;

verus! {

broadcast use vstd::string::group_string_axioms;

// ---------------------------------------------------------------------------------------------
// Assignments
// ---------------------------------------------------------------------------------------------

/// Whether a character may stand in the name of a variable.
pub open spec fn is_name_char(c: char) -> bool {
    text::is_letter(c) || text::is_digit(c) || c == '_'
}

/// Whether a text is the name of a variable: letters, digits and underscores, and no digit first.
pub open spec fn is_var_name(s: Seq<char>) -> bool {
    s.len() > 0 && !text::is_digit(s[0]) && forall|i: int|
        0 <= i < s.len() ==> is_name_char(#[trigger] s[i])
}

/// Checks if a string is a valid shell variable name.
///
/// A valid variable name starts with a letter or underscore, and contains only letters, digits, and
/// underscores.
pub fn is_valid_var_name(name: &str) -> (r: bool)
    ensures
        r == is_var_name(name@),
{
    let v = text::chars(name);
    if v.len() == 0 || text::digit(v[0]) {
        return false;
    }
    let mut i: usize = 0;
    while i < v.len()
        invariant
            i <= v@.len(),
            v@ == name@,
            forall|j: int| 0 <= j < i ==> is_name_char(#[trigger] v@[j]),
        decreases v.len() - i,
    {
        let c = v[i];
        if !(text::letter(c) || text::digit(c) || c == '_') {
            assert(!is_name_char(name@[i as int]));
            return false;
        }
        i += 1;
    }
    true
}

/// What stands before and behind the first `=`.
pub open spec fn halves(s: Seq<char>) -> Option<(Seq<char>, Seq<char>)> {
    let k = text::find_from(s, '=', 0);
    if k < s.len() {
        Some((s.take(k), s.skip(k + 1)))
    } else {
        None
    }
}

pub open spec fn pair_text(r: Option<(String, String)>) -> Option<(Seq<char>, Seq<char>)> {
    match r {
        Some((a, b)) => Some((a@, b@)),
        None => None,
    }
}

/// Splits a string at its first `=`.
pub fn split_at_equals(s: &str) -> (r: Option<(String, String)>)
    ensures
        pair_text(r) == halves(s@),
{
    let v = text::chars(s);
    let k = text::find(&v, '=', 0);
    if k >= v.len() {
        return None;
    }
    let a = text::slice(&v, 0, k);
    let b = text::slice(&v, k + 1, v.len());
    assert(a@ =~= s@.take(k as int));
    assert(b@ =~= s@.skip(k + 1));
    Some((a, b))
}

/// The name and the value of an assignment.
pub open spec fn assignment(s: Seq<char>) -> Option<(Seq<char>, Seq<char>)> {
    match halves(s) {
        Some((name, value)) => if is_var_name(name) {
            Some((name, value))
        } else {
            None
        },
        None => None,
    }
}

/// Checks if a string is a variable assignment (NAME=value).
///
/// Returns the name and the value if it's a valid assignment, None otherwise.
pub fn parse_assignment(s: &str) -> (r: Option<(String, String)>)
    ensures
        pair_text(r) == assignment(s@),
{
    match split_at_equals(s) {
        Some((name, value)) => if is_valid_var_name(name.as_str()) {
            Some((name, value))
        } else {
            None
        },
        None => None,
    }
}

/// The number of assignments from `i` on before the first text that is none.
pub open spec fn leading(args: Seq<Seq<char>>, i: int) -> int
    decreases args.len() - i,
{
    if 0 <= i < args.len() && assignment(args[i]) is Some {
        1 + leading(args, i + 1)
    } else {
        0
    }
}

/// The first `n` texts as assignments.
pub open spec fn assignments(args: Seq<Seq<char>>, n: int) -> Seq<(Seq<char>, Seq<char>)> {
    Seq::new(n as nat, |i: int| assignment(args[i])->0)
}

/// The assignments that stand before the first text that is none.
pub fn leading_assignments(args: &Vec<String>) -> (r: Vec<(String, String)>)
    ensures
        r@.len() == leading(args.deep_view(), 0),
        r@.len() <= args@.len(),
        r.deep_view() == assignments(args.deep_view(), leading(args.deep_view(), 0)),
{
    let ghost shown = args.deep_view();
    let mut out: Vec<(String, String)> = Vec::new();
    let mut i: usize = 0;
    while i < args.len()
        invariant
            i <= args@.len(),
            shown == args.deep_view(),
            out@.len() == i,
            leading(shown, 0) == i + leading(shown, i as int),
            forall|j: int| 0 <= j < i ==> assignment(shown[j]) == Some(#[trigger] out.deep_view()[j]),
        decreases args.len() - i,
    {
        match parse_assignment(args[i].as_str()) {
            Some((name, value)) => {
                let ghost before = out.deep_view();
                out.push((name, value));
                assert(out.deep_view() =~= before.push((name@, value@)));
            },
            None => {
                assert(out.deep_view() =~= assignments(shown, leading(shown, 0)));
                return out;
            },
        }
        i += 1;
    }
    assert(out.deep_view() =~= assignments(shown, leading(shown, 0)));
    out
}

// ---------------------------------------------------------------------------------------------
// Redirections
// ---------------------------------------------------------------------------------------------

/// Type of output redirection.
#[derive(Debug, Clone, Copy, PartialEq, Eq, Structural)]
pub enum RedirectMode {
    /// Truncate and write (>).
    Truncate,
    /// Append (>>).
    Append,
}

/// Output redirection specification.
#[derive(Debug)]
pub struct OutputRedirect {
    /// The file to redirect to.
    pub target: String,
    /// Whether to truncate or append.
    pub mode: RedirectMode,
}

/// The mathematical counterpart of `OutputRedirect`.
pub ghost struct RedirectView {
    pub target: Seq<char>,
    pub mode: RedirectMode,
}

impl View for OutputRedirect {
    type V = RedirectView;

    open spec fn view(&self) -> RedirectView {
        RedirectView { target: self.target@, mode: self.mode }
    }
}

/// Stderr redirection specification.
#[derive(Debug)]
pub enum StderrRedirect {
    /// Redirect stderr to a file (2> or 2>>).
    File(OutputRedirect),
    /// Redirect stderr to stdout (2>&1).
    ToStdout,
}

/// The mathematical counterpart of `StderrRedirect`.
pub ghost enum StderrView {
    File(RedirectView),
    ToStdout,
}

impl View for StderrRedirect {
    type V = StderrView;

    open spec fn view(&self) -> StderrView {
        match self {
            StderrRedirect::File(o) => StderrView::File(o@),
            StderrRedirect::ToStdout => StderrView::ToStdout,
        }
    }
}

pub open spec fn opt_redirect(o: Option<OutputRedirect>) -> Option<RedirectView> {
    match o {
        Some(r) => Some(r@),
        None => None,
    }
}

pub open spec fn opt_stderr(o: Option<StderrRedirect>) -> Option<StderrView> {
    match o {
        Some(r) => Some(r@),
        None => None,
    }
}

/// What is wrong with a command line.
pub open spec fn syntax_error(message: Seq<char>) -> env::ErrorView {
    env::ErrorView::Io(
        fs::IoView {
            kind: ErrorKind::InvalidInput,
            message,
            details: "Custom { kind: InvalidInput, error: \""@ + message + "\" }"@,
        },
    )
}

fn make_syntax_error(message: &str) -> (r: Error)
    ensures
        r@ == syntax_error(message@),
{
    let mut details = "Custom { kind: InvalidInput, error: \"".to_owned();
    details.append(message);
    details.append("\" }");
    Error::Io(IoError { kind: ErrorKind::InvalidInput, message: message.to_owned(), details })
}

/// Where the first text from `i` on stands that has a property, or the number of texts.
pub open spec fn first_where(
    args: Seq<Seq<char>>,
    p: spec_fn(Seq<char>) -> bool,
    i: int,
) -> int
    decreases args.len() - i,
{
    if i < 0 || i >= args.len() {
        args.len() as int
    } else if p(args[i]) {
        i
    } else {
        first_where(args, p, i + 1)
    }
}

/// Whether a text is an operator that redirects output to the file named next.
pub open spec fn is_out_operator(s: Seq<char>) -> bool {
    s == ">>"@ || s == ">"@
}

/// The redirection that a text is in itself: an operator with a name behind it.
pub open spec fn out_attached(s: Seq<char>) -> Option<RedirectView> {
    if text::starts_with(s, ">>"@) {
        if s.len() > 2 {
            Some(RedirectView { target: s.skip(2), mode: RedirectMode::Append })
        } else {
            None
        }
    } else if text::starts_with(s, ">"@) && s.len() > 1 {
        Some(RedirectView { target: s.skip(1), mode: RedirectMode::Truncate })
    } else {
        None
    }
}

/// What is left of a command once its output redirection was taken out of it, and that redirection.
pub open spec fn out_extracted(args: Seq<Seq<char>>) -> Result<
    (Seq<Seq<char>>, Option<RedirectView>),
    env::ErrorView,
> {
    let i = first_where(args, |s: Seq<char>| is_out_operator(s), 0);
    let j = first_where(args, |s: Seq<char>| out_attached(s) is Some, 0);
    if i < args.len() {
        if i + 1 < args.len() {
            Ok(
                (
                    args.remove(i + 1).remove(i),
                    Some(
                        RedirectView {
                            target: args[i + 1],
                            mode: if args[i] == ">>"@ {
                                RedirectMode::Append
                            } else {
                                RedirectMode::Truncate
                            },
                        },
                    ),
                ),
            )
        } else {
            Err(
                syntax_error(
                    if args[i] == ">>"@ {
                        "syntax error: no file after >>"@
                    } else {
                        "syntax error: no file after >"@
                    },
                ),
            )
        }
    } else if j < args.len() {
        Ok((args.remove(j), out_attached(args[j])))
    } else {
        Ok((args, None))
    }
}

fn find_out_operator(args: &Vec<String>) -> (r: usize)
    ensures
        r <= args@.len(),
        r == first_where(args.deep_view(), |s: Seq<char>| is_out_operator(s), 0),
{
    let ghost p = |s: Seq<char>| is_out_operator(s);
    let ghost shown = args.deep_view();
    let mut i: usize = 0;
    while i < args.len() && !(text::same(args[i].as_str(), ">>") || text::same(
        args[i].as_str(),
        ">",
    ))
        invariant
            i <= args@.len(),
            shown == args.deep_view(),
            p == (|s: Seq<char>| is_out_operator(s)),
            first_where(shown, p, i as int) == first_where(shown, p, 0),
        decreases args.len() - i,
    {
        i += 1;
    }
    i
}

fn read_out_attached(s: &str) -> (r: Option<OutputRedirect>)
    ensures
        opt_redirect(r) == out_attached(s@),
{
    proof {
        reveal_strlit(">>");
        reveal_strlit(">");
    }
    let n = text::chars(s).len();
    if text::has_prefix(s, ">>") {
        if n > 2 {
            Some(OutputRedirect { target: text::drop_chars(s, 2), mode: RedirectMode::Append })
        } else {
            None
        }
    } else if text::has_prefix(s, ">") && n > 1 {
        Some(OutputRedirect { target: text::drop_chars(s, 1), mode: RedirectMode::Truncate })
    } else {
        None
    }
}

pub open spec fn out_result(
    r: Result<Option<OutputRedirect>, Error>,
    left: Seq<Seq<char>>,
) -> Result<(Seq<Seq<char>>, Option<RedirectView>), env::ErrorView> {
    match r {
        Ok(o) => Ok((left, opt_redirect(o))),
        Err(e) => Err(e@),
    }
}

/// Extracts output redirection from command arguments.
///
/// Handles the following forms:
/// - `> file` or `>> file` (operator and file as separate tokens)
/// - `>file` or `>>file` (operator attached to filename)
/// - `arg>` or `arg>>` (operator attached to previous arg - treated as part of arg, not redirection)
///
/// Returns the redirection specification if found, and removes the relevant tokens from args. On an
/// error the arguments stay as they were.
pub fn extract_output_redirection(args: &mut Vec<String>) -> (r: Result<
    Option<OutputRedirect>,
    Error,
>)
    ensures
        out_result(r, final(args).deep_view()) == out_extracted(old(args).deep_view()),
        r is Err ==> final(args)@ == old(args)@,
{
    let ghost shown = args.deep_view();
    let i = find_out_operator(args);
    if i < args.len() {
        let append = text::same(args[i].as_str(), ">>");
        if i + 1 < args.len() {
            let target = args.remove(i + 1);
            assert(args.deep_view() =~= shown.remove(i + 1));
            args.remove(i);
            assert(args.deep_view() =~= shown.remove(i + 1).remove(i as int));
            let mode = if append {
                RedirectMode::Append
            } else {
                RedirectMode::Truncate
            };
            return Ok(Some(OutputRedirect { target, mode }));
        }
        return if append {
            Err(make_syntax_error("syntax error: no file after >>"))
        } else {
            Err(make_syntax_error("syntax error: no file after >"))
        };
    }
    let ghost p = |s: Seq<char>| out_attached(s) is Some;
    let mut j: usize = 0;
    while j < args.len()
        invariant
            j <= args@.len(),
            i == shown.len(),
            i == first_where(shown, |s: Seq<char>| is_out_operator(s), 0),
            shown == args.deep_view(),
            shown == old(args).deep_view(),
            p == (|s: Seq<char>| out_attached(s) is Some),
            first_where(shown, p, j as int) == first_where(shown, p, 0),
        decreases args.len() - j,
    {
        if let Some(redirect) = read_out_attached(args[j].as_str()) {
            args.remove(j);
            assert(args.deep_view() =~= shown.remove(j as int));
            return Ok(Some(redirect));
        }
        j += 1;
    }
    Ok(None)
}

/// Whether a text is an operator that redirects errors to the file named next.
pub open spec fn is_err_operator(s: Seq<char>) -> bool {
    s == "2>>"@ || s == "2>"@
}

/// The redirection of errors that a text is in itself.
pub open spec fn err_attached(s: Seq<char>) -> Option<StderrView> {
    if text::starts_with(s, "2>>"@) {
        if s.len() > 3 {
            Some(StderrView::File(RedirectView { target: s.skip(3), mode: RedirectMode::Append }))
        } else {
            None
        }
    } else if text::starts_with(s, "2>&1"@) {
        Some(StderrView::ToStdout)
    } else if text::starts_with(s, "2>"@) && s.len() > 2 {
        Some(StderrView::File(RedirectView { target: s.skip(2), mode: RedirectMode::Truncate }))
    } else {
        None
    }
}

/// What is left of a command once its redirection of errors was taken out of it, and that
/// redirection.
pub open spec fn err_extracted(args: Seq<Seq<char>>) -> Result<
    (Seq<Seq<char>>, Option<StderrView>),
    env::ErrorView,
> {
    let k = first_where(args, |s: Seq<char>| s == "2>&1"@, 0);
    let i = first_where(args, |s: Seq<char>| is_err_operator(s), 0);
    let j = first_where(args, |s: Seq<char>| err_attached(s) is Some, 0);
    if k < args.len() {
        Ok((args.remove(k), Some(StderrView::ToStdout)))
    } else if i < args.len() {
        if i + 1 < args.len() {
            Ok(
                (
                    args.remove(i + 1).remove(i),
                    Some(
                        StderrView::File(
                            RedirectView {
                                target: args[i + 1],
                                mode: if args[i] == "2>>"@ {
                                    RedirectMode::Append
                                } else {
                                    RedirectMode::Truncate
                                },
                            },
                        ),
                    ),
                ),
            )
        } else {
            Err(
                syntax_error(
                    if args[i] == "2>>"@ {
                        "syntax error: no file after 2>>"@
                    } else {
                        "syntax error: no file after 2>"@
                    },
                ),
            )
        }
    } else if j < args.len() {
        Ok((args.remove(j), err_attached(args[j])))
    } else {
        Ok((args, None))
    }
}

fn find_err_to_out(args: &Vec<String>) -> (r: usize)
    ensures
        r <= args@.len(),
        r == first_where(args.deep_view(), |s: Seq<char>| s == "2>&1"@, 0),
{
    let ghost p = |s: Seq<char>| s == "2>&1"@;
    let ghost shown = args.deep_view();
    let mut i: usize = 0;
    while i < args.len() && !text::same(args[i].as_str(), "2>&1")
        invariant
            i <= args@.len(),
            shown == args.deep_view(),
            p == (|s: Seq<char>| s == "2>&1"@),
            first_where(shown, p, i as int) == first_where(shown, p, 0),
        decreases args.len() - i,
    {
        i += 1;
    }
    i
}

fn find_err_operator(args: &Vec<String>) -> (r: usize)
    ensures
        r <= args@.len(),
        r == first_where(args.deep_view(), |s: Seq<char>| is_err_operator(s), 0),
{
    let ghost p = |s: Seq<char>| is_err_operator(s);
    let ghost shown = args.deep_view();
    let mut i: usize = 0;
    while i < args.len() && !(text::same(args[i].as_str(), "2>>") || text::same(
        args[i].as_str(),
        "2>",
    ))
        invariant
            i <= args@.len(),
            shown == args.deep_view(),
            p == (|s: Seq<char>| is_err_operator(s)),
            first_where(shown, p, i as int) == first_where(shown, p, 0),
        decreases args.len() - i,
    {
        i += 1;
    }
    i
}

fn read_err_attached(s: &str) -> (r: Option<StderrRedirect>)
    ensures
        opt_stderr(r) == err_attached(s@),
{
    proof {
        reveal_strlit("2>>");
        reveal_strlit("2>");
    }
    let n = text::chars(s).len();
    if text::has_prefix(s, "2>>") {
        if n > 3 {
            Some(
                StderrRedirect::File(
                    OutputRedirect { target: text::drop_chars(s, 3), mode: RedirectMode::Append },
                ),
            )
        } else {
            None
        }
    } else if text::has_prefix(s, "2>&1") {
        Some(StderrRedirect::ToStdout)
    } else if text::has_prefix(s, "2>") && n > 2 {
        Some(
            StderrRedirect::File(
                OutputRedirect { target: text::drop_chars(s, 2), mode: RedirectMode::Truncate },
            ),
        )
    } else {
        None
    }
}

pub open spec fn err_result(
    r: Result<Option<StderrRedirect>, Error>,
    left: Seq<Seq<char>>,
) -> Result<(Seq<Seq<char>>, Option<StderrView>), env::ErrorView> {
    match r {
        Ok(o) => Ok((left, opt_stderr(o))),
        Err(e) => Err(e@),
    }
}

/// Extracts stderr redirection from command arguments.
///
/// Handles the following forms:
/// - `2>&1` (redirect stderr to stdout)
/// - `2>file` or `2>>file` (redirect stderr to a file)
/// - `2> file` or `2>> file` (operator and file as separate tokens)
///
/// Returns the redirection specification if found, and removes the relevant tokens from args. On an
/// error the arguments stay as they were.
pub fn extract_stderr_redirection(args: &mut Vec<String>) -> (r: Result<
    Option<StderrRedirect>,
    Error,
>)
    ensures
        err_result(r, final(args).deep_view()) == err_extracted(old(args).deep_view()),
        r is Err ==> final(args)@ == old(args)@,
{
    let ghost shown = args.deep_view();
    let k = find_err_to_out(args);
    if k < args.len() {
        args.remove(k);
        assert(args.deep_view() =~= shown.remove(k as int));
        return Ok(Some(StderrRedirect::ToStdout));
    }
    let i = find_err_operator(args);
    if i < args.len() {
        let append = text::same(args[i].as_str(), "2>>");
        if i + 1 < args.len() {
            let target = args.remove(i + 1);
            assert(args.deep_view() =~= shown.remove(i + 1));
            args.remove(i);
            assert(args.deep_view() =~= shown.remove(i + 1).remove(i as int));
            let mode = if append {
                RedirectMode::Append
            } else {
                RedirectMode::Truncate
            };
            return Ok(Some(StderrRedirect::File(OutputRedirect { target, mode })));
        }
        return if append {
            Err(make_syntax_error("syntax error: no file after 2>>"))
        } else {
            Err(make_syntax_error("syntax error: no file after 2>"))
        };
    }
    let ghost p = |s: Seq<char>| err_attached(s) is Some;
    let mut j: usize = 0;
    while j < args.len()
        invariant
            j <= args@.len(),
            k == shown.len(),
            k == first_where(shown, |s: Seq<char>| s == "2>&1"@, 0),
            i == shown.len(),
            i == first_where(shown, |s: Seq<char>| is_err_operator(s), 0),
            shown == args.deep_view(),
            shown == old(args).deep_view(),
            p == (|s: Seq<char>| err_attached(s) is Some),
            first_where(shown, p, j as int) == first_where(shown, p, 0),
        decreases args.len() - j,
    {
        if let Some(redirect) = read_err_attached(args[j].as_str()) {
            args.remove(j);
            assert(args.deep_view() =~= shown.remove(j as int));
            return Ok(Some(redirect));
        }
        j += 1;
    }
    Ok(None)
}

// ---------------------------------------------------------------------------------------------
// Pipelines
// ---------------------------------------------------------------------------------------------

/// A pipeline is a sequence of commands connected by pipes.
#[derive(Debug)]
pub struct Pipeline {
    /// Commands in the pipeline, executed left-to-right with stdout->stdin connections.
    pub commands: Vec<Vec<String>>,
    /// Output redirection target, if any (from `>` or `>>`).
    pub redirect_stdout: Option<OutputRedirect>,
    /// Stderr redirection, if any (from `2>`, `2>>`, or `2>&1`).
    pub redirect_stderr: Option<StderrRedirect>,
}

/// The mathematical counterpart of `Pipeline`.
pub ghost struct PipelineView {
    pub commands: Seq<Seq<Seq<char>>>,
    pub redirect_stdout: Option<RedirectView>,
    pub redirect_stderr: Option<StderrView>,
}

impl View for Pipeline {
    type V = PipelineView;

    open spec fn view(&self) -> PipelineView {
        PipelineView {
            commands: self.commands.deep_view(),
            redirect_stdout: opt_redirect(self.redirect_stdout),
            redirect_stderr: opt_stderr(self.redirect_stderr),
        }
    }
}

/// The commands that the texts from `i` on end with: `|` parts them, and nothing between two `|`
/// is no command. `current` is the command that was begun, `done` are those before it.
pub open spec fn cut(
    args: Seq<Seq<char>>,
    i: int,
    current: Seq<Seq<char>>,
    done: Seq<Seq<Seq<char>>>,
) -> Seq<Seq<Seq<char>>>
    decreases args.len() - i,
{
    if i < 0 || i >= args.len() {
        if current.len() > 0 {
            done.push(current)
        } else {
            done
        }
    } else if args[i] == "|"@ {
        cut(
            args,
            i + 1,
            Seq::empty(),
            if current.len() > 0 {
                done.push(current)
            } else {
                done
            },
        )
    } else {
        cut(args, i + 1, current.push(args[i]), done)
    }
}

/// The commands in a list of texts.
pub fn split_commands(args: &Vec<String>) -> (r: Vec<Vec<String>>)
    ensures
        r.deep_view() == cut(args.deep_view(), 0, Seq::empty(), Seq::empty()),
{
    let ghost shown = args.deep_view();
    let mut done: Vec<Vec<String>> = Vec::new();
    let mut current: Vec<String> = Vec::new();
    let mut i: usize = 0;
    assert(done.deep_view() =~= Seq::<Seq<Seq<char>>>::empty());
    assert(current.deep_view() =~= Seq::<Seq<char>>::empty());
    while i < args.len()
        invariant
            i <= args@.len(),
            shown == args.deep_view(),
            cut(shown, i as int, current.deep_view(), done.deep_view()) == cut(
                shown,
                0,
                Seq::empty(),
                Seq::empty(),
            ),
        decreases args.len() - i,
    {
        let ghost before = current.deep_view();
        let ghost finished = done.deep_view();
        if text::same(args[i].as_str(), "|") {
            if current.len() > 0 {
                done.push(current);
                current = Vec::new();
                assert(done.deep_view() =~= finished.push(before));
            }
            assert(current.deep_view() =~= Seq::<Seq<char>>::empty());
        } else {
            let arg = args[i].clone();
            current.push(arg);
            assert(current.deep_view() =~= before.push(shown[i as int]));
        }
        i += 1;
    }
    let ghost before = current.deep_view();
    let ghost finished = done.deep_view();
    if current.len() > 0 {
        done.push(current);
        assert(done.deep_view() =~= finished.push(before));
    }
    done
}

/// The pipeline that a list of texts is: redirections are taken out of its last command.
pub open spec fn pipeline(args: Seq<Seq<char>>) -> Result<PipelineView, env::ErrorView> {
    let commands = cut(args, 0, Seq::empty(), Seq::empty());
    if commands.len() == 0 {
        Ok(PipelineView { commands, redirect_stdout: None, redirect_stderr: None })
    } else {
        match out_extracted(commands.last()) {
            Err(e) => Err(e),
            Ok((a, redirect_stdout)) => match err_extracted(a) {
                Err(e) => Err(e),
                Ok((b, redirect_stderr)) => Ok(
                    PipelineView {
                        commands: commands.drop_last().push(b),
                        redirect_stdout,
                        redirect_stderr,
                    },
                ),
            },
        }
    }
}

pub open spec fn pipeline_result(r: Result<Pipeline, Error>) -> Result<
    PipelineView,
    env::ErrorView,
> {
    match r {
        Ok(p) => Ok(p@),
        Err(e) => Err(e@),
    }
}

/// Parses arguments into a pipeline (commands separated by |).
///
/// Also extracts output redirection (`>`) from the last command.
pub fn parse_pipeline(args: &Vec<String>) -> (r: Result<Pipeline, Error>)
    ensures
        pipeline_result(r) == pipeline(args.deep_view()),
{
    let mut commands = split_commands(args);
    let ghost all = commands.deep_view();
    match commands.pop() {
        None => {
            assert(commands.deep_view() =~= all);
            Ok(Pipeline { commands, redirect_stdout: None, redirect_stderr: None })
        },
        Some(last) => {
            assert(commands.deep_view() =~= all.drop_last());
            assert(last.deep_view() == all.last());
            let mut last = last;
            let redirect_stdout = match extract_output_redirection(&mut last) {
                Ok(o) => o,
                Err(e) => {
                    return Err(e);
                },
            };
            let redirect_stderr = match extract_stderr_redirection(&mut last) {
                Ok(o) => o,
                Err(e) => {
                    return Err(e);
                },
            };
            commands.push(last);
            assert(commands.deep_view() =~= all.drop_last().push(last.deep_view()));
            Ok(Pipeline { commands, redirect_stdout, redirect_stderr })
        },
    }
}

// ---------------------------------------------------------------------------------------------
// Chains
// ---------------------------------------------------------------------------------------------

/// Operator between pipelines in a chain.
#[derive(Debug, Clone, Copy, PartialEq, Eq, Structural)]
pub enum ChainOp {
    /// Execute next pipeline only if previous succeeded (&&).
    And,
    /// Execute next pipeline only if previous failed (||).
    Or,
    /// Execute next pipeline unconditionally (;).
    Always,
}

/// A pipeline in a chain with its following operator.
#[derive(Debug)]
pub struct ChainedPipeline {
    /// The pipeline to execute.
    pub pipeline: Pipeline,
    /// Operator to next pipeline, if any.
    pub next_op: Option<ChainOp>,
}

/// The mathematical counterpart of `ChainedPipeline`.
pub ghost struct LinkView {
    pub pipeline: PipelineView,
    pub next_op: Option<ChainOp>,
}

impl View for ChainedPipeline {
    type V = LinkView;

    open spec fn view(&self) -> LinkView {
        LinkView { pipeline: self.pipeline@, next_op: self.next_op }
    }
}

pub open spec fn links(v: Seq<ChainedPipeline>) -> Seq<LinkView> {
    Seq::new(v.len(), |i: int| v[i]@)
}

/// The operator that a text is.
pub open spec fn operator(s: Seq<char>) -> Option<ChainOp> {
    if s == "&&"@ {
        Some(ChainOp::And)
    } else if s == "||"@ {
        Some(ChainOp::Or)
    } else if s == ";"@ {
        Some(ChainOp::Always)
    } else {
        None
    }
}

fn read_operator(s: &str) -> (r: Option<ChainOp>)
    ensures
        r == operator(s@),
{
    if text::same(s, "&&") {
        Some(ChainOp::And)
    } else if text::same(s, "||") {
        Some(ChainOp::Or)
    } else if text::same(s, ";") {
        Some(ChainOp::Always)
    } else {
        None
    }
}

/// The chain that the texts from `i` on end: operators part pipelines, and an operator with nothing
/// before it counts for nothing. `current` is the pipeline that was begun, `done` are those before
/// it.
pub open spec fn chain(
    args: Seq<Seq<char>>,
    i: int,
    current: Seq<Seq<char>>,
    done: Seq<LinkView>,
) -> Result<Seq<LinkView>, env::ErrorView>
    decreases args.len() - i,
{
    if i < 0 || i >= args.len() {
        if current.len() == 0 {
            Ok(done)
        } else {
            match pipeline(current) {
                Err(e) => Err(e),
                Ok(p) => Ok(done.push(LinkView { pipeline: p, next_op: None })),
            }
        }
    } else if operator(args[i]) is None {
        chain(args, i + 1, current.push(args[i]), done)
    } else if current.len() == 0 {
        chain(args, i + 1, current, done)
    } else {
        match pipeline(current) {
            Err(e) => Err(e),
            Ok(p) => chain(
                args,
                i + 1,
                Seq::empty(),
                done.push(LinkView { pipeline: p, next_op: operator(args[i]) }),
            ),
        }
    }
}

pub open spec fn chain_result(r: Result<Vec<ChainedPipeline>, Error>) -> Result<
    Seq<LinkView>,
    env::ErrorView,
> {
    match r {
        Ok(v) => Ok(links(v@)),
        Err(e) => Err(e@),
    }
}

/// Parses a list of arguments into a chain of pipelines separated by && and ||.
///
/// Each pipeline consists of commands separated by |.
pub fn parse_command_chain(args: &Vec<String>) -> (r: Result<Vec<ChainedPipeline>, Error>)
    ensures
        chain_result(r) == chain(args.deep_view(), 0, Seq::empty(), Seq::empty()),
{
    let ghost shown = args.deep_view();
    let mut done: Vec<ChainedPipeline> = Vec::new();
    let mut current: Vec<String> = Vec::new();
    let mut i: usize = 0;
    assert(links(done@) =~= Seq::<LinkView>::empty());
    assert(current.deep_view() =~= Seq::<Seq<char>>::empty());
    while i < args.len()
        invariant
            i <= args@.len(),
            shown == args.deep_view(),
            chain(shown, i as int, current.deep_view(), links(done@)) == chain(
                args.deep_view(),
                0,
                Seq::empty(),
                Seq::empty(),
            ),
        decreases args.len() - i,
    {
        let ghost before = current.deep_view();
        let ghost finished = links(done@);
        match read_operator(args[i].as_str()) {
            None => {
                let arg = args[i].clone();
                current.push(arg);
                assert(current.deep_view() =~= before.push(shown[i as int]));
            },
            Some(op) => {
                if current.len() > 0 {
                    let pipeline = match parse_pipeline(&current) {
                        Ok(p) => p,
                        Err(e) => {
                            return Err(e);
                        },
                    };
                    done.push(ChainedPipeline { pipeline, next_op: Some(op) });
                    assert(links(done@) =~= finished.push(
                        LinkView { pipeline: pipeline@, next_op: Some(op) },
                    ));
                    current = Vec::new();
                    assert(current.deep_view() =~= Seq::<Seq<char>>::empty());
                }
            },
        }
        i += 1;
    }
    let ghost finished = links(done@);
    if current.len() > 0 {
        let pipeline = match parse_pipeline(&current) {
            Ok(p) => p,
            Err(e) => {
                return Err(e);
            },
        };
        done.push(ChainedPipeline { pipeline, next_op: None });
        assert(links(done@) =~= finished.push(LinkView { pipeline: pipeline@, next_op: None }));
    }
    Ok(done)
}

// ---------------------------------------------------------------------------------------------
// Laws
// ---------------------------------------------------------------------------------------------

/// An assignment is its name, `=` and its value, and the name is one of a variable.
pub proof fn lemma_assignment(s: Seq<char>)
    ensures
        assignment(s) matches Some((name, value)) ==> is_var_name(name) && s == name + seq!['=']
            + value,
{
    let k = text::find_from(s, '=', 0);
    text::find_from_bounds(s, '=', 0);
    if k < s.len() {
        assert(s =~= s.take(k) + seq!['='] + s.skip(k + 1));
    }
}

/// Whether a text has a meaning of its own in the grammar.
pub open spec fn is_mark(s: Seq<char>) -> bool {
    operator(s) is Some || s == "|"@ || is_out_operator(s) || out_attached(s) is Some || s
        == "2>&1"@ || is_err_operator(s) || err_attached(s) is Some
}

/// Whether a text is a word with no meaning of its own, by its characters alone.
pub open spec fn is_plain(s: Seq<char>) -> bool {
    forall|i: int|
        0 <= i < s.len() ==> #[trigger] s[i] != '>' && s[i] != '|' && s[i] != '&' && s[i] != ';'
}

/// A text has a meaning of its own only by one of four characters.
pub proof fn lemma_plain_is_no_mark(s: Seq<char>)
    requires
        is_plain(s),
    ensures
        !is_mark(s),
{
    reveal_strlit("&&");
    reveal_strlit("||");
    reveal_strlit(";");
    reveal_strlit("|");
    reveal_strlit(">>");
    reveal_strlit(">");
    reveal_strlit("2>&1");
    reveal_strlit("2>>");
    reveal_strlit("2>");
    if s.len() > 0 {
        assert(s[0] != '>' && s[0] != '|' && s[0] != '&' && s[0] != ';');
        assert(s.take(1)[0] == s[0]);
    }
    if s.len() > 1 {
        assert(s[1] != '>');
        assert(s.take(2)[0] == s[0]);
        assert(s.take(2)[1] == s[1]);
    }
    if s.len() > 2 {
        assert(s.take(3)[1] == s[1]);
    }
    if s.len() > 3 {
        assert(s.take(4)[1] == s[1]);
    }
}

proof fn lemma_no_first(args: Seq<Seq<char>>, p: spec_fn(Seq<char>) -> bool, i: int)
    requires
        0 <= i <= args.len(),
        forall|j: int| 0 <= j < args.len() ==> !p(#[trigger] args[j]),
    ensures
        first_where(args, p, i) == args.len(),
    decreases args.len() - i,
{
    if i < args.len() {
        lemma_no_first(args, p, i + 1);
    }
}

proof fn lemma_one_command(args: Seq<Seq<char>>, i: int)
    requires
        0 <= i <= args.len(),
        args.len() > 0,
        forall|j: int| 0 <= j < args.len() ==> #[trigger] args[j] != "|"@,
    ensures
        cut(args, i, args.take(i), Seq::empty()) == seq![args],
    decreases args.len() - i,
{
    if i < args.len() {
        assert(args.take(i).push(args[i]) =~= args.take(i + 1));
        lemma_one_command(args, i + 1);
    } else {
        assert(args.take(i) =~= args);
        assert(Seq::<Seq<Seq<char>>>::empty().push(args) =~= seq![args]);
    }
}

proof fn lemma_one_pipeline(args: Seq<Seq<char>>, i: int)
    requires
        0 <= i <= args.len(),
        args.len() > 0,
        forall|j: int| 0 <= j < args.len() ==> operator(#[trigger] args[j]) is None,
    ensures
        chain(args, i, args.take(i), Seq::empty()) == (match pipeline(args) {
            Err(e) => Err::<Seq<LinkView>, env::ErrorView>(e),
            Ok(p) => Ok(seq![LinkView { pipeline: p, next_op: None }]),
        }),
    decreases args.len() - i,
{
    if i < args.len() {
        assert(args.take(i).push(args[i]) =~= args.take(i + 1));
        lemma_one_pipeline(args, i + 1);
    } else {
        assert(args.take(i) =~= args);
        if let Ok(p) = pipeline(args) {
            let link = LinkView { pipeline: p, next_op: None };
            assert(Seq::<LinkView>::empty().push(link) =~= seq![link]);
        }
    }
}

/// Words none of which has a meaning of its own are one command, with all of them as its arguments
/// and nothing redirected.
pub proof fn lemma_plain_command(args: Seq<Seq<char>>)
    requires
        args.len() > 0,
        forall|j: int| 0 <= j < args.len() ==> !is_mark(#[trigger] args[j]),
    ensures
        chain(args, 0, Seq::empty(), Seq::empty()) == Ok::<Seq<LinkView>, env::ErrorView>(
            seq![
                LinkView {
                    pipeline: PipelineView {
                        commands: seq![args],
                        redirect_stdout: None,
                        redirect_stderr: None,
                    },
                    next_op: None,
                },
            ],
        ),
{
    assert(args.take(0) =~= Seq::<Seq<char>>::empty());
    lemma_one_pipeline(args, 0);
    lemma_one_command(args, 0);
    lemma_no_first(args, |s: Seq<char>| is_out_operator(s), 0);
    lemma_no_first(args, |s: Seq<char>| out_attached(s) is Some, 0);
    lemma_no_first(args, |s: Seq<char>| s == "2>&1"@, 0);
    lemma_no_first(args, |s: Seq<char>| is_err_operator(s), 0);
    lemma_no_first(args, |s: Seq<char>| err_attached(s) is Some, 0);
    let commands = cut(args, 0, Seq::empty(), Seq::empty());
    assert(commands == seq![args]);
    assert(commands.drop_last().push(args) =~= seq![args]);
}

/// Whether no command is empty.
pub open spec fn none_empty(commands: Seq<Seq<Seq<char>>>) -> bool {
    forall|j: int| 0 <= j < commands.len() ==> (#[trigger] commands[j]).len() > 0
}

/// No command that is cut out of a list of texts is empty.
pub proof fn lemma_no_empty_command(
    args: Seq<Seq<char>>,
    i: int,
    current: Seq<Seq<char>>,
    done: Seq<Seq<Seq<char>>>,
)
    requires
        none_empty(done),
    ensures
        none_empty(cut(args, i, current, done)),
    decreases args.len() - i,
{
    let more = if current.len() > 0 {
        done.push(current)
    } else {
        done
    };
    assert forall|j: int| 0 <= j < more.len() implies (#[trigger] more[j]).len() > 0 by {
        if j < done.len() {
            assert(more[j] == done[j]);
        }
    }
    if 0 <= i < args.len() {
        if args[i] == "|"@ {
            lemma_no_empty_command(args, i + 1, Seq::empty(), more);
        } else {
            lemma_no_empty_command(args, i + 1, current.push(args[i]), done);
        }
    }
}

/// Whether all texts are words with no meaning of their own.
pub open spec fn all_plain(args: Seq<Seq<char>>) -> bool {
    forall|j: int| 0 <= j < args.len() ==> is_plain(#[trigger] args[j])
}

proof fn lemma_first_at(args: Seq<Seq<char>>, p: spec_fn(Seq<char>) -> bool, i: int, k: int)
    requires
        0 <= i <= k < args.len(),
        p(args[k]),
        forall|j: int| i <= j < k ==> !p(#[trigger] args[j]),
    ensures
        first_where(args, p, i) == k,
    decreases k - i,
{
    if i < k {
        lemma_first_at(args, p, i + 1, k);
    }
}

proof fn lemma_no_redirection(args: Seq<Seq<char>>)
    requires
        all_plain(args),
    ensures
        out_extracted(args) == Ok::<(Seq<Seq<char>>, Option<RedirectView>), env::ErrorView>(
            (args, None),
        ),
        err_extracted(args) == Ok::<(Seq<Seq<char>>, Option<StderrView>), env::ErrorView>(
            (args, None),
        ),
{
    assert forall|j: int| 0 <= j < args.len() implies !is_mark(#[trigger] args[j]) by {
        lemma_plain_is_no_mark(args[j]);
    }
    lemma_no_first(args, |s: Seq<char>| is_out_operator(s), 0);
    lemma_no_first(args, |s: Seq<char>| out_attached(s) is Some, 0);
    lemma_no_first(args, |s: Seq<char>| s == "2>&1"@, 0);
    lemma_no_first(args, |s: Seq<char>| is_err_operator(s), 0);
    lemma_no_first(args, |s: Seq<char>| err_attached(s) is Some, 0);
}

proof fn lemma_without_pipe(args: Seq<Seq<char>>)
    requires
        args.len() > 0,
        forall|j: int| 0 <= j < args.len() ==> #[trigger] args[j] != "|"@,
    ensures
        cut(args, 0, Seq::empty(), Seq::empty()) == seq![args],
{
    assert(args.take(0) =~= Seq::<Seq<char>>::empty());
    lemma_one_command(args, 0);
}

/// `> file` and `>> file` anywhere among the words of a command, in two words or in one, are taken
/// out of it: its output then goes to that file, in place of what it holds or behind that.
pub proof fn lemma_output_redirection(
    before: Seq<Seq<char>>,
    file: Seq<char>,
    after: Seq<Seq<char>>,
    append: bool,
    apart: bool,
)
    requires
        all_plain(before),
        all_plain(after),
        is_plain(file),
        file.len() > 0,
    ensures
        ({
            let operator = if append {
                seq!['>', '>']
            } else {
                seq!['>']
            };
            let words = if apart {
                seq![operator, file]
            } else {
                seq![operator + file]
            };
            pipeline(before + words + after) == Ok::<PipelineView, env::ErrorView>(
                PipelineView {
                    commands: seq![before + after],
                    redirect_stdout: Some(
                        RedirectView {
                            target: file,
                            mode: if append {
                                RedirectMode::Append
                            } else {
                                RedirectMode::Truncate
                            },
                        },
                    ),
                    redirect_stderr: None,
                },
            )
        }),
{
    reveal_strlit(">>");
    reveal_strlit(">");
    reveal_strlit("|");
    let operator = if append {
        seq!['>', '>']
    } else {
        seq!['>']
    };
    assert(">>"@ =~= seq!['>', '>']);
    assert(">"@ =~= seq!['>']);
    assert("|"@[0] == '|');
    let words = if apart {
        seq![operator, file]
    } else {
        seq![operator + file]
    };
    let args = before + words + after;
    let k = before.len() as int;
    assert forall|j: int| 0 <= j < k implies !is_mark(#[trigger] args[j]) by {
        assert(args[j] == before[j]);
        lemma_plain_is_no_mark(before[j]);
    }
    let tail = k + words.len();
    assert forall|j: int| tail <= j < args.len() implies !is_mark(#[trigger] args[j]) by {
        assert(args[j] == after[j - tail]);
        lemma_plain_is_no_mark(after[j - tail]);
    }
    lemma_plain_is_no_mark(file);
    let whole = operator + file;
    assert(file[0] != '>');
    assert(">"@ != ">>"@) by {
        assert(">"@.len() == 1);
    }
    if apart {
        assert(args[k] == operator && args[k + 1] == file);
        assert(operator[0] == '>');
        lemma_first_at(args, |s: Seq<char>| is_out_operator(s), 0, k);
        assert(args.remove(k + 1).remove(k) =~= before + after);
    } else {
        assert(args[k] == whole);
        assert(whole[0] == '>');
        lemma_attached(file, append);
        lemma_no_first(args, |s: Seq<char>| is_out_operator(s), 0);
        lemma_first_at(args, |s: Seq<char>| out_attached(s) is Some, 0, k);
        assert(args.remove(k) =~= before + after);
    }
    assert forall|j: int| 0 <= j < args.len() implies #[trigger] args[j] != "|"@ by {
        if j == k {
            assert(args[j][0] == '>');
        }
    }
    lemma_without_pipe(args);
    assert forall|j: int| 0 <= j < (before + after).len() implies is_plain(
        #[trigger] (before + after)[j],
    ) by {
        if j < k {
            assert((before + after)[j] == before[j]);
        } else {
            assert((before + after)[j] == after[j - k]);
        }
    }
    lemma_no_redirection(before + after);
    let commands = cut(args, 0, Seq::empty(), Seq::empty());
    assert(commands.last() == args);
    assert(commands.drop_last().push(before + after) =~= seq![before + after]);
}

proof fn lemma_attached(file: Seq<char>, append: bool)
    requires
        is_plain(file),
        file.len() > 0,
    ensures
        ({
            let s = if append {
                seq!['>', '>'] + file
            } else {
                seq!['>'] + file
            };
            &&& !is_out_operator(s)
            &&& out_attached(s) == Some(
                RedirectView {
                    target: file,
                    mode: if append {
                        RedirectMode::Append
                    } else {
                        RedirectMode::Truncate
                    },
                },
            )
        }),
{
    reveal_strlit(">>");
    reveal_strlit(">");
    assert(">>"@ =~= seq!['>', '>']);
    assert(">"@ =~= seq!['>']);
    assert(file[0] != '>');
    if append {
        let s = seq!['>', '>'] + file;
        assert(s.take(2) =~= seq!['>', '>']);
        assert(s.skip(2) =~= file);
    } else {
        let s = seq!['>'] + file;
        assert(s.take(1) =~= seq!['>']);
        assert(s.skip(1) =~= file);
        assert(s[1] == file[0]);
        assert(s.take(2)[1] == s[1]);
    }
}

proof fn lemma_err_attached(file: Seq<char>, append: bool)
    requires
        is_plain(file),
        file.len() > 0,
    ensures
        ({
            let s = if append {
                seq!['2', '>', '>'] + file
            } else {
                seq!['2', '>'] + file
            };
            &&& s != "2>&1"@
            &&& !is_err_operator(s)
            &&& err_attached(s) == Some(
                StderrView::File(
                    RedirectView {
                        target: file,
                        mode: if append {
                            RedirectMode::Append
                        } else {
                            RedirectMode::Truncate
                        },
                    },
                ),
            )
        }),
{
    reveal_strlit("2>>");
    reveal_strlit("2>");
    reveal_strlit("2>&1");
    assert("2>>"@ =~= seq!['2', '>', '>']);
    assert("2>"@ =~= seq!['2', '>']);
    assert("2>&1"@ =~= seq!['2', '>', '&', '1']);
    assert(file[0] != '>' && file[0] != '&');
    if append {
        let s = seq!['2', '>', '>'] + file;
        assert(s.take(3) =~= seq!['2', '>', '>']);
        assert(s.skip(3) =~= file);
        assert(s[2] == '>');
    } else {
        let s = seq!['2', '>'] + file;
        assert(s.take(2) =~= seq!['2', '>']);
        assert(s.skip(2) =~= file);
        assert(s[2] == file[0]);
        assert(s.take(3)[2] == s[2]);
        if s.len() >= 4 {
            assert(s.take(4)[2] == s[2]);
        }
    }
}

proof fn lemma_err_words_are_no_out(s: Seq<char>)
    requires
        s.len() > 0,
        s[0] == '2',
    ensures
        !is_out_operator(s),
        out_attached(s) is None,
        s != "|"@,
{
    reveal_strlit(">>");
    reveal_strlit(">");
    reveal_strlit("|");
    assert(s.take(1)[0] == '2');
    if s.len() > 1 {
        assert(s.take(2)[0] == '2');
    }
}

/// `2> file` and `2>> file` anywhere among the words of a command, in two words or in one, are taken
/// out of it: its errors then go to that file, in place of what it holds or behind that.
pub proof fn lemma_error_redirection(
    before: Seq<Seq<char>>,
    file: Seq<char>,
    after: Seq<Seq<char>>,
    append: bool,
    apart: bool,
)
    requires
        all_plain(before),
        all_plain(after),
        is_plain(file),
        file.len() > 0,
    ensures
        ({
            let operator = if append {
                seq!['2', '>', '>']
            } else {
                seq!['2', '>']
            };
            let words = if apart {
                seq![operator, file]
            } else {
                seq![operator + file]
            };
            pipeline(before + words + after) == Ok::<PipelineView, env::ErrorView>(
                PipelineView {
                    commands: seq![before + after],
                    redirect_stdout: None,
                    redirect_stderr: Some(
                        StderrView::File(
                            RedirectView {
                                target: file,
                                mode: if append {
                                    RedirectMode::Append
                                } else {
                                    RedirectMode::Truncate
                                },
                            },
                        ),
                    ),
                },
            )
        }),
{
    reveal_strlit("2>>");
    reveal_strlit("2>");
    reveal_strlit("2>&1");
    let operator = if append {
        seq!['2', '>', '>']
    } else {
        seq!['2', '>']
    };
    assert("2>>"@ =~= seq!['2', '>', '>']);
    assert("2>"@ =~= seq!['2', '>']);
    assert("2>"@ != "2>>"@) by {
        assert("2>"@.len() == 2);
    }
    let words = if apart {
        seq![operator, file]
    } else {
        seq![operator + file]
    };
    let args = before + words + after;
    let k = before.len() as int;
    let tail = k + words.len();
    assert forall|j: int| 0 <= j < k implies !is_mark(#[trigger] args[j]) by {
        assert(args[j] == before[j]);
        lemma_plain_is_no_mark(before[j]);
    }
    assert forall|j: int| tail <= j < args.len() implies !is_mark(#[trigger] args[j]) by {
        assert(args[j] == after[j - tail]);
        lemma_plain_is_no_mark(after[j - tail]);
    }
    lemma_plain_is_no_mark(file);
    let whole = operator + file;
    assert(whole[0] == '2' && operator[0] == '2');
    lemma_err_words_are_no_out(whole);
    lemma_err_words_are_no_out(operator);
    if apart {
        assert(args[k] == operator && args[k + 1] == file);
        assert(operator != "2>&1"@) by {
            assert("2>&1"@.len() == 4);
        }
        lemma_first_at(args, |s: Seq<char>| is_err_operator(s), 0, k);
        assert(args.remove(k + 1).remove(k) =~= before + after);
    } else {
        assert(args[k] == whole);
        lemma_err_attached(file, append);
        lemma_no_first(args, |s: Seq<char>| is_err_operator(s), 0);
        lemma_first_at(args, |s: Seq<char>| err_attached(s) is Some, 0, k);
        assert(args.remove(k) =~= before + after);
    }
    lemma_no_first(args, |s: Seq<char>| s == "2>&1"@, 0);
    lemma_no_first(args, |s: Seq<char>| is_out_operator(s), 0);
    lemma_no_first(args, |s: Seq<char>| out_attached(s) is Some, 0);
    lemma_without_pipe(args);
    let commands = cut(args, 0, Seq::empty(), Seq::empty());
    assert(commands.last() == args);
    assert(commands.drop_last().push(before + after) =~= seq![before + after]);
}

/// `2>&1` anywhere among the words of a command is taken out of it: its errors then go where its
/// output goes.
pub proof fn lemma_errors_to_output(before: Seq<Seq<char>>, after: Seq<Seq<char>>)
    requires
        all_plain(before),
        all_plain(after),
    ensures
        pipeline(before + seq![seq!['2', '>', '&', '1']] + after) == Ok::<
            PipelineView,
            env::ErrorView,
        >(
            PipelineView {
                commands: seq![before + after],
                redirect_stdout: None,
                redirect_stderr: Some(StderrView::ToStdout),
            },
        ),
{
    reveal_strlit("2>&1");
    let word = seq!['2', '>', '&', '1'];
    assert("2>&1"@ =~= word);
    let args = before + seq![word] + after;
    let k = before.len() as int;
    assert(args[k] == word && word[0] == '2');
    lemma_err_words_are_no_out(word);
    assert forall|j: int| 0 <= j < k implies !is_mark(#[trigger] args[j]) by {
        assert(args[j] == before[j]);
        lemma_plain_is_no_mark(before[j]);
    }
    assert forall|j: int| k < j < args.len() implies !is_mark(#[trigger] args[j]) by {
        assert(args[j] == after[j - k - 1]);
        lemma_plain_is_no_mark(after[j - k - 1]);
    }
    lemma_first_at(args, |s: Seq<char>| s == "2>&1"@, 0, k);
    lemma_no_first(args, |s: Seq<char>| is_out_operator(s), 0);
    lemma_no_first(args, |s: Seq<char>| out_attached(s) is Some, 0);
    lemma_without_pipe(args);
    assert(args.remove(k) =~= before + after);
    let commands = cut(args, 0, Seq::empty(), Seq::empty());
    assert(commands.last() == args);
    assert(commands.drop_last().push(before + after) =~= seq![before + after]);
}

proof fn lemma_cut_behind(
    args: Seq<Seq<char>>,
    i: int,
    current: Seq<Seq<char>>,
    done: Seq<Seq<Seq<char>>>,
)
    ensures
        cut(args, i, current, done) == done + cut(args, i, current, Seq::empty()),
    decreases args.len() - i,
{
    let none = Seq::<Seq<Seq<char>>>::empty();
    if i < 0 || i >= args.len() {
        assert(done.push(current) =~= done + none.push(current));
        assert(done + none =~= done);
    } else if args[i] == "|"@ {
        if current.len() > 0 {
            lemma_cut_behind(args, i + 1, Seq::empty(), done.push(current));
            lemma_cut_behind(args, i + 1, Seq::empty(), none.push(current));
            let rest = cut(args, i + 1, Seq::empty(), none);
            assert(done.push(current) + rest =~= done + (none.push(current) + rest));
        } else {
            lemma_cut_behind(args, i + 1, Seq::empty(), done);
        }
    } else {
        lemma_cut_behind(args, i + 1, current.push(args[i]), done);
    }
}

proof fn lemma_cut_shifted(
    a: Seq<Seq<char>>,
    b: Seq<Seq<char>>,
    i: int,
    current: Seq<Seq<char>>,
    done: Seq<Seq<Seq<char>>>,
)
    requires
        0 <= i <= b.len(),
    ensures
        cut(a + b, a.len() + i, current, done) == cut(b, i, current, done),
    decreases b.len() - i,
{
    if i < b.len() {
        assert((a + b)[a.len() + i] == b[i]);
        if b[i] == "|"@ {
            let more = if current.len() > 0 {
                done.push(current)
            } else {
                done
            };
            lemma_cut_shifted(a, b, i + 1, Seq::empty(), more);
        } else {
            lemma_cut_shifted(a, b, i + 1, current.push(b[i]), done);
        }
    }
}

proof fn lemma_cut_at_pipe(
    a: Seq<Seq<char>>,
    b: Seq<Seq<char>>,
    i: int,
    current: Seq<Seq<char>>,
    done: Seq<Seq<Seq<char>>>,
)
    requires
        0 <= i <= a.len(),
    ensures
        cut(a + seq![seq!['|']] + b, i, current, done) == cut(
            b,
            0,
            Seq::empty(),
            cut(a, i, current, done),
        ),
    decreases a.len() - i,
{
    reveal_strlit("|");
    assert("|"@ =~= seq!['|']);
    let head = a + seq![seq!['|']];
    let args = head + b;
    let more = if current.len() > 0 {
        done.push(current)
    } else {
        done
    };
    if i < a.len() {
        assert(args[i] == a[i]);
        if a[i] == "|"@ {
            lemma_cut_at_pipe(a, b, i + 1, Seq::empty(), more);
        } else {
            lemma_cut_at_pipe(a, b, i + 1, current.push(a[i]), done);
        }
    } else {
        assert(args[i] == seq!['|']);
        lemma_cut_shifted(head, b, 0, Seq::empty(), more);
        assert(head.len() == i + 1);
    }
}

/// `|` parts commands: the commands of what stands on either side of it come one after another.
pub proof fn lemma_pipe_parts(a: Seq<Seq<char>>, b: Seq<Seq<char>>)
    ensures
        cut(a + seq![seq!['|']] + b, 0, Seq::empty(), Seq::empty()) == cut(
            a,
            0,
            Seq::empty(),
            Seq::empty(),
        ) + cut(b, 0, Seq::empty(), Seq::empty()),
{
    lemma_cut_at_pipe(a, b, 0, Seq::empty(), Seq::empty());
    lemma_cut_behind(b, 0, Seq::empty(), cut(a, 0, Seq::empty(), Seq::empty()));
}

proof fn lemma_chain_behind(
    args: Seq<Seq<char>>,
    i: int,
    current: Seq<Seq<char>>,
    done: Seq<LinkView>,
)
    ensures
        chain(args, i, current, done) == (match chain(args, i, current, Seq::empty()) {
            Ok(links) => Ok::<Seq<LinkView>, env::ErrorView>(done + links),
            Err(e) => Err(e),
        }),
    decreases args.len() - i,
{
    let none = Seq::<LinkView>::empty();
    assert(done + none =~= done);
    if i < 0 || i >= args.len() {
        if current.len() > 0 {
            if let Ok(p) = pipeline(current) {
                let link = LinkView { pipeline: p, next_op: None };
                assert(done + none.push(link) =~= done.push(link));
            }
        }
    } else if operator(args[i]) is None {
        lemma_chain_behind(args, i + 1, current.push(args[i]), done);
    } else if current.len() == 0 {
        lemma_chain_behind(args, i + 1, current, done);
    } else if let Ok(p) = pipeline(current) {
        let link = LinkView { pipeline: p, next_op: operator(args[i]) };
        lemma_chain_behind(args, i + 1, Seq::empty(), done.push(link));
        lemma_chain_behind(args, i + 1, Seq::empty(), none.push(link));
        if let Ok(rest) = chain(args, i + 1, Seq::empty(), none) {
            assert(done.push(link) + rest =~= done + (none.push(link) + rest));
        }
    }
}

proof fn lemma_chain_shifted(
    a: Seq<Seq<char>>,
    b: Seq<Seq<char>>,
    i: int,
    current: Seq<Seq<char>>,
    done: Seq<LinkView>,
)
    requires
        0 <= i <= b.len(),
    ensures
        chain(a + b, a.len() + i, current, done) == chain(b, i, current, done),
    decreases b.len() - i,
{
    if i < b.len() {
        assert((a + b)[a.len() + i] == b[i]);
        if operator(b[i]) is None {
            lemma_chain_shifted(a, b, i + 1, current.push(b[i]), done);
        } else if current.len() == 0 {
            lemma_chain_shifted(a, b, i + 1, current, done);
        } else if let Ok(p) = pipeline(current) {
            let link = LinkView { pipeline: p, next_op: operator(b[i]) };
            lemma_chain_shifted(a, b, i + 1, Seq::empty(), done.push(link));
        }
    }
}

proof fn lemma_chain_to_operator(a: Seq<Seq<char>>, rest: Seq<Seq<char>>, i: int)
    requires
        0 <= i <= a.len(),
        forall|j: int| 0 <= j < a.len() ==> operator(#[trigger] a[j]) is None,
    ensures
        chain(a + rest, i, a.take(i), Seq::empty()) == chain(
            a + rest,
            a.len() as int,
            a,
            Seq::empty(),
        ),
    decreases a.len() - i,
{
    if i < a.len() {
        assert((a + rest)[i] == a[i]);
        assert(a.take(i).push(a[i]) =~= a.take(i + 1));
        lemma_chain_to_operator(a, rest, i + 1);
    } else {
        assert(a.take(i) =~= a);
    }
}

/// `&&`, `||` and `;` part pipelines: what stands before the first of them is one pipeline, followed
/// by that operator and by the chain of what stands behind it. What is wrong with the first pipeline
/// counts before what is wrong behind it.
pub proof fn lemma_operator_parts(a: Seq<Seq<char>>, op: ChainOp, b: Seq<Seq<char>>)
    requires
        a.len() > 0,
        forall|j: int| 0 <= j < a.len() ==> operator(#[trigger] a[j]) is None,
    ensures
        ({
            let word = match op {
                ChainOp::And => seq!['&', '&'],
                ChainOp::Or => seq!['|', '|'],
                ChainOp::Always => seq![';'],
            };
            chain(a + seq![word] + b, 0, Seq::empty(), Seq::empty()) == (match (
                pipeline(a),
                chain(b, 0, Seq::empty(), Seq::empty()),
            ) {
                (Err(e), _) => Err::<Seq<LinkView>, env::ErrorView>(e),
                (Ok(_), Err(e)) => Err(e),
                (Ok(p), Ok(links)) => Ok(
                    seq![LinkView { pipeline: p, next_op: Some(op) }] + links,
                ),
            })
        }),
{
    reveal_strlit("&&");
    reveal_strlit("||");
    reveal_strlit(";");
    assert("&&"@ =~= seq!['&', '&']);
    assert("||"@ =~= seq!['|', '|']);
    assert(";"@ =~= seq![';']);
    assert("&&"@[0] == '&' && "||"@[0] == '|' && ";"@[0] == ';');
    let word = match op {
        ChainOp::And => seq!['&', '&'],
        ChainOp::Or => seq!['|', '|'],
        ChainOp::Always => seq![';'],
    };
    assert(operator(word) == Some(op));
    let head = a + seq![word];
    let args = head + b;
    assert(args =~= a + (seq![word] + b));
    assert(a.take(0) =~= Seq::<Seq<char>>::empty());
    lemma_chain_to_operator(a, seq![word] + b, 0);
    assert(args[a.len() as int] == word);
    if let Ok(p) = pipeline(a) {
        let link = LinkView { pipeline: p, next_op: Some(op) };
        assert(Seq::<LinkView>::empty().push(link) =~= seq![link]);
        lemma_chain_shifted(head, b, 0, Seq::empty(), seq![link]);
        lemma_chain_behind(b, 0, Seq::empty(), seq![link]);
    }
}

} // verus!
