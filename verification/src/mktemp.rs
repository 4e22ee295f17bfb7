//! The mktemp builtin: create temporary files or directories.

use crate::env::{Environment, Error, ExitCode};
use crate::env;
use crate::fs::Filesystem;
use crate::fs;
use crate::options::{Arity, OptDef, Parsed};
use crate::options;
use crate::paths;
use vstd::prelude::*;

verus! {

broadcast use vstd::string::group_string_axioms;

/// The options of the command.
pub open spec fn table() -> Seq<OptDef> {
    seq![
        OptDef { short: 'd', long: "directory", arity: Arity::Flag },
        OptDef { short: 'p', long: "tmpdir", arity: Arity::Value },
        OptDef { short: 'q', long: "quiet", arity: Arity::Flag },
        OptDef { short: 't', long: "", arity: Arity::Value },
        OptDef { short: 'u', long: "dry-run", arity: Arity::Flag },
    ]
}

fn build_options() -> (r: Vec<OptDef>)
    ensures
        r@ == table(),
        options::all_declarable(options::definitions(r@)),
{
    let r = vec![
        OptDef { short: 'd', long: "directory", arity: Arity::Flag },
        OptDef { short: 'p', long: "tmpdir", arity: Arity::Value },
        OptDef { short: 'q', long: "quiet", arity: Arity::Flag },
        OptDef { short: 't', long: "", arity: Arity::Value },
        OptDef { short: 'u', long: "dry-run", arity: Arity::Flag },
    ];
    proof {
        reveal_strlit("directory");
        reveal_strlit("tmpdir");
        reveal_strlit("quiet");
        reveal_strlit("");
        reveal_strlit("dry-run");
    }
    r
}

/// The value of a variable, where it is set.
pub open spec fn lookup(m: Map<Seq<char>, Seq<char>>, name: Seq<char>) -> Option<Seq<char>> {
    if m.dom().contains(name) {
        Some(m[name])
    } else {
        None
    }
}

/// The directory that the options name: an empty name stands for the variable `TMPDIR`.
pub open spec fn named_dir<FS>(v: env::EnvView<FS>, p: options::ParsedView) -> Option<Seq<char>> {
    match p.value('p') {
        Some(dir) => if dir.len() == 0 {
            lookup(v.env, "TMPDIR"@)
        } else {
            Some(dir)
        },
        None => None,
    }
}

/// The directory of a template that is made from a prefix: `TMPDIR` comes first unless the options
/// name a directory, and `/tmp` comes last.
pub open spec fn prefix_dir<FS>(v: env::EnvView<FS>, p: options::ParsedView) -> Seq<char> {
    let tmpdir = lookup(v.env, "TMPDIR"@);
    let named = named_dir(v, p);
    if (p.value('p') is None || named is None) && tmpdir is Some {
        tmpdir->0
    } else {
        match named {
            Some(dir) => dir,
            None => "/tmp"@,
        }
    }
}

/// The template that is made from a prefix.
pub open spec fn prefix_template<FS>(v: env::EnvView<FS>, p: options::ParsedView) -> Seq<char> {
    let prefix = match p.value('t') {
        Some(s) => s,
        None => "tmp"@,
    };
    paths::unslashed(prefix_dir(v, p)) + "/"@ + prefix + ".XXXXXXXXXX"@
}

/// The template that an argument stands for: without `-t` it lies in the directory that the options
/// name.
pub open spec fn argument_template<FS>(
    v: env::EnvView<FS>,
    p: options::ParsedView,
    arg: Seq<char>,
) -> Seq<char> {
    match named_dir(v, p) {
        Some(dir) => if p.present('t') {
            arg
        } else {
            paths::child(dir, arg)
        },
        None => arg,
    }
}

/// The templates: one made from a prefix where `-t` asks for it or no argument is there, and one
/// for each of the first `n` arguments.
pub open spec fn templates<FS>(v: env::EnvView<FS>, p: options::ParsedView, n: int) -> Seq<
    Seq<char>,
>
    decreases n,
{
    if n <= 0 {
        if p.present('t') || p.free.len() == 0 {
            seq![prefix_template(v, p)]
        } else {
            Seq::empty()
        }
    } else {
        templates(v, p, n - 1).push(argument_template(v, p, p.free[n - 1]))
    }
}

fn read_named_dir<FS>(env: &Environment<FS>, p: &Parsed) -> (r: Option<String>)
    ensures
        options::opt_text(r) == named_dir(env@, p@),
{
    match p.value('p') {
        Some(dir) => if dir.as_str().is_empty() {
            env.env.get("TMPDIR")
        } else {
            Some(dir)
        },
        None => None,
    }
}

fn read_prefix_template<FS>(env: &Environment<FS>, p: &Parsed) -> (r: String)
    ensures
        r@ == prefix_template(env@, p@),
{
    let named = read_named_dir(env, p);
    let first = match (p.value('p'), &named) {
        (Some(_), Some(_)) => None,
        _ => env.env.get("TMPDIR"),
    };
    let dir = match first {
        Some(dir) => dir,
        None => match named {
            Some(dir) => dir,
            None => "/tmp".to_owned(),
        },
    };
    let prefix = match p.value('t') {
        Some(s) => s,
        None => "tmp".to_owned(),
    };
    let mut t = paths::trim_slashes(dir.as_str());
    t.append("/");
    t.append(prefix.as_str());
    t.append(".XXXXXXXXXX");
    t
}

/// The templates that the options and arguments ask for.
pub fn read_templates<FS>(env: &Environment<FS>, p: &Parsed) -> (r: Vec<String>)
    ensures
        r.deep_view() == templates(env@, p@, p@.free.len() as int),
{
    let tflag = p.present('t');
    let named = read_named_dir(env, p);
    let mut out: Vec<String> = Vec::new();
    assert(out.deep_view() =~= Seq::<Seq<char>>::empty());
    if tflag || p.free.len() == 0 {
        let t = read_prefix_template(env, p);
        out.push(t);
        assert(out.deep_view() =~= seq![t@]);
    }
    let mut i: usize = 0;
    while i < p.free.len()
        invariant
            i <= p.free@.len(),
            tflag == p@.present('t'),
            options::opt_text(named) == named_dir(env@, p@),
            out.deep_view() == templates(env@, p@, i as int),
        decreases p.free.len() - i,
    {
        let ghost shown = out.deep_view();
        let arg = p.free[i].as_str();
        let t = match &named {
            Some(dir) => if tflag {
                arg.to_owned()
            } else {
                paths::child_path(dir.as_str(), arg)
            },
            None => arg.to_owned(),
        };
        out.push(t);
        assert(out.deep_view() =~= shown.push(t@));
        i += 1;
    }
    out
}

pub open spec fn path_result(r: Result<String, String>) -> Result<Seq<char>, Seq<char>> {
    match r {
        Ok(s) => Ok(s@),
        Err(m) => Err(m@),
    }
}

/// What creating a temporary file comes to: its path, or why there is none.
pub open spec fn file_created<FS: Filesystem>(
    v: env::EnvView<FS>,
    template: Seq<char>,
    unlink: bool,
) -> (env::EnvView<FS>, Result<Seq<char>, Seq<char>>) {
    let w = v.asked(fs::Request::Mkstemp(template));
    match v.fs.mkstemps(template) {
        Err(e) => (
            w,
            Err("mkstemp failed on "@ + template + ": "@ + fs::described(e)),
        ),
        Ok(path) => (
            if unlink {
                w.asked(fs::Request::Unlink(path))
            } else {
                w
            },
            Ok(path),
        ),
    }
}

/// What creating a temporary directory comes to: its path, or why there is none.
pub open spec fn directory_created<FS: Filesystem>(
    v: env::EnvView<FS>,
    template: Seq<char>,
    unlink: bool,
) -> (env::EnvView<FS>, Result<Seq<char>, Seq<char>>) {
    let w = v.asked(fs::Request::Mkdtemp(template));
    match v.fs.mkdtemps(template) {
        Err(e) => (
            w,
            Err("mkdtemp failed on "@ + template + ": "@ + fs::described(e)),
        ),
        Ok(path) => (
            if unlink {
                w.asked(fs::Request::Rmdir(path))
            } else {
                w
            },
            Ok(path),
        ),
    }
}

/// Creates a temporary file.
pub fn create_file<FS: Filesystem>(
    env: &mut Environment<FS>,
    template: &str,
    unlink: bool,
) -> (r: Result<String, String>)
    ensures
        (final(env)@, path_result(r)) == file_created(old(env)@, template@, unlink),
{
    match env.fs.mkstemp(template) {
        Ok(path) => {
            if unlink {
                let _ = env.fs.unlink(path.as_str());
            }
            Ok(path)
        },
        Err(e) => {
            let mut m = "mkstemp failed on ".to_owned();
            m.append(template);
            m.append(": ");
            let words = fs::fs_error_details(&e);
            m.append(words.as_str());
            Err(m)
        },
    }
}

/// Creates a temporary directory.
pub fn create_directory<FS: Filesystem>(
    env: &mut Environment<FS>,
    template: &str,
    unlink: bool,
) -> (r: Result<String, String>)
    ensures
        (final(env)@, path_result(r)) == directory_created(old(env)@, template@, unlink),
{
    match env.fs.mkdtemp(template) {
        Ok(path) => {
            if unlink {
                let _ = env.fs.rmdir(path.as_str());
            }
            Ok(path)
        },
        Err(e) => {
            let mut m = "mkdtemp failed on ".to_owned();
            m.append(template);
            m.append(": ");
            let words = fs::fs_error_details(&e);
            m.append(words.as_str());
            Err(m)
        },
    }
}

/// What creating a file or directory for each template from `i` on comes to.
pub open spec fn created<FS: Filesystem>(
    v: env::EnvView<FS>,
    p: options::ParsedView,
    list: Seq<Seq<char>>,
    i: int,
    code: int,
) -> (env::EnvView<FS>, int)
    decreases list.len() - i,
{
    if i < 0 || i >= list.len() {
        (v, code)
    } else {
        let (w, r) = if p.present('d') {
            directory_created(v, list[i], p.present('u'))
        } else {
            file_created(v, list[i], p.present('u'))
        };
        match r {
            Ok(path) => created(w.write_line(path), p, list, i + 1, code),
            Err(m) => created(
                if p.present('q') {
                    w
                } else {
                    w.error_line("mktemp: "@ + m)
                },
                p,
                list,
                i + 1,
                1,
            ),
        }
    }
}

/// What the command does with these options.
pub open spec fn ran<FS: Filesystem>(v: env::EnvView<FS>, p: options::ParsedView) -> (
    env::EnvView<FS>,
    Result<int, env::ErrorView>,
) {
    let (w, code) = created(v, p, templates(v, p, p.free.len() as int), 0, 0);
    (w, Ok(code))
}

/// Runs the command with these options.
pub fn run<FS: Filesystem>(env: &mut Environment<FS>, p: &Parsed) -> (r: Result<ExitCode, Error>)
    ensures
        (final(env)@, env::outcome(r)) == ran(old(env)@, p@),
{
    let list = read_templates(env, p);
    let dflag = p.present('d');
    let qflag = p.present('q');
    let uflag = p.present('u');
    let ghost start = env@;
    let ghost shown = list.deep_view();
    let mut code: i32 = 0;
    let mut i: usize = 0;
    while i < list.len()
        invariant
            i <= list@.len(),
            dflag == p@.present('d'),
            qflag == p@.present('q'),
            uflag == p@.present('u'),
            shown == list.deep_view(),
            code == 0 || code == 1,
            created(env@, p@, shown, i as int, code as int) == created(start, p@, shown, 0, 0),
        decreases list.len() - i,
    {
        let template = list[i].as_str();
        let done = if dflag {
            create_directory(env, template, uflag)
        } else {
            create_file(env, template, uflag)
        };
        match done {
            Ok(path) => {
                env.write_line(path.as_str());
            },
            Err(e) => {
                code = 1;
                if !qflag {
                    let mut m = "mktemp: ".to_owned();
                    m.append(e.as_str());
                    env.error_line(m.as_str());
                }
            },
        }
        i += 1;
    }
    Ok(ExitCode::new(code))
}

/// What the command does.
pub open spec fn spec_bin<FS: Filesystem>(v: env::EnvView<FS>) -> (
    env::EnvView<FS>,
    Result<int, env::ErrorView>,
) {
    match options::parsed(table(), v.args.skip(1)) {
        Ok(p) => ran(v, p),
        Err(message) => (v.error_line("mktemp: "@ + message), Ok(1)),
    }
}

/// The mktemp builtin: create temporary files or directories.
pub fn bin<FS: Filesystem>(env: &mut Environment<FS>) -> (r: Result<ExitCode, Error>)
    requires
        old(env)@.args.len() > 0,
    ensures
        (final(env)@, env::outcome(r)) == spec_bin(old(env)@),
{
    let opts = build_options();
    match options::parse(&opts, &env.args) {
        Ok(p) => run(env, &p),
        Err(e) => {
            let mut m = "mktemp: ".to_owned();
            m.append(e.as_str());
            env.error_line(m.as_str());
            Ok(ExitCode::new(1))
        },
    }
}

// ---------------------------------------------------------------------------------------------
// Laws
// ---------------------------------------------------------------------------------------------

/// There is one template for each argument, and one more where `-t` is given or no argument is.
pub proof fn lemma_templates_counted<FS>(v: env::EnvView<FS>, p: options::ParsedView, n: int)
    requires
        0 <= n <= p.free.len(),
    ensures
        templates(v, p, n).len() == n + (if p.present('t') || p.free.len() == 0 {
            1int
        } else {
            0
        }),
    decreases n,
{
    if n > 0 {
        lemma_templates_counted(v, p, n - 1);
    }
}

/// With `-q` nothing is written to the error stream.
pub proof fn lemma_quiet<FS: Filesystem>(
    v: env::EnvView<FS>,
    p: options::ParsedView,
    list: Seq<Seq<char>>,
    i: int,
    code: int,
)
    requires
        p.present('q'),
    ensures
        created(v, p, list, i, code).0.err == v.err,
    decreases list.len() - i,
{
    if 0 <= i < list.len() {
        let (w, r) = if p.present('d') {
            directory_created(v, list[i], p.present('u'))
        } else {
            file_created(v, list[i], p.present('u'))
        };
        match r {
            Ok(path) => {
                lemma_quiet(w.write_line(path), p, list, i + 1, code);
            },
            Err(m) => {
                lemma_quiet(w, p, list, i + 1, 1);
            },
        }
    }
}

/// Without a template a file is named `tmp.` or, with -t, the prefix and a point, then ten places to
/// be filled. It lies in the directory of -p; without that in `TMPDIR`, and without that in `/tmp`.
pub proof fn lemma_usual_template<FS>(v: env::EnvView<FS>, p: options::ParsedView, dir: Seq<char>)
    requires
        p.free.len() == 0,
        dir.len() > 0,
        dir.last() != '/',
    ensures
        ({
            let tmpdir = seq!['T', 'M', 'P', 'D', 'I', 'R'];
            let places = seq!['.', 'X', 'X', 'X', 'X', 'X', 'X', 'X', 'X', 'X', 'X'];
            let prefix = match p.value('t') {
                Some(s) => s,
                None => seq!['t', 'm', 'p'],
            };
            let within = |d: Seq<char>| seq![d + seq!['/'] + prefix + places];
            let set = v.env.dom().contains(tmpdir);
            &&& p.value('p') == Some(dir) ==> templates(v, p, 0) == within(dir)
            &&& p.value('p') is None && set && v.env[tmpdir] == dir ==> templates(v, p, 0)
                == within(dir)
            &&& p.value('p') == Some(Seq::<char>::empty()) && set && v.env[tmpdir] == dir
                ==> templates(v, p, 0) == within(dir)
            &&& (p.value('p') is None || p.value('p') == Some(Seq::<char>::empty())) && !set
                ==> templates(v, p, 0) == within(seq!['/', 't', 'm', 'p'])
        }),
{
    reveal_strlit("TMPDIR");
    reveal_strlit(".XXXXXXXXXX");
    reveal_strlit("tmp");
    reveal_strlit("/tmp");
    reveal_strlit("/");
    assert("TMPDIR"@ =~= seq!['T', 'M', 'P', 'D', 'I', 'R']);
    assert(".XXXXXXXXXX"@ =~= seq!['.', 'X', 'X', 'X', 'X', 'X', 'X', 'X', 'X', 'X', 'X']);
    assert("tmp"@ =~= seq!['t', 'm', 'p']);
    assert("/tmp"@ =~= seq!['/', 't', 'm', 'p']);
    assert("/"@ =~= seq!['/']);
    assert(seq!['/', 't', 'm', 'p'].last() == 'p');
}

/// A template that is given lies in the directory of -p, where there is one and no -t; otherwise it
/// is taken as it is.
pub proof fn lemma_given_template<FS>(
    v: env::EnvView<FS>,
    p: options::ParsedView,
    arg: Seq<char>,
    dir: Seq<char>,
)
    requires
        dir.len() > 0,
        dir.last() != '/',
    ensures
        p.value('p') == Some(dir) && !p.present('t') ==> argument_template(v, p, arg) == dir
            + seq!['/'] + arg,
        p.value('p') is None || p.present('t') ==> argument_template(v, p, arg) == arg,
{
    reveal_strlit("/");
    assert("/"@ =~= seq!['/']);
}

/// With -d a directory is made and otherwise a file, by the template. With -u what was made is
/// removed again, and its path is told all the same.
pub proof fn lemma_made_by_template<FS: Filesystem>(
    v: env::EnvView<FS>,
    template: Seq<char>,
    unlink: bool,
    path: Seq<char>,
)
    ensures
        v.fs.mkstemps(template) == Ok::<Seq<char>, fs::IoView>(path) ==> {
            let (w, r) = file_created(v, template, unlink);
            let made = v.fs.after(fs::Request::Mkstemp(template));
            r == Ok::<Seq<char>, Seq<char>>(path) && w.fs == if unlink {
                made.after(fs::Request::Unlink(path))
            } else {
                made
            } && w.out == v.out && w.err == v.err
        },
        v.fs.mkdtemps(template) == Ok::<Seq<char>, fs::IoView>(path) ==> {
            let (w, r) = directory_created(v, template, unlink);
            let made = v.fs.after(fs::Request::Mkdtemp(template));
            r == Ok::<Seq<char>, Seq<char>>(path) && w.fs == if unlink {
                made.after(fs::Request::Rmdir(path))
            } else {
                made
            } && w.out == v.out && w.err == v.err
        },
        v.fs.mkstemps(template) is Err ==> file_created(v, template, unlink).1 is Err,
        v.fs.mkdtemps(template) is Err ==> directory_created(v, template, unlink).1 is Err,
{
}

/// The environment when something was made for each of the first `n` templates, and whether one of
/// them failed.
pub open spec fn after_templates<FS: Filesystem>(
    v: env::EnvView<FS>,
    p: options::ParsedView,
    list: Seq<Seq<char>>,
    n: int,
) -> (env::EnvView<FS>, bool)
    decreases n,
{
    if n <= 0 {
        (v, false)
    } else {
        let (w, failed) = after_templates(v, p, list, n - 1);
        let (x, r) = if p.present('d') {
            directory_created(w, list[n - 1], p.present('u'))
        } else {
            file_created(w, list[n - 1], p.present('u'))
        };
        match r {
            Ok(path) => (x.write(path + seq!['\n']), failed),
            Err(m) => (
                if p.present('q') {
                    x
                } else {
                    x.error_line(seq!['m', 'k', 't', 'e', 'm', 'p', ':', ' '] + m)
                },
                true,
            ),
        }
    }
}

proof fn lemma_created_from<FS: Filesystem>(
    v: env::EnvView<FS>,
    p: options::ParsedView,
    list: Seq<Seq<char>>,
    i: int,
)
    requires
        0 <= i <= list.len(),
    ensures
        ({
            let (w, failed) = after_templates(v, p, list, i);
            let (x, any) = after_templates(v, p, list, list.len() as int);
            created(w, p, list, i, if failed {
                1
            } else {
                0
            }) == (x, if any {
                1int
            } else {
                0
            })
        }),
    decreases list.len() - i,
{
    reveal_strlit("mktemp: ");
    assert("mktemp: "@ =~= seq!['m', 'k', 't', 'e', 'm', 'p', ':', ' ']);
    if i < list.len() {
        let w = after_templates(v, p, list, i).0;
        let (x, r) = if p.present('d') {
            directory_created(w, list[i], p.present('u'))
        } else {
            file_created(w, list[i], p.present('u'))
        };
        if let Ok(path) = r {
            assert(path.push('\n') =~= path + seq!['\n']);
        }
        lemma_created_from(v, p, list, i + 1);
    }
}

/// Something is made for each template, whatever became of those before it, and its path is printed.
/// The exit code is 1 where one failed, otherwise 0.
pub proof fn lemma_templates_in_turn<FS: Filesystem>(
    v: env::EnvView<FS>,
    p: options::ParsedView,
    list: Seq<Seq<char>>,
)
    ensures
        ({
            let (x, any) = after_templates(v, p, list, list.len() as int);
            created(v, p, list, 0, 0) == (x, if any {
                1int
            } else {
                0
            })
        }),
{
    lemma_created_from(v, p, list, 0);
}

} // verus!
