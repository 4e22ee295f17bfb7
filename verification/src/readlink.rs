//! The readlink builtin: print the target of a symbolic link.

use crate::env::{Environment, Error, ExitCode};
use crate::env;
use crate::fs::{FileType, Filesystem};
use crate::fs;
use crate::options::{Arity, OptDef, Parsed};
use crate::options;
use crate::text;
use utf8path::{Component, Path};
use vstd::prelude::*;

verus! {

broadcast use vstd::string::group_string_axioms;

/// The options of the command.
pub open spec fn table() -> Seq<OptDef> {
    seq![
        OptDef { short: 'f', long: "", arity: Arity::Flag },
        OptDef { short: 'n', long: "", arity: Arity::Flag },
    ]
}

fn build_options() -> (r: Vec<OptDef>)
    ensures
        r@ == table(),
        options::all_declarable(options::definitions(r@)),
{
    let r = vec![
        OptDef { short: 'f', long: "", arity: Arity::Flag },
        OptDef { short: 'n', long: "", arity: Arity::Flag },
    ];
    proof {
        reveal_strlit("");
    }
    r
}

// ---------------------------------------------------------------------------------------------
// Paths
// ---------------------------------------------------------------------------------------------

/// One component of a path.
pub enum Step {
    /// The root.
    Root,
    /// The two slashes that applications may give a meaning of their own.
    AppDefined,
    /// The directory itself.
    Current,
    /// The directory that holds it.
    Parent,
    /// A name.
    Name(String),
}

/// The mathematical counterpart of `Step`.
pub ghost enum StepView {
    Root,
    AppDefined,
    Current,
    Parent,
    Name(Seq<char>),
}

impl View for Step {
    type V = StepView;

    open spec fn view(&self) -> StepView {
        match self {
            Step::Root => StepView::Root,
            Step::AppDefined => StepView::AppDefined,
            Step::Current => StepView::Current,
            Step::Parent => StepView::Parent,
            Step::Name(s) => StepView::Name(s@),
        }
    }
}

pub open spec fn steps(v: Seq<Step>) -> Seq<StepView> {
    Seq::new(v.len(), |i: int| v[i]@)
}

/// Whether a text can be the name of a file in a directory.
pub open spec fn is_name(s: Seq<char>) -> bool {
    s.len() > 0 && s != "."@ && s != ".."@ && !s.contains('/')
}

/// What a piece of a path between slashes stands for.
pub open spec fn step_of(piece: Seq<char>) -> StepView {
    if piece == ".."@ {
        StepView::Parent
    } else if piece.len() == 0 || piece == "."@ {
        StepView::Current
    } else {
        StepView::Name(piece)
    }
}

/// The number of slashes at the beginning of a path.
pub open spec fn leading_slashes(path: Seq<char>) -> nat
    decreases path.len(),
{
    if path.len() > 0 && path[0] == '/' {
        1 + leading_slashes(path.skip(1))
    } else {
        0
    }
}

/// The pieces of a path between slashes, but for empty ones before the last.
pub open spec fn pieces(path: Seq<char>) -> Seq<Seq<char>> {
    let all = text::split(path.skip(leading_slashes(path) as int), '/');
    text::nonempty(all.drop_last()).push(all.last())
}

/// The components of a path: the root where it begins with a slash, or what two slashes and no
/// third stand for, then what its pieces stand for.
pub open spec fn components(path: Seq<char>) -> Seq<StepView> {
    let n = leading_slashes(path);
    (if n == 0 {
        Seq::empty()
    } else if n == 2 {
        seq![StepView::AppDefined]
    } else {
        seq![StepView::Root]
    }) + Seq::new(pieces(path).len(), |i: int| step_of(pieces(path)[i]))
}

/// `utf8path::Path::components`, which takes a path apart at its slashes. Claimed: slashes at the
/// beginning are the root, or the application's own where they are two; then each piece that is not
/// empty is a component, `.` and `..` among them with their meaning; and a path that is empty or
/// ends in a slash ends with the directory itself.
#[verifier::external_body]
fn components_of(path: &str) -> (r: Vec<Step>)
    ensures
        steps(r@) == components(path@),
{
    Path::from(path).components().map(
        |c| match c {
            Component::RootDir => Step::Root,
            Component::AppDefined => Step::AppDefined,
            Component::CurDir => Step::Current,
            Component::ParentDir => Step::Parent,
            Component::Normal(name) => Step::Name(name.as_str().to_string()),
        },
    ).collect()
}

/// Whether a path is absolute.
pub open spec fn absolute(path: Seq<char>) -> bool {
    path.len() > 0 && path[0] == '/'
}

/// `utf8path::Path::is_abs`. Claimed: a path is absolute where it begins with a slash.
#[verifier::external_body]
fn is_absolute(path: &str) -> (r: bool)
    ensures
        r == absolute(path@),
{
    Path::from(path).is_abs()
}

/// A path taken from a directory.
pub open spec fn joined(dir: Seq<char>, path: Seq<char>) -> Seq<char> {
    if absolute(path) || dir.len() == 0 {
        path
    } else if dir.last() == '/' {
        dir + path
    } else {
        dir + seq!['/'] + path
    }
}

/// `utf8path::Path::join`. Claimed: the path itself where it is absolute or the directory is empty,
/// and otherwise the two with one slash between them.
#[verifier::external_body]
fn join_paths(dir: &str, path: &str) -> (r: String)
    ensures
        r@ == joined(dir@, path@),
{
    String::from(Path::from(dir).join(path))
}

/// The absolute path with these components.
pub open spec fn built(parts: Seq<Seq<char>>) -> Seq<char> {
    if parts.len() == 0 {
        "/"@
    } else {
        "/"@ + text::join(parts, "/"@)
    }
}

/// Whether each component is a name.
pub open spec fn all_names(parts: Seq<Seq<char>>) -> bool {
    forall|i: int| 0 <= i < parts.len() ==> is_name(#[trigger] parts[i])
}

/// Whether a path is made of names alone: it holds no empty component, no `.` and no `..`.
pub open spec fn made_of_names(path: Seq<char>) -> bool {
    exists|parts: Seq<Seq<char>>| all_names(parts) && path == #[trigger] built(parts)
}

/// Builds a path string from resolved components.
pub fn build_path(parts: &Vec<String>) -> (r: String)
    ensures
        r@ == built(parts.deep_view()),
{
    if parts.len() == 0 {
        "/".to_owned()
    } else {
        let mut s = "/".to_owned();
        let rest = text::join_with(parts, "/");
        s.append(rest.as_str());
        s
    }
}

// ---------------------------------------------------------------------------------------------
// Following links
// ---------------------------------------------------------------------------------------------

/// How many symbolic links may stand inside each other.
pub const MAX_LINKS: usize = 40;

/// Where a symbolic link leads that stands in the directory with these components.
pub open spec fn link_path(parts: Seq<Seq<char>>, target: Seq<char>) -> Seq<char> {
    if absolute(target) {
        target
    } else {
        joined(built(parts), target)
    }
}

/// Where a path leads from the directory with these components, once all symbolic links on the way
/// are followed; `depth` links have been entered.
pub open spec fn followed<FS: Filesystem>(
    s: FS,
    path: Seq<char>,
    parts: Seq<Seq<char>>,
    original: Seq<char>,
    depth: nat,
) -> (FS, Result<Seq<Seq<char>>, Seq<char>>)
    decreases MAX_LINKS + 1 - depth, 1int, 0int,
{
    if depth > MAX_LINKS {
        (s, Err(original + ": Too many levels of symbolic links"@))
    } else {
        stepped(s, components(path), 0, parts, original, depth)
    }
}

/// Where the components from `i` on lead.
pub open spec fn stepped<FS: Filesystem>(
    s: FS,
    list: Seq<StepView>,
    i: int,
    parts: Seq<Seq<char>>,
    original: Seq<char>,
    depth: nat,
) -> (FS, Result<Seq<Seq<char>>, Seq<char>>)
    decreases MAX_LINKS + 1 - depth, 0int, list.len() - i,
{
    if i < 0 || i >= list.len() {
        (s, Ok(parts))
    } else {
        match list[i] {
            StepView::Root => stepped(s, list, i + 1, Seq::empty(), original, depth),
            StepView::AppDefined => stepped(s, list, i + 1, Seq::empty(), original, depth),
            StepView::Current => stepped(s, list, i + 1, parts, original, depth),
            StepView::Parent => stepped(
                s,
                list,
                i + 1,
                if parts.len() > 0 {
                    parts.drop_last()
                } else {
                    parts
                },
                original,
                depth,
            ),
            StepView::Name(name) => {
                let here = built(parts.push(name));
                let t = s.after(fs::Request::Lstat(here));
                match s.lstats(here) {
                    Err(_) => (t, Err(original + ": No such file or directory"@)),
                    Ok(entry) => if entry.file_type != FileType::Symlink {
                        stepped(t, list, i + 1, parts.push(name), original, depth)
                    } else {
                        let u = t.after(fs::Request::Readlink(here));
                        match t.readlinks(here) {
                            Err(_) => (u, Err(original + ": No such file or directory"@)),
                            Ok(target) => if depth > MAX_LINKS {
                                (u, Err(original + ": Too many levels of symbolic links"@))
                            } else {
                                match followed(
                                    u,
                                    link_path(parts, target),
                                    parts,
                                    original,
                                    depth + 1,
                                ) {
                                    (w, Err(m)) => (w, Err(m)),
                                    (w, Ok(p)) => stepped(w, list, i + 1, p, original, depth),
                                }
                            },
                        }
                    },
                }
            },
        }
    }
}

pub open spec fn parts_result(r: Result<(), String>, parts: Seq<Seq<char>>) -> Result<
    Seq<Seq<char>>,
    Seq<char>,
> {
    match r {
        Ok(_) => Ok(parts),
        Err(m) => Err(m@),
    }
}

fn not_found(original: &str) -> (r: String)
    ensures
        r@ == original@ + ": No such file or directory"@,
{
    let mut m = original.to_owned();
    m.append(": No such file or directory");
    m
}

/// Whether the names among the components are proper names.
pub open spec fn proper(list: Seq<StepView>) -> bool {
    forall|i: int|
        0 <= i < list.len() ==> ((#[trigger] list[i]) matches StepView::Name(s) ==> is_name(s))
}

proof fn lemma_nonempty_split(all: Seq<Seq<char>>)
    requires
        forall|i: int| 0 <= i < all.len() ==> !(#[trigger] all[i]).contains('/'),
    ensures
        forall|i: int|
            0 <= i < text::nonempty(all).len() ==> !(#[trigger] text::nonempty(all)[i]).contains(
                '/',
            ),
    decreases all.len(),
{
    if all.len() > 0 {
        assert forall|i: int| 0 <= i < all.drop_last().len() implies !(#[trigger] all.drop_last()[i]).contains(
            '/',
        ) by {
            assert(all.drop_last()[i] == all[i]);
        }
        lemma_nonempty_split(all.drop_last());
        assert(!all[all.len() - 1].contains('/'));
        let before = text::nonempty(all.drop_last());
        let kept = text::nonempty(all);
        assert forall|i: int| 0 <= i < kept.len() implies !(#[trigger] kept[i]).contains('/') by {
            if i < before.len() {
                assert(kept[i] == before[i]);
            }
        }
    }
}

/// A component of a path that is a name is not empty, not `.` or `..`, and holds no slash.
pub proof fn lemma_components_proper(path: Seq<char>)
    ensures
        proper(components(path)),
{
    let all = text::split(path.skip(leading_slashes(path) as int), '/');
    text::lemma_split_pieces(path.skip(leading_slashes(path) as int), '/');
    text::split_nonempty(path.skip(leading_slashes(path) as int), '/');
    assert forall|i: int| 0 <= i < all.drop_last().len() implies !(#[trigger] all.drop_last()[i]).contains(
        '/',
    ) by {
        assert(all.drop_last()[i] == all[i]);
    }
    lemma_nonempty_split(all.drop_last());
    assert(!all[all.len() - 1].contains('/'));
    let list = components(path);
    let n = list.len() - pieces(path).len();
    assert forall|i: int| 0 <= i < list.len() implies ((#[trigger] list[i]) matches StepView::Name(s)
        ==> is_name(s)) by {
        if i >= n {
            assert(list[i] == step_of(pieces(path)[i - n]));
            assert(!pieces(path)[i - n].contains('/'));
        }
    }
}

/// Follows components from a directory, resolving symlinks along the way.
pub fn follow_steps<FS: Filesystem>(
    list: &Vec<Step>,
    resolved: &mut Vec<String>,
    fs: &mut FS,
    original_path: &str,
    depth: usize,
) -> (r: Result<(), String>)
    requires
        depth <= MAX_LINKS,
    ensures
        (*final(fs), parts_result(r, final(resolved).deep_view())) == stepped(
            *old(fs),
            steps(list@),
            0,
            old(resolved).deep_view(),
            original_path@,
            depth as nat,
        ),
        r is Ok && proper(steps(list@)) && all_names(old(resolved).deep_view()) ==> all_names(
            final(resolved).deep_view(),
        ),
    decreases MAX_LINKS + 1 - depth, 0int,
{
    let ghost shown = steps(list@);
    let mut i: usize = 0;
    while i < list.len()
        invariant
            i <= list@.len(),
            depth <= MAX_LINKS,
            shown == steps(list@),
            proper(shown) && all_names(old(resolved).deep_view()) ==> all_names(
                resolved.deep_view(),
            ),
            stepped(*fs, shown, i as int, resolved.deep_view(), original_path@, depth as nat)
                == stepped(
                *old(fs),
                shown,
                0,
                old(resolved).deep_view(),
                original_path@,
                depth as nat,
            ),
        decreases list.len() - i,
    {
        let ghost parts = resolved.deep_view();
        assert(shown[i as int] == list@[i as int]@);
        match &list[i] {
            Step::Root => {
                resolved.clear();
                assert(resolved.deep_view() =~= Seq::<Seq<char>>::empty());
            },
            Step::AppDefined => {
                resolved.clear();
                assert(resolved.deep_view() =~= Seq::<Seq<char>>::empty());
            },
            Step::Current => {},
            Step::Parent => {
                if resolved.len() > 0 {
                    resolved.pop();
                    assert(resolved.deep_view() =~= parts.drop_last());
                }
            },
            Step::Name(name) => {
                resolved.push(name.clone());
                assert(resolved.deep_view() =~= parts.push(name@));
                let here = build_path(resolved);
                let entry = match fs.lstat(here.as_str()) {
                    Ok(entry) => entry,
                    Err(_) => {
                        return Err(not_found(original_path));
                    },
                };
                if entry.file_type == FileType::Symlink {
                    let target = match fs.readlink(here.as_str()) {
                        Ok(target) => target,
                        Err(_) => {
                            return Err(not_found(original_path));
                        },
                    };
                    resolved.pop();
                    assert(resolved.deep_view() =~= parts);
                    let path = if text::has_prefix(target.as_str(), "/") {
                        proof {
                            reveal_strlit("/");
                            assert(target@[0] == target@.take(1)[0]);
                        }
                        target
                    } else {
                        proof {
                            reveal_strlit("/");
                            if absolute(target@) {
                                assert(target@.take(1) =~= "/"@);
                            }
                        }
                        let base = build_path(resolved);
                        join_paths(base.as_str(), target.as_str())
                    };
                    match canonicalize_components(
                        path.as_str(),
                        resolved,
                        fs,
                        original_path,
                        depth + 1,
                    ) {
                        Ok(_) => {},
                        Err(m) => {
                            return Err(m);
                        },
                    }
                }
            },
        }
        i += 1;
    }
    Ok(())
}

/// Processes the components of a path, resolving symlinks along the way.
pub fn canonicalize_components<FS: Filesystem>(
    input_path: &str,
    resolved: &mut Vec<String>,
    fs: &mut FS,
    original_path: &str,
    depth: usize,
) -> (r: Result<(), String>)
    ensures
        (*final(fs), parts_result(r, final(resolved).deep_view())) == followed(
            *old(fs),
            input_path@,
            old(resolved).deep_view(),
            original_path@,
            depth as nat,
        ),
        r is Ok && all_names(old(resolved).deep_view()) ==> all_names(
            final(resolved).deep_view(),
        ),
    decreases MAX_LINKS + 1 - depth, 1int,
{
    if depth > MAX_LINKS {
        let mut m = original_path.to_owned();
        m.append(": Too many levels of symbolic links");
        return Err(m);
    }
    let list = components_of(input_path);
    proof {
        lemma_components_proper(input_path@);
    }
    follow_steps(&list, resolved, fs, original_path, depth)
}

/// The path with all symbolic links followed, or why there is none.
pub open spec fn canonical<FS: Filesystem>(s: FS, path: Seq<char>, cwd: Seq<char>) -> (
    FS,
    Result<Seq<char>, Seq<char>>,
) {
    let start = if absolute(path) {
        path
    } else {
        joined(cwd, path)
    };
    match followed(s, start, Seq::empty(), path, 0) {
        (t, Ok(parts)) => (t, Ok(built(parts))),
        (t, Err(m)) => (t, Err(m)),
    }
}

pub open spec fn path_result(r: Result<String, String>) -> Result<Seq<char>, Seq<char>> {
    match r {
        Ok(s) => Ok(s@),
        Err(m) => Err(m@),
    }
}

/// Canonicalizes a path by following all symlinks (like realpath).
pub fn canonicalize<FS: Filesystem>(path: &str, cwd: &str, fs: &mut FS) -> (r: Result<
    String,
    String,
>)
    ensures
        (*final(fs), path_result(r)) == canonical(*old(fs), path@, cwd@),
        r matches Ok(p) ==> made_of_names(p@),
{
    let start = if is_absolute(path) {
        path.to_owned()
    } else {
        join_paths(cwd, path)
    };
    let mut resolved: Vec<String> = Vec::new();
    assert(resolved.deep_view() =~= Seq::<Seq<char>>::empty());
    match canonicalize_components(start.as_str(), &mut resolved, fs, path, 0) {
        Ok(_) => Ok(build_path(&resolved)),
        Err(m) => Err(m),
    }
}

/// What a path holds that is a symbolic link, or why it holds nothing.
pub open spec fn held<FS: Filesystem>(s: FS, path: Seq<char>, cwd: Seq<char>) -> (
    FS,
    Result<Seq<char>, Seq<char>>,
) {
    let at = if absolute(path) {
        path
    } else {
        joined(cwd, path)
    };
    let t = s.after(fs::Request::Lstat(at));
    match s.lstats(at) {
        Err(_) => (t, Err(path + ": No such file or directory"@)),
        Ok(entry) => if entry.file_type == FileType::Symlink {
            (
                t.after(fs::Request::Readlink(at)),
                match t.readlinks(at) {
                    Ok(target) => Ok(target),
                    Err(_) => Err(path + ": No such file or directory"@),
                },
            )
        } else {
            (t, Err(path + ": Not a symbolic link"@))
        },
    }
}

/// Reads the immediate target of a symbolic link.
pub fn read_target<FS: Filesystem>(path: &str, cwd: &str, fs: &mut FS) -> (r: Result<
    String,
    String,
>)
    ensures
        (*final(fs), path_result(r)) == held(*old(fs), path@, cwd@),
{
    let at = if is_absolute(path) {
        path.to_owned()
    } else {
        join_paths(cwd, path)
    };
    match fs.lstat(at.as_str()) {
        Err(_) => Err(not_found(path)),
        Ok(entry) => if entry.file_type == FileType::Symlink {
            match fs.readlink(at.as_str()) {
                Ok(target) => Ok(target),
                Err(_) => Err(not_found(path)),
            }
        } else {
            let mut m = path.to_owned();
            m.append(": Not a symbolic link");
            Err(m)
        },
    }
}

// ---------------------------------------------------------------------------------------------
// The command
// ---------------------------------------------------------------------------------------------

/// What a path is answered with.
pub open spec fn answered<FS: Filesystem>(v: env::EnvView<FS>, path: Seq<char>, follow: bool) -> (
    env::EnvView<FS>,
    Result<Seq<char>, Seq<char>>,
) {
    let (s, r) = if follow {
        canonical(v.fs, path, v.cwd)
    } else {
        held(v.fs, path, v.cwd)
    };
    (v.with_fs(s), r)
}

/// What is left once the answer to the path at place `i` was written: with `-n` a space goes before
/// each answer but that to the first path, and a newline behind each answer otherwise.
pub open spec fn reported<FS: Filesystem>(
    v: env::EnvView<FS>,
    answer: Result<Seq<char>, Seq<char>>,
    i: int,
    plain: bool,
) -> env::EnvView<FS> {
    match answer {
        Ok(target) => if plain {
            if i > 0 {
                v.write(" "@).write(target)
            } else {
                v.write(target)
            }
        } else {
            v.write_line(target)
        },
        Err(m) => v.error_line("readlink: "@ + m),
    }
}

/// What answering each path from `i` on comes to.
pub open spec fn printed<FS: Filesystem>(
    v: env::EnvView<FS>,
    p: options::ParsedView,
    i: int,
    code: int,
) -> (env::EnvView<FS>, int)
    decreases p.free.len() - i,
{
    if i < 0 || i >= p.free.len() {
        (v, code)
    } else {
        let (w, answer) = answered(v, p.free[i], p.present('f'));
        printed(
            reported(w, answer, i, p.present('n')),
            p,
            i + 1,
            if answer is Ok {
                code
            } else {
                1
            },
        )
    }
}

/// What the command does with these options.
pub open spec fn ran<FS: Filesystem>(v: env::EnvView<FS>, p: options::ParsedView) -> (
    env::EnvView<FS>,
    Result<int, env::ErrorView>,
) {
    if p.free.len() == 0 {
        (v.error_line("readlink: missing operand"@), Ok(1))
    } else {
        let (w, code) = printed(v, p, 0, 0);
        (w, Ok(code))
    }
}

/// Runs the command with these options.
pub fn run<FS: Filesystem>(env: &mut Environment<FS>, p: &Parsed) -> (r: Result<ExitCode, Error>)
    ensures
        (final(env)@, env::outcome(r)) == ran(old(env)@, p@),
{
    let fflag = p.present('f');
    let nflag = p.present('n');
    if p.free.len() == 0 {
        env.error_line("readlink: missing operand");
        return Ok(ExitCode::new(1));
    }
    let ghost start = env@;
    let mut code: i32 = 0;
    let mut i: usize = 0;
    while i < p.free.len()
        invariant
            i <= p.free@.len(),
            fflag == p@.present('f'),
            nflag == p@.present('n'),
            code == 0 || code == 1,
            printed(env@, p@, i as int, code as int) == printed(start, p@, 0, 0),
        decreases p.free.len() - i,
    {
        let path = p.free[i].as_str();
        let answer = if fflag {
            canonicalize(path, env.cwd.as_str(), &mut env.fs)
        } else {
            read_target(path, env.cwd.as_str(), &mut env.fs)
        };
        match answer {
            Ok(target) => {
                if nflag {
                    if i > 0 {
                        env.write_str(" ");
                    }
                    env.write_str(target.as_str());
                } else {
                    env.write_line(target.as_str());
                }
            },
            Err(e) => {
                let mut m = "readlink: ".to_owned();
                m.append(e.as_str());
                env.error_line(m.as_str());
                code = 1;
            },
        }
        i += 1;
    }
    Ok(ExitCode::new(code))
}

/// What the command does.
pub open spec fn spec_bin<FS: Filesystem>(v: env::EnvView<FS>) -> (
    env::EnvView<FS>,
    Result<int, env::ErrorView>,
) {
    match options::parsed(table(), v.args.skip(1)) {
        Ok(p) => ran(v, p),
        Err(message) => (v.error_line("readlink: "@ + message), Ok(1)),
    }
}

/// The readlink builtin: print the target of a symbolic link.
///
/// Usage:
///   readlink [-fn] file ...
///
/// Prints the value of the symbolic link. If the `-f` option is specified, the output is
/// canonicalized by following every symlink in every component of the given path recursively. If
/// `-n` is specified, the trailing newline is not printed.
pub fn bin<FS: Filesystem>(env: &mut Environment<FS>) -> (r: Result<ExitCode, Error>)
    requires
        old(env)@.args.len() > 0,
    ensures
        (final(env)@, env::outcome(r)) == spec_bin(old(env)@),
{
    let opts = build_options();
    match options::parse(&opts, &env.args) {
        Ok(p) => run(env, &p),
        Err(e) => {
            let mut m = "readlink: ".to_owned();
            m.append(e.as_str());
            env.error_line(m.as_str());
            Ok(ExitCode::new(1))
        },
    }
}

// ---------------------------------------------------------------------------------------------
// Laws
// ---------------------------------------------------------------------------------------------

/// A canonical path begins with a slash.
pub proof fn lemma_canonical_absolute<FS: Filesystem>(s: FS, path: Seq<char>, cwd: Seq<char>)
    ensures
        canonical(s, path, cwd).1 matches Ok(p) ==> absolute(p),
{
    reveal_strlit("/");
}

/// More than forty links inside each other are refused, whatever the filesystem holds, and the
/// filesystem is not asked.
pub proof fn lemma_too_many_links<FS: Filesystem>(
    s: FS,
    path: Seq<char>,
    parts: Seq<Seq<char>>,
    original: Seq<char>,
    depth: nat,
)
    requires
        depth > 40,
    ensures
        followed(s, path, parts, original, depth) == (
            s,
            Err::<Seq<Seq<char>>, Seq<char>>(
                original + ": Too many levels of symbolic links"@,
            ),
        ),
{
}

/// Reading a link changes nothing but what the filesystem itself changes when it is asked.
pub proof fn lemma_only_asks<FS: Filesystem>(v: env::EnvView<FS>, path: Seq<char>, follow: bool)
    ensures
        answered(v, path, follow).0.with_fs(v.fs) == v,
{
}

/// Whether a filesystem stays as it is when it is asked what a path names or where a link leads.
pub open spec fn stays<FS: Filesystem>(s: FS) -> bool {
    forall|p: Seq<char>|
        #![trigger s.after(fs::Request::Lstat(p))]
        #![trigger s.after(fs::Request::Readlink(p))]
        s.after(fs::Request::Lstat(p)) == s && s.after(fs::Request::Readlink(p)) == s
}

/// Whether every directory on the way to the last of these components is there and no link.
pub open spec fn solid<FS: Filesystem>(s: FS, parts: Seq<Seq<char>>) -> bool {
    forall|n: int|
        0 < n <= parts.len() ==> (s.lstats(built(#[trigger] parts.take(n))) matches Ok(entry)
            && entry.file_type != FileType::Symlink)
}

proof fn lemma_solid_shorter<FS: Filesystem>(s: FS, parts: Seq<Seq<char>>)
    requires
        solid(s, parts),
        parts.len() > 0,
    ensures
        solid(s, parts.drop_last()),
{
    let t = parts.drop_last();
    assert forall|n: int| 0 < n <= t.len() implies (s.lstats(built(#[trigger] t.take(n))) matches Ok(
        entry,
    ) && entry.file_type != FileType::Symlink) by {
        assert(t.take(n) =~= parts.take(n));
    }
}

proof fn lemma_solid_longer<FS: Filesystem>(s: FS, parts: Seq<Seq<char>>, name: Seq<char>)
    requires
        solid(s, parts),
        s.lstats(built(parts.push(name))) matches Ok(entry) && entry.file_type
            != FileType::Symlink,
    ensures
        solid(s, parts.push(name)),
{
    let t = parts.push(name);
    assert forall|n: int| 0 < n <= t.len() implies (s.lstats(built(#[trigger] t.take(n))) matches Ok(
        entry,
    ) && entry.file_type != FileType::Symlink) by {
        if n <= parts.len() {
            assert(t.take(n) =~= parts.take(n));
        } else {
            assert(t.take(n) =~= t);
        }
    }
}

proof fn lemma_followed_solid<FS: Filesystem>(
    s: FS,
    path: Seq<char>,
    parts: Seq<Seq<char>>,
    original: Seq<char>,
    depth: nat,
)
    requires
        stays(s),
        solid(s, parts),
        all_names(parts),
    ensures
        followed(s, path, parts, original, depth).0 == s,
        followed(s, path, parts, original, depth).1 matches Ok(r) ==> solid(s, r) && all_names(r),
    decreases MAX_LINKS + 1 - depth, 1int, 0int,
{
    if depth <= MAX_LINKS {
        lemma_components_proper(path);
        lemma_stepped_solid(s, components(path), 0, parts, original, depth);
    }
}

proof fn lemma_stepped_solid<FS: Filesystem>(
    s: FS,
    list: Seq<StepView>,
    i: int,
    parts: Seq<Seq<char>>,
    original: Seq<char>,
    depth: nat,
)
    requires
        stays(s),
        solid(s, parts),
        all_names(parts),
        proper(list),
        depth <= MAX_LINKS,
        0 <= i,
    ensures
        stepped(s, list, i, parts, original, depth).0 == s,
        stepped(s, list, i, parts, original, depth).1 matches Ok(r) ==> solid(s, r) && all_names(
            r,
        ),
    decreases MAX_LINKS + 1 - depth, 0int, list.len() - i,
{
    if i < list.len() {
        match list[i] {
            StepView::Root => {
                lemma_stepped_solid(s, list, i + 1, Seq::empty(), original, depth);
            },
            StepView::AppDefined => {
                lemma_stepped_solid(s, list, i + 1, Seq::empty(), original, depth);
            },
            StepView::Current => {
                lemma_stepped_solid(s, list, i + 1, parts, original, depth);
            },
            StepView::Parent => {
                if parts.len() > 0 {
                    lemma_solid_shorter(s, parts);
                    lemma_stepped_solid(s, list, i + 1, parts.drop_last(), original, depth);
                } else {
                    lemma_stepped_solid(s, list, i + 1, parts, original, depth);
                }
            },
            StepView::Name(name) => {
                let here = built(parts.push(name));
                assert(s.after(fs::Request::Lstat(here)) == s);
                assert(s.after(fs::Request::Readlink(here)) == s);
                if let Ok(entry) = s.lstats(here) {
                    if entry.file_type != FileType::Symlink {
                        lemma_solid_longer(s, parts, name);
                        lemma_stepped_solid(s, list, i + 1, parts.push(name), original, depth);
                    } else if let Ok(target) = s.readlinks(here) {
                        let next = link_path(parts, target);
                        lemma_followed_solid(s, next, parts, original, depth + 1);
                        if let Ok(p) = followed(s, next, parts, original, depth + 1).1 {
                            lemma_stepped_solid(s, list, i + 1, p, original, depth);
                        }
                    }
                }
            },
        }
    }
}

proof fn lemma_nonempty_all(all: Seq<Seq<char>>)
    requires
        forall|i: int| 0 <= i < all.len() ==> (#[trigger] all[i]).len() > 0,
    ensures
        text::nonempty(all) == all,
    decreases all.len(),
{
    if all.len() > 0 {
        let t = all.drop_last();
        assert forall|i: int| 0 <= i < t.len() implies (#[trigger] t[i]).len() > 0 by {
            assert(t[i] == all[i]);
        }
        lemma_nonempty_all(t);
        assert(all[all.len() - 1].len() > 0);
    }
    assert(text::nonempty(all) =~= all);
}

/// The components of a path that is made of names are the root and these names.
pub proof fn lemma_components_built(parts: Seq<Seq<char>>)
    requires
        all_names(parts),
        parts.len() > 0,
    ensures
        components(built(parts)) == seq![StepView::Root] + Seq::new(
            parts.len(),
            |i: int| StepView::Name(parts[i]),
        ),
{
    reveal_strlit("/");
    let path = built(parts);
    let rest = text::join(parts, "/"@);
    assert("/"@ =~= seq!['/']);
    assert forall|i: int| 0 <= i < parts.len() implies !(#[trigger] parts[i]).contains('/') by {
        assert(is_name(parts[i]));
    }
    text::lemma_split_join(parts, '/');
    assert(rest.len() > 0 && rest[0] != '/') by {
        let first = parts[0];
        assert(is_name(first));
        assert(first.contains(first[0]));
        if parts.len() > 1 {
            text::lemma_join_first(first, parts.skip(1), seq!['/']);
            assert(parts =~= seq![first] + parts.skip(1));
        }
    }
    assert(path.skip(1) =~= rest);
    assert(leading_slashes(rest) == 0);
    assert(leading_slashes(path) == 1);
    let front = parts.drop_last();
    assert forall|i: int| 0 <= i < front.len() implies (#[trigger] front[i]).len() > 0 by {
        assert(is_name(parts[i]));
    }
    lemma_nonempty_all(front);
    assert(pieces(path) =~= parts);
    assert forall|i: int| 0 <= i < parts.len() implies #[trigger] step_of(parts[i])
        == StepView::Name(parts[i]) by {
        assert(is_name(parts[i]));
    }
    assert(components(path) =~= seq![StepView::Root] + Seq::new(
        parts.len(),
        |i: int| StepView::Name(parts[i]),
    ));
}

proof fn lemma_steps_solid<FS: Filesystem>(
    s: FS,
    parts: Seq<Seq<char>>,
    i: int,
    original: Seq<char>,
    depth: nat,
)
    requires
        stays(s),
        solid(s, parts),
        0 <= i <= parts.len(),
    ensures
        stepped(
            s,
            seq![StepView::Root] + Seq::new(parts.len(), |j: int| StepView::Name(parts[j])),
            i + 1,
            parts.take(i),
            original,
            depth,
        ) == (s, Ok::<Seq<Seq<char>>, Seq<char>>(parts)),
    decreases parts.len() - i,
{
    let list = seq![StepView::Root] + Seq::new(parts.len(), |j: int| StepView::Name(parts[j]));
    if i < parts.len() {
        assert(list[i + 1] == StepView::Name(parts[i]));
        assert(parts.take(i).push(parts[i]) =~= parts.take(i + 1));
        let here = built(parts.take(i + 1));
        assert(s.after(fs::Request::Lstat(here)) == s);
        lemma_steps_solid(s, parts, i + 1, original, depth);
    } else {
        assert(parts.take(i) =~= parts);
    }
}

/// Where asking changes nothing, a canonical path is its own canonical path, from whatever
/// directory it is taken.
pub proof fn lemma_canonical_again<FS: Filesystem>(
    s: FS,
    path: Seq<char>,
    cwd: Seq<char>,
    elsewhere: Seq<char>,
)
    requires
        stays(s),
        canonical(s, path, cwd).1 is Ok,
    ensures
        canonical(s, path, cwd).0 == s,
        canonical(s, canonical(s, path, cwd).1->Ok_0, elsewhere) == canonical(s, path, cwd),
        made_of_names(canonical(s, path, cwd).1->Ok_0),
{
    let start = if absolute(path) {
        path
    } else {
        joined(cwd, path)
    };
    lemma_followed_solid(s, start, Seq::empty(), path, 0);
    let parts = followed(s, start, Seq::empty(), path, 0).1->Ok_0;
    let p = built(parts);
    lemma_canonical_absolute(s, path, cwd);
    if parts.len() > 0 {
        lemma_components_built(parts);
        let list = components(p);
        assert(list[0] == StepView::Root);
        assert(parts.take(0) =~= Seq::<Seq<char>>::empty());
        lemma_steps_solid(s, parts, 0, p, 0);
        assert(stepped(s, list, 0, Seq::empty(), p, 0) == stepped(s, list, 1, Seq::empty(), p, 0));
    } else {
        lemma_root_components(p);
        let list = components(p);
        let none = Seq::<Seq<char>>::empty();
        assert(parts =~= none);
        assert(stepped(s, list, 2, none, p, 0) == (s, Ok::<Seq<Seq<char>>, Seq<char>>(none)));
        assert(stepped(s, list, 1, none, p, 0) == stepped(s, list, 2, none, p, 0));
        assert(stepped(s, list, 0, none, p, 0) == stepped(s, list, 1, none, p, 0));
    }
    assert(followed(s, p, Seq::empty(), p, 0) == (s, Ok::<Seq<Seq<char>>, Seq<char>>(parts)));
}

/// The path up to one of its slashes, or the whole of it, is made of the first of its names.
proof fn lemma_prefix_built(parts: Seq<Seq<char>>, n: int) -> (k: int)
    requires
        all_names(parts),
        parts.len() > 0,
        0 < n <= built(parts).len(),
        n == built(parts).len() || built(parts)[n] == '/',
    ensures
        0 < k <= parts.len(),
        built(parts).take(n) == built(parts.take(k)),
    decreases parts.len(),
{
    reveal_strlit("/");
    assert("/"@ =~= seq!['/']);
    let p = built(parts);
    let front = parts.drop_last();
    let last = parts.last();
    assert(is_name(last));
    assert(parts.take(parts.len() as int) =~= parts);
    if n == p.len() {
        assert(p.take(n) =~= p);
        parts.len() as int
    } else {
        let before = if front.len() == 0 {
            Seq::<char>::empty()
        } else {
            built(front)
        };
        assert(p =~= before + "/"@ + last) by {
            if front.len() == 0 {
                assert(text::join(parts, "/"@) =~= last);
            } else {
                assert(text::join(parts, "/"@) =~= text::join(front, "/"@) + "/"@ + last);
            }
        }
        assert(p.len() == before.len() + 1 + last.len());
        if n > before.len() {
            assert(p[n] == last[n - before.len() - 1]);
            assert(last.contains(last[n - before.len() - 1]));
        }
        assert(n <= before.len());
        assert(parts.take(front.len() as int) =~= front);
        assert forall|i: int| 0 <= i < front.len() implies is_name(#[trigger] front[i]) by {
            assert(is_name(parts[i]));
        }
        if n == before.len() {
            assert(p.take(n) =~= before);
            front.len() as int
        } else {
            assert(p[n] == before[n]);
            let k = lemma_prefix_built(front, n);
            assert(p.take(n) =~= before.take(n));
            assert(front.take(k) =~= parts.take(k));
            k
        }
    }
}

/// Where asking changes nothing, a canonical path begins with a slash, ends with none unless it is the
/// root, and has no component `.` or `..` and no empty one. Each path on the way to it, the root
/// aside, and the path itself are there and no symbolic links, and it is its own canonical path, from
/// whatever directory it is taken.
pub proof fn lemma_canonical_path<FS: Filesystem>(
    s: FS,
    path: Seq<char>,
    cwd: Seq<char>,
    elsewhere: Seq<char>,
)
    requires
        stays(s),
        canonical(s, path, cwd).1 is Ok,
    ensures
        ({
            let p = canonical(s, path, cwd).1->Ok_0;
            &&& p.len() > 0 && p[0] == '/'
            &&& p == "/"@ || p.last() != '/'
            &&& made_of_names(p)
            &&& forall|n: int|
                0 < n <= p.len() && (n == p.len() || p[n] == '/') && p != "/"@ ==> (s.lstats(
                    #[trigger] p.take(n),
                ) matches Ok(entry) && entry.file_type != FileType::Symlink)
            &&& canonical(s, p, elsewhere) == (s, Ok::<Seq<char>, Seq<char>>(p))
        }),
{
    reveal_strlit("/");
    let start = if absolute(path) {
        path
    } else {
        joined(cwd, path)
    };
    lemma_followed_solid(s, start, Seq::empty(), path, 0);
    lemma_canonical_again(s, path, cwd, elsewhere);
    let parts = followed(s, start, Seq::empty(), path, 0).1->Ok_0;
    let p = built(parts);
    if parts.len() > 0 {
        let last = parts.last();
        assert(is_name(last));
        assert(last.contains(last.last()));
        assert(p.last() == last.last());
        assert forall|n: int|
            0 < n <= p.len() && (n == p.len() || p[n] == '/') implies (s.lstats(
            #[trigger] p.take(n),
        ) matches Ok(entry) && entry.file_type != FileType::Symlink) by {
            let k = lemma_prefix_built(parts, n);
            assert(s.lstats(built(parts.take(k))) is Ok);
        }
    }
}

proof fn lemma_root_components(path: Seq<char>)
    requires
        path == "/"@,
    ensures
        components(path) == seq![StepView::Root, StepView::Current],
{
    reveal_strlit("/");
    reveal_strlit("..");
    let rest = path.skip(1);
    assert(rest =~= Seq::<char>::empty());
    assert(leading_slashes(rest) == 0);
    assert(leading_slashes(path) == 1);
    let all = text::split(rest, '/');
    assert(all =~= seq![rest]);
    assert(text::nonempty(all.drop_last()) =~= Seq::<Seq<char>>::empty());
    assert(pieces(path) =~= seq![rest]);
    assert(components(path) =~= seq![StepView::Root, StepView::Current]);
}

/// The environment when the first `n` paths were asked about one after another.
pub open spec fn after_answers<FS: Filesystem>(
    v: env::EnvView<FS>,
    paths: Seq<Seq<char>>,
    follow: bool,
    n: int,
) -> env::EnvView<FS>
    decreases n,
{
    if n <= 0 {
        v
    } else {
        answered(after_answers(v, paths, follow, n - 1), paths[n - 1], follow).0
    }
}

/// The answer to path `i`, when those before it were asked about.
pub open spec fn answer_to<FS: Filesystem>(
    v: env::EnvView<FS>,
    paths: Seq<Seq<char>>,
    follow: bool,
    i: int,
) -> Result<Seq<char>, Seq<char>> {
    answered(after_answers(v, paths, follow, i), paths[i], follow).1
}

/// The answers to the first `n` paths.
pub open spec fn answers_to<FS: Filesystem>(
    v: env::EnvView<FS>,
    paths: Seq<Seq<char>>,
    follow: bool,
    n: int,
) -> Seq<Seq<char>> {
    Seq::new(n as nat, |i: int| answer_to(v, paths, follow, i)->Ok_0)
}

proof fn lemma_answered_output<FS: Filesystem>(v: env::EnvView<FS>, path: Seq<char>, follow: bool)
    ensures
        answered(v, path, follow).0.out == v.out,
        answered(v, path, follow).0.cwd == v.cwd,
{
}

proof fn lemma_answered_alike<FS: Filesystem>(
    v: env::EnvView<FS>,
    w: env::EnvView<FS>,
    path: Seq<char>,
    follow: bool,
)
    requires
        v.fs == w.fs,
        v.cwd == w.cwd,
    ensures
        answered(v, path, follow).1 == answered(w, path, follow).1,
        answered(v, path, follow).0.fs == answered(w, path, follow).0.fs,
{
}

proof fn lemma_answers_from<FS: Filesystem>(
    v: env::EnvView<FS>,
    x: env::EnvView<FS>,
    p: options::ParsedView,
    i: int,
)
    requires
        0 <= i <= p.free.len(),
        forall|k: int|
            0 <= k < p.free.len() ==> #[trigger] answer_to(v, p.free, p.present('f'), k) is Ok,
        x.fs == after_answers(v, p.free, p.present('f'), i).fs,
        x.cwd == after_answers(v, p.free, p.present('f'), i).cwd,
        x.out == v.out + if p.present('n') {
            text::join(answers_to(v, p.free, p.present('f'), i), seq![' '])
        } else {
            text::unlines(answers_to(v, p.free, p.present('f'), i))
        },
    ensures
        ({
            let n = p.free.len() as int;
            let all = answers_to(v, p.free, p.present('f'), n);
            let (w, code) = printed(x, p, i, 0);
            &&& w.out == v.out + if p.present('n') {
                text::join(all, seq![' '])
            } else {
                text::unlines(all)
            }
            &&& code == 0
        }),
    decreases p.free.len() - i,
{
    let follow = p.present('f');
    if i < p.free.len() {
        let before = after_answers(v, p.free, follow, i);
        lemma_answered_alike(before, x, p.free[i], follow);
        lemma_answered_output(x, p.free[i], follow);
        lemma_answered_output(before, p.free[i], follow);
        assert(answer_to(v, p.free, follow, i) is Ok);
        let target = answer_to(v, p.free, follow, i)->Ok_0;
        let (w, answer) = answered(x, p.free[i], follow);
        assert(answer == Ok::<Seq<char>, Seq<char>>(target));
        let y = reported(w, answer, i, p.present('n'));
        let done = answers_to(v, p.free, follow, i);
        let more = answers_to(v, p.free, follow, i + 1);
        assert(more =~= done.push(target));
        assert(more.drop_last() =~= done);
        reveal_strlit(" ");
        assert(" "@ =~= seq![' ']);
        if p.present('n') {
            if i == 0 {
                assert(done =~= Seq::<Seq<char>>::empty());
                assert(v.out + text::join(done, seq![' ']) + target =~= v.out + target);
            } else {
                assert(v.out + text::join(done, seq![' ']) + " "@ + target =~= v.out + text::join(
                    more,
                    seq![' '],
                ));
            }
        } else {
            assert(v.out + text::unlines(done) + text::terminated(target) =~= v.out + text::unlines(
                more,
            ));
        }
        lemma_answers_from(v, y, p, i + 1);
    }
}

/// The answers are printed one after another, each on a line of its own, or with -n on one line with
/// a space between each two and no newline.
pub proof fn lemma_answers_printed<FS: Filesystem>(v: env::EnvView<FS>, p: options::ParsedView)
    requires
        p.free.len() > 0,
        forall|k: int|
            0 <= k < p.free.len() ==> #[trigger] answer_to(v, p.free, p.present('f'), k) is Ok,
    ensures
        ({
            let all = answers_to(v, p.free, p.present('f'), p.free.len() as int);
            let (w, r) = ran(v, p);
            &&& w.out == v.out + if p.present('n') {
                text::join(all, seq![' '])
            } else {
                text::unlines(all)
            }
            &&& r == Ok::<int, env::ErrorView>(0)
        }),
{
    let none = answers_to(v, p.free, p.present('f'), 0);
    assert(none =~= Seq::<Seq<char>>::empty());
    assert(v.out + Seq::<char>::empty() =~= v.out);
    lemma_answers_from(v, v, p, 0);
}

proof fn lemma_followed_alike<FS: Filesystem>(
    s: FS,
    path: Seq<char>,
    parts: Seq<Seq<char>>,
    a: Seq<char>,
    b: Seq<char>,
    deep: nat,
    depth: nat,
)
    requires
        stays(s),
        depth <= deep,
        followed(s, path, parts, a, deep).1 is Ok,
    ensures
        followed(s, path, parts, a, deep).0 == s,
        followed(s, path, parts, b, depth) == followed(s, path, parts, a, deep),
    decreases MAX_LINKS + 1 - deep, 1int, 0int,
{
    lemma_stepped_alike(s, components(path), 0, parts, a, b, deep, depth);
}

proof fn lemma_stepped_alike<FS: Filesystem>(
    s: FS,
    list: Seq<StepView>,
    i: int,
    parts: Seq<Seq<char>>,
    a: Seq<char>,
    b: Seq<char>,
    deep: nat,
    depth: nat,
)
    requires
        stays(s),
        0 <= i,
        depth <= deep <= MAX_LINKS,
        stepped(s, list, i, parts, a, deep).1 is Ok,
    ensures
        stepped(s, list, i, parts, a, deep).0 == s,
        stepped(s, list, i, parts, b, depth) == stepped(s, list, i, parts, a, deep),
    decreases MAX_LINKS + 1 - deep, 0int, list.len() - i,
{
    if i < list.len() {
        match list[i] {
            StepView::Root => lemma_stepped_alike(
                s,
                list,
                i + 1,
                Seq::empty(),
                a,
                b,
                deep,
                depth,
            ),
            StepView::AppDefined => lemma_stepped_alike(
                s,
                list,
                i + 1,
                Seq::empty(),
                a,
                b,
                deep,
                depth,
            ),
            StepView::Current => lemma_stepped_alike(s, list, i + 1, parts, a, b, deep, depth),
            StepView::Parent => lemma_stepped_alike(
                s,
                list,
                i + 1,
                if parts.len() > 0 {
                    parts.drop_last()
                } else {
                    parts
                },
                a,
                b,
                deep,
                depth,
            ),
            StepView::Name(name) => {
                let here = built(parts.push(name));
                assert(s.after(fs::Request::Lstat(here)) == s);
                assert(s.after(fs::Request::Readlink(here)) == s);
                let entry = s.lstats(here)->Ok_0;
                if entry.file_type != FileType::Symlink {
                    lemma_stepped_alike(s, list, i + 1, parts.push(name), a, b, deep, depth);
                } else {
                    let target = s.readlinks(here)->Ok_0;
                    let to = link_path(parts, target);
                    lemma_followed_alike(s, to, parts, a, b, deep + 1, depth + 1);
                    let p = followed(s, to, parts, a, deep + 1).1->Ok_0;
                    lemma_stepped_alike(s, list, i + 1, p, a, b, deep, depth);
                }
            },
        }
    }
}

proof fn lemma_steps_to_link<FS: Filesystem>(
    s: FS,
    parts: Seq<Seq<char>>,
    list: Seq<StepView>,
    i: int,
    original: Seq<char>,
)
    requires
        stays(s),
        solid(s, parts),
        0 <= i <= parts.len(),
        list.len() > parts.len(),
        forall|j: int| 0 <= j < parts.len() ==> #[trigger] list[j + 1] == StepView::Name(parts[j]),
    ensures
        stepped(s, list, i + 1, parts.take(i), original, 0) == stepped(
            s,
            list,
            parts.len() as int + 1,
            parts,
            original,
            0,
        ),
    decreases parts.len() - i,
{
    if i < parts.len() {
        let more = parts.take(i + 1);
        assert(parts.take(i).push(parts[i]) =~= more);
        assert(list[i + 1] == StepView::Name(parts[i]));
        assert(s.lstats(built(more)) matches Ok(entry) && entry.file_type != FileType::Symlink);
        assert(s.after(fs::Request::Lstat(built(more))) == s);
        lemma_steps_to_link(s, parts, list, i + 1, original);
    } else {
        assert(parts.take(i) =~= parts);
    }
}

/// A symbolic link leads where its target leads: an absolute target as it is, another one from the
/// directory that the link stands in.
pub proof fn lemma_link_leads<FS: Filesystem>(
    s: FS,
    parts: Seq<Seq<char>>,
    name: Seq<char>,
    target: Seq<char>,
    cwd: Seq<char>,
)
    requires
        stays(s),
        all_names(parts),
        solid(s, parts),
        is_name(name),
        s.lstats(built(parts.push(name))) is Ok,
        s.lstats(built(parts.push(name)))->Ok_0.file_type == FileType::Symlink,
        s.readlinks(built(parts.push(name))) == Ok::<Seq<char>, fs::IoView>(target),
        canonical(s, built(parts.push(name)), cwd).1 is Ok,
    ensures
        ({
            let to = if target.len() > 0 && target[0] == '/' {
                target
            } else if parts.len() == 0 {
                seq!['/'] + target
            } else {
                built(parts) + seq!['/'] + target
            };
            canonical(s, built(parts.push(name)), cwd) == canonical(s, to, cwd)
        }),
{
    reveal_strlit("/");
    assert("/"@ =~= seq!['/']);
    let whole = parts.push(name);
    let path = built(whole);
    let list = components(path);
    assert forall|i: int| 0 <= i < whole.len() implies is_name(#[trigger] whole[i]) by {
        if i < parts.len() {
            assert(is_name(parts[i]));
        }
    }
    lemma_components_built(whole);
    assert(list[0] == StepView::Root);
    assert forall|j: int| 0 <= j < parts.len() implies #[trigger] list[j + 1] == StepView::Name(
        parts[j],
    ) by {
        assert(list[j + 1] == StepView::Name(whole[j]));
    }
    assert(list[parts.len() as int + 1] == StepView::Name(whole[parts.len() as int]));
    let none = Seq::<Seq<char>>::empty();
    assert(parts.take(0) =~= none);
    lemma_steps_to_link(s, parts, list, 0, path);
    assert(s.after(fs::Request::Lstat(path)) == s);
    assert(s.after(fs::Request::Readlink(path)) == s);
    let link = link_path(parts, target);
    assert(path[0] == '/');
    assert(followed(s, path, none, path, 0) == stepped(
        s,
        list,
        parts.len() as int + 1,
        parts,
        path,
        0,
    ));
    let to = if target.len() > 0 && target[0] == '/' {
        target
    } else if parts.len() == 0 {
        seq!['/'] + target
    } else {
        built(parts) + seq!['/'] + target
    };
    assert(link =~= to) by {
        if parts.len() > 0 {
            let last = parts.last();
            assert(is_name(parts[parts.len() - 1]));
            assert(last.contains(last.last()));
            assert(built(parts).last() == last.last());
        }
    }
    lemma_followed_alike(s, to, parts, path, to, 1, 0);
    lemma_start_forgotten(s, to, parts, none, to);
    let found = followed(s, to, parts, path, 1);
    assert(stepped(s, list, parts.len() as int + 2, found.1->Ok_0, path, 0) == (
        s,
        Ok::<Seq<Seq<char>>, Seq<char>>(found.1->Ok_0),
    ));
}

proof fn lemma_start_forgotten<FS: Filesystem>(
    s: FS,
    path: Seq<char>,
    parts: Seq<Seq<char>>,
    others: Seq<Seq<char>>,
    original: Seq<char>,
)
    requires
        absolute(path),
    ensures
        followed(s, path, parts, original, 0) == followed(s, path, others, original, 0),
{
    let list = components(path);
    assert(leading_slashes(path) > 0);
    assert(list.len() > 0);
    assert(list[0] == StepView::Root || list[0] == StepView::AppDefined);
    assert(stepped(s, list, 0, parts, original, 0) == stepped(
        s,
        list,
        1,
        Seq::empty(),
        original,
        0,
    ));
    assert(stepped(s, list, 0, others, original, 0) == stepped(
        s,
        list,
        1,
        Seq::empty(),
        original,
        0,
    ));
}

proof fn lemma_components_behind(parts: Seq<Seq<char>>, last: Seq<char>)
    requires
        all_names(parts),
        parts.len() > 0,
        last == seq!['.'] || last == seq!['.', '.'],
    ensures
        ({
            let list = components(built(parts) + seq!['/'] + last);
            &&& list.len() == parts.len() + 2
            &&& list[0] == StepView::Root
            &&& forall|j: int|
                0 <= j < parts.len() ==> #[trigger] list[j + 1] == StepView::Name(parts[j])
            &&& list[parts.len() as int + 1] == step_of(last)
        }),
{
    reveal_strlit("/");
    assert("/"@ =~= seq!['/']);
    let whole = parts.push(last);
    let rest = text::join(whole, seq!['/']);
    let path = built(parts) + seq!['/'] + last;
    assert(whole.drop_last() =~= parts);
    assert(path =~= seq!['/'] + rest);
    assert forall|i: int| 0 <= i < whole.len() implies !(#[trigger] whole[i]).contains('/') by {
        if i < parts.len() {
            assert(is_name(parts[i]));
        }
    }
    text::lemma_split_join(whole, '/');
    assert(rest.len() > 0 && rest[0] != '/') by {
        let first = parts[0];
        assert(is_name(first));
        assert(first.contains(first[0]));
        text::lemma_join_first(first, whole.skip(1), seq!['/']);
        assert(whole =~= seq![first] + whole.skip(1));
    }
    assert(path.skip(1) =~= rest);
    assert(leading_slashes(rest) == 0);
    assert(leading_slashes(path) == 1);
    assert forall|i: int| 0 <= i < parts.len() implies (#[trigger] parts[i]).len() > 0 by {
        assert(is_name(parts[i]));
    }
    lemma_nonempty_all(parts);
    assert(pieces(path) =~= whole);
    let list = components(path);
    assert forall|j: int| 0 <= j < parts.len() implies #[trigger] list[j + 1] == StepView::Name(
        parts[j],
    ) by {
        assert(list[j + 1] == step_of(whole[j]));
        assert(is_name(parts[j]));
    }
    assert(list[parts.len() as int + 1] == step_of(whole[parts.len() as int]));
}

/// `..` leads from a directory to the one that holds it, and `.` to the directory itself.
pub proof fn lemma_dots_lead<FS: Filesystem>(
    s: FS,
    parts: Seq<Seq<char>>,
    cwd: Seq<char>,
)
    requires
        stays(s),
        all_names(parts),
        solid(s, parts),
        parts.len() > 0,
    ensures
        canonical(s, built(parts) + seq!['/', '.', '.'], cwd) == (
            s,
            Ok::<Seq<char>, Seq<char>>(built(parts.drop_last())),
        ),
        canonical(s, built(parts) + seq!['/', '.'], cwd) == (
            s,
            Ok::<Seq<char>, Seq<char>>(built(parts)),
        ),
{
    reveal_strlit("/");
    reveal_strlit(".");
    reveal_strlit("..");
    assert("/"@ =~= seq!['/']);
    assert("."@ =~= seq!['.']);
    assert(".."@ =~= seq!['.', '.']);
    let up = built(parts) + seq!['/', '.', '.'];
    let here = built(parts) + seq!['/', '.'];
    assert(up =~= built(parts) + seq!['/'] + seq!['.', '.']);
    assert(here =~= built(parts) + seq!['/'] + seq!['.']);
    assert("."@.len() == 1 && ".."@.len() == 2);
    assert(step_of(".."@) == StepView::Parent);
    assert(step_of("."@) == StepView::Current);
    assert(up[0] == '/' && here[0] == '/');
    lemma_dotted(s, parts, up, seq!['.', '.']);
    lemma_dotted(s, parts, here, seq!['.']);
}

proof fn lemma_dotted<FS: Filesystem>(
    s: FS,
    parts: Seq<Seq<char>>,
    path: Seq<char>,
    last: Seq<char>,
)
    requires
        stays(s),
        all_names(parts),
        solid(s, parts),
        parts.len() > 0,
        path == built(parts) + seq!['/'] + last,
        last == seq!['.'] || last == seq!['.', '.'],
        step_of(last) == StepView::Parent || step_of(last) == StepView::Current,
    ensures
        followed(s, path, Seq::empty(), path, 0) == (
            s,
            Ok::<Seq<Seq<char>>, Seq<char>>(
                if step_of(last) == StepView::Parent {
                    parts.drop_last()
                } else {
                    parts
                },
            ),
        ),
{
    let list = components(path);
    lemma_components_behind(parts, last);
    let none = Seq::<Seq<char>>::empty();
    assert(parts.take(0) =~= none);
    lemma_steps_to_link(s, parts, list, 0, path);
    let end = if step_of(last) == StepView::Parent {
        parts.drop_last()
    } else {
        parts
    };
    assert(stepped(s, list, parts.len() as int + 2, end, path, 0) == (
        s,
        Ok::<Seq<Seq<char>>, Seq<char>>(end),
    ));
    assert(stepped(s, list, 0, none, path, 0) == stepped(s, list, 1, none, path, 0));
}

} // verus!
