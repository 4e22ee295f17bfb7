//! The mkdir builtin: create directories.

use crate::env::{Environment, Error, ExitCode};
use crate::env;
use crate::fs::{Filesystem, FsError};
use crate::fs;
use crate::options::{Arity, OptDef, Parsed};
use crate::options;
use crate::paths;
use crate::text;
use vstd::prelude::*;

verus! {

broadcast use vstd::string::group_string_axioms;

pub const USAGE: &'static str = "usage: mkdir [-pv] directory ...";

/// The options of the command.
pub open spec fn table() -> Seq<OptDef> {
    seq![
        OptDef { short: 'm', long: "", arity: Arity::Value },
        OptDef { short: 'p', long: "", arity: Arity::Flag },
        OptDef { short: 'v', long: "", arity: Arity::Flag },
    ]
}

fn build_options() -> (r: Vec<OptDef>)
    ensures
        r@ == table(),
        options::all_declarable(options::definitions(r@)),
{
    let r = vec![
        OptDef { short: 'm', long: "", arity: Arity::Value },
        OptDef { short: 'p', long: "", arity: Arity::Flag },
        OptDef { short: 'v', long: "", arity: Arity::Flag },
    ];
    proof {
        reveal_strlit("");
    }
    r
}

/// The words of a failed operation.
pub open spec fn words(r: Result<(), fs::IoView>) -> Result<(), Seq<char>> {
    match r {
        Ok(_) => Ok(()),
        Err(e) => Err(e.message),
    }
}

pub open spec fn message_result(r: Result<(), String>) -> Result<(), Seq<char>> {
    match r {
        Ok(_) => Ok(()),
        Err(m) => Err(m@),
    }
}

/// What making a directory and reporting it comes to.
pub open spec fn made<FS: Filesystem>(v: env::EnvView<FS>, path: Seq<char>, verbose: bool) -> (
    env::EnvView<FS>,
    Result<(), Seq<char>>,
) {
    let w = v.asked(fs::Request::Mkdir(path));
    let r = words(v.fs.mkdirs(path));
    (
        if r is Ok && verbose {
            w.write_line(path)
        } else {
            w
        },
        r,
    )
}

fn make<FS: Filesystem>(env: &mut Environment<FS>, path: &str, verbose: bool) -> (r: Result<
    (),
    String,
>)
    ensures
        (final(env)@, message_result(r)) == made(old(env)@, path@, verbose),
{
    match env.fs.mkdir(path) {
        Ok(_) => {
            if verbose {
                env.write_line(path);
            }
            Ok(())
        },
        Err(FsError::Io(e)) => Err(e.message),
    }
}

/// Whether a path has a parent that must be there first: the root and the working directory always
/// are.
pub open spec fn has_parent(path: Seq<char>) -> bool {
    paths::parent(path) is Some && paths::parent(path)->0.len() > 0 && paths::parent(path)->0
        != "/"@
}

/// What creating one directory comes to: nothing may be at the path, and its parent must be a
/// directory.
pub open spec fn single<FS: Filesystem>(v: env::EnvView<FS>, path: Seq<char>, verbose: bool) -> (
    env::EnvView<FS>,
    Result<(), Seq<char>>,
) {
    let w = v.asked(fs::Request::Exists(path));
    let x = w.asked(fs::Request::IsDir(path));
    if v.fs.has(path) {
        (w, Err("File exists"@))
    } else if w.fs.has_dir(path) {
        (x, Err("File exists"@))
    } else if has_parent(path) {
        let up = paths::parent(path)->0;
        let y = x.asked(fs::Request::IsDir(up));
        if x.fs.has_dir(up) {
            made(y, path, verbose)
        } else {
            (
                y.asked(fs::Request::Exists(up)),
                Err(
                    if y.fs.has(up) {
                        "Not a directory"@
                    } else {
                        "No such file or directory"@
                    },
                ),
            )
        }
    } else {
        made(x, path, verbose)
    }
}

/// Creates a single directory without creating parents.
pub fn create_single<FS: Filesystem>(
    env: &mut Environment<FS>,
    path: &str,
    verbose: bool,
) -> (r: Result<(), String>)
    ensures
        (final(env)@, message_result(r)) == single(old(env)@, path@, verbose),
{
    if env.fs.path_exists(path) || env.fs.is_dir(path) {
        return Err("File exists".to_owned());
    }
    if let Some(up) = paths::parent_of(path) {
        if !up.as_str().is_empty() && !text::same(up.as_str(), "/") && !env.fs.is_dir(up.as_str()) {
            if env.fs.path_exists(up.as_str()) {
                return Err("Not a directory".to_owned());
            } else {
                return Err("No such file or directory".to_owned());
            }
        }
    }
    make(env, path, verbose)
}

/// The directories that are missing on the way to a path, the path first. The way ends at the
/// first directory that is there. `found` are those that were seen to be missing so far.
pub open spec fn missing<FS: Filesystem>(
    v: env::EnvView<FS>,
    path: Option<Seq<char>>,
    found: Seq<Seq<char>>,
) -> (env::EnvView<FS>, Result<Seq<Seq<char>>, Seq<char>>)
    decreases (if path is Some { path->0.len() + 1 } else { 0 }),
{
    match path {
        None => (v, Ok(found)),
        Some(s) => {
            proof {
                paths::lemma_parent_shorter(s);
            }
            if s.len() == 0 || s == "/"@ {
                missing(v, paths::parent(s), found)
            } else {
                let w = v.asked(fs::Request::IsDir(s));
                let x = w.asked(fs::Request::Exists(s));
                if v.fs.has_dir(s) {
                    (w, Ok(found))
                } else if w.fs.has(s) {
                    (x, Err(s + ": Not a directory"@))
                } else {
                    missing(x, paths::parent(s), found.push(s))
                }
            }
        },
    }
}

pub open spec fn list_result(r: Result<Vec<String>, String>) -> Result<Seq<Seq<char>>, Seq<char>> {
    match r {
        Ok(v) => Ok(v.deep_view()),
        Err(m) => Err(m@),
    }
}

fn find_missing<FS: Filesystem>(env: &mut Environment<FS>, path: &str) -> (r: Result<
    Vec<String>,
    String,
>)
    ensures
        (final(env)@, list_result(r)) == missing(old(env)@, Some(path@), Seq::empty()),
{
    let mut found: Vec<String> = Vec::new();
    let mut at: Option<String> = Some(path.to_owned());
    assert(found.deep_view() =~= Seq::<Seq<char>>::empty());
    let ghost start = env@;
    loop
        invariant
            missing(env@, options::opt_text(at), found.deep_view()) == missing(
                start,
                Some(path@),
                Seq::empty(),
            ),
            start == old(env)@,
        decreases (if at is Some { at->0@.len() + 1 } else { 0 }),
    {
        match at {
            None => {
                return Ok(found);
            },
            Some(s) => {
                proof {
                    paths::lemma_parent_shorter(s@);
                }
                if !(s.as_str().is_empty() || text::same(s.as_str(), "/")) {
                    if env.fs.is_dir(s.as_str()) {
                        return Ok(found);
                    }
                    if env.fs.path_exists(s.as_str()) {
                        let mut m = s;
                        m.append(": Not a directory");
                        return Err(m);
                    }
                    let ghost shown = found.deep_view();
                    found.push(s.clone());
                    assert(found.deep_view() =~= shown.push(s@));
                }
                at = paths::parent_of(s.as_str());
            },
        }
    }
}

/// What making the directories comes to, the last of the first `n` first. The first failure ends
/// it.
pub open spec fn all_made<FS: Filesystem>(
    v: env::EnvView<FS>,
    dirs: Seq<Seq<char>>,
    n: int,
    verbose: bool,
) -> (env::EnvView<FS>, Result<(), Seq<char>>)
    decreases n,
{
    if n <= 0 {
        (v, Ok(()))
    } else {
        match made(v, dirs[n - 1], verbose) {
            (w, Err(m)) => (w, Err(m)),
            (w, Ok(_)) => all_made(w, dirs, n - 1, verbose),
        }
    }
}

/// What creating a directory with its parents comes to.
pub open spec fn with_parents<FS: Filesystem>(
    v: env::EnvView<FS>,
    path: Seq<char>,
    verbose: bool,
) -> (env::EnvView<FS>, Result<(), Seq<char>>) {
    let w = v.asked(fs::Request::IsDir(path));
    let x = w.asked(fs::Request::Exists(path));
    if v.fs.has_dir(path) {
        (w, Ok(()))
    } else if w.fs.has(path) {
        (x, Err("File exists"@))
    } else {
        match missing(x, Some(path), Seq::empty()) {
            (y, Err(m)) => (y, Err(m)),
            (y, Ok(dirs)) => all_made(y, dirs, dirs.len() as int, verbose),
        }
    }
}

/// Creates a directory and all parent directories as needed.
pub fn create_with_parents<FS: Filesystem>(
    env: &mut Environment<FS>,
    path: &str,
    verbose: bool,
) -> (r: Result<(), String>)
    ensures
        (final(env)@, message_result(r)) == with_parents(old(env)@, path@, verbose),
{
    if env.fs.is_dir(path) {
        return Ok(());
    }
    if env.fs.path_exists(path) {
        return Err("File exists".to_owned());
    }
    let dirs = match find_missing(env, path) {
        Ok(dirs) => dirs,
        Err(m) => {
            return Err(m);
        },
    };
    let ghost start = env@;
    let ghost shown = dirs.deep_view();
    let mut n: usize = dirs.len();
    while n > 0
        invariant
            n <= dirs@.len(),
            shown == dirs.deep_view(),
            all_made(env@, shown, n as int, verbose) == all_made(
                start,
                shown,
                shown.len() as int,
                verbose,
            ),
            all_made(start, shown, shown.len() as int, verbose) == with_parents(
                old(env)@,
                path@,
                verbose,
            ),
        decreases n,
    {
        match make(env, dirs[n - 1].as_str(), verbose) {
            Ok(_) => {},
            Err(m) => {
                return Err(m);
            },
        }
        n -= 1;
    }
    Ok(())
}

/// What creating each directory from `i` on comes to: the exit code is 1 where one of them failed.
pub open spec fn created<FS: Filesystem>(
    v: env::EnvView<FS>,
    p: options::ParsedView,
    i: int,
    code: int,
) -> (env::EnvView<FS>, int)
    decreases p.free.len() - i,
{
    if i < 0 || i >= p.free.len() {
        (v, code)
    } else {
        let dir = p.free[i];
        let (w, r) = if p.present('p') {
            with_parents(v, dir, p.present('v'))
        } else {
            single(v, dir, p.present('v'))
        };
        match r {
            Ok(_) => created(w, p, i + 1, code),
            Err(m) => created(w.error_line("mkdir: "@ + dir + ": "@ + m), p, i + 1, 1),
        }
    }
}

/// What the command does with these options.
pub open spec fn ran<FS: Filesystem>(v: env::EnvView<FS>, p: options::ParsedView) -> (
    env::EnvView<FS>,
    Result<int, env::ErrorView>,
) {
    if p.free.len() == 0 {
        (v.error_line(USAGE@), Ok(1))
    } else {
        let (w, code) = created(v, p, 0, 0);
        (w, Ok(code))
    }
}

/// Runs the command with these options.
pub fn run<FS: Filesystem>(env: &mut Environment<FS>, p: &Parsed) -> (r: Result<ExitCode, Error>)
    ensures
        (final(env)@, env::outcome(r)) == ran(old(env)@, p@),
{
    let create_parents = p.present('p');
    let verbose = p.present('v');
    if p.free.len() == 0 {
        env.error_line(USAGE);
        return Ok(ExitCode::new(1));
    }
    let ghost start = env@;
    let mut code: i32 = 0;
    let mut i: usize = 0;
    while i < p.free.len()
        invariant
            i <= p.free@.len(),
            create_parents == p@.present('p'),
            verbose == p@.present('v'),
            code == 0 || code == 1,
            created(env@, p@, i as int, code as int) == created(start, p@, 0, 0),
        decreases p.free.len() - i,
    {
        let dir = p.free[i].as_str();
        let done = if create_parents {
            create_with_parents(env, dir, verbose)
        } else {
            create_single(env, dir, verbose)
        };
        if let Err(e) = done {
            let mut m = "mkdir: ".to_owned();
            m.append(dir);
            m.append(": ");
            m.append(e.as_str());
            env.error_line(m.as_str());
            code = 1;
        }
        i += 1;
    }
    Ok(ExitCode::new(code))
}

/// What the command does.
pub open spec fn spec_bin<FS: Filesystem>(v: env::EnvView<FS>) -> (
    env::EnvView<FS>,
    Result<int, env::ErrorView>,
) {
    match options::parsed(table(), v.args.skip(1)) {
        Ok(p) => ran(v, p),
        Err(message) => (v.error_line("mkdir: "@ + message), Ok(1)),
    }
}

/// The mkdir builtin: create directories.
pub fn bin<FS: Filesystem>(env: &mut Environment<FS>) -> (r: Result<ExitCode, Error>)
    requires
        old(env)@.args.len() > 0,
    ensures
        (final(env)@, env::outcome(r)) == spec_bin(old(env)@),
{
    let opts = build_options();
    match options::parse(&opts, &env.args) {
        Ok(p) => run(env, &p),
        Err(e) => {
            let mut m = "mkdir: ".to_owned();
            m.append(e.as_str());
            env.error_line(m.as_str());
            Ok(ExitCode::new(1))
        },
    }
}

// ---------------------------------------------------------------------------------------------
// Laws
// ---------------------------------------------------------------------------------------------

/// With `-p`, a directory that is there is no failure, and nothing is written about it.
pub proof fn lemma_existing_directory_accepted<FS: Filesystem>(
    v: env::EnvView<FS>,
    path: Seq<char>,
    verbose: bool,
)
    requires
        v.fs.has_dir(path),
    ensures
        with_parents(v, path, verbose) == (
            v.asked(fs::Request::IsDir(path)),
            Ok::<(), Seq<char>>(()),
        ),
{
}

/// Without `-p`, what is there is never replaced.
pub proof fn lemma_existing_path_refused<FS: Filesystem>(
    v: env::EnvView<FS>,
    path: Seq<char>,
    verbose: bool,
)
    requires
        v.fs.has(path),
    ensures
        single(v, path, verbose) == (
            v.asked(fs::Request::Exists(path)),
            Err::<(), Seq<char>>("File exists"@),
        ),
{
}

/// Of the directories that are found missing, each is the parent of the one found before it, and
/// the first is the path itself, unless that is the root or empty.
pub proof fn lemma_missing_chain<FS: Filesystem>(
    v: env::EnvView<FS>,
    path: Option<Seq<char>>,
    found: Seq<Seq<char>>,
)
    requires
        chain(found, path),
    ensures
        missing(v, path, found).1 matches Ok(dirs) ==> found.len() <= dirs.len() && dirs.take(
            found.len() as int,
        ) == found && (forall|i: int|
            0 < i < dirs.len() ==> paths::parent(dirs[i - 1]) == Some(#[trigger] dirs[i])),
    decreases (if path is Some { path->0.len() + 1 } else { 0 }),
{
    match path {
        None => {
            assert(found.take(found.len() as int) =~= found);
        },
        Some(s) => {
            paths::lemma_parent_shorter(s);
            reveal_strlit("/");
            if s.len() == 0 || s == "/"@ {
                assert(paths::parent(s) is None) by {
                    assert(s.len() == 1 ==> s =~= seq!['/']);
                }
                assert(missing(v, None, found).1 == Ok::<Seq<Seq<char>>, Seq<char>>(found));
                assert(found.take(found.len() as int) =~= found);
            } else {
                let w = v.asked(fs::Request::IsDir(s));
                let x = w.asked(fs::Request::Exists(s));
                assert(found.take(found.len() as int) =~= found);
                if !v.fs.has_dir(s) && !w.fs.has(s) {
                    let more = found.push(s);
                    lemma_missing_chain(x, paths::parent(s), more);
                    if let Ok(dirs) = missing(x, paths::parent(s), more).1 {
                        assert(dirs.take(found.len() as int) =~= dirs.take(
                            more.len() as int,
                        ).take(found.len() as int));
                        assert(more.take(found.len() as int) =~= found);
                    }
                }
            }
        },
    }
}

/// Whether each path is the parent of the one before it, and `next` is the parent of the last.
pub open spec fn chain(found: Seq<Seq<char>>, next: Option<Seq<char>>) -> bool {
    &&& forall|i: int|
        0 < i < found.len() ==> paths::parent(found[i - 1]) == Some(#[trigger] found[i])
    &&& found.len() > 0 ==> paths::parent(found.last()) == next
}

/// Whether filesystems of a kind keep their directories: asking takes none away and adds none, what
/// was made is a directory, making one takes no other away, and what holds a directory is one too.
pub open spec fn keeps_directories<FS: Filesystem>() -> bool {
    &&& forall|s: FS, p: Seq<char>, q: Seq<char>| #[trigger]
        s.after(fs::Request::IsDir(q)).has_dir(p) == s.has_dir(p)
    &&& forall|s: FS, p: Seq<char>, q: Seq<char>| #[trigger]
        s.after(fs::Request::Exists(q)).has_dir(p) == s.has_dir(p)
    &&& forall|s: FS, p: Seq<char>|
        s.mkdirs(p) is Ok ==> (#[trigger] s.after(fs::Request::Mkdir(p))).has_dir(p)
    &&& forall|s: FS, p: Seq<char>, q: Seq<char>|
        s.has_dir(p) ==> #[trigger] s.after(fs::Request::Mkdir(q)).has_dir(p)
    &&& forall|s: FS, p: Seq<char>|
        #[trigger] s.has_dir(p) && has_parent(p) ==> s.has_dir(paths::parent(p)->0)
}

/// The path that is `n` components shorter.
pub open spec fn above(path: Seq<char>, n: nat) -> Option<Seq<char>>
    decreases n,
{
    if n == 0 {
        Some(path)
    } else {
        match above(path, (n - 1) as nat) {
            Some(q) => paths::parent(q),
            None => None,
        }
    }
}

proof fn lemma_all_made<FS: Filesystem>(
    v: env::EnvView<FS>,
    dirs: Seq<Seq<char>>,
    n: int,
    verbose: bool,
)
    requires
        keeps_directories::<FS>(),
        0 <= n <= dirs.len(),
        all_made(v, dirs, n, verbose).1 is Ok,
    ensures
        forall|i: int|
            0 <= i < n ==> all_made(v, dirs, n, verbose).0.fs.has_dir(#[trigger] dirs[i]),
        forall|p: Seq<char>| #[trigger]
            v.fs.has_dir(p) ==> all_made(v, dirs, n, verbose).0.fs.has_dir(p),
    decreases n,
{
    if n > 0 {
        let w = made(v, dirs[n - 1], verbose).0;
        assert(w.fs == v.fs.after(fs::Request::Mkdir(dirs[n - 1])));
        lemma_all_made(w, dirs, n - 1, verbose);
        assert(w.fs.has_dir(dirs[n - 1]));
        assert forall|p: Seq<char>| #[trigger] v.fs.has_dir(p) implies all_made(
            v,
            dirs,
            n,
            verbose,
        ).0.fs.has_dir(p) by {
            assert(w.fs.has_dir(p));
        }
    }
}

/// Where directories are kept, a path that was made with its parents is a directory afterwards, as
/// is each of its parents, and making it once more only asks whether it is there.
pub proof fn lemma_parents_made<FS: Filesystem>(
    v: env::EnvView<FS>,
    path: Seq<char>,
    verbose: bool,
    n: nat,
)
    requires
        keeps_directories::<FS>(),
        path.len() > 0,
        path != "/"@,
        with_parents(v, path, verbose).1 is Ok,
    ensures
        with_parents(v, path, verbose).0.fs.has_dir(path),
        above(path, n) matches Some(q) ==> q.len() == 0 || q == "/"@ || with_parents(
            v,
            path,
            verbose,
        ).0.fs.has_dir(q),
        with_parents(with_parents(v, path, verbose).0, path, verbose) == (
            with_parents(v, path, verbose).0.asked(fs::Request::IsDir(path)),
            Ok::<(), Seq<char>>(()),
        ),
    decreases n,
{
    let w = v.asked(fs::Request::IsDir(path));
    let x = w.asked(fs::Request::Exists(path));
    let end = with_parents(v, path, verbose).0;
    assert(w.fs.has_dir(path) == v.fs.has_dir(path));
    assert(x.fs.has_dir(path) == w.fs.has_dir(path));
    if !v.fs.has_dir(path) {
        let a = x.asked(fs::Request::IsDir(path));
        let b = a.asked(fs::Request::Exists(path));
        let one = seq![path];
        assert(Seq::<Seq<char>>::empty().push(path) =~= one);
        lemma_missing_chain(b, paths::parent(path), one);
        let (y, found) = missing(x, Some(path), Seq::empty());
        assert((y, found) == missing(b, paths::parent(path), one));
        let dirs = found->Ok_0;
        assert(dirs[0] == dirs.take(1)[0]);
        lemma_all_made(y, dirs, dirs.len() as int, verbose);
    }
    if n > 0 {
        lemma_parents_made(v, path, verbose, (n - 1) as nat);
        if let Some(r) = above(path, (n - 1) as nat) {
            reveal_strlit("/");
            if paths::parent(r) is Some {
                assert(r != "/"@) by {
                    if r == "/"@ {
                        assert(r =~= seq!['/']);
                    }
                }
                assert(end.fs.has_dir(r));
            }
        }
    }
}

/// Whether something is at a path.
pub open spec fn present<FS: Filesystem>(s: FS, path: Seq<char>) -> bool {
    s.has_dir(path) || s.has(path)
}

/// The paths from `path` upwards at which nothing is, the innermost first, up to the first at which
/// something is. The root and the working directory always are.
pub open spec fn lacking<FS: Filesystem>(s: FS, path: Option<Seq<char>>) -> Seq<Seq<char>>
    decreases (if path is Some { path->0.len() + 1 } else { 0 }),
{
    match path {
        None => Seq::empty(),
        Some(p) => {
            proof {
                paths::lemma_parent_shorter(p);
            }
            if p.len() == 0 || p == "/"@ || present(s, p) {
                Seq::empty()
            } else {
                seq![p] + lacking(s, paths::parent(p))
            }
        },
    }
}

/// The first of the paths from `path` upwards at which something is; none where that is the root or
/// the working directory.
pub open spec fn nearest<FS: Filesystem>(s: FS, path: Option<Seq<char>>) -> Option<Seq<char>>
    decreases (if path is Some { path->0.len() + 1 } else { 0 }),
{
    match path {
        None => None,
        Some(p) => {
            proof {
                paths::lemma_parent_shorter(p);
            }
            if p.len() == 0 || p == "/"@ {
                None
            } else if present(s, p) {
                Some(p)
            } else {
                nearest(s, paths::parent(p))
            }
        },
    }
}

/// A filesystem after the last of the first `n` directories was made, then the one before it, up to
/// the first.
pub open spec fn fs_after<FS: Filesystem>(s: FS, dirs: Seq<Seq<char>>, n: int) -> FS
    decreases n,
{
    if n <= 0 {
        s
    } else {
        fs_after(s.after(fs::Request::Mkdir(dirs[n - 1])), dirs, n - 1)
    }
}

/// With a line for each of the first `n` directories, the last first.
pub open spec fn reported<FS>(v: env::EnvView<FS>, dirs: Seq<Seq<char>>, n: int) -> env::EnvView<FS>
    decreases n,
{
    if n <= 0 {
        v
    } else {
        reported(v.write_line(dirs[n - 1]), dirs, n - 1)
    }
}

/// Whether a path goes down from directory to directory: no component of it is `..`.
pub open spec fn goes_down(path: Seq<char>) -> bool {
    !text::split(path, '/').contains(".."@)
}

/// Whether filesystems of a kind make what they are asked for and nothing else: asking changes
/// nothing; a directory whose parent is there is made where nothing is; and that brings nothing up at
/// the paths below it.
pub open spec fn makes_directories<FS: Filesystem>() -> bool {
    &&& keeps_directories::<FS>()
    &&& forall|s: FS, p: Seq<char>| #[trigger] s.after(fs::Request::IsDir(p)) == s
    &&& forall|s: FS, p: Seq<char>| #[trigger] s.after(fs::Request::Exists(p)) == s
    &&& forall|s: FS, p: Seq<char>|
        p.len() > 0 && !present(s, p) && (has_parent(p) ==> s.has_dir(paths::parent(p)->0)) ==> #[trigger] s.mkdirs(
            p,
        ) is Ok
    &&& forall|s: FS, p: Seq<char>, q: Seq<char>|
        !present(s, q) && goes_down(q) && is_above(p, q) ==> !#[trigger] present(
            s.after(fs::Request::Mkdir(p)),
            q,
        )
}

/// Whether the first path is one of those above the second.
pub open spec fn is_above(p: Seq<char>, q: Seq<char>) -> bool {
    exists|n: nat| n > 0 && #[trigger] above(q, n) == Some(p)
}

proof fn lemma_missing_is_lacking<FS: Filesystem>(
    v: env::EnvView<FS>,
    path: Option<Seq<char>>,
    found: Seq<Seq<char>>,
)
    requires
        makes_directories::<FS>(),
    ensures
        missing(v, path, found).0 == v,
        match nearest(v.fs, path) {
            Some(q) => if v.fs.has_dir(q) {
                missing(v, path, found).1 == Ok::<Seq<Seq<char>>, Seq<char>>(
                    found + lacking(v.fs, path),
                )
            } else {
                missing(v, path, found).1 is Err
            },
            None => missing(v, path, found).1 == Ok::<Seq<Seq<char>>, Seq<char>>(
                found + lacking(v.fs, path),
            ),
        },
    decreases (if path is Some { path->0.len() + 1 } else { 0 }),
{
    assert(found + Seq::<Seq<char>>::empty() =~= found);
    if let Some(p) = path {
        paths::lemma_parent_shorter(p);
        reveal_strlit("/");
        if p.len() == 0 || p == "/"@ {
            assert(paths::parent(p) is None) by {
                assert(p.len() == 1 ==> p =~= seq!['/']);
            }
            assert(missing(v, None, found) == (v, Ok::<Seq<Seq<char>>, Seq<char>>(found)));
        } else {
            let w = v.asked(fs::Request::IsDir(p));
            let x = w.asked(fs::Request::Exists(p));
            assert(v.fs.after(fs::Request::IsDir(p)) == v.fs);
            assert(w.fs.after(fs::Request::Exists(p)) == w.fs);
            assert(w == v);
            assert(x == v);
            if !present(v.fs, p) {
                lemma_missing_is_lacking(v, paths::parent(p), found.push(p));
                assert(found.push(p) + lacking(v.fs, paths::parent(p)) =~= found + (seq![p]
                    + lacking(v.fs, paths::parent(p))));
            }
        }
    }
}

proof fn lemma_lacking_chain<FS: Filesystem>(s: FS, path: Option<Seq<char>>)
    ensures
        ({
            let l = lacking(s, path);
            &&& l.len() > 0 ==> Some(l[0]) == path
            &&& forall|i: int| 0 <= i < l.len() ==> !present(s, #[trigger] l[i]) && l[i].len() > 0
            &&& forall|i: int| 0 < i < l.len() ==> paths::parent(l[i - 1]) == Some(#[trigger] l[i])
            &&& l.len() > 0 && has_parent(l.last()) ==> nearest(s, path) == paths::parent(l.last())
        }),
    decreases (if path is Some { path->0.len() + 1 } else { 0 }),
{
    if let Some(p) = path {
        paths::lemma_parent_shorter(p);
        if !(p.len() == 0 || p == "/"@ || present(s, p)) {
            let up = paths::parent(p);
            let rest = lacking(s, up);
            lemma_lacking_chain(s, up);
            let l = seq![p] + rest;
            assert forall|i: int| 0 <= i < l.len() implies !present(s, #[trigger] l[i])
                && l[i].len() > 0 by {
                if i > 0 {
                    assert(l[i] == rest[i - 1]);
                }
            }
            assert forall|i: int| 0 < i < l.len() implies paths::parent(l[i - 1]) == Some(
                #[trigger] l[i],
            ) by {
                assert(l[i] == rest[i - 1]);
                if i > 1 {
                    assert(l[i - 1] == rest[i - 2]);
                }
            }
            if rest.len() > 0 {
                assert(l.last() == rest.last());
            } else {
                assert(l.last() == p);
            }
        }
    }
}

proof fn lemma_above_chain(l: Seq<Seq<char>>, i: int, n: nat)
    requires
        0 <= i,
        i + n < l.len(),
        forall|k: int| 0 < k < l.len() ==> paths::parent(l[k - 1]) == Some(#[trigger] l[k]),
    ensures
        above(l[i], n) == Some(l[i + n]),
    decreases n,
{
    if n > 0 {
        lemma_above_chain(l, i, (n - 1) as nat);
        assert(paths::parent(l[i + n - 1]) == Some(l[i + n]));
    }
}

proof fn lemma_lacking_made<FS: Filesystem>(
    v: env::EnvView<FS>,
    l: Seq<Seq<char>>,
    n: int,
    verbose: bool,
)
    requires
        makes_directories::<FS>(),
        0 <= n <= l.len(),
        forall|i: int| 0 <= i < n ==> !present(v.fs, #[trigger] l[i]) && l[i].len() > 0,
        forall|i: int| 0 <= i < l.len() ==> goes_down(#[trigger] l[i]),
        forall|i: int| 0 < i < l.len() ==> paths::parent(l[i - 1]) == Some(#[trigger] l[i]),
        n > 0 && has_parent(l[n - 1]) ==> v.fs.has_dir(paths::parent(l[n - 1])->0),
    ensures
        all_made(v, l, n, verbose) == (
            (if verbose {
                reported(v, l, n)
            } else {
                v
            }).with_fs(fs_after(v.fs, l, n)),
            Ok::<(), Seq<char>>(()),
        ),
    decreases n,
{
    if n > 0 {
        let p = l[n - 1];
        assert(!present(v.fs, p));
        assert(v.fs.mkdirs(p) is Ok);
        let s = v.fs.after(fs::Request::Mkdir(p));
        let w = made(v, p, verbose).0;
        assert(w.fs == s);
        assert(s.has_dir(p));
        assert forall|i: int| 0 <= i < n - 1 implies !present(s, #[trigger] l[i]) && l[i].len()
            > 0 by {
            lemma_above_chain(l, i, (n - 1 - i) as nat);
            assert(is_above(p, l[i]));
            assert(!present(v.fs, l[i]));
            assert(goes_down(l[i]));
        }
        if n > 1 {
            assert(paths::parent(l[n - 2]) == Some(l[n - 1]));
        }
        lemma_lacking_made(w, l, n - 1, verbose);
        if verbose {
            lemma_reported_fs(v.write_line(p), l, n - 1, s);
        }
    } else {
        assert(v.with_fs(v.fs) == v);
    }
}

proof fn lemma_reported_fs<FS>(v: env::EnvView<FS>, dirs: Seq<Seq<char>>, n: int, s: FS)
    ensures
        reported(v.with_fs(s), dirs, n) == reported(v, dirs, n).with_fs(s),
    decreases n,
{
    if n > 0 {
        assert(v.with_fs(s).write_line(dirs[n - 1]) == v.write_line(dirs[n - 1]).with_fs(s));
        lemma_reported_fs(v.write_line(dirs[n - 1]), dirs, n - 1, s);
    }
}

/// What making a directory with its parents comes to, where filesystems make what they are asked for.
/// It fails if and only if the nearest path upwards at which something is, the path itself among
/// them, is no directory, and then nothing is made or reported. Otherwise exactly the directories
/// that are missing are made, the outermost first, and each is reported once where that is wanted;
/// the path and all above it are directories then, and making it once more changes and reports
/// nothing.
pub proof fn lemma_with_parents<FS: Filesystem>(
    v: env::EnvView<FS>,
    path: Seq<char>,
    verbose: bool,
)
    requires
        makes_directories::<FS>(),
        path.len() > 0,
        path == "/"@ ==> v.fs.has_dir(path),
        forall|n: nat| #[trigger] above(path, n) matches Some(q) ==> goes_down(q),
    ensures
        ({
            let (w, r) = with_parents(v, path, verbose);
            let l = lacking(v.fs, Some(path));
            let blocked = nearest(v.fs, Some(path)) matches Some(q) && !v.fs.has_dir(q);
            &&& r is Err == blocked
            &&& blocked ==> w == v
            &&& !blocked ==> w == (if verbose {
                reported(v, l, l.len() as int)
            } else {
                v
            }).with_fs(fs_after(v.fs, l, l.len() as int)) && w.fs.has_dir(path) && with_parents(
                w,
                path,
                verbose,
            ) == (w, Ok::<(), Seq<char>>(()))
            &&& !blocked ==> forall|n: nat| #[trigger]
                above(path, n) matches Some(q) ==> q.len() == 0 || q == "/"@ || w.fs.has_dir(q)
        }),
{
    let s = v.fs;
    assert(s.after(fs::Request::IsDir(path)) == s);
    assert(s.after(fs::Request::Exists(path)) == s);
    assert(v.asked(fs::Request::IsDir(path)) == v);
    assert(v.asked(fs::Request::Exists(path)) == v);
    let l = lacking(s, Some(path));
    if s.has_dir(path) {
        assert(l =~= Seq::<Seq<char>>::empty());
        assert(v.with_fs(s) == v);
    } else if !s.has(path) {
        lemma_missing_is_lacking(v, Some(path), Seq::empty());
        assert(Seq::<Seq<char>>::empty() + l =~= l);
        if !(nearest(s, Some(path)) matches Some(q) && !s.has_dir(q)) {
            lemma_lacking_chain(s, Some(path));
            assert(l.len() > 0);
            assert forall|i: int| 0 <= i < l.len() implies goes_down(#[trigger] l[i]) by {
                lemma_above_chain(l, 0, i as nat);
            }
            lemma_lacking_made(v, l, l.len() as int, verbose);
            let w = with_parents(v, path, verbose).0;
            lemma_all_made(v, l, l.len() as int, verbose);
            assert(w.fs.has_dir(l[0]));
            assert(w.fs.after(fs::Request::IsDir(path)) == w.fs);
            assert(w.asked(fs::Request::IsDir(path)) == w);
        }
    }
    if with_parents(v, path, verbose).1 is Ok {
        let w = with_parents(v, path, verbose).0;
        assert forall|n: nat| #[trigger] above(path, n) is Some implies above(path, n)->0.len() == 0
            || above(path, n) == Some("/"@) || w.fs.has_dir(above(path, n)->0) by {
            if path == "/"@ {
                lemma_above_root(n);
            } else {
                lemma_parents_made(v, path, verbose, n);
            }
        }
    }
}

proof fn lemma_above_root(n: nat)
    ensures
        above("/"@, n) == if n == 0 {
            Some("/"@)
        } else {
            None::<Seq<char>>
        },
    decreases n,
{
    if n > 0 {
        lemma_above_root((n - 1) as nat);
        reveal_strlit("/");
        assert("/"@ =~= seq!['/']);
    }
}

/// The environment when the first `n` directories were made one after another, and whether one of
/// them failed.
pub open spec fn after_making<FS: Filesystem>(
    v: env::EnvView<FS>,
    p: options::ParsedView,
    n: int,
) -> (env::EnvView<FS>, bool)
    decreases n,
{
    if n <= 0 {
        (v, false)
    } else {
        let (w, failed) = after_making(v, p, n - 1);
        let dir = p.free[n - 1];
        let (x, r) = if p.present('p') {
            with_parents(w, dir, p.present('v'))
        } else {
            single(w, dir, p.present('v'))
        };
        match r {
            Ok(_) => (x, failed),
            Err(m) => (
                x.error_line(
                    seq!['m', 'k', 'd', 'i', 'r', ':', ' '] + dir + seq![':', ' '] + m,
                ),
                true,
            ),
        }
    }
}

proof fn lemma_created_from<FS: Filesystem>(v: env::EnvView<FS>, p: options::ParsedView, i: int)
    requires
        0 <= i <= p.free.len(),
    ensures
        ({
            let (w, failed) = after_making(v, p, i);
            let (x, any) = after_making(v, p, p.free.len() as int);
            created(w, p, i, if failed {
                1
            } else {
                0
            }) == (x, if any {
                1int
            } else {
                0
            })
        }),
    decreases p.free.len() - i,
{
    reveal_strlit("mkdir: ");
    reveal_strlit(": ");
    assert("mkdir: "@ =~= seq!['m', 'k', 'd', 'i', 'r', ':', ' ']);
    assert(": "@ =~= seq![':', ' ']);
    if i < p.free.len() {
        lemma_created_from(v, p, i + 1);
    }
}

/// Each directory is made, whatever became of those before it, and each that cannot be made is named
/// with the reason. The exit code is 1 where there is one of these, otherwise 0.
pub proof fn lemma_directories_in_turn<FS: Filesystem>(v: env::EnvView<FS>, p: options::ParsedView)
    requires
        p.free.len() > 0,
    ensures
        ({
            let (x, any) = after_making(v, p, p.free.len() as int);
            ran(v, p) == (x, Ok::<int, env::ErrorView>(
                if any {
                    1
                } else {
                    0
                },
            ))
        }),
{
    lemma_created_from(v, p, 0);
}

} // verus!
