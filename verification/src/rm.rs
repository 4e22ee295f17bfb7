//! The rm builtin: remove files and directories.

use crate::env::{Environment, Error, ExitCode};
use crate::env;
use crate::fs::{ErrorKind, FileType, Filesystem, FsError};
use crate::fs;
use crate::options::{Arity, OptDef, Parsed};
use crate::options;
use crate::paths;
use crate::text;
use vstd::prelude::*;

verus! {

broadcast use vstd::string::group_string_axioms;

pub const USAGE: &'static str = "usage: rm [-f | -i] [-dRrv] file ...";

pub const UNLINK_USAGE: &'static str = "usage: unlink [--] file";

/// The options of the command.
pub open spec fn table() -> Seq<OptDef> {
    seq![
        OptDef { short: 'd', long: "", arity: Arity::Flag },
        OptDef { short: 'f', long: "", arity: Arity::Flag },
        OptDef { short: 'r', long: "", arity: Arity::Flag },
        OptDef { short: 'R', long: "", arity: Arity::Flag },
        OptDef { short: 'v', long: "", arity: Arity::Flag },
    ]
}

fn build_options() -> (r: Vec<OptDef>)
    ensures
        r@ == table(),
        options::all_declarable(options::definitions(r@)),
{
    let r = vec![
        OptDef { short: 'd', long: "", arity: Arity::Flag },
        OptDef { short: 'f', long: "", arity: Arity::Flag },
        OptDef { short: 'r', long: "", arity: Arity::Flag },
        OptDef { short: 'R', long: "", arity: Arity::Flag },
        OptDef { short: 'v', long: "", arity: Arity::Flag },
    ];
    proof {
        reveal_strlit("");
    }
    r
}

/// Options for the rm operation.
#[derive(Debug, Clone, Copy, PartialEq, Eq, Structural)]
pub struct RmOptions {
    /// Do not report what is not there.
    pub force: bool,
    /// Remove file hierarchies.
    pub recursive: bool,
    /// Remove directories.
    pub remove_dirs: bool,
    /// Show what is removed.
    pub verbose: bool,
}

/// What the options ask for: `-r` and `-R` are one, and imply `-d`.
pub open spec fn settings(p: options::ParsedView) -> RmOptions {
    RmOptions {
        force: p.present('f'),
        recursive: p.present('r') || p.present('R'),
        remove_dirs: p.present('d') || p.present('r') || p.present('R'),
        verbose: p.present('v'),
    }
}

fn read_settings(p: &Parsed) -> (r: RmOptions)
    ensures
        r == settings(p@),
{
    let force = p.present('f');
    let recursive = p.present('r') || p.present('R');
    let remove_dirs = p.present('d') || recursive;
    let verbose = p.present('v');
    RmOptions { force, recursive, remove_dirs, verbose }
}

/// Whether a path is the root.
pub open spec fn root(path: Seq<char>) -> bool {
    path == "/"@
}

/// Whether the final component of a path is `.` or `..`. Slashes at the end are passed over.
pub open spec fn dots(path: Seq<char>) -> bool {
    let component = paths::base_name(paths::unslashed(path));
    component == "."@ || component == ".."@
}

/// Checks if a path is exactly `/`.
pub fn is_slash(path: &str) -> (r: bool)
    ensures
        r == root(path@),
{
    text::same(path, "/")
}

/// Checks if the final component of a path is `.` or `..`.
pub fn is_dot_or_dotdot(path: &str) -> (r: bool)
    ensures
        r == dots(path@),
{
    let named = paths::trim_slashes(path);
    let component = paths::base_of(named.as_str());
    text::same(component.as_str(), ".") || text::same(component.as_str(), "..")
}

/// Checks if an error is "not found".
pub fn is_not_found(e: &FsError) -> (r: bool)
    ensures
        r == (e@.kind == ErrorKind::NotFound),
{
    match e {
        FsError::Io(io) => io.kind == ErrorKind::NotFound,
    }
}

pub open spec fn message_result(r: Result<(), String>) -> Result<(), Seq<char>> {
    match r {
        Ok(_) => Ok(()),
        Err(m) => Err(m@),
    }
}

/// Whether a failure is that of a path that names nothing, and counts for nothing.
pub open spec fn lost(e: fs::IoView, o: RmOptions) -> bool {
    o.force && e.kind == ErrorKind::NotFound
}

// ---------------------------------------------------------------------------------------------
// Removing one thing
// ---------------------------------------------------------------------------------------------

/// What removing a file or a symbolic link comes to.
pub open spec fn file_removed<FS: Filesystem>(
    v: env::EnvView<FS>,
    path: Seq<char>,
    o: RmOptions,
) -> (env::EnvView<FS>, Result<(), Seq<char>>) {
    let w = v.asked(fs::Request::Unlink(path));
    match v.fs.unlinks(path) {
        Err(e) => (
            w,
            if lost(e, o) {
                Ok(())
            } else {
                Err(fs::friendly(e))
            },
        ),
        Ok(_) => (
            if o.verbose {
                w.write_line(path)
            } else {
                w
            },
            Ok(()),
        ),
    }
}

/// Removes a single file or symlink.
pub fn remove_file<FS: Filesystem>(
    env: &mut Environment<FS>,
    path: &str,
    opts: &RmOptions,
) -> (r: Result<(), String>)
    ensures
        (final(env)@, message_result(r)) == file_removed(old(env)@, path@, *opts),
{
    match env.fs.unlink(path) {
        Err(e) => if opts.force && is_not_found(&e) {
            Ok(())
        } else {
            Err(fs::fs_error_message(&e))
        },
        Ok(_) => {
            if opts.verbose {
                env.write_line(path);
            }
            Ok(())
        },
    }
}

/// What removing an empty directory comes to.
pub open spec fn dir_removed<FS: Filesystem>(
    v: env::EnvView<FS>,
    path: Seq<char>,
    o: RmOptions,
) -> (env::EnvView<FS>, Result<(), Seq<char>>) {
    let w = v.asked(fs::Request::Rmdir(path));
    match v.fs.rmdirs(path) {
        Err(e) => (
            w,
            if lost(e, o) {
                Ok(())
            } else {
                Err(fs::friendly(e))
            },
        ),
        Ok(_) => (
            if o.verbose {
                w.write_line(path)
            } else {
                w
            },
            Ok(()),
        ),
    }
}

/// Removes a single empty directory (non-recursive).
pub fn remove_single_dir<FS: Filesystem>(
    env: &mut Environment<FS>,
    path: &str,
    opts: &RmOptions,
) -> (r: Result<(), String>)
    ensures
        (final(env)@, message_result(r)) == dir_removed(old(env)@, path@, *opts),
{
    match env.fs.rmdir(path) {
        Err(e) => if opts.force && is_not_found(&e) {
            Ok(())
        } else {
            Err(fs::fs_error_message(&e))
        },
        Ok(_) => {
            if opts.verbose {
                env.write_line(path);
            }
            Ok(())
        },
    }
}

// ---------------------------------------------------------------------------------------------
// Removing a hierarchy
// ---------------------------------------------------------------------------------------------

/// Something to be removed.
pub ghost struct Doomed {
    pub path: Seq<char>,
    pub file_type: FileType,
}

pub open spec fn doomed(v: Seq<(String, FileType)>) -> Seq<Doomed> {
    Seq::new(v.len(), |i: int| Doomed { path: v[i].0@, file_type: v[i].1 })
}

/// What a name stands for in a directory.
pub open spec fn below(dir: Seq<char>, name: Seq<char>) -> Seq<char> {
    if dir == "/"@ {
        "/"@ + name
    } else {
        dir + "/"@ + name
    }
}

fn path_below(dir: &str, name: &str) -> (r: String)
    ensures
        r@ == below(dir@, name@),
{
    if text::same(dir, "/") {
        let mut s = "/".to_owned();
        s.append(name);
        s
    } else {
        let mut s = dir.to_owned();
        s.append("/");
        s.append(name);
        s
    }
}

/// The paths of the first `n` entries of a directory, but for itself and the one that holds it.
pub open spec fn entries(dir: Seq<char>, l: Seq<fs::Listed>, n: int) -> Seq<Seq<char>>
    decreases n,
{
    if n <= 0 {
        Seq::empty()
    } else if l[n - 1].name == "."@ || l[n - 1].name == ".."@ {
        entries(dir, l, n - 1)
    } else {
        entries(dir, l, n - 1).push(below(dir, l[n - 1].name))
    }
}

/// A path and what is wrong with it.
pub open spec fn at(path: Seq<char>, e: fs::IoView) -> Seq<char> {
    path + ": "@ + fs::friendly(e)
}

fn message_at(path: &str, e: &FsError) -> (r: String)
    ensures
        r@ == at(path@, e@),
{
    let mut m = path.to_owned();
    m.append(": ");
    let words = fs::fs_error_message(e);
    m.append(words.as_str());
    m
}

/// All that stands at or below the paths in a queue, each directory before what it holds, behind
/// what was found so far. At most as many as can be counted are found.
pub open spec fn gathered<FS: Filesystem>(
    v: env::EnvView<FS>,
    queue: Seq<Seq<char>>,
    found: Seq<Doomed>,
    o: RmOptions,
) -> (env::EnvView<FS>, Result<Seq<Doomed>, Seq<char>>)
    decreases usize::MAX - found.len(), queue.len(),
{
    if queue.len() == 0 || found.len() >= usize::MAX {
        (v, Ok(found))
    } else {
        let path = queue[0];
        let w = v.asked(fs::Request::Lstat(path));
        match v.fs.lstats(path) {
            Err(e) => if lost(e, o) {
                gathered(w, queue.skip(1), found, o)
            } else {
                (w, Err(at(path, e)))
            },
            Ok(entry) => {
                let more = found.push(Doomed { path, file_type: entry.file_type });
                if entry.file_type == FileType::Directory {
                    let x = w.asked(fs::Request::ReadDir(path));
                    match w.fs.lists(path) {
                        Err(e) => if lost(e, o) {
                            gathered(x, queue.skip(1), more, o)
                        } else {
                            (x, Err(at(path, e)))
                        },
                        Ok(l) => gathered(
                            x,
                            queue.skip(1) + entries(path, l, l.len() as int),
                            more,
                            o,
                        ),
                    }
                } else {
                    gathered(w, queue.skip(1), more, o)
                }
            },
        }
    }
}

pub open spec fn doomed_result(r: Result<Vec<(String, FileType)>, String>) -> Result<
    Seq<Doomed>,
    Seq<char>,
> {
    match r {
        Ok(v) => Ok(doomed(v@)),
        Err(m) => Err(m@),
    }
}

fn enqueue(queue: &mut Vec<String>, dir: &str, l: &Vec<(String, crate::fs::DirEntry)>)
    ensures
        final(queue).deep_view() == old(queue).deep_view() + entries(
            dir@,
            fs::listing(l@),
            l@.len() as int,
        ),
{
    let ghost start = queue.deep_view();
    let ghost shown = fs::listing(l@);
    let mut i: usize = 0;
    assert(queue.deep_view() =~= start + entries(dir@, shown, 0));
    while i < l.len()
        invariant
            i <= l@.len(),
            shown == fs::listing(l@),
            queue.deep_view() == start + entries(dir@, shown, i as int),
        decreases l.len() - i,
    {
        let ghost before = queue.deep_view();
        let name = l[i].0.as_str();
        if !(text::same(name, ".") || text::same(name, "..")) {
            let p = path_below(dir, name);
            queue.push(p);
            assert(queue.deep_view() =~= before.push(p@));
            assert(queue.deep_view() =~= start + entries(dir@, shown, i + 1));
        }
        i += 1;
    }
}

fn gather<FS: Filesystem>(env: &mut Environment<FS>, top: &str, opts: &RmOptions) -> (r: Result<
    Vec<(String, FileType)>,
    String,
>)
    ensures
        (final(env)@, doomed_result(r)) == gathered(
            old(env)@,
            seq![top@],
            Seq::empty(),
            *opts,
        ),
{
    let mut found: Vec<(String, FileType)> = Vec::new();
    let mut queue: Vec<String> = Vec::new();
    queue.push(top.to_owned());
    let mut next: usize = 0;
    assert(doomed(found@) =~= Seq::<Doomed>::empty());
    assert(queue.deep_view().skip(0) =~= seq![top@]);
    while next < queue.len() && found.len() < usize::MAX
        invariant
            next <= queue@.len(),
            gathered(env@, queue.deep_view().skip(next as int), doomed(found@), *opts) == gathered(
                old(env)@,
                seq![top@],
                Seq::empty(),
                *opts,
            ),
        decreases usize::MAX - found.len(), queue.len() - next,
    {
        let ghost left = queue.deep_view().skip(next as int);
        let ghost before = doomed(found@);
        let path = queue[next].clone();
        next += 1;
        assert(left.skip(1) =~= queue.deep_view().skip(next as int));
        assert(left[0] == path@);
        match env.fs.lstat(path.as_str()) {
            Err(e) => {
                if !(opts.force && is_not_found(&e)) {
                    return Err(message_at(path.as_str(), &e));
                }
            },
            Ok(entry) => {
                found.push((path.clone(), entry.file_type));
                assert(doomed(found@) =~= before.push(
                    Doomed { path: path@, file_type: entry.file_type },
                ));
                if entry.file_type == FileType::Directory {
                    match env.fs.read_dir(path.as_str()) {
                        Err(e) => {
                            if !(opts.force && is_not_found(&e)) {
                                return Err(message_at(path.as_str(), &e));
                            }
                        },
                        Ok(l) => {
                            let ghost all = queue.deep_view();
                            enqueue(&mut queue, path.as_str(), &l);
                            assert(queue.deep_view().skip(next as int) =~= left.skip(1) + entries(
                                path@,
                                fs::listing(l@),
                                l@.len() as int,
                            ));
                        },
                    }
                }
            },
        }
    }
    Ok(found)
}

/// What removing the first `n` things comes to, the last of them first, and the words of the last
/// failure.
pub open spec fn all_removed<FS: Filesystem>(
    v: env::EnvView<FS>,
    list: Seq<Doomed>,
    n: int,
    o: RmOptions,
    last: Option<Seq<char>>,
) -> (env::EnvView<FS>, Option<Seq<char>>)
    decreases n,
{
    if n <= 0 {
        (v, last)
    } else {
        let d = list[n - 1];
        let (w, done) = if d.file_type == FileType::Directory {
            (v.asked(fs::Request::Rmdir(d.path)), v.fs.rmdirs(d.path))
        } else {
            (v.asked(fs::Request::Unlink(d.path)), v.fs.unlinks(d.path))
        };
        match done {
            Ok(_) => all_removed(
                if o.verbose {
                    w.write_line(d.path)
                } else {
                    w
                },
                list,
                n - 1,
                o,
                last,
            ),
            Err(e) => if lost(e, o) {
                all_removed(w, list, n - 1, o, last)
            } else {
                all_removed(
                    w.error_line("rm: "@ + at(d.path, e)),
                    list,
                    n - 1,
                    o,
                    Some(at(d.path, e)),
                )
            },
        }
    }
}

/// What removing a hierarchy comes to.
pub open spec fn tree_removed<FS: Filesystem>(
    v: env::EnvView<FS>,
    top: Seq<char>,
    o: RmOptions,
) -> (env::EnvView<FS>, Result<(), Seq<char>>) {
    match gathered(v, seq![top], Seq::empty(), o) {
        (w, Err(m)) => (w, Err(m)),
        (w, Ok(list)) => match all_removed(w, list, list.len() as int, o, None) {
            (x, Some(m)) => (x, Err(m)),
            (x, None) => (x, Ok(())),
        },
    }
}

/// Removes a directory tree recursively.
pub fn remove_tree<FS: Filesystem>(
    env: &mut Environment<FS>,
    top: &str,
    opts: &RmOptions,
) -> (r: Result<(), String>)
    ensures
        (final(env)@, message_result(r)) == tree_removed(old(env)@, top@, *opts),
{
    let list = match gather(env, top, opts) {
        Ok(list) => list,
        Err(m) => {
            return Err(m);
        },
    };
    let ghost start = env@;
    let ghost shown = doomed(list@);
    let mut last: Option<String> = None;
    let mut n: usize = list.len();
    while n > 0
        invariant
            n <= list@.len(),
            shown == doomed(list@),
            all_removed(env@, shown, n as int, *opts, options::opt_text(last)) == all_removed(
                start,
                shown,
                shown.len() as int,
                *opts,
                None,
            ),
        decreases n,
    {
        let path = list[n - 1].0.as_str();
        let done = if list[n - 1].1 == FileType::Directory {
            env.fs.rmdir(path)
        } else {
            env.fs.unlink(path)
        };
        match done {
            Ok(_) => {
                if opts.verbose {
                    env.write_line(path);
                }
            },
            Err(e) => {
                if !(opts.force && is_not_found(&e)) {
                    let words = message_at(path, &e);
                    let mut m = "rm: ".to_owned();
                    m.append(words.as_str());
                    env.error_line(m.as_str());
                    last = Some(words);
                }
            },
        }
        n -= 1;
    }
    match last {
        Some(m) => Err(m),
        None => Ok(()),
    }
}

// ---------------------------------------------------------------------------------------------
// The commands
// ---------------------------------------------------------------------------------------------

/// A path without slashes at its end; one character stays what it is.
pub open spec fn stripped(path: Seq<char>) -> Seq<char> {
    if path.len() > 1 {
        paths::unslashed(path)
    } else {
        path
    }
}

/// What removing a path comes to.
pub open spec fn path_removed<FS: Filesystem>(
    v: env::EnvView<FS>,
    named: Seq<char>,
    o: RmOptions,
) -> (env::EnvView<FS>, Result<(), Seq<char>>) {
    let path = stripped(named);
    let w = v.asked(fs::Request::Lstat(path));
    match v.fs.lstats(path) {
        Err(e) => (
            w,
            if o.force {
                Ok(())
            } else {
                Err(fs::friendly(e))
            },
        ),
        Ok(entry) => if entry.file_type != FileType::Directory {
            file_removed(w, path, o)
        } else if !o.remove_dirs {
            (w, Err("is a directory"@))
        } else if o.recursive {
            tree_removed(w, path, o)
        } else {
            dir_removed(w, path, o)
        },
    }
}

/// Removes a single path (file or directory tree).
pub fn remove_path<FS: Filesystem>(
    env: &mut Environment<FS>,
    named: &str,
    opts: &RmOptions,
) -> (r: Result<(), String>)
    ensures
        (final(env)@, message_result(r)) == path_removed(old(env)@, named@, *opts),
{
    let n = text::chars(named).len();
    let path = if n > 1 {
        paths::trim_slashes(named)
    } else {
        named.to_owned()
    };
    let entry = match env.fs.lstat(path.as_str()) {
        Ok(e) => e,
        Err(e) => {
            if opts.force {
                return Ok(());
            }
            return Err(fs::fs_error_message(&e));
        },
    };
    if entry.file_type == FileType::Directory {
        if !opts.remove_dirs {
            return Err("is a directory".to_owned());
        }
        if opts.recursive {
            remove_tree(env, path.as_str(), opts)
        } else {
            remove_single_dir(env, path.as_str(), opts)
        }
    } else {
        remove_file(env, path.as_str(), opts)
    }
}

/// The paths among the first `n` that may be removed, the words for the others, and whether there
/// are others.
pub open spec fn allowed<FS>(v: env::EnvView<FS>, free: Seq<Seq<char>>, n: int) -> (
    env::EnvView<FS>,
    Seq<Seq<char>>,
    int,
)
    decreases n,
{
    if n <= 0 {
        (v, Seq::empty(), 0)
    } else {
        let (w, kept, code) = allowed(v, free, n - 1);
        if root(free[n - 1]) {
            (w.error_line("rm: \"/\" may not be removed"@), kept, 1)
        } else if dots(free[n - 1]) {
            (w.error_line("rm: \".\" and \"..\" may not be removed"@), kept, 1)
        } else {
            (w, kept.push(free[n - 1]), code)
        }
    }
}

/// What removing each path from `i` on comes to.
pub open spec fn removed<FS: Filesystem>(
    v: env::EnvView<FS>,
    list: Seq<Seq<char>>,
    o: RmOptions,
    i: int,
    code: int,
) -> (env::EnvView<FS>, int)
    decreases list.len() - i,
{
    if i < 0 || i >= list.len() {
        (v, code)
    } else {
        match path_removed(v, list[i], o) {
            (w, Ok(_)) => removed(w, list, o, i + 1, code),
            (w, Err(m)) => removed(
                w.error_line("rm: "@ + list[i] + ": "@ + m),
                list,
                o,
                i + 1,
                1,
            ),
        }
    }
}

/// What `rm` does with these options.
pub open spec fn ran<FS: Filesystem>(v: env::EnvView<FS>, p: options::ParsedView) -> (
    env::EnvView<FS>,
    Result<int, env::ErrorView>,
) {
    if p.free.len() == 0 {
        if p.present('f') {
            (v, Ok(0))
        } else {
            (v.error_line(USAGE@), Ok(64))
        }
    } else {
        let (w, list, code) = allowed(v, p.free, p.free.len() as int);
        let (x, end) = removed(w, list, settings(p), 0, code);
        (x, Ok(end))
    }
}

fn sift<FS: Filesystem>(env: &mut Environment<FS>, free: &Vec<String>) -> (r: (Vec<String>, i32))
    ensures
        (final(env)@, r.0.deep_view(), r.1 as int) == allowed(
            old(env)@,
            free.deep_view(),
            free@.len() as int,
        ),
        r.1 == 0 || r.1 == 1,
{
    let ghost start = env@;
    let ghost shown = free.deep_view();
    let mut list: Vec<String> = Vec::new();
    let mut code: i32 = 0;
    let mut i: usize = 0;
    assert(list.deep_view() =~= Seq::<Seq<char>>::empty());
    while i < free.len()
        invariant
            i <= free@.len(),
            shown == free.deep_view(),
            code == 0 || code == 1,
            (env@, list.deep_view(), code as int) == allowed(start, shown, i as int),
        decreases free.len() - i,
    {
        let ghost before = list.deep_view();
        let path = free[i].as_str();
        if is_slash(path) {
            env.error_line("rm: \"/\" may not be removed");
            code = 1;
        } else if is_dot_or_dotdot(path) {
            env.error_line("rm: \".\" and \"..\" may not be removed");
            code = 1;
        } else {
            list.push(path.to_owned());
            assert(list.deep_view() =~= before.push(path@));
        }
        i += 1;
    }
    (list, code)
}

/// Runs `rm` with these options.
pub fn run<FS: Filesystem>(env: &mut Environment<FS>, p: &Parsed) -> (r: Result<ExitCode, Error>)
    ensures
        (final(env)@, env::outcome(r)) == ran(old(env)@, p@),
{
    let opts = read_settings(p);
    if p.free.len() == 0 {
        if opts.force {
            return Ok(ExitCode::new(0));
        }
        env.error_line(USAGE);
        return Ok(ExitCode::new(64));
    }
    let (list, refused) = sift(env, &p.free);
    let ghost start = env@;
    let ghost shown = list.deep_view();
    let mut code: i32 = refused;
    let mut i: usize = 0;
    while i < list.len()
        invariant
            i <= list@.len(),
            shown == list.deep_view(),
            code == 0 || code == 1,
            removed(env@, shown, opts, i as int, code as int) == removed(
                start,
                shown,
                opts,
                0,
                refused as int,
            ),
        decreases list.len() - i,
    {
        let path = list[i].as_str();
        if let Err(e) = remove_path(env, path, &opts) {
            let mut m = "rm: ".to_owned();
            m.append(path);
            m.append(": ");
            m.append(e.as_str());
            env.error_line(m.as_str());
            code = 1;
        }
        i += 1;
    }
    Ok(ExitCode::new(code))
}

/// The file that `unlink` is asked to remove: its only argument, but for a `--` before it.
pub open spec fn unlink_target(args: Seq<Seq<char>>) -> Option<Seq<char>> {
    if args.len() == 2 {
        Some(args[1])
    } else if args.len() == 3 && args[1] == "--"@ {
        Some(args[2])
    } else {
        None
    }
}

/// What `unlink` does.
pub open spec fn unlinked<FS: Filesystem>(v: env::EnvView<FS>) -> (env::EnvView<FS>, int) {
    match unlink_target(v.args) {
        None => (v.error_line(UNLINK_USAGE@), 64),
        Some(file) => {
            let w = v.asked(fs::Request::Lstat(file));
            match v.fs.lstats(file) {
                Err(e) => (w.error_line("unlink: "@ + file + ": "@ + fs::friendly(e)), 1),
                Ok(entry) => if entry.file_type == FileType::Directory {
                    (w.error_line("unlink: "@ + file + ": is a directory"@), 1)
                } else {
                    let x = w.asked(fs::Request::Unlink(file));
                    match w.fs.unlinks(file) {
                        Err(e) => (x.error_line("unlink: "@ + file + ": "@ + fs::friendly(e)), 1),
                        Ok(_) => (x, 0),
                    }
                },
            }
        },
    }
}

/// Handles the unlink command mode.
pub fn unlink_mode<FS: Filesystem>(env: &mut Environment<FS>) -> (r: ExitCode)
    ensures
        (final(env)@, r.spec_code()) == unlinked(old(env)@),
{
    assert(env@.args == env.args.deep_view());
    let file = if env.args.len() == 2 {
        env.args[1].clone()
    } else if env.args.len() == 3 && text::same(env.args[1].as_str(), "--") {
        env.args[2].clone()
    } else {
        env.error_line(UNLINK_USAGE);
        return ExitCode::new(64);
    };
    let mut m = "unlink: ".to_owned();
    m.append(file.as_str());
    match env.fs.lstat(file.as_str()) {
        Ok(entry) => {
            if entry.file_type == FileType::Directory {
                m.append(": is a directory");
                env.error_line(m.as_str());
                return ExitCode::new(1);
            }
        },
        Err(e) => {
            m.append(": ");
            let words = fs::fs_error_message(&e);
            m.append(words.as_str());
            env.error_line(m.as_str());
            return ExitCode::new(1);
        },
    }
    if let Err(e) = env.fs.unlink(file.as_str()) {
        m.append(": ");
        let words = fs::fs_error_message(&e);
        m.append(words.as_str());
        env.error_line(m.as_str());
        return ExitCode::new(1);
    }
    ExitCode::new(0)
}

/// What the command does: called as `unlink` it is `unlink`, and `rm` otherwise.
pub open spec fn spec_bin<FS: Filesystem>(v: env::EnvView<FS>) -> (
    env::EnvView<FS>,
    Result<int, env::ErrorView>,
) {
    if paths::base_name(v.args[0]) == "unlink"@ {
        let (w, code) = unlinked(v);
        (w, Ok(code))
    } else {
        match options::parsed(table(), v.args.skip(1)) {
            Ok(p) => ran(v, p),
            Err(message) => (v.error_line("rm: "@ + message), Ok(64)),
        }
    }
}

/// The rm builtin: remove files and directories.
pub fn bin<FS: Filesystem>(env: &mut Environment<FS>) -> (r: Result<ExitCode, Error>)
    requires
        old(env)@.args.len() > 0,
    ensures
        (final(env)@, env::outcome(r)) == spec_bin(old(env)@),
{
    assert(env@.args == env.args.deep_view());
    let name = paths::base_of(env.args[0].as_str());
    if text::same(name.as_str(), "unlink") {
        return Ok(unlink_mode(env));
    }
    let opts = build_options();
    match options::parse(&opts, &env.args) {
        Ok(p) => run(env, &p),
        Err(e) => {
            let mut m = "rm: ".to_owned();
            m.append(e.as_str());
            env.error_line(m.as_str());
            Ok(ExitCode::new(64))
        },
    }
}

// ---------------------------------------------------------------------------------------------
// Laws
// ---------------------------------------------------------------------------------------------

/// The root, `.` and `..` are never among the paths that are removed.
pub proof fn lemma_protected<FS>(v: env::EnvView<FS>, free: Seq<Seq<char>>, n: int)
    requires
        0 <= n <= free.len(),
    ensures
        forall|i: int|
            0 <= i < allowed(v, free, n).1.len() ==> !root(#[trigger] allowed(v, free, n).1[i])
                && !dots(allowed(v, free, n).1[i]),
        allowed(v, free, n).0.fs == v.fs,
    decreases n,
{
    if n > 0 {
        lemma_protected(v, free, n - 1);
    }
}

/// With `-f`, a path that names nothing is no failure, and nothing is written about it.
pub proof fn lemma_force_ignores_missing<FS: Filesystem>(
    v: env::EnvView<FS>,
    path: Seq<char>,
    o: RmOptions,
)
    requires
        o.force,
        v.fs.lstats(stripped(path)) is Err,
    ensures
        path_removed(v, path, o) == (
            v.asked(fs::Request::Lstat(stripped(path))),
            Ok::<(), Seq<char>>(()),
        ),
{
}

/// A directory is not removed without `-d` or `-r`: the filesystem is only looked at.
pub proof fn lemma_directory_kept<FS: Filesystem>(
    v: env::EnvView<FS>,
    path: Seq<char>,
    o: RmOptions,
)
    requires
        !o.remove_dirs,
        v.fs.lstats(stripped(path)) matches Ok(entry) && entry.file_type == FileType::Directory,
    ensures
        path_removed(v, path, o) == (
            v.asked(fs::Request::Lstat(stripped(path))),
            Err::<(), Seq<char>>("is a directory"@),
        ),
{
}

/// Whether a path is an entry of a directory that was found.
pub open spec fn held(found: Seq<Doomed>, path: Seq<char>) -> bool {
    exists|j: int, name: Seq<char>| #![trigger found[j], below(found[j].path, name)]
        0 <= j < found.len() && found[j].file_type == FileType::Directory && path == below(
            found[j].path,
            name,
        )
}

/// Whether each thing but the first is an entry of a directory that stands before it.
pub open spec fn top_down(found: Seq<Doomed>) -> bool {
    forall|i: int| 0 < i < found.len() ==> #[trigger] held(found.take(i), found[i].path)
}

proof fn lemma_held_grows(found: Seq<Doomed>, d: Doomed, path: Seq<char>)
    requires
        held(found, path),
    ensures
        held(found.push(d), path),
{
    let (j, name) = choose|j: int, name: Seq<char>| #![trigger found[j], below(found[j].path, name)]
        0 <= j < found.len() && found[j].file_type == FileType::Directory && path == below(
            found[j].path,
            name,
        );
    assert(found.push(d)[j] == found[j]);
    assert(path == below(found.push(d)[j].path, name));
}

proof fn lemma_entries_held(found: Seq<Doomed>, dir: Seq<char>, l: Seq<fs::Listed>, n: int)
    requires
        found.len() > 0,
        found.last().path == dir,
        found.last().file_type == FileType::Directory,
        0 <= n <= l.len(),
    ensures
        forall|i: int|
            0 <= i < entries(dir, l, n).len() ==> held(found, #[trigger] entries(dir, l, n)[i]),
    decreases n,
{
    if n > 0 {
        lemma_entries_held(found, dir, l, n - 1);
        let path = below(dir, l[n - 1].name);
        assert(found[found.len() - 1].file_type == FileType::Directory);
        assert(path == below(found[found.len() - 1].path, l[n - 1].name));
        assert(held(found, path));
        assert forall|i: int| 0 <= i < entries(dir, l, n).len() implies held(
            found,
            #[trigger] entries(dir, l, n)[i],
        ) by {
            if i < entries(dir, l, n - 1).len() {
                assert(entries(dir, l, n)[i] == entries(dir, l, n - 1)[i]);
            }
        }
    }
}

/// Of what is found of a hierarchy, each thing is an entry of a directory found before it. As
/// removal goes from the last to the first, a directory is removed after all that was found in it.
pub proof fn lemma_gathered_top_down<FS: Filesystem>(
    v: env::EnvView<FS>,
    queue: Seq<Seq<char>>,
    found: Seq<Doomed>,
    o: RmOptions,
)
    requires
        top_down(found),
        found.len() == 0 ==> queue.len() <= 1,
        found.len() > 0 ==> forall|i: int|
            0 <= i < queue.len() ==> held(found, #[trigger] queue[i]),
    ensures
        gathered(v, queue, found, o).1 matches Ok(list) ==> top_down(list),
    decreases usize::MAX - found.len(), queue.len(),
{
    if queue.len() > 0 && found.len() < usize::MAX {
        let path = queue[0];
        let w = v.asked(fs::Request::Lstat(path));
        match v.fs.lstats(path) {
            Err(e) => {
                if lost(e, o) {
                    lemma_gathered_top_down(w, queue.skip(1), found, o);
                }
            },
            Ok(entry) => {
                let d = Doomed { path, file_type: entry.file_type };
                let more = found.push(d);
                assert(top_down(more)) by {
                    assert forall|i: int| 0 < i < more.len() implies #[trigger] held(
                        more.take(i),
                        more[i].path,
                    ) by {
                        assert(more.take(i) =~= found.take(i));
                        if i == found.len() {
                            assert(found.take(i) =~= found);
                        } else {
                            assert(held(found.take(i), found[i].path));
                        }
                    }
                }
                assert forall|i: int| 0 <= i < queue.skip(1).len() implies held(
                    more,
                    #[trigger] queue.skip(1)[i],
                ) by {
                    assert(queue.skip(1)[i] == queue[i + 1]);
                    lemma_held_grows(found, d, queue[i + 1]);
                }
                if entry.file_type == FileType::Directory {
                    let x = w.asked(fs::Request::ReadDir(path));
                    if let Ok(l) = w.fs.lists(path) {
                        let kids = entries(path, l, l.len() as int);
                        lemma_entries_held(more, path, l, l.len() as int);
                        let next = queue.skip(1) + kids;
                        assert forall|i: int| 0 <= i < next.len() implies held(
                            more,
                            #[trigger] next[i],
                        ) by {
                            if i < queue.skip(1).len() {
                                assert(next[i] == queue.skip(1)[i]);
                            } else {
                                assert(next[i] == kids[i - queue.skip(1).len()]);
                            }
                        }
                        lemma_gathered_top_down(x, next, more, o);
                    } else {
                        lemma_gathered_top_down(x, queue.skip(1), more, o);
                    }
                } else {
                    lemma_gathered_top_down(w, queue.skip(1), more, o);
                }
            },
        }
    }
}

/// The paths of the first `n` things, the last of them first.
pub open spec fn backwards(list: Seq<Doomed>, n: int) -> Seq<Seq<char>> {
    Seq::new(n as nat, |i: int| list[n - 1 - i].path)
}

proof fn lemma_failure_stays<FS: Filesystem>(
    v: env::EnvView<FS>,
    list: Seq<Doomed>,
    n: int,
    o: RmOptions,
    last: Option<Seq<char>>,
)
    requires
        last is Some,
    ensures
        all_removed(v, list, n, o, last).1 is Some,
    decreases n,
{
    if n > 0 {
        let d = list[n - 1];
        let (w, done) = if d.file_type == FileType::Directory {
            (v.asked(fs::Request::Rmdir(d.path)), v.fs.rmdirs(d.path))
        } else {
            (v.asked(fs::Request::Unlink(d.path)), v.fs.unlinks(d.path))
        };
        let x = if o.verbose {
            w.write_line(d.path)
        } else {
            w
        };
        match done {
            Ok(_) => lemma_failure_stays(x, list, n - 1, o, last),
            Err(e) => {
                let m = Some(at(d.path, e));
                lemma_failure_stays(w, list, n - 1, o, last);
                lemma_failure_stays(w.error_line("rm: "@ + at(d.path, e)), list, n - 1, o, m);
            },
        }
    }
}

/// Things are removed from the last to the first, each of them once: where all could be removed, -v
/// prints their paths in this order.
pub proof fn lemma_removed_backwards<FS: Filesystem>(
    v: env::EnvView<FS>,
    list: Seq<Doomed>,
    n: int,
    o: RmOptions,
)
    requires
        0 <= n <= list.len(),
        o.verbose,
        !o.force,
        all_removed(v, list, n, o, None).1 is None,
    ensures
        all_removed(v, list, n, o, None).0.out == v.out + text::unlines(backwards(list, n)),
    decreases n,
{
    let all = backwards(list, n);
    if n > 0 {
        let d = list[n - 1];
        let (w, done) = if d.file_type == FileType::Directory {
            (v.asked(fs::Request::Rmdir(d.path)), v.fs.rmdirs(d.path))
        } else {
            (v.asked(fs::Request::Unlink(d.path)), v.fs.unlinks(d.path))
        };
        if let Err(e) = done {
            lemma_failure_stays(
                w.error_line("rm: "@ + at(d.path, e)),
                list,
                n - 1,
                o,
                Some(at(d.path, e)),
            );
        }
        lemma_removed_backwards(w.write_line(d.path), list, n - 1, o);
        let rest = backwards(list, n - 1);
        assert(all =~= seq![d.path] + rest);
        text::lemma_unlines_in_parts(seq![d.path], rest);
        assert(seq![d.path].drop_last() =~= Seq::<Seq<char>>::empty());
        assert(text::unlines(seq![d.path]) =~= text::terminated(d.path)) by {
            reveal_with_fuel(text::unlines, 2);
        }
        assert(v.out + text::terminated(d.path) + text::unlines(rest) =~= v.out + text::unlines(all));
    } else {
        assert(all =~= Seq::<Seq<char>>::empty());
        assert(v.out + text::unlines(all) =~= v.out);
    }
}

/// Whether a path is among what was found.
pub open spec fn is_found(list: Seq<Doomed>, path: Seq<char>) -> bool {
    exists|j: int| 0 <= j < list.len() && (#[trigger] list[j]).path == path
}

proof fn lemma_gathered_holds<FS: Filesystem>(
    v: env::EnvView<FS>,
    queue: Seq<Seq<char>>,
    found: Seq<Doomed>,
    o: RmOptions,
    path: Seq<char>,
)
    requires
        !o.force,
        gathered(v, queue, found, o).1 is Ok,
        gathered(v, queue, found, o).1->Ok_0.len() < usize::MAX,
        queue.contains(path) || is_found(found, path),
    ensures
        is_found(gathered(v, queue, found, o).1->Ok_0, path),
    decreases usize::MAX - found.len(), queue.len(),
{
    if queue.len() > 0 && found.len() < usize::MAX {
        let top = queue[0];
        let w = v.asked(fs::Request::Lstat(top));
        let entry = v.fs.lstats(top)->Ok_0;
        let d = Doomed { path: top, file_type: entry.file_type };
        let more = found.push(d);
        assert(more[found.len() as int] == d);
        if is_found(found, path) {
            let j = choose|j: int| 0 <= j < found.len() && (#[trigger] found[j]).path == path;
            assert(more[j].path == path);
        }
        if queue.contains(path) && path != top {
            let i = choose|i: int| 0 <= i < queue.len() && queue[i] == path;
            assert(queue.skip(1)[i - 1] == path);
        }
        if entry.file_type == FileType::Directory {
            let x = w.asked(fs::Request::ReadDir(top));
            let l = w.fs.lists(top)->Ok_0;
            let longer = queue.skip(1) + entries(top, l, l.len() as int);
            if queue.skip(1).contains(path) {
                let i = choose|i: int| 0 <= i < queue.skip(1).len() && queue.skip(1)[i] == path;
                assert(longer[i] == path);
            }
            lemma_gathered_holds(x, longer, more, o, path);
        } else {
            lemma_gathered_holds(w, queue.skip(1), more, o, path);
        }
    }
}

proof fn lemma_entry_listed(dir: Seq<char>, l: Seq<fs::Listed>, n: int, i: int)
    requires
        0 <= i < n <= l.len(),
        l[i].name != "."@,
        l[i].name != ".."@,
    ensures
        entries(dir, l, n).contains(below(dir, l[i].name)),
    decreases n,
{
    let all = entries(dir, l, n);
    if i == n - 1 {
        assert(all.last() == below(dir, l[i].name));
    } else {
        lemma_entry_listed(dir, l, n - 1, i);
        let before = entries(dir, l, n - 1);
        let k = choose|k: int| 0 <= k < before.len() && before[k] == below(dir, l[i].name);
        assert(all[k] == before[k]);
    }
}

/// Of a directory, all that it lists is found, hidden or not, but for itself and the directory that
/// holds it; and it is found itself.
pub proof fn lemma_directory_found_whole<FS: Filesystem>(
    v: env::EnvView<FS>,
    dir: Seq<char>,
    o: RmOptions,
    l: Seq<fs::Listed>,
    i: int,
)
    requires
        !o.force,
        dir != seq!['/'],
        v.fs.lstats(dir) is Ok,
        v.fs.lstats(dir)->Ok_0.file_type == FileType::Directory,
        v.asked(fs::Request::Lstat(dir)).fs.lists(dir) == Ok::<Seq<fs::Listed>, fs::IoView>(l),
        gathered(v, seq![dir], Seq::empty(), o).1 is Ok,
        gathered(v, seq![dir], Seq::empty(), o).1->Ok_0.len() < usize::MAX,
        0 <= i < l.len(),
        l[i].name != seq!['.'],
        l[i].name != seq!['.', '.'],
    ensures
        is_found(gathered(v, seq![dir], Seq::empty(), o).1->Ok_0, dir),
        is_found(
            gathered(v, seq![dir], Seq::empty(), o).1->Ok_0,
            dir + seq!['/'] + l[i].name,
        ),
{
    reveal_strlit("/");
    reveal_strlit(".");
    reveal_strlit("..");
    assert("/"@ =~= seq!['/']);
    assert("."@ =~= seq!['.']);
    assert(".."@ =~= seq!['.', '.']);
    let queue = seq![dir];
    assert(queue[0] == dir);
    lemma_gathered_holds(v, queue, Seq::empty(), o, dir);
    let x = v.asked(fs::Request::Lstat(dir)).asked(fs::Request::ReadDir(dir));
    let more = Seq::<Doomed>::empty().push(
        Doomed { path: dir, file_type: FileType::Directory },
    );
    let rest = queue.skip(1) + entries(dir, l, l.len() as int);
    let path = below(dir, l[i].name);
    lemma_entry_listed(dir, l, l.len() as int, i);
    let all = entries(dir, l, l.len() as int);
    assert(rest =~= all);
    assert(gathered(v, queue, Seq::empty(), o) == gathered(x, rest, more, o));
    lemma_gathered_holds(x, rest, more, o, path);
}

/// What the first `n` paths leave behind when they are removed one after another, and whether one of
/// them could not be.
pub open spec fn after_removals<FS: Filesystem>(
    v: env::EnvView<FS>,
    list: Seq<Seq<char>>,
    o: RmOptions,
    n: int,
) -> (env::EnvView<FS>, bool)
    decreases n,
{
    if n <= 0 {
        (v, false)
    } else {
        let (w, failed) = after_removals(v, list, o, n - 1);
        match path_removed(w, list[n - 1], o) {
            (x, Ok(_)) => (x, failed),
            (x, Err(m)) => (
                x.error_line(seq!['r', 'm', ':', ' '] + list[n - 1] + seq![':', ' '] + m),
                true,
            ),
        }
    }
}

proof fn lemma_removed_from<FS: Filesystem>(
    v: env::EnvView<FS>,
    list: Seq<Seq<char>>,
    o: RmOptions,
    i: int,
)
    requires
        0 <= i <= list.len(),
    ensures
        ({
            let (w, failed) = after_removals(v, list, o, i);
            let (x, any) = after_removals(v, list, o, list.len() as int);
            removed(w, list, o, i, if failed {
                1
            } else {
                0
            }) == (x, if any {
                1int
            } else {
                0
            })
        }),
    decreases list.len() - i,
{
    reveal_strlit("rm: ");
    reveal_strlit(": ");
    assert("rm: "@ =~= seq!['r', 'm', ':', ' ']);
    assert(": "@ =~= seq![':', ' ']);
    if i < list.len() {
        lemma_removed_from(v, list, o, i + 1);
    }
}

/// Each path is removed, whatever became of those before it, and each that cannot be removed is
/// named with the reason. The exit code is 1 where there is one of these, otherwise 0.
pub proof fn lemma_paths_removed_in_turn<FS: Filesystem>(
    v: env::EnvView<FS>,
    list: Seq<Seq<char>>,
    o: RmOptions,
)
    ensures
        ({
            let (x, any) = after_removals(v, list, o, list.len() as int);
            removed(v, list, o, 0, 0) == (x, if any {
                1int
            } else {
                0
            })
        }),
{
    lemma_removed_from(v, list, o, 0);
}

} // verus!
