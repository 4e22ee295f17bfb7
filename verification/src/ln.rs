//! The ln builtin: create links between files.

use crate::env::{Environment, Error, ExitCode};
use crate::env;
use crate::fs::{DirEntry, FileType, Filesystem};
use crate::fs;
use crate::options::{Arity, OptDef, Parsed};
use crate::options;
use crate::paths;
use crate::readlink;
use crate::text;
use vstd::prelude::*;

verus! {

broadcast use vstd::string::group_string_axioms;

pub const USAGE: &'static str =
    "usage: ln [-s [-F] | -L | -P] [-fhnv] source_file [target_file]\n       ln [-s [-F] | -L | -P] [-fhnv] source_file ... target_dir";

/// The options of the command.
pub open spec fn table() -> Seq<OptDef> {
    seq![
        OptDef { short: 'F', long: "", arity: Arity::Flag },
        OptDef { short: 'L', long: "", arity: Arity::Flag },
        OptDef { short: 'P', long: "", arity: Arity::Flag },
        OptDef { short: 'f', long: "", arity: Arity::Flag },
        OptDef { short: 'h', long: "", arity: Arity::Flag },
        OptDef { short: 'n', long: "", arity: Arity::Flag },
        OptDef { short: 's', long: "", arity: Arity::Flag },
        OptDef { short: 'v', long: "", arity: Arity::Flag },
    ]
}

fn build_options() -> (r: Vec<OptDef>)
    ensures
        r@ == table(),
        options::all_declarable(options::definitions(r@)),
{
    let r = vec![
        OptDef { short: 'F', long: "", arity: Arity::Flag },
        OptDef { short: 'L', long: "", arity: Arity::Flag },
        OptDef { short: 'P', long: "", arity: Arity::Flag },
        OptDef { short: 'f', long: "", arity: Arity::Flag },
        OptDef { short: 'h', long: "", arity: Arity::Flag },
        OptDef { short: 'n', long: "", arity: Arity::Flag },
        OptDef { short: 's', long: "", arity: Arity::Flag },
        OptDef { short: 'v', long: "", arity: Arity::Flag },
    ];
    proof {
        reveal_strlit("");
    }
    r
}

/// Configuration for the ln command.
#[derive(Debug, Clone, Copy, PartialEq, Eq, Structural)]
pub struct LnConfig {
    /// Create symbolic links instead of hard links.
    pub symbolic: bool,
    /// Force: remove existing destination files.
    pub force: bool,
    /// Do not follow symlinks when checking target.
    pub no_follow: bool,
    /// Remove empty directories when target is a directory (with -s).
    pub remove_dirs: bool,
    /// Verbose output.
    pub verbose: bool,
    /// Follow symlinks when creating hard links (default true, -L). When false (-P), create hard
    /// link to symlink itself.
    pub follow_symlinks: bool,
}

/// The configuration that the options ask for: `-L` overrides `-P`, `-F` counts with `-s` only and
/// implies `-f`.
pub open spec fn settings(p: options::ParsedView) -> LnConfig {
    let remove_dirs = p.present('F') && p.present('s');
    LnConfig {
        symbolic: p.present('s'),
        force: p.present('f') || remove_dirs,
        no_follow: p.present('h') || p.present('n'),
        remove_dirs,
        verbose: p.present('v'),
        follow_symlinks: p.present('L') || !p.present('P'),
    }
}

fn read_settings(p: &Parsed) -> (r: LnConfig)
    ensures
        r == settings(p@),
{
    let symbolic = p.present('s');
    let remove_dirs = p.present('F') && symbolic;
    let force = p.present('f');
    let no_follow = p.present('h') || p.present('n');
    let verbose = p.present('v');
    let follow_symlinks = p.present('L') || !p.present('P');
    LnConfig {
        symbolic,
        force: force || remove_dirs,
        no_follow,
        remove_dirs,
        verbose,
        follow_symlinks,
    }
}

/// Whether an answer names something of a kind.
pub open spec fn names(r: Result<DirEntry, fs::IoView>, kind: FileType) -> bool {
    r is Ok && r->Ok_0.file_type == kind
}

// ---------------------------------------------------------------------------------------------
// Where a link goes
// ---------------------------------------------------------------------------------------------

/// Whether the target is a directory by the way that it is written.
pub open spec fn dir_like(target: Seq<char>) -> bool {
    paths::base_name(target).len() == 0 || paths::base_name(target) == "."@
}

/// The name of the source inside the target. Slashes at the end of the source are passed over.
pub open spec fn inside(source: Seq<char>, target: Seq<char>) -> Seq<char> {
    let name = paths::base_name(paths::unslashed(source));
    if target == "."@ {
        name
    } else {
        paths::child(target, name)
    }
}

/// The path that the link is made at: the target itself, or inside the target where that is a
/// directory.
pub open spec fn target_path<FS: Filesystem>(
    v: env::EnvView<FS>,
    c: LnConfig,
    source: Seq<char>,
    target: Seq<char>,
    is_target_dir: bool,
) -> (env::EnvView<FS>, Seq<char>) {
    if is_target_dir || dir_like(target) {
        (v, inside(source, target))
    } else if c.remove_dirs {
        (v, target)
    } else if c.no_follow {
        (
            v.asked(fs::Request::Lstat(target)),
            if names(v.fs.lstats(target), FileType::Directory) {
                inside(source, target)
            } else {
                target
            },
        )
    } else {
        (
            v.asked(fs::Request::Stat(target)),
            if names(v.fs.stats(target), FileType::Directory) {
                inside(source, target)
            } else {
                target
            },
        )
    }
}

/// Computes the target path for the link.
pub fn compute_target_path<FS: Filesystem>(
    env: &mut Environment<FS>,
    config: &LnConfig,
    source: &str,
    target: &str,
    is_target_dir: bool,
) -> (r: String)
    ensures
        (final(env)@, r@) == target_path(old(env)@, *config, source@, target@, is_target_dir),
{
    let should_append = if is_target_dir {
        true
    } else {
        let p = paths::base_of(target);
        if p.as_str().is_empty() || text::same(p.as_str(), ".") {
            true
        } else if !config.remove_dirs {
            let found = if config.no_follow {
                env.fs.lstat(target)
            } else {
                env.fs.stat(target)
            };
            match found {
                Ok(entry) => entry.file_type == FileType::Directory,
                Err(_) => false,
            }
        } else {
            false
        }
    };
    if should_append {
        let named = paths::trim_slashes(source);
        let base = paths::base_of(named.as_str());
        if text::same(target, ".") {
            base
        } else {
            paths::child_path(target, base.as_str())
        }
    } else {
        target.to_owned()
    }
}

/// Whether two paths are one directory entry: they are equal, or their last components are equal
/// and their directories are one.
pub open spec fn same_entry<FS: Filesystem>(
    v: env::EnvView<FS>,
    a: Seq<char>,
    b: Seq<char>,
) -> (env::EnvView<FS>, bool) {
    if a == b {
        (v, true)
    } else if paths::base_name(a) != paths::base_name(b) {
        (v, false)
    } else {
        let w = v.asked(fs::Request::Stat(paths::dir_name(a)));
        let x = w.asked(fs::Request::Stat(paths::dir_name(b)));
        (
            x,
            match (v.fs.stats(paths::dir_name(a)), w.fs.stats(paths::dir_name(b))) {
                (Ok(s), Ok(t)) => s.dev == t.dev && s.ino == t.ino,
                _ => false,
            },
        )
    }
}

/// Checks if two paths refer to the same directory entry by comparing device and inode.
pub fn same_dirent<FS: Filesystem>(env: &mut Environment<FS>, path1: &str, path2: &str) -> (r: bool)
    ensures
        (final(env)@, r) == same_entry(old(env)@, path1@, path2@),
{
    if text::same(path1, path2) {
        return true;
    }
    let file1 = paths::base_of(path1);
    let file2 = paths::base_of(path2);
    if !text::same(file1.as_str(), file2.as_str()) {
        return false;
    }
    let dir1 = paths::dir_of(path1);
    let dir2 = paths::dir_of(path2);
    let stat1 = env.fs.stat(dir1.as_str());
    let stat2 = env.fs.stat(dir2.as_str());
    match (stat1, stat2) {
        (Ok(s1), Ok(s2)) => s1.dev == s2.dev && s1.ino == s2.ino,
        _ => false,
    }
}

// ---------------------------------------------------------------------------------------------
// Making one link
// ---------------------------------------------------------------------------------------------

/// Why the source cannot be linked to, where it cannot. A symbolic link can hold anything.
pub open spec fn source_checked<FS: Filesystem>(
    v: env::EnvView<FS>,
    c: LnConfig,
    source: Seq<char>,
) -> (env::EnvView<FS>, Option<Seq<char>>) {
    if c.symbolic {
        (v, None)
    } else {
        let (w, found) = if c.follow_symlinks {
            (v.asked(fs::Request::Stat(source)), v.fs.stats(source))
        } else {
            (v.asked(fs::Request::Lstat(source)), v.fs.lstats(source))
        };
        (
            w,
            match found {
                Ok(entry) => if entry.file_type == FileType::Directory {
                    Some("ln: "@ + source + ": Is a directory"@)
                } else {
                    None
                },
                Err(_) => Some("ln: "@ + source + ": No such file or directory"@),
            },
        )
    }
}

fn check_source<FS: Filesystem>(
    env: &mut Environment<FS>,
    config: &LnConfig,
    source: &str,
) -> (r: Option<String>)
    ensures
        (final(env)@, options::opt_text(r)) == source_checked(old(env)@, *config, source@),
{
    if config.symbolic {
        return None;
    }
    let found = if config.follow_symlinks {
        env.fs.stat(source)
    } else {
        env.fs.lstat(source)
    };
    let mut m = "ln: ".to_owned();
    m.append(source);
    match found {
        Ok(entry) => if entry.file_type == FileType::Directory {
            m.append(": Is a directory");
            Some(m)
        } else {
            None
        },
        Err(_) => {
            m.append(": No such file or directory");
            Some(m)
        },
    }
}

/// A failure with a path.
pub open spec fn failure(path: Seq<char>, words: Seq<char>) -> Seq<char> {
    "ln: "@ + path + ": "@ + words
}

fn failure_line(path: &str, words: &str) -> (r: String)
    ensures
        r@ == failure(path@, words@),
{
    let mut m = "ln: ".to_owned();
    m.append(path);
    m.append(": ");
    m.append(words);
    m
}

/// What making way for a link at a path comes to, where something is there: nothing is removed
/// unless `force` is set, and a directory only where `remove_dirs` is.
pub open spec fn cleared<FS: Filesystem>(
    v: env::EnvView<FS>,
    c: LnConfig,
    path: Seq<char>,
) -> (env::EnvView<FS>, Result<Option<Seq<char>>, env::ErrorView>) {
    if !c.force {
        (v, Ok(Some("ln: "@ + path + ": File exists"@)))
    } else {
        let w = v.asked(fs::Request::Lstat(path));
        match v.fs.lstats(path) {
            Err(e) => (w, Err(env::ErrorView::Io(e))),
            Ok(entry) => {
                let (x, done) = if c.remove_dirs && entry.file_type == FileType::Directory {
                    (w.asked(fs::Request::Rmdir(path)), w.fs.rmdirs(path))
                } else {
                    (w.asked(fs::Request::Unlink(path)), w.fs.unlinks(path))
                };
                match done {
                    Ok(_) => (x, Ok(None)),
                    Err(e) => (x, Ok(Some(failure(path, fs::friendly(e))))),
                }
            },
        }
    }
}

pub open spec fn cleared_result(r: Result<Option<String>, Error>) -> Result<
    Option<Seq<char>>,
    env::ErrorView,
> {
    match r {
        Ok(m) => Ok(options::opt_text(m)),
        Err(e) => Err(e@),
    }
}

fn clear<FS: Filesystem>(env: &mut Environment<FS>, config: &LnConfig, path: &str) -> (r: Result<
    Option<String>,
    Error,
>)
    ensures
        (final(env)@, cleared_result(r)) == cleared(old(env)@, *config, path@),
{
    if !config.force {
        let mut m = "ln: ".to_owned();
        m.append(path);
        m.append(": File exists");
        return Ok(Some(m));
    }
    let entry = match env.fs.lstat(path) {
        Ok(entry) => entry,
        Err(e) => {
            return Err(env::error_of(e));
        },
    };
    let done = if config.remove_dirs && entry.file_type == FileType::Directory {
        env.fs.rmdir(path)
    } else {
        env.fs.unlink(path)
    };
    match done {
        Ok(_) => Ok(None),
        Err(e) => {
            let words = fs::fs_error_message(&e);
            Ok(Some(failure_line(path, words.as_str())))
        },
    }
}

/// What a hard link is made to: the source itself, or where it leads if it is a symbolic link and
/// those are followed; or why there is no such place.
pub open spec fn link_source<FS: Filesystem>(
    v: env::EnvView<FS>,
    c: LnConfig,
    source: Seq<char>,
) -> (env::EnvView<FS>, Result<Seq<char>, Seq<char>>) {
    if !c.follow_symlinks {
        (v, Ok(source))
    } else {
        let w = v.asked(fs::Request::Lstat(source));
        if names(v.fs.lstats(source), FileType::Symlink) {
            let (s, found) = readlink::canonical(w.fs, source, w.cwd);
            (w.with_fs(s), found)
        } else {
            (w, Ok(source))
        }
    }
}

fn find_link_source<FS: Filesystem>(
    env: &mut Environment<FS>,
    config: &LnConfig,
    source: &str,
) -> (r: Result<String, String>)
    ensures
        (final(env)@, readlink::path_result(r)) == link_source(old(env)@, *config, source@),
{
    if !config.follow_symlinks {
        return Ok(source.to_owned());
    }
    let is_link = match env.fs.lstat(source) {
        Ok(entry) => entry.file_type == FileType::Symlink,
        Err(_) => false,
    };
    if is_link {
        readlink::canonicalize(source, env.cwd.as_str(), &mut env.fs)
    } else {
        Ok(source.to_owned())
    }
}

/// What making the link at its place comes to.
pub open spec fn made<FS: Filesystem>(
    v: env::EnvView<FS>,
    c: LnConfig,
    source: Seq<char>,
    path: Seq<char>,
) -> (env::EnvView<FS>, int) {
    if c.symbolic {
        reported(
            v.asked(fs::Request::Symlink(source, path)),
            c,
            source,
            path,
            v.fs.symlinks(source, path),
        )
    } else {
        match link_source(v, c, source) {
            (w, Err(m)) => (w.error_line("ln: "@ + m), 1),
            (w, Ok(to)) => reported(
                w.asked(fs::Request::Link(to, path)),
                c,
                source,
                path,
                w.fs.links(to, path),
            ),
        }
    }
}

/// What is written about a link that was made, or was not.
pub open spec fn reported<FS: Filesystem>(
    w: env::EnvView<FS>,
    c: LnConfig,
    source: Seq<char>,
    path: Seq<char>,
    done: Result<(), fs::IoView>,
) -> (env::EnvView<FS>, int) {
    match done {
        Err(e) => (w.error_line(failure(path, fs::friendly(e))), 1),
        Ok(_) => if c.verbose {
            (
                w.write_line(
                    path + (if c.symbolic {
                        " -> "@
                    } else {
                        " => "@
                    }) + source,
                ),
                0,
            )
        } else {
            (w, 0)
        },
    }
}

fn make<FS: Filesystem>(
    env: &mut Environment<FS>,
    config: &LnConfig,
    source: &str,
    path: &str,
) -> (r: i32)
    ensures
        (final(env)@, r as int) == made(old(env)@, *config, source@, path@),
{
    let done = if config.symbolic {
        env.fs.symlink(source, path)
    } else {
        match find_link_source(env, config, source) {
            Ok(to) => env.fs.link(to.as_str(), path),
            Err(reason) => {
                let mut m = "ln: ".to_owned();
                m.append(reason.as_str());
                env.error_line(m.as_str());
                return 1;
            },
        }
    };
    if let Err(e) = done {
        let words = fs::fs_error_message(&e);
        let m = failure_line(path, words.as_str());
        env.error_line(m.as_str());
        return 1;
    }
    if config.verbose {
        let mut m = path.to_owned();
        if config.symbolic {
            m.append(" -> ");
        } else {
            m.append(" => ");
        }
        m.append(source);
        env.write_line(m.as_str());
    }
    0
}

/// What making a link at a path comes to, once the source was found fit.
pub open spec fn placed<FS: Filesystem>(
    v: env::EnvView<FS>,
    c: LnConfig,
    source: Seq<char>,
    path: Seq<char>,
) -> (env::EnvView<FS>, Result<int, env::ErrorView>) {
    let w = v.asked(fs::Request::Lstat(path));
    if v.fs.lstats(path) is Err {
        let (x, code) = made(w, c, source, path);
        (x, Ok(code))
    } else {
        let (x, same) = if c.symbolic {
            (w, false)
        } else {
            same_entry(w, source, path)
        };
        if same {
            (
                x.error_line(
                    "ln: "@ + source + " and "@ + path + " are the same directory entry"@,
                ),
                Ok(1),
            )
        } else {
            match cleared(x, c, path) {
                (y, Err(e)) => (y, Err(e)),
                (y, Ok(Some(m))) => (y.error_line(m), Ok(1)),
                (y, Ok(None)) => {
                    let (z, code) = made(y, c, source, path);
                    (z, Ok(code))
                },
            }
        }
    }
}

/// What creating a link from a source to a target comes to.
pub open spec fn linked<FS: Filesystem>(
    v: env::EnvView<FS>,
    c: LnConfig,
    source: Seq<char>,
    target: Seq<char>,
    is_target_dir: bool,
) -> (env::EnvView<FS>, Result<int, env::ErrorView>) {
    match source_checked(v, c, source) {
        (w, Some(m)) => (w.error_line(m), Ok(1)),
        (w, None) => {
            let (x, path) = target_path(w, c, source, target, is_target_dir);
            placed(x, c, source, path)
        },
    }
}

fn place<FS: Filesystem>(
    env: &mut Environment<FS>,
    config: &LnConfig,
    source: &str,
    path: &str,
) -> (r: Result<ExitCode, Error>)
    ensures
        (final(env)@, env::outcome(r)) == placed(old(env)@, *config, source@, path@),
{
    let exists_already = match env.fs.lstat(path) {
        Ok(_) => true,
        Err(_) => false,
    };
    if exists_already {
        if !config.symbolic && same_dirent(env, source, path) {
            let mut m = "ln: ".to_owned();
            m.append(source);
            m.append(" and ");
            m.append(path);
            m.append(" are the same directory entry");
            env.error_line(m.as_str());
            return Ok(ExitCode::new(1));
        }
        match clear(env, config, path) {
            Err(e) => {
                return Err(e);
            },
            Ok(Some(m)) => {
                env.error_line(m.as_str());
                return Ok(ExitCode::new(1));
            },
            Ok(None) => {},
        }
    }
    let code = make(env, config, source, path);
    Ok(ExitCode::new(code))
}

/// Creates a link from source to target.
///
/// If `is_target_dir` is true, the link will be created inside target with the basename of source.
/// Otherwise, target is the link name directly.
pub fn linkit<FS: Filesystem>(
    env: &mut Environment<FS>,
    config: &LnConfig,
    source: &str,
    target: &str,
    is_target_dir: bool,
) -> (r: Result<ExitCode, Error>)
    ensures
        (final(env)@, env::outcome(r)) == linked(
            old(env)@,
            *config,
            source@,
            target@,
            is_target_dir,
        ),
{
    if let Some(m) = check_source(env, config, source) {
        env.error_line(m.as_str());
        return Ok(ExitCode::new(1));
    }
    let path = compute_target_path(env, config, source, target, is_target_dir);
    place(env, config, source, path.as_str())
}

// ---------------------------------------------------------------------------------------------
// The command
// ---------------------------------------------------------------------------------------------

/// What linking each source from `i` on into a directory comes to: the exit code is 1 where one of
/// them failed.
pub open spec fn all_linked<FS: Filesystem>(
    v: env::EnvView<FS>,
    c: LnConfig,
    sources: Seq<Seq<char>>,
    target: Seq<char>,
    i: int,
    code: int,
) -> (env::EnvView<FS>, int)
    decreases sources.len() - i,
{
    if i < 0 || i >= sources.len() {
        (v, code)
    } else {
        let (w, r) = linked(v, c, sources[i], target, true);
        all_linked(
            w,
            c,
            sources,
            target,
            i + 1,
            if r == Ok::<int, env::ErrorView>(0) {
                code
            } else {
                1
            },
        )
    }
}

/// What linking sources into a directory comes to.
pub open spec fn many_linked<FS: Filesystem>(
    v: env::EnvView<FS>,
    c: LnConfig,
    free: Seq<Seq<char>>,
) -> (env::EnvView<FS>, int) {
    let target = free.last();
    let (w, is_link) = if c.no_follow {
        (v.asked(fs::Request::Lstat(target)), names(v.fs.lstats(target), FileType::Symlink))
    } else {
        (v, false)
    };
    if is_link {
        (w.error_line("ln: "@ + target + ": Not a directory"@), 1)
    } else {
        let x = w.asked(fs::Request::Stat(target));
        match w.fs.stats(target) {
            Err(_) => (x.error_line("ln: "@ + target + ": No such file or directory"@), 1),
            Ok(entry) => if entry.file_type == FileType::Directory {
                all_linked(x, c, free.drop_last(), target, 0, 0)
            } else {
                (x.error_line(USAGE@), 1)
            },
        }
    }
}

fn link_many<FS: Filesystem>(
    env: &mut Environment<FS>,
    config: &LnConfig,
    free: &Vec<String>,
) -> (r: i32)
    requires
        free@.len() > 2,
    ensures
        (final(env)@, r as int) == many_linked(old(env)@, *config, free.deep_view()),
{
    let ghost shown = free.deep_view();
    let target = free[free.len() - 1].clone();
    if config.no_follow {
        let is_link = match env.fs.lstat(target.as_str()) {
            Ok(entry) => entry.file_type == FileType::Symlink,
            Err(_) => false,
        };
        if is_link {
            let mut m = "ln: ".to_owned();
            m.append(target.as_str());
            m.append(": Not a directory");
            env.error_line(m.as_str());
            return 1;
        }
    }
    match env.fs.stat(target.as_str()) {
        Err(_) => {
            let mut m = "ln: ".to_owned();
            m.append(target.as_str());
            m.append(": No such file or directory");
            env.error_line(m.as_str());
            return 1;
        },
        Ok(entry) => if entry.file_type != FileType::Directory {
            env.error_line(USAGE);
            return 1;
        },
    }
    let ghost start = env@;
    let ghost sources = shown.drop_last();
    let mut code: i32 = 0;
    let mut i: usize = 0;
    while i < free.len() - 1
        invariant
            i <= free@.len() - 1,
            shown == free.deep_view(),
            sources == shown.drop_last(),
            code == 0 || code == 1,
            all_linked(env@, *config, sources, target@, i as int, code as int) == all_linked(
                start,
                *config,
                sources,
                target@,
                0,
                0,
            ),
        decreases free.len() - i,
    {
        assert(sources[i as int] == free@[i as int]@);
        match linkit(env, config, free[i].as_str(), target.as_str(), true) {
            Ok(c) => {
                if c.code() != 0 {
                    code = 1;
                }
            },
            Err(_) => {
                code = 1;
            },
        }
        i += 1;
    }
    code
}

/// What the command does with these options.
pub open spec fn ran<FS: Filesystem>(v: env::EnvView<FS>, p: options::ParsedView) -> (
    env::EnvView<FS>,
    Result<int, env::ErrorView>,
) {
    let c = settings(p);
    if p.free.len() == 0 {
        (v.error_line(USAGE@), Ok(1))
    } else if p.free.len() == 1 {
        linked(v, c, p.free[0], "."@, true)
    } else if p.free.len() == 2 {
        linked(v, c, p.free[0], p.free[1], false)
    } else {
        let (w, code) = many_linked(v, c, p.free);
        (w, Ok(code))
    }
}

/// Runs the command with these options.
pub fn run<FS: Filesystem>(env: &mut Environment<FS>, p: &Parsed) -> (r: Result<ExitCode, Error>)
    ensures
        (final(env)@, env::outcome(r)) == ran(old(env)@, p@),
{
    let config = read_settings(p);
    assert(p@.free == p.free.deep_view());
    if p.free.len() == 0 {
        env.error_line(USAGE);
        Ok(ExitCode::new(1))
    } else if p.free.len() == 1 {
        linkit(env, &config, p.free[0].as_str(), ".", true)
    } else if p.free.len() == 2 {
        linkit(env, &config, p.free[0].as_str(), p.free[1].as_str(), false)
    } else {
        let code = link_many(env, &config, &p.free);
        Ok(ExitCode::new(code))
    }
}

/// What the command does.
pub open spec fn spec_bin<FS: Filesystem>(v: env::EnvView<FS>) -> (
    env::EnvView<FS>,
    Result<int, env::ErrorView>,
) {
    match options::parsed(table(), v.args.skip(1)) {
        Ok(p) => ran(v, p),
        Err(message) => (v.error_line("ln: "@ + message), Ok(1)),
    }
}

/// The ln builtin: create links between files.
pub fn bin<FS: Filesystem>(env: &mut Environment<FS>) -> (r: Result<ExitCode, Error>)
    requires
        old(env)@.args.len() > 0,
    ensures
        (final(env)@, env::outcome(r)) == spec_bin(old(env)@),
{
    let opts = build_options();
    match options::parse(&opts, &env.args) {
        Ok(p) => run(env, &p),
        Err(e) => {
            let mut m = "ln: ".to_owned();
            m.append(e.as_str());
            env.error_line(m.as_str());
            Ok(ExitCode::new(1))
        },
    }
}

// ---------------------------------------------------------------------------------------------
// Laws
// ---------------------------------------------------------------------------------------------

/// Without `-f` nothing is removed for a link: where something stands at the path of the link, the
/// path is named as taken, and the filesystem is only looked at.
pub proof fn lemma_no_overwrite<FS: Filesystem>(
    v: env::EnvView<FS>,
    c: LnConfig,
    source: Seq<char>,
    path: Seq<char>,
)
    requires
        !c.force,
        c.symbolic,
        v.fs.lstats(path) is Ok,
    ensures
        placed(v, c, source, path) == (
            v.asked(fs::Request::Lstat(path)).error_line("ln: "@ + path + ": File exists"@),
            Ok::<int, env::ErrorView>(1),
        ),
{
}

/// A symbolic link to a free path is made by one request, whatever the source names.
pub proof fn lemma_symlink_made<FS: Filesystem>(
    v: env::EnvView<FS>,
    c: LnConfig,
    source: Seq<char>,
    path: Seq<char>,
)
    requires
        c.symbolic,
        !c.verbose,
        v.fs.lstats(path) is Err,
        v.asked(fs::Request::Lstat(path)).fs.symlinks(source, path) is Ok,
    ensures
        placed(v, c, source, path) == (
            v.asked(fs::Request::Lstat(path)).asked(fs::Request::Symlink(source, path)),
            Ok::<int, env::ErrorView>(0),
        ),
{
}

/// `-F` without `-s` changes nothing: no directory is removed for a hard link.
pub proof fn lemma_no_dir_removed_for_hard_link(p: options::ParsedView)
    requires
        !p.present('s'),
    ensures
        !settings(p).remove_dirs,
        settings(p).force == p.present('f'),
{
}

/// A link that is made in a directory has the name of the last component of its source there.
pub proof fn lemma_name_in_directory(dir: Seq<char>, name: Seq<char>, target: Seq<char>)
    requires
        name.len() > 0,
        !name.contains('/'),
        target.len() > 0,
        target.last() != '/',
        target != seq!['.'],
    ensures
        inside(name, target) == target + seq!['/'] + name,
        inside(name.push('/'), target) == target + seq!['/'] + name,
        inside(dir + seq!['/'] + name, target) == target + seq!['/'] + name,
        inside(dir + seq!['/'] + name + seq!['/'], target) == target + seq!['/'] + name,
        inside(dir + seq!['/'] + name, seq!['.']) == name,
{
    reveal_strlit("/");
    reveal_strlit(".");
    assert("/"@ =~= seq!['/']);
    assert("."@ =~= seq!['.']);
    paths::lemma_last_component(dir, name);
    let whole = dir + seq!['/'] + name;
    assert(name[name.len() - 1] == name.last());
    assert(whole.last() == name.last());
    assert(name.last() != '/');
    assert(name.push('/').drop_last() =~= name);
    assert((whole + seq!['/']).drop_last() =~= whole);
    assert((whole + seq!['/']).last() == '/');
    reveal_with_fuel(paths::unslashed, 2);
}

/// A hard link to a free path is made by one request, to the source itself where symbolic links are
/// not followed.
pub proof fn lemma_hard_link_made<FS: Filesystem>(
    v: env::EnvView<FS>,
    c: LnConfig,
    source: Seq<char>,
    path: Seq<char>,
)
    requires
        !c.symbolic,
        !c.follow_symlinks,
        v.fs.lstats(path) is Err,
        v.asked(fs::Request::Lstat(path)).fs.links(source, path) is Ok,
    ensures
        ({
            let w = v.asked(fs::Request::Lstat(path)).asked(fs::Request::Link(source, path));
            placed(v, c, source, path) == (
                if c.verbose {
                    w.write(path + seq![' ', '=', '>', ' '] + source + seq!['\n'])
                } else {
                    w
                },
                Ok::<int, env::ErrorView>(0),
            )
        }),
{
    reveal_strlit(" => ");
    assert(" => "@ =~= seq![' ', '=', '>', ' ']);
    let line = path + " => "@ + source;
    assert(text::terminated(line) =~= path + seq![' ', '=', '>', ' '] + source + seq!['\n']);
}

/// With -f what stands in the way of a symbolic link is removed first, and then the link is made. A
/// directory is removed only with -F.
pub proof fn lemma_way_cleared<FS: Filesystem>(
    v: env::EnvView<FS>,
    c: LnConfig,
    source: Seq<char>,
    path: Seq<char>,
)
    requires
        c.symbolic,
        c.force,
        !c.verbose,
        v.fs.lstats(path) is Ok,
        v.asked(fs::Request::Lstat(path)).fs.lstats(path) == v.fs.lstats(path),
        ({
            let w = v.asked(fs::Request::Lstat(path)).asked(fs::Request::Lstat(path));
            let dir = c.remove_dirs && v.fs.lstats(path)->Ok_0.file_type == FileType::Directory;
            &&& dir ==> w.fs.rmdirs(path) is Ok && w.asked(fs::Request::Rmdir(path)).fs.symlinks(
                source,
                path,
            ) is Ok
            &&& !dir ==> w.fs.unlinks(path) is Ok && w.asked(fs::Request::Unlink(path)).fs.symlinks(
                source,
                path,
            ) is Ok
        }),
    ensures
        ({
            let w = v.asked(fs::Request::Lstat(path)).asked(fs::Request::Lstat(path));
            let dir = c.remove_dirs && v.fs.lstats(path)->Ok_0.file_type == FileType::Directory;
            let x = w.asked(
                if dir {
                    fs::Request::Rmdir(path)
                } else {
                    fs::Request::Unlink(path)
                },
            );
            placed(v, c, source, path) == (
                x.asked(fs::Request::Symlink(source, path)),
                Ok::<int, env::ErrorView>(0),
            )
        }),
{
}

/// A symbolic link in a directory is made under the name of the last component of its source, and a
/// target that is a directory by the way it is written, or by what is there, takes the link inside.
pub proof fn lemma_linked_into_directory<FS: Filesystem>(
    v: env::EnvView<FS>,
    c: LnConfig,
    dir: Seq<char>,
    name: Seq<char>,
    target: Seq<char>,
)
    requires
        c.symbolic,
        name.len() > 0,
        !name.contains('/'),
        target.len() > 0,
        target.last() != '/',
        target != seq!['.'],
    ensures
        linked(v, c, dir + seq!['/'] + name, target, true) == placed(
            v,
            c,
            dir + seq!['/'] + name,
            target + seq!['/'] + name,
        ),
        !dir_like(target) && !c.remove_dirs && !c.no_follow && v.fs.stats(target) is Ok
            && v.fs.stats(target)->Ok_0.file_type == FileType::Directory ==> linked(
            v,
            c,
            dir + seq!['/'] + name,
            target,
            false,
        ) == placed(
            v.asked(fs::Request::Stat(target)),
            c,
            dir + seq!['/'] + name,
            target + seq!['/'] + name,
        ),
        !dir_like(target) && !c.remove_dirs && !c.no_follow && (v.fs.stats(target) is Err
            || v.fs.stats(target)->Ok_0.file_type != FileType::Directory) ==> linked(
            v,
            c,
            dir + seq!['/'] + name,
            target,
            false,
        ) == placed(v.asked(fs::Request::Stat(target)), c, dir + seq!['/'] + name, target),
{
    lemma_name_in_directory(dir, name, target);
}

/// The environment when the first `n` sources were linked into a directory one after another, and
/// whether one of them failed.
pub open spec fn after_links<FS: Filesystem>(
    v: env::EnvView<FS>,
    c: LnConfig,
    sources: Seq<Seq<char>>,
    target: Seq<char>,
    n: int,
) -> (env::EnvView<FS>, bool)
    decreases n,
{
    if n <= 0 {
        (v, false)
    } else {
        let (w, failed) = after_links(v, c, sources, target, n - 1);
        let (x, r) = linked(w, c, sources[n - 1], target, true);
        (x, failed || r != Ok::<int, env::ErrorView>(0))
    }
}

proof fn lemma_linked_from<FS: Filesystem>(
    v: env::EnvView<FS>,
    c: LnConfig,
    sources: Seq<Seq<char>>,
    target: Seq<char>,
    i: int,
)
    requires
        0 <= i <= sources.len(),
    ensures
        ({
            let (w, failed) = after_links(v, c, sources, target, i);
            let (x, any) = after_links(v, c, sources, target, sources.len() as int);
            all_linked(w, c, sources, target, i, if failed {
                1
            } else {
                0
            }) == (x, if any {
                1int
            } else {
                0
            })
        }),
    decreases sources.len() - i,
{
    if i < sources.len() {
        lemma_linked_from(v, c, sources, target, i + 1);
    }
}

/// Each source is linked into the directory, whatever became of those before it. The exit code is 1
/// where one failed, otherwise 0.
pub proof fn lemma_sources_in_turn<FS: Filesystem>(
    v: env::EnvView<FS>,
    c: LnConfig,
    sources: Seq<Seq<char>>,
    target: Seq<char>,
)
    ensures
        ({
            let (x, any) = after_links(v, c, sources, target, sources.len() as int);
            all_linked(v, c, sources, target, 0, 0) == (x, if any {
                1int
            } else {
                0
            })
        }),
{
    lemma_linked_from(v, c, sources, target, 0);
}

} // verus!
