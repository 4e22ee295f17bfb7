//! The rmdir builtin: remove empty directories.

use crate::env::{Environment, Error, ExitCode};
use crate::env;
use crate::fs::Filesystem;
use crate::fs;
use crate::options::{Arity, OptDef, Parsed};
use crate::options;
use crate::paths;
use crate::text;
use vstd::prelude::*;

verus! {

broadcast use vstd::string::group_string_axioms;

pub const USAGE: &'static str = "usage: rmdir [-pv] directory ...";

/// The options of the command.
pub open spec fn table() -> Seq<OptDef> {
    seq![
        OptDef { short: 'p', long: "", arity: Arity::Flag },
        OptDef { short: 'v', long: "", arity: Arity::Flag },
    ]
}

fn build_options() -> (r: Vec<OptDef>)
    ensures
        r@ == table(),
        options::all_declarable(options::definitions(r@)),
{
    let r = vec![
        OptDef { short: 'p', long: "", arity: Arity::Flag },
        OptDef { short: 'v', long: "", arity: Arity::Flag },
    ];
    proof {
        reveal_strlit("");
    }
    r
}

/// A path without slashes at its end; one character stays what it is.
pub open spec fn stripped(path: Seq<char>) -> Seq<char> {
    if path.len() > 1 {
        paths::unslashed(path)
    } else {
        path
    }
}

/// What holds the directory at a path, by the way that the path is written: what stands before its
/// last slash, without slashes at the end. Nothing is left of the root.
pub open spec fn upper(path: Seq<char>) -> Option<Seq<char>> {
    if paths::slash_at(path) < 0 {
        None
    } else {
        let up = paths::unslashed(path.take(paths::slash_at(path)));
        if up.len() == 0 {
            None
        } else {
            Some(up)
        }
    }
}

/// What holds a directory has a shorter path.
pub proof fn lemma_upper_shorter(path: Seq<char>)
    ensures
        upper(path) is Some ==> upper(path)->0.len() < path.len(),
{
    paths::lemma_slash_at(path);
    if paths::slash_at(path) >= 0 {
        lemma_unslashed_len(path.take(paths::slash_at(path)));
    }
}

proof fn lemma_unslashed_len(s: Seq<char>)
    ensures
        paths::unslashed(s).len() <= s.len(),
    decreases s.len(),
{
    if s.len() > 0 {
        lemma_unslashed_len(s.drop_last());
    }
}

fn upper_of(path: &str) -> (r: Option<String>)
    ensures
        options::opt_text(r) == upper(path@),
{
    proof {
        reveal_strlit(".");
        reveal_strlit("/");
        paths::lemma_slash_at(path@);
        if paths::slash_at(path@) == 0 {
            assert(path@.take(0) =~= Seq::<char>::empty());
            assert("/"@.drop_last() =~= Seq::<char>::empty());
            reveal_with_fuel(paths::unslashed, 2);
        }
    }
    if !text::has_char(path, '/') {
        assert(paths::slash_at(path@) < 0);
        return None;
    }
    let dir = paths::dir_of(path);
    let up = paths::trim_slashes(dir.as_str());
    if up.as_str().is_empty() {
        None
    } else {
        Some(up)
    }
}

/// A failure with a path.
pub open spec fn failure(path: Seq<char>, e: fs::IoView) -> Seq<char> {
    "rmdir: "@ + path + ": "@ + fs::friendly(e)
}

/// What removing a directory and reporting it comes to, and whether it was removed.
pub open spec fn dropped<FS: Filesystem>(v: env::EnvView<FS>, path: Seq<char>, verbose: bool) -> (
    env::EnvView<FS>,
    bool,
) {
    let w = v.asked(fs::Request::Rmdir(path));
    match v.fs.rmdirs(path) {
        Err(e) => (w.error_line(failure(path, e)), false),
        Ok(_) => (
            if verbose {
                w.write_line(path)
            } else {
                w
            },
            true,
        ),
    }
}

fn drop_dir<FS: Filesystem>(env: &mut Environment<FS>, path: &str, verbose: bool) -> (r: bool)
    ensures
        (final(env)@, r) == dropped(old(env)@, path@, verbose),
{
    match env.fs.rmdir(path) {
        Err(e) => {
            let mut m = "rmdir: ".to_owned();
            m.append(path);
            m.append(": ");
            let words = fs::fs_error_message(&e);
            m.append(words.as_str());
            env.error_line(m.as_str());
            false
        },
        Ok(_) => {
            if verbose {
                env.write_line(path);
            }
            true
        },
    }
}

/// What removing the directories above a path comes to, and whether all of them were removed: the
/// first that cannot be removed ends it.
pub open spec fn upward<FS: Filesystem>(v: env::EnvView<FS>, path: Seq<char>, verbose: bool) -> (
    env::EnvView<FS>,
    bool,
)
    decreases path.len(),
{
    match upper(path) {
        None => (v, true),
        Some(up) => {
            proof {
                lemma_upper_shorter(path);
            }
            match dropped(v, up, verbose) {
                (w, false) => (w, false),
                (w, true) => upward(w, up, verbose),
            }
        },
    }
}

/// Removes parent directories of a path, stopping at the first non-empty or root directory.
pub fn rm_path<FS: Filesystem>(env: &mut Environment<FS>, path: &str, verbose: bool) -> (r: bool)
    ensures
        (final(env)@, r) == upward(old(env)@, paths::unslashed(path@), verbose),
{
    let mut at = paths::trim_slashes(path);
    loop
        invariant
            upward(env@, at@, verbose) == upward(old(env)@, paths::unslashed(path@), verbose),
        decreases at@.len(),
    {
        proof {
            lemma_upper_shorter(at@);
        }
        match upper_of(at.as_str()) {
            None => {
                return true;
            },
            Some(up) => {
                if !drop_dir(env, up.as_str(), verbose) {
                    return false;
                }
                at = up;
            },
        }
    }
}

/// What removing one directory, and with `parents` those above it, comes to.
pub open spec fn one_removed<FS: Filesystem>(
    v: env::EnvView<FS>,
    path: Seq<char>,
    parents: bool,
    verbose: bool,
) -> (env::EnvView<FS>, bool) {
    match dropped(v, path, verbose) {
        (w, false) => (w, false),
        (w, true) => if parents {
            upward(w, paths::unslashed(path), verbose)
        } else {
            (w, true)
        },
    }
}

/// What removing each directory from `i` on comes to: the exit code is 1 where one could not be
/// removed.
pub open spec fn removed<FS: Filesystem>(
    v: env::EnvView<FS>,
    p: options::ParsedView,
    i: int,
    code: int,
) -> (env::EnvView<FS>, int)
    decreases p.free.len() - i,
{
    if i < 0 || i >= p.free.len() {
        (v, code)
    } else {
        let (w, all) = one_removed(v, stripped(p.free[i]), p.present('p'), p.present('v'));
        removed(
            w,
            p,
            i + 1,
            if all {
                code
            } else {
                1
            },
        )
    }
}

/// What the command does with these options.
pub open spec fn ran<FS: Filesystem>(v: env::EnvView<FS>, p: options::ParsedView) -> (
    env::EnvView<FS>,
    Result<int, env::ErrorView>,
) {
    if p.free.len() == 0 {
        (v.error_line(USAGE@), Ok(2))
    } else {
        let (w, code) = removed(v, p, 0, 0);
        (w, Ok(code))
    }
}

/// Runs the command with these options.
pub fn run<FS: Filesystem>(env: &mut Environment<FS>, p: &Parsed) -> (r: Result<ExitCode, Error>)
    ensures
        (final(env)@, env::outcome(r)) == ran(old(env)@, p@),
{
    let parents = p.present('p');
    let verbose = p.present('v');
    if p.free.len() == 0 {
        env.error_line(USAGE);
        return Ok(ExitCode::new(2));
    }
    let ghost start = env@;
    let mut code: i32 = 0;
    let mut i: usize = 0;
    while i < p.free.len()
        invariant
            i <= p.free@.len(),
            parents == p@.present('p'),
            verbose == p@.present('v'),
            code == 0 || code == 1,
            removed(env@, p@, i as int, code as int) == removed(start, p@, 0, 0),
        decreases p.free.len() - i,
    {
        let named = p.free[i].as_str();
        let n = text::chars(named).len();
        let dir = if n > 1 {
            paths::trim_slashes(named)
        } else {
            named.to_owned()
        };
        if drop_dir(env, dir.as_str(), verbose) {
            if parents && !rm_path(env, dir.as_str(), verbose) {
                code = 1;
            }
        } else {
            code = 1;
        }
        i += 1;
    }
    Ok(ExitCode::new(code))
}

/// What the command does.
pub open spec fn spec_bin<FS: Filesystem>(v: env::EnvView<FS>) -> (
    env::EnvView<FS>,
    Result<int, env::ErrorView>,
) {
    match options::parsed(table(), v.args.skip(1)) {
        Ok(p) => ran(v, p),
        Err(message) => (v.error_line("rmdir: "@ + message), Ok(2)),
    }
}

/// The rmdir builtin: remove empty directories.
pub fn bin<FS: Filesystem>(env: &mut Environment<FS>) -> (r: Result<ExitCode, Error>)
    requires
        old(env)@.args.len() > 0,
    ensures
        (final(env)@, env::outcome(r)) == spec_bin(old(env)@),
{
    let opts = build_options();
    match options::parse(&opts, &env.args) {
        Ok(p) => run(env, &p),
        Err(e) => {
            let mut m = "rmdir: ".to_owned();
            m.append(e.as_str());
            env.error_line(m.as_str());
            Ok(ExitCode::new(2))
        },
    }
}

// ---------------------------------------------------------------------------------------------
// Laws
// ---------------------------------------------------------------------------------------------

/// A directory that cannot be removed is named on the error stream, and none above it is touched.
pub proof fn lemma_failure_ends_it<FS: Filesystem>(
    v: env::EnvView<FS>,
    path: Seq<char>,
    parents: bool,
    verbose: bool,
)
    requires
        v.fs.rmdirs(path) is Err,
    ensures
        one_removed(v, path, parents, verbose) == (
            v.asked(fs::Request::Rmdir(path)).error_line(failure(path, v.fs.rmdirs(path)->Err_0)),
            false,
        ),
{
}

/// Above a path without a slash there is nothing to remove, nor above an entry of the root.
pub proof fn lemma_nothing_above<FS: Filesystem>(
    v: env::EnvView<FS>,
    path: Seq<char>,
    verbose: bool,
)
    requires
        paths::slash_at(path) <= 0,
    ensures
        upward(v, path, verbose) == (v, true),
{
    if paths::slash_at(path) == 0 {
        assert(path.take(0) =~= Seq::<char>::empty());
    }
}

proof fn lemma_plain_end(parts: Seq<Seq<char>>)
    requires
        paths::plain(parts),
        parts.len() > 0,
    ensures
        paths::slashed(parts).len() > 0,
        paths::slashed(parts).last() != '/',
        paths::unslashed(paths::slashed(parts)) == paths::slashed(parts),
{
    let last = parts.last();
    assert(parts[parts.len() - 1] == last);
    assert(last.len() > 0);
    assert(!last.contains('/'));
    assert(last[last.len() - 1] == last.last());
    let s = paths::slashed(parts);
    if parts.len() > 1 {
        assert(s == paths::slashed(parts.drop_last()) + seq!['/'] + last);
        assert(s.last() == last.last());
    } else {
        assert(s == last);
    }
}

proof fn lemma_last_slash(dir: Seq<char>, name: Seq<char>)
    requires
        !name.contains('/'),
    ensures
        paths::slash_at(dir + seq!['/'] + name) == dir.len(),
        paths::slash_at(name) == -1,
{
    let s = dir + seq!['/'] + name;
    paths::lemma_slash_at(s);
    paths::lemma_slash_at(name);
    let k = paths::slash_at(s);
    assert(s[dir.len() as int] == '/');
    if k > dir.len() {
        assert(s[k] == name[k - dir.len() - 1]);
        assert(name.contains('/'));
    }
    if paths::slash_at(name) >= 0 {
        assert(name.contains('/'));
    }
}

/// Above a path lies what is left of it without its last component; above a single component lies
/// nothing, nor above one of the root.
pub proof fn lemma_upper_of_path(parts: Seq<Seq<char>>, name: Seq<char>)
    requires
        paths::plain(parts),
        paths::plain(seq![name]),
    ensures
        parts.len() > 0 ==> upper(paths::slashed(parts.push(name))) == Some(paths::slashed(parts)),
        parts.len() > 0 ==> upper(paths::rooted(parts.push(name))) == Some(paths::rooted(parts)),
        upper(name) is None,
        upper(seq!['/'] + name) is None,
{
    assert(seq![name][0] == name);
    let whole = parts.push(name);
    assert(whole.drop_last() =~= parts);
    lemma_last_slash(Seq::empty(), name);
    let none = Seq::<char>::empty();
    assert(none + seq!['/'] + name =~= seq!['/'] + name);
    assert((seq!['/'] + name).take(0) =~= none);
    if parts.len() > 0 {
        let dir = paths::slashed(parts);
        lemma_plain_end(parts);
        lemma_last_slash(dir, name);
        assert(paths::slashed(whole) == dir + seq!['/'] + name);
        assert(paths::slashed(whole).take(dir.len() as int) =~= dir);
        let up = paths::rooted(parts);
        lemma_last_slash(up, name);
        assert(paths::rooted(whole) =~= up + seq!['/'] + name);
        assert(paths::rooted(whole).take(up.len() as int) =~= up);
        assert(up.last() == dir.last());
    }
}

/// The paths above the one with these components, the longest first.
pub open spec fn all_above(parts: Seq<Seq<char>>) -> Seq<Seq<char>> {
    Seq::new(
        (parts.len() - 1) as nat,
        |i: int| paths::slashed(parts.take(parts.len() - 1 - i)),
    )
}

/// With -p all directories above a path are removed, from the lowest to the highest, each of them
/// once: where all could be removed, -v prints their paths in this order.
pub proof fn lemma_removed_upward<FS: Filesystem>(v: env::EnvView<FS>, parts: Seq<Seq<char>>)
    requires
        paths::plain(parts),
        parts.len() > 0,
        upward(v, paths::slashed(parts), true).1,
    ensures
        upward(v, paths::slashed(parts), true).0.out == v.out + text::unlines(all_above(parts)),
    decreases parts.len(),
{
    let init = parts.drop_last();
    let name = parts.last();
    assert(parts =~= init.push(name));
    assert(paths::plain(init)) by {
        assert forall|i: int| 0 <= i < init.len() implies #[trigger] init[i] == parts[i] by {}
    }
    assert(paths::plain(seq![name])) by {
        assert(parts[parts.len() - 1] == name);
    }
    lemma_upper_of_path(init, name);
    let all = all_above(parts);
    if parts.len() == 1 {
        assert(paths::slashed(parts) == name);
        assert(all =~= Seq::<Seq<char>>::empty());
        assert(v.out + text::unlines(all) =~= v.out);
    } else {
        let up = paths::slashed(init);
        lemma_upper_shorter(paths::slashed(parts));
        let w = v.asked(fs::Request::Rmdir(up));
        lemma_removed_upward(w.write_line(up), init);
        let rest = all_above(init);
        assert(parts.take(parts.len() - 1) =~= init);
        assert forall|i: int| 0 <= i < rest.len() implies #[trigger] rest[i] == all[i + 1] by {
            assert(init.take(init.len() - 1 - i) =~= parts.take(parts.len() - 1 - (i + 1)));
        }
        assert(all =~= seq![up] + rest);
        text::lemma_unlines_in_parts(seq![up], rest);
        assert(seq![up].drop_last() =~= Seq::<Seq<char>>::empty());
        assert(text::unlines(seq![up]) =~= text::terminated(up)) by {
            reveal_with_fuel(text::unlines, 2);
        }
        assert(v.out + text::terminated(up) + text::unlines(rest) =~= v.out + text::unlines(all));
    }
}

/// The environment when the first `n` directories were removed one after another, and whether one of
/// them failed.
pub open spec fn after_removing<FS: Filesystem>(
    v: env::EnvView<FS>,
    p: options::ParsedView,
    n: int,
) -> (env::EnvView<FS>, bool)
    decreases n,
{
    if n <= 0 {
        (v, false)
    } else {
        let (w, failed) = after_removing(v, p, n - 1);
        let (x, done) = one_removed(
            w,
            stripped(p.free[n - 1]),
            p.present('p'),
            p.present('v'),
        );
        (x, failed || !done)
    }
}

proof fn lemma_removed_from<FS: Filesystem>(v: env::EnvView<FS>, p: options::ParsedView, i: int)
    requires
        0 <= i <= p.free.len(),
    ensures
        ({
            let (w, failed) = after_removing(v, p, i);
            let (x, any) = after_removing(v, p, p.free.len() as int);
            removed(w, p, i, if failed {
                1
            } else {
                0
            }) == (x, if any {
                1int
            } else {
                0
            })
        }),
    decreases p.free.len() - i,
{
    if i < p.free.len() {
        lemma_removed_from(v, p, i + 1);
    }
}

/// Each directory is removed, whatever became of those before it. The exit code is 1 where one could
/// not be removed, otherwise 0.
pub proof fn lemma_directories_in_turn<FS: Filesystem>(v: env::EnvView<FS>, p: options::ParsedView)
    requires
        p.free.len() > 0,
    ensures
        ({
            let (x, any) = after_removing(v, p, p.free.len() as int);
            removed(v, p, 0, 0) == (x, if any {
                1int
            } else {
                0
            })
        }),
{
    lemma_removed_from(v, p, 0);
}

/// A path may be written with slashes at its end.
pub proof fn lemma_slashes_at_end(path: Seq<char>)
    requires
        path.len() > 0,
        path.last() != '/',
    ensures
        stripped(path) == path,
        stripped(path.push('/')) == path,
        stripped(path.push('/').push('/')) == path,
{
    reveal_with_fuel(paths::unslashed, 3);
    assert(path.push('/').drop_last() =~= path);
    assert(path.push('/').push('/').drop_last() =~= path.push('/'));
}

} // verus!
