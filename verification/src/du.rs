//! The du builtin: display disk usage statistics.

use crate::env::{Environment, Error, ExitCode};
use crate::env;
use crate::fs::{DirEntry, FileType, Filesystem};
use crate::fs;
use crate::options::{Arity, OptDef, Parsed};
use crate::options;
use crate::paths;
use crate::size;
use crate::text;
use vstd::prelude::*;

verus! {

broadcast use vstd::string::group_string_axioms;

/// Options for the du command.
#[derive(Debug, Clone, Copy, PartialEq, Eq, Structural)]
pub struct DuOptions {
    /// Display an entry for each file in a file hierarchy.
    pub all: bool,
    /// Display a grand total.
    pub grand_total: bool,
    /// Maximum depth to display.
    pub max_depth: Option<usize>,
    /// Human-readable output (powers of 1024).
    pub human_readable: bool,
    /// Human-readable output (powers of 1000).
    pub si: bool,
    /// Block size for calculation.
    pub block_size: u64,
    /// Count hard links multiple times.
    pub count_links: bool,
    /// Display apparent size instead of disk usage.
    pub apparent_size: bool,
}

impl DuOptions {
    /// Whether there is a block size where sizes are counted in blocks.
    pub open spec fn valid(self) -> bool {
        self.human_readable || self.si || self.block_size > 0
    }
}

/// The number of blocks that hold so many bytes.
pub open spec fn blocks(bytes: nat, block: nat) -> nat {
    if bytes % block == 0 {
        bytes / block
    } else {
        bytes / block + 1
    }
}

/// A sum, or the largest size where it lies beyond.
pub open spec fn size_sum(a: u64, b: u64) -> u64 {
    if a + b > u64::MAX {
        u64::MAX
    } else {
        (a + b) as u64
    }
}

/// The size of an entry: its bytes, or the bytes of the blocks of 512 bytes that hold them.
pub open spec fn entry_size(entry: DirEntry, o: DuOptions) -> u64 {
    if o.apparent_size {
        entry.size
    } else {
        let n = blocks(entry.size as nat, 512) * 512;
        if n > u64::MAX {
            u64::MAX
        } else {
            n as u64
        }
    }
}

/// A size in the form that the options ask for.
pub open spec fn size_text(bytes: nat, o: DuOptions) -> Seq<char> {
    if o.human_readable {
        text::trim_start(size::human_size(bytes, 1024))
    } else if o.si {
        text::trim_start(size::human_size(bytes, 1000))
    } else {
        text::decimal(blocks(bytes, o.block_size as nat))
    }
}

/// A size and what has it.
pub open spec fn size_line(bytes: nat, name: Seq<char>, o: DuOptions) -> Seq<char> {
    size_text(bytes, o) + "\t"@ + name
}

fn count_blocks(bytes: u64, block: u64) -> (r: u64)
    requires
        block > 0,
    ensures
        r == blocks(bytes as nat, block as nat),
{
    if bytes % block == 0 {
        bytes / block
    } else {
        proof {
            assert(bytes / block < u64::MAX) by (nonlinear_arith)
                requires
                    block > 0,
                    bytes <= u64::MAX,
                    bytes % block != 0,
            ;
        }
        bytes / block + 1
    }
}

fn sum_sizes(a: u64, b: u64) -> (r: u64)
    ensures
        r == size_sum(a, b),
{
    match a.checked_add(b) {
        Some(n) => n,
        None => u64::MAX,
    }
}

/// Gets the size of an entry for du purposes.
pub fn get_size(entry: &DirEntry, opts: &DuOptions) -> (r: u64)
    ensures
        r == entry_size(*entry, *opts),
{
    if opts.apparent_size {
        entry.size
    } else {
        match count_blocks(entry.size, 512).checked_mul(512) {
            Some(n) => n,
            None => u64::MAX,
        }
    }
}

/// Formats a size according to the options.
pub fn format_size(bytes: u64, opts: &DuOptions) -> (r: String)
    requires
        opts.valid(),
    ensures
        r@ == size_text(bytes as nat, *opts),
{
    if opts.human_readable {
        let s = size::format_human_size_with_base(bytes, 1024);
        text::trimmed_start(s.as_str())
    } else if opts.si {
        let s = size::format_human_size_with_base(bytes, 1000);
        text::trimmed_start(s.as_str())
    } else {
        text::to_decimal(count_blocks(bytes, opts.block_size))
    }
}

// ---------------------------------------------------------------------------------------------
// Walking a hierarchy
// ---------------------------------------------------------------------------------------------

/// Whether an entry at a depth is within the depth that is displayed.
pub open spec fn within(o: DuOptions, depth: nat) -> bool {
    match o.max_depth {
        Some(max) => depth <= max,
        None => true,
    }
}

/// What is known while a hierarchy is walked: the environment, the files that were counted, by
/// device and number, and the size so far.
pub ghost struct Walk<FS> {
    pub v: env::EnvView<FS>,
    pub seen: Set<(u64, u64)>,
    pub total: u64,
}

/// Whether an entry is a file that was counted before and is not counted again.
pub open spec fn counted(entry: DirEntry, o: DuOptions, seen: Set<(u64, u64)>) -> bool {
    !o.count_links && entry.file_type == FileType::RegularFile && seen.contains(
        (entry.dev, entry.ino),
    )
}

/// The files that are counted when an entry is.
pub open spec fn noted(entry: DirEntry, o: DuOptions, seen: Set<(u64, u64)>) -> Set<(u64, u64)> {
    if !o.count_links && entry.file_type == FileType::RegularFile {
        seen.insert((entry.dev, entry.ino))
    } else {
        seen
    }
}

/// What calculating the size of a path comes to, `depth` levels below where the walk began. A
/// hierarchy deeper than the largest depth is not followed further.
pub open spec fn path_measured<FS: Filesystem>(
    v: env::EnvView<FS>,
    path: Seq<char>,
    display: Seq<char>,
    o: DuOptions,
    depth: nat,
    seen: Set<(u64, u64)>,
) -> (Walk<FS>, Result<u64, env::ErrorView>)
    decreases usize::MAX - depth, 1int, 0int,
{
    let w = v.with_fs(v.fs.after(fs::Request::Lstat(path)));
    match v.fs.lstats(path) {
        Err(e) => (Walk { v: w, seen, total: 0 }, Err(env::ErrorView::Io(e))),
        Ok(entry) => if counted(entry, o, seen) {
            (Walk { v: w, seen, total: 0 }, Ok(0))
        } else {
            let now = noted(entry, o, seen);
            let own = entry_size(entry, o);
            if entry.file_type == FileType::Directory {
                let x = w.with_fs(w.fs.after(fs::Request::ReadDir(path)));
                match w.fs.lists(path) {
                    Err(e) => (Walk { v: x, seen: now, total: 0 }, Err(env::ErrorView::Io(e))),
                    Ok(l) => {
                        let t = entries_measured(
                            Walk { v: x, seen: now, total: own },
                            path,
                            display,
                            o,
                            depth,
                            l,
                            0,
                        );
                        let y = if within(o, depth) {
                            t.v.write_line(size_line(t.total as nat, display, o))
                        } else {
                            t.v
                        };
                        (Walk { v: y, ..t }, Ok(t.total))
                    },
                }
            } else {
                let y = if within(o, depth) && (depth == 0 || o.all) {
                    w.write_line(size_line(own as nat, display, o))
                } else {
                    w
                };
                (Walk { v: y, seen: now, total: own }, Ok(own))
            }
        },
    }
}

/// What calculating the sizes of the entries of a directory from `i` on comes to.
pub open spec fn entries_measured<FS: Filesystem>(
    t: Walk<FS>,
    path: Seq<char>,
    display: Seq<char>,
    o: DuOptions,
    depth: nat,
    l: Seq<fs::Listed>,
    i: int,
) -> Walk<FS>
    decreases usize::MAX - depth, 0int, l.len() - i,
{
    if i < 0 || i >= l.len() {
        t
    } else if l[i].name == "."@ || l[i].name == ".."@ || depth >= usize::MAX {
        entries_measured(t, path, display, o, depth, l, i + 1)
    } else {
        let shown = paths::child(display, l[i].name);
        let (u, r) = path_measured(
            t.v,
            paths::child(path, l[i].name),
            shown,
            o,
            depth + 1,
            t.seen,
        );
        let next = match r {
            Ok(n) => Walk { v: u.v, seen: u.seen, total: size_sum(t.total, n) },
            Err(_) => Walk {
                v: u.v.error_line("du: "@ + shown + ": Permission denied"@),
                seen: u.seen,
                total: t.total,
            },
        };
        entries_measured(next, path, display, o, depth, l, i + 1)
    }
}

pub open spec fn size_result(r: Result<u64, Error>) -> Result<u64, env::ErrorView> {
    match r {
        Ok(n) => Ok(n),
        Err(e) => Err(e@),
    }
}

/// The files that were counted, as a set.
pub open spec fn seen_set(v: Seq<(u64, u64)>) -> Set<(u64, u64)> {
    v.to_set()
}

fn has_seen(seen: &Vec<(u64, u64)>, dev: u64, ino: u64) -> (r: bool)
    ensures
        r == seen_set(seen@).contains((dev, ino)),
{
    let mut i: usize = 0;
    while i < seen.len()
        invariant
            i <= seen@.len(),
            forall|j: int| 0 <= j < i ==> #[trigger] seen@[j] != (dev, ino),
        decreases seen.len() - i,
    {
        if seen[i].0 == dev && seen[i].1 == ino {
            assert(seen@.contains(seen@[i as int]));
            return true;
        }
        i += 1;
    }
    false
}

/// Calculates disk usage for a path and prints entries.
pub fn calculate_du<FS: Filesystem>(
    env: &mut Environment<FS>,
    resolved_path: &str,
    display_path: &str,
    opts: &DuOptions,
    depth: usize,
    seen: &mut Vec<(u64, u64)>,
) -> (r: Result<u64, Error>)
    requires
        opts.valid(),
    ensures
        ({
            let (t, s) = path_measured(
                old(env)@,
                resolved_path@,
                display_path@,
                *opts,
                depth as nat,
                seen_set(old(seen)@),
            );
            final(env)@ == t.v && seen_set(final(seen)@) == t.seen && size_result(r) == s
        }),
    decreases usize::MAX - depth,
{
    let entry = match env.fs.lstat(resolved_path) {
        Ok(e) => e,
        Err(e) => {
            return Err(env::error_of(e));
        },
    };
    if !opts.count_links && entry.file_type == FileType::RegularFile {
        if has_seen(seen, entry.dev, entry.ino) {
            return Ok(0);
        }
        let ghost before = seen@;
        seen.push((entry.dev, entry.ino));
        proof {
            let x = (entry.dev, entry.ino);
            assert forall|y: (u64, u64)| seen_set(seen@).contains(y) == seen_set(before).insert(
                x,
            ).contains(y) by {
                if before.contains(y) {
                    let k = choose|k: int| 0 <= k < before.len() && before[k] == y;
                    assert(seen@[k] == y);
                }
                if y == x {
                    assert(seen@[before.len() as int] == y);
                }
                if seen@.contains(y) && y != x {
                    let k = choose|k: int| 0 <= k < seen@.len() && seen@[k] == y;
                    assert(before[k] == y);
                }
            }
            assert(seen_set(seen@) =~= seen_set(before).insert(x));
        }
    }
    let own = get_size(&entry, opts);
    let shown_depth = match opts.max_depth {
        Some(max) => depth <= max,
        None => true,
    };
    if entry.file_type == FileType::Directory {
        let entries = match env.fs.read_dir(resolved_path) {
            Ok(l) => l,
            Err(e) => {
                return Err(env::error_of(e));
            },
        };
        let ghost l = fs::listing(entries@);
        let ghost start = Walk { v: env@, seen: seen_set(seen@), total: own };
        let mut total: u64 = own;
        let mut i: usize = 0;
        while i < entries.len()
            invariant
                i <= entries@.len(),
                opts.valid(),
                l == fs::listing(entries@),
                entries_measured(
                    Walk { v: env@, seen: seen_set(seen@), total },
                    resolved_path@,
                    display_path@,
                    *opts,
                    depth as nat,
                    l,
                    i as int,
                ) == entries_measured(
                    start,
                    resolved_path@,
                    display_path@,
                    *opts,
                    depth as nat,
                    l,
                    0,
                ),
            decreases entries.len() - i,
        {
            let name = entries[i].0.clone();
            if !(text::same(name.as_str(), ".") || text::same(name.as_str(), "..") || depth
                == usize::MAX) {
                let at = paths::child_path(resolved_path, name.as_str());
                let shown = paths::child_path(display_path, name.as_str());
                match calculate_du(env, at.as_str(), shown.as_str(), opts, depth + 1, seen) {
                    Ok(n) => {
                        total = sum_sizes(total, n);
                    },
                    Err(_) => {
                        let mut m = "du: ".to_owned();
                        m.append(shown.as_str());
                        m.append(": Permission denied");
                        env.error_line(m.as_str());
                    },
                }
            }
            i += 1;
        }
        if shown_depth {
            let mut s = format_size(total, opts);
            s.append("\t");
            s.append(display_path);
            env.write_line(s.as_str());
        }
        Ok(total)
    } else {
        if shown_depth && (depth == 0 || opts.all) {
            let mut s = format_size(own, opts);
            s.append("\t");
            s.append(display_path);
            env.write_line(s.as_str());
        }
        Ok(own)
    }
}

// ---------------------------------------------------------------------------------------------
// The command
// ---------------------------------------------------------------------------------------------

/// The factor that a unit letter stands for.
pub open spec fn block_unit(c: char) -> Option<nat> {
    if c == 'k' || c == 'K' {
        Some(1024)
    } else if c == 'm' || c == 'M' {
        Some(1048576)
    } else if c == 'g' || c == 'G' {
        Some(1073741824)
    } else if c == 't' || c == 'T' {
        Some(1099511627776)
    } else {
        None
    }
}

/// The block size that a text gives (e.g., "1K", "1M", "1G"), where it can be counted.
pub open spec fn block_size(s: Seq<char>) -> Option<nat> {
    let t = text::trim(s);
    if t.len() == 0 {
        None
    } else if text::is_letter(t.last()) {
        match (text::unsigned(t.drop_last(), u64::MAX as nat), block_unit(t.last())) {
            (Some(n), Some(factor)) => size::product(n, factor, u64::MAX as nat),
            _ => None,
        }
    } else {
        text::unsigned(t, u64::MAX as nat)
    }
}

/// Parses a block size string (e.g., "1K", "1M", "1G").
pub fn parse_block_size(s: &str) -> (r: Option<u64>)
    ensures
        match r {
            Some(n) => block_size(s@) == Some(n as nat),
            None => block_size(s@) is None,
        },
{
    let t = text::trimmed(s);
    let v = text::chars(t.as_str());
    let n: usize = v.len();
    if n == 0 {
        return None;
    }
    let c = v[n - 1];
    if text::letter(c) {
        let factor: u64 = if c == 'k' || c == 'K' {
            1024
        } else if c == 'm' || c == 'M' {
            1048576
        } else if c == 'g' || c == 'G' {
            1073741824
        } else if c == 't' || c == 'T' {
            1099511627776
        } else {
            return None;
        };
        let head = text::slice(&v, 0, n - 1);
        assert(head@ =~= t@.drop_last());
        match text::parse_unsigned(head.as_str(), u64::MAX) {
            Some(num) => num.checked_mul(factor),
            None => None,
        }
    } else {
        text::parse_unsigned(t.as_str(), u64::MAX)
    }
}

/// The options of the command.
pub open spec fn table() -> Seq<OptDef> {
    seq![
        OptDef { short: 'a', long: "", arity: Arity::Flag },
        OptDef { short: 'c', long: "", arity: Arity::Flag },
        OptDef { short: 'd', long: "max-depth", arity: Arity::Value },
        OptDef { short: 'h', long: "", arity: Arity::Flag },
        OptDef { short: 'k', long: "", arity: Arity::Flag },
        OptDef { short: 'm', long: "", arity: Arity::Flag },
        OptDef { short: 'g', long: "", arity: Arity::Flag },
        OptDef { short: 's', long: "", arity: Arity::Flag },
        OptDef { short: 'l', long: "", arity: Arity::Flag },
        OptDef { short: 'A', long: "", arity: Arity::Flag },
        OptDef { short: '\0', long: "si", arity: Arity::Flag },
        OptDef { short: 'B', long: "block-size", arity: Arity::Value },
    ]
}

fn build_options() -> (r: Vec<OptDef>)
    ensures
        r@ == table(),
        options::all_declarable(options::definitions(r@)),
{
    let r = vec![
        OptDef { short: 'a', long: "", arity: Arity::Flag },
        OptDef { short: 'c', long: "", arity: Arity::Flag },
        OptDef { short: 'd', long: "max-depth", arity: Arity::Value },
        OptDef { short: 'h', long: "", arity: Arity::Flag },
        OptDef { short: 'k', long: "", arity: Arity::Flag },
        OptDef { short: 'm', long: "", arity: Arity::Flag },
        OptDef { short: 'g', long: "", arity: Arity::Flag },
        OptDef { short: 's', long: "", arity: Arity::Flag },
        OptDef { short: 'l', long: "", arity: Arity::Flag },
        OptDef { short: 'A', long: "", arity: Arity::Flag },
        OptDef { short: '\0', long: "si", arity: Arity::Flag },
        OptDef { short: 'B', long: "block-size", arity: Arity::Value },
    ];
    proof {
        reveal_strlit("");
        reveal_strlit("max-depth");
        reveal_strlit("si");
        reveal_strlit("block-size");
    }
    r
}

/// The block size of the last of -k, -m and -g that is given; zero where none is.
pub open spec fn fixed_unit(p: options::ParsedView) -> u64 {
    if p.present('g') {
        1073741824
    } else if p.present('m') {
        1048576
    } else if p.present('k') {
        1024
    } else {
        0
    }
}

/// The settings that flags and values give.
pub open spec fn combined(p: options::ParsedView, max_depth: Option<usize>, block: u64) -> DuOptions {
    let fixed = fixed_unit(p);
    let human = p.present('h') && !p.present_long("si"@) && fixed == 0;
    let si = p.present_long("si"@) && fixed == 0;
    DuOptions {
        all: p.present('a'),
        grand_total: p.present('c'),
        max_depth,
        human_readable: human,
        si,
        block_size: if block != 0 {
            block
        } else if fixed != 0 {
            fixed
        } else if !human && !si {
            512
        } else {
            0
        },
        count_links: p.present('l'),
        apparent_size: p.present('A'),
    }
}

/// The settings that a command line gives; or the words of the error.
pub open spec fn settings(p: options::ParsedView) -> Result<DuOptions, Seq<char>> {
    let depth = match p.value('d') {
        Some(s) => text::unsigned(s, usize::MAX as nat),
        None => Some(0),
    };
    let block = match p.value('B') {
        Some(s) => block_size(s),
        None => Some(0),
    };
    if depth is None {
        Err("du: invalid depth: "@ + p.value('d')->0)
    } else if block is None {
        Err("du: invalid block size: "@ + p.value('B')->0)
    } else {
        Ok(
            combined(
                p,
                if p.value('d') is Some {
                    Some(depth->0 as usize)
                } else if p.present('s') {
                    Some(0)
                } else {
                    None
                },
                block->0 as u64,
            ),
        )
    }
}

/// What measuring the paths from `i` on comes to.
pub open spec fn paths_measured<FS: Filesystem>(
    t: Walk<FS>,
    files: Seq<Seq<char>>,
    i: int,
    o: DuOptions,
    code: int,
) -> (env::EnvView<FS>, Result<int, env::ErrorView>)
    decreases files.len() - i,
{
    if i < 0 || i >= files.len() {
        (
            if o.grand_total {
                t.v.write_line(size_line(t.total as nat, "total"@, o))
            } else {
                t.v
            },
            Ok(code),
        )
    } else {
        let (u, r) = path_measured(
            t.v,
            paths::resolved(t.v.cwd, files[i]),
            files[i],
            o,
            0,
            t.seen,
        );
        match r {
            Ok(n) => paths_measured(
                Walk { v: u.v, seen: u.seen, total: size_sum(t.total, n) },
                files,
                i + 1,
                o,
                code,
            ),
            Err(_) => paths_measured(
                Walk {
                    v: u.v.error_line("du: "@ + files[i] + ": No such file or directory"@),
                    seen: u.seen,
                    total: t.total,
                },
                files,
                i + 1,
                o,
                1,
            ),
        }
    }
}

/// What the command does once its options are known.
pub open spec fn ran<FS: Filesystem>(v: env::EnvView<FS>, p: options::ParsedView) -> (
    env::EnvView<FS>,
    Result<int, env::ErrorView>,
) {
    match settings(p) {
        Err(e) => (v.error_line(e), Ok(1)),
        Ok(o) => paths_measured(
            Walk { v, seen: Set::empty(), total: 0 },
            if p.free.len() == 0 {
                seq!["."@]
            } else {
                p.free
            },
            0,
            o,
            0,
        ),
    }
}

fn combine(p: &Parsed, max_depth: Option<usize>, block: u64) -> (r: DuOptions)
    ensures
        r == combined(p@, max_depth, block),
        r.valid(),
{
    let fixed: u64 = if p.present('g') {
        1073741824
    } else if p.present('m') {
        1048576
    } else if p.present('k') {
        1024
    } else {
        0
    };
    let si_given = p.present_long("si");
    let human = p.present('h') && !si_given && fixed == 0;
    let si = si_given && fixed == 0;
    DuOptions {
        all: p.present('a'),
        grand_total: p.present('c'),
        max_depth,
        human_readable: human,
        si,
        block_size: if block != 0 {
            block
        } else if fixed != 0 {
            fixed
        } else if !human && !si {
            512
        } else {
            0
        },
        count_links: p.present('l'),
        apparent_size: p.present('A'),
    }
}

/// Reads the settings from a command line.
pub fn read_settings(p: &Parsed) -> (r: Result<DuOptions, String>)
    ensures
        match r {
            Ok(o) => settings(p@) == Ok::<DuOptions, Seq<char>>(o) && o.valid(),
            Err(e) => settings(p@) == Err::<DuOptions, Seq<char>>(e@),
        },
{
    let max_depth: Option<usize> = match p.value('d') {
        Some(s) => match text::parse_unsigned(s.as_str(), usize::MAX as u64) {
            Some(n) => Some(n as usize),
            None => {
                let mut m = "du: invalid depth: ".to_owned();
                m.append(s.as_str());
                return Err(m);
            },
        },
        None => if p.present('s') {
            Some(0)
        } else {
            None
        },
    };
    let block: u64 = match p.value('B') {
        Some(s) => match parse_block_size(s.as_str()) {
            Some(n) => n,
            None => {
                let mut m = "du: invalid block size: ".to_owned();
                m.append(s.as_str());
                return Err(m);
            },
        },
        None => 0,
    };
    Ok(combine(p, max_depth, block))
}

fn measure_paths<FS: Filesystem>(
    env: &mut Environment<FS>,
    files: &Vec<String>,
    opts: &DuOptions,
) -> (r: Result<ExitCode, Error>)
    requires
        opts.valid(),
    ensures
        (final(env)@, env::outcome(r)) == paths_measured(
            Walk { v: old(env)@, seen: Set::empty(), total: 0 },
            files.deep_view(),
            0,
            *opts,
            0,
        ),
{
    let mut seen: Vec<(u64, u64)> = Vec::new();
    let mut total: u64 = 0;
    let mut code: i32 = 0;
    let ghost all = files.deep_view();
    let ghost start = Walk { v: env@, seen: Set::empty(), total: 0 };
    let mut i: usize = 0;
    assert(seen_set(seen@) =~= Set::<(u64, u64)>::empty());
    while i < files.len()
        invariant
            i <= files@.len(),
            opts.valid(),
            all == files.deep_view(),
            paths_measured(
                Walk { v: env@, seen: seen_set(seen@), total },
                all,
                i as int,
                *opts,
                code as int,
            ) == paths_measured(start, all, 0, *opts, 0),
        decreases files.len() - i,
    {
        let resolved = paths::resolve_path(env.cwd.as_str(), files[i].as_str());
        match calculate_du(env, resolved.as_str(), files[i].as_str(), opts, 0, &mut seen) {
            Ok(n) => {
                total = sum_sizes(total, n);
            },
            Err(_) => {
                let mut m = "du: ".to_owned();
                m.append(files[i].as_str());
                m.append(": No such file or directory");
                env.error_line(m.as_str());
                code = 1;
            },
        }
        i += 1;
    }
    if opts.grand_total {
        let mut s = format_size(total, opts);
        s.append("\t");
        s.append("total");
        env.write_line(s.as_str());
    }
    Ok(ExitCode::new(code))
}

/// Measures with the options that a command line gave.
pub fn run<FS: Filesystem>(env: &mut Environment<FS>, p: &Parsed) -> (r: Result<ExitCode, Error>)
    ensures
        (final(env)@, env::outcome(r)) == ran(old(env)@, p@),
{
    match read_settings(p) {
        Err(e) => {
            env.error_line(e.as_str());
            Ok(ExitCode::new(1))
        },
        Ok(o) => {
            if p.free.len() == 0 {
                let mut here: Vec<String> = Vec::new();
                let dot = ".".to_owned();
                here.push(dot);
                assert(here.deep_view() =~= seq!["."@]);
                measure_paths(env, &here, &o)
            } else {
                measure_paths(env, &p.free, &o)
            }
        },
    }
}

/// What the command does.
pub open spec fn spec_bin<FS: Filesystem>(v: env::EnvView<FS>) -> (
    env::EnvView<FS>,
    Result<int, env::ErrorView>,
) {
    match options::parsed(table(), v.args.skip(1)) {
        Ok(p) => ran(v, p),
        Err(message) => (v.error_line("du: "@ + message), Ok(1)),
    }
}

/// The du builtin: display disk usage statistics.
pub fn bin<FS: Filesystem>(env: &mut Environment<FS>) -> (r: Result<ExitCode, Error>)
    requires
        old(env)@.args.len() > 0,
    ensures
        (final(env)@, env::outcome(r)) == spec_bin(old(env)@),
{
    let opts = build_options();
    match options::parse(&opts, &env.args) {
        Ok(p) => run(env, &p),
        Err(e) => {
            let mut m = "du: ".to_owned();
            m.append(e.as_str());
            env.error_line(m.as_str());
            Ok(ExitCode::new(1))
        },
    }
}

// ---------------------------------------------------------------------------------------------
// Laws
// ---------------------------------------------------------------------------------------------

/// The blocks that hold bytes have room for them, and one block less has not.
pub proof fn lemma_blocks_hold(bytes: nat, block: nat)
    requires
        block > 0,
    ensures
        blocks(bytes, block) * block >= bytes,
        bytes > 0 ==> (blocks(bytes, block) - 1) * block < bytes,
{
    let q = bytes / block;
    let r = bytes % block;
    assert(bytes == q * block + r && 0 <= r < block) by (nonlinear_arith)
        requires
            block > 0,
            q == bytes / block,
            r == bytes % block,
    ;
    assert((q + 1) * block == q * block + block) by (nonlinear_arith);
    assert((q - 1) * block == q * block - block) by (nonlinear_arith);
}

/// A hard link to a file that was counted adds nothing, unless links are counted.
pub proof fn lemma_links_count_once<FS: Filesystem>(
    v: env::EnvView<FS>,
    path: Seq<char>,
    display: Seq<char>,
    o: DuOptions,
    depth: nat,
    seen: Set<(u64, u64)>,
)
    requires
        !o.count_links,
        v.fs.lstats(path) is Ok,
        v.fs.lstats(path)->Ok_0.file_type == FileType::RegularFile,
        seen.contains((v.fs.lstats(path)->Ok_0.dev, v.fs.lstats(path)->Ok_0.ino)),
    ensures
        path_measured(v, path, display, o, depth, seen).1 == Ok::<u64, env::ErrorView>(0),
        path_measured(v, path, display, o, depth, seen).0.v.out == v.out,
{
}

/// The entries that a walk counts, in the order in which it comes to them, with the filesystem and
/// the files that were counted as they are left.
pub ghost struct Visit<FS> {
    pub fs: FS,
    pub seen: Set<(u64, u64)>,
    pub entries: Seq<DirEntry>,
}

/// The entries that are counted at a path and below it; none where the path cannot be asked about
/// or listed. Unless `links` says that links are counted, a file that was counted before is none of
/// them.
pub open spec fn path_visited<FS: Filesystem>(
    s: FS,
    path: Seq<char>,
    links: bool,
    depth: nat,
    seen: Set<(u64, u64)>,
) -> (Visit<FS>, bool)
    decreases usize::MAX - depth, 1int, 0int,
{
    let t = s.after(fs::Request::Lstat(path));
    match s.lstats(path) {
        Err(_) => (Visit { fs: t, seen, entries: Seq::empty() }, false),
        Ok(entry) => if !links && entry.file_type == FileType::RegularFile && seen.contains(
            (entry.dev, entry.ino),
        ) {
            (Visit { fs: t, seen, entries: Seq::empty() }, true)
        } else {
            let now = if !links && entry.file_type == FileType::RegularFile {
                seen.insert((entry.dev, entry.ino))
            } else {
                seen
            };
            let own = Visit { fs: t, seen: now, entries: seq![entry] };
            if entry.file_type == FileType::Directory {
                let u = t.after(fs::Request::ReadDir(path));
                match t.lists(path) {
                    Err(_) => (Visit { fs: u, seen: now, entries: Seq::empty() }, false),
                    Ok(l) => (
                        entries_visited(Visit { fs: u, ..own }, path, links, depth, l, 0),
                        true,
                    ),
                }
            } else {
                (own, true)
            }
        },
    }
}

/// The entries that are counted among those of a directory from `i` on and below them, behind those
/// before.
pub open spec fn entries_visited<FS: Filesystem>(
    t: Visit<FS>,
    path: Seq<char>,
    links: bool,
    depth: nat,
    l: Seq<fs::Listed>,
    i: int,
) -> Visit<FS>
    decreases usize::MAX - depth, 0int, l.len() - i,
{
    if i < 0 || i >= l.len() {
        t
    } else if l[i].name == "."@ || l[i].name == ".."@ || depth >= usize::MAX {
        entries_visited(t, path, links, depth, l, i + 1)
    } else {
        let (u, _) = path_visited(
            t.fs,
            paths::child(path, l[i].name),
            links,
            depth + 1,
            t.seen,
        );
        entries_visited(
            Visit { entries: t.entries + u.entries, ..u },
            path,
            links,
            depth,
            l,
            i + 1,
        )
    }
}

/// The sum of the sizes of entries.
pub open spec fn size_of_all(entries: Seq<DirEntry>, o: DuOptions) -> nat
    decreases entries.len(),
{
    if entries.len() == 0 {
        0
    } else {
        size_of_all(entries.drop_last(), o) + entry_size(entries.last(), o) as nat
    }
}

/// A size, or the largest that can be counted where it lies beyond.
pub open spec fn capped(n: nat) -> u64 {
    if n > u64::MAX {
        u64::MAX
    } else {
        n as u64
    }
}

proof fn lemma_size_added(a: Seq<DirEntry>, b: Seq<DirEntry>, o: DuOptions)
    ensures
        size_of_all(a + b, o) == size_of_all(a, o) + size_of_all(b, o),
    decreases b.len(),
{
    if b.len() > 0 {
        lemma_size_added(a, b.drop_last(), o);
        assert((a + b).drop_last() =~= a + b.drop_last());
        assert((a + b).last() == b.last());
    } else {
        assert(a + b =~= a);
    }
}

/// The size of a path is the sum of the sizes of all entries that are counted at it and below it, as
/// far as it can be counted: each entry counts once, but a file with several links only at the first
/// of them, unless links are counted.
pub proof fn lemma_size_is_sum<FS: Filesystem>(
    v: env::EnvView<FS>,
    path: Seq<char>,
    display: Seq<char>,
    o: DuOptions,
    depth: nat,
    seen: Set<(u64, u64)>,
)
    ensures
        ({
            let (t, r) = path_measured(v, path, display, o, depth, seen);
            let (u, ok) = path_visited(v.fs, path, o.count_links, depth, seen);
            &&& t.v.fs == u.fs
            &&& t.seen == u.seen
            &&& r is Ok == ok
            &&& ok ==> r == Ok::<u64, env::ErrorView>(capped(size_of_all(u.entries, o)))
            &&& !ok ==> u.entries.len() == 0
        }),
    decreases usize::MAX - depth, 1int, 0int,
{
    let w = v.with_fs(v.fs.after(fs::Request::Lstat(path)));
    if let Ok(entry) = v.fs.lstats(path) {
        let one = seq![entry];
        assert(one.drop_last() =~= Seq::<DirEntry>::empty());
        assert(size_of_all(one.drop_last(), o) == 0);
        assert(size_of_all(one, o) == entry_size(entry, o));
        if !counted(entry, o, seen) && entry.file_type == FileType::Directory {
            let now = noted(entry, o, seen);
            let x = w.with_fs(w.fs.after(fs::Request::ReadDir(path)));
            if let Ok(l) = w.fs.lists(path) {
                lemma_sizes_are_sum(
                    Walk { v: x, seen: now, total: entry_size(entry, o) },
                    Visit { fs: x.fs, seen: now, entries: one },
                    path,
                    display,
                    o,
                    depth,
                    l,
                    0,
                );
            }
        }
    }
}

proof fn lemma_sizes_are_sum<FS: Filesystem>(
    t: Walk<FS>,
    u: Visit<FS>,
    path: Seq<char>,
    display: Seq<char>,
    o: DuOptions,
    depth: nat,
    l: Seq<fs::Listed>,
    i: int,
)
    requires
        0 <= i,
        t.v.fs == u.fs,
        t.seen == u.seen,
        t.total == capped(size_of_all(u.entries, o)),
    ensures
        ({
            let a = entries_measured(t, path, display, o, depth, l, i);
            let b = entries_visited(u, path, o.count_links, depth, l, i);
            a.v.fs == b.fs && a.seen == b.seen && a.total == capped(size_of_all(b.entries, o))
        }),
    decreases usize::MAX - depth, 0int, l.len() - i,
{
    if i < l.len() {
        if l[i].name == "."@ || l[i].name == ".."@ || depth >= usize::MAX {
            lemma_sizes_are_sum(t, u, path, display, o, depth, l, i + 1);
        } else {
            let shown = paths::child(display, l[i].name);
            let at = paths::child(path, l[i].name);
            lemma_size_is_sum(t.v, at, shown, o, depth + 1, t.seen);
            let (x, r) = path_measured(t.v, at, shown, o, depth + 1, t.seen);
            let (y, ok) = path_visited(u.fs, at, o.count_links, depth + 1, u.seen);
            let next = match r {
                Ok(n) => Walk { v: x.v, seen: x.seen, total: size_sum(t.total, n) },
                Err(_) => Walk {
                    v: x.v.error_line("du: "@ + shown + ": Permission denied"@),
                    seen: x.seen,
                    total: t.total,
                },
            };
            let more = Visit { entries: u.entries + y.entries, ..y };
            lemma_size_added(u.entries, y.entries, o);
            lemma_sizes_are_sum(next, more, path, display, o, depth, l, i + 1);
        }
    }
}

/// Which entries are displayed and in what form changes neither the size of a path nor which files
/// are counted.
pub proof fn lemma_display_changes_no_size<FS: Filesystem>(
    v: env::EnvView<FS>,
    path: Seq<char>,
    display: Seq<char>,
    a: DuOptions,
    b: DuOptions,
    depth: nat,
    seen: Set<(u64, u64)>,
)
    requires
        a.count_links == b.count_links,
        a.apparent_size == b.apparent_size,
    ensures
        ({
            let (t, r) = path_measured(v, path, display, a, depth, seen);
            let (u, q) = path_measured(v, path, display, b, depth, seen);
            r == q && t.seen == u.seen && t.v.fs == u.v.fs
        }),
{
    lemma_size_is_sum(v, path, display, a, depth, seen);
    lemma_size_is_sum(v, path, display, b, depth, seen);
    let entries = path_visited(v.fs, path, a.count_links, depth, seen).0.entries;
    lemma_same_sizes(entries, a, b);
}

proof fn lemma_same_sizes(entries: Seq<DirEntry>, a: DuOptions, b: DuOptions)
    requires
        a.apparent_size == b.apparent_size,
    ensures
        size_of_all(entries, a) == size_of_all(entries, b),
    decreases entries.len(),
{
    if entries.len() > 0 {
        lemma_same_sizes(entries.drop_last(), a, b);
    }
}

/// A line of the output: a size, a tab and a name.
pub open spec fn output_line(bytes: nat, name: Seq<char>, o: DuOptions) -> Seq<char> {
    size_text(bytes, o) + seq!['\t'] + name + seq!['\n']
}

proof fn lemma_line_printed(bytes: nat, name: Seq<char>, o: DuOptions)
    ensures
        text::terminated(size_line(bytes, name, o)) == output_line(bytes, name, o),
{
    reveal_strlit("\t");
    assert("\t"@ =~= seq!['\t']);
    assert(text::terminated(size_line(bytes, name, o)) =~= output_line(bytes, name, o));
}

/// A size in blocks is the smallest number of them that hold it.
pub proof fn lemma_size_in_blocks(bytes: nat, o: DuOptions)
    requires
        !o.human_readable,
        !o.si,
        o.block_size > 0,
    ensures
        exists|n: nat|
            #![trigger text::decimal(n)]
            size_text(bytes, o) == text::decimal(n) && n * o.block_size >= bytes && (bytes > 0 ==> (n
                - 1) * o.block_size < bytes) && (bytes == 0 ==> n == 0),
{
    let b = o.block_size as nat;
    let n = blocks(bytes, b);
    lemma_blocks_hold(bytes, b);
    if bytes == 0 {
        assert(0nat % b == 0 && 0nat / b == 0) by (nonlinear_arith)
            requires
                b > 0,
        ;
    }
    assert(size_text(bytes, o) == text::decimal(n));
}

/// A file is displayed where it was named on the command line, or with -a as far down as is wanted;
/// the line holds its size and its name, and nothing else is printed.
pub proof fn lemma_file_displayed<FS: Filesystem>(
    v: env::EnvView<FS>,
    path: Seq<char>,
    display: Seq<char>,
    o: DuOptions,
    depth: nat,
    seen: Set<(u64, u64)>,
)
    requires
        v.fs.lstats(path) is Ok,
        v.fs.lstats(path)->Ok_0.file_type != FileType::Directory,
        o.count_links || !seen.contains(
            (v.fs.lstats(path)->Ok_0.dev, v.fs.lstats(path)->Ok_0.ino),
        ),
    ensures
        ({
            let (t, r) = path_measured(v, path, display, o, depth, seen);
            let deep = o.max_depth is Some && depth > o.max_depth->0;
            &&& r is Ok
            &&& t.v.out == v.out + if depth == 0 || (o.all && !deep) {
                output_line(r->Ok_0 as nat, display, o)
            } else {
                Seq::empty()
            }
            &&& t.v.err == v.err
        }),
{
    let own = entry_size(v.fs.lstats(path)->Ok_0, o);
    lemma_line_printed(own as nat, display, o);
    assert(v.out + Seq::<char>::empty() =~= v.out);
}

proof fn lemma_nothing_so_deep<FS: Filesystem>(
    v: env::EnvView<FS>,
    path: Seq<char>,
    display: Seq<char>,
    o: DuOptions,
    depth: nat,
    seen: Set<(u64, u64)>,
)
    requires
        !v.merged,
        o.max_depth is Some,
        depth > o.max_depth->0,
    ensures
        path_measured(v, path, display, o, depth, seen).0.v.out == v.out,
        !path_measured(v, path, display, o, depth, seen).0.v.merged,
    decreases usize::MAX - depth, 1int, 0int,
{
    let w = v.with_fs(v.fs.after(fs::Request::Lstat(path)));
    if let Ok(entry) = v.fs.lstats(path) {
        if !counted(entry, o, seen) && entry.file_type == FileType::Directory {
            let x = w.with_fs(w.fs.after(fs::Request::ReadDir(path)));
            if let Ok(l) = w.fs.lists(path) {
                let t = Walk { v: x, seen: noted(entry, o, seen), total: entry_size(entry, o) };
                lemma_nothing_below(t, path, display, o, depth, l, 0);
            }
        }
    }
}

proof fn lemma_nothing_below<FS: Filesystem>(
    t: Walk<FS>,
    path: Seq<char>,
    display: Seq<char>,
    o: DuOptions,
    depth: nat,
    l: Seq<fs::Listed>,
    i: int,
)
    requires
        !t.v.merged,
        o.max_depth is Some,
        depth >= o.max_depth->0,
    ensures
        entries_measured(t, path, display, o, depth, l, i).v.out == t.v.out,
        !entries_measured(t, path, display, o, depth, l, i).v.merged,
    decreases usize::MAX - depth, 0int, l.len() - i,
{
    if 0 <= i < l.len() {
        if l[i].name == "."@ || l[i].name == ".."@ || depth >= usize::MAX {
            lemma_nothing_below(t, path, display, o, depth, l, i + 1);
        } else {
            let shown = paths::child(display, l[i].name);
            let at = paths::child(path, l[i].name);
            lemma_nothing_so_deep(t.v, at, shown, o, depth + 1, t.seen);
            let (u, r) = path_measured(t.v, at, shown, o, depth + 1, t.seen);
            let next = match r {
                Ok(n) => Walk { v: u.v, seen: u.seen, total: size_sum(t.total, n) },
                Err(_) => Walk {
                    v: u.v.error_line("du: "@ + shown + ": Permission denied"@),
                    seen: u.seen,
                    total: t.total,
                },
            };
            lemma_nothing_below(next, path, display, o, depth, l, i + 1);
        }
    }
}

/// Nothing is displayed below the depth that is wanted: a directory at that depth brings a single
/// line, with its size and its name, and one further down brings none.
pub proof fn lemma_depth_limits_display<FS: Filesystem>(
    v: env::EnvView<FS>,
    path: Seq<char>,
    display: Seq<char>,
    o: DuOptions,
    depth: nat,
    seen: Set<(u64, u64)>,
)
    requires
        !v.merged,
        o.max_depth is Some,
        depth >= o.max_depth->0,
        v.fs.lstats(path) is Ok,
        v.fs.lstats(path)->Ok_0.file_type == FileType::Directory,
    ensures
        ({
            let (t, r) = path_measured(v, path, display, o, depth, seen);
            t.v.out == v.out + if r is Ok && depth == o.max_depth->0 {
                output_line(r->Ok_0 as nat, display, o)
            } else {
                Seq::empty()
            }
        }),
{
    assert(v.out + Seq::<char>::empty() =~= v.out);
    let entry = v.fs.lstats(path)->Ok_0;
    let w = v.with_fs(v.fs.after(fs::Request::Lstat(path)));
    let x = w.with_fs(w.fs.after(fs::Request::ReadDir(path)));
    if let Ok(l) = w.fs.lists(path) {
        let t = Walk { v: x, seen: noted(entry, o, seen), total: entry_size(entry, o) };
        lemma_nothing_below(t, path, display, o, depth, l, 0);
        let total = entries_measured(t, path, display, o, depth, l, 0).total;
        lemma_line_printed(total as nat, display, o);
    }
}

/// A directory is displayed behind all that is displayed below it, with the size that it has in all.
pub proof fn lemma_directory_displayed_last<FS: Filesystem>(
    v: env::EnvView<FS>,
    path: Seq<char>,
    display: Seq<char>,
    o: DuOptions,
    depth: nat,
    seen: Set<(u64, u64)>,
)
    requires
        o.max_depth is None || depth <= o.max_depth->0,
        v.fs.lstats(path) is Ok,
        v.fs.lstats(path)->Ok_0.file_type == FileType::Directory,
        path_measured(v, path, display, o, depth, seen).1 is Ok,
    ensures
        ({
            let (t, r) = path_measured(v, path, display, o, depth, seen);
            text::ends_with(t.v.out, output_line(r->Ok_0 as nat, display, o))
        }),
{
    let entry = v.fs.lstats(path)->Ok_0;
    let w = v.with_fs(v.fs.after(fs::Request::Lstat(path)));
    let x = w.with_fs(w.fs.after(fs::Request::ReadDir(path)));
    let l = w.fs.lists(path)->Ok_0;
    let t = entries_measured(
        Walk { v: x, seen: noted(entry, o, seen), total: entry_size(entry, o) },
        path,
        display,
        o,
        depth,
        l,
        0,
    );
    let line = output_line(t.total as nat, display, o);
    lemma_line_printed(t.total as nat, display, o);
    let all = t.v.out + line;
    assert(all.skip(all.len() - line.len()) =~= line);
}

/// The walk when the first `n` paths were measured one after another, and whether one of them failed.
pub open spec fn after_measures<FS: Filesystem>(
    v: env::EnvView<FS>,
    files: Seq<Seq<char>>,
    o: DuOptions,
    n: int,
) -> (Walk<FS>, bool)
    decreases n,
{
    if n <= 0 {
        (Walk { v, seen: Set::empty(), total: 0 }, false)
    } else {
        let (t, failed) = after_measures(v, files, o, n - 1);
        let (u, r) = path_measured(
            t.v,
            paths::resolved(t.v.cwd, files[n - 1]),
            files[n - 1],
            o,
            0,
            t.seen,
        );
        match r {
            Ok(size) => (
                Walk {
                    v: u.v,
                    seen: u.seen,
                    total: if t.total + size <= u64::MAX {
                        (t.total + size) as u64
                    } else {
                        u64::MAX
                    },
                },
                failed,
            ),
            Err(_) => (
                Walk {
                    v: u.v.error_line(
                        seq!['d', 'u', ':', ' '] + files[n - 1] + ": No such file or directory"@,
                    ),
                    seen: u.seen,
                    total: t.total,
                },
                true,
            ),
        }
    }
}

proof fn lemma_paths_measured_from<FS: Filesystem>(
    v: env::EnvView<FS>,
    files: Seq<Seq<char>>,
    o: DuOptions,
    i: int,
)
    requires
        0 <= i <= files.len(),
    ensures
        ({
            let (t, failed) = after_measures(v, files, o, i);
            let (u, any) = after_measures(v, files, o, files.len() as int);
            paths_measured(t, files, i, o, if failed {
                1
            } else {
                0
            }) == (
                if o.grand_total {
                    u.v.write(output_line(u.total as nat, seq!['t', 'o', 't', 'a', 'l'], o))
                } else {
                    u.v
                },
                Ok::<int, env::ErrorView>(
                    if any {
                        1
                    } else {
                        0
                    },
                ),
            )
        }),
    decreases files.len() - i,
{
    reveal_strlit("du: ");
    reveal_strlit("total");
    assert("du: "@ =~= seq!['d', 'u', ':', ' ']);
    assert("total"@ =~= seq!['t', 'o', 't', 'a', 'l']);
    if i < files.len() {
        lemma_paths_measured_from(v, files, o, i + 1);
    } else {
        let u = after_measures(v, files, o, i).0;
        lemma_line_printed(u.total as nat, "total"@, o);
    }
}

/// All paths are measured, one after another, whatever one of them brings, and a file with several
/// links counts once among all of them. With -c the last line holds the sum of all sizes. The exit
/// code is 1 where a path could not be measured, otherwise 0.
pub proof fn lemma_paths_in_turn<FS: Filesystem>(
    v: env::EnvView<FS>,
    files: Seq<Seq<char>>,
    o: DuOptions,
)
    ensures
        ({
            let (u, failed) = after_measures(v, files, o, files.len() as int);
            paths_measured(Walk { v, seen: Set::empty(), total: 0 }, files, 0, o, 0) == (
                if o.grand_total {
                    u.v.write(output_line(u.total as nat, seq!['t', 'o', 't', 'a', 'l'], o))
                } else {
                    u.v
                },
                Ok::<int, env::ErrorView>(
                    if failed {
                        1
                    } else {
                        0
                    },
                ),
            )
        }),
{
    lemma_paths_measured_from(v, files, o, 0);
}

/// The unit of the output: -k, -m and -g count blocks of 1024 bytes, 1024 times that and 1024 times
/// that again, and keep -h from counting in units of its own; -h and --si do so otherwise; and
/// without any of them blocks have 512 bytes.
pub proof fn lemma_output_units(p: options::ParsedView, max_depth: Option<usize>)
    ensures
        ({
            let o = combined(p, max_depth, 0);
            let k = p.present('k') && !p.present('m') && !p.present('g');
            let m = p.present('m') && !p.present('g');
            let g = p.present('g');
            let si = p.present_long("si"@);
            &&& k ==> o.block_size == size::power(1024, 1)
            &&& m ==> o.block_size == size::power(1024, 2)
            &&& g ==> o.block_size == size::power(1024, 3)
            &&& k || m || g ==> !o.human_readable && !o.si
            &&& !k && !m && !g && si ==> o.si && !o.human_readable
            &&& !k && !m && !g && !si && p.present('h') ==> o.human_readable && !o.si
            &&& !k && !m && !g && !si && !p.present('h') ==> o.block_size == 512
                && !o.human_readable && !o.si
        }),
{
    reveal_with_fuel(size::power, 4);
}

/// A block size is a number of bytes, or with `k`, `m`, `g` or `t` behind it of 1024 bytes, and for
/// each further letter 1024 times as many, in either case.
pub proof fn lemma_block_units(digits: Seq<char>, n: nat, c: char)
    requires
        text::unsigned(digits, u64::MAX as nat) == Some(n),
        digits.len() > 0,
        text::is_digit(digits[0]),
        text::is_digit(digits.last()),
    ensures
        block_size(digits) == Some(n),
        ({
            let bytes = if c == 'k' || c == 'K' {
                n * size::power(1024, 1)
            } else if c == 'm' || c == 'M' {
                n * size::power(1024, 2)
            } else if c == 'g' || c == 'G' {
                n * size::power(1024, 3)
            } else {
                n * size::power(1024, 4)
            };
            c == 'k' || c == 'K' || c == 'm' || c == 'M' || c == 'g' || c == 'G' || c == 't' || c
                == 'T' ==> block_size(digits.push(c)) == if bytes <= u64::MAX {
                Some(bytes)
            } else {
                None
            }
        }),
{
    reveal_with_fuel(size::power, 5);
    let s = digits.push(c);
    assert(s.drop_last() =~= digits);
    assert(text::trim(digits) == digits);
    if text::is_letter(c) {
        assert(s[0] == digits[0]);
        assert(text::trim(s) == s);
    }
}

/// An entry takes up the whole blocks of 512 bytes that hold it, or with -A just its bytes.
pub proof fn lemma_entry_takes_blocks(entry: DirEntry, o: DuOptions)
    requires
        entry.size <= u64::MAX - 511,
    ensures
        o.apparent_size ==> entry_size(entry, o) == entry.size,
        !o.apparent_size ==> entry_size(entry, o) % 512 == 0 && entry.size <= entry_size(entry, o)
            < entry.size + 512,
{
    let n = blocks(entry.size as nat, 512);
    assert(entry.size as nat <= n * 512 < entry.size as nat + 512);
}

} // verus!
