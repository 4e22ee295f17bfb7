//! The shuf builtin: generate random permutations.

use crate::env::{Environment, Error, ExitCode};
use crate::env;
use crate::fs::{Filesystem, FsError};
use crate::fs;
use crate::options::{Arity, OptDef, Parsed};
use crate::options;
use crate::text;
use rand::rngs::StdRng;
use rand::seq::SliceRandom;
use rand::{Rng, RngCore, SeedableRng};
use vstd::prelude::*;

verus! {

broadcast use vstd::string::group_string_axioms;

pub const HELP: &'static str =
    "Usage: shuf [OPTION]... [FILE]\n  or:  shuf -e [OPTION]... [ARG]...\n  or:  shuf -i LO-HI [OPTION]...\nWrite a random permutation of the input lines to standard output.\n\n  -e, --echo              treat each ARG as an input line\n  -i, --input-range=LO-HI treat each number LO through HI as an input line\n  -n, --head-count=COUNT  output at most COUNT lines\n  -o, --output=FILE       write result to FILE instead of stdout\n  -r, --repeat            output lines can be repeated\n  -z, --zero-terminated   line delimiter is NUL, not newline\n      --help              display this help and exit\n      --version           output version information and exit";

/// Options for the shuf command.
#[derive(Debug)]
pub struct ShufOptions {
    /// Maximum number of lines to output.
    pub head_count: Option<usize>,
    /// Treat each argument as an input line.
    pub echo: bool,
    /// Input range (lo, hi) inclusive.
    pub input_range: Option<(i64, i64)>,
    /// Output file (None means stdout).
    pub output_file: Option<String>,
    /// Allow repeated output lines.
    pub repeat: bool,
    /// Use NUL as line terminator.
    pub zero_terminated: bool,
}

impl Default for ShufOptions {
    fn default() -> (r: ShufOptions)
        ensures
            r == (ShufOptions {
                head_count: None,
                echo: false,
                input_range: None,
                output_file: None,
                repeat: false,
                zero_terminated: false,
            }),
    {
        ShufOptions {
            head_count: None,
            echo: false,
            input_range: None,
            output_file: None,
            repeat: false,
            zero_terminated: false,
        }
    }
}

/// The mathematical counterpart of `ShufOptions`.
pub ghost struct Settings {
    pub head_count: Option<usize>,
    pub echo: bool,
    pub input_range: Option<(i64, i64)>,
    pub output_file: Option<Seq<char>>,
    pub repeat: bool,
    pub zero_terminated: bool,
}

impl View for ShufOptions {
    type V = Settings;

    open spec fn view(&self) -> Settings {
        Settings {
            head_count: self.head_count,
            echo: self.echo,
            input_range: self.input_range,
            output_file: options::opt_text(self.output_file),
            repeat: self.repeat,
            zero_terminated: self.zero_terminated,
        }
    }
}

/// The options of the command.
pub open spec fn table() -> Seq<OptDef> {
    seq![
        OptDef { short: 'e', long: "echo", arity: Arity::Flag },
        OptDef { short: 'i', long: "input-range", arity: Arity::Value },
        OptDef { short: 'n', long: "head-count", arity: Arity::Value },
        OptDef { short: 'o', long: "output", arity: Arity::Value },
        OptDef { short: 'r', long: "repeat", arity: Arity::Flag },
        OptDef { short: 'z', long: "zero-terminated", arity: Arity::Flag },
        OptDef { short: '\0', long: "help", arity: Arity::Flag },
        OptDef { short: '\0', long: "version", arity: Arity::Flag },
    ]
}

fn build_options() -> (r: Vec<OptDef>)
    ensures
        r@ == table(),
        options::all_declarable(options::definitions(r@)),
{
    let r = vec![
        OptDef { short: 'e', long: "echo", arity: Arity::Flag },
        OptDef { short: 'i', long: "input-range", arity: Arity::Value },
        OptDef { short: 'n', long: "head-count", arity: Arity::Value },
        OptDef { short: 'o', long: "output", arity: Arity::Value },
        OptDef { short: 'r', long: "repeat", arity: Arity::Flag },
        OptDef { short: 'z', long: "zero-terminated", arity: Arity::Flag },
        OptDef { short: '\0', long: "help", arity: Arity::Flag },
        OptDef { short: '\0', long: "version", arity: Arity::Flag },
    ];
    proof {
        reveal_strlit("echo");
        reveal_strlit("input-range");
        reveal_strlit("head-count");
        reveal_strlit("output");
        reveal_strlit("repeat");
        reveal_strlit("zero-terminated");
        reveal_strlit("help");
        reveal_strlit("version");
    }
    r
}

// ---------------------------------------------------------------------------------------------
// Chance
// ---------------------------------------------------------------------------------------------

/// The order that a generator started from a seed brings lines into.
pub uninterp spec fn shuffled(lines: Seq<Seq<char>>, seed: u64) -> Seq<Seq<char>>;

/// `rand::seq::SliceRandom::shuffle` with a `rand::rngs::StdRng` started from a seed. Claimed: the
/// result depends on the lines and the seed alone, and holds the same lines, each as often. Not
/// claimed: which order a seed gives.
#[verifier::external_body]
pub(crate) fn shuffle(lines: Vec<String>, seed: u64) -> (r: Vec<String>)
    ensures
        r.deep_view() == shuffled(lines.deep_view(), seed),
        r.deep_view().to_multiset() == lines.deep_view().to_multiset(),
{
    let mut lines = lines;
    lines.shuffle(&mut StdRng::seed_from_u64(seed));
    lines
}

/// The number below `n` that a generator started from a seed draws.
pub uninterp spec fn drawn(n: usize, seed: u64) -> usize;

/// `rand::Rng::random_range` with a `rand::rngs::StdRng` started from a seed. Claimed: the result
/// depends on the range and the seed alone, and lies in the range. The outside function panics on an
/// empty range, which is left out. Not claimed: which number a seed gives.
#[verifier::external_body]
fn draw(n: usize, seed: u64) -> (r: usize)
    requires
        n > 0,
    ensures
        r == drawn(n, seed),
        r < n,
{
    StdRng::seed_from_u64(seed).random_range(0..n)
}

/// The seed that follows a seed.
pub uninterp spec fn following(seed: u64) -> u64;

/// `rand::RngCore::next_u64` of a `rand::rngs::StdRng` started from a seed. Claimed: the result
/// depends on the seed alone. Not claimed: which number it is.
#[verifier::external_body]
pub(crate) fn next_seed(seed: u64) -> (r: u64)
    ensures
        r == following(seed),
{
    StdRng::seed_from_u64(seed).next_u64()
}

// ---------------------------------------------------------------------------------------------
// Reading the options
// ---------------------------------------------------------------------------------------------

/// Where the dash stands that parts the two numbers of a range: the first one that is not the sign
/// of the first number.
pub open spec fn parting(s: Seq<char>) -> int {
    text::find_from(
        s,
        '-',
        if s.len() > 0 && s[0] == '-' {
            1
        } else {
            0
        },
    )
}

/// What a range reads as: two numbers, each with or without a sign, with a dash between them.
pub open spec fn range(s: Seq<char>) -> Option<(int, int)> {
    let k = parting(s);
    if k >= s.len() {
        None
    } else {
        match (
            text::signed(s.take(k), i64::MAX as nat),
            text::signed(s.skip(k + 1), i64::MAX as nat),
        ) {
            (Some(lo), Some(hi)) => Some((lo, hi)),
            _ => None,
        }
    }
}

/// Parses an input range specification like "1-100" or "-5-10".
pub fn parse_input_range(s: &str) -> (r: Option<(i64, i64)>)
    ensures
        match r {
            Some((lo, hi)) => range(s@) == Some((lo as int, hi as int)),
            None => range(s@) is None,
        },
{
    let v = text::chars(s);
    let from: usize = if v.len() > 0 && v[0] == '-' {
        1
    } else {
        0
    };
    let k = text::find(&v, '-', from);
    if k >= v.len() {
        return None;
    }
    let a = text::slice(&v, 0, k);
    let b = text::slice(&v, k + 1, v.len());
    assert(a@ =~= s@.take(k as int));
    assert(b@ =~= s@.skip(k + 1));
    let lo = text::parse_signed(a.as_str(), i64::MAX);
    let hi = text::parse_signed(b.as_str(), i64::MAX);
    match (lo, hi) {
        (Some(lo), Some(hi)) => Some((lo, hi)),
        _ => None,
    }
}

/// The line count that the options ask for, or the words for one that cannot be read.
pub open spec fn count_setting(p: options::ParsedView) -> Result<Option<usize>, Seq<char>> {
    match p.value('n') {
        None => Ok(None),
        Some(s) => match text::unsigned(s, usize::MAX as nat) {
            Some(n) => Ok(Some(n as usize)),
            None => Err("shuf: invalid line count: '"@ + s + "'"@),
        },
    }
}

/// The range that the options ask for, or the words for one that cannot be read or is empty.
pub open spec fn range_setting(p: options::ParsedView) -> Result<Option<(i64, i64)>, Seq<char>> {
    match p.value('i') {
        None => Ok(None),
        Some(s) => match range(s) {
            None => Err("shuf: invalid input range: '"@ + s + "'"@),
            Some((lo, hi)) => if lo <= hi {
                Ok(Some((lo as i64, hi as i64)))
            } else {
                Err(
                    "shuf: invalid input range: '"@ + s + "': "@ + text::signed_decimal(lo)
                        + " > "@ + text::signed_decimal(hi),
                )
            },
        },
    }
}

/// What the options ask for, or the words for what is wrong with them.
pub open spec fn settings(p: options::ParsedView) -> Result<Settings, Seq<char>> {
    match count_setting(p) {
        Err(m) => Err(m),
        Ok(head_count) => match range_setting(p) {
            Err(m) => Err(m),
            Ok(input_range) => if p.present('e') && input_range is Some {
                Err("shuf: cannot combine -e and -i options"@)
            } else if input_range is Some && p.free.len() > 0 {
                Err("shuf: extra operand with -i option"@)
            } else {
                Ok(
                    Settings {
                        head_count,
                        echo: p.present('e'),
                        input_range,
                        output_file: p.value('o'),
                        repeat: p.present('r'),
                        zero_terminated: p.present('z'),
                    },
                )
            },
        },
    }
}

fn read_count(p: &Parsed) -> (r: Result<Option<usize>, String>)
    ensures
        match r {
            Ok(n) => count_setting(p@) == Ok::<Option<usize>, Seq<char>>(n),
            Err(m) => count_setting(p@) == Err::<Option<usize>, Seq<char>>(m@),
        },
{
    match p.value('n') {
        None => Ok(None),
        Some(s) => match text::parse_unsigned(s.as_str(), usize::MAX as u64) {
            Some(n) => Ok(Some(n as usize)),
            None => {
                let mut m = "shuf: invalid line count: '".to_owned();
                m.append(s.as_str());
                m.append("'");
                Err(m)
            },
        },
    }
}

fn read_range(p: &Parsed) -> (r: Result<Option<(i64, i64)>, String>)
    ensures
        match r {
            Ok(n) => range_setting(p@) == Ok::<Option<(i64, i64)>, Seq<char>>(n),
            Err(m) => range_setting(p@) == Err::<Option<(i64, i64)>, Seq<char>>(m@),
        },
        r matches Ok(Some((lo, hi))) ==> lo <= hi,
{
    match p.value('i') {
        None => Ok(None),
        Some(s) => {
            let mut m = "shuf: invalid input range: '".to_owned();
            m.append(s.as_str());
            match parse_input_range(s.as_str()) {
                None => {
                    m.append("'");
                    Err(m)
                },
                Some((lo, hi)) => if lo <= hi {
                    Ok(Some((lo, hi)))
                } else {
                    m.append("': ");
                    let a = text::to_signed_decimal(lo);
                    let b = text::to_signed_decimal(hi);
                    m.append(a.as_str());
                    m.append(" > ");
                    m.append(b.as_str());
                    Err(m)
                },
            }
        },
    }
}

/// Reads the options.
pub fn read_settings(p: &Parsed) -> (r: Result<ShufOptions, String>)
    ensures
        match r {
            Ok(o) => settings(p@) == Ok::<Settings, Seq<char>>(o@),
            Err(m) => settings(p@) == Err::<Settings, Seq<char>>(m@),
        },
{
    let head_count = match read_count(p) {
        Ok(n) => n,
        Err(m) => {
            return Err(m);
        },
    };
    let input_range = match read_range(p) {
        Ok(n) => n,
        Err(m) => {
            return Err(m);
        },
    };
    let echo = p.present('e');
    if echo && input_range.is_some() {
        return Err("shuf: cannot combine -e and -i options".to_owned());
    }
    if input_range.is_some() && p.free.len() > 0 {
        return Err("shuf: extra operand with -i option".to_owned());
    }
    let output_file = p.value('o');
    let repeat = p.present('r');
    let zero_terminated = p.present('z');
    Ok(ShufOptions { head_count, echo, input_range, output_file, repeat, zero_terminated })
}

// ---------------------------------------------------------------------------------------------
// Input
// ---------------------------------------------------------------------------------------------

/// What ends a line.
pub open spec fn terminator(o: Settings) -> char {
    if o.zero_terminated {
        '\0'
    } else {
        '\n'
    }
}

/// The lines of a text. What follows the last terminator is a line only where it is not empty.
pub open spec fn input_lines(s: Seq<char>, o: Settings) -> Seq<Seq<char>> {
    let all = text::split(s, terminator(o));
    if all.len() > 0 && all.last().len() == 0 {
        all.drop_last()
    } else {
        all
    }
}

/// The first `n` numbers from `lo` on, in decimal digits.
pub open spec fn numbers(lo: int, n: nat) -> Seq<Seq<char>> {
    Seq::new(n, |i: int| text::signed_decimal(lo + i))
}

/// How many numbers a range holds.
pub open spec fn range_size(lo: int, hi: int) -> nat {
    if lo <= hi {
        (hi - lo + 1) as nat
    } else {
        0
    }
}

/// The lines that are put into random order.
pub open spec fn collected<FS: Filesystem>(
    v: env::EnvView<FS>,
    args: Seq<Seq<char>>,
    o: Settings,
) -> (env::EnvView<FS>, Seq<Seq<char>>) {
    match o.input_range {
        Some((lo, hi)) => (v, numbers(lo as int, range_size(lo as int, hi as int))),
        None => if o.echo {
            (v, args)
        } else if args.len() == 0 || (args.len() == 1 && args[0] == "-"@) {
            (v.drained(), input_lines(text::unlines(v.stdin), o))
        } else if args.len() == 1 {
            let w = v.asked(fs::Request::Read(args[0]));
            match v.fs.reads(args[0]) {
                Ok(s) => (w, input_lines(s, o)),
                Err(e) => (
                    w.error_line("shuf: "@ + args[0] + ": "@ + e.message),
                    Seq::empty(),
                ),
            }
        } else {
            (v.error_line("shuf: extra operand"@), Seq::empty())
        },
    }
}

fn read_lines(s: &str, opts: &ShufOptions) -> (r: Vec<String>)
    ensures
        r.deep_view() == input_lines(s@, opts@),
{
    let end = if opts.zero_terminated {
        '\0'
    } else {
        '\n'
    };
    let mut kept = text::split_at_char(s, end);
    let ghost shown = kept.deep_view();
    if kept.len() > 0 && kept[kept.len() - 1].as_str().is_empty() {
        kept.pop();
        assert(kept.deep_view() =~= shown.drop_last());
    }
    kept
}

fn number_lines(lo: i64, hi: i64) -> (r: Vec<String>)
    ensures
        r.deep_view() == numbers(lo as int, range_size(lo as int, hi as int)),
{
    let mut out: Vec<String> = Vec::new();
    if lo > hi {
        assert(out.deep_view() =~= numbers(lo as int, 0));
        return out;
    }
    let mut n: i64 = lo;
    while n < hi
        invariant
            lo <= n <= hi,
            out.deep_view() == numbers(lo as int, (n - lo) as nat),
        decreases hi - n,
    {
        let ghost shown = out.deep_view();
        let s = text::to_signed_decimal(n);
        out.push(s);
        assert(out.deep_view() =~= shown.push(s@));
        assert(out.deep_view() =~= numbers(lo as int, (n - lo + 1) as nat));
        n += 1;
    }
    let ghost shown = out.deep_view();
    let s = text::to_signed_decimal(hi);
    out.push(s);
    assert(out.deep_view() =~= shown.push(s@));
    assert(out.deep_view() =~= numbers(lo as int, (hi - lo + 1) as nat));
    out
}

/// Collects input lines based on options.
pub fn collect_input<FS: Filesystem>(
    env: &mut Environment<FS>,
    args: &Vec<String>,
    opts: &ShufOptions,
) -> (r: Vec<String>)
    ensures
        (final(env)@, r.deep_view()) == collected(old(env)@, args.deep_view(), opts@),
{
    if let Some((lo, hi)) = opts.input_range {
        return number_lines(lo, hi);
    }
    if opts.echo {
        return options::copy_texts(args);
    }
    if args.len() == 0 || (args.len() == 1 && text::same(args[0].as_str(), "-")) {
        let lines = env.stdin.read_all();
        let mut contents = String::new();
        text::add_ended(&mut contents, &lines, '\n');
        proof {
            text::lemma_ended_is_unlines(lines.deep_view());
            assert(contents@ =~= text::unlines(lines.deep_view()));
        }
        read_lines(contents.as_str(), opts)
    } else if args.len() == 1 {
        match env.fs.read_to_string(args[0].as_str()) {
            Ok(s) => read_lines(s.as_str(), opts),
            Err(FsError::Io(e)) => {
                let mut m = "shuf: ".to_owned();
                m.append(args[0].as_str());
                m.append(": ");
                m.append(e.message.as_str());
                env.error_line(m.as_str());
                let r: Vec<String> = Vec::new();
                assert(r.deep_view() =~= Seq::<Seq<char>>::empty());
                r
            },
        }
    } else {
        env.error_line("shuf: extra operand");
        let r: Vec<String> = Vec::new();
        assert(r.deep_view() =~= Seq::<Seq<char>>::empty());
        r
    }
}

// ---------------------------------------------------------------------------------------------
// Output
// ---------------------------------------------------------------------------------------------

/// The first lines, at most so many as are asked for.
pub open spec fn head_of(lines: Seq<Seq<char>>, head: Option<usize>) -> Seq<Seq<char>> {
    match head {
        Some(n) => if n < lines.len() {
            lines.take(n as int)
        } else {
            lines
        },
        None => lines,
    }
}

/// The first lines, at most so many as are asked for.
pub fn first_lines(lines: Vec<String>, head: Option<usize>) -> (r: Vec<String>)
    ensures
        r.deep_view() == head_of(lines.deep_view(), head),
{
    let mut lines = lines;
    let ghost shown = lines.deep_view();
    if let Some(n) = head {
        if n < lines.len() {
            lines.truncate(n);
            assert(lines.deep_view() =~= shown.take(n as int));
        }
    }
    lines
}

/// `n` lines that are drawn one after another, each from all lines, and the seed behind them.
pub open spec fn sampled(lines: Seq<Seq<char>>, seed: u64, n: nat) -> (Seq<Seq<char>>, u64)
    decreases n,
{
    if n == 0 {
        (Seq::empty(), seed)
    } else {
        let (before, s) = sampled(lines, seed, (n - 1) as nat);
        (before.push(lines[drawn(lines.len() as usize, s) as int]), following(s))
    }
}

/// The lines that are written, and the seed behind them.
pub open spec fn generated(lines: Seq<Seq<char>>, o: Settings, seed: u64) -> (Seq<Seq<char>>, u64) {
    if o.repeat {
        sampled(
            lines,
            seed,
            match o.head_count {
                Some(n) => n as nat,
                None => lines.len(),
            },
        )
    } else {
        (head_of(shuffled(lines, seed), o.head_count), following(seed))
    }
}

/// Whether lines can be what is written for the input lines: with `-r` each is an input line, and
/// without it they are the beginning of some order of the input lines.
pub open spec fn possible(lines: Seq<Seq<char>>, out: Seq<Seq<char>>, o: Settings) -> bool {
    if o.repeat {
        &&& out.len() == (match o.head_count {
            Some(n) => n as nat,
            None => lines.len(),
        })
        &&& forall|i: int| 0 <= i < out.len() ==> lines.contains(#[trigger] out[i])
    } else {
        exists|order: Seq<Seq<char>>|
            order.to_multiset() == lines.to_multiset() && out == #[trigger] head_of(
                order,
                o.head_count,
            )
    }
}

/// Generates shuffled output, and the seed that is left.
pub fn generate_output(lines: &Vec<String>, opts: &ShufOptions, seed: u64) -> (r: (
    Vec<String>,
    u64,
))
    requires
        opts.repeat ==> (opts.head_count matches Some(n) ==> n == 0 || lines@.len() > 0),
    ensures
        (r.0.deep_view(), r.1) == generated(lines.deep_view(), opts@, seed),
        possible(lines.deep_view(), r.0.deep_view(), opts@),
{
    let ghost all = lines.deep_view();
    if opts.repeat {
        let count: usize = match opts.head_count {
            Some(n) => n,
            None => lines.len(),
        };
        let mut out: Vec<String> = Vec::new();
        let mut s: u64 = seed;
        let mut i: usize = 0;
        assert(out.deep_view() =~= Seq::<Seq<char>>::empty());
        while i < count
            invariant
                i <= count,
                count > 0 ==> lines@.len() > 0,
                all == lines.deep_view(),
                (out.deep_view(), s) == sampled(all, seed, i as nat),
                out@.len() == i,
                forall|j: int| 0 <= j < out@.len() ==> all.contains(#[trigger] out.deep_view()[j]),
            decreases count - i,
        {
            let ghost shown = out.deep_view();
            let k = draw(lines.len(), s);
            let line = lines[k].clone();
            out.push(line);
            assert(out.deep_view() =~= shown.push(all[k as int]));
            s = next_seed(s);
            i += 1;
        }
        (out, s)
    } else {
        let copy = options::copy_texts(lines);
        let order = shuffle(copy, seed);
        let out = first_lines(order, opts.head_count);
        let next = next_seed(seed);
        (out, next)
    }
}

/// What writing the output comes to.
pub open spec fn written<FS: Filesystem>(
    v: env::EnvView<FS>,
    out: Seq<Seq<char>>,
    o: Settings,
) -> (env::EnvView<FS>, int) {
    let s = text::ended(out, terminator(o));
    match o.output_file {
        None => (v.write(s), 0),
        Some(file) => {
            let w = v.asked(fs::Request::Write(file, s));
            match v.fs.writes(file, s) {
                Ok(_) => (w, 0),
                Err(e) => (w.error_line("shuf: "@ + file + ": "@ + fs::described(e)), 1),
            }
        },
    }
}

/// Writes the output.
pub fn write_output<FS: Filesystem>(
    env: &mut Environment<FS>,
    out: &Vec<String>,
    opts: &ShufOptions,
) -> (r: ExitCode)
    ensures
        (final(env)@, r.spec_code()) == written(old(env)@, out.deep_view(), opts@),
{
    let end = if opts.zero_terminated {
        '\0'
    } else {
        '\n'
    };
    let mut s = String::new();
    text::add_ended(&mut s, out, end);
    assert(s@ =~= text::ended(out.deep_view(), end));
    match &opts.output_file {
        None => {
            env.write_str(s.as_str());
            ExitCode::new(0)
        },
        Some(file) => match env.fs.write_string(file.as_str(), s.as_str()) {
            Ok(_) => ExitCode::new(0),
            Err(e) => {
                let mut m = "shuf: ".to_owned();
                m.append(file.as_str());
                m.append(": ");
                let words = fs::fs_error_details(&e);
                m.append(words.as_str());
                env.error_line(m.as_str());
                ExitCode::new(1)
            },
        },
    }
}

// ---------------------------------------------------------------------------------------------
// The command
// ---------------------------------------------------------------------------------------------

/// With another seed.
pub open spec fn reseeded<FS>(v: env::EnvView<FS>, seed: u64) -> env::EnvView<FS> {
    env::EnvView { seed, ..v }
}

/// What the command does with these options.
pub open spec fn ran<FS: Filesystem>(v: env::EnvView<FS>, p: options::ParsedView) -> (
    env::EnvView<FS>,
    Result<int, env::ErrorView>,
) {
    if p.present_long("help"@) {
        (v.write_line(HELP@), Ok(0))
    } else if p.present_long("version"@) {
        (v.write_line("shuf (eudaemonsh) 1.0"@), Ok(0))
    } else {
        match settings(p) {
            Err(m) => (v.error_line(m), Ok(1)),
            Ok(o) => {
                let (w, lines) = collected(v, p.free, o);
                if lines.len() == 0 {
                    (w, Ok(0))
                } else {
                    let (out, seed) = generated(lines, o, w.seed);
                    let (x, code) = written(reseeded(w, seed), out, o);
                    (x, Ok(code))
                }
            },
        }
    }
}

/// Runs the command with these options.
pub fn run<FS: Filesystem>(env: &mut Environment<FS>, p: &Parsed) -> (r: Result<ExitCode, Error>)
    ensures
        (final(env)@, env::outcome(r)) == ran(old(env)@, p@),
{
    if p.present_long("help") {
        env.write_line(HELP);
        return Ok(ExitCode::new(0));
    }
    if p.present_long("version") {
        env.write_line("shuf (eudaemonsh) 1.0");
        return Ok(ExitCode::new(0));
    }
    let opts = match read_settings(p) {
        Ok(o) => o,
        Err(m) => {
            env.error_line(m.as_str());
            return Ok(ExitCode::new(1));
        },
    };
    let lines = collect_input(env, &p.free, &opts);
    if lines.len() == 0 {
        return Ok(ExitCode::new(0));
    }
    let (out, seed) = generate_output(&lines, &opts, env.seed);
    env.seed = seed;
    let code = write_output(env, &out, &opts);
    Ok(code)
}

/// What the command does.
pub open spec fn spec_bin<FS: Filesystem>(v: env::EnvView<FS>) -> (
    env::EnvView<FS>,
    Result<int, env::ErrorView>,
) {
    match options::parsed(table(), v.args.skip(1)) {
        Ok(p) => ran(v, p),
        Err(message) => (v.error_line("shuf: "@ + message), Ok(1)),
    }
}

/// The shuf builtin: generate random permutations.
pub fn bin<FS: Filesystem>(env: &mut Environment<FS>) -> (r: Result<ExitCode, Error>)
    requires
        old(env)@.args.len() > 0,
    ensures
        (final(env)@, env::outcome(r)) == spec_bin(old(env)@),
{
    let opts = build_options();
    match options::parse(&opts, &env.args) {
        Ok(p) => run(env, &p),
        Err(e) => {
            let mut m = "shuf: ".to_owned();
            m.append(e.as_str());
            env.error_line(m.as_str());
            Ok(ExitCode::new(1))
        },
    }
}

// ---------------------------------------------------------------------------------------------
// Laws
// ---------------------------------------------------------------------------------------------

/// The beginning of some order of lines holds no line more often than they do.
pub proof fn lemma_head_within(lines: Seq<Seq<char>>, order: Seq<Seq<char>>, head: Option<usize>)
    requires
        order.to_multiset() == lines.to_multiset(),
    ensures
        head_of(order, head).to_multiset().subset_of(lines.to_multiset()),
{
    if let Some(n) = head {
        if n < order.len() {
            let a = order.take(n as int);
            let b = order.skip(n as int);
            assert(a + b =~= order);
            vstd::seq_lib::lemma_multiset_commutative(a, b);
        }
    }
}

/// Without `-r`, no line is written more often than it occurs in the input, and exactly so many
/// lines are written as are asked for, or as there are.
pub proof fn lemma_no_repetition(lines: Seq<Seq<char>>, out: Seq<Seq<char>>, o: Settings)
    requires
        !o.repeat,
        possible(lines, out, o),
    ensures
        out.to_multiset().subset_of(lines.to_multiset()),
        out.len() == (match o.head_count {
            Some(n) => if n < lines.len() {
                n as nat
            } else {
                lines.len()
            },
            None => lines.len(),
        }),
        o.head_count is None ==> out.to_multiset() == lines.to_multiset(),
{
    broadcast use vstd::seq_lib::group_to_multiset_ensures;

    let order = choose|order: Seq<Seq<char>>|
        order.to_multiset() == lines.to_multiset() && out == #[trigger] head_of(
            order,
            o.head_count,
        );
    lemma_head_within(lines, order, o.head_count);
    assert(order.len() == order.to_multiset().len());
    assert(lines.len() == lines.to_multiset().len());
}

/// A range stands for each of its numbers once, in order.
pub proof fn lemma_numbers(lo: int, hi: int, n: int)
    requires
        lo <= n <= hi,
    ensures
        numbers(lo, range_size(lo, hi)).len() == hi - lo + 1,
        numbers(lo, range_size(lo, hi))[n - lo] == text::signed_decimal(n),
{
}

/// A range is two numbers with a dash between them, either of which may be negative.
pub proof fn lemma_range_read(lo: int, hi: int)
    requires
        -i64::MAX <= lo <= i64::MAX,
        -i64::MAX <= hi <= i64::MAX,
    ensures
        range(text::signed_decimal(lo) + seq!['-'] + text::signed_decimal(hi)) == Some((lo, hi)),
{
    let a = text::signed_decimal(lo);
    let b = text::signed_decimal(hi);
    let s = a + seq!['-'] + b;
    lemma_signed_read(lo);
    lemma_signed_read(hi);
    let k = a.len() as int;
    assert(s[k] == '-');
    assert(s[0] == a[0]);
    assert forall|j: int| 1 <= j < k implies #[trigger] s[j] != '-' by {
        assert(s[j] == a[j]);
    }
    if lo >= 0 {
        assert(a[0] != '-');
        lemma_dash_found(s, 0, k);
    } else {
        lemma_dash_found(s, 1, k);
    }
    assert(s.take(k) =~= a);
    assert(s.skip(k + 1) =~= b);
}

proof fn lemma_dash_found(s: Seq<char>, i: int, k: int)
    requires
        0 <= i <= k < s.len(),
        s[k] == '-',
        forall|j: int| i <= j < k ==> #[trigger] s[j] != '-',
    ensures
        text::find_from(s, '-', i) == k,
    decreases k - i,
{
    if i < k {
        lemma_dash_found(s, i + 1, k);
    }
}

proof fn lemma_signed_read(n: int)
    requires
        -i64::MAX <= n <= i64::MAX,
    ensures
        text::signed_decimal(n).len() > 0,
        n < 0 ==> text::signed_decimal(n)[0] == '-',
        forall|j: int|
            0 <= j < text::signed_decimal(n).len() && (j > 0 || n >= 0)
                ==> #[trigger] text::signed_decimal(n)[j] != '-',
        text::signed(text::signed_decimal(n), i64::MAX as nat) == Some(n),
{
    let m = if n < 0 {
        (-n) as nat
    } else {
        n as nat
    };
    let d = text::decimal(m);
    text::lemma_number_of_decimal(m);
    assert(text::is_digit(d[0]));
    let s = text::signed_decimal(n);
    if n < 0 {
        assert(s =~= seq!['-'] + d);
        assert(s.skip(1) =~= d);
        assert forall|j: int| 0 < j < s.len() implies #[trigger] s[j] != '-' by {
            assert(s[j] == d[j - 1]);
        }
    }
}

/// What is put into random order: with -i the numbers of the range, both ends among them; with -e the
/// arguments; without arguments the lines of standard input; and with one the lines of that file.
pub proof fn lemma_collected<FS: Filesystem>(
    v: env::EnvView<FS>,
    args: Seq<Seq<char>>,
    o: Settings,
)
    ensures
        o.input_range is Some && (o.input_range->0).0 <= (o.input_range->0).1 ==> {
            let (lo, hi) = o.input_range->0;
            let lines = collected(v, args, o).1;
            lines.len() == hi - lo + 1 && forall|i: int|
                0 <= i < lines.len() ==> #[trigger] lines[i] == text::signed_decimal(lo + i)
        },
        o.input_range is None && o.echo ==> collected(v, args, o) == (v, args),
        o.input_range is None && !o.echo && args.len() == 0 ==> collected(v, args, o).0.stdin.len()
            == 0 && (!o.zero_terminated && (forall|i: int|
            0 <= i < v.stdin.len() ==> !(#[trigger] v.stdin[i]).contains('\n')) ==> collected(
            v,
            args,
            o,
        ).1 == v.stdin),
        o.input_range is None && !o.echo && args.len() > 1 ==> collected(v, args, o).1.len() == 0,
{
    if o.input_range is None && !o.echo && args.len() == 0 && !o.zero_terminated && (forall|i: int|
        0 <= i < v.stdin.len() ==> !(#[trigger] v.stdin[i]).contains('\n')) {
        text::lemma_ended_is_unlines(v.stdin);
        text::lemma_split_ended(v.stdin, '\n');
        let none = Seq::<char>::empty();
        assert(v.stdin.push(none).last() == none);
        assert(v.stdin.push(none).drop_last() =~= v.stdin);
    }
}

/// With -o the file gets what would otherwise be printed, and nothing is printed. Each line is ended
/// with a newline, or with -z with a NUL.
pub proof fn lemma_written<FS: Filesystem>(
    v: env::EnvView<FS>,
    out: Seq<Seq<char>>,
    o: Settings,
)
    ensures
        ({
            let s = text::ended(out, if o.zero_terminated {
                '\0'
            } else {
                '\n'
            });
            let (w, code) = written(v, out, o);
            match o.output_file {
                None => w.out == v.out + s && w.fs == v.fs && code == 0,
                Some(file) => w.fs == v.fs.after(fs::Request::Write(file, s)) && (code == 0
                    <==> v.fs.writes(file, s) is Ok) && (code == 0 ==> w.out == v.out && w.err
                    == v.err),
            }
        }),
{
}

} // verus!
