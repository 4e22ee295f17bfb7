//! The head builtin: display first lines of a file.

use crate::env::{Environment, Error, ExitCode};
use crate::env;
use crate::fs::{Filesystem, FsError};
use crate::fs;
use crate::options::{Arity, OptDef, Parsed};
use crate::options;
use crate::size;
use crate::text;
use vstd::prelude::*;

verus! {

broadcast use vstd::string::group_string_axioms;

/// Options for the head command.
#[derive(Debug, Clone, Copy, PartialEq, Eq, Structural)]
pub struct HeadOptions {
    /// Number of lines to display (default 10).
    pub lines: Option<u64>,
    /// Number of bytes to display.
    pub bytes: Option<u64>,
    /// Suppress headers when multiple files are specified.
    pub quiet: bool,
    /// Always print headers.
    pub verbose: bool,
}

/// Whether an argument is a dash and a number.
pub open spec fn is_count(arg: Seq<char>) -> bool {
    arg.len() > 1 && arg[0] == '-' && text::all_digits(arg.skip(1))
}

/// What the arguments from `i` on stand for: `-NUM` is short for `-n NUM`, but not where it is the
/// value of a `-n` or a `-c` just before it.
pub open spec fn preprocessed(args: Seq<Seq<char>>, i: int, is_value: bool) -> Seq<Seq<char>>
    decreases args.len() - i,
{
    if i < 0 || i >= args.len() {
        Seq::empty()
    } else if is_value {
        seq![args[i]] + preprocessed(args, i + 1, false)
    } else if args[i] == "-n"@ || args[i] == "-c"@ {
        seq![args[i]] + preprocessed(args, i + 1, true)
    } else if is_count(args[i]) {
        seq!["-n"@, args[i].skip(1)] + preprocessed(args, i + 1, false)
    } else {
        seq![args[i]] + preprocessed(args, i + 1, false)
    }
}

fn counts(arg: &str) -> (r: bool)
    ensures
        r == is_count(arg@),
{
    let v = text::chars(arg);
    if v.len() < 2 || v[0] != '-' {
        return false;
    }
    let ghost rest = arg@.skip(1);
    let mut i: usize = 1;
    while i < v.len()
        invariant
            1 <= i <= v@.len(),
            v@ == arg@,
            rest == arg@.skip(1),
            forall|j: int| 1 <= j < i ==> text::is_digit(#[trigger] v@[j]),
        decreases v.len() - i,
    {
        if !text::digit(v[i]) {
            assert(!text::is_digit(rest[i - 1]));
            return false;
        }
        i += 1;
    }
    assert forall|j: int| 0 <= j < rest.len() implies text::is_digit(#[trigger] rest[j]) by {
        assert(rest[j] == v@[j + 1]);
    }
    true
}

/// Preprocesses arguments to convert legacy -NUM syntax to -n NUM.
pub fn preprocess_args(args: &Vec<String>) -> (r: Vec<String>)
    ensures
        r.deep_view() == preprocessed(args.deep_view(), 0, false),
{
    let mut out: Vec<String> = Vec::new();
    let mut is_value = false;
    let ghost all = args.deep_view();
    let ghost total = preprocessed(all, 0, false);
    let mut i: usize = 0;
    assert(out.deep_view() + total =~= total);
    while i < args.len()
        invariant
            i <= args@.len(),
            all == args.deep_view(),
            out.deep_view() + preprocessed(all, i as int, is_value) == total,
        decreases args.len() - i,
    {
        let ghost shown = out.deep_view();
        let ghost was_value = is_value;
        if !is_value && !text::same(args[i].as_str(), "-n") && !text::same(
            args[i].as_str(),
            "-c",
        ) && counts(args[i].as_str()) {
            let rest = text::drop_chars(args[i].as_str(), 1);
            let n = "-n".to_owned();
            out.push(n);
            out.push(rest);
            proof {
                assert(out.deep_view() =~= shown.push("-n"@).push(rest@));
                let tail = preprocessed(all, i + 1, false);
                assert(out.deep_view() + tail =~= shown + (seq!["-n"@, rest@] + tail));
            }
        } else {
            is_value = !is_value && (text::same(args[i].as_str(), "-n") || text::same(
                args[i].as_str(),
                "-c",
            ));
            out.push(args[i].clone());
            proof {
                assert(out.deep_view() =~= shown.push(all[i as int]));
                let tail = preprocessed(all, i + 1, is_value);
                assert(out.deep_view() + tail =~= shown + (seq![all[i as int]] + tail));
            }
        }
        i += 1;
    }
    assert(out.deep_view() + Seq::<Seq<char>>::empty() =~= out.deep_view());
    out
}

pub open spec fn smaller(a: nat, b: nat) -> nat {
    if a < b {
        a
    } else {
        b
    }
}

/// The first lines of a text.
pub open spec fn first_lines(contents: Seq<char>, count: nat) -> Seq<char> {
    let lines = text::lines(contents);
    text::unlines(lines.take(smaller(count, lines.len()) as int))
}

/// The first bytes of a text; nothing where they end within a character.
pub open spec fn first_bytes(contents: Seq<char>, count: nat) -> Seq<char> {
    let b = vstd::utf8::encode_utf8(contents);
    let head = b.take(smaller(count, b.len()) as int);
    if vstd::utf8::valid_utf8(head) {
        vstd::utf8::decode_utf8(head)
    } else {
        Seq::empty()
    }
}

/// What is printed of a text.
pub open spec fn head_of(contents: Seq<char>, o: HeadOptions) -> Seq<char> {
    match o.bytes {
        Some(n) => first_bytes(contents, n as nat),
        None => first_lines(
            contents,
            match o.lines {
                Some(n) => n as nat,
                None => 10,
            },
        ),
    }
}

/// The first lines of a text, each followed by a newline.
pub fn head_string_lines(contents: &str, count: u64) -> (r: String)
    ensures
        r@ == first_lines(contents@, count as nat),
{
    let lines = text::lines_of(contents);
    let ghost all = lines.deep_view();
    let mut out = String::new();
    let mut i: usize = 0;
    assert(out@ =~= text::unlines(all.take(0)));
    while i < lines.len() && (i as u64) < count
        invariant
            i <= lines@.len(),
            i <= count,
            all == lines.deep_view(),
            out@ == text::unlines(all.take(i as int)),
        decreases lines.len() - i,
    {
        let ghost before = out@;
        assert(all.take(i + 1).drop_last() =~= all.take(i as int));
        out.append(lines[i].as_str());
        out.push('\n');
        assert(out@ =~= before + text::terminated(all[i as int]));
        i += 1;
    }
    out
}

/// The first bytes of a text; nothing where they end within a character.
pub fn head_string_bytes(contents: &str, count: u64) -> (r: String)
    ensures
        r@ == first_bytes(contents@, count as nat),
{
    let bytes = contents.as_bytes();
    let n: usize = bytes.len();
    let end: usize = if count < n as u64 {
        count as usize
    } else {
        n
    };
    let mut head: Vec<u8> = Vec::new();
    let mut i: usize = 0;
    while i < end
        invariant
            i <= end <= bytes@.len(),
            head@ == bytes@.take(i as int),
        decreases end - i,
    {
        head.push(bytes[i]);
        i += 1;
    }
    match text::decode_bytes(head) {
        Ok(s) => {
            proof {
                vstd::utf8::encode_utf8_valid_utf8(s@);
                vstd::utf8::encode_utf8_decode_utf8(s@);
            }
            s
        },
        Err(_) => String::new(),
    }
}

/// Prints the head of a text.
pub fn head_string<FS>(env: &mut Environment<FS>, contents: &str, opts: &HeadOptions)
    ensures
        final(env)@ == old(env)@.write(head_of(contents@, *opts)),
{
    let out = match opts.bytes {
        Some(n) => head_string_bytes(contents, n),
        None => head_string_lines(
            contents,
            match opts.lines {
                Some(n) => n,
                None => 10,
            },
        ),
    };
    env.write_str(out.as_str());
}

/// The header of a file, with an empty line before it unless it is the first.
pub open spec fn header(name: Seq<char>, first: bool) -> Seq<char> {
    (if first {
        Seq::empty()
    } else {
        "\n"@
    }) + text::terminated("==> "@ + name + " <=="@)
}

pub open spec fn with_header<FS>(
    v: env::EnvView<FS>,
    print: bool,
    name: Seq<char>,
    first: bool,
) -> env::EnvView<FS> {
    if print {
        v.write(header(name, first))
    } else {
        v
    }
}

/// What printing the heads of the files from `i` on comes to.
pub open spec fn files_done<FS: Filesystem>(
    v: env::EnvView<FS>,
    files: Seq<Seq<char>>,
    i: int,
    o: HeadOptions,
    headers: bool,
    code: int,
) -> (env::EnvView<FS>, Result<int, env::ErrorView>)
    decreases files.len() - i,
{
    if i < 0 || i >= files.len() {
        (v, Ok(code))
    } else if files[i] == "-"@ {
        let w = with_header(v, headers, "standard input"@, i == 0);
        files_done(
            w.drained().write(head_of(text::ended(v.stdin, '\n'), o)),
            files,
            i + 1,
            o,
            headers,
            code,
        )
    } else {
        let w = with_header(v, headers, files[i], i == 0);
        let x = w.with_fs(w.fs.after(fs::Request::Read(files[i])));
        match w.fs.reads(files[i]) {
            Ok(t) => files_done(x.write(head_of(t, o)), files, i + 1, o, headers, code),
            Err(e) => files_done(
                x.error_line("head: "@ + files[i] + ": "@ + e.message),
                files,
                i + 1,
                o,
                headers,
                1,
            ),
        }
    }
}

/// What printing heads comes to: of the files one after another, or of standard input where there
/// are none.
pub open spec fn all_done<FS: Filesystem>(
    v: env::EnvView<FS>,
    files: Seq<Seq<char>>,
    o: HeadOptions,
) -> (env::EnvView<FS>, Result<int, env::ErrorView>) {
    if files.len() == 0 {
        (v.drained().write(head_of(text::ended(v.stdin, '\n'), o)), Ok(0))
    } else {
        files_done(v, files, 0, o, o.verbose || (!o.quiet && files.len() > 1), 0)
    }
}

fn head_stdin<FS>(env: &mut Environment<FS>, opts: &HeadOptions)
    ensures
        final(env)@ == old(env)@.drained().write(
            head_of(text::ended(old(env)@.stdin, '\n'), *opts),
        ),
{
    let lines = env.stdin.read_all();
    let mut contents = String::new();
    text::add_ended(&mut contents, &lines, '\n');
    assert(contents@ =~= text::ended(old(env)@.stdin, '\n'));
    head_string(env, contents.as_str(), opts);
}

fn print_header<FS>(env: &mut Environment<FS>, print: bool, name: &str, first: bool)
    ensures
        final(env)@ == with_header(old(env)@, print, name@, first),
{
    if print {
        let mut s = "==> ".to_owned();
        s.append(name);
        s.append(" <==");
        s.push('\n');
        let mut h = String::new();
        if !first {
            h.append("\n");
            assert(h@ =~= "\n"@);
        }
        h.append(s.as_str());
        env.write_str(h.as_str());
    }
}

/// Prints the heads of files, or of standard input where there are none.
pub fn head_files<FS: Filesystem>(
    env: &mut Environment<FS>,
    files: &Vec<String>,
    opts: &HeadOptions,
) -> (r: Result<ExitCode, Error>)
    ensures
        (final(env)@, env::outcome(r)) == all_done(old(env)@, files.deep_view(), *opts),
{
    if files.len() == 0 {
        head_stdin(env, opts);
        return Ok(ExitCode::new(0));
    }
    let headers = opts.verbose || (!opts.quiet && files.len() > 1);
    let ghost all = files.deep_view();
    let mut code: i32 = 0;
    let mut i: usize = 0;
    while i < files.len()
        invariant
            i <= files@.len(),
            all == files.deep_view(),
            files_done(env@, all, i as int, *opts, headers, code as int) == files_done(
                old(env)@,
                all,
                0,
                *opts,
                headers,
                0,
            ),
        decreases files.len() - i,
    {
        let file = files[i].clone();
        if text::same(file.as_str(), "-") {
            print_header(env, headers, "standard input", i == 0);
            head_stdin(env, opts);
        } else {
            print_header(env, headers, file.as_str(), i == 0);
            match env.fs.read_to_string(file.as_str()) {
                Ok(contents) => {
                    head_string(env, contents.as_str(), opts);
                },
                Err(FsError::Io(e)) => {
                    let mut m = "head: ".to_owned();
                    m.append(file.as_str());
                    m.append(": ");
                    m.append(e.message.as_str());
                    env.error_line(m.as_str());
                    code = 1;
                },
            }
        }
        i += 1;
    }
    Ok(ExitCode::new(code))
}

/// The options of the command.
pub open spec fn table() -> Seq<OptDef> {
    seq![
        OptDef { short: 'n', long: "lines", arity: Arity::Value },
        OptDef { short: 'c', long: "bytes", arity: Arity::Value },
        OptDef { short: 'q', long: "quiet", arity: Arity::Flag },
        OptDef { short: '\0', long: "silent", arity: Arity::Flag },
        OptDef { short: 'v', long: "verbose", arity: Arity::Flag },
    ]
}

fn build_options() -> (r: Vec<OptDef>)
    ensures
        r@ == table(),
        options::all_declarable(options::definitions(r@)),
{
    let r = vec![
        OptDef { short: 'n', long: "lines", arity: Arity::Value },
        OptDef { short: 'c', long: "bytes", arity: Arity::Value },
        OptDef { short: 'q', long: "quiet", arity: Arity::Flag },
        OptDef { short: '\0', long: "silent", arity: Arity::Flag },
        OptDef { short: 'v', long: "verbose", arity: Arity::Flag },
    ];
    proof {
        reveal_strlit("lines");
        reveal_strlit("bytes");
        reveal_strlit("quiet");
        reveal_strlit("silent");
        reveal_strlit("verbose");
    }
    r
}

/// A positive count where an option gives one; nothing where what it gives is none.
pub open spec fn count_given(given: Option<Seq<char>>) -> Option<Option<u64>> {
    match given {
        None => Some(None),
        Some(s) => match size::size(s) {
            Some(n) => if n > 0 {
                Some(Some(n as u64))
            } else {
                None
            },
            None => None,
        },
    }
}

/// The settings that a command line gives; or the words of the error.
pub open spec fn settings(p: options::ParsedView) -> Result<HeadOptions, Seq<char>> {
    let quiet = p.present('q') || p.present_long("silent"@);
    match count_given(p.value('n')) {
        None => Err("head: illegal line count -- "@ + p.value('n')->0),
        Some(lines) => match count_given(p.value('c')) {
            None => Err("head: illegal byte count -- "@ + p.value('c')->0),
            Some(bytes) => if lines is Some && bytes is Some {
                Err("head: can't combine line and byte counts"@)
            } else {
                Ok(HeadOptions { lines, bytes, quiet, verbose: p.present('v') && !quiet })
            },
        },
    }
}

/// What the command does once its options are known.
pub open spec fn ran<FS: Filesystem>(v: env::EnvView<FS>, p: options::ParsedView) -> (
    env::EnvView<FS>,
    Result<int, env::ErrorView>,
) {
    match settings(p) {
        Err(e) => (v.error_line(e), Ok(1)),
        Ok(o) => all_done(v, p.free, o),
    }
}

/// What the command does.
pub open spec fn spec_bin<FS: Filesystem>(v: env::EnvView<FS>) -> (
    env::EnvView<FS>,
    Result<int, env::ErrorView>,
) {
    match options::parsed(table(), preprocessed(v.args.skip(1), 0, false)) {
        Ok(p) => ran(v, p),
        Err(message) => (v.error_line("head: "@ + message), Ok(1)),
    }
}

fn read_count(given: Option<String>) -> (r: Option<Option<u64>>)
    ensures
        r == count_given(options::opt_text(given)),
{
    match given {
        None => Some(None),
        Some(s) => match size::parse_size(s.as_str()) {
            Some(n) => if n > 0 {
                Some(Some(n))
            } else {
                None
            },
            None => None,
        },
    }
}

/// Reads the settings from a command line.
pub fn read_settings(p: &Parsed) -> (r: Result<HeadOptions, String>)
    ensures
        match r {
            Ok(o) => settings(p@) == Ok::<HeadOptions, Seq<char>>(o),
            Err(e) => settings(p@) == Err::<HeadOptions, Seq<char>>(e@),
        },
{
    let quiet = p.present('q') || p.present_long("silent");
    let lines = match read_count(p.value('n')) {
        Some(x) => x,
        None => {
            let mut m = "head: illegal line count -- ".to_owned();
            if let Some(s) = p.value('n') {
                m.append(s.as_str());
            }
            return Err(m);
        },
    };
    let bytes = match read_count(p.value('c')) {
        Some(x) => x,
        None => {
            let mut m = "head: illegal byte count -- ".to_owned();
            if let Some(s) = p.value('c') {
                m.append(s.as_str());
            }
            return Err(m);
        },
    };
    if lines.is_some() && bytes.is_some() {
        return Err("head: can't combine line and byte counts".to_owned());
    }
    let verbose = p.present('v') && !quiet;
    Ok(HeadOptions { lines, bytes, quiet, verbose })
}

/// Prints heads with the options that a command line gave.
pub fn run<FS: Filesystem>(env: &mut Environment<FS>, p: &Parsed) -> (r: Result<ExitCode, Error>)
    ensures
        (final(env)@, env::outcome(r)) == ran(old(env)@, p@),
{
    match read_settings(p) {
        Ok(o) => head_files(env, &p.free, &o),
        Err(e) => {
            env.error_line(e.as_str());
            Ok(ExitCode::new(1))
        },
    }
}

/// The head builtin: display first lines of a file.
pub fn bin<FS: Filesystem>(env: &mut Environment<FS>) -> (r: Result<ExitCode, Error>)
    requires
        old(env)@.args.len() > 0,
    ensures
        (final(env)@, env::outcome(r)) == spec_bin(old(env)@),
{
    let opts = build_options();
    let rest = options::copy_from(&env.args, 1);
    let args = preprocess_args(&rest);
    match options::parse_args(&opts, &args) {
        Ok(p) => run(env, &p),
        Err(e) => {
            let mut m = "head: ".to_owned();
            m.append(e.as_str());
            env.error_line(m.as_str());
            Ok(ExitCode::new(1))
        },
    }
}

// ---------------------------------------------------------------------------------------------
// Laws
// ---------------------------------------------------------------------------------------------

/// A text with no more lines than wanted is printed whole.
pub proof fn lemma_short_text_is_whole(contents: Seq<char>, count: nat)
    requires
        text::lines(contents).len() <= count,
    ensures
        first_lines(contents, count) == text::unlines(text::lines(contents)),
{
    let lines = text::lines(contents);
    assert(lines.take(lines.len() as int) =~= lines);
}

/// The bytes of what is printed are the first bytes of the text, unless they end within a
/// character.
pub proof fn lemma_bytes_are_a_prefix(contents: Seq<char>, count: nat)
    ensures
        first_bytes(contents, count).len() > 0 ==> vstd::utf8::encode_utf8(
            first_bytes(contents, count),
        ) == vstd::utf8::encode_utf8(contents).take(
            smaller(count, vstd::utf8::encode_utf8(contents).len()) as int,
        ),
{
    let b = vstd::utf8::encode_utf8(contents);
    let head = b.take(smaller(count, b.len()) as int);
    if vstd::utf8::valid_utf8(head) {
        vstd::utf8::decode_utf8_encode_utf8(head);
    }
}

/// The first lines of a text are its lines up to the count, each followed by a newline, whatever
/// follows them.
pub proof fn lemma_first_lines(a: Seq<Seq<char>>, b: Seq<Seq<char>>, more: nat)
    requires
        forall|i: int| 0 <= i < a.len() ==> text::is_line(#[trigger] a[i]),
        forall|i: int| 0 <= i < b.len() ==> text::is_line(#[trigger] b[i]),
    ensures
        first_lines(text::unlines(a + b), a.len()) == text::unlines(a),
        first_lines(text::unlines(a), a.len() + more) == text::unlines(a),
{
    let all = a + b;
    assert forall|i: int| 0 <= i < all.len() implies text::is_line(#[trigger] all[i]) by {
        if i < a.len() {
            assert(all[i] == a[i]);
        } else {
            assert(all[i] == b[i - a.len()]);
        }
    }
    text::lemma_lines_of_unlines(all);
    text::lemma_lines_of_unlines(a);
    assert(all.take(a.len() as int) =~= a);
    assert(a.take(a.len() as int) =~= a);
}

/// The first bytes of a text are the characters that they make up, where they make up characters,
/// and all of it where there are no more.
pub proof fn lemma_first_bytes(a: Seq<char>, b: Seq<char>, more: nat)
    ensures
        first_bytes(a + b, vstd::utf8::encode_utf8(a).len()) == a,
        first_bytes(a, vstd::utf8::encode_utf8(a).len() + more) == a,
{
    let x = vstd::utf8::encode_utf8(a);
    let y = vstd::utf8::encode_utf8(b);
    text::lemma_bytes_in_parts(a, b);
    vstd::utf8::encode_utf8_valid_utf8(a);
    vstd::utf8::encode_utf8_decode_utf8(a);
    assert((x + y).take(x.len() as int) =~= x);
    assert(x.take(x.len() as int) =~= x);
}

/// Without a count, ten lines are printed. A number of bytes counts before a number of lines.
pub proof fn lemma_usual_count(contents: Seq<char>, o: HeadOptions)
    ensures
        o.bytes is None && o.lines is None ==> head_of(contents, o) == head_of(
            contents,
            HeadOptions { lines: Some(10), ..o },
        ),
        o.bytes is Some ==> head_of(contents, o) == head_of(
            contents,
            HeadOptions { lines: None, ..o },
        ),
{
}

/// What is printed for file `i`: its header where headers are wanted, with an empty line before it
/// unless it is the first, and its head where it can be read.
pub open spec fn printed_file<FS: Filesystem>(
    s: FS,
    files: Seq<Seq<char>>,
    i: int,
    o: HeadOptions,
    headers: bool,
) -> Seq<char> {
    (if headers && i > 0 {
        seq!['\n']
    } else {
        Seq::empty()
    }) + (if headers {
        seq!['=', '=', '>', ' '] + files[i] + seq![' ', '<', '=', '=', '\n']
    } else {
        Seq::empty()
    }) + match fs::read_at(s, files, i) {
        Ok(t) => head_of(t, o),
        Err(_) => Seq::empty(),
    }
}

proof fn lemma_files_from<FS: Filesystem>(
    v: env::EnvView<FS>,
    s: FS,
    out: Seq<char>,
    err: Seq<char>,
    files: Seq<Seq<char>>,
    i: int,
    o: HeadOptions,
    headers: bool,
    code: int,
)
    requires
        0 <= i <= files.len(),
        forall|k: int| 0 <= k < files.len() ==> #[trigger] files[k] != "-"@,
        !v.merged,
        v.fs == fs::after_reads(s, files, i),
        v.out == out + text::concat(
            Seq::new(i as nat, |k: int| printed_file(s, files, k, o, headers)),
        ),
        v.err == err + text::unlines(fs::complaints(s, seq!['h', 'e', 'a', 'd'], files, i)),
        code == if fs::any_unread(s, files, i) {
            1int
        } else {
            0int
        },
    ensures
        ({
            let n = files.len() as int;
            let (w, r) = files_done(v, files, i, o, headers, code);
            &&& w.out == out + text::concat(
                Seq::new(n as nat, |k: int| printed_file(s, files, k, o, headers)),
            )
            &&& w.err == err + text::unlines(
                fs::complaints(s, seq!['h', 'e', 'a', 'd'], files, n),
            )
            &&& r == Ok::<int, env::ErrorView>(
                if fs::any_unread(s, files, n) {
                    1int
                } else {
                    0int
                },
            )
        }),
    decreases files.len() - i,
{
    if i < files.len() {
        let w = with_header(v, headers, files[i], i == 0);
        let x = w.with_fs(w.fs.after(fs::Request::Read(files[i])));
        assert(files[i] != "-"@);
        assert(fs::read_at(s, files, i) == v.fs.reads(files[i]));
        reveal_strlit("\n");
        reveal_strlit("==> ");
        reveal_strlit(" <==");
        let now = Seq::new((i + 1) as nat, |k: int| printed_file(s, files, k, o, headers));
        assert(now.drop_last() =~= Seq::new(
            i as nat,
            |k: int| printed_file(s, files, k, o, headers),
        ));
        assert(now.last() == printed_file(s, files, i, o, headers));
        match v.fs.reads(files[i]) {
            Ok(t) => {
                let y = x.write(head_of(t, o));
                assert(y.out =~= out + text::concat(now));
                fs::lemma_unread_ok(s, files, i);
                lemma_files_from(y, s, out, err, files, i + 1, o, headers, code);
            },
            Err(e) => {
                reveal_strlit("head: ");
                reveal_strlit(": ");
                let m = "head: "@ + files[i] + ": "@ + e.message;
                let c = seq!['h', 'e', 'a', 'd'];
                assert(m =~= c + seq![':', ' '] + files[i] + seq![':', ' '] + e.message);
                let told = fs::complaints(s, c, files, i);
                assert(fs::complaints(s, c, files, i + 1).drop_last() =~= told);
                let y = x.error_line(m);
                assert(y.err =~= err + text::unlines(told.push(m)));
                assert(y.out =~= out + text::concat(now));
                assert(fs::any_unread(s, files, i + 1)) by {
                    assert(fs::read_at(s, files, i) is Err);
                }
                lemma_files_from(y, s, out, err, files, i + 1, o, headers, 1);
            },
        }
    }
}

/// The heads of files are printed one after another, behind headers where there are several files or
/// headers are asked for, unless they are unwanted. Each file that cannot be read is named on the
/// error stream with the reason, and makes the exit code 1.
pub proof fn lemma_heads_of_files<FS: Filesystem>(
    v: env::EnvView<FS>,
    files: Seq<Seq<char>>,
    o: HeadOptions,
)
    requires
        files.len() > 0,
        forall|k: int| 0 <= k < files.len() ==> #[trigger] files[k] != "-"@,
        !v.merged,
    ensures
        ({
            let n = files.len() as int;
            let headers = if o.verbose {
                true
            } else if o.quiet {
                false
            } else {
                n > 1
            };
            let (w, r) = all_done(v, files, o);
            &&& w.out == v.out + text::concat(
                Seq::new(n as nat, |k: int| printed_file(v.fs, files, k, o, headers)),
            )
            &&& w.err == v.err + text::unlines(
                fs::complaints(v.fs, seq!['h', 'e', 'a', 'd'], files, n),
            )
            &&& r == Ok::<int, env::ErrorView>(
                if fs::any_unread(v.fs, files, n) {
                    1int
                } else {
                    0int
                },
            )
        }),
{
    let headers = o.verbose || (!o.quiet && files.len() > 1);
    let none = Seq::new(0nat, |k: int| printed_file(v.fs, files, k, o, headers));
    assert(text::concat(none) =~= Seq::<char>::empty());
    assert(v.out + Seq::<char>::empty() =~= v.out);
    assert(v.err + Seq::<char>::empty() =~= v.err);
    lemma_files_from(v, v.fs, v.out, v.err, files, 0, o, headers, 0);
}

/// `-NUM` stands for `-n NUM`, unless it is the value of `-n` or `-c`.
pub proof fn lemma_short_count(
    before: Seq<Seq<char>>,
    digits: Seq<char>,
    behind: Seq<Seq<char>>,
)
    requires
        digits.len() > 0,
        text::all_digits(digits),
        before.len() == 0 || (before.last() != "-n"@ && before.last() != "-c"@),
        preprocessed(before, 0, false) == before,
    ensures
        preprocessed(before + seq![seq!['-'] + digits] + behind, 0, false) == before + seq![
            "-n"@,
            digits,
        ] + preprocessed(behind, 0, false),
        preprocessed(seq!["-n"@, seq!['-'] + digits] + behind, 0, false) == seq![
            "-n"@,
            seq!['-'] + digits,
        ] + preprocessed(behind, 0, false),
        preprocessed(seq!["-c"@, seq!['-'] + digits] + behind, 0, false) == seq![
            "-c"@,
            seq!['-'] + digits,
        ] + preprocessed(behind, 0, false),
{
    let word = seq!['-'] + digits;
    reveal_strlit("-n");
    reveal_strlit("-c");
    assert(word.skip(1) =~= digits);
    assert(is_count(word));
    assert(word[1] == digits[0]);
    assert(text::is_digit(digits[0]));
    assert("-n"@[1] == 'n' && "-c"@[1] == 'c');
    assert(word != "-n"@ && word != "-c"@);
    let mid = seq![word] + behind;
    let all = before + seq![word] + behind;
    assert(all =~= before + mid);
    lemma_preprocessed_through(before, mid, 0, false);
    lemma_preprocessed_shifted(mid, 1, false);
    assert(mid.skip(1) =~= behind);
    assert(preprocessed(mid, 0, false) =~= seq!["-n"@, digits] + preprocessed(behind, 0, false));
    assert(before + (seq!["-n"@, digits] + preprocessed(behind, 0, false)) =~= before + seq![
        "-n"@,
        digits,
    ] + preprocessed(behind, 0, false));
    let n = seq!["-n"@, word] + behind;
    lemma_preprocessed_shifted(n, 2, false);
    assert(n.skip(2) =~= behind);
    assert(preprocessed(n, 1, true) =~= seq![word] + preprocessed(n, 2, false));
    assert(preprocessed(n, 0, false) =~= seq!["-n"@, word] + preprocessed(behind, 0, false));
    let c = seq!["-c"@, word] + behind;
    lemma_preprocessed_shifted(c, 2, false);
    assert(c.skip(2) =~= behind);
    assert(preprocessed(c, 1, true) =~= seq![word] + preprocessed(c, 2, false));
    assert(preprocessed(c, 0, false) =~= seq!["-c"@, word] + preprocessed(behind, 0, false));
}

proof fn lemma_preprocessed_shifted(args: Seq<Seq<char>>, i: int, is_value: bool)
    requires
        0 <= i <= args.len(),
    ensures
        preprocessed(args, i, is_value) == preprocessed(args.skip(i), 0, is_value),
{
    lemma_preprocessed_from(args, i, 0, is_value);
}

proof fn lemma_preprocessed_from(args: Seq<Seq<char>>, i: int, k: int, is_value: bool)
    requires
        0 <= i <= args.len(),
        0 <= k <= args.len() - i,
    ensures
        preprocessed(args, i + k, is_value) == preprocessed(args.skip(i), k, is_value),
    decreases args.len() - i - k,
{
    if i + k < args.len() {
        assert(args.skip(i)[k] == args[i + k]);
        lemma_preprocessed_from(args, i, k + 1, true);
        lemma_preprocessed_from(args, i, k + 1, false);
    }
}

proof fn lemma_preprocessed_through(
    a: Seq<Seq<char>>,
    b: Seq<Seq<char>>,
    i: int,
    is_value: bool,
)
    requires
        0 <= i <= a.len(),
        a.len() == 0 || (a.last() != "-n"@ && a.last() != "-c"@),
        i == a.len() ==> !is_value,
    ensures
        preprocessed(a + b, i, is_value) == preprocessed(a, i, is_value) + preprocessed(b, 0, false),
    decreases a.len() - i,
{
    let all = a + b;
    if i < a.len() {
        assert(all[i] == a[i]);
        let value = !is_value && (a[i] == "-n"@ || a[i] == "-c"@);
        lemma_preprocessed_through(a, b, i + 1, value);
        let rest = preprocessed(a, i + 1, value);
        let tail = preprocessed(b, 0, false);
        if !is_value && !value && is_count(a[i]) {
            let two = seq!["-n"@, a[i].skip(1)];
            assert(two + (rest + tail) =~= two + rest + tail);
        } else {
            assert(seq![a[i]] + (rest + tail) =~= seq![a[i]] + rest + tail);
        }
    } else {
        lemma_preprocessed_shifted(all, i, false);
        assert(all.skip(i) =~= b);
        assert(Seq::<Seq<char>>::empty() + preprocessed(b, 0, false) =~= preprocessed(
            b,
            0,
            false,
        ));
    }
}

} // verus!
