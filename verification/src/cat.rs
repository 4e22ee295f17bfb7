//! The cat builtin: concatenate and print files or stdin.

use crate::env::{Environment, Error, ExitCode};
use crate::env;
use crate::fs::{Filesystem, FsError};
use crate::fs;
use crate::options::{Arity, OptDef, Parsed};
use crate::options;
use crate::text;
use vstd::prelude::*;

verus! {

broadcast use vstd::string::group_string_axioms;

/// Options for the cat command.
#[derive(Debug, Clone, Copy, PartialEq, Eq, Structural)]
pub struct CatOptions {
    /// -b: Number non-blank output lines.
    pub number_nonblank: bool,
    /// -e: Display non-printing characters and $ at end of each line.
    pub show_ends: bool,
    /// -n: Number all output lines.
    pub number: bool,
    /// -s: Squeeze multiple adjacent empty lines.
    pub squeeze_blank: bool,
    /// -t: Display non-printing characters and tabs as ^I.
    pub show_tabs: bool,
    /// -v: Display non-printing characters visibly.
    pub show_nonprinting: bool,
}

/// State for processing cat output. The counter goes round at the end of its range.
#[derive(Debug, Clone, Copy, PartialEq, Eq, Structural)]
pub struct CatState {
    pub line_number: usize,
    pub prev_blank: bool,
}

/// The character with this number.
pub open spec fn char_of(n: nat) -> char {
    n as char
}

/// A character in its visible form. Tabs stay as they are.
pub open spec fn visible(c: char) -> Seq<char> {
    let n = c as nat;
    let low = n % 128;
    if n > 127 {
        if low < 32 {
            "M-^"@.push(char_of(low + 64))
        } else if low == 127 {
            "M-^?"@
        } else {
            "M-"@.push(char_of(low))
        }
    } else if n < 32 {
        if n == 9 {
            "\t"@
        } else {
            "^"@.push(char_of(n + 64))
        }
    } else if n == 127 {
        "^?"@
    } else {
        seq![c]
    }
}

/// The characters of a line as they are shown.
pub open spec fn shown(line: Seq<char>, o: CatOptions) -> Seq<char>
    decreases line.len(),
{
    if line.len() == 0 {
        Seq::empty()
    } else {
        shown(line.drop_last(), o) + if o.show_tabs && line.last() == '\t' {
            "^I"@
        } else if o.show_nonprinting {
            visible(line.last())
        } else {
            seq![line.last()]
        }
    }
}

/// The number of a line in its field.
pub open spec fn number_field(n: nat) -> Seq<char> {
    text::padding(text::decimal(n), ' ', 6) + text::decimal(n) + "\t"@
}

/// Whether a line is numbered.
pub open spec fn is_numbered(line: Seq<char>, o: CatOptions) -> bool {
    if o.number_nonblank {
        line.len() > 0
    } else {
        o.number
    }
}

/// What is printed of a line, and the state after it.
pub open spec fn line_done(line: Seq<char>, o: CatOptions, st: CatState) -> (Seq<char>, CatState) {
    let blank = line.len() == 0;
    if o.squeeze_blank && blank && st.prev_blank {
        (Seq::empty(), st)
    } else {
        let n = st.line_number.wrapping_add(1);
        let numbered = is_numbered(line, o);
        let body = shown(line, o) + if o.show_ends {
            "$"@
        } else {
            Seq::empty()
        };
        (
            text::terminated(
                if numbered {
                    number_field(n as nat) + body
                } else {
                    body
                },
            ),
            CatState {
                line_number: if numbered {
                    n
                } else {
                    st.line_number
                },
                prev_blank: blank,
            },
        )
    }
}

/// What is printed of lines, and the state after them.
pub open spec fn lines_done(lines: Seq<Seq<char>>, o: CatOptions, st: CatState) -> (
    Seq<char>,
    CatState,
)
    decreases lines.len(),
{
    if lines.len() == 0 {
        (Seq::empty(), st)
    } else {
        let (before, mid) = lines_done(lines.drop_last(), o, st);
        let (out, next) = line_done(lines.last(), o, mid);
        (before + out, next)
    }
}

/// Converts a character to its visible representation for -v option.
pub fn make_visible(ch: char) -> (r: String)
    ensures
        r@ == visible(ch),
{
    let n: u32 = ch as u32;
    let low: u8 = (n % 128) as u8;
    if n > 127 {
        if low < 32 {
            let mut s = "M-^".to_owned();
            s.push((low + 64) as char);
            s
        } else if low == 127 {
            "M-^?".to_owned()
        } else {
            let mut s = "M-".to_owned();
            s.push(low as char);
            s
        }
    } else if n < 32 {
        if n == 9 {
            "\t".to_owned()
        } else {
            let mut s = "^".to_owned();
            s.push((low + 64) as char);
            s
        }
    } else if n == 127 {
        "^?".to_owned()
    } else {
        let mut s = String::new();
        s.push(ch);
        assert(s@ =~= seq![ch]);
        s
    }
}

fn show(line: &str, opts: &CatOptions) -> (r: String)
    ensures
        r@ == shown(line@, *opts),
{
    let v = text::chars(line);
    let mut out = String::new();
    let mut i: usize = 0;
    while i < v.len()
        invariant
            i <= v@.len(),
            v@ == line@,
            out@ == shown(v@.take(i as int), *opts),
        decreases v.len() - i,
    {
        let ghost before = out@;
        let c = v[i];
        assert(v@.take(i + 1).drop_last() =~= v@.take(i as int));
        if opts.show_tabs && c == '\t' {
            out.append("^I");
        } else if opts.show_nonprinting {
            let t = make_visible(c);
            out.append(t.as_str());
        } else {
            out.push(c);
            assert(out@ =~= before + seq![c]);
        }
        i += 1;
    }
    assert(v@.take(i as int) =~= v@);
    out
}

/// Processes a single line with the given options.
pub fn process_line(out: &mut String, line: &str, opts: &CatOptions, state: &mut CatState)
    ensures
        ({
            let (o, next) = line_done(line@, *opts, *old(state));
            final(out)@ == old(out)@ + o && *final(state) == next
        }),
{
    let blank = line.is_empty();
    if opts.squeeze_blank && blank && state.prev_blank {
        assert(out@ + Seq::<char>::empty() =~= out@);
        return;
    }
    state.prev_blank = blank;
    let numbered = if opts.number_nonblank {
        !blank
    } else {
        opts.number
    };
    let mut body = show(line, opts);
    if opts.show_ends {
        body.append("$");
    } else {
        assert(body@ + Seq::<char>::empty() =~= body@);
    }
    let mut s = if numbered {
        state.line_number = state.line_number.wrapping_add(1);
        let mut field = text::right_aligned(state.line_number as u64, 6);
        field.append("\t");
        field.append(body.as_str());
        field
    } else {
        body
    };
    s.push('\n');
    out.append(s.as_str());
}

fn process_lines<FS>(
    env: &mut Environment<FS>,
    lines: &Vec<String>,
    opts: &CatOptions,
    state: &mut CatState,
)
    ensures
        ({
            let (out, next) = lines_done(lines.deep_view(), *opts, *old(state));
            final(env)@ == old(env)@.write(out) && *final(state) == next
        }),
{
    let mut out = String::new();
    let ghost all = lines.deep_view();
    let ghost start = *state;
    let mut i: usize = 0;
    assert(out@ =~= lines_done(all.take(0), *opts, start).0);
    while i < lines.len()
        invariant
            i <= lines@.len(),
            all == lines.deep_view(),
            (out@, *state) == lines_done(all.take(i as int), *opts, start),
        decreases lines.len() - i,
    {
        assert(all.take(i + 1).drop_last() =~= all.take(i as int));
        process_line(&mut out, lines[i].as_str(), opts, state);
        i += 1;
    }
    assert(all.take(i as int) =~= all);
    env.write_str(out.as_str());
}

/// What printing the files from `i` on comes to.
pub open spec fn files_done<FS: Filesystem>(
    v: env::EnvView<FS>,
    files: Seq<Seq<char>>,
    i: int,
    o: CatOptions,
    st: CatState,
    code: int,
) -> (env::EnvView<FS>, Result<int, env::ErrorView>)
    decreases files.len() - i,
{
    if i < 0 || i >= files.len() {
        (v, Ok(code))
    } else if files[i] == "-"@ {
        let (out, next) = lines_done(v.stdin, o, st);
        files_done(v.drained().write(out), files, i + 1, o, next, code)
    } else {
        let w = v.with_fs(v.fs.after(fs::Request::Read(files[i])));
        match v.fs.reads(files[i]) {
            Ok(t) => {
                let (out, next) = lines_done(text::lines(t), o, st);
                files_done(w.write(out), files, i + 1, o, next, code)
            },
            Err(e) => files_done(
                w.error_line("cat: "@ + files[i] + ": "@ + e.message),
                files,
                i + 1,
                o,
                st,
                1,
            ),
        }
    }
}

/// The options of the command.
pub open spec fn table() -> Seq<OptDef> {
    seq![
        OptDef { short: 'b', long: "", arity: Arity::Flag },
        OptDef { short: 'e', long: "", arity: Arity::Flag },
        OptDef { short: 'l', long: "", arity: Arity::Flag },
        OptDef { short: 'n', long: "", arity: Arity::Flag },
        OptDef { short: 's', long: "", arity: Arity::Flag },
        OptDef { short: 't', long: "", arity: Arity::Flag },
        OptDef { short: 'u', long: "", arity: Arity::Flag },
        OptDef { short: 'v', long: "", arity: Arity::Flag },
    ]
}

fn build_options() -> (r: Vec<OptDef>)
    ensures
        r@ == table(),
        options::all_declarable(options::definitions(r@)),
{
    let r = vec![
        OptDef { short: 'b', long: "", arity: Arity::Flag },
        OptDef { short: 'e', long: "", arity: Arity::Flag },
        OptDef { short: 'l', long: "", arity: Arity::Flag },
        OptDef { short: 'n', long: "", arity: Arity::Flag },
        OptDef { short: 's', long: "", arity: Arity::Flag },
        OptDef { short: 't', long: "", arity: Arity::Flag },
        OptDef { short: 'u', long: "", arity: Arity::Flag },
        OptDef { short: 'v', long: "", arity: Arity::Flag },
    ];
    proof {
        reveal_strlit("");
    }
    r
}

/// The settings that flags give: -e and -t imply -v; -l and -u change nothing.
pub open spec fn settings(p: options::ParsedView) -> CatOptions {
    CatOptions {
        number_nonblank: p.present('b'),
        show_ends: p.present('e'),
        number: p.present('n'),
        squeeze_blank: p.present('s'),
        show_tabs: p.present('t'),
        show_nonprinting: p.present('v') || p.present('e') || p.present('t'),
    }
}

/// What the command does once its options are known.
pub open spec fn ran<FS: Filesystem>(v: env::EnvView<FS>, p: options::ParsedView) -> (
    env::EnvView<FS>,
    Result<int, env::ErrorView>,
) {
    let first = CatState { line_number: 0, prev_blank: false };
    if p.free.len() == 0 {
        (v.drained().write(lines_done(v.stdin, settings(p), first).0), Ok(0))
    } else {
        files_done(v, p.free, 0, settings(p), first, 0)
    }
}

/// Prints with the options that a command line gave.
pub fn run<FS: Filesystem>(env: &mut Environment<FS>, p: &Parsed) -> (r: Result<ExitCode, Error>)
    ensures
        (final(env)@, env::outcome(r)) == ran(old(env)@, p@),
{
    let show_ends = p.present('e');
    let show_tabs = p.present('t');
    let opts = CatOptions {
        number_nonblank: p.present('b'),
        show_ends,
        number: p.present('n'),
        squeeze_blank: p.present('s'),
        show_tabs,
        show_nonprinting: p.present('v') || show_ends || show_tabs,
    };
    let mut state = CatState { line_number: 0, prev_blank: false };
    if p.free.len() == 0 {
        let lines = env.stdin.read_all();
        process_lines(env, &lines, &opts, &mut state);
        return Ok(ExitCode::new(0));
    }
    let ghost all = p.free.deep_view();
    let ghost first = state;
    let mut code: i32 = 0;
    let mut i: usize = 0;
    while i < p.free.len()
        invariant
            i <= p.free@.len(),
            all == p.free.deep_view(),
            files_done(env@, all, i as int, opts, state, code as int) == files_done(
                old(env)@,
                all,
                0,
                opts,
                first,
                0,
            ),
        decreases p.free.len() - i,
    {
        let file = p.free[i].clone();
        if text::same(file.as_str(), "-") {
            let lines = env.stdin.read_all();
            process_lines(env, &lines, &opts, &mut state);
        } else {
            match env.fs.read_to_string(file.as_str()) {
                Ok(contents) => {
                    let lines = text::lines_of(contents.as_str());
                    process_lines(env, &lines, &opts, &mut state);
                },
                Err(FsError::Io(e)) => {
                    let mut m = "cat: ".to_owned();
                    m.append(file.as_str());
                    m.append(": ");
                    m.append(e.message.as_str());
                    env.error_line(m.as_str());
                    code = 1;
                },
            }
        }
        i += 1;
    }
    Ok(ExitCode::new(code))
}

/// What the command does.
pub open spec fn spec_bin<FS: Filesystem>(v: env::EnvView<FS>) -> (
    env::EnvView<FS>,
    Result<int, env::ErrorView>,
) {
    match options::parsed(table(), v.args.skip(1)) {
        Ok(p) => ran(v, p),
        Err(message) => (v.error_line("cat: "@ + message), Ok(1)),
    }
}

/// The cat builtin: concatenate and print files or stdin.
pub fn bin<FS: Filesystem>(env: &mut Environment<FS>) -> (r: Result<ExitCode, Error>)
    requires
        old(env)@.args.len() > 0,
    ensures
        (final(env)@, env::outcome(r)) == spec_bin(old(env)@),
{
    let opts = build_options();
    match options::parse(&opts, &env.args) {
        Ok(p) => run(env, &p),
        Err(e) => {
            let mut m = "cat: ".to_owned();
            m.append(e.as_str());
            env.error_line(m.as_str());
            Ok(ExitCode::new(1))
        },
    }
}

// ---------------------------------------------------------------------------------------------
// Laws
// ---------------------------------------------------------------------------------------------

pub open spec fn plain() -> CatOptions {
    CatOptions {
        number_nonblank: false,
        show_ends: false,
        number: false,
        squeeze_blank: false,
        show_tabs: false,
        show_nonprinting: false,
    }
}

proof fn lemma_shown_plain(line: Seq<char>)
    ensures
        shown(line, plain()) == line,
    decreases line.len(),
{
    if line.len() > 0 {
        lemma_shown_plain(line.drop_last());
        assert(line.drop_last() + seq![line.last()] =~= line);
    } else {
        assert(shown(line, plain()) =~= line);
    }
}

/// Without options lines come out as they are.
pub proof fn lemma_plain_copies(lines: Seq<Seq<char>>, st: CatState)
    ensures
        lines_done(lines, plain(), st).0 == text::unlines(lines),
    decreases lines.len(),
{
    if lines.len() > 0 {
        lemma_plain_copies(lines.drop_last(), st);
        lemma_shown_plain(lines.last());
        assert(lines.last() + Seq::<char>::empty() =~= lines.last());
    }
}

/// With -s no line is dropped but blank ones behind blank ones.
pub proof fn lemma_squeeze_drops_blanks(line: Seq<char>, o: CatOptions, st: CatState)
    ensures
        line_done(line, o, st).0.len() == 0 <==> o.squeeze_blank && line.len() == 0
            && st.prev_blank,
{
}

/// With -n the numbers count the lines that are printed.
pub proof fn lemma_numbers_count(lines: Seq<Seq<char>>, o: CatOptions, st: CatState)
    requires
        o.number,
        !o.number_nonblank,
        !o.squeeze_blank,
        st.line_number + lines.len() <= usize::MAX,
    ensures
        lines_done(lines, o, st).1.line_number == st.line_number + lines.len(),
    decreases lines.len(),
{
    if lines.len() > 0 {
        lemma_numbers_count(lines.drop_last(), o, st);
    }
}

/// Whether line `i` is printed: with -s an empty line behind an empty one is not.
pub open spec fn is_kept(lines: Seq<Seq<char>>, i: int, o: CatOptions) -> bool {
    !(o.squeeze_blank && i > 0 && lines[i].len() == 0 && lines[i - 1].len() == 0)
}

/// Whether line `i` has a number: with -b every line that is not empty, otherwise with -n every line.
pub open spec fn has_number(lines: Seq<Seq<char>>, i: int, o: CatOptions) -> bool {
    is_kept(lines, i, o) && if o.number_nonblank {
        lines[i].len() > 0
    } else {
        o.number
    }
}

/// How many of the first `k` lines have a number.
pub open spec fn numbers_before(lines: Seq<Seq<char>>, k: int, o: CatOptions) -> nat
    decreases k,
{
    if k <= 0 {
        0
    } else {
        numbers_before(lines, k - 1, o) + if has_number(lines, k - 1, o) {
            1nat
        } else {
            0nat
        }
    }
}

/// A character in visible form: control characters as a caret and the character 64 places further,
/// the last of the first 128 as a caret and a question mark, and all beyond them as `M-` and what
/// their lowest seven bits stand for. Tabs stay as they are but for the last case.
pub open spec fn made_visible(c: char) -> Seq<char> {
    let n = c as int;
    let low = n % 128;
    let caret = if low == 127 {
        seq!['^', '?']
    } else if low < 32 {
        seq!['^', ((low + 64) as nat) as char]
    } else {
        seq![(low as nat) as char]
    };
    if n >= 128 {
        seq!['M', '-'] + caret
    } else if c == '\t' {
        seq![c]
    } else {
        caret
    }
}

/// What is printed for a character.
pub open spec fn printed_char(c: char, o: CatOptions) -> Seq<char> {
    if o.show_tabs && c == '\t' {
        seq!['^', 'I']
    } else if o.show_nonprinting {
        made_visible(c)
    } else {
        seq![c]
    }
}

/// What is printed of line `i`, when `first` lines were numbered before: its number, with blanks up
/// to six places before it and a tab behind it, its characters, and with -e a dollar sign.
pub open spec fn printed_line(lines: Seq<Seq<char>>, i: int, o: CatOptions, first: nat) -> Seq<char> {
    let d = text::decimal(first + numbers_before(lines, i, o) + 1);
    (if has_number(lines, i, o) {
        Seq::new(
            if d.len() < 6 {
                (6 - d.len()) as nat
            } else {
                0
            },
            |k: int| ' ',
        ) + d + seq!['\t']
    } else {
        Seq::empty()
    }) + text::concat(Seq::new(lines[i].len(), |k: int| printed_char(lines[i][k], o))) + (if o.show_ends {
        seq!['$']
    } else {
        Seq::empty()
    })
}

/// What is printed of the first `k` lines.
pub open spec fn printed_lines(
    lines: Seq<Seq<char>>,
    k: int,
    o: CatOptions,
    first: nat,
) -> Seq<Seq<char>>
    decreases k,
{
    if k <= 0 {
        Seq::empty()
    } else if is_kept(lines, k - 1, o) {
        printed_lines(lines, k - 1, o, first).push(printed_line(lines, k - 1, o, first))
    } else {
        printed_lines(lines, k - 1, o, first)
    }
}

proof fn lemma_made_visible(c: char)
    ensures
        visible(c) == made_visible(c),
{
    reveal_strlit("M-^");
    reveal_strlit("M-^?");
    reveal_strlit("M-");
    reveal_strlit("\t");
    reveal_strlit("^");
    reveal_strlit("^?");
    assert(visible(c) =~= made_visible(c));
}

proof fn lemma_printed_chars(line: Seq<char>, o: CatOptions)
    ensures
        shown(line, o) == text::concat(Seq::new(line.len(), |k: int| printed_char(line[k], o))),
    decreases line.len(),
{
    let all = Seq::new(line.len(), |k: int| printed_char(line[k], o));
    if line.len() > 0 {
        let front = line.drop_last();
        lemma_printed_chars(front, o);
        assert(all.drop_last() =~= Seq::new(front.len(), |k: int| printed_char(front[k], o)));
        lemma_made_visible(line.last());
        reveal_strlit("^I");
        assert("^I"@ =~= seq!['^', 'I']);
        assert(all.last() == printed_char(line.last(), o));
    }
}

proof fn lemma_lines_printed(lines: Seq<Seq<char>>, k: int, o: CatOptions, st: CatState)
    requires
        !st.prev_blank,
        0 <= k <= lines.len(),
        st.line_number + lines.len() < usize::MAX,
    ensures
        ({
            let (out, next) = lines_done(lines.take(k), o, st);
            &&& out == text::unlines(printed_lines(lines, k, o, st.line_number as nat))
            &&& next.line_number == st.line_number + numbers_before(lines, k, o)
            &&& next.prev_blank == (k > 0 && lines[k - 1].len() == 0)
            &&& numbers_before(lines, k, o) <= k
        }),
    decreases k,
{
    let first = st.line_number as nat;
    if k > 0 {
        lemma_lines_printed(lines, k - 1, o, st);
        assert(lines.take(k).drop_last() =~= lines.take(k - 1));
        let line = lines[k - 1];
        assert(lines.take(k).last() == line);
        let (before, mid) = lines_done(lines.take(k - 1), o, st);
        let (out, _) = line_done(line, o, mid);
        if is_kept(lines, k - 1, o) {
            lemma_printed_chars(line, o);
            reveal_strlit("\t");
            reveal_strlit("$");
            assert(out =~= printed_line(lines, k - 1, o, first).push('\n'));
            let shorter = printed_lines(lines, k - 1, o, first);
            assert(printed_lines(lines, k, o, first).drop_last() =~= shorter);
        } else {
            assert(before + out =~= before);
        }
    } else {
        assert(lines.take(0) =~= Seq::<Seq<char>>::empty());
    }
}

/// What is printed of lines: all of them, but with -s of adjacent empty ones only the first; each
/// behind its number where it has one, and with its characters in the form that is asked for. Numbers
/// count the lines that have one.
pub proof fn lemma_output_by_lines(lines: Seq<Seq<char>>, o: CatOptions, st: CatState)
    requires
        !st.prev_blank,
        st.line_number + lines.len() < usize::MAX,
    ensures
        lines_done(lines, o, st).0 == text::unlines(
            printed_lines(lines, lines.len() as int, o, st.line_number as nat),
        ),
{
    lemma_lines_printed(lines, lines.len() as int, o, st);
    assert(lines.take(lines.len() as int) =~= lines);
}

proof fn lemma_lines_done_in_parts(a: Seq<Seq<char>>, b: Seq<Seq<char>>, o: CatOptions, st: CatState)
    ensures
        ({
            let (x, mid) = lines_done(a, o, st);
            let (y, next) = lines_done(b, o, mid);
            lines_done(a + b, o, st) == (x + y, next)
        }),
    decreases b.len(),
{
    let (x, mid) = lines_done(a, o, st);
    if b.len() == 0 {
        assert(a + b =~= a);
        assert(x + Seq::<char>::empty() =~= x);
    } else {
        lemma_lines_done_in_parts(a, b.drop_last(), o, st);
        assert((a + b).drop_last() =~= a + b.drop_last());
        assert((a + b).last() == b.last());
        let (y, w) = lines_done(b.drop_last(), o, mid);
        let (z, _) = line_done(b.last(), o, w);
        assert(x + y + z =~= x + (y + z));
    }
}

proof fn lemma_files_from<FS: Filesystem>(
    v: env::EnvView<FS>,
    s: FS,
    out: Seq<char>,
    err: Seq<char>,
    files: Seq<Seq<char>>,
    i: int,
    o: CatOptions,
    st: CatState,
    first: CatState,
    code: int,
)
    requires
        0 <= i <= files.len(),
        forall|k: int| 0 <= k < files.len() ==> #[trigger] files[k] != "-"@,
        !v.merged,
        v.fs == fs::after_reads(s, files, i),
        (v.out, st) == (
            out + lines_done(fs::lines_read(s, files, i), o, first).0,
            lines_done(fs::lines_read(s, files, i), o, first).1,
        ),
        v.err == err + text::unlines(fs::complaints(s, seq!['c', 'a', 't'], files, i)),
        code == if fs::any_unread(s, files, i) {
            1int
        } else {
            0int
        },
    ensures
        ({
            let n = files.len() as int;
            let (w, r) = files_done(v, files, i, o, st, code);
            &&& w.out == out + lines_done(fs::lines_read(s, files, n), o, first).0
            &&& w.err == err + text::unlines(fs::complaints(s, seq!['c', 'a', 't'], files, n))
            &&& r == Ok::<int, env::ErrorView>(
                if fs::any_unread(s, files, n) {
                    1int
                } else {
                    0int
                },
            )
        }),
    decreases files.len() - i,
{
    if i < files.len() {
        let w = v.with_fs(v.fs.after(fs::Request::Read(files[i])));
        let before = fs::lines_read(s, files, i);
        assert(files[i] != "-"@);
        assert(fs::read_at(s, files, i) == v.fs.reads(files[i]));
        match v.fs.reads(files[i]) {
            Ok(t) => {
                let (x, next) = lines_done(text::lines(t), o, st);
                lemma_lines_done_in_parts(before, text::lines(t), o, first);
                assert(v.out + x =~= out + lines_done(before + text::lines(t), o, first).0);
                assert(fs::any_unread(s, files, i + 1) == fs::any_unread(s, files, i)) by {
                    fs::lemma_unread_ok(s, files, i);
                }
                lemma_files_from(w.write(x), s, out, err, files, i + 1, o, next, first, code);
            },
            Err(e) => {
                reveal_strlit("cat: ");
                reveal_strlit(": ");
                let m = "cat: "@ + files[i] + ": "@ + e.message;
                let c = seq!['c', 'a', 't'];
                assert(m =~= c + seq![':', ' '] + files[i] + seq![':', ' '] + e.message);
                let told = fs::complaints(s, c, files, i);
                assert(fs::complaints(s, c, files, i + 1).drop_last() =~= told);
                assert(before + Seq::<Seq<char>>::empty() =~= before);
                let y = w.error_line(m);
                assert(y.err =~= err + text::unlines(told.push(m)));
                assert(fs::any_unread(s, files, i + 1)) by {
                    assert(fs::read_at(s, files, i) is Err);
                }
                lemma_files_from(y, s, out, err, files, i + 1, o, st, first, 1);
            },
        }
    }
}

/// Files are printed one after another as if they were one. Each that cannot be read is named on the
/// error stream with the reason, and makes the exit code 1, and the others are printed all the same.
pub proof fn lemma_files_concatenated<FS: Filesystem>(
    v: env::EnvView<FS>,
    files: Seq<Seq<char>>,
    o: CatOptions,
    st: CatState,
)
    requires
        forall|k: int| 0 <= k < files.len() ==> #[trigger] files[k] != "-"@,
        !v.merged,
    ensures
        ({
            let n = files.len() as int;
            let (w, r) = files_done(v, files, 0, o, st, 0);
            &&& w.out == v.out + lines_done(fs::lines_read(v.fs, files, n), o, st).0
            &&& w.err == v.err + text::unlines(
                fs::complaints(v.fs, seq!['c', 'a', 't'], files, n),
            )
            &&& r == Ok::<int, env::ErrorView>(
                if fs::any_unread(v.fs, files, n) {
                    1int
                } else {
                    0int
                },
            )
        }),
{
    assert(v.out + Seq::<char>::empty() =~= v.out);
    assert(v.err + Seq::<char>::empty() =~= v.err);
    lemma_files_from(v, v.fs, v.out, v.err, files, 0, o, st, st, 0);
}

/// -e and -t show characters as -v does.
pub proof fn lemma_ends_and_tabs_imply_visible(p: options::ParsedView)
    ensures
        settings(p).show_nonprinting <==> p.present('v') || settings(p).show_ends
            || settings(p).show_tabs,
{
}

} // verus!
