//! The comm builtin: select or reject lines common to two files.

use crate::env::{Environment, Error, ExitCode};
use crate::env;
use crate::fs::{ErrorKind, Filesystem, FsError};
use crate::fs;
use crate::options::{Arity, OptDef, Parsed};
use crate::options;
use crate::order::Order;
use crate::order;
use crate::text;
use vstd::prelude::*;

verus! {

broadcast use vstd::string::group_string_axioms;

/// Options for the comm command.
#[derive(Debug, Clone, Copy, PartialEq, Eq, Structural)]
pub struct CommOptions {
    /// Suppress printing of column 1 (lines only in file1).
    pub suppress_col1: bool,
    /// Suppress printing of column 2 (lines only in file2).
    pub suppress_col2: bool,
    /// Suppress printing of column 3 (lines common to both).
    pub suppress_col3: bool,
    /// Case insensitive comparison.
    pub ignore_case: bool,
}

/// How two lines compare.
pub open spec fn line_order(a: Seq<char>, b: Seq<char>, ignore_case: bool) -> Order {
    if ignore_case {
        order::text_order(text::lower(a), text::lower(b))
    } else {
        order::text_order(a, b)
    }
}

/// Where a line belongs.
pub ghost enum Column {
    First,
    Second,
    Both,
}

/// The lines from `i` on of the first file and from `j` on of the second, merged, each with the
/// column where it belongs. The lesser of two lines comes first; of two equal lines the first
/// file's stands for both.
pub open spec fn columns(
    a: Seq<Seq<char>>,
    b: Seq<Seq<char>>,
    i: int,
    j: int,
    ignore_case: bool,
) -> Seq<(Column, Seq<char>)>
    decreases a.len() - i + b.len() - j,
{
    if 0 <= i < a.len() && 0 <= j < b.len() {
        match line_order(a[i], b[j], ignore_case) {
            Order::Less => seq![(Column::First, a[i])] + columns(a, b, i + 1, j, ignore_case),
            Order::Greater => seq![(Column::Second, b[j])] + columns(a, b, i, j + 1, ignore_case),
            Order::Equal => seq![(Column::Both, a[i])] + columns(
                a,
                b,
                i + 1,
                j + 1,
                ignore_case,
            ),
        }
    } else if 0 <= i < a.len() && j == b.len() {
        seq![(Column::First, a[i])] + columns(a, b, i + 1, j, ignore_case)
    } else if 0 <= j < b.len() && i == a.len() {
        seq![(Column::Second, b[j])] + columns(a, b, i, j + 1, ignore_case)
    } else {
        Seq::empty()
    }
}

/// What is printed of a line: nothing where its column is suppressed, else the line behind a tab
/// for each column before its own that is not.
pub open spec fn placed(c: Column, line: Seq<char>, o: CommOptions) -> Seq<char> {
    match c {
        Column::First => if o.suppress_col1 {
            Seq::empty()
        } else {
            text::terminated(line)
        },
        Column::Second => if o.suppress_col2 {
            Seq::empty()
        } else if o.suppress_col1 {
            text::terminated(line)
        } else {
            text::terminated("\t"@ + line)
        },
        Column::Both => if o.suppress_col3 {
            Seq::empty()
        } else if o.suppress_col1 && o.suppress_col2 {
            text::terminated(line)
        } else if o.suppress_col1 || o.suppress_col2 {
            text::terminated("\t"@ + line)
        } else {
            text::terminated("\t\t"@ + line)
        },
    }
}

/// What is printed of lines.
pub open spec fn printed(lines: Seq<(Column, Seq<char>)>, o: CommOptions) -> Seq<char>
    decreases lines.len(),
{
    if lines.len() == 0 {
        Seq::empty()
    } else {
        printed(lines.drop_last(), o) + placed(lines.last().0, lines.last().1, o)
    }
}

/// What comparing two texts prints.
pub open spec fn compared(a: Seq<char>, b: Seq<char>, o: CommOptions) -> Seq<char> {
    printed(columns(text::lines(a), text::lines(b), 0, 0, o.ignore_case), o)
}

/// Compares two lines, optionally case-insensitive.
pub fn compare_lines(a: &str, b: &str, ignore_case: bool) -> (r: Order)
    ensures
        r == line_order(a@, b@, ignore_case),
{
    if ignore_case {
        let x = text::to_lower(a);
        let y = text::to_lower(b);
        order::compare_texts(x.as_str(), y.as_str())
    } else {
        order::compare_texts(a, b)
    }
}

fn add_first(out: &mut String, line: &str, o: &CommOptions)
    ensures
        final(out)@ == old(out)@ + placed(Column::First, line@, *o),
{
    if !o.suppress_col1 {
        let mut s = line.to_owned();
        s.push('\n');
        out.append(s.as_str());
    } else {
        assert(out@ + Seq::<char>::empty() =~= out@);
    }
}

fn add_second(out: &mut String, line: &str, o: &CommOptions)
    ensures
        final(out)@ == old(out)@ + placed(Column::Second, line@, *o),
{
    if !o.suppress_col2 {
        let mut s = if o.suppress_col1 {
            line.to_owned()
        } else {
            let mut t = "\t".to_owned();
            t.append(line);
            t
        };
        s.push('\n');
        out.append(s.as_str());
    } else {
        assert(out@ + Seq::<char>::empty() =~= out@);
    }
}

fn add_both(out: &mut String, line: &str, o: &CommOptions)
    ensures
        final(out)@ == old(out)@ + placed(Column::Both, line@, *o),
{
    if !o.suppress_col3 {
        let mut s = if o.suppress_col1 && o.suppress_col2 {
            line.to_owned()
        } else if o.suppress_col1 || o.suppress_col2 {
            let mut t = "\t".to_owned();
            t.append(line);
            t
        } else {
            let mut t = "\t\t".to_owned();
            t.append(line);
            t
        };
        s.push('\n');
        out.append(s.as_str());
    } else {
        assert(out@ + Seq::<char>::empty() =~= out@);
    }
}

proof fn lemma_printed_push(done: Seq<(Column, Seq<char>)>, x: (Column, Seq<char>), o: CommOptions)
    ensures
        printed(done.push(x), o) == printed(done, o) + placed(x.0, x.1, o),
{
    assert(done.push(x).drop_last() =~= done);
}

/// Processes the comm algorithm on two file contents.
pub fn process_comm<FS>(env: &mut Environment<FS>, file1: &str, file2: &str, opts: &CommOptions)
    ensures
        final(env)@ == old(env)@.write(compared(file1@, file2@, *opts)),
{
    let a = text::lines_of(file1);
    let b = text::lines_of(file2);
    let ghost x = a.deep_view();
    let ghost y = b.deep_view();
    let ghost total = columns(x, y, 0, 0, opts.ignore_case);
    let ghost mut done: Seq<(Column, Seq<char>)> = Seq::empty();
    let mut out = String::new();
    let mut i: usize = 0;
    let mut j: usize = 0;
    assert(done + total =~= total);
    while i < a.len() || j < b.len()
        invariant
            i <= a@.len(),
            j <= b@.len(),
            x == a.deep_view(),
            y == b.deep_view(),
            x.len() == a@.len(),
            y.len() == b@.len(),
            done + columns(x, y, i as int, j as int, opts.ignore_case) == total,
            out@ == printed(done, *opts),
        decreases a.len() - i + b.len() - j,
    {
        let ghost before = done;
        let ghost i0 = i as int;
        let ghost j0 = j as int;
        let side = if j >= b.len() {
            Order::Less
        } else if i >= a.len() {
            Order::Greater
        } else {
            compare_lines(a[i].as_str(), b[j].as_str(), opts.ignore_case)
        };
        match side {
            Order::Less => {
                add_first(&mut out, a[i].as_str(), opts);
                proof {
                    done = done.push((Column::First, x[i as int]));
                    lemma_printed_push(before, (Column::First, x[i as int]), *opts);
                }
                i += 1;
            },
            Order::Greater => {
                add_second(&mut out, b[j].as_str(), opts);
                proof {
                    done = done.push((Column::Second, y[j as int]));
                    lemma_printed_push(before, (Column::Second, y[j as int]), *opts);
                }
                j += 1;
            },
            Order::Equal => {
                add_both(&mut out, a[i].as_str(), opts);
                proof {
                    done = done.push((Column::Both, x[i as int]));
                    lemma_printed_push(before, (Column::Both, x[i as int]), *opts);
                }
                i += 1;
                j += 1;
            },
        }
        proof {
            let rest = columns(x, y, i as int, j as int, opts.ignore_case);
            assert(done + rest =~= before + (seq![done.last()] + rest));
        }
    }
    assert(done + Seq::<(Column, Seq<char>)>::empty() =~= done);
    env.write_str(out.as_str());
}

/// What reading a file, or standard input for `-`, comes to: nothing where there is no file.
pub open spec fn source_read<FS: Filesystem>(v: env::EnvView<FS>, path: Seq<char>) -> (
    env::EnvView<FS>,
    Result<Option<Seq<char>>, env::ErrorView>,
) {
    if path == "-"@ {
        (v.drained(), Ok(Some(text::ended(v.stdin, '\n'))))
    } else {
        let w = v.with_fs(v.fs.after(fs::Request::Read(path)));
        match v.fs.reads(path) {
            Ok(t) => (w, Ok(Some(t))),
            Err(e) => if e.kind == ErrorKind::NotFound {
                (w, Ok(None))
            } else {
                (w, Err(env::ErrorView::Io(e)))
            },
        }
    }
}

pub open spec fn source_result(r: Result<Option<String>, Error>) -> Result<
    Option<Seq<char>>,
    env::ErrorView,
> {
    match r {
        Ok(o) => Ok(options::opt_text(o)),
        Err(e) => Err(e@),
    }
}

/// Reads file contents, or stdin if path is "-". Returns None if file not found.
pub fn read_file_or_stdin<FS: Filesystem>(env: &mut Environment<FS>, path: &str) -> (r: Result<
    Option<String>,
    Error,
>)
    ensures
        (final(env)@, source_result(r)) == source_read(old(env)@, path@),
{
    if text::same(path, "-") {
        let lines = env.stdin.read_all();
        let mut contents = String::new();
        text::add_ended(&mut contents, &lines, '\n');
        assert(contents@ =~= text::ended(old(env)@.stdin, '\n'));
        Ok(Some(contents))
    } else {
        match env.fs.read_to_string(path) {
            Ok(contents) => Ok(Some(contents)),
            Err(FsError::Io(e)) => if e.kind == ErrorKind::NotFound {
                Ok(None)
            } else {
                Err(Error::Io(e))
            },
        }
    }
}

/// The options of the command.
pub open spec fn table() -> Seq<OptDef> {
    seq![
        OptDef { short: '1', long: "", arity: Arity::Flag },
        OptDef { short: '2', long: "", arity: Arity::Flag },
        OptDef { short: '3', long: "", arity: Arity::Flag },
        OptDef { short: 'i', long: "", arity: Arity::Flag },
    ]
}

fn build_options() -> (r: Vec<OptDef>)
    ensures
        r@ == table(),
        options::all_declarable(options::definitions(r@)),
{
    let r = vec![
        OptDef { short: '1', long: "", arity: Arity::Flag },
        OptDef { short: '2', long: "", arity: Arity::Flag },
        OptDef { short: '3', long: "", arity: Arity::Flag },
        OptDef { short: 'i', long: "", arity: Arity::Flag },
    ];
    proof {
        reveal_strlit("");
    }
    r
}

/// The settings that flags give.
pub open spec fn settings(p: options::ParsedView) -> CommOptions {
    CommOptions {
        suppress_col1: p.present('1'),
        suppress_col2: p.present('2'),
        suppress_col3: p.present('3'),
        ignore_case: p.present('i'),
    }
}

pub open spec fn missing(path: Seq<char>) -> Seq<char> {
    "comm: "@ + path + ": No such file or directory"@
}

/// What the command does once its options are known.
pub open spec fn ran<FS: Filesystem>(v: env::EnvView<FS>, p: options::ParsedView) -> (
    env::EnvView<FS>,
    Result<int, env::ErrorView>,
) {
    if p.free.len() != 2 {
        (v.error_line("usage: comm [-123i] file1 file2"@), Ok(1))
    } else {
        match source_read(v, p.free[0]) {
            (w, Err(e)) => (w, Err(e)),
            (w, Ok(a)) => match source_read(w, p.free[1]) {
                (x, Err(e)) => (x, Err(e)),
                (x, Ok(b)) => if a is None {
                    (x.error_line(missing(p.free[0])), Ok(1))
                } else if b is None {
                    (x.error_line(missing(p.free[1])), Ok(1))
                } else {
                    (x.write(compared(a->0, b->0, settings(p))), Ok(0))
                },
            },
        }
    }
}

fn report_missing<FS>(env: &mut Environment<FS>, path: &str)
    ensures
        final(env)@ == old(env)@.error_line(missing(path@)),
{
    let mut m = "comm: ".to_owned();
    m.append(path);
    m.append(": No such file or directory");
    env.error_line(m.as_str());
}

/// Compares with the options that a command line gave.
pub fn run<FS: Filesystem>(env: &mut Environment<FS>, p: &Parsed) -> (r: Result<ExitCode, Error>)
    ensures
        (final(env)@, env::outcome(r)) == ran(old(env)@, p@),
{
    if p.free.len() != 2 {
        env.error_line("usage: comm [-123i] file1 file2");
        return Ok(ExitCode::new(1));
    }
    let opts = CommOptions {
        suppress_col1: p.present('1'),
        suppress_col2: p.present('2'),
        suppress_col3: p.present('3'),
        ignore_case: p.present('i'),
    };
    let a = match read_file_or_stdin(env, p.free[0].as_str()) {
        Ok(x) => x,
        Err(e) => {
            return Err(e);
        },
    };
    let b = match read_file_or_stdin(env, p.free[1].as_str()) {
        Ok(x) => x,
        Err(e) => {
            return Err(e);
        },
    };
    match (a, b) {
        (Some(x), Some(y)) => {
            process_comm(env, x.as_str(), y.as_str(), &opts);
            Ok(ExitCode::new(0))
        },
        (None, _) => {
            report_missing(env, p.free[0].as_str());
            Ok(ExitCode::new(1))
        },
        (_, None) => {
            report_missing(env, p.free[1].as_str());
            Ok(ExitCode::new(1))
        },
    }
}

/// What the command does.
pub open spec fn spec_bin<FS: Filesystem>(v: env::EnvView<FS>) -> (
    env::EnvView<FS>,
    Result<int, env::ErrorView>,
) {
    match options::parsed(table(), v.args.skip(1)) {
        Ok(p) => ran(v, p),
        Err(message) => (v.error_line("comm: "@ + message), Ok(1)),
    }
}

/// The comm builtin: select or reject lines common to two files.
pub fn bin<FS: Filesystem>(env: &mut Environment<FS>) -> (r: Result<ExitCode, Error>)
    requires
        old(env)@.args.len() > 0,
    ensures
        (final(env)@, env::outcome(r)) == spec_bin(old(env)@),
{
    let opts = build_options();
    match options::parse(&opts, &env.args) {
        Ok(p) => run(env, &p),
        Err(e) => {
            let mut m = "comm: ".to_owned();
            m.append(e.as_str());
            env.error_line(m.as_str());
            Ok(ExitCode::new(1))
        },
    }
}

// ---------------------------------------------------------------------------------------------
// Laws
// ---------------------------------------------------------------------------------------------

/// The lines in these columns.
pub open spec fn lines_in(s: Seq<(Column, Seq<char>)>, c: Column, d: Column) -> Seq<Seq<char>>
    decreases s.len(),
{
    if s.len() == 0 {
        Seq::empty()
    } else if s[0].0 == c || s[0].0 == d {
        seq![s[0].1] + lines_in(s.skip(1), c, d)
    } else {
        lines_in(s.skip(1), c, d)
    }
}

proof fn lemma_first_column(
    a: Seq<Seq<char>>,
    b: Seq<Seq<char>>,
    i: int,
    j: int,
    ignore_case: bool,
)
    requires
        0 <= i <= a.len(),
        0 <= j <= b.len(),
    ensures
        lines_in(columns(a, b, i, j, ignore_case), Column::First, Column::Both) == a.skip(i),
    decreases a.len() - i + b.len() - j,
{
    let s = columns(a, b, i, j, ignore_case);
    if i < a.len() && j < b.len() {
        match line_order(a[i], b[j], ignore_case) {
            Order::Less => {
                lemma_first_column(a, b, i + 1, j, ignore_case);
                assert(s.skip(1) =~= columns(a, b, i + 1, j, ignore_case));
                assert(a.skip(i) =~= seq![a[i]] + a.skip(i + 1));
            },
            Order::Greater => {
                lemma_first_column(a, b, i, j + 1, ignore_case);
                assert(s.skip(1) =~= columns(a, b, i, j + 1, ignore_case));
            },
            Order::Equal => {
                lemma_first_column(a, b, i + 1, j + 1, ignore_case);
                assert(s.skip(1) =~= columns(a, b, i + 1, j + 1, ignore_case));
                assert(a.skip(i) =~= seq![a[i]] + a.skip(i + 1));
            },
        }
    } else if i < a.len() {
        lemma_first_column(a, b, i + 1, j, ignore_case);
        assert(s.skip(1) =~= columns(a, b, i + 1, j, ignore_case));
        assert(a.skip(i) =~= seq![a[i]] + a.skip(i + 1));
    } else if j < b.len() {
        lemma_first_column(a, b, i, j + 1, ignore_case);
        assert(s.skip(1) =~= columns(a, b, i, j + 1, ignore_case));
    } else {
        assert(a.skip(i) =~= Seq::<Seq<char>>::empty());
    }
}

proof fn lemma_second_column(a: Seq<Seq<char>>, b: Seq<Seq<char>>, i: int, j: int)
    requires
        0 <= i <= a.len(),
        0 <= j <= b.len(),
    ensures
        lines_in(columns(a, b, i, j, false), Column::Second, Column::Both) == b.skip(j),
    decreases a.len() - i + b.len() - j,
{
    let s = columns(a, b, i, j, false);
    if i < a.len() && j < b.len() {
        match line_order(a[i], b[j], false) {
            Order::Less => {
                lemma_second_column(a, b, i + 1, j);
                assert(s.skip(1) =~= columns(a, b, i + 1, j, false));
            },
            Order::Greater => {
                lemma_second_column(a, b, i, j + 1);
                assert(s.skip(1) =~= columns(a, b, i, j + 1, false));
                assert(b.skip(j) =~= seq![b[j]] + b.skip(j + 1));
            },
            Order::Equal => {
                order::lemma_text_order_equal(a[i], b[j]);
                lemma_second_column(a, b, i + 1, j + 1);
                assert(s.skip(1) =~= columns(a, b, i + 1, j + 1, false));
                assert(b.skip(j) =~= seq![b[j]] + b.skip(j + 1));
            },
        }
    } else if i < a.len() {
        lemma_second_column(a, b, i + 1, j);
        assert(s.skip(1) =~= columns(a, b, i + 1, j, false));
    } else if j < b.len() {
        lemma_second_column(a, b, i, j + 1);
        assert(s.skip(1) =~= columns(a, b, i, j + 1, false));
        assert(b.skip(j) =~= seq![b[j]] + b.skip(j + 1));
    } else {
        assert(b.skip(j) =~= Seq::<Seq<char>>::empty());
    }
}

/// Every line is in a column, once and in its order: the first and the third column together are
/// the first file.
pub proof fn lemma_first_file_is_kept(a: Seq<Seq<char>>, b: Seq<Seq<char>>, ignore_case: bool)
    ensures
        lines_in(columns(a, b, 0, 0, ignore_case), Column::First, Column::Both) == a,
{
    lemma_first_column(a, b, 0, 0, ignore_case);
    assert(a.skip(0) =~= a);
}

/// The second and the third column together are the second file, where case counts.
pub proof fn lemma_second_file_is_kept(a: Seq<Seq<char>>, b: Seq<Seq<char>>)
    ensures
        lines_in(columns(a, b, 0, 0, false), Column::Second, Column::Both) == b,
{
    lemma_second_column(a, b, 0, 0);
    assert(b.skip(0) =~= b);
}

/// A file compared with itself has all its lines in the third column.
pub proof fn lemma_same_file(a: Seq<Seq<char>>, i: int, ignore_case: bool)
    requires
        0 <= i <= a.len(),
    ensures
        columns(a, a, i, i, ignore_case) == Seq::new(
            (a.len() - i) as nat,
            |k: int| (Column::Both, a[i + k]),
        ),
    decreases a.len() - i,
{
    let all = Seq::new((a.len() - i) as nat, |k: int| (Column::Both, a[i + k]));
    if i < a.len() {
        order::lemma_text_order_equal(a[i], a[i]);
        order::lemma_text_order_equal(text::lower(a[i]), text::lower(a[i]));
        lemma_same_file(a, i + 1, ignore_case);
        assert(columns(a, a, i, i, ignore_case) =~= all);
    } else {
        assert(columns(a, a, i, i, ignore_case) =~= all);
    }
}

/// What a line is compared by.
pub open spec fn compared_as(line: Seq<char>, ignore_case: bool) -> Seq<char> {
    if ignore_case {
        text::lower(line)
    } else {
        line
    }
}

/// How often a line stands among lines, where those compared as the same count as the same.
pub open spec fn times(lines: Seq<Seq<char>>, line: Seq<char>, ignore_case: bool) -> nat
    decreases lines.len(),
{
    if lines.len() == 0 {
        0
    } else {
        times(lines.skip(1), line, ignore_case) + if compared_as(lines[0], ignore_case)
            == compared_as(line, ignore_case) {
            1nat
        } else {
            0nat
        }
    }
}

/// How often a line stands in a column.
pub open spec fn times_in(
    s: Seq<(Column, Seq<char>)>,
    c: Column,
    line: Seq<char>,
    ignore_case: bool,
) -> nat
    decreases s.len(),
{
    if s.len() == 0 {
        0
    } else {
        times_in(s.skip(1), c, line, ignore_case) + if s[0].0 == c && compared_as(
            s[0].1,
            ignore_case,
        ) == compared_as(line, ignore_case) {
            1nat
        } else {
            0nat
        }
    }
}

/// Whether lines are in the order of texts.
pub open spec fn ascending(lines: Seq<Seq<char>>, ignore_case: bool) -> bool {
    forall|i: int, j: int|
        0 <= i < j < lines.len() ==> order::text_order(
            compared_as(#[trigger] lines[i], ignore_case),
            compared_as(#[trigger] lines[j], ignore_case),
        ) != Order::Greater
}

proof fn lemma_not_among(lines: Seq<Seq<char>>, j: int, line: Seq<char>, ignore_case: bool)
    requires
        ascending(lines, ignore_case),
        0 <= j < lines.len(),
        order::text_order(
            compared_as(line, ignore_case),
            compared_as(lines[j], ignore_case),
        ) == Order::Less,
    ensures
        times(lines.skip(j), line, ignore_case) == 0,
    decreases lines.len() - j,
{
    let k = compared_as(line, ignore_case);
    let x = compared_as(lines[j], ignore_case);
    order::lemma_text_order_equal(k, x);
    assert(lines.skip(j).skip(1) =~= lines.skip(j + 1));
    assert(lines.skip(j)[0] == lines[j]);
    assert(k != x);
    if j + 1 < lines.len() {
        let y = compared_as(lines[j + 1], ignore_case);
        assert(order::text_order(x, y) != Order::Greater);
        order::lemma_text_order_transitive(k, x, y);
        lemma_not_among(lines, j + 1, line, ignore_case);
    } else {
        assert(times(lines.skip(j + 1), line, ignore_case) == 0);
    }
}

proof fn lemma_same_times(lines: Seq<Seq<char>>, a: Seq<char>, b: Seq<char>, ignore_case: bool)
    requires
        compared_as(a, ignore_case) == compared_as(b, ignore_case),
    ensures
        times(lines, a, ignore_case) == times(lines, b, ignore_case),
    decreases lines.len(),
{
    if lines.len() > 0 {
        lemma_same_times(lines.skip(1), a, b, ignore_case);
    }
}

proof fn lemma_times(
    a: Seq<Seq<char>>,
    b: Seq<Seq<char>>,
    i: int,
    j: int,
    line: Seq<char>,
    ignore_case: bool,
)
    requires
        ascending(a, ignore_case),
        ascending(b, ignore_case),
        0 <= i <= a.len(),
        0 <= j <= b.len(),
    ensures
        ({
            let s = columns(a, b, i, j, ignore_case);
            let m = times(a.skip(i), line, ignore_case);
            let n = times(b.skip(j), line, ignore_case);
            let both = if m < n {
                m
            } else {
                n
            };
            &&& times_in(s, Column::Both, line, ignore_case) == both
            &&& times_in(s, Column::First, line, ignore_case) == m - both
            &&& times_in(s, Column::Second, line, ignore_case) == n - both
        }),
    decreases a.len() - i + b.len() - j,
{
    let s = columns(a, b, i, j, ignore_case);
    let k = compared_as(line, ignore_case);
    if i < a.len() {
        assert(a.skip(i).skip(1) =~= a.skip(i + 1));
        assert(a.skip(i)[0] == a[i]);
    }
    if j < b.len() {
        assert(b.skip(j).skip(1) =~= b.skip(j + 1));
        assert(b.skip(j)[0] == b[j]);
    }
    if i < a.len() && j < b.len() {
        let x = compared_as(a[i], ignore_case);
        let y = compared_as(b[j], ignore_case);
        order::lemma_text_order_equal(x, y);
        order::lemma_text_order_reverse(x, y);
        match order::text_order(x, y) {
            Order::Less => {
                lemma_times(a, b, i + 1, j, line, ignore_case);
                assert(s.skip(1) =~= columns(a, b, i + 1, j, ignore_case));
                if x == k {
                    lemma_not_among(b, j, a[i], ignore_case);
                    lemma_same_times(b.skip(j), a[i], line, ignore_case);
                }
            },
            Order::Greater => {
                lemma_times(a, b, i, j + 1, line, ignore_case);
                assert(s.skip(1) =~= columns(a, b, i, j + 1, ignore_case));
                if y == k {
                    lemma_not_among(a, i, b[j], ignore_case);
                    lemma_same_times(a.skip(i), b[j], line, ignore_case);
                }
            },
            Order::Equal => {
                lemma_times(a, b, i + 1, j + 1, line, ignore_case);
                assert(s.skip(1) =~= columns(a, b, i + 1, j + 1, ignore_case));
            },
        }
    } else if i < a.len() {
        lemma_times(a, b, i + 1, j, line, ignore_case);
        assert(s.skip(1) =~= columns(a, b, i + 1, j, ignore_case));
    } else if j < b.len() {
        lemma_times(a, b, i, j + 1, line, ignore_case);
        assert(s.skip(1) =~= columns(a, b, i, j + 1, ignore_case));
    }
}

proof fn lemma_not_below(
    a: Seq<Seq<char>>,
    b: Seq<Seq<char>>,
    i: int,
    j: int,
    x: Seq<char>,
    ignore_case: bool,
    q: int,
)
    requires
        ascending(a, ignore_case),
        ascending(b, ignore_case),
        0 <= i <= a.len(),
        0 <= j <= b.len(),
        i < a.len() ==> order::text_order(x, compared_as(a[i], ignore_case)) != Order::Greater,
        j < b.len() ==> order::text_order(x, compared_as(b[j], ignore_case)) != Order::Greater,
        0 <= q < columns(a, b, i, j, ignore_case).len(),
    ensures
        order::text_order(
            x,
            compared_as(columns(a, b, i, j, ignore_case)[q].1, ignore_case),
        ) != Order::Greater,
    decreases a.len() - i + b.len() - j,
{
    if i + 1 < a.len() {
        order::lemma_text_order_transitive(
            x,
            compared_as(a[i], ignore_case),
            compared_as(a[i + 1], ignore_case),
        );
    }
    if j + 1 < b.len() {
        order::lemma_text_order_transitive(
            x,
            compared_as(b[j], ignore_case),
            compared_as(b[j + 1], ignore_case),
        );
    }
    if q > 0 {
        if i < a.len() && j < b.len() {
            match line_order(a[i], b[j], ignore_case) {
                Order::Less => lemma_not_below(a, b, i + 1, j, x, ignore_case, q - 1),
                Order::Greater => lemma_not_below(a, b, i, j + 1, x, ignore_case, q - 1),
                Order::Equal => lemma_not_below(a, b, i + 1, j + 1, x, ignore_case, q - 1),
            }
        } else if i < a.len() {
            lemma_not_below(a, b, i + 1, j, x, ignore_case, q - 1);
        } else {
            lemma_not_below(a, b, i, j + 1, x, ignore_case, q - 1);
        }
    }
}

proof fn lemma_merged_ascend(
    a: Seq<Seq<char>>,
    b: Seq<Seq<char>>,
    i: int,
    j: int,
    ignore_case: bool,
    p: int,
    q: int,
)
    requires
        ascending(a, ignore_case),
        ascending(b, ignore_case),
        0 <= i <= a.len(),
        0 <= j <= b.len(),
        0 <= p < q < columns(a, b, i, j, ignore_case).len(),
    ensures
        order::text_order(
            compared_as(columns(a, b, i, j, ignore_case)[p].1, ignore_case),
            compared_as(columns(a, b, i, j, ignore_case)[q].1, ignore_case),
        ) != Order::Greater,
    decreases a.len() - i + b.len() - j,
{
    let s = columns(a, b, i, j, ignore_case);
    if i < a.len() && j < b.len() {
        order::lemma_text_order_reverse(
            compared_as(a[i], ignore_case),
            compared_as(b[j], ignore_case),
        );
    }
    if p == 0 {
        let x = compared_as(s[0].1, ignore_case);
        order::lemma_text_order_equal(x, x);
        lemma_not_below(a, b, i, j, x, ignore_case, q);
    } else if i < a.len() && j < b.len() {
        match line_order(a[i], b[j], ignore_case) {
            Order::Less => lemma_merged_ascend(a, b, i + 1, j, ignore_case, p - 1, q - 1),
            Order::Greater => lemma_merged_ascend(a, b, i, j + 1, ignore_case, p - 1, q - 1),
            Order::Equal => lemma_merged_ascend(a, b, i + 1, j + 1, ignore_case, p - 1, q - 1),
        }
    } else if i < a.len() {
        lemma_merged_ascend(a, b, i + 1, j, ignore_case, p - 1, q - 1);
    } else {
        lemma_merged_ascend(a, b, i, j + 1, ignore_case, p - 1, q - 1);
    }
}

/// Of two files in order, a line stands in the third column as often as in both files, in the first
/// as often as the first file has it beyond that, and in the second as often as the second file has
/// it beyond that. The merged lines are in order.
pub proof fn lemma_columns_of_sorted(
    a: Seq<Seq<char>>,
    b: Seq<Seq<char>>,
    ignore_case: bool,
    line: Seq<char>,
)
    requires
        ascending(a, ignore_case),
        ascending(b, ignore_case),
    ensures
        ({
            let s = columns(a, b, 0, 0, ignore_case);
            let m = times(a, line, ignore_case);
            let n = times(b, line, ignore_case);
            let both = if m < n {
                m
            } else {
                n
            };
            &&& times_in(s, Column::Both, line, ignore_case) == both
            &&& times_in(s, Column::First, line, ignore_case) == m - both
            &&& times_in(s, Column::Second, line, ignore_case) == n - both
            &&& ascending(Seq::new(s.len(), |k: int| s[k].1), ignore_case)
        }),
{
    lemma_times(a, b, 0, 0, line, ignore_case);
    assert(a.skip(0) =~= a);
    assert(b.skip(0) =~= b);
    let s = columns(a, b, 0, 0, ignore_case);
    let merged = Seq::new(s.len(), |k: int| s[k].1);
    assert forall|p: int, q: int| 0 <= p < q < merged.len() implies order::text_order(
        compared_as(#[trigger] merged[p], ignore_case),
        compared_as(#[trigger] merged[q], ignore_case),
    ) != Order::Greater by {
        lemma_merged_ascend(a, b, 0, 0, ignore_case, p, q);
    }
}

/// Whether the lines of a column are printed.
pub open spec fn is_printed(c: Column, o: CommOptions) -> bool {
    match c {
        Column::First => !o.suppress_col1,
        Column::Second => !o.suppress_col2,
        Column::Both => !o.suppress_col3,
    }
}

/// The number of columns that are printed to the left of a column.
pub open spec fn columns_before(c: Column, o: CommOptions) -> nat {
    (if c != Column::First && is_printed(Column::First, o) {
        1nat
    } else {
        0nat
    }) + (if c == Column::Both && is_printed(Column::Second, o) {
        1nat
    } else {
        0nat
    })
}

/// The lines of the columns that are printed, each behind a tab for each printed column to the left
/// of its own.
pub open spec fn indented(s: Seq<(Column, Seq<char>)>, o: CommOptions) -> Seq<Seq<char>>
    decreases s.len(),
{
    if s.len() == 0 {
        Seq::empty()
    } else {
        let before = indented(s.drop_last(), o);
        let (c, line) = s.last();
        if is_printed(c, o) {
            before.push(Seq::new(columns_before(c, o), |i: int| '\t') + line)
        } else {
            before
        }
    }
}

proof fn lemma_indented(s: Seq<(Column, Seq<char>)>, o: CommOptions)
    ensures
        printed(s, o) == text::unlines(indented(s, o)),
    decreases s.len(),
{
    if s.len() > 0 {
        lemma_indented(s.drop_last(), o);
        let (c, line) = s.last();
        let tabs = Seq::new(columns_before(c, o), |i: int| '\t');
        reveal_strlit("\t");
        reveal_strlit("\t\t");
        assert("\t"@ =~= Seq::new(1, |i: int| '\t'));
        assert("\t\t"@ =~= Seq::new(2, |i: int| '\t'));
        assert(Seq::new(0, |i: int| '\t') + line =~= line);
        let before = indented(s.drop_last(), o);
        assert(before.push(tabs + line).drop_last() =~= before);
        if is_printed(c, o) {
            assert(placed(c, line, o) =~= (tabs + line).push('\n'));
        } else {
            assert(printed(s, o) =~= printed(s.drop_last(), o));
        }
    }
}

/// What is printed of two files are the lines of the columns that are wanted, each on a line of its
/// own, behind a tab for each wanted column to its left.
pub proof fn lemma_columns_printed(a: Seq<char>, b: Seq<char>, o: CommOptions)
    ensures
        compared(a, b, o) == text::unlines(
            indented(columns(text::lines(a), text::lines(b), 0, 0, o.ignore_case), o),
        ),
{
    lemma_indented(columns(text::lines(a), text::lines(b), 0, 0, o.ignore_case), o);
}

/// Two files are read, the first of them first, and compared as the flags say: -1, -2 and -3 leave
/// out the column of their number, and -i compares without regard to case.
pub proof fn lemma_files_compared<FS: Filesystem>(
    v: env::EnvView<FS>,
    p: options::ParsedView,
    a: Seq<char>,
    b: Seq<char>,
)
    requires
        p.free.len() == 2,
        p.free[0] != seq!['-'],
        p.free[1] != seq!['-'],
        v.fs.reads(p.free[0]) == Ok::<Seq<char>, fs::IoView>(a),
        v.fs.after(fs::Request::Read(p.free[0])).reads(p.free[1]) == Ok::<Seq<char>, fs::IoView>(b),
    ensures
        ({
            let o = CommOptions {
                suppress_col1: p.present('1'),
                suppress_col2: p.present('2'),
                suppress_col3: p.present('3'),
                ignore_case: p.present('i'),
            };
            let (w, r) = ran(v, p);
            &&& w.out == v.out + compared(a, b, o)
            &&& w.err == v.err
            &&& r == Ok::<int, env::ErrorView>(0)
        }),
{
    reveal_strlit("-");
    assert("-"@ =~= seq!['-']);
}

/// The lines of standard input stand in the place of the file that `-` names.
pub proof fn lemma_standard_input_compared<FS: Filesystem>(
    v: env::EnvView<FS>,
    p: options::ParsedView,
    b: Seq<char>,
)
    requires
        p.free.len() == 2,
        p.free[0] == seq!['-'],
        p.free[1] != seq!['-'],
        v.fs.reads(p.free[1]) == Ok::<Seq<char>, fs::IoView>(b),
    ensures
        ran(v, p).0.out == v.out + compared(text::unlines(v.stdin), b, settings(p)),
        ran(v, p).0.stdin.len() == 0,
        ran(v, p).1 == Ok::<int, env::ErrorView>(0),
{
    reveal_strlit("-");
    assert("-"@ =~= seq!['-']);
    text::lemma_ended_is_unlines(v.stdin);
}

} // verus!
