//! The nl builtin: line numbering filter.

use crate::env::{Environment, Error, ExitCode};
use crate::env;
use crate::fs::{Filesystem, FsError};
use crate::fs;
use crate::options::{Arity, OptDef, Parsed};
use crate::options;
use crate::pattern;
use crate::text;
use vstd::prelude::*;

verus! {

broadcast use vstd::string::group_string_axioms;

/// The type of line numbering to apply.
pub enum NumberingType {
    /// Number all lines.
    All,
    /// Number only non-empty lines.
    NonEmpty,
    /// No line numbering.
    Nothing,
    /// Number lines matching the given regex.
    Regex(regex::Regex),
}

pub ghost enum NumberingView {
    All,
    NonEmpty,
    Nothing,
    Regex(Seq<char>),
}

impl View for NumberingType {
    type V = NumberingView;

    open spec fn view(&self) -> NumberingView {
        match self {
            NumberingType::All => NumberingView::All,
            NumberingType::NonEmpty => NumberingView::NonEmpty,
            NumberingType::Nothing => NumberingView::Nothing,
            NumberingType::Regex(re) => NumberingView::Regex(pattern::built_from(*re).0),
        }
    }
}

impl NumberingType {
    /// Whether a pattern is a plain one.
    pub open spec fn valid(self) -> bool {
        self matches NumberingType::Regex(re) ==> pattern::built_from(re) == (
            pattern::built_from(re).0,
            false,
            false,
        )
    }
}

/// The format for line numbers.
#[derive(Debug, Clone, Copy, PartialEq, Eq, Structural)]
pub enum NumberFormat {
    /// Left justified, leading zeros suppressed.
    Ln,
    /// Right justified, leading zeros suppressed.
    Rn,
    /// Right justified, leading zeros kept.
    Rz,
}

/// Logical page sections.
#[derive(Debug, Clone, Copy, PartialEq, Eq, Structural)]
pub enum Section {
    Header,
    Body,
    Footer,
}

/// Options for the nl command.
pub struct NlOptions {
    /// Numbering type for body lines.
    pub body_type: NumberingType,
    /// Numbering type for footer lines.
    pub footer_type: NumberingType,
    /// Numbering type for header lines.
    pub header_type: NumberingType,
    /// Delimiter characters (two chars).
    pub delimiter: (char, char),
    /// Increment value.
    pub increment: i64,
    /// Number of adjacent blank lines to consider as one (for -b a).
    pub blank_join: u32,
    /// Line number format.
    pub format: NumberFormat,
    /// Separator between line number and text.
    pub separator: String,
    /// Starting line number.
    pub start_num: i64,
    /// Width of line number field.
    pub width: usize,
    /// Whether to restart numbering at page delimiters.
    pub restart: bool,
}

pub ghost struct NlView {
    pub body: NumberingView,
    pub footer: NumberingView,
    pub header: NumberingView,
    pub delimiter: (char, char),
    pub increment: i64,
    pub blank_join: u32,
    pub format: NumberFormat,
    pub separator: Seq<char>,
    pub start_num: i64,
    pub width: usize,
    pub restart: bool,
}

impl View for NlOptions {
    type V = NlView;

    open spec fn view(&self) -> NlView {
        NlView {
            body: self.body_type@,
            footer: self.footer_type@,
            header: self.header_type@,
            delimiter: self.delimiter,
            increment: self.increment,
            blank_join: self.blank_join,
            format: self.format,
            separator: self.separator@,
            start_num: self.start_num,
            width: self.width,
            restart: self.restart,
        }
    }
}

impl NlOptions {
    /// Whether the patterns are plain ones.
    pub open spec fn valid(self) -> bool {
        self.body_type.valid() && self.footer_type.valid() && self.header_type.valid()
    }
}

/// State for processing nl output. The counters go round at the ends of their ranges.
#[derive(Debug, Clone, Copy, PartialEq, Eq, Structural)]
pub struct NlState {
    pub line_number: i64,
    pub section: Section,
    pub adjacent_blanks: u32,
}

// ---------------------------------------------------------------------------------------------
// Lines
// ---------------------------------------------------------------------------------------------

/// The section that a delimiter line begins: one pair of delimiter characters begins the footer,
/// two the body, three the header.
pub open spec fn section_of(line: Seq<char>, delimiter: (char, char)) -> Option<Section> {
    let d = seq![delimiter.0, delimiter.1];
    if line == d + d + d {
        Some(Section::Header)
    } else if line == d + d {
        Some(Section::Body)
    } else if line == d {
        Some(Section::Footer)
    } else {
        None
    }
}

/// Whether a line is numbered.
pub open spec fn numbered(line: Seq<char>, kind: NumberingView, blanks: u32, join: u32) -> bool {
    match kind {
        NumberingView::All => line.len() > 0 || blanks >= join,
        NumberingView::NonEmpty => line.len() > 0,
        NumberingView::Nothing => false,
        NumberingView::Regex(re) => pattern::is_match((re, false, false), line),
    }
}

/// A line number in its field.
pub open spec fn number_field(num: int, width: nat, format: NumberFormat) -> Seq<char> {
    let d = text::signed_decimal(num);
    match format {
        NumberFormat::Ln => d + text::padding(d, ' ', width),
        NumberFormat::Rn => text::padding(d, ' ', width) + d,
        NumberFormat::Rz => text::padding(d, '0', width) + d,
    }
}

pub open spec fn kind_of(o: NlView, section: Section) -> NumberingView {
    match section {
        Section::Header => o.header,
        Section::Body => o.body,
        Section::Footer => o.footer,
    }
}

/// The state when the type of a line is looked up: adjacent blank lines are counted.
pub open spec fn counted(line: Seq<char>, st: NlState) -> NlState {
    NlState {
        adjacent_blanks: if line.len() == 0 {
            st.adjacent_blanks.wrapping_add(1)
        } else {
            0
        },
        ..st
    }
}

/// What is printed of a line of text, and the state after it.
pub open spec fn emitted(line: Seq<char>, number: bool, o: NlView, st: NlState) -> (
    Seq<char>,
    NlState,
) {
    if number {
        (
            number_field(st.line_number as int, o.width as nat, o.format) + o.separator + line,
            NlState {
                line_number: st.line_number.wrapping_add(o.increment),
                adjacent_blanks: if line.len() == 0 {
                    0
                } else {
                    st.adjacent_blanks
                },
                ..st
            },
        )
    } else {
        (text::fill(' ', o.width as nat) + o.separator + line, st)
    }
}

/// What is printed of a line, if anything is, and the state after it. Delimiter lines are not
/// printed.
pub open spec fn line_done(line: Seq<char>, o: NlView, st: NlState) -> (Seq<char>, NlState) {
    match section_of(line, o.delimiter) {
        Some(section) => (
            Seq::empty(),
            NlState {
                section,
                adjacent_blanks: 0,
                line_number: if o.restart {
                    o.start_num
                } else {
                    st.line_number
                },
            },
        ),
        None => {
            let c = counted(line, st);
            let (out, next) = emitted(
                line,
                numbered(line, kind_of(o, c.section), c.adjacent_blanks, o.blank_join),
                o,
                c,
            );
            (text::terminated(out), next)
        },
    }
}

/// What is printed of lines, and the state after them.
pub open spec fn lines_done(lines: Seq<Seq<char>>, o: NlView, st: NlState) -> (Seq<char>, NlState)
    decreases lines.len(),
{
    if lines.len() == 0 {
        (Seq::empty(), st)
    } else {
        let (before, mid) = lines_done(lines.drop_last(), o, st);
        let (out, next) = line_done(lines.last(), o, mid);
        (before + out, next)
    }
}

/// Checks if a line is a section delimiter and returns the new section if so.
pub fn check_section_delimiter(line: &str, delimiter: (char, char)) -> (r: Option<Section>)
    ensures
        r == section_of(line@, delimiter),
{
    let v = text::chars(line);
    let n: usize = v.len();
    let ghost d = seq![delimiter.0, delimiter.1];
    if n == 0 || n > 6 || n % 2 != 0 {
        return None;
    }
    let mut i: usize = 0;
    while i < n
        invariant
            i <= n,
            n == v@.len(),
            n % 2 == 0,
            i % 2 == 0,
            v@ == line@,
            d == seq![delimiter.0, delimiter.1],
            0 < n <= 6,
            forall|j: int|
                0 <= j < i ==> #[trigger] v@[j] == (if j % 2 == 0 {
                    delimiter.0
                } else {
                    delimiter.1
                }),
        decreases n - i,
    {
        if v[i] != delimiter.0 || v[i + 1] != delimiter.1 {
            proof {
                assert(d + d + d =~= seq![d[0], d[1], d[0], d[1], d[0], d[1]]);
                assert(d + d =~= seq![d[0], d[1], d[0], d[1]]);
                if section_of(line@, delimiter) is Some {
                    assert(line@[i as int] == delimiter.0);
                    assert(line@[i + 1] == delimiter.1);
                }
            }
            return None;
        }
        i += 2;
    }
    if n == 6 {
        assert(line@ =~= d + d + d);
        Some(Section::Header)
    } else if n == 4 {
        assert(line@ =~= d + d);
        Some(Section::Body)
    } else {
        assert(line@ =~= d);
        Some(Section::Footer)
    }
}

/// Determines if a line should be numbered based on the numbering type.
pub fn should_number(
    line: &str,
    numbering_type: &NumberingType,
    adjacent_blanks: u32,
    blank_join: u32,
) -> (r: bool)
    requires
        numbering_type.valid(),
    ensures
        r == numbered(line@, numbering_type@, adjacent_blanks, blank_join),
{
    match numbering_type {
        NumberingType::All => !line.is_empty() || adjacent_blanks >= blank_join,
        NumberingType::NonEmpty => !line.is_empty(),
        NumberingType::Nothing => false,
        NumberingType::Regex(re) => pattern::matches(re, line),
    }
}

/// Formats a line number according to the options.
pub fn format_line_number(num: i64, width: usize, format: NumberFormat) -> (r: String)
    ensures
        r@ == number_field(num as int, width as nat, format),
{
    let d = text::to_signed_decimal(num);
    let len: usize = text::chars(d.as_str()).len();
    let missing: usize = if len < width {
        width - len
    } else {
        0
    };
    assert(text::fill(' ', 0) =~= Seq::<char>::empty());
    assert(text::fill('0', 0) =~= Seq::<char>::empty());
    match format {
        NumberFormat::Ln => {
            let mut s = d;
            text::add_fill(&mut s, ' ', missing);
            s
        },
        NumberFormat::Rn => {
            let mut s = String::new();
            text::add_fill(&mut s, ' ', missing);
            assert(s@ =~= text::fill(' ', missing as nat));
            s.append(d.as_str());
            s
        },
        NumberFormat::Rz => {
            let mut s = String::new();
            text::add_fill(&mut s, '0', missing);
            assert(s@ =~= text::fill('0', missing as nat));
            s.append(d.as_str());
            s
        },
    }
}

/// Prints a line of text, numbered or not.
pub fn emit(line: &str, number: bool, opts: &NlOptions, state: &mut NlState) -> (r: String)
    ensures
        (r@, *final(state)) == emitted(line@, number, opts@, *old(state)),
{
    let mut out = if number {
        let field = format_line_number(state.line_number, opts.width, opts.format);
        state.line_number = state.line_number.wrapping_add(opts.increment);
        if line.is_empty() {
            state.adjacent_blanks = 0;
        }
        field
    } else {
        let mut blank = String::new();
        text::add_fill(&mut blank, ' ', opts.width);
        assert(blank@ =~= text::fill(' ', opts.width as nat));
        blank
    };
    out.append(opts.separator.as_str());
    out.append(line);
    out
}

/// Processes a single line.
pub fn process_line(out: &mut String, line: &str, opts: &NlOptions, state: &mut NlState)
    requires
        opts.valid(),
    ensures
        ({
            let (o, next) = line_done(line@, opts@, *old(state));
            final(out)@ == old(out)@ + o && *final(state) == next
        }),
{
    if let Some(section) = check_section_delimiter(line, opts.delimiter) {
        state.section = section;
        state.adjacent_blanks = 0;
        if opts.restart {
            state.line_number = opts.start_num;
        }
        assert(out@ + Seq::<char>::empty() =~= out@);
        return;
    }
    if line.is_empty() {
        state.adjacent_blanks = state.adjacent_blanks.wrapping_add(1);
    } else {
        state.adjacent_blanks = 0;
    }
    let kind = match state.section {
        Section::Header => &opts.header_type,
        Section::Body => &opts.body_type,
        Section::Footer => &opts.footer_type,
    };
    let number = should_number(line, kind, state.adjacent_blanks, opts.blank_join);
    let mut s = emit(line, number, opts, state);
    s.push('\n');
    out.append(s.as_str());
}

fn process_lines<FS>(
    env: &mut Environment<FS>,
    lines: &Vec<String>,
    opts: &NlOptions,
    state: &mut NlState,
)
    requires
        opts.valid(),
    ensures
        ({
            let (out, next) = lines_done(lines.deep_view(), opts@, *old(state));
            final(env)@ == old(env)@.write(out) && *final(state) == next
        }),
{
    let mut out = String::new();
    let ghost all = lines.deep_view();
    let ghost start = *state;
    let mut i: usize = 0;
    assert(out@ =~= lines_done(all.take(0), opts@, start).0);
    while i < lines.len()
        invariant
            i <= lines@.len(),
            opts.valid(),
            all == lines.deep_view(),
            (out@, *state) == lines_done(all.take(i as int), opts@, start),
        decreases lines.len() - i,
    {
        assert(all.take(i + 1).drop_last() =~= all.take(i as int));
        process_line(&mut out, lines[i].as_str(), opts, state);
        i += 1;
    }
    assert(all.take(i as int) =~= all);
    env.write_str(out.as_str());
}

/// What numbering the files from `i` on comes to.
pub open spec fn files_done<FS: Filesystem>(
    v: env::EnvView<FS>,
    files: Seq<Seq<char>>,
    i: int,
    o: NlView,
    st: NlState,
    code: int,
) -> (env::EnvView<FS>, Result<int, env::ErrorView>)
    decreases files.len() - i,
{
    if i < 0 || i >= files.len() {
        (v, Ok(code))
    } else if files[i] == "-"@ {
        let (out, next) = lines_done(v.stdin, o, st);
        files_done(v.drained().write(out), files, i + 1, o, next, code)
    } else {
        let w = v.with_fs(v.fs.after(fs::Request::Read(files[i])));
        match v.fs.reads(files[i]) {
            Ok(t) => {
                let (out, next) = lines_done(text::lines(t), o, st);
                files_done(w.write(out), files, i + 1, o, next, code)
            },
            Err(e) => files_done(
                w.error_line("nl: "@ + files[i] + ": "@ + e.message),
                files,
                i + 1,
                o,
                st,
                1,
            ),
        }
    }
}

/// What numbering comes to: the files one after another, or standard input where there are none.
pub open spec fn all_done<FS: Filesystem>(
    v: env::EnvView<FS>,
    files: Seq<Seq<char>>,
    o: NlView,
) -> (env::EnvView<FS>, Result<int, env::ErrorView>) {
    let st = NlState {
        line_number: o.start_num,
        section: Section::Body,
        adjacent_blanks: 0,
    };
    if files.len() == 0 {
        (v.drained().write(lines_done(v.stdin, o, st).0), Ok(0))
    } else {
        files_done(v, files, 0, o, st, 0)
    }
}

/// Numbers the lines of files, or of standard input where there are none.
pub fn number_files<FS: Filesystem>(
    env: &mut Environment<FS>,
    files: &Vec<String>,
    opts: &NlOptions,
) -> (r: Result<ExitCode, Error>)
    requires
        opts.valid(),
    ensures
        (final(env)@, env::outcome(r)) == all_done(old(env)@, files.deep_view(), opts@),
{
    let mut state = NlState {
        line_number: opts.start_num,
        section: Section::Body,
        adjacent_blanks: 0,
    };
    if files.len() == 0 {
        let lines = env.stdin.read_all();
        process_lines(env, &lines, opts, &mut state);
        return Ok(ExitCode::new(0));
    }
    let ghost all = files.deep_view();
    let ghost first = state;
    let mut code: i32 = 0;
    let mut i: usize = 0;
    while i < files.len()
        invariant
            i <= files@.len(),
            opts.valid(),
            all == files.deep_view(),
            files_done(env@, all, i as int, opts@, state, code as int) == files_done(
                old(env)@,
                all,
                0,
                opts@,
                first,
                0,
            ),
        decreases files.len() - i,
    {
        let file = files[i].clone();
        if text::same(file.as_str(), "-") {
            let lines = env.stdin.read_all();
            process_lines(env, &lines, opts, &mut state);
        } else {
            match env.fs.read_to_string(file.as_str()) {
                Ok(contents) => {
                    let lines = text::lines_of(contents.as_str());
                    process_lines(env, &lines, opts, &mut state);
                },
                Err(FsError::Io(e)) => {
                    let mut m = "nl: ".to_owned();
                    m.append(file.as_str());
                    m.append(": ");
                    m.append(e.message.as_str());
                    env.error_line(m.as_str());
                    code = 1;
                },
            }
        }
        i += 1;
    }
    Ok(ExitCode::new(code))
}

// ---------------------------------------------------------------------------------------------
// The command
// ---------------------------------------------------------------------------------------------

/// The options of the command.
pub open spec fn table() -> Seq<OptDef> {
    seq![
        OptDef { short: 'b', long: "", arity: Arity::Value },
        OptDef { short: 'd', long: "", arity: Arity::Value },
        OptDef { short: 'f', long: "", arity: Arity::Value },
        OptDef { short: 'h', long: "", arity: Arity::Value },
        OptDef { short: 'i', long: "", arity: Arity::Value },
        OptDef { short: 'l', long: "", arity: Arity::Value },
        OptDef { short: 'n', long: "", arity: Arity::Value },
        OptDef { short: 'p', long: "", arity: Arity::Flag },
        OptDef { short: 's', long: "", arity: Arity::Value },
        OptDef { short: 'v', long: "", arity: Arity::Value },
        OptDef { short: 'w', long: "", arity: Arity::Value },
    ]
}

fn build_options() -> (r: Vec<OptDef>)
    ensures
        r@ == table(),
        options::all_declarable(options::definitions(r@)),
{
    let r = vec![
        OptDef { short: 'b', long: "", arity: Arity::Value },
        OptDef { short: 'd', long: "", arity: Arity::Value },
        OptDef { short: 'f', long: "", arity: Arity::Value },
        OptDef { short: 'h', long: "", arity: Arity::Value },
        OptDef { short: 'i', long: "", arity: Arity::Value },
        OptDef { short: 'l', long: "", arity: Arity::Value },
        OptDef { short: 'n', long: "", arity: Arity::Value },
        OptDef { short: 'p', long: "", arity: Arity::Flag },
        OptDef { short: 's', long: "", arity: Arity::Value },
        OptDef { short: 'v', long: "", arity: Arity::Value },
        OptDef { short: 'w', long: "", arity: Arity::Value },
    ];
    proof {
        reveal_strlit("");
    }
    r
}

/// The numbering type that a specification names; or the words of the error.
pub open spec fn numbering_type(spec: Seq<char>, section: Seq<char>) -> Result<
    NumberingView,
    Seq<char>,
> {
    if spec.len() == 0 {
        Err("nl: empty "@ + section + " line numbering type"@)
    } else if spec[0] == 'a' {
        Ok(NumberingView::All)
    } else if spec[0] == 't' {
        Ok(NumberingView::NonEmpty)
    } else if spec[0] == 'n' {
        Ok(NumberingView::Nothing)
    } else if spec[0] == 'p' {
        match pattern::build_error(spec.skip(1), false, false) {
            None => Ok(NumberingView::Regex(spec.skip(1))),
            Some(e) => Err("nl: "@ + section + " expr: "@ + e + " -- "@ + spec.skip(1)),
        }
    } else {
        Err("nl: illegal "@ + section + " line numbering type -- "@ + spec)
    }
}

/// The format that a specification names; or the words of the error.
pub open spec fn number_format(spec: Seq<char>) -> Result<NumberFormat, Seq<char>> {
    if spec == "ln"@ {
        Ok(NumberFormat::Ln)
    } else if spec == "rn"@ {
        Ok(NumberFormat::Rn)
    } else if spec == "rz"@ {
        Ok(NumberFormat::Rz)
    } else {
        Err("nl: illegal format -- "@ + spec)
    }
}

/// Parses a numbering type specification.
pub fn parse_numbering_type(spec: &str, section_name: &str) -> (r: Result<NumberingType, String>)
    ensures
        match r {
            Ok(t) => numbering_type(spec@, section_name@) == Ok::<NumberingView, Seq<char>>(t@)
                && t.valid(),
            Err(e) => numbering_type(spec@, section_name@) == Err::<NumberingView, Seq<char>>(e@),
        },
{
    let v = text::chars(spec);
    if v.len() == 0 {
        let mut m = "nl: empty ".to_owned();
        m.append(section_name);
        m.append(" line numbering type");
        return Err(m);
    }
    match v[0] {
        'a' => Ok(NumberingType::All),
        't' => Ok(NumberingType::NonEmpty),
        'n' => Ok(NumberingType::Nothing),
        'p' => {
            let re = text::drop_chars(spec, 1);
            match pattern::build(re.as_str(), false, false) {
                Ok(re) => Ok(NumberingType::Regex(re)),
                Err(e) => {
                    let mut m = "nl: ".to_owned();
                    m.append(section_name);
                    m.append(" expr: ");
                    m.append(e.as_str());
                    m.append(" -- ");
                    m.append(re.as_str());
                    Err(m)
                },
            }
        },
        _ => {
            let mut m = "nl: illegal ".to_owned();
            m.append(section_name);
            m.append(" line numbering type -- ");
            m.append(spec);
            Err(m)
        },
    }
}

/// Parses the format specification.
pub fn parse_format(spec: &str) -> (r: Result<NumberFormat, String>)
    ensures
        match r {
            Ok(f) => number_format(spec@) == Ok::<NumberFormat, Seq<char>>(f),
            Err(e) => number_format(spec@) == Err::<NumberFormat, Seq<char>>(e@),
        },
{
    if text::same(spec, "ln") {
        Ok(NumberFormat::Ln)
    } else if text::same(spec, "rn") {
        Ok(NumberFormat::Rn)
    } else if text::same(spec, "rz") {
        Ok(NumberFormat::Rz)
    } else {
        let mut m = "nl: illegal format -- ".to_owned();
        m.append(spec);
        Err(m)
    }
}

/// The numbering type of a section: the one given, or the usual one.
pub open spec fn section_type(
    given: Option<Seq<char>>,
    section: Seq<char>,
    usual: NumberingView,
) -> Result<NumberingView, Seq<char>> {
    match given {
        None => Ok(usual),
        Some(spec) => numbering_type(spec, section),
    }
}

/// The delimiter characters; or the words of the error.
pub open spec fn delimiter_given(given: Option<Seq<char>>) -> Result<(char, char), Seq<char>> {
    match given {
        None => Ok(('\\', ':')),
        Some(d) => if d.len() == 0 {
            Ok(('\\', ':'))
        } else if d.len() == 1 {
            Ok((d[0], ':'))
        } else if d.len() == 2 {
            Ok((d[0], d[1]))
        } else {
            Err("nl: invalid delim argument -- "@ + d)
        },
    }
}

/// A whole number; or the words of the error.
pub open spec fn integer_given(given: Option<Seq<char>>, usual: i64, problem: Seq<char>) -> Result<
    i64,
    Seq<char>,
> {
    match given {
        None => Ok(usual),
        Some(s) => match text::signed(s, i64::MAX as nat) {
            Some(n) => Ok(n as i64),
            None => Err(problem + s),
        },
    }
}

/// The number of blank lines that count as one; or the words of the error.
pub open spec fn join_given(given: Option<Seq<char>>) -> Result<u32, Seq<char>> {
    match given {
        None => Ok(1),
        Some(s) => match text::unsigned(s, u32::MAX as nat) {
            Some(n) => Ok(n as u32),
            None => Err("nl: invalid num argument -- "@ + s),
        },
    }
}

pub open spec fn format_given(given: Option<Seq<char>>) -> Result<NumberFormat, Seq<char>> {
    match given {
        None => Ok(NumberFormat::Rn),
        Some(s) => number_format(s),
    }
}

/// The width of the number field; or the words of the error.
pub open spec fn width_given(given: Option<Seq<char>>) -> Result<usize, Seq<char>> {
    match given {
        None => Ok(6),
        Some(s) => match text::unsigned(s, usize::MAX as nat) {
            Some(n) => if n > 0 {
                Ok(n as usize)
            } else {
                Err("nl: width argument must be > 0"@)
            },
            None => Err("nl: invalid width value -- "@ + s),
        },
    }
}

/// The settings other than the numbering types; or the words of the first error.
pub open spec fn numbers_given(
    p: options::ParsedView,
    body: NumberingView,
    footer: NumberingView,
    header: NumberingView,
) -> Result<NlView, Seq<char>> {
    match delimiter_given(p.value('d')) {
        Err(e) => Err(e),
        Ok(delimiter) => match integer_given(
            p.value('i'),
            1,
            "nl: invalid incr argument -- "@,
        ) {
            Err(e) => Err(e),
            Ok(increment) => match join_given(p.value('l')) {
                Err(e) => Err(e),
                Ok(blank_join) => match format_given(p.value('n')) {
                    Err(e) => Err(e),
                    Ok(format) => match integer_given(
                        p.value('v'),
                        1,
                        "nl: invalid startnum value -- "@,
                    ) {
                        Err(e) => Err(e),
                        Ok(start_num) => match width_given(p.value('w')) {
                            Err(e) => Err(e),
                            Ok(width) => Ok(
                                NlView {
                                    body,
                                    footer,
                                    header,
                                    delimiter,
                                    increment,
                                    blank_join,
                                    format,
                                    separator: match p.value('s') {
                                        Some(s) => s,
                                        None => "\t"@,
                                    },
                                    start_num,
                                    width,
                                    restart: !p.present('p'),
                                },
                            ),
                        },
                    },
                },
            },
        },
    }
}

/// The settings that a command line gives; or the words of the first error.
pub open spec fn settings(p: options::ParsedView) -> Result<NlView, Seq<char>> {
    match section_type(p.value('b'), "body"@, NumberingView::NonEmpty) {
        Err(e) => Err(e),
        Ok(body) => match section_type(p.value('f'), "footer"@, NumberingView::Nothing) {
            Err(e) => Err(e),
            Ok(footer) => match section_type(p.value('h'), "header"@, NumberingView::Nothing) {
                Err(e) => Err(e),
                Ok(header) => numbers_given(p, body, footer, header),
            },
        },
    }
}

/// What the command does once its options are known.
pub open spec fn ran<FS: Filesystem>(v: env::EnvView<FS>, p: options::ParsedView) -> (
    env::EnvView<FS>,
    Result<int, env::ErrorView>,
) {
    match settings(p) {
        Err(e) => (v.error_line(e), Ok(1)),
        Ok(o) => all_done(v, p.free, o),
    }
}

/// What the command does.
pub open spec fn spec_bin<FS: Filesystem>(v: env::EnvView<FS>) -> (
    env::EnvView<FS>,
    Result<int, env::ErrorView>,
) {
    match options::parsed(table(), v.args.skip(1)) {
        Ok(p) => ran(v, p),
        Err(message) => (v.error_line("nl: "@ + message), Ok(1)),
    }
}

fn read_section(given: Option<String>, section: &str, usual: NumberingType) -> (r: Result<
    NumberingType,
    String,
>)
    requires
        usual.valid(),
    ensures
        match r {
            Ok(t) => section_type(options::opt_text(given), section@, usual@) == Ok::<
                NumberingView,
                Seq<char>,
            >(t@) && t.valid(),
            Err(e) => section_type(options::opt_text(given), section@, usual@) == Err::<
                NumberingView,
                Seq<char>,
            >(e@),
        },
{
    match given {
        None => Ok(usual),
        Some(spec) => parse_numbering_type(spec.as_str(), section),
    }
}

fn read_delimiter(given: Option<String>) -> (r: Result<(char, char), String>)
    ensures
        match r {
            Ok(d) => delimiter_given(options::opt_text(given)) == Ok::<(char, char), Seq<char>>(d),
            Err(e) => delimiter_given(options::opt_text(given)) == Err::<(char, char), Seq<char>>(
                e@,
            ),
        },
{
    match given {
        None => Ok(('\\', ':')),
        Some(d) => {
            let v = text::chars(d.as_str());
            if v.len() == 0 {
                Ok(('\\', ':'))
            } else if v.len() == 1 {
                Ok((v[0], ':'))
            } else if v.len() == 2 {
                Ok((v[0], v[1]))
            } else {
                let mut m = "nl: invalid delim argument -- ".to_owned();
                m.append(d.as_str());
                Err(m)
            }
        },
    }
}

fn read_integer(given: Option<String>, usual: i64, problem: &str) -> (r: Result<i64, String>)
    ensures
        match r {
            Ok(n) => integer_given(options::opt_text(given), usual, problem@) == Ok::<
                i64,
                Seq<char>,
            >(n),
            Err(e) => integer_given(options::opt_text(given), usual, problem@) == Err::<
                i64,
                Seq<char>,
            >(e@),
        },
{
    match given {
        None => Ok(usual),
        Some(s) => match text::parse_signed(s.as_str(), i64::MAX) {
            Some(n) => Ok(n),
            None => {
                let mut m = problem.to_owned();
                m.append(s.as_str());
                Err(m)
            },
        },
    }
}

fn read_join(given: Option<String>) -> (r: Result<u32, String>)
    ensures
        match r {
            Ok(n) => join_given(options::opt_text(given)) == Ok::<u32, Seq<char>>(n),
            Err(e) => join_given(options::opt_text(given)) == Err::<u32, Seq<char>>(e@),
        },
{
    match given {
        None => Ok(1),
        Some(s) => match text::parse_unsigned(s.as_str(), u32::MAX as u64) {
            Some(n) => Ok(n as u32),
            None => {
                let mut m = "nl: invalid num argument -- ".to_owned();
                m.append(s.as_str());
                Err(m)
            },
        },
    }
}

fn read_format(given: Option<String>) -> (r: Result<NumberFormat, String>)
    ensures
        match r {
            Ok(f) => format_given(options::opt_text(given)) == Ok::<NumberFormat, Seq<char>>(f),
            Err(e) => format_given(options::opt_text(given)) == Err::<NumberFormat, Seq<char>>(e@),
        },
{
    match given {
        None => Ok(NumberFormat::Rn),
        Some(s) => parse_format(s.as_str()),
    }
}

fn read_width(given: Option<String>) -> (r: Result<usize, String>)
    ensures
        match r {
            Ok(n) => width_given(options::opt_text(given)) == Ok::<usize, Seq<char>>(n),
            Err(e) => width_given(options::opt_text(given)) == Err::<usize, Seq<char>>(e@),
        },
{
    match given {
        None => Ok(6),
        Some(s) => match text::parse_unsigned(s.as_str(), usize::MAX as u64) {
            Some(n) => if n > 0 {
                Ok(n as usize)
            } else {
                Err("nl: width argument must be > 0".to_owned())
            },
            None => {
                let mut m = "nl: invalid width value -- ".to_owned();
                m.append(s.as_str());
                Err(m)
            },
        },
    }
}

fn read_numbers(
    p: &Parsed,
    body_type: NumberingType,
    footer_type: NumberingType,
    header_type: NumberingType,
) -> (r: Result<NlOptions, String>)
    requires
        body_type.valid(),
        footer_type.valid(),
        header_type.valid(),
    ensures
        match r {
            Ok(o) => numbers_given(p@, body_type@, footer_type@, header_type@) == Ok::<
                NlView,
                Seq<char>,
            >(o@) && o.valid(),
            Err(e) => numbers_given(p@, body_type@, footer_type@, header_type@) == Err::<
                NlView,
                Seq<char>,
            >(e@),
        },
{
    let delimiter = match read_delimiter(p.value('d')) {
        Ok(x) => x,
        Err(e) => {
            return Err(e);
        },
    };
    let increment = match read_integer(p.value('i'), 1, "nl: invalid incr argument -- ") {
        Ok(x) => x,
        Err(e) => {
            return Err(e);
        },
    };
    let blank_join = match read_join(p.value('l')) {
        Ok(x) => x,
        Err(e) => {
            return Err(e);
        },
    };
    let format = match read_format(p.value('n')) {
        Ok(x) => x,
        Err(e) => {
            return Err(e);
        },
    };
    let start_num = match read_integer(p.value('v'), 1, "nl: invalid startnum value -- ") {
        Ok(x) => x,
        Err(e) => {
            return Err(e);
        },
    };
    let width = match read_width(p.value('w')) {
        Ok(x) => x,
        Err(e) => {
            return Err(e);
        },
    };
    let separator = match p.value('s') {
        Some(s) => s,
        None => "\t".to_owned(),
    };
    Ok(
        NlOptions {
            body_type,
            footer_type,
            header_type,
            delimiter,
            increment,
            blank_join,
            format,
            separator,
            start_num,
            width,
            restart: !p.present('p'),
        },
    )
}

/// Reads the settings from a command line.
pub fn read_settings(p: &Parsed) -> (r: Result<NlOptions, String>)
    ensures
        match r {
            Ok(o) => settings(p@) == Ok::<NlView, Seq<char>>(o@) && o.valid(),
            Err(e) => settings(p@) == Err::<NlView, Seq<char>>(e@),
        },
{
    let body = match read_section(p.value('b'), "body", NumberingType::NonEmpty) {
        Ok(t) => t,
        Err(e) => {
            return Err(e);
        },
    };
    let footer = match read_section(p.value('f'), "footer", NumberingType::Nothing) {
        Ok(t) => t,
        Err(e) => {
            return Err(e);
        },
    };
    let header = match read_section(p.value('h'), "header", NumberingType::Nothing) {
        Ok(t) => t,
        Err(e) => {
            return Err(e);
        },
    };
    read_numbers(p, body, footer, header)
}

/// Numbers lines with the options that a command line gave.
pub fn run<FS: Filesystem>(env: &mut Environment<FS>, p: &Parsed) -> (r: Result<ExitCode, Error>)
    ensures
        (final(env)@, env::outcome(r)) == ran(old(env)@, p@),
{
    match read_settings(p) {
        Ok(o) => number_files(env, &p.free, &o),
        Err(e) => {
            env.error_line(e.as_str());
            Ok(ExitCode::new(1))
        },
    }
}

/// The nl builtin: number lines of files.
pub fn bin<FS: Filesystem>(env: &mut Environment<FS>) -> (r: Result<ExitCode, Error>)
    requires
        old(env)@.args.len() > 0,
    ensures
        (final(env)@, env::outcome(r)) == spec_bin(old(env)@),
{
    let opts = build_options();
    match options::parse(&opts, &env.args) {
        Ok(p) => run(env, &p),
        Err(e) => {
            let mut m = "nl: ".to_owned();
            m.append(e.as_str());
            env.error_line(m.as_str());
            Ok(ExitCode::new(1))
        },
    }
}

// ---------------------------------------------------------------------------------------------
// Laws
// ---------------------------------------------------------------------------------------------

/// Every line that is printed ends with the separator and the line itself: numbering takes nothing
/// away from text.
pub proof fn lemma_text_is_kept(line: Seq<char>, number: bool, o: NlView, st: NlState)
    ensures
        text::ends_with(emitted(line, number, o, st).0, o.separator + line),
{
    let out = emitted(line, number, o, st).0;
    let tail = o.separator + line;
    assert(out.skip(out.len() - tail.len()) =~= tail);
}

/// A number field is as wide as wanted, or as long as its number.
pub proof fn lemma_field_width(num: int, width: nat, format: NumberFormat)
    ensures
        number_field(num, width, format).len() == (if text::signed_decimal(num).len() < width {
            width
        } else {
            text::signed_decimal(num).len()
        }),
{
}

/// After `n` lines that are all numbered, the next number is the first one plus `n` increments,
/// as long as it is in range.
pub proof fn lemma_numbers_step(lines: Seq<Seq<char>>, o: NlView, st: NlState)
    requires
        kind_of(o, st.section) == NumberingView::NonEmpty,
        forall|i: int|
            0 <= i < lines.len() ==> (#[trigger] lines[i]).len() > 0 && section_of(
                lines[i],
                o.delimiter,
            ) is None,
        forall|k: int|
            0 <= k <= lines.len() ==> i64::MIN <= st.line_number + #[trigger] (k * o.increment)
                <= i64::MAX,
    ensures
        lines_done(lines, o, st).1.line_number == st.line_number + lines.len() * o.increment,
        lines_done(lines, o, st).1.section == st.section,
    decreases lines.len(),
{
    if lines.len() > 0 {
        let n = lines.len() - 1;
        lemma_numbers_step(lines.drop_last(), o, st);
        assert(lines.last() == lines[n]);
        assert((n + 1) * o.increment == n * o.increment + o.increment) by (nonlinear_arith);
        assert(i64::MIN <= st.line_number + (n + 1) * o.increment <= i64::MAX);
    }
}

/// The number of lines that line `i` is the last of, all of them empty.
pub open spec fn blank_run(lines: Seq<Seq<char>>, i: int) -> nat
    decreases i + 1,
{
    if 0 <= i < lines.len() && lines[i].len() == 0 {
        blank_run(lines, i - 1) + 1
    } else {
        0
    }
}

/// Whether line `i` is one of those that are numbered: all lines, but of adjacent empty ones only
/// each one that makes `join` of them full; or the lines that are not empty; or none; or those that
/// match.
pub open spec fn has_number(lines: Seq<Seq<char>>, i: int, kind: NumberingView, join: nat) -> bool {
    match kind {
        NumberingView::All => lines[i].len() > 0 || blank_run(lines, i) % join == 0,
        NumberingView::NonEmpty => lines[i].len() > 0,
        NumberingView::Nothing => false,
        NumberingView::Regex(re) => pattern::is_match((re, false, false), lines[i]),
    }
}

/// How many of the lines before `i` are numbered.
pub open spec fn numbers_before(lines: Seq<Seq<char>>, i: int, kind: NumberingView, join: nat) -> nat
    decreases i,
{
    if i <= 0 {
        0
    } else {
        numbers_before(lines, i - 1, kind, join) + if has_number(lines, i - 1, kind, join) {
            1nat
        } else {
            0nat
        }
    }
}

/// So many times a character.
pub open spec fn repeated(c: char, n: int) -> Seq<char> {
    Seq::new(
        if n > 0 {
            n as nat
        } else {
            0
        },
        |i: int| c,
    )
}

/// What stands before the separator of line `i`: its number at its side of a field of `width`
/// characters, or so many blanks.
pub open spec fn front(lines: Seq<Seq<char>>, i: int, kind: NumberingView, o: NlView, first: int) -> Seq<
    char,
> {
    let join = o.blank_join as nat;
    let d = text::signed_decimal(first + numbers_before(lines, i, kind, join) * o.increment);
    if has_number(lines, i, kind, join) {
        match o.format {
            NumberFormat::Ln => d + repeated(' ', o.width - d.len()),
            NumberFormat::Rn => repeated(' ', o.width - d.len()) + d,
            NumberFormat::Rz => repeated('0', o.width - d.len()) + d,
        }
    } else {
        repeated(' ', o.width as int)
    }
}

/// Whether no line begins a section.
pub open spec fn within_section(lines: Seq<Seq<char>>, o: NlView) -> bool {
    let d = seq![o.delimiter.0, o.delimiter.1];
    forall|i: int|
        0 <= i < lines.len() ==> #[trigger] lines[i] != d && lines[i] != d + d && lines[i] != d + d
            + d
}

proof fn lemma_lines_fronted(lines: Seq<Seq<char>>, o: NlView, st: NlState)
    requires
        within_section(lines, o),
        st.adjacent_blanks == 0,
        o.blank_join > 0,
        lines.len() < u32::MAX,
        forall|k: int|
            0 <= k <= lines.len() ==> i64::MIN <= st.line_number + #[trigger] (k * o.increment)
                <= i64::MAX,
    ensures
        ({
            let kind = kind_of(o, st.section);
            let (out, next) = lines_done(lines, o, st);
            let n = lines.len() as int;
            &&& out == text::unlines(
                Seq::new(
                    lines.len(),
                    |i: int|
                        front(lines, i, kind, o, st.line_number as int) + o.separator + lines[i],
                ),
            )
            &&& next.section == st.section
            &&& next.line_number == st.line_number + numbers_before(
                lines,
                n,
                kind,
                o.blank_join as nat,
            ) * o.increment
            &&& numbers_before(lines, n, kind, o.blank_join as nat) <= n
            &&& next.adjacent_blanks <= n
            &&& kind == NumberingView::All ==> next.adjacent_blanks == blank_run(lines, n - 1)
                % (o.blank_join as nat)
        }),
    decreases lines.len(),
{
    let kind = kind_of(o, st.section);
    let first = st.line_number as int;
    let join = o.blank_join as nat;
    let all = Seq::new(
        lines.len(),
        |i: int| front(lines, i, kind, o, first) + o.separator + lines[i],
    );
    if lines.len() == 0 {
        assert(0 * o.increment == 0) by (nonlinear_arith);
        assert(blank_run(lines, -1) == 0);
    } else {
        let n = lines.len() - 1;
        let front_lines = lines.drop_last();
        assert(within_section(front_lines, o)) by {
            assert forall|i: int| 0 <= i < front_lines.len() implies #[trigger] front_lines[i]
                == lines[i] by {}
        }
        lemma_lines_fronted(front_lines, o, st);
        lemma_numbers_of_shorter(lines, n, kind, join);
        let before = Seq::new(
            front_lines.len(),
            |i: int| front(front_lines, i, kind, o, first) + o.separator + front_lines[i],
        );
        assert forall|i: int| 0 <= i < n implies #[trigger] before[i] == all[i] by {
            lemma_numbers_of_shorter(lines, i, kind, join);
        }
        assert(all.drop_last() =~= before);
        let (done, mid) = lines_done(front_lines, o, st);
        let line = lines.last();
        assert(line == lines[n]);
        assert(section_of(line, o.delimiter) is None);
        let c = counted(line, mid);
        let k = numbers_before(lines, n, kind, join);
        assert(i64::MIN <= first + k * o.increment <= i64::MAX);
        assert(i64::MIN <= first + (k + 1) * o.increment <= i64::MAX);
        assert((k + 1) * o.increment == k * o.increment + o.increment) by (nonlinear_arith);
        let r = blank_run(lines, n - 1);
        assert(blank_run(front_lines, n - 1) == r);
        if kind == NumberingView::All {
            let q = r / join;
            let m = r % join;
            assert(r == join * q + m && m < join) by (nonlinear_arith)
                requires
                    join > 0,
                    q == r / join,
                    m == r % join,
            ;
            if m + 1 == join {
                assert((r + 1) % join == 0) by (nonlinear_arith)
                    requires
                        r == join * q + m,
                        m + 1 == join,
                        join > 0,
                ;
            } else {
                assert((r + 1) % join == m + 1) by (nonlinear_arith)
                    requires
                        r == join * q + m,
                        m + 1 < join,
                        join > 0,
                ;
            }
            assert(0nat % join == 0) by (nonlinear_arith)
                requires
                    join > 0,
            ;
        }
        let number = numbered(line, kind, c.adjacent_blanks, o.blank_join);
        assert(number == has_number(lines, n, kind, join));
        let e = emitted(line, number, o, c).0;
        assert(e =~= all.last());
    }
}

proof fn lemma_numbers_of_shorter(
    lines: Seq<Seq<char>>,
    i: int,
    kind: NumberingView,
    join: nat,
)
    requires
        0 <= i < lines.len(),
    ensures
        numbers_before(lines.drop_last(), i, kind, join) == numbers_before(lines, i, kind, join),
        i < lines.len() - 1 ==> has_number(lines.drop_last(), i, kind, join) == has_number(
            lines,
            i,
            kind,
            join,
        ),
        blank_run(lines.drop_last(), i - 1) == blank_run(lines, i - 1),
    decreases i,
{
    let t = lines.drop_last();
    if i > 0 {
        lemma_numbers_of_shorter(lines, i - 1, kind, join);
        assert(t[i - 1] == lines[i - 1]);
    }
    if i < t.len() {
        assert(t[i] == lines[i]);
        assert(blank_run(t, i - 1) == blank_run(lines, i - 1)) by {
            if i > 0 {
                assert(blank_run(t, i - 2) == blank_run(lines, i - 2));
            }
        }
        assert(blank_run(t, i) == blank_run(lines, i));
    }
}

/// Within a section, each line is printed behind its number field and the separator. Numbers go up
/// by the increment from one numbered line to the next. A line without a number has as many blanks
/// before its separator as the field is wide, so that it lines up with the others.
pub proof fn lemma_lines_line_up(lines: Seq<Seq<char>>, o: NlView, st: NlState)
    requires
        within_section(lines, o),
        st.adjacent_blanks == 0,
        o.blank_join > 0,
        lines.len() < u32::MAX,
        forall|k: int|
            0 <= k <= lines.len() ==> i64::MIN <= st.line_number + #[trigger] (k * o.increment)
                <= i64::MAX,
    ensures
        lines_done(lines, o, st).0 == text::unlines(
            Seq::new(
                lines.len(),
                |i: int|
                    front(
                        lines,
                        i,
                        match st.section {
                            Section::Header => o.header,
                            Section::Body => o.body,
                            Section::Footer => o.footer,
                        },
                        o,
                        st.line_number as int,
                    ) + o.separator + lines[i],
            ),
        ),
{
    lemma_lines_fronted(lines, o, st);
    let kind = kind_of(o, st.section);
    assert(Seq::new(
        lines.len(),
        |i: int| front(lines, i, kind, o, st.line_number as int) + o.separator + lines[i],
    ) =~= Seq::new(
        lines.len(),
        |i: int|
            front(
                lines,
                i,
                match st.section {
                    Section::Header => o.header,
                    Section::Body => o.body,
                    Section::Footer => o.footer,
                },
                o,
                st.line_number as int,
            ) + o.separator + lines[i],
    ));
}

proof fn lemma_lines_done_in_parts(a: Seq<Seq<char>>, b: Seq<Seq<char>>, o: NlView, st: NlState)
    ensures
        ({
            let (x, mid) = lines_done(a, o, st);
            let (y, next) = lines_done(b, o, mid);
            lines_done(a + b, o, st) == (x + y, next)
        }),
    decreases b.len(),
{
    let (x, mid) = lines_done(a, o, st);
    if b.len() == 0 {
        assert(a + b =~= a);
        assert(x + Seq::<char>::empty() =~= x);
    } else {
        lemma_lines_done_in_parts(a, b.drop_last(), o, st);
        assert((a + b).drop_last() =~= a + b.drop_last());
        assert((a + b).last() == b.last());
        let (y, w) = lines_done(b.drop_last(), o, mid);
        let (z, _) = line_done(b.last(), o, w);
        assert(x + y + z =~= x + (y + z));
    }
}

/// A line of one, two or three pairs of delimiter characters is not printed, and begins the footer,
/// the body or the header: what follows is numbered as that section asks, from the first number
/// again, or, where numbering is not to begin again, from the number that would have come next.
pub proof fn lemma_sections(
    before: Seq<Seq<char>>,
    pairs: nat,
    behind: Seq<Seq<char>>,
    o: NlView,
    st: NlState,
)
    requires
        1 <= pairs <= 3,
    ensures
        ({
            let d = seq![o.delimiter.0, o.delimiter.1];
            let line = if pairs == 1 {
                d
            } else if pairs == 2 {
                d + d
            } else {
                d + d + d
            };
            let (x, mid) = lines_done(before, o, st);
            let begun = NlState {
                line_number: if o.restart {
                    o.start_num
                } else {
                    mid.line_number
                },
                section: if pairs == 1 {
                    Section::Footer
                } else if pairs == 2 {
                    Section::Body
                } else {
                    Section::Header
                },
                adjacent_blanks: 0,
            };
            lines_done(before.push(line) + behind, o, st).0 == x + lines_done(behind, o, begun).0
        }),
{
    let d = seq![o.delimiter.0, o.delimiter.1];
    let line = if pairs == 1 {
        d
    } else if pairs == 2 {
        d + d
    } else {
        d + d + d
    };
    assert((d + d).len() == 4 && (d + d + d).len() == 6);
    let a = before.push(line);
    lemma_lines_done_in_parts(a, behind, o, st);
    assert(a.drop_last() =~= before);
    let x = lines_done(before, o, st).0;
    assert(x + Seq::<char>::empty() =~= x);
}

/// Files are numbered as if they were one: the second goes on where the first ended.
pub proof fn lemma_files_are_one<FS: Filesystem>(
    v: env::EnvView<FS>,
    a: Seq<char>,
    b: Seq<char>,
    o: NlView,
)
    requires
        a != "-"@,
        b != "-"@,
        v.fs.reads(a) is Ok,
        v.fs.after(fs::Request::Read(a)).reads(b) is Ok,
    ensures
        ({
            let both = text::lines(v.fs.reads(a)->Ok_0) + text::lines(
                v.fs.after(fs::Request::Read(a)).reads(b)->Ok_0,
            );
            let st = NlState {
                line_number: o.start_num,
                section: Section::Body,
                adjacent_blanks: 0,
            };
            let (w, r) = all_done(v, seq![a, b], o);
            r == Ok::<int, env::ErrorView>(0) && w.out == v.out + lines_done(both, o, st).0
        }),
{
    let st = NlState { line_number: o.start_num, section: Section::Body, adjacent_blanks: 0 };
    let x = text::lines(v.fs.reads(a)->Ok_0);
    let y = text::lines(v.fs.after(fs::Request::Read(a)).reads(b)->Ok_0);
    lemma_lines_done_in_parts(x, y, o, st);
    reveal_with_fuel(files_done, 3);
    let (p, mid) = lines_done(x, o, st);
    let (q, _) = lines_done(y, o, mid);
    assert(v.out + p + q =~= v.out + (p + q));
}

} // verus!
