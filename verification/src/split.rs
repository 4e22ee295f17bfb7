//! The split builtin: split a file into pieces.

use crate::env::{Environment, Error, ExitCode};
use crate::env;
use crate::fs::{Filesystem, FsError};
use crate::fs;
use crate::options::{Arity, OptDef, Parsed};
use crate::options;
use crate::order::Order;
use crate::order;
use crate::pattern;
use crate::text;
use vstd::prelude::*;

verus! {

broadcast use vstd::string::group_string_axioms;

/// Default number of lines per output file.
pub const DEFAULT_LINES: u64 = 1000;

// ---------------------------------------------------------------------------------------------
// Sizes
// ---------------------------------------------------------------------------------------------

/// The factor that a unit letter stands for.
pub open spec fn unit(c: char) -> Option<nat> {
    if c == 'k' || c == 'K' {
        Some(1024)
    } else if c == 'm' || c == 'M' {
        Some(1048576)
    } else if c == 'g' || c == 'G' {
        Some(1073741824)
    } else {
        None
    }
}

pub open spec fn at_most(n: nat, limit: nat) -> Option<nat> {
    if n <= limit {
        Some(n)
    } else {
        None
    }
}

/// The number of bytes that a text gives, with an optional unit letter (k, m, g) at its end.
pub open spec fn byte_count(s: Seq<char>) -> Option<nat> {
    let t = text::trim(s);
    if t.len() == 0 {
        None
    } else if text::is_letter(t.last()) {
        match (unit(t.last()), text::unsigned(t.drop_last(), u64::MAX as nat)) {
            (Some(factor), Some(n)) => at_most(n * factor, u64::MAX as nat),
            _ => None,
        }
    } else {
        text::unsigned(t, u64::MAX as nat)
    }
}

/// Parses a byte count string that may include suffixes (k, m, g).
pub fn parse_byte_count(s: &str) -> (r: Option<u64>)
    ensures
        match r {
            Some(n) => byte_count(s@) == Some(n as nat),
            None => byte_count(s@) is None,
        },
{
    let t = text::trimmed(s);
    let v = text::chars(t.as_str());
    let n: usize = v.len();
    if n == 0 {
        return None;
    }
    let c = v[n - 1];
    if text::letter(c) {
        let factor: u64 = if c == 'k' || c == 'K' {
            1024
        } else if c == 'm' || c == 'M' {
            1048576
        } else if c == 'g' || c == 'G' {
            1073741824
        } else {
            return None;
        };
        let head = text::slice(&v, 0, n - 1);
        assert(head@ =~= t@.drop_last());
        match text::parse_unsigned(head.as_str(), u64::MAX) {
            Some(num) => num.checked_mul(factor),
            None => None,
        }
    } else {
        text::parse_unsigned(t.as_str(), u64::MAX)
    }
}

// ---------------------------------------------------------------------------------------------
// Names
// ---------------------------------------------------------------------------------------------

pub open spec fn base_of(numeric: bool) -> nat {
    if numeric {
        10
    } else {
        26
    }
}

pub open spec fn power(base: nat, e: nat) -> nat
    decreases e,
{
    if e == 0 {
        1
    } else {
        base * power(base, (e - 1) as nat)
    }
}

pub open spec fn suffix_char(digit: nat, numeric: bool) -> char {
    if numeric {
        ('0' as nat + digit) as char
    } else {
        ('a' as nat + digit) as char
    }
}

/// A file number in digits or letters, of a fixed length.
pub open spec fn suffix(num: nat, len: nat, numeric: bool) -> Seq<char>
    decreases len,
{
    if len == 0 {
        Seq::empty()
    } else {
        suffix(num / base_of(numeric), (len - 1) as nat, numeric).push(
            suffix_char(num % base_of(numeric), numeric),
        )
    }
}

/// Generates suffix for file number.
pub fn generate_suffix(num: u64, len: usize, numeric: bool) -> (r: String)
    ensures
        r@ == suffix(num as nat, len as nat, numeric),
{
    let base: u64 = if numeric {
        10
    } else {
        26
    };
    let mut v: Vec<char> = Vec::new();
    let mut n: u64 = num;
    let mut i: usize = 0;
    let ghost total = suffix(num as nat, len as nat, numeric);
    assert(total + v@.reverse() =~= total);
    while i < len
        invariant
            i <= len,
            base == base_of(numeric),
            v@.len() == i,
            suffix(n as nat, (len - i) as nat, numeric) + v@.reverse() == total,
        decreases len - i,
    {
        let d: u8 = (n % base) as u8;
        let c: char = if numeric {
            (48u8 + d) as char
        } else {
            (97u8 + d) as char
        };
        let ghost before = v@;
        let ghost shorter = suffix((n / base) as nat, (len - i - 1) as nat, numeric);
        v.push(c);
        assert(c == suffix_char((n % base) as nat, numeric));
        assert(v@.reverse() =~= seq![c] + before.reverse());
        assert(shorter.push(c) + before.reverse() =~= shorter + v@.reverse());
        n = n / base;
        i += 1;
    }
    let mut s = String::new();
    let mut k: usize = v.len();
    while k > 0
        invariant
            k <= v@.len(),
            s@ == v@.reverse().take(v@.len() - k),
        decreases k,
    {
        k -= 1;
        s.push(v[k]);
        assert(s@ =~= v@.reverse().take(v@.len() - k));
    }
    assert(s@ =~= v@.reverse());
    assert(suffix(n as nat, 0, numeric) + v@.reverse() =~= v@.reverse());
    s
}

/// The number of files that suffixes of a length can tell apart, as far as it can be counted.
pub open spec fn file_limit(suffix_len: usize, numeric: bool) -> nat {
    let p = power(base_of(numeric), (suffix_len as u32) as nat);
    if p <= u64::MAX {
        p
    } else {
        u64::MAX as nat
    }
}

proof fn lemma_power_grows(base: nat, a: nat, b: nat)
    requires
        base >= 1,
        a <= b,
    ensures
        1 <= power(base, a) <= power(base, b),
    decreases b,
{
    if a < b {
        lemma_power_grows(base, a, (b - 1) as nat);
        let p = power(base, (b - 1) as nat);
        assert(p <= base * p) by (nonlinear_arith)
            requires
                base >= 1,
        ;
    } else if a > 0 {
        lemma_power_grows(base, (a - 1) as nat, (a - 1) as nat);
        let p = power(base, (a - 1) as nat);
        assert(1 <= base * p) by (nonlinear_arith)
            requires
                base >= 1,
                p >= 1,
        ;
    }
}

/// Calculates max files for a given suffix length.
pub fn max_files(suffix_len: usize, numeric: bool) -> (r: u64)
    ensures
        r == file_limit(suffix_len, numeric),
        r >= 1,
{
    let base: u64 = if numeric {
        10
    } else {
        26
    };
    let e: u32 = #[verifier::truncate] (suffix_len as u32);
    let mut p: u64 = 1;
    let mut i: u32 = 0;
    while i < e
        invariant
            i <= e,
            base == base_of(numeric),
            e == suffix_len as u32,
            p == power(base as nat, i as nat),
            p >= 1,
        decreases e - i,
    {
        proof {
            lemma_power_grows(base as nat, (i + 1) as nat, e as nat);
            assert(power(base as nat, (i + 1) as nat) == base * p);
            assert(base * p == p * base) by (nonlinear_arith);
        }
        match p.checked_mul(base) {
            Some(q) => {
                p = q;
            },
            None => {
                return u64::MAX;
            },
        }
        i += 1;
    }
    p
}

/// State for generating output file names.
pub struct FileNameGenerator {
    pub prefix: String,
    pub suffix_len: usize,
    pub numeric: bool,
    pub auto_suffix: bool,
    pub file_num: u64,
}

/// Which names were generated so far.
pub ghost struct Names {
    pub prefix: Seq<char>,
    pub suffix_len: usize,
    pub numeric: bool,
    pub auto_suffix: bool,
    pub file_num: u64,
}

impl View for FileNameGenerator {
    type V = Names;

    open spec fn view(&self) -> Names {
        Names {
            prefix: self.prefix@,
            suffix_len: self.suffix_len,
            numeric: self.numeric,
            auto_suffix: self.auto_suffix,
            file_num: self.file_num,
        }
    }
}

impl Names {
    /// With longer suffixes where those of the present length are used up and may grow.
    pub open spec fn grown(self) -> Names {
        if self.file_num >= file_limit(self.suffix_len, self.numeric) && self.auto_suffix
            && !self.numeric && self.suffix_len < usize::MAX {
            Names { suffix_len: (self.suffix_len + 1) as usize, file_num: 0, ..self }
        } else {
            self
        }
    }

    /// Whether no name is left.
    pub open spec fn exhausted(self) -> bool {
        self.grown().file_num >= file_limit(self.grown().suffix_len, self.numeric)
    }

    /// The next name.
    pub open spec fn name(self) -> Seq<char> {
        let g = self.grown();
        g.prefix + suffix(g.file_num as nat, g.suffix_len as nat, g.numeric)
    }

    /// After the next name was generated.
    pub open spec fn next(self) -> Names {
        let g = self.grown();
        Names { file_num: (g.file_num + 1) as u64, ..g }
    }
}

impl FileNameGenerator {
    pub fn new(prefix: String, suffix_len: usize, numeric: bool, auto_suffix: bool) -> (r: Self)
        ensures
            r@ == (Names {
                prefix: prefix@,
                suffix_len,
                numeric,
                auto_suffix,
                file_num: 0,
            }),
    {
        FileNameGenerator {
            prefix,
            suffix_len,
            numeric,
            auto_suffix,
            file_num: 0,
        }
    }

    /// The next name; nothing where suffixes of the fixed length are used up.
    pub fn next_name(&mut self) -> (r: Option<String>)
        ensures
            match r {
                Some(name) => !old(self)@.exhausted() && name@ == old(self)@.name()
                    && final(self)@ == old(self)@.next(),
                None => old(self)@.exhausted() && final(self)@ == old(self)@,
            },
    {
        let max = max_files(self.suffix_len, self.numeric);
        if self.file_num >= max {
            if self.auto_suffix && !self.numeric && self.suffix_len < usize::MAX {
                self.suffix_len = self.suffix_len + 1;
                self.file_num = 0;
                let more = max_files(self.suffix_len, self.numeric);
                assert(more >= 1);
            } else {
                return None;
            }
        }
        let s = generate_suffix(self.file_num, self.suffix_len, self.numeric);
        self.file_num = self.file_num + 1;
        let mut name = self.prefix.clone();
        name.append(s.as_str());
        Some(name)
    }
}

/// The first of the names that come that may be used, and what is left of them: with `no_clobber`
/// one that names nothing yet.
pub open spec fn picked<FS: Filesystem>(v: env::EnvView<FS>, names: Names, no_clobber: bool) -> (
    env::EnvView<FS>,
    Option<(Seq<char>, Names)>,
)
    decreases usize::MAX - names.suffix_len, u64::MAX - names.file_num,
{
    if names.exhausted() {
        (v, None)
    } else if no_clobber {
        let w = v.with_fs(v.fs.after(fs::Request::Exists(names.name())));
        if v.fs.has(names.name()) {
            picked(w, names.next(), no_clobber)
        } else {
            (w, Some((names.name(), names.next())))
        }
    } else {
        (v, Some((names.name(), names.next())))
    }
}

fn pick<FS: Filesystem>(env: &mut Environment<FS>, names: &mut FileNameGenerator, no_clobber: bool) -> (r:
    Option<String>)
    ensures
        match r {
            Some(name) => picked(old(env)@, old(names)@, no_clobber) == (
                final(env)@,
                Some((name@, final(names)@)),
            ),
            None => picked(old(env)@, old(names)@, no_clobber) == (
                final(env)@,
                None::<(Seq<char>, Names)>,
            ),
        },
{
    loop
        invariant
            picked(env@, names@, no_clobber) == picked(old(env)@, old(names)@, no_clobber),
        decreases usize::MAX - names.suffix_len, u64::MAX - names.file_num,
    {
        match names.next_name() {
            None => {
                return None;
            },
            Some(name) => {
                if no_clobber {
                    if !env.fs.path_exists(name.as_str()) {
                        return Some(name);
                    }
                } else {
                    return Some(name);
                }
            },
        }
    }
}

/// What writing the pieces from `i` on, each to a file of its own, comes to.
pub open spec fn written<FS: Filesystem>(
    v: env::EnvView<FS>,
    pieces: Seq<Seq<char>>,
    i: int,
    names: Names,
    no_clobber: bool,
) -> (env::EnvView<FS>, Result<int, env::ErrorView>)
    decreases pieces.len() - i,
{
    if i < 0 || i >= pieces.len() {
        (v, Ok(0))
    } else {
        match picked(v, names, no_clobber) {
            (w, None) => (w.error_line("split: too many files"@), Ok(1)),
            (w, Some((name, rest))) => {
                let x = w.with_fs(w.fs.after(fs::Request::Write(name, pieces[i])));
                match w.fs.writes(name, pieces[i]) {
                    Ok(_) => written(x, pieces, i + 1, rest, no_clobber),
                    Err(e) => (x, Err(env::ErrorView::Io(e))),
                }
            },
        }
    }
}

/// Writes the pieces, each to a file of its own.
pub fn write_pieces<FS: Filesystem>(
    env: &mut Environment<FS>,
    pieces: &Vec<String>,
    prefix: &str,
    options: &SplitOptions,
) -> (r: Result<ExitCode, Error>)
    ensures
        (final(env)@, env::outcome(r)) == written(
            old(env)@,
            pieces.deep_view(),
            0,
            first_name(prefix@, options@),
            options.no_clobber,
        ),
{
    let mut names = FileNameGenerator::new(
        prefix.to_owned(),
        options.suffix_len,
        options.numeric_suffix,
        options.auto_suffix,
    );
    let ghost all = pieces.deep_view();
    let mut i: usize = 0;
    while i < pieces.len()
        invariant
            i <= pieces@.len(),
            all == pieces.deep_view(),
            written(env@, all, i as int, names@, options.no_clobber) == written(
                old(env)@,
                all,
                0,
                first_name(prefix@, options@),
                options.no_clobber,
            ),
        decreases pieces.len() - i,
    {
        let name = match pick(env, &mut names, options.no_clobber) {
            Some(n) => n,
            None => {
                env.error_line("split: too many files");
                return Ok(ExitCode::new(1));
            },
        };
        match env.fs.write_string(name.as_str(), pieces[i].as_str()) {
            Ok(_) => {},
            Err(e) => {
                return Err(env::error_of(e));
            },
        }
        i += 1;
    }
    Ok(ExitCode::new(0))
}

// ---------------------------------------------------------------------------------------------
// Pieces
// ---------------------------------------------------------------------------------------------

/// Each `n` lines together; the last piece may have fewer.
pub open spec fn line_pieces(lines: Seq<Seq<char>>, n: nat) -> Seq<Seq<char>>
    decreases lines.len(),
{
    if lines.len() == 0 || n == 0 {
        Seq::empty()
    } else if lines.len() <= n {
        seq![text::unlines(lines)]
    } else {
        seq![text::unlines(lines.take(n as int))] + line_pieces(lines.skip(n as int), n)
    }
}

/// Each `n` bytes together; the last piece may have fewer.
pub open spec fn byte_pieces(b: Seq<u8>, n: nat) -> Seq<Seq<u8>>
    decreases b.len(),
{
    if b.len() == 0 || n == 0 {
        Seq::empty()
    } else if b.len() <= n {
        seq![b]
    } else {
        seq![b.take(n as int)] + byte_pieces(b.skip(n as int), n)
    }
}

pub open spec fn shown(pieces: Seq<Seq<u8>>) -> Seq<Seq<char>> {
    Seq::new(pieces.len(), |i: int| text::lossy(pieces[i]))
}

/// A piece for each marked line, up to the next marked line; lines before the first marked one are
/// a piece of their own. `start` is where the present piece began.
pub open spec fn marked_pieces(
    lines: Seq<Seq<char>>,
    marks: Seq<bool>,
    start: int,
    i: int,
) -> Seq<Seq<char>>
    decreases lines.len() - i,
{
    if i < 0 || i >= lines.len() {
        if start < lines.len() {
            seq![text::unlines(lines.skip(start))]
        } else {
            Seq::empty()
        }
    } else if marks[i] && start < i {
        seq![text::unlines(lines.subrange(start, i))] + marked_pieces(lines, marks, i, i + 1)
    } else {
        marked_pieces(lines, marks, start, i + 1)
    }
}

/// The lines from `from` up to, not including, `to`, each followed by a newline.
fn lines_text(lines: &Vec<String>, from: usize, to: usize) -> (r: String)
    requires
        from <= to <= lines@.len(),
    ensures
        r@ == text::unlines(lines.deep_view().subrange(from as int, to as int)),
{
    let mut s = String::new();
    let ghost all = lines.deep_view();
    let mut i: usize = from;
    while i < to
        invariant
            from <= i <= to <= lines@.len(),
            all == lines.deep_view(),
            s@ == text::unlines(all.subrange(from as int, i as int)),
        decreases to - i,
    {
        let ghost before = s@;
        proof {
            let t = all.subrange(from as int, i + 1);
            assert(t.drop_last() =~= all.subrange(from as int, i as int));
            assert(t.last() == all[i as int]);
        }
        s.append(lines[i].as_str());
        s.push('\n');
        assert(s@ =~= before + text::terminated(all[i as int]));
        i += 1;
    }
    s
}

/// Puts each `n` lines together. No piece is without lines: a count of zero is taken as one.
pub fn split_by_lines(lines: &Vec<String>, line_count: u64) -> (r: Vec<String>)
    ensures
        r.deep_view() == line_pieces(
            lines.deep_view(),
            if line_count > 0 {
                line_count as nat
            } else {
                1
            },
        ),
{
    let line_count: u64 = if line_count > 0 {
        line_count
    } else {
        1
    };
    let mut out: Vec<String> = Vec::new();
    let ghost all = lines.deep_view();
    let mut start: usize = 0;
    assert(all.skip(0) =~= all);
    assert(out.deep_view() + line_pieces(all, line_count as nat) =~= line_pieces(
        all,
        line_count as nat,
    ));
    while start < lines.len()
        invariant
            start <= lines@.len(),
            line_count > 0,
            all == lines.deep_view(),
            out.deep_view() + line_pieces(all.skip(start as int), line_count as nat)
                == line_pieces(all, line_count as nat),
        decreases lines.len() - start,
    {
        let ghost shown = out.deep_view();
        let ghost rest = all.skip(start as int);
        let left: usize = lines.len() - start;
        let end: usize = if left as u64 <= line_count {
            lines.len()
        } else {
            start + line_count as usize
        };
        let t = lines_text(lines, start, end);
        out.push(t);
        proof {
            assert(out.deep_view() =~= shown.push(t@));
            if left as u64 <= line_count {
                assert(all.subrange(start as int, end as int) =~= rest);
                assert(all.skip(end as int) =~= Seq::<Seq<char>>::empty());
                assert(out.deep_view() + line_pieces(all.skip(end as int), line_count as nat)
                    =~= shown + seq![t@]);
            } else {
                assert(all.subrange(start as int, end as int) =~= rest.take(line_count as int));
                assert(rest.skip(line_count as int) =~= all.skip(end as int));
                let tail = line_pieces(all.skip(end as int), line_count as nat);
                assert(out.deep_view() + tail =~= shown + (seq![t@] + tail));
            }
        }
        start = end;
    }
    assert(all.skip(start as int) =~= Seq::<Seq<char>>::empty());
    assert(out.deep_view() + Seq::<Seq<char>>::empty() =~= out.deep_view());
    out
}

fn byte_range(b: &[u8], from: usize, to: usize) -> (r: Vec<u8>)
    requires
        from <= to <= b@.len(),
    ensures
        r@ == b@.subrange(from as int, to as int),
{
    let mut v: Vec<u8> = Vec::new();
    let mut i: usize = from;
    while i < to
        invariant
            from <= i <= to <= b@.len(),
            v@ == b@.subrange(from as int, i as int),
        decreases to - i,
    {
        v.push(b[i]);
        i += 1;
    }
    v
}

/// Puts each `byte_count` bytes of a text together.
pub fn split_by_bytes(input: &str, byte_count: u64) -> (r: Vec<String>)
    requires
        byte_count > 0,
    ensures
        r.deep_view() == shown(
            byte_pieces(vstd::utf8::encode_utf8(input@), byte_count as nat),
        ),
{
    let bytes = input.as_bytes();
    let ghost all = bytes@;
    let ghost total = shown(byte_pieces(all, byte_count as nat));
    let mut out: Vec<String> = Vec::new();
    let mut offset: usize = 0;
    assert(all.skip(0) =~= all);
    assert(out.deep_view() + total =~= total);
    while offset < bytes.len()
        invariant
            offset <= bytes@.len(),
            byte_count > 0,
            all == bytes@,
            out.deep_view() + shown(byte_pieces(all.skip(offset as int), byte_count as nat))
                == total,
        decreases bytes.len() - offset,
    {
        let ghost before = out.deep_view();
        let ghost rest = all.skip(offset as int);
        let left: usize = bytes.len() - offset;
        let end: usize = if left as u64 <= byte_count {
            bytes.len()
        } else {
            offset + byte_count as usize
        };
        let chunk = byte_range(bytes, offset, end);
        let t = text::decode_lossy(&chunk);
        out.push(t);
        proof {
            assert(out.deep_view() =~= before.push(t@));
            if left as u64 <= byte_count {
                assert(chunk@ =~= rest);
                assert(all.skip(end as int) =~= Seq::<u8>::empty());
                assert(out.deep_view() + shown(
                    byte_pieces(all.skip(end as int), byte_count as nat),
                ) =~= before + shown(seq![chunk@]));
            } else {
                assert(chunk@ =~= rest.take(byte_count as int));
                assert(rest.skip(byte_count as int) =~= all.skip(end as int));
                let tail = byte_pieces(all.skip(end as int), byte_count as nat);
                assert(out.deep_view() + shown(tail) =~= before + shown(seq![chunk@] + tail));
            }
        }
        offset = end;
    }
    assert(all.skip(offset as int) =~= Seq::<u8>::empty());
    assert(out.deep_view() + shown(Seq::<Seq<u8>>::empty()) =~= out.deep_view());
    out
}

/// Begins a piece at each marked line.
pub fn split_at_marks(lines: &Vec<String>, marks: &Vec<bool>) -> (r: Vec<String>)
    requires
        marks@.len() == lines@.len(),
    ensures
        r.deep_view() == marked_pieces(lines.deep_view(), marks@, 0, 0),
{
    let mut out: Vec<String> = Vec::new();
    let ghost all = lines.deep_view();
    let ghost total = marked_pieces(all, marks@, 0, 0);
    let mut start: usize = 0;
    let mut i: usize = 0;
    assert(out.deep_view() + total =~= total);
    while i < lines.len()
        invariant
            start <= i <= lines@.len(),
            marks@.len() == lines@.len(),
            all == lines.deep_view(),
            out.deep_view() + marked_pieces(all, marks@, start as int, i as int) == total,
        decreases lines.len() - i,
    {
        if marks[i] && start < i {
            let ghost before = out.deep_view();
            let t = lines_text(lines, start, i);
            out.push(t);
            proof {
                assert(out.deep_view() =~= before.push(t@));
                let tail = marked_pieces(all, marks@, i as int, i + 1);
                assert(out.deep_view() + tail =~= before + (seq![t@] + tail));
            }
            start = i;
        }
        i += 1;
    }
    if start < lines.len() {
        let ghost before = out.deep_view();
        let t = lines_text(lines, start, lines.len());
        assert(all.subrange(start as int, all.len() as int) =~= all.skip(start as int));
        out.push(t);
        assert(out.deep_view() =~= before + seq![t@]);
    } else {
        assert(out.deep_view() + Seq::<Seq<char>>::empty() =~= out.deep_view());
    }
    out
}

/// Which lines match a pattern.
pub open spec fn matching(pattern: Seq<char>, lines: Seq<Seq<char>>) -> Seq<bool> {
    Seq::new(lines.len(), |i: int| pattern::is_match((pattern, false, false), lines[i]))
}

/// Begins a piece at each line that matches.
fn split_by_pattern(lines: &Vec<String>, re: &regex::Regex) -> (r: Vec<String>)
    requires
        pattern::built_from(*re) == (pattern::built_from(*re).0, false, false),
    ensures
        r.deep_view() == marked_pieces(
            lines.deep_view(),
            matching(pattern::built_from(*re).0, lines.deep_view()),
            0,
            0,
        ),
{
    let mut marks: Vec<bool> = Vec::new();
    let ghost all = lines.deep_view();
    let ghost ms = matching(pattern::built_from(*re).0, all);
    let mut i: usize = 0;
    while i < lines.len()
        invariant
            i <= lines@.len(),
            all == lines.deep_view(),
            pattern::built_from(*re) == (pattern::built_from(*re).0, false, false),
            ms == matching(pattern::built_from(*re).0, all),
            marks@ == ms.take(i as int),
        decreases lines.len() - i,
    {
        marks.push(pattern::matches(re, lines[i].as_str()));
        assert(marks@ =~= ms.take(i + 1));
        i += 1;
    }
    assert(ms.take(i as int) =~= ms);
    split_at_marks(lines, &marks)
}

// ---------------------------------------------------------------------------------------------
// The command
// ---------------------------------------------------------------------------------------------

/// Options for the split command.
pub struct SplitOptions {
    /// Number of lines per file (if splitting by lines).
    pub lines: Option<u64>,
    /// Number of bytes per file (if splitting by bytes).
    pub bytes: Option<u64>,
    /// Number of chunks to split into.
    pub chunks: Option<u64>,
    /// Pattern to split on (regex).
    pub pattern: Option<regex::Regex>,
    /// Suffix length.
    pub suffix_len: usize,
    /// Use numeric suffix instead of alphabetic.
    pub numeric_suffix: bool,
    /// Don't clobber existing files.
    pub no_clobber: bool,
    /// Auto-extend suffix length if needed.
    pub auto_suffix: bool,
}

pub ghost struct SplitView {
    pub lines: Option<u64>,
    pub bytes: Option<u64>,
    pub chunks: Option<u64>,
    pub pattern: Option<Seq<char>>,
    pub suffix_len: usize,
    pub numeric: bool,
    pub no_clobber: bool,
    pub auto_suffix: bool,
}

impl View for SplitOptions {
    type V = SplitView;

    open spec fn view(&self) -> SplitView {
        SplitView {
            lines: self.lines,
            bytes: self.bytes,
            chunks: self.chunks,
            pattern: match self.pattern {
                Some(re) => Some(pattern::built_from(re).0),
                None => None,
            },
            suffix_len: self.suffix_len,
            numeric: self.numeric_suffix,
            no_clobber: self.no_clobber,
            auto_suffix: self.auto_suffix,
        }
    }
}

impl SplitOptions {
    /// Whether counts are positive and the pattern is a plain one.
    pub open spec fn valid(self) -> bool {
        &&& self.lines matches Some(n) ==> n > 0
        &&& self.bytes matches Some(n) ==> n > 0
        &&& self.chunks matches Some(n) ==> n > 0
        &&& self.pattern matches Some(re) ==> pattern::built_from(re) == (
            pattern::built_from(re).0,
            false,
            false,
        )
    }
}

pub open spec fn first_name(prefix: Seq<char>, o: SplitView) -> Names {
    Names {
        prefix,
        suffix_len: o.suffix_len,
        numeric: o.numeric,
        auto_suffix: o.auto_suffix,
        file_num: 0,
    }
}

/// What splitting the input comes to.
pub open spec fn input_split<FS: Filesystem>(
    v: env::EnvView<FS>,
    input: Seq<char>,
    prefix: Seq<char>,
    o: SplitView,
) -> (env::EnvView<FS>, Result<int, env::ErrorView>) {
    let b = vstd::utf8::encode_utf8(input);
    let first = first_name(prefix, o);
    if o.bytes is Some {
        written(v, shown(byte_pieces(b, o.bytes->0 as nat)), 0, first, o.no_clobber)
    } else if o.chunks is Some {
        if o.chunks->0 > b.len() {
            (
                v.error_line(
                    "split: can't split into more than "@ + text::decimal(b.len()) + " files"@,
                ),
                Ok(1),
            )
        } else {
            written(
                v,
                shown(byte_pieces(b, b.len() / o.chunks->0 as nat)),
                0,
                first,
                o.no_clobber,
            )
        }
    } else if o.pattern is Some {
        let lines = text::lines(input);
        written(
            v,
            marked_pieces(lines, matching(o.pattern->0, lines), 0, 0),
            0,
            first,
            o.no_clobber,
        )
    } else {
        let n: u64 = match o.lines {
            Some(n) => n,
            None => DEFAULT_LINES,
        };
        written(v, line_pieces(text::lines(input), n as nat), 0, first, o.no_clobber)
    }
}

/// Splits the input.
pub fn split_input<FS: Filesystem>(
    env: &mut Environment<FS>,
    input: &str,
    prefix: &str,
    options: &SplitOptions,
) -> (r: Result<ExitCode, Error>)
    requires
        options.valid(),
    ensures
        (final(env)@, env::outcome(r)) == input_split(old(env)@, input@, prefix@, options@),
{
    if let Some(n) = options.bytes {
        let pieces = split_by_bytes(input, n);
        return write_pieces(env, &pieces, prefix, options);
    }
    if let Some(n) = options.chunks {
        let total: u64 = input.as_bytes().len() as u64;
        if n > total {
            let mut m = "split: can't split into more than ".to_owned();
            let d = text::to_decimal(total);
            m.append(d.as_str());
            m.append(" files");
            env.error_line(m.as_str());
            return Ok(ExitCode::new(1));
        }
        proof {
            assert(total / n >= 1) by (nonlinear_arith)
                requires
                    total >= n > 0,
            ;
        }
        let pieces = split_by_bytes(input, total / n);
        return write_pieces(env, &pieces, prefix, options);
    }
    let lines = text::lines_of(input);
    match &options.pattern {
        Some(re) => {
            let pieces = split_by_pattern(&lines, re);
            write_pieces(env, &pieces, prefix, options)
        },
        None => {
            let n: u64 = match options.lines {
                Some(n) => n,
                None => DEFAULT_LINES,
            };
            let pieces = split_by_lines(&lines, n);
            write_pieces(env, &pieces, prefix, options)
        },
    }
}

/// The options of the command.
pub open spec fn table() -> Seq<OptDef> {
    seq![
        OptDef { short: 'l', long: "", arity: Arity::Value },
        OptDef { short: 'b', long: "", arity: Arity::Value },
        OptDef { short: 'n', long: "", arity: Arity::Value },
        OptDef { short: 'p', long: "", arity: Arity::Value },
        OptDef { short: 'a', long: "", arity: Arity::Value },
        OptDef { short: 'd', long: "", arity: Arity::Flag },
        OptDef { short: 'c', long: "", arity: Arity::Flag },
    ]
}

fn build_options() -> (r: Vec<OptDef>)
    ensures
        r@ == table(),
        options::all_declarable(options::definitions(r@)),
{
    let r = vec![
        OptDef { short: 'l', long: "", arity: Arity::Value },
        OptDef { short: 'b', long: "", arity: Arity::Value },
        OptDef { short: 'n', long: "", arity: Arity::Value },
        OptDef { short: 'p', long: "", arity: Arity::Value },
        OptDef { short: 'a', long: "", arity: Arity::Value },
        OptDef { short: 'd', long: "", arity: Arity::Flag },
        OptDef { short: 'c', long: "", arity: Arity::Flag },
    ];
    proof {
        reveal_strlit("");
    }
    r
}

/// A positive number where an option gives one; nothing where what it gives is none.
pub open spec fn positive(given: Option<Seq<char>>) -> Option<Option<u64>> {
    match given {
        None => Some(None),
        Some(s) => match text::unsigned(s, u64::MAX as nat) {
            Some(n) => if n > 0 {
                Some(Some(n as u64))
            } else {
                None
            },
            None => None,
        },
    }
}

/// A positive number of bytes where an option gives one; nothing where what it gives is none.
pub open spec fn positive_bytes(given: Option<Seq<char>>) -> Option<Option<u64>> {
    match given {
        None => Some(None),
        Some(s) => match byte_count(s) {
            Some(n) => if n > 0 {
                Some(Some(n as u64))
            } else {
                None
            },
            None => None,
        },
    }
}

/// The length of suffixes and whether they may grow; nothing where what is given is no length.
pub open spec fn suffix_setting(given: Option<Seq<char>>) -> Option<(usize, bool)> {
    match given {
        None => Some((2, true)),
        Some(s) => match text::unsigned(s, usize::MAX as nat) {
            Some(n) => if n == 0 {
                Some((2, true))
            } else {
                Some((n as usize, false))
            },
            None => None,
        },
    }
}

pub open spec fn complaint(what: Seq<char>, problem: Seq<char>) -> Seq<char> {
    "split: "@ + what + problem
}

/// The settings that a command line gives; or the words of the error.
pub open spec fn settings(p: options::ParsedView) -> Result<SplitView, Seq<char>> {
    match suffix_setting(p.value('a')) {
        None => Err(complaint(p.value('a')->0, ": invalid suffix length"@)),
        Some((suffix_len, auto_suffix)) => match positive(p.value('l')) {
            None => Err(complaint(p.value('l')->0, ": invalid line count"@)),
            Some(lines) => match positive_bytes(p.value('b')) {
                None => Err(complaint(p.value('b')->0, ": invalid byte count"@)),
                Some(bytes) => match positive(p.value('n')) {
                    None => Err(complaint(p.value('n')->0, ": invalid chunk count"@)),
                    Some(chunks) => {
                        let bad = match p.value('p') {
                            Some(re) => pattern::build_error(re, false, false),
                            None => None,
                        };
                        if bad is Some {
                            Err(complaint(p.value('p')->0, ": invalid regex: "@) + bad->0)
                        } else {
                            Ok(
                                SplitView {
                                    lines,
                                    bytes,
                                    chunks,
                                    pattern: p.value('p'),
                                    suffix_len,
                                    numeric: p.present('d'),
                                    no_clobber: p.present('c'),
                                    auto_suffix,
                                },
                            )
                        }
                    },
                },
            },
        },
    }
}

/// What stands against using settings together, if anything does.
pub open spec fn conflict(o: SplitView) -> Option<Seq<char>> {
    if (o.bytes is Some && o.chunks is Some) || (o.bytes is Some && o.pattern is Some) || (
    o.chunks is Some && o.pattern is Some) {
        Some("split: -b, -n, and -p are mutually exclusive"@)
    } else if o.pattern is Some && o.lines is Some {
        Some("split: -p is incompatible with -l"@)
    } else {
        None
    }
}

/// The prefix of the names of the pieces.
pub open spec fn prefix_of(free: Seq<Seq<char>>) -> Seq<char> {
    if free.len() > 1 {
        free[1]
    } else {
        "x"@
    }
}

/// What the command does once its options are known.
pub open spec fn ran<FS: Filesystem>(v: env::EnvView<FS>, p: options::ParsedView) -> (
    env::EnvView<FS>,
    Result<int, env::ErrorView>,
) {
    match settings(p) {
        Err(e) => (v.error_line(e), Ok(1)),
        Ok(o) => if conflict(o) is Some {
            (v.error_line(conflict(o)->0), Ok(1))
        } else if p.free.len() > 2 {
            (v.error_line("split: too many arguments"@), Ok(1))
        } else if p.free.len() == 0 || p.free[0] == "-"@ {
            input_split(v.drained(), text::ended(v.stdin, '\n'), prefix_of(p.free), o)
        } else {
            let w = v.with_fs(v.fs.after(fs::Request::Read(p.free[0])));
            match v.fs.reads(p.free[0]) {
                Ok(input) => input_split(w, input, prefix_of(p.free), o),
                Err(e) => (w.error_line("split: "@ + p.free[0] + ": "@ + e.message), Ok(1)),
            }
        },
    }
}

/// What the command does.
pub open spec fn spec_bin<FS: Filesystem>(v: env::EnvView<FS>) -> (
    env::EnvView<FS>,
    Result<int, env::ErrorView>,
) {
    match options::parsed(table(), v.args.skip(1)) {
        Ok(p) => ran(v, p),
        Err(message) => (v.error_line("split: "@ + message), Ok(1)),
    }
}

fn read_positive(given: Option<String>) -> (r: Option<Option<u64>>)
    ensures
        r == positive(options::opt_text(given)),
        r matches Some(Some(n)) ==> n > 0,
{
    match given {
        None => Some(None),
        Some(s) => match text::parse_unsigned(s.as_str(), u64::MAX) {
            Some(n) => if n > 0 {
                Some(Some(n))
            } else {
                None
            },
            None => None,
        },
    }
}

fn read_positive_bytes(given: Option<String>) -> (r: Option<Option<u64>>)
    ensures
        r == positive_bytes(options::opt_text(given)),
        r matches Some(Some(n)) ==> n > 0,
{
    match given {
        None => Some(None),
        Some(s) => match parse_byte_count(s.as_str()) {
            Some(n) => if n > 0 {
                Some(Some(n))
            } else {
                None
            },
            None => None,
        },
    }
}

fn read_suffix(given: Option<String>) -> (r: Option<(usize, bool)>)
    ensures
        r == suffix_setting(options::opt_text(given)),
{
    match given {
        None => Some((2, true)),
        Some(s) => match text::parse_unsigned(s.as_str(), usize::MAX as u64) {
            Some(n) => if n == 0 {
                Some((2, true))
            } else {
                Some((n as usize, false))
            },
            None => None,
        },
    }
}

fn complain(given: Option<String>, problem: &str) -> (r: String)
    requires
        given is Some,
    ensures
        r@ == complaint(given->0@, problem@),
{
    let mut m = "split: ".to_owned();
    if let Some(s) = given {
        m.append(s.as_str());
    }
    m.append(problem);
    m
}

/// Reads the settings from a command line.
pub fn read_settings(p: &Parsed) -> (r: Result<SplitOptions, String>)
    ensures
        match r {
            Ok(o) => settings(p@) == Ok::<SplitView, Seq<char>>(o@) && o.valid(),
            Err(e) => settings(p@) == Err::<SplitView, Seq<char>>(e@),
        },
{
    let (suffix_len, auto_suffix) = match read_suffix(p.value('a')) {
        Some(x) => x,
        None => {
            return Err(complain(p.value('a'), ": invalid suffix length"));
        },
    };
    let lines = match read_positive(p.value('l')) {
        Some(x) => x,
        None => {
            return Err(complain(p.value('l'), ": invalid line count"));
        },
    };
    let bytes = match read_positive_bytes(p.value('b')) {
        Some(x) => x,
        None => {
            return Err(complain(p.value('b'), ": invalid byte count"));
        },
    };
    let chunks = match read_positive(p.value('n')) {
        Some(x) => x,
        None => {
            return Err(complain(p.value('n'), ": invalid chunk count"));
        },
    };
    let re = match p.value('p') {
        None => None,
        Some(s) => match pattern::build(s.as_str(), false, false) {
            Ok(re) => Some(re),
            Err(e) => {
                let mut m = complain(Some(s), ": invalid regex: ");
                m.append(e.as_str());
                return Err(m);
            },
        },
    };
    Ok(
        SplitOptions {
            lines,
            bytes,
            chunks,
            pattern: re,
            suffix_len,
            numeric_suffix: p.present('d'),
            no_clobber: p.present('c'),
            auto_suffix,
        },
    )
}

/// Splits with the options that a command line gave.
pub fn run<FS: Filesystem>(env: &mut Environment<FS>, p: &Parsed) -> (r: Result<ExitCode, Error>)
    ensures
        (final(env)@, env::outcome(r)) == ran(old(env)@, p@),
{
    let o = match read_settings(p) {
        Ok(o) => o,
        Err(e) => {
            env.error_line(e.as_str());
            return Ok(ExitCode::new(1));
        },
    };
    if (o.bytes.is_some() && o.chunks.is_some()) || (o.bytes.is_some() && o.pattern.is_some()) || (
    o.chunks.is_some() && o.pattern.is_some()) {
        env.error_line("split: -b, -n, and -p are mutually exclusive");
        return Ok(ExitCode::new(1));
    }
    if o.pattern.is_some() && o.lines.is_some() {
        env.error_line("split: -p is incompatible with -l");
        return Ok(ExitCode::new(1));
    }
    if p.free.len() > 2 {
        env.error_line("split: too many arguments");
        return Ok(ExitCode::new(1));
    }
    let prefix = if p.free.len() > 1 {
        p.free[1].clone()
    } else {
        "x".to_owned()
    };
    if p.free.len() == 0 || text::same(p.free[0].as_str(), "-") {
        let lines = env.stdin.read_all();
        let mut input = String::new();
        text::add_ended(&mut input, &lines, '\n');
        assert(input@ =~= text::ended(old(env)@.stdin, '\n'));
        split_input(env, input.as_str(), prefix.as_str(), &o)
    } else {
        match env.fs.read_to_string(p.free[0].as_str()) {
            Ok(input) => split_input(env, input.as_str(), prefix.as_str(), &o),
            Err(FsError::Io(e)) => {
                let mut m = "split: ".to_owned();
                m.append(p.free[0].as_str());
                m.append(": ");
                m.append(e.message.as_str());
                env.error_line(m.as_str());
                Ok(ExitCode::new(1))
            },
        }
    }
}

/// The split builtin: split a file into pieces.
pub fn bin<FS: Filesystem>(env: &mut Environment<FS>) -> (r: Result<ExitCode, Error>)
    requires
        old(env)@.args.len() > 0,
    ensures
        (final(env)@, env::outcome(r)) == spec_bin(old(env)@),
{
    let opts = build_options();
    match options::parse(&opts, &env.args) {
        Ok(p) => run(env, &p),
        Err(e) => {
            let mut m = "split: ".to_owned();
            m.append(e.as_str());
            env.error_line(m.as_str());
            Ok(ExitCode::new(1))
        },
    }
}

// ---------------------------------------------------------------------------------------------
// Laws
// ---------------------------------------------------------------------------------------------

/// Different file numbers have different suffixes.
pub proof fn lemma_suffixes_differ(a: nat, b: nat, len: nat, numeric: bool)
    requires
        a < power(base_of(numeric), len),
        b < power(base_of(numeric), len),
        suffix(a, len, numeric) == suffix(b, len, numeric),
    ensures
        a == b,
    decreases len,
{
    let base = base_of(numeric);
    if len > 0 {
        let shorter = (len - 1) as nat;
        let p = power(base, shorter);
        assert(a / base < p && b / base < p) by (nonlinear_arith)
            requires
                a < base * p,
                b < base * p,
                base > 0,
        ;
        let s = suffix(a, len, numeric);
        let t = suffix(b, len, numeric);
        assert(s.drop_last() =~= suffix(a / base, shorter, numeric));
        assert(t.drop_last() =~= suffix(b / base, shorter, numeric));
        lemma_suffixes_differ(a / base, b / base, shorter, numeric);
        assert(s.last() == suffix_char(a % base, numeric));
        assert(t.last() == suffix_char(b % base, numeric));
        assert(a % base == b % base);
        assert(a == base * (a / base) + a % base) by (nonlinear_arith)
            requires
                base > 0,
        ;
        assert(b == base * (b / base) + b % base) by (nonlinear_arith)
            requires
                base > 0,
        ;
    }
}

proof fn lemma_order_pushed(a: Seq<char>, b: Seq<char>, x: char, y: char)
    requires
        a.len() == b.len(),
        order::text_order(a, b) == Order::Less || (a == b && x < y),
    ensures
        order::text_order(a.push(x), b.push(y)) == Order::Less,
    decreases a.len(),
{
    let s = a.push(x);
    let t = b.push(y);
    if a.len() == 0 {
        assert(s[0] == x && t[0] == y);
    } else if a[0] == b[0] {
        assert(s.skip(1) =~= a.skip(1).push(x));
        assert(t.skip(1) =~= b.skip(1).push(y));
        lemma_order_pushed(a.skip(1), b.skip(1), x, y);
    }
}

/// Suffixes have the length that is asked for, and those of larger file numbers come later in the
/// order of texts.
pub proof fn lemma_suffixes_ascend(a: nat, b: nat, len: nat, numeric: bool)
    requires
        a < b < power(base_of(numeric), len),
    ensures
        suffix(a, len, numeric).len() == len,
        suffix(b, len, numeric).len() == len,
        order::text_order(suffix(a, len, numeric), suffix(b, len, numeric)) == Order::Less,
    decreases len,
{
    let base = base_of(numeric);
    lemma_suffix_len(a, len, numeric);
    lemma_suffix_len(b, len, numeric);
    if len > 0 {
        let shorter = (len - 1) as nat;
        let p = power(base, shorter);
        assert(b / base < p) by (nonlinear_arith)
            requires
                b < base * p,
                base > 0,
        ;
        assert(a / base <= b / base && (a / base == b / base ==> a % base < b % base))
            by (nonlinear_arith)
            requires
                a < b,
                base > 0,
        ;
        lemma_suffix_len(a / base, shorter, numeric);
        lemma_suffix_len(b / base, shorter, numeric);
        if a / base < b / base {
            lemma_suffixes_ascend(a / base, b / base, shorter, numeric);
        }
        lemma_order_pushed(
            suffix(a / base, shorter, numeric),
            suffix(b / base, shorter, numeric),
            suffix_char(a % base, numeric),
            suffix_char(b % base, numeric),
        );
    }
}

proof fn lemma_suffix_len(num: nat, len: nat, numeric: bool)
    ensures
        suffix(num, len, numeric).len() == len,
    decreases len,
{
    if len > 0 {
        lemma_suffix_len(num / base_of(numeric), (len - 1) as nat, numeric);
    }
}

proof fn lemma_limit(suffix_len: usize, numeric: bool)
    ensures
        1 <= file_limit(suffix_len, numeric) <= power(base_of(numeric), suffix_len as nat),
        file_limit(suffix_len, numeric) <= u64::MAX,
{
    assert((suffix_len as u32) <= suffix_len) by (bit_vector);
    lemma_power_grows(base_of(numeric), (suffix_len as u32) as nat, suffix_len as nat);
}

/// What is left of the names after so many calls.
pub open spec fn names_after(names: Names, calls: nat) -> Names
    decreases calls,
{
    if calls == 0 {
        names
    } else {
        let before = names_after(names, (calls - 1) as nat);
        if before.exhausted() {
            before
        } else {
            before.next()
        }
    }
}

/// What the call behind so many others gives.
pub open spec fn call_name(names: Names, calls: nat) -> Option<Seq<char>> {
    let left = names_after(names, calls);
    if left.exhausted() {
        None
    } else {
        Some(left.name())
    }
}

proof fn lemma_names_go_on(names: Names, i: nat, j: nat)
    requires
        i < j,
        !names_after(names, j).exhausted(),
    ensures
        !names_after(names, i).exhausted(),
        ({
            let a = names_after(names, i).grown();
            let b = names_after(names, j).grown();
            &&& a.prefix == names.prefix
            &&& b.prefix == names.prefix
            &&& a.numeric == b.numeric
            &&& a.suffix_len < b.suffix_len || (a.suffix_len == b.suffix_len && a.file_num
                < b.file_num)
        }),
    decreases j,
{
    let before = names_after(names, (j - 1) as nat);
    let g = before.grown();
    lemma_limit(g.suffix_len, g.numeric);
    assert(!before.exhausted());
    if i < j - 1 {
        lemma_names_go_on(names, i, (j - 1) as nat);
    } else {
        lemma_names_kept(names, i);
    }
}

proof fn lemma_names_kept(names: Names, calls: nat)
    ensures
        names_after(names, calls).prefix == names.prefix,
        names_after(names, calls).numeric == names.numeric,
        names_after(names, calls).auto_suffix == names.auto_suffix,
        names_after(names, calls).suffix_len <= names.suffix_len + calls,
    decreases calls,
{
    if calls > 0 {
        lemma_names_kept(names, (calls - 1) as nat);
    }
}

/// Over a run of calls no name comes twice, every name begins with the prefix, and once a call
/// gives no name, no later one does.
pub proof fn lemma_names_differ(names: Names, i: nat, j: nat)
    requires
        i < j,
        call_name(names, j) is Some,
    ensures
        call_name(names, i) is Some,
        call_name(names, i) != call_name(names, j),
        text::starts_with(call_name(names, i)->0, names.prefix),
        text::starts_with(call_name(names, j)->0, names.prefix),
{
    lemma_names_go_on(names, i, j);
    let a = names_after(names, i).grown();
    let b = names_after(names, j).grown();
    let s = suffix(a.file_num as nat, a.suffix_len as nat, a.numeric);
    let t = suffix(b.file_num as nat, b.suffix_len as nat, b.numeric);
    lemma_suffix_len(a.file_num as nat, a.suffix_len as nat, a.numeric);
    lemma_suffix_len(b.file_num as nat, b.suffix_len as nat, b.numeric);
    lemma_limit(a.suffix_len, a.numeric);
    lemma_limit(b.suffix_len, b.numeric);
    if call_name(names, i) == call_name(names, j) {
        assert((a.prefix + s).len() == (b.prefix + t).len());
        assert(s =~= (a.prefix + s).skip(a.prefix.len() as int));
        assert(t =~= (b.prefix + t).skip(b.prefix.len() as int));
        lemma_suffixes_differ(
            a.file_num as nat,
            b.file_num as nat,
            a.suffix_len as nat,
            a.numeric,
        );
    }
    assert((a.prefix + s).take(a.prefix.len() as int) =~= a.prefix);
    assert((b.prefix + t).take(b.prefix.len() as int) =~= b.prefix);
}

/// Suffixes of a fixed length are given out in order, from the first to the last that there is, and
/// behind it no name comes.
pub proof fn lemma_fixed_names(names: Names, calls: nat)
    requires
        names.file_num == 0,
        names.numeric || !names.auto_suffix,
    ensures
        call_name(names, calls) == if calls < file_limit(names.suffix_len, names.numeric) {
            Some(names.prefix + suffix(calls, names.suffix_len as nat, names.numeric))
        } else {
            None::<Seq<char>>
        },
        names_after(names, calls) == (Names {
            file_num: if calls < file_limit(names.suffix_len, names.numeric) {
                calls as u64
            } else {
                file_limit(names.suffix_len, names.numeric) as u64
            },
            ..names
        }),
    decreases calls,
{
    lemma_limit(names.suffix_len, names.numeric);
    if calls > 0 {
        lemma_fixed_names(names, (calls - 1) as nat);
    }
}

/// Suffixes that may grow never run out, as long as their length can be counted.
pub proof fn lemma_growing_names(names: Names, calls: nat)
    requires
        names.auto_suffix,
        !names.numeric,
        names.suffix_len + calls < usize::MAX,
    ensures
        call_name(names, calls) is Some,
{
    lemma_names_kept(names, calls);
    let left = names_after(names, calls);
    lemma_limit(left.grown().suffix_len, left.numeric);
}

proof fn lemma_order_prefixed(prefix: Seq<char>, a: Seq<char>, b: Seq<char>)
    ensures
        order::text_order(prefix + a, prefix + b) == order::text_order(a, b),
    decreases prefix.len(),
{
    if prefix.len() > 0 {
        let rest = prefix.skip(1);
        assert((prefix + a).skip(1) =~= rest + a);
        assert((prefix + b).skip(1) =~= rest + b);
        assert((prefix + a)[0] == (prefix + b)[0]);
        lemma_order_prefixed(rest, a, b);
    } else {
        assert(prefix + a =~= a);
        assert(prefix + b =~= b);
    }
}

/// What a generator gives over a run of calls. Every name begins with the prefix, and no two are
/// equal. Where the suffix may grow, each call gives a name, as long as the length of the suffix can
/// be counted. Otherwise each of the calls that the suffixes suffice for gives the prefix and a
/// suffix of the length that was asked for, in ascending order, and no later call gives a name.
pub proof fn lemma_generated_names(names: Names, i: nat, j: nat)
    requires
        names.file_num == 0,
        i < j,
    ensures
        call_name(names, i) matches Some(a) ==> text::starts_with(a, names.prefix),
        call_name(names, j) matches Some(b) ==> text::starts_with(b, names.prefix)
            && call_name(names, i) is Some && call_name(names, i)->0 != b,
        names.auto_suffix && !names.numeric && names.suffix_len + j < usize::MAX ==> call_name(
            names,
            i,
        ) is Some && call_name(names, j) is Some,
        names.numeric || !names.auto_suffix ==> {
            let limit = file_limit(names.suffix_len, names.numeric);
            let a = suffix(i, names.suffix_len as nat, names.numeric);
            let b = suffix(j, names.suffix_len as nat, names.numeric);
            &&& i < limit ==> call_name(names, i) == Some(names.prefix + a) && a.len()
                == names.suffix_len
            &&& j < limit ==> call_name(names, j) == Some(names.prefix + b) && b.len()
                == names.suffix_len && order::text_order(names.prefix + a, names.prefix + b)
                == Order::Less
            &&& i >= limit ==> call_name(names, i) is None
            &&& j >= limit ==> call_name(names, j) is None
        },
{
    if call_name(names, j) is Some {
        lemma_names_differ(names, i, j);
    }
    if call_name(names, i) is Some {
        lemma_names_kept(names, i);
        let g = names_after(names, i).grown();
        let s = suffix(g.file_num as nat, g.suffix_len as nat, g.numeric);
        assert((g.prefix + s).take(g.prefix.len() as int) =~= g.prefix);
    }
    if names.numeric || !names.auto_suffix {
        lemma_fixed_names(names, i);
        lemma_fixed_names(names, j);
        lemma_limit(names.suffix_len, names.numeric);
        lemma_suffix_len(i, names.suffix_len as nat, names.numeric);
        if j < file_limit(names.suffix_len, names.numeric) {
            lemma_suffixes_ascend(i, j, names.suffix_len as nat, names.numeric);
            lemma_order_prefixed(
                names.prefix,
                suffix(i, names.suffix_len as nat, names.numeric),
                suffix(j, names.suffix_len as nat, names.numeric),
            );
        }
    } else if names.suffix_len + j < usize::MAX {
        lemma_growing_names(names, i);
        lemma_growing_names(names, j);
    }
}

proof fn lemma_unlines_add(a: Seq<Seq<char>>, b: Seq<Seq<char>>)
    ensures
        text::unlines(a + b) == text::unlines(a) + text::unlines(b),
    decreases b.len(),
{
    if b.len() == 0 {
        assert(a + b =~= a);
        assert(text::unlines(a) + text::unlines(b) =~= text::unlines(a));
    } else {
        lemma_unlines_add(a, b.drop_last());
        assert((a + b).drop_last() =~= a + b.drop_last());
        assert((a + b).last() == b.last());
        assert(text::unlines(a + b) =~= text::unlines(a) + text::unlines(b));
    }
}

proof fn lemma_concat_first(first: Seq<char>, rest: Seq<Seq<char>>)
    ensures
        text::concat(seq![first] + rest) == first + text::concat(rest),
    decreases rest.len(),
{
    let all = seq![first] + rest;
    if rest.len() == 0 {
        assert(all.drop_last() =~= Seq::<Seq<char>>::empty());
        assert(text::concat(all.drop_last()) =~= Seq::<char>::empty());
        assert(text::concat(all) =~= first + text::concat(rest));
    } else {
        lemma_concat_first(first, rest.drop_last());
        assert(all.drop_last() =~= seq![first] + rest.drop_last());
        assert(all.last() == rest.last());
        assert(text::concat(all) =~= first + text::concat(rest));
    }
}

/// The pieces by lines, one after another, are the lines of the input.
pub proof fn lemma_line_pieces_are_all(lines: Seq<Seq<char>>, n: nat)
    requires
        n > 0,
    ensures
        text::concat(line_pieces(lines, n)) == text::unlines(lines),
    decreases lines.len(),
{
    let pieces = line_pieces(lines, n);
    if lines.len() == 0 {
        assert(text::concat(pieces) =~= text::unlines(lines));
    } else if lines.len() <= n {
        lemma_concat_first(text::unlines(lines), Seq::empty());
        assert(pieces =~= seq![text::unlines(lines)] + Seq::<Seq<char>>::empty());
        assert(text::concat(Seq::<Seq<char>>::empty()) =~= Seq::<char>::empty());
        assert(text::concat(pieces) =~= text::unlines(lines));
    } else {
        let head = lines.take(n as int);
        let tail = lines.skip(n as int);
        lemma_line_pieces_are_all(tail, n);
        lemma_concat_first(text::unlines(head), line_pieces(tail, n));
        lemma_unlines_add(head, tail);
        assert(head + tail =~= lines);
    }
}

/// No piece by lines has more lines than wanted, and only the last has fewer.
pub proof fn lemma_line_pieces_count(lines: Seq<Seq<char>>, n: nat)
    requires
        n > 0,
    ensures
        lines.len() == 0 ==> line_pieces(lines, n).len() == 0,
        lines.len() > 0 ==> (line_pieces(lines, n).len() - 1) * n < lines.len()
            <= line_pieces(lines, n).len() * n,
    decreases lines.len(),
{
    if lines.len() > n {
        let tail = lines.skip(n as int);
        lemma_line_pieces_count(tail, n);
        let k = line_pieces(tail, n).len();
        assert(line_pieces(lines, n).len() == k + 1);
        assert((k + 1 - 1) * n == (k - 1) * n + n) by (nonlinear_arith);
        assert((k + 1) * n == k * n + n) by (nonlinear_arith);
    } else if lines.len() > 0 {
        assert(line_pieces(lines, n).len() == 1);
    }
}

/// The bytes of pieces one after another.
pub open spec fn joined(pieces: Seq<Seq<u8>>) -> Seq<u8>
    decreases pieces.len(),
{
    if pieces.len() == 0 {
        Seq::empty()
    } else {
        pieces[0] + joined(pieces.skip(1))
    }
}

/// The pieces by bytes, one after another, are the bytes of the input.
pub proof fn lemma_byte_pieces_are_all(b: Seq<u8>, n: nat)
    requires
        n > 0,
    ensures
        joined(byte_pieces(b, n)) == b,
    decreases b.len(),
{
    let pieces = byte_pieces(b, n);
    if b.len() == 0 {
        assert(joined(pieces) =~= b);
    } else if b.len() <= n {
        assert(pieces.skip(1) =~= Seq::<Seq<u8>>::empty());
        assert(joined(pieces.skip(1)) =~= Seq::<u8>::empty());
        assert(joined(pieces) =~= b);
    } else {
        lemma_byte_pieces_are_all(b.skip(n as int), n);
        assert(pieces.skip(1) =~= byte_pieces(b.skip(n as int), n));
        assert(joined(pieces) =~= b);
    }
}

proof fn lemma_marked_pieces(lines: Seq<Seq<char>>, marks: Seq<bool>, start: int, i: int)
    requires
        0 <= start <= i <= lines.len(),
    ensures
        text::concat(marked_pieces(lines, marks, start, i)) == text::unlines(lines.skip(start)),
    decreases lines.len() - i,
{
    let pieces = marked_pieces(lines, marks, start, i);
    if i >= lines.len() {
        assert(text::concat(Seq::<Seq<char>>::empty()) =~= Seq::<char>::empty());
        if start < lines.len() {
            lemma_concat_first(text::unlines(lines.skip(start)), Seq::empty());
            assert(pieces =~= seq![text::unlines(lines.skip(start))] + Seq::<Seq<char>>::empty());
            assert(text::concat(pieces) =~= text::unlines(lines.skip(start)));
        } else {
            assert(lines.skip(start) =~= Seq::<Seq<char>>::empty());
        }
    } else if marks[i] && start < i {
        lemma_marked_pieces(lines, marks, i, i + 1);
        let head = lines.subrange(start, i);
        lemma_concat_first(text::unlines(head), marked_pieces(lines, marks, i, i + 1));
        lemma_unlines_add(head, lines.skip(i));
        assert(head + lines.skip(i) =~= lines.skip(start));
    } else {
        lemma_marked_pieces(lines, marks, start, i + 1);
    }
}

/// The pieces by pattern, one after another, are the lines of the input.
pub proof fn lemma_marked_pieces_are_all(lines: Seq<Seq<char>>, marks: Seq<bool>)
    ensures
        text::concat(marked_pieces(lines, marks, 0, 0)) == text::unlines(lines),
{
    lemma_marked_pieces(lines, marks, 0, 0);
    assert(lines.skip(0) =~= lines);
}

/// The place where the `k`-th of pieces of `n` ends, in a whole of `len`.
pub open spec fn piece_end(k: int, n: nat, len: nat) -> int {
    if (k + 1) * n < len {
        (k + 1) * n
    } else {
        len as int
    }
}

/// Each piece by bytes but the last has as many bytes as wanted, the last has at least one and no
/// more than wanted, and the `k`-th begins where `k` full pieces end.
pub proof fn lemma_byte_pieces(b: Seq<u8>, n: nat, k: int)
    requires
        n > 0,
        0 <= k < byte_pieces(b, n).len(),
    ensures
        k * n < b.len(),
        byte_pieces(b, n)[k] == b.subrange(k * n, piece_end(k, n, b.len())),
        k + 1 < byte_pieces(b, n).len() <==> (k + 1) * n < b.len(),
    decreases b.len(),
{
    let pieces = byte_pieces(b, n);
    if b.len() <= n {
        assert(pieces.len() == 1);
        assert(0 * n == 0 && 1 * n == n) by (nonlinear_arith);
        assert(b.subrange(0, b.len() as int) =~= b);
    } else {
        let tail = b.skip(n as int);
        assert(pieces == seq![b.take(n as int)] + byte_pieces(tail, n));
        lemma_byte_pieces_some(tail, n);
        if k == 0 {
            assert(0 * n == 0 && 1 * n == n) by (nonlinear_arith);
            assert(b.subrange(0, n as int) =~= b.take(n as int));
        } else {
            lemma_byte_pieces(tail, n, k - 1);
            assert((k - 1) * n == k * n - n) by (nonlinear_arith);
            assert((k - 1 + 1) * n == (k + 1) * n - n) by (nonlinear_arith);
            assert(pieces[k] == byte_pieces(tail, n)[k - 1]);
            assert(0 <= (k - 1) * n) by (nonlinear_arith)
                requires
                    k >= 1,
            ;
            assert(k * n <= piece_end(k, n, b.len())) by {
                assert((k + 1) * n == k * n + n) by (nonlinear_arith);
            }
            assert(tail.subrange((k - 1) * n, piece_end(k - 1, n, tail.len())) =~= b.subrange(
                k * n,
                piece_end(k, n, b.len()),
            ));
        }
    }
}

proof fn lemma_byte_pieces_some(b: Seq<u8>, n: nat)
    requires
        n > 0,
        b.len() > 0,
    ensures
        byte_pieces(b, n).len() > 0,
{
}

/// Each piece by lines but the last has as many lines as wanted, the last has at least one and no
/// more than wanted, and the `k`-th begins where `k` full pieces end.
pub proof fn lemma_line_pieces(lines: Seq<Seq<char>>, n: nat, k: int)
    requires
        n > 0,
        0 <= k < line_pieces(lines, n).len(),
    ensures
        k * n < lines.len(),
        line_pieces(lines, n)[k] == text::unlines(
            lines.subrange(k * n, piece_end(k, n, lines.len())),
        ),
        k + 1 < line_pieces(lines, n).len() <==> (k + 1) * n < lines.len(),
    decreases lines.len(),
{
    let pieces = line_pieces(lines, n);
    if lines.len() <= n {
        assert(pieces.len() == 1);
        assert(0 * n == 0 && 1 * n == n) by (nonlinear_arith);
        assert(lines.subrange(0, lines.len() as int) =~= lines);
    } else {
        let tail = lines.skip(n as int);
        assert(pieces == seq![text::unlines(lines.take(n as int))] + line_pieces(tail, n));
        if k == 0 {
            lemma_line_pieces_count(tail, n);
            assert(line_pieces(tail, n).len() > 0);
            assert(0 * n == 0 && 1 * n == n) by (nonlinear_arith);
            assert(lines.subrange(0, n as int) =~= lines.take(n as int));
        } else {
            lemma_line_pieces(tail, n, k - 1);
            assert((k - 1) * n == k * n - n) by (nonlinear_arith);
            assert((k - 1 + 1) * n == (k + 1) * n - n) by (nonlinear_arith);
            assert(pieces[k] == line_pieces(tail, n)[k - 1]);
            assert(0 <= (k - 1) * n) by (nonlinear_arith)
                requires
                    k >= 1,
            ;
            assert(k * n <= piece_end(k, n, lines.len())) by {
                assert((k + 1) * n == k * n + n) by (nonlinear_arith);
            }
            assert(tail.subrange((k - 1) * n, piece_end(k - 1, n, tail.len())) =~= lines.subrange(
                k * n,
                piece_end(k, n, lines.len()),
            ));
        }
    }
}

/// Whether pieces are the lines from each of the places `starts` up to the next of them.
pub open spec fn are_cut(
    lines: Seq<Seq<char>>,
    starts: Seq<int>,
    pieces: Seq<Seq<char>>,
) -> bool {
    &&& pieces.len() == starts.len()
    &&& forall|k: int|
        0 <= k < pieces.len() ==> #[trigger] pieces[k] == text::unlines(
            lines.subrange(starts[k], if k + 1 < starts.len() {
                starts[k + 1]
            } else {
                lines.len() as int
            }),
        )
}

/// Whether `starts` are, in ascending order, the place `from` and those of the marked lines behind
/// it, from `seen` on.
pub open spec fn are_starts(marks: Seq<bool>, from: int, seen: int, starts: Seq<int>) -> bool {
    &&& starts.len() > 0
    &&& starts[0] == from
    &&& forall|k: int|
        0 < k < starts.len() ==> from < #[trigger] starts[k] < marks.len() && marks[starts[k]]
    &&& forall|j: int, k: int| 0 <= j < k < starts.len() ==> starts[j] < starts[k]
    &&& forall|p: int|
        from < p < marks.len() && seen <= p && #[trigger] marks[p] ==> exists|k: int|
            0 < k < starts.len() && #[trigger] starts[k] == p
}

proof fn lemma_cut_at_marks(lines: Seq<Seq<char>>, marks: Seq<bool>, start: int, i: int) -> (starts:
    Seq<int>)
    requires
        marks.len() == lines.len(),
        0 <= start <= i <= lines.len(),
        start < lines.len(),
    ensures
        are_starts(marks, start, i, starts),
        are_cut(lines, starts, marked_pieces(lines, marks, start, i)),
        forall|k: int| 0 < k < starts.len() ==> i <= #[trigger] starts[k],
    decreases lines.len() - i,
{
    let pieces = marked_pieces(lines, marks, start, i);
    if i >= lines.len() {
        assert(lines.skip(start) =~= lines.subrange(start, lines.len() as int));
        seq![start]
    } else if marks[i] && start < i {
        let rest = lemma_cut_at_marks(lines, marks, i, i + 1);
        let starts = seq![start] + rest;
        let after = marked_pieces(lines, marks, i, i + 1);
        assert(pieces == seq![text::unlines(lines.subrange(start, i))] + after);
        assert forall|k: int| 0 <= k < pieces.len() implies #[trigger] pieces[k] == text::unlines(
            lines.subrange(starts[k], if k + 1 < starts.len() {
                starts[k + 1]
            } else {
                lines.len() as int
            }),
        ) by {
            if k > 0 {
                assert(pieces[k] == after[k - 1]);
                assert(starts[k] == rest[k - 1]);
            }
        }
        assert forall|p: int|
            start < p < marks.len() && i <= p && #[trigger] marks[p] implies exists|k: int|
            0 < k < starts.len() && #[trigger] starts[k] == p by {
            if p == i {
                assert(starts[1] == i);
            } else {
                let k = choose|k: int| 0 < k < rest.len() && #[trigger] rest[k] == p;
                assert(starts[k + 1] == p);
            }
        }
        assert forall|j: int, k: int| 0 <= j < k < starts.len() implies starts[j] < starts[k] by {
            assert(starts[k] == rest[k - 1]);
            if j > 0 {
                assert(starts[j] == rest[j - 1]);
            }
        }
        starts
    } else {
        lemma_cut_at_marks(lines, marks, start, i + 1)
    }
}

/// Split by a pattern, a piece begins at the first line and at each later line that matches, and at
/// no other, and holds the lines up to the next piece.
pub proof fn lemma_pieces_begin_at_marks(lines: Seq<Seq<char>>, marks: Seq<bool>)
    requires
        marks.len() == lines.len(),
    ensures
        lines.len() == 0 ==> marked_pieces(lines, marks, 0, 0).len() == 0,
        lines.len() > 0 ==> exists|starts: Seq<int>|
            #![trigger are_starts(marks, 0, 0, starts)]
            are_starts(marks, 0, 0, starts) && are_cut(
                lines,
                starts,
                marked_pieces(lines, marks, 0, 0),
            ),
{
    if lines.len() > 0 {
        let starts = lemma_cut_at_marks(lines, marks, 0, 0);
        assert(are_starts(marks, 0, 0, starts));
    }
}

/// Split into `n` chunks, the pieces are `len / n` bytes each, where `len` is the length of the
/// input, and one more holds the bytes that are left over, if any.
pub proof fn lemma_chunks<FS: Filesystem>(
    v: env::EnvView<FS>,
    input: Seq<char>,
    prefix: Seq<char>,
    o: SplitView,
    n: u64,
)
    requires
        o.bytes is None,
        o.chunks == Some(n),
        0 < n <= vstd::utf8::encode_utf8(input).len(),
    ensures
        exists|pieces: Seq<Seq<u8>>|
            #![trigger joined(pieces)]
            {
                let b = vstd::utf8::encode_utf8(input);
                let first = Names {
                    prefix,
                    suffix_len: o.suffix_len,
                    numeric: o.numeric,
                    auto_suffix: o.auto_suffix,
                    file_num: 0,
                };
                let size = b.len() as int / n as int;
                &&& joined(pieces) == b
                &&& forall|k: int|
                    0 <= k < pieces.len() - 1 ==> (#[trigger] pieces[k]).len() == size
                &&& 0 < pieces.last().len() <= size
                &&& pieces.len() * size - size < b.len() <= pieces.len() * size
                &&& input_split(v, input, prefix, o) == written(
                    v,
                    shown(pieces),
                    0,
                    first,
                    o.no_clobber,
                )
            },
{
    let b = vstd::utf8::encode_utf8(input);
    let size = b.len() / n as nat;
    assert(size > 0) by (nonlinear_arith)
        requires
            size == b.len() / n as nat,
            0 < n <= b.len(),
    ;
    let pieces = byte_pieces(b, size);
    lemma_byte_pieces_are_all(b, size);
    lemma_byte_pieces_some(b, size);
    assert forall|k: int| 0 <= k < pieces.len() - 1 implies (#[trigger] pieces[k]).len() == size by {
        lemma_byte_pieces(b, size, k);
        assert((k + 1) * size == k * size + size) by (nonlinear_arith);
        assert(0 <= k * size) by (nonlinear_arith)
            requires
                0 <= k,
        ;
    }
    let last = pieces.len() - 1;
    lemma_byte_pieces(b, size, last);
    assert((last + 1) * size == last * size + size) by (nonlinear_arith);
    assert(0 <= last * size) by (nonlinear_arith)
        requires
            0 <= last,
    ;
    assert(pieces.len() * size == (last + 1) * size);
    assert(joined(pieces) == b);
}

/// Whether filesystems of a kind keep what is written: a file holds what was last written to it.
pub open spec fn keeps_written<FS: Filesystem>() -> bool {
    &&& forall|s: FS, p: Seq<char>, t: Seq<char>|
        s.writes(p, t) is Ok ==> (#[trigger] s.after(fs::Request::Write(p, t))).reads(p) == Ok::<
            Seq<char>,
            fs::IoView,
        >(t)
    &&& forall|s: FS, p: Seq<char>, q: Seq<char>, t: Seq<char>|
        p != q ==> #[trigger] s.after(fs::Request::Write(p, t)).reads(q) == s.reads(q)
}

proof fn lemma_written_from<FS: Filesystem>(
    v: env::EnvView<FS>,
    pieces: Seq<Seq<char>>,
    i: nat,
    first: Names,
    k: int,
)
    requires
        keeps_written::<FS>(),
        first.file_num == 0,
        i <= pieces.len(),
        written(v, pieces, i as int, names_after(first, i), false).1 == Ok::<int, env::ErrorView>(0),
        0 <= k < pieces.len(),
        k < i ==> call_name(first, k as nat) is Some && v.fs.reads(call_name(first, k as nat)->0)
            == Ok::<Seq<char>, fs::IoView>(pieces[k]),
    ensures
        call_name(first, k as nat) is Some,
        written(v, pieces, i as int, names_after(first, i), false).0.fs.reads(
            call_name(first, k as nat)->0,
        ) == Ok::<Seq<char>, fs::IoView>(pieces[k]),
    decreases pieces.len() - i,
{
    if i < pieces.len() {
        let names = names_after(first, i);
        assert(!names.exhausted());
        assert(call_name(first, i) == Some(names.name()));
        assert(names_after(first, i + 1) == names.next());
        let x = v.with_fs(v.fs.after(fs::Request::Write(names.name(), pieces[i as int])));
        assert(picked(v, names, false) == (v, Some((names.name(), names.next()))));
        if k < i {
            lemma_generated_names(first, k as nat, i);
        }
        lemma_written_from(x, pieces, i + 1, first, k);
    }
}

/// Once all pieces are written, the `k`-th of them stands in the file of the `k`-th name.
pub proof fn lemma_pieces_written<FS: Filesystem>(
    v: env::EnvView<FS>,
    pieces: Seq<Seq<char>>,
    first: Names,
    k: int,
)
    requires
        keeps_written::<FS>(),
        first.file_num == 0,
        written(v, pieces, 0, first, false).1 == Ok::<int, env::ErrorView>(0),
        0 <= k < pieces.len(),
    ensures
        call_name(first, k as nat) is Some,
        written(v, pieces, 0, first, false).0.fs.reads(call_name(first, k as nat)->0) == Ok::<
            Seq<char>,
            fs::IoView,
        >(pieces[k]),
{
    assert(names_after(first, 0) == first);
    lemma_written_from(v, pieces, 0, first, k);
}

/// Where nothing may be overwritten, the name that is picked names nothing yet.
pub proof fn lemma_picked_is_free<FS: Filesystem>(v: env::EnvView<FS>, names: Names)
    requires
        forall|s: FS, p: Seq<char>, q: Seq<char>|
            (#[trigger] s.after(fs::Request::Exists(q)).has(p)) == s.has(p),
    ensures
        picked(v, names, true).1 matches Some((name, rest)) ==> !v.fs.has(name),
    decreases usize::MAX - names.suffix_len, u64::MAX - names.file_num,
{
    if !names.exhausted() && v.fs.has(names.name()) {
        let w = v.with_fs(v.fs.after(fs::Request::Exists(names.name())));
        lemma_picked_is_free(w, names.next());
        assert(picked(v, names, true) == picked(w, names.next(), true));
        if picked(w, names.next(), true).1 is Some {
            let name = (picked(w, names.next(), true).1->0).0;
            assert(w.fs.has(name) == v.fs.has(name));
        }
    }
}

proof fn lemma_trimmed(s: Seq<char>)
    requires
        s.len() > 0,
        !text::is_white(s[0]),
        !text::is_white(s.last()),
    ensures
        text::trim(s) == s,
{
}

/// `k`, `m` and `g` stand for 1024 bytes, 1024 times that, and 1024 times that again, in either case.
/// Without a letter a number counts bytes. A count of bytes that is too large is none.
pub proof fn lemma_bytes_in_units(digits: Seq<char>, n: nat, c: char)
    requires
        text::unsigned(digits, u64::MAX as nat) == Some(n),
        digits.len() > 0,
        text::is_digit(digits[0]),
        text::is_digit(digits.last()),
    ensures
        byte_count(digits) == Some(n),
        ({
            let bytes = if c == 'k' || c == 'K' {
                n * 1024
            } else if c == 'm' || c == 'M' {
                n * (1024 * 1024)
            } else {
                n * (1024 * 1024 * 1024)
            };
            c == 'k' || c == 'K' || c == 'm' || c == 'M' || c == 'g' || c == 'G' ==> byte_count(
                digits.push(c),
            ) == if bytes <= u64::MAX {
                Some(bytes as nat)
            } else {
                None
            }
        }),
{
    lemma_trimmed(digits);
    let s = digits.push(c);
    assert(s.drop_last() =~= digits);
    if text::is_letter(c) {
        assert(s[0] == digits[0]);
        lemma_trimmed(s);
    }
}

} // verus!
