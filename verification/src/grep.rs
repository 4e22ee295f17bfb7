//! The grep builtin: file pattern searcher.

use crate::env::{Environment, Error, ExitCode};
use crate::env;
use crate::fs::{ErrorKind, FileType, Filesystem, FsError, IoError};
use crate::fs;
use crate::options::{Arity, OptDef, Parsed};
use crate::options;
use crate::order;
use crate::paths;
use crate::pattern;
use crate::text;
use vstd::prelude::*;

verus! {

broadcast use vstd::string::group_string_axioms;

/// The type of pattern matching to perform.
#[derive(Debug, Clone, Copy, PartialEq, Eq, Structural)]
pub enum GrepBehavior {
    /// Basic regular expressions (default).
    Basic,
    /// Extended regular expressions (-E).
    Extended,
    /// Fixed strings (-F).
    Fixed,
}

/// Options for the grep command.
#[derive(Clone, Copy)]
pub struct GrepOptions {
    /// Pattern matching behavior.
    pub behavior: GrepBehavior,
    /// -i: Case insensitive matching.
    pub ignore_case: bool,
    /// -v: Invert match (select non-matching lines).
    pub invert_match: bool,
    /// -c: Only print a count of matching lines.
    pub count_only: bool,
    /// -l: Only print names of files with matches.
    pub files_with_matches: bool,
    /// -L: Only print names of files without matches.
    pub files_without_match: bool,
    /// -n: Prefix each line with line number.
    pub line_number: bool,
    /// -H: Always print filename headers.
    pub with_filename: bool,
    /// -h: Never print filename headers.
    pub no_filename: bool,
    /// -o: Print only the matching part of lines.
    pub only_matching: bool,
    /// -q: Quiet mode, suppress normal output.
    pub quiet: bool,
    /// -s: Suppress error messages about nonexistent or unreadable files.
    pub no_messages: bool,
    /// -w: Match whole words only.
    pub word_regexp: bool,
    /// -x: Match whole lines only.
    pub line_regexp: bool,
    /// -r/-R: Recursively search directories.
    pub recursive: bool,
    /// -A num: Print num lines of trailing context.
    pub after_context: usize,
    /// -B num: Print num lines of leading context.
    pub before_context: usize,
    /// -m num: Stop after num matches.
    pub max_count: Option<usize>,
    /// -a: Treat binary files as text.
    pub text: bool,
}

impl Default for GrepOptions {
    fn default() -> (r: GrepOptions)
        ensures
            r == (GrepOptions {
                behavior: GrepBehavior::Basic,
                ignore_case: false,
                invert_match: false,
                count_only: false,
                files_with_matches: false,
                files_without_match: false,
                line_number: false,
                with_filename: false,
                no_filename: false,
                only_matching: false,
                quiet: false,
                no_messages: false,
                word_regexp: false,
                line_regexp: false,
                recursive: false,
                after_context: 0,
                before_context: 0,
                max_count: None,
                text: false,
            }),
    {
        GrepOptions {
            behavior: GrepBehavior::Basic,
            ignore_case: false,
            invert_match: false,
            count_only: false,
            files_with_matches: false,
            files_without_match: false,
            line_number: false,
            with_filename: false,
            no_filename: false,
            only_matching: false,
            quiet: false,
            no_messages: false,
            word_regexp: false,
            line_regexp: false,
            recursive: false,
            after_context: 0,
            before_context: 0,
            max_count: None,
            text: false,
        }
    }
}

// ---------------------------------------------------------------------------------------------
// Matching a line
// ---------------------------------------------------------------------------------------------

/// The compiled pattern matcher.
pub enum Matcher {
    /// Regex-based matching.
    Regex(Vec<regex::Regex>),
    /// Fixed string matching.
    Fixed { patterns: Vec<String>, ignore_case: bool },
    /// Fixed string matching of whole words, whole lines, or both.
    Whole { patterns: Vec<String>, ignore_case: bool, words: bool, lines: bool },
}

pub ghost enum MatcherView {
    Regex(Seq<(Seq<char>, bool, bool)>),
    Fixed { patterns: Seq<Seq<char>>, ignore_case: bool, words: bool, lines: bool },
}

pub open spec fn sources(v: Seq<regex::Regex>) -> Seq<(Seq<char>, bool, bool)> {
    Seq::new(v.len(), |i: int| pattern::built_from(v[i]))
}

impl View for Matcher {
    type V = MatcherView;

    open spec fn view(&self) -> MatcherView {
        match self {
            Matcher::Regex(v) => MatcherView::Regex(sources(v@)),
            Matcher::Fixed { patterns, ignore_case } => MatcherView::Fixed {
                patterns: patterns.deep_view(),
                ignore_case: *ignore_case,
                words: false,
                lines: false,
            },
            Matcher::Whole { patterns, ignore_case, words, lines } => MatcherView::Fixed {
                patterns: patterns.deep_view(),
                ignore_case: *ignore_case,
                words: *words,
                lines: *lines,
            },
        }
    }
}

/// Whether a character belongs to words.
pub open spec fn is_word(c: char) -> bool {
    text::is_alphanumeric(c) || c == '_'
}

/// Whether a word begins or ends at a place in a text.
pub open spec fn word_bound(s: Seq<char>, k: int) -> bool {
    (0 < k <= s.len() && is_word(s[k - 1])) != (0 <= k < s.len() && is_word(s[k]))
}

/// Whether a fixed string is found at a place in a text: with `words` a word has to begin or end on
/// either side of it, with `lines` it has to be the whole text.
pub open spec fn stands_at(s: Seq<char>, part: Seq<char>, words: bool, lines: bool, k: int) -> bool {
    &&& 0 <= k
    &&& k + part.len() <= s.len()
    &&& s.subrange(k, k + part.len()) == part
    &&& words ==> word_bound(s, k) && word_bound(s, k + part.len())
    &&& lines ==> part.len() == s.len()
}

/// A text as it is searched.
pub open spec fn folded(s: Seq<char>, ignore_case: bool) -> Seq<char> {
    if ignore_case {
        text::lower(s)
    } else {
        s
    }
}

/// Whether a fixed pattern is found in a line.
pub open spec fn fixed_match(
    pattern: Seq<char>,
    ignore_case: bool,
    words: bool,
    lines: bool,
    line: Seq<char>,
) -> bool {
    exists|k: int| #[trigger]
        stands_at(folded(line, ignore_case), folded(pattern, ignore_case), words, lines, k)
}

/// Whether a line matches any of these regular expressions.
pub open spec fn any_regex_match(s: Seq<(Seq<char>, bool, bool)>, line: Seq<char>) -> bool {
    exists|i: int| 0 <= i < s.len() && pattern::is_match(#[trigger] s[i], line)
}

/// Whether any of these fixed patterns is found in a line.
pub open spec fn any_fixed_match(
    patterns: Seq<Seq<char>>,
    ignore_case: bool,
    words: bool,
    lines: bool,
    line: Seq<char>,
) -> bool {
    exists|i: int|
        0 <= i < patterns.len() && fixed_match(
            #[trigger] patterns[i],
            ignore_case,
            words,
            lines,
            line,
        )
}

/// Whether a line matches any pattern.
pub open spec fn line_matches(m: MatcherView, line: Seq<char>) -> bool {
    match m {
        MatcherView::Regex(s) => any_regex_match(s, line),
        MatcherView::Fixed { patterns, ignore_case, words, lines } => any_fixed_match(
            patterns,
            ignore_case,
            words,
            lines,
            line,
        ),
    }
}

/// The places from `from` on at which a fixed string is found in a text.
pub open spec fn places(
    s: Seq<char>,
    part: Seq<char>,
    words: bool,
    lines: bool,
    from: int,
) -> Seq<int>
    decreases s.len() + 1 - from,
{
    if from < 0 || from + part.len() > s.len() {
        Seq::empty()
    } else if stands_at(s, part, words, lines, from) {
        seq![from] + places(s, part, words, lines, from + 1)
    } else {
        places(s, part, words, lines, from + 1)
    }
}

/// How many bytes stand before a place in a text.
pub open spec fn bytes_before(s: Seq<char>, k: int) -> int {
    vstd::utf8::encode_utf8(s.take(k)).len() as int
}

/// The sum of two positions, or the largest position where it lies beyond.
pub open spec fn position_sum(a: int, b: int) -> usize {
    if a + b > usize::MAX {
        usize::MAX
    } else {
        (a + b) as usize
    }
}

/// The ranges of bytes that begin at these places of a text.
pub open spec fn ranges(s: Seq<char>, starts: Seq<int>, len: int) -> Seq<(usize, usize)> {
    Seq::new(
        starts.len(),
        |i: int|
            (bytes_before(s, starts[i]) as usize, position_sum(bytes_before(s, starts[i]), len)),
    )
}

/// The ranges of bytes in which a fixed pattern is found in a line.
pub open spec fn fixed_found(
    pattern: Seq<char>,
    ignore_case: bool,
    words: bool,
    lines: bool,
    line: Seq<char>,
) -> Seq<(usize, usize)> {
    let s = folded(line, ignore_case);
    ranges(
        s,
        places(s, folded(pattern, ignore_case), words, lines, 0),
        vstd::utf8::encode_utf8(pattern).len() as int,
    )
}

pub open spec fn all_regex_found(s: Seq<(Seq<char>, bool, bool)>, line: Seq<char>) -> Seq<
    (usize, usize),
>
    decreases s.len(),
{
    if s.len() == 0 {
        Seq::empty()
    } else {
        all_regex_found(s.drop_last(), line) + pattern::found(s.last(), line)
    }
}

pub open spec fn all_fixed_found(
    patterns: Seq<Seq<char>>,
    ignore_case: bool,
    words: bool,
    lines: bool,
    line: Seq<char>,
) -> Seq<(usize, usize)>
    decreases patterns.len(),
{
    if patterns.len() == 0 {
        Seq::empty()
    } else {
        all_fixed_found(patterns.drop_last(), ignore_case, words, lines, line) + fixed_found(
            patterns.last(),
            ignore_case,
            words,
            lines,
            line,
        )
    }
}

pub open spec fn start_le() -> spec_fn((usize, usize), (usize, usize)) -> bool {
    |a: (usize, usize), b: (usize, usize)| a.0 <= b.0
}

/// Whether a range overlaps one that begins no later, or is the same.
pub open spec fn overlaps(earlier: (usize, usize), r: (usize, usize)) -> bool {
    r.0 < earlier.1 || r == earlier
}

/// The ranges without those that overlap the one kept before them.
pub open spec fn apart(found: Seq<(usize, usize)>) -> Seq<(usize, usize)>
    decreases found.len(),
{
    if found.len() == 0 {
        Seq::empty()
    } else {
        let before = apart(found.drop_last());
        if before.len() > 0 && overlaps(before.last(), found.last()) {
            before
        } else {
            before.push(found.last())
        }
    }
}

/// The ranges of bytes that match in a line, in the order of their first bytes. Of ranges that
/// overlap the first is taken.
pub open spec fn line_found(m: MatcherView, line: Seq<char>) -> Seq<(usize, usize)> {
    apart(
        order::sorted(
            match m {
                MatcherView::Regex(s) => all_regex_found(s, line),
                MatcherView::Fixed { patterns, ignore_case, words, lines } => all_fixed_found(
                    patterns,
                    ignore_case,
                    words,
                    lines,
                    line,
                ),
            },
            start_le(),
        ),
    )
}

fn word(c: char) -> (r: bool)
    ensures
        r == is_word(c),
{
    text::alphanumeric(c) || c == '_'
}

fn bound(v: &Vec<char>, k: usize) -> (r: bool)
    requires
        k <= v@.len(),
    ensures
        r == word_bound(v@, k as int),
{
    let before = k > 0 && word(v[k - 1]);
    let after = k < v.len() && word(v[k]);
    before != after
}

fn found_at(v: &Vec<char>, part: &Vec<char>, words: bool, lines: bool, k: usize) -> (r: bool)
    requires
        k + part@.len() <= v@.len(),
    ensures
        r == stands_at(v@, part@, words, lines, k as int),
{
    let n: usize = v.len();
    text::has_at(v, k, part) && (!lines || part.len() == n) && (!words || (bound(v, k) && bound(
        v,
        k + part.len(),
    )))
}

proof fn lemma_encode_parts(a: Seq<char>, b: Seq<char>)
    ensures
        vstd::utf8::encode_utf8(a + b) == vstd::utf8::encode_utf8(a) + vstd::utf8::encode_utf8(b),
    decreases a.len(),
{
    if a.len() == 0 {
        assert(a + b =~= b);
        assert(vstd::utf8::encode_utf8(a) + vstd::utf8::encode_utf8(b) =~= vstd::utf8::encode_utf8(
            b,
        ));
    } else {
        lemma_encode_parts(a.drop_first(), b);
        assert((a + b).drop_first() =~= a.drop_first() + b);
        assert(vstd::utf8::encode_utf8(a + b) =~= vstd::utf8::encode_utf8(a)
            + vstd::utf8::encode_utf8(b));
    }
}

proof fn lemma_bytes_before(s: Seq<char>, k: int)
    requires
        0 <= k <= s.len(),
    ensures
        bytes_before(s, k) <= vstd::utf8::encode_utf8(s).len(),
        k < s.len() ==> bytes_before(s, k + 1) == bytes_before(s, k) + vstd::utf8::encode_scalar(
            s[k] as u32,
        ).len(),
{
    lemma_encode_parts(s.take(k), s.skip(k));
    assert(s.take(k) + s.skip(k) =~= s);
    if k < s.len() {
        let one = seq![s[k]];
        lemma_encode_parts(s.take(k), one);
        assert(s.take(k) + one =~= s.take(k + 1));
        assert(one.drop_first() =~= Seq::<char>::empty());
        assert(vstd::utf8::encode_utf8(one.drop_first()) =~= Seq::<u8>::empty());
        assert(vstd::utf8::encode_utf8(one) =~= vstd::utf8::encode_scalar(s[k] as u32));
    }
}

fn width(c: char) -> (r: usize)
    ensures
        r == vstd::utf8::encode_scalar(c as u32).len(),
{
    let n: u32 = c as u32;
    if n <= 0x7f {
        1
    } else if n <= 0x7ff {
        2
    } else if n <= 0xffff {
        3
    } else {
        4
    }
}

fn sum_or_max(a: usize, b: usize) -> (r: usize)
    ensures
        r == position_sum(a as int, b as int),
{
    match a.checked_add(b) {
        Some(n) => n,
        None => usize::MAX,
    }
}

/// Puts the ranges in which `part` is found in `s` behind those that were found before.
fn add_places(
    out: &mut Vec<(usize, usize)>,
    s: &str,
    part: &str,
    words: bool,
    lines: bool,
    len: usize,
)
    ensures
        final(out)@ == old(out)@ + ranges(s@, places(s@, part@, words, lines, 0), len as int),
{
    let v = text::chars(s);
    let p = text::chars(part);
    let total: usize = s.as_bytes().len();
    let ghost before = out@;
    let ghost all = ranges(s@, places(s@, part@, words, lines, 0), len as int);
    if p.len() > v.len() {
        assert(all =~= Seq::<(usize, usize)>::empty());
        assert(out@ + all =~= out@);
        return;
    }
    let last: usize = v.len() - p.len();
    let mut i: usize = 0;
    let mut at: usize = 0;
    assert(s@.take(0) =~= Seq::<char>::empty());
    loop
        invariant_except_break
            i <= last,
            last == v@.len() - p@.len(),
            v@ == s@,
            p@ == part@,
            total == vstd::utf8::encode_utf8(s@).len(),
            at == bytes_before(s@, i as int),
            out@ + ranges(s@, places(s@, part@, words, lines, i as int), len as int) == before + all,
        ensures
            out@ == before + all,
        decreases last - i,
    {
        let ghost shown = out@;
        let ghost rest = places(s@, part@, words, lines, i + 1);
        if found_at(&v, &p, words, lines, i) {
            out.push((at, sum_or_max(at, len)));
            assert(out@ + ranges(s@, rest, len as int) =~= shown + ranges(
                s@,
                seq![i as int] + rest,
                len as int,
            ));
        }
        if i == last {
            assert(rest =~= Seq::<int>::empty());
            assert(out@ + ranges(s@, rest, len as int) =~= out@);
            break;
        }
        proof {
            lemma_bytes_before(s@, i as int);
            lemma_bytes_before(s@, i + 1);
        }
        at += width(v[i]);
        i += 1;
    }
}

fn keep_apart(v: &Vec<(usize, usize)>) -> (r: Vec<(usize, usize)>)
    ensures
        r@ == apart(v@),
{
    let mut out: Vec<(usize, usize)> = Vec::new();
    let mut i: usize = 0;
    while i < v.len()
        invariant
            i <= v@.len(),
            out@ == apart(v@.take(i as int)),
        decreases v.len() - i,
    {
        assert(v@.take(i + 1).drop_last() =~= v@.take(i as int));
        let n: usize = out.len();
        let x = v[i];
        let over = n > 0 && (x.0 < out[n - 1].1 || (x.0 == out[n - 1].0 && x.1 == out[n - 1].1));
        if !over {
            out.push(x);
        }
        i += 1;
    }
    assert(v@.take(i as int) =~= v@);
    out
}

fn sort_by_start(v: Vec<(usize, usize)>) -> (r: Vec<(usize, usize)>)
    ensures
        r@ == order::sorted(v@, start_le()),
{
    let mut out: Vec<(usize, usize)> = Vec::new();
    let mut i: usize = 0;
    while i < v.len()
        invariant
            i <= v@.len(),
            out@ == order::sorted(v@.take(i as int), start_le()),
        decreases v.len() - i,
    {
        let x = v[i];
        let mut k: usize = out.len();
        while k > 0 && out[k - 1].0 > x.0
            invariant
                k <= out@.len(),
                forall|j: int| k <= j < out@.len() ==> !start_le()(#[trigger] out@[j], x),
            decreases k,
        {
            assert(!start_le()(out@[k - 1], x));
            k -= 1;
        }
        proof {
            if k > 0 {
                assert(start_le()(out@[k - 1], x));
            }
            order::lemma_placed_at(out@, x, start_le(), k as int);
            assert(v@.take(i + 1).drop_last() =~= v@.take(i as int));
        }
        out.insert(k, x);
        i += 1;
    }
    assert(v@.take(i as int) =~= v@);
    out
}

fn any_regex(regexes: &Vec<regex::Regex>, line: &str) -> (r: bool)
    ensures
        r == any_regex_match(sources(regexes@), line@),
{
    let mut i: usize = 0;
    while i < regexes.len()
        invariant
            i <= regexes@.len(),
            forall|j: int|
                0 <= j < i ==> !pattern::is_match(#[trigger] sources(regexes@)[j], line@),
        decreases regexes.len() - i,
    {
        if pattern::matches(&regexes[i], line) {
            assert(pattern::is_match(sources(regexes@)[i as int], line@));
            return true;
        }
        i += 1;
    }
    false
}

fn fold(s: &str, ignore_case: bool) -> (r: String)
    ensures
        r@ == folded(s@, ignore_case),
{
    if ignore_case {
        text::to_lower(s)
    } else {
        s.to_owned()
    }
}

fn has_fixed(s: &str, part: &str, words: bool, lines: bool) -> (r: bool)
    ensures
        r == exists|k: int| #[trigger] stands_at(s@, part@, words, lines, k),
{
    let v = text::chars(s);
    let p = text::chars(part);
    if p.len() > v.len() {
        return false;
    }
    let last: usize = v.len() - p.len();
    let mut i: usize = 0;
    loop
        invariant
            i <= last,
            last == v@.len() - p@.len(),
            v@ == s@,
            p@ == part@,
            forall|k: int| 0 <= k < i ==> !#[trigger] stands_at(s@, part@, words, lines, k),
        decreases last - i,
    {
        if found_at(&v, &p, words, lines, i) {
            return true;
        }
        if i == last {
            return false;
        }
        i += 1;
    }
}

fn any_fixed(
    patterns: &Vec<String>,
    ignore_case: bool,
    words: bool,
    lines: bool,
    line: &str,
) -> (r: bool)
    ensures
        r == any_fixed_match(patterns.deep_view(), ignore_case, words, lines, line@),
{
    let searched = fold(line, ignore_case);
    let mut i: usize = 0;
    while i < patterns.len()
        invariant
            i <= patterns@.len(),
            searched@ == folded(line@, ignore_case),
            forall|j: int|
                0 <= j < i ==> !fixed_match(
                    #[trigger] patterns.deep_view()[j],
                    ignore_case,
                    words,
                    lines,
                    line@,
                ),
        decreases patterns.len() - i,
    {
        let wanted = fold(patterns[i].as_str(), ignore_case);
        if has_fixed(searched.as_str(), wanted.as_str(), words, lines) {
            assert(fixed_match(patterns.deep_view()[i as int], ignore_case, words, lines, line@));
            return true;
        }
        i += 1;
    }
    false
}

fn find_fixed(
    patterns: &Vec<String>,
    ignore_case: bool,
    words: bool,
    lines: bool,
    line: &str,
) -> (r: Vec<(usize, usize)>)
    ensures
        r@ == all_fixed_found(patterns.deep_view(), ignore_case, words, lines, line@),
{
    let mut found: Vec<(usize, usize)> = Vec::new();
    let ghost all = patterns.deep_view();
    let searched = fold(line, ignore_case);
    let mut i: usize = 0;
    while i < patterns.len()
        invariant
            i <= patterns@.len(),
            all == patterns.deep_view(),
            searched@ == folded(line@, ignore_case),
            found@ == all_fixed_found(all.take(i as int), ignore_case, words, lines, line@),
        decreases patterns.len() - i,
    {
        let wanted = fold(patterns[i].as_str(), ignore_case);
        let len: usize = patterns[i].as_str().as_bytes().len();
        assert(all.take(i + 1).drop_last() =~= all.take(i as int));
        add_places(&mut found, searched.as_str(), wanted.as_str(), words, lines, len);
        i += 1;
    }
    assert(all.take(i as int) =~= all);
    found
}

impl Matcher {
    /// Checks if a line matches any pattern.
    pub fn is_match(&self, line: &str) -> (r: bool)
        ensures
            r == line_matches(self@, line@),
    {
        match self {
            Matcher::Regex(regexes) => any_regex(regexes, line),
            Matcher::Fixed { patterns, ignore_case } => any_fixed(
                patterns,
                *ignore_case,
                false,
                false,
                line,
            ),
            Matcher::Whole { patterns, ignore_case, words, lines } => any_fixed(
                patterns,
                *ignore_case,
                *words,
                *lines,
                line,
            ),
        }
    }

    /// Finds all matches in a line and returns their (start, end) byte offsets, in order and without
    /// those that overlap an earlier one.
    pub fn find_matches(&self, line: &str) -> (r: Vec<(usize, usize)>)
        ensures
            r@ == line_found(self@, line@),
    {
        let mut found: Vec<(usize, usize)> = Vec::new();
        match self {
            Matcher::Regex(regexes) => {
                let ghost all = sources(regexes@);
                let mut i: usize = 0;
                while i < regexes.len()
                    invariant
                        i <= regexes@.len(),
                        all == sources(regexes@),
                        found@ == all_regex_found(all.take(i as int), line@),
                    decreases regexes.len() - i,
                {
                    let mut more = pattern::find_all(&regexes[i], line);
                    assert(all.take(i + 1).drop_last() =~= all.take(i as int));
                    found.append(&mut more);
                    i += 1;
                }
                assert(all.take(i as int) =~= all);
            },
            Matcher::Fixed { patterns, ignore_case } => {
                found = find_fixed(patterns, *ignore_case, false, false, line);
            },
            Matcher::Whole { patterns, ignore_case, words, lines } => {
                found = find_fixed(patterns, *ignore_case, *words, *lines, line);
            },
        }
        let sorted = sort_by_start(found);
        keep_apart(&sorted)
    }
}

/// The pattern in brackets of its own, between word boundaries with -w and over the whole line with
/// -x.
pub open spec fn grouped(o: GrepOptions, pattern: Seq<char>) -> Seq<char> {
    let word = if o.word_regexp {
        "\\b(?:"@ + pattern + ")\\b"@
    } else {
        pattern
    };
    if o.line_regexp {
        "^(?:"@ + word + ")$"@
    } else {
        word
    }
}

/// The pattern as it stands, between word boundaries with -w and over the whole line with -x.
pub open spec fn enclosed(o: GrepOptions, pattern: Seq<char>) -> Seq<char> {
    let word = if o.word_regexp {
        "\\b"@ + pattern + "\\b"@
    } else {
        pattern
    };
    if o.line_regexp {
        "^"@ + word + "$"@
    } else {
        word
    }
}

/// The pattern that is compiled: in brackets of its own, where it is an expression both alone and
/// in them.
pub open spec fn adjusted(o: GrepOptions, pattern: Seq<char>) -> Seq<char> {
    if pattern::build_error(pattern, o.ignore_case, true) is None && pattern::build_error(
        grouped(o, pattern),
        o.ignore_case,
        true,
    ) is None {
        grouped(o, pattern)
    } else {
        enclosed(o, pattern)
    }
}

/// Why a pattern cannot be compiled.
pub open spec fn pattern_error(o: GrepOptions, pattern: Seq<char>) -> Option<Seq<char>> {
    pattern::build_error(adjusted(o, pattern), o.ignore_case, true)
}

/// What compiling the patterns from `i` on behind those already compiled comes to.
pub open spec fn compiled(
    o: GrepOptions,
    patterns: Seq<Seq<char>>,
    i: int,
    done: Seq<(Seq<char>, bool, bool)>,
) -> Result<MatcherView, Seq<char>>
    decreases patterns.len() - i,
{
    if i < 0 || i >= patterns.len() {
        Ok(MatcherView::Regex(done))
    } else {
        match pattern_error(o, patterns[i]) {
            Some(e) => Err("invalid regex '"@ + patterns[i] + "': "@ + e),
            None => compiled(
                o,
                patterns,
                i + 1,
                done.push((adjusted(o, patterns[i]), o.ignore_case, true)),
            ),
        }
    }
}

/// The matcher for the patterns; or the words of the error.
pub open spec fn matcher(o: GrepOptions, patterns: Seq<Seq<char>>) -> Result<
    MatcherView,
    Seq<char>,
> {
    if o.behavior == GrepBehavior::Fixed {
        Ok(
            MatcherView::Fixed {
                patterns,
                ignore_case: o.ignore_case,
                words: o.word_regexp,
                lines: o.line_regexp,
            },
        )
    } else {
        compiled(o, patterns, 0, Seq::empty())
    }
}

/// Puts a pattern between `before` and `after` with -w, and between `start` and `end` with -x.
fn enclose(
    opts: &GrepOptions,
    source: &str,
    before: &str,
    after: &str,
    start: &str,
    end: &str,
) -> (r: String)
    ensures
        r@ == ({
            let word = if opts.word_regexp {
                before@ + source@ + after@
            } else {
                source@
            };
            if opts.line_regexp {
                start@ + word + end@
            } else {
                word
            }
        }),
{
    let mut p = source.to_owned();
    if opts.word_regexp {
        let mut word = before.to_owned();
        word.append(p.as_str());
        word.append(after);
        p = word;
    }
    if opts.line_regexp {
        let mut line = start.to_owned();
        line.append(p.as_str());
        line.append(end);
        p = line;
    }
    p
}

fn compile(opts: &GrepOptions, source: &str) -> (r: Result<regex::Regex, String>)
    ensures
        match r {
            Ok(re) => pattern_error(*opts, source@) is None && pattern::built_from(re) == (
                adjusted(*opts, source@),
                opts.ignore_case,
                true,
            ),
            Err(e) => pattern_error(*opts, source@) == Some(e@),
        },
{
    let alone = pattern::build(source, opts.ignore_case, true);
    if !opts.word_regexp && !opts.line_regexp {
        return alone;
    }
    if alone.is_ok() {
        let whole = enclose(opts, source, "\\b(?:", ")\\b", "^(?:", ")$");
        if let Ok(re) = pattern::build(whole.as_str(), opts.ignore_case, true) {
            return Ok(re);
        }
    }
    let p = enclose(opts, source, "\\b", "\\b", "^", "$");
    pattern::build(p.as_str(), opts.ignore_case, true)
}

/// Builds a matcher from the grep options.
pub fn build_matcher(opts: &GrepOptions, patterns: &Vec<String>) -> (r: Result<Matcher, String>)
    ensures
        match r {
            Ok(m) => matcher(*opts, patterns.deep_view()) == Ok::<MatcherView, Seq<char>>(m@),
            Err(e) => matcher(*opts, patterns.deep_view()) == Err::<MatcherView, Seq<char>>(e@),
        },
{
    if opts.behavior == GrepBehavior::Fixed {
        if opts.word_regexp || opts.line_regexp {
            return Ok(
                Matcher::Whole {
                    patterns: options::copy_texts(patterns),
                    ignore_case: opts.ignore_case,
                    words: opts.word_regexp,
                    lines: opts.line_regexp,
                },
            );
        }
        return Ok(
            Matcher::Fixed {
                patterns: options::copy_texts(patterns),
                ignore_case: opts.ignore_case,
            },
        );
    }
    let mut regexes: Vec<regex::Regex> = Vec::new();
    let mut i: usize = 0;
    let ghost all = patterns.deep_view();
    assert(sources(regexes@) =~= Seq::<(Seq<char>, bool, bool)>::empty());
    while i < patterns.len()
        invariant
            i <= patterns@.len(),
            all == patterns.deep_view(),
            compiled(*opts, all, i as int, sources(regexes@)) == compiled(
                *opts,
                all,
                0,
                Seq::empty(),
            ),
            opts.behavior != GrepBehavior::Fixed,
        decreases patterns.len() - i,
    {
        match compile(opts, patterns[i].as_str()) {
            Ok(re) => {
                let ghost shown = sources(regexes@);
                regexes.push(re);
                assert(sources(regexes@) =~= shown.push(
                    (adjusted(*opts, all[i as int]), opts.ignore_case, true),
                ));
            },
            Err(e) => {
                let mut m = "invalid regex '".to_owned();
                m.append(patterns[i].as_str());
                m.append("': ");
                m.append(e.as_str());
                return Err(m);
            },
        }
        i += 1;
    }
    Ok(Matcher::Regex(regexes))
}

// ---------------------------------------------------------------------------------------------
// Reporting lines
// ---------------------------------------------------------------------------------------------

/// What the patterns say of one line.
pub struct Mark {
    /// Whether the line is selected.
    pub hit: bool,
    /// The parts of the line to print when only those are wanted.
    pub parts: Vec<String>,
}

pub ghost struct MarkView {
    pub hit: bool,
    pub parts: Seq<Seq<char>>,
}

impl DeepView for Mark {
    type V = MarkView;

    open spec fn deep_view(&self) -> MarkView {
        MarkView { hit: self.hit, parts: self.parts.deep_view() }
    }
}

/// The parts of a line in these ranges; a range that is none of the line's is passed over.
pub open spec fn pieces(line: Seq<char>, found: Seq<(usize, usize)>) -> Seq<Seq<char>>
    decreases found.len(),
{
    if found.len() == 0 {
        Seq::empty()
    } else {
        match text::piece(line, found.last().0 as nat, found.last().1 as nat) {
            Some(t) => pieces(line, found.drop_last()).push(t),
            None => pieces(line, found.drop_last()),
        }
    }
}

/// What a matcher says of a line.
pub open spec fn mark(m: MatcherView, o: GrepOptions, line: Seq<char>) -> MarkView {
    let hit = line_matches(m, line) != o.invert_match;
    MarkView {
        hit,
        parts: if hit && o.only_matching {
            pieces(line, line_found(m, line))
        } else {
            Seq::empty()
        },
    }
}

/// What a matcher says of each line.
pub open spec fn marks(m: MatcherView, o: GrepOptions, lines: Seq<Seq<char>>) -> Seq<MarkView> {
    Seq::new(lines.len(), |i: int| mark(m, o, lines[i]))
}

/// A line behind the name of its file and its number, each followed by a separator.
pub open spec fn tagged(
    name: Option<Seq<char>>,
    number: Option<nat>,
    line: Seq<char>,
    separator: char,
) -> Seq<char> {
    let a = match name {
        Some(n) => n.push(separator),
        None => Seq::empty(),
    };
    let b = match number {
        Some(n) => a + text::decimal(n).push(separator),
        None => a,
    };
    b + line
}

/// What is known while lines are gone through.
pub ghost struct Scan {
    /// What was printed.
    pub out: Seq<char>,
    /// The number of lines that were selected.
    pub count: nat,
    /// The lines, by number, that may have to be printed as leading context.
    pub queue: Seq<(nat, Seq<char>)>,
    /// The number of lines that are still to be printed as trailing context.
    pub after: nat,
    /// The number of the line that was printed last.
    pub last: Option<nat>,
    /// Whether a selected line was printed.
    pub sep: bool,
}

pub open spec fn fresh_scan() -> Scan {
    Scan {
        out: Seq::empty(),
        count: 0,
        queue: Seq::empty(),
        after: 0,
        last: None,
        sep: false,
    }
}

/// Whether selected lines are printed.
pub open spec fn shows_lines(o: GrepOptions) -> bool {
    !o.quiet && !o.count_only && !o.files_with_matches && !o.files_without_match
}

pub open spec fn number_of(o: GrepOptions, n: nat) -> Option<nat> {
    if o.line_number {
        Some(n)
    } else {
        None
    }
}

/// The lines of leading context.
pub open spec fn queue_text(
    o: GrepOptions,
    name: Option<Seq<char>>,
    queue: Seq<(nat, Seq<char>)>,
) -> Seq<char>
    decreases queue.len(),
{
    if queue.len() == 0 {
        Seq::empty()
    } else {
        queue_text(o, name, queue.drop_last()) + text::terminated(
            tagged(name, number_of(o, queue.last().0), queue.last().1, '-'),
        )
    }
}

/// The parts of a selected line.
pub open spec fn parts_text(
    name: Option<Seq<char>>,
    number: Option<nat>,
    parts: Seq<Seq<char>>,
) -> Seq<char>
    decreases parts.len(),
{
    if parts.len() == 0 {
        Seq::empty()
    } else {
        parts_text(name, number, parts.drop_last()) + text::terminated(
            tagged(name, number, parts.last(), ':'),
        )
    }
}

/// Whether line `n` does not follow the line that was printed last.
pub open spec fn gap(st: Scan, n: nat) -> bool {
    st.sep && match st.last {
        Some(l) => n > l + 1,
        None => false,
    }
}

pub open spec fn separated(st: Scan, n: nat) -> Scan {
    if gap(st, n) {
        Scan { out: st.out + "--\n"@, ..st }
    } else {
        st
    }
}

/// After the leading context was printed.
pub open spec fn context_printed(st: Scan, o: GrepOptions, name: Option<Seq<char>>) -> Scan {
    if (o.before_context > 0 || o.after_context > 0) && st.queue.len() > 0 {
        Scan {
            out: separated(st, st.queue[0].0).out + queue_text(o, name, st.queue),
            queue: Seq::empty(),
            last: Some(st.queue.last().0),
            ..st
        }
    } else {
        st
    }
}

/// After a selected line was printed.
pub open spec fn hit_printed(
    st: Scan,
    o: GrepOptions,
    name: Option<Seq<char>>,
    line: Seq<char>,
    parts: Seq<Seq<char>>,
    n: nat,
) -> Scan {
    let a = context_printed(st, o, name);
    let b = if o.before_context > 0 || o.after_context > 0 {
        separated(a, n)
    } else {
        a
    };
    Scan {
        out: b.out + if o.only_matching {
            parts_text(name, number_of(o, n), parts)
        } else {
            text::terminated(tagged(name, number_of(o, n), line, ':'))
        },
        last: Some(n),
        sep: true,
        after: o.after_context as nat,
        ..b
    }
}

/// After one line was gone through.
pub open spec fn line_scanned(
    st: Scan,
    o: GrepOptions,
    name: Option<Seq<char>>,
    line: Seq<char>,
    m: MarkView,
    n: nat,
) -> Scan {
    if m.hit {
        let counted = Scan { count: st.count + 1, ..st };
        if shows_lines(o) {
            hit_printed(counted, o, name, line, m.parts, n)
        } else {
            counted
        }
    } else if st.after > 0 && shows_lines(o) {
        Scan {
            out: st.out + text::terminated(tagged(name, number_of(o, n), line, '-')),
            last: Some(n),
            after: (st.after - 1) as nat,
            ..st
        }
    } else if o.before_context > 0 {
        let kept = if st.queue.len() >= o.before_context {
            st.queue.skip(1)
        } else {
            st.queue
        };
        Scan { queue: kept.push((n, line)), ..st }
    } else {
        st
    }
}

/// Whether no more lines are wanted.
pub open spec fn enough(st: Scan, o: GrepOptions) -> bool {
    match o.max_count {
        Some(max) => st.count >= max,
        None => false,
    }
}

/// After the lines from `i` on were gone through, up to the last one that is wanted.
pub open spec fn scanned(
    st: Scan,
    o: GrepOptions,
    name: Option<Seq<char>>,
    lines: Seq<Seq<char>>,
    ms: Seq<MarkView>,
    i: int,
) -> Scan
    decreases lines.len() - i,
{
    if i < 0 || i >= lines.len() {
        st
    } else {
        let next = line_scanned(st, o, name, lines[i], ms[i], (i + 1) as nat);
        if ms[i].hit && enough(next, o) {
            next
        } else {
            scanned(next, o, name, lines, ms, i + 1)
        }
    }
}

/// After the lines were gone through, up to the last one that is wanted.
pub open spec fn all_scanned(
    o: GrepOptions,
    name: Option<Seq<char>>,
    lines: Seq<Seq<char>>,
    ms: Seq<MarkView>,
) -> Scan {
    if o.max_count == Some(0usize) {
        fresh_scan()
    } else {
        scanned(fresh_scan(), o, name, lines, ms, 0)
    }
}

fn wants_none(opts: &GrepOptions) -> (r: bool)
    ensures
        r == (opts.max_count == Some(0usize)),
{
    match opts.max_count {
        Some(max) => max == 0,
        None => false,
    }
}

/// What is printed at the end of a file, when counts or names of files are wanted.
pub open spec fn ending(count: nat, o: GrepOptions, name: Option<Seq<char>>) -> Seq<char> {
    let shown = match name {
        Some(n) => n,
        None => "(standard input)"@,
    };
    if o.quiet {
        Seq::empty()
    } else if o.count_only {
        text::terminated(
            match name {
                Some(n) => n + ":"@ + text::decimal(count),
                None => text::decimal(count),
            },
        )
    } else if o.files_with_matches && count > 0 {
        text::terminated(shown)
    } else if o.files_without_match && count == 0 {
        text::terminated(shown)
    } else {
        Seq::empty()
    }
}

/// What is printed of lines, and how many of them were selected.
pub open spec fn reported(
    o: GrepOptions,
    name: Option<Seq<char>>,
    lines: Seq<Seq<char>>,
    ms: Seq<MarkView>,
) -> (Seq<char>, nat) {
    let st = all_scanned(o, name, lines, ms);
    (st.out + ending(st.count, o, name), st.count)
}

pub open spec fn opt_str(o: Option<&str>) -> Option<Seq<char>> {
    match o {
        Some(s) => Some(s@),
        None => None,
    }
}

pub open spec fn opt_nat(o: Option<usize>) -> Option<nat> {
    match o {
        Some(n) => Some(n as nat),
        None => None,
    }
}

/// Makes a single output line with optional filename and line number prefix.
fn print_line(
    out: &mut String,
    filename: Option<&str>,
    line_num: Option<usize>,
    line: &str,
    separator: char,
)
    ensures
        final(out)@ == old(out)@ + text::terminated(
            tagged(opt_str(filename), opt_nat(line_num), line@, separator),
        ),
{
    let mut s = String::new();
    if let Some(name) = filename {
        s.append(name);
        s.push(separator);
        assert(s@ =~= name@.push(separator));
    }
    if let Some(n) = line_num {
        let ghost before = s@;
        let d = text::to_decimal(n as u64);
        s.append(d.as_str());
        s.push(separator);
        assert(s@ =~= before + d@.push(separator));
    }
    s.append(line);
    s.push('\n');
    out.append(s.as_str());
}

/// Context for printing with before/after context.
struct ContextPrinter {
    out: String,
    count: usize,
    before_queue: Vec<(usize, String)>,
    after_remaining: usize,
    last_printed_line: Option<usize>,
    printed_separator: bool,
}

spec fn queue_view(q: Seq<(usize, String)>) -> Seq<(nat, Seq<char>)> {
    Seq::new(q.len(), |i: int| (q[i].0 as nat, q[i].1@))
}

impl ContextPrinter {
    spec fn scan(self) -> Scan {
        Scan {
            out: self.out@,
            count: self.count as nat,
            queue: queue_view(self.before_queue@),
            after: self.after_remaining as nat,
            last: opt_nat(self.last_printed_line),
            sep: self.printed_separator,
        }
    }

    fn new() -> (r: ContextPrinter)
        ensures
            r.scan() == fresh_scan(),
            r.count == 0,
    {
        let r = ContextPrinter {
            out: String::new(),
            count: 0,
            before_queue: Vec::new(),
            after_remaining: 0,
            last_printed_line: None,
            printed_separator: false,
        };
        assert(r.scan().queue =~= Seq::<(nat, Seq<char>)>::empty());
        r
    }

    /// Prints the separator where line `n` does not follow the line that was printed last.
    fn separate(&mut self, n: usize)
        ensures
            final(self).scan() == separated(old(self).scan(), n as nat),
            final(self).before_queue == old(self).before_queue,
            final(self).count == old(self).count,
    {
        if self.printed_separator {
            if let Some(last) = self.last_printed_line {
                if n > 1 && n - 1 > last {
                    self.out.append("--\n");
                }
            }
        }
    }

    fn print_context(&mut self, opts: &GrepOptions, filename: Option<&str>)
        ensures
            final(self).scan() == context_printed(old(self).scan(), *opts, opt_str(filename)),
            final(self).count == old(self).count,
    {
        if (opts.before_context > 0 || opts.after_context > 0) && self.before_queue.len() > 0 {
            let ghost q = queue_view(self.before_queue@);
            let ghost st = self.scan();
            let ghost name = opt_str(filename);
            self.separate(self.before_queue[0].0);
            let ghost base = self.out@;
            let mut i: usize = 0;
            assert(base + queue_text(*opts, name, q.take(0)) =~= base);
            while i < self.before_queue.len()
                invariant
                    i <= self.before_queue@.len(),
                    q == queue_view(self.before_queue@),
                    name == opt_str(filename),
                    self.out@ == base + queue_text(*opts, name, q.take(i as int)),
                    self.scan().after == st.after,
                    self.scan().last == st.last,
                    self.scan().sep == st.sep,
                    self.scan().count == st.count,
                    self.count == old(self).count,
                decreases self.before_queue.len() - i,
            {
                let ghost before = self.out@;
                assert(q.take(i + 1).drop_last() =~= q.take(i as int));
                print_line(
                    &mut self.out,
                    filename,
                    if opts.line_number {
                        Some(self.before_queue[i].0)
                    } else {
                        None
                    },
                    self.before_queue[i].1.as_str(),
                    '-',
                );
                assert(self.out@ =~= base + queue_text(*opts, name, q.take(i + 1)));
                i += 1;
            }
            assert(q.take(i as int) =~= q);
            let n: usize = self.before_queue.len();
            self.last_printed_line = Some(self.before_queue[n - 1].0);
            self.before_queue = Vec::new();
            assert(queue_view(self.before_queue@) =~= Seq::<(nat, Seq<char>)>::empty());
        }
    }

    fn print_parts(&mut self, filename: Option<&str>, number: Option<usize>, parts: &Vec<String>)
        ensures
            final(self).scan() == (Scan {
                out: old(self).scan().out + parts_text(
                    opt_str(filename),
                    opt_nat(number),
                    parts.deep_view(),
                ),
                ..old(self).scan()
            }),
            final(self).count == old(self).count,
    {
        let ghost base = self.out@;
        let ghost all = parts.deep_view();
        let mut i: usize = 0;
        assert(base + parts_text(opt_str(filename), opt_nat(number), all.take(0)) =~= base);
        while i < parts.len()
            invariant
                i <= parts@.len(),
                all == parts.deep_view(),
                self.out@ == base + parts_text(
                    opt_str(filename),
                    opt_nat(number),
                    all.take(i as int),
                ),
                self.scan() == (Scan { out: self.out@, ..old(self).scan() }),
                self.count == old(self).count,
            decreases parts.len() - i,
        {
            assert(all.take(i + 1).drop_last() =~= all.take(i as int));
            print_line(&mut self.out, filename, number, parts[i].as_str(), ':');
            assert(self.out@ =~= base + parts_text(
                opt_str(filename),
                opt_nat(number),
                all.take(i + 1),
            ));
            i += 1;
        }
        assert(all.take(i as int) =~= all);
    }

    fn take_line(
        &mut self,
        opts: &GrepOptions,
        filename: Option<&str>,
        line: &str,
        mark: &Mark,
        n: usize,
    )
        requires
            old(self).count < usize::MAX,
        ensures
            final(self).scan() == line_scanned(
                old(self).scan(),
                *opts,
                opt_str(filename),
                line@,
                mark.deep_view(),
                n as nat,
            ),
            final(self).count <= old(self).count + 1,
    {
        let shows = !opts.quiet && !opts.count_only && !opts.files_with_matches
            && !opts.files_without_match;
        let number: Option<usize> = if opts.line_number {
            Some(n)
        } else {
            None
        };
        if mark.hit {
            self.count = self.count + 1;
            if shows {
                self.print_context(opts, filename);
                if opts.before_context > 0 || opts.after_context > 0 {
                    self.separate(n);
                }
                if opts.only_matching {
                    self.print_parts(filename, number, &mark.parts);
                } else {
                    print_line(&mut self.out, filename, number, line, ':');
                }
                self.last_printed_line = Some(n);
                self.printed_separator = true;
                self.after_remaining = opts.after_context;
            }
        } else if self.after_remaining > 0 && shows {
            print_line(&mut self.out, filename, number, line, '-');
            self.last_printed_line = Some(n);
            self.after_remaining = self.after_remaining - 1;
        } else if opts.before_context > 0 {
            let ghost q = queue_view(self.before_queue@);
            if self.before_queue.len() >= opts.before_context {
                self.before_queue.remove(0);
                assert(queue_view(self.before_queue@) =~= q.skip(1));
            }
            let ghost kept = queue_view(self.before_queue@);
            self.before_queue.push((n, line.to_owned()));
            assert(queue_view(self.before_queue@) =~= kept.push((n as nat, line@)));
        }
    }
}

/// Reports the selected lines among `lines`. Tells whether any was selected.
pub fn report<FS>(
    env: &mut Environment<FS>,
    lines: &Vec<String>,
    marks: &Vec<Mark>,
    filename: Option<&str>,
    opts: &GrepOptions,
) -> (r: bool)
    requires
        marks@.len() == lines@.len(),
    ensures
        ({
            let (out, count) = reported(
                *opts,
                opt_str(filename),
                lines.deep_view(),
                marks.deep_view(),
            );
            final(env)@ == old(env)@.write(out) && r == (count > 0)
        }),
{
    let ghost ls = lines.deep_view();
    let ghost ms = marks.deep_view();
    let ghost name = opt_str(filename);
    let mut ctx = ContextPrinter::new();
    let mut i: usize = 0;
    let mut more = !wants_none(opts);
    let ghost done = all_scanned(*opts, name, ls, ms);
    while more && i < lines.len()
        invariant
            i <= lines@.len(),
            marks@.len() == lines@.len(),
            ls == lines.deep_view(),
            ms == marks.deep_view(),
            name == opt_str(filename),
            ctx.count <= i,
            more ==> scanned(ctx.scan(), *opts, name, ls, ms, i as int) == done,
            !more ==> ctx.scan() == done,
        decreases lines.len() - i,
    {
        ctx.take_line(opts, filename, lines[i].as_str(), &marks[i], i + 1);
        if marks[i].hit {
            if let Some(max) = opts.max_count {
                if ctx.count >= max {
                    more = false;
                }
            }
        }
        i += 1;
    }
    let mut out = ctx.out;
    let count = ctx.count;
    let ghost before = out@;
    if opts.quiet {
    } else if opts.count_only {
        let d = text::to_decimal(count as u64);
        match filename {
            Some(n) => {
                let mut t = n.to_owned();
                t.append(":");
                t.append(d.as_str());
                t.push('\n');
                out.append(t.as_str());
            },
            None => {
                let mut t = d;
                t.push('\n');
                out.append(t.as_str());
            },
        }
    } else if (opts.files_with_matches && count > 0) || (opts.files_without_match && count == 0) {
        let mut t = match filename {
            Some(n) => n.to_owned(),
            None => "(standard input)".to_owned(),
        };
        t.push('\n');
        out.append(t.as_str());
    }
    assert(out@ =~= before + ending(count as nat, *opts, name));
    env.write_str(out.as_str());
    count > 0
}

/// The parts of a line in these ranges.
fn take_pieces(line: &str, found: &Vec<(usize, usize)>) -> (r: Vec<String>)
    ensures
        r.deep_view() == pieces(line@, found@),
{
    let mut out: Vec<String> = Vec::new();
    let mut i: usize = 0;
    assert(out.deep_view() =~= pieces(line@, found@.take(0)));
    while i < found.len()
        invariant
            i <= found@.len(),
            out.deep_view() == pieces(line@, found@.take(i as int)),
        decreases found.len() - i,
    {
        let ghost shown = out.deep_view();
        assert(found@.take(i + 1).drop_last() =~= found@.take(i as int));
        if let Some(t) = text::byte_piece(line, found[i].0, found[i].1) {
            out.push(t);
            assert(out.deep_view() =~= shown.push(t@));
        }
        i += 1;
    }
    assert(found@.take(i as int) =~= found@);
    out
}

/// Asks a matcher about each line.
fn mark_lines(lines: &Vec<String>, opts: &GrepOptions, matcher: &Matcher) -> (r: Vec<Mark>)
    ensures
        r.deep_view() == marks(matcher@, *opts, lines.deep_view()),
        r@.len() == lines@.len(),
{
    let mut out: Vec<Mark> = Vec::new();
    let mut i: usize = 0;
    let ghost all = marks(matcher@, *opts, lines.deep_view());
    assert(out.deep_view() =~= all.take(0));
    while i < lines.len()
        invariant
            i <= lines@.len(),
            all == marks(matcher@, *opts, lines.deep_view()),
            out.deep_view() == all.take(i as int),
            out@.len() == i,
        decreases lines.len() - i,
    {
        let ghost shown = out.deep_view();
        let hit = matcher.is_match(lines[i].as_str()) != opts.invert_match;
        let parts = if hit && opts.only_matching {
            let found = matcher.find_matches(lines[i].as_str());
            take_pieces(lines[i].as_str(), &found)
        } else {
            let none: Vec<String> = Vec::new();
            assert(none.deep_view() =~= Seq::<Seq<char>>::empty());
            none
        };
        let m = Mark { hit, parts };
        assert(m.deep_view() == all[i as int]);
        out.push(m);
        assert(out.deep_view() =~= shown.push(all[i as int]));
        assert(out.deep_view() =~= all.take(i + 1));
        i += 1;
    }
    assert(all.take(i as int) =~= all);
    out
}

/// What searching lines comes to.
pub open spec fn lines_searched<FS>(
    v: env::EnvView<FS>,
    lines: Seq<Seq<char>>,
    name: Option<Seq<char>>,
    o: GrepOptions,
    m: MatcherView,
) -> (env::EnvView<FS>, bool) {
    let (out, count) = reported(o, name, lines, marks(m, o, lines));
    (v.write(out), count > 0)
}

/// Searches lines for matches and outputs results.
pub fn grep_lines<FS>(
    env: &mut Environment<FS>,
    lines: &Vec<String>,
    filename: Option<&str>,
    opts: &GrepOptions,
    matcher: &Matcher,
) -> (r: bool)
    ensures
        (final(env)@, r) == lines_searched(
            old(env)@,
            lines.deep_view(),
            opt_str(filename),
            *opts,
            matcher@,
        ),
{
    let ms = mark_lines(lines, opts, matcher);
    report(env, lines, &ms, filename, opts)
}

// ---------------------------------------------------------------------------------------------
// Searching files
// ---------------------------------------------------------------------------------------------

/// The name under which lines are reported.
pub open spec fn shown_name(print_filename: bool, name: Seq<char>) -> Option<Seq<char>> {
    if print_filename {
        Some(name)
    } else {
        None
    }
}

/// Whether a text is reported as binary: it holds a NUL, and its lines would be shown.
pub open spec fn is_binary(contents: Seq<char>, o: GrepOptions) -> bool {
    !o.text && contents.contains('\0') && shows_lines(o) && o.max_count != Some(0usize)
}

/// Whether any line is selected.
pub open spec fn any_selected(m: MatcherView, o: GrepOptions, lines: Seq<Seq<char>>) -> bool {
    exists|i: int|
        0 <= i < lines.len() && line_matches(m, #[trigger] lines[i]) != o.invert_match
}

/// The report of a failed operation, unless messages are unwanted.
pub open spec fn complained<FS>(
    v: env::EnvView<FS>,
    o: GrepOptions,
    display: Seq<char>,
    message: Seq<char>,
) -> env::EnvView<FS> {
    if o.no_messages {
        v
    } else {
        v.error_line("grep: "@ + display + ": "@ + message)
    }
}

/// What searching a single file comes to.
pub open spec fn file_searched<FS: Filesystem>(
    v: env::EnvView<FS>,
    path: Seq<char>,
    display: Seq<char>,
    o: GrepOptions,
    m: MatcherView,
    print_filename: bool,
) -> (env::EnvView<FS>, Result<bool, env::ErrorView>) {
    let w = v.with_fs(v.fs.after(fs::Request::Read(path)));
    match v.fs.reads(path) {
        Err(e) => (complained(w, o, display, e.message), Err(env::ErrorView::Io(e))),
        Ok(contents) => if is_binary(contents, o) {
            let hit = any_selected(m, o, text::lines(contents));
            if hit {
                (w.write_line("Binary file "@ + display + " matches"@), Ok(true))
            } else {
                (w, Ok(hit))
            }
        } else {
            let (x, hit) = lines_searched(
                w,
                text::lines(contents),
                shown_name(print_filename, display),
                o,
                m,
            );
            (x, Ok(hit))
        },
    }
}

/// What searching a directory comes to. Directories nested deeper than `depth` are not entered.
pub open spec fn directory_searched<FS: Filesystem>(
    v: env::EnvView<FS>,
    path: Seq<char>,
    display: Seq<char>,
    o: GrepOptions,
    m: MatcherView,
    print_filename: bool,
    depth: nat,
) -> (env::EnvView<FS>, Result<bool, env::ErrorView>)
    decreases depth, 1int, 0int,
{
    let w = v.with_fs(v.fs.after(fs::Request::ReadDir(path)));
    match v.fs.lists(path) {
        Err(e) => (complained(w, o, display, fs::friendly(e)), Err(env::ErrorView::Io(e))),
        Ok(l) => entries_searched(
            w,
            path,
            display,
            o,
            m,
            print_filename,
            depth,
            order::by_name(l),
            0,
            false,
        ),
    }
}

/// What searching the entries of a directory from `i` on comes to, when `hit` tells whether those
/// before them had a selected line. What goes wrong with an entry does not keep the others from
/// being searched; a quiet search ends with the first selected line.
pub open spec fn entries_searched<FS: Filesystem>(
    v: env::EnvView<FS>,
    path: Seq<char>,
    display: Seq<char>,
    o: GrepOptions,
    m: MatcherView,
    print_filename: bool,
    depth: nat,
    l: Seq<fs::Listed>,
    i: int,
    hit: bool,
) -> (env::EnvView<FS>, Result<bool, env::ErrorView>)
    decreases depth, 0int, l.len() - i,
{
    if i < 0 || i >= l.len() {
        (v, Ok(hit))
    } else if l[i].name.len() > 0 && l[i].name[0] == '.' {
        entries_searched(v, path, display, o, m, print_filename, depth, l, i + 1, hit)
    } else {
        let at = paths::child(path, l[i].name);
        let shown = paths::child(display, l[i].name);
        let (w, r) = if l[i].entry.file_type == FileType::Directory && depth > 0 {
            directory_searched(v, at, shown, o, m, print_filename, (depth - 1) as nat)
        } else if l[i].entry.file_type == FileType::RegularFile {
            file_searched(v, at, shown, o, m, print_filename)
        } else {
            (v, Ok(false))
        };
        let now = hit || r == Ok::<bool, env::ErrorView>(true);
        if o.quiet && now {
            (w, Ok(true))
        } else {
            entries_searched(w, path, display, o, m, print_filename, depth, l, i + 1, now)
        }
    }
}

/// What searching a path comes to.
pub open spec fn path_searched<FS: Filesystem>(
    v: env::EnvView<FS>,
    path: Seq<char>,
    display: Seq<char>,
    o: GrepOptions,
    m: MatcherView,
    print_filename: bool,
) -> (env::EnvView<FS>, Result<bool, env::ErrorView>) {
    let w = v.with_fs(v.fs.after(fs::Request::Stat(path)));
    match v.fs.stats(path) {
        Err(e) => (complained(w, o, display, fs::friendly(e)), Err(env::ErrorView::Io(e))),
        Ok(entry) => if entry.file_type == FileType::Directory {
            if o.recursive {
                directory_searched(w, path, display, o, m, print_filename, usize::MAX as nat)
            } else {
                (
                    complained(w, o, display, "Is a directory"@),
                    Err(
                        env::ErrorView::Io(
                            fs::IoView {
                                kind: ErrorKind::IsADirectory,
                                message: "Is a directory"@,
                                details: "Custom { kind: IsADirectory, error: \"Is a directory\" }"@,
                            },
                        ),
                    ),
                )
            }
        } else {
            file_searched(w, path, display, o, m, print_filename)
        },
    }
}

pub open spec fn bool_result(r: Result<bool, Error>) -> Result<bool, env::ErrorView> {
    match r {
        Ok(b) => Ok(b),
        Err(e) => Err(e@),
    }
}

fn complain<FS>(env: &mut Environment<FS>, opts: &GrepOptions, display: &str, message: &str)
    ensures
        final(env)@ == complained(old(env)@, *opts, display@, message@),
{
    if !opts.no_messages {
        let mut m = "grep: ".to_owned();
        m.append(display);
        m.append(": ");
        m.append(message);
        env.error_line(m.as_str());
    }
}

fn selects_any(lines: &Vec<String>, opts: &GrepOptions, matcher: &Matcher) -> (r: bool)
    ensures
        r == any_selected(matcher@, *opts, lines.deep_view()),
{
    let mut i: usize = 0;
    while i < lines.len()
        invariant
            i <= lines@.len(),
            forall|j: int|
                0 <= j < i ==> line_matches(matcher@, #[trigger] lines.deep_view()[j])
                    == opts.invert_match,
        decreases lines.len() - i,
    {
        if matcher.is_match(lines[i].as_str()) != opts.invert_match {
            assert(line_matches(matcher@, lines.deep_view()[i as int]) != opts.invert_match);
            return true;
        }
        i += 1;
    }
    false
}

/// Searches a single file for matches.
pub fn grep_file<FS: Filesystem>(
    env: &mut Environment<FS>,
    resolved_path: &str,
    display_path: &str,
    opts: &GrepOptions,
    matcher: &Matcher,
    print_filename: bool,
) -> (r: Result<bool, Error>)
    ensures
        (final(env)@, bool_result(r)) == file_searched(
            old(env)@,
            resolved_path@,
            display_path@,
            *opts,
            matcher@,
            print_filename,
        ),
{
    let contents = match env.fs.read_to_string(resolved_path) {
        Ok(c) => c,
        Err(FsError::Io(e)) => {
            complain(env, opts, display_path, e.message.as_str());
            return Err(Error::Io(e));
        },
    };
    let lines = text::lines_of(contents.as_str());
    let shows = !opts.quiet && !opts.count_only && !opts.files_with_matches
        && !opts.files_without_match && !wants_none(opts);
    if !opts.text && shows && text::has_char(contents.as_str(), '\0') {
        let hit = selects_any(&lines, opts, matcher);
        if hit {
            let mut m = "Binary file ".to_owned();
            m.append(display_path);
            m.append(" matches");
            env.write_line(m.as_str());
        }
        return Ok(hit);
    }
    let filename: Option<&str> = if print_filename {
        Some(display_path)
    } else {
        None
    };
    Ok(grep_lines(env, &lines, filename, opts, matcher))
}

/// Recursively searches a directory for matches. Directories nested deeper than `depth` are not
/// entered.
pub fn grep_directory<FS: Filesystem>(
    env: &mut Environment<FS>,
    resolved_path: &str,
    display_path: &str,
    opts: &GrepOptions,
    matcher: &Matcher,
    print_filename: bool,
    depth: usize,
) -> (r: Result<bool, Error>)
    ensures
        (final(env)@, bool_result(r)) == directory_searched(
            old(env)@,
            resolved_path@,
            display_path@,
            *opts,
            matcher@,
            print_filename,
            depth as nat,
        ),
    decreases depth,
{
    let entries = match env.fs.read_dir(resolved_path) {
        Ok(l) => l,
        Err(e) => {
            let message = fs::fs_error_message(&e);
            complain(env, opts, display_path, message.as_str());
            return Err(env::error_of(e));
        },
    };
    let entries = order::sort_by_name(entries);
    let ghost l = fs::listing(entries@);
    let ghost start = env@;
    let mut any_match = false;
    let mut i: usize = 0;
    while i < entries.len()
        invariant
            i <= entries@.len(),
            l == fs::listing(entries@),
            entries_searched(
                env@,
                resolved_path@,
                display_path@,
                *opts,
                matcher@,
                print_filename,
                depth as nat,
                l,
                i as int,
                any_match,
            ) == entries_searched(
                start,
                resolved_path@,
                display_path@,
                *opts,
                matcher@,
                print_filename,
                depth as nat,
                l,
                0,
                false,
            ),
            directory_searched(
                old(env)@,
                resolved_path@,
                display_path@,
                *opts,
                matcher@,
                print_filename,
                depth as nat,
            ) == entries_searched(
                start,
                resolved_path@,
                display_path@,
                *opts,
                matcher@,
                print_filename,
                depth as nat,
                l,
                0,
                false,
            ),
        decreases entries.len() - i,
    {
        let name = entries[i].0.clone();
        let file_type = entries[i].1.file_type;
        let first = text::chars(name.as_str());
        if !(first.len() > 0 && first[0] == '.') {
            let at = paths::child_path(resolved_path, name.as_str());
            let shown = paths::child_path(display_path, name.as_str());
            let found = if file_type == FileType::Directory && depth > 0 {
                grep_directory(
                    env,
                    at.as_str(),
                    shown.as_str(),
                    opts,
                    matcher,
                    print_filename,
                    depth - 1,
                )
            } else if file_type == FileType::RegularFile {
                grep_file(env, at.as_str(), shown.as_str(), opts, matcher, print_filename)
            } else {
                Ok(false)
            };
            if let Ok(matched) = found {
                any_match = any_match || matched;
            }
            if opts.quiet && any_match {
                return Ok(true);
            }
        }
        i += 1;
    }
    Ok(any_match)
}

/// Searches a path (file or directory) for matches.
pub fn grep_path<FS: Filesystem>(
    env: &mut Environment<FS>,
    resolved_path: &str,
    display_path: &str,
    opts: &GrepOptions,
    matcher: &Matcher,
    print_filename: bool,
) -> (r: Result<bool, Error>)
    ensures
        (final(env)@, bool_result(r)) == path_searched(
            old(env)@,
            resolved_path@,
            display_path@,
            *opts,
            matcher@,
            print_filename,
        ),
{
    let stat = match env.fs.stat(resolved_path) {
        Ok(s) => s,
        Err(e) => {
            let message = fs::fs_error_message(&e);
            complain(env, opts, display_path, message.as_str());
            return Err(env::error_of(e));
        },
    };
    if stat.file_type == FileType::Directory {
        if opts.recursive {
            grep_directory(
                env,
                resolved_path,
                display_path,
                opts,
                matcher,
                print_filename,
                usize::MAX,
            )
        } else {
            complain(env, opts, display_path, "Is a directory");
            Err(
                Error::Io(
                    IoError {
                        kind: ErrorKind::IsADirectory,
                        message: "Is a directory".to_owned(),
                        details: "Custom { kind: IsADirectory, error: \"Is a directory\" }".to_owned(),
                    },
                ),
            )
        }
    } else {
        grep_file(env, resolved_path, display_path, opts, matcher, print_filename)
    }
}

// ---------------------------------------------------------------------------------------------
// The command
// ---------------------------------------------------------------------------------------------

/// The options of the command.
pub open spec fn table() -> Seq<OptDef> {
    seq![
        OptDef { short: 'E', long: "extended-regexp", arity: Arity::Flag },
        OptDef { short: 'F', long: "fixed-strings", arity: Arity::Flag },
        OptDef { short: 'G', long: "basic-regexp", arity: Arity::Flag },
        OptDef { short: 'i', long: "ignore-case", arity: Arity::Flag },
        OptDef { short: 'v', long: "invert-match", arity: Arity::Flag },
        OptDef { short: 'w', long: "word-regexp", arity: Arity::Flag },
        OptDef { short: 'x', long: "line-regexp", arity: Arity::Flag },
        OptDef { short: 'c', long: "count", arity: Arity::Flag },
        OptDef { short: 'l', long: "files-with-matches", arity: Arity::Flag },
        OptDef { short: 'L', long: "files-without-match", arity: Arity::Flag },
        OptDef { short: 'm', long: "max-count", arity: Arity::Value },
        OptDef { short: 'o', long: "only-matching", arity: Arity::Flag },
        OptDef { short: 'q', long: "quiet", arity: Arity::Flag },
        OptDef { short: 's', long: "no-messages", arity: Arity::Flag },
        OptDef { short: 'H', long: "with-filename", arity: Arity::Flag },
        OptDef { short: 'h', long: "no-filename", arity: Arity::Flag },
        OptDef { short: 'n', long: "line-number", arity: Arity::Flag },
        OptDef { short: 'A', long: "after-context", arity: Arity::Value },
        OptDef { short: 'B', long: "before-context", arity: Arity::Value },
        OptDef { short: 'C', long: "context", arity: Arity::Value },
        OptDef { short: 'r', long: "recursive", arity: Arity::Flag },
        OptDef { short: 'R', long: "", arity: Arity::Flag },
        OptDef { short: 'a', long: "text", arity: Arity::Flag },
        OptDef { short: 'e', long: "regexp", arity: Arity::Values },
        OptDef { short: 'f', long: "file", arity: Arity::Value },
    ]
}

fn build_options() -> (r: Vec<OptDef>)
    ensures
        r@ == table(),
        options::all_declarable(options::definitions(r@)),
{
    let r = vec![
        OptDef { short: 'E', long: "extended-regexp", arity: Arity::Flag },
        OptDef { short: 'F', long: "fixed-strings", arity: Arity::Flag },
        OptDef { short: 'G', long: "basic-regexp", arity: Arity::Flag },
        OptDef { short: 'i', long: "ignore-case", arity: Arity::Flag },
        OptDef { short: 'v', long: "invert-match", arity: Arity::Flag },
        OptDef { short: 'w', long: "word-regexp", arity: Arity::Flag },
        OptDef { short: 'x', long: "line-regexp", arity: Arity::Flag },
        OptDef { short: 'c', long: "count", arity: Arity::Flag },
        OptDef { short: 'l', long: "files-with-matches", arity: Arity::Flag },
        OptDef { short: 'L', long: "files-without-match", arity: Arity::Flag },
        OptDef { short: 'm', long: "max-count", arity: Arity::Value },
        OptDef { short: 'o', long: "only-matching", arity: Arity::Flag },
        OptDef { short: 'q', long: "quiet", arity: Arity::Flag },
        OptDef { short: 's', long: "no-messages", arity: Arity::Flag },
        OptDef { short: 'H', long: "with-filename", arity: Arity::Flag },
        OptDef { short: 'h', long: "no-filename", arity: Arity::Flag },
        OptDef { short: 'n', long: "line-number", arity: Arity::Flag },
        OptDef { short: 'A', long: "after-context", arity: Arity::Value },
        OptDef { short: 'B', long: "before-context", arity: Arity::Value },
        OptDef { short: 'C', long: "context", arity: Arity::Value },
        OptDef { short: 'r', long: "recursive", arity: Arity::Flag },
        OptDef { short: 'R', long: "", arity: Arity::Flag },
        OptDef { short: 'a', long: "text", arity: Arity::Flag },
        OptDef { short: 'e', long: "regexp", arity: Arity::Values },
        OptDef { short: 'f', long: "file", arity: Arity::Value },
    ];
    proof {
        reveal_strlit("extended-regexp");
        reveal_strlit("fixed-strings");
        reveal_strlit("basic-regexp");
        reveal_strlit("ignore-case");
        reveal_strlit("invert-match");
        reveal_strlit("word-regexp");
        reveal_strlit("line-regexp");
        reveal_strlit("count");
        reveal_strlit("files-with-matches");
        reveal_strlit("files-without-match");
        reveal_strlit("max-count");
        reveal_strlit("only-matching");
        reveal_strlit("quiet");
        reveal_strlit("no-messages");
        reveal_strlit("with-filename");
        reveal_strlit("no-filename");
        reveal_strlit("line-number");
        reveal_strlit("after-context");
        reveal_strlit("before-context");
        reveal_strlit("context");
        reveal_strlit("recursive");
        reveal_strlit("");
        reveal_strlit("text");
        reveal_strlit("regexp");
        reveal_strlit("file");
    }
    r
}

/// The number that an option gives, where it is given.
pub open spec fn number_given(p: options::ParsedView, short: char) -> Option<Option<usize>> {
    match p.value(short) {
        None => Some(None),
        Some(s) => match text::unsigned(s, usize::MAX as nat) {
            Some(n) => Some(Some(n as usize)),
            None => None,
        },
    }
}

/// The type of matching: by the name of the program, then -G, -E and -F in this order.
pub open spec fn behavior(p: options::ParsedView, program: Seq<char>) -> GrepBehavior {
    if p.present('F') {
        GrepBehavior::Fixed
    } else if p.present('E') {
        GrepBehavior::Extended
    } else if p.present('G') {
        GrepBehavior::Basic
    } else if text::ends_with(program, "egrep"@) {
        GrepBehavior::Extended
    } else if text::ends_with(program, "fgrep"@) {
        GrepBehavior::Fixed
    } else {
        GrepBehavior::Basic
    }
}

/// The first number that is given, or zero.
pub open spec fn first_given(a: Option<usize>, b: Option<usize>) -> usize {
    match (a, b) {
        (Some(n), _) => n,
        (None, Some(n)) => n,
        (None, None) => 0,
    }
}

/// The settings that flags and numbers give.
pub open spec fn combined(
    p: options::ParsedView,
    program: Seq<char>,
    a: Option<usize>,
    b: Option<usize>,
    c: Option<usize>,
    max: Option<usize>,
) -> GrepOptions {
    GrepOptions {
        behavior: behavior(p, program),
        ignore_case: p.present('i'),
        invert_match: p.present('v'),
        count_only: p.present('c'),
        files_with_matches: p.present('l'),
        files_without_match: p.present('L'),
        line_number: p.present('n'),
        with_filename: p.present('H'),
        no_filename: p.present('h'),
        only_matching: p.present('o'),
        quiet: p.present('q'),
        no_messages: p.present('s'),
        word_regexp: p.present('w'),
        line_regexp: p.present('x'),
        recursive: p.present('r') || p.present('R'),
        after_context: first_given(c, a),
        before_context: first_given(c, b),
        max_count: max,
        text: p.present('a'),
    }
}

/// The settings that a command line gives; or the words of the error.
pub open spec fn settings(p: options::ParsedView, program: Seq<char>) -> Result<
    GrepOptions,
    Seq<char>,
> {
    let context = "grep: invalid context length argument: "@;
    match number_given(p, 'A') {
        None => Err(context + p.value('A')->0),
        Some(a) => match number_given(p, 'B') {
            None => Err(context + p.value('B')->0),
            Some(b) => match number_given(p, 'C') {
                None => Err(context + p.value('C')->0),
                Some(c) => match number_given(p, 'm') {
                    None => Err("grep: invalid max count: "@ + p.value('m')->0),
                    Some(max) => Ok(combined(p, program, a, b, c, max)),
                },
            },
        },
    }
}

/// Whether lines are reported under the names of their files.
pub open spec fn names_shown(o: GrepOptions, files: nat) -> bool {
    !o.no_filename && (o.with_filename || o.recursive || files > 1)
}

pub open spec fn exit_code(any_match: bool, any_error: bool) -> int {
    if any_error {
        2
    } else if any_match {
        0
    } else {
        1
    }
}

/// What searching the files from `i` on comes to.
pub open spec fn files_searched<FS: Filesystem>(
    v: env::EnvView<FS>,
    files: Seq<Seq<char>>,
    i: int,
    o: GrepOptions,
    m: MatcherView,
    any_match: bool,
    any_error: bool,
) -> (env::EnvView<FS>, Result<int, env::ErrorView>)
    decreases files.len() - i,
{
    if i < 0 || i >= files.len() {
        (v, Ok(exit_code(any_match, any_error)))
    } else {
        let (w, r) = path_searched(
            v,
            paths::resolved(v.cwd, files[i]),
            files[i],
            o,
            m,
            names_shown(o, files.len()),
        );
        let matched = any_match || r == Ok::<bool, env::ErrorView>(true);
        let failed = any_error || r is Err;
        if o.quiet && matched {
            (w, Ok(exit_code(matched, failed)))
        } else {
            files_searched(w, files, i + 1, o, m, matched, failed)
        }
    }
}

/// What searching for patterns comes to.
pub open spec fn searched<FS: Filesystem>(
    v: env::EnvView<FS>,
    o: GrepOptions,
    patterns: Seq<Seq<char>>,
    files: Seq<Seq<char>>,
) -> (env::EnvView<FS>, Result<int, env::ErrorView>) {
    match matcher(o, patterns) {
        Err(e) => (v.error_line("grep: "@ + e), Ok(2)),
        Ok(m) => if files.len() == 0 {
            let (w, hit) = lines_searched(
                v.drained(),
                v.stdin,
                shown_name(names_shown(o, 0), "(standard input)"@),
                o,
                m,
            );
            (w, Ok(exit_code(hit, false)))
        } else {
            files_searched(v, files, 0, o, m, false, false)
        },
    }
}

/// What searching comes to, when the first free argument is the pattern where there is no other.
pub open spec fn patterns_searched<FS: Filesystem>(
    v: env::EnvView<FS>,
    o: GrepOptions,
    patterns: Seq<Seq<char>>,
    free: Seq<Seq<char>>,
) -> (env::EnvView<FS>, Result<int, env::ErrorView>) {
    if patterns.len() > 0 {
        searched(v, o, patterns, free)
    } else if free.len() == 0 {
        (v.error_line("grep: no pattern specified"@), Ok(2))
    } else {
        searched(v, o, seq![free[0]], free.skip(1))
    }
}

/// What the command does once its options are known.
pub open spec fn ran<FS: Filesystem>(v: env::EnvView<FS>, p: options::ParsedView) -> (
    env::EnvView<FS>,
    Result<int, env::ErrorView>,
) {
    match settings(p, v.args[0]) {
        Err(e) => (v.error_line(e), Ok(2)),
        Ok(o) => match p.value('f') {
            None => patterns_searched(v, o, p.values('e'), p.free),
            Some(f) => {
                let path = paths::resolved(v.cwd, f);
                let w = v.with_fs(v.fs.after(fs::Request::Read(path)));
                match v.fs.reads(path) {
                    Ok(t) => patterns_searched(
                        w,
                        o,
                        p.values('e') + text::nonempty(text::lines(t)),
                        p.free,
                    ),
                    Err(e) => (
                        w.error_line("grep: "@ + f + ": "@ + fs::friendly(e)),
                        Ok(2),
                    ),
                }
            },
        },
    }
}

/// What the command does.
pub open spec fn spec_bin<FS: Filesystem>(v: env::EnvView<FS>) -> (
    env::EnvView<FS>,
    Result<int, env::ErrorView>,
) {
    match options::parsed(table(), v.args.skip(1)) {
        Ok(p) => ran(v, p),
        Err(message) => (v.error_line("grep: "@ + message), Ok(2)),
    }
}

fn read_number(p: &Parsed, short: char) -> (r: Result<Option<usize>, String>)
    ensures
        match r {
            Ok(n) => number_given(p@, short) == Some(n),
            Err(s) => number_given(p@, short) is None && p@.value(short) == Some(s@),
        },
{
    match p.value(short) {
        None => Ok(None),
        Some(s) => match text::parse_unsigned(s.as_str(), usize::MAX as u64) {
            Some(n) => Ok(Some(n as usize)),
            None => Err(s),
        },
    }
}

fn read_behavior(p: &Parsed, program: &str) -> (r: GrepBehavior)
    ensures
        r == behavior(p@, program@),
{
    if p.present('F') {
        GrepBehavior::Fixed
    } else if p.present('E') {
        GrepBehavior::Extended
    } else if p.present('G') {
        GrepBehavior::Basic
    } else if text::has_suffix(program, "egrep") {
        GrepBehavior::Extended
    } else if text::has_suffix(program, "fgrep") {
        GrepBehavior::Fixed
    } else {
        GrepBehavior::Basic
    }
}

fn first_number(a: Option<usize>, b: Option<usize>) -> (r: usize)
    ensures
        r == first_given(a, b),
{
    match (a, b) {
        (Some(n), _) => n,
        (None, Some(n)) => n,
        (None, None) => 0,
    }
}

fn combine(
    p: &Parsed,
    program: &str,
    a: Option<usize>,
    b: Option<usize>,
    c: Option<usize>,
    max: Option<usize>,
) -> (r: GrepOptions)
    ensures
        r == combined(p@, program@, a, b, c, max),
{
    let recursive = p.present('r') || p.present('R');
    GrepOptions {
        behavior: read_behavior(p, program),
        ignore_case: p.present('i'),
        invert_match: p.present('v'),
        count_only: p.present('c'),
        files_with_matches: p.present('l'),
        files_without_match: p.present('L'),
        line_number: p.present('n'),
        with_filename: p.present('H'),
        no_filename: p.present('h'),
        only_matching: p.present('o'),
        quiet: p.present('q'),
        no_messages: p.present('s'),
        word_regexp: p.present('w'),
        line_regexp: p.present('x'),
        recursive: recursive,
        after_context: first_number(c, a),
        before_context: first_number(c, b),
        max_count: max,
        text: p.present('a'),
    }
}

/// Reads the settings from a command line.
pub fn read_settings(p: &Parsed, program: &str) -> (r: Result<GrepOptions, String>)
    ensures
        match r {
            Ok(o) => settings(p@, program@) == Ok::<GrepOptions, Seq<char>>(o),
            Err(e) => settings(p@, program@) == Err::<GrepOptions, Seq<char>>(e@),
        },
{
    let mut context = "grep: invalid context length argument: ".to_owned();
    let a = match read_number(p, 'A') {
        Ok(n) => n,
        Err(s) => {
            context.append(s.as_str());
            return Err(context);
        },
    };
    let b = match read_number(p, 'B') {
        Ok(n) => n,
        Err(s) => {
            context.append(s.as_str());
            return Err(context);
        },
    };
    let c = match read_number(p, 'C') {
        Ok(n) => n,
        Err(s) => {
            context.append(s.as_str());
            return Err(context);
        },
    };
    match read_number(p, 'm') {
        Ok(max) => Ok(combine(p, program, a, b, c, max)),
        Err(s) => {
            let mut m = "grep: invalid max count: ".to_owned();
            m.append(s.as_str());
            Err(m)
        },
    }
}

/// Searches stdin for matches.
fn grep_stdin<FS>(
    env: &mut Environment<FS>,
    opts: &GrepOptions,
    matcher: &Matcher,
    print_filename: bool,
) -> (r: bool)
    ensures
        (final(env)@, r) == lines_searched(
            old(env)@.drained(),
            old(env)@.stdin,
            shown_name(print_filename, "(standard input)"@),
            *opts,
            matcher@,
        ),
{
    let lines = env.stdin.read_all();
    let filename: Option<&str> = if print_filename {
        Some("(standard input)")
    } else {
        None
    };
    grep_lines(env, &lines, filename, opts, matcher)
}

fn code_of(any_match: bool, any_error: bool) -> (r: ExitCode)
    ensures
        r.spec_code() == exit_code(any_match, any_error),
{
    if any_error {
        ExitCode::new(2)
    } else if any_match {
        ExitCode::new(0)
    } else {
        ExitCode::new(1)
    }
}

fn search<FS: Filesystem>(
    env: &mut Environment<FS>,
    opts: &GrepOptions,
    patterns: &Vec<String>,
    files: &Vec<String>,
) -> (r: Result<ExitCode, Error>)
    ensures
        (final(env)@, env::outcome(r)) == searched(
            old(env)@,
            *opts,
            patterns.deep_view(),
            files.deep_view(),
        ),
{
    let m = match build_matcher(opts, patterns) {
        Ok(m) => m,
        Err(e) => {
            let mut s = "grep: ".to_owned();
            s.append(e.as_str());
            env.error_line(s.as_str());
            return Ok(ExitCode::new(2));
        },
    };
    let print_filename = !opts.no_filename && (opts.with_filename || opts.recursive || files.len()
        > 1);
    if files.len() == 0 {
        let hit = grep_stdin(env, opts, &m, print_filename);
        return Ok(code_of(hit, false));
    }
    let mut any_match = false;
    let mut any_error = false;
    let mut i: usize = 0;
    let ghost fs_view = files.deep_view();
    while i < files.len()
        invariant
            i <= files@.len(),
            fs_view == files.deep_view(),
            print_filename == names_shown(*opts, files@.len()),
            files_searched(env@, fs_view, i as int, *opts, m@, any_match, any_error)
                == files_searched(old(env)@, fs_view, 0, *opts, m@, false, false),
            searched(old(env)@, *opts, patterns.deep_view(), fs_view) == files_searched(
                old(env)@,
                fs_view,
                0,
                *opts,
                m@,
                false,
                false,
            ),
        decreases files.len() - i,
    {
        let resolved = paths::resolve_path(env.cwd.as_str(), files[i].as_str());
        match grep_path(env, resolved.as_str(), files[i].as_str(), opts, &m, print_filename) {
            Ok(matched) => {
                any_match = any_match || matched;
            },
            Err(_) => {
                any_error = true;
            },
        }
        if opts.quiet && any_match {
            return Ok(code_of(any_match, any_error));
        }
        i += 1;
    }
    Ok(code_of(any_match, any_error))
}

fn search_patterns<FS: Filesystem>(
    env: &mut Environment<FS>,
    opts: &GrepOptions,
    patterns: &Vec<String>,
    free: &Vec<String>,
) -> (r: Result<ExitCode, Error>)
    ensures
        (final(env)@, env::outcome(r)) == patterns_searched(
            old(env)@,
            *opts,
            patterns.deep_view(),
            free.deep_view(),
        ),
{
    if patterns.len() > 0 {
        search(env, opts, patterns, free)
    } else if free.len() == 0 {
        env.error_line("grep: no pattern specified");
        Ok(ExitCode::new(2))
    } else {
        let mut first: Vec<String> = Vec::new();
        first.push(free[0].clone());
        assert(first.deep_view() =~= seq![free.deep_view()[0]]);
        let rest = options::copy_from(free, 1);
        search(env, opts, &first, &rest)
    }
}

fn add_nonempty(patterns: &mut Vec<String>, lines: &Vec<String>)
    ensures
        final(patterns).deep_view() == old(patterns).deep_view() + text::nonempty(lines.deep_view()),
{
    let ghost before = patterns.deep_view();
    let ghost all = lines.deep_view();
    let mut i: usize = 0;
    assert(before + text::nonempty(all.take(0)) =~= before);
    while i < lines.len()
        invariant
            i <= lines@.len(),
            all == lines.deep_view(),
            patterns.deep_view() == before + text::nonempty(all.take(i as int)),
        decreases lines.len() - i,
    {
        let ghost shown = patterns.deep_view();
        assert(all.take(i + 1).drop_last() =~= all.take(i as int));
        if !lines[i].as_str().is_empty() {
            patterns.push(lines[i].clone());
            assert(patterns.deep_view() =~= shown.push(all[i as int]));
            assert(patterns.deep_view() =~= before + text::nonempty(all.take(i + 1)));
        }
        i += 1;
    }
    assert(all.take(i as int) =~= all);
}

/// Searches with the options that a command line gave.
pub fn run<FS: Filesystem>(env: &mut Environment<FS>, p: &Parsed) -> (r: Result<ExitCode, Error>)
    requires
        old(env)@.args.len() > 0,
    ensures
        (final(env)@, env::outcome(r)) == ran(old(env)@, p@),
{
    let program = env.args[0].clone();
    let opts = match read_settings(p, program.as_str()) {
        Ok(o) => o,
        Err(e) => {
            env.error_line(e.as_str());
            return Ok(ExitCode::new(2));
        },
    };
    let mut patterns = p.values('e');
    if let Some(f) = p.value('f') {
        let path = paths::resolve_path(env.cwd.as_str(), f.as_str());
        match env.fs.read_to_string(path.as_str()) {
            Ok(contents) => {
                let lines = text::lines_of(contents.as_str());
                add_nonempty(&mut patterns, &lines);
            },
            Err(e) => {
                let mut m = "grep: ".to_owned();
                m.append(f.as_str());
                m.append(": ");
                let words = fs::fs_error_message(&e);
                m.append(words.as_str());
                env.error_line(m.as_str());
                return Ok(ExitCode::new(2));
            },
        }
    }
    search_patterns(env, &opts, &patterns, &p.free)
}

/// The grep builtin: search files for patterns.
pub fn bin<FS: Filesystem>(env: &mut Environment<FS>) -> (r: Result<ExitCode, Error>)
    requires
        old(env)@.args.len() > 0,
    ensures
        (final(env)@, env::outcome(r)) == spec_bin(old(env)@),
{
    let opts = build_options();
    match options::parse(&opts, &env.args) {
        Ok(p) => run(env, &p),
        Err(e) => {
            let mut m = "grep: ".to_owned();
            m.append(e.as_str());
            env.error_line(m.as_str());
            Ok(ExitCode::new(2))
        },
    }
}

// ---------------------------------------------------------------------------------------------
// Laws
// ---------------------------------------------------------------------------------------------

/// The number of lines that are selected.
pub open spec fn selected(ms: Seq<MarkView>) -> nat {
    ms.filter(|m: MarkView| m.hit).len()
}

proof fn lemma_scan_counts(
    st: Scan,
    o: GrepOptions,
    name: Option<Seq<char>>,
    lines: Seq<Seq<char>>,
    ms: Seq<MarkView>,
    i: int,
)
    requires
        0 <= i <= lines.len(),
        ms.len() == lines.len(),
        o.max_count is None,
        st.count == selected(ms.take(i)),
    ensures
        scanned(st, o, name, lines, ms, i).count == selected(ms),
    decreases lines.len() - i,
{
    if i < lines.len() {
        reveal(Seq::filter);
        assert(ms.take(i + 1).drop_last() =~= ms.take(i));
        let next = line_scanned(st, o, name, lines[i], ms[i], (i + 1) as nat);
        lemma_scan_counts(next, o, name, lines, ms, i + 1);
    } else {
        assert(ms.take(i) =~= ms);
    }
}

/// Where no maximum is set, every selected line is counted, whatever is printed of it.
pub proof fn lemma_count_is_selected(
    o: GrepOptions,
    name: Option<Seq<char>>,
    lines: Seq<Seq<char>>,
    ms: Seq<MarkView>,
)
    requires
        ms.len() == lines.len(),
        o.max_count is None,
    ensures
        reported(o, name, lines, ms).1 == selected(ms),
{
    reveal(Seq::filter);
    assert(ms.take(0) =~= Seq::<MarkView>::empty());
    lemma_scan_counts(fresh_scan(), o, name, lines, ms, 0);
}

proof fn lemma_scan_stops(
    st: Scan,
    o: GrepOptions,
    name: Option<Seq<char>>,
    lines: Seq<Seq<char>>,
    ms: Seq<MarkView>,
    i: int,
    max: usize,
)
    requires
        o.max_count == Some(max),
        st.count < max,
    ensures
        scanned(st, o, name, lines, ms, i).count <= max,
    decreases lines.len() - i,
{
    if 0 <= i < lines.len() {
        let next = line_scanned(st, o, name, lines[i], ms[i], (i + 1) as nat);
        if !(ms[i].hit && enough(next, o)) {
            lemma_scan_stops(next, o, name, lines, ms, i + 1, max);
        }
    }
}

/// With -m no more lines are selected than wanted.
pub proof fn lemma_max_count(
    o: GrepOptions,
    name: Option<Seq<char>>,
    lines: Seq<Seq<char>>,
    ms: Seq<MarkView>,
    max: usize,
)
    requires
        o.max_count == Some(max),
    ensures
        reported(o, name, lines, ms).1 <= max,
{
    if max > 0 {
        lemma_scan_stops(fresh_scan(), o, name, lines, ms, 0, max);
    }
}

/// With -v a line is selected exactly where it is not without.
pub proof fn lemma_invert_selects_the_rest(
    m: MatcherView,
    o: GrepOptions,
    inverted: GrepOptions,
    line: Seq<char>,
)
    requires
        inverted == (GrepOptions { invert_match: !o.invert_match, ..o }),
    ensures
        mark(m, inverted, line).hit != mark(m, o, line).hit,
{
}

proof fn lemma_scan_silent(
    st: Scan,
    o: GrepOptions,
    name: Option<Seq<char>>,
    lines: Seq<Seq<char>>,
    ms: Seq<MarkView>,
    i: int,
)
    requires
        !shows_lines(o),
    ensures
        scanned(st, o, name, lines, ms, i).out == st.out,
    decreases lines.len() - i,
{
    if 0 <= i < lines.len() {
        let next = line_scanned(st, o, name, lines[i], ms[i], (i + 1) as nat);
        lemma_scan_silent(next, o, name, lines, ms, i + 1);
    }
}

/// With -x a fixed string matches exactly the line that it is, where case does not make them differ.
pub proof fn lemma_whole_line(pattern: Seq<char>, ignore_case: bool, line: Seq<char>)
    ensures
        fixed_match(pattern, ignore_case, false, true, line) <==> folded(line, ignore_case)
            == folded(pattern, ignore_case),
{
    let s = folded(line, ignore_case);
    let p = folded(pattern, ignore_case);
    if s == p {
        assert(s.subrange(0, s.len() as int) =~= s);
        assert(stands_at(s, p, false, true, 0));
    }
    if fixed_match(pattern, ignore_case, false, true, line) {
        let k = choose|k: int| #[trigger] stands_at(s, p, false, true, k);
        assert(s.subrange(k, k + p.len()) =~= s);
    }
}

/// Of the matches of a line, none overlaps the one before it.
pub proof fn lemma_matches_apart(found: Seq<(usize, usize)>, i: int)
    requires
        0 < i < apart(found).len(),
    ensures
        !overlaps(apart(found)[i - 1], apart(found)[i]),
    decreases found.len(),
{
    if found.len() > 0 {
        let before = apart(found.drop_last());
        if i < before.len() {
            lemma_matches_apart(found.drop_last(), i);
        }
    }
}

/// With -q nothing is printed.
pub proof fn lemma_quiet_prints_nothing(
    o: GrepOptions,
    name: Option<Seq<char>>,
    lines: Seq<Seq<char>>,
    ms: Seq<MarkView>,
)
    requires
        o.quiet,
    ensures
        reported(o, name, lines, ms).0 == Seq::<char>::empty(),
{
    lemma_scan_silent(fresh_scan(), o, name, lines, ms, 0);
    assert(reported(o, name, lines, ms).0 =~= Seq::<char>::empty());
}

/// With -c what is printed is the number of selected lines, behind the name of the file where
/// names are shown.
pub proof fn lemma_count_prints_number(
    o: GrepOptions,
    name: Option<Seq<char>>,
    lines: Seq<Seq<char>>,
    ms: Seq<MarkView>,
)
    requires
        ms.len() == lines.len(),
        o.count_only,
        !o.quiet,
        o.max_count is None,
    ensures
        reported(o, name, lines, ms).0 == text::terminated(
            match name {
                Some(n) => n + ":"@ + text::decimal(selected(ms)),
                None => text::decimal(selected(ms)),
            },
        ),
{
    lemma_scan_silent(fresh_scan(), o, name, lines, ms, 0);
    lemma_count_is_selected(o, name, lines, ms);
    let e = ending(selected(ms), o, name);
    assert(Seq::<char>::empty() + e =~= e);
}

// What is printed, line by line.

/// Whether line `k` is selected, or is one of the wanted lines before or behind one of the first `n`
/// lines that is.
pub open spec fn is_near(o: GrepOptions, ms: Seq<MarkView>, n: int, k: int) -> bool {
    exists|j: int|
        0 <= j < n && (#[trigger] ms[j]).hit && j - o.before_context <= k <= j + o.after_context
}

/// Whether line `k` begins another group of lines: with context, it does not follow the line printed
/// before it.
pub open spec fn begins_group(o: GrepOptions, ms: Seq<MarkView>, n: int, k: int) -> bool {
    (o.before_context > 0 || o.after_context > 0) && k > 0 && !is_near(o, ms, n, k - 1) && exists|
        i: int,
    |
        0 <= i < k && #[trigger] is_near(o, ms, n, i)
}

/// What stands before line `k`: the name of its file and its number, as far as they are wanted, each
/// followed by a mark.
pub open spec fn label(o: GrepOptions, name: Option<Seq<char>>, k: int, mark: char) -> Seq<char> {
    (match name {
        Some(s) => s + seq![mark],
        None => Seq::empty(),
    }) + (if o.line_number {
        text::decimal((k + 1) as nat) + seq![mark]
    } else {
        Seq::empty()
    })
}

/// The lines that are printed of line `k`.
pub open spec fn lines_of(
    o: GrepOptions,
    name: Option<Seq<char>>,
    lines: Seq<Seq<char>>,
    ms: Seq<MarkView>,
    k: int,
) -> Seq<Seq<char>> {
    if !ms[k].hit {
        seq![label(o, name, k, '-') + lines[k]]
    } else if o.only_matching {
        Seq::new(ms[k].parts.len(), |i: int| label(o, name, k, ':') + ms[k].parts[i])
    } else {
        seq![label(o, name, k, ':') + lines[k]]
    }
}

/// What is printed of the first `k` lines, when the first `n` are known: of each line that is
/// selected or near one, behind a line of dashes where another group begins.
pub open spec fn groups(
    o: GrepOptions,
    name: Option<Seq<char>>,
    lines: Seq<Seq<char>>,
    ms: Seq<MarkView>,
    n: int,
    k: int,
) -> Seq<char>
    decreases k,
{
    if k <= 0 {
        Seq::empty()
    } else {
        groups(o, name, lines, ms, n, k - 1) + if is_near(o, ms, n, k - 1) {
            (if begins_group(o, ms, n, k - 1) {
                seq!['-', '-', '\n']
            } else {
                Seq::empty()
            }) + text::unlines(lines_of(o, name, lines, ms, k - 1))
        } else {
            Seq::empty()
        }
    }
}

proof fn lemma_groups_alike(
    o: GrepOptions,
    name: Option<Seq<char>>,
    lines: Seq<Seq<char>>,
    ms: Seq<MarkView>,
    a: int,
    b: int,
    k: int,
)
    requires
        forall|i: int| 0 <= i < k ==> #[trigger] is_near(o, ms, a, i) == is_near(o, ms, b, i),
    ensures
        groups(o, name, lines, ms, a, k) == groups(o, name, lines, ms, b, k),
    decreases k,
{
    if k > 0 {
        lemma_groups_alike(o, name, lines, ms, a, b, k - 1);
        assert(is_near(o, ms, a, k - 1) == is_near(o, ms, b, k - 1));
        assert(k > 1 ==> is_near(o, ms, a, k - 2) == is_near(o, ms, b, k - 2));
        assert(begins_group(o, ms, a, k - 1) == begins_group(o, ms, b, k - 1)) by {
            if begins_group(o, ms, a, k - 1) {
                let i = choose|i: int| 0 <= i < k - 1 && #[trigger] is_near(o, ms, a, i);
                assert(is_near(o, ms, b, i));
            }
            if begins_group(o, ms, b, k - 1) {
                let i = choose|i: int| 0 <= i < k - 1 && #[trigger] is_near(o, ms, b, i);
                assert(is_near(o, ms, a, i));
            }
        }
    }
}

proof fn lemma_groups_far(
    o: GrepOptions,
    name: Option<Seq<char>>,
    lines: Seq<Seq<char>>,
    ms: Seq<MarkView>,
    n: int,
    m: int,
    k: int,
)
    requires
        0 <= m <= k,
        forall|i: int| m <= i < k ==> !#[trigger] is_near(o, ms, n, i),
    ensures
        groups(o, name, lines, ms, n, k) == groups(o, name, lines, ms, n, m),
    decreases k - m,
{
    if m < k {
        lemma_groups_far(o, name, lines, ms, n, m, k - 1);
        assert(!is_near(o, ms, n, k - 1));
        let before = groups(o, name, lines, ms, n, k - 1);
        assert(before + Seq::<char>::empty() =~= before);
    }
}

proof fn lemma_tagged(o: GrepOptions, name: Option<Seq<char>>, k: int, line: Seq<char>, mark: char)
    requires
        k >= 0,
    ensures
        tagged(name, number_of(o, (k + 1) as nat), line, mark) == label(o, name, k, mark) + line,
{
    assert(tagged(name, number_of(o, (k + 1) as nat), line, mark) =~= label(o, name, k, mark)
        + line);
}

proof fn lemma_one_line(line: Seq<char>)
    ensures
        text::unlines(seq![line]) == line.push('\n'),
{
    let one = seq![line];
    assert(one.drop_last() =~= Seq::<Seq<char>>::empty());
    assert(text::unlines(one.drop_last()) == Seq::<char>::empty());
    assert(text::unlines(one) =~= line.push('\n'));
}

proof fn lemma_parts_printed(
    o: GrepOptions,
    name: Option<Seq<char>>,
    k: int,
    parts: Seq<Seq<char>>,
)
    requires
        k >= 0,
    ensures
        parts_text(name, number_of(o, (k + 1) as nat), parts) == text::unlines(
            Seq::new(parts.len(), |i: int| label(o, name, k, ':') + parts[i]),
        ),
    decreases parts.len(),
{
    let all = Seq::new(parts.len(), |i: int| label(o, name, k, ':') + parts[i]);
    if parts.len() > 0 {
        let front = parts.drop_last();
        lemma_parts_printed(o, name, k, front);
        assert(all.drop_last() =~= Seq::new(
            front.len(),
            |i: int| label(o, name, k, ':') + front[i],
        ));
        lemma_tagged(o, name, k, parts.last(), ':');
    }
}

/// The state of a search after `n` lines. `last` is the line printed last, or -1.
spec fn is_state(
    st: Scan,
    o: GrepOptions,
    name: Option<Seq<char>>,
    lines: Seq<Seq<char>>,
    ms: Seq<MarkView>,
    n: int,
    last: int,
    hit: int,
) -> bool {
    let from = queue_start(o, n, last);
    &&& st.out == groups(o, name, lines, ms, n, n)
    &&& -1 <= last < n
    &&& last >= 0 ==> is_near(o, ms, n, last)
    &&& forall|i: int| last < i < n ==> !#[trigger] is_near(o, ms, n, i)
    &&& last < 0 ==> hit < 0
    &&& -1 <= hit <= last
    &&& hit >= 0 ==> ms[hit].hit
    &&& last >= 0 ==> hit >= 0
    &&& forall|j: int| hit < j < n ==> !(#[trigger] ms[j]).hit
    &&& st.sep == (hit >= 0)
    &&& st.last == if last >= 0 {
        Some((last + 1) as nat)
    } else {
        None::<nat>
    }
    &&& st.after == if hit >= 0 && hit + o.after_context + 1 > n {
        (hit + o.after_context + 1 - n) as nat
    } else {
        0
    }
    &&& st.queue == Seq::new(
        (n - from) as nat,
        |t: int| ((from + t + 1) as nat, lines[from + t]),
    )
}

spec fn queue_start(o: GrepOptions, n: int, last: int) -> int {
    if n - o.before_context > last + 1 {
        n - o.before_context
    } else {
        last + 1
    }
}

proof fn lemma_queue_printed(
    o: GrepOptions,
    name: Option<Seq<char>>,
    lines: Seq<Seq<char>>,
    ms: Seq<MarkView>,
    known: int,
    n: int,
    from: int,
    t: int,
)
    requires
        0 <= from,
        0 < t,
        from + t <= n,
        (o.before_context > 0 || o.after_context > 0),
        forall|i: int| from <= i < n ==> #[trigger] is_near(o, ms, known, i) && !ms[i].hit,
    ensures
        groups(o, name, lines, ms, known, from + t) == groups(o, name, lines, ms, known, from) + (
        if begins_group(o, ms, known, from) {
            "--\n"@
        } else {
            Seq::empty()
        }) + queue_text(
            o,
            name,
            Seq::new(t as nat, |k: int| ((from + k + 1) as nat, lines[from + k])),
        ),
    decreases t,
{
    let queue = Seq::new(t as nat, |k: int| ((from + k + 1) as nat, lines[from + k]));
    let k = from + t - 1;
    assert(is_near(o, ms, known, k));
    lemma_tagged(o, name, k, lines[k], '-');
    lemma_one_line(label(o, name, k, '-') + lines[k]);
    reveal_strlit("--\n");
    assert("--\n"@ =~= seq!['-', '-', '\n']);
    let front = queue.drop_last();
    if t > 1 {
        lemma_queue_printed(o, name, lines, ms, known, n, from, t - 1);
        assert(front =~= Seq::new(
            (t - 1) as nat,
            |k: int| ((from + k + 1) as nat, lines[from + k]),
        ));
        assert(is_near(o, ms, known, k - 1));
        assert(!begins_group(o, ms, known, k));
    } else {
        assert(front =~= Seq::<(nat, Seq<char>)>::empty());
        assert(queue_text(o, name, front) == Seq::<char>::empty());
    }
    assert(groups(o, name, lines, ms, known, from + t) =~= groups(
        o,
        name,
        lines,
        ms,
        known,
        from,
    ) + (if begins_group(o, ms, known, from) {
        "--\n"@
    } else {
        Seq::empty()
    }) + queue_text(o, name, queue));
}

proof fn lemma_miss_searched(
    st: Scan,
    o: GrepOptions,
    name: Option<Seq<char>>,
    lines: Seq<Seq<char>>,
    ms: Seq<MarkView>,
    n: int,
    last: int,
    hit: int,
)
    requires
        shows_lines(o),
        ms.len() == lines.len(),
        0 <= n < lines.len(),
        is_state(st, o, name, lines, ms, n, last, hit),
        !ms[n].hit,
    ensures
        ({
            let next = line_scanned(st, o, name, lines[n], ms[n], (n + 1) as nat);
            is_state(
                next,
                o,
                name,
                lines,
                ms,
                n + 1,
                if st.after > 0 {
                    n
                } else {
                    last
                },
                hit,
            )
        }),
{
    let next = line_scanned(st, o, name, lines[n], ms[n], (n + 1) as nat);
    assert forall|k: int| #[trigger] is_near(o, ms, n + 1, k) == is_near(o, ms, n, k) by {
        if is_near(o, ms, n + 1, k) {
            let j = choose|j: int|
                0 <= j < n + 1 && (#[trigger] ms[j]).hit && j - o.before_context <= k <= j
                    + o.after_context;
            assert(j != n);
            assert(ms[j].hit);
        }
        if is_near(o, ms, n, k) {
            let j = choose|j: int|
                0 <= j < n && (#[trigger] ms[j]).hit && j - o.before_context <= k <= j
                    + o.after_context;
            assert(ms[j].hit);
        }
    }
    lemma_groups_alike(o, name, lines, ms, n, n + 1, n);
    lemma_tagged(o, name, n, lines[n], '-');
    lemma_one_line(label(o, name, n, '-') + lines[n]);
    let before = groups(o, name, lines, ms, n + 1, n);
    if st.after > 0 {
        assert(ms[hit].hit);
        assert(is_near(o, ms, n + 1, n));
        assert(is_near(o, ms, n + 1, n - 1)) by {
            assert(ms[hit].hit);
        }
        assert(!begins_group(o, ms, n + 1, n));
        assert(next.out =~= groups(o, name, lines, ms, n + 1, n + 1));
        assert(last == n - 1) by {
            if last < n - 1 {
                assert(!is_near(o, ms, n, n - 1));
            }
        }
        assert(next.queue =~= Seq::<(nat, Seq<char>)>::empty());
        let from = queue_start(o, n + 1, n);
        assert(next.queue =~= Seq::new(
            (n + 1 - from) as nat,
            |t: int| ((from + t + 1) as nat, lines[from + t]),
        ));
    } else {
        assert(!is_near(o, ms, n, n)) by {
            if is_near(o, ms, n, n) {
                let j = choose|j: int|
                    0 <= j < n && (#[trigger] ms[j]).hit && j - o.before_context <= n <= j
                        + o.after_context;
                assert(j <= hit);
            }
        }
        assert(!is_near(o, ms, n + 1, n));
        assert(before + Seq::<char>::empty() =~= before);
        assert forall|i: int| last < i < n + 1 implies !#[trigger] is_near(o, ms, n + 1, i) by {
            assert(is_near(o, ms, n + 1, i) == is_near(o, ms, n, i));
        }
        if last >= 0 {
            assert(is_near(o, ms, n + 1, last) == is_near(o, ms, n, last));
        }
        let from = queue_start(o, n + 1, last);
        assert(next.queue =~= Seq::new(
            (n + 1 - from) as nat,
            |t: int| ((from + t + 1) as nat, lines[from + t]),
        ));
    }
}

proof fn lemma_hit_searched(
    st: Scan,
    o: GrepOptions,
    name: Option<Seq<char>>,
    lines: Seq<Seq<char>>,
    ms: Seq<MarkView>,
    n: int,
    last: int,
    hit: int,
)
    requires
        shows_lines(o),
        ms.len() == lines.len(),
        0 <= n < lines.len(),
        is_state(st, o, name, lines, ms, n, last, hit),
        ms[n].hit,
    ensures
        ({
            let next = line_scanned(st, o, name, lines[n], ms[n], (n + 1) as nat);
            is_state(next, o, name, lines, ms, n + 1, n, n)
        }),
{
    let next = line_scanned(st, o, name, lines[n], ms[n], (n + 1) as nat);
    let from = queue_start(o, n, last);
    assert forall|k: int| 0 <= k <= last implies #[trigger] is_near(o, ms, n + 1, k) == is_near(
        o,
        ms,
        n,
        k,
    ) by {
        if is_near(o, ms, n + 1, k) {
            let j = choose|j: int|
                0 <= j < n + 1 && (#[trigger] ms[j]).hit && j - o.before_context <= k <= j
                    + o.after_context;
            if j == n {
                assert(is_near(o, ms, n, last));
                let i = choose|i: int|
                    0 <= i < n && (#[trigger] ms[i]).hit && i - o.before_context <= last <= i
                        + o.after_context;
                assert(ms[i].hit);
                assert(is_near(o, ms, n, k));
            } else {
                assert(ms[j].hit);
            }
        }
        if is_near(o, ms, n, k) {
            let j = choose|j: int|
                0 <= j < n && (#[trigger] ms[j]).hit && j - o.before_context <= k <= j
                    + o.after_context;
            assert(ms[j].hit);
        }
    }
    assert forall|k: int| last < k < from implies !#[trigger] is_near(o, ms, n + 1, k) by {
        if is_near(o, ms, n + 1, k) {
            let j = choose|j: int|
                0 <= j < n + 1 && (#[trigger] ms[j]).hit && j - o.before_context <= k <= j
                    + o.after_context;
            if j != n {
                assert(ms[j].hit);
                assert(is_near(o, ms, n, k));
            }
        }
    }
    assert forall|k: int| from <= k <= n implies #[trigger] is_near(o, ms, n + 1, k) by {
        assert(ms[n].hit);
    }
    lemma_groups_alike(o, name, lines, ms, n, n + 1, last + 1);
    lemma_groups_far(o, name, lines, ms, n, last + 1, n);
    lemma_groups_far(o, name, lines, ms, n + 1, last + 1, from);
    let base = groups(o, name, lines, ms, n + 1, from);
    assert(base == st.out);
    let counted = Scan { count: st.count + 1, ..st };
    let a = context_printed(counted, o, name);
    let parts = ms[n].parts;
    lemma_parts_printed(o, name, n, parts);
    lemma_tagged(o, name, n, lines[n], ':');
    lemma_one_line(label(o, name, n, ':') + lines[n]);
    reveal_strlit("--\n");
    assert("--\n"@ =~= seq!['-', '-', '\n']);
    let begins = (o.before_context > 0 || o.after_context > 0) && last >= 0 && from > last + 1;
    assert(begins_group(o, ms, n + 1, from) == begins) by {
        if last >= 0 {
            assert(is_near(o, ms, n + 1, last) == is_near(o, ms, n, last));
        }
        if from > last + 1 {
            assert(!is_near(o, ms, n + 1, from - 1));
        }
        if begins_group(o, ms, n + 1, from) {
            let i = choose|i: int| 0 <= i < from && #[trigger] is_near(o, ms, n + 1, i);
            assert(i <= last);
        }
    }
    if from < n {
        lemma_queue_printed(o, name, lines, ms, n + 1, n, from, n - from);
        assert(st.queue[0].0 == from + 1);
        assert(st.queue.last().0 == n);
        assert(st.queue.len() > 0);
        assert(a.out == groups(o, name, lines, ms, n + 1, n)) by {
            assert(a.out =~= base + (if begins {
                "--\n"@
            } else {
                Seq::empty()
            }) + queue_text(o, name, st.queue));
        }
        assert(is_near(o, ms, n + 1, n - 1));
        assert(!begins_group(o, ms, n + 1, n));
    } else {
        assert(st.queue.len() == 0);
        assert(a == counted);
    }
    assert(next.out =~= groups(o, name, lines, ms, n + 1, n + 1));
    assert(is_near(o, ms, n + 1, n));
    let start = queue_start(o, n + 1, n);
    assert(next.queue =~= Seq::<(nat, Seq<char>)>::empty());
    assert(next.queue =~= Seq::new(
        (n + 1 - start) as nat,
        |t: int| ((start + t + 1) as nat, lines[start + t]),
    ));
}

proof fn lemma_all_searched(
    st: Scan,
    o: GrepOptions,
    name: Option<Seq<char>>,
    lines: Seq<Seq<char>>,
    ms: Seq<MarkView>,
    n: int,
    last: int,
    hit: int,
)
    requires
        shows_lines(o),
        o.max_count is None,
        ms.len() == lines.len(),
        0 <= n <= lines.len(),
        is_state(st, o, name, lines, ms, n, last, hit),
    ensures
        scanned(st, o, name, lines, ms, n).out == groups(
            o,
            name,
            lines,
            ms,
            lines.len() as int,
            lines.len() as int,
        ),
    decreases lines.len() - n,
{
    if n < lines.len() {
        let next = line_scanned(st, o, name, lines[n], ms[n], (n + 1) as nat);
        if ms[n].hit {
            lemma_hit_searched(st, o, name, lines, ms, n, last, hit);
            lemma_all_searched(next, o, name, lines, ms, n + 1, n, n);
        } else {
            lemma_miss_searched(st, o, name, lines, ms, n, last, hit);
            lemma_all_searched(
                next,
                o,
                name,
                lines,
                ms,
                n + 1,
                if st.after > 0 {
                    n
                } else {
                    last
                },
                hit,
            );
        }
    }
}

/// What is printed of lines. A line is printed if and only if it is selected, or a selected line
/// stands at most so many lines behind it as are wanted before one, or at most so many before it as
/// are wanted behind one. It is printed behind the name of its file and its number, where they are
/// wanted, which a colon follows on selected lines and a dash on others; of a selected line only the
/// matching parts where only they are wanted. With context, dashes stand between lines that do not
/// follow each other.
pub proof fn lemma_printed_lines(
    o: GrepOptions,
    name: Option<Seq<char>>,
    lines: Seq<Seq<char>>,
    ms: Seq<MarkView>,
)
    requires
        ms.len() == lines.len(),
        !o.quiet,
        !o.count_only,
        !o.files_with_matches,
        !o.files_without_match,
        o.max_count is None,
    ensures
        reported(o, name, lines, ms).0 == groups(
            o,
            name,
            lines,
            ms,
            lines.len() as int,
            lines.len() as int,
        ),
{
    let st = fresh_scan();
    assert(groups(o, name, lines, ms, 0, 0) == Seq::<char>::empty());
    let from = queue_start(o, 0, -1);
    assert(st.queue =~= Seq::new(
        (0 - from) as nat,
        |t: int| ((from + t + 1) as nat, lines[from + t]),
    ));
    lemma_all_searched(st, o, name, lines, ms, 0, -1, -1);
    let out = all_scanned(o, name, lines, ms).out;
    assert(out + Seq::<char>::empty() =~= out);
}

/// Without context before selected lines, a line is printed if and only if one of the lines from
/// `after_context` lines before it up to itself is selected.
pub proof fn lemma_trailing_context(o: GrepOptions, ms: Seq<MarkView>, k: int)
    requires
        o.before_context == 0,
        0 <= k < ms.len(),
    ensures
        is_near(o, ms, ms.len() as int, k) <==> exists|j: int|
            0 <= j <= k && k - o.after_context <= j && (#[trigger] ms[j]).hit,
{
    if is_near(o, ms, ms.len() as int, k) {
        let j = choose|j: int|
            0 <= j < ms.len() && (#[trigger] ms[j]).hit && j - o.before_context <= k <= j
                + o.after_context;
        assert(ms[j].hit);
    }
    if exists|j: int| 0 <= j <= k && k - o.after_context <= j && (#[trigger] ms[j]).hit {
        let j = choose|j: int|
            0 <= j <= k && k - o.after_context <= j && (#[trigger] ms[j]).hit;
        assert(ms[j].hit);
    }
}

/// How many of the first `k` lines are selected.
pub open spec fn hits_before(ms: Seq<MarkView>, k: int) -> nat
    decreases k,
{
    if k <= 0 {
        0
    } else {
        hits_before(ms, k - 1) + if ms[k - 1].hit {
            1nat
        } else {
            0nat
        }
    }
}

proof fn lemma_hits_grow(ms: Seq<MarkView>, i: int, k: int)
    requires
        i <= k,
    ensures
        hits_before(ms, i) <= hits_before(ms, k),
    decreases k - i,
{
    if i < k {
        lemma_hits_grow(ms, i, k - 1);
    }
}

proof fn lemma_queue_unlimited(
    o: GrepOptions,
    p: GrepOptions,
    name: Option<Seq<char>>,
    queue: Seq<(nat, Seq<char>)>,
)
    requires
        p == (GrepOptions { max_count: None, ..o }),
    ensures
        queue_text(o, name, queue) == queue_text(p, name, queue),
    decreases queue.len(),
{
    if queue.len() > 0 {
        lemma_queue_unlimited(o, p, name, queue.drop_last());
    }
}

proof fn lemma_line_unlimited(
    st: Scan,
    o: GrepOptions,
    p: GrepOptions,
    name: Option<Seq<char>>,
    line: Seq<char>,
    m: MarkView,
    n: nat,
)
    requires
        p == (GrepOptions { max_count: None, ..o }),
    ensures
        line_scanned(st, o, name, line, m, n) == line_scanned(st, p, name, line, m, n),
        line_scanned(st, o, name, line, m, n).count == st.count + if m.hit {
            1nat
        } else {
            0nat
        },
{
    lemma_queue_unlimited(o, p, name, st.queue);
}

/// The state after the first `k` lines, where no maximum is set.
spec fn state_at(
    o: GrepOptions,
    name: Option<Seq<char>>,
    lines: Seq<Seq<char>>,
    ms: Seq<MarkView>,
    k: int,
) -> Scan
    decreases k,
{
    if k <= 0 {
        fresh_scan()
    } else {
        line_scanned(
            state_at(o, name, lines, ms, k - 1),
            o,
            name,
            lines[k - 1],
            ms[k - 1],
            k as nat,
        )
    }
}

proof fn lemma_state_counts(
    o: GrepOptions,
    name: Option<Seq<char>>,
    lines: Seq<Seq<char>>,
    ms: Seq<MarkView>,
    k: int,
)
    ensures
        state_at(o, name, lines, ms, k).count == hits_before(ms, k),
    decreases k,
{
    if k > 0 {
        lemma_state_counts(o, name, lines, ms, k - 1);
    }
}

proof fn lemma_unlimited_state(
    p: GrepOptions,
    name: Option<Seq<char>>,
    lines: Seq<Seq<char>>,
    ms: Seq<MarkView>,
    end: int,
    i: int,
)
    requires
        ms.len() == lines.len(),
        p.max_count is None,
        0 <= i <= end <= lines.len(),
    ensures
        scanned(state_at(p, name, lines, ms, i), p, name, lines.take(end), ms.take(end), i)
            == state_at(p, name, lines, ms, end),
    decreases end - i,
{
    if i < end {
        lemma_unlimited_state(p, name, lines, ms, end, i + 1);
        assert(lines.take(end)[i] == lines[i]);
        assert(ms.take(end)[i] == ms[i]);
    }
}

proof fn lemma_limited_state(
    o: GrepOptions,
    p: GrepOptions,
    name: Option<Seq<char>>,
    lines: Seq<Seq<char>>,
    ms: Seq<MarkView>,
    max: usize,
    end: int,
    i: int,
)
    requires
        ms.len() == lines.len(),
        o.max_count == Some(max),
        p == (GrepOptions { max_count: None, ..o }),
        0 <= i <= end <= lines.len(),
        (end > 0 && ms[end - 1].hit && hits_before(ms, end) == max) || (end == lines.len()
            && hits_before(ms, end) < max),
        i == end ==> end == lines.len(),
    ensures
        scanned(state_at(p, name, lines, ms, i), o, name, lines, ms, i) == state_at(
            p,
            name,
            lines,
            ms,
            end,
        ),
    decreases end - i,
{
    if i < end {
        lemma_limited_step(o, p, name, lines, ms, max, i);
        lemma_hits_grow(ms, i + 1, end);
        if i + 1 < end {
            lemma_hits_grow(ms, i + 1, end - 1);
        }
        if !(ms[i].hit && hits_before(ms, i + 1) >= max) {
            lemma_limited_state(o, p, name, lines, ms, max, end, i + 1);
        }
    } else {
        lemma_scan_over(state_at(p, name, lines, ms, i), o, name, lines, ms);
    }
}

proof fn lemma_scan_over(
    st: Scan,
    o: GrepOptions,
    name: Option<Seq<char>>,
    lines: Seq<Seq<char>>,
    ms: Seq<MarkView>,
)
    ensures
        scanned(st, o, name, lines, ms, lines.len() as int) == st,
{
}

proof fn lemma_limited_step(
    o: GrepOptions,
    p: GrepOptions,
    name: Option<Seq<char>>,
    lines: Seq<Seq<char>>,
    ms: Seq<MarkView>,
    max: usize,
    i: int,
)
    requires
        o.max_count == Some(max),
        p == (GrepOptions { max_count: None, ..o }),
        0 <= i < lines.len(),
    ensures
        scanned(state_at(p, name, lines, ms, i), o, name, lines, ms, i) == if ms[i].hit
            && hits_before(ms, i + 1) >= max {
            state_at(p, name, lines, ms, i + 1)
        } else {
            scanned(state_at(p, name, lines, ms, i + 1), o, name, lines, ms, i + 1)
        },
{
    let st = state_at(p, name, lines, ms, i);
    lemma_line_unlimited(st, o, p, name, lines[i], ms[i], (i + 1) as nat);
    lemma_state_counts(p, name, lines, ms, i + 1);
    assert(state_at(p, name, lines, ms, i + 1) == line_scanned(
        st,
        p,
        name,
        lines[i],
        ms[i],
        (i + 1) as nat,
    ));
}

proof fn lemma_limited(
    o: GrepOptions,
    p: GrepOptions,
    name: Option<Seq<char>>,
    lines: Seq<Seq<char>>,
    ms: Seq<MarkView>,
    max: usize,
    end: int,
)
    requires
        ms.len() == lines.len(),
        o.max_count == Some(max),
        p == (GrepOptions { max_count: None, ..o }),
        0 <= end <= lines.len(),
        (end > 0 && ms[end - 1].hit && hits_before(ms, end) == max) || (end == lines.len()
            && hits_before(ms, end) < max),
    ensures
        all_scanned(o, name, lines, ms) == all_scanned(p, name, lines.take(end), ms.take(end)),
{
    lemma_limited_whole(o, p, name, lines, ms, max, end);
    lemma_unlimited_whole(p, name, lines, ms, end);
}

proof fn lemma_unlimited_whole(
    p: GrepOptions,
    name: Option<Seq<char>>,
    lines: Seq<Seq<char>>,
    ms: Seq<MarkView>,
    end: int,
)
    requires
        ms.len() == lines.len(),
        p.max_count is None,
        0 <= end <= lines.len(),
    ensures
        all_scanned(p, name, lines.take(end), ms.take(end)) == state_at(p, name, lines, ms, end),
{
    lemma_unlimited_state(p, name, lines, ms, end, 0);
    assert(state_at(p, name, lines, ms, 0) == fresh_scan());
}

#[verifier::rlimit(100)]
#[verifier::spinoff_prover]
proof fn lemma_limited_whole(
    o: GrepOptions,
    p: GrepOptions,
    name: Option<Seq<char>>,
    lines: Seq<Seq<char>>,
    ms: Seq<MarkView>,
    max: usize,
    end: int,
)
    requires
        ms.len() == lines.len(),
        o.max_count == Some(max),
        p == (GrepOptions { max_count: None, ..o }),
        0 <= end <= lines.len(),
        (end > 0 && ms[end - 1].hit && hits_before(ms, end) == max) || (end == lines.len()
            && hits_before(ms, end) < max),
    ensures
        all_scanned(o, name, lines, ms) == state_at(p, name, lines, ms, end),
{
    lemma_limited_state(o, p, name, lines, ms, max, end, 0);
    lemma_some_wanted(o, p, name, lines, ms, max, end);
}

proof fn lemma_some_wanted(
    o: GrepOptions,
    p: GrepOptions,
    name: Option<Seq<char>>,
    lines: Seq<Seq<char>>,
    ms: Seq<MarkView>,
    max: usize,
    end: int,
)
    requires
        o.max_count == Some(max),
        (end > 0 && ms[end - 1].hit && hits_before(ms, end) == max) || hits_before(ms, end) < max,
    ensures
        all_scanned(o, name, lines, ms) == scanned(
            state_at(p, name, lines, ms, 0),
            o,
            name,
            lines,
            ms,
            0,
        ),
{
}

/// With -m, what is printed and counted is what is printed and counted without it of the lines up to
/// the last that is wanted.
#[verifier::rlimit(50)]
#[verifier::spinoff_prover]
pub proof fn lemma_max_count_ends(
    o: GrepOptions,
    name: Option<Seq<char>>,
    lines: Seq<Seq<char>>,
    ms: Seq<MarkView>,
    max: usize,
    end: int,
)
    requires
        ms.len() == lines.len(),
        o.max_count == Some(max),
        0 < end <= lines.len(),
        ms[end - 1].hit,
        hits_before(ms, end) == max,
    ensures
        reported(o, name, lines, ms) == reported(
            GrepOptions { max_count: None, ..o },
            name,
            lines.take(end),
            ms.take(end),
        ),
{
    let p = GrepOptions { max_count: None, ..o };
    lemma_limited(o, p, name, lines, ms, max, end);
}

/// With -m, where there are fewer selected lines than wanted, it makes no difference.
#[verifier::rlimit(50)]
#[verifier::spinoff_prover]
pub proof fn lemma_max_count_not_reached(
    o: GrepOptions,
    name: Option<Seq<char>>,
    lines: Seq<Seq<char>>,
    ms: Seq<MarkView>,
    max: usize,
)
    requires
        ms.len() == lines.len(),
        o.max_count == Some(max),
        hits_before(ms, ms.len() as int) < max,
    ensures
        reported(o, name, lines, ms) == reported(
            GrepOptions { max_count: None, ..o },
            name,
            lines,
            ms,
        ),
{
    let p = GrepOptions { max_count: None, ..o };
    let n = lines.len() as int;
    lemma_limited(o, p, name, lines, ms, max, n);
    assert(lines.take(n) =~= lines);
    assert(ms.take(n) =~= ms);
    assert(all_scanned(o, name, lines, ms) == all_scanned(p, name, lines, ms));
}

/// Whether files are searched under their names: -h hides them, -H and -r show them, and so does
/// searching more than one file.
pub open spec fn under_names(o: GrepOptions, files: nat) -> bool {
    if o.no_filename {
        false
    } else {
        o.with_filename || o.recursive || files >= 2
    }
}

/// What the first `n` files leave behind when they are searched one after another.
pub open spec fn after_searches<FS: Filesystem>(
    v: env::EnvView<FS>,
    files: Seq<Seq<char>>,
    o: GrepOptions,
    m: MatcherView,
    n: int,
) -> env::EnvView<FS>
    decreases n,
{
    if n <= 0 {
        v
    } else {
        let w = after_searches(v, files, o, m, n - 1);
        path_searched(
            w,
            paths::resolved(w.cwd, files[n - 1]),
            files[n - 1],
            o,
            m,
            under_names(o, files.len()),
        ).0
    }
}

/// What searching file `i` finds, when those before it were searched.
pub open spec fn answer_at<FS: Filesystem>(
    v: env::EnvView<FS>,
    files: Seq<Seq<char>>,
    o: GrepOptions,
    m: MatcherView,
    i: int,
) -> Result<bool, env::ErrorView> {
    let w = after_searches(v, files, o, m, i);
    path_searched(
        w,
        paths::resolved(w.cwd, files[i]),
        files[i],
        o,
        m,
        under_names(o, files.len()),
    ).1
}

/// Whether searching one of the first `n` files goes wrong.
pub open spec fn any_failed<FS: Filesystem>(
    v: env::EnvView<FS>,
    files: Seq<Seq<char>>,
    o: GrepOptions,
    m: MatcherView,
    n: int,
) -> bool {
    exists|j: int| 0 <= j < n && #[trigger] answer_at(v, files, o, m, j) is Err
}

/// Whether a line of one of the first `n` files is selected.
pub open spec fn any_found<FS: Filesystem>(
    v: env::EnvView<FS>,
    files: Seq<Seq<char>>,
    o: GrepOptions,
    m: MatcherView,
    n: int,
) -> bool {
    exists|j: int|
        0 <= j < n && #[trigger] answer_at(v, files, o, m, j) == Ok::<bool, env::ErrorView>(true)
}

proof fn lemma_one_more_file<FS: Filesystem>(
    v: env::EnvView<FS>,
    files: Seq<Seq<char>>,
    o: GrepOptions,
    m: MatcherView,
    i: int,
)
    requires
        0 <= i,
    ensures
        any_failed(v, files, o, m, i + 1) == (any_failed(v, files, o, m, i) || answer_at(
            v,
            files,
            o,
            m,
            i,
        ) is Err),
        any_found(v, files, o, m, i + 1) == (any_found(v, files, o, m, i) || answer_at(
            v,
            files,
            o,
            m,
            i,
        ) == Ok::<bool, env::ErrorView>(true)),
{
    let yes = Ok::<bool, env::ErrorView>(true);
    if any_failed(v, files, o, m, i + 1) && !(answer_at(v, files, o, m, i) is Err) {
        let j = choose|j: int| 0 <= j < i + 1 && #[trigger] answer_at(v, files, o, m, j) is Err;
        assert(j < i);
    }
    if any_failed(v, files, o, m, i) {
        let j = choose|j: int| 0 <= j < i && #[trigger] answer_at(v, files, o, m, j) is Err;
        assert(0 <= j < i + 1);
    }
    if any_found(v, files, o, m, i + 1) && answer_at(v, files, o, m, i) != yes {
        let j = choose|j: int| 0 <= j < i + 1 && #[trigger] answer_at(v, files, o, m, j) == yes;
        assert(j < i);
    }
    if any_found(v, files, o, m, i) {
        let j = choose|j: int| 0 <= j < i && #[trigger] answer_at(v, files, o, m, j) == yes;
        assert(0 <= j < i + 1);
    }
}

#[verifier::spinoff_prover]
proof fn lemma_search_goes_on<FS: Filesystem>(
    v: env::EnvView<FS>,
    files: Seq<Seq<char>>,
    o: GrepOptions,
    m: MatcherView,
    i: int,
    any_match: bool,
    any_error: bool,
)
    requires
        0 <= i < files.len(),
    ensures
        ({
            let r = answer_at(v, files, o, m, i);
            let matched = any_match || r == Ok::<bool, env::ErrorView>(true);
            let failed = any_error || r is Err;
            let next = after_searches(v, files, o, m, i + 1);
            files_searched(after_searches(v, files, o, m, i), files, i, o, m, any_match, any_error)
                == if o.quiet && matched {
                (next, Ok::<int, env::ErrorView>(exit_code(matched, failed)))
            } else {
                files_searched(next, files, i + 1, o, m, matched, failed)
            }
        }),
{
    let w = after_searches(v, files, o, m, i);
    let step = path_searched(
        w,
        paths::resolved(w.cwd, files[i]),
        files[i],
        o,
        m,
        under_names(o, files.len()),
    );
    assert(after_searches(v, files, o, m, i + 1) == step.0);
    assert(answer_at(v, files, o, m, i) == step.1);
    assert(names_shown(o, files.len()) == under_names(o, files.len()));
}

proof fn lemma_files_searched_from<FS: Filesystem>(
    v: env::EnvView<FS>,
    files: Seq<Seq<char>>,
    o: GrepOptions,
    m: MatcherView,
    i: int,
)
    requires
        !o.quiet,
        0 <= i <= files.len(),
    ensures
        files_searched(
            after_searches(v, files, o, m, i),
            files,
            i,
            o,
            m,
            any_found(v, files, o, m, i),
            any_failed(v, files, o, m, i),
        ) == (
            after_searches(v, files, o, m, files.len() as int),
            Ok::<int, env::ErrorView>(
                if any_failed(v, files, o, m, files.len() as int) {
                    2
                } else if any_found(v, files, o, m, files.len() as int) {
                    0
                } else {
                    1
                },
            ),
        ),
    decreases files.len() - i,
{
    if i < files.len() {
        lemma_search_goes_on(
            v,
            files,
            o,
            m,
            i,
            any_found(v, files, o, m, i),
            any_failed(v, files, o, m, i),
        );
        lemma_one_more_file(v, files, o, m, i);
        lemma_files_searched_from(v, files, o, m, i + 1);
    }
}

/// All files are searched, one after another, whatever one of them brings. The exit code is 2 where
/// something went wrong, otherwise 0 where a line was selected and 1 where none was.
pub proof fn lemma_files_in_turn<FS: Filesystem>(
    v: env::EnvView<FS>,
    files: Seq<Seq<char>>,
    o: GrepOptions,
    m: MatcherView,
)
    requires
        !o.quiet,
    ensures
        files_searched(v, files, 0, o, m, false, false) == (
            after_searches(v, files, o, m, files.len() as int),
            Ok::<int, env::ErrorView>(
                if any_failed(v, files, o, m, files.len() as int) {
                    2
                } else if any_found(v, files, o, m, files.len() as int) {
                    0
                } else {
                    1
                },
            ),
        ),
{
    assert(!any_failed(v, files, o, m, 0) && !any_found(v, files, o, m, 0));
    lemma_files_searched_from(v, files, o, m, 0);
}

proof fn lemma_quiet_from<FS: Filesystem>(
    v: env::EnvView<FS>,
    files: Seq<Seq<char>>,
    o: GrepOptions,
    m: MatcherView,
    i: int,
    k: int,
)
    requires
        o.quiet,
        0 <= i <= k < files.len(),
        forall|j: int|
            i <= j < k ==> #[trigger] answer_at(v, files, o, m, j) == Ok::<bool, env::ErrorView>(
                false,
            ),
        answer_at(v, files, o, m, k) == Ok::<bool, env::ErrorView>(true),
    ensures
        files_searched(after_searches(v, files, o, m, i), files, i, o, m, false, false) == (
            after_searches(v, files, o, m, k + 1),
            Ok::<int, env::ErrorView>(0),
        ),
    decreases k - i,
{
    lemma_search_goes_on(v, files, o, m, i, false, false);
    if i < k {
        assert(answer_at(v, files, o, m, i) == Ok::<bool, env::ErrorView>(false));
        lemma_quiet_from(v, files, o, m, i + 1, k);
    }
}

/// With -q the first file with a selected line ends the search, with success.
pub proof fn lemma_quiet_ends_at_match<FS: Filesystem>(
    v: env::EnvView<FS>,
    files: Seq<Seq<char>>,
    o: GrepOptions,
    m: MatcherView,
    k: int,
)
    requires
        o.quiet,
        0 <= k < files.len(),
        forall|j: int|
            0 <= j < k ==> #[trigger] answer_at(v, files, o, m, j) == Ok::<bool, env::ErrorView>(
                false,
            ),
        answer_at(v, files, o, m, k) == Ok::<bool, env::ErrorView>(true),
    ensures
        files_searched(v, files, 0, o, m, false, false) == (
            after_searches(v, files, o, m, k + 1),
            Ok::<int, env::ErrorView>(0),
        ),
{
    lemma_quiet_from(v, files, o, m, 0, k);
}

/// With -l only the name is printed, and only where a line is selected; with -L only where none is.
pub proof fn lemma_names_only(
    o: GrepOptions,
    name: Seq<char>,
    lines: Seq<Seq<char>>,
    ms: Seq<MarkView>,
)
    requires
        ms.len() == lines.len(),
        o.max_count is None,
        !o.quiet,
        !o.count_only,
        o.files_with_matches != o.files_without_match,
    ensures
        reported(o, Some(name), lines, ms).0 == if o.files_with_matches == (exists|i: int|
            0 <= i < ms.len() && (#[trigger] ms[i]).hit) {
            name + seq!['\n']
        } else {
            Seq::empty()
        },
{
    lemma_count_is_selected(o, Some(name), lines, ms);
    lemma_scan_silent(fresh_scan(), o, Some(name), lines, ms, 0);
    let hits = ms.filter(|k: MarkView| k.hit);
    lemma_some_selected(ms);
    let count = reported(o, Some(name), lines, ms).1;
    assert(all_scanned(o, Some(name), lines, ms).out =~= Seq::<char>::empty());
    assert(Seq::<char>::empty() + ending(count, o, Some(name)) =~= ending(count, o, Some(name)));
    assert(text::terminated(name) =~= name + seq!['\n']);
}

proof fn lemma_some_selected(ms: Seq<MarkView>)
    ensures
        selected(ms) > 0 <==> exists|i: int| 0 <= i < ms.len() && (#[trigger] ms[i]).hit,
    decreases ms.len(),
{
    reveal(Seq::filter);
    if ms.len() > 0 {
        let init = ms.drop_last();
        lemma_some_selected(init);
        if selected(init) > 0 {
            let i = choose|i: int| 0 <= i < init.len() && (#[trigger] init[i]).hit;
            assert(ms[i].hit);
        }
        if exists|i: int| 0 <= i < ms.len() && (#[trigger] ms[i]).hit {
            let i = choose|i: int| 0 <= i < ms.len() && (#[trigger] ms[i]).hit;
            if i < init.len() {
                assert(init[i].hit);
            } else {
                assert(ms.last().hit);
            }
        }
        if ms.last().hit {
            assert(ms[ms.len() - 1].hit);
        }
    }
}

/// A place is listed where the fixed string is found at it, and only there.
pub proof fn lemma_place_listed(
    s: Seq<char>,
    part: Seq<char>,
    words: bool,
    lines: bool,
    from: int,
    k: int,
)
    requires
        0 <= from,
    ensures
        places(s, part, words, lines, from).contains(k) <==> from <= k && stands_at(
            s,
            part,
            words,
            lines,
            k,
        ),
    decreases s.len() + 1 - from,
{
    let all = places(s, part, words, lines, from);
    if from + part.len() <= s.len() {
        lemma_place_listed(s, part, words, lines, from + 1, k);
        if stands_at(s, part, words, lines, from) {
            let rest = places(s, part, words, lines, from + 1);
            assert(all =~= seq![from] + rest);
            assert(all[0] == from);
            if rest.contains(k) {
                let i = choose|i: int| 0 <= i < rest.len() && rest[i] == k;
                assert(all[i + 1] == k);
            }
            if all.contains(k) && k != from {
                let i = choose|i: int| 0 <= i < all.len() && all[i] == k;
                assert(all[i] == rest[i - 1]);
            }
        }
    }
}

/// The places at which a fixed string is found are listed in ascending order.
pub proof fn lemma_places_ascend(
    s: Seq<char>,
    part: Seq<char>,
    words: bool,
    lines: bool,
    from: int,
    i: int,
    j: int,
)
    requires
        0 <= from,
        0 <= i < j < places(s, part, words, lines, from).len(),
    ensures
        from <= places(s, part, words, lines, from)[i] < places(s, part, words, lines, from)[j],
    decreases s.len() + 1 - from,
{
    let all = places(s, part, words, lines, from);
    assert(from + part.len() <= s.len());
    let rest = places(s, part, words, lines, from + 1);
    if stands_at(s, part, words, lines, from) {
        assert(all =~= seq![from] + rest);
        assert(all[j] == rest[j - 1]);
        if i > 0 {
            assert(all[i] == rest[i - 1]);
            lemma_places_ascend(s, part, words, lines, from + 1, i - 1, j - 1);
        } else {
            assert(rest.contains(rest[j - 1]));
            lemma_place_listed(s, part, words, lines, from + 1, rest[j - 1]);
        }
    } else {
        lemma_places_ascend(s, part, words, lines, from + 1, i, j);
    }
}

/// With -w a string of word characters is found only where no other word character stands next to
/// it, and everywhere that it is found without -w and that holds.
pub proof fn lemma_words_stand_alone(s: Seq<char>, part: Seq<char>, k: int)
    requires
        part.len() > 0,
        is_word(part[0]),
        is_word(part.last()),
    ensures
        stands_at(s, part, true, false, k) <==> stands_at(s, part, false, false, k) && (k > 0
            ==> !is_word(s[k - 1])) && (k + part.len() < s.len() ==> !is_word(s[k + part.len()])),
{
    if 0 <= k && k + part.len() <= s.len() && s.subrange(k, k + part.len()) == part {
        assert(s.subrange(k, k + part.len())[0] == s[k]);
        assert(s.subrange(k, k + part.len()).last() == s[k + part.len() - 1]);
    }
}

/// Of the ranges found in a line, in the order of their beginnings, each one is taken, or begins
/// before the end of one that is taken and begins no later; and no other is taken.
pub proof fn lemma_first_matches_taken(found: Seq<(usize, usize)>, i: int)
    requires
        0 <= i < found.len(),
        forall|a: int, b: int| 0 <= a < b < found.len() ==> found[a].0 <= found[b].0,
    ensures
        apart(found).len() > 0,
        apart(found)[0] == found[0],
        forall|j: int| 0 <= j < apart(found).len() ==> found.contains(#[trigger] apart(found)[j]),
        exists|j: int|
            0 <= j < apart(found).len() && (#[trigger] apart(found)[j] == found[i] || (apart(
                found,
            )[j].0 <= found[i].0 && found[i].0 < apart(found)[j].1)),
    decreases found.len(),
{
    let init = found.drop_last();
    let before = apart(init);
    let all = apart(found);
    if found.len() == 1 {
        assert(before.len() == 0);
        assert(all =~= seq![found[0]]);
        assert(found.contains(found[0]));
        assert(all[0] == found[i]);
    } else {
        let k = if i < init.len() {
            i
        } else {
            0
        };
        lemma_first_matches_taken(init, k);
        assert forall|j: int| 0 <= j < all.len() implies found.contains(#[trigger] all[j]) by {
            if j < before.len() {
                assert(init.contains(before[j]));
                let a = choose|a: int| 0 <= a < init.len() && init[a] == before[j];
                assert(found[a] == all[j]);
            } else {
                assert(found[found.len() - 1] == all[j]);
            }
        }
        if i < init.len() {
            let j = choose|j: int|
                0 <= j < before.len() && (#[trigger] before[j] == init[i] || (before[j].0
                    <= init[i].0 && init[i].0 < before[j].1));
            assert(all[j] == before[j]);
        } else if overlaps(before.last(), found.last()) {
            assert(all == before);
            let j = before.len() - 1;
            assert(init.contains(before[j]));
            let a = choose|a: int| 0 <= a < init.len() && init[a] == before[j];
            assert(found[a].0 <= found[i].0);
            assert(all[j] == before.last());
        } else {
            assert(all[all.len() - 1] == found[i]);
        }
    }
}

/// Without -w and -x a pattern is compiled as it is written.
pub proof fn lemma_pattern_as_written(o: GrepOptions, pattern: Seq<char>)
    requires
        !o.word_regexp,
        !o.line_regexp,
    ensures
        adjusted(o, pattern) == pattern,
{
}

/// -C gives the number of lines both before and after, and takes the place of -A and -B, which
/// without it each give their own.
pub proof fn lemma_context_numbers(p: options::ParsedView, program: Seq<char>, a: nat, b: nat, c: nat)
    requires
        p.value('A') == Some(text::decimal(a)),
        p.value('B') == Some(text::decimal(b)),
        p.value('m') is None,
        a <= usize::MAX,
        b <= usize::MAX,
        c <= usize::MAX,
    ensures
        p.value('C') is None ==> settings(p, program) is Ok && settings(p, program)->Ok_0.after_context
            == a && settings(p, program)->Ok_0.before_context == b,
        p.value('C') == Some(text::decimal(c)) ==> settings(p, program) is Ok && settings(
            p,
            program,
        )->Ok_0.after_context == c && settings(p, program)->Ok_0.before_context == c,
{
    text::lemma_number_of_decimal(a);
    text::lemma_number_of_decimal(b);
    text::lemma_number_of_decimal(c);
    lemma_read_back(a);
    lemma_read_back(b);
    lemma_read_back(c);
}

proof fn lemma_read_back(n: nat)
    requires
        n <= usize::MAX,
    ensures
        text::unsigned(text::decimal(n), usize::MAX as nat) == Some(n),
{
    text::lemma_number_of_decimal(n);
    assert(text::is_digit(text::decimal(n)[0]));
}

/// Entries whose names begin with a point are passed over: they change nothing of what a directory
/// brings.
pub proof fn lemma_hidden_passed_over<FS: Filesystem>(
    v: env::EnvView<FS>,
    path: Seq<char>,
    display: Seq<char>,
    o: GrepOptions,
    m: MatcherView,
    print_filename: bool,
    depth: nat,
    l: Seq<fs::Listed>,
    i: int,
    hit: bool,
)
    requires
        0 <= i < l.len(),
        l[i].name.len() > 0,
        l[i].name[0] == '.',
    ensures
        entries_searched(v, path, display, o, m, print_filename, depth, l, 0, hit)
            == entries_searched(
            v,
            path,
            display,
            o,
            m,
            print_filename,
            depth,
            l.remove(i),
            0,
            hit,
        ),
{
    lemma_hidden_from(v, path, display, o, m, print_filename, depth, l, i, 0, hit);
}

proof fn lemma_hidden_from<FS: Filesystem>(
    v: env::EnvView<FS>,
    path: Seq<char>,
    display: Seq<char>,
    o: GrepOptions,
    m: MatcherView,
    print_filename: bool,
    depth: nat,
    l: Seq<fs::Listed>,
    i: int,
    k: int,
    hit: bool,
)
    requires
        0 <= i < l.len(),
        0 <= k <= l.len(),
        l[i].name.len() > 0,
        l[i].name[0] == '.',
    ensures
        entries_searched(v, path, display, o, m, print_filename, depth, l, k, hit)
            == entries_searched(
            v,
            path,
            display,
            o,
            m,
            print_filename,
            depth,
            l.remove(i),
            if k <= i {
                k
            } else {
                k - 1
            },
            hit,
        ),
    decreases l.len() - k,
{
    let less = l.remove(i);
    let k1 = if k <= i {
        k
    } else {
        k - 1
    };
    if k < l.len() {
        if k == i {
            lemma_hidden_from(v, path, display, o, m, print_filename, depth, l, i, k + 1, hit);
        } else {
            assert(less[k1] == l[k]);
            if l[k].name.len() > 0 && l[k].name[0] == '.' {
                lemma_hidden_from(v, path, display, o, m, print_filename, depth, l, i, k + 1, hit);
            } else {
                let at = paths::child(path, l[k].name);
                let shown = paths::child(display, l[k].name);
                let (w, r) = if l[k].entry.file_type == FileType::Directory && depth > 0 {
                    directory_searched(v, at, shown, o, m, print_filename, (depth - 1) as nat)
                } else if l[k].entry.file_type == FileType::RegularFile {
                    file_searched(v, at, shown, o, m, print_filename)
                } else {
                    (v, Ok(false))
                };
                let now = hit || r == Ok::<bool, env::ErrorView>(true);
                lemma_hidden_from(w, path, display, o, m, print_filename, depth, l, i, k + 1, now);
            }
        }
    }
}

/// A directory that holds a single file brings what that file brings, under the path of the
/// directory, a slash and the name of the file.
pub proof fn lemma_directory_of_one_file<FS: Filesystem>(
    v: env::EnvView<FS>,
    path: Seq<char>,
    display: Seq<char>,
    o: GrepOptions,
    m: MatcherView,
    print_filename: bool,
    depth: nat,
    file: fs::Listed,
)
    requires
        v.fs.lists(path) == Ok::<Seq<fs::Listed>, fs::IoView>(seq![file]),
        file.entry.file_type == FileType::RegularFile,
        file.name.len() > 0,
        file.name[0] != '.',
        path.len() > 0 && path.last() != '/',
        display.len() > 0 && display.last() != '/',
    ensures
        ({
            let w = v.with_fs(v.fs.after(fs::Request::ReadDir(path)));
            let (x, r) = file_searched(
                w,
                path + seq!['/'] + file.name,
                display + seq!['/'] + file.name,
                o,
                m,
                print_filename,
            );
            directory_searched(v, path, display, o, m, print_filename, depth) == (
                x,
                Ok::<bool, env::ErrorView>(r == Ok::<bool, env::ErrorView>(true)),
            )
        }),
{
    let l = seq![file];
    let s = order::by_name(l);
    assert(s =~= l) by {
        assert(l.drop_last() =~= Seq::<fs::Listed>::empty());
        reveal_with_fuel(order::sorted, 2);
    }
    lemma_child_with_slash(path, file.name);
    lemma_child_with_slash(display, file.name);
    let w = v.with_fs(v.fs.after(fs::Request::ReadDir(path)));
    let (x, r) = file_searched(
        w,
        path + seq!['/'] + file.name,
        display + seq!['/'] + file.name,
        o,
        m,
        print_filename,
    );
    let now = r == Ok::<bool, env::ErrorView>(true);
    assert(s[0] == file);
    assert(entries_searched(x, path, display, o, m, print_filename, depth, s, 1, now) == (
        x,
        Ok::<bool, env::ErrorView>(now),
    ));
    assert(entries_searched(w, path, display, o, m, print_filename, depth, s, 0, false) == (
        x,
        Ok::<bool, env::ErrorView>(now),
    ));
}

proof fn lemma_child_with_slash(path: Seq<char>, name: Seq<char>)
    requires
        path.len() > 0 && path.last() != '/',
    ensures
        paths::child(path, name) == path + seq!['/'] + name,
{
    reveal_strlit("/");
    assert(paths::child(path, name) =~= path + seq!['/'] + name);
}

/// A file that holds a NUL is reported with one line in place of its selected lines; with -a, and
/// where no lines are shown, it is searched as any other.
pub proof fn lemma_binary_file<FS: Filesystem>(
    v: env::EnvView<FS>,
    path: Seq<char>,
    display: Seq<char>,
    o: GrepOptions,
    m: MatcherView,
    print_filename: bool,
    contents: Seq<char>,
)
    requires
        v.fs.reads(path) == Ok::<Seq<char>, fs::IoView>(contents),
        o.max_count is None,
    ensures
        ({
            let (w, r) = file_searched(v, path, display, o, m, print_filename);
            let lines = text::lines(contents);
            let hit = exists|i: int|
                0 <= i < lines.len() && line_matches(m, #[trigger] lines[i]) != o.invert_match;
            let shown = !o.quiet && !o.count_only && !o.files_with_matches
                && !o.files_without_match;
            &&& w.err == v.err
            &&& contents.contains('\0') && !o.text && shown ==> r == Ok::<bool, env::ErrorView>(hit)
                && w.out == v.out + if hit {
                "Binary file "@ + display + " matches"@ + seq!['\n']
            } else {
                Seq::empty()
            }
            &&& !contents.contains('\0') || o.text || !shown ==> w.out == v.out + reported(
                o,
                if print_filename {
                    Some(display)
                } else {
                    None
                },
                lines,
                marks(m, o, lines),
            ).0
        }),
{
    assert(v.out + Seq::<char>::empty() =~= v.out);
    let line = "Binary file "@ + display + " matches"@;
    assert(text::terminated(line) =~= line + seq!['\n']);
}

/// What goes wrong with a file is told with its name, and with -s it is not; the search fails either
/// way.
pub proof fn lemma_messages<FS: Filesystem>(
    v: env::EnvView<FS>,
    path: Seq<char>,
    display: Seq<char>,
    o: GrepOptions,
    m: MatcherView,
    print_filename: bool,
    e: fs::IoView,
)
    requires
        !v.merged,
        v.fs.reads(path) == Err::<Seq<char>, fs::IoView>(e),
    ensures
        ({
            let (w, r) = file_searched(v, path, display, o, m, print_filename);
            &&& r is Err
            &&& w.out == v.out
            &&& w.err == v.err + if o.no_messages {
                Seq::empty()
            } else {
                seq!['g', 'r', 'e', 'p', ':', ' '] + display + seq![':', ' '] + e.message
                    + seq!['\n']
            }
        }),
{
    reveal_strlit("grep: ");
    reveal_strlit(": ");
    assert("grep: "@ =~= seq!['g', 'r', 'e', 'p', ':', ' ']);
    assert(": "@ =~= seq![':', ' ']);
    assert(v.err + Seq::<char>::empty() =~= v.err);
    let line = "grep: "@ + display + ": "@ + e.message;
    assert(text::terminated(line) =~= line + seq!['\n']);
}

/// A directory is searched with -r, and otherwise fails.
pub proof fn lemma_directory_needs_recursion<FS: Filesystem>(
    v: env::EnvView<FS>,
    path: Seq<char>,
    display: Seq<char>,
    o: GrepOptions,
    m: MatcherView,
    print_filename: bool,
)
    requires
        v.fs.stats(path) is Ok,
    ensures
        ({
            let w = v.with_fs(v.fs.after(fs::Request::Stat(path)));
            let dir = v.fs.stats(path)->Ok_0.file_type == FileType::Directory;
            let found = path_searched(v, path, display, o, m, print_filename);
            &&& dir && !o.recursive ==> found.1 is Err && found.0.fs == w.fs
            &&& dir && o.recursive ==> found == directory_searched(
                w,
                path,
                display,
                o,
                m,
                print_filename,
                usize::MAX as nat,
            )
            &&& !dir ==> found == file_searched(w, path, display, o, m, print_filename)
        }),
{
}

/// With -f each line of the file that is not empty is a pattern, behind those of -e, and all free
/// arguments are files. The name stands for the file of that name in the working directory.
pub proof fn lemma_patterns_from_file<FS: Filesystem>(
    v: env::EnvView<FS>,
    p: options::ParsedView,
    o: GrepOptions,
    dirs: Seq<Seq<char>>,
    names: Seq<Seq<char>>,
    lines: Seq<Seq<char>>,
)
    requires
        paths::plain(dirs),
        paths::plain(names),
        v.cwd == paths::rooted(dirs),
        p.value('f') == Some(paths::slashed(names)),
        settings(p, v.args[0]) == Ok::<GrepOptions, Seq<char>>(o),
        v.fs.reads(paths::rooted(dirs + names)) == Ok::<Seq<char>, fs::IoView>(
            text::unlines(lines),
        ),
        lines.len() > 0,
        forall|i: int| 0 <= i < lines.len() ==> text::is_line(#[trigger] lines[i]),
        forall|i: int| 0 <= i < lines.len() ==> (#[trigger] lines[i]).len() > 0,
    ensures
        ran(v, p) == searched(
            v.with_fs(v.fs.after(fs::Request::Read(paths::rooted(dirs + names)))),
            o,
            p.values('e') + lines,
            p.free,
        ),
{
    paths::lemma_resolved_names(dirs, names, Seq::empty());
    text::lemma_lines_of_unlines(lines);
    lemma_none_empty(lines);
    assert((p.values('e') + lines).len() > 0);
}

proof fn lemma_none_empty(lines: Seq<Seq<char>>)
    requires
        forall|i: int| 0 <= i < lines.len() ==> (#[trigger] lines[i]).len() > 0,
    ensures
        text::nonempty(lines) == lines,
    decreases lines.len(),
{
    if lines.len() > 0 {
        let init = lines.drop_last();
        assert forall|i: int| 0 <= i < init.len() implies (#[trigger] init[i]).len() > 0 by {
            assert(init[i] == lines[i]);
        }
        lemma_none_empty(init);
        assert(lines[lines.len() - 1].len() > 0);
    }
    assert(text::nonempty(lines) =~= lines);
}

/// Without -e and -f the first free argument is the pattern and the others are files; with -e all of
/// them are files.
pub proof fn lemma_first_argument_is_pattern<FS: Filesystem>(
    v: env::EnvView<FS>,
    p: options::ParsedView,
    o: GrepOptions,
)
    requires
        p.value('f') is None,
        settings(p, v.args[0]) == Ok::<GrepOptions, Seq<char>>(o),
    ensures
        p.values('e').len() > 0 ==> ran(v, p) == searched(v, o, p.values('e'), p.free),
        p.values('e').len() == 0 && p.free.len() > 0 ==> ran(v, p) == searched(
            v,
            o,
            seq![p.free[0]],
            p.free.skip(1),
        ),
        p.values('e').len() == 0 && p.free.len() == 0 ==> ran(v, p).1 == Ok::<int, env::ErrorView>(2),
{
}

} // verus!
