//! The sort builtin: sort lines of text files.

use crate::env::{Environment, Error, ExitCode};
use crate::env;
use crate::fs::{Filesystem, FsError};
use crate::fs;
use crate::number;
use crate::options::{Arity, OptDef, Parsed};
use crate::options;
use crate::order::Order;
use crate::order;
use crate::shuf;
use crate::text;
use vstd::prelude::*;

verus! {

broadcast use vstd::string::group_string_axioms;

/// Modifiers that can be applied to a sort key or globally.
#[derive(Debug, Clone, Copy, PartialEq, Eq, Structural)]
pub struct KeyModifiers {
    /// Ignore leading blanks.
    pub ignore_leading_blanks: bool,
    /// Dictionary order: only blanks and alphanumeric characters.
    pub dictionary_order: bool,
    /// Case-insensitive comparison.
    pub ignore_case: bool,
    /// Ignore non-printable characters.
    pub ignore_nonprinting: bool,
    /// Numeric sort.
    pub numeric: bool,
    /// General numeric sort (floating point).
    pub general_numeric: bool,
    /// Human-readable numeric sort (e.g., 1K, 2M).
    pub human_numeric: bool,
    /// Month sort.
    pub month: bool,
    /// Reverse sort order.
    pub reverse: bool,
    /// Version sort.
    pub version: bool,
}

/// A sort key specification from -k option.
#[derive(Debug, Clone, Copy, PartialEq, Eq, Structural)]
pub struct KeySpec {
    /// Starting field (1-indexed).
    pub start_field: usize,
    /// Starting character within field (1-indexed).
    pub start_char: usize,
    /// Ending field (1-indexed, 0 means end of line).
    pub end_field: usize,
    /// Ending character within field (1-indexed, 0 means end of field).
    pub end_char: usize,
    /// Modifiers for this key.
    pub modifiers: KeyModifiers,
}

/// How lines are compared and written.
pub struct SortOptions {
    /// Global modifiers applied when no key-specific modifiers exist.
    pub global_modifiers: KeyModifiers,
    /// Sort key specifications.
    pub keys: Vec<KeySpec>,
    /// Field separator character.
    pub field_separator: Option<char>,
    /// Unique: suppress duplicate keys.
    pub unique: bool,
    /// Stable sort.
    pub stable: bool,
    /// Use NUL as line terminator.
    pub zero_terminated: bool,
}

pub ghost struct SortView {
    pub global: KeyModifiers,
    pub keys: Seq<KeySpec>,
    pub separator: Option<char>,
    pub unique: bool,
    pub stable: bool,
    pub zero_terminated: bool,
}

impl View for SortOptions {
    type V = SortView;

    open spec fn view(&self) -> SortView {
        SortView {
            global: self.global_modifiers,
            keys: self.keys@,
            separator: self.field_separator,
            unique: self.unique,
            stable: self.stable,
            zero_terminated: self.zero_terminated,
        }
    }
}

// ---------------------------------------------------------------------------------------------
// Keys
// ---------------------------------------------------------------------------------------------

/// The modifiers whose letters a text holds.
pub open spec fn modifiers(s: Seq<char>) -> KeyModifiers {
    KeyModifiers {
        ignore_leading_blanks: s.contains('b'),
        dictionary_order: s.contains('d'),
        ignore_case: s.contains('f'),
        ignore_nonprinting: s.contains('i'),
        numeric: s.contains('n'),
        general_numeric: s.contains('g'),
        human_numeric: s.contains('h'),
        month: s.contains('M'),
        reverse: s.contains('r'),
        version: s.contains('V'),
    }
}

pub open spec fn no_modifiers() -> KeyModifiers {
    KeyModifiers {
        ignore_leading_blanks: false,
        dictionary_order: false,
        ignore_case: false,
        ignore_nonprinting: false,
        numeric: false,
        general_numeric: false,
        human_numeric: false,
        month: false,
        reverse: false,
        version: false,
    }
}

impl Default for KeyModifiers {
    fn default() -> (r: KeyModifiers)
        ensures
            r == no_modifiers(),
    {
        KeyModifiers {
            ignore_leading_blanks: false,
            dictionary_order: false,
            ignore_case: false,
            ignore_nonprinting: false,
            numeric: false,
            general_numeric: false,
            human_numeric: false,
            month: false,
            reverse: false,
            version: false,
        }
    }
}

impl Default for KeySpec {
    fn default() -> (r: KeySpec)
        ensures
            r == (KeySpec {
                start_field: 1,
                start_char: 1,
                end_field: 0,
                end_char: 0,
                modifiers: no_modifiers(),
            }),
    {
        KeySpec {
            start_field: 1,
            start_char: 1,
            end_field: 0,
            end_char: 0,
            modifiers: KeyModifiers::default(),
        }
    }
}

impl Default for SortOptions {
    fn default() -> (r: SortOptions)
        ensures
            r@ == (SortView {
                global: no_modifiers(),
                keys: Seq::empty(),
                separator: None,
                unique: false,
                stable: false,
                zero_terminated: false,
            }),
    {
        SortOptions {
            global_modifiers: KeyModifiers::default(),
            keys: Vec::new(),
            field_separator: None,
            unique: false,
            stable: false,
            zero_terminated: false,
        }
    }
}

/// Parses key modifiers from a string suffix (e.g., "2.3n" -> modifiers from "n").
pub fn parse_modifiers(s: &str) -> (r: KeyModifiers)
    ensures
        r == modifiers(s@),
{
    KeyModifiers {
        ignore_leading_blanks: text::has_char(s, 'b'),
        dictionary_order: text::has_char(s, 'd'),
        ignore_case: text::has_char(s, 'f'),
        ignore_nonprinting: text::has_char(s, 'i'),
        numeric: text::has_char(s, 'n'),
        general_numeric: text::has_char(s, 'g'),
        human_numeric: text::has_char(s, 'h'),
        month: text::has_char(s, 'M'),
        reverse: text::has_char(s, 'r'),
        version: text::has_char(s, 'V'),
    }
}

/// The number of decimal digits from `i` on.
pub open spec fn digits_end(s: Seq<char>, i: int) -> int
    decreases s.len() - i,
{
    if 0 <= i < s.len() && text::is_digit(s[i]) {
        digits_end(s, i + 1)
    } else {
        i
    }
}

/// The number that digits write; the largest position where it lies beyond.
pub open spec fn bounded(s: Seq<char>) -> usize {
    if text::number(s) > usize::MAX {
        usize::MAX
    } else {
        text::number(s) as usize
    }
}

/// What a field.char specification like "2" or "2.3" or "2.3n" says: the field, the character and
/// the modifiers.
pub open spec fn field_spec(s: Seq<char>) -> (usize, usize, KeyModifiers) {
    let k = digits_end(s, 0);
    let field = bounded(s.take(k));
    if k < s.len() && s[k] == '.' {
        let j = digits_end(s, k + 1);
        (
            field,
            bounded(s.subrange(k + 1, j)),
            modifiers(if j > k + 1 {
                s.skip(j)
            } else {
                s.skip(k)
            }),
        )
    } else {
        (field, 0, modifiers(s.skip(k)))
    }
}

pub proof fn digits_end_bounds(s: Seq<char>, i: int)
    requires
        0 <= i <= s.len(),
    ensures
        i <= digits_end(s, i) <= s.len(),
        forall|j: int| i <= j < digits_end(s, i) ==> text::is_digit(#[trigger] s[j]),
    decreases s.len() - i,
{
    if i < s.len() && text::is_digit(s[i]) {
        digits_end_bounds(s, i + 1);
    }
}

/// Reads the digits from `from` on, as far as they go.
fn read_digits(v: &Vec<char>, from: usize) -> (r: (usize, usize))
    requires
        from <= v@.len(),
    ensures
        r.1 == digits_end(v@, from as int),
        from <= r.1 <= v@.len(),
        r.0 == bounded(v@.subrange(from as int, r.1 as int)),
{
    let mut n: usize = 0;
    let mut i: usize = from;
    while i < v.len() && text::digit(v[i])
        invariant
            from <= i <= v@.len(),
            digits_end(v@, i as int) == digits_end(v@, from as int),
            n == bounded(v@.subrange(from as int, i as int)),
        decreases v.len() - i,
    {
        let d: usize = (v[i] as u32 - '0' as u32) as usize;
        let ghost t = v@.subrange(from as int, i + 1);
        assert(t.drop_last() =~= v@.subrange(from as int, i as int));
        n = match n.checked_mul(10) {
            Some(m) => match m.checked_add(d) {
                Some(k) => k,
                None => usize::MAX,
            },
            None => usize::MAX,
        };
        i += 1;
    }
    (n, i)
}

/// Parses a field.char specification like "2" or "2.3" or "2.3n".
pub fn parse_field_spec(s: &str) -> (r: (usize, usize, KeyModifiers))
    ensures
        r == field_spec(s@),
{
    let v = text::chars(s);
    let (field, k) = read_digits(&v, 0);
    assert(v@.subrange(0, k as int) =~= v@.take(k as int));
    if k < v.len() && v[k] == '.' {
        let (char_pos, j) = read_digits(&v, k + 1);
        let rest = text::drop_chars(s, if j > k + 1 {
            j
        } else {
            k
        });
        (field, char_pos, parse_modifiers(rest.as_str()))
    } else {
        let rest = text::drop_chars(s, k);
        (field, 0, parse_modifiers(rest.as_str()))
    }
}

pub open spec fn any_modifier(m: KeyModifiers) -> bool {
    m != no_modifiers()
}

/// The modifiers that either has.
pub open spec fn merged(a: KeyModifiers, b: KeyModifiers) -> KeyModifiers {
    KeyModifiers {
        ignore_leading_blanks: a.ignore_leading_blanks || b.ignore_leading_blanks,
        dictionary_order: a.dictionary_order || b.dictionary_order,
        ignore_case: a.ignore_case || b.ignore_case,
        ignore_nonprinting: a.ignore_nonprinting || b.ignore_nonprinting,
        numeric: a.numeric || b.numeric,
        general_numeric: a.general_numeric || b.general_numeric,
        human_numeric: a.human_numeric || b.human_numeric,
        month: a.month || b.month,
        reverse: a.reverse || b.reverse,
        version: a.version || b.version,
    }
}

fn has_any_modifier(mods: &KeyModifiers) -> (r: bool)
    ensures
        r == any_modifier(*mods),
{
    mods.ignore_leading_blanks || mods.dictionary_order || mods.ignore_case
        || mods.ignore_nonprinting || mods.numeric || mods.general_numeric || mods.human_numeric
        || mods.month || mods.reverse || mods.version
}

fn merge_modifiers(a: &KeyModifiers, b: &KeyModifiers) -> (r: KeyModifiers)
    ensures
        r == merged(*a, *b),
{
    KeyModifiers {
        ignore_leading_blanks: a.ignore_leading_blanks || b.ignore_leading_blanks,
        dictionary_order: a.dictionary_order || b.dictionary_order,
        ignore_case: a.ignore_case || b.ignore_case,
        ignore_nonprinting: a.ignore_nonprinting || b.ignore_nonprinting,
        numeric: a.numeric || b.numeric,
        general_numeric: a.general_numeric || b.general_numeric,
        human_numeric: a.human_numeric || b.human_numeric,
        month: a.month || b.month,
        reverse: a.reverse || b.reverse,
        version: a.version || b.version,
    }
}

/// What a -k key specification like "1", "1,2", "1.2,3.4", "2n", "1,2nr" says; or the words of the
/// error. Modifiers of the key take the place of the global ones.
pub open spec fn key_spec(spec: Seq<char>, global: KeyModifiers) -> Result<KeySpec, Seq<char>> {
    let k = text::find_from(spec, ',', 0);
    let (start_field, start_char, start_mods) = field_spec(spec.take(k));
    let (end_field, end_char, end_mods) = if k < spec.len() {
        field_spec(spec.skip(k + 1))
    } else {
        (0, 0, no_modifiers())
    };
    if start_field == 0 {
        Err("invalid key specification: "@ + spec)
    } else {
        Ok(
            KeySpec {
                start_field,
                start_char: if start_char == 0 {
                    1
                } else {
                    start_char
                },
                end_field,
                end_char,
                modifiers: if any_modifier(start_mods) || any_modifier(end_mods) {
                    merged(start_mods, end_mods)
                } else {
                    global
                },
            },
        )
    }
}

/// Parses a -k key specification like "1", "1,2", "1.2,3.4", "2n", "1,2nr".
pub fn parse_key_spec(spec: &str, global_mods: &KeyModifiers) -> (r: Result<KeySpec, String>)
    ensures
        match r {
            Ok(k) => key_spec(spec@, *global_mods) == Ok::<KeySpec, Seq<char>>(k),
            Err(e) => key_spec(spec@, *global_mods) == Err::<KeySpec, Seq<char>>(e@),
        },
{
    let v = text::chars(spec);
    let k = text::find(&v, ',', 0);
    let head = text::slice(&v, 0, k);
    assert(head@ =~= spec@.take(k as int));
    let (start_field, start_char, start_mods) = parse_field_spec(head.as_str());
    let (end_field, end_char, end_mods) = if k < v.len() {
        let tail = text::drop_chars(spec, k + 1);
        parse_field_spec(tail.as_str())
    } else {
        (
            0,
            0,
            KeyModifiers::default(),
        )
    };
    if start_field == 0 {
        let mut m = "invalid key specification: ".to_owned();
        m.append(spec);
        return Err(m);
    }
    let modifiers = if has_any_modifier(&start_mods) || has_any_modifier(&end_mods) {
        merge_modifiers(&start_mods, &end_mods)
    } else {
        *global_mods
    };
    Ok(
        KeySpec {
            start_field,
            start_char: if start_char == 0 {
                1
            } else {
                start_char
            },
            end_field,
            end_char,
            modifiers,
        },
    )
}

/// The fields of a line: between separators, or the words of the line. A line without words is a
/// single field.
pub open spec fn fields(line: Seq<char>, separator: Option<char>) -> Seq<Seq<char>> {
    match separator {
        Some(sep) => text::split(line, sep),
        None => {
            let w = text::words(line);
            if w.len() == 0 {
                seq![line]
            } else {
                w
            }
        },
    }
}

/// Splits a line into fields based on separator.
pub fn split_fields(line: &str, separator: Option<char>) -> (r: Vec<String>)
    ensures
        r.deep_view() == fields(line@, separator),
        r@.len() > 0,
{
    match separator {
        Some(sep) => {
            proof {
                text::split_nonempty(line@, sep);
            }
            let r = text::split_at_char(line, sep);
            assert(r.deep_view().len() == r@.len());
            r
        },
        None => {
            let mut out = text::split_white(line);
            assert(out.deep_view().len() == out@.len());
            if out.len() == 0 {
                out.push(line.to_owned());
                assert(out.deep_view() =~= seq![line@]);
            }
            out
        },
    }
}

pub open spec fn smaller(a: int, b: int) -> int {
    if a < b {
        a
    } else {
        b
    }
}

/// The bounds, in characters, of the part of the `f`-th field that belongs to a key over the fields
/// `first` to `last`.
pub open spec fn key_bounds(fs: Seq<Seq<char>>, key: KeySpec, f: int, first: int, last: int) -> (
    int,
    int,
) {
    let len = fs[f].len() as int;
    (
        if f == first && key.start_char > 1 {
            smaller(key.start_char - 1, len)
        } else {
            0
        },
        if f == last && key.end_char > 0 {
            smaller(key.end_char as int, len)
        } else {
            len
        },
    )
}

/// The parts of the fields `first` to `f` one after another, with a separator between those that
/// are not empty.
pub open spec fn key_upto(
    fs: Seq<Seq<char>>,
    key: KeySpec,
    sep: char,
    f: int,
    first: int,
    last: int,
) -> Seq<char>
    decreases f - first + 1,
{
    if f < first {
        Seq::empty()
    } else {
        let before = key_upto(fs, key, sep, f - 1, first, last);
        let (start, end) = key_bounds(fs, key, f, first, last);
        if start >= end {
            before
        } else if before.len() == 0 {
            before + fs[f].subrange(start, end)
        } else {
            before.push(sep) + fs[f].subrange(start, end)
        }
    }
}

/// The sort key of a line.
pub open spec fn key_of(line: Seq<char>, key: KeySpec, separator: Option<char>) -> Seq<char> {
    let fs = fields(line, separator);
    let first = key.start_field - 1;
    let last = if key.end_field == 0 {
        fs.len() - 1
    } else {
        smaller(key.end_field - 1, fs.len() - 1)
    };
    if key.start_field > fs.len() || first > last {
        Seq::empty()
    } else {
        key_upto(
            fs,
            key,
            match separator {
                Some(c) => c,
                None => ' ',
            },
            last,
            first,
            last,
        )
    }
}

fn min(a: usize, b: usize) -> (r: usize)
    ensures
        r == smaller(a as int, b as int),
{
    if a < b {
        a
    } else {
        b
    }
}

/// Extracts the sort key from a line based on key specification.
pub fn extract_key(line: &str, key: &KeySpec, separator: Option<char>) -> (r: String)
    requires
        key.start_field > 0,
    ensures
        r@ == key_of(line@, *key, separator),
{
    let fs = split_fields(line, separator);
    let ghost fv = fs.deep_view();
    assert(fv.len() == fs@.len());
    if key.start_field > fs.len() {
        return String::new();
    }
    let first: usize = key.start_field - 1;
    let last: usize = if key.end_field == 0 {
        fs.len() - 1
    } else {
        min(key.end_field - 1, fs.len() - 1)
    };
    if first > last {
        return String::new();
    }
    let sep: char = match separator {
        Some(c) => c,
        None => ' ',
    };
    let mut result = String::new();
    let mut f: usize = first;
    while f <= last
        invariant
            first <= f <= last + 1,
            last < fs@.len(),
            fv == fs.deep_view(),
            fs@.len() <= usize::MAX,
            result@ == key_upto(fv, *key, sep, f - 1, first as int, last as int),
        decreases last + 1 - f,
    {
        let field = text::chars(fs[f].as_str());
        let len: usize = field.len();
        let start: usize = if f == first && key.start_char > 1 {
            min(key.start_char - 1, len)
        } else {
            0
        };
        let end: usize = if f == last && key.end_char > 0 {
            min(key.end_char, len)
        } else {
            len
        };
        assert(fv[f as int] == fs@[f as int]@);
        if start < end {
            if !result.as_str().is_empty() {
                result.push(sep);
            }
            let t = text::slice(&field, start, end);
            result.append(t.as_str());
        }
        f += 1;
    }
    result
}

/// The characters of a text that `keep` keeps.
pub open spec fn kept(s: Seq<char>, keep: spec_fn(char) -> bool) -> Seq<char> {
    s.filter(keep)
}

pub open spec fn in_dictionary() -> spec_fn(char) -> bool {
    |c: char| text::is_alphanumeric(c) || text::is_white(c)
}

pub open spec fn printing() -> spec_fn(char) -> bool {
    |c: char| !text::is_control(c)
}

/// A key as modifiers make it.
pub open spec fn modified(key: Seq<char>, m: KeyModifiers) -> Seq<char> {
    let a = if m.ignore_leading_blanks {
        text::trim_start(key)
    } else {
        key
    };
    let b = if m.dictionary_order {
        kept(a, in_dictionary())
    } else {
        a
    };
    let c = if m.ignore_nonprinting {
        kept(b, printing())
    } else {
        b
    };
    if m.ignore_case {
        text::upper(c)
    } else {
        c
    }
}

fn keep_dictionary(s: &str) -> (r: String)
    ensures
        r@ == kept(s@, in_dictionary()),
{
    let v = text::chars(s);
    let mut out = String::new();
    let mut i: usize = 0;
    reveal(Seq::filter);
    while i < v.len()
        invariant
            i <= v@.len(),
            v@ == s@,
            out@ == kept(v@.take(i as int), in_dictionary()),
        decreases v.len() - i,
    {
        proof {
            reveal(Seq::filter);
            assert(v@.take(i + 1).drop_last() =~= v@.take(i as int));
        }
        if text::alphanumeric(v[i]) || text::white(v[i]) {
            out.push(v[i]);
        }
        i += 1;
    }
    assert(v@.take(i as int) =~= v@);
    out
}

fn keep_printing(s: &str) -> (r: String)
    ensures
        r@ == kept(s@, printing()),
{
    let v = text::chars(s);
    let mut out = String::new();
    let mut i: usize = 0;
    reveal(Seq::filter);
    while i < v.len()
        invariant
            i <= v@.len(),
            v@ == s@,
            out@ == kept(v@.take(i as int), printing()),
        decreases v.len() - i,
    {
        proof {
            reveal(Seq::filter);
            assert(v@.take(i + 1).drop_last() =~= v@.take(i as int));
        }
        if !text::control(v[i]) {
            out.push(v[i]);
        }
        i += 1;
    }
    assert(v@.take(i as int) =~= v@);
    out
}

/// Applies modifiers to a key for comparison.
pub fn apply_modifiers(key: &str, mods: &KeyModifiers) -> (r: String)
    ensures
        r@ == modified(key@, *mods),
{
    let mut s = key.to_owned();
    if mods.ignore_leading_blanks {
        s = text::trimmed_start(s.as_str());
    }
    if mods.dictionary_order {
        s = keep_dictionary(s.as_str());
    }
    if mods.ignore_nonprinting {
        s = keep_printing(s.as_str());
    }
    if mods.ignore_case {
        s = text::to_upper(s.as_str());
    }
    s
}

// ---------------------------------------------------------------------------------------------
// Comparing
// ---------------------------------------------------------------------------------------------

/// The first index from `i` on that holds a letter; the length where there is none.
pub open spec fn first_letter(s: Seq<char>, i: int) -> int
    decreases s.len() - i,
{
    if i < 0 || i >= s.len() {
        s.len() as int
    } else if text::is_alphabetic(s[i]) {
        i
    } else {
        first_letter(s, i + 1)
    }
}

/// The power of 1024 that a unit stands for.
pub open spec fn unit_power(c: char) -> u32 {
    match c {
        'k' => 1,
        'K' => 1,
        'M' => 2,
        'G' => 3,
        'T' => 4,
        'P' => 5,
        'E' => 6,
        _ => 0,
    }
}

/// A human-readable number (e.g., "1K", "2M", "3G") as a number and a power of 1024.
pub open spec fn human(s: Seq<char>) -> (Seq<char>, u32) {
    let t = text::trim(s);
    let k = first_letter(t, 0);
    (
        t.take(k),
        if k < t.len() {
            unit_power(t[k])
        } else {
            0
        },
    )
}

/// How two numbers compare, by their places. What has no place is as large as anything.
pub open spec fn place_order(a: Option<i64>, b: Option<i64>) -> Order {
    match (a, b) {
        (Some(x), Some(y)) => order::int_order(x as int, y as int),
        _ => Order::Equal,
    }
}

/// The number of a month (1-12, 0 for unknown) by the first three letters of its name.
pub open spec fn month(s: Seq<char>) -> int {
    let t = text::upper(text::trim(s));
    if text::starts_with(t, "JAN"@) {
        1
    } else if text::starts_with(t, "FEB"@) {
        2
    } else if text::starts_with(t, "MAR"@) {
        3
    } else if text::starts_with(t, "APR"@) {
        4
    } else if text::starts_with(t, "MAY"@) {
        5
    } else if text::starts_with(t, "JUN"@) {
        6
    } else if text::starts_with(t, "JUL"@) {
        7
    } else if text::starts_with(t, "AUG"@) {
        8
    } else if text::starts_with(t, "SEP"@) {
        9
    } else if text::starts_with(t, "OCT"@) {
        10
    } else if text::starts_with(t, "NOV"@) {
        11
    } else if text::starts_with(t, "DEC"@) {
        12
    } else {
        0
    }
}

/// The value of a run of digits in a version; zero where it is too large to count.
pub open spec fn run_value(s: Seq<char>) -> nat {
    if text::number(s) <= u64::MAX {
        text::number(s)
    } else {
        0
    }
}

/// How two versions compare: runs of digits by value, then the longer (with more leading zeros)
/// first; anything else character by character.
pub open spec fn version_order(a: Seq<char>, b: Seq<char>) -> Order
    decreases a.len(),
    via version_order_decreases
{
    if a.len() > 0 && b.len() > 0 && text::is_digit(a[0]) && text::is_digit(b[0]) {
        let i = digits_end(a, 0);
        let j = digits_end(b, 0);
        let x = run_value(a.take(i)) as int;
        let y = run_value(b.take(j)) as int;
        if x != y {
            order::int_order(x, y)
        } else if i != j {
            order::int_order(j, i)
        } else {
            version_order(a.skip(i), b.skip(j))
        }
    } else if a.len() == 0 && b.len() == 0 {
        Order::Equal
    } else if a.len() == 0 {
        Order::Less
    } else if b.len() == 0 {
        Order::Greater
    } else if a[0] != b[0] {
        order::int_order(a[0] as int, b[0] as int)
    } else {
        version_order(a.skip(1), b.skip(1))
    }
}

#[via_fn]
proof fn version_order_decreases(a: Seq<char>, b: Seq<char>) {
    if a.len() > 0 && text::is_digit(a[0]) {
        digits_end_bounds(a, 1);
    }
}

/// How two keys compare.
pub open spec fn key_order(a: Seq<char>, b: Seq<char>, m: KeyModifiers, num: number::Reader) -> Order {
    if m.numeric || m.general_numeric {
        place_order(num(text::trim(a), 0), num(text::trim(b), 0))
    } else if m.human_numeric {
        place_order(num(human(a).0, human(a).1), num(human(b).0, human(b).1))
    } else if m.month {
        order::int_order(month(a), month(b))
    } else if m.version {
        version_order(a, b)
    } else {
        order::text_order(a, b)
    }
}

pub open spec fn reversed_if(reverse: bool, o: Order) -> Order {
    if reverse {
        o.spec_reverse()
    } else {
        o
    }
}

/// How two lines compare by one key.
pub open spec fn by_key(
    a: Seq<char>,
    b: Seq<char>,
    key: KeySpec,
    separator: Option<char>,
    num: number::Reader,
) -> Order {
    key_order(
        modified(key_of(a, key, separator), key.modifiers),
        modified(key_of(b, key, separator), key.modifiers),
        key.modifiers,
        num,
    )
}

/// How two lines compare by the keys from `i` on, then by `rest`.
pub open spec fn by_keys(
    a: Seq<char>,
    b: Seq<char>,
    keys: Seq<KeySpec>,
    separator: Option<char>,
    num: number::Reader,
    rest: Order,
    i: int,
) -> Order
    decreases keys.len() - i,
{
    if i < 0 || i >= keys.len() {
        rest
    } else {
        let o = by_key(a, b, keys[i], separator, num);
        if o != Order::Equal {
            reversed_if(keys[i].modifiers.reverse, o)
        } else {
            by_keys(a, b, keys, separator, num, rest, i + 1)
        }
    }
}

/// How two lines compare. Where all keys are equal the whole lines decide, unless the sort is
/// stable or only the keys count.
pub open spec fn line_order(
    a: Seq<char>,
    b: Seq<char>,
    o: SortView,
    num: number::Reader,
    keys_only: bool,
) -> Order {
    if o.keys.len() == 0 {
        reversed_if(
            o.global.reverse,
            key_order(modified(a, o.global), modified(b, o.global), o.global, num),
        )
    } else {
        by_keys(
            a,
            b,
            o.keys,
            o.separator,
            num,
            if o.stable || keys_only {
                Order::Equal
            } else {
                order::text_order(a, b)
            },
            0,
        )
    }
}

fn compare_places(a: Option<i64>, b: Option<i64>) -> (r: Order)
    ensures
        r == place_order(a, b),
{
    match (a, b) {
        (Some(x), Some(y)) => if x < y {
            Order::Less
        } else if x > y {
            Order::Greater
        } else {
            Order::Equal
        },
        _ => Order::Equal,
    }
}

/// Parses a numeric value.
pub fn parse_numeric<N: Fn(&str, u32) -> Option<i64>>(s: &str, num: &N) -> (r: Option<i64>)
    requires
        number::is_reader(*num),
    ensures
        r == number::reading(*num)(text::trim(s@), 0),
{
    let t = text::trimmed(s);
    number::place(num, t.as_str(), 0)
}

/// Splits a human-readable numeric value (e.g., "1K", "2M", "3G") into a number and a power of
/// 1024.
pub fn parse_human_numeric(s: &str) -> (r: (String, u32))
    ensures
        (r.0@, r.1) == human(s@),
{
    let t = text::trimmed(s);
    let v = text::chars(t.as_str());
    let mut k: usize = 0;
    while k < v.len() && !text::alphabetic(v[k])
        invariant
            k <= v@.len(),
            first_letter(v@, k as int) == first_letter(v@, 0),
        decreases v.len() - k,
    {
        k += 1;
    }
    let head = text::slice(&v, 0, k);
    assert(head@ =~= v@.take(k as int));
    let power: u32 = if k < v.len() {
        match v[k] {
            'k' => 1,
            'K' => 1,
            'M' => 2,
            'G' => 3,
            'T' => 4,
            'P' => 5,
            'E' => 6,
            _ => 0,
        }
    } else {
        0
    };
    (head, power)
}

/// Parses month name and returns ordering value (1-12, 0 for unknown).
pub fn parse_month(s: &str) -> (r: u8)
    ensures
        r == month(s@),
{
    let trimmed = text::trimmed(s);
    let t = text::to_upper(trimmed.as_str());
    let u = t.as_str();
    if text::has_prefix(u, "JAN") {
        1
    } else if text::has_prefix(u, "FEB") {
        2
    } else if text::has_prefix(u, "MAR") {
        3
    } else if text::has_prefix(u, "APR") {
        4
    } else if text::has_prefix(u, "MAY") {
        5
    } else if text::has_prefix(u, "JUN") {
        6
    } else if text::has_prefix(u, "JUL") {
        7
    } else if text::has_prefix(u, "AUG") {
        8
    } else if text::has_prefix(u, "SEP") {
        9
    } else if text::has_prefix(u, "OCT") {
        10
    } else if text::has_prefix(u, "NOV") {
        11
    } else if text::has_prefix(u, "DEC") {
        12
    } else {
        0
    }
}

fn digits_stop(v: &Vec<char>, from: usize) -> (r: usize)
    requires
        from <= v@.len(),
    ensures
        r == digits_end(v@, from as int),
        from <= r <= v@.len(),
{
    let mut i: usize = from;
    while i < v.len() && text::digit(v[i])
        invariant
            from <= i <= v@.len(),
            digits_end(v@, i as int) == digits_end(v@, from as int),
        decreases v.len() - i,
    {
        i += 1;
    }
    i
}

proof fn digits_end_skip(s: Seq<char>, from: int, i: int)
    requires
        0 <= from <= i <= s.len(),
    ensures
        digits_end(s.skip(from), i - from) == digits_end(s, i) - from,
    decreases s.len() - i,
{
    if i < s.len() && text::is_digit(s[i]) {
        digits_end_skip(s, from, i + 1);
    }
}

fn value_of_run(v: &Vec<char>, from: usize, to: usize) -> (r: u64)
    requires
        from < to <= v@.len(),
        forall|j: int| from <= j < to ==> text::is_digit(#[trigger] v@[j]),
    ensures
        r == run_value(v@.subrange(from as int, to as int)),
{
    let run = text::slice(v, from, to);
    let w = text::chars(run.as_str());
    assert(w@.skip(0) =~= w@);
    assert(text::all_digits(w@));
    match text::digits_from(&w, 0, u64::MAX) {
        Some(n) => n,
        None => 0,
    }
}

/// Compares two version strings.
pub fn compare_version(a: &str, b: &str) -> (r: Order)
    ensures
        r == version_order(a@, b@),
{
    let v = text::chars(a);
    let w = text::chars(b);
    let mut i: usize = 0;
    let mut j: usize = 0;
    assert(v@.skip(0) =~= a@);
    assert(w@.skip(0) =~= b@);
    loop
        invariant
            i <= v@.len(),
            j <= w@.len(),
            v@ == a@,
            w@ == b@,
            version_order(v@.skip(i as int), w@.skip(j as int)) == version_order(a@, b@),
        decreases v@.len() - i,
    {
        let ghost x = v@.skip(i as int);
        let ghost y = w@.skip(j as int);
        if i < v.len() && j < w.len() && text::digit(v[i]) && text::digit(w[j]) {
            let k = digits_stop(&v, i);
            let l = digits_stop(&w, j);
            proof {
                digits_end_skip(v@, i as int, i as int);
                digits_end_skip(w@, j as int, j as int);
                digits_end_bounds(v@, i as int);
                digits_end_bounds(w@, j as int);
                digits_end_bounds(v@, i + 1);
                digits_end_bounds(w@, j + 1);
                assert(x.take(k - i) =~= v@.subrange(i as int, k as int));
                assert(y.take(l - j) =~= w@.subrange(j as int, l as int));
                assert(x.skip(k - i) =~= v@.skip(k as int));
                assert(y.skip(l - j) =~= w@.skip(l as int));
            }
            let m = value_of_run(&v, i, k);
            let n = value_of_run(&w, j, l);
            if m < n {
                return Order::Less;
            }
            if m > n {
                return Order::Greater;
            }
            if k - i > l - j {
                return Order::Less;
            }
            if k - i < l - j {
                return Order::Greater;
            }
            i = k;
            j = l;
        } else {
            if i >= v.len() {
                return if j >= w.len() {
                    Order::Equal
                } else {
                    Order::Less
                };
            }
            if j >= w.len() {
                return Order::Greater;
            }
            if v[i] < w[j] {
                return Order::Less;
            }
            if v[i] > w[j] {
                return Order::Greater;
            }
            proof {
                assert(x.skip(1) =~= v@.skip(i + 1));
                assert(y.skip(1) =~= w@.skip(j + 1));
            }
            i += 1;
            j += 1;
        }
    }
}

/// Compares two keys with modifiers.
pub fn compare_keys<N: Fn(&str, u32) -> Option<i64>>(
    a: &str,
    b: &str,
    mods: &KeyModifiers,
    num: &N,
) -> (r: Order)
    requires
        number::is_reader(*num),
    ensures
        r == key_order(a@, b@, *mods, number::reading(*num)),
{
    if mods.numeric || mods.general_numeric {
        compare_places(parse_numeric(a, num), parse_numeric(b, num))
    } else if mods.human_numeric {
        let (x, p) = parse_human_numeric(a);
        let (y, q) = parse_human_numeric(b);
        compare_places(number::place(num, x.as_str(), p), number::place(num, y.as_str(), q))
    } else if mods.month {
        let x = parse_month(a);
        let y = parse_month(b);
        if x < y {
            Order::Less
        } else if x > y {
            Order::Greater
        } else {
            Order::Equal
        }
    } else if mods.version {
        compare_version(a, b)
    } else {
        order::compare_texts(a, b)
    }
}

fn reverse_if(reverse: bool, o: Order) -> (r: Order)
    ensures
        r == reversed_if(reverse, o),
{
    if reverse {
        o.reverse()
    } else {
        o
    }
}

/// Whether every key begins at a field.
pub open spec fn valid_keys(keys: Seq<KeySpec>) -> bool {
    forall|i: int| 0 <= i < keys.len() ==> (#[trigger] keys[i]).start_field > 0
}

/// Compares two lines using all key specifications.
pub fn compare_lines_impl<N: Fn(&str, u32) -> Option<i64>>(
    a: &str,
    b: &str,
    opts: &SortOptions,
    num: &N,
    keys_only: bool,
) -> (r: Order)
    requires
        number::is_reader(*num),
        valid_keys(opts.keys@),
    ensures
        r == line_order(a@, b@, opts@, number::reading(*num), keys_only),
{
    if opts.keys.len() == 0 {
        let x = apply_modifiers(a, &opts.global_modifiers);
        let y = apply_modifiers(b, &opts.global_modifiers);
        let o = compare_keys(x.as_str(), y.as_str(), &opts.global_modifiers, num);
        return reverse_if(opts.global_modifiers.reverse, o);
    }
    let rest = if opts.stable || keys_only {
        Order::Equal
    } else {
        order::compare_texts(a, b)
    };
    let ghost read = number::reading(*num);
    let mut i: usize = 0;
    while i < opts.keys.len()
        invariant
            i <= opts.keys@.len(),
            number::is_reader(*num),
            valid_keys(opts.keys@),
            read == number::reading(*num),
            by_keys(a@, b@, opts.keys@, opts.field_separator, read, rest, i as int) == by_keys(
                a@,
                b@,
                opts.keys@,
                opts.field_separator,
                read,
                rest,
                0,
            ),
            line_order(a@, b@, opts@, read, keys_only) == by_keys(
                a@,
                b@,
                opts.keys@,
                opts.field_separator,
                read,
                rest,
                0,
            ),
        decreases opts.keys.len() - i,
    {
        let key = opts.keys[i];
        let x = extract_key(a, &key, opts.field_separator);
        let y = extract_key(b, &key, opts.field_separator);
        let x = apply_modifiers(x.as_str(), &key.modifiers);
        let y = apply_modifiers(y.as_str(), &key.modifiers);
        let o = compare_keys(x.as_str(), y.as_str(), &key.modifiers, num);
        if o != Order::Equal {
            return reverse_if(key.modifiers.reverse, o);
        }
        i += 1;
    }
    rest
}

// ---------------------------------------------------------------------------------------------
// Sorting lines
// ---------------------------------------------------------------------------------------------

pub open spec fn terminator(zero_terminated: bool) -> char {
    if zero_terminated {
        '\0'
    } else {
        '\n'
    }
}

/// The lines of the input. What follows the last terminator is a line where it is not empty.
pub open spec fn input_lines(input: Seq<char>, end: char) -> Seq<Seq<char>> {
    let pieces = text::split(input, end);
    if pieces.last().len() == 0 {
        pieces.drop_last()
    } else {
        pieces
    }
}

/// How lines compare.
pub open spec fn comparison(o: SortView, num: number::Reader, keys_only: bool) -> spec_fn(
    Seq<char>,
    Seq<char>,
) -> Order {
    |a: Seq<char>, b: Seq<char>| line_order(a, b, o, num, keys_only)
}

/// The lines in order.
pub open spec fn sorted_lines(lines: Seq<Seq<char>>, o: SortView, num: number::Reader) -> Seq<
    Seq<char>,
> {
    order::sorted(lines, order::not_after(comparison(o, num, false)))
}

/// The first of each run of lines with equal keys.
pub open spec fn deduplicated(lines: Seq<Seq<char>>, o: SortView, num: number::Reader) -> Seq<
    Seq<char>,
>
    decreases lines.len(),
{
    if lines.len() == 0 {
        Seq::empty()
    } else {
        let before = deduplicated(lines.drop_last(), o, num);
        if before.len() > 0 && line_order(lines.last(), before.last(), o, num, true)
            == Order::Equal {
            before
        } else {
            before.push(lines.last())
        }
    }
}

/// Whether the keys of a line differ from those of the line before it.
pub open spec fn differs(lines: Seq<Seq<char>>, o: SortView, num: number::Reader, i: int) -> bool {
    line_order(lines[i], lines[i - 1], o, num, true) != Order::Equal
}

/// The lines that sorting writes.
pub open spec fn output_lines(lines: Seq<Seq<char>>, o: SortView, num: number::Reader) -> Seq<
    Seq<char>,
> {
    if o.unique {
        deduplicated(sorted_lines(lines, o, num), o, num)
    } else {
        sorted_lines(lines, o, num)
    }
}

/// What sorting makes of the input.
pub open spec fn sorted_text(input: Seq<char>, o: SortView, num: number::Reader) -> Seq<char> {
    let end = terminator(o.zero_terminated);
    text::ended(output_lines(input_lines(input, end), o, num), end)
}

/// The runs of lines with equal keys, each as a text.
pub open spec fn groups(
    lines: Seq<Seq<char>>,
    o: SortView,
    num: number::Reader,
    end: char,
) -> Seq<Seq<char>>
    decreases lines.len(),
{
    if lines.len() == 0 {
        Seq::empty()
    } else {
        let before = groups(lines.drop_last(), o, num, end);
        let line = lines.last().push(end);
        if lines.len() > 1 && !differs(lines, o, num, lines.len() - 1) {
            before.drop_last().push(before.last() + line)
        } else {
            before.push(line)
        }
    }
}

/// What random sorting makes of the input: lines with equal keys stay together, and what stays
/// together comes in random order.
pub open spec fn shuffled_text(
    input: Seq<char>,
    o: SortView,
    num: number::Reader,
    seed: u64,
) -> Seq<char> {
    let end = terminator(o.zero_terminated);
    text::concat(
        shuf::shuffled(groups(output_lines(input_lines(input, end), o, num), o, num, end), seed),
    )
}

fn sort_texts<N: Fn(&str, u32) -> Option<i64>>(
    lines: &Vec<String>,
    opts: &SortOptions,
    num: &N,
) -> (r: Vec<String>)
    requires
        number::is_reader(*num),
        valid_keys(opts.keys@),
    ensures
        r.deep_view() == sorted_lines(lines.deep_view(), opts@, number::reading(*num)),
{
    let ghost read = number::reading(*num);
    let ghost le = order::not_after(comparison(opts@, read, false));
    let ghost all = lines.deep_view();
    let mut out: Vec<String> = Vec::new();
    let mut i: usize = 0;
    assert(out.deep_view() =~= order::sorted(all.take(0), le));
    while i < lines.len()
        invariant
            i <= lines@.len(),
            number::is_reader(*num),
            valid_keys(opts.keys@),
            read == number::reading(*num),
            le == order::not_after(comparison(opts@, read, false)),
            all == lines.deep_view(),
            out.deep_view() == order::sorted(all.take(i as int), le),
        decreases lines.len() - i,
    {
        let line = lines[i].clone();
        let ghost shown = out.deep_view();
        let mut k: usize = out.len();
        while k > 0 && compare_lines_impl(out[k - 1].as_str(), line.as_str(), opts, num, false)
            == Order::Greater
            invariant
                k <= out@.len(),
                number::is_reader(*num),
                valid_keys(opts.keys@),
                read == number::reading(*num),
                le == order::not_after(comparison(opts@, read, false)),
                shown == out.deep_view(),
                forall|j: int| k <= j < out@.len() ==> !le(#[trigger] shown[j], line@),
            decreases k,
        {
            assert(!le(shown[k - 1], line@));
            k -= 1;
        }
        proof {
            if k > 0 {
                assert(le(shown[k - 1], line@));
            }
            order::lemma_placed_at(shown, line@, le, k as int);
            let t = all.take(i + 1);
            assert(t.drop_last() =~= all.take(i as int));
            assert(t.last() == line@);
        }
        out.insert(k, line);
        assert(out.deep_view() =~= shown.insert(k as int, line@));
        i += 1;
    }
    assert(all.take(i as int) =~= all);
    out
}

fn deduplicate<N: Fn(&str, u32) -> Option<i64>>(
    lines: &Vec<String>,
    opts: &SortOptions,
    num: &N,
) -> (r: Vec<String>)
    requires
        number::is_reader(*num),
        valid_keys(opts.keys@),
    ensures
        r.deep_view() == deduplicated(lines.deep_view(), opts@, number::reading(*num)),
{
    let ghost read = number::reading(*num);
    let ghost all = lines.deep_view();
    let mut out: Vec<String> = Vec::new();
    let mut i: usize = 0;
    assert(out.deep_view() =~= deduplicated(all.take(0), opts@, read));
    while i < lines.len()
        invariant
            i <= lines@.len(),
            number::is_reader(*num),
            valid_keys(opts.keys@),
            read == number::reading(*num),
            all == lines.deep_view(),
            out.deep_view() == deduplicated(all.take(i as int), opts@, read),
        decreases lines.len() - i,
    {
        let ghost shown = out.deep_view();
        assert(all.take(i + 1).drop_last() =~= all.take(i as int));
        let n: usize = out.len();
        let equal = n > 0 && compare_lines_impl(
            lines[i].as_str(),
            out[n - 1].as_str(),
            opts,
            num,
            true,
        ) == Order::Equal;
        if !equal {
            out.push(lines[i].clone());
            assert(out.deep_view() =~= shown.push(all[i as int]));
        }
        i += 1;
    }
    assert(all.take(i as int) =~= all);
    out
}

/// The lines of a text.
fn read_lines(input: &str, end: char) -> (r: Vec<String>)
    ensures
        r.deep_view() == input_lines(input@, end),
{
    let mut lines = text::split_at_char(input, end);
    let ghost pieces = lines.deep_view();
    proof {
        text::split_nonempty(input@, end);
        assert(pieces.len() == lines@.len());
    }
    let n: usize = lines.len();
    if lines[n - 1].as_str().is_empty() {
        lines.pop();
        assert(lines.deep_view() =~= pieces.drop_last());
    }
    lines
}

fn put_in_order<N: Fn(&str, u32) -> Option<i64>>(
    input: &str,
    end: char,
    opts: &SortOptions,
    num: &N,
) -> (r: Vec<String>)
    requires
        number::is_reader(*num),
        valid_keys(opts.keys@),
    ensures
        r.deep_view() == output_lines(
            input_lines(input@, end),
            opts@,
            number::reading(*num),
        ),
{
    let lines = read_lines(input, end);
    let sorted = sort_texts(&lines, opts, num);
    if opts.unique {
        deduplicate(&sorted, opts, num)
    } else {
        sorted
    }
}

/// Sorts the lines.
pub fn sort_lines<N: Fn(&str, u32) -> Option<i64>>(input: &str, opts: &SortOptions, num: &N) -> (r:
    String)
    requires
        number::is_reader(*num),
        valid_keys(opts.keys@),
    ensures
        r@ == sorted_text(input@, opts@, number::reading(*num)),
{
    let end = if opts.zero_terminated {
        '\0'
    } else {
        '\n'
    };
    let lines = put_in_order(input, end, opts, num);
    let mut out = String::new();
    text::add_ended(&mut out, &lines, end);
    assert(out@ =~= sorted_text(input@, opts@, number::reading(*num)));
    out
}

/// Puts the runs of lines with equal keys together.
fn group_lines<N: Fn(&str, u32) -> Option<i64>>(
    lines: &Vec<String>,
    opts: &SortOptions,
    num: &N,
    end: char,
) -> (r: Vec<String>)
    requires
        number::is_reader(*num),
        valid_keys(opts.keys@),
    ensures
        r.deep_view() == groups(lines.deep_view(), opts@, number::reading(*num), end),
{
    let ghost read = number::reading(*num);
    let ghost all = lines.deep_view();
    let mut out: Vec<String> = Vec::new();
    let mut i: usize = 0;
    assert(out.deep_view() =~= groups(all.take(0), opts@, read, end));
    while i < lines.len()
        invariant
            i <= lines@.len(),
            number::is_reader(*num),
            valid_keys(opts.keys@),
            read == number::reading(*num),
            all == lines.deep_view(),
            out.deep_view() == groups(all.take(i as int), opts@, read, end),
            i > 0 ==> out@.len() > 0,
        decreases lines.len() - i,
    {
        let ghost shown = out.deep_view();
        let ghost now = all.take(i + 1);
        assert(now.drop_last() =~= all.take(i as int));
        let mut line = lines[i].clone();
        line.push(end);
        let equal = i > 0 && compare_lines_impl(
            lines[i].as_str(),
            lines[i - 1].as_str(),
            opts,
            num,
            true,
        ) == Order::Equal;
        assert(i > 0 ==> equal == !differs(now, opts@, read, i as int));
        if equal {
            if let Some(last) = out.pop() {
                let mut last = last;
                let ghost before = out.deep_view();
                assert(before =~= shown.drop_last());
                last.append(line.as_str());
                out.push(last);
                assert(out.deep_view() =~= before.push(last@));
            }
        } else {
            out.push(line);
            assert(out.deep_view() =~= shown.push(line@));
        }
        i += 1;
    }
    assert(all.take(i as int) =~= all);
    out
}

/// Sorts the lines randomly, and keeps those with equal keys together.
pub fn shuffle_lines<N: Fn(&str, u32) -> Option<i64>>(
    input: &str,
    opts: &SortOptions,
    num: &N,
    seed: u64,
) -> (r: String)
    requires
        number::is_reader(*num),
        valid_keys(opts.keys@),
    ensures
        r@ == shuffled_text(input@, opts@, number::reading(*num), seed),
        ({
            let end = terminator(opts.zero_terminated);
            let lines = output_lines(input_lines(input@, end), opts@, number::reading(*num));
            exists|order: Seq<Seq<char>>|
                order.to_multiset() == groups(
                    lines,
                    opts@,
                    number::reading(*num),
                    end,
                ).to_multiset() && r@ == #[trigger] text::concat(order)
        }),
{
    let end = if opts.zero_terminated {
        '\0'
    } else {
        '\n'
    };
    let lines = put_in_order(input, end, opts, num);
    let together = group_lines(&lines, opts, num, end);
    let order = shuf::shuffle(together, seed);
    let ghost all = order.deep_view();
    let mut out = String::new();
    let mut i: usize = 0;
    while i < order.len()
        invariant
            i <= order@.len(),
            all == order.deep_view(),
            out@ == text::concat(all.take(i as int)),
        decreases order.len() - i,
    {
        assert(all.take(i + 1).drop_last() =~= all.take(i as int));
        out.append(order[i].as_str());
        i += 1;
    }
    assert(all.take(i as int) =~= all);
    out
}

/// Whether a line may not follow the one before it.
pub open spec fn disorder(a: Seq<char>, b: Seq<char>, o: SortView, num: number::Reader) -> bool {
    if o.unique {
        line_order(a, b, o, num, false) != Order::Less
    } else {
        line_order(a, b, o, num, false) == Order::Greater
    }
}

/// The index of the first line from `i` on that may not follow the one before it; the number of
/// lines where there is none.
pub open spec fn first_disorder(
    lines: Seq<Seq<char>>,
    o: SortView,
    num: number::Reader,
    i: int,
) -> int
    decreases lines.len() - i,
{
    if i < 1 || i >= lines.len() {
        lines.len() as int
    } else if disorder(lines[i - 1], lines[i], o, num) {
        i
    } else {
        first_disorder(lines, o, num, i + 1)
    }
}

/// What checking the input comes to.
pub open spec fn checked<FS>(
    v: env::EnvView<FS>,
    input: Seq<char>,
    o: SortView,
    silent: bool,
    num: number::Reader,
) -> (env::EnvView<FS>, Result<int, env::ErrorView>) {
    let lines = input_lines(input, terminator(o.zero_terminated));
    let i = first_disorder(lines, o, num, 1);
    if i >= lines.len() {
        (v, Ok(0))
    } else if silent {
        (v, Ok(1))
    } else {
        (
            v.error_line(
                "sort: -:"@ + text::decimal((i + 1) as nat) + ":1: disorder: "@ + lines[i],
            ),
            Ok(1),
        )
    }
}

/// Checks if input is sorted.
pub fn check_sorted<FS, N: Fn(&str, u32) -> Option<i64>>(
    env: &mut Environment<FS>,
    input: &str,
    opts: &SortOptions,
    silent: bool,
    num: &N,
) -> (r: Result<ExitCode, Error>)
    requires
        number::is_reader(*num),
        valid_keys(opts.keys@),
    ensures
        (final(env)@, env::outcome(r)) == checked(
            old(env)@,
            input@,
            opts@,
            silent,
            number::reading(*num),
        ),
{
    let end = if opts.zero_terminated {
        '\0'
    } else {
        '\n'
    };
    let lines = read_lines(input, end);
    let ghost read = number::reading(*num);
    let ghost all = lines.deep_view();
    let mut i: usize = 1;
    while i < lines.len()
        invariant
            1 <= i,
            number::is_reader(*num),
            valid_keys(opts.keys@),
            read == number::reading(*num),
            all == lines.deep_view(),
            all == input_lines(input@, terminator(opts.zero_terminated)),
            first_disorder(all, opts@, read, i as int) == first_disorder(all, opts@, read, 1),
            *env == *old(env),
        decreases lines.len() - i,
    {
        let o = compare_lines_impl(lines[i - 1].as_str(), lines[i].as_str(), opts, num, false);
        let bad = if opts.unique {
            o != Order::Less
        } else {
            o == Order::Greater
        };
        if bad {
            if !silent {
                let mut m = "sort: -:".to_owned();
                let d = text::to_decimal((i + 1) as u64);
                m.append(d.as_str());
                m.append(":1: disorder: ");
                m.append(lines[i].as_str());
                env.error_line(m.as_str());
            }
            return Ok(ExitCode::new(1));
        }
        i += 1;
    }
    Ok(ExitCode::new(0))
}

// ---------------------------------------------------------------------------------------------
// The command
// ---------------------------------------------------------------------------------------------

/// What reading the files from `i` on adds to `contents`.
pub open spec fn files_read<FS: Filesystem>(
    v: env::EnvView<FS>,
    files: Seq<Seq<char>>,
    i: int,
    zero_terminated: bool,
    contents: Seq<char>,
) -> (env::EnvView<FS>, Seq<char>)
    decreases files.len() - i,
{
    if i < 0 || i >= files.len() {
        (v, contents)
    } else if files[i] == "-"@ {
        files_read(
            v.drained(),
            files,
            i + 1,
            zero_terminated,
            contents + text::ended(v.stdin, terminator(zero_terminated)),
        )
    } else {
        let w = v.with_fs(v.fs.after(fs::Request::Read(files[i])));
        match v.fs.reads(files[i]) {
            Ok(t) => files_read(
                w,
                files,
                i + 1,
                zero_terminated,
                if !text::ends_with(t, "\n"@) && !zero_terminated {
                    (contents + t).push('\n')
                } else {
                    contents + t
                },
            ),
            Err(e) => files_read(
                w.error_line("sort: "@ + files[i] + ": "@ + e.message),
                files,
                i + 1,
                zero_terminated,
                contents,
            ),
        }
    }
}

/// What reading the input comes to: the files one after another, or standard input where there
/// are none.
pub open spec fn input_read<FS: Filesystem>(
    v: env::EnvView<FS>,
    files: Seq<Seq<char>>,
    zero_terminated: bool,
) -> (env::EnvView<FS>, Seq<char>) {
    if files.len() == 0 {
        (v.drained(), text::ended(v.stdin, terminator(zero_terminated)))
    } else {
        files_read(v, files, 0, zero_terminated, Seq::empty())
    }
}

fn add_stdin<FS>(env: &mut Environment<FS>, contents: &mut String, zero_terminated: bool)
    ensures
        final(env)@ == old(env)@.drained(),
        final(contents)@ == old(contents)@ + text::ended(
            old(env)@.stdin,
            terminator(zero_terminated),
        ),
{
    let lines = env.stdin.read_all();
    text::add_ended(contents, &lines, if zero_terminated {
        '\0'
    } else {
        '\n'
    });
}

/// Reads input from files or stdin.
pub fn read_input<FS: Filesystem>(
    env: &mut Environment<FS>,
    files: &Vec<String>,
    zero_terminated: bool,
) -> (r: String)
    ensures
        (final(env)@, r@) == input_read(old(env)@, files.deep_view(), zero_terminated),
{
    let mut contents = String::new();
    if files.len() == 0 {
        add_stdin(env, &mut contents, zero_terminated);
        assert(contents@ =~= text::ended(old(env)@.stdin, terminator(zero_terminated)));
        return contents;
    }
    let ghost all = files.deep_view();
    let mut i: usize = 0;
    while i < files.len()
        invariant
            i <= files@.len(),
            all == files.deep_view(),
            files_read(env@, all, i as int, zero_terminated, contents@) == files_read(
                old(env)@,
                all,
                0,
                zero_terminated,
                Seq::empty(),
            ),
        decreases files.len() - i,
    {
        let file = files[i].clone();
        if text::same(file.as_str(), "-") {
            add_stdin(env, &mut contents, zero_terminated);
        } else {
            match env.fs.read_to_string(file.as_str()) {
                Ok(t) => {
                    contents.append(t.as_str());
                    if !text::has_suffix(t.as_str(), "\n") && !zero_terminated {
                        contents.push('\n');
                    }
                },
                Err(FsError::Io(e)) => {
                    let mut m = "sort: ".to_owned();
                    m.append(file.as_str());
                    m.append(": ");
                    m.append(e.message.as_str());
                    env.error_line(m.as_str());
                },
            }
        }
        i += 1;
    }
    contents
}

pub const HELP: &'static str =
    "Usage: sort [OPTION]... [FILE]...\nWrite sorted concatenation of all FILE(s) to standard output.\n";

/// The options of the command.
pub open spec fn table() -> Seq<OptDef> {
    seq![
        OptDef { short: 'b', long: "ignore-leading-blanks", arity: Arity::Flag },
        OptDef { short: 'd', long: "dictionary-order", arity: Arity::Flag },
        OptDef { short: 'f', long: "ignore-case", arity: Arity::Flag },
        OptDef { short: 'g', long: "general-numeric-sort", arity: Arity::Flag },
        OptDef { short: 'h', long: "human-numeric-sort", arity: Arity::Flag },
        OptDef { short: 'i', long: "ignore-nonprinting", arity: Arity::Flag },
        OptDef { short: 'M', long: "month-sort", arity: Arity::Flag },
        OptDef { short: 'n', long: "numeric-sort", arity: Arity::Flag },
        OptDef { short: 'R', long: "random-sort", arity: Arity::Flag },
        OptDef { short: 'r', long: "reverse", arity: Arity::Flag },
        OptDef { short: 'V', long: "version-sort", arity: Arity::Flag },
        OptDef { short: 'c', long: "check", arity: Arity::Flag },
        OptDef { short: 'C', long: "check=silent", arity: Arity::Flag },
        OptDef { short: 'k', long: "key", arity: Arity::Values },
        OptDef { short: 'm', long: "merge", arity: Arity::Flag },
        OptDef { short: 'o', long: "output", arity: Arity::Value },
        OptDef { short: 's', long: "stable", arity: Arity::Flag },
        OptDef { short: 't', long: "field-separator", arity: Arity::Value },
        OptDef { short: 'u', long: "unique", arity: Arity::Flag },
        OptDef { short: 'z', long: "zero-terminated", arity: Arity::Flag },
        OptDef { short: '\0', long: "help", arity: Arity::Flag },
        OptDef { short: '\0', long: "version", arity: Arity::Flag },
    ]
}

fn build_options() -> (r: Vec<OptDef>)
    ensures
        r@ == table(),
        options::all_declarable(options::definitions(r@)),
{
    let r = vec![
        OptDef { short: 'b', long: "ignore-leading-blanks", arity: Arity::Flag },
        OptDef { short: 'd', long: "dictionary-order", arity: Arity::Flag },
        OptDef { short: 'f', long: "ignore-case", arity: Arity::Flag },
        OptDef { short: 'g', long: "general-numeric-sort", arity: Arity::Flag },
        OptDef { short: 'h', long: "human-numeric-sort", arity: Arity::Flag },
        OptDef { short: 'i', long: "ignore-nonprinting", arity: Arity::Flag },
        OptDef { short: 'M', long: "month-sort", arity: Arity::Flag },
        OptDef { short: 'n', long: "numeric-sort", arity: Arity::Flag },
        OptDef { short: 'R', long: "random-sort", arity: Arity::Flag },
        OptDef { short: 'r', long: "reverse", arity: Arity::Flag },
        OptDef { short: 'V', long: "version-sort", arity: Arity::Flag },
        OptDef { short: 'c', long: "check", arity: Arity::Flag },
        OptDef { short: 'C', long: "check=silent", arity: Arity::Flag },
        OptDef { short: 'k', long: "key", arity: Arity::Values },
        OptDef { short: 'm', long: "merge", arity: Arity::Flag },
        OptDef { short: 'o', long: "output", arity: Arity::Value },
        OptDef { short: 's', long: "stable", arity: Arity::Flag },
        OptDef { short: 't', long: "field-separator", arity: Arity::Value },
        OptDef { short: 'u', long: "unique", arity: Arity::Flag },
        OptDef { short: 'z', long: "zero-terminated", arity: Arity::Flag },
        OptDef { short: '\0', long: "help", arity: Arity::Flag },
        OptDef { short: '\0', long: "version", arity: Arity::Flag },
    ];
    proof {
        reveal_strlit("ignore-leading-blanks");
        reveal_strlit("dictionary-order");
        reveal_strlit("ignore-case");
        reveal_strlit("general-numeric-sort");
        reveal_strlit("human-numeric-sort");
        reveal_strlit("ignore-nonprinting");
        reveal_strlit("month-sort");
        reveal_strlit("numeric-sort");
        reveal_strlit("random-sort");
        reveal_strlit("reverse");
        reveal_strlit("version-sort");
        reveal_strlit("check");
        reveal_strlit("check=silent");
        reveal_strlit("key");
        reveal_strlit("merge");
        reveal_strlit("output");
        reveal_strlit("stable");
        reveal_strlit("field-separator");
        reveal_strlit("unique");
        reveal_strlit("zero-terminated");
        reveal_strlit("help");
        reveal_strlit("version");
    }
    r
}

/// The modifiers that flags give.
pub open spec fn global(p: options::ParsedView) -> KeyModifiers {
    KeyModifiers {
        ignore_leading_blanks: p.present('b'),
        dictionary_order: p.present('d'),
        ignore_case: p.present('f'),
        ignore_nonprinting: p.present('i'),
        numeric: p.present('n'),
        general_numeric: p.present('g'),
        human_numeric: p.present('h'),
        month: p.present('M'),
        reverse: p.present('r'),
        version: p.present('V'),
    }
}

/// The keys that the specifications from `i` on give behind those already read; or the words of
/// the first error.
pub open spec fn keys_read(
    specs: Seq<Seq<char>>,
    global: KeyModifiers,
    i: int,
    done: Seq<KeySpec>,
) -> Result<Seq<KeySpec>, Seq<char>>
    decreases specs.len() - i,
{
    if i < 0 || i >= specs.len() {
        Ok(done)
    } else {
        match key_spec(specs[i], global) {
            Ok(k) => keys_read(specs, global, i + 1, done.push(k)),
            Err(e) => Err(e),
        }
    }
}

/// The settings that a command line gives; or the words of the error.
pub open spec fn settings(p: options::ParsedView) -> Result<SortView, Seq<char>> {
    match keys_read(p.values('k'), global(p), 0, Seq::empty()) {
        Err(e) => Err(e),
        Ok(keys) => if p.value('t') == Some(Seq::<char>::empty()) {
            Err("empty field separator"@)
        } else {
            Ok(
                SortView {
                    global: global(p),
                    keys,
                    separator: match p.value('t') {
                        Some(s) => Some(s[0]),
                        None => None,
                    },
                    unique: p.present('u'),
                    stable: p.present('s'),
                    zero_terminated: p.present('z'),
                },
            )
        },
    }
}

/// What the command does once its settings are known.
pub open spec fn performed<FS: Filesystem>(
    v: env::EnvView<FS>,
    p: options::ParsedView,
    o: SortView,
    num: number::Reader,
) -> (env::EnvView<FS>, Result<int, env::ErrorView>) {
    let (w, input) = input_read(v, p.free, o.zero_terminated);
    if p.present('c') || p.present('C') {
        checked(w, input, o, p.present('C'), num)
    } else {
        let (out, seed) = if p.present('R') {
            (shuffled_text(input, o, num, w.seed), shuf::following(w.seed))
        } else {
            (sorted_text(input, o, num), w.seed)
        };
        let y = shuf::reseeded(w, seed);
        match p.value('o') {
            None => (y.write(out), Ok(0)),
            Some(file) => {
                let x = y.with_fs(w.fs.after(fs::Request::Write(file, out)));
                match w.fs.writes(file, out) {
                    Ok(_) => (x, Ok(0)),
                    Err(e) => (
                        x.error_line("sort: "@ + file + ": "@ + fs::described(e)),
                        Ok(2),
                    ),
                }
            },
        }
    }
}

/// What the command does once its options are known.
pub open spec fn ran<FS: Filesystem>(
    v: env::EnvView<FS>,
    p: options::ParsedView,
    num: number::Reader,
) -> (env::EnvView<FS>, Result<int, env::ErrorView>) {
    if p.present_long("help"@) {
        (v.write(HELP@), Ok(0))
    } else if p.present_long("version"@) {
        (v.write_line("sort (eudaemonsh) 1.0"@), Ok(0))
    } else {
        match settings(p) {
            Err(e) => (v.error_line("sort: "@ + e), Ok(2)),
            Ok(o) => performed(v, p, o, num),
        }
    }
}

/// What the command does.
pub open spec fn spec_bin<FS: Filesystem>(v: env::EnvView<FS>, num: number::Reader) -> (
    env::EnvView<FS>,
    Result<int, env::ErrorView>,
) {
    match options::parsed(table(), v.args.skip(1)) {
        Ok(p) => ran(v, p, num),
        Err(message) => (v.error_line("sort: "@ + message), Ok(2)),
    }
}

fn read_keys(specs: &Vec<String>, global_mods: &KeyModifiers) -> (r: Result<Vec<KeySpec>, String>)
    ensures
        match r {
            Ok(keys) => keys_read(specs.deep_view(), *global_mods, 0, Seq::empty()) == Ok::<
                Seq<KeySpec>,
                Seq<char>,
            >(keys@) && valid_keys(keys@),
            Err(e) => keys_read(specs.deep_view(), *global_mods, 0, Seq::empty()) == Err::<
                Seq<KeySpec>,
                Seq<char>,
            >(e@),
        },
{
    let mut keys: Vec<KeySpec> = Vec::new();
    let ghost all = specs.deep_view();
    let mut i: usize = 0;
    while i < specs.len()
        invariant
            i <= specs@.len(),
            all == specs.deep_view(),
            valid_keys(keys@),
            keys_read(all, *global_mods, i as int, keys@) == keys_read(
                all,
                *global_mods,
                0,
                Seq::empty(),
            ),
        decreases specs.len() - i,
    {
        match parse_key_spec(specs[i].as_str(), global_mods) {
            Ok(k) => {
                keys.push(k);
            },
            Err(e) => {
                return Err(e);
            },
        }
        i += 1;
    }
    Ok(keys)
}

/// Reads the settings from a command line.
pub fn read_settings(p: &Parsed) -> (r: Result<SortOptions, String>)
    ensures
        match r {
            Ok(o) => settings(p@) == Ok::<SortView, Seq<char>>(o@) && valid_keys(o.keys@),
            Err(e) => settings(p@) == Err::<SortView, Seq<char>>(e@),
        },
{
    let global_modifiers = KeyModifiers {
        ignore_leading_blanks: p.present('b'),
        dictionary_order: p.present('d'),
        ignore_case: p.present('f'),
        ignore_nonprinting: p.present('i'),
        numeric: p.present('n'),
        general_numeric: p.present('g'),
        human_numeric: p.present('h'),
        month: p.present('M'),
        reverse: p.present('r'),
        version: p.present('V'),
    };
    let specs = p.values('k');
    let keys = match read_keys(&specs, &global_modifiers) {
        Ok(k) => k,
        Err(e) => {
            return Err(e);
        },
    };
    let field_separator: Option<char> = match p.value('t') {
        Some(s) => {
            let v = text::chars(s.as_str());
            if v.len() == 0 {
                assert(s@ =~= Seq::<char>::empty());
                return Err("empty field separator".to_owned());
            }
            Some(v[0])
        },
        None => None,
    };
    Ok(
        SortOptions {
            global_modifiers,
            keys,
            field_separator,
            unique: p.present('u'),
            stable: p.present('s'),
            zero_terminated: p.present('z'),
        },
    )
}

fn perform<FS: Filesystem, N: Fn(&str, u32) -> Option<i64>>(
    env: &mut Environment<FS>,
    p: &Parsed,
    opts: &SortOptions,
    num: &N,
) -> (r: Result<ExitCode, Error>)
    requires
        number::is_reader(*num),
        valid_keys(opts.keys@),
    ensures
        (final(env)@, env::outcome(r)) == performed(
            old(env)@,
            p@,
            opts@,
            number::reading(*num),
        ),
{
    let input = read_input(env, &p.free, opts.zero_terminated);
    let silent = p.present('C');
    if p.present('c') || silent {
        return check_sorted(env, input.as_str(), opts, silent, num);
    }
    let out = if p.present('R') {
        let seed = env.seed;
        env.seed = shuf::next_seed(seed);
        shuffle_lines(input.as_str(), opts, num, seed)
    } else {
        sort_lines(input.as_str(), opts, num)
    };
    match p.value('o') {
        None => {
            env.write_str(out.as_str());
            Ok(ExitCode::new(0))
        },
        Some(file) => match env.fs.write_string(file.as_str(), out.as_str()) {
            Ok(_) => Ok(ExitCode::new(0)),
            Err(e) => {
                let mut m = "sort: ".to_owned();
                m.append(file.as_str());
                m.append(": ");
                let details = fs::fs_error_details(&e);
                m.append(details.as_str());
                env.error_line(m.as_str());
                Ok(ExitCode::new(2))
            },
        },
    }
}

/// Sorts with the options that a command line gave.
pub fn run<FS: Filesystem, N: Fn(&str, u32) -> Option<i64>>(
    env: &mut Environment<FS>,
    p: &Parsed,
    num: &N,
) -> (r: Result<ExitCode, Error>)
    requires
        number::is_reader(*num),
    ensures
        (final(env)@, env::outcome(r)) == ran(old(env)@, p@, number::reading(*num)),
{
    if p.present_long("help") {
        env.write_str(HELP);
        return Ok(ExitCode::new(0));
    }
    if p.present_long("version") {
        env.write_line("sort (eudaemonsh) 1.0");
        return Ok(ExitCode::new(0));
    }
    match read_settings(p) {
        Err(e) => {
            let mut m = "sort: ".to_owned();
            m.append(e.as_str());
            env.error_line(m.as_str());
            Ok(ExitCode::new(2))
        },
        Ok(opts) => perform(env, p, &opts, num),
    }
}

/// The sort builtin: sort lines of text files. `num` tells where the numbers of numeric keys
/// stand.
pub fn bin<FS: Filesystem, N: Fn(&str, u32) -> Option<i64>>(
    env: &mut Environment<FS>,
    num: &N,
) -> (r: Result<ExitCode, Error>)
    requires
        old(env)@.args.len() > 0,
        number::is_reader(*num),
    ensures
        (final(env)@, env::outcome(r)) == spec_bin(old(env)@, number::reading(*num)),
{
    let opts = build_options();
    match options::parse(&opts, &env.args) {
        Ok(p) => run(env, &p, num),
        Err(e) => {
            let mut m = "sort: ".to_owned();
            m.append(e.as_str());
            env.error_line(m.as_str());
            Ok(ExitCode::new(2))
        },
    }
}

// ---------------------------------------------------------------------------------------------
// Laws
// ---------------------------------------------------------------------------------------------

proof fn lemma_version_reverse(a: Seq<char>, b: Seq<char>)
    ensures
        version_order(b, a) == version_order(a, b).spec_reverse(),
    decreases a.len(),
{
    if a.len() > 0 && b.len() > 0 && text::is_digit(a[0]) && text::is_digit(b[0]) {
        digits_end_bounds(a, 1);
        digits_end_bounds(b, 1);
        lemma_version_reverse(a.skip(digits_end(a, 0)), b.skip(digits_end(b, 0)));
    } else if a.len() > 0 && b.len() > 0 && a[0] == b[0] {
        lemma_version_reverse(a.skip(1), b.skip(1));
    }
}

proof fn lemma_version_transitive(a: Seq<char>, b: Seq<char>, c: Seq<char>)
    requires
        version_order(a, b) != Order::Greater,
        version_order(b, c) != Order::Greater,
    ensures
        version_order(a, c) != Order::Greater,
        version_order(a, c) == Order::Equal ==> version_order(a, b) == Order::Equal
            && version_order(b, c) == Order::Equal,
    decreases a.len(),
{
    if a.len() > 0 && b.len() > 0 && c.len() > 0 {
        let da = text::is_digit(a[0]);
        let db = text::is_digit(b[0]);
        let dc = text::is_digit(c[0]);
        if da && db && dc {
            digits_end_bounds(a, 1);
            digits_end_bounds(b, 1);
            digits_end_bounds(c, 1);
            let i = digits_end(a, 0);
            let j = digits_end(b, 0);
            let k = digits_end(c, 0);
            if run_value(a.take(i)) == run_value(b.take(j)) && run_value(b.take(j)) == run_value(
                c.take(k),
            ) && i == j && j == k {
                lemma_version_transitive(a.skip(i), b.skip(j), c.skip(k));
            }
        } else if a[0] == b[0] && b[0] == c[0] {
            lemma_version_transitive(a.skip(1), b.skip(1), c.skip(1));
        }
    }
}

pub open spec fn version_comparison() -> spec_fn(Seq<char>, Seq<char>) -> Order {
    |a: Seq<char>, b: Seq<char>| version_order(a, b)
}

/// The comparison of versions is consistent.
pub proof fn lemma_version_consistent()
    ensures
        order::consistent(version_comparison()),
{
    let r = version_comparison();
    assert forall|a: Seq<char>, b: Seq<char>| #[trigger] r(b, a) == r(a, b).spec_reverse() by {
        lemma_version_reverse(a, b);
    }
    assert forall|a: Seq<char>, b: Seq<char>, c: Seq<char>| #[trigger]
        r(a, b) != Order::Greater && #[trigger] r(b, c) != Order::Greater implies r(a, c)
        != Order::Greater && (r(a, c) == Order::Equal ==> r(a, b) == Order::Equal && r(b, c)
        == Order::Equal) by {
        lemma_version_transitive(a, b, c);
    }
}

/// Whether a key has a place among the numbers, where it is one by which numbers are compared.
pub open spec fn key_placed(key: Seq<char>, m: KeyModifiers, num: number::Reader) -> bool {
    if m.numeric || m.general_numeric {
        num(text::trim(key), 0) is Some
    } else if m.human_numeric {
        num(human(key).0, human(key).1) is Some
    } else {
        true
    }
}

/// Whether all keys of a line have places, as far as they are compared as numbers. A line that is
/// not compared by numbers needs none.
pub open spec fn line_placed(line: Seq<char>, o: SortView, num: number::Reader) -> bool {
    if o.keys.len() == 0 {
        key_placed(modified(line, o.global), o.global, num)
    } else {
        forall|i: int|
            0 <= i < o.keys.len() ==> key_placed(
                modified(key_of(line, #[trigger] o.keys[i], o.separator), o.keys[i].modifiers),
                o.keys[i].modifiers,
                num,
            )
    }
}

pub open spec fn lines_placed(lines: Seq<Seq<char>>, o: SortView, num: number::Reader) -> bool {
    forall|i: int| 0 <= i < lines.len() ==> line_placed(#[trigger] lines[i], o, num)
}

/// A reader with a place for every text: that of `num`, or 0 where it gives none.
spec fn filled(num: number::Reader) -> number::Reader {
    |t: Seq<char>, p: u32|
        match num(t, p) {
            Some(n) => Some(n),
            None => Some(0i64),
        }
}

spec fn all_placed(num: number::Reader) -> bool {
    forall|t: Seq<char>, p: u32| (#[trigger] num(t, p)) is Some
}

spec fn key_comparison(m: KeyModifiers, num: number::Reader) -> spec_fn(
    Seq<char>,
    Seq<char>,
) -> Order {
    |a: Seq<char>, b: Seq<char>| key_order(a, b, m, num)
}

proof fn lemma_all_keys_consistent(m: KeyModifiers, num: number::Reader)
    requires
        all_placed(num),
    ensures
        order::consistent(key_comparison(m, num)),
{
    let r = key_comparison(m, num);
    if m.numeric || m.general_numeric || m.human_numeric || m.month {
    } else if m.version {
        lemma_version_consistent();
        assert(r =~= version_comparison());
    } else {
        order::lemma_text_consistent();
        assert(r =~= order::text_comparison());
    }
}

spec fn keys_comparison(o: SortView, num: number::Reader, keys_only: bool, i: int) -> spec_fn(
    Seq<char>,
    Seq<char>,
) -> Order {
    |a: Seq<char>, b: Seq<char>|
        by_keys(
            a,
            b,
            o.keys,
            o.separator,
            num,
            if o.stable || keys_only {
                Order::Equal
            } else {
                order::text_order(a, b)
            },
            i,
        )
}

proof fn lemma_by_keys_consistent(o: SortView, num: number::Reader, keys_only: bool, i: int)
    requires
        all_placed(num),
        0 <= i <= o.keys.len(),
    ensures
        order::consistent(keys_comparison(o, num, keys_only, i)),
    decreases o.keys.len() - i,
{
    let r = keys_comparison(o, num, keys_only, i);
    if i == o.keys.len() {
        order::lemma_text_consistent();
        if !(o.stable || keys_only) {
            assert(r =~= order::text_comparison());
        }
    } else {
        lemma_by_keys_consistent(o, num, keys_only, i + 1);
        let key = o.keys[i];
        let m = key.modifiers;
        lemma_all_keys_consistent(m, num);
        let f = |line: Seq<char>| modified(key_of(line, key, o.separator), m);
        let k = key_comparison(m, num);
        order::lemma_compared_by_consistent(k, f);
        let one = order::compared_by(k, f);
        order::lemma_reversed_consistent(one);
        let turned = if m.reverse {
            order::reversed(one)
        } else {
            one
        };
        let rest = keys_comparison(o, num, keys_only, i + 1);
        order::lemma_first_then_consistent(turned, rest);
        assert(r =~= order::first_then(turned, rest));
    }
}

proof fn lemma_all_lines_consistent(o: SortView, num: number::Reader, keys_only: bool)
    requires
        all_placed(num),
    ensures
        order::consistent(comparison(o, num, keys_only)),
{
    let r = comparison(o, num, keys_only);
    if o.keys.len() == 0 {
        let m = o.global;
        lemma_all_keys_consistent(m, num);
        let f = |line: Seq<char>| modified(line, m);
        let k = key_comparison(m, num);
        order::lemma_compared_by_consistent(k, f);
        let one = order::compared_by(k, f);
        order::lemma_reversed_consistent(one);
        if m.reverse {
            assert(r =~= order::reversed(one));
        } else {
            assert(r =~= one);
        }
    } else {
        lemma_by_keys_consistent(o, num, keys_only, 0);
        assert(r =~= keys_comparison(o, num, keys_only, 0));
    }
}

proof fn lemma_by_keys_filled(
    a: Seq<char>,
    b: Seq<char>,
    o: SortView,
    num: number::Reader,
    rest: Order,
    i: int,
)
    requires
        o.keys.len() > 0,
        line_placed(a, o, num),
        line_placed(b, o, num),
    ensures
        by_keys(a, b, o.keys, o.separator, num, rest, i) == by_keys(
            a,
            b,
            o.keys,
            o.separator,
            filled(num),
            rest,
            i,
        ),
    decreases o.keys.len() - i,
{
    if 0 <= i < o.keys.len() {
        let key = o.keys[i];
        assert(key_placed(
            modified(key_of(a, key, o.separator), key.modifiers),
            key.modifiers,
            num,
        ));
        assert(key_placed(
            modified(key_of(b, key, o.separator), key.modifiers),
            key.modifiers,
            num,
        ));
        assert(by_key(a, b, key, o.separator, num) == by_key(a, b, key, o.separator, filled(num)));
        lemma_by_keys_filled(a, b, o, num, rest, i + 1);
    }
}

proof fn lemma_line_filled(
    a: Seq<char>,
    b: Seq<char>,
    o: SortView,
    num: number::Reader,
    keys_only: bool,
)
    requires
        line_placed(a, o, num),
        line_placed(b, o, num),
    ensures
        line_order(a, b, o, num, keys_only) == line_order(a, b, o, filled(num), keys_only),
{
    if o.keys.len() > 0 {
        let rest = if o.stable || keys_only {
            Order::Equal
        } else {
            order::text_order(a, b)
        };
        lemma_by_keys_filled(a, b, o, num, rest, 0);
    }
}

/// The comparison of lines whose keys have places is consistent: the other way round it gives the
/// reverse, and it goes on through a third line.
pub proof fn lemma_lines_consistent(
    a: Seq<char>,
    b: Seq<char>,
    c: Seq<char>,
    o: SortView,
    num: number::Reader,
    keys_only: bool,
)
    requires
        line_placed(a, o, num),
        line_placed(b, o, num),
        line_placed(c, o, num),
    ensures
        line_order(b, a, o, num, keys_only) == line_order(a, b, o, num, keys_only).spec_reverse(),
        line_order(a, b, o, num, keys_only) != Order::Greater && line_order(b, c, o, num, keys_only)
            != Order::Greater ==> line_order(a, c, o, num, keys_only) != Order::Greater && (
        line_order(a, c, o, num, keys_only) == Order::Equal ==> line_order(a, b, o, num, keys_only)
            == Order::Equal && line_order(b, c, o, num, keys_only) == Order::Equal),
{
    let r = comparison(o, filled(num), keys_only);
    lemma_all_lines_consistent(o, filled(num), keys_only);
    lemma_line_filled(a, b, o, num, keys_only);
    lemma_line_filled(b, a, o, num, keys_only);
    lemma_line_filled(b, c, o, num, keys_only);
    lemma_line_filled(a, c, o, num, keys_only);
    assert(r(b, a) == r(a, b).spec_reverse());
    assert(r(a, b) == line_order(a, b, o, num, keys_only));
    assert(r(b, c) == line_order(b, c, o, num, keys_only));
    assert(r(a, c) == line_order(a, c, o, num, keys_only));
}

/// Sorting gives the same lines, each as often as before.
pub proof fn lemma_sort_keeps_lines(lines: Seq<Seq<char>>, o: SortView, num: number::Reader)
    ensures
        sorted_lines(lines, o, num).to_multiset() == lines.to_multiset(),
        sorted_lines(lines, o, num).len() == lines.len(),
{
    order::lemma_sorted_multiset(lines, order::not_after(comparison(o, num, false)));
}

proof fn lemma_sorted_in_order(lines: Seq<Seq<char>>, o: SortView, num: number::Reader)
    requires
        lines_placed(lines, o, num),
    ensures
        lines_placed(sorted_lines(lines, o, num), o, num),
        order::in_order(
            sorted_lines(lines, o, num),
            order::not_after(comparison(o, num, false)),
        ),
{
    let c = comparison(o, num, false);
    let d = comparison(o, filled(num), false);
    let le = order::not_after(c);
    let other = order::not_after(d);
    let p = |line: Seq<char>| line_placed(line, o, num);
    assert forall|i: int| 0 <= i < lines.len() implies p(#[trigger] lines[i]) by {
        assert(line_placed(lines[i], o, num));
    }
    assert forall|a: Seq<char>, b: Seq<char>| p(a) && p(b) implies #[trigger] le(a, b) == other(
        a,
        b,
    ) by {
        lemma_line_filled(a, b, o, num, false);
    }
    lemma_all_lines_consistent(o, filled(num), false);
    order::lemma_consistent_total(d);
    order::lemma_sorted(lines, other);
    order::lemma_sorted_agree(lines, le, other, p);
    order::lemma_sorted_all(lines, le, p);
    let r = sorted_lines(lines, o, num);
    assert forall|i: int| 0 <= i < r.len() implies line_placed(#[trigger] r[i], o, num) by {
        assert(p(r[i]));
    }
    assert forall|i: int, j: int| 0 <= i < j < r.len() implies le(
        #[trigger] r[i],
        #[trigger] r[j],
    ) by {
        assert(other(r[i], r[j]));
        assert(p(r[i]) && p(r[j]));
    }
}

/// Sorting brings lines into order: no line stands before one that it may not precede.
pub proof fn lemma_sort_orders_lines(lines: Seq<Seq<char>>, o: SortView, num: number::Reader)
    requires
        lines_placed(lines, o, num),
    ensures
        forall|i: int, j: int|
            0 <= i < j < lines.len() ==> line_order(
                #[trigger] sorted_lines(lines, o, num)[i],
                #[trigger] sorted_lines(lines, o, num)[j],
                o,
                num,
                false,
            ) != Order::Greater,
{
    lemma_sorted_in_order(lines, o, num);
    lemma_sort_keeps_lines(lines, o, num);
    let r = sorted_lines(lines, o, num);
    let le = order::not_after(comparison(o, num, false));
    assert forall|i: int, j: int| 0 <= i < j < lines.len() implies line_order(
        #[trigger] r[i],
        #[trigger] r[j],
        o,
        num,
        false,
    ) != Order::Greater by {
        assert(le(r[i], r[j]));
    }
}

/// With -u no two neighbours in the output have equal keys.
pub proof fn lemma_unique_neighbours_differ(lines: Seq<Seq<char>>, o: SortView, num: number::Reader)
    ensures
        forall|i: int|
            0 < i < deduplicated(lines, o, num).len() ==> #[trigger] differs(
                deduplicated(lines, o, num),
                o,
                num,
                i,
            ),
    decreases lines.len(),
{
    if lines.len() > 0 {
        let t = lines.drop_last();
        lemma_unique_neighbours_differ(t, o, num);
        let n = deduplicated(t, o, num);
        let r = deduplicated(lines, o, num);
        assert forall|i: int| 0 < i < r.len() implies #[trigger] differs(r, o, num, i) by {
            if i < n.len() {
                assert(differs(n, o, num, i));
            }
        }
    }
}

proof fn lemma_deduplicated_within(lines: Seq<Seq<char>>, o: SortView, num: number::Reader)
    ensures
        forall|i: int|
            0 <= i < deduplicated(lines, o, num).len() ==> exists|k: int|
                0 <= k < lines.len() && lines[k] == #[trigger] deduplicated(lines, o, num)[i],
    decreases lines.len(),
{
    if lines.len() > 0 {
        let t = lines.drop_last();
        lemma_deduplicated_within(t, o, num);
        let r = deduplicated(lines, o, num);
        assert forall|i: int| 0 <= i < r.len() implies exists|k: int|
            0 <= k < lines.len() && lines[k] == #[trigger] r[i] by {
            let n = deduplicated(t, o, num);
            if i < n.len() {
                let k = choose|k: int| 0 <= k < t.len() && t[k] == n[i];
                assert(lines[k] == r[i]);
            } else {
                assert(lines[lines.len() - 1] == r[i]);
            }
        }
    }
}

proof fn lemma_deduplicated_in_order(
    lines: Seq<Seq<char>>,
    o: SortView,
    num: number::Reader,
    le: spec_fn(Seq<char>, Seq<char>) -> bool,
)
    requires
        order::in_order(lines, le),
    ensures
        order::in_order(deduplicated(lines, o, num), le),
    decreases lines.len(),
{
    if lines.len() > 0 {
        let t = lines.drop_last();
        assert forall|i: int, j: int| 0 <= i < j < t.len() implies le(
            #[trigger] t[i],
            #[trigger] t[j],
        ) by {
            assert(le(lines[i], lines[j]));
        }
        lemma_deduplicated_in_order(t, o, num, le);
        lemma_deduplicated_within(t, o, num);
        let n = deduplicated(t, o, num);
        let r = deduplicated(lines, o, num);
        assert forall|i: int, j: int| 0 <= i < j < r.len() implies le(
            #[trigger] r[i],
            #[trigger] r[j],
        ) by {
            if j < n.len() {
                assert(le(n[i], n[j]));
            } else {
                let k = choose|k: int| 0 <= k < t.len() && t[k] == n[i];
                assert(le(lines[k], lines[lines.len() - 1]));
            }
        }
    }
}

proof fn lemma_deduplicated_again(lines: Seq<Seq<char>>, o: SortView, num: number::Reader)
    requires
        forall|i: int| 0 < i < lines.len() ==> #[trigger] differs(lines, o, num, i),
    ensures
        deduplicated(lines, o, num) == lines,
    decreases lines.len(),
{
    if lines.len() > 0 {
        let t = lines.drop_last();
        assert forall|i: int| 0 < i < t.len() implies #[trigger] differs(t, o, num, i) by {
            assert(differs(lines, o, num, i));
        }
        lemma_deduplicated_again(t, o, num);
        if t.len() > 0 {
            assert(differs(lines, o, num, lines.len() - 1));
        }
        assert(deduplicated(lines, o, num) =~= lines);
    } else {
        assert(deduplicated(lines, o, num) =~= lines);
    }
}

proof fn lemma_output_again(lines: Seq<Seq<char>>, o: SortView, num: number::Reader)
    requires
        lines_placed(lines, o, num),
    ensures
        output_lines(output_lines(lines, o, num), o, num) == output_lines(lines, o, num),
{
    let le = order::not_after(comparison(o, num, false));
    let r = sorted_lines(lines, o, num);
    let out = output_lines(lines, o, num);
    lemma_sorted_in_order(lines, o, num);
    if o.unique {
        lemma_deduplicated_in_order(r, o, num, le);
        lemma_unique_neighbours_differ(r, o, num);
        lemma_deduplicated_again(out, o, num);
    }
    order::lemma_sorted_again(out, le);
}

proof fn lemma_output_unended(lines: Seq<Seq<char>>, o: SortView, num: number::Reader, end: char)
    requires
        forall|i: int| 0 <= i < lines.len() ==> !(#[trigger] lines[i]).contains(end),
    ensures
        forall|i: int|
            0 <= i < output_lines(lines, o, num).len() ==> !(#[trigger] output_lines(
                lines,
                o,
                num,
            )[i]).contains(end),
{
    let le = order::not_after(comparison(o, num, false));
    let p = |line: Seq<char>| !line.contains(end);
    assert forall|i: int| 0 <= i < lines.len() implies p(#[trigger] lines[i]) by {
        assert(!lines[i].contains(end));
    }
    order::lemma_sorted_all(lines, le, p);
    let r = sorted_lines(lines, o, num);
    let out = output_lines(lines, o, num);
    lemma_deduplicated_within(r, o, num);
    assert forall|i: int| 0 <= i < out.len() implies !(#[trigger] out[i]).contains(end) by {
        if o.unique {
            let k = choose|k: int| 0 <= k < r.len() && r[k] == out[i];
            assert(p(r[k]));
        } else {
            assert(p(r[i]));
        }
    }
}

proof fn lemma_input_unended(input: Seq<char>, end: char)
    ensures
        forall|i: int|
            0 <= i < input_lines(input, end).len() ==> !(#[trigger] input_lines(
                input,
                end,
            )[i]).contains(end),
{
    text::lemma_split_pieces(input, end);
    let lines = input_lines(input, end);
    assert forall|i: int| 0 <= i < lines.len() implies !(#[trigger] lines[i]).contains(end) by {
        assert(lines[i] == text::split(input, end)[i]);
    }
}

proof fn lemma_lines_of_ended(lines: Seq<Seq<char>>, end: char)
    requires
        forall|i: int| 0 <= i < lines.len() ==> !(#[trigger] lines[i]).contains(end),
    ensures
        input_lines(text::ended(lines, end), end) == lines,
{
    text::lemma_split_ended(lines, end);
    let pushed = lines.push(Seq::<char>::empty());
    assert(pushed.drop_last() =~= lines);
}

/// The lines that are read of what was written are those that were written.
proof fn lemma_written_lines(input: Seq<char>, o: SortView, num: number::Reader)
    ensures
        ({
            let end = terminator(o.zero_terminated);
            let out = output_lines(input_lines(input, end), o, num);
            &&& sorted_text(input, o, num) == text::ended(out, end)
            &&& input_lines(sorted_text(input, o, num), end) == out
        }),
{
    let end = terminator(o.zero_terminated);
    let lines = input_lines(input, end);
    lemma_input_unended(input, end);
    lemma_output_unended(lines, o, num, end);
    lemma_lines_of_ended(output_lines(lines, o, num), end);
}

/// Sorting what was sorted changes nothing.
pub proof fn lemma_sort_again(input: Seq<char>, o: SortView, num: number::Reader)
    requires
        lines_placed(input_lines(input, terminator(o.zero_terminated)), o, num),
    ensures
        sorted_text(sorted_text(input, o, num), o, num) == sorted_text(input, o, num),
{
    lemma_written_lines(input, o, num);
    lemma_written_lines(sorted_text(input, o, num), o, num);
    lemma_output_again(input_lines(input, terminator(o.zero_terminated)), o, num);
}

/// What stays together is all there is: one after another, the runs are the lines, each ended.
pub proof fn lemma_groups_are_all(
    lines: Seq<Seq<char>>,
    o: SortView,
    num: number::Reader,
    end: char,
)
    ensures
        text::concat(groups(lines, o, num, end)) == text::ended(lines, end),
        lines.len() > 0 ==> groups(lines, o, num, end).len() > 0,
    decreases lines.len(),
{
    let all = groups(lines, o, num, end);
    if lines.len() > 0 {
        let before = groups(lines.drop_last(), o, num, end);
        lemma_groups_are_all(lines.drop_last(), o, num, end);
        if lines.len() > 1 && !differs(lines, o, num, lines.len() - 1) {
            assert(all.drop_last() =~= before.drop_last());
        } else {
            assert(all.drop_last() =~= before);
        }
        assert(text::concat(all) =~= text::ended(lines, end));
    } else {
        assert(text::concat(all) =~= text::ended(lines, end));
    }
}

proof fn lemma_keys_not_after(
    a: Seq<char>,
    b: Seq<char>,
    o: SortView,
    num: number::Reader,
    rest: Order,
    i: int,
)
    requires
        by_keys(a, b, o.keys, o.separator, num, rest, i) != Order::Greater,
    ensures
        by_keys(a, b, o.keys, o.separator, num, Order::Equal, i) != Order::Greater,
    decreases o.keys.len() - i,
{
    if 0 <= i < o.keys.len() && by_key(a, b, o.keys[i], o.separator, num) == Order::Equal {
        lemma_keys_not_after(a, b, o, num, rest, i + 1);
    }
}

proof fn lemma_sorted_keys(
    lines: Seq<Seq<char>>,
    o: SortView,
    num: number::Reader,
    x: int,
    y: int,
)
    requires
        lines_placed(lines, o, num),
        0 <= x < y < lines.len(),
    ensures
        line_placed(sorted_lines(lines, o, num)[x], o, num),
        line_placed(sorted_lines(lines, o, num)[y], o, num),
        line_order(
            sorted_lines(lines, o, num)[x],
            sorted_lines(lines, o, num)[y],
            o,
            num,
            true,
        ) != Order::Greater,
{
    let r = sorted_lines(lines, o, num);
    let a = r[x];
    let b = r[y];
    lemma_sorted_in_order(lines, o, num);
    lemma_sort_keeps_lines(lines, o, num);
    assert(order::not_after(comparison(o, num, false))(a, b));
    if o.keys.len() > 0 {
        let rest = if o.stable {
            Order::Equal
        } else {
            order::text_order(a, b)
        };
        lemma_keys_not_after(a, b, o, num, rest, 0);
    }
}

/// Lines with equal keys stand together once they are sorted: between two of them no run ends.
pub proof fn lemma_equal_keys_together(
    lines: Seq<Seq<char>>,
    o: SortView,
    num: number::Reader,
    i: int,
    k: int,
    j: int,
)
    requires
        lines_placed(lines, o, num),
        0 <= i < k <= j < lines.len(),
        line_order(
            sorted_lines(lines, o, num)[i],
            sorted_lines(lines, o, num)[j],
            o,
            num,
            true,
        ) == Order::Equal,
    ensures
        !differs(sorted_lines(lines, o, num), o, num, k),
{
    let r = sorted_lines(lines, o, num);
    let a = r[i];
    let b = r[k - 1];
    let c = r[k];
    let d = r[j];
    lemma_sorted_keys(lines, o, num, k - 1, k);
    lemma_lines_consistent(b, c, c, o, num, true);
    if k < j {
        lemma_sorted_keys(lines, o, num, i, k);
        lemma_sorted_keys(lines, o, num, k, j);
        lemma_lines_consistent(a, c, d, o, num, true);
    }
    if i < k - 1 {
        lemma_sorted_keys(lines, o, num, i, k - 1);
        lemma_lines_consistent(a, b, c, o, num, true);
    }
}

/// Without keys and modifiers the output depends only on which lines the input holds and how often
/// each, not on where they stand in it.
pub proof fn lemma_sort_forgets_places(
    a: Seq<char>,
    b: Seq<char>,
    o: SortView,
    num: number::Reader,
)
    requires
        o.keys.len() == 0,
        o.global == no_modifiers(),
        input_lines(a, terminator(o.zero_terminated)).to_multiset() == input_lines(
            b,
            terminator(o.zero_terminated),
        ).to_multiset(),
    ensures
        sorted_text(a, o, num) == sorted_text(b, o, num),
{
    let end = terminator(o.zero_terminated);
    let x = input_lines(a, end);
    let y = input_lines(b, end);
    let le = order::not_after(comparison(o, num, false));
    assert forall|s: Seq<char>, t: Seq<char>| #[trigger] le(s, t) == (order::text_order(s, t)
        != Order::Greater) by {}
    lemma_sorted_in_order(x, o, num);
    lemma_sorted_in_order(y, o, num);
    lemma_sort_keeps_lines(x, o, num);
    lemma_sort_keeps_lines(y, o, num);
    let r = sorted_lines(x, o, num);
    let s = sorted_lines(y, o, num);
    assert forall|t: Seq<char>| #[trigger] le(t, t) by {
        order::lemma_text_order_equal(t, t);
    }
    assert forall|t: Seq<char>, u: Seq<char>| #[trigger] le(t, u) && #[trigger] le(u, t) implies t
        == u by {
        order::lemma_text_order_reverse(t, u);
        order::lemma_text_order_equal(t, u);
    }
    assert forall|t: Seq<char>, u: Seq<char>, w: Seq<char>| #[trigger]
        le(t, u) && #[trigger] le(u, w) implies le(t, w) by {
        order::lemma_text_order_transitive(t, u, w);
    }
    assert forall|t: Seq<char>, u: Seq<char>| #[trigger] le(t, u) || le(u, t) by {
        order::lemma_text_order_reverse(t, u);
    }
    assert forall|i: int, j: int| 0 <= i < j < r.len() implies #[trigger] le(r[i], r[j]) by {
        assert(le(r[i], r[j]));
    }
    vstd::seq_lib::lemma_sorted_unique(r, s, le);
}

/// Whether a line may follow the one before it.
pub open spec fn fits(lines: Seq<Seq<char>>, o: SortView, num: number::Reader, i: int) -> bool {
    !disorder(lines[i - 1], lines[i], o, num)
}

proof fn lemma_disorder_found(lines: Seq<Seq<char>>, o: SortView, num: number::Reader, i: int)
    requires
        1 <= i,
    ensures
        first_disorder(lines, o, num, i) <= lines.len(),
        first_disorder(lines, o, num, i) < lines.len() ==> {
            let k = first_disorder(lines, o, num, i);
            i <= k && !fits(lines, o, num, k)
        },
        forall|j: int|
            i <= j < first_disorder(lines, o, num, i) && j < lines.len() ==> #[trigger] fits(
                lines,
                o,
                num,
                j,
            ),
    decreases lines.len() - i,
{
    if i < lines.len() {
        lemma_disorder_found(lines, o, num, i + 1);
    }
}

proof fn lemma_neighbours_in_order(
    lines: Seq<Seq<char>>,
    o: SortView,
    num: number::Reader,
    i: int,
    j: int,
)
    requires
        0 <= i < j < lines.len(),
        lines_placed(lines, o, num),
        !o.unique,
        forall|k: int| 1 <= k < lines.len() ==> #[trigger] fits(lines, o, num, k),
    ensures
        line_order(lines[i], lines[j], o, num, false) != Order::Greater,
    decreases j - i,
{
    assert(fits(lines, o, num, j));
    if i + 1 < j {
        lemma_neighbours_in_order(lines, o, num, i, j - 1);
        assert(line_placed(lines[i], o, num) && line_placed(lines[j - 1], o, num) && line_placed(
            lines[j],
            o,
            num,
        ));
        lemma_lines_consistent(lines[i], lines[j - 1], lines[j], o, num, false);
    }
}

/// The check passes exactly where sorting would change nothing, for lines that are all ended.
pub proof fn lemma_check_means_sorted<FS>(
    v: env::EnvView<FS>,
    input: Seq<char>,
    o: SortView,
    silent: bool,
    num: number::Reader,
)
    requires
        !o.unique,
        input.len() == 0 || input.last() == terminator(o.zero_terminated),
        lines_placed(input_lines(input, terminator(o.zero_terminated)), o, num),
    ensures
        checked(v, input, o, silent, num).1 == Ok::<int, env::ErrorView>(0) <==> sorted_text(
            input,
            o,
            num,
        ) == input,
        sorted_text(input, o, num) == input ==> checked(v, input, o, silent, num).0 == v,
        !v.merged ==> checked(v, input, o, silent, num).0.out == v.out,
{
    let end = terminator(o.zero_terminated);
    let lines = input_lines(input, end);
    let le = order::not_after(comparison(o, num, false));
    lemma_written_lines(input, o, num);
    lemma_input_unended(input, end);
    lemma_all_ended(input, end);
    lemma_disorder_found(lines, o, num, 1);
    if sorted_text(input, o, num) == input {
        lemma_sorted_in_order(lines, o, num);
        assert(order::in_order(lines, le));
        let k = first_disorder(lines, o, num, 1);
        if k < lines.len() {
            assert(le(lines[k - 1], lines[k]));
        }
    }
    if first_disorder(lines, o, num, 1) >= lines.len() {
        assert forall|i: int, j: int| 0 <= i < j < lines.len() implies le(
            #[trigger] lines[i],
            #[trigger] lines[j],
        ) by {
            lemma_neighbours_in_order(lines, o, num, i, j);
        }
        order::lemma_sorted_again(lines, le);
    }
}

/// Text whose lines are all ended is its lines, each ended.
proof fn lemma_all_ended(input: Seq<char>, end: char)
    requires
        input.len() == 0 || input.last() == end,
    ensures
        text::ended(input_lines(input, end), end) == input,
        text::split(input, end).last().len() == 0,
    decreases input.len(),
{
    let k = text::find_from(input, end, 0);
    text::find_from_bounds(input, end, 0);
    if k < input.len() {
        let rest = input.skip(k + 1);
        let tail = text::split(rest, end);
        text::split_nonempty(rest, end);
        lemma_all_ended(rest, end);
        text::lemma_ended_first(input.take(k), input_lines(rest, end), end);
        assert((seq![input.take(k)] + tail).drop_last() =~= seq![input.take(k)] + tail.drop_last());
        assert(input =~= input.take(k).push(end) + rest);
    } else {
        assert(input =~= Seq::<char>::empty());
        assert(input_lines(input, end) =~= Seq::<Seq<char>>::empty());
    }
}

/// Where the check fails, it names the first line that may not follow the one before it.
pub proof fn lemma_check_names_first<FS>(
    v: env::EnvView<FS>,
    input: Seq<char>,
    o: SortView,
    num: number::Reader,
    k: int,
)
    requires
        0 < k < input_lines(input, terminator(o.zero_terminated)).len(),
        !fits(input_lines(input, terminator(o.zero_terminated)), o, num, k),
        forall|j: int|
            0 < j < k ==> #[trigger] fits(
                input_lines(input, terminator(o.zero_terminated)),
                o,
                num,
                j,
            ),
    ensures
        checked(v, input, o, false, num) == (
            v.error_line(
                "sort: -:"@ + text::decimal((k + 1) as nat) + ":1: disorder: "@ + input_lines(
                    input,
                    terminator(o.zero_terminated),
                )[k],
            ),
            Ok::<int, env::ErrorView>(1),
        ),
        checked(v, input, o, true, num) == (v, Ok::<int, env::ErrorView>(1)),
{
    let lines = input_lines(input, terminator(o.zero_terminated));
    lemma_disorder_found(lines, o, num, 1);
    let f = first_disorder(lines, o, num, 1);
    if f < k {
        assert(fits(lines, o, num, f));
    }
    if k < f {
        assert(fits(lines, o, num, k));
    }
}

/// The output of the command passes its own check.
pub proof fn lemma_check_accepts_output<FS>(
    v: env::EnvView<FS>,
    input: Seq<char>,
    o: SortView,
    silent: bool,
    num: number::Reader,
)
    requires
        !o.unique,
        lines_placed(input_lines(input, terminator(o.zero_terminated)), o, num),
    ensures
        checked(v, sorted_text(input, o, num), o, silent, num) == (
            v,
            Ok::<int, env::ErrorView>(0),
        ),
{
    let end = terminator(o.zero_terminated);
    let lines = input_lines(input, end);
    let r = sorted_lines(lines, o, num);
    lemma_written_lines(input, o, num);
    lemma_sorted_in_order(lines, o, num);
    lemma_disorder_found(r, o, num, 1);
    let k = first_disorder(r, o, num, 1);
    if k < r.len() {
        assert(order::not_after(comparison(o, num, false))(r[k - 1], r[k]));
    }
}

/// Whether fields can be told apart in a line: none is empty, and none holds what stands between
/// them.
pub open spec fn are_fields(fs: Seq<Seq<char>>, separator: Option<char>) -> bool {
    fs.len() > 0 && forall|i: int|
        0 <= i < fs.len() ==> (#[trigger] fs[i]).len() > 0 && match separator {
            Some(c) => !fs[i].contains(c),
            None => text::is_word(fs[i]),
        }
}

/// What stands between fields: the separator, or a blank.
pub open spec fn between(separator: Option<char>) -> Seq<char> {
    seq![match separator {
        Some(c) => c,
        None => ' ',
    }]
}

proof fn lemma_fields_joined(fs: Seq<Seq<char>>, separator: Option<char>)
    requires
        are_fields(fs, separator),
    ensures
        fields(text::join(fs, between(separator)), separator) == fs,
{
    match separator {
        Some(c) => {
            assert forall|i: int| 0 <= i < fs.len() implies !(#[trigger] fs[i]).contains(c) by {
                assert(fs[i].len() > 0);
            }
            text::lemma_split_join(fs, c);
        },
        None => {
            assert forall|i: int| 0 <= i < fs.len() implies text::is_word(#[trigger] fs[i]) by {
                assert(fs[i].len() > 0);
            }
            text::lemma_words_of_join(fs);
        },
    }
}

proof fn lemma_key_of_fields(fs: Seq<Seq<char>>, key: KeySpec, sep: char, f: int, first: int, last: int)
    requires
        0 <= first <= f <= last < fs.len(),
        forall|i: int| 0 <= i < fs.len() ==> (#[trigger] fs[i]).len() > 0,
        key.start_char <= fs[first].len(),
        first == last && key.end_char > 0 ==> key.start_char <= key.end_char,
    ensures
        ({
            let all = text::join(fs.subrange(first, f + 1), seq![sep]);
            let off = if key.start_char > 1 {
                key.start_char - 1
            } else {
                0
            };
            let cut = if f == last && 0 < key.end_char < fs[last].len() {
                fs[last].len() - key.end_char
            } else {
                0
            };
            &&& off < all.len() - cut
            &&& key_upto(fs, key, sep, f, first, last) == all.subrange(off, all.len() - cut)
        }),
    decreases f - first,
{
    let part = fs.subrange(first, f + 1);
    let all = text::join(part, seq![sep]);
    let off = if key.start_char > 1 {
        key.start_char - 1
    } else {
        0
    };
    let cut = if f == last && 0 < key.end_char < fs[last].len() {
        fs[last].len() - key.end_char
    } else {
        0
    };
    assert(fs[f].len() > 0);
    assert(fs[first].len() > 0);
    assert(part.last() == fs[f]);
    let before = key_upto(fs, key, sep, f - 1, first, last);
    let (start, end) = key_bounds(fs, key, f, first, last);
    if f == first {
        assert(all == fs[f]);
        assert(before =~= Seq::<char>::empty());
        assert(Seq::<char>::empty() + fs[f].subrange(start, end) =~= all.subrange(
            off,
            all.len() - cut,
        ));
    } else {
        lemma_key_of_fields(fs, key, sep, f - 1, first, last);
        let shorter = fs.subrange(first, f);
        assert(part.drop_last() =~= shorter);
        let x = text::join(shorter, seq![sep]);
        assert(all == x + seq![sep] + fs[f]);
        assert(before == x.subrange(off, x.len() as int));
        assert(before.push(sep) + fs[f].subrange(0, end) =~= all.subrange(off, all.len() - cut));
    }
}

/// The key of a line is the part of it from the first character of the key in its first field to the
/// last character of the key in its last field, with all that stands between them. A key without an
/// end field, or with one that the line does not have, goes on to the last field, and so, where no
/// characters are left out, to the end of the line. A line without the first field has an empty key.
pub proof fn lemma_key_is_part_of_line(
    fs: Seq<Seq<char>>,
    key: KeySpec,
    separator: Option<char>,
)
    requires
        are_fields(fs, separator),
        key.start_field > 0,
        key.end_field == 0 || key.start_field <= key.end_field,
    ensures
        ({
            let line = text::join(fs, between(separator));
            let first = key.start_field - 1;
            let last = if key.end_field == 0 || key.end_field > fs.len() {
                fs.len() as int
            } else {
                key.end_field as int
            };
            let part = text::join(fs.subrange(first, last), between(separator));
            let off = if key.start_char > 1 {
                key.start_char - 1
            } else {
                0
            };
            let cut = if 0 < key.end_char < fs[last - 1].len() {
                fs[last - 1].len() - key.end_char
            } else {
                0
            };
            let k = key_of(line, key, separator);
            &&& first >= fs.len() ==> k == Seq::<char>::empty()
            &&& first < fs.len() && key.start_char <= fs[first].len() && (last == first + 1
                && key.end_char > 0 ==> key.start_char <= key.end_char) ==> k == part.subrange(
                off,
                part.len() - cut,
            )
            &&& first < fs.len() && last == fs.len() && key.start_char <= 1 && key.end_char == 0
                ==> text::ends_with(line, k) && k == part
        }),
{
    let line = text::join(fs, between(separator));
    lemma_fields_joined(fs, separator);
    let first = key.start_field - 1;
    let last = if key.end_field == 0 || key.end_field > fs.len() {
        fs.len() as int
    } else {
        key.end_field as int
    };
    if first < fs.len() {
        assert(fs[first].len() > 0);
        let part = text::join(fs.subrange(first, last), between(separator));
        if key.start_char <= fs[first].len() && (last == first + 1 && key.end_char > 0
            ==> key.start_char <= key.end_char) {
            lemma_key_of_fields(
                fs,
                key,
                match separator {
                    Some(c) => c,
                    None => ' ',
                },
                last - 1,
                first,
                last - 1,
            );
        }
        if last == fs.len() {
            text::lemma_join_ends(fs, first, between(separator));
            assert(fs.subrange(first, last) =~= fs.skip(first));
            assert(part.subrange(0, part.len() as int) =~= part);
        }
    }
}

/// A key without an end field is the key that ends with the last field of the line.
pub proof fn lemma_open_key(line: Seq<char>, key: KeySpec, separator: Option<char>, end: usize)
    requires
        key.start_field > 0,
        key.end_field == 0,
        end >= fields(line, separator).len(),
        end > 0,
    ensures
        key_of(line, key, separator) == key_of(
            line,
            KeySpec { end_field: end, ..key },
            separator,
        ),
{
    let open = KeySpec { end_field: end, ..key };
    let fs = fields(line, separator);
    if key.start_field <= fs.len() {
        lemma_key_upto_alike(
            fs,
            key,
            open,
            match separator {
                Some(c) => c,
                None => ' ',
            },
            fs.len() - 1,
            key.start_field - 1,
            fs.len() - 1,
        );
    }
}

proof fn lemma_key_upto_alike(
    fs: Seq<Seq<char>>,
    a: KeySpec,
    b: KeySpec,
    sep: char,
    f: int,
    first: int,
    last: int,
)
    requires
        a.start_char == b.start_char,
        a.end_char == b.end_char,
    ensures
        key_upto(fs, a, sep, f, first, last) == key_upto(fs, b, sep, f, first, last),
    decreases f - first + 1,
{
    if f >= first {
        lemma_key_upto_alike(fs, a, b, sep, f - 1, first, last);
    }
}

/// The opposite of how two things compare.
pub open spec fn opposite(r: Order) -> Order {
    match r {
        Order::Less => Order::Greater,
        Order::Equal => Order::Equal,
        Order::Greater => Order::Less,
    }
}

/// The first key in which two lines differ decides how they compare, turned round where that key is
/// reversed; no later key and no other modifier changes it.
pub proof fn lemma_first_differing_key_decides(
    a: Seq<char>,
    b: Seq<char>,
    o: SortView,
    num: number::Reader,
    keys_only: bool,
    k: int,
)
    requires
        0 <= k < o.keys.len(),
        forall|j: int|
            0 <= j < k ==> by_key(a, b, #[trigger] o.keys[j], o.separator, num) == Order::Equal,
        by_key(a, b, o.keys[k], o.separator, num) != Order::Equal,
    ensures
        line_order(a, b, o, num, keys_only) == if o.keys[k].modifiers.reverse {
            opposite(by_key(a, b, o.keys[k], o.separator, num))
        } else {
            by_key(a, b, o.keys[k], o.separator, num)
        },
{
    let rest = if o.stable || keys_only {
        Order::Equal
    } else {
        order::text_order(a, b)
    };
    lemma_keys_from(a, b, o, num, rest, 0, k);
}

proof fn lemma_keys_from(
    a: Seq<char>,
    b: Seq<char>,
    o: SortView,
    num: number::Reader,
    rest: Order,
    i: int,
    k: int,
)
    requires
        0 <= i <= k <= o.keys.len(),
        forall|j: int|
            i <= j < k ==> by_key(a, b, #[trigger] o.keys[j], o.separator, num) == Order::Equal,
    ensures
        by_keys(a, b, o.keys, o.separator, num, rest, i) == by_keys(
            a,
            b,
            o.keys,
            o.separator,
            num,
            rest,
            k,
        ),
    decreases k - i,
{
    if i < k {
        assert(by_key(a, b, o.keys[i], o.separator, num) == Order::Equal);
        lemma_keys_from(a, b, o, num, rest, i + 1, k);
    }
}

/// Lines that are equal in every key compare as whole texts, never reversed, and as equal where the
/// sort is stable or only the keys count.
pub proof fn lemma_equal_in_every_key(
    a: Seq<char>,
    b: Seq<char>,
    o: SortView,
    num: number::Reader,
    keys_only: bool,
)
    requires
        o.keys.len() > 0,
        forall|j: int|
            0 <= j < o.keys.len() ==> by_key(a, b, #[trigger] o.keys[j], o.separator, num)
                == Order::Equal,
    ensures
        o.stable || keys_only ==> line_order(a, b, o, num, keys_only) == Order::Equal,
        !o.stable && !keys_only ==> line_order(a, b, o, num, keys_only) == order::text_order(a, b),
{
    let rest = if o.stable || keys_only {
        Order::Equal
    } else {
        order::text_order(a, b)
    };
    lemma_keys_from(a, b, o, num, rest, 0, o.keys.len() as int);
}

/// Without keys, -r turns every comparison round, and nothing but it does.
pub proof fn lemma_reversed_lines(
    a: Seq<char>,
    b: Seq<char>,
    o: SortView,
    num: number::Reader,
    keys_only: bool,
)
    requires
        o.keys.len() == 0,
        o.global.reverse,
    ensures
        ({
            let plain = SortView { global: KeyModifiers { reverse: false, ..o.global }, ..o };
            line_order(a, b, o, num, keys_only) == opposite(
                line_order(a, b, plain, num, keys_only),
            )
        }),
{
    let m = KeyModifiers { reverse: false, ..o.global };
    assert(modified(a, m) == modified(a, o.global));
    assert(modified(b, m) == modified(b, o.global));
}

/// Without modifiers lines compare as texts; a line that is a single key compares as that key.
pub proof fn lemma_plain_order(
    a: Seq<char>,
    b: Seq<char>,
    o: SortView,
    num: number::Reader,
    keys_only: bool,
)
    requires
        o.keys.len() == 0,
        o.global == modifiers(Seq::<char>::empty()),
    ensures
        line_order(a, b, o, num, keys_only) == order::text_order(a, b),
{
}

/// Whether a text begins with three characters.
pub open spec fn begins_with(t: Seq<char>, a: char, b: char, c: char) -> bool {
    t.len() >= 3 && t[0] == a && t[1] == b && t[2] == c
}

/// Months compare as in the calendar, whatever follows their first three letters; what is no month
/// comes before them.
pub proof fn lemma_months(s: Seq<char>, k: int)
    requires
        0 <= k < 12,
    ensures
        ({
            let names = seq![
                'J', 'A', 'N',
                'F', 'E', 'B',
                'M', 'A', 'R',
                'A', 'P', 'R',
                'M', 'A', 'Y',
                'J', 'U', 'N',
                'J', 'U', 'L',
                'A', 'U', 'G',
                'S', 'E', 'P',
                'O', 'C', 'T',
                'N', 'O', 'V',
                'D', 'E', 'C',
            ];
            let t = text::upper(text::trim(s));
            &&& begins_with(t, names[3 * k], names[3 * k + 1], names[3 * k + 2]) <==> month(s) == k
                + 1
            &&& 0 <= month(s) <= 12
        }),
{
    reveal_strlit("JAN");
    reveal_strlit("FEB");
    reveal_strlit("MAR");
    reveal_strlit("APR");
    reveal_strlit("MAY");
    reveal_strlit("JUN");
    reveal_strlit("JUL");
    reveal_strlit("AUG");
    reveal_strlit("SEP");
    reveal_strlit("OCT");
    reveal_strlit("NOV");
    reveal_strlit("DEC");
    let t = text::upper(text::trim(s));
    lemma_starts_with_three(t, "JAN"@, 'J', 'A', 'N');
    lemma_starts_with_three(t, "FEB"@, 'F', 'E', 'B');
    lemma_starts_with_three(t, "MAR"@, 'M', 'A', 'R');
    lemma_starts_with_three(t, "APR"@, 'A', 'P', 'R');
    lemma_starts_with_three(t, "MAY"@, 'M', 'A', 'Y');
    lemma_starts_with_three(t, "JUN"@, 'J', 'U', 'N');
    lemma_starts_with_three(t, "JUL"@, 'J', 'U', 'L');
    lemma_starts_with_three(t, "AUG"@, 'A', 'U', 'G');
    lemma_starts_with_three(t, "SEP"@, 'S', 'E', 'P');
    lemma_starts_with_three(t, "OCT"@, 'O', 'C', 'T');
    lemma_starts_with_three(t, "NOV"@, 'N', 'O', 'V');
    lemma_starts_with_three(t, "DEC"@, 'D', 'E', 'C');
    let names = seq![
        'J', 'A', 'N',
        'F', 'E', 'B',
        'M', 'A', 'R',
        'A', 'P', 'R',
        'M', 'A', 'Y',
        'J', 'U', 'N',
        'J', 'U', 'L',
        'A', 'U', 'G',
        'S', 'E', 'P',
        'O', 'C', 'T',
        'N', 'O', 'V',
        'D', 'E', 'C',
    ];
    assert(names[0] == 'J' && names[1] == 'A' && names[2] == 'N');
    assert(names[3] == 'F' && names[4] == 'E' && names[5] == 'B');
    assert(names[6] == 'M' && names[7] == 'A' && names[8] == 'R');
    assert(names[9] == 'A' && names[10] == 'P' && names[11] == 'R');
    assert(names[12] == 'M' && names[13] == 'A' && names[14] == 'Y');
    assert(names[15] == 'J' && names[16] == 'U' && names[17] == 'N');
    assert(names[18] == 'J' && names[19] == 'U' && names[20] == 'L');
    assert(names[21] == 'A' && names[22] == 'U' && names[23] == 'G');
    assert(names[24] == 'S' && names[25] == 'E' && names[26] == 'P');
    assert(names[27] == 'O' && names[28] == 'C' && names[29] == 'T');
    assert(names[30] == 'N' && names[31] == 'O' && names[32] == 'V');
    assert(names[33] == 'D' && names[34] == 'E' && names[35] == 'C');
}

proof fn lemma_starts_with_three(t: Seq<char>, name: Seq<char>, a: char, b: char, c: char)
    requires
        name.len() == 3,
        name[0] == a,
        name[1] == b,
        name[2] == c,
    ensures
        text::starts_with(t, name) <==> begins_with(t, a, b, c),
{
    if t.len() >= 3 {
        let h = t.take(3);
        assert(h[0] == t[0] && h[1] == t[1] && h[2] == t[2]);
        if begins_with(t, a, b, c) {
            assert(h =~= name);
        }
    }
}

proof fn lemma_digits_end_of(d: Seq<char>, x: Seq<char>, i: int)
    requires
        text::all_digits(d),
        0 <= i <= d.len(),
        x.len() == 0 || !text::is_digit(x[0]),
    ensures
        digits_end(d + x, i) == d.len(),
    decreases d.len() - i,
{
    let s = d + x;
    if i < d.len() {
        assert(s[i] == d[i]);
        lemma_digits_end_of(d, x, i + 1);
    } else if x.len() > 0 {
        assert(s[i] == x[0]);
    }
}

proof fn lemma_digits_end_within(p: Seq<char>, x: Seq<char>, i: int)
    requires
        0 <= i < p.len(),
        !text::is_digit(p.last()),
    ensures
        digits_end(p + x, i) == digits_end(p, i),
        i <= digits_end(p, i) < p.len(),
    decreases p.len() - i,
{
    assert((p + x)[i] == p[i]);
    if text::is_digit(p[i]) {
        lemma_digits_end_within(p, x, i + 1);
    }
}

/// What two versions have in common at their beginning does not change how they compare, where it
/// ends with no digit.
pub proof fn lemma_version_common_start(p: Seq<char>, x: Seq<char>, y: Seq<char>)
    requires
        p.len() > 0 ==> !text::is_digit(p.last()),
    ensures
        version_order(p + x, p + y) == version_order(x, y),
    decreases p.len(),
{
    let a = p + x;
    let b = p + y;
    if p.len() == 0 {
        assert(a =~= x && b =~= y);
    } else if text::is_digit(p[0]) {
        lemma_digits_end_within(p, x, 0);
        lemma_digits_end_within(p, y, 0);
        let k = digits_end(p, 0);
        digits_end_bounds(p, 1);
        assert(a.take(k) =~= b.take(k));
        assert(a.skip(k) =~= p.skip(k) + x);
        assert(b.skip(k) =~= p.skip(k) + y);
        assert(p.skip(k).last() == p.last());
        assert(k > 0);
        lemma_version_common_start(p.skip(k), x, y);
    } else {
        assert(a.skip(1) =~= p.skip(1) + x);
        assert(b.skip(1) =~= p.skip(1) + y);
        if p.len() > 1 {
            assert(p.skip(1).last() == p.last());
        }
        lemma_version_common_start(p.skip(1), x, y);
    }
}

/// Numbers in versions compare by value, not by their digits one by one: behind the same beginning,
/// the version with the smaller number comes first, whatever follows.
pub proof fn lemma_version_numbers(p: Seq<char>, m: nat, x: Seq<char>, n: nat, y: Seq<char>)
    requires
        p.len() > 0 ==> !text::is_digit(p.last()),
        x.len() > 0 ==> !text::is_digit(x[0]),
        y.len() > 0 ==> !text::is_digit(y[0]),
        m < n <= u64::MAX,
    ensures
        version_order(p + (text::decimal(m) + x), p + (text::decimal(n) + y)) == Order::Less,
        version_order(p + (text::decimal(n) + y), p + (text::decimal(m) + x)) == Order::Greater,
        version_order(p + (text::decimal(m) + x), p + (text::decimal(m) + y)) == version_order(x, y),
{
    let a = text::decimal(m) + x;
    let b = text::decimal(n) + y;
    let c = text::decimal(m) + y;
    lemma_version_common_start(p, a, b);
    lemma_version_common_start(p, b, a);
    lemma_version_common_start(p, a, c);
    text::lemma_number_of_decimal(m);
    text::lemma_number_of_decimal(n);
    lemma_digits_end_of(text::decimal(m), x, 0);
    lemma_digits_end_of(text::decimal(n), y, 0);
    lemma_digits_end_of(text::decimal(m), y, 0);
    assert(a.take(text::decimal(m).len() as int) =~= text::decimal(m));
    assert(b.take(text::decimal(n).len() as int) =~= text::decimal(n));
    assert(c.take(text::decimal(m).len() as int) =~= text::decimal(m));
    assert(a.skip(text::decimal(m).len() as int) =~= x);
    assert(c.skip(text::decimal(m).len() as int) =~= y);
    assert(a[0] == text::decimal(m)[0] && b[0] == text::decimal(n)[0] && c[0] == text::decimal(
        m,
    )[0]);
}

/// A place in a line as a key names it: a field, a character in it where it is not zero, and letters.
pub open spec fn place_text(field: nat, character: nat, letters: Seq<char>) -> Seq<char> {
    text::decimal(field) + if character > 0 {
        seq!['.'] + text::decimal(character) + letters
    } else {
        letters
    }
}

pub open spec fn all_letters(s: Seq<char>) -> bool {
    forall|i: int| 0 <= i < s.len() ==> text::is_letter(#[trigger] s[i])
}

proof fn lemma_place_read(field: usize, character: usize, letters: Seq<char>)
    requires
        all_letters(letters),
    ensures
        field_spec(place_text(field as nat, character as nat, letters)) == (
            field,
            character,
            modifiers(letters),
        ),
        forall|i: int|
            0 <= i < place_text(field as nat, character as nat, letters).len()
                ==> #[trigger] place_text(field as nat, character as nat, letters)[i] != ',',
{
    let f = text::decimal(field as nat);
    let c = text::decimal(character as nat);
    let s = place_text(field as nat, character as nat, letters);
    text::lemma_number_of_decimal(field as nat);
    text::lemma_number_of_decimal(character as nat);
    let k = f.len() as int;
    if character > 0 {
        let tail = seq!['.'] + c + letters;
        assert(s =~= f + tail);
        lemma_digits_end_of(f, tail, 0);
        assert(s[k] == '.');
        assert(s.take(k) =~= f);
        let begin = f + seq!['.'];
        assert(s =~= begin + (c + letters));
        lemma_digits_end_behind(begin, c, letters, 0);
        let j = k + 1 + c.len();
        assert(begin + (c + letters) =~= s);
        assert(s.subrange(k + 1, j) =~= c);
        assert(s.skip(j) =~= letters);
    } else {
        assert(s =~= f + letters);
        lemma_digits_end_of(f, letters, 0);
        assert(s.take(k) =~= f);
        assert(s.skip(k) =~= letters);
        if k < s.len() {
            assert(s[k] == letters[0]);
        }
    }
    assert forall|i: int| 0 <= i < s.len() implies #[trigger] s[i] != ',' by {
        if i < k {
            assert(s[i] == f[i]);
        } else if character > 0 {
            if i == k {
                assert(s[i] == '.');
            } else if i < k + 1 + c.len() {
                assert(s[i] == c[i - k - 1]);
            } else {
                assert(s[i] == letters[i - k - 1 - c.len()]);
            }
        } else {
            assert(s[i] == letters[i - k]);
        }
    }
}

proof fn lemma_digits_end_behind(begin: Seq<char>, d: Seq<char>, x: Seq<char>, i: int)
    requires
        text::all_digits(d),
        0 <= i <= d.len(),
        x.len() == 0 || !text::is_digit(x[0]),
    ensures
        digits_end(begin + (d + x), begin.len() + i) == begin.len() + d.len(),
    decreases d.len() - i,
{
    let s = begin + (d + x);
    if i < d.len() {
        assert(s[begin.len() + i] == d[i]);
        lemma_digits_end_behind(begin, d, x, i + 1);
    } else if x.len() > 0 {
        assert(s[begin.len() + i] == x[0]);
    }
}

/// Whether modifiers are those whose letters a text holds.
pub open spec fn has_letters(m: KeyModifiers, s: Seq<char>) -> bool {
    &&& m.ignore_leading_blanks == s.contains('b')
    &&& m.dictionary_order == s.contains('d')
    &&& m.ignore_case == s.contains('f')
    &&& m.general_numeric == s.contains('g')
    &&& m.human_numeric == s.contains('h')
    &&& m.ignore_nonprinting == s.contains('i')
    &&& m.month == s.contains('M')
    &&& m.numeric == s.contains('n')
    &&& m.reverse == s.contains('r')
    &&& m.version == s.contains('V')
}

/// Whether a text holds one of the letters that stand for modifiers.
pub open spec fn holds_modifier(s: Seq<char>) -> bool {
    exists|i: int|
        0 <= i < s.len() && seq!['b', 'd', 'f', 'g', 'h', 'i', 'M', 'n', 'r', 'V'].contains(
            #[trigger] s[i],
        )
}

proof fn lemma_modifiers_read(a: Seq<char>, b: Seq<char>)
    ensures
        has_letters(merged(modifiers(a), modifiers(b)), a + b),
        any_modifier(modifiers(a)) || any_modifier(modifiers(b)) <==> holds_modifier(a + b),
{
    let s = a + b;
    let known = seq!['b', 'd', 'f', 'g', 'h', 'i', 'M', 'n', 'r', 'V'];
    assert(known[0] == 'b' && known[1] == 'd' && known[2] == 'f' && known[3] == 'g' && known[4]
        == 'h' && known[5] == 'i' && known[6] == 'M' && known[7] == 'n' && known[8] == 'r'
        && known[9] == 'V');
    assert forall|c: char| #[trigger] s.contains(c) <==> a.contains(c) || b.contains(c) by {
        if a.contains(c) {
            let i = choose|i: int| 0 <= i < a.len() && a[i] == c;
            assert(s[i] == c);
        }
        if b.contains(c) {
            let i = choose|i: int| 0 <= i < b.len() && b[i] == c;
            assert(s[a.len() + i] == c);
        }
        if s.contains(c) {
            let i = choose|i: int| 0 <= i < s.len() && s[i] == c;
            if i < a.len() {
                assert(a[i] == c);
            } else {
                assert(b[i - a.len()] == c);
            }
        }
    }
    let m = merged(modifiers(a), modifiers(b));
    assert(has_letters(m, s));
    assert(any_modifier(m) <==> any_modifier(modifiers(a)) || any_modifier(modifiers(b)));
    if holds_modifier(s) {
        let i = choose|i: int| 0 <= i < s.len() && known.contains(#[trigger] s[i]);
        let j = choose|j: int| 0 <= j < known.len() && known[j] == s[i];
        assert(s.contains(s[i]));
        assert(any_modifier(m));
    }
    if any_modifier(m) {
        let c = if m.ignore_leading_blanks {
            'b'
        } else if m.dictionary_order {
            'd'
        } else if m.ignore_case {
            'f'
        } else if m.general_numeric {
            'g'
        } else if m.human_numeric {
            'h'
        } else if m.ignore_nonprinting {
            'i'
        } else if m.month {
            'M'
        } else if m.numeric {
            'n'
        } else if m.reverse {
            'r'
        } else {
            'V'
        };
        assert(s.contains(c));
        let i = choose|i: int| 0 <= i < s.len() && s[i] == c;
        assert(known.contains(s[i]));
    }
}

proof fn lemma_no_comma(s: Seq<char>, t: Seq<char>, i: int)
    requires
        forall|k: int| 0 <= k < s.len() ==> #[trigger] s[k] != ',',
        0 <= i <= s.len(),
        t.len() > 0 ==> t[0] == ',',
    ensures
        text::find_from(s + t, ',', i) == s.len(),
    decreases s.len() - i,
{
    if i < s.len() {
        assert((s + t)[i] == s[i]);
        lemma_no_comma(s, t, i + 1);
    } else if t.len() > 0 {
        assert((s + t)[i] == t[0]);
    }
}

/// A key names a field, and behind a point the character in it that the key begins with, which is
/// the first where none is named; behind a comma it names in the same way where it ends, and without
/// a comma it has no end. Letters at either place are its modifiers, and without any the global ones
/// are. Fields count from one.
pub proof fn lemma_key_read(
    field: usize,
    character: usize,
    letters: Seq<char>,
    end_field: usize,
    end_char: usize,
    end_letters: Seq<char>,
    global: KeyModifiers,
)
    requires
        all_letters(letters),
        all_letters(end_letters),
    ensures
        ({
            let begin = place_text(field as nat, character as nat, letters);
            let whole = begin + seq![','] + place_text(
                end_field as nat,
                end_char as nat,
                end_letters,
            );
            let first: usize = if character == 0 {
                1
            } else {
                character
            };
            &&& key_spec(begin, global) is Ok <==> field > 0
            &&& key_spec(whole, global) is Ok <==> field > 0
            &&& key_spec(begin, global) matches Ok(key) ==> {
                &&& key.start_field == field
                &&& key.start_char == first
                &&& key.end_field == 0
                &&& key.end_char == 0
                &&& if holds_modifier(letters) {
                    has_letters(key.modifiers, letters)
                } else {
                    key.modifiers == global
                }
            }
            &&& key_spec(whole, global) matches Ok(key) ==> {
                &&& key.start_field == field
                &&& key.start_char == first
                &&& key.end_field == end_field
                &&& key.end_char == end_char
                &&& if holds_modifier(letters + end_letters) {
                    has_letters(key.modifiers, letters + end_letters)
                } else {
                    key.modifiers == global
                }
            }
        }),
{
    let begin = place_text(field as nat, character as nat, letters);
    let end = place_text(end_field as nat, end_char as nat, end_letters);
    let whole = begin + seq![','] + end;
    lemma_place_read(field, character, letters);
    lemma_place_read(end_field, end_char, end_letters);
    lemma_no_comma(begin, Seq::empty(), 0);
    assert(begin + Seq::<char>::empty() =~= begin);
    assert(begin.take(begin.len() as int) =~= begin);
    lemma_no_comma(begin, seq![','] + end, 0);
    assert(whole =~= begin + (seq![','] + end));
    assert(whole.take(begin.len() as int) =~= begin);
    assert(whole.skip(begin.len() as int + 1) =~= end);
    lemma_modifiers_read(letters, end_letters);
    lemma_modifiers_read(letters, Seq::empty());
    assert(letters + Seq::<char>::empty() =~= letters);
    assert(modifiers(Seq::<char>::empty()) == no_modifiers());
}

/// -b drops the white space that a key begins with, and without it that counts.
pub proof fn lemma_leading_blanks(blanks: Seq<char>, key: Seq<char>, m: KeyModifiers)
    requires
        forall|i: int| 0 <= i < blanks.len() ==> text::is_white(#[trigger] blanks[i]),
        key.len() > 0 ==> !text::is_white(key[0]),
        m.ignore_leading_blanks,
    ensures
        modified(blanks + key, m) == modified(
            key,
            KeyModifiers { ignore_leading_blanks: false, ..m },
        ),
    decreases blanks.len(),
{
    if blanks.len() == 0 {
        assert(blanks + key =~= key);
    } else {
        assert((blanks + key)[0] == blanks[0]);
        assert((blanks + key).skip(1) =~= blanks.skip(1) + key);
        lemma_leading_blanks(blanks.skip(1), key, m);
    }
}

/// -d keeps a character where it is a letter, a digit or white space, -i where it is no control
/// code, and both together where it is both; the others are passed over.
pub proof fn lemma_characters_passed_over(key: Seq<char>, c: char, m: KeyModifiers)
    requires
        !m.ignore_leading_blanks,
        !m.ignore_case,
    ensures
        modified(key.push(c), m) == if (!m.dictionary_order || text::is_alphanumeric(c)
            || text::is_white(c)) && (!m.ignore_nonprinting || !text::is_control(c)) {
            modified(key, m).push(c)
        } else {
            modified(key, m)
        },
        modified(Seq::empty(), m) == Seq::<char>::empty(),
{
    reveal(Seq::filter);
    let d = kept(key, in_dictionary());
    assert(key.push(c).drop_last() =~= key);
    assert(d.push(c).drop_last() =~= d);
}

proof fn lemma_equal_keys_chain(
    x: Seq<char>,
    y: Seq<char>,
    z: Seq<char>,
    o: SortView,
    num: number::Reader,
)
    requires
        line_placed(x, o, num),
        line_placed(y, o, num),
        line_placed(z, o, num),
        line_order(x, y, o, num, true) == Order::Equal,
        line_order(y, z, o, num, true) == Order::Equal,
    ensures
        line_order(x, z, o, num, true) == Order::Equal,
        line_order(z, x, o, num, true) == Order::Equal,
        line_order(y, x, o, num, true) == Order::Equal,
        line_order(z, y, o, num, true) == Order::Equal,
{
    lemma_lines_consistent(x, y, z, o, num, true);
    lemma_lines_consistent(z, y, x, o, num, true);
    lemma_lines_consistent(y, z, x, o, num, true);
    lemma_lines_consistent(x, z, y, o, num, true);
}

proof fn lemma_last_kept(lines: Seq<Seq<char>>, o: SortView, num: number::Reader)
    requires
        lines_placed(lines, o, num),
        lines.len() > 0,
    ensures
        ({
            let r = deduplicated(lines, o, num);
            &&& r.len() > 0
            &&& line_placed(r.last(), o, num)
            &&& line_order(lines.last(), r.last(), o, num, true) == Order::Equal
        }),
    decreases lines.len(),
{
    let r = deduplicated(lines, o, num);
    let init = lines.drop_last();
    let before = deduplicated(init, o, num);
    let last = lines.last();
    assert(line_placed(lines[lines.len() - 1], o, num));
    lemma_lines_consistent(last, last, last, o, num, true);
    if init.len() > 0 {
        assert forall|i: int| 0 <= i < init.len() implies line_placed(#[trigger] init[i], o, num) by {
            assert(line_placed(lines[i], o, num));
        }
        lemma_last_kept(init, o, num);
    } else {
        assert(before.len() == 0);
    }
}

/// With -u a line is kept exactly where its keys differ from those of the line before it, so that of
/// lines with equal keys the first stays.
pub proof fn lemma_first_of_equals_kept(lines: Seq<Seq<char>>, o: SortView, num: number::Reader)
    requires
        lines_placed(lines, o, num),
        lines.len() > 0,
    ensures
        lines.len() == 1 ==> deduplicated(lines, o, num) == lines,
        lines.len() > 1 ==> deduplicated(lines, o, num) == if line_order(
            lines[lines.len() - 1],
            lines[lines.len() - 2],
            o,
            num,
            true,
        ) == Order::Equal {
            deduplicated(lines.drop_last(), o, num)
        } else {
            deduplicated(lines.drop_last(), o, num).push(lines.last())
        },
{
    let init = lines.drop_last();
    let last = lines.last();
    assert(line_placed(lines[lines.len() - 1], o, num));
    if lines.len() == 1 {
        assert(deduplicated(init, o, num).len() == 0);
        assert(deduplicated(lines, o, num) =~= lines);
    } else {
        assert forall|i: int| 0 <= i < init.len() implies line_placed(#[trigger] init[i], o, num) by {
            assert(line_placed(lines[i], o, num));
        }
        lemma_last_kept(init, o, num);
        let kept = deduplicated(init, o, num).last();
        let prev = init.last();
        assert(prev == lines[lines.len() - 2]);
        assert(line_placed(init[init.len() - 1], o, num));
        lemma_lines_consistent(prev, kept, prev, o, num, true);
        if line_order(last, prev, o, num, true) == Order::Equal {
            lemma_equal_keys_chain(last, prev, kept, o, num);
        }
        if line_order(last, kept, o, num, true) == Order::Equal {
            lemma_equal_keys_chain(last, kept, prev, o, num);
        }
    }
}

/// What those of the first `n` files hold that can be read, one after another, each ended with a
/// newline.
pub open spec fn contents_read<FS: Filesystem>(s: FS, files: Seq<Seq<char>>, n: int) -> Seq<char>
    decreases n,
{
    if n <= 0 {
        Seq::empty()
    } else {
        contents_read(s, files, n - 1) + match fs::read_at(s, files, n - 1) {
            Ok(t) => if t.len() > 0 && t.last() == '\n' {
                t
            } else {
                t.push('\n')
            },
            Err(_) => Seq::empty(),
        }
    }
}

proof fn lemma_files_read_from<FS: Filesystem>(
    v: env::EnvView<FS>,
    s: FS,
    err: Seq<char>,
    files: Seq<Seq<char>>,
    i: int,
)
    requires
        forall|k: int| 0 <= k < files.len() ==> #[trigger] files[k] != "-"@,
        !v.merged,
        0 <= i <= files.len(),
        v.fs == fs::after_reads(s, files, i),
        v.err == err + text::unlines(fs::complaints(s, seq!['s', 'o', 'r', 't'], files, i)),
    ensures
        ({
            let n = files.len() as int;
            let (w, all) = files_read(v, files, i, false, contents_read(s, files, i));
            &&& all == contents_read(s, files, n)
            &&& w.err == err + text::unlines(
                fs::complaints(s, seq!['s', 'o', 'r', 't'], files, n),
            )
            &&& w.out == v.out
        }),
    decreases files.len() - i,
{
    if i < files.len() {
        reveal_strlit("\n");
        reveal_strlit("sort: ");
        reveal_strlit(": ");
        assert(files[i] != "-"@);
        let w = v.with_fs(v.fs.after(fs::Request::Read(files[i])));
        let done = contents_read(s, files, i);
        match v.fs.reads(files[i]) {
            Ok(t) => {
                assert(fs::read_at(s, files, i) == Ok::<Seq<char>, fs::IoView>(t));
                assert("\n"@ =~= seq!['\n']);
                if t.len() > 0 {
                    assert(t.skip(t.len() - 1)[0] == t.last());
                    if t.last() == '\n' {
                        assert(t.skip(t.len() - 1) =~= "\n"@);
                    }
                }
                assert((done + t).push('\n') =~= done + t.push('\n'));
                lemma_files_read_from(w, s, err, files, i + 1);
            },
            Err(e) => {
                assert(fs::read_at(s, files, i) == Err::<Seq<char>, fs::IoView>(e));
                let line = "sort: "@ + files[i] + ": "@ + e.message;
                let before = fs::complaints(s, seq!['s', 'o', 'r', 't'], files, i);
                assert(line =~= seq!['s', 'o', 'r', 't'] + seq![':', ' '] + files[i] + seq![':', ' ']
                    + e.message) by {
                    assert("sort: "@ =~= seq!['s', 'o', 'r', 't'] + seq![':', ' ']);
                    assert(": "@ =~= seq![':', ' ']);
                }
                assert(before.push(line).drop_last() =~= before);
                let y = w.error_line(line);
                assert(y.err =~= err + text::unlines(before.push(line)));
                assert(done + Seq::<char>::empty() =~= done);
                lemma_files_read_from(y, s, err, files, i + 1);
            },
        }
    }
}

/// Files are read one after another, and one that does not end with a newline is ended with one. Each
/// that cannot be read is named on the error stream with the reason, and the others count all the
/// same.
pub proof fn lemma_files_read_in_turn<FS: Filesystem>(v: env::EnvView<FS>, files: Seq<Seq<char>>)
    requires
        forall|k: int| 0 <= k < files.len() ==> #[trigger] files[k] != "-"@,
        files.len() > 0,
        !v.merged,
    ensures
        ({
            let n = files.len() as int;
            let (w, all) = input_read(v, files, false);
            &&& all == contents_read(v.fs, files, n)
            &&& w.err == v.err + text::unlines(
                fs::complaints(v.fs, seq!['s', 'o', 'r', 't'], files, n),
            )
            &&& w.out == v.out
        }),
{
    assert(v.err + Seq::<char>::empty() =~= v.err);
    lemma_files_read_from(v, v.fs, v.err, files, 0);
}

/// With -o the file gets what would otherwise be printed, and nothing is printed.
pub proof fn lemma_output_into_file<FS: Filesystem>(
    v: env::EnvView<FS>,
    p: options::ParsedView,
    plain: options::ParsedView,
    o: SortView,
    num: number::Reader,
    file: Seq<char>,
)
    requires
        p.free == plain.free,
        !p.present('c') && !p.present('C') && !p.present('R'),
        !plain.present('c') && !plain.present('C') && !plain.present('R'),
        p.value('o') == Some(file),
        plain.value('o') is None,
    ensures
        ({
            let (w, input) = input_read(v, p.free, o.zero_terminated);
            let out = sorted_text(input, o, num);
            let (x, r) = performed(v, p, o, num);
            let (y, s) = performed(v, plain, o, num);
            &&& y.out == w.out + out
            &&& s == Ok::<int, env::ErrorView>(0)
            &&& x.fs == w.fs.after(fs::Request::Write(file, out))
            &&& w.fs.writes(file, out) is Ok ==> x.out == w.out && r == Ok::<int, env::ErrorView>(0)
            &&& w.fs.writes(file, out) is Err ==> r == Ok::<int, env::ErrorView>(2)
        }),
{
}

/// A number with a unit is read as the number before the letter, times a power of 1024: the first for
/// `K` and one more for each of `M`, `G`, `T`, `P` and `E`.
pub proof fn lemma_human_units(digits: Seq<char>, k: int)
    requires
        digits.len() > 0,
        !text::is_white(digits[0]),
        !text::is_white(digits.last()),
        forall|i: int| 0 <= i < digits.len() ==> !text::is_alphabetic(#[trigger] digits[i]),
        0 <= k < 6,
        text::is_alphabetic(seq!['K', 'M', 'G', 'T', 'P', 'E'][k]),
    ensures
        human(digits) == (digits, 0u32),
        human(digits.push(seq!['K', 'M', 'G', 'T', 'P', 'E'][k])).0 == digits,
        human(digits.push(seq!['K', 'M', 'G', 'T', 'P', 'E'][k])).1 == k + 1,
{
    let letters = seq!['K', 'M', 'G', 'T', 'P', 'E'];
    assert(letters[0] == 'K' && letters[1] == 'M' && letters[2] == 'G' && letters[3] == 'T'
        && letters[4] == 'P' && letters[5] == 'E');
    let c = letters[k];
    let s = digits.push(c);
    assert(s[0] == digits[0]);
    assert(text::trim(digits) == digits);
    assert(text::trim(s) == s);
    lemma_no_letter(digits, Seq::empty(), 0);
    assert(digits + Seq::<char>::empty() =~= digits);
    assert(digits.take(digits.len() as int) =~= digits);
    lemma_no_letter(digits, seq![c], 0);
    assert(digits + seq![c] =~= s);
    assert(s.take(digits.len() as int) =~= digits);
}

proof fn lemma_no_letter(s: Seq<char>, t: Seq<char>, i: int)
    requires
        forall|k: int| 0 <= k < s.len() ==> !text::is_alphabetic(#[trigger] s[k]),
        t.len() > 0 ==> text::is_alphabetic(t[0]),
        0 <= i <= s.len(),
    ensures
        first_letter(s + t, i) == s.len(),
    decreases s.len() - i,
{
    if i < s.len() {
        assert((s + t)[i] == s[i]);
        lemma_no_letter(s, t, i + 1);
    } else if t.len() > 0 {
        assert((s + t)[i] == t[0]);
    }
}

} // verus!
