//! Text as sequences of characters: splitting, joining, searching and numbers.

use vstd::prelude::*;

verus! {

broadcast use vstd::string::group_string_axioms;

/// `String::push` puts one character behind the text.
pub assume_specification[ String::push ](s: &mut String, ch: char)
    ensures
        final(s)@ == old(s)@.push(ch),
;

/// The parts one after another.
pub open spec fn concat(parts: Seq<Seq<char>>) -> Seq<char>
    decreases parts.len(),
{
    if parts.len() == 0 {
        Seq::empty()
    } else {
        concat(parts.drop_last()) + parts.last()
    }
}

/// The parts with `sep` between each two neighbours.
pub open spec fn join(parts: Seq<Seq<char>>, sep: Seq<char>) -> Seq<char>
    decreases parts.len(),
{
    if parts.len() == 0 {
        Seq::empty()
    } else if parts.len() == 1 {
        parts[0]
    } else {
        join(parts.drop_last(), sep) + sep + parts.last()
    }
}

/// The line followed by a newline.
pub open spec fn terminated(line: Seq<char>) -> Seq<char> {
    line.push('\n')
}

/// Every line followed by a newline.
pub open spec fn unlines(lines: Seq<Seq<char>>) -> Seq<char>
    decreases lines.len(),
{
    if lines.len() == 0 {
        Seq::empty()
    } else {
        unlines(lines.drop_last()) + terminated(lines.last())
    }
}

/// The first index from `i` on that holds `c`; the length where there is none.
pub open spec fn find_from(s: Seq<char>, c: char, i: int) -> int
    decreases s.len() - i,
{
    if i < 0 || i >= s.len() {
        s.len() as int
    } else if s[i] == c {
        i
    } else {
        find_from(s, c, i + 1)
    }
}

/// The text before the first `c`, or all of it.
pub open spec fn head_of(s: Seq<char>, c: char) -> Seq<char> {
    s.take(find_from(s, c, 0))
}

/// The pieces of `s` between the occurrences of `sep`.
pub open spec fn split(s: Seq<char>, sep: char) -> Seq<Seq<char>>
    decreases s.len(),
{
    let k = find_from(s, sep, 0);
    if 0 <= k < s.len() {
        seq![s.take(k)] + split(s.skip(k + 1), sep)
    } else {
        seq![s]
    }
}

/// A line without the carriage return at its end.
pub open spec fn strip_cr(s: Seq<char>) -> Seq<char> {
    if s.len() > 0 && s.last() == '\r' {
        s.drop_last()
    } else {
        s
    }
}

/// The lines of `s`: each ends at a newline, which is no part of it, nor is a carriage return
/// just before that newline. Text behind the last newline is a line where it is not empty.
pub open spec fn lines(s: Seq<char>) -> Seq<Seq<char>>
    decreases s.len(),
{
    let k = find_from(s, '\n', 0);
    if s.len() == 0 {
        Seq::empty()
    } else if 0 <= k < s.len() {
        seq![strip_cr(s.take(k))] + lines(s.skip(k + 1))
    } else {
        seq![s]
    }
}

pub proof fn find_from_bounds(s: Seq<char>, c: char, i: int)
    requires
        0 <= i <= s.len(),
    ensures
        i <= find_from(s, c, i) <= s.len(),
        find_from(s, c, i) < s.len() ==> s[find_from(s, c, i)] == c,
        forall|j: int| i <= j < find_from(s, c, i) ==> s[j] != c,
    decreases s.len() - i,
{
    if i < s.len() && s[i] != c {
        find_from_bounds(s, c, i + 1);
    }
}

pub proof fn find_from_unique(s: Seq<char>, c: char, i: int, k: int)
    requires
        0 <= i <= k <= s.len(),
        forall|j: int| i <= j < k ==> s[j] != c,
        k < s.len() ==> s[k] == c,
    ensures
        find_from(s, c, i) == k,
    decreases k - i,
{
    if i < k {
        find_from_unique(s, c, i + 1, k);
    }
}

/// Splitting takes nothing away but the separators: joined again, the pieces give the text.
pub proof fn lemma_join_split(s: Seq<char>, sep: char)
    ensures
        join(split(s, sep), seq![sep]) == s,
    decreases s.len(),
{
    let k = find_from(s, sep, 0);
    find_from_bounds(s, sep, 0);
    if k < s.len() {
        let rest = split(s.skip(k + 1), sep);
        lemma_join_split(s.skip(k + 1), sep);
        split_nonempty(s.skip(k + 1), sep);
        lemma_join_first(s.take(k), rest, seq![sep]);
        assert(s =~= s.take(k) + seq![sep] + s.skip(k + 1));
    }
}

pub proof fn split_nonempty(s: Seq<char>, sep: char)
    ensures
        split(s, sep).len() > 0,
    decreases s.len(),
{
    let k = find_from(s, sep, 0);
    if 0 <= k < s.len() {
        split_nonempty(s.skip(k + 1), sep);
    }
}

pub proof fn lemma_join_first(first: Seq<char>, rest: Seq<Seq<char>>, sep: Seq<char>)
    requires
        rest.len() > 0,
    ensures
        join(seq![first] + rest, sep) == first + sep + join(rest, sep),
    decreases rest.len(),
{
    let all = seq![first] + rest;
    assert(all.last() == rest.last());
    assert(all.drop_last() =~= seq![first] + rest.drop_last());
    if rest.len() == 1 {
        assert(all.drop_last() =~= seq![first]);
        assert(join(all.drop_last(), sep) == first);
        assert(join(rest, sep) == rest[0]);
    } else {
        lemma_join_first(first, rest.drop_last(), sep);
        assert(join(all, sep) =~= first + sep + join(rest, sep));
    }
}

/// The characters of a text.
pub fn chars(s: &str) -> (r: Vec<char>)
    ensures
        r@ == s@,
{
    let mut v: Vec<char> = Vec::new();
    for c in it: s.chars()
        invariant
            v@ == it.seq().take(it.index()),
            it.seq() == s@,
    {
        v.push(c);
    }
    assert(s@.take(s@.len() as int) =~= s@);
    v
}

/// The text made of the characters from `from` up to, not including, `to`.
pub fn slice(v: &Vec<char>, from: usize, to: usize) -> (r: String)
    requires
        from <= to <= v@.len(),
    ensures
        r@ == v@.subrange(from as int, to as int),
{
    let mut s = String::new();
    let mut i: usize = from;
    while i < to
        invariant
            from <= i <= to <= v@.len(),
            s@ == v@.subrange(from as int, i as int),
        decreases to - i,
    {
        s.push(v[i]);
        i += 1;
    }
    s
}

/// Whether two texts hold the same characters.
pub fn same(a: &str, b: &str) -> (r: bool)
    ensures
        r == (a@ == b@),
{
    a.to_owned() == b.to_owned()
}

/// The first index from `i` on that holds `c`.
pub fn find(v: &Vec<char>, c: char, i: usize) -> (r: usize)
    requires
        i <= v@.len(),
    ensures
        r == find_from(v@, c, i as int),
        i <= r <= v@.len(),
{
    let mut k: usize = i;
    while k < v.len() && v[k] != c
        invariant
            i <= k <= v@.len(),
            find_from(v@, c, k as int) == find_from(v@, c, i as int),
        decreases v.len() - k,
    {
        k += 1;
    }
    k
}

pub proof fn find_from_skip(s: Seq<char>, c: char, from: int)
    requires
        0 <= from <= s.len(),
    ensures
        find_from(s.skip(from), c, 0) == find_from(s, c, from) - from,
{
    find_from_bounds(s, c, from);
    let k = find_from(s, c, from) - from;
    assert forall|j: int| 0 <= j < k implies s.skip(from)[j] != c by {
        assert(s.skip(from)[j] == s[from + j]);
    }
    find_from_unique(s.skip(from), c, 0, k);
}

/// Splits a text at every `sep`.
pub fn split_at_char(s: &str, sep: char) -> (r: Vec<String>)
    ensures
        r.deep_view() == split(s@, sep),
{
    let v = chars(s);
    let mut out: Vec<String> = Vec::new();
    let mut start: usize = 0;
    assert(s@.skip(0) =~= s@);
    assert(out.deep_view() + split(s@, sep) =~= split(s@, sep));
    loop
        invariant_except_break
            start <= v@.len(),
            v@ == s@,
            out.deep_view() + split(s@.skip(start as int), sep) == split(s@, sep),
        ensures
            out.deep_view() == split(s@, sep),
        decreases v@.len() - start,
    {
        let k = find(&v, sep, start);
        proof {
            find_from_skip(s@, sep, start as int);
        }
        let ghost before = out.deep_view();
        let piece = slice(&v, start, k);
        assert(piece@ =~= s@.skip(start as int).take(k - start));
        out.push(piece);
        assert(out.deep_view() =~= before.push(piece@));
        if k >= v.len() {
            assert(piece@ =~= s@.skip(start as int));
            assert(out.deep_view() =~= before + seq![piece@]);
            break;
        }
        proof {
            let rest = split(s@.skip(k + 1), sep);
            assert(s@.skip(start as int).skip(k - start + 1) =~= s@.skip(k + 1));
            assert(out.deep_view() + rest =~= before + (seq![piece@] + rest));
        }
        start = k + 1;
    }
    out
}

/// The lines of a text.
pub fn lines_of(s: &str) -> (r: Vec<String>)
    ensures
        r.deep_view() == lines(s@),
{
    let v = chars(s);
    let mut out: Vec<String> = Vec::new();
    let mut start: usize = 0;
    assert(s@.skip(0) =~= s@);
    assert(out.deep_view() + lines(s@) =~= lines(s@));
    while start < v.len()
        invariant
            start <= v@.len(),
            v@ == s@,
            out.deep_view() + lines(s@.skip(start as int)) == lines(s@),
        decreases v@.len() - start,
    {
        let k = find(&v, '\n', start);
        proof {
            find_from_skip(s@, '\n', start as int);
        }
        let ghost before = out.deep_view();
        let ghost here = s@.skip(start as int);
        if k >= v.len() {
            let piece = slice(&v, start, k);
            assert(piece@ =~= here);
            out.push(piece);
            assert(out.deep_view() =~= before + seq![piece@]);
            start = v.len();
            assert(lines(s@.skip(start as int)) =~= Seq::<Seq<char>>::empty());
            assert(out.deep_view() + lines(s@.skip(start as int)) =~= out.deep_view());
        } else {
            let end: usize = if k > start && v[k - 1] == '\r' {
                k - 1
            } else {
                k
            };
            let piece = slice(&v, start, end);
            assert(piece@ =~= strip_cr(here.take(k - start)));
            out.push(piece);
            proof {
                let rest = lines(s@.skip(k + 1));
                assert(here.skip(k - start + 1) =~= s@.skip(k + 1));
                assert(out.deep_view() =~= before.push(piece@));
                assert(out.deep_view() + rest =~= before + (seq![piece@] + rest));
            }
            start = k + 1;
        }
    }
    assert(lines(s@.skip(start as int)) =~= Seq::<Seq<char>>::empty());
    assert(out.deep_view() + lines(s@.skip(start as int)) =~= out.deep_view());
    out
}

/// The parts with `sep` between each two neighbours.
pub fn join_with(parts: &Vec<String>, sep: &str) -> (r: String)
    ensures
        r@ == join(parts.deep_view(), sep@),
{
    let mut s = String::new();
    let mut i: usize = 0;
    while i < parts.len()
        invariant
            i <= parts@.len(),
            s@ == join(parts.deep_view().take(i as int), sep@),
        decreases parts.len() - i,
    {
        proof {
            let t = parts.deep_view().take(i + 1);
            assert(t.drop_last() =~= parts.deep_view().take(i as int));
            assert(t.last() == parts[i as int]@);
            assert(s@ + sep@ + parts[i as int]@ =~= s@ + sep@ + t.last());
            if i == 0 {
                assert(s@ + t[0] =~= t[0]);
            }
        }
        if i > 0 {
            s.append(sep);
        }
        s.append(parts[i].as_str());
        i += 1;
    }
    assert(parts.deep_view().take(i as int) =~= parts.deep_view());
    s
}

pub open spec fn is_digit(c: char) -> bool {
    '0' <= c <= '9'
}

pub open spec fn is_letter(c: char) -> bool {
    ('a' <= c <= 'z') || ('A' <= c <= 'Z')
}

/// Whether the character is one of `0` to `9`.
pub fn digit(c: char) -> (r: bool)
    ensures
        r == is_digit(c),
{
    '0' <= c && c <= '9'
}

/// Whether the character is a letter of the ASCII alphabet.
pub fn letter(c: char) -> (r: bool)
    ensures
        r == is_letter(c),
{
    ('a' <= c && c <= 'z') || ('A' <= c && c <= 'Z')
}

pub open spec fn all_digits(s: Seq<char>) -> bool {
    forall|i: int| 0 <= i < s.len() ==> is_digit(#[trigger] s[i])
}

/// The number that a sequence of decimal digits writes.
pub open spec fn number(s: Seq<char>) -> nat
    decreases s.len(),
{
    if s.len() == 0 {
        0
    } else {
        number(s.drop_last()) * 10 + (s.last() as nat - '0' as nat) as nat
    }
}

/// What a text reads as: an optional `+`, then one or more decimal digits, whose number is at
/// most `limit`.
pub open spec fn unsigned(s: Seq<char>, limit: nat) -> Option<nat> {
    let body = if s.len() > 0 && s[0] == '+' { s.skip(1) } else { s };
    if body.len() > 0 && all_digits(body) && number(body) <= limit {
        Some(number(body))
    } else {
        None
    }
}

proof fn number_grows(s: Seq<char>, k: int)
    requires
        0 <= k <= s.len(),
        all_digits(s),
    ensures
        number(s.take(k)) <= number(s),
    decreases s.len() - k,
{
    if k < s.len() {
        let t = s.take(k + 1);
        assert(t.drop_last() =~= s.take(k));
        number_grows(s, k + 1);
    } else {
        assert(s.take(k) =~= s);
    }
}

/// Reads the characters from `from` on as decimal digits.
pub fn digits_from(v: &Vec<char>, from: usize, limit: u64) -> (r: Option<u64>)
    requires
        from <= v@.len(),
    ensures
        r is Some <==> v@.len() > from && all_digits(v@.skip(from as int)) && number(
            v@.skip(from as int),
        ) <= limit,
        r matches Some(n) ==> n == number(v@.skip(from as int)),
{
    let ghost body = v@.skip(from as int);
    if from >= v.len() {
        return None;
    }
    let mut n: u64 = 0;
    let mut i: usize = from;
    while i < v.len()
        invariant
            from <= i <= v@.len(),
            body == v@.skip(from as int),
            n == number(body.take(i - from)),
            n <= limit,
            forall|j: int| from <= j < i ==> is_digit(#[trigger] v@[j]),
        decreases v.len() - i,
    {
        let c = v[i];
        if !digit(c) {
            assert(!is_digit(body[i - from]));
            return None;
        }
        let d: u64 = (c as u32 - '0' as u32) as u64;
        proof {
            let t = body.take(i - from + 1);
            assert(t.drop_last() =~= body.take(i - from));
            assert(number(t) == n * 10 + d);
            if all_digits(body) {
                number_grows(body, i - from + 1);
            }
        }
        if d > limit || n > limit / 10 || n * 10 > limit - d {
            return None;
        }
        n = n * 10 + d;
        i += 1;
    }
    proof {
        assert(body.take(i - from) =~= body);
        assert forall|j: int| 0 <= j < body.len() implies is_digit(#[trigger] body[j]) by {
            assert(body[j] == v@[from + j]);
        }
    }
    Some(n)
}

/// Reads a text as an unsigned number of at most `limit`.
pub fn parse_unsigned(s: &str, limit: u64) -> (r: Option<u64>)
    ensures
        match r {
            Some(n) => unsigned(s@, limit as nat) == Some(n as nat),
            None => unsigned(s@, limit as nat) is None,
        },
{
    let v = chars(s);
    assert(v@.skip(0) =~= v@);
    if v.len() > 0 && v[0] == '+' {
        digits_from(&v, 1, limit)
    } else {
        digits_from(&v, 0, limit)
    }
}

/// What a text reads as: an optional `+` or `-`, then one or more decimal digits, whose number
/// lies between `-limit - 1` and `limit`.
pub open spec fn signed(s: Seq<char>, limit: nat) -> Option<int> {
    if s.len() > 0 && s[0] == '-' {
        let body = s.skip(1);
        if body.len() > 0 && all_digits(body) && number(body) <= limit + 1 {
            Some(-number(body))
        } else {
            None
        }
    } else {
        match unsigned(s, limit) {
            Some(n) => Some(n as int),
            None => None,
        }
    }
}

/// Reads a text as a signed number between `-limit - 1` and `limit`.
pub fn parse_signed(s: &str, limit: i64) -> (r: Option<i64>)
    requires
        0 <= limit,
    ensures
        match r {
            Some(n) => signed(s@, limit as nat) == Some(n as int),
            None => signed(s@, limit as nat) is None,
        },
{
    let v = chars(s);
    if v.len() > 0 && v[0] == '-' {
        match digits_from(&v, 1, limit as u64 + 1) {
            Some(n) => {
                if n == 0 {
                    Some(0)
                } else {
                    Some(-((n - 1) as i64) - 1)
                }
            },
            None => None,
        }
    } else {
        match parse_unsigned(s, limit as u64) {
            Some(n) => Some(n as i64),
            None => None,
        }
    }
}

pub open spec fn digit_char(d: int) -> char {
    ('0' as int + d) as char
}

/// A number in decimal digits, without leading zeros.
pub open spec fn decimal(n: nat) -> Seq<char>
    decreases n,
{
    if n < 10 {
        seq![digit_char(n as int)]
    } else {
        decimal(n / 10).push(digit_char((n % 10) as int))
    }
}

/// A number, negative or not, in decimal digits.
pub open spec fn signed_decimal(n: int) -> Seq<char> {
    if n < 0 {
        seq!['-'] + decimal((-n) as nat)
    } else {
        decimal(n as nat)
    }
}

/// Writes a number in decimal digits.
pub fn to_decimal(n: u64) -> (r: String)
    ensures
        r@ == decimal(n as nat),
    decreases n,
{
    let d = (48u8 + (n % 10) as u8) as char;
    if n < 10 {
        let mut s = String::new();
        s.push(d);
        assert(s@ =~= decimal(n as nat));
        s
    } else {
        let mut s = to_decimal(n / 10);
        s.push(d);
        s
    }
}

/// Writes a number, negative or not, in decimal digits.
pub fn to_signed_decimal(n: i64) -> (r: String)
    ensures
        r@ == signed_decimal(n as int),
{
    if n < 0 {
        let mut s = "-".to_owned();
        proof {
            reveal_strlit("-");
            assert("-"@ =~= seq!['-']);
        }
        let m: u64 = (-(n + 1)) as u64 + 1;
        let t = to_decimal(m);
        s.append(t.as_str());
        s
    } else {
        to_decimal(n as u64)
    }
}

/// A number that is written and read again is the same number.
pub proof fn lemma_number_of_decimal(n: nat)
    ensures
        number(decimal(n)) == n,
        all_digits(decimal(n)),
        decimal(n).len() > 0,
    decreases n,
{
    if n >= 10 {
        lemma_number_of_decimal(n / 10);
        assert(decimal(n).drop_last() =~= decimal(n / 10));
    } else {
        assert(decimal(n).drop_last() =~= Seq::<char>::empty());
        assert(number(decimal(n).drop_last()) == 0);
    }
}

/// Whether `s` begins with `prefix`.
pub open spec fn starts_with(s: Seq<char>, prefix: Seq<char>) -> bool {
    prefix.len() <= s.len() && s.take(prefix.len() as int) == prefix
}

/// Whether `s` ends with `suffix`.
pub open spec fn ends_with(s: Seq<char>, suffix: Seq<char>) -> bool {
    suffix.len() <= s.len() && s.skip(s.len() - suffix.len()) == suffix
}

/// Whether the characters from `at` on are those of `part`.
pub fn has_at(v: &Vec<char>, at: usize, part: &Vec<char>) -> (r: bool)
    requires
        at + part@.len() <= v@.len(),
    ensures
        r == (v@.subrange(at as int, at + part@.len()) == part@),
{
    let n: usize = v.len();
    let mut i: usize = 0;
    while i < part.len()
        invariant
            i <= part@.len(),
            n == v@.len(),
            at + part@.len() <= n,
            forall|j: int| 0 <= j < i ==> v@[at + j] == part@[j],
        decreases part.len() - i,
    {
        if v[at + i] != part[i] {
            assert(v@.subrange(at as int, at + part@.len())[i as int] != part@[i as int]);
            return false;
        }
        i += 1;
    }
    assert(v@.subrange(at as int, at + part@.len()) =~= part@);
    true
}

/// Whether a text begins with another.
pub fn has_prefix(s: &str, prefix: &str) -> (r: bool)
    ensures
        r == starts_with(s@, prefix@),
{
    let v = chars(s);
    let p = chars(prefix);
    if p.len() > v.len() {
        return false;
    }
    assert(v@.subrange(0, p@.len() as int) =~= v@.take(p@.len() as int));
    has_at(&v, 0, &p)
}

/// Whether a text ends with another.
pub fn has_suffix(s: &str, suffix: &str) -> (r: bool)
    ensures
        r == ends_with(s@, suffix@),
{
    let v = chars(s);
    let p = chars(suffix);
    if p.len() > v.len() {
        return false;
    }
    assert(v@.subrange(v@.len() - p@.len(), v@.len() as int) =~= v@.skip(v@.len() - p@.len()));
    has_at(&v, v.len() - p.len(), &p)
}

/// The text from its `n`-th character on.
pub fn drop_chars(s: &str, n: usize) -> (r: String)
    requires
        n <= s@.len(),
    ensures
        r@ == s@.skip(n as int),
{
    let v = chars(s);
    let t = slice(&v, n, v.len());
    assert(t@ =~= s@.skip(n as int));
    t
}

/// Whether a text holds a character.
pub fn has_char(s: &str, c: char) -> (r: bool)
    ensures
        r == s@.contains(c),
{
    let v = chars(s);
    let k = find(&v, c, 0);
    proof {
        find_from_bounds(v@, c, 0);
    }
    k < v.len()
}

/// Whether a character is white space, by the property `White_Space` of Unicode.
pub open spec fn is_white(c: char) -> bool {
    ||| 0x09 <= c as u32 <= 0x0d
    ||| c as u32 == 0x20
    ||| c as u32 == 0x85
    ||| c as u32 == 0xa0
    ||| c as u32 == 0x1680
    ||| 0x2000 <= c as u32 <= 0x200a
    ||| 0x2028 <= c as u32 <= 0x2029
    ||| c as u32 == 0x202f
    ||| c as u32 == 0x205f
    ||| c as u32 == 0x3000
}

/// Whether a character is white space, by the property `White_Space` of Unicode.
pub fn white(c: char) -> (r: bool)
    ensures
        r == is_white(c),
{
    let n: u32 = c as u32;
    (0x09 <= n && n <= 0x0d) || n == 0x20 || n == 0x85 || n == 0xa0 || n == 0x1680 || (0x2000 <= n
        && n <= 0x200a) || (0x2028 <= n && n <= 0x2029) || n == 0x202f || n == 0x205f || n == 0x3000
}

pub open spec fn trim_start(s: Seq<char>) -> Seq<char>
    decreases s.len(),
{
    if s.len() > 0 && is_white(s[0]) {
        trim_start(s.skip(1))
    } else {
        s
    }
}

pub open spec fn trim_end(s: Seq<char>) -> Seq<char>
    decreases s.len(),
{
    if s.len() > 0 && is_white(s.last()) {
        trim_end(s.drop_last())
    } else {
        s
    }
}

/// The text without the white space at both ends.
pub open spec fn trim(s: Seq<char>) -> Seq<char> {
    trim_end(trim_start(s))
}

/// The text without the white space at its start.
pub fn trimmed_start(s: &str) -> (r: String)
    ensures
        r@ == trim_start(s@),
{
    let v = chars(s);
    let mut i: usize = 0;
    assert(v@.skip(0) =~= v@);
    while i < v.len() && white(v[i])
        invariant
            i <= v@.len(),
            v@ == s@,
            trim_start(v@.skip(i as int)) == trim_start(s@),
        decreases v.len() - i,
    {
        assert(v@.skip(i as int).skip(1) =~= v@.skip(i + 1));
        assert(v@.skip(i as int)[0] == v@[i as int]);
        i += 1;
    }
    let t = slice(&v, i, v.len());
    assert(t@ =~= v@.skip(i as int));
    t
}

/// The text without the white space at its end.
pub fn trimmed_end(s: &str) -> (r: String)
    ensures
        r@ == trim_end(s@),
{
    let v = chars(s);
    let mut n: usize = v.len();
    assert(v@.take(n as int) =~= v@);
    while n > 0 && white(v[n - 1])
        invariant
            n <= v@.len(),
            v@ == s@,
            trim_end(v@.take(n as int)) == trim_end(s@),
        decreases n,
    {
        assert(v@.take(n as int).drop_last() =~= v@.take(n - 1));
        n -= 1;
    }
    let t = slice(&v, 0, n);
    assert(t@ =~= v@.take(n as int));
    t
}

/// The text without the white space at both ends.
pub fn trimmed(s: &str) -> (r: String)
    ensures
        r@ == trim(s@),
{
    let t = trimmed_start(s);
    trimmed_end(t.as_str())
}

/// `String::from_utf8` gives the text that the bytes encode, and the bytes back where they are no
/// UTF-8.
#[verifier::external_body]
pub(crate) fn decode_bytes(bytes: Vec<u8>) -> (r: Result<String, Vec<u8>>)
    ensures
        match r {
            Ok(s) => vstd::utf8::encode_utf8(s@) == bytes@,
            Err(b) => b@ == bytes@ && !vstd::utf8::valid_utf8(bytes@),
        },
{
    String::from_utf8(bytes).map_err(|e| e.into_bytes())
}

/// The text that `String::from_utf8_lossy` makes of bytes.
pub uninterp spec fn lossy(bytes: Seq<u8>) -> Seq<char>;

/// `String::from_utf8_lossy` puts a replacement character in place of what is no UTF-8.
#[verifier::external_body]
pub(crate) fn decode_lossy(bytes: &Vec<u8>) -> (r: String)
    ensures
        r@ == lossy(bytes@),
{
    String::from_utf8_lossy(bytes).into_owned()
}

/// Whether all characters are of ASCII.
pub open spec fn is_ascii(s: Seq<char>) -> bool {
    forall|i: int| 0 <= i < s.len() ==> (#[trigger] s[i] as u32) < 0x80
}

/// The small letter for a capital letter of ASCII, and any other character itself.
pub open spec fn ascii_lower(c: char) -> char {
    if 'A' <= c && c <= 'Z' {
        (c as u32 + 32) as char
    } else {
        c
    }
}

/// The capital letter for a small letter of ASCII, and any other character itself.
pub open spec fn ascii_upper(c: char) -> char {
    if 'a' <= c && c <= 'z' {
        (c as u32 - 32) as char
    } else {
        c
    }
}

/// The text that `str::to_lowercase` makes of a text.
pub uninterp spec fn lower(s: Seq<char>) -> Seq<char>;

/// `str::to_lowercase` follows Unicode, and depends on the text alone. A text of ASCII keeps its
/// length, and its capital letters become small ones.
#[verifier::external_body]
pub(crate) fn to_lower(s: &str) -> (r: String)
    ensures
        r@ == lower(s@),
        is_ascii(s@) ==> r@ == s@.map_values(|c: char| ascii_lower(c)),
{
    s.to_lowercase()
}

/// The part of a text between two byte positions; nothing where they are no bounds of characters
/// of the text.
pub open spec fn piece(s: Seq<char>, start: nat, end: nat) -> Option<Seq<char>> {
    let b = vstd::utf8::encode_utf8(s);
    if start <= end <= b.len() && vstd::utf8::is_char_boundary(b, start as int)
        && vstd::utf8::is_char_boundary(b, end as int) {
        Some(vstd::utf8::decode_utf8(b.subrange(start as int, end as int)))
    } else {
        None
    }
}

/// The part of a text between two byte positions.
pub fn byte_piece(s: &str, start: usize, end: usize) -> (r: Option<String>)
    ensures
        match r {
            Some(t) => piece(s@, start as nat, end as nat) == Some(t@),
            None => piece(s@, start as nat, end as nat) is None,
        },
{
    let n: usize = s.as_bytes().len();
    if start > end || end > n || !s.is_char_boundary(start) || !s.is_char_boundary(end) {
        return None;
    }
    let ghost b = vstd::utf8::encode_utf8(s@);
    proof {
        vstd::utf8::encode_utf8_valid_utf8(s@);
    }
    let (head, _tail) = s.split_at(end);
    proof {
        let h = vstd::utf8::encode_utf8(head@);
        vstd::utf8::encode_utf8_valid_utf8(head@);
        assert(h =~= b.subrange(0, end as int));
        vstd::utf8::is_char_boundary_start_end_of_seq(h);
        if start < end {
            vstd::utf8::is_char_boundary_iff_not_is_continuation_byte(b, start as int);
            vstd::utf8::is_char_boundary_iff_not_is_continuation_byte(h, start as int);
            assert(h[start as int] == b[start as int]);
        }
        assert(vstd::utf8::is_char_boundary(h, start as int));
    }
    let (_front, mid) = head.split_at(start);
    proof {
        vstd::utf8::encode_utf8_decode_utf8(mid@);
        assert(vstd::utf8::encode_utf8(mid@) =~= b.subrange(start as int, end as int));
    }
    Some(mid.to_owned())
}

/// The text that `str::to_uppercase` makes of a text.
pub uninterp spec fn upper(s: Seq<char>) -> Seq<char>;

/// `str::to_uppercase` follows Unicode, and depends on the text alone. A text of ASCII keeps its
/// length, and its small letters become capital ones.
#[verifier::external_body]
pub(crate) fn to_upper(s: &str) -> (r: String)
    ensures
        r@ == upper(s@),
        is_ascii(s@) ==> r@ == s@.map_values(|c: char| ascii_upper(c)),
{
    s.to_uppercase()
}

/// What `char::is_alphabetic` says of a character.
pub uninterp spec fn is_alphabetic(c: char) -> bool;

/// `char::is_alphabetic` tells, from the character alone, whether Unicode counts it as a letter. Of
/// the characters of ASCII these are A to Z and a to z.
#[verifier::external_body]
pub(crate) fn alphabetic(c: char) -> (r: bool)
    ensures
        r == is_alphabetic(c),
        (c as u32) < 0x80 ==> r == is_letter(c),
{
    c.is_alphabetic()
}

/// What `char::is_alphanumeric` says of a character.
pub uninterp spec fn is_alphanumeric(c: char) -> bool;

/// `char::is_alphanumeric` tells, from the character alone, whether Unicode counts it as a letter
/// or a number. Of the characters of ASCII these are A to Z, a to z and 0 to 9.
#[verifier::external_body]
pub(crate) fn alphanumeric(c: char) -> (r: bool)
    ensures
        r == is_alphanumeric(c),
        (c as u32) < 0x80 ==> r == (is_letter(c) || is_digit(c)),
{
    c.is_alphanumeric()
}

/// Whether a character is a control code, by the category `Cc` of Unicode.
pub open spec fn is_control(c: char) -> bool {
    (c as u32) < 0x20 || 0x7f <= c as u32 <= 0x9f
}

/// Whether a character is a control code, by the category `Cc` of Unicode.
pub fn control(c: char) -> (r: bool)
    ensures
        r == is_control(c),
{
    let n: u32 = c as u32;
    n < 0x20 || (0x7f <= n && n <= 0x9f)
}

/// The lines that are not empty.
pub open spec fn nonempty(lines: Seq<Seq<char>>) -> Seq<Seq<char>>
    decreases lines.len(),
{
    if lines.len() == 0 {
        Seq::empty()
    } else if lines.last().len() == 0 {
        nonempty(lines.drop_last())
    } else {
        nonempty(lines.drop_last()).push(lines.last())
    }
}

/// Every line followed by `end`.
pub open spec fn ended(lines: Seq<Seq<char>>, end: char) -> Seq<char>
    decreases lines.len(),
{
    if lines.len() == 0 {
        Seq::empty()
    } else {
        ended(lines.drop_last(), end) + lines.last().push(end)
    }
}

/// Puts every line, followed by `end`, behind a text.
pub fn add_ended(out: &mut String, lines: &Vec<String>, end: char)
    ensures
        final(out)@ == old(out)@ + ended(lines.deep_view(), end),
{
    let ghost before = out@;
    let ghost all = lines.deep_view();
    let mut i: usize = 0;
    assert(before + ended(all.take(0), end) =~= before);
    while i < lines.len()
        invariant
            i <= lines@.len(),
            all == lines.deep_view(),
            out@ == before + ended(all.take(i as int), end),
        decreases lines.len() - i,
    {
        assert(all.take(i + 1).drop_last() =~= all.take(i as int));
        out.append(lines[i].as_str());
        out.push(end);
        assert(out@ =~= before + ended(all.take(i + 1), end));
        i += 1;
    }
    assert(all.take(i as int) =~= all);
}

/// No piece between separators holds a separator.
pub proof fn lemma_split_pieces(s: Seq<char>, sep: char)
    ensures
        forall|i: int| 0 <= i < split(s, sep).len() ==> !(#[trigger] split(s, sep)[i]).contains(sep),
    decreases s.len(),
{
    let k = find_from(s, sep, 0);
    find_from_bounds(s, sep, 0);
    if k < s.len() {
        let rest = split(s.skip(k + 1), sep);
        lemma_split_pieces(s.skip(k + 1), sep);
        assert forall|i: int| 0 <= i < split(s, sep).len() implies !(#[trigger] split(
            s,
            sep,
        )[i]).contains(sep) by {
            if i > 0 {
                assert(split(s, sep)[i] == rest[i - 1]);
            } else {
                assert(split(s, sep)[0] == s.take(k));
            }
        }
    }
}

/// Joined pieces are found again between the separators.
pub proof fn lemma_split_join(parts: Seq<Seq<char>>, sep: char)
    requires
        parts.len() > 0,
        forall|i: int| 0 <= i < parts.len() ==> !(#[trigger] parts[i]).contains(sep),
    ensures
        split(join(parts, seq![sep]), sep) == parts,
    decreases parts.len(),
{
    let s = join(parts, seq![sep]);
    let first = parts[0];
    let rest = parts.skip(1);
    assert(!parts[0].contains(sep));
    assert forall|j: int| 0 <= j < first.len() implies first[j] != sep by {
        assert(first.contains(first[j]));
    }
    if parts.len() == 1 {
        find_from_unique(s, sep, 0, s.len() as int);
        assert(split(s, sep) =~= parts);
    } else {
        assert(parts =~= seq![first] + rest);
        lemma_join_first(first, rest, seq![sep]);
        assert forall|i: int| 0 <= i < rest.len() implies !(#[trigger] rest[i]).contains(sep) by {
            assert(rest[i] == parts[i + 1]);
        }
        lemma_split_join(rest, sep);
        let k = first.len() as int;
        assert forall|j: int| 0 <= j < k implies s[j] != sep by {
            assert(s[j] == first[j]);
        }
        assert(s[k] == sep);
        find_from_unique(s, sep, 0, k);
        assert(s.take(k) =~= first);
        assert(s.skip(k + 1) =~= join(rest, seq![sep]));
        assert(split(s, sep) =~= parts);
    }
}

/// Ended lines are the first of them, ended, and the others.
pub proof fn lemma_ended_first(first: Seq<char>, rest: Seq<Seq<char>>, end: char)
    ensures
        ended(seq![first] + rest, end) == first.push(end) + ended(rest, end),
    decreases rest.len(),
{
    let all = seq![first] + rest;
    if rest.len() == 0 {
        assert(all.drop_last() =~= Seq::<Seq<char>>::empty());
        assert(all.last() == first);
        assert(ended(all.drop_last(), end) =~= Seq::<char>::empty());
        assert(ended(rest, end) =~= Seq::<char>::empty());
        assert(ended(all, end) =~= first.push(end) + ended(rest, end));
    } else {
        assert(all.last() == rest.last());
        assert(all.drop_last() =~= seq![first] + rest.drop_last());
        lemma_ended_first(first, rest.drop_last(), end);
        assert(ended(all, end) == ended(all.drop_last(), end) + all.last().push(end));
        assert(ended(rest, end) == ended(rest.drop_last(), end) + rest.last().push(end));
        assert(ended(all, end) =~= first.push(end) + ended(rest, end));
    }
}

/// Ended lines are found again between the ends.
pub proof fn lemma_split_ended(lines: Seq<Seq<char>>, end: char)
    requires
        forall|i: int| 0 <= i < lines.len() ==> !(#[trigger] lines[i]).contains(end),
    ensures
        split(ended(lines, end), end) == lines.push(Seq::<char>::empty()),
    decreases lines.len(),
{
    let s = ended(lines, end);
    if lines.len() == 0 {
        assert(s =~= Seq::<char>::empty());
        assert(split(s, end) =~= lines.push(Seq::<char>::empty()));
    } else {
        let first = lines[0];
        let rest = lines.skip(1);
        assert(lines =~= seq![first] + rest);
        lemma_ended_first(first, rest, end);
        assert forall|i: int| 0 <= i < rest.len() implies !(#[trigger] rest[i]).contains(end) by {
            assert(rest[i] == lines[i + 1]);
        }
        lemma_split_ended(rest, end);
        assert(!lines[0].contains(end));
        assert forall|j: int| 0 <= j < first.len() implies s[j] != end by {
            assert(s[j] == first[j]);
            assert(first.contains(first[j]));
        }
        assert(s[first.len() as int] == end);
        find_from_unique(s, end, 0, first.len() as int);
        assert(s.take(first.len() as int) =~= first);
        assert(s.skip(first.len() as int + 1) =~= ended(rest, end));
        assert(split(s, end) =~= lines.push(Seq::<char>::empty()));
    }
}

/// `n` times the same character.
pub open spec fn fill(c: char, n: nat) -> Seq<char> {
    Seq::new(n, |i: int| c)
}

/// The fill that brings a text to a width.
pub open spec fn padding(s: Seq<char>, c: char, width: nat) -> Seq<char> {
    if s.len() < width {
        fill(c, (width - s.len()) as nat)
    } else {
        Seq::empty()
    }
}

/// Puts `n` times `c` behind a text.
pub fn add_fill(s: &mut String, c: char, n: usize)
    ensures
        final(s)@ == old(s)@ + fill(c, n as nat),
{
    let ghost before = s@;
    let mut i: usize = 0;
    assert(before + fill(c, 0) =~= before);
    while i < n
        invariant
            i <= n,
            s@ == before + fill(c, i as nat),
        decreases n - i,
    {
        s.push(c);
        assert(s@ =~= before + fill(c, (i + 1) as nat));
        i += 1;
    }
}

/// A number behind the blanks that bring it to a width.
pub fn right_aligned(n: u64, width: usize) -> (r: String)
    ensures
        r@ == padding(decimal(n as nat), ' ', width as nat) + decimal(n as nat),
{
    let d = to_decimal(n);
    let len: usize = chars(d.as_str()).len();
    let mut s = String::new();
    assert(fill(' ', 0) =~= Seq::<char>::empty());
    if len < width {
        add_fill(&mut s, ' ', width - len);
        assert(s@ =~= fill(' ', (width - len) as nat));
    }
    s.append(d.as_str());
    s
}

/// Lines that are ended by newlines are the lines of a text.
pub proof fn lemma_ended_is_unlines(lines: Seq<Seq<char>>)
    ensures
        ended(lines, '\n') == unlines(lines),
    decreases lines.len(),
{
    if lines.len() > 0 {
        lemma_ended_is_unlines(lines.drop_last());
    }
}

/// The words from `i` on, where a word began at `start` if there is one: white space stands
/// between words.
pub open spec fn words_from(s: Seq<char>, start: Option<int>, i: int) -> Seq<Seq<char>>
    decreases s.len() - i,
{
    if i < 0 || i >= s.len() {
        match start {
            Some(b) => seq![s.skip(b)],
            None => Seq::empty(),
        }
    } else if is_white(s[i]) {
        match start {
            Some(b) => seq![s.subrange(b, i)] + words_from(s, None, i + 1),
            None => words_from(s, None, i + 1),
        }
    } else {
        match start {
            Some(b) => words_from(s, start, i + 1),
            None => words_from(s, Some(i), i + 1),
        }
    }
}

/// The words of a text: what stands between white space.
pub open spec fn words(s: Seq<char>) -> Seq<Seq<char>> {
    words_from(s, None, 0)
}

/// The words of a text: what stands between white space.
pub fn split_white(s: &str) -> (r: Vec<String>)
    ensures
        r.deep_view() == words(s@),
{
    let v = chars(s);
    let mut out: Vec<String> = Vec::new();
    let mut start: Option<usize> = None;
    let mut i: usize = 0;
    let ghost total = words_from(s@, None, 0);
    assert(out.deep_view() + total =~= total);
    while i < v.len()
        invariant
            i <= v@.len(),
            v@ == s@,
            start matches Some(b) ==> b <= i,
            out.deep_view() + words_from(
                s@,
                match start {
                    Some(b) => Some(b as int),
                    None => None,
                },
                i as int,
            ) == total,
        decreases v.len() - i,
    {
        let ghost shown = out.deep_view();
        if white(v[i]) {
            if let Some(b) = start {
                let w = slice(&v, b, i);
                out.push(w);
                proof {
                    let rest = words_from(s@, None, i + 1);
                    assert(out.deep_view() =~= shown.push(w@));
                    assert(out.deep_view() + rest =~= shown + (seq![w@] + rest));
                }
                start = None;
            }
        } else if start.is_none() {
            start = Some(i);
        }
        i += 1;
    }
    let ghost shown = out.deep_view();
    if let Some(b) = start {
        let w = slice(&v, b, v.len());
        assert(w@ =~= s@.skip(b as int));
        out.push(w);
        assert(out.deep_view() =~= shown + seq![w@]);
    } else {
        assert(shown + Seq::<Seq<char>>::empty() =~= shown);
    }
    out
}

/// Whether a text is made of white space alone.
pub open spec fn all_white(s: Seq<char>) -> bool {
    forall|i: int| 0 <= i < s.len() ==> is_white(#[trigger] s[i])
}

/// Whether a text is a word: not empty, and without white space.
pub open spec fn is_word(s: Seq<char>) -> bool {
    s.len() > 0 && forall|i: int| 0 <= i < s.len() ==> !is_white(#[trigger] s[i])
}

proof fn lemma_words_shifted(s: Seq<char>, start: Option<int>, i: int, k: int)
    requires
        0 <= k <= i <= s.len(),
        start matches Some(b) ==> k <= b <= i,
    ensures
        words_from(s, start, i) == words_from(
            s.skip(k),
            match start {
                Some(b) => Some(b - k),
                None => None,
            },
            i - k,
        ),
    decreases s.len() - i,
{
    let t = s.skip(k);
    if i < s.len() {
        assert(t[i - k] == s[i]);
        if is_white(s[i]) {
            lemma_words_shifted(s, None, i + 1, k);
            if let Some(b) = start {
                assert(t.subrange(b - k, i - k) =~= s.subrange(b, i));
            }
        } else {
            match start {
                Some(b) => lemma_words_shifted(s, start, i + 1, k),
                None => lemma_words_shifted(s, Some(i), i + 1, k),
            }
        }
    } else if let Some(b) = start {
        assert(t.skip(b - k) =~= s.skip(b));
    }
}

proof fn lemma_words_past_white(s: Seq<char>, n: int, i: int)
    requires
        0 <= i <= n <= s.len(),
        forall|k: int| 0 <= k < n ==> is_white(#[trigger] s[k]),
    ensures
        words_from(s, None, i) == words_from(s, None, n),
    decreases n - i,
{
    if i < n {
        assert(is_white(s[i]));
        lemma_words_past_white(s, n, i + 1);
    }
}

proof fn lemma_words_through(s: Seq<char>, b: int, n: int, i: int)
    requires
        0 <= b < i <= n <= s.len(),
        forall|k: int| b <= k < n ==> !is_white(#[trigger] s[k]),
    ensures
        words_from(s, Some(b), i) == words_from(s, Some(b), n),
    decreases n - i,
{
    if i < n {
        assert(!is_white(s[i]));
        lemma_words_through(s, b, n, i + 1);
    }
}

/// The words of a text are what stands between white space, in order: the first word, behind white
/// space if there is any, and then the words of what follows it. White space alone has no word.
pub proof fn lemma_words(blank: Seq<char>, word: Seq<char>, rest: Seq<char>)
    requires
        all_white(blank),
        is_word(word),
        rest.len() == 0 || is_white(rest[0]),
    ensures
        words(blank + word + rest) == seq![word] + words(rest),
        words(blank) == Seq::<Seq<char>>::empty(),
{
    let s = blank + word + rest;
    let b = blank.len() as int;
    let n = b + word.len();
    assert forall|k: int| 0 <= k < b implies is_white(#[trigger] s[k]) by {
        assert(s[k] == blank[k]);
    }
    assert forall|k: int| b <= k < n implies !is_white(#[trigger] s[k]) by {
        assert(s[k] == word[k - b]);
    }
    lemma_words_past_white(s, b, 0);
    lemma_words_past_white(blank, b, 0);
    assert(s[b] == word[0]);
    lemma_words_through(s, b, n, b + 1);
    assert(s.subrange(b, n) =~= word);
    if n < s.len() {
        assert(s[n] == rest[0]);
        lemma_words_shifted(s, None, n + 1, n);
        assert(s.skip(n) =~= rest);
        assert(words_from(rest, None, 0) == words_from(rest, None, 1));
    } else {
        assert(s.skip(b) =~= word);
        assert(rest.len() == 0);
        assert(words(rest) =~= Seq::<Seq<char>>::empty());
        assert(seq![word] + words(rest) =~= seq![word]);
    }
}

/// Words with a blank between each two are the words of the text that they make.
pub proof fn lemma_words_of_join(parts: Seq<Seq<char>>)
    requires
        forall|i: int| 0 <= i < parts.len() ==> is_word(#[trigger] parts[i]),
    ensures
        words(join(parts, seq![' '])) == parts,
    decreases parts.len(),
{
    let none = Seq::<char>::empty();
    if parts.len() == 0 {
        assert(words(none) =~= parts);
    } else {
        let first = parts[0];
        let rest = parts.skip(1);
        assert(is_word(first));
        assert(parts =~= seq![first] + rest);
        if rest.len() == 0 {
            lemma_words(none, first, none);
            assert(none + first + none =~= first);
            assert(join(parts, seq![' ']) == first);
            assert(words(none) =~= Seq::<Seq<char>>::empty());
            assert(seq![first] + words(none) =~= parts);
        } else {
            assert forall|i: int| 0 <= i < rest.len() implies is_word(#[trigger] rest[i]) by {
                assert(is_word(parts[i + 1]));
            }
            lemma_words_of_join(rest);
            lemma_join_first(first, rest, seq![' ']);
            let tail = seq![' '] + join(rest, seq![' ']);
            lemma_words(none, first, tail);
            assert(none + first + tail =~= join(parts, seq![' ']));
            let second = rest[0];
            let behind = rest.skip(1);
            assert(is_word(second));
            let end = if behind.len() > 0 {
                seq![' '] + join(behind, seq![' '])
            } else {
                none
            };
            assert(join(rest, seq![' ']) =~= second + end) by {
                assert(rest =~= seq![second] + behind);
                if behind.len() > 0 {
                    lemma_join_first(second, behind, seq![' ']);
                }
            }
            lemma_words(seq![' '], second, end);
            lemma_words(none, second, end);
            assert(seq![' '] + second + end =~= tail);
            assert(none + second + end =~= join(rest, seq![' ']));
        }
    }
}

proof fn lemma_join_add(a: Seq<Seq<char>>, b: Seq<Seq<char>>, sep: Seq<char>)
    requires
        a.len() > 0,
        b.len() > 0,
    ensures
        join(a + b, sep) == join(a, sep) + sep + join(b, sep),
    decreases b.len(),
{
    let all = a + b;
    assert(all.last() == b.last());
    if b.len() == 1 {
        assert(all.drop_last() =~= a);
    } else {
        assert(all.drop_last() =~= a + b.drop_last());
        lemma_join_add(a, b.drop_last(), sep);
        assert(join(all, sep) =~= join(a, sep) + sep + join(b, sep));
    }
}

/// A text that is joined of parts ends with what is joined of the last of them.
pub proof fn lemma_join_ends(parts: Seq<Seq<char>>, k: int, sep: Seq<char>)
    requires
        0 <= k < parts.len(),
    ensures
        ends_with(join(parts, sep), join(parts.skip(k), sep)),
{
    let all = join(parts, sep);
    let tail = join(parts.skip(k), sep);
    if k > 0 {
        lemma_join_add(parts.take(k), parts.skip(k), sep);
        assert(parts =~= parts.take(k) + parts.skip(k));
    } else {
        assert(parts.skip(0) =~= parts);
    }
    assert(all.skip(all.len() - tail.len()) =~= tail);
}

/// The lines of a text: what stands before the first newline, but for a carriage return just before
/// it, and then the lines of what stands behind it. Text without a newline is one line, unless there
/// is none.
pub proof fn lemma_lines(first: Seq<char>, rest: Seq<char>)
    requires
        !first.contains('\n'),
    ensures
        lines(first + seq!['\n'] + rest) == seq![
            if first.len() > 0 && first.last() == '\r' {
                first.drop_last()
            } else {
                first
            },
        ] + lines(rest),
        lines(first) == if first.len() > 0 {
            seq![first]
        } else {
            Seq::empty()
        },
{
    let s = first + seq!['\n'] + rest;
    let n = first.len() as int;
    assert forall|j: int| 0 <= j < n implies s[j] != '\n' && first[j] != '\n' by {
        assert(s[j] == first[j]);
        assert(first.contains(first[j]));
    }
    find_from_unique(s, '\n', 0, n);
    find_from_unique(first, '\n', 0, n);
    assert(s.take(n) =~= first);
    assert(s.skip(n + 1) =~= rest);
}

/// Whether a line can stand in a text as it is: it holds no newline, and no carriage return at its
/// end.
pub open spec fn is_line(s: Seq<char>) -> bool {
    !s.contains('\n') && (s.len() > 0 ==> s.last() != '\r')
}

/// Lines that are written, each followed by a newline, are read again as they are.
pub proof fn lemma_lines_of_unlines(ls: Seq<Seq<char>>)
    requires
        forall|i: int| 0 <= i < ls.len() ==> is_line(#[trigger] ls[i]),
    ensures
        lines(unlines(ls)) == ls,
    decreases ls.len(),
{
    if ls.len() == 0 {
        assert(lines(unlines(ls)) =~= ls);
    } else {
        let first = ls[0];
        let rest = ls.skip(1);
        assert(is_line(first));
        assert forall|i: int| 0 <= i < rest.len() implies is_line(#[trigger] rest[i]) by {
            assert(is_line(ls[i + 1]));
        }
        lemma_lines_of_unlines(rest);
        lemma_lines(first, unlines(rest));
        assert(seq![first] + rest =~= ls);
        lemma_unlines_first(first, rest);
        assert(first.push('\n') + unlines(rest) =~= first + seq!['\n'] + unlines(rest));
    }
}

pub proof fn lemma_unlines_first(first: Seq<char>, rest: Seq<Seq<char>>)
    ensures
        unlines(seq![first] + rest) == first.push('\n') + unlines(rest),
    decreases rest.len(),
{
    let all = seq![first] + rest;
    if rest.len() == 0 {
        assert(all.drop_last() =~= Seq::<Seq<char>>::empty());
        assert(unlines(all.drop_last()) =~= Seq::<char>::empty());
        assert(unlines(all) =~= first.push('\n') + unlines(rest));
    } else {
        assert(all.drop_last() =~= seq![first] + rest.drop_last());
        lemma_unlines_first(first, rest.drop_last());
        assert(unlines(all) =~= first.push('\n') + unlines(rest));
    }
}

/// What is written of lines and of others behind them is written one after the other.
pub proof fn lemma_unlines_in_parts(a: Seq<Seq<char>>, b: Seq<Seq<char>>)
    ensures
        unlines(a + b) == unlines(a) + unlines(b),
    decreases b.len(),
{
    if b.len() == 0 {
        assert(a + b =~= a);
        assert(unlines(a) + unlines(b) =~= unlines(a));
    } else {
        lemma_unlines_in_parts(a, b.drop_last());
        assert((a + b).drop_last() =~= a + b.drop_last());
        assert(unlines(a + b) =~= unlines(a) + unlines(b));
    }
}

/// A number other than zero is written without a zero at its beginning, and a negative one behind a
/// minus sign.
pub proof fn lemma_decimal_form(n: nat, m: int)
    ensures
        n > 0 ==> decimal(n)[0] != '0',
        n == 0 ==> decimal(n) == seq!['0'],
        m < 0 ==> signed_decimal(m) == seq!['-'] + decimal((-m) as nat),
        m >= 0 ==> signed_decimal(m) == decimal(m as nat),
    decreases n,
{
    if n >= 10 {
        lemma_decimal_form(n / 10, m);
        lemma_number_of_decimal(n / 10);
    }
}

/// The bytes of a text are those of its parts, one after another.
pub proof fn lemma_bytes_in_parts(a: Seq<char>, b: Seq<char>)
    ensures
        vstd::utf8::encode_utf8(a + b) == vstd::utf8::encode_utf8(a) + vstd::utf8::encode_utf8(b),
    decreases a.len(),
{
    let y = vstd::utf8::encode_utf8(b);
    if a.len() == 0 {
        assert(a + b =~= b);
        assert(vstd::utf8::encode_utf8(a) =~= Seq::<u8>::empty());
        assert(Seq::<u8>::empty() + y =~= y);
    } else {
        lemma_bytes_in_parts(a.drop_first(), b);
        assert((a + b).drop_first() =~= a.drop_first() + b);
        assert((a + b)[0] == a[0]);
        let first = vstd::utf8::encode_scalar(a[0] as u32);
        let rest = vstd::utf8::encode_utf8(a.drop_first());
        assert(first + (rest + y) =~= first + rest + y);
    }
}

} // verus!
