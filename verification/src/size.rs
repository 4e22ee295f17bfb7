//! Sizes with units: reading them and writing them.

use crate::text;
use vstd::prelude::*;

verus! {

broadcast use vstd::string::group_string_axioms;

/// The factor that a unit letter stands for.
pub open spec fn unit(c: char) -> Option<nat> {
    if c == 'b' || c == 'B' {
        Some(512)
    } else if c == 'k' || c == 'K' {
        Some(1024)
    } else if c == 'm' || c == 'M' {
        Some(1048576)
    } else if c == 'g' || c == 'G' {
        Some(1073741824)
    } else {
        None
    }
}

/// The product, where it is at most `limit`.
pub open spec fn product(a: nat, b: nat, limit: nat) -> Option<nat> {
    if a * b <= limit {
        Some(a * b)
    } else {
        None
    }
}

/// The size that a text gives: a number, with an optional unit letter (b, k, m, g) at its end.
pub open spec fn size(s: Seq<char>) -> Option<nat> {
    if s.len() > 0 && text::is_letter(s.last()) {
        match (unit(s.last()), text::unsigned(s.drop_last(), u64::MAX as nat)) {
            (Some(factor), Some(n)) => product(n, factor, u64::MAX as nat),
            _ => None,
        }
    } else {
        text::unsigned(s, u64::MAX as nat)
    }
}

/// Reads a size with an optional unit letter (b, k, m, g) at its end.
pub fn parse_size(s: &str) -> (r: Option<u64>)
    ensures
        match r {
            Some(n) => size(s@) == Some(n as nat),
            None => size(s@) is None,
        },
{
    let v = text::chars(s);
    let n: usize = v.len();
    if n > 0 && text::letter(v[n - 1]) {
        let c = v[n - 1];
        let factor: u64 = if c == 'b' || c == 'B' {
            512
        } else if c == 'k' || c == 'K' {
            1024
        } else if c == 'm' || c == 'M' {
            1048576
        } else if c == 'g' || c == 'G' {
            1073741824
        } else {
            return None;
        };
        let head = text::slice(&v, 0, n - 1);
        assert(head@ =~= s@.drop_last());
        match text::parse_unsigned(head.as_str(), u64::MAX) {
            Some(num) => num.checked_mul(factor),
            None => None,
        }
    } else {
        text::parse_unsigned(s, u64::MAX)
    }
}

/// The letter of the `i`-th unit.
pub open spec fn unit_letter(i: nat) -> char {
    if i == 0 {
        'B'
    } else if i == 1 {
        'K'
    } else if i == 2 {
        'M'
    } else if i == 3 {
        'G'
    } else if i == 4 {
        'T'
    } else if i == 5 {
        'P'
    } else {
        'E'
    }
}

/// The number of the largest unit, at most the sixth, that a size reaches, and how many bytes it
/// has; `i` and `one` are those of a unit that it does reach.
pub open spec fn largest_unit(bytes: nat, base: nat, i: nat, one: nat) -> (nat, nat)
    decreases 6 - i,
{
    if i >= 6 || bytes / base < one {
        (i, one)
    } else {
        largest_unit(bytes, base, i + 1, one * base)
    }
}

/// A quotient rounded to the nearest whole number, halves upwards.
pub open spec fn rounded(a: nat, b: nat) -> nat {
    (2 * a + b) / (2 * b)
}

/// A size in four columns and a unit letter: with one decimal below ten, whole from there on.
/// Bytes are always whole.
pub open spec fn human_size(bytes: nat, base: nat) -> Seq<char> {
    let (i, one) = largest_unit(bytes, base, 0, 1);
    let tenths = rounded(bytes * 10, one);
    let digits = if i > 0 && tenths < 100 {
        text::decimal(tenths / 10).push('.').push(text::digit_char((tenths % 10) as int))
    } else {
        text::decimal(rounded(bytes, one))
    };
    (text::padding(digits, ' ', 4) + digits).push(unit_letter(i))
}

fn rounded_quotient(a: u128, b: u128) -> (r: u128)
    requires
        b > 0,
        a <= 184467440737095516150,
        b <= 18446744073709551615,
    ensures
        r == rounded(a as nat, b as nat),
        r <= a,
{
    proof {
        assert((2 * a + b) / (2 * b) <= a) by (nonlinear_arith)
            requires
                b > 0,
                a >= 0,
        ;
    }
    (2 * a + b) / (2 * b)
}

/// Writes a size in four columns and a unit letter.
pub fn format_human_size_with_base(bytes: u64, base: u64) -> (r: String)
    requires
        base > 1,
    ensures
        r@ == human_size(bytes as nat, base as nat),
{
    let mut i: u64 = 0;
    let mut one: u64 = 1;
    while i < 6 && bytes / base >= one
        invariant
            i <= 6,
            base > 1,
            one > 0,
            largest_unit(bytes as nat, base as nat, i as nat, one as nat) == largest_unit(
                bytes as nat,
                base as nat,
                0,
                1,
            ),
        decreases 6 - i,
    {
        proof {
            assert(one * base <= bytes) by (nonlinear_arith)
                requires
                    bytes / base >= one,
                    base > 1,
            ;
            assert(one * base > 0) by (nonlinear_arith)
                requires
                    one > 0,
                    base > 1,
            ;
        }
        one = one * base;
        i += 1;
    }
    let tenths = rounded_quotient(bytes as u128 * 10, one as u128);
    let digits = if i > 0 && tenths < 100 {
        let mut d = text::to_decimal(tenths as u64 / 10);
        d.push('.');
        d.push((48u8 + (tenths % 10) as u8) as char);
        d
    } else {
        let whole = rounded_quotient(bytes as u128, one as u128);
        text::to_decimal(whole as u64)
    };
    let len: usize = text::chars(digits.as_str()).len();
    let mut s = String::new();
    assert(text::fill(' ', 0) =~= Seq::<char>::empty());
    if len < 4 {
        text::add_fill(&mut s, ' ', 4 - len);
        assert(s@ =~= text::fill(' ', (4 - len) as nat));
    }
    s.append(digits.as_str());
    s.push(
        if i == 0 {
            'B'
        } else if i == 1 {
            'K'
        } else if i == 2 {
            'M'
        } else if i == 3 {
            'G'
        } else if i == 4 {
            'T'
        } else if i == 5 {
            'P'
        } else {
            'E'
        },
    );
    s
}

/// A number to the power of `i`.
pub open spec fn power(base: nat, i: nat) -> nat
    decreases i,
{
    if i == 0 {
        1
    } else {
        base * power(base, (i - 1) as nat)
    }
}

/// `b` counts blocks of 512 bytes; `k`, `m` and `g` stand for 1024 bytes, 1024 times that, and 1024
/// times that again, in either case. Without a letter a number counts bytes. Other letters give no
/// size, nor does a number of bytes that is too large.
pub proof fn lemma_size_in_units(digits: Seq<char>, n: nat, c: char)
    requires
        text::unsigned(digits, u64::MAX as nat) == Some(n),
        digits.len() > 0,
        text::is_digit(digits.last()),
    ensures
        size(digits) == Some(n),
        ({
            let bytes = if c == 'b' || c == 'B' {
                n * 512
            } else if c == 'k' || c == 'K' {
                n * power(1024, 1)
            } else if c == 'm' || c == 'M' {
                n * power(1024, 2)
            } else {
                n * power(1024, 3)
            };
            seq!['b', 'B', 'k', 'K', 'm', 'M', 'g', 'G'].contains(c) ==> size(digits.push(c))
                == if bytes <= u64::MAX {
                Some(bytes)
            } else {
                None
            }
        }),
        text::is_letter(c) && !seq!['b', 'B', 'k', 'K', 'm', 'M', 'g', 'G'].contains(c) ==> size(
            digits.push(c),
        ) is None,
{
    reveal_with_fuel(power, 4);
    let s = digits.push(c);
    assert(s.drop_last() =~= digits);
    let units = seq!['b', 'B', 'k', 'K', 'm', 'M', 'g', 'G'];
    assert(units[0] == 'b' && units[1] == 'B' && units[2] == 'k' && units[3] == 'K' && units[4]
        == 'm' && units[5] == 'M' && units[6] == 'g' && units[7] == 'G');
}

proof fn lemma_unit_from(bytes: nat, base: nat, i: nat, one: nat)
    requires
        base > 1,
        i <= 6,
        one == power(base, i),
        one > 0,
        i > 0 ==> one <= bytes,
    ensures
        ({
            let (j, unit) = largest_unit(bytes, base, i, one);
            &&& j <= 6
            &&& unit == power(base, j)
            &&& unit > 0
            &&& j > 0 ==> unit <= bytes
            &&& j < 6 ==> bytes < power(base, j + 1)
        }),
    decreases 6 - i,
{
    assert(power(base, i + 1) == base * power(base, i));
    assert(one * base == base * one) by (nonlinear_arith);
    if i >= 6 {
    } else if bytes / base < one {
        assert(bytes < base * one) by (nonlinear_arith)
            requires
                bytes / base < one,
                base > 1,
        ;
    } else {
        assert(one * base <= bytes) by (nonlinear_arith)
            requires
                bytes / base >= one,
                base > 1,
        ;
        assert(one * base > 0) by (nonlinear_arith)
            requires
                one > 0,
                base > 1,
        ;
        lemma_unit_from(bytes, base, i + 1, one * base);
    }
}

/// A quotient is rounded to a whole number that is at most one half away from it; of two such
/// numbers to the larger.
pub proof fn lemma_rounded(a: nat, b: nat)
    requires
        b > 0,
    ensures
        2 * a - b < 2 * (rounded(a, b) * b) <= 2 * a + b,
{
    let r = rounded(a, b);
    assert(2 * a - b < 2 * (r * b) <= 2 * a + b) by (nonlinear_arith)
        requires
            b > 0,
            r == (2 * a + b) / (2 * b),
    ;
}

/// A size is shown in the largest of the units B, K, M, G, T, P and E that it reaches, each of them
/// `base` times the one before: rounded to tenths where those are fewer than a hundred and the unit
/// is not the byte, otherwise to a whole number, and set to the right of four columns.
pub proof fn lemma_human_size(bytes: nat, base: nat)
    requires
        base > 1,
    ensures
        exists|i: nat, tenths: nat, whole: nat, blanks: nat|
            #![trigger power(base, i), text::decimal(tenths), text::decimal(whole), text::fill(' ', blanks)]
            {
                let unit = power(base, i);
                let few = i > 0 && tenths < 100;
                let digits = if few {
                    text::decimal(tenths / 10) + seq!['.'] + text::decimal(tenths % 10)
                } else {
                    text::decimal(whole)
                };
                &&& i < 7
                &&& i > 0 ==> unit <= bytes
                &&& i < 6 ==> bytes < base * unit
                &&& 20 * bytes - unit < 2 * (tenths * unit) <= 20 * bytes + unit
                &&& 2 * bytes - unit < 2 * (whole * unit) <= 2 * bytes + unit
                &&& blanks + digits.len() == 4 || (blanks == 0 && digits.len() > 4)
                &&& human_size(bytes, base) == text::fill(' ', blanks) + digits
                    + seq![seq!['B', 'K', 'M', 'G', 'T', 'P', 'E'][i as int]]
            },
{
    assert(power(base, 0) == 1);
    lemma_unit_from(bytes, base, 0, 1);
    let (i, unit) = largest_unit(bytes, base, 0, 1);
    let tenths = rounded(bytes * 10, unit);
    let whole = rounded(bytes, unit);
    lemma_rounded(bytes * 10, unit);
    lemma_rounded(bytes, unit);
    let few = i > 0 && tenths < 100;
    let digits = if few {
        text::decimal(tenths / 10) + seq!['.'] + text::decimal(tenths % 10)
    } else {
        text::decimal(whole)
    };
    if few {
        assert(digits =~= text::decimal(tenths / 10).push('.').push(
            text::digit_char((tenths % 10) as int),
        )) by {
            assert(text::decimal(tenths % 10) =~= seq![text::digit_char((tenths % 10) as int)]);
        }
    }
    let blanks: nat = if digits.len() < 4 {
        (4 - digits.len()) as nat
    } else {
        0
    };
    let letters = seq!['B', 'K', 'M', 'G', 'T', 'P', 'E'];
    assert(letters[0] == 'B' && letters[1] == 'K' && letters[2] == 'M' && letters[3] == 'G'
        && letters[4] == 'T' && letters[5] == 'P' && letters[6] == 'E');
    assert(text::padding(digits, ' ', 4) == text::fill(' ', blanks));
    assert(human_size(bytes, base) =~= text::fill(' ', blanks) + digits + seq![letters[i as int]]);
    assert(power(base, i + 1) == base * unit);
    assert(power(base, i) == unit && text::decimal(tenths) == text::decimal(tenths)
        && text::decimal(whole) == text::decimal(whole) && text::fill(' ', blanks) == text::fill(
        ' ',
        blanks,
    ));
}

} // verus!
