//! Numbers that the library does not compute itself.
//!
//! Fractions and exponents are read by whoever runs the commands. The library hands over the text
//! of a number with a power of 1024 to scale it by, and takes back where the number stands among
//! all numbers.

use vstd::prelude::*;

verus! {

/// Where the number that a text writes, times a power of 1024, stands among all numbers: of two
/// numbers the smaller has the smaller place, and equal ones have the same. What is no number at
/// all, and neither smaller nor larger than any, has no place.
pub type Reader = spec_fn(Seq<char>, u32) -> Option<i64>;

/// Whether `f` can answer `r` when it is asked about a text.
pub open spec fn answers<N: Fn(&str, u32) -> Option<i64>>(
    f: N,
    text: Seq<char>,
    power: u32,
    r: Option<i64>,
) -> bool {
    exists|s: &str| s@ == text && #[trigger] call_ensures(f, (s, power), r)
}

/// What `f` answers.
pub open spec fn reading<N: Fn(&str, u32) -> Option<i64>>(f: N) -> Reader {
    |text: Seq<char>, power: u32| choose|r: Option<i64>| answers(f, text, power, r)
}

/// Whether `f` can be asked about every text, and answers the same each time.
pub open spec fn is_reader<N: Fn(&str, u32) -> Option<i64>>(f: N) -> bool {
    &&& forall|s: &str, power: u32| #[trigger] call_requires(f, (s, power))
    &&& forall|text: Seq<char>, power: u32, a: Option<i64>, b: Option<i64>| #[trigger]
        answers(f, text, power, a) && #[trigger] answers(f, text, power, b) ==> a == b
}

/// Asks about a text.
pub fn place<N: Fn(&str, u32) -> Option<i64>>(f: &N, text: &str, power: u32) -> (r: Option<i64>)
    requires
        is_reader(*f),
    ensures
        r == reading(*f)(text@, power),
{
    let r = f(text, power);
    assert(answers(*f, text@, power, r)) by {
        assert(call_ensures(*f, (text, power), r));
    }
    r
}

} // verus!
