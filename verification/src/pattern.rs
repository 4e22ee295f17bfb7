//! Regular expressions.

use vstd::prelude::*;

verus! {

#[verifier::external_type_specification]
#[verifier::external_body]
pub struct ExRegex(regex::Regex);

/// What a `regex::Regex` was built from: the pattern, whether case is ignored, and whether `^` and
/// `$` match at the lines of a text.
pub uninterp spec fn built_from(r: regex::Regex) -> (Seq<char>, bool, bool);

/// The words of the error that building a regular expression from a pattern gives, where it gives
/// one.
pub uninterp spec fn build_error(
    pattern: Seq<char>,
    ignore_case: bool,
    multi_line: bool,
) -> Option<Seq<char>>;

/// What `regex::Regex::is_match` says of a text.
pub uninterp spec fn is_match(source: (Seq<char>, bool, bool), line: Seq<char>) -> bool;

/// The ranges of bytes that `regex::Regex::find_iter` finds in a text.
pub uninterp spec fn found(source: (Seq<char>, bool, bool), line: Seq<char>) -> Seq<(usize, usize)>;

/// `regex::RegexBuilder::build`, with the flags `case_insensitive` and `multi_line` set as told
/// and all others as they are, succeeds or fails by the pattern and the flags alone.
#[verifier::external_body]
pub(crate) fn build(pattern: &str, ignore_case: bool, multi_line: bool) -> (r: Result<
    regex::Regex,
    String,
>)
    ensures
        match r {
            Ok(re) => built_from(re) == (pattern@, ignore_case, multi_line) && build_error(
                pattern@,
                ignore_case,
                multi_line,
            ) is None,
            Err(e) => build_error(pattern@, ignore_case, multi_line) == Some(e@),
        },
{
    let mut builder = regex::RegexBuilder::new(pattern);
    builder.case_insensitive(ignore_case).multi_line(multi_line);
    builder.build().map_err(|e| e.to_string())
}

/// `regex::Regex::is_match` depends on what the expression was built from and on the text alone.
#[verifier::external_body]
pub(crate) fn matches(re: &regex::Regex, line: &str) -> (r: bool)
    ensures
        r == is_match(built_from(*re), line@),
{
    re.is_match(line)
}

/// `regex::Regex::find_iter` gives the matches that do not overlap, by their first byte and the
/// byte behind their last.
#[verifier::external_body]
pub(crate) fn find_all(re: &regex::Regex, line: &str) -> (r: Vec<(usize, usize)>)
    ensures
        r@ == found(built_from(*re), line@),
{
    re.find_iter(line).map(|m| (m.start(), m.end())).collect()
}

} // verus!
