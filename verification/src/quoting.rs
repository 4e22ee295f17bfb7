//! Words, quotes and variables of a command line.

use crate::vars::Vars;
use shvar::ExpandOptions;
use std::collections::HashMap;
use vstd::prelude::*;

verus! {

/// The first word of a text, without its quotes, and what follows it; nothing where the text holds
/// no word; or the words for what is wrong with the text.
pub uninterp spec fn first_word(s: Seq<char>) -> Result<
    Option<(Seq<char>, Seq<char>)>,
    Seq<char>,
>;

pub open spec fn first_word_result(r: Result<Option<(String, String)>, String>) -> Result<
    Option<(Seq<char>, Seq<char>)>,
    Seq<char>,
> {
    match r {
        Ok(Some((word, rest))) => Ok(Some((word@, rest@))),
        Ok(None) => Ok(None),
        Err(m) => Err(m@),
    }
}

/// `shvar::split_once`, which takes the first word off a command line. Claimed: the result depends
/// on the text alone, and what follows the word is shorter than the text. Not claimed: which word a
/// given text begins with.
#[verifier::external_body]
pub(crate) fn take_word(s: &str) -> (r: Result<Option<(String, String)>, String>)
    ensures
        first_word_result(r) == first_word(s@),
        r matches Ok(Some((_, rest))) ==> rest@.len() < s@.len(),
{
    match shvar::split_once(s) {
        Ok(found) => Ok(found.map(|(word, rest)| (word, rest.to_string()))),
        Err(e) => Err(e.to_string()),
    }
}

/// The words of a text, without their quotes: its first word, then those of what follows it. Or the
/// words for what is wrong with it.
pub open spec fn words(s: Seq<char>) -> Result<Seq<Seq<char>>, Seq<char>>
    decreases s.len(),
{
    match first_word(s) {
        Err(m) => Err(m),
        Ok(None) => Ok(Seq::empty()),
        Ok(Some((word, rest))) => if rest.len() < s.len() {
            match words(rest) {
                Err(m) => Err(m),
                Ok(list) => Ok(seq![word] + list),
            }
        } else {
            Ok(seq![word])
        },
    }
}

pub open spec fn words_result(r: Result<Vec<String>, String>) -> Result<Seq<Seq<char>>, Seq<char>> {
    match r {
        Ok(list) => Ok(list.deep_view()),
        Err(m) => Err(m@),
    }
}

/// `shvar::split`, which takes a command line apart into words. Claimed: the result is what taking
/// off one word after another by `shvar::split_once` gives.
#[verifier::external_body]
pub(crate) fn split_words(s: &str) -> (r: Result<Vec<String>, String>)
    ensures
        words_result(r) == words(s@),
{
    shvar::split(s).map_err(|e| e.to_string())
}

/// A text with the variables in it replaced by their values, or the words for what is wrong with
/// it. A variable is written `$NAME` where `bareword` is set, `${NAME}` where `curly_braces` is,
/// and `$(NAME)` where `parens` is.
pub uninterp spec fn expanded(
    vars: Map<Seq<char>, Seq<char>>,
    s: Seq<char>,
    bareword: bool,
    curly_braces: bool,
    parens: bool,
) -> Result<Seq<char>, Seq<char>>;

pub open spec fn text_result(r: Result<String, String>) -> Result<Seq<char>, Seq<char>> {
    match r {
        Ok(s) => Ok(s@),
        Err(m) => Err(m@),
    }
}

/// `shvar::expand_with_options`, which replaces variables by their values. Claimed: the result
/// depends on the values, the text and the forms that are allowed alone. Not claimed: what a given
/// text becomes.
#[verifier::external_body]
pub(crate) fn expand(
    vars: &Vars,
    s: &str,
    bareword: bool,
    curly_braces: bool,
    parens: bool,
) -> (r: Result<String, String>)
    ensures
        text_result(r) == expanded(vars@, s@, bareword, curly_braces, parens),
{
    let values: HashMap<String, String> = vars.pairs().iter().cloned().collect();
    let options = ExpandOptions { bareword, curly_braces, parens };
    shvar::expand_with_options(options, &values, s).map_err(|e| e.to_string())
}

/// A text is parted into its first word and the words of what follows that, as long as something is
/// left.
pub proof fn lemma_words_in_turn(s: Seq<char>, word: Seq<char>, rest: Seq<char>)
    requires
        first_word(s) == Ok::<Option<(Seq<char>, Seq<char>)>, Seq<char>>(Some((word, rest))),
        rest.len() < s.len(),
        words(rest) is Ok,
    ensures
        words(s) is Ok,
        words(s)->Ok_0.len() == words(rest)->Ok_0.len() + 1,
        words(s)->Ok_0[0] == word,
        words(s)->Ok_0.skip(1) == words(rest)->Ok_0,
{
    assert(words(s)->Ok_0.skip(1) =~= words(rest)->Ok_0);
}

} // verus!
