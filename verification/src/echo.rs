//! The echo builtin: write arguments to standard output.

use crate::env::{Environment, Error, ExitCode};
use crate::env;
use crate::options;
use crate::text;
use vstd::prelude::*;

verus! {

broadcast use vstd::string::group_string_axioms;

/// What is printed of the words: with a space between each two, and a newline at the end. The
/// newline is left out where it is unwanted, or where the last word ends with `\c`, which is then
/// left out too.
pub open spec fn echoed(words: Seq<Seq<char>>, no_newline: bool) -> Seq<char> {
    let all = text::join(words, " "@);
    if words.len() > 0 && text::ends_with(words.last(), "\\c"@) {
        all.take(all.len() - 2)
    } else if no_newline {
        all
    } else {
        all + "\n"@
    }
}

/// What the command does: a first argument `-n` asks for no newline.
pub open spec fn spec_bin<FS>(v: env::EnvView<FS>) -> (
    env::EnvView<FS>,
    Result<int, env::ErrorView>,
) {
    let n = v.args.len() > 1 && v.args[1] == "-n"@;
    let words = v.args.skip(if n {
        2
    } else {
        1
    });
    (v.write(echoed(words, n)), Ok(0))
}

proof fn lemma_join_ends(words: Seq<Seq<char>>, sep: Seq<char>)
    requires
        words.len() > 0,
    ensures
        text::join(words, sep).len() >= words.last().len(),
{
}

/// The echo builtin: write arguments to standard output.
pub fn bin<FS>(env: &mut Environment<FS>) -> (r: Result<ExitCode, Error>)
    requires
        old(env)@.args.len() > 0,
    ensures
        (final(env)@, env::outcome(r)) == spec_bin(old(env)@),
{
    let n = env.args.len() > 1 && text::same(env.args[1].as_str(), "-n");
    let words = options::copy_from(&env.args, if n {
        2
    } else {
        1
    });
    let mut all = text::join_with(&words, " ");
    let count: usize = words.len();
    if count > 0 && text::has_suffix(words[count - 1].as_str(), "\\c") {
        let v = text::chars(all.as_str());
        proof {
            reveal_strlit("\\c");
            lemma_join_ends(words.deep_view(), " "@);
            assert(words.deep_view().last() == words@[count - 1]@);
        }
        all = text::slice(&v, 0, v.len() - 2);
        assert(all@ =~= v@.take(v@.len() - 2));
    } else if !n {
        all.append("\n");
    }
    env.write_str(all.as_str());
    Ok(ExitCode::new(0))
}

/// Without options and without `\c` at the end, the words come out as they are, on one line.
pub proof fn lemma_plain_words(words: Seq<Seq<char>>)
    requires
        words.len() == 0 || !text::ends_with(words.last(), "\\c"@),
    ensures
        echoed(words, false) == text::terminated(text::join(words, " "@)),
{
    reveal_strlit("\n");
    assert(text::join(words, " "@) + "\n"@ =~= text::terminated(text::join(words, " "@)));
}

/// `-n` leaves out the newline and nothing else, and only as the first argument.
pub proof fn lemma_no_newline<FS>(v: env::EnvView<FS>, name: Seq<char>, words: Seq<Seq<char>>)
    requires
        words.len() > 0 ==> !text::ends_with(words.last(), seq!['\\', 'c']),
        words.len() > 0 ==> words[0] != seq!['-', 'n'],
    ensures
        ({
            let plain = env::EnvView { args: seq![name] + words, ..v };
            let bare = env::EnvView { args: seq![name, seq!['-', 'n']] + words, ..v };
            &&& spec_bin(plain).0.out == spec_bin(bare).0.out + seq!['\n']
            &&& spec_bin(bare).0.out == v.out + text::join(words, seq![' '])
        }),
{
    reveal_strlit("-n");
    reveal_strlit("\\c");
    reveal_strlit("\n");
    reveal_strlit(" ");
    assert("-n"@ =~= seq!['-', 'n']);
    assert("\\c"@ =~= seq!['\\', 'c']);
    assert("\n"@ =~= seq!['\n']);
    assert(" "@ =~= seq![' ']);
    let plain = seq![name] + words;
    let bare = seq![name, seq!['-', 'n']] + words;
    assert(plain.skip(1) =~= words);
    assert(bare.skip(2) =~= words);
    assert(bare[1] == seq!['-', 'n']);
    if words.len() > 0 {
        assert(plain[1] == words[0]);
    }
    let all = text::join(words, " "@);
    assert(v.out + (all + "\n"@) =~= v.out + all + seq!['\n']);
}

/// A last word that ends with `\c` ends the output there: neither the two characters nor a newline
/// are printed.
pub proof fn lemma_output_cut<FS>(
    v: env::EnvView<FS>,
    name: Seq<char>,
    words: Seq<Seq<char>>,
    last: Seq<char>,
)
    requires
        words.len() > 0 ==> words[0] != seq!['-', 'n'],
        words.len() > 0 || last.len() + 2 != 2,
    ensures
        ({
            let cut = env::EnvView {
                args: seq![name] + words.push(last + seq!['\\', 'c']),
                ..v
            };
            spec_bin(cut).0.out == v.out + text::join(words.push(last), seq![' '])
        }),
{
    reveal_strlit("-n");
    reveal_strlit("\\c");
    reveal_strlit(" ");
    assert("-n"@ =~= seq!['-', 'n']);
    assert("\\c"@ =~= seq!['\\', 'c']);
    assert(" "@ =~= seq![' ']);
    let tail = last + seq!['\\', 'c'];
    let long = words.push(tail);
    let short = words.push(last);
    let args = seq![name] + long;
    assert(args.skip(1) =~= long);
    assert(long.last() == tail);
    assert(tail.skip(tail.len() - 2) =~= seq!['\\', 'c']);
    assert(tail[tail.len() - 2] == '\\' && tail[tail.len() - 1] == 'c');
    if words.len() > 0 {
        assert(args[1] == words[0]);
    } else {
        assert(args[1] == tail);
        assert(tail.len() != 2);
    }
    assert(long.drop_last() =~= words && short.drop_last() =~= words);
    let all = text::join(long, " "@);
    assert(all.take(all.len() - 2) =~= text::join(short, " "@));
}

} // verus!
