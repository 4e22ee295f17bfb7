//! The base64 builtin: encode or decode data using Base64 encoding (RFC 4648).

use crate::env::{Environment, Error, ExitCode};
use crate::env;
use crate::fs::{Filesystem, FsError};
use crate::fs;
use crate::options::{Arity, OptDef, Parsed};
use crate::options;
use crate::text;
use vstd::prelude::*;

verus! {

broadcast use vstd::string::group_string_axioms;

/// The character of the Base64 alphabet that stands for a number below 64.
pub open spec fn letter(v: int) -> char {
    if v < 26 {
        ('A' as int + v) as char
    } else if v < 52 {
        ('a' as int + v - 26) as char
    } else if v < 62 {
        ('0' as int + v - 52) as char
    } else if v == 62 {
        '+'
    } else {
        '/'
    }
}

/// The number that a byte of Base64 text stands for.
pub open spec fn sextet(b: u8) -> Option<int> {
    if 65 <= b <= 90 {
        Some(b - 65)
    } else if 97 <= b <= 122 {
        Some(b - 97 + 26)
    } else if 48 <= b <= 57 {
        Some(b - 48 + 52)
    } else if b == 43 {
        Some(62)
    } else if b == 47 {
        Some(63)
    } else {
        None
    }
}

/// The Base64 text of bytes: four characters for each three bytes, six bits each, and `=` in the
/// place of characters that carry no bits of a last group of one or two bytes.
pub open spec fn encoded(b: Seq<u8>) -> Seq<char>
    decreases b.len(),
{
    if b.len() == 0 {
        Seq::empty()
    } else if b.len() == 1 {
        seq![letter(b[0] as int / 4), letter((b[0] % 4) * 16), '=', '=']
    } else if b.len() == 2 {
        seq![
            letter(b[0] as int / 4),
            letter((b[0] % 4) * 16 + b[1] / 16),
            letter((b[1] % 16) * 4),
            '=',
        ]
    } else {
        seq![
            letter(b[0] as int / 4),
            letter((b[0] % 4) * 16 + b[1] / 16),
            letter((b[1] % 16) * 4 + b[2] / 64),
            letter(b[2] as int % 64),
        ] + encoded(b.skip(3))
    }
}

/// The bytes that two, three or four sextets carry.
pub open spec fn first_byte(v0: int, v1: int) -> u8 {
    (v0 * 4 + v1 / 16) as u8
}

pub open spec fn second_byte(v1: int, v2: int) -> u8 {
    ((v1 % 16) * 16 + v2 / 4) as u8
}

pub open spec fn third_byte(v2: int, v3: int) -> u8 {
    ((v2 % 4) * 64 + v3) as u8
}

/// The byte at `i`, or `=` behind the end.
pub open spec fn byte_or_pad(c: Seq<u8>, i: int) -> u8 {
    if i < c.len() {
        c[i]
    } else {
        61
    }
}

/// What a group of up to four bytes of Base64 text carries; nothing where the text is invalid.
/// Behind `=` in the third place only `=` may stand in the fourth.
pub open spec fn decoded_group(c: Seq<u8>) -> Option<Seq<u8>> {
    let c2 = byte_or_pad(c, 2);
    let c3 = byte_or_pad(c, 3);
    if c.len() < 2 || sextet(c[0]) is None || sextet(c[1]) is None {
        None
    } else {
        let v0 = sextet(c[0])->0;
        let v1 = sextet(c[1])->0;
        if c2 == 61 {
            if c3 == 61 {
                Some(seq![first_byte(v0, v1)])
            } else {
                None
            }
        } else if sextet(c2) is None {
            None
        } else {
            let v2 = sextet(c2)->0;
            if c3 == 61 {
                Some(seq![first_byte(v0, v1), second_byte(v1, v2)])
            } else if sextet(c3) is None {
                None
            } else {
                Some(
                    seq![
                        first_byte(v0, v1),
                        second_byte(v1, v2),
                        third_byte(v2, sextet(c3)->0),
                    ],
                )
            }
        }
    }
}

/// The bytes that Base64 text without white space carries, group by group; nothing where a group
/// is invalid.
pub open spec fn decoded(c: Seq<u8>) -> Option<Seq<u8>>
    decreases c.len(),
{
    if c.len() == 0 {
        Some(Seq::empty())
    } else {
        match decoded_group(c) {
            Some(head) => match decoded(c.skip(if c.len() < 4 {
                c.len() as int
            } else {
                4
            })) {
                Some(tail) => Some(head + tail),
                None => None,
            },
            None => None,
        }
    }
}

pub open spec fn is_space(b: u8) -> bool {
    b == 32 || b == 9 || b == 10 || b == 12 || b == 13
}

/// The bytes that are no white space.
pub open spec fn unspaced(b: Seq<u8>) -> Seq<u8>
    decreases b.len(),
{
    if b.len() == 0 {
        Seq::empty()
    } else if is_space(b.last()) {
        unspaced(b.drop_last())
    } else {
        unspaced(b.drop_last()).push(b.last())
    }
}

fn letter_of(v: u8) -> (r: char)
    requires
        v < 64,
    ensures
        r == letter(v as int),
{
    if v < 26 {
        (65 + v) as char
    } else if v < 52 {
        (97 + (v - 26)) as char
    } else if v < 62 {
        (48 + (v - 52)) as char
    } else if v == 62 {
        '+'
    } else {
        '/'
    }
}

fn sextet_of(b: u8) -> (r: Option<u8>)
    ensures
        match r {
            Some(v) => sextet(b) == Some(v as int) && v < 64,
            None => sextet(b) is None,
        },
{
    if 65 <= b && b <= 90 {
        Some(b - 65)
    } else if 97 <= b && b <= 122 {
        Some(b - 97 + 26)
    } else if 48 <= b && b <= 57 {
        Some(b - 48 + 52)
    } else if b == 43 {
        Some(62)
    } else if b == 47 {
        Some(63)
    } else {
        None
    }
}

/// Encodes bytes to a Base64 string.
pub fn encode_base64(input: &[u8]) -> (r: String)
    ensures
        r@ == encoded(input@),
{
    let mut output = String::new();
    let mut i: usize = 0;
    assert(input@.skip(0) =~= input@);
    assert(output@ + encoded(input@) =~= encoded(input@));
    while i < input.len()
        invariant
            i <= input@.len(),
            output@ + encoded(input@.skip(i as int)) == encoded(input@),
        decreases input.len() - i,
    {
        let ghost before = output@;
        let ghost rest = input@.skip(i as int);
        let left: usize = input.len() - i;
        let b0 = input[i];
        output.push(letter_of(b0 / 4));
        if left == 1 {
            output.push(letter_of((b0 % 4) * 16));
            output.push('=');
            output.push('=');
            assert(output@ =~= before + encoded(rest));
            i = input.len();
            assert(encoded(input@.skip(i as int)) =~= Seq::<char>::empty());
            assert(output@ + encoded(input@.skip(i as int)) =~= output@);
        } else if left == 2 {
            let b1 = input[i + 1];
            output.push(letter_of((b0 % 4) * 16 + b1 / 16));
            output.push(letter_of((b1 % 16) * 4));
            output.push('=');
            assert(output@ =~= before + encoded(rest));
            i = input.len();
            assert(encoded(input@.skip(i as int)) =~= Seq::<char>::empty());
            assert(output@ + encoded(input@.skip(i as int)) =~= output@);
        } else {
            let b1 = input[i + 1];
            let b2 = input[i + 2];
            output.push(letter_of((b0 % 4) * 16 + b1 / 16));
            output.push(letter_of((b1 % 16) * 4 + b2 / 64));
            output.push(letter_of(b2 % 64));
            proof {
                let tail = encoded(input@.skip(i + 3));
                assert(rest.skip(3) =~= input@.skip(i + 3));
                assert(output@ + tail =~= before + encoded(rest));
            }
            i += 3;
        }
    }
    assert(encoded(input@.skip(i as int)) =~= Seq::<char>::empty());
    assert(output@ + encoded(input@.skip(i as int)) =~= output@);
    output
}

fn without_spaces(input: &[u8]) -> (r: Vec<u8>)
    ensures
        r@ == unspaced(input@),
{
    let mut out: Vec<u8> = Vec::new();
    let mut i: usize = 0;
    while i < input.len()
        invariant
            i <= input@.len(),
            out@ == unspaced(input@.take(i as int)),
        decreases input.len() - i,
    {
        let b = input[i];
        assert(input@.take(i + 1).drop_last() =~= input@.take(i as int));
        if !(b == 32 || b == 9 || b == 10 || b == 12 || b == 13) {
            out.push(b);
        }
        i += 1;
    }
    assert(input@.take(i as int) =~= input@);
    out
}

/// What Base64 text carries.
pub open spec fn decoded_text(input: Seq<char>) -> Option<Seq<u8>> {
    decoded(unspaced(vstd::utf8::encode_utf8(input)))
}

/// Decodes a Base64 string to bytes. Returns `None` on invalid input.
pub fn decode_base64(input: &str) -> (r: Option<Vec<u8>>)
    ensures
        match r {
            Some(v) => decoded_text(input@) == Some(v@),
            None => decoded_text(input@) is None,
        },
{
    let chars = without_spaces(input.as_bytes());
    let mut output: Vec<u8> = Vec::new();
    let mut i: usize = 0;
    let ghost all = chars@;
    assert(all.skip(0) =~= all);
    proof {
        if decoded(all) is Some {
            assert(output@ + decoded(all)->0 =~= decoded(all)->0);
        }
    }
    while i < chars.len()
        invariant
            i <= chars@.len(),
            chars@ == all,
            all == unspaced(vstd::utf8::encode_utf8(input@)),
            decoded(all) is Some <==> decoded(all.skip(i as int)) is Some,
            decoded(all) is Some ==> decoded(all)->0 == output@ + decoded(all.skip(i as int))->0,
        decreases chars.len() - i,
    {
        let ghost rest = all.skip(i as int);
        let ghost before = output@;
        let left: usize = chars.len() - i;
        if left < 2 {
            return None;
        }
        let c2: u8 = if left > 2 {
            chars[i + 2]
        } else {
            61
        };
        let c3: u8 = if left > 3 {
            chars[i + 3]
        } else {
            61
        };
        let v0 = match sextet_of(chars[i]) {
            Some(v) => v,
            None => {
                return None;
            },
        };
        let v1 = match sextet_of(chars[i + 1]) {
            Some(v) => v,
            None => {
                return None;
            },
        };
        output.push(v0 * 4 + v1 / 16);
        if c2 != 61 {
            let v2 = match sextet_of(c2) {
                Some(v) => v,
                None => {
                    return None;
                },
            };
            output.push((v1 % 16) * 16 + v2 / 4);
            if c3 != 61 {
                let v3 = match sextet_of(c3) {
                    Some(v) => v,
                    None => {
                        return None;
                    },
                };
                output.push((v2 % 4) * 64 + v3);
            }
        } else if c3 != 61 {
            return None;
        }
        let step: usize = if left < 4 {
            left
        } else {
            4
        };
        proof {
            assert(output@ =~= before + decoded_group(rest)->0);
            assert(rest.skip(step as int) =~= all.skip(i + step));
            if decoded(all) is Some {
                let tail = decoded(all.skip(i + step))->0;
                assert(output@ + tail =~= before + (decoded_group(rest)->0 + tail));
            }
        }
        i += step;
    }
    proof {
        assert(decoded(all.skip(i as int)) == Some(Seq::<u8>::empty()));
        if decoded(all) is Some {
            assert(output@ + Seq::<u8>::empty() =~= output@);
        }
    }
    Some(output)
}

/// Text with a newline before each character whose position is a multiple of `width`, the first
/// one left out.
pub open spec fn wrapped(s: Seq<char>, width: nat) -> Seq<char>
    decreases s.len(),
{
    if width == 0 || s.len() == 0 {
        s
    } else {
        let i = s.len() - 1;
        let before = wrapped(s.drop_last(), width);
        if i > 0 && i % width as int == 0 {
            before.push('\n').push(s.last())
        } else {
            before.push(s.last())
        }
    }
}

/// Wraps a string at the specified column width. A width of zero leaves it as it is.
pub fn wrap_output(s: &str, wrap: usize) -> (r: String)
    ensures
        r@ == wrapped(s@, wrap as nat),
{
    if wrap == 0 {
        return s.to_owned();
    }
    let v = text::chars(s);
    let mut output = String::new();
    let mut i: usize = 0;
    while i < v.len()
        invariant
            wrap > 0,
            i <= v@.len(),
            v@ == s@,
            output@ == wrapped(v@.take(i as int), wrap as nat),
        decreases v.len() - i,
    {
        assert(v@.take(i + 1).drop_last() =~= v@.take(i as int));
        if i > 0 && i % wrap == 0 {
            output.push('\n');
        }
        output.push(v[i]);
        i += 1;
    }
    assert(v@.take(i as int) =~= v@);
    output
}

pub const HELP: &'static str =
    "Usage: base64 [OPTION]... [FILE]\nBase64 encode or decode FILE, or standard input, to standard output.\n\n  -d, --decode          decode data\n  -i, --ignore-garbage  when decoding, ignore non-alphabet characters\n  -w, --wrap=COLS       wrap encoded lines after COLS character (default 76)\n                        use 0 to disable line wrapping\n  -h, --help            display this help and exit\n";

/// The options of the command.
pub open spec fn table() -> Seq<OptDef> {
    seq![
        OptDef { short: 'd', long: "decode", arity: Arity::Flag },
        OptDef { short: 'i', long: "ignore-garbage", arity: Arity::Flag },
        OptDef { short: 'w', long: "wrap", arity: Arity::Value },
        OptDef { short: 'h', long: "help", arity: Arity::Flag },
    ]
}

fn build_options() -> (r: Vec<OptDef>)
    ensures
        r@ == table(),
        options::all_declarable(options::definitions(r@)),
{
    let r = vec![
        OptDef { short: 'd', long: "decode", arity: Arity::Flag },
        OptDef { short: 'i', long: "ignore-garbage", arity: Arity::Flag },
        OptDef { short: 'w', long: "wrap", arity: Arity::Value },
        OptDef { short: 'h', long: "help", arity: Arity::Flag },
    ];
    proof {
        reveal_strlit("decode");
        reveal_strlit("ignore-garbage");
        reveal_strlit("wrap");
        reveal_strlit("help");
    }
    r
}

/// What is left of text when garbage is ignored: the alphabet, padding and white space.
pub open spec fn in_alphabet(c: char) -> bool {
    text::is_letter(c) || text::is_digit(c) || c == '+' || c == '/' || c == '=' || c == ' ' || c
        == '\t' || c == '\n' || c == '\x0c' || c == '\r'
}

pub open spec fn without_garbage(s: Seq<char>) -> Seq<char> {
    s.filter(|c: char| in_alphabet(c))
}

fn drop_garbage(s: &str) -> (r: String)
    ensures
        r@ == without_garbage(s@),
{
    let v = text::chars(s);
    let mut out = String::new();
    let mut i: usize = 0;
    while i < v.len()
        invariant
            i <= v@.len(),
            v@ == s@,
            out@ == without_garbage(v@.take(i as int)),
        decreases v.len() - i,
    {
        let c = v[i];
        proof {
            reveal(Seq::filter);
            assert(v@.take(i + 1).drop_last() =~= v@.take(i as int));
        }
        if text::letter(c) || text::digit(c) || c == '+' || c == '/' || c == '=' || c == ' ' || c
            == '\t' || c == '\n' || c == '\x0c' || c == '\r' {
            out.push(c);
        }
        i += 1;
    }
    assert(v@.take(i as int) =~= v@);
    out
}

/// The text that bytes stand for, as far as they are UTF-8.
pub open spec fn shown(bytes: Seq<u8>) -> Seq<char> {
    if vstd::utf8::valid_utf8(bytes) {
        vstd::utf8::decode_utf8(bytes)
    } else {
        text::lossy(bytes)
    }
}

/// What the command comes to once it has its input.
pub open spec fn processed<FS>(
    v: env::EnvView<FS>,
    p: options::ParsedView,
    wrap: nat,
    input: Seq<char>,
) -> (env::EnvView<FS>, Result<int, env::ErrorView>) {
    if p.present('d') {
        let kept = if p.present('i') {
            without_garbage(input)
        } else {
            input
        };
        match decoded_text(kept) {
            Some(bytes) => (v.write(shown(bytes)), Ok(0)),
            None => (v.error_line("base64: invalid input"@), Ok(1)),
        }
    } else {
        (v.write_line(wrapped(encoded(vstd::utf8::encode_utf8(input)), wrap)), Ok(0))
    }
}

/// What the command does once its options are known.
pub open spec fn ran<FS: Filesystem>(v: env::EnvView<FS>, p: options::ParsedView) -> (
    env::EnvView<FS>,
    Result<int, env::ErrorView>,
) {
    let wrap = match p.value('w') {
        Some(s) => text::unsigned(s, usize::MAX as nat),
        None => Some(76),
    };
    if p.present('h') {
        (v.write(HELP@), Ok(0))
    } else if wrap is None {
        (v.error_line("base64: invalid wrap size: '"@ + p.value('w')->0 + "'"@), Ok(1))
    } else if p.free.len() == 0 || p.free[0] == "-"@ {
        processed(v.drained(), p, wrap->0, text::join(v.stdin, "\n"@))
    } else {
        let w = v.with_fs(v.fs.after(fs::Request::Read(p.free[0])));
        match v.fs.reads(p.free[0]) {
            Ok(input) => processed(w, p, wrap->0, input),
            Err(e) => (
                w.error_line("base64: "@ + p.free[0] + ": "@ + e.message),
                Ok(1),
            ),
        }
    }
}

/// What the command does.
pub open spec fn spec_bin<FS: Filesystem>(v: env::EnvView<FS>) -> (
    env::EnvView<FS>,
    Result<int, env::ErrorView>,
) {
    match options::parsed(table(), v.args.skip(1)) {
        Ok(p) => ran(v, p),
        Err(message) => (v.error_line("base64: "@ + message), Ok(1)),
    }
}

fn process<FS>(env: &mut Environment<FS>, p: &Parsed, wrap: usize, input: &str) -> (r: Result<
    ExitCode,
    Error,
>)
    ensures
        (final(env)@, env::outcome(r)) == processed(old(env)@, p@, wrap as nat, input@),
{
    if p.present('d') {
        let kept = if p.present('i') {
            drop_garbage(input)
        } else {
            input.to_owned()
        };
        match decode_base64(kept.as_str()) {
            Some(decoded) => {
                match text::decode_bytes(decoded) {
                    Ok(s) => {
                        proof {
                            vstd::utf8::encode_utf8_valid_utf8(s@);
                            vstd::utf8::encode_utf8_decode_utf8(s@);
                        }
                        env.write_str(s.as_str());
                    },
                    Err(bytes) => {
                        let s = text::decode_lossy(&bytes);
                        env.write_str(s.as_str());
                    },
                }
                Ok(ExitCode::new(0))
            },
            None => {
                env.error_line("base64: invalid input");
                Ok(ExitCode::new(1))
            },
        }
    } else {
        let encoded = encode_base64(input.as_bytes());
        let wrapped = wrap_output(encoded.as_str(), wrap);
        env.write_line(wrapped.as_str());
        Ok(ExitCode::new(0))
    }
}

/// Encodes or decodes with the options that a command line gave.
pub fn run<FS: Filesystem>(env: &mut Environment<FS>, p: &Parsed) -> (r: Result<ExitCode, Error>)
    ensures
        (final(env)@, env::outcome(r)) == ran(old(env)@, p@),
{
    if p.present('h') {
        env.write_str(HELP);
        return Ok(ExitCode::new(0));
    }
    let wrap: usize = match p.value('w') {
        Some(s) => match text::parse_unsigned(s.as_str(), usize::MAX as u64) {
            Some(n) => n as usize,
            None => {
                let mut m = "base64: invalid wrap size: '".to_owned();
                m.append(s.as_str());
                m.append("'");
                env.error_line(m.as_str());
                return Ok(ExitCode::new(1));
            },
        },
        None => 76,
    };
    if p.free.len() == 0 || text::same(p.free[0].as_str(), "-") {
        let lines = env.stdin.read_all();
        let input = text::join_with(&lines, "\n");
        process(env, p, wrap, input.as_str())
    } else {
        match env.fs.read_to_string(p.free[0].as_str()) {
            Ok(input) => process(env, p, wrap, input.as_str()),
            Err(FsError::Io(e)) => {
                let mut m = "base64: ".to_owned();
                m.append(p.free[0].as_str());
                m.append(": ");
                m.append(e.message.as_str());
                env.error_line(m.as_str());
                Ok(ExitCode::new(1))
            },
        }
    }
}

/// The base64 builtin: encode or decode data using Base64 encoding.
pub fn bin<FS: Filesystem>(env: &mut Environment<FS>) -> (r: Result<ExitCode, Error>)
    requires
        old(env)@.args.len() > 0,
    ensures
        (final(env)@, env::outcome(r)) == spec_bin(old(env)@),
{
    let opts = build_options();
    match options::parse(&opts, &env.args) {
        Ok(p) => run(env, &p),
        Err(e) => {
            let mut m = "base64: ".to_owned();
            m.append(e.as_str());
            env.error_line(m.as_str());
            Ok(ExitCode::new(1))
        },
    }
}

/// The characters of `s` that are no newline.
pub open spec fn without_newlines(s: Seq<char>) -> Seq<char>
    decreases s.len(),
{
    if s.len() == 0 {
        Seq::empty()
    } else if s.last() == '\n' {
        without_newlines(s.drop_last())
    } else {
        without_newlines(s.drop_last()).push(s.last())
    }
}

/// Wrapping adds newlines and changes nothing else: without newlines the text is the same.
pub proof fn lemma_wrapping_keeps_text(s: Seq<char>, width: nat)
    requires
        !s.contains('\n'),
    ensures
        without_newlines(wrapped(s, width)) == s,
    decreases s.len(),
{
    if s.len() == 0 {
        assert(without_newlines(s) =~= s);
    } else {
        let t = s.drop_last();
        assert(!t.contains('\n')) by {
            assert forall|i: int| 0 <= i < t.len() implies t[i] != '\n' by {
                assert(s.contains(s[i]));
            }
        }
        assert(s.contains(s.last()));
        lemma_wrapping_keeps_text(t, width);
        let w = wrapped(t, width);
        assert(w.push('\n').drop_last() =~= w);
        assert(w.push('\n').push(s.last()).drop_last() =~= w.push('\n'));
        assert(w.push(s.last()).drop_last() =~= w);
        assert(t.push(s.last()) =~= s);
        if width == 0 {
            assert(w == t);
            assert(without_newlines(s) == without_newlines(t).push(s.last()));
        } else {
            assert(without_newlines(w.push('\n')) == without_newlines(w));
        }
    }
}

/// Decoding the Base64 text of bytes gives the bytes back.
pub proof fn lemma_decode_encode(b: Seq<u8>)
    ensures
        decoded_text(encoded(b)) == Some(b),
{
    lemma_encoded_ascii(b);
    vstd::utf8::is_ascii_chars_encode_utf8(encoded(b));
    let c = Seq::new(encoded(b).len(), |i: int| encoded(b)[i] as u8);
    assert(vstd::utf8::encode_utf8(encoded(b)) =~= c);
    lemma_unspaced_same(c);
    lemma_decode_bytes(b);
}

/// What the command writes when it encodes, wrapped at any width and ended by a newline, decodes
/// to the bytes that were encoded.
pub proof fn lemma_decode_written(b: Seq<u8>, width: nat)
    ensures
        decoded_text(text::terminated(wrapped(encoded(b), width))) == Some(b),
{
    let e = encoded(b);
    lemma_encoded_ascii(b);
    lemma_wrapped_bytes(e, width);
    let w = wrapped(e, width);
    let t = text::terminated(w);
    assert(vstd::utf8::is_ascii_chars(t)) by {
        assert forall|i: int| 0 <= i < t.len() implies 0 <= (#[trigger] t[i] as nat) < 128 by {
            if i < w.len() {
                assert(t[i] == w[i]);
            }
        }
    }
    vstd::utf8::is_ascii_chars_encode_utf8(t);
    vstd::utf8::is_ascii_chars_encode_utf8(e);
    assert(vstd::utf8::encode_utf8(t) =~= ascii_bytes(t));
    assert(vstd::utf8::encode_utf8(e) =~= ascii_bytes(e));
    assert(ascii_bytes(t).drop_last() =~= ascii_bytes(w));
    lemma_decode_encode(b);
}

proof fn lemma_wrapped_bytes(s: Seq<char>, width: nat)
    requires
        vstd::utf8::is_ascii_chars(s),
    ensures
        vstd::utf8::is_ascii_chars(wrapped(s, width)),
        unspaced(ascii_bytes(wrapped(s, width))) == unspaced(ascii_bytes(s)),
    decreases s.len(),
{
    if width > 0 && s.len() > 0 {
        let t = s.drop_last();
        assert(vstd::utf8::is_ascii_chars(t)) by {
            assert forall|i: int| 0 <= i < t.len() implies 0 <= (#[trigger] t[i] as nat) < 128 by {
                assert(t[i] == s[i]);
            }
        }
        lemma_wrapped_bytes(t, width);
        let w = wrapped(t, width);
        let n = w.push('\n');
        assert(ascii_bytes(n).drop_last() =~= ascii_bytes(w));
        assert(ascii_bytes(n.push(s.last())).drop_last() =~= ascii_bytes(n));
        assert(ascii_bytes(w.push(s.last())).drop_last() =~= ascii_bytes(w));
        assert(ascii_bytes(s).drop_last() =~= ascii_bytes(t));
        assert(unspaced(ascii_bytes(n)) == unspaced(ascii_bytes(w))) by {
            assert(ascii_bytes(n).last() == 10);
        }
        assert(ascii_bytes(n.push(s.last())).last() == ascii_bytes(s).last());
        assert(ascii_bytes(w.push(s.last())).last() == ascii_bytes(s).last());
        let r = wrapped(s, width);
        assert forall|i: int| 0 <= i < r.len() implies 0 <= (#[trigger] r[i] as nat) < 128 by {
            if i < w.len() {
                assert(r[i] == w[i]);
            } else {
                assert(r[i] == '\n' || r[i] == s[s.len() - 1]);
            }
        }
    }
}

pub open spec fn ascii_bytes(s: Seq<char>) -> Seq<u8> {
    Seq::new(s.len(), |i: int| s[i] as u8)
}

proof fn lemma_letter(v: int)
    requires
        0 <= v < 64,
    ensures
        (letter(v) as u32) < 128,
        sextet(letter(v) as u8) == Some(v),
        letter(v) as u8 != 61,
        !is_space(letter(v) as u8),
{
}

proof fn lemma_encoded_ascii(b: Seq<u8>)
    ensures
        vstd::utf8::is_ascii_chars(encoded(b)),
        forall|i: int|
            0 <= i < encoded(b).len() ==> !is_space(#[trigger] encoded(b)[i] as u8),
    decreases b.len(),
{
    if b.len() > 2 {
        lemma_encoded_ascii(b.skip(3));
    }
    if b.len() > 0 {
        lemma_letter(b[0] as int / 4);
    }
    if b.len() == 1 {
        lemma_letter((b[0] % 4) * 16);
    }
    if b.len() > 1 {
        lemma_letter((b[0] % 4) * 16 + b[1] as int / 16);
    }
    if b.len() == 2 {
        lemma_letter((b[1] % 16) * 4);
    }
    if b.len() > 2 {
        lemma_letter((b[1] % 16) * 4 + b[2] as int / 64);
        lemma_letter(b[2] as int % 64);
        let head = seq![
            letter(b[0] as int / 4),
            letter((b[0] % 4) * 16 + b[1] as int / 16),
            letter((b[1] % 16) * 4 + b[2] as int / 64),
            letter(b[2] as int % 64),
        ];
        assert forall|i: int| 0 <= i < encoded(b).len() implies !is_space(
            #[trigger] encoded(b)[i] as u8,
        ) && 0 <= (encoded(b)[i] as nat) < 128 by {
            if i >= 4 {
                assert(encoded(b)[i] == encoded(b.skip(3))[i - 4]);
            } else {
                assert(encoded(b)[i] == head[i]);
            }
        }
    }
}

proof fn lemma_unspaced_same(c: Seq<u8>)
    requires
        forall|i: int| 0 <= i < c.len() ==> !is_space(#[trigger] c[i]),
    ensures
        unspaced(c) == c,
    decreases c.len(),
{
    if c.len() > 0 {
        lemma_unspaced_same(c.drop_last());
        assert(c.drop_last().push(c.last()) =~= c);
    }
}

proof fn lemma_decode_bytes(b: Seq<u8>)
    ensures
        decoded(ascii_bytes(encoded(b))) == Some(b),
    decreases b.len(),
{
    let c = ascii_bytes(encoded(b));
    if b.len() == 0 {
        assert(c =~= Seq::<u8>::empty());
    } else if b.len() == 1 {
        lemma_letter(b[0] as int / 4);
        lemma_letter((b[0] % 4) * 16);
        assert(c.skip(4) =~= Seq::<u8>::empty());
        assert(decoded(c.skip(4)) == Some(Seq::<u8>::empty()));
        assert(decoded_group(c)->0 =~= b);
        assert(b + Seq::<u8>::empty() =~= b);
    } else if b.len() == 2 {
        lemma_letter(b[0] as int / 4);
        lemma_letter((b[0] % 4) * 16 + b[1] as int / 16);
        lemma_letter((b[1] % 16) * 4);
        assert(c.skip(4) =~= Seq::<u8>::empty());
        assert(decoded(c.skip(4)) == Some(Seq::<u8>::empty()));
        assert(decoded_group(c)->0 =~= b);
        assert(b + Seq::<u8>::empty() =~= b);
    } else {
        lemma_letter(b[0] as int / 4);
        lemma_letter((b[0] % 4) * 16 + b[1] as int / 16);
        lemma_letter((b[1] % 16) * 4 + b[2] as int / 64);
        lemma_letter(b[2] as int % 64);
        lemma_decode_bytes(b.skip(3));
        assert(c.skip(4) =~= ascii_bytes(encoded(b.skip(3))));
        assert(decoded_group(c)->0 =~= b.take(3));
        assert(b.take(3) + b.skip(3) =~= b);
    }
}

/// The text has four characters for each three bytes, or the one or two bytes behind the last three.
pub proof fn lemma_encoded_length(b: Seq<u8>)
    ensures
        encoded(b).len() == 4 * ((b.len() + 2) / 3),
    decreases b.len(),
{
    if b.len() > 2 {
        lemma_encoded_length(b.skip(3));
    }
}

/// Bytes are encoded by threes: the text of the whole is the texts of its parts, where the first
/// part is whole groups.
pub proof fn lemma_encoded_in_groups(a: Seq<u8>, b: Seq<u8>)
    requires
        a.len() % 3 == 0,
    ensures
        encoded(a + b) == encoded(a) + encoded(b),
    decreases a.len(),
{
    if a.len() == 0 {
        assert(a + b =~= b);
    } else {
        assert(a.len() >= 3);
        lemma_encoded_in_groups(a.skip(3), b);
        assert((a + b).skip(3) =~= a.skip(3) + b);
        assert(encoded(a + b) =~= encoded(a) + encoded(b));
    }
}

/// Wrapped text has a newline behind each `width` characters that more follow, and nowhere else: the
/// `i`-th character stands behind `i / width` newlines.
pub proof fn lemma_wrapped_lines(s: Seq<char>, width: nat, i: int)
    requires
        width > 0,
        0 <= i < s.len(),
    ensures
        wrapped(s, width).len() == s.len() + (s.len() - 1) / width as int,
        wrapped(s, width)[i + i / width as int] == s[i],
        i > 0 && i % width as int == 0 ==> wrapped(s, width)[i + i / width as int - 1] == '\n',
    decreases s.len(),
{
    let w = width as int;
    let n = s.len() - 1;
    let shorter = s.drop_last();
    assert(n / w >= 0) by (nonlinear_arith)
        requires
            n >= 0,
            w > 0,
    ;
    if n > 0 {
        lemma_wrapped_lines(shorter, width, if i < n {
            i
        } else {
            0
        });
        vstd::arithmetic::div_mod::lemma_fundamental_div_mod(n, w);
        vstd::arithmetic::div_mod::lemma_fundamental_div_mod(n - 1, w);
        assert(n / w == (n - 1) / w + if n % w == 0 {
            1int
        } else {
            0
        }) by (nonlinear_arith)
            requires
                n > 0,
                w > 0,
                n == w * (n / w) + n % w,
                n - 1 == w * ((n - 1) / w) + (n - 1) % w,
                0 <= n % w < w,
                0 <= (n - 1) % w < w,
        ;
        if i < n {
            assert(i / w <= (n - 1) / w) by {
                vstd::arithmetic::div_mod::lemma_div_is_ordered(i, n - 1, w);
            }
            assert(shorter[i] == s[i]);
            assert(i / w >= 0) by (nonlinear_arith)
                requires
                    i >= 0,
                    w > 0,
            ;
        }
    } else {
        assert(0int / w == 0) by (nonlinear_arith)
            requires
                w > 0,
        ;
        assert(shorter =~= Seq::empty());
        assert(wrapped(shorter, width).len() == 0);
    }
}

/// With -i a character that is no letter, no digit, none of `+`, `/` and `=` and no white space is
/// passed over, wherever it stands.
pub proof fn lemma_garbage_passed_over(before: Seq<char>, c: char, after: Seq<char>)
    requires
        !text::is_letter(c),
        !text::is_digit(c),
        !seq!['+', '/', '=', ' ', '\t', '\n', '\x0c', '\r'].contains(c),
    ensures
        without_garbage(before + seq![c] + after) == without_garbage(before + after),
    decreases after.len(),
{
    reveal(Seq::filter);
    let known = seq!['+', '/', '=', ' ', '\t', '\n', '\x0c', '\r'];
    assert(known[0] == '+' && known[1] == '/' && known[2] == '=' && known[3] == ' ' && known[4]
        == '\t' && known[5] == '\n' && known[6] == '\x0c' && known[7] == '\r');
    let long = before + seq![c] + after;
    let short = before + after;
    if after.len() == 0 {
        assert(long.drop_last() =~= before);
        assert(short =~= before);
        assert(long.last() == c);
    } else {
        lemma_garbage_passed_over(before, c, after.drop_last());
        assert(long.drop_last() =~= before + seq![c] + after.drop_last());
        assert(short.drop_last() =~= before + after.drop_last());
        assert(long.last() == after.last() && short.last() == after.last());
    }
}

/// With -i the characters of the alphabet stay as they are.
pub proof fn lemma_alphabet_kept(s: Seq<char>)
    requires
        forall|i: int|
            0 <= i < s.len() ==> text::is_letter(#[trigger] s[i]) || text::is_digit(s[i]) || seq![
                '+',
                '/',
                '=',
                ' ',
                '\n',
            ].contains(s[i]),
    ensures
        without_garbage(s) == s,
    decreases s.len(),
{
    reveal(Seq::filter);
    if s.len() > 0 {
        let init = s.drop_last();
        assert forall|i: int| 0 <= i < init.len() implies #[trigger] init[i] == s[i] by {}
        assert forall|i: int| 0 <= i < init.len() implies text::is_letter(#[trigger] init[i])
            || text::is_digit(init[i]) || seq!['+', '/', '=', ' ', '\n'].contains(init[i]) by {
            assert(init[i] == s[i]);
        }
        lemma_alphabet_kept(init);
        let c = s[s.len() - 1];
        assert(in_alphabet(c));
        assert(without_garbage(s) =~= s);
    } else {
        assert(without_garbage(s) =~= s);
    }
}

/// Without -w lines of the output have 76 characters, and with -w as many as it says.
pub proof fn lemma_width_of_lines<FS: Filesystem>(
    v: env::EnvView<FS>,
    p: options::ParsedView,
    width: nat,
    i: int,
)
    requires
        !p.present('h'),
        !p.present('d'),
        p.free.len() == 0,
        p.value('w') is None && width == 76 || p.value('w') == Some(text::decimal(width)),
        0 < width <= usize::MAX,
        0 <= i < encoded(vstd::utf8::encode_utf8(text::join(v.stdin, "\n"@))).len(),
    ensures
        ({
            let s = encoded(vstd::utf8::encode_utf8(text::join(v.stdin, "\n"@)));
            let out = ran(v, p).0.out;
            let at = v.out.len() + i + i / width as int;
            &&& out.len() == v.out.len() + s.len() + (s.len() - 1) / width as int + 1
            &&& out[at] == s[i]
            &&& i > 0 && i % width as int == 0 ==> out[at - 1] == '\n'
            &&& out.last() == '\n'
            &&& ran(v, p).1 == Ok::<int, env::ErrorView>(0)
        }),
{
    let s = encoded(vstd::utf8::encode_utf8(text::join(v.stdin, "\n"@)));
    lemma_wrapped_lines(s, width, i);
    text::lemma_number_of_decimal(width);
    assert(text::is_digit(text::decimal(width)[0]));
    let w = wrapped(s, width);
    let out = ran(v, p).0.out;
    assert(out =~= v.out + w.push('\n'));
    assert(i / width as int <= (s.len() - 1) / width as int) by {
        vstd::arithmetic::div_mod::lemma_div_is_ordered(i, s.len() - 1, width as int);
    }
    assert(i / width as int >= 0) by (nonlinear_arith)
        requires
            i >= 0,
            width > 0,
    ;
}

} // verus!
