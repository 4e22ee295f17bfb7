//! The markdownsp builtin: a lisp REPL for markdown documents.
//!
//! The expressions themselves are evaluated by an `Evaluator`: the command asks for it by an `Action`,
//! and goes on when it is handed the reply. What expressions do with files stands here.

use crate::env::{Environment, Error, ExitCode};
use crate::env;
use crate::fs::{FileType, Filesystem, FsError};
use crate::fs;
use crate::options::{Arity, OptDef, Parsed};
use crate::options;
use crate::order::Order;
use crate::order;
use crate::paths;
use crate::text;
use vstd::prelude::*;

verus! {

broadcast use vstd::string::group_string_axioms;

pub const USAGE: &'static str =
    "Usage: markdownsp [-d DIR] [-e EXPR]\n\nOptions:\n  -h, --help    Print help information\n  -e, --eval    Evaluate a single expression and exit\n  -d, --dir     Root directory for markdown files (default: cwd)\n\nREPL Commands:\n  :help         Show help\n  :quit         Exit the REPL\n  :ls           List markdown files\n  :show FILE    Show document as s-expression\n  :md FILE      Show document as markdown\n  :annotate FILE  Show document with path IDs\n  :pwd          Print working directory\n\nMarkdown Functions:\n  (load \"file.md\")              Load and parse markdown file\n  (save \"file.md\" doc)          Save document to file\n  (markdown-to-sexpr str)        Parse markdown string\n  (sexpr-to-markdown doc)        Convert to markdown\n  (get-by-path doc \"1.2\")       Get node by path\n  (prune doc \"1.2\")             Remove node at path\n  (replace-at doc \"1\" node)     Replace node\n  (generate-toc doc)             Generate table of contents\n  (annotate doc)                 Add path IDs to all nodes";

/// The options of the command.
pub open spec fn table() -> Seq<OptDef> {
    seq![
        OptDef { short: 'h', long: "help", arity: Arity::Flag },
        OptDef { short: 'e', long: "eval", arity: Arity::Value },
        OptDef { short: 'd', long: "dir", arity: Arity::Value },
    ]
}

fn build_options() -> (r: Vec<OptDef>)
    ensures
        r@ == table(),
        options::all_declarable(options::definitions(r@)),
{
    let r = vec![
        OptDef { short: 'h', long: "help", arity: Arity::Flag },
        OptDef { short: 'e', long: "eval", arity: Arity::Value },
        OptDef { short: 'd', long: "dir", arity: Arity::Value },
    ];
    proof {
        reveal_strlit("help");
        reveal_strlit("eval");
        reveal_strlit("dir");
    }
    r
}

// ---------------------------------------------------------------------------------------------
// Markdown files
// ---------------------------------------------------------------------------------------------

/// Whether a name is that of a markdown file.
pub open spec fn is_markdown(name: Seq<char>) -> bool {
    text::ends_with(name, ".md"@) || text::ends_with(name, ".MD"@)
}

/// A text without the slashes at its beginning.
pub open spec fn unrooted(s: Seq<char>) -> Seq<char>
    decreases s.len(),
{
    if s.len() > 0 && s[0] == '/' {
        unrooted(s.skip(1))
    } else {
        s
    }
}

/// A path as it is written from a base.
pub open spec fn relative(base: Seq<char>, path: Seq<char>) -> Seq<char> {
    unrooted(
        if text::starts_with(path, base) {
            path.skip(base.len() as int)
        } else {
            path
        },
    )
}

fn relative_path(base: &str, path: &str) -> (r: String)
    ensures
        r@ == relative(base@, path@),
{
    let n = text::chars(base).len();
    let rest = if text::has_prefix(path, base) {
        text::drop_chars(path, n)
    } else {
        path.to_owned()
    };
    let v = text::chars(rest.as_str());
    let mut i: usize = 0;
    assert(rest@.skip(0) =~= rest@);
    while i < v.len() && v[i] == '/'
        invariant
            i <= v@.len(),
            v@ == rest@,
            unrooted(rest@.skip(i as int)) == unrooted(rest@),
        decreases v.len() - i,
    {
        assert(rest@.skip(i as int).skip(1) =~= rest@.skip(i + 1));
        i += 1;
    }
    let s = text::slice(&v, i, v.len());
    assert(s@ =~= rest@.skip(i as int));
    s
}

/// The markdown files below a directory, as they are written from `base`, behind those that were
/// found before; or why they cannot be found. A hierarchy deeper than the largest depth is not
/// followed further.
pub open spec fn gathered<FS: Filesystem>(
    s: FS,
    base: Seq<char>,
    path: Seq<char>,
    found: Seq<Seq<char>>,
    depth: nat,
) -> (FS, Result<Seq<Seq<char>>, fs::IoView>)
    decreases usize::MAX - depth, 1int, 0int,
{
    let t = s.after(fs::Request::ReadDir(path));
    match s.lists(path) {
        Err(e) => (t, Err(e)),
        Ok(l) => gathered_entries(t, base, path, found, depth, l, 0),
    }
}

/// The markdown files among and below the entries of a directory from `i` on.
pub open spec fn gathered_entries<FS: Filesystem>(
    s: FS,
    base: Seq<char>,
    path: Seq<char>,
    found: Seq<Seq<char>>,
    depth: nat,
    l: Seq<fs::Listed>,
    i: int,
) -> (FS, Result<Seq<Seq<char>>, fs::IoView>)
    decreases usize::MAX - depth, 0int, l.len() - i,
{
    if i < 0 || i >= l.len() {
        (s, Ok(found))
    } else {
        let name = l[i].name;
        let full = paths::child(path, name);
        if name == "."@ || name == ".."@ {
            gathered_entries(s, base, path, found, depth, l, i + 1)
        } else if l[i].entry.file_type == FileType::Directory {
            if depth >= usize::MAX {
                gathered_entries(s, base, path, found, depth, l, i + 1)
            } else {
                match gathered(s, base, full, found, depth + 1) {
                    (t, Err(e)) => (t, Err(e)),
                    (t, Ok(more)) => gathered_entries(t, base, path, more, depth, l, i + 1),
                }
            }
        } else if is_markdown(name) {
            gathered_entries(s, base, path, found.push(relative(base, full)), depth, l, i + 1)
        } else {
            gathered_entries(s, base, path, found, depth, l, i + 1)
        }
    }
}

pub open spec fn gathered_result(r: Result<(), FsError>, found: Seq<Seq<char>>) -> Result<
    Seq<Seq<char>>,
    fs::IoView,
> {
    match r {
        Ok(_) => Ok(found),
        Err(e) => Err(e@),
    }
}

/// Collects the markdown files below a directory.
pub fn find_markdown_recursive<FS: Filesystem>(
    fs: &mut FS,
    base: &str,
    path: &str,
    results: &mut Vec<String>,
    depth: usize,
) -> (r: Result<(), FsError>)
    ensures
        (*final(fs), gathered_result(r, final(results).deep_view())) == gathered(
            *old(fs),
            base@,
            path@,
            old(results).deep_view(),
            depth as nat,
        ),
    decreases usize::MAX - depth,
{
    let entries = match fs.read_dir(path) {
        Ok(l) => l,
        Err(e) => {
            return Err(e);
        },
    };
    let ghost l = crate::fs::listing(entries@);
    let mut i: usize = 0;
    while i < entries.len()
        invariant
            i <= entries@.len(),
            l == crate::fs::listing(entries@),
            gathered_entries(
                *fs,
                base@,
                path@,
                results.deep_view(),
                depth as nat,
                l,
                i as int,
            ) == gathered(*old(fs), base@, path@, old(results).deep_view(), depth as nat),
        decreases entries.len() - i,
    {
        let name = entries[i].0.as_str();
        let ghost found = results.deep_view();
        assert(l[i as int].name == name@);
        if !(text::same(name, ".") || text::same(name, "..")) {
            let full = paths::child_path(path, name);
            if entries[i].1.file_type == FileType::Directory {
                if depth < usize::MAX {
                    match find_markdown_recursive(fs, base, full.as_str(), results, depth + 1) {
                        Ok(_) => {},
                        Err(e) => {
                            return Err(e);
                        },
                    }
                }
            } else if text::has_suffix(name, ".md") || text::has_suffix(name, ".MD") {
                let p = relative_path(base, full.as_str());
                results.push(p);
                assert(results.deep_view() =~= found.push(p@));
            }
        }
        i += 1;
    }
    Ok(())
}

/// Whether a text may stand before another.
pub open spec fn text_le() -> spec_fn(Seq<char>, Seq<char>) -> bool {
    |a: Seq<char>, b: Seq<char>| order::text_order(a, b) != Order::Greater
}

/// The markdown files below a directory in order.
pub open spec fn listed<FS: Filesystem>(s: FS, cwd: Seq<char>) -> (
    FS,
    Result<Seq<Seq<char>>, fs::IoView>,
) {
    match gathered(s, cwd, cwd, Seq::empty(), 0) {
        (t, Ok(files)) => (t, Ok(order::sorted(files, text_le()))),
        (t, Err(e)) => (t, Err(e)),
    }
}

fn sort_texts(l: Vec<String>) -> (r: Vec<String>)
    ensures
        r.deep_view() == order::sorted(l.deep_view(), text_le()),
{
    let mut out: Vec<String> = Vec::new();
    let mut i: usize = 0;
    let ghost all = l.deep_view();
    assert(out.deep_view() =~= order::sorted(all.take(0), text_le()));
    while i < l.len()
        invariant
            i <= l@.len(),
            all == l.deep_view(),
            out.deep_view() == order::sorted(all.take(i as int), text_le()),
        decreases l.len() - i,
    {
        let x = l[i].clone();
        let ghost shown = out.deep_view();
        let mut k: usize = out.len();
        while k > 0 && order::compare_texts(out[k - 1].as_str(), x.as_str()) == Order::Greater
            invariant
                k <= out@.len(),
                shown == out.deep_view(),
                forall|j: int| k <= j < out@.len() ==> !text_le()(#[trigger] shown[j], x@),
            decreases k,
        {
            assert(!text_le()(shown[k - 1], x@));
            k -= 1;
        }
        proof {
            if k > 0 {
                assert(text_le()(shown[k - 1], x@));
            }
            order::lemma_placed_at(shown, x@, text_le(), k as int);
            let t = all.take(i + 1);
            assert(t.drop_last() =~= all.take(i as int));
            assert(t.last() == x@);
        }
        out.insert(k, x);
        assert(out.deep_view() =~= shown.insert(k as int, x@));
        i += 1;
    }
    assert(all.take(i as int) =~= all);
    out
}

pub open spec fn list_result(r: Result<Vec<String>, FsError>) -> Result<
    Seq<Seq<char>>,
    fs::IoView,
> {
    match r {
        Ok(v) => Ok(v.deep_view()),
        Err(e) => Err(e@),
    }
}

/// Lists the markdown files below a directory in order.
pub fn list_markdown_files<FS: Filesystem>(fs: &mut FS, cwd: &str) -> (r: Result<
    Vec<String>,
    FsError,
>)
    ensures
        (*final(fs), list_result(r)) == listed(*old(fs), cwd@),
{
    let mut files: Vec<String> = Vec::new();
    assert(files.deep_view() =~= Seq::<Seq<char>>::empty());
    match find_markdown_recursive(fs, cwd, cwd, &mut files, 0) {
        Ok(_) => Ok(sort_texts(files)),
        Err(e) => Err(e),
    }
}

// ---------------------------------------------------------------------------------------------
// What expressions do with files
// ---------------------------------------------------------------------------------------------

/// A function that expressions can call.
#[derive(Debug, Clone, Copy, PartialEq, Eq, Structural)]
pub enum FileFunction {
    /// Reads a document.
    Load,
    /// Writes a document.
    Save,
    /// Lists the markdown files.
    ListFiles,
    /// Reads a text.
    ReadFile,
    /// Writes a text.
    WriteFile,
    /// Tells whether a file is there.
    FileExists,
}

/// The name of a function in expressions.
pub open spec fn spec_name(f: FileFunction) -> Seq<char> {
    match f {
        FileFunction::Load => "load"@,
        FileFunction::Save => "save"@,
        FileFunction::ListFiles => "list-files"@,
        FileFunction::ReadFile => "read-file"@,
        FileFunction::WriteFile => "write-file"@,
        FileFunction::FileExists => "file-exists?"@,
    }
}

/// The name of a function in expressions.
pub fn function_name(f: FileFunction) -> (r: String)
    ensures
        r@ == spec_name(f),
{
    match f {
        FileFunction::Load => "load".to_owned(),
        FileFunction::Save => "save".to_owned(),
        FileFunction::ListFiles => "list-files".to_owned(),
        FileFunction::ReadFile => "read-file".to_owned(),
        FileFunction::WriteFile => "write-file".to_owned(),
        FileFunction::FileExists => "file-exists?".to_owned(),
    }
}

/// Why a function failed.
#[derive(Debug)]
pub struct Failure {
    /// The function.
    pub function: FileFunction,
    /// The kind of the failure.
    pub code: String,
    /// The words for users.
    pub message: String,
}

/// The mathematical counterpart of `Failure`.
pub ghost struct FailureView {
    pub function: FileFunction,
    pub code: Seq<char>,
    pub message: Seq<char>,
}

impl View for Failure {
    type V = FailureView;

    open spec fn view(&self) -> FailureView {
        FailureView { function: self.function, code: self.code@, message: self.message@ }
    }
}

/// The value of a call.
#[derive(Debug)]
pub enum Value {
    /// A markdown text, which is a document.
    Markdown(String),
    /// An atom.
    Atom(String),
    /// A list of atoms.
    List(Vec<String>),
}

/// The mathematical counterpart of `Value`.
pub ghost enum ValueView {
    Markdown(Seq<char>),
    Atom(Seq<char>),
    List(Seq<Seq<char>>),
}

impl View for Value {
    type V = ValueView;

    open spec fn view(&self) -> ValueView {
        match self {
            Value::Markdown(s) => ValueView::Markdown(s@),
            Value::Atom(s) => ValueView::Atom(s@),
            Value::List(l) => ValueView::List(l.deep_view()),
        }
    }
}

/// A text in quotes.
pub open spec fn quoted(s: Seq<char>) -> Seq<char> {
    "\""@ + s + "\""@
}

fn quote(s: &str) -> (r: String)
    ensures
        r@ == quoted(s@),
{
    let mut q = "\"".to_owned();
    q.append(s);
    q.append("\"");
    q
}

/// The text that an atom stands for: what stands between its quotes, where it has them.
pub open spec fn unquoted(s: Seq<char>) -> Seq<char> {
    if s.len() >= 2 && s[0] == '"' && s.last() == '"' {
        s.subrange(1, s.len() - 1)
    } else {
        s
    }
}

/// Extracts a string from an atom, handling both quoted strings and bare ones.
pub fn extract_string(atom: &str) -> (r: String)
    ensures
        r@ == unquoted(atom@),
{
    let v = text::chars(atom);
    if v.len() >= 2 && v[0] == '"' && v[v.len() - 1] == '"' {
        text::slice(&v, 1, v.len() - 1)
    } else {
        atom.to_owned()
    }
}

/// How a character is written inside quotes.
pub open spec fn escape(c: char) -> Seq<char> {
    if c == '\\' {
        seq!['\\', '\\']
    } else if c == '"' {
        seq!['\\', '"']
    } else if c == '\n' {
        seq!['\\', 'n']
    } else if c == '\r' {
        seq!['\\', 'r']
    } else if c == '\t' {
        seq!['\\', 't']
    } else {
        seq![c]
    }
}

/// How a text is written inside quotes.
pub open spec fn escaped(s: Seq<char>) -> Seq<char>
    decreases s.len(),
{
    if s.len() == 0 {
        Seq::empty()
    } else {
        escaped(s.drop_last()) + escape(s.last())
    }
}

/// Writes a text as it stands inside quotes.
pub fn escape_text(s: &str) -> (r: String)
    ensures
        r@ == escaped(s@),
{
    let v = text::chars(s);
    let mut out = String::new();
    let mut i: usize = 0;
    assert(out@ =~= escaped(s@.take(0)));
    while i < v.len()
        invariant
            i <= v@.len(),
            v@ == s@,
            out@ == escaped(s@.take(i as int)),
        decreases v.len() - i,
    {
        let ghost before = out@;
        let c = v[i];
        assert(s@.take(i + 1).drop_last() =~= s@.take(i as int));
        if c == '\\' || c == '"' || c == '\n' || c == '\r' || c == '\t' {
            out.push('\\');
        }
        if c == '\n' {
            out.push('n');
        } else if c == '\r' {
            out.push('r');
        } else if c == '\t' {
            out.push('t');
        } else {
            out.push(c);
        }
        assert(out@ =~= before + escape(c));
        i += 1;
    }
    assert(s@.take(i as int) =~= s@);
    out
}

/// How many arguments a function takes at least.
pub open spec fn arity(f: FileFunction) -> nat {
    match f {
        FileFunction::Load => 1,
        FileFunction::Save => 2,
        FileFunction::ListFiles => 0,
        FileFunction::ReadFile => 1,
        FileFunction::WriteFile => 2,
        FileFunction::FileExists => 1,
    }
}

/// The words for a call with too few arguments.
pub open spec fn arguments_wanted(f: FileFunction) -> Seq<char> {
    match f {
        FileFunction::Load => "load requires a filename argument"@,
        FileFunction::Save => "save requires filename and document arguments"@,
        FileFunction::ListFiles => ""@,
        FileFunction::ReadFile => "read-file requires a filename argument"@,
        FileFunction::WriteFile => "write-file requires filename and content arguments"@,
        FileFunction::FileExists => "file-exists? requires a filename argument"@,
    }
}

/// A failure of the filesystem.
pub open spec fn io_failure(f: FileFunction, message: Seq<char>) -> FailureView {
    FailureView { function: f, code: "io-error"@, message }
}

/// A call that cannot be made for want of arguments.
pub open spec fn missing_argument(f: FileFunction) -> FailureView {
    FailureView { function: f, code: "missing-argument"@, message: arguments_wanted(f) }
}

fn make_io_failure(function: FileFunction, message: String) -> (r: Failure)
    ensures
        r@ == io_failure(function, message@),
{
    Failure { function, code: "io-error".to_owned(), message }
}

fn make_missing_argument(function: FileFunction) -> (r: Failure)
    ensures
        r@ == missing_argument(function),
{
    let message = match function {
        FileFunction::Load => "load requires a filename argument".to_owned(),
        FileFunction::Save => "save requires filename and document arguments".to_owned(),
        FileFunction::ListFiles => "".to_owned(),
        FileFunction::ReadFile => "read-file requires a filename argument".to_owned(),
        FileFunction::WriteFile => "write-file requires filename and content arguments".to_owned(),
        FileFunction::FileExists => "file-exists? requires a filename argument".to_owned(),
    };
    Failure { function, code: "missing-argument".to_owned(), message }
}

/// The words for a file that could not be read or written.
pub open spec fn file_trouble(what: Seq<char>, file: Seq<char>, e: fs::IoView) -> Seq<char> {
    what + file + ": "@ + fs::described(e)
}

fn file_trouble_text(what: &str, file: &str, e: &FsError) -> (r: String)
    ensures
        r@ == file_trouble(what@, file@, e@),
{
    let mut m = what.to_owned();
    m.append(file);
    m.append(": ");
    let words = fs::fs_error_details(e);
    m.append(words.as_str());
    m
}

/// What reading a file for a function comes to.
pub open spec fn read_for<FS: Filesystem>(
    s: FS,
    f: FileFunction,
    cwd: Seq<char>,
    file: Seq<char>,
) -> (FS, Result<Seq<char>, FailureView>) {
    let path = paths::resolved(cwd, file);
    (
        s.after(fs::Request::Read(path)),
        match s.reads(path) {
            Ok(content) => Ok(content),
            Err(e) => Err(io_failure(f, file_trouble("Failed to read "@, file, e))),
        },
    )
}

/// What writing a file for a function comes to.
pub open spec fn write_for<FS: Filesystem>(
    s: FS,
    f: FileFunction,
    cwd: Seq<char>,
    file: Seq<char>,
    content: Seq<char>,
) -> (FS, Result<ValueView, FailureView>) {
    let path = paths::resolved(cwd, file);
    (
        s.after(fs::Request::Write(path, content)),
        match s.writes(path, content) {
            Ok(_) => Ok(ValueView::Atom("t"@)),
            Err(e) => Err(io_failure(f, file_trouble("Failed to write "@, file, e))),
        },
    )
}

/// What a call comes to. The arguments are texts without quotes; the document that `save` is given
/// is its markdown text.
pub open spec fn called<FS: Filesystem>(
    s: FS,
    f: FileFunction,
    args: Seq<Seq<char>>,
    cwd: Seq<char>,
) -> (FS, Result<ValueView, FailureView>) {
    if args.len() < arity(f) {
        (s, Err(missing_argument(f)))
    } else {
        match f {
            FileFunction::Load => match read_for(s, f, cwd, args[0]) {
                (t, Ok(content)) => (t, Ok(ValueView::Markdown(content))),
                (t, Err(e)) => (t, Err(e)),
            },
            FileFunction::ReadFile => match read_for(s, f, cwd, args[0]) {
                (t, Ok(content)) => (t, Ok(ValueView::Atom(quoted(escaped(content))))),
                (t, Err(e)) => (t, Err(e)),
            },
            FileFunction::Save => write_for(s, f, cwd, args[0], args[1]),
            FileFunction::WriteFile => write_for(s, f, cwd, args[0], args[1]),
            FileFunction::FileExists => {
                let path = paths::resolved(cwd, args[0]);
                (
                    s.after(fs::Request::Exists(path)),
                    Ok(
                        ValueView::Atom(
                            if s.has(path) {
                                "t"@
                            } else {
                                "nil"@
                            },
                        ),
                    ),
                )
            },
            FileFunction::ListFiles => match gathered(s, cwd, cwd, Seq::empty(), 0) {
                (t, Ok(files)) => (
                    t,
                    Ok(ValueView::List(Seq::new(files.len(), |i: int| quoted(files[i])))),
                ),
                (t, Err(e)) => (t, Err(io_failure(f, fs::described(e)))),
            },
        }
    }
}

pub open spec fn value_result(r: Result<Value, Failure>) -> Result<ValueView, FailureView> {
    match r {
        Ok(v) => Ok(v@),
        Err(e) => Err(e@),
    }
}

fn read_file<FS: Filesystem>(fs: &mut FS, f: FileFunction, cwd: &str, file: &str) -> (r: Result<
    String,
    Failure,
>)
    ensures
        *final(fs) == read_for(*old(fs), f, cwd@, file@).0,
        match r {
            Ok(content) => read_for(*old(fs), f, cwd@, file@).1 == Ok::<Seq<char>, FailureView>(
                content@,
            ),
            Err(e) => read_for(*old(fs), f, cwd@, file@).1 == Err::<Seq<char>, FailureView>(e@),
        },
{
    let path = paths::resolve_path(cwd, file);
    match fs.read_to_string(path.as_str()) {
        Ok(content) => Ok(content),
        Err(e) => {
            let m = file_trouble_text("Failed to read ", file, &e);
            Err(make_io_failure(f, m))
        },
    }
}

fn write_file<FS: Filesystem>(
    fs: &mut FS,
    f: FileFunction,
    cwd: &str,
    file: &str,
    content: &str,
) -> (r: Result<Value, Failure>)
    ensures
        (*final(fs), value_result(r)) == write_for(*old(fs), f, cwd@, file@, content@),
{
    let path = paths::resolve_path(cwd, file);
    match fs.write_string(path.as_str(), content) {
        Ok(_) => Ok(Value::Atom("t".to_owned())),
        Err(e) => {
            let m = file_trouble_text("Failed to write ", file, &e);
            Err(make_io_failure(f, m))
        },
    }
}

fn list_files<FS: Filesystem>(fs: &mut FS, cwd: &str) -> (r: Result<Value, Failure>)
    ensures
        (*final(fs), value_result(r)) == called(
            *old(fs),
            FileFunction::ListFiles,
            Seq::empty(),
            cwd@,
        ),
{
    let mut files: Vec<String> = Vec::new();
    assert(files.deep_view() =~= Seq::<Seq<char>>::empty());
    match find_markdown_recursive(fs, cwd, cwd, &mut files, 0) {
        Err(e) => {
            let m = crate::fs::fs_error_details(&e);
            Err(make_io_failure(FileFunction::ListFiles, m))
        },
        Ok(_) => {
            let ghost shown = files.deep_view();
            let mut out: Vec<String> = Vec::new();
            let mut i: usize = 0;
            while i < files.len()
                invariant
                    i <= files@.len(),
                    shown == files.deep_view(),
                    out@.len() == i,
                    forall|j: int| 0 <= j < i ==> (#[trigger] out.deep_view()[j]) == quoted(shown[j]),
                decreases files.len() - i,
            {
                let ghost before = out.deep_view();
                let q = quote(files[i].as_str());
                out.push(q);
                assert(out.deep_view() =~= before.push(q@));
                i += 1;
            }
            assert(out.deep_view() =~= Seq::new(shown.len(), |i: int| quoted(shown[i])));
            Ok(Value::List(out))
        },
    }
}

/// Calls a function. The arguments are texts without quotes; the document that `save` is given is
/// its markdown text.
pub fn call<FS: Filesystem>(fs: &mut FS, f: FileFunction, args: &Vec<String>, cwd: &str) -> (r:
    Result<Value, Failure>)
    ensures
        (*final(fs), value_result(r)) == called(*old(fs), f, args.deep_view(), cwd@),
{
    let wanted: usize = match f {
        FileFunction::Load => 1,
        FileFunction::Save => 2,
        FileFunction::ListFiles => 0,
        FileFunction::ReadFile => 1,
        FileFunction::WriteFile => 2,
        FileFunction::FileExists => 1,
    };
    if args.len() < wanted {
        return Err(make_missing_argument(f));
    }
    match f {
        FileFunction::Load => match read_file(fs, f, cwd, args[0].as_str()) {
            Ok(content) => Ok(Value::Markdown(content)),
            Err(e) => Err(e),
        },
        FileFunction::ReadFile => match read_file(fs, f, cwd, args[0].as_str()) {
            Ok(content) => {
                let s = escape_text(content.as_str());
                Ok(Value::Atom(quote(s.as_str())))
            },
            Err(e) => Err(e),
        },
        FileFunction::Save => write_file(fs, f, cwd, args[0].as_str(), args[1].as_str()),
        FileFunction::WriteFile => write_file(fs, f, cwd, args[0].as_str(), args[1].as_str()),
        FileFunction::FileExists => {
            let path = paths::resolve_path(cwd, args[0].as_str());
            if fs.path_exists(path.as_str()) {
                Ok(Value::Atom("t".to_owned()))
            } else {
                Ok(Value::Atom("nil".to_owned()))
            }
        },
        FileFunction::ListFiles => list_files(fs, cwd),
    }
}

// ---------------------------------------------------------------------------------------------
// The dialogue
// ---------------------------------------------------------------------------------------------

/// What is to be done next.
#[derive(Debug)]
pub enum Action {
    /// The command has ended with this exit code.
    Finish(i32),
    /// Evaluate an expression, and reply with its value.
    Evaluate(String),
    /// Turn a markdown text into an expression, and reply with it.
    Show(String),
    /// Turn a markdown text into an expression with path IDs, and reply with it.
    Annotate(String),
    /// Put into words that listing files failed for this reason, and reply with the words.
    Describe(String),
}

/// The mathematical counterpart of `Action`.
pub ghost enum ActionView {
    Finish(int),
    Evaluate(Seq<char>),
    Show(Seq<char>),
    Annotate(Seq<char>),
    Describe(Seq<char>),
}

impl View for Action {
    type V = ActionView;

    open spec fn view(&self) -> ActionView {
        match self {
            Action::Finish(code) => ActionView::Finish(*code as int),
            Action::Evaluate(s) => ActionView::Evaluate(s@),
            Action::Show(s) => ActionView::Show(s@),
            Action::Annotate(s) => ActionView::Annotate(s@),
            Action::Describe(s) => ActionView::Describe(s@),
        }
    }
}

/// What a reply is for.
#[derive(Debug, Clone, Copy, PartialEq, Eq, Structural)]
pub enum Pending {
    /// The one expression that the command was called with.
    Once,
    /// An expression that was typed in.
    Expression,
    /// A document that was asked for.
    Document,
    /// The words for a listing that failed.
    Listing,
}

/// A running command.
#[derive(Debug)]
pub struct Session {
    /// The directory that files are looked for in.
    pub working_dir: String,
    /// What the next reply is for.
    pub pending: Pending,
}

/// What a line that begins with a colon leads to.
pub ghost enum Handled {
    /// The next line.
    Next,
    /// The end.
    Quit,
    /// A request.
    Ask(ActionView),
}

/// What a line that begins with a colon leads to.
pub enum Step {
    Next,
    Quit,
    Ask(Action),
}

impl View for Step {
    type V = Handled;

    open spec fn view(&self) -> Handled {
        match self {
            Step::Next => Handled::Next,
            Step::Quit => Handled::Quit,
            Step::Ask(a) => Handled::Ask(a@),
        }
    }
}

/// What writing each name from `i` on comes to.
pub open spec fn names_written<FS>(v: env::EnvView<FS>, names: Seq<Seq<char>>, i: int) -> env::EnvView<
    FS,
>
    decreases names.len() - i,
{
    if i < 0 || i >= names.len() {
        v
    } else {
        names_written(v.write_line("  "@ + names[i]), names, i + 1)
    }
}

/// What `:ls` does.
pub open spec fn files_shown<FS: Filesystem>(v: env::EnvView<FS>, dir: Seq<char>) -> (
    env::EnvView<FS>,
    Handled,
) {
    let (s, r) = gathered(v.fs, dir, dir, Seq::empty(), 0);
    let w = v.with_fs(s);
    match r {
        Err(e) => (w, Handled::Ask(ActionView::Describe(fs::described(e)))),
        Ok(files) => if files.len() == 0 {
            (w.write_line("No markdown files in directory"@), Handled::Next)
        } else {
            (names_written(w, files, 0), Handled::Next)
        },
    }
}

/// What a document that is asked for is shown as.
#[derive(Debug, Clone, Copy, PartialEq, Eq, Structural)]
pub enum Form {
    Expression,
    Markdown,
    Annotated,
}

/// What asking for a document does: an expression of it is asked for, or its text is written.
pub open spec fn document_shown<FS: Filesystem>(
    v: env::EnvView<FS>,
    dir: Seq<char>,
    parts: Seq<Seq<char>>,
    usage: Seq<char>,
    ask: Option<spec_fn(Seq<char>) -> ActionView>,
) -> (env::EnvView<FS>, Handled) {
    if parts.len() < 2 {
        (v.error_line(usage), Handled::Next)
    } else {
        let path = paths::resolved(dir, parts[1]);
        let w = v.asked(fs::Request::Read(path));
        match v.fs.reads(path) {
            Err(e) => (
                w.error_line(file_trouble("Failed to read "@, parts[1], e)),
                Handled::Next,
            ),
            Ok(content) => match ask {
                Some(a) => (w, Handled::Ask(a(content))),
                None => (w.write_line(content), Handled::Next),
            },
        }
    }
}

/// What a line that begins with a colon does.
pub open spec fn handled<FS: Filesystem>(
    v: env::EnvView<FS>,
    dir: Seq<char>,
    input: Seq<char>,
) -> (env::EnvView<FS>, Handled) {
    let parts = text::words(input);
    if parts.len() == 0 {
        (v, Handled::Next)
    } else if parts[0] == ":quit"@ || parts[0] == ":q"@ || parts[0] == ":exit"@ {
        (v, Handled::Quit)
    } else if parts[0] == ":help"@ || parts[0] == ":h"@ || parts[0] == ":?"@ {
        (v.error_line(USAGE@), Handled::Next)
    } else if parts[0] == ":ls"@ || parts[0] == ":list"@ {
        files_shown(v, dir)
    } else if parts[0] == ":show"@ {
        document_shown(
            v,
            dir,
            parts,
            "Usage: :show <filename>"@,
            Some(|s: Seq<char>| ActionView::Show(s)),
        )
    } else if parts[0] == ":md"@ {
        document_shown(v, dir, parts, "Usage: :md <filename>"@, None)
    } else if parts[0] == ":annotate"@ || parts[0] == ":ann"@ {
        document_shown(
            v,
            dir,
            parts,
            "Usage: :annotate <filename>"@,
            Some(|s: Seq<char>| ActionView::Annotate(s)),
        )
    } else if parts[0] == ":pwd"@ {
        (v.write_line(dir), Handled::Next)
    } else {
        (
            v.error_line(
                "Unknown command: "@ + parts[0] + ". Type :help for commands."@,
            ),
            Handled::Next,
        )
    }
}

fn show_files<FS: Filesystem>(env: &mut Environment<FS>, dir: &str) -> (r: Step)
    ensures
        (final(env)@, r@) == files_shown(old(env)@, dir@),
{
    let mut files: Vec<String> = Vec::new();
    assert(files.deep_view() =~= Seq::<Seq<char>>::empty());
    match find_markdown_recursive(&mut env.fs, dir, dir, &mut files, 0) {
        Err(e) => Step::Ask(Action::Describe(fs::fs_error_details(&e))),
        Ok(_) => {
            if files.len() == 0 {
                env.write_line("No markdown files in directory");
            } else {
                let ghost shown = files.deep_view();
                let ghost start = env@;
                let mut i: usize = 0;
                while i < files.len()
                    invariant
                        i <= files@.len(),
                        shown == files.deep_view(),
                        names_written(env@, shown, i as int) == names_written(start, shown, 0),
                    decreases files.len() - i,
                {
                    let mut m = "  ".to_owned();
                    m.append(files[i].as_str());
                    env.write_line(m.as_str());
                    i += 1;
                }
            }
            Step::Next
        },
    }
}

fn show_document<FS: Filesystem>(
    env: &mut Environment<FS>,
    dir: &str,
    parts: &Vec<String>,
    usage: &str,
    form: Form,
) -> (r: Step)
    ensures
        (final(env)@, r@) == document_shown(
            old(env)@,
            dir@,
            parts.deep_view(),
            usage@,
            match form {
                Form::Expression => Some(|s: Seq<char>| ActionView::Show(s)),
                Form::Markdown => None,
                Form::Annotated => Some(|s: Seq<char>| ActionView::Annotate(s)),
            },
        ),
{
    if parts.len() < 2 {
        env.error_line(usage);
        return Step::Next;
    }
    let path = paths::resolve_path(dir, parts[1].as_str());
    match env.fs.read_to_string(path.as_str()) {
        Err(e) => {
            let m = file_trouble_text("Failed to read ", parts[1].as_str(), &e);
            env.error_line(m.as_str());
            Step::Next
        },
        Ok(content) => match form {
            Form::Expression => Step::Ask(Action::Show(content)),
            Form::Markdown => {
                env.write_line(content.as_str());
                Step::Next
            },
            Form::Annotated => Step::Ask(Action::Annotate(content)),
        },
    }
}

/// Handles a REPL command (lines starting with ':').
pub fn handle_command<FS: Filesystem>(env: &mut Environment<FS>, dir: &str, input: &str) -> (r: Step)
    ensures
        (final(env)@, r@) == handled(old(env)@, dir@, input@),
{
    let parts = text::split_white(input);
    if parts.len() == 0 {
        return Step::Next;
    }
    let word = parts[0].as_str();
    if text::same(word, ":quit") || text::same(word, ":q") || text::same(word, ":exit") {
        Step::Quit
    } else if text::same(word, ":help") || text::same(word, ":h") || text::same(word, ":?") {
        env.error_line(USAGE);
        Step::Next
    } else if text::same(word, ":ls") || text::same(word, ":list") {
        show_files(env, dir)
    } else if text::same(word, ":show") {
        show_document(env, dir, &parts, "Usage: :show <filename>", Form::Expression)
    } else if text::same(word, ":md") {
        show_document(env, dir, &parts, "Usage: :md <filename>", Form::Markdown)
    } else if text::same(word, ":annotate") || text::same(word, ":ann") {
        show_document(env, dir, &parts, "Usage: :annotate <filename>", Form::Annotated)
    } else if text::same(word, ":pwd") {
        env.write_line(dir);
        Step::Next
    } else {
        let mut m = "Unknown command: ".to_owned();
        m.append(word);
        m.append(". Type :help for commands.");
        env.error_line(m.as_str());
        Step::Next
    }
}

/// With the first line read.
pub open spec fn read_one<FS>(v: env::EnvView<FS>) -> env::EnvView<FS> {
    env::EnvView { stdin: v.stdin.skip(1), ..v }
}

/// What the reply to a request is for.
pub open spec fn purpose(a: ActionView) -> Pending {
    if a is Describe {
        Pending::Listing
    } else {
        Pending::Document
    }
}

/// What the lines that are typed in lead to: the end, or the next request, and what its reply is
/// for.
pub open spec fn prompted<FS: Filesystem>(v: env::EnvView<FS>, dir: Seq<char>) -> (
    env::EnvView<FS>,
    ActionView,
    Pending,
)
    decreases v.stdin.len(),
{
    let w = v.write("λ> "@);
    if v.stdin.len() == 0 {
        (w, ActionView::Finish(0), Pending::Expression)
    } else {
        let input = text::trim(v.stdin[0]);
        let x = read_one(w);
        if input.len() == 0 {
            prompted(x, dir)
        } else if input[0] == ':' {
            let (y, h) = handled(x, dir, input);
            match h {
                Handled::Quit => (y, ActionView::Finish(0), Pending::Expression),
                Handled::Ask(a) => (y, a, purpose(a)),
                Handled::Next => prompted(env::EnvView { stdin: x.stdin, ..y }, dir),
            }
        } else {
            (x, ActionView::Evaluate(input), Pending::Expression)
        }
    }
}

proof fn lemma_names_written<FS>(v: env::EnvView<FS>, names: Seq<Seq<char>>, i: int)
    ensures
        names_written(v, names, i).stdin == v.stdin,
    decreases names.len() - i,
{
    if 0 <= i < names.len() {
        lemma_names_written(v.write_line("  "@ + names[i]), names, i + 1);
    }
}

/// A command that begins with a colon reads no further line.
pub proof fn lemma_handled_reads_nothing<FS: Filesystem>(
    v: env::EnvView<FS>,
    dir: Seq<char>,
    input: Seq<char>,
)
    ensures
        handled(v, dir, input).0.stdin == v.stdin,
{
    let (s, r) = gathered(v.fs, dir, dir, Seq::empty(), 0);
    if let Ok(files) = r {
        lemma_names_written(v.with_fs(s), files, 0);
    }
}

/// Reads lines up to one that ends the command or asks for something.
pub fn prompt<FS: Filesystem>(env: &mut Environment<FS>, session: &mut Session) -> (r: Action)
    ensures
        (final(env)@, r@, final(session).pending) == prompted(old(env)@, old(session).working_dir@),
        final(session).working_dir@ == old(session).working_dir@,
{
    loop
        invariant
            session.working_dir@ == old(session).working_dir@,
            prompted(env@, session.working_dir@) == prompted(
                old(env)@,
                old(session).working_dir@,
            ),
        decreases env@.stdin.len(),
    {
        env.write_str("λ> ");
        let line = match env.stdin.read_line() {
            Some(line) => line,
            None => {
                session.pending = Pending::Expression;
                return Action::Finish(0);
            },
        };
        let input = text::trimmed(line.as_str());
        let v = text::chars(input.as_str());
        if v.len() > 0 {
            if v[0] == ':' {
                proof {
                    lemma_handled_reads_nothing(env@, session.working_dir@, input@);
                }
                match handle_command(env, session.working_dir.as_str(), input.as_str()) {
                    Step::Quit => {
                        session.pending = Pending::Expression;
                        return Action::Finish(0);
                    },
                    Step::Ask(a) => {
                        session.pending = match &a {
                            Action::Describe(_) => Pending::Listing,
                            _ => Pending::Document,
                        };
                        return a;
                    },
                    Step::Next => {},
                }
            } else {
                session.pending = Pending::Expression;
                return Action::Evaluate(input);
            }
        }
    }
}

/// What the command does first: the directory that it works in, what it asks for, and what the
/// reply is for.
pub open spec fn begun<FS: Filesystem>(v: env::EnvView<FS>, p: options::ParsedView) -> (
    env::EnvView<FS>,
    Seq<char>,
    ActionView,
    Pending,
) {
    let dir = match p.value('d') {
        Some(d) => paths::resolved(v.cwd, d),
        None => v.cwd,
    };
    if p.present('h') {
        (v.error_line(USAGE@), v.cwd, ActionView::Finish(0), Pending::Once)
    } else {
        match p.value('e') {
            Some(expr) => (v, dir, ActionView::Evaluate(expr), Pending::Once),
            None => {
                let (w, a, pending) = prompted(
                    v.write_line("markdownsp - Lisp REPL for Markdown"@).write_line(
                        "Working directory: "@ + dir,
                    ).write_line("Type :help for commands, :quit to exit"@).write_line(""@),
                    dir,
                );
                (w, dir, a, pending)
            },
        }
    }
}

/// What the command does first.
pub open spec fn started<FS: Filesystem>(v: env::EnvView<FS>) -> (
    env::EnvView<FS>,
    Seq<char>,
    ActionView,
    Pending,
) {
    match options::parsed(table(), v.args.skip(1)) {
        Ok(p) => begun(v, p),
        Err(message) => (
            v.error_line("markdownsp: "@ + message),
            v.cwd,
            ActionView::Finish(1),
            Pending::Once,
        ),
    }
}

/// Begins the command with these options.
pub fn begin<FS: Filesystem>(env: &mut Environment<FS>, p: &Parsed) -> (r: (Session, Action))
    ensures
        (final(env)@, r.0.working_dir@, r.1@, r.0.pending) == begun(old(env)@, p@),
{
    if p.present('h') {
        env.error_line(USAGE);
        let working_dir = env.cwd.clone();
        return (Session { working_dir, pending: Pending::Once }, Action::Finish(0));
    }
    let working_dir = match p.value('d') {
        Some(d) => paths::resolve_path(env.cwd.as_str(), d.as_str()),
        None => env.cwd.clone(),
    };
    if let Some(expr) = p.value('e') {
        return (Session { working_dir, pending: Pending::Once }, Action::Evaluate(expr));
    }
    env.write_line("markdownsp - Lisp REPL for Markdown");
    let mut m = "Working directory: ".to_owned();
    m.append(working_dir.as_str());
    env.write_line(m.as_str());
    env.write_line("Type :help for commands, :quit to exit");
    env.write_line("");
    let mut session = Session { working_dir, pending: Pending::Expression };
    let action = prompt(env, &mut session);
    (session, action)
}

/// Begins the command: what it works with, and what it asks for first.
pub fn start<FS: Filesystem>(env: &mut Environment<FS>) -> (r: (Session, Action))
    requires
        old(env)@.args.len() > 0,
    ensures
        (final(env)@, r.0.working_dir@, r.1@, r.0.pending) == started(old(env)@),
{
    let opts = build_options();
    match options::parse(&opts, &env.args) {
        Ok(p) => begin(env, &p),
        Err(e) => {
            let mut m = "markdownsp: ".to_owned();
            m.append(e.as_str());
            env.error_line(m.as_str());
            let working_dir = env.cwd.clone();
            (Session { working_dir, pending: Pending::Once }, Action::Finish(1))
        },
    }
}

pub open spec fn reply_text(r: Result<String, String>) -> Result<Seq<char>, Seq<char>> {
    match r {
        Ok(s) => Ok(s@),
        Err(m) => Err(m@),
    }
}

/// What a reply leads to.
pub open spec fn resumed<FS: Filesystem>(
    v: env::EnvView<FS>,
    dir: Seq<char>,
    pending: Pending,
    reply: Result<Seq<char>, Seq<char>>,
) -> (env::EnvView<FS>, ActionView, Pending) {
    let w = match reply {
        Ok(value) => if pending == Pending::Listing {
            v.error_line("Error: "@ + value)
        } else {
            v.write_line(value)
        },
        Err(m) => v.error_line(
            (match pending {
                Pending::Once => "markdownsp: "@,
                Pending::Expression => "Error: "@,
                Pending::Document => "Parse error: "@,
                Pending::Listing => "Error: "@,
            }) + m,
        ),
    };
    if pending == Pending::Once {
        (
            w,
            ActionView::Finish(
                if reply is Ok {
                    0
                } else {
                    1
                },
            ),
            pending,
        )
    } else {
        prompted(w, dir)
    }
}

/// Goes on with the reply to what was asked for last.
pub fn resume<FS: Filesystem>(
    env: &mut Environment<FS>,
    session: &mut Session,
    reply: Result<String, String>,
) -> (r: Action)
    ensures
        (final(env)@, r@, final(session).pending) == resumed(
            old(env)@,
            old(session).working_dir@,
            old(session).pending,
            reply_text(reply),
        ),
        final(session).working_dir@ == old(session).working_dir@,
{
    let code: i32 = match reply {
        Ok(value) => {
            if session.pending == Pending::Listing {
                let mut m = "Error: ".to_owned();
                m.append(value.as_str());
                env.error_line(m.as_str());
            } else {
                env.write_line(value.as_str());
            }
            0
        },
        Err(e) => {
            let mut m = match session.pending {
                Pending::Once => "markdownsp: ".to_owned(),
                Pending::Expression => "Error: ".to_owned(),
                Pending::Document => "Parse error: ".to_owned(),
                Pending::Listing => "Error: ".to_owned(),
            };
            m.append(e.as_str());
            env.error_line(m.as_str());
            1
        },
    };
    if session.pending == Pending::Once {
        return Action::Finish(code);
    }
    prompt(env, session)
}

// ---------------------------------------------------------------------------------------------
// The command from its beginning to its end
// ---------------------------------------------------------------------------------------------

/// The replies to requests, by the filesystem and the directory that files are looked for in, with
/// the filesystem as it is left.
pub type Answers<FS> = spec_fn(FS, Seq<char>, ActionView) -> (FS, Result<Seq<char>, Seq<char>>);

/// Someone who evaluates expressions.
///
/// What is replied, and what the filesystem holds after it, are functions of the request, of the
/// directory and of what the filesystem held before. An implementation may define the function; of
/// one that it does not define nothing is known but that it gives the replies.
pub trait Evaluator<FS>: Sized {
    /// What a request leaves of the filesystem, and what is replied.
    open spec fn answered(self, s: FS, dir: Seq<char>, a: ActionView) -> (
        FS,
        Result<Seq<char>, Seq<char>>,
    ) {
        arbitrary()
    }

    /// Replies to a request.
    fn answer(&self, fs: &mut FS, dir: &str, action: &Action) -> (r: Result<String, String>)
        ensures
            (*final(fs), reply_text(r)) == (*self).answered(*old(fs), dir@, action@),
    ;
}

/// The replies of an evaluator.
pub open spec fn answers<FS, E: Evaluator<FS>>(e: E) -> Answers<FS> {
    |s: FS, dir: Seq<char>, a: ActionView| e.answered(s, dir, a)
}

/// The evaluator of a shell that knows no expressions: it refuses them, and gives the reason of a
/// failed listing as it stands.
#[derive(Debug, Clone, Copy)]
pub struct NoEvaluator;

impl<FS> Evaluator<FS> for NoEvaluator {
    open spec fn answered(self, s: FS, dir: Seq<char>, a: ActionView) -> (
        FS,
        Result<Seq<char>, Seq<char>>,
    ) {
        (
            s,
            match a {
                ActionView::Describe(reason) => Ok(reason),
                _ => Err("expressions are not evaluated"@),
            },
        )
    }

    fn answer(&self, fs: &mut FS, dir: &str, action: &Action) -> (r: Result<String, String>) {
        match action {
            Action::Describe(reason) => Ok(reason.clone()),
            _ => Err("expressions are not evaluated".to_owned()),
        }
    }
}

proof fn lemma_prompted_reads<FS: Filesystem>(v: env::EnvView<FS>, dir: Seq<char>)
    ensures
        ({
            let (w, a, _) = prompted(v, dir);
            if v.stdin.len() == 0 {
                a is Finish && w.stdin == v.stdin
            } else {
                w.stdin.len() < v.stdin.len()
            }
        }),
    decreases v.stdin.len(),
{
    let x = read_one(v.write("λ> "@));
    if v.stdin.len() > 0 {
        let input = text::trim(v.stdin[0]);
        if input.len() == 0 {
            lemma_prompted_reads(x, dir);
        } else if input[0] == ':' {
            lemma_handled_reads_nothing(x, dir, input);
            let (y, h) = handled(x, dir, input);
            if h is Next {
                lemma_prompted_reads(env::EnvView { stdin: x.stdin, ..y }, dir);
            }
        }
    }
}

/// A reply leads to the end or to a line that was not read before.
pub proof fn lemma_resumed_reads<FS: Filesystem>(
    v: env::EnvView<FS>,
    dir: Seq<char>,
    pending: Pending,
    reply: Result<Seq<char>, Seq<char>>,
)
    ensures
        ({
            let (w, a, _) = resumed(v, dir, pending, reply);
            w.stdin.len() < v.stdin.len() || a is Finish && w.stdin == v.stdin
        }),
{
    match reply {
        Ok(value) => {
            lemma_prompted_reads(v.error_line("Error: "@ + value), dir);
            lemma_prompted_reads(v.write_line(value), dir);
        },
        Err(m) => {
            lemma_prompted_reads(v.error_line("Error: "@ + m), dir);
            lemma_prompted_reads(v.error_line("Parse error: "@ + m), dir);
        },
    }
}

/// What a request leads to, when it and all that follow are answered: the exit code.
pub open spec fn finished<FS: Filesystem>(
    v: env::EnvView<FS>,
    dir: Seq<char>,
    a: ActionView,
    pending: Pending,
    eval: Answers<FS>,
) -> (env::EnvView<FS>, int)
    decreases
            v.stdin.len(),
            if a is Finish {
                0int
            } else {
                1int
            },
{
    match a {
        ActionView::Finish(code) => (v, code),
        _ => {
            let (s, reply) = eval(v.fs, dir, a);
            let (w, b, next) = resumed(v.with_fs(s), dir, pending, reply);
            proof {
                lemma_resumed_reads(v.with_fs(s), dir, pending, reply);
            }
            finished(w, dir, b, next, eval)
        },
    }
}

/// What the command does.
pub open spec fn spec_bin<FS: Filesystem>(v: env::EnvView<FS>, eval: Answers<FS>) -> (
    env::EnvView<FS>,
    Result<int, env::ErrorView>,
) {
    let (w, dir, a, pending) = started(v);
    let (x, code) = finished(w, dir, a, pending, eval);
    (x, Ok(code))
}

/// The markdownsp builtin: a lisp REPL for markdown documents.
pub fn bin<FS: Filesystem, E: Evaluator<FS>>(env: &mut Environment<FS>, eval: &E) -> (r: Result<
    ExitCode,
    Error,
>)
    requires
        old(env)@.args.len() > 0,
    ensures
        (final(env)@, env::outcome(r)) == spec_bin(old(env)@, answers(*eval)),
{
    let (mut session, mut action) = start(env);
    let ghost f = answers(*eval);
    let ghost dir = session.working_dir@;
    loop
        invariant
            session.working_dir@ == dir,
            f == answers(*eval),
            finished(env@, dir, action@, session.pending, f) == (
                spec_bin(old(env)@, f).0,
                spec_bin(old(env)@, f).1->Ok_0,
            ),
        decreases
                env@.stdin.len(),
                if action is Finish {
                    0int
                } else {
                    1int
                },
    {
        if let Action::Finish(code) = action {
            return Ok(ExitCode::new(code));
        }
        let ghost before = env@;
        let reply = eval.answer(&mut env.fs, session.working_dir.as_str(), &action);
        assert((env@.fs, reply_text(reply)) == f(before.fs, dir, action@));
        assert(env@ == before.with_fs(env@.fs));
        proof {
            lemma_resumed_reads(env@, dir, session.pending, reply_text(reply));
        }
        action = resume(env, &mut session, reply);
    }
}

// ---------------------------------------------------------------------------------------------
// Laws
// ---------------------------------------------------------------------------------------------

/// The text of an atom in quotes is what stands between them.
pub proof fn lemma_quoted(s: Seq<char>)
    ensures
        unquoted(quoted(s)) == s,
{
    reveal_strlit("\"");
    assert(quoted(s).subrange(1, quoted(s).len() - 1) =~= s);
}

/// A text inside quotes holds no newline, no carriage return and no tab.
pub proof fn lemma_escaped(s: Seq<char>, i: int)
    requires
        0 <= i < escaped(s).len(),
    ensures
        escaped(s)[i] != '\n',
        escaped(s)[i] != '\r',
        escaped(s)[i] != '\t',
    decreases s.len(),
{
    if s.len() > 0 {
        let before = escaped(s.drop_last());
        if i < before.len() {
            lemma_escaped(s.drop_last(), i);
        } else {
            assert(escaped(s)[i] == escape(s.last())[i - before.len()]);
        }
    }
}

/// The markdown files of a directory are listed in order, and none is lost or added by that.
pub proof fn lemma_listed_in_order<FS: Filesystem>(s: FS, cwd: Seq<char>)
    ensures
        listed(s, cwd).1 matches Ok(files) ==> order::in_order(files, text_le())
            && files.to_multiset() == gathered(s, cwd, cwd, Seq::empty(), 0).1->Ok_0.to_multiset(),
{
    let le = text_le();
    assert forall|a: Seq<char>, b: Seq<char>| #[trigger] le(a, b) || le(b, a) by {
        order::lemma_text_order_reverse(a, b);
    }
    assert forall|a: Seq<char>, b: Seq<char>, c: Seq<char>| #[trigger]
        le(a, b) && #[trigger] le(b, c) implies le(a, c) by {
        order::lemma_text_order_transitive(a, b, c);
    }
    if let Ok(files) = gathered(s, cwd, cwd, Seq::empty(), 0).1 {
        order::lemma_sorted(files, le);
    }
}

/// Called with one expression, the command ends with the reply to it, whatever it is.
pub proof fn lemma_one_expression<FS: Filesystem>(
    v: env::EnvView<FS>,
    dir: Seq<char>,
    reply: Result<Seq<char>, Seq<char>>,
)
    ensures
        resumed(v, dir, Pending::Once, reply).1 == ActionView::Finish(
            if reply is Ok {
                0
            } else {
                1
            },
        ),
{
}

/// Called with one expression, the command asks for its value once, and prints it or what is wrong
/// with it.
pub proof fn lemma_expression_evaluated<FS: Filesystem>(
    v: env::EnvView<FS>,
    p: options::ParsedView,
    expr: Seq<char>,
    eval: Answers<FS>,
)
    requires
        options::parsed(table(), v.args.skip(1)) == Ok::<options::ParsedView, Seq<char>>(p),
        !p.present('h'),
        p.value('e') == Some(expr),
    ensures
        ({
            let dir = match p.value('d') {
                Some(d) => paths::resolved(v.cwd, d),
                None => v.cwd,
            };
            let (s, reply) = eval(v.fs, dir, ActionView::Evaluate(expr));
            spec_bin(v, eval) == match reply {
                Ok(value) => (
                    v.with_fs(s).write_line(value),
                    Ok::<int, env::ErrorView>(0),
                ),
                Err(m) => (
                    v.with_fs(s).error_line("markdownsp: "@ + m),
                    Ok::<int, env::ErrorView>(1),
                ),
            }
        }),
{
    let (w, dir, a, pending) = started(v);
    let (s, reply) = eval(w.fs, dir, a);
    let (x, b, next) = resumed(w.with_fs(s), dir, pending, reply);
    assert(finished(x, dir, b, next, eval) == (x, b->Finish_0));
}

/// Whether filesystems of a kind keep what is written: a file holds what was last written to it.
pub open spec fn keeps_written<FS: Filesystem>() -> bool {
    &&& forall|s: FS, p: Seq<char>, t: Seq<char>|
        s.writes(p, t) is Ok ==> (#[trigger] s.after(fs::Request::Write(p, t))).reads(p) == Ok::<
            Seq<char>,
            fs::IoView,
        >(t)
    &&& forall|s: FS, p: Seq<char>, q: Seq<char>, t: Seq<char>|
        p != q ==> #[trigger] s.after(fs::Request::Write(p, t)).reads(q) == s.reads(q)
}

/// What `write-file` or `save` wrote is what `read-file` and `load` give back. A name stands for the
/// file of that name in the working directory, and no other file changes.
pub proof fn lemma_written_is_read<FS: Filesystem>(
    s: FS,
    writer: FileFunction,
    dirs: Seq<Seq<char>>,
    names: Seq<Seq<char>>,
    content: Seq<char>,
    other: Seq<char>,
)
    requires
        keeps_written::<FS>(),
        writer == FileFunction::WriteFile || writer == FileFunction::Save,
        paths::plain(dirs),
        paths::plain(names),
        called(s, writer, seq![paths::slashed(names), content], paths::rooted(dirs)).1 is Ok,
        other != paths::rooted(dirs + names),
    ensures
        ({
            let cwd = paths::rooted(dirs);
            let name = paths::slashed(names);
            let t = called(s, writer, seq![name, content], cwd).0;
            &&& t.reads(paths::rooted(dirs + names)) == Ok::<Seq<char>, fs::IoView>(content)
            &&& t.reads(other) == s.reads(other)
            &&& called(t, FileFunction::Load, seq![name], cwd).1 == Ok::<ValueView, FailureView>(
                ValueView::Markdown(content),
            )
            &&& called(t, FileFunction::ReadFile, seq![name], cwd).1 == Ok::<
                ValueView,
                FailureView,
            >(ValueView::Atom(seq!['"'] + escaped(content) + seq!['"']))
        }),
{
    reveal_strlit("\"");
    assert("\""@ =~= seq!['"']);
    paths::lemma_resolved_names(dirs, names, Seq::empty());
    let args = seq![paths::slashed(names), content];
    assert(args[0] == paths::slashed(names) && args[1] == content);
    assert(seq![paths::slashed(names)][0] == paths::slashed(names));
}

/// `file-exists?` asks for the file of that name in the working directory.
pub proof fn lemma_existence_told<FS: Filesystem>(
    s: FS,
    dirs: Seq<Seq<char>>,
    names: Seq<Seq<char>>,
)
    requires
        paths::plain(dirs),
        paths::plain(names),
    ensures
        called(s, FileFunction::FileExists, seq![paths::slashed(names)], paths::rooted(dirs)).1
            == Ok::<ValueView, FailureView>(
            ValueView::Atom(
                if s.has(paths::rooted(dirs + names)) {
                    seq!['t']
                } else {
                    seq!['n', 'i', 'l']
                },
            ),
        ),
{
    reveal_strlit("t");
    reveal_strlit("nil");
    assert("t"@ =~= seq!['t']);
    assert("nil"@ =~= seq!['n', 'i', 'l']);
    paths::lemma_resolved_names(dirs, names, Seq::empty());
    assert(seq![paths::slashed(names)][0] == paths::slashed(names));
}

/// Inside quotes a backslash, a quote, a newline, a carriage return and a tab are written with a
/// backslash before a character of their own, and any other character as it is.
pub proof fn lemma_escaped_by_characters(s: Seq<char>, c: char)
    ensures
        escaped(Seq::empty()) == Seq::<char>::empty(),
        escaped(s.push(c)) == escaped(s) + if c == '\\' || c == '"' {
            seq!['\\', c]
        } else if c == '\n' {
            seq!['\\', 'n']
        } else if c == '\r' {
            seq!['\\', 'r']
        } else if c == '\t' {
            seq!['\\', 't']
        } else {
            seq![c]
        },
{
    assert(s.push(c).drop_last() =~= s);
}

proof fn lemma_unrooted(s: Seq<char>)
    requires
        s.len() > 0 ==> s[0] != '/',
    ensures
        unrooted(seq!['/'] + s) == s,
{
    let t = seq!['/'] + s;
    assert(t[0] == '/');
    assert(t.skip(1) =~= s);
    reveal_with_fuel(unrooted, 2);
}

/// What lies below a directory is written from there without the directory and the slash behind it.
pub proof fn lemma_written_from_base(base: Seq<char>, rest: Seq<char>)
    requires
        rest.len() > 0 ==> rest[0] != '/',
    ensures
        relative(base, base + seq!['/'] + rest) == rest,
{
    let path = base + seq!['/'] + rest;
    assert(path.take(base.len() as int) =~= base);
    assert(path.skip(base.len() as int) =~= seq!['/'] + rest);
    lemma_unrooted(rest);
}

/// Whether a name ends with `.md` or `.MD`.
pub open spec fn has_ending(name: Seq<char>) -> bool {
    let n = name.len();
    n >= 3 && name[n - 3] == '.' && ((name[n - 2] == 'm' && name[n - 1] == 'd') || (name[n - 2]
        == 'M' && name[n - 1] == 'D'))
}

/// The names with one of these endings among the first `n` entries of a directory.
pub open spec fn names_with_ending(l: Seq<fs::Listed>, n: int) -> Seq<Seq<char>>
    decreases n,
{
    if n <= 0 {
        Seq::empty()
    } else if has_ending(l[n - 1].name) {
        names_with_ending(l, n - 1).push(l[n - 1].name)
    } else {
        names_with_ending(l, n - 1)
    }
}

proof fn lemma_ending(name: Seq<char>)
    ensures
        is_markdown(name) == has_ending(name),
{
    reveal_strlit(".md");
    reveal_strlit(".MD");
    assert(".md"@ =~= seq!['.', 'm', 'd']);
    assert(".MD"@ =~= seq!['.', 'M', 'D']);
    if name.len() >= 3 {
        let t = name.skip(name.len() - 3);
        assert(t[0] == name[name.len() - 3] && t[1] == name[name.len() - 2] && t[2]
            == name[name.len() - 1]);
        if has_ending(name) {
            assert(t =~= ".md"@ || t =~= ".MD"@);
        }
    }
}

proof fn lemma_flat_from<FS: Filesystem>(
    s: FS,
    dir: Seq<char>,
    depth: nat,
    l: Seq<fs::Listed>,
    i: int,
)
    requires
        0 <= i <= l.len(),
        dir.len() > 0,
        dir.last() != '/',
        forall|k: int|
            0 <= k < l.len() ==> (#[trigger] l[k]).entry.file_type != FileType::Directory
                && l[k].name.len() > 0 && l[k].name[0] != '/',
    ensures
        gathered_entries(s, dir, dir, names_with_ending(l, i), depth, l, i) == (
            s,
            Ok::<Seq<Seq<char>>, fs::IoView>(names_with_ending(l, l.len() as int)),
        ),
    decreases l.len() - i,
{
    reveal_strlit(".");
    reveal_strlit("..");
    reveal_strlit("/");
    assert("/"@ =~= seq!['/']);
    if i < l.len() {
        let name = l[i].name;
        assert(l[i].entry.file_type != FileType::Directory);
        lemma_ending(name);
        lemma_written_from_base(dir, name);
        assert(paths::child(dir, name) =~= dir + seq!['/'] + name);
        lemma_flat_from(s, dir, depth, l, i + 1);
    }
}

/// Of a directory without others in it, the files are listed whose names end with `.md` or `.MD`, by
/// their names alone.
pub proof fn lemma_flat_directory<FS: Filesystem>(
    s: FS,
    dir: Seq<char>,
    depth: nat,
    l: Seq<fs::Listed>,
)
    requires
        s.lists(dir) == Ok::<Seq<fs::Listed>, fs::IoView>(l),
        dir.len() > 0,
        dir.last() != '/',
        forall|k: int|
            0 <= k < l.len() ==> (#[trigger] l[k]).entry.file_type != FileType::Directory
                && l[k].name.len() > 0 && l[k].name[0] != '/',
    ensures
        gathered(s, dir, dir, Seq::empty(), depth) == (
            s.after(fs::Request::ReadDir(dir)),
            Ok::<Seq<Seq<char>>, fs::IoView>(names_with_ending(l, l.len() as int)),
        ),
{
    lemma_flat_from(s.after(fs::Request::ReadDir(dir)), dir, depth, l, 0);
}

/// A document that is asked for is the file of that name in the directory that the command works in.
pub proof fn lemma_document_read<FS: Filesystem>(
    v: env::EnvView<FS>,
    dirs: Seq<Seq<char>>,
    names: Seq<Seq<char>>,
    command: Seq<char>,
    usage: Seq<char>,
    content: Seq<char>,
)
    requires
        paths::plain(dirs),
        paths::plain(names),
        v.fs.reads(paths::rooted(dirs + names)) == Ok::<Seq<char>, fs::IoView>(content),
    ensures
        ({
            let parts = seq![command, paths::slashed(names)];
            let (w, h) = document_shown(v, paths::rooted(dirs), parts, usage, None);
            let ask = |s: Seq<char>| ActionView::Show(s);
            let (x, k) = document_shown(v, paths::rooted(dirs), parts, usage, Some(ask));
            &&& w.out == v.out + content + seq!['\n']
            &&& w.err == v.err
            &&& h == Handled::Next
            &&& x.out == v.out
            &&& k == Handled::Ask(ActionView::Show(content))
        }),
{
    let parts = seq![command, paths::slashed(names)];
    assert(parts[1] == paths::slashed(names));
    paths::lemma_resolved_names(dirs, names, Seq::empty());
    assert(v.out + text::terminated(content) =~= v.out + content + seq!['\n']);
}

} // verus!
