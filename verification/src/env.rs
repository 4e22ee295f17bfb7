//! What a command runs in: its streams, its filesystem, its variables and its arguments.

use crate::fs::{Filesystem, FsError, IoError};
use crate::text;
use crate::vars::Vars;
use crate::fs;
use vstd::prelude::*;

verus! {

broadcast use vstd::string::group_string_axioms;

/// The number that a command ends with. Zero means success.
#[derive(Debug, Clone, Copy, PartialEq, Eq, Structural)]
pub struct ExitCode {
    code: i32,
}

impl ExitCode {
    pub closed spec fn spec_code(self) -> int {
        self.code as int
    }

    /// The exit code with this number.
    pub fn new(code: i32) -> (r: ExitCode)
        ensures
            r.spec_code() == code,
    {
        ExitCode { code }
    }

    /// The number of the exit code.
    pub fn code(&self) -> (r: i32)
        ensures
            r == self.spec_code(),
    {
        self.code
    }
}

/// Why a command could not be carried out at all.
#[derive(Debug)]
pub enum Error {
    /// An operation on a file or a stream failed, or a command line is malformed.
    Io(IoError),
    /// There is no command to run.
    EmptyCommand,
    /// No command has this name.
    UnknownBinary(String),
    /// Quotes or variables in a command line are malformed.
    Expansion(String),
}

pub ghost enum ErrorView {
    Io(fs::IoView),
    EmptyCommand,
    UnknownBinary(Seq<char>),
    Expansion(Seq<char>),
}

impl View for Error {
    type V = ErrorView;

    open spec fn view(&self) -> ErrorView {
        match self {
            Error::Io(e) => ErrorView::Io(e@),
            Error::EmptyCommand => ErrorView::EmptyCommand,
            Error::UnknownBinary(name) => ErrorView::UnknownBinary(name@),
            Error::Expansion(message) => ErrorView::Expansion(message@),
        }
    }
}

/// The failure of a command whose filesystem failed.
pub fn error_of(e: FsError) -> (r: Error)
    ensures
        r@ == ErrorView::Io(e@),
{
    match e {
        FsError::Io(io) => Error::Io(io),
    }
}

/// What a command that ended came to: its exit code, or why it could not be carried out.
pub open spec fn outcome(r: Result<ExitCode, Error>) -> Result<int, ErrorView> {
    match r {
        Ok(code) => Ok(code.spec_code()),
        Err(e) => Err(e@),
    }
}

/// Lines to be read one after another.
pub struct StringStdioIn {
    lines: Vec<String>,
    next: usize,
}

impl View for StringStdioIn {
    type V = Seq<Seq<char>>;

    closed spec fn view(&self) -> Seq<Seq<char>> {
        self.lines.deep_view().skip(self.next as int)
    }
}

impl StringStdioIn {
    #[verifier::type_invariant]
    spec fn in_range(self) -> bool {
        self.next <= self.lines@.len()
    }

    /// The lines of a text.
    pub fn new(text: &str) -> (r: StringStdioIn)
        ensures
            r@ == text::lines(text@),
    {
        let lines = text::lines_of(text);
        assert(lines.deep_view().skip(0) =~= lines.deep_view());
        StringStdioIn { lines, next: 0 }
    }

    /// The next line, where one is left.
    pub fn read_line(&mut self) -> (r: Option<String>)
        ensures
            match r {
                Some(line) => old(self)@.len() > 0 && line@ == old(self)@[0] && final(self)@
                    == old(self)@.skip(1),
                None => old(self)@.len() == 0 && final(self)@ == old(self)@,
            },
    {
        proof {
            use_type_invariant(&*self);
        }
        if self.next < self.lines.len() {
            let line = self.lines[self.next].clone();
            assert(self.lines.deep_view().skip(self.next as int).skip(1)
                =~= self.lines.deep_view().skip(self.next + 1));
            self.next = self.next + 1;
            Some(line)
        } else {
            None
        }
    }

    /// All lines that are left, none of which is left afterwards.
    pub fn read_all(&mut self) -> (r: Vec<String>)
        ensures
            r.deep_view() == old(self)@,
            final(self)@ == Seq::<Seq<char>>::empty(),
    {
        let mut out: Vec<String> = Vec::new();
        assert(out.deep_view() + self@ =~= old(self)@);
        loop
            invariant_except_break
                out.deep_view() + self@ == old(self)@,
            ensures
                out.deep_view() == old(self)@,
                self@.len() == 0,
            decreases self@.len(),
        {
            let ghost before = out.deep_view();
            let ghost left = self@;
            match self.read_line() {
                Some(line) => {
                    out.push(line);
                    assert(out.deep_view() =~= before.push(left[0]));
                    assert(out.deep_view() + left.skip(1) =~= before + left);
                },
                None => {
                    assert(before + left =~= before);
                    break;
                },
            }
        }
        out
    }
}

/// Text that was written.
pub struct StringStdioOut {
    pub text: String,
}

impl View for StringStdioOut {
    type V = Seq<char>;

    open spec fn view(&self) -> Seq<char> {
        self.text@
    }
}

impl StringStdioOut {
    /// Nothing written yet.
    pub fn new() -> (r: StringStdioOut)
        ensures
            r@ == Seq::<char>::empty(),
    {
        StringStdioOut { text: String::new() }
    }

    /// What was written so far.
    pub fn into_string(&self) -> (r: String)
        ensures
            r@ == self@,
    {
        self.text.clone()
    }
}

/// What a command runs in.
pub struct Environment<FS> {
    pub stdin: StringStdioIn,
    pub stdout: StringStdioOut,
    pub stderr: StringStdioOut,
    /// Whether what goes to the error stream goes to the output stream instead.
    pub merged: bool,
    pub fs: FS,
    pub env: Vars,
    pub vars: Vars,
    pub args: Vec<String>,
    pub cwd: String,
    /// Where the next random choice begins.
    pub seed: u64,
    pub exit_signaled: bool,
}

/// The mathematical counterpart of `Environment`.
#[verifier::ext_equal]
pub ghost struct EnvView<FS> {
    /// The lines that are not read yet.
    pub stdin: Seq<Seq<char>>,
    pub out: Seq<char>,
    pub err: Seq<char>,
    pub merged: bool,
    pub fs: FS,
    pub env: Map<Seq<char>, Seq<char>>,
    pub vars: Map<Seq<char>, Seq<char>>,
    pub args: Seq<Seq<char>>,
    pub cwd: Seq<char>,
    pub seed: u64,
    pub exit_signaled: bool,
}

impl<FS> View for Environment<FS> {
    type V = EnvView<FS>;

    open spec fn view(&self) -> EnvView<FS> {
        EnvView {
            stdin: self.stdin@,
            out: self.stdout@,
            err: self.stderr@,
            merged: self.merged,
            fs: self.fs,
            env: self.env@,
            vars: self.vars@,
            args: self.args.deep_view(),
            cwd: self.cwd@,
            seed: self.seed,
            exit_signaled: self.exit_signaled,
        }
    }
}

impl<FS> EnvView<FS> {
    /// After `s` was written to the output stream.
    pub open spec fn write(self, s: Seq<char>) -> Self {
        EnvView { out: self.out + s, ..self }
    }

    /// After `s` and a newline were written to the output stream.
    pub open spec fn write_line(self, s: Seq<char>) -> Self {
        self.write(text::terminated(s))
    }

    /// After `s` and a newline were written to the error stream.
    pub open spec fn error_line(self, s: Seq<char>) -> Self {
        if self.merged {
            self.write_line(s)
        } else {
            EnvView { err: self.err + text::terminated(s), ..self }
        }
    }

    /// With the filesystem in another state.
    pub open spec fn with_fs(self, fs: FS) -> Self {
        EnvView { fs, ..self }
    }

    /// With no line left to be read.
    pub open spec fn drained(self) -> Self {
        EnvView { stdin: Seq::empty(), ..self }
    }
}

impl<FS: Filesystem> EnvView<FS> {
    /// After a request to the filesystem.
    pub open spec fn asked(self, request: fs::Request) -> Self {
        self.with_fs(self.fs.after(request))
    }
}

impl<FS> Environment<FS> {
    /// Writes to the output stream.
    pub fn write_str(&mut self, s: &str)
        ensures
            final(self)@ == old(self)@.write(s@),
    {
        self.stdout.text.append(s);
    }

    /// Writes a line to the output stream.
    pub fn write_line(&mut self, s: &str)
        ensures
            final(self)@ == old(self)@.write_line(s@),
    {
        self.stdout.text.append(s);
        self.stdout.text.push('\n');
        assert((old(self)@.out + s@).push('\n') =~= old(self)@.out + text::terminated(s@));
    }

    /// Writes a line to the error stream.
    pub fn error_line(&mut self, s: &str)
        ensures
            final(self)@ == old(self)@.error_line(s@),
    {
        if self.merged {
            self.write_line(s);
        } else {
            self.stderr.text.append(s);
            self.stderr.text.push('\n');
            assert((old(self)@.err + s@).push('\n') =~= old(self)@.err + text::terminated(s@));
        }
    }

    /// Whether the shell was told to end.
    pub fn is_exit_signaled(&self) -> (r: bool)
        ensures
            r == self@.exit_signaled,
    {
        self.exit_signaled
    }
}

} // verus!
