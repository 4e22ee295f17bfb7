//! The filesystem interface that every command works against.

use crate::text;
use vstd::prelude::*;

verus! {

broadcast use vstd::string::group_string_axioms;

/// What kind of thing a path names.
#[derive(Debug, Clone, Copy, PartialEq, Eq, Structural)]
pub enum FileType {
    RegularFile,
    Directory,
    Symlink,
}

/// What a filesystem tells about one file.
#[derive(Debug, Clone, Copy, PartialEq, Eq, Structural)]
pub struct DirEntry {
    pub file_type: FileType,
    /// Size in bytes.
    pub size: u64,
    /// The device that holds the file.
    pub dev: u64,
    /// The number of the file on its device: hard links to one file share it.
    pub ino: u64,
}

/// The reason of a failed operation, as far as commands tell reasons apart.
#[derive(Debug, Clone, Copy, PartialEq, Eq, Structural)]
pub enum ErrorKind {
    NotFound,
    PermissionDenied,
    AlreadyExists,
    NotADirectory,
    IsADirectory,
    DirectoryNotEmpty,
    InvalidInput,
    Other,
}

/// A failed input or output operation.
#[derive(Debug)]
pub struct IoError {
    pub kind: ErrorKind,
    /// The words for users.
    pub message: String,
    /// The words for developers.
    pub details: String,
}

/// The kind and the words of an `IoError`.
pub ghost struct IoView {
    pub kind: ErrorKind,
    pub message: Seq<char>,
    pub details: Seq<char>,
}

impl View for IoError {
    type V = IoView;

    open spec fn view(&self) -> IoView {
        IoView { kind: self.kind, message: self.message@, details: self.details@ }
    }
}

/// A failed filesystem operation.
#[derive(Debug)]
pub enum FsError {
    Io(IoError),
}

impl View for FsError {
    type V = IoView;

    open spec fn view(&self) -> IoView {
        match self {
            FsError::Io(e) => e@,
        }
    }
}

/// The words in which commands report a failed operation.
pub open spec fn friendly(e: IoView) -> Seq<char> {
    match e.kind {
        ErrorKind::NotFound => "No such file or directory"@,
        ErrorKind::DirectoryNotEmpty => "Directory not empty"@,
        ErrorKind::NotADirectory => "Not a directory"@,
        _ => e.message,
    }
}

/// The words in which commands report a failed operation.
pub fn fs_error_message(e: &FsError) -> (r: String)
    ensures
        r@ == friendly(e@),
{
    match e {
        FsError::Io(io) => match io.kind {
            ErrorKind::NotFound => "No such file or directory".to_owned(),
            ErrorKind::DirectoryNotEmpty => "Directory not empty".to_owned(),
            ErrorKind::NotADirectory => "Not a directory".to_owned(),
            _ => io.message.clone(),
        },
    }
}

/// The words for developers in which commands report a failed operation.
pub open spec fn described(e: IoView) -> Seq<char> {
    "Io("@ + e.details + ")"@
}

/// The words for developers in which commands report a failed operation.
pub fn fs_error_details(e: &FsError) -> (r: String)
    ensures
        r@ == described(e@),
{
    match e {
        FsError::Io(io) => {
            let mut s = "Io(".to_owned();
            s.append(io.details.as_str());
            s.append(")");
            s
        },
    }
}

/// What is asked of a filesystem.
pub ghost enum Request {
    Read(Seq<char>),
    Write(Seq<char>, Seq<char>),
    Exists(Seq<char>),
    IsDir(Seq<char>),
    Stat(Seq<char>),
    Lstat(Seq<char>),
    ReadDir(Seq<char>),
    Mkdir(Seq<char>),
    Rmdir(Seq<char>),
    Unlink(Seq<char>),
    Link(Seq<char>, Seq<char>),
    Symlink(Seq<char>, Seq<char>),
    Readlink(Seq<char>),
    Mkstemp(Seq<char>),
    Mkdtemp(Seq<char>),
}

pub open spec fn text_result(r: Result<String, FsError>) -> Result<Seq<char>, IoView> {
    match r {
        Ok(s) => Ok(s@),
        Err(e) => Err(e@),
    }
}

pub open spec fn entry_result(r: Result<DirEntry, FsError>) -> Result<DirEntry, IoView> {
    match r {
        Ok(d) => Ok(d),
        Err(e) => Err(e@),
    }
}

pub open spec fn unit_result(r: Result<(), FsError>) -> Result<(), IoView> {
    match r {
        Ok(_) => Ok(()),
        Err(e) => Err(e@),
    }
}

/// One entry of a directory listing: the name and what it names.
pub ghost struct Listed {
    pub name: Seq<char>,
    pub entry: DirEntry,
}

pub open spec fn listing(v: Seq<(String, DirEntry)>) -> Seq<Listed> {
    Seq::new(v.len(), |i: int| Listed { name: v[i].0@, entry: v[i].1 })
}

pub open spec fn listing_result(r: Result<Vec<(String, DirEntry)>, FsError>) -> Result<
    Seq<Listed>,
    IoView,
> {
    match r {
        Ok(v) => Ok(listing(v@)),
        Err(e) => Err(e@),
    }
}

/// A filesystem.
///
/// An implementation answers from what it holds: what a request answers, and what the filesystem
/// holds after it, are functions of what it held before, given by the specification functions below.
/// Nothing else is asked of it, and the commands are specified over these functions. An
/// implementation may define them; of those that it does not define nothing is known but that they
/// give the answers.
pub trait Filesystem: Sized {
    /// What the filesystem holds after a request.
    open spec fn after(self, request: Request) -> Self {
        arbitrary()
    }

    /// What reading a file answers.
    open spec fn reads(self, path: Seq<char>) -> Result<Seq<char>, IoView> {
        arbitrary()
    }

    /// What writing a file answers.
    open spec fn writes(self, path: Seq<char>, text: Seq<char>) -> Result<(), IoView> {
        arbitrary()
    }

    /// Whether a path names anything.
    open spec fn has(self, path: Seq<char>) -> bool {
        arbitrary()
    }

    /// Whether a path names a directory.
    open spec fn has_dir(self, path: Seq<char>) -> bool {
        arbitrary()
    }

    /// What a path names, symbolic links followed.
    open spec fn stats(self, path: Seq<char>) -> Result<DirEntry, IoView> {
        arbitrary()
    }

    /// What a path names, a symbolic link at its end not followed.
    open spec fn lstats(self, path: Seq<char>) -> Result<DirEntry, IoView> {
        arbitrary()
    }

    /// What listing a directory answers.
    open spec fn lists(self, path: Seq<char>) -> Result<Seq<Listed>, IoView> {
        arbitrary()
    }

    /// What making a directory answers.
    open spec fn mkdirs(self, path: Seq<char>) -> Result<(), IoView> {
        arbitrary()
    }

    /// What removing a directory answers.
    open spec fn rmdirs(self, path: Seq<char>) -> Result<(), IoView> {
        arbitrary()
    }

    /// What removing a file answers.
    open spec fn unlinks(self, path: Seq<char>) -> Result<(), IoView> {
        arbitrary()
    }

    /// What making a hard link answers.
    open spec fn links(self, from: Seq<char>, to: Seq<char>) -> Result<(), IoView> {
        arbitrary()
    }

    /// What making a symbolic link answers.
    open spec fn symlinks(self, from: Seq<char>, to: Seq<char>) -> Result<(), IoView> {
        arbitrary()
    }

    /// What reading a symbolic link answers.
    open spec fn readlinks(self, path: Seq<char>) -> Result<Seq<char>, IoView> {
        arbitrary()
    }

    /// The path of the temporary file that is made from a template.
    open spec fn mkstemps(self, template: Seq<char>) -> Result<Seq<char>, IoView> {
        arbitrary()
    }

    /// The path of the temporary directory that is made from a template.
    open spec fn mkdtemps(self, template: Seq<char>) -> Result<Seq<char>, IoView> {
        arbitrary()
    }

    /// Reads a whole file.
    fn read_to_string(&mut self, path: &str) -> (r: Result<String, FsError>)
        ensures
            *final(self) == old(self).after(Request::Read(path@)),
            text_result(r) == old(self).reads(path@),
    ;

    /// Replaces what a file holds, and makes the file where there is none.
    fn write_string(&mut self, path: &str, text: &str) -> (r: Result<(), FsError>)
        ensures
            *final(self) == old(self).after(Request::Write(path@, text@)),
            unit_result(r) == old(self).writes(path@, text@),
    ;

    /// Whether a path names anything.
    fn path_exists(&mut self, path: &str) -> (r: bool)
        ensures
            *final(self) == old(self).after(Request::Exists(path@)),
            r == old(self).has(path@),
    ;

    /// Whether a path names a directory.
    fn is_dir(&mut self, path: &str) -> (r: bool)
        ensures
            *final(self) == old(self).after(Request::IsDir(path@)),
            r == old(self).has_dir(path@),
    ;

    /// What a path names, symbolic links followed.
    fn stat(&mut self, path: &str) -> (r: Result<DirEntry, FsError>)
        ensures
            *final(self) == old(self).after(Request::Stat(path@)),
            entry_result(r) == old(self).stats(path@),
    ;

    /// What a path names, a symbolic link at its end not followed.
    fn lstat(&mut self, path: &str) -> (r: Result<DirEntry, FsError>)
        ensures
            *final(self) == old(self).after(Request::Lstat(path@)),
            entry_result(r) == old(self).lstats(path@),
    ;

    /// Lists a directory.
    fn read_dir(&mut self, path: &str) -> (r: Result<Vec<(String, DirEntry)>, FsError>)
        ensures
            *final(self) == old(self).after(Request::ReadDir(path@)),
            listing_result(r) == old(self).lists(path@),
    ;

    /// Makes a directory.
    fn mkdir(&mut self, path: &str) -> (r: Result<(), FsError>)
        ensures
            *final(self) == old(self).after(Request::Mkdir(path@)),
            unit_result(r) == old(self).mkdirs(path@),
    ;

    /// Removes an empty directory.
    fn rmdir(&mut self, path: &str) -> (r: Result<(), FsError>)
        ensures
            *final(self) == old(self).after(Request::Rmdir(path@)),
            unit_result(r) == old(self).rmdirs(path@),
    ;

    /// Removes a file or a symbolic link.
    fn unlink(&mut self, path: &str) -> (r: Result<(), FsError>)
        ensures
            *final(self) == old(self).after(Request::Unlink(path@)),
            unit_result(r) == old(self).unlinks(path@),
    ;

    /// Makes a hard link at `to` to the file at `from`.
    fn link(&mut self, from: &str, to: &str) -> (r: Result<(), FsError>)
        ensures
            *final(self) == old(self).after(Request::Link(from@, to@)),
            unit_result(r) == old(self).links(from@, to@),
    ;

    /// Makes a symbolic link at `to` that holds `from`.
    fn symlink(&mut self, from: &str, to: &str) -> (r: Result<(), FsError>)
        ensures
            *final(self) == old(self).after(Request::Symlink(from@, to@)),
            unit_result(r) == old(self).symlinks(from@, to@),
    ;

    /// What a symbolic link holds.
    fn readlink(&mut self, path: &str) -> (r: Result<String, FsError>)
        ensures
            *final(self) == old(self).after(Request::Readlink(path@)),
            text_result(r) == old(self).readlinks(path@),
    ;

    /// Makes an empty file under a new name made from a template.
    fn mkstemp(&mut self, template: &str) -> (r: Result<String, FsError>)
        ensures
            *final(self) == old(self).after(Request::Mkstemp(template@)),
            text_result(r) == old(self).mkstemps(template@),
    ;

    /// Makes a directory under a new name made from a template.
    fn mkdtemp(&mut self, template: &str) -> (r: Result<String, FsError>)
        ensures
            *final(self) == old(self).after(Request::Mkdtemp(template@)),
            text_result(r) == old(self).mkdtemps(template@),
    ;
}

/// A filesystem after the first `n` files were read.
pub open spec fn after_reads<FS: Filesystem>(s: FS, files: Seq<Seq<char>>, n: int) -> FS
    decreases n,
{
    if n <= 0 {
        s
    } else {
        after_reads(s, files, n - 1).after(Request::Read(files[n - 1]))
    }
}

/// What reading file `i` answers, when those before it were read.
pub open spec fn read_at<FS: Filesystem>(s: FS, files: Seq<Seq<char>>, i: int) -> Result<
    Seq<char>,
    IoView,
> {
    after_reads(s, files, i).reads(files[i])
}

/// Whether one of the first `n` files cannot be read.
pub open spec fn any_unread<FS: Filesystem>(s: FS, files: Seq<Seq<char>>, n: int) -> bool {
    exists|i: int| 0 <= i < n && #[trigger] read_at(s, files, i) is Err
}

/// What a command says of those of the first `n` files that cannot be read.
pub open spec fn complaints<FS: Filesystem>(
    s: FS,
    command: Seq<char>,
    files: Seq<Seq<char>>,
    n: int,
) -> Seq<Seq<char>>
    decreases n,
{
    if n <= 0 {
        Seq::empty()
    } else {
        let before = complaints(s, command, files, n - 1);
        match read_at(s, files, n - 1) {
            Ok(_) => before,
            Err(e) => before.push(command + seq![':', ' '] + files[n - 1] + seq![':', ' ']
                + e.message),
        }
    }
}

/// The lines of those of the first `n` files that can be read, one file after another.
pub open spec fn lines_read<FS: Filesystem>(s: FS, files: Seq<Seq<char>>, n: int) -> Seq<Seq<char>>
    decreases n,
{
    if n <= 0 {
        Seq::empty()
    } else {
        lines_read(s, files, n - 1) + match read_at(s, files, n - 1) {
            Ok(t) => text::lines(t),
            Err(_) => Seq::empty(),
        }
    }
}

/// A file that can be read adds none to those that cannot.
pub proof fn lemma_unread_ok<FS: Filesystem>(s: FS, files: Seq<Seq<char>>, i: int)
    requires
        read_at(s, files, i) is Ok,
    ensures
        any_unread(s, files, i + 1) == any_unread(s, files, i),
{
    if any_unread(s, files, i + 1) {
        let k = choose|k: int| 0 <= k < i + 1 && #[trigger] read_at(s, files, k) is Err;
        assert(k < i);
    }
    if any_unread(s, files, i) {
        let k = choose|k: int| 0 <= k < i && #[trigger] read_at(s, files, k) is Err;
        assert(k < i + 1);
    }
}

} // verus!
