use eudaemonsh::inspect_fs;
use eudaemonsh::markdownsp::{call, extract_string, Action, Evaluator, FileFunction, Value};
use eudaemonsh::markdownsp;
use eudaemonsh::env::{Environment, StringStdioIn, StringStdioOut};
use eudaemonsh::fs::{DirEntry, ErrorKind, FileType, Filesystem, FsError, IoError};
use eudaemonsh::vars::Vars;
use std::collections::BTreeMap;

/// A file, a directory or a symbolic link.
struct Node {
    file_type: FileType,
    /// What a file holds, or where a symbolic link leads.
    text: String,
}

/// A filesystem in memory.
struct TestFilesystem {
    names: BTreeMap<String, usize>,
    nodes: Vec<Node>,
    made: usize,
}

fn failure<T>(kind: ErrorKind, message: &str) -> Result<T, FsError> {
    Err(FsError::Io(IoError {
        kind,
        message: message.to_string(),
        details: format!("Custom {{ kind: {:?}, error: {:?} }}", kind, message),
    }))
}

fn missing<T>() -> Result<T, FsError> {
    failure(ErrorKind::NotFound, "No such file or directory")
}

fn parent_of(path: &str) -> String {
    match path.rfind('/') {
        Some(0) | None => "/".to_string(),
        Some(i) => path[..i].to_string(),
    }
}

#[allow(dead_code)]
impl TestFilesystem {
    fn new() -> Self {
        let mut names = BTreeMap::new();
        names.insert("/".to_string(), 0);
        let root = Node { file_type: FileType::Directory, text: String::new() };
        TestFilesystem { names, nodes: vec![root], made: 0 }
    }

    /// The place that a path leads to, with the symbolic links before its end followed, and the one
    /// at its end where `last` is set.
    fn place(&self, path: &str, last: bool) -> Option<String> {
        let mut rest: Vec<String> = path.split('/').rev().map(|s| s.to_string()).collect();
        let mut at: Vec<String> = Vec::new();
        let mut links = 0;
        while let Some(step) = rest.pop() {
            if step.is_empty() || step == "." {
                continue;
            }
            if step == ".." {
                at.pop();
                continue;
            }
            at.push(step);
            let here = format!("/{}", at.join("/"));
            let done = rest.iter().all(|s| s.is_empty());
            if let Some(&n) = self.names.get(&here) {
                if self.nodes[n].file_type == FileType::Symlink && (last || !done) {
                    links += 1;
                    if links > 40 {
                        return None;
                    }
                    at.pop();
                    let target = self.nodes[n].text.clone();
                    if target.starts_with('/') {
                        at.clear();
                    }
                    for step in target.split('/').rev() {
                        rest.push(step.to_string());
                    }
                }
            }
        }
        Some(format!("/{}", at.join("/")))
    }

    fn node(&self, path: &str, last: bool) -> Option<usize> {
        let place = self.place(path, last)?;
        self.names.get(&place).copied()
    }

    fn put(&mut self, place: String, file_type: FileType, text: &str) {
        self.nodes.push(Node { file_type, text: text.to_string() });
        self.names.insert(place, self.nodes.len() - 1);
    }

    fn holds_dir(&self, place: &str) -> bool {
        match self.names.get(place) {
            Some(&n) => self.nodes[n].file_type == FileType::Directory,
            None => false,
        }
    }

    fn entry(&self, n: usize) -> DirEntry {
        DirEntry {
            file_type: self.nodes[n].file_type,
            size: if self.nodes[n].file_type == FileType::Directory {
                1
            } else {
                self.nodes[n].text.len() as u64
            },
            dev: 1,
            ino: n as u64,
        }
    }

    fn add_directory(&mut self, path: &str) {
        let place = self.place(path, true).unwrap();
        if place != "/" && !self.names.contains_key(&place) {
            self.add_directory(&parent_of(&place));
            self.put(place, FileType::Directory, "");
        }
    }

    fn mkdir_all(&mut self, path: &str) -> Result<(), FsError> {
        self.add_directory(path);
        Ok(())
    }

    fn add_file(&mut self, path: &str, text: &str) {
        let place = self.place(path, true).unwrap();
        self.add_directory(&parent_of(&place));
        self.write_string(&place, text).unwrap();
    }

    fn make_temp(&mut self, template: &str, file_type: FileType) -> Result<String, FsError> {
        let stem = template.trim_end_matches('X');
        self.made += 1;
        let name = format!("{}{:0width$}", stem, self.made, width = template.len() - stem.len());
        let place = self.place(&name, true).unwrap();
        if !self.holds_dir(&parent_of(&place)) {
            return missing();
        }
        self.put(place, file_type, "");
        Ok(name)
    }
}

impl Filesystem for TestFilesystem {
    fn read_to_string(&mut self, path: &str) -> Result<String, FsError> {
        match self.node(path, true) {
            None => missing(),
            Some(n) => match self.nodes[n].file_type {
                FileType::Directory => failure(ErrorKind::IsADirectory, "Is a directory"),
                _ => Ok(self.nodes[n].text.clone()),
            },
        }
    }

    fn write_string(&mut self, path: &str, text: &str) -> Result<(), FsError> {
        let place = match self.place(path, true) {
            Some(place) => place,
            None => return missing(),
        };
        match self.names.get(&place) {
            Some(&n) => match self.nodes[n].file_type {
                FileType::Directory => failure(ErrorKind::IsADirectory, "Is a directory"),
                _ => {
                    self.nodes[n].text = text.to_string();
                    Ok(())
                }
            },
            None => {
                if !self.holds_dir(&parent_of(&place)) {
                    return missing();
                }
                self.put(place, FileType::RegularFile, text);
                Ok(())
            }
        }
    }

    fn path_exists(&mut self, path: &str) -> bool {
        self.node(path, true).is_some()
    }

    fn is_dir(&mut self, path: &str) -> bool {
        match self.node(path, true) {
            Some(n) => self.nodes[n].file_type == FileType::Directory,
            None => false,
        }
    }

    fn stat(&mut self, path: &str) -> Result<DirEntry, FsError> {
        match self.node(path, true) {
            Some(n) => Ok(self.entry(n)),
            None => missing(),
        }
    }

    fn lstat(&mut self, path: &str) -> Result<DirEntry, FsError> {
        match self.node(path, false) {
            Some(n) => Ok(self.entry(n)),
            None => missing(),
        }
    }

    fn read_dir(&mut self, path: &str) -> Result<Vec<(String, DirEntry)>, FsError> {
        let place = match self.place(path, true) {
            Some(place) => place,
            None => return missing(),
        };
        if !self.names.contains_key(&place) {
            return missing();
        }
        if !self.holds_dir(&place) {
            return failure(ErrorKind::NotADirectory, "Not a directory");
        }
        let mut found = Vec::new();
        for (name, &n) in &self.names {
            if name != "/" && parent_of(name) == place {
                let base = name.rsplit('/').next().unwrap().to_string();
                found.push((base, self.entry(n)));
            }
        }
        Ok(found)
    }

    fn mkdir(&mut self, path: &str) -> Result<(), FsError> {
        let place = self.place(path, true).unwrap();
        if self.names.contains_key(&place) {
            return failure(ErrorKind::AlreadyExists, "File exists");
        }
        if !self.holds_dir(&parent_of(&place)) {
            return missing();
        }
        self.put(place, FileType::Directory, "");
        Ok(())
    }

    fn rmdir(&mut self, path: &str) -> Result<(), FsError> {
        let place = self.place(path, false).unwrap();
        if !self.names.contains_key(&place) {
            return missing();
        }
        if !self.holds_dir(&place) {
            return failure(ErrorKind::NotADirectory, "Not a directory");
        }
        if self.names.keys().any(|name| name != "/" && parent_of(name) == place) {
            return failure(ErrorKind::DirectoryNotEmpty, "Directory not empty");
        }
        self.names.remove(&place);
        Ok(())
    }

    fn unlink(&mut self, path: &str) -> Result<(), FsError> {
        let place = self.place(path, false).unwrap();
        if !self.names.contains_key(&place) {
            return missing();
        }
        if self.holds_dir(&place) {
            return failure(ErrorKind::IsADirectory, "Is a directory");
        }
        self.names.remove(&place);
        Ok(())
    }

    fn link(&mut self, from: &str, to: &str) -> Result<(), FsError> {
        let n = match self.node(from, true) {
            Some(n) => n,
            None => return missing(),
        };
        let place = self.place(to, false).unwrap();
        if self.names.contains_key(&place) {
            return failure(ErrorKind::AlreadyExists, "File exists");
        }
        if !self.holds_dir(&parent_of(&place)) {
            return missing();
        }
        self.names.insert(place, n);
        Ok(())
    }

    fn symlink(&mut self, from: &str, to: &str) -> Result<(), FsError> {
        let place = self.place(to, false).unwrap();
        if self.names.contains_key(&place) {
            return failure(ErrorKind::AlreadyExists, "File exists");
        }
        if !self.holds_dir(&parent_of(&place)) {
            return missing();
        }
        self.put(place, FileType::Symlink, from);
        Ok(())
    }

    fn readlink(&mut self, path: &str) -> Result<String, FsError> {
        match self.node(path, false) {
            None => missing(),
            Some(n) => match self.nodes[n].file_type {
                FileType::Symlink => Ok(self.nodes[n].text.clone()),
                _ => failure(ErrorKind::InvalidInput, "Invalid argument"),
            },
        }
    }

    fn mkstemp(&mut self, template: &str) -> Result<String, FsError> {
        self.make_temp(template, FileType::RegularFile)
    }

    fn mkdtemp(&mut self, template: &str) -> Result<String, FsError> {
        self.make_temp(template, FileType::Directory)
    }
}

#[allow(dead_code)]
fn make_test_env(args: Vec<&str>) -> Environment<TestFilesystem> {
    make_test_env_with_stdin(args, "")
}

fn make_test_env_with_stdin(args: Vec<&str>, stdin: &str) -> Environment<TestFilesystem> {
    Environment {
        stdin: StringStdioIn::new(stdin),
        stdout: StringStdioOut::new(),
        stderr: StringStdioOut::new(),
        merged: false,
        fs: TestFilesystem::new(),
        env: Vars::new(),
        vars: Vars::new(),
        args: args.into_iter().map(|s| s.to_string()).collect(),
        cwd: "/".to_string(),
        seed: 7,
        exit_signaled: false,
    }
}

/// Builds the environment of a test.
#[allow(dead_code)]
struct TestEnvBuilder {
    env: Environment<TestFilesystem>,
}

#[allow(dead_code)]
impl TestEnvBuilder {
    fn new() -> Self {
        TestEnvBuilder { env: make_test_env(vec![]) }
    }

    fn args(mut self, args: Vec<&str>) -> Self {
        self.env.args = args.into_iter().map(|s| s.to_string()).collect();
        self
    }

    fn cwd(mut self, cwd: &str) -> Self {
        self.env.cwd = cwd.to_string();
        self
    }

    fn env_var(mut self, name: &str, value: &str) -> Self {
        self.env.env.insert(name, value);
        self
    }

    fn build(self) -> Environment<TestFilesystem> {
        self.env
    }
}

/// Evaluates the expressions that call one function on files with texts as its arguments.
struct Functions;

impl Evaluator<TestFilesystem> for Functions {
    fn answer(
        &self,
        fs: &mut TestFilesystem,
        dir: &str,
        action: &Action,
    ) -> Result<String, String> {
        let expr = match action {
            Action::Evaluate(expr) => expr,
            Action::Show(text) => return Ok(format!("shown: {}", text)),
            Action::Annotate(text) => return Ok(format!("annotated: {}", text)),
            Action::Describe(reason) => return Ok(format!("described: {}", reason)),
            Action::Finish(_) => unreachable!(),
        };
        let inner = expr.trim_start_matches('(').trim_end_matches(')');
        let (name, rest) = inner.split_once(' ').unwrap_or((inner, ""));
        let function = match name {
            "list-files" => FileFunction::ListFiles,
            "read-file" => FileFunction::ReadFile,
            "write-file" => FileFunction::WriteFile,
            "file-exists?" => FileFunction::FileExists,
            _ => return Err(format!("unknown function: {}", name)),
        };
        let args: Vec<String> = rest.split_whitespace().map(extract_string).collect();
        match call(fs, function, &args, dir) {
            Ok(Value::Atom(s)) | Ok(Value::Markdown(s)) => Ok(s),
            Ok(Value::List(l)) => Ok(format!("({})", l.join(" "))),
            Err(e) => Err(e.message),
        }
    }
}

#[test]
fn markdownsp_help_flag() {
    let mut env = make_test_env(vec!["markdownsp", "-h"]);
    env.fs.add_directory("/");
    let result = markdownsp::bin(&mut env, &Functions).unwrap();
    assert_eq!(0, result.code());
    let stderr = env.stderr.into_string();
    println!("stderr: {:?}", stderr);
    assert!(stderr.contains("Usage:"));
    assert!(stderr.contains("load"));
}

#[test]
fn eval_list_files() {
    let mut env = make_test_env(vec!["markdownsp", "-e", "(list-files)"]);
    env.fs.add_directory("/");
    env.fs.add_file("/readme.md", "# Readme");
    env.fs.add_file("/other.txt", "not markdown");
    let result = markdownsp::bin(&mut env, &Functions).unwrap();
    assert_eq!(0, result.code());
    let stdout = env.stdout.into_string();
    println!("stdout: {:?}", stdout);
    assert!(stdout.contains("readme.md"));
    assert!(!stdout.contains("other.txt"));
}

#[test]
fn eval_file_exists() {
    let mut env = make_test_env(vec!["markdownsp", "-e", "(file-exists? \"test.md\")"]);
    env.fs.add_directory("/");
    env.fs.add_file("/test.md", "# Hello");
    let result = markdownsp::bin(&mut env, &Functions).unwrap();
    assert_eq!(0, result.code());
    let stdout = env.stdout.into_string();
    println!("stdout: {:?}", stdout);
    assert!(stdout.contains("t"));
}

#[test]
fn eval_file_not_exists() {
    let mut env = make_test_env(vec![
        "markdownsp",
        "-e",
        "(file-exists? \"nonexistent.md\")",
    ]);
    env.fs.add_directory("/");
    let result = markdownsp::bin(&mut env, &Functions).unwrap();
    assert_eq!(0, result.code());
    let stdout = env.stdout.into_string();
    println!("stdout: {:?}", stdout);
    assert!(stdout.contains("nil"));
}

#[test]
fn custom_directory() {
    let mut env = make_test_env(vec!["markdownsp", "-d", "/docs", "-e", "(list-files)"]);
    env.fs.add_directory("/");
    env.fs.add_directory("/docs");
    env.fs.add_file("/docs/guide.md", "# Guide");
    env.fs.add_file("/readme.md", "# Readme");
    let result = markdownsp::bin(&mut env, &Functions).unwrap();
    assert_eq!(0, result.code());
    let stdout = env.stdout.into_string();
    println!("stdout: {:?}", stdout);
    assert!(stdout.contains("guide.md"));
    assert!(!stdout.contains("readme.md"));
}

#[test]
fn inspect_fs_help_flag() {
    let mut env = make_test_env(vec!["inspect-fs", "-h"]);
    env.fs.add_directory("/");
    assert!(matches!(inspect_fs::bin(&mut env), inspect_fs::Action::Finish(0)));
    let stderr = env.stderr.into_string();
    println!("stderr: {:?}", stderr);
    assert!(stderr.contains("Usage:"));
    assert!(stderr.contains("fs-read"));
}
