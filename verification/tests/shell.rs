use eudaemonsh::builtins::{exit_bin, lookup_bin};
use eudaemonsh::env::{Error, ExitCode};
use eudaemonsh::host::Host;
use eudaemonsh::markdownsp::NoEvaluator;
use eudaemonsh::sh;
use eudaemonsh::env::{Environment, StringStdioIn, StringStdioOut};
use eudaemonsh::fs::{DirEntry, ErrorKind, FileType, Filesystem, FsError, IoError};
use eudaemonsh::vars::Vars;
use std::collections::BTreeMap;

/// A file, a directory or a symbolic link.
struct Node {
    file_type: FileType,
    /// What a file holds, or where a symbolic link leads.
    text: String,
}

/// A filesystem in memory.
struct TestFilesystem {
    names: BTreeMap<String, usize>,
    nodes: Vec<Node>,
    made: usize,
}

fn failure<T>(kind: ErrorKind, message: &str) -> Result<T, FsError> {
    Err(FsError::Io(IoError {
        kind,
        message: message.to_string(),
        details: format!("Custom {{ kind: {:?}, error: {:?} }}", kind, message),
    }))
}

fn missing<T>() -> Result<T, FsError> {
    failure(ErrorKind::NotFound, "No such file or directory")
}

fn parent_of(path: &str) -> String {
    match path.rfind('/') {
        Some(0) | None => "/".to_string(),
        Some(i) => path[..i].to_string(),
    }
}

#[allow(dead_code)]
impl TestFilesystem {
    fn new() -> Self {
        let mut names = BTreeMap::new();
        names.insert("/".to_string(), 0);
        let root = Node { file_type: FileType::Directory, text: String::new() };
        TestFilesystem { names, nodes: vec![root], made: 0 }
    }

    /// The place that a path leads to, with the symbolic links before its end followed, and the one
    /// at its end where `last` is set.
    fn place(&self, path: &str, last: bool) -> Option<String> {
        let mut rest: Vec<String> = path.split('/').rev().map(|s| s.to_string()).collect();
        let mut at: Vec<String> = Vec::new();
        let mut links = 0;
        while let Some(step) = rest.pop() {
            if step.is_empty() || step == "." {
                continue;
            }
            if step == ".." {
                at.pop();
                continue;
            }
            at.push(step);
            let here = format!("/{}", at.join("/"));
            let done = rest.iter().all(|s| s.is_empty());
            if let Some(&n) = self.names.get(&here) {
                if self.nodes[n].file_type == FileType::Symlink && (last || !done) {
                    links += 1;
                    if links > 40 {
                        return None;
                    }
                    at.pop();
                    let target = self.nodes[n].text.clone();
                    if target.starts_with('/') {
                        at.clear();
                    }
                    for step in target.split('/').rev() {
                        rest.push(step.to_string());
                    }
                }
            }
        }
        Some(format!("/{}", at.join("/")))
    }

    fn node(&self, path: &str, last: bool) -> Option<usize> {
        let place = self.place(path, last)?;
        self.names.get(&place).copied()
    }

    fn put(&mut self, place: String, file_type: FileType, text: &str) {
        self.nodes.push(Node { file_type, text: text.to_string() });
        self.names.insert(place, self.nodes.len() - 1);
    }

    fn holds_dir(&self, place: &str) -> bool {
        match self.names.get(place) {
            Some(&n) => self.nodes[n].file_type == FileType::Directory,
            None => false,
        }
    }

    fn entry(&self, n: usize) -> DirEntry {
        DirEntry {
            file_type: self.nodes[n].file_type,
            size: if self.nodes[n].file_type == FileType::Directory {
                1
            } else {
                self.nodes[n].text.len() as u64
            },
            dev: 1,
            ino: n as u64,
        }
    }

    fn add_directory(&mut self, path: &str) {
        let place = self.place(path, true).unwrap();
        if place != "/" && !self.names.contains_key(&place) {
            self.add_directory(&parent_of(&place));
            self.put(place, FileType::Directory, "");
        }
    }

    fn mkdir_all(&mut self, path: &str) -> Result<(), FsError> {
        self.add_directory(path);
        Ok(())
    }

    fn add_file(&mut self, path: &str, text: &str) {
        let place = self.place(path, true).unwrap();
        self.add_directory(&parent_of(&place));
        self.write_string(&place, text).unwrap();
    }

    fn make_temp(&mut self, template: &str, file_type: FileType) -> Result<String, FsError> {
        let stem = template.trim_end_matches('X');
        self.made += 1;
        let name = format!("{}{:0width$}", stem, self.made, width = template.len() - stem.len());
        let place = self.place(&name, true).unwrap();
        if !self.holds_dir(&parent_of(&place)) {
            return missing();
        }
        self.put(place, file_type, "");
        Ok(name)
    }
}

impl Filesystem for TestFilesystem {
    fn read_to_string(&mut self, path: &str) -> Result<String, FsError> {
        match self.node(path, true) {
            None => missing(),
            Some(n) => match self.nodes[n].file_type {
                FileType::Directory => failure(ErrorKind::IsADirectory, "Is a directory"),
                _ => Ok(self.nodes[n].text.clone()),
            },
        }
    }

    fn write_string(&mut self, path: &str, text: &str) -> Result<(), FsError> {
        let place = match self.place(path, true) {
            Some(place) => place,
            None => return missing(),
        };
        match self.names.get(&place) {
            Some(&n) => match self.nodes[n].file_type {
                FileType::Directory => failure(ErrorKind::IsADirectory, "Is a directory"),
                _ => {
                    self.nodes[n].text = text.to_string();
                    Ok(())
                }
            },
            None => {
                if !self.holds_dir(&parent_of(&place)) {
                    return missing();
                }
                self.put(place, FileType::RegularFile, text);
                Ok(())
            }
        }
    }

    fn path_exists(&mut self, path: &str) -> bool {
        self.node(path, true).is_some()
    }

    fn is_dir(&mut self, path: &str) -> bool {
        match self.node(path, true) {
            Some(n) => self.nodes[n].file_type == FileType::Directory,
            None => false,
        }
    }

    fn stat(&mut self, path: &str) -> Result<DirEntry, FsError> {
        match self.node(path, true) {
            Some(n) => Ok(self.entry(n)),
            None => missing(),
        }
    }

    fn lstat(&mut self, path: &str) -> Result<DirEntry, FsError> {
        match self.node(path, false) {
            Some(n) => Ok(self.entry(n)),
            None => missing(),
        }
    }

    fn read_dir(&mut self, path: &str) -> Result<Vec<(String, DirEntry)>, FsError> {
        let place = match self.place(path, true) {
            Some(place) => place,
            None => return missing(),
        };
        if !self.names.contains_key(&place) {
            return missing();
        }
        if !self.holds_dir(&place) {
            return failure(ErrorKind::NotADirectory, "Not a directory");
        }
        let mut found = Vec::new();
        for (name, &n) in &self.names {
            if name != "/" && parent_of(name) == place {
                let base = name.rsplit('/').next().unwrap().to_string();
                found.push((base, self.entry(n)));
            }
        }
        Ok(found)
    }

    fn mkdir(&mut self, path: &str) -> Result<(), FsError> {
        let place = self.place(path, true).unwrap();
        if self.names.contains_key(&place) {
            return failure(ErrorKind::AlreadyExists, "File exists");
        }
        if !self.holds_dir(&parent_of(&place)) {
            return missing();
        }
        self.put(place, FileType::Directory, "");
        Ok(())
    }

    fn rmdir(&mut self, path: &str) -> Result<(), FsError> {
        let place = self.place(path, false).unwrap();
        if !self.names.contains_key(&place) {
            return missing();
        }
        if !self.holds_dir(&place) {
            return failure(ErrorKind::NotADirectory, "Not a directory");
        }
        if self.names.keys().any(|name| name != "/" && parent_of(name) == place) {
            return failure(ErrorKind::DirectoryNotEmpty, "Directory not empty");
        }
        self.names.remove(&place);
        Ok(())
    }

    fn unlink(&mut self, path: &str) -> Result<(), FsError> {
        let place = self.place(path, false).unwrap();
        if !self.names.contains_key(&place) {
            return missing();
        }
        if self.holds_dir(&place) {
            return failure(ErrorKind::IsADirectory, "Is a directory");
        }
        self.names.remove(&place);
        Ok(())
    }

    fn link(&mut self, from: &str, to: &str) -> Result<(), FsError> {
        let n = match self.node(from, true) {
            Some(n) => n,
            None => return missing(),
        };
        let place = self.place(to, false).unwrap();
        if self.names.contains_key(&place) {
            return failure(ErrorKind::AlreadyExists, "File exists");
        }
        if !self.holds_dir(&parent_of(&place)) {
            return missing();
        }
        self.names.insert(place, n);
        Ok(())
    }

    fn symlink(&mut self, from: &str, to: &str) -> Result<(), FsError> {
        let place = self.place(to, false).unwrap();
        if self.names.contains_key(&place) {
            return failure(ErrorKind::AlreadyExists, "File exists");
        }
        if !self.holds_dir(&parent_of(&place)) {
            return missing();
        }
        self.put(place, FileType::Symlink, from);
        Ok(())
    }

    fn readlink(&mut self, path: &str) -> Result<String, FsError> {
        match self.node(path, false) {
            None => missing(),
            Some(n) => match self.nodes[n].file_type {
                FileType::Symlink => Ok(self.nodes[n].text.clone()),
                _ => failure(ErrorKind::InvalidInput, "Invalid argument"),
            },
        }
    }

    fn mkstemp(&mut self, template: &str) -> Result<String, FsError> {
        self.make_temp(template, FileType::RegularFile)
    }

    fn mkdtemp(&mut self, template: &str) -> Result<String, FsError> {
        self.make_temp(template, FileType::Directory)
    }
}

#[allow(dead_code)]
fn make_test_env(args: Vec<&str>) -> Environment<TestFilesystem> {
    make_test_env_with_stdin(args, "")
}

fn make_test_env_with_stdin(args: Vec<&str>, stdin: &str) -> Environment<TestFilesystem> {
    Environment {
        stdin: StringStdioIn::new(stdin),
        stdout: StringStdioOut::new(),
        stderr: StringStdioOut::new(),
        merged: false,
        fs: TestFilesystem::new(),
        env: Vars::new(),
        vars: Vars::new(),
        args: args.into_iter().map(|s| s.to_string()).collect(),
        cwd: "/".to_string(),
        seed: 7,
        exit_signaled: false,
    }
}

/// Builds the environment of a test.
#[allow(dead_code)]
struct TestEnvBuilder {
    env: Environment<TestFilesystem>,
}

#[allow(dead_code)]
impl TestEnvBuilder {
    fn new() -> Self {
        TestEnvBuilder { env: make_test_env(vec![]) }
    }

    fn args(mut self, args: Vec<&str>) -> Self {
        self.env.args = args.into_iter().map(|s| s.to_string()).collect();
        self
    }

    fn cwd(mut self, cwd: &str) -> Self {
        self.env.cwd = cwd.to_string();
        self
    }

    fn env_var(mut self, name: &str, value: &str) -> Self {
        self.env.env.insert(name, value);
        self
    }

    fn build(self) -> Environment<TestFilesystem> {
        self.env
    }
}

/// Where the number that a text writes stands among all numbers, times a power of 1024.
#[allow(dead_code)]
fn num(text: &str, power: u32) -> Option<i64> {
    let mut n: f64 = text.parse().unwrap_or(0.0);
    for _ in 0..power {
        n *= 1024.0;
    }
    if n.is_nan() {
        return None;
    }
    let n = if n == 0.0 { 0.0 } else { n };
    let bits = n.to_bits() as i64;
    Some(if bits < 0 { i64::MIN.wrapping_sub(bits) } else { bits })
}

/// A host that knows no expressions.
const HOST: Host<fn(&str, u32) -> Option<i64>, NoEvaluator> = Host { num, eval: NoEvaluator };

fn run(command: String, env: &mut Environment<TestFilesystem>) -> Result<ExitCode, Error> {
    sh::run(command, env, &HOST)
}

fn run_string(script: &str, env: &mut Environment<TestFilesystem>) -> Result<ExitCode, Error> {
    sh::run_string(script, env, &HOST)
}

#[test]
fn exit_no_args_returns_zero() {
    let mut env = make_test_env(vec!["exit"]);
    let result = exit_bin(&mut env).unwrap();
    assert_eq!(0, result.code());
    assert!(env.is_exit_signaled());
}

#[test]
fn exit_zero_returns_zero() {
    let mut env = make_test_env(vec!["exit", "0"]);
    let result = exit_bin(&mut env).unwrap();
    assert_eq!(0, result.code());
    assert!(env.is_exit_signaled());
}

#[test]
fn exit_one_returns_one() {
    let mut env = make_test_env(vec!["exit", "1"]);
    let result = exit_bin(&mut env).unwrap();
    assert_eq!(1, result.code());
    assert!(env.is_exit_signaled());
}

#[test]
fn exit_42_returns_42() {
    let mut env = make_test_env(vec!["exit", "42"]);
    let result = exit_bin(&mut env).unwrap();
    assert_eq!(42, result.code());
    assert!(env.is_exit_signaled());
}

#[test]
fn exit_negative_returns_negative() {
    let mut env = make_test_env(vec!["exit", "-1"]);
    let result = exit_bin(&mut env).unwrap();
    assert_eq!(-1, result.code());
    assert!(env.is_exit_signaled());
}

#[test]
fn exit_127_returns_127() {
    let mut env = make_test_env(vec!["exit", "127"]);
    let result = exit_bin(&mut env).unwrap();
    assert_eq!(127, result.code());
    assert!(env.is_exit_signaled());
}

#[test]
fn exit_non_numeric_returns_error() {
    let mut env = make_test_env(vec!["exit", "abc"]);
    let result = exit_bin(&mut env).unwrap();
    assert_eq!(2, result.code());
    assert!(!env.is_exit_signaled());
    let stderr = env.stderr.into_string();
    println!("stderr: {:?}", stderr);
    assert!(stderr.contains("numeric argument required"));
    assert!(stderr.contains("abc"));
}

#[test]
fn exit_empty_string_returns_error() {
    let mut env = make_test_env(vec!["exit", ""]);
    let result = exit_bin(&mut env).unwrap();
    assert_eq!(2, result.code());
    assert!(!env.is_exit_signaled());
}

#[test]
fn exit_overflow_returns_error() {
    let mut env = make_test_env(vec!["exit", "999"]);
    let result = exit_bin(&mut env).unwrap();
    assert_eq!(2, result.code());
    assert!(!env.is_exit_signaled());
    let stderr = env.stderr.into_string();
    println!("stderr: {:?}", stderr);
    assert!(stderr.contains("numeric argument required"));
}

#[test]
fn exit_extra_args_ignored() {
    let mut env = make_test_env(vec!["exit", "5", "extra", "args"]);
    let result = exit_bin(&mut env).unwrap();
    assert_eq!(5, result.code());
    assert!(env.is_exit_signaled());
}

#[test]
fn true_returns_zero() {
    let mut env = make_test_env(vec!["true"]);
    let bin =
        lookup_bin("true")
            .unwrap();
    let result = sh::run_builtin(bin, &mut env, &HOST).unwrap();
    assert_eq!(0, result.code());
}

#[test]
fn true_with_args_returns_zero() {
    let mut env = make_test_env(vec!["true", "ignored", "arguments"]);
    let bin =
        lookup_bin("true")
            .unwrap();
    let result = sh::run_builtin(bin, &mut env, &HOST).unwrap();
    assert_eq!(0, result.code());
}

#[test]
fn true_via_path_returns_zero() {
    let mut env = make_test_env(vec!["/bin/true"]);
    let bin = lookup_bin("/bin/true")
    .unwrap();
    let result = sh::run_builtin(bin, &mut env, &HOST).unwrap();
    assert_eq!(0, result.code());
}

#[test]
fn true_produces_no_output() {
    let mut env = make_test_env(vec!["true"]);
    let bin =
        lookup_bin("true")
            .unwrap();
    let _ = sh::run_builtin(bin, &mut env, &HOST).unwrap();
    assert_eq!("", env.stdout.into_string());
    assert_eq!("", env.stderr.into_string());
}

#[test]
fn false_returns_one() {
    let mut env = make_test_env(vec!["false"]);
    let bin =
        lookup_bin("false")
            .unwrap();
    let result = sh::run_builtin(bin, &mut env, &HOST).unwrap();
    assert_eq!(1, result.code());
}

#[test]
fn false_with_args_returns_one() {
    let mut env = make_test_env(vec!["false", "ignored", "arguments"]);
    let bin =
        lookup_bin("false")
            .unwrap();
    let result = sh::run_builtin(bin, &mut env, &HOST).unwrap();
    assert_eq!(1, result.code());
}

#[test]
fn false_via_path_returns_one() {
    let mut env = make_test_env(vec!["/bin/false"]);
    let bin = lookup_bin("/bin/false")
    .unwrap();
    let result = sh::run_builtin(bin, &mut env, &HOST).unwrap();
    assert_eq!(1, result.code());
}

#[test]
fn false_produces_no_output() {
    let mut env = make_test_env(vec!["false"]);
    let bin =
        lookup_bin("false")
            .unwrap();
    let _ = sh::run_builtin(bin, &mut env, &HOST).unwrap();
    assert_eq!("", env.stdout.into_string());
    assert_eq!("", env.stderr.into_string());
}

#[test]
fn lookup_exit() {
    let result =
        lookup_bin("exit");
    assert!(result.is_ok());
}

#[test]
fn lookup_true() {
    let result =
        lookup_bin("true");
    assert!(result.is_ok());
}

#[test]
fn lookup_false() {
    let result =
        lookup_bin("false");
    assert!(result.is_ok());
}

#[test]
fn lookup_unknown_returns_error() {
    let result = lookup_bin("nonexistent");
    assert!(matches!(result, Err(Error::UnknownBinary(_))));
}

#[test]
fn mod_no_args_shows_usage() {
    let mut env = make_test_env(vec!["sh"]);
    let result = sh::bin(&mut env, &HOST).unwrap();
    assert_eq!(2, result.code());
    assert!(env.stderr.into_string().contains("usage"));
}

#[test]
fn c_flag_requires_command() {
    let mut env = make_test_env(vec!["sh", "-c"]);
    let result = sh::bin(&mut env, &HOST).unwrap();
    assert_eq!(2, result.code());
    assert!(env.stderr.into_string().contains("requires an argument"));
}

#[test]
fn c_flag_runs_cat() {
    let mut env = make_test_env(vec!["sh", "-c", "cat file.txt"]);
    env.fs.add_file("file.txt", "hello world\n");
    let result = sh::bin(&mut env, &HOST).unwrap();
    // Print stdout/stderr for debugging
    println!("stdout: {:?}", env.stdout.into_string());
    println!("stderr: {:?}", env.stderr.into_string());
    assert_eq!(0, result.code());
    assert_eq!("hello world\n", env.stdout.into_string());
}

#[test]
fn script_file_not_found() {
    let mut env = make_test_env(vec!["sh", "nonexistent.sh"]);
    let result = sh::bin(&mut env, &HOST).unwrap();
    assert_eq!(127, result.code());
    assert!(env.stderr.into_string().contains("nonexistent.sh"));
}

#[test]
fn script_file_runs() {
    let mut env = make_test_env(vec!["sh", "test.sh"]);
    env.fs.add_file("test.sh", "cat a.txt\ncat b.txt");
    env.fs.add_file("a.txt", "hello\n");
    env.fs.add_file("b.txt", "world\n");
    let result = sh::bin(&mut env, &HOST).unwrap();
    // Print stdout/stderr for debugging
    println!("stdout: {:?}", env.stdout.into_string());
    println!("stderr: {:?}", env.stderr.into_string());
    assert_eq!(0, result.code());
    assert_eq!("hello\nworld\n", env.stdout.into_string());
}

#[test]
fn script_file_skips_comments_and_blanks() {
    let mut env = make_test_env(vec!["sh", "test.sh"]);
    env.fs.add_file(
        "test.sh",
        "# comment\n\ncat a.txt\n  # indented comment\n\ncat b.txt\n",
    );
    env.fs.add_file("a.txt", "hello\n");
    env.fs.add_file("b.txt", "world\n");
    let result = sh::bin(&mut env, &HOST).unwrap();
    assert_eq!(0, result.code());
    assert_eq!("hello\nworld\n", env.stdout.into_string());
}

#[test]
fn run_cat() {
    let mut env = make_test_env(vec!["unused"]);
    env.fs.add_file("test.txt", "hello\n");
    let result = run("cat test.txt".to_string(), &mut env).unwrap();
    assert_eq!(0, result.code());
    assert_eq!("hello\n", env.stdout.into_string());
}

#[test]
fn run_empty_command() {
    let mut env = make_test_env(vec!["unused"]);
    let result = run("".to_string(), &mut env);
    println!("result: {:?}", result);
    assert!(matches!(result, Err(Error::EmptyCommand)));
}

#[test]
fn run_unknown_binary() {
    let mut env = make_test_env(vec!["unused"]);
    let result = run("nonexistent".to_string(), &mut env);
    assert!(matches!(result, Err(Error::UnknownBinary(_))));
}

#[test]
fn run_string_empty_script() {
    let mut env = make_test_env(vec!["unused"]);
    let result = run_string("", &mut env).unwrap();
    assert_eq!(0, result.code());
}

#[test]
fn run_string_comment_only() {
    let mut env = make_test_env(vec!["unused"]);
    let result = run_string("# just a comment", &mut env).unwrap();
    assert_eq!(0, result.code());
}

#[test]
fn run_string_shebang_only() {
    let mut env = make_test_env(vec!["unused"]);
    let result = run_string("#!/bin/sh", &mut env).unwrap();
    assert_eq!(0, result.code());
}

#[test]
fn run_string_single_command() {
    let mut env = make_test_env(vec!["unused"]);
    env.fs.add_file("test.txt", "hello\n");
    let result = run_string("cat test.txt", &mut env).unwrap();
    assert_eq!(0, result.code());
    assert_eq!("hello\n", env.stdout.into_string());
}

#[test]
fn run_string_multiple_commands() {
    let mut env = make_test_env(vec!["unused"]);
    env.fs.add_file("a.txt", "aaa\n");
    env.fs.add_file("b.txt", "bbb\n");
    let result = run_string("cat a.txt\ncat b.txt", &mut env).unwrap();
    assert_eq!(0, result.code());
    assert_eq!("aaa\nbbb\n", env.stdout.into_string());
}

#[test]
fn run_string_skips_blank_lines() {
    let mut env = make_test_env(vec!["unused"]);
    env.fs.add_file("a.txt", "aaa\n");
    let result = run_string("\n\ncat a.txt\n\n", &mut env).unwrap();
    assert_eq!(0, result.code());
    assert_eq!("aaa\n", env.stdout.into_string());
}

#[test]
fn run_string_skips_comments() {
    let mut env = make_test_env(vec!["unused"]);
    env.fs.add_file("a.txt", "aaa\n");
    let result = run_string("# comment\ncat a.txt\n# another comment", &mut env).unwrap();
    assert_eq!(0, result.code());
    assert_eq!("aaa\n", env.stdout.into_string());
}

#[test]
fn run_string_with_shebang() {
    let mut env = make_test_env(vec!["unused"]);
    env.fs.add_file("a.txt", "aaa\n");
    let result = run_string("#!/bin/sh\ncat a.txt", &mut env).unwrap();
    assert_eq!(0, result.code());
    assert_eq!("aaa\n", env.stdout.into_string());
}

#[test]
fn run_string_returns_last_exit_code() {
    let mut env = make_test_env(vec!["unused"]);
    env.fs.add_file("a.txt", "aaa\n");
    let result = run_string("cat a.txt\ncat nonexistent.txt", &mut env).unwrap();
    assert_eq!(1, result.code());
}

#[test]
fn exit_terminates_script() {
    let mut env = make_test_env(vec!["unused"]);
    let result = run_string("exit 0\necho should_not_appear", &mut env).unwrap();
    assert_eq!(0, result.code());
    assert_eq!("", env.stdout.into_string());
}

#[test]
fn exit_with_code_terminates_script() {
    let mut env = make_test_env(vec!["unused"]);
    let result = run_string("exit 42\necho should_not_appear", &mut env).unwrap();
    assert_eq!(42, result.code());
    assert_eq!("", env.stdout.into_string());
}

#[test]
fn exit_terminates_after_other_commands() {
    let mut env = make_test_env(vec!["unused"]);
    let result = run_string("echo before\nexit 5\necho after", &mut env).unwrap();
    assert_eq!(5, result.code());
    assert_eq!("before\n", env.stdout.into_string());
}

#[test]
fn exit_in_middle_of_script() {
    let mut env = make_test_env(vec!["unused"]);
    env.fs.add_file("a.txt", "aaa\n");
    env.fs.add_file("b.txt", "bbb\n");
    let result = run_string("cat a.txt\nexit 3\ncat b.txt", &mut env).unwrap();
    assert_eq!(3, result.code());
    assert_eq!("aaa\n", env.stdout.into_string());
}

#[test]
fn true_script_exits_zero() {
    let mut env = make_test_env(vec!["unused"]);
    let result = run_string("#!/bin/sh\nexit 0", &mut env).unwrap();
    assert_eq!(0, result.code());
}

#[test]
fn false_script_exits_one() {
    let mut env = make_test_env(vec!["unused"]);
    let result = run_string("#!/bin/sh\nexit 1", &mut env).unwrap();
    assert_eq!(1, result.code());
}

#[test]
fn multiple_exits_uses_first() {
    let mut env = make_test_env(vec!["unused"]);
    let result = run_string("exit 7\nexit 8\nexit 9", &mut env).unwrap();
    assert_eq!(7, result.code());
}

#[test]
fn exit_signal_persists() {
    let mut env = make_test_env(vec!["unused"]);
    assert!(!env.is_exit_signaled());
    let _ = run_string("exit 0", &mut env).unwrap();
    assert!(env.is_exit_signaled());
}

#[test]
fn and_chain_both_succeed() {
    let mut env = make_test_env(vec!["unused"]);
    let result = run("true && echo success".to_string(), &mut env).unwrap();
    let stdout = env.stdout.into_string();
    let stderr = env.stderr.into_string();
    println!("stdout: {:?}", stdout);
    println!("stderr: {:?}", stderr);
    assert_eq!(0, result.code());
    assert_eq!("success\n", stdout);
}

#[test]
fn and_chain_first_fails() {
    let mut env = make_test_env(vec!["unused"]);
    let result = run("false && echo should_not_appear".to_string(), &mut env).unwrap();
    let stdout = env.stdout.into_string();
    let stderr = env.stderr.into_string();
    println!("stdout: {:?}", stdout);
    println!("stderr: {:?}", stderr);
    assert_eq!(1, result.code());
    assert_eq!("", stdout);
}

#[test]
fn or_chain_first_succeeds() {
    let mut env = make_test_env(vec!["unused"]);
    let result = run("true || echo should_not_appear".to_string(), &mut env).unwrap();
    let stdout = env.stdout.into_string();
    let stderr = env.stderr.into_string();
    println!("stdout: {:?}", stdout);
    println!("stderr: {:?}", stderr);
    assert_eq!(0, result.code());
    assert_eq!("", stdout);
}

#[test]
fn or_chain_first_fails() {
    let mut env = make_test_env(vec!["unused"]);
    let result = run("false || echo fallback".to_string(), &mut env).unwrap();
    let stdout = env.stdout.into_string();
    let stderr = env.stderr.into_string();
    println!("stdout: {:?}", stdout);
    println!("stderr: {:?}", stderr);
    assert_eq!(0, result.code());
    assert_eq!("fallback\n", stdout);
}

#[test]
fn multiple_and_chain() {
    let mut env = make_test_env(vec!["unused"]);
    let result = run("true && echo one && echo two".to_string(), &mut env).unwrap();
    let stdout = env.stdout.into_string();
    let stderr = env.stderr.into_string();
    println!("stdout: {:?}", stdout);
    println!("stderr: {:?}", stderr);
    assert_eq!(0, result.code());
    assert_eq!("one\ntwo\n", stdout);
}

#[test]
fn and_chain_stops_on_failure() {
    let mut env = make_test_env(vec!["unused"]);
    let result = run(
        "true && false && echo should_not_appear".to_string(),
        &mut env,
    )
    .unwrap();
    let stdout = env.stdout.into_string();
    let stderr = env.stderr.into_string();
    println!("stdout: {:?}", stdout);
    println!("stderr: {:?}", stderr);
    assert_eq!(1, result.code());
    assert_eq!("", stdout);
}

#[test]
fn mixed_and_or_chain() {
    let mut env = make_test_env(vec!["unused"]);
    let result = run(
        "false || echo fallback && echo then_this".to_string(),
        &mut env,
    )
    .unwrap();
    let stdout = env.stdout.into_string();
    let stderr = env.stderr.into_string();
    println!("stdout: {:?}", stdout);
    println!("stderr: {:?}", stderr);
    assert_eq!(0, result.code());
    assert_eq!("fallback\nthen_this\n", stdout);
}

#[test]
fn semicolon_separates_commands() {
    let mut env = make_test_env(vec!["unused"]);
    let result = run("echo first ; echo second".to_string(), &mut env).unwrap();
    let stdout = env.stdout.into_string();
    let stderr = env.stderr.into_string();
    println!("stdout: {:?}", stdout);
    println!("stderr: {:?}", stderr);
    assert_eq!(0, result.code());
    assert_eq!("first\nsecond\n", stdout);
}

#[test]
fn semicolon_runs_after_failure() {
    let mut env = make_test_env(vec!["unused"]);
    let result = run("false ; echo still_runs".to_string(), &mut env).unwrap();
    let stdout = env.stdout.into_string();
    let stderr = env.stderr.into_string();
    println!("stdout: {:?}", stdout);
    println!("stderr: {:?}", stderr);
    assert_eq!(0, result.code());
    assert_eq!("still_runs\n", stdout);
}

#[test]
fn multiple_semicolons() {
    let mut env = make_test_env(vec!["unused"]);
    let result = run("echo one ; echo two ; echo three".to_string(), &mut env).unwrap();
    let stdout = env.stdout.into_string();
    let stderr = env.stderr.into_string();
    println!("stdout: {:?}", stdout);
    println!("stderr: {:?}", stderr);
    assert_eq!(0, result.code());
    assert_eq!("one\ntwo\nthree\n", stdout);
}

#[test]
fn semicolon_with_and_chain() {
    let mut env = make_test_env(vec!["unused"]);
    let result = run("echo first ; true && echo second".to_string(), &mut env).unwrap();
    let stdout = env.stdout.into_string();
    let stderr = env.stderr.into_string();
    println!("stdout: {:?}", stdout);
    println!("stderr: {:?}", stderr);
    assert_eq!(0, result.code());
    assert_eq!("first\nsecond\n", stdout);
}

#[test]
fn and_with_pwd() {
    let mut env = make_test_env(vec!["unused"]);
    let result = run("pwd && echo done".to_string(), &mut env).unwrap();
    let stdout = env.stdout.into_string();
    let stderr = env.stderr.into_string();
    println!("stdout: {:?}", stdout);
    println!("stderr: {:?}", stderr);
    assert_eq!(0, result.code());
    assert_eq!("/\ndone\n", stdout);
}

#[test]
fn pipe_echo_to_cat() {
    let mut env = make_test_env(vec!["unused"]);
    let result = run("echo hello | cat".to_string(), &mut env).unwrap();
    let stdout = env.stdout.into_string();
    let stderr = env.stderr.into_string();
    println!("stdout: {:?}", stdout);
    println!("stderr: {:?}", stderr);
    assert_eq!(0, result.code());
    assert_eq!("hello\n", stdout);
}

#[test]
fn pipe_echo_quoted_to_cat() {
    // Test case from log: echo "test" | cat
    let mut env = make_test_env(vec!["unused"]);
    let result = run(r#"echo "test" | cat"#.to_string(), &mut env).unwrap();
    let stdout = env.stdout.into_string();
    let stderr = env.stderr.into_string();
    println!("stdout: {:?}", stdout);
    println!("stderr: {:?}", stderr);
    assert_eq!(0, result.code());
    assert_eq!("test\n", stdout);
}

#[test]
fn pipe_three_commands() {
    let mut env = make_test_env(vec!["unused"]);
    env.fs.add_file("test.txt", "cherry\napple\nbanana\n");
    let result = run("cat test.txt | sort | head -n 2".to_string(), &mut env).unwrap();
    let stdout = env.stdout.into_string();
    let stderr = env.stderr.into_string();
    println!("stdout: {:?}", stdout);
    println!("stderr: {:?}", stderr);
    assert_eq!(0, result.code());
    assert_eq!("apple\nbanana\n", stdout);
}

#[test]
fn pipe_with_grep() {
    let mut env = make_test_env(vec!["unused"]);
    env.fs
        .add_file("test.txt", "apple\nbanana\napricot\ncherry\n");
    let result = run("cat test.txt | grep ap".to_string(), &mut env).unwrap();
    let stdout = env.stdout.into_string();
    let stderr = env.stderr.into_string();
    println!("stdout: {:?}", stdout);
    println!("stderr: {:?}", stderr);
    assert_eq!(0, result.code());
    assert_eq!("apple\napricot\n", stdout);
}

#[test]
fn pipe_combined_with_and() {
    let mut env = make_test_env(vec!["unused"]);
    let result = run("echo hello | cat && echo done".to_string(), &mut env).unwrap();
    let stdout = env.stdout.into_string();
    let stderr = env.stderr.into_string();
    println!("stdout: {:?}", stdout);
    println!("stderr: {:?}", stderr);
    assert_eq!(0, result.code());
    assert_eq!("hello\ndone\n", stdout);
}

#[test]
fn pipe_exit_code_from_last_command() {
    let mut env = make_test_env(vec!["unused"]);
    let result = run("echo hello | false".to_string(), &mut env).unwrap();
    let stdout = env.stdout.into_string();
    let stderr = env.stderr.into_string();
    println!("stdout: {:?}", stdout);
    println!("stderr: {:?}", stderr);
    assert_eq!(1, result.code());
}

#[test]
fn redirect_echo_to_file() {
    let mut env = make_test_env(vec!["unused"]);
    let result = run("echo hello > /output.txt".to_string(), &mut env).unwrap();
    let stdout = env.stdout.into_string();
    let stderr = env.stderr.into_string();
    println!("stdout: {:?}", stdout);
    println!("stderr: {:?}", stderr);
    assert_eq!(0, result.code());
    assert_eq!("", stdout);
    let contents = env.fs.read_to_string("/output.txt").unwrap();
    assert_eq!("hello\n", contents);
}

#[test]
fn redirect_cat_to_file() {
    let mut env = make_test_env(vec!["unused"]);
    env.fs.add_file("/input.txt", "file contents\n");
    let result = run("cat /input.txt > /output.txt".to_string(), &mut env).unwrap();
    let stdout = env.stdout.into_string();
    let stderr = env.stderr.into_string();
    println!("stdout: {:?}", stdout);
    println!("stderr: {:?}", stderr);
    assert_eq!(0, result.code());
    assert_eq!("", stdout);
    let contents = env.fs.read_to_string("/output.txt").unwrap();
    assert_eq!("file contents\n", contents);
}

#[test]
fn redirect_pipeline_to_file() {
    let mut env = make_test_env(vec!["unused"]);
    env.fs.add_file("/input.txt", "cherry\napple\nbanana\n");
    let result = run("cat /input.txt | sort > /output.txt".to_string(), &mut env).unwrap();
    let stdout = env.stdout.into_string();
    let stderr = env.stderr.into_string();
    println!("stdout: {:?}", stdout);
    println!("stderr: {:?}", stderr);
    assert_eq!(0, result.code());
    assert_eq!("", stdout);
    let contents = env.fs.read_to_string("/output.txt").unwrap();
    assert_eq!("apple\nbanana\ncherry\n", contents);
}

#[test]
fn redirect_with_and_chain() {
    let mut env = make_test_env(vec!["unused"]);
    let result = run(
        "echo hello > /output.txt && echo done".to_string(),
        &mut env,
    )
    .unwrap();
    let stdout = env.stdout.into_string();
    let stderr = env.stderr.into_string();
    println!("stdout: {:?}", stdout);
    println!("stderr: {:?}", stderr);
    assert_eq!(0, result.code());
    assert_eq!("done\n", stdout);
    let contents = env.fs.read_to_string("/output.txt").unwrap();
    assert_eq!("hello\n", contents);
}

#[test]
fn redirect_no_target_is_error() {
    let mut env = make_test_env(vec!["unused"]);
    let result = run("echo hello >".to_string(), &mut env);
    println!("result: {:?}", result);
    assert!(result.is_err());
}

#[test]
fn redirect_relative_path() {
    let mut env = TestEnvBuilder::new().cwd("/tmp").build();
    env.fs.mkdir("/tmp").unwrap();
    let result = run("echo hello > output.txt".to_string(), &mut env).unwrap();
    let stdout = env.stdout.into_string();
    let stderr = env.stderr.into_string();
    println!("stdout: {:?}", stdout);
    println!("stderr: {:?}", stderr);
    assert_eq!(0, result.code());
    let contents = env.fs.read_to_string("/tmp/output.txt").unwrap();
    assert_eq!("hello\n", contents);
}

#[test]
fn redirect_no_space_before_filename() {
    // Bug 1 reproduction: echo "test" > /tmp/test.txt with >file (no space)
    let mut env = make_test_env(vec!["unused"]);
    let result = run("echo hello >/output.txt".to_string(), &mut env).unwrap();
    let stdout = env.stdout.into_string();
    let stderr = env.stderr.into_string();
    println!("stdout: {:?}", stdout);
    println!("stderr: {:?}", stderr);
    assert_eq!(0, result.code());
    assert_eq!("", stdout);
    let contents = env.fs.read_to_string("/output.txt").unwrap();
    assert_eq!("hello\n", contents);
}

#[test]
fn append_redirect_with_space() {
    // Bug 2 reproduction: echo "append" >> /tmp/test.txt
    let mut env = make_test_env(vec!["unused"]);
    env.fs.add_file("/output.txt", "first\n");
    let result = run("echo second >> /output.txt".to_string(), &mut env).unwrap();
    let stdout = env.stdout.into_string();
    let stderr = env.stderr.into_string();
    println!("stdout: {:?}", stdout);
    println!("stderr: {:?}", stderr);
    assert_eq!(0, result.code());
    assert_eq!("", stdout);
    let contents = env.fs.read_to_string("/output.txt").unwrap();
    assert_eq!("first\nsecond\n", contents);
}

#[test]
fn append_redirect_no_space() {
    let mut env = make_test_env(vec!["unused"]);
    env.fs.add_file("/output.txt", "first\n");
    let result = run("echo second >>/output.txt".to_string(), &mut env).unwrap();
    let stdout = env.stdout.into_string();
    let stderr = env.stderr.into_string();
    println!("stdout: {:?}", stdout);
    println!("stderr: {:?}", stderr);
    assert_eq!(0, result.code());
    assert_eq!("", stdout);
    let contents = env.fs.read_to_string("/output.txt").unwrap();
    assert_eq!("first\nsecond\n", contents);
}

#[test]
fn append_redirect_creates_file() {
    let mut env = make_test_env(vec!["unused"]);
    let result = run("echo hello >> /output.txt".to_string(), &mut env).unwrap();
    let stdout = env.stdout.into_string();
    let stderr = env.stderr.into_string();
    println!("stdout: {:?}", stdout);
    println!("stderr: {:?}", stderr);
    assert_eq!(0, result.code());
    let contents = env.fs.read_to_string("/output.txt").unwrap();
    assert_eq!("hello\n", contents);
}

#[test]
fn append_redirect_multiple_times() {
    let mut env = make_test_env(vec!["unused"]);
    let _ = run("echo one >> /output.txt".to_string(), &mut env).unwrap();
    let _ = run("echo two >> /output.txt".to_string(), &mut env).unwrap();
    let _ = run("echo three >> /output.txt".to_string(), &mut env).unwrap();
    let contents = env.fs.read_to_string("/output.txt").unwrap();
    assert_eq!("one\ntwo\nthree\n", contents);
}

#[test]
fn append_redirect_in_pipeline() {
    let mut env = make_test_env(vec!["unused"]);
    env.fs.add_file("/input.txt", "cherry\napple\nbanana\n");
    env.fs.add_file("/output.txt", "header\n");
    let result = run("cat /input.txt | sort >> /output.txt".to_string(), &mut env).unwrap();
    let stdout = env.stdout.into_string();
    let stderr = env.stderr.into_string();
    println!("stdout: {:?}", stdout);
    println!("stderr: {:?}", stderr);
    assert_eq!(0, result.code());
    let contents = env.fs.read_to_string("/output.txt").unwrap();
    assert_eq!("header\napple\nbanana\ncherry\n", contents);
}

#[test]
fn append_no_target_is_error() {
    let mut env = make_test_env(vec!["unused"]);
    let result = run("echo hello >>".to_string(), &mut env);
    println!("result: {:?}", result);
    assert!(result.is_err());
}

#[test]
fn stderr_redirect_to_file() {
    // Bug 3 reproduction: ls /nonexistent 2>/dev/null
    let mut env = make_test_env(vec!["unused"]);
    let result = run("cat /nonexistent 2>/error.txt".to_string(), &mut env).unwrap();
    let stdout = env.stdout.into_string();
    let stderr = env.stderr.into_string();
    println!("stdout: {:?}", stdout);
    println!("stderr: {:?}", stderr);
    // Command should fail, but stderr should be redirected to file
    assert_eq!(1, result.code());
    assert_eq!("", stderr);
    let error_contents = env.fs.read_to_string("/error.txt").unwrap();
    println!("error_contents: {:?}", error_contents);
    assert!(error_contents.contains("nonexistent"));
}

#[test]
fn stderr_redirect_to_dev_null_style() {
    // Use a writable file path as /dev/null equivalent
    let mut env = make_test_env(vec!["unused"]);
    let result = run("cat /nonexistent 2>/null.txt".to_string(), &mut env).unwrap();
    let stdout = env.stdout.into_string();
    let stderr = env.stderr.into_string();
    println!("stdout: {:?}", stdout);
    println!("stderr: {:?}", stderr);
    assert_eq!(1, result.code());
    assert_eq!("", stderr);
}

#[test]
fn stderr_append_redirect() {
    let mut env = make_test_env(vec!["unused"]);
    env.fs.add_file("/error.txt", "previous error\n");
    let _ = run("cat /nonexistent 2>>/error.txt".to_string(), &mut env).unwrap();
    let error_contents = env.fs.read_to_string("/error.txt").unwrap();
    println!("error_contents: {:?}", error_contents);
    assert!(error_contents.starts_with("previous error\n"));
    assert!(error_contents.contains("nonexistent"));
}

#[test]
fn stderr_to_stdout_redirect() {
    // Test 2>&1 without stdout redirection
    let mut env = make_test_env(vec!["unused"]);
    let result = run("cat /nonexistent 2>&1".to_string(), &mut env).unwrap();
    let stdout = env.stdout.into_string();
    let stderr = env.stderr.into_string();
    println!("stdout: {:?}", stdout);
    println!("stderr: {:?}", stderr);
    assert_eq!(1, result.code());
    // Stderr should be empty (redirected to stdout)
    assert_eq!("", stderr);
    // Stdout should contain the error
    assert!(stdout.contains("nonexistent"));
}

#[test]
fn stderr_and_stdout_to_same_file() {
    // Test > file 2>&1 (both to same file)
    let mut env = make_test_env(vec!["unused"]);
    env.fs.add_file("/input.txt", "hello\n");
    // First cat succeeds, second fails - both outputs go to file
    let result = run(
        "cat /input.txt /nonexistent >/output.txt 2>&1".to_string(),
        &mut env,
    )
    .unwrap();
    let stdout = env.stdout.into_string();
    let stderr = env.stderr.into_string();
    println!("stdout: {:?}", stdout);
    println!("stderr: {:?}", stderr);
    assert_eq!(1, result.code());
    assert_eq!("", stdout);
    assert_eq!("", stderr);
    let output = env.fs.read_to_string("/output.txt").unwrap();
    println!("output: {:?}", output);
    assert!(output.contains("hello"));
    assert!(output.contains("nonexistent"));
}

#[test]
fn separate_stdout_and_stderr_files() {
    let mut env = make_test_env(vec!["unused"]);
    env.fs.add_file("/input.txt", "hello\n");
    let result = run(
        "cat /input.txt /nonexistent >/out.txt 2>/err.txt".to_string(),
        &mut env,
    )
    .unwrap();
    let stdout = env.stdout.into_string();
    let stderr = env.stderr.into_string();
    println!("stdout: {:?}", stdout);
    println!("stderr: {:?}", stderr);
    assert_eq!(1, result.code());
    let out = env.fs.read_to_string("/out.txt").unwrap();
    let err = env.fs.read_to_string("/err.txt").unwrap();
    println!("out: {:?}", out);
    println!("err: {:?}", err);
    assert_eq!("hello\n", out);
    assert!(err.contains("nonexistent"));
}

#[test]
fn expand_bareword_variable() {
    let mut env = TestEnvBuilder::new()
        .env_var("GREETING", "hello")
        .build();
    let result = run("echo $GREETING".to_string(), &mut env).unwrap();
    let stdout = env.stdout.into_string();
    let stderr = env.stderr.into_string();
    println!("stdout: {:?}", stdout);
    println!("stderr: {:?}", stderr);
    assert_eq!(0, result.code());
    assert_eq!("hello\n", stdout);
}

#[test]
fn expand_curly_brace_variable() {
    let mut env = TestEnvBuilder::new()
        .env_var("NAME", "world")
        .build();
    let result = run("echo ${NAME}".to_string(), &mut env).unwrap();
    let stdout = env.stdout.into_string();
    let stderr = env.stderr.into_string();
    println!("stdout: {:?}", stdout);
    println!("stderr: {:?}", stderr);
    assert_eq!(0, result.code());
    assert_eq!("world\n", stdout);
}

#[test]
fn expand_multiple_variables() {
    let mut env = TestEnvBuilder::new()
        .env_var("FIRST", "hello")
        .env_var("SECOND", "world")
        .build();
    let result = run("echo $FIRST $SECOND".to_string(), &mut env).unwrap();
    let stdout = env.stdout.into_string();
    let stderr = env.stderr.into_string();
    println!("stdout: {:?}", stdout);
    println!("stderr: {:?}", stderr);
    assert_eq!(0, result.code());
    assert_eq!("hello world\n", stdout);
}

#[test]
fn expand_mixed_syntax() {
    let mut env = TestEnvBuilder::new()
        .env_var("A", "alpha")
        .env_var("B", "beta")
        .build();
    let result = run("echo $A and ${B}".to_string(), &mut env).unwrap();
    let stdout = env.stdout.into_string();
    let stderr = env.stderr.into_string();
    println!("stdout: {:?}", stdout);
    println!("stderr: {:?}", stderr);
    assert_eq!(0, result.code());
    assert_eq!("alpha and beta\n", stdout);
}

#[test]
fn expand_undefined_variable_is_empty() {
    let mut env = make_test_env(vec!["unused"]);
    let result = run("echo prefix$UNDEFINED suffix".to_string(), &mut env).unwrap();
    let stdout = env.stdout.into_string();
    let stderr = env.stderr.into_string();
    println!("stdout: {:?}", stdout);
    println!("stderr: {:?}", stderr);
    assert_eq!(0, result.code());
    assert_eq!("prefix suffix\n", stdout);
}

#[test]
fn expand_variable_in_pipeline() {
    let mut env = TestEnvBuilder::new()
        .env_var("MSG", "hello world")
        .build();
    let result = run("echo $MSG | cat".to_string(), &mut env).unwrap();
    let stdout = env.stdout.into_string();
    let stderr = env.stderr.into_string();
    println!("stdout: {:?}", stdout);
    println!("stderr: {:?}", stderr);
    assert_eq!(0, result.code());
    assert_eq!("hello world\n", stdout);
}

#[test]
fn expand_variable_with_and_chain() {
    let mut env = TestEnvBuilder::new()
        .env_var("VAR", "value")
        .build();
    let result = run("echo $VAR && echo done".to_string(), &mut env).unwrap();
    let stdout = env.stdout.into_string();
    let stderr = env.stderr.into_string();
    println!("stdout: {:?}", stdout);
    println!("stderr: {:?}", stderr);
    assert_eq!(0, result.code());
    assert_eq!("value\ndone\n", stdout);
}

#[test]
fn expand_variable_as_filename() {
    let mut env = TestEnvBuilder::new()
        .env_var("FILE", "test.txt")
        .build();
    env.fs.add_file("test.txt", "file contents\n");
    let result = run("cat $FILE".to_string(), &mut env).unwrap();
    let stdout = env.stdout.into_string();
    let stderr = env.stderr.into_string();
    println!("stdout: {:?}", stdout);
    println!("stderr: {:?}", stderr);
    assert_eq!(0, result.code());
    assert_eq!("file contents\n", stdout);
}

#[test]
fn expand_curly_brace_default_value() {
    let mut env = make_test_env(vec!["unused"]);
    let result = run("echo ${MISSING:-default}".to_string(), &mut env).unwrap();
    let stdout = env.stdout.into_string();
    let stderr = env.stderr.into_string();
    println!("stdout: {:?}", stdout);
    println!("stderr: {:?}", stderr);
    assert_eq!(0, result.code());
    assert_eq!("default\n", stdout);
}

#[test]
fn expand_curly_brace_default_not_used_when_set() {
    let mut env = TestEnvBuilder::new()
        .env_var("PRESENT", "actual")
        .build();
    let result = run("echo ${PRESENT:-default}".to_string(), &mut env).unwrap();
    let stdout = env.stdout.into_string();
    let stderr = env.stderr.into_string();
    println!("stdout: {:?}", stdout);
    println!("stderr: {:?}", stderr);
    assert_eq!(0, result.code());
    assert_eq!("actual\n", stdout);
}

#[test]
fn set_single_variable() {
    let mut env = make_test_env(vec!["unused"]);
    let result = run("set FOO=bar".to_string(), &mut env).unwrap();
    assert_eq!(0, result.code());
    assert_eq!(Some("bar".to_string()), env.vars.get("FOO"));
}

#[test]
fn set_variable_then_expand() {
    let mut env = make_test_env(vec!["unused"]);
    let result = run_string("set GREETING=hello\necho $GREETING", &mut env).unwrap();
    let stdout = env.stdout.into_string();
    let stderr = env.stderr.into_string();
    println!("stdout: {:?}", stdout);
    println!("stderr: {:?}", stderr);
    assert_eq!(0, result.code());
    assert_eq!("hello\n", stdout);
}

#[test]
fn set_multiple_variables() {
    let mut env = make_test_env(vec!["unused"]);
    let result = run("set A=alpha B=beta".to_string(), &mut env).unwrap();
    assert_eq!(0, result.code());
    assert_eq!(Some("alpha".to_string()), env.vars.get("A"));
    assert_eq!(Some("beta".to_string()), env.vars.get("B"));
}

#[test]
fn set_variable_with_equals_in_value() {
    let mut env = make_test_env(vec!["unused"]);
    let result = run("set EQUATION=a=b".to_string(), &mut env).unwrap();
    assert_eq!(0, result.code());
    assert_eq!(Some("a=b".to_string()), env.vars.get("EQUATION"));
}

#[test]
fn set_overwrites_existing_var() {
    let mut env = make_test_env(vec!["unused"]);
    let _ = run("set X=old".to_string(), &mut env).unwrap();
    let _ = run("set X=new".to_string(), &mut env).unwrap();
    assert_eq!(Some("new".to_string()), env.vars.get("X"));
}

#[test]
fn set_invalid_format_returns_error() {
    let mut env = make_test_env(vec!["unused"]);
    let result = run("set NOEQUALS".to_string(), &mut env).unwrap();
    assert_eq!(1, result.code());
    let stderr = env.stderr.into_string();
    println!("stderr: {:?}", stderr);
    assert!(stderr.contains("not in NAME=VALUE format"));
}

#[test]
fn set_shell_var_shadows_env_var() {
    let mut env = TestEnvBuilder::new()
        .env_var("VAR", "from_env")
        .build();
    let _ = run("set VAR=from_shell".to_string(), &mut env).unwrap();
    let result = run("echo $VAR".to_string(), &mut env).unwrap();
    let stdout = env.stdout.into_string();
    println!("stdout: {:?}", stdout);
    assert_eq!(0, result.code());
    assert_eq!("from_shell\n", stdout);
}

#[test]
fn bare_assignment_sets_variable() {
    // Bug 2: FOO=bar should set variable without needing 'set' prefix
    let mut env = make_test_env(vec!["unused"]);
    let result = run("FOO=bar".to_string(), &mut env).unwrap();
    let stdout = env.stdout.into_string();
    let stderr = env.stderr.into_string();
    println!("stdout: {:?}", stdout);
    println!("stderr: {:?}", stderr);
    assert_eq!(0, result.code());
    assert_eq!(Some("bar".to_string()), env.vars.get("FOO"));
}

#[test]
fn bare_assignment_then_expand() {
    let mut env = make_test_env(vec!["unused"]);
    let result = run_string("GREETING=hello\necho $GREETING", &mut env).unwrap();
    let stdout = env.stdout.into_string();
    let stderr = env.stderr.into_string();
    println!("stdout: {:?}", stdout);
    println!("stderr: {:?}", stderr);
    assert_eq!(0, result.code());
    assert_eq!("hello\n", stdout);
}

#[test]
fn bare_assignment_multiple_on_same_line() {
    let mut env = make_test_env(vec!["unused"]);
    let result = run("A=alpha B=beta".to_string(), &mut env).unwrap();
    let stdout = env.stdout.into_string();
    let stderr = env.stderr.into_string();
    println!("stdout: {:?}", stdout);
    println!("stderr: {:?}", stderr);
    assert_eq!(0, result.code());
    assert_eq!(Some("alpha".to_string()), env.vars.get("A"));
    assert_eq!(Some("beta".to_string()), env.vars.get("B"));
}

#[test]
fn bare_assignment_with_equals_in_value() {
    let mut env = make_test_env(vec!["unused"]);
    let result = run("EQUATION=a=b".to_string(), &mut env).unwrap();
    let stdout = env.stdout.into_string();
    let stderr = env.stderr.into_string();
    println!("stdout: {:?}", stdout);
    println!("stderr: {:?}", stderr);
    assert_eq!(0, result.code());
    assert_eq!(Some("a=b".to_string()), env.vars.get("EQUATION"));
}

#[test]
fn bare_assignment_before_command() {
    // In POSIX shell, VAR=value cmd sets VAR only for cmd's environment
    let mut env = make_test_env(vec!["unused"]);
    env.fs.add_file("test.txt", "hello\n");
    let result = run("FOO=bar cat test.txt".to_string(), &mut env).unwrap();
    let stdout = env.stdout.into_string();
    let stderr = env.stderr.into_string();
    println!("stdout: {:?}", stdout);
    println!("stderr: {:?}", stderr);
    // The command should succeed
    assert_eq!(0, result.code());
    assert_eq!("hello\n", stdout);
}

#[test]
fn bare_assignment_before_command_does_not_persist() {
    // VAR=value cmd should NOT persist VAR in the shell environment
    let mut env = make_test_env(vec!["unused"]);
    env.fs.add_file("test.txt", "hello\n");
    let _ = run("FOO=bar cat test.txt".to_string(), &mut env).unwrap();
    // FOO should not be set in the shell environment
    assert!(
        !env.vars.get("FOO").is_some(),
        "FOO should not persist after VAR=value cmd"
    );
}

#[test]
fn bare_assignment_before_command_is_visible_to_command() {
    // VAR=value echo $VAR should print the value
    let mut env = make_test_env(vec!["unused"]);
    let result = run("MSG=hello echo $MSG".to_string(), &mut env).unwrap();
    let stdout = env.stdout.into_string();
    let stderr = env.stderr.into_string();
    println!("stdout: {:?}", stdout);
    println!("stderr: {:?}", stderr);
    assert_eq!(0, result.code());
    assert_eq!("hello\n", stdout);
}

#[test]
fn multiple_prefix_assignments_before_command() {
    // FOO=1 BAR=2 echo $FOO $BAR should print "1 2"
    let mut env = make_test_env(vec!["unused"]);
    let result = run("FOO=1 BAR=2 echo $FOO $BAR".to_string(), &mut env).unwrap();
    let stdout = env.stdout.into_string();
    let stderr = env.stderr.into_string();
    println!("stdout: {:?}", stdout);
    println!("stderr: {:?}", stderr);
    assert_eq!(0, result.code());
    assert_eq!("1 2\n", stdout);
}

#[test]
fn prefix_assignment_with_spaces_in_value() {
    // MSG="hello world" echo $MSG should print "hello world"
    let mut env = make_test_env(vec!["unused"]);
    let result = run(r#"MSG="hello world" echo $MSG"#.to_string(), &mut env).unwrap();
    let stdout = env.stdout.into_string();
    let stderr = env.stderr.into_string();
    println!("stdout: {:?}", stdout);
    println!("stderr: {:?}", stderr);
    assert_eq!(0, result.code());
    assert_eq!("hello world\n", stdout);
}

#[test]
fn prefix_assignment_single_quoted_arg_not_expanded() {
    // NOPRINT=printed echo '$NOPRINT' should print "$NOPRINT" literally
    // Single quotes prevent variable expansion
    let mut env = make_test_env(vec!["unused"]);
    let result = run(r#"NOPRINT=printed echo '$NOPRINT'"#.to_string(), &mut env).unwrap();
    let stdout = env.stdout.into_string();
    let stderr = env.stderr.into_string();
    println!("stdout: {:?}", stdout);
    println!("stderr: {:?}", stderr);
    assert_eq!(0, result.code());
    assert_eq!("$NOPRINT\n", stdout);
}

#[test]
fn unset_shell_variable() {
    let mut env = make_test_env(vec!["unused"]);
    let _ = run("set FOO=bar".to_string(), &mut env).unwrap();
    assert!(env.vars.get("FOO").is_some());
    let result = run("unset FOO".to_string(), &mut env).unwrap();
    assert_eq!(0, result.code());
    assert!(!env.vars.get("FOO").is_some());
}

#[test]
fn unset_env_variable() {
    let mut env = TestEnvBuilder::new()
        .env_var("MYVAR", "value")
        .build();
    assert!(env.env.get("MYVAR").is_some());
    let result = run("unset MYVAR".to_string(), &mut env).unwrap();
    assert_eq!(0, result.code());
    assert!(!env.env.get("MYVAR").is_some());
}

#[test]
fn unset_multiple_variables() {
    let mut env = make_test_env(vec!["unused"]);
    let _ = run("set A=1 B=2 C=3".to_string(), &mut env).unwrap();
    let result = run("unset A C".to_string(), &mut env).unwrap();
    assert_eq!(0, result.code());
    assert!(!env.vars.get("A").is_some());
    assert!(env.vars.get("B").is_some());
    assert!(!env.vars.get("C").is_some());
}

#[test]
fn unset_nonexistent_is_ok() {
    let mut env = make_test_env(vec!["unused"]);
    let result = run("unset NONEXISTENT".to_string(), &mut env).unwrap();
    assert_eq!(0, result.code());
}

#[test]
fn unset_removes_from_both_vars_and_env() {
    let mut env = TestEnvBuilder::new()
        .env_var("DUP", "env_value")
        .build();
    env.vars.insert("DUP", "var_value");
    let result = run("unset DUP".to_string(), &mut env).unwrap();
    assert_eq!(0, result.code());
    assert!(!env.vars.get("DUP").is_some());
    assert!(!env.env.get("DUP").is_some());
}

#[test]
fn export_with_value() {
    let mut env = make_test_env(vec!["unused"]);
    let result = run("export FOO=bar".to_string(), &mut env).unwrap();
    assert_eq!(0, result.code());
    assert_eq!(Some("bar".to_string()), env.env.get("FOO"));
    assert!(!env.vars.get("FOO").is_some());
}

#[test]
fn export_existing_shell_var() {
    let mut env = make_test_env(vec!["unused"]);
    let _ = run("set MYVAR=myvalue".to_string(), &mut env).unwrap();
    assert!(env.vars.get("MYVAR").is_some());
    assert!(!env.env.get("MYVAR").is_some());
    let result = run("export MYVAR".to_string(), &mut env).unwrap();
    assert_eq!(0, result.code());
    assert!(!env.vars.get("MYVAR").is_some());
    assert_eq!(Some("myvalue".to_string()), env.env.get("MYVAR"));
}

#[test]
fn export_nonexistent_var_is_noop() {
    let mut env = make_test_env(vec!["unused"]);
    let result = run("export NONEXISTENT".to_string(), &mut env).unwrap();
    assert_eq!(0, result.code());
    assert!(!env.vars.get("NONEXISTENT").is_some());
    assert!(!env.env.get("NONEXISTENT").is_some());
}

#[test]
fn export_multiple_vars() {
    let mut env = make_test_env(vec!["unused"]);
    let _ = run("set A=1 B=2".to_string(), &mut env).unwrap();
    let result = run("export A B".to_string(), &mut env).unwrap();
    assert_eq!(0, result.code());
    assert_eq!(Some("1".to_string()), env.env.get("A"));
    assert_eq!(Some("2".to_string()), env.env.get("B"));
}

#[test]
fn export_with_value_overwrites_existing() {
    let mut env = TestEnvBuilder::new()
        .env_var("VAR", "old")
        .build();
    let result = run("export VAR=new".to_string(), &mut env).unwrap();
    assert_eq!(0, result.code());
    assert_eq!(Some("new".to_string()), env.env.get("VAR"));
}

#[test]
fn exported_var_is_visible() {
    let mut env = make_test_env(vec!["unused"]);
    let _ = run("export MSG=hello".to_string(), &mut env).unwrap();
    let result = run("echo $MSG".to_string(), &mut env).unwrap();
    let stdout = env.stdout.into_string();
    println!("stdout: {:?}", stdout);
    assert_eq!(0, result.code());
    assert_eq!("hello\n", stdout);
}

#[test]
fn set_then_export_workflow() {
    let mut env = make_test_env(vec!["unused"]);
    let result = run_string("set VAR=value\nexport VAR\necho $VAR", &mut env).unwrap();
    let stdout = env.stdout.into_string();
    let stderr = env.stderr.into_string();
    println!("stdout: {:?}", stdout);
    println!("stderr: {:?}", stderr);
    assert_eq!(0, result.code());
    assert_eq!("value\n", stdout);
    assert_eq!(Some("value".to_string()), env.env.get("VAR"));
    assert!(!env.vars.get("VAR").is_some());
}

#[test]
fn cd_to_existing_directory() {
    let mut env = make_test_env(vec!["unused"]);
    env.fs.mkdir("/home").unwrap();
    let result = run("cd /home".to_string(), &mut env).unwrap();
    let stderr = env.stderr.into_string();
    println!("stderr: {:?}", stderr);
    assert_eq!(0, result.code());
    assert_eq!("/home", env.cwd.as_str());
}

#[test]
fn cd_to_nonexistent_directory() {
    let mut env = make_test_env(vec!["unused"]);
    let result = run("cd /nonexistent".to_string(), &mut env).unwrap();
    let stderr = env.stderr.into_string();
    println!("stderr: {:?}", stderr);
    assert_eq!(1, result.code());
    assert!(stderr.contains("No such file or directory"));
    assert_eq!("/", env.cwd.as_str());
}

#[test]
fn cd_to_file_not_directory() {
    let mut env = make_test_env(vec!["unused"]);
    env.fs.add_file("/myfile.txt", "contents");
    let result = run("cd /myfile.txt".to_string(), &mut env).unwrap();
    let stderr = env.stderr.into_string();
    println!("stderr: {:?}", stderr);
    assert_eq!(1, result.code());
    assert!(stderr.contains("Not a directory"));
    assert_eq!("/", env.cwd.as_str());
}

#[test]
fn cd_relative_path() {
    let mut env = make_test_env(vec!["unused"]);
    env.fs.mkdir("/home").unwrap();
    env.fs.mkdir("/home/user").unwrap();
    let _ = run("cd /home".to_string(), &mut env).unwrap();
    let result = run("cd user".to_string(), &mut env).unwrap();
    let stderr = env.stderr.into_string();
    println!("stderr: {:?}", stderr);
    assert_eq!(0, result.code());
    assert_eq!("/home/user", env.cwd.as_str());
}

#[test]
fn cd_with_dotdot() {
    let mut env = make_test_env(vec!["unused"]);
    env.fs.mkdir("/home").unwrap();
    env.fs.mkdir("/home/user").unwrap();
    let _ = run("cd /home/user".to_string(), &mut env).unwrap();
    let result = run("cd ..".to_string(), &mut env).unwrap();
    let stderr = env.stderr.into_string();
    println!("stderr: {:?}", stderr);
    assert_eq!(0, result.code());
    assert_eq!("/home", env.cwd.as_str());
}

#[test]
fn cd_with_dot() {
    let mut env = make_test_env(vec!["unused"]);
    env.fs.mkdir("/home").unwrap();
    let _ = run("cd /home".to_string(), &mut env).unwrap();
    let result = run("cd .".to_string(), &mut env).unwrap();
    let stderr = env.stderr.into_string();
    println!("stderr: {:?}", stderr);
    assert_eq!(0, result.code());
    assert_eq!("/home", env.cwd.as_str());
}

#[test]
fn cd_no_args_uses_home() {
    let mut env = TestEnvBuilder::new()
        .env_var("HOME", "/home/user")
        .build();
    env.fs.mkdir("/home").unwrap();
    env.fs.mkdir("/home/user").unwrap();
    let result = run("cd".to_string(), &mut env).unwrap();
    let stderr = env.stderr.into_string();
    println!("stderr: {:?}", stderr);
    assert_eq!(0, result.code());
    assert_eq!("/home/user", env.cwd.as_str());
}

#[test]
fn cd_no_args_home_not_set() {
    let mut env = make_test_env(vec!["unused"]);
    let result = run("cd".to_string(), &mut env).unwrap();
    let stderr = env.stderr.into_string();
    println!("stderr: {:?}", stderr);
    assert_eq!(1, result.code());
    assert!(stderr.contains("HOME not set"));
}

#[test]
fn cd_affects_subsequent_pwd() {
    let mut env = make_test_env(vec!["unused"]);
    env.fs.mkdir("/home").unwrap();
    let _ = run("cd /home".to_string(), &mut env).unwrap();
    let result = run("pwd".to_string(), &mut env).unwrap();
    let stdout = env.stdout.into_string();
    let stderr = env.stderr.into_string();
    println!("stdout: {:?}", stdout);
    println!("stderr: {:?}", stderr);
    assert_eq!(0, result.code());
    assert_eq!("/home\n", stdout);
}

#[test]
fn cd_in_script() {
    let mut env = make_test_env(vec!["unused"]);
    env.fs.mkdir("/home").unwrap();
    env.fs.mkdir("/home/user").unwrap();
    let result = run_string("cd /home\npwd\ncd user\npwd", &mut env).unwrap();
    let stdout = env.stdout.into_string();
    let stderr = env.stderr.into_string();
    println!("stdout: {:?}", stdout);
    println!("stderr: {:?}", stderr);
    assert_eq!(0, result.code());
    assert_eq!("/home\n/home/user\n", stdout);
}

#[test]
fn cd_with_and_chain() {
    let mut env = make_test_env(vec!["unused"]);
    env.fs.mkdir("/home").unwrap();
    let result = run("cd /home && pwd".to_string(), &mut env).unwrap();
    let stdout = env.stdout.into_string();
    let stderr = env.stderr.into_string();
    println!("stdout: {:?}", stdout);
    println!("stderr: {:?}", stderr);
    assert_eq!(0, result.code());
    assert_eq!("/home\n", stdout);
}

#[test]
fn cd_failure_stops_and_chain() {
    let mut env = make_test_env(vec!["unused"]);
    let result = run(
        "cd /nonexistent && echo should_not_appear".to_string(),
        &mut env,
    )
    .unwrap();
    let stdout = env.stdout.into_string();
    let stderr = env.stderr.into_string();
    println!("stdout: {:?}", stdout);
    println!("stderr: {:?}", stderr);
    assert_eq!(1, result.code());
    assert_eq!("", stdout);
    assert!(stderr.contains("No such file or directory"));
}

#[test]
fn cd_in_pipeline_fails() {
    // cd in a pipeline fails because it's a shell builtin that modifies state
    let mut env = make_test_env(vec!["unused"]);
    env.fs.mkdir("/home").unwrap();
    let result = run("echo hello | cd /home".to_string(), &mut env);
    println!("result: {:?}", result);
    // cd in a pipe is an error - it's not a regular command
    assert!(result.is_err());
    // cwd should be unchanged
    assert_eq!("/", env.cwd.as_str());
}

#[test]
fn cd_later_in_and_chain() {
    // cd can appear later in a && chain
    let mut env = make_test_env(vec!["unused"]);
    env.fs.mkdir("/home").unwrap();
    let result = run("echo hello && cd /home && pwd".to_string(), &mut env).unwrap();
    let stdout = env.stdout.into_string();
    let stderr = env.stderr.into_string();
    println!("stdout: {:?}", stdout);
    println!("stderr: {:?}", stderr);
    assert_eq!(0, result.code());
    assert_eq!("hello\n/home\n", stdout);
    assert_eq!("/home", env.cwd.as_str());
}

#[test]
fn cd_later_in_or_chain() {
    // cd can appear in || chain when previous command fails
    let mut env = make_test_env(vec!["unused"]);
    env.fs.mkdir("/home").unwrap();
    let result = run("false || cd /home".to_string(), &mut env).unwrap();
    let stderr = env.stderr.into_string();
    println!("stderr: {:?}", stderr);
    assert_eq!(0, result.code());
    assert_eq!("/home", env.cwd.as_str());
}

#[test]
fn cd_later_in_semicolon_chain() {
    // cd can appear after semicolon
    let mut env = make_test_env(vec!["unused"]);
    env.fs.mkdir("/home").unwrap();
    let result = run("echo first ; cd /home ; pwd".to_string(), &mut env).unwrap();
    let stdout = env.stdout.into_string();
    let stderr = env.stderr.into_string();
    println!("stdout: {:?}", stdout);
    println!("stderr: {:?}", stderr);
    assert_eq!(0, result.code());
    assert_eq!("first\n/home\n", stdout);
    assert_eq!("/home", env.cwd.as_str());
}

#[test]
fn shvar_split_redirect_with_space() {
    let parts = shvar::split("echo hello > file.txt").unwrap();
    println!("shvar::split(\"echo hello > file.txt\") = {:?}", parts);
    assert_eq!(parts, vec!["echo", "hello", ">", "file.txt"]);
}

#[test]
fn shvar_split_redirect_no_space_after() {
    let parts = shvar::split("echo hello >file.txt").unwrap();
    println!("shvar::split(\"echo hello >file.txt\") = {:?}", parts);
    // This shows whether > is parsed as part of the next token or separate
    assert_eq!(parts, vec!["echo", "hello", ">file.txt"]);
}

#[test]
fn shvar_split_redirect_no_space_before() {
    let parts = shvar::split("echo hello> file.txt").unwrap();
    println!("shvar::split(\"echo hello> file.txt\") = {:?}", parts);
    // This shows whether > is parsed as part of the previous token or separate
    assert_eq!(parts, vec!["echo", "hello>", "file.txt"]);
}

#[test]
fn shvar_split_append_redirect() {
    let parts = shvar::split("echo hello >> file.txt").unwrap();
    println!("shvar::split(\"echo hello >> file.txt\") = {:?}", parts);
    // This shows whether >> is recognized as a single token
    assert_eq!(parts, vec!["echo", "hello", ">>", "file.txt"]);
}

#[test]
fn shvar_split_append_redirect_no_space() {
    let parts = shvar::split("echo hello >>file.txt").unwrap();
    println!("shvar::split(\"echo hello >>file.txt\") = {:?}", parts);
    assert_eq!(parts, vec!["echo", "hello", ">>file.txt"]);
}

#[test]
fn shvar_split_stderr_redirect() {
    let parts = shvar::split("ls 2>/dev/null").unwrap();
    println!("shvar::split(\"ls 2>/dev/null\") = {:?}", parts);
    // This shows how 2>/dev/null is parsed
    assert_eq!(parts, vec!["ls", "2>/dev/null"]);
}

#[test]
fn exit_status_after_success() {
    // Bug 1: $? should contain the exit status of the last command
    let mut env = make_test_env(vec!["unused"]);
    let _ = run("true".to_string(), &mut env).unwrap();
    let result = run("echo $?".to_string(), &mut env).unwrap();
    let stdout = env.stdout.into_string();
    let stderr = env.stderr.into_string();
    println!("stdout: {:?}", stdout);
    println!("stderr: {:?}", stderr);
    assert_eq!(0, result.code());
    assert_eq!("0\n", stdout, "expected $? to be 0 after true");
}

#[test]
fn exit_status_after_failure() {
    let mut env = make_test_env(vec!["unused"]);
    let _ = run("false".to_string(), &mut env).unwrap();
    let result = run("echo $?".to_string(), &mut env).unwrap();
    let stdout = env.stdout.into_string();
    let stderr = env.stderr.into_string();
    println!("stdout: {:?}", stdout);
    println!("stderr: {:?}", stderr);
    assert_eq!(0, result.code());
    assert_eq!("1\n", stdout, "expected $? to be 1 after false");
}

#[test]
fn exit_status_updates_after_each_command() {
    let mut env = make_test_env(vec!["unused"]);
    let result = run_string("true\necho $?\nfalse\necho $?\ntrue\necho $?", &mut env).unwrap();
    let stdout = env.stdout.into_string();
    let stderr = env.stderr.into_string();
    println!("stdout: {:?}", stdout);
    println!("stderr: {:?}", stderr);
    assert_eq!(0, result.code());
    assert_eq!("0\n1\n0\n", stdout);
}

#[test]
fn shvar_split_stderr_to_stdout() {
    let parts = shvar::split("ls 2>&1").unwrap();
    println!("shvar::split(\"ls 2>&1\") = {:?}", parts);
    assert_eq!(parts, vec!["ls", "2>&1"]);
}
