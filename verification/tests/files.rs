use eudaemonsh::du::parse_block_size;
use eudaemonsh::size::format_human_size_with_base;
use eudaemonsh::split::{generate_suffix, max_files, parse_byte_count, FileNameGenerator};
use eudaemonsh::{du, ln, mkdir, mktemp, readlink, rm, rmdir, split};
use eudaemonsh::env::{Environment, StringStdioIn, StringStdioOut};
use eudaemonsh::fs::{DirEntry, ErrorKind, FileType, Filesystem, FsError, IoError};
use eudaemonsh::vars::Vars;
use std::collections::BTreeMap;

/// A file, a directory or a symbolic link.
struct Node {
    file_type: FileType,
    /// What a file holds, or where a symbolic link leads.
    text: String,
}

/// A filesystem in memory.
struct TestFilesystem {
    names: BTreeMap<String, usize>,
    nodes: Vec<Node>,
    made: usize,
}

fn failure<T>(kind: ErrorKind, message: &str) -> Result<T, FsError> {
    Err(FsError::Io(IoError {
        kind,
        message: message.to_string(),
        details: format!("Custom {{ kind: {:?}, error: {:?} }}", kind, message),
    }))
}

fn missing<T>() -> Result<T, FsError> {
    failure(ErrorKind::NotFound, "No such file or directory")
}

fn parent_of(path: &str) -> String {
    match path.rfind('/') {
        Some(0) | None => "/".to_string(),
        Some(i) => path[..i].to_string(),
    }
}

#[allow(dead_code)]
impl TestFilesystem {
    fn new() -> Self {
        let mut names = BTreeMap::new();
        names.insert("/".to_string(), 0);
        let root = Node { file_type: FileType::Directory, text: String::new() };
        TestFilesystem { names, nodes: vec![root], made: 0 }
    }

    /// The place that a path leads to, with the symbolic links before its end followed, and the one
    /// at its end where `last` is set.
    fn place(&self, path: &str, last: bool) -> Option<String> {
        let mut rest: Vec<String> = path.split('/').rev().map(|s| s.to_string()).collect();
        let mut at: Vec<String> = Vec::new();
        let mut links = 0;
        while let Some(step) = rest.pop() {
            if step.is_empty() || step == "." {
                continue;
            }
            if step == ".." {
                at.pop();
                continue;
            }
            at.push(step);
            let here = format!("/{}", at.join("/"));
            let done = rest.iter().all(|s| s.is_empty());
            if let Some(&n) = self.names.get(&here) {
                if self.nodes[n].file_type == FileType::Symlink && (last || !done) {
                    links += 1;
                    if links > 40 {
                        return None;
                    }
                    at.pop();
                    let target = self.nodes[n].text.clone();
                    if target.starts_with('/') {
                        at.clear();
                    }
                    for step in target.split('/').rev() {
                        rest.push(step.to_string());
                    }
                }
            }
        }
        Some(format!("/{}", at.join("/")))
    }

    fn node(&self, path: &str, last: bool) -> Option<usize> {
        let place = self.place(path, last)?;
        self.names.get(&place).copied()
    }

    fn put(&mut self, place: String, file_type: FileType, text: &str) {
        self.nodes.push(Node { file_type, text: text.to_string() });
        self.names.insert(place, self.nodes.len() - 1);
    }

    fn holds_dir(&self, place: &str) -> bool {
        match self.names.get(place) {
            Some(&n) => self.nodes[n].file_type == FileType::Directory,
            None => false,
        }
    }

    fn entry(&self, n: usize) -> DirEntry {
        DirEntry {
            file_type: self.nodes[n].file_type,
            size: if self.nodes[n].file_type == FileType::Directory {
                1
            } else {
                self.nodes[n].text.len() as u64
            },
            dev: 1,
            ino: n as u64,
        }
    }

    fn add_directory(&mut self, path: &str) {
        let place = self.place(path, true).unwrap();
        if place != "/" && !self.names.contains_key(&place) {
            self.add_directory(&parent_of(&place));
            self.put(place, FileType::Directory, "");
        }
    }

    fn mkdir_all(&mut self, path: &str) -> Result<(), FsError> {
        self.add_directory(path);
        Ok(())
    }

    fn add_file(&mut self, path: &str, text: &str) {
        let place = self.place(path, true).unwrap();
        self.add_directory(&parent_of(&place));
        self.write_string(&place, text).unwrap();
    }

    fn make_temp(&mut self, template: &str, file_type: FileType) -> Result<String, FsError> {
        let stem = template.trim_end_matches('X');
        self.made += 1;
        let name = format!("{}{:0width$}", stem, self.made, width = template.len() - stem.len());
        let place = self.place(&name, true).unwrap();
        if !self.holds_dir(&parent_of(&place)) {
            return missing();
        }
        self.put(place, file_type, "");
        Ok(name)
    }
}

impl Filesystem for TestFilesystem {
    fn read_to_string(&mut self, path: &str) -> Result<String, FsError> {
        match self.node(path, true) {
            None => missing(),
            Some(n) => match self.nodes[n].file_type {
                FileType::Directory => failure(ErrorKind::IsADirectory, "Is a directory"),
                _ => Ok(self.nodes[n].text.clone()),
            },
        }
    }

    fn write_string(&mut self, path: &str, text: &str) -> Result<(), FsError> {
        let place = match self.place(path, true) {
            Some(place) => place,
            None => return missing(),
        };
        match self.names.get(&place) {
            Some(&n) => match self.nodes[n].file_type {
                FileType::Directory => failure(ErrorKind::IsADirectory, "Is a directory"),
                _ => {
                    self.nodes[n].text = text.to_string();
                    Ok(())
                }
            },
            None => {
                if !self.holds_dir(&parent_of(&place)) {
                    return missing();
                }
                self.put(place, FileType::RegularFile, text);
                Ok(())
            }
        }
    }

    fn path_exists(&mut self, path: &str) -> bool {
        self.node(path, true).is_some()
    }

    fn is_dir(&mut self, path: &str) -> bool {
        match self.node(path, true) {
            Some(n) => self.nodes[n].file_type == FileType::Directory,
            None => false,
        }
    }

    fn stat(&mut self, path: &str) -> Result<DirEntry, FsError> {
        match self.node(path, true) {
            Some(n) => Ok(self.entry(n)),
            None => missing(),
        }
    }

    fn lstat(&mut self, path: &str) -> Result<DirEntry, FsError> {
        match self.node(path, false) {
            Some(n) => Ok(self.entry(n)),
            None => missing(),
        }
    }

    fn read_dir(&mut self, path: &str) -> Result<Vec<(String, DirEntry)>, FsError> {
        let place = match self.place(path, true) {
            Some(place) => place,
            None => return missing(),
        };
        if !self.names.contains_key(&place) {
            return missing();
        }
        if !self.holds_dir(&place) {
            return failure(ErrorKind::NotADirectory, "Not a directory");
        }
        let mut found = Vec::new();
        for (name, &n) in &self.names {
            if name != "/" && parent_of(name) == place {
                let base = name.rsplit('/').next().unwrap().to_string();
                found.push((base, self.entry(n)));
            }
        }
        Ok(found)
    }

    fn mkdir(&mut self, path: &str) -> Result<(), FsError> {
        let place = self.place(path, true).unwrap();
        if self.names.contains_key(&place) {
            return failure(ErrorKind::AlreadyExists, "File exists");
        }
        if !self.holds_dir(&parent_of(&place)) {
            return missing();
        }
        self.put(place, FileType::Directory, "");
        Ok(())
    }

    fn rmdir(&mut self, path: &str) -> Result<(), FsError> {
        let place = self.place(path, false).unwrap();
        if !self.names.contains_key(&place) {
            return missing();
        }
        if !self.holds_dir(&place) {
            return failure(ErrorKind::NotADirectory, "Not a directory");
        }
        if self.names.keys().any(|name| name != "/" && parent_of(name) == place) {
            return failure(ErrorKind::DirectoryNotEmpty, "Directory not empty");
        }
        self.names.remove(&place);
        Ok(())
    }

    fn unlink(&mut self, path: &str) -> Result<(), FsError> {
        let place = self.place(path, false).unwrap();
        if !self.names.contains_key(&place) {
            return missing();
        }
        if self.holds_dir(&place) {
            return failure(ErrorKind::IsADirectory, "Is a directory");
        }
        self.names.remove(&place);
        Ok(())
    }

    fn link(&mut self, from: &str, to: &str) -> Result<(), FsError> {
        let n = match self.node(from, true) {
            Some(n) => n,
            None => return missing(),
        };
        let place = self.place(to, false).unwrap();
        if self.names.contains_key(&place) {
            return failure(ErrorKind::AlreadyExists, "File exists");
        }
        if !self.holds_dir(&parent_of(&place)) {
            return missing();
        }
        self.names.insert(place, n);
        Ok(())
    }

    fn symlink(&mut self, from: &str, to: &str) -> Result<(), FsError> {
        let place = self.place(to, false).unwrap();
        if self.names.contains_key(&place) {
            return failure(ErrorKind::AlreadyExists, "File exists");
        }
        if !self.holds_dir(&parent_of(&place)) {
            return missing();
        }
        self.put(place, FileType::Symlink, from);
        Ok(())
    }

    fn readlink(&mut self, path: &str) -> Result<String, FsError> {
        match self.node(path, false) {
            None => missing(),
            Some(n) => match self.nodes[n].file_type {
                FileType::Symlink => Ok(self.nodes[n].text.clone()),
                _ => failure(ErrorKind::InvalidInput, "Invalid argument"),
            },
        }
    }

    fn mkstemp(&mut self, template: &str) -> Result<String, FsError> {
        self.make_temp(template, FileType::RegularFile)
    }

    fn mkdtemp(&mut self, template: &str) -> Result<String, FsError> {
        self.make_temp(template, FileType::Directory)
    }
}

#[allow(dead_code)]
fn make_test_env(args: Vec<&str>) -> Environment<TestFilesystem> {
    make_test_env_with_stdin(args, "")
}

fn make_test_env_with_stdin(args: Vec<&str>, stdin: &str) -> Environment<TestFilesystem> {
    Environment {
        stdin: StringStdioIn::new(stdin),
        stdout: StringStdioOut::new(),
        stderr: StringStdioOut::new(),
        merged: false,
        fs: TestFilesystem::new(),
        env: Vars::new(),
        vars: Vars::new(),
        args: args.into_iter().map(|s| s.to_string()).collect(),
        cwd: "/".to_string(),
        seed: 7,
        exit_signaled: false,
    }
}

/// Builds the environment of a test.
#[allow(dead_code)]
struct TestEnvBuilder {
    env: Environment<TestFilesystem>,
}

#[allow(dead_code)]
impl TestEnvBuilder {
    fn new() -> Self {
        TestEnvBuilder { env: make_test_env(vec![]) }
    }

    fn args(mut self, args: Vec<&str>) -> Self {
        self.env.args = args.into_iter().map(|s| s.to_string()).collect();
        self
    }

    fn cwd(mut self, cwd: &str) -> Self {
        self.env.cwd = cwd.to_string();
        self
    }

    fn env_var(mut self, name: &str, value: &str) -> Self {
        self.env.env.insert(name, value);
        self
    }

    fn build(self) -> Environment<TestFilesystem> {
        self.env
    }
}

#[test]
fn empty_directory_shows_zero() {
    let mut env = make_test_env(vec!["du"]);
    env.fs.add_directory("/");
    let result = du::bin(&mut env).unwrap();
    assert_eq!(0, result.code());
    let stdout = env.stdout.into_string();
    println!("stdout: {:?}", stdout);
    // In eudaemonfs, root directory has "." and ".." entries (size=2 entries),
    // which rounds up to 1 block when computing disk usage.
    assert!(stdout.contains("1\t."));
}

#[test]
fn single_file_shows_size() {
    let mut env = make_test_env(vec!["du", "/file"]);
    env.fs.add_directory("/");
    env.fs.add_file("/file", "hello"); // 5 bytes
    let result = du::bin(&mut env).unwrap();
    assert_eq!(0, result.code());
    let stdout = env.stdout.into_string();
    println!("stdout: {:?}", stdout);
    // 5 bytes rounds up to 512 bytes = 1 block of 512 bytes
    assert!(stdout.contains("1\t/file"));
}

#[test]
fn directory_with_files() {
    let mut env = make_test_env(vec!["du", "/dir"]);
    env.fs.add_directory("/");
    env.fs.add_directory("/dir");
    env.fs.add_file("/dir/file1", "hello"); // 5 bytes
    env.fs.add_file("/dir/file2", "world!"); // 6 bytes
    let result = du::bin(&mut env).unwrap();
    assert_eq!(0, result.code());
    let stdout = env.stdout.into_string();
    println!("stdout: {:?}", stdout);
    // 11 bytes total, rounds to 512 bytes = 1 block, but each file is 1 block = 2 blocks total
    assert!(stdout.contains("/dir"));
}

#[test]
fn all_flag_shows_files() {
    let mut env = make_test_env(vec!["du", "-a", "/dir"]);
    env.fs.add_directory("/");
    env.fs.add_directory("/dir");
    env.fs.add_file("/dir/file1", "hello");
    let result = du::bin(&mut env).unwrap();
    assert_eq!(0, result.code());
    let stdout = env.stdout.into_string();
    println!("stdout: {:?}", stdout);
    assert!(stdout.contains("/dir/file1"));
    assert!(stdout.contains("/dir\n") || stdout.ends_with("/dir"));
}

#[test]
fn summarize_flag_shows_only_total() {
    let mut env = make_test_env(vec!["du", "-s", "/dir"]);
    env.fs.add_directory("/");
    env.fs.add_directory("/dir");
    env.fs.add_directory("/dir/subdir");
    env.fs.add_file("/dir/file1", "hello");
    let result = du::bin(&mut env).unwrap();
    assert_eq!(0, result.code());
    let stdout = env.stdout.into_string();
    println!("stdout: {:?}", stdout);
    // Should only show /dir, not /dir/subdir
    assert!(stdout.contains("/dir"));
    assert!(!stdout.contains("/dir/subdir"));
}

#[test]
fn grand_total_flag() {
    let mut env = make_test_env(vec!["du", "-c", "/dir1", "/dir2"]);
    env.fs.add_directory("/");
    env.fs.add_directory("/dir1");
    env.fs.add_directory("/dir2");
    env.fs.add_file("/dir1/file", "hello");
    env.fs.add_file("/dir2/file", "world");
    let result = du::bin(&mut env).unwrap();
    assert_eq!(0, result.code());
    let stdout = env.stdout.into_string();
    println!("stdout: {:?}", stdout);
    assert!(stdout.contains("total"));
}

#[test]
fn human_readable_flag() {
    let mut env = make_test_env(vec!["du", "-h", "/file"]);
    env.fs.add_directory("/");
    // Create a file that will show up as K
    env.fs.add_file("/file", &"x".repeat(2048)); // 2048 bytes = 2K
    let result = du::bin(&mut env).unwrap();
    assert_eq!(0, result.code());
    let stdout = env.stdout.into_string();
    println!("stdout: {:?}", stdout);
    assert!(stdout.contains("K") || stdout.contains("B"));
}

#[test]
fn kilobytes_flag() {
    let mut env = make_test_env(vec!["du", "-k", "/file"]);
    env.fs.add_directory("/");
    env.fs.add_file("/file", &"x".repeat(2048));
    let result = du::bin(&mut env).unwrap();
    assert_eq!(0, result.code());
    let stdout = env.stdout.into_string();
    println!("stdout: {:?}", stdout);
    // 2048 bytes = 2 * 1024 = 2 KiB blocks
    assert!(stdout.contains("2\t/file") || stdout.contains("3\t/file"));
}

#[test]
fn depth_flag() {
    let mut env = make_test_env(vec!["du", "-d", "1", "/dir"]);
    env.fs.add_directory("/");
    env.fs.add_directory("/dir");
    env.fs.add_directory("/dir/sub1");
    env.fs.add_directory("/dir/sub1/sub2");
    let result = du::bin(&mut env).unwrap();
    assert_eq!(0, result.code());
    let stdout = env.stdout.into_string();
    println!("stdout: {:?}", stdout);
    // Should show /dir and /dir/sub1, but not /dir/sub1/sub2
    assert!(stdout.contains("/dir\n") || stdout.ends_with("/dir"));
    assert!(stdout.contains("/dir/sub1"));
    assert!(!stdout.contains("/dir/sub1/sub2"));
}

#[test]
fn nonexistent_path_returns_error() {
    let mut env = make_test_env(vec!["du", "/nonexistent"]);
    env.fs.add_directory("/");
    let result = du::bin(&mut env).unwrap();
    assert_eq!(1, result.code());
    let stderr = env.stderr.into_string();
    println!("stderr: {:?}", stderr);
    assert!(stderr.contains("No such file or directory"));
}

#[test]
fn invalid_depth_returns_error() {
    let mut env = make_test_env(vec!["du", "-d", "abc"]);
    env.fs.add_directory("/");
    let result = du::bin(&mut env).unwrap();
    assert_eq!(1, result.code());
    let stderr = env.stderr.into_string();
    println!("stderr: {:?}", stderr);
    assert!(stderr.contains("invalid depth"));
}

#[test]
fn apparent_size_flag() {
    let mut env = make_test_env(vec!["du", "-A", "-k", "/file"]);
    env.fs.add_directory("/");
    env.fs.add_file("/file", "hello"); // 5 bytes
    let result = du::bin(&mut env).unwrap();
    assert_eq!(0, result.code());
    let stdout = env.stdout.into_string();
    println!("stdout: {:?}", stdout);
    // With -A, should show actual size (5 bytes = 1 KiB block when using -k)
    assert!(stdout.contains("1\t/file"));
}

#[test]
fn format_human_size_bytes() {
    assert_eq!("   0B", format_human_size_with_base(0, 1024));
    assert_eq!(" 100B", format_human_size_with_base(100, 1024));
    assert_eq!("1023B", format_human_size_with_base(1023, 1024));
}

#[test]
fn format_human_size_kilobytes() {
    assert_eq!(" 1.0K", format_human_size_with_base(1024, 1024));
    assert_eq!("  10K", format_human_size_with_base(10 * 1024, 1024));
}

#[test]
fn format_human_size_megabytes() {
    assert_eq!(" 1.0M", format_human_size_with_base(1024 * 1024, 1024));
}

#[test]
fn parse_block_size_plain() {
    assert_eq!(Some(512), parse_block_size("512"));
    assert_eq!(Some(1024), parse_block_size("1024"));
}

#[test]
fn parse_block_size_with_suffix() {
    assert_eq!(Some(1024), parse_block_size("1K"));
    assert_eq!(Some(1024 * 1024), parse_block_size("1M"));
    assert_eq!(Some(1024 * 1024 * 1024), parse_block_size("1G"));
}

#[test]
fn parse_block_size_invalid() {
    assert_eq!(None, parse_block_size(""));
    assert_eq!(None, parse_block_size("abc"));
}

#[test]
fn multiple_paths() {
    let mut env = make_test_env(vec!["du", "/dir1", "/dir2"]);
    env.fs.add_directory("/");
    env.fs.add_directory("/dir1");
    env.fs.add_directory("/dir2");
    let result = du::bin(&mut env).unwrap();
    assert_eq!(0, result.code());
    let stdout = env.stdout.into_string();
    println!("stdout: {:?}", stdout);
    assert!(stdout.contains("/dir1"));
    assert!(stdout.contains("/dir2"));
}

#[test]
fn nested_directories() {
    let mut env = make_test_env(vec!["du", "/dir"]);
    env.fs.add_directory("/");
    env.fs.add_directory("/dir");
    env.fs.add_directory("/dir/sub1");
    env.fs.add_directory("/dir/sub2");
    env.fs.add_file("/dir/sub1/file", "content");
    let result = du::bin(&mut env).unwrap();
    assert_eq!(0, result.code());
    let stdout = env.stdout.into_string();
    println!("stdout: {:?}", stdout);
    assert!(stdout.contains("/dir/sub1"));
    assert!(stdout.contains("/dir/sub2"));
    assert!(stdout.contains("/dir\n") || stdout.ends_with("/dir"));
}

fn ln_env(
    args: Vec<&str>,
) -> Environment<TestFilesystem> {
    TestEnvBuilder::new().args(args).build()
}

#[test]
fn ln_no_args_shows_usage() {
    let mut env = ln_env(vec!["ln"]);
    let result = ln::bin(&mut env).unwrap();
    assert_eq!(1, result.code());
    let stderr = env.stderr.into_string();
    println!("stderr: {:?}", stderr);
    assert!(stderr.contains("usage:"));
}

#[test]
fn create_hard_link() {
    let mut env = ln_env(vec!["ln", "/source", "/target"]);
    env.fs.write_string("/source", "content").unwrap();
    let result = ln::bin(&mut env).unwrap();
    assert_eq!(0, result.code());
    assert!(env.fs.path_exists("/target"));
    assert_eq!(
        env.fs.read_to_string("/target").unwrap(),
        env.fs.read_to_string("/source").unwrap()
    );
}

#[test]
fn create_symbolic_link() {
    let mut env = ln_env(vec!["ln", "-s", "/source", "/target"]);
    env.fs.write_string("/source", "content").unwrap();
    let result = ln::bin(&mut env).unwrap();
    assert_eq!(0, result.code());
    let entry = env.fs.lstat("/target").unwrap();
    assert_eq!(FileType::Symlink, entry.file_type);
    assert_eq!("/source", env.fs.readlink("/target").unwrap());
}

#[test]
fn symlink_to_nonexistent_source() {
    let mut env = ln_env(vec!["ln", "-s", "/nonexistent", "/target"]);
    let result = ln::bin(&mut env).unwrap();
    assert_eq!(0, result.code());
    let entry = env.fs.lstat("/target").unwrap();
    assert_eq!(FileType::Symlink, entry.file_type);
}

#[test]
fn hard_link_to_nonexistent_fails() {
    let mut env = ln_env(vec!["ln", "/nonexistent", "/target"]);
    let result = ln::bin(&mut env).unwrap();
    assert_eq!(1, result.code());
    let stderr = env.stderr.into_string();
    println!("stderr: {:?}", stderr);
    assert!(stderr.contains("No such file or directory"));
}

#[test]
fn hard_link_to_directory_fails() {
    let mut env = ln_env(vec!["ln", "/dir", "/target"]);
    env.fs.mkdir("/dir").unwrap();
    let result = ln::bin(&mut env).unwrap();
    assert_eq!(1, result.code());
    let stderr = env.stderr.into_string();
    println!("stderr: {:?}", stderr);
    assert!(stderr.contains("Is a directory"));
}

#[test]
fn force_overwrites_existing() {
    let mut env = ln_env(vec!["ln", "-sf", "/source", "/target"]);
    env.fs.write_string("/source", "new content").unwrap();
    env.fs.write_string("/target", "old content").unwrap();
    let result = ln::bin(&mut env).unwrap();
    assert_eq!(0, result.code());
    let entry = env.fs.lstat("/target").unwrap();
    assert_eq!(FileType::Symlink, entry.file_type);
}

#[test]
fn without_force_existing_fails() {
    let mut env = ln_env(vec!["ln", "-s", "/source", "/target"]);
    env.fs.write_string("/source", "content").unwrap();
    env.fs.write_string("/target", "existing").unwrap();
    let result = ln::bin(&mut env).unwrap();
    assert_eq!(1, result.code());
    let stderr = env.stderr.into_string();
    println!("stderr: {:?}", stderr);
    assert!(stderr.contains("File exists"));
}

#[test]
fn verbose_prints_link_info() {
    let mut env = ln_env(vec!["ln", "-sv", "/source", "/target"]);
    env.fs.write_string("/source", "content").unwrap();
    let result = ln::bin(&mut env).unwrap();
    assert_eq!(0, result.code());
    let stdout = env.stdout.into_string();
    println!("stdout: {:?}", stdout);
    assert!(stdout.contains("/target"));
    assert!(stdout.contains("/source"));
    assert!(stdout.contains("->"));
}

#[test]
fn verbose_hard_link_shows_equals() {
    let mut env = ln_env(vec!["ln", "-v", "/source", "/target"]);
    env.fs.write_string("/source", "content").unwrap();
    let result = ln::bin(&mut env).unwrap();
    assert_eq!(0, result.code());
    let stdout = env.stdout.into_string();
    println!("stdout: {:?}", stdout);
    assert!(stdout.contains("=>"));
}

#[test]
fn link_into_directory() {
    let mut env = ln_env(vec!["ln", "-s", "/source", "/dir"]);
    env.fs.write_string("/source", "content").unwrap();
    env.fs.mkdir("/dir").unwrap();
    let result = ln::bin(&mut env).unwrap();
    assert_eq!(0, result.code());
    assert!(env.fs.lstat("/dir/source").is_ok());
}

#[test]
fn multiple_sources_to_directory() {
    let mut env = ln_env(vec!["ln", "-s", "/a", "/b", "/c", "/dir"]);
    env.fs.write_string("/a", "a").unwrap();
    env.fs.write_string("/b", "b").unwrap();
    env.fs.write_string("/c", "c").unwrap();
    env.fs.mkdir("/dir").unwrap();
    let result = ln::bin(&mut env).unwrap();
    assert_eq!(0, result.code());
    assert!(env.fs.lstat("/dir/a").is_ok());
    assert!(env.fs.lstat("/dir/b").is_ok());
    assert!(env.fs.lstat("/dir/c").is_ok());
}

#[test]
fn multiple_sources_to_non_directory_fails() {
    let mut env = ln_env(vec!["ln", "-s", "/a", "/b", "/target"]);
    env.fs.write_string("/a", "a").unwrap();
    env.fs.write_string("/b", "b").unwrap();
    env.fs.write_string("/target", "file").unwrap();
    let result = ln::bin(&mut env).unwrap();
    assert_eq!(1, result.code());
}

#[test]
fn single_source_creates_link_in_current_dir() {
    let mut env = ln_env(vec!["ln", "-s", "/path/to/source"]);
    let result = ln::bin(&mut env).unwrap();
    assert_eq!(0, result.code());
    assert!(env.fs.lstat("source").is_ok());
}

#[test]
fn no_follow_treats_symlink_as_file() {
    let mut env = ln_env(vec!["ln", "-shf", "/new_source", "/link"]);
    env.fs.write_string("/old_source", "old").unwrap();
    env.fs.mkdir("/dir").unwrap();
    env.fs.symlink("/dir", "/link").unwrap();
    let result = ln::bin(&mut env).unwrap();
    assert_eq!(0, result.code());
    let target = env.fs.readlink("/link").unwrap();
    println!("target: {:?}", target);
    assert_eq!("/new_source", target);
}

#[test]
fn hard_link_to_self_fails() {
    let mut env = ln_env(vec!["ln", "/file", "/file"]);
    env.fs.write_string("/file", "content").unwrap();
    let result = ln::bin(&mut env).unwrap();
    assert_eq!(1, result.code());
    let stderr = env.stderr.into_string();
    println!("stderr: {:?}", stderr);
    assert!(stderr.contains("same directory entry"));
}

#[test]
fn f_flag_removes_empty_directory() {
    let mut env = ln_env(vec!["ln", "-sF", "/source", "/emptydir"]);
    env.fs.write_string("/source", "content").unwrap();
    env.fs.mkdir("/emptydir").unwrap();
    let result = ln::bin(&mut env).unwrap();
    assert_eq!(0, result.code());
    let entry = env.fs.lstat("/emptydir").unwrap();
    assert_eq!(FileType::Symlink, entry.file_type);
}

#[test]
fn f_flag_fails_on_nonempty_directory() {
    let mut env = ln_env(vec!["ln", "-sF", "/source", "/dir"]);
    env.fs.write_string("/source", "content").unwrap();
    env.fs.mkdir("/dir").unwrap();
    env.fs.write_string("/dir/file", "inside").unwrap();
    let result = ln::bin(&mut env).unwrap();
    assert_eq!(1, result.code());
}

#[test]
fn link_with_trailing_slash_target() {
    let mut env = ln_env(vec!["ln", "-s", "/source", "/dir/"]);
    env.fs.write_string("/source", "content").unwrap();
    env.fs.mkdir("/dir").unwrap();
    let result = ln::bin(&mut env).unwrap();
    assert_eq!(0, result.code());
    assert!(env.fs.lstat("/dir/source").is_ok());
}

#[test]
fn link_to_dot_creates_in_current() {
    let mut env = ln_env(vec!["ln", "-s", "/path/source", "."]);
    let result = ln::bin(&mut env).unwrap();
    assert_eq!(0, result.code());
    assert!(env.fs.lstat("source").is_ok());
}

fn mkdir_env(
    args: Vec<&str>,
) -> Environment<TestFilesystem> {
    TestEnvBuilder::new().args(args).build()
}

#[test]
fn mkdir_no_args_shows_usage() {
    let mut env = mkdir_env(vec!["mkdir"]);
    let result = mkdir::bin(&mut env).unwrap();
    assert_eq!(1, result.code());
    let stderr = env.stderr.into_string();
    println!("stderr: {:?}", stderr);
    assert!(stderr.contains("usage:"));
}

#[test]
fn create_single_directory() {
    let mut env = mkdir_env(vec!["mkdir", "/foo"]);
    let result = mkdir::bin(&mut env).unwrap();
    assert_eq!(0, result.code());
    assert!(env.fs.is_dir("/foo"));
}

#[test]
fn create_multiple_directories() {
    let mut env = mkdir_env(vec!["mkdir", "/foo", "/bar", "/baz"]);
    let result = mkdir::bin(&mut env).unwrap();
    assert_eq!(0, result.code());
    assert!(env.fs.is_dir("/foo"));
    assert!(env.fs.is_dir("/bar"));
    assert!(env.fs.is_dir("/baz"));
}

#[test]
fn create_nested_without_p_fails() {
    let mut env = mkdir_env(vec!["mkdir", "/foo/bar/baz"]);
    let result = mkdir::bin(&mut env).unwrap();
    assert_eq!(1, result.code());
    let stderr = env.stderr.into_string();
    println!("stderr: {:?}", stderr);
    assert!(stderr.contains("No such file or directory"));
}

#[test]
fn create_existing_directory_fails() {
    let mut env = mkdir_env(vec!["mkdir", "/foo"]);
    env.fs.mkdir("/foo").unwrap();
    let result = mkdir::bin(&mut env).unwrap();
    assert_eq!(1, result.code());
    let stderr = env.stderr.into_string();
    println!("stderr: {:?}", stderr);
    assert!(stderr.contains("File exists"));
}

#[test]
fn create_over_file_fails() {
    let mut env = mkdir_env(vec!["mkdir", "/foo"]);
    env.fs.write_string("/foo", "content").unwrap();
    let result = mkdir::bin(&mut env).unwrap();
    assert_eq!(1, result.code());
    let stderr = env.stderr.into_string();
    println!("stderr: {:?}", stderr);
    assert!(stderr.contains("File exists"));
}

#[test]
fn p_creates_intermediate_directories() {
    let mut env = mkdir_env(vec!["mkdir", "-p", "/foo/bar/baz"]);
    let result = mkdir::bin(&mut env).unwrap();
    assert_eq!(0, result.code());
    assert!(env.fs.is_dir("/foo"));
    assert!(env.fs.is_dir("/foo/bar"));
    assert!(env.fs.is_dir("/foo/bar/baz"));
}

#[test]
fn p_existing_directory_succeeds() {
    let mut env = mkdir_env(vec!["mkdir", "-p", "/foo"]);
    env.fs.mkdir("/foo").unwrap();
    let result = mkdir::bin(&mut env).unwrap();
    assert_eq!(0, result.code());
}

#[test]
fn p_existing_file_in_path_fails() {
    let mut env = mkdir_env(vec!["mkdir", "-p", "/foo/bar/baz"]);
    env.fs.mkdir("/foo").unwrap();
    env.fs.write_string("/foo/bar", "content").unwrap();
    let result = mkdir::bin(&mut env).unwrap();
    assert_eq!(1, result.code());
    let stderr = env.stderr.into_string();
    println!("stderr: {:?}", stderr);
    assert!(stderr.contains("Not a directory"));
}

#[test]
fn p_partial_path_exists() {
    let mut env = mkdir_env(vec!["mkdir", "-p", "/foo/bar/baz"]);
    env.fs.mkdir("/foo").unwrap();
    let result = mkdir::bin(&mut env).unwrap();
    assert_eq!(0, result.code());
    assert!(env.fs.is_dir("/foo/bar"));
    assert!(env.fs.is_dir("/foo/bar/baz"));
}

#[test]
fn v_prints_created_directory() {
    let mut env = mkdir_env(vec!["mkdir", "-v", "/foo"]);
    let result = mkdir::bin(&mut env).unwrap();
    assert_eq!(0, result.code());
    let stdout = env.stdout.into_string();
    println!("stdout: {:?}", stdout);
    assert!(stdout.contains("/foo"));
}

#[test]
fn pv_prints_all_created_directories() {
    let mut env = mkdir_env(vec!["mkdir", "-pv", "/foo/bar/baz"]);
    let result = mkdir::bin(&mut env).unwrap();
    assert_eq!(0, result.code());
    let stdout = env.stdout.into_string();
    println!("stdout: {:?}", stdout);
    assert!(stdout.contains("/foo\n"));
    assert!(stdout.contains("/foo/bar\n"));
    assert!(stdout.contains("/foo/bar/baz\n"));
}

#[test]
fn pv_existing_directory_no_output() {
    let mut env = mkdir_env(vec!["mkdir", "-pv", "/foo"]);
    env.fs.mkdir("/foo").unwrap();
    let result = mkdir::bin(&mut env).unwrap();
    assert_eq!(0, result.code());
    let stdout = env.stdout.into_string();
    println!("stdout: {:?}", stdout);
    assert!(stdout.is_empty());
}

#[test]
fn create_subdirectory_of_existing() {
    let mut env = mkdir_env(vec!["mkdir", "/foo/bar"]);
    env.fs.mkdir("/foo").unwrap();
    let result = mkdir::bin(&mut env).unwrap();
    assert_eq!(0, result.code());
    assert!(env.fs.is_dir("/foo/bar"));
}

#[test]
fn parent_is_file_fails() {
    let mut env = mkdir_env(vec!["mkdir", "/foo/bar"]);
    env.fs.write_string("/foo", "content").unwrap();
    let result = mkdir::bin(&mut env).unwrap();
    assert_eq!(1, result.code());
    let stderr = env.stderr.into_string();
    println!("stderr: {:?}", stderr);
    assert!(stderr.contains("Not a directory"));
}

#[test]
fn mkdir_multiple_dirs_partial_failure() {
    let mut env = mkdir_env(vec!["mkdir", "/good", "/bad/nested", "/also_good"]);
    let result = mkdir::bin(&mut env).unwrap();
    assert_eq!(1, result.code());
    assert!(env.fs.is_dir("/good"));
    assert!(!env.fs.is_dir("/bad/nested"));
    assert!(env.fs.is_dir("/also_good"));
}

#[test]
fn relative_path_single_component() {
    let mut env = mkdir_env(vec!["mkdir", "foo"]);
    let result = mkdir::bin(&mut env).unwrap();
    assert_eq!(0, result.code());
    assert!(env.fs.is_dir("foo"));
}

#[test]
fn relative_path_nested_with_p() {
    let mut env = mkdir_env(vec!["mkdir", "-p", "foo/bar/baz"]);
    let result = mkdir::bin(&mut env).unwrap();
    assert_eq!(0, result.code());
    assert!(env.fs.is_dir("foo"));
    assert!(env.fs.is_dir("foo/bar"));
    assert!(env.fs.is_dir("foo/bar/baz"));
}

#[test]
fn m_flag_accepted_but_ignored() {
    let mut env = mkdir_env(vec!["mkdir", "-m", "755", "/foo"]);
    let result = mkdir::bin(&mut env).unwrap();
    assert_eq!(0, result.code());
    assert!(env.fs.is_dir("/foo"));
}

#[test]
fn m_flag_with_p() {
    let mut env = mkdir_env(vec!["mkdir", "-p", "-m", "700", "/foo/bar"]);
    let result = mkdir::bin(&mut env).unwrap();
    assert_eq!(0, result.code());
    assert!(env.fs.is_dir("/foo"));
    assert!(env.fs.is_dir("/foo/bar"));
}

fn mktemp_env(
    args: Vec<&str>,
) -> Environment<TestFilesystem> {
    let mut env = TestEnvBuilder::new()
        .args(args)
        .env_var("TMPDIR", "/tmp")
        .build();
    env.fs.add_directory("/tmp");
    env
}

fn mktemp_env_with_tmpdir(
    args: Vec<&str>,
    tmpdir: Option<&str>,
) -> Environment<TestFilesystem> {
    let mut builder = TestEnvBuilder::new().args(args);
    if let Some(dir) = tmpdir {
        builder = builder.env_var("TMPDIR", dir);
    }
    let mut env = builder.build();
    env.fs.add_directory("/tmp");
    env.fs.add_directory("/custom");
    env
}

#[test]
fn no_args_creates_file_in_tmpdir() {
    let mut env = mktemp_env(vec!["mktemp"]);
    let result = mktemp::bin(&mut env).unwrap();
    assert_eq!(0, result.code());
    let stdout = env.stdout.into_string();
    println!("stdout: {:?}", stdout);
    assert!(stdout.starts_with("/tmp/tmp."));
    let path = stdout.trim();
    assert!(env.fs.path_exists(path));
}

#[test]
fn d_flag_creates_directory() {
    let mut env = mktemp_env(vec!["mktemp", "-d"]);
    let result = mktemp::bin(&mut env).unwrap();
    assert_eq!(0, result.code());
    let stdout = env.stdout.into_string();
    println!("stdout: {:?}", stdout);
    let path = stdout.trim();
    assert!(env.fs.is_dir(path));
}

#[test]
fn t_flag_uses_prefix() {
    let mut env = mktemp_env(vec!["mktemp", "-t", "foo"]);
    let result = mktemp::bin(&mut env).unwrap();
    assert_eq!(0, result.code());
    let stdout = env.stdout.into_string();
    println!("stdout: {:?}", stdout);
    assert!(stdout.starts_with("/tmp/foo."));
}

#[test]
fn template_argument() {
    let mut env = mktemp_env(vec!["mktemp", "/tmp/myapp.XXXXXX"]);
    let result = mktemp::bin(&mut env).unwrap();
    assert_eq!(0, result.code());
    let stdout = env.stdout.into_string();
    println!("stdout: {:?}", stdout);
    assert!(stdout.starts_with("/tmp/myapp."));
    let path = stdout.trim();
    assert!(env.fs.path_exists(path));
}

#[test]
fn u_flag_unlinks_file() {
    let mut env = mktemp_env(vec!["mktemp", "-u"]);
    let result = mktemp::bin(&mut env).unwrap();
    assert_eq!(0, result.code());
    let stdout = env.stdout.into_string();
    println!("stdout: {:?}", stdout);
    let path = stdout.trim();
    assert!(!env.fs.path_exists(path));
}

#[test]
fn u_flag_unlinks_directory() {
    let mut env = mktemp_env(vec!["mktemp", "-d", "-u"]);
    let result = mktemp::bin(&mut env).unwrap();
    assert_eq!(0, result.code());
    let stdout = env.stdout.into_string();
    println!("stdout: {:?}", stdout);
    let path = stdout.trim();
    assert!(!env.fs.path_exists(path));
}

#[test]
fn p_flag_overrides_default_tmpdir() {
    let mut env = mktemp_env_with_tmpdir(vec!["mktemp", "-p", "/custom"], None);
    let result = mktemp::bin(&mut env).unwrap();
    assert_eq!(0, result.code());
    let stdout = env.stdout.into_string();
    println!("stdout: {:?}", stdout);
    assert!(stdout.starts_with("/custom/tmp."));
}

#[test]
fn p_flag_overrides_tmpdir_env_with_t() {
    let mut env = mktemp_env_with_tmpdir(vec!["mktemp", "-p", "/custom", "-t", "foo"], Some("/tmp"));
    let result = mktemp::bin(&mut env).unwrap();
    assert_eq!(0, result.code());
    let stdout = env.stdout.into_string();
    println!("stdout: {:?}", stdout);
    assert!(stdout.starts_with("/custom/foo."));
}

#[test]
fn p_flag_without_tmpdir_env() {
    let mut env = mktemp_env_with_tmpdir(vec!["mktemp", "-p", "/custom", "-t", "bar"], None);
    let result = mktemp::bin(&mut env).unwrap();
    assert_eq!(0, result.code());
    let stdout = env.stdout.into_string();
    println!("stdout: {:?}", stdout);
    assert!(stdout.starts_with("/custom/bar."));
}

#[test]
fn multiple_templates() {
    let mut env = mktemp_env(vec![
        "mktemp",
        "/tmp/a.XXXXXX",
        "/tmp/b.XXXXXX",
        "/tmp/c.XXXXXX",
    ]);
    let result = mktemp::bin(&mut env).unwrap();
    assert_eq!(0, result.code());
    let stdout = env.stdout.into_string();
    println!("stdout: {:?}", stdout);
    let lines: Vec<&str> = stdout.lines().collect();
    assert_eq!(3, lines.len());
    assert!(lines[0].starts_with("/tmp/a."));
    assert!(lines[1].starts_with("/tmp/b."));
    assert!(lines[2].starts_with("/tmp/c."));
}

#[test]
fn q_flag_suppresses_errors() {
    let mut env = mktemp_env_with_tmpdir(vec!["mktemp", "-q", "/nonexistent/foo.XXXXXX"], None);
    let result = mktemp::bin(&mut env).unwrap();
    assert_eq!(1, result.code());
    let stderr = env.stderr.into_string();
    println!("stderr: {:?}", stderr);
    assert!(stderr.is_empty());
}

#[test]
fn combined_d_t_flags() {
    let mut env = mktemp_env(vec!["mktemp", "-d", "-t", "mydir"]);
    let result = mktemp::bin(&mut env).unwrap();
    assert_eq!(0, result.code());
    let stdout = env.stdout.into_string();
    println!("stdout: {:?}", stdout);
    assert!(stdout.starts_with("/tmp/mydir."));
    let path = stdout.trim();
    assert!(env.fs.is_dir(path));
}

#[test]
fn p_flag_with_template_argument() {
    let mut env = mktemp_env_with_tmpdir(vec!["mktemp", "-p", "/custom", "test.XXXXXX"], None);
    let result = mktemp::bin(&mut env).unwrap();
    assert_eq!(0, result.code());
    let stdout = env.stdout.into_string();
    println!("stdout: {:?}", stdout);
    assert!(stdout.starts_with("/custom/test."));
}

#[test]
fn trailing_slash_in_tmpdir() {
    let mut env = mktemp_env_with_tmpdir(vec!["mktemp", "-t", "foo"], Some("/tmp/"));
    let result = mktemp::bin(&mut env).unwrap();
    assert_eq!(0, result.code());
    let stdout = env.stdout.into_string();
    println!("stdout: {:?}", stdout);
    assert!(stdout.starts_with("/tmp/foo."));
    assert!(!stdout.contains("//"));
}

fn readlink_env(
    args: Vec<&str>,
) -> Environment<TestFilesystem> {
    let mut env = TestEnvBuilder::new().args(args).cwd("/home/user").build();
    env.fs.add_directory("/home");
    env.fs.add_directory("/home/user");
    env
}

#[test]
fn simple_symlink() {
    let mut env = readlink_env(vec!["readlink", "/link"]);
    env.fs.add_directory("/target");
    env.fs.symlink("/target", "/link").unwrap();
    let result = readlink::bin(&mut env).unwrap();
    assert_eq!(0, result.code());
    assert_eq!("/target\n", env.stdout.into_string());
}

#[test]
fn relative_symlink_target() {
    let mut env = readlink_env(vec!["readlink", "/home/link"]);
    // Note: readlink_env() already creates /home and /home/user
    env.fs.symlink("user", "/home/link").unwrap();
    let result = readlink::bin(&mut env).unwrap();
    assert_eq!(0, result.code());
    // readlink without -f just prints the raw target
    assert_eq!("user\n", env.stdout.into_string());
}

#[test]
fn not_a_symlink() {
    let mut env = readlink_env(vec!["readlink", "/regular"]);
    env.fs.add_file("/regular", "content");
    let result = readlink::bin(&mut env).unwrap();
    assert_eq!(1, result.code());
    let stderr = env.stderr.into_string();
    println!("stderr: {:?}", stderr);
    assert!(stderr.contains("Not a symbolic link"));
}

#[test]
fn directory_not_a_symlink() {
    let mut env = readlink_env(vec!["readlink", "/dir"]);
    env.fs.add_directory("/dir");
    let result = readlink::bin(&mut env).unwrap();
    assert_eq!(1, result.code());
    let stderr = env.stderr.into_string();
    println!("stderr: {:?}", stderr);
    assert!(stderr.contains("Not a symbolic link"));
}

#[test]
fn nonexistent_path() {
    let mut env = readlink_env(vec!["readlink", "/nonexistent"]);
    let result = readlink::bin(&mut env).unwrap();
    assert_eq!(1, result.code());
    let stderr = env.stderr.into_string();
    println!("stderr: {:?}", stderr);
    assert!(stderr.contains("No such file or directory"));
}

#[test]
fn readlink_no_trailing_newline() {
    let mut env = readlink_env(vec!["readlink", "-n", "/link"]);
    env.fs.add_directory("/target");
    env.fs.symlink("/target", "/link").unwrap();
    let result = readlink::bin(&mut env).unwrap();
    assert_eq!(0, result.code());
    assert_eq!("/target", env.stdout.into_string());
}

#[test]
fn canonicalize_symlink() {
    let mut env = readlink_env(vec!["readlink", "-f", "/link"]);
    env.fs.add_directory("/actual");
    env.fs.symlink("/actual", "/link").unwrap();
    let result = readlink::bin(&mut env).unwrap();
    assert_eq!(0, result.code());
    assert_eq!("/actual\n", env.stdout.into_string());
}

#[test]
fn canonicalize_chain() {
    let mut env = readlink_env(vec!["readlink", "-f", "/link1"]);
    env.fs.add_directory("/actual");
    env.fs.symlink("/link2", "/link1").unwrap();
    env.fs.symlink("/actual", "/link2").unwrap();
    let result = readlink::bin(&mut env).unwrap();
    assert_eq!(0, result.code());
    assert_eq!("/actual\n", env.stdout.into_string());
}

#[test]
fn canonicalize_relative_symlink() {
    let mut env = readlink_env(vec!["readlink", "-f", "/home/link"]);
    // Note: readlink_env() already creates /home and /home/user
    env.fs.symlink("user", "/home/link").unwrap();
    let result = readlink::bin(&mut env).unwrap();
    assert_eq!(0, result.code());
    assert_eq!("/home/user\n", env.stdout.into_string());
}

#[test]
fn canonicalize_regular_file() {
    let mut env = readlink_env(vec!["readlink", "-f", "/regular"]);
    env.fs.add_file("/regular", "content");
    let result = readlink::bin(&mut env).unwrap();
    assert_eq!(0, result.code());
    // -f works on regular files too, returns canonical path
    assert_eq!("/regular\n", env.stdout.into_string());
}

#[test]
fn canonicalize_with_dotdot() {
    let mut env = readlink_env(vec!["readlink", "-f", "/usr/bin/../lib"]);
    env.fs.add_directory("/usr");
    env.fs.add_directory("/usr/bin");
    env.fs.add_directory("/usr/lib");
    let result = readlink::bin(&mut env).unwrap();
    assert_eq!(0, result.code());
    assert_eq!("/usr/lib\n", env.stdout.into_string());
}

#[test]
fn readlink_multiple_files() {
    let mut env = readlink_env(vec!["readlink", "/link1", "/link2"]);
    env.fs.add_directory("/target1");
    env.fs.add_directory("/target2");
    env.fs.symlink("/target1", "/link1").unwrap();
    env.fs.symlink("/target2", "/link2").unwrap();
    let result = readlink::bin(&mut env).unwrap();
    assert_eq!(0, result.code());
    assert_eq!("/target1\n/target2\n", env.stdout.into_string());
}

#[test]
fn multiple_files_one_fails() {
    let mut env = readlink_env(vec!["readlink", "/link", "/regular"]);
    env.fs.add_directory("/target");
    env.fs.symlink("/target", "/link").unwrap();
    env.fs.add_file("/regular", "content");
    let result = readlink::bin(&mut env).unwrap();
    assert_eq!(1, result.code());
    assert_eq!("/target\n", env.stdout.into_string());
    let stderr = env.stderr.into_string();
    println!("stderr: {:?}", stderr);
    assert!(stderr.contains("Not a symbolic link"));
}

#[test]
fn missing_operand() {
    let mut env = readlink_env(vec!["readlink"]);
    let result = readlink::bin(&mut env).unwrap();
    assert_eq!(1, result.code());
    let stderr = env.stderr.into_string();
    println!("stderr: {:?}", stderr);
    assert!(stderr.contains("missing operand"));
}

#[test]
fn canonicalize_nonexistent() {
    let mut env = readlink_env(vec!["readlink", "-f", "/nonexistent"]);
    let result = readlink::bin(&mut env).unwrap();
    assert_eq!(1, result.code());
    let stderr = env.stderr.into_string();
    println!("stderr: {:?}", stderr);
    assert!(stderr.contains("No such file or directory"));
}

#[test]
fn relative_path_input() {
    let mut env = readlink_env(vec!["readlink", "link"]);
    // Note: readlink_env() already creates /home and /home/user
    env.fs.add_directory("/target");
    env.fs.symlink("/target", "/home/user/link").unwrap();
    let result = readlink::bin(&mut env).unwrap();
    assert_eq!(0, result.code());
    assert_eq!("/target\n", env.stdout.into_string());
}

#[test]
fn canonicalize_and_no_newline() {
    let mut env = readlink_env(vec!["readlink", "-f", "-n", "/link"]);
    env.fs.add_directory("/actual");
    env.fs.symlink("/actual", "/link").unwrap();
    let result = readlink::bin(&mut env).unwrap();
    assert_eq!(0, result.code());
    assert_eq!("/actual", env.stdout.into_string());
}

fn rm_env(
    args: Vec<&str>,
) -> Environment<TestFilesystem> {
    TestEnvBuilder::new().args(args).build()
}

#[test]
fn rm_no_args_shows_usage() {
    let mut env = rm_env(vec!["rm"]);
    let result = rm::bin(&mut env).unwrap();
    assert_eq!(64, result.code());
    let stderr = env.stderr.into_string();
    println!("stderr: {:?}", stderr);
    assert!(stderr.contains("usage:"));
}

#[test]
fn no_args_with_f_succeeds() {
    let mut env = rm_env(vec!["rm", "-f"]);
    let result = rm::bin(&mut env).unwrap();
    assert_eq!(0, result.code());
}

#[test]
fn remove_single_file() {
    let mut env = rm_env(vec!["rm", "/foo"]);
    env.fs.write_string("/foo", "content").unwrap();
    assert!(env.fs.path_exists("/foo"));
    let result = rm::bin(&mut env).unwrap();
    assert_eq!(0, result.code());
    assert!(!env.fs.path_exists("/foo"));
}

#[test]
fn remove_multiple_files() {
    let mut env = rm_env(vec!["rm", "/foo", "/bar", "/baz"]);
    env.fs.write_string("/foo", "a").unwrap();
    env.fs.write_string("/bar", "b").unwrap();
    env.fs.write_string("/baz", "c").unwrap();
    let result = rm::bin(&mut env).unwrap();
    assert_eq!(0, result.code());
    assert!(!env.fs.path_exists("/foo"));
    assert!(!env.fs.path_exists("/bar"));
    assert!(!env.fs.path_exists("/baz"));
}

#[test]
fn rm_remove_nonexistent_fails() {
    let mut env = rm_env(vec!["rm", "/nonexistent"]);
    let result = rm::bin(&mut env).unwrap();
    assert_eq!(1, result.code());
    let stderr = env.stderr.into_string();
    println!("stderr: {:?}", stderr);
    assert!(stderr.contains("No such file or directory"));
}

#[test]
fn remove_nonexistent_with_f_succeeds() {
    let mut env = rm_env(vec!["rm", "-f", "/nonexistent"]);
    let result = rm::bin(&mut env).unwrap();
    assert_eq!(0, result.code());
}

#[test]
fn remove_directory_without_d_fails() {
    let mut env = rm_env(vec!["rm", "/foo"]);
    env.fs.mkdir("/foo").unwrap();
    let result = rm::bin(&mut env).unwrap();
    assert_eq!(1, result.code());
    let stderr = env.stderr.into_string();
    println!("stderr: {:?}", stderr);
    assert!(stderr.contains("is a directory"));
    assert!(env.fs.is_dir("/foo"));
}

#[test]
fn d_removes_empty_directory() {
    let mut env = rm_env(vec!["rm", "-d", "/foo"]);
    env.fs.mkdir("/foo").unwrap();
    let result = rm::bin(&mut env).unwrap();
    assert_eq!(0, result.code());
    assert!(!env.fs.path_exists("/foo"));
}

#[test]
fn d_fails_on_nonempty_directory() {
    let mut env = rm_env(vec!["rm", "-d", "/foo"]);
    env.fs.mkdir("/foo").unwrap();
    env.fs.write_string("/foo/bar", "content").unwrap();
    let result = rm::bin(&mut env).unwrap();
    assert_eq!(1, result.code());
    let stderr = env.stderr.into_string();
    println!("stderr: {:?}", stderr);
    assert!(stderr.contains("Directory not empty"));
    assert!(env.fs.is_dir("/foo"));
}

#[test]
fn r_removes_directory_tree() {
    let mut env = rm_env(vec!["rm", "-r", "/foo"]);
    env.fs.mkdir("/foo").unwrap();
    env.fs.mkdir("/foo/bar").unwrap();
    env.fs.write_string("/foo/bar/baz", "content").unwrap();
    env.fs.write_string("/foo/qux", "content").unwrap();
    let result = rm::bin(&mut env).unwrap();
    assert_eq!(0, result.code());
    assert!(!env.fs.path_exists("/foo"));
    assert!(!env.fs.path_exists("/foo/bar"));
    assert!(!env.fs.path_exists("/foo/bar/baz"));
    assert!(!env.fs.path_exists("/foo/qux"));
}

#[test]
fn capital_r_removes_directory_tree() {
    let mut env = rm_env(vec!["rm", "-R", "/foo"]);
    env.fs.mkdir("/foo").unwrap();
    env.fs.write_string("/foo/bar", "content").unwrap();
    let result = rm::bin(&mut env).unwrap();
    assert_eq!(0, result.code());
    assert!(!env.fs.path_exists("/foo"));
}

#[test]
fn r_removes_single_file() {
    let mut env = rm_env(vec!["rm", "-r", "/foo"]);
    env.fs.write_string("/foo", "content").unwrap();
    let result = rm::bin(&mut env).unwrap();
    assert_eq!(0, result.code());
    assert!(!env.fs.path_exists("/foo"));
}

#[test]
fn r_deep_tree() {
    let mut env = rm_env(vec!["rm", "-r", "/a"]);
    env.fs.mkdir("/a").unwrap();
    env.fs.mkdir("/a/b").unwrap();
    env.fs.mkdir("/a/b/c").unwrap();
    env.fs.mkdir("/a/b/c/d").unwrap();
    env.fs.write_string("/a/b/c/d/file", "content").unwrap();
    let result = rm::bin(&mut env).unwrap();
    assert_eq!(0, result.code());
    assert!(!env.fs.path_exists("/a"));
}

#[test]
fn rf_nonexistent_succeeds() {
    let mut env = rm_env(vec!["rm", "-rf", "/nonexistent"]);
    let result = rm::bin(&mut env).unwrap();
    assert_eq!(0, result.code());
}

#[test]
fn v_prints_removed_file() {
    let mut env = rm_env(vec!["rm", "-v", "/foo"]);
    env.fs.write_string("/foo", "content").unwrap();
    let result = rm::bin(&mut env).unwrap();
    assert_eq!(0, result.code());
    let stdout = env.stdout.into_string();
    println!("stdout: {:?}", stdout);
    assert!(stdout.contains("/foo"));
}

#[test]
fn rv_prints_all_removed() {
    let mut env = rm_env(vec!["rm", "-rv", "/foo"]);
    env.fs.mkdir("/foo").unwrap();
    env.fs.write_string("/foo/bar", "content").unwrap();
    let result = rm::bin(&mut env).unwrap();
    assert_eq!(0, result.code());
    let stdout = env.stdout.into_string();
    println!("stdout: {:?}", stdout);
    assert!(stdout.contains("/foo/bar"));
    assert!(stdout.contains("/foo\n"));
}

#[test]
fn reject_root() {
    let mut env = rm_env(vec!["rm", "-rf", "/"]);
    let result = rm::bin(&mut env).unwrap();
    assert_eq!(1, result.code());
    let stderr = env.stderr.into_string();
    println!("stderr: {:?}", stderr);
    assert!(stderr.contains("\"/\" may not be removed"));
}

#[test]
fn reject_dot() {
    let mut env = rm_env(vec!["rm", "-rf", "."]);
    let result = rm::bin(&mut env).unwrap();
    assert_eq!(1, result.code());
    let stderr = env.stderr.into_string();
    println!("stderr: {:?}", stderr);
    assert!(stderr.contains("\".\" and \"..\" may not be removed"));
}

#[test]
fn reject_dotdot() {
    let mut env = rm_env(vec!["rm", "-rf", ".."]);
    let result = rm::bin(&mut env).unwrap();
    assert_eq!(1, result.code());
    let stderr = env.stderr.into_string();
    println!("stderr: {:?}", stderr);
    assert!(stderr.contains("\".\" and \"..\" may not be removed"));
}

#[test]
fn reject_path_ending_in_dot() {
    let mut env = rm_env(vec!["rm", "-rf", "/foo/."]);
    let result = rm::bin(&mut env).unwrap();
    assert_eq!(1, result.code());
}

#[test]
fn reject_path_ending_in_dotdot() {
    let mut env = rm_env(vec!["rm", "-rf", "/foo/.."]);
    let result = rm::bin(&mut env).unwrap();
    assert_eq!(1, result.code());
}

#[test]
fn unlink_removes_file() {
    let mut env = rm_env(vec!["unlink", "/foo"]);
    env.fs.write_string("/foo", "content").unwrap();
    let result = rm::bin(&mut env).unwrap();
    assert_eq!(0, result.code());
    assert!(!env.fs.path_exists("/foo"));
}

#[test]
fn unlink_with_double_dash() {
    let mut env = rm_env(vec!["unlink", "--", "/foo"]);
    env.fs.write_string("/foo", "content").unwrap();
    let result = rm::bin(&mut env).unwrap();
    assert_eq!(0, result.code());
    assert!(!env.fs.path_exists("/foo"));
}

#[test]
fn unlink_dash_filename() {
    let mut env = rm_env(vec!["unlink", "-foo"]);
    env.fs.write_string("-foo", "content").unwrap();
    let result = rm::bin(&mut env).unwrap();
    assert_eq!(0, result.code());
    assert!(!env.fs.path_exists("-foo"));
}

#[test]
fn unlink_rejects_directory() {
    let mut env = rm_env(vec!["unlink", "/foo"]);
    env.fs.mkdir("/foo").unwrap();
    let result = rm::bin(&mut env).unwrap();
    assert_eq!(1, result.code());
    let stderr = env.stderr.into_string();
    println!("stderr: {:?}", stderr);
    assert!(stderr.contains("is a directory"));
    assert!(env.fs.is_dir("/foo"));
}

#[test]
fn unlink_no_args_shows_usage() {
    let mut env = rm_env(vec!["unlink"]);
    let result = rm::bin(&mut env).unwrap();
    assert_eq!(64, result.code());
    let stderr = env.stderr.into_string();
    println!("stderr: {:?}", stderr);
    assert!(stderr.contains("usage:"));
}

#[test]
fn unlink_too_many_args_shows_usage() {
    let mut env = rm_env(vec!["unlink", "foo", "bar"]);
    let result = rm::bin(&mut env).unwrap();
    assert_eq!(64, result.code());
}

#[test]
fn unlink_nonexistent_fails() {
    let mut env = rm_env(vec!["unlink", "/nonexistent"]);
    let result = rm::bin(&mut env).unwrap();
    assert_eq!(1, result.code());
}

#[test]
fn multiple_files_partial_failure() {
    let mut env = rm_env(vec!["rm", "/good", "/nonexistent", "/also_good"]);
    env.fs.write_string("/good", "a").unwrap();
    env.fs.write_string("/also_good", "b").unwrap();
    let result = rm::bin(&mut env).unwrap();
    assert_eq!(1, result.code());
    assert!(!env.fs.path_exists("/good"));
    assert!(!env.fs.path_exists("/also_good"));
}

#[test]
fn rm_trailing_slashes_handled() {
    let mut env = rm_env(vec!["rm", "-r", "/foo/"]);
    env.fs.mkdir("/foo").unwrap();
    env.fs.write_string("/foo/bar", "content").unwrap();
    let result = rm::bin(&mut env).unwrap();
    assert_eq!(0, result.code());
    assert!(!env.fs.path_exists("/foo"));
}

#[test]
fn rm_relative_path() {
    let mut env = rm_env(vec!["rm", "foo"]);
    env.fs.write_string("foo", "content").unwrap();
    let result = rm::bin(&mut env).unwrap();
    assert_eq!(0, result.code());
    assert!(!env.fs.path_exists("foo"));
}

#[test]
fn remove_symlink_not_target() {
    let mut env = rm_env(vec!["rm", "/link"]);
    env.fs.write_string("/target", "content").unwrap();
    env.fs.symlink("/target", "/link").unwrap();
    let result = rm::bin(&mut env).unwrap();
    assert_eq!(0, result.code());
    assert!(!env.fs.path_exists("/link"));
    assert!(env.fs.path_exists("/target"));
}

fn rmdir_env(
    args: Vec<&str>,
) -> Environment<TestFilesystem> {
    TestEnvBuilder::new().args(args).build()
}

#[test]
fn rmdir_no_args_shows_usage() {
    let mut env = rmdir_env(vec!["rmdir"]);
    let result = rmdir::bin(&mut env).unwrap();
    assert_eq!(2, result.code());
    let stderr = env.stderr.into_string();
    println!("stderr: {:?}", stderr);
    assert!(stderr.contains("usage:"));
}

#[test]
fn remove_empty_directory() {
    let mut env = rmdir_env(vec!["rmdir", "/foo"]);
    env.fs.mkdir("/foo").unwrap();
    assert!(env.fs.is_dir("/foo"));
    let result = rmdir::bin(&mut env).unwrap();
    assert_eq!(0, result.code());
    assert!(!env.fs.is_dir("/foo"));
    assert!(!env.fs.path_exists("/foo"));
}

#[test]
fn remove_multiple_directories() {
    let mut env = rmdir_env(vec!["rmdir", "/foo", "/bar", "/baz"]);
    env.fs.mkdir("/foo").unwrap();
    env.fs.mkdir("/bar").unwrap();
    env.fs.mkdir("/baz").unwrap();
    let result = rmdir::bin(&mut env).unwrap();
    assert_eq!(0, result.code());
    assert!(!env.fs.path_exists("/foo"));
    assert!(!env.fs.path_exists("/bar"));
    assert!(!env.fs.path_exists("/baz"));
}

#[test]
fn rmdir_remove_nonexistent_fails() {
    let mut env = rmdir_env(vec!["rmdir", "/nonexistent"]);
    let result = rmdir::bin(&mut env).unwrap();
    assert_eq!(1, result.code());
    let stderr = env.stderr.into_string();
    println!("stderr: {:?}", stderr);
    assert!(stderr.contains("No such file or directory"));
}

#[test]
fn remove_file_fails() {
    let mut env = rmdir_env(vec!["rmdir", "/foo"]);
    env.fs.write_string("/foo", "content").unwrap();
    let result = rmdir::bin(&mut env).unwrap();
    assert_eq!(1, result.code());
    let stderr = env.stderr.into_string();
    println!("stderr: {:?}", stderr);
    assert!(stderr.contains("Not a directory"));
}

#[test]
fn remove_nonempty_directory_fails() {
    let mut env = rmdir_env(vec!["rmdir", "/foo"]);
    env.fs.mkdir("/foo").unwrap();
    env.fs.mkdir("/foo/bar").unwrap();
    let result = rmdir::bin(&mut env).unwrap();
    assert_eq!(1, result.code());
    let stderr = env.stderr.into_string();
    println!("stderr: {:?}", stderr);
    assert!(stderr.contains("Directory not empty"));
    assert!(env.fs.is_dir("/foo"));
}

#[test]
fn p_removes_parent_directories() {
    let mut env = rmdir_env(vec!["rmdir", "-p", "/foo/bar/baz"]);
    env.fs.mkdir("/foo").unwrap();
    env.fs.mkdir("/foo/bar").unwrap();
    env.fs.mkdir("/foo/bar/baz").unwrap();
    let result = rmdir::bin(&mut env).unwrap();
    assert_eq!(0, result.code());
    assert!(!env.fs.path_exists("/foo/bar/baz"));
    assert!(!env.fs.path_exists("/foo/bar"));
    assert!(!env.fs.path_exists("/foo"));
}

#[test]
fn p_stops_at_nonempty_parent() {
    let mut env = rmdir_env(vec!["rmdir", "-p", "/foo/bar/baz"]);
    env.fs.mkdir("/foo").unwrap();
    env.fs.mkdir("/foo/bar").unwrap();
    env.fs.mkdir("/foo/bar/baz").unwrap();
    env.fs.write_string("/foo/sibling", "content").unwrap();
    let result = rmdir::bin(&mut env).unwrap();
    assert_eq!(1, result.code());
    assert!(!env.fs.path_exists("/foo/bar/baz"));
    assert!(!env.fs.path_exists("/foo/bar"));
    assert!(env.fs.is_dir("/foo"));
    let stderr = env.stderr.into_string();
    println!("stderr: {:?}", stderr);
    assert!(stderr.contains("Directory not empty"));
}

#[test]
fn p_initial_failure_no_parent_removal() {
    let mut env = rmdir_env(vec!["rmdir", "-p", "/foo/bar/baz"]);
    env.fs.mkdir("/foo").unwrap();
    env.fs.mkdir("/foo/bar").unwrap();
    env.fs.mkdir("/foo/bar/baz").unwrap();
    env.fs.write_string("/foo/bar/baz/file", "content").unwrap();
    let result = rmdir::bin(&mut env).unwrap();
    assert_eq!(1, result.code());
    assert!(env.fs.is_dir("/foo/bar/baz"));
    assert!(env.fs.is_dir("/foo/bar"));
    assert!(env.fs.is_dir("/foo"));
}

#[test]
fn v_prints_removed_directory() {
    let mut env = rmdir_env(vec!["rmdir", "-v", "/foo"]);
    env.fs.mkdir("/foo").unwrap();
    let result = rmdir::bin(&mut env).unwrap();
    assert_eq!(0, result.code());
    let stdout = env.stdout.into_string();
    println!("stdout: {:?}", stdout);
    assert!(stdout.contains("/foo"));
}

#[test]
fn pv_prints_all_removed_directories() {
    let mut env = rmdir_env(vec!["rmdir", "-pv", "/foo/bar/baz"]);
    env.fs.mkdir("/foo").unwrap();
    env.fs.mkdir("/foo/bar").unwrap();
    env.fs.mkdir("/foo/bar/baz").unwrap();
    let result = rmdir::bin(&mut env).unwrap();
    assert_eq!(0, result.code());
    let stdout = env.stdout.into_string();
    println!("stdout: {:?}", stdout);
    assert!(stdout.contains("/foo/bar/baz\n"));
    assert!(stdout.contains("/foo/bar\n"));
    assert!(stdout.contains("/foo\n"));
}

#[test]
fn v_no_output_on_failure() {
    let mut env = rmdir_env(vec!["rmdir", "-v", "/nonexistent"]);
    let result = rmdir::bin(&mut env).unwrap();
    assert_eq!(1, result.code());
    let stdout = env.stdout.into_string();
    println!("stdout: {:?}", stdout);
    assert!(stdout.is_empty());
}

#[test]
fn rmdir_multiple_dirs_partial_failure() {
    let mut env = rmdir_env(vec!["rmdir", "/good1", "/nonempty", "/good2"]);
    env.fs.mkdir("/good1").unwrap();
    env.fs.mkdir("/nonempty").unwrap();
    env.fs.mkdir("/nonempty/child").unwrap();
    env.fs.mkdir("/good2").unwrap();
    let result = rmdir::bin(&mut env).unwrap();
    assert_eq!(1, result.code());
    assert!(!env.fs.path_exists("/good1"));
    assert!(env.fs.is_dir("/nonempty"));
    assert!(!env.fs.path_exists("/good2"));
}

#[test]
fn rmdir_relative_path() {
    let mut env = rmdir_env(vec!["rmdir", "foo"]);
    env.fs.mkdir("foo").unwrap();
    let result = rmdir::bin(&mut env).unwrap();
    assert_eq!(0, result.code());
    assert!(!env.fs.path_exists("foo"));
}

#[test]
fn rmdir_trailing_slashes_handled() {
    let mut env = rmdir_env(vec!["rmdir", "-p", "/foo/bar/"]);
    env.fs.mkdir("/foo").unwrap();
    env.fs.mkdir("/foo/bar").unwrap();
    let result = rmdir::bin(&mut env).unwrap();
    assert_eq!(0, result.code());
    assert!(!env.fs.path_exists("/foo/bar"));
    assert!(!env.fs.path_exists("/foo"));
}

#[test]
fn exit_code_2_on_invalid_option() {
    let mut env = rmdir_env(vec!["rmdir", "-x", "/foo"]);
    let result = rmdir::bin(&mut env).unwrap();
    assert_eq!(2, result.code());
}

#[test]
fn generate_suffix_alphabetic() {
    assert_eq!("aa", generate_suffix(0, 2, false));
    assert_eq!("ab", generate_suffix(1, 2, false));
    assert_eq!("az", generate_suffix(25, 2, false));
    assert_eq!("ba", generate_suffix(26, 2, false));
    assert_eq!("zz", generate_suffix(675, 2, false));
}

#[test]
fn generate_suffix_numeric() {
    assert_eq!("00", generate_suffix(0, 2, true));
    assert_eq!("01", generate_suffix(1, 2, true));
    assert_eq!("09", generate_suffix(9, 2, true));
    assert_eq!("10", generate_suffix(10, 2, true));
    assert_eq!("99", generate_suffix(99, 2, true));
}

#[test]
fn generate_suffix_three_chars() {
    assert_eq!("aaa", generate_suffix(0, 3, false));
    assert_eq!("aab", generate_suffix(1, 3, false));
    assert_eq!("aba", generate_suffix(26, 3, false));
}

#[test]
fn max_files_calculation() {
    assert_eq!(676, max_files(2, false));
    assert_eq!(100, max_files(2, true));
    assert_eq!(17576, max_files(3, false));
    assert_eq!(1000, max_files(3, true));
}

#[test]
fn parse_byte_count_plain() {
    assert_eq!(Some(100), parse_byte_count("100"));
    assert_eq!(Some(1), parse_byte_count("1"));
}

#[test]
fn parse_byte_count_k_suffix() {
    assert_eq!(Some(1024), parse_byte_count("1k"));
    assert_eq!(Some(1024), parse_byte_count("1K"));
    assert_eq!(Some(2048), parse_byte_count("2k"));
}

#[test]
fn parse_byte_count_m_suffix() {
    assert_eq!(Some(1024 * 1024), parse_byte_count("1m"));
    assert_eq!(Some(1024 * 1024), parse_byte_count("1M"));
}

#[test]
fn parse_byte_count_g_suffix() {
    assert_eq!(Some(1024 * 1024 * 1024), parse_byte_count("1g"));
    assert_eq!(Some(1024 * 1024 * 1024), parse_byte_count("1G"));
}

#[test]
fn parse_byte_count_invalid() {
    assert_eq!(None, parse_byte_count(""));
    assert_eq!(None, parse_byte_count("abc"));
    assert_eq!(None, parse_byte_count("1x"));
}

#[test]
fn default_split_1000_lines() {
    let mut input = String::new();
    for i in 1..=2500 {
        input.push_str(&format!("line{}\n", i));
    }
    let mut env = make_test_env_with_stdin(vec!["split"], &input);
    let result = split::bin(&mut env).unwrap();
    assert_eq!(0, result.code());

    let xaa = env.fs.read_to_string("xaa").unwrap();
    let xab = env.fs.read_to_string("xab").unwrap();
    let xac = env.fs.read_to_string("xac").unwrap();

    assert_eq!(1000, xaa.lines().count());
    assert_eq!(1000, xab.lines().count());
    assert_eq!(500, xac.lines().count());
    assert!(xaa.starts_with("line1\n"));
    assert!(xab.starts_with("line1001\n"));
    assert!(xac.starts_with("line2001\n"));
}

#[test]
fn split_stdin_two_lines_each() {
    let mut env =
        make_test_env_with_stdin(vec!["split", "-l", "2"], "one\ntwo\nthree\nfour\nfive\n");
    let result = split::bin(&mut env).unwrap();
    assert_eq!(0, result.code());

    assert_eq!("one\ntwo\n", env.fs.read_to_string("xaa").unwrap());
    assert_eq!("three\nfour\n", env.fs.read_to_string("xab").unwrap());
    assert_eq!("five\n", env.fs.read_to_string("xac").unwrap());
}

#[test]
fn split_from_file() {
    let mut env = make_test_env_with_stdin(vec!["split", "-l", "2", "input.txt"], "");
    env.fs.add_file("input.txt", "a\nb\nc\nd\n");
    let result = split::bin(&mut env).unwrap();
    assert_eq!(0, result.code());

    assert_eq!("a\nb\n", env.fs.read_to_string("xaa").unwrap());
    assert_eq!("c\nd\n", env.fs.read_to_string("xab").unwrap());
}

#[test]
fn split_with_custom_prefix() {
    let mut env = make_test_env_with_stdin(vec!["split", "-l", "1", "-", "out_"], "foo\nbar\n");
    let result = split::bin(&mut env).unwrap();
    assert_eq!(0, result.code());

    assert_eq!("foo\n", env.fs.read_to_string("out_aa").unwrap());
    assert_eq!("bar\n", env.fs.read_to_string("out_ab").unwrap());
}

#[test]
fn split_file_with_prefix() {
    let mut env = make_test_env_with_stdin(vec!["split", "-l", "1", "in.txt", "chunk_"], "");
    env.fs.add_file("in.txt", "x\ny\nz\n");
    let result = split::bin(&mut env).unwrap();
    assert_eq!(0, result.code());

    assert_eq!("x\n", env.fs.read_to_string("chunk_aa").unwrap());
    assert_eq!("y\n", env.fs.read_to_string("chunk_ab").unwrap());
    assert_eq!("z\n", env.fs.read_to_string("chunk_ac").unwrap());
}

#[test]
fn split_by_bytes_simple() {
    let mut env = make_test_env_with_stdin(vec!["split", "-b", "5"], "0123456789");
    let result = split::bin(&mut env).unwrap();
    assert_eq!(0, result.code());

    assert_eq!("01234", env.fs.read_to_string("xaa").unwrap());
    assert_eq!("56789", env.fs.read_to_string("xab").unwrap());
}

#[test]
fn split_by_bytes_with_remainder() {
    let mut env = make_test_env_with_stdin(vec!["split", "-b", "3", "input.txt"], "");
    env.fs.add_file("input.txt", "12345678");
    let result = split::bin(&mut env).unwrap();
    assert_eq!(0, result.code());

    assert_eq!("123", env.fs.read_to_string("xaa").unwrap());
    assert_eq!("456", env.fs.read_to_string("xab").unwrap());
    assert_eq!("78", env.fs.read_to_string("xac").unwrap());
}

#[test]
fn split_by_bytes_k_suffix() {
    let input = "x".repeat(2048);
    let mut env = make_test_env_with_stdin(vec!["split", "-b", "1k"], &input);
    let result = split::bin(&mut env).unwrap();
    assert_eq!(0, result.code());

    assert_eq!(1024, env.fs.read_to_string("xaa").unwrap().len());
    assert_eq!(1024, env.fs.read_to_string("xab").unwrap().len());
}

#[test]
fn split_into_chunks() {
    let mut env = make_test_env_with_stdin(vec!["split", "-n", "3"], "123456789");
    let result = split::bin(&mut env).unwrap();
    assert_eq!(0, result.code());

    assert_eq!("123", env.fs.read_to_string("xaa").unwrap());
    assert_eq!("456", env.fs.read_to_string("xab").unwrap());
    assert_eq!("789", env.fs.read_to_string("xac").unwrap());
}

#[test]
fn split_into_chunks_more_than_bytes() {
    let mut env = make_test_env_with_stdin(vec!["split", "-n", "100"], "abc");
    let result = split::bin(&mut env).unwrap();
    assert_eq!(1, result.code());
    let stderr = env.stderr.into_string();
    println!("stderr: {:?}", stderr);
    assert!(stderr.contains("can't split into more than"));
}

#[test]
fn split_by_pattern() {
    let input = "header\ndata1\ndata2\nheader\ndata3\n";
    let mut env = make_test_env_with_stdin(vec!["split", "-p", "^header"], input);
    let result = split::bin(&mut env).unwrap();
    assert_eq!(0, result.code());

    assert_eq!(
        "header\ndata1\ndata2\n",
        env.fs.read_to_string("xaa").unwrap()
    );
    assert_eq!("header\ndata3\n", env.fs.read_to_string("xab").unwrap());
}

#[test]
fn split_by_pattern_no_initial_match() {
    let input = "prelude\nchapter\ntext\nchapter\nmore\n";
    let mut env = make_test_env_with_stdin(vec!["split", "-p", "^chapter"], input);
    let result = split::bin(&mut env).unwrap();
    assert_eq!(0, result.code());

    assert_eq!("prelude\n", env.fs.read_to_string("xaa").unwrap());
    assert_eq!("chapter\ntext\n", env.fs.read_to_string("xab").unwrap());
    assert_eq!("chapter\nmore\n", env.fs.read_to_string("xac").unwrap());
}

#[test]
fn numeric_suffix() {
    let mut env = make_test_env_with_stdin(vec!["split", "-d", "-l", "1"], "a\nb\nc\n");
    let result = split::bin(&mut env).unwrap();
    assert_eq!(0, result.code());

    assert_eq!("a\n", env.fs.read_to_string("x00").unwrap());
    assert_eq!("b\n", env.fs.read_to_string("x01").unwrap());
    assert_eq!("c\n", env.fs.read_to_string("x02").unwrap());
}

#[test]
fn custom_suffix_length() {
    let mut env = make_test_env_with_stdin(vec!["split", "-a", "3", "-l", "1"], "a\nb\n");
    let result = split::bin(&mut env).unwrap();
    assert_eq!(0, result.code());

    assert_eq!("a\n", env.fs.read_to_string("xaaa").unwrap());
    assert_eq!("b\n", env.fs.read_to_string("xaab").unwrap());
}

#[test]
fn suffix_length_one() {
    let mut env = make_test_env_with_stdin(vec!["split", "-a", "1", "-l", "1"], "a\nb\nc\n");
    let result = split::bin(&mut env).unwrap();
    assert_eq!(0, result.code());

    assert_eq!("a\n", env.fs.read_to_string("xa").unwrap());
    assert_eq!("b\n", env.fs.read_to_string("xb").unwrap());
    assert_eq!("c\n", env.fs.read_to_string("xc").unwrap());
}

#[test]
fn no_clobber_skips_existing() {
    let mut env = make_test_env_with_stdin(vec!["split", "-c", "-l", "1"], "a\nb\nc\n");
    env.fs.add_file("xab", "existing");
    let result = split::bin(&mut env).unwrap();
    assert_eq!(0, result.code());

    assert_eq!("a\n", env.fs.read_to_string("xaa").unwrap());
    assert_eq!("existing", env.fs.read_to_string("xab").unwrap());
    assert_eq!("b\n", env.fs.read_to_string("xac").unwrap());
    assert_eq!("c\n", env.fs.read_to_string("xad").unwrap());
}

#[test]
fn invalid_line_count() {
    let mut env = make_test_env_with_stdin(vec!["split", "-l", "0"], "test");
    let result = split::bin(&mut env).unwrap();
    assert_eq!(1, result.code());
    let stderr = env.stderr.into_string();
    println!("stderr: {:?}", stderr);
    assert!(stderr.contains("invalid line count"));
}

#[test]
fn invalid_line_count_negative() {
    let mut env = make_test_env_with_stdin(vec!["split", "-l", "-5"], "test");
    let result = split::bin(&mut env).unwrap();
    assert_eq!(1, result.code());
    let stderr = env.stderr.into_string();
    println!("stderr: {:?}", stderr);
    assert!(stderr.contains("invalid line count"));
}

#[test]
fn invalid_byte_count() {
    let mut env = make_test_env_with_stdin(vec!["split", "-b", "0"], "test");
    let result = split::bin(&mut env).unwrap();
    assert_eq!(1, result.code());
    let stderr = env.stderr.into_string();
    println!("stderr: {:?}", stderr);
    assert!(stderr.contains("invalid byte count"));
}

#[test]
fn invalid_chunk_count() {
    let mut env = make_test_env_with_stdin(vec!["split", "-n", "0"], "test");
    let result = split::bin(&mut env).unwrap();
    assert_eq!(1, result.code());
    let stderr = env.stderr.into_string();
    println!("stderr: {:?}", stderr);
    assert!(stderr.contains("invalid chunk count"));
}

#[test]
fn split_invalid_regex() {
    let mut env = make_test_env_with_stdin(vec!["split", "-p", "[invalid"], "test");
    let result = split::bin(&mut env).unwrap();
    assert_eq!(1, result.code());
    let stderr = env.stderr.into_string();
    println!("stderr: {:?}", stderr);
    assert!(stderr.contains("invalid regex"));
}

#[test]
fn mutually_exclusive_b_n() {
    let mut env = make_test_env_with_stdin(vec!["split", "-b", "10", "-n", "5"], "test");
    let result = split::bin(&mut env).unwrap();
    assert_eq!(1, result.code());
    let stderr = env.stderr.into_string();
    println!("stderr: {:?}", stderr);
    assert!(stderr.contains("mutually exclusive"));
}

#[test]
fn pattern_incompatible_with_lines() {
    let mut env = make_test_env_with_stdin(vec!["split", "-p", "test", "-l", "10"], "test");
    let result = split::bin(&mut env).unwrap();
    assert_eq!(1, result.code());
    let stderr = env.stderr.into_string();
    println!("stderr: {:?}", stderr);
    assert!(stderr.contains("incompatible"));
}

#[test]
fn split_file_not_found() {
    let mut env = make_test_env_with_stdin(vec!["split", "nonexistent.txt"], "");
    let result = split::bin(&mut env).unwrap();
    assert_eq!(1, result.code());
    let stderr = env.stderr.into_string();
    println!("stderr: {:?}", stderr);
    assert!(stderr.contains("nonexistent.txt"));
}

#[test]
fn too_many_arguments() {
    let mut env = make_test_env_with_stdin(vec!["split", "a", "b", "c"], "");
    let result = split::bin(&mut env).unwrap();
    assert_eq!(1, result.code());
    let stderr = env.stderr.into_string();
    println!("stderr: {:?}", stderr);
    assert!(stderr.contains("too many arguments"));
}

#[test]
fn invalid_suffix_length() {
    let mut env = make_test_env_with_stdin(vec!["split", "-a", "abc"], "test");
    let result = split::bin(&mut env).unwrap();
    assert_eq!(1, result.code());
    let stderr = env.stderr.into_string();
    println!("stderr: {:?}", stderr);
    assert!(stderr.contains("invalid suffix length"));
}

#[test]
fn split_empty_input() {
    let mut env = make_test_env_with_stdin(vec!["split"], "");
    let result = split::bin(&mut env).unwrap();
    assert_eq!(0, result.code());
    assert!(!env.fs.path_exists("xaa"));
}

#[test]
fn single_line_input() {
    let mut env = make_test_env_with_stdin(vec!["split", "-l", "10"], "single line\n");
    let result = split::bin(&mut env).unwrap();
    assert_eq!(0, result.code());
    assert_eq!("single line\n", env.fs.read_to_string("xaa").unwrap());
}

#[test]
fn split_dash_means_stdin() {
    let mut env = make_test_env_with_stdin(vec!["split", "-l", "1", "-"], "from stdin\n");
    let result = split::bin(&mut env).unwrap();
    assert_eq!(0, result.code());
    assert_eq!("from stdin\n", env.fs.read_to_string("xaa").unwrap());
}

#[test]
fn suffix_a_zero_enables_auto() {
    let mut env = make_test_env_with_stdin(vec!["split", "-a", "0", "-l", "1"], "a\nb\n");
    let result = split::bin(&mut env).unwrap();
    assert_eq!(0, result.code());
    assert_eq!("a\n", env.fs.read_to_string("xaa").unwrap());
    assert_eq!("b\n", env.fs.read_to_string("xab").unwrap());
}

#[test]
fn file_name_generator_basic() {
    let mut name_gen = FileNameGenerator::new("x".to_string(), 2, false, false);
    assert_eq!(Some("xaa".to_string()), name_gen.next_name());
    assert_eq!(Some("xab".to_string()), name_gen.next_name());
    assert_eq!(Some("xac".to_string()), name_gen.next_name());
}

#[test]
fn file_name_generator_numeric() {
    let mut name_gen = FileNameGenerator::new("out".to_string(), 2, true, false);
    assert_eq!(Some("out00".to_string()), name_gen.next_name());
    assert_eq!(Some("out01".to_string()), name_gen.next_name());
    assert_eq!(Some("out02".to_string()), name_gen.next_name());
    for _ in 3..99 {
        name_gen.next_name();
    }
    assert_eq!(Some("out99".to_string()), name_gen.next_name());
    assert_eq!(None, name_gen.next_name());
}

#[test]
fn file_name_generator_auto_extend() {
    let mut name_gen = FileNameGenerator::new("x".to_string(), 1, false, true);
    for i in 0..26 {
        let name = name_gen.next_name().unwrap();
        let expected = format!("x{}", (b'a' + i) as char);
        assert_eq!(expected, name);
    }
    assert_eq!(Some("xaa".to_string()), name_gen.next_name());
}
