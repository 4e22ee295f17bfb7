use eudaemonsh::base64::{decode_base64, encode_base64, wrap_output};
use eudaemonsh::cat::make_visible;
use eudaemonsh::nl::{check_section_delimiter, format_line_number, NumberFormat, Section};
use eudaemonsh::size::parse_size;
use eudaemonsh::{base64, cat, comm, echo, grep, head, nl};
use eudaemonsh::env::{Environment, StringStdioIn, StringStdioOut};
use eudaemonsh::fs::{DirEntry, ErrorKind, FileType, Filesystem, FsError, IoError};
use eudaemonsh::vars::Vars;
use std::collections::BTreeMap;

/// A file, a directory or a symbolic link.
struct Node {
    file_type: FileType,
    /// What a file holds, or where a symbolic link leads.
    text: String,
}

/// A filesystem in memory.
struct TestFilesystem {
    names: BTreeMap<String, usize>,
    nodes: Vec<Node>,
    made: usize,
}

fn failure<T>(kind: ErrorKind, message: &str) -> Result<T, FsError> {
    Err(FsError::Io(IoError {
        kind,
        message: message.to_string(),
        details: format!("Custom {{ kind: {:?}, error: {:?} }}", kind, message),
    }))
}

fn missing<T>() -> Result<T, FsError> {
    failure(ErrorKind::NotFound, "No such file or directory")
}

fn parent_of(path: &str) -> String {
    match path.rfind('/') {
        Some(0) | None => "/".to_string(),
        Some(i) => path[..i].to_string(),
    }
}

#[allow(dead_code)]
impl TestFilesystem {
    fn new() -> Self {
        let mut names = BTreeMap::new();
        names.insert("/".to_string(), 0);
        let root = Node { file_type: FileType::Directory, text: String::new() };
        TestFilesystem { names, nodes: vec![root], made: 0 }
    }

    /// The place that a path leads to, with the symbolic links before its end followed, and the one
    /// at its end where `last` is set.
    fn place(&self, path: &str, last: bool) -> Option<String> {
        let mut rest: Vec<String> = path.split('/').rev().map(|s| s.to_string()).collect();
        let mut at: Vec<String> = Vec::new();
        let mut links = 0;
        while let Some(step) = rest.pop() {
            if step.is_empty() || step == "." {
                continue;
            }
            if step == ".." {
                at.pop();
                continue;
            }
            at.push(step);
            let here = format!("/{}", at.join("/"));
            let done = rest.iter().all(|s| s.is_empty());
            if let Some(&n) = self.names.get(&here) {
                if self.nodes[n].file_type == FileType::Symlink && (last || !done) {
                    links += 1;
                    if links > 40 {
                        return None;
                    }
                    at.pop();
                    let target = self.nodes[n].text.clone();
                    if target.starts_with('/') {
                        at.clear();
                    }
                    for step in target.split('/').rev() {
                        rest.push(step.to_string());
                    }
                }
            }
        }
        Some(format!("/{}", at.join("/")))
    }

    fn node(&self, path: &str, last: bool) -> Option<usize> {
        let place = self.place(path, last)?;
        self.names.get(&place).copied()
    }

    fn put(&mut self, place: String, file_type: FileType, text: &str) {
        self.nodes.push(Node { file_type, text: text.to_string() });
        self.names.insert(place, self.nodes.len() - 1);
    }

    fn holds_dir(&self, place: &str) -> bool {
        match self.names.get(place) {
            Some(&n) => self.nodes[n].file_type == FileType::Directory,
            None => false,
        }
    }

    fn entry(&self, n: usize) -> DirEntry {
        DirEntry {
            file_type: self.nodes[n].file_type,
            size: if self.nodes[n].file_type == FileType::Directory {
                1
            } else {
                self.nodes[n].text.len() as u64
            },
            dev: 1,
            ino: n as u64,
        }
    }

    fn add_directory(&mut self, path: &str) {
        let place = self.place(path, true).unwrap();
        if place != "/" && !self.names.contains_key(&place) {
            self.add_directory(&parent_of(&place));
            self.put(place, FileType::Directory, "");
        }
    }

    fn mkdir_all(&mut self, path: &str) -> Result<(), FsError> {
        self.add_directory(path);
        Ok(())
    }

    fn add_file(&mut self, path: &str, text: &str) {
        let place = self.place(path, true).unwrap();
        self.add_directory(&parent_of(&place));
        self.write_string(&place, text).unwrap();
    }

    fn make_temp(&mut self, template: &str, file_type: FileType) -> Result<String, FsError> {
        let stem = template.trim_end_matches('X');
        self.made += 1;
        let name = format!("{}{:0width$}", stem, self.made, width = template.len() - stem.len());
        let place = self.place(&name, true).unwrap();
        if !self.holds_dir(&parent_of(&place)) {
            return missing();
        }
        self.put(place, file_type, "");
        Ok(name)
    }
}

impl Filesystem for TestFilesystem {
    fn read_to_string(&mut self, path: &str) -> Result<String, FsError> {
        match self.node(path, true) {
            None => missing(),
            Some(n) => match self.nodes[n].file_type {
                FileType::Directory => failure(ErrorKind::IsADirectory, "Is a directory"),
                _ => Ok(self.nodes[n].text.clone()),
            },
        }
    }

    fn write_string(&mut self, path: &str, text: &str) -> Result<(), FsError> {
        let place = match self.place(path, true) {
            Some(place) => place,
            None => return missing(),
        };
        match self.names.get(&place) {
            Some(&n) => match self.nodes[n].file_type {
                FileType::Directory => failure(ErrorKind::IsADirectory, "Is a directory"),
                _ => {
                    self.nodes[n].text = text.to_string();
                    Ok(())
                }
            },
            None => {
                if !self.holds_dir(&parent_of(&place)) {
                    return missing();
                }
                self.put(place, FileType::RegularFile, text);
                Ok(())
            }
        }
    }

    fn path_exists(&mut self, path: &str) -> bool {
        self.node(path, true).is_some()
    }

    fn is_dir(&mut self, path: &str) -> bool {
        match self.node(path, true) {
            Some(n) => self.nodes[n].file_type == FileType::Directory,
            None => false,
        }
    }

    fn stat(&mut self, path: &str) -> Result<DirEntry, FsError> {
        match self.node(path, true) {
            Some(n) => Ok(self.entry(n)),
            None => missing(),
        }
    }

    fn lstat(&mut self, path: &str) -> Result<DirEntry, FsError> {
        match self.node(path, false) {
            Some(n) => Ok(self.entry(n)),
            None => missing(),
        }
    }

    fn read_dir(&mut self, path: &str) -> Result<Vec<(String, DirEntry)>, FsError> {
        let place = match self.place(path, true) {
            Some(place) => place,
            None => return missing(),
        };
        if !self.names.contains_key(&place) {
            return missing();
        }
        if !self.holds_dir(&place) {
            return failure(ErrorKind::NotADirectory, "Not a directory");
        }
        let mut found = Vec::new();
        for (name, &n) in &self.names {
            if name != "/" && parent_of(name) == place {
                let base = name.rsplit('/').next().unwrap().to_string();
                found.push((base, self.entry(n)));
            }
        }
        Ok(found)
    }

    fn mkdir(&mut self, path: &str) -> Result<(), FsError> {
        let place = self.place(path, true).unwrap();
        if self.names.contains_key(&place) {
            return failure(ErrorKind::AlreadyExists, "File exists");
        }
        if !self.holds_dir(&parent_of(&place)) {
            return missing();
        }
        self.put(place, FileType::Directory, "");
        Ok(())
    }

    fn rmdir(&mut self, path: &str) -> Result<(), FsError> {
        let place = self.place(path, false).unwrap();
        if !self.names.contains_key(&place) {
            return missing();
        }
        if !self.holds_dir(&place) {
            return failure(ErrorKind::NotADirectory, "Not a directory");
        }
        if self.names.keys().any(|name| name != "/" && parent_of(name) == place) {
            return failure(ErrorKind::DirectoryNotEmpty, "Directory not empty");
        }
        self.names.remove(&place);
        Ok(())
    }

    fn unlink(&mut self, path: &str) -> Result<(), FsError> {
        let place = self.place(path, false).unwrap();
        if !self.names.contains_key(&place) {
            return missing();
        }
        if self.holds_dir(&place) {
            return failure(ErrorKind::IsADirectory, "Is a directory");
        }
        self.names.remove(&place);
        Ok(())
    }

    fn link(&mut self, from: &str, to: &str) -> Result<(), FsError> {
        let n = match self.node(from, true) {
            Some(n) => n,
            None => return missing(),
        };
        let place = self.place(to, false).unwrap();
        if self.names.contains_key(&place) {
            return failure(ErrorKind::AlreadyExists, "File exists");
        }
        if !self.holds_dir(&parent_of(&place)) {
            return missing();
        }
        self.names.insert(place, n);
        Ok(())
    }

    fn symlink(&mut self, from: &str, to: &str) -> Result<(), FsError> {
        let place = self.place(to, false).unwrap();
        if self.names.contains_key(&place) {
            return failure(ErrorKind::AlreadyExists, "File exists");
        }
        if !self.holds_dir(&parent_of(&place)) {
            return missing();
        }
        self.put(place, FileType::Symlink, from);
        Ok(())
    }

    fn readlink(&mut self, path: &str) -> Result<String, FsError> {
        match self.node(path, false) {
            None => missing(),
            Some(n) => match self.nodes[n].file_type {
                FileType::Symlink => Ok(self.nodes[n].text.clone()),
                _ => failure(ErrorKind::InvalidInput, "Invalid argument"),
            },
        }
    }

    fn mkstemp(&mut self, template: &str) -> Result<String, FsError> {
        self.make_temp(template, FileType::RegularFile)
    }

    fn mkdtemp(&mut self, template: &str) -> Result<String, FsError> {
        self.make_temp(template, FileType::Directory)
    }
}

#[allow(dead_code)]
fn make_test_env(args: Vec<&str>) -> Environment<TestFilesystem> {
    make_test_env_with_stdin(args, "")
}

fn make_test_env_with_stdin(args: Vec<&str>, stdin: &str) -> Environment<TestFilesystem> {
    Environment {
        stdin: StringStdioIn::new(stdin),
        stdout: StringStdioOut::new(),
        stderr: StringStdioOut::new(),
        merged: false,
        fs: TestFilesystem::new(),
        env: Vars::new(),
        vars: Vars::new(),
        args: args.into_iter().map(|s| s.to_string()).collect(),
        cwd: "/".to_string(),
        seed: 7,
        exit_signaled: false,
    }
}

/// Builds the environment of a test.
#[allow(dead_code)]
struct TestEnvBuilder {
    env: Environment<TestFilesystem>,
}

#[allow(dead_code)]
impl TestEnvBuilder {
    fn new() -> Self {
        TestEnvBuilder { env: make_test_env(vec![]) }
    }

    fn args(mut self, args: Vec<&str>) -> Self {
        self.env.args = args.into_iter().map(|s| s.to_string()).collect();
        self
    }

    fn cwd(mut self, cwd: &str) -> Self {
        self.env.cwd = cwd.to_string();
        self
    }

    fn env_var(mut self, name: &str, value: &str) -> Self {
        self.env.env.insert(name, value);
        self
    }

    fn build(self) -> Environment<TestFilesystem> {
        self.env
    }
}

#[test]
fn encode_empty() {
    assert_eq!("", encode_base64(b""));
}

#[test]
fn encode_single_char() {
    assert_eq!("YQ==", encode_base64(b"a"));
}

#[test]
fn encode_two_chars() {
    assert_eq!("YWI=", encode_base64(b"ab"));
}

#[test]
fn encode_three_chars() {
    assert_eq!("YWJj", encode_base64(b"abc"));
}

#[test]
fn encode_hello_world() {
    assert_eq!("SGVsbG8gV29ybGQ=", encode_base64(b"Hello World"));
}

#[test]
fn encode_man() {
    // Classic test vector from RFC 4648
    assert_eq!("TWFu", encode_base64(b"Man"));
}

#[test]
fn encode_ma() {
    assert_eq!("TWE=", encode_base64(b"Ma"));
}

#[test]
fn encode_m() {
    assert_eq!("TQ==", encode_base64(b"M"));
}

#[test]
fn decode_empty() {
    assert_eq!(Some(vec![]), decode_base64(""));
}

#[test]
fn decode_single_char() {
    assert_eq!(Some(b"a".to_vec()), decode_base64("YQ=="));
}

#[test]
fn decode_two_chars() {
    assert_eq!(Some(b"ab".to_vec()), decode_base64("YWI="));
}

#[test]
fn decode_three_chars() {
    assert_eq!(Some(b"abc".to_vec()), decode_base64("YWJj"));
}

#[test]
fn decode_hello_world() {
    assert_eq!(
        Some(b"Hello World".to_vec()),
        decode_base64("SGVsbG8gV29ybGQ=")
    );
}

#[test]
fn decode_with_whitespace() {
    assert_eq!(
        Some(b"Hello World".to_vec()),
        decode_base64("SGVs bG8g V29y bGQ=")
    );
}

#[test]
fn decode_with_newlines() {
    assert_eq!(
        Some(b"Hello World".to_vec()),
        decode_base64("SGVsbG8g\nV29ybGQ=")
    );
}

#[test]
fn decode_invalid_char() {
    assert_eq!(None, decode_base64("SGVs!G8="));
}

#[test]
fn decode_man() {
    assert_eq!(Some(b"Man".to_vec()), decode_base64("TWFu"));
}

#[test]
fn decode_ma() {
    assert_eq!(Some(b"Ma".to_vec()), decode_base64("TWE="));
}

#[test]
fn decode_m() {
    assert_eq!(Some(b"M".to_vec()), decode_base64("TQ=="));
}

#[test]
fn wrap_zero_disabled() {
    assert_eq!("abcdefghij", wrap_output("abcdefghij", 0));
}

#[test]
fn wrap_at_4() {
    assert_eq!("abcd\nefgh\nij", wrap_output("abcdefghij", 4));
}

#[test]
fn wrap_longer_than_input() {
    assert_eq!("abc", wrap_output("abc", 10));
}

#[test]
fn wrap_exact_multiple() {
    assert_eq!("abcd\nefgh", wrap_output("abcdefgh", 4));
}

#[test]
fn encode_stdin_simple() {
    let mut env = make_test_env_with_stdin(vec!["base64"], "Hello");
    let result = base64::bin(&mut env).unwrap();
    assert_eq!(0, result.code());
    assert_eq!("SGVsbG8=\n", env.stdout.into_string());
}

#[test]
fn encode_stdin_empty() {
    let mut env = make_test_env_with_stdin(vec!["base64"], "");
    let result = base64::bin(&mut env).unwrap();
    assert_eq!(0, result.code());
    assert_eq!("\n", env.stdout.into_string());
}

#[test]
fn encode_file() {
    let mut env = make_test_env_with_stdin(vec!["base64", "input.txt"], "");
    env.fs.add_file("input.txt", "Hello");
    let result = base64::bin(&mut env).unwrap();
    assert_eq!(0, result.code());
    assert_eq!("SGVsbG8=\n", env.stdout.into_string());
}

#[test]
fn encode_file_not_found() {
    let mut env = make_test_env_with_stdin(vec!["base64", "nonexistent.txt"], "");
    let result = base64::bin(&mut env).unwrap();
    assert_eq!(1, result.code());
    let stderr = env.stderr.into_string();
    println!("stderr: {:?}", stderr);
    assert!(stderr.contains("nonexistent.txt"));
}

#[test]
fn encode_with_wrap_0() {
    // Generate a long string that would normally wrap
    let input = "a".repeat(100);
    let mut env = make_test_env_with_stdin(vec!["base64", "-w", "0"], &input);
    let result = base64::bin(&mut env).unwrap();
    assert_eq!(0, result.code());
    let output = env.stdout.into_string();
    println!("output: {:?}", output);
    // Should be one line (plus trailing newline)
    assert!(!output.trim().contains('\n'));
}

#[test]
fn encode_with_wrap_20() {
    let input = "a".repeat(30);
    let mut env = make_test_env_with_stdin(vec!["base64", "-w", "20"], &input);
    let result = base64::bin(&mut env).unwrap();
    assert_eq!(0, result.code());
    let output = env.stdout.into_string();
    println!("output: {:?}", output);
    // Each line should be at most 20 characters
    for line in output.trim().lines() {
        assert!(line.len() <= 20, "line too long: {}", line);
    }
}

#[test]
fn encode_with_invalid_wrap() {
    let mut env = make_test_env_with_stdin(vec!["base64", "-w", "abc"], "Hello");
    let result = base64::bin(&mut env).unwrap();
    assert_eq!(1, result.code());
    let stderr = env.stderr.into_string();
    println!("stderr: {:?}", stderr);
    assert!(stderr.contains("invalid wrap size"));
}

#[test]
fn decode_stdin_simple() {
    let mut env = make_test_env_with_stdin(vec!["base64", "-d"], "SGVsbG8=");
    let result = base64::bin(&mut env).unwrap();
    assert_eq!(0, result.code());
    assert_eq!("Hello", env.stdout.into_string());
}

#[test]
fn decode_stdin_empty() {
    let mut env = make_test_env_with_stdin(vec!["base64", "-d"], "");
    let result = base64::bin(&mut env).unwrap();
    assert_eq!(0, result.code());
    assert_eq!("", env.stdout.into_string());
}

#[test]
fn decode_file() {
    let mut env = make_test_env_with_stdin(vec!["base64", "-d", "input.txt"], "");
    env.fs.add_file("input.txt", "SGVsbG8=");
    let result = base64::bin(&mut env).unwrap();
    assert_eq!(0, result.code());
    assert_eq!("Hello", env.stdout.into_string());
}

#[test]
fn decode_invalid_input() {
    let mut env = make_test_env_with_stdin(vec!["base64", "-d"], "!!!invalid!!!");
    let result = base64::bin(&mut env).unwrap();
    assert_eq!(1, result.code());
    let stderr = env.stderr.into_string();
    println!("stderr: {:?}", stderr);
    assert!(stderr.contains("invalid input"));
}

#[test]
fn decode_with_ignore_garbage() {
    let mut env = make_test_env_with_stdin(vec!["base64", "-d", "-i"], "SGVs!!!bG8=");
    let result = base64::bin(&mut env).unwrap();
    assert_eq!(0, result.code());
    assert_eq!("Hello", env.stdout.into_string());
}

#[test]
fn decode_stdin_with_whitespace() {
    let mut env = make_test_env_with_stdin(vec!["base64", "-d"], "SGVs\nbG8=");
    let result = base64::bin(&mut env).unwrap();
    assert_eq!(0, result.code());
    assert_eq!("Hello", env.stdout.into_string());
}

#[test]
fn base64_help_flag() {
    let mut env = make_test_env_with_stdin(vec!["base64", "-h"], "");
    let result = base64::bin(&mut env).unwrap();
    assert_eq!(0, result.code());
    let stdout = env.stdout.into_string();
    println!("stdout: {:?}", stdout);
    assert!(stdout.contains("Usage:"));
    assert!(stdout.contains("--decode"));
}

#[test]
fn roundtrip_hello() {
    let original = b"Hello, World!";
    let encoded = encode_base64(original);
    let decoded = decode_base64(&encoded).unwrap();
    assert_eq!(original.to_vec(), decoded);
}

#[test]
fn roundtrip_binary() {
    let original: Vec<u8> = (0..=255).collect();
    let encoded = encode_base64(&original);
    let decoded = decode_base64(&encoded).unwrap();
    assert_eq!(original, decoded);
}

#[test]
fn roundtrip_empty() {
    let original = b"";
    let encoded = encode_base64(original);
    let decoded = decode_base64(&encoded).unwrap();
    assert_eq!(original.to_vec(), decoded);
}

#[test]
fn base64_dash_means_stdin() {
    let mut env = make_test_env_with_stdin(vec!["base64", "-"], "Hello");
    let result = base64::bin(&mut env).unwrap();
    assert_eq!(0, result.code());
    assert_eq!("SGVsbG8=\n", env.stdout.into_string());
}

#[test]
fn base64_illegal_option() {
    let mut env = make_test_env_with_stdin(vec!["base64", "-x"], "");
    let result = base64::bin(&mut env).unwrap();
    assert_eq!(1, result.code());
    let stderr = env.stderr.into_string();
    println!("stderr: {:?}", stderr);
    assert!(stderr.contains("Unrecognized option"));
}

#[test]
fn long_option_decode() {
    let mut env = make_test_env_with_stdin(vec!["base64", "--decode"], "SGVsbG8=");
    let result = base64::bin(&mut env).unwrap();
    assert_eq!(0, result.code());
    assert_eq!("Hello", env.stdout.into_string());
}

#[test]
fn long_option_wrap() {
    let input = "a".repeat(30);
    let mut env = make_test_env_with_stdin(vec!["base64", "--wrap=10"], &input);
    let result = base64::bin(&mut env).unwrap();
    assert_eq!(0, result.code());
    let output = env.stdout.into_string();
    for line in output.trim().lines() {
        assert!(line.len() <= 10, "line too long: {}", line);
    }
}

#[test]
fn cat_empty_stdin() {
    let mut env = make_test_env_with_stdin(vec!["cat"], "");
    let result = cat::bin(&mut env).unwrap();
    assert_eq!(0, result.code());
    assert_eq!("", env.stdout.into_string());
}

#[test]
fn cat_single_line() {
    let mut env = make_test_env_with_stdin(vec!["cat"], "hello");
    let result = cat::bin(&mut env).unwrap();
    assert_eq!(0, result.code());
    assert_eq!("hello\n", env.stdout.into_string());
}

#[test]
fn cat_multiple_lines() {
    let mut env = make_test_env_with_stdin(vec!["cat"], "line1\nline2\nline3");
    let result = cat::bin(&mut env).unwrap();
    assert_eq!(0, result.code());
    assert_eq!("line1\nline2\nline3\n", env.stdout.into_string());
}

#[test]
fn cat_file_not_found() {
    let mut env = make_test_env_with_stdin(vec!["cat", "nonexistent.txt"], "");
    let result = cat::bin(&mut env).unwrap();
    assert_eq!(1, result.code());
    let stderr = env.stderr.into_string();
    println!("stderr: {:?}", stderr);
    assert!(stderr.contains("nonexistent.txt"));
}

#[test]
fn cat_single_file() {
    let mut env = make_test_env_with_stdin(vec!["cat", "file.txt"], "");
    env.fs.add_file("file.txt", "hello world\n");
    let result = cat::bin(&mut env).unwrap();
    println!("stdout: {:?}", env.stdout.into_string());
    println!("stderr: {:?}", env.stderr.into_string());
    assert_eq!(0, result.code());
    assert_eq!("hello world\n", env.stdout.into_string());
}

#[test]
fn cat_multiple_files() {
    let mut env = make_test_env_with_stdin(vec!["cat", "a.txt", "b.txt"], "");
    env.fs.add_file("a.txt", "aaa\n");
    env.fs.add_file("b.txt", "bbb\n");
    let result = cat::bin(&mut env).unwrap();
    assert_eq!(0, result.code());
    assert_eq!("aaa\nbbb\n", env.stdout.into_string());
}

#[test]
fn cat_dash_means_stdin() {
    let mut env = make_test_env_with_stdin(vec!["cat", "-"], "from stdin");
    let result = cat::bin(&mut env).unwrap();
    assert_eq!(0, result.code());
    assert_eq!("from stdin\n", env.stdout.into_string());
}

#[test]
fn mixed_files_and_stdin() {
    let mut env = make_test_env_with_stdin(vec!["cat", "a.txt", "-", "b.txt"], "middle");
    env.fs.add_file("a.txt", "first\n");
    env.fs.add_file("b.txt", "last\n");
    let result = cat::bin(&mut env).unwrap();
    assert_eq!(0, result.code());
    assert_eq!("first\nmiddle\nlast\n", env.stdout.into_string());
}

#[test]
fn number_lines_single() {
    let mut env = make_test_env_with_stdin(vec!["cat", "-n"], "hello");
    let result = cat::bin(&mut env).unwrap();
    assert_eq!(0, result.code());
    assert_eq!("     1\thello\n", env.stdout.into_string());
}

#[test]
fn number_lines_multiple() {
    let mut env = make_test_env_with_stdin(vec!["cat", "-n"], "one\ntwo\nthree");
    let result = cat::bin(&mut env).unwrap();
    assert_eq!(0, result.code());
    let expected = "     1\tone\n     2\ttwo\n     3\tthree\n";
    assert_eq!(expected, env.stdout.into_string());
}

#[test]
fn number_lines_with_blanks() {
    let mut env = make_test_env_with_stdin(vec!["cat", "-n"], "one\n\nthree");
    let result = cat::bin(&mut env).unwrap();
    assert_eq!(0, result.code());
    let expected = "     1\tone\n     2\t\n     3\tthree\n";
    assert_eq!(expected, env.stdout.into_string());
}

#[test]
fn number_lines_across_files() {
    let mut env = make_test_env_with_stdin(vec!["cat", "-n", "a.txt", "b.txt"], "");
    env.fs.add_file("a.txt", "one\ntwo\n");
    env.fs.add_file("b.txt", "three\nfour\n");
    let result = cat::bin(&mut env).unwrap();
    assert_eq!(0, result.code());
    let expected = "     1\tone\n     2\ttwo\n     3\tthree\n     4\tfour\n";
    println!("stdout: {:?}", env.stdout.into_string());
    assert_eq!(expected, env.stdout.into_string());
}

#[test]
fn number_nonblank_with_blanks() {
    let mut env = make_test_env_with_stdin(vec!["cat", "-b"], "one\n\nthree");
    let result = cat::bin(&mut env).unwrap();
    assert_eq!(0, result.code());
    let expected = "     1\tone\n\n     2\tthree\n";
    println!("stdout: {:?}", env.stdout.into_string());
    assert_eq!(expected, env.stdout.into_string());
}

#[test]
fn number_nonblank_overrides_n() {
    // When both -b and -n are specified, -b takes precedence
    let mut env = make_test_env_with_stdin(vec!["cat", "-bn"], "one\n\nthree");
    let result = cat::bin(&mut env).unwrap();
    assert_eq!(0, result.code());
    let expected = "     1\tone\n\n     2\tthree\n";
    assert_eq!(expected, env.stdout.into_string());
}

#[test]
fn number_nonblank_no_blanks() {
    let mut env = make_test_env_with_stdin(vec!["cat", "-b"], "one\ntwo\nthree");
    let result = cat::bin(&mut env).unwrap();
    assert_eq!(0, result.code());
    let expected = "     1\tone\n     2\ttwo\n     3\tthree\n";
    assert_eq!(expected, env.stdout.into_string());
}

#[test]
fn squeeze_blank_double() {
    let mut env = make_test_env_with_stdin(vec!["cat", "-s"], "one\n\n\nfour");
    let result = cat::bin(&mut env).unwrap();
    assert_eq!(0, result.code());
    let expected = "one\n\nfour\n";
    println!("stdout: {:?}", env.stdout.into_string());
    assert_eq!(expected, env.stdout.into_string());
}

#[test]
fn squeeze_blank_many() {
    let mut env = make_test_env_with_stdin(vec!["cat", "-s"], "one\n\n\n\n\nsix");
    let result = cat::bin(&mut env).unwrap();
    assert_eq!(0, result.code());
    let expected = "one\n\nsix\n";
    assert_eq!(expected, env.stdout.into_string());
}

#[test]
fn squeeze_blank_single_preserved() {
    let mut env = make_test_env_with_stdin(vec!["cat", "-s"], "one\n\nthree");
    let result = cat::bin(&mut env).unwrap();
    assert_eq!(0, result.code());
    let expected = "one\n\nthree\n";
    assert_eq!(expected, env.stdout.into_string());
}

#[test]
fn squeeze_blank_at_start() {
    let mut env = make_test_env_with_stdin(vec!["cat", "-s"], "\n\n\none");
    let result = cat::bin(&mut env).unwrap();
    assert_eq!(0, result.code());
    let expected = "\none\n";
    println!("stdout: {:?}", env.stdout.into_string());
    assert_eq!(expected, env.stdout.into_string());
}

#[test]
fn show_ends_simple() {
    let mut env = make_test_env_with_stdin(vec!["cat", "-e"], "hello\nworld");
    let result = cat::bin(&mut env).unwrap();
    assert_eq!(0, result.code());
    let expected = "hello$\nworld$\n";
    assert_eq!(expected, env.stdout.into_string());
}

#[test]
fn show_ends_empty_line() {
    let mut env = make_test_env_with_stdin(vec!["cat", "-e"], "one\n\nthree");
    let result = cat::bin(&mut env).unwrap();
    assert_eq!(0, result.code());
    let expected = "one$\n$\nthree$\n";
    assert_eq!(expected, env.stdout.into_string());
}

#[test]
fn show_tabs_simple() {
    let mut env = make_test_env_with_stdin(vec!["cat", "-t"], "hello\tworld");
    let result = cat::bin(&mut env).unwrap();
    assert_eq!(0, result.code());
    let expected = "hello^Iworld\n";
    assert_eq!(expected, env.stdout.into_string());
}

#[test]
fn show_tabs_multiple() {
    let mut env = make_test_env_with_stdin(vec!["cat", "-t"], "\thello\t\tworld\t");
    let result = cat::bin(&mut env).unwrap();
    assert_eq!(0, result.code());
    let expected = "^Ihello^I^Iworld^I\n";
    assert_eq!(expected, env.stdout.into_string());
}

#[test]
fn show_nonprinting_control_chars() {
    // Test control characters (0x01 = ^A, 0x02 = ^B, etc.)
    let input = "\x01\x02\x03";
    let mut env = make_test_env_with_stdin(vec!["cat", "-v"], input);
    let result = cat::bin(&mut env).unwrap();
    assert_eq!(0, result.code());
    let expected = "^A^B^C\n";
    assert_eq!(expected, env.stdout.into_string());
}

#[test]
fn show_nonprinting_delete() {
    // Test delete character (0x7F = ^?)
    let input = "a\x7Fb";
    let mut env = make_test_env_with_stdin(vec!["cat", "-v"], input);
    let result = cat::bin(&mut env).unwrap();
    assert_eq!(0, result.code());
    let expected = "a^?b\n";
    assert_eq!(expected, env.stdout.into_string());
}

#[test]
fn show_nonprinting_high_bit_printable() {
    // Test high bit set with printable low 7 bits (e.g., 0x80 + 'A' = 0xC1)
    // 0xC1 = 193 = M-A
    let input = "a\u{00C1}b"; // Á in Latin-1, but we treat it as M-A
    let mut env = make_test_env_with_stdin(vec!["cat", "-v"], input);
    let result = cat::bin(&mut env).unwrap();
    assert_eq!(0, result.code());
    // 0xC1 = 193 = 128 + 65, low 7 bits = 65 = 'A'
    let expected = "aM-Ab\n";
    println!("stdout: {:?}", env.stdout.into_string());
    assert_eq!(expected, env.stdout.into_string());
}

#[test]
fn show_nonprinting_tab_preserved() {
    // With just -v, tabs should pass through (only -t shows tabs as ^I)
    let input = "a\tb";
    let mut env = make_test_env_with_stdin(vec!["cat", "-v"], input);
    let result = cat::bin(&mut env).unwrap();
    assert_eq!(0, result.code());
    let expected = "a\tb\n";
    assert_eq!(expected, env.stdout.into_string());
}

#[test]
fn show_nonprinting_high_bit_control() {
    // Test high bit set with control character in low 7 bits
    // 0x81 = 129 = M-^A
    let input = "a\u{0081}b";
    let mut env = make_test_env_with_stdin(vec!["cat", "-v"], input);
    let result = cat::bin(&mut env).unwrap();
    assert_eq!(0, result.code());
    let expected = "aM-^Ab\n";
    println!("stdout: {:?}", env.stdout.into_string());
    assert_eq!(expected, env.stdout.into_string());
}

#[test]
fn show_nonprinting_high_bit_delete() {
    // Test 0xFF = M-^?
    let input = "a\u{00FF}b";
    let mut env = make_test_env_with_stdin(vec!["cat", "-v"], input);
    let result = cat::bin(&mut env).unwrap();
    assert_eq!(0, result.code());
    // 0xFF = 255 = 128 + 127, low 7 bits = 127 = DEL = ^?
    let expected = "aM-^?b\n";
    println!("stdout: {:?}", env.stdout.into_string());
    assert_eq!(expected, env.stdout.into_string());
}

#[test]
fn combined_sn() {
    // -s and -n together
    let mut env = make_test_env_with_stdin(vec!["cat", "-sn"], "one\n\n\nfour");
    let result = cat::bin(&mut env).unwrap();
    assert_eq!(0, result.code());
    let expected = "     1\tone\n     2\t\n     3\tfour\n";
    println!("stdout: {:?}", env.stdout.into_string());
    assert_eq!(expected, env.stdout.into_string());
}

#[test]
fn combined_sb() {
    // -s and -b together
    let mut env = make_test_env_with_stdin(vec!["cat", "-sb"], "one\n\n\nfour");
    let result = cat::bin(&mut env).unwrap();
    assert_eq!(0, result.code());
    let expected = "     1\tone\n\n     2\tfour\n";
    println!("stdout: {:?}", env.stdout.into_string());
    assert_eq!(expected, env.stdout.into_string());
}

#[test]
fn combined_et() {
    // -e and -t together (both imply -v)
    let mut env = make_test_env_with_stdin(vec!["cat", "-et"], "hello\tworld");
    let result = cat::bin(&mut env).unwrap();
    assert_eq!(0, result.code());
    let expected = "hello^Iworld$\n";
    assert_eq!(expected, env.stdout.into_string());
}

#[test]
fn combined_net() {
    // -n, -e, and -t together
    let mut env = make_test_env_with_stdin(vec!["cat", "-net"], "a\tb\nc");
    let result = cat::bin(&mut env).unwrap();
    assert_eq!(0, result.code());
    let expected = "     1\ta^Ib$\n     2\tc$\n";
    assert_eq!(expected, env.stdout.into_string());
}

#[test]
fn all_flags() {
    // All flags together (except -l and -u which are no-ops)
    let mut env = make_test_env_with_stdin(vec!["cat", "-benstuv"], "one\n\n\nfour\tfive");
    let result = cat::bin(&mut env).unwrap();
    assert_eq!(0, result.code());
    // -b: number non-blank only
    // -s: squeeze blanks
    // -e: show $ at end
    // -t: show tabs as ^I
    // -v: show non-printing (already implied by -e and -t)
    let expected = "     1\tone$\n$\n     2\tfour^Ifive$\n";
    println!("stdout: {:?}", env.stdout.into_string());
    assert_eq!(expected, env.stdout.into_string());
}

#[test]
fn cat_illegal_option() {
    let mut env = make_test_env_with_stdin(vec!["cat", "-x"], "");
    let result = cat::bin(&mut env).unwrap();
    assert_eq!(1, result.code());
    let stderr = env.stderr.into_string();
    println!("stderr: {:?}", stderr);
    assert!(stderr.contains("Unrecognized option"));
}

#[test]
fn double_dash_ends_options() {
    // -- should end option processing
    let mut env = make_test_env_with_stdin(vec!["cat", "-n", "--", "-b"], "");
    env.fs.add_file("-b", "contents of -b file\n");
    let result = cat::bin(&mut env).unwrap();
    assert_eq!(0, result.code());
    let expected = "     1\tcontents of -b file\n";
    println!("stdout: {:?}", env.stdout.into_string());
    assert_eq!(expected, env.stdout.into_string());
}

#[test]
fn options_combined() {
    let mut env = make_test_env_with_stdin(vec!["cat", "-bn", "-s"], "one\n\n\nfour");
    let result = cat::bin(&mut env).unwrap();
    assert_eq!(0, result.code());
    // -b takes precedence over -n
    let expected = "     1\tone\n\n     2\tfour\n";
    assert_eq!(expected, env.stdout.into_string());
}

#[test]
fn cat_empty_file() {
    let mut env = make_test_env_with_stdin(vec!["cat", "empty.txt"], "");
    env.fs.add_file("empty.txt", "");
    let result = cat::bin(&mut env).unwrap();
    assert_eq!(0, result.code());
    assert_eq!("", env.stdout.into_string());
}

#[test]
fn cat_file_no_trailing_newline() {
    let mut env = make_test_env_with_stdin(vec!["cat", "file.txt"], "");
    env.fs.add_file("file.txt", "no newline");
    let result = cat::bin(&mut env).unwrap();
    assert_eq!(0, result.code());
    // We add a newline at the end
    assert_eq!("no newline\n", env.stdout.into_string());
}

#[test]
fn file_with_trailing_newline() {
    let mut env = make_test_env_with_stdin(vec!["cat", "file.txt"], "");
    env.fs.add_file("file.txt", "with newline\n");
    let result = cat::bin(&mut env).unwrap();
    assert_eq!(0, result.code());
    assert_eq!("with newline\n", env.stdout.into_string());
}

#[test]
fn cat_multiple_files_one_missing() {
    let mut env = make_test_env_with_stdin(vec!["cat", "a.txt", "missing.txt", "b.txt"], "");
    env.fs.add_file("a.txt", "aaa\n");
    env.fs.add_file("b.txt", "bbb\n");
    let result = cat::bin(&mut env).unwrap();
    // Exit code should be non-zero due to missing file
    assert_eq!(1, result.code());
    // But we should still see output from the valid files
    let stdout = env.stdout.into_string();
    println!("stdout: {:?}", stdout);
    assert!(stdout.contains("aaa"));
    assert!(stdout.contains("bbb"));
    // And an error message
    let stderr = env.stderr.into_string();
    println!("stderr: {:?}", stderr);
    assert!(stderr.contains("missing.txt"));
}

#[test]
fn file_as_first_arg_after_double_dash() {
    let mut env = make_test_env_with_stdin(vec!["cat", "--", "file.txt"], "");
    env.fs.add_file("file.txt", "contents\n");
    let result = cat::bin(&mut env).unwrap();
    assert_eq!(0, result.code());
    assert_eq!("contents\n", env.stdout.into_string());
}

#[test]
fn lock_flag_noop() {
    let mut env = make_test_env_with_stdin(vec!["cat", "-l"], "hello");
    let result = cat::bin(&mut env).unwrap();
    assert_eq!(0, result.code());
    assert_eq!("hello\n", env.stdout.into_string());
}

#[test]
fn unbuffered_flag_noop() {
    let mut env = make_test_env_with_stdin(vec!["cat", "-u"], "hello");
    let result = cat::bin(&mut env).unwrap();
    assert_eq!(0, result.code());
    assert_eq!("hello\n", env.stdout.into_string());
}

#[test]
fn make_visible_printable() {
    assert_eq!("a", make_visible('a'));
    assert_eq!("Z", make_visible('Z'));
    assert_eq!(" ", make_visible(' '));
    assert_eq!("~", make_visible('~'));
}

#[test]
fn make_visible_control() {
    assert_eq!("^@", make_visible('\x00')); // NUL
    assert_eq!("^A", make_visible('\x01'));
    assert_eq!("^G", make_visible('\x07')); // BEL
    assert_eq!("\t", make_visible('\x09')); // TAB (preserved with just -v)
    assert_eq!("^M", make_visible('\x0D')); // CR
    assert_eq!("^[", make_visible('\x1B')); // ESC
    assert_eq!("^_", make_visible('\x1F'));
}

#[test]
fn make_visible_delete() {
    assert_eq!("^?", make_visible('\x7F'));
}

#[test]
fn make_visible_meta_printable() {
    // 0x80 + 0x41 (A) = 0xC1
    assert_eq!("M-A", make_visible('\u{00C1}'));
    // 0x80 + 0x20 (space) = 0xA0
    assert_eq!("M- ", make_visible('\u{00A0}'));
}

#[test]
fn make_visible_meta_control() {
    // 0x80 + 0x00 = 0x80 -> M-^@
    assert_eq!("M-^@", make_visible('\u{0080}'));
    // 0x80 + 0x01 = 0x81 -> M-^A
    assert_eq!("M-^A", make_visible('\u{0081}'));
}

#[test]
fn make_visible_meta_delete() {
    // 0x80 + 0x7F = 0xFF -> M-^?
    assert_eq!("M-^?", make_visible('\u{00FF}'));
}

#[test]
fn line_number_format_single_digit() {
    let mut env = make_test_env_with_stdin(vec!["cat", "-n"], "a");
    let result = cat::bin(&mut env).unwrap();
    assert_eq!(0, result.code());
    // Should be right-justified in 6 characters
    assert_eq!("     1\ta\n", env.stdout.into_string());
}

#[test]
fn line_number_format_multi_digit() {
    // Create input with 12 lines
    let input = "1\n2\n3\n4\n5\n6\n7\n8\n9\n10\n11\n12";
    let mut env = make_test_env_with_stdin(vec!["cat", "-n"], input);
    let result = cat::bin(&mut env).unwrap();
    assert_eq!(0, result.code());
    let output = env.stdout.into_string();
    println!("output: {:?}", output);
    // Check that line 12 is formatted correctly
    assert!(output.contains("    12\t12"));
}

#[test]
fn stdin_first() {
    let mut env = make_test_env_with_stdin(vec!["cat", "-", "a.txt"], "stdin content");
    env.fs.add_file("a.txt", "file content\n");
    let result = cat::bin(&mut env).unwrap();
    assert_eq!(0, result.code());
    assert_eq!("stdin content\nfile content\n", env.stdout.into_string());
}

#[test]
fn stdin_last() {
    let mut env = make_test_env_with_stdin(vec!["cat", "a.txt", "-"], "stdin content");
    env.fs.add_file("a.txt", "file content\n");
    let result = cat::bin(&mut env).unwrap();
    assert_eq!(0, result.code());
    assert_eq!("file content\nstdin content\n", env.stdout.into_string());
}

#[test]
fn stdin_middle() {
    let mut env = make_test_env_with_stdin(vec!["cat", "a.txt", "-", "b.txt"], "stdin");
    env.fs.add_file("a.txt", "AAA\n");
    env.fs.add_file("b.txt", "BBB\n");
    let result = cat::bin(&mut env).unwrap();
    assert_eq!(0, result.code());
    assert_eq!("AAA\nstdin\nBBB\n", env.stdout.into_string());
}

#[test]
fn basic_all_columns() {
    let mut env = make_test_env_with_stdin(vec!["comm", "file1.txt", "file2.txt"], "");
    env.fs.add_file("file1.txt", "a\nb\nc\n");
    env.fs.add_file("file2.txt", "b\nc\nd\n");
    let result = comm::bin(&mut env).unwrap();
    assert_eq!(0, result.code());
    let stdout = env.stdout.into_string();
    println!("stdout: {:?}", stdout);
    assert_eq!("a\n\t\tb\n\t\tc\n\td\n", stdout);
}

#[test]
fn empty_files() {
    let mut env = make_test_env_with_stdin(vec!["comm", "file1.txt", "file2.txt"], "");
    env.fs.add_file("file1.txt", "");
    env.fs.add_file("file2.txt", "");
    let result = comm::bin(&mut env).unwrap();
    assert_eq!(0, result.code());
    assert_eq!("", env.stdout.into_string());
}

#[test]
fn file1_empty() {
    let mut env = make_test_env_with_stdin(vec!["comm", "file1.txt", "file2.txt"], "");
    env.fs.add_file("file1.txt", "");
    env.fs.add_file("file2.txt", "a\nb\n");
    let result = comm::bin(&mut env).unwrap();
    assert_eq!(0, result.code());
    let stdout = env.stdout.into_string();
    println!("stdout: {:?}", stdout);
    assert_eq!("\ta\n\tb\n", stdout);
}

#[test]
fn file2_empty() {
    let mut env = make_test_env_with_stdin(vec!["comm", "file1.txt", "file2.txt"], "");
    env.fs.add_file("file1.txt", "a\nb\n");
    env.fs.add_file("file2.txt", "");
    let result = comm::bin(&mut env).unwrap();
    assert_eq!(0, result.code());
    let stdout = env.stdout.into_string();
    println!("stdout: {:?}", stdout);
    assert_eq!("a\nb\n", stdout);
}

#[test]
fn identical_files() {
    let mut env = make_test_env_with_stdin(vec!["comm", "file1.txt", "file2.txt"], "");
    env.fs.add_file("file1.txt", "a\nb\nc\n");
    env.fs.add_file("file2.txt", "a\nb\nc\n");
    let result = comm::bin(&mut env).unwrap();
    assert_eq!(0, result.code());
    let stdout = env.stdout.into_string();
    println!("stdout: {:?}", stdout);
    assert_eq!("\t\ta\n\t\tb\n\t\tc\n", stdout);
}

#[test]
fn no_common_lines() {
    let mut env = make_test_env_with_stdin(vec!["comm", "file1.txt", "file2.txt"], "");
    env.fs.add_file("file1.txt", "a\nc\ne\n");
    env.fs.add_file("file2.txt", "b\nd\nf\n");
    let result = comm::bin(&mut env).unwrap();
    assert_eq!(0, result.code());
    let stdout = env.stdout.into_string();
    println!("stdout: {:?}", stdout);
    assert_eq!("a\n\tb\nc\n\td\ne\n\tf\n", stdout);
}

#[test]
fn suppress_col1() {
    let mut env = make_test_env_with_stdin(vec!["comm", "-1", "file1.txt", "file2.txt"], "");
    env.fs.add_file("file1.txt", "a\nb\nc\n");
    env.fs.add_file("file2.txt", "b\nc\nd\n");
    let result = comm::bin(&mut env).unwrap();
    assert_eq!(0, result.code());
    let stdout = env.stdout.into_string();
    println!("stdout: {:?}", stdout);
    assert_eq!("\tb\n\tc\nd\n", stdout);
}

#[test]
fn suppress_col2() {
    let mut env = make_test_env_with_stdin(vec!["comm", "-2", "file1.txt", "file2.txt"], "");
    env.fs.add_file("file1.txt", "a\nb\nc\n");
    env.fs.add_file("file2.txt", "b\nc\nd\n");
    let result = comm::bin(&mut env).unwrap();
    assert_eq!(0, result.code());
    let stdout = env.stdout.into_string();
    println!("stdout: {:?}", stdout);
    assert_eq!("a\n\tb\n\tc\n", stdout);
}

#[test]
fn suppress_col3() {
    let mut env = make_test_env_with_stdin(vec!["comm", "-3", "file1.txt", "file2.txt"], "");
    env.fs.add_file("file1.txt", "a\nb\nc\n");
    env.fs.add_file("file2.txt", "b\nc\nd\n");
    let result = comm::bin(&mut env).unwrap();
    assert_eq!(0, result.code());
    let stdout = env.stdout.into_string();
    println!("stdout: {:?}", stdout);
    assert_eq!("a\n\td\n", stdout);
}

#[test]
fn suppress_col1_col2() {
    let mut env = make_test_env_with_stdin(vec!["comm", "-12", "file1.txt", "file2.txt"], "");
    env.fs.add_file("file1.txt", "a\nb\nc\n");
    env.fs.add_file("file2.txt", "b\nc\nd\n");
    let result = comm::bin(&mut env).unwrap();
    assert_eq!(0, result.code());
    let stdout = env.stdout.into_string();
    println!("stdout: {:?}", stdout);
    assert_eq!("b\nc\n", stdout);
}

#[test]
fn suppress_col1_col3() {
    let mut env = make_test_env_with_stdin(vec!["comm", "-13", "file1.txt", "file2.txt"], "");
    env.fs.add_file("file1.txt", "a\nb\nc\n");
    env.fs.add_file("file2.txt", "b\nc\nd\n");
    let result = comm::bin(&mut env).unwrap();
    assert_eq!(0, result.code());
    let stdout = env.stdout.into_string();
    println!("stdout: {:?}", stdout);
    assert_eq!("d\n", stdout);
}

#[test]
fn suppress_col2_col3() {
    let mut env = make_test_env_with_stdin(vec!["comm", "-23", "file1.txt", "file2.txt"], "");
    env.fs.add_file("file1.txt", "a\nb\nc\n");
    env.fs.add_file("file2.txt", "b\nc\nd\n");
    let result = comm::bin(&mut env).unwrap();
    assert_eq!(0, result.code());
    let stdout = env.stdout.into_string();
    println!("stdout: {:?}", stdout);
    assert_eq!("a\n", stdout);
}

#[test]
fn suppress_all_columns() {
    let mut env = make_test_env_with_stdin(vec!["comm", "-123", "file1.txt", "file2.txt"], "");
    env.fs.add_file("file1.txt", "a\nb\nc\n");
    env.fs.add_file("file2.txt", "b\nc\nd\n");
    let result = comm::bin(&mut env).unwrap();
    assert_eq!(0, result.code());
    assert_eq!("", env.stdout.into_string());
}

#[test]
fn case_insensitive() {
    let mut env = make_test_env_with_stdin(vec!["comm", "-i", "file1.txt", "file2.txt"], "");
    env.fs.add_file("file1.txt", "A\nb\nC\n");
    env.fs.add_file("file2.txt", "a\nB\nc\n");
    let result = comm::bin(&mut env).unwrap();
    assert_eq!(0, result.code());
    let stdout = env.stdout.into_string();
    println!("stdout: {:?}", stdout);
    assert_eq!("\t\tA\n\t\tb\n\t\tC\n", stdout);
}

#[test]
fn case_insensitive_with_suppress() {
    let mut env = make_test_env_with_stdin(vec!["comm", "-i", "-12", "file1.txt", "file2.txt"], "");
    env.fs.add_file("file1.txt", "A\nb\nC\n");
    env.fs.add_file("file2.txt", "a\nB\nc\n");
    let result = comm::bin(&mut env).unwrap();
    assert_eq!(0, result.code());
    let stdout = env.stdout.into_string();
    println!("stdout: {:?}", stdout);
    assert_eq!("A\nb\nC\n", stdout);
}

#[test]
fn stdin_as_file1() {
    let mut env = make_test_env_with_stdin(vec!["comm", "-", "file2.txt"], "a\nb\nc\n");
    env.fs.add_file("file2.txt", "b\nc\nd\n");
    let result = comm::bin(&mut env).unwrap();
    assert_eq!(0, result.code());
    let stdout = env.stdout.into_string();
    println!("stdout: {:?}", stdout);
    assert_eq!("a\n\t\tb\n\t\tc\n\td\n", stdout);
}

#[test]
fn stdin_as_file2() {
    let mut env = make_test_env_with_stdin(vec!["comm", "file1.txt", "-"], "b\nc\nd\n");
    env.fs.add_file("file1.txt", "a\nb\nc\n");
    let result = comm::bin(&mut env).unwrap();
    assert_eq!(0, result.code());
    let stdout = env.stdout.into_string();
    println!("stdout: {:?}", stdout);
    assert_eq!("a\n\t\tb\n\t\tc\n\td\n", stdout);
}

#[test]
fn file1_not_found() {
    let mut env = make_test_env_with_stdin(vec!["comm", "nonexistent.txt", "file2.txt"], "");
    env.fs.add_file("file2.txt", "a\n");
    let result = comm::bin(&mut env).unwrap();
    assert_eq!(1, result.code());
    let stderr = env.stderr.into_string();
    println!("stderr: {:?}", stderr);
    assert!(stderr.contains("nonexistent.txt"));
}

#[test]
fn file2_not_found() {
    let mut env = make_test_env_with_stdin(vec!["comm", "file1.txt", "nonexistent.txt"], "");
    env.fs.add_file("file1.txt", "a\n");
    let result = comm::bin(&mut env).unwrap();
    assert_eq!(1, result.code());
    let stderr = env.stderr.into_string();
    println!("stderr: {:?}", stderr);
    assert!(stderr.contains("nonexistent.txt"));
}

#[test]
fn missing_file_args() {
    let mut env = make_test_env_with_stdin(vec!["comm"], "");
    let result = comm::bin(&mut env).unwrap();
    assert_eq!(1, result.code());
    let stderr = env.stderr.into_string();
    println!("stderr: {:?}", stderr);
    assert!(stderr.contains("usage"));
}

#[test]
fn only_one_file_arg() {
    let mut env = make_test_env_with_stdin(vec!["comm", "file1.txt"], "");
    let result = comm::bin(&mut env).unwrap();
    assert_eq!(1, result.code());
    let stderr = env.stderr.into_string();
    println!("stderr: {:?}", stderr);
    assert!(stderr.contains("usage"));
}

#[test]
fn regression_00() {
    let mut env = make_test_env_with_stdin(vec!["comm", "-12", "file1.txt", "file2.txt"], "");
    env.fs.add_file("file1.txt", "a b\nc d\ne f\ne f g\nh i\n");
    env.fs.add_file("file2.txt", "a b\ne f g\n");
    let result = comm::bin(&mut env).unwrap();
    assert_eq!(0, result.code());
    let stdout = env.stdout.into_string();
    println!("stdout: {:?}", stdout);
    assert_eq!("a b\ne f g\n", stdout);
}

#[test]
fn regression_01() {
    let mut env = make_test_env_with_stdin(vec!["comm", "-12", "file1.txt", "file2.txt"], "");
    env.fs
        .add_file("file1.txt", "a\tb\nc\td\ne\tf\ne\tf\tg\nh\ti\n");
    env.fs.add_file("file2.txt", "a\tb\ne\tf\tg\n");
    let result = comm::bin(&mut env).unwrap();
    assert_eq!(0, result.code());
    let stdout = env.stdout.into_string();
    println!("stdout: {:?}", stdout);
    assert_eq!("a\tb\ne\tf\tg\n", stdout);
}

#[test]
fn regression_02() {
    let mut env = make_test_env_with_stdin(vec!["comm", "file1.txt", "file2.txt"], "");
    env.fs.add_file("file1.txt", "a\nb\nc");
    env.fs.add_file("file2.txt", "c\nd\ne");
    let result = comm::bin(&mut env).unwrap();
    assert_eq!(0, result.code());
    let stdout = env.stdout.into_string();
    println!("stdout: {:?}", stdout);
    assert_eq!("a\nb\n\t\tc\n\td\n\te\n", stdout);
}

#[test]
fn no_trailing_newline_file1() {
    let mut env = make_test_env_with_stdin(vec!["comm", "file1.txt", "file2.txt"], "");
    env.fs.add_file("file1.txt", "a\nb");
    env.fs.add_file("file2.txt", "b\nc\n");
    let result = comm::bin(&mut env).unwrap();
    assert_eq!(0, result.code());
    let stdout = env.stdout.into_string();
    println!("stdout: {:?}", stdout);
    assert_eq!("a\n\t\tb\n\tc\n", stdout);
}

#[test]
fn no_trailing_newline_file2() {
    let mut env = make_test_env_with_stdin(vec!["comm", "file1.txt", "file2.txt"], "");
    env.fs.add_file("file1.txt", "a\nb\n");
    env.fs.add_file("file2.txt", "b\nc");
    let result = comm::bin(&mut env).unwrap();
    assert_eq!(0, result.code());
    let stdout = env.stdout.into_string();
    println!("stdout: {:?}", stdout);
    assert_eq!("a\n\t\tb\n\tc\n", stdout);
}

#[test]
fn single_line_files() {
    let mut env = make_test_env_with_stdin(vec!["comm", "file1.txt", "file2.txt"], "");
    env.fs.add_file("file1.txt", "hello\n");
    env.fs.add_file("file2.txt", "hello\n");
    let result = comm::bin(&mut env).unwrap();
    assert_eq!(0, result.code());
    let stdout = env.stdout.into_string();
    println!("stdout: {:?}", stdout);
    assert_eq!("\t\thello\n", stdout);
}

#[test]
fn whitespace_lines() {
    let mut env = make_test_env_with_stdin(vec!["comm", "file1.txt", "file2.txt"], "");
    env.fs.add_file("file1.txt", " \n  \n");
    env.fs.add_file("file2.txt", " \n   \n");
    let result = comm::bin(&mut env).unwrap();
    assert_eq!(0, result.code());
    let stdout = env.stdout.into_string();
    // " " is common (col3), "  " only in file1 (col1), "   " only in file2 (col2)
    println!("stdout: {:?}", stdout);
    assert_eq!("\t\t \n  \n\t   \n", stdout);
}

#[test]
fn no_arguments() {
    let mut env = make_test_env(vec!["echo"]);
    let result = echo::bin(&mut env).unwrap();
    assert_eq!(0, result.code());
    assert_eq!("\n", env.stdout.into_string());
}

#[test]
fn single_argument() {
    let mut env = make_test_env(vec!["echo", "hello"]);
    let result = echo::bin(&mut env).unwrap();
    assert_eq!(0, result.code());
    assert_eq!("hello\n", env.stdout.into_string());
}

#[test]
fn multiple_arguments() {
    let mut env = make_test_env(vec!["echo", "hello", "world"]);
    let result = echo::bin(&mut env).unwrap();
    assert_eq!(0, result.code());
    assert_eq!("hello world\n", env.stdout.into_string());
}

#[test]
fn nflag_suppresses_newline() {
    let mut env = make_test_env(vec!["echo", "-n", "hello"]);
    let result = echo::bin(&mut env).unwrap();
    assert_eq!(0, result.code());
    assert_eq!("hello", env.stdout.into_string());
}

#[test]
fn nflag_no_arguments() {
    let mut env = make_test_env(vec!["echo", "-n"]);
    let result = echo::bin(&mut env).unwrap();
    assert_eq!(0, result.code());
    assert_eq!("", env.stdout.into_string());
}

#[test]
fn nflag_multiple_arguments() {
    let mut env = make_test_env(vec!["echo", "-n", "hello", "world"]);
    let result = echo::bin(&mut env).unwrap();
    assert_eq!(0, result.code());
    assert_eq!("hello world", env.stdout.into_string());
}

#[test]
fn backslash_c_suppresses_newline() {
    let mut env = make_test_env(vec!["echo", "hello\\c"]);
    let result = echo::bin(&mut env).unwrap();
    assert_eq!(0, result.code());
    assert_eq!("hello", env.stdout.into_string());
}

#[test]
fn backslash_c_in_last_arg_only() {
    let mut env = make_test_env(vec!["echo", "hello", "world\\c"]);
    let result = echo::bin(&mut env).unwrap();
    assert_eq!(0, result.code());
    assert_eq!("hello world", env.stdout.into_string());
}

#[test]
fn backslash_c_not_at_end_is_literal() {
    let mut env = make_test_env(vec!["echo", "hello\\c", "world"]);
    let result = echo::bin(&mut env).unwrap();
    assert_eq!(0, result.code());
    // \c in non-last arg is written literally
    assert_eq!("hello\\c world\n", env.stdout.into_string());
}

#[test]
fn backslash_c_alone() {
    let mut env = make_test_env(vec!["echo", "\\c"]);
    let result = echo::bin(&mut env).unwrap();
    assert_eq!(0, result.code());
    assert_eq!("", env.stdout.into_string());
}

#[test]
fn double_dash_is_literal() {
    // Per FreeBSD man page: -- is NOT recognized, written literally
    let mut env = make_test_env(vec!["echo", "--", "hello"]);
    let result = echo::bin(&mut env).unwrap();
    assert_eq!(0, result.code());
    assert_eq!("-- hello\n", env.stdout.into_string());
}

#[test]
fn dash_n_after_first_arg_is_literal() {
    // -n is only recognized as first argument
    let mut env = make_test_env(vec!["echo", "hello", "-n"]);
    let result = echo::bin(&mut env).unwrap();
    assert_eq!(0, result.code());
    assert_eq!("hello -n\n", env.stdout.into_string());
}

#[test]
fn backslashes_are_literal() {
    // No escape processing except \c at end
    let mut env = make_test_env(vec!["echo", "hello\\tworld"]);
    let result = echo::bin(&mut env).unwrap();
    assert_eq!(0, result.code());
    assert_eq!("hello\\tworld\n", env.stdout.into_string());
}

#[test]
fn backslash_n_is_literal() {
    let mut env = make_test_env(vec!["echo", "hello\\nworld"]);
    let result = echo::bin(&mut env).unwrap();
    assert_eq!(0, result.code());
    assert_eq!("hello\\nworld\n", env.stdout.into_string());
}

#[test]
fn empty_string_argument() {
    let mut env = make_test_env(vec!["echo", ""]);
    let result = echo::bin(&mut env).unwrap();
    assert_eq!(0, result.code());
    assert_eq!("\n", env.stdout.into_string());
}

#[test]
fn empty_strings_with_spaces() {
    let mut env = make_test_env(vec!["echo", "", "hello", ""]);
    let result = echo::bin(&mut env).unwrap();
    assert_eq!(0, result.code());
    assert_eq!(" hello \n", env.stdout.into_string());
}

#[test]
fn hyphen_hello_is_literal() {
    // From man page example: /bin/echo "-hello\tworld" outputs -hello\tworld
    let mut env = make_test_env(vec!["echo", "-hello\\tworld"]);
    let result = echo::bin(&mut env).unwrap();
    assert_eq!(0, result.code());
    assert_eq!("-hello\\tworld\n", env.stdout.into_string());
}

#[test]
fn simple_match() {
    let mut env = make_test_env_with_stdin(vec!["grep", "hello"], "hello world\ngoodbye world");
    let result = grep::bin(&mut env).unwrap();
    assert_eq!(0, result.code());
    assert_eq!("hello world\n", env.stdout.into_string());
}

#[test]
fn no_match() {
    let mut env = make_test_env_with_stdin(vec!["grep", "notfound"], "hello world\ngoodbye world");
    let result = grep::bin(&mut env).unwrap();
    assert_eq!(1, result.code());
    assert_eq!("", env.stdout.into_string());
}

#[test]
fn multiple_matches() {
    let mut env =
        make_test_env_with_stdin(vec!["grep", "world"], "hello world\ngoodbye world\nfoo");
    let result = grep::bin(&mut env).unwrap();
    assert_eq!(0, result.code());
    assert_eq!("hello world\ngoodbye world\n", env.stdout.into_string());
}

#[test]
fn grep_ignore_case() {
    let mut env = make_test_env_with_stdin(vec!["grep", "-i", "hello"], "HELLO world\nhello world");
    let result = grep::bin(&mut env).unwrap();
    assert_eq!(0, result.code());
    assert_eq!("HELLO world\nhello world\n", env.stdout.into_string());
}

#[test]
fn ignore_case_no_match_without_flag() {
    let mut env = make_test_env_with_stdin(vec!["grep", "hello"], "HELLO world");
    let result = grep::bin(&mut env).unwrap();
    assert_eq!(1, result.code());
}

#[test]
fn invert_match() {
    let mut env = make_test_env_with_stdin(
        vec!["grep", "-v", "hello"],
        "hello world\ngoodbye world\nfoo",
    );
    let result = grep::bin(&mut env).unwrap();
    assert_eq!(0, result.code());
    assert_eq!("goodbye world\nfoo\n", env.stdout.into_string());
}

#[test]
fn invert_match_all() {
    let mut env = make_test_env_with_stdin(vec!["grep", "-v", "x"], "hello\nworld");
    let result = grep::bin(&mut env).unwrap();
    assert_eq!(0, result.code());
    assert_eq!("hello\nworld\n", env.stdout.into_string());
}

#[test]
fn count_only() {
    let mut env = make_test_env_with_stdin(
        vec!["grep", "-c", "world"],
        "hello world\ngoodbye world\nfoo",
    );
    let result = grep::bin(&mut env).unwrap();
    assert_eq!(0, result.code());
    assert_eq!("2\n", env.stdout.into_string());
}

#[test]
fn count_zero() {
    let mut env = make_test_env_with_stdin(vec!["grep", "-c", "notfound"], "hello world");
    let result = grep::bin(&mut env).unwrap();
    assert_eq!(1, result.code());
    assert_eq!("0\n", env.stdout.into_string());
}

#[test]
fn line_numbers() {
    let mut env = make_test_env_with_stdin(
        vec!["grep", "-n", "world"],
        "hello world\nfoo\ngoodbye world",
    );
    let result = grep::bin(&mut env).unwrap();
    assert_eq!(0, result.code());
    assert_eq!("1:hello world\n3:goodbye world\n", env.stdout.into_string());
}

#[test]
fn only_matching() {
    let mut env =
        make_test_env_with_stdin(vec!["grep", "-o", "wor.d"], "hello world goodbye world");
    let result = grep::bin(&mut env).unwrap();
    assert_eq!(0, result.code());
    let stdout = env.stdout.into_string();
    println!("stdout: {:?}", stdout);
    assert!(stdout.contains("world"));
}

#[test]
fn quiet_match() {
    let mut env = make_test_env_with_stdin(vec!["grep", "-q", "hello"], "hello world");
    let result = grep::bin(&mut env).unwrap();
    assert_eq!(0, result.code());
    assert_eq!("", env.stdout.into_string());
}

#[test]
fn quiet_no_match() {
    let mut env = make_test_env_with_stdin(vec!["grep", "-q", "notfound"], "hello world");
    let result = grep::bin(&mut env).unwrap();
    assert_eq!(1, result.code());
    assert_eq!("", env.stdout.into_string());
}

#[test]
fn files_with_matches() {
    let mut env = make_test_env_with_stdin(vec!["grep", "-l", "hello", "a.txt", "b.txt"], "");
    env.fs.add_file("/a.txt", "hello world\n");
    env.fs.add_file("/b.txt", "goodbye world\n");
    let result = grep::bin(&mut env).unwrap();
    assert_eq!(0, result.code());
    assert_eq!("a.txt\n", env.stdout.into_string());
}

#[test]
fn files_without_match() {
    let mut env = make_test_env_with_stdin(vec!["grep", "-L", "hello", "a.txt", "b.txt"], "");
    env.fs.add_file("/a.txt", "hello world\n");
    env.fs.add_file("/b.txt", "goodbye world\n");
    let result = grep::bin(&mut env).unwrap();
    assert_eq!(0, result.code());
    assert_eq!("b.txt\n", env.stdout.into_string());
}

#[test]
fn word_match() {
    let mut env = make_test_env_with_stdin(
        vec!["grep", "-w", "hello"],
        "hello world\nhelloworld\nthe hello end",
    );
    let result = grep::bin(&mut env).unwrap();
    assert_eq!(0, result.code());
    let stdout = env.stdout.into_string();
    println!("stdout: {:?}", stdout);
    assert!(stdout.contains("hello world"));
    assert!(stdout.contains("the hello end"));
    assert!(!stdout.contains("helloworld"));
}

#[test]
fn line_match() {
    let mut env =
        make_test_env_with_stdin(vec!["grep", "-x", "hello"], "hello\nhello world\nthe hello");
    let result = grep::bin(&mut env).unwrap();
    assert_eq!(0, result.code());
    assert_eq!("hello\n", env.stdout.into_string());
}

#[test]
fn extended_regex() {
    let mut env = make_test_env_with_stdin(vec!["grep", "-E", "hel+o"], "hello\nhelo\nhelllo");
    let result = grep::bin(&mut env).unwrap();
    assert_eq!(0, result.code());
    let stdout = env.stdout.into_string();
    println!("stdout: {:?}", stdout);
    assert!(stdout.contains("hello"));
    assert!(stdout.contains("helo"));
    assert!(stdout.contains("helllo"));
}

#[test]
fn extended_regex_alternation() {
    let mut env = make_test_env_with_stdin(vec!["grep", "-E", "cat|dog"], "cat\ndog\nbird");
    let result = grep::bin(&mut env).unwrap();
    assert_eq!(0, result.code());
    assert_eq!("cat\ndog\n", env.stdout.into_string());
}

#[test]
fn fixed_strings() {
    let mut env = make_test_env_with_stdin(vec!["grep", "-F", "a.b"], "a.b\naxb\na*b");
    let result = grep::bin(&mut env).unwrap();
    assert_eq!(0, result.code());
    assert_eq!("a.b\n", env.stdout.into_string());
}

#[test]
fn fixed_strings_case_insensitive() {
    let mut env = make_test_env_with_stdin(vec!["grep", "-Fi", "hello"], "HELLO\nhello\nHeLLo");
    let result = grep::bin(&mut env).unwrap();
    assert_eq!(0, result.code());
    let stdout = env.stdout.into_string();
    println!("stdout: {:?}", stdout);
    assert!(stdout.contains("HELLO"));
    assert!(stdout.contains("hello"));
    assert!(stdout.contains("HeLLo"));
}

#[test]
fn multiple_patterns() {
    let mut env =
        make_test_env_with_stdin(vec!["grep", "-e", "cat", "-e", "dog"], "cat\ndog\nbird");
    let result = grep::bin(&mut env).unwrap();
    assert_eq!(0, result.code());
    assert_eq!("cat\ndog\n", env.stdout.into_string());
}

#[test]
fn after_context() {
    let mut env = make_test_env_with_stdin(
        vec!["grep", "-A", "1", "match"],
        "before\nmatch\nafter\nend",
    );
    let result = grep::bin(&mut env).unwrap();
    assert_eq!(0, result.code());
    let stdout = env.stdout.into_string();
    println!("stdout: {:?}", stdout);
    assert!(stdout.contains("match"));
    assert!(stdout.contains("after"));
}

#[test]
fn before_context() {
    let mut env = make_test_env_with_stdin(
        vec!["grep", "-B", "1", "match"],
        "start\nbefore\nmatch\nafter",
    );
    let result = grep::bin(&mut env).unwrap();
    assert_eq!(0, result.code());
    let stdout = env.stdout.into_string();
    println!("stdout: {:?}", stdout);
    assert!(stdout.contains("before"));
    assert!(stdout.contains("match"));
}

#[test]
fn context_both() {
    let mut env = make_test_env_with_stdin(
        vec!["grep", "-C", "1", "match"],
        "start\nbefore\nmatch\nafter\nend",
    );
    let result = grep::bin(&mut env).unwrap();
    assert_eq!(0, result.code());
    let stdout = env.stdout.into_string();
    println!("stdout: {:?}", stdout);
    assert!(stdout.contains("before"));
    assert!(stdout.contains("match"));
    assert!(stdout.contains("after"));
}

#[test]
fn max_count() {
    let mut env = make_test_env_with_stdin(vec!["grep", "-m", "2", "a"], "a1\na2\na3\na4");
    let result = grep::bin(&mut env).unwrap();
    assert_eq!(0, result.code());
    let stdout = env.stdout.into_string();
    println!("stdout: {:?}", stdout);
    assert_eq!("a1\na2\n", stdout);
}

#[test]
fn grep_single_file() {
    let mut env = make_test_env_with_stdin(vec!["grep", "hello", "test.txt"], "");
    env.fs.add_file("/test.txt", "hello world\ngoodbye world\n");
    let result = grep::bin(&mut env).unwrap();
    assert_eq!(0, result.code());
    assert_eq!("hello world\n", env.stdout.into_string());
}

#[test]
fn multiple_files_with_names() {
    let mut env = make_test_env_with_stdin(vec!["grep", "hello", "a.txt", "b.txt"], "");
    env.fs.add_file("/a.txt", "hello from a\n");
    env.fs.add_file("/b.txt", "hello from b\n");
    let result = grep::bin(&mut env).unwrap();
    assert_eq!(0, result.code());
    let stdout = env.stdout.into_string();
    println!("stdout: {:?}", stdout);
    assert!(stdout.contains("a.txt:hello from a"));
    assert!(stdout.contains("b.txt:hello from b"));
}

#[test]
fn grep_file_not_found() {
    let mut env = make_test_env_with_stdin(vec!["grep", "hello", "nonexistent.txt"], "");
    let result = grep::bin(&mut env).unwrap();
    assert_eq!(2, result.code());
    let stderr = env.stderr.into_string();
    println!("stderr: {:?}", stderr);
    assert!(stderr.contains("nonexistent.txt"));
}

#[test]
fn suppress_errors() {
    let mut env = make_test_env_with_stdin(vec!["grep", "-s", "hello", "nonexistent.txt"], "");
    let result = grep::bin(&mut env).unwrap();
    // -s suppresses error messages but exit code is still 2
    assert_eq!(2, result.code());
    assert_eq!("", env.stderr.into_string());
}

#[test]
fn no_filename_flag() {
    let mut env = make_test_env_with_stdin(vec!["grep", "-h", "hello", "a.txt", "b.txt"], "");
    env.fs.add_file("/a.txt", "hello from a\n");
    env.fs.add_file("/b.txt", "hello from b\n");
    let result = grep::bin(&mut env).unwrap();
    assert_eq!(0, result.code());
    let stdout = env.stdout.into_string();
    println!("stdout: {:?}", stdout);
    assert!(!stdout.contains("a.txt:"));
    assert!(!stdout.contains("b.txt:"));
}

#[test]
fn with_filename_single_file() {
    let mut env = make_test_env_with_stdin(vec!["grep", "-H", "hello", "test.txt"], "");
    env.fs.add_file("/test.txt", "hello world\n");
    let result = grep::bin(&mut env).unwrap();
    assert_eq!(0, result.code());
    let stdout = env.stdout.into_string();
    println!("stdout: {:?}", stdout);
    assert!(stdout.contains("test.txt:"));
}

#[test]
fn recursive_search() {
    let mut env = make_test_env_with_stdin(vec!["grep", "-r", "hello", "dir"], "");
    env.fs.mkdir_all("/dir/subdir").unwrap();
    env.fs.add_file("/dir/a.txt", "hello from a\n");
    env.fs.add_file("/dir/subdir/b.txt", "hello from b\n");
    let result = grep::bin(&mut env).unwrap();
    assert_eq!(0, result.code());
    let stdout = env.stdout.into_string();
    println!("stdout: {:?}", stdout);
    assert!(stdout.contains("hello from a"));
    assert!(stdout.contains("hello from b"));
}

#[test]
fn patterns_from_file() {
    let mut env = make_test_env_with_stdin(vec!["grep", "-f", "patterns.txt"], "cat\ndog\nbird");
    env.fs.add_file("/patterns.txt", "cat\ndog\n");
    let result = grep::bin(&mut env).unwrap();
    assert_eq!(0, result.code());
    assert_eq!("cat\ndog\n", env.stdout.into_string());
}

#[test]
fn empty_pattern_matches_all() {
    let mut env = make_test_env_with_stdin(vec!["grep", ""], "hello\nworld");
    let result = grep::bin(&mut env).unwrap();
    assert_eq!(0, result.code());
    assert_eq!("hello\nworld\n", env.stdout.into_string());
}

#[test]
fn no_pattern_error() {
    let mut env = make_test_env_with_stdin(vec!["grep"], "hello");
    let result = grep::bin(&mut env).unwrap();
    assert_eq!(2, result.code());
    let stderr = env.stderr.into_string();
    println!("stderr: {:?}", stderr);
    assert!(stderr.contains("no pattern"));
}

#[test]
fn invalid_regex_error() {
    let mut env = make_test_env_with_stdin(vec!["grep", "[invalid"], "hello");
    let result = grep::bin(&mut env).unwrap();
    assert_eq!(2, result.code());
    let stderr = env.stderr.into_string();
    println!("stderr: {:?}", stderr);
    assert!(stderr.contains("invalid regex"));
}

#[test]
fn invalid_after_context() {
    let mut env = make_test_env_with_stdin(vec!["grep", "-A", "foo", "pattern"], "hello");
    let result = grep::bin(&mut env).unwrap();
    assert_eq!(2, result.code());
    let stderr = env.stderr.into_string();
    println!("stderr: {:?}", stderr);
    assert!(stderr.contains("invalid context length"));
}

#[test]
fn invalid_before_context() {
    let mut env = make_test_env_with_stdin(vec!["grep", "-B", "bar", "pattern"], "hello");
    let result = grep::bin(&mut env).unwrap();
    assert_eq!(2, result.code());
    let stderr = env.stderr.into_string();
    println!("stderr: {:?}", stderr);
    assert!(stderr.contains("invalid context length"));
}

#[test]
fn invalid_max_count() {
    let mut env = make_test_env_with_stdin(vec!["grep", "-m", "baz", "pattern"], "hello");
    let result = grep::bin(&mut env).unwrap();
    assert_eq!(2, result.code());
    let stderr = env.stderr.into_string();
    println!("stderr: {:?}", stderr);
    assert!(stderr.contains("invalid max count"));
}

#[test]
fn fgrep_override_with_e_flag() {
    // fgrep should default to fixed, but -E should override to extended
    let mut env = make_test_env_with_stdin(vec!["fgrep", "-E", "hel+o"], "hello\nhelo");
    let result = grep::bin(&mut env).unwrap();
    assert_eq!(0, result.code());
    let stdout = env.stdout.into_string();
    println!("stdout: {:?}", stdout);
    // With -E, hel+o is a regex matching hello and helo
    assert!(stdout.contains("hello"));
    assert!(stdout.contains("helo"));
}

#[test]
fn combined_flags() {
    let mut env =
        make_test_env_with_stdin(vec!["grep", "-inv", "hello"], "HELLO world\ngoodbye\nfoo");
    let result = grep::bin(&mut env).unwrap();
    assert_eq!(0, result.code());
    let stdout = env.stdout.into_string();
    println!("stdout: {:?}", stdout);
    // -i: case insensitive, -n: line numbers, -v: invert
    // Should match lines NOT containing hello (case insensitive)
    assert!(stdout.contains("2:goodbye"));
    assert!(stdout.contains("3:foo"));
}

#[test]
fn head_empty_stdin() {
    let mut env = make_test_env_with_stdin(vec!["head"], "");
    let result = head::bin(&mut env).unwrap();
    assert_eq!(0, result.code());
    assert_eq!("", env.stdout.into_string());
}

#[test]
fn head_single_line() {
    let mut env = make_test_env_with_stdin(vec!["head"], "hello");
    let result = head::bin(&mut env).unwrap();
    assert_eq!(0, result.code());
    assert_eq!("hello\n", env.stdout.into_string());
}

#[test]
fn default_ten_lines() {
    let input = "1\n2\n3\n4\n5\n6\n7\n8\n9\n10\n11\n12";
    let mut env = make_test_env_with_stdin(vec!["head"], input);
    let result = head::bin(&mut env).unwrap();
    assert_eq!(0, result.code());
    let expected = "1\n2\n3\n4\n5\n6\n7\n8\n9\n10\n";
    assert_eq!(expected, env.stdout.into_string());
}

#[test]
fn fewer_than_ten_lines() {
    let input = "one\ntwo\nthree";
    let mut env = make_test_env_with_stdin(vec!["head"], input);
    let result = head::bin(&mut env).unwrap();
    assert_eq!(0, result.code());
    assert_eq!("one\ntwo\nthree\n", env.stdout.into_string());
}

#[test]
fn n_flag_five_lines() {
    let input = "1\n2\n3\n4\n5\n6\n7\n8\n9\n10";
    let mut env = make_test_env_with_stdin(vec!["head", "-n", "5"], input);
    let result = head::bin(&mut env).unwrap();
    assert_eq!(0, result.code());
    assert_eq!("1\n2\n3\n4\n5\n", env.stdout.into_string());
}

#[test]
fn n_flag_one_line() {
    let input = "first\nsecond\nthird";
    let mut env = make_test_env_with_stdin(vec!["head", "-n", "1"], input);
    let result = head::bin(&mut env).unwrap();
    assert_eq!(0, result.code());
    assert_eq!("first\n", env.stdout.into_string());
}

#[test]
fn n_flag_more_than_available() {
    let input = "one\ntwo\nthree";
    let mut env = make_test_env_with_stdin(vec!["head", "-n", "100"], input);
    let result = head::bin(&mut env).unwrap();
    assert_eq!(0, result.code());
    assert_eq!("one\ntwo\nthree\n", env.stdout.into_string());
}

#[test]
fn n_flag_long_form() {
    let input = "1\n2\n3\n4\n5";
    let mut env = make_test_env_with_stdin(vec!["head", "--lines=3"], input);
    let result = head::bin(&mut env).unwrap();
    assert_eq!(0, result.code());
    assert_eq!("1\n2\n3\n", env.stdout.into_string());
}

#[test]
fn n_flag_zero_is_error() {
    let mut env = make_test_env_with_stdin(vec!["head", "-n", "0"], "hello");
    let result = head::bin(&mut env).unwrap();
    assert_eq!(1, result.code());
    let stderr = env.stderr.into_string();
    println!("stderr: {:?}", stderr);
    assert!(stderr.contains("illegal line count"));
}

#[test]
fn n_flag_negative_is_error() {
    let mut env = make_test_env_with_stdin(vec!["head", "-n", "-5"], "hello");
    let result = head::bin(&mut env).unwrap();
    assert_eq!(1, result.code());
    let stderr = env.stderr.into_string();
    println!("stderr: {:?}", stderr);
    assert!(stderr.contains("illegal line count"));
}

#[test]
fn n_flag_non_numeric_is_error() {
    let mut env = make_test_env_with_stdin(vec!["head", "-n", "abc"], "hello");
    let result = head::bin(&mut env).unwrap();
    assert_eq!(1, result.code());
    let stderr = env.stderr.into_string();
    println!("stderr: {:?}", stderr);
    assert!(stderr.contains("illegal line count"));
}

#[test]
fn c_flag_five_bytes() {
    let mut env = make_test_env_with_stdin(vec!["head", "-c", "5"], "hello world");
    let result = head::bin(&mut env).unwrap();
    assert_eq!(0, result.code());
    assert_eq!("hello", env.stdout.into_string());
}

#[test]
fn c_flag_from_file() {
    let mut env = make_test_env_with_stdin(vec!["head", "-c", "5", "file.txt"], "");
    env.fs.add_file("file.txt", "hello world\n");
    let result = head::bin(&mut env).unwrap();
    assert_eq!(0, result.code());
    assert_eq!("hello", env.stdout.into_string());
}

#[test]
fn c_flag_more_than_available() {
    let mut env = make_test_env_with_stdin(vec!["head", "-c", "100", "file.txt"], "");
    env.fs.add_file("file.txt", "short");
    let result = head::bin(&mut env).unwrap();
    assert_eq!(0, result.code());
    assert_eq!("short", env.stdout.into_string());
}

#[test]
fn c_flag_long_form() {
    let mut env = make_test_env_with_stdin(vec!["head", "--bytes=3", "file.txt"], "");
    env.fs.add_file("file.txt", "hello");
    let result = head::bin(&mut env).unwrap();
    assert_eq!(0, result.code());
    assert_eq!("hel", env.stdout.into_string());
}

#[test]
fn c_flag_zero_is_error() {
    let mut env = make_test_env_with_stdin(vec!["head", "-c", "0"], "hello");
    let result = head::bin(&mut env).unwrap();
    assert_eq!(1, result.code());
    let stderr = env.stderr.into_string();
    println!("stderr: {:?}", stderr);
    assert!(stderr.contains("illegal byte count"));
}

#[test]
fn c_and_n_together_is_error() {
    let mut env = make_test_env_with_stdin(vec!["head", "-c", "5", "-n", "3"], "hello");
    let result = head::bin(&mut env).unwrap();
    assert_eq!(1, result.code());
    let stderr = env.stderr.into_string();
    println!("stderr: {:?}", stderr);
    assert!(stderr.contains("can't combine"));
}

#[test]
fn size_suffix_k() {
    assert_eq!(Some(1024), parse_size("1k"));
    assert_eq!(Some(2048), parse_size("2K"));
}

#[test]
fn size_suffix_m() {
    assert_eq!(Some(1024 * 1024), parse_size("1m"));
    assert_eq!(Some(2 * 1024 * 1024), parse_size("2M"));
}

#[test]
fn size_suffix_g() {
    assert_eq!(Some(1024 * 1024 * 1024), parse_size("1g"));
}

#[test]
fn size_suffix_b() {
    assert_eq!(Some(512), parse_size("1b"));
    assert_eq!(Some(1024), parse_size("2b"));
}

#[test]
fn size_no_suffix() {
    assert_eq!(Some(42), parse_size("42"));
    assert_eq!(Some(1000), parse_size("1000"));
}

#[test]
fn size_invalid() {
    assert_eq!(None, parse_size(""));
    assert_eq!(None, parse_size("abc"));
    assert_eq!(None, parse_size("1x"));
}

#[test]
fn head_single_file() {
    let mut env = make_test_env_with_stdin(vec!["head", "file.txt"], "");
    env.fs.add_file("file.txt", "line1\nline2\nline3\n");
    let result = head::bin(&mut env).unwrap();
    assert_eq!(0, result.code());
    assert_eq!("line1\nline2\nline3\n", env.stdout.into_string());
}

#[test]
fn head_file_not_found() {
    let mut env = make_test_env_with_stdin(vec!["head", "nonexistent.txt"], "");
    let result = head::bin(&mut env).unwrap();
    assert_eq!(1, result.code());
    let stderr = env.stderr.into_string();
    println!("stderr: {:?}", stderr);
    assert!(stderr.contains("nonexistent.txt"));
}

#[test]
fn multiple_files_with_headers() {
    let mut env = make_test_env_with_stdin(vec!["head", "a.txt", "b.txt"], "");
    env.fs.add_file("a.txt", "aaa\n");
    env.fs.add_file("b.txt", "bbb\n");
    let result = head::bin(&mut env).unwrap();
    assert_eq!(0, result.code());
    let stdout = env.stdout.into_string();
    println!("stdout: {:?}", stdout);
    assert!(stdout.contains("==> a.txt <=="));
    assert!(stdout.contains("==> b.txt <=="));
    assert!(stdout.contains("aaa"));
    assert!(stdout.contains("bbb"));
}

#[test]
fn single_file_no_header() {
    let mut env = make_test_env_with_stdin(vec!["head", "file.txt"], "");
    env.fs.add_file("file.txt", "content\n");
    let result = head::bin(&mut env).unwrap();
    assert_eq!(0, result.code());
    let stdout = env.stdout.into_string();
    println!("stdout: {:?}", stdout);
    assert!(!stdout.contains("==>"));
    assert_eq!("content\n", stdout);
}

#[test]
fn q_flag_suppresses_headers() {
    let mut env = make_test_env_with_stdin(vec!["head", "-q", "a.txt", "b.txt"], "");
    env.fs.add_file("a.txt", "aaa\n");
    env.fs.add_file("b.txt", "bbb\n");
    let result = head::bin(&mut env).unwrap();
    assert_eq!(0, result.code());
    let stdout = env.stdout.into_string();
    println!("stdout: {:?}", stdout);
    assert!(!stdout.contains("==>"));
    assert!(stdout.contains("aaa"));
    assert!(stdout.contains("bbb"));
}

#[test]
fn quiet_long_form() {
    let mut env = make_test_env_with_stdin(vec!["head", "--quiet", "a.txt", "b.txt"], "");
    env.fs.add_file("a.txt", "aaa\n");
    env.fs.add_file("b.txt", "bbb\n");
    let result = head::bin(&mut env).unwrap();
    assert_eq!(0, result.code());
    let stdout = env.stdout.into_string();
    println!("stdout: {:?}", stdout);
    assert!(!stdout.contains("==>"));
}

#[test]
fn silent_long_form() {
    let mut env = make_test_env_with_stdin(vec!["head", "--silent", "a.txt", "b.txt"], "");
    env.fs.add_file("a.txt", "aaa\n");
    env.fs.add_file("b.txt", "bbb\n");
    let result = head::bin(&mut env).unwrap();
    assert_eq!(0, result.code());
    let stdout = env.stdout.into_string();
    println!("stdout: {:?}", stdout);
    assert!(!stdout.contains("==>"));
}

#[test]
fn v_flag_forces_header() {
    let mut env = make_test_env_with_stdin(vec!["head", "-v", "file.txt"], "");
    env.fs.add_file("file.txt", "content\n");
    let result = head::bin(&mut env).unwrap();
    assert_eq!(0, result.code());
    let stdout = env.stdout.into_string();
    println!("stdout: {:?}", stdout);
    assert!(stdout.contains("==> file.txt <=="));
    assert!(stdout.contains("content"));
}

#[test]
fn verbose_long_form() {
    let mut env = make_test_env_with_stdin(vec!["head", "--verbose", "file.txt"], "");
    env.fs.add_file("file.txt", "content\n");
    let result = head::bin(&mut env).unwrap();
    assert_eq!(0, result.code());
    let stdout = env.stdout.into_string();
    println!("stdout: {:?}", stdout);
    assert!(stdout.contains("==> file.txt <=="));
}

#[test]
fn q_overrides_v() {
    let mut env = make_test_env_with_stdin(vec!["head", "-v", "-q", "a.txt", "b.txt"], "");
    env.fs.add_file("a.txt", "aaa\n");
    env.fs.add_file("b.txt", "bbb\n");
    let result = head::bin(&mut env).unwrap();
    assert_eq!(0, result.code());
    let stdout = env.stdout.into_string();
    println!("stdout: {:?}", stdout);
    assert!(!stdout.contains("==>"));
}

#[test]
fn head_dash_means_stdin() {
    let mut env = make_test_env_with_stdin(vec!["head", "-"], "from stdin");
    let result = head::bin(&mut env).unwrap();
    assert_eq!(0, result.code());
    assert_eq!("from stdin\n", env.stdout.into_string());
}

#[test]
fn dash_with_file() {
    let mut env = make_test_env_with_stdin(vec!["head", "a.txt", "-", "b.txt"], "stdin content");
    env.fs.add_file("a.txt", "aaa\n");
    env.fs.add_file("b.txt", "bbb\n");
    let result = head::bin(&mut env).unwrap();
    assert_eq!(0, result.code());
    let stdout = env.stdout.into_string();
    println!("stdout: {:?}", stdout);
    assert!(stdout.contains("==> a.txt <=="));
    assert!(stdout.contains("==> standard input <=="));
    assert!(stdout.contains("==> b.txt <=="));
    assert!(stdout.contains("aaa"));
    assert!(stdout.contains("stdin content"));
    assert!(stdout.contains("bbb"));
}

#[test]
fn head_empty_file() {
    let mut env = make_test_env_with_stdin(vec!["head", "empty.txt"], "");
    env.fs.add_file("empty.txt", "");
    let result = head::bin(&mut env).unwrap();
    assert_eq!(0, result.code());
    assert_eq!("", env.stdout.into_string());
}

#[test]
fn head_file_no_trailing_newline() {
    let mut env = make_test_env_with_stdin(vec!["head", "file.txt"], "");
    env.fs.add_file("file.txt", "no newline");
    let result = head::bin(&mut env).unwrap();
    assert_eq!(0, result.code());
    assert_eq!("no newline\n", env.stdout.into_string());
}

#[test]
fn head_multiple_files_one_missing() {
    let mut env = make_test_env_with_stdin(vec!["head", "a.txt", "missing.txt", "b.txt"], "");
    env.fs.add_file("a.txt", "aaa\n");
    env.fs.add_file("b.txt", "bbb\n");
    let result = head::bin(&mut env).unwrap();
    assert_eq!(1, result.code());
    let stdout = env.stdout.into_string();
    let stderr = env.stderr.into_string();
    println!("stdout: {:?}", stdout);
    println!("stderr: {:?}", stderr);
    assert!(stdout.contains("aaa"));
    assert!(stdout.contains("bbb"));
    assert!(stderr.contains("missing.txt"));
}

#[test]
fn head_illegal_option() {
    let mut env = make_test_env_with_stdin(vec!["head", "-x"], "");
    let result = head::bin(&mut env).unwrap();
    assert_eq!(1, result.code());
    let stderr = env.stderr.into_string();
    println!("stderr: {:?}", stderr);
    assert!(stderr.contains("Unrecognized option"));
}

#[test]
fn legacy_dash_number_syntax() {
    let input = "1\n2\n3\n4\n5\n6\n7\n8\n9\n10\n11\n12";
    let mut env = make_test_env_with_stdin(vec!["head", "-5"], input);
    let result = head::bin(&mut env).unwrap();
    println!("stdout: {:?}", env.stdout.into_string());
    println!("stderr: {:?}", env.stderr.into_string());
    assert_eq!(0, result.code());
    assert_eq!("1\n2\n3\n4\n5\n", env.stdout.into_string());
}

#[test]
fn legacy_dash_twenty() {
    let input: String = (1..=25).map(|i| format!("{}\n", i)).collect();
    let mut env = make_test_env_with_stdin(vec!["head", "-20"], &input);
    let result = head::bin(&mut env).unwrap();
    assert_eq!(0, result.code());
    let expected: String = (1..=20).map(|i| format!("{}\n", i)).collect();
    assert_eq!(expected, env.stdout.into_string());
}

#[test]
fn legacy_dash_one() {
    let input = "first\nsecond\nthird";
    let mut env = make_test_env_with_stdin(vec!["head", "-1"], input);
    let result = head::bin(&mut env).unwrap();
    assert_eq!(0, result.code());
    assert_eq!("first\n", env.stdout.into_string());
}

#[test]
fn legacy_dash_number_with_file() {
    let mut env = make_test_env_with_stdin(vec!["head", "-3", "file.txt"], "");
    env.fs.add_file("file.txt", "a\nb\nc\nd\ne\n");
    let result = head::bin(&mut env).unwrap();
    assert_eq!(0, result.code());
    assert_eq!("a\nb\nc\n", env.stdout.into_string());
}

#[test]
fn header_format_with_newline_between() {
    let mut env = make_test_env_with_stdin(vec!["head", "-n", "1", "a.txt", "b.txt"], "");
    env.fs.add_file("a.txt", "aaa\n");
    env.fs.add_file("b.txt", "bbb\n");
    let result = head::bin(&mut env).unwrap();
    assert_eq!(0, result.code());
    let stdout = env.stdout.into_string();
    println!("stdout: {:?}", stdout);
    let expected = "==> a.txt <==\naaa\n\n==> b.txt <==\nbbb\n";
    assert_eq!(expected, stdout);
}

#[test]
fn combined_nq() {
    let mut env = make_test_env_with_stdin(vec!["head", "-n", "2", "-q", "a.txt", "b.txt"], "");
    env.fs.add_file("a.txt", "a1\na2\na3\n");
    env.fs.add_file("b.txt", "b1\nb2\nb3\n");
    let result = head::bin(&mut env).unwrap();
    assert_eq!(0, result.code());
    let stdout = env.stdout.into_string();
    println!("stdout: {:?}", stdout);
    assert!(!stdout.contains("==>"));
    assert!(stdout.contains("a1\na2\n"));
    assert!(stdout.contains("b1\nb2\n"));
}

#[test]
fn combined_cv() {
    let mut env = make_test_env_with_stdin(vec!["head", "-c", "3", "-v", "file.txt"], "");
    env.fs.add_file("file.txt", "hello");
    let result = head::bin(&mut env).unwrap();
    assert_eq!(0, result.code());
    let stdout = env.stdout.into_string();
    println!("stdout: {:?}", stdout);
    assert!(stdout.contains("==> file.txt <=="));
    assert!(stdout.contains("hel"));
}

#[test]
fn nl_empty_stdin() {
    let mut env = make_test_env_with_stdin(vec!["nl"], "");
    let result = nl::bin(&mut env).unwrap();
    assert_eq!(0, result.code());
    assert_eq!("", env.stdout.into_string());
}

#[test]
fn nl_single_line() {
    let mut env = make_test_env_with_stdin(vec!["nl"], "hello");
    let result = nl::bin(&mut env).unwrap();
    assert_eq!(0, result.code());
    let stdout = env.stdout.into_string();
    println!("stdout: {:?}", stdout);
    assert_eq!("     1\thello\n", stdout);
}

#[test]
fn nl_multiple_lines() {
    let mut env = make_test_env_with_stdin(vec!["nl"], "one\ntwo\nthree");
    let result = nl::bin(&mut env).unwrap();
    assert_eq!(0, result.code());
    let stdout = env.stdout.into_string();
    println!("stdout: {:?}", stdout);
    assert_eq!("     1\tone\n     2\ttwo\n     3\tthree\n", stdout);
}

#[test]
fn default_skips_blank_lines() {
    let mut env = make_test_env_with_stdin(vec!["nl"], "one\n\nthree");
    let result = nl::bin(&mut env).unwrap();
    assert_eq!(0, result.code());
    let stdout = env.stdout.into_string();
    println!("stdout: {:?}", stdout);
    // Default is -b t (non-empty lines only)
    assert_eq!("     1\tone\n      \t\n     2\tthree\n", stdout);
}

#[test]
fn body_type_all() {
    let mut env = make_test_env_with_stdin(vec!["nl", "-ba"], "one\n\nthree");
    let result = nl::bin(&mut env).unwrap();
    assert_eq!(0, result.code());
    let stdout = env.stdout.into_string();
    println!("stdout: {:?}", stdout);
    assert_eq!("     1\tone\n     2\t\n     3\tthree\n", stdout);
}

#[test]
fn body_type_nonempty() {
    let mut env = make_test_env_with_stdin(vec!["nl", "-bt"], "one\n\nthree");
    let result = nl::bin(&mut env).unwrap();
    assert_eq!(0, result.code());
    let stdout = env.stdout.into_string();
    println!("stdout: {:?}", stdout);
    assert_eq!("     1\tone\n      \t\n     2\tthree\n", stdout);
}

#[test]
fn body_type_none() {
    let mut env = make_test_env_with_stdin(vec!["nl", "-bn"], "one\ntwo\nthree");
    let result = nl::bin(&mut env).unwrap();
    assert_eq!(0, result.code());
    let stdout = env.stdout.into_string();
    println!("stdout: {:?}", stdout);
    assert_eq!("      \tone\n      \ttwo\n      \tthree\n", stdout);
}

#[test]
fn body_type_regex() {
    let mut env = make_test_env_with_stdin(vec!["nl", "-bp^foo"], "foo bar\nbaz\nfoobar");
    let result = nl::bin(&mut env).unwrap();
    assert_eq!(0, result.code());
    let stdout = env.stdout.into_string();
    println!("stdout: {:?}", stdout);
    // Only lines starting with "foo" are numbered
    assert_eq!("     1\tfoo bar\n      \tbaz\n     2\tfoobar\n", stdout);
}

#[test]
fn format_rn() {
    let mut env = make_test_env_with_stdin(vec!["nl", "-nrn"], "line");
    let result = nl::bin(&mut env).unwrap();
    assert_eq!(0, result.code());
    let stdout = env.stdout.into_string();
    println!("stdout: {:?}", stdout);
    assert_eq!("     1\tline\n", stdout);
}

#[test]
fn format_ln() {
    let mut env = make_test_env_with_stdin(vec!["nl", "-nln"], "line");
    let result = nl::bin(&mut env).unwrap();
    assert_eq!(0, result.code());
    let stdout = env.stdout.into_string();
    println!("stdout: {:?}", stdout);
    assert_eq!("1     \tline\n", stdout);
}

#[test]
fn format_rz() {
    let mut env = make_test_env_with_stdin(vec!["nl", "-nrz"], "line");
    let result = nl::bin(&mut env).unwrap();
    assert_eq!(0, result.code());
    let stdout = env.stdout.into_string();
    println!("stdout: {:?}", stdout);
    assert_eq!("000001\tline\n", stdout);
}

#[test]
fn width_10() {
    let mut env = make_test_env_with_stdin(vec!["nl", "-w10"], "line");
    let result = nl::bin(&mut env).unwrap();
    assert_eq!(0, result.code());
    let stdout = env.stdout.into_string();
    println!("stdout: {:?}", stdout);
    assert_eq!("         1\tline\n", stdout);
}

#[test]
fn width_2() {
    let mut env = make_test_env_with_stdin(vec!["nl", "-w2"], "line");
    let result = nl::bin(&mut env).unwrap();
    assert_eq!(0, result.code());
    let stdout = env.stdout.into_string();
    println!("stdout: {:?}", stdout);
    assert_eq!(" 1\tline\n", stdout);
}

#[test]
fn width_zero_invalid() {
    let mut env = make_test_env_with_stdin(vec!["nl", "-w0"], "line");
    let result = nl::bin(&mut env).unwrap();
    assert_eq!(1, result.code());
    let stderr = env.stderr.into_string();
    println!("stderr: {:?}", stderr);
    assert!(stderr.contains("width"));
}

#[test]
fn separator_custom() {
    let mut env = make_test_env_with_stdin(vec!["nl", "-s->"], "line");
    let result = nl::bin(&mut env).unwrap();
    assert_eq!(0, result.code());
    let stdout = env.stdout.into_string();
    println!("stdout: {:?}", stdout);
    assert_eq!("     1->line\n", stdout);
}

#[test]
fn separator_space() {
    let mut env = make_test_env_with_stdin(vec!["nl", "-s "], "line");
    let result = nl::bin(&mut env).unwrap();
    assert_eq!(0, result.code());
    let stdout = env.stdout.into_string();
    println!("stdout: {:?}", stdout);
    assert_eq!("     1 line\n", stdout);
}

#[test]
fn start_number_10() {
    let mut env = make_test_env_with_stdin(vec!["nl", "-v10"], "one\ntwo");
    let result = nl::bin(&mut env).unwrap();
    assert_eq!(0, result.code());
    let stdout = env.stdout.into_string();
    println!("stdout: {:?}", stdout);
    assert_eq!("    10\tone\n    11\ttwo\n", stdout);
}

#[test]
fn start_number_negative() {
    let mut env = make_test_env_with_stdin(vec!["nl", "-v-5"], "one\ntwo\nthree");
    let result = nl::bin(&mut env).unwrap();
    assert_eq!(0, result.code());
    let stdout = env.stdout.into_string();
    println!("stdout: {:?}", stdout);
    assert_eq!("    -5\tone\n    -4\ttwo\n    -3\tthree\n", stdout);
}

#[test]
fn increment_2() {
    let mut env = make_test_env_with_stdin(vec!["nl", "-i2"], "one\ntwo\nthree");
    let result = nl::bin(&mut env).unwrap();
    assert_eq!(0, result.code());
    let stdout = env.stdout.into_string();
    println!("stdout: {:?}", stdout);
    assert_eq!("     1\tone\n     3\ttwo\n     5\tthree\n", stdout);
}

#[test]
fn increment_negative() {
    let mut env = make_test_env_with_stdin(vec!["nl", "-v10", "-i-1"], "one\ntwo\nthree");
    let result = nl::bin(&mut env).unwrap();
    assert_eq!(0, result.code());
    let stdout = env.stdout.into_string();
    println!("stdout: {:?}", stdout);
    assert_eq!("    10\tone\n     9\ttwo\n     8\tthree\n", stdout);
}

#[test]
fn blank_join_2() {
    let mut env = make_test_env_with_stdin(vec!["nl", "-ba", "-l2"], "one\n\n\nfour");
    let result = nl::bin(&mut env).unwrap();
    assert_eq!(0, result.code());
    let stdout = env.stdout.into_string();
    println!("stdout: {:?}", stdout);
    // Only the second blank line gets numbered
    assert_eq!("     1\tone\n      \t\n     2\t\n     3\tfour\n", stdout);
}

#[test]
fn header_section() {
    let mut env = make_test_env_with_stdin(
        vec!["nl", "-ha"],
        "\\:\\:\\:\nheader1\nheader2\n\\:\\:\nbody1",
    );
    let result = nl::bin(&mut env).unwrap();
    assert_eq!(0, result.code());
    let stdout = env.stdout.into_string();
    println!("stdout: {:?}", stdout);
    // Header lines numbered with -ha, then body resets
    assert!(stdout.contains("     1\theader1"));
    assert!(stdout.contains("     2\theader2"));
    assert!(stdout.contains("     1\tbody1"));
}

#[test]
fn footer_section() {
    let mut env = make_test_env_with_stdin(vec!["nl", "-fa"], "body1\n\\:\nfooter1\nfooter2");
    let result = nl::bin(&mut env).unwrap();
    assert_eq!(0, result.code());
    let stdout = env.stdout.into_string();
    println!("stdout: {:?}", stdout);
    // Footer lines numbered with -fa
    assert!(stdout.contains("     1\tbody1"));
    assert!(stdout.contains("     1\tfooter1"));
    assert!(stdout.contains("     2\tfooter2"));
}

#[test]
fn no_restart_with_p() {
    let mut env = make_test_env_with_stdin(vec!["nl", "-p"], "body1\nbody2\n\\:\\:\nbody3\nbody4");
    let result = nl::bin(&mut env).unwrap();
    assert_eq!(0, result.code());
    let stdout = env.stdout.into_string();
    println!("stdout: {:?}", stdout);
    // With -p, line numbers continue across section changes
    assert!(stdout.contains("     1\tbody1"));
    assert!(stdout.contains("     2\tbody2"));
    assert!(stdout.contains("     3\tbody3"));
    assert!(stdout.contains("     4\tbody4"));
}

#[test]
fn custom_delimiter() {
    let mut env = make_test_env_with_stdin(vec!["nl", "-d##"], "body1\n####\nbody2");
    let result = nl::bin(&mut env).unwrap();
    assert_eq!(0, result.code());
    let stdout = env.stdout.into_string();
    println!("stdout: {:?}", stdout);
    // ## is body delimiter, so body2 restarts at 1
    assert!(stdout.contains("     1\tbody1"));
    assert!(stdout.contains("     1\tbody2"));
}

#[test]
fn nl_file_not_found() {
    let mut env = make_test_env_with_stdin(vec!["nl", "nonexistent.txt"], "");
    let result = nl::bin(&mut env).unwrap();
    assert_eq!(1, result.code());
    let stderr = env.stderr.into_string();
    println!("stderr: {:?}", stderr);
    assert!(stderr.contains("nonexistent.txt"));
}

#[test]
fn nl_single_file() {
    let mut env = make_test_env_with_stdin(vec!["nl", "file.txt"], "");
    env.fs.add_file("file.txt", "line1\nline2\n");
    let result = nl::bin(&mut env).unwrap();
    assert_eq!(0, result.code());
    let stdout = env.stdout.into_string();
    println!("stdout: {:?}", stdout);
    assert_eq!("     1\tline1\n     2\tline2\n", stdout);
}

#[test]
fn nl_multiple_files() {
    let mut env = make_test_env_with_stdin(vec!["nl", "a.txt", "b.txt"], "");
    env.fs.add_file("a.txt", "aaa\n");
    env.fs.add_file("b.txt", "bbb\n");
    let result = nl::bin(&mut env).unwrap();
    assert_eq!(0, result.code());
    let stdout = env.stdout.into_string();
    println!("stdout: {:?}", stdout);
    // Line numbers continue across files
    assert_eq!("     1\taaa\n     2\tbbb\n", stdout);
}

#[test]
fn stdin_dash() {
    let mut env = make_test_env_with_stdin(vec!["nl", "-"], "from stdin");
    let result = nl::bin(&mut env).unwrap();
    assert_eq!(0, result.code());
    let stdout = env.stdout.into_string();
    println!("stdout: {:?}", stdout);
    assert_eq!("     1\tfrom stdin\n", stdout);
}

#[test]
fn invalid_format() {
    let mut env = make_test_env_with_stdin(vec!["nl", "-nxx"], "line");
    let result = nl::bin(&mut env).unwrap();
    assert_eq!(1, result.code());
    let stderr = env.stderr.into_string();
    println!("stderr: {:?}", stderr);
    assert!(stderr.contains("illegal format"));
}

#[test]
fn invalid_body_type() {
    let mut env = make_test_env_with_stdin(vec!["nl", "-bx"], "line");
    let result = nl::bin(&mut env).unwrap();
    assert_eq!(1, result.code());
    let stderr = env.stderr.into_string();
    println!("stderr: {:?}", stderr);
    assert!(stderr.contains("illegal"));
    assert!(stderr.contains("body"));
}

#[test]
fn nl_invalid_regex() {
    let mut env = make_test_env_with_stdin(vec!["nl", "-bp["], "line");
    let result = nl::bin(&mut env).unwrap();
    assert_eq!(1, result.code());
    let stderr = env.stderr.into_string();
    println!("stderr: {:?}", stderr);
    assert!(stderr.contains("body"));
    assert!(stderr.contains("expr"));
}

#[test]
fn invalid_increment() {
    let mut env = make_test_env_with_stdin(vec!["nl", "-iabc"], "line");
    let result = nl::bin(&mut env).unwrap();
    assert_eq!(1, result.code());
    let stderr = env.stderr.into_string();
    println!("stderr: {:?}", stderr);
    assert!(stderr.contains("invalid incr"));
}

#[test]
fn combined_rz_w4_v2_i2() {
    let mut env =
        make_test_env_with_stdin(vec!["nl", "-nrz", "-w4", "-v2", "-i2", "-s->"], "a\nb\nc");
    let result = nl::bin(&mut env).unwrap();
    assert_eq!(0, result.code());
    let stdout = env.stdout.into_string();
    println!("stdout: {:?}", stdout);
    assert_eq!("0002->a\n0004->b\n0006->c\n", stdout);
}

#[test]
fn format_line_number_rn() {
    assert_eq!("     1", format_line_number(1, 6, NumberFormat::Rn));
    assert_eq!("   123", format_line_number(123, 6, NumberFormat::Rn));
    assert_eq!("    -5", format_line_number(-5, 6, NumberFormat::Rn));
}

#[test]
fn format_line_number_ln() {
    assert_eq!("1     ", format_line_number(1, 6, NumberFormat::Ln));
    assert_eq!("123   ", format_line_number(123, 6, NumberFormat::Ln));
    assert_eq!("-5    ", format_line_number(-5, 6, NumberFormat::Ln));
}

#[test]
fn format_line_number_rz() {
    assert_eq!("000001", format_line_number(1, 6, NumberFormat::Rz));
    assert_eq!("000123", format_line_number(123, 6, NumberFormat::Rz));
    // Note: negative numbers with leading zeros look odd but match behavior
    assert_eq!("0000-5", format_line_number(-5, 6, NumberFormat::Rz));
}

#[test]
fn check_delimiter_header() {
    assert_eq!(
        Some(Section::Header),
        check_section_delimiter("\\:\\:\\:", ('\\', ':'))
    );
}

#[test]
fn check_delimiter_body() {
    assert_eq!(
        Some(Section::Body),
        check_section_delimiter("\\:\\:", ('\\', ':'))
    );
}

#[test]
fn check_delimiter_footer() {
    assert_eq!(
        Some(Section::Footer),
        check_section_delimiter("\\:", ('\\', ':'))
    );
}

#[test]
fn check_delimiter_none() {
    assert_eq!(None, check_section_delimiter("hello", ('\\', ':')));
    assert_eq!(None, check_section_delimiter("\\", ('\\', ':')));
    assert_eq!(None, check_section_delimiter(":", ('\\', ':')));
}

#[test]
fn check_delimiter_custom() {
    assert_eq!(
        Some(Section::Body),
        check_section_delimiter("####", ('#', '#'))
    );
}
