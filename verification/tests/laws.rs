use eudaemonsh::base64::{decode_base64, encode_base64, wrap_output};
use eudaemonsh::builtins::{builtin_commands, lookup_bin};
use eudaemonsh::env::{Error, ExitCode};
use eudaemonsh::inspect_fs::Reply;
use eudaemonsh::host::Host;
use eudaemonsh::markdownsp::{call, Action, Evaluator, FileFunction, NoEvaluator, Value};
use eudaemonsh::readlink::Step;
use eudaemonsh::syntax::{is_valid_var_name, parse_assignment, parse_command_chain, ChainOp};
use eudaemonsh::{
    cat, comm, du, grep, head, inspect_fs, ln, markdownsp, mkdir, mktemp, nl, paths, readlink, rm,
    rmdir, sh, shuf, sort, split,
};
use eudaemonsh::env::{Environment, StringStdioIn, StringStdioOut};
use eudaemonsh::fs::{DirEntry, ErrorKind, FileType, Filesystem, FsError, IoError};
use eudaemonsh::vars::Vars;
use std::collections::BTreeMap;

/// A file, a directory or a symbolic link.
struct Node {
    file_type: FileType,
    /// What a file holds, or where a symbolic link leads.
    text: String,
}

/// A filesystem in memory.
struct TestFilesystem {
    names: BTreeMap<String, usize>,
    nodes: Vec<Node>,
    made: usize,
    /// The files that cannot be read.
    locked: Vec<String>,
}

fn failure<T>(kind: ErrorKind, message: &str) -> Result<T, FsError> {
    Err(FsError::Io(IoError {
        kind,
        message: message.to_string(),
        details: format!("Custom {{ kind: {:?}, error: {:?} }}", kind, message),
    }))
}

fn missing<T>() -> Result<T, FsError> {
    failure(ErrorKind::NotFound, "No such file or directory")
}

fn parent_of(path: &str) -> String {
    match path.rfind('/') {
        Some(0) | None => "/".to_string(),
        Some(i) => path[..i].to_string(),
    }
}

#[allow(dead_code)]
impl TestFilesystem {
    fn new() -> Self {
        let mut names = BTreeMap::new();
        names.insert("/".to_string(), 0);
        let root = Node { file_type: FileType::Directory, text: String::new() };
        TestFilesystem { names, nodes: vec![root], made: 0, locked: Vec::new() }
    }

    /// The place that a path leads to, with the symbolic links before its end followed, and the one
    /// at its end where `last` is set.
    fn place(&self, path: &str, last: bool) -> Option<String> {
        let mut rest: Vec<String> = path.split('/').rev().map(|s| s.to_string()).collect();
        let mut at: Vec<String> = Vec::new();
        let mut links = 0;
        while let Some(step) = rest.pop() {
            if step.is_empty() || step == "." {
                continue;
            }
            if step == ".." {
                at.pop();
                continue;
            }
            at.push(step);
            let here = format!("/{}", at.join("/"));
            let done = rest.iter().all(|s| s.is_empty());
            if let Some(&n) = self.names.get(&here) {
                if self.nodes[n].file_type == FileType::Symlink && (last || !done) {
                    links += 1;
                    if links > 40 {
                        return None;
                    }
                    at.pop();
                    let target = self.nodes[n].text.clone();
                    if target.starts_with('/') {
                        at.clear();
                    }
                    for step in target.split('/').rev() {
                        rest.push(step.to_string());
                    }
                }
            }
        }
        Some(format!("/{}", at.join("/")))
    }

    fn node(&self, path: &str, last: bool) -> Option<usize> {
        let place = self.place(path, last)?;
        self.names.get(&place).copied()
    }

    fn put(&mut self, place: String, file_type: FileType, text: &str) {
        self.nodes.push(Node { file_type, text: text.to_string() });
        self.names.insert(place, self.nodes.len() - 1);
    }

    fn holds_dir(&self, place: &str) -> bool {
        match self.names.get(place) {
            Some(&n) => self.nodes[n].file_type == FileType::Directory,
            None => false,
        }
    }

    fn entry(&self, n: usize) -> DirEntry {
        DirEntry {
            file_type: self.nodes[n].file_type,
            size: if self.nodes[n].file_type == FileType::Directory {
                1
            } else {
                self.nodes[n].text.len() as u64
            },
            dev: 1,
            ino: n as u64,
        }
    }

    fn add_directory(&mut self, path: &str) {
        let place = self.place(path, true).unwrap();
        if place != "/" && !self.names.contains_key(&place) {
            self.add_directory(&parent_of(&place));
            self.put(place, FileType::Directory, "");
        }
    }

    fn mkdir_all(&mut self, path: &str) -> Result<(), FsError> {
        self.add_directory(path);
        Ok(())
    }

    fn add_file(&mut self, path: &str, text: &str) {
        let place = self.place(path, true).unwrap();
        self.add_directory(&parent_of(&place));
        self.write_string(&place, text).unwrap();
    }

    fn make_temp(&mut self, template: &str, file_type: FileType) -> Result<String, FsError> {
        let stem = template.trim_end_matches('X');
        self.made += 1;
        let name = format!("{}{:0width$}", stem, self.made, width = template.len() - stem.len());
        let place = self.place(&name, true).unwrap();
        if !self.holds_dir(&parent_of(&place)) {
            return missing();
        }
        self.put(place, file_type, "");
        Ok(name)
    }
}

impl Filesystem for TestFilesystem {
    fn read_to_string(&mut self, path: &str) -> Result<String, FsError> {
        if self.locked.iter().any(|p| p == path) {
            return failure(ErrorKind::PermissionDenied, "Permission denied");
        }
        match self.node(path, true) {
            None => missing(),
            Some(n) => match self.nodes[n].file_type {
                FileType::Directory => failure(ErrorKind::IsADirectory, "Is a directory"),
                _ => Ok(self.nodes[n].text.clone()),
            },
        }
    }

    fn write_string(&mut self, path: &str, text: &str) -> Result<(), FsError> {
        let place = match self.place(path, true) {
            Some(place) => place,
            None => return missing(),
        };
        match self.names.get(&place) {
            Some(&n) => match self.nodes[n].file_type {
                FileType::Directory => failure(ErrorKind::IsADirectory, "Is a directory"),
                _ => {
                    self.nodes[n].text = text.to_string();
                    Ok(())
                }
            },
            None => {
                if !self.holds_dir(&parent_of(&place)) {
                    return missing();
                }
                self.put(place, FileType::RegularFile, text);
                Ok(())
            }
        }
    }

    fn path_exists(&mut self, path: &str) -> bool {
        self.node(path, true).is_some()
    }

    fn is_dir(&mut self, path: &str) -> bool {
        match self.node(path, true) {
            Some(n) => self.nodes[n].file_type == FileType::Directory,
            None => false,
        }
    }

    fn stat(&mut self, path: &str) -> Result<DirEntry, FsError> {
        match self.node(path, true) {
            Some(n) => Ok(self.entry(n)),
            None => missing(),
        }
    }

    fn lstat(&mut self, path: &str) -> Result<DirEntry, FsError> {
        match self.node(path, false) {
            Some(n) => Ok(self.entry(n)),
            None => missing(),
        }
    }

    fn read_dir(&mut self, path: &str) -> Result<Vec<(String, DirEntry)>, FsError> {
        let place = match self.place(path, true) {
            Some(place) => place,
            None => return missing(),
        };
        if !self.names.contains_key(&place) {
            return missing();
        }
        if !self.holds_dir(&place) {
            return failure(ErrorKind::NotADirectory, "Not a directory");
        }
        let mut found = Vec::new();
        for (name, &n) in &self.names {
            if name != "/" && parent_of(name) == place {
                let base = name.rsplit('/').next().unwrap().to_string();
                found.push((base, self.entry(n)));
            }
        }
        Ok(found)
    }

    fn mkdir(&mut self, path: &str) -> Result<(), FsError> {
        let place = self.place(path, true).unwrap();
        if self.names.contains_key(&place) {
            return failure(ErrorKind::AlreadyExists, "File exists");
        }
        if !self.holds_dir(&parent_of(&place)) {
            return missing();
        }
        self.put(place, FileType::Directory, "");
        Ok(())
    }

    fn rmdir(&mut self, path: &str) -> Result<(), FsError> {
        let place = self.place(path, false).unwrap();
        if !self.names.contains_key(&place) {
            return missing();
        }
        if !self.holds_dir(&place) {
            return failure(ErrorKind::NotADirectory, "Not a directory");
        }
        if self.names.keys().any(|name| name != "/" && parent_of(name) == place) {
            return failure(ErrorKind::DirectoryNotEmpty, "Directory not empty");
        }
        self.names.remove(&place);
        Ok(())
    }

    fn unlink(&mut self, path: &str) -> Result<(), FsError> {
        let place = self.place(path, false).unwrap();
        if !self.names.contains_key(&place) {
            return missing();
        }
        if self.holds_dir(&place) {
            return failure(ErrorKind::IsADirectory, "Is a directory");
        }
        self.names.remove(&place);
        Ok(())
    }

    fn link(&mut self, from: &str, to: &str) -> Result<(), FsError> {
        let n = match self.node(from, true) {
            Some(n) => n,
            None => return missing(),
        };
        let place = self.place(to, false).unwrap();
        if self.names.contains_key(&place) {
            return failure(ErrorKind::AlreadyExists, "File exists");
        }
        if !self.holds_dir(&parent_of(&place)) {
            return missing();
        }
        self.names.insert(place, n);
        Ok(())
    }

    fn symlink(&mut self, from: &str, to: &str) -> Result<(), FsError> {
        let place = self.place(to, false).unwrap();
        if self.names.contains_key(&place) {
            return failure(ErrorKind::AlreadyExists, "File exists");
        }
        if !self.holds_dir(&parent_of(&place)) {
            return missing();
        }
        self.put(place, FileType::Symlink, from);
        Ok(())
    }

    fn readlink(&mut self, path: &str) -> Result<String, FsError> {
        match self.node(path, false) {
            None => missing(),
            Some(n) => match self.nodes[n].file_type {
                FileType::Symlink => Ok(self.nodes[n].text.clone()),
                _ => failure(ErrorKind::InvalidInput, "Invalid argument"),
            },
        }
    }

    fn mkstemp(&mut self, template: &str) -> Result<String, FsError> {
        self.make_temp(template, FileType::RegularFile)
    }

    fn mkdtemp(&mut self, template: &str) -> Result<String, FsError> {
        self.make_temp(template, FileType::Directory)
    }
}

#[allow(dead_code)]
fn make_test_env(args: Vec<&str>) -> Environment<TestFilesystem> {
    make_test_env_with_stdin(args, "")
}

fn make_test_env_with_stdin(args: Vec<&str>, stdin: &str) -> Environment<TestFilesystem> {
    Environment {
        stdin: StringStdioIn::new(stdin),
        stdout: StringStdioOut::new(),
        stderr: StringStdioOut::new(),
        merged: false,
        fs: TestFilesystem::new(),
        env: Vars::new(),
        vars: Vars::new(),
        args: args.into_iter().map(|s| s.to_string()).collect(),
        cwd: "/".to_string(),
        seed: 7,
        exit_signaled: false,
    }
}

/// Builds the environment of a test.
#[allow(dead_code)]
struct TestEnvBuilder {
    env: Environment<TestFilesystem>,
}

#[allow(dead_code)]
impl TestEnvBuilder {
    fn new() -> Self {
        TestEnvBuilder { env: make_test_env(vec![]) }
    }

    fn args(mut self, args: Vec<&str>) -> Self {
        self.env.args = args.into_iter().map(|s| s.to_string()).collect();
        self
    }

    fn cwd(mut self, cwd: &str) -> Self {
        self.env.cwd = cwd.to_string();
        self
    }

    fn env_var(mut self, name: &str, value: &str) -> Self {
        self.env.env.insert(name, value);
        self
    }

    fn build(self) -> Environment<TestFilesystem> {
        self.env
    }
}

/// Where the number that a text writes stands among all numbers, times a power of 1024.
#[allow(dead_code)]
fn num(text: &str, power: u32) -> Option<i64> {
    let mut n: f64 = text.parse().unwrap_or(0.0);
    for _ in 0..power {
        n *= 1024.0;
    }
    if n.is_nan() {
        return None;
    }
    let n = if n == 0.0 { 0.0 } else { n };
    let bits = n.to_bits() as i64;
    Some(if bits < 0 { i64::MIN.wrapping_sub(bits) } else { bits })
}

/// A host that knows no expressions.
const HOST: Host<fn(&str, u32) -> Option<i64>, NoEvaluator> = Host { num, eval: NoEvaluator };

fn run(command: &str, env: &mut Environment<TestFilesystem>) -> Result<ExitCode, Error> {
    sh::run(command.to_string(), env, &HOST)
}

fn words(list: &[&str]) -> Vec<String> {
    list.iter().map(|s| s.to_string()).collect()
}

// Encoding

#[test]
fn decoding_undoes_encoding() {
    for n in 0..40usize {
        let bytes: Vec<u8> = (0..n).map(|i| (i * 37 + 200) as u8).collect();
        assert_eq!(Some(bytes.clone()), decode_base64(&encode_base64(&bytes)));
    }
}

#[test]
fn wrapping_takes_nothing_away() {
    let s = encode_base64(b"The quick brown fox jumps over the lazy dog");
    assert_eq!(s, wrap_output(&s, 7).replace('\n', ""));
    assert_eq!(Some(b"The quick brown fox jumps over the lazy dog".to_vec()), decode_base64(&wrap_output(&s, 7)));
}

#[test]
fn padding_is_not_followed_by_anything_else() {
    assert_eq!(None, decode_base64("YQ=!"));
    assert_eq!(None, decode_base64("YQ=a"));
    assert_eq!(Some(b"a".to_vec()), decode_base64("YQ=="));
    assert_eq!(Some(b"a".to_vec()), decode_base64("YQ="));
    assert_eq!(Some(b"a".to_vec()), decode_base64("YQ"));
}

// Whole texts

#[test]
fn cat_without_options_copies() {
    let mut env = make_test_env_with_stdin(vec!["cat"], "a\n\n\tb\nc\n");
    cat::bin(&mut env).unwrap();
    assert_eq!("a\n\n\tb\nc\n", env.stdout.into_string());
}

#[test]
fn cat_squeezes_to_one_blank_line() {
    let mut env = make_test_env_with_stdin(vec!["cat", "-s"], "a\n\n\n\nb\n");
    cat::bin(&mut env).unwrap();
    assert_eq!("a\n\nb\n", env.stdout.into_string());
}

#[test]
fn comm_of_a_file_with_itself_has_one_column() {
    let mut env = make_test_env(vec!["comm", "/a", "/a"]);
    env.fs.add_file("/a", "x\ny\n");
    comm::bin(&mut env).unwrap();
    assert_eq!("\t\tx\n\t\ty\n", env.stdout.into_string());
}

#[test]
fn head_of_a_short_text_is_the_text() {
    let mut env = make_test_env_with_stdin(vec!["head", "-n", "9"], "a\nb\n");
    head::bin(&mut env).unwrap();
    assert_eq!("a\nb\n", env.stdout.into_string());
}

#[test]
fn head_bytes_are_a_prefix() {
    let mut env = make_test_env_with_stdin(vec!["head", "-c", "3"], "abcdef\n");
    head::bin(&mut env).unwrap();
    assert_eq!("abc", env.stdout.into_string());
}

#[test]
fn nl_steps_by_its_increment() {
    let mut env = make_test_env_with_stdin(vec!["nl", "-i", "5", "-v", "10", "-w", "3"], "a\nb\nc\n");
    nl::bin(&mut env).unwrap();
    assert_eq!(" 10\ta\n 15\tb\n 20\tc\n", env.stdout.into_string());
}

#[test]
fn grep_counts_and_inverts() {
    let mut env = make_test_env_with_stdin(vec!["grep", "-c", "a"], "a\nb\nab\n");
    grep::bin(&mut env).unwrap();
    assert_eq!("2\n", env.stdout.into_string());
    let mut env = make_test_env_with_stdin(vec!["grep", "-c", "-v", "a"], "a\nb\nab\n");
    grep::bin(&mut env).unwrap();
    assert_eq!("1\n", env.stdout.into_string());
}

#[test]
fn grep_quiet_prints_nothing() {
    let mut env = make_test_env_with_stdin(vec!["grep", "-q", "a"], "a\n");
    assert_eq!(0, grep::bin(&mut env).unwrap().code());
    assert_eq!("", env.stdout.into_string());
}

#[test]
fn grep_takes_a_regular_expression() {
    let mut env = make_test_env_with_stdin(vec!["grep", "-E", "^a.+c$"], "abc\nac\nxabc\n");
    grep::bin(&mut env).unwrap();
    assert_eq!("abc\n", env.stdout.into_string());
}

#[test]
fn grep_refuses_a_malformed_expression() {
    let mut env = make_test_env_with_stdin(vec!["grep", "-E", "("], "");
    assert_eq!(2, grep::bin(&mut env).unwrap().code());
    assert!(!env.stderr.into_string().is_empty());
}

#[test]
fn leading_context_is_numbered_only_on_demand() {
    let input = "start\nbefore\nmatch\nafter\n";
    let mut env = make_test_env_with_stdin(vec!["grep", "-B", "1", "match"], input);
    grep::bin(&mut env).unwrap();
    assert_eq!("before\nmatch\n", env.stdout.into_string());
    let mut env = make_test_env_with_stdin(vec!["grep", "-n", "-B", "1", "match"], input);
    grep::bin(&mut env).unwrap();
    assert_eq!("2-before\n3:match\n", env.stdout.into_string());
}

#[test]
fn fixed_strings_may_have_to_be_whole() {
    let input = "hello\nhello world\nHELLO\nothello\nhello_x\n";
    for (options, expected) in [
        (vec!["grep", "-F", "-x", "hello"], "hello\n"),
        (vec!["grep", "-F", "-x", "-i", "hello"], "hello\nHELLO\n"),
        (vec!["grep", "-F", "-w", "hello"], "hello\nhello world\n"),
        (vec!["grep", "-F", "-w", "-x", "hello world"], "hello world\n"),
        (vec!["grep", "-F", "hello"], "hello\nhello world\nothello\nhello_x\n"),
    ] {
        let mut env = make_test_env_with_stdin(options, input);
        grep::bin(&mut env).unwrap();
        assert_eq!(expected, env.stdout.into_string());
    }
}

#[test]
fn expressions_may_have_to_be_whole() {
    let input = "hello\nworld\nhello world\nworlds\n";
    for (options, expected) in [
        (vec!["grep", "-E", "-x", "hello|world"], "hello\nworld\n"),
        (vec!["grep", "-E", "-w", "hello|world"], "hello\nworld\nhello world\n"),
    ] {
        let mut env = make_test_env_with_stdin(options, input);
        grep::bin(&mut env).unwrap();
        assert_eq!(expected, env.stdout.into_string());
    }
    // An expression that is malformed alone does not become well-formed by what is put around it.
    let mut env = make_test_env_with_stdin(vec!["grep", "-E", "-x", "a)|(b"], input);
    assert_eq!(2, grep::bin(&mut env).unwrap().code());
}

#[test]
fn expressions_that_cannot_be_put_in_brackets_are_taken_as_they_are() {
    let input = "a\nab\nba\n";
    let mut env = make_test_env_with_stdin(vec!["grep", "-E", "-x", "(?x)a #c"], input);
    assert_eq!(0, grep::bin(&mut env).unwrap().code());
    assert_eq!("a\nab\n", env.stdout.into_string());
}

#[test]
fn what_goes_wrong_in_a_directory_does_not_end_the_search() {
    for (pattern, code, out) in [("hit", 0, "/d/b:hit\n"), ("none", 1, "")] {
        let mut env = make_test_env(vec!["grep", "-r", pattern, "/d"]);
        env.fs.add_file("/d/a", "hit\n");
        env.fs.add_file("/d/b", "hit\n");
        env.fs.add_file("/d/.c", "hit\n");
        env.fs.locked.push("/d/a".to_string());
        assert_eq!(code, grep::bin(&mut env).unwrap().code());
        assert_eq!(out, env.stdout.into_string());
        assert_eq!("grep: /d/a: Permission denied\n", env.stderr.into_string());
    }
}

#[test]
fn nothing_is_selected_up_to_no_line() {
    let mut env = make_test_env_with_stdin(vec!["grep", "-m", "0", "a"], "a\na\n");
    assert_eq!(1, grep::bin(&mut env).unwrap().code());
    assert_eq!("", env.stdout.into_string());
    let mut env = make_test_env_with_stdin(vec!["grep", "-m", "1", "a"], "a\na\n");
    assert_eq!(0, grep::bin(&mut env).unwrap().code());
    assert_eq!("a\n", env.stdout.into_string());
}

#[test]
fn binary_files_are_counted_and_named() {
    for (options, expected) in [
        (vec!["grep", "-c", "a", "/f"], "2\n"),
        (vec!["grep", "-l", "a", "/f"], "/f\n"),
    ] {
        let mut env = make_test_env(options);
        env.fs.add_file("/f", "a\u{0}\na\n");
        assert_eq!(0, grep::bin(&mut env).unwrap().code());
        assert_eq!(expected, env.stdout.into_string());
    }
}

#[test]
fn matches_do_not_overlap() {
    let m = grep::Matcher::Fixed { patterns: words(&["aa"]), ignore_case: false };
    assert_eq!(vec![(0, 2), (2, 4)], m.find_matches("aaaaa"));
    let m = grep::Matcher::Fixed { patterns: words(&["éa", "a"]), ignore_case: false };
    assert_eq!(vec![(0, 3), (4, 5)], m.find_matches("éa-a"));
    let mut env = make_test_env_with_stdin(vec!["grep", "-o", "-e", "ab", "-e", "b+"], "xabbb\n");
    grep::bin(&mut env).unwrap();
    assert_eq!("ab\n", env.stdout.into_string());
}

// Order

#[test]
fn the_check_takes_empty_lines_for_lines() {
    let mut env = make_test_env_with_stdin(vec!["sort", "-c"], "a\n\n");
    assert_eq!(1, sort::bin(&mut env, &num).unwrap().code());
    assert_eq!("sort: -:2:1: disorder: \n", env.stderr.into_string());
    let mut env = make_test_env_with_stdin(vec!["sort", "-c"], "\nb\na\n");
    assert_eq!(1, sort::bin(&mut env, &num).unwrap().code());
    assert_eq!("sort: -:3:1: disorder: a\n", env.stderr.into_string());
    let mut env = make_test_env_with_stdin(vec!["sort", "-c"], "\na\n");
    assert_eq!(0, sort::bin(&mut env, &num).unwrap().code());
}

#[test]
fn keys_count_characters() {
    let key = sort::KeySpec {
        start_field: 1,
        start_char: 2,
        end_field: 1,
        end_char: 0,
        modifiers: sort::KeyModifiers::default(),
    };
    assert_eq!("a", sort::extract_key("éa", &key, None));
    let key = sort::KeySpec { end_char: 3, ..key };
    assert_eq!("üx", sort::extract_key("éüxa b", &key, None));
}

#[test]
fn sorting_again_changes_nothing() {
    for options in [vec!["sort"], vec!["sort", "-n", "-u"], vec!["sort", "-k", "2", "-r"]] {
        let mut env = make_test_env_with_stdin(options.clone(), "b 2\n\na 10\nb 2\nc 1\n");
        sort::bin(&mut env, &num).unwrap();
        let once = env.stdout.into_string();
        let mut env = make_test_env_with_stdin(options, &once);
        sort::bin(&mut env, &num).unwrap();
        assert_eq!(once, env.stdout.into_string());
    }
}

#[test]
fn where_lines_stood_does_not_matter() {
    let mut texts = Vec::new();
    for input in ["b\na\n\nc\nb\n", "\nb\nc\nb\na\n"] {
        let mut env = make_test_env_with_stdin(vec!["sort"], input);
        sort::bin(&mut env, &num).unwrap();
        texts.push(env.stdout.into_string());
    }
    assert_eq!("\na\nb\nb\nc\n", texts[0]);
    assert_eq!(texts[0], texts[1]);
}

#[test]
fn random_sorting_keeps_equal_keys_together() {
    let mut input = String::new();
    for i in 0..60 {
        input.push_str(&format!("k{} {}\n", i % 20, i));
    }
    let mut env = make_test_env_with_stdin(vec!["sort", "-R", "-k", "1,1"], &input);
    sort::bin(&mut env, &num).unwrap();
    let out = env.stdout.into_string();
    let lines: Vec<&str> = out.lines().collect();
    let mut runs: Vec<&str> = lines.iter().map(|l| l.split(' ').next().unwrap()).collect();
    runs.dedup();
    assert_eq!(20, runs.len());
    let mut ordered = runs.clone();
    ordered.sort();
    assert_ne!(ordered, runs);
    ordered.dedup();
    assert_eq!(20, ordered.len());
    let mut all: Vec<&str> = lines.clone();
    all.sort();
    let mut given: Vec<&str> = input.lines().collect();
    given.sort();
    assert_eq!(given, all);
}

#[test]
fn sorted_output_passes_the_check() {
    let mut env = make_test_env_with_stdin(vec!["sort", "-r"], "b\nc\na\n");
    sort::bin(&mut env, &num).unwrap();
    let out = env.stdout.into_string();
    assert_eq!("c\nb\na\n", out);
    let mut env = make_test_env_with_stdin(vec!["sort", "-r", "-c"], &out);
    assert_eq!(0, sort::bin(&mut env, &num).unwrap().code());
}

#[test]
fn unique_sorted_neighbours_differ() {
    let mut env = make_test_env_with_stdin(vec!["sort", "-u"], "b\na\nb\na\n");
    sort::bin(&mut env, &num).unwrap();
    assert_eq!("a\nb\n", env.stdout.into_string());
}

#[test]
fn numbers_are_ordered_as_numbers() {
    let mut env = make_test_env_with_stdin(vec!["sort", "-n"], "10\n-1.5\n9\n");
    sort::bin(&mut env, &num).unwrap();
    assert_eq!("-1.5\n9\n10\n", env.stdout.into_string());
}

#[test]
fn shuffling_keeps_the_lines() {
    let input: String = (0..50).map(|i| format!("line{}\n", i)).collect();
    let mut env = make_test_env_with_stdin(vec!["shuf"], &input);
    shuf::bin(&mut env).unwrap();
    let out = env.stdout.into_string();
    assert_ne!(input, out);
    let mut a: Vec<&str> = input.lines().collect();
    let mut b: Vec<&str> = out.lines().collect();
    a.sort();
    b.sort();
    assert_eq!(a, b);
}

#[test]
fn shuffling_again_gives_another_order() {
    let mut env = make_test_env(vec!["shuf", "-i", "1-50"]);
    shuf::bin(&mut env).unwrap();
    let first = env.stdout.into_string();
    shuf::bin(&mut env).unwrap();
    let both = env.stdout.into_string();
    assert_ne!(first, both[first.len()..]);
}

#[test]
fn sampling_draws_more_than_one_line() {
    let mut env = make_test_env(vec!["shuf", "-r", "-n", "200", "-e", "a", "b", "c"]);
    shuf::bin(&mut env).unwrap();
    let out = env.stdout.into_string();
    assert_eq!(200, out.lines().count());
    for line in ["a", "b", "c"] {
        assert!(out.lines().any(|l| l == line));
    }
}

#[test]
fn shuf_refuses_ranges() {
    for (range, words) in [
        ("5-1", "shuf: invalid input range: '5-1': 5 > 1\n"),
        ("x", "shuf: invalid input range: 'x'\n"),
        ("-5", "shuf: invalid input range: '-5'\n"),
        ("-5-x", "shuf: invalid input range: '-5-x'\n"),
    ] {
        let mut env = make_test_env(vec!["shuf", "-i", range]);
        assert_eq!(1, shuf::bin(&mut env).unwrap().code());
        assert_eq!(words, env.stderr.into_string());
    }
    assert_eq!(Some((1, -5)), shuf::parse_input_range("1--5"));
}

#[test]
fn ranges_may_begin_below_zero() {
    assert_eq!(Some((-5, 10)), shuf::parse_input_range("-5-10"));
    assert_eq!(Some((-5, -2)), shuf::parse_input_range("-5--2"));
    let mut env = make_test_env(vec!["shuf", "-i", "-2-1"]);
    assert_eq!(0, shuf::bin(&mut env).unwrap().code());
    let out = env.stdout.into_string();
    let mut lines: Vec<&str> = out.lines().collect();
    lines.sort();
    assert_eq!(vec!["-1", "-2", "0", "1"], lines);
}

#[test]
fn shuffling_keeps_empty_lines() {
    let mut env = make_test_env_with_stdin(vec!["shuf"], "a\n\nb\n");
    shuf::bin(&mut env).unwrap();
    let out = env.stdout.into_string();
    let mut lines: Vec<&str> = out.lines().collect();
    lines.sort();
    assert_eq!(vec!["", "a", "b"], lines);
}

#[test]
fn nothing_is_shuffled_of_nothing() {
    let opts = shuf::ShufOptions { input_range: Some((2, 1)), ..shuf::ShufOptions::default() };
    let mut env = make_test_env(vec!["shuf"]);
    let lines = shuf::collect_input(&mut env, &Vec::new(), &opts);
    assert!(lines.is_empty());
    assert!(shuf::generate_output(&lines, &opts, 7).0.is_empty());
}

// Splitting

#[test]
fn pieces_make_up_the_text() {
    let mut env = make_test_env_with_stdin(vec!["split", "-l", "2"], "1\n2\n3\n4\n5\n");
    split::bin(&mut env).unwrap();
    let mut all = String::new();
    for name in ["/xaa", "/xab", "/xac"] {
        all.push_str(&env.fs.read_to_string(name).unwrap());
    }
    assert_eq!("1\n2\n3\n4\n5\n", all);
    assert!(!env.fs.path_exists("/xad"));
}

#[test]
fn suffixes_differ() {
    let mut seen = std::collections::HashSet::new();
    for n in 0..676 {
        assert!(seen.insert(split::generate_suffix(n, 2, false)));
    }
}

#[test]
fn names_run_out_only_where_they_are_fixed() {
    let mut names = split::FileNameGenerator::new("x".to_string(), 1, true, true);
    for n in 0..10 {
        assert_eq!(Some(format!("x{}", n)), names.next_name());
    }
    assert_eq!(None, names.next_name());
    assert_eq!(None, names.next_name());
    let mut names = split::FileNameGenerator::new("x".to_string(), 1, false, true);
    let mut seen = std::collections::HashSet::new();
    for _ in 0..800 {
        assert!(seen.insert(names.next_name().unwrap()));
    }
}

#[test]
fn no_piece_is_without_lines() {
    assert_eq!(words(&["a\n", "b\n"]), split::split_by_lines(&words(&["a", "b"]), 0));
}

// Sizes

#[test]
fn blocks_hold_the_bytes() {
    let mut env = make_test_env(vec!["du", "-a", "-k", "/f"]);
    env.fs.add_file("/f", &"x".repeat(1025));
    du::bin(&mut env).unwrap();
    assert_eq!("2\t/f\n", env.stdout.into_string());
}

#[test]
fn hard_links_are_counted_once() {
    let mut env = make_test_env(vec!["du", "-A", "-a", "/d"]);
    env.fs.add_file("/d/a", &"x".repeat(512));
    env.fs.link("/d/a", "/d/b").unwrap();
    du::bin(&mut env).unwrap();
    assert_eq!(2, env.stdout.into_string().lines().count());
}

// Paths

#[test]
fn resolved_paths_are_normal() {
    assert_eq!("/a/c", paths::resolve_path("/a/b", "./../c//"));
    assert_eq!("/", paths::resolve_path("/", "../.."));
    assert_eq!("/x", paths::resolve_path("/a", "/x"));
}

#[test]
fn parents_are_shorter() {
    assert_eq!(Some("/a".to_string()), paths::parent_of("/a/b/"));
    assert_eq!(Some("a".to_string()), paths::parent_of("a/./b"));
    assert_eq!(Some("/".to_string()), paths::parent_of("//a"));
    assert_eq!(Some("".to_string()), paths::parent_of("a"));
    assert_eq!(None, paths::parent_of("/"));
    assert_eq!(None, paths::parent_of(""));
}

#[test]
fn parents_agree_with_std() {
    for path in ["/a/b/", "a/./b", "//a", "a", "/", "", ".", "./a", "a//b", "/a/.", "..", "a/..", "/..", "///", "./", "a/b/./"] {
        let expected = std::path::Path::new(path).parent().map(|p| p.to_str().unwrap().to_string());
        assert_eq!(expected, paths::parent_of(path), "{:?}", path);
    }
}

#[test]
fn canonical_paths_are_made_of_names() {
    let mut fs = TestFilesystem::new();
    fs.add_directory("/a/b");
    fs.symlink("b/..", "/a/up").unwrap();
    assert_eq!(Ok("/a/b".to_string()), readlink::canonicalize("up//./b/", "/a", &mut fs));
    assert_eq!(Ok("/".to_string()), readlink::canonicalize("//", "/a", &mut fs));
    assert_eq!(Ok("/a".to_string()), readlink::canonicalize("", "/a", &mut fs));
}

#[test]
fn steps_are_followed_as_given() {
    let mut fs = TestFilesystem::new();
    fs.add_directory("/a/b");
    let mut resolved = words(&["a"]);
    let steps = vec![
        Step::Current,
        Step::Name("b".to_string()),
        Step::Parent,
        Step::Parent,
        Step::Parent,
        Step::Name("a".to_string()),
    ];
    assert!(readlink::follow_steps(&steps, &mut resolved, &mut fs, "p", 0).is_ok());
    assert_eq!(words(&["a"]), resolved);
    let missing = vec![Step::AppDefined, Step::Name("none".to_string())];
    assert_eq!(
        Err("p: No such file or directory".to_string()),
        readlink::follow_steps(&missing, &mut resolved, &mut fs, "p", 0)
    );
    let root = vec![Step::Root];
    assert!(readlink::follow_steps(&root, &mut resolved, &mut fs, "p", 0).is_ok());
    assert!(resolved.is_empty());
}

#[test]
fn canonical_paths_stay_as_they_are() {
    let mut fs = TestFilesystem::new();
    fs.add_directory("/a/b");
    fs.symlink("b", "/a/l").unwrap();
    for path in ["l/../../a/./l", "/", "/a/b/.."] {
        let p = readlink::canonicalize(path, "/a", &mut fs).unwrap();
        assert_eq!(p, readlink::canonicalize(&p, "/a/b", &mut fs).unwrap());
    }
}

#[test]
fn links_in_a_circle_are_refused() {
    let mut fs = TestFilesystem::new();
    fs.symlink("/b", "/a").unwrap();
    fs.symlink("/a", "/b").unwrap();
    assert_eq!(
        Err("/a: Too many levels of symbolic links".to_string()),
        readlink::canonicalize("/a", "/", &mut fs)
    );
}

// Links, directories, removal

#[test]
fn a_link_does_not_overwrite() {
    let mut env = make_test_env(vec!["ln", "-s", "/x", "/f"]);
    env.fs.add_file("/f", "kept");
    assert_eq!(1, ln::bin(&mut env).unwrap().code());
    assert_eq!("ln: /f: File exists\n", env.stderr.into_string());
    assert_eq!("kept", env.fs.read_to_string("/f").unwrap());
}

#[test]
fn no_directory_makes_way_for_a_hard_link() {
    let mut env = make_test_env(vec!["ln", "-F", "-f", "/f", "/d/g"]);
    env.fs.add_file("/f", "x");
    env.fs.add_directory("/d/g/f");
    assert_eq!(1, ln::bin(&mut env).unwrap().code());
    assert!(env.fs.is_dir("/d/g/f"));
}

#[test]
fn missing_directories_are_made_from_the_top() {
    let mut env = make_test_env(vec!["mkdir", "-p", "-v", "/a/b/c"]);
    assert_eq!(0, mkdir::bin(&mut env).unwrap().code());
    assert_eq!("/a\n/a/b\n/a/b/c\n", env.stdout.into_string());
}

#[test]
fn directories_are_made_once() {
    let mut env = make_test_env(vec!["mkdir", "-p", "-v", "/a/b/c"]);
    assert_eq!(0, mkdir::bin(&mut env).unwrap().code());
    for path in ["/a", "/a/b", "/a/b/c"] {
        assert!(env.fs.is_dir(path));
    }
    let first = env.stdout.into_string();
    assert_eq!(0, mkdir::bin(&mut env).unwrap().code());
    assert_eq!(first, env.stdout.into_string());
}

#[test]
fn mkdir_accepts_and_refuses_what_is_there() {
    let mut env = make_test_env(vec!["mkdir", "-p", "/a"]);
    env.fs.add_directory("/a");
    assert_eq!(0, mkdir::bin(&mut env).unwrap().code());
    let mut env = make_test_env(vec!["mkdir", "/a"]);
    env.fs.add_directory("/a");
    assert_eq!(1, mkdir::bin(&mut env).unwrap().code());
    assert_eq!("mkdir: /a: File exists\n", env.stderr.into_string());
}

#[test]
fn one_temporary_file_per_template() {
    let mut env = make_test_env(vec!["mktemp", "-t", "p", "/a.XXX", "/b.XXX"]);
    env.fs.add_directory("/tmp");
    assert_eq!(0, mktemp::bin(&mut env).unwrap().code());
    assert_eq!(3, env.stdout.into_string().lines().count());
}

#[test]
fn mktemp_tells_why_and_keeps_quiet() {
    let mut env = make_test_env(vec!["mktemp", "/none/a.XXX"]);
    assert_eq!(1, mktemp::bin(&mut env).unwrap().code());
    assert!(env.stderr.into_string().starts_with("mktemp: mkstemp failed on /none/a.XXX: Io("));
    let mut env = make_test_env(vec!["mktemp", "-q", "/none/a.XXX"]);
    assert_eq!(1, mktemp::bin(&mut env).unwrap().code());
    assert_eq!("", env.stderr.into_string());
}

#[test]
fn what_a_directory_holds_goes_first() {
    let mut env = make_test_env(vec!["rm", "-r", "-v", "/d"]);
    env.fs.add_file("/d/a/x", "");
    env.fs.add_file("/d/y", "");
    assert_eq!(0, rm::bin(&mut env).unwrap().code());
    assert_eq!("/d/a/x\n/d/y\n/d/a\n/d\n", env.stdout.into_string());
}

#[test]
fn rm_protects_and_forgives() {
    let mut env = make_test_env(vec!["rm", "-rf", "/", "a/..", "/none"]);
    assert_eq!(1, rm::bin(&mut env).unwrap().code());
    assert_eq!(
        "rm: \"/\" may not be removed\nrm: \".\" and \"..\" may not be removed\n",
        env.stderr.into_string()
    );
    let mut env = make_test_env(vec!["rm", "/d"]);
    env.fs.add_directory("/d");
    assert_eq!(1, rm::bin(&mut env).unwrap().code());
    assert_eq!("rm: /d: is a directory\n", env.stderr.into_string());
    assert!(env.fs.is_dir("/d"));
}

#[test]
fn rm_sees_the_last_component_before_slashes() {
    for path in [".", "..", "./", "..//", "a/./", "a/.."] {
        assert!(rm::is_dot_or_dotdot(path));
    }
    for path in ["a", "a/", "/", ".a", "..."] {
        assert!(!rm::is_dot_or_dotdot(path));
    }
}

#[test]
fn rmdir_stops_at_the_first_failure() {
    let mut env = make_test_env(vec!["rmdir", "-p", "/a/b/c"]);
    env.fs.add_directory("/a/b/c");
    env.fs.add_file("/a/x", "");
    assert_eq!(1, rmdir::bin(&mut env).unwrap().code());
    assert_eq!("rmdir: /a: Directory not empty\n", env.stderr.into_string());
    assert!(!env.fs.path_exists("/a/b"));
}

// Commands by name

#[test]
fn every_command_is_found_by_name_and_path() {
    for entry in builtin_commands() {
        assert_eq!(entry.builtin, lookup_bin(entry.name).unwrap());
        assert_eq!(entry.builtin, lookup_bin(entry.path).unwrap());
    }
}

#[test]
fn a_command_that_is_not_at_hand_is_unknown() {
    let mut env = make_test_env(vec![]);
    assert!(matches!(run("uname", &mut env), Err(Error::UnknownBinary(name)) if name == "uname"));
}

// Command lines

#[test]
fn plain_words_are_one_command() {
    let chain = parse_command_chain(&words(&["echo", "a", "b"])).unwrap();
    assert_eq!(1, chain.len());
    assert_eq!(vec![words(&["echo", "a", "b"])], chain[0].pipeline.commands);
    assert!(chain[0].pipeline.redirect_stdout.is_none());
    assert!(chain[0].pipeline.redirect_stderr.is_none());
}

#[test]
fn operators_part_pipelines() {
    let chain = parse_command_chain(&words(&["&&", "a", "|", "|", "b", "||", ";", "c", ";"])).unwrap();
    assert_eq!(2, chain.len());
    assert_eq!(vec![words(&["a"]), words(&["b"])], chain[0].pipeline.commands);
    assert_eq!(Some(ChainOp::Or), chain[0].next_op);
    assert_eq!(Some(ChainOp::Always), chain[1].next_op);
}

#[test]
fn redirections_need_a_file() {
    for (operator, message) in [
        (">", "syntax error: no file after >"),
        (">>", "syntax error: no file after >>"),
        ("2>", "syntax error: no file after 2>"),
        ("2>>", "syntax error: no file after 2>>"),
    ] {
        match parse_command_chain(&words(&["a", operator])) {
            Err(Error::Io(e)) => {
                assert_eq!(ErrorKind::InvalidInput, e.kind);
                assert_eq!(message, e.message);
            }
            _ => panic!("no error for {}", operator),
        }
    }
}

#[test]
fn assignments_are_taken_apart() {
    assert_eq!(Some(("A_1".to_string(), "x=y".to_string())), parse_assignment("A_1=x=y"));
    assert_eq!(None, parse_assignment("1A=x"));
    assert_eq!(None, parse_assignment("=x"));
    assert_eq!(None, parse_assignment("A"));
    assert!(!is_valid_var_name(""));
    assert!(is_valid_var_name("_"));
    assert!(!is_valid_var_name("a-b"));
}

#[test]
fn words_run_without_quoting() {
    let mut env = make_test_env(vec![]);
    let r = sh::run_words(&words(&["echo", "$HOME", "'q'"]), &mut env, &HOST).unwrap();
    assert_eq!(0, r.code());
    assert_eq!("$HOME 'q'\n", env.stdout.into_string());
    assert!(matches!(sh::run_words(&words(&[""]), &mut env, &HOST), Err(Error::EmptyCommand)));
}

#[test]
fn quotes_and_variables_are_replaced() {
    let mut env = make_test_env(vec![]);
    env.vars.insert("A", "x y");
    run("echo \"$A\" '$A' ${B:-none}", &mut env).unwrap();
    assert_eq!("x y $A none\n", env.stdout.into_string());
}

#[test]
fn open_quotes_are_an_error() {
    let mut env = make_test_env(vec![]);
    assert!(matches!(run("echo 'a", &mut env), Err(Error::Expansion(_))));
    assert!(matches!(run("", &mut env), Err(Error::EmptyCommand)));
}

#[test]
fn assignments_stand_in_the_order_given() {
    let mut env = make_test_env(vec![]);
    env.vars.insert("A", "old");
    assert_eq!(0, run("A=new B=$A A=newer", &mut env).unwrap().code());
    assert_eq!(Some("newer".to_string()), env.vars.get("A"));
    assert_eq!(Some("newer".to_string()), env.vars.get("B"));
}

// The shell

#[test]
fn set_export_and_unset_move_variables() {
    let mut env = make_test_env(vec![]);
    sh::handle_set(&words(&["set", "A=1", "B=2"]), &mut env);
    assert_eq!(Some("1".to_string()), env.vars.get("A"));
    sh::handle_export(&words(&["export", "A", "C=3"]), &mut env);
    assert_eq!(None, env.vars.get("A"));
    assert_eq!(Some("1".to_string()), env.env.get("A"));
    assert_eq!(Some("3".to_string()), env.env.get("C"));
    sh::handle_unset(&words(&["unset", "A", "B"]), &mut env);
    assert_eq!(None, env.env.get("A"));
    assert_eq!(None, env.vars.get("B"));
    assert_eq!(1, sh::handle_set(&words(&["set", "D"]), &mut env).code());
    assert_eq!("set: D: not in NAME=VALUE format\n", env.stderr.into_string());
}

#[test]
fn cd_needs_a_home() {
    let mut env = make_test_env(vec![]);
    assert_eq!(1, sh::handle_cd(&words(&["cd"]), &mut env).code());
    assert_eq!("cd: HOME not set\n", env.stderr.into_string());
}

#[test]
fn a_shell_inside_leaves_the_outer_one_alone() {
    let mut env = make_test_env(vec![]);
    env.fs.add_directory("/d");
    run("sh -c 'set A=1 ; cd /d ; export B=2 ; pwd'", &mut env).unwrap();
    assert_eq!("/d\n", env.stdout.into_string());
    assert_eq!(None, env.vars.get("A"));
    assert_eq!(None, env.env.get("B"));
    assert_eq!("/", env.cwd);
}

#[test]
fn the_status_is_kept() {
    let mut env = make_test_env(vec![]);
    run("false", &mut env).unwrap();
    run("echo $?", &mut env).unwrap();
    assert_eq!("1\n", env.stdout.into_string());
}

#[test]
fn chains_skip_and_go_on() {
    let mut env = make_test_env(vec![]);
    run("false && echo a || echo b ; echo c", &mut env).unwrap();
    assert_eq!("b\nc\n", env.stdout.into_string());
}

#[test]
fn a_script_goes_part_by_part() {
    let mut whole = make_test_env(vec![]);
    sh::run_string("set A=1\n# note\n\necho $A\nexit 3\necho never\n", &mut whole, &HOST).unwrap();
    let mut parts = make_test_env(vec![]);
    sh::run_string("set A=1\n# note\n", &mut parts, &HOST).unwrap();
    let last = sh::run_string("echo $A\nexit 3\necho never\n", &mut parts, &HOST).unwrap();
    assert_eq!(3, last.code());
    assert_eq!("1\n", whole.stdout.into_string());
    assert_eq!("1\n", parts.stdout.into_string());
    assert!(whole.is_exit_signaled());
}

#[test]
fn streams_go_where_they_are_sent() {
    let mut env = make_test_env(vec![]);
    env.fs.add_file("/f", "text\n");
    run("cat /f /none > /out 2>> /err", &mut env).unwrap();
    run("cat /none 2>> /err", &mut env).unwrap();
    assert_eq!("text\n", env.fs.read_to_string("/out").unwrap());
    assert_eq!(2, env.fs.read_to_string("/err").unwrap().lines().count());
    assert_eq!("", env.stdout.into_string());
    assert_eq!("", env.stderr.into_string());
}

#[test]
fn errors_at_the_end_of_a_pipe_are_redirected() {
    let mut env = make_test_env(vec![]);
    assert_eq!(1, run("echo x | cat /none 2> /err", &mut env).unwrap().code());
    assert!(env.fs.read_to_string("/err").unwrap().contains("/none"));
    assert_eq!("", env.stderr.into_string());
    run("echo x | cat - /none > /out 2>&1", &mut env).unwrap();
    let out = env.fs.read_to_string("/out").unwrap();
    assert!(out.starts_with("x\n") && out.contains("/none"));
    run("echo x | cat /none 2>&1", &mut env).unwrap();
    assert!(env.stdout.into_string().contains("/none"));
    assert_eq!("", env.stderr.into_string());
}

#[test]
fn errors_of_a_pipe_in_a_merged_shell_go_to_its_output() {
    let mut env = make_test_env(vec![]);
    run("sh -c 'cat /none | cat' 2>&1", &mut env).unwrap();
    assert!(env.stdout.into_string().contains("/none"));
    assert_eq!("", env.stderr.into_string());
}

#[test]
fn a_file_that_cannot_be_written_is_an_error() {
    let mut env = make_test_env(vec![]);
    assert!(matches!(run("echo a > /none/f", &mut env), Err(Error::Io(_))));
}

// Dialogues

#[test]
fn quoting_and_escaping() {
    assert_eq!("a b", markdownsp::extract_string("\"a b\""));
    assert_eq!("\"", markdownsp::extract_string("\""));
    assert_eq!("a\\\\\\\"\\n\\r\\t", markdownsp::escape_text("a\\\"\n\r\t"));
}

#[test]
fn markdown_files_are_listed_in_order() {
    let mut fs = TestFilesystem::new();
    for name in ["/d/z.md", "/d/a/y.MD", "/d/b.md", "/d/c.txt", "/e.md"] {
        fs.add_file(name, "");
    }
    assert_eq!(words(&["a/y.MD", "b.md", "z.md"]), markdownsp::list_markdown_files(&mut fs, "/d").unwrap());
    assert!(markdownsp::list_markdown_files(&mut fs, "/none").is_err());
}

#[test]
fn functions_on_files() {
    let mut fs = TestFilesystem::new();
    let args = words(&["f", "a\n"]);
    assert!(matches!(call(&mut fs, FileFunction::WriteFile, &args, "/"), Ok(Value::Atom(s)) if s == "t"));
    assert!(matches!(call(&mut fs, FileFunction::ReadFile, &args, "/"), Ok(Value::Atom(s)) if s == "\"a\\n\""));
    assert!(matches!(call(&mut fs, FileFunction::Load, &args, "/"), Ok(Value::Markdown(s)) if s == "a\n"));
    assert!(matches!(call(&mut fs, FileFunction::FileExists, &args, "/x"), Ok(Value::Atom(s)) if s == "nil"));
    let e = call(&mut fs, FileFunction::Save, &words(&["f"]), "/").unwrap_err();
    assert_eq!("missing-argument", e.code);
    assert_eq!("save requires filename and document arguments", e.message);
    let e = call(&mut fs, FileFunction::Load, &words(&["none"]), "/").unwrap_err();
    assert_eq!("io-error", e.code);
    assert!(e.message.starts_with("Failed to read none: Io("));
    assert_eq!("file-exists?", markdownsp::function_name(FileFunction::FileExists));
}

#[test]
fn a_dialogue_about_markdown() {
    let input = "\n:pwd\n:md f.md\n:show\n:what\n(x)\n:show f.md\n:quit\n(never)\n";
    let mut env = make_test_env_with_stdin(vec!["markdownsp"], input);
    env.fs.add_file("/f.md", "# T");
    let (mut session, action) = markdownsp::start(&mut env);
    assert!(matches!(action, Action::Evaluate(s) if s == "(x)"));
    let action = markdownsp::resume(&mut env, &mut session, Err("no".to_string()));
    assert!(matches!(action, Action::Show(s) if s == "# T"));
    let action = markdownsp::resume(&mut env, &mut session, Ok("(doc)".to_string()));
    assert!(matches!(action, Action::Finish(0)));
    let out = env.stdout.into_string();
    assert!(out.contains("λ> /\nλ> # T\n"));
    assert!(out.ends_with("(doc)\nλ> "));
    assert_eq!(
        "Usage: :show <filename>\nUnknown command: :what. Type :help for commands.\nError: no\n",
        env.stderr.into_string()
    );
}

#[test]
fn a_listing_that_fails_is_put_into_words() {
    let mut env = make_test_env_with_stdin(vec!["markdownsp", "-d", "/none"], ":ls\n:quit\n");
    let (mut session, action) = markdownsp::start(&mut env);
    assert!(matches!(action, Action::Describe(s) if s.starts_with("Io(")));
    let action = markdownsp::resume(&mut env, &mut session, Ok("no list".to_string()));
    assert!(matches!(action, Action::Finish(0)));
    assert_eq!("Error: no list\n", env.stderr.into_string());
}

#[test]
fn a_dialogue_about_the_filesystem() {
    let mut env = make_test_env_with_stdin(vec!["inspect-fs"], ":tree\n  (a b)  \n:fns\n:x\n");
    let action = inspect_fs::bin(&mut env);
    assert!(matches!(action, inspect_fs::Action::EvaluateCommand(s) if s == "(fs-tree)"));
    let action = inspect_fs::resume(&mut env, true, Reply::Unparsable("odd".to_string()));
    assert!(matches!(action, inspect_fs::Action::Evaluate(s) if s == "(a b)"));
    let action = inspect_fs::resume(&mut env, false, Reply::Unparsable("odd".to_string()));
    assert!(matches!(action, inspect_fs::Action::Finish(0)));
    assert_eq!("Parse error: odd\nUnknown command: :x\n", env.stderr.into_string());
}

#[test]
fn assignments_before_a_command_hold_for_it_alone() {
    let mut env = make_test_env(vec!["unused"]);
    env.fs.add_file("/s", "echo $FOO\n");
    env.vars.insert("FOO", "outer");
    run("FOO=bar sh /s", &mut env).unwrap();
    run("sh /s", &mut env).unwrap();
    run("sh /s | cat", &mut env).unwrap();
    assert_eq!(Some("outer".to_string()), env.vars.get("FOO"));
    assert_eq!("bar\nouter\nouter\n", env.stdout.into_string());
}

#[test]
fn assignments_before_a_command_of_the_shell_do_not_stay() {
    let mut env = make_test_env(vec!["unused"]);
    run("FOO=bar set X=$FOO", &mut env).unwrap();
    assert_eq!(Some("bar".to_string()), env.vars.get("X"));
    assert!(env.vars.get("FOO").is_none());
}

#[test]
fn commands_of_a_pipeline_are_looked_up_by_their_first_word() {
    let mut env = make_test_env(vec!["unused"]);
    for line in ["echo x | FOO=1", "echo x | FOO=1 cat"] {
        assert!(matches!(run(line, &mut env), Err(Error::UnknownBinary(s)) if s == "FOO=1"));
    }
    run("FOO=1 echo $FOO | cat", &mut env).unwrap();
    assert_eq!("1\n", env.stdout.into_string());
}

#[test]
fn links_are_named_after_what_they_lead_to() {
    let mut env = make_test_env(vec!["ln", "-s", "/a/b/", "/d"]);
    env.fs.add_directory("/a/b");
    env.fs.add_directory("/d");
    assert_eq!(0, ln::bin(&mut env).unwrap().code());
    assert_eq!("/a/b/", env.fs.readlink("/d/b").ok().unwrap());
}

#[test]
fn hard_links_go_to_what_a_symbolic_link_leads_to() {
    let mut env = make_test_env(vec!["ln", "/l", "/h"]);
    env.fs.add_file("/f", "x");
    env.fs.symlink("/f", "/l").ok().unwrap();
    assert_eq!(0, ln::bin(&mut env).unwrap().code());
    env.fs.write_string("/f", "y").ok().unwrap();
    assert_eq!("y", env.fs.read_to_string("/h").ok().unwrap());
    assert_eq!(FileType::RegularFile, env.fs.lstat("/h").ok().unwrap().file_type);
}

/// An evaluator that names the files it knows, and stores what it is told to.
struct Clerk;

impl Evaluator<TestFilesystem> for Clerk {
    fn answer(
        &self,
        fs: &mut TestFilesystem,
        dir: &str,
        action: &Action,
    ) -> Result<String, String> {
        match action {
            Action::Evaluate(s) if s == "(bad)" => Err("no such function".to_string()),
            Action::Evaluate(s) => {
                let args = words(&["made.md", s.as_str()]);
                match call(fs, FileFunction::WriteFile, &args, dir) {
                    Ok(_) => Ok(format!("<{}>", s)),
                    Err(e) => Err(e.message),
                }
            }
            Action::Show(text) => Ok(format!("(doc {:?})", text)),
            Action::Annotate(text) => Ok(format!("(annotated {:?})", text)),
            Action::Describe(reason) => Ok(reason.clone()),
            Action::Finish(_) => unreachable!(),
        }
    }
}

const CLERK: Host<fn(&str, u32) -> Option<i64>, Clerk> = Host { num, eval: Clerk };

#[test]
fn the_shell_runs_markdownsp() {
    let mut env = make_test_env(vec!["unused"]);
    assert_eq!(0, sh::run("markdownsp -h".to_string(), &mut env, &CLERK).unwrap().code());
    assert_eq!(1, sh::run("markdownsp -x".to_string(), &mut env, &CLERK).unwrap().code());
    assert_eq!(0, sh::run("markdownsp -e (x)".to_string(), &mut env, &CLERK).unwrap().code());
    assert_eq!(1, sh::run("markdownsp -e (bad)".to_string(), &mut env, &CLERK).unwrap().code());
    assert_eq!("<(x)>\n", env.stdout.into_string());
    let err = env.stderr.into_string();
    assert!(err.starts_with(markdownsp::USAGE));
    assert!(err.ends_with("markdownsp: no such function\n"));
    assert_eq!("(x)", env.fs.read_to_string("/made.md").ok().unwrap());
}

#[test]
fn documents_are_worked_on_in_pipelines() {
    let mut env = make_test_env(vec!["unused"]);
    env.fs.add_file("/in", ":pwd\n(y)\n(bad)\n:md made.md\n:show made.md\n:quit\n:pwd\n");
    let line = "cat /in | markdownsp | grep -v -e ^markdownsp > /out && echo done";
    assert_eq!(0, sh::run(line.to_string(), &mut env, &CLERK).unwrap().code());
    assert_eq!("done\n", env.stdout.into_string());
    assert_eq!("Error: no such function\n", env.stderr.into_string());
    let out = env.fs.read_to_string("/out").ok().unwrap();
    assert!(out.starts_with("Working directory: /\nType :help for commands, :quit to exit\n\n"));
    assert!(out.contains("λ> /\nλ> <(y)>\nλ> λ> (y)\nλ> (doc \"(y)\")\nλ> "));
}

#[test]
fn without_an_evaluator_expressions_are_refused() {
    let mut env = make_test_env(vec!["unused"]);
    assert_eq!(1, run("markdownsp -e (x)", &mut env).unwrap().code());
    assert_eq!("markdownsp: expressions are not evaluated\n", env.stderr.into_string());
    let mut env = make_test_env_with_stdin(vec!["unused"], ":ls\n(x)\n");
    assert_eq!(0, run("markdownsp -d /none", &mut env).unwrap().code());
    let err = env.stderr.into_string();
    assert!(err.starts_with("Error: Io("));
    assert!(err.ends_with("Error: expressions are not evaluated\n"));
}

#[test]
fn dialogues_are_told_from_other_lines() {
    let mut env = make_test_env(vec!["unused"]);
    env.vars.insert("M", "markdownsp");
    for (line, expected) in [
        ("markdownsp", true),
        ("A=1 /usr/bin/markdownsp -d /x", true),
        ("$M | cat", true),
        ("true && markdownsp > /out", true),
        ("cat f | markdownsp", false),
        ("echo markdownsp", false),
        ("A=1", false),
        ("markdownsp '", false),
    ] {
        assert_eq!(expected, sh::opens_dialogue(line, &env), "{}", line);
    }
}

#[test]
fn the_status_is_that_of_the_last_command() {
    let mut env = make_test_env(vec!["unused"]);
    for line in ["false", "echo $?", "echo $?", "sh -c 'exit 3'", "echo $?"] {
        run(line, &mut env).unwrap();
    }
    assert_eq!("1\n0\n3\n", env.stdout.into_string());
}

#[test]
fn display_changes_no_size() {
    let mut totals = Vec::new();
    for options in [vec!["-a"], vec!["-d", "0"], vec!["-s"], vec![], vec!["-a", "-d", "1"]] {
        let mut args = vec!["du", "-A", "-B", "1"];
        args.extend(options);
        args.push("/t");
        let mut env = make_test_env(args);
        env.fs.add_file("/t/x/a", "12345");
        env.fs.add_file("/t/b", "123");
        env.fs.link("/t/b", "/t/x/c").ok().unwrap();
        assert_eq!(0, du::bin(&mut env).unwrap().code());
        let out = env.stdout.into_string();
        totals.push(out.lines().last().unwrap().to_string());
    }
    assert!(totals.iter().all(|t| *t == totals[0]));
    assert!(totals[0].ends_with("\t/t"));
}

#[test]
fn names_ascend_until_there_are_no_more() {
    let mut g = split::FileNameGenerator::new("p".to_string(), 1, true, true);
    let names: Vec<String> = (0..10).map(|_| g.next_name().unwrap()).collect();
    assert_eq!("p0", names[0]);
    assert_eq!("p9", names[9]);
    assert!(names.windows(2).all(|w| w[0] < w[1]));
    assert!(g.next_name().is_none());
    assert!(g.next_name().is_none());
    let mut g = split::FileNameGenerator::new("p".to_string(), 1, false, true);
    let mut names: Vec<String> = (0..800).map(|_| g.next_name().unwrap()).collect();
    assert_eq!("paa", names[26]);
    names.sort();
    names.dedup();
    assert_eq!(800, names.len());
}

#[test]
fn missing_directories_are_made_from_the_outside() {
    let mut env = make_test_env(vec!["mkdir", "-p", "-v", "/a/b/c"]);
    env.fs.add_directory("/a");
    assert_eq!(0, mkdir::bin(&mut env).unwrap().code());
    assert_eq!("/a/b\n/a/b/c\n", env.stdout.into_string());
    env.stdout = StringStdioOut::new();
    assert_eq!(0, mkdir::bin(&mut env).unwrap().code());
    assert_eq!("", env.stdout.into_string());
    let mut env = make_test_env(vec!["mkdir", "-p", "-v", "/a/f/c/d"]);
    env.fs.add_file("/a/f", "");
    assert_eq!(1, mkdir::bin(&mut env).unwrap().code());
    assert_eq!("", env.stdout.into_string());
    assert!(!env.fs.path_exists("/a/f/c"));
}

#[test]
fn canonical_paths_hold_no_links() {
    let mut fs = TestFilesystem::new();
    fs.add_file("/a/b/f", "");
    fs.symlink("b", "/a/l").ok().unwrap();
    fs.symlink("/a/l/", "/m").ok().unwrap();
    let p = readlink::canonicalize("./m/../l//f", "/a/..", &mut fs).ok();
    assert_eq!(None, readlink::canonicalize("none", "/", &mut fs).ok());
    assert_eq!(Some("/a/b/f".to_string()), p);
    for prefix in ["/a", "/a/b", "/a/b/f"] {
        assert_ne!(FileType::Symlink, fs.lstat(prefix).ok().unwrap().file_type);
    }
    assert_eq!(p, readlink::canonicalize("/a/b/f", "/elsewhere", &mut fs).ok());
}
