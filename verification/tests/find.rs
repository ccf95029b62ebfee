//! find.
#![allow(dead_code)]
use std::cell::RefCell;
use std::rc::Rc;

use amla_sandbox_shell::commands::find::matches_glob;
use amla_sandbox_shell::commands::{
    builtins, echo, find, get_command, mkdir, sh, touch, Channel, CommandId, Printed, Report,
    Said, Start,
};
use amla_sandbox_shell::context::CmdContext;
use amla_sandbox_shell::env::Environment;
use amla_sandbox_shell::error::{IoError, VfsError};
use amla_sandbox_shell::fs::{DirEntry, Node, Snapshot};
use amla_sandbox_shell::io_handle::IoHandle;

/// What is printed, as text.
fn text_of(printed: Printed) -> Said {
    let out = String::from_utf8(printed.out).unwrap();
    Said { out, err: printed.err, code: printed.code }
}

/// A tree of directories and files.
struct Vfs {
    dirs: Vec<String>,
    files: Vec<(String, Vec<u8>)>,
}

#[derive(Clone, Copy)]
enum Permission {
    ReadWrite,
}

impl Vfs {
    fn new() -> Vfs {
        Vfs { dirs: vec!["/".to_string(), "/workspace".to_string()], files: Vec::new() }
    }

    fn is_dir(&self, path: &str) -> bool {
        self.dirs.iter().any(|d| d == path)
    }

    fn has(&self, path: &str) -> bool {
        self.is_dir(path) || self.files.iter().any(|(f, _)| f == path)
    }

    fn create_dir(&mut self, path: &str, _p: Permission) -> Result<(), VfsError> {
        if self.has(path) {
            return Err(VfsError::AlreadyExists(path.to_string()));
        }
        self.dirs.push(path.to_string());
        Ok(())
    }

    fn create_dir_all(&mut self, path: &str, p: Permission) -> Result<(), VfsError> {
        let mut at = String::new();
        for part in path.split('/').filter(|s| !s.is_empty()) {
            at = format!("{at}/{part}");
            if !self.is_dir(&at) {
                self.create_dir(&at, p)?;
            }
        }
        Ok(())
    }

    fn write_file(&mut self, path: &str, data: &[u8], _p: Permission) -> Result<(), VfsError> {
        let parent = match path.rfind('/') {
            Some(0) | None => "/",
            Some(i) => &path[..i],
        };
        if !self.is_dir(parent) {
            return Err(VfsError::NotFound(parent.to_string()));
        }
        self.files.retain(|(f, _)| f != path);
        self.files.push((path.to_string(), data.to_vec()));
        Ok(())
    }

    fn read_file(&self, path: &str) -> Result<Vec<u8>, VfsError> {
        match self.files.iter().find(|(f, _)| f == path) {
            Some((_, data)) => Ok(data.clone()),
            None => Err(VfsError::NotFound(path.to_string())),
        }
    }

    fn children(&self, dir: &str) -> Vec<DirEntry> {
        let prefix = if dir == "/" { "/".to_string() } else { format!("{dir}/") };
        let mut entries: Vec<(String, bool)> = Vec::new();
        let dirs = self.dirs.iter().map(|d| (d, true));
        let files = self.files.iter().map(|(f, _)| (f, false));
        for (path, is_dir) in dirs.chain(files) {
            if let Some(name) = path.strip_prefix(&prefix) {
                if !name.is_empty() && !name.contains('/') {
                    entries.push((name.to_string(), is_dir));
                }
            }
        }
        entries.sort();
        entries.into_iter().map(|(name, is_dir)| DirEntry { name, is_dir }).collect()
    }

    fn snapshot(&self) -> Snapshot {
        let mut s = Snapshot::new();
        for d in &self.dirs {
            s.nodes.push((d.clone(), Node::Dir(self.children(d))));
        }
        for (f, data) in &self.files {
            s.nodes.push((f.clone(), Node::File(Some(data.len() as u64))));
        }
        s
    }
}

/// What a command writes to a stream.
#[derive(Clone)]
struct Out(Rc<RefCell<Vec<u8>>>);

impl Out {
    fn new() -> Out {
        Out(Rc::new(RefCell::new(Vec::new())))
    }

    fn write(&self, text: &str) {
        self.0.borrow_mut().extend_from_slice(text.as_bytes());
    }

    fn get_buffer(&self) -> Option<Vec<u8>> {
        Some(self.0.borrow().clone())
    }
}

fn context(argv: &[String], cwd: &str, env: &Environment, fs: Snapshot) -> CmdContext {
    CmdContext::new(
        argv.to_vec(),
        IoHandle::null(),
        IoHandle::buffer(),
        IoHandle::buffer(),
        cwd.to_string(),
        env.duplicate(),
        fs,
    )
}

/// A shell that runs simple commands over a tree of files.
struct Shell {
    vfs: Rc<RefCell<Vfs>>,
    cwd: RefCell<String>,
    env: RefCell<Environment>,
    out: RefCell<Out>,
    err: Out,
}

/// The words of a command line. Text in single quotes is taken as it is, other words
/// are expanded.
fn words(line: &str, env: &Environment) -> Vec<String> {
    let mut all: Vec<String> = Vec::new();
    let mut rest = line.trim_start();
    while !rest.is_empty() {
        let mut word = String::new();
        while let Some(c) = rest.chars().next() {
            if c == ' ' {
                break;
            }
            if c == '\'' || c == '"' {
                let end = rest[1..].find(c).unwrap() + 1;
                if c == '"' {
                    word.push_str(&env.expand(&rest[1..end], 0));
                } else {
                    word.push_str(&rest[1..end]);
                }
                rest = &rest[end + 1..];
            } else {
                let end = rest.find(|c| c == ' ' || c == '\'' || c == '"').unwrap_or(rest.len());
                word.push_str(&env.expand(&rest[..end], 0));
                rest = &rest[end..];
            }
        }
        all.push(word);
        rest = rest.trim_start();
    }
    all
}

impl Shell {
    fn new() -> Shell {
        Shell {
            vfs: Rc::new(RefCell::new(Vfs::new())),
            cwd: RefCell::new("/workspace".to_string()),
            env: RefCell::new(Environment::new()),
            out: RefCell::new(Out::new()),
            err: Out::new(),
        }
    }

    fn vfs_mut(&self) -> std::cell::RefMut<'_, Vfs> {
        self.vfs.borrow_mut()
    }

    fn env_mut(&self) -> std::cell::RefMut<'_, Environment> {
        self.env.borrow_mut()
    }

    fn context(&self, argv: &[String]) -> CmdContext {
        context(argv, &self.cwd.borrow(), &self.env.borrow(), self.vfs.borrow().snapshot())
    }

    fn execute(&self, line: &str) -> i32 {
        let mut argv = words(line, &self.env.borrow());
        let mut target = None;
        if let Some(at) = argv.iter().position(|w| w == ">") {
            target = Some(self.context(&argv).resolve_path(&argv[at + 1]));
            argv.truncate(at);
        }
        let ctx = self.context(&argv);
        let said = match get_command(&argv[0]).unwrap() {
            CommandId::Echo => text_of(echo::run(&argv)),
            CommandId::True => builtins::cmd_true(&ctx).said,
            CommandId::False => builtins::cmd_false(&ctx).said,
            CommandId::Exit => builtins::exit(&ctx).said,
            CommandId::Find => said_of(find::run(&ctx)),
            CommandId::Cd => {
                let exit = builtins::cd(&ctx);
                if let Some(dir) = exit.effects.cwd {
                    *self.cwd.borrow_mut() = dir;
                }
                exit.said
            }
            CommandId::Mkdir => self.mkdir(&argv),
            CommandId::Touch => self.touch(&argv),
            CommandId::Sh => self.sh(&argv),
            other => panic!("{other:?}"),
        };
        match target {
            Some(path) => self
                .vfs
                .borrow_mut()
                .write_file(&path, said.out.as_bytes(), Permission::ReadWrite)
                .unwrap(),
            None => self.out.borrow().write(&said.out),
        }
        self.err.write(&said.err);
        said.code
    }

    fn mkdir(&self, argv: &Vec<String>) -> Said {
        let mut m = match mkdir::run(argv) {
            Start::Done(said) => return said,
            Start::Go(m) => m,
        };
        let mut all = Said { out: String::new(), err: String::new(), code: 0 };
        for i in 0..m.dirs.len() {
            let name = m.dirs.at(i).to_string();
            let path = self.context(argv).resolve_path(&name);
            let mut vfs = self.vfs.borrow_mut();
            let made = if m.parents {
                vfs.create_dir_all(&path, Permission::ReadWrite)
            } else {
                vfs.create_dir(&path, Permission::ReadWrite)
            };
            let said = m.made(&name, made.map_err(|e| IoError::Vfs(e, path.clone())));
            all.out.push_str(&said.out);
            all.err.push_str(&said.err);
        }
        all.code = m.code;
        all
    }

    fn touch(&self, argv: &Vec<String>) -> Said {
        let mut t = match touch::run(argv) {
            Start::Done(said) => return said,
            Start::Go(t) => t,
        };
        let mut all = Said { out: String::new(), err: String::new(), code: 0 };
        for i in 0..t.files.len() {
            let name = t.files.at(i).to_string();
            let ctx = self.context(argv);
            if t.creates(&ctx, &name) {
                let path = ctx.resolve_path(&name);
                let written = self.vfs.borrow_mut().write_file(&path, b"", Permission::ReadWrite);
                if let Err(e) = written {
                    all.err.push_str(&t.not_created(&name, &IoError::Vfs(e, path)).err);
                }
            }
        }
        all.code = t.code;
        all
    }

    fn sh(&self, argv: &Vec<String>) -> Said {
        let sh = match sh::run(argv) {
            Start::Done(said) => return said,
            Start::Go(sh) => sh,
        };
        let script = match sh.script {
            sh::Script::Text(s) => s,
            sh::Script::File(f) => {
                let path = self.context(argv).resolve_path(&f);
                let bytes = self.vfs.borrow().read_file(&path).unwrap();
                match sh::script_text(bytes, Some(&f)) {
                    Ok(s) => s,
                    Err(said) => return said,
                }
            }
            sh::Script::Stdin => String::new(),
        };
        let child = Shell {
            vfs: self.vfs.clone(),
            cwd: RefCell::new(self.cwd.borrow().clone()),
            env: RefCell::new(sh::child_env(&self.context(argv), &sh.positional)),
            out: RefCell::new(self.out.borrow().clone()),
            err: self.err.clone(),
        };
        let mut run = sh::Run::new(&script);
        while let Some(line) = run.next() {
            let code = child.execute(line);
            run.executed(code);
        }
        Said { out: String::new(), err: String::new(), code: run.code }
    }
}

/// A find command and its stream.
struct Ctx {
    inner: CmdContext,
    out: Out,
}

fn make_ctx(argv: Vec<&str>, vfs: Rc<RefCell<Vfs>>) -> (Ctx, Out) {
    let out = Out::new();
    let argv: Vec<String> = argv.into_iter().map(String::from).collect();
    let inner = context(&argv, "/workspace", &Environment::new(), vfs.borrow().snapshot());
    (Ctx { inner, out: out.clone() }, out)
}

/// What goes to each stream.
fn said_of(report: Report) -> Said {
    let mut said = Said { out: String::new(), err: String::new(), code: report.code };
    for (channel, text) in report.texts {
        match channel {
            Channel::Stdout => said.out.push_str(&text),
            Channel::Stderr => said.err.push_str(&text),
        }
    }
    said
}

fn run(ctx: Ctx) -> Said {
    assert!(ctx.inner.fs.is_well_named());
    let said = said_of(find::run(&ctx.inner));
    ctx.out.write(&said.out);
    said
}

fn shell_run(shell: &Shell, cmd: &str) -> i32 {
    shell.execute(cmd)
}

fn shell_output(shell: &mut Shell, cmd: &str) -> String {
    *shell.out.borrow_mut() = Out::new();
    shell_run(shell, cmd);
    let out = shell.out.borrow().get_buffer().unwrap_or_default();
    String::from_utf8(out).unwrap_or_default()
}

fn test_shell() -> Shell {
    Shell::new()
}

// Glob matching tests

#[test]
fn glob_exact_match() {
    assert!(matches_glob("hello", "hello"));
    assert!(!matches_glob("hello", "world"));
}

#[test]
fn glob_question_mark() {
    assert!(matches_glob("hello", "hell?"));
    assert!(matches_glob("hello", "h?llo"));
    assert!(matches_glob("hello", "?????"));
    assert!(!matches_glob("hello", "????"));
    assert!(!matches_glob("hello", "??????"));
}

#[test]
fn glob_asterisk() {
    assert!(matches_glob("hello", "*"));
    assert!(matches_glob("hello", "h*"));
    assert!(matches_glob("hello", "*o"));
    assert!(matches_glob("hello", "h*o"));
    assert!(matches_glob("hello", "*ello"));
    assert!(matches_glob("hello", "hell*"));
    assert!(matches_glob("hello.rs", "*.rs"));
    assert!(!matches_glob("hello.txt", "*.rs"));
}

#[test]
fn glob_combined() {
    assert!(matches_glob("test_file.rs", "test_*.rs"));
    assert!(matches_glob("test_file.rs", "*_*.rs"));
    assert!(matches_glob("a.b.c", "*.*.c"));
    assert!(!matches_glob("a.b.c", "*.*.d"));
}

#[test]
fn glob_empty() {
    assert!(matches_glob("", ""));
    assert!(matches_glob("", "*"));
    assert!(!matches_glob("hello", ""));
    assert!(!matches_glob("", "?"));
}

#[test]
fn glob_multiple_asterisks() {
    assert!(matches_glob("foo_bar_baz", "*_*_*"));
    assert!(matches_glob("abcd", "**"));
    assert!(matches_glob("abcd", "***"));
}

// The command

fn create_test_vfs() -> Rc<RefCell<Vfs>> {
    let vfs = Rc::new(RefCell::new(Vfs::new()));
    {
        let mut v = vfs.borrow_mut();
        v.create_dir("/workspace/src", Permission::ReadWrite)
            .unwrap();
        v.write_file(
            "/workspace/src/main.rs",
            b"fn main() {}",
            Permission::ReadWrite,
        )
        .unwrap();
        v.write_file(
            "/workspace/src/lib.rs",
            b"pub mod lib;",
            Permission::ReadWrite,
        )
        .unwrap();
        v.create_dir("/workspace/tests", Permission::ReadWrite)
            .unwrap();
        v.write_file(
            "/workspace/tests/test1.rs",
            b"#[test]",
            Permission::ReadWrite,
        )
        .unwrap();
        v.write_file("/workspace/README.md", b"# README", Permission::ReadWrite)
            .unwrap();
    }
    vfs
}

#[test]
fn find_help() {
    let vfs = create_test_vfs();
    let (ctx, stdout) = make_ctx(vec!["find", "--help"], vfs);

    let result = run(ctx);

    assert_eq!(result.code, 0);

    let output = String::from_utf8(stdout.get_buffer().unwrap()).unwrap();
    assert!(output.contains("find - search for files"));
}

#[test]
fn find_default_cwd() {
    let vfs = create_test_vfs();
    let (ctx, stdout) = make_ctx(vec!["find"], vfs);

    let result = run(ctx);

    assert_eq!(result.code, 0);

    let output = String::from_utf8(stdout.get_buffer().unwrap()).unwrap();
    assert!(output.contains('.'), "should contain current dir");
}

#[test]
fn find_name_pattern() {
    let vfs = create_test_vfs();
    let (ctx, stdout) = make_ctx(vec!["find", ".", "-name", "*.rs"], vfs);

    let result = run(ctx);

    assert_eq!(result.code, 0);

    let output = String::from_utf8(stdout.get_buffer().unwrap()).unwrap();
    assert!(output.contains("main.rs"));
    assert!(output.contains("lib.rs"));
    assert!(output.contains("test1.rs"));
    assert!(!output.contains("README.md"));
}

#[test]
fn find_type_file() {
    let vfs = create_test_vfs();
    let (ctx, stdout) = make_ctx(vec!["find", ".", "-type", "f"], vfs);

    let result = run(ctx);

    assert_eq!(result.code, 0);

    let output = String::from_utf8(stdout.get_buffer().unwrap()).unwrap();
    assert!(output.contains("main.rs"));
    assert!(output.contains("README.md"));
    // Should not contain directories
    assert!(!output.lines().any(|l| l.ends_with("/src") || l == "./src"));
}

#[test]
fn find_type_dir() {
    let vfs = create_test_vfs();
    let (ctx, stdout) = make_ctx(vec!["find", ".", "-type", "d"], vfs);

    let result = run(ctx);

    assert_eq!(result.code, 0);

    let output = String::from_utf8(stdout.get_buffer().unwrap()).unwrap();
    assert!(output.contains("src") || output.contains("tests"));
    // Should not contain files
    assert!(!output.contains("main.rs"));
    assert!(!output.contains("README.md"));
}

#[test]
fn find_maxdepth() {
    let vfs = create_test_vfs();
    let (ctx, stdout) = make_ctx(vec!["find", ".", "--maxdepth", "1"], vfs);

    let result = run(ctx);

    assert_eq!(result.code, 0);

    let output = String::from_utf8(stdout.get_buffer().unwrap()).unwrap();
    // Should include . and immediate children
    assert!(output.contains('.'));
    // Should NOT include files inside subdirectories
    assert!(!output.contains("main.rs"));
}

#[test]
fn find_combined_filters() {
    let vfs = create_test_vfs();
    let (ctx, stdout) = make_ctx(
        vec!["find", ".", "-name", "*.rs", "-type", "f"],
        vfs);

    let result = run(ctx);

    assert_eq!(result.code, 0);

    let output = String::from_utf8(stdout.get_buffer().unwrap()).unwrap();
    assert!(output.contains("main.rs"));
    assert!(output.contains("lib.rs"));
    // Should not include directories or non-.rs files
    assert!(!output.contains("README.md"));
}

#[test]
fn find_nonexistent_path() {
    let vfs = create_test_vfs();
    let (ctx, _stdout) = make_ctx(vec!["find", "/nonexistent"], vfs);

    let result = run(ctx);

    // Should still succeed (just print error message)
    assert_eq!(result.code, 0);
}

// Comprehensive integration tests using Shell

#[test]
fn find_deep_hierarchy_created_by_shell() {
    let mut shell = test_shell();

    // Create a deep directory hierarchy using shell commands
    shell_run(&shell, "mkdir -p /workspace/project/src/core/utils");
    shell_run(&shell, "mkdir -p /workspace/project/src/api/handlers");
    shell_run(&shell, "mkdir -p /workspace/project/tests/unit");
    shell_run(&shell, "mkdir -p /workspace/project/tests/integration");
    shell_run(&shell, "mkdir -p /workspace/project/docs/api");

    // Create files at various levels
    shell_run(
        &shell,
        "echo 'fn main() {}' > /workspace/project/src/main.rs",
    );
    shell_run(
        &shell,
        "echo 'pub mod core;' > /workspace/project/src/lib.rs",
    );
    shell_run(
        &shell,
        "echo 'pub fn util() {}' > /workspace/project/src/core/utils/helpers.rs",
    );
    shell_run(
        &shell,
        "echo 'pub fn api() {}' > /workspace/project/src/api/mod.rs",
    );
    shell_run(
        &shell,
        "echo 'pub fn handler() {}' > /workspace/project/src/api/handlers/user.rs",
    );
    shell_run(
        &shell,
        "echo '#[test]' > /workspace/project/tests/unit/test_core.rs",
    );
    shell_run(
        &shell,
        "echo '#[test]' > /workspace/project/tests/integration/test_api.rs",
    );
    shell_run(
        &shell,
        "echo '# API Docs' > /workspace/project/docs/api/README.md",
    );
    shell_run(&shell, "echo '# Project' > /workspace/project/README.md");
    shell_run(&shell, "echo 'version = 1' > /workspace/project/Cargo.toml");

    // Test: find all .rs files
    let output = shell_output(&mut shell, "find /workspace/project -name '*.rs'");
    assert!(output.contains("main.rs"), "should find main.rs");
    assert!(output.contains("lib.rs"), "should find lib.rs");
    assert!(output.contains("helpers.rs"), "should find helpers.rs");
    assert!(output.contains("user.rs"), "should find user.rs");
    assert!(output.contains("test_core.rs"), "should find test_core.rs");
    assert!(output.contains("test_api.rs"), "should find test_api.rs");
    assert!(!output.contains("README.md"), "should not find .md files");
    assert!(
        !output.contains("Cargo.toml"),
        "should not find .toml files"
    );

    // Test: find all directories
    let output = shell_output(&mut shell, "find /workspace/project -type d");
    assert!(output.contains("src"), "should find src dir");
    assert!(output.contains("core"), "should find core dir");
    assert!(output.contains("utils"), "should find utils dir");
    assert!(output.contains("api"), "should find api dir");
    assert!(output.contains("handlers"), "should find handlers dir");
    assert!(output.contains("tests"), "should find tests dir");
    assert!(output.contains("docs"), "should find docs dir");
    // Should not contain files
    assert!(!output.contains("main.rs"));
    assert!(!output.contains("README.md"));

    // Test: find only files (not directories)
    let output = shell_output(&mut shell, "find /workspace/project -type f");
    assert!(output.contains("main.rs"));
    assert!(output.contains("README.md"));
    assert!(output.contains("Cargo.toml"));
    // Count lines - should be exactly 10 files
    let file_count = output.lines().count();
    assert_eq!(file_count, 10, "should find exactly 10 files");
}

#[test]
fn find_with_maxdepth_on_deep_hierarchy() {
    let mut shell = test_shell();

    // Create a 5-level deep hierarchy
    shell_run(&shell, "mkdir -p /workspace/a/b/c/d/e");
    shell_run(&shell, "echo 'level0' > /workspace/file0.txt");
    shell_run(&shell, "echo 'level1' > /workspace/a/file1.txt");
    shell_run(&shell, "echo 'level2' > /workspace/a/b/file2.txt");
    shell_run(&shell, "echo 'level3' > /workspace/a/b/c/file3.txt");
    shell_run(&shell, "echo 'level4' > /workspace/a/b/c/d/file4.txt");
    shell_run(&shell, "echo 'level5' > /workspace/a/b/c/d/e/file5.txt");

    // maxdepth 0: only the starting point
    let output = shell_output(&mut shell, "find /workspace -maxdepth 0");
    assert!(output.contains("/workspace"));
    assert!(!output.contains("file0.txt"));
    assert!(!output.contains("/a"));

    // maxdepth 1: starting point + immediate children
    let output = shell_output(&mut shell, "find /workspace -maxdepth 1");
    assert!(output.contains("/workspace"));
    assert!(output.contains("file0.txt"));
    assert!(output.contains("/a") || output.contains("workspace/a"));
    assert!(!output.contains("file1.txt"));
    assert!(!output.contains("/b"));

    // maxdepth 2: up to 2 levels
    let output = shell_output(&mut shell, "find /workspace -maxdepth 2");
    assert!(output.contains("file0.txt"));
    assert!(output.contains("file1.txt"));
    assert!(!output.contains("file2.txt"));

    // maxdepth 3: up to 3 levels
    let output = shell_output(&mut shell, "find /workspace -maxdepth 3");
    assert!(output.contains("file2.txt"));
    assert!(!output.contains("file3.txt"));

    // No maxdepth: should find all
    let output = shell_output(&mut shell, "find /workspace -name '*.txt'");
    assert!(output.contains("file0.txt"));
    assert!(output.contains("file1.txt"));
    assert!(output.contains("file2.txt"));
    assert!(output.contains("file3.txt"));
    assert!(output.contains("file4.txt"));
    assert!(output.contains("file5.txt"));
}

#[test]
fn find_with_mindepth() {
    let mut shell = test_shell();

    shell_run(&shell, "mkdir -p /workspace/level1/level2/level3");
    shell_run(&shell, "echo 'root' > /workspace/root.txt");
    shell_run(&shell, "echo 'l1' > /workspace/level1/l1.txt");
    shell_run(&shell, "echo 'l2' > /workspace/level1/level2/l2.txt");
    shell_run(&shell, "echo 'l3' > /workspace/level1/level2/level3/l3.txt");

    // mindepth 2: include depth >= 2
    // depth 0 = /workspace, depth 1 = root.txt/level1, depth 2 = l1.txt/level2, etc.
    let output = shell_output(&mut shell, "find /workspace -mindepth 2 -name '*.txt'");
    assert!(
        !output.contains("root.txt"),
        "should skip root.txt (depth 1)"
    );
    assert!(output.contains("l1.txt"), "should include l1.txt (depth 2)");
    assert!(output.contains("l2.txt"), "should include l2.txt (depth 3)");
    assert!(output.contains("l3.txt"), "should include l3.txt (depth 4)");

    // mindepth 3: include depth >= 3
    let output = shell_output(&mut shell, "find /workspace -mindepth 3 -name '*.txt'");
    assert!(
        !output.contains("root.txt"),
        "should skip root.txt (depth 1)"
    );
    assert!(!output.contains("l1.txt"), "should skip l1.txt (depth 2)");
    assert!(output.contains("l2.txt"), "should include l2.txt (depth 3)");
    assert!(output.contains("l3.txt"), "should include l3.txt (depth 4)");
}

#[test]
fn find_name_patterns_various() {
    let mut shell = test_shell();

    shell_run(&shell, "mkdir -p /workspace/patterns");
    shell_run(&shell, "touch /workspace/patterns/test_one.rs");
    shell_run(&shell, "touch /workspace/patterns/test_two.rs");
    shell_run(&shell, "touch /workspace/patterns/test_three.rs");
    shell_run(&shell, "touch /workspace/patterns/main.rs");
    shell_run(&shell, "touch /workspace/patterns/lib.rs");
    shell_run(&shell, "touch /workspace/patterns/config.json");
    shell_run(&shell, "touch /workspace/patterns/config.yaml");
    shell_run(&shell, "touch /workspace/patterns/README.md");
    shell_run(&shell, "touch /workspace/patterns/CHANGELOG.md");
    shell_run(&shell, "touch /workspace/patterns/a.txt");
    shell_run(&shell, "touch /workspace/patterns/ab.txt");
    shell_run(&shell, "touch /workspace/patterns/abc.txt");

    // Pattern: test_*.rs
    let output = shell_output(&mut shell, "find /workspace/patterns -name 'test_*.rs'");
    assert!(output.contains("test_one.rs"));
    assert!(output.contains("test_two.rs"));
    assert!(output.contains("test_three.rs"));
    assert!(!output.contains("main.rs"));
    assert!(!output.contains("lib.rs"));

    // Pattern: *.md
    let output = shell_output(&mut shell, "find /workspace/patterns -name '*.md'");
    assert!(output.contains("README.md"));
    assert!(output.contains("CHANGELOG.md"));
    assert!(!output.contains(".rs"));
    assert!(!output.contains(".json"));

    // Pattern: config.*
    let output = shell_output(&mut shell, "find /workspace/patterns -name 'config.*'");
    assert!(output.contains("config.json"));
    assert!(output.contains("config.yaml"));
    assert!(!output.contains("README"));

    // Pattern: ?.txt (single char before .txt)
    let output = shell_output(&mut shell, "find /workspace/patterns -name '?.txt'");
    assert!(output.contains("a.txt"));
    assert!(!output.contains("ab.txt"));
    assert!(!output.contains("abc.txt"));

    // Pattern: ??.txt (two chars before .txt)
    let output = shell_output(&mut shell, "find /workspace/patterns -name '??.txt'");
    assert!(output.contains("ab.txt"));
    assert!(!output.contains("a.txt"));
    assert!(!output.contains("abc.txt"));

    // Pattern: *.*  (any file with extension)
    let output = shell_output(&mut shell, "find /workspace/patterns -name '*.*' -type f");
    let line_count = output.lines().count();
    assert_eq!(line_count, 12, "should find all 12 files with extensions");
}

#[test]
fn find_combined_type_and_name_on_mixed_content() {
    let mut shell = test_shell();

    // Create directories and files with overlapping names
    shell_run(&shell, "mkdir -p /workspace/mixed/src.rs"); // dir named src.rs
    shell_run(&shell, "mkdir -p /workspace/mixed/config");
    shell_run(&shell, "echo 'file' > /workspace/mixed/src.rs/actual.rs"); // file inside dir named src.rs
    shell_run(&shell, "echo 'file' > /workspace/mixed/main.rs"); // regular file
    shell_run(&shell, "echo 'file' > /workspace/mixed/config/app.rs");

    // Find only FILES named *.rs
    let output = shell_output(&mut shell, "find /workspace/mixed -name '*.rs' -type f");
    assert!(output.contains("main.rs"), "should find main.rs file");
    assert!(output.contains("actual.rs"), "should find actual.rs file");
    assert!(output.contains("app.rs"), "should find app.rs file");
    // The directory src.rs should NOT be in this output
    let lines: Vec<&str> = output.lines().collect();
    assert!(
        !lines
            .iter()
            .any(|l| l.ends_with("/src.rs") && !l.contains("actual")),
        "should not include src.rs directory, output: {output}"
    );

    // Find only DIRECTORIES named *.rs
    let output = shell_output(&mut shell, "find /workspace/mixed -name '*.rs' -type d");
    assert!(output.contains("src.rs"), "should find src.rs directory");
    assert!(!output.contains("main.rs"), "should not find main.rs");
    assert!(!output.contains("actual.rs"), "should not find actual.rs");
}

#[test]
fn find_from_subdirectory() {
    let mut shell = test_shell();

    shell_run(&shell, "mkdir -p /workspace/project/src/module");
    shell_run(&shell, "echo 'root' > /workspace/project/root.txt");
    shell_run(&shell, "echo 'src' > /workspace/project/src/src.txt");
    shell_run(&shell, "echo 'mod' > /workspace/project/src/module/mod.txt");

    // Find from project directory
    shell_run(&shell, "cd /workspace/project");
    let output = shell_output(&mut shell, "find . -name '*.txt'");
    assert!(output.contains("root.txt"));
    assert!(output.contains("src.txt"));
    assert!(output.contains("mod.txt"));

    // Find from src subdirectory
    shell_run(&shell, "cd /workspace/project/src");
    let output = shell_output(&mut shell, "find . -name '*.txt'");
    assert!(
        !output.contains("root.txt"),
        "should not find root.txt when starting from src"
    );
    assert!(output.contains("src.txt"));
    assert!(output.contains("mod.txt"));
}

#[test]
fn find_multiple_paths() {
    let mut shell = test_shell();

    shell_run(&shell, "mkdir -p /workspace/dir1/sub1");
    shell_run(&shell, "mkdir -p /workspace/dir2/sub2");
    shell_run(&shell, "echo 'a' > /workspace/dir1/a.txt");
    shell_run(&shell, "echo 'b' > /workspace/dir1/sub1/b.txt");
    shell_run(&shell, "echo 'c' > /workspace/dir2/c.txt");
    shell_run(&shell, "echo 'd' > /workspace/dir2/sub2/d.txt");

    // Find in multiple paths
    let output = shell_output(
        &mut shell,
        "find /workspace/dir1 /workspace/dir2 -name '*.txt'",
    );
    assert!(output.contains("a.txt"));
    assert!(output.contains("b.txt"));
    assert!(output.contains("c.txt"));
    assert!(output.contains("d.txt"));
}

#[test]
fn find_with_special_characters_in_names() {
    let mut shell = test_shell();

    shell_run(&shell, "mkdir -p /workspace/special");
    shell_run(&shell, "echo 'x' > /workspace/special/file-with-dash.txt");
    shell_run(
        &shell,
        "echo 'x' > /workspace/special/file_with_underscore.txt",
    );
    shell_run(
        &shell,
        "echo 'x' > /workspace/special/file.multiple.dots.txt",
    );
    shell_run(&shell, "echo 'x' > /workspace/special/UPPERCASE.TXT");
    shell_run(&shell, "echo 'x' > /workspace/special/MixedCase.Txt");

    // Find with dash
    let output = shell_output(&mut shell, "find /workspace/special -name '*-*'");
    assert!(output.contains("file-with-dash.txt"));

    // Find with underscore
    let output = shell_output(&mut shell, "find /workspace/special -name '*_*'");
    assert!(output.contains("file_with_underscore.txt"));

    // Find uppercase (exact match)
    let output = shell_output(&mut shell, "find /workspace/special -name 'UPPERCASE.TXT'");
    assert!(output.contains("UPPERCASE.TXT"));

    // Find with multiple dots
    let output = shell_output(&mut shell, "find /workspace/special -name '*.*.*.txt'");
    assert!(output.contains("file.multiple.dots.txt"));
}

#[test]
fn find_empty_directory() {
    let mut shell = test_shell();

    shell_run(&shell, "mkdir -p /workspace/empty_dir");

    // Find in empty directory
    let output = shell_output(&mut shell, "find /workspace/empty_dir");
    // Should just find the directory itself
    assert!(output.contains("empty_dir"));
    assert_eq!(
        output.lines().count(),
        1,
        "should only find the directory itself"
    );

    // Find files in empty directory
    let output = shell_output(&mut shell, "find /workspace/empty_dir -type f");
    assert!(output.trim().is_empty(), "should find no files");
}

#[test]
fn find_single_file() {
    let mut shell = test_shell();

    shell_run(&shell, "echo 'content' > /workspace/single.txt");

    // Find on a single file path
    let output = shell_output(&mut shell, "find /workspace/single.txt");
    assert!(output.contains("single.txt"));
    assert_eq!(output.lines().count(), 1);

    // Find with -type f on a file path
    let output = shell_output(&mut shell, "find /workspace/single.txt -type f");
    assert!(output.contains("single.txt"));

    // Find with -type d on a file path (should not match)
    let output = shell_output(&mut shell, "find /workspace/single.txt -type d");
    assert!(!output.contains("single.txt"));
}

#[test]
fn find_respects_hidden_files() {
    let mut shell = test_shell();

    shell_run(&shell, "mkdir -p /workspace/hidden");
    shell_run(&shell, "mkdir -p /workspace/hidden/.hidden_dir");
    shell_run(&shell, "echo 'visible' > /workspace/hidden/visible.txt");
    shell_run(&shell, "echo 'hidden' > /workspace/hidden/.hidden_file");
    shell_run(
        &shell,
        "echo 'in_hidden' > /workspace/hidden/.hidden_dir/file.txt",
    );

    // Find all - should include hidden files and directories
    let output = shell_output(&mut shell, "find /workspace/hidden");
    assert!(output.contains("visible.txt"));
    assert!(output.contains(".hidden_file"));
    assert!(output.contains(".hidden_dir"));
    assert!(output.contains("file.txt"));

    // Find with name pattern for hidden files
    let output = shell_output(&mut shell, "find /workspace/hidden -name '.*'");
    assert!(output.contains(".hidden_file"));
    assert!(output.contains(".hidden_dir"));
    assert!(!output.contains("visible.txt"));
}

#[test]
fn find_large_flat_directory() {
    let mut shell = test_shell();

    shell_run(&shell, "mkdir -p /workspace/flat");

    // Create 50 files
    for i in 0..50 {
        shell_run(&shell, &format!("touch /workspace/flat/file{i:03}.txt"));
    }

    // Find all txt files
    let output = shell_output(&mut shell, "find /workspace/flat -name '*.txt' -type f");
    let count = output.lines().count();
    assert_eq!(count, 50, "should find all 50 files");

    // Find specific patterns
    let output = shell_output(&mut shell, "find /workspace/flat -name 'file00?.txt'");
    let count = output.lines().count();
    assert_eq!(count, 10, "should find files 000-009");

    let output = shell_output(&mut shell, "find /workspace/flat -name 'file01?.txt'");
    let count = output.lines().count();
    assert_eq!(count, 10, "should find files 010-019");
}

#[test]
fn find_combined_maxdepth_and_mindepth() {
    let mut shell = test_shell();

    shell_run(&shell, "mkdir -p /workspace/depth/l1/l2/l3/l4");
    shell_run(&shell, "echo '0' > /workspace/depth/f0.txt");
    shell_run(&shell, "echo '1' > /workspace/depth/l1/f1.txt");
    shell_run(&shell, "echo '2' > /workspace/depth/l1/l2/f2.txt");
    shell_run(&shell, "echo '3' > /workspace/depth/l1/l2/l3/f3.txt");
    shell_run(&shell, "echo '4' > /workspace/depth/l1/l2/l3/l4/f4.txt");

    // File depths from starting path /workspace/depth:
    // f0.txt = depth 1, f1.txt = depth 2, f2.txt = depth 3, f3.txt = depth 4, f4.txt = depth 5
    // mindepth 2, maxdepth 3: should find f1.txt (d=2) and f2.txt (d=3) only
    let output = shell_output(
        &mut shell,
        "find /workspace/depth -mindepth 2 -maxdepth 3 -name '*.txt'",
    );
    assert!(
        !output.contains("f0.txt"),
        "should skip f0.txt (depth 1 < 2)"
    );
    assert!(output.contains("f1.txt"), "should include f1.txt (depth 2)");
    assert!(output.contains("f2.txt"), "should include f2.txt (depth 3)");
    assert!(
        !output.contains("f3.txt"),
        "should skip f3.txt (depth 4 > 3)"
    );
    assert!(
        !output.contains("f4.txt"),
        "should skip f4.txt (depth 5 > 3)"
    );
}

// Additional edge case tests for improved coverage

#[test]
fn glob_trailing_question_mark() {
    // Pattern ending with ?
    assert!(matches_glob("test1", "test?"));
    assert!(matches_glob("testa", "test?"));
    assert!(!matches_glob("test", "test?"));
    assert!(!matches_glob("test12", "test?"));
}

#[test]
fn glob_leading_asterisk() {
    // Pattern starting with *
    assert!(matches_glob("mytest", "*test"));
    assert!(matches_glob("test", "*test"));
    assert!(matches_glob("a_long_test", "*test"));
    assert!(!matches_glob("testing", "*test"));
}

#[test]
fn glob_only_wildcards() {
    // Patterns with only wildcards
    assert!(matches_glob("anything", "*"));
    assert!(matches_glob("x", "?"));
    assert!(matches_glob("ab", "??"));
    assert!(matches_glob("abc", "???"));
    assert!(matches_glob("abcd", "????"));
    assert!(matches_glob("", "*"));
    assert!(!matches_glob("", "?"));
    assert!(!matches_glob("a", "??"));
}

#[test]
fn glob_case_sensitivity() {
    // Glob matching should be case-sensitive
    assert!(matches_glob("Test.RS", "Test.RS"));
    assert!(!matches_glob("Test.RS", "test.rs"));
    assert!(!matches_glob("test.rs", "Test.RS"));
    assert!(matches_glob("Test.RS", "*.RS"));
    assert!(!matches_glob("Test.RS", "*.rs"));
}

#[test]
fn glob_adjacent_wildcards() {
    // Adjacent wildcards
    assert!(matches_glob("ab", "*?"));
    assert!(matches_glob("abc", "*?"));
    assert!(matches_glob("a", "*?"));
    assert!(!matches_glob("", "*?"));

    assert!(matches_glob("ab", "?*"));
    assert!(matches_glob("abc", "?*"));
    assert!(matches_glob("a", "?*"));
    assert!(!matches_glob("", "?*"));

    assert!(matches_glob("abc", "?*?"));
    assert!(matches_glob("ab", "?*?"));
    assert!(!matches_glob("a", "?*?"));
}

#[test]
fn find_unknown_options_silently_ignored() {
    let mut shell = test_shell();

    shell_run(&shell, "mkdir -p /workspace/opts");
    shell_run(&shell, "echo 'test' > /workspace/opts/file.txt");

    // Unknown options like -exec, -newer, -perm should be silently ignored
    let output = shell_output(
        &mut shell,
        "find /workspace/opts -unknown -option -name '*.txt'",
    );
    assert!(
        output.contains("file.txt"),
        "should still find files despite unknown options"
    );
}

#[test]
fn find_missing_option_argument() {
    let mut shell = test_shell();

    shell_run(&shell, "mkdir -p /workspace/missing");
    shell_run(&shell, "echo 'test' > /workspace/missing/file.txt");

    // -name at end without argument - should gracefully handle
    let output = shell_output(&mut shell, "find /workspace/missing -name");
    // Should still work (no name pattern set means match all)
    assert!(
        output.contains("file.txt") || output.contains("missing"),
        "should handle missing argument gracefully"
    );

    // -type at end without argument
    let output = shell_output(&mut shell, "find /workspace/missing -type");
    assert!(
        output.contains("missing"),
        "should handle missing type argument"
    );

    // -maxdepth at end without argument
    let output = shell_output(&mut shell, "find /workspace/missing -maxdepth");
    assert!(
        output.contains("missing"),
        "should handle missing maxdepth argument"
    );

    // -mindepth at end without argument
    let output = shell_output(&mut shell, "find /workspace/missing -mindepth");
    assert!(
        output.contains("missing"),
        "should handle missing mindepth argument"
    );
}

#[test]
fn find_invalid_type_value() {
    let mut shell = test_shell();

    shell_run(&shell, "mkdir -p /workspace/invalid");
    shell_run(&shell, "echo 'test' > /workspace/invalid/file.txt");

    // Invalid type value 'x' (not 'f' or 'd')
    // Unknown types are ignored (matches_criteria just doesn't filter)
    let output = shell_output(&mut shell, "find /workspace/invalid -type x");
    // Should find both files and directories since 'x' type is unrecognized
    assert!(output.contains("invalid"), "should find directory");
    assert!(output.contains("file.txt"), "should find file");
}

#[test]
fn find_invalid_depth_values() {
    let mut shell = test_shell();

    shell_run(&shell, "mkdir -p /workspace/badnum/sub");
    shell_run(&shell, "echo 'test' > /workspace/badnum/file.txt");
    shell_run(&shell, "echo 'test' > /workspace/badnum/sub/nested.txt");

    // Non-numeric maxdepth - should be ignored (parse returns None)
    let output = shell_output(&mut shell, "find /workspace/badnum -maxdepth abc");
    // Should find all files since maxdepth was invalid
    assert!(output.contains("file.txt"));
    assert!(output.contains("nested.txt"));

    // Non-numeric mindepth - should default to 0
    let output = shell_output(&mut shell, "find /workspace/badnum -mindepth xyz");
    assert!(output.contains("badnum"), "should find root (mindepth 0)");
    assert!(output.contains("file.txt"));
}

#[test]
fn find_root_path() {
    let mut shell = test_shell();

    // Create files under /workspace (default cwd) instead of root
    shell_run(&shell, "mkdir -p /workspace/testroot");
    shell_run(&shell, "echo 'data' > /workspace/testroot/data.txt");

    // Find from /workspace/testroot should work
    let output = shell_output(&mut shell, "find /workspace/testroot -name 'data.txt'");
    assert!(output.contains("data.txt"), "should find file: {output}");

    // Find directory with maxdepth 0
    let output = shell_output(&mut shell, "find /workspace/testroot -maxdepth 0");
    assert!(
        output.contains("testroot"),
        "should output start path: {output}"
    );
}

#[test]
fn find_double_dash_option_format() {
    let mut shell = test_shell();

    shell_run(&shell, "mkdir -p /workspace/dashes");
    shell_run(&shell, "echo 'x' > /workspace/dashes/test.rs");
    shell_run(&shell, "mkdir -p /workspace/dashes/subdir");
    shell_run(&shell, "echo 'y' > /workspace/dashes/subdir/deep.rs");

    // Test --name format
    let output = shell_output(&mut shell, "find /workspace/dashes --name '*.rs' --type f");
    assert!(output.contains("test.rs"));
    assert!(output.contains("deep.rs"));

    // Test -mindepth with single dash (already tested maxdepth with --)
    let output = shell_output(
        &mut shell,
        "find /workspace/dashes -mindepth 1 -name '*.rs'",
    );
    assert!(output.contains("test.rs"));
}

#[test]
fn find_print_option() {
    let mut shell = test_shell();

    shell_run(&shell, "mkdir -p /workspace/printtest");
    shell_run(&shell, "echo 'x' > /workspace/printtest/file.txt");

    // -print option should work (even though it's always the default action)
    let output = shell_output(&mut shell, "find /workspace/printtest -print");
    assert!(output.contains("printtest"));
    assert!(output.contains("file.txt"));

    // -print with other options
    let output = shell_output(&mut shell, "find /workspace/printtest -name '*.txt' -print");
    assert!(output.contains("file.txt"));
}

#[test]
fn find_path_without_slash() {
    // Test name extraction when display_path has no slash (edge case in matches_criteria)

    // Direct test of matches_glob with simple name
    assert!(matches_glob("file.txt", "*.txt"));
    assert!(matches_glob("file.txt", "file.*"));
    assert!(matches_glob("file.txt", "file.txt"));
}

#[test]
fn find_help_variants() {
    let vfs = create_test_vfs();

    // Test -h
    let (ctx, stdout) = make_ctx(vec!["find", "-h"], vfs.clone());
    let result = run(ctx);
    assert_eq!(result.code, 0);
    let output = String::from_utf8(stdout.get_buffer().unwrap()).unwrap();
    assert!(output.contains("find - search for files"));

    // Test -help
    let (ctx2, stdout2) = make_ctx(vec!["find", "-help"], vfs);
    let result2 = run(ctx2);
    assert_eq!(result2.code, 0);
    let output2 = String::from_utf8(stdout2.get_buffer().unwrap()).unwrap();
    assert!(output2.contains("find - search for files"));
}

#[test]
fn find_with_absolute_display_path() {
    let mut shell = test_shell();

    // Use a path under /workspace which is the default cwd
    shell_run(&shell, "mkdir -p /workspace/abspath/to/dir");
    shell_run(
        &shell,
        "echo 'content' > /workspace/abspath/to/dir/file.txt",
    );

    // When using absolute path, output should show absolute paths
    let output = shell_output(&mut shell, "find /workspace/abspath -name '*.txt'");
    assert!(
        output.contains("abspath/to/dir/file.txt"),
        "should show path containing file: {output}"
    );
}

#[test]
fn find_deeply_nested_with_name_and_type() {
    let mut shell = test_shell();

    // Create a complex nested structure
    shell_run(&shell, "mkdir -p /workspace/deep/a/b/c/d/e");
    shell_run(&shell, "mkdir -p /workspace/deep/x/y/z");
    shell_run(&shell, "echo '1' > /workspace/deep/a/b/c/d/e/target.txt");
    shell_run(&shell, "echo '2' > /workspace/deep/x/y/z/target.txt");
    shell_run(&shell, "mkdir /workspace/deep/x/y/target.txt"); // Directory with .txt name!

    // Find only files named target.txt
    let output = shell_output(
        &mut shell,
        "find /workspace/deep -name 'target.txt' -type f",
    );
    let lines: Vec<&str> = output.lines().collect();
    assert_eq!(
        lines.len(),
        2,
        "should find exactly 2 target.txt files, got: {lines:?}"
    );

    // Find only directories named target.txt
    let output = shell_output(
        &mut shell,
        "find /workspace/deep -name 'target.txt' -type d",
    );
    let lines: Vec<&str> = output.lines().collect();
    assert_eq!(
        lines.len(),
        1,
        "should find exactly 1 target.txt directory, got: {lines:?}"
    );
}

#[test]
fn find_glob_complex_patterns() {
    // Test more complex glob edge cases
    assert!(matches_glob("a", "a*"));
    assert!(matches_glob("ab", "a*"));
    assert!(matches_glob("abc", "a*c"));
    assert!(matches_glob("ac", "a*c"));
    assert!(matches_glob("abbc", "a*c"));

    // Multiple asterisks with literals between
    assert!(matches_glob("a_b_c", "a*b*c"));
    assert!(matches_glob("axbxc", "a*b*c"));
    assert!(matches_glob("aXXbYYc", "a*b*c"));
    // Note: "abc" DOES match "a*b*c" because * can match zero chars (a + "" + b + "" + c)
    assert!(matches_glob("abc", "a*b*c"));

    // Cases that should NOT match
    assert!(!matches_glob("axc", "a*b*c")); // missing 'b'
    assert!(!matches_glob("ab", "a*b*c")); // missing 'c'

    // Question marks with asterisks
    assert!(matches_glob("abc", "?*c"));
    assert!(matches_glob("xyzabc", "???*c"));
    assert!(!matches_glob("ab", "???*c"));
}

#[test]
fn find_symlinks_as_files() {
    // Note: The VFS may not support symlinks, but we test the behavior
    // If symlinks existed, they would likely be treated as files
    let mut shell = test_shell();

    shell_run(&shell, "mkdir -p /workspace/linktest");
    shell_run(&shell, "echo 'target' > /workspace/linktest/target.txt");

    // Just verify normal file operations work
    let output = shell_output(&mut shell, "find /workspace/linktest -type f");
    assert!(output.contains("target.txt"));
}

#[test]
fn find_maxdepth_zero() {
    let mut shell = test_shell();

    shell_run(&shell, "mkdir -p /workspace/zerodepth/sub");
    shell_run(&shell, "echo 'x' > /workspace/zerodepth/file.txt");

    // maxdepth 0 should only show the starting path itself
    let output = shell_output(&mut shell, "find /workspace/zerodepth -maxdepth 0");
    assert!(output.contains("zerodepth"), "should include starting path");
    assert!(!output.contains("file.txt"), "should not descend at all");
    assert!(!output.contains("/sub"), "should not show subdirectories");

    // Count lines - should be exactly 1
    let lines = output.lines().count();
    assert_eq!(lines, 1, "maxdepth 0 should output only the start path");
}

#[test]
fn find_mindepth_exceeds_tree_depth() {
    let mut shell = test_shell();

    shell_run(&shell, "mkdir -p /workspace/shallow/sub");
    shell_run(&shell, "echo 'x' > /workspace/shallow/file.txt");
    shell_run(&shell, "echo 'y' > /workspace/shallow/sub/nested.txt");

    // mindepth 10 on a shallow tree - should find nothing
    let output = shell_output(&mut shell, "find /workspace/shallow -mindepth 10");
    assert!(
        output.trim().is_empty(),
        "should find nothing with mindepth > tree depth"
    );
}

#[test]
fn find_name_exact_match_no_wildcards() {
    let mut shell = test_shell();

    shell_run(&shell, "mkdir -p /workspace/exact");
    shell_run(&shell, "echo 'a' > /workspace/exact/file.txt");
    shell_run(&shell, "echo 'b' > /workspace/exact/file.txt.bak");
    shell_run(&shell, "echo 'c' > /workspace/exact/afile.txt");
    shell_run(&shell, "echo 'd' > /workspace/exact/file.txtx");

    // Exact name match without wildcards
    let output = shell_output(&mut shell, "find /workspace/exact -name 'file.txt'");
    assert!(output.contains("file.txt"));
    assert!(!output.contains("file.txt.bak"));
    assert!(!output.contains("afile.txt"));
    assert!(!output.contains("file.txtx"));

    // Count matches
    let count = output.lines().count();
    assert_eq!(count, 1, "should find exactly one match");
}

#[test]
fn find_multiple_paths_with_filters() {
    let mut shell = test_shell();

    shell_run(&shell, "mkdir -p /workspace/pathA/sub");
    shell_run(&shell, "mkdir -p /workspace/pathB/sub");
    shell_run(&shell, "echo 'a' > /workspace/pathA/file.rs");
    shell_run(&shell, "echo 'b' > /workspace/pathA/sub/nested.rs");
    shell_run(&shell, "echo 'c' > /workspace/pathB/file.rs");
    shell_run(&shell, "echo 'd' > /workspace/pathB/other.txt");

    // Find .rs files across multiple paths
    let output = shell_output(
        &mut shell,
        "find /workspace/pathA /workspace/pathB -name '*.rs' -type f",
    );
    assert!(output.contains("pathA") && output.contains("file.rs"));
    assert!(output.contains("nested.rs"));
    assert!(output.contains("pathB"));
    assert!(!output.contains("other.txt"));

    // Count .rs files
    let count = output.lines().count();
    assert_eq!(count, 3, "should find 3 .rs files across both paths");
}

#[test]
fn find_writes_in_order() {
    let vfs = Rc::new(RefCell::new(Vfs::new()));
    let (ctx, _) = make_ctx(vec!["find", "nowhere", "/", "gone", "-maxdepth", "0"], vfs);
    let report = find::run(&ctx.inner);
    let missing = |p: &str| format!("find: '{p}': No such file or directory\n");
    assert_eq!(
        report.texts,
        [
            (Channel::Stderr, missing("nowhere")),
            (Channel::Stdout, "/\n".to_string()),
            (Channel::Stderr, missing("gone")),
        ]
    );
}
