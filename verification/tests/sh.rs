//! sh.
#![allow(dead_code)]
use std::cell::RefCell;
use std::rc::Rc;

use amla_sandbox_shell::commands::{
    builtins, echo, find, get_command, mkdir, sh, touch, Channel, CommandId, Printed, Report,
    Said, Start,
};
use amla_sandbox_shell::context::CmdContext;
use amla_sandbox_shell::env::Environment;
use amla_sandbox_shell::error::{IoError, VfsError};
use amla_sandbox_shell::fs::{DirEntry, Node, Snapshot};
use amla_sandbox_shell::io_handle::IoHandle;

/// What is printed, as text.
fn text_of(printed: Printed) -> Said {
    let out = String::from_utf8(printed.out).unwrap();
    Said { out, err: printed.err, code: printed.code }
}

/// What goes to each stream.
fn said_of(report: Report) -> Said {
    let mut said = Said { out: String::new(), err: String::new(), code: report.code };
    for (channel, text) in report.texts {
        match channel {
            Channel::Stdout => said.out.push_str(&text),
            Channel::Stderr => said.err.push_str(&text),
        }
    }
    said
}

/// A tree of directories and files.
struct Vfs {
    dirs: Vec<String>,
    files: Vec<(String, Vec<u8>)>,
}

#[derive(Clone, Copy)]
enum Permission {
    ReadWrite,
}

impl Vfs {
    fn new() -> Vfs {
        Vfs { dirs: vec!["/".to_string(), "/workspace".to_string()], files: Vec::new() }
    }

    fn is_dir(&self, path: &str) -> bool {
        self.dirs.iter().any(|d| d == path)
    }

    fn has(&self, path: &str) -> bool {
        self.is_dir(path) || self.files.iter().any(|(f, _)| f == path)
    }

    fn create_dir(&mut self, path: &str, _p: Permission) -> Result<(), VfsError> {
        if self.has(path) {
            return Err(VfsError::AlreadyExists(path.to_string()));
        }
        self.dirs.push(path.to_string());
        Ok(())
    }

    fn create_dir_all(&mut self, path: &str, p: Permission) -> Result<(), VfsError> {
        let mut at = String::new();
        for part in path.split('/').filter(|s| !s.is_empty()) {
            at = format!("{at}/{part}");
            if !self.is_dir(&at) {
                self.create_dir(&at, p)?;
            }
        }
        Ok(())
    }

    fn write_file(&mut self, path: &str, data: &[u8], _p: Permission) -> Result<(), VfsError> {
        let parent = match path.rfind('/') {
            Some(0) | None => "/",
            Some(i) => &path[..i],
        };
        if !self.is_dir(parent) {
            return Err(VfsError::NotFound(parent.to_string()));
        }
        self.files.retain(|(f, _)| f != path);
        self.files.push((path.to_string(), data.to_vec()));
        Ok(())
    }

    fn read_file(&self, path: &str) -> Result<Vec<u8>, VfsError> {
        match self.files.iter().find(|(f, _)| f == path) {
            Some((_, data)) => Ok(data.clone()),
            None => Err(VfsError::NotFound(path.to_string())),
        }
    }

    fn children(&self, dir: &str) -> Vec<DirEntry> {
        let prefix = if dir == "/" { "/".to_string() } else { format!("{dir}/") };
        let mut entries: Vec<(String, bool)> = Vec::new();
        let dirs = self.dirs.iter().map(|d| (d, true));
        let files = self.files.iter().map(|(f, _)| (f, false));
        for (path, is_dir) in dirs.chain(files) {
            if let Some(name) = path.strip_prefix(&prefix) {
                if !name.is_empty() && !name.contains('/') {
                    entries.push((name.to_string(), is_dir));
                }
            }
        }
        entries.sort();
        entries.into_iter().map(|(name, is_dir)| DirEntry { name, is_dir }).collect()
    }

    fn snapshot(&self) -> Snapshot {
        let mut s = Snapshot::new();
        for d in &self.dirs {
            s.nodes.push((d.clone(), Node::Dir(self.children(d))));
        }
        for (f, data) in &self.files {
            s.nodes.push((f.clone(), Node::File(Some(data.len() as u64))));
        }
        s
    }
}

/// What a command writes to a stream.
#[derive(Clone)]
struct Out(Rc<RefCell<Vec<u8>>>);

impl Out {
    fn new() -> Out {
        Out(Rc::new(RefCell::new(Vec::new())))
    }

    fn write(&self, text: &str) {
        self.0.borrow_mut().extend_from_slice(text.as_bytes());
    }

    fn get_buffer(&self) -> Option<Vec<u8>> {
        Some(self.0.borrow().clone())
    }
}

fn context(argv: &[String], cwd: &str, env: &Environment, fs: Snapshot) -> CmdContext {
    CmdContext::new(
        argv.to_vec(),
        IoHandle::null(),
        IoHandle::buffer(),
        IoHandle::buffer(),
        cwd.to_string(),
        env.duplicate(),
        fs,
    )
}

/// A shell that runs simple commands over a tree of files.
struct Shell {
    vfs: Rc<RefCell<Vfs>>,
    cwd: RefCell<String>,
    env: RefCell<Environment>,
    out: RefCell<Out>,
    err: Out,
}

/// The words of a command line. Text in single quotes is taken as it is, other words
/// are expanded.
fn words(line: &str, env: &Environment) -> Vec<String> {
    let mut all: Vec<String> = Vec::new();
    let mut rest = line.trim_start();
    while !rest.is_empty() {
        let mut word = String::new();
        while let Some(c) = rest.chars().next() {
            if c == ' ' {
                break;
            }
            if c == '\'' || c == '"' {
                let end = rest[1..].find(c).unwrap() + 1;
                if c == '"' {
                    word.push_str(&env.expand(&rest[1..end], 0));
                } else {
                    word.push_str(&rest[1..end]);
                }
                rest = &rest[end + 1..];
            } else {
                let end = rest.find(|c| c == ' ' || c == '\'' || c == '"').unwrap_or(rest.len());
                word.push_str(&env.expand(&rest[..end], 0));
                rest = &rest[end..];
            }
        }
        all.push(word);
        rest = rest.trim_start();
    }
    all
}

impl Shell {
    fn new() -> Shell {
        Shell {
            vfs: Rc::new(RefCell::new(Vfs::new())),
            cwd: RefCell::new("/workspace".to_string()),
            env: RefCell::new(Environment::new()),
            out: RefCell::new(Out::new()),
            err: Out::new(),
        }
    }

    fn vfs_mut(&self) -> std::cell::RefMut<'_, Vfs> {
        self.vfs.borrow_mut()
    }

    fn env_mut(&self) -> std::cell::RefMut<'_, Environment> {
        self.env.borrow_mut()
    }

    fn context(&self, argv: &[String]) -> CmdContext {
        context(argv, &self.cwd.borrow(), &self.env.borrow(), self.vfs.borrow().snapshot())
    }

    fn execute(&self, line: &str) -> i32 {
        let mut argv = words(line, &self.env.borrow());
        let mut target = None;
        if let Some(at) = argv.iter().position(|w| w == ">") {
            target = Some(self.context(&argv).resolve_path(&argv[at + 1]));
            argv.truncate(at);
        }
        let ctx = self.context(&argv);
        let said = match get_command(&argv[0]).unwrap() {
            CommandId::Echo => text_of(echo::run(&argv)),
            CommandId::True => builtins::cmd_true(&ctx).said,
            CommandId::False => builtins::cmd_false(&ctx).said,
            CommandId::Exit => builtins::exit(&ctx).said,
            CommandId::Find => said_of(find::run(&ctx)),
            CommandId::Cd => {
                let exit = builtins::cd(&ctx);
                if let Some(dir) = exit.effects.cwd {
                    *self.cwd.borrow_mut() = dir;
                }
                exit.said
            }
            CommandId::Mkdir => self.mkdir(&argv),
            CommandId::Touch => self.touch(&argv),
            CommandId::Sh => self.sh(&argv),
            other => panic!("{other:?}"),
        };
        match target {
            Some(path) => self
                .vfs
                .borrow_mut()
                .write_file(&path, said.out.as_bytes(), Permission::ReadWrite)
                .unwrap(),
            None => self.out.borrow().write(&said.out),
        }
        self.err.write(&said.err);
        said.code
    }

    fn mkdir(&self, argv: &Vec<String>) -> Said {
        let mut m = match mkdir::run(argv) {
            Start::Done(said) => return said,
            Start::Go(m) => m,
        };
        let mut all = Said { out: String::new(), err: String::new(), code: 0 };
        for i in 0..m.dirs.len() {
            let name = m.dirs.at(i).to_string();
            let path = self.context(argv).resolve_path(&name);
            let mut vfs = self.vfs.borrow_mut();
            let made = if m.parents {
                vfs.create_dir_all(&path, Permission::ReadWrite)
            } else {
                vfs.create_dir(&path, Permission::ReadWrite)
            };
            let said = m.made(&name, made.map_err(|e| IoError::Vfs(e, path.clone())));
            all.out.push_str(&said.out);
            all.err.push_str(&said.err);
        }
        all.code = m.code;
        all
    }

    fn touch(&self, argv: &Vec<String>) -> Said {
        let mut t = match touch::run(argv) {
            Start::Done(said) => return said,
            Start::Go(t) => t,
        };
        let mut all = Said { out: String::new(), err: String::new(), code: 0 };
        for i in 0..t.files.len() {
            let name = t.files.at(i).to_string();
            let ctx = self.context(argv);
            if t.creates(&ctx, &name) {
                let path = ctx.resolve_path(&name);
                let written = self.vfs.borrow_mut().write_file(&path, b"", Permission::ReadWrite);
                if let Err(e) = written {
                    all.err.push_str(&t.not_created(&name, &IoError::Vfs(e, path)).err);
                }
            }
        }
        all.code = t.code;
        all
    }

    fn sh(&self, argv: &Vec<String>) -> Said {
        let sh = match sh::run(argv) {
            Start::Done(said) => return said,
            Start::Go(sh) => sh,
        };
        let script = match sh.script {
            sh::Script::Text(s) => s,
            sh::Script::File(f) => {
                let path = self.context(argv).resolve_path(&f);
                let bytes = self.vfs.borrow().read_file(&path).unwrap();
                match sh::script_text(bytes, Some(&f)) {
                    Ok(s) => s,
                    Err(said) => return said,
                }
            }
            sh::Script::Stdin => String::new(),
        };
        let child = Shell {
            vfs: self.vfs.clone(),
            cwd: RefCell::new(self.cwd.borrow().clone()),
            env: RefCell::new(sh::child_env(&self.context(argv), &sh.positional)),
            out: RefCell::new(self.out.borrow().clone()),
            err: self.err.clone(),
        };
        let mut run = sh::Run::new(&script);
        while let Some(line) = run.next() {
            let code = child.execute(line);
            run.executed(code);
        }
        Said { out: String::new(), err: String::new(), code: run.code }
    }
}

fn test_shell() -> Shell {
    Shell::new()
}

fn run(shell: &Shell, cmd: &str) -> Result<i32, String> {
    Ok(shell.execute(cmd))
}

#[test]
fn sh_c_true() {
    let shell = test_shell();
    assert_eq!(run(&shell, "sh -c true").unwrap(), 0);
}

#[test]
fn sh_c_false() {
    let shell = test_shell();
    assert_eq!(run(&shell, "sh -c false").unwrap(), 1);
}

#[test]
fn sh_c_exit() {
    let shell = test_shell();
    assert_eq!(run(&shell, "sh -c 'exit 42'").unwrap(), 42);
}

#[test]
fn sh_c_missing_arg() {
    let shell = test_shell();
    assert_eq!(run(&shell, "sh -c").unwrap(), 2);
}

#[test]
fn sh_script_file() {
    let shell = test_shell();
    shell
        .vfs_mut()
        .write_file(
            "/workspace/test.sh",
            b"true\ntrue\nexit 0",
            Permission::ReadWrite,
        )
        .unwrap();
    // Script with 3 lines: true, true, exit 0
    assert_eq!(run(&shell, "sh /workspace/test.sh").unwrap(), 0);
}

#[test]
fn sh_inherits_environment() {
    let shell = test_shell();
    shell.env_mut().set("MY_VAR", "hello_world");
    // sh inherits the environment
    assert_eq!(run(&shell, "sh -c true").unwrap(), 0);
}

#[test]
fn sh_inherits_cwd() {
    let shell = test_shell();
    shell
        .vfs_mut()
        .create_dir_all("/workspace/subdir", Permission::ReadWrite)
        .unwrap();
    run(&shell, "cd /workspace/subdir").unwrap();
    assert_eq!(run(&shell, "sh -c true").unwrap(), 0);
}

#[test]
fn sh_unknown_option() {
    let shell = test_shell();
    // Error on first step
    assert_eq!(run(&shell, "sh -x true").unwrap(), 2);
}

#[test]
fn sh_script_with_comments() {
    let shell = test_shell();
    shell
        .vfs_mut()
        .write_file(
            "/workspace/test.sh",
            b"# This is a comment\ntrue\n# Another comment\nexit 5",
            Permission::ReadWrite,
        )
        .unwrap();
    // Script with 2 actual commands: true, exit 5
    assert_eq!(run(&shell, "sh /workspace/test.sh").unwrap(), 5);
}

#[test]
fn sh_multiline_script() {
    let shell = test_shell();
    shell
        .vfs_mut()
        .write_file(
            "/workspace/multi.sh",
            b"true\nfalse\ntrue",
            Permission::ReadWrite,
        )
        .unwrap();
    // Last command is 'true' so exit code should be 0
    assert_eq!(run(&shell, "sh /workspace/multi.sh").unwrap(), 0);
}

#[test]
fn sh_c_positional_args_dollar_1() {
    let shell = test_shell();
    // sh -c 'echo $1' foo bar -> $0=foo, $1=bar
    shell
        .vfs_mut()
        .write_file("/workspace/out.txt", b"", Permission::ReadWrite)
        .unwrap();
    run(&shell, "sh -c 'echo $1 > /workspace/out.txt' foo bar").unwrap();
    let content = shell.vfs.borrow().read_file("/workspace/out.txt").unwrap();
    assert_eq!(String::from_utf8_lossy(&content).trim(), "bar");
}

#[test]
fn sh_c_positional_args_dollar_0() {
    let shell = test_shell();
    // sh -c 'echo $0' myscript -> $0=myscript
    shell
        .vfs_mut()
        .write_file("/workspace/out.txt", b"", Permission::ReadWrite)
        .unwrap();
    run(&shell, "sh -c 'echo $0 > /workspace/out.txt' myscript").unwrap();
    let content = shell.vfs.borrow().read_file("/workspace/out.txt").unwrap();
    assert_eq!(String::from_utf8_lossy(&content).trim(), "myscript");
}

#[test]
fn sh_c_positional_args_dollar_hash() {
    let shell = test_shell();
    // sh -c 'echo $#' s0 a1 a2 a3 -> $0=s0, $1=a1, $2=a2, $3=a3, $#=3
    shell
        .vfs_mut()
        .write_file("/workspace/out.txt", b"", Permission::ReadWrite)
        .unwrap();
    run(&shell, "sh -c 'echo $# > /workspace/out.txt' s0 a1 a2 a3")
    .unwrap();
    let content = shell.vfs.borrow().read_file("/workspace/out.txt").unwrap();
    assert_eq!(String::from_utf8_lossy(&content).trim(), "3");
}

#[test]
fn sh_c_positional_args_dollar_at() {
    let shell = test_shell();
    // sh -c 'echo $@' s0 a1 a2 -> $@="a1 a2"
    shell
        .vfs_mut()
        .write_file("/workspace/out.txt", b"", Permission::ReadWrite)
        .unwrap();
    run(&shell, "sh -c 'echo $@ > /workspace/out.txt' s0 a1 a2").unwrap();
    let content = shell.vfs.borrow().read_file("/workspace/out.txt").unwrap();
    assert_eq!(String::from_utf8_lossy(&content).trim(), "a1 a2");
}

#[test]
fn sh_c_no_positional_args() {
    let shell = test_shell();
    // sh -c 'echo $0' with no args -> $0=sh (default)
    shell
        .vfs_mut()
        .write_file("/workspace/out.txt", b"", Permission::ReadWrite)
        .unwrap();
    run(&shell, "sh -c 'echo $0 > /workspace/out.txt'").unwrap();
    let content = shell.vfs.borrow().read_file("/workspace/out.txt").unwrap();
    assert_eq!(String::from_utf8_lossy(&content).trim(), "sh");
}
